//! The collection ACL: collection CRUD within an organization, the
//! per-user visibility rule, and the grant join views.

use vstd::prelude::*;

use crate::types::{Collection, Grant, Membership, OrgError};
use crate::engine::{
    by_collection_id, by_grant_pair, by_member_id_org, by_member_pair, cc_keep, collection_of_org,
    grant_keep, in_org_collection, of_collection, same_state, Engine,
};
use crate::seqs::{
    idx_by, keep, lemma_keep_distinct, lemma_push_distinct, lemma_remove_distinct,
    lemma_update_distinct,
};

verus! {

/// A user sees a collection when their membership in its organization has
/// `access_all`, or when they hold an explicit grant on it.
pub open spec fn user_sees(ms: Seq<Membership>, gs: Seq<Grant>, user_id: u64, c: Collection) -> bool {
    ||| exists|i: int|
        0 <= i < ms.len() && (#[trigger] ms[i]).user_id == user_id && ms[i].org_id == c.org_id
            && ms[i].access_all
    ||| exists|i: int|
        0 <= i < gs.len() && (#[trigger] gs[i]).user_id == user_id && gs[i].collection_id == c.id
}

/// The collections this user can see.
pub open spec fn visible_to(ms: Seq<Membership>, gs: Seq<Grant>, user_id: u64) -> spec_fn(
    Collection,
) -> bool {
    |c: Collection| user_sees(ms, gs, user_id, c)
}

impl Engine {
    /// Whether this user sees the collection at this index.
    #[verifier::loop_isolation(false)]
    fn sees_collection(&self, user_id: u64, ci: usize) -> (b: bool)
        requires
            self.wf(),
            ci < self.collections@.len(),
        ensures
            b == user_sees(self.memberships@, self.grants@, user_id, self.collections@[ci as int]),
    {
        let ghost c = self.collections@[ci as int];
        let cid = self.collections[ci].id;
        let corg = self.collections[ci].org_id;
        let mut can = false;
        match self.find_member(user_id, corg) {
            Some(mi) => {
                if self.memberships[mi].access_all {
                    can = true;
                }
                proof {
                    if !can {
                        if exists|q: int|
                            0 <= q < self.memberships@.len() && (#[trigger] self.memberships@[q]).user_id
                                == user_id && self.memberships@[q].org_id == corg
                                && self.memberships@[q].access_all {
                            let q = choose|q: int|
                                0 <= q < self.memberships@.len() && (
                                #[trigger] self.memberships@[q]).user_id == user_id
                                    && self.memberships@[q].org_id == corg
                                    && self.memberships@[q].access_all;
                            assert(q == mi as int);
                        }
                    }
                }
            },
            None => {},
        }
        if !can {
            match self.find_grant(cid, user_id) {
                Some(gi) => {
                    can = true;
                    proof {
                        assert(self.grants@[gi as int].user_id == user_id);
                    }
                },
                None => {},
            }
        }
        can
    }

    /// Lists the collections this user can see: every collection of an
    /// organization where their membership has `access_all`, and every
    /// collection they hold an explicit grant on, in store order.
    #[verifier::loop_isolation(false)]
    pub fn get_user_collections(&self, user_id: u64) -> (r: Vec<Collection>)
        requires
            self.wf(),
        ensures
            r@ == keep(self.collections@, visible_to(self.memberships@, self.grants@, user_id)),
    {
        let ghost p = visible_to(self.memberships@, self.grants@, user_id);
        let mut out: Vec<Collection> = Vec::new();
        let mut i: usize = 0;
        proof {
            assert(self.collections@.skip(0) =~= self.collections@);
        }
        while i < self.collections.len()
            invariant
                i <= self.collections@.len(),
                keep(self.collections@, p) == out@ + keep(self.collections@.skip(i as int), p),
            decreases self.collections@.len() - i,
        {
            let ghost v = self.collections@;
            proof {
                assert(v.skip(i as int).first() == v[i as int]);
                assert(v.skip(i as int).drop_first() =~= v.skip(i as int + 1));
            }
            if self.sees_collection(user_id, i) {
                let ghost outpre = out@;
                out.push(self.collections[i].duplicate());
                proof {
                    assert(out@ =~= outpre + seq![v[i as int]]);
                    assert(outpre + (seq![v[i as int]] + keep(v.skip(i as int + 1), p)) =~= out@
                        + keep(v.skip(i as int + 1), p));
                }
            }
            i += 1;
        }
        proof {
            assert(self.collections@.skip(self.collections@.len() as int) =~= Seq::<
                Collection,
            >::empty());
            assert(out@ + Seq::<Collection>::empty() =~= out@);
        }
        out
    }

    /// Lists every collection of the organization, in store order: the
    /// unfiltered administrative view.
    #[verifier::loop_isolation(false)]
    pub fn get_org_collections(&self, org_id: u64) -> (r: Vec<Collection>)
        ensures
            r@ == keep(self.collections@, in_org_collection(org_id)),
    {
        let ghost p = in_org_collection(org_id);
        let mut out: Vec<Collection> = Vec::new();
        let mut i: usize = 0;
        proof {
            assert(self.collections@.skip(0) =~= self.collections@);
        }
        while i < self.collections.len()
            invariant
                i <= self.collections@.len(),
                keep(self.collections@, p) == out@ + keep(self.collections@.skip(i as int), p),
            decreases self.collections@.len() - i,
        {
            let ghost v = self.collections@;
            proof {
                assert(v.skip(i as int).first() == v[i as int]);
                assert(v.skip(i as int).drop_first() =~= v.skip(i as int + 1));
            }
            if self.collections[i].org_id == org_id {
                let ghost outpre = out@;
                out.push(self.collections[i].duplicate());
                proof {
                    assert(out@ =~= outpre + seq![v[i as int]]);
                    assert(outpre + (seq![v[i as int]] + keep(v.skip(i as int + 1), p)) =~= out@
                        + keep(v.skip(i as int + 1), p));
                }
            }
            i += 1;
        }
        proof {
            assert(self.collections@.skip(self.collections@.len() as int) =~= Seq::<
                Collection,
            >::empty());
            assert(out@ + Seq::<Collection>::empty() =~= out@);
        }
        out
    }

    /// Creates a collection in an existing organization.
    pub fn post_organization_collections(&mut self, org_id: u64, name: String) -> (r: Result<
        Collection,
        OrgError,
    >)
        requires
            old(self).wf(),
            old(self).next_id as int + 1 <= u64::MAX as int,
        ensures
            final(self).wf(),
            match r {
                Ok(c) => {
                    &&& old(self).org_present(org_id)
                    &&& c.id == old(self).next_id
                    &&& c.org_id == org_id
                    &&& c.name == name
                    &&& final(self).collections@ == old(self).collections@.push(c)
                    &&& final(self).next_id == old(self).next_id + 1
                    &&& final(self).orgs@ == old(self).orgs@
                    &&& final(self).users@ == old(self).users@
                    &&& final(self).memberships@ == old(self).memberships@
                    &&& final(self).grants@ == old(self).grants@
                    &&& final(self).ciphers@ == old(self).ciphers@
                    &&& final(self).collection_ciphers@ == old(self).collection_ciphers@
                    &&& final(self).invitations@ == old(self).invitations@
                    &&& final(self).invitations_allowed == old(self).invitations_allowed
                },
                Err(e) => e == OrgError::NotFound && !old(self).org_present(org_id) && same_state(
                    *old(self),
                    *final(self),
                ),
            },
    {
        match self.find_org(org_id) {
            None => Err(OrgError::NotFound),
            Some(_) => {
                let c = Collection { id: self.next_id, org_id, name };
                let r = c.duplicate();
                let ghost cg = c;
                self.next_id = self.next_id + 1;
                self.collections.push(c);
                proof {
                    let pre = *old(self);
                    assert forall|k: int| 0 <= k < pre.collections@.len() implies by_collection_id()(
                        #[trigger] pre.collections@[k],
                    ) != by_collection_id()(cg) by {}
                    lemma_push_distinct(pre.collections@, cg, by_collection_id());
                }
                Ok(r)
            },
        }
    }

    /// Renames one collection of an existing organization; a collection of
    /// another organization is reported as a mismatch, distinct from an
    /// absent one.
    pub fn post_organization_collection_update(&mut self, org_id: u64, col_id: u64, name: String) -> (r:
        Result<Collection, OrgError>)
        requires
            old(self).wf(),
        ensures
            final(self).wf(),
            match r {
                Ok(c) => old(self).org_present(org_id) && (idx_by(
                    old(self).collections@,
                    by_collection_id(),
                    col_id,
                ) matches Some(ci) && {
                    &&& old(self).collections@[ci].org_id == org_id
                    &&& c.id == col_id
                    &&& c.org_id == org_id
                    &&& c.name == name
                    &&& final(self).collections@ == old(self).collections@.update(ci, c)
                    &&& final(self).orgs@ == old(self).orgs@
                    &&& final(self).users@ == old(self).users@
                    &&& final(self).memberships@ == old(self).memberships@
                    &&& final(self).grants@ == old(self).grants@
                    &&& final(self).ciphers@ == old(self).ciphers@
                    &&& final(self).collection_ciphers@ == old(self).collection_ciphers@
                    &&& final(self).invitations@ == old(self).invitations@
                    &&& final(self).invitations_allowed == old(self).invitations_allowed
                    &&& final(self).next_id == old(self).next_id
                }),
                Err(e) => same_state(*old(self), *final(self)) && (if !old(self).org_present(
                    org_id,
                ) {
                    e == OrgError::NotFound
                } else {
                    match idx_by(old(self).collections@, by_collection_id(), col_id) {
                        None => e == OrgError::NotFound,
                        Some(ci) => e == OrgError::OrgMismatch && old(self).collections@[ci].org_id
                            != org_id,
                    }
                }),
            },
    {
        if let None = self.find_org(org_id) {
            return Err(OrgError::NotFound);
        }
        match self.find_collection(col_id) {
            None => Err(OrgError::NotFound),
            Some(ci) => {
                if self.collections[ci].org_id != org_id {
                    return Err(OrgError::OrgMismatch);
                }
                let mut c = self.collections.remove(ci);
                c.name = name;
                let r = c.duplicate();
                self.collections.insert(ci, c);
                proof {
                    let pre = *old(self);
                    assert(self.collections@ =~= pre.collections@.update(ci as int, r));
                    lemma_update_distinct(pre.collections@, ci as int, r, by_collection_id());
                }
                Ok(r)
            },
        }
    }

    /// Same operation as `post_organization_collection_update`, offered
    /// under the other verb.
    pub fn put_organization_collection_update(&mut self, org_id: u64, col_id: u64, name: String) -> (r:
        Result<Collection, OrgError>)
        requires
            old(self).wf(),
        ensures
            final(self).wf(),
            match r {
                Ok(c) => old(self).org_present(org_id) && (idx_by(
                    old(self).collections@,
                    by_collection_id(),
                    col_id,
                ) matches Some(ci) && {
                    &&& old(self).collections@[ci].org_id == org_id
                    &&& c.id == col_id
                    &&& c.org_id == org_id
                    &&& c.name == name
                    &&& final(self).collections@ == old(self).collections@.update(ci, c)
                    &&& final(self).orgs@ == old(self).orgs@
                    &&& final(self).users@ == old(self).users@
                    &&& final(self).memberships@ == old(self).memberships@
                    &&& final(self).grants@ == old(self).grants@
                    &&& final(self).ciphers@ == old(self).ciphers@
                    &&& final(self).collection_ciphers@ == old(self).collection_ciphers@
                    &&& final(self).invitations@ == old(self).invitations@
                    &&& final(self).invitations_allowed == old(self).invitations_allowed
                    &&& final(self).next_id == old(self).next_id
                }),
                Err(e) => same_state(*old(self), *final(self)) && (if !old(self).org_present(
                    org_id,
                ) {
                    e == OrgError::NotFound
                } else {
                    match idx_by(old(self).collections@, by_collection_id(), col_id) {
                        None => e == OrgError::NotFound,
                        Some(ci) => e == OrgError::OrgMismatch && old(self).collections@[ci].org_id
                            != org_id,
                    }
                }),
            },
    {
        self.post_organization_collection_update(org_id, col_id, name)
    }

    /// Deletes one collection of the organization, together with its grants
    /// and its item associations.
    pub fn delete_organization_collection(&mut self, org_id: u64, col_id: u64) -> (r: Result<
        (),
        OrgError,
    >)
        requires
            old(self).wf(),
        ensures
            final(self).wf(),
            match r {
                Ok(()) => idx_by(old(self).collections@, by_collection_id(), col_id)
                    matches Some(ci) && {
                    &&& old(self).collections@[ci].org_id == org_id
                    &&& final(self).collections@ == old(self).collections@.remove(ci)
                    &&& final(self).grants@ == keep(
                        old(self).grants@,
                        grant_keep(old(self).collections@, None, None, Some(col_id)),
                    )
                    &&& final(self).collection_ciphers@ == keep(
                        old(self).collection_ciphers@,
                        cc_keep(old(self).collections@, None, Some(col_id)),
                    )
                    &&& final(self).orgs@ == old(self).orgs@
                    &&& final(self).users@ == old(self).users@
                    &&& final(self).memberships@ == old(self).memberships@
                    &&& final(self).ciphers@ == old(self).ciphers@
                    &&& final(self).invitations@ == old(self).invitations@
                    &&& final(self).invitations_allowed == old(self).invitations_allowed
                    &&& final(self).next_id == old(self).next_id
                },
                Err(e) => same_state(*old(self), *final(self)) && (match idx_by(
                    old(self).collections@,
                    by_collection_id(),
                    col_id,
                ) {
                    None => e == OrgError::NotFound,
                    Some(ci) => e == OrgError::OrgMismatch && old(self).collections@[ci].org_id
                        != org_id,
                }),
            },
    {
        match self.find_collection(col_id) {
            None => Err(OrgError::NotFound),
            Some(ci) => {
                if self.collections[ci].org_id != org_id {
                    return Err(OrgError::OrgMismatch);
                }
                self.retain_grants(None, None, Some(col_id));
                self.retain_collection_ciphers(None, Some(col_id));
                self.collections.remove(ci);
                proof {
                    let pre = *old(self);
                    lemma_remove_distinct(pre.collections@, ci as int, by_collection_id());
                    lemma_keep_distinct(
                        pre.grants@,
                        grant_keep(pre.collections@, None, None, Some(col_id)),
                        by_grant_pair(),
                    );
                    assert forall|k: int|
                        0 <= k < self.collections@.len() implies (#[trigger] self.collections@[k]).id
                        < self.next_id by {
                        if k < ci as int {
                            assert(self.collections@[k] == pre.collections@[k]);
                        } else {
                            assert(self.collections@[k] == pre.collections@[k + 1]);
                        }
                    }
                }
                Ok(())
            },
        }
    }

    /// Same operation as `delete_organization_collection`, offered under
    /// the other verb.
    pub fn post_organization_collection_delete(&mut self, org_id: u64, col_id: u64) -> (r: Result<
        (),
        OrgError,
    >)
        requires
            old(self).wf(),
        ensures
            final(self).wf(),
            match r {
                Ok(()) => idx_by(old(self).collections@, by_collection_id(), col_id)
                    matches Some(ci) && {
                    &&& old(self).collections@[ci].org_id == org_id
                    &&& final(self).collections@ == old(self).collections@.remove(ci)
                    &&& final(self).grants@ == keep(
                        old(self).grants@,
                        grant_keep(old(self).collections@, None, None, Some(col_id)),
                    )
                    &&& final(self).collection_ciphers@ == keep(
                        old(self).collection_ciphers@,
                        cc_keep(old(self).collections@, None, Some(col_id)),
                    )
                    &&& final(self).orgs@ == old(self).orgs@
                    &&& final(self).users@ == old(self).users@
                    &&& final(self).memberships@ == old(self).memberships@
                    &&& final(self).ciphers@ == old(self).ciphers@
                    &&& final(self).invitations@ == old(self).invitations@
                    &&& final(self).invitations_allowed == old(self).invitations_allowed
                    &&& final(self).next_id == old(self).next_id
                },
                Err(e) => same_state(*old(self), *final(self)) && (match idx_by(
                    old(self).collections@,
                    by_collection_id(),
                    col_id,
                ) {
                    None => e == OrgError::NotFound,
                    Some(ci) => e == OrgError::OrgMismatch && old(self).collections@[ci].org_id
                        != org_id,
                }),
            },
    {
        self.delete_organization_collection(org_id, col_id)
    }

    /// Reads one collection as one user sees it; a collection the user
    /// cannot see reads as absent, and one of another organization is a
    /// mismatch.
    pub fn get_org_collection_detail(&self, org_id: u64, coll_id: u64, user_id: u64) -> (r: Result<
        Collection,
        OrgError,
    >)
        requires
            self.wf(),
        ensures
            match r {
                Ok(c) => idx_by(self.collections@, by_collection_id(), coll_id) matches Some(ci)
                    && c == self.collections@[ci] && c.org_id == org_id && user_sees(
                    self.memberships@,
                    self.grants@,
                    user_id,
                    c,
                ),
                Err(e) => match idx_by(self.collections@, by_collection_id(), coll_id) {
                    None => e == OrgError::NotFound,
                    Some(ci) => {
                        let c = self.collections@[ci];
                        if !user_sees(self.memberships@, self.grants@, user_id, c) {
                            e == OrgError::NotFound
                        } else {
                            e == OrgError::OrgMismatch && c.org_id != org_id
                        }
                    },
                },
            },
    {
        match self.find_collection(coll_id) {
            None => Err(OrgError::NotFound),
            Some(ci) => {
                if !self.sees_collection(user_id, ci) {
                    return Err(OrgError::NotFound);
                }
                if self.collections[ci].org_id != org_id {
                    return Err(OrgError::OrgMismatch);
                }
                Ok(self.collections[ci].duplicate())
            },
        }
    }

    /// Lists, for one collection of the organization, each granted
    /// membership with the grant's read-only flag. Every grant is expected
    /// to resolve to a membership of the organization: an unresolved join
    /// is an internal-consistency fault, not a user-facing failure, so the
    /// caller vouches that the joins resolve.
    #[verifier::loop_isolation(false)]
    pub fn get_collection_users(&self, org_id: u64, coll_id: u64) -> (r: Result<
        Vec<(Membership, bool)>,
        OrgError,
    >)
        requires
            self.wf(),
            forall|k: int|
                0 <= k < self.grants@.len() && (#[trigger] self.grants@[k]).collection_id
                    == coll_id ==> idx_by(
                    self.memberships@,
                    by_member_pair(),
                    (self.grants@[k].user_id, org_id),
                ) is Some,
        ensures
            match r {
                Ok(v) => collection_of_org(self.collections@, coll_id, org_id) && ({
                    let kept = keep(self.grants@, of_collection(coll_id));
                    &&& v@.len() == kept.len()
                    &&& forall|k: int|
                        0 <= k < kept.len() ==> ((#[trigger] v@[k]).1 == kept[k].read_only && (
                        idx_by(
                            self.memberships@,
                            by_member_pair(),
                            (kept[k].user_id, org_id),
                        ) matches Some(j) && v@[k].0 == self.memberships@[j]))
                }),
                Err(e) => e == OrgError::NotFound && !collection_of_org(
                    self.collections@,
                    coll_id,
                    org_id,
                ),
            },
    {
        let ok = match self.find_collection(coll_id) {
            Some(ci) => self.collections[ci].org_id == org_id,
            None => false,
        };
        if !ok {
            proof {
                if collection_of_org(self.collections@, coll_id, org_id) {
                    let wi = choose|wi: int|
                        0 <= wi < self.collections@.len() && (#[trigger] self.collections@[wi]).id
                            == coll_id && self.collections@[wi].org_id == org_id;
                }
            }
            return Err(OrgError::NotFound);
        }
        let ghost p = of_collection(coll_id);
        let mut out: Vec<(Membership, bool)> = Vec::new();
        let ghost mut ks = Seq::<Grant>::empty();
        let mut i: usize = 0;
        proof {
            assert(self.grants@.skip(0) =~= self.grants@);
            assert(ks + keep(self.grants@, p) =~= keep(self.grants@, p));
        }
        while i < self.grants.len()
            invariant
                i <= self.grants@.len(),
                out@.len() == ks.len(),
                keep(self.grants@, p) == ks + keep(self.grants@.skip(i as int), p),
                forall|k: int|
                    0 <= k < ks.len() ==> ((#[trigger] out@[k]).1 == ks[k].read_only && (idx_by(
                        self.memberships@,
                        by_member_pair(),
                        (ks[k].user_id, org_id),
                    ) matches Some(j) && out@[k].0 == self.memberships@[j])),
            decreases self.grants@.len() - i,
        {
            let ghost v = self.grants@;
            proof {
                assert(v.skip(i as int).first() == v[i as int]);
                assert(v.skip(i as int).drop_first() =~= v.skip(i as int + 1));
            }
            let g = self.grants[i];
            if g.collection_id == coll_id {
                match self.find_member(g.user_id, org_id) {
                    Some(j) => {
                        let ghost outpre = out@;
                        out.push((self.memberships[j].duplicate(), g.read_only));
                        proof {
                            let ksold = ks;
                            ks = ks.push(g);
                            assert(ksold + (seq![g] + keep(v.skip(i as int + 1), p)) =~= ks + keep(
                                v.skip(i as int + 1),
                                p,
                            ));
                        }
                    },
                    None => {
                        proof {
                            assert(self.grants@[i as int].collection_id == coll_id);
                            assert(false);
                        }
                        return vstd::pervasive::unreached();
                    },
                }
            }
            i += 1;
        }
        proof {
            assert(self.grants@.skip(self.grants@.len() as int) =~= Seq::<Grant>::empty());
            assert(ks + Seq::<Grant>::empty() =~= ks);
        }
        Ok(out)
    }

    /// Deletes one user's grant on one collection of the organization; the
    /// membership is addressed by its id, and a missing grant reads as the
    /// user not being assigned to the collection.
    pub fn delete_organization_collection_user(
        &mut self,
        org_id: u64,
        col_id: u64,
        org_user_id: u64,
    ) -> (r: Result<(), OrgError>)
        requires
            old(self).wf(),
        ensures
            final(self).wf(),
            match r {
                Ok(()) => idx_by(old(self).collections@, by_collection_id(), col_id)
                    matches Some(ci) && (old(self).collections@[ci].org_id == org_id && (idx_by(
                    old(self).memberships@,
                    by_member_id_org(),
                    (org_user_id, org_id),
                ) matches Some(mj) && ({
                    let m = old(self).memberships@[mj];
                    idx_by(old(self).grants@, by_grant_pair(), (col_id, m.user_id))
                        matches Some(gi) && {
                        &&& final(self).grants@ == old(self).grants@.remove(gi)
                        &&& final(self).orgs@ == old(self).orgs@
                        &&& final(self).users@ == old(self).users@
                        &&& final(self).memberships@ == old(self).memberships@
                        &&& final(self).collections@ == old(self).collections@
                        &&& final(self).ciphers@ == old(self).ciphers@
                        &&& final(self).collection_ciphers@ == old(self).collection_ciphers@
                        &&& final(self).invitations@ == old(self).invitations@
                        &&& final(self).invitations_allowed == old(self).invitations_allowed
                        &&& final(self).next_id == old(self).next_id
                    }
                }))),
                Err(e) => same_state(*old(self), *final(self)) && (match idx_by(
                    old(self).collections@,
                    by_collection_id(),
                    col_id,
                ) {
                    None => e == OrgError::NotFound,
                    Some(ci) => {
                        if old(self).collections@[ci].org_id != org_id {
                            e == OrgError::OrgMismatch
                        } else {
                            match idx_by(
                                old(self).memberships@,
                                by_member_id_org(),
                                (org_user_id, org_id),
                            ) {
                                None => e == OrgError::NotFound,
                                Some(mj) => e == OrgError::NotFound && idx_by(
                                    old(self).grants@,
                                    by_grant_pair(),
                                    (col_id, old(self).memberships@[mj].user_id),
                                ) is None,
                            }
                        }
                    },
                }),
            },
    {
        let ci = match self.find_collection(col_id) {
            None => {
                return Err(OrgError::NotFound);
            },
            Some(i) => i,
        };
        if self.collections[ci].org_id != org_id {
            return Err(OrgError::OrgMismatch);
        }
        let mj = match self.find_member_by_id(org_user_id, org_id) {
            None => {
                return Err(OrgError::NotFound);
            },
            Some(i) => i,
        };
        let uid = self.memberships[mj].user_id;
        match self.find_grant(col_id, uid) {
            None => Err(OrgError::NotFound),
            Some(gi) => {
                self.grants.remove(gi);
                proof {
                    lemma_remove_distinct(old(self).grants@, gi as int, by_grant_pair());
                }
                Ok(())
            },
        }
    }

    /// Same operation as `delete_organization_collection_user`, offered
    /// under the other verb.
    pub fn post_organization_collection_delete_user(
        &mut self,
        org_id: u64,
        col_id: u64,
        org_user_id: u64,
    ) -> (r: Result<(), OrgError>)
        requires
            old(self).wf(),
        ensures
            final(self).wf(),
            match r {
                Ok(()) => idx_by(old(self).collections@, by_collection_id(), col_id)
                    matches Some(ci) && (old(self).collections@[ci].org_id == org_id && (idx_by(
                    old(self).memberships@,
                    by_member_id_org(),
                    (org_user_id, org_id),
                ) matches Some(mj) && ({
                    let m = old(self).memberships@[mj];
                    idx_by(old(self).grants@, by_grant_pair(), (col_id, m.user_id))
                        matches Some(gi) && {
                        &&& final(self).grants@ == old(self).grants@.remove(gi)
                        &&& final(self).orgs@ == old(self).orgs@
                        &&& final(self).users@ == old(self).users@
                        &&& final(self).memberships@ == old(self).memberships@
                        &&& final(self).collections@ == old(self).collections@
                        &&& final(self).ciphers@ == old(self).ciphers@
                        &&& final(self).collection_ciphers@ == old(self).collection_ciphers@
                        &&& final(self).invitations@ == old(self).invitations@
                        &&& final(self).invitations_allowed == old(self).invitations_allowed
                        &&& final(self).next_id == old(self).next_id
                    }
                }))),
                Err(e) => same_state(*old(self), *final(self)) && (match idx_by(
                    old(self).collections@,
                    by_collection_id(),
                    col_id,
                ) {
                    None => e == OrgError::NotFound,
                    Some(ci) => {
                        if old(self).collections@[ci].org_id != org_id {
                            e == OrgError::OrgMismatch
                        } else {
                            match idx_by(
                                old(self).memberships@,
                                by_member_id_org(),
                                (org_user_id, org_id),
                            ) {
                                None => e == OrgError::NotFound,
                                Some(mj) => e == OrgError::NotFound && idx_by(
                                    old(self).grants@,
                                    by_grant_pair(),
                                    (col_id, old(self).memberships@[mj].user_id),
                                ) is None,
                            }
                        }
                    },
                }),
            },
    {
        self.delete_organization_collection_user(org_id, col_id, org_user_id)
    }
}

} // verus!
