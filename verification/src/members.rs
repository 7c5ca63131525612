//! The membership registry: reading, editing and removing memberships,
//! under the role-escalation, owner-edit and last-owner guards.

use vstd::prelude::*;

use crate::types::{CollectionAssignment, Grant, Membership, OrgError, Role};
use crate::engine::{
    apply_grants, by_grant_pair, by_member_id, by_member_id_org, by_member_pair,
    collection_of_org, grant_keep, in_org_member, member_of_user, owner_bit, owner_count, same_state, upsert_grant,
    Engine, lemma_owner_count_remove, lemma_owner_count_update,
};
use crate::seqs::{idx_by, keep, lemma_keep_distinct, lemma_remove_distinct, lemma_update_distinct};

verus! {

/// The guard chain of a membership edit, in the order the guards are
/// checked: unparseable role; unknown membership; a caller below Owner
/// editing a membership whose current or requested role is Admin or Owner;
/// demoting the last Owner; a selected collection outside the
/// organization.
pub open spec fn edit_user_check(
    s: Engine,
    org_id: u64,
    org_user_id: u64,
    role_code: i32,
    selected: Seq<CollectionAssignment>,
    access_all: bool,
    caller_role: Role,
) -> Option<OrgError> {
    match Role::spec_from_code(role_code) {
        None => Some(OrgError::InvalidInput),
        Some(nt) => match idx_by(s.memberships@, by_member_id_org(), (org_user_id, org_id)) {
            None => Some(OrgError::NotFound),
            Some(mi) => {
                let cur = s.memberships@[mi].role;
                if (cur.spec_level() >= 1 || nt.spec_level() >= 1) && caller_role != Role::Owner {
                    Some(OrgError::Unauthorized)
                } else if cur == Role::Owner && nt != Role::Owner && owner_count(
                    s.memberships@,
                    org_id,
                ) <= 1 {
                    Some(OrgError::Conflict)
                } else if !access_all && (exists|k: int|
                    0 <= k < selected.len() && !collection_of_org(
                        s.collections@,
                        (#[trigger] selected[k]).collection_id,
                        org_id,
                    )) {
                    Some(OrgError::NotFound)
                } else {
                    None
                }
            },
        },
    }
}

impl Engine {
    /// Edits one membership: sets its role and access mode, deletes all of
    /// the member's grants in the organization, and, unless `access_all` is
    /// granted, writes exactly the selected grants. Fails without any
    /// change when a guard of `edit_user_check` fires.
    #[verifier::loop_isolation(false)]
    pub fn edit_user(
        &mut self,
        org_id: u64,
        org_user_id: u64,
        role_code: i32,
        selected: &Vec<CollectionAssignment>,
        access_all: bool,
        caller_role: Role,
    ) -> (r: Result<(), OrgError>)
        requires
            old(self).wf(),
        ensures
            final(self).wf(),
            match r {
                Err(e) => edit_user_check(
                    *old(self),
                    org_id,
                    org_user_id,
                    role_code,
                    selected@,
                    access_all,
                    caller_role,
                ) == Some(e) && same_state(*old(self), *final(self)),
                Ok(()) => edit_user_check(
                    *old(self),
                    org_id,
                    org_user_id,
                    role_code,
                    selected@,
                    access_all,
                    caller_role,
                ) is None && (idx_by(
                    old(self).memberships@,
                    by_member_id_org(),
                    (org_user_id, org_id),
                ) matches Some(mi) && ({
                    let m = old(self).memberships@[mi];
                    let m2 = Membership {
                        id: m.id,
                        user_id: m.user_id,
                        org_id: m.org_id,
                        role: Role::spec_from_code(role_code) ->0,
                        status: m.status,
                        access_all,
                        key: m.key,
                    };
                    let cleared = keep(
                        old(self).grants@,
                        grant_keep(old(self).collections@, Some(org_id), Some(m.user_id), None),
                    );
                    &&& final(self).memberships@ == old(self).memberships@.update(mi, m2)
                    &&& final(self).grants@ == (if access_all {
                        cleared
                    } else {
                        apply_grants(cleared, m.user_id, selected@)
                    })
                    &&& final(self).orgs@ == old(self).orgs@
                    &&& final(self).users@ == old(self).users@
                    &&& final(self).collections@ == old(self).collections@
                    &&& final(self).ciphers@ == old(self).ciphers@
                    &&& final(self).collection_ciphers@ == old(self).collection_ciphers@
                    &&& final(self).invitations@ == old(self).invitations@
                    &&& final(self).invitations_allowed == old(self).invitations_allowed
                    &&& final(self).next_id == old(self).next_id
                })),
            },
    {
        let nt = match Role::from_code(role_code) {
            None => {
                return Err(OrgError::InvalidInput);
            },
            Some(t) => t,
        };
        let mi = match self.find_member_by_id(org_user_id, org_id) {
            None => {
                return Err(OrgError::NotFound);
            },
            Some(i) => i,
        };
        let cur = self.memberships[mi].role;
        if (cur.level() >= 1 || nt.level() >= 1) && caller_role != Role::Owner {
            return Err(OrgError::Unauthorized);
        }
        if cur == Role::Owner && nt != Role::Owner {
            let owners = self.owner_total(org_id);
            if owners <= 1 {
                return Err(OrgError::Conflict);
            }
        }
        if !access_all {
            let mut k: usize = 0;
            while k < selected.len()
                invariant
                    k <= selected@.len(),
                    forall|q: int|
                        0 <= q < k ==> collection_of_org(
                            self.collections@,
                            (#[trigger] selected@[q]).collection_id,
                            org_id,
                        ),
                    self == old(self),
                decreases selected@.len() - k,
            {
                let ok = match self.find_collection(selected[k].collection_id) {
                    Some(ci) => self.collections[ci].org_id == org_id,
                    None => false,
                };
                if !ok {
                    proof {
                        if collection_of_org(
                            self.collections@,
                            selected@[k as int].collection_id,
                            org_id,
                        ) {
                            let cid = selected@[k as int].collection_id;
                            let wi = choose|wi: int|
                                0 <= wi < self.collections@.len() && (
                                #[trigger] self.collections@[wi]).id == cid
                                    && self.collections@[wi].org_id == org_id;
                        }
                    }
                    return Err(OrgError::NotFound);
                }
                k += 1;
            }
        }
        let ghost pre = *old(self);
        let ghost mold = self.memberships@[mi as int];
        let mut m = self.memberships.remove(mi);
        let uid = m.user_id;
        m.role = nt;
        m.access_all = access_all;
        self.memberships.insert(mi, m);
        let ghost m2 = Membership {
            id: mold.id,
            user_id: mold.user_id,
            org_id: mold.org_id,
            role: nt,
            status: mold.status,
            access_all,
            key: mold.key,
        };
        proof {
            assert(self.memberships@[mi as int] =~= m2);
            assert(self.memberships@ =~= pre.memberships@.update(mi as int, m2));
            lemma_update_distinct(pre.memberships@, mi as int, m2, by_member_id());
            lemma_update_distinct(pre.memberships@, mi as int, m2, by_member_pair());
            assert forall|k: int|
                0 <= k < self.memberships@.len() implies (#[trigger] self.memberships@[k]).id
                < self.next_id && self.memberships@[k].org_id < self.next_id
                        && self.memberships@[k].user_id < self.next_id by {
                if k != mi as int {
                    assert(self.memberships@[k] == pre.memberships@[k]);
                }
            }
            assert forall|k: int|
                0 <= k < self.orgs@.len() implies owner_count(
                self.memberships@,
                (#[trigger] self.orgs@[k]).id,
            ) >= 1 by {
                let o = self.orgs@[k];
                lemma_owner_count_update(pre.memberships@, mi as int, m2, o.id);
                if owner_bit(m2, o.id) >= owner_bit(mold, o.id) {
                } else {
                    assert(o.id == org_id && mold.role == Role::Owner && m2.role != Role::Owner);
                    assert(owner_count(pre.memberships@, org_id) >= 2);
                }
            }
        }
        self.retain_grants(Some(org_id), Some(uid), None);
        proof {
            lemma_keep_distinct(
                pre.grants@,
                grant_keep(pre.collections@, Some(org_id), Some(uid), None),
                by_grant_pair(),
            );
        }
        if !access_all {
            let ghost base = self.grants@;
            let ghost held = *self;
            let mut k: usize = 0;
            proof {
                assert(selected@.skip(0) =~= selected@);
            }
            while k < selected.len()
                invariant
                    k <= selected@.len(),
                    crate::seqs::distinct_by(self.grants@, by_grant_pair()),
                    apply_grants(base, uid, selected@) == apply_grants(
                        self.grants@,
                        uid,
                        selected@.skip(k as int),
                    ),
                    self.orgs@ == held.orgs@,
                    self.users@ == held.users@,
                    self.memberships@ == held.memberships@,
                    self.collections@ == held.collections@,
                    self.ciphers@ == held.ciphers@,
                    self.collection_ciphers@ == held.collection_ciphers@,
                    self.invitations@ == held.invitations@,
                    self.invitations_allowed == held.invitations_allowed,
                    self.next_id == held.next_id,
                decreases selected@.len() - k,
            {
                let ghost cur_grants = self.grants@;
                let a = selected[k];
                proof {
                    assert(selected@.skip(k as int).first() == selected@[k as int]);
                    assert(selected@.skip(k as int).drop_first() =~= selected@.skip(k as int + 1));
                }
                self.save_grant(a.collection_id, uid, a.read_only);
                proof {
                    assert(self.grants@ == upsert_grant(
                        cur_grants,
                        Grant {
                            collection_id: selected@[k as int].collection_id,
                            user_id: uid,
                            read_only: selected@[k as int].read_only,
                        },
                    ));
                }
                k += 1;
            }
            proof {
                assert(selected@.skip(selected@.len() as int) =~= Seq::<
                    CollectionAssignment,
                >::empty());
            }
        }
        Ok(())
    }

    /// Same operation as `edit_user`, offered under the other verb.
    pub fn put_organization_user(
        &mut self,
        org_id: u64,
        org_user_id: u64,
        role_code: i32,
        selected: &Vec<CollectionAssignment>,
        access_all: bool,
        caller_role: Role,
    ) -> (r: Result<(), OrgError>)
        requires
            old(self).wf(),
        ensures
            final(self).wf(),
            match r {
                Err(e) => edit_user_check(
                    *old(self),
                    org_id,
                    org_user_id,
                    role_code,
                    selected@,
                    access_all,
                    caller_role,
                ) == Some(e) && same_state(*old(self), *final(self)),
                Ok(()) => edit_user_check(
                    *old(self),
                    org_id,
                    org_user_id,
                    role_code,
                    selected@,
                    access_all,
                    caller_role,
                ) is None && (idx_by(
                    old(self).memberships@,
                    by_member_id_org(),
                    (org_user_id, org_id),
                ) matches Some(mi) && ({
                    let m = old(self).memberships@[mi];
                    let m2 = Membership {
                        id: m.id,
                        user_id: m.user_id,
                        org_id: m.org_id,
                        role: Role::spec_from_code(role_code) ->0,
                        status: m.status,
                        access_all,
                        key: m.key,
                    };
                    let cleared = keep(
                        old(self).grants@,
                        grant_keep(old(self).collections@, Some(org_id), Some(m.user_id), None),
                    );
                    &&& final(self).memberships@ == old(self).memberships@.update(mi, m2)
                    &&& final(self).grants@ == (if access_all {
                        cleared
                    } else {
                        apply_grants(cleared, m.user_id, selected@)
                    })
                    &&& final(self).orgs@ == old(self).orgs@
                    &&& final(self).users@ == old(self).users@
                    &&& final(self).collections@ == old(self).collections@
                    &&& final(self).ciphers@ == old(self).ciphers@
                    &&& final(self).collection_ciphers@ == old(self).collection_ciphers@
                    &&& final(self).invitations@ == old(self).invitations@
                    &&& final(self).invitations_allowed == old(self).invitations_allowed
                    &&& final(self).next_id == old(self).next_id
                })),
            },
    {
        self.edit_user(org_id, org_user_id, role_code, selected, access_all, caller_role)
    }

    /// Removes one membership, under the owner-delete and last-owner
    /// guards; the member's grants in the organization go with it.
    pub fn delete_user(&mut self, org_id: u64, org_user_id: u64, caller_role: Role) -> (r: Result<
        (),
        OrgError,
    >)
        requires
            old(self).wf(),
        ensures
            final(self).wf(),
            match r {
                Ok(()) => idx_by(
                    old(self).memberships@,
                    by_member_id_org(),
                    (org_user_id, org_id),
                ) matches Some(j) && ({
                    let m = old(self).memberships@[j];
                    &&& (m.role != Role::User ==> caller_role == Role::Owner)
                    &&& (m.role == Role::Owner ==> owner_count(old(self).memberships@, org_id)
                        >= 2)
                    &&& final(self).memberships@ == old(self).memberships@.remove(j)
                    &&& final(self).grants@ == keep(
                        old(self).grants@,
                        grant_keep(old(self).collections@, Some(org_id), Some(m.user_id), None),
                    )
                    &&& final(self).orgs@ == old(self).orgs@
                    &&& final(self).users@ == old(self).users@
                    &&& final(self).collections@ == old(self).collections@
                    &&& final(self).ciphers@ == old(self).ciphers@
                    &&& final(self).collection_ciphers@ == old(self).collection_ciphers@
                    &&& final(self).invitations@ == old(self).invitations@
                    &&& final(self).invitations_allowed == old(self).invitations_allowed
                    &&& final(self).next_id == old(self).next_id
                }),
                Err(e) => same_state(*old(self), *final(self)) && (match idx_by(
                    old(self).memberships@,
                    by_member_id_org(),
                    (org_user_id, org_id),
                ) {
                    None => e == OrgError::NotFound,
                    Some(j) => {
                        let m = old(self).memberships@[j];
                        e == OrgError::Unauthorized && m.role != Role::User && caller_role
                            != Role::Owner || e == OrgError::Conflict && m.role == Role::Owner
                            && caller_role == Role::Owner && owner_count(
                            old(self).memberships@,
                            org_id,
                        ) <= 1
                    },
                }),
            },
    {
        let j = match self.find_member_by_id(org_user_id, org_id) {
            None => {
                return Err(OrgError::NotFound);
            },
            Some(i) => i,
        };
        if self.memberships[j].role != Role::User && caller_role != Role::Owner {
            return Err(OrgError::Unauthorized);
        }
        if self.memberships[j].role == Role::Owner {
            let owners = self.owner_total(org_id);
            if owners <= 1 {
                return Err(OrgError::Conflict);
            }
        }
        let ghost pre = *old(self);
        let ghost m = self.memberships@[j as int];
        let uid = self.memberships[j].user_id;
        self.retain_grants(Some(org_id), Some(uid), None);
        self.memberships.remove(j);
        proof {
            lemma_remove_distinct(pre.memberships@, j as int, by_member_id());
            lemma_remove_distinct(pre.memberships@, j as int, by_member_pair());
            lemma_keep_distinct(
                pre.grants@,
                grant_keep(pre.collections@, Some(org_id), Some(uid), None),
                by_grant_pair(),
            );
            assert forall|k: int|
                0 <= k < self.memberships@.len() implies (#[trigger] self.memberships@[k]).id
                < self.next_id && self.memberships@[k].org_id < self.next_id
                        && self.memberships@[k].user_id < self.next_id by {
                if k < j as int {
                    assert(self.memberships@[k] == pre.memberships@[k]);
                } else {
                    assert(self.memberships@[k] == pre.memberships@[k + 1]);
                }
            }
            assert forall|k: int|
                0 <= k < self.orgs@.len() implies owner_count(
                self.memberships@,
                (#[trigger] self.orgs@[k]).id,
            ) >= 1 by {
                let o = self.orgs@[k];
                lemma_owner_count_remove(pre.memberships@, j as int, o.id);
                if m.role == Role::Owner {
                    if o.id != org_id {
                        assert(owner_bit(m, o.id) == 0);
                    }
                } else {
                    assert(owner_bit(m, o.id) == 0);
                }
            }
        }
        Ok(())
    }

    /// Same operation as `delete_user`, offered under the other verb.
    pub fn post_delete_user(&mut self, org_id: u64, org_user_id: u64, caller_role: Role) -> (r:
        Result<(), OrgError>)
        requires
            old(self).wf(),
        ensures
            final(self).wf(),
            match r {
                Ok(()) => idx_by(
                    old(self).memberships@,
                    by_member_id_org(),
                    (org_user_id, org_id),
                ) matches Some(j) && ({
                    let m = old(self).memberships@[j];
                    &&& (m.role != Role::User ==> caller_role == Role::Owner)
                    &&& (m.role == Role::Owner ==> owner_count(old(self).memberships@, org_id)
                        >= 2)
                    &&& final(self).memberships@ == old(self).memberships@.remove(j)
                    &&& final(self).grants@ == keep(
                        old(self).grants@,
                        grant_keep(old(self).collections@, Some(org_id), Some(m.user_id), None),
                    )
                    &&& final(self).orgs@ == old(self).orgs@
                    &&& final(self).users@ == old(self).users@
                    &&& final(self).collections@ == old(self).collections@
                    &&& final(self).ciphers@ == old(self).ciphers@
                    &&& final(self).collection_ciphers@ == old(self).collection_ciphers@
                    &&& final(self).invitations@ == old(self).invitations@
                    &&& final(self).invitations_allowed == old(self).invitations_allowed
                    &&& final(self).next_id == old(self).next_id
                }),
                Err(e) => same_state(*old(self), *final(self)) && (match idx_by(
                    old(self).memberships@,
                    by_member_id_org(),
                    (org_user_id, org_id),
                ) {
                    None => e == OrgError::NotFound,
                    Some(j) => {
                        let m = old(self).memberships@[j];
                        e == OrgError::Unauthorized && m.role != Role::User && caller_role
                            != Role::Owner || e == OrgError::Conflict && m.role == Role::Owner
                            && caller_role == Role::Owner && owner_count(
                            old(self).memberships@,
                            org_id,
                        ) <= 1
                    },
                }),
            },
    {
        self.delete_user(org_id, org_user_id, caller_role)
    }

    /// Reads one membership of the organization.
    pub fn get_user(&self, org_id: u64, org_user_id: u64) -> (r: Result<Membership, OrgError>)
        ensures
            match r {
                Ok(m) => idx_by(self.memberships@, by_member_id_org(), (org_user_id, org_id))
                    matches Some(j) && m == self.memberships@[j],
                Err(e) => e == OrgError::NotFound && idx_by(
                    self.memberships@,
                    by_member_id_org(),
                    (org_user_id, org_id),
                ) is None,
            },
    {
        match self.find_member_by_id(org_user_id, org_id) {
            None => Err(OrgError::NotFound),
            Some(j) => Ok(self.memberships[j].duplicate()),
        }
    }

    /// Lists every membership of the organization, in store order.
    pub fn get_org_users(&self, org_id: u64) -> (r: Vec<Membership>)
        ensures
            r@ == keep(self.memberships@, in_org_member(org_id)),
    {
        let ghost p = in_org_member(org_id);
        let mut out: Vec<Membership> = Vec::new();
        let mut i: usize = 0;
        proof {
            assert(self.memberships@.skip(0) =~= self.memberships@);
        }
        while i < self.memberships.len()
            invariant
                p == in_org_member(org_id),
                i <= self.memberships@.len(),
                keep(self.memberships@, p) == out@ + keep(self.memberships@.skip(i as int), p),
            decreases self.memberships@.len() - i,
        {
            let ghost v = self.memberships@;
            proof {
                assert(v.skip(i as int).first() == v[i as int]);
                assert(v.skip(i as int).drop_first() =~= v.skip(i as int + 1));
            }
            if self.memberships[i].org_id == org_id {
                let ghost outpre = out@;
                out.push(self.memberships[i].duplicate());
                proof {
                    assert(out@ =~= outpre + seq![v[i as int]]);
                    assert(outpre + (seq![v[i as int]] + keep(v.skip(i as int + 1), p)) =~= out@
                        + keep(v.skip(i as int + 1), p));
                }
            }
            i += 1;
        }
        proof {
            assert(self.memberships@.skip(self.memberships@.len() as int) =~= Seq::<
                Membership,
            >::empty());
            assert(out@ + Seq::<Membership>::empty() =~= out@);
        }
        out
    }

    /// Lists every membership this user holds, across organizations, in
    /// store order.
    #[verifier::loop_isolation(false)]
    pub fn list_by_user(&self, user_id: u64) -> (r: Vec<Membership>)
        ensures
            r@ == keep(self.memberships@, member_of_user(user_id)),
    {
        let ghost p = member_of_user(user_id);
        let mut out: Vec<Membership> = Vec::new();
        let mut i: usize = 0;
        proof {
            assert(self.memberships@.skip(0) =~= self.memberships@);
        }
        while i < self.memberships.len()
            invariant
                i <= self.memberships@.len(),
                keep(self.memberships@, p) == out@ + keep(self.memberships@.skip(i as int), p),
            decreases self.memberships@.len() - i,
        {
            let ghost v = self.memberships@;
            proof {
                assert(v.skip(i as int).first() == v[i as int]);
                assert(v.skip(i as int).drop_first() =~= v.skip(i as int + 1));
            }
            if self.memberships[i].user_id == user_id {
                let ghost outpre = out@;
                out.push(self.memberships[i].duplicate());
                proof {
                    assert(out@ =~= outpre + seq![v[i as int]]);
                    assert(outpre + (seq![v[i as int]] + keep(v.skip(i as int + 1), p)) =~= out@
                        + keep(v.skip(i as int + 1), p));
                }
            }
            i += 1;
        }
        proof {
            assert(self.memberships@.skip(self.memberships@.len() as int) =~= Seq::<
                Membership,
            >::empty());
            assert(out@ + Seq::<Membership>::empty() =~= out@);
        }
        out
    }

    /// Reinviting is deliberately not offered: it always reports the fixed
    /// Unsupported failure, whatever its arguments, and the user must
    /// register on their own before being accepted.
    pub fn post_reinvite_user(&self, org_id: u64, org_user_id: u64) -> (r: Result<(), OrgError>)
        ensures
            r == Result::<(), OrgError>::Err(OrgError::Unsupported),
    {
        let _ = org_id;
        let _ = org_user_id;
        Err(OrgError::Unsupported)
    }
}

} // verus!
