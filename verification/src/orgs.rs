//! The organization directory: creating, reading, updating and deleting the
//! organization entity itself, with cascading deletion of its memberships,
//! collections and grants, plus a member leaving on their own.

use vstd::prelude::*;

use crate::types::{Collection, Membership, MemberStatus, Organization, OrgError, Role};
use crate::engine::{
    by_collection_id, by_grant_pair, by_member_id, by_member_pair, by_org_id, cc_keep, grant_keep,
    not_in_org_collection, not_in_org_member, owner_bit, owner_count, same_state, Engine,
    lemma_owner_count_keep, lemma_owner_count_push, lemma_owner_count_remove,
};
use crate::seqs::{
    keep, lemma_keep_contains, lemma_keep_distinct, lemma_push_distinct, lemma_remove_distinct,
    lemma_update_distinct,
};

verus! {

impl Engine {
    /// Creates an organization together with a Confirmed Owner membership for
    /// the creator (holding the supplied key and full collection access) and
    /// one default collection; the three records appear together.
    pub fn create_organization(
        &mut self,
        name: String,
        billing_email: String,
        collection_name: String,
        member_key: String,
        creator_user_id: u64,
    ) -> (r: Organization)
        requires
            old(self).wf(),
            old(self).next_id as int + 3 <= u64::MAX as int,
            creator_user_id < old(self).next_id,
        ensures
            final(self).wf(),
            r.id == old(self).next_id,
            r.name == name,
            r.billing_email == billing_email,
            final(self).orgs@ == old(self).orgs@.push(r),
            final(self).memberships@ == old(self).memberships@.push(
                Membership {
                    id: (old(self).next_id + 1) as u64,
                    user_id: creator_user_id,
                    org_id: old(self).next_id,
                    role: Role::Owner,
                    status: MemberStatus::Confirmed,
                    access_all: true,
                    key: Some(member_key),
                },
            ),
            final(self).collections@ == old(self).collections@.push(
                Collection {
                    id: (old(self).next_id + 2) as u64,
                    org_id: old(self).next_id,
                    name: collection_name,
                },
            ),
            final(self).next_id == old(self).next_id + 3,
            final(self).users@ == old(self).users@,
            final(self).grants@ == old(self).grants@,
            final(self).ciphers@ == old(self).ciphers@,
            final(self).collection_ciphers@ == old(self).collection_ciphers@,
            final(self).invitations@ == old(self).invitations@,
            final(self).invitations_allowed == old(self).invitations_allowed,
    {
        let org_id = self.next_id;
        let member_id = self.next_id + 1;
        let collection_id = self.next_id + 2;
        self.next_id = self.next_id + 3;
        let org = Organization { id: org_id, name, billing_email };
        let r = org.duplicate();
        let m = Membership {
            id: member_id,
            user_id: creator_user_id,
            org_id,
            role: Role::Owner,
            status: MemberStatus::Confirmed,
            access_all: true,
            key: Some(member_key),
        };
        let ghost mg = m;
        let c = Collection { id: collection_id, org_id, name: collection_name };
        self.orgs.push(org);
        self.memberships.push(m);
        self.collections.push(c);
        proof {
            let pre = *old(self);
            assert forall|i: int| 0 <= i < pre.orgs@.len() implies by_org_id()(
                #[trigger] pre.orgs@[i],
            ) != by_org_id()(r) by {}
            lemma_push_distinct(pre.orgs@, r, by_org_id());
            assert forall|i: int| 0 <= i < pre.memberships@.len() implies by_member_id()(
                #[trigger] pre.memberships@[i],
            ) != by_member_id()(mg) by {}
            lemma_push_distinct(pre.memberships@, mg, by_member_id());
            assert forall|i: int| 0 <= i < pre.memberships@.len() implies by_member_pair()(
                #[trigger] pre.memberships@[i],
            ) != by_member_pair()(mg) by {
                assert(pre.memberships@[i].org_id < pre.next_id);
            }
            lemma_push_distinct(pre.memberships@, mg, by_member_pair());
            assert forall|i: int| 0 <= i < pre.collections@.len() implies by_collection_id()(
                #[trigger] pre.collections@[i],
            ) != by_collection_id()(c) by {}
            lemma_push_distinct(pre.collections@, c, by_collection_id());
            assert forall|i: int|
                0 <= i < self.orgs@.len() implies owner_count(
                self.memberships@,
                (#[trigger] self.orgs@[i]).id,
            ) >= 1 by {
                lemma_owner_count_push(pre.memberships@, mg, self.orgs@[i].id);
                if i < pre.orgs@.len() {
                    assert(self.orgs@[i] == pre.orgs@[i]);
                } else {
                    assert(self.orgs@[i] == r);
                    assert(owner_bit(mg, org_id) == 1);
                }
            }
        }
        r
    }

    /// Reads one organization; fails with NotFound when no organization has
    /// this id.
    pub fn get_organization(&self, org_id: u64) -> (r: Result<Organization, OrgError>)
        ensures
            match r {
                Ok(o) => self.org_present(org_id) && o.id == org_id && self.orgs@.contains(o),
                Err(e) => e == OrgError::NotFound && !self.org_present(org_id),
            },
    {
        match self.find_org(org_id) {
            None => Err(OrgError::NotFound),
            Some(i) => {
                let o = self.orgs[i].duplicate();
                proof {
                    assert(self.orgs@[i as int] == o);
                }
                Ok(o)
            },
        }
    }

    /// Replaces the name and billing email of one organization; fails with
    /// NotFound, and changes nothing, when no organization has this id.
    pub fn post_organization(&mut self, org_id: u64, name: String, billing_email: String) -> (r:
        Result<Organization, OrgError>)
        requires
            old(self).wf(),
        ensures
            final(self).wf(),
            match r {
                Ok(o) => {
                    &&& old(self).org_present(org_id)
                    &&& o.id == org_id
                    &&& o.name == name
                    &&& o.billing_email == billing_email
                    &&& exists|i: int|
                        0 <= i < old(self).orgs@.len() && (#[trigger] old(self).orgs@[i]).id
                            == org_id && final(self).orgs@ == old(self).orgs@.update(i, o)
                    &&& final(self).users@ == old(self).users@
                    &&& final(self).memberships@ == old(self).memberships@
                    &&& final(self).collections@ == old(self).collections@
                    &&& final(self).grants@ == old(self).grants@
                    &&& final(self).ciphers@ == old(self).ciphers@
                    &&& final(self).collection_ciphers@ == old(self).collection_ciphers@
                    &&& final(self).invitations@ == old(self).invitations@
                    &&& final(self).invitations_allowed == old(self).invitations_allowed
                    &&& final(self).next_id == old(self).next_id
                },
                Err(e) => e == OrgError::NotFound && !old(self).org_present(org_id) && same_state(
                    *old(self),
                    *final(self),
                ),
            },
    {
        match self.find_org(org_id) {
            None => Err(OrgError::NotFound),
            Some(i) => {
                let mut o = self.orgs.remove(i);
                o.name = name;
                o.billing_email = billing_email;
                let r = o.duplicate();
                self.orgs.insert(i, o);
                proof {
                    let pre = *old(self);
                    assert(self.orgs@ =~= pre.orgs@.update(i as int, r));
                    lemma_update_distinct(pre.orgs@, i as int, r, by_org_id());
                    assert forall|k: int|
                        0 <= k < self.orgs@.len() implies owner_count(
                        self.memberships@,
                        (#[trigger] self.orgs@[k]).id,
                    ) >= 1 by {
                        assert(self.orgs@[k].id == pre.orgs@[k].id);
                    }
                }
                Ok(r)
            },
        }
    }

    /// Same operation as `post_organization`, offered under the other verb.
    pub fn put_organization(&mut self, org_id: u64, name: String, billing_email: String) -> (r:
        Result<Organization, OrgError>)
        requires
            old(self).wf(),
        ensures
            final(self).wf(),
            match r {
                Ok(o) => {
                    &&& old(self).org_present(org_id)
                    &&& o.id == org_id
                    &&& o.name == name
                    &&& o.billing_email == billing_email
                    &&& exists|i: int|
                        0 <= i < old(self).orgs@.len() && (#[trigger] old(self).orgs@[i]).id
                            == org_id && final(self).orgs@ == old(self).orgs@.update(i, o)
                    &&& final(self).users@ == old(self).users@
                    &&& final(self).memberships@ == old(self).memberships@
                    &&& final(self).collections@ == old(self).collections@
                    &&& final(self).grants@ == old(self).grants@
                    &&& final(self).ciphers@ == old(self).ciphers@
                    &&& final(self).collection_ciphers@ == old(self).collection_ciphers@
                    &&& final(self).invitations@ == old(self).invitations@
                    &&& final(self).invitations_allowed == old(self).invitations_allowed
                    &&& final(self).next_id == old(self).next_id
                },
                Err(e) => e == OrgError::NotFound && !old(self).org_present(org_id) && same_state(
                    *old(self),
                    *final(self),
                ),
            },
    {
        self.post_organization(org_id, name, billing_email)
    }

    /// Deletes one organization after the caller's password was re-verified,
    /// cascading to its memberships, its collections, and the grants and
    /// item associations of those collections.
    pub fn delete_organization(&mut self, org_id: u64, password_ok: bool) -> (r: Result<
        (),
        OrgError,
    >)
        requires
            old(self).wf(),
        ensures
            final(self).wf(),
            match r {
                Ok(()) => {
                    &&& password_ok
                    &&& old(self).org_present(org_id)
                    &&& exists|i: int|
                        0 <= i < old(self).orgs@.len() && (#[trigger] old(self).orgs@[i]).id
                            == org_id && final(self).orgs@ == old(self).orgs@.remove(i)
                    &&& final(self).memberships@ == keep(
                        old(self).memberships@,
                        not_in_org_member(org_id),
                    )
                    &&& final(self).collections@ == keep(
                        old(self).collections@,
                        not_in_org_collection(org_id),
                    )
                    &&& final(self).grants@ == keep(
                        old(self).grants@,
                        grant_keep(old(self).collections@, Some(org_id), None, None),
                    )
                    &&& final(self).collection_ciphers@ == keep(
                        old(self).collection_ciphers@,
                        cc_keep(old(self).collections@, Some(org_id), None),
                    )
                    &&& final(self).users@ == old(self).users@
                    &&& final(self).ciphers@ == old(self).ciphers@
                    &&& final(self).invitations@ == old(self).invitations@
                    &&& final(self).invitations_allowed == old(self).invitations_allowed
                    &&& final(self).next_id == old(self).next_id
                },
                Err(e) => (e == OrgError::Unauthorized && !password_ok || e == OrgError::NotFound
                    && password_ok && !old(self).org_present(org_id)) && same_state(
                    *old(self),
                    *final(self),
                ),
            },
    {
        if !password_ok {
            return Err(OrgError::Unauthorized);
        }
        match self.find_org(org_id) {
            None => Err(OrgError::NotFound),
            Some(i) => {
                self.retain_grants(Some(org_id), None, None);
                self.retain_collection_ciphers(Some(org_id), None);
                self.retain_collections_not_in_org(org_id);
                self.retain_members_not_in_org(org_id);
                self.orgs.remove(i);
                proof {
                    let pre = *old(self);
                    assert(final(self).orgs@ == pre.orgs@.remove(i as int));
                    lemma_remove_distinct(pre.orgs@, i as int, by_org_id());
                    lemma_keep_distinct(pre.memberships@, not_in_org_member(org_id), by_member_id());
                    lemma_keep_distinct(
                        pre.memberships@,
                        not_in_org_member(org_id),
                        by_member_pair(),
                    );
                    lemma_keep_distinct(
                        pre.collections@,
                        not_in_org_collection(org_id),
                        by_collection_id(),
                    );
                    lemma_keep_distinct(
                        pre.grants@,
                        grant_keep(pre.collections@, Some(org_id), None, None),
                        by_grant_pair(),
                    );
                    lemma_keep_contains(pre.memberships@, not_in_org_member(org_id));
                    lemma_keep_contains(pre.collections@, not_in_org_collection(org_id));
                    assert forall|k: int|
                        0 <= k < self.memberships@.len() implies (#[trigger] self.memberships@[k]).id
                        < self.next_id && self.memberships@[k].org_id < self.next_id
                        && self.memberships@[k].user_id < self.next_id by {
                        assert(self.memberships@.contains(self.memberships@[k]));
                        let j = choose|j: int|
                            0 <= j < pre.memberships@.len() && pre.memberships@[j]
                                == self.memberships@[k];
                    }
                    assert forall|k: int|
                        0 <= k < self.collections@.len() implies (#[trigger] self.collections@[k]).id
                        < self.next_id by {
                        assert(self.collections@.contains(self.collections@[k]));
                        let j = choose|j: int|
                            0 <= j < pre.collections@.len() && pre.collections@[j]
                                == self.collections@[k];
                    }
                    assert forall|k: int|
                        0 <= k < self.orgs@.len() implies (#[trigger] self.orgs@[k]).id
                        < self.next_id by {
                        if k < i as int {
                            assert(self.orgs@[k] == pre.orgs@[k]);
                        } else {
                            assert(self.orgs@[k] == pre.orgs@[k + 1]);
                        }
                    }
                    assert forall|k: int|
                        0 <= k < self.orgs@.len() implies owner_count(
                        self.memberships@,
                        (#[trigger] self.orgs@[k]).id,
                    ) >= 1 by {
                        let o = self.orgs@[k];
                        if k < i as int {
                            assert(o == pre.orgs@[k]);
                            assert(o.id != org_id);
                        } else {
                            assert(o == pre.orgs@[k + 1]);
                            assert(o.id != org_id);
                        }
                        assert forall|q: int|
                            0 <= q < pre.memberships@.len() && !not_in_org_member(org_id)(
                                #[trigger] pre.memberships@[q],
                            ) implies owner_bit(pre.memberships@[q], o.id) == 0 by {}
                        lemma_owner_count_keep(pre.memberships@, not_in_org_member(org_id), o.id);
                    }
                }
                Ok(())
            },
        }
    }

    /// Same operation as `delete_organization`, offered under the other verb.
    pub fn post_delete_organization(&mut self, org_id: u64, password_ok: bool) -> (r: Result<
        (),
        OrgError,
    >)
        requires
            old(self).wf(),
        ensures
            final(self).wf(),
            match r {
                Ok(()) => {
                    &&& password_ok
                    &&& old(self).org_present(org_id)
                    &&& exists|i: int|
                        0 <= i < old(self).orgs@.len() && (#[trigger] old(self).orgs@[i]).id
                            == org_id && final(self).orgs@ == old(self).orgs@.remove(i)
                    &&& final(self).memberships@ == keep(
                        old(self).memberships@,
                        not_in_org_member(org_id),
                    )
                    &&& final(self).collections@ == keep(
                        old(self).collections@,
                        not_in_org_collection(org_id),
                    )
                    &&& final(self).grants@ == keep(
                        old(self).grants@,
                        grant_keep(old(self).collections@, Some(org_id), None, None),
                    )
                    &&& final(self).collection_ciphers@ == keep(
                        old(self).collection_ciphers@,
                        cc_keep(old(self).collections@, Some(org_id), None),
                    )
                    &&& final(self).users@ == old(self).users@
                    &&& final(self).ciphers@ == old(self).ciphers@
                    &&& final(self).invitations@ == old(self).invitations@
                    &&& final(self).invitations_allowed == old(self).invitations_allowed
                    &&& final(self).next_id == old(self).next_id
                },
                Err(e) => (e == OrgError::Unauthorized && !password_ok || e == OrgError::NotFound
                    && password_ok && !old(self).org_present(org_id)) && same_state(
                    *old(self),
                    *final(self),
                ),
            },
    {
        self.delete_organization(org_id, password_ok)
    }

    /// A member leaves the organization on their own; the last-owner guard
    /// rejects the leave that would strip the organization of owners, and
    /// the member's grants in this organization are deleted with the
    /// membership.
    pub fn leave_organization(&mut self, org_id: u64, user_id: u64) -> (r: Result<(), OrgError>)
        requires
            old(self).wf(),
        ensures
            final(self).wf(),
            match r {
                Ok(()) => {
                    &&& exists|j: int|
                        {
                            &&& 0 <= j < old(self).memberships@.len()
                            &&& (#[trigger] old(self).memberships@[j]).user_id == user_id
                            &&& old(self).memberships@[j].org_id == org_id
                            &&& (old(self).memberships@[j].role == Role::Owner ==> owner_count(
                                old(self).memberships@,
                                org_id,
                            ) >= 2)
                            &&& final(self).memberships@ == old(self).memberships@.remove(j)
                        }
                    &&& final(self).grants@ == keep(
                        old(self).grants@,
                        grant_keep(old(self).collections@, Some(org_id), Some(user_id), None),
                    )
                    &&& final(self).orgs@ == old(self).orgs@
                    &&& final(self).users@ == old(self).users@
                    &&& final(self).collections@ == old(self).collections@
                    &&& final(self).ciphers@ == old(self).ciphers@
                    &&& final(self).collection_ciphers@ == old(self).collection_ciphers@
                    &&& final(self).invitations@ == old(self).invitations@
                    &&& final(self).invitations_allowed == old(self).invitations_allowed
                    &&& final(self).next_id == old(self).next_id
                },
                Err(e) => same_state(*old(self), *final(self)) && (e == OrgError::NotFound && !old(
                    self,
                ).member_present(user_id, org_id) || e == OrgError::Conflict && owner_count(
                    old(self).memberships@,
                    org_id,
                ) <= 1 && exists|j: int|
                    0 <= j < old(self).memberships@.len() && (#[trigger] old(self).memberships@[j]).user_id
                        == user_id && old(self).memberships@[j].org_id == org_id && old(
                        self,
                    ).memberships@[j].role == Role::Owner),
            },
    {
        match self.find_member(user_id, org_id) {
            None => Err(OrgError::NotFound),
            Some(j) => {
                if self.memberships[j].role == Role::Owner {
                    let owners = self.owner_total(org_id);
                    if owners <= 1 {
                        return Err(OrgError::Conflict);
                    }
                }
                let ghost m = self.memberships@[j as int];
                self.retain_grants(Some(org_id), Some(user_id), None);
                self.memberships.remove(j);
                proof {
                    let pre = *old(self);
                    lemma_remove_distinct(pre.memberships@, j as int, by_member_id());
                    lemma_remove_distinct(pre.memberships@, j as int, by_member_pair());
                    lemma_keep_distinct(
                        pre.grants@,
                        grant_keep(pre.collections@, Some(org_id), Some(user_id), None),
                        by_grant_pair(),
                    );
                    assert forall|k: int|
                        0 <= k < self.memberships@.len() implies (#[trigger] self.memberships@[k]).id
                        < self.next_id && self.memberships@[k].org_id < self.next_id
                        && self.memberships@[k].user_id < self.next_id by {
                        if k < j as int {
                            assert(self.memberships@[k] == pre.memberships@[k]);
                        } else {
                            assert(self.memberships@[k] == pre.memberships@[k + 1]);
                        }
                    }
                    assert forall|k: int|
                        0 <= k < self.orgs@.len() implies owner_count(
                        self.memberships@,
                        (#[trigger] self.orgs@[k]).id,
                    ) >= 1 by {
                        let o = self.orgs@[k];
                        lemma_owner_count_remove(pre.memberships@, j as int, o.id);
                        if m.role == Role::Owner {
                            if o.id != org_id {
                                assert(owner_bit(m, o.id) == 0);
                            }
                        } else {
                            assert(owner_bit(m, o.id) == 0);
                        }
                    }
                }
                Ok(())
            },
        }
    }
}

} // verus!
