//! The invitation workflow: turning email addresses into memberships
//! (lookup-or-create of the account, Invited/Accepted status resolution,
//! collection pre-assignment), confirming an accepted membership, and the
//! lookup-or-create entry point of the user directory itself.

use vstd::prelude::*;

use crate::types::{
    Collection, CollectionAssignment, Grant, Invitation, Membership, MemberStatus, OrgError, Role,
    UserAccount,
};
use crate::engine::{
    by_member_id, by_member_id_org, by_member_pair, by_org_id, by_user_email, by_user_id,
    by_grant_pair, collection_of_org, owner_bit, owner_count, same_state, upsert_grant, Engine,
    lemma_owner_count_push, lemma_owner_count_update,
};
use crate::seqs::{
    distinct_by, idx_by, lemma_idx_by, lemma_push_distinct, lemma_update_distinct,
};

verus! {

/// The tables an invitation touches, taken out of the store so that the
/// effect of a whole batch can be written as a fold of single steps.
#[verifier::ext_equal]
pub ghost struct InviteState {
    pub users: Seq<UserAccount>,
    pub invitations: Seq<Invitation>,
    pub memberships: Seq<Membership>,
    pub grants: Seq<Grant>,
    pub next_id: int,
}

pub open spec fn invite_state(s: Engine) -> InviteState {
    InviteState {
        users: s.users@,
        invitations: s.invitations@,
        memberships: s.memberships@,
        grants: s.grants@,
        next_id: s.next_id as int,
    }
}

/// Writes one grant per selected collection in order, each replacing any
/// grant of the same pair; stops, keeping the grants already written, at
/// the first collection that does not belong to the organization.
pub open spec fn write_grants(
    gs: Seq<Grant>,
    cols: Seq<Collection>,
    org_id: u64,
    user_id: u64,
    selected: Seq<CollectionAssignment>,
) -> (Seq<Grant>, bool)
    decreases selected.len(),
{
    if selected.len() == 0 {
        (gs, true)
    } else if !collection_of_org(cols, selected.first().collection_id, org_id) {
        (gs, false)
    } else {
        let g = Grant {
            collection_id: selected.first().collection_id,
            user_id,
            read_only: selected.first().read_only,
        };
        write_grants(upsert_grant(gs, g), cols, org_id, user_id, selected.drop_first())
    }
}

/// The tail of one invitation once the account is resolved: pre-assign the
/// selected collections (unless the member gets `access_all`), then create
/// the membership; an invalid collection aborts before the membership is
/// written.
pub open spec fn invite_finish(
    v: InviteState,
    cols: Seq<Collection>,
    org_id: u64,
    user_id: u64,
    status: MemberStatus,
    nt: Role,
    access_all: bool,
    selected: Seq<CollectionAssignment>,
) -> (InviteState, Option<OrgError>) {
    let written = if access_all {
        (v.grants, true)
    } else {
        write_grants(v.grants, cols, org_id, user_id, selected)
    };
    if !written.1 {
        (
            InviteState {
                users: v.users,
                invitations: v.invitations,
                memberships: v.memberships,
                grants: written.0,
                next_id: v.next_id,
            },
            Some(OrgError::NotFound),
        )
    } else {
        let m = Membership {
            id: v.next_id as u64,
            user_id,
            org_id,
            role: nt,
            status,
            access_all,
            key: None,
        };
        (
            InviteState {
                users: v.users,
                invitations: v.invitations,
                memberships: v.memberships.push(m),
                grants: written.0,
                next_id: v.next_id + 1,
            },
            None,
        )
    }
}

/// One invitation: an email that already names a member fails the batch; an
/// existing account joins as Accepted; an unknown email joins as Invited
/// behind a fresh placeholder account and an invitation marker when
/// invitations are enabled, and fails otherwise.
pub open spec fn invite_step(
    v: InviteState,
    cols: Seq<Collection>,
    invitations_allowed: bool,
    org_id: u64,
    email: String,
    nt: Role,
    access_all: bool,
    selected: Seq<CollectionAssignment>,
) -> (InviteState, Option<OrgError>) {
    match idx_by(v.users, by_user_email(), email@) {
        Some(ui) => {
            let uid = v.users[ui].id;
            if idx_by(v.memberships, by_member_pair(), (uid, org_id)) is Some {
                (v, Some(OrgError::Conflict))
            } else {
                invite_finish(v, cols, org_id, uid, MemberStatus::Accepted, nt, access_all, selected)
            }
        },
        None => {
            if invitations_allowed {
                let uid = v.next_id as u64;
                let v1 = InviteState {
                    users: v.users.push(UserAccount { id: uid, email, revision: 0 }),
                    invitations: v.invitations.push(Invitation { email }),
                    memberships: v.memberships,
                    grants: v.grants,
                    next_id: v.next_id + 1,
                };
                invite_finish(v1, cols, org_id, uid, MemberStatus::Invited, nt, access_all, selected)
            } else {
                (v, Some(OrgError::NotFound))
            }
        },
    }
}

/// A whole batch of invitations, processed in order and stopped at the
/// first failure; what earlier emails wrote stays written.
pub open spec fn invite_fold(
    v: InviteState,
    cols: Seq<Collection>,
    invitations_allowed: bool,
    org_id: u64,
    emails: Seq<String>,
    nt: Role,
    access_all: bool,
    selected: Seq<CollectionAssignment>,
) -> (InviteState, Option<OrgError>)
    decreases emails.len(),
{
    if emails.len() == 0 {
        (v, None)
    } else {
        let step = invite_step(
            v,
            cols,
            invitations_allowed,
            org_id,
            emails.first(),
            nt,
            access_all,
            selected,
        );
        if step.1 is Some {
            step
        } else {
            invite_fold(
                step.0,
                cols,
                invitations_allowed,
                org_id,
                emails.drop_first(),
                nt,
                access_all,
                selected,
            )
        }
    }
}

impl Engine {
    /// Looks an account up by email, creating it when absent, and returns
    /// its id. This is the user directory's lookup-or-create entry point;
    /// account creation itself is otherwise outside this engine.
    pub fn register_user(&mut self, email: String) -> (r: u64)
        requires
            old(self).wf(),
            old(self).next_id as int + 1 <= u64::MAX as int,
        ensures
            final(self).wf(),
            match idx_by(old(self).users@, by_user_email(), email@) {
                Some(i) => r == old(self).users@[i].id && same_state(*old(self), *final(self)),
                None => {
                    &&& r == old(self).next_id
                    &&& final(self).users@ == old(self).users@.push(
                        UserAccount { id: old(self).next_id, email, revision: 0 },
                    )
                    &&& final(self).next_id == old(self).next_id + 1
                    &&& final(self).orgs@ == old(self).orgs@
                    &&& final(self).memberships@ == old(self).memberships@
                    &&& final(self).collections@ == old(self).collections@
                    &&& final(self).grants@ == old(self).grants@
                    &&& final(self).ciphers@ == old(self).ciphers@
                    &&& final(self).collection_ciphers@ == old(self).collection_ciphers@
                    &&& final(self).invitations@ == old(self).invitations@
                    &&& final(self).invitations_allowed == old(self).invitations_allowed
                },
            },
    {
        match self.find_user_by_email(&email) {
            Some(i) => self.users[i].id,
            None => {
                let uid = self.next_id;
                self.next_id = self.next_id + 1;
                let u = UserAccount { id: uid, email, revision: 0 };
                let ghost ug = u;
                self.users.push(u);
                proof {
                    let pre = *old(self);
                    assert forall|k: int| 0 <= k < pre.users@.len() implies by_user_id()(
                        #[trigger] pre.users@[k],
                    ) != by_user_id()(ug) by {}
                    lemma_push_distinct(pre.users@, ug, by_user_id());
                    assert forall|k: int| 0 <= k < pre.users@.len() implies by_user_email()(
                        #[trigger] pre.users@[k],
                    ) != by_user_email()(ug) by {}
                    lemma_push_distinct(pre.users@, ug, by_user_email());
                }
                uid
            },
        }
    }

    /// One email of an invitation batch; the whole effect is
    /// `invite_step` of the pre-state.
    #[verifier::loop_isolation(false)]
    fn invite_email(
        &mut self,
        org_id: u64,
        email: &String,
        nt: Role,
        access_all: bool,
        selected: &Vec<CollectionAssignment>,
    ) -> (r: Result<(), OrgError>)
        requires
            old(self).wf(),
            old(self).org_present(org_id),
            old(self).next_id as int + 2 <= u64::MAX as int,
        ensures
            final(self).wf(),
            ({
                let step = invite_step(
                    invite_state(*old(self)),
                    old(self).collections@,
                    old(self).invitations_allowed,
                    org_id,
                    *email,
                    nt,
                    access_all,
                    selected@,
                );
                &&& invite_state(*final(self)) == step.0
                &&& match step.1 {
                    None => r is Ok,
                    Some(e) => r == Result::<(), OrgError>::Err(e),
                }
                &&& final(self).orgs@ == old(self).orgs@
                &&& final(self).collections@ == old(self).collections@
                &&& final(self).ciphers@ == old(self).ciphers@
                &&& final(self).collection_ciphers@ == old(self).collection_ciphers@
                &&& final(self).invitations_allowed == old(self).invitations_allowed
            }),
    {
        proof {
            lemma_idx_by(self.orgs@, by_org_id(), org_id);
        }
        let ghost v0 = invite_state(*old(self));
        let found = self.find_user_by_email(email);
        let pair = match found {
            Some(ui) => {
                let uid = self.users[ui].id;
                match self.find_member(uid, org_id) {
                    Some(_) => {
                        return Err(OrgError::Conflict);
                    },
                    None => (uid, MemberStatus::Accepted),
                }
            },
            None => {
                if self.invitations_allowed {
                    let uid = self.next_id;
                    self.next_id = self.next_id + 1;
                    let u = UserAccount { id: uid, email: email.clone(), revision: 0 };
                    let ghost ug = u;
                    self.users.push(u);
                    self.invitations.push(Invitation { email: email.clone() });
                    proof {
                        let pre = *old(self);
                        assert(ug =~= UserAccount { id: uid, email: *email, revision: 0 });
                        assert(self.users@ =~= pre.users@.push(
                            UserAccount { id: uid, email: *email, revision: 0 },
                        ));
                        assert(self.invitations@ =~= pre.invitations@.push(
                            Invitation { email: *email },
                        ));
                        assert forall|k: int| 0 <= k < pre.users@.len() implies by_user_id()(
                            #[trigger] pre.users@[k],
                        ) != by_user_id()(ug) by {}
                        lemma_push_distinct(pre.users@, ug, by_user_id());
                        assert forall|k: int| 0 <= k < pre.users@.len() implies by_user_email()(
                            #[trigger] pre.users@[k],
                        ) != by_user_email()(ug) by {}
                        lemma_push_distinct(pre.users@, ug, by_user_email());
                    }
                    (uid, MemberStatus::Invited)
                } else {
                    return Err(OrgError::NotFound);
                }
            },
        };
        let (uid, status) = pair;
        let ghost v1 = InviteState {
            users: self.users@,
            invitations: self.invitations@,
            memberships: self.memberships@,
            grants: self.grants@,
            next_id: self.next_id as int,
        };
        let ghost cols0 = self.collections@;
        if !access_all {
            let ghost base = self.grants@;
            let mut k: usize = 0;
            proof {
                assert(selected@.skip(0) =~= selected@);
            }
            while k < selected.len()
                invariant
                    k <= selected@.len(),
                    distinct_by(self.grants@, by_grant_pair()),
                    write_grants(base, cols0, org_id, uid, selected@) == write_grants(
                        self.grants@,
                        cols0,
                        org_id,
                        uid,
                        selected@.skip(k as int),
                    ),
                    self.orgs@ == old(self).orgs@,
                    self.users@ == v1.users,
                    self.invitations@ == v1.invitations,
                    self.memberships@ == v1.memberships,
                    self.collections@ == cols0,
                    self.ciphers@ == old(self).ciphers@,
                    self.collection_ciphers@ == old(self).collection_ciphers@,
                    self.invitations_allowed == old(self).invitations_allowed,
                    self.next_id as int == v1.next_id,
                decreases selected@.len() - k,
            {
                let ghost cur = self.grants@;
                let a = selected[k];
                proof {
                    assert(selected@.skip(k as int).first() == selected@[k as int]);
                    assert(selected@.skip(k as int).drop_first() =~= selected@.skip(k as int + 1));
                }
                let ok = match self.find_collection(a.collection_id) {
                    Some(ci) => self.collections[ci].org_id == org_id,
                    None => false,
                };
                if !ok {
                    proof {
                        if collection_of_org(cols0, a.collection_id, org_id) {
                            let wi = choose|wi: int|
                                0 <= wi < cols0.len() && (#[trigger] cols0[wi]).id
                                    == a.collection_id && cols0[wi].org_id == org_id;
                        }
                        assert(write_grants(base, cols0, org_id, uid, selected@) == (
                            self.grants@,
                            false,
                        ));
                        assert(invite_state(*self) =~= invite_step(
                            v0,
                            cols0,
                            old(self).invitations_allowed,
                            org_id,
                            *email,
                            nt,
                            access_all,
                            selected@,
                        ).0);
                    }
                    return Err(OrgError::NotFound);
                }
                self.save_grant(a.collection_id, uid, a.read_only);
                proof {
                    assert(self.grants@ == upsert_grant(
                        cur,
                        Grant {
                            collection_id: selected@[k as int].collection_id,
                            user_id: uid,
                            read_only: selected@[k as int].read_only,
                        },
                    ));
                }
                k += 1;
            }
            proof {
                assert(selected@.skip(selected@.len() as int) =~= Seq::<
                    CollectionAssignment,
                >::empty());
                assert(write_grants(base, cols0, org_id, uid, selected@) == (self.grants@, true));
            }
        }
        let ghost pre_push = *self;
        let m = Membership {
            id: self.next_id,
            user_id: uid,
            org_id,
            role: nt,
            status,
            access_all,
            key: None,
        };
        let ghost mg = m;
        self.next_id = self.next_id + 1;
        self.memberships.push(m);
        proof {
            assert forall|k: int| 0 <= k < pre_push.memberships@.len() implies by_member_id()(
                #[trigger] pre_push.memberships@[k],
            ) != by_member_id()(mg) by {}
            lemma_push_distinct(pre_push.memberships@, mg, by_member_id());
            assert forall|k: int| 0 <= k < pre_push.memberships@.len() implies by_member_pair()(
                #[trigger] pre_push.memberships@[k],
            ) != by_member_pair()(mg) by {
                if found is Some {
                    assert(pre_push.memberships@[k] == old(self).memberships@[k]);
                } else {
                    assert(pre_push.memberships@[k].user_id < old(self).next_id);
                }
            }
            lemma_push_distinct(pre_push.memberships@, mg, by_member_pair());
            assert forall|i: int|
                0 <= i < self.orgs@.len() implies owner_count(
                self.memberships@,
                (#[trigger] self.orgs@[i]).id,
            ) >= 1 by {
                lemma_owner_count_push(pre_push.memberships@, mg, self.orgs@[i].id);
            }
            assert(invite_state(*self) =~= invite_step(
                v0,
                cols0,
                old(self).invitations_allowed,
                org_id,
                *email,
                nt,
                access_all,
                selected@,
            ).0);
        }
        Ok(())
    }

    /// Invites a batch of emails into the organization with one role,
    /// access mode and collection pre-assignment; the batch is fail-fast
    /// and its effect is `invite_fold` of the pre-state. Inviting a role
    /// above User is reserved to Owner callers.
    #[verifier::loop_isolation(false)]
    pub fn send_invite(
        &mut self,
        org_id: u64,
        emails: &Vec<String>,
        role_code: i32,
        selected: &Vec<CollectionAssignment>,
        access_all: Option<bool>,
        caller_role: Role,
    ) -> (r: Result<(), OrgError>)
        requires
            old(self).wf(),
            old(self).org_present(org_id),
            old(self).next_id as int + 2 * emails@.len() <= u64::MAX as int,
        ensures
            final(self).wf(),
            ({
                let aa = access_all == Some(true);
                match Role::spec_from_code(role_code) {
                    None => r == Result::<(), OrgError>::Err(OrgError::InvalidInput) && same_state(
                        *old(self),
                        *final(self),
                    ),
                    Some(nt) => {
                        if nt != Role::User && caller_role != Role::Owner {
                            r == Result::<(), OrgError>::Err(OrgError::Unauthorized) && same_state(
                                *old(self),
                                *final(self),
                            )
                        } else {
                            let batch = invite_fold(
                                invite_state(*old(self)),
                                old(self).collections@,
                                old(self).invitations_allowed,
                                org_id,
                                emails@,
                                nt,
                                aa,
                                selected@,
                            );
                            &&& invite_state(*final(self)) == batch.0
                            &&& match batch.1 {
                                None => r is Ok,
                                Some(e) => r == Result::<(), OrgError>::Err(e),
                            }
                            &&& final(self).orgs@ == old(self).orgs@
                            &&& final(self).collections@ == old(self).collections@
                            &&& final(self).ciphers@ == old(self).ciphers@
                            &&& final(self).collection_ciphers@ == old(self).collection_ciphers@
                            &&& final(self).invitations_allowed == old(self).invitations_allowed
                        }
                    },
                }
            }),
    {
        let nt = match Role::from_code(role_code) {
            None => {
                return Err(OrgError::InvalidInput);
            },
            Some(t) => t,
        };
        if nt != Role::User && caller_role != Role::Owner {
            return Err(OrgError::Unauthorized);
        }
        let aa = match access_all {
            Some(b) => b,
            None => false,
        };
        let ghost v0 = invite_state(*old(self));
        let ghost cols0 = old(self).collections@;
        let ghost all0 = old(self).invitations_allowed;
        let mut idx: usize = 0;
        proof {
            assert(emails@.skip(0) =~= emails@);
        }
        while idx < emails.len()
            invariant
                idx <= emails@.len(),
                self.wf(),
                self.org_present(org_id),
                self.next_id as int + 2 * (emails@.len() - idx) <= u64::MAX as int,
                invite_fold(v0, cols0, all0, org_id, emails@, nt, aa, selected@) == invite_fold(
                    invite_state(*self),
                    cols0,
                    all0,
                    org_id,
                    emails@.skip(idx as int),
                    nt,
                    aa,
                    selected@,
                ),
                self.orgs@ == old(self).orgs@,
                self.collections@ == cols0,
                self.ciphers@ == old(self).ciphers@,
                self.collection_ciphers@ == old(self).collection_ciphers@,
                self.invitations_allowed == all0,
            decreases emails@.len() - idx,
        {
            let ghost before = invite_state(*self);
            proof {
                assert(emails@.skip(idx as int).first() == emails@[idx as int]);
                assert(emails@.skip(idx as int).drop_first() =~= emails@.skip(idx as int + 1));
            }
            match self.invite_email(org_id, &emails[idx], nt, aa, selected) {
                Ok(()) => {},
                Err(e) => {
                    return Err(e);
                },
            }
            idx += 1;
        }
        proof {
            assert(emails@.skip(emails@.len() as int) =~= Seq::<String>::empty());
        }
        Ok(())
    }

    /// Confirms a membership that the invitee has accepted, storing the key
    /// the inviting client wrapped for them. Requires the membership to be
    /// in Accepted status, an Owner caller for any target above User, and a
    /// key to be supplied.
    pub fn confirm_invite(
        &mut self,
        org_id: u64,
        org_user_id: u64,
        key: Option<String>,
        caller_role: Role,
    ) -> (r: Result<(), OrgError>)
        requires
            old(self).wf(),
        ensures
            final(self).wf(),
            match r {
                Ok(()) => idx_by(
                    old(self).memberships@,
                    by_member_id_org(),
                    (org_user_id, org_id),
                ) matches Some(j) && ({
                    let m = old(self).memberships@[j];
                    &&& (m.role != Role::User ==> caller_role == Role::Owner)
                    &&& m.status == MemberStatus::Accepted
                    &&& key is Some
                    &&& final(self).memberships@ == old(self).memberships@.update(
                        j,
                        Membership {
                            id: m.id,
                            user_id: m.user_id,
                            org_id: m.org_id,
                            role: m.role,
                            status: MemberStatus::Confirmed,
                            access_all: m.access_all,
                            key: Some(key->0),
                        },
                    )
                    &&& final(self).orgs@ == old(self).orgs@
                    &&& final(self).users@ == old(self).users@
                    &&& final(self).collections@ == old(self).collections@
                    &&& final(self).grants@ == old(self).grants@
                    &&& final(self).ciphers@ == old(self).ciphers@
                    &&& final(self).collection_ciphers@ == old(self).collection_ciphers@
                    &&& final(self).invitations@ == old(self).invitations@
                    &&& final(self).invitations_allowed == old(self).invitations_allowed
                    &&& final(self).next_id == old(self).next_id
                }),
                Err(e) => same_state(*old(self), *final(self)) && (match idx_by(
                    old(self).memberships@,
                    by_member_id_org(),
                    (org_user_id, org_id),
                ) {
                    None => e == OrgError::NotFound,
                    Some(j) => {
                        let m = old(self).memberships@[j];
                        e == OrgError::Unauthorized && m.role != Role::User && caller_role
                            != Role::Owner || e == OrgError::Conflict && (m.role == Role::User
                            || caller_role == Role::Owner) && m.status != MemberStatus::Accepted
                            || e == OrgError::InvalidInput && (m.role == Role::User || caller_role
                            == Role::Owner) && m.status == MemberStatus::Accepted && key is None
                    },
                }),
            },
    {
        let j = match self.find_member_by_id(org_user_id, org_id) {
            None => {
                return Err(OrgError::NotFound);
            },
            Some(i) => i,
        };
        if self.memberships[j].role != Role::User && caller_role != Role::Owner {
            return Err(OrgError::Unauthorized);
        }
        if self.memberships[j].status != MemberStatus::Accepted {
            return Err(OrgError::Conflict);
        }
        let kk = match key {
            None => {
                return Err(OrgError::InvalidInput);
            },
            Some(kk) => kk,
        };
        let ghost pre = *old(self);
        let ghost mold = self.memberships@[j as int];
        let mut m = self.memberships.remove(j);
        m.status = MemberStatus::Confirmed;
        m.key = Some(kk);
        self.memberships.insert(j, m);
        proof {
            let m2 = self.memberships@[j as int];
            assert(self.memberships@ =~= pre.memberships@.update(j as int, m2));
            lemma_update_distinct(pre.memberships@, j as int, m2, by_member_id());
            lemma_update_distinct(pre.memberships@, j as int, m2, by_member_pair());
            assert forall|k: int|
                0 <= k < self.memberships@.len() implies (#[trigger] self.memberships@[k]).id
                < self.next_id && self.memberships@[k].org_id < self.next_id
                && self.memberships@[k].user_id < self.next_id by {
                if k != j as int {
                    assert(self.memberships@[k] == pre.memberships@[k]);
                }
            }
            assert forall|k: int|
                0 <= k < self.orgs@.len() implies owner_count(
                self.memberships@,
                (#[trigger] self.orgs@[k]).id,
            ) >= 1 by {
                let o = self.orgs@[k];
                lemma_owner_count_update(pre.memberships@, j as int, m2, o.id);
                assert(owner_bit(mold, o.id) == owner_bit(m2, o.id));
            }
        }
        Ok(())
    }
}

} // verus!
