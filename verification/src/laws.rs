//! The engine-wide laws, stated on their own so a reader sees them whole:
//! the last-owner invariant, the exact-replacement behaviour of grant
//! writes, the invitation outcomes, and the role-escalation guard.

use vstd::prelude::*;

use crate::types::{
    CollectionAssignment, Collection, Grant, Invitation, Membership, MemberStatus, OrgError, Role,
    UserAccount,
};
use crate::engine::{
    apply_grants, by_grant_pair, by_member_id_org, by_member_pair, by_user_email,
    collection_of_org, owner_count, upsert_grant, Engine,
};
use crate::invites::{invite_step, InviteState};
use crate::members::edit_user_check;
use crate::seqs::{distinct_by, idx_by, lemma_idx_by};

verus! {

/// Collection picked by an assignment.
pub open spec fn by_assignment_collection() -> spec_fn(CollectionAssignment) -> u64 {
    |a: CollectionAssignment| a.collection_id
}

/// Law: a well-formed store never holds an organization without an Owner
/// membership. Every operation of the engine requires a well-formed store
/// and leaves one, so this holds at all times.
pub proof fn lemma_last_owner_invariant(e: Engine)
    requires
        e.wf(),
    ensures
        forall|i: int|
            0 <= i < e.orgs@.len() ==> owner_count(e.memberships@, (#[trigger] e.orgs@[i]).id)
                >= 1,
{
}

/// Law: writing a grant list whose collections are pairwise distinct, onto
/// a grant set holding nothing for this user on those collections, yields
/// exactly the base set followed by the listed grants, in order. Together
/// with the clearing an edit performs first, an edit with `access_all`
/// false replaces the member's grants by exactly the supplied list.
pub proof fn lemma_apply_grants_exact(gs: Seq<Grant>, user_id: u64, selected: Seq<CollectionAssignment>)
    requires
        distinct_by(selected, by_assignment_collection()),
        forall|i: int, k: int|
            0 <= i < gs.len() && 0 <= k < selected.len() ==> !((#[trigger] gs[i]).collection_id
                == (#[trigger] selected[k]).collection_id && gs[i].user_id == user_id),
    ensures
        apply_grants(gs, user_id, selected) == gs + Seq::new(
            selected.len(),
            |k: int| Grant {
                collection_id: selected[k].collection_id,
                user_id,
                read_only: selected[k].read_only,
            },
        ),
    decreases selected.len(),
{
    if selected.len() == 0 {
        assert(gs + Seq::new(
            0,
            |k: int| Grant {
                collection_id: selected[k].collection_id,
                user_id,
                read_only: selected[k].read_only,
            },
        ) =~= gs);
    } else {
        let a = selected.first();
        let g = Grant { collection_id: a.collection_id, user_id, read_only: a.read_only };
        lemma_idx_by(gs, by_grant_pair(), (g.collection_id, g.user_id));
        match idx_by(gs, by_grant_pair(), (g.collection_id, g.user_id)) {
            Some(i) => {
                assert(selected[0] == a);
                assert(false);
            },
            None => {},
        }
        let gs2 = gs.push(g);
        assert(upsert_grant(gs, g) == gs2);
        let rest = selected.drop_first();
        assert forall|i: int, j: int| #![trigger rest[i], rest[j]]
            0 <= i < j < rest.len() implies by_assignment_collection()(rest[i])
            != by_assignment_collection()(rest[j]) by {
            assert(rest[i] == selected[i + 1]);
            assert(rest[j] == selected[j + 1]);
        }
        assert forall|i: int, k: int|
            0 <= i < gs2.len() && 0 <= k < rest.len() implies !((#[trigger] gs2[i]).collection_id
            == (#[trigger] rest[k]).collection_id && gs2[i].user_id == user_id) by {
            assert(rest[k] == selected[k + 1]);
            assert(selected[0] == a);
            if i < gs.len() {
                assert(gs2[i] == gs[i]);
            } else {
                assert(gs2[i] == g);
            }
        }
        lemma_apply_grants_exact(gs2, user_id, rest);
        assert(gs2 + Seq::new(
            rest.len(),
            |k: int| Grant {
                collection_id: rest[k].collection_id,
                user_id,
                read_only: rest[k].read_only,
            },
        ) =~= gs + Seq::new(
            selected.len(),
            |k: int| Grant {
                collection_id: selected[k].collection_id,
                user_id,
                read_only: selected[k].read_only,
            },
        ));
    }
}

/// Law: inviting an email that already names a member of the organization
/// fails the batch with Conflict and changes nothing.
pub proof fn lemma_invite_existing_member_is_conflict(
    v: InviteState,
    cols: Seq<Collection>,
    invitations_allowed: bool,
    org_id: u64,
    email: String,
    nt: Role,
    access_all: bool,
    selected: Seq<CollectionAssignment>,
)
    requires
        idx_by(v.users, by_user_email(), email@) matches Some(ui) && idx_by(
            v.memberships,
            by_member_pair(),
            (v.users[ui].id, org_id),
        ) is Some,
    ensures
        invite_step(v, cols, invitations_allowed, org_id, email, nt, access_all, selected) == (
            v,
            Some(OrgError::Conflict),
        ),
{
}

/// Law: inviting an unknown email while invitations are disabled fails
/// with NotFound and changes nothing.
pub proof fn lemma_invite_unknown_email_disabled(
    v: InviteState,
    cols: Seq<Collection>,
    org_id: u64,
    email: String,
    nt: Role,
    access_all: bool,
    selected: Seq<CollectionAssignment>,
)
    requires
        idx_by(v.users, by_user_email(), email@) is None,
    ensures
        invite_step(v, cols, false, org_id, email, nt, access_all, selected) == (
            v,
            Some(OrgError::NotFound),
        ),
{
}

/// Law: inviting an unknown email with full collection access while
/// invitations are enabled creates a fresh placeholder account, an
/// invitation marker, and a membership in Invited status.
pub proof fn lemma_invite_unknown_email_enabled(
    v: InviteState,
    cols: Seq<Collection>,
    org_id: u64,
    email: String,
    nt: Role,
    selected: Seq<CollectionAssignment>,
)
    requires
        idx_by(v.users, by_user_email(), email@) is None,
    ensures
        ({
            let step = invite_step(v, cols, true, org_id, email, nt, true, selected);
            &&& step.1 is None
            &&& step.0.users == v.users.push(
                UserAccount { id: v.next_id as u64, email, revision: 0 },
            )
            &&& step.0.invitations == v.invitations.push(Invitation { email })
            &&& step.0.memberships == v.memberships.push(
                Membership {
                    id: (v.next_id + 1) as u64,
                    user_id: v.next_id as u64,
                    org_id,
                    role: nt,
                    status: MemberStatus::Invited,
                    access_all: true,
                    key: None,
                },
            )
            &&& step.0.grants == v.grants
            &&& step.0.next_id == v.next_id + 2
        }),
{
}

/// Law: a caller below Owner cannot edit a membership at all when either
/// its current role or the requested role is Admin or Owner; the edit is
/// refused as Unauthorized, whether or not the role would change.
pub proof fn lemma_admin_cannot_escalate(
    s: Engine,
    org_id: u64,
    org_user_id: u64,
    role_code: i32,
    selected: Seq<CollectionAssignment>,
    access_all: bool,
    caller_role: Role,
)
    requires
        caller_role != Role::Owner,
        Role::spec_from_code(role_code) matches Some(nt) && (idx_by(
            s.memberships@,
            by_member_id_org(),
            (org_user_id, org_id),
        ) matches Some(mi) && ({
            let cur = s.memberships@[mi].role;
            cur.spec_level() >= 1 || nt.spec_level() >= 1
        })),
    ensures
        edit_user_check(s, org_id, org_user_id, role_code, selected, access_all, caller_role)
            == Some(OrgError::Unauthorized),
{
}

/// Law: an Owner caller may perform any role transition on a member of the
/// organization, with two exceptions only: demoting the last Owner, and
/// selecting a collection outside the organization.
pub proof fn lemma_owner_may_edit(
    s: Engine,
    org_id: u64,
    org_user_id: u64,
    role_code: i32,
    selected: Seq<CollectionAssignment>,
    access_all: bool,
)
    requires
        Role::spec_from_code(role_code) matches Some(nt) && (idx_by(
            s.memberships@,
            by_member_id_org(),
            (org_user_id, org_id),
        ) matches Some(mi) && ({
            let cur = s.memberships@[mi].role;
            !(cur == Role::Owner && nt != Role::Owner && owner_count(s.memberships@, org_id) <= 1)
        })),
        access_all || forall|k: int|
            0 <= k < selected.len() ==> collection_of_org(
                s.collections@,
                (#[trigger] selected[k]).collection_id,
                org_id,
            ),
    ensures
        edit_user_check(s, org_id, org_user_id, role_code, selected, access_all, Role::Owner)
            is None,
{
}

} // verus!
