//! The store itself: every table the engine owns, its well-formedness
//! invariants, and the lookup and counting primitives the operations share.

use vstd::prelude::*;

use crate::types::{
    Cipher, Collection, CollectionAssignment, CollectionCipher, Grant, Invitation, Membership,
    Organization, Role, UserAccount,
};
use crate::seqs::{
    distinct_by, idx_by, keep, lemma_idx_by, lemma_idx_by_is, lemma_push_distinct,
    lemma_update_distinct,
};

verus! {

/// Key producers, so that every invariant and contract names the same
/// spec-level function.
pub open spec fn by_org_id() -> spec_fn(Organization) -> u64 {
    |o: Organization| o.id
}

pub open spec fn by_user_id() -> spec_fn(UserAccount) -> u64 {
    |u: UserAccount| u.id
}

pub open spec fn by_user_email() -> spec_fn(UserAccount) -> Seq<char> {
    |u: UserAccount| u.email@
}

pub open spec fn by_member_id() -> spec_fn(Membership) -> u64 {
    |m: Membership| m.id
}

/// A membership is unique per (user, organization) pair.
pub open spec fn by_member_pair() -> spec_fn(Membership) -> (u64, u64) {
    |m: Membership| (m.user_id, m.org_id)
}

/// Lookup key of a membership by its own id within one organization.
pub open spec fn by_member_id_org() -> spec_fn(Membership) -> (u64, u64) {
    |m: Membership| (m.id, m.org_id)
}

pub open spec fn by_collection_id() -> spec_fn(Collection) -> u64 {
    |c: Collection| c.id
}

pub open spec fn by_cipher_id() -> spec_fn(Cipher) -> u64 {
    |c: Cipher| c.id
}

/// A grant is unique per (collection, user) pair.
pub open spec fn by_grant_pair() -> spec_fn(Grant) -> (u64, u64) {
    |g: Grant| (g.collection_id, g.user_id)
}

/// 1 when the membership is an Owner membership of this organization.
pub open spec fn owner_bit(m: Membership, org_id: u64) -> nat {
    if m.org_id == org_id && m.role == Role::Owner {
        1nat
    } else {
        0nat
    }
}

/// How many memberships of `ms` hold the Owner role in this organization.
pub open spec fn owner_count(ms: Seq<Membership>, org_id: u64) -> nat
    decreases ms.len(),
{
    if ms.len() == 0 {
        0nat
    } else {
        owner_bit(ms.first(), org_id) + owner_count(ms.drop_first(), org_id)
    }
}

pub proof fn lemma_owner_count_push(ms: Seq<Membership>, m: Membership, org_id: u64)
    ensures
        owner_count(ms.push(m), org_id) == owner_count(ms, org_id) + owner_bit(m, org_id),
    decreases ms.len(),
{
    if ms.len() == 0 {
        assert(ms.push(m).first() == m);
        assert(ms.push(m).drop_first() =~= Seq::<Membership>::empty());
        assert(owner_count(Seq::<Membership>::empty(), org_id) == 0);
        assert(owner_count(ms.push(m), org_id) == owner_bit(m, org_id) + owner_count(
            ms.push(m).drop_first(),
            org_id,
        ));
    } else {
        assert(ms.push(m).first() == ms.first());
        assert(ms.push(m).drop_first() =~= ms.drop_first().push(m));
        lemma_owner_count_push(ms.drop_first(), m, org_id);
        assert(owner_count(ms.push(m), org_id) == owner_bit(ms.first(), org_id) + owner_count(
            ms.drop_first().push(m),
            org_id,
        ));
        assert(owner_count(ms, org_id) == owner_bit(ms.first(), org_id) + owner_count(
            ms.drop_first(),
            org_id,
        ));
    }
}

pub proof fn lemma_owner_count_update(ms: Seq<Membership>, j: int, m: Membership, org_id: u64)
    requires
        0 <= j < ms.len(),
    ensures
        owner_count(ms.update(j, m), org_id) + owner_bit(ms[j], org_id) == owner_count(
            ms,
            org_id,
        ) + owner_bit(m, org_id),
    decreases ms.len(),
{
    if j == 0 {
        assert(ms.update(0, m).first() == m);
        assert(ms.update(0, m).drop_first() =~= ms.drop_first());
    } else {
        assert(ms.update(j, m).first() == ms.first());
        assert(ms.update(j, m).drop_first() =~= ms.drop_first().update(j - 1, m));
        assert(ms.drop_first()[j - 1] == ms[j]);
        lemma_owner_count_update(ms.drop_first(), j - 1, m, org_id);
    }
}

pub proof fn lemma_owner_count_remove(ms: Seq<Membership>, j: int, org_id: u64)
    requires
        0 <= j < ms.len(),
    ensures
        owner_count(ms.remove(j), org_id) + owner_bit(ms[j], org_id) == owner_count(ms, org_id),
    decreases ms.len(),
{
    if j == 0 {
        assert(ms.remove(0) =~= ms.drop_first());
    } else {
        assert(ms.remove(j).first() == ms.first());
        assert(ms.remove(j).drop_first() =~= ms.drop_first().remove(j - 1));
        assert(ms.drop_first()[j - 1] == ms[j]);
        lemma_owner_count_remove(ms.drop_first(), j - 1, org_id);
    }
}

/// Dropping only memberships that carry no owner bit for this organization
/// leaves its owner count unchanged.
pub proof fn lemma_owner_count_keep(ms: Seq<Membership>, p: spec_fn(Membership) -> bool, org_id: u64)
    requires
        forall|i: int| 0 <= i < ms.len() && !p(#[trigger] ms[i]) ==> owner_bit(ms[i], org_id) == 0,
    ensures
        owner_count(keep(ms, p), org_id) == owner_count(ms, org_id),
    decreases ms.len(),
{
    if ms.len() != 0 {
        let rest = ms.drop_first();
        assert forall|i: int| 0 <= i < rest.len() && !p(#[trigger] rest[i]) implies owner_bit(
            rest[i],
            org_id,
        ) == 0 by {
            assert(rest[i] == ms[i + 1]);
        }
        lemma_owner_count_keep(rest, p, org_id);
        if p(ms.first()) {
            let k = seq![ms.first()] + keep(rest, p);
            assert(k.first() == ms.first());
            assert(k.drop_first() =~= keep(rest, p));
        } else {
            assert(ms[0] == ms.first());
        }
    }
}

/// Memberships that survive deleting this organization.
pub open spec fn not_in_org_member(org_id: u64) -> spec_fn(Membership) -> bool {
    |m: Membership| m.org_id != org_id
}

/// Collections that survive deleting this organization.
pub open spec fn not_in_org_collection(org_id: u64) -> spec_fn(Collection) -> bool {
    |c: Collection| c.org_id != org_id
}

/// Whether some collection of `cols` with this id belongs to this
/// organization.
pub open spec fn collection_of_org(cols: Seq<Collection>, collection_id: u64, org_id: u64) -> bool {
    exists|i: int|
        0 <= i < cols.len() && (#[trigger] cols[i]).id == collection_id && cols[i].org_id == org_id
}

/// Whether a grant is picked out by the given filters: its collection lies in
/// the filtered organization, it belongs to the filtered user, and it points
/// at the filtered collection; an unset filter matches every grant.
pub open spec fn grant_hit(
    cols: Seq<Collection>,
    g: Grant,
    of: Option<u64>,
    uf: Option<u64>,
    cf: Option<u64>,
) -> bool {
    &&& match of {
        Some(o) => collection_of_org(cols, g.collection_id, o),
        None => true,
    }
    &&& match uf {
        Some(u) => g.user_id == u,
        None => true,
    }
    &&& match cf {
        Some(c) => g.collection_id == c,
        None => true,
    }
}

/// Grants that survive a deletion with the given filters.
pub open spec fn grant_keep(
    cols: Seq<Collection>,
    of: Option<u64>,
    uf: Option<u64>,
    cf: Option<u64>,
) -> spec_fn(Grant) -> bool {
    |g: Grant| !grant_hit(cols, g, of, uf, cf)
}

/// The same filters for item/collection associations.
pub open spec fn cc_hit(
    cols: Seq<Collection>,
    cc: CollectionCipher,
    of: Option<u64>,
    cf: Option<u64>,
) -> bool {
    &&& match of {
        Some(o) => collection_of_org(cols, cc.collection_id, o),
        None => true,
    }
    &&& match cf {
        Some(c) => cc.collection_id == c,
        None => true,
    }
}

/// Associations that survive a deletion with the given filters.
pub open spec fn cc_keep(cols: Seq<Collection>, of: Option<u64>, cf: Option<u64>) -> spec_fn(
    CollectionCipher,
) -> bool {
    |cc: CollectionCipher| !cc_hit(cols, cc, of, cf)
}

/// Memberships of this organization.
pub open spec fn in_org_member(org_id: u64) -> spec_fn(Membership) -> bool {
    |m: Membership| m.org_id == org_id
}

/// Memberships of this user, across organizations.
pub open spec fn member_of_user(user_id: u64) -> spec_fn(Membership) -> bool {
    |m: Membership| m.user_id == user_id
}

/// Collections of this organization.
pub open spec fn in_org_collection(org_id: u64) -> spec_fn(Collection) -> bool {
    |c: Collection| c.org_id == org_id
}

/// Ciphers of this organization.
pub open spec fn in_org_cipher(org_id: u64) -> spec_fn(Cipher) -> bool {
    |c: Cipher| c.org_id == org_id
}

/// Grants on this collection.
pub open spec fn of_collection(collection_id: u64) -> spec_fn(Grant) -> bool {
    |g: Grant| g.collection_id == collection_id
}

/// Writing a grant replaces the existing grant of the same (collection,
/// user) pair, or appends a fresh one.
pub open spec fn upsert_grant(gs: Seq<Grant>, g: Grant) -> Seq<Grant> {
    match idx_by(gs, by_grant_pair(), (g.collection_id, g.user_id)) {
        Some(i) => gs.update(i, g),
        None => gs.push(g),
    }
}

/// The grant set after writing one grant per selected collection for this
/// user, in order.
pub open spec fn apply_grants(gs: Seq<Grant>, user_id: u64, selected: Seq<CollectionAssignment>) -> Seq<
    Grant,
>
    decreases selected.len(),
{
    if selected.len() == 0 {
        gs
    } else {
        let g = Grant {
            collection_id: selected.first().collection_id,
            user_id,
            read_only: selected.first().read_only,
        };
        apply_grants(upsert_grant(gs, g), user_id, selected.drop_first())
    }
}

/// Both states hold exactly the same records; failed operations leave the
/// store in this relation to their pre-state.
pub open spec fn same_state(a: Engine, b: Engine) -> bool {
    &&& a.orgs@ == b.orgs@
    &&& a.users@ == b.users@
    &&& a.memberships@ == b.memberships@
    &&& a.collections@ == b.collections@
    &&& a.grants@ == b.grants@
    &&& a.ciphers@ == b.ciphers@
    &&& a.collection_ciphers@ == b.collection_ciphers@
    &&& a.invitations@ == b.invitations@
    &&& a.invitations_allowed == b.invitations_allowed
    &&& a.next_id == b.next_id
}

/// The whole store. Identifiers are handed out from `next_id`, so every
/// identifier on record is below it and fresh ones never collide.
pub struct Engine {
    pub orgs: Vec<Organization>,
    pub users: Vec<UserAccount>,
    pub memberships: Vec<Membership>,
    pub collections: Vec<Collection>,
    pub grants: Vec<Grant>,
    pub ciphers: Vec<Cipher>,
    pub collection_ciphers: Vec<CollectionCipher>,
    pub invitations: Vec<Invitation>,
    /// Whether inviting an email with no existing account creates a
    /// placeholder account, injected at construction.
    pub invitations_allowed: bool,
    pub next_id: u64,
}

impl Engine {
    /// Identifiers are unique per table and below the allocation mark.
    pub open spec fn ids_ok(self) -> bool {
        &&& distinct_by(self.orgs@, by_org_id())
        &&& distinct_by(self.users@, by_user_id())
        &&& distinct_by(self.memberships@, by_member_id())
        &&& distinct_by(self.collections@, by_collection_id())
        &&& distinct_by(self.ciphers@, by_cipher_id())
        &&& forall|i: int|
            0 <= i < self.orgs@.len() ==> (#[trigger] self.orgs@[i]).id < self.next_id
        &&& forall|i: int|
            0 <= i < self.users@.len() ==> (#[trigger] self.users@[i]).id < self.next_id
        &&& forall|i: int|
            0 <= i < self.memberships@.len() ==> (#[trigger] self.memberships@[i]).id
                < self.next_id && self.memberships@[i].org_id < self.next_id
                && self.memberships@[i].user_id < self.next_id
        &&& forall|i: int|
            0 <= i < self.collections@.len() ==> (#[trigger] self.collections@[i]).id
                < self.next_id
        &&& forall|i: int|
            0 <= i < self.ciphers@.len() ==> (#[trigger] self.ciphers@[i]).id < self.next_id
    }

    /// At most one membership per (user, organization) pair.
    pub open spec fn members_ok(self) -> bool {
        distinct_by(self.memberships@, by_member_pair())
    }

    /// At most one account per email address.
    pub open spec fn emails_ok(self) -> bool {
        distinct_by(self.users@, by_user_email())
    }

    /// At most one grant per (collection, user) pair.
    pub open spec fn grants_ok(self) -> bool {
        distinct_by(self.grants@, by_grant_pair())
    }

    /// Every organization on record retains at least one Owner membership.
    pub open spec fn owners_ok(self) -> bool {
        forall|i: int|
            0 <= i < self.orgs@.len() ==> owner_count(
                self.memberships@,
                (#[trigger] self.orgs@[i]).id,
            ) >= 1
    }

    pub open spec fn wf(self) -> bool {
        &&& self.ids_ok()
        &&& self.members_ok()
        &&& self.emails_ok()
        &&& self.grants_ok()
        &&& self.owners_ok()
    }

    /// An empty store.
    pub fn new(invitations_allowed: bool) -> (e: Engine)
        ensures
            e.wf(),
            e.orgs@.len() == 0,
            e.users@.len() == 0,
            e.memberships@.len() == 0,
            e.collections@.len() == 0,
            e.grants@.len() == 0,
            e.ciphers@.len() == 0,
            e.collection_ciphers@.len() == 0,
            e.invitations@.len() == 0,
            e.invitations_allowed == invitations_allowed,
            e.next_id == 0,
    {
        Engine {
            orgs: Vec::new(),
            users: Vec::new(),
            memberships: Vec::new(),
            collections: Vec::new(),
            grants: Vec::new(),
            ciphers: Vec::new(),
            collection_ciphers: Vec::new(),
            invitations: Vec::new(),
            invitations_allowed,
            next_id: 0,
        }
    }

    pub open spec fn org_present(self, org_id: u64) -> bool {
        idx_by(self.orgs@, by_org_id(), org_id) is Some
    }

    pub open spec fn member_present(self, user_id: u64, org_id: u64) -> bool {
        idx_by(self.memberships@, by_member_pair(), (user_id, org_id)) is Some
    }

    /// Index of the organization with this id.
    pub fn find_org(&self, org_id: u64) -> (r: Option<usize>)
        ensures
            match r {
                Some(i) => idx_by(self.orgs@, by_org_id(), org_id) == Some(i as int) && i
                    < self.orgs@.len() && self.orgs@[i as int].id == org_id,
                None => !self.org_present(org_id) && forall|j: int|
                    0 <= j < self.orgs@.len() ==> (#[trigger] self.orgs@[j]).id != org_id,
            },
    {
        let mut i: usize = 0;
        while i < self.orgs.len()
            invariant
                i <= self.orgs@.len(),
                forall|j: int| 0 <= j < i ==> (#[trigger] self.orgs@[j]).id != org_id,
            decreases self.orgs@.len() - i,
        {
            if self.orgs[i].id == org_id {
                proof {
                    lemma_idx_by_is(self.orgs@, by_org_id(), org_id, i as int);
                }
                return Some(i);
            }
            i += 1;
        }
        proof {
            lemma_idx_by(self.orgs@, by_org_id(), org_id);
        }
        None
    }

    /// Index of the account whose email is `email`.
    pub fn find_user_by_email(&self, email: &String) -> (r: Option<usize>)
        ensures
            match r {
                Some(i) => idx_by(self.users@, by_user_email(), email@) == Some(i as int) && i
                    < self.users@.len() && self.users@[i as int].email@ == email@,
                None => idx_by(self.users@, by_user_email(), email@) is None && forall|j: int|
                    0 <= j < self.users@.len() ==> (#[trigger] self.users@[j]).email@ != email@,
            },
    {
        let mut i: usize = 0;
        while i < self.users.len()
            invariant
                i <= self.users@.len(),
                forall|j: int| 0 <= j < i ==> (#[trigger] self.users@[j]).email@ != email@,
            decreases self.users@.len() - i,
        {
            if self.users[i].email == *email {
                proof {
                    lemma_idx_by_is(self.users@, by_user_email(), email@, i as int);
                }
                return Some(i);
            }
            i += 1;
        }
        proof {
            lemma_idx_by(self.users@, by_user_email(), email@);
        }
        None
    }

    /// Index of the account with this id.
    pub fn find_user(&self, user_id: u64) -> (r: Option<usize>)
        ensures
            match r {
                Some(i) => idx_by(self.users@, by_user_id(), user_id) == Some(i as int) && i
                    < self.users@.len() && self.users@[i as int].id == user_id,
                None => idx_by(self.users@, by_user_id(), user_id) is None && forall|j: int|
                    0 <= j < self.users@.len() ==> (#[trigger] self.users@[j]).id != user_id,
            },
    {
        let mut i: usize = 0;
        while i < self.users.len()
            invariant
                i <= self.users@.len(),
                forall|j: int| 0 <= j < i ==> (#[trigger] self.users@[j]).id != user_id,
            decreases self.users@.len() - i,
        {
            if self.users[i].id == user_id {
                proof {
                    lemma_idx_by_is(self.users@, by_user_id(), user_id, i as int);
                }
                return Some(i);
            }
            i += 1;
        }
        proof {
            lemma_idx_by(self.users@, by_user_id(), user_id);
        }
        None
    }

    /// Index of the membership of this user in this organization.
    pub fn find_member(&self, user_id: u64, org_id: u64) -> (r: Option<usize>)
        ensures
            match r {
                Some(i) => idx_by(self.memberships@, by_member_pair(), (user_id, org_id)) == Some(
                    i as int,
                ) && i < self.memberships@.len() && self.memberships@[i as int].user_id == user_id
                    && self.memberships@[i as int].org_id == org_id,
                None => !self.member_present(user_id, org_id) && forall|j: int|
                    0 <= j < self.memberships@.len() ==> !((#[trigger] self.memberships@[j]).user_id
                        == user_id && self.memberships@[j].org_id == org_id),
            },
    {
        let mut i: usize = 0;
        while i < self.memberships.len()
            invariant
                i <= self.memberships@.len(),
                forall|j: int|
                    0 <= j < i ==> !((#[trigger] self.memberships@[j]).user_id == user_id
                        && self.memberships@[j].org_id == org_id),
            decreases self.memberships@.len() - i,
        {
            if self.memberships[i].user_id == user_id && self.memberships[i].org_id == org_id {
                proof {
                    lemma_idx_by_is(self.memberships@, by_member_pair(), (user_id, org_id), i as int);
                }
                return Some(i);
            }
            i += 1;
        }
        proof {
            lemma_idx_by(self.memberships@, by_member_pair(), (user_id, org_id));
        }
        None
    }

    /// Index of the membership with this membership id in this organization.
    pub fn find_member_by_id(&self, member_id: u64, org_id: u64) -> (r: Option<usize>)
        ensures
            match r {
                Some(i) => idx_by(self.memberships@, by_member_id_org(), (member_id, org_id))
                    == Some(i as int) && i < self.memberships@.len() && self.memberships@[
                    i as int].id == member_id && self.memberships@[i as int].org_id == org_id,
                None => idx_by(self.memberships@, by_member_id_org(), (member_id, org_id)) is None
                    && forall|j: int|
                    0 <= j < self.memberships@.len() ==> !((#[trigger] self.memberships@[j]).id
                        == member_id && self.memberships@[j].org_id == org_id),
            },
    {
        let mut i: usize = 0;
        while i < self.memberships.len()
            invariant
                i <= self.memberships@.len(),
                forall|j: int|
                    0 <= j < i ==> !((#[trigger] self.memberships@[j]).id == member_id
                        && self.memberships@[j].org_id == org_id),
            decreases self.memberships@.len() - i,
        {
            if self.memberships[i].id == member_id && self.memberships[i].org_id == org_id {
                proof {
                    lemma_idx_by_is(
                        self.memberships@,
                        by_member_id_org(),
                        (member_id, org_id),
                        i as int,
                    );
                }
                return Some(i);
            }
            i += 1;
        }
        proof {
            lemma_idx_by(self.memberships@, by_member_id_org(), (member_id, org_id));
        }
        None
    }

    /// Index of the collection with this id.
    pub fn find_collection(&self, collection_id: u64) -> (r: Option<usize>)
        ensures
            match r {
                Some(i) => idx_by(self.collections@, by_collection_id(), collection_id) == Some(
                    i as int,
                ) && i < self.collections@.len() && self.collections@[i as int].id
                    == collection_id,
                None => idx_by(self.collections@, by_collection_id(), collection_id) is None
                    && forall|j: int|
                    0 <= j < self.collections@.len() ==> (#[trigger] self.collections@[j]).id
                        != collection_id,
            },
    {
        let mut i: usize = 0;
        while i < self.collections.len()
            invariant
                i <= self.collections@.len(),
                forall|j: int|
                    0 <= j < i ==> (#[trigger] self.collections@[j]).id != collection_id,
            decreases self.collections@.len() - i,
        {
            if self.collections[i].id == collection_id {
                proof {
                    lemma_idx_by_is(self.collections@, by_collection_id(), collection_id, i as int);
                }
                return Some(i);
            }
            i += 1;
        }
        proof {
            lemma_idx_by(self.collections@, by_collection_id(), collection_id);
        }
        None
    }

    /// Index of the grant of this user on this collection.
    pub fn find_grant(&self, collection_id: u64, user_id: u64) -> (r: Option<usize>)
        ensures
            match r {
                Some(i) => idx_by(self.grants@, by_grant_pair(), (collection_id, user_id)) == Some(
                    i as int,
                ) && i < self.grants@.len() && self.grants@[i as int].collection_id
                    == collection_id && self.grants@[i as int].user_id == user_id,
                None => idx_by(self.grants@, by_grant_pair(), (collection_id, user_id)) is None
                    && forall|j: int|
                    0 <= j < self.grants@.len() ==> !((#[trigger] self.grants@[j]).collection_id
                        == collection_id && self.grants@[j].user_id == user_id),
            },
    {
        let mut i: usize = 0;
        while i < self.grants.len()
            invariant
                i <= self.grants@.len(),
                forall|j: int|
                    0 <= j < i ==> !((#[trigger] self.grants@[j]).collection_id == collection_id
                        && self.grants@[j].user_id == user_id),
            decreases self.grants@.len() - i,
        {
            if self.grants[i].collection_id == collection_id && self.grants[i].user_id == user_id {
                proof {
                    lemma_idx_by_is(self.grants@, by_grant_pair(), (collection_id, user_id), i as int);
                }
                return Some(i);
            }
            i += 1;
        }
        proof {
            lemma_idx_by(self.grants@, by_grant_pair(), (collection_id, user_id));
        }
        None
    }

    /// How many Owner memberships the organization currently has.
    pub fn owner_total(&self, org_id: u64) -> (n: usize)
        ensures
            n as nat == owner_count(self.memberships@, org_id),
    {
        let ms = &self.memberships;
        let mut n: usize = 0;
        let mut i: usize = 0;
        proof {
            assert(ms@.skip(0) =~= ms@);
        }
        while i < ms.len()
            invariant
                i <= ms@.len(),
                n <= i,
                n as nat + owner_count(ms@.skip(i as int), org_id) == owner_count(ms@, org_id),
            decreases ms@.len() - i,
        {
            proof {
                assert(ms@.skip(i as int).first() == ms@[i as int]);
                assert(ms@.skip(i as int).drop_first() =~= ms@.skip(i as int + 1));
            }
            let m = &ms[i];
            if m.org_id == org_id && m.role == Role::Owner {
                n += 1;
            }
            i += 1;
        }
        proof {
            assert(ms@.skip(ms@.len() as int) =~= Seq::<Membership>::empty());
        }
        n
    }

    /// Deletes every membership of this organization.
    pub fn retain_members_not_in_org(&mut self, org_id: u64)
        ensures
            final(self).memberships@ == keep(old(self).memberships@, not_in_org_member(org_id)),
            final(self).orgs@ == old(self).orgs@,
            final(self).users@ == old(self).users@,
            final(self).collections@ == old(self).collections@,
            final(self).grants@ == old(self).grants@,
            final(self).ciphers@ == old(self).ciphers@,
            final(self).collection_ciphers@ == old(self).collection_ciphers@,
            final(self).invitations@ == old(self).invitations@,
            final(self).invitations_allowed == old(self).invitations_allowed,
            final(self).next_id == old(self).next_id,
    {
        let ghost p = not_in_org_member(org_id);
        let ghost orig = self.memberships@;
        let mut i: usize = 0;
        proof {
            assert(self.memberships@.skip(0) =~= self.memberships@);
            assert(self.memberships@.take(0) =~= Seq::<Membership>::empty());
        }
        while i < self.memberships.len()
            invariant
                p == not_in_org_member(org_id),
                self.orgs@ == old(self).orgs@,
                self.users@ == old(self).users@,
                self.collections@ == old(self).collections@,
                self.grants@ == old(self).grants@,
                self.ciphers@ == old(self).ciphers@,
                self.collection_ciphers@ == old(self).collection_ciphers@,
                self.invitations@ == old(self).invitations@,
                self.invitations_allowed == old(self).invitations_allowed,
                self.next_id == old(self).next_id,
                i <= self.memberships@.len(),
                keep(orig, p) == self.memberships@.take(i as int) + keep(
                    self.memberships@.skip(i as int),
                    p,
                ),
            decreases self.memberships@.len() - i,
        {
            let ghost v = self.memberships@;
            proof {
                assert(v.skip(i as int).first() == v[i as int]);
                assert(v.skip(i as int).drop_first() =~= v.skip(i as int + 1));
            }
            if self.memberships[i].org_id == org_id {
                self.memberships.remove(i);
                proof {
                    assert(!p(v[i as int]));
                    assert(self.memberships@.take(i as int) =~= v.take(i as int));
                    assert(self.memberships@.skip(i as int) =~= v.skip(i as int + 1));
                }
            } else {
                i += 1;
                proof {
                    assert(p(v[i as int - 1]));
                    assert(keep(v.skip(i as int - 1), p) =~= seq![v[i as int - 1]] + keep(
                        v.skip(i as int),
                        p,
                    ));
                    assert(v.take(i as int) =~= v.take(i as int - 1) + seq![v[i as int - 1]]);
                    assert(v.take(i as int - 1) + (seq![v[i as int - 1]] + keep(
                        v.skip(i as int),
                        p,
                    )) =~= v.take(i as int) + keep(v.skip(i as int), p));
                }
            }
        }
        proof {
            assert(self.memberships@.skip(i as int) =~= Seq::<Membership>::empty());
            assert(keep(Seq::<Membership>::empty(), p) =~= Seq::<Membership>::empty());
            assert(self.memberships@.take(i as int) =~= self.memberships@);
            assert(self.memberships@ + Seq::<Membership>::empty() =~= self.memberships@);
        }
    }

    /// Deletes every collection of this organization.
    pub fn retain_collections_not_in_org(&mut self, org_id: u64)
        ensures
            final(self).collections@ == keep(old(self).collections@, not_in_org_collection(org_id)),
            final(self).orgs@ == old(self).orgs@,
            final(self).users@ == old(self).users@,
            final(self).memberships@ == old(self).memberships@,
            final(self).grants@ == old(self).grants@,
            final(self).ciphers@ == old(self).ciphers@,
            final(self).collection_ciphers@ == old(self).collection_ciphers@,
            final(self).invitations@ == old(self).invitations@,
            final(self).invitations_allowed == old(self).invitations_allowed,
            final(self).next_id == old(self).next_id,
    {
        let ghost p = not_in_org_collection(org_id);
        let ghost orig = self.collections@;
        let mut i: usize = 0;
        proof {
            assert(self.collections@.skip(0) =~= self.collections@);
            assert(self.collections@.take(0) =~= Seq::<Collection>::empty());
        }
        while i < self.collections.len()
            invariant
                p == not_in_org_collection(org_id),
                self.orgs@ == old(self).orgs@,
                self.users@ == old(self).users@,
                self.memberships@ == old(self).memberships@,
                self.grants@ == old(self).grants@,
                self.ciphers@ == old(self).ciphers@,
                self.collection_ciphers@ == old(self).collection_ciphers@,
                self.invitations@ == old(self).invitations@,
                self.invitations_allowed == old(self).invitations_allowed,
                self.next_id == old(self).next_id,
                i <= self.collections@.len(),
                keep(orig, p) == self.collections@.take(i as int) + keep(
                    self.collections@.skip(i as int),
                    p,
                ),
            decreases self.collections@.len() - i,
        {
            let ghost v = self.collections@;
            proof {
                assert(v.skip(i as int).first() == v[i as int]);
                assert(v.skip(i as int).drop_first() =~= v.skip(i as int + 1));
            }
            if self.collections[i].org_id == org_id {
                self.collections.remove(i);
                proof {
                    assert(!p(v[i as int]));
                    assert(self.collections@.take(i as int) =~= v.take(i as int));
                    assert(self.collections@.skip(i as int) =~= v.skip(i as int + 1));
                }
            } else {
                i += 1;
                proof {
                    assert(p(v[i as int - 1]));
                    assert(keep(v.skip(i as int - 1), p) =~= seq![v[i as int - 1]] + keep(
                        v.skip(i as int),
                        p,
                    ));
                    assert(v.take(i as int) =~= v.take(i as int - 1) + seq![v[i as int - 1]]);
                    assert(v.take(i as int - 1) + (seq![v[i as int - 1]] + keep(
                        v.skip(i as int),
                        p,
                    )) =~= v.take(i as int) + keep(v.skip(i as int), p));
                }
            }
        }
        proof {
            assert(self.collections@.skip(i as int) =~= Seq::<Collection>::empty());
            assert(keep(Seq::<Collection>::empty(), p) =~= Seq::<Collection>::empty());
            assert(self.collections@.take(i as int) =~= self.collections@);
            assert(self.collections@ + Seq::<Collection>::empty() =~= self.collections@);
        }
    }

    /// Deletes every grant picked out by the filters; see `grant_hit`.
    pub fn retain_grants(&mut self, of: Option<u64>, uf: Option<u64>, cf: Option<u64>)
        requires
            distinct_by(old(self).collections@, by_collection_id()),
        ensures
            final(self).grants@ == keep(old(self).grants@, grant_keep(old(self).collections@, of, uf, cf)),
            final(self).orgs@ == old(self).orgs@,
            final(self).users@ == old(self).users@,
            final(self).memberships@ == old(self).memberships@,
            final(self).collections@ == old(self).collections@,
            final(self).ciphers@ == old(self).ciphers@,
            final(self).collection_ciphers@ == old(self).collection_ciphers@,
            final(self).invitations@ == old(self).invitations@,
            final(self).invitations_allowed == old(self).invitations_allowed,
            final(self).next_id == old(self).next_id,
    {
        let ghost p = grant_keep(old(self).collections@, of, uf, cf);
        let ghost orig = self.grants@;
        let mut i: usize = 0;
        proof {
            assert(self.grants@.skip(0) =~= self.grants@);
            assert(self.grants@.take(0) =~= Seq::<Grant>::empty());
        }
        while i < self.grants.len()
            invariant
                p == grant_keep(old(self).collections@, of, uf, cf),
                distinct_by(self.collections@, by_collection_id()),
                self.orgs@ == old(self).orgs@,
                self.users@ == old(self).users@,
                self.memberships@ == old(self).memberships@,
                self.collections@ == old(self).collections@,
                self.ciphers@ == old(self).ciphers@,
                self.collection_ciphers@ == old(self).collection_ciphers@,
                self.invitations@ == old(self).invitations@,
                self.invitations_allowed == old(self).invitations_allowed,
                self.next_id == old(self).next_id,
                i <= self.grants@.len(),
                keep(orig, p) == self.grants@.take(i as int) + keep(self.grants@.skip(i as int), p),
            decreases self.grants@.len() - i,
        {
            let ghost v = self.grants@;
            let g = self.grants[i];
            let in_org = match of {
                Some(o) => {
                    match self.find_collection(g.collection_id) {
                        Some(ci) => self.collections[ci].org_id == o,
                        None => false,
                    }
                },
                None => true,
            };
            let of_user = match uf {
                Some(u) => g.user_id == u,
                None => true,
            };
            let of_collection = match cf {
                Some(c) => g.collection_id == c,
                None => true,
            };
            let hit = in_org && of_user && of_collection;
            proof {
                if of is Some {
                    let o = of->0;
                    if collection_of_org(self.collections@, g.collection_id, o) {
                        let wi = choose|wi: int|
                            0 <= wi < self.collections@.len() && (#[trigger] self.collections@[wi]).id
                                == g.collection_id && self.collections@[wi].org_id == o;
                        assert(in_org);
                    }
                }
                assert(hit == grant_hit(self.collections@, g, of, uf, cf));
                assert(v.skip(i as int).first() == v[i as int]);
                assert(v.skip(i as int).drop_first() =~= v.skip(i as int + 1));
            }
            if hit {
                self.grants.remove(i);
                proof {
                    assert(!p(v[i as int]));
                    assert(self.grants@.take(i as int) =~= v.take(i as int));
                    assert(self.grants@.skip(i as int) =~= v.skip(i as int + 1));
                }
            } else {
                i += 1;
                proof {
                    assert(p(v[i as int - 1]));
                    assert(keep(v.skip(i as int - 1), p) =~= seq![v[i as int - 1]] + keep(
                        v.skip(i as int),
                        p,
                    ));
                    assert(v.take(i as int) =~= v.take(i as int - 1) + seq![v[i as int - 1]]);
                    assert(v.take(i as int - 1) + (seq![v[i as int - 1]] + keep(
                        v.skip(i as int),
                        p,
                    )) =~= v.take(i as int) + keep(v.skip(i as int), p));
                }
            }
        }
        proof {
            assert(self.grants@.skip(i as int) =~= Seq::<Grant>::empty());
            assert(keep(Seq::<Grant>::empty(), p) =~= Seq::<Grant>::empty());
            assert(self.grants@.take(i as int) =~= self.grants@);
            assert(self.grants@ + Seq::<Grant>::empty() =~= self.grants@);
        }
    }

    /// Deletes every item/collection association picked out by the filters;
    /// see `cc_hit`.
    pub fn retain_collection_ciphers(&mut self, of: Option<u64>, cf: Option<u64>)
        requires
            distinct_by(old(self).collections@, by_collection_id()),
        ensures
            final(self).collection_ciphers@ == keep(
                old(self).collection_ciphers@,
                cc_keep(old(self).collections@, of, cf),
            ),
            final(self).orgs@ == old(self).orgs@,
            final(self).users@ == old(self).users@,
            final(self).memberships@ == old(self).memberships@,
            final(self).collections@ == old(self).collections@,
            final(self).grants@ == old(self).grants@,
            final(self).ciphers@ == old(self).ciphers@,
            final(self).invitations@ == old(self).invitations@,
            final(self).invitations_allowed == old(self).invitations_allowed,
            final(self).next_id == old(self).next_id,
    {
        let ghost p = cc_keep(old(self).collections@, of, cf);
        let ghost orig = self.collection_ciphers@;
        let mut i: usize = 0;
        proof {
            assert(self.collection_ciphers@.skip(0) =~= self.collection_ciphers@);
            assert(self.collection_ciphers@.take(0) =~= Seq::<CollectionCipher>::empty());
        }
        while i < self.collection_ciphers.len()
            invariant
                p == cc_keep(old(self).collections@, of, cf),
                distinct_by(self.collections@, by_collection_id()),
                self.orgs@ == old(self).orgs@,
                self.users@ == old(self).users@,
                self.memberships@ == old(self).memberships@,
                self.collections@ == old(self).collections@,
                self.grants@ == old(self).grants@,
                self.ciphers@ == old(self).ciphers@,
                self.invitations@ == old(self).invitations@,
                self.invitations_allowed == old(self).invitations_allowed,
                self.next_id == old(self).next_id,
                i <= self.collection_ciphers@.len(),
                keep(orig, p) == self.collection_ciphers@.take(i as int) + keep(
                    self.collection_ciphers@.skip(i as int),
                    p,
                ),
            decreases self.collection_ciphers@.len() - i,
        {
            let ghost v = self.collection_ciphers@;
            let cc = self.collection_ciphers[i];
            let in_org = match of {
                Some(o) => {
                    match self.find_collection(cc.collection_id) {
                        Some(ci) => self.collections[ci].org_id == o,
                        None => false,
                    }
                },
                None => true,
            };
            let of_collection = match cf {
                Some(c) => cc.collection_id == c,
                None => true,
            };
            let hit = in_org && of_collection;
            proof {
                if of is Some {
                    let o = of->0;
                    if collection_of_org(self.collections@, cc.collection_id, o) {
                        let wi = choose|wi: int|
                            0 <= wi < self.collections@.len() && (#[trigger] self.collections@[wi]).id
                                == cc.collection_id && self.collections@[wi].org_id == o;
                        assert(in_org);
                    }
                }
                assert(hit == cc_hit(self.collections@, cc, of, cf));
                assert(v.skip(i as int).first() == v[i as int]);
                assert(v.skip(i as int).drop_first() =~= v.skip(i as int + 1));
            }
            if hit {
                self.collection_ciphers.remove(i);
                proof {
                    assert(!p(v[i as int]));
                    assert(self.collection_ciphers@.take(i as int) =~= v.take(i as int));
                    assert(self.collection_ciphers@.skip(i as int) =~= v.skip(i as int + 1));
                }
            } else {
                i += 1;
                proof {
                    assert(p(v[i as int - 1]));
                    assert(keep(v.skip(i as int - 1), p) =~= seq![v[i as int - 1]] + keep(
                        v.skip(i as int),
                        p,
                    ));
                    assert(v.take(i as int) =~= v.take(i as int - 1) + seq![v[i as int - 1]]);
                    assert(v.take(i as int - 1) + (seq![v[i as int - 1]] + keep(
                        v.skip(i as int),
                        p,
                    )) =~= v.take(i as int) + keep(v.skip(i as int), p));
                }
            }
        }
        proof {
            assert(self.collection_ciphers@.skip(i as int) =~= Seq::<CollectionCipher>::empty());
            assert(keep(Seq::<CollectionCipher>::empty(), p) =~= Seq::<CollectionCipher>::empty());
            assert(self.collection_ciphers@.take(i as int) =~= self.collection_ciphers@);
            assert(self.collection_ciphers@ + Seq::<CollectionCipher>::empty()
                =~= self.collection_ciphers@);
        }
    }

    /// Writes one grant: replaces the grant of the same (collection, user)
    /// pair when one exists, else appends a fresh one.
    pub fn save_grant(&mut self, collection_id: u64, user_id: u64, read_only: bool)
        requires
            distinct_by(old(self).grants@, by_grant_pair()),
        ensures
            final(self).grants@ == upsert_grant(
                old(self).grants@,
                Grant { collection_id, user_id, read_only },
            ),
            distinct_by(final(self).grants@, by_grant_pair()),
            final(self).orgs@ == old(self).orgs@,
            final(self).users@ == old(self).users@,
            final(self).memberships@ == old(self).memberships@,
            final(self).collections@ == old(self).collections@,
            final(self).ciphers@ == old(self).ciphers@,
            final(self).collection_ciphers@ == old(self).collection_ciphers@,
            final(self).invitations@ == old(self).invitations@,
            final(self).invitations_allowed == old(self).invitations_allowed,
            final(self).next_id == old(self).next_id,
    {
        let g = Grant { collection_id, user_id, read_only };
        match self.find_grant(collection_id, user_id) {
            Some(i) => {
                self.grants.remove(i);
                self.grants.insert(i, g);
                proof {
                    assert(self.grants@ =~= old(self).grants@.update(i as int, g));
                    lemma_update_distinct(old(self).grants@, i as int, g, by_grant_pair());
                }
            },
            None => {
                self.grants.push(g);
                proof {
                    assert forall|k: int| 0 <= k < old(self).grants@.len() implies by_grant_pair()(
                        #[trigger] old(self).grants@[k],
                    ) != by_grant_pair()(g) by {}
                    lemma_push_distinct(old(self).grants@, g, by_grant_pair());
                }
            },
        }
    }
}

} // verus!
