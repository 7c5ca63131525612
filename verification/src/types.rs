//! Data records of the engine: roles, statuses, errors, and the entities
//! kept in the store.

use vstd::prelude::*;

verus! {

/// Role of a membership within one organization, totally ordered
/// User < Admin < Owner.
#[derive(Clone, Copy, PartialEq, Eq, Structural, Debug)]
pub enum Role {
    User,
    Admin,
    Owner,
}

impl Role {
    /// Position of the role in the hierarchy; guards compare levels.
    pub open spec fn spec_level(self) -> int {
        match self {
            Role::User => 0,
            Role::Admin => 1,
            Role::Owner => 2,
        }
    }

    pub fn level(&self) -> (n: u8)
        ensures
            n as int == self.spec_level(),
    {
        match self {
            Role::User => 0,
            Role::Admin => 1,
            Role::Owner => 2,
        }
    }

    /// Role denoted by a wire code: 0 is Owner, 1 is Admin, 2 is User;
    /// every other code is rejected.
    pub open spec fn spec_from_code(code: i32) -> Option<Role> {
        if code == 0 {
            Some(Role::Owner)
        } else if code == 1 {
            Some(Role::Admin)
        } else if code == 2 {
            Some(Role::User)
        } else {
            None
        }
    }

    pub fn from_code(code: i32) -> (r: Option<Role>)
        ensures
            r == Role::spec_from_code(code),
    {
        if code == 0 {
            Some(Role::Owner)
        } else if code == 1 {
            Some(Role::Admin)
        } else if code == 2 {
            Some(Role::User)
        } else {
            None
        }
    }
}

/// Lifecycle status of a membership. Only a Confirmed member holds usable
/// encryption key material.
#[derive(Clone, Copy, PartialEq, Eq, Structural, Debug)]
pub enum MemberStatus {
    Invited,
    Accepted,
    Confirmed,
}

/// The failure kinds every operation reports.
#[derive(Clone, Copy, PartialEq, Eq, Structural, Debug)]
pub enum OrgError {
    /// The entity is absent.
    NotFound,
    /// The entity exists but belongs to a different organization.
    OrgMismatch,
    /// A role or ownership guard failed.
    Unauthorized,
    /// An unparseable or missing field.
    InvalidInput,
    /// The request conflicts with the current state, such as removing the
    /// last owner or inviting an existing member.
    Conflict,
    /// The operation is deliberately not offered.
    Unsupported,
}

impl OrgError {
    /// The message surfaced to the caller for each failure kind.
    pub fn message(&self) -> (m: &'static str)
        ensures
            self is Unsupported ==> m@
                == "This functionality is not implemented. The user needs to manually register before they can be accepted into the organization."@,
    {
        match self {
            OrgError::NotFound => "Resource not found",
            OrgError::OrgMismatch => "Resource is not owned by the organization",
            OrgError::Unauthorized => "Caller is not allowed to perform this operation",
            OrgError::InvalidInput => "Invalid value provided",
            OrgError::Conflict => "Request conflicts with the current state of the organization",
            OrgError::Unsupported => "This functionality is not implemented. The user needs to manually register before they can be accepted into the organization.",
        }
    }
}

/// Root entity of one tenant.
#[verifier::ext_equal]
#[derive(Clone, Debug, PartialEq)]
pub struct Organization {
    pub id: u64,
    pub name: String,
    pub billing_email: String,
}

impl Organization {
    /// A fresh record equal to this one.
    pub fn duplicate(&self) -> (r: Organization)
        ensures
            r == *self,
    {
        let r = Organization {
            id: self.id,
            name: self.name.clone(),
            billing_email: self.billing_email.clone(),
        };
        proof {
            assert(r =~= *self);
        }
        r
    }
}

/// One user's relationship to one organization.
#[verifier::ext_equal]
#[derive(Clone, Debug, PartialEq)]
pub struct Membership {
    pub id: u64,
    pub user_id: u64,
    pub org_id: u64,
    pub role: Role,
    pub status: MemberStatus,
    /// When set, the member reads and writes every collection of the
    /// organization and explicit grants are irrelevant.
    pub access_all: bool,
    /// Wrapped encryption key, present once the membership is confirmed or
    /// was created together with the organization.
    pub key: Option<String>,
}

impl Membership {
    /// A fresh record equal to this one.
    pub fn duplicate(&self) -> (r: Membership)
        ensures
            r == *self,
    {
        let key = match &self.key {
            Some(k) => Some(k.clone()),
            None => None,
        };
        let r = Membership {
            id: self.id,
            user_id: self.user_id,
            org_id: self.org_id,
            role: self.role,
            status: self.status,
            access_all: self.access_all,
            key,
        };
        proof {
            assert(r =~= *self);
        }
        r
    }
}

/// A named grouping of vault items inside one organization.
#[verifier::ext_equal]
#[derive(Clone, Debug, PartialEq)]
pub struct Collection {
    pub id: u64,
    pub org_id: u64,
    pub name: String,
}

impl Collection {
    /// A fresh record equal to this one.
    pub fn duplicate(&self) -> (r: Collection)
        ensures
            r == *self,
    {
        let r = Collection { id: self.id, org_id: self.org_id, name: self.name.clone() };
        proof {
            assert(r =~= *self);
        }
        r
    }
}

/// Explicit access of one user to one collection; meaningful only while the
/// user's membership has `access_all` false.
#[verifier::ext_equal]
#[derive(Clone, Copy, PartialEq, Eq, Structural, Debug)]
pub struct Grant {
    pub collection_id: u64,
    pub user_id: u64,
    pub read_only: bool,
}

/// A user account known to the engine, keyed by its unique email address.
#[verifier::ext_equal]
#[derive(Clone, Debug, PartialEq)]
pub struct UserAccount {
    pub id: u64,
    pub email: String,
    /// Bumped to signal connected clients to resync.
    pub revision: u64,
}

/// Marker that an account was created purely to satisfy an invitation.
#[verifier::ext_equal]
#[derive(Clone, Debug, PartialEq)]
pub struct Invitation {
    pub email: String,
}

/// A vault item, kept here only as far as the import coordinator and the
/// organization listings need it.
#[verifier::ext_equal]
#[derive(Clone, Debug, PartialEq)]
pub struct Cipher {
    pub id: u64,
    pub org_id: u64,
    pub type_code: i32,
    pub name: String,
}

impl Cipher {
    /// A fresh record equal to this one.
    pub fn duplicate(&self) -> (r: Cipher)
        ensures
            r == *self,
    {
        let r = Cipher {
            id: self.id,
            org_id: self.org_id,
            type_code: self.type_code,
            name: self.name.clone(),
        };
        proof {
            assert(r =~= *self);
        }
        r
    }
}

/// Association of one vault item with one collection.
#[verifier::ext_equal]
#[derive(Clone, Copy, PartialEq, Eq, Structural, Debug)]
pub struct CollectionCipher {
    pub cipher_id: u64,
    pub collection_id: u64,
}

/// A collection selected for a membership, with its read-only flag.
#[verifier::ext_equal]
#[derive(Clone, Copy, PartialEq, Eq, Structural, Debug)]
pub struct CollectionAssignment {
    pub collection_id: u64,
    pub read_only: bool,
}

/// One vault item handed to the import coordinator.
#[verifier::ext_equal]
#[derive(Clone, Debug, PartialEq)]
pub struct CipherImport {
    pub type_code: i32,
    pub name: String,
}

/// A positional cross-reference resolved during import: the cipher at
/// `cipher_index` goes into the collection at `collection_index`.
#[verifier::ext_equal]
#[derive(Clone, Copy, PartialEq, Eq, Structural, Debug)]
pub struct ImportRelation {
    pub cipher_index: usize,
    pub collection_index: usize,
}

} // verus!
