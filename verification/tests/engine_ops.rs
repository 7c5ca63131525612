use org_access::engine::Engine;
use org_access::types::{
    CipherImport, CollectionAssignment, ImportRelation, MemberStatus, OrgError, Role,
};

/// A store with one organization owned by a registered user.
fn setup() -> (Engine, u64, u64) {
    let mut e = Engine::new(true);
    let owner = e.register_user(String::from("owner@example.com"));
    let org = e.create_organization(
        String::from("Acme"),
        String::from("billing@example.com"),
        String::from("Default Collection"),
        String::from("wrapped-owner-key"),
        owner,
    );
    (e, org.id, owner)
}

fn member_id_of(e: &Engine, org_id: u64, user_id: u64) -> u64 {
    e.memberships
        .iter()
        .find(|m| m.org_id == org_id && m.user_id == user_id)
        .expect("membership present")
        .id
}

#[test]
fn create_organization_creates_owner_and_default_collection() {
    let (e, org_id, owner) = setup();
    assert_eq!(e.orgs.len(), 1);
    assert_eq!(e.orgs[0].name, "Acme");
    assert_eq!(e.memberships.len(), 1);
    let m = &e.memberships[0];
    assert_eq!(m.user_id, owner);
    assert_eq!(m.org_id, org_id);
    assert_eq!(m.role, Role::Owner);
    assert_eq!(m.status, MemberStatus::Confirmed);
    assert!(m.access_all);
    assert_eq!(m.key.as_deref(), Some("wrapped-owner-key"));
    assert_eq!(e.collections.len(), 1);
    assert_eq!(e.collections[0].name, "Default Collection");
    assert_eq!(e.collections[0].org_id, org_id);
}

#[test]
fn get_and_update_organization() {
    let (mut e, org_id, _) = setup();
    let got = e.get_organization(org_id).unwrap();
    assert_eq!(got.name, "Acme");
    let updated = e
        .post_organization(org_id, String::from("Acme 2"), String::from("b2@example.com"))
        .unwrap();
    assert_eq!(updated.name, "Acme 2");
    assert_eq!(updated.billing_email, "b2@example.com");
    assert_eq!(e.get_organization(org_id).unwrap().name, "Acme 2");
    assert_eq!(e.get_organization(999), Err(OrgError::NotFound));
    assert_eq!(
        e.put_organization(999, String::from("x"), String::from("y")),
        Err(OrgError::NotFound)
    );
}

#[test]
fn delete_organization_checks_password_and_cascades() {
    let (mut e, org_id, _) = setup();
    assert_eq!(e.delete_organization(org_id, false), Err(OrgError::Unauthorized));
    assert_eq!(e.delete_organization(999, true), Err(OrgError::NotFound));
    assert_eq!(e.delete_organization(org_id, true), Ok(()));
    assert!(e.orgs.is_empty());
    assert!(e.memberships.is_empty());
    assert!(e.collections.is_empty());
    assert_eq!(e.post_delete_organization(org_id, true), Err(OrgError::NotFound));
}

#[test]
fn last_owner_cannot_leave() {
    let (mut e, org_id, owner) = setup();
    assert_eq!(e.leave_organization(org_id, owner), Err(OrgError::Conflict));
    assert_eq!(e.memberships.len(), 1);
    assert_eq!(e.leave_organization(org_id, 12345), Err(OrgError::NotFound));
}

#[test]
fn second_owner_can_leave() {
    let (mut e, org_id, _) = setup();
    e.send_invite(
        org_id,
        &vec![String::from("second@example.com")],
        0,
        &vec![],
        Some(true),
        Role::Owner,
    )
    .unwrap();
    let second = e.users.iter().find(|u| u.email == "second@example.com").unwrap().id;
    assert_eq!(e.leave_organization(org_id, second), Ok(()));
    assert_eq!(e.memberships.len(), 1);
}

#[test]
fn last_owner_cannot_be_deleted_or_demoted() {
    let (mut e, org_id, owner) = setup();
    let mid = member_id_of(&e, org_id, owner);
    assert_eq!(e.delete_user(org_id, mid, Role::Owner), Err(OrgError::Conflict));
    // demoting the last owner to admin fails the same way
    assert_eq!(
        e.edit_user(org_id, mid, 1, &vec![], true, Role::Owner),
        Err(OrgError::Conflict)
    );
    assert_eq!(e.memberships[0].role, Role::Owner);
}

#[test]
fn invite_existing_member_conflicts() {
    let (mut e, org_id, _) = setup();
    let r = e.send_invite(
        org_id,
        &vec![String::from("owner@example.com")],
        2,
        &vec![],
        None,
        Role::Admin,
    );
    assert_eq!(r, Err(OrgError::Conflict));
    assert_eq!(e.memberships.len(), 1);
}

#[test]
fn invite_unknown_email_disabled_fails() {
    let mut e = Engine::new(false);
    let owner = e.register_user(String::from("owner@example.com"));
    let org = e.create_organization(
        String::from("Acme"),
        String::from("b@example.com"),
        String::from("Default"),
        String::from("k"),
        owner,
    );
    let r = e.send_invite(
        org.id,
        &vec![String::from("nobody@example.com")],
        2,
        &vec![],
        None,
        Role::Admin,
    );
    assert_eq!(r, Err(OrgError::NotFound));
    assert_eq!(e.users.len(), 1);
    assert_eq!(e.memberships.len(), 1);
}

#[test]
fn invite_unknown_email_enabled_creates_invited_member() {
    let (mut e, org_id, _) = setup();
    let r = e.send_invite(
        org_id,
        &vec![String::from("new@example.com")],
        2,
        &vec![],
        None,
        Role::Admin,
    );
    assert_eq!(r, Ok(()));
    let user = e.users.iter().find(|u| u.email == "new@example.com").expect("user created");
    assert_eq!(e.invitations.len(), 1);
    assert_eq!(e.invitations[0].email, "new@example.com");
    let m = e
        .memberships
        .iter()
        .find(|m| m.user_id == user.id && m.org_id == org_id)
        .expect("membership created");
    assert_eq!(m.status, MemberStatus::Invited);
    assert_eq!(m.role, Role::User);
    assert_eq!(m.key, None);
}

#[test]
fn invite_guards_role_and_code() {
    let (mut e, org_id, _) = setup();
    // unparseable role code
    assert_eq!(
        e.send_invite(org_id, &vec![String::from("a@b.c")], 9, &vec![], None, Role::Owner),
        Err(OrgError::InvalidInput)
    );
    // an Admin caller cannot invite an Admin
    assert_eq!(
        e.send_invite(org_id, &vec![String::from("a@b.c")], 1, &vec![], None, Role::Admin),
        Err(OrgError::Unauthorized)
    );
    // an Owner caller can
    assert_eq!(
        e.send_invite(org_id, &vec![String::from("a@b.c")], 1, &vec![], Some(true), Role::Owner),
        Ok(())
    );
}

#[test]
fn invite_with_bad_collection_aborts_before_membership() {
    let (mut e, org_id, _) = setup();
    let n_members = e.memberships.len();
    let r = e.send_invite(
        org_id,
        &vec![String::from("new@example.com")],
        2,
        &vec![CollectionAssignment { collection_id: 777, read_only: false }],
        Some(false),
        Role::Admin,
    );
    assert_eq!(r, Err(OrgError::NotFound));
    assert_eq!(e.memberships.len(), n_members);
    // the placeholder account was already created when the invite aborted
    assert!(e.users.iter().any(|u| u.email == "new@example.com"));
}

#[test]
fn confirm_requires_accepted_status() {
    let (mut e, org_id, _) = setup();
    e.send_invite(org_id, &vec![String::from("n@example.com")], 2, &vec![], Some(true), Role::Admin)
        .unwrap();
    let uid = e.users.iter().find(|u| u.email == "n@example.com").unwrap().id;
    let mid = member_id_of(&e, org_id, uid);
    // the membership is Invited, not Accepted
    let r = e.confirm_invite(org_id, mid, Some(String::from("k")), Role::Admin);
    assert_eq!(r, Err(OrgError::Conflict));
}

#[test]
fn confirm_stores_key_verbatim() {
    let (mut e, org_id, _owner) = setup();
    e.register_user(String::from("m@example.com"));
    e.send_invite(org_id, &vec![String::from("m@example.com")], 2, &vec![], Some(true), Role::Admin)
        .unwrap();
    let uid = e.users.iter().find(|u| u.email == "m@example.com").unwrap().id;
    let mid = member_id_of(&e, org_id, uid);
    // a pre-existing account joins as Accepted
    assert_eq!(e.confirm_invite(org_id, mid, None, Role::Admin), Err(OrgError::InvalidInput));
    let r = e.confirm_invite(org_id, mid, Some(String::from("wrapped==key/42")), Role::Admin);
    assert_eq!(r, Ok(()));
    let m = e.memberships.iter().find(|m| m.id == mid).unwrap();
    assert_eq!(m.status, MemberStatus::Confirmed);
    assert_eq!(m.key.as_deref(), Some("wrapped==key/42"));
}

#[test]
fn confirm_above_user_needs_owner_caller() {
    let (mut e, org_id, _) = setup();
    e.register_user(String::from("adm@example.com"));
    e.send_invite(org_id, &vec![String::from("adm@example.com")], 1, &vec![], Some(true), Role::Owner)
        .unwrap();
    let uid = e.users.iter().find(|u| u.email == "adm@example.com").unwrap().id;
    let mid = member_id_of(&e, org_id, uid);
    let r = e.confirm_invite(org_id, mid, Some(String::from("k")), Role::Admin);
    assert_eq!(r, Err(OrgError::Unauthorized));
    assert_eq!(e.confirm_invite(org_id, mid, Some(String::from("k")), Role::Owner), Ok(()));
}

#[test]
fn admin_cannot_escalate_or_touch_owner() {
    let (mut e, org_id, owner) = setup();
    e.send_invite(org_id, &vec![String::from("u@example.com")], 2, &vec![], Some(true), Role::Admin)
        .unwrap();
    let uid = e.users.iter().find(|u| u.email == "u@example.com").unwrap().id;
    let user_mid = member_id_of(&e, org_id, uid);
    let owner_mid = member_id_of(&e, org_id, owner);
    // an Admin caller granting Admin fails
    assert_eq!(
        e.edit_user(org_id, user_mid, 1, &vec![], true, Role::Admin),
        Err(OrgError::Unauthorized)
    );
    // an Admin caller granting Owner fails
    assert_eq!(
        e.edit_user(org_id, user_mid, 0, &vec![], true, Role::Admin),
        Err(OrgError::Unauthorized)
    );
    // an Admin caller editing an Owner fails
    assert_eq!(
        e.edit_user(org_id, owner_mid, 0, &vec![], true, Role::Admin),
        Err(OrgError::Unauthorized)
    );
    // an Admin caller may still manage a plain User
    assert_eq!(e.edit_user(org_id, user_mid, 2, &vec![], true, Role::Admin), Ok(()));
    // an Owner caller may promote to Admin
    assert_eq!(e.edit_user(org_id, user_mid, 1, &vec![], true, Role::Owner), Ok(()));
    assert_eq!(e.memberships.iter().find(|m| m.id == user_mid).unwrap().role, Role::Admin);
    // an Admin caller may not edit an Admin even without a role change
    assert_eq!(
        e.edit_user(org_id, user_mid, 1, &vec![], false, Role::Admin),
        Err(OrgError::Unauthorized)
    );
    // and bad role codes are rejected
    assert_eq!(
        e.edit_user(org_id, user_mid, 7, &vec![], true, Role::Owner),
        Err(OrgError::InvalidInput)
    );
}

#[test]
fn access_all_purges_grants_and_lists_replace() {
    let (mut e, org_id, _) = setup();
    let col_a = e.post_organization_collections(org_id, String::from("A")).unwrap();
    let col_b = e.post_organization_collections(org_id, String::from("B")).unwrap();
    e.send_invite(org_id, &vec![String::from("u@example.com")], 2, &vec![], Some(true), Role::Admin)
        .unwrap();
    let uid = e.users.iter().find(|u| u.email == "u@example.com").unwrap().id;
    let mid = member_id_of(&e, org_id, uid);
    // give explicit grants to A and B
    let r = e.edit_user(
        org_id,
        mid,
        2,
        &vec![
            CollectionAssignment { collection_id: col_a.id, read_only: false },
            CollectionAssignment { collection_id: col_b.id, read_only: true },
        ],
        false,
        Role::Owner,
    );
    assert_eq!(r, Ok(()));
    let mine: Vec<_> = e.grants.iter().filter(|g| g.user_id == uid).collect();
    assert_eq!(mine.len(), 2);
    assert!(mine.iter().any(|g| g.collection_id == col_a.id && !g.read_only));
    assert!(mine.iter().any(|g| g.collection_id == col_b.id && g.read_only));
    // replacing with a one-element list leaves exactly that grant
    let r = e.edit_user(
        org_id,
        mid,
        2,
        &vec![CollectionAssignment { collection_id: col_b.id, read_only: false }],
        false,
        Role::Owner,
    );
    assert_eq!(r, Ok(()));
    let mine: Vec<_> = e.grants.iter().filter(|g| g.user_id == uid).collect();
    assert_eq!(mine.len(), 1);
    assert_eq!(mine[0].collection_id, col_b.id);
    assert!(!mine[0].read_only);
    // granting access_all purges all explicit grants
    assert_eq!(e.edit_user(org_id, mid, 2, &vec![], true, Role::Owner), Ok(()));
    assert!(e.grants.iter().all(|g| g.user_id != uid));
    // an invalid collection id aborts without touching anything
    let before = e.grants.len();
    assert_eq!(
        e.edit_user(
            org_id,
            mid,
            2,
            &vec![CollectionAssignment { collection_id: 999, read_only: false }],
            false,
            Role::Owner,
        ),
        Err(OrgError::NotFound)
    );
    assert_eq!(e.grants.len(), before);
}

#[test]
fn collection_rename_and_mismatch() {
    let (mut e, org_id, owner) = setup();
    let other = e.create_organization(
        String::from("Other"),
        String::from("o@example.com"),
        String::from("Default"),
        String::from("k"),
        owner,
    );
    let col = e.post_organization_collections(org_id, String::from("Secrets")).unwrap();
    let r = e.post_organization_collection_update(org_id, col.id, String::from("Renamed")).unwrap();
    assert_eq!(r.name, "Renamed");
    assert_eq!(
        e.put_organization_collection_update(other.id, col.id, String::from("X")),
        Err(OrgError::OrgMismatch)
    );
    assert_eq!(
        e.post_organization_collection_update(org_id, 999, String::from("X")),
        Err(OrgError::NotFound)
    );
    assert_eq!(e.post_organization_collections(999, String::from("X")), Err(OrgError::NotFound));
}

#[test]
fn collection_delete_cascades_grants() {
    let (mut e, org_id, _owner) = setup();
    let col = e.post_organization_collections(org_id, String::from("C")).unwrap();
    e.send_invite(
        org_id,
        &vec![String::from("u@example.com")],
        2,
        &vec![CollectionAssignment { collection_id: col.id, read_only: false }],
        Some(false),
        Role::Admin,
    )
    .unwrap();
    assert!(e.grants.iter().any(|g| g.collection_id == col.id));
    assert_eq!(e.delete_organization_collection(999, col.id), Err(OrgError::OrgMismatch));
    assert_eq!(e.delete_organization_collection(org_id, col.id), Ok(()));
    assert!(e.grants.iter().all(|g| g.collection_id != col.id));
    assert!(e.collections.iter().all(|c| c.id != col.id));
    assert_eq!(e.post_organization_collection_delete(org_id, col.id), Err(OrgError::NotFound));
}

#[test]
fn remove_user_from_collection() {
    let (mut e, org_id, _) = setup();
    let col = e.post_organization_collections(org_id, String::from("C")).unwrap();
    e.send_invite(
        org_id,
        &vec![String::from("u@example.com")],
        2,
        &vec![CollectionAssignment { collection_id: col.id, read_only: true }],
        Some(false),
        Role::Admin,
    )
    .unwrap();
    let uid = e.users.iter().find(|u| u.email == "u@example.com").unwrap().id;
    let mid = member_id_of(&e, org_id, uid);
    assert_eq!(e.delete_organization_collection_user(org_id, col.id, mid), Ok(()));
    assert!(e.grants.iter().all(|g| !(g.collection_id == col.id && g.user_id == uid)));
    // no grant left: the user is not assigned to the collection
    assert_eq!(
        e.post_organization_collection_delete_user(org_id, col.id, mid),
        Err(OrgError::NotFound)
    );
}

#[test]
fn user_collection_visibility() {
    let (mut e, org_id, owner) = setup();
    let col = e.post_organization_collections(org_id, String::from("C")).unwrap();
    e.send_invite(
        org_id,
        &vec![String::from("u@example.com")],
        2,
        &vec![CollectionAssignment { collection_id: col.id, read_only: false }],
        Some(false),
        Role::Admin,
    )
    .unwrap();
    let uid = e.users.iter().find(|u| u.email == "u@example.com").unwrap().id;
    // the owner has access_all: sees both collections of the organization
    let owner_sees = e.get_user_collections(owner);
    assert_eq!(owner_sees.len(), 2);
    // the plain member sees only the granted collection
    let user_sees = e.get_user_collections(uid);
    assert_eq!(user_sees.len(), 1);
    assert_eq!(user_sees[0].id, col.id);
    // detail honours visibility and the organization check
    assert_eq!(e.get_org_collection_detail(org_id, col.id, uid).unwrap().id, col.id);
    assert_eq!(e.get_org_collection_detail(999, col.id, uid), Err(OrgError::OrgMismatch));
    // the org listing is unfiltered
    assert_eq!(e.get_org_collections(org_id).len(), 2);
}

#[test]
fn collection_users_join() {
    let (mut e, org_id, _) = setup();
    let col = e.post_organization_collections(org_id, String::from("C")).unwrap();
    e.send_invite(
        org_id,
        &vec![String::from("u@example.com")],
        2,
        &vec![CollectionAssignment { collection_id: col.id, read_only: true }],
        Some(false),
        Role::Admin,
    )
    .unwrap();
    let uid = e.users.iter().find(|u| u.email == "u@example.com").unwrap().id;
    let listed = e.get_collection_users(org_id, col.id).unwrap();
    assert_eq!(listed.len(), 1);
    assert_eq!(listed[0].0.user_id, uid);
    assert!(listed[0].1);
    assert_eq!(e.get_collection_users(org_id, 999), Err(OrgError::NotFound));
}

#[test]
fn org_users_and_get_user() {
    let (mut e, org_id, owner) = setup();
    e.send_invite(org_id, &vec![String::from("u@example.com")], 2, &vec![], Some(true), Role::Admin)
        .unwrap();
    let users = e.get_org_users(org_id);
    assert_eq!(users.len(), 2);
    let owner_mid = member_id_of(&e, org_id, owner);
    let got = e.get_user(org_id, owner_mid).unwrap();
    assert_eq!(got.role, Role::Owner);
    assert_eq!(e.get_user(org_id, 999), Err(OrgError::NotFound));
}

#[test]
fn import_links_exactly_the_requested_pair() {
    let (mut e, org_id, owner) = setup();
    // collections [A, B], ciphers [X, Y], relation (0, 1): X goes into B
    let r = e.post_org_import(
        org_id,
        owner,
        &vec![String::from("A"), String::from("B")],
        &vec![
            CipherImport { type_code: 1, name: String::from("X") },
            CipherImport { type_code: 1, name: String::from("Y") },
        ],
        &vec![ImportRelation { cipher_index: 0, collection_index: 1 }],
    );
    assert_eq!(r, Ok(()));
    let x = e.ciphers.iter().find(|c| c.name == "X").unwrap();
    let b = e.collections.iter().find(|c| c.name == "B").unwrap();
    assert_eq!(e.collection_ciphers.len(), 1);
    assert_eq!(e.collection_ciphers[0].cipher_id, x.id);
    assert_eq!(e.collection_ciphers[0].collection_id, b.id);
    // the revision marker of the caller was bumped
    assert_eq!(e.users.iter().find(|u| u.id == owner).unwrap().revision, 1);
    // the organization listing shows both imported ciphers
    assert_eq!(e.get_org_details(org_id).len(), 2);
}

#[test]
fn import_out_of_range_relation_aborts() {
    let (mut e, org_id, owner) = setup();
    let r = e.post_org_import(
        org_id,
        owner,
        &vec![String::from("A")],
        &vec![CipherImport { type_code: 1, name: String::from("X") }],
        &vec![ImportRelation { cipher_index: 0, collection_index: 5 }],
    );
    assert_eq!(r, Err(OrgError::InvalidInput));
    // what was created before the bad relation stays created
    assert!(e.collections.iter().any(|c| c.name == "A"));
    assert!(e.ciphers.iter().any(|c| c.name == "X"));
    assert!(e.collection_ciphers.is_empty());
    // and no revision bump happened
    assert_eq!(e.users.iter().find(|u| u.id == owner).unwrap().revision, 0);
}

#[test]
fn import_requires_admin_member() {
    let (mut e, org_id, _) = setup();
    e.send_invite(org_id, &vec![String::from("u@example.com")], 2, &vec![], Some(true), Role::Admin)
        .unwrap();
    let uid = e.users.iter().find(|u| u.email == "u@example.com").unwrap().id;
    assert_eq!(
        e.post_org_import(org_id, 4242, &vec![], &vec![], &vec![]),
        Err(OrgError::NotFound)
    );
    assert_eq!(
        e.post_org_import(org_id, uid, &vec![], &vec![], &vec![]),
        Err(OrgError::Unauthorized)
    );
}

#[test]
fn reinvite_is_always_unsupported() {
    let (e, org_id, owner) = setup();
    let mid = member_id_of(&e, org_id, owner);
    assert_eq!(e.post_reinvite_user(org_id, mid), Err(OrgError::Unsupported));
    assert_eq!(e.post_reinvite_user(999, 999), Err(OrgError::Unsupported));
    assert_eq!(
        OrgError::Unsupported.message(),
        "This functionality is not implemented. The user needs to manually register before they can be accepted into the organization."
    );
}

#[test]
fn register_user_is_lookup_or_create() {
    let mut e = Engine::new(true);
    let a = e.register_user(String::from("a@example.com"));
    let b = e.register_user(String::from("a@example.com"));
    assert_eq!(a, b);
    assert_eq!(e.users.len(), 1);
    let c = e.register_user(String::from("c@example.com"));
    assert_ne!(a, c);
}

#[test]
fn list_by_user_spans_organizations() {
    let (mut e, org_id, owner) = setup();
    let second = e.create_organization(
        String::from("Second"),
        String::from("s@example.com"),
        String::from("Default"),
        String::from("k"),
        owner,
    );
    let mine = e.list_by_user(owner);
    assert_eq!(mine.len(), 2);
    assert!(mine.iter().any(|m| m.org_id == org_id));
    assert!(mine.iter().any(|m| m.org_id == second.id));
    assert!(e.list_by_user(9999).is_empty());
}

#[test]
fn delete_user_guards() {
    let (mut e, org_id, _owner) = setup();
    e.send_invite(org_id, &vec![String::from("adm@example.com")], 1, &vec![], Some(true), Role::Owner)
        .unwrap();
    let adm = e.users.iter().find(|u| u.email == "adm@example.com").unwrap().id;
    let adm_mid = member_id_of(&e, org_id, adm);
    // an Admin caller cannot delete an Admin
    assert_eq!(e.delete_user(org_id, adm_mid, Role::Admin), Err(OrgError::Unauthorized));
    assert_eq!(e.post_delete_user(org_id, adm_mid, Role::Owner), Ok(()));
    assert!(e.memberships.iter().all(|m| m.id != adm_mid));
    assert_eq!(e.delete_user(org_id, adm_mid, Role::Owner), Err(OrgError::NotFound));
}
