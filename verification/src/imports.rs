//! The import coordinator: creates collections and vault items in bulk and
//! links them through positional relations, then bumps the caller's
//! revision marker; plus the organization-wide item listing.

use vstd::prelude::*;

use crate::types::{
    Cipher, CipherImport, Collection, CollectionCipher, ImportRelation, OrgError, Role, UserAccount,
};
use crate::engine::{
    by_cipher_id, by_collection_id, by_member_pair, by_user_id, in_org_cipher, same_state, Engine,
};
use crate::seqs::{
    distinct_by, idx_by, keep, lemma_push_distinct, lemma_update_distinct,
};

verus! {

/// Whether this association is already on record.
pub open spec fn cc_present(ccs: Seq<CollectionCipher>, cc: CollectionCipher) -> bool {
    exists|i: int| 0 <= i < ccs.len() && ccs[i] == cc
}

/// Resolves the positional relations against the freshly created runs of
/// ciphers and collections, linking one pair per relation (without
/// duplicating a pair already on record) and stopping at the first index
/// that is out of range.
pub open spec fn link_fold(
    ccs: Seq<CollectionCipher>,
    rels: Seq<ImportRelation>,
    n_ciphers: int,
    n_cols: int,
    cipher_base: int,
    col_base: int,
) -> (Seq<CollectionCipher>, bool)
    decreases rels.len(),
{
    if rels.len() == 0 {
        (ccs, true)
    } else {
        let rel = rels.first();
        if rel.cipher_index >= n_ciphers || rel.collection_index >= n_cols {
            (ccs, false)
        } else {
            let cc = CollectionCipher {
                cipher_id: (cipher_base + rel.cipher_index) as u64,
                collection_id: (col_base + rel.collection_index) as u64,
            };
            let next = if cc_present(ccs, cc) {
                ccs
            } else {
                ccs.push(cc)
            };
            link_fold(next, rels.drop_first(), n_ciphers, n_cols, cipher_base, col_base)
        }
    }
}

/// The collections an import creates, one per name in order.
pub open spec fn imported_collections(names: Seq<String>, org_id: u64, base: int) -> Seq<Collection> {
    Seq::new(names.len(), |k: int| Collection { id: (base + k) as u64, org_id, name: names[k] })
}

/// The ciphers an import creates, one per item in order.
pub open spec fn imported_ciphers(items: Seq<CipherImport>, org_id: u64, base: int) -> Seq<Cipher> {
    Seq::new(
        items.len(),
        |k: int| Cipher {
            id: (base + k) as u64,
            org_id,
            type_code: items[k].type_code,
            name: items[k].name,
        },
    )
}

impl Engine {
    /// Whether this association is already on record.
    fn has_collection_cipher(&self, cc: CollectionCipher) -> (b: bool)
        ensures
            b == cc_present(self.collection_ciphers@, cc),
    {
        let mut i: usize = 0;
        while i < self.collection_ciphers.len()
            invariant
                i <= self.collection_ciphers@.len(),
                forall|j: int| 0 <= j < i ==> (#[trigger] self.collection_ciphers@[j]) != cc,
            decreases self.collection_ciphers@.len() - i,
        {
            if self.collection_ciphers[i] == cc {
                return true;
            }
            i += 1;
        }
        false
    }

    /// Lists every cipher of the organization, in store order.
    #[verifier::loop_isolation(false)]
    pub fn get_org_details(&self, org_id: u64) -> (r: Vec<Cipher>)
        ensures
            r@ == keep(self.ciphers@, in_org_cipher(org_id)),
    {
        let ghost p = in_org_cipher(org_id);
        let mut out: Vec<Cipher> = Vec::new();
        let mut i: usize = 0;
        proof {
            assert(self.ciphers@.skip(0) =~= self.ciphers@);
        }
        while i < self.ciphers.len()
            invariant
                i <= self.ciphers@.len(),
                keep(self.ciphers@, p) == out@ + keep(self.ciphers@.skip(i as int), p),
            decreases self.ciphers@.len() - i,
        {
            let ghost v = self.ciphers@;
            proof {
                assert(v.skip(i as int).first() == v[i as int]);
                assert(v.skip(i as int).drop_first() =~= v.skip(i as int + 1));
            }
            if self.ciphers[i].org_id == org_id {
                let ghost outpre = out@;
                out.push(self.ciphers[i].duplicate());
                proof {
                    assert(out@ =~= outpre + seq![v[i as int]]);
                    assert(outpre + (seq![v[i as int]] + keep(v.skip(i as int + 1), p)) =~= out@
                        + keep(v.skip(i as int + 1), p));
                }
            }
            i += 1;
        }
        proof {
            assert(self.ciphers@.skip(self.ciphers@.len() as int) =~= Seq::<Cipher>::empty());
            assert(out@ + Seq::<Cipher>::empty() =~= out@);
        }
        out
    }

    /// Imports collections and ciphers in bulk and links them through the
    /// positional relations. The caller must hold a Confirmed membership of
    /// role at least Admin. Collections and ciphers are created in input
    /// order; a relation index out of range aborts the linking step, and
    /// what was created up to that point stays created. On full success the
    /// caller's revision marker is bumped.
    #[verifier::loop_isolation(false)]
    pub fn post_org_import(
        &mut self,
        org_id: u64,
        caller_user_id: u64,
        collection_names: &Vec<String>,
        items: &Vec<CipherImport>,
        relations: &Vec<ImportRelation>,
    ) -> (r: Result<(), OrgError>)
        requires
            old(self).wf(),
            old(self).next_id as int + collection_names@.len() + items@.len() <= u64::MAX as int,
        ensures
            final(self).wf(),
            ({
                let caller = idx_by(
                    old(self).memberships@,
                    by_member_pair(),
                    (caller_user_id, org_id),
                );
                let col_base = old(self).next_id as int;
                let cipher_base = old(self).next_id as int + collection_names@.len();
                let created_cols = old(self).collections@ + imported_collections(
                    collection_names@,
                    org_id,
                    col_base,
                );
                let created_ciphers = old(self).ciphers@ + imported_ciphers(
                    items@,
                    org_id,
                    cipher_base,
                );
                let linked = link_fold(
                    old(self).collection_ciphers@,
                    relations@,
                    items@.len() as int,
                    collection_names@.len() as int,
                    cipher_base,
                    col_base,
                );
                match r {
                    Ok(()) => caller matches Some(j) && ({
                        let m = old(self).memberships@[j];
                        &&& m.role != Role::User
                        &&& m.status == crate::types::MemberStatus::Confirmed
                        &&& linked.1
                        &&& final(self).collections@ == created_cols
                        &&& final(self).ciphers@ == created_ciphers
                        &&& final(self).collection_ciphers@ == linked.0
                        &&& final(self).next_id as int == cipher_base + items@.len()
                        &&& final(self).users@ == (match idx_by(
                            old(self).users@,
                            by_user_id(),
                            caller_user_id,
                        ) {
                            Some(ui) => {
                                let u = old(self).users@[ui];
                                old(self).users@.update(
                                    ui,
                                    UserAccount {
                                        id: u.id,
                                        email: u.email,
                                        revision: if u.revision == u64::MAX {
                                            u64::MAX
                                        } else {
                                            (u.revision + 1) as u64
                                        },
                                    },
                                )
                            },
                            None => old(self).users@,
                        })
                        &&& final(self).orgs@ == old(self).orgs@
                        &&& final(self).memberships@ == old(self).memberships@
                        &&& final(self).grants@ == old(self).grants@
                        &&& final(self).invitations@ == old(self).invitations@
                        &&& final(self).invitations_allowed == old(self).invitations_allowed
                    }),
                    Err(e) => match caller {
                        None => e == OrgError::NotFound && same_state(*old(self), *final(self)),
                        Some(j) => {
                            let m = old(self).memberships@[j];
                            if m.role == Role::User || m.status
                                != crate::types::MemberStatus::Confirmed {
                                e == OrgError::Unauthorized && same_state(*old(self), *final(self))
                            } else {
                                &&& e == OrgError::InvalidInput
                                &&& !linked.1
                                &&& final(self).collections@ == created_cols
                                &&& final(self).ciphers@ == created_ciphers
                                &&& final(self).collection_ciphers@ == linked.0
                                &&& final(self).users@ == old(self).users@
                                &&& final(self).orgs@ == old(self).orgs@
                                &&& final(self).memberships@ == old(self).memberships@
                                &&& final(self).grants@ == old(self).grants@
                                &&& final(self).invitations@ == old(self).invitations@
                            }
                        },
                    },
                }
            }),
    {
        let mj = match self.find_member(caller_user_id, org_id) {
            None => {
                return Err(OrgError::NotFound);
            },
            Some(j) => j,
        };
        if self.memberships[mj].role == Role::User || !(self.memberships[mj].status
            == crate::types::MemberStatus::Confirmed) {
            return Err(OrgError::Unauthorized);
        }
        let ghost pre = *old(self);
        let ghost col_base = self.next_id as int;
        let mut k: usize = 0;
        while k < collection_names.len()
            invariant
                k <= collection_names@.len(),
                self.next_id as int == col_base + k,
                self.collections@ == pre.collections@ + imported_collections(
                    collection_names@.take(k as int),
                    org_id,
                    col_base,
                ),
                distinct_by(self.collections@, by_collection_id()),
                forall|q: int|
                    0 <= q < self.collections@.len() ==> (#[trigger] self.collections@[q]).id
                        < self.next_id,
                self.orgs@ == pre.orgs@,
                self.users@ == pre.users@,
                self.memberships@ == pre.memberships@,
                self.grants@ == pre.grants@,
                self.ciphers@ == pre.ciphers@,
                self.collection_ciphers@ == pre.collection_ciphers@,
                self.invitations@ == pre.invitations@,
                self.invitations_allowed == pre.invitations_allowed,
            decreases collection_names@.len() - k,
        {
            let ghost vpre = self.collections@;
            let c = Collection { id: self.next_id, org_id, name: collection_names[k].clone() };
            let ghost cg = c;
            self.next_id = self.next_id + 1;
            self.collections.push(c);
            proof {
                assert forall|q: int| 0 <= q < vpre.len() implies by_collection_id()(
                    #[trigger] vpre[q],
                ) != by_collection_id()(cg) by {}
                lemma_push_distinct(vpre, cg, by_collection_id());
                assert(cg =~= Collection {
                    id: (col_base + k) as u64,
                    org_id,
                    name: collection_names@[k as int],
                });
                assert(self.collections@ =~= pre.collections@ + imported_collections(
                    collection_names@.take(k as int + 1),
                    org_id,
                    col_base,
                ));
            }
            k += 1;
        }
        proof {
            assert(collection_names@.take(collection_names@.len() as int) =~= collection_names@);
        }
        let ghost cipher_base = self.next_id as int;
        let mut k2: usize = 0;
        while k2 < items.len()
            invariant
                k2 <= items@.len(),
                self.next_id as int == cipher_base + k2,
                self.ciphers@ == pre.ciphers@ + imported_ciphers(
                    items@.take(k2 as int),
                    org_id,
                    cipher_base,
                ),
                distinct_by(self.ciphers@, by_cipher_id()),
                forall|q: int|
                    0 <= q < self.ciphers@.len() ==> (#[trigger] self.ciphers@[q]).id
                        < self.next_id,
                self.orgs@ == pre.orgs@,
                self.users@ == pre.users@,
                self.memberships@ == pre.memberships@,
                self.grants@ == pre.grants@,
                self.collections@ == pre.collections@ + imported_collections(
                    collection_names@,
                    org_id,
                    col_base,
                ),
                distinct_by(self.collections@, by_collection_id()),
                forall|q: int|
                    0 <= q < self.collections@.len() ==> (#[trigger] self.collections@[q]).id
                        < self.next_id,
                self.collection_ciphers@ == pre.collection_ciphers@,
                self.invitations@ == pre.invitations@,
                self.invitations_allowed == pre.invitations_allowed,
            decreases items@.len() - k2,
        {
            let ghost vpre = self.ciphers@;
            let c = Cipher {
                id: self.next_id,
                org_id,
                type_code: items[k2].type_code,
                name: items[k2].name.clone(),
            };
            let ghost cg = c;
            self.next_id = self.next_id + 1;
            self.ciphers.push(c);
            proof {
                assert forall|q: int| 0 <= q < vpre.len() implies by_cipher_id()(
                    #[trigger] vpre[q],
                ) != by_cipher_id()(cg) by {}
                lemma_push_distinct(vpre, cg, by_cipher_id());
                assert(cg =~= Cipher {
                    id: (cipher_base + k2) as u64,
                    org_id,
                    type_code: items@[k2 as int].type_code,
                    name: items@[k2 as int].name,
                });
                assert(self.ciphers@ =~= pre.ciphers@ + imported_ciphers(
                    items@.take(k2 as int + 1),
                    org_id,
                    cipher_base,
                ));
            }
            k2 += 1;
        }
        proof {
            assert(items@.take(items@.len() as int) =~= items@);
        }
        let ghost cc_base = self.collection_ciphers@;
        let mut k3: usize = 0;
        proof {
            assert(relations@.skip(0) =~= relations@);
        }
        while k3 < relations.len()
            invariant
                k3 <= relations@.len(),
                link_fold(
                    cc_base,
                    relations@,
                    items@.len() as int,
                    collection_names@.len() as int,
                    cipher_base,
                    col_base,
                ) == link_fold(
                    self.collection_ciphers@,
                    relations@.skip(k3 as int),
                    items@.len() as int,
                    collection_names@.len() as int,
                    cipher_base,
                    col_base,
                ),
                self.orgs@ == pre.orgs@,
                self.users@ == pre.users@,
                self.memberships@ == pre.memberships@,
                self.grants@ == pre.grants@,
                self.invitations@ == pre.invitations@,
                self.invitations_allowed == pre.invitations_allowed,
                self.next_id as int == cipher_base + items@.len(),
                self.collections@ == pre.collections@ + imported_collections(
                    collection_names@,
                    org_id,
                    col_base,
                ),
                self.ciphers@ == pre.ciphers@ + imported_ciphers(items@, org_id, cipher_base),
                distinct_by(self.collections@, by_collection_id()),
                distinct_by(self.ciphers@, by_cipher_id()),
                forall|q: int|
                    0 <= q < self.collections@.len() ==> (#[trigger] self.collections@[q]).id
                        < self.next_id,
                forall|q: int|
                    0 <= q < self.ciphers@.len() ==> (#[trigger] self.ciphers@[q]).id
                        < self.next_id,
            decreases relations@.len() - k3,
        {
            let rel = relations[k3];
            proof {
                assert(relations@.skip(k3 as int).first() == relations@[k3 as int]);
                assert(relations@.skip(k3 as int).drop_first() =~= relations@.skip(k3 as int + 1));
            }
            if rel.cipher_index >= items.len() || rel.collection_index >= collection_names.len() {
                return Err(OrgError::InvalidInput);
            }
            let cipher_id = self.next_id - (items.len() - rel.cipher_index) as u64;
            let collection_id = (self.next_id - items.len() as u64) - (collection_names.len()
                - rel.collection_index) as u64;
            let cc = CollectionCipher { cipher_id, collection_id };
            proof {
                assert(cc =~= CollectionCipher {
                    cipher_id: (cipher_base + rel.cipher_index) as u64,
                    collection_id: (col_base + rel.collection_index) as u64,
                });
            }
            if !self.has_collection_cipher(cc) {
                self.collection_ciphers.push(cc);
            }
            k3 += 1;
        }
        proof {
            assert(relations@.skip(relations@.len() as int) =~= Seq::<ImportRelation>::empty());
        }
        match self.find_user(caller_user_id) {
            None => {},
            Some(ui) => {
                let mut u = self.users.remove(ui);
                u.revision = if u.revision == u64::MAX {
                    u64::MAX
                } else {
                    u.revision + 1
                };
                self.users.insert(ui, u);
                proof {
                    let u2 = self.users@[ui as int];
                    assert(self.users@ =~= pre.users@.update(ui as int, u2));
                    lemma_update_distinct(pre.users@, ui as int, u2, by_user_id());
                    lemma_update_distinct(pre.users@, ui as int, u2, crate::engine::by_user_email());
                }
            },
        }
        Ok(())
    }
}

} // verus!
