//! The client state: the store the scanner maintains and the assembler
//! reads.
//!
//! The invariants tied to `wf` hold after construction and are preserved by
//! scanning any block whose fragments are fresh: the unspent and spent sets
//! are disjoint, every member of either set is a witnessed leaf of the tree,
//! and the nullifier map binds exactly the nullifier derived at each
//! member's retained position.

use vstd::prelude::*;

use crate::kvmap::KvMap;
use crate::note::Note;
use crate::note::NoteData;
use crate::note::KEY_BYTES;
use crate::note::spec_decrypt;
use crate::keys::Wallet;
use crate::keys::nullifier_bytes;
use crate::keys::derive_nullifier;
use crate::keys::COMMITMENT_BYTES;
use crate::keys::EPHEMERAL_KEY_BYTES;
use crate::keys::NULLIFIER_BYTES;
use crate::tree::NoteCommitmentTree;
use crate::block::CompactBlock;
use crate::block::StateFragment;
use crate::block::FragmentData;
use crate::WalletError;
use crate::keys::Address;
use crate::transaction::Transaction;
use crate::transaction::Value;
use crate::transaction::Spend;
use crate::transaction::Output;
use crate::transaction::spend_total;
use crate::transaction::spec_chain_id;
use crate::transaction::zero_memo;
use crate::transaction::current_chain_id;
use crate::transaction::make_zero_memo;
use rand::seq::SliceRandom;
use crate::hexcode::hex_of;

verus! {

/// The value bound to `k`, seen through its view.
pub open spec fn nget(m: KvMap<Vec<u8>>, k: Seq<u8>) -> Option<Seq<u8>> {
    match m.spec_get(k) {
        Some(v) => Some(v@),
        None => None,
    }
}

/// The note bound to `k`, seen through its view.
pub open spec fn uget(m: KvMap<Note>, k: Seq<u8>) -> Option<NoteData> {
    match m.spec_get(k) {
        Some(n) => Some(n@),
        None => None,
    }
}

/// `pos` is the first retained occurrence of `c` in the tree.
pub open spec fn first_witness_pos_ok(t: NoteCommitmentTree, pos: int, c: Seq<u8>) -> bool {
    &&& 0 <= pos < t.size()
    &&& pos < 0x1_0000_0000_0000_0000
    &&& t.wit_seq()[pos]
    &&& t.leaf_seq()[pos] == c
    &&& forall|j: int| 0 <= j < pos ==> !(t.wit_seq()[j] && #[trigger] t.leaf_seq()[j] == c)
}

/// Both fields of every fragment decode.
pub open spec fn frag_ok(f: FragmentData) -> bool {
    f.note_commitment.len() == COMMITMENT_BYTES && f.ephemeral_key.len() == EPHEMERAL_KEY_BYTES
}

/// No two fragments carry the same commitment.
pub open spec fn frags_distinct(fs: Seq<FragmentData>) -> bool {
    forall|i: int, j: int|
        0 <= i < j < fs.len() ==> (#[trigger] fs[i].note_commitment) != (
        #[trigger] fs[j].note_commitment)
}

/// The first fragment fault at or after `i`, in scanning order.
pub open spec fn frag_error_from(fs: Seq<FragmentData>, i: int) -> Option<WalletError>
    decreases fs.len() - i,
{
    if i < 0 || i >= fs.len() {
        None
    } else if fs[i].note_commitment.len() != COMMITMENT_BYTES {
        Some(WalletError::InvalidNoteCommitment)
    } else if fs[i].ephemeral_key.len() != EPHEMERAL_KEY_BYTES {
        Some(WalletError::InvalidEphemeralKey)
    } else if exists|j: int|
        0 <= j < i && (#[trigger] fs[j].note_commitment) == fs[i].note_commitment {
        Some(WalletError::DuplicateCommitment)
    } else {
        frag_error_from(fs, i + 1)
    }
}

/// No fragment commitment was seen before: none is already a retained leaf,
/// and none is a key of the spent set.
pub open spec fn fresh_for(s: ClientState, fs: Seq<FragmentData>) -> bool {
    forall|i: int|
        0 <= i < fs.len() ==> !s.tree_of().is_witnessed((#[trigger] fs[i]).note_commitment)
            && !s.spent_of().has_key(fs[i].note_commitment)
}

/// No fragment of the block decrypts under `ivk`: every payload is foreign.
pub open spec fn all_foreign(fs: Seq<FragmentData>, ivk: Seq<u8>) -> bool {
    forall|t: int|
        0 <= t < fs.len() ==> spec_decrypt((#[trigger] fs[t]).encrypted_note, ivk) is None
}

/// Whether the height steps correctly: genesis from nothing, else the next
/// block.
pub open spec fn height_ok(last: Option<u32>, height: u32) -> bool {
    match last {
        None => height == 0,
        Some(h) => height == h + 1,
    }
}

/// State about the chain and our notes.
pub struct ClientState {
    last_block_height: Option<u32>,
    note_commitment_tree: NoteCommitmentTree,
    nullifier_map: KvMap<Vec<u8>>,
    unspent_set: KvMap<Note>,
    spent_set: KvMap<Note>,
    transactions: KvMap<Vec<u8>>,
    asset_registry: KvMap<String>,
    wallet: Wallet,
}

impl ClientState {
    pub closed spec fn height_of(self) -> Option<u32> {
        self.last_block_height
    }

    pub closed spec fn tree_of(self) -> NoteCommitmentTree {
        self.note_commitment_tree
    }

    pub closed spec fn nullifier_map_of(self) -> KvMap<Vec<u8>> {
        self.nullifier_map
    }

    pub closed spec fn unspent_of(self) -> KvMap<Note> {
        self.unspent_set
    }

    pub closed spec fn spent_of(self) -> KvMap<Note> {
        self.spent_set
    }

    pub closed spec fn transactions_of(self) -> KvMap<Vec<u8>> {
        self.transactions
    }

    pub closed spec fn registry_of(self) -> KvMap<String> {
        self.asset_registry
    }

    pub closed spec fn wallet_of(self) -> Wallet {
        self.wallet
    }

    /// Shorthand: the wallet's incoming viewing key.
    pub open spec fn ivk(self) -> Seq<u8> {
        self.wallet_of()@.incoming_viewing_key
    }

    /// Shorthand: the wallet's full viewing key.
    pub open spec fn fvk(self) -> Seq<u8> {
        self.wallet_of()@.full_viewing_key
    }

    /// `c` is tracked: it sits in the unspent or the spent set.
    pub open spec fn tracks(self, c: Seq<u8>) -> bool {
        self.unspent_of().has_key(c) || self.spent_of().has_key(c)
    }

    /// The internal invariants of the store.
    pub open spec fn wf(self) -> bool {
        &&& self.wallet_of().wf()
        &&& self.tree_of().wf()
        &&& self.nullifier_map_of().wf()
        &&& self.unspent_of().wf()
        &&& self.spent_of().wf()
        &&& self.transactions_of().wf()
        &&& self.registry_of().wf()
        // the raw-transaction store is reserved and stays empty
        &&& self.transactions_of().spec_len() == 0
        // the unspent and spent sets are disjoint
        &&& forall|c: Seq<u8>|
            !(#[trigger] self.unspent_of().has_key(c) && #[trigger] self.spent_of().has_key(c))
        // every tracked commitment is a retained leaf of the right width
        &&& forall|c: Seq<u8>|
            #[trigger] self.tracks(c) ==> self.tree_of().is_witnessed(c) && c.len()
                == COMMITMENT_BYTES
        // tracked notes are well-formed
        &&& forall|c: Seq<u8>|
            match #[trigger] self.unspent_of().spec_get(c) {
                Some(n) => n.wf(),
                None => true,
            }
        &&& forall|c: Seq<u8>|
            match #[trigger] self.spent_of().spec_get(c) {
                Some(n) => n.wf(),
                None => true,
            }
        // every nullifier entry binds the nullifier derived at the first
        // retained position of its commitment
        &&& forall|nk: Seq<u8>|
            match #[trigger] self.nullifier_map_of().spec_get(nk) {
                Some(cv) => exists|pos: int|
                    #[trigger] first_witness_pos_ok(self.tree_of(), pos, cv@) && nk
                        == nullifier_bytes(self.fvk(), pos as u64, cv@),
                None => true,
            }
        // every tracked commitment has its derived nullifier bound to it
        &&& forall|c: Seq<u8>|
            #[trigger] self.tracks(c) ==> exists|pos: int|
                #[trigger] first_witness_pos_ok(self.tree_of(), pos, c) && nget(
                    self.nullifier_map_of(),
                    nullifier_bytes(self.fvk(), pos as u64, c),
                ) == Some(c)
    }

    /// Every tracked note's asset is in the registry.
    pub open spec fn registry_covers(self) -> bool {
        &&& forall|c: Seq<u8>|
            match #[trigger] self.unspent_of().spec_get(c) {
                Some(n) => self.registry_of().has_key(n@.asset_id),
                None => true,
            }
        &&& forall|c: Seq<u8>|
            match #[trigger] self.spent_of().spec_get(c) {
                Some(n) => self.registry_of().has_key(n@.asset_id),
                None => true,
            }
    }

    /// A fresh state tied to `wallet`: nothing scanned, everything empty.
    pub fn new(wallet: Wallet) -> (r: ClientState)
        requires
            wallet.wf(),
        ensures
            r.wf(),
            r.registry_covers(),
            r.height_of() == None::<u32>,
            r.wallet_of() == wallet,
            r.tree_of().size() == 0,
            r.nullifier_map_of().spec_len() == 0,
            r.unspent_of().spec_len() == 0,
            r.spent_of().spec_len() == 0,
            r.registry_of().spec_len() == 0,
            r.transactions_of().spec_len() == 0,
    {
        let r = ClientState {
            last_block_height: None,
            note_commitment_tree: NoteCommitmentTree::new(),
            nullifier_map: KvMap::new(),
            unspent_set: KvMap::new(),
            spent_set: KvMap::new(),
            transactions: KvMap::new(),
            asset_registry: KvMap::new(),
            wallet,
        };
        r
    }

    /// The wallet the state is tracking.
    pub fn wallet(&self) -> (r: &Wallet)
        ensures
            *r == self.wallet_of(),
    {
        &self.wallet
    }

    /// A mutable handle on the wallet the state is tracking. The caller owns
    /// keeping the key material well-formed.
    pub fn wallet_mut(&mut self) -> (r: &mut Wallet)
        ensures
            *r == old(self).wallet_of(),
    {
        &mut self.wallet
    }

    /// The last block height scanned, if any.
    pub fn last_block_height(&self) -> (r: Option<u32>)
        ensures
            r == self.height_of(),
    {
        self.last_block_height
    }

    /// Records the denomination of an asset id; a previous record of the
    /// same id is replaced.
    pub fn add_asset_to_registry(&mut self, asset_id: Vec<u8>, asset_denom: String)
        requires
            old(self).wf(),
        ensures
            final(self).wf(),
            final(self).registry_of().spec_get(asset_id@) == Some(asset_denom),
            forall|k: Seq<u8>|
                k != asset_id@ ==> final(self).registry_of().spec_get(k) == old(
                    self,
                ).registry_of().spec_get(k),
            old(self).registry_covers() ==> final(self).registry_covers(),
            final(self).height_of() == old(self).height_of(),
            final(self).tree_of() == old(self).tree_of(),
            final(self).nullifier_map_of() == old(self).nullifier_map_of(),
            final(self).unspent_of() == old(self).unspent_of(),
            final(self).spent_of() == old(self).spent_of(),
            final(self).transactions_of() == old(self).transactions_of(),
            final(self).wallet_of() == old(self).wallet_of(),
    {
        self.asset_registry.insert(asset_id, asset_denom);
        proof {
            assert(self.tree_of() == old(self).tree_of());
            assert(self.nullifier_map_of() == old(self).nullifier_map_of());
            assert(self.unspent_of() == old(self).unspent_of());
            assert(self.spent_of() == old(self).spent_of());
            assert(self.transactions_of() == old(self).transactions_of());
            assert(self.wallet_of() == old(self).wallet_of());
            assert forall|c: Seq<u8>| #[trigger] self.tracks(c) implies old(self).tracks(c) by {}
        }
    }

    /// Appends one fragment's commitment; when its payload decrypts, also
    /// witnesses the leaf and indexes the note and its nullifier.
    #[verifier::rlimit(60)]
    fn scan_one_fragment(&mut self, fragment: &StateFragment)
        requires
            old(self).wallet_of().wf(),
            old(self).tree_of().wf(),
            old(self).nullifier_map_of().wf(),
            old(self).unspent_of().wf(),
            frag_ok(fragment@),
        ensures
            final(self).height_of() == old(self).height_of(),
            final(self).spent_of() == old(self).spent_of(),
            final(self).transactions_of() == old(self).transactions_of(),
            final(self).registry_of() == old(self).registry_of(),
            final(self).wallet_of() == old(self).wallet_of(),
            final(self).tree_of().wf(),
            final(self).nullifier_map_of().wf(),
            final(self).unspent_of().wf(),
            final(self).tree_of().leaf_seq() == old(self).tree_of().leaf_seq().push(
                fragment@.note_commitment,
            ),
            final(self).tree_of().wit_seq() == old(self).tree_of().wit_seq().push(
                spec_decrypt(fragment@.encrypted_note, old(self).ivk()) is Some,
            ),
            spec_decrypt(fragment@.encrypted_note, old(self).ivk()) is None ==> {
                &&& final(self).nullifier_map_of() == old(self).nullifier_map_of()
                &&& final(self).unspent_of() == old(self).unspent_of()
            },
            (!old(self).tree_of().is_witnessed(fragment@.note_commitment)) ==> match spec_decrypt(
                fragment@.encrypted_note,
                old(self).ivk(),
            ) {
                Some(n) => {
                    &&& nget(
                        final(self).nullifier_map_of(),
                        nullifier_bytes(
                            old(self).fvk(),
                            old(self).tree_of().size() as u64,
                            fragment@.note_commitment,
                        ),
                    ) == Some(fragment@.note_commitment)
                    &&& uget(final(self).unspent_of(), fragment@.note_commitment) == Some(n)
                    &&& forall|nk: Seq<u8>|
                        nk != nullifier_bytes(
                            old(self).fvk(),
                            old(self).tree_of().size() as u64,
                            fragment@.note_commitment,
                        ) ==> #[trigger] nget(final(self).nullifier_map_of(), nk) == nget(
                            old(self).nullifier_map_of(),
                            nk,
                        )
                    &&& forall|c: Seq<u8>|
                        c != fragment@.note_commitment ==> #[trigger] uget(
                            final(self).unspent_of(),
                            c,
                        ) == uget(old(self).unspent_of(), c)
                },
                None => true,
            },
            (old(self).wf() && !old(self).tree_of().is_witnessed(fragment@.note_commitment) && !old(
                self,
            ).spent_of().has_key(fragment@.note_commitment)) ==> final(self).wf(),
            (old(self).wf() && !old(self).tree_of().is_witnessed(fragment@.note_commitment)
                && old(self).registry_covers() && match spec_decrypt(
                fragment@.encrypted_note,
                old(self).ivk(),
            ) {
                Some(n) => old(self).registry_of().has_key(n.asset_id),
                None => true,
            }) ==> final(self).registry_covers(),
    {
        let ghost orig = *old(self);
        let ghost c = fragment@.note_commitment;
        let ghost l = orig.tree_of().size() as int;
        self.note_commitment_tree.append(&fragment.note_commitment);
        let ghost appended = self.tree_of();
        proof {
            // an unretained leaf changes no witness fact
            assert forall|c2: Seq<u8>, pos: int|
                first_witness_pos_ok(appended, pos, c2) == first_witness_pos_ok(
                    orig.tree_of(),
                    pos,
                    c2,
                ) by {
                if first_witness_pos_ok(appended, pos, c2) {
                    assert(pos != l);
                    assert forall|j: int| 0 <= j < pos implies !(orig.tree_of().wit_seq()[j]
                        && #[trigger] orig.tree_of().leaf_seq()[j] == c2) by {
                        if orig.tree_of().wit_seq()[j] && orig.tree_of().leaf_seq()[j] == c2 {
                            assert(appended.wit_seq()[j] && appended.leaf_seq()[j] == c2);
                        }
                    }
                    assert(first_witness_pos_ok(orig.tree_of(), pos, c2));
                }
                if first_witness_pos_ok(orig.tree_of(), pos, c2) {
                    assert forall|j: int| 0 <= j < pos implies !(appended.wit_seq()[j]
                        && #[trigger] appended.leaf_seq()[j] == c2) by {
                        if appended.wit_seq()[j] && appended.leaf_seq()[j] == c2 {
                            assert(orig.tree_of().wit_seq()[j] && orig.tree_of().leaf_seq()[j]
                                == c2);
                        }
                    }
                    assert(first_witness_pos_ok(appended, pos, c2));
                }
            }
            assert forall|c2: Seq<u8>|
                appended.is_witnessed(c2) == orig.tree_of().is_witnessed(c2) by {
                if appended.is_witnessed(c2) {
                    let j = choose|j: int|
                        0 <= j < appended.size() && appended.wit_seq()[j]
                            && #[trigger] appended.leaf_seq()[j] == c2;
                    assert(j != l);
                    assert(orig.tree_of().wit_seq()[j] && orig.tree_of().leaf_seq()[j] == c2);
                }
                if orig.tree_of().is_witnessed(c2) {
                    let j = choose|j: int|
                        0 <= j < orig.tree_of().size() && orig.tree_of().wit_seq()[j]
                            && #[trigger] orig.tree_of().leaf_seq()[j] == c2;
                    assert(appended.wit_seq()[j] && appended.leaf_seq()[j] == c2);
                }
            }
        }
        let decrypted = Note::try_decrypt(
            &fragment.encrypted_note,
            self.wallet.incoming_viewing_key(),
        );
        match decrypted {
            None => {
                proof {
                    if orig.wf() && !orig.tree_of().is_witnessed(c) && !orig.spent_of().has_key(c) {
                        assert forall|c2: Seq<u8>| #[trigger] self.tracks(c2) implies orig.tracks(
                            c2,
                        ) by {}
                        assert forall|c2: Seq<u8>| #[trigger]
                            self.tracks(c2) implies self.tree_of().is_witnessed(c2) && c2.len()
                            == COMMITMENT_BYTES by {
                            assert(orig.tracks(c2));
                        }
                        assert forall|nk: Seq<u8>| match #[trigger] self.nullifier_map_of().spec_get(
                            nk,
                        ) {
                            Some(cv) => exists|pos: int|
                                #[trigger] first_witness_pos_ok(self.tree_of(), pos, cv@) && nk
                                    == nullifier_bytes(self.fvk(), pos as u64, cv@),
                            None => true,
                        } by {
                            if self.nullifier_map_of().spec_get(nk) is Some {
                                let cv = self.nullifier_map_of().spec_get(nk)->0;
                                let pos = choose|pos: int|
                                    #[trigger] first_witness_pos_ok(orig.tree_of(), pos, cv@) && nk
                                        == nullifier_bytes(orig.fvk(), pos as u64, cv@);
                                assert(first_witness_pos_ok(self.tree_of(), pos, cv@));
                            }
                        }
                        assert forall|c2: Seq<u8>| #[trigger] self.tracks(c2) implies exists|
                            pos: int,
                        |
                            #[trigger] first_witness_pos_ok(self.tree_of(), pos, c2) && nget(
                                self.nullifier_map_of(),
                                nullifier_bytes(self.fvk(), pos as u64, c2),
                            ) == Some(c2) by {
                            assert(orig.tracks(c2));
                            let pos = choose|pos: int|
                                #[trigger] first_witness_pos_ok(orig.tree_of(), pos, c2) && nget(
                                    orig.nullifier_map_of(),
                                    nullifier_bytes(orig.fvk(), pos as u64, c2),
                                ) == Some(c2);
                            assert(first_witness_pos_ok(self.tree_of(), pos, c2));
                        }
                        assert(self.wf());
                    }
                }
            },
            Some(note) => {
                self.note_commitment_tree.witness();
                let ghost witted = self.tree_of();
                proof {
                    // witnessing the fresh last leaf leaves every older fact
                    assert(witted.wit_seq() =~= orig.tree_of().wit_seq().push(true));
                    assert forall|c2: Seq<u8>, pos: int|
                        c2 != c && 0 <= pos implies first_witness_pos_ok(witted, pos, c2)
                        == first_witness_pos_ok(orig.tree_of(), pos, c2) by {
                        if first_witness_pos_ok(witted, pos, c2) {
                            assert(witted.leaf_seq()[pos] == c2);
                            assert(pos != l);
                            assert forall|j: int| 0 <= j < pos implies !(orig.tree_of().wit_seq()[j]
                                && #[trigger] orig.tree_of().leaf_seq()[j] == c2) by {
                                if orig.tree_of().wit_seq()[j] && orig.tree_of().leaf_seq()[j]
                                    == c2 {
                                    assert(witted.wit_seq()[j] && witted.leaf_seq()[j] == c2);
                                }
                            }
                            assert(first_witness_pos_ok(orig.tree_of(), pos, c2));
                        }
                        if first_witness_pos_ok(orig.tree_of(), pos, c2) {
                            assert forall|j: int| 0 <= j < pos implies !(witted.wit_seq()[j]
                                && #[trigger] witted.leaf_seq()[j] == c2) by {
                                if witted.wit_seq()[j] && witted.leaf_seq()[j] == c2 {
                                    assert(j != l);
                                    assert(orig.tree_of().wit_seq()[j]
                                        && orig.tree_of().leaf_seq()[j] == c2);
                                }
                            }
                            assert(first_witness_pos_ok(witted, pos, c2));
                        }
                    }
                }
                let path = self.note_commitment_tree.authentication_path(
                    &fragment.note_commitment,
                );
                let pos: u64 = match path {
                    Some(p) => p.position,
                    None => {
                        proof {
                            assert(self.tree_of().wit_seq()[l] && self.tree_of().leaf_seq()[l]
                                == c);
                            assert(self.tree_of().is_witnessed(c));
                        }
                        vstd::pervasive::unreached()
                    },
                };
                proof {
                    if !orig.tree_of().is_witnessed(c) {
                        // the fresh leaf is the first retained occurrence
                        assert forall|j: int| 0 <= j < l implies !(witted.wit_seq()[j]
                            && #[trigger] witted.leaf_seq()[j] == c) by {
                            if witted.wit_seq()[j] && witted.leaf_seq()[j] == c {
                                assert(orig.tree_of().wit_seq()[j] && orig.tree_of().leaf_seq()[j]
                                    == c);
                                assert(orig.tree_of().is_witnessed(c));
                            }
                        }
                        assert(pos == l);
                        assert(first_witness_pos_ok(witted, l, c));
                    }
                }
                let nullifier = derive_nullifier(
                    self.wallet.full_viewing_key(),
                    pos,
                    &fragment.note_commitment,
                );
                let commitment_copy = crate::bytes::clone_bytes(&fragment.note_commitment);
                let commitment_copy2 = crate::bytes::clone_bytes(&fragment.note_commitment);
                self.nullifier_map.insert(nullifier, commitment_copy);
                self.unspent_set.insert(commitment_copy2, note);
                proof {
                    if orig.wf() && !orig.tree_of().is_witnessed(c) && !orig.spent_of().has_key(c) {
                        let t = self.tree_of();
                        let nu = nullifier_bytes(orig.fvk(), l as u64, c);
                        assert(pos == l && nullifier@ == nu);
                        assert(!orig.tracks(c)) by {
                            if orig.tracks(c) {
                                assert(orig.tree_of().is_witnessed(c));
                            }
                        }
                        // witnessing survives the extension, in both
                        // directions away from the fresh commitment
                        assert forall|c2: Seq<u8>|
                            orig.tree_of().is_witnessed(c2) implies t.is_witnessed(c2) by {
                            let j = choose|j: int|
                                0 <= j < orig.tree_of().size() && orig.tree_of().wit_seq()[j]
                                    && #[trigger] orig.tree_of().leaf_seq()[j] == c2;
                            assert(t.wit_seq()[j] && t.leaf_seq()[j] == c2);
                        }
                        assert forall|c2: Seq<u8>|
                            c2 != c && t.is_witnessed(c2) implies orig.tree_of().is_witnessed(
                            c2,
                        ) by {
                            let j = choose|j: int|
                                0 <= j < t.size() && t.wit_seq()[j] && #[trigger] t.leaf_seq()[j]
                                    == c2;
                            assert(j != l);
                            assert(orig.tree_of().wit_seq()[j] && orig.tree_of().leaf_seq()[j]
                                == c2);
                        }
                        // disjointness and membership
                        assert forall|c2: Seq<u8>|
                            !(#[trigger] self.unspent_of().has_key(c2)
                                && #[trigger] self.spent_of().has_key(c2)) by {
                            if c2 != c && self.unspent_of().has_key(c2) {
                                assert(orig.unspent_of().has_key(c2));
                            }
                        }
                        assert forall|c2: Seq<u8>| #[trigger]
                            self.tracks(c2) implies t.is_witnessed(c2) && c2.len()
                            == COMMITMENT_BYTES by {
                            if c2 == c {
                                assert(t.wit_seq()[l] && t.leaf_seq()[l] == c);
                            } else {
                                assert(orig.tracks(c2));
                            }
                        }
                        // every nullifier entry still points at a first
                        // retained occurrence
                        assert forall|nk: Seq<u8>| match #[trigger] self.nullifier_map_of().spec_get(
                            nk,
                        ) {
                            Some(cv) => exists|p2: int|
                                #[trigger] first_witness_pos_ok(t, p2, cv@) && nk
                                    == nullifier_bytes(self.fvk(), p2 as u64, cv@),
                            None => true,
                        } by {
                            if self.nullifier_map_of().spec_get(nk) is Some {
                                let cv = self.nullifier_map_of().spec_get(nk)->0;
                                if nk == nu {
                                    assert(cv@ == c);
                                    assert(first_witness_pos_ok(t, l, c));
                                } else {
                                    assert(orig.nullifier_map_of().spec_get(nk) == Some(cv));
                                    let p2 = choose|p2: int|
                                        #[trigger] first_witness_pos_ok(orig.tree_of(), p2, cv@)
                                            && nk == nullifier_bytes(orig.fvk(), p2 as u64, cv@);
                                    assert(cv@ != c) by {
                                        if cv@ == c {
                                            assert(orig.tree_of().is_witnessed(c));
                                        }
                                    }
                                    assert(first_witness_pos_ok(t, p2, cv@));
                                }
                            }
                        }
                        // every tracked commitment keeps its binding
                        assert forall|c2: Seq<u8>| #[trigger] self.tracks(c2) implies exists|
                            p2: int,
                        |
                            #[trigger] first_witness_pos_ok(t, p2, c2) && nget(
                                self.nullifier_map_of(),
                                nullifier_bytes(self.fvk(), p2 as u64, c2),
                            ) == Some(c2) by {
                            if c2 == c {
                                assert(first_witness_pos_ok(t, l, c));
                                assert(nget(self.nullifier_map_of(), nu) == Some(c));
                            } else {
                                assert(orig.tracks(c2));
                                let p2 = choose|p2: int|
                                    #[trigger] first_witness_pos_ok(orig.tree_of(), p2, c2) && nget(
                                        orig.nullifier_map_of(),
                                        nullifier_bytes(orig.fvk(), p2 as u64, c2),
                                    ) == Some(c2);
                                assert(first_witness_pos_ok(t, p2, c2));
                                let nk2 = nullifier_bytes(orig.fvk(), p2 as u64, c2);
                                assert(nk2 != nu) by {
                                    if nk2 == nu {
                                        crate::keys::lemma_nullifier_injective(
                                            orig.fvk(),
                                            p2 as u64,
                                            c2,
                                            l as u64,
                                            c,
                                        );
                                    }
                                }
                                assert(nget(self.nullifier_map_of(), nk2) == Some(c2));
                            }
                        }
                        assert(self.wf());
                    }
                }
            },
        }
        proof {
            assert(self.tree_of().leaf_seq() =~= orig.tree_of().leaf_seq().push(c));
            assert(self.tree_of().wit_seq() =~= orig.tree_of().wit_seq().push(
                spec_decrypt(fragment@.encrypted_note, orig.ivk()) is Some,
            ));
        }
    }

    /// Appends every fragment, witnessing and indexing the ones ours.
    #[verifier::rlimit(100)]
    fn scan_fragments(&mut self, fragments: &Vec<StateFragment>)
        requires
            old(self).wallet_of().wf(),
            old(self).tree_of().wf(),
            old(self).nullifier_map_of().wf(),
            old(self).unspent_of().wf(),
            forall|i: int| 0 <= i < fragments@.len() ==> frag_ok((#[trigger] fragments@[i])@),
            frags_distinct(fragments@.map_values(|f: StateFragment| f@)),
        ensures
            final(self).height_of() == old(self).height_of(),
            final(self).spent_of() == old(self).spent_of(),
            final(self).transactions_of() == old(self).transactions_of(),
            final(self).registry_of() == old(self).registry_of(),
            final(self).wallet_of() == old(self).wallet_of(),
            final(self).tree_of().wf(),
            final(self).nullifier_map_of().wf(),
            final(self).unspent_of().wf(),
            final(self).tree_of().leaf_seq() == old(self).tree_of().leaf_seq()
                + fragments@.map_values(|f: StateFragment| f@.note_commitment),
            final(self).tree_of().wit_seq() == old(self).tree_of().wit_seq()
                + fragments@.map_values(
                |f: StateFragment| spec_decrypt(f@.encrypted_note, old(self).ivk()) is Some,
            ),
            // a run of foreign fragments touches no index at all
            all_foreign(fragments@.map_values(|f: StateFragment| f@), old(self).ivk()) ==> {
                &&& final(self).nullifier_map_of() == old(self).nullifier_map_of()
                &&& final(self).unspent_of() == old(self).unspent_of()
            },
            (old(self).wf() && fresh_for(*old(self), fragments@.map_values(|f: StateFragment| f@)))
                ==> {
                let frs = fragments@.map_values(|f: StateFragment| f@);
                let l = old(self).tree_of().size() as int;
                &&& final(self).wf()
                &&& forall|t: int|
                    0 <= t < frs.len() ==> match spec_decrypt(
                        (#[trigger] frs[t]).encrypted_note,
                        old(self).ivk(),
                    ) {
                        Some(nn) => nget(
                            final(self).nullifier_map_of(),
                            nullifier_bytes(old(self).fvk(), (l + t) as u64, frs[t].note_commitment),
                        ) == Some(frs[t].note_commitment) && uget(
                            final(self).unspent_of(),
                            frs[t].note_commitment,
                        ) == Some(nn),
                        None => uget(final(self).unspent_of(), frs[t].note_commitment) == uget(
                            old(self).unspent_of(),
                            frs[t].note_commitment,
                        ),
                    }
                &&& forall|nk: Seq<u8>|
                    (forall|t: int|
                        0 <= t < frs.len() ==> !(spec_decrypt(
                            (#[trigger] frs[t]).encrypted_note,
                            old(self).ivk(),
                        ) is Some && nk == nullifier_bytes(
                            old(self).fvk(),
                            (l + t) as u64,
                            frs[t].note_commitment,
                        ))) ==> #[trigger] nget(final(self).nullifier_map_of(), nk) == nget(
                        old(self).nullifier_map_of(),
                        nk,
                    )
                &&& forall|c: Seq<u8>|
                    (forall|t: int|
                        0 <= t < frs.len() ==> c != (#[trigger] frs[t]).note_commitment)
                        ==> #[trigger] uget(final(self).unspent_of(), c) == uget(
                        old(self).unspent_of(),
                        c,
                    )
                &&& (old(self).registry_covers() && (forall|t: int|
                    0 <= t < frs.len() ==> match spec_decrypt(
                        (#[trigger] frs[t]).encrypted_note,
                        old(self).ivk(),
                    ) {
                        Some(nn) => old(self).registry_of().has_key(nn.asset_id),
                        None => true,
                    })) ==> final(self).registry_covers()
            },
    {
        let ghost orig = *old(self);
        let ghost frs = fragments@.map_values(|f: StateFragment| f@);
        let ghost l = orig.tree_of().size() as int;
        let ghost cond = orig.wf() && fresh_for(orig, frs);
        let ghost covers_cond = cond && orig.registry_covers() && (forall|t: int|
            0 <= t < frs.len() ==> match spec_decrypt(
                (#[trigger] frs[t]).encrypted_note,
                orig.ivk(),
            ) {
                Some(nn) => orig.registry_of().has_key(nn.asset_id),
                None => true,
            });
        let n = fragments.len();
        let mut i: usize = 0;
        while i < n
            invariant
                i <= n,
                orig == *old(self),
                n == fragments@.len(),
                frs == fragments@.map_values(|f: StateFragment| f@),
                l == orig.tree_of().size() as int,
                cond == (orig.wf() && fresh_for(orig, frs)),
                covers_cond == (cond && orig.registry_covers() && (forall|t: int|
                    0 <= t < frs.len() ==> match spec_decrypt(
                        (#[trigger] frs[t]).encrypted_note,
                        orig.ivk(),
                    ) {
                        Some(nn) => orig.registry_of().has_key(nn.asset_id),
                        None => true,
                    })),
                forall|t: int| 0 <= t < frs.len() ==> frag_ok(#[trigger] frs[t]),
                frags_distinct(frs),
                orig.wallet_of().wf(),
                self.height_of() == orig.height_of(),
                self.spent_of() == orig.spent_of(),
                self.transactions_of() == orig.transactions_of(),
                self.registry_of() == orig.registry_of(),
                self.wallet_of() == orig.wallet_of(),
                self.tree_of().wf(),
                self.nullifier_map_of().wf(),
                self.unspent_of().wf(),
                all_foreign(frs, orig.ivk()) ==> self.nullifier_map_of()
                    == orig.nullifier_map_of() && self.unspent_of() == orig.unspent_of(),
                self.tree_of().leaf_seq() == orig.tree_of().leaf_seq() + frs.subrange(
                    0,
                    i as int,
                ).map_values(|f: FragmentData| f.note_commitment),
                self.tree_of().wit_seq() == orig.tree_of().wit_seq() + frs.subrange(
                    0,
                    i as int,
                ).map_values(|f: FragmentData| spec_decrypt(f.encrypted_note, orig.ivk()) is Some),
                cond ==> self.wf(),
                covers_cond ==> self.registry_covers(),
                cond ==> forall|t: int|
                    0 <= t < i ==> match spec_decrypt(
                        (#[trigger] frs[t]).encrypted_note,
                        orig.ivk(),
                    ) {
                        Some(nn) => nget(
                            self.nullifier_map_of(),
                            nullifier_bytes(orig.fvk(), (l + t) as u64, frs[t].note_commitment),
                        ) == Some(frs[t].note_commitment) && uget(
                            self.unspent_of(),
                            frs[t].note_commitment,
                        ) == Some(nn),
                        None => uget(self.unspent_of(), frs[t].note_commitment) == uget(
                            orig.unspent_of(),
                            frs[t].note_commitment,
                        ),
                    },
                cond ==> forall|nk: Seq<u8>|
                    (forall|t: int|
                        0 <= t < i ==> !(spec_decrypt(
                            (#[trigger] frs[t]).encrypted_note,
                            orig.ivk(),
                        ) is Some && nk == nullifier_bytes(
                            orig.fvk(),
                            (l + t) as u64,
                            frs[t].note_commitment,
                        ))) ==> #[trigger] nget(self.nullifier_map_of(), nk) == nget(
                        orig.nullifier_map_of(),
                        nk,
                    ),
                cond ==> forall|c: Seq<u8>|
                    (forall|t: int| 0 <= t < i ==> c != (#[trigger] frs[t]).note_commitment)
                        ==> #[trigger] uget(self.unspent_of(), c) == uget(orig.unspent_of(), c),
            decreases n - i,
        {
            let ghost pre = *self;
            let fragment = &fragments[i];
            proof {
                assert(frs[i as int] == fragment@);
                assert(frag_ok(frs[i as int]));
                assert(pre.tree_of().size() as int == l + i) by {
                    assert(frs.subrange(0, i as int).map_values(
                        |f: FragmentData| f.note_commitment,
                    ).len() == i);
                }
                if cond {
                    // the commitment is new to the tree: not retained before
                    // the block, and not equal to an earlier fragment's
                    assert(!pre.tree_of().is_witnessed(frs[i as int].note_commitment)) by {
                        let c = frs[i as int].note_commitment;
                        if pre.tree_of().is_witnessed(c) {
                            let j = choose|j: int|
                                0 <= j < pre.tree_of().size() && pre.tree_of().wit_seq()[j]
                                    && #[trigger] pre.tree_of().leaf_seq()[j] == c;
                            if j < l {
                                assert(orig.tree_of().wit_seq()[j] && orig.tree_of().leaf_seq()[j]
                                    == c);
                                assert(orig.tree_of().is_witnessed(c));
                                assert(!orig.tree_of().is_witnessed(frs[i as int].note_commitment));
                            } else {
                                let t = j - l;
                                assert(pre.tree_of().leaf_seq()[j] == frs.subrange(
                                    0,
                                    i as int,
                                ).map_values(|f: FragmentData| f.note_commitment)[t]);
                                assert(frs[t].note_commitment == c);
                            }
                        }
                    }
                }
            }
            self.scan_one_fragment(fragment);
            i = i + 1;
            proof {
                let c = frs[i - 1].note_commitment;
                let dec = spec_decrypt(frs[i - 1].encrypted_note, orig.ivk());
                assert(self.tree_of().leaf_seq() =~= orig.tree_of().leaf_seq() + frs.subrange(
                    0,
                    i as int,
                ).map_values(|f: FragmentData| f.note_commitment)) by {
                    assert(frs.subrange(0, i as int).map_values(
                        |f: FragmentData| f.note_commitment,
                    ) =~= frs.subrange(0, i - 1).map_values(
                        |f: FragmentData| f.note_commitment,
                    ).push(c));
                }
                assert(self.tree_of().wit_seq() =~= orig.tree_of().wit_seq() + frs.subrange(
                    0,
                    i as int,
                ).map_values(|f: FragmentData| spec_decrypt(f.encrypted_note, orig.ivk()) is Some))
                    by {
                    assert(frs.subrange(0, i as int).map_values(
                        |f: FragmentData| spec_decrypt(f.encrypted_note, orig.ivk()) is Some,
                    ) =~= frs.subrange(0, i - 1).map_values(
                        |f: FragmentData| spec_decrypt(f.encrypted_note, orig.ivk()) is Some,
                    ).push(dec is Some));
                }
                if cond {
                    let nu_new = nullifier_bytes(orig.fvk(), (l + i - 1) as u64, c);
                    assert forall|t: int| 0 <= t < i implies match spec_decrypt(
                        (#[trigger] frs[t]).encrypted_note,
                        orig.ivk(),
                    ) {
                        Some(nn) => nget(
                            self.nullifier_map_of(),
                            nullifier_bytes(orig.fvk(), (l + t) as u64, frs[t].note_commitment),
                        ) == Some(frs[t].note_commitment) && uget(
                            self.unspent_of(),
                            frs[t].note_commitment,
                        ) == Some(nn),
                        None => uget(self.unspent_of(), frs[t].note_commitment) == uget(
                            orig.unspent_of(),
                            frs[t].note_commitment,
                        ),
                    } by {
                        let ct = frs[t].note_commitment;
                        let dt = spec_decrypt(frs[t].encrypted_note, orig.ivk());
                        if t == i - 1 {
                        } else {
                            assert(ct != c);
                            if dt is Some {
                                let nut = nullifier_bytes(
                                    orig.fvk(),
                                    (l + t) as u64,
                                    frs[t].note_commitment,
                                );
                                assert(nut != nu_new) by {
                                    if nut == nu_new {
                                        crate::keys::lemma_nullifier_injective(
                                            orig.fvk(),
                                            (l + t) as u64,
                                            ct,
                                            (l + i - 1) as u64,
                                            c,
                                        );
                                    }
                                }
                                if dec is Some {
                                    assert(nget(self.nullifier_map_of(), nut) == nget(
                                        pre.nullifier_map_of(),
                                        nut,
                                    ));
                                    assert(uget(self.unspent_of(), ct) == uget(
                                        pre.unspent_of(),
                                        ct,
                                    ));
                                }
                            } else {
                                if dec is Some {
                                    assert(uget(self.unspent_of(), ct) == uget(
                                        pre.unspent_of(),
                                        ct,
                                    ));
                                }
                            }
                        }
                    }
                    assert forall|nk: Seq<u8>|
                        (forall|t: int|
                            0 <= t < i ==> !(spec_decrypt(
                                (#[trigger] frs[t]).encrypted_note,
                                orig.ivk(),
                            ) is Some && nk == nullifier_bytes(
                                orig.fvk(),
                                (l + t) as u64,
                                frs[t].note_commitment,
                            ))) implies #[trigger] nget(self.nullifier_map_of(), nk) == nget(
                        orig.nullifier_map_of(),
                        nk,
                    ) by {
                        assert(!(dec is Some && nk == nu_new));
                        if dec is Some {
                            assert(nk != nu_new);
                            assert(nget(self.nullifier_map_of(), nk) == nget(
                                pre.nullifier_map_of(),
                                nk,
                            ));
                        } else {
                            assert(self.nullifier_map_of() == pre.nullifier_map_of());
                        }
                        assert(nget(pre.nullifier_map_of(), nk) == nget(
                            orig.nullifier_map_of(),
                            nk,
                        ));
                    }
                    assert forall|c2: Seq<u8>|
                        (forall|t: int| 0 <= t < i ==> c2 != (#[trigger] frs[t]).note_commitment)
                        implies #[trigger] uget(self.unspent_of(), c2) == uget(
                        orig.unspent_of(),
                        c2,
                    ) by {
                        assert(c2 != c);
                        if dec is Some {
                            assert(uget(self.unspent_of(), c2) == uget(pre.unspent_of(), c2));
                        } else {
                            assert(self.unspent_of() == pre.unspent_of());
                        }
                        assert(uget(pre.unspent_of(), c2) == uget(orig.unspent_of(), c2));
                    }
                }
            }
        }
        proof {
            assert(frs.subrange(0, n as int) =~= frs);
        }
    }

    /// Applies one revealed nullifier: when it decodes and is known, the
    /// note it announces moves from the unspent to the spent set.
    #[verifier::rlimit(100)]
    #[verifier::spinoff_prover]
    fn apply_nullifier(&mut self, nullifier: &Vec<u8>)
        requires
            old(self).nullifier_map_of().wf(),
            old(self).unspent_of().wf(),
            old(self).spent_of().wf(),
        ensures
            final(self).height_of() == old(self).height_of(),
            final(self).tree_of() == old(self).tree_of(),
            final(self).nullifier_map_of() == old(self).nullifier_map_of(),
            final(self).transactions_of() == old(self).transactions_of(),
            final(self).registry_of() == old(self).registry_of(),
            final(self).wallet_of() == old(self).wallet_of(),
            final(self).unspent_of().wf(),
            final(self).spent_of().wf(),
            forall|c: Seq<u8>|
                #[trigger] uget(final(self).unspent_of(), c) == (if one_hit(
                    old(self).nullifier_map_of(),
                    nullifier@,
                    c,
                ) {
                    None::<NoteData>
                } else {
                    uget(old(self).unspent_of(), c)
                }),
            forall|c: Seq<u8>|
                #[trigger] uget(final(self).spent_of(), c) == (if one_hit(
                    old(self).nullifier_map_of(),
                    nullifier@,
                    c,
                ) && uget(old(self).unspent_of(), c) is Some {
                    uget(old(self).unspent_of(), c)
                } else {
                    uget(old(self).spent_of(), c)
                }),
            old(self).wf() ==> final(self).wf(),
            (old(self).wf() && old(self).registry_covers()) ==> final(self).registry_covers(),
    {
        let ghost orig = *old(self);
        if nullifier.len() == NULLIFIER_BYTES {
            let found = self.nullifier_map.index_of(nullifier);
            match found {
                Some(idx) => {
                    let commitment = crate::bytes::clone_bytes(self.nullifier_map.value_at(idx));
                    proof {
                        assert(nget(orig.nullifier_map_of(), nullifier@) == Some(commitment@));
                        assert(forall|c: Seq<u8>|
                            one_hit(orig.nullifier_map_of(), nullifier@, c) == (c == commitment@));
                    }
                    let removed = self.unspent_set.remove(&commitment);
                    match removed {
                        Some(note) => {
                            self.spent_set.insert(commitment, note);
                        },
                        None => {
                            // the nullifier is known but its note is already
                            // in the spent set, or the store is inconsistent;
                            // either way nothing moves
                            let _already = self.spent_set.contains_key(&commitment);
                        },
                    }
                },
                None => {
                    proof {
                        assert(forall|c: Seq<u8>|
                            !one_hit(orig.nullifier_map_of(), nullifier@, c));
                    }
                },
            }
        } else {
            proof {
                assert(forall|c: Seq<u8>| !one_hit(orig.nullifier_map_of(), nullifier@, c));
            }
        }
        proof {
            if orig.wf() {
                assert(self.nullifier_map_of() == orig.nullifier_map_of());
                assert(self.tree_of() == orig.tree_of());
                assert(self.wallet_of() == orig.wallet_of());
                assert(self.transactions_of() == orig.transactions_of());
                assert(self.registry_of() == orig.registry_of());
                assert forall|c2: Seq<u8>| #[trigger] self.tracks(c2) implies orig.tracks(c2) by {
                    if uget(self.unspent_of(), c2) is Some {
                        assert(uget(orig.unspent_of(), c2) is Some);
                    } else {
                        assert(uget(self.spent_of(), c2) is Some);
                    }
                }
                assert forall|c2: Seq<u8>|
                    !(#[trigger] self.unspent_of().has_key(c2)
                        && #[trigger] self.spent_of().has_key(c2)) by {
                    if self.unspent_of().has_key(c2) && self.spent_of().has_key(c2) {
                        assert(uget(self.unspent_of(), c2) is Some);
                        assert(uget(self.spent_of(), c2) is Some);
                        assert(uget(orig.unspent_of(), c2) is Some);
                        assert(uget(orig.spent_of(), c2) is Some);
                        assert(orig.unspent_of().has_key(c2) && orig.spent_of().has_key(c2));
                    }
                }
                assert forall|c2: Seq<u8>| match #[trigger] self.unspent_of().spec_get(c2) {
                    Some(nn) => nn.wf(),
                    None => true,
                } by {
                    if self.unspent_of().spec_get(c2) is Some {
                        assert(uget(self.unspent_of(), c2) == uget(orig.unspent_of(), c2));
                    }
                }
                assert forall|c2: Seq<u8>| match #[trigger] self.spent_of().spec_get(c2) {
                    Some(nn) => nn.wf(),
                    None => true,
                } by {
                    if self.spent_of().spec_get(c2) is Some {
                        assert(uget(self.spent_of(), c2) is Some);
                    }
                }
                assert forall|c2: Seq<u8>| #[trigger]
                    self.tracks(c2) implies self.tree_of().is_witnessed(c2) && c2.len()
                    == COMMITMENT_BYTES by {
                    assert(orig.tracks(c2));
                }
                assert forall|c2: Seq<u8>| #[trigger] self.tracks(c2) implies exists|pos: int|
                    #[trigger] first_witness_pos_ok(self.tree_of(), pos, c2) && nget(
                        self.nullifier_map_of(),
                        nullifier_bytes(self.fvk(), pos as u64, c2),
                    ) == Some(c2) by {
                    assert(orig.tracks(c2));
                }
                assert(self.wf());
            }
        }
    }

    /// Moves every note whose nullifier is revealed from the unspent to the
    /// spent set. Malformed or unknown nullifiers are skipped.
    #[verifier::rlimit(100)]
    fn scan_nullifiers(&mut self, nullifiers: &Vec<Vec<u8>>)
        requires
            old(self).nullifier_map_of().wf(),
            old(self).unspent_of().wf(),
            old(self).spent_of().wf(),
        ensures
            final(self).height_of() == old(self).height_of(),
            final(self).tree_of() == old(self).tree_of(),
            final(self).nullifier_map_of() == old(self).nullifier_map_of(),
            final(self).transactions_of() == old(self).transactions_of(),
            final(self).registry_of() == old(self).registry_of(),
            final(self).wallet_of() == old(self).wallet_of(),
            final(self).unspent_of().wf(),
            final(self).spent_of().wf(),
            forall|c: Seq<u8>|
                #[trigger] uget(final(self).unspent_of(), c) == (if spent_hit(
                    old(self).nullifier_map_of(),
                    nullifiers@.map_values(|v: Vec<u8>| v@),
                    c,
                ) {
                    None::<NoteData>
                } else {
                    uget(old(self).unspent_of(), c)
                }),
            forall|c: Seq<u8>|
                #[trigger] uget(final(self).spent_of(), c) == (if spent_hit(
                    old(self).nullifier_map_of(),
                    nullifiers@.map_values(|v: Vec<u8>| v@),
                    c,
                ) && uget(old(self).unspent_of(), c) is Some {
                    uget(old(self).unspent_of(), c)
                } else {
                    uget(old(self).spent_of(), c)
                }),
            nullifiers@.len() == 0 ==> final(self).unspent_of() == old(self).unspent_of()
                && final(self).spent_of() == old(self).spent_of(),
            old(self).wf() ==> final(self).wf(),
            (old(self).wf() && old(self).registry_covers()) ==> final(self).registry_covers(),
    {
        let ghost orig = *old(self);
        let ghost nfs = nullifiers@.map_values(|v: Vec<u8>| v@);
        let n = nullifiers.len();
        let mut k: usize = 0;
        while k < n
            invariant
                k <= n,
                orig == *old(self),
                n == nullifiers@.len(),
                nfs == nullifiers@.map_values(|v: Vec<u8>| v@),
                self.height_of() == orig.height_of(),
                self.tree_of() == orig.tree_of(),
                self.nullifier_map_of() == orig.nullifier_map_of(),
                self.transactions_of() == orig.transactions_of(),
                self.registry_of() == orig.registry_of(),
                self.wallet_of() == orig.wallet_of(),
                self.nullifier_map_of().wf(),
                self.unspent_of().wf(),
                self.spent_of().wf(),
                n == 0 ==> *self == orig,
                forall|c: Seq<u8>|
                    #[trigger] uget(self.unspent_of(), c) == (if spent_hit(
                        orig.nullifier_map_of(),
                        nfs.subrange(0, k as int),
                        c,
                    ) {
                        None::<NoteData>
                    } else {
                        uget(orig.unspent_of(), c)
                    }),
                forall|c: Seq<u8>|
                    #[trigger] uget(self.spent_of(), c) == (if spent_hit(
                        orig.nullifier_map_of(),
                        nfs.subrange(0, k as int),
                        c,
                    ) && uget(orig.unspent_of(), c) is Some {
                        uget(orig.unspent_of(), c)
                    } else {
                        uget(orig.spent_of(), c)
                    }),
                orig.wf() ==> self.wf(),
                (orig.wf() && orig.registry_covers()) ==> self.registry_covers(),
            decreases n - k,
        {
            let ghost pre = *self;
            let nullifier = &nullifiers[k];
            self.apply_nullifier(nullifier);
            k = k + 1;
            proof {
                assert(nfs[k - 1] == nullifier@);
                assert forall|c: Seq<u8>|
                    #[trigger] uget(self.unspent_of(), c) == (if spent_hit(
                        orig.nullifier_map_of(),
                        nfs.subrange(0, k as int),
                        c,
                    ) {
                        None::<NoteData>
                    } else {
                        uget(orig.unspent_of(), c)
                    }) by {
                    lemma_spent_hit_split(orig.nullifier_map_of(), nfs, k - 1, c);
                }
                assert forall|c: Seq<u8>|
                    #[trigger] uget(self.spent_of(), c) == (if spent_hit(
                        orig.nullifier_map_of(),
                        nfs.subrange(0, k as int),
                        c,
                    ) && uget(orig.unspent_of(), c) is Some {
                        uget(orig.unspent_of(), c)
                    } else {
                        uget(orig.spent_of(), c)
                    }) by {
                    lemma_spent_hit_split(orig.nullifier_map_of(), nfs, k - 1, c);
                }
            }
        }
        proof {
            assert(nfs.subrange(0, n as int) =~= nfs);
        }
    }
}

impl ClientState {
    /// Checks every fragment before any mutation: fields must decode and no
    /// commitment may repeat. Returns the first fault in scanning order.
    fn validate_fragments(fragments: &Vec<StateFragment>) -> (r: Option<WalletError>)
        ensures
            r == frag_error_from(fragments@.map_values(|f: StateFragment| f@), 0),
            r is None ==> (forall|i: int|
                0 <= i < fragments@.len() ==> frag_ok((#[trigger] fragments@[i])@))
                && frags_distinct(fragments@.map_values(|f: StateFragment| f@)),
    {
        let ghost frs = fragments@.map_values(|f: StateFragment| f@);
        let nf = fragments.len();
        let mut j: usize = 0;
        while j < nf
            invariant
                j <= nf,
                nf == fragments@.len(),
                frs == fragments@.map_values(|f: StateFragment| f@),
                frag_error_from(frs, 0) == frag_error_from(frs, j as int),
                forall|t: int| 0 <= t < j ==> frag_ok(#[trigger] frs[t]),
                frags_distinct(frs.subrange(0, j as int)),
            decreases nf - j,
        {
            let fragment = &fragments[j];
            proof {
                assert(frs[j as int] == fragment@);
            }
            if fragment.note_commitment.len() != COMMITMENT_BYTES {
                return Some(WalletError::InvalidNoteCommitment);
            }
            if fragment.ephemeral_key.len() != EPHEMERAL_KEY_BYTES {
                return Some(WalletError::InvalidEphemeralKey);
            }
            let mut t: usize = 0;
            while t < j
                invariant
                    t <= j < nf,
                    nf == fragments@.len(),
                    frs == fragments@.map_values(|f: StateFragment| f@),
                    frag_ok(frs[j as int]),
                    frag_error_from(frs, 0) == frag_error_from(frs, j as int),
                    forall|u: int|
                        0 <= u < t ==> (#[trigger] frs[u]).note_commitment != frs[j as int].note_commitment,
                decreases j - t,
            {
                if crate::bytes::bytes_eq(
                    &fragments[t].note_commitment,
                    &fragments[j].note_commitment,
                ) {
                    proof {
                        assert(frs[t as int].note_commitment == frs[j as int].note_commitment);
                        assert(frag_error_from(frs, j as int) == Some(
                            WalletError::DuplicateCommitment,
                        ));
                    }
                    return Some(WalletError::DuplicateCommitment);
                }
                t = t + 1;
            }
            proof {
                assert(!(exists|u: int|
                    0 <= u < j && (#[trigger] frs[u].note_commitment)
                        == frs[j as int].note_commitment));
                assert(frag_error_from(frs, j as int) == frag_error_from(frs, j + 1));
                assert(frags_distinct(frs.subrange(0, j + 1))) by {
                    let pre = frs.subrange(0, j + 1);
                    assert forall|a: int, b: int|
                        0 <= a < b < pre.len() implies (#[trigger] pre[a].note_commitment) != (
                    #[trigger] pre[b].note_commitment) by {
                        assert(pre[a] == frs[a] && pre[b] == frs[b]);
                        if b < j {
                            assert(frs.subrange(0, j as int)[a] == frs[a]);
                            assert(frs.subrange(0, j as int)[b] == frs[b]);
                        }
                    }
                }
            }
            j = j + 1;
        }
        proof {
            assert(frag_error_from(frs, nf as int) is None);
            assert(frs.subrange(0, nf as int) =~= frs);
            assert forall|i: int| 0 <= i < fragments@.len() implies frag_ok(
                (#[trigger] fragments@[i])@,
            ) by {
                assert(frs[i] == fragments@[i]@);
            }
        }
        None
    }

    /// Scans the provided block and updates the state.
    ///
    /// The block must be the one immediately following the last scanned
    /// height, or the genesis block when nothing was scanned, and every
    /// fragment must decode, with no commitment repeated; otherwise the call
    /// fails with the matching error and the state is untouched. On success
    /// the tree gains one leaf per fragment, retained exactly for the
    /// fragments whose payload decrypts under the wallet's incoming viewing
    /// key; and, when the block's commitments are fresh, each decrypted note
    /// enters the unspent set with its derived nullifier indexed, and each
    /// revealed nullifier bound to an unspent note moves that note to the
    /// spent set.
    #[verifier::rlimit(100)]
    #[verifier::spinoff_prover]
    pub fn scan_block(&mut self, block: CompactBlock) -> (r: Result<(), WalletError>)
        requires
            old(self).wf(),
        ensures
            match r {
                Ok(_) => {
                    &&& height_ok(old(self).height_of(), block@.height)
                    &&& frag_error_from(block@.fragments, 0) is None
                    &&& final(self).height_of() == Some(block@.height)
                    &&& final(self).registry_of() == old(self).registry_of()
                    &&& final(self).transactions_of() == old(self).transactions_of()
                    &&& final(self).wallet_of() == old(self).wallet_of()
                    &&& final(self).tree_of().wf()
                    &&& final(self).tree_of().leaf_seq() == old(self).tree_of().leaf_seq()
                        + block@.fragments.map_values(|f: FragmentData| f.note_commitment)
                    &&& final(self).tree_of().wit_seq() == old(self).tree_of().wit_seq()
                        + block@.fragments.map_values(
                        |f: FragmentData| spec_decrypt(f.encrypted_note, old(self).ivk()) is Some,
                    )
                    // a block of foreign fragments with no revealed
                    // nullifier only advances the tree and the height
                    &&& all_foreign(block@.fragments, old(self).ivk()) ==> {
                        &&& final(self).nullifier_map_of() == old(self).nullifier_map_of()
                        &&& block@.nullifiers.len() == 0 ==> {
                            &&& final(self).unspent_of() == old(self).unspent_of()
                            &&& final(self).spent_of() == old(self).spent_of()
                        }
                    }
                    &&& fresh_for(*old(self), block@.fragments) ==> {
                        let frs = block@.fragments;
                        &&& final(self).wf()
                        &&& (old(self).registry_covers() && (forall|t: int|
                            0 <= t < frs.len() ==> match spec_decrypt(
                                (#[trigger] frs[t]).encrypted_note,
                                old(self).ivk(),
                            ) {
                                Some(nn) => old(self).registry_of().has_key(nn.asset_id),
                                None => true,
                            })) ==> final(self).registry_covers()
                        &&& scan_precise_post(
                            *old(self),
                            *final(self),
                            block@.fragments,
                            block@.nullifiers,
                        )
                    }
                },
                Err(e) => {
                    &&& *final(self) == *old(self)
                    &&& !(height_ok(old(self).height_of(), block@.height) && frag_error_from(
                        block@.fragments,
                        0,
                    ) is None)
                    &&& e == (if !height_ok(old(self).height_of(), block@.height) {
                        WalletError::UnexpectedBlockHeight
                    } else {
                        frag_error_from(block@.fragments, 0)->0
                    })
                },
            },
    {
        let height_good: bool = match self.last_block_height {
            None => block.height == 0,
            Some(h) => block.height >= 1 && block.height - 1 == h,
        };
        if !height_good {
            return Err(WalletError::UnexpectedBlockHeight);
        }
        let ghost frs = block.fragments@.map_values(|f: StateFragment| f@);
        let checked = ClientState::validate_fragments(&block.fragments);
        match checked {
            Some(e) => {
                return Err(e);
            },
            None => {},
        }
        let ghost mid0 = *self;
        self.scan_fragments(&block.fragments);
        let ghost mid = *self;
        self.scan_nullifiers(&block.nullifiers);
        let ghost mid2 = *self;
        self.last_block_height = Some(block.height);
        proof {
            let ghost orig = *old(self);
            assert(self.tree_of() == mid2.tree_of());
            assert(self.nullifier_map_of() == mid2.nullifier_map_of());
            assert(self.unspent_of() == mid2.unspent_of());
            assert(self.spent_of() == mid2.spent_of());
            assert(self.transactions_of() == mid2.transactions_of());
            assert(self.registry_of() == mid2.registry_of());
            assert(self.wallet_of() == mid2.wallet_of());
            assert(self.tree_of() == mid.tree_of());
            if fresh_for(orig, frs) {
                let nfs = block.nullifiers@.map_values(|v: Vec<u8>| v@);
                assert(mid.wf());
                assert(mid2.wf());
                assert forall|c2: Seq<u8>| #[trigger] self.tracks(c2) implies mid2.tracks(c2) by {}
                assert(self.wf());
                lemma_scan_compose(orig, mid, *self, frs, nfs);
            }
        }
        Ok(())
    }
}


/// After a successful scan of fresh fragments: each decrypted note is
/// indexed under the nullifier derived at its appended position and sits in
/// the unspent set, unless the same block revealed that nullifier, in which
/// case it sits in the spent set; every other binding is exactly what the
/// revealed nullifiers dictate.
pub open spec fn scan_precise_post(
    orig: ClientState,
    fin: ClientState,
    frs: Seq<FragmentData>,
    nfs: Seq<Seq<u8>>,
) -> bool {
    let l = orig.tree_of().size() as int;
    {
                        &&& forall|t: int|
                            0 <= t < frs.len() ==> match spec_decrypt(
                                (#[trigger] frs[t]).encrypted_note,
                                orig.ivk(),
                            ) {
                                Some(nn) => {
                                    &&& nget(
                                        fin.nullifier_map_of(),
                                        nullifier_bytes(
                                            orig.fvk(),
                                            (l + t) as u64,
                                            frs[t].note_commitment,
                                        ),
                                    ) == Some(frs[t].note_commitment)
                                    &&& uget(fin.unspent_of(), frs[t].note_commitment) == (
                                    if spent_hit(
                                        fin.nullifier_map_of(),
                                        nfs,
                                        frs[t].note_commitment,
                                    ) {
                                        None::<NoteData>
                                    } else {
                                        Some(nn)
                                    })
                                    &&& uget(fin.spent_of(), frs[t].note_commitment) == (
                                    if spent_hit(
                                        fin.nullifier_map_of(),
                                        nfs,
                                        frs[t].note_commitment,
                                    ) {
                                        Some(nn)
                                    } else {
                                        None::<NoteData>
                                    })
                                },
                                None => true,
                            }
                        &&& forall|nk: Seq<u8>|
                            (forall|t: int|
                                0 <= t < frs.len() ==> !(spec_decrypt(
                                    (#[trigger] frs[t]).encrypted_note,
                                    orig.ivk(),
                                ) is Some && nk == nullifier_bytes(
                                    orig.fvk(),
                                    (l + t) as u64,
                                    frs[t].note_commitment,
                                ))) ==> #[trigger] nget(fin.nullifier_map_of(), nk) == nget(
                                orig.nullifier_map_of(),
                                nk,
                            )
                        &&& forall|c: Seq<u8>|
                            (forall|t: int|
                                0 <= t < frs.len() ==> !(spec_decrypt(
                                    (#[trigger] frs[t]).encrypted_note,
                                    orig.ivk(),
                                ) is Some && c == frs[t].note_commitment)) ==> {
                                &&& #[trigger] uget(fin.unspent_of(), c) == (if spent_hit(
                                    fin.nullifier_map_of(),
                                    nfs,
                                    c,
                                ) {
                                    None::<NoteData>
                                } else {
                                    uget(orig.unspent_of(), c)
                                })
                                &&& uget(fin.spent_of(), c) == (if spent_hit(
                                    fin.nullifier_map_of(),
                                    nfs,
                                    c,
                                ) && uget(orig.unspent_of(), c) is Some {
                                    uget(orig.unspent_of(), c)
                                } else {
                                    uget(orig.spent_of(), c)
                                })
                            }
    }
}

/// Composes the fragment and nullifier phases of one block scan into the
/// precise statement of what the scan did.
#[verifier::rlimit(100)]
proof fn lemma_scan_compose(
    orig: ClientState,
    mid: ClientState,
    fin: ClientState,
    frs: Seq<FragmentData>,
    nfs: Seq<Seq<u8>>,
)
    requires
        orig.wf(),
        fresh_for(orig, frs),
        mid.spent_of() == orig.spent_of(),
        fin.nullifier_map_of() == mid.nullifier_map_of(),
        forall|t: int|
            0 <= t < frs.len() ==> match spec_decrypt(
                (#[trigger] frs[t]).encrypted_note,
                orig.ivk(),
            ) {
                Some(nn) => nget(
                    mid.nullifier_map_of(),
                    nullifier_bytes(
                        orig.fvk(),
                        (orig.tree_of().size() + t) as u64,
                        frs[t].note_commitment,
                    ),
                ) == Some(frs[t].note_commitment) && uget(
                    mid.unspent_of(),
                    frs[t].note_commitment,
                ) == Some(nn),
                None => uget(mid.unspent_of(), frs[t].note_commitment) == uget(
                    orig.unspent_of(),
                    frs[t].note_commitment,
                ),
            },
        forall|nk: Seq<u8>|
            (forall|t: int|
                0 <= t < frs.len() ==> !(spec_decrypt(
                    (#[trigger] frs[t]).encrypted_note,
                    orig.ivk(),
                ) is Some && nk == nullifier_bytes(
                    orig.fvk(),
                    (orig.tree_of().size() + t) as u64,
                    frs[t].note_commitment,
                ))) ==> #[trigger] nget(mid.nullifier_map_of(), nk) == nget(
                orig.nullifier_map_of(),
                nk,
            ),
        forall|c: Seq<u8>|
            (forall|t: int| 0 <= t < frs.len() ==> c != (#[trigger] frs[t]).note_commitment)
                ==> #[trigger] uget(mid.unspent_of(), c) == uget(orig.unspent_of(), c),
        forall|c: Seq<u8>|
            #[trigger] uget(fin.unspent_of(), c) == (if spent_hit(
                mid.nullifier_map_of(),
                nfs,
                c,
            ) {
                None::<NoteData>
            } else {
                uget(mid.unspent_of(), c)
            }),
        forall|c: Seq<u8>|
            #[trigger] uget(fin.spent_of(), c) == (if spent_hit(mid.nullifier_map_of(), nfs, c)
                && uget(mid.unspent_of(), c) is Some {
                uget(mid.unspent_of(), c)
            } else {
                uget(mid.spent_of(), c)
            }),
    ensures
        scan_precise_post(orig, fin, frs, nfs),
{
    let l = orig.tree_of().size() as int;
    assert forall|t: int| 0 <= t < frs.len() implies match spec_decrypt(
        (#[trigger] frs[t]).encrypted_note,
        orig.ivk(),
    ) {
        Some(nn) => {
            &&& nget(
                fin.nullifier_map_of(),
                nullifier_bytes(orig.fvk(), (l + t) as u64, frs[t].note_commitment),
            ) == Some(frs[t].note_commitment)
            &&& uget(fin.unspent_of(), frs[t].note_commitment) == (if spent_hit(
                fin.nullifier_map_of(),
                nfs,
                frs[t].note_commitment,
            ) {
                None::<NoteData>
            } else {
                Some(nn)
            })
            &&& uget(fin.spent_of(), frs[t].note_commitment) == (if spent_hit(
                fin.nullifier_map_of(),
                nfs,
                frs[t].note_commitment,
            ) {
                Some(nn)
            } else {
                None::<NoteData>
            })
        },
        None => true,
    } by {
        let c = frs[t].note_commitment;
        if spec_decrypt(frs[t].encrypted_note, orig.ivk()) is Some {
            assert(uget(mid.unspent_of(), c) is Some);
            assert(uget(orig.spent_of(), c) is None) by {
                if orig.spent_of().spec_get(c) is Some {
                    assert(orig.spent_of().has_key(c));
                }
            }
        }
    }
    assert forall|c: Seq<u8>|
        (forall|t: int|
            0 <= t < frs.len() ==> !(spec_decrypt(
                (#[trigger] frs[t]).encrypted_note,
                orig.ivk(),
            ) is Some && c == frs[t].note_commitment)) implies {
        &&& #[trigger] uget(fin.unspent_of(), c) == (if spent_hit(fin.nullifier_map_of(), nfs, c) {
            None::<NoteData>
        } else {
            uget(orig.unspent_of(), c)
        })
        &&& uget(fin.spent_of(), c) == (if spent_hit(fin.nullifier_map_of(), nfs, c) && uget(
            orig.unspent_of(),
            c,
        ) is Some {
            uget(orig.unspent_of(), c)
        } else {
            uget(orig.spent_of(), c)
        })
    } by {
        assert(uget(mid.unspent_of(), c) == uget(orig.unspent_of(), c)) by {
            if exists|t: int|
                0 <= t < frs.len() && c == (#[trigger] frs[t]).note_commitment {
                let t = choose|t: int|
                    0 <= t < frs.len() && c == (#[trigger] frs[t]).note_commitment;
                assert(spec_decrypt(frs[t].encrypted_note, orig.ivk()) is None);
            }
        }
    }
}

impl ClientState {
    /// Whether the unspent entry at `i` matches the requested denomination
    /// and, when one is given, the source address.
    pub open spec fn is_candidate(
        self,
        denom: Seq<char>,
        source: Option<u64>,
        i: int,
    ) -> bool {
        &&& 0 <= i < self.unspent_of().spec_len()
        &&& match self.registry_of().spec_get(self.unspent_of().vals()[i]@.asset_id) {
            Some(d) => d@ == denom,
            None => false,
        }
        &&& match source {
            Some(a) => self.unspent_of().vals()[i]@.diversifier_index == a,
            None => true,
        }
    }

    /// The pair `(c, n)` is a matching unspent note: bound in the unspent
    /// set, of the requested denomination, and at the source address when
    /// one is given.
    pub open spec fn pair_ok(
        self,
        denom: Seq<char>,
        source: Option<u64>,
        c: Seq<u8>,
        n: NoteData,
    ) -> bool {
        &&& uget(self.unspent_of(), c) == Some(n)
        &&& match self.registry_of().spec_get(n.asset_id) {
            Some(d) => d@ == denom,
            None => false,
        }
        &&& match source {
            Some(a) => n.diversifier_index == a,
            None => true,
        }
    }

    /// The spend draws a matching unspent note and opens at the first
    /// retained position of its commitment.
    pub open spec fn spend_backed(
        self,
        denom: Seq<char>,
        source: Option<u64>,
        sd: crate::transaction::SpendData,
    ) -> bool {
        exists|c: Seq<u8>|
            #[trigger] self.pair_ok(denom, source, c, sd.note) && first_witness_pos_ok(
                self.tree_of(),
                sd.position as int,
                c,
            )
    }

    /// The total amount over the matching unspent entries below `i`.
    pub open spec fn candidate_total_upto(
        self,
        denom: Seq<char>,
        source: Option<u64>,
        i: int,
    ) -> int
        decreases i,
    {
        if i <= 0 {
            0
        } else {
            self.candidate_total_upto(denom, source, i - 1) + (if self.is_candidate(
                denom,
                source,
                i - 1,
            ) {
                self.unspent_of().vals()[i - 1]@.amount as int
            } else {
                0
            })
        }
    }

    /// The spendable total: the sum of the amounts of every unspent note of
    /// the denomination, restricted to the source address when one is given.
    pub open spec fn candidate_total(self, denom: Seq<char>, source: Option<u64>) -> int {
        self.candidate_total_upto(denom, source, self.unspent_of().spec_len() as int)
    }

    /// At most one asset id is registered under `denom`.
    pub open spec fn denom_identifies_asset(self, denom: Seq<char>) -> bool {
        forall|a1: Seq<u8>, a2: Seq<u8>|
            (match #[trigger] self.registry_of().spec_get(a1) {
                Some(d) => d@ == denom,
                None => false,
            }) && (match #[trigger] self.registry_of().spec_get(a2) {
                Some(d) => d@ == denom,
                None => false,
            }) ==> a1 == a2
    }

    /// The current root of the note commitment tree.
    pub fn tree_root(&self) -> (r: Vec<u8>)
        requires
            self.wf(),
        ensures
            r@ == crate::tree::spec_root(self.tree_of().leaf_seq()),
    {
        self.note_commitment_tree.root()
    }

    /// The number of unspent notes.
    pub fn unspent_len(&self) -> (r: usize)
        ensures
            r == self.unspent_of().spec_len(),
    {
        self.unspent_set.len()
    }

    /// The number of spent notes.
    pub fn spent_len(&self) -> (r: usize)
        ensures
            r == self.spent_of().spec_len(),
    {
        self.spent_set.len()
    }

    /// The number of indexed nullifiers.
    pub fn nullifier_map_len(&self) -> (r: usize)
        ensures
            r == self.nullifier_map_of().spec_len(),
    {
        self.nullifier_map.len()
    }

    /// The number of leaves the tree holds.
    pub fn tree_size(&self) -> (r: usize)
        ensures
            r == self.tree_of().size(),
    {
        self.note_commitment_tree.size_exec()
    }

    /// The matching `(commitment, note)` pairs, in commitment order.
    fn candidate_notes(&self, denomination: &String, source: Option<u64>) -> (r: Vec<
        (Vec<u8>, Note),
    >)
        requires
            self.wf(),
            self.registry_covers(),
        ensures
            forall|j: int|
                0 <= j < r@.len() ==> self.pair_ok(
                    denomination@,
                    source,
                    (#[trigger] r@[j]).0@,
                    r@[j].1@,
                ),
            (r@.len() == 0) <==> (forall|c: Seq<u8>, n: NoteData|
                !self.pair_ok(denomination@, source, c, n)),
            pairs_amount_sum(r@) == self.candidate_total(denomination@, source),
            forall|j1: int, j2: int|
                0 <= j1 < j2 < r@.len() ==> (#[trigger] r@[j1]).0@ != (#[trigger] r@[j2]).0@,
    {
        let total = self.unspent_set.len();
        let mut out: Vec<(Vec<u8>, Note)> = Vec::new();
        let mut i: usize = 0;
        while i < total
            invariant
                i <= total,
                self.wf(),
                self.registry_covers(),
                total == self.unspent_of().spec_len(),
                forall|j: int|
                    0 <= j < out@.len() ==> self.pair_ok(
                        denomination@,
                        source,
                        (#[trigger] out@[j]).0@,
                        out@[j].1@,
                    ),
                out@.len() == 0 ==> forall|t: int|
                    0 <= t < i ==> !self.is_candidate(denomination@, source, t),
                pairs_amount_sum(out@) == self.candidate_total_upto(denomination@, source, i as int),
                forall|j1: int, j2: int|
                    0 <= j1 < j2 < out@.len() ==> crate::bytes::lex_lt(
                        (#[trigger] out@[j1]).0@,
                        (#[trigger] out@[j2]).0@,
                    ),
                out@.len() > 0 ==> exists|t: int|
                    0 <= t < i && (#[trigger] self.unspent_of().kseq()[t]) == out@[out@.len()
                        - 1].0@,
            decreases total - i,
        {
            let note = self.unspent_set.value_at(i).duplicate();
            proof {
                self.unspent_of().lemma_get_at_index(i as int);
            }
            let denom_here = match self.asset_registry.index_of(note.asset_id()) {
                Some(di) => self.asset_registry.value_at(di),
                None => {
                    proof {
                        assert(uget(self.unspent_of(), self.unspent_of().kseq()[i as int])
                            == Some(note@));
                        assert(false);
                    }
                    vstd::pervasive::unreached()
                },
            };
            let denom_good: bool = string_eq(denom_here, denomination);
            let source_good: bool = match source {
                Some(a) => note.diversifier_index() == a,
                None => true,
            };
            if denom_good && source_good {
                let commitment = crate::bytes::clone_bytes(self.unspent_set.key_at(i));
                proof {
                    assert(self.is_candidate(denomination@, source, i as int));
                }
                let ghost prev = out@;
                proof {
                    assert(self.pair_ok(denomination@, source, commitment@, note@));
                }
                proof {
                    if prev.len() > 0 {
                        let tl = choose|tl: int|
                            0 <= tl < i && (#[trigger] self.unspent_of().kseq()[tl]) == prev[prev.len()
                                - 1].0@;
                        assert(crate::bytes::lex_lt(
                            self.unspent_of().entries@[tl].0@,
                            self.unspent_of().entries@[i as int].0@,
                        ));
                        assert(crate::bytes::lex_lt(prev[prev.len() - 1].0@, commitment@));
                    }
                }
                out.push((commitment, note));
                proof {
                    assert forall|j: int| 0 <= j < out@.len() implies self.pair_ok(
                        denomination@,
                        source,
                        (#[trigger] out@[j]).0@,
                        out@[j].1@,
                    ) by {
                        if j < prev.len() {
                            assert(out@[j] == prev[j]);
                        }
                    }
                    assert forall|j1: int, j2: int|
                        0 <= j1 < j2 < out@.len() implies crate::bytes::lex_lt(
                        (#[trigger] out@[j1]).0@,
                        (#[trigger] out@[j2]).0@,
                    ) by {
                        if j2 < prev.len() {
                            assert(out@[j1] == prev[j1] && out@[j2] == prev[j2]);
                        } else {
                            assert(out@[j1] == prev[j1] && out@[j2].0@ == commitment@);
                            if j1 < prev.len() - 1 {
                                assert(crate::bytes::lex_lt(prev[j1].0@, prev[prev.len() - 1].0@));
                                crate::bytes::lemma_lex_transitive(
                                    prev[j1].0@,
                                    prev[prev.len() - 1].0@,
                                    commitment@,
                                );
                            }
                        }
                    }
                    assert(out@.drop_last() =~= prev);
                    assert(pairs_amount_sum(out@) == pairs_amount_sum(prev) + note@.amount);
                    assert(self.candidate_total_upto(denomination@, source, i + 1)
                        == self.candidate_total_upto(denomination@, source, i as int)
                        + note@.amount);
                }
            } else {
                proof {
                    assert(!self.is_candidate(denomination@, source, i as int));
                    assert(self.candidate_total_upto(denomination@, source, i + 1)
                        == self.candidate_total_upto(denomination@, source, i as int));
                }
            }
            i = i + 1;
        }
        proof {
            if out@.len() == 0 {
                assert forall|c: Seq<u8>, n: NoteData| !self.pair_ok(
                    denomination@,
                    source,
                    c,
                    n,
                ) by {
                    if self.pair_ok(denomination@, source, c, n) {
                        assert(self.unspent_of().spec_get(c) is Some);
                        crate::kvmap::lemma_seq_get_witness(self.unspent_of().entries@, c);
                        let idx = choose|idx: int|
                            0 <= idx < self.unspent_of().entries@.len()
                                && #[trigger] self.unspent_of().entries@[idx].0@ == c
                                && self.unspent_of().spec_get(c) == Some(
                                self.unspent_of().entries@[idx].1,
                            );
                        assert(self.unspent_of().vals()[idx]@ == n);
                        assert(self.is_candidate(denomination@, source, idx));
                    }
                }
            } else {
                assert(self.pair_ok(denomination@, source, out@[0].0@, out@[0].1@));
                assert(!(forall|c: Seq<u8>, n: NoteData|
                    !self.pair_ok(denomination@, source, c, n)));
            }
            assert forall|j1: int, j2: int|
                0 <= j1 < j2 < out@.len() implies (#[trigger] out@[j1]).0@ != (
            #[trigger] out@[j2]).0@ by {
                crate::bytes::lemma_lex_trichotomy(out@[j1].0@, out@[j2].0@);
            }
        }
        out
    }

    /// The unspent `(address index, denomination, note)` triples, in
    /// commitment order: one triple per unspent note, carrying the
    /// diversifier index of its receiving address and the registered
    /// denomination of its asset.
    pub fn unspent_notes(&self) -> (r: Vec<(u64, String, Note)>)
        requires
            self.wf(),
            self.registry_covers(),
        ensures
            r@.len() == self.unspent_of().spec_len(),
            forall|i: int|
                0 <= i < r@.len() ==> {
                    let n = self.unspent_of().vals()[i];
                    &&& (#[trigger] r@[i]).2@ == n@
                    &&& r@[i].0 == n@.diversifier_index
                    &&& match self.registry_of().spec_get(n@.asset_id) {
                        Some(d) => r@[i].1@ == d@,
                        None => false,
                    }
                },
    {
        let total = self.unspent_set.len();
        let mut out: Vec<(u64, String, Note)> = Vec::new();
        let mut i: usize = 0;
        while i < total
            invariant
                i <= total,
                self.wf(),
                self.registry_covers(),
                total == self.unspent_of().spec_len(),
                out@.len() == i,
                forall|j: int|
                    0 <= j < i ==> {
                        let n = self.unspent_of().vals()[j];
                        &&& (#[trigger] out@[j]).2@ == n@
                        &&& out@[j].0 == n@.diversifier_index
                        &&& match self.registry_of().spec_get(n@.asset_id) {
                            Some(d) => out@[j].1@ == d@,
                            None => false,
                        }
                    },
            decreases total - i,
        {
            let note = self.unspent_set.value_at(i).duplicate();
            proof {
                self.unspent_of().lemma_get_at_index(i as int);
            }
            let denom = match self.asset_registry.index_of(note.asset_id()) {
                Some(di) => self.asset_registry.value_at(di).clone(),
                None => {
                    proof {
                        assert(uget(self.unspent_of(), self.unspent_of().kseq()[i as int]) == Some(
                            note@,
                        ));
                        assert(false);
                    }
                    vstd::pervasive::unreached()
                },
            };
            let index = note.diversifier_index();
            out.push((index, denom, note));
            i = i + 1;
        }
        out
    }

    /// Assembles a transaction spending `amount` of `denomination` to
    /// `destination` with `fee`: matching unspent notes are drawn in a
    /// shuffled order until they cover amount plus fee, the destination
    /// receives the amount, and the rest above the fee returns as change to
    /// `change_address` or, by default, to the address of the last note
    /// drawn. The state itself is not changed: spends show up only when a
    /// scanned block reveals their nullifier.
    #[verifier::rlimit(100)]
    pub fn new_transaction(
        &self,
        amount: u64,
        denomination: &String,
        destination: &String,
        fee: u64,
        change_address: Option<u64>,
        source_address: Option<u64>,
    ) -> (r: Result<Transaction, WalletError>)
        requires
            self.wf(),
            self.registry_covers(),
            amount + fee <= u64::MAX,
        ensures
            match r {
                Ok(tx) => {
                    &&& tx@.chain_id == spec_chain_id()
                    &&& tx@.fee == fee
                    &&& tx@.anchor == crate::tree::spec_root(self.tree_of().leaf_seq())
                    &&& tx@.spends.len() >= 1
                    &&& forall|j: int|
                        0 <= j < tx@.spends.len() ==> self.spend_backed(
                            denomination@,
                            source_address,
                            #[trigger] tx@.spends[j],
                        )
                    &&& spend_total(tx@.spends) >= amount + fee
                    // selection stops at the first note that crosses the
                    // threshold, and never draws the same commitment twice
                    &&& (amount + fee > 0 ==> spend_total(tx@.spends.drop_last()) < amount + fee)
                    &&& (amount + fee == 0 ==> tx@.spends.len() == 1)
                    &&& forall|j1: int, j2: int|
                        0 <= j1 < j2 < tx@.spends.len() ==> (#[trigger] tx@.spends[j1]).position
                            != (#[trigger] tx@.spends[j2]).position
                    &&& (self.denom_identifies_asset(denomination@) ==> forall|j: int|
                        0 <= j < tx@.spends.len() ==> (#[trigger] tx@.spends[j]).note.asset_id
                            == tx@.spends[0].note.asset_id)
                    &&& tx@.outputs.len() == 2
                    &&& destination@ == crate::hexcode::hex_of(
                        crate::keys::address_bytes(tx@.outputs[0].destination),
                    )
                    &&& tx@.outputs[0].value.amount == amount
                    &&& tx@.outputs[0].value.asset_id == tx@.spends[0].note.asset_id
                    &&& tx@.outputs[0].memo == zero_memo()
                    &&& tx@.outputs[1].value.amount == spend_total(tx@.spends) - amount - fee
                    &&& tx@.outputs[1].value.asset_id == tx@.spends[0].note.asset_id
                    &&& tx@.outputs[1].memo == zero_memo()
                    &&& tx@.outputs[1].destination.transmission_key
                        == self.wallet_of()@.incoming_viewing_key
                    &&& (match change_address {
                        Some(a) => tx@.outputs[1].destination.diversifier_index == a,
                        None => tx@.outputs[1].destination.diversifier_index
                            == tx@.spends[tx@.spends.len() - 1].note.diversifier_index,
                    })
                },
                Err(WalletError::InvalidAddress) => !crate::keys::is_encoded_address(
                    destination@,
                ),
                Err(WalletError::NoNotesOfDenomination) => crate::keys::is_encoded_address(
                    destination@,
                ) && (forall|c: Seq<u8>, n: NoteData| !self.pair_ok(denomination@, None, c, n)),
                Err(WalletError::NoNotesAtAddress) => crate::keys::is_encoded_address(destination@)
                    && source_address is Some && (forall|c: Seq<u8>, n: NoteData|
                    !self.pair_ok(denomination@, source_address, c, n)) && (exists|
                    c: Seq<u8>,
                    n: NoteData,
                |
                    self.pair_ok(denomination@, None, c, n)),
                Err(WalletError::InsufficientBalance { need, have }) => crate::keys::is_encoded_address(
                    destination@,
                ) && (exists|c: Seq<u8>, n: NoteData|
                    self.pair_ok(denomination@, source_address, c, n)) && need == amount + fee
                    && have == self.candidate_total(denomination@, source_address) && (have as int)
                    < need,
                Err(_) => false,
            },
            // success is owed: a parseable destination, a matching note, and
            // a covering total force an assembled transaction
            (crate::keys::is_encoded_address(destination@) && (exists|c: Seq<u8>, n: NoteData|
                self.pair_ok(denomination@, source_address, c, n)) && self.candidate_total(
                denomination@,
                source_address,
            ) >= amount + fee) ==> r is Ok,
    {
        let dest = match Address::parse(destination.as_str()) {
            Some(a) => a,
            None => {
                return Err(WalletError::InvalidAddress);
            },
        };
        proof {
            assert(crate::keys::is_encoded_address(destination@));
        }
        let mut notes = self.candidate_notes(denomination, source_address);
        if notes.len() == 0 {
            if source_address.is_some() {
                let any = self.candidate_notes(denomination, None);
                if any.len() > 0 {
                    return Err(WalletError::NoNotesAtAddress);
                }
            }
            proof {
                assert forall|c: Seq<u8>, n: NoteData| !self.pair_ok(
                    denomination@,
                    None,
                    c,
                    n,
                ) by {
                    if source_address is None {
                        assert(!self.pair_ok(denomination@, source_address, c, n));
                    }
                }
            }
            return Err(WalletError::NoNotesOfDenomination);
        }
        let ghost unshuffled = notes@;
        shuffle_pairs(&mut notes);
        proof {
            broadcast use vstd::seq_lib::group_to_multiset_ensures;

            assert forall|j: int| 0 <= j < notes@.len() implies self.pair_ok(
                denomination@,
                source_address,
                (#[trigger] notes@[j]).0@,
                notes@[j].1@,
            ) by {
                let p = notes@[j];
                assert(notes@.contains(p));
                assert(notes@.to_multiset().count(p) > 0);
                assert(unshuffled.contains(p));
                let j0 = choose|j0: int| 0 <= j0 < unshuffled.len() && unshuffled[j0] == p;
                assert(self.pair_ok(denomination@, source_address, unshuffled[j0].0@, unshuffled[j0].1@));
            }
            lemma_permutation_keeps_distinct_keys(unshuffled, notes@);
        }
        let threshold: u128 = amount as u128 + fee as u128;
        let mut spends: Vec<Spend> = Vec::new();
        let mut total: u128 = 0;
        let n = notes.len();
        let mut i: usize = 0;
        loop
            invariant_except_break
                i == 0 ==> total == 0,
                i > 0 ==> total < threshold,
            invariant
                i <= n,
                n == notes@.len(),
                n >= 1,
                self.wf(),
                threshold == amount + fee,
                threshold <= u64::MAX,
                total < threshold + 0x1_0000_0000_0000_0000,
                forall|j: int|
                    0 <= j < notes@.len() ==> self.pair_ok(
                        denomination@,
                        source_address,
                        (#[trigger] notes@[j]).0@,
                        notes@[j].1@,
                    ),
                spends@.len() == i,
                forall|j: int|
                    0 <= j < i ==> self.spend_backed(
                        denomination@,
                        source_address,
                        (#[trigger] spends@[j])@,
                    ),
                forall|j: int|
                    0 <= j < i ==> (#[trigger] spends@[j]).note@ == notes@[j].1@
                        && first_witness_pos_ok(
                        self.tree_of(),
                        spends@[j].position as int,
                        notes@[j].0@,
                    ),
                total == spend_total(spends@.map_values(|s: Spend| s@)),
            ensures
                1 <= i <= n,
                spends@.len() == i,
                forall|j: int|
                    0 <= j < i ==> self.spend_backed(
                        denomination@,
                        source_address,
                        (#[trigger] spends@[j])@,
                    ),
                forall|j: int|
                    0 <= j < i ==> (#[trigger] spends@[j]).note@ == notes@[j].1@
                        && first_witness_pos_ok(
                        self.tree_of(),
                        spends@[j].position as int,
                        notes@[j].0@,
                    ),
                total == spend_total(spends@.map_values(|s: Spend| s@)),
                total < threshold + 0x1_0000_0000_0000_0000,
                total >= threshold || i == n,
                total >= threshold ==> (threshold > 0 ==> spend_total(
                    spends@.map_values(|s: Spend| s@).drop_last(),
                ) < threshold) && (threshold == 0 ==> i == 1),
            decreases n - i,
        {
            if i >= n {
                break;
            }
            let pair_note = duplicate_pair_note(&notes, i);
            let commitment = duplicate_pair_key(&notes, i);
            proof {
                assert(self.pair_ok(
                    denomination@,
                    source_address,
                    notes@[i as int].0@,
                    notes@[i as int].1@,
                ));
                assert(self.unspent_of().has_key(commitment@));
                assert(self.tracks(commitment@));
                assert(self.tree_of().is_witnessed(commitment@));
            }
            let path = self.note_commitment_tree.authentication_path(&commitment);
            let position: u64 = match path {
                Some(p) => p.position,
                None => {
                    proof {
                        assert(false);
                    }
                    vstd::pervasive::unreached()
                },
            };
            let amt = pair_note.amount();
            let ghost spends_before = spends@;
            spends.push(Spend { note: pair_note, position });
            proof {
                assert(spends@.map_values(|s: Spend| s@).drop_last() =~= spends_before.map_values(
                    |s: Spend| s@,
                ));
                assert(self.pair_ok(
                    denomination@,
                    source_address,
                    commitment@,
                    pair_note@,
                ));
                assert(first_witness_pos_ok(self.tree_of(), position as int, commitment@));
                assert(spends@[spends@.len() - 1]@.note == pair_note@);
                assert(spends@[spends@.len() - 1]@.position == position);
                assert(self.pair_ok(
                    denomination@,
                    source_address,
                    commitment@,
                    spends@[spends@.len() - 1]@.note,
                ));
                assert(self.spend_backed(
                    denomination@,
                    source_address,
                    spends@[spends@.len() - 1]@,
                ));
            }
            total = total + amt as u128;
            i = i + 1;
            if total >= threshold {
                break;
            }
        }
        if total < threshold {
            proof {
                assert(i == n);
                let sviews = spends@.map_values(|s: Spend| s@);
                assert(sviews.len() == notes@.len());
                assert forall|j: int| 0 <= j < sviews.len() implies (#[trigger] sviews[j]).note
                    == notes@[j].1@ by {
                    assert(sviews[j] == spends@[j]@);
                }
                lemma_spends_match_sum(sviews, notes@);
                lemma_pairs_sum_permutation(notes@, unshuffled);
                assert(total == self.candidate_total(denomination@, source_address));
                assert(self.pair_ok(denomination@, source_address, notes@[0].0@, notes@[0].1@));
            }
            return Err(
                WalletError::InsufficientBalance { need: threshold as u64, have: total as u64 },
            );
        }
        let change_index: u64 = match change_address {
            Some(a) => a,
            None => last_spend_index(&spends),
        };
        let change_addr = self.wallet.address_by_index(change_index);
        let asset_id = first_spend_asset(&spends);
        let asset_id2 = first_spend_asset(&spends);
        let change_amount: u64 = (total - threshold) as u64;
        let anchor = self.tree_root();
        let out0 = Output {
            destination: dest,
            value: Value { amount, asset_id },
            memo: make_zero_memo(),
        };
        let out1 = Output {
            destination: change_addr,
            value: Value { amount: change_amount, asset_id: asset_id2 },
            memo: make_zero_memo(),
        };
        let mut outputs: Vec<Output> = Vec::new();
        outputs.push(out0);
        outputs.push(out1);
        proof {
            let sviews = spends@.map_values(|s: Spend| s@);
            assert forall|j1: int, j2: int|
                0 <= j1 < j2 < sviews.len() implies (#[trigger] sviews[j1]).position != (
            #[trigger] sviews[j2]).position by {
                assert(sviews[j1] == spends@[j1]@ && sviews[j2] == spends@[j2]@);
                assert(first_witness_pos_ok(
                    self.tree_of(),
                    spends@[j1].position as int,
                    notes@[j1].0@,
                ));
                assert(first_witness_pos_ok(
                    self.tree_of(),
                    spends@[j2].position as int,
                    notes@[j2].0@,
                ));
                assert(notes@[j1].0@ != notes@[j2].0@);
                if spends@[j1].position == spends@[j2].position {
                    assert(self.tree_of().leaf_seq()[spends@[j1].position as int] == notes@[j1].0@);
                    assert(self.tree_of().leaf_seq()[spends@[j2].position as int] == notes@[j2].0@);
                }
            }
            if self.denom_identifies_asset(denomination@) {
                assert forall|j: int| 0 <= j < sviews.len() implies (
                #[trigger] sviews[j]).note.asset_id == sviews[0].note.asset_id by {
                    assert(sviews[j] == spends@[j]@ && sviews[0] == spends@[0]@);
                    assert(self.pair_ok(
                        denomination@,
                        source_address,
                        notes@[j].0@,
                        spends@[j].note@,
                    ));
                    assert(self.pair_ok(
                        denomination@,
                        source_address,
                        notes@[0].0@,
                        spends@[0].note@,
                    ));
                }
            }
        }
        let tx = Transaction {
            anchor,
            chain_id: current_chain_id(),
            fee,
            spends,
            outputs,
        };
        proof {
            assert(tx@.spends =~= tx.spends@.map_values(|s: Spend| s@));
            assert(tx@.spends.drop_last() =~= tx.spends@.map_values(|s: Spend| s@).drop_last());
        }
        Ok(tx)
    }
}

/// The sum of the note amounts of a candidate list.
pub open spec fn pairs_amount_sum(s: Seq<(Vec<u8>, Note)>) -> int
    decreases s.len(),
{
    if s.len() == 0 {
        0
    } else {
        pairs_amount_sum(s.drop_last()) + s.last().1@.amount
    }
}

/// Removing one pair removes its amount from the sum.
proof fn lemma_pairs_sum_remove(s: Seq<(Vec<u8>, Note)>, j: int)
    requires
        0 <= j < s.len(),
    ensures
        pairs_amount_sum(s) == pairs_amount_sum(s.remove(j)) + s[j].1@.amount,
    decreases s.len(),
{
    if j == s.len() - 1 {
        assert(s.remove(j) =~= s.drop_last());
    } else {
        assert(s.remove(j).drop_last() =~= s.drop_last().remove(j));
        assert(s.remove(j).last() == s.last());
        lemma_pairs_sum_remove(s.drop_last(), j);
    }
}

/// Lists with equal multisets have equal amount sums: a shuffle does not
/// change what the candidates are worth.
proof fn lemma_pairs_sum_permutation(a: Seq<(Vec<u8>, Note)>, b: Seq<(Vec<u8>, Note)>)
    requires
        a.to_multiset() == b.to_multiset(),
    ensures
        pairs_amount_sum(a) == pairs_amount_sum(b),
    decreases a.len(),
{
    broadcast use vstd::seq_lib::group_to_multiset_ensures;

    assert(a.to_multiset().len() == a.len());
    assert(b.to_multiset().len() == b.len());
    if a.len() == 0 {
        assert(b.len() == 0);
    } else {
        let x = a.last();
        assert(a.to_multiset().count(x) > 0) by {
            assert(a.contains(x));
        }
        assert(b.to_multiset().count(x) > 0);
        assert(b.contains(x));
        let j = choose|j: int| 0 <= j < b.len() && b[j] == x;
        let b2 = b.remove(j);
        assert(a.drop_last() =~= a.remove(a.len() - 1));
        assert(a.remove(a.len() - 1).to_multiset() =~= a.to_multiset().remove(x));
        assert(b2.to_multiset() =~= b.to_multiset().remove(x));
        lemma_pairs_sum_permutation(a.drop_last(), b2);
        lemma_pairs_sum_remove(b, j);
    }
}

/// A list mirroring the notes of a pair list, spend by spend, has the same
/// total.
proof fn lemma_spends_match_sum(
    spends: Seq<crate::transaction::SpendData>,
    pairs: Seq<(Vec<u8>, Note)>,
)
    requires
        spends.len() == pairs.len(),
        forall|j: int| 0 <= j < spends.len() ==> (#[trigger] spends[j]).note == pairs[j].1@,
    ensures
        spend_total(spends) == pairs_amount_sum(pairs),
    decreases spends.len(),
{
    if spends.len() > 0 {
        assert(forall|j: int|
            0 <= j < spends.len() - 1 ==> (#[trigger] spends.drop_last()[j]) == spends[j]);
        assert(forall|j: int|
            0 <= j < pairs.len() - 1 ==> (#[trigger] pairs.drop_last()[j]) == pairs[j]);
        lemma_spends_match_sum(spends.drop_last(), pairs.drop_last());
    }
}

/// A permutation of a list with pairwise distinct keys again has pairwise
/// distinct keys.
proof fn lemma_permutation_keeps_distinct_keys(a: Seq<(Vec<u8>, Note)>, b: Seq<(Vec<u8>, Note)>)
    requires
        a.to_multiset() == b.to_multiset(),
        forall|i: int, j: int|
            0 <= i < j < a.len() ==> (#[trigger] a[i]).0@ != (#[trigger] a[j]).0@,
    ensures
        forall|i: int, j: int|
            0 <= i < j < b.len() ==> (#[trigger] b[i]).0@ != (#[trigger] b[j]).0@,
{
    broadcast use vstd::seq_lib::group_to_multiset_ensures;

    assert(a.no_duplicates()) by {
        assert forall|i: int, j: int|
            0 <= i < a.len() && 0 <= j < a.len() && i != j implies a[i] != a[j] by {
            if i < j {
                assert(a[i].0@ != a[j].0@);
            } else {
                assert(a[j].0@ != a[i].0@);
            }
        }
    }
    a.lemma_multiset_has_no_duplicates();
    b.lemma_multiset_has_no_duplicates_conv();
    assert forall|i: int, j: int|
        0 <= i < j < b.len() implies (#[trigger] b[i]).0@ != (#[trigger] b[j]).0@ by {
        if b[i].0@ == b[j].0@ {
            assert(b.contains(b[i])) by {
                assert(b[i] == b[i]);
            }
            assert(b.contains(b[j])) by {
                assert(b[j] == b[j]);
            }
            assert(b.to_multiset().count(b[i]) > 0);
            assert(b.to_multiset().count(b[j]) > 0);
            assert(a.to_multiset().count(b[i]) > 0);
            assert(a.to_multiset().count(b[j]) > 0);
            assert(a.contains(b[i]));
            assert(a.contains(b[j]));
            let t1 = choose|t: int| 0 <= t < a.len() && a[t] == b[i];
            let t2 = choose|t: int| 0 <= t < a.len() && a[t] == b[j];
            assert(t1 == t2) by {
                if t1 < t2 {
                    assert(a[t1].0@ != a[t2].0@);
                } else if t2 < t1 {
                    assert(a[t2].0@ != a[t1].0@);
                }
            }
            assert(b[i] == b[j]);
            assert(b.no_duplicates());
        }
    }
}

/// Relies on rand's SliceRandom::shuffle with a fresh thread rng: it
/// permutes the slice in place, so the elements as a multiset stay the same.
#[verifier::external_body]
fn shuffle_pairs(v: &mut Vec<(Vec<u8>, Note)>)
    ensures
        final(v)@.to_multiset() == old(v)@.to_multiset(),
        final(v)@.len() == old(v)@.len(),
{
    v.shuffle(&mut rand::thread_rng());
}

/// Compares two strings by contents.
fn string_eq(a: &String, b: &String) -> (r: bool)
    ensures
        r <==> (a@ == b@),
{
    *a == *b
}

/// Copies the note of the pair at `i`.
fn duplicate_pair_note(v: &Vec<(Vec<u8>, Note)>, i: usize) -> (r: Note)
    requires
        i < v@.len(),
    ensures
        r@ == v@[i as int].1@,
{
    v[i].1.duplicate()
}

/// Copies the key of the pair at `i`.
fn duplicate_pair_key(v: &Vec<(Vec<u8>, Note)>, i: usize) -> (r: Vec<u8>)
    requires
        i < v@.len(),
    ensures
        r@ == v@[i as int].0@,
{
    crate::bytes::clone_bytes(&v[i].0)
}

/// The diversifier index of the last spend's note.
fn last_spend_index(spends: &Vec<Spend>) -> (r: u64)
    requires
        spends@.len() >= 1,
    ensures
        r == spends@[spends@.len() - 1].note@.diversifier_index,
{
    spends[spends.len() - 1].note.diversifier_index()
}

/// The asset id of the first spend's note.
fn first_spend_asset(spends: &Vec<Spend>) -> (r: Vec<u8>)
    requires
        spends@.len() >= 1,
    ensures
        r@ == spends@[0].note@.asset_id,
{
    crate::bytes::clone_bytes(spends[0].note.asset_id())
}

/// The stable projection of a client state: heights as they are, the tree
/// as hex-encoded binary, each map as hex-encoded key and value rows in
/// ascending key order.
pub struct ClientStateHelper {
    pub last_block_height: Option<u32>,
    pub note_commitment_tree: String,
    pub nullifier_map: Vec<(String, String)>,
    pub unspent_set: Vec<(String, String)>,
    pub spent_set: Vec<(String, String)>,
    pub transactions: Vec<(String, String)>,
    pub asset_registry: Vec<(String, String)>,
    pub wallet: Wallet,
}

/// Serializes the rows of a byte-valued map: hex of key, hex of value.
fn rows_of_bytes_map(m: &KvMap<Vec<u8>>) -> (r: Vec<(String, String)>)
    ensures
        r@.len() == m.spec_len(),
        forall|i: int|
            0 <= i < r@.len() ==> (#[trigger] r@[i]).0@ == hex_of(m.kseq()[i]) && r@[i].1@
                == hex_of(m.vals()[i]@),
{
    let n = m.len();
    let mut out: Vec<(String, String)> = Vec::new();
    let mut i: usize = 0;
    while i < n
        invariant
            i <= n,
            n == m.spec_len(),
            out@.len() == i,
            forall|j: int|
                0 <= j < i ==> (#[trigger] out@[j]).0@ == hex_of(m.kseq()[j]) && out@[j].1@
                    == hex_of(m.vals()[j]@),
        decreases n - i,
    {
        let ks = crate::hexcode::to_hex(m.key_at(i));
        let vs = crate::hexcode::to_hex(m.value_at(i));
        out.push((ks, vs));
        i = i + 1;
    }
    out
}

/// Serializes the rows of a note map: hex of key, hex of the encoded note.
fn rows_of_note_map(m: &KvMap<Note>) -> (r: Vec<(String, String)>)
    requires
        forall|j: int| 0 <= j < m.spec_len() ==> (#[trigger] m.vals()[j]).wf(),
    ensures
        r@.len() == m.spec_len(),
        forall|i: int|
            0 <= i < r@.len() ==> (#[trigger] r@[i]).0@ == hex_of(m.kseq()[i]) && r@[i].1@
                == hex_of(crate::note::note_bytes(m.vals()[i]@)),
{
    let n = m.len();
    let mut out: Vec<(String, String)> = Vec::new();
    let mut i: usize = 0;
    while i < n
        invariant
            i <= n,
            n == m.spec_len(),
            forall|j: int| 0 <= j < m.spec_len() ==> (#[trigger] m.vals()[j]).wf(),
            out@.len() == i,
            forall|j: int|
                0 <= j < i ==> (#[trigger] out@[j]).0@ == hex_of(m.kseq()[j]) && out@[j].1@
                    == hex_of(crate::note::note_bytes(m.vals()[j]@)),
        decreases n - i,
    {
        let ks = crate::hexcode::to_hex(m.key_at(i));
        let body = m.value_at(i).to_bytes();
        let vs = crate::hexcode::to_hex(&body);
        out.push((ks, vs));
        i = i + 1;
    }
    out
}

/// Serializes the rows of the asset registry: hex of id, denomination as is.
fn rows_of_registry(m: &KvMap<String>) -> (r: Vec<(String, String)>)
    ensures
        r@.len() == m.spec_len(),
        forall|i: int|
            0 <= i < r@.len() ==> (#[trigger] r@[i]).0@ == hex_of(m.kseq()[i]) && r@[i].1@
                == m.vals()[i]@,
{
    let n = m.len();
    let mut out: Vec<(String, String)> = Vec::new();
    let mut i: usize = 0;
    while i < n
        invariant
            i <= n,
            n == m.spec_len(),
            out@.len() == i,
            forall|j: int|
                0 <= j < i ==> (#[trigger] out@[j]).0@ == hex_of(m.kseq()[j]) && out@[j].1@
                    == m.vals()[j]@,
        decreases n - i,
    {
        let ks = crate::hexcode::to_hex(m.key_at(i));
        let vs = m.value_at(i).clone();
        out.push((ks, vs));
        i = i + 1;
    }
    out
}

/// The string rows of a serialized map, seen through their views.
pub open spec fn rows_view(v: Seq<(String, String)>) -> Seq<(Seq<char>, Seq<char>)> {
    v.map_values(|p: (String, String)| (p.0@, p.1@))
}

/// The rows decode to keys `ks` and values `vs`, with the keys strictly
/// ascending.
pub open spec fn rows_decode_to(
    rows: Seq<(Seq<char>, Seq<char>)>,
    ks: Seq<Seq<u8>>,
    vs: Seq<Seq<u8>>,
) -> bool {
    &&& ks.len() == rows.len()
    &&& vs.len() == rows.len()
    &&& forall|i: int|
        0 <= i < rows.len() ==> (#[trigger] rows[i]).0 == hex_of(ks[i]) && rows[i].1 == hex_of(
            vs[i],
        )
    &&& forall|i: int, j: int|
        0 <= i < j < rows.len() ==> crate::bytes::lex_lt(#[trigger] ks[i], #[trigger] ks[j])
}

/// The rows of a byte-valued map are a well-formed encoding.
pub open spec fn bytes_rows_ok(rows: Seq<(Seq<char>, Seq<char>)>) -> bool {
    exists|ks: Seq<Seq<u8>>, vs: Seq<Seq<u8>>| #[trigger] rows_decode_to(rows, ks, vs)
}

/// The rows of a note map are a well-formed encoding: on top of decoding,
/// every value has the width of an encoded note.
pub open spec fn note_rows_ok(rows: Seq<(Seq<char>, Seq<char>)>) -> bool {
    exists|ks: Seq<Seq<u8>>, vs: Seq<Seq<u8>>|
        #[trigger] rows_decode_to(rows, ks, vs) && forall|i: int|
            0 <= i < rows.len() ==> (#[trigger] vs[i]).len() == crate::note::NOTE_BYTES
}

/// The registry rows decode to the keys `ks`, strictly ascending; the
/// denomination values are carried as they are.
pub open spec fn registry_rows_decode_to(
    rows: Seq<(Seq<char>, Seq<char>)>,
    ks: Seq<Seq<u8>>,
) -> bool {
    &&& ks.len() == rows.len()
    &&& forall|i: int| 0 <= i < rows.len() ==> (#[trigger] rows[i]).0 == hex_of(ks[i])
    &&& forall|i: int, j: int|
        0 <= i < j < rows.len() ==> crate::bytes::lex_lt(#[trigger] ks[i], #[trigger] ks[j])
}

/// The registry rows are a well-formed encoding.
pub open spec fn registry_rows_ok(rows: Seq<(Seq<char>, Seq<char>)>) -> bool {
    exists|ks: Seq<Seq<u8>>| #[trigger] registry_rows_decode_to(rows, ks)
}

/// `s` decodes to the tree with leaves `ls` and retention flags `ws`.
pub open spec fn tree_field_decode_to(s: Seq<char>, ls: Seq<Seq<u8>>, ws: Seq<bool>) -> bool {
    &&& ls.len() == ws.len()
    &&& forall|i: int| 0 <= i < ls.len() ==> (#[trigger] ls[i]).len() == COMMITMENT_BYTES
    &&& s == hex_of(crate::tree::tree_enc(ls, ws))
}

/// The tree field is the hex of a well-formed tree encoding.
pub open spec fn tree_field_ok(s: Seq<char>) -> bool {
    exists|ls: Seq<Seq<u8>>, ws: Seq<bool>| #[trigger] tree_field_decode_to(s, ls, ws)
}

/// Every field of the helper is a well-formed encoding, so a load succeeds.
pub open spec fn helper_decodes(h: ClientStateHelper) -> bool {
    &&& tree_field_ok(h.note_commitment_tree@)
    &&& bytes_rows_ok(rows_view(h.nullifier_map@))
    &&& note_rows_ok(rows_view(h.unspent_set@))
    &&& note_rows_ok(rows_view(h.spent_set@))
    &&& registry_rows_ok(rows_view(h.asset_registry@))
}

/// Loads a byte-valued map; rows must be hex and strictly ascending by key.
fn load_bytes_map(rows: &Vec<(String, String)>) -> (r: Result<KvMap<Vec<u8>>, WalletError>)
    ensures
        match r {
            Ok(m) => m.wf() && m.spec_len() == rows@.len() && bytes_rows_ok(rows_view(rows@))
                && forall|i: int|
                0 <= i < rows@.len() ==> (#[trigger] rows@[i]).0@ == hex_of(m.kseq()[i])
                    && rows@[i].1@ == hex_of(m.vals()[i]@),
            Err(e) => e == WalletError::SerializationError && !bytes_rows_ok(rows_view(rows@)),
        },
{
    let n = rows.len();
    let mut m: KvMap<Vec<u8>> = KvMap::new();
    let mut i: usize = 0;
    while i < n
        invariant
            i <= n,
            n == rows@.len(),
            m.wf(),
            m.spec_len() == i,
            forall|j: int|
                0 <= j < i ==> (#[trigger] rows@[j]).0@ == hex_of(m.kseq()[j]) && rows@[j].1@
                    == hex_of(m.vals()[j]@),
        decreases n - i,
    {
        let k = match crate::hexcode::from_hex(rows[i].0.as_str()) {
            Some(k) => k,
            None => {
                proof {
                    lemma_rows_not_ok_key(rows@, i as int);
                }
                return Err(WalletError::SerializationError);
            },
        };
        let v = match crate::hexcode::from_hex(rows[i].1.as_str()) {
            Some(v) => v,
            None => {
                proof {
                    lemma_rows_not_ok_value(rows@, i as int);
                }
                return Err(WalletError::SerializationError);
            },
        };
        if m.len() > 0 {
            let lastk = m.key_at(m.len() - 1);
            if !crate::bytes::bytes_lt(lastk, &k) {
                proof {
                    assert(!bytes_rows_ok(rows_view(rows@))) by {
                        if bytes_rows_ok(rows_view(rows@)) {
                            let (ks, vs) = choose|ks: Seq<Seq<u8>>, vs: Seq<Seq<u8>>|
                                #[trigger] rows_decode_to(rows_view(rows@), ks, vs);
                            assert(rows_view(rows@)[i as int].0 == hex_of(ks[i as int]));
                            assert(rows_view(rows@)[i - 1].0 == hex_of(ks[i - 1]));
                            crate::hexcode::lemma_hex_of_injective(k@, ks[i as int]);
                            crate::hexcode::lemma_hex_of_injective(m.kseq()[i - 1], ks[i - 1]);
                            assert(crate::bytes::lex_lt(ks[i - 1], ks[i as int]));
                        }
                    }
                }
                return Err(WalletError::SerializationError);
            }
        }
        proof {
            assert forall|j: int| 0 <= j < m.spec_len() implies crate::bytes::lex_lt(
                #[trigger] m.kseq()[j],
                k@,
            ) by {
                if j < m.spec_len() - 1 {
                    assert(crate::bytes::lex_lt(
                        m.entries@[j].0@,
                        m.entries@[m.spec_len() - 1].0@,
                    ));
                    crate::bytes::lemma_lex_transitive(m.kseq()[j], m.kseq()[m.spec_len() - 1], k@);
                }
            }
        }
        let ghost mpre = m;
        m.insert(k, v);
        proof {
            assert(m.entries@ =~= mpre.entries@.push((k, v)));
            assert forall|j: int| 0 <= j < i + 1 implies (#[trigger] rows@[j]).0@ == hex_of(
                m.kseq()[j],
            ) && rows@[j].1@ == hex_of(m.vals()[j]@) by {
                if j < i {
                    assert(m.entries@[j] == mpre.entries@[j]);
                }
            }
        }
        i = i + 1;
    }
    proof {
        let ks = m.kseq();
        let vs = m.vals().map_values(|v: Vec<u8>| v@);
        assert(rows_decode_to(rows_view(rows@), ks, vs)) by {
            assert forall|i: int| 0 <= i < rows@.len() implies (#[trigger] rows_view(
                rows@,
            )[i]).0 == hex_of(ks[i]) && rows_view(rows@)[i].1 == hex_of(vs[i]) by {
                assert(rows_view(rows@)[i] == (rows@[i].0@, rows@[i].1@));
            }
            assert forall|i: int, j: int| 0 <= i < j < rows@.len() implies crate::bytes::lex_lt(
                #[trigger] ks[i],
                #[trigger] ks[j],
            ) by {
                assert(crate::bytes::lex_lt(m.entries@[i].0@, m.entries@[j].0@));
            }
        }
    }
    Ok(m)
}

/// A row whose key is not hex refutes a well-formed encoding.
proof fn lemma_rows_not_ok_key(rows: Seq<(String, String)>, i: int)
    requires
        0 <= i < rows.len(),
        forall|bs: Seq<u8>| hex_of(bs) != rows[i].0@,
    ensures
        !bytes_rows_ok(rows_view(rows)),
        !note_rows_ok(rows_view(rows)),
        !registry_rows_ok(rows_view(rows)),
{
    if bytes_rows_ok(rows_view(rows)) || note_rows_ok(rows_view(rows)) {
        let (ks, vs) = choose|ks: Seq<Seq<u8>>, vs: Seq<Seq<u8>>|
            #[trigger] rows_decode_to(rows_view(rows), ks, vs);
        assert(rows_view(rows)[i].0 == hex_of(ks[i]));
        assert(rows_view(rows)[i] == (rows[i].0@, rows[i].1@));
    }
    if registry_rows_ok(rows_view(rows)) {
        let ks = choose|ks: Seq<Seq<u8>>| #[trigger] registry_rows_decode_to(rows_view(rows), ks);
        assert(rows_view(rows)[i].0 == hex_of(ks[i]));
        assert(rows_view(rows)[i] == (rows[i].0@, rows[i].1@));
    }
}

/// A row whose value is not hex refutes a well-formed encoding.
proof fn lemma_rows_not_ok_value(rows: Seq<(String, String)>, i: int)
    requires
        0 <= i < rows.len(),
        forall|bs: Seq<u8>| hex_of(bs) != rows[i].1@,
    ensures
        !bytes_rows_ok(rows_view(rows)),
        !note_rows_ok(rows_view(rows)),
{
    if bytes_rows_ok(rows_view(rows)) || note_rows_ok(rows_view(rows)) {
        let (ks, vs) = choose|ks: Seq<Seq<u8>>, vs: Seq<Seq<u8>>|
            #[trigger] rows_decode_to(rows_view(rows), ks, vs);
        assert(rows_view(rows)[i].1 == hex_of(vs[i]));
        assert(rows_view(rows)[i] == (rows[i].0@, rows[i].1@));
    }
}

/// Loads a note map; rows must be hex, the values encoded notes, and the
/// keys strictly ascending.
fn load_note_map(rows: &Vec<(String, String)>) -> (r: Result<KvMap<Note>, WalletError>)
    ensures
        match r {
            Ok(m) => m.wf() && m.spec_len() == rows@.len() && note_rows_ok(rows_view(rows@))
                && (forall|j: int|
                0 <= j < m.spec_len() ==> (#[trigger] m.vals()[j]).wf()) && forall|i: int|
                0 <= i < rows@.len() ==> (#[trigger] rows@[i]).0@ == hex_of(m.kseq()[i])
                    && rows@[i].1@ == hex_of(crate::note::note_bytes(m.vals()[i]@)),
            Err(e) => e == WalletError::SerializationError && !note_rows_ok(rows_view(rows@)),
        },
{
    let n = rows.len();
    let mut m: KvMap<Note> = KvMap::new();
    let mut i: usize = 0;
    while i < n
        invariant
            i <= n,
            n == rows@.len(),
            m.wf(),
            m.spec_len() == i,
            forall|j: int| 0 <= j < m.spec_len() ==> (#[trigger] m.vals()[j]).wf(),
            forall|j: int|
                0 <= j < i ==> (#[trigger] rows@[j]).0@ == hex_of(m.kseq()[j]) && rows@[j].1@
                    == hex_of(crate::note::note_bytes(m.vals()[j]@)),
        decreases n - i,
    {
        let k = match crate::hexcode::from_hex(rows[i].0.as_str()) {
            Some(k) => k,
            None => {
                proof {
                    lemma_rows_not_ok_key(rows@, i as int);
                }
                return Err(WalletError::SerializationError);
            },
        };
        let vb = match crate::hexcode::from_hex(rows[i].1.as_str()) {
            Some(v) => v,
            None => {
                proof {
                    lemma_rows_not_ok_value(rows@, i as int);
                }
                return Err(WalletError::SerializationError);
            },
        };
        let note = match Note::from_bytes(&vb) {
            Some(nn) => nn,
            None => {
                proof {
                    assert(!note_rows_ok(rows_view(rows@))) by {
                        if note_rows_ok(rows_view(rows@)) {
                            let (ks, vs) = choose|ks: Seq<Seq<u8>>, vs: Seq<Seq<u8>>|
                                #[trigger] rows_decode_to(rows_view(rows@), ks, vs) && forall|
                                t: int,
                            |
                                0 <= t < rows_view(rows@).len() ==> (#[trigger] vs[t]).len()
                                    == crate::note::NOTE_BYTES;
                            assert(rows_view(rows@)[i as int].1 == hex_of(vs[i as int]));
                            crate::hexcode::lemma_hex_of_injective(vb@, vs[i as int]);
                            assert(vb@.len() == crate::note::NOTE_BYTES);
                        }
                    }
                }
                return Err(WalletError::SerializationError);
            },
        };
        proof {
            let b = vb@;
            assert(b.len() == crate::note::NOTE_BYTES);
            crate::note::lemma_pow256_u64();
            crate::bytes::lemma_from_le_bound(b.subrange(32, 40));
            crate::bytes::lemma_from_le_bound(b.subrange(40, 48));
            crate::bytes::lemma_le_bytes_of_from_le(b.subrange(32, 40), 8);
            crate::bytes::lemma_le_bytes_of_from_le(b.subrange(40, 48), 8);
            assert(crate::note::note_bytes(note@) =~= b);
        }
        if m.len() > 0 {
            let lastk = m.key_at(m.len() - 1);
            if !crate::bytes::bytes_lt(lastk, &k) {
                proof {
                    assert(!note_rows_ok(rows_view(rows@))) by {
                        if note_rows_ok(rows_view(rows@)) {
                            let (ks, vs) = choose|ks: Seq<Seq<u8>>, vs: Seq<Seq<u8>>|
                                #[trigger] rows_decode_to(rows_view(rows@), ks, vs);
                            assert(rows_view(rows@)[i as int].0 == hex_of(ks[i as int]));
                            assert(rows_view(rows@)[i - 1].0 == hex_of(ks[i - 1]));
                            crate::hexcode::lemma_hex_of_injective(k@, ks[i as int]);
                            crate::hexcode::lemma_hex_of_injective(m.kseq()[i - 1], ks[i - 1]);
                            assert(crate::bytes::lex_lt(ks[i - 1], ks[i as int]));
                        }
                    }
                }
                return Err(WalletError::SerializationError);
            }
        }
        proof {
            assert forall|j: int| 0 <= j < m.spec_len() implies crate::bytes::lex_lt(
                #[trigger] m.kseq()[j],
                k@,
            ) by {
                if j < m.spec_len() - 1 {
                    assert(crate::bytes::lex_lt(
                        m.entries@[j].0@,
                        m.entries@[m.spec_len() - 1].0@,
                    ));
                    crate::bytes::lemma_lex_transitive(m.kseq()[j], m.kseq()[m.spec_len() - 1], k@);
                }
            }
        }
        let ghost mpre = m;
        m.insert(k, note);
        proof {
            assert(m.entries@ =~= mpre.entries@.push((k, note)));
            assert forall|j: int| 0 <= j < i + 1 implies (#[trigger] rows@[j]).0@ == hex_of(
                m.kseq()[j],
            ) && rows@[j].1@ == hex_of(crate::note::note_bytes(m.vals()[j]@)) by {
                if j < i {
                    assert(m.entries@[j] == mpre.entries@[j]);
                }
            }
            assert forall|j: int| 0 <= j < m.spec_len() implies (
            #[trigger] m.vals()[j]).wf() by {
                if j < i {
                    assert(m.entries@[j] == mpre.entries@[j]);
                    assert(m.vals()[j] == mpre.vals()[j]);
                } else {
                    assert(m.vals()[j] == note);
                }
            }
        }
        i = i + 1;
    }
    proof {
        let ks = m.kseq();
        let vs = m.vals().map_values(|nn: Note| crate::note::note_bytes(nn@));
        let rv = rows_view(rows@);
        assert(ks.len() == rows@.len());
        assert(vs.len() == rows@.len());
        assert(rv.len() == rows@.len());
        assert forall|t: int| 0 <= t < rv.len() implies (#[trigger] rv[t]).0 == hex_of(ks[t])
            && rv[t].1 == hex_of(vs[t]) by {
            assert(rv[t] == (rows@[t].0@, rows@[t].1@));
            assert(vs[t] == crate::note::note_bytes(m.vals()[t]@));
        }
        assert forall|t: int, j: int| 0 <= t < j < rv.len() implies crate::bytes::lex_lt(
            #[trigger] ks[t],
            #[trigger] ks[j],
        ) by {
            assert(crate::bytes::lex_lt(m.entries@[t].0@, m.entries@[j].0@));
        }
        assert(rows_decode_to(rv, ks, vs));
        assert forall|t: int| 0 <= t < rv.len() implies (#[trigger] vs[t]).len()
            == crate::note::NOTE_BYTES by {
            assert(vs[t] == crate::note::note_bytes(m.vals()[t]@));
            assert(m.vals()[t].wf());
            crate::note::lemma_note_codec_round_trip(m.vals()[t]@);
        }
        assert(note_rows_ok(rv));
    }
    Ok(m)
}

/// Loads the asset registry; keys must be hex and strictly ascending.
fn load_registry(rows: &Vec<(String, String)>) -> (r: Result<KvMap<String>, WalletError>)
    ensures
        match r {
            Ok(m) => m.wf() && m.spec_len() == rows@.len() && registry_rows_ok(rows_view(rows@))
                && forall|i: int|
                0 <= i < rows@.len() ==> (#[trigger] rows@[i]).0@ == hex_of(m.kseq()[i])
                    && rows@[i].1@ == m.vals()[i]@,
            Err(e) => e == WalletError::SerializationError && !registry_rows_ok(rows_view(rows@)),
        },
{
    let n = rows.len();
    let mut m: KvMap<String> = KvMap::new();
    let mut i: usize = 0;
    while i < n
        invariant
            i <= n,
            n == rows@.len(),
            m.wf(),
            m.spec_len() == i,
            forall|j: int|
                0 <= j < i ==> (#[trigger] rows@[j]).0@ == hex_of(m.kseq()[j]) && rows@[j].1@
                    == m.vals()[j]@,
        decreases n - i,
    {
        let k = match crate::hexcode::from_hex(rows[i].0.as_str()) {
            Some(k) => k,
            None => {
                proof {
                    lemma_rows_not_ok_key(rows@, i as int);
                }
                return Err(WalletError::SerializationError);
            },
        };
        let v = rows[i].1.clone();
        if m.len() > 0 {
            let lastk = m.key_at(m.len() - 1);
            if !crate::bytes::bytes_lt(lastk, &k) {
                proof {
                    assert(!registry_rows_ok(rows_view(rows@))) by {
                        if registry_rows_ok(rows_view(rows@)) {
                            let ks = choose|ks: Seq<Seq<u8>>|
                                #[trigger] registry_rows_decode_to(rows_view(rows@), ks);
                            assert(rows_view(rows@)[i as int].0 == hex_of(ks[i as int]));
                            assert(rows_view(rows@)[i - 1].0 == hex_of(ks[i - 1]));
                            crate::hexcode::lemma_hex_of_injective(k@, ks[i as int]);
                            crate::hexcode::lemma_hex_of_injective(m.kseq()[i - 1], ks[i - 1]);
                            assert(crate::bytes::lex_lt(ks[i - 1], ks[i as int]));
                        }
                    }
                }
                return Err(WalletError::SerializationError);
            }
        }
        proof {
            assert forall|j: int| 0 <= j < m.spec_len() implies crate::bytes::lex_lt(
                #[trigger] m.kseq()[j],
                k@,
            ) by {
                if j < m.spec_len() - 1 {
                    assert(crate::bytes::lex_lt(
                        m.entries@[j].0@,
                        m.entries@[m.spec_len() - 1].0@,
                    ));
                    crate::bytes::lemma_lex_transitive(m.kseq()[j], m.kseq()[m.spec_len() - 1], k@);
                }
            }
        }
        let ghost mpre = m;
        m.insert(k, v);
        proof {
            assert(m.entries@ =~= mpre.entries@.push((k, v)));
            assert forall|j: int| 0 <= j < i + 1 implies (#[trigger] rows@[j]).0@ == hex_of(
                m.kseq()[j],
            ) && rows@[j].1@ == m.vals()[j]@ by {
                if j < i {
                    assert(m.entries@[j] == mpre.entries@[j]);
                }
            }
        }
        i = i + 1;
    }
    proof {
        let ks = m.kseq();
        let rv = rows_view(rows@);
        assert(ks.len() == rows@.len());
        assert(rv.len() == rows@.len());
        assert forall|t: int| 0 <= t < rv.len() implies (#[trigger] rv[t]).0 == hex_of(ks[t]) by {
            assert(rv[t] == (rows@[t].0@, rows@[t].1@));
        }
        assert forall|t: int, j: int| 0 <= t < j < rv.len() implies crate::bytes::lex_lt(
            #[trigger] ks[t],
            #[trigger] ks[j],
        ) by {
            assert(crate::bytes::lex_lt(m.entries@[t].0@, m.entries@[j].0@));
        }
        assert(registry_rows_decode_to(rv, ks));
    }
    Ok(m)
}

impl ClientStateHelper {
    /// Projects a state to its stable form. Every row is pinned: the maps
    /// appear in ascending key order with hex-encoded keys, the tree under
    /// its hex-encoded binary encoding, and the reserved transaction store
    /// empty.
    pub fn from_state(state: ClientState) -> (r: ClientStateHelper)
        requires
            state.wf(),
        ensures
            r.last_block_height == state.height_of(),
            r.wallet == state.wallet_of(),
            r.note_commitment_tree@ == hex_of(
                crate::tree::tree_enc(state.tree_of().leaf_seq(), state.tree_of().wit_seq()),
            ),
            r.transactions@.len() == 0,
            r.nullifier_map@.len() == state.nullifier_map_of().spec_len(),
            forall|i: int|
                0 <= i < r.nullifier_map@.len() ==> (#[trigger] r.nullifier_map@[i]).0@ == hex_of(
                    state.nullifier_map_of().kseq()[i],
                ) && r.nullifier_map@[i].1@ == hex_of(state.nullifier_map_of().vals()[i]@),
            r.unspent_set@.len() == state.unspent_of().spec_len(),
            forall|i: int|
                0 <= i < r.unspent_set@.len() ==> (#[trigger] r.unspent_set@[i]).0@ == hex_of(
                    state.unspent_of().kseq()[i],
                ) && r.unspent_set@[i].1@ == hex_of(
                    crate::note::note_bytes(state.unspent_of().vals()[i]@),
                ),
            r.spent_set@.len() == state.spent_of().spec_len(),
            forall|i: int|
                0 <= i < r.spent_set@.len() ==> (#[trigger] r.spent_set@[i]).0@ == hex_of(
                    state.spent_of().kseq()[i],
                ) && r.spent_set@[i].1@ == hex_of(
                    crate::note::note_bytes(state.spent_of().vals()[i]@),
                ),
            r.asset_registry@.len() == state.registry_of().spec_len(),
            forall|i: int|
                0 <= i < r.asset_registry@.len() ==> (#[trigger] r.asset_registry@[i]).0@
                    == hex_of(state.registry_of().kseq()[i]) && r.asset_registry@[i].1@
                    == state.registry_of().vals()[i]@,
    {
        proof {
            assert forall|j: int| 0 <= j < state.unspent_of().spec_len() implies (
            #[trigger] state.unspent_of().vals()[j]).wf() by {
                state.unspent_of().lemma_get_at_index(j);
            }
            assert forall|j: int| 0 <= j < state.spent_of().spec_len() implies (
            #[trigger] state.spent_of().vals()[j]).wf() by {
                state.spent_of().lemma_get_at_index(j);
            }
        }
        let tree_bytes = state.note_commitment_tree.encode();
        ClientStateHelper {
            last_block_height: state.last_block_height,
            note_commitment_tree: crate::hexcode::to_hex(&tree_bytes),
            nullifier_map: rows_of_bytes_map(&state.nullifier_map),
            unspent_set: rows_of_note_map(&state.unspent_set),
            spent_set: rows_of_note_map(&state.spent_set),
            transactions: Vec::new(),
            asset_registry: rows_of_registry(&state.asset_registry),
            wallet: state.wallet,
        }
    }
}

impl ClientState {
    /// Rebuilds a state from its stable form. Every field must decode and
    /// the rows must come in strictly ascending key order, else the load
    /// fails and the partial state is discarded; the reserved transaction
    /// store is rebuilt empty.
    pub fn from_helper(helper: ClientStateHelper) -> (r: Result<ClientState, WalletError>)
        ensures
            match r {
                Ok(s) => {
                    &&& helper_decodes(helper)
                    &&& s.height_of() == helper.last_block_height
                    &&& s.wallet_of() == helper.wallet
                    &&& s.transactions_of().spec_len() == 0
                    &&& s.tree_of().wf()
                    &&& s.nullifier_map_of().wf()
                    &&& s.unspent_of().wf()
                    &&& s.spent_of().wf()
                    &&& s.registry_of().wf()
                    &&& helper.note_commitment_tree@ == hex_of(
                        crate::tree::tree_enc(s.tree_of().leaf_seq(), s.tree_of().wit_seq()),
                    )
                    &&& s.nullifier_map_of().spec_len() == helper.nullifier_map@.len()
                    &&& s.unspent_of().spec_len() == helper.unspent_set@.len()
                    &&& s.spent_of().spec_len() == helper.spent_set@.len()
                    &&& s.registry_of().spec_len() == helper.asset_registry@.len()
                    &&& forall|i: int|
                        0 <= i < helper.unspent_set@.len() ==> (
                        #[trigger] helper.unspent_set@[i]).0@ == hex_of(s.unspent_of().kseq()[i])
                            && helper.unspent_set@[i].1@ == hex_of(
                            crate::note::note_bytes(s.unspent_of().vals()[i]@),
                        )
                    &&& forall|i: int|
                        0 <= i < helper.spent_set@.len() ==> (#[trigger] helper.spent_set@[i]).0@
                            == hex_of(s.spent_of().kseq()[i]) && helper.spent_set@[i].1@ == hex_of(
                            crate::note::note_bytes(s.spent_of().vals()[i]@),
                        )
                    &&& forall|i: int|
                        0 <= i < helper.nullifier_map@.len() ==> (
                        #[trigger] helper.nullifier_map@[i]).0@ == hex_of(
                            s.nullifier_map_of().kseq()[i],
                        ) && helper.nullifier_map@[i].1@ == hex_of(s.nullifier_map_of().vals()[i]@)
                    &&& forall|i: int|
                        0 <= i < helper.asset_registry@.len() ==> (
                        #[trigger] helper.asset_registry@[i]).0@ == hex_of(
                            s.registry_of().kseq()[i],
                        ) && helper.asset_registry@[i].1@ == s.registry_of().vals()[i]@
                },
                Err(e) => e == WalletError::SerializationError && !helper_decodes(helper),
            },
    {
        let tree_bytes = match crate::hexcode::from_hex(helper.note_commitment_tree.as_str()) {
            Some(b) => b,
            None => {
                proof {
                    assert(!tree_field_ok(helper.note_commitment_tree@)) by {
                        if tree_field_ok(helper.note_commitment_tree@) {
                            let (ls, ws) = choose|ls: Seq<Seq<u8>>, ws: Seq<bool>|
                                #[trigger] tree_field_decode_to(
                                    helper.note_commitment_tree@,
                                    ls,
                                    ws,
                                );
                            assert(helper.note_commitment_tree@ == hex_of(
                                crate::tree::tree_enc(ls, ws),
                            ));
                        }
                    }
                }
                return Err(WalletError::SerializationError);
            },
        };
        let tree = match crate::tree::NoteCommitmentTree::decode(&tree_bytes) {
            Some(t) => t,
            None => {
                proof {
                    assert(!tree_field_ok(helper.note_commitment_tree@)) by {
                        if tree_field_ok(helper.note_commitment_tree@) {
                            let (ls, ws) = choose|ls: Seq<Seq<u8>>, ws: Seq<bool>|
                                #[trigger] tree_field_decode_to(
                                    helper.note_commitment_tree@,
                                    ls,
                                    ws,
                                );
                            crate::hexcode::lemma_hex_of_injective(
                                tree_bytes@,
                                crate::tree::tree_enc(ls, ws),
                            );
                        }
                    }
                }
                return Err(WalletError::SerializationError);
            },
        };
        let nullifier_map = match load_bytes_map(&helper.nullifier_map) {
            Ok(m) => m,
            Err(e) => {
                return Err(e);
            },
        };
        let unspent_set = match load_note_map(&helper.unspent_set) {
            Ok(m) => m,
            Err(e) => {
                return Err(e);
            },
        };
        let spent_set = match load_note_map(&helper.spent_set) {
            Ok(m) => m,
            Err(e) => {
                return Err(e);
            },
        };
        let asset_registry = match load_registry(&helper.asset_registry) {
            Ok(m) => m,
            Err(e) => {
                return Err(e);
            },
        };
        proof {
            assert(tree_field_decode_to(
                helper.note_commitment_tree@,
                tree.leaf_seq(),
                tree.wit_seq(),
            ));
        }
        Ok(
            ClientState {
                last_block_height: helper.last_block_height,
                note_commitment_tree: tree,
                nullifier_map,
                unspent_set,
                spent_set,
                transactions: KvMap::new(),
                asset_registry,
                wallet: helper.wallet,
            },
        )
    }
}

/// A single revealed nullifier decodes and is bound to `c`.
pub open spec fn one_hit(nmap: KvMap<Vec<u8>>, nv: Seq<u8>, c: Seq<u8>) -> bool {
    nv.len() == NULLIFIER_BYTES && nget(nmap, nv) == Some(c)
}

/// Some revealed nullifier among `nulls` decodes and is bound to `c`.
pub open spec fn spent_hit(nmap: KvMap<Vec<u8>>, nulls: Seq<Seq<u8>>, c: Seq<u8>) -> bool {
    exists|i: int|
        0 <= i < nulls.len() && (#[trigger] nulls[i]).len() == NULLIFIER_BYTES && nget(
            nmap,
            nulls[i],
        ) == Some(c)
}

/// Extending the processed prefix by one nullifier adds exactly what that
/// nullifier is bound to.
proof fn lemma_spent_hit_split(nmap: KvMap<Vec<u8>>, nfs: Seq<Seq<u8>>, k: int, c: Seq<u8>)
    requires
        0 <= k < nfs.len(),
    ensures
        spent_hit(nmap, nfs.subrange(0, k + 1), c) == (spent_hit(nmap, nfs.subrange(0, k), c)
            || one_hit(nmap, nfs[k], c)),
{
    let pre = nfs.subrange(0, k);
    let post = nfs.subrange(0, k + 1);
    if spent_hit(nmap, post, c) {
        let i = choose|i: int|
            0 <= i < post.len() && (#[trigger] post[i]).len() == NULLIFIER_BYTES && nget(
                nmap,
                post[i],
            ) == Some(c);
        if i < k {
            assert(pre[i] == post[i]);
            assert(spent_hit(nmap, pre, c));
        } else {
            assert(post[i] == nfs[k]);
        }
    }
    if spent_hit(nmap, pre, c) {
        let i = choose|i: int|
            0 <= i < pre.len() && (#[trigger] pre[i]).len() == NULLIFIER_BYTES && nget(
                nmap,
                pre[i],
            ) == Some(c);
        assert(post[i] == pre[i]);
        assert(spent_hit(nmap, post, c));
    }
    if one_hit(nmap, nfs[k], c) {
        assert(post[k] == nfs[k]);
        assert(spent_hit(nmap, post, c));
    }
}

} // verus!
