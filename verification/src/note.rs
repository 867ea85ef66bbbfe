//! Notes: shielded units of value, and the byte model of their encryption.
//!
//! A note carries the values the engine reads: asset id, amount, and the
//! diversifier index of the receiving address. Its byte encoding and the
//! trial-decryption rule are fixed here; a payload decrypts under an
//! incoming viewing key exactly when it opens with that key's bytes.

use vstd::prelude::*;

use crate::bytes::u64_le;
use crate::bytes::from_le;
use crate::bytes::pow256;
use crate::bytes::u64_to_le_bytes;
use crate::bytes::u64_from_le_bytes;
use crate::bytes::clone_bytes;
use crate::bytes::bytes_range;
use crate::bytes::lemma_le_bytes_len;
use crate::bytes::lemma_le_round_trip;
use crate::bytes::lemma_from_le_bound;
use crate::bytes::bytes_eq;

verus! {

/// Width of an asset identifier.
pub const ASSET_ID_BYTES: usize = 32;

/// Width of a viewing-key tag.
pub const KEY_BYTES: usize = 32;

/// Width of an encoded note.
pub const NOTE_BYTES: usize = 48;

/// Width of an encrypted note payload.
pub const CIPHERTEXT_BYTES: usize = 80;

/// The mathematical content of a note.
pub ghost struct NoteData {
    pub asset_id: Seq<u8>,
    pub amount: u64,
    pub diversifier_index: u64,
}

/// A shielded unit of value.
pub struct Note {
    asset_id: Vec<u8>,
    amount: u64,
    diversifier_index: u64,
}

impl View for Note {
    type V = NoteData;

    closed spec fn view(&self) -> NoteData {
        NoteData {
            asset_id: self.asset_id@,
            amount: self.amount,
            diversifier_index: self.diversifier_index,
        }
    }
}

/// The encoded form of a note: asset id, then amount, then diversifier
/// index, both integers little-endian.
pub open spec fn note_bytes(n: NoteData) -> Seq<u8> {
    n.asset_id + u64_le(n.amount) + u64_le(n.diversifier_index)
}

pub open spec fn note_wf(n: NoteData) -> bool {
    n.asset_id.len() == ASSET_ID_BYTES
}

/// The note encoded in `b`, when `b` has the right width.
pub open spec fn spec_note_from_bytes(b: Seq<u8>) -> Option<NoteData> {
    if b.len() == NOTE_BYTES {
        Some(
            NoteData {
                asset_id: b.subrange(0, 32),
                amount: from_le(b.subrange(32, 40)) as u64,
                diversifier_index: from_le(b.subrange(40, 48)) as u64,
            },
        )
    } else {
        None
    }
}

/// Decoding inverts encoding on well-formed notes.
pub proof fn lemma_note_codec_round_trip(n: NoteData)
    requires
        note_wf(n),
    ensures
        note_bytes(n).len() == NOTE_BYTES,
        spec_note_from_bytes(note_bytes(n)) == Some(n),
{
    let b = note_bytes(n);
    lemma_le_bytes_len(n.amount as nat, 8);
    lemma_le_bytes_len(n.diversifier_index as nat, 8);
    assert(b.subrange(0, 32) =~= n.asset_id);
    assert(b.subrange(32, 40) =~= u64_le(n.amount));
    assert(b.subrange(40, 48) =~= u64_le(n.diversifier_index));
    lemma_pow256_u64();
    lemma_le_round_trip(n.amount as nat, 8);
    lemma_le_round_trip(n.diversifier_index as nat, 8);
}

/// 256 to the eighth is two to the sixty-fourth.
pub proof fn lemma_pow256_u64()
    ensures
        pow256(8) == 0x1_0000_0000_0000_0000,
{
    reveal_with_fuel(pow256, 9);
}

/// A payload encrypted to `key`: the key bytes, then the encoded note.
pub open spec fn encrypted_note_bytes(key: Seq<u8>, n: NoteData) -> Seq<u8> {
    key + note_bytes(n)
}

/// The note that `ct` opens to under `key`, if any.
pub open spec fn spec_decrypt(ct: Seq<u8>, key: Seq<u8>) -> Option<NoteData> {
    if ct.len() == CIPHERTEXT_BYTES && ct.subrange(0, KEY_BYTES as int) == key {
        spec_note_from_bytes(ct.subrange(KEY_BYTES as int, CIPHERTEXT_BYTES as int))
    } else {
        None
    }
}

impl Note {
    pub open spec fn wf(self) -> bool {
        note_wf(self@)
    }

    pub fn new(asset_id: Vec<u8>, amount: u64, diversifier_index: u64) -> (r: Note)
        requires
            asset_id@.len() == ASSET_ID_BYTES,
        ensures
            r@ == (NoteData { asset_id: asset_id@, amount, diversifier_index }),
            r.wf(),
    {
        Note { asset_id, amount, diversifier_index }
    }

    pub fn asset_id(&self) -> (r: &Vec<u8>)
        ensures
            r@ == self@.asset_id,
    {
        &self.asset_id
    }

    pub fn amount(&self) -> (r: u64)
        ensures
            r == self@.amount,
    {
        self.amount
    }

    pub fn diversifier_index(&self) -> (r: u64)
        ensures
            r == self@.diversifier_index,
    {
        self.diversifier_index
    }

    /// Copies the note.
    pub fn duplicate(&self) -> (r: Note)
        ensures
            r@ == self@,
    {
        Note {
            asset_id: clone_bytes(&self.asset_id),
            amount: self.amount,
            diversifier_index: self.diversifier_index,
        }
    }

    /// Encodes the note.
    pub fn to_bytes(&self) -> (r: Vec<u8>)
        requires
            self.wf(),
        ensures
            r@ == note_bytes(self@),
            r@.len() == NOTE_BYTES,
    {
        let mut out = clone_bytes(&self.asset_id);
        let mut amt = u64_to_le_bytes(self.amount);
        let mut idx = u64_to_le_bytes(self.diversifier_index);
        out.append(&mut amt);
        out.append(&mut idx);
        out
    }

    /// Decodes a note; exactly the strings of the note width decode.
    pub fn from_bytes(b: &Vec<u8>) -> (r: Option<Note>)
        ensures
            match r {
                Some(n) => spec_note_from_bytes(b@) == Some(n@) && n.wf(),
                None => spec_note_from_bytes(b@) == None::<NoteData>,
            },
    {
        if b.len() != NOTE_BYTES {
            return None;
        }
        let asset_id = bytes_range(b, 0, 32);
        let amount = u64_from_le_bytes(b, 32);
        let diversifier_index = u64_from_le_bytes(b, 40);
        proof {
            assert(b@.subrange(32int, 32int + 8) =~= b@.subrange(32, 40));
            assert(b@.subrange(40int, 40int + 8) =~= b@.subrange(40, 48));
        }
        Some(Note { asset_id, amount, diversifier_index })
    }

    /// The payload of the note encrypted to `key`; it opens back to the note.
    pub fn encrypt(&self, key: &Vec<u8>) -> (r: Vec<u8>)
        requires
            self.wf(),
            key@.len() == KEY_BYTES,
        ensures
            r@ == encrypted_note_bytes(key@, self@),
            spec_decrypt(r@, key@) == Some(self@),
    {
        let mut out = clone_bytes(key);
        let mut body = self.to_bytes();
        out.append(&mut body);
        proof {
            assert(out@.subrange(0, KEY_BYTES as int) =~= key@);
            assert(out@.subrange(KEY_BYTES as int, CIPHERTEXT_BYTES as int) =~= note_bytes(self@));
            lemma_note_codec_round_trip(self@);
        }
        out
    }

    /// Attempts trial decryption of `ct` under the viewing key `key`.
    pub fn try_decrypt(ct: &Vec<u8>, key: &Vec<u8>) -> (r: Option<Note>)
        requires
            key@.len() == KEY_BYTES,
        ensures
            match r {
                Some(n) => spec_decrypt(ct@, key@) == Some(n@) && n.wf(),
                None => spec_decrypt(ct@, key@) == None::<NoteData>,
            },
    {
        if ct.len() != CIPHERTEXT_BYTES {
            return None;
        }
        let head = bytes_range(ct, 0, KEY_BYTES);
        if !bytes_eq(&head, key) {
            return None;
        }
        let body = bytes_range(ct, KEY_BYTES, CIPHERTEXT_BYTES);
        match Note::from_bytes(&body) {
            Some(n) => Some(n),
            None => None,
        }
    }
}

} // verus!
