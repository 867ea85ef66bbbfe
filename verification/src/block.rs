//! Compact blocks: the per-block data a light client needs.

use vstd::prelude::*;

verus! {

/// The mathematical content of a state fragment.
pub ghost struct FragmentData {
    pub note_commitment: Seq<u8>,
    pub ephemeral_key: Seq<u8>,
    pub encrypted_note: Seq<u8>,
}

/// One published note: its commitment, the ephemeral key of its encryption,
/// and the encrypted note itself.
pub struct StateFragment {
    pub note_commitment: Vec<u8>,
    pub ephemeral_key: Vec<u8>,
    pub encrypted_note: Vec<u8>,
}

impl View for StateFragment {
    type V = FragmentData;

    open spec fn view(&self) -> FragmentData {
        FragmentData {
            note_commitment: self.note_commitment@,
            ephemeral_key: self.ephemeral_key@,
            encrypted_note: self.encrypted_note@,
        }
    }
}

/// The mathematical content of a compact block.
pub ghost struct BlockData {
    pub height: u32,
    pub fragments: Seq<FragmentData>,
    pub nullifiers: Seq<Seq<u8>>,
}

/// A compact block: height, published fragments, and revealed nullifiers.
pub struct CompactBlock {
    pub height: u32,
    pub fragments: Vec<StateFragment>,
    pub nullifiers: Vec<Vec<u8>>,
}

impl View for CompactBlock {
    type V = BlockData;

    open spec fn view(&self) -> BlockData {
        BlockData {
            height: self.height,
            fragments: self.fragments@.map_values(|f: StateFragment| f@),
            nullifiers: self.nullifiers@.map_values(|v: Vec<u8>| v@),
        }
    }
}

} // verus!
