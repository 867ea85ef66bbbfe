//! Client-side wallet state engine for a shielded, UTXO-style chain.
//!
//! The engine follows the chain by scanning compact blocks, detects and
//! decrypts notes addressed to the wallet, maintains the witnesses needed to
//! spend them, and assembles new spending transactions that balance value,
//! fee, and change.

use vstd::prelude::*;

mod bytes;
mod hexcode;
mod kvmap;
mod note;
mod keys;
mod tree;
mod block;
mod transaction;
mod state;

pub use bytes::u64_to_le_bytes;
pub use bytes::u64_from_le_bytes;
pub use hexcode::to_hex;
pub use hexcode::from_hex;
pub use kvmap::KvMap;
pub use note::Note;
pub use keys::Wallet;
pub use keys::Address;
pub use keys::derive_nullifier;
pub use tree::NoteCommitmentTree;
pub use tree::AuthPath;
pub use block::CompactBlock;
pub use block::StateFragment;
pub use transaction::Transaction;
pub use transaction::Value;
pub use transaction::Spend;
pub use transaction::Output;
pub use transaction::current_chain_id;
pub use state::ClientState;
pub use state::ClientStateHelper;

verus! {

/// Everything that can go wrong in scanning, assembly, or loading.
#[derive(Clone, Copy, Debug, PartialEq, Eq, Structural)]
pub enum WalletError {
    /// The scanned block is not the next block.
    UnexpectedBlockHeight,
    /// A fragment's note commitment does not decode.
    InvalidNoteCommitment,
    /// A fragment's ephemeral key does not decode.
    InvalidEphemeralKey,
    /// Two fragments of one block carry the same commitment.
    DuplicateCommitment,
    /// The destination address does not parse.
    InvalidAddress,
    /// No unspent note has the requested denomination.
    NoNotesOfDenomination,
    /// No unspent note of the denomination sits at the source address.
    NoNotesAtAddress,
    /// The spendable total cannot cover amount plus fee.
    InsufficientBalance { need: u64, have: u64 },
    /// A persisted state does not decode.
    SerializationError,
}

} // verus!
