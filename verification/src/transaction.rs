//! Assembled spending transactions.
//!
//! A transaction is anchored at a tree root and spends a set of witnessed
//! notes against it, paying a destination output, a change output, and a
//! fee. The declared spent amount always equals amount plus fee plus change.

use vstd::prelude::*;

use crate::note::Note;
use crate::note::NoteData;
use crate::keys::Address;
use crate::keys::AddressData;

verus! {

/// Width of a memo.
pub const MEMO_BYTES: usize = 512;

/// The mathematical content of a value.
pub ghost struct ValueData {
    pub amount: u64,
    pub asset_id: Seq<u8>,
}

/// An amount of one asset.
pub struct Value {
    pub amount: u64,
    pub asset_id: Vec<u8>,
}

impl View for Value {
    type V = ValueData;

    open spec fn view(&self) -> ValueData {
        ValueData { amount: self.amount, asset_id: self.asset_id@ }
    }
}

/// The mathematical content of a spend.
pub ghost struct SpendData {
    pub note: NoteData,
    pub position: u64,
}

/// One spent note together with the tree position its proof opens at.
pub struct Spend {
    pub note: Note,
    pub position: u64,
}

impl View for Spend {
    type V = SpendData;

    open spec fn view(&self) -> SpendData {
        SpendData { note: self.note@, position: self.position }
    }
}

/// The mathematical content of an output.
pub ghost struct OutputData {
    pub destination: AddressData,
    pub value: ValueData,
    pub memo: Seq<u8>,
}

/// One created note: destination, value, memo.
pub struct Output {
    pub destination: Address,
    pub value: Value,
    pub memo: Vec<u8>,
}

impl View for Output {
    type V = OutputData;

    open spec fn view(&self) -> OutputData {
        OutputData { destination: self.destination@, value: self.value@, memo: self.memo@ }
    }
}

/// The mathematical content of a transaction.
pub ghost struct TransactionData {
    pub anchor: Seq<u8>,
    pub chain_id: Seq<char>,
    pub fee: u64,
    pub spends: Seq<SpendData>,
    pub outputs: Seq<OutputData>,
}

/// An assembled transaction.
pub struct Transaction {
    pub anchor: Vec<u8>,
    pub chain_id: String,
    pub fee: u64,
    pub spends: Vec<Spend>,
    pub outputs: Vec<Output>,
}

impl View for Transaction {
    type V = TransactionData;

    open spec fn view(&self) -> TransactionData {
        TransactionData {
            anchor: self.anchor@,
            chain_id: self.chain_id@,
            fee: self.fee,
            spends: self.spends@.map_values(|s: Spend| s@),
            outputs: self.outputs@.map_values(|o: Output| o@),
        }
    }
}

/// The declared spent amount: the sum over the spent notes.
pub open spec fn spend_total(spends: Seq<SpendData>) -> int
    decreases spends.len(),
{
    if spends.len() == 0 {
        0
    } else {
        spend_total(spends.drop_last()) + spends.last().note.amount
    }
}

/// The chain this client assembles transactions for.
pub open spec fn spec_chain_id() -> Seq<char> {
    "penumbra-valetudo"@
}

/// The compile-time chain identifier.
pub fn current_chain_id() -> (r: String)
    ensures
        r@ == spec_chain_id(),
{
    "penumbra-valetudo".to_owned()
}

/// An all-zero memo.
pub open spec fn zero_memo() -> Seq<u8> {
    Seq::new(MEMO_BYTES as nat, |i: int| 0u8)
}

/// Builds the all-zero memo.
pub fn make_zero_memo() -> (r: Vec<u8>)
    ensures
        r@ == zero_memo(),
{
    let mut out: Vec<u8> = Vec::new();
    let mut i: usize = 0;
    while i < MEMO_BYTES
        invariant
            i <= MEMO_BYTES,
            out@.len() == i,
            forall|j: int| 0 <= j < i ==> out@[j] == 0u8,
        decreases MEMO_BYTES - i,
    {
        out.push(0u8);
        i = i + 1;
    }
    proof {
        assert(out@ =~= zero_memo());
    }
    out
}

} // verus!
