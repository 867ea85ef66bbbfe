//! Wallet key material, addresses, and nullifier derivation.
//!
//! Keys are held as fixed-width byte strings. An address pairs a diversifier
//! index with the transmission key of the wallet that owns it; a nullifier
//! binds the full viewing key, the tree position of a commitment, and the
//! commitment itself, so distinct positions or commitments give distinct
//! nullifiers.

use vstd::prelude::*;

use crate::bytes::u64_le;
use crate::bytes::from_le;
use crate::bytes::u64_to_le_bytes;
use crate::bytes::u64_from_le_bytes;
use crate::bytes::clone_bytes;
use crate::bytes::bytes_range;
use crate::bytes::lemma_le_bytes_len;
use crate::bytes::lemma_le_round_trip;
use crate::hexcode::hex_of;
use crate::hexcode::from_hex;
use crate::hexcode::lemma_hex_of_injective;
use crate::note::KEY_BYTES;
use crate::note::lemma_pow256_u64;

verus! {

/// Width of a note commitment.
pub const COMMITMENT_BYTES: usize = 32;

/// Width of an ephemeral key.
pub const EPHEMERAL_KEY_BYTES: usize = 32;

/// Width of a nullifier: full viewing key, position, commitment.
pub const NULLIFIER_BYTES: usize = 72;

/// Width of an encoded address.
pub const ADDRESS_BYTES: usize = 40;

/// The nullifier announced when the note committed at `pos` as `c` is spent.
pub open spec fn nullifier_bytes(fvk: Seq<u8>, pos: u64, c: Seq<u8>) -> Seq<u8> {
    fvk + u64_le(pos) + c
}

/// Nullifiers of one wallet separate positions and commitments.
pub proof fn lemma_nullifier_injective(fvk: Seq<u8>, p1: u64, c1: Seq<u8>, p2: u64, c2: Seq<u8>)
    requires
        fvk.len() == KEY_BYTES,
        c1.len() == COMMITMENT_BYTES,
        c2.len() == COMMITMENT_BYTES,
        nullifier_bytes(fvk, p1, c1) == nullifier_bytes(fvk, p2, c2),
    ensures
        p1 == p2,
        c1 == c2,
{
    let n1 = nullifier_bytes(fvk, p1, c1);
    let n2 = nullifier_bytes(fvk, p2, c2);
    lemma_le_bytes_len(p1 as nat, 8);
    lemma_le_bytes_len(p2 as nat, 8);
    assert(n1.subrange(32, 40) =~= u64_le(p1));
    assert(n2.subrange(32, 40) =~= u64_le(p2));
    lemma_pow256_u64();
    lemma_le_round_trip(p1 as nat, 8);
    lemma_le_round_trip(p2 as nat, 8);
    assert(from_le(u64_le(p1)) == from_le(u64_le(p2)));
    assert(n1.subrange(40, 72) =~= c1);
    assert(n2.subrange(40, 72) =~= c2);
}

/// Derives the nullifier for the commitment `c` witnessed at `pos`.
pub fn derive_nullifier(fvk: &Vec<u8>, pos: u64, c: &Vec<u8>) -> (r: Vec<u8>)
    requires
        fvk@.len() == KEY_BYTES,
        c@.len() == COMMITMENT_BYTES,
    ensures
        r@ == nullifier_bytes(fvk@, pos, c@),
        r@.len() == NULLIFIER_BYTES,
{
    let mut out = clone_bytes(fvk);
    let mut p = u64_to_le_bytes(pos);
    let mut cc = clone_bytes(c);
    out.append(&mut p);
    out.append(&mut cc);
    out
}

/// The mathematical content of an address.
pub ghost struct AddressData {
    pub diversifier_index: u64,
    pub transmission_key: Seq<u8>,
}

/// A shielded receiving address.
pub struct Address {
    diversifier_index: u64,
    transmission_key: Vec<u8>,
}

impl View for Address {
    type V = AddressData;

    closed spec fn view(&self) -> AddressData {
        AddressData {
            diversifier_index: self.diversifier_index,
            transmission_key: self.transmission_key@,
        }
    }
}

/// The encoded form of an address.
pub open spec fn address_bytes(a: AddressData) -> Seq<u8> {
    u64_le(a.diversifier_index) + a.transmission_key
}

pub open spec fn address_wf(a: AddressData) -> bool {
    a.transmission_key.len() == KEY_BYTES
}

/// `s` is the hex encoding of some well-formed address.
pub open spec fn is_encoded_address(s: Seq<char>) -> bool {
    exists|d: AddressData| address_wf(d) && s == hex_of(#[trigger] address_bytes(d))
}

impl Address {
    pub open spec fn wf(self) -> bool {
        address_wf(self@)
    }

    pub fn new(diversifier_index: u64, transmission_key: Vec<u8>) -> (r: Address)
        requires
            transmission_key@.len() == KEY_BYTES,
        ensures
            r@ == (AddressData { diversifier_index, transmission_key: transmission_key@ }),
            r.wf(),
    {
        Address { diversifier_index, transmission_key }
    }

    pub fn diversifier_index(&self) -> (r: u64)
        ensures
            r == self@.diversifier_index,
    {
        self.diversifier_index
    }

    pub fn transmission_key(&self) -> (r: &Vec<u8>)
        ensures
            r@ == self@.transmission_key,
    {
        &self.transmission_key
    }

    pub fn duplicate(&self) -> (r: Address)
        ensures
            r@ == self@,
    {
        Address {
            diversifier_index: self.diversifier_index,
            transmission_key: clone_bytes(&self.transmission_key),
        }
    }

    /// Encodes the address as bytes.
    pub fn to_bytes(&self) -> (r: Vec<u8>)
        requires
            self.wf(),
        ensures
            r@ == address_bytes(self@),
            r@.len() == ADDRESS_BYTES,
    {
        let mut out = u64_to_le_bytes(self.diversifier_index);
        let mut tk = clone_bytes(&self.transmission_key);
        out.append(&mut tk);
        proof {
            lemma_le_bytes_len(self.diversifier_index as nat, 8);
        }
        out
    }

    /// Parses a hex-encoded address string; exactly the strings produced by
    /// hex-encoding a well-formed address parse.
    pub fn parse(s: &str) -> (r: Option<Address>)
        ensures
            match r {
                Some(a) => a.wf() && s@ == hex_of(address_bytes(a@)),
                None => forall|d: AddressData|
                    address_wf(d) ==> s@ != hex_of(#[trigger] address_bytes(d)),
            },
    {
        let decoded = from_hex(s);
        match decoded {
            None => {
                proof {
                    assert forall|d: AddressData| address_wf(d) implies s@ != hex_of(
                        #[trigger] address_bytes(d),
                    ) by {}
                }
                None
            },
            Some(b) => {
                if b.len() != ADDRESS_BYTES {
                    proof {
                        assert forall|d: AddressData| address_wf(d) implies s@ != hex_of(
                            #[trigger] address_bytes(d),
                        ) by {
                            if s@ == hex_of(address_bytes(d)) {
                                lemma_hex_of_injective(b@, address_bytes(d));
                                lemma_le_bytes_len(d.diversifier_index as nat, 8);
                            }
                        }
                    }
                    return None;
                }
                let diversifier_index = u64_from_le_bytes(&b, 0);
                let transmission_key = bytes_range(&b, 8, ADDRESS_BYTES);
                let a = Address { diversifier_index, transmission_key };
                proof {
                    lemma_le_bytes_len(diversifier_index as nat, 8);
                    assert(b@.subrange(0, 8) =~= b@.subrange(0int, 0int + 8));
                    lemma_pow256_u64();
                    crate::bytes::lemma_le_bytes_of_from_le(b@.subrange(0, 8), 8);
                    assert(address_bytes(a@) =~= b@);
                }
                Some(a)
            },
        }
    }
}

/// The key material of one wallet.
pub ghost struct WalletData {
    pub spend_key: Seq<u8>,
    pub full_viewing_key: Seq<u8>,
    pub incoming_viewing_key: Seq<u8>,
    pub outgoing_viewing_key: Seq<u8>,
}

/// Key material: spend key and the viewing keys derived from it.
pub struct Wallet {
    spend_key: Vec<u8>,
    full_viewing_key: Vec<u8>,
    incoming_viewing_key: Vec<u8>,
    outgoing_viewing_key: Vec<u8>,
}

impl View for Wallet {
    type V = WalletData;

    closed spec fn view(&self) -> WalletData {
        WalletData {
            spend_key: self.spend_key@,
            full_viewing_key: self.full_viewing_key@,
            incoming_viewing_key: self.incoming_viewing_key@,
            outgoing_viewing_key: self.outgoing_viewing_key@,
        }
    }
}

pub open spec fn wallet_wf(w: WalletData) -> bool {
    &&& w.spend_key.len() == KEY_BYTES
    &&& w.full_viewing_key.len() == KEY_BYTES
    &&& w.incoming_viewing_key.len() == KEY_BYTES
    &&& w.outgoing_viewing_key.len() == KEY_BYTES
}

impl Wallet {
    pub open spec fn wf(self) -> bool {
        wallet_wf(self@)
    }

    pub fn new(
        spend_key: Vec<u8>,
        full_viewing_key: Vec<u8>,
        incoming_viewing_key: Vec<u8>,
        outgoing_viewing_key: Vec<u8>,
    ) -> (r: Wallet)
        requires
            spend_key@.len() == KEY_BYTES,
            full_viewing_key@.len() == KEY_BYTES,
            incoming_viewing_key@.len() == KEY_BYTES,
            outgoing_viewing_key@.len() == KEY_BYTES,
        ensures
            r@ == (WalletData {
                spend_key: spend_key@,
                full_viewing_key: full_viewing_key@,
                incoming_viewing_key: incoming_viewing_key@,
                outgoing_viewing_key: outgoing_viewing_key@,
            }),
            r.wf(),
    {
        Wallet { spend_key, full_viewing_key, incoming_viewing_key, outgoing_viewing_key }
    }

    pub fn spend_key(&self) -> (r: &Vec<u8>)
        ensures
            r@ == self@.spend_key,
    {
        &self.spend_key
    }

    pub fn full_viewing_key(&self) -> (r: &Vec<u8>)
        ensures
            r@ == self@.full_viewing_key,
    {
        &self.full_viewing_key
    }

    pub fn incoming_viewing_key(&self) -> (r: &Vec<u8>)
        ensures
            r@ == self@.incoming_viewing_key,
    {
        &self.incoming_viewing_key
    }

    pub fn outgoing_viewing_key(&self) -> (r: &Vec<u8>)
        ensures
            r@ == self@.outgoing_viewing_key,
    {
        &self.outgoing_viewing_key
    }

    pub fn duplicate(&self) -> (r: Wallet)
        ensures
            r@ == self@,
    {
        Wallet {
            spend_key: clone_bytes(&self.spend_key),
            full_viewing_key: clone_bytes(&self.full_viewing_key),
            incoming_viewing_key: clone_bytes(&self.incoming_viewing_key),
            outgoing_viewing_key: clone_bytes(&self.outgoing_viewing_key),
        }
    }

    /// The receiving address at a diversifier index: that index under this
    /// wallet's incoming viewing key.
    pub fn address_by_index(&self, index: u64) -> (r: Address)
        requires
            self.wf(),
        ensures
            r@ == (AddressData {
                diversifier_index: index,
                transmission_key: self@.incoming_viewing_key,
            }),
            r.wf(),
    {
        Address::new(index, clone_bytes(&self.incoming_viewing_key))
    }
}

} // verus!
