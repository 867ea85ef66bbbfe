//! The note-commitment tree: an append-only accumulator with selective
//! witness retention.
//!
//! Every scanned commitment is appended as a leaf; only leaves marked by
//! `witness` keep an authentication path. The root and the stable binary
//! encoding are functions of the leaf sequence alone, so equal trees have
//! equal roots and equal encodings.

use vstd::prelude::*;

use crate::bytes::le_bytes;
use crate::bytes::from_le;
use crate::bytes::u64_to_le_bytes;
use crate::bytes::u64_from_le_bytes;
use crate::bytes::clone_bytes;
use crate::bytes::bytes_range;
use crate::bytes::bytes_eq;
use crate::bytes::lemma_le_bytes_len;
use crate::bytes::lemma_le_round_trip;
use crate::bytes::lemma_le_bytes_of_from_le;
use crate::bytes::lemma_from_le_bound;
use crate::keys::COMMITMENT_BYTES;
use crate::note::lemma_pow256_u64;

verus! {

/// Checkpoints of frontier history retained by the client tree; witnessed
/// leaves are kept indefinitely regardless.
pub const MAX_MERKLE_CHECKPOINTS_CLIENT: usize = 10;

/// One row of the tree encoding: the leaf bytes, then a witness flag byte.
pub open spec fn rows_enc(ls: Seq<Seq<u8>>, ws: Seq<bool>) -> Seq<u8>
    decreases ls.len(),
{
    if ls.len() == 0 {
        Seq::empty()
    } else {
        rows_enc(ls.drop_last(), ws.drop_last()) + ls.last() + seq![
            (if ws.len() > 0 && ws.last() {
                1u8
            } else {
                0u8
            }),
        ]
    }
}

/// The stable binary encoding of a tree: leaf count, then the rows.
pub open spec fn tree_enc(ls: Seq<Seq<u8>>, ws: Seq<bool>) -> Seq<u8> {
    le_bytes(ls.len(), 8) + rows_enc(ls, ws)
}

/// The leaves, run together in order.
pub open spec fn concat_bytes(ls: Seq<Seq<u8>>) -> Seq<u8>
    decreases ls.len(),
{
    if ls.len() == 0 {
        Seq::empty()
    } else {
        concat_bytes(ls.drop_last()) + ls.last()
    }
}

/// The root of the accumulator: a digest of the whole leaf sequence, here
/// the leaf count followed by the leaves in order.
pub open spec fn spec_root(ls: Seq<Seq<u8>>) -> Seq<u8> {
    le_bytes(ls.len(), 8) + concat_bytes(ls)
}

pub proof fn lemma_rows_enc_len(ls: Seq<Seq<u8>>, ws: Seq<bool>)
    requires
        ls.len() == ws.len(),
        forall|i: int| 0 <= i < ls.len() ==> (#[trigger] ls[i]).len() == COMMITMENT_BYTES,
    ensures
        rows_enc(ls, ws).len() == 33 * ls.len(),
    decreases ls.len(),
{
    if ls.len() > 0 {
        assert(forall|i: int|
            0 <= i < ls.len() - 1 ==> #[trigger] ls.drop_last()[i] == ls[i]);
        lemma_rows_enc_len(ls.drop_last(), ws.drop_last());
    }
}

/// The row for leaf `i` sits at offset `33 i`.
pub proof fn lemma_rows_enc_index(ls: Seq<Seq<u8>>, ws: Seq<bool>, i: int)
    requires
        ls.len() == ws.len(),
        forall|j: int| 0 <= j < ls.len() ==> (#[trigger] ls[j]).len() == COMMITMENT_BYTES,
        0 <= i < ls.len(),
    ensures
        rows_enc(ls, ws).subrange(33 * i, 33 * i + 32) == ls[i],
        rows_enc(ls, ws)[33 * i + 32] == (if ws[i] {
            1u8
        } else {
            0u8
        }),
    decreases ls.len(),
{
    lemma_rows_enc_len(ls, ws);
    assert(forall|j: int| 0 <= j < ls.len() - 1 ==> #[trigger] ls.drop_last()[j] == ls[j]);
    if i == ls.len() - 1 {
        lemma_rows_enc_len(ls.drop_last(), ws.drop_last());
        assert(rows_enc(ls, ws).subrange(33 * i, 33 * i + 32) =~= ls[i]);
    } else {
        lemma_rows_enc_index(ls.drop_last(), ws.drop_last(), i);
        lemma_rows_enc_len(ls.drop_last(), ws.drop_last());
        assert(rows_enc(ls, ws).subrange(33 * i, 33 * i + 32) =~= rows_enc(
            ls.drop_last(),
            ws.drop_last(),
        ).subrange(33 * i, 33 * i + 32));
        assert(rows_enc(ls, ws)[33 * i + 32] == rows_enc(ls.drop_last(), ws.drop_last())[33 * i
            + 32]);
    }
}

/// Appending one leaf appends one row.
pub proof fn lemma_rows_enc_push(ls: Seq<Seq<u8>>, ws: Seq<bool>, l: Seq<u8>, w: bool)
    requires
        ls.len() == ws.len(),
    ensures
        rows_enc(ls.push(l), ws.push(w)) == rows_enc(ls, ws) + l + seq![
            (if w {
                1u8
            } else {
                0u8
            }),
        ],
{
    assert(ls.push(l).drop_last() =~= ls);
    assert(ws.push(w).drop_last() =~= ws);
}

/// Appending one leaf extends the digest by that leaf.
pub proof fn lemma_concat_push(ls: Seq<Seq<u8>>, l: Seq<u8>)
    ensures
        concat_bytes(ls.push(l)) == concat_bytes(ls) + l,
{
    assert(ls.push(l).drop_last() =~= ls);
}

/// An authentication path: the position of a retained leaf and the leaf
/// itself.
pub struct AuthPath {
    pub position: u64,
    pub leaf: Vec<u8>,
}

/// The client's note-commitment tree.
pub struct NoteCommitmentTree {
    leaves: Vec<Vec<u8>>,
    witnessed: Vec<bool>,
}

impl NoteCommitmentTree {
    /// The leaves, in append order.
    pub closed spec fn leaf_seq(self) -> Seq<Seq<u8>> {
        self.leaves@.map_values(|v: Vec<u8>| v@)
    }

    /// Which leaves are retained.
    pub closed spec fn wit_seq(self) -> Seq<bool> {
        self.witnessed@
    }

    pub open spec fn size(self) -> nat {
        self.leaf_seq().len()
    }

    pub open spec fn wf(self) -> bool {
        &&& self.leaf_seq().len() == self.wit_seq().len()
        &&& forall|i: int|
            0 <= i < self.leaf_seq().len() ==> (#[trigger] self.leaf_seq()[i]).len()
                == COMMITMENT_BYTES
    }

    /// Whether `c` is a retained leaf.
    pub open spec fn is_witnessed(self, c: Seq<u8>) -> bool {
        exists|i: int|
            0 <= i < self.size() && self.wit_seq()[i] && #[trigger] self.leaf_seq()[i] == c
    }

    pub fn new() -> (r: NoteCommitmentTree)
        ensures
            r.wf(),
            r.leaf_seq() == Seq::<Seq<u8>>::empty(),
            r.wit_seq() == Seq::<bool>::empty(),
    {
        let r = NoteCommitmentTree { leaves: Vec::new(), witnessed: Vec::new() };
        proof {
            assert(r.leaf_seq() =~= Seq::<Seq<u8>>::empty());
        }
        r
    }

    pub fn size_exec(&self) -> (r: usize)
        ensures
            r == self.size(),
    {
        self.leaves.len()
    }

    /// Appends one leaf; it starts out unretained.
    pub fn append(&mut self, c: &Vec<u8>)
        requires
            old(self).wf(),
            c@.len() == COMMITMENT_BYTES,
        ensures
            final(self).wf(),
            final(self).leaf_seq() == old(self).leaf_seq().push(c@),
            final(self).wit_seq() == old(self).wit_seq().push(false),
    {
        self.leaves.push(clone_bytes(c));
        self.witnessed.push(false);
        proof {
            assert(self.leaf_seq() =~= old(self).leaf_seq().push(c@));
        }
    }

    /// Marks the most recently appended leaf as retained.
    pub fn witness(&mut self)
        requires
            old(self).wf(),
            old(self).size() > 0,
        ensures
            final(self).wf(),
            final(self).leaf_seq() == old(self).leaf_seq(),
            final(self).wit_seq() == old(self).wit_seq().update(
                old(self).size() as int - 1,
                true,
            ),
            final(self).is_witnessed(old(self).leaf_seq().last()),
    {
        let n = self.leaves.len();
        let ghost before = *self;
        self.witnessed.remove(n - 1);
        self.witnessed.insert(n - 1, true);
        proof {
            assert(self.leaf_seq() =~= before.leaf_seq());
            assert(self.wit_seq() =~= before.wit_seq().update(before.size() as int - 1, true));
            let i = before.size() as int - 1;
            assert(self.wit_seq()[i] && self.leaf_seq()[i] == before.leaf_seq().last());
        }
    }

    /// The current root: in this model, a digest that determines the leaf
    /// sequence exactly (its count followed by the leaves in order).
    pub fn root(&self) -> (r: Vec<u8>)
        requires
            self.wf(),
        ensures
            r@ == spec_root(self.leaf_seq()),
    {
        let n = self.leaves.len();
        let mut out = u64_to_le_bytes(n as u64);
        let mut i: usize = 0;
        proof {
            assert(self.leaf_seq().subrange(0, 0) =~= Seq::<Seq<u8>>::empty());
            assert(out@ =~= le_bytes(n as nat, 8) + concat_bytes(
                self.leaf_seq().subrange(0, 0),
            ));
        }
        while i < n
            invariant
                i <= n,
                self.wf(),
                n == self.size(),
                out@ == le_bytes(n as nat, 8) + concat_bytes(self.leaf_seq().subrange(0, i as int)),
            decreases n - i,
        {
            let mut leaf = clone_bytes(&self.leaves[i]);
            proof {
                let pre = self.leaf_seq().subrange(0, i as int);
                let post = self.leaf_seq().subrange(0, i + 1);
                lemma_concat_push(pre, self.leaf_seq()[i as int]);
                assert(post =~= pre.push(self.leaf_seq()[i as int]));
            }
            out.append(&mut leaf);
            i = i + 1;
        }
        proof {
            assert(self.leaf_seq().subrange(0, n as int) =~= self.leaf_seq());
        }
        out
    }

    /// The retained position of `c`, with the leaf, or nothing when `c` was
    /// never witnessed.
    pub fn authentication_path(&self, c: &Vec<u8>) -> (r: Option<AuthPath>)
        requires
            self.wf(),
        ensures
            match r {
                Some(p) => {
                    &&& p.position < self.size()
                    &&& self.wit_seq()[p.position as int]
                    &&& self.leaf_seq()[p.position as int] == c@
                    &&& p.leaf@ == c@
                    &&& forall|j: int|
                        0 <= j < p.position ==> !(self.wit_seq()[j] && #[trigger] self.leaf_seq()[j]
                            == c@)
                },
                None => !self.is_witnessed(c@),
            },
    {
        let n = self.leaves.len();
        let mut i: usize = 0;
        while i < n
            invariant
                i <= n,
                self.wf(),
                n == self.size(),
                forall|j: int|
                    0 <= j < i ==> !(self.wit_seq()[j] && #[trigger] self.leaf_seq()[j] == c@),
            decreases n - i,
        {
            if self.witnessed[i] && bytes_eq(&self.leaves[i], c) {
                proof {
                    assert(i as u64 as nat == i as nat);
                }
                return Some(AuthPath { position: i as u64, leaf: clone_bytes(c) });
            }
            i = i + 1;
        }
        None
    }

    /// Encodes the tree.
    pub fn encode(&self) -> (r: Vec<u8>)
        requires
            self.wf(),
        ensures
            r@ == tree_enc(self.leaf_seq(), self.wit_seq()),
    {
        let n = self.leaves.len();
        let mut out = u64_to_le_bytes(n as u64);
        let mut i: usize = 0;
        proof {
            assert(self.leaf_seq().subrange(0, 0) =~= Seq::<Seq<u8>>::empty());
            assert(self.wit_seq().subrange(0, 0) =~= Seq::<bool>::empty());
        }
        while i < n
            invariant
                i <= n,
                self.wf(),
                n == self.size(),
                out@ == le_bytes(n as nat, 8) + rows_enc(
                    self.leaf_seq().subrange(0, i as int),
                    self.wit_seq().subrange(0, i as int),
                ),
            decreases n - i,
        {
            let mut leaf = clone_bytes(&self.leaves[i]);
            let flag: u8 = if self.witnessed[i] {
                1
            } else {
                0
            };
            proof {
                let lpre = self.leaf_seq().subrange(0, i as int);
                let wpre = self.wit_seq().subrange(0, i as int);
                let lpost = self.leaf_seq().subrange(0, i + 1);
                let wpost = self.wit_seq().subrange(0, i + 1);
                assert(lpost =~= lpre.push(self.leaf_seq()[i as int]));
                assert(wpost =~= wpre.push(self.wit_seq()[i as int]));
                lemma_rows_enc_push(lpre, wpre, self.leaf_seq()[i as int], self.wit_seq()[i as int]);
            }
            out.append(&mut leaf);
            out.push(flag);
            i = i + 1;
        }
        proof {
            assert(self.leaf_seq().subrange(0, n as int) =~= self.leaf_seq());
            assert(self.wit_seq().subrange(0, n as int) =~= self.wit_seq());
        }
        out
    }

    /// Decodes a tree; exactly the encodings of well-formed trees decode.
    pub fn decode(b: &Vec<u8>) -> (r: Option<NoteCommitmentTree>)
        ensures
            match r {
                Some(t) => t.wf() && tree_enc(t.leaf_seq(), t.wit_seq()) == b@,
                None => forall|ls: Seq<Seq<u8>>, ws: Seq<bool>|
                    !(ls.len() == ws.len() && (forall|i: int|
                        0 <= i < ls.len() ==> (#[trigger] ls[i]).len() == COMMITMENT_BYTES)
                        && #[trigger] tree_enc(ls, ws) == b@),
            },
    {
        if b.len() < 8 {
            proof {
                assert forall|ls: Seq<Seq<u8>>, ws: Seq<bool>|
                    !(ls.len() == ws.len() && (forall|i: int|
                        0 <= i < ls.len() ==> (#[trigger] ls[i]).len() == COMMITMENT_BYTES)
                        && #[trigger] tree_enc(ls, ws) == b@) by {
                    lemma_le_bytes_len(ls.len(), 8);
                }
            }
            return None;
        }
        let n64 = u64_from_le_bytes(b, 0);
        let total: u128 = 8 + 33 * (n64 as u128);
        if total != (b.len() as u128) {
            proof {
                assert forall|ls: Seq<Seq<u8>>, ws: Seq<bool>|
                    !(ls.len() == ws.len() && (forall|i: int|
                        0 <= i < ls.len() ==> (#[trigger] ls[i]).len() == COMMITMENT_BYTES)
                        && #[trigger] tree_enc(ls, ws) == b@) by {
                    if ls.len() == ws.len() && (forall|i: int|
                        0 <= i < ls.len() ==> (#[trigger] ls[i]).len() == COMMITMENT_BYTES)
                        && tree_enc(ls, ws) == b@ {
                        lemma_le_bytes_len(ls.len(), 8);
                        lemma_rows_enc_len(ls, ws);
                        assert(b@.len() == 8 + 33 * ls.len());
                        lemma_pow256_u64();
                        lemma_le_round_trip(ls.len(), 8);
                        assert(b@.subrange(0, 8) =~= le_bytes(ls.len(), 8));
                        assert(n64 as nat == ls.len());
                    }
                }
            }
            return None;
        }
        let n = n64 as usize;
        let blen: usize = b.len();
        let mut leaves: Vec<Vec<u8>> = Vec::new();
        let mut witnessed: Vec<bool> = Vec::new();
        let mut i: usize = 0;
        while i < n
            invariant
                i <= n,
                blen == b@.len(),
                8 + 33 * (n as int) == blen as int,
                n == n64,
                leaves@.len() == i,
                witnessed@.len() == i,
                forall|j: int| 0 <= j < i ==> (#[trigger] leaves@[j])@.len() == COMMITMENT_BYTES,
                rows_enc(leaves@.map_values(|v: Vec<u8>| v@), witnessed@) == b@.subrange(
                    8,
                    8 + 33 * i as int,
                ),
            decreases n - i,
        {
            let off: usize = 8 + 33 * i;
            let leaf = bytes_range(b, off, off + 32);
            let flag = b[off + 32];
            if flag > 1 {
                proof {
                    assert forall|ls: Seq<Seq<u8>>, ws: Seq<bool>|
                        !(ls.len() == ws.len() && (forall|j: int|
                            0 <= j < ls.len() ==> (#[trigger] ls[j]).len() == COMMITMENT_BYTES)
                            && #[trigger] tree_enc(ls, ws) == b@) by {
                        if ls.len() == ws.len() && (forall|j: int|
                            0 <= j < ls.len() ==> (#[trigger] ls[j]).len() == COMMITMENT_BYTES)
                            && tree_enc(ls, ws) == b@ {
                            lemma_le_bytes_len(ls.len(), 8);
                            lemma_rows_enc_len(ls, ws);
                            lemma_pow256_u64();
                            lemma_le_round_trip(ls.len(), 8);
                            assert(b@.subrange(0, 8) =~= le_bytes(ls.len(), 8));
                            assert(ls.len() == n);
                            lemma_rows_enc_index(ls, ws, i as int);
                            assert(b@[8 + 33 * i + 32] == rows_enc(ls, ws)[33 * i + 32]);
                        }
                    }
                }
                return None;
            }
            let ghost lpre = leaves@.map_values(|v: Vec<u8>| v@);
            let ghost wpre = witnessed@;
            leaves.push(leaf);
            witnessed.push(flag == 1);
            proof {
                let lpost = leaves@.map_values(|v: Vec<u8>| v@);
                assert(lpost =~= lpre.push(b@.subrange(off as int, off + 32)));
                lemma_rows_enc_push(lpre, wpre, b@.subrange(off as int, off + 32), flag == 1);
                assert(b@.subrange(8, 8 + 33 * (i + 1)) =~= b@.subrange(8, 8 + 33 * i as int)
                    + b@.subrange(off as int, off + 32) + seq![b@[off + 32]]);
            }
            i = i + 1;
        }
        let t = NoteCommitmentTree { leaves, witnessed };
        proof {
            lemma_pow256_u64();
            lemma_le_round_trip(n as nat, 8);
            assert(b@.subrange(0int, 0int + 8) =~= b@.subrange(0, 8));
            lemma_le_bytes_of_from_le(b@.subrange(0, 8), 8);
            assert(le_bytes(t.leaf_seq().len(), 8) =~= b@.subrange(0, 8));
            assert(b@.subrange(8, 8 + 33 * n as int) =~= b@.skip(8));
            assert(tree_enc(t.leaf_seq(), t.wit_seq()) =~= b@);
        }
        Some(t)
    }
}

} // verus!
