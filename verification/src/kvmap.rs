//! Sorted association maps keyed by byte strings.
//!
//! The state store keeps its maps as vectors of entries in strictly
//! ascending lexicographic key order, which both gives unique keys and fixes
//! the iteration order that the serialization bridge relies on.

use vstd::prelude::*;

use crate::bytes::lex_lt;
use crate::bytes::lemma_lex_trichotomy;
use crate::bytes::lemma_lex_transitive;
use crate::bytes::bytes_eq;
use crate::bytes::bytes_lt;

verus! {

/// The value for `k` among `s`, first match first.
pub open spec fn seq_get<V>(s: Seq<(Vec<u8>, V)>, k: Seq<u8>) -> Option<V>
    decreases s.len(),
{
    if s.len() == 0 {
        None
    } else if s[0].0@ == k {
        Some(s[0].1)
    } else {
        seq_get(s.drop_first(), k)
    }
}

pub proof fn lemma_seq_get_found<V>(s: Seq<(Vec<u8>, V)>, k: Seq<u8>, i: int)
    requires
        0 <= i < s.len(),
        s[i].0@ == k,
        forall|j: int| 0 <= j < i ==> s[j].0@ != k,
    ensures
        seq_get(s, k) == Some(s[i].1),
    decreases s.len(),
{
    if i > 0 {
        assert(s.drop_first()[i - 1] == s[i]);
        assert(forall|j: int| 0 <= j < i - 1 ==> s.drop_first()[j] == s[j + 1]);
        lemma_seq_get_found(s.drop_first(), k, i - 1);
    }
}

pub proof fn lemma_seq_get_absent<V>(s: Seq<(Vec<u8>, V)>, k: Seq<u8>)
    requires
        forall|j: int| 0 <= j < s.len() ==> s[j].0@ != k,
    ensures
        seq_get(s, k) == None::<V>,
    decreases s.len(),
{
    if s.len() > 0 {
        assert(forall|j: int| 0 <= j < s.len() - 1 ==> s.drop_first()[j] == s[j + 1]);
        lemma_seq_get_absent(s.drop_first(), k);
    }
}

/// If `k` maps to something, some entry holds it.
pub proof fn lemma_seq_get_witness<V>(s: Seq<(Vec<u8>, V)>, k: Seq<u8>)
    requires
        seq_get(s, k) is Some,
    ensures
        exists|i: int|
            0 <= i < s.len() && #[trigger] s[i].0@ == k && seq_get(s, k) == Some(s[i].1),
    decreases s.len(),
{
    if s[0].0@ == k {
        assert(s[0].0@ == k);
    } else {
        lemma_seq_get_witness(s.drop_first(), k);
        let i = choose|i: int|
            0 <= i < s.drop_first().len() && #[trigger] s.drop_first()[i].0@ == k && seq_get(
                s.drop_first(),
                k,
            ) == Some(s.drop_first()[i].1);
        assert(s[i + 1] == s.drop_first()[i]);
        assert(s[i + 1].0@ == k);
    }
}

/// A map from byte-string keys to values, held in ascending key order.
pub struct KvMap<V> {
    pub entries: Vec<(Vec<u8>, V)>,
}

impl<V> KvMap<V> {
    /// The keys, in entry order.
    pub open spec fn kseq(self) -> Seq<Seq<u8>> {
        self.entries@.map_values(|e: (Vec<u8>, V)| e.0@)
    }

    /// The values, in entry order.
    pub open spec fn vals(self) -> Seq<V> {
        self.entries@.map_values(|e: (Vec<u8>, V)| e.1)
    }

    pub open spec fn spec_len(self) -> nat {
        self.entries@.len()
    }

    /// Keys strictly ascend, so every key occurs once.
    pub open spec fn wf(self) -> bool {
        forall|i: int, j: int|
            0 <= i < j < self.entries@.len() ==> lex_lt(
                #[trigger] self.entries@[i].0@,
                #[trigger] self.entries@[j].0@,
            )
    }

    pub open spec fn spec_get(self, k: Seq<u8>) -> Option<V> {
        seq_get(self.entries@, k)
    }

    pub open spec fn has_key(self, k: Seq<u8>) -> bool {
        self.spec_get(k) is Some
    }

    /// In a well-formed map the entry at `i` is what lookup of its key finds.
    pub proof fn lemma_get_at_index(self, i: int)
        requires
            self.wf(),
            0 <= i < self.spec_len(),
        ensures
            self.spec_get(self.entries@[i].0@) == Some(self.entries@[i].1),
    {
        assert forall|j: int| 0 <= j < i implies self.entries@[j].0@ != self.entries@[i].0@ by {
            lemma_lex_trichotomy(self.entries@[j].0@, self.entries@[i].0@);
        }
        lemma_seq_get_found(self.entries@, self.entries@[i].0@, i);
    }

    pub fn new() -> (r: KvMap<V>)
        ensures
            r.entries@.len() == 0,
            r.wf(),
            forall|k: Seq<u8>| r.spec_get(k) == None::<V>,
    {
        KvMap { entries: Vec::new() }
    }

    pub fn len(&self) -> (r: usize)
        ensures
            r == self.spec_len(),
    {
        self.entries.len()
    }

    pub fn key_at(&self, i: usize) -> (r: &Vec<u8>)
        requires
            i < self.spec_len(),
        ensures
            r@ == self.kseq()[i as int],
    {
        &self.entries[i].0
    }

    pub fn value_at(&self, i: usize) -> (r: &V)
        requires
            i < self.spec_len(),
        ensures
            *r == self.vals()[i as int],
    {
        &self.entries[i].1
    }

    /// The position of `k`, if `k` is bound.
    pub fn index_of(&self, k: &Vec<u8>) -> (r: Option<usize>)
        ensures
            match r {
                Some(i) => i < self.spec_len() && self.kseq()[i as int] == k@ && self.spec_get(k@)
                    == Some(self.vals()[i as int]),
                None => self.spec_get(k@) == None::<V>,
            },
    {
        let n: usize = self.entries.len();
        let mut i: usize = 0;
        while i < n
            invariant
                i <= n,
                n == self.spec_len(),
                forall|j: int| 0 <= j < i ==> self.entries@[j].0@ != k@,
            decreases n - i,
        {
            if bytes_eq(&self.entries[i].0, k) {
                proof {
                    lemma_seq_get_found(self.entries@, k@, i as int);
                }
                return Some(i);
            }
            i = i + 1;
        }
        proof {
            lemma_seq_get_absent(self.entries@, k@);
        }
        None
    }

    pub fn contains_key(&self, k: &Vec<u8>) -> (r: bool)
        ensures
            r == self.has_key(k@),
    {
        self.index_of(k).is_some()
    }

    /// Binds `k` to `v`; an existing binding of `k` is replaced.
    pub fn insert(&mut self, k: Vec<u8>, v: V)
        requires
            old(self).wf(),
        ensures
            final(self).wf(),
            final(self).spec_get(k@) == Some(v),
            forall|k2: Seq<u8>| k2 != k@ ==> final(self).spec_get(k2) == old(self).spec_get(k2),
            final(self).spec_len() == old(self).spec_len() + (if old(self).has_key(k@) {
                0int
            } else {
                1int
            }),
            (forall|j: int|
                0 <= j < old(self).spec_len() ==> lex_lt(#[trigger] old(self).kseq()[j], k@))
                ==> final(self).entries@ == old(self).entries@.push((k, v)),
            forall|k2: Seq<u8>|
                #[trigger] final(self).has_key(k2) ==> k2 == k@ || old(self).has_key(k2),
    {
        let ghost orig = *self;
        let n: usize = self.entries.len();
        let mut i: usize = 0;
        loop
            invariant
                i <= n,
                *self == orig,
                n == self.spec_len(),
                forall|j: int| 0 <= j < i ==> lex_lt(#[trigger] self.entries@[j].0@, k@),
            ensures
                i <= n,
                i == n || !lex_lt(self.entries@[i as int].0@, k@),
            decreases n - i,
        {
            if i == n {
                break;
            }
            if !bytes_lt(&self.entries[i].0, &k) {
                break;
            }
            i = i + 1;
        }
        proof {
            assert forall|j: int| 0 <= j < orig.spec_len() && j >= i implies !lex_lt(
                #[trigger] orig.entries@[j].0@,
                k@,
            ) by {
                if j > i {
                    assert(lex_lt(orig.entries@[i as int].0@, orig.entries@[j].0@));
                    if lex_lt(orig.entries@[j].0@, k@) {
                        lemma_lex_transitive(orig.entries@[i as int].0@, orig.entries@[j].0@, k@);
                    }
                }
            }
        }
        let replace: bool = if i < n {
            bytes_eq(&self.entries[i].0, &k)
        } else {
            false
        };
        proof {
            lemma_lex_trichotomy(if i < n {
                orig.entries@[i as int].0@
            } else {
                k@
            }, k@);
            assert forall|j: int| 0 <= j < orig.spec_len() && !replace implies orig.entries@[j].0@
                != k@ by {
                lemma_lex_trichotomy(orig.entries@[j].0@, k@);
            }
            if !replace {
                lemma_seq_get_absent(orig.entries@, k@);
            }
        }
        if replace {
            self.entries.remove(i);
            self.entries.insert(i, (k, v));
            proof {
                let se = self.entries@;
                let oe = orig.entries@;
                lemma_seq_get_found_any(oe, k@, i as int);
                assert(se =~= oe.update(i as int, (k, v)));
                assert(se[i as int].0@ == k@);
                assert forall|i2: int, j2: int| 0 <= i2 < j2 < se.len() implies lex_lt(
                    #[trigger] se[i2].0@,
                    #[trigger] se[j2].0@,
                ) by {
                    assert(lex_lt(oe[i2].0@, oe[j2].0@));
                    assert(oe[i as int].0@ == k@);
                }
                assert forall|j: int| 0 <= j < i implies se[j].0@ != k@ by {
                    lemma_lex_trichotomy(se[j].0@, k@);
                }
                lemma_seq_get_found(se, k@, i as int);
                assert forall|k2: Seq<u8>| k2 != k@ implies seq_get(se, k2) == seq_get(oe, k2) by {
                    lemma_get_unchanged_update(oe, se, k2);
                }
                if forall|j: int|
                    0 <= j < orig.spec_len() ==> lex_lt(#[trigger] orig.kseq()[j], k@) {
                    assert(lex_lt(orig.kseq()[i as int], k@));
                    assert(orig.kseq()[i as int] == oe[i as int].0@);
                    lemma_lex_trichotomy(oe[i as int].0@, k@);
                    assert(false);
                }
            }
        } else {
            self.entries.insert(i, (k, v));
            proof {
                let se = self.entries@;
                let oe = orig.entries@;
                assert(se =~= oe.insert(i as int, (k, v)));
                assert(se[i as int].0@ == k@);
                assert forall|i2: int, j2: int| 0 <= i2 < j2 < se.len() implies lex_lt(
                    #[trigger] se[i2].0@,
                    #[trigger] se[j2].0@,
                ) by {
                    if j2 < i {
                        assert(se[i2] == oe[i2] && se[j2] == oe[j2]);
                        assert(lex_lt(oe[i2].0@, oe[j2].0@));
                    } else if i2 < i && j2 > i {
                        assert(se[i2] == oe[i2] && se[j2] == oe[j2 - 1]);
                        assert(lex_lt(oe[i2].0@, oe[j2 - 1].0@));
                    } else if i2 == i && j2 > i {
                        assert(se[j2] == oe[j2 - 1]);
                        assert(!lex_lt(oe[j2 - 1].0@, k@));
                        lemma_lex_trichotomy(oe[j2 - 1].0@, k@);
                        if oe[j2 - 1].0@ == k@ {
                            assert(seq_get(oe, k@) is Some) by {
                                lemma_seq_get_found_any(oe, k@, j2 - 1);
                            }
                        }
                    } else if i2 < i && j2 == i {
                        assert(se[i2] == oe[i2]);
                        assert(lex_lt(oe[i2].0@, k@));
                    } else {
                        assert(i2 > i);
                        assert(se[i2] == oe[i2 - 1] && se[j2] == oe[j2 - 1]);
                        assert(lex_lt(oe[i2 - 1].0@, oe[j2 - 1].0@));
                    }
                }
                assert forall|j: int| 0 <= j < i implies se[j].0@ != k@ by {
                    lemma_lex_trichotomy(se[j].0@, k@);
                }
                lemma_seq_get_found(se, k@, i as int);
                assert forall|k2: Seq<u8>| k2 != k@ implies seq_get(se, k2) == seq_get(oe, k2) by {
                    lemma_get_unchanged_insert(oe, se, i as int, k2);
                }
                if forall|j: int|
                    0 <= j < orig.spec_len() ==> lex_lt(#[trigger] orig.kseq()[j], k@) {
                    assert forall|j: int| 0 <= j < oe.len() implies lex_lt(
                        #[trigger] oe[j].0@,
                        k@,
                    ) by {
                        assert(orig.kseq()[j] == oe[j].0@);
                        assert(lex_lt(orig.kseq()[j], k@));
                    }
                    assert(i == n);
                    assert(se =~= oe.push((k, v)));
                }
            }
        }
        proof {
            assert forall|k2: Seq<u8>| #[trigger] final(self).has_key(k2) && k2 != k@ implies old(
                self,
            ).has_key(k2) by {}
        }
    }

    /// Unbinds `k` and hands back what it was bound to.
    pub fn remove(&mut self, k: &Vec<u8>) -> (r: Option<V>)
        requires
            old(self).wf(),
        ensures
            final(self).wf(),
            r == old(self).spec_get(k@),
            final(self).spec_get(k@) == None::<V>,
            forall|k2: Seq<u8>| k2 != k@ ==> final(self).spec_get(k2) == old(self).spec_get(k2),
            forall|k2: Seq<u8>| #[trigger] final(self).has_key(k2) ==> old(self).has_key(k2),
    {
        let ghost orig = *self;
        let found = self.index_of(k);
        match found {
            None => {
                proof {
                    lemma_seq_get_witness_absent(orig.entries@, k@);
                }
                None
            },
            Some(i) => {
                let (_, v) = self.entries.remove(i);
                proof {
                    let se = self.entries@;
                    let oe = orig.entries@;
                    assert(se =~= oe.remove(i as int));
                    assert forall|i2: int, j2: int| 0 <= i2 < j2 < se.len() implies lex_lt(
                        #[trigger] se[i2].0@,
                        #[trigger] se[j2].0@,
                    ) by {
                        let oi = if i2 < i {
                            i2
                        } else {
                            i2 + 1
                        };
                        let oj = if j2 < i {
                            j2
                        } else {
                            j2 + 1
                        };
                        assert(se[i2] == oe[oi] && se[j2] == oe[oj]);
                        assert(lex_lt(oe[oi].0@, oe[oj].0@));
                    }
                    assert forall|j: int| 0 <= j < se.len() implies se[j].0@ != k@ by {
                        let oj = if j < i {
                            j
                        } else {
                            j + 1
                        };
                        assert(se[j] == oe[oj]);
                        lemma_lex_trichotomy(oe[oj].0@, oe[i as int].0@);
                    }
                    lemma_seq_get_absent(se, k@);
                    assert forall|k2: Seq<u8>| k2 != k@ implies seq_get(se, k2) == seq_get(
                        oe,
                        k2,
                    ) by {
                        lemma_get_unchanged_remove(oe, se, i as int, k2);
                    }
                }
                Some(v)
            },
        }
    }
}

proof fn lemma_seq_get_found_any<V>(s: Seq<(Vec<u8>, V)>, k: Seq<u8>, i: int)
    requires
        0 <= i < s.len(),
        s[i].0@ == k,
    ensures
        seq_get(s, k) is Some,
    decreases s.len(),
{
    if s[0].0@ != k {
        assert(s.drop_first()[i - 1] == s[i]);
        lemma_seq_get_found_any(s.drop_first(), k, i - 1);
    }
}

proof fn lemma_seq_get_witness_absent<V>(s: Seq<(Vec<u8>, V)>, k: Seq<u8>)
    requires
        seq_get(s, k) == None::<V>,
    ensures
        forall|j: int| 0 <= j < s.len() ==> s[j].0@ != k,
{
    assert forall|j: int| 0 <= j < s.len() implies s[j].0@ != k by {
        if s[j].0@ == k {
            lemma_seq_get_found_any(s, k, j);
        }
    }
}

/// Changing only entries whose key differs from `k2` leaves the lookup of
/// `k2`.
proof fn lemma_get_unchanged_update<V>(oe: Seq<(Vec<u8>, V)>, se: Seq<(Vec<u8>, V)>, k2: Seq<u8>)
    requires
        se.len() == oe.len(),
        forall|j: int| 0 <= j < oe.len() ==> #[trigger] se[j].0@ == oe[j].0@,
        forall|j: int| 0 <= j < oe.len() && oe[j].0@ == k2 ==> #[trigger] se[j].1 == oe[j].1,
    ensures
        seq_get(se, k2) == seq_get(oe, k2),
    decreases oe.len(),
{
    if oe.len() > 0 {
        assert(se[0].0@ == oe[0].0@);
        if oe[0].0@ != k2 {
            assert(forall|j: int|
                0 <= j < oe.len() - 1 ==> #[trigger] se.drop_first()[j] == se[j + 1]);
            assert(forall|j: int|
                0 <= j < oe.len() - 1 ==> #[trigger] oe.drop_first()[j] == oe[j + 1]);
            lemma_get_unchanged_update(oe.drop_first(), se.drop_first(), k2);
        }
    }
}

/// Inserting an entry for a fresh key leaves lookups of other keys.
proof fn lemma_get_unchanged_insert<V>(
    oe: Seq<(Vec<u8>, V)>,
    se: Seq<(Vec<u8>, V)>,
    i: int,
    k2: Seq<u8>,
)
    requires
        0 <= i <= oe.len(),
        se.len() == oe.len() + 1,
        forall|j: int| 0 <= j < i ==> #[trigger] se[j] == oe[j],
        forall|j: int| i < j < se.len() ==> #[trigger] se[j] == oe[j - 1],
        se[i].0@ != k2,
    ensures
        seq_get(se, k2) == seq_get(oe, k2),
    decreases oe.len(),
{
    if i == 0 {
        assert(se.drop_first() =~= oe);
    } else {
        assert(se[0] == oe[0]);
        if oe[0].0@ != k2 {
            assert(forall|j: int|
                0 <= j < i - 1 ==> #[trigger] se.drop_first()[j] == oe.drop_first()[j]);
            assert(forall|j: int|
                i - 1 < j < se.drop_first().len() ==> #[trigger] se.drop_first()[j]
                    == oe.drop_first()[j - 1]);
            assert(se.drop_first()[i - 1].0@ != k2);
            lemma_get_unchanged_insert(oe.drop_first(), se.drop_first(), i - 1, k2);
        }
    }
}

/// Removing the entry of one key leaves lookups of other keys, when keys are
/// unique.
proof fn lemma_get_unchanged_remove<V>(
    oe: Seq<(Vec<u8>, V)>,
    se: Seq<(Vec<u8>, V)>,
    i: int,
    k2: Seq<u8>,
)
    requires
        0 <= i < oe.len(),
        se.len() == oe.len() - 1,
        forall|j: int| 0 <= j < i ==> #[trigger] se[j] == oe[j],
        forall|j: int| i <= j < se.len() ==> #[trigger] se[j] == oe[j + 1],
        oe[i].0@ != k2,
    ensures
        seq_get(se, k2) == seq_get(oe, k2),
    decreases oe.len(),
{
    if i == 0 {
        assert(se =~= oe.drop_first());
    } else {
        assert(se[0] == oe[0]);
        if oe[0].0@ != k2 {
            assert(forall|j: int|
                0 <= j < i - 1 ==> #[trigger] se.drop_first()[j] == oe.drop_first()[j]);
            assert(forall|j: int|
                i - 1 <= j < se.drop_first().len() ==> #[trigger] se.drop_first()[j]
                    == oe.drop_first()[j + 1]);
            lemma_get_unchanged_remove(oe.drop_first(), se.drop_first(), i - 1, k2);
        }
    }
}

} // verus!
