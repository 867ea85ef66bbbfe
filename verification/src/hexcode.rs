//! Hex encoding at the serialization boundary.
//!
//! Encoding goes through the `hex` crate; decoding is implemented and
//! verified here, and accepts exactly the lowercase strings that encoding
//! produces.

use vstd::prelude::*;

verus! {

/// The lowercase hex digit for a nibble; nibbles above fifteen do not occur.
pub open spec fn hex_digit(n: u8) -> char {
    if n == 0 {
        '0'
    } else if n == 1 {
        '1'
    } else if n == 2 {
        '2'
    } else if n == 3 {
        '3'
    } else if n == 4 {
        '4'
    } else if n == 5 {
        '5'
    } else if n == 6 {
        '6'
    } else if n == 7 {
        '7'
    } else if n == 8 {
        '8'
    } else if n == 9 {
        '9'
    } else if n == 10 {
        'a'
    } else if n == 11 {
        'b'
    } else if n == 12 {
        'c'
    } else if n == 13 {
        'd'
    } else if n == 14 {
        'e'
    } else if n == 15 {
        'f'
    } else {
        '0'
    }
}

/// The nibble of a lowercase hex digit, or nothing for any other character.
pub open spec fn hex_digit_val(c: char) -> Option<u8> {
    if c == '0' {
        Some(0)
    } else if c == '1' {
        Some(1)
    } else if c == '2' {
        Some(2)
    } else if c == '3' {
        Some(3)
    } else if c == '4' {
        Some(4)
    } else if c == '5' {
        Some(5)
    } else if c == '6' {
        Some(6)
    } else if c == '7' {
        Some(7)
    } else if c == '8' {
        Some(8)
    } else if c == '9' {
        Some(9)
    } else if c == 'a' {
        Some(10)
    } else if c == 'b' {
        Some(11)
    } else if c == 'c' {
        Some(12)
    } else if c == 'd' {
        Some(13)
    } else if c == 'e' {
        Some(14)
    } else if c == 'f' {
        Some(15)
    } else {
        None
    }
}

/// The two lowercase hex digits of a byte, high nibble first.
pub open spec fn hex_of_byte(b: u8) -> Seq<char> {
    seq![hex_digit(b / 16), hex_digit(b % 16)]
}

/// The lowercase hex string of a byte string.
pub open spec fn hex_of(s: Seq<u8>) -> Seq<char>
    decreases s.len(),
{
    if s.len() == 0 {
        Seq::empty()
    } else {
        hex_of_byte(s[0]) + hex_of(s.drop_first())
    }
}

pub proof fn lemma_hex_digit_round(n: u8)
    requires
        n < 16,
    ensures
        hex_digit_val(hex_digit(n)) == Some(n),
{
}

pub proof fn lemma_hex_digit_val_inverse(c: char, n: u8)
    requires
        hex_digit_val(c) == Some(n),
    ensures
        n < 16,
        hex_digit(n) == c,
{
}

pub proof fn lemma_hex_of_len(s: Seq<u8>)
    ensures
        hex_of(s).len() == 2 * s.len(),
    decreases s.len(),
{
    if s.len() > 0 {
        lemma_hex_of_len(s.drop_first());
    }
}

/// Appending one byte appends its two digits.
pub proof fn lemma_hex_of_push(s: Seq<u8>, b: u8)
    ensures
        hex_of(s.push(b)) == hex_of(s) + hex_of_byte(b),
    decreases s.len(),
{
    if s.len() == 0 {
        let p = s.push(b);
        assert(p.len() == 1 && p[0] == b);
        assert(p.drop_first() =~= Seq::<u8>::empty());
        assert(hex_of(p) == hex_of_byte(p[0]) + hex_of(p.drop_first()));
        assert(hex_of(p) =~= hex_of_byte(b));
        assert(hex_of(s) + hex_of_byte(b) =~= hex_of_byte(b));
    } else {
        assert(s.push(b).drop_first() =~= s.drop_first().push(b));
        lemma_hex_of_push(s.drop_first(), b);
        assert(hex_of(s.push(b)) =~= hex_of(s) + hex_of_byte(b));
    }
}

/// The digits at positions `2i` and `2i + 1` come from the byte at `i`.
pub proof fn lemma_hex_of_index(s: Seq<u8>, i: int)
    requires
        0 <= i < s.len(),
    ensures
        hex_of(s)[2 * i] == hex_digit(s[i] / 16),
        hex_of(s)[2 * i + 1] == hex_digit(s[i] % 16),
    decreases s.len(),
{
    lemma_hex_of_len(s.drop_first());
    if i > 0 {
        lemma_hex_of_index(s.drop_first(), i - 1);
    }
}

/// Distinct byte strings have distinct hex strings.
pub proof fn lemma_hex_of_injective(a: Seq<u8>, b: Seq<u8>)
    requires
        hex_of(a) == hex_of(b),
    ensures
        a == b,
{
    lemma_hex_of_len(a);
    lemma_hex_of_len(b);
    assert forall|i: int| 0 <= i < a.len() implies a[i] == b[i] by {
        lemma_hex_of_index(a, i);
        lemma_hex_of_index(b, i);
        lemma_hex_digit_round(a[i] / 16);
        lemma_hex_digit_round(a[i] % 16);
        lemma_hex_digit_round(b[i] / 16);
        lemma_hex_digit_round(b[i] % 16);
        assert(a[i] / 16 == b[i] / 16 && a[i] % 16 == b[i] % 16);
        assert(a[i] == 16 * (a[i] / 16) + a[i] % 16);
        assert(b[i] == 16 * (b[i] / 16) + b[i] % 16);
    }
    assert(a =~= b);
}

/// Relies on hex::encode: two lowercase digits per byte, high nibble first.
#[verifier::external_body]
pub fn to_hex(b: &Vec<u8>) -> (r: String)
    ensures
        r@ == hex_of(b@),
{
    hex::encode(b.as_slice())
}

/// Decides whether `c` is a lowercase hex digit, and returns its nibble.
fn hex_val_exec(c: char) -> (r: Option<u8>)
    ensures
        r == hex_digit_val(c),
{
    match c {
        '0' => Some(0),
        '1' => Some(1),
        '2' => Some(2),
        '3' => Some(3),
        '4' => Some(4),
        '5' => Some(5),
        '6' => Some(6),
        '7' => Some(7),
        '8' => Some(8),
        '9' => Some(9),
        'a' => Some(10),
        'b' => Some(11),
        'c' => Some(12),
        'd' => Some(13),
        'e' => Some(14),
        'f' => Some(15),
        _ => None,
    }
}

/// Parses a lowercase hex string back to bytes; any other input is refused.
pub fn from_hex(s: &str) -> (r: Option<Vec<u8>>)
    ensures
        match r {
            Some(v) => s@ == hex_of(v@),
            None => forall|bs: Seq<u8>| hex_of(bs) != s@,
        },
{
    let n: usize = s.unicode_len();
    if n % 2 != 0 {
        proof {
            assert forall|bs: Seq<u8>| hex_of(bs) != s@ by {
                lemma_hex_of_len(bs);
            }
        }
        return None;
    }
    let mut out: Vec<u8> = Vec::new();
    let mut i: usize = 0;
    while 2 * i < n
        invariant
            2 * i <= n,
            n == s@.len(),
            n % 2 == 0,
            out@.len() == i,
            hex_of(out@) =~= s@.subrange(0, 2 * i),
        decreases n - 2 * i,
    {
        let c1 = s.get_char(2 * i);
        let c2 = s.get_char(2 * i + 1);
        let v1 = hex_val_exec(c1);
        let v2 = hex_val_exec(c2);
        if v1.is_none() || v2.is_none() {
            proof {
                assert forall|bs: Seq<u8>| hex_of(bs) != s@ by {
                    if hex_of(bs) == s@ {
                        lemma_hex_of_len(bs);
                        lemma_hex_of_index(bs, i as int);
                        lemma_hex_digit_round(bs[i as int] / 16);
                        lemma_hex_digit_round(bs[i as int] % 16);
                    }
                }
            }
            return None;
        }
        let h = v1.unwrap();
        let l = v2.unwrap();
        let byte: u8 = h * 16 + l;
        proof {
            lemma_hex_digit_val_inverse(c1, h);
            lemma_hex_digit_val_inverse(c2, l);
            assert(byte / 16 == h && byte % 16 == l) by (nonlinear_arith)
                requires
                    h < 16,
                    l < 16,
                    byte == h * 16 + l,
            ;
            lemma_hex_of_push(out@, byte);
            assert(s@.subrange(0, 2 * (i + 1)) =~= s@.subrange(0, 2 * i as int).push(
                s@[2 * i as int],
            ).push(s@[2 * i + 1]));
            assert(hex_of(out@.push(byte)) =~= s@.subrange(0, 2 * (i + 1)));
        }
        out.push(byte);
        i = i + 1;
    }
    proof {
        assert(s@.subrange(0, n as int) =~= s@);
    }
    Some(out)
}

} // verus!
