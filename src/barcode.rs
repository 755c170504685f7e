//! Barcodes: fixed-length strings over `A`, `C`, `G`, `T`, their integer
//! encoding (two bits per base) and the Hamming distance between them.
use vstd::prelude::*;
use vstd::utf8::{encode_utf8, encode_utf8_decode_utf8, is_ascii_chars, is_ascii_chars_encode_utf8};

verus! {

/// The bytes of a string.
pub open spec fn bytes(s: Seq<char>) -> Seq<u8> {
    encode_utf8(s)
}

/// Number of positions at which two sequences of equal length differ.
pub open spec fn hamming(a: Seq<u8>, b: Seq<u8>) -> nat
    recommends
        a.len() == b.len(),
    decreases a.len(),
{
    if a.len() == 0 || b.len() == 0 {
        0
    } else {
        hamming(a.drop_last(), b.drop_last()) + if a.last() != b.last() {
            1nat
        } else {
            0nat
        }
    }
}

/// Value of one base.
pub open spec fn base_value(c: char) -> nat {
    if c == 'A' {
        0
    } else if c == 'C' {
        1
    } else if c == 'G' {
        2
    } else {
        3
    }
}

/// Every character is one of `A`, `C`, `G`, `T`.
pub open spec fn is_dna(s: Seq<char>) -> bool {
    forall|i: int| 0 <= i < s.len() ==> (#[trigger] s[i] == 'A' || s[i] == 'C' || s[i] == 'G' || s[i] == 'T')
}

/// The integer a barcode stands for: its bases read as base-4 digits, the first
/// base being the most significant.
pub open spec fn dna_value(s: Seq<char>) -> nat
    decreases s.len(),
{
    if s.len() == 0 {
        0
    } else {
        dna_value(s.drop_last()) * 4 + base_value(s.last())
    }
}

/// Number of base-4 digits of `i` (at least one).
pub open spec fn base4_digits(i: nat) -> nat
    decreases i,
{
    if i < 4 {
        1
    } else {
        1 + base4_digits(i / 4)
    }
}

/// Equal length barcodes of equal value are equal.
pub proof fn lemma_dna_value_injective(a: Seq<char>, b: Seq<char>)
    requires
        is_dna(a),
        is_dna(b),
        a.len() == b.len(),
        dna_value(a) == dna_value(b),
    ensures
        a == b,
    decreases a.len(),
{
    if a.len() > 0 {
        let pa = dna_value(a.drop_last());
        let pb = dna_value(b.drop_last());
        let da = base_value(a.last());
        let db = base_value(b.last());
        assert(a[a.len() - 1] == a.last());
        assert(b[b.len() - 1] == b.last());
        assert(da < 4 && db < 4);
        assert(pa * 4 + da == pb * 4 + db);
        assert(pa == pb && da == db) by (nonlinear_arith)
            requires
                pa * 4 + da == pb * 4 + db,
                da < 4,
                db < 4,
        ;
        assert(a.last() == b.last());
        assert forall|i: int| 0 <= i < a.drop_last().len() implies (#[trigger] a.drop_last()[i] == 'A'
            || a.drop_last()[i] == 'C' || a.drop_last()[i] == 'G' || a.drop_last()[i] == 'T') by {
            assert(a.drop_last()[i] == a[i]);
        }
        assert forall|i: int| 0 <= i < b.drop_last().len() implies (#[trigger] b.drop_last()[i] == 'A'
            || b.drop_last()[i] == 'C' || b.drop_last()[i] == 'G' || b.drop_last()[i] == 'T') by {
            assert(b.drop_last()[i] == b[i]);
        }
        lemma_dna_value_injective(a.drop_last(), b.drop_last());
        assert(a =~= a.drop_last().push(a.last()));
        assert(b =~= b.drop_last().push(b.last()));
    }
}

/// A barcode has one byte per base.
pub proof fn lemma_dna_bytes_len(s: Seq<char>)
    requires
        is_dna(s),
    ensures
        bytes(s).len() == s.len(),
{
    assert(is_ascii_chars(s)) by {
        assert forall|i| 0 <= i < s.len() implies '\0' <= #[trigger] s[i] <= '\u{7f}' by {
            assert(s[i] == 'A' || s[i] == 'C' || s[i] == 'G' || s[i] == 'T');
        }
    }
    is_ascii_chars_encode_utf8(s);
}

/// Two strings at Hamming distance zero are the same string.
pub proof fn lemma_hamming_zero(a: Seq<char>, b: Seq<char>)
    requires
        bytes(a).len() == bytes(b).len(),
        hamming(bytes(a), bytes(b)) == 0,
    ensures
        a == b,
{
    lemma_hamming_zero_bytes(bytes(a), bytes(b));
    encode_utf8_decode_utf8(a);
    encode_utf8_decode_utf8(b);
}

proof fn lemma_hamming_zero_bytes(a: Seq<u8>, b: Seq<u8>)
    requires
        a.len() == b.len(),
        hamming(a, b) == 0,
    ensures
        a == b,
    decreases a.len(),
{
    if a.len() > 0 {
        lemma_hamming_zero_bytes(a.drop_last(), b.drop_last());
        assert(a =~= a.drop_last().push(a.last()));
        assert(b =~= b.drop_last().push(b.last()));
    } else {
        assert(a =~= b);
    }
}

/// A string is at Hamming distance zero from itself.
pub proof fn lemma_hamming_self(a: Seq<u8>)
    ensures
        hamming(a, a) == 0,
    decreases a.len(),
{
    if a.len() > 0 {
        lemma_hamming_self(a.drop_last());
    }
}

/// Hamming distance of two strings of equal byte length.
pub fn my_hamming(a: &String, b: &String) -> (r: isize)
    requires
        bytes(a@).len() == bytes(b@).len(),
        bytes(a@).len() <= isize::MAX,
    ensures
        r == hamming(bytes(a@), bytes(b@)),
{
    let ab = a.as_str().as_bytes();
    let bb = b.as_str().as_bytes();
    let mut counter: isize = 0;
    let mut i: usize = 0;
    while i < ab.len()
        invariant
            ab@ == bytes(a@),
            bb@ == bytes(b@),
            ab@.len() == bb@.len(),
            ab@.len() <= isize::MAX,
            i <= ab.len(),
            counter == hamming(ab@.subrange(0, i as int), bb@.subrange(0, i as int)),
            counter <= i,
        decreases ab.len() - i,
    {
        proof {
            let sa = ab@.subrange(0, i + 1);
            let sb = bb@.subrange(0, i + 1);
            assert(sa.drop_last() =~= ab@.subrange(0, i as int));
            assert(sb.drop_last() =~= bb@.subrange(0, i as int));
        }
        if ab[i] != bb[i] {
            counter = counter + 1;
        }
        i = i + 1;
    }
    proof {
        assert(ab@.subrange(0, i as int) =~= ab@);
        assert(bb@.subrange(0, i as int) =~= bb@);
    }
    counter
}

/// Relies on bustools::utils::seq_to_int: reads a barcode of 1 to 32 bases as
/// base-4 digits (`A` 0, `C` 1, `G` 2, `T` 3).
#[verifier::external_body]
pub(crate) fn seq_to_int(s: &String) -> (r: u64)
    requires
        is_dna(s@),
        1 <= s@.len() <= 32,
    ensures
        r == dna_value(s@),
{
    bustools::utils::seq_to_int(s)
}

/// Relies on bustools::utils::int_to_seq: writes `i` in base 4 with the bases
/// `A`, `C`, `G`, `T`, padded in front with `A` to `len` bases.
#[verifier::external_body]
pub(crate) fn int_to_seq(i: u64, len: usize) -> (r: String)
    requires
        len <= 32,
    ensures
        is_dna(r@),
        dna_value(r@) == i,
        r@.len() == if len >= base4_digits(i as nat) {
            len as nat
        } else {
            base4_digits(i as nat)
        },
{
    bustools::utils::int_to_seq(i, len)
}

/// Spells out each integer-encoded barcode with `len` bases (more if its value
/// needs more digits).
pub fn decode_barcodes(cbs: &Vec<u64>, len: usize) -> (r: Vec<String>)
    requires
        len <= 32,
    ensures
        r.len() == cbs.len(),
        forall|k: int|
            0 <= k < r.len() ==> is_dna(#[trigger] r@[k]@) && dna_value(r@[k]@) == cbs@[k] && r@[k]@.len() == if len
                >= base4_digits(cbs@[k] as nat) {
                len as nat
            } else {
                base4_digits(cbs@[k] as nat)
            },
{
    let mut r: Vec<String> = Vec::new();
    let mut k: usize = 0;
    while k < cbs.len()
        invariant
            k <= cbs.len(),
            len <= 32,
            r.len() == k,
            forall|t: int|
                0 <= t < k ==> is_dna(#[trigger] r@[t]@) && dna_value(r@[t]@) == cbs@[t] && r@[t]@.len() == if len
                    >= base4_digits(cbs@[t] as nat) {
                    len as nat
                } else {
                    base4_digits(cbs@[t] as nat)
                },
        decreases cbs.len() - k,
    {
        let s = int_to_seq(cbs[k], len);
        r.push(s);
        k = k + 1;
    }
    r
}

} // verus!
