//! The record model: one line of a bus stream, its ordering key, and what it
//! means for a sequence of records to be the aggregate of another.
use vstd::prelude::*;

verus! {

/// One read summary: cell barcode, molecular identifier, equivalence class,
/// read count and an opaque flag field.
#[derive(Clone, Copy, Debug, PartialEq, Eq, Structural)]
pub struct Record {
    pub cb: u64,
    pub umi: u64,
    pub ec: u32,
    pub count: u32,
    pub flag: u32,
}

/// The full ordering key `(cb, umi, ec, flag)`.
pub type RecordKey = (u64, u64, u32, u32);

/// The coarse key `(cb, umi)` that sources are grouped by.
pub type CbUmi = (u64, u64);

pub open spec fn key(r: Record) -> RecordKey {
    (r.cb, r.umi, r.ec, r.flag)
}

pub open spec fn cbumi(r: Record) -> CbUmi {
    (r.cb, r.umi)
}

/// Lexicographic order on full keys.
pub open spec fn key_lt(a: RecordKey, b: RecordKey) -> bool {
    a.0 < b.0 || (a.0 == b.0 && (a.1 < b.1 || (a.1 == b.1 && (a.2 < b.2 || (a.2 == b.2 && a.3
        < b.3)))))
}

/// Lexicographic order on coarse keys.
pub open spec fn cbumi_lt(a: CbUmi, b: CbUmi) -> bool {
    a.0 < b.0 || (a.0 == b.0 && a.1 < b.1)
}

/// Every earlier record has a strictly smaller full key (so no key repeats).
pub open spec fn strictly_sorted(s: Seq<Record>) -> bool {
    forall|i: int, j: int| 0 <= i < j < s.len() ==> key_lt(#[trigger] key(s[i]), #[trigger] key(s[j]))
}

/// Sum of the counts of the records of `s` whose full key is `k`.
pub open spec fn count_of(s: Seq<Record>, k: RecordKey) -> nat
    decreases s.len(),
{
    if s.len() == 0 {
        0
    } else {
        count_of(s.drop_last(), k) + if key(s.last()) == k {
            s.last().count as nat
        } else {
            0
        }
    }
}

/// Some record of `s` has full key `k`.
pub open spec fn has_key(s: Seq<Record>, k: RecordKey) -> bool {
    exists|i: int| 0 <= i < s.len() && key(s[i]) == k
}

/// For every key, the summed count fits in a record's `u32` count field.
pub open spec fn counts_fit(s: Seq<Record>) -> bool {
    forall|k: RecordKey| #[trigger] count_of(s, k) <= u32::MAX
}

/// `s` and `t` hold the same keys with the same summed counts.
pub open spec fn same_mass(s: Seq<Record>, t: Seq<Record>) -> bool {
    forall|k: RecordKey|
        #![trigger count_of(s, k)]
        #![trigger count_of(t, k)]
        #![trigger has_key(s, k)]
        #![trigger has_key(t, k)]
        count_of(s, k) == count_of(t, k) && has_key(s, k) == has_key(t, k)
}

/// `out` is the aggregate of `s`: ascending by full key, one record for each key
/// of `s`, whose count is the sum of the counts of that key in `s`.
pub open spec fn is_aggregate_of(out: Seq<Record>, s: Seq<Record>) -> bool {
    &&& strictly_sorted(out)
    &&& forall|k: RecordKey| #![trigger has_key(out, k)] #![trigger has_key(s, k)] has_key(out, k) <==> has_key(s, k)
    &&& forall|i: int| 0 <= i < out.len() ==> (#[trigger] out[i]).count == count_of(s, key(out[i]))
}

/// Every key of `a` is below every key of `b`.
pub open spec fn keys_below(a: Seq<Record>, b: Seq<Record>) -> bool {
    forall|i: int, j: int| 0 <= i < a.len() && 0 <= j < b.len() ==> key_lt(#[trigger] key(a[i]), #[trigger] key(b[j]))
}

/// Whether `a` comes strictly before `b` in the full key order.
pub fn key_less(a: &Record, b: &Record) -> (r: bool)
    ensures
        r == key_lt(key(*a), key(*b)),
{
    if a.cb != b.cb {
        a.cb < b.cb
    } else if a.umi != b.umi {
        a.umi < b.umi
    } else if a.ec != b.ec {
        a.ec < b.ec
    } else {
        a.flag < b.flag
    }
}

/// Whether `a` and `b` share their full key, i.e. may be merged.
pub fn same_key(a: &Record, b: &Record) -> (r: bool)
    ensures
        r == (key(*a) == key(*b)),
{
    a.cb == b.cb && a.umi == b.umi && a.ec == b.ec && a.flag == b.flag
}

pub proof fn lemma_count_concat(a: Seq<Record>, b: Seq<Record>, k: RecordKey)
    ensures
        count_of(a + b, k) == count_of(a, k) + count_of(b, k),
    decreases b.len(),
{
    if b.len() == 0 {
        assert(a + b =~= a);
    } else {
        assert((a + b).drop_last() =~= a + b.drop_last());
        lemma_count_concat(a, b.drop_last(), k);
    }
}

pub proof fn lemma_has_key_concat(a: Seq<Record>, b: Seq<Record>, k: RecordKey)
    ensures
        has_key(a + b, k) == (has_key(a, k) || has_key(b, k)),
{
    if has_key(a + b, k) {
        let i = choose|i: int| 0 <= i < (a + b).len() && key((a + b)[i]) == k;
        if i < a.len() {
            assert(key(a[i]) == k);
        } else {
            assert(key(b[i - a.len()]) == k);
        }
    }
    if has_key(a, k) {
        let i = choose|i: int| 0 <= i < a.len() && key(a[i]) == k;
        assert(key((a + b)[i]) == k);
    }
    if has_key(b, k) {
        let i = choose|i: int| 0 <= i < b.len() && key(b[i]) == k;
        assert(key((a + b)[a.len() + i]) == k);
    }
}

pub proof fn lemma_mass_single(x: Record, k: RecordKey)
    ensures
        count_of(seq![x], k) == if key(x) == k {
            x.count as nat
        } else {
            0
        },
        has_key(seq![x], k) == (key(x) == k),
{
    assert(seq![x].drop_last() =~= Seq::<Record>::empty());
    assert(count_of(Seq::<Record>::empty(), k) == 0);
    assert(seq![x].last() == x);
    assert(seq![x][0] == x);
}

/// Counts and key presence add up over a concatenation.
pub proof fn lemma_mass_concat(a: Seq<Record>, b: Seq<Record>)
    ensures
        forall|k: RecordKey|
            #![trigger count_of(a + b, k)]
            #![trigger has_key(a + b, k)]
            count_of(a + b, k) == count_of(a, k) + count_of(b, k) && has_key(a + b, k) == (
            has_key(a, k) || has_key(b, k)),
{
    assert forall|k: RecordKey|
        #![trigger count_of(a + b, k)]
        #![trigger has_key(a + b, k)]
        count_of(a + b, k) == count_of(a, k) + count_of(b, k) && has_key(a + b, k) == (has_key(a, k)
            || has_key(b, k)) by {
        lemma_count_concat(a, b, k);
        lemma_has_key_concat(a, b, k);
    }
}

pub proof fn lemma_same_mass_concat(a1: Seq<Record>, a2: Seq<Record>, b1: Seq<Record>, b2: Seq<Record>)
    requires
        same_mass(a1, b1),
        same_mass(a2, b2),
    ensures
        same_mass(a1 + a2, b1 + b2),
{
    lemma_mass_concat(a1, a2);
    lemma_mass_concat(b1, b2);
}

pub proof fn lemma_count_absent(s: Seq<Record>, k: RecordKey)
    requires
        !has_key(s, k),
    ensures
        count_of(s, k) == 0,
    decreases s.len(),
{
    if s.len() > 0 {
        assert(key(s[s.len() - 1]) != k);
        assert forall|i: int| 0 <= i < s.drop_last().len() implies key(s.drop_last()[i]) != k by {
            assert(s.drop_last()[i] == s[i]);
        }
        lemma_count_absent(s.drop_last(), k);
    }
}

/// In a strictly sorted sequence the count of a present key is that record's count.
pub proof fn lemma_count_sorted(s: Seq<Record>, i: int)
    requires
        strictly_sorted(s),
        0 <= i < s.len(),
    ensures
        count_of(s, key(s[i])) == s[i].count,
    decreases s.len(),
{
    let k = key(s[i]);
    if i == s.len() - 1 {
        assert forall|j: int| 0 <= j < s.drop_last().len() implies key(s.drop_last()[j]) != k by {
            assert(s.drop_last()[j] == s[j]);
            assert(key_lt(key(s[j]), key(s[i])));
        }
        lemma_count_absent(s.drop_last(), k);
    } else {
        assert(key_lt(key(s[i]), key(s[s.len() - 1])));
        assert(s.drop_last()[i] == s[i]);
        lemma_count_sorted(s.drop_last(), i);
    }
}

/// An aggregate holds the same mass as what it aggregates.
pub proof fn lemma_aggregate_mass(out: Seq<Record>, s: Seq<Record>)
    requires
        is_aggregate_of(out, s),
    ensures
        same_mass(out, s),
{
    assert forall|k: RecordKey| #[trigger] count_of(out, k) == count_of(s, k) && has_key(out, k) == has_key(s, k) by {
        if has_key(out, k) {
            let i = choose|i: int| 0 <= i < out.len() && key(out[i]) == k;
            lemma_count_sorted(out, i);
        } else {
            lemma_count_absent(out, k);
            lemma_count_absent(s, k);
        }
    }
}

/// Being an aggregate depends only on the mass of what is aggregated.
pub proof fn lemma_aggregate_transfer(out: Seq<Record>, s: Seq<Record>, t: Seq<Record>)
    requires
        is_aggregate_of(out, s),
        same_mass(s, t),
    ensures
        is_aggregate_of(out, t),
{
    assert forall|i: int| 0 <= i < out.len() implies (#[trigger] out[i]).count == count_of(t, key(out[i])) by {
        assert(count_of(s, key(out[i])) == count_of(t, key(out[i])));
    }
    assert forall|k: RecordKey| #[trigger] has_key(out, k) <==> has_key(t, k) by {
        assert(has_key(s, k) == has_key(t, k));
    }
}

pub proof fn lemma_same_mass_refl(s: Seq<Record>)
    ensures
        same_mass(s, s),
{
}

pub proof fn lemma_same_mass_trans(s: Seq<Record>, t: Seq<Record>, u: Seq<Record>)
    requires
        same_mass(s, t),
        same_mass(t, u),
    ensures
        same_mass(s, u),
{
    assert forall|k: RecordKey| #[trigger] count_of(s, k) == count_of(u, k) && has_key(s, k) == has_key(u, k) by {
        assert(count_of(s, k) == count_of(t, k) && has_key(s, k) == has_key(t, k));
        assert(count_of(t, k) == count_of(u, k) && has_key(t, k) == has_key(u, k));
    }
}

pub proof fn lemma_same_mass_sym(s: Seq<Record>, t: Seq<Record>)
    requires
        same_mass(s, t),
    ensures
        same_mass(t, s),
{
    assert forall|k: RecordKey| #[trigger] count_of(t, k) == count_of(s, k) && has_key(t, k) == has_key(s, k) by {
        assert(count_of(s, k) == count_of(t, k) && has_key(s, k) == has_key(t, k));
    }
}

/// Appending a record whose key is above all present keys.
pub proof fn lemma_aggregate_push(out: Seq<Record>, s: Seq<Record>, x: Record)
    requires
        is_aggregate_of(out, s),
        forall|p: int| 0 <= p < out.len() ==> key_lt(#[trigger] key(out[p]), key(x)),
    ensures
        is_aggregate_of(out.push(x), s.push(x)),
{
    let o2 = out.push(x);
    let s2 = s.push(x);
    assert(!has_key(out, key(x)));
    assert(!has_key(s, key(x)));
    lemma_count_absent(s, key(x));
    assert(s2.drop_last() =~= s);
    assert forall|k: RecordKey| #[trigger] has_key(o2, k) <==> has_key(s2, k) by {
        if has_key(o2, k) && k != key(x) {
            let i = choose|i: int| 0 <= i < o2.len() && key(o2[i]) == k;
            assert(key(out[i]) == k);
            assert(has_key(out, k));
            assert(has_key(s, k));
            let j = choose|j: int| 0 <= j < s.len() && key(s[j]) == k;
            assert(key(s2[j]) == k);
        }
        if has_key(s2, k) && k != key(x) {
            let i = choose|i: int| 0 <= i < s2.len() && key(s2[i]) == k;
            assert(key(s[i]) == k);
            assert(has_key(s, k));
            assert(has_key(out, k));
            let j = choose|j: int| 0 <= j < out.len() && key(out[j]) == k;
            assert(key(o2[j]) == k);
        }
        if k == key(x) {
            assert(key(o2[out.len() as int]) == k);
            assert(key(s2[s.len() as int]) == k);
        }
    }
    assert forall|i: int| 0 <= i < o2.len() implies (#[trigger] o2[i]).count == count_of(s2, key(o2[i])) by {
        if i < out.len() {
            assert(o2[i] == out[i]);
            assert(key_lt(key(out[i]), key(x)));
        }
    }
}

/// Two aggregates laid side by side, the first wholly below the second.
pub proof fn lemma_aggregate_concat(o1: Seq<Record>, s1: Seq<Record>, o2: Seq<Record>, s2: Seq<Record>)
    requires
        is_aggregate_of(o1, s1),
        is_aggregate_of(o2, s2),
        keys_below(o1, o2),
    ensures
        is_aggregate_of(o1 + o2, s1 + s2),
{
    let o = o1 + o2;
    let s = s1 + s2;
    lemma_mass_concat(o1, o2);
    lemma_mass_concat(s1, s2);
    lemma_aggregate_mass(o1, s1);
    lemma_aggregate_mass(o2, s2);
    assert forall|i: int, j: int| 0 <= i < j < o.len() implies key_lt(#[trigger] key(o[i]), #[trigger] key(o[j])) by {
        if j < o1.len() {
            assert(o[i] == o1[i] && o[j] == o1[j]);
        } else if i >= o1.len() {
            assert(o[i] == o2[i - o1.len()] && o[j] == o2[j - o1.len()]);
        } else {
            assert(o[i] == o1[i] && o[j] == o2[j - o1.len()]);
        }
    }
    assert forall|k: RecordKey| #[trigger] has_key(o, k) <==> has_key(s, k) by {
        assert(has_key(o1, k) == has_key(s1, k));
        assert(has_key(o2, k) == has_key(s2, k));
    }
    assert forall|i: int| 0 <= i < o.len() implies (#[trigger] o[i]).count == count_of(s, key(o[i])) by {
        let k = key(o[i]);
        assert(count_of(o1, k) == count_of(s1, k));
        assert(count_of(o2, k) == count_of(s2, k));
        lemma_count_sorted(o, i);
    }
}

/// Strictly sorted sequences holding the same keys agree position by position.
pub proof fn lemma_sorted_same_keys(x: Seq<Record>, y: Seq<Record>)
    requires
        strictly_sorted(x),
        strictly_sorted(y),
        forall|k: RecordKey| #![trigger has_key(x, k)] #![trigger has_key(y, k)] has_key(x, k) <==> has_key(y, k),
    ensures
        x.len() == y.len(),
        forall|i: int| 0 <= i < x.len() ==> key(#[trigger] x[i]) == key(y[i]),
    decreases x.len() + y.len(),
{
    if x.len() == 0 || y.len() == 0 {
        if x.len() > 0 {
            assert(has_key(x, key(x[0])));
        }
        if y.len() > 0 {
            assert(has_key(y, key(y[0])));
        }
    } else {
        assert(has_key(x, key(x[0])));
        assert(has_key(y, key(x[0])));
        let j = choose|j: int| 0 <= j < y.len() && key(y[j]) == key(x[0]);
        assert(has_key(y, key(y[0])));
        assert(has_key(x, key(y[0])));
        let p = choose|p: int| 0 <= p < x.len() && key(x[p]) == key(y[0]);
        if j > 0 {
            assert(key_lt(key(y[0]), key(y[j])));
            if p > 0 {
                assert(key_lt(key(x[0]), key(x[p])));
            }
            assert(false);
        }
        let xt = x.subrange(1, x.len() as int);
        let yt = y.subrange(1, y.len() as int);
        assert forall|k: RecordKey| #[trigger] has_key(xt, k) <==> has_key(yt, k) by {
            if has_key(xt, k) {
                let a = choose|a: int| 0 <= a < xt.len() && key(xt[a]) == k;
                assert(key(x[a + 1]) == k);
                assert(key_lt(key(x[0]), key(x[a + 1])));
                assert(has_key(x, k));
                assert(has_key(y, k));
                let b = choose|b: int| 0 <= b < y.len() && key(y[b]) == k;
                assert(b != 0);
                assert(key(yt[b - 1]) == k);
            }
            if has_key(yt, k) {
                let a = choose|a: int| 0 <= a < yt.len() && key(yt[a]) == k;
                assert(key(y[a + 1]) == k);
                assert(key_lt(key(y[0]), key(y[a + 1])));
                assert(has_key(y, k));
                assert(has_key(x, k));
                let b = choose|b: int| 0 <= b < x.len() && key(x[b]) == k;
                assert(b != 0);
                assert(key(xt[b - 1]) == k);
            }
        }
        assert(strictly_sorted(xt)) by {
            assert forall|i: int, j: int| 0 <= i < j < xt.len() implies key_lt(#[trigger] key(xt[i]), #[trigger] key(xt[j])) by {
                assert(xt[i] == x[i + 1] && xt[j] == x[j + 1]);
            }
        }
        assert(strictly_sorted(yt)) by {
            assert forall|i: int, j: int| 0 <= i < j < yt.len() implies key_lt(#[trigger] key(yt[i]), #[trigger] key(yt[j])) by {
                assert(yt[i] == y[i + 1] && yt[j] == y[j + 1]);
            }
        }
        lemma_sorted_same_keys(xt, yt);
        assert forall|i: int| 0 <= i < x.len() implies key(#[trigger] x[i]) == key(y[i]) by {
            if i > 0 {
                assert(xt[i - 1] == x[i] && yt[i - 1] == y[i]);
            }
        }
    }
}

/// A sequence has exactly one aggregate.
pub proof fn lemma_aggregate_unique(x: Seq<Record>, y: Seq<Record>, s: Seq<Record>)
    requires
        is_aggregate_of(x, s),
        is_aggregate_of(y, s),
    ensures
        x == y,
{
    assert forall|k: RecordKey| #[trigger] has_key(x, k) <==> has_key(y, k) by {
        assert(has_key(x, k) == has_key(s, k));
        assert(has_key(y, k) == has_key(s, k));
    }
    lemma_sorted_same_keys(x, y);
    assert forall|i: int| 0 <= i < x.len() implies x[i] == y[i] by {
        assert(key(x[i]) == key(y[i]));
    }
    assert(x =~= y);
}

/// The aggregate of `s`: the one sequence `out` with `is_aggregate_of(out, s)`.
pub open spec fn aggregate(s: Seq<Record>) -> Seq<Record> {
    choose|out: Seq<Record>| is_aggregate_of(out, s)
}

/// An aggregate is the aggregate.
pub proof fn lemma_is_the_aggregate(out: Seq<Record>, s: Seq<Record>)
    requires
        is_aggregate_of(out, s),
    ensures
        out == aggregate(s),
{
    let c = aggregate(s);
    assert(is_aggregate_of(c, s));
    lemma_aggregate_unique(out, c, s);
}

} // verus!
