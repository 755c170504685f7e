//! The run builder: turns a batch of records into a run, sorted by full key with
//! one record per key and the counts of each key summed.
use vstd::prelude::*;
use crate::record::{
    aggregate, lemma_is_the_aggregate,
    count_of, counts_fit, has_key, is_aggregate_of, key, key_less, key_lt,
    lemma_aggregate_mass, lemma_aggregate_push, lemma_aggregate_transfer,
    lemma_aggregate_unique, lemma_count_concat, lemma_count_sorted, lemma_has_key_concat,
    lemma_mass_concat, lemma_mass_single, lemma_same_mass_concat, lemma_same_mass_sym, same_mass, strictly_sorted, Record, RecordKey,
};

verus! {

/// The records of all `groups`, one group after the other.
pub open spec fn concat_all(groups: Seq<Seq<Record>>) -> Seq<Record>
    decreases groups.len(),
{
    if groups.len() == 0 {
        Seq::empty()
    } else {
        concat_all(groups.drop_last()) + groups.last()
    }
}

/// The views of a list of record vectors.
pub open spec fn views(groups: Seq<Vec<Record>>) -> Seq<Seq<Record>> {
    groups.map_values(|g: Vec<Record>| g@)
}

pub proof fn lemma_counts_fit_part(a: Seq<Record>, b: Seq<Record>)
    requires
        counts_fit(a + b),
    ensures
        counts_fit(a),
        counts_fit(b),
{
    assert forall|k: RecordKey| #[trigger] count_of(a, k) <= u32::MAX by {
        lemma_count_concat(a, b, k);
        assert(count_of(a + b, k) <= u32::MAX);
    }
    assert forall|k: RecordKey| #[trigger] count_of(b, k) <= u32::MAX by {
        lemma_count_concat(a, b, k);
        assert(count_of(a + b, k) <= u32::MAX);
    }
}

pub proof fn lemma_counts_fit_same_mass(s: Seq<Record>, t: Seq<Record>)
    requires
        counts_fit(s),
        same_mass(s, t),
    ensures
        counts_fit(t),
{
    assert forall|k: RecordKey| #[trigger] count_of(t, k) <= u32::MAX by {
        assert(count_of(s, k) == count_of(t, k));
    }
}

/// Merges two runs into one run, summing the counts of a key found in both.
pub fn merge_runs(a: &Vec<Record>, b: &Vec<Record>) -> (r: Vec<Record>)
    requires
        strictly_sorted(a@),
        strictly_sorted(b@),
        counts_fit(a@ + b@),
    ensures
        is_aggregate_of(r@, a@ + b@),
{
    let mut out: Vec<Record> = Vec::new();
    let mut i: usize = 0;
    let mut j: usize = 0;
    proof {
        assert(a@.subrange(0, 0) + b@.subrange(0, 0) =~= Seq::<Record>::empty());
    }
    while i < a.len() || j < b.len()
        invariant
            i <= a.len(),
            j <= b.len(),
            strictly_sorted(a@),
            strictly_sorted(b@),
            counts_fit(a@ + b@),
            is_aggregate_of(out@, a@.subrange(0, i as int) + b@.subrange(0, j as int)),
            forall|p: int, q: int|
                0 <= p < out.len() && i <= q < a.len() ==> key_lt(#[trigger] key(out@[p]), #[trigger] key(a@[q])),
            forall|p: int, q: int|
                0 <= p < out.len() && j <= q < b.len() ==> key_lt(#[trigger] key(out@[p]), #[trigger] key(b@[q])),
        decreases a.len() + b.len() - i - j,
    {
        let ghost consumed = a@.subrange(0, i as int) + b@.subrange(0, j as int);
        let ghost old_out = out@;
        if j >= b.len() || (i < a.len() && key_less(&a[i], &b[j])) {
            let x = a[i];
            proof {
                assert forall|p: int| 0 <= p < out.len() implies key_lt(#[trigger] key(out@[p]), key(x)) by {
                    assert(key_lt(key(out@[p]), key(a@[i as int])));
                }
                lemma_aggregate_push(out@, consumed, x);
            }
            out.push(x);
            i = i + 1;
            proof {
                let c2 = a@.subrange(0, i as int) + b@.subrange(0, j as int);
                let c1 = consumed.push(x);
                assert(a@.subrange(0, i as int) =~= a@.subrange(0, i - 1) + seq![x]);
                lemma_mass_concat(a@.subrange(0, i - 1), seq![x]);
                lemma_mass_concat(a@.subrange(0, i as int), b@.subrange(0, j as int));
                lemma_mass_concat(a@.subrange(0, i - 1), b@.subrange(0, j as int));
                assert(c1 =~= consumed + seq![x]);
                lemma_mass_concat(consumed, seq![x]);
                assert(same_mass(c1, c2));
                lemma_aggregate_transfer(out@, c1, c2);
                assert forall|p: int, q: int|
                    0 <= p < out.len() && i <= q < a.len() implies key_lt(#[trigger] key(out@[p]), #[trigger] key(a@[q])) by {
                    if p < old_out.len() {
                        assert(out@[p] == old_out[p]);
                    } else {
                        assert(key_lt(key(a@[i - 1]), key(a@[q])));
                    }
                }
                assert forall|p: int, q: int|
                    0 <= p < out.len() && j <= q < b.len() implies key_lt(#[trigger] key(out@[p]), #[trigger] key(b@[q])) by {
                    if p < old_out.len() {
                        assert(out@[p] == old_out[p]);
                    } else if j < q {
                        assert(key_lt(key(b@[j as int]), key(b@[q])));
                    }
                }
            }
        } else if i >= a.len() || key_less(&b[j], &a[i]) {
            let x = b[j];
            proof {
                assert forall|p: int| 0 <= p < out.len() implies key_lt(#[trigger] key(out@[p]), key(x)) by {
                    assert(key_lt(key(out@[p]), key(b@[j as int])));
                }
                lemma_aggregate_push(out@, consumed, x);
            }
            out.push(x);
            j = j + 1;
            proof {
                let c2 = a@.subrange(0, i as int) + b@.subrange(0, j as int);
                let c1 = consumed.push(x);
                let ai = a@.subrange(0, i as int);
                let bj = b@.subrange(0, j - 1);
                assert(b@.subrange(0, j as int) =~= bj + seq![x]);
                assert(c2 =~= ai + (bj + seq![x]));
                assert(c1 =~= (ai + bj) + seq![x]);
                assert(ai + (bj + seq![x]) =~= (ai + bj) + seq![x]);
                assert(c1 =~= c2);
                assert forall|p: int, q: int|
                    0 <= p < out.len() && i <= q < a.len() implies key_lt(#[trigger] key(out@[p]), #[trigger] key(a@[q])) by {
                    if p < old_out.len() {
                        assert(out@[p] == old_out[p]);
                    } else if i < q {
                        assert(key_lt(key(a@[i as int]), key(a@[q])));
                    }
                }
                assert forall|p: int, q: int|
                    0 <= p < out.len() && j <= q < b.len() implies key_lt(#[trigger] key(out@[p]), #[trigger] key(b@[q])) by {
                    if p < old_out.len() {
                        assert(out@[p] == old_out[p]);
                    } else {
                        assert(key_lt(key(b@[j - 1]), key(b@[q])));
                    }
                }
            }
        } else {
            let xa = a[i];
            let xb = b[j];
            proof {
                lemma_count_sorted(a@, i as int);
                lemma_count_sorted(b@, j as int);
                lemma_count_concat(a@, b@, key(xa));
                assert(count_of(a@ + b@, key(xa)) <= u32::MAX);
            }
            let x = Record { cb: xa.cb, umi: xa.umi, ec: xa.ec, count: xa.count + xb.count, flag: xa.flag };
            proof {
                assert forall|p: int| 0 <= p < out.len() implies key_lt(#[trigger] key(out@[p]), key(x)) by {
                    assert(key_lt(key(out@[p]), key(a@[i as int])));
                }
                lemma_aggregate_push(out@, consumed, x);
            }
            out.push(x);
            i = i + 1;
            j = j + 1;
            proof {
                let c2 = a@.subrange(0, i as int) + b@.subrange(0, j as int);
                let c1 = consumed.push(x);
                let ai = a@.subrange(0, i - 1);
                let bj = b@.subrange(0, j - 1);
                assert(a@.subrange(0, i as int) =~= ai + seq![xa]);
                assert(b@.subrange(0, j as int) =~= bj + seq![xb]);
                assert(c1 =~= (ai + bj) + seq![x]);
                // c2 has the same mass as (ai + bj) + [x]
                assert forall|k: RecordKey|
                    #![trigger count_of(c1, k)]
                    #![trigger count_of(c2, k)]
                    #![trigger has_key(c1, k)]
                    #![trigger has_key(c2, k)]
                    count_of(c1, k) == count_of(c2, k) && has_key(c1, k) == has_key(c2, k) by {
                    lemma_count_concat(ai + seq![xa], bj + seq![xb], k);
                    lemma_has_key_concat(ai + seq![xa], bj + seq![xb], k);
                    lemma_count_concat(ai, seq![xa], k);
                    lemma_has_key_concat(ai, seq![xa], k);
                    lemma_count_concat(bj, seq![xb], k);
                    lemma_has_key_concat(bj, seq![xb], k);
                    lemma_count_concat(ai + bj, seq![x], k);
                    lemma_has_key_concat(ai + bj, seq![x], k);
                    lemma_count_concat(ai, bj, k);
                    lemma_has_key_concat(ai, bj, k);
                    lemma_mass_single(x, k);
                    lemma_mass_single(xa, k);
                    lemma_mass_single(xb, k);
                }
                lemma_aggregate_transfer(out@, c1, c2);
                assert forall|p: int, q: int|
                    0 <= p < out.len() && i <= q < a.len() implies key_lt(#[trigger] key(out@[p]), #[trigger] key(a@[q])) by {
                    if p < old_out.len() {
                        assert(out@[p] == old_out[p]);
                    } else {
                        assert(key_lt(key(a@[i - 1]), key(a@[q])));
                    }
                }
                assert forall|p: int, q: int|
                    0 <= p < out.len() && j <= q < b.len() implies key_lt(#[trigger] key(out@[p]), #[trigger] key(b@[q])) by {
                    if p < old_out.len() {
                        assert(out@[p] == old_out[p]);
                    } else {
                        assert(key_lt(key(b@[j - 1]), key(b@[q])));
                    }
                }
            }
        }
    }
    proof {
        assert(a@.subrange(0, i as int) =~= a@);
        assert(b@.subrange(0, j as int) =~= b@);
    }
    out
}

fn sort_range(v: &Vec<Record>, lo: usize, hi: usize) -> (r: Vec<Record>)
    requires
        lo <= hi <= v.len(),
        counts_fit(v@.subrange(lo as int, hi as int)),
    ensures
        is_aggregate_of(r@, v@.subrange(lo as int, hi as int)),
    decreases hi - lo,
{
    if hi - lo == 0 {
        proof {
            assert(v@.subrange(lo as int, hi as int) =~= Seq::<Record>::empty());
        }
        Vec::new()
    } else if hi - lo == 1 {
        let mut r: Vec<Record> = Vec::new();
        r.push(v[lo]);
        proof {
            let s = v@.subrange(lo as int, hi as int);
            assert(s =~= seq![v@[lo as int]]);
            assert(r@ =~= s);
            lemma_count_sorted(s, 0);
        }
        r
    } else {
        let mid = lo + (hi - lo) / 2;
        let ghost left_s = v@.subrange(lo as int, mid as int);
        let ghost right_s = v@.subrange(mid as int, hi as int);
        proof {
            assert(v@.subrange(lo as int, hi as int) =~= left_s + right_s);
            lemma_counts_fit_part(left_s, right_s);
        }
        let left = sort_range(v, lo, mid);
        let right = sort_range(v, mid, hi);
        proof {
            lemma_aggregate_mass(left@, left_s);
            lemma_aggregate_mass(right@, right_s);
            lemma_same_mass_concat(left@, right@, left_s, right_s);
            lemma_same_mass_sym(left@ + right@, left_s + right_s);
            lemma_counts_fit_same_mass(left_s + right_s, left@ + right@);
        }
        let r = merge_runs(&left, &right);
        proof {
            lemma_aggregate_transfer(r@, left@ + right@, left_s + right_s);
        }
        r
    }
}

/// Builds a run from a batch: sorted by full key, one record per key, counts of
/// a key summed.
pub fn build_run(records: &Vec<Record>) -> (r: Vec<Record>)
    requires
        counts_fit(records@),
    ensures
        is_aggregate_of(r@, records@),
        r@ == aggregate(records@),
{
    proof {
        assert(records@.subrange(0, records@.len() as int) =~= records@);
    }
    let r = sort_range(records, 0, records.len());
    proof {
        lemma_is_the_aggregate(r@, records@);
    }
    r
}

/// Aggregates the records of several groups (for instance the parts that
/// different runs hold of one coarse key) into a single run.
pub fn merge_chunks(groups: &Vec<Vec<Record>>) -> (r: Vec<Record>)
    requires
        counts_fit(concat_all(views(groups@))),
    ensures
        is_aggregate_of(r@, concat_all(views(groups@))),
{
    let mut all: Vec<Record> = Vec::new();
    let mut g: usize = 0;
    while g < groups.len()
        invariant
            g <= groups.len(),
            all@ == concat_all(views(groups@).subrange(0, g as int)),
        decreases groups.len() - g,
    {
        let group = &groups[g];
        let ghost before = all@;
        let mut q: usize = 0;
        while q < group.len()
            invariant
                q <= group.len(),
                all@ == before + group@.subrange(0, q as int),
            decreases group.len() - q,
        {
            all.push(group[q]);
            q = q + 1;
            proof {
                assert(group@.subrange(0, q as int) =~= group@.subrange(0, q - 1).push(group@[q - 1]));
                assert(all@ =~= before + group@.subrange(0, q as int));
            }
        }
        g = g + 1;
        proof {
            let vs = views(groups@).subrange(0, g as int);
            assert(vs.drop_last() =~= views(groups@).subrange(0, g - 1));
            assert(group@.subrange(0, q as int) =~= group@);
            assert(vs.last() == group@);
        }
    }
    proof {
        assert(views(groups@).subrange(0, g as int) =~= views(groups@));
    }
    build_run(&all)
}

/// A strictly sorted sequence is its own aggregate.
pub proof fn lemma_sorted_is_aggregate(s: Seq<Record>)
    requires
        strictly_sorted(s),
    ensures
        is_aggregate_of(s, s),
{
    assert forall|i: int| 0 <= i < s.len() implies (#[trigger] s[i]).count == count_of(s, key(s[i])) by {
        lemma_count_sorted(s, i);
    }
}

/// Building a run from a sequence that is already sorted and aggregated gives
/// back that very sequence.
pub proof fn lemma_build_run_idempotent(s: Seq<Record>, r: Seq<Record>)
    requires
        strictly_sorted(s),
        is_aggregate_of(r, s),
    ensures
        r == s,
{
    lemma_sorted_is_aggregate(s);
    lemma_aggregate_unique(r, s, s);
}

} // verus!
