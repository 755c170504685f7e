//! Overlap extraction between two sources: the records of the `(cb, umi)` keys
//! that both sources hold, each side keeping its own records.
use vstd::prelude::*;
use crate::merge::{
    cbumi_sorted, group_key, group_of, has_cbumi, key_in, lemma_records_for, merge_sources,
    records_for, source_trace, source_views, with_cbumi, MergeGroup,
};
use crate::record::{cbumi, CbUmi, Record};

verus! {

proof fn lemma_push_contains(s: Seq<Record>, l: Record, x: Record)
    ensures
        s.push(l).contains(x) <==> (s.contains(x) || x == l),
{
    if s.push(l).contains(x) {
        let i = choose|i: int| 0 <= i < s.push(l).len() && s.push(l)[i] == x;
        if i < s.len() {
            assert(s[i] == x);
        }
    }
    if s.contains(x) {
        let i = choose|i: int| 0 <= i < s.len() && s[i] == x;
        assert(s.push(l)[i] == x);
    }
    if x == l {
        assert(s.push(l)[s.len() as int] == x);
    }
}

proof fn lemma_with_cbumi_contains(s: Seq<Record>, c: CbUmi, x: Record)
    ensures
        with_cbumi(s, c).contains(x) <==> (s.contains(x) && cbumi(x) == c),
    decreases s.len(),
{
    if s.len() > 0 {
        let sd = s.drop_last();
        let l = s.last();
        lemma_with_cbumi_contains(sd, c, x);
        assert(s =~= sd.push(l));
        lemma_push_contains(sd, l, x);
        if cbumi(l) == c {
            lemma_push_contains(with_cbumi(sd, c), l, x);
        }
    }
}

/// Over two sources, a group has two parts exactly when both sources hold its key.
proof fn lemma_two_parts(sv: Seq<Seq<Record>>, g: MergeGroup)
    requires
        sv.len() == 2,
        group_of(sv, g),
    ensures
        g.parts.len() == 2 <==> (has_cbumi(sv[0], group_key(g)) && has_cbumi(sv[1], group_key(g))),
        g.parts.len() == 2 ==> g.parts@[0].source == 0 && g.parts@[1].source == 1,
{
    if g.parts.len() >= 2 {
        assert(g.parts@[0].source < g.parts@[1].source);
        assert(g.parts@[1].source < 2);
        if g.parts.len() > 2 {
            assert(g.parts@[1].source < g.parts@[2].source);
            assert(g.parts@[2].source < 2);
        }
        assert(has_cbumi(sv[g.parts@[0].source as int], group_key(g)));
        assert(has_cbumi(sv[g.parts@[1].source as int], group_key(g)));
    }
    if has_cbumi(sv[0], group_key(g)) && has_cbumi(sv[1], group_key(g)) {
        let t0 = choose|t: int| 0 <= t < g.parts.len() && (#[trigger] g.parts@[t]).source == 0;
        let t1 = choose|t: int| 0 <= t < g.parts.len() && (#[trigger] g.parts@[t]).source == 1;
        assert(t0 != t1);
        if g.parts.len() > 2 {
            assert(g.parts@[0].source < g.parts@[1].source);
            assert(g.parts@[1].source < g.parts@[2].source);
            assert(g.parts@[2].source < 2);
        }
    }
}

/// `x` is in `s` and its coarse key is found in `other` too.
pub open spec fn shared(s: Seq<Record>, other: Seq<Record>, x: Record) -> bool {
    s.contains(x) && has_cbumi(other, cbumi(x))
}

/// The records of `s`, in order, whose coarse key is found in `other` too.
pub open spec fn shared_records(s: Seq<Record>, other: Seq<Record>) -> Seq<Record>
    decreases s.len(),
{
    if s.len() == 0 {
        Seq::empty()
    } else if has_cbumi(other, cbumi(s.last())) {
        shared_records(s.drop_last(), other).push(s.last())
    } else {
        shared_records(s.drop_last(), other)
    }
}

proof fn lemma_shared_concat(x: Seq<Record>, y: Seq<Record>, o: Seq<Record>)
    ensures
        shared_records(x + y, o) == shared_records(x, o) + shared_records(y, o),
    decreases y.len(),
{
    if y.len() == 0 {
        assert(x + y =~= x);
        assert(shared_records(x, o) + shared_records(y, o) =~= shared_records(x, o));
    } else {
        assert((x + y).drop_last() =~= x + y.drop_last());
        assert((x + y).last() == y.last());
        lemma_shared_concat(x, y.drop_last(), o);
        if has_cbumi(o, cbumi(y.last())) {
            assert(shared_records(x, o) + shared_records(y.drop_last(), o).push(y.last()) =~= (shared_records(x, o)
                + shared_records(y.drop_last(), o)).push(y.last()));
        }
    }
}

proof fn lemma_shared_block(x: Seq<Record>, o: Seq<Record>, c: CbUmi)
    requires
        forall|q: int| 0 <= q < x.len() ==> cbumi(#[trigger] x[q]) == c,
    ensures
        shared_records(x, o) == if has_cbumi(o, c) {
            x
        } else {
            Seq::<Record>::empty()
        },
    decreases x.len(),
{
    if x.len() > 0 {
        assert(cbumi(x[x.len() - 1]) == c);
        assert forall|q: int| 0 <= q < x.drop_last().len() implies cbumi(#[trigger] x.drop_last()[q]) == c by {
            assert(x.drop_last()[q] == x[q]);
        }
        lemma_shared_block(x.drop_last(), o, c);
        assert(x.drop_last().push(x.last()) =~= x);
    }
}

proof fn lemma_shared_contains(s: Seq<Record>, o: Seq<Record>, x: Record)
    ensures
        shared_records(s, o).contains(x) <==> shared(s, o, x),
    decreases s.len(),
{
    if s.len() > 0 {
        let sd = s.drop_last();
        let l = s.last();
        lemma_shared_contains(sd, o, x);
        assert(s =~= sd.push(l));
        lemma_push_contains(sd, l, x);
        if has_cbumi(o, cbumi(l)) {
            lemma_push_contains(shared_records(sd, o), l, x);
        }
    }
}

/// What source `i` contributes to the group, as the records it holds of the key.
proof fn lemma_group_block(sv: Seq<Seq<Record>>, g: MergeGroup, i: int)
    requires
        group_of(sv, g),
        0 <= i < sv.len(),
    ensures
        forall|q: int| 0 <= q < records_for(g.parts@, i).len() ==> cbumi(#[trigger] records_for(g.parts@, i)[q]) == group_key(g),
        records_for(g.parts@, i).len() > 0 ==> has_cbumi(sv[i], group_key(g)),
{
    lemma_records_for(g.parts@, i);
    if exists|u: int| 0 <= u < g.parts.len() && (#[trigger] g.parts@[u]).source == i {
        let u = choose|u: int| 0 <= u < g.parts.len() && (#[trigger] g.parts@[u]).source == i;
        let r = records_for(g.parts@, i);
        assert(r == with_cbumi(sv[i], group_key(g)));
        assert forall|q: int| 0 <= q < r.len() implies cbumi(#[trigger] r[q]) == group_key(g) by {
            assert(r.contains(r[q]));
            lemma_with_cbumi_contains(sv[i], group_key(g), r[q]);
        }
    }
}

/// The records of `a` and of `b` whose `(cb, umi)` key both of them hold; keys
/// found in only one source are dropped from both outputs.
#[verifier::loop_isolation(false)]
pub fn overlap_records(a: &Vec<Record>, b: &Vec<Record>) -> (r: (Vec<Record>, Vec<Record>))
    requires
        cbumi_sorted(a@),
        cbumi_sorted(b@),
    ensures
        r.0@ == shared_records(a@, b@),
        r.1@ == shared_records(b@, a@),
        forall|x: Record| #[trigger] r.0@.contains(x) <==> shared(a@, b@, x),
        forall|x: Record| #[trigger] r.1@.contains(x) <==> shared(b@, a@, x),
{
    let mut sources: Vec<Vec<Record>> = Vec::new();
    sources.push(a.clone());
    sources.push(b.clone());
    let ghost sv = source_views(sources@);
    proof {
        assert(sv.len() == 2);
        assert(sv[0] == a@);
        assert(sv[1] == b@);
        assert forall|i: int| 0 <= i < sources.len() implies cbumi_sorted(#[trigger] sources@[i]@) by {
            if i == 0 {
                assert(sources@[i]@ == a@);
            } else {
                assert(sources@[i]@ == b@);
            }
        }
    }
    let groups = merge_sources(&sources);
    let mut out1: Vec<Record> = Vec::new();
    let mut out2: Vec<Record> = Vec::new();
    let mut k: usize = 0;
    proof {
        assert(groups@.subrange(0, 0) =~= Seq::<MergeGroup>::empty());
    }
    while k < groups.len()
        invariant
            k <= groups.len(),
            out1@ == shared_records(source_trace(groups@.subrange(0, k as int), 0), b@),
            out2@ == shared_records(source_trace(groups@.subrange(0, k as int), 1), a@),
        decreases groups.len() - k,
    {
        let g = &groups[k];
        let ghost o1_start = out1@;
        let ghost o2_start = out2@;
        let ghost rk0 = records_for(groups@[k as int].parts@, 0);
        let ghost rk1 = records_for(groups@[k as int].parts@, 1);
        proof {
            assert(group_of(sv, groups@[k as int]));
            lemma_two_parts(sv, groups@[k as int]);
            lemma_records_for(groups@[k as int].parts@, 0);
            lemma_records_for(groups@[k as int].parts@, 1);
            lemma_group_block(sv, groups@[k as int], 0);
            lemma_group_block(sv, groups@[k as int], 1);
            let gs = groups@.subrange(0, k + 1);
            assert(gs.drop_last() =~= groups@.subrange(0, k as int));
            assert(gs.last() == groups@[k as int]);
            let t0 = source_trace(groups@.subrange(0, k as int), 0);
            let t1 = source_trace(groups@.subrange(0, k as int), 1);
            lemma_shared_concat(t0, rk0, b@);
            lemma_shared_concat(t1, rk1, a@);
            lemma_shared_block(rk0, b@, group_key(groups@[k as int]));
            lemma_shared_block(rk1, a@, group_key(groups@[k as int]));
        }
        if g.parts.len() == 2 {
            let p1 = &g.parts[0].records;
            let p2 = &g.parts[1].records;
            proof {
                assert(rk0 == p1@);
                assert(rk1 == p2@);
            }
            let mut q: usize = 0;
            while q < p1.len()
                invariant
                    q <= p1.len(),
                    out1@ == o1_start + p1@.subrange(0, q as int),
                decreases p1.len() - q,
            {
                out1.push(p1[q]);
                q = q + 1;
                proof {
                    assert(out1@ =~= o1_start + p1@.subrange(0, q as int));
                }
            }
            let mut q: usize = 0;
            while q < p2.len()
                invariant
                    q <= p2.len(),
                    out2@ == o2_start + p2@.subrange(0, q as int),
                decreases p2.len() - q,
            {
                out2.push(p2[q]);
                q = q + 1;
                proof {
                    assert(out2@ =~= o2_start + p2@.subrange(0, q as int));
                }
            }
            proof {
                assert(p1@.subrange(0, p1.len() as int) =~= p1@);
                assert(p2@.subrange(0, p2.len() as int) =~= p2@);
            }
        } else {
            proof {
                if rk0.len() > 0 {
                    assert(has_cbumi(sv[0], group_key(groups@[k as int])));
                    assert(!has_cbumi(sv[1], group_key(groups@[k as int])));
                }
                if rk1.len() > 0 {
                    assert(has_cbumi(sv[1], group_key(groups@[k as int])));
                    assert(!has_cbumi(sv[0], group_key(groups@[k as int])));
                }
                assert(shared_records(rk0, b@) =~= Seq::<Record>::empty());
                assert(shared_records(rk1, a@) =~= Seq::<Record>::empty());
                assert(out1@ =~= o1_start + shared_records(rk0, b@));
                assert(out2@ =~= o2_start + shared_records(rk1, a@));
            }
        }
        k = k + 1;
    }
    proof {
        assert(groups@.subrange(0, k as int) =~= groups@);
        assert(source_trace(groups@, 0) == sv[0]);
        assert(source_trace(groups@, 1) == sv[1]);
        assert forall|x: Record| #[trigger] out1@.contains(x) <==> shared(a@, b@, x) by {
            lemma_shared_contains(a@, b@, x);
        }
        assert forall|x: Record| #[trigger] out2@.contains(x) <==> shared(b@, a@, x) by {
            lemma_shared_contains(b@, a@, x);
        }
    }
    (out1, out2)
}

/// Overlap extraction: a record is in an output exactly when its source holds
/// it and the other source holds its `(cb, umi)` key too.
pub proof fn lemma_overlap_keys(a: Seq<Record>, b: Seq<Record>, c: CbUmi)
    ensures
        has_cbumi(shared_records(a, b), c) <==> (has_cbumi(a, c) && has_cbumi(b, c)),
{
    if has_cbumi(shared_records(a, b), c) {
        let q = choose|q: int| 0 <= q < shared_records(a, b).len() && cbumi(shared_records(a, b)[q]) == c;
        let x = shared_records(a, b)[q];
        assert(shared_records(a, b).contains(x));
        lemma_shared_contains(a, b, x);
        let i = choose|i: int| 0 <= i < a.len() && a[i] == x;
        assert(cbumi(a[i]) == c);
    }
    if has_cbumi(a, c) && has_cbumi(b, c) {
        let i = choose|i: int| 0 <= i < a.len() && cbumi(a[i]) == c;
        let x = a[i];
        assert(a.contains(x));
        lemma_shared_contains(a, b, x);
        let q = choose|q: int| 0 <= q < shared_records(a, b).len() && shared_records(a, b)[q] == x;
    }
}

} // verus!
