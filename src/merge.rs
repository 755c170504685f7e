//! Synchronized merging of several sources that are each sorted by `(cb, umi)`:
//! the sources advance in lockstep, and each step yields the smallest coarse key
//! still present together with what every source holds of it.
use vstd::prelude::*;
use crate::record::{cbumi, cbumi_lt, key, key_lt, strictly_sorted, CbUmi, Record};

verus! {

/// `a` is at most `b` in the coarse key order.
pub open spec fn cbumi_le(a: CbUmi, b: CbUmi) -> bool {
    a == b || cbumi_lt(a, b)
}

/// The coarse key of the head of each source equals `k` exactly for the listed sources.
pub open spec fn selects(heads: Seq<Option<CbUmi>>, k: CbUmi, idx: Seq<usize>) -> bool {
    &&& forall|t: int, u: int| 0 <= t < u < idx.len() ==> idx[t] < idx[u]
    &&& forall|t: int| 0 <= t < idx.len() ==> (#[trigger] idx[t]) < heads.len() && heads[idx[t] as int] == Some(k)
    &&& forall|i: int| 0 <= i < heads.len() && #[trigger] heads[i] == Some(k) ==> idx.contains(i as usize)
}

/// `k` is the smallest key among the heads that are present, and some head holds it.
pub open spec fn is_min_head(heads: Seq<Option<CbUmi>>, k: CbUmi) -> bool {
    &&& exists|i: int| 0 <= i < heads.len() && heads[i] == Some(k)
    &&& forall|i: int| 0 <= i < heads.len() && (#[trigger] heads[i]) is Some ==> cbumi_le(k, heads[i]->0)
}

fn cbumi_less(a: CbUmi, b: CbUmi) -> (r: bool)
    ensures
        r == cbumi_lt(a, b),
{
    a.0 < b.0 || (a.0 == b.0 && a.1 < b.1)
}

/// One step of the merge: given the coarse key at the head of each source
/// (`None` for a source that is exhausted), returns the smallest key and the
/// sources, in ascending order, whose head holds it; `None` once every source is
/// exhausted.
pub fn select_min_sources(heads: &Vec<Option<CbUmi>>) -> (r: Option<(CbUmi, Vec<usize>)>)
    ensures
        r is None <==> forall|i: int| 0 <= i < heads.len() ==> (#[trigger] heads@[i]) is None,
        r matches Some((k, idx)) ==> is_min_head(heads@, k) && selects(heads@, k, idx@),
{
    let mut best: Option<CbUmi> = None;
    let mut i: usize = 0;
    while i < heads.len()
        invariant
            i <= heads.len(),
            best is None <==> forall|p: int| 0 <= p < i ==> (#[trigger] heads@[p]) is None,
            best matches Some(k) ==> is_min_head(heads@.subrange(0, i as int), k),
        decreases heads.len() - i,
    {
        let ghost sub = heads@.subrange(0, i as int);
        let ghost sub2 = heads@.subrange(0, i + 1);
        match heads[i] {
            None => {},
            Some(h) => {
                match best {
                    None => {
                        best = Some(h);
                    },
                    Some(b) => {
                        if cbumi_less(h, b) {
                            best = Some(h);
                        }
                    },
                }
            },
        }
        proof {
            match best {
                Some(k) => {
                    assert forall|p: int| 0 <= p < sub2.len() && (#[trigger] sub2[p]) is Some implies cbumi_le(k, sub2[p]->0) by {
                        if p < i {
                            assert(sub2[p] == sub[p]);
                        }
                    }
                    if heads@[i as int] == Some(k) {
                        assert(sub2[i as int] == Some(k));
                    } else {
                        let w = choose|w: int| 0 <= w < sub.len() && sub[w] == Some(k);
                        assert(sub2[w] == Some(k));
                    }
                },
                None => {},
            }
        }
        i = i + 1;
    }
    proof {
        assert(heads@.subrange(0, i as int) =~= heads@);
    }
    match best {
        None => None,
        Some(k) => {
            let mut idx: Vec<usize> = Vec::new();
            let mut j: usize = 0;
            while j < heads.len()
                invariant
                    j <= heads.len(),
                    forall|t: int, u: int| 0 <= t < u < idx.len() ==> idx@[t] < idx@[u],
                    forall|t: int| 0 <= t < idx.len() ==> (#[trigger] idx@[t]) < j && heads@[idx@[t] as int] == Some(k),
                    forall|p: int| 0 <= p < j && #[trigger] heads@[p] == Some(k) ==> idx@.contains(p as usize),
                decreases heads.len() - j,
            {
                let ghost before = idx@;
                if heads[j] == Some(k) {
                    idx.push(j);
                    proof {
                        assert(idx@[before.len() as int] == j);
                        assert forall|p: int| 0 <= p < j + 1 && #[trigger] heads@[p] == Some(k) implies idx@.contains(p as usize) by {
                            if p < j {
                                let t = choose|t: int| 0 <= t < before.len() && before[t] == p as usize;
                                assert(idx@[t] == p as usize);
                            }
                        }
                    }
                }
                j = j + 1;
            }
            Some((k, idx))
        },
    }
}


/// How many records the merge has still to take.
pub open spec fn remaining(runs: Seq<Seq<Record>>, pos: Seq<usize>) -> int
    decreases runs.len(),
{
    if runs.len() == 0 {
        0
    } else {
        remaining(runs.drop_last(), pos.drop_last()) + runs.last().len() - pos.last()
    }
}

/// Cursors that stay within their runs.
pub open spec fn cursors_ok(runs: Seq<Seq<Record>>, pos: Seq<usize>) -> bool {
    &&& pos.len() == runs.len()
    &&& forall|i: int| 0 <= i < runs.len() ==> #[trigger] pos[i] <= runs[i].len()
}

/// The coarse key at a cursor, if the run is not exhausted there.
pub open spec fn head_at(run: Seq<Record>, p: int) -> Option<CbUmi> {
    if 0 <= p < run.len() {
        Some(cbumi(run[p]))
    } else {
        None
    }
}

pub proof fn lemma_cursors_drop(runs: Seq<Seq<Record>>, pos: Seq<usize>)
    requires
        cursors_ok(runs, pos),
        runs.len() > 0,
    ensures
        cursors_ok(runs.drop_last(), pos.drop_last()),
{
    assert forall|i: int| 0 <= i < runs.drop_last().len() implies #[trigger] pos.drop_last()[i] <= runs.drop_last()[i].len() by {
        assert(pos[i] <= runs[i].len());
    }
}

/// Along a run, coarse keys never decrease.
pub proof fn lemma_coarse_sorted(s: Seq<Record>, a: int, b: int)
    requires
        strictly_sorted(s),
        0 <= a <= b < s.len(),
    ensures
        cbumi_le(cbumi(s[a]), cbumi(s[b])),
{
    if a < b {
        assert(key_lt(key(s[a]), key(s[b])));
    }
}

pub proof fn lemma_remaining_advance(runs: Seq<Seq<Record>>, pos: Seq<usize>, j: int, v: usize)
    requires
        cursors_ok(runs, pos),
        0 <= j < runs.len(),
        pos[j] <= v <= runs[j].len(),
    ensures
        remaining(runs, pos.update(j, v)) == remaining(runs, pos) - (v - pos[j]),
    decreases runs.len(),
{
    let pos2 = pos.update(j, v);
    if j == runs.len() - 1 {
        assert(pos2.drop_last() =~= pos.drop_last());
    } else {
        lemma_cursors_drop(runs, pos);
        assert(pos2.drop_last() =~= pos.drop_last().update(j, v));
        lemma_remaining_advance(runs.drop_last(), pos.drop_last(), j, v);
    }
}

pub proof fn lemma_remaining_nonneg(runs: Seq<Seq<Record>>, pos: Seq<usize>)
    requires
        cursors_ok(runs, pos),
    ensures
        remaining(runs, pos) >= 0,
    decreases runs.len(),
{
    if runs.len() > 0 {
        lemma_cursors_drop(runs, pos);
        lemma_remaining_nonneg(runs.drop_last(), pos.drop_last());
        assert(pos[runs.len() - 1] <= runs[runs.len() - 1].len());
    }
}

/// Some record of `s` has coarse key `c`.
pub open spec fn has_cbumi(s: Seq<Record>, c: CbUmi) -> bool {
    exists|i: int| 0 <= i < s.len() && cbumi(s[i]) == c
}

/// The records of `s` with coarse key `c`, in their order.
pub open spec fn with_cbumi(s: Seq<Record>, c: CbUmi) -> Seq<Record>
    decreases s.len(),
{
    if s.len() == 0 {
        Seq::empty()
    } else if cbumi(s.last()) == c {
        with_cbumi(s.drop_last(), c).push(s.last())
    } else {
        with_cbumi(s.drop_last(), c)
    }
}

/// Coarse keys never decrease along `s`.
pub open spec fn cbumi_sorted(s: Seq<Record>) -> bool {
    forall|i: int, j: int| 0 <= i <= j < s.len() ==> cbumi_le(#[trigger] cbumi(s[i]), #[trigger] cbumi(s[j]))
}

pub proof fn lemma_with_cbumi_concat(a: Seq<Record>, b: Seq<Record>, c: CbUmi)
    ensures
        with_cbumi(a + b, c) == with_cbumi(a, c) + with_cbumi(b, c),
    decreases b.len(),
{
    if b.len() == 0 {
        assert(a + b =~= a);
        assert(with_cbumi(a, c) + with_cbumi(b, c) =~= with_cbumi(a, c));
    } else {
        assert((a + b).drop_last() =~= a + b.drop_last());
        assert((a + b).last() == b.last());
        lemma_with_cbumi_concat(a, b.drop_last(), c);
        if cbumi(b.last()) == c {
            assert(with_cbumi(a, c) + with_cbumi(b.drop_last(), c).push(b.last()) =~= (with_cbumi(a, c)
                + with_cbumi(b.drop_last(), c)).push(b.last()));
        }
    }
}

pub proof fn lemma_with_cbumi_none(s: Seq<Record>, c: CbUmi)
    requires
        forall|i: int| 0 <= i < s.len() ==> cbumi(#[trigger] s[i]) != c,
    ensures
        with_cbumi(s, c) == Seq::<Record>::empty(),
    decreases s.len(),
{
    if s.len() > 0 {
        assert(cbumi(s[s.len() - 1]) != c);
        assert forall|i: int| 0 <= i < s.drop_last().len() implies cbumi(#[trigger] s.drop_last()[i]) != c by {
            assert(s.drop_last()[i] == s[i]);
        }
        lemma_with_cbumi_none(s.drop_last(), c);
    }
}

pub proof fn lemma_with_cbumi_all(s: Seq<Record>, c: CbUmi)
    requires
        forall|i: int| 0 <= i < s.len() ==> cbumi(#[trigger] s[i]) == c,
    ensures
        with_cbumi(s, c) == s,
    decreases s.len(),
{
    if s.len() > 0 {
        assert(cbumi(s[s.len() - 1]) == c);
        assert forall|i: int| 0 <= i < s.drop_last().len() implies cbumi(#[trigger] s.drop_last()[i]) == c by {
            assert(s.drop_last()[i] == s[i]);
        }
        lemma_with_cbumi_all(s.drop_last(), c);
        assert(s.drop_last().push(s.last()) =~= s);
    }
}

/// What one source holds of a coarse key.
pub struct SourcePart {
    pub source: usize,
    pub records: Vec<Record>,
}

/// One coarse key with, for every source that holds it, the records it holds.
pub struct MergeGroup {
    pub cb: u64,
    pub umi: u64,
    pub parts: Vec<SourcePart>,
}

pub open spec fn group_key(g: MergeGroup) -> CbUmi {
    (g.cb, g.umi)
}

/// `g` is the group of its key over `sources`: one part, in source order, for
/// each source holding the key, with all of that source's records of the key.
pub open spec fn group_of(sources: Seq<Seq<Record>>, g: MergeGroup) -> bool {
    &&& g.parts.len() > 0
    &&& forall|t: int|
        0 <= t < g.parts.len() ==> (#[trigger] g.parts@[t]).source < sources.len() && g.parts@[t].records@
            == with_cbumi(sources[g.parts@[t].source as int], group_key(g)) && has_cbumi(
            sources[g.parts@[t].source as int],
            group_key(g),
        )
    &&& forall|t: int, u: int| 0 <= t < u < g.parts.len() ==> (#[trigger] g.parts@[t]).source < (#[trigger] g.parts@[u]).source
    &&& forall|i: int|
        0 <= i < sources.len() && has_cbumi(#[trigger] sources[i], group_key(g)) ==> exists|t: int|
            0 <= t < g.parts.len() && (#[trigger] g.parts@[t]).source == i
}

/// `groups` is the merge of `sources`: ascending by coarse key, one group per
/// key present in some source, each group complete.
pub open spec fn merge_of(sources: Seq<Seq<Record>>, groups: Seq<MergeGroup>) -> bool {
    &&& forall|a: int, b: int| 0 <= a < b < groups.len() ==> cbumi_lt(group_key(#[trigger] groups[a]), group_key(#[trigger] groups[b]))
    &&& forall|a: int| 0 <= a < groups.len() ==> group_of(sources, #[trigger] groups[a])
    &&& all_covered(sources, groups)
    &&& forall|i: int| 0 <= i < sources.len() ==> #[trigger] source_trace(groups, i) == sources[i]
}

/// The records that source `i` contributes to a group's parts (none if it has no part).
pub open spec fn records_for(parts: Seq<SourcePart>, i: int) -> Seq<Record>
    decreases parts.len(),
{
    if parts.len() == 0 {
        Seq::empty()
    } else if parts.last().source == i {
        parts.last().records@
    } else {
        records_for(parts.drop_last(), i)
    }
}

/// What source `i` contributes to the groups, one group after the other.
pub open spec fn source_trace(groups: Seq<MergeGroup>, i: int) -> Seq<Record>
    decreases groups.len(),
{
    if groups.len() == 0 {
        Seq::empty()
    } else {
        source_trace(groups.drop_last(), i) + records_for(groups.last().parts@, i)
    }
}

pub proof fn lemma_records_for(parts: Seq<SourcePart>, i: int)
    requires
        forall|t: int, u: int| 0 <= t < u < parts.len() ==> (#[trigger] parts[t]).source < (#[trigger] parts[u]).source,
    ensures
        forall|u: int| 0 <= u < parts.len() && parts[u].source == i ==> records_for(parts, i) == (#[trigger] parts[u]).records@,
        (forall|u: int| 0 <= u < parts.len() ==> (#[trigger] parts[u]).source != i) ==> records_for(parts, i) == Seq::<Record>::empty(),
    decreases parts.len(),
{
    if parts.len() > 0 {
        let pd = parts.drop_last();
        assert forall|t: int, u: int| 0 <= t < u < pd.len() implies (#[trigger] pd[t]).source < (#[trigger] pd[u]).source by {
            assert(pd[t] == parts[t] && pd[u] == parts[u]);
        }
        lemma_records_for(pd, i);
        assert forall|u: int| 0 <= u < parts.len() && parts[u].source == i implies records_for(parts, i) == (#[trigger] parts[u]).records@ by {
            if u < parts.len() - 1 {
                assert(pd[u] == parts[u]);
                assert(parts[u].source < parts[parts.len() - 1].source);
            }
        }
        if forall|u: int| 0 <= u < parts.len() ==> (#[trigger] parts[u]).source != i {
            assert(parts[parts.len() - 1].source != i);
            assert forall|u: int| 0 <= u < pd.len() implies (#[trigger] pd[u]).source != i by {
                assert(pd[u] == parts[u]);
            }
        }
    }
}

/// Every record of every source has the key of some group.
pub open spec fn all_covered(sources: Seq<Seq<Record>>, groups: Seq<MergeGroup>) -> bool {
    forall|i: int, q: int|
        0 <= i < sources.len() && 0 <= q < sources[i].len() ==> key_in(groups, cbumi(#[trigger] sources[i][q]))
}

/// Some group has key `c`.
pub open spec fn key_in(groups: Seq<MergeGroup>, c: CbUmi) -> bool {
    exists|a: int| 0 <= a < groups.len() && group_key(#[trigger] groups[a]) == c
}

proof fn lemma_all_covered(sv: Seq<Seq<Record>>, pos: Seq<usize>, groups: Seq<MergeGroup>)
    requires
        pos.len() == sv.len(),
        prefix_covered(sv, pos, groups),
        forall|i: int| 0 <= i < sv.len() ==> #[trigger] pos[i] == sv[i].len(),
    ensures
        all_covered(sv, groups),
{
    assert forall|i: int, q: int| 0 <= i < sv.len() && 0 <= q < sv[i].len() implies key_in(groups, cbumi(#[trigger] sv[i][q])) by {
        assert(pos[i] == sv[i].len());
    }
}

/// Every record before its source's cursor has the key of some group.
pub open spec fn prefix_covered(sv: Seq<Seq<Record>>, pos: Seq<usize>, groups: Seq<MergeGroup>) -> bool {
    forall|i: int, q: int| 0 <= i < sv.len() && 0 <= q < pos[i] ==> key_in(groups, cbumi(#[trigger] sv[i][q]))
}

/// The views of the sources.
pub open spec fn source_views(sources: Seq<Vec<Record>>) -> Seq<Seq<Record>> {
    sources.map_values(|s: Vec<Record>| s@)
}

/// Takes from each listed source the records of coarse key `c` at its cursor,
/// moving the cursor past them.
#[verifier::loop_isolation(false)]
fn take_parts(sources: &Vec<Vec<Record>>, pos: &mut Vec<usize>, c: CbUmi, idx: &Vec<usize>) -> (parts: Vec<SourcePart>)
    requires
        cursors_ok(source_views(sources@), old(pos)@),
        forall|t: int, u: int| 0 <= t < u < idx.len() ==> idx@[t] < idx@[u],
        forall|t: int|
            0 <= t < idx.len() ==> (#[trigger] idx@[t]) < sources.len() && head_at(
                sources@[idx@[t] as int]@,
                old(pos)@[idx@[t] as int] as int,
            ) == Some(c),
    ensures
        parts.len() == idx.len(),
        cursors_ok(source_views(sources@), final(pos)@),
        forall|i: int| 0 <= i < sources.len() ==> old(pos)@[i] <= #[trigger] final(pos)@[i],
        forall|i: int|
            0 <= i < sources.len() && !idx@.contains(i as usize) ==> #[trigger] final(pos)@[i] == old(pos)@[i],
        forall|u: int|
            0 <= u < idx.len() ==> {
                let j = #[trigger] idx@[u] as int;
                let s = sources@[j]@;
                &&& old(pos)@[j] < final(pos)@[j]
                &&& forall|q: int| old(pos)@[j] <= q < final(pos)@[j] ==> cbumi(#[trigger] s[q]) == c
                &&& (final(pos)@[j] == s.len() || cbumi(s[final(pos)@[j] as int]) != c)
                &&& parts@[u].source == j
                &&& parts@[u].records@ == s.subrange(old(pos)@[j] as int, final(pos)@[j] as int)
            },
        remaining(source_views(sources@), final(pos)@) <= remaining(source_views(sources@), old(pos)@) - idx.len(),
{
    let ghost sv = source_views(sources@);
    let ghost pos0 = pos@;
    let n = sources.len();
    proof {
        assert(forall|i: int| 0 <= i < sv.len() ==> #[trigger] sv[i] == sources@[i]@);
    }
    let mut parts: Vec<SourcePart> = Vec::new();
    let mut t: usize = 0;
    while t < idx.len()
        invariant
            t <= idx.len(),
            parts.len() == t,
            cursors_ok(sv, pos@),
            forall|i: int| 0 <= i < n ==> pos0[i] <= #[trigger] pos@[i],
            forall|i: int|
                0 <= i < n && !idx@.subrange(0, t as int).contains(i as usize) ==> #[trigger] pos@[i] == pos0[i],
            forall|u: int|
                0 <= u < t ==> {
                    let j = #[trigger] idx@[u] as int;
                    &&& pos0[j] < pos@[j]
                    &&& forall|q: int| pos0[j] <= q < pos@[j] ==> cbumi(#[trigger] sv[j][q]) == c
                    &&& (pos@[j] == sv[j].len() || cbumi(sv[j][pos@[j] as int]) != c)
                    &&& parts@[u].source == j
                    &&& parts@[u].records@ == sv[j].subrange(pos0[j] as int, pos@[j] as int)
                },
            remaining(sv, pos@) <= remaining(sv, pos0) - t,
        decreases idx.len() - t,
    {
        let j = idx[t];
        proof {
            assert(!idx@.subrange(0, t as int).contains(j)) by {
                if idx@.subrange(0, t as int).contains(j) {
                    let u = choose|u: int| 0 <= u < t && idx@.subrange(0, t as int)[u] == j;
                    assert(idx@[u] == j);
                }
            }
            assert(pos@[j as int] == pos0[j as int]);
            assert(head_at(sv[j as int], pos@[j as int] as int) == Some(c));
        }
        let src = &sources[j];
        let mut p = pos[j];
        let mut part: Vec<Record> = Vec::new();
        while p < src.len() && src[p].cb == c.0 && src[p].umi == c.1
            invariant
                pos0[j as int] <= p <= src.len(),
                part@ == sv[j as int].subrange(pos0[j as int] as int, p as int),
                forall|q: int| pos0[j as int] <= q < p ==> cbumi(#[trigger] sv[j as int][q]) == c,
            decreases src.len() - p,
        {
            part.push(src[p]);
            p = p + 1;
            proof {
                assert(part@ =~= sv[j as int].subrange(pos0[j as int] as int, p as int));
            }
        }
        let ghost pos_before = pos@;
        let ghost parts_before = parts@;
        proof {
            lemma_remaining_advance(sv, pos_before, j as int, p);
        }
        pos.set(j, p);
        parts.push(SourcePart { source: j, records: part });
        proof {
            assert(idx@.subrange(0, t + 1) =~= idx@.subrange(0, t as int).push(j));
            assert forall|i: int|
                0 <= i < n && !idx@.subrange(0, t + 1).contains(i as usize) implies #[trigger] pos@[i] == pos0[i] by {
                assert(idx@.subrange(0, t + 1)[t as int] == j);
                if i != j {
                    assert(pos@[i] == pos_before[i]);
                    if idx@.subrange(0, t as int).contains(i as usize) {
                        let u = choose|u: int| 0 <= u < t && idx@.subrange(0, t as int)[u] == i as usize;
                        assert(idx@.subrange(0, t + 1)[u] == i as usize);
                    }
                }
            }
            assert forall|u: int| 0 <= u < t + 1 implies {
                let jj = #[trigger] idx@[u] as int;
                &&& pos0[jj] < pos@[jj]
                &&& forall|q: int| pos0[jj] <= q < pos@[jj] ==> cbumi(#[trigger] sv[jj][q]) == c
                &&& (pos@[jj] == sv[jj].len() || cbumi(sv[jj][pos@[jj] as int]) != c)
                &&& parts@[u].source == jj
                &&& parts@[u].records@ == sv[jj].subrange(pos0[jj] as int, pos@[jj] as int)
            } by {
                if u < t {
                    assert(idx@[u] < idx@[t as int]);
                    assert(parts@[u] == parts_before[u]);
                }
            }
        }
        t = t + 1;
    }
    proof {
        assert(idx@.subrange(0, t as int) =~= idx@);
    }
    parts
}

/// A group built from the sources at the minimum head key is the group of that
/// key, and what is left in the sources lies above it.
proof fn lemma_new_group(sv: Seq<Seq<Record>>, heads: Seq<Option<CbUmi>>, groups: Seq<MergeGroup>, pos0: Seq<usize>, pos: Seq<usize>, c: CbUmi, idx: Seq<usize>, g: MergeGroup)
    requires
        sv.len() <= usize::MAX,
        forall|i: int| 0 <= i < sv.len() ==> cbumi_sorted(#[trigger] sv[i]),
        cursors_ok(sv, pos0),
        cursors_ok(sv, pos),
        heads.len() == sv.len(),
        forall|t: int| 0 <= t < sv.len() ==> #[trigger] heads[t] == head_at(sv[t], pos0[t] as int),
        is_min_head(heads, c),
        selects(heads, c, idx),
        group_key(g) == c,
        g.parts.len() == idx.len(),
        forall|i: int| 0 <= i < sv.len() ==> pos0[i] <= #[trigger] pos[i],
        forall|i: int| 0 <= i < sv.len() && !idx.contains(i as usize) ==> #[trigger] pos[i] == pos0[i],
        forall|u: int|
            0 <= u < idx.len() ==> {
                let j = #[trigger] idx[u] as int;
                &&& pos0[j] < pos[j]
                &&& forall|q: int| pos0[j] <= q < pos[j] ==> cbumi(#[trigger] sv[j][q]) == c
                &&& (pos[j] == sv[j].len() || cbumi(sv[j][pos[j] as int]) != c)
                &&& g.parts@[u].source == j
                &&& g.parts@[u].records@ == sv[j].subrange(pos0[j] as int, pos[j] as int)
            },
        forall|a: int, i: int, q: int|
            0 <= a < groups.len() && 0 <= i < sv.len() && pos0[i] <= q < sv[i].len() ==> cbumi_lt(
                group_key(#[trigger] groups[a]),
                #[trigger] cbumi(sv[i][q]),
            ),
        prefix_covered(sv, pos0, groups),
    ensures
        group_of(sv, g),
        forall|a: int| 0 <= a < groups.len() ==> cbumi_lt(group_key(#[trigger] groups[a]), c),
        forall|i: int, q: int| 0 <= i < sv.len() && pos[i] <= q < sv[i].len() ==> cbumi_lt(c, #[trigger] cbumi(sv[i][q])),
{
    let n = sv.len();
        let w = choose|w: int| 0 <= w < heads.len() && heads[w] == Some(c);
        assert(idx.contains(w as usize));
        let j0 = idx[0] as int;
        assert(heads[j0] == Some(c));
        // earlier groups lie below c
        assert forall|a: int| 0 <= a < groups.len() implies cbumi_lt(group_key(#[trigger] groups[a]), c) by {
            assert(cbumi_lt(group_key(groups[a]), cbumi(sv[j0][pos0[j0] as int])));
        }
        // the records before a cursor all belong to earlier groups, so lie below c
        assert forall|i: int, q: int| 0 <= i < n && 0 <= q < pos0[i] implies cbumi_lt(#[trigger] cbumi(sv[i][q]), c) by {
            let a = choose|a: int| 0 <= a < groups.len() && group_key(#[trigger] groups[a]) == cbumi(#[trigger] sv[i][q]);
            assert(cbumi_lt(group_key(groups[a]), c));
        }
        // what is left lies above c
        assert forall|i: int, q: int| 0 <= i < n && pos[i] <= q < sv[i].len() implies cbumi_lt(c, #[trigger] cbumi(sv[i][q])) by {
            if idx.contains(i as usize) {
                let u = choose|u: int| 0 <= u < idx.len() && idx[u] == i as usize;
                assert(idx[u] as int == i);
                assert(pos[i] < sv[i].len());
                assert(cbumi(sv[i][pos[i] as int]) != c);
                assert(heads[i] == Some(c));
                assert(cbumi(sv[i][pos0[i] as int]) == c);
                assert(cbumi_le(cbumi(sv[i][pos0[i] as int]), cbumi(sv[i][pos[i] as int])));
                assert(cbumi_le(cbumi(sv[i][pos[i] as int]), cbumi(sv[i][q])));
            } else {
                assert(pos[i] == pos0[i]);
                assert(heads[i] != Some(c));
                assert(heads[i] == Some(cbumi(sv[i][pos0[i] as int])));
                assert(cbumi_le(cbumi(sv[i][pos0[i] as int]), cbumi(sv[i][q])));
            }
        }
        // g is the group of c
        assert forall|u: int| 0 <= u < g.parts.len() implies (#[trigger] g.parts@[u]).source < sv.len() && g.parts@[u].records@
            == with_cbumi(sv[g.parts@[u].source as int], group_key(g)) && has_cbumi(
            sv[g.parts@[u].source as int],
            group_key(g),
        ) by {
            let j = idx[u] as int;
            let s = sv[j];
            let lo = pos0[j] as int;
            let hi = pos[j] as int;
            assert(s =~= s.subrange(0, lo) + s.subrange(lo, hi) + s.subrange(hi, s.len() as int));
            lemma_with_cbumi_concat(s.subrange(0, lo) + s.subrange(lo, hi), s.subrange(hi, s.len() as int), c);
            lemma_with_cbumi_concat(s.subrange(0, lo), s.subrange(lo, hi), c);
            assert forall|q: int| 0 <= q < s.subrange(0, lo).len() implies cbumi(#[trigger] s.subrange(0, lo)[q]) != c by {
                assert(s.subrange(0, lo)[q] == s[q]);
                assert(cbumi_lt(cbumi(s[q]), c));
            }
            lemma_with_cbumi_none(s.subrange(0, lo), c);
            assert forall|q: int| 0 <= q < s.subrange(lo, hi).len() implies cbumi(#[trigger] s.subrange(lo, hi)[q]) == c by {
                assert(s.subrange(lo, hi)[q] == s[lo + q]);
            }
            lemma_with_cbumi_all(s.subrange(lo, hi), c);
            assert forall|q: int| 0 <= q < s.subrange(hi, s.len() as int).len() implies cbumi(#[trigger] s.subrange(hi, s.len() as int)[q]) != c by {
                assert(s.subrange(hi, s.len() as int)[q] == s[hi + q]);
                assert(cbumi_lt(c, cbumi(s[hi + q])));
            }
            lemma_with_cbumi_none(s.subrange(hi, s.len() as int), c);
            assert(Seq::<Record>::empty() + s.subrange(lo, hi) + Seq::<Record>::empty() =~= s.subrange(lo, hi));
            assert(cbumi(s[lo]) == c);
        }
        assert forall|u: int, v: int| 0 <= u < v < g.parts.len() implies (#[trigger] g.parts@[u]).source < (#[trigger] g.parts@[v]).source by {
            assert(idx[u] < idx[v]);
        }
        assert forall|i: int| 0 <= i < sv.len() && has_cbumi(#[trigger] sv[i], group_key(g)) implies exists|u: int|
            0 <= u < g.parts.len() && (#[trigger] g.parts@[u]).source == i by {
            let q = choose|q: int| 0 <= q < sv[i].len() && cbumi(sv[i][q]) == c;
            if q < pos0[i] {
                assert(cbumi_lt(cbumi(sv[i][q]), c));
            }
            assert(pos0[i] < sv[i].len());
            assert(cbumi_le(cbumi(sv[i][pos0[i] as int]), cbumi(sv[i][q])));
            assert(heads[i] == Some(cbumi(sv[i][pos0[i] as int])));
            assert(cbumi_le(c, cbumi(sv[i][pos0[i] as int])));
            assert(heads[i] == Some(c));
            assert(idx.contains(i as usize));
            let u = choose|u: int| 0 <= u < idx.len() && idx[u] == i as usize;
            assert(g.parts@[u].source == i);
        }
        assert(group_of(sv, g));
}

/// Merges sources sorted by `(cb, umi)`: one group per coarse key, ascending,
/// holding each source's records of that key.
#[verifier::loop_isolation(false)]
pub fn merge_sources(sources: &Vec<Vec<Record>>) -> (groups: Vec<MergeGroup>)
    requires
        forall|i: int| 0 <= i < sources.len() ==> cbumi_sorted(#[trigger] sources@[i]@),
    ensures
        merge_of(source_views(sources@), groups@),
{
    let ghost sv = source_views(sources@);
    let n = sources.len();
    proof {
        assert(forall|i: int| 0 <= i < sv.len() ==> #[trigger] sv[i] == sources@[i]@);
    }
    let mut pos: Vec<usize> = Vec::new();
    while pos.len() < n
        invariant
            pos.len() <= n,
            forall|i: int| 0 <= i < pos.len() ==> #[trigger] pos@[i] == 0,
        decreases n - pos.len(),
    {
        pos.push(0);
    }
    let mut groups: Vec<MergeGroup> = Vec::new();
    proof {
        assert forall|i: int| 0 <= i < sv.len() implies #[trigger] pos@[i] <= sv[i].len() by {
            assert(pos@[i] == 0);
        }
    }
    loop
        invariant
            sv.len() == n,
            cursors_ok(sv, pos@),
            forall|a: int, b: int|
                0 <= a < b < groups.len() ==> cbumi_lt(group_key(#[trigger] groups@[a]), group_key(#[trigger] groups@[b])),
            forall|a: int| 0 <= a < groups.len() ==> group_of(sv, #[trigger] groups@[a]),
            forall|a: int, i: int, q: int|
                0 <= a < groups.len() && 0 <= i < n && pos@[i] <= q < sv[i].len() ==> cbumi_lt(
                    group_key(#[trigger] groups@[a]),
                    #[trigger] cbumi(sv[i][q]),
                ),
            prefix_covered(sv, pos@, groups@),
            forall|i: int| 0 <= i < n ==> #[trigger] source_trace(groups@, i) == sv[i].subrange(0, pos@[i] as int),
        decreases remaining(sv, pos@),
    {
        proof {
            lemma_remaining_nonneg(sv, pos@);
        }
        let ghost pos_start = pos@;
        let mut heads: Vec<Option<CbUmi>> = Vec::new();
        let mut i: usize = 0;
        while i < n
            invariant
                i <= n,
                heads.len() == i,
                forall|t: int| 0 <= t < i ==> #[trigger] heads@[t] == head_at(sv[t], pos@[t] as int),
            decreases n - i,
        {
            let src = &sources[i];
            let p = pos[i];
            if p < src.len() {
                heads.push(Some((src[p].cb, src[p].umi)));
            } else {
                heads.push(None);
            }
            i = i + 1;
        }
        let step = select_min_sources(&heads);
        match step {
            None => {
                proof {
                    assert forall|i: int| 0 <= i < sv.len() implies #[trigger] pos@[i] == sv[i].len() by {
                        assert(heads@[i] is None);
                    }
                    lemma_all_covered(sv, pos@, groups@);
                    assert forall|i: int| 0 <= i < sv.len() implies #[trigger] source_trace(groups@, i) == sv[i] by {
                        assert(sv[i].subrange(0, pos@[i] as int) =~= sv[i]);
                    }
                    assert(merge_of(sv, groups@));
                }
                break ;
            },
            Some((c, idx)) => {
                let ghost pos0 = pos@;
                let parts = take_parts(sources, &mut pos, c, &idx);
                let g = MergeGroup { cb: c.0, umi: c.1, parts };
                proof {
                    let w = choose|w: int| 0 <= w < heads@.len() && heads@[w] == Some(c);
                    assert(idx@.contains(w as usize));
                    lemma_new_group(sv, heads@, groups@, pos0, pos@, c, idx@, g);
                    assert(remaining(sv, pos@) < remaining(sv, pos0));
                }
                let ghost old_groups = groups@;
                groups.push(g);
                proof {
                    assert forall|a: int| 0 <= a < groups.len() implies group_of(sv, #[trigger] groups@[a]) by {
                        if a < old_groups.len() {
                            assert(groups@[a] == old_groups[a]);
                        }
                    }
                    assert forall|a: int, b: int|
                        0 <= a < b < groups.len() implies cbumi_lt(group_key(#[trigger] groups@[a]), group_key(#[trigger] groups@[b])) by {
                        if b < old_groups.len() {
                            assert(groups@[a] == old_groups[a] && groups@[b] == old_groups[b]);
                        } else {
                            assert(groups@[a] == old_groups[a]);
                        }
                    }
                    assert forall|a: int, i: int, q: int|
                        0 <= a < groups.len() && 0 <= i < n && pos@[i] <= q < sv[i].len() implies cbumi_lt(
                        group_key(#[trigger] groups@[a]),
                        #[trigger] cbumi(sv[i][q]),
                    ) by {
                        if a < old_groups.len() {
                            assert(groups@[a] == old_groups[a]);
                            assert(pos0[i] <= q);
                        }
                    }
                    assert forall|i: int, q: int|
                        0 <= i < sv.len() && 0 <= q < pos@[i] implies key_in(groups@, cbumi(#[trigger] sv[i][q])) by {
                        if q < pos0[i] {
                            assert(key_in(old_groups, cbumi(sv[i][q])));
                            let a = choose|a: int| 0 <= a < old_groups.len() && group_key(#[trigger] old_groups[a]) == cbumi(sv[i][q]);
                            assert(groups@[a] == old_groups[a]);
                        } else {
                            assert(idx@.contains(i as usize));
                            let u = choose|u: int| 0 <= u < idx.len() && idx@[u] == i as usize;
                            assert(cbumi(sv[i][q]) == c);
                            assert(group_key(groups@[old_groups.len() as int]) == c);
                        }
                    }
                    assert(pos_start == pos0);
                    assert(remaining(sv, pos@) < remaining(sv, pos_start));
                    assert(prefix_covered(sv, pos@, groups@));
                    assert(groups@.drop_last() =~= old_groups);
                    lemma_records_for(g.parts@, 0);
                    assert forall|i: int| 0 <= i < n implies #[trigger] source_trace(groups@, i) == sv[i].subrange(0, pos@[i] as int) by {
                        lemma_records_for(g.parts@, i);
                        assert(source_trace(groups@, i) == source_trace(old_groups, i) + records_for(g.parts@, i));
                        if idx@.contains(i as usize) {
                            let u = choose|u: int| 0 <= u < idx.len() && idx@[u] == i as usize;
                            assert(g.parts@[u].source == i);
                            assert(records_for(g.parts@, i) == sv[i].subrange(pos0[i] as int, pos@[i] as int));
                            assert(sv[i].subrange(0, pos@[i] as int) =~= sv[i].subrange(0, pos0[i] as int) + sv[i].subrange(pos0[i] as int, pos@[i] as int));
                        } else {
                            assert forall|u: int| 0 <= u < g.parts.len() implies (#[trigger] g.parts@[u]).source != i by {
                                if g.parts@[u].source == i {
                                    assert(idx@[u] as int == i);
                                }
                            }
                            assert(pos@[i] == pos0[i]);
                            assert(source_trace(groups@, i) =~= source_trace(old_groups, i));
                        }
                    }
                    lemma_remaining_nonneg(sv, pos@);
                }
            },
        }
    }
    groups
}

/// Merge completeness: the keys of the groups are exactly the coarse keys found
/// in the sources, each once.
pub proof fn lemma_merge_keys_complete(sources: Seq<Seq<Record>>, groups: Seq<MergeGroup>, c: CbUmi)
    requires
        merge_of(sources, groups),
    ensures
        key_in(groups, c) <==> (exists|i: int| 0 <= i < sources.len() && #[trigger] has_cbumi(sources[i], c)),
        forall|a: int, b: int| 0 <= a < b < groups.len() ==> group_key(#[trigger] groups[a]) != group_key(#[trigger] groups[b]),
{
    if key_in(groups, c) {
        let a = choose|a: int| 0 <= a < groups.len() && group_key(#[trigger] groups[a]) == c;
        assert(group_of(sources, groups[a]));
        let i = groups[a].parts@[0].source as int;
        assert(has_cbumi(sources[i], c));
    }
    if exists|i: int| 0 <= i < sources.len() && #[trigger] has_cbumi(sources[i], c) {
        let i = choose|i: int| 0 <= i < sources.len() && #[trigger] has_cbumi(sources[i], c);
        let q = choose|q: int| 0 <= q < sources[i].len() && cbumi(sources[i][q]) == c;
        assert(key_in(groups, cbumi(sources[i][q])));
    }
}

} // verus!
