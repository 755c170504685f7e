//! The external sort engine: the input is cut into batches of `chunksize`
//! records, each batch becomes a run, and the runs are merged in lockstep by
//! `(cb, umi)`, the records of each coarse key being aggregated again since a key
//! may be spread over several runs.
use vstd::prelude::*;
use crate::record::{
    aggregate, lemma_is_the_aggregate,
    cbumi, cbumi_lt, count_of, counts_fit, has_key, is_aggregate_of, key, key_lt, keys_below,
    lemma_aggregate_concat, lemma_aggregate_mass, lemma_aggregate_transfer, lemma_aggregate_unique,
    lemma_count_concat, lemma_mass_concat, lemma_same_mass_concat, lemma_same_mass_refl,
    lemma_same_mass_sym, lemma_same_mass_trans, same_mass, strictly_sorted, CbUmi, Record,
    RecordKey,
};
use crate::run::{
    build_run, concat_all, lemma_counts_fit_part, lemma_counts_fit_same_mass, merge_chunks, views,
};
use crate::merge::{
    cbumi_le, cbumi_sorted, cursors_ok, head_at, is_min_head, lemma_coarse_sorted, lemma_cursors_drop,
    lemma_remaining_nonneg, remaining, select_min_sources, selects,
};

verus! {

/// What the merge has taken so far: of each run, the records before its cursor.
pub open spec fn consumed(runs: Seq<Seq<Record>>, pos: Seq<usize>) -> Seq<Record>
    decreases runs.len(),
{
    if runs.len() == 0 {
        Seq::empty()
    } else {
        consumed(runs.drop_last(), pos.drop_last()) + runs.last().subrange(0, pos.last() as int)
    }
}

proof fn lemma_consumed_start(runs: Seq<Seq<Record>>, pos: Seq<usize>)
    requires
        pos.len() == runs.len(),
        forall|i: int| 0 <= i < pos.len() ==> #[trigger] pos[i] == 0,
    ensures
        consumed(runs, pos) == Seq::<Record>::empty(),
    decreases runs.len(),
{
    if runs.len() > 0 {
        assert forall|i: int| 0 <= i < pos.drop_last().len() implies #[trigger] pos.drop_last()[i] == 0 by {
            assert(pos[i] == 0);
        }
        lemma_consumed_start(runs.drop_last(), pos.drop_last());
        assert(pos[pos.len() - 1] == 0);
        assert(runs.last().subrange(0, 0) =~= Seq::<Record>::empty());
        assert(consumed(runs, pos) =~= Seq::<Record>::empty());
    }
}

/// Moving one cursor forward adds the records it passes over.
proof fn lemma_consumed_advance(runs: Seq<Seq<Record>>, pos: Seq<usize>, j: int, v: usize)
    requires
        cursors_ok(runs, pos),
        0 <= j < runs.len(),
        pos[j] <= v <= runs[j].len(),
    ensures
        same_mass(consumed(runs, pos.update(j, v)), consumed(runs, pos) + runs[j].subrange(pos[j] as int, v as int)),
        remaining(runs, pos.update(j, v)) == remaining(runs, pos) - (v - pos[j]),
    decreases runs.len(),
{
    let n = runs.len() - 1;
    let pos2 = pos.update(j, v);
    let delta = runs[j].subrange(pos[j] as int, v as int);
    if j == n {
        assert(pos2.drop_last() =~= pos.drop_last());
        assert(runs[j].subrange(0, v as int) =~= runs[j].subrange(0, pos[j] as int) + delta);
        assert(consumed(runs, pos2) =~= consumed(runs, pos) + delta);
        lemma_same_mass_refl(consumed(runs, pos2));
    } else {
        lemma_cursors_drop(runs, pos);
        assert(pos2.drop_last() =~= pos.drop_last().update(j, v));
        assert(runs.drop_last()[j] == runs[j]);
        lemma_consumed_advance(runs.drop_last(), pos.drop_last(), j, v);
        let c1 = consumed(runs.drop_last(), pos.drop_last());
        let c2 = consumed(runs.drop_last(), pos2.drop_last());
        let last = runs.last().subrange(0, pos.last() as int);
        assert(pos2.last() == pos.last());
        // c2 ~ c1 + delta, so c2 + last ~ (c1 + last) + delta
        lemma_same_mass_refl(last);
        lemma_same_mass_concat(c2, last, c1 + delta, last);
        lemma_mass_concat(c1 + delta, last);
        lemma_mass_concat(c1, delta);
        lemma_mass_concat(c1 + last, delta);
        lemma_mass_concat(c1, last);
        assert(same_mass((c1 + delta) + last, (c1 + last) + delta));
        lemma_same_mass_trans(c2 + last, (c1 + delta) + last, (c1 + last) + delta);
    }
}

/// What the merge has taken never weighs more than all the runs.
proof fn lemma_consumed_bounded(runs: Seq<Seq<Record>>, pos: Seq<usize>, k: RecordKey)
    requires
        cursors_ok(runs, pos),
    ensures
        count_of(consumed(runs, pos), k) <= count_of(concat_all(runs), k),
    decreases runs.len(),
{
    if runs.len() > 0 {
        lemma_cursors_drop(runs, pos);
        lemma_consumed_bounded(runs.drop_last(), pos.drop_last(), k);
        let last = runs.last();
        let p = pos.last() as int;
        assert(pos[runs.len() - 1] <= runs[runs.len() - 1].len());
        assert(last =~= last.subrange(0, p) + last.subrange(p, last.len() as int));
        lemma_count_concat(last.subrange(0, p), last.subrange(p, last.len() as int), k);
        lemma_count_concat(consumed(runs.drop_last(), pos.drop_last()), last.subrange(0, p), k);
        lemma_count_concat(concat_all(runs.drop_last()), last, k);
    }
}

/// Cuts `records` into batches of `chunksize` and builds a run of each.
fn build_runs(records: &Vec<Record>, chunksize: usize) -> (runs: Vec<Vec<Record>>)
    requires
        chunksize > 0,
        counts_fit(records@),
    ensures
        same_mass(concat_all(views(runs@)), records@),
        forall|i: int| 0 <= i < runs.len() ==> strictly_sorted(#[trigger] runs@[i]@),
{
    let mut runs: Vec<Vec<Record>> = Vec::new();
    let mut start: usize = 0;
    proof {
        assert(concat_all(views(runs@)) =~= records@.subrange(0, 0));
        lemma_same_mass_refl(records@.subrange(0, 0));
    }
    while start < records.len()
        invariant
            start <= records.len(),
            chunksize > 0,
            counts_fit(records@),
            same_mass(concat_all(views(runs@)), records@.subrange(0, start as int)),
            forall|i: int| 0 <= i < runs.len() ==> strictly_sorted(#[trigger] runs@[i]@),
        decreases records.len() - start,
    {
        let end: usize = if records.len() - start < chunksize {
            records.len()
        } else {
            start + chunksize
        };
        let mut chunk: Vec<Record> = Vec::new();
        let mut q: usize = start;
        while q < end
            invariant
                start <= q <= end <= records.len(),
                chunk@ == records@.subrange(start as int, q as int),
            decreases end - q,
        {
            chunk.push(records[q]);
            q = q + 1;
            proof {
                assert(chunk@ =~= records@.subrange(start as int, q as int));
            }
        }
        proof {
            let whole = records@;
            assert(whole =~= whole.subrange(0, start as int) + whole.subrange(start as int, whole.len() as int));
            lemma_counts_fit_part(whole.subrange(0, start as int), whole.subrange(start as int, whole.len() as int));
            let tail = whole.subrange(start as int, whole.len() as int);
            assert(tail =~= chunk@ + tail.subrange(end - start, tail.len() as int));
            lemma_counts_fit_part(chunk@, tail.subrange(end - start, tail.len() as int));
        }
        let run = build_run(&chunk);
        let ghost old_runs = runs@;
        runs.push(run);
        proof {
            lemma_aggregate_mass(run@, chunk@);
            assert(views(runs@).drop_last() =~= views(old_runs));
            assert(views(runs@).last() == run@);
            lemma_same_mass_concat(concat_all(views(old_runs)), run@, records@.subrange(0, start as int), chunk@);
            assert(records@.subrange(0, end as int) =~= records@.subrange(0, start as int) + chunk@);
            assert forall|i: int| 0 <= i < runs.len() implies strictly_sorted(#[trigger] runs@[i]@) by {
                if i < old_runs.len() {
                    assert(runs@[i] == old_runs[i]);
                }
            }
        }
        start = end;
    }
    proof {
        assert(records@.subrange(0, start as int) =~= records@);
    }
    runs
}

proof fn lemma_consumed_full(runs: Seq<Seq<Record>>, pos: Seq<usize>)
    requires
        pos.len() == runs.len(),
        forall|i: int| 0 <= i < runs.len() ==> #[trigger] pos[i] == runs[i].len(),
    ensures
        consumed(runs, pos) == concat_all(runs),
    decreases runs.len(),
{
    if runs.len() > 0 {
        assert forall|i: int| 0 <= i < runs.drop_last().len() implies #[trigger] pos.drop_last()[i] == runs.drop_last()[i].len() by {
            assert(pos[i] == runs[i].len());
        }
        lemma_consumed_full(runs.drop_last(), pos.drop_last());
        assert(pos[runs.len() - 1] == runs[runs.len() - 1].len());
        assert(runs.last().subrange(0, pos.last() as int) =~= runs.last());
    }
}

/// Each run is sorted by `(cb, umi)`.
pub open spec fn runs_sorted(rv: Seq<Seq<Record>>) -> bool {
    forall|i: int| 0 <= i < rv.len() ==> cbumi_sorted(#[trigger] rv[i])
}

/// Takes from each listed run the records of coarse key `c` at its cursor,
/// moving the cursor past them.
#[verifier::loop_isolation(false)]
fn gather_group(runs: &Vec<Vec<Record>>, pos: &mut Vec<usize>, c: CbUmi, idx: &Vec<usize>) -> (parts: Vec<Vec<Record>>)
    requires
        cursors_ok(views(runs@), old(pos)@),
        forall|t: int, u: int| 0 <= t < u < idx.len() ==> idx@[t] < idx@[u],
        forall|t: int|
            0 <= t < idx.len() ==> (#[trigger] idx@[t]) < runs.len() && head_at(
                runs@[idx@[t] as int]@,
                old(pos)@[idx@[t] as int] as int,
            ) == Some(c),
    ensures
        cursors_ok(views(runs@), final(pos)@),
        forall|i: int| 0 <= i < runs.len() ==> old(pos)@[i] <= #[trigger] final(pos)@[i],
        forall|i: int|
            0 <= i < runs.len() && !idx@.contains(i as usize) ==> #[trigger] final(pos)@[i] == old(pos)@[i],
        forall|u: int|
            0 <= u < idx.len() ==> {
                let j = #[trigger] idx@[u] as int;
                final(pos)@[j] == runs@[j]@.len() || cbumi(runs@[j]@[final(pos)@[j] as int]) != c
            },
        same_mass(
            consumed(views(runs@), final(pos)@),
            consumed(views(runs@), old(pos)@) + concat_all(views(parts@)),
        ),
        remaining(views(runs@), final(pos)@) <= remaining(views(runs@), old(pos)@) - idx.len(),
        forall|m: int|
            0 <= m < concat_all(views(parts@)).len() ==> #[trigger] cbumi(concat_all(views(parts@))[m]) == c,
{
    let ghost rv = views(runs@);
    let ghost pos0 = pos@;
    let n = runs.len();
    proof {
        assert(forall|i: int| 0 <= i < rv.len() ==> #[trigger] rv[i] == runs@[i]@);
    }
    let mut parts: Vec<Vec<Record>> = Vec::new();
    let mut t: usize = 0;
    proof {
        assert(concat_all(views(parts@)) =~= Seq::<Record>::empty());
        assert(consumed(rv, pos0) + Seq::<Record>::empty() =~= consumed(rv, pos0));
        lemma_same_mass_refl(consumed(rv, pos0));
    }
    while t < idx.len()
        invariant
            t <= idx.len(),
            cursors_ok(rv, pos@),
            forall|i: int| 0 <= i < n ==> pos0[i] <= #[trigger] pos@[i],
            forall|i: int|
                0 <= i < n && !idx@.subrange(0, t as int).contains(i as usize) ==> #[trigger] pos@[i] == pos0[i],
            forall|u: int|
                0 <= u < t ==> {
                    let j = #[trigger] idx@[u] as int;
                    pos@[j] == rv[j].len() || cbumi(rv[j][pos@[j] as int]) != c
                },
            same_mass(consumed(rv, pos@), consumed(rv, pos0) + concat_all(views(parts@))),
            remaining(rv, pos@) <= remaining(rv, pos0) - t,
            forall|m: int|
                0 <= m < concat_all(views(parts@)).len() ==> #[trigger] cbumi(concat_all(views(parts@))[m]) == c,
        decreases idx.len() - t,
    {
        let j = idx[t];
        proof {
            assert(!idx@.subrange(0, t as int).contains(j)) by {
                if idx@.subrange(0, t as int).contains(j) {
                    let u = choose|u: int| 0 <= u < t && idx@.subrange(0, t as int)[u] == j;
                    assert(idx@[u] == j);
                }
            }
            assert(pos@[j as int] == pos0[j as int]);
        }
        let run = &runs[j];
        let mut p = pos[j];
        let mut part: Vec<Record> = Vec::new();
        while p < run.len() && run[p].cb == c.0 && run[p].umi == c.1
            invariant
                pos0[j as int] <= p <= run.len(),
                part@ == rv[j as int].subrange(pos0[j as int] as int, p as int),
                forall|m: int| 0 <= m < part.len() ==> #[trigger] cbumi(part@[m]) == c,
            decreases run.len() - p,
        {
            part.push(run[p]);
            p = p + 1;
            proof {
                assert(part@ =~= rv[j as int].subrange(pos0[j as int] as int, p as int));
            }
        }
        let ghost pos_before = pos@;
        let ghost parts_before = concat_all(views(parts@));
        let ghost old_parts = parts@;
        proof {
            assert(p > pos0[j as int]);
            lemma_consumed_advance(rv, pos_before, j as int, p);
        }
        pos.set(j, p);
        parts.push(part);
        proof {
            let pv = views(parts@);
            assert(parts@ == old_parts.push(part));
            assert(pv.drop_last() =~= views(old_parts));
            assert(pv.last() == part@);
            assert(concat_all(pv) == parts_before + part@);
            assert forall|m: int| 0 <= m < concat_all(pv).len() implies #[trigger] cbumi(concat_all(pv)[m]) == c by {
                if m < parts_before.len() {
                    assert(concat_all(pv)[m] == parts_before[m]);
                } else {
                    assert(concat_all(pv)[m] == part@[m - parts_before.len()]);
                }
            }
            let c0 = consumed(rv, pos0);
            lemma_same_mass_refl(part@);
            lemma_same_mass_concat(consumed(rv, pos_before), part@, c0 + parts_before, part@);
            lemma_mass_concat(c0 + parts_before, part@);
            lemma_mass_concat(c0, parts_before);
            lemma_mass_concat(c0, parts_before + part@);
            lemma_mass_concat(parts_before, part@);
            assert(same_mass((c0 + parts_before) + part@, c0 + (parts_before + part@)));
            lemma_same_mass_trans(consumed(rv, pos@), consumed(rv, pos_before) + part@, (c0 + parts_before) + part@);
            lemma_same_mass_trans(consumed(rv, pos@), (c0 + parts_before) + part@, c0 + (parts_before + part@));
            assert(idx@.subrange(0, t + 1) =~= idx@.subrange(0, t as int).push(j));
            assert forall|i: int|
                0 <= i < n && !idx@.subrange(0, t + 1).contains(i as usize) implies #[trigger] pos@[i] == pos0[i] by {
                assert(idx@.subrange(0, t + 1)[t as int] == j);
                if i == j {
                    assert(idx@.subrange(0, t + 1).contains(i as usize));
                } else {
                    assert(pos@[i] == pos_before[i]);
                    if idx@.subrange(0, t as int).contains(i as usize) {
                        let u = choose|u: int| 0 <= u < t && idx@.subrange(0, t as int)[u] == i as usize;
                        assert(idx@.subrange(0, t + 1)[u] == i as usize);
                    }
                }
            }
            assert forall|u: int| 0 <= u < t + 1 implies {
                let jj = #[trigger] idx@[u] as int;
                pos@[jj] == rv[jj].len() || cbumi(rv[jj][pos@[jj] as int]) != c
            } by {
                if u < t {
                    assert(idx@[u] < idx@[t as int]);
                }
            }
        }
        t = t + 1;
    }
    proof {
        assert(idx@.subrange(0, t as int) =~= idx@);
    }
    parts
}

/// After a group is taken, whatever is left in the runs lies above its key.
proof fn lemma_rest_above(rv: Seq<Seq<Record>>, heads: Seq<Option<CbUmi>>, pos0: Seq<usize>, pos: Seq<usize>, c: CbUmi, idx: Seq<usize>)
    requires
        runs_sorted(rv),
        rv.len() <= usize::MAX,
        cursors_ok(rv, pos0),
        cursors_ok(rv, pos),
        heads.len() == rv.len(),
        forall|t: int| 0 <= t < rv.len() ==> #[trigger] heads[t] == head_at(rv[t], pos0[t] as int),
        is_min_head(heads, c),
        selects(heads, c, idx),
        forall|i: int| 0 <= i < rv.len() ==> pos0[i] <= #[trigger] pos[i],
        forall|i: int| 0 <= i < rv.len() && !idx.contains(i as usize) ==> #[trigger] pos[i] == pos0[i],
        forall|u: int|
            0 <= u < idx.len() ==> {
                let j = #[trigger] idx[u] as int;
                pos[j] == rv[j].len() || cbumi(rv[j][pos[j] as int]) != c
            },
    ensures
        forall|i: int, q: int| 0 <= i < rv.len() && pos[i] <= q < rv[i].len() ==> cbumi_lt(c, #[trigger] cbumi(rv[i][q])),
{
    assert forall|i: int, q: int| 0 <= i < rv.len() && pos[i] <= q < rv[i].len() implies cbumi_lt(
        c,
        #[trigger] cbumi(rv[i][q]),
    ) by {
        assert(cbumi_sorted(rv[i]));
        if idx.contains(i as usize) {
            let u = choose|u: int| 0 <= u < idx.len() && idx[u] == i as usize;
            assert(heads[idx[u] as int] == Some(c));
            assert(idx[u] as int == i);
            assert(heads[i] == Some(c));
            assert(cbumi(rv[i][pos0[i] as int]) == c);
            assert(pos[i] == rv[i].len() || cbumi(rv[i][pos[i] as int]) != c);
            assert(cbumi_le(cbumi(rv[i][pos0[i] as int]), cbumi(rv[i][pos[i] as int])));
            assert(cbumi_le(cbumi(rv[i][pos[i] as int]), cbumi(rv[i][q])));
        } else {
            assert(heads[i] != Some(c));
            assert(heads[i] == Some(cbumi(rv[i][pos0[i] as int])));
            assert(cbumi_le(cbumi(rv[i][pos0[i] as int]), cbumi(rv[i][q])));
        }
    }
}

/// Merges sources that are each sorted by `(cb, umi)` in lockstep, the
/// records of each coarse key being aggregated across all sources: the result
/// is the aggregate of all their records. Used on the runs of the external sort
/// and to concatenate sorted inputs.
#[verifier::loop_isolation(false)]
pub fn merge_sorted_sources(runs: &Vec<Vec<Record>>) -> (r: Vec<Record>)
    requires
        forall|i: int| 0 <= i < runs.len() ==> cbumi_sorted(#[trigger] runs@[i]@),
        counts_fit(concat_all(views(runs@))),
    ensures
        is_aggregate_of(r@, concat_all(views(runs@))),
{
    let ghost rv = views(runs@);
    let n = runs.len();
    let mut pos: Vec<usize> = Vec::new();
    while pos.len() < n
        invariant
            pos.len() <= n,
            forall|i: int| 0 <= i < pos.len() ==> #[trigger] pos@[i] == 0,
        decreases n - pos.len(),
    {
        pos.push(0);
    }
    let mut out: Vec<Record> = Vec::new();
    proof {
        lemma_consumed_start(rv, pos@);
        assert forall|i: int| 0 <= i < rv.len() implies #[trigger] pos@[i] <= rv[i].len() by {
            assert(pos@[i] == 0);
        }
        assert(forall|i: int| 0 <= i < rv.len() ==> #[trigger] rv[i] == runs@[i]@);
    }
    loop
        invariant
            cursors_ok(rv, pos@),
            rv.len() == n,
            is_aggregate_of(out@, consumed(rv, pos@)),
            forall|p: int, i: int, q: int|
                0 <= p < out.len() && 0 <= i < n && pos@[i] <= q < rv[i].len() ==> cbumi_lt(
                    #[trigger] cbumi(out@[p]),
                    #[trigger] cbumi(rv[i][q]),
                ),
        decreases remaining(rv, pos@),
    {
        proof {
            lemma_remaining_nonneg(rv, pos@);
        }
        let mut heads: Vec<Option<CbUmi>> = Vec::new();
        let mut i: usize = 0;
        while i < n
            invariant
                i <= n,
                heads.len() == i,
                forall|t: int| 0 <= t < i ==> #[trigger] heads@[t] == head_at(rv[t], pos@[t] as int),
            decreases n - i,
        {
            let run = &runs[i];
            let p = pos[i];
            if p < run.len() {
                heads.push(Some((run[p].cb, run[p].umi)));
            } else {
                heads.push(None);
            }
            i = i + 1;
        }
        let step = select_min_sources(&heads);
        match step {
            None => {
                proof {
                    assert forall|t: int| 0 <= t < rv.len() implies #[trigger] pos@[t] == rv[t].len() by {
                        assert(heads@[t] is None);
                        assert(pos@[t] <= rv[t].len());
                    }
                    lemma_consumed_full(rv, pos@);
                }
                break ;
            },
            Some((c, idx)) => {
                let ghost pos0 = pos@;
                let ghost out0 = out@;
                let parts = gather_group(&runs, &mut pos, c, &idx);
                let ghost gathered = concat_all(views(parts@));
                proof {
                    let w = choose|w: int| 0 <= w < heads@.len() && heads@[w] == Some(c);
                    assert(idx@.contains(w as usize));
                    lemma_remaining_nonneg(rv, pos@);
                    assert forall|k: RecordKey| #[trigger] count_of(gathered, k) <= u32::MAX by {
                        lemma_count_concat(consumed(rv, pos0), gathered, k);
                        lemma_consumed_bounded(rv, pos@, k);
                    }
                }
                let merged = merge_chunks(&parts);
                let ghost start_idx = idx@[0] as int;
                proof {
                    assert(heads@[start_idx] == Some(c));
                    assert(cbumi(rv[start_idx][pos0[start_idx] as int]) == c);
                    assert forall|w: int| 0 <= w < merged.len() implies #[trigger] cbumi(merged@[w]) == c by {
                        assert(has_key(merged@, key(merged@[w])));
                        assert(has_key(gathered, key(merged@[w])));
                        let z = choose|z: int| 0 <= z < gathered.len() && key(gathered[z]) == key(merged@[w]);
                        assert(cbumi(gathered[z]) == c);
                    }
                    assert(keys_below(out0, merged@)) by {
                        assert forall|a: int, b: int| 0 <= a < out0.len() && 0 <= b < merged.len() implies key_lt(
                            #[trigger] key(out0[a]),
                            #[trigger] key(merged@[b]),
                        ) by {
                            assert(cbumi_lt(cbumi(out0[a]), cbumi(rv[start_idx][pos0[start_idx] as int])));
                            assert(cbumi(merged@[b]) == c);
                        }
                    }
                    lemma_aggregate_concat(out0, consumed(rv, pos0), merged@, gathered);
                    lemma_same_mass_sym(consumed(rv, pos@), consumed(rv, pos0) + gathered);
                    lemma_aggregate_transfer(out0 + merged@, consumed(rv, pos0) + gathered, consumed(rv, pos@));
                    lemma_rest_above(rv, heads@, pos0, pos@, c, idx@);
                }
                let mut m: usize = 0;
                while m < merged.len()
                    invariant
                        m <= merged.len(),
                        out@ == out0 + merged@.subrange(0, m as int),
                    decreases merged.len() - m,
                {
                    out.push(merged[m]);
                    m = m + 1;
                    proof {
                        assert(out@ =~= out0 + merged@.subrange(0, m as int));
                    }
                }
                proof {
                    assert(merged@.subrange(0, m as int) =~= merged@);
                    assert forall|p: int, i: int, q: int|
                        0 <= p < out.len() && 0 <= i < n && pos@[i] <= q < rv[i].len() implies cbumi_lt(
                        #[trigger] cbumi(out@[p]),
                        #[trigger] cbumi(rv[i][q]),
                    ) by {
                        assert(cbumi_lt(c, cbumi(rv[i][q])));
                        if p < out0.len() {
                            assert(out@[p] == out0[p]);
                            assert(pos0[i] <= q);
                        } else {
                            assert(out@[p] == merged@[p - out0.len()]);
                        }
                    }
                }
            },
        }
    }
    out
}

/// Sorts and aggregates `records` as the external engine does: batches of
/// `chunksize` records become runs, and the runs are merged in lockstep by
/// `(cb, umi)`, each coarse key's records being aggregated again.
pub fn sort_chunked(records: &Vec<Record>, chunksize: usize) -> (r: Vec<Record>)
    requires
        chunksize > 0,
        counts_fit(records@),
    ensures
        is_aggregate_of(r@, records@),
        r@ == aggregate(records@),
        forall|i: int| 0 <= i < r.len() - 1 ==> key_lt(key(#[trigger] r@[i]), key(r@[i + 1])),
{
    let runs = build_runs(records, chunksize);
    proof {
        assert forall|i: int| 0 <= i < runs.len() implies cbumi_sorted(#[trigger] runs@[i]@) by {
            assert forall|a: int, b: int| 0 <= a <= b < runs@[i]@.len() implies cbumi_le(
                #[trigger] cbumi(runs@[i]@[a]),
                #[trigger] cbumi(runs@[i]@[b]),
            ) by {
                lemma_coarse_sorted(runs@[i]@, a, b);
            }
        }
        lemma_same_mass_sym(concat_all(views(runs@)), records@);
        lemma_counts_fit_same_mass(records@, concat_all(views(runs@)));
    }
    let out = merge_sorted_sources(&runs);
    proof {
        lemma_aggregate_transfer(out@, concat_all(views(runs@)), records@);
        lemma_is_the_aggregate(out@, records@);
        lemma_output_ordered(records@, out@);
    }
    out
}

/// The result of sorting in batches does not depend on the batch size: the
/// outputs of `sort_chunked` for any two chunk sizes, and the run that
/// `build_run` makes of the whole input at once, are one and the same.
pub proof fn lemma_chunked_matches_whole(records: Seq<Record>, chunked: Seq<Record>, whole: Seq<Record>)
    requires
        is_aggregate_of(chunked, records),
        is_aggregate_of(whole, records),
    ensures
        chunked == whole,
{
    lemma_aggregate_unique(chunked, whole, records);
}

/// Whatever the engine outputs is in ascending full-key order, and no two of
/// its records share a full key.
pub proof fn lemma_output_ordered(records: Seq<Record>, out: Seq<Record>)
    requires
        is_aggregate_of(out, records),
    ensures
        forall|i: int| 0 <= i < out.len() - 1 ==> key_lt(key(#[trigger] out[i]), key(out[i + 1])),
        forall|i: int, j: int| 0 <= i < j < out.len() ==> key(#[trigger] out[i]) != key(#[trigger] out[j]),
{
    assert forall|i: int| 0 <= i < out.len() - 1 implies key_lt(key(#[trigger] out[i]), key(out[i + 1])) by {
        assert(key_lt(key(out[i]), key(out[i + 1])));
    }
    assert forall|i: int, j: int| 0 <= i < j < out.len() implies key(#[trigger] out[i]) != key(#[trigger] out[j]) by {
        assert(key_lt(key(out[i]), key(out[j])));
    }
}

} // verus!
