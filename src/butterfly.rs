//! The amplification histogram of a dataset: for each number of reads seen for
//! one molecule (one `(cb, umi)`), how many molecules were seen that often.
use vstd::prelude::*;

verus! {

/// Sum of `frequency` over the entries.
pub open spec fn total_molecules(h: Seq<(usize, usize)>) -> nat
    decreases h.len(),
{
    if h.len() == 0 {
        0
    } else {
        total_molecules(h.drop_last()) + h.last().1 as nat
    }
}

/// Sum of `amplification * frequency` over the entries.
pub open spec fn total_reads(h: Seq<(usize, usize)>) -> nat
    decreases h.len(),
{
    if h.len() == 0 {
        0
    } else {
        total_reads(h.drop_last()) + (h.last().0 * h.last().1) as nat
    }
}

/// How many molecules were seen with `amplification` reads.
pub open spec fn frequency_of(h: Seq<(usize, usize)>, amplification: usize) -> nat
    decreases h.len(),
{
    if h.len() == 0 {
        0
    } else {
        frequency_of(h.drop_last(), amplification) + if h.last().0 == amplification {
            h.last().1 as nat
        } else {
            0
        }
    }
}

/// Each amplification appears in one entry at most.
pub open spec fn distinct_amplifications(h: Seq<(usize, usize)>) -> bool {
    forall|i: int, j: int| 0 <= i < j < h.len() ==> (#[trigger] h[i]).0 != (#[trigger] h[j]).0
}

/// Frequency of frequencies: `(amplification, frequency)` entries, one per
/// amplification seen.
pub struct CUHistogram {
    histogram: Vec<(usize, usize)>,
}

impl CUHistogram {
    pub closed spec fn entries(&self) -> Seq<(usize, usize)> {
        self.histogram@
    }

    pub closed spec fn wf(&self) -> bool {
        distinct_amplifications(self.histogram@)
    }

    /// An empty histogram.
    pub fn new() -> (h: Self)
        ensures
            h.wf(),
            h.entries() == Seq::<(usize, usize)>::empty(),
    {
        CUHistogram { histogram: Vec::new() }
    }

    /// Counts one more molecule seen `nreads` times.
    #[verifier::loop_isolation(false)]
    pub fn add_molecule(&mut self, nreads: usize)
        requires
            old(self).wf(),
            total_molecules(old(self).entries()) < usize::MAX,
        ensures
            final(self).wf(),
            total_molecules(final(self).entries()) == total_molecules(old(self).entries()) + 1,
            total_reads(final(self).entries()) == total_reads(old(self).entries()) + nreads,
            forall|a: usize|
                #[trigger] frequency_of(final(self).entries(), a) == frequency_of(old(self).entries(), a) + if a
                    == nreads {
                    1nat
                } else {
                    0nat
                },
    {
        let mut i: usize = 0;
        while i < self.histogram.len()
            invariant
                i <= self.histogram.len(),
                self.histogram@ == old(self).histogram@,
                distinct_amplifications(self.histogram@),
                total_molecules(self.histogram@) < usize::MAX,
                forall|t: int| 0 <= t < i ==> (#[trigger] self.histogram@[t]).0 != nreads,
            decreases self.histogram.len() - i,
        {
            if self.histogram[i].0 == nreads {
                let (a, f) = self.histogram[i];
                proof {
                    lemma_total_molecules_bound(self.histogram@, i as int);
                }
                let ghost before = self.histogram@;
                let nf = f + 1;
                self.histogram.set(i, (a, nf));
                proof {
                    lemma_totals_update(before, i as int, (a, nf));
                    assert forall|x: int, y: int| 0 <= x < y < self.histogram@.len() implies (#[trigger] self.histogram@[x]).0
                        != (#[trigger] self.histogram@[y]).0 by {
                        assert(before[x].0 != before[y].0);
                    }
                    assert forall|q: usize| #[trigger] frequency_of(self.histogram@, q) == frequency_of(before, q) + if q
                        == nreads {
                        1nat
                    } else {
                        0nat
                    } by {
                        lemma_frequency_update(before, i as int, (a, nf), q);
                    }
                }
                return;
            }
            i = i + 1;
        }
        let ghost before = self.histogram@;
        self.histogram.push((nreads, 1));
        proof {
            assert(self.histogram@.drop_last() =~= before);
            assert(self.histogram@.last() == (nreads, 1usize));
            assert(total_molecules(self.histogram@) == total_molecules(before) + 1);
            assert((nreads * 1usize) as nat == nreads) by (nonlinear_arith);
            assert(total_reads(self.histogram@) == total_reads(before) + nreads);
            assert forall|x: int, y: int| 0 <= x < y < self.histogram@.len() implies (#[trigger] self.histogram@[x]).0
                != (#[trigger] self.histogram@[y]).0 by {
                if y < before.len() {
                    assert(before[x].0 != before[y].0);
                }
            }
            assert forall|q: usize| #[trigger] frequency_of(self.histogram@, q) == frequency_of(before, q) + if q
                == nreads {
                1nat
            } else {
                0nat
            } by {
            }
        }
    }

    /// The `(amplification, frequency)` entries.
    pub fn to_entries(&self) -> (r: Vec<(usize, usize)>)
        ensures
            r@ == self.entries(),
    {
        let mut r: Vec<(usize, usize)> = Vec::new();
        let mut i: usize = 0;
        while i < self.histogram.len()
            invariant
                i <= self.histogram.len(),
                r@ == self.histogram@.subrange(0, i as int),
            decreases self.histogram.len() - i,
        {
            r.push(self.histogram[i]);
            i = i + 1;
            proof {
                assert(r@ =~= self.histogram@.subrange(0, i as int));
            }
        }
        proof {
            assert(self.histogram@.subrange(0, i as int) =~= self.histogram@);
        }
        r
    }

    /// Number of reads: each molecule counted as often as it was amplified.
    pub fn get_nreads(&self) -> (r: usize)
        requires
            total_reads(self.entries()) <= usize::MAX,
        ensures
            r == total_reads(self.entries()),
    {
        let mut sum: usize = 0;
        let mut i: usize = 0;
        while i < self.histogram.len()
            invariant
                i <= self.histogram.len(),
                total_reads(self.histogram@) <= usize::MAX,
                sum == total_reads(self.histogram@.subrange(0, i as int)),
            decreases self.histogram.len() - i,
        {
            let (a, f) = self.histogram[i];
            proof {
                let s = self.histogram@.subrange(0, i + 1);
                assert(s.drop_last() =~= self.histogram@.subrange(0, i as int));
                lemma_total_reads_prefix(self.histogram@, i + 1);
                assert(a * f >= 0) by (nonlinear_arith);
            }
            sum = sum + a * f;
            i = i + 1;
        }
        proof {
            assert(self.histogram@.subrange(0, i as int) =~= self.histogram@);
        }
        sum
    }

    /// Number of molecules (distinct `(cb, umi)` pairs).
    pub fn get_numis(&self) -> (r: usize)
        requires
            total_molecules(self.entries()) <= usize::MAX,
        ensures
            r == total_molecules(self.entries()),
    {
        let mut sum: usize = 0;
        let mut i: usize = 0;
        while i < self.histogram.len()
            invariant
                i <= self.histogram.len(),
                total_molecules(self.histogram@) <= usize::MAX,
                sum == total_molecules(self.histogram@.subrange(0, i as int)),
            decreases self.histogram.len() - i,
        {
            proof {
                let s = self.histogram@.subrange(0, i + 1);
                assert(s.drop_last() =~= self.histogram@.subrange(0, i as int));
                lemma_total_molecules_prefix(self.histogram@, i + 1);
            }
            sum = sum + self.histogram[i].1;
            i = i + 1;
        }
        proof {
            assert(self.histogram@.subrange(0, i as int) =~= self.histogram@);
        }
        sum
    }
}

proof fn lemma_total_reads_prefix(h: Seq<(usize, usize)>, n: int)
    requires
        0 <= n <= h.len(),
    ensures
        total_reads(h.subrange(0, n)) <= total_reads(h),
    decreases h.len(),
{
    if n < h.len() {
        assert(h.drop_last().subrange(0, n) =~= h.subrange(0, n));
        lemma_total_reads_prefix(h.drop_last(), n);
        assert(h.last().0 * h.last().1 >= 0) by (nonlinear_arith);
    } else {
        assert(h.subrange(0, n) =~= h);
    }
}

proof fn lemma_total_molecules_prefix(h: Seq<(usize, usize)>, n: int)
    requires
        0 <= n <= h.len(),
    ensures
        total_molecules(h.subrange(0, n)) <= total_molecules(h),
    decreases h.len(),
{
    if n < h.len() {
        assert(h.drop_last().subrange(0, n) =~= h.subrange(0, n));
        lemma_total_molecules_prefix(h.drop_last(), n);
    } else {
        assert(h.subrange(0, n) =~= h);
    }
}

proof fn lemma_total_molecules_bound(h: Seq<(usize, usize)>, i: int)
    requires
        0 <= i < h.len(),
    ensures
        h[i].1 <= total_molecules(h),
    decreases h.len(),
{
    if i < h.len() - 1 {
        assert(h.drop_last()[i] == h[i]);
        lemma_total_molecules_bound(h.drop_last(), i);
    }
}

proof fn lemma_frequency_update(h: Seq<(usize, usize)>, i: int, e: (usize, usize), q: usize)
    requires
        0 <= i < h.len(),
        e.0 == h[i].0,
        e.1 == h[i].1 + 1,
    ensures
        frequency_of(h.update(i, e), q) == frequency_of(h, q) + if q == e.0 {
            1nat
        } else {
            0nat
        },
    decreases h.len(),
{
    let h2 = h.update(i, e);
    if i == h.len() - 1 {
        assert(h2.drop_last() =~= h.drop_last());
    } else {
        assert(h2.drop_last() =~= h.drop_last().update(i, e));
        assert(h.drop_last()[i] == h[i]);
        lemma_frequency_update(h.drop_last(), i, e, q);
    }
}

proof fn lemma_totals_update(h: Seq<(usize, usize)>, i: int, e: (usize, usize))
    requires
        0 <= i < h.len(),
        e.0 == h[i].0,
        e.1 == h[i].1 + 1,
    ensures
        total_molecules(h.update(i, e)) == total_molecules(h) + 1,
        total_reads(h.update(i, e)) == total_reads(h) + e.0,
    decreases h.len(),
{
    let h2 = h.update(i, e);
    if i == h.len() - 1 {
        assert(h2.drop_last() =~= h.drop_last());
        assert(e.0 * e.1 == e.0 * h[i].1 + e.0) by (nonlinear_arith)
            requires
                e.1 == h[i].1 + 1,
        ;
    } else {
        assert(h2.drop_last() =~= h.drop_last().update(i, e));
        assert(h.drop_last()[i] == h[i]);
        lemma_totals_update(h.drop_last(), i, e);
    }
}

} // verus!
