//! Whitelist correction of cell barcodes: a BK-tree over the whitelist answers
//! "which entries lie within distance one", and every distinct observed barcode
//! is mapped once to its correction, if it has a single one.
use vstd::prelude::*;
use std::collections::{HashMap, HashSet};
use bktree::BkTree;
use crate::barcode::{
    bytes, dna_value, hamming, is_dna, lemma_dna_bytes_len, lemma_dna_value_injective,
    lemma_hamming_self, lemma_hamming_zero, my_hamming, seq_to_int,
};
use crate::record::Record;

verus! {

broadcast use vstd::std_specs::hash::group_hash_axioms;

/// Largest Hamming distance at which a barcode is still corrected.
pub const MAX_DIST: isize = 1;

#[verifier::external_type_specification]
#[verifier::external_body]
#[verifier::reject_recursive_types(T)]
pub struct ExBkTree<T>(BkTree<T>);

/// The words held by a BK-tree.
pub uninterp spec fn bk_words(t: BkTree<String>) -> Set<Seq<char>>;

/// Every word of `w` has as many bytes as `q`.
pub open spec fn same_width(w: Set<Seq<char>>, q: Seq<char>) -> bool {
    forall|v: Seq<char>| #[trigger] w.contains(v) ==> bytes(v).len() == bytes(q).len()
}

/// `v` is a word of `w` within the correction distance of `q`.
pub open spec fn near(w: Set<Seq<char>>, q: Seq<char>, v: Seq<char>) -> bool {
    w.contains(v) && hamming(bytes(v), bytes(q)) <= MAX_DIST
}

/// `v` is a word of `w` at distance zero from `q`.
pub open spec fn exact(w: Set<Seq<char>>, q: Seq<char>, v: Seq<char>) -> bool {
    w.contains(v) && hamming(bytes(v), bytes(q)) == 0
}

/// The BK-tree index over a whitelist. It is only ever made by
/// `build_whitelist_tree`, so its tree always measures with `my_hamming`.
pub struct WhitelistIndex {
    tree: BkTree<String>,
}

impl WhitelistIndex {
    /// The whitelist entries the index holds.
    pub closed spec fn words(&self) -> Set<Seq<char>> {
        bk_words(self.tree)
    }
}

/// Relies on bktree::BkTree::new: an empty tree, here measuring with `my_hamming`.
#[verifier::external_body]
fn bk_new() -> (t: WhitelistIndex)
    ensures
        bk_words(t.tree) == Set::<Seq<char>>::empty(),
{
    WhitelistIndex { tree: BkTree::new(my_hamming) }
}

/// Relies on bktree::BkTree::insert (on a tree measuring with `my_hamming`): the
/// word joins the tree; a word at distance zero from one already there is not
/// added again.
#[verifier::external_body]
fn bk_insert(t: &mut WhitelistIndex, v: String)
    requires
        same_width(bk_words(old(t).tree), v@),
        bytes(v@).len() <= isize::MAX,
    ensures
        bk_words(final(t).tree) == bk_words(old(t).tree).insert(v@),
{
    t.tree.insert(v)
}

/// Relies on bktree::BkTree::find (on a tree measuring with `my_hamming`, which
/// obeys the triangle inequality on strings of one width): every word of the
/// tree within `max_dist` of the query, each once, with its distance.
#[verifier::external_body]
fn bk_find(t: &WhitelistIndex, q: &String, max_dist: isize) -> (r: Vec<(String, isize)>)
    requires
        same_width(bk_words(t.tree), q@),
        bytes(q@).len() <= isize::MAX,
    ensures
        forall|i: int|
            0 <= i < r.len() ==> bk_words(t.tree).contains((#[trigger] r@[i]).0@) && r@[i].1 == hamming(
                bytes(r@[i].0@),
                bytes(q@),
            ) && r@[i].1 <= max_dist,
        forall|v: Seq<char>|
            bk_words(t.tree).contains(v) && hamming(bytes(v), bytes(q@)) <= max_dist ==> exists|i: int|
                0 <= i < r.len() && (#[trigger] r@[i]).0@ == v,
        forall|i: int, j: int| 0 <= i < j < r.len() ==> (#[trigger] r@[i]).0@ != (#[trigger] r@[j]).0@,
{
    t.tree.find(q.clone(), max_dist).into_iter().map(|(w, d)| (w.clone(), d)).collect()
}

/// Outcome of correcting one barcode.
#[derive(Debug, PartialEq, Eq)]
pub enum CorrectionResult {
    /// One whitelist entry: the barcode itself, or the only one near it.
    SingleHit(String),
    /// No whitelist entry within the distance.
    NoHit,
    /// Several whitelist entries within the distance, none of them exact.
    Ambiguous(Vec<String>),
}

/// `c` lists exactly the words of `w` near `q`.
pub open spec fn lists_near(w: Set<Seq<char>>, q: Seq<char>, c: Seq<String>) -> bool {
    forall|v: Seq<char>| #[trigger] near(w, q, v) <==> exists|i: int| 0 <= i < c.len() && (#[trigger] c[i])@ == v
}

/// No word is listed twice in `c`.
pub open spec fn distinct_words(c: Seq<String>) -> bool {
    forall|i: int, j: int| 0 <= i < j < c.len() ==> (#[trigger] c[i])@ != (#[trigger] c[j])@
}

/// At least two different words of `w` are near `q`.
pub open spec fn two_near(w: Set<Seq<char>>, q: Seq<char>) -> bool {
    exists|v1: Seq<char>, v2: Seq<char>| near(w, q, v1) && near(w, q, v2) && v1 != v2
}

/// `s` is the only word of `w` near `q`.
pub open spec fn only_near(w: Set<Seq<char>>, q: Seq<char>, s: Seq<char>) -> bool {
    near(w, q, s) && forall|v: Seq<char>| #[trigger] near(w, q, v) ==> v == s
}

/// `s` is the only word of `w` at distance zero from `q`.
pub open spec fn only_exact(w: Set<Seq<char>>, q: Seq<char>, s: Seq<char>) -> bool {
    exact(w, q, s) && forall|v: Seq<char>| #[trigger] exact(w, q, v) ==> v == s
}

/// Exactly one word of `w` lies at distance zero from `q`.
pub open spec fn unique_exact(w: Set<Seq<char>>, q: Seq<char>) -> bool {
    exists|s: Seq<char>| #[trigger] only_exact(w, q, s)
}

/// What `correct_single_cb` returns for query `q` against the words `w`.
pub open spec fn correction_matches(w: Set<Seq<char>>, q: Seq<char>, r: CorrectionResult) -> bool {
    match r {
        CorrectionResult::NoHit => forall|v: Seq<char>| !#[trigger] near(w, q, v),
        CorrectionResult::SingleHit(s) => only_near(w, q, s@) || (near(w, q, s@) && only_exact(w, q, s@)),
        CorrectionResult::Ambiguous(c) => lists_near(w, q, c@) && distinct_words(c@) && two_near(w, q)
            && !unique_exact(w, q),
    }
}

/// Corrects one barcode against the whitelist held by `bk`: no entry within
/// the distance gives `NoHit`; a single one gives `SingleHit`; of several, an
/// exact match wins, and otherwise all of them are returned as `Ambiguous`.
#[verifier::loop_isolation(false)]
pub fn correct_single_cb(cb: String, bk: &WhitelistIndex) -> (r: CorrectionResult)
    requires
        same_width(bk.words(), cb@),
        bytes(cb@).len() <= isize::MAX,
    ensures
        correction_matches(bk.words(), cb@, r),
{
    let ghost w = bk.words();
    let matches = bk_find(bk, &cb, MAX_DIST);
    if matches.len() == 0 {
        proof {
            assert forall|v: Seq<char>| !#[trigger] near(w, cb@, v) by {
                if near(w, cb@, v) {
                    let i = choose|i: int| 0 <= i < matches.len() && (#[trigger] matches@[i]).0@ == v;
                }
            }
        }
        proof {
            assert(correction_matches(w, cb@, CorrectionResult::NoHit));
        }
        CorrectionResult::NoHit
    } else if matches.len() == 1 {
        let s = matches[0].0.clone();
        proof {
            assert(near(w, cb@, matches@[0].0@));
            assert forall|v: Seq<char>| #[trigger] near(w, cb@, v) implies v == s@ by {
                let i = choose|i: int| 0 <= i < matches.len() && (#[trigger] matches@[i]).0@ == v;
            }
            assert(correction_matches(w, cb@, CorrectionResult::SingleHit(s)));
        }
        CorrectionResult::SingleHit(s)
    } else {
        // exact hits among the matches: none, exactly one (at `first`), or at
        // least two (at `first` and `second`)
        let mut n_exact: usize = 0;
        let mut first: usize = 0;
        let ghost mut second: int = 0;
        let mut k: usize = 0;
        while k < matches.len()
            invariant
                k <= matches.len(),
                n_exact <= 2,
                n_exact == 0 ==> forall|i: int| 0 <= i < k ==> (#[trigger] matches@[i]).1 != 0,
                n_exact == 1 ==> first < k && matches@[first as int].1 == 0 && forall|i: int|
                    0 <= i < k && (#[trigger] matches@[i]).1 == 0 ==> i == first,
                n_exact == 2 ==> first < k && 0 <= second < k && first != second && matches@[first as int].1 == 0
                    && matches@[second].1 == 0,
            decreases matches.len() - k,
        {
            if matches[k].1 == 0 {
                if n_exact == 0 {
                    first = k;
                    n_exact = 1;
                } else if n_exact == 1 {
                    proof {
                        second = k as int;
                    }
                    n_exact = 2;
                }
            }
            k = k + 1;
        }
        proof {
            assert(matches@[0].0@ != matches@[1].0@);
            assert(near(w, cb@, matches@[0].0@) && near(w, cb@, matches@[1].0@));
        }
        if n_exact == 1 {
            let s = matches[first].0.clone();
            proof {
                assert(near(w, cb@, s@));
                assert forall|v: Seq<char>| #[trigger] exact(w, cb@, v) implies v == s@ by {
                    assert(near(w, cb@, v));
                    let j = choose|j: int| 0 <= j < matches.len() && (#[trigger] matches@[j]).0@ == v;
                    assert(j == first);
                }
                assert(correction_matches(w, cb@, CorrectionResult::SingleHit(s)));
            }
            CorrectionResult::SingleHit(s)
        } else {
            let mut multi: Vec<String> = Vec::new();
            let mut t: usize = 0;
            while t < matches.len()
                invariant
                    t <= matches.len(),
                    multi.len() == t,
                    forall|i: int| 0 <= i < t ==> (#[trigger] multi@[i])@ == matches@[i].0@,
                decreases matches.len() - t,
            {
                multi.push(matches[t].0.clone());
                t = t + 1;
            }
            proof {
                assert forall|v: Seq<char>|
                    #[trigger] near(w, cb@, v) <==> exists|i: int| 0 <= i < multi.len() && (#[trigger] multi@[i])@ == v by {
                    if near(w, cb@, v) {
                        let i = choose|i: int| 0 <= i < matches.len() && (#[trigger] matches@[i]).0@ == v;
                        assert(multi@[i]@ == v);
                    }
                    if exists|i: int| 0 <= i < multi.len() && (#[trigger] multi@[i])@ == v {
                        let i = choose|i: int| 0 <= i < multi.len() && (#[trigger] multi@[i])@ == v;
                        assert(matches@[i].0@ == v);
                    }
                }
                assert forall|i: int, j: int| 0 <= i < j < multi.len() implies (#[trigger] multi@[i])@ != (#[trigger] multi@[j])@ by {
                    assert(matches@[i].0@ != matches@[j].0@);
                }
                if unique_exact(w, cb@) {
                    let s = choose|s: Seq<char>| #[trigger] only_exact(w, cb@, s);
                    if n_exact == 0 {
                        assert(near(w, cb@, s));
                        let j = choose|j: int| 0 <= j < matches.len() && (#[trigger] matches@[j]).0@ == s;
                        assert(matches@[j].1 == 0);
                        assert(false);
                    } else {
                        assert(exact(w, cb@, matches@[first as int].0@));
                        assert(exact(w, cb@, matches@[second].0@));
                        assert(matches@[first as int].0@ != matches@[second].0@);
                        assert(false);
                    }
                }
                let v1 = matches@[0].0@;
                let v2 = matches@[1].0@;
                assert(two_near(w, cb@)) by {
                    assert(near(w, cb@, v1) && near(w, cb@, v2) && v1 != v2);
                }
                assert(distinct_words(multi@));
                assert(lists_near(w, cb@, multi@));
                assert(correction_matches(w, cb@, CorrectionResult::Ambiguous(multi)));
            }
            CorrectionResult::Ambiguous(multi)
        }
    }
}

/// The strings of a list, as a set.
pub open spec fn word_set(ws: Seq<String>) -> Set<Seq<char>> {
    Set::new(|v: Seq<char>| exists|i: int| 0 <= i < ws.len() && (#[trigger] ws[i])@ == v)
}

/// Barcodes of 1 to 32 bases over `A`, `C`, `G`, `T`.
pub open spec fn valid_barcodes(ws: Seq<String>) -> bool {
    forall|i: int| 0 <= i < ws.len() ==> is_dna((#[trigger] ws[i])@) && 1 <= ws[i]@.len() <= 32
}

/// Every string of `a` is as long as every string of `b`.
pub open spec fn same_lengths(a: Seq<String>, b: Seq<String>) -> bool {
    forall|i: int, j: int| 0 <= i < a.len() && 0 <= j < b.len() ==> (#[trigger] a[i])@.len() == (#[trigger] b[j])@.len()
}

/// The whitelist entry that barcode `q` is corrected to, if any: `q` itself when
/// it is whitelisted, else the one entry within the distance, if there is exactly one.
pub open spec fn corrected(w: Set<Seq<char>>, q: Seq<char>) -> Option<Seq<char>> {
    if w.contains(q) {
        Some(q)
    } else if exists|s: Seq<char>| #[trigger] only_near(w, q, s) {
        Some(choose|s: Seq<char>| #[trigger] only_near(w, q, s))
    } else {
        None
    }
}

/// Builds the BK-tree index over a whitelist of strings of one width.
#[verifier::loop_isolation(false)]
pub fn build_whitelist_tree(whitelist: &Vec<String>) -> (t: WhitelistIndex)
    requires
        forall|i: int, j: int|
            0 <= i < whitelist.len() && 0 <= j < whitelist.len() ==> bytes((#[trigger] whitelist@[i])@).len()
                == bytes((#[trigger] whitelist@[j])@).len(),
        forall|i: int| 0 <= i < whitelist.len() ==> bytes((#[trigger] whitelist@[i])@).len() <= isize::MAX,
    ensures
        t.words() == word_set(whitelist@),
{
    let mut t = bk_new();
    let mut k: usize = 0;
    proof {
        assert(word_set(whitelist@.subrange(0, 0)) =~= Set::<Seq<char>>::empty());
    }
    while k < whitelist.len()
        invariant
            k <= whitelist.len(),
            t.words() == word_set(whitelist@.subrange(0, k as int)),
        decreases whitelist.len() - k,
    {
        let v = whitelist[k].clone();
        proof {
            assert forall|x: Seq<char>| #[trigger] t.words().contains(x) implies bytes(x).len() == bytes(v@).len() by {
                let i = choose|i: int| 0 <= i < k && (#[trigger] whitelist@.subrange(0, k as int)[i])@ == x;
                assert(whitelist@.subrange(0, k as int)[i] == whitelist@[i]);
            }
        }
        bk_insert(&mut t, v);
        k = k + 1;
        proof {
            let pre = whitelist@.subrange(0, k - 1);
            let now = whitelist@.subrange(0, k as int);
            assert forall|x: Seq<char>| word_set(now).contains(x) <==> word_set(pre).insert(v@).contains(x) by {
                if word_set(now).contains(x) {
                    let i = choose|i: int| 0 <= i < now.len() && (#[trigger] now[i])@ == x;
                    if i < k - 1 {
                        assert(pre[i] == now[i]);
                    }
                }
                if word_set(pre).contains(x) {
                    let i = choose|i: int| 0 <= i < pre.len() && (#[trigger] pre[i])@ == x;
                    assert(pre[i] == now[i]);
                }
                if x == v@ {
                    assert(now[k - 1]@ == x);
                }
            }
            assert(word_set(now) =~= word_set(pre).insert(v@));
        }
    }
    proof {
        assert(whitelist@.subrange(0, k as int) =~= whitelist@);
    }
    t
}

/// Maps each observed barcode, by its integer encoding, to the encoding of its
/// correction; barcodes without a correction are left out. Whitelisted barcodes
/// map to themselves without a query of the index.
#[verifier::loop_isolation(false)]
pub fn build_correct_map(cbs: &Vec<String>, whitelist: &Vec<String>) -> (m: HashMap<u64, u64>)
    requires
        valid_barcodes(cbs@),
        valid_barcodes(whitelist@),
        same_lengths(whitelist@, whitelist@),
        same_lengths(cbs@, whitelist@),
    ensures
        forall|i: int|
            #![trigger cbs@[i]]
            0 <= i < cbs.len() ==> match corrected(word_set(whitelist@), cbs@[i]@) {
                Some(v) => m@.contains_key(dna_value(cbs@[i]@) as u64) && m@[dna_value(cbs@[i]@) as u64]
                    == dna_value(v),
                None => !m@.contains_key(dna_value(cbs@[i]@) as u64),
            },
        forall|k: u64| #[trigger] m@.contains_key(k) ==> exists|i: int| 0 <= i < cbs.len() && dna_value((#[trigger] cbs@[i])@) == k,
{
    let ghost w = word_set(whitelist@);
    proof {
        assert forall|i: int| 0 <= i < whitelist.len() implies bytes((#[trigger] whitelist@[i])@).len() == whitelist@[i]@.len() by {
            lemma_dna_bytes_len(whitelist@[i]@);
        }
    }
    let bk = build_whitelist_tree(whitelist);
    let mut codes: HashSet<u64> = HashSet::new();
    let mut k: usize = 0;
    while k < whitelist.len()
        invariant
            k <= whitelist.len(),
            forall|c: u64| #[trigger] codes@.contains(c) <==> exists|j: int| 0 <= j < k && dna_value((#[trigger] whitelist@[j])@) == c,
        decreases whitelist.len() - k,
    {
        let c = seq_to_int(&whitelist[k]);
        codes.insert(c);
        proof {
            assert forall|x: u64| #[trigger] codes@.contains(x) <==> exists|j: int| 0 <= j < k + 1 && dna_value((#[trigger] whitelist@[j])@) == x by {
                if x == c {
                    assert(dna_value(whitelist@[k as int]@) == x);
                }
            }
        }
        k = k + 1;
    }
    let mut m: HashMap<u64, u64> = HashMap::new();
    let mut i: usize = 0;
    while i < cbs.len()
        invariant
            i <= cbs.len(),
            bk.words() == w,
            forall|c: u64| #[trigger] codes@.contains(c) <==> exists|j: int| 0 <= j < whitelist.len() && dna_value((#[trigger] whitelist@[j])@) == c,
            forall|t: int|
                #![trigger cbs@[t]]
                0 <= t < i ==> match corrected(w, cbs@[t]@) {
                    Some(v) => m@.contains_key(dna_value(cbs@[t]@) as u64) && m@[dna_value(cbs@[t]@) as u64] == dna_value(v),
                    None => !m@.contains_key(dna_value(cbs@[t]@) as u64),
                },
            forall|c: u64| #[trigger] m@.contains_key(c) ==> exists|t: int| 0 <= t < i && dna_value((#[trigger] cbs@[t])@) == c,
            forall|t: int| 0 <= t < i ==> dna_value((#[trigger] cbs@[t])@) <= u64::MAX,
        decreases cbs.len() - i,
    {
        let cb = &cbs[i];
        let ghost q = cb@;
        let code = seq_to_int(cb);
        let ghost old_m = m@;
        proof {
            lemma_dna_bytes_len(q);
        }
        // the whitelisted barcode: same length, same value, same string
        let listed = codes.contains(&code);
        proof {
            if listed {
                let j = choose|j: int| 0 <= j < whitelist.len() && dna_value((#[trigger] whitelist@[j])@) == code;
                lemma_dna_value_injective(whitelist@[j]@, q);
                assert(w.contains(q));
            } else {
                if w.contains(q) {
                    let j = choose|j: int| 0 <= j < whitelist.len() && (#[trigger] whitelist@[j])@ == q;
                    assert(codes@.contains(code));
                }
            }
        }
        let mut fixed: Option<u64> = None;
        if listed {
            fixed = Some(code);
        } else {
            proof {
                assert forall|x: Seq<char>| #[trigger] w.contains(x) implies bytes(x).len() == bytes(q).len() by {
                    let j = choose|j: int| 0 <= j < whitelist.len() && (#[trigger] whitelist@[j])@ == x;
                    lemma_dna_bytes_len(x);
                }
            }
            let res = correct_single_cb(cb.clone(), &bk);
            match res {
                CorrectionResult::SingleHit(s) => {
                    proof {
                        if near(w, q, s@) && only_exact(w, q, s@) {
                            lemma_hamming_zero(s@, q);
                        }
                        assert(only_near(w, q, s@));
                        let j = choose|j: int| 0 <= j < whitelist.len() && (#[trigger] whitelist@[j])@ == s@;
                    }
                    let sc = seq_to_int(&s);
                    proof {
                        let c = choose|c: Seq<char>| #[trigger] only_near(w, q, c);
                        assert(c == s@);
                    }
                    fixed = Some(sc);
                },
                _ => {
                    proof {
                        if exists|c: Seq<char>| #[trigger] only_near(w, q, c) {
                            let c = choose|c: Seq<char>| #[trigger] only_near(w, q, c);
                            if res is Ambiguous {
                                let v1 = choose|v1: Seq<char>, v2: Seq<char>| near(w, q, v1) && near(w, q, v2) && v1 != v2;
                                assert(false);
                            }
                        }
                    }
                },
            }
        }
        proof {
            assert(match corrected(w, q) {
                Some(v) => fixed == Some(dna_value(v) as u64),
                None => fixed is None,
            });
        }
        match fixed {
            Some(c) => {
                m.insert(code, c);
            },
            None => {},
        }
        proof {
            if old_m.contains_key(code) {
                let t0 = choose|t: int| 0 <= t < i && dna_value((#[trigger] cbs@[t])@) == code;
                assert(corrected(w, cbs@[t0]@) is Some);
                let j = choose|j: int| 0 <= j < whitelist.len() && (#[trigger] whitelist@[j])@ == corrected(w, cbs@[t0]@)->0;
                assert(cbs@[t0]@.len() == whitelist@[j]@.len());
                assert(q.len() == whitelist@[j]@.len());
                lemma_dna_value_injective(cbs@[t0]@, q);
                assert(corrected(w, q) is Some);
            }
            assert(match corrected(w, q) {
                Some(v) => m@.contains_key(code) && m@[code] == dna_value(v),
                None => !m@.contains_key(code),
            });
            assert forall|t: int|
                #![trigger cbs@[t]]
                0 <= t < i + 1 implies match corrected(w, cbs@[t]@) {
                    Some(v) => m@.contains_key(dna_value(cbs@[t]@) as u64) && m@[dna_value(cbs@[t]@) as u64] == dna_value(v),
                    None => !m@.contains_key(dna_value(cbs@[t]@) as u64),
                } by {
                if t == i {
                    assert(cbs@[t]@ == q);
                } else if dna_value(cbs@[t]@) as u64 != code {
                    assert(m@.contains_key(dna_value(cbs@[t]@) as u64) == old_m.contains_key(dna_value(cbs@[t]@) as u64));
                    assert(m@[dna_value(cbs@[t]@) as u64] == old_m[dna_value(cbs@[t]@) as u64]);
                } else {
                    assert(dna_value(cbs@[t]@) == dna_value(q));
                    if corrected(w, cbs@[t]@) is Some {
                        let j = choose|j: int| 0 <= j < whitelist.len() && (#[trigger] whitelist@[j])@ == corrected(w, cbs@[t]@)->0;
                        assert(cbs@[t]@.len() == whitelist@[j]@.len());
                        assert(q.len() == whitelist@[j]@.len());
                        lemma_dna_value_injective(cbs@[t]@, q);
                    } else if corrected(w, q) is Some {
                        let j = choose|j: int| 0 <= j < whitelist.len() && (#[trigger] whitelist@[j])@ == corrected(w, q)->0;
                        assert(cbs@[t]@.len() == whitelist@[j]@.len());
                        assert(q.len() == whitelist@[j]@.len());
                        lemma_dna_value_injective(cbs@[t]@, q);
                    }
                }
            }
            assert forall|c: u64| #[trigger] m@.contains_key(c) implies exists|t: int| 0 <= t < i + 1 && dna_value((#[trigger] cbs@[t])@) == c by {
                if c != code {
                    assert(old_m.contains_key(c));
                    let t = choose|t: int| 0 <= t < i && dna_value((#[trigger] cbs@[t])@) == c;
                } else {
                    assert(dna_value(cbs@[i as int]@) == c);
                }
            }
        }
        i = i + 1;
    }
    m
}

/// Applies a correction map to one record: the record with its barcode
/// replaced, or `None` when the barcode has no correction.
pub fn fix_record(record: Record, corrector: &HashMap<u64, u64>) -> (r: Option<Record>)
    ensures
        r == if corrector@.contains_key(record.cb) {
            Some(Record { cb: corrector@[record.cb], ..record })
        } else {
            None::<Record>
        },
{
    match corrector.get(&record.cb) {
        Some(c) => Some(Record { cb: *c, ..record }),
        None => None,
    }
}

/// The records of `s` whose barcode has a correction in `m`, in order, each with
/// its barcode replaced by the correction.
pub open spec fn corrected_records(s: Seq<Record>, m: Map<u64, u64>) -> Seq<Record>
    decreases s.len(),
{
    if s.len() == 0 {
        Seq::empty()
    } else if m.contains_key(s.last().cb) {
        corrected_records(s.drop_last(), m).push(Record { cb: m[s.last().cb], ..s.last() })
    } else {
        corrected_records(s.drop_last(), m)
    }
}

/// The record-level correction pass: every record whose barcode has a
/// correction, with the barcode replaced; the others are dropped.
pub fn correct_records(records: &Vec<Record>, corrector: &HashMap<u64, u64>) -> (r: Vec<Record>)
    ensures
        r@ == corrected_records(records@, corrector@),
{
    let mut out: Vec<Record> = Vec::new();
    let mut i: usize = 0;
    while i < records.len()
        invariant
            i <= records.len(),
            out@ == corrected_records(records@.subrange(0, i as int), corrector@),
        decreases records.len() - i,
    {
        proof {
            assert(records@.subrange(0, i + 1).drop_last() =~= records@.subrange(0, i as int));
            assert(records@.subrange(0, i + 1).last() == records@[i as int]);
        }
        match fix_record(records[i], corrector) {
            Some(r) => out.push(r),
            None => {},
        }
        i = i + 1;
    }
    proof {
        assert(records@.subrange(0, i as int) =~= records@);
    }
    out
}

/// A barcode found verbatim in the whitelist is corrected to itself, whatever
/// other entries lie within the distance.
pub proof fn lemma_exact_match_wins(w: Set<Seq<char>>, q: Seq<char>, r: CorrectionResult)
    requires
        w.contains(q),
        same_width(w, q),
        correction_matches(w, q, r),
    ensures
        r matches CorrectionResult::SingleHit(s) && s@ == q,
{
    lemma_hamming_self(bytes(q));
    assert(exact(w, q, q) && near(w, q, q));
    assert forall|v: Seq<char>| #[trigger] exact(w, q, v) implies v == q by {
        lemma_hamming_zero(v, q);
    }
    assert(only_exact(w, q, q));
    match r {
        CorrectionResult::SingleHit(s) => {
            if only_near(w, q, s@) {
                assert(near(w, q, q));
            } else {
                assert(exact(w, q, s@));
            }
        },
        CorrectionResult::NoHit => {
            assert(!near(w, q, q));
        },
        CorrectionResult::Ambiguous(c) => {
            assert(unique_exact(w, q));
        },
    }
}

/// A barcode farther than the correction distance from every whitelist entry
/// is not corrected.
pub proof fn lemma_far_barcode_no_hit(w: Set<Seq<char>>, q: Seq<char>, r: CorrectionResult)
    requires
        forall|v: Seq<char>| #[trigger] w.contains(v) ==> hamming(bytes(v), bytes(q)) > MAX_DIST,
        correction_matches(w, q, r),
    ensures
        r is NoHit,
{
    match r {
        CorrectionResult::SingleHit(s) => {
            assert(near(w, q, s@));
        },
        CorrectionResult::Ambiguous(c) => {
            let v1 = choose|v1: Seq<char>, v2: Seq<char>| near(w, q, v1) && near(w, q, v2) && v1 != v2;
        },
        CorrectionResult::NoHit => {},
    }
}

} // verus!
