//! The training session: the corpus with its current segmentation into
//! spans, the growing token vocabulary, and the merge round that commits
//! the most frequent adjacent pair of spans as a new token.
//!
//! Symbols are `u32` values; a word is a vector of symbols. Each word
//! carries a parallel vector of span lengths that partitions it exactly.
//! Pair statistics are keyed by the ordered pair of adjacent span
//! contents. Ties between equally frequent pairs are broken towards the
//! lexicographically smallest concatenation, and among pairs with the
//! same concatenation towards the smallest left half.

use vstd::prelude::*;
use vstd::seq_lib::*;
use crate::basics::{eq_syms, contains_sym, copy_range, concat_syms, pair_le, pair_le_exec,
    lemma_pair_le_refl, lemma_pair_le_total, lemma_pair_le_antisymmetric, lemma_pair_le_trans};
use crate::all_positive;

verus! {

/// A vocabulary under training: the corpus words, the span partition of
/// each word, and the tokens admitted so far.
pub struct Vocab {
    /// The training words, one vector of symbols each; all non-empty.
    pub words: Vec<Vec<u32>>,
    /// For each word, the lengths of the spans that partition it.
    pub spans: Vec<Vec<usize>>,
    /// The tokens admitted so far, unique by value, all non-empty.
    pub tokens: Vec<Vec<u32>>,
}

/// Sum of a sequence of span lengths.
pub open spec fn sum_seq(s: Seq<usize>) -> int
    decreases s.len(),
{
    if s.len() == 0 {
        0
    } else {
        sum_seq(s.drop_last()) + s.last()
    }
}

/// The views of a sequence of symbol vectors.
pub open spec fn word_views(ws: Seq<Vec<u32>>) -> Seq<Seq<u32>> {
    ws.map_values(|w: Vec<u32>| w@)
}

/// A span-length vector partitions a word of length `n` exactly.
pub open spec fn spans_wf(spans: Seq<usize>, n: int) -> bool {
    &&& all_positive(spans)
    &&& sum_seq(spans) == n
}

/// Start position of span `k`: the lengths of the spans before it.
pub open spec fn start_of(spans: Seq<usize>, k: int) -> int {
    sum_seq(spans.take(k))
}

/// The symbols of span `k`: the left half of the adjacent pair at `k`.
pub open spec fn left_at(syms: Seq<u32>, spans: Seq<usize>, k: int) -> Seq<u32> {
    syms.subrange(start_of(spans, k), start_of(spans, k) + spans[k])
}

/// The symbols of span `k + 1`: the right half of the adjacent pair at `k`.
pub open spec fn right_at(syms: Seq<u32>, spans: Seq<usize>, k: int) -> Seq<u32> {
    syms.subrange(start_of(spans, k) + spans[k], start_of(spans, k) + spans[k] + spans[k + 1])
}

/// How often the ordered pair of span contents `(l, r)` stands adjacent
/// in one word.
pub open spec fn word_pair_count(syms: Seq<u32>, spans: Seq<usize>, l: Seq<u32>, r: Seq<u32>) -> nat
    decreases spans.len(),
{
    if spans.len() < 2 {
        0
    } else {
        word_pair_count(syms, spans.drop_last(), l, r) + if left_at(
            syms,
            spans,
            spans.len() - 2,
        ) == l && right_at(syms, spans, spans.len() - 2) == r {
            1nat
        } else {
            0nat
        }
    }
}

/// Aggregate frequency of the ordered pair `(l, r)` over the whole corpus.
pub open spec fn corpus_count(ws: Seq<Vec<u32>>, ss: Seq<Vec<usize>>, l: Seq<u32>, r: Seq<u32>) -> nat
    decreases ws.len(),
{
    if ws.len() == 0 || ss.len() != ws.len() {
        0
    } else {
        corpus_count(ws.drop_last(), ss.drop_last(), l, r) + word_pair_count(
            ws.last()@,
            ss.last()@,
            l,
            r,
        )
    }
}

/// Total number of symbols in the corpus.
pub open spec fn total_syms(ws: Seq<Vec<u32>>) -> int
    decreases ws.len(),
{
    if ws.len() == 0 {
        0
    } else {
        total_syms(ws.drop_last()) + ws.last()@.len()
    }
}

/// Symbol `s` occurs somewhere in the corpus.
pub open spec fn sym_occurs(ws: Seq<Vec<u32>>, s: u32) -> bool {
    exists|i: int, j: int| 0 <= i < ws.len() && 0 <= j < ws[i]@.len() && ws[i]@[j] == s
}

/// The set of distinct symbols of the corpus.
pub open spec fn distinct_syms(ws: Seq<Vec<u32>>) -> Set<u32> {
    Set::new(|s: u32| sym_occurs(ws, s))
}

/// `(l, r)` is the merge-round winner: its aggregate frequency reaches
/// `min_freq`, no ordered pair is more frequent, and among the equally
/// frequent pairs it comes first in the documented tie-break order
/// (lexicographically smallest concatenation, then smallest left half).
pub open spec fn is_winner(
    ws: Seq<Vec<u32>>,
    ss: Seq<Vec<usize>>,
    min_freq: int,
    l: Seq<u32>,
    r: Seq<u32>,
) -> bool {
    &&& corpus_count(ws, ss, l, r) >= min_freq
    &&& forall|l2: Seq<u32>, r2: Seq<u32>|
        #[trigger] corpus_count(ws, ss, l2, r2) <= corpus_count(ws, ss, l, r)
    &&& forall|l2: Seq<u32>, r2: Seq<u32>|
        #[trigger] corpus_count(ws, ss, l2, r2) == corpus_count(ws, ss, l, r) ==> pair_le(
            l,
            r,
            l2,
            r2,
        )
}

/// The merge-round winner pair; meaningful where one exists.
pub open spec fn winner_of(ws: Seq<Vec<u32>>, ss: Seq<Vec<usize>>, min_freq: int) -> (
    Seq<u32>,
    Seq<u32>,
) {
    choose|p: (Seq<u32>, Seq<u32>)| is_winner(ws, ss, min_freq, p.0, p.1)
}

/// The span partition after committing the winner pair `(l, r)`: a
/// left-to-right scan replaces each adjacent occurrence of exactly that
/// pair by one span, skipping over the span it just formed.
pub open spec fn commit_spans(
    syms: Seq<u32>,
    spans: Seq<usize>,
    pos: int,
    l: Seq<u32>,
    r: Seq<u32>,
) -> Seq<usize>
    decreases spans.len(),
{
    if spans.len() < 2 {
        spans
    } else if syms.subrange(pos, pos + spans[0]) == l && syms.subrange(
        pos + spans[0],
        pos + spans[0] + spans[1],
    ) == r {
        seq![(spans[0] + spans[1]) as usize] + commit_spans(
            syms,
            spans.skip(2),
            pos + spans[0] + spans[1],
            l,
            r,
        )
    } else {
        seq![spans[0]] + commit_spans(syms, spans.skip(1), pos + spans[0], l, r)
    }
}

/// First-occurrence scan of the corpus symbols: the distinct symbols in
/// the order in which the corpus first shows them, starting from word
/// `wi`, position `si`, with the symbols of `acc` already seen.
pub open spec fn seed_scan(ws: Seq<Seq<u32>>, wi: int, si: int, acc: Seq<u32>) -> Seq<u32>
    decreases ws.len() - wi, (if 0 <= wi < ws.len() { ws[wi].len() - si } else { 0 }),
{
    if wi < 0 || si < 0 || wi >= ws.len() {
        acc
    } else if si >= ws[wi].len() {
        seed_scan(ws, wi + 1, 0, acc)
    } else if acc.contains(ws[wi][si]) {
        seed_scan(ws, wi, si + 1, acc)
    } else {
        seed_scan(ws, wi, si + 1, acc.push(ws[wi][si]))
    }
}

/// One length-1 token per symbol, in order.
pub open spec fn singletons(s: Seq<u32>) -> Seq<Seq<u32>> {
    Seq::new(s.len(), |i: int| seq![s[i]])
}

/// Symbol `s` occurs in the corpus strictly before word `wi`, position `si`.
pub open spec fn sym_in_prefix(ws: Seq<Seq<u32>>, wi: int, si: int, s: u32) -> bool {
    exists|i: int, j: int|
        0 <= i < ws.len() && 0 <= j < ws[i].len() && (i < wi || (i == wi && j < si)) && ws[i][j]
            == s
}

impl Vocab {
    /// The token vocabulary as a sequence of symbol sequences.
    pub open spec fn token_views(self) -> Seq<Seq<u32>> {
        self.tokens@.map_values(|t: Vec<u32>| t@)
    }

    /// Well-formedness: spans partition each word exactly, words are
    /// non-empty, tokens are non-empty and unique by value.
    pub open spec fn wf(self) -> bool {
        &&& self.words@.len() == self.spans@.len()
        &&& forall|i: int| 0 <= i < self.words@.len() ==> self.words@[i]@.len() >= 1
        &&& forall|i: int|
            0 <= i < self.words@.len() ==> spans_wf(
                #[trigger] self.spans@[i]@,
                self.words@[i]@.len() as int,
            )
        &&& forall|i: int| 0 <= i < self.tokens@.len() ==> (#[trigger] self.tokens@[i]@).len() >= 1
        &&& self.token_views().no_duplicates()
    }

    /// Create a training session over `words`; empty words are dropped,
    /// every kept word starts segmented into length-1 spans, and the
    /// vocabulary starts empty.
    pub fn new(words: Vec<Vec<u32>>) -> (v: Vocab)
        ensures
            v.wf(),
            v.words@.map_values(|w: Vec<u32>| w@) == words@.map_values(|w: Vec<u32>| w@).filter(
                |w: Seq<u32>| w.len() >= 1,
            ),
            v.tokens@.len() == 0,
            forall|i: int|
                0 <= i < v.words@.len() ==> #[trigger] v.spans@[i]@ =~= Seq::new(
                    v.words@[i]@.len(),
                    |j: int| 1usize,
                ),
    {
        let mut kept: Vec<Vec<u32>> = Vec::new();
        let mut spans: Vec<Vec<usize>> = Vec::new();
        let mut i: usize = 0;
        proof {
            assert(words@.take(0).map_values(|w: Vec<u32>| w@) =~= Seq::<Seq<u32>>::empty());
            assert(Seq::<Seq<u32>>::empty().filter(|w: Seq<u32>| w.len() >= 1) =~= Seq::<
                Seq<u32>,
            >::empty());
            assert(kept@.map_values(|w: Vec<u32>| w@) =~= Seq::<Seq<u32>>::empty());
        }
        while i < words.len()
            invariant
                i <= words@.len(),
                kept@.len() == spans@.len(),
                forall|k: int| 0 <= k < kept@.len() ==> (#[trigger] kept@[k]@).len() >= 1,
                forall|k: int|
                    0 <= k < kept@.len() ==> #[trigger] spans@[k]@ =~= Seq::new(
                        kept@[k]@.len(),
                        |j: int| 1usize,
                    ),
                forall|k: int|
                    0 <= k < kept@.len() ==> spans_wf(#[trigger] spans@[k]@, kept@[k]@.len() as int),
                kept@.map_values(|w: Vec<u32>| w@) == words@.take(i as int).map_values(
                    |w: Vec<u32>| w@,
                ).filter(|w: Seq<u32>| w.len() >= 1),
            decreases words@.len() - i,
        {
            let ghost prev = words@.take(i as int).map_values(|w: Vec<u32>| w@);
            let ghost pushed = prev.push(words@[i as int]@);
            proof {
                assert(words@.take(i + 1).map_values(|w: Vec<u32>| w@) =~= pushed);
                assert(pushed.drop_last() =~= prev);
                assert(pushed.last() == words@[i as int]@);
                let pred = |w: Seq<u32>| w.len() >= 1;
                prev.lemma_filter_push(words@[i as int]@, pred);
            }
            let w = &words[i];
            if w.len() > 0 {
                let mut ones: Vec<usize> = Vec::new();
                let mut j: usize = 0;
                while j < w.len()
                    invariant
                        j <= w@.len(),
                        ones@ =~= Seq::new(j as nat, |k: int| 1usize),
                    decreases w@.len() - j,
                {
                    ones.push(1);
                    proof {
                        assert(ones@ =~= Seq::new((j + 1) as nat, |k: int| 1usize));
                    }
                    j = j + 1;
                }
                proof {
                    lemma_sum_of_ones(ones@);
                }
                let wc = copy_range(w, 0, w.len());
                proof {
                    assert(wc@ =~= w@);
                }
                kept.push(wc);
                spans.push(ones);
                proof {
                    assert(kept@.map_values(|w: Vec<u32>| w@) =~= prev.filter(
                        |w: Seq<u32>| w.len() >= 1,
                    ).push(words@[i as int]@));
                }
            }
            i = i + 1;
        }
        proof {
            assert(words@.take(words@.len() as int) =~= words@);
        }
        let v = Vocab { words: kept, spans, tokens: Vec::new() };
        proof {
            assert(v.token_views() =~= Seq::<Seq<u32>>::empty());
        }
        v
    }

    /// First merge round: admit every distinct symbol of the corpus as a
    /// length-1 token, in order of first occurrence.
    fn seed(&mut self)
        requires
            old(self).wf(),
            old(self).tokens@.len() == 0,
        ensures
            final(self).wf(),
            final(self).words@ == old(self).words@,
            final(self).spans@ == old(self).spans@,
            final(self).token_views() == singletons(
                seed_scan(word_views(old(self).words@), 0, 0, Seq::empty()),
            ),
            forall|s: u32|
                sym_occurs(old(self).words@, s) <==> final(self).token_views().contains(seq![s]),
            distinct_syms(old(self).words@).finite(),
            final(self).tokens@.len() == distinct_syms(old(self).words@).len(),
    {
        let ghost ws = word_views(self.words@);
        let mut seen: Vec<u32> = Vec::new();
        let mut wi: usize = 0;
        let mut si: usize = 0;
        while wi < self.words.len()
            invariant
                *self == *old(self),
                ws == word_views(self.words@),
                wi <= self.words@.len(),
                wi < self.words@.len() ==> si <= self.words@[wi as int]@.len(),
                wi == self.words@.len() ==> si == 0,
                seen@.no_duplicates(),
                forall|s: u32| seen@.contains(s) <==> sym_in_prefix(ws, wi as int, si as int, s),
                seed_scan(ws, 0, 0, Seq::empty()) == seed_scan(ws, wi as int, si as int, seen@),
            decreases
                    self.words@.len() - wi,
                    (if wi < self.words@.len() {
                        self.words@[wi as int]@.len() - si
                    } else {
                        0int
                    }),
        {
            let ghost old_seen = seen@;
            if si < self.words[wi].len() {
                let s = self.words[wi][si];
                if !contains_sym(&seen, s) {
                    seen.push(s);
                    proof {
                        assert(seen@ == old_seen.push(s));
                        assert forall|x: u32|
                            seen@.contains(x) <==> old_seen.contains(x) || x == s by {
                            if old_seen.contains(x) {
                                let i = old_seen.index_of(x);
                                assert(seen@[i] == x);
                            }
                            if x == s {
                                assert(seen@[old_seen.len() as int] == x);
                            }
                            if seen@.contains(x) {
                                let i = choose|i: int| 0 <= i < seen@.len() && seen@[i] == x;
                                if i < old_seen.len() {
                                    assert(old_seen[i] == x);
                                }
                            }
                        }
                    }
                }
                proof {
                    assert(forall|x: u32|
                        seen@.contains(x) <==> old_seen.contains(x) || x == s);
                    assert forall|x: u32|
                        seen@.contains(x) <==> sym_in_prefix(ws, wi as int, si + 1, x) by {
                        if seen@.contains(x) {
                            if old_seen.contains(x) {
                                assert(sym_in_prefix(ws, wi as int, si as int, x));
                                let (i, j): (int, int) = choose|i: int, j: int|
                                    0 <= i < ws.len() && 0 <= j < ws[i].len() && (i < wi || (i
                                        == wi && j < si)) && ws[i][j] == x;
                                assert(0 <= i < ws.len() && 0 <= j < ws[i].len() && (i < wi || (i
                                    == wi && j < si + 1)) && ws[i][j] == x);
                            } else {
                                assert(ws[wi as int][si as int] == x);
                                assert(0 <= wi < ws.len() && 0 <= si < ws[wi as int].len() && (
                                wi < wi || (wi == wi && si < si + 1)) && ws[wi as int][si as int]
                                    == x);
                            }
                        }
                        if sym_in_prefix(ws, wi as int, si + 1, x) {
                            let (i, j): (int, int) = choose|i: int, j: int|
                                0 <= i < ws.len() && 0 <= j < ws[i].len() && (i < wi || (i == wi
                                    && j < si + 1)) && ws[i][j] == x;
                            if i < wi || (i == wi && j < si) {
                                assert(sym_in_prefix(ws, wi as int, si as int, x));
                                assert(old_seen.contains(x));
                                assert(seen@.contains(x));
                            } else {
                                assert(i == wi && j == si);
                                assert(x == s);
                                assert(seen@.contains(x));
                            }
                        }
                    }
                }
                si = si + 1;
            } else {
                proof {
                    assert forall|x: u32|
                        sym_in_prefix(ws, wi as int, si as int, x) <==> sym_in_prefix(
                            ws,
                            wi + 1,
                            0,
                            x,
                        ) by {
                        if sym_in_prefix(ws, wi + 1, 0, x) {
                            let (i, j): (int, int) = choose|i: int, j: int|
                                0 <= i < ws.len() && 0 <= j < ws[i].len() && (i < wi + 1 || (i
                                    == wi + 1 && j < 0)) && ws[i][j] == x;
                            assert(i < wi || (i == wi && j < si));
                        }
                    }
                }
                wi = wi + 1;
                si = 0;
            }
        }
        proof {
            assert(seed_scan(ws, wi as int, si as int, seen@) == seen@);
            assert forall|s: u32| seen@.contains(s) <==> sym_occurs(self.words@, s) by {
                if sym_occurs(self.words@, s) {
                    let (i, j): (int, int) = choose|i: int, j: int|
                        0 <= i < self.words@.len() && 0 <= j < self.words@[i]@.len()
                            && self.words@[i]@[j] == s;
                    assert(ws[i][j] == s);
                    assert(sym_in_prefix(ws, wi as int, 0, s));
                }
                if seen@.contains(s) {
                    let (i, j): (int, int) = choose|i: int, j: int|
                        0 <= i < ws.len() && 0 <= j < ws[i].len() && (i < wi || (i == wi && j < 0))
                            && ws[i][j] == s;
                    assert(self.words@[i]@[j] == s);
                }
            }
        }
        let mut toks: Vec<Vec<u32>> = Vec::new();
        let mut k: usize = 0;
        while k < seen.len()
            invariant
                k <= seen@.len(),
                toks@.len() == k,
                forall|i: int| 0 <= i < k ==> #[trigger] toks@[i]@ == seq![seen@[i]],
            decreases seen@.len() - k,
        {
            let s = seen[k];
            let t: Vec<u32> = vec![s];
            proof {
                assert(t@ =~= seq![seen@[k as int]]);
            }
            toks.push(t);
            k = k + 1;
        }
        self.tokens = toks;
        proof {
            let scanned = seen@;
            assert(self.token_views() =~= singletons(scanned));
            assert forall|s: u32|
                sym_occurs(self.words@, s) <==> self.token_views().contains(seq![s]) by {
                if scanned.contains(s) {
                    let i = scanned.index_of(s);
                    assert(self.token_views()[i] == seq![s]);
                }
                if self.token_views().contains(seq![s]) {
                    let i = choose|i: int|
                        0 <= i < self.token_views().len() && self.token_views()[i] == seq![s];
                    assert(seq![scanned[i]] == seq![s]);
                    assert(scanned[i] == seq![s][0]);
                    assert(scanned.contains(scanned[i]));
                }
            }
            assert(self.token_views().no_duplicates()) by {
                assert forall|i: int, j: int|
                    0 <= i < j < self.token_views().len() implies self.token_views()[i]
                    != self.token_views()[j] by {
                    assert(self.token_views()[i] == seq![scanned[i]]);
                    assert(self.token_views()[j] == seq![scanned[j]]);
                    assert(scanned[i] != scanned[j]);
                    assert(seq![scanned[i]][0] == scanned[i]);
                }
            }
            assert(scanned.to_set() =~= distinct_syms(old(self).words@)) by {
                assert forall|s: u32| scanned.to_set().contains(s) <==> sym_occurs(
                    old(self).words@,
                    s,
                ) by {
                    if scanned.to_set().contains(s) {
                        assert(scanned.contains(s));
                    }
                    if sym_occurs(old(self).words@, s) {
                        assert(scanned.contains(s));
                        assert(scanned.to_set().contains(s));
                    }
                }
            }
            scanned.unique_seq_to_set();
        }
    }

    /// Scan the whole corpus and aggregate, per ordered pair of adjacent
    /// span contents, how often it occurs; pairs in order of first
    /// encounter.
    fn collect_counts(&self) -> (res: (Vec<Vec<u32>>, Vec<Vec<u32>>, Vec<usize>))
        requires
            self.wf(),
            total_syms(self.words@) <= usize::MAX,
        ensures
            res.0@.len() == res.2@.len(),
            res.1@.len() == res.2@.len(),
            forall|e: int|
                0 <= e < res.0@.len() ==> (#[trigger] res.0@[e]@).len() >= 1 && res.1@[e]@.len()
                    >= 1,
            forall|e1: int, e2: int|
                0 <= e1 < e2 < res.0@.len() ==> !(res.0@[e1]@ == res.0@[e2]@ && res.1@[e1]@
                    == res.1@[e2]@),
            forall|e: int|
                0 <= e < res.0@.len() ==> res.2@[e] as nat == corpus_count(
                    self.words@,
                    self.spans@,
                    #[trigger] res.0@[e]@,
                    res.1@[e]@,
                ),
            forall|l: Seq<u32>, r: Seq<u32>|
                #[trigger] corpus_count(self.words@, self.spans@, l, r) > 0 ==> exists|e: int|
                    0 <= e < res.0@.len() && res.0@[e]@ == l && res.1@[e]@ == r,
    {
        let ghost ws = self.words@;
        let ghost ss = self.spans@;
        let mut toks_l: Vec<Vec<u32>> = Vec::new();
        let mut toks_r: Vec<Vec<u32>> = Vec::new();
        let mut cnts: Vec<usize> = Vec::new();
        let mut wi: usize = 0;
        while wi < self.words.len()
            invariant
                self.wf(),
                total_syms(self.words@) <= usize::MAX,
                ws == self.words@,
                ss == self.spans@,
                wi <= ws.len(),
                toks_l@.len() == cnts@.len(),
                toks_r@.len() == cnts@.len(),
                forall|e: int|
                    0 <= e < toks_l@.len() ==> (#[trigger] toks_l@[e]@).len() >= 1
                        && toks_r@[e]@.len() >= 1,
                forall|e1: int, e2: int|
                    0 <= e1 < e2 < toks_l@.len() ==> !(toks_l@[e1]@ == toks_l@[e2]@ && toks_r@[e1]@
                        == toks_r@[e2]@),
                forall|e: int|
                    0 <= e < toks_l@.len() ==> cnts@[e] as nat == corpus_count(
                        ws.take(wi as int),
                        ss.take(wi as int),
                        #[trigger] toks_l@[e]@,
                        toks_r@[e]@,
                    ),
                forall|l: Seq<u32>, r: Seq<u32>|
                    #[trigger] corpus_count(ws.take(wi as int), ss.take(wi as int), l, r) > 0
                        ==> exists|e: int|
                        0 <= e < toks_l@.len() && toks_l@[e]@ == l && toks_r@[e]@ == r,
            decreases ws.len() - wi,
        {
            let sy = &self.words[wi];
            let sp = &self.spans[wi];
            let n = sy.len();
            let wlen = sp.len();
            let mut k: usize = 0;
            let mut pos: usize = 0;
            proof {
                assert(spans_wf(ss[wi as int]@, ws[wi as int]@.len() as int));
                assert(sp@.take(0) =~= Seq::<usize>::empty());
                assert forall|l: Seq<u32>, r: Seq<u32>|
                    #[trigger] partial_count(ws, ss, wi as int, 1, l, r) == corpus_count(
                        ws.take(wi as int),
                        ss.take(wi as int),
                        l,
                        r,
                    ) by {
                    assert(sp@.take(1).len() == 1);
                    assert(word_pair_count(ws[wi as int]@, ss[wi as int]@.take(1), l, r) == 0);
                }
            }
            while k + 1 < wlen
                invariant
                    self.wf(),
                    total_syms(self.words@) <= usize::MAX,
                    ws == self.words@,
                    ss == self.spans@,
                    wi < ws.len(),
                    sy == &self.words[wi as int],
                    sp == &self.spans[wi as int],
                    n == sy@.len(),
                    wlen == sp@.len(),
                    k < sp@.len(),
                    pos == sum_seq(sp@.take(k as int)),
                    toks_l@.len() == cnts@.len(),
                    toks_r@.len() == cnts@.len(),
                    forall|e: int|
                        0 <= e < toks_l@.len() ==> (#[trigger] toks_l@[e]@).len() >= 1
                            && toks_r@[e]@.len() >= 1,
                    forall|e1: int, e2: int|
                        0 <= e1 < e2 < toks_l@.len() ==> !(toks_l@[e1]@ == toks_l@[e2]@
                            && toks_r@[e1]@ == toks_r@[e2]@),
                    forall|e: int|
                        0 <= e < toks_l@.len() ==> cnts@[e] as nat == partial_count(
                            ws,
                            ss,
                            wi as int,
                            k + 1,
                            #[trigger] toks_l@[e]@,
                            toks_r@[e]@,
                        ),
                    forall|l: Seq<u32>, r: Seq<u32>|
                        #[trigger] partial_count(ws, ss, wi as int, k + 1, l, r) > 0 ==> exists|
                            e: int,
                        | 0 <= e < toks_l@.len() && toks_l@[e]@ == l && toks_r@[e]@ == r,
                decreases sp@.len() - k,
            {
                proof {
                    lemma_sum_take_succ(sp@, k as int);
                    lemma_sum_take_succ(sp@, k + 1);
                    lemma_sum_take_le(sp@, k + 2);
                    assert(pos + sp@[k as int] + sp@[k + 1] == sum_seq(sp@.take(k + 2)));
                    assert(pos + sp@[k as int] + sp@[k + 1] <= n);
                }
                let a = sp[k];
                let b = sp[k + 1];
                let pl = copy_range(sy, pos, pos + a);
                let pr = copy_range(sy, pos + a, pos + a + b);
                let ghost tl = left_at(ws[wi as int]@, ss[wi as int]@, k as int);
                let ghost tr = right_at(ws[wi as int]@, ss[wi as int]@, k as int);
                proof {
                    assert(pl@ == tl);
                    assert(pr@ == tr);
                    assert forall|l: Seq<u32>, r: Seq<u32>|
                        #[trigger] partial_count(ws, ss, wi as int, k + 2, l, r) == partial_count(
                            ws,
                            ss,
                            wi as int,
                            k + 1,
                            l,
                            r,
                        ) + if l == tl && r == tr {
                            1nat
                        } else {
                            0nat
                        } by {
                        lemma_wpc_take_succ(ws[wi as int]@, ss[wi as int]@, k + 1, l, r);
                    }
                }
                let ghost old_len = toks_l@.len();
                let ghost old_toks_l = toks_l@;
                let ghost old_toks_r = toks_r@;
                match find_pair(&toks_l, &toks_r, &pl, &pr) {
                    Some(e) => {
                        proof {
                            lemma_partial_le_total(ws, ss, wi as int, k + 2, pl@, pr@);
                        }
                        let c = cnts[e];
                        cnts.set(e, c + 1);
                        proof {
                            assert forall|l: Seq<u32>, r: Seq<u32>|
                                #[trigger] partial_count(ws, ss, wi as int, k + 2, l, r) > 0
                                    implies exists|e2: int|
                                    0 <= e2 < toks_l@.len() && toks_l@[e2]@ == l && toks_r@[e2]@
                                    == r by {
                                if l == tl && r == tr {
                                    assert(toks_l@[e as int]@ == l && toks_r@[e as int]@ == r);
                                } else {
                                    assert(partial_count(ws, ss, wi as int, k + 1, l, r) > 0);
                                }
                            }
                        }
                    },
                    None => {
                        proof {
                            if partial_count(ws, ss, wi as int, k + 1, pl@, pr@) > 0 {
                                let e = choose|e: int|
                                    0 <= e < toks_l@.len() && toks_l@[e]@ == pl@ && toks_r@[e]@
                                        == pr@;
                                assert(false);
                            }
                        }
                        toks_l.push(pl);
                        toks_r.push(pr);
                        cnts.push(1);
                        proof {
                            assert(toks_l@[old_len as int]@ == tl);
                            assert(toks_r@[old_len as int]@ == tr);
                            assert forall|l: Seq<u32>, r: Seq<u32>|
                                #[trigger] partial_count(ws, ss, wi as int, k + 2, l, r) > 0
                                    implies exists|e2: int|
                                    0 <= e2 < toks_l@.len() && toks_l@[e2]@ == l && toks_r@[e2]@
                                    == r by {
                                if l == tl && r == tr {
                                    assert(toks_l@[old_len as int]@ == l);
                                } else {
                                    assert(partial_count(ws, ss, wi as int, k + 1, l, r) > 0);
                                    let e0 = choose|e0: int|
                                        0 <= e0 < old_len && old_toks_l[e0]@ == l
                                            && old_toks_r[e0]@ == r;
                                    assert(toks_l@[e0]@ == l && toks_r@[e0]@ == r);
                                }
                            }
                        }
                    },
                }
                pos = pos + a;
                k = k + 1;
            }
            proof {
                assert(k + 1 == sp@.len());
                assert(sp@.take(k + 1) =~= sp@);
                assert forall|l: Seq<u32>, r: Seq<u32>|
                    #[trigger] corpus_count(ws.take(wi + 1), ss.take(wi + 1), l, r)
                        == partial_count(ws, ss, wi as int, k + 1, l, r) by {
                    lemma_corpus_take_succ(ws, ss, wi as int, l, r);
                }
            }
            wi = wi + 1;
        }
        proof {
            assert(ws.take(wi as int) =~= ws);
            assert(ss.take(wi as int) =~= ss);
        }
        (toks_l, toks_r, cnts)
    }

    /// One merge round. On the first call (empty vocabulary) it admits
    /// every distinct corpus symbol as a length-1 token and fails only on
    /// an empty corpus. Later calls aggregate the frequency of every
    /// ordered pair of adjacent span contents, pick the most frequent
    /// pair — ties broken towards the lexicographically smallest
    /// concatenation, then the smallest left half — commit exactly that
    /// pair's occurrences in every word, and admit its concatenation as a
    /// token. `Err` reports that no pair reaches `min_freq`: the normal
    /// stopping condition.
    pub fn merge(&mut self, min_freq: usize) -> (r: Result<(), ()>)
        requires
            old(self).wf(),
            min_freq >= 1,
            total_syms(old(self).words@) <= usize::MAX,
        ensures
            final(self).wf(),
            final(self).words@ == old(self).words@,
            old(self).token_views().is_prefix_of(final(self).token_views()),
            (old(self).tokens@.len() == 0 && old(self).words@.len() == 0) ==> ((r is Err)
                && final(self).tokens@ == old(self).tokens@ && final(self).spans@ == old(self).spans@),
            (old(self).tokens@.len() == 0 && old(self).words@.len() > 0) ==> ((r is Ok) && final(self).spans@ == old(self).spans@ && final(self).token_views() == singletons(
                seed_scan(word_views(old(self).words@), 0, 0, Seq::empty()),
            ) && (forall|s: u32|
                sym_occurs(old(self).words@, s) <==> final(self).token_views().contains(seq![s]))
                && distinct_syms(old(self).words@).finite() && final(self).tokens@.len()
                == distinct_syms(old(self).words@).len()),
            old(self).tokens@.len() > 0 ==> {
                &&& ((r is Err) <==> (forall|l: Seq<u32>, t: Seq<u32>|
                    #[trigger] corpus_count(old(self).words@, old(self).spans@, l, t) < min_freq))
                &&& ((r is Err) ==> final(self).tokens@ == old(self).tokens@ && final(self).spans@
                    == old(self).spans@)
                &&& ((r is Ok) ==> is_winner(
                    old(self).words@,
                    old(self).spans@,
                    min_freq as int,
                    winner_of(old(self).words@, old(self).spans@, min_freq as int).0,
                    winner_of(old(self).words@, old(self).spans@, min_freq as int).1,
                ))
                &&& ((r is Ok) ==> final(self).token_views() == {
                    let p = winner_of(old(self).words@, old(self).spans@, min_freq as int);
                    if old(self).token_views().contains(p.0 + p.1) {
                        old(self).token_views()
                    } else {
                        old(self).token_views().push(p.0 + p.1)
                    }
                })
                &&& ((r is Ok) ==> final(self).spans@.len() == old(self).spans@.len() && (forall|
                    i: int,
                |
                    0 <= i < old(self).spans@.len() ==> #[trigger] final(self).spans@[i]@
                        == commit_spans(
                        old(self).words@[i]@,
                        old(self).spans@[i]@,
                        0,
                        winner_of(old(self).words@, old(self).spans@, min_freq as int).0,
                        winner_of(old(self).words@, old(self).spans@, min_freq as int).1,
                    )))
            },
    {
        if self.tokens.len() == 0 {
            if self.words.len() == 0 {
                proof {
                    lemma_prefix_refl(self.token_views());
                }
                return Err(());
            }
            proof {
                assert(old(self).token_views() =~= Seq::<Seq<u32>>::empty());
            }
            self.seed();
            proof {
                lemma_empty_prefix(self.token_views());
            }
            return Ok(());
        }
        let ghost ws = self.words@;
        let ghost ss = self.spans@;
        let ghost mf = min_freq as int;
        let counts = self.collect_counts();
        let toks_l = counts.0;
        let toks_r = counts.1;
        let cnts = counts.2;
        match select_best(&toks_l, &toks_r, &cnts, min_freq) {
            None => {
                proof {
                    assert forall|l: Seq<u32>, t: Seq<u32>|
                        #[trigger] corpus_count(ws, ss, l, t) < min_freq by {
                        if corpus_count(ws, ss, l, t) > 0 {
                            let e = choose|e: int|
                                0 <= e < toks_l@.len() && toks_l@[e]@ == l && toks_r@[e]@ == t;
                            assert(cnts@[e] as nat == corpus_count(ws, ss, l, t));
                        }
                    }
                    lemma_prefix_refl(self.token_views());
                }
                Err(())
            },
            Some(b) => {
                let ghost wl = toks_l@[b as int]@;
                let ghost wr = toks_r@[b as int]@;
                proof {
                    assert(cnts@[b as int] as nat == corpus_count(ws, ss, wl, wr));
                    assert forall|l2: Seq<u32>, r2: Seq<u32>|
                        #[trigger] corpus_count(ws, ss, l2, r2) <= corpus_count(ws, ss, wl, wr) by {
                        if corpus_count(ws, ss, l2, r2) > 0 {
                            let e = choose|e: int|
                                0 <= e < toks_l@.len() && toks_l@[e]@ == l2 && toks_r@[e]@ == r2;
                            assert(cnts@[e] as nat == corpus_count(ws, ss, l2, r2));
                        }
                    }
                    assert forall|l2: Seq<u32>, r2: Seq<u32>|
                        #[trigger] corpus_count(ws, ss, l2, r2) == corpus_count(ws, ss, wl, wr)
                            implies pair_le(wl, wr, l2, r2) by {
                        assert(corpus_count(ws, ss, l2, r2) >= min_freq);
                        let e = choose|e: int|
                            0 <= e < toks_l@.len() && toks_l@[e]@ == l2 && toks_r@[e]@ == r2;
                        assert(cnts@[e] as nat == corpus_count(ws, ss, l2, r2));
                        assert(pair_le(
                            toks_l@[b as int]@,
                            toks_r@[b as int]@,
                            toks_l@[e]@,
                            toks_r@[e]@,
                        ));
                    }
                    assert(is_winner(ws, ss, mf, wl, wr));
                    let ghost wpair = (wl, wr);
                    assert(is_winner(ws, ss, mf, wpair.0, wpair.1));
                    assert(is_winner(ws, ss, mf, winner_of(ws, ss, mf).0, winner_of(ws, ss, mf).1));
                    lemma_winner_unique(
                        ws,
                        ss,
                        mf,
                        winner_of(ws, ss, mf).0,
                        winner_of(ws, ss, mf).1,
                        wl,
                        wr,
                    );
                    assert(!(forall|l2: Seq<u32>, r2: Seq<u32>|
                        #[trigger] corpus_count(ws, ss, l2, r2) < min_freq)) by {
                        assert(corpus_count(ws, ss, wl, wr) >= min_freq);
                    }
                }
                let w_left = &toks_l[b];
                let w_right = &toks_r[b];
                let mut wi: usize = 0;
                while wi < self.words.len()
                    invariant
                        self.words@ == ws,
                        self.tokens@ == old(self).tokens@,
                        self.spans@.len() == ss.len(),
                        ws.len() == ss.len(),
                        wi <= ws.len(),
                        w_left@ == wl,
                        w_right@ == wr,
                        forall|i: int| 0 <= i < ws.len() ==> (#[trigger] ws[i]@).len() >= 1,
                        forall|i: int|
                            wi <= i < ws.len() ==> #[trigger] self.spans@[i] == ss[i],
                        forall|i: int|
                            0 <= i < wi ==> #[trigger] self.spans@[i]@ == commit_spans(
                                ws[i]@,
                                ss[i]@,
                                0,
                                wl,
                                wr,
                            ),
                        forall|i: int|
                            0 <= i < ws.len() ==> spans_wf(
                                #[trigger] self.spans@[i]@,
                                ws[i]@.len() as int,
                            ),
                    decreases ws.len() - wi,
                {
                    let new_spans = commit_word(&self.words[wi], &self.spans[wi], w_left, w_right);
                    self.spans.set(wi, new_spans);
                    wi = wi + 1;
                }
                let wtok = concat_syms(w_left, w_right);
                let ghost wv = wl + wr;
                let ghost old_tv = self.token_views();
                match find_entry(&self.tokens, &wtok) {
                    Some(e) => {
                        proof {
                            assert(old_tv[e as int] == wv);
                            assert(old_tv.contains(wv));
                            lemma_prefix_refl(self.token_views());
                        }
                    },
                    None => {
                        proof {
                            assert(!old_tv.contains(wv)) by {
                                if old_tv.contains(wv) {
                                    let e = choose|e: int|
                                        0 <= e < old_tv.len() && old_tv[e] == wv;
                                    assert(self.tokens@[e]@ == wv);
                                }
                            }
                        }
                        self.tokens.push(wtok);
                        proof {
                            assert(self.token_views() =~= old_tv.push(wv));
                            assert(self.token_views().no_duplicates()) by {
                                assert forall|i: int, j: int|
                                    0 <= i < j < old_tv.push(wv).len() implies old_tv.push(wv)[i]
                                    != old_tv.push(wv)[j] by {
                                    if j == old_tv.len() {
                                        assert(old_tv.push(wv)[i] == old_tv[i]);
                                        if old_tv[i] == wv {
                                            assert(old_tv.contains(wv));
                                        }
                                    }
                                }
                            }
                            assert(old_tv.is_prefix_of(old_tv.push(wv))) by {
                                assert(old_tv.push(wv).subrange(0, old_tv.len() as int)
                                    =~= old_tv);
                            }
                        }
                    },
                }
                Ok(())
            },
        }
    }

    /// The number of symbols in the whole corpus, or `None` where it does
    /// not fit in `usize`; lets a caller establish the size bound that
    /// `merge` asks for.
    pub fn corpus_size(&self) -> (r: Option<usize>)
        ensures
            match r {
                Some(n) => n as int == total_syms(self.words@),
                None => total_syms(self.words@) > usize::MAX,
            },
    {
        let mut acc: usize = 0;
        let mut i: usize = 0;
        proof {
            assert(self.words@.take(0) =~= Seq::<Vec<u32>>::empty());
        }
        while i < self.words.len()
            invariant
                i <= self.words@.len(),
                acc as int == total_syms(self.words@.take(i as int)),
            decreases self.words@.len() - i,
        {
            let l = self.words[i].len();
            proof {
                lemma_total_take_succ(self.words@, i as int);
            }
            if usize::MAX - acc < l {
                proof {
                    lemma_total_take_le(self.words@, i + 1);
                }
                return None;
            }
            acc = acc + l;
            i = i + 1;
        }
        proof {
            assert(self.words@.take(i as int) =~= self.words@);
        }
        Some(acc)
    }

    /// Read-only view of the tokens admitted so far.
    pub fn tokens(&self) -> (r: &Vec<Vec<u32>>)
        ensures
            r@ == self.tokens@,
    {
        &self.tokens
    }
}

/// Sum of the first `m + 1` spans, step by step.
pub proof fn lemma_sum_take_succ(s: Seq<usize>, m: int)
    requires
        0 <= m < s.len(),
    ensures
        sum_seq(s.take(m + 1)) == sum_seq(s.take(m)) + s[m],
{
    assert(s.take(m + 1).drop_last() =~= s.take(m));
    assert(s.take(m + 1).last() == s[m]);
}

/// A prefix sum never exceeds the whole sum.
pub proof fn lemma_sum_take_le(s: Seq<usize>, m: int)
    requires
        0 <= m <= s.len(),
    ensures
        sum_seq(s.take(m)) <= sum_seq(s),
    decreases s.len() - m,
{
    if m == s.len() {
        assert(s.take(m) =~= s);
    } else {
        lemma_sum_take_succ(s, m);
        lemma_sum_take_le(s, m + 1);
    }
}

/// Sums are non-negative.
pub proof fn lemma_sum_nonneg(s: Seq<usize>)
    ensures
        sum_seq(s) >= 0,
    decreases s.len(),
{
    if s.len() > 0 {
        lemma_sum_nonneg(s.drop_last());
    }
}

/// A sum with the head split off.
pub proof fn lemma_sum_cons(a: usize, rest: Seq<usize>)
    ensures
        sum_seq(seq![a] + rest) == a + sum_seq(rest),
    decreases rest.len(),
{
    if rest.len() == 0 {
        assert(seq![a] + rest =~= seq![a]);
        assert((seq![a]).drop_last() =~= Seq::<usize>::empty());
        assert(sum_seq(Seq::<usize>::empty()) == 0);
        assert((seq![a] + rest).last() == a);
        assert(sum_seq(rest) == 0);
    } else {
        assert((seq![a] + rest).drop_last() =~= seq![a] + rest.drop_last());
        assert((seq![a] + rest).last() == rest.last());
        lemma_sum_cons(a, rest.drop_last());
        assert(sum_seq(rest) == sum_seq(rest.drop_last()) + rest.last());
    }
}

/// With positive spans, there are at most as many spans as symbols.
pub proof fn lemma_len_le_sum(s: Seq<usize>)
    requires
        all_positive(s),
    ensures
        s.len() <= sum_seq(s),
    decreases s.len(),
{
    if s.len() > 0 {
        assert(all_positive(s.drop_last()));
        lemma_len_le_sum(s.drop_last());
    }
}

/// A pair's halves are unchanged by truncating the spans behind it.
pub proof fn lemma_pair_take(syms: Seq<u32>, spans: Seq<usize>, k: int, m: int)
    requires
        0 <= k,
        k + 1 < m <= spans.len(),
    ensures
        left_at(syms, spans.take(m), k) == left_at(syms, spans, k),
        right_at(syms, spans.take(m), k) == right_at(syms, spans, k),
{
    assert(spans.take(m).take(k) =~= spans.take(k));
    assert(spans.take(m)[k] == spans[k]);
    assert(spans.take(m)[k + 1] == spans[k + 1]);
}

/// Counting the pairs among the first `m + 1` spans, step by step.
pub proof fn lemma_wpc_take_succ(syms: Seq<u32>, spans: Seq<usize>, m: int, l: Seq<u32>, r: Seq<u32>)
    requires
        1 <= m,
        m + 1 <= spans.len(),
    ensures
        word_pair_count(syms, spans.take(m + 1), l, r) == word_pair_count(syms, spans.take(m), l, r)
            + if left_at(syms, spans, m - 1) == l && right_at(syms, spans, m - 1) == r {
            1nat
        } else {
            0nat
        },
{
    assert(spans.take(m + 1).drop_last() =~= spans.take(m));
    assert(spans.take(m + 1).len() == m + 1);
    lemma_pair_take(syms, spans, m - 1, m + 1);
}

/// A word's pair count never exceeds its span count.
pub proof fn lemma_wpc_le_len(syms: Seq<u32>, spans: Seq<usize>, l: Seq<u32>, r: Seq<u32>)
    ensures
        word_pair_count(syms, spans, l, r) <= spans.len(),
    decreases spans.len(),
{
    if spans.len() >= 2 {
        lemma_wpc_le_len(syms, spans.drop_last(), l, r);
    }
}

/// A truncated pair count never exceeds the full one.
pub proof fn lemma_wpc_take_le(syms: Seq<u32>, spans: Seq<usize>, m: int, l: Seq<u32>, r: Seq<u32>)
    requires
        0 <= m <= spans.len(),
    ensures
        word_pair_count(syms, spans.take(m), l, r) <= word_pair_count(syms, spans, l, r),
    decreases spans.len() - m,
{
    if m == spans.len() {
        assert(spans.take(m) =~= spans);
    } else {
        if m >= 1 {
            lemma_wpc_take_succ(syms, spans, m, l, r);
        } else {
            assert(word_pair_count(syms, spans.take(0), l, r) == 0);
        }
        lemma_wpc_take_le(syms, spans, m + 1, l, r);
        if m == 0 {
            assert(word_pair_count(syms, spans.take(1), l, r) == 0);
        }
    }
}

/// Corpus pair count over the first `wi + 1` words, step by step.
pub proof fn lemma_corpus_take_succ(
    ws: Seq<Vec<u32>>,
    ss: Seq<Vec<usize>>,
    wi: int,
    l: Seq<u32>,
    r: Seq<u32>,
)
    requires
        ws.len() == ss.len(),
        0 <= wi < ws.len(),
    ensures
        corpus_count(ws.take(wi + 1), ss.take(wi + 1), l, r) == corpus_count(
            ws.take(wi),
            ss.take(wi),
            l,
            r,
        ) + word_pair_count(ws[wi]@, ss[wi]@, l, r),
{
    assert(ws.take(wi + 1).drop_last() =~= ws.take(wi));
    assert(ss.take(wi + 1).drop_last() =~= ss.take(wi));
    assert(ws.take(wi + 1).last() == ws[wi]);
    assert(ss.take(wi + 1).last() == ss[wi]);
}

/// The corpus count of any pair is at most the symbol total.
pub proof fn lemma_corpus_le_total(ws: Seq<Vec<u32>>, ss: Seq<Vec<usize>>, l: Seq<u32>, r: Seq<u32>)
    requires
        ws.len() == ss.len(),
        forall|i: int| 0 <= i < ws.len() ==> spans_wf(#[trigger] ss[i]@, ws[i]@.len() as int),
    ensures
        corpus_count(ws, ss, l, r) <= total_syms(ws),
    decreases ws.len(),
{
    if ws.len() > 0 {
        assert(forall|i: int|
            0 <= i < ws.drop_last().len() ==> spans_wf(
                #[trigger] ss.drop_last()[i]@,
                ws.drop_last()[i]@.len() as int,
            ));
        lemma_corpus_le_total(ws.drop_last(), ss.drop_last(), l, r);
        lemma_wpc_le_len(ws.last()@, ss.last()@, l, r);
        assert(spans_wf(ss[ws.len() - 1]@, ws[ws.len() - 1]@.len() as int));
        lemma_len_le_sum(ss.last()@);
    } else {
    }
}

/// A corpus prefix counts at most as many pairs as the whole corpus.
pub proof fn lemma_corpus_take_le(
    ws: Seq<Vec<u32>>,
    ss: Seq<Vec<usize>>,
    wi: int,
    l: Seq<u32>,
    r: Seq<u32>,
)
    requires
        ws.len() == ss.len(),
        0 <= wi <= ws.len(),
    ensures
        corpus_count(ws.take(wi), ss.take(wi), l, r) <= corpus_count(ws, ss, l, r),
    decreases ws.len() - wi,
{
    if wi == ws.len() {
        assert(ws.take(wi) =~= ws);
        assert(ss.take(wi) =~= ss);
    } else {
        lemma_corpus_take_succ(ws, ss, wi, l, r);
        lemma_corpus_take_le(ws, ss, wi + 1, l, r);
    }
}

/// Committing a winner keeps the partition well-formed and the symbol
/// coverage unchanged.
pub proof fn lemma_commit_wf(syms: Seq<u32>, spans: Seq<usize>, pos: int, l: Seq<u32>, r: Seq<u32>)
    requires
        all_positive(spans),
        sum_seq(spans) <= usize::MAX,
    ensures
        all_positive(commit_spans(syms, spans, pos, l, r)),
        sum_seq(commit_spans(syms, spans, pos, l, r)) == sum_seq(spans),
        spans.len() >= 1 ==> commit_spans(syms, spans, pos, l, r).len() >= 1,
    decreases spans.len(),
{
    if spans.len() < 2 {
    } else if syms.subrange(pos, pos + spans[0]) == l && syms.subrange(
        pos + spans[0],
        pos + spans[0] + spans[1],
    ) == r {
        assert(all_positive(spans.skip(2)));
        lemma_sum_skip_two(spans);
        lemma_sum_nonneg(spans.skip(2));
        assert(spans[0] + spans[1] <= usize::MAX);
        lemma_commit_wf(syms, spans.skip(2), pos + spans[0] + spans[1], l, r);
        let rest = commit_spans(syms, spans.skip(2), pos + spans[0] + spans[1], l, r);
        let merged = (spans[0] + spans[1]) as usize;
        lemma_sum_cons(merged, rest);
        let whole = seq![merged] + rest;
        assert forall|i: int| 0 <= i < whole.len() implies whole[i] >= 1 by {
            if i == 0 {
                assert(whole[0] == merged);
            } else {
                assert(whole[i] == rest[i - 1]);
            }
        }
    } else {
        assert(all_positive(spans.skip(1)));
        lemma_sum_skip_one(spans);
        lemma_sum_nonneg(spans.skip(1));
        lemma_commit_wf(syms, spans.skip(1), pos + spans[0], l, r);
        let rest = commit_spans(syms, spans.skip(1), pos + spans[0], l, r);
        lemma_sum_cons(spans[0], rest);
        let whole = seq![spans[0]] + rest;
        assert forall|i: int| 0 <= i < whole.len() implies whole[i] >= 1 by {
            if i == 0 {
                assert(whole[0] == spans[0]);
            } else {
                assert(whole[i] == rest[i - 1]);
            }
        }
    }
}

/// Splitting one span off the front of a sum.
pub proof fn lemma_sum_skip_one(s: Seq<usize>)
    requires
        s.len() >= 1,
    ensures
        sum_seq(s) == s[0] + sum_seq(s.skip(1)),
{
    assert(s =~= seq![s[0]] + s.skip(1));
    lemma_sum_cons(s[0], s.skip(1));
}

/// Splitting two spans off the front of a sum.
pub proof fn lemma_sum_skip_two(s: Seq<usize>)
    requires
        s.len() >= 2,
    ensures
        sum_seq(s) == s[0] + s[1] + sum_seq(s.skip(2)),
{
    lemma_sum_skip_one(s);
    lemma_sum_skip_one(s.skip(1));
    assert(s.skip(1).skip(1) =~= s.skip(2));
    assert(s.skip(1)[0] == s[1]);
}

/// Pair frequency accumulated while scanning: the words before `wi` in
/// full, plus the pairs among the first `m` spans of word `wi`.
pub open spec fn partial_count(
    ws: Seq<Vec<u32>>,
    ss: Seq<Vec<usize>>,
    wi: int,
    m: int,
    l: Seq<u32>,
    r: Seq<u32>,
) -> nat {
    corpus_count(ws.take(wi), ss.take(wi), l, r) + if 0 <= wi < ws.len() && ss.len() == ws.len() {
        word_pair_count(ws[wi]@, ss[wi]@.take(m), l, r)
    } else {
        0nat
    }
}

/// An accumulated pair frequency never exceeds the symbol total.
pub proof fn lemma_partial_le_total(
    ws: Seq<Vec<u32>>,
    ss: Seq<Vec<usize>>,
    wi: int,
    m: int,
    l: Seq<u32>,
    r: Seq<u32>,
)
    requires
        ws.len() == ss.len(),
        0 <= wi < ws.len(),
        0 <= m <= ss[wi]@.len(),
        forall|i: int| 0 <= i < ws.len() ==> spans_wf(#[trigger] ss[i]@, ws[i]@.len() as int),
    ensures
        partial_count(ws, ss, wi, m, l, r) <= total_syms(ws),
{
    lemma_wpc_take_le(ws[wi]@, ss[wi]@, m, l, r);
    lemma_corpus_take_succ(ws, ss, wi, l, r);
    lemma_corpus_take_le(ws, ss, wi + 1, l, r);
    lemma_corpus_le_total(ws, ss, l, r);
}

// Where a word counts no occurrence of a pair, no scan position holds one.
proof fn lemma_wpc_zero_no_match(
    syms: Seq<u32>,
    spans: Seq<usize>,
    l: Seq<u32>,
    r: Seq<u32>,
    k: int,
)
    requires
        word_pair_count(syms, spans, l, r) == 0,
        0 <= k < spans.len() - 1,
    ensures
        !(left_at(syms, spans, k) == l && right_at(syms, spans, k) == r),
    decreases spans.len(),
{
    if k == spans.len() - 2 {
    } else {
        assert(word_pair_count(syms, spans.drop_last(), l, r) == 0);
        lemma_wpc_zero_no_match(syms, spans.drop_last(), l, r, k);
        assert(spans.drop_last() =~= spans.take(spans.len() - 1));
        lemma_pair_take(syms, spans, k, spans.len() - 1);
    }
}

proof fn lemma_commit_untouched_from(
    syms: Seq<u32>,
    spans: Seq<usize>,
    k: int,
    l: Seq<u32>,
    r: Seq<u32>,
)
    requires
        word_pair_count(syms, spans, l, r) == 0,
        0 <= k <= spans.len(),
    ensures
        commit_spans(syms, spans.skip(k), start_of(spans, k), l, r) == spans.skip(k),
    decreases spans.len() - k,
{
    let tail = spans.skip(k);
    let p = start_of(spans, k);
    if tail.len() >= 2 {
        assert(tail[0] == spans[k]);
        assert(tail[1] == spans[k + 1]);
        lemma_wpc_zero_no_match(syms, spans, l, r, k);
        assert(!(syms.subrange(p, p + tail[0]) == l && syms.subrange(
            p + tail[0],
            p + tail[0] + tail[1],
        ) == r));
        lemma_sum_take_succ(spans, k);
        lemma_commit_untouched_from(syms, spans, k + 1, l, r);
        assert(tail.skip(1) =~= spans.skip(k + 1));
        assert(commit_spans(syms, tail, p, l, r) == seq![tail[0]] + commit_spans(
            syms,
            spans.skip(k + 1),
            start_of(spans, k + 1),
            l,
            r,
        ));
        assert(seq![tail[0]] + spans.skip(k + 1) =~= tail);
    }
}

/// A word that holds no adjacent occurrence of the pair `(l, r)` is left
/// untouched by committing that pair: its span partition is unchanged.
pub proof fn lemma_commit_untouched(syms: Seq<u32>, spans: Seq<usize>, l: Seq<u32>, r: Seq<u32>)
    requires
        word_pair_count(syms, spans, l, r) == 0,
    ensures
        commit_spans(syms, spans, 0, l, r) == spans,
{
    assert(spans.take(0) =~= Seq::<usize>::empty());
    lemma_commit_untouched_from(syms, spans, 0, l, r);
    assert(spans.skip(0) =~= spans);
}

/// One successful merge round after seeding, seen on the vocabulary: the
/// round admitted exactly the one new token `t`.
pub open spec fn grew_by(pre: Vocab, post: Vocab, t: Seq<u32>) -> bool {
    &&& !pre.token_views().contains(t)
    &&& post.token_views() == pre.token_views().push(t)
}

/// Some fresh token was admitted between the two states.
pub open spec fn grew_step(pre: Vocab, post: Vocab) -> bool {
    exists|t: Seq<u32>| grew_by(pre, post, t)
}

/// Monotonic vocabulary growth: from the seeded vocabulary, which holds
/// one token per distinct corpus symbol, a chain of successful merge
/// rounds that each admit a fresh token leaves exactly the distinct
/// symbol count plus the number of rounds. A round whose winner merely
/// reproduces an existing token is a no-op insert and adds nothing.
pub proof fn lemma_vocab_growth(states: Seq<Vocab>, ws: Seq<Vec<u32>>)
    requires
        states.len() >= 1,
        distinct_syms(ws).finite(),
        states[0].token_views().len() == distinct_syms(ws).len(),
        forall|k: int|
            0 <= k < states.len() - 1 ==> grew_step(#[trigger] states[k], states[k + 1]),
    ensures
        states.last().token_views().len() == distinct_syms(ws).len() + states.len() - 1,
    decreases states.len(),
{
    if states.len() > 1 {
        let shorter = states.drop_last();
        assert(forall|k: int|
            0 <= k < shorter.len() - 1 ==> grew_step(#[trigger] shorter[k], shorter[k + 1])) by {
            assert(forall|k: int| 0 <= k < shorter.len() ==> shorter[k] == states[k]);
        }
        lemma_vocab_growth(shorter, ws);
        let n = states.len() - 2;
        let pre = states[n];
        let post = states[n + 1];
        assert(grew_step(pre, post));
        let t = choose|t: Seq<u32>| grew_by(pre, post, t);
        assert(post.token_views().len() == pre.token_views().len() + 1);
        assert(shorter.last() == pre);
        assert(states.last() == post);
    }
}

/// Two distinct winner pairs cannot exist: the tie-break order is total.
pub proof fn lemma_winner_unique(
    ws: Seq<Vec<u32>>,
    ss: Seq<Vec<usize>>,
    min_freq: int,
    l1: Seq<u32>,
    r1: Seq<u32>,
    l2: Seq<u32>,
    r2: Seq<u32>,
)
    requires
        is_winner(ws, ss, min_freq, l1, r1),
        is_winner(ws, ss, min_freq, l2, r2),
    ensures
        l1 == l2,
        r1 == r2,
{
    assert(corpus_count(ws, ss, l1, r1) == corpus_count(ws, ss, l2, r2));
    assert(pair_le(l1, r1, l2, r2));
    assert(pair_le(l2, r2, l1, r1));
    lemma_pair_le_antisymmetric(l1, r1, l2, r2);
}

/// Among the aggregated pair entries, pick the one with the highest count
/// that reaches `min_freq`, breaking ties by the documented pair order.
fn select_best(
    toks_l: &Vec<Vec<u32>>,
    toks_r: &Vec<Vec<u32>>,
    cnts: &Vec<usize>,
    min_freq: usize,
) -> (r: Option<usize>)
    requires
        toks_l@.len() == cnts@.len(),
        toks_r@.len() == cnts@.len(),
    ensures
        match r {
            None => forall|e: int| 0 <= e < cnts@.len() ==> (#[trigger] cnts@[e]) < min_freq,
            Some(b) => {
                &&& 0 <= (b as int) < cnts@.len()
                &&& cnts@[b as int] >= min_freq
                &&& forall|e: int|
                    0 <= e < cnts@.len() ==> (#[trigger] cnts@[e]) <= cnts@[b as int]
                &&& forall|e: int|
                    0 <= e < cnts@.len() && (#[trigger] cnts@[e]) == cnts@[b as int] ==> pair_le(
                        toks_l@[b as int]@,
                        toks_r@[b as int]@,
                        toks_l@[e]@,
                        toks_r@[e]@,
                    )
            },
        },
{
    let mut best: Option<usize> = None;
    let mut i: usize = 0;
    while i < cnts.len()
        invariant
            toks_l@.len() == cnts@.len(),
            toks_r@.len() == cnts@.len(),
            i <= cnts@.len(),
            match best {
                None => forall|e: int| 0 <= e < i ==> (#[trigger] cnts@[e]) < min_freq,
                Some(b) => {
                    &&& 0 <= (b as int) < i as int
                    &&& cnts@[b as int] >= min_freq
                    &&& forall|e: int| 0 <= e < i ==> (#[trigger] cnts@[e]) <= cnts@[b as int]
                    &&& forall|e: int|
                        0 <= e < i && (#[trigger] cnts@[e]) == cnts@[b as int] ==> pair_le(
                            toks_l@[b as int]@,
                            toks_r@[b as int]@,
                            toks_l@[e]@,
                            toks_r@[e]@,
                        )
                },
            },
        decreases cnts@.len() - i,
    {
        let c = cnts[i];
        if c >= min_freq {
            match best {
                None => {
                    proof {
                        lemma_pair_le_refl(toks_l@[i as int]@, toks_r@[i as int]@);
                    }
                    best = Some(i);
                },
                Some(b) => {
                    let cb = cnts[b];
                    if c > cb {
                        proof {
                            lemma_pair_le_refl(toks_l@[i as int]@, toks_r@[i as int]@);
                        }
                        best = Some(i);
                    } else if c == cb && pair_le_exec(
                        &toks_l[i],
                        &toks_r[i],
                        &toks_l[b],
                        &toks_r[b],
                    ) {
                        proof {
                            lemma_pair_le_refl(toks_l@[i as int]@, toks_r@[i as int]@);
                            assert forall|e: int|
                                0 <= e < i + 1 && (#[trigger] cnts@[e]) == cnts@[i as int]
                                    implies pair_le(
                                toks_l@[i as int]@,
                                toks_r@[i as int]@,
                                toks_l@[e]@,
                                toks_r@[e]@,
                            ) by {
                                if e < i && e != b {
                                    lemma_pair_le_trans(
                                        toks_l@[i as int]@,
                                        toks_r@[i as int]@,
                                        toks_l@[b as int]@,
                                        toks_r@[b as int]@,
                                        toks_l@[e]@,
                                        toks_r@[e]@,
                                    );
                                }
                            }
                        }
                        best = Some(i);
                    } else {
                        proof {
                            if c == cb {
                                lemma_pair_le_total(
                                    toks_l@[i as int]@,
                                    toks_r@[i as int]@,
                                    toks_l@[b as int]@,
                                    toks_r@[b as int]@,
                                );
                            }
                        }
                    }
                },
            }
        }
        i = i + 1;
    }
    best
}

/// Position of the entry whose symbols equal `t`, if any.
fn find_entry(toks: &Vec<Vec<u32>>, t: &Vec<u32>) -> (r: Option<usize>)
    ensures
        match r {
            Some(e) => 0 <= e < toks@.len() && toks@[e as int]@ == t@,
            None => forall|e: int| 0 <= e < toks@.len() ==> (#[trigger] toks@[e]@) != t@,
        },
{
    let mut e: usize = 0;
    while e < toks.len()
        invariant
            e <= toks@.len(),
            forall|j: int| 0 <= j < e ==> (#[trigger] toks@[j]@) != t@,
        decreases toks@.len() - e,
    {
        if eq_syms(&toks[e], t) {
            return Some(e);
        }
        e = e + 1;
    }
    None
}

/// Position of the entry holding exactly the pair `(l, r)`, if any.
fn find_pair(
    toks_l: &Vec<Vec<u32>>,
    toks_r: &Vec<Vec<u32>>,
    l: &Vec<u32>,
    r: &Vec<u32>,
) -> (res: Option<usize>)
    requires
        toks_l@.len() == toks_r@.len(),
    ensures
        match res {
            Some(e) => 0 <= e < toks_l@.len() && toks_l@[e as int]@ == l@ && toks_r@[e as int]@
                == r@,
            None => forall|e: int|
                0 <= e < toks_l@.len() ==> !((#[trigger] toks_l@[e]@) == l@ && toks_r@[e]@ == r@),
        },
{
    let mut e: usize = 0;
    while e < toks_l.len()
        invariant
            toks_l@.len() == toks_r@.len(),
            e <= toks_l@.len(),
            forall|j: int|
                0 <= j < e ==> !((#[trigger] toks_l@[j]@) == l@ && toks_r@[j]@ == r@),
        decreases toks_l@.len() - e,
    {
        if eq_syms(&toks_l[e], l) && eq_syms(&toks_r[e], r) {
            return Some(e);
        }
        e = e + 1;
    }
    None
}

/// Commit the winner pair `(wl, wr)` in one word: a left-to-right scan
/// over the spans that replaces each adjacent occurrence of exactly that
/// pair by one span.
fn commit_word(syms: &Vec<u32>, spans: &Vec<usize>, wl: &Vec<u32>, wr: &Vec<u32>) -> (r: Vec<
    usize,
>)
    requires
        spans_wf(spans@, syms@.len() as int),
    ensures
        r@ == commit_spans(syms@, spans@, 0, wl@, wr@),
        spans_wf(r@, syms@.len() as int),
        spans@.len() >= 1 ==> r@.len() >= 1,
{
    let ghost full = commit_spans(syms@, spans@, 0, wl@, wr@);
    let n = syms.len();
    let mut r: Vec<usize> = Vec::new();
    let mut k: usize = 0;
    let mut pos: usize = 0;
    proof {
        assert(spans@.skip(0) =~= spans@);
        assert(spans@.take(0) =~= Seq::<usize>::empty());
        assert(r@ + commit_spans(syms@, spans@.skip(0), 0, wl@, wr@) =~= full);
    }
    while k < spans.len()
        invariant
            spans_wf(spans@, syms@.len() as int),
            n == syms@.len(),
            k <= spans@.len(),
            pos == sum_seq(spans@.take(k as int)),
            full == r@ + commit_spans(syms@, spans@.skip(k as int), pos as int, wl@, wr@),
            full == commit_spans(syms@, spans@, 0, wl@, wr@),
        decreases spans@.len() - k,
    {
        let ghost tail = spans@.skip(k as int);
        proof {
            lemma_sum_take_le(spans@, k as int);
            lemma_sum_take_succ(spans@, k as int);
            lemma_sum_nonneg(spans@.take(k as int));
            assert(tail[0] == spans@[k as int]);
        }
        let a = spans[k];
        if k + 1 < spans.len() {
            proof {
                lemma_sum_take_succ(spans@, k + 1);
                lemma_sum_take_le(spans@, k + 2);
                assert(tail[1] == spans@[k + 1]);
                assert(pos + spans@[k as int] + spans@[k + 1] == sum_seq(spans@.take(k + 2)));
                assert(pos + spans@[k as int] + spans@[k + 1] <= syms@.len());
            }
            let b = spans[k + 1];
            let pl = copy_range(syms, pos, pos + a);
            let pr = copy_range(syms, pos + a, pos + a + b);
            if eq_syms(&pl, wl) && eq_syms(&pr, wr) {
                proof {
                    assert(commit_spans(syms@, tail, pos as int, wl@, wr@) == seq![(tail[0]
                        + tail[1]) as usize] + commit_spans(
                        syms@,
                        tail.skip(2),
                        pos + tail[0] + tail[1],
                        wl@,
                        wr@,
                    ));
                    assert(tail.skip(2) =~= spans@.skip(k + 2));
                    assert((r@.push((a + b) as usize)) + commit_spans(
                        syms@,
                        spans@.skip(k + 2),
                        pos + a + b,
                        wl@,
                        wr@,
                    ) =~= r@ + commit_spans(syms@, tail, pos as int, wl@, wr@));
                }
                r.push(a + b);
                pos = pos + a + b;
                k = k + 2;
            } else {
                proof {
                    assert(commit_spans(syms@, tail, pos as int, wl@, wr@) == seq![tail[0]]
                        + commit_spans(syms@, tail.skip(1), pos + tail[0], wl@, wr@));
                    assert(tail.skip(1) =~= spans@.skip(k + 1));
                    assert((r@.push(a)) + commit_spans(
                        syms@,
                        spans@.skip(k + 1),
                        pos + a,
                        wl@,
                        wr@,
                    ) =~= r@ + commit_spans(syms@, tail, pos as int, wl@, wr@));
                }
                r.push(a);
                pos = pos + a;
                k = k + 1;
            }
        } else {
            proof {
                assert(pos + spans@[k as int] == sum_seq(spans@.take(k + 1)));
                lemma_sum_take_le(spans@, k + 1);
                assert(pos + spans@[k as int] <= syms@.len());
                assert(tail.len() == 1);
                assert(commit_spans(syms@, tail, pos as int, wl@, wr@) == tail);
                assert(tail =~= seq![a]);
                assert(r@.push(a) =~= r@ + tail);
                assert(spans@.skip(k + 1) =~= Seq::<usize>::empty());
                assert(commit_spans(syms@, spans@.skip(k + 1), (pos + a) as int, wl@, wr@)
                    == Seq::<usize>::empty());
                assert(r@.push(a) + Seq::<usize>::empty() =~= r@.push(a));
            }
            r.push(a);
            pos = pos + a;
            k = k + 1;
        }
    }
    proof {
        assert(spans@.skip(k as int) =~= Seq::<usize>::empty());
        assert(commit_spans(syms@, spans@.skip(k as int), pos as int, wl@, wr@)
            == Seq::<usize>::empty());
        assert(r@ + Seq::<usize>::empty() =~= r@);
        lemma_commit_wf(syms@, spans@, 0, wl@, wr@);
    }
    r
}

/// Symbol total over the first `m + 1` words, step by step.
pub proof fn lemma_total_take_succ(ws: Seq<Vec<u32>>, m: int)
    requires
        0 <= m < ws.len(),
    ensures
        total_syms(ws.take(m + 1)) == total_syms(ws.take(m)) + ws[m]@.len(),
{
    assert(ws.take(m + 1).drop_last() =~= ws.take(m));
    assert(ws.take(m + 1).last() == ws[m]);
}

/// A prefix of the corpus holds at most as many symbols as the whole.
pub proof fn lemma_total_take_le(ws: Seq<Vec<u32>>, m: int)
    requires
        0 <= m <= ws.len(),
    ensures
        total_syms(ws.take(m)) <= total_syms(ws),
    decreases ws.len() - m,
{
    if m == ws.len() {
        assert(ws.take(m) =~= ws);
    } else {
        lemma_total_take_succ(ws, m);
        lemma_total_take_le(ws, m + 1);
    }
}

/// Every sequence is a prefix of itself.
pub proof fn lemma_prefix_refl(s: Seq<Seq<u32>>)
    ensures
        s.is_prefix_of(s),
{
    assert(s.subrange(0, s.len() as int) =~= s);
}

/// The empty sequence is a prefix of every sequence.
pub proof fn lemma_empty_prefix(s: Seq<Seq<u32>>)
    ensures
        Seq::<Seq<u32>>::empty().is_prefix_of(s),
{
    assert(s.subrange(0, 0) =~= Seq::<Seq<u32>>::empty());
}

/// A vector of ones sums to its length.
pub proof fn lemma_sum_of_ones(s: Seq<usize>)
    requires
        forall|i: int| 0 <= i < s.len() ==> s[i] == 1usize,
    ensures
        sum_seq(s) == s.len(),
    decreases s.len(),
{
    if s.len() > 0 {
        lemma_sum_of_ones(s.drop_last());
    }
}

} // verus!
