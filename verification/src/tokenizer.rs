//! The inference-time tokenizer: an immutable snapshot of the vocabulary's
//! prefix index, applied by greedy, non-backtracking longest-prefix match.
//! A symbol never seen in training comes out as a length-1 span.

use vstd::prelude::*;
use vstd::slice::slice_subrange;
use crate::trie_store::{trie_entries, builder_entries, builder_new, builder_push, builder_build,
    prefix_entries};
use crate::vocab::Vocab;

verus! {

/// An immutable tokenizer snapshot: it owns its prefix index, so later
/// growth of the vocabulary it came from cannot affect it.
pub struct Tokenizer {
    trie: trie_rs::Trie<u32>,
}

/// The end of one output span is right: either its symbols are an entry
/// and no entry matches a longer prefix there, or no entry matches at all
/// and the span is a single symbol.
#[verifier::opaque]
pub open spec fn step_ok(s: Set<Seq<u32>>, w: Seq<u32>, pos: int, end: int) -> bool {
    &&& 0 <= pos < end <= w.len()
    &&& {
        ||| (s.contains(w.subrange(pos, end)) && (forall|t: Seq<u32>|
            #[trigger] s.contains(t) && t.is_prefix_of(w.skip(pos)) ==> t.len() <= end - pos))
        ||| (end == pos + 1 && (forall|t: Seq<u32>|
            #[trigger] s.contains(t) && t.len() >= 1 ==> !t.is_prefix_of(w.skip(pos))))
    }
}

/// `r` is the greedy longest-prefix segmentation of `w` under the entry
/// set `s`: spans of positions that tile `w` exactly, each span chosen by
/// `step_ok` at its start.
pub open spec fn is_seg(s: Set<Seq<u32>>, w: Seq<u32>, r: Seq<(usize, usize)>) -> bool {
    &&& (r.len() == 0 <==> w.len() == 0)
    &&& (r.len() > 0 ==> (r[0].0 == 0 && r[r.len() - 1].1 == w.len()))
    &&& (forall|k: int| 0 <= k < r.len() - 1 ==> (#[trigger] r[k]).1 == r[k + 1].0)
    &&& (forall|k: int| 0 <= k < r.len() ==> step_ok(s, w, (#[trigger] r[k]).0 as int, r[k].1 as int))
}

impl Tokenizer {
    /// The entry set of the snapshot's prefix index.
    pub closed spec fn entries(self) -> Set<Seq<u32>> {
        trie_entries(self.trie)
    }

    /// Every entry is non-empty, so tokenization always advances.
    pub open spec fn wf(self) -> bool {
        forall|t: Seq<u32>| #[trigger] self.entries().contains(t) ==> t.len() >= 1
    }

    /// Segment `word` by greedy longest-prefix match against the entry
    /// set. Output spans are index ranges into `word`; they tile it
    /// exactly, and a position where no entry matches yields a length-1
    /// span, so no input can fail.
    pub fn tokenize(&self, word: &[u32]) -> (r: Vec<(usize, usize)>)
        requires
            self.wf(),
        ensures
            is_seg(self.entries(), word@, r@),
    {
        let ghost s = self.entries();
        let mut r: Vec<(usize, usize)> = Vec::new();
        let mut pos: usize = 0;
        let len = word.len();
        while pos < len
            invariant
                self.wf(),
                s == self.entries(),
                len == word@.len(),
                pos <= len,
                r@.len() == 0 ==> pos == 0,
                r@.len() > 0 ==> (r@[0].0 == 0 && r@[r@.len() - 1].1 == pos),
                forall|k: int| 0 <= k < r@.len() - 1 ==> (#[trigger] r@[k]).1 == r@[k + 1].0,
                forall|k: int|
                    0 <= k < r@.len() ==> step_ok(s, word@, (#[trigger] r@[k]).0 as int, r@[k].1 as int),
            decreases len - pos,
        {
            let rest = slice_subrange(word, pos, len);
            let cands = prefix_entries(&self.trie, rest);
            let mut best: usize = 0;
            let mut ci: usize = 0;
            while ci < cands.len()
                invariant
                    ci <= cands@.len(),
                    forall|i: int| 0 <= i < ci ==> (#[trigger] cands@[i]@).len() <= best,
                    best > 0 ==> exists|i: int| 0 <= i < ci && (#[trigger] cands@[i]@).len() == best,
                    best > 0 ==> best <= rest@.len(),
                    forall|i: int|
                        0 <= i < cands@.len() ==> trie_entries(self.trie).contains(
                            (#[trigger] cands@[i])@,
                        ) && (cands@[i]@).is_prefix_of(rest@),
                decreases cands@.len() - ci,
            {
                let l = cands[ci].len();
                if l > best {
                    best = l;
                }
                ci = ci + 1;
            }
            let n: usize = if best == 0 {
                1
            } else {
                best
            };
            proof {
                reveal(step_ok);
                assert(word@.skip(pos as int) =~= rest@);
                if best == 0 {
                    assert forall|t: Seq<u32>|
                        #[trigger] s.contains(t) && t.len() >= 1 implies !t.is_prefix_of(
                        word@.skip(pos as int),
                    ) by {
                        if t.is_prefix_of(rest@) {
                            let i = choose|i: int| 0 <= i < cands@.len() && cands@[i]@ == t;
                            assert(cands@[i]@.len() <= 0);
                        }
                    }
                    assert(step_ok(s, word@, pos as int, pos + 1));
                } else {
                    let i = choose|i: int| 0 <= i < cands@.len() && cands@[i]@.len() == best;
                    let tok = cands@[i]@;
                    assert(s.contains(tok));
                    assert(tok.is_prefix_of(rest@));
                    assert(tok =~= word@.subrange(pos as int, pos + best)) by {
                        assert(tok == rest@.subrange(0, best as int));
                        assert(rest@.subrange(0, best as int) =~= word@.subrange(
                            pos as int,
                            pos + best,
                        ));
                    }
                    assert forall|t: Seq<u32>|
                        #[trigger] s.contains(t) && t.is_prefix_of(word@.skip(pos as int))
                            implies t.len() <= best by {
                        let j = choose|j: int| 0 <= j < cands@.len() && cands@[j]@ == t;
                        assert(cands@[j]@.len() <= best);
                    }
                    assert(step_ok(s, word@, pos as int, pos + best));
                }
            }
            let ghost old_r = r@;
            let span = (pos, pos + n);
            r.push(span);
            proof {
                assert(r@ =~= old_r.push(span));
                assert forall|k: int| 0 <= k < r@.len() - 1 implies (#[trigger] r@[k]).1
                    == r@[k + 1].0 by {
                    if k < old_r.len() - 1 {
                        assert(r@[k] == old_r[k]);
                    }
                }
            }
            pos = pos + n;
        }
        proof {
            if r@.len() > 0 && word@.len() == 0 {
                lemma_step_bounds(s, word@, r@[0].0 as int, r@[0].1 as int);
            }
        }
        r
    }
}

/// The symbols of the output spans, concatenated back together.
pub open spec fn spans_concat(w: Seq<u32>, r: Seq<(usize, usize)>) -> Seq<u32> {
    Seq::new(r.len(), |k: int| w.subrange(r[k].0 as int, r[k].1 as int)).flatten()
}

/// A greedy step stays inside the word.
pub proof fn lemma_step_bounds(s: Set<Seq<u32>>, w: Seq<u32>, p: int, e: int)
    requires
        step_ok(s, w, p, e),
    ensures
        0 <= p < e <= w.len(),
{
    reveal(step_ok);
}

/// At one position, the greedy step has exactly one right end.
pub proof fn lemma_step_unique(s: Set<Seq<u32>>, w: Seq<u32>, p: int, e1: int, e2: int)
    requires
        step_ok(s, w, p, e1),
        step_ok(s, w, p, e2),
    ensures
        e1 == e2,
{
    reveal(step_ok);
    assert(w.subrange(p, e1) =~= w.skip(p).subrange(0, e1 - p));
    assert(w.subrange(p, e2) =~= w.skip(p).subrange(0, e2 - p));
    assert(w.subrange(p, e1).is_prefix_of(w.skip(p)));
    assert(w.subrange(p, e2).is_prefix_of(w.skip(p)));
    assert(w.subrange(p, e1).len() == e1 - p);
    assert(w.subrange(p, e2).len() == e2 - p);
}

#[verifier::rlimit(100)]
proof fn lemma_seg_unique_from(
    s: Set<Seq<u32>>,
    w: Seq<u32>,
    r1: Seq<(usize, usize)>,
    r2: Seq<(usize, usize)>,
    k: int,
)
    requires
        is_seg(s, w, r1),
        is_seg(s, w, r2),
        0 <= k <= r1.len(),
        k <= r2.len(),
        (k == r1.len() && k == r2.len()) || (k < r1.len() && k < r2.len() && r1[k].0 == r2[k].0),
    ensures
        r1.len() == r2.len(),
        forall|j: int| k <= j < r1.len() ==> r1[j] == r2[j],
    decreases r1.len() - k,
{
    if k < r1.len() {
        let p = r1[k].0 as int;
        lemma_step_unique(s, w, p, r1[k].1 as int, r2[k].1 as int);
        assert(r1[k] == r2[k]);
        if k + 1 < r1.len() && k + 1 == r2.len() {
            assert(r2[k].1 == w.len());
            assert(r1[k + 1].0 == r1[k].1);
            lemma_step_bounds(s, w, r1[k + 1].0 as int, r1[k + 1].1 as int);
            assert(false);
        }
        if k + 1 == r1.len() && k + 1 < r2.len() {
            assert(r1[k].1 == w.len());
            assert(r2[k + 1].0 == r2[k].1);
            lemma_step_bounds(s, w, r2[k + 1].0 as int, r2[k + 1].1 as int);
            assert(false);
        }
        lemma_seg_unique_from(s, w, r1, r2, k + 1);
    }
}

/// The greedy segmentation of a word under a fixed entry set is unique:
/// tokenizing the same input twice yields the same spans.
pub proof fn lemma_tokenize_deterministic(
    s: Set<Seq<u32>>,
    w: Seq<u32>,
    r1: Seq<(usize, usize)>,
    r2: Seq<(usize, usize)>,
)
    requires
        is_seg(s, w, r1),
        is_seg(s, w, r2),
    ensures
        r1 == r2,
{
    if w.len() == 0 {
        assert(r1 =~= r2);
    } else {
        lemma_seg_unique_from(s, w, r1, r2, 0);
        assert(r1 =~= r2);
    }
}

#[verifier::rlimit(100)]
proof fn lemma_flatten_from(s: Set<Seq<u32>>, w: Seq<u32>, r: Seq<(usize, usize)>, k: int)
    requires
        is_seg(s, w, r),
        0 <= k <= r.len(),
    ensures
        Seq::new(
            (r.len() - k) as nat,
            |j: int| w.subrange(r[k + j].0 as int, r[k + j].1 as int),
        ).flatten() == w.subrange(
            if k < r.len() {
                r[k].0 as int
            } else {
                w.len() as int
            },
            w.len() as int,
        ),
    decreases r.len() - k,
{
    let f = Seq::new((r.len() - k) as nat, |j: int| w.subrange(r[k + j].0 as int, r[k + j].1 as int));
    if k == r.len() {
        assert(f.len() == 0);
        assert(f.flatten() =~= Seq::<u32>::empty());
        assert(w.subrange(w.len() as int, w.len() as int) =~= Seq::<u32>::empty());
    } else {
        lemma_flatten_from(s, w, r, k + 1);
        let rest = Seq::new(
            (r.len() - (k + 1)) as nat,
            |j: int| w.subrange(r[k + 1 + j].0 as int, r[k + 1 + j].1 as int),
        );
        assert(f.drop_first() =~= rest);
        assert(f.first() == w.subrange(r[k].0 as int, r[k].1 as int));
        assert(f.flatten() == f.first() + f.drop_first().flatten());
        let nxt: int = if k + 1 < r.len() {
            r[k + 1].0 as int
        } else {
            w.len() as int
        };
        assert(nxt == r[k].1 as int) by {
            if k + 1 < r.len() {
                assert(r[k].1 == r[k + 1].0);
            } else {
                assert(r[r.len() - 1].1 == w.len());
            }
        }
        lemma_step_bounds(s, w, r[k].0 as int, r[k].1 as int);
        assert(w.subrange(r[k].0 as int, r[k].1 as int) + w.subrange(r[k].1 as int, w.len() as int)
            =~= w.subrange(r[k].0 as int, w.len() as int));
    }
}

/// Losslessness: concatenating the spans that `tokenize` returns yields
/// the input word back, symbol for symbol.
pub proof fn lemma_tokenize_lossless(s: Set<Seq<u32>>, w: Seq<u32>, r: Seq<(usize, usize)>)
    requires
        is_seg(s, w, r),
    ensures
        spans_concat(w, r) == w,
{
    if w.len() == 0 {
        assert(Seq::new(r.len(), |k: int| w.subrange(r[k].0 as int, r[k].1 as int)).flatten()
            =~= Seq::<u32>::empty());
        assert(w =~= Seq::<u32>::empty());
    } else {
        lemma_flatten_from(s, w, r, 0);
        assert(Seq::new(r.len(), |k: int| w.subrange(r[k].0 as int, r[k].1 as int)) =~= Seq::new(
            (r.len() - 0) as nat,
            |j: int| w.subrange(r[0 + j].0 as int, r[0 + j].1 as int),
        ));
        assert(w.subrange(0, w.len() as int) =~= w);
    }
}

/// Idempotent re-tokenization: tokenizing the concatenation of an
/// already-tokenized word's spans yields the same spans again.
pub proof fn lemma_retokenize_idempotent(
    s: Set<Seq<u32>>,
    w: Seq<u32>,
    r1: Seq<(usize, usize)>,
    r2: Seq<(usize, usize)>,
)
    requires
        is_seg(s, w, r1),
        is_seg(s, spans_concat(w, r1), r2),
    ensures
        r2 == r1,
{
    lemma_tokenize_lossless(s, w, r1);
    lemma_tokenize_deterministic(s, w, r1, r2);
}

proof fn lemma_seg_covers_from(
    s: Set<Seq<u32>>,
    w: Seq<u32>,
    r: Seq<(usize, usize)>,
    k: int,
    i: int,
)
    requires
        is_seg(s, w, r),
        0 <= k < r.len(),
        r[k].0 <= i < w.len(),
    ensures
        exists|j: int| k <= j < r.len() && (#[trigger] r[j]).0 <= i < r[j].1,
    decreases r.len() - k,
{
    if i < r[k].1 {
        assert(r[k].0 <= i < r[k].1);
    } else {
        assert(k + 1 < r.len()) by {
            if k + 1 == r.len() {
                assert(r[k].1 == w.len());
            }
        }
        assert(r[k + 1].0 == r[k].1);
        lemma_seg_covers_from(s, w, r, k + 1, i);
    }
}

/// Unseen-symbol fallback: a symbol that no vocabulary entry contains is
/// emitted as a length-1 span of its own, and tokenization does not fail.
pub proof fn lemma_unseen_fallback(
    s: Set<Seq<u32>>,
    w: Seq<u32>,
    r: Seq<(usize, usize)>,
    i: int,
)
    requires
        is_seg(s, w, r),
        0 <= i < w.len(),
        forall|t: Seq<u32>| #[trigger] s.contains(t) ==> !t.contains(w[i]),
    ensures
        exists|k: int|
            0 <= k < r.len() && (#[trigger] r[k]).0 <= i < r[k].1 && r[k].1 == r[k].0 + 1,
{
    assert(r.len() > 0);
    assert(r[0].0 == 0);
    lemma_seg_covers_from(s, w, r, 0, i);
    let k = choose|j: int| 0 <= j < r.len() && (#[trigger] r[j]).0 <= i < r[j].1;
    let p = r[k].0 as int;
    let e = r[k].1 as int;
    reveal(step_ok);
    assert(step_ok(s, w, p, e));
    if s.contains(w.subrange(p, e)) {
        assert(w.subrange(p, e)[i - p] == w[i]);
        assert(w.subrange(p, e).contains(w[i]));
        assert(false);
    }
    assert(e == p + 1);
}

impl Vocab {
    /// Freeze the current vocabulary into a tokenizer: an independent
    /// prefix index holding exactly the tokens admitted so far.
    pub fn build(&self) -> (t: Tokenizer)
        requires
            self.wf(),
        ensures
            t.wf(),
            t.entries() == self.token_views().to_set(),
    {
        let mut b = builder_new();
        let mut i: usize = 0;
        proof {
            assert(self.token_views().take(0) =~= Seq::<Seq<u32>>::empty());
            assert(builder_entries(b) =~= self.token_views().take(0).to_set());
        }
        while i < self.tokens.len()
            invariant
                self.wf(),
                i <= self.tokens@.len(),
                builder_entries(b) == self.token_views().take(i as int).to_set(),
            decreases self.tokens@.len() - i,
        {
            let ghost tv = self.token_views();
            let ghost tv0 = self.token_views().take(i as int);
            let ghost tv1 = self.token_views().take(i + 1);
            builder_push(&mut b, &self.tokens[i]);
            proof {
                assert(tv1 =~= tv0.push(tv[i as int]));
                assert(tv[i as int] == self.tokens@[i as int]@);
                assert(tv0.to_set().insert(tv[i as int]) =~= tv1.to_set()) by {
                    assert forall|x: Seq<u32>| #[trigger] tv1.to_set().contains(x)
                        implies tv0.to_set().contains(x) || x == tv[i as int] by {
                        assert(tv1.contains(x));
                        let j = choose|j: int| 0 <= j < tv1.len() && tv1[j] == x;
                        if j < i {
                            assert(tv0[j] == x);
                        }
                    }
                    assert forall|x: Seq<u32>|
                        tv0.to_set().contains(x) || x == tv[i as int]
                        implies #[trigger] tv1.to_set().contains(x) by {
                        if tv0.to_set().contains(x) {
                            let j = choose|j: int| 0 <= j < tv0.len() && tv0[j] == x;
                            assert(tv1[j] == x);
                        } else {
                            assert(tv1[i as int] == x);
                        }
                    }
                }
            }
            i = i + 1;
        }
        proof {
            assert(self.token_views().take(i as int) =~= self.token_views());
        }
        let trie = builder_build(b);
        let t = Tokenizer { trie };
        proof {
            assert forall|x: Seq<u32>| #[trigger] t.entries().contains(x) implies x.len()
                >= 1 by {
                assert(self.token_views().contains(x));
                let j = choose|j: int|
                    0 <= j < self.token_views().len() && self.token_views()[j] == x;
                assert(self.tokens@[j]@.len() >= 1);
            }
        }
        t
    }
}

} // verus!
