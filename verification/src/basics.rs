//! Small executable helpers over symbol sequences, together with the
//! lexicographic order on symbol sequences that the merge tie-break uses.

use vstd::prelude::*;

verus! {

/// Lexicographic order on symbol sequences: a proper prefix comes first,
/// otherwise the first differing symbol decides.
pub open spec fn lex_le(a: Seq<u32>, b: Seq<u32>) -> bool
    decreases a.len(),
{
    if a.len() == 0 {
        true
    } else if b.len() == 0 {
        false
    } else if a[0] < b[0] {
        true
    } else if a[0] > b[0] {
        false
    } else {
        lex_le(a.skip(1), b.skip(1))
    }
}

pub proof fn lemma_lex_refl(a: Seq<u32>)
    ensures
        lex_le(a, a),
    decreases a.len(),
{
    if a.len() > 0 {
        lemma_lex_refl(a.skip(1));
    }
}

pub proof fn lemma_lex_total(a: Seq<u32>, b: Seq<u32>)
    ensures
        lex_le(a, b) || lex_le(b, a),
    decreases a.len(),
{
    if a.len() > 0 && b.len() > 0 && a[0] == b[0] {
        lemma_lex_total(a.skip(1), b.skip(1));
    }
}

pub proof fn lemma_lex_antisymmetric(a: Seq<u32>, b: Seq<u32>)
    requires
        lex_le(a, b),
        lex_le(b, a),
    ensures
        a == b,
    decreases a.len(),
{
    if a.len() == 0 {
        assert(b.len() == 0);
        assert(a =~= b);
    } else {
        assert(b.len() > 0);
        assert(a[0] == b[0]);
        lemma_lex_antisymmetric(a.skip(1), b.skip(1));
        assert(a.skip(1).len() == a.len() - 1);
        assert(b.skip(1).len() == b.len() - 1);
        assert(a.len() == b.len());
        assert forall|i: int| 0 <= i < a.len() implies a[i] == b[i] by {
            if i >= 1 {
                assert(a[i] == a.skip(1)[i - 1]);
                assert(b[i] == b.skip(1)[i - 1]);
            }
        }
        assert(a =~= b);
    }
}

pub proof fn lemma_lex_trans(a: Seq<u32>, b: Seq<u32>, c: Seq<u32>)
    requires
        lex_le(a, b),
        lex_le(b, c),
    ensures
        lex_le(a, c),
    decreases a.len(),
{
    if a.len() > 0 && b.len() > 0 && c.len() > 0 && a[0] == b[0] && b[0] == c[0] {
        lemma_lex_trans(a.skip(1), b.skip(1), c.skip(1));
    }
}

/// Equal left halves and equal concatenations force equal right halves.
pub proof fn lemma_concat_cancel_left(l: Seq<u32>, r1: Seq<u32>, r2: Seq<u32>)
    requires
        l + r1 == l + r2,
    ensures
        r1 == r2,
{
    vstd::seq::axiom_seq_add_len::<u32>(l, r1);
    vstd::seq::axiom_seq_add_len::<u32>(l, r2);
    assert(r1.len() == r2.len());
    assert forall|i: int| 0 <= i < r1.len() implies r1[i] == r2[i] by {
        vstd::seq::axiom_seq_add_index2::<u32>(l, r1, l.len() + i);
        vstd::seq::axiom_seq_add_index2::<u32>(l, r2, l.len() + i);
    }
    assert(r1 =~= r2);
}

/// The tie-break order on ordered pairs of token contents: by the
/// lexicographic order of the concatenations, and among pairs with the
/// same concatenation by the lexicographic order of the left halves.
pub open spec fn pair_le(l1: Seq<u32>, r1: Seq<u32>, l2: Seq<u32>, r2: Seq<u32>) -> bool {
    if l1 + r1 == l2 + r2 {
        lex_le(l1, l2)
    } else {
        lex_le(l1 + r1, l2 + r2)
    }
}

pub proof fn lemma_pair_le_refl(l: Seq<u32>, r: Seq<u32>)
    ensures
        pair_le(l, r, l, r),
{
    lemma_lex_refl(l);
}

pub proof fn lemma_pair_le_total(l1: Seq<u32>, r1: Seq<u32>, l2: Seq<u32>, r2: Seq<u32>)
    ensures
        pair_le(l1, r1, l2, r2) || pair_le(l2, r2, l1, r1),
{
    if l1 + r1 == l2 + r2 {
        lemma_lex_total(l1, l2);
    } else {
        lemma_lex_total(l1 + r1, l2 + r2);
    }
}

pub proof fn lemma_pair_le_antisymmetric(l1: Seq<u32>, r1: Seq<u32>, l2: Seq<u32>, r2: Seq<u32>)
    requires
        pair_le(l1, r1, l2, r2),
        pair_le(l2, r2, l1, r1),
    ensures
        l1 == l2,
        r1 == r2,
{
    if l1 + r1 == l2 + r2 {
        lemma_lex_antisymmetric(l1, l2);
        lemma_concat_cancel_left(l1, r1, r2);
    } else {
        lemma_lex_antisymmetric(l1 + r1, l2 + r2);
    }
}

pub proof fn lemma_pair_le_trans(
    l1: Seq<u32>,
    r1: Seq<u32>,
    l2: Seq<u32>,
    r2: Seq<u32>,
    l3: Seq<u32>,
    r3: Seq<u32>,
)
    requires
        pair_le(l1, r1, l2, r2),
        pair_le(l2, r2, l3, r3),
    ensures
        pair_le(l1, r1, l3, r3),
{
    let c1 = l1 + r1;
    let c2 = l2 + r2;
    let c3 = l3 + r3;
    if c1 == c2 && c2 == c3 {
        lemma_lex_trans(l1, l2, l3);
    } else if c1 == c2 {
        assert(c1 != c3);
    } else if c2 == c3 {
        assert(c1 != c3);
    } else {
        lemma_lex_trans(c1, c2, c3);
        if c1 == c3 {
            lemma_lex_antisymmetric(c1, c2);
        }
    }
}

/// Concatenation of two symbol vectors.
pub fn concat_syms(a: &Vec<u32>, b: &Vec<u32>) -> (r: Vec<u32>)
    ensures
        r@ == a@ + b@,
{
    let mut r: Vec<u32> = Vec::new();
    let mut i: usize = 0;
    proof {
        assert(r@ =~= a@.take(0));
    }
    while i < a.len()
        invariant
            i <= a.len(),
            r@ == a@.take(i as int),
        decreases a.len() - i,
    {
        r.push(a[i]);
        proof {
            assert(r@ =~= a@.take(i + 1));
        }
        i = i + 1;
    }
    proof {
        assert(r@ =~= a@);
    }
    let mut j: usize = 0;
    proof {
        assert(r@ =~= a@ + b@.take(0));
    }
    while j < b.len()
        invariant
            j <= b.len(),
            r@ == a@ + b@.take(j as int),
        decreases b.len() - j,
    {
        r.push(b[j]);
        proof {
            assert(r@ =~= a@ + b@.take(j + 1));
        }
        j = j + 1;
    }
    proof {
        assert(r@ =~= a@ + b@);
    }
    r
}

/// Decide the tie-break order on two ordered pairs of token contents.
pub fn pair_le_exec(
    l1: &Vec<u32>,
    r1: &Vec<u32>,
    l2: &Vec<u32>,
    r2: &Vec<u32>,
) -> (r: bool)
    ensures
        r == pair_le(l1@, r1@, l2@, r2@),
{
    let c1 = concat_syms(l1, r1);
    let c2 = concat_syms(l2, r2);
    if eq_syms(&c1, &c2) {
        lex_le_exec(l1, l2)
    } else {
        lex_le_exec(&c1, &c2)
    }
}

/// Decide the lexicographic order on two symbol vectors.
pub fn lex_le_exec(a: &Vec<u32>, b: &Vec<u32>) -> (r: bool)
    ensures
        r == lex_le(a@, b@),
{
    let mut i: usize = 0;
    proof {
        assert(a@.skip(0) =~= a@);
        assert(b@.skip(0) =~= b@);
    }
    loop
        invariant
            i <= a.len(),
            i <= b.len(),
            forall|j: int| 0 <= j < i ==> a@[j] == b@[j],
            lex_le(a@, b@) == lex_le(a@.skip(i as int), b@.skip(i as int)),
        decreases a.len() - i,
    {
        if i == a.len() {
            return true;
        }
        if i == b.len() {
            return false;
        }
        let x = a[i];
        let y = b[i];
        proof {
            assert(a@.skip(i as int)[0] == a@[i as int]);
            assert(b@.skip(i as int)[0] == b@[i as int]);
            assert(a@.skip(i as int).skip(1) =~= a@.skip(i + 1));
            assert(b@.skip(i as int).skip(1) =~= b@.skip(i + 1));
        }
        if x < y {
            return true;
        }
        if x > y {
            return false;
        }
        i = i + 1;
    }
}

/// Value equality of two symbol vectors.
pub fn eq_syms(a: &Vec<u32>, b: &Vec<u32>) -> (r: bool)
    ensures
        r == (a@ == b@),
{
    if a.len() != b.len() {
        return false;
    }
    let mut i: usize = 0;
    while i < a.len()
        invariant
            a.len() == b.len(),
            i <= a.len(),
            forall|j: int| 0 <= j < i ==> a@[j] == b@[j],
        decreases a.len() - i,
    {
        if a[i] != b[i] {
            return false;
        }
        i = i + 1;
    }
    proof {
        assert(a@ =~= b@);
    }
    true
}

/// Membership of a symbol in a vector.
pub fn contains_sym(v: &Vec<u32>, x: u32) -> (r: bool)
    ensures
        r == v@.contains(x),
{
    let mut i: usize = 0;
    while i < v.len()
        invariant
            i <= v.len(),
            forall|j: int| 0 <= j < i ==> v@[j] != x,
        decreases v.len() - i,
    {
        if v[i] == x {
            return true;
        }
        i = i + 1;
    }
    false
}

/// Copy of the symbols in positions `i .. j`.
pub fn copy_range(v: &Vec<u32>, i: usize, j: usize) -> (r: Vec<u32>)
    requires
        i <= j <= v@.len(),
    ensures
        r@ == v@.subrange(i as int, j as int),
{
    let mut r: Vec<u32> = Vec::new();
    let mut k: usize = i;
    while k < j
        invariant
            i <= k <= j <= v@.len(),
            r@ == v@.subrange(i as int, k as int),
        decreases j - k,
    {
        r.push(v[k]);
        proof {
            assert(r@ =~= v@.subrange(i as int, k + 1));
        }
        k = k + 1;
    }
    r
}

} // verus!
