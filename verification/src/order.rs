//! Ordering text as Rust orders strings: lexicographically, character by
//! character (the order of UTF-8 bytes is that of the characters they
//! encode), a proper prefix first; and sorting lists of texts in that order.

use vstd::prelude::*;

use crate::text;

verus! {

broadcast use vstd::seq_lib::group_to_multiset_ensures, vstd::multiset::group_multiset_axioms;

/// `a` comes strictly before `b`.
pub open spec fn lex_lt(a: Seq<char>, b: Seq<char>) -> bool
    decreases a.len(),
{
    if a.len() == 0 {
        b.len() > 0
    } else if b.len() == 0 {
        false
    } else if a[0] != b[0] {
        (a[0] as int) < (b[0] as int)
    } else {
        lex_lt(a.drop_first(), b.drop_first())
    }
}

/// Nothing comes before itself.
pub proof fn lemma_lex_irreflexive(a: Seq<char>)
    ensures
        !lex_lt(a, a),
    decreases a.len(),
{
    if a.len() > 0 {
        lemma_lex_irreflexive(a.drop_first());
    }
}

/// Of two different texts, one comes before the other, and not both ways.
pub proof fn lemma_lex_total(a: Seq<char>, b: Seq<char>)
    ensures
        a != b ==> (lex_lt(a, b) || lex_lt(b, a)),
        !(lex_lt(a, b) && lex_lt(b, a)),
    decreases a.len(),
{
    if a.len() > 0 && b.len() > 0 {
        if a[0] == b[0] {
            lemma_lex_total(a.drop_first(), b.drop_first());
            if a != b {
                assert(a =~= seq![a[0]] + a.drop_first());
                assert(b =~= seq![b[0]] + b.drop_first());
            }
        } else {
            assert((a[0] as int) != (b[0] as int));
        }
    } else if a.len() == 0 && b.len() == 0 {
        assert(a =~= b);
    }
}

/// The order is transitive.
pub proof fn lemma_lex_transitive(a: Seq<char>, b: Seq<char>, c: Seq<char>)
    requires
        lex_lt(a, b),
        lex_lt(b, c),
    ensures
        lex_lt(a, c),
    decreases a.len(),
{
    if a.len() > 0 && b.len() > 0 && c.len() > 0 {
        if a[0] == b[0] && b[0] == c[0] {
            lemma_lex_transitive(a.drop_first(), b.drop_first(), c.drop_first());
        } else {
            if a[0] == c[0] {
                assert((a[0] as int) <= (b[0] as int) <= (c[0] as int));
            }
        }
    }
}

/// The index of the first text at or after `i` that `x` comes before; the
/// length when there is none.
pub open spec fn ins_pos(s: Seq<Seq<char>>, x: Seq<char>, i: int) -> int
    decreases s.len() - i,
{
    if i < 0 || i >= s.len() {
        s.len() as int
    } else if lex_lt(x, s[i]) {
        i
    } else {
        ins_pos(s, x, i + 1)
    }
}

pub proof fn lemma_ins_pos(s: Seq<Seq<char>>, x: Seq<char>, i: int)
    requires
        0 <= i <= s.len(),
    ensures
        i <= ins_pos(s, x, i) <= s.len(),
        forall|j: int| i <= j < ins_pos(s, x, i) ==> !lex_lt(x, #[trigger] s[j]),
        ins_pos(s, x, i) < s.len() ==> lex_lt(x, s[ins_pos(s, x, i)]),
    decreases s.len() - i,
{
    if i < s.len() && !lex_lt(x, s[i]) {
        lemma_ins_pos(s, x, i + 1);
    }
}

/// `x` inserted into `s` before the first text it comes before.
pub open spec fn insert_sorted(s: Seq<Seq<char>>, x: Seq<char>) -> Seq<Seq<char>> {
    let p = ins_pos(s, x, 0);
    s.take(p).push(x) + s.skip(p)
}

/// `s` sorted by insertion, each text in turn.
pub open spec fn sort_seq(s: Seq<Seq<char>>) -> Seq<Seq<char>>
    decreases s.len(),
{
    if s.len() == 0 {
        s
    } else {
        insert_sorted(sort_seq(s.drop_last()), s.last())
    }
}

/// No text comes before one ahead of it.
pub open spec fn sorted(s: Seq<Seq<char>>) -> bool {
    forall|i: int, j: int| 0 <= i < j < s.len() ==> !lex_lt(#[trigger] s[j], #[trigger] s[i])
}

proof fn lemma_insert_sorted(s: Seq<Seq<char>>, x: Seq<char>)
    requires
        sorted(s),
    ensures
        sorted(insert_sorted(s, x)),
        insert_sorted(s, x).to_multiset() == s.to_multiset().insert(x),
{
    let p = ins_pos(s, x, 0);
    lemma_ins_pos(s, x, 0);
    let r = insert_sorted(s, x);
    assert(r.len() == s.len() + 1);
    assert forall|k: int| 0 <= k < r.len() implies #[trigger] r[k] == (if k < p {
        s[k]
    } else if k == p {
        x
    } else {
        s[k - 1]
    }) by {}
    assert forall|i: int, j: int| 0 <= i < j < r.len() implies !lex_lt(#[trigger] r[j], #[trigger] r[i]) by {
        if i < p && j == p {
            // s[i] does not come after x: x does not come before it
            lemma_lex_total(x, s[i]);
        } else if i == p && j > p {
            // x comes before s[p], which does not come after s[j - 1]
            if j - 1 > p {
                lemma_lex_total(s[p], s[j - 1]);
                if lex_lt(s[j - 1], x) {
                    lemma_lex_transitive(s[j - 1], x, s[p]);
                }
                if s[p] == s[j - 1] {
                    lemma_lex_total(x, s[p]);
                }
            } else {
                lemma_lex_total(x, s[p]);
            }
        } else if i < p && j > p {
            assert(!lex_lt(s[j - 1], s[i]));
        } else if i > p {
            assert(!lex_lt(s[j - 1], s[i - 1]));
        }
    }
    assert(s =~= s.take(p) + s.skip(p));
    vstd::seq_lib::lemma_multiset_commutative(s.take(p), s.skip(p));
    vstd::seq_lib::lemma_multiset_commutative(s.take(p).push(x), s.skip(p));
}

/// Sorting gives the texts of `s` (each as often), in order.
pub proof fn lemma_sort_seq(s: Seq<Seq<char>>)
    ensures
        sorted(sort_seq(s)),
        sort_seq(s).to_multiset() == s.to_multiset(),
    decreases s.len(),
{
    if s.len() == 0 {
        assert(s.to_multiset() =~= sort_seq(s).to_multiset());
    } else {
        lemma_sort_seq(s.drop_last());
        lemma_insert_sorted(sort_seq(s.drop_last()), s.last());
        assert(s =~= s.drop_last().push(s.last()));
    }
}

/// Whether `a` comes strictly before `b` (see `lex_lt`).
pub fn lex_less(a: &Vec<char>, b: &Vec<char>) -> (r: bool)
    ensures
        r == lex_lt(a@, b@),
{
    let mut k: usize = 0;
    assert(a@.skip(0) =~= a@);
    assert(b@.skip(0) =~= b@);
    while k < a.len() && k < b.len() && a[k] == b[k]
        invariant
            k <= a@.len(),
            k <= b@.len(),
            lex_lt(a@, b@) == lex_lt(a@.skip(k as int), b@.skip(k as int)),
        decreases a.len() - k,
    {
        assert(a@.skip(k as int).drop_first() =~= a@.skip(k + 1));
        assert(b@.skip(k as int).drop_first() =~= b@.skip(k + 1));
        k = k + 1;
    }
    if k == a.len() {
        k < b.len()
    } else if k == b.len() {
        false
    } else {
        assert(a@.skip(k as int)[0] == a@[k as int]);
        assert(b@.skip(k as int)[0] == b@[k as int]);
        let x: char = a[k];
        let y: char = b[k];
        x < y
    }
}

/// The index at which `x` is inserted into `s` (see `ins_pos`).
pub fn insert_position(s: &Vec<Vec<char>>, x: &Vec<char>) -> (p: usize)
    ensures
        p == ins_pos(text::views(s@), x@, 0),
{
    let ghost v = text::views(s@);
    let mut i: usize = 0;
    while i < s.len()
        invariant
            i <= s@.len(),
            v == text::views(s@),
            ins_pos(v, x@, 0) == ins_pos(v, x@, i as int),
        decreases s.len() - i,
    {
        if lex_less(x, &s[i]) {
            return i;
        }
        i = i + 1;
    }
    i
}

/// The texts of `v`, sorted (see `sort_seq`).
pub fn sorted_texts(v: &Vec<Vec<char>>) -> (r: Vec<Vec<char>>)
    ensures
        text::views(r@) == sort_seq(text::views(v@)),
{
    let ghost vv = text::views(v@);
    let mut r: Vec<Vec<char>> = Vec::new();
    assert(vv.take(0) =~= Seq::<Seq<char>>::empty());
    assert(text::views(r@) =~= Seq::<Seq<char>>::empty());
    for i in 0..v.len()
        invariant
            vv == text::views(v@),
            text::views(r@) == sort_seq(vv.take(i as int)),
    {
        let ghost before = text::views(r@);
        let x = text::copy_range(&v[i], 0, v[i].len());
        assert(x@ =~= vv[i as int]);
        let p = insert_position(&r, &x);
        proof {
            lemma_ins_pos(before, x@, 0);
        }
        r.insert(p, x);
        assert(vv.take(i + 1).drop_last() =~= vv.take(i as int));
        assert(text::views(r@) =~= before.take(p as int).push(x@) + before.skip(p as int));
    }
    assert(vv.take(v@.len() as int) =~= vv);
    r
}

} // verus!
