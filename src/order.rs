use vstd::prelude::*;

use vstd::string::*;

use crate::term::{Term, TermV, term_str, convTermToStr, children_view};

verus! {

broadcast use vstd::std_specs::vec::group_vec_axioms;

/// Lexicographic order of texts, by character code.
pub open spec fn text_le(a: Seq<char>, b: Seq<char>) -> bool
    decreases a.len(),
{
    if a.len() == 0 {
        true
    } else if b.len() == 0 {
        false
    } else if (a[0] as u32) != (b[0] as u32) {
        (a[0] as u32) < (b[0] as u32)
    } else {
        text_le(a.subrange(1, a.len() as int), b.subrange(1, b.len() as int))
    }
}

proof fn lemma_text_le_total(a: Seq<char>, b: Seq<char>)
    ensures
        text_le(a, b) || text_le(b, a),
    decreases a.len(),
{
    if a.len() > 0 && b.len() > 0 && (a[0] as u32) == (b[0] as u32) {
        lemma_text_le_total(a.subrange(1, a.len() as int), b.subrange(1, b.len() as int));
    }
}

proof fn lemma_text_le_trans(a: Seq<char>, b: Seq<char>, c: Seq<char>)
    requires
        text_le(a, b),
        text_le(b, c),
    ensures
        text_le(a, c),
    decreases a.len(),
{
    if a.len() > 0 && b.len() > 0 && c.len() > 0 && (a[0] as u32) == (b[0] as u32) && (b[0] as u32) == (c[0] as u32) {
        lemma_text_le_trans(a.subrange(1, a.len() as int), b.subrange(1, b.len() as int), c.subrange(1, c.len() as int));
    }
}

/// The sort key of a term: its text.
pub open spec fn key(t: TermV) -> Seq<char> {
    term_str(t)
}

/// The terms are in non-decreasing order of their text.
pub open spec fn sorted(s: Seq<TermV>) -> bool {
    forall|i: int, j: int| 0 <= i < j < s.len() ==> text_le(key(#[trigger] s[i]), key(#[trigger] s[j]))
}

/// `s` with `x` inserted before the first term whose text comes after `x`'s.
pub open spec fn sorted_insert(s: Seq<TermV>, x: TermV) -> Seq<TermV>
    decreases s.len(),
{
    if s.len() == 0 {
        seq![x]
    } else if text_le(key(s[0]), key(x)) {
        seq![s[0]] + sorted_insert(s.subrange(1, s.len() as int), x)
    } else {
        seq![x] + s
    }
}

/// The terms of `s` sorted by text by insertion, in order (equal texts keep their order).
pub open spec fn sort_terms(s: Seq<TermV>) -> Seq<TermV>
    decreases s.len(),
{
    if s.len() == 0 {
        seq![]
    } else {
        sorted_insert(sort_terms(s.subrange(0, s.len() - 1)), s[s.len() - 1])
    }
}

proof fn lemma_insert_props(s: Seq<TermV>, x: TermV)
    requires
        sorted(s),
    ensures
        sorted(sorted_insert(s, x)),
        sorted_insert(s, x).to_multiset() =~= s.to_multiset().insert(x),
    decreases s.len(),
{
    broadcast use vstd::seq_lib::group_to_multiset_ensures;
    let r = sorted_insert(s, x);
    if s.len() == 0 {
        assert(r =~= seq![x]);
        assert(seq![x] =~= Seq::<TermV>::empty().push(x));
    } else if text_le(key(s[0]), key(x)) {
        let t = s.subrange(1, s.len() as int);
        assert forall|i: int, j: int| 0 <= i < j < t.len() implies text_le(key(#[trigger] t[i]), key(#[trigger] t[j])) by {
            assert(t[i] == s[i + 1] && t[j] == s[j + 1]);
        }
        lemma_insert_props(t, x);
        let rt = sorted_insert(t, x);
        assert(r == seq![s[0]] + rt);
        assert forall|i: int, j: int| 0 <= i < j < r.len() implies text_le(key(#[trigger] r[i]), key(#[trigger] r[j])) by {
            if i == 0 {
                assert(r[j] == rt[j - 1]);
                assert(rt.to_multiset().count(rt[j - 1]) > 0);
                assert(t.to_multiset().insert(x).count(rt[j - 1]) > 0);
                if rt[j - 1] != x {
                    assert(t.to_multiset().count(rt[j - 1]) > 0);
                    assert(t.contains(rt[j - 1]));
                    let w = choose|w: int| 0 <= w < t.len() && t[w] == rt[j - 1];
                    assert(s[w + 1] == t[w]);
                    assert(text_le(key(s[0]), key(s[w + 1])));
                }
            } else {
                assert(r[i] == rt[i - 1] && r[j] == rt[j - 1]);
            }
        }
        assert(s =~= seq![s[0]] + t);
        vstd::seq_lib::lemma_multiset_commutative(seq![s[0]], t);
        vstd::seq_lib::lemma_multiset_commutative(seq![s[0]], rt);
    } else {
        assert forall|i: int, j: int| 0 <= i < j < r.len() implies text_le(key(#[trigger] r[i]), key(#[trigger] r[j])) by {
            if i == 0 {
                lemma_text_le_total(key(s[0]), key(x));
                if j - 1 > 0 {
                    assert(text_le(key(s[0]), key(s[j - 1])));
                    lemma_text_le_trans(key(x), key(s[0]), key(s[j - 1]));
                }
                assert(r[j] == s[j - 1]);
            } else {
                assert(r[i] == s[i - 1] && r[j] == s[j - 1]);
            }
        }
        vstd::seq_lib::lemma_multiset_commutative(seq![x], s);
        assert(seq![x] =~= Seq::<TermV>::empty().push(x));
    }
}

/// Sorting by insertion gives the same terms in non-decreasing order of their text.
pub proof fn law_sort_terms(s: Seq<TermV>)
    ensures
        sorted(sort_terms(s)),
        sort_terms(s).to_multiset() =~= s.to_multiset(),
    decreases s.len(),
{
    broadcast use vstd::seq_lib::group_to_multiset_ensures;
    if s.len() > 0 {
        let p = s.subrange(0, s.len() - 1);
        law_sort_terms(p);
        lemma_insert_props(sort_terms(p), s[s.len() - 1]);
        assert(s =~= p.push(s[s.len() - 1]));
    }
}


/// Does text `a` come before or equal to text `b`?
pub fn textLe(a: &String, b: &String) -> (r: bool)
    ensures
        r == text_le(a@, b@),
{
    let la = a.as_str().unicode_len();
    let lb = b.as_str().unicode_len();
    let mut i: usize = 0;
    assert(a@.subrange(0, la as int) =~= a@);
    assert(b@.subrange(0, lb as int) =~= b@);
    while i < la && i < lb
        invariant
            la == a@.len(),
            lb == b@.len(),
            i <= la,
            i <= lb,
            text_le(a@, b@) == text_le(a@.subrange(i as int, la as int), b@.subrange(i as int, lb as int)),
        decreases la - i,
    {
        let ca = a.as_str().get_char(i);
        let cb = b.as_str().get_char(i);
        let ghost x = a@.subrange(i as int, la as int);
        let ghost y = b@.subrange(i as int, lb as int);
        assert(x[0] == ca && y[0] == cb);
        if (ca as u32) != (cb as u32) {
            return (ca as u32) < (cb as u32);
        }
        assert(x.subrange(1, x.len() as int) =~= a@.subrange(i + 1, la as int));
        assert(y.subrange(1, y.len() as int) =~= b@.subrange(i + 1, lb as int));
        i = i + 1;
    }
    i == la
}

proof fn lemma_insert_at(s: Seq<TermV>, x: TermV, k: int)
    requires
        0 <= k <= s.len(),
        forall|j: int| 0 <= j < k ==> text_le(key(#[trigger] s[j]), key(x)),
        k == s.len() || !text_le(key(s[k]), key(x)),
    ensures
        sorted_insert(s, x) == s.subrange(0, k) + seq![x] + s.subrange(k, s.len() as int),
    decreases k,
{
    if s.len() == 0 {
        assert(sorted_insert(s, x) =~= s.subrange(0, k) + seq![x] + s.subrange(k, s.len() as int));
    } else if k == 0 {
        assert(sorted_insert(s, x) =~= s.subrange(0, k) + seq![x] + s.subrange(k, s.len() as int));
    } else {
        let t = s.subrange(1, s.len() as int);
        assert forall|j: int| 0 <= j < k - 1 implies text_le(key(#[trigger] t[j]), key(x)) by {
            assert(t[j] == s[j + 1]);
        }
        if k - 1 < t.len() {
            assert(t[k - 1] == s[k]);
        }
        lemma_insert_at(t, x, k - 1);
        assert(sorted_insert(s, x) =~= s.subrange(0, k) + seq![x] + s.subrange(k, s.len() as int));
    }
}

/// Sorts terms by their text (insertion sort; terms of equal text keep their order).
pub fn sortChildren(v: &Vec<Box<Term>>) -> (r: Vec<Box<Term>>)
    ensures
        children_view(r) == sort_terms(children_view(*v)),
{
    let ghost cv = children_view(*v);
    let mut res: Vec<Box<Term>> = Vec::new();
    let mut keys: Vec<String> = Vec::new();
    let mut i: usize = 0;
    assert(cv.subrange(0, 0) =~= seq![]);
    assert(children_view(res) =~= seq![]);
    while i < v.len()
        invariant
            i <= v.len(),
            cv == children_view(*v),
            children_view(res) == sort_terms(cv.subrange(0, i as int)),
            keys.len() == res.len(),
            forall|j: int| 0 <= j < keys.len() ==> (#[trigger] keys[j])@ == key(children_view(res)[j]),
        decreases v.len() - i,
    {
        let x = (*v[i]).clone();
        let kx = convTermToStr(&x);
        let ghost s = children_view(res);
        let mut k: usize = 0;
        while k < res.len() && textLe(&keys[k], &kx)
            invariant
                k <= res.len(),
                keys.len() == res.len(),
                s == children_view(res),
                kx@ == key(x@),
                forall|j: int| 0 <= j < keys.len() ==> (#[trigger] keys[j])@ == key(s[j]),
                forall|j: int| 0 <= j < k ==> text_le(key(#[trigger] s[j]), key(x@)),
            decreases res.len() - k,
        {
            k = k + 1;
        }
        proof {
            lemma_insert_at(s, x@, k as int);
            assert(cv.subrange(0, i + 1).subrange(0, i as int) =~= cv.subrange(0, i as int));
            assert(cv.subrange(0, i + 1)[i as int] == cv[i as int]);
            assert(cv[i as int] == x@);
        }
        let ghost xv = x@;
        res.insert(k, Box::new(x));
        keys.insert(k, kx);
        proof {
            assert(children_view(res) =~= s.subrange(0, k as int) + seq![xv] + s.subrange(k as int, s.len() as int));
            assert forall|j: int| 0 <= j < keys.len() implies (#[trigger] keys[j])@ == key(children_view(res)[j]) by {
                if j < k {
                } else if j == k {
                } else {
                }
            }
        }
        i = i + 1;
    }
    assert(cv.subrange(0, v.len() as int) =~= cv);
    res
}

}
