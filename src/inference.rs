use vstd::prelude::*;

use crate::term::{Term, TermV, Copula, term_view, children_view, checkEqTerm, cloneChildren};
use crate::truth::{Tv, Evidence, ded, ded_spec, intersection, int_spec, convTv, conv_spec};
use crate::stamp::{checkOverlap, merge, merge_spec, overlap_spec};
use crate::sentence::{SentenceDummy, EnumPunctation};
use crate::unify::{unify, unifySubst, unify_spec, subst_spec};
use crate::order::{sortChildren, sort_terms, sorted, law_sort_terms};

verus! {

broadcast use vstd::std_specs::vec::group_vec_axioms;

/// `a` followed by the terms of `b` that it lacks, in their order.
pub open spec fn set_union(a: Seq<TermV>, b: Seq<TermV>) -> Seq<TermV>
    decreases b.len(),
{
    if b.len() == 0 {
        a
    } else {
        let u = set_union(a, b.subrange(0, b.len() - 1));
        if u.contains(b[b.len() - 1]) {
            u
        } else {
            u.push(b[b.len() - 1])
        }
    }
}

/// Conclusion of a rule: a term and its truth value.
pub open spec fn concl_view(r: Seq<(Term, Tv)>) -> Seq<(TermV, Tv)> {
    r.map_values(|x: (Term, Tv)| (x.0@, x.1))
}

/// Value of an optional conclusion.
pub open spec fn opt_view(o: Option<(Term, Tv)>) -> Option<(TermV, Tv)> {
    match o {
        Some(x) => Some((x.0@, x.1)),
        None => None,
    }
}

/// Conversion: `a --> b.  |-  b --> a.`
pub open spec fn inf2_spec(a: TermV, pa: EnumPunctation, ta: Tv) -> Option<(TermV, Tv)> {
    if pa != EnumPunctation::JUGEMENT {
        None
    } else {
        match a {
            TermV::Stmt(Copula::INH, s, p) => Some((TermV::Stmt(Copula::INH, p, s), conv_spec(ta))),
            _ => None,
        }
    }
}

/// Deduction over inheritance: `a --> x.  x --> b.  |-  a --> b.` (not for `a == b`)
pub open spec fn inf0_spec(a: TermV, pa: EnumPunctation, ta: Tv, b: TermV, pb: EnumPunctation, tb: Tv) -> Option<(TermV, Tv)> {
    if pa != EnumPunctation::JUGEMENT || pb != EnumPunctation::JUGEMENT {
        None
    } else {
        match (a, b) {
            (TermV::Stmt(Copula::INH, asubj, apred), TermV::Stmt(Copula::INH, bsubj, bpred)) => {
                if asubj != bpred && apred == bsubj {
                    Some((TermV::Stmt(Copula::INH, asubj, bpred), ded_spec(ta, tb)))
                } else {
                    None
                }
            },
            _ => None,
        }
    }
}

/// Deduction over implication: `a ==> x.  x ==> b.  |-  a ==> b.`
pub open spec fn inf1_spec(a: TermV, pa: EnumPunctation, ta: Tv, b: TermV, pb: EnumPunctation, tb: Tv) -> Option<(TermV, Tv)> {
    if pa != EnumPunctation::JUGEMENT || pb != EnumPunctation::JUGEMENT {
        None
    } else {
        match (a, b) {
            (TermV::Stmt(Copula::IMPL, asubj, apred), TermV::Stmt(Copula::IMPL, bsubj, bpred)) => {
                if apred == bsubj {
                    Some((TermV::Stmt(Copula::IMPL, asubj, bpred), ded_spec(ta, tb)))
                } else {
                    None
                }
            },
            _ => None,
        }
    }
}

/// Union on the predicate: `x --> [a].  x --> [b].  |-  x --> [a b].`
pub open spec fn inf3_spec(a: TermV, pa: EnumPunctation, ta: Tv, b: TermV, pb: EnumPunctation, tb: Tv) -> Option<(TermV, Tv)> {
    if pa != EnumPunctation::JUGEMENT || pb != EnumPunctation::JUGEMENT {
        None
    } else {
        match (a, b) {
            (TermV::Stmt(Copula::INH, asubj, apred), TermV::Stmt(Copula::INH, bsubj, bpred)) => {
                match (*apred, *bpred) {
                    (TermV::SetInt(sa), TermV::SetInt(sb)) => {
                        if asubj == bsubj {
                            Some((TermV::Stmt(Copula::INH, asubj, Box::new(TermV::SetInt(sort_terms(set_union(sa, sb))))), int_spec(ta, tb)))
                        } else {
                            None
                        }
                    },
                    _ => None,
                }
            },
            _ => None,
        }
    }
}

/// Union on the subject: `{a} --> x.  {b} --> x.  |-  {a b} --> x.`
pub open spec fn inf4_spec(a: TermV, pa: EnumPunctation, ta: Tv, b: TermV, pb: EnumPunctation, tb: Tv) -> Option<(TermV, Tv)> {
    if pa != EnumPunctation::JUGEMENT || pb != EnumPunctation::JUGEMENT {
        None
    } else {
        match (a, b) {
            (TermV::Stmt(Copula::INH, asubj, apred), TermV::Stmt(Copula::INH, bsubj, bpred)) => {
                match (*asubj, *bsubj) {
                    (TermV::SetExt(sa), TermV::SetExt(sb)) => {
                        if apred == bpred {
                            Some((TermV::Stmt(Copula::INH, Box::new(TermV::SetExt(sort_terms(set_union(sa, sb)))), apred), int_spec(ta, tb)))
                        } else {
                            None
                        }
                    },
                    _ => None,
                }
            },
            _ => None,
        }
    }
}

/// Conjunction elimination: `(p && q) ==> r.  p'.  |-  q' ==> r.` where `p` (at `idx`) unifies with `p'`.
pub open spec fn inf5_spec(a: TermV, pa: EnumPunctation, ta: Tv, b: TermV, pb: EnumPunctation, tb: Tv, idx: int) -> Option<(TermV, Tv)> {
    if pa != EnumPunctation::JUGEMENT || pb != EnumPunctation::JUGEMENT {
        None
    } else {
        match a {
            TermV::Stmt(Copula::IMPL, aconj, apred) => match *aconj {
                TermV::Conj(arr) => {
                    if arr.len() == 2 {
                        match unify_spec(arr[idx], b, seq![]) {
                            Some(s) => Some((TermV::Stmt(Copula::IMPL, Box::new(subst_spec(arr[1 - idx], s)), apred), ded_spec(ta, tb))),
                            None => None,
                        }
                    } else {
                        None
                    }
                },
                _ => None,
            },
            _ => None,
        }
    }
}

/// Detachment: `a ==> x.  a'.  |-  x'.` where `a` unifies with `a'`.
pub open spec fn inf6_spec(a: TermV, pa: EnumPunctation, ta: Tv, b: TermV, pb: EnumPunctation, tb: Tv) -> Option<(TermV, Tv)> {
    if pa != EnumPunctation::JUGEMENT || pb != EnumPunctation::JUGEMENT {
        None
    } else {
        match a {
            TermV::Stmt(Copula::IMPL, asubj, apred) => match unify_spec(*asubj, b, seq![]) {
                Some(s) => Some((subst_spec(*apred, s), ded_spec(ta, tb))),
                None => None,
            },
            _ => None,
        }
    }
}

/// Question-guided abduction: `a ==> x?  x'.  |-  (a ==> x)'.` where `x` unifies with `x'`.
pub open spec fn inf7_spec(a: TermV, pa: EnumPunctation, ta: Tv, b: TermV, pb: EnumPunctation, tb: Tv) -> Option<(TermV, Tv)> {
    if pa != EnumPunctation::QUESTION || pb != EnumPunctation::JUGEMENT {
        None
    } else {
        match a {
            TermV::Stmt(Copula::IMPL, _, apred) => match unify_spec(*apred, b, seq![]) {
                Some(s) => Some((subst_spec(a, s), tb)),
                None => None,
            },
            _ => None,
        }
    }
}

/// A conclusion as a sequence of zero or one element.
pub open spec fn opt_seq(o: Option<(TermV, Tv)>) -> Seq<(TermV, Tv)> {
    match o {
        Some(x) => seq![x],
        None => seq![],
    }
}

/// Conclusions of all rules with `a` as first and `b` as second premise, in rule order.
pub open spec fn inf_inner_spec(a: TermV, pa: EnumPunctation, ta: Tv, b: TermV, pb: EnumPunctation, tb: Tv) -> Seq<(TermV, Tv)> {
    opt_seq(inf0_spec(a, pa, ta, b, pb, tb))
    + opt_seq(inf1_spec(a, pa, ta, b, pb, tb))
    + opt_seq(inf3_spec(a, pa, ta, b, pb, tb))
    + opt_seq(inf4_spec(a, pa, ta, b, pb, tb))
    + opt_seq(inf5_spec(a, pa, ta, b, pb, tb, 0))
    + opt_seq(inf5_spec(a, pa, ta, b, pb, tb, 1))
    + opt_seq(inf6_spec(a, pa, ta, b, pb, tb))
    + opt_seq(inf7_spec(a, pa, ta, b, pb, tb))
    + opt_seq(inf2_spec(a, pa, ta))
}

/// Conclusions of both orderings of the premises.
pub open spec fn inf_binary_spec(a: TermV, pa: EnumPunctation, ta: Tv, b: TermV, pb: EnumPunctation, tb: Tv) -> Seq<(TermV, Tv)> {
    inf_inner_spec(a, pa, ta, b, pb, tb) + inf_inner_spec(b, pb, tb, a, pa, ta)
}

fn containsTerm(v: &Vec<Box<Term>>, t: &Term) -> (r: bool)
    ensures
        r == children_view(*v).contains(t@),
{
    let mut i: usize = 0;
    while i < v.len()
        invariant
            i <= v.len(),
            forall|j: int| 0 <= j < i ==> term_view(*v[j]) != t@,
        decreases v.len() - i,
    {
        if checkEqTerm(&v[i], t) {
            assert(children_view(*v)[i as int] == t@);
            return true;
        }
        i = i + 1;
    }
    false
}

fn setUnion(a: &Vec<Box<Term>>, b: &Vec<Box<Term>>) -> (r: Vec<Box<Term>>)
    ensures
        children_view(r) == sort_terms(set_union(children_view(*a), children_view(*b))),
{
    let mut u: Vec<Box<Term>> = cloneChildren(a);
    let ghost cb = children_view(*b);
    let mut i: usize = 0;
    assert(cb.subrange(0, 0) =~= seq![]);
    while i < b.len()
        invariant
            i <= b.len(),
            cb == children_view(*b),
            children_view(u) == set_union(children_view(*a), cb.subrange(0, i as int)),
        decreases b.len() - i,
    {
        proof {
            assert(cb.subrange(0, i + 1).subrange(0, i as int) =~= cb.subrange(0, i as int));
            assert(cb.subrange(0, i + 1)[i as int] == cb[i as int]);
        }
        if !containsTerm(&u, &b[i]) {
            let ghost before = children_view(u);
            let c = (*b[i]).clone();
            u.push(Box::new(c));
            assert(children_view(u) =~= before.push(cb[i as int]));
        }
        i = i + 1;
    }
    assert(cb.subrange(0, b.len() as int) =~= cb);
    sortChildren(&u)
}

/// No term occurs twice.
pub open spec fn no_dup(s: Seq<TermV>) -> bool {
    forall|i: int, j: int| 0 <= i < j < s.len() ==> s[i] != s[j]
}

proof fn lemma_union_no_dup(a: Seq<TermV>, b: Seq<TermV>)
    requires
        no_dup(a),
    ensures
        no_dup(set_union(a, b)),
    decreases b.len(),
{
    if b.len() > 0 {
        let p = b.subrange(0, b.len() - 1);
        lemma_union_no_dup(a, p);
        let u = set_union(a, p);
        let x = b[b.len() - 1];
        if !u.contains(x) {
            let v = u.push(x);
            assert forall|i: int, j: int| 0 <= i < j < v.len() implies v[i] != v[j] by {
                if j == v.len() - 1 && v[i] == v[j] {
                    assert(u[i] == x);
                }
            }
        }
    }
}

/// Set unions are canonical: the union of a set without repeats with any set has no repeats,
/// and its sorted form holds the same terms in non-decreasing order of their text.
pub proof fn law_union_canonical(a: Seq<TermV>, b: Seq<TermV>)
    requires
        no_dup(a),
    ensures
        no_dup(set_union(a, b)),
        sorted(sort_terms(set_union(a, b))),
        sort_terms(set_union(a, b)).to_multiset() =~= set_union(a, b).to_multiset(),
{
    lemma_union_no_dup(a, b);
    law_sort_terms(set_union(a, b));
}

/// Conversion: `a --> b.  |-  b --> a.`
pub fn inf2(a: &Term, punctA: EnumPunctation, aTv: &Tv) -> (r: Option<(Term, Tv)>)
    requires
        aTv.wf(),
    ensures
        opt_view(r) == inf2_spec(a@, punctA, *aTv),
        r is Some ==> (r->0).1.wf(),
{
    if punctA != EnumPunctation::JUGEMENT {
        return None;
    }
    match a {
        Term::Stmt(Copula::INH, asubj, apred) => {
            Some((Term::Stmt(Copula::INH, Box::new((**apred).clone()), Box::new((**asubj).clone())), convTv(aTv)))
        },
        _ => None,
    }
}

/// Deduction over inheritance: `a --> x.  x --> b.  |-  a --> b.`
pub fn inf0(a: &Term, punctA: EnumPunctation, aTv: &Tv, b: &Term, punctB: EnumPunctation, bTv: &Tv) -> (r: Option<(Term, Tv)>)
    requires
        aTv.wf(),
        bTv.wf(),
    ensures
        opt_view(r) == inf0_spec(a@, punctA, *aTv, b@, punctB, *bTv),
        r is Some ==> (r->0).1.wf(),
{
    if punctA != EnumPunctation::JUGEMENT || punctB != EnumPunctation::JUGEMENT {
        return None;
    }
    match a {
        Term::Stmt(Copula::INH, asubj, apred) => match b {
            Term::Stmt(Copula::INH, bsubj, bpred) => {
                if !checkEqTerm(asubj, bpred) && checkEqTerm(apred, bsubj) {
                    return Some((Term::Stmt(Copula::INH, Box::new((**asubj).clone()), Box::new((**bpred).clone())), ded(aTv, bTv)));
                }
                None
            },
            _ => None,
        },
        _ => None,
    }
}

/// Deduction over implication: `a ==> x.  x ==> b.  |-  a ==> b.`
pub fn inf1(a: &Term, punctA: EnumPunctation, aTv: &Tv, b: &Term, punctB: EnumPunctation, bTv: &Tv) -> (r: Option<(Term, Tv)>)
    requires
        aTv.wf(),
        bTv.wf(),
    ensures
        opt_view(r) == inf1_spec(a@, punctA, *aTv, b@, punctB, *bTv),
        r is Some ==> (r->0).1.wf(),
{
    if punctA != EnumPunctation::JUGEMENT || punctB != EnumPunctation::JUGEMENT {
        return None;
    }
    match a {
        Term::Stmt(Copula::IMPL, asubj, apred) => match b {
            Term::Stmt(Copula::IMPL, bsubj, bpred) => {
                if checkEqTerm(apred, bsubj) {
                    return Some((Term::Stmt(Copula::IMPL, Box::new((**asubj).clone()), Box::new((**bpred).clone())), ded(aTv, bTv)));
                }
                None
            },
            _ => None,
        },
        _ => None,
    }
}

/// Union on the predicate: `x --> [a].  x --> [b].  |-  x --> [a b].`
pub fn inf3(a: &Term, punctA: EnumPunctation, aTv: &Tv, b: &Term, punctB: EnumPunctation, bTv: &Tv) -> (r: Option<(Term, Tv)>)
    requires
        aTv.wf(),
        bTv.wf(),
    ensures
        opt_view(r) == inf3_spec(a@, punctA, *aTv, b@, punctB, *bTv),
        r is Some ==> (r->0).1.wf(),
{
    proof {
        reveal_with_fuel(term_view, 2);
    }
    if punctA != EnumPunctation::JUGEMENT || punctB != EnumPunctation::JUGEMENT {
        return None;
    }
    match a {
        Term::Stmt(Copula::INH, asubj, apred2) => match &**apred2 {
            Term::SetInt(apred) => match b {
                Term::Stmt(Copula::INH, bsubj, bpred2) => match &**bpred2 {
                    Term::SetInt(bpred) => {
                        if checkEqTerm(asubj, bsubj) {
                            let union_ = setUnion(apred, bpred);
                            let resTerm = Term::SetInt(union_);
                            return Some((Term::Stmt(Copula::INH, Box::new((**asubj).clone()), Box::new(resTerm)), intersection(aTv, bTv)));
                        }
                        None
                    },
                    _ => None,
                },
                _ => None,
            },
            _ => None,
        },
        _ => None,
    }
}

/// Union on the subject: `{a} --> x.  {b} --> x.  |-  {a b} --> x.`
pub fn inf4(a: &Term, punctA: EnumPunctation, aTv: &Tv, b: &Term, punctB: EnumPunctation, bTv: &Tv) -> (r: Option<(Term, Tv)>)
    requires
        aTv.wf(),
        bTv.wf(),
    ensures
        opt_view(r) == inf4_spec(a@, punctA, *aTv, b@, punctB, *bTv),
        r is Some ==> (r->0).1.wf(),
{
    proof {
        reveal_with_fuel(term_view, 2);
    }
    if punctA != EnumPunctation::JUGEMENT || punctB != EnumPunctation::JUGEMENT {
        return None;
    }
    match a {
        Term::Stmt(Copula::INH, asubj2, apred) => match &**asubj2 {
            Term::SetExt(asubj) => match b {
                Term::Stmt(Copula::INH, bsubj2, bpred) => match &**bsubj2 {
                    Term::SetExt(bsubj) => {
                        if checkEqTerm(apred, bpred) {
                            let union_ = setUnion(asubj, bsubj);
                            let resTerm = Term::SetExt(union_);
                            return Some((Term::Stmt(Copula::INH, Box::new(resTerm), Box::new((**apred).clone())), intersection(aTv, bTv)));
                        }
                        None
                    },
                    _ => None,
                },
                _ => None,
            },
            _ => None,
        },
        _ => None,
    }
}

/// Conjunction elimination: `(p && q) ==> r.  p'.  |-  q' ==> r.` (`idx` picks the eliminated member)
pub fn inf5(a: &Term, punctA: EnumPunctation, aTv: &Tv, b: &Term, punctB: EnumPunctation, bTv: &Tv, idx: usize) -> (r: Option<(Term, Tv)>)
    requires
        aTv.wf(),
        bTv.wf(),
        idx <= 1,
    ensures
        opt_view(r) == inf5_spec(a@, punctA, *aTv, b@, punctB, *bTv, idx as int),
        r is Some ==> (r->0).1.wf(),
{
    proof {
        reveal_with_fuel(term_view, 2);
    }
    if punctA != EnumPunctation::JUGEMENT || punctB != EnumPunctation::JUGEMENT {
        return None;
    }
    match a {
        Term::Stmt(Copula::IMPL, aconj, apred) => match &**aconj {
            Term::Conj(arr) => {
                if arr.len() == 2 {
                    assert(children_view(*arr)[idx as int] == arr[idx as int]@);
                    assert(children_view(*arr)[1 - idx] == arr[1 - idx]@);
                    match unify(&arr[idx], b) {
                        Some(asg) => {
                            let subst = unifySubst(&arr[1 - idx], &asg);
                            assert(unify_spec(children_view(*arr)[idx as int], b@, seq![]) is Some);
                            assert(a@ == TermV::Stmt(Copula::IMPL, Box::new(TermV::Conj(children_view(*arr))), Box::new(apred@)));
                            Some((Term::Stmt(Copula::IMPL, Box::new(subst), Box::new((**apred).clone())), ded(aTv, bTv)))
                        },
                        None => {
                            assert(unify_spec(children_view(*arr)[idx as int], b@, seq![]) is None);
                            None
                        },
                    }
                } else {
                    None
                }
            },
            _ => None,
        },
        _ => None,
    }
}

/// Detachment: `a ==> x.  a'.  |-  x'.`
pub fn inf6(a: &Term, punctA: EnumPunctation, aTv: &Tv, b: &Term, punctB: EnumPunctation, bTv: &Tv) -> (r: Option<(Term, Tv)>)
    requires
        aTv.wf(),
        bTv.wf(),
    ensures
        opt_view(r) == inf6_spec(a@, punctA, *aTv, b@, punctB, *bTv),
        r is Some ==> (r->0).1.wf(),
{
    if punctA != EnumPunctation::JUGEMENT || punctB != EnumPunctation::JUGEMENT {
        return None;
    }
    match a {
        Term::Stmt(Copula::IMPL, asubj, apred) => match unify(asubj, b) {
            Some(asg) => Some((unifySubst(apred, &asg), ded(aTv, bTv))),
            None => None,
        },
        _ => None,
    }
}

/// Question-guided abduction: `a ==> x?  x'.  |-  (a ==> x)'.`
pub fn inf7(a: &Term, punctA: EnumPunctation, aTv: &Tv, b: &Term, punctB: EnumPunctation, bTv: &Tv) -> (r: Option<(Term, Tv)>)
    requires
        aTv.wf(),
        bTv.wf(),
    ensures
        opt_view(r) == inf7_spec(a@, punctA, *aTv, b@, punctB, *bTv),
        r is Some ==> (r->0).1.wf(),
{
    if punctA != EnumPunctation::QUESTION || punctB != EnumPunctation::JUGEMENT {
        return None;
    }
    match a {
        Term::Stmt(Copula::IMPL, _, apred) => match unify(apred, b) {
            Some(asg) => Some((unifySubst(a, &asg), *bTv)),
            None => None,
        },
        _ => None,
    }
}

fn pushOpt(res: &mut Vec<(Term, Tv)>, o: Option<(Term, Tv)>, wereRulesApplied: &mut bool)
    requires
        forall|i: int| 0 <= i < old(res).len() ==> (#[trigger] old(res)[i]).1.wf(),
        o is Some ==> (o->0).1.wf(),
    ensures
        forall|i: int| 0 <= i < final(res).len() ==> (#[trigger] final(res)[i]).1.wf(),
        concl_view(final(res)@) == concl_view(old(res)@) + opt_seq(opt_view(o)),
        *final(wereRulesApplied) == (*old(wereRulesApplied) || o is Some),
{
    let ghost before = concl_view(res@);
    match o {
        Some(x) => {
            res.push(x);
            *wereRulesApplied = true;
            assert(concl_view(res@) =~= before + opt_seq(opt_view(o)));
        },
        None => {
            assert(concl_view(res@) =~= before + opt_seq(opt_view(o)));
        },
    }
}

/// All rules with `a` as first and `b` as second premise.
pub fn infBinaryInner(a: &Term, aPunct: EnumPunctation, aTv: &Tv, b: &Term, bPunct: EnumPunctation, bTv: &Tv, wereRulesApplied: &mut bool) -> (r: Vec<(Term, Tv)>)
    requires
        aTv.wf(),
        bTv.wf(),
    ensures
        concl_view(r@) == inf_inner_spec(a@, aPunct, *aTv, b@, bPunct, *bTv),
        *final(wereRulesApplied) == (*old(wereRulesApplied) || r.len() > 0),
        forall|i: int| 0 <= i < r.len() ==> (#[trigger] r[i]).1.wf(),
{
    let mut res: Vec<(Term, Tv)> = Vec::new();
    let ghost w0 = *wereRulesApplied;
    assert(concl_view(res@) =~= seq![]);
    pushOpt(&mut res, inf0(a, aPunct, aTv, b, bPunct, bTv), wereRulesApplied);
    pushOpt(&mut res, inf1(a, aPunct, aTv, b, bPunct, bTv), wereRulesApplied);
    pushOpt(&mut res, inf3(a, aPunct, aTv, b, bPunct, bTv), wereRulesApplied);
    pushOpt(&mut res, inf4(a, aPunct, aTv, b, bPunct, bTv), wereRulesApplied);
    pushOpt(&mut res, inf5(a, aPunct, aTv, b, bPunct, bTv, 0), wereRulesApplied);
    pushOpt(&mut res, inf5(a, aPunct, aTv, b, bPunct, bTv, 1), wereRulesApplied);
    pushOpt(&mut res, inf6(a, aPunct, aTv, b, bPunct, bTv), wereRulesApplied);
    pushOpt(&mut res, inf7(a, aPunct, aTv, b, bPunct, bTv), wereRulesApplied);
    pushOpt(&mut res, inf2(a, aPunct, aTv), wereRulesApplied);
    assert(concl_view(res@) =~= inf_inner_spec(a@, aPunct, *aTv, b@, bPunct, *bTv));
    assert(*wereRulesApplied == (w0 || concl_view(res@).len() > 0));
    res
}

/// All rules, with both orderings of the premises.
pub fn infBinary(a: &Term, aPunct: EnumPunctation, aTv: &Tv, b: &Term, bPunct: EnumPunctation, bTv: &Tv, wereRulesApplied: &mut bool) -> (r: Vec<(Term, Tv)>)
    requires
        aTv.wf(),
        bTv.wf(),
    ensures
        concl_view(r@) == inf_binary_spec(a@, aPunct, *aTv, b@, bPunct, *bTv),
        *final(wereRulesApplied) == (r.len() > 0),
        forall|i: int| 0 <= i < r.len() ==> (#[trigger] r[i]).1.wf(),
{
    *wereRulesApplied = false;
    let mut res = infBinaryInner(a, aPunct, aTv, b, bPunct, bTv, wereRulesApplied);
    let mut res2 = infBinaryInner(b, bPunct, bTv, a, aPunct, aTv, wereRulesApplied);
    let ghost v1 = concl_view(res@);
    let ghost v2 = concl_view(res2@);
    res.append(&mut res2);
    assert(concl_view(res@) =~= v1 + v2);
    res
}

/// Swapping the premises leaves the conclusions, counted with multiplicity, unchanged.
pub proof fn law_inference_symmetric(a: TermV, pa: EnumPunctation, ta: Tv, b: TermV, pb: EnumPunctation, tb: Tv)
    ensures
        inf_binary_spec(a, pa, ta, b, pb, tb).to_multiset() == inf_binary_spec(b, pb, tb, a, pa, ta).to_multiset(),
{
    vstd::seq_lib::lemma_seq_union_to_multiset_commutative(inf_inner_spec(a, pa, ta, b, pb, tb), inf_inner_spec(b, pb, tb, a, pa, ta));
}

/// Truth value of a sentence whose evidence is a truth value.
pub open spec fn tv_of(s: SentenceDummy) -> Tv {
    match s.evi {
        Evidence::TV(tv) => tv,
        Evidence::CNT { .. } => Tv { f: 0, c: 0 },
    }
}

/// The sentence carries a well-formed truth value.
pub open spec fn has_tv(s: SentenceDummy) -> bool {
    s.evi is TV && tv_of(s).wf()
}

fn retTv(s: &SentenceDummy) -> (r: Tv)
    requires
        has_tv(*s),
    ensures
        r == tv_of(*s),
{
    match s.evi {
        Evidence::TV(tv) => tv,
        Evidence::CNT { .. } => Tv { f: 0, c: 0 },
    }
}

/// The conclusions `r` of inference on `pa` and `pb`: those of all rules in both orderings, as
/// judgments with the merged stamp; none where the premises' stamps overlap.
pub open spec fn inference_post(pa: SentenceDummy, pb: SentenceDummy, r: Seq<SentenceDummy>) -> bool {
    let c = inf_binary_spec(pa.term@, pa.punct, tv_of(pa), pb.term@, pb.punct, tv_of(pb));
    &&& overlap_spec(pa.stamp.evi@, pb.stamp.evi@) ==> r.len() == 0
    &&& !overlap_spec(pa.stamp.evi@, pb.stamp.evi@) ==> r.len() == c.len()
    &&& forall|i: int| 0 <= i < r.len() ==> {
        &&& (#[trigger] r[i]).term@ == c[i].0
        &&& r[i].evi == Evidence::TV(c[i].1)
        &&& r[i].punct == EnumPunctation::JUGEMENT
        &&& r[i].stamp.evi@ == merge_spec(pa.stamp.evi@, pb.stamp.evi@)
        &&& r[i].t is None
        &&& r[i].expDt is None
        &&& has_tv(r[i])
    }
}

/// Inference on two sentences: the conclusions of all rules in both orderings, as judgments
/// with the merged stamp; none where the premises' stamps overlap.
pub fn inference(pa: &SentenceDummy, pb: &SentenceDummy, wereRulesApplied: &mut bool) -> (r: Vec<SentenceDummy>)
    requires
        has_tv(*pa),
        has_tv(*pb),
    ensures
        *final(wereRulesApplied) == (inf_binary_spec(pa.term@, pa.punct, tv_of(*pa), pb.term@, pb.punct, tv_of(*pb)).len() > 0),
        inference_post(*pa, *pb, r@),
{
    let aTv = retTv(pa);
    let bTv = retTv(pb);
    let infConcl = infBinary(&pa.term, pa.punct, &aTv, &pb.term, pb.punct, &bTv, wereRulesApplied);
    let mut concl: Vec<SentenceDummy> = Vec::new();
    if checkOverlap(&pa.stamp, &pb.stamp) {
        return concl;
    }
    let ghost c = concl_view(infConcl@);
    let mut i: usize = 0;
    while i < infConcl.len()
        invariant
            i <= infConcl.len(),
            c == concl_view(infConcl@),
            concl.len() == i,
            forall|k: int| 0 <= k < i ==> {
                &&& (#[trigger] concl[k]).term@ == c[k].0
                &&& concl[k].evi == Evidence::TV(c[k].1)
                &&& concl[k].punct == EnumPunctation::JUGEMENT
                &&& concl[k].stamp.evi@ == merge_spec(pa.stamp.evi@, pb.stamp.evi@)
                &&& concl[k].t is None
                &&& concl[k].expDt is None
                &&& has_tv(concl[k])
            },
            forall|k: int| 0 <= k < infConcl.len() ==> (#[trigger] infConcl[k]).1.wf(),
        decreases infConcl.len() - i,
    {
        let term = infConcl[i].0.clone();
        let tv = infConcl[i].1;
        concl.push(SentenceDummy {
            term,
            punct: EnumPunctation::JUGEMENT,
            stamp: merge(&pa.stamp, &pb.stamp),
            evi: Evidence::TV(tv),
            t: None,
            expDt: None,
        });
        i = i + 1;
    }
    concl
}

}
