use vstd::prelude::*;

use crate::term::{Term, TermV, term_view, children_view, checkEqTerm, subterms, subterms_list, children, law_subterms_contain_term};

verus! {

broadcast use vstd::std_specs::vec::group_vec_axioms;

/// A variable together with the value it is bound to.
pub struct Asgnment {
    pub var: Term,
    pub val: Term,
}

/// Query, dependent and independent variables.
pub open spec fn is_var(t: TermV) -> bool {
    t is QVar || t is DepVar || t is IndepVar
}

/// An assignment table as a sequence of (variable, value) pairs.
pub open spec fn asg_view(s: Seq<Asgnment>) -> Seq<(TermV, TermV)> {
    s.map_values(|x: Asgnment| (x.var@, x.val@))
}

/// The value of the first binding of `v` in the table.
pub open spec fn lookup(s: Seq<(TermV, TermV)>, v: TermV) -> Option<TermV>
    decreases s.len(),
{
    if s.len() == 0 {
        None
    } else if s[0].0 == v {
        Some(s[0].1)
    } else {
        lookup(s.subrange(1, s.len() as int), v)
    }
}

/// Walks `a` against `b`, extending the table `asg`: a variable of `a` binds the
/// non-variable term at the same place in `b`, or must meet the value it already has;
/// everything else must agree constructor by constructor.
pub open spec fn unify_spec(a: TermV, b: TermV, asg: Seq<(TermV, TermV)>) -> Option<Seq<(TermV, TermV)>>
    decreases a,
{
    if is_var(a) {
        if is_var(b) {
            None
        } else {
            match lookup(asg, a) {
                Some(v) => if v == b { Some(asg) } else { None },
                None => Some(asg.push((a, b))),
            }
        }
    } else {
        match (a, b) {
            (TermV::Stmt(ca, sa, pa), TermV::Stmt(cb, sb, pb)) => {
                if ca == cb {
                    match unify_spec(*sa, *sb, asg) {
                        Some(asg1) => unify_spec(*pa, *pb, asg1),
                        None => None,
                    }
                } else {
                    None
                }
            },
            (TermV::Name(na), TermV::Name(nb)) => if na == nb { Some(asg) } else { None },
            (TermV::Sequence(va), TermV::Sequence(vb)) => unify_list(va, vb, asg),
            (TermV::SetInt(va), TermV::SetInt(vb)) => unify_list(va, vb, asg),
            (TermV::SetExt(va), TermV::SetExt(vb)) => unify_list(va, vb, asg),
            (TermV::Conj(va), TermV::Conj(vb)) => unify_list(va, vb, asg),
            (TermV::Prod(va), TermV::Prod(vb)) => unify_list(va, vb, asg),
            (TermV::IntInt(va), TermV::IntInt(vb)) => unify_list(va, vb, asg),
            _ => None,
        }
    }
}

/// Element-wise unification of two lists of equal length, left to right.
pub open spec fn unify_list(va: Seq<TermV>, vb: Seq<TermV>, asg: Seq<(TermV, TermV)>) -> Option<Seq<(TermV, TermV)>>
    decreases va,
{
    if va.len() != vb.len() {
        None
    } else if va.len() == 0 {
        Some(asg)
    } else {
        let n = va.len() - 1;
        match unify_list(va.subrange(0, n), vb.subrange(0, n), asg) {
            Some(asg1) => unify_spec(va[n], vb[n], asg1),
            None => None,
        }
    }
}

/// `t` with each variable bound in `s` replaced by its value.
pub open spec fn subst_spec(t: TermV, s: Seq<(TermV, TermV)>) -> TermV
    decreases t,
{
    if is_var(t) {
        match lookup(s, t) {
            Some(v) => v,
            None => t,
        }
    } else {
        match t {
            TermV::Stmt(c, subj, pred) => TermV::Stmt(c, Box::new(subst_spec(*subj, s)), Box::new(subst_spec(*pred, s))),
            TermV::Sequence(v) => TermV::Sequence(subst_list(v, s)),
            TermV::SetInt(v) => TermV::SetInt(subst_list(v, s)),
            TermV::SetExt(v) => TermV::SetExt(subst_list(v, s)),
            TermV::Conj(v) => TermV::Conj(subst_list(v, s)),
            TermV::Prod(v) => TermV::Prod(subst_list(v, s)),
            TermV::IntInt(v) => TermV::IntInt(subst_list(v, s)),
            _ => t,
        }
    }
}

/// Substitution applied to each term of a list.
pub open spec fn subst_list(v: Seq<TermV>, s: Seq<(TermV, TermV)>) -> Seq<TermV>
    decreases v,
{
    Seq::new(v.len(), |i: int| if 0 <= i < v.len() { subst_spec(v[i], s) } else { v[0] })
}

fn isVar(t: &Term) -> (r: bool)
    ensures
        r == is_var(t@),
{
    match t {
        Term::QVar(_) => true,
        Term::DepVar(_) => true,
        Term::IndepVar(_) => true,
        _ => false,
    }
}

proof fn lemma_lookup_skip(s: Seq<(TermV, TermV)>, v: TermV, i: int)
    requires
        0 <= i < s.len(),
        s[i].0 != v,
    ensures
        lookup(s.subrange(i, s.len() as int), v) == lookup(s.subrange(i + 1, s.len() as int), v),
{
    let t = s.subrange(i, s.len() as int);
    assert(t.subrange(1, t.len() as int) =~= s.subrange(i + 1, s.len() as int));
}

/// Index of the first binding of `var`, if any.
fn findAssigned(var: &Term, assignments: &Vec<Asgnment>) -> (r: Option<usize>)
    ensures
        match r {
            Some(i) => i < assignments.len() && lookup(asg_view(assignments@), var@) == Some(assignments@[i as int].val@),
            None => lookup(asg_view(assignments@), var@) is None,
        },
{
    let ghost s = asg_view(assignments@);
    let mut i: usize = 0;
    assert(s.subrange(0, s.len() as int) =~= s);
    while i < assignments.len()
        invariant
            i <= assignments.len(),
            s == asg_view(assignments@),
            lookup(s, var@) == lookup(s.subrange(i as int, s.len() as int), var@),
        decreases assignments.len() - i,
    {
        if checkEqTerm(&assignments[i].var, var) {
            let ghost t = s.subrange(i as int, s.len() as int);
            assert(t[0] == s[i as int]);
            return Some(i);
        }
        proof {
            lemma_lookup_skip(s, var@, i as int);
        }
        i = i + 1;
    }
    None
}

/// Is the variable already bound in the table?
fn checkAssigned(var: &Term, assignments: &Vec<Asgnment>) -> (r: bool)
    ensures
        r == (lookup(asg_view(assignments@), var@) is Some),
{
    findAssigned(var, assignments).is_some()
}

/// Is the variable bound to `val` (by its first binding)?
fn checkSameVal(var: &Term, val: &Term, assignments: &Vec<Asgnment>) -> (r: bool)
    ensures
        r == (lookup(asg_view(assignments@), var@) == Some(val@)),
{
    match findAssigned(var, assignments) {
        Some(i) => checkEqTerm(&assignments[i].val, val),
        None => false,
    }
}

fn unifyChildren(va: &Vec<Box<Term>>, vb: &Vec<Box<Term>>, assignments: &mut Vec<Asgnment>) -> (r: bool)
    ensures
        r == (unify_list(children_view(*va), children_view(*vb), asg_view(old(assignments)@)) is Some),
        r ==> unify_list(children_view(*va), children_view(*vb), asg_view(old(assignments)@)) == Some(asg_view(final(assignments)@)),
    decreases *va,
{
    let ghost cva = children_view(*va);
    let ghost cvb = children_view(*vb);
    let ghost start = asg_view(assignments@);
    if va.len() != vb.len() {
        return false;
    }
    let mut idx: usize = 0;
    assert(cva.subrange(0, 0) =~= seq![]);
    assert(cvb.subrange(0, 0) =~= seq![]);
    while idx < va.len()
        invariant
            idx <= va.len(),
            va.len() == vb.len(),
            cva == children_view(*va),
            cvb == children_view(*vb),
            start == asg_view(old(assignments)@),
            unify_list(cva.subrange(0, idx as int), cvb.subrange(0, idx as int), start) == Some(asg_view(assignments@)),
        decreases va.len() - idx,
    {
        proof {
            assert(decreases_to!(*va => va[idx as int]));
            assert(cva.subrange(0, idx + 1).subrange(0, idx as int) =~= cva.subrange(0, idx as int));
            assert(cvb.subrange(0, idx + 1).subrange(0, idx as int) =~= cvb.subrange(0, idx as int));
        }
        if !unify2(&va[idx], &vb[idx], assignments) {
            proof {
                let a2 = cva.subrange(0, idx + 1);
                let b2 = cvb.subrange(0, idx + 1);
                assert(a2[idx as int] == cva[idx as int]);
                assert(b2[idx as int] == cvb[idx as int]);
                assert(unify_list(a2, b2, start) is None);
                lemma_unify_list_prefix_fails(cva, cvb, start, idx as int + 1);
            }
            return false;
        }
        idx = idx + 1;
    }
    assert(cva.subrange(0, va.len() as int) =~= cva);
    assert(cvb.subrange(0, vb.len() as int) =~= cvb);
    true
}

proof fn lemma_unify_list_prefix_fails(va: Seq<TermV>, vb: Seq<TermV>, asg: Seq<(TermV, TermV)>, k: int)
    requires
        va.len() == vb.len(),
        0 <= k <= va.len(),
        unify_list(va.subrange(0, k), vb.subrange(0, k), asg) is None,
    ensures
        unify_list(va, vb, asg) is None,
    decreases va.len() - k,
{
    if k < va.len() {
        let a2 = va.subrange(0, k + 1);
        let b2 = vb.subrange(0, k + 1);
        assert(a2.subrange(0, k) =~= va.subrange(0, k));
        assert(b2.subrange(0, k) =~= vb.subrange(0, k));
        lemma_unify_list_prefix_fails(va, vb, asg, k + 1);
    } else {
        assert(va.subrange(0, k) =~= va);
        assert(vb.subrange(0, k) =~= vb);
    }
}

fn unify2(a2: &Term, b2: &Term, assignments: &mut Vec<Asgnment>) -> (r: bool)
    ensures
        r == (unify_spec(a2@, b2@, asg_view(old(assignments)@)) is Some),
        r ==> unify_spec(a2@, b2@, asg_view(old(assignments)@)) == Some(asg_view(final(assignments)@)),
    decreases *a2,
{
    if isVar(a2) {
        if isVar(b2) {
            return false;
        }
        if checkAssigned(a2, assignments) {
            return checkSameVal(a2, b2, assignments);
        } else {
            let ghost before = assignments@;
            assignments.push(Asgnment { var: a2.clone(), val: b2.clone() });
            assert(asg_view(assignments@) =~= asg_view(before).push((a2@, b2@)));
            return true;
        }
    }
    match a2 {
        Term::Stmt(copulaa, subja, preda) => match b2 {
            Term::Stmt(copulab, subjb, predb) => {
                if *copulaa != *copulab {
                    return false;
                }
                if !unify2(subja, subjb, assignments) {
                    return false;
                }
                unify2(preda, predb, assignments)
            },
            _ => false,
        },
        Term::Name(namea) => match b2 {
            Term::Name(nameb) => *namea == *nameb,
            _ => false,
        },
        Term::Sequence(va) => match b2 {
            Term::Sequence(vb) => unifyChildren(va, vb, assignments),
            _ => false,
        },
        Term::SetInt(va) => match b2 {
            Term::SetInt(vb) => unifyChildren(va, vb, assignments),
            _ => false,
        },
        Term::SetExt(va) => match b2 {
            Term::SetExt(vb) => unifyChildren(va, vb, assignments),
            _ => false,
        },
        Term::Conj(va) => match b2 {
            Term::Conj(vb) => unifyChildren(va, vb, assignments),
            _ => false,
        },
        Term::Prod(va) => match b2 {
            Term::Prod(vb) => unifyChildren(va, vb, assignments),
            _ => false,
        },
        Term::IntInt(va) => match b2 {
            Term::IntInt(vb) => unifyChildren(va, vb, assignments),
            _ => false,
        },
        _ => false,
    }
}

/// Tries to unify `a` with `b`; on success returns the table of bindings of the variables of `a`.
pub fn unify(a: &Term, b: &Term) -> (r: Option<Vec<Asgnment>>)
    ensures
        match r {
            Some(s) => unify_spec(a@, b@, seq![]) == Some(asg_view(s@)),
            None => unify_spec(a@, b@, seq![]) is None,
        },
{
    let mut assignments: Vec<Asgnment> = Vec::new();
    assert(asg_view(assignments@) =~= seq![]);
    if unify2(a, b, &mut assignments) {
        return Some(assignments);
    }
    None
}

fn substChildren(v: &Vec<Box<Term>>, subst: &Vec<Asgnment>) -> (r: Vec<Box<Term>>)
    ensures
        children_view(r) == subst_list(children_view(*v), asg_view(subst@)),
    decreases *v,
{
    let mut arr: Vec<Box<Term>> = Vec::new();
    let mut i: usize = 0;
    while i < v.len()
        invariant
            i <= v.len(),
            arr.len() == i,
            forall|j: int| 0 <= j < i ==> term_view(*arr[j]) == subst_spec(term_view(*v[j]), asg_view(subst@)),
        decreases v.len() - i,
    {
        proof {
            assert(decreases_to!(*v => v[i as int]));
        }
        let c = unifySubst(&v[i], subst);
        arr.push(Box::new(c));
        i = i + 1;
    }
    assert(children_view(arr) =~= subst_list(children_view(*v), asg_view(subst@)));
    arr
}

/// Replaces each variable of `t` that the table binds by its value.
pub fn unifySubst(t: &Term, subst: &Vec<Asgnment>) -> (r: Term)
    ensures
        r@ == subst_spec(t@, asg_view(subst@)),
    decreases *t,
{
    if isVar(t) {
        return match findAssigned(t, subst) {
            Some(i) => subst[i].val.clone(),
            None => t.clone(),
        };
    }
    match t {
        Term::Stmt(copula, subj, pred) => Term::Stmt(*copula, Box::new(unifySubst(subj, subst)), Box::new(unifySubst(pred, subst))),
        Term::Sequence(v) => Term::Sequence(substChildren(v, subst)),
        Term::SetInt(v) => Term::SetInt(substChildren(v, subst)),
        Term::SetExt(v) => Term::SetExt(substChildren(v, subst)),
        Term::Conj(v) => Term::Conj(substChildren(v, subst)),
        Term::Prod(v) => Term::Prod(substChildren(v, subst)),
        Term::IntInt(v) => Term::IntInt(substChildren(v, subst)),
        _ => t.clone(),
    }
}


/// `s` is a prefix of `t`.
pub open spec fn is_prefix(s: Seq<(TermV, TermV)>, t: Seq<(TermV, TermV)>) -> bool {
    s.len() <= t.len() && t.subrange(0, s.len() as int) == s
}

proof fn lemma_prefix_trans(s1: Seq<(TermV, TermV)>, s2: Seq<(TermV, TermV)>, s3: Seq<(TermV, TermV)>)
    requires
        is_prefix(s1, s2),
        is_prefix(s2, s3),
    ensures
        is_prefix(s1, s3),
{
    assert forall|i: int| 0 <= i < s1.len() implies s3.subrange(0, s1.len() as int)[i] == s1[i] by {
        assert(s3.subrange(0, s2.len() as int)[i] == s2[i]);
        assert(s2.subrange(0, s1.len() as int)[i] == s1[i]);
    }
    assert(s3.subrange(0, s1.len() as int) =~= s1);
}

proof fn lemma_lookup_prefix(s: Seq<(TermV, TermV)>, t: Seq<(TermV, TermV)>, v: TermV)
    requires
        is_prefix(s, t),
        lookup(s, v) is Some,
    ensures
        lookup(t, v) == lookup(s, v),
    decreases s.len(),
{
    assert(t.subrange(0, s.len() as int)[0] == t[0]);
    if s[0].0 != v {
        let s1 = s.subrange(1, s.len() as int);
        let t1 = t.subrange(1, t.len() as int);
        assert forall|i: int| 0 <= i < s1.len() implies t1.subrange(0, s1.len() as int)[i] == s1[i] by {
            assert(t.subrange(0, s.len() as int)[i + 1] == s[i + 1]);
        }
        assert(t1.subrange(0, s1.len() as int) =~= s1);
        lemma_lookup_prefix(s1, t1, v);
    }
}

proof fn lemma_lookup_push_new(s: Seq<(TermV, TermV)>, v: TermV, b: TermV)
    requires
        lookup(s, v) is None,
    ensures
        lookup(s.push((v, b)), v) == Some(b),
    decreases s.len(),
{
    let p = s.push((v, b));
    if s.len() > 0 {
        assert(p[0] == s[0]);
        assert(p.subrange(1, p.len() as int) =~= s.subrange(1, s.len() as int).push((v, b)));
        lemma_lookup_push_new(s.subrange(1, s.len() as int), v, b);
    } else {
        assert(p[0] == (v, b));
    }
}

proof fn lemma_lookup_has_key(s: Seq<(TermV, TermV)>, v: TermV) -> (i: int)
    requires
        lookup(s, v) is Some,
    ensures
        0 <= i < s.len(),
        s[i].0 == v,
    decreases s.len(),
{
    if s[0].0 == v {
        0
    } else {
        let j = lemma_lookup_has_key(s.subrange(1, s.len() as int), v);
        j + 1
    }
}

proof fn lemma_contains_concat(s1: Seq<TermV>, s2: Seq<TermV>, x: TermV)
    requires
        s1.contains(x) || s2.contains(x),
    ensures
        (s1 + s2).contains(x),
{
    if s1.contains(x) {
        let i = choose|i: int| 0 <= i < s1.len() && s1[i] == x;
        assert((s1 + s2)[i] == x);
    } else {
        let i = choose|i: int| 0 <= i < s2.len() && s2[i] == x;
        assert((s1 + s2)[s1.len() + i] == x);
    }
}

proof fn lemma_subterms_list_contains(v: Seq<TermV>, i: int, x: TermV)
    requires
        0 <= i < v.len(),
        subterms(v[i]).contains(x),
    ensures
        subterms_list(v).contains(x),
    decreases v.len(),
{
    let n = v.len() - 1;
    let pre = v.subrange(0, n);
    if i == n {
        lemma_contains_concat(subterms_list(pre), subterms(v[n]), x);
    } else {
        assert(pre[i] == v[i]);
        lemma_subterms_list_contains(pre, i, x);
        lemma_contains_concat(subterms_list(pre), subterms(v[n]), x);
    }
}

proof fn lemma_subterms_child(t: TermV, x: TermV)
    requires
        match t {
            TermV::Stmt(_, s, p) => subterms(*s).contains(x) || subterms(*p).contains(x),
            TermV::Sequence(v) => subterms_list(v).contains(x),
            TermV::SetInt(v) => subterms_list(v).contains(x),
            TermV::SetExt(v) => subterms_list(v).contains(x),
            TermV::Conj(v) => subterms_list(v).contains(x),
            TermV::Prod(v) => subterms_list(v).contains(x),
            TermV::IntInt(v) => subterms_list(v).contains(x),
            _ => false,
        },
    ensures
        subterms(t).contains(x),
{
    match t {
        TermV::Stmt(_, s, p) => {
            lemma_contains_concat(subterms(*s), subterms(*p), x);
            lemma_contains_concat(seq![t], subterms(*s) + subterms(*p), x);
            assert(seq![t] + subterms(*s) + subterms(*p) =~= seq![t] + (subterms(*s) + subterms(*p)));
        },
        TermV::Sequence(v) => lemma_contains_concat(seq![t], subterms_list(v), x),
        TermV::SetInt(v) => lemma_contains_concat(seq![t], subterms_list(v), x),
        TermV::SetExt(v) => lemma_contains_concat(seq![t], subterms_list(v), x),
        TermV::Conj(v) => lemma_contains_concat(seq![t], subterms_list(v), x),
        TermV::Prod(v) => lemma_contains_concat(seq![t], subterms_list(v), x),
        TermV::IntInt(v) => lemma_contains_concat(seq![t], subterms_list(v), x),
        _ => {},
    }
}

/// The facts that a successful unification of `a` against `b` establishes on the table it returns.
pub open spec fn unify_result_ok(a: TermV, b: TermV, asg: Seq<(TermV, TermV)>, r: Seq<(TermV, TermV)>) -> bool {
    &&& is_prefix(asg, r)
    &&& forall|t: Seq<(TermV, TermV)>| is_prefix(r, t) ==> #[trigger] subst_spec(a, t) == b
    &&& forall|i: int| asg.len() <= i < r.len() ==> is_var(#[trigger] r[i].0) && subterms(a).contains(r[i].0)
}

/// The same facts for element-wise unification of two lists.
pub open spec fn unify_list_result_ok(va: Seq<TermV>, vb: Seq<TermV>, asg: Seq<(TermV, TermV)>, r: Seq<(TermV, TermV)>) -> bool {
    &&& is_prefix(asg, r)
    &&& forall|t: Seq<(TermV, TermV)>| is_prefix(r, t) ==> #[trigger] subst_list(va, t) == vb
    &&& forall|i: int| asg.len() <= i < r.len() ==> is_var(#[trigger] r[i].0) && subterms_list(va).contains(r[i].0)
}

proof fn lemma_prefix_refl(s: Seq<(TermV, TermV)>)
    ensures
        is_prefix(s, s),
{
    assert(s.subrange(0, s.len() as int) =~= s);
}

proof fn lemma_unify_list_sound(va: Seq<TermV>, vb: Seq<TermV>, asg: Seq<(TermV, TermV)>)
    requires
        unify_list(va, vb, asg) is Some,
    ensures
        unify_list_result_ok(va, vb, asg, unify_list(va, vb, asg)->0),
    decreases va,
{
    let r = unify_list(va, vb, asg)->0;
    if va.len() == 0 {
        lemma_prefix_refl(asg);
        assert forall|t: Seq<(TermV, TermV)>| is_prefix(r, t) implies #[trigger] subst_list(va, t) == vb by {
            assert(subst_list(va, t) =~= vb);
        }
    } else {
        let n = va.len() - 1;
        let pa = va.subrange(0, n);
        let pb = vb.subrange(0, n);
        let r1 = unify_list(pa, pb, asg)->0;
        lemma_unify_list_sound(pa, pb, asg);
        lemma_unify_sound(va[n], vb[n], r1);
        lemma_prefix_trans(asg, r1, r);
        assert forall|t: Seq<(TermV, TermV)>| is_prefix(r, t) implies #[trigger] subst_list(va, t) == vb by {
            lemma_prefix_trans(r1, r, t);
            assert(subst_list(pa, t) == pb);
            assert forall|j: int| 0 <= j < va.len() implies subst_list(va, t)[j] == vb[j] by {
                if j < n {
                    assert(subst_list(pa, t)[j] == subst_spec(pa[j], t));
                    assert(pa[j] == va[j]);
                    assert(pb[j] == vb[j]);
                } else {
                    assert(subst_spec(va[n], t) == vb[n]);
                }
            }
            assert(subst_list(va, t) =~= vb);
        }
        assert forall|i: int| asg.len() <= i < r.len() implies is_var(#[trigger] r[i].0) && subterms_list(va).contains(r[i].0) by {
            assert(subterms_list(va) == subterms_list(pa) + subterms(va[n]));
            if i < r1.len() {
                assert(r.subrange(0, r1.len() as int)[i] == r1[i]);
                lemma_contains_concat(subterms_list(pa), subterms(va[n]), r[i].0);
            } else {
                lemma_contains_concat(subterms_list(pa), subterms(va[n]), r[i].0);
            }
        }
    }
}

proof fn lemma_unify_sound(a: TermV, b: TermV, asg: Seq<(TermV, TermV)>)
    requires
        unify_spec(a, b, asg) is Some,
    ensures
        unify_result_ok(a, b, asg, unify_spec(a, b, asg)->0),
    decreases a,
{
    let r = unify_spec(a, b, asg)->0;
    law_subterms_contain_term(a);
    if is_var(a) {
        match lookup(asg, a) {
            Some(v) => {
                lemma_prefix_refl(asg);
                assert forall|t: Seq<(TermV, TermV)>| is_prefix(r, t) implies #[trigger] subst_spec(a, t) == b by {
                    lemma_lookup_prefix(asg, t, a);
                }
            },
            None => {
                lemma_lookup_push_new(asg, a, b);
                assert(r.subrange(0, asg.len() as int) =~= asg);
                assert forall|t: Seq<(TermV, TermV)>| is_prefix(r, t) implies #[trigger] subst_spec(a, t) == b by {
                    lemma_lookup_prefix(r, t, a);
                }
                assert forall|i: int| asg.len() <= i < r.len() implies is_var(#[trigger] r[i].0) && subterms(a).contains(r[i].0) by {
                    assert(r[i] == (a, b));
                }
            },
        }
    } else {
        match (a, b) {
            (TermV::Stmt(ca, sa, pa), TermV::Stmt(cb, sb, pb)) => {
                let r1 = unify_spec(*sa, *sb, asg)->0;
                lemma_unify_sound(*sa, *sb, asg);
                lemma_unify_sound(*pa, *pb, r1);
                lemma_prefix_trans(asg, r1, r);
                assert forall|t: Seq<(TermV, TermV)>| is_prefix(r, t) implies #[trigger] subst_spec(a, t) == b by {
                    lemma_prefix_trans(r1, r, t);
                    assert(subst_spec(*sa, t) == *sb);
                    assert(subst_spec(*pa, t) == *pb);
                }
                assert forall|i: int| asg.len() <= i < r.len() implies is_var(#[trigger] r[i].0) && subterms(a).contains(r[i].0) by {
                    if i < r1.len() {
                        assert(r.subrange(0, r1.len() as int)[i] == r1[i]);
                    }
                    lemma_subterms_child(a, r[i].0);
                }
            },
            (TermV::Name(na), TermV::Name(nb)) => {
                lemma_prefix_refl(asg);
                assert forall|t: Seq<(TermV, TermV)>| is_prefix(r, t) implies #[trigger] subst_spec(a, t) == b by {}
            },
            (TermV::Sequence(va), TermV::Sequence(vb)) => {
                lemma_unify_list_sound(va, vb, asg);
                assert forall|t: Seq<(TermV, TermV)>| is_prefix(r, t) implies #[trigger] subst_spec(a, t) == b by {
                    assert(subst_list(va, t) == vb);
                }
                assert forall|i: int| asg.len() <= i < r.len() implies is_var(#[trigger] r[i].0) && subterms(a).contains(r[i].0) by {
                    lemma_subterms_child(a, r[i].0);
                }
            },
            (TermV::SetInt(va), TermV::SetInt(vb)) => {
                lemma_unify_list_sound(va, vb, asg);
                assert forall|t: Seq<(TermV, TermV)>| is_prefix(r, t) implies #[trigger] subst_spec(a, t) == b by {
                    assert(subst_list(va, t) == vb);
                }
                assert forall|i: int| asg.len() <= i < r.len() implies is_var(#[trigger] r[i].0) && subterms(a).contains(r[i].0) by {
                    lemma_subterms_child(a, r[i].0);
                }
            },
            (TermV::SetExt(va), TermV::SetExt(vb)) => {
                lemma_unify_list_sound(va, vb, asg);
                assert forall|t: Seq<(TermV, TermV)>| is_prefix(r, t) implies #[trigger] subst_spec(a, t) == b by {
                    assert(subst_list(va, t) == vb);
                }
                assert forall|i: int| asg.len() <= i < r.len() implies is_var(#[trigger] r[i].0) && subterms(a).contains(r[i].0) by {
                    lemma_subterms_child(a, r[i].0);
                }
            },
            (TermV::Conj(va), TermV::Conj(vb)) => {
                lemma_unify_list_sound(va, vb, asg);
                assert forall|t: Seq<(TermV, TermV)>| is_prefix(r, t) implies #[trigger] subst_spec(a, t) == b by {
                    assert(subst_list(va, t) == vb);
                }
                assert forall|i: int| asg.len() <= i < r.len() implies is_var(#[trigger] r[i].0) && subterms(a).contains(r[i].0) by {
                    lemma_subterms_child(a, r[i].0);
                }
            },
            (TermV::Prod(va), TermV::Prod(vb)) => {
                lemma_unify_list_sound(va, vb, asg);
                assert forall|t: Seq<(TermV, TermV)>| is_prefix(r, t) implies #[trigger] subst_spec(a, t) == b by {
                    assert(subst_list(va, t) == vb);
                }
                assert forall|i: int| asg.len() <= i < r.len() implies is_var(#[trigger] r[i].0) && subterms(a).contains(r[i].0) by {
                    lemma_subterms_child(a, r[i].0);
                }
            },
            (TermV::IntInt(va), TermV::IntInt(vb)) => {
                lemma_unify_list_sound(va, vb, asg);
                assert forall|t: Seq<(TermV, TermV)>| is_prefix(r, t) implies #[trigger] subst_spec(a, t) == b by {
                    assert(subst_list(va, t) == vb);
                }
                assert forall|i: int| asg.len() <= i < r.len() implies is_var(#[trigger] r[i].0) && subterms(a).contains(r[i].0) by {
                    lemma_subterms_child(a, r[i].0);
                }
            },
            _ => {},
        }
    }
}

proof fn lemma_subst_unbound(b: TermV, s: Seq<(TermV, TermV)>)
    requires
        forall|i: int| 0 <= i < s.len() ==> !subterms(b).contains(#[trigger] s[i].0),
    ensures
        subst_spec(b, s) == b,
    decreases b,
{
    law_subterms_contain_term(b);
    if is_var(b) {
        if lookup(s, b) is Some {
            let i = lemma_lookup_has_key(s, b);
        }
    } else {
        match b {
            TermV::Stmt(c, sb, pb) => {
                assert forall|i: int| 0 <= i < s.len() implies !subterms(*sb).contains(#[trigger] s[i].0) by {
                    if subterms(*sb).contains(s[i].0) {
                        lemma_subterms_child(b, s[i].0);
                    }
                }
                assert forall|i: int| 0 <= i < s.len() implies !subterms(*pb).contains(#[trigger] s[i].0) by {
                    if subterms(*pb).contains(s[i].0) {
                        lemma_subterms_child(b, s[i].0);
                    }
                }
                lemma_subst_unbound(*sb, s);
                lemma_subst_unbound(*pb, s);
            },
            TermV::Sequence(v) => lemma_subst_list_unbound(b, v, s),
            TermV::SetInt(v) => lemma_subst_list_unbound(b, v, s),
            TermV::SetExt(v) => lemma_subst_list_unbound(b, v, s),
            TermV::Conj(v) => lemma_subst_list_unbound(b, v, s),
            TermV::Prod(v) => lemma_subst_list_unbound(b, v, s),
            TermV::IntInt(v) => lemma_subst_list_unbound(b, v, s),
            _ => {},
        }
    }
}

proof fn lemma_subst_list_unbound(b: TermV, v: Seq<TermV>, s: Seq<(TermV, TermV)>)
    requires
        children(b) == v,
        !(b is Stmt),
        forall|i: int| 0 <= i < s.len() ==> !subterms(b).contains(#[trigger] s[i].0),
    ensures
        subst_list(v, s) == v,
    decreases b, 0nat,
{
    assert forall|j: int| 0 <= j < v.len() implies subst_list(v, s)[j] == v[j] by {
        assert forall|i: int| 0 <= i < s.len() implies !subterms(v[j]).contains(#[trigger] s[i].0) by {
            if subterms(v[j]).contains(s[i].0) {
                lemma_subterms_list_contains(v, j, s[i].0);
                lemma_subterms_child(b, s[i].0);
            }
        }
        lemma_subst_unbound(v[j], s);
    }
    assert(subst_list(v, s) =~= v);
}

/// Soundness of unification: when `unify(a, b)` returns a table and no variable of `b`
/// also occurs in `a`, substituting the table into `a` and into `b` gives the same term,
/// which is `b` itself.
pub proof fn law_unify_equalizes(a: TermV, b: TermV)
    requires
        unify_spec(a, b, seq![]) is Some,
        forall|v: TermV| is_var(v) && subterms(b).contains(v) ==> !subterms(a).contains(v),
    ensures
        subst_spec(a, unify_spec(a, b, seq![])->0) == subst_spec(b, unify_spec(a, b, seq![])->0),
        subst_spec(a, unify_spec(a, b, seq![])->0) == b,
{
    let r = unify_spec(a, b, seq![])->0;
    lemma_unify_sound(a, b, seq![]);
    lemma_prefix_refl(r);
    assert forall|i: int| 0 <= i < r.len() implies !subterms(b).contains(#[trigger] r[i].0) by {
        assert(is_var(r[i].0) && subterms(a).contains(r[i].0));
    }
    lemma_subst_unbound(b, r);
}

}
