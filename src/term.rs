use vstd::prelude::*;

verus! {

broadcast use vstd::std_specs::vec::group_vec_axioms;

/// Binary relation connecting the subject and the predicate of a statement.
#[derive(PartialEq, Eq, Structural, Hash, Copy, Clone, Debug)]
pub enum Copula {
    /// `<->` similarity
    SIM,
    /// `-->` inheritance
    INH,
    /// `=/>` predictive implication
    PREDIMPL,
    /// `==>` implication
    IMPL,
    /// `<=>` equivalence
    EQUIV,
}

/// A term of the reasoner's language.
#[derive(Hash, Debug)]
pub enum Term {
    /// statement, ex: `<a --> b>`
    Stmt(Copula, Box<Term>, Box<Term>),
    Name(String),
    /// temporal sequence `&/`
    Sequence(Vec<Box<Term>>),
    /// intensional set `[..]`
    SetInt(Vec<Box<Term>>),
    /// extensional set `{..}`
    SetExt(Vec<Box<Term>>),
    /// query variable `?`
    QVar(String),
    /// dependent variable `#`
    DepVar(String),
    /// independent variable `$`
    IndepVar(String),
    /// conjunction `&&`
    Conj(Vec<Box<Term>>),
    /// product `*`
    Prod(Vec<Box<Term>>),
    /// intensional intersection `|`
    IntInt(Vec<Box<Term>>),
}

/// Mathematical value of a term: names as character sequences, children as sequences.
pub enum TermV {
    Stmt(Copula, Box<TermV>, Box<TermV>),
    Name(Seq<char>),
    Sequence(Seq<TermV>),
    SetInt(Seq<TermV>),
    SetExt(Seq<TermV>),
    QVar(Seq<char>),
    DepVar(Seq<char>),
    IndepVar(Seq<char>),
    Conj(Seq<TermV>),
    Prod(Seq<TermV>),
    IntInt(Seq<TermV>),
}

pub open spec fn term_view(t: Term) -> TermV
    decreases t,
{
    match t {
        Term::Stmt(c, s, p) => TermV::Stmt(c, Box::new(term_view(*s)), Box::new(term_view(*p))),
        Term::Name(n) => TermV::Name(n@),
        Term::Sequence(v) => TermV::Sequence(children_view(v)),
        Term::SetInt(v) => TermV::SetInt(children_view(v)),
        Term::SetExt(v) => TermV::SetExt(children_view(v)),
        Term::QVar(n) => TermV::QVar(n@),
        Term::DepVar(n) => TermV::DepVar(n@),
        Term::IndepVar(n) => TermV::IndepVar(n@),
        Term::Conj(v) => TermV::Conj(children_view(v)),
        Term::Prod(v) => TermV::Prod(children_view(v)),
        Term::IntInt(v) => TermV::IntInt(children_view(v)),
    }
}

/// The views of a list of child terms.
pub open spec fn children_view(v: Vec<Box<Term>>) -> Seq<TermV>
    decreases v,
{
    Seq::new(v@.len(), |i: int| if 0 <= i < v.len() { term_view(*v[i]) } else { TermV::Name(seq![]) })
}


impl View for Term {
    type V = TermV;

    open spec fn view(&self) -> TermV {
        term_view(*self)
    }
}

pub(crate) fn cloneChildren(v: &Vec<Box<Term>>) -> (r: Vec<Box<Term>>)
    ensures
        children_view(r) == children_view(*v),
    decreases *v,
{
    let mut arr: Vec<Box<Term>> = Vec::new();
    let mut i: usize = 0;
    while i < v.len()
        invariant
            i <= v.len(),
            arr.len() == i,
            forall|j: int| 0 <= j < i ==> term_view(*arr[j]) == term_view(*v[j]),
        decreases v.len() - i,
    {
        proof {
            assert(decreases_to!(*v => v[i as int]));
        }
        let c = cloneTerm(&v[i]);
        arr.push(Box::new(c));
        i = i + 1;
    }
    assert(children_view(arr) =~= children_view(*v));
    arr
}

fn cloneTerm(t: &Term) -> (r: Term)
    ensures
        r@ == t@,
    decreases *t,
{
    match t {
        Term::Stmt(copula, subj, pred) => {
            let s = cloneTerm(subj);
            let p = cloneTerm(pred);
            Term::Stmt(*copula, Box::new(s), Box::new(p))
        },
        Term::Name(name) => Term::Name(name.clone()),
        Term::Sequence(v) => Term::Sequence(cloneChildren(v)),
        Term::SetInt(v) => Term::SetInt(cloneChildren(v)),
        Term::SetExt(v) => Term::SetExt(cloneChildren(v)),
        Term::QVar(name) => Term::QVar(name.clone()),
        Term::DepVar(name) => Term::DepVar(name.clone()),
        Term::IndepVar(name) => Term::IndepVar(name.clone()),
        Term::Conj(v) => Term::Conj(cloneChildren(v)),
        Term::Prod(v) => Term::Prod(cloneChildren(v)),
        Term::IntInt(v) => Term::IntInt(cloneChildren(v)),
    }
}

impl Clone for Term {
    /// Deep copy: the copy has the same value as `self`.
    fn clone(&self) -> (r: Term)
        ensures
            r@ == self@,
    {
        cloneTerm(self)
    }
}


fn eqChildren(a: &Vec<Box<Term>>, b: &Vec<Box<Term>>) -> (r: bool)
    ensures
        r == (children_view(*a) == children_view(*b)),
    decreases *a,
{
    if a.len() != b.len() {
        assert(children_view(*a).len() != children_view(*b).len());
        return false;
    }
    let mut idx: usize = 0;
    while idx < a.len()
        invariant
            idx <= a.len(),
            a.len() == b.len(),
            forall|j: int| 0 <= j < idx ==> term_view(*a[j]) == term_view(*b[j]),
        decreases a.len() - idx,
    {
        proof {
            assert(decreases_to!(*a => a[idx as int]));
        }
        if !checkEqTerm(&a[idx], &b[idx]) {
            assert(children_view(*a)[idx as int] != children_view(*b)[idx as int]);
            return false;
        }
        idx = idx + 1;
    }
    assert(children_view(*a) =~= children_view(*b));
    true
}

/// Deep structural equality of two terms.
pub fn checkEqTerm(a: &Term, b: &Term) -> (r: bool)
    ensures
        r == (a@ == b@),
    decreases *a,
{
    match a {
        Term::Stmt(copulaa, subja, preda) => match b {
            Term::Stmt(copulab, subjb, predb) => {
                *copulaa == *copulab && checkEqTerm(subja, subjb) && checkEqTerm(preda, predb)
            },
            _ => false,
        },
        Term::Name(namea) => match b {
            Term::Name(nameb) => *namea == *nameb,
            _ => false,
        },
        Term::Sequence(va) => match b {
            Term::Sequence(vb) => eqChildren(va, vb),
            _ => false,
        },
        Term::SetInt(va) => match b {
            Term::SetInt(vb) => eqChildren(va, vb),
            _ => false,
        },
        Term::SetExt(va) => match b {
            Term::SetExt(vb) => eqChildren(va, vb),
            _ => false,
        },
        Term::QVar(namea) => match b {
            Term::QVar(nameb) => *namea == *nameb,
            _ => false,
        },
        Term::DepVar(namea) => match b {
            Term::DepVar(nameb) => *namea == *nameb,
            _ => false,
        },
        Term::IndepVar(namea) => match b {
            Term::IndepVar(nameb) => *namea == *nameb,
            _ => false,
        },
        Term::Conj(va) => match b {
            Term::Conj(vb) => eqChildren(va, vb),
            _ => false,
        },
        Term::Prod(va) => match b {
            Term::Prod(vb) => eqChildren(va, vb),
            _ => false,
        },
        Term::IntInt(va) => match b {
            Term::IntInt(vb) => eqChildren(va, vb),
            _ => false,
        },
    }
}

/// The children of a compound term (empty for atoms; subject and predicate for statements).
pub open spec fn children(t: TermV) -> Seq<TermV> {
    match t {
        TermV::Stmt(_, s, p) => seq![*s, *p],
        TermV::Sequence(v) => v,
        TermV::SetInt(v) => v,
        TermV::SetExt(v) => v,
        TermV::Conj(v) => v,
        TermV::Prod(v) => v,
        TermV::IntInt(v) => v,
        _ => seq![],
    }
}

/// The term followed by all its descendants, in pre-order.
pub open spec fn subterms(t: TermV) -> Seq<TermV>
    decreases t,
{
    match t {
        TermV::Stmt(_, s, p) => seq![t] + subterms(*s) + subterms(*p),
        TermV::Sequence(v) => seq![t] + subterms_list(v),
        TermV::SetInt(v) => seq![t] + subterms_list(v),
        TermV::SetExt(v) => seq![t] + subterms_list(v),
        TermV::Conj(v) => seq![t] + subterms_list(v),
        TermV::Prod(v) => seq![t] + subterms_list(v),
        TermV::IntInt(v) => seq![t] + subterms_list(v),
        _ => seq![t],
    }
}

/// The subterms of each term of `v`, one after the other.
pub open spec fn subterms_list(v: Seq<TermV>) -> Seq<TermV>
    decreases v,
{
    if v.len() == 0 {
        seq![]
    } else {
        subterms_list(v.subrange(0, v.len() - 1)) + subterms(v[v.len() - 1])
    }
}

/// The values of a list of terms.
pub open spec fn terms_view(v: Seq<Term>) -> Seq<TermV> {
    v.map_values(|x: Term| x@)
}

fn retSubtermsChildren(v: &Vec<Box<Term>>, res: &mut Vec<Term>)
    ensures
        terms_view(final(res)@) == terms_view(old(res)@) + subterms_list(children_view(*v)),
    decreases *v,
{
    let ghost start = terms_view(res@);
    let mut i: usize = 0;
    while i < v.len()
        invariant
            i <= v.len(),
            terms_view(res@) == start + subterms_list(children_view(*v).subrange(0, i as int)),
        decreases v.len() - i,
    {
        proof {
            assert(decreases_to!(*v => v[i as int]));
        }
        let ghost before = terms_view(res@);
        retSubterms2(&v[i], res);
        proof {
            let cv = children_view(*v);
            assert(cv.subrange(0, i + 1).subrange(0, i as int) =~= cv.subrange(0, i as int));
            assert(terms_view(res@) =~= before + subterms(cv[i as int]));
        }
        i = i + 1;
    }
    assert(children_view(*v).subrange(0, v.len() as int) =~= children_view(*v));
}

fn retSubterms2(t: &Term, res: &mut Vec<Term>)
    ensures
        terms_view(final(res)@) == terms_view(old(res)@) + subterms(t@),
    decreases *t,
{
    let ghost start = terms_view(res@);
    res.push(t.clone());
    assert(terms_view(res@) =~= start + seq![t@]);
    match t {
        Term::Stmt(_, subj, pred) => {
            retSubterms2(subj, res);
            retSubterms2(pred, res);
            assert(terms_view(res@) =~= start + subterms(t@));
        },
        Term::Sequence(v) => {
            retSubtermsChildren(v, res);
            assert(terms_view(res@) =~= start + subterms(t@));
        },
        Term::SetInt(v) => {
            retSubtermsChildren(v, res);
            assert(terms_view(res@) =~= start + subterms(t@));
        },
        Term::SetExt(v) => {
            retSubtermsChildren(v, res);
            assert(terms_view(res@) =~= start + subterms(t@));
        },
        Term::Conj(v) => {
            retSubtermsChildren(v, res);
            assert(terms_view(res@) =~= start + subterms(t@));
        },
        Term::Prod(v) => {
            retSubtermsChildren(v, res);
            assert(terms_view(res@) =~= start + subterms(t@));
        },
        Term::IntInt(v) => {
            retSubtermsChildren(v, res);
            assert(terms_view(res@) =~= start + subterms(t@));
        },
        _ => {},
    }
}

/// The term and all its descendants, in pre-order.
pub fn retSubterms(t: &Term) -> (r: Vec<Term>)
    ensures
        terms_view(r@) == subterms(t@),
{
    let mut res: Vec<Term> = Vec::new();
    assert(terms_view(res@) =~= seq![]);
    retSubterms2(t, &mut res);
    assert(terms_view(res@) =~= subterms(t@));
    res
}

/// Every term is among its own subterms (the first of them).
pub proof fn law_subterms_contain_term(t: TermV)
    ensures
        subterms(t).len() > 0,
        subterms(t)[0] == t,
        subterms(t).contains(t),
{
    assert(subterms(t)[0] == t);
}

/// Size of a term: 1 for atoms, the sum over the children for compounds, plus 1 for statements.
pub open spec fn complexity(t: TermV) -> nat
    decreases t,
{
    match t {
        TermV::Stmt(_, s, p) => 1 + complexity(*s) + complexity(*p),
        TermV::Sequence(v) => complexity_list(v),
        TermV::SetInt(v) => complexity_list(v),
        TermV::SetExt(v) => complexity_list(v),
        TermV::Conj(v) => complexity_list(v),
        TermV::Prod(v) => complexity_list(v),
        TermV::IntInt(v) => complexity_list(v),
        _ => 1,
    }
}

/// Sum of the complexities of the terms of `v`.
pub open spec fn complexity_list(v: Seq<TermV>) -> nat
    decreases v,
{
    if v.len() == 0 {
        0
    } else {
        complexity_list(v.subrange(0, v.len() - 1)) + complexity(v[v.len() - 1])
    }
}

/// `x`, or `u64::MAX` where `x` does not fit.
pub open spec fn sat_u64(x: nat) -> u64 {
    if x <= u64::MAX {
        x as u64
    } else {
        u64::MAX
    }
}

fn calcComplexityChildren(v: &Vec<Box<Term>>) -> (r: u64)
    ensures
        r == sat_u64(complexity_list(children_view(*v))),
    decreases *v,
{
    let mut c: u64 = 0;
    let mut i: usize = 0;
    while i < v.len()
        invariant
            i <= v.len(),
            c == sat_u64(complexity_list(children_view(*v).subrange(0, i as int))),
        decreases v.len() - i,
    {
        proof {
            assert(decreases_to!(*v => v[i as int]));
        }
        let x = calcComplexity(&v[i]);
        proof {
            let cv = children_view(*v);
            assert(cv.subrange(0, i + 1).subrange(0, i as int) =~= cv.subrange(0, i as int));
        }
        c = c.saturating_add(x);
        i = i + 1;
    }
    assert(children_view(*v).subrange(0, v.len() as int) =~= children_view(*v));
    c
}

/// Complexity of a term (saturating at `u64::MAX`).
pub fn calcComplexity(t: &Term) -> (r: u64)
    ensures
        r == sat_u64(complexity(t@)),
    decreases *t,
{
    match t {
        Term::Stmt(_, subj, pred) => {
            let a = calcComplexity(subj);
            let b = calcComplexity(pred);
            1u64.saturating_add(a).saturating_add(b)
        },
        Term::Name(_) => 1,
        Term::Sequence(v) => calcComplexityChildren(v),
        Term::SetInt(v) => calcComplexityChildren(v),
        Term::SetExt(v) => calcComplexityChildren(v),
        Term::QVar(_) => 1,
        Term::DepVar(_) => 1,
        Term::IndepVar(_) => 1,
        Term::Conj(v) => calcComplexityChildren(v),
        Term::Prod(v) => calcComplexityChildren(v),
        Term::IntInt(v) => calcComplexityChildren(v),
    }
}


/// Text of a copula.
pub open spec fn copula_str(c: Copula) -> Seq<char> {
    match c {
        Copula::SIM => "<->"@,
        Copula::INH => "-->"@,
        Copula::PREDIMPL => "=/>"@,
        Copula::IMPL => "==>"@,
        Copula::EQUIV => "<=>"@,
    }
}

/// Narsese text of a term.
pub open spec fn term_str(t: TermV) -> Seq<char>
    decreases t,
{
    match t {
        TermV::Stmt(c, s, p) => "<"@ + term_str(*s) + " "@ + copula_str(c) + " "@ + term_str(*p) + ">"@,
        TermV::Name(n) => n,
        TermV::Sequence(v) => "( "@ + join_str(v, " &/ "@) + " )"@,
        TermV::SetInt(v) => "["@ + join_str(v, " "@) + "]"@,
        TermV::SetExt(v) => "{"@ + join_str(v, " "@) + "}"@,
        TermV::QVar(n) => "?"@ + n,
        TermV::DepVar(n) => "#"@ + n,
        TermV::IndepVar(n) => "$"@ + n,
        TermV::Conj(v) => "( "@ + join_str(v, " && "@) + " )"@,
        TermV::Prod(v) => "( "@ + join_str(v, " * "@) + " )"@,
        TermV::IntInt(v) => "( "@ + join_str(v, " | "@) + " )"@,
    }
}

/// The texts of the terms of `v`, with `sep` between each two.
pub open spec fn join_str(v: Seq<TermV>, sep: Seq<char>) -> Seq<char>
    decreases v,
{
    if v.len() == 0 {
        seq![]
    } else if v.len() == 1 {
        term_str(v[0])
    } else {
        join_str(v.subrange(0, v.len() - 1), sep) + sep + term_str(v[v.len() - 1])
    }
}

fn joinChildren(v: &Vec<Box<Term>>, sep: &str) -> (r: String)
    ensures
        r@ == join_str(children_view(*v), sep@),
    decreases *v,
{
    let mut inner = String::new();
    let mut i: usize = 0;
    while i < v.len()
        invariant
            i <= v.len(),
            inner@ == join_str(children_view(*v).subrange(0, i as int), sep@),
        decreases v.len() - i,
    {
        proof {
            assert(decreases_to!(*v => v[i as int]));
        }
        let x = convTermToStr(&v[i]);
        proof {
            let cv = children_view(*v);
            assert(cv.subrange(0, i + 1).subrange(0, i as int) =~= cv.subrange(0, i as int));
            assert(cv.subrange(0, i + 1)[i as int] == cv[i as int]);
        }
        if i == 0 {
            proof {
                assert(inner@ =~= seq![]);
            }
            inner = x;
        } else {
            inner.append(sep);
            inner.append(x.as_str());
        }
        i = i + 1;
    }
    assert(children_view(*v).subrange(0, v.len() as int) =~= children_view(*v));
    inner
}

fn wrapStr(open: &str, inner: String, close: &str) -> (r: String)
    ensures
        r@ == open@ + inner@ + close@,
{
    let mut r = String::from_str(open);
    r.append(inner.as_str());
    r.append(close);
    r
}

/// Narsese text of a term, ex: `<a --> b>`, `( x &/ y )`, `{SELF}`.
pub fn convTermToStr(t: &Term) -> (r: String)
    ensures
        r@ == term_str(t@),
    decreases *t,
{
    match t {
        Term::Stmt(copula, subj, pred) => {
            let subjStr = convTermToStr(subj);
            let predStr = convTermToStr(pred);
            let copStr = match copula {
                Copula::SIM => "<->",
                Copula::INH => "-->",
                Copula::PREDIMPL => "=/>",
                Copula::IMPL => "==>",
                Copula::EQUIV => "<=>",
            };
            let mut r = String::from_str("<");
            r.append(subjStr.as_str());
            r.append(" ");
            r.append(copStr);
            r.append(" ");
            r.append(predStr.as_str());
            r.append(">");
            r
        },
        Term::Name(name) => name.clone(),
        Term::Sequence(v) => wrapStr("( ", joinChildren(v, " &/ "), " )"),
        Term::SetInt(v) => wrapStr("[", joinChildren(v, " "), "]"),
        Term::SetExt(v) => wrapStr("{", joinChildren(v, " "), "}"),
        Term::QVar(name) => {
            let mut r = String::from_str("?");
            r.append(name.as_str());
            r
        },
        Term::DepVar(name) => {
            let mut r = String::from_str("#");
            r.append(name.as_str());
            r
        },
        Term::IndepVar(name) => {
            let mut r = String::from_str("$");
            r.append(name.as_str());
            r
        },
        Term::Conj(v) => wrapStr("( ", joinChildren(v, " && "), " )"),
        Term::Prod(v) => wrapStr("( ", joinChildren(v, " * "), " )"),
        Term::IntInt(v) => wrapStr("( ", joinChildren(v, " | "), " )"),
    }
}

}
