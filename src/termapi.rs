use vstd::prelude::*;

use crate::term::{Term, TermV, Copula, term_view, children_view};

verus! {

broadcast use vstd::std_specs::vec::group_vec_axioms;

/// A predictive implication `<(c &/ ...) =/> p>` whose subject is a sequence of at least `n` items.
pub open spec fn is_impl_seq(t: TermV, n: int) -> bool {
    match t {
        TermV::Stmt(Copula::PREDIMPL, s, _) => match *s {
            TermV::Sequence(v) => v.len() >= n,
            _ => false,
        },
        _ => false,
    }
}

/// The items of the subject sequence of a predictive implication.
pub open spec fn impl_seq_items(t: TermV) -> Seq<TermV> {
    match t {
        TermV::Stmt(Copula::PREDIMPL, s, _) => match *s {
            TermV::Sequence(v) => v,
            _ => seq![],
        },
        _ => seq![],
    }
}

/// The predicate of a statement.
pub open spec fn pred_of(t: TermV) -> TermV {
    match t {
        TermV::Stmt(_, _, p) => *p,
        _ => t,
    }
}

/// A predictive implication.
pub open spec fn is_predimpl(t: TermV) -> bool {
    t is Stmt && t->Stmt_0 == Copula::PREDIMPL
}

/// The subject of a statement.
pub open spec fn subj_of(t: TermV) -> TermV {
    match t {
        TermV::Stmt(_, s, _) => *s,
        _ => t,
    }
}

/// The condition of a predictive implication: the first item of its subject when that is a
/// non-empty sequence, else the whole subject.
pub open spec fn cond_of(t: TermV) -> TermV {
    if is_impl_seq(t, 1) { impl_seq_items(t)[0] } else { subj_of(t) }
}

/// Returns the condition of a predictive implication (see `cond_of`).
pub fn retCond(term: &Term) -> (r: Term)
    requires
        term@ is Stmt,
    ensures
        r@ == cond_of(term@),
{
    proof {
        reveal_with_fuel(term_view, 2);
    }
    match term {
        Term::Stmt(Copula::PREDIMPL, subj, _) => match &**subj {
            Term::Sequence(seq) => {
                assert(children_view(*seq).len() == seq.len());
                if seq.len() >= 1 {
                    assert(children_view(*seq)[0] == seq[0]@);
                    (*seq[0]).clone()
                } else {
                    (**subj).clone()
                }
            },
            _ => (**subj).clone(),
        },
        Term::Stmt(_, subj, _) => (**subj).clone(),
        _ => term.clone(),
    }
}

/// Builds a statement.
pub fn s(copula: Copula, subj: &Term, pred: &Term) -> (r: Term)
    ensures
        r@ == TermV::Stmt(copula, Box::new(subj@), Box::new(pred@)),
{
    Term::Stmt(copula, Box::new(subj.clone()), Box::new(pred.clone()))
}

/// Builds a sequence `( a &/ b &/ ... )`.
pub fn seq(items: &Vec<Term>) -> (r: Term)
    ensures
        r@ == TermV::Sequence(items@.map_values(|x: Term| x@)),
{
    let mut arr: Vec<Box<Term>> = Vec::new();
    let mut i: usize = 0;
    while i < items.len()
        invariant
            i <= items.len(),
            arr.len() == i,
            forall|j: int| 0 <= j < i ==> term_view(*arr[j]) == items[j]@,
        decreases items.len() - i,
    {
        arr.push(Box::new(items[i].clone()));
        i = i + 1;
    }
    assert(children_view(arr) =~= items@.map_values(|x: Term| x@));
    Term::Sequence(arr)
}

/// Returns the predicate of a predictive implication.
pub fn retPred(term: &Term) -> (r: Term)
    requires
        term@ is Stmt,
    ensures
        r@ == pred_of(term@),
{
    match term {
        Term::Stmt(_, _, pred) => (**pred).clone(),
        _ => term.clone(),
    }
}

/// Returns the operation (second item) of the subject sequence of a predictive implication.
pub fn retImplSeqOp(term: &Term) -> (r: Term)
    requires
        is_impl_seq(term@, 2),
    ensures
        r@ == impl_seq_items(term@)[1],
{
    proof {
        reveal_with_fuel(term_view, 2);
    }
    match term {
        Term::Stmt(Copula::PREDIMPL, subj, _) => match &**subj {
            Term::Sequence(seq) => {
                assert(children_view(*seq).len() == seq.len());
                assert(children_view(*seq)[1] == seq[1]@);
                (*seq[1]).clone()
            },
            _ => term.clone(),
        },
        _ => term.clone(),
    }
}

/// Returns the second item of a sequence.
pub fn retSeqOp(term: &Term) -> (r: Term)
    requires
        term@ is Sequence,
        children_of_seq(term@).len() >= 2,
    ensures
        r@ == children_of_seq(term@)[1],
{
    match term {
        Term::Sequence(seq) => {
            assert(children_view(*seq).len() == seq.len());
            assert(children_view(*seq)[1] == seq[1]@);
            (*seq[1]).clone()
        },
        _ => term.clone(),
    }
}

/// The items of a sequence.
pub open spec fn children_of_seq(t: TermV) -> Seq<TermV> {
    match t {
        TermV::Sequence(v) => v,
        _ => seq![],
    }
}

/// Returns the condition (first item) of the subject sequence of a predictive implication.
pub fn retSeqCond(term: &Term) -> (r: Term)
    requires
        is_impl_seq(term@, 1),
    ensures
        r@ == impl_seq_items(term@)[0],
{
    proof {
        reveal_with_fuel(term_view, 2);
    }
    match term {
        Term::Stmt(Copula::PREDIMPL, subj, _) => match &**subj {
            Term::Sequence(seq) => {
                assert(children_view(*seq).len() == seq.len());
                assert(children_view(*seq)[0] == seq[0]@);
                (*seq[0]).clone()
            },
            _ => term.clone(),
        },
        _ => term.clone(),
    }
}

/// Arguments and name of an operation `<{(arg0 * arg1 * ...)} --> ^name>` (at least one argument).
pub open spec fn decode_spec(t: TermV) -> Option<(Seq<TermV>, Seq<char>)> {
    match t {
        TermV::Stmt(Copula::INH, subj, pred) => match (*subj, *pred) {
            (TermV::SetExt(s2), TermV::Name(n)) => {
                if s2.len() == 1 {
                    match s2[0] {
                        TermV::Prod(args) => if args.len() >= 1 { Some((args, n)) } else { None },
                        _ => None,
                    }
                } else {
                    None
                }
            },
            _ => None,
        },
        _ => None,
    }
}

/// Values of a list of terms.
pub open spec fn list_view(v: Seq<Term>) -> Seq<TermV> {
    v.map_values(|x: Term| x@)
}

/// Decodes an operation into its arguments and name; `None` if the term has another shape.
pub fn decodeOp(term: &Term) -> (r: Option<(Vec<Term>, String)>)
    ensures
        match r {
            Some((args, name)) => decode_spec(term@) == Some((list_view(args@), name@)),
            None => decode_spec(term@) is None,
        },
{
    proof {
        reveal_with_fuel(term_view, 3);
    }
    match term {
        Term::Stmt(Copula::INH, subj, pred) => match &**pred {
            Term::Name(predName) => match &**subj {
                Term::SetExt(subj2) => {
                    if subj2.len() != 1 {
                        return None;
                    }
                    assert(children_view(*subj2)[0] == subj2[0]@);
                    match &*subj2[0] {
                        Term::Prod(args) => {
                            if args.len() < 1 {
                                return None;
                            }
                            let mut res: Vec<Term> = Vec::new();
                            let mut i: usize = 0;
                            while i < args.len()
                                invariant
                                    i <= args.len(),
                                    res.len() == i,
                                    forall|j: int| 0 <= j < i ==> res[j]@ == term_view(*args[j]),
                                decreases args.len() - i,
                            {
                                res.push((*args[i]).clone());
                                i = i + 1;
                            }
                            assert(list_view(res@) =~= children_view(*args));
                            Some((res, predName.clone()))
                        },
                        _ => None,
                    }
                },
                _ => None,
            },
            _ => None,
        },
        _ => None,
    }
}

/// The operation term calling `name` with `args`.
pub open spec fn encode_spec(args: Seq<TermV>, name: Seq<char>) -> TermV {
    TermV::Stmt(Copula::INH, Box::new(TermV::SetExt(seq![TermV::Prod(args)])), Box::new(TermV::Name(name)))
}

/// Encodes an operation call as the term `<{(arg0 * arg1 * ...)} --> name>`.
pub fn encodeOp(args: &Vec<Term>, name: &String) -> (r: Term)
    ensures
        r@ == encode_spec(list_view(args@), name@),
{
    let mut arr: Vec<Box<Term>> = Vec::new();
    let mut i: usize = 0;
    while i < args.len()
        invariant
            i <= args.len(),
            arr.len() == i,
            forall|j: int| 0 <= j < i ==> term_view(*arr[j]) == args[j]@,
        decreases args.len() - i,
    {
        arr.push(Box::new(args[i].clone()));
        i = i + 1;
    }
    assert(children_view(arr) =~= list_view(args@));
    let argProd = Term::Prod(arr);
    let ghost pv = argProd@;
    assert(pv == TermV::Prod(list_view(args@)));
    let set = vec![Box::new(argProd)];
    assert(children_view(set) =~= seq![pv]);
    let setTerm = Term::SetExt(set);
    assert(setTerm@ == TermV::SetExt(seq![pv]));
    let nameTerm = Term::Name(name.clone());
    assert(nameTerm@ == TermV::Name(name@));
    let ghost sv = setTerm@;
    let r = Term::Stmt(Copula::INH, Box::new(setTerm), Box::new(nameTerm));
    assert(r@ == TermV::Stmt(Copula::INH, Box::new(sv), Box::new(TermV::Name(name@))));
    r
}

/// Decoding an encoded operation gives back its arguments and name.
pub proof fn law_decode_encode(args: Seq<TermV>, name: Seq<char>)
    requires
        args.len() >= 1,
    ensures
        decode_spec(encode_spec(args, name)) == Some((args, name)),
{
}

/// Index of the last table entry before the first entry (from index 1 on) that exceeds `interval`;
/// the last index when there is none.
pub open spec fn min_table_idx_ok(interval: i64, table: Seq<i64>, r: int) -> bool {
    &&& -1 <= r < table.len()
    &&& (table.len() > 0 ==> r >= 0)
    &&& forall|j: int| 1 <= j <= r ==> table[j] <= interval
    &&& r + 1 < table.len() ==> table[r + 1] > interval
}

/// Finds the exponential-interval index of a time difference.
pub fn findMinTableIdx(interval: i64, expIntervalsTable: &Vec<i64>) -> (r: i64)
    requires
        expIntervalsTable.len() <= i64::MAX,
    ensures
        min_table_idx_ok(interval, expIntervalsTable@, r as int),
{
    let mut idx: usize = 1;
    while idx < expIntervalsTable.len()
        invariant
            1 <= idx,
            expIntervalsTable.len() <= i64::MAX,
            forall|j: int| 1 <= j < idx && j < expIntervalsTable.len() ==> expIntervalsTable[j] <= interval,
        decreases expIntervalsTable.len() - idx,
    {
        if expIntervalsTable[idx] > interval {
            return idx as i64 - 1;
        }
        idx = idx + 1;
    }
    expIntervalsTable.len() as i64 - 1
}

}
