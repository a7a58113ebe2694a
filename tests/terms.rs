use nar_core::inference::{inference, infBinary};
use nar_core::sentence::{EnumPunctation, SentenceDummy};
use nar_core::stamp::{checkOverlap, merge, newStamp};
use nar_core::term::{calcComplexity, checkEqTerm, convTermToStr, retSubterms, Copula, Term};
use nar_core::termapi::{decodeOp, encodeOp, findMinTableIdx, retPred, retSeqCond, retSeqOp, retImplSeqOp};
use nar_core::truth::{calcExp, convCntToTv, convTv, ded, intersection, revision, Evidence, Tv};
use nar_core::unify::{unify, unifySubst};

fn name(s: &str) -> Term {
    Term::Name(s.to_string())
}

fn stmt(c: Copula, a: Term, b: Term) -> Term {
    Term::Stmt(c, Box::new(a), Box::new(b))
}

fn inh(a: Term, b: Term) -> Term {
    stmt(Copula::INH, a, b)
}

fn tv(f: u64, c: u64) -> Tv {
    Tv { f, c }
}

fn judgment(t: Term, ids: Vec<i64>) -> SentenceDummy {
    SentenceDummy {
        term: t,
        punct: EnumPunctation::JUGEMENT,
        stamp: newStamp(&ids),
        evi: Evidence::TV(tv(10000, 9000)),
        t: None,
        expDt: None,
    }
}

#[test]
fn testManual1() {
    let a0 = name("a");
    let b0 = name("b");
    let inh0 = inh(a0, b0);

    let c0 = Term::IndepVar("c".to_string());
    let d0 = name("d");
    let inh1 = inh(c0, d0);

    let impl0 = stmt(Copula::IMPL, inh0, inh1);

    let c1 = name("c");
    let d1 = name("d");
    let inh2 = inh(c1, d1);

    println!("{}", &convTermToStr(&impl0));
    println!("{}", &convTermToStr(&inh2));
    println!("concl:");

    let mut success = false;

    let mut wereRulesApplied = false;
    let infConcl = infBinary(&impl0, EnumPunctation::QUESTION, &tv(10000, 9000), &inh2, EnumPunctation::JUGEMENT, &tv(10000, 9000), &mut wereRulesApplied);
    for iInfConcl in infConcl {
        let (conclTerm, _conclTv) = iInfConcl;
        let conclTermStr = convTermToStr(&conclTerm);
        println!("{}", &conclTermStr);
        if conclTermStr == "<<a --> b> ==> <c --> d>>" {
            success = true;
        }
    }

    assert_eq!(success, true);
}

#[test]
fn subterms_start_with_term_and_clone_is_equal() {
    let t = stmt(
        Copula::IMPL,
        Term::Conj(vec![Box::new(inh(name("a"), name("b"))), Box::new(Term::DepVar("x".to_string()))]),
        Term::SetExt(vec![Box::new(name("c"))]),
    );
    let subs = retSubterms(&t);
    assert!(checkEqTerm(&subs[0], &t));
    assert!(checkEqTerm(&t, &t.clone()));
    let strs: Vec<String> = subs.iter().map(|x| convTermToStr(x)).collect();
    assert_eq!(strs, vec!["<( <a --> b> && #x ) ==> {c}>", "( <a --> b> && #x )", "<a --> b>", "a", "b", "#x", "{c}", "c"]);
}

#[test]
fn structural_equality_distinguishes_kinds() {
    assert!(!checkEqTerm(&Term::DepVar("x".to_string()), &Term::IndepVar("x".to_string())));
    assert!(!checkEqTerm(&Term::Prod(vec![Box::new(name("a"))]), &Term::Conj(vec![Box::new(name("a"))])));
    assert!(!checkEqTerm(&inh(name("a"), name("b")), &stmt(Copula::SIM, name("a"), name("b"))));
    assert!(checkEqTerm(&inh(name("a"), name("b")), &inh(name("a"), name("b"))));
}

#[test]
fn complexity_values() {
    assert_eq!(calcComplexity(&name("a")), 1);
    assert_eq!(calcComplexity(&inh(name("a"), name("b"))), 3);
    let t = stmt(Copula::IMPL, Term::Conj(vec![Box::new(inh(name("a"), name("b"))), Box::new(name("c"))]), name("d"));
    assert_eq!(calcComplexity(&t), 6);
    assert_eq!(calcComplexity(&Term::Prod(vec![])), 0);
}

#[test]
fn printing_of_every_kind() {
    let items = vec![Box::new(name("a")), Box::new(name("b"))];
    assert_eq!(convTermToStr(&Term::Sequence(items.clone())), "( a &/ b )");
    assert_eq!(convTermToStr(&Term::Conj(items.clone())), "( a && b )");
    assert_eq!(convTermToStr(&Term::Prod(items.clone())), "( a * b )");
    assert_eq!(convTermToStr(&Term::IntInt(items.clone())), "( a | b )");
    assert_eq!(convTermToStr(&Term::SetExt(items.clone())), "{a b}");
    assert_eq!(convTermToStr(&Term::SetInt(items)), "[a b]");
    assert_eq!(convTermToStr(&Term::QVar("q".to_string())), "?q");
    assert_eq!(convTermToStr(&stmt(Copula::PREDIMPL, name("a"), name("b"))), "<a =/> b>");
    assert_eq!(convTermToStr(&stmt(Copula::EQUIV, name("a"), name("b"))), "<a <=> b>");
    assert_eq!(convTermToStr(&stmt(Copula::SIM, name("a"), name("b"))), "<a <-> b>");
}

#[test]
fn unify_then_substitute_gives_equal_terms() {
    let a = inh(Term::IndepVar("x".to_string()), Term::SetInt(vec![Box::new(Term::DepVar("y".to_string()))]));
    let b = inh(name("tweety"), Term::SetInt(vec![Box::new(name("yellow"))]));
    let s = unify(&a, &b).unwrap();
    assert_eq!(s.len(), 2);
    let sa = unifySubst(&a, &s);
    let sb = unifySubst(&b, &s);
    assert!(checkEqTerm(&sa, &sb));
    assert!(checkEqTerm(&sa, &b));
}

#[test]
fn unify_failures() {
    // variable against variable
    assert!(unify(&Term::IndepVar("x".to_string()), &Term::DepVar("y".to_string())).is_none());
    // a repeated variable must meet its first value
    let a = inh(Term::IndepVar("x".to_string()), Term::IndepVar("x".to_string()));
    assert!(unify(&a, &inh(name("a"), name("b"))).is_none());
    assert!(unify(&a, &inh(name("a"), name("a"))).is_some());
    // arity must match
    let prod2 = Term::Prod(vec![Box::new(Term::IndepVar("x".to_string())), Box::new(name("b"))]);
    let prod1 = Term::Prod(vec![Box::new(name("a"))]);
    assert!(unify(&prod2, &prod1).is_none());
}

#[test]
fn deduction_and_expectation_values() {
    let r = ded(&tv(10000, 9000), &tv(10000, 9000));
    assert_eq!(r, tv(10000, 8100));
    let r2 = ded(&tv(5000, 9000), &tv(8000, 5000));
    assert_eq!(r2, tv(4000, 1800));
    assert_eq!(calcExp(&tv(10000, 9000)), 9500);
    assert_eq!(calcExp(&tv(0, 10000)), 0);
    assert_eq!(calcExp(&tv(10000, 0)), 5000);
    assert_eq!(convCntToTv(1, 1), tv(10000, 5000));
    assert_eq!(convCntToTv(2, 3), tv(6666, 7500));
    assert_eq!(revision(&tv(10000, 9000), &tv(0, 9000)), tv(5000, 9473));
    assert_eq!(revision(&tv(10000, 0), &tv(0, 0)), tv(5000, 0));
    assert_eq!(intersection(&tv(5000, 9000), &tv(8000, 5000)), tv(4000, 4500));
    assert_eq!(convTv(&tv(10000, 9000)), tv(10000, 4736));
}

#[test]
fn stamps_overlap_and_merge() {
    let a = newStamp(&vec![1, 2, 3]);
    let b = newStamp(&vec![4, 3]);
    let c = newStamp(&vec![7]);
    assert!(checkOverlap(&a, &b));
    assert!(!checkOverlap(&a, &c));
    assert_eq!(merge(&a, &b).evi, vec![1, 2, 3, 4]);
    let big = newStamp(&(0..18).collect::<Vec<i64>>());
    let more = newStamp(&vec![100, 101, 102, 103]);
    let m = merge(&big, &more);
    assert_eq!(m.evi.len(), 20);
    assert_eq!(m.evi[0], 2);
    assert_eq!(m.evi[19], 103);
}

#[test]
fn operations_encode_and_decode() {
    let self_set = Term::SetExt(vec![Box::new(name("SELF"))]);
    let op = encodeOp(&vec![self_set.clone()], &"^left".to_string());
    assert_eq!(convTermToStr(&op), "<{( {SELF} )} --> ^left>");
    let (args, n) = decodeOp(&op).unwrap();
    assert_eq!(n, "^left");
    assert_eq!(args.len(), 1);
    assert!(checkEqTerm(&args[0], &self_set));
    assert!(decodeOp(&inh(name("a"), name("^b"))).is_none());
    assert!(decodeOp(&encodeOp(&vec![], &"^x".to_string())).is_none());
}

#[test]
fn implication_parts() {
    let op = encodeOp(&vec![Term::SetExt(vec![Box::new(name("SELF"))])], &"^op".to_string());
    let seq = Term::Sequence(vec![Box::new(name("x")), Box::new(op.clone())]);
    let rule = stmt(Copula::PREDIMPL, seq.clone(), name("y"));
    assert_eq!(convTermToStr(&retPred(&rule)), "y");
    assert_eq!(convTermToStr(&retSeqCond(&rule)), "x");
    assert!(checkEqTerm(&retImplSeqOp(&rule), &op));
    assert!(checkEqTerm(&retSeqOp(&seq), &op));
}

#[test]
fn interval_index_lookup() {
    let table = vec![1, 2, 3, 4, 6, 8, 10, 13, 17];
    assert_eq!(findMinTableIdx(1, &table), 0);
    assert_eq!(findMinTableIdx(5, &table), 3);
    assert_eq!(findMinTableIdx(6, &table), 4);
    assert_eq!(findMinTableIdx(100, &table), 8);
    assert_eq!(findMinTableIdx(0, &table), 0);
    assert_eq!(findMinTableIdx(3, &vec![]), -1);
}

#[test]
fn conclusions_invariant_under_swapping_premises() {
    let prem1 = inh(name("a"), name("b"));
    let prem2 = inh(name("b"), name("c"));
    let mut w = false;
    let c1: Vec<String> = infBinary(&prem1, EnumPunctation::JUGEMENT, &tv(10000, 9000), &prem2, EnumPunctation::JUGEMENT, &tv(9000, 8000), &mut w)
        .iter().map(|(t, v)| format!("{} {} {}", convTermToStr(t), v.f, v.c)).collect();
    let c2: Vec<String> = infBinary(&prem2, EnumPunctation::JUGEMENT, &tv(9000, 8000), &prem1, EnumPunctation::JUGEMENT, &tv(10000, 9000), &mut w)
        .iter().map(|(t, v)| format!("{} {} {}", convTermToStr(t), v.f, v.c)).collect();
    let mut s1 = c1.clone();
    let mut s2 = c2.clone();
    s1.sort();
    s2.sort();
    assert_eq!(s1, s2);
    assert!(c1.contains(&"<a --> c> 9000 6480".to_string()));
}

#[test]
fn set_union_rules() {
    let x = name("x");
    let a = inh(x.clone(), Term::SetInt(vec![Box::new(name("a"))]));
    let b = inh(x.clone(), Term::SetInt(vec![Box::new(name("b")), Box::new(name("a"))]));
    let mut w = false;
    let c: Vec<String> = infBinary(&a, EnumPunctation::JUGEMENT, &tv(10000, 9000), &b, EnumPunctation::JUGEMENT, &tv(10000, 9000), &mut w)
        .iter().map(|(t, _)| convTermToStr(t)).collect();
    assert!(c.contains(&"<x --> [a b]>".to_string()));
    let e1 = inh(Term::SetExt(vec![Box::new(name("a"))]), x.clone());
    let e2 = inh(Term::SetExt(vec![Box::new(name("b"))]), x);
    let c2: Vec<String> = infBinary(&e1, EnumPunctation::JUGEMENT, &tv(10000, 9000), &e2, EnumPunctation::JUGEMENT, &tv(10000, 9000), &mut w)
        .iter().map(|(t, _)| convTermToStr(t)).collect();
    assert!(c2.contains(&"<{a b} --> x>".to_string()));
    assert!(c2.contains(&"<x --> {a}>".to_string()));
}

#[test]
fn conjunction_elimination_and_question_rule() {
    let conj = Term::Conj(vec![Box::new(inh(Term::IndepVar("x".to_string()), name("b"))), Box::new(inh(Term::IndepVar("x".to_string()), name("d")))]);
    let rule = stmt(Copula::IMPL, conj, name("r"));
    let mut w = false;
    let c: Vec<String> = infBinary(&rule, EnumPunctation::JUGEMENT, &tv(10000, 9000), &inh(name("a"), name("b")), EnumPunctation::JUGEMENT, &tv(10000, 9000), &mut w)
        .iter().map(|(t, _)| convTermToStr(t)).collect();
    assert!(c.contains(&"<<a --> d> ==> r>".to_string()));
    assert!(w);
    // rules that need judgments take no questions
    let d = infBinary(&inh(name("a"), name("b")), EnumPunctation::QUESTION, &tv(10000, 9000), &inh(name("b"), name("c")), EnumPunctation::JUGEMENT, &tv(10000, 9000), &mut w);
    assert!(d.iter().all(|(t, _)| convTermToStr(t) != "<a --> c>"));
}

#[test]
fn overlapping_premises_give_no_conclusion() {
    let pa = judgment(inh(name("a"), name("b")), vec![1, 2]);
    let pb = judgment(inh(name("b"), name("c")), vec![2, 5]);
    let mut w = false;
    let r = inference(&pa, &pb, &mut w);
    assert!(w);
    assert_eq!(r.len(), 0);
    let pc = judgment(inh(name("b"), name("c")), vec![5]);
    let r2 = inference(&pa, &pc, &mut w);
    assert!(r2.len() > 0);
    assert!(r2.iter().any(|s| convTermToStr(&s.term) == "<a --> c>" && s.evi == Evidence::TV(tv(10000, 8100)) && s.stamp.evi == vec![1, 2, 5]));
}

#[test]
fn set_union_is_sorted() {
    let x = name("x");
    let a = inh(x.clone(), Term::SetInt(vec![Box::new(name("c")), Box::new(name("b"))]));
    let b = inh(x, Term::SetInt(vec![Box::new(name("a")), Box::new(name("c"))]));
    let mut w = false;
    let c: Vec<String> = infBinary(&a, EnumPunctation::JUGEMENT, &tv(10000, 9000), &b, EnumPunctation::JUGEMENT, &tv(10000, 9000), &mut w)
        .iter().map(|(t, _)| convTermToStr(t)).collect();
    assert!(c.contains(&"<x --> [a b c]>".to_string()));
}
