use nar_core::cycle::{reasonCycleWith, taskSelByCreditRandom, tasksSelHighestCreditIdx, Task, CREDIT_ONE};
use nar_core::goals::{addEntry, makeGoalSystem};
use nar_core::mem::{limitMemory, make, mem_add_evidence, storeEvidence, Mem, K_BELIEFS};
use nar_core::nar::{createNar, cycle, inputT, inputT2, Nar};
use nar_core::proc::{babbleWith, buildExpIntervalsTable, narInit, narStep0, narStep1, AnticipationEvent, ProcNar};
use nar_core::sentence::{EnumPunctation, SentenceDummy};
use nar_core::stamp::newStamp;
use nar_core::term::{checkEqTerm, convTermToStr, Copula, Term};
use nar_core::termapi::encodeOp;
use nar_core::truth::{Evidence, Tv};

fn name(s: &str) -> Term {
    Term::Name(s.to_string())
}

fn stmt(c: Copula, a: Term, b: Term) -> Term {
    Term::Stmt(c, Box::new(a), Box::new(b))
}

fn inh(a: Term, b: Term) -> Term {
    stmt(Copula::INH, a, b)
}

fn tv(f: u64, c: u64) -> Tv {
    Tv { f, c }
}

fn op_term(n: &str) -> Term {
    encodeOp(&vec![Term::SetExt(vec![Box::new(name("SELF"))])], &n.to_string())
}

fn rule(cond: Term, op: Term, pred: Term) -> Term {
    stmt(Copula::PREDIMPL, Term::Sequence(vec![Box::new(cond), Box::new(op)]), pred)
}

fn candidate(t: Term, ids: Vec<i64>, exp_dt: i64) -> SentenceDummy {
    SentenceDummy {
        term: t,
        punct: EnumPunctation::JUGEMENT,
        stamp: newStamp(&ids),
        evi: Evidence::CNT { pos: 1, cnt: 1 },
        t: None,
        expDt: Some(exp_dt),
    }
}

fn counts(s: &SentenceDummy) -> (i64, i64) {
    match s.evi {
        Evidence::CNT { pos, cnt } => (pos, cnt),
        Evidence::TV(_) => panic!("expected counts"),
    }
}

fn all_counts_ok(m: &Mem) -> bool {
    m.beliefs.iter().all(|b| {
        let (p, c) = counts(b);
        0 <= p && p <= c && c >= 1
    })
}

/// Runs one tick; the picked operation's name is returned.
fn tick(nar: &mut ProcNar) -> Option<String> {
    narStep0(nar);
    narStep1(nar).map(|(_, n)| n)
}

fn input_event(nar: &mut Nar, t: Term) {
    inputT2(nar, &t, EnumPunctation::JUGEMENT, &tv(10000, 9000), true);
}

fn find_rule<'a>(m: &'a Mem, text: &str) -> Vec<&'a SentenceDummy> {
    m.beliefs.iter().filter(|b| convTermToStr(&b.term) == text).collect()
}

#[test]
fn interval_table_defaults() {
    assert_eq!(buildExpIntervalsTable(13, 10, 20), vec![1, 2, 3, 4, 6, 8, 10, 13, 17]);
    assert_eq!(buildExpIntervalsTable(2, 1, 20), vec![1, 2, 4, 8, 16]);
    assert_eq!(narInit().expIntervalsTable, vec![1, 2, 3, 4, 6, 8, 10, 13, 17]);
}

#[test]
fn revision_of_same_candidate_twice_counts_once() {
    let mut m = make();
    let r = rule(name("x"), op_term("^op"), name("y"));
    assert!(!storeEvidence(&mut m, &candidate(r.clone(), vec![0, 1, 2], 0)));
    assert_eq!(m.beliefs.len(), 1);
    // a candidate from other evidence revises
    assert!(storeEvidence(&mut m, &candidate(r.clone(), vec![3, 4, 5], 0)));
    assert_eq!(counts(&m.beliefs[0]), (2, 2));
    // the same candidate again: its evidence is already in the belief
    assert!(!storeEvidence(&mut m, &candidate(r.clone(), vec![3, 4, 5], 0)));
    assert_eq!(counts(&m.beliefs[0]), (2, 2));
    // a shorter interval does not absorb a longer one
    assert!(!storeEvidence(&mut m, &candidate(r, vec![7, 8, 9], 3)));
    assert_eq!(counts(&m.beliefs[0]), (2, 2));
    assert!(all_counts_ok(&m));
}

#[test]
fn limit_memory_evicts_lowest_utility() {
    let mut m = make();
    let r1 = rule(name("a"), op_term("^op"), name("b"));
    mem_add_evidence(&mut m, &candidate(r1.clone(), vec![1], 0));
    storeEvidence(&mut m, &candidate(r1, vec![2], 0));
    let r2 = rule(name("c"), op_term("^op2"), name("d"));
    mem_add_evidence(&mut m, &SentenceDummy { evi: Evidence::CNT { pos: 0, cnt: 5 }, ..candidate(r2, vec![3], 0) });
    let before = m.concepts.len();
    assert!(before > 3);
    limitMemory(&mut m, 3);
    assert_eq!(m.concepts.len(), 3);
    let names: Vec<String> = m.concepts.iter().map(|c| convTermToStr(&c.name)).collect();
    assert!(names.contains(&"a".to_string()));
    assert!(!names.contains(&"c".to_string()));
}

#[test]
fn trace_never_exceeds_twenty() {
    let mut nar = createNar();
    nar.procNar.cfgEnBabbling = false;
    for i in 0..30 {
        input_event(&mut nar, name(&format!("e{}", i)));
        tick(&mut nar.procNar);
        assert!(nar.procNar.trace.len() <= 20);
    }
    assert_eq!(nar.procNar.trace.len(), 20);
    assert_eq!(convTermToStr(&nar.procNar.trace[19].name), "e29");
}

#[test]
fn concept_count_bounded_after_bookkeeping() {
    let mut nar = createNar();
    nar.procNar.cfgEnBabbling = false;
    nar.procNar.cfg__nConcepts = 2;
    inputT(&mut nar, &rule(name("a"), op_term("^op"), name("b")), EnumPunctation::JUGEMENT, &tv(10000, 9000));
    inputT(&mut nar, &rule(name("c"), op_term("^op"), name("d")), EnumPunctation::JUGEMENT, &tv(10000, 9000));
    assert!(nar.procNar.evidenceMem.concepts.len() > 2);
    tick(&mut nar.procNar);
    tick(&mut nar.procNar);
    assert_eq!(nar.procNar.t, 2);
    assert!(nar.procNar.evidenceMem.concepts.len() <= 2);
}

#[test]
fn classic_syllogism() {
    let mut nar = createNar();
    inputT(&mut nar, &inh(name("a"), name("b")), EnumPunctation::JUGEMENT, &tv(10000, 9000));
    inputT(&mut nar, &inh(name("b"), name("c")), EnumPunctation::JUGEMENT, &tv(10000, 9000));
    inputT(&mut nar, &inh(name("a"), name("c")), EnumPunctation::QUESTION, &tv(10000, 9000));
    for _ in 0..200 {
        cycle(&mut nar);
        if nar.mem.questionTasks[0].answer.is_some() {
            break;
        }
    }
    let answer = nar.mem.questionTasks[0].answer.as_ref().expect("question answered");
    assert_eq!(convTermToStr(&answer.term), "<a --> c>");
    assert_eq!(answer.evi, Evidence::TV(tv(10000, 8100)));
}

#[test]
fn variable_detachment() {
    let mut nar = createNar();
    let x = Term::IndepVar("x".to_string());
    let r = stmt(Copula::IMPL, inh(x.clone(), name("bird")), inh(x, name("flies")));
    inputT(&mut nar, &r, EnumPunctation::JUGEMENT, &tv(10000, 9000));
    inputT(&mut nar, &inh(name("tweety"), name("bird")), EnumPunctation::JUGEMENT, &tv(10000, 9000));
    inputT(&mut nar, &inh(name("tweety"), name("flies")), EnumPunctation::QUESTION, &tv(10000, 9000));
    for _ in 0..200 {
        cycle(&mut nar);
        if nar.mem.questionTasks[0].answer.is_some() {
            break;
        }
    }
    let answer = nar.mem.questionTasks[0].answer.as_ref().expect("question answered");
    assert_eq!(convTermToStr(&answer.term), "<tweety --> flies>");
}

#[test]
fn eternal_goal_is_dropped_and_credits_follow_complexity() {
    let mut nar = createNar();
    inputT(&mut nar, &inh(name("a"), name("b")), EnumPunctation::GOAL, &tv(10000, 9000));
    assert_eq!(nar.mem.judgementTasks.len(), 0);
    assert_eq!(nar.mem.questionTasks.len(), 0);
    assert_eq!(nar.mem.stampIdCounter, 0);
    assert_eq!(nar.procNar.goalSystem.entries.len(), 0);
    inputT(&mut nar, &inh(name("a"), name("b")), EnumPunctation::JUGEMENT, &tv(10000, 9000));
    assert_eq!(nar.mem.judgementTasks[0].credit, CREDIT_ONE / 3);
    assert_eq!(nar.mem.judgementTasks[0].sentence.stamp.evi, vec![0]);
}

#[test]
fn roulette_and_highest_credit() {
    let mk = |c: u64| Task { sentence: SentenceDummy { term: name("a"), punct: EnumPunctation::JUGEMENT, stamp: newStamp(&vec![]), evi: Evidence::TV(tv(0, 0)), t: None, expDt: None }, credit: c };
    let arr = vec![mk(1), mk(3), mk(0), mk(4)];
    assert_eq!(taskSelByCreditRandom(0, &arr), 0);
    assert_eq!(taskSelByCreditRandom(CREDIT_ONE / 2, &arr), 3);
    assert_eq!(taskSelByCreditRandom(CREDIT_ONE / 8, &arr), 1);
    assert_eq!(taskSelByCreditRandom(CREDIT_ONE - 1, &arr), 3);
    assert_eq!(tasksSelHighestCreditIdx(&arr), Some(3));
    assert_eq!(tasksSelHighestCreditIdx(&vec![]), None);
}

#[test]
fn cycle_with_fixed_draws_derives_conclusion() {
    let mut nar = createNar();
    inputT(&mut nar, &inh(name("a"), name("b")), EnumPunctation::JUGEMENT, &tv(10000, 9000));
    inputT(&mut nar, &inh(name("b"), name("c")), EnumPunctation::JUGEMENT, &tv(10000, 9000));
    // primary: the first task; secondary: the last candidate, which is the second task
    reasonCycleWith(&mut nar.mem, 0, CREDIT_ONE - 1);
    let terms: Vec<String> = nar.mem.judgementTasks.iter().map(|t| convTermToStr(&t.sentence.term)).collect();
    assert!(terms.contains(&"<a --> c>".to_string()));
}

#[test]
fn temporal_rule_formation() {
    let mut nar = createNar();
    nar.procNar.cfgEnBabbling = false;
    nar.procNar.ops.push("^op".to_string());
    for ev in [name("x"), op_term("^op"), name("y"), name("x"), op_term("^op"), name("y")] {
        input_event(&mut nar, ev);
        tick(&mut nar.procNar);
    }
    let text = "<( x &/ <{( {SELF} )} --> ^op> ) =/> y>";
    let mut best = 0;
    for _ in 0..100 {
        best = find_rule(&nar.procNar.evidenceMem, text).iter().map(|b| counts(b).0).max().unwrap_or(0);
        if best >= 2 {
            break;
        }
        tick(&mut nar.procNar);
    }
    assert!(best >= 2);
    assert!(all_counts_ok(&nar.procNar.evidenceMem));
}

#[test]
fn anticipation_negative_confirmation() {
    let mut nar = createNar();
    nar.procNar.cfgEnBabbling = false;
    nar.procNar.ops.push("^op".to_string());
    let r = rule(name("x"), op_term("^op"), name("y"));
    inputT(&mut nar, &r, EnumPunctation::JUGEMENT, &tv(10000, 9000));
    inputT2(&mut nar, &name("y"), EnumPunctation::GOAL, &tv(10000, 9000), true);
    let mut called = None;
    for _ in 0..60 {
        input_event(&mut nar, name("x"));
        if let Some(n) = tick(&mut nar.procNar) {
            called = Some(n);
            break;
        }
    }
    assert_eq!(called, Some("^op".to_string()));
    assert_eq!(nar.procNar.anticipatedEvents.len(), 1);
    let a: AnticipationEvent = nar.procNar.anticipatedEvents[0];
    assert!(a.deadline > a.created);
    let before = counts(&nar.procNar.evidenceMem.beliefs[a.evi]);
    // no more decisions: the goals are gone, and `y` never comes
    nar.procNar.goalSystem.entries.clear();
    for _ in 0..30 {
        tick(&mut nar.procNar);
    }
    assert_eq!(nar.procNar.anticipatedEvents.len(), 0);
    let after = counts(&nar.procNar.evidenceMem.beliefs[a.evi]);
    assert_eq!(after, (before.0, before.1 + 1));
}

#[test]
fn anticipation_positive_confirmation() {
    let mut nar = createNar();
    nar.procNar.cfgEnBabbling = false;
    nar.procNar.ops.push("^op".to_string());
    inputT(&mut nar, &rule(name("x"), op_term("^op"), name("y")), EnumPunctation::JUGEMENT, &tv(10000, 9000));
    inputT2(&mut nar, &name("y"), EnumPunctation::GOAL, &tv(10000, 9000), true);
    let mut called = false;
    for _ in 0..60 {
        input_event(&mut nar, name("x"));
        if tick(&mut nar.procNar).is_some() {
            called = true;
            break;
        }
    }
    assert!(called);
    let a: AnticipationEvent = nar.procNar.anticipatedEvents[0];
    let before = counts(&nar.procNar.evidenceMem.beliefs[a.evi]);
    nar.procNar.goalSystem.entries.clear();
    input_event(&mut nar, name("y"));
    narStep0(&mut nar.procNar);
    assert_eq!(nar.procNar.anticipatedEvents.len(), 0);
    // no negative evidence; perception of `x, ^op, y` may add a positive observation
    let after = counts(&nar.procNar.evidenceMem.beliefs[a.evi]);
    assert_eq!(after.1 - after.0, before.1 - before.0);
}

#[test]
fn babbling_calls_every_op() {
    for _attempt in 0..3 {
        let mut nar = createNar();
        nar.procNar.ops.push("^left".to_string());
        nar.procNar.ops.push("^right".to_string());
        inputT2(&mut nar, &name("y"), EnumPunctation::GOAL, &tv(10000, 9000), true);
        input_event(&mut nar, name("x"));
        let mut seen = std::collections::HashSet::new();
        for _ in 0..200 {
            if let Some(n) = tick(&mut nar.procNar) {
                seen.insert(n);
            }
        }
        if seen.contains("^left") && seen.contains("^right") {
            return;
        }
    }
    panic!("babbling did not call both operations");
}

#[test]
fn goal_entries_respect_depth_and_capacity() {
    let mut gs = makeGoalSystem(2, 1);
    let g = |t: &str, f: u64| SentenceDummy { term: name(t), punct: EnumPunctation::GOAL, stamp: newStamp(&vec![]), evi: Evidence::TV(tv(f, 9000)), t: None, expDt: None };
    addEntry(&mut gs, 0, g("a", 10000), None, 2);
    assert_eq!(gs.entries.len(), 0);
    addEntry(&mut gs, 0, g("a", 10000), None, 0);
    addEntry(&mut gs, 0, g("b", 2000), None, 1);
    addEntry(&mut gs, 0, g("c", 6000), None, 0);
    assert_eq!(gs.entries.len(), 2);
    let names: Vec<String> = gs.entries.iter().map(|e| convTermToStr(&e.goal.term)).collect();
    assert!(names.contains(&"a".to_string()));
    assert!(names.contains(&"c".to_string()));
    assert!(checkEqTerm(&gs.entries[0].goal.term, &name("a")));
}

#[test]
fn concepts_keep_most_confident_beliefs() {
    let mut m = make();
    let op = op_term("^op");
    for i in 0..20 {
        let c = SentenceDummy { evi: Evidence::CNT { pos: 0, cnt: if i == 0 { 5 } else { 1 } }, ..candidate(rule(name(&format!("c{}", i)), op.clone(), name("y")), vec![i], 0) };
        mem_add_evidence(&mut m, &c);
    }
    let y = m.concepts.iter().find(|c| convTermToStr(&c.name) == "y").unwrap();
    assert_eq!(y.beliefs.len(), K_BELIEFS);
    assert!(y.beliefs.contains(&0));
    assert!(!y.beliefs.contains(&1));
    assert!(!y.beliefs.contains(&2));
    assert!(y.beliefs.contains(&19));
}

#[test]
fn babbling_draw_picks_registered_op() {
    let mut nar = narInit();
    nar.ops.push("^left".to_string());
    nar.ops.push("^right".to_string());
    assert_eq!(convTermToStr(&babbleWith(&nar, 1).unwrap()), "<{( {SELF} )} --> ^right>");
    assert!(babbleWith(&nar, 2).is_none());
    assert!(babbleWith(&nar, 17).is_none());
}

#[test]
fn equal_desire_evicts_oldest_goal() {
    let mut gs = makeGoalSystem(2, 3);
    let g = |t: &str| SentenceDummy { term: name(t), punct: EnumPunctation::GOAL, stamp: newStamp(&vec![]), evi: Evidence::TV(tv(5000, 9000)), t: None, expDt: None };
    addEntry(&mut gs, 5, g("a"), None, 0);
    addEntry(&mut gs, 2, g("b"), None, 0);
    addEntry(&mut gs, 9, g("c"), None, 0);
    let names: Vec<String> = gs.entries.iter().map(|e| convTermToStr(&e.goal.term)).collect();
    assert_eq!(names, vec!["a".to_string(), "c".to_string()]);
    assert_eq!(gs.nextId, 3);
}

#[test]
fn cycle_adds_no_duplicate_task() {
    let mut nar = createNar();
    inputT(&mut nar, &inh(name("a"), name("b")), EnumPunctation::JUGEMENT, &tv(10000, 9000));
    inputT(&mut nar, &inh(name("b"), name("c")), EnumPunctation::JUGEMENT, &tv(10000, 9000));
    for _ in 0..50 {
        reasonCycleWith(&mut nar.mem, 0, CREDIT_ONE - 1);
    }
    let mut terms: Vec<String> = nar.mem.judgementTasks.iter().map(|t| convTermToStr(&t.sentence.term)).collect();
    let n = terms.len();
    terms.sort();
    terms.dedup();
    assert_eq!(terms.len(), n);
    let ac = nar.mem.judgementTasks.iter().find(|t| convTermToStr(&t.sentence.term) == "<a --> c>").unwrap();
    assert!(ac.credit <= CREDIT_ONE);
}

#[test]
fn eternal_implication_without_sequence_is_stored() {
    let mut nar = createNar();
    inputT(&mut nar, &stmt(Copula::PREDIMPL, name("a"), name("b")), EnumPunctation::JUGEMENT, &tv(10000, 9000));
    assert_eq!(nar.procNar.evidenceMem.beliefs.len(), 1);
    assert_eq!(convTermToStr(&nar.procNar.evidenceMem.beliefs[0].term), "<a =/> b>");
    assert_eq!(counts(&nar.procNar.evidenceMem.beliefs[0]), (1, 1));
    let names: Vec<String> = nar.procNar.evidenceMem.concepts.iter().map(|c| convTermToStr(&c.name)).collect();
    assert_eq!(names, vec!["a".to_string(), "b".to_string()]);
    assert_eq!(nar.mem.judgementTasks.len(), 0);
    assert_eq!(nar.mem.stampIdCounter, 1);
}
