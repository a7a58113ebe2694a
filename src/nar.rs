use vstd::prelude::*;

use crate::term::{Term, TermV, Copula};
use crate::truth::{Tv, Evidence};
use crate::stamp::newStamp;
use crate::sentence::{SentenceDummy, EnumPunctation, newEternalSentenceByTv};
use crate::termapi::is_predimpl;
use crate::mem::{evidence_keys, concepts_extended};
use crate::mem::mem_add_evidence;
use crate::goals::{addEntry, insert_post, Entry};
use crate::proc::{ProcNar, narInit, addTraceEvent, TRACE_MAX, trace_extended};
use crate::cycle::{Mem2, createMem2, memAddTask, reasonCycle, cycle_with_post, CREDIT_ONE, credit_divisor};

verus! {

/// The reasoner: a procedural part and a declarative memory.
pub struct Nar {
    /// procedural reasoner
    pub procNar: ProcNar,
    /// declarative memory
    pub mem: Mem2,
    /// verbosity of input
    pub cfgVerbosityInput: i32,
}

impl Nar {
    pub open spec fn wf(&self) -> bool {
        self.procNar.wf() && self.mem.wf()
    }
}

/// Creates a reasoner with empty memories.
pub fn createNar() -> (r: Nar)
    ensures
        r.wf(),
        r.procNar.t == 0,
        r.procNar.trace.len() == 0,
        r.procNar.evidenceMem.beliefs.len() == 0,
        r.procNar.goalSystem.entries.len() == 0,
        r.mem.judgementTasks.len() == 0,
        r.mem.questionTasks.len() == 0,
        r.mem.stampIdCounter == 0,
{
    Nar { procNar: narInit(), mem: createMem2(), cfgVerbosityInput: 1 }
}

/// The term is a predictive implication.
pub open spec fn is_temporal(t: TermV) -> bool {
    is_predimpl(t)
}

/// Input of an eternal sentence.
pub fn inputT(nar: &mut Nar, term: &Term, punct: EnumPunctation, tv: &Tv)
    requires
        old(nar).wf(),
        tv.wf(),
        old(nar).mem.stampIdCounter < i64::MAX,
        old(nar).procNar.goalSystem.nextId < u64::MAX,
    ensures
        input_post(*old(nar), term@, punct, *tv, false, *final(nar)),
{
    inputT2(nar, term, punct, tv, false);
}

/// What an input does. An eternal goal (other than a predictive implication) is dropped and
/// changes nothing. Every other input takes a fresh evidence id: an event goal becomes a goal,
/// another event goes to the trace; an eternal predictive implication (with a sequence as
/// subject) becomes procedural evidence with one positive observation; another eternal judgment
/// or question becomes a task; other eternal temporal terms are dropped. Each input leaves the
/// parts it does not go to unchanged.
pub open spec fn input_post(old: Nar, term: TermV, punct: EnumPunctation, tv: Tv, isEvent: bool, new: Nar) -> bool {
    let id = old.mem.stampIdCounter;
    let t = old.procNar.t;
    if !isEvent && !is_temporal(term) && punct == EnumPunctation::GOAL {
        new == old
    } else {
        &&& new.wf()
        &&& new.mem.stampIdCounter == id + 1
        &&& new.procNar.t == t
        &&& if isEvent && punct == EnumPunctation::GOAL {
            &&& exists|e: Entry| insert_post(old.procNar.goalSystem, e, new.procNar.goalSystem)
                && e.goal.term@ == term && e.goal.punct == punct && e.goal.evi == Evidence::TV(tv)
                && e.goal.stamp.evi@ == seq![id] && e.depth == 0 && e.evidence is None && e.condOp is None && !e.satisfied
                && e.time == t
            &&& new.procNar.trace@ == old.procNar.trace@
            &&& new.procNar.evidenceMem == old.procNar.evidenceMem
            &&& new.procNar.anticipatedEvents@ == old.procNar.anticipatedEvents@
            &&& new.mem.judgementTasks@ == old.mem.judgementTasks@
            &&& new.mem.questionTasks@ == old.mem.questionTasks@
        } else if isEvent {
            &&& new.procNar.trace.len() == if old.procNar.trace.len() < TRACE_MAX { old.procNar.trace.len() + 1 } else { TRACE_MAX as int }
            &&& trace_extended(old.procNar.trace@, new.procNar.trace@)
            &&& new.procNar.trace@.last().name@ == term
            &&& new.procNar.trace@.last().evi == t
            &&& new.procNar.trace@.last().occT == t
            &&& new.procNar.goalSystem == old.procNar.goalSystem
            &&& new.procNar.evidenceMem == old.procNar.evidenceMem
            &&& new.procNar.anticipatedEvents@ == old.procNar.anticipatedEvents@
            &&& new.mem.judgementTasks@ == old.mem.judgementTasks@
            &&& new.mem.questionTasks@ == old.mem.questionTasks@
        } else if is_temporal(term) {
            &&& new.procNar.evidenceMem.beliefs.len() == old.procNar.evidenceMem.beliefs.len() + 1
            &&& new.procNar.evidenceMem.beliefs@.subrange(0, old.procNar.evidenceMem.beliefs.len() as int) == old.procNar.evidenceMem.beliefs@
            &&& new.procNar.evidenceMem.beliefs@.last().term@ == term
            &&& new.procNar.evidenceMem.beliefs@.last().evi == (Evidence::CNT { pos: 1, cnt: 1 })
            &&& new.procNar.evidenceMem.beliefs@.last().stamp.evi@ == seq![id]
            &&& concepts_extended(old.procNar.evidenceMem.concepts@, new.procNar.evidenceMem.concepts@,
                old.procNar.evidenceMem.beliefs.len() as usize, evidence_keys(term), new.procNar.evidenceMem.beliefs@)
            &&& new.procNar.trace@ == old.procNar.trace@
            &&& new.procNar.goalSystem == old.procNar.goalSystem
            &&& new.mem.judgementTasks@ == old.mem.judgementTasks@
            &&& new.mem.questionTasks@ == old.mem.questionTasks@
        } else {
            &&& new.procNar == old.procNar
            &&& if punct == EnumPunctation::JUGEMENT {
                &&& new.mem.judgementTasks.len() == old.mem.judgementTasks.len() + 1
                &&& new.mem.judgementTasks@.subrange(0, old.mem.judgementTasks.len() as int) == old.mem.judgementTasks@
                &&& new.mem.judgementTasks@.last().sentence.term@ == term
                &&& new.mem.judgementTasks@.last().sentence.evi == Evidence::TV(tv)
                &&& new.mem.judgementTasks@.last().sentence.stamp.evi@ == seq![id]
                &&& new.mem.judgementTasks@.last().credit == CREDIT_ONE / credit_divisor(term)
                &&& new.mem.questionTasks@ == old.mem.questionTasks@
            } else {
                &&& new.mem.questionTasks.len() == old.mem.questionTasks.len() + 1
                &&& new.mem.questionTasks@.subrange(0, old.mem.questionTasks.len() as int) == old.mem.questionTasks@
                &&& new.mem.questionTasks@.last().sentence.term@ == term
                &&& new.mem.questionTasks@.last().answer is None
                &&& new.mem.judgementTasks@ == old.mem.judgementTasks@
            }
        }
    }
}

/// Input of a sentence, eternal or as an event.
pub fn inputT2(nar: &mut Nar, term: &Term, punct: EnumPunctation, tv: &Tv, isEvent: bool)
    requires
        old(nar).wf(),
        tv.wf(),
        old(nar).mem.stampIdCounter < i64::MAX,
        old(nar).procNar.goalSystem.nextId < u64::MAX,
    ensures
        input_post(*old(nar), term@, punct, *tv, isEvent, *final(nar)),
{
    let isTemporal = match term {
        Term::Stmt(Copula::PREDIMPL, _, _) => true,
        _ => false,
    };
    assert(isTemporal == is_temporal(term@));
    if !isEvent && !isTemporal && punct == EnumPunctation::GOAL {
        return;
    }
    let id = nar.mem.stampIdCounter;
    let mut ids: Vec<i64> = Vec::new();
    ids.push(id);
    let stamp = newStamp(&ids);
    nar.mem.stampIdCounter = id + 1;
    let sentence = newEternalSentenceByTv(term, punct, tv, stamp);
    let t = nar.procNar.t;
    if isEvent {
        if punct == EnumPunctation::GOAL {
            let ghost g0 = nar.procNar.goalSystem;
            addEntry(&mut nar.procNar.goalSystem, t, sentence, None, 0);
            proof {
                let e = Entry { goal: sentence, id: g0.nextId, parent: None, evidence: None, depth: 0, condOp: None, satisfied: false, time: t };
                assert(insert_post(g0, e, nar.procNar.goalSystem));
                assert forall|i: int| 0 <= i < nar.procNar.goalSystem.entries.len() && (#[trigger] nar.procNar.goalSystem.entries[i]).evidence is Some
                    implies nar.procNar.goalSystem.entries[i].evidence->0 < nar.procNar.evidenceMem.beliefs.len() by {
                    let all = g0.entries@.push(e);
                    assert(all.contains(nar.procNar.goalSystem.entries@[i]));
                    let w = choose|w: int| 0 <= w < all.len() && all[w] == nar.procNar.goalSystem.entries@[i];
                    if w < g0.entries.len() {
                        assert(all[w] == g0.entries@[w]);
                    }
                }
            }
        } else {
            addTraceEvent(&mut nar.procNar, term.clone(), t, t);
        }
        return;
    }
    if isTemporal {
        let evidence = SentenceDummy {
            term: sentence.term,
            punct: sentence.punct,
            stamp: sentence.stamp,
            evi: Evidence::CNT { pos: 1, cnt: 1 },
            t: None,
            expDt: Some(0),
        };
        let ghost om = nar.procNar.evidenceMem;
        mem_add_evidence(&mut nar.procNar.evidenceMem, &evidence);
        proof {
            assert(nar.procNar.evidenceMem.beliefs@.subrange(0, om.beliefs.len() as int) =~= om.beliefs@);
            assert forall|i: int| 0 <= i < nar.procNar.anticipatedEvents.len() implies (#[trigger] nar.procNar.anticipatedEvents[i]).evi < nar.procNar.evidenceMem.beliefs.len()
                && nar.procNar.anticipatedEvents[i].deadline > nar.procNar.anticipatedEvents[i].created by {}
            assert forall|i: int| 0 <= i < nar.procNar.goalSystem.entries.len() && (#[trigger] nar.procNar.goalSystem.entries[i]).evidence is Some
                implies nar.procNar.goalSystem.entries[i].evidence->0 < nar.procNar.evidenceMem.beliefs.len() by {}
        }
    } else {
        if punct != EnumPunctation::GOAL {
            let ghost om = nar.mem;
            memAddTask(&mut nar.mem, sentence, true);
            if punct == EnumPunctation::JUGEMENT {
                assert(nar.mem.judgementTasks@.subrange(0, om.judgementTasks.len() as int) =~= om.judgementTasks@);
            } else {
                assert(nar.mem.questionTasks@.subrange(0, om.questionTasks.len() as int) =~= om.questionTasks@);
            }
        }
    }
}

/// One declarative reasoning cycle.
pub fn cycle(nar: &mut Nar)
    requires
        old(nar).wf(),
    ensures
        final(nar).wf(),
        exists|a: u64, b: u64| a < CREDIT_ONE && b < CREDIT_ONE && #[trigger] cycle_with_post(old(nar).mem, a, b, final(nar).mem),
        final(nar).procNar == old(nar).procNar,
{
    reasonCycle(&mut nar.mem);
}

}
