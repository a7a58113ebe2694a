use vstd::prelude::*;

use crate::term::{Term, TermV};
use crate::truth::{Tv, Evidence, ded, ded_spec, calcExp, exp_spec, convCntToTv, cnt_tv_spec};
use crate::sentence::{SentenceDummy, EnumPunctation};
use crate::inference::{has_tv, tv_of};
use crate::unify::{unify, unifySubst, unify_spec, subst_spec};
use crate::termapi::{retPred, subj_of, pred_of, children_of_seq};
use crate::mem::{Mem, evidence_ok, pos_of, cnt_of};
use crate::rng::genBelow;

verus! {

broadcast use vstd::std_specs::vec::group_vec_axioms;

/// A goal of the procedural reasoner.
pub struct Entry {
    /// the desired state; its truth value is the desire
    pub goal: SentenceDummy,
    pub id: u64,
    /// id of the goal it was derived from
    pub parent: Option<u64>,
    /// index of the belief (in evidence memory) it was derived with
    pub evidence: Option<usize>,
    pub depth: i64,
    /// the belief's precondition sequence `(s &/ op)`, unified with the parent goal
    pub condOp: Option<Term>,
    pub satisfied: bool,
    /// time at which the goal was added
    pub time: i64,
}

/// Bounded list of goals.
pub struct GoalSystem {
    pub entries: Vec<Entry>,
    pub nMaxEntries: usize,
    pub maxDepth: i64,
    pub nextId: u64,
}

/// Expectation of an entry's desire.
pub open spec fn entry_exp(e: Entry) -> int {
    exp_spec(tv_of(e.goal))
}

impl GoalSystem {
    pub open spec fn wf(&self) -> bool {
        &&& self.nMaxEntries >= 1
        &&& self.entries.len() <= self.nMaxEntries
        &&& forall|i: int| 0 <= i < self.entries.len() ==> has_tv((#[trigger] self.entries[i]).goal)
            && 0 <= self.entries[i].depth <= self.maxDepth
    }
}

/// Creates an empty goal system holding at most `nMaxEntries` goals of depth at most `maxDepth`.
pub fn makeGoalSystem(nMaxEntries: usize, maxDepth: i64) -> (r: GoalSystem)
    requires
        nMaxEntries >= 1,
    ensures
        r.wf(),
        r.entries.len() == 0,
        r.nMaxEntries == nMaxEntries,
        r.maxDepth == maxDepth,
{
    GoalSystem { entries: Vec::new(), nMaxEntries, maxDepth, nextId: 0 }
}

fn entryExp(e: &Entry) -> (r: u64)
    requires
        has_tv(e.goal),
    ensures
        r == entry_exp(*e),
{
    match e.goal.evi {
        Evidence::TV(tv) => calcExp(&tv),
        Evidence::CNT { .. } => 0,
    }
}

/// What inserting `e` gives: rejected beyond the depth bound; otherwise appended, and when the
/// list is then over its bound, the entry of lowest expectation is dropped (the oldest of equal ones).
pub open spec fn insert_post(old: GoalSystem, e: Entry, new: GoalSystem) -> bool {
    let all = old.entries@.push(e);
    &&& new.wf()
    &&& new.nMaxEntries == old.nMaxEntries
    &&& new.maxDepth == old.maxDepth
    &&& if e.depth < 0 || e.depth > old.maxDepth {
        new.entries@ == old.entries@
    } else {
        &&& new.entries.len() == if all.len() <= old.nMaxEntries { all.len() as int } else { old.nMaxEntries as int }
        &&& forall|i: int| 0 <= i < new.entries.len() ==> all.contains(#[trigger] new.entries@[i])
        &&& forall|i: int, j: int| 0 <= i < all.len() && 0 <= j < new.entries.len() && !new.entries@.contains(#[trigger] all[i])
            ==> entry_exp(all[i]) < entry_exp(#[trigger] new.entries@[j])
                || (entry_exp(all[i]) == entry_exp(new.entries@[j]) && all[i].time <= new.entries@[j].time)
    }
}

fn insertEntry(gs: &mut GoalSystem, e: Entry)
    requires
        old(gs).wf(),
        has_tv(e.goal),
    ensures
        insert_post(*old(gs), e, *final(gs)),
        final(gs).nextId == old(gs).nextId,
{
    let ghost all = gs.entries@.push(e);
    if e.depth < 0 || e.depth > gs.maxDepth {
        return;
    }
    gs.entries.push(e);
    assert(gs.entries@ == all);
    if gs.entries.len() <= gs.nMaxEntries {
        assert forall|i: int| 0 <= i < gs.entries.len() implies all.contains(#[trigger] gs.entries@[i]) by {
            assert(all[i] == gs.entries@[i]);
        }
        assert forall|i: int, j: int| 0 <= i < all.len() && 0 <= j < gs.entries.len() && !gs.entries@.contains(#[trigger] all[i])
            implies entry_exp(all[i]) < entry_exp(#[trigger] gs.entries@[j])
                || (entry_exp(all[i]) == entry_exp(gs.entries@[j]) && all[i].time <= gs.entries@[j].time) by {
            assert(gs.entries@[i] == all[i]);
        }
        return;
    }
    let mut minIdx: usize = 0;
    let mut minE = entryExp(&gs.entries[0]);
    let mut minT = gs.entries[0].time;
    let mut c: usize = 1;
    while c < gs.entries.len()
        invariant
            gs.entries@ == all,
            forall|i: int| 0 <= i < all.len() ==> has_tv((#[trigger] all[i]).goal),
            1 <= c <= gs.entries.len(),
            minIdx < c,
            minE == entry_exp(gs.entries@[minIdx as int]),
            minT == gs.entries@[minIdx as int].time,
            forall|d: int| 0 <= d < c ==> minE < entry_exp(#[trigger] gs.entries@[d])
                || (minE == entry_exp(gs.entries@[d]) && minT <= gs.entries@[d].time),
        decreases gs.entries.len() - c,
    {
        let x = entryExp(&gs.entries[c]);
        if x < minE || (x == minE && gs.entries[c].time < minT) {
            minE = x;
            minT = gs.entries[c].time;
            minIdx = c;
        }
        c = c + 1;
    }
    gs.entries.remove(minIdx);
    proof {
        assert(gs.entries@ =~= all.remove(minIdx as int));
        assert forall|i: int| 0 <= i < gs.entries.len() implies all.contains(#[trigger] gs.entries@[i]) by {
            if i < minIdx {
                assert(gs.entries@[i] == all[i]);
            } else {
                assert(gs.entries@[i] == all[i + 1]);
            }
        }
        assert forall|i: int, j: int| 0 <= i < all.len() && 0 <= j < gs.entries.len() && !gs.entries@.contains(#[trigger] all[i])
            implies entry_exp(all[i]) < entry_exp(#[trigger] gs.entries@[j])
                || (entry_exp(all[i]) == entry_exp(gs.entries@[j]) && all[i].time <= gs.entries@[j].time) by {
            if i < minIdx {
                assert(gs.entries@[i] == all[i]);
            } else if i > minIdx {
                assert(gs.entries@[i - 1] == all[i]);
            }
            let jj = if j < minIdx { j } else { j + 1 };
            assert(gs.entries@[j] == all[jj]);
        }
        assert forall|i: int| 0 <= i < gs.entries.len() implies has_tv((#[trigger] gs.entries@[i]).goal)
            && 0 <= gs.entries@[i].depth <= gs.maxDepth by {
            let ii = if i < minIdx { i } else { i + 1 };
            assert(gs.entries@[i] == all[ii]);
            if ii < all.len() - 1 {
                assert(all[ii] == old(gs).entries@[ii]);
            }
        }
    }
}

/// Adds a goal of the given depth (its truth value is the desire); rejected beyond the depth bound.
pub fn addEntry(gs: &mut GoalSystem, time: i64, goal: SentenceDummy, evidence: Option<usize>, depth: i64)
    requires
        old(gs).wf(),
        has_tv(goal),
        old(gs).nextId < u64::MAX,
    ensures
        insert_post(*old(gs), Entry { goal, id: old(gs).nextId, parent: None, evidence, depth, condOp: None, satisfied: false, time }, *final(gs)),
        final(gs).nextId == old(gs).nextId + 1,
{
    let id = gs.nextId;
    gs.nextId = gs.nextId + 1;
    insertEntry(gs, Entry { goal, id, parent: None, evidence, depth, condOp: None, satisfied: false, time });
}

/// Marks as satisfied every goal whose term is `term`.
pub fn event_occurred(gs: &mut GoalSystem, term: &Term)
    requires
        old(gs).wf(),
    ensures
        final(gs).wf(),
        final(gs).nMaxEntries == old(gs).nMaxEntries,
        final(gs).maxDepth == old(gs).maxDepth,
        final(gs).nextId == old(gs).nextId,
        final(gs).entries.len() == old(gs).entries.len(),
        forall|i: int| 0 <= i < final(gs).entries.len() ==> {
            let o = old(gs).entries@[i];
            let n = #[trigger] final(gs).entries@[i];
            &&& n.goal == o.goal
            &&& n.id == o.id
            &&& n.parent == o.parent
            &&& n.evidence == o.evidence
            &&& n.depth == o.depth
            &&& n.condOp == o.condOp
            &&& n.satisfied == (o.satisfied || o.goal.term@ == term@)
        },
{
    let mut i: usize = 0;
    while i < gs.entries.len()
        invariant
            i <= gs.entries.len(),
            gs.entries.len() == old(gs).entries.len(),
            gs.nMaxEntries == old(gs).nMaxEntries,
            gs.maxDepth == old(gs).maxDepth,
            gs.nextId == old(gs).nextId,
            old(gs).wf(),
            forall|k: int| 0 <= k < gs.entries.len() ==> {
                let o = old(gs).entries@[k];
                let n = #[trigger] gs.entries@[k];
                &&& n.goal == o.goal
                &&& n.id == o.id
                &&& n.parent == o.parent
                &&& n.evidence == o.evidence
                &&& n.depth == o.depth
                &&& n.condOp == o.condOp
                &&& n.satisfied == if k < i { o.satisfied || o.goal.term@ == term@ } else { o.satisfied }
            },
        decreases gs.entries.len() - i,
    {
        if crate::term::checkEqTerm(&gs.entries[i].goal.term, term) {
            gs.entries[i].satisfied = true;
        }
        i = i + 1;
    }
}

/// The entry can drive a decision in `state`: unsatisfied, with a precondition sequence whose
/// first item unifies with the state.
pub open spec fn qualifies(e: Entry, state: TermV) -> bool {
    &&& !e.satisfied
    &&& e.condOp is Some
    &&& e.condOp->0@ is Sequence
    &&& children_of_seq(e.condOp->0@).len() >= 2
    &&& unify_spec(children_of_seq(e.condOp->0@)[0], state, seq![]) is Some
}

/// The precondition sequence of a qualifying entry, unified with the state.
pub open spec fn unified_cond(e: Entry, state: TermV) -> TermV {
    subst_spec(e.condOp->0@, unify_spec(children_of_seq(e.condOp->0@)[0], state, seq![])->0)
}

fn qualifyAndUnify(e: &Entry, state: &Term) -> (r: Option<Term>)
    ensures
        r is Some == qualifies(*e, state@),
        r is Some ==> r->0@ == unified_cond(*e, state@),
{
    if e.satisfied {
        return None;
    }
    match &e.condOp {
        Some(t) => match t {
            Term::Sequence(v) => {
                assert(crate::term::children_view(*v).len() == v.len());
                if v.len() < 2 {
                    return None;
                }
                assert(crate::term::children_view(*v)[0] == v[0]@);
                match unify(&v[0], state) {
                    Some(asg) => Some(unifySubst(t, &asg)),
                    None => None,
                }
            },
            _ => None,
        },
        None => None,
    }
}

/// Among the first `k` entries that qualify in `state`, the highest positive expectation and
/// the first entry that has it (0 and `None` when there is none).
pub open spec fn best_entry(es: Seq<Entry>, state: TermV, k: int) -> (int, Option<int>)
    decreases k,
{
    if k <= 0 {
        (0, None)
    } else {
        let prev = best_entry(es, state, k - 1);
        if qualifies(es[k - 1], state) && entry_exp(es[k - 1]) > prev.0 {
            (entry_exp(es[k - 1]), Some(k - 1))
        } else {
            prev
        }
    }
}

/// Among the entries that qualify in `state`, the one of highest expectation (the first of equal
/// ones), with its unified precondition sequence; expectation 0 and `None` when none has a positive one.
pub fn selHighestExpGoalByState(gs: &GoalSystem, state: &Term) -> (r: (u64, Option<(usize, Term)>))
    requires
        gs.wf(),
    ensures
        r.0 == best_entry(gs.entries@, state@, gs.entries.len() as int).0,
        match r.1 {
            Some((i, _)) => best_entry(gs.entries@, state@, gs.entries.len() as int).1 == Some(i as int),
            None => best_entry(gs.entries@, state@, gs.entries.len() as int).1 is None,
        },
        match r.1 {
            Some((i, u)) => i < gs.entries.len() && qualifies(gs.entries@[i as int], state@)
                && r.0 == entry_exp(gs.entries@[i as int]) && r.0 > 0
                && u@ == unified_cond(gs.entries@[i as int], state@),
            None => r.0 == 0,
        },
        forall|j: int| 0 <= j < gs.entries.len() && qualifies(#[trigger] gs.entries@[j], state@) ==> entry_exp(gs.entries@[j]) <= r.0,
{
    let mut best: u64 = 0;
    let mut bestOpt: Option<(usize, Term)> = None;
    let mut i: usize = 0;
    while i < gs.entries.len()
        invariant
            gs.wf(),
            i <= gs.entries.len(),
            match bestOpt {
                Some((k, u)) => k < gs.entries.len() && qualifies(gs.entries@[k as int], state@)
                    && best == entry_exp(gs.entries@[k as int]) && best > 0
                    && u@ == unified_cond(gs.entries@[k as int], state@),
                None => best == 0,
            },
            forall|j: int| 0 <= j < i && qualifies(#[trigger] gs.entries@[j], state@) ==> entry_exp(gs.entries@[j]) <= best,
            best == best_entry(gs.entries@, state@, i as int).0,
            match bestOpt {
                Some((k, _)) => best_entry(gs.entries@, state@, i as int).1 == Some(k as int),
                None => best_entry(gs.entries@, state@, i as int).1 is None,
            },
        decreases gs.entries.len() - i,
    {
        match qualifyAndUnify(&gs.entries[i], state) {
            Some(u) => {
                let x = entryExp(&gs.entries[i]);
                if x > best {
                    best = x;
                    bestOpt = Some((i, u));
                }
            },
            None => {},
        }
        i = i + 1;
    }
    (best, bestOpt)
}

/// `ne` is the subgoal that `e` and the belief `b` (at `bi`) give under the bindings `s`
/// of the belief's predicate to the goal: the belief's whole subject, substituted (for a rule
/// `(c &/ op) =/> g` the sequence `(c &/ op)`, not only `c`, so that an occurrence of the event
/// `c` does not neutralize the subgoal before decision making picks `op` from it), with desire
/// `ded(desire, belief)`, one level deeper.
pub open spec fn derived_entry(ne: Entry, e: Entry, b: SentenceDummy, bi: usize, s: Seq<(TermV, TermV)>, time: i64) -> bool {
    &&& ne.time == time
    &&& ne.goal.term@ == subst_spec(subj_of(b.term@), s)
    &&& ne.goal.punct == EnumPunctation::GOAL
    &&& ne.goal.evi == Evidence::TV(ded_spec(tv_of(e.goal), cnt_tv_spec(pos_of(b), cnt_of(b))))
    &&& ne.parent == Some(e.id)
    &&& ne.evidence == Some(bi)
    &&& ne.depth == e.depth + 1
    &&& ne.condOp is Some
    &&& ne.condOp->0@ == subst_spec(subj_of(b.term@), s)
    &&& !ne.satisfied
}

/// The belief `bi` is a candidate for goal `ei`: its predicate unifies with the goal.
pub open spec fn is_cand(gs: GoalSystem, mem: Mem, ei: int, bi: int) -> bool {
    unify_spec(pred_of(mem.beliefs@[bi].term@), gs.entries@[ei].goal.term@, seq![]) is Some
}

/// What deriving from goal `ei` and belief `bi` at `time` gives: when the goal is above the depth
/// bound and the belief a candidate, the derived subgoal inserted under a fresh id; else nothing.
pub open spec fn derive_post(old: GoalSystem, mem: Mem, ei: int, bi: usize, time: i64, new: GoalSystem) -> bool {
    if old.entries@[ei].depth < old.maxDepth && is_cand(old, mem, ei, bi as int) {
        &&& new.nextId == old.nextId + 1
        &&& exists|ne: Entry| derived_entry(ne, old.entries@[ei], mem.beliefs@[bi as int], bi,
            unify_spec(pred_of(mem.beliefs@[bi as int].term@), old.entries@[ei].goal.term@, seq![])->0, time)
            && ne.id == old.nextId
            && insert_post(old, ne, new)
    } else {
        new == old
    }
}

/// Derives a subgoal from the entry `ei` and the belief `bi` when the belief's predicate unifies
/// with the goal and the entry is above the depth bound; returns whether it did.
pub fn deriveSubgoal(gs: &mut GoalSystem, mem: &Mem, ei: usize, bi: usize, time: i64) -> (r: bool)
    requires
        old(gs).wf(),
        mem.wf(),
        ei < old(gs).entries.len(),
        bi < mem.beliefs.len(),
        old(gs).nextId < u64::MAX,
    ensures
        r == (old(gs).entries@[ei as int].depth < old(gs).maxDepth && is_cand(*old(gs), *mem, ei as int, bi as int)),
        derive_post(*old(gs), *mem, ei as int, bi, time, *final(gs)),
{
    let e = &gs.entries[ei];
    let b = &mem.beliefs[bi];
    assert(evidence_ok(*b));
    if e.depth >= gs.maxDepth {
        return false;
    }
    let pred = retPred(&b.term);
    let asg = match unify(&pred, &e.goal.term) {
        Some(asg) => asg,
        None => return false,
    };
    proof {
        reveal_with_fuel(crate::term::term_view, 2);
    }
    let condOp = match &b.term {
        Term::Stmt(_, subj, _) => unifySubst(subj, &asg),
        _ => b.term.clone(),
    };
    let eTv = match e.goal.evi {
        Evidence::TV(tv) => tv,
        Evidence::CNT { .. } => Tv { f: 0, c: 0 },
    };
    let bTv = match b.evi {
        Evidence::CNT { pos, cnt } => convCntToTv(pos, cnt),
        Evidence::TV(tv) => tv,
    };
    let desire = ded(&eTv, &bTv);
    let goal = SentenceDummy {
        term: condOp.clone(),
        punct: EnumPunctation::GOAL,
        stamp: e.goal.stamp.clone(),
        evi: Evidence::TV(desire),
        t: None,
        expDt: None,
    };
    let ne = Entry {
        goal,
        id: gs.nextId,
        parent: Some(e.id),
        evidence: Some(bi),
        depth: e.depth + 1,
        condOp: Some(condOp),
        satisfied: false,
        time,
    };
    gs.nextId = gs.nextId + 1;
    let ghost gne = ne;
    insertEntry(gs, ne);
    proof {
        assert(derived_entry(gne, old(gs).entries@[ei as int], mem.beliefs@[bi as int], bi,
            unify_spec(pred_of(mem.beliefs@[bi as int].term@), old(gs).entries@[ei as int].goal.term@, seq![])->0, time)
            && gne.id == old(gs).nextId && insert_post(*old(gs), gne, *gs));
        assert(gs.nextId == old(gs).nextId + 1);
    }
    true
}

/// The outcome of goal derivation from the goal `ei`: nothing when no belief is a candidate for
/// it, else the derivation from one of its candidates.
pub open spec fn drawn_outcome(old: GoalSystem, mem: Mem, ei: int, time: i64, new: GoalSystem) -> bool {
    if exists|bi: int| 0 <= bi < mem.beliefs.len() && #[trigger] is_cand(old, mem, ei, bi) {
        exists|bi: int| 0 <= bi < mem.beliefs.len() && #[trigger] is_cand(old, mem, ei, bi) && derive_post(old, mem, ei, bi as usize, time, new)
    } else {
        new == old
    }
}

/// What goal derivation gives: nothing without goals; else the outcome for one of the goals.
pub open spec fn sample_post(old: GoalSystem, mem: Mem, time: i64, new: GoalSystem) -> bool {
    if old.entries.len() == 0 {
        new == old
    } else {
        exists|ei: int| 0 <= ei < old.entries.len() && #[trigger] drawn_outcome(old, mem, ei, time, new)
    }
}

/// Goal derivation: picks a random goal and a random belief whose predicate unifies with it,
/// and derives the subgoal they give.
pub fn sampleAndInference(gs: &mut GoalSystem, time: i64, mem: &Mem, rng: &mut rand::rngs::ThreadRng)
    requires
        old(gs).wf(),
        mem.wf(),
        old(gs).nextId < u64::MAX,
    ensures
        final(gs).wf(),
        sample_post(*old(gs), *mem, time, *final(gs)),
{
    if gs.entries.len() == 0 {
        return;
    }
    let ei = genBelow(rng, gs.entries.len() as u64) as usize;
    let mut cands: Vec<usize> = Vec::new();
    let mut k: usize = 0;
    while k < mem.beliefs.len()
        invariant
            mem.wf(),
            k <= mem.beliefs.len(),
            ei < gs.entries.len(),
            *gs == *old(gs),
            forall|j: int| 0 <= j < cands.len() ==> #[trigger] cands[j] < mem.beliefs.len() && is_cand(*gs, *mem, ei as int, cands[j] as int),
            forall|b: int| 0 <= b < k && is_cand(*gs, *mem, ei as int, b) ==> cands@.contains(b as usize),
        decreases mem.beliefs.len() - k,
    {
        assert(evidence_ok(mem.beliefs[k as int]));
        let pred = retPred(&mem.beliefs[k].term);
        if unify(&pred, &gs.entries[ei].goal.term).is_some() {
            let ghost before = cands@;
            cands.push(k);
            proof {
                assert forall|b: int| 0 <= b < k + 1 && is_cand(*gs, *mem, ei as int, b) implies cands@.contains(b as usize) by {
                    if b < k {
                        let w = choose|w: int| 0 <= w < before.len() && before[w] == b as usize;
                        assert(cands@[w] == b as usize);
                    } else {
                        assert(cands@[cands.len() - 1] == b as usize);
                    }
                }
            }
        }
        k = k + 1;
    }
    if cands.len() == 0 {
        proof {
            assert forall|bi: int| 0 <= bi < mem.beliefs.len() implies !#[trigger] is_cand(*old(gs), *mem, ei as int, bi) by {
                if is_cand(*old(gs), *mem, ei as int, bi) {
                    assert(cands@.contains(bi as usize));
                }
            }
            assert(drawn_outcome(*old(gs), *mem, ei as int, time, *gs));
        }
        return;
    }
    let ci = genBelow(rng, cands.len() as u64) as usize;
    let bi = cands[ci];
    deriveSubgoal(gs, mem, ei, bi, time);
    proof {
        assert(is_cand(*old(gs), *mem, ei as int, bi as int));
        assert(drawn_outcome(*old(gs), *mem, ei as int, time, *gs));
    }
}

/// The entries that are not satisfied, in their order.
pub open spec fn unsatisfied(s: Seq<Entry>) -> Seq<Entry>
    decreases s.len(),
{
    if s.len() == 0 {
        seq![]
    } else {
        unsatisfied(s.subrange(0, s.len() - 1)) + if s[s.len() - 1].satisfied { seq![] } else { seq![s[s.len() - 1]] }
    }
}

/// Drops the satisfied goals (the number of goals is kept within its bound at insertion, where
/// the least desired and oldest goal goes first).
#[verifier::rlimit(40)]
pub fn limitMemory(gs: &mut GoalSystem, time: i64)
    requires
        old(gs).wf(),
    ensures
        final(gs).wf(),
        final(gs).nMaxEntries == old(gs).nMaxEntries,
        final(gs).maxDepth == old(gs).maxDepth,
        final(gs).nextId == old(gs).nextId,
        final(gs).entries@ == unsatisfied(old(gs).entries@),
{
    let ghost o = gs.entries@;
    let mut kept: Vec<Entry> = Vec::new();
    let mut old_entries: Vec<Entry> = Vec::new();
    std::mem::swap(&mut old_entries, &mut gs.entries);
    assert(old_entries@ == o);
    let mut i: usize = 0;
    assert(o.subrange(0, 0) =~= seq![]);
    while old_entries.len() > 0
        invariant
            i + old_entries.len() == o.len(),
            o.len() <= usize::MAX,
            old_entries@ == o.subrange(i as int, o.len() as int),
            kept@ == unsatisfied(o.subrange(0, i as int)),
        decreases old_entries.len(),
    {
        assert(i < o.len());
        let e = old_entries.remove(0);
        proof {
            assert(o.subrange(0, i + 1).subrange(0, i as int) =~= o.subrange(0, i as int));
            assert(o.subrange(0, i + 1)[i as int] == e);
            assert(old_entries@ =~= o.subrange(i + 1, o.len() as int));
        }
        if !e.satisfied {
            kept.push(e);
        }
        proof {
            assert(kept@ =~= unsatisfied(o.subrange(0, i + 1)));
        }
        i = i + 1;
    }
    assert(o.subrange(0, o.len() as int) =~= o);
    gs.entries = kept;
    proof {
        lemma_unsatisfied_contains(o);
    }
}

pub proof fn lemma_unsatisfied_contains(s: Seq<Entry>)
    ensures
        unsatisfied(s).len() <= s.len(),
        forall|i: int| 0 <= i < unsatisfied(s).len() ==> s.contains(#[trigger] unsatisfied(s)[i]),
    decreases s.len(),
{
    if s.len() > 0 {
        let p = s.subrange(0, s.len() - 1);
        lemma_unsatisfied_contains(p);
        assert forall|i: int| 0 <= i < unsatisfied(s).len() implies s.contains(#[trigger] unsatisfied(s)[i]) by {
            if i < unsatisfied(p).len() {
                let x = unsatisfied(p)[i];
                assert(unsatisfied(s)[i] == x);
                let w = choose|w: int| 0 <= w < p.len() && p[w] == x;
                assert(s[w] == x);
            } else {
                assert(unsatisfied(s)[i] == s[s.len() - 1]);
            }
        }
    }
}


/// Goal derivation only adds a goal derived with a belief of `mem`.
pub proof fn lemma_sample_post_evidence(old: GoalSystem, mem: Mem, time: i64, new: GoalSystem)
    requires
        sample_post(old, mem, time, new),
        forall|i: int| 0 <= i < old.entries.len() && (#[trigger] old.entries[i]).evidence is Some
            ==> old.entries[i].evidence->0 < mem.beliefs.len(),
    ensures
        forall|i: int| 0 <= i < new.entries.len() && (#[trigger] new.entries[i]).evidence is Some
            ==> new.entries[i].evidence->0 < mem.beliefs.len(),
{
    if old.entries.len() > 0 {
        let ei = choose|ei: int| 0 <= ei < old.entries.len() && #[trigger] drawn_outcome(old, mem, ei, time, new);
        if exists|bi: int| 0 <= bi < mem.beliefs.len() && #[trigger] is_cand(old, mem, ei, bi) {
            let bi = choose|bi: int| 0 <= bi < mem.beliefs.len() && #[trigger] is_cand(old, mem, ei, bi) && derive_post(old, mem, ei, bi as usize, time, new);
            if old.entries@[ei].depth < old.maxDepth {
                let ne = choose|ne: Entry| derived_entry(ne, old.entries@[ei], mem.beliefs@[bi], bi as usize,
                    unify_spec(pred_of(mem.beliefs@[bi].term@), old.entries@[ei].goal.term@, seq![])->0, time)
                    && ne.id == old.nextId && insert_post(old, ne, new);
                let all = old.entries@.push(ne);
                assert forall|i: int| 0 <= i < new.entries.len() && (#[trigger] new.entries[i]).evidence is Some
                    implies new.entries[i].evidence->0 < mem.beliefs.len() by {
                    if ne.depth < 0 || ne.depth > old.maxDepth {
                        assert(new.entries@[i] == old.entries@[i]);
                    } else {
                        assert(all.contains(new.entries@[i]));
                        let w = choose|w: int| 0 <= w < all.len() && all[w] == new.entries@[i];
                        if w < old.entries.len() {
                            assert(all[w] == old.entries@[w]);
                        }
                    }
                }
            }
        }
    }
}

}
