use vstd::prelude::*;

use crate::term::{Term, TermV, Copula, term_view, children_view, checkEqTerm};
use crate::truth::{Evidence, TV_ONE, CNT_MAX};
use crate::stamp::newStamp;
use crate::sentence::{SentenceDummy, EnumPunctation};
use crate::termapi::{decodeOp, decode_spec, encode_spec, encodeOp, list_view, retPred, retSeqOp, findMinTableIdx, min_table_idx_ok, pred_of, children_of_seq};
use crate::mem::{Mem, make, storeEvidence, store_post, evidence_ok, pos_of, cnt_of, limitMemory};
use crate::goals::{GoalSystem, makeGoalSystem, selHighestExpGoalByState, sampleAndInference, event_occurred, qualifies, unified_cond, entry_exp, best_entry, sample_post, unsatisfied};
use crate::unify::{subst_spec, subst_list, unify_spec};
use crate::rng::{newRng, genBelow};

verus! {

broadcast use vstd::std_specs::vec::group_vec_axioms;

/// Most events the trace keeps.
pub const TRACE_MAX: usize = 20;

/// Bound on the reasoner's time, far beyond any run, so that time arithmetic cannot overflow.
pub const T_LIMIT: i64 = 0x3fff_ffff_ffff_ffff;

/// Bound on the configured maximal interval.
pub const INTERVAL_LIMIT: i64 = 0x7fff_ffff;

/// An event of the trace: its term, evidence id and occurrence time.
pub struct SimpleSentence {
    pub name: Term,
    pub evi: i64,
    pub occT: i64,
}

impl Clone for SimpleSentence {
    fn clone(&self) -> (r: SimpleSentence)
        ensures
            r.name@ == self.name@,
            r.evi == self.evi,
            r.occT == self.occT,
    {
        SimpleSentence { name: self.name.clone(), evi: self.evi, occT: self.occT }
    }
}

/// An anticipated event "in flight": the belief that predicts it, when it was made, and its deadline.
#[derive(Clone, Copy)]
pub struct AnticipationEvent {
    /// index of the belief in evidence memory
    pub evi: usize,
    /// deadline in absolute cycles
    pub deadline: i64,
    /// time at which the anticipation was made
    pub created: i64,
}

/// An operation that the reasoner can call; implemented by its users.
pub trait Op {
    /// name of the op, beginning with `^`
    fn retName(&self) -> String;
    fn call(&self, args: &Vec<Term>);
}

/// Contains all variables of a procedural reasoner.
pub struct ProcNar {
    /// base of the exponential intervals, as the ratio `num / den`
    pub cfgIntervalExpBaseNum: u64,
    pub cfgIntervalExpBaseDen: u64,
    /// maximal interval time
    pub cfgIntervalMax: i64,
    /// perception window for current events
    pub cfgPerceptWindow: i64,
    /// decision threshold for decision making (fixed point, `TV_ONE` is 1)
    pub cfgDescnThreshold: u64,
    /// maximal number of evidence
    pub cfgNMaxEvidence: i64,
    /// how often the event trace is sampled for perception in each step
    pub cfgPerceptionSamplesPerStep: i64,
    /// enable motor babbling?
    pub cfgEnBabbling: bool,
    /// how many ops an implication sequence can hold at most
    pub cfg__nOpsMax: i64,
    /// probability to select multiple ops for candidates (fixed point, `TV_ONE` is 1)
    pub cfg__multiOpProbability: u64,
    /// how many concepts memory keeps at most
    pub cfg__nConcepts: i64,
    /// verbosity
    pub cfgVerbosity: i64,
    /// memory with the procedural evidence
    pub evidenceMem: Mem,
    /// trace of the last events
    pub trace: Vec<SimpleSentence>,
    /// all anticipated events "in flight"
    pub anticipatedEvents: Vec<AnticipationEvent>,
    /// names of the registered ops
    pub ops: Vec<String>,
    /// time
    pub t: i64,
    pub rng: rand::rngs::ThreadRng,
    /// table of exponential intervals
    pub expIntervalsTable: Vec<i64>,
    /// goals of the procedural reasoner
    pub goalSystem: GoalSystem,
}

/// `b` to the power `e`.
pub open spec fn pow(b: nat, e: nat) -> nat
    decreases e,
{
    if e == 0 {
        1
    } else {
        b * pow(b, (e - 1) as nat)
    }
}

/// `floor((num / den)^i)`.
pub open spec fn interval_value(num: nat, den: nat, i: nat) -> nat {
    pow(num, i) / pow(den, i)
}

/// Iteration `i` ends the table: the value exceeds `max`, or `num^i` no longer fits in 128 bits.
pub open spec fn interval_stop(num: nat, den: nat, max: int, i: nat) -> bool {
    pow(num, i) > u128::MAX || interval_value(num, den, i) > max || i >= 200
}

/// The distinct values `floor((num / den)^j)`, `j >= i`, in increasing order, above `last`,
/// up to the first stopping iteration.
pub open spec fn interval_table(num: nat, den: nat, max: int, i: nat, last: int) -> Seq<int>
    decreases 200 - i,
{
    if interval_stop(num, den, max, i) {
        seq![]
    } else if interval_value(num, den, i) > last {
        seq![interval_value(num, den, i) as int] + interval_table(num, den, max, i + 1, interval_value(num, den, i) as int)
    } else {
        interval_table(num, den, max, i + 1, last)
    }
}

proof fn lemma_pow_pos(b: nat, e: nat)
    requires
        b >= 1,
    ensures
        pow(b, e) >= 1,
    decreases e,
{
    if e > 0 {
        lemma_pow_pos(b, (e - 1) as nat);
        assert(b * pow(b, (e - 1) as nat) >= 1) by (nonlinear_arith)
            requires
                b >= 1,
                pow(b, (e - 1) as nat) >= 1,
        ;
    }
}

proof fn lemma_pow_le(num: nat, den: nat, e: nat)
    requires
        1 <= den <= num,
    ensures
        pow(den, e) <= pow(num, e),
    decreases e,
{
    if e > 0 {
        lemma_pow_le(num, den, (e - 1) as nat);
        lemma_pow_pos(den, (e - 1) as nat);
        let a = pow(den, (e - 1) as nat);
        let c = pow(num, (e - 1) as nat);
        assert(den * a <= num * c) by (nonlinear_arith)
            requires
                den <= num,
                a <= c,
                1 <= den,
                1 <= a,
        ;
    }
}

proof fn lemma_table_bounds(num: nat, den: nat, max: int, i: nat, last: int)
    requires
        last >= 0,
    ensures
        forall|k: int| 0 <= k < interval_table(num, den, max, i, last).len() ==>
            last < #[trigger] interval_table(num, den, max, i, last)[k] <= max,
        forall|k: int, l: int| 0 <= k < l < interval_table(num, den, max, i, last).len() ==>
            #[trigger] interval_table(num, den, max, i, last)[k] < #[trigger] interval_table(num, den, max, i, last)[l],
    decreases 200 - i,
{
    if !interval_stop(num, den, max, i) {
        let v = interval_value(num, den, i) as int;
        if v > last {
            lemma_table_bounds(num, den, max, i + 1, v);
            let t = interval_table(num, den, max, i + 1, v);
            let r = interval_table(num, den, max, i, last);
            assert(r == seq![v] + t);
            assert forall|k: int| 0 <= k < r.len() implies last < #[trigger] r[k] <= max by {
                if k > 0 {
                    assert(r[k] == t[k - 1]);
                }
            }
            assert forall|k: int, l: int| 0 <= k < l < r.len() implies #[trigger] r[k] < #[trigger] r[l] by {
                assert(r[l] == t[l - 1]);
                if k > 0 {
                    assert(r[k] == t[k - 1]);
                }
            }
        } else {
            lemma_table_bounds(num, den, max, i + 1, last);
            assert(interval_table(num, den, max, i, last) == interval_table(num, den, max, i + 1, last));
        }
    }
}

/// Builds the table of exponential intervals `floor(base^i)` up to `max`, increasing, without repeats.
pub fn buildExpIntervalsTable(num: u64, den: u64, max: i64) -> (r: Vec<i64>)
    requires
        1 <= den < num,
    ensures
        r@.map_values(|x: i64| x as int) == interval_table(num as nat, den as nat, max as int, 0, 0),
        forall|k: int| 0 <= k < r.len() ==> 1 <= #[trigger] r[k] <= max,
        forall|k: int, l: int| 0 <= k < l < r.len() ==> #[trigger] r[k] < #[trigger] r[l],
        r.len() <= 201,
{
    let mut table: Vec<i64> = Vec::new();
    let mut pn: u128 = 1;
    let mut pd: u128 = 1;
    let mut i: u64 = 0;
    let mut last: i64 = 0;
    let ghost full = interval_table(num as nat, den as nat, max as int, 0, 0);
    proof {
        lemma_table_bounds(num as nat, den as nat, max as int, 0, 0);
    }
    let mut stop = false;
    while !stop
        invariant
            1 <= den < num,
            i <= 200,
            !stop ==> pn == pow(num as nat, i as nat) && pd == pow(den as nat, i as nat),
            last >= 0,
            full == interval_table(num as nat, den as nat, max as int, 0, 0),
            !stop ==> full == table@.map_values(|x: i64| x as int) + interval_table(num as nat, den as nat, max as int, i as nat, last as int),
            stop ==> full == table@.map_values(|x: i64| x as int),
            table.len() > 0 ==> last == table@.last(),
            table.len() == 0 ==> last == 0,
            forall|k: int| 0 <= k < table.len() ==> 1 <= #[trigger] table[k] <= last,
            forall|k: int, l: int| 0 <= k < l < table.len() ==> #[trigger] table[k] < #[trigger] table[l],
            last <= max || table.len() == 0,
            !stop ==> table.len() <= i,
            table.len() <= 201,
        decreases 200 - i + if stop { 0int } else { 1int },
    {
        proof {
            lemma_pow_le(num as nat, den as nat, i as nat);
            lemma_pow_pos(den as nat, i as nat);
        }
        if i >= 200 {
            proof {
                assert(table@.map_values(|x: i64| x as int) + seq![] =~= table@.map_values(|x: i64| x as int));
            }
            stop = true;
        } else {
            let v128 = pn / pd;
            if max < 0 || v128 > max as u128 {
                proof {
                    assert(interval_stop(num as nat, den as nat, max as int, i as nat));
                    assert(table@.map_values(|x: i64| x as int) + seq![] =~= table@.map_values(|x: i64| x as int));
                }
                stop = true;
            } else {
                let v = v128 as i64;
                let ghost rest = interval_table(num as nat, den as nat, max as int, i as nat, last as int);
                if v > last {
                    proof {
                        assert(rest == seq![v as int] + interval_table(num as nat, den as nat, max as int, (i + 1) as nat, v as int));
                    }
                    let ghost before = table@;
                    table.push(v);
                    last = v;
                    proof {
                        assert(table@.map_values(|x: i64| x as int) =~= before.map_values(|x: i64| x as int).push(v as int));
                        assert(full =~= table@.map_values(|x: i64| x as int) + interval_table(num as nat, den as nat, max as int, (i + 1) as nat, last as int));
                    }
                } else {
                    assert(rest == interval_table(num as nat, den as nat, max as int, (i + 1) as nat, last as int));
                }
                proof {
                    assert(pow(num as nat, (i + 1) as nat) == num * pow(num as nat, i as nat));
                    assert(pow(den as nat, (i + 1) as nat) == den * pow(den as nat, i as nat));
                    lemma_pow_le(num as nat, den as nat, (i + 1) as nat);
                }
                let ghost opn = pn;
                let ghost opd = pd;
                let mn = pn.checked_mul(num as u128);
                let md = pd.checked_mul(den as u128);
                proof {
                    assert(num * opn == opn * num) by (nonlinear_arith);
                    assert(den * opd == opd * den) by (nonlinear_arith);
                }
                match (mn, md) {
                    (Some(a), Some(b)) => {
                        pn = a;
                        pd = b;
                        i = i + 1;
                    },
                    _ => {
                        proof {
                            assert(pow(num as nat, (i + 1) as nat) > u128::MAX);
                            assert(interval_stop(num as nat, den as nat, max as int, (i + 1) as nat));
                            assert(interval_table(num as nat, den as nat, max as int, (i + 1) as nat, last as int) == Seq::<int>::empty());
                            assert(table@.map_values(|x: i64| x as int) + seq![] =~= table@.map_values(|x: i64| x as int));
                        }
                        stop = true;
                    },
                }
            }
        }
    }
    table
}

/// The two reasoners have the same configuration.
pub open spec fn same_config(a: ProcNar, b: ProcNar) -> bool {
    &&& a.cfgIntervalExpBaseNum == b.cfgIntervalExpBaseNum
    &&& a.cfgIntervalExpBaseDen == b.cfgIntervalExpBaseDen
    &&& a.cfgIntervalMax == b.cfgIntervalMax
    &&& a.cfgPerceptWindow == b.cfgPerceptWindow
    &&& a.cfgDescnThreshold == b.cfgDescnThreshold
    &&& a.cfgNMaxEvidence == b.cfgNMaxEvidence
    &&& a.cfgPerceptionSamplesPerStep == b.cfgPerceptionSamplesPerStep
    &&& a.cfgEnBabbling == b.cfgEnBabbling
    &&& a.cfg__nOpsMax == b.cfg__nOpsMax
    &&& a.cfg__multiOpProbability == b.cfg__multiOpProbability
    &&& a.cfg__nConcepts == b.cfg__nConcepts
    &&& a.cfgVerbosity == b.cfgVerbosity
}

impl ProcNar {
    /// The reasoner's invariant: memory and goals well formed, the trace bounded, every
    /// anticipation pointing to a belief with a deadline after its creation, and a table of
    /// positive intervals.
    pub open spec fn wf(&self) -> bool {
        &&& self.evidenceMem.wf()
        &&& self.goalSystem.wf()
        &&& self.trace.len() <= TRACE_MAX
        &&& 0 <= self.t <= T_LIMIT
        &&& forall|i: int| 0 <= i < self.trace.len() ==> 0 <= (#[trigger] self.trace[i]).occT <= self.t
        &&& forall|i: int| 0 <= i < self.anticipatedEvents.len() ==> (#[trigger] self.anticipatedEvents[i]).evi < self.evidenceMem.beliefs.len()
            && self.anticipatedEvents[i].deadline > self.anticipatedEvents[i].created
        &&& forall|i: int| 0 <= i < self.goalSystem.entries.len() && (#[trigger] self.goalSystem.entries[i]).evidence is Some
            ==> self.goalSystem.entries[i].evidence->0 < self.evidenceMem.beliefs.len()
        &&& self.expIntervalsTable.len() >= 1
        &&& self.expIntervalsTable.len() <= i64::MAX
        &&& forall|k: int| 0 <= k < self.expIntervalsTable.len() ==> 1 <= #[trigger] self.expIntervalsTable[k] <= INTERVAL_LIMIT
        &&& 0 <= self.cfgPerceptWindow
        &&& 0 <= self.cfg__nConcepts
    }
}

/// Creates a reasoner with the default configuration and empty memory, trace and goals.
pub fn narInit() -> (r: ProcNar)
    ensures
        r.wf(),
        r.t == 0,
        r.trace.len() == 0,
        r.anticipatedEvents.len() == 0,
        r.ops.len() == 0,
        r.evidenceMem.beliefs.len() == 0,
        r.evidenceMem.concepts.len() == 0,
        r.goalSystem.entries.len() == 0,
        r.cfgIntervalMax == 20,
        r.cfgPerceptWindow == 2,
        r.cfgDescnThreshold == 5800,
        r.cfgPerceptionSamplesPerStep == 4,
        r.cfgEnBabbling,
        r.cfg__nOpsMax == 1,
        r.cfg__nConcepts == 1000,
        r.expIntervalsTable@.map_values(|x: i64| x as int) == interval_table(13, 10, 20, 0, 0),
{
    let table = buildExpIntervalsTable(13, 10, 20);
    proof {
        assert(pow(13, 0) == 1);
        assert(pow(10, 0) == 1);
        assert(interval_value(13, 10, 0) == 1);
        assert(!interval_stop(13, 10, 20, 0));
        assert(interval_table(13, 10, 20, 0, 0).len() >= 1);
        assert(table@.map_values(|x: i64| x as int).len() == table.len());
    }
    ProcNar {
        cfgIntervalExpBaseNum: 13,
        cfgIntervalExpBaseDen: 10,
        cfgIntervalMax: 20,
        cfgPerceptWindow: 2,
        cfgDescnThreshold: 5800,
        cfgNMaxEvidence: 5000,
        cfgPerceptionSamplesPerStep: 4,
        cfgEnBabbling: true,
        cfg__nOpsMax: 1,
        cfg__multiOpProbability: 2000,
        cfg__nConcepts: 1000,
        cfgVerbosity: 0,
        evidenceMem: make(),
        trace: Vec::new(),
        anticipatedEvents: Vec::new(),
        ops: Vec::new(),
        t: 0,
        rng: newRng(),
        expIntervalsTable: table,
        goalSystem: makeGoalSystem(20, 8),
    }
}

/// The term is an operation whose name is registered.
pub open spec fn callable(ops: Seq<String>, t: TermV) -> bool {
    &&& decode_spec(t) is Some
    &&& exists|i: int| 0 <= i < ops.len() && (#[trigger] ops[i])@ == (decode_spec(t)->0).1
}

/// Is the term an operation that can be called?
fn checkIsCallableOp(nar: &ProcNar, term: &Term) -> (r: bool)
    ensures
        r == callable(nar.ops@, term@),
{
    let (_opArgs, opName) = match decodeOp(term) {
        Some(x) => x,
        None => return false,
    };
    let mut i: usize = 0;
    while i < nar.ops.len()
        invariant
            i <= nar.ops.len(),
            decode_spec(term@) == Some((list_view(_opArgs@), opName@)),
            forall|j: int| 0 <= j < i ==> (#[trigger] nar.ops@[j])@ != opName@,
        decreases nar.ops.len() - i,
    {
        if nar.ops[i] == opName {
            return true;
        }
        i = i + 1;
    }
    false
}

/// Indices of the trace events that are callable operations, in increasing order.
pub fn calcIdxsOfOps(nar: &ProcNar, trace: &Vec<SimpleSentence>) -> (r: Vec<i64>)
    requires
        trace.len() <= i64::MAX,
    ensures
        forall|k: int| 0 <= k < r.len() ==> 0 <= #[trigger] r[k] < trace.len() && callable(nar.ops@, trace[r[k] as int].name@),
        forall|k: int, l: int| 0 <= k < l < r.len() ==> #[trigger] r[k] < #[trigger] r[l],
        forall|i: int| 0 <= i < trace.len() && callable(nar.ops@, (#[trigger] trace[i]).name@) ==> r@.contains(i as i64),
{
    let mut res: Vec<i64> = Vec::new();
    let mut idx: usize = 0;
    while idx < trace.len()
        invariant
            idx <= trace.len(),
            trace.len() <= i64::MAX,
            forall|k: int| 0 <= k < res.len() ==> 0 <= #[trigger] res[k] < idx && callable(nar.ops@, trace[res[k] as int].name@),
            forall|k: int, l: int| 0 <= k < l < res.len() ==> #[trigger] res[k] < #[trigger] res[l],
            forall|i: int| 0 <= i < idx && callable(nar.ops@, (#[trigger] trace[i]).name@) ==> res@.contains(i as i64),
        decreases trace.len() - idx,
    {
        if checkIsCallableOp(nar, &trace[idx].name) {
            let ghost before = res@;
            res.push(idx as i64);
            proof {
                assert forall|i: int| 0 <= i < idx + 1 && callable(nar.ops@, (#[trigger] trace[i]).name@) implies res@.contains(i as i64) by {
                    if i < idx {
                        let w = choose|w: int| 0 <= w < before.len() && before[w] == i as i64;
                        assert(res@[w] == i as i64);
                    } else {
                        assert(res@[res.len() - 1] == i as i64);
                    }
                }
            }
        }
        idx = idx + 1;
    }
    res
}

/// Events can form a rule: at least three; the middle ones callable operations, the first and
/// the last not, and the first different from the last.
pub open spec fn build_ok(ops: Seq<String>, ev: Seq<TermV>) -> bool {
    &&& ev.len() >= 3
    &&& forall|i: int| 1 <= i < ev.len() - 1 ==> callable(ops, #[trigger] ev[i])
    &&& !callable(ops, ev[0])
    &&& !callable(ops, ev[ev.len() - 1])
    &&& ev[0] != ev[ev.len() - 1]
}

/// The rule `(e0 &/ e1 &/ ...) =/> last` of a list of events.
pub open spec fn impl_seq_of(ev: Seq<TermV>) -> TermV {
    TermV::Stmt(Copula::PREDIMPL, Box::new(TermV::Sequence(ev.subrange(0, ev.len() - 1))), Box::new(ev[ev.len() - 1]))
}

/// Tries to build a rule out of events, ex: `[a, ^op, c]` gives `(a &/ ^op) =/> c`.
pub fn try_build_implSeq(nar: &ProcNar, events: &Vec<Term>) -> (r: Option<Term>)
    requires
        events.len() >= 3,
    ensures
        r is Some == build_ok(nar.ops@, list_view(events@)),
        r is Some ==> r->0@ == impl_seq_of(list_view(events@)),
{
    let ghost ev = list_view(events@);
    let n = events.len();
    let mut i: usize = 1;
    while i < n - 1
        invariant
            1 <= i <= n - 1,
            n == events.len(),
            ev == list_view(events@),
            forall|j: int| 1 <= j < i ==> callable(nar.ops@, #[trigger] ev[j]),
        decreases n - 1 - i,
    {
        if !checkIsCallableOp(nar, &events[i]) {
            assert(!callable(nar.ops@, ev[i as int]));
            return None;
        }
        i = i + 1;
    }
    if checkIsCallableOp(nar, &events[0]) || checkIsCallableOp(nar, &events[n - 1]) || checkEqTerm(&events[0], &events[n - 1]) {
        return None;
    }
    let mut seq2: Vec<Term> = Vec::new();
    let mut k: usize = 0;
    while k < n - 1
        invariant
            k <= n - 1,
            n == events.len(),
            ev == list_view(events@),
            seq2.len() == k,
            list_view(seq2@) == ev.subrange(0, k as int),
        decreases n - 1 - k,
    {
        let ghost before = seq2@;
        seq2.push(events[k].clone());
        assert forall|j: int| 0 <= j < k + 1 implies #[trigger] list_view(seq2@)[j] == ev.subrange(0, k + 1)[j] by {
            if j < k {
                assert(list_view(before)[j] == ev.subrange(0, k as int)[j]);
                assert(seq2@[j] == before[j]);
            }
        }
        assert(list_view(seq2@) =~= ev.subrange(0, k + 1));
        k = k + 1;
    }
    let sq = crate::termapi::seq(&seq2);
    Some(crate::termapi::s(Copula::PREDIMPL, &sq, &events[n - 1]))
}

/// The positions of a candidate: the condition, the chosen operations, and the consequence,
/// which is the last event, or the one before it when `usePrev` asks for it and it lies after
/// the operations and is no operation.
pub open spec fn cand_last(trace: Seq<SimpleSentence>, ops: Seq<String>, sel: Seq<usize>, usePrev: bool) -> int {
    let n = trace.len() as int;
    if usePrev && n >= 2 && n - 2 > sel[sel.len() - 1] && !callable(ops, trace[n - 2].name@) {
        n - 2
    } else {
        n - 1
    }
}

pub open spec fn cand_idxs(trace: Seq<SimpleSentence>, ops: Seq<String>, sel: Seq<usize>, idxFirst: usize, usePrev: bool) -> Seq<int> {
    seq![idxFirst as int] + sel.map_values(|x: usize| x as int) + seq![cand_last(trace, ops, sel, usePrev)]
}

/// The draws can form a candidate: the consequence lies after the operations and the events
/// can form a rule.
pub open spec fn cand_exists(trace: Seq<SimpleSentence>, ops: Seq<String>, sel: Seq<usize>, idxFirst: usize, usePrev: bool) -> bool {
    cand_last(trace, ops, sel, usePrev) > sel[sel.len() - 1]
        && build_ok(ops, trace_terms(trace, cand_idxs(trace, ops, sel, idxFirst, usePrev)))
}

/// `c` is the candidate rule of these draws: the rule of the chosen events, one positive
/// observation, the stamp of their evidence ids, and the interval index of the time from the
/// last operation to the consequence.
pub open spec fn cand_of(trace: Seq<SimpleSentence>, ops: Seq<String>, table: Seq<i64>, sel: Seq<usize>, idxFirst: usize, usePrev: bool, c: SentenceDummy) -> bool {
    let idxs = cand_idxs(trace, ops, sel, idxFirst, usePrev);
    &&& evidence_ok(c)
    &&& c.term@ == impl_seq_of(trace_terms(trace, idxs))
    &&& c.punct == EnumPunctation::JUGEMENT
    &&& c.evi == Evidence::CNT { pos: 1, cnt: 1 }
    &&& c.stamp.evi@ == trace_evis(trace, idxs)
    &&& c.t is None
    &&& c.expDt is Some
    &&& min_table_idx_ok((trace[idxs[idxs.len() - 1]].occT - trace[idxs[idxs.len() - 2]].occT) as i64, table, c.expDt->0 as int)
}

/// Admissible draws of a perception sample: increasing positions of callable operations (one
/// when `nOpsMax <= 1`, at most `nOpsMax` otherwise), and a condition position before the first
/// of them.
pub open spec fn draws_ok(trace: Seq<SimpleSentence>, ops: Seq<String>, nOpsMax: i64, sel: Seq<usize>, idxFirst: usize) -> bool {
    &&& sel.len() >= 1
    &&& if nOpsMax <= 1 { sel.len() == 1 } else { sel.len() <= nOpsMax }
    &&& forall|k: int, l: int| 0 <= k < l < sel.len() ==> #[trigger] sel[k] < #[trigger] sel[l]
    &&& forall|k: int| 0 <= k < sel.len() ==> #[trigger] sel[k] < trace.len() && callable(ops, trace[sel[k] as int].name@)
    &&& sel[0] > 0 ==> idxFirst < sel[0]
}

/// The outcome of one perception sample with the given draws: unchanged memory when the first
/// operation is the first event or no candidate forms, else the candidate of the draws stored.
pub open spec fn sample_outcome(trace: Seq<SimpleSentence>, ops: Seq<String>, nOpsMax: i64, table: Seq<i64>, sel: Seq<usize>, idxFirst: usize, usePrev: bool, m0: Mem, m1: Mem) -> bool {
    &&& draws_ok(trace, ops, nOpsMax, sel, idxFirst)
    &&& if sel[0] == 0 || !cand_exists(trace, ops, sel, idxFirst, usePrev) {
        m1 == m0
    } else {
        exists|c: SentenceDummy, rv: bool| cand_of(trace, ops, table, sel, idxFirst, usePrev, c) && store_post(m0, c, m1, rv)
    }
}

/// One perception sample takes evidence memory from `m0` to `m1`: unchanged when the trace holds
/// no callable operation; otherwise as some admissible draws give.
pub open spec fn perceive_step(trace: Seq<SimpleSentence>, ops: Seq<String>, nOpsMax: i64, table: Seq<i64>, m0: Mem, m1: Mem) -> bool {
    ||| (forall|i: int| 0 <= i < trace.len() ==> !callable(ops, #[trigger] trace[i].name@)) && m1 == m0
    ||| exists|sel: Seq<usize>, idxFirst: usize, usePrev: bool| #[trigger] sample_outcome(trace, ops, nOpsMax, table, sel, idxFirst, usePrev, m0, m1)
}

/// The events at the given positions of the trace.
pub open spec fn trace_terms(trace: Seq<SimpleSentence>, idxs: Seq<int>) -> Seq<TermV> {
    idxs.map_values(|k: int| trace[k].name@)
}

/// The evidence ids at the given positions of the trace.
pub open spec fn trace_evis(trace: Seq<SimpleSentence>, idxs: Seq<int>) -> Seq<i64> {
    idxs.map_values(|k: int| trace[k].evi)
}

/// Builds the candidate rule for the given positions: `idxFirst` before the increasing operation
/// positions `sel`, the consequence after them; `None` when the consequence is not after the
/// operations or the events cannot form a rule.
pub fn sampleCandidate(nar: &ProcNar, sel: &Vec<usize>, idxFirst: usize, usePrev: bool) -> (r: Option<SentenceDummy>)
    requires
        nar.wf(),
        sel.len() >= 1,
        idxFirst < sel[0],
        forall|k: int, l: int| 0 <= k < l < sel.len() ==> #[trigger] sel[k] < #[trigger] sel[l],
        forall|k: int| 0 <= k < sel.len() ==> #[trigger] sel[k] < nar.trace.len(),
    ensures
        r is Some == cand_exists(nar.trace@, nar.ops@, sel@, idxFirst, usePrev),
        r is Some ==> cand_of(nar.trace@, nar.ops@, nar.expIntervalsTable@, sel@, idxFirst, usePrev, r->0),
{
    let n = nar.trace.len();
    let lastSel = sel[sel.len() - 1];
    let mut idxLast = n - 1;
    if usePrev && n >= 2 && n - 2 > lastSel && !checkIsCallableOp(nar, &nar.trace[n - 2].name) {
        idxLast = n - 2;
    }
    let ghost idxs = cand_idxs(nar.trace@, nar.ops@, sel@, idxFirst, usePrev);
    if idxLast <= lastSel {
        return None;
    }
    let mut idxsV: Vec<usize> = Vec::new();
    idxsV.push(idxFirst);
    let mut k: usize = 0;
    while k < sel.len()
        invariant
            k <= sel.len(),
            idxsV.len() == k + 1,
            idxsV[0] == idxFirst,
            forall|j: int| 0 <= j < k ==> idxsV[j + 1] == #[trigger] sel[j],
        decreases sel.len() - k,
    {
        idxsV.push(sel[k]);
        k = k + 1;
    }
    idxsV.push(idxLast);
    assert(idxsV@.map_values(|x: usize| x as int) =~= idxs);
    assert forall|m: int| 0 <= m < idxsV.len() implies #[trigger] idxsV[m] < nar.trace.len() by {
        if 1 <= m <= sel.len() {
            assert(idxsV[m] == sel[m - 1]);
        }
    }
    let mut terms: Vec<Term> = Vec::new();
    let mut evis: Vec<i64> = Vec::new();
    let mut j: usize = 0;
    while j < idxsV.len()
        invariant
            nar.wf(),
            j <= idxsV.len(),
            idxsV@.map_values(|x: usize| x as int) == idxs,
            forall|m: int| 0 <= m < idxsV.len() ==> #[trigger] idxsV[m] < nar.trace.len(),
            terms.len() == j,
            list_view(terms@) == trace_terms(nar.trace@, idxs).subrange(0, j as int),
            evis@ == trace_evis(nar.trace@, idxs).subrange(0, j as int),
        decreases idxsV.len() - j,
    {
        let ghost before = terms@;
        terms.push(nar.trace[idxsV[j]].name.clone());
        evis.push(nar.trace[idxsV[j]].evi);
        assert forall|q: int| 0 <= q < j + 1 implies #[trigger] list_view(terms@)[q] == trace_terms(nar.trace@, idxs).subrange(0, j + 1)[q] by {
            if q < j {
                assert(list_view(before)[q] == trace_terms(nar.trace@, idxs).subrange(0, j as int)[q]);
                assert(terms@[q] == before[q]);
            } else {
                assert(idxs[q] == idxsV[q] as int);
            }
        }
        assert(list_view(terms@) =~= trace_terms(nar.trace@, idxs).subrange(0, j + 1));
        assert(evis@ =~= trace_evis(nar.trace@, idxs).subrange(0, j + 1));
        j = j + 1;
    }
    assert(list_view(terms@) =~= trace_terms(nar.trace@, idxs));
    assert(evis@ =~= trace_evis(nar.trace@, idxs));
    let term = match try_build_implSeq(nar, &terms) {
        Some(t) => t,
        None => return None,
    };
    let m = idxsV.len();
    let dt: i64 = nar.trace[idxsV[m - 1]].occT - nar.trace[idxsV[m - 2]].occT;
    let expDt = findMinTableIdx(dt, &nar.expIntervalsTable);
    proof {
        reveal_with_fuel(term_view, 2);
        assert(crate::termapi::is_predimpl(term@));
    }
    Some(SentenceDummy {
        term,
        punct: EnumPunctation::JUGEMENT,
        stamp: newStamp(&evis),
        evi: Evidence::CNT { pos: 1, cnt: 1 },
        t: None,
        expDt: Some(expDt),
    })
}

/// The events of the perception window, newest first.
pub open spec fn window_events(nar: ProcNar) -> Seq<TermV> {
    let n = nar.trace.len() as int;
    let w = if nar.cfgPerceptWindow < n { nar.cfgPerceptWindow as int } else { n };
    Seq::new(w as nat, |p: int| nar.trace[n - 1 - p].name@)
}

/// The event an anticipation predicts: the predicate of its belief.
pub open spec fn predicted(nar: ProcNar, a: AnticipationEvent) -> TermV {
    pred_of(nar.evidenceMem.beliefs[a.evi as int].term@)
}

/// The anticipations of `s` whose predicted event is not among the window's events.
pub open spec fn unconfirmed(nar: ProcNar, s: Seq<AnticipationEvent>) -> Seq<AnticipationEvent>
    decreases s.len(),
{
    if s.len() == 0 {
        seq![]
    } else {
        let a = s[s.len() - 1];
        unconfirmed(nar, s.subrange(0, s.len() - 1)) + if window_events(nar).contains(predicted(nar, a)) { seq![] } else { seq![a] }
    }
}

/// The anticipations of `s` whose deadline is after `t`.
pub open spec fn pending(s: Seq<AnticipationEvent>, t: i64) -> Seq<AnticipationEvent>
    decreases s.len(),
{
    if s.len() == 0 {
        seq![]
    } else {
        let a = s[s.len() - 1];
        pending(s.subrange(0, s.len() - 1), t) + if a.deadline > t { seq![a] } else { seq![] }
    }
}

/// How many anticipations of `s` against belief `i` have a deadline at or before `t`.
pub open spec fn n_expired(s: Seq<AnticipationEvent>, t: i64, i: int) -> nat
    decreases s.len(),
{
    if s.len() == 0 {
        0
    } else {
        let a = s[s.len() - 1];
        n_expired(s.subrange(0, s.len() - 1), t, i) + if a.deadline <= t && a.evi == i { 1nat } else { 0nat }
    }
}

fn predictedEvent(nar: &ProcNar, a: &AnticipationEvent) -> (r: Term)
    requires
        nar.wf(),
        a.evi < nar.evidenceMem.beliefs.len(),
    ensures
        r@ == predicted(*nar, *a),
{
    assert(evidence_ok(nar.evidenceMem.beliefs[a.evi as int]));
    retPred(&nar.evidenceMem.beliefs[a.evi].term)
}

fn inWindow(nar: &ProcNar, t: &Term) -> (r: bool)
    requires
        nar.wf(),
    ensures
        r == window_events(*nar).contains(t@),
{
    let n = nar.trace.len();
    let w: usize = if (nar.cfgPerceptWindow as u64) < n as u64 { nar.cfgPerceptWindow as usize } else { n };
    let ghost we = window_events(*nar);
    let mut p: usize = 0;
    while p < w
        invariant
            nar.wf(),
            n == nar.trace.len(),
            w <= n,
            we == window_events(*nar),
            we.len() == w,
            p <= w,
            forall|q: int| 0 <= q < p ==> we[q] != t@,
        decreases w - p,
    {
        if checkEqTerm(&nar.trace[n - 1 - p].name, t) {
            assert(we[p as int] == t@);
            return true;
        }
        p = p + 1;
    }
    false
}

/// Removes the anticipations confirmed by an event of the perception window.
pub fn confirmAnticipations(nar: &mut ProcNar)
    requires
        old(nar).wf(),
    ensures
        same_config(*old(nar), *final(nar)),
        final(nar).wf(),
        final(nar).anticipatedEvents@ == unconfirmed(*old(nar), old(nar).anticipatedEvents@),
        final(nar).evidenceMem == old(nar).evidenceMem,
        final(nar).trace@ == old(nar).trace@,
        final(nar).t == old(nar).t,
        final(nar).ops@ == old(nar).ops@,
        final(nar).goalSystem == old(nar).goalSystem,
        final(nar).expIntervalsTable@ == old(nar).expIntervalsTable@,
{
    let ghost o = *nar;
    let ghost ants = nar.anticipatedEvents@;
    let mut kept: Vec<AnticipationEvent> = Vec::new();
    let mut i: usize = 0;
    assert(ants.subrange(0, 0) =~= seq![]);
    while i < nar.anticipatedEvents.len()
        invariant
            nar.wf(),
            *nar == o,
            ants == o.anticipatedEvents@,
            i <= ants.len(),
            kept@ == unconfirmed(o, ants.subrange(0, i as int)),
            forall|k: int| 0 <= k < kept.len() ==> ants.contains(#[trigger] kept[k]),
        decreases ants.len() - i,
    {
        let a = nar.anticipatedEvents[i];
        let pe = predictedEvent(nar, &a);
        proof {
            assert(ants.subrange(0, i + 1).subrange(0, i as int) =~= ants.subrange(0, i as int));
            assert(ants.subrange(0, i + 1)[i as int] == a);
        }
        if !inWindow(nar, &pe) {
            kept.push(a);
            proof {
                assert forall|k: int| 0 <= k < kept.len() implies ants.contains(#[trigger] kept[k]) by {
                    if k == kept.len() - 1 {
                        assert(ants[i as int] == a);
                    }
                }
            }
        }
        i = i + 1;
    }
    assert(ants.subrange(0, ants.len() as int) =~= ants);
    nar.anticipatedEvents = kept;
    assert forall|k: int| 0 <= k < nar.anticipatedEvents.len() implies (#[trigger] nar.anticipatedEvents[k]).evi < nar.evidenceMem.beliefs.len()
        && nar.anticipatedEvents[k].deadline > nar.anticipatedEvents[k].created by {
        let w = choose|w: int| 0 <= w < ants.len() && ants[w] == nar.anticipatedEvents[k];
        assert(o.anticipatedEvents[w] == ants[w]);
    }
}

/// `mid` is evidence memory `old` after negative confirmation at time `t`: each belief keeps its
/// positive count and gains one total observation per anticipation of `ants` against it whose
/// deadline has come (up to `CNT_MAX`); nothing else changes.
pub open spec fn neg_confirmed(old: Mem, ants: Seq<AnticipationEvent>, t: i64, mid: Mem) -> bool {
    &&& mid.concepts@ == old.concepts@
    &&& mid.beliefs.len() == old.beliefs.len()
    &&& forall|i: int| 0 <= i < mid.beliefs.len() ==> {
        let o = old.beliefs[i];
        let n = #[trigger] mid.beliefs[i];
        &&& n.term@ == o.term@
        &&& n.stamp.evi@ == o.stamp.evi@
        &&& n.expDt == o.expDt
        &&& pos_of(n) == pos_of(o)
        &&& cnt_of(n) == if cnt_of(o) + n_expired(ants, t, i) <= CNT_MAX { cnt_of(o) + n_expired(ants, t, i) } else { CNT_MAX as int }
    }
}

/// `n` perception samples take evidence memory from `m0` to `m1`.
pub open spec fn perceived(trace: Seq<SimpleSentence>, ops: Seq<String>, nOpsMax: i64, table: Seq<i64>, n: nat, m0: Mem, m1: Mem) -> bool {
    exists|ms: Seq<Mem>| #![trigger ms.len(), ms[0]] ms.len() == n + 1 && ms[0] == m0 && ms[n as int] == m1
        && forall|k: int| 0 <= k < n ==> #[trigger] perceive_step(trace, ops, nOpsMax, table, ms[k], ms[k + 1])
}

/// Number of perception samples of a step.
pub open spec fn n_samples(nar: ProcNar) -> nat {
    if nar.trace.len() >= 3 && nar.cfgPerceptionSamplesPerStep > 0 { nar.cfgPerceptionSamplesPerStep as nat } else { 0 }
}

fn negConfirmBelief(b: &SentenceDummy) -> (r: SentenceDummy)
    requires
        evidence_ok(*b),
    ensures
        evidence_ok(r),
        r.term@ == b.term@,
        r.punct == b.punct,
        r.stamp.evi@ == b.stamp.evi@,
        r.t == b.t,
        r.expDt == b.expDt,
        pos_of(r) == pos_of(*b),
        cnt_of(r) == if cnt_of(*b) < CNT_MAX { cnt_of(*b) + 1 } else { cnt_of(*b) },
        r.evi is CNT,
{
    let evi = match b.evi {
        Evidence::CNT { pos, cnt } => if cnt < CNT_MAX { Evidence::CNT { pos, cnt: cnt + 1 } } else { Evidence::CNT { pos, cnt } },
        Evidence::TV(tv) => Evidence::TV(tv),
    };
    SentenceDummy { term: b.term.clone(), punct: b.punct, stamp: b.stamp.clone(), evi, t: b.t, expDt: b.expDt }
}

/// Negative confirmation: each anticipation whose deadline has come adds one (negative) observation
/// to the total count of its belief and is dropped.
pub fn negConfirm(nar: &mut ProcNar)
    requires
        old(nar).wf(),
    ensures
        same_config(*old(nar), *final(nar)),
        final(nar).wf(),
        final(nar).anticipatedEvents@ == pending(old(nar).anticipatedEvents@, old(nar).t),
        neg_confirmed(old(nar).evidenceMem, old(nar).anticipatedEvents@, old(nar).t, final(nar).evidenceMem),
        final(nar).trace@ == old(nar).trace@,
        final(nar).t == old(nar).t,
        final(nar).ops@ == old(nar).ops@,
        final(nar).goalSystem == old(nar).goalSystem,
        final(nar).expIntervalsTable@ == old(nar).expIntervalsTable@,
{
    let ghost ob = nar.evidenceMem.beliefs@;
    let ghost ants = nar.anticipatedEvents@;
    let t = nar.t;
    let mut kept: Vec<AnticipationEvent> = Vec::new();
    let mut i: usize = 0;
    assert(ants.subrange(0, 0) =~= seq![]);
    while i < nar.anticipatedEvents.len()
        invariant
            nar.wf(),
            same_config(*old(nar), *nar),
            nar.anticipatedEvents@ == ants,
            ants == old(nar).anticipatedEvents@,
            t == nar.t,
            t == old(nar).t,
            ob == old(nar).evidenceMem.beliefs@,
            nar.evidenceMem.concepts@ == old(nar).evidenceMem.concepts@,
            nar.evidenceMem.beliefs.len() == ob.len(),
            nar.trace@ == old(nar).trace@,
            nar.ops@ == old(nar).ops@,
            nar.goalSystem == old(nar).goalSystem,
            nar.expIntervalsTable@ == old(nar).expIntervalsTable@,
            i <= ants.len(),
            kept@ == pending(ants.subrange(0, i as int), t),
            forall|k: int| 0 <= k < kept.len() ==> ants.contains(#[trigger] kept[k]),
            forall|b: int| 0 <= b < ob.len() ==> {
                let o = ob[b];
                let n = #[trigger] nar.evidenceMem.beliefs[b];
                &&& n.term@ == o.term@
                &&& n.stamp.evi@ == o.stamp.evi@
                &&& n.expDt == o.expDt
                &&& pos_of(n) == pos_of(o)
                &&& cnt_of(n) == if cnt_of(o) + n_expired(ants.subrange(0, i as int), t, b) <= CNT_MAX {
                    cnt_of(o) + n_expired(ants.subrange(0, i as int), t, b)
                } else {
                    CNT_MAX as int
                }
            },
        decreases ants.len() - i,
    {
        let a = nar.anticipatedEvents[i];
        proof {
            assert(ants.subrange(0, i + 1).subrange(0, i as int) =~= ants.subrange(0, i as int));
            assert(ants.subrange(0, i + 1)[i as int] == a);
        }
        if a.deadline <= t {
            let ghost before = nar.evidenceMem.beliefs@;
            assert(evidence_ok(nar.evidenceMem.beliefs[a.evi as int]));
            let nb = negConfirmBelief(&nar.evidenceMem.beliefs[a.evi]);
            nar.evidenceMem.beliefs.set(a.evi, nb);
            proof {
                assert forall|b: int| 0 <= b < nar.evidenceMem.beliefs.len() implies evidence_ok(#[trigger] nar.evidenceMem.beliefs[b]) by {
                    if b != a.evi {
                        assert(nar.evidenceMem.beliefs[b] == before[b]);
                    }
                }
            }
        } else {
            kept.push(a);
            proof {
                assert forall|k: int| 0 <= k < kept.len() implies ants.contains(#[trigger] kept[k]) by {
                    if k == kept.len() - 1 {
                        assert(ants[i as int] == a);
                    }
                }
            }
        }
        i = i + 1;
    }
    assert(ants.subrange(0, ants.len() as int) =~= ants);
    nar.anticipatedEvents = kept;
    assert forall|k: int| 0 <= k < nar.anticipatedEvents.len() implies (#[trigger] nar.anticipatedEvents[k]).evi < nar.evidenceMem.beliefs.len()
        && nar.anticipatedEvents[k].deadline > nar.anticipatedEvents[k].created by {
        let w = choose|w: int| 0 <= w < ants.len() && ants[w] == nar.anticipatedEvents[k];
        assert(old(nar).anticipatedEvents[w] == ants[w]);
    }
}

/// Picks `n` distinct entries of `idxs` at random (selection sampling); returns them in increasing order.
fn selectOps(rng: &mut rand::rngs::ThreadRng, idxs: &Vec<i64>, n: usize, Ghost(bound): Ghost<int>) -> (r: Vec<usize>)
    requires
        1 <= n <= idxs.len(),
        bound <= usize::MAX,
        forall|k: int| 0 <= k < idxs.len() ==> 0 <= #[trigger] idxs[k] < bound,
        forall|k: int, l: int| 0 <= k < l < idxs.len() ==> #[trigger] idxs[k] < #[trigger] idxs[l],
    ensures
        r.len() == n,
        forall|k: int| 0 <= k < r.len() ==> idxs@.contains(#[trigger] r[k] as i64) && r[k] < bound,
        forall|k: int, l: int| 0 <= k < l < r.len() ==> #[trigger] r[k] < #[trigger] r[l],
{
    let m = idxs.len();
    let mut needed: usize = n;
    let mut res: Vec<usize> = Vec::new();
    let mut k: usize = 0;
    let ghost mut pos: Seq<int> = seq![];
    while k < m
        invariant
            m == idxs.len(),
            k <= m,
            res.len() + needed == n,
            needed <= m - k,
            bound <= usize::MAX,
            forall|j: int| 0 <= j < idxs.len() ==> 0 <= #[trigger] idxs[j] < bound,
            forall|a: int, b: int| 0 <= a < b < idxs.len() ==> #[trigger] idxs[a] < #[trigger] idxs[b],
            pos.len() == res.len(),
            forall|j: int| 0 <= j < res.len() ==> 0 <= #[trigger] pos[j] < k && res[j] as int == idxs[pos[j]] as int,
            forall|a: int, b: int| 0 <= a < b < res.len() ==> #[trigger] res[a] < #[trigger] res[b],
            forall|j: int, q: int| 0 <= j < res.len() && k <= q < m ==> (#[trigger] res[j] as int) < #[trigger] idxs[q] as int,
        decreases m - k,
    {
        if needed > 0 {
            let r = genBelow(rng, (m - k) as u64);
            if (r as usize) < needed {
                let ghost before = res@;
                let x = idxs[k];
                res.push(x as usize);
                needed = needed - 1;
                proof {
                    let ghost opos = pos;
                    pos = pos.push(k as int);
                    assert forall|j: int| 0 <= j < res.len() implies 0 <= #[trigger] pos[j] < k + 1 && res[j] as int == idxs[pos[j]] as int by {
                        if j < res.len() - 1 {
                            assert(res[j] == before[j]);
                            assert(pos[j] == opos[j]);
                        }
                    }
                    assert forall|a: int, b: int| 0 <= a < b < res.len() implies #[trigger] res[a] < #[trigger] res[b] by {
                        if b == res.len() - 1 {
                            assert(res[a] == before[a]);
                        } else {
                            assert(res[a] == before[a]);
                            assert(res[b] == before[b]);
                        }
                    }
                    assert forall|j: int, q: int| 0 <= j < res.len() && k + 1 <= q < m implies (#[trigger] res[j] as int) < #[trigger] idxs[q] as int by {
                        if j < res.len() - 1 {
                            assert(res[j] == before[j]);
                        }
                    }
                }
            }
        }
        k = k + 1;
    }
    assert forall|j: int| 0 <= j < res.len() implies idxs@.contains(#[trigger] res[j] as i64) && res[j] < bound by {
        assert(idxs@[pos[j]] == res[j] as i64);
    }
    res
}

/// `new` is `old` with one event appended, keeping the last `TRACE_MAX` events.
pub open spec fn trace_extended(old: Seq<SimpleSentence>, new: Seq<SimpleSentence>) -> bool {
    let keep = if old.len() + 1 > TRACE_MAX { old.subrange(1, old.len() as int) } else { old };
    new.len() == keep.len() + 1 && new.subrange(0, keep.len() as int) == keep
}

/// Appends an event to the trace, keeping the last `TRACE_MAX` events.
pub fn addTraceEvent(nar: &mut ProcNar, name: Term, evi: i64, occT: i64)
    requires
        old(nar).wf(),
        0 <= occT <= old(nar).t,
    ensures
        same_config(*old(nar), *final(nar)),
        final(nar).wf(),
        ({
            let full = old(nar).trace@.push(SimpleSentence { name, evi, occT });
            final(nar).trace@ == if full.len() > TRACE_MAX { full.subrange(1, full.len() as int) } else { full }
        }),
        trace_extended(old(nar).trace@, final(nar).trace@),
        final(nar).trace@.last() == (SimpleSentence { name, evi, occT }),
        final(nar).evidenceMem == old(nar).evidenceMem,
        final(nar).anticipatedEvents@ == old(nar).anticipatedEvents@,
        final(nar).goalSystem == old(nar).goalSystem,
        final(nar).t == old(nar).t,
        final(nar).ops@ == old(nar).ops@,
        final(nar).expIntervalsTable@ == old(nar).expIntervalsTable@,
        final(nar).cfgPerceptWindow == old(nar).cfgPerceptWindow,
        final(nar).cfg__nConcepts == old(nar).cfg__nConcepts,
{
    let ghost full = nar.trace@.push(SimpleSentence { name, evi, occT });
    nar.trace.push(SimpleSentence { name, evi, occT });
    if nar.trace.len() > TRACE_MAX {
        nar.trace.remove(0);
        assert(nar.trace@ =~= full.subrange(1, full.len() as int));
        assert(nar.trace@.subrange(0, nar.trace.len() - 1) =~= old(nar).trace@.subrange(1, old(nar).trace.len() as int));
    } else {
        assert(nar.trace@.subrange(0, nar.trace.len() - 1) =~= old(nar).trace@);
    }
    assert forall|i: int| 0 <= i < nar.trace.len() implies 0 <= (#[trigger] nar.trace[i]).occT <= nar.t by {
        if full.len() > TRACE_MAX {
            assert(nar.trace[i] == full[i + 1]);
        } else {
            assert(nar.trace[i] == full[i]);
        }
    }
}

/// Over the first `p` events of the perception window (newest first), the highest expectation
/// of a goal that an event can start, with that goal and event (the first of equal ones).
pub open spec fn window_best(nar: ProcNar, p: int) -> (int, Option<(int, TermV)>)
    decreases p,
{
    if p <= 0 {
        (0, None)
    } else {
        let prev = window_best(nar, p - 1);
        let st = window_events(nar)[p - 1];
        let b = best_entry(nar.goalSystem.entries@, st, nar.goalSystem.entries.len() as int);
        if b.0 > prev.0 {
            (b.0, match b.1 {
                Some(i) => Some((i, st)),
                None => None,
            })
        } else {
            prev
        }
    }
}

/// The decision of a step: the operation of the best goal over the perception window and the
/// belief it was derived with, when its expectation exceeds the threshold, it has a belief, and
/// the operation decodes.
pub open spec fn decision(nar: ProcNar) -> Option<(TermV, usize)> {
    let wb = window_best(nar, window_events(nar).len() as int);
    match wb.1 {
        Some((ei, st)) => {
            let e = nar.goalSystem.entries@[ei];
            let op = children_of_seq(unified_cond(e, st))[1];
            if wb.0 > nar.cfgDescnThreshold && e.evidence is Some && decode_spec(op) is Some {
                Some((op, e.evidence->0))
            } else {
                None
            }
        },
        None => None,
    }
}

/// Decision making: among the events of the perception window, the goal of highest expectation
/// that the event can start; when it exceeds the decision threshold, its operation (decodable)
/// and the belief it was derived with.
fn decide(nar: &ProcNar) -> (r: Option<(Term, usize)>)
    requires
        nar.wf(),
    ensures
        match r {
            Some((op, bi)) => decision(*nar) == Some((op@, bi)) && bi < nar.evidenceMem.beliefs.len(),
            None => decision(*nar) is None,
        },
{
    let n = nar.trace.len();
    let w: usize = if (nar.cfgPerceptWindow as u64) < n as u64 { nar.cfgPerceptWindow as usize } else { n };
    let ghost we = window_events(*nar);
    let mut best: u64 = 0;
    let mut bestSel: Option<(usize, Term)> = None;
    let ghost mut bestState: TermV = TermV::Name(seq![]);
    let mut p: usize = 0;
    while p < w
        invariant
            nar.wf(),
            n == nar.trace.len(),
            w <= n,
            we == window_events(*nar),
            we.len() == w,
            p <= w,
            match bestSel {
                Some((k, u)) => k < nar.goalSystem.entries.len() && we.contains(bestState)
                    && qualifies(nar.goalSystem.entries@[k as int], bestState)
                    && best == entry_exp(nar.goalSystem.entries@[k as int])
                    && u@ == unified_cond(nar.goalSystem.entries@[k as int], bestState)
                    && window_best(*nar, p as int).1 == Some((k as int, bestState)),
                None => best == 0 && window_best(*nar, p as int).1 is None,
            },
            best == window_best(*nar, p as int).0,
        decreases w - p,
    {
        let state = &nar.trace[n - 1 - p].name;
        assert(we[p as int] == state@);
        let (e, sel) = selHighestExpGoalByState(&nar.goalSystem, state);
        if e > best {
            best = e;
            bestSel = sel;
            proof {
                bestState = state@;
            }
        }
        p = p + 1;
    }
    if best <= nar.cfgDescnThreshold {
        return None;
    }
    match bestSel {
        Some((ei, unified)) => {
            let ghost ent = nar.goalSystem.entries@[ei as int];
            match nar.goalSystem.entries[ei].evidence {
                Some(bi) => {
                    proof {
                        let cv = ent.condOp->0@;
                        let sg = unify_spec(children_of_seq(cv)[0], bestState, seq![])->0;
                        assert(subst_spec(cv, sg) == TermV::Sequence(subst_list(children_of_seq(cv), sg)));
                        assert(subst_list(children_of_seq(cv), sg).len() == children_of_seq(cv).len());
                    }
                    let opTerm = retSeqOp(&unified);
                    if decodeOp(&opTerm).is_some() {
                        return Some((opTerm, bi));
                    }
                    None
                },
                None => None,
            }
        },
        None => None,
    }
}

/// Does the first part of a reasoner step: anticipation maintenance, goal neutralization and
/// perception sampling (candidate rules go to evidence memory).
pub fn narStep0(nar: &mut ProcNar)
    requires
        old(nar).wf(),
    ensures
        same_config(*old(nar), *final(nar)),
        final(nar).wf(),
        final(nar).t == old(nar).t,
        final(nar).trace@ == old(nar).trace@,
        final(nar).ops@ == old(nar).ops@,
        final(nar).anticipatedEvents@ == pending(unconfirmed(*old(nar), old(nar).anticipatedEvents@), old(nar).t),
        forall|i: int| 0 <= i < final(nar).anticipatedEvents.len() ==> (#[trigger] final(nar).anticipatedEvents[i]).deadline > final(nar).t,
        final(nar).evidenceMem.beliefs.len() >= old(nar).evidenceMem.beliefs.len(),
        exists|mid: Mem| neg_confirmed(old(nar).evidenceMem, unconfirmed(*old(nar), old(nar).anticipatedEvents@), old(nar).t, mid)
            && perceived(old(nar).trace@, old(nar).ops@, old(nar).cfg__nOpsMax, old(nar).expIntervalsTable@, n_samples(*old(nar)), mid, final(nar).evidenceMem),
        final(nar).goalSystem.entries.len() == old(nar).goalSystem.entries.len(),
        old(nar).trace.len() > 0 ==> forall|i: int| 0 <= i < final(nar).goalSystem.entries.len()
            && (#[trigger] final(nar).goalSystem.entries@[i]).goal.term@ == old(nar).trace@.last().name@
            ==> final(nar).goalSystem.entries@[i].satisfied,
{
    let nSamples = nar.cfgPerceptionSamplesPerStep;
    confirmAnticipations(nar);
    let ghost confirmed = nar.anticipatedEvents@;
    negConfirm(nar);
    proof {
        lemma_pending_deadlines(confirmed, nar.t);
    }
    if nar.trace.len() > 0 {
        let last = nar.trace[nar.trace.len() - 1].name.clone();
        event_occurred(&mut nar.goalSystem, &last);
    }
    let ghost ants = nar.anticipatedEvents@;
    let ghost gs = nar.goalSystem;
    let ghost mid = nar.evidenceMem;
    let ghost mut ms: Seq<Mem> = seq![mid];
    if nar.trace.len() >= 3 {
        let mut it: i64 = 0;
        while it < nSamples
            invariant
                0 <= it,
                same_config(*old(nar), *nar),
                it <= nSamples || it == 0,
                nSamples == old(nar).cfgPerceptionSamplesPerStep,
                nar.expIntervalsTable@ == old(nar).expIntervalsTable@,
                ms.len() == it + 1,
                ms[0] == mid,
                ms[it as int] == nar.evidenceMem,
                forall|k: int| 0 <= k < it ==> #[trigger] perceive_step(old(nar).trace@, old(nar).ops@, old(nar).cfg__nOpsMax, old(nar).expIntervalsTable@, ms[k], ms[k + 1]),
                nar.wf(),
                nar.t == old(nar).t,
                nar.trace@ == old(nar).trace@,
                nar.ops@ == old(nar).ops@,
                nar.anticipatedEvents@ == ants,
                nar.goalSystem == gs,
                nar.evidenceMem.beliefs.len() >= old(nar).evidenceMem.beliefs.len(),
                nar.trace.len() >= 3,
            decreases nSamples - it,
        {
            let ghost before = nar.evidenceMem;
            perceiveOnce(nar);
            proof {
                let ms0 = ms;
                ms = ms.push(nar.evidenceMem);
                assert forall|k: int| 0 <= k < it + 1 implies #[trigger] perceive_step(old(nar).trace@, old(nar).ops@, old(nar).cfg__nOpsMax, old(nar).expIntervalsTable@, ms[k], ms[k + 1]) by {
                    if k < it {
                        assert(ms[k] == ms0[k]);
                        assert(ms[k + 1] == ms0[k + 1]);
                    }
                }
            }
            it = it + 1;
        }
        assert(it as nat == n_samples(*old(nar)));
        assert(perceived(old(nar).trace@, old(nar).ops@, old(nar).cfg__nOpsMax, old(nar).expIntervalsTable@, n_samples(*old(nar)), mid, nar.evidenceMem));
    } else {
        assert(n_samples(*old(nar)) == 0);
        assert(ms.len() == 1 && ms[0] == mid && ms[0] == nar.evidenceMem);
        assert(forall|k: int| 0 <= k < 0nat ==> #[trigger] perceive_step(old(nar).trace@, old(nar).ops@, old(nar).cfg__nOpsMax, old(nar).expIntervalsTable@, ms[k], ms[k + 1]));
        assert(perceived(old(nar).trace@, old(nar).ops@, old(nar).cfg__nOpsMax, old(nar).expIntervalsTable@, n_samples(*old(nar)), mid, nar.evidenceMem));
    }
}

proof fn lemma_pending_deadlines(s: Seq<AnticipationEvent>, t: i64)
    ensures
        forall|i: int| 0 <= i < pending(s, t).len() ==> (#[trigger] pending(s, t)[i]).deadline > t,
    decreases s.len(),
{
    if s.len() > 0 {
        let p = s.subrange(0, s.len() - 1);
        lemma_pending_deadlines(p, t);
        assert forall|i: int| 0 <= i < pending(s, t).len() implies (#[trigger] pending(s, t)[i]).deadline > t by {
            if i < pending(p, t).len() {
                assert(pending(s, t)[i] == pending(p, t)[i]);
            }
        }
    }
}

/// One perception sample: random operations of the trace, a random condition before them, and
/// the consequence; a candidate rule built from them is stored.
fn perceiveOnce(nar: &mut ProcNar)
    requires
        old(nar).wf(),
        old(nar).trace.len() >= 3,
    ensures
        same_config(*old(nar), *final(nar)),
        final(nar).wf(),
        final(nar).t == old(nar).t,
        final(nar).trace@ == old(nar).trace@,
        final(nar).ops@ == old(nar).ops@,
        final(nar).anticipatedEvents@ == old(nar).anticipatedEvents@,
        final(nar).goalSystem == old(nar).goalSystem,
        final(nar).evidenceMem.beliefs.len() >= old(nar).evidenceMem.beliefs.len(),
        final(nar).expIntervalsTable@ == old(nar).expIntervalsTable@,
        final(nar).cfgPerceptionSamplesPerStep == old(nar).cfgPerceptionSamplesPerStep,
        perceive_step(old(nar).trace@, old(nar).ops@, old(nar).cfg__nOpsMax, old(nar).expIntervalsTable@, old(nar).evidenceMem, final(nar).evidenceMem),
{
    let idxsOfOps = calcIdxsOfOps(nar, &nar.trace);
    if idxsOfOps.len() == 0 {
        assert forall|i: int| 0 <= i < nar.trace@.len() implies !callable(nar.ops@, #[trigger] nar.trace@[i].name@) by {
            if callable(nar.ops@, nar.trace@[i].name@) {
                assert(idxsOfOps@.contains(i as i64));
            }
        }
        return;
    }
    let nSel: usize = if nar.cfg__nOpsMax <= 1 {
        1
    } else if genBelow(&mut nar.rng, TV_ONE) < nar.cfg__multiOpProbability {
        if (nar.cfg__nOpsMax as u64) < idxsOfOps.len() as u64 { nar.cfg__nOpsMax as usize } else { idxsOfOps.len() }
    } else {
        1
    };
    let sel = selectOps(&mut nar.rng, &idxsOfOps, nSel, Ghost(nar.trace.len() as int));
    let ghost tr = nar.trace@;
    let ghost ops = nar.ops@;
    let ghost tb = nar.expIntervalsTable@;
    proof {
        assert forall|k: int| 0 <= k < sel.len() implies #[trigger] sel[k] < tr.len() && callable(ops, tr[sel[k] as int].name@) by {
            let w = choose|w: int| 0 <= w < idxsOfOps.len() && idxsOfOps@[w] == sel[k] as i64;
            assert(idxsOfOps[w] == sel[k] as i64);
        }
    }
    if sel[0] == 0 {
        assert(sample_outcome(tr, ops, old(nar).cfg__nOpsMax, tb, sel@, 0, false, old(nar).evidenceMem, nar.evidenceMem));
        return;
    }
    let idxFirst = genBelow(&mut nar.rng, sel[0] as u64) as usize;
    let usePrev = genBelow(&mut nar.rng, 2) == 1;
    assert(draws_ok(tr, ops, old(nar).cfg__nOpsMax, sel@, idxFirst));
    match sampleCandidate(nar, &sel, idxFirst, usePrev) {
        Some(c) => {
            let ghost om = nar.evidenceMem;
            let rv = storeEvidence(&mut nar.evidenceMem, &c);
            assert(store_post(om, c, nar.evidenceMem, rv));
            assert(cand_of(tr, ops, tb, sel@, idxFirst, usePrev, c));
            assert(om == old(nar).evidenceMem);
            assert(sample_outcome(tr, ops, old(nar).cfg__nOpsMax, tb, sel@, idxFirst, usePrev, om, nar.evidenceMem));
            assert forall|i: int| 0 <= i < nar.anticipatedEvents.len() implies (#[trigger] nar.anticipatedEvents[i]).evi < nar.evidenceMem.beliefs.len()
                && nar.anticipatedEvents[i].deadline > nar.anticipatedEvents[i].created by {}
            assert forall|i: int| 0 <= i < nar.goalSystem.entries.len() && (#[trigger] nar.goalSystem.entries[i]).evidence is Some
                implies nar.goalSystem.entries[i].evidence->0 < nar.evidenceMem.beliefs.len() by {}
        },
        None => {
            assert(sample_outcome(tr, ops, old(nar).cfg__nOpsMax, tb, sel@, idxFirst, usePrev, old(nar).evidenceMem, nar.evidenceMem));
        },
    }
}

/// The interval (from the table) after which an anticipation from belief `bi` is due.
pub open spec fn interval_for(nar: ProcNar, bi: usize) -> i64 {
    let d = match nar.evidenceMem.beliefs@[bi as int].expDt {
        Some(d) => d,
        None => 0,
    };
    if 0 <= d < nar.expIntervalsTable.len() { nar.expIntervalsTable@[d as int] } else { nar.expIntervalsTable@[0] }
}

/// The term `{SELF}`.
pub open spec fn self_set() -> TermV {
    TermV::SetExt(seq![TermV::Name("SELF"@)])
}

fn selfTerm() -> (r: Term)
    ensures
        r@ == self_set(),
{
    let name = Term::Name(String::from_str("SELF"));
    let ghost nv = name@;
    let v = vec![Box::new(name)];
    assert(children_view(v) =~= seq![nv]);
    Term::SetExt(v)
}

/// Motor babbling with the draw `p` (below nine times the number of operations): when `p` picks
/// a registered operation, its call with `{SELF}` as the lone argument.
pub fn babbleWith(nar: &ProcNar, p: u64) -> (r: Option<Term>)
    ensures
        r is Some == (p < nar.ops.len()),
        r is Some ==> r->0@ == encode_spec(seq![self_set()], nar.ops@[p as int]@),
{
    if p < nar.ops.len() as u64 {
        let mut args: Vec<Term> = Vec::new();
        args.push(selfTerm());
        assert(list_view(args@) =~= seq![self_set()]);
        Some(encodeOp(&args, &nar.ops[p as usize]))
    } else {
        None
    }
}

/// The returned call is a babbling one: babbling is on, and it calls a registered operation with
/// `{SELF}`, as the last trace event shows.
pub open spec fn babbled(old: ProcNar, new: ProcNar, args: Seq<TermV>, name: Seq<char>) -> bool {
    &&& old.cfgEnBabbling
    &&& exists|k: int| 0 <= k < old.ops.len() && name == (#[trigger] old.ops@[k])@
        && new.trace@.last().name@ == encode_spec(seq![self_set()], old.ops@[k]@)
    &&& args == seq![self_set()]
}

/// Decision making, with motor babbling as fallback: the picked operation is appended to the
/// trace (an anticipation is made for a decided one); returns its arguments and name.
fn act(nar: &mut ProcNar) -> (r: Option<(Vec<Term>, String)>)
    requires
        old(nar).wf(),
        old(nar).t < T_LIMIT,
    ensures
        final(nar).anticipatedEvents.len() >= old(nar).anticipatedEvents.len(),
        forall|i: int| old(nar).anticipatedEvents.len() <= i < final(nar).anticipatedEvents.len()
            ==> (#[trigger] final(nar).anticipatedEvents[i]).created == old(nar).t
                && final(nar).anticipatedEvents[i].deadline > old(nar).t,
        same_config(*old(nar), *final(nar)),
        final(nar).wf(),
        final(nar).t == old(nar).t,
        final(nar).ops@ == old(nar).ops@,
        final(nar).evidenceMem == old(nar).evidenceMem,
        final(nar).goalSystem == old(nar).goalSystem,
        final(nar).cfg__nConcepts == old(nar).cfg__nConcepts,
        match r {
            Some((args, name)) => final(nar).trace.len() >= 1
                && decode_spec(final(nar).trace@.last().name@) == Some((list_view(args@), name@))
                && final(nar).trace@.last().occT == old(nar).t,
            None => final(nar).trace@ == old(nar).trace@,
        },
        r is Some ==> trace_extended(old(nar).trace@, final(nar).trace@) && final(nar).trace@.last().evi == old(nar).t,
        decision(*old(nar)) is None && r is Some ==> babbled(*old(nar), *final(nar), list_view((r->0).0@), (r->0).1@),
        match decision(*old(nar)) {
            Some((op, bi)) => r is Some && final(nar).trace@.last().name@ == op
                && final(nar).anticipatedEvents@ == old(nar).anticipatedEvents@.push(
                    AnticipationEvent { evi: bi, deadline: (old(nar).t + interval_for(*old(nar), bi)) as i64, created: old(nar).t }),
            None => final(nar).anticipatedEvents@ == old(nar).anticipatedEvents@
                && (!old(nar).cfgEnBabbling ==> r is None),
        },
{
    let t = nar.t;
    let mut pickedAction: Option<Term> = None;
    match decide(nar) {
        Some((opTerm, bi)) => {
            pickedAction = Some(opTerm);
            assert(evidence_ok(nar.evidenceMem.beliefs[bi as int]));
            let expIntervalIdx: i64 = match nar.evidenceMem.beliefs[bi].expDt {
                Some(d) => d,
                None => 0,
            };
            let interval: i64 = if 0 <= expIntervalIdx && (expIntervalIdx as u64) < nar.expIntervalsTable.len() as u64 {
                nar.expIntervalsTable[expIntervalIdx as usize]
            } else {
                nar.expIntervalsTable[0]
            };
            let deadline = t + interval;
            nar.anticipatedEvents.push(AnticipationEvent { evi: bi, deadline, created: t });
        },
        None => {
            if nar.cfgEnBabbling && nar.ops.len() > 0 && (nar.ops.len() as u64) < u64::MAX / 9 {
                let p = genBelow(&mut nar.rng, nar.ops.len() as u64 * 9);
                pickedAction = babbleWith(nar, p);
                proof {
                    if p < nar.ops.len() {
                        crate::termapi::law_decode_encode(seq![self_set()], nar.ops@[p as int]@);
                    }
                }
            }
        },
    }
    match pickedAction {
        Some(term) => {
            let dec = decodeOp(&term);
            match dec {
                Some(x) => {
                    addTraceEvent(nar, term, t, t);
                    Some(x)
                },
                None => None,
            }
        },
        None => None,
    }
}

/// Goal derivation at time `t`: every 3 steps while ids last, else nothing.
pub open spec fn derivation_step(old: GoalSystem, t: i64, mem: Mem, g: GoalSystem) -> bool {
    if t % 3 == 0 && old.nextId < u64::MAX { sample_post(old, mem, t, g) } else { g == old }
}

/// The goal system after bookkeeping at time `t` (with evidence memory `mem`): goal derivation
/// every 3 steps (while ids last), then the satisfied goals dropped every 13.
pub open spec fn bookkept_goals(old: GoalSystem, t: i64, mem: Mem, new: GoalSystem) -> bool {
    exists|g: GoalSystem| #[trigger] derivation_step(old, t, mem, g)
        && if t % 13 == 1 {
            new.entries@ == unsatisfied(g.entries@) && new.nMaxEntries == g.nMaxEntries && new.maxDepth == g.maxDepth && new.nextId == g.nextId
        } else {
            new == g
        }
}

/// Bookkeeping under bounded resources: evidence memory limited every 101 steps, goal
/// derivation every 3, goal memory limited every 13.
fn bookkeeping(nar: &mut ProcNar)
    requires
        old(nar).wf(),
    ensures
        same_config(*old(nar), *final(nar)),
        final(nar).wf(),
        final(nar).t == old(nar).t,
        final(nar).ops@ == old(nar).ops@,
        final(nar).trace@ == old(nar).trace@,
        final(nar).anticipatedEvents@ == old(nar).anticipatedEvents@,
        old(nar).t % 101 == 1 ==> final(nar).evidenceMem.concepts.len() <= old(nar).cfg__nConcepts,
        old(nar).t % 101 != 1 ==> final(nar).evidenceMem == old(nar).evidenceMem,
        bookkept_goals(old(nar).goalSystem, old(nar).t, final(nar).evidenceMem, final(nar).goalSystem),
{
    let t = nar.t;
    if t % 101 == 1 {
        let cap: usize = if (nar.cfg__nConcepts as u64) < usize::MAX as u64 { nar.cfg__nConcepts as usize } else { usize::MAX };
        limitMemory(&mut nar.evidenceMem, cap);
    }
    let ghost g0 = nar.goalSystem;
    if t % 3 == 0 && nar.goalSystem.nextId < u64::MAX {
        sampleAndInference(&mut nar.goalSystem, t, &nar.evidenceMem, &mut nar.rng);
        proof {
            crate::goals::lemma_sample_post_evidence(g0, nar.evidenceMem, t, nar.goalSystem);
        }
    }
    let ghost g1 = nar.goalSystem;
    if t % 13 == 1 {
        crate::goals::limitMemory(&mut nar.goalSystem, t);
        proof {
            crate::goals::lemma_unsatisfied_contains(g1.entries@);
            assert forall|i: int| 0 <= i < nar.goalSystem.entries.len() && (#[trigger] nar.goalSystem.entries[i]).evidence is Some
                implies nar.goalSystem.entries[i].evidence->0 < nar.evidenceMem.beliefs.len() by {
                let w = choose|w: int| 0 <= w < g1.entries.len() && g1.entries@[w] == nar.goalSystem.entries@[i];
                assert(g1.entries[w] == nar.goalSystem.entries[i]);
            }
        }
    }
    proof {
        assert(derivation_step(g0, t, nar.evidenceMem, g1));
        assert(bookkept_goals(g0, t, nar.evidenceMem, nar.goalSystem));
    }
}

/// Does the second part of a reasoner step: decision making (with motor babbling as fallback),
/// then bookkeeping under bounded resources, and advances time. Returns the arguments and name
/// of the operation to call, if one was picked; it is appended to the trace.
pub fn narStep1(nar: &mut ProcNar) -> (r: Option<(Vec<Term>, String)>)
    requires
        old(nar).wf(),
        old(nar).t < T_LIMIT,
    ensures
        final(nar).anticipatedEvents.len() >= old(nar).anticipatedEvents.len(),
        forall|i: int| old(nar).anticipatedEvents.len() <= i < final(nar).anticipatedEvents.len()
            ==> (#[trigger] final(nar).anticipatedEvents[i]).created == old(nar).t
                && final(nar).anticipatedEvents[i].deadline > old(nar).t,
        same_config(*old(nar), *final(nar)),
        final(nar).wf(),
        final(nar).t == old(nar).t + 1,
        final(nar).ops@ == old(nar).ops@,
        old(nar).t % 101 == 1 ==> final(nar).evidenceMem.concepts.len() <= old(nar).cfg__nConcepts,
        match r {
            Some((args, name)) => final(nar).trace.len() >= 1
                && decode_spec(final(nar).trace@.last().name@) == Some((list_view(args@), name@))
                && final(nar).trace@.last().occT == old(nar).t,
            None => final(nar).trace@ == old(nar).trace@,
        },
        forall|i: int| 0 <= i < final(nar).anticipatedEvents.len() ==> (#[trigger] final(nar).anticipatedEvents[i]).deadline > final(nar).anticipatedEvents[i].created,
        r is Some ==> trace_extended(old(nar).trace@, final(nar).trace@) && final(nar).trace@.last().evi == old(nar).t,
        decision(*old(nar)) is None && r is Some ==> babbled(*old(nar), *final(nar), list_view((r->0).0@), (r->0).1@),
        old(nar).t % 101 != 1 ==> final(nar).evidenceMem == old(nar).evidenceMem,
        bookkept_goals(old(nar).goalSystem, old(nar).t, final(nar).evidenceMem, final(nar).goalSystem),
        match decision(*old(nar)) {
            Some((op, bi)) => r is Some && final(nar).trace@.last().name@ == op
                && final(nar).anticipatedEvents@ == old(nar).anticipatedEvents@.push(
                    AnticipationEvent { evi: bi, deadline: (old(nar).t + interval_for(*old(nar), bi)) as i64, created: old(nar).t }),
            None => final(nar).anticipatedEvents@ == old(nar).anticipatedEvents@
                && (!old(nar).cfgEnBabbling ==> r is None),
        },
{
    let res = act(nar);
    bookkeeping(nar);
    nar.t = nar.t + 1;
    proof {
        assert forall|i: int| 0 <= i < nar.trace.len() implies 0 <= (#[trigger] nar.trace[i]).occT <= nar.t by {}
    }
    res
}

/// The beliefs of all concepts, concept after concept.
pub open spec fn all_concept_beliefs(cs: Seq<crate::mem::Concept>) -> Seq<usize>
    decreases cs.len(),
{
    if cs.len() == 0 {
        seq![]
    } else {
        all_concept_beliefs(cs.subrange(0, cs.len() - 1)) + cs[cs.len() - 1].beliefs@
    }
}

/// Returns all evidence (as indices into evidence memory), one concept after the other; can repeat.
pub fn mem_ret_evidence_all_nonunique(procNar: &ProcNar) -> (r: Vec<usize>)
    requires
        procNar.wf(),
    ensures
        r@ == all_concept_beliefs(procNar.evidenceMem.concepts@),
        forall|i: int| 0 <= i < r.len() ==> #[trigger] r[i] < procNar.evidenceMem.beliefs.len(),
{
    let ghost cs = procNar.evidenceMem.concepts@;
    let mut res: Vec<usize> = Vec::new();
    let mut c: usize = 0;
    assert(cs.subrange(0, 0) =~= seq![]);
    while c < procNar.evidenceMem.concepts.len()
        invariant
            procNar.wf(),
            cs == procNar.evidenceMem.concepts@,
            c <= cs.len(),
            res@ == all_concept_beliefs(cs.subrange(0, c as int)),
            forall|i: int| 0 <= i < res.len() ==> #[trigger] res[i] < procNar.evidenceMem.beliefs.len(),
        decreases cs.len() - c,
    {
        proof {
            assert(cs.subrange(0, c + 1).subrange(0, c as int) =~= cs.subrange(0, c as int));
            assert(cs.subrange(0, c + 1)[c as int] == cs[c as int]);
        }
        let ghost before = res@;
        let mut k: usize = 0;
        while k < procNar.evidenceMem.concepts[c].beliefs.len()
            invariant
                procNar.wf(),
                c < procNar.evidenceMem.concepts.len(),
                k <= procNar.evidenceMem.concepts[c as int].beliefs.len(),
                res@ == before + procNar.evidenceMem.concepts[c as int].beliefs@.subrange(0, k as int),
                forall|i: int| 0 <= i < res.len() ==> #[trigger] res[i] < procNar.evidenceMem.beliefs.len(),
            decreases procNar.evidenceMem.concepts[c as int].beliefs.len() - k,
        {
            res.push(procNar.evidenceMem.concepts[c].beliefs[k]);
            assert(res@ =~= before + procNar.evidenceMem.concepts[c as int].beliefs@.subrange(0, k + 1));
            k = k + 1;
        }
        assert(procNar.evidenceMem.concepts[c as int].beliefs@.subrange(0, k as int) =~= procNar.evidenceMem.concepts[c as int].beliefs@);
        c = c + 1;
    }
    assert(cs.subrange(0, cs.len() as int) =~= cs);
    res
}

}
