use vstd::prelude::*;

use crate::term::{Term, TermV, checkEqTerm, retSubterms, subterms, terms_view, calcComplexity, complexity, sat_u64};

use crate::sentence::{SentenceDummy, EnumPunctation};
use crate::inference::{inference, has_tv, inference_post};
use crate::unify::{unify, unify_spec};
use crate::rng::{newRng, genBelow};

verus! {

broadcast use vstd::std_specs::vec::group_vec_axioms;

/// Fixed-point unit of credits and priorities: `CREDIT_ONE` stands for 1.
pub const CREDIT_ONE: u64 = 1000000;

/// A judgment task with its credit.
pub struct Task {
    pub sentence: SentenceDummy,
    pub credit: u64,
}

/// A question task with its priority and the answer it received, if any.
pub struct Task2 {
    pub sentence: SentenceDummy,
    pub prio: u64,
    pub answer: Option<SentenceDummy>,
}

/// Declarative memory: judgment and question tasks.
pub struct Mem2 {
    pub judgementTasks: Vec<Task>,
    pub questionTasks: Vec<Task2>,
    pub rng: rand::rngs::ThreadRng,
    /// next evidence id
    pub stampIdCounter: i64,
}

impl Mem2 {
    pub open spec fn wf(&self) -> bool {
        &&& forall|i: int| 0 <= i < self.judgementTasks.len() ==> has_tv((#[trigger] self.judgementTasks[i]).sentence)
            && self.judgementTasks[i].sentence.punct == EnumPunctation::JUGEMENT
        &&& forall|i: int| 0 <= i < self.questionTasks.len() ==> has_tv((#[trigger] self.questionTasks[i]).sentence)
        &&& 0 <= self.stampIdCounter
    }
}

/// Creates an empty declarative memory.
pub fn createMem2() -> (r: Mem2)
    ensures
        r.wf(),
        r.judgementTasks.len() == 0,
        r.questionTasks.len() == 0,
        r.stampIdCounter == 0,
{
    Mem2 { judgementTasks: Vec::new(), questionTasks: Vec::new(), rng: newRng(), stampIdCounter: 0 }
}

/// Saturating sum of the credits of the first `k` tasks.
pub open spec fn credit_prefix(s: Seq<Task>, k: int) -> nat
    decreases k,
{
    if k <= 0 {
        0
    } else {
        (credit_prefix(s, k - 1) + s[k - 1].credit) as nat
    }
}

/// The roulette stops at `j` when the credit up to and including it exceeds the fraction
/// `selVal / CREDIT_ONE` of the total.
pub open spec fn roulette_hit(s: Seq<Task>, selVal: u64, j: int) -> bool {
    sat_u64(credit_prefix(s, j + 1)) * CREDIT_ONE > selVal * sat_u64(credit_prefix(s, s.len() as int))
}

proof fn lemma_sat_add(a: nat, b: u64)
    ensures
        sat_u64((a + b) as nat) == if sat_u64(a) as int + b as int <= u64::MAX { (sat_u64(a) + b) as u64 } else { u64::MAX },
{
}

/// The roulette index from `j` on: the first index at which the roulette stops, the last index
/// when it stops at none before it.
pub open spec fn first_hit(s: Seq<Task>, selVal: u64, j: int) -> int
    decreases s.len() - j,
{
    if j >= s.len() - 1 {
        s.len() - 1
    } else if roulette_hit(s, selVal, j) {
        j
    } else {
        first_hit(s, selVal, j + 1)
    }
}

/// The index that credit-weighted roulette with `selVal` selects.
pub open spec fn roulette_pick(s: Seq<Task>, selVal: u64) -> int {
    first_hit(s, selVal, 0)
}

proof fn lemma_first_hit(s: Seq<Task>, selVal: u64, r: int, j: int)
    requires
        0 <= j <= r < s.len(),
        forall|k: int| j <= k < r ==> !roulette_hit(s, selVal, k),
        r == s.len() - 1 || roulette_hit(s, selVal, r),
    ensures
        first_hit(s, selVal, j) == r,
    decreases r - j,
{
    if j < r {
        lemma_first_hit(s, selVal, r, j + 1);
    }
}

/// Selects a task by credit-weighted roulette: the first index at which the credit up to it
/// exceeds `selVal / CREDIT_ONE` of the total, the last index when there is none.
pub fn taskSelByCreditRandom(selVal: u64, arr: &Vec<Task>) -> (r: usize)
    requires
        arr.len() >= 1,
        selVal < CREDIT_ONE,
    ensures
        r < arr.len(),
        forall|j: int| 0 <= j < r ==> !roulette_hit(arr@, selVal, j),
        r == arr.len() - 1 || roulette_hit(arr@, selVal, r as int),
        r == roulette_pick(arr@, selVal),
{
    let mut sum: u64 = 0;
    let mut k: usize = 0;
    while k < arr.len()
        invariant
            k <= arr.len(),
            sum == sat_u64(credit_prefix(arr@, k as int)),
        decreases arr.len() - k,
    {
        proof {
            lemma_sat_add(credit_prefix(arr@, k as int), arr[k as int].credit);
            assert(credit_prefix(arr@, k + 1) == credit_prefix(arr@, k as int) + arr[k as int].credit);
        }
        sum = sum.saturating_add(arr[k].credit);
        k = k + 1;
    }
    proof {
        assert(selVal as int * sum as int <= CREDIT_ONE as int * u64::MAX as int) by (nonlinear_arith)
            requires
                selVal < CREDIT_ONE,
                sum <= u64::MAX,
        ;
    }
    let target: u128 = selVal as u128 * sum as u128;
    let mut acc: u64 = 0;
    let mut idx: usize = 0;
    while idx < arr.len()
        invariant
            idx <= arr.len(),
            sum == sat_u64(credit_prefix(arr@, arr.len() as int)),
            target == selVal * sum,
            acc == sat_u64(credit_prefix(arr@, idx as int)),
            forall|j: int| 0 <= j < idx ==> !roulette_hit(arr@, selVal, j),
        decreases arr.len() - idx,
    {
        proof {
            lemma_sat_add(credit_prefix(arr@, idx as int), arr[idx as int].credit);
            assert(credit_prefix(arr@, idx + 1) == credit_prefix(arr@, idx as int) + arr[idx as int].credit);
        }
        acc = acc.saturating_add(arr[idx].credit);
        proof {
            assert(acc as int * CREDIT_ONE as int <= u64::MAX as int * CREDIT_ONE as int) by (nonlinear_arith)
                requires
                    acc <= u64::MAX,
            ;
        }
        if acc as u128 * CREDIT_ONE as u128 > target {
            proof {
                lemma_first_hit(arr@, selVal, idx as int, 0);
            }
            return idx;
        }
        idx = idx + 1;
    }
    proof {
        lemma_first_hit(arr@, selVal, arr.len() - 1, 0);
    }
    arr.len() - 1
}

/// Index of the task with the highest credit (the first of equal ones); `None` for no tasks.
pub fn tasksSelHighestCreditIdx(arr: &Vec<Task>) -> (r: Option<usize>)
    ensures
        arr.len() == 0 <==> r is None,
        r is Some ==> (r->0 < arr.len()
            && (forall|j: int| 0 <= j < arr.len() ==> (#[trigger] arr[j]).credit <= arr[r->0 as int].credit)
            && (forall|j: int| 0 <= j < r->0 ==> (#[trigger] arr[j]).credit < arr[r->0 as int].credit)),
{
    if arr.len() == 0 {
        return None;
    }
    let mut idxRes: usize = 0;
    let mut idx: usize = 1;
    while idx < arr.len()
        invariant
            1 <= idx <= arr.len(),
            idxRes < idx,
            forall|j: int| 0 <= j < idx ==> (#[trigger] arr[j]).credit <= arr[idxRes as int].credit,
            forall|j: int| 0 <= j < idxRes ==> (#[trigger] arr[j]).credit < arr[idxRes as int].credit,
        decreases arr.len() - idx,
    {
        if arr[idx].credit > arr[idxRes].credit {
            idxRes = idx;
        }
        idx = idx + 1;
    }
    Some(idxRes)
}

/// Complexity used to divide credits: at least 1.
pub open spec fn credit_divisor(t: TermV) -> u64 {
    if sat_u64(complexity(t)) == 0 { 1 } else { sat_u64(complexity(t)) }
}

fn creditDivisor(t: &Term) -> (r: u64)
    ensures
        r == credit_divisor(t@),
        r >= 1,
{
    let c = calcComplexity(t);
    if c == 0 { 1 } else { c }
}

/// Attention: divides the task's credit by the complexity of its term.
pub fn divCreditByComplexity(task: &mut Task)
    ensures
        final(task).credit == old(task).credit / credit_divisor(old(task).sentence.term@),
        final(task).sentence == old(task).sentence,
{
    let d = creditDivisor(&task.sentence.term);
    task.credit = task.credit / d;
}

/// Adds a sentence as a task: a judgment with credit 1 (divided by its complexity when
/// `calcCredit`), a question with priority 1; goals are not taken.
pub fn memAddTask(mem: &mut Mem2, sentence: SentenceDummy, calcCredit: bool)
    requires
        old(mem).wf(),
        has_tv(sentence),
    ensures
        final(mem).wf(),
        final(mem).stampIdCounter == old(mem).stampIdCounter,
        sentence.punct == EnumPunctation::JUGEMENT ==> final(mem).judgementTasks@ == old(mem).judgementTasks@.push(Task {
            sentence,
            credit: if calcCredit { CREDIT_ONE / credit_divisor(sentence.term@) } else { CREDIT_ONE },
        }) && final(mem).questionTasks@ == old(mem).questionTasks@,
        sentence.punct == EnumPunctation::QUESTION ==> final(mem).questionTasks@ == old(mem).questionTasks@.push(Task2 {
            sentence,
            prio: CREDIT_ONE,
            answer: None,
        }) && final(mem).judgementTasks@ == old(mem).judgementTasks@,
        sentence.punct == EnumPunctation::GOAL ==> final(mem).judgementTasks@ == old(mem).judgementTasks@
            && final(mem).questionTasks@ == old(mem).questionTasks@,
{
    match sentence.punct {
        EnumPunctation::JUGEMENT => {
            let mut task = Task { sentence, credit: CREDIT_ONE };
            if calcCredit {
                divCreditByComplexity(&mut task);
            }
            mem.judgementTasks.push(task);
        },
        EnumPunctation::QUESTION => {
            mem.questionTasks.push(Task2 { sentence, prio: CREDIT_ONE, answer: None });
        },
        EnumPunctation::GOAL => {},
    }
}

/// Two terms have a subterm in common.
pub open spec fn shares_subterm(a: TermV, b: TermV) -> bool {
    exists|x: TermV| subterms(a).contains(x) && subterms(b).contains(x)
}

fn sharesSubterm(a: &Term, b: &Term) -> (r: bool)
    ensures
        r == shares_subterm(a@, b@),
{
    let sa = retSubterms(a);
    let sb = retSubterms(b);
    let ghost va = terms_view(sa@);
    let ghost vb = terms_view(sb@);
    let mut i: usize = 0;
    while i < sa.len()
        invariant
            i <= sa.len(),
            va == terms_view(sa@),
            vb == terms_view(sb@),
            va == subterms(a@),
            vb == subterms(b@),
            forall|p: int, q: int| 0 <= p < i && 0 <= q < vb.len() ==> #[trigger] va[p] != #[trigger] vb[q],
        decreases sa.len() - i,
    {
        let mut j: usize = 0;
        while j < sb.len()
            invariant
                i < sa.len(),
                j <= sb.len(),
                va == terms_view(sa@),
                vb == terms_view(sb@),
                va == subterms(a@),
                vb == subterms(b@),
                forall|q: int| 0 <= q < j ==> va[i as int] != #[trigger] vb[q],
            decreases sb.len() - j,
        {
            if checkEqTerm(&sa[i], &sb[j]) {
                assert(va[i as int] == vb[j as int]);
                assert(subterms(a@)[i as int] == va[i as int]);
                assert(subterms(b@)[j as int] == va[i as int]);
                assert(subterms(a@).contains(va[i as int]) && subterms(b@).contains(va[i as int]));
                return true;
            }
            j = j + 1;
        }
        i = i + 1;
    }
    assert forall|x: TermV| !(subterms(a@).contains(x) && subterms(b@).contains(x)) by {
        if subterms(a@).contains(x) && subterms(b@).contains(x) {
            let p = choose|p: int| 0 <= p < va.len() && va[p] == x;
            let q = choose|q: int| 0 <= q < vb.len() && vb[q] == x;
            assert(va[p] == vb[q]);
        }
    }
    false
}

/// Sum of the priorities of the questions that share a subterm with `t`.
pub open spec fn question_credit(qs: Seq<Task2>, t: TermV, k: int) -> nat
    decreases k,
{
    if k <= 0 {
        0
    } else {
        question_credit(qs, t, k - 1) + if shares_subterm(qs[k - 1].sentence.term@, t) { qs[k - 1].prio as nat } else { 0nat }
    }
}

/// Credit propagation: each judgment task gains the priority of every question task that
/// shares a subterm with it (saturating).
pub fn propagateCredit(mem: &mut Mem2)
    requires
        old(mem).wf(),
    ensures
        final(mem).wf(),
        final(mem).questionTasks@ == old(mem).questionTasks@,
        final(mem).stampIdCounter == old(mem).stampIdCounter,
        final(mem).judgementTasks.len() == old(mem).judgementTasks.len(),
        forall|i: int| 0 <= i < final(mem).judgementTasks.len() ==> (#[trigger] final(mem).judgementTasks[i]).sentence == old(mem).judgementTasks[i].sentence
            && final(mem).judgementTasks[i].credit == sat_u64((old(mem).judgementTasks[i].credit + question_credit(
                old(mem).questionTasks@, old(mem).judgementTasks[i].sentence.term@, old(mem).questionTasks.len() as int)) as nat),
{
    let mut i: usize = 0;
    while i < mem.judgementTasks.len()
        invariant
            mem.wf(),
            i <= mem.judgementTasks.len(),
            mem.questionTasks@ == old(mem).questionTasks@,
            mem.stampIdCounter == old(mem).stampIdCounter,
            mem.judgementTasks.len() == old(mem).judgementTasks.len(),
            forall|k: int| 0 <= k < mem.judgementTasks.len() ==> (#[trigger] mem.judgementTasks[k]).sentence == old(mem).judgementTasks[k].sentence,
            forall|k: int| 0 <= k < mem.judgementTasks.len() ==> (#[trigger] mem.judgementTasks[k]).credit == if k < i {
                sat_u64((old(mem).judgementTasks[k].credit + question_credit(
                    old(mem).questionTasks@, old(mem).judgementTasks[k].sentence.term@, old(mem).questionTasks.len() as int)) as nat)
            } else {
                old(mem).judgementTasks[k].credit
            },
        decreases mem.judgementTasks.len() - i,
    {
        let ghost t = mem.judgementTasks[i as int].sentence.term@;
        let ghost c0 = mem.judgementTasks[i as int].credit;
        let mut credit = mem.judgementTasks[i].credit;
        let mut q: usize = 0;
        while q < mem.questionTasks.len()
            invariant
                q <= mem.questionTasks.len(),
                i < mem.judgementTasks.len(),
                t == mem.judgementTasks[i as int].sentence.term@,
                credit == sat_u64((c0 + question_credit(mem.questionTasks@, t, q as int)) as nat),
            decreases mem.questionTasks.len() - q,
        {
            if sharesSubterm(&mem.questionTasks[q].sentence.term, &mem.judgementTasks[i].sentence.term) {
                credit = credit.saturating_add(mem.questionTasks[q].prio);
            }
            q = q + 1;
        }
        mem.judgementTasks[i].credit = credit;
        i = i + 1;
    }
}

/// Attention penalty: every judgment task's credit is divided by its complexity.
pub fn divAllCredits(mem: &mut Mem2)
    requires
        old(mem).wf(),
    ensures
        final(mem).wf(),
        final(mem).questionTasks@ == old(mem).questionTasks@,
        final(mem).stampIdCounter == old(mem).stampIdCounter,
        final(mem).judgementTasks.len() == old(mem).judgementTasks.len(),
        forall|i: int| 0 <= i < final(mem).judgementTasks.len() ==> (#[trigger] final(mem).judgementTasks[i]).sentence == old(mem).judgementTasks[i].sentence
            && final(mem).judgementTasks[i].credit == old(mem).judgementTasks[i].credit / credit_divisor(old(mem).judgementTasks[i].sentence.term@),
{
    let mut i: usize = 0;
    while i < mem.judgementTasks.len()
        invariant
            mem.wf(),
            i <= mem.judgementTasks.len(),
            mem.questionTasks@ == old(mem).questionTasks@,
            mem.stampIdCounter == old(mem).stampIdCounter,
            mem.judgementTasks.len() == old(mem).judgementTasks.len(),
            forall|k: int| 0 <= k < mem.judgementTasks.len() ==> (#[trigger] mem.judgementTasks[k]).sentence == old(mem).judgementTasks[k].sentence
                && mem.judgementTasks[k].credit == if k < i {
                    old(mem).judgementTasks[k].credit / credit_divisor(old(mem).judgementTasks[k].sentence.term@)
                } else {
                    old(mem).judgementTasks[k].credit
                },
        decreases mem.judgementTasks.len() - i,
    {
        let d = creditDivisor(&mem.judgementTasks[i].sentence.term);
        let c = mem.judgementTasks[i].credit / d;
        mem.judgementTasks[i].credit = c;
        i = i + 1;
    }
}

fn hasTaskWithTerm(mem: &Mem2, t: &Term) -> (r: bool)
    ensures
        r == exists|i: int| 0 <= i < mem.judgementTasks.len() && (#[trigger] mem.judgementTasks[i]).sentence.term@ == t@,
{
    let mut i: usize = 0;
    while i < mem.judgementTasks.len()
        invariant
            i <= mem.judgementTasks.len(),
            forall|k: int| 0 <= k < i ==> (#[trigger] mem.judgementTasks[k]).sentence.term@ != t@,
        decreases mem.judgementTasks.len() - i,
    {
        if checkEqTerm(&mem.judgementTasks[i].sentence.term, t) {
            return true;
        }
        i = i + 1;
    }
    false
}

/// What a cycle keeps: the judgment tasks (credits aside) and the questions, answers once given,
/// and every answer unifies with its question.
pub open spec fn cycle_post(old: Mem2, new: Mem2) -> bool {
    &&& new.wf()
    &&& new.stampIdCounter == old.stampIdCounter
    &&& new.judgementTasks.len() >= old.judgementTasks.len()
    &&& forall|i: int| 0 <= i < old.judgementTasks.len() ==> (#[trigger] new.judgementTasks[i]).sentence == old.judgementTasks[i].sentence
    &&& new.questionTasks.len() == old.questionTasks.len()
    &&& forall|i: int| 0 <= i < new.questionTasks.len() ==> (#[trigger] new.questionTasks[i]).sentence == old.questionTasks[i].sentence
        && new.questionTasks[i].prio == old.questionTasks[i].prio
        && (old.questionTasks[i].answer is Some ==> new.questionTasks[i].answer == old.questionTasks[i].answer)
        && (new.questionTasks[i].answer is Some && old.questionTasks[i].answer is None ==>
            unify_spec(new.questionTasks[i].sentence.term@, new.questionTasks[i].answer->0.term@, seq![]) is Some)
}

/// The conclusions `cs` were taken into `new`: each has a judgment task with its term, every
/// task added after `old`'s is one of them with a term that no earlier task has, and each
/// question without an answer that a conclusion unifies with has one.
pub open spec fn conclusions_taken(old: Mem2, cs: Seq<SentenceDummy>, new: Mem2) -> bool {
    &&& taken_present(cs, new.judgementTasks@)
    &&& taken_new(old.judgementTasks@, cs, new.judgementTasks@)
    &&& taken_answers(old.questionTasks@, cs, new.questionTasks@)
}

/// Gives a conclusion to the questions without answer that it unifies with, and stores it as a
/// judgment task unless a task has its term already.
fn takeConclusion(mem: &mut Mem2, c: SentenceDummy)
    requires
        old(mem).wf(),
        has_tv(c),
        c.punct == EnumPunctation::JUGEMENT,
    ensures
        cycle_post(*old(mem), *final(mem)),
        forall|i: int| 0 <= i < old(mem).judgementTasks.len() ==> #[trigger] final(mem).judgementTasks[i] == old(mem).judgementTasks[i],
        has_term(old(mem).judgementTasks@, c) ==> final(mem).judgementTasks@ == old(mem).judgementTasks@,
        !has_term(old(mem).judgementTasks@, c) ==> final(mem).judgementTasks.len() == old(mem).judgementTasks.len() + 1
            && final(mem).judgementTasks@.last().sentence == c
            && final(mem).judgementTasks@.last().credit == CREDIT_ONE / credit_divisor(c.term@),
        has_term(final(mem).judgementTasks@, c),
        forall|q: int| 0 <= q < old(mem).questionTasks.len() && (#[trigger] old(mem).questionTasks[q]).answer is None
            && unify_spec(old(mem).questionTasks[q].sentence.term@, c.term@, seq![]) is Some
            ==> final(mem).questionTasks[q].answer is Some,
{
    let mut q: usize = 0;
    let ghost m0 = *mem;
    while q < mem.questionTasks.len()
        invariant
            cycle_post(m0, *mem),
            m0 == *old(mem),
            mem.judgementTasks@ == m0.judgementTasks@,
            mem.questionTasks.len() == m0.questionTasks.len(),
            forall|q2: int| 0 <= q2 < q && (#[trigger] m0.questionTasks[q2]).answer is None
                && unify_spec(m0.questionTasks[q2].sentence.term@, c.term@, seq![]) is Some
                ==> mem.questionTasks[q2].answer is Some,
            has_tv(c),
            q <= mem.questionTasks.len(),
        decreases mem.questionTasks.len() - q,
    {
        if mem.questionTasks[q].answer.is_none() {
            if unify(&mem.questionTasks[q].sentence.term, &c.term).is_some() {
                let a = c.clone();
                let ghost before = *mem;
                mem.questionTasks[q].answer = Some(a);
                assert forall|i: int| 0 <= i < mem.questionTasks.len() implies has_tv((#[trigger] mem.questionTasks[i]).sentence) by {
                    assert(mem.questionTasks[i].sentence == before.questionTasks[i].sentence);
                }
                assert forall|q2: int| 0 <= q2 < q + 1 && (#[trigger] m0.questionTasks[q2]).answer is None
                    && unify_spec(m0.questionTasks[q2].sentence.term@, c.term@, seq![]) is Some
                    implies mem.questionTasks[q2].answer is Some by {
                    if q2 != q {
                        assert(mem.questionTasks[q2] == before.questionTasks[q2]);
                    }
                }
            }
        }
        q = q + 1;
    }
    if !hasTaskWithTerm(mem, &c.term) {
        let ghost before = *mem;
        memAddTask(mem, c, true);
        assert forall|i: int| 0 <= i < m0.judgementTasks.len() implies #[trigger] mem.judgementTasks[i] == m0.judgementTasks[i] by {
            assert(mem.judgementTasks[i] == before.judgementTasks[i]);
        }
    }
}

proof fn lemma_cycle_post_trans(a: Mem2, b: Mem2, c: Mem2)
    requires
        cycle_post(a, b),
        cycle_post(b, c),
    ensures
        cycle_post(a, c),
{
    assert forall|i: int| 0 <= i < a.judgementTasks.len() implies (#[trigger] c.judgementTasks[i]).sentence == a.judgementTasks[i].sentence by {
        assert(b.judgementTasks[i].sentence == a.judgementTasks[i].sentence);
    }
    assert forall|i: int| 0 <= i < c.questionTasks.len() implies (#[trigger] c.questionTasks[i]).sentence == a.questionTasks[i].sentence
        && c.questionTasks[i].prio == a.questionTasks[i].prio
        && (a.questionTasks[i].answer is Some ==> c.questionTasks[i].answer == a.questionTasks[i].answer)
        && (c.questionTasks[i].answer is Some && a.questionTasks[i].answer is None ==>
            unify_spec(c.questionTasks[i].sentence.term@, c.questionTasks[i].answer->0.term@, seq![]) is Some) by {
        assert(b.questionTasks[i].sentence == a.questionTasks[i].sentence);
    }
}

/// Stores the conclusions that are new as judgment tasks and gives them to the questions they answer.
fn takeConclusions(mem: &mut Mem2, concl: Vec<SentenceDummy>)
    requires
        old(mem).wf(),
        forall|i: int| 0 <= i < concl.len() ==> has_tv(#[trigger] concl[i]) && concl[i].punct == EnumPunctation::JUGEMENT,
    ensures
        cycle_post(*old(mem), *final(mem)),
        forall|i: int| 0 <= i < old(mem).judgementTasks.len() ==> (#[trigger] final(mem).judgementTasks[i]).credit == old(mem).judgementTasks[i].credit,
        old(mem).judgementTasks.len() <= final(mem).judgementTasks.len(),
        conclusions_taken(*old(mem), concl@, *final(mem)),
{
    let ghost cs = concl@;
    let mut concl = concl;
    let ghost om = *mem;
    proof {
        assert(cs.subrange(cs.len() as int, cs.len() as int) =~= seq![]);
        reveal(taken_present);
        reveal(taken_new);
        reveal(taken_answers);
    }
    while concl.len() > 0
        invariant
            cycle_post(om, *mem),
            om == *old(mem),
            forall|i: int| 0 <= i < om.judgementTasks.len() ==> #[trigger] mem.judgementTasks[i] == om.judgementTasks[i],
            forall|i: int| 0 <= i < concl.len() ==> has_tv(#[trigger] concl[i]) && concl[i].punct == EnumPunctation::JUGEMENT,
            concl.len() <= cs.len(),
            concl@ == cs.subrange(0, concl.len() as int),
            conclusions_taken(om, cs.subrange(concl.len() as int, cs.len() as int), *mem),
        decreases concl.len(),
    {
        let ghost n = concl.len() as int;
        let c = concl.pop().unwrap();
        assert(c == cs[n - 1]);
        let ghost doneBefore = cs.subrange(n, cs.len() as int);
        let ghost done = cs.subrange(n - 1, cs.len() as int);
        assert(done[0] == c);
        assert forall|k: int| 1 <= k < done.len() implies done[k] == doneBefore[k - 1] by {}
        let ghost m0 = *mem;
        takeConclusion(mem, c);
        proof {
            lemma_cycle_post_trans(om, m0, *mem);
            assert forall|i: int| 0 <= i < om.judgementTasks.len() implies #[trigger] mem.judgementTasks[i] == om.judgementTasks[i] by {
                assert(mem.judgementTasks[i] == m0.judgementTasks[i]);
            }
            assert forall|q: int| 0 <= q < m0.questionTasks.len() implies (#[trigger] m0.questionTasks[q]).sentence == om.questionTasks[q].sentence by {}
            assert forall|q: int| 0 <= q < m0.questionTasks.len() && (#[trigger] m0.questionTasks[q]).answer is Some
                implies mem.questionTasks[q].answer is Some by {}
            lemma_present_step(doneBefore, done, c, m0.judgementTasks@, mem.judgementTasks@);
            lemma_new_step(om.judgementTasks@, doneBefore, done, c, m0.judgementTasks@, mem.judgementTasks@);
            lemma_answers_step(om.questionTasks@, doneBefore, done, c, m0.questionTasks@, mem.questionTasks@);
        }
    }
    assert(cs.subrange(0, cs.len() as int) =~= cs);
}

#[verifier::opaque]
pub open spec fn taken_present(cs: Seq<SentenceDummy>, nt: Seq<Task>) -> bool {
    forall|k: int| 0 <= k < cs.len() ==> exists|i: int| 0 <= i < nt.len()
        && (#[trigger] nt[i]).sentence.term@ == (#[trigger] cs[k]).term@
}

#[verifier::opaque]
pub open spec fn taken_new(ot: Seq<Task>, cs: Seq<SentenceDummy>, nt: Seq<Task>) -> bool {
    forall|i: int| ot.len() <= i < nt.len() ==>
        (exists|k: int| 0 <= k < cs.len() && (#[trigger] cs[k]).term@ == (#[trigger] nt[i]).sentence.term@
            && cs[k].evi == nt[i].sentence.evi)
        && nt[i].credit == CREDIT_ONE / credit_divisor(nt[i].sentence.term@)
        && forall|j: int| 0 <= j < i ==> (#[trigger] nt[j]).sentence.term@ != nt[i].sentence.term@
}

#[verifier::opaque]
pub open spec fn taken_answers(oq: Seq<Task2>, cs: Seq<SentenceDummy>, nq: Seq<Task2>) -> bool {
    forall|q: int, k: int| 0 <= q < oq.len() && 0 <= k < cs.len()
        && (#[trigger] oq[q]).answer is None
        && unify_spec(oq[q].sentence.term@, (#[trigger] cs[k]).term@, seq![]) is Some
        ==> q < nq.len() && nq[q].answer is Some
}

/// The term of a conclusion is among the tasks' terms.
pub open spec fn has_term(t: Seq<Task>, c: SentenceDummy) -> bool {
    exists|i: int| 0 <= i < t.len() && (#[trigger] t[i]).sentence.term@ == c.term@
}

proof fn lemma_present_step(doneBefore: Seq<SentenceDummy>, done: Seq<SentenceDummy>, c: SentenceDummy, t0: Seq<Task>, t1: Seq<Task>)
    requires
        done.len() == doneBefore.len() + 1,
        done[0] == c,
        forall|k: int| 1 <= k < done.len() ==> done[k] == doneBefore[k - 1],
        taken_present(doneBefore, t0),
        t0.len() <= t1.len(),
        forall|i: int| 0 <= i < t0.len() ==> #[trigger] t1[i] == t0[i],
        has_term(t1, c),
    ensures
        taken_present(done, t1),
{
    reveal(taken_present);
    assert forall|k: int| 0 <= k < done.len() implies exists|i: int| 0 <= i < t1.len()
        && (#[trigger] t1[i]).sentence.term@ == (#[trigger] done[k]).term@ by {
        if k == 0 {
            let i = choose|i: int| 0 <= i < t1.len() && (#[trigger] t1[i]).sentence.term@ == c.term@;
            assert(t1[i].sentence.term@ == done[0].term@);
        } else {
            assert(done[k] == doneBefore[k - 1]);
            let i = choose|i: int| 0 <= i < t0.len() && (#[trigger] t0[i]).sentence.term@ == (#[trigger] doneBefore[k - 1]).term@;
            assert(t1[i] == t0[i]);
        }
    }
}

proof fn lemma_new_step(ot: Seq<Task>, doneBefore: Seq<SentenceDummy>, done: Seq<SentenceDummy>, c: SentenceDummy, t0: Seq<Task>, t1: Seq<Task>)
    requires
        done.len() == doneBefore.len() + 1,
        done[0] == c,
        forall|k: int| 1 <= k < done.len() ==> done[k] == doneBefore[k - 1],
        taken_new(ot, doneBefore, t0),
        ot.len() <= t0.len(),
        t0.len() <= t1.len() <= t0.len() + 1,
        forall|i: int| 0 <= i < t0.len() ==> #[trigger] t1[i] == t0[i],
        t1.len() == t0.len() + 1 ==> !has_term(t0, c) && t1.last().sentence == c
            && t1.last().credit == CREDIT_ONE / credit_divisor(c.term@),
    ensures
        taken_new(ot, done, t1),
{
    reveal(taken_new);
    assert forall|i: int| ot.len() <= i < t1.len() implies
        (exists|k: int| 0 <= k < done.len() && (#[trigger] done[k]).term@ == (#[trigger] t1[i]).sentence.term@
            && done[k].evi == t1[i].sentence.evi)
        && t1[i].credit == CREDIT_ONE / credit_divisor(t1[i].sentence.term@)
        && forall|j: int| 0 <= j < i ==> (#[trigger] t1[j]).sentence.term@ != t1[i].sentence.term@ by {
        if i < t0.len() {
            assert(t1[i] == t0[i]);
            let k = choose|k: int| 0 <= k < doneBefore.len() && (#[trigger] doneBefore[k]).term@ == (#[trigger] t0[i]).sentence.term@
                && doneBefore[k].evi == t0[i].sentence.evi;
            assert(done[k + 1] == doneBefore[k]);
            assert forall|j: int| 0 <= j < i implies (#[trigger] t1[j]).sentence.term@ != t1[i].sentence.term@ by {
                assert(t1[j] == t0[j]);
            }
        } else {
            assert(t1[i].sentence == c);
            assert(done[0].term@ == t1[i].sentence.term@);
            assert forall|j: int| 0 <= j < i implies (#[trigger] t1[j]).sentence.term@ != t1[i].sentence.term@ by {
                assert(t1[j] == t0[j]);
                if t0[j].sentence.term@ == c.term@ {
                    assert(has_term(t0, c));
                }
            }
        }
    }
}

proof fn lemma_answers_step(oq: Seq<Task2>, doneBefore: Seq<SentenceDummy>, done: Seq<SentenceDummy>, c: SentenceDummy, q0: Seq<Task2>, q1: Seq<Task2>)
    requires
        done.len() == doneBefore.len() + 1,
        done[0] == c,
        forall|k: int| 1 <= k < done.len() ==> done[k] == doneBefore[k - 1],
        taken_answers(oq, doneBefore, q0),
        oq.len() == q0.len(),
        q0.len() == q1.len(),
        forall|q: int| 0 <= q < q0.len() ==> (#[trigger] q0[q]).sentence == oq[q].sentence,
        forall|q: int| 0 <= q < q0.len() && (#[trigger] q0[q]).answer is Some ==> q1[q].answer is Some,
        forall|q: int| 0 <= q < q0.len() && (#[trigger] q0[q]).answer is None
            && unify_spec(q0[q].sentence.term@, c.term@, seq![]) is Some
            ==> q1[q].answer is Some,
    ensures
        taken_answers(oq, done, q1),
{
    reveal(taken_answers);
    assert forall|q: int, k: int| 0 <= q < oq.len() && 0 <= k < done.len()
        && (#[trigger] oq[q]).answer is None
        && unify_spec(oq[q].sentence.term@, (#[trigger] done[k]).term@, seq![]) is Some
        implies q < q1.len() && q1[q].answer is Some by {
        assert(q0[q].sentence == oq[q].sentence);
        if k > 0 {
            assert(done[k] == doneBefore[k - 1]);
            assert(q0[q].answer is Some);
        } else {
            if q0[q].answer is None {
                assert(q1[q].answer is Some);
            }
        }
    }
}

/// The credit of a judgment task after propagation and the attention penalty.
pub open spec fn credit_after(qs: Seq<Task2>, t: Task) -> int {
    sat_u64((t.credit + question_credit(qs, t.sentence.term@, qs.len() as int)) as nat) as int / credit_divisor(t.sentence.term@) as int
}

/// Indices below `k` of the tasks that share a subterm with task `p`, in order.
pub open spec fn sharing(ts: Seq<Task>, p: int, k: int) -> Seq<int>
    decreases k,
{
    if k <= 0 {
        seq![]
    } else {
        sharing(ts, p, k - 1) + if shares_subterm(ts[p].sentence.term@, ts[k - 1].sentence.term@) { seq![k - 1] } else { seq![] }
    }
}

/// `m1` is `old` after credit propagation and the attention penalty.
pub open spec fn credit_updated(old: Mem2, m1: Mem2) -> bool {
    &&& m1.wf()
    &&& m1.questionTasks@ == old.questionTasks@
    &&& m1.stampIdCounter == old.stampIdCounter
    &&& m1.judgementTasks.len() == old.judgementTasks.len()
    &&& forall|i: int| 0 <= i < m1.judgementTasks.len() ==> (#[trigger] m1.judgementTasks[i]).sentence == old.judgementTasks[i].sentence
        && m1.judgementTasks[i].credit == credit_after(old.questionTasks@, old.judgementTasks[i])
}

/// The choices of a cycle: in the updated memory `m1`, the primary task is the roulette index for
/// `selPrimary`; the secondary is picked by roulette for `selSecondary` among the tasks that share
/// a subterm with it (`ct` holding their credits); the conclusions `cs` of inference on the two
/// are taken into `new`.
pub open spec fn cycle_choice(old: Mem2, selPrimary: u64, selSecondary: u64, m1: Mem2, ct: Seq<Task>, cs: Seq<SentenceDummy>, new: Mem2) -> bool {
    let ts = m1.judgementTasks@;
    let p = roulette_pick(ts, selPrimary);
    let cands = sharing(ts, p, ts.len() as int);
    &&& credit_updated(old, m1)
    &&& cands.len() > 0
    &&& ct.len() == cands.len()
    &&& forall|k: int| 0 <= k < ct.len() ==> (#[trigger] ct[k]).credit == ts[cands[k]].credit
    &&& inference_post(ts[p].sentence, ts[cands[roulette_pick(ct, selSecondary)]].sentence, cs)
    &&& conclusions_taken(m1, cs, new)
}

/// What a cycle with the given roulette values gives: the cycle's invariants, the updated
/// credits, and (with tasks present) the choices and conclusions of `cycle_choice`.
pub open spec fn cycle_with_post(old: Mem2, selPrimary: u64, selSecondary: u64, new: Mem2) -> bool {
    &&& cycle_post(old, new)
    &&& forall|i: int| 0 <= i < old.judgementTasks.len() ==> (#[trigger] new.judgementTasks[i]).credit
        == credit_after(old.questionTasks@, old.judgementTasks[i])
    &&& old.judgementTasks.len() == 0 ==> new == old
    &&& old.judgementTasks.len() > 0 ==> exists|m1: Mem2, ct: Seq<Task>, cs: Seq<SentenceDummy>|
        #[trigger] cycle_choice(old, selPrimary, selSecondary, m1, ct, cs, new)
}

/// Every term shares a subterm with itself.
proof fn lemma_shares_self(t: TermV)
    ensures
        shares_subterm(t, t),
{
    crate::term::law_subterms_contain_term(t);
}

/// One reasoning cycle with the given roulette values (each below `CREDIT_ONE`): credit
/// propagation, attention penalty, primary and secondary selection, inference, new tasks and answers.
pub fn reasonCycleWith(mem: &mut Mem2, selPrimary: u64, selSecondary: u64)
    requires
        old(mem).wf(),
        selPrimary < CREDIT_ONE,
        selSecondary < CREDIT_ONE,
    ensures
        cycle_with_post(*old(mem), selPrimary, selSecondary, *final(mem)),
{
    if mem.judgementTasks.len() == 0 {
        return;
    }
    propagateCredit(mem);
    divAllCredits(mem);
    let ghost m1 = *mem;
    assert(cycle_post(*old(mem), m1));
    assert(credit_updated(*old(mem), m1));
    let p = taskSelByCreditRandom(selPrimary, &mem.judgementTasks);
    let ghost ts = m1.judgementTasks@;
    let mut cands: Vec<Task> = Vec::new();
    let mut candIdx: Vec<usize> = Vec::new();
    let mut j: usize = 0;
    while j < mem.judgementTasks.len()
        invariant
            *mem == m1,
            ts == m1.judgementTasks@,
            p == roulette_pick(ts, selPrimary),
            p < mem.judgementTasks.len(),
            j <= mem.judgementTasks.len(),
            cands.len() == candIdx.len(),
            candIdx@.map_values(|x: usize| x as int) == sharing(ts, p as int, j as int),
            forall|k: int| 0 <= k < candIdx.len() ==> #[trigger] candIdx[k] < mem.judgementTasks.len()
                && cands[k].credit == ts[candIdx[k] as int].credit,
            j > p ==> cands.len() > 0,
        decreases mem.judgementTasks.len() - j,
    {
        proof {
            if j == p {
                lemma_shares_self(ts[p as int].sentence.term@);
            }
        }
        if sharesSubterm(&mem.judgementTasks[p].sentence.term, &mem.judgementTasks[j].sentence.term) {
            let ghost before = candIdx@;
            cands.push(Task { sentence: mem.judgementTasks[j].sentence.clone(), credit: mem.judgementTasks[j].credit });
            candIdx.push(j);
            assert(candIdx@.map_values(|x: usize| x as int) =~= before.map_values(|x: usize| x as int).push(j as int));
        } else {
            assert(sharing(ts, p as int, j + 1) == sharing(ts, p as int, j as int) + Seq::<int>::empty());
            assert(sharing(ts, p as int, j + 1) =~= sharing(ts, p as int, j as int));
        }
        j = j + 1;
    }
    let s = taskSelByCreditRandom(selSecondary, &cands);
    let sec = candIdx[s];
    let mut wereRulesApplied = false;
    assert(has_tv(mem.judgementTasks[p as int].sentence));
    assert(has_tv(mem.judgementTasks[sec as int].sentence));
    let concl = inference(&mem.judgementTasks[p].sentence, &mem.judgementTasks[sec].sentence, &mut wereRulesApplied);
    let ghost cs = concl@;
    let ghost ct = cands@;
    takeConclusions(mem, concl);
    proof {
        let cidx = sharing(ts, p as int, ts.len() as int);
        assert(cidx[s as int] == sec as int);
        assert forall|k: int| 0 <= k < ct.len() implies (#[trigger] ct[k]).credit == ts[cidx[k]].credit by {
            assert(cidx[k] == candIdx[k] as int);
        }
        assert(cycle_choice(*old(mem), selPrimary, selSecondary, m1, ct, cs, *mem));
        assert forall|i: int| 0 <= i < old(mem).judgementTasks.len() implies (#[trigger] mem.judgementTasks[i]).credit
            == credit_after(old(mem).questionTasks@, old(mem).judgementTasks[i]) by {
            assert(m1.judgementTasks[i].credit == credit_after(old(mem).questionTasks@, old(mem).judgementTasks[i]));
        }
        lemma_cycle_post_trans(*old(mem), m1, *mem);
    }
}

/// Performs one reasoning cycle, with random roulette values.
pub fn reasonCycle(mem: &mut Mem2)
    requires
        old(mem).wf(),
    ensures
        exists|a: u64, b: u64| a < CREDIT_ONE && b < CREDIT_ONE && #[trigger] cycle_with_post(*old(mem), a, b, *final(mem)),
{
    let mut rng = mem.rng;
    let a = genBelow(&mut rng, CREDIT_ONE);
    let b = genBelow(&mut rng, CREDIT_ONE);
    reasonCycleWith(mem, a, b);
}

}
