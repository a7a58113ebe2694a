use vstd::prelude::*;

use crate::term::{Term, TermV, checkEqTerm, retSubterms, subterms, terms_view};
use crate::truth::{Evidence, CNT_MAX, TV_ONE, calcExp, convCntToTv, exp_spec, cnt_tv_spec};
use crate::stamp::{STAMP_MAX, checkOverlap, merge, merge_spec, overlap_spec, lemma_merge_overlaps};
use crate::sentence::SentenceDummy;
use crate::termapi::{retCond, retPred, is_predimpl, cond_of, pred_of};

verus! {

/// A concept: a term and the indices of the beliefs stored under it.
pub struct Concept {
    pub name: Term,
    pub beliefs: Vec<usize>,
}

/// Memory of procedural evidence: the beliefs, and the concepts that index them by term.
pub struct Mem {
    pub beliefs: Vec<SentenceDummy>,
    pub concepts: Vec<Concept>,
}

/// Positive and total counts of a belief (zero for a truth-valued one).
pub open spec fn pos_of(s: SentenceDummy) -> int {
    match s.evi {
        Evidence::CNT { pos, cnt } => pos as int,
        Evidence::TV(_) => 0,
    }
}

pub open spec fn cnt_of(s: SentenceDummy) -> int {
    match s.evi {
        Evidence::CNT { pos, cnt } => cnt as int,
        Evidence::TV(_) => 0,
    }
}

/// A well-formed piece of procedural evidence: a predictive implication,
/// counts with `0 <= pos <= cnt` and `1 <= cnt <= CNT_MAX`, and an interval index.
pub open spec fn evidence_ok(s: SentenceDummy) -> bool {
    &&& s.evi is CNT
    &&& 0 <= pos_of(s) <= cnt_of(s)
    &&& 1 <= cnt_of(s) <= CNT_MAX
    &&& s.expDt is Some
    &&& is_predimpl(s.term@)
}

impl Mem {
    pub open spec fn wf(&self) -> bool {
        &&& forall|i: int| 0 <= i < self.beliefs.len() ==> evidence_ok(#[trigger] self.beliefs[i])
        &&& forall|c: int, j: int| 0 <= c < self.concepts.len() && 0 <= j < self.concepts[c].beliefs.len()
            ==> #[trigger] self.concepts[c].beliefs[j] < self.beliefs.len()
        &&& names_unique(self.concepts@)
    }
}

/// No two concepts have the same name.
pub open spec fn names_unique(cs: Seq<Concept>) -> bool {
    forall|c: int, d: int| 0 <= c < d < cs.len() ==> (#[trigger] cs[c]).name@ != (#[trigger] cs[d]).name@
}

/// Names are unique in `new` when they are in `old` and each concept of `new` has the name of
/// the concept of `old` at the same place.
proof fn lemma_names_same(old: Seq<Concept>, new: Seq<Concept>)
    requires
        names_unique(old),
        old.len() == new.len(),
        forall|c: int| 0 <= c < new.len() ==> (#[trigger] new[c]).name@ == old[c].name@,
    ensures
        names_unique(new),
{
    assert forall|c: int, d: int| 0 <= c < d < new.len() implies (#[trigger] new[c]).name@ != (#[trigger] new[d]).name@ by {
        assert(old[c].name@ != old[d].name@);
    }
}

proof fn lemma_concept_idx_none_all(cs: Seq<Concept>, name: TermV)
    requires
        concept_idx(cs, name) is None,
    ensures
        forall|i: int| 0 <= i < cs.len() ==> (#[trigger] cs[i]).name@ != name,
    decreases cs.len(),
{
    if cs.len() > 0 {
        let p = cs.subrange(0, cs.len() - 1);
        lemma_concept_idx_none_all(p, name);
        assert forall|i: int| 0 <= i < cs.len() implies (#[trigger] cs[i]).name@ != name by {
            if i < p.len() {
                assert(p[i] == cs[i]);
            }
        }
    }
}

/// Creates an empty memory.
pub fn make() -> (r: Mem)
    ensures
        r.wf(),
        r.beliefs.len() == 0,
        r.concepts.len() == 0,
{
    Mem { beliefs: Vec::new(), concepts: Vec::new() }
}

/// Index of the first concept named `name`.
pub open spec fn concept_idx(cs: Seq<Concept>, name: TermV) -> Option<int>
    decreases cs.len(),
{
    if cs.len() == 0 {
        None
    } else {
        match concept_idx(cs.subrange(0, cs.len() - 1), name) {
            Some(i) => Some(i),
            None => if cs[cs.len() - 1].name@ == name { Some(cs.len() - 1) } else { None },
        }
    }
}

proof fn lemma_concept_idx_extend(cs: Seq<Concept>, name: TermV, k: int)
    requires
        0 <= k <= cs.len(),
        concept_idx(cs.subrange(0, k), name) is Some,
    ensures
        concept_idx(cs, name) == concept_idx(cs.subrange(0, k), name),
    decreases cs.len() - k,
{
    if k < cs.len() {
        let p = cs.subrange(0, k + 1);
        assert(p.subrange(0, k) =~= cs.subrange(0, k));
        lemma_concept_idx_extend(cs, name, k + 1);
    } else {
        assert(cs.subrange(0, k) =~= cs);
    }
}

proof fn lemma_concept_idx_none(cs: Seq<Concept>, name: TermV)
    requires
        forall|i: int| 0 <= i < cs.len() ==> (#[trigger] cs[i]).name@ != name,
    ensures
        concept_idx(cs, name) is None,
    decreases cs.len(),
{
    if cs.len() > 0 {
        let p = cs.subrange(0, cs.len() - 1);
        assert forall|i: int| 0 <= i < p.len() implies (#[trigger] p[i]).name@ != name by {
            assert(p[i] == cs[i]);
        }
        lemma_concept_idx_none(p, name);
    }
}

proof fn lemma_concept_idx_found(cs: Seq<Concept>, name: TermV, i: int)
    requires
        0 <= i < cs.len(),
        cs[i].name@ == name,
        forall|j: int| 0 <= j < i ==> (#[trigger] cs[j]).name@ != name,
    ensures
        concept_idx(cs, name) == Some(i),
{
    let p = cs.subrange(0, i);
    assert forall|j: int| 0 <= j < p.len() implies (#[trigger] p[j]).name@ != name by {
        assert(p[j] == cs[j]);
    }
    lemma_concept_idx_none(p, name);
    let q = cs.subrange(0, i + 1);
    assert(q.subrange(0, i) =~= p);
    lemma_concept_idx_extend(cs, name, i + 1);
}

/// Index of the concept named `name`, if there is one.
pub fn retConceptIdx(mem: &Mem, name: &Term) -> (r: Option<usize>)
    ensures
        match r {
            Some(i) => i < mem.concepts.len() && concept_idx(mem.concepts@, name@) == Some(i as int)
                && mem.concepts@[i as int].name@ == name@,
            None => concept_idx(mem.concepts@, name@) is None,
        },
{
    let mut i: usize = 0;
    while i < mem.concepts.len()
        invariant
            i <= mem.concepts.len(),
            forall|j: int| 0 <= j < i ==> (#[trigger] mem.concepts@[j]).name@ != name@,
        decreases mem.concepts.len() - i,
    {
        if checkEqTerm(&mem.concepts[i].name, name) {
            proof {
                lemma_concept_idx_found(mem.concepts@, name@, i as int);
            }
            return Some(i);
        }
        i = i + 1;
    }
    proof {
        lemma_concept_idx_none(mem.concepts@, name@);
    }
    None
}

/// The beliefs of the concepts named by `names`, one concept after the other (duplicates kept).
pub open spec fn beliefs_by_terms(cs: Seq<Concept>, names: Seq<TermV>) -> Seq<usize>
    decreases names.len(),
{
    if names.len() == 0 {
        seq![]
    } else {
        beliefs_by_terms(cs, names.subrange(0, names.len() - 1)) + match concept_idx(cs, names[names.len() - 1]) {
            Some(c) => cs[c].beliefs@,
            None => seq![],
        }
    }
}

/// Returns the beliefs stored under the concepts named by `terms`, duplicates admitted.
pub fn ret_beliefs_by_terms_nonunique(mem: &Mem, terms: &Vec<Term>) -> (r: Vec<usize>)
    requires
        mem.wf(),
    ensures
        r@ == beliefs_by_terms(mem.concepts@, terms_view(terms@)),
        forall|j: int| 0 <= j < r.len() ==> #[trigger] r[j] < mem.beliefs.len(),
{
    let ghost names = terms_view(terms@);
    let mut res: Vec<usize> = Vec::new();
    let mut i: usize = 0;
    assert(names.subrange(0, 0) =~= seq![]);
    while i < terms.len()
        invariant
            mem.wf(),
            i <= terms.len(),
            names == terms_view(terms@),
            res@ == beliefs_by_terms(mem.concepts@, names.subrange(0, i as int)),
            forall|j: int| 0 <= j < res.len() ==> #[trigger] res[j] < mem.beliefs.len(),
        decreases terms.len() - i,
    {
        proof {
            assert(names.subrange(0, i + 1).subrange(0, i as int) =~= names.subrange(0, i as int));
            assert(names.subrange(0, i + 1)[i as int] == terms[i as int]@);
        }
        match retConceptIdx(mem, &terms[i]) {
            Some(c) => {
                let ghost before = res@;
                let mut k: usize = 0;
                while k < mem.concepts[c].beliefs.len()
                    invariant
                        mem.wf(),
                        c < mem.concepts.len(),
                        k <= mem.concepts[c as int].beliefs.len(),
                        res@ == before + mem.concepts[c as int].beliefs@.subrange(0, k as int),
                        forall|j: int| 0 <= j < res.len() ==> #[trigger] res[j] < mem.beliefs.len(),
                    decreases mem.concepts[c as int].beliefs.len() - k,
                {
                    res.push(mem.concepts[c].beliefs[k]);
                    assert(res@ =~= before + mem.concepts[c as int].beliefs@.subrange(0, k + 1));
                    k = k + 1;
                }
                assert(mem.concepts[c as int].beliefs@.subrange(0, k as int) =~= mem.concepts[c as int].beliefs@);
            },
            None => {},
        }
        i = i + 1;
    }
    assert(names.subrange(0, terms.len() as int) =~= names);
    res
}

/// Most beliefs a concept keeps.
pub const K_BELIEFS: usize = 18;

/// Total count of the belief at index `i` (0 when out of range); confidence grows with it.
pub open spec fn cnt_at(bs: Seq<SentenceDummy>, i: usize) -> int {
    if i < bs.len() { cnt_of(bs[i as int]) } else { 0 }
}

/// `n` is `full` trimmed to `K_BELIEFS` entries: when it holds more, one entry of least
/// confidence is dropped.
pub open spec fn capped(bs: Seq<SentenceDummy>, full: Seq<usize>, n: Seq<usize>) -> bool {
    if full.len() <= K_BELIEFS {
        n == full
    } else {
        exists|m: int| 0 <= m < full.len() && n == full.remove(m)
            && forall|j: int| 0 <= j < full.len() ==> cnt_at(bs, full[m]) <= cnt_at(bs, #[trigger] full[j])
    }
}

/// The concepts of `new` extend those of `old`: same names in the same places; the belief `idx`
/// added (then the list trimmed) to one concept named by each of `names`, the other concepts
/// unchanged, and new concepts holding just `idx`.
pub open spec fn concepts_extended(old: Seq<Concept>, new: Seq<Concept>, idx: usize, names: Seq<TermV>, bs: Seq<SentenceDummy>) -> bool {
    &&& new.len() >= old.len()
    &&& forall|c: int| 0 <= c < old.len() ==> (#[trigger] new[c]).name@ == old[c].name@
        && (new[c].beliefs@ == old[c].beliefs@ || capped(bs, old[c].beliefs@.push(idx), new[c].beliefs@))
    &&& forall|c: int| old.len() <= c < new.len() ==> (#[trigger] new[c]).beliefs@ == seq![idx]
    &&& forall|k: int| 0 <= k < names.len() ==> name_covered(old, new, idx, #[trigger] names[k], bs)
}

/// Some concept of `new` named `n` received the belief `idx`: it is new, or it is an old one
/// with `idx` added and then trimmed.
pub open spec fn name_covered(old: Seq<Concept>, new: Seq<Concept>, idx: usize, n: TermV, bs: Seq<SentenceDummy>) -> bool {
    exists|c: int| 0 <= c < new.len() && (#[trigger] new[c]).name@ == n
        && (c >= old.len() || capped(bs, old[c].beliefs@.push(idx), new[c].beliefs@))
}

fn containsIdx(v: &Vec<usize>, x: usize) -> (r: bool)
    ensures
        r == v@.contains(x),
{
    let mut i: usize = 0;
    while i < v.len()
        invariant
            i <= v.len(),
            forall|j: int| 0 <= j < i ==> v[j] != x,
        decreases v.len() - i,
    {
        if v[i] == x {
            return true;
        }
        i = i + 1;
    }
    false
}

fn beliefCnt(mem: &Mem, i: usize) -> (r: i64)
    requires
        mem.wf(),
    ensures
        r == cnt_at(mem.beliefs@, i),
{
    if i < mem.beliefs.len() {
        match mem.beliefs[i].evi {
            Evidence::CNT { pos, cnt } => cnt,
            Evidence::TV(_) => 0,
        }
    } else {
        0
    }
}

/// Trims the beliefs of concept `c` to `K_BELIEFS`, dropping the first one of least confidence.
fn trimConcept(mem: &mut Mem, c: usize)
    requires
        old(mem).wf(),
        c < old(mem).concepts.len(),
    ensures
        final(mem).wf(),
        final(mem).beliefs@ == old(mem).beliefs@,
        final(mem).concepts.len() == old(mem).concepts.len(),
        forall|d: int| 0 <= d < final(mem).concepts.len() && d != c ==> #[trigger] final(mem).concepts@[d] == old(mem).concepts@[d],
        final(mem).concepts@[c as int].name == old(mem).concepts@[c as int].name,
        capped(old(mem).beliefs@, old(mem).concepts@[c as int].beliefs@, final(mem).concepts@[c as int].beliefs@),
{
    let ghost full = mem.concepts@[c as int].beliefs@;
    let n = mem.concepts[c].beliefs.len();
    if n <= K_BELIEFS {
        return;
    }
    let mut m: usize = 0;
    let mut minCnt = beliefCnt(mem, mem.concepts[c].beliefs[0]);
    let mut j: usize = 1;
    while j < n
        invariant
            mem.wf(),
            c < mem.concepts.len(),
            full == mem.concepts@[c as int].beliefs@,
            n == full.len(),
            1 <= j <= n,
            m < j,
            minCnt == cnt_at(mem.beliefs@, full[m as int]),
            forall|q: int| 0 <= q < j ==> minCnt <= cnt_at(mem.beliefs@, #[trigger] full[q]),
        decreases n - j,
    {
        let x = beliefCnt(mem, mem.concepts[c].beliefs[j]);
        if x < minCnt {
            minCnt = x;
            m = j;
        }
        j = j + 1;
    }
    let ghost before = mem.concepts@;
    mem.concepts[c].beliefs.remove(m);
    proof {
        assert(mem.concepts@[c as int].beliefs@ =~= full.remove(m as int));
        assert forall|d: int| 0 <= d < mem.concepts.len() && d != c implies #[trigger] mem.concepts@[d] == before[d] by {}
        assert forall|cc: int, q: int| 0 <= cc < mem.concepts.len() && 0 <= q < mem.concepts@[cc].beliefs.len()
            implies #[trigger] mem.concepts@[cc].beliefs[q] < mem.beliefs.len() by {
            if cc == c {
                if q < m {
                    assert(mem.concepts@[cc].beliefs[q] == full[q]);
                } else {
                    assert(mem.concepts@[cc].beliefs[q] == full[q + 1]);
                }
            }
        }
    }
}

/// Stores the belief `idx` under the concepts named by `names` (once per concept), creating
/// missing concepts and trimming each concept to `K_BELIEFS` beliefs.
pub fn storeInConcepts(mem: &mut Mem, idx: usize, names: &Vec<Term>)
    requires
        old(mem).wf(),
        idx < old(mem).beliefs.len(),
        forall|c: int, j: int| 0 <= c < old(mem).concepts.len() && 0 <= j < old(mem).concepts[c].beliefs.len()
            ==> #[trigger] old(mem).concepts[c].beliefs[j] != idx,
    ensures
        final(mem).wf(),
        final(mem).beliefs@ == old(mem).beliefs@,
        concepts_extended(old(mem).concepts@, final(mem).concepts@, idx, terms_view(names@), old(mem).beliefs@),
{
    let ghost oldc = mem.concepts@;
    let ghost bs = mem.beliefs@;
    let ghost nv = terms_view(names@);
    let mut touched: Vec<usize> = Vec::new();
    let mut i: usize = 0;
    while i < names.len()
        invariant
            mem.wf(),
            idx < mem.beliefs.len(),
            mem.beliefs@ == bs,
            bs == old(mem).beliefs@,
            oldc == old(mem).concepts@,
            nv == terms_view(names@),
            i <= names.len(),
            mem.concepts.len() >= oldc.len(),
            forall|c: int| 0 <= c < oldc.len() ==> (#[trigger] mem.concepts@[c]).name@ == oldc[c].name@
                && (if touched@.contains(c as usize) { capped(bs, oldc[c].beliefs@.push(idx), mem.concepts@[c].beliefs@) } else { mem.concepts@[c].beliefs@ == oldc[c].beliefs@ }),
            forall|c: int| oldc.len() <= c < mem.concepts.len() ==> (#[trigger] mem.concepts@[c]).beliefs@ == seq![idx] && touched@.contains(c as usize),
            forall|k: int| #![trigger nv[k]] 0 <= k < i ==> exists|c: int| 0 <= c < mem.concepts.len()
                && (#[trigger] mem.concepts@[c]).name@ == nv[k] && touched@.contains(c as usize)
                && (c >= oldc.len() || capped(bs, oldc[c].beliefs@.push(idx), mem.concepts@[c].beliefs@)),
        decreases names.len() - i,
    {
        let ghost before = mem.concepts@;
        let ghost tb = touched@;
        assert(nv[i as int] == names[i as int]@);
        match retConceptIdx(mem, &names[i]) {
            Some(c) => {
                if !containsIdx(&touched, c) {
                    assert(c < oldc.len());
                    let ghost ob = mem.concepts@[c as int].beliefs@;
                    mem.concepts[c].beliefs.push(idx);
                    let ghost mid = mem.concepts@;
                    proof {
                        assert(mem.concepts@[c as int].beliefs@ == ob.push(idx));
                        assert forall|cc: int, q: int| 0 <= cc < mem.concepts.len() && 0 <= q < mem.concepts@[cc].beliefs.len()
                            implies #[trigger] mem.concepts@[cc].beliefs[q] < mem.beliefs.len() by {
                            if cc == c && q < ob.len() {
                                assert(mem.concepts@[cc].beliefs[q] == before[cc].beliefs[q]);
                            } else if cc != c {
                                assert(mem.concepts@[cc] == before[cc]);
                            }
                        }
                    }
                    proof {
                        lemma_names_same(before, mem.concepts@);
                    }
                    trimConcept(mem, c);
                    touched.push(c);
                    proof {
                        lemma_names_same(before, mem.concepts@);
                        assert(touched@[touched.len() - 1] == c);
                        assert(touched@.contains(c));
                        assert forall|c2: int| 0 <= c2 < oldc.len() implies (#[trigger] mem.concepts@[c2]).name@ == oldc[c2].name@
                            && (if touched@.contains(c2 as usize) { capped(bs, oldc[c2].beliefs@.push(idx), mem.concepts@[c2].beliefs@) } else { mem.concepts@[c2].beliefs@ == oldc[c2].beliefs@ }) by {
                            if c2 != c {
                                assert(mem.concepts@[c2] == mid[c2]);
                                assert(mid[c2] == before[c2]);
                                if touched@.contains(c2 as usize) {
                                    let w = choose|w: int| 0 <= w < touched.len() && touched@[w] == c2 as usize;
                                    assert(w < tb.len());
                                    assert(tb[w] == c2 as usize);
                                }
                                if tb.contains(c2 as usize) {
                                    let w = choose|w: int| 0 <= w < tb.len() && tb[w] == c2 as usize;
                                    assert(touched@[w] == c2 as usize);
                                }
                            } else {
                                assert(!tb.contains(c as usize));
                                assert(ob == oldc[c2].beliefs@);
                            }
                        }
                        assert forall|c2: int| oldc.len() <= c2 < mem.concepts.len() implies (#[trigger] mem.concepts@[c2]).beliefs@ == seq![idx] && touched@.contains(c2 as usize) by {
                            assert(mem.concepts@[c2] == before[c2]);
                            let w = choose|w: int| 0 <= w < tb.len() && tb[w] == c2 as usize;
                            assert(touched@[w] == c2 as usize);
                        }
                        assert forall|k: int| #![trigger nv[k]] 0 <= k < i + 1 implies exists|c2: int| 0 <= c2 < mem.concepts.len()
                            && (#[trigger] mem.concepts@[c2]).name@ == nv[k] && touched@.contains(c2 as usize)
                            && (c2 >= oldc.len() || capped(bs, oldc[c2].beliefs@.push(idx), mem.concepts@[c2].beliefs@)) by {
                            if k < i {
                                let c3 = choose|c3: int| 0 <= c3 < before.len() && (#[trigger] before[c3]).name@ == nv[k] && tb.contains(c3 as usize)
                                    && (c3 >= oldc.len() || capped(bs, oldc[c3].beliefs@.push(idx), before[c3].beliefs@));
                                let w = choose|w: int| 0 <= w < tb.len() && tb[w] == c3 as usize;
                                assert(touched@[w] == c3 as usize);
                                assert(c3 != c);
                                assert(mem.concepts@[c3] == before[c3]);
                            } else {
                                assert(mem.concepts@[c as int].name == before[c as int].name);
                                assert(capped(bs, oldc[c as int].beliefs@.push(idx), mem.concepts@[c as int].beliefs@));
                            }
                        }
                    }
                } else {
                    proof {
                        assert(mem.concepts@[c as int].name@ == nv[i as int]);
                        if (c as int) < oldc.len() {
                            assert(capped(bs, oldc[c as int].beliefs@.push(idx), mem.concepts@[c as int].beliefs@));
                        }
                    }
                }
            },
            None => {
                let con = Concept { name: names[i].clone(), beliefs: vec![idx] };
                mem.concepts.push(con);
                let c = mem.concepts.len() - 1;
                touched.push(c);
                proof {
                    lemma_concept_idx_none_all(before, names[i as int]@);
                    assert forall|c1: int, d: int| 0 <= c1 < d < mem.concepts.len() implies (#[trigger] mem.concepts@[c1]).name@ != (#[trigger] mem.concepts@[d]).name@ by {
                        assert(mem.concepts@[c1] == before[c1]);
                        if d < c {
                            assert(mem.concepts@[d] == before[d]);
                        }
                    }
                    assert(mem.concepts@[c as int].beliefs@ =~= seq![idx]);
                    assert(touched@[touched.len() - 1] == c);
                    assert forall|c2: int| 0 <= c2 < c implies #[trigger] mem.concepts@[c2] == before[c2] by {}
                    assert forall|c2: int| 0 <= c2 < oldc.len() implies (#[trigger] mem.concepts@[c2]).name@ == oldc[c2].name@
                        && (if touched@.contains(c2 as usize) { capped(bs, oldc[c2].beliefs@.push(idx), mem.concepts@[c2].beliefs@) } else { mem.concepts@[c2].beliefs@ == oldc[c2].beliefs@ }) by {
                        if touched@.contains(c2 as usize) {
                            let w = choose|w: int| 0 <= w < touched.len() && touched@[w] == c2 as usize;
                            if w == touched.len() - 1 {
                                assert(c2 == c);
                            } else {
                                assert(tb[w] == c2 as usize);
                            }
                        }
                        if tb.contains(c2 as usize) {
                            let w = choose|w: int| 0 <= w < tb.len() && tb[w] == c2 as usize;
                            assert(touched@[w] == c2 as usize);
                        }
                    }
                    assert forall|c2: int| oldc.len() <= c2 < mem.concepts.len() implies (#[trigger] mem.concepts@[c2]).beliefs@ == seq![idx] && touched@.contains(c2 as usize) by {
                        if c2 < c {
                            assert(before[c2].beliefs@ == seq![idx]);
                            let w = choose|w: int| 0 <= w < tb.len() && tb[w] == c2 as usize;
                            assert(touched@[w] == c2 as usize);
                        }
                    }
                    assert forall|k: int| #![trigger nv[k]] 0 <= k < i + 1 implies exists|c2: int| 0 <= c2 < mem.concepts.len()
                        && (#[trigger] mem.concepts@[c2]).name@ == nv[k] && touched@.contains(c2 as usize)
                        && (c2 >= oldc.len() || capped(bs, oldc[c2].beliefs@.push(idx), mem.concepts@[c2].beliefs@)) by {
                        if k < i {
                            let c3 = choose|c3: int| 0 <= c3 < before.len() && (#[trigger] before[c3]).name@ == nv[k] && tb.contains(c3 as usize)
                                && (c3 >= oldc.len() || capped(bs, oldc[c3].beliefs@.push(idx), before[c3].beliefs@));
                            let w = choose|w: int| 0 <= w < tb.len() && tb[w] == c3 as usize;
                            assert(touched@[w] == c3 as usize);
                            assert(mem.concepts@[c3] == before[c3]);
                        }
                    }
                }
            },
        }
        i = i + 1;
    }
    proof {
        assert forall|c: int| 0 <= c < oldc.len() implies (#[trigger] mem.concepts@[c]).name@ == oldc[c].name@
            && (mem.concepts@[c].beliefs@ == oldc[c].beliefs@ || capped(bs, oldc[c].beliefs@.push(idx), mem.concepts@[c].beliefs@)) by {
            if touched@.contains(c as usize) {
                assert(capped(bs, oldc[c].beliefs@.push(idx), mem.concepts@[c].beliefs@));
            } else {
                assert(mem.concepts@[c].beliefs@ == oldc[c].beliefs@);
            }
        }
        assert(nv.len() == names.len());
        assert forall|k: int| 0 <= k < nv.len() implies name_covered(oldc, mem.concepts@, idx, #[trigger] nv[k], bs) by {
            let c3 = choose|c3: int| 0 <= c3 < mem.concepts.len() && (#[trigger] mem.concepts@[c3]).name@ == nv[k] && touched@.contains(c3 as usize)
                && (c3 >= oldc.len() || capped(bs, oldc[c3].beliefs@.push(idx), mem.concepts@[c3].beliefs@));
            assert(mem.concepts@[c3].name@ == nv[k]);
        }
        assert(concepts_extended(oldc, mem.concepts@, idx, nv, bs));
    }
}

/// The names under which a piece of evidence is stored: the subterms of its condition (see
/// `cond_of`) and of its predicate.
pub open spec fn evidence_keys(t: TermV) -> Seq<TermV> {
    subterms(cond_of(t)) + subterms(pred_of(t))
}

/// Adds procedural evidence to memory, stored under the subterms of its condition and predicate.
pub fn mem_add_evidence(mem: &mut Mem, evidenceSentence: &SentenceDummy)
    requires
        old(mem).wf(),
        evidence_ok(*evidenceSentence),
    ensures
        final(mem).wf(),
        final(mem).beliefs@ == old(mem).beliefs@.push(final(mem).beliefs@.last()),
        same_belief(final(mem).beliefs@.last(), *evidenceSentence),
        concepts_extended(old(mem).concepts@, final(mem).concepts@, old(mem).beliefs.len() as usize, evidence_keys(evidenceSentence.term@), final(mem).beliefs@),
{
    let mut subterms = retSubterms(&retCond(&evidenceSentence.term));
    let mut more = retSubterms(&retPred(&evidenceSentence.term));
    let ghost a = terms_view(subterms@);
    let ghost b = terms_view(more@);
    subterms.append(&mut more);
    assert(terms_view(subterms@) =~= a + b);
    let idx = mem.beliefs.len();
    mem.beliefs.push(evidenceSentence.clone());
    assert forall|i: int| 0 <= i < mem.beliefs.len() implies evidence_ok(#[trigger] mem.beliefs[i]) by {
        if i == idx {
            assert(same_belief(mem.beliefs[i], *evidenceSentence));
        } else {
            assert(mem.beliefs[i] == old(mem).beliefs[i]);
        }
    }
    storeInConcepts(mem, idx, &subterms);
    assert(mem.beliefs@ =~= old(mem).beliefs@.push(mem.beliefs@.last()));
}

/// Two sentences with the same value.
pub open spec fn same_belief(a: SentenceDummy, b: SentenceDummy) -> bool {
    &&& a.term@ == b.term@
    &&& a.punct == b.punct
    &&& a.stamp.evi@ == b.stamp.evi@
    &&& a.evi == b.evi
    &&& a.t == b.t
    &&& a.expDt == b.expDt
}

/// A belief that a candidate revises: same term, an interval at least as long, no shared evidence.
pub open spec fn revisable(b: SentenceDummy, cand: SentenceDummy) -> bool {
    &&& !overlap_spec(b.stamp.evi@, cand.stamp.evi@)
    &&& b.expDt->0 >= cand.expDt->0
    &&& b.term@ == cand.term@
}

/// `n` is `o` revised by `cand`: stamps merged, one more positive and one more total observation
/// (counts kept once the total reaches `CNT_MAX`).
pub open spec fn revised_by(o: SentenceDummy, n: SentenceDummy, cand: SentenceDummy) -> bool {
    &&& n.term@ == o.term@
    &&& n.punct == o.punct
    &&& n.t == o.t
    &&& n.expDt == o.expDt
    &&& n.stamp.evi@ == merge_spec(o.stamp.evi@, cand.stamp.evi@)
    &&& n.evi is CNT
    &&& if cnt_of(o) < CNT_MAX {
        pos_of(n) == pos_of(o) + 1 && cnt_of(n) == cnt_of(o) + 1
    } else {
        pos_of(n) == pos_of(o) && cnt_of(n) == cnt_of(o)
    }
}

/// Names of the concepts searched for beliefs that a candidate could revise.
pub open spec fn lookup_keys(t: TermV) -> Seq<TermV> {
    seq![cond_of(t), pred_of(t)]
}

/// What storing `cand` into `old` gives: every belief found under the candidate's condition or
/// predicate that it can revise is revised; the others are unchanged; when none was revised the
/// candidate is added as a new belief.
pub open spec fn store_post(old: Mem, cand: SentenceDummy, new: Mem, revisedAny: bool) -> bool {
    let found = beliefs_by_terms(old.concepts@, lookup_keys(cand.term@));
    &&& new.wf()
    &&& new.beliefs.len() == old.beliefs.len() + if revisedAny { 0int } else { 1int }
    &&& forall|i: int| 0 <= i < old.beliefs.len() ==> if found.contains(i as usize) && revisable(#[trigger] old.beliefs[i], cand) {
        revised_by(old.beliefs[i], new.beliefs[i], cand)
    } else {
        same_belief(old.beliefs[i], new.beliefs[i])
    }
    &&& revisedAny == exists|i: int| 0 <= i < old.beliefs.len() && found.contains(i as usize) && revisable(#[trigger] old.beliefs[i], cand)
    &&& !revisedAny ==> same_belief(new.beliefs[old.beliefs.len() as int], cand)
        && concepts_extended(old.concepts@, new.concepts@, old.beliefs.len() as usize, evidence_keys(cand.term@), new.beliefs@)
    &&& revisedAny ==> new.concepts@ == old.concepts@
}

fn reviseBelief(b: &SentenceDummy, cand: &SentenceDummy) -> (r: SentenceDummy)
    requires
        evidence_ok(*b),
    ensures
        revised_by(*b, r, *cand),
        evidence_ok(r),
{
    let evi = match b.evi {
        Evidence::CNT { pos, cnt } => if cnt < CNT_MAX {
            Evidence::CNT { pos: pos + 1, cnt: cnt + 1 }
        } else {
            Evidence::CNT { pos, cnt }
        },
        Evidence::TV(tv) => Evidence::TV(tv),
    };
    SentenceDummy {
        term: b.term.clone(),
        punct: b.punct,
        stamp: merge(&b.stamp, &cand.stamp),
        evi,
        t: b.t,
        expDt: b.expDt,
    }
}

/// Stores a candidate rule: revises the matching beliefs, or adds the candidate when there is none.
/// Returns whether a belief was revised.
pub fn storeEvidence(mem: &mut Mem, evidenceSentence: &SentenceDummy) -> (r: bool)
    requires
        old(mem).wf(),
        evidence_ok(*evidenceSentence),
    ensures
        store_post(*old(mem), *evidenceSentence, *final(mem), r),
{
    let ghost om = *mem;
    let mut keys: Vec<Term> = Vec::new();
    keys.push(retCond(&evidenceSentence.term));
    keys.push(retPred(&evidenceSentence.term));
    assert(terms_view(keys@) =~= lookup_keys(evidenceSentence.term@));
    let found = ret_beliefs_by_terms_nonunique(mem, &keys);
    let ghost fs = found@;
    let n = mem.beliefs.len();
    let mut done: Vec<bool> = Vec::new();
    while done.len() < n
        invariant
            done.len() <= n,
            forall|j: int| 0 <= j < done.len() ==> !done[j],
        decreases n - done.len(),
    {
        done.push(false);
    }
    let mut revisedAny = false;
    let mut k: usize = 0;
    while k < found.len()
        invariant
            mem.wf(),
            mem.concepts@ == om.concepts@,
            mem.beliefs.len() == n,
            n == om.beliefs.len(),
            done.len() == n,
            om.wf(),
            evidence_ok(*evidenceSentence),
            fs == found@,
            fs == beliefs_by_terms(om.concepts@, lookup_keys(evidenceSentence.term@)),
            forall|j: int| 0 <= j < fs.len() ==> #[trigger] fs[j] < n,
            k <= found.len(),
            forall|i: int| 0 <= i < n ==> #[trigger] done[i] == fs.subrange(0, k as int).contains(i as usize),
            forall|i: int| 0 <= i < n ==> if done[i] && revisable(#[trigger] om.beliefs[i], *evidenceSentence) {
                revised_by(om.beliefs[i], mem.beliefs[i], *evidenceSentence)
            } else {
                same_belief(om.beliefs[i], mem.beliefs[i])
            },
            revisedAny == exists|i: int| 0 <= i < n && done[i] && revisable(#[trigger] om.beliefs[i], *evidenceSentence),
        decreases found.len() - k,
    {
        let i = found[k];
        proof {
            assert forall|i2: int| 0 <= i2 < n implies #[trigger] fs.subrange(0, k + 1).contains(i2 as usize) == (fs.subrange(0, k as int).contains(i2 as usize) || i2 == i) by {
                if fs.subrange(0, k as int).contains(i2 as usize) {
                    let w = choose|w: int| 0 <= w < k && #[trigger] fs.subrange(0, k as int)[w] == i2 as usize;
                    assert(fs.subrange(0, k + 1)[w] == i2 as usize);
                }
                if i2 == i {
                    assert(fs.subrange(0, k + 1)[k as int] == i2 as usize);
                }
                if fs.subrange(0, k + 1).contains(i2 as usize) {
                    let w = choose|w: int| 0 <= w < k + 1 && #[trigger] fs.subrange(0, k + 1)[w] == i2 as usize;
                    if w < k {
                        assert(fs.subrange(0, k as int)[w] == i2 as usize);
                    }
                }
            }
        }
        if !done[i] {
            let b = &mem.beliefs[i];
            assert(same_belief(om.beliefs[i as int], mem.beliefs[i as int]));
            let ok = match (b.expDt, evidenceSentence.expDt) {
                (Some(d1), Some(d2)) => d1 >= d2 && !checkOverlap(&b.stamp, &evidenceSentence.stamp) && checkEqTerm(&b.term, &evidenceSentence.term),
                _ => false,
            };
            if ok {
                let nb = reviseBelief(b, evidenceSentence);
                mem.beliefs.set(i, nb);
                revisedAny = true;
            }
            done.set(i, true);
            proof {
                assert forall|i2: int| 0 <= i2 < n implies evidence_ok(#[trigger] mem.beliefs[i2]) by {
                    if i2 != i {
                        assert(same_belief(om.beliefs[i2], mem.beliefs[i2]) || revised_by(om.beliefs[i2], mem.beliefs[i2], *evidenceSentence));
                    }
                }
            }
        }
        k = k + 1;
    }
    proof {
        assert(fs.subrange(0, found.len() as int) =~= fs);
    }
    if !revisedAny {
        mem_add_evidence(mem, evidenceSentence);
    }
    revisedAny
}

/// Revision idempotence: storing the same candidate (with a non-empty stamp) twice in a row
/// adds at most one observation (positive and total) to any belief that was in memory before.
pub proof fn law_revision_idempotent(m0: Mem, c: SentenceDummy, m1: Mem, r1: bool, m2: Mem, r2: bool)
    requires
        m0.wf(),
        evidence_ok(c),
        1 <= c.stamp.evi.len() <= STAMP_MAX,
        store_post(m0, c, m1, r1),
        store_post(m1, c, m2, r2),
    ensures
        forall|i: int| 0 <= i < m0.beliefs.len() ==> pos_of(#[trigger] m2.beliefs[i]) <= pos_of(m0.beliefs[i]) + 1
            && cnt_of(m2.beliefs[i]) <= cnt_of(m0.beliefs[i]) + 1,
{
    let f0 = beliefs_by_terms(m0.concepts@, lookup_keys(c.term@));
    let f1 = beliefs_by_terms(m1.concepts@, lookup_keys(c.term@));
    assert forall|i: int| 0 <= i < m0.beliefs.len() implies pos_of(#[trigger] m2.beliefs[i]) <= pos_of(m0.beliefs[i]) + 1
        && cnt_of(m2.beliefs[i]) <= cnt_of(m0.beliefs[i]) + 1 by {
        assert(i < m1.beliefs.len());
        if f0.contains(i as usize) && revisable(m0.beliefs[i], c) {
            assert(revised_by(m0.beliefs[i], m1.beliefs[i], c));
            lemma_merge_overlaps(m0.beliefs[i].stamp.evi@, c.stamp.evi@);
            assert(!revisable(m1.beliefs[i], c));
            assert(same_belief(m1.beliefs[i], m2.beliefs[i]));
        } else {
            assert(same_belief(m0.beliefs[i], m1.beliefs[i]));
            if f1.contains(i as usize) && revisable(m1.beliefs[i], c) {
                assert(revised_by(m1.beliefs[i], m2.beliefs[i], c));
            } else {
                assert(same_belief(m1.beliefs[i], m2.beliefs[i]));
            }
        }
    }
}

/// Expectation of a belief, from its counts.
pub open spec fn belief_exp(b: SentenceDummy) -> int {
    exp_spec(cnt_tv_spec(pos_of(b), cnt_of(b)))
}

/// Sum of the expectations of the beliefs `idxs` (indices out of range count nothing).
pub open spec fn utility_of(beliefs: Seq<SentenceDummy>, idxs: Seq<usize>) -> int
    decreases idxs.len(),
{
    if idxs.len() == 0 {
        0
    } else {
        let i = idxs[idxs.len() - 1] as int;
        utility_of(beliefs, idxs.subrange(0, idxs.len() - 1)) + if 0 <= i < beliefs.len() { belief_exp(beliefs[i]) } else { 0 }
    }
}

fn beliefExp(b: &SentenceDummy) -> (r: u64)
    requires
        evidence_ok(*b),
    ensures
        r == belief_exp(*b),
        r <= TV_ONE,
{
    match b.evi {
        Evidence::CNT { pos, cnt } => calcExp(&convCntToTv(pos, cnt)),
        Evidence::TV(_) => 0,
    }
}

/// Aggregate utility of a concept: the sum of its beliefs' expectations.
pub fn conceptUtility(mem: &Mem, c: usize) -> (r: u128)
    requires
        mem.wf(),
        c < mem.concepts.len(),
    ensures
        r == utility_of(mem.beliefs@, mem.concepts@[c as int].beliefs@),
{
    let ghost idxs = mem.concepts@[c as int].beliefs@;
    let mut acc: u128 = 0;
    let mut k: usize = 0;
    while k < mem.concepts[c].beliefs.len()
        invariant
            mem.wf(),
            c < mem.concepts.len(),
            idxs == mem.concepts@[c as int].beliefs@,
            k <= idxs.len(),
            acc == utility_of(mem.beliefs@, idxs.subrange(0, k as int)),
            acc <= k * (TV_ONE as int),
        decreases idxs.len() - k,
    {
        let i = mem.concepts[c].beliefs[k];
        let e = beliefExp(&mem.beliefs[i]);
        proof {
            assert(idxs.subrange(0, k + 1).subrange(0, k as int) =~= idxs.subrange(0, k as int));
            assert(idxs.subrange(0, k + 1)[k as int] == i);
        }
        acc = acc + e as u128;
        k = k + 1;
    }
    assert(idxs.subrange(0, idxs.len() as int) =~= idxs);
    acc
}

/// Keeps at most `capacity` concepts, evicting those of lowest aggregate utility first.
pub fn limitMemory(mem: &mut Mem, capacity: usize)
    requires
        old(mem).wf(),
    ensures
        final(mem).wf(),
        final(mem).beliefs@ == old(mem).beliefs@,
        final(mem).concepts.len() == if old(mem).concepts.len() <= capacity { old(mem).concepts.len() as int } else { capacity as int },
        old(mem).concepts.len() <= capacity ==> final(mem).concepts@ == old(mem).concepts@,
        forall|c: int| 0 <= c < final(mem).concepts.len() ==> old(mem).concepts@.contains(#[trigger] final(mem).concepts@[c]),
        forall|c: int, d: int| 0 <= c < old(mem).concepts.len() && 0 <= d < final(mem).concepts.len()
            && !final(mem).concepts@.contains(#[trigger] old(mem).concepts@[c])
            ==> utility_of(old(mem).beliefs@, old(mem).concepts@[c].beliefs@) <= utility_of(old(mem).beliefs@, (#[trigger] final(mem).concepts@[d]).beliefs@),
{
    let ghost oc = mem.concepts@;
    let ghost bs = mem.beliefs@;
    let ghost mut removed: Seq<Concept> = seq![];
    while mem.concepts.len() > capacity
        invariant
            mem.wf(),
            mem.beliefs@ == bs,
            bs == old(mem).beliefs@,
            oc == old(mem).concepts@,
            oc.len() <= capacity ==> mem.concepts@ == oc,
            mem.concepts.len() <= oc.len(),
            oc.len() > capacity ==> mem.concepts.len() >= capacity,
            forall|c: int| 0 <= c < mem.concepts.len() ==> oc.contains(#[trigger] mem.concepts@[c]),
            forall|c: int| 0 <= c < oc.len() && !mem.concepts@.contains(#[trigger] oc[c]) ==> removed.contains(oc[c]),
            forall|r: int, d: int| 0 <= r < removed.len() && 0 <= d < mem.concepts.len()
                ==> utility_of(bs, (#[trigger] removed[r]).beliefs@) <= utility_of(bs, (#[trigger] mem.concepts@[d]).beliefs@),
        decreases mem.concepts.len(),
    {
        let mut minIdx: usize = 0;
        let mut minU = conceptUtility(mem, 0);
        let mut c: usize = 1;
        while c < mem.concepts.len()
            invariant
                mem.wf(),
                1 <= c <= mem.concepts.len(),
                minIdx < c,
                minU == utility_of(mem.beliefs@, mem.concepts@[minIdx as int].beliefs@),
                forall|d: int| 0 <= d < c ==> minU <= utility_of(mem.beliefs@, (#[trigger] mem.concepts@[d]).beliefs@),
            decreases mem.concepts.len() - c,
        {
            let u = conceptUtility(mem, c);
            if u < minU {
                minU = u;
                minIdx = c;
            }
            c = c + 1;
        }
        let ghost before = mem.concepts@;
        let ghost gone = before[minIdx as int];
        mem.concepts.remove(minIdx);
        proof {
            assert(mem.concepts@ =~= before.remove(minIdx as int));
            let prev = removed;
            removed = removed.push(gone);
            assert forall|c2: int| 0 <= c2 < mem.concepts.len() implies oc.contains(#[trigger] mem.concepts@[c2]) by {
                if c2 < minIdx {
                    assert(mem.concepts@[c2] == before[c2]);
                } else {
                    assert(mem.concepts@[c2] == before[c2 + 1]);
                }
            }
            assert forall|c2: int| 0 <= c2 < oc.len() && !mem.concepts@.contains(#[trigger] oc[c2]) implies removed.contains(oc[c2]) by {
                if before.contains(oc[c2]) {
                    let w = choose|w: int| 0 <= w < before.len() && before[w] == oc[c2];
                    if w < minIdx {
                        assert(mem.concepts@[w] == oc[c2]);
                    } else if w > minIdx {
                        assert(mem.concepts@[w - 1] == oc[c2]);
                    } else {
                        assert(removed[removed.len() - 1] == oc[c2]);
                    }
                } else {
                    assert(prev.contains(oc[c2]));
                    let w = choose|w: int| 0 <= w < prev.len() && prev[w] == oc[c2];
                    assert(removed[w] == oc[c2]);
                }
            }
            assert forall|r: int, d: int| 0 <= r < removed.len() && 0 <= d < mem.concepts.len()
                implies utility_of(bs, (#[trigger] removed[r]).beliefs@) <= utility_of(bs, (#[trigger] mem.concepts@[d]).beliefs@) by {
                let dd = if d < minIdx { d } else { d + 1 };
                assert(mem.concepts@[d] == before[dd]);
                if r < removed.len() - 1 {
                    assert(removed[r] == removed.drop_last()[r]);
                }
            }
        }
    }
    proof {
        assert forall|c: int, d: int| 0 <= c < oc.len() && 0 <= d < mem.concepts.len()
            && !mem.concepts@.contains(#[trigger] oc[c])
            implies utility_of(bs, oc[c].beliefs@) <= utility_of(bs, (#[trigger] mem.concepts@[d]).beliefs@) by {
            let r = choose|r: int| 0 <= r < removed.len() && removed[r] == oc[c];
            assert(utility_of(bs, removed[r].beliefs@) <= utility_of(bs, mem.concepts@[d].beliefs@));
        }
    }
}

}
