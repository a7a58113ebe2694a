use vstd::prelude::*;

verus! {

/// Most evidence ids that a stamp keeps.
pub const STAMP_MAX: usize = 20;

/// Set of the evidence ids a sentence was derived from.
pub struct Stamp {
    pub evi: Vec<i64>,
}

/// Creates a stamp holding the given evidence ids.
pub fn newStamp(evi: &Vec<i64>) -> (r: Stamp)
    ensures
        r.evi@ == evi@,
{
    Stamp { evi: evi.clone() }
}

impl Clone for Stamp {
    fn clone(&self) -> (r: Stamp)
        ensures
            r.evi@ == self.evi@,
    {
        Stamp { evi: self.evi.clone() }
    }
}

/// Two stamps overlap when they share an evidence id.
pub open spec fn overlap_spec(a: Seq<i64>, b: Seq<i64>) -> bool {
    exists|i: int, j: int| 0 <= i < a.len() && 0 <= j < b.len() && a[i] == b[j]
}

/// Do the stamps share an evidence id?
pub fn checkOverlap(a: &Stamp, b: &Stamp) -> (r: bool)
    ensures
        r == overlap_spec(a.evi@, b.evi@),
{
    let mut i: usize = 0;
    while i < a.evi.len()
        invariant
            i <= a.evi.len(),
            forall|i2: int, j: int| 0 <= i2 < i && 0 <= j < b.evi.len() ==> a.evi[i2] != b.evi[j],
        decreases a.evi.len() - i,
    {
        let mut j: usize = 0;
        while j < b.evi.len()
            invariant
                i < a.evi.len(),
                j <= b.evi.len(),
                forall|j2: int| 0 <= j2 < j ==> a.evi[i as int] != b.evi[j2],
            decreases b.evi.len() - j,
        {
            if a.evi[i] == b.evi[j] {
                return true;
            }
            j = j + 1;
        }
        i = i + 1;
    }
    false
}

/// `a` followed by the ids of `b` that it lacks, in their order.
pub open spec fn union_spec(a: Seq<i64>, b: Seq<i64>) -> Seq<i64>
    decreases b.len(),
{
    if b.len() == 0 {
        a
    } else {
        let u = union_spec(a, b.subrange(0, b.len() - 1));
        if u.contains(b[b.len() - 1]) {
            u
        } else {
            u.push(b[b.len() - 1])
        }
    }
}

/// The union, keeping the newest `STAMP_MAX` ids (the last ones added).
pub open spec fn merge_spec(a: Seq<i64>, b: Seq<i64>) -> Seq<i64> {
    let u = union_spec(a, b);
    if u.len() <= STAMP_MAX {
        u
    } else {
        u.subrange(u.len() - STAMP_MAX, u.len() as int)
    }
}

/// Union of two stamps, truncated to the newest `STAMP_MAX` ids.
pub fn merge(a: &Stamp, b: &Stamp) -> (r: Stamp)
    ensures
        r.evi@ == merge_spec(a.evi@, b.evi@),
{
    let mut u: Vec<i64> = a.evi.clone();
    let mut i: usize = 0;
    assert(b.evi@.subrange(0, 0) =~= seq![]);
    while i < b.evi.len()
        invariant
            i <= b.evi.len(),
            u@ == union_spec(a.evi@, b.evi@.subrange(0, i as int)),
        decreases b.evi.len() - i,
    {
        let x = b.evi[i];
        proof {
            assert(b.evi@.subrange(0, i + 1).subrange(0, i as int) =~= b.evi@.subrange(0, i as int));
        }
        let mut found = false;
        let mut k: usize = 0;
        while k < u.len()
            invariant
                k <= u.len(),
                found == (exists|k2: int| 0 <= k2 < k && u[k2] == x),
            decreases u.len() - k,
        {
            if u[k] == x {
                found = true;
            }
            k = k + 1;
        }
        if !found {
            u.push(x);
        }
        i = i + 1;
    }
    assert(b.evi@.subrange(0, b.evi.len() as int) =~= b.evi@);
    if u.len() <= STAMP_MAX {
        return Stamp { evi: u };
    }
    let start = u.len() - STAMP_MAX;
    let mut r: Vec<i64> = Vec::new();
    let mut j: usize = start;
    while j < u.len()
        invariant
            start <= j <= u.len(),
            r@ == u@.subrange(start as int, j as int),
        decreases u.len() - j,
    {
        r.push(u[j]);
        proof {
            assert(r@ =~= u@.subrange(start as int, j + 1));
        }
        j = j + 1;
    }
    Stamp { evi: r }
}


proof fn lemma_union_len(a: Seq<i64>, b: Seq<i64>)
    ensures
        union_spec(a, b).len() <= a.len() + b.len(),
    decreases b.len(),
{
    if b.len() > 0 {
        lemma_union_len(a, b.subrange(0, b.len() - 1));
    }
}

proof fn lemma_union_first(a: Seq<i64>, b: Seq<i64>)
    requires
        b.len() >= 1,
        !a.contains(b[0]),
    ensures
        union_spec(a, b).len() > a.len(),
        union_spec(a, b)[a.len() as int] == b[0],
    decreases b.len(),
{
    let p = b.subrange(0, b.len() - 1);
    let x = b[b.len() - 1];
    if b.len() == 1 {
        assert(p =~= seq![]);
        assert(union_spec(a, p) == a);
        assert(union_spec(a, b) == a.push(x));
    } else {
        assert(p[0] == b[0]);
        lemma_union_first(a, p);
        let u = union_spec(a, p);
        if !u.contains(x) {
            assert(u.push(x)[a.len() as int] == u[a.len() as int]);
        }
    }
}

/// Merging the evidence of a stamp `b` into a stamp that shares none of it gives a stamp that
/// overlaps `b` (for `b` non-empty and within the size bound).
pub proof fn lemma_merge_overlaps(a: Seq<i64>, b: Seq<i64>)
    requires
        !overlap_spec(a, b),
        1 <= b.len() <= STAMP_MAX,
    ensures
        overlap_spec(merge_spec(a, b), b),
{
    if a.contains(b[0]) {
        let i = choose|i: int| 0 <= i < a.len() && a[i] == b[0];
        assert(a[i] == b[0]);
    }
    lemma_union_first(a, b);
    lemma_union_len(a, b);
    let u = union_spec(a, b);
    let m = merge_spec(a, b);
    if u.len() <= STAMP_MAX {
        assert(m[a.len() as int] == b[0]);
    } else {
        let off = u.len() - STAMP_MAX;
        assert(m[a.len() - off] == u[a.len() as int]);
        assert(m[a.len() - off] == b[0]);
    }
}

}
