use vstd::prelude::*;

verus! {

/// Fixed-point unit of frequencies, confidences and expectations: `TV_ONE` stands for 1.0.
pub const TV_ONE: u64 = 10000;

/// Truth value: frequency and confidence, each in `0..=TV_ONE`.
#[derive(PartialEq, Eq, Structural, Copy, Clone, Debug)]
pub struct Tv {
    pub f: u64,
    pub c: u64,
}

impl Tv {
    pub open spec fn wf(&self) -> bool {
        self.f <= TV_ONE && self.c <= TV_ONE
    }
}

/// Evidence of a sentence: a truth value, or positive and total observation counts.
#[derive(PartialEq, Eq, Structural, Copy, Clone, Debug)]
pub enum Evidence {
    TV(Tv),
    CNT { pos: i64, cnt: i64 },
}

/// Deduction: `f = f1 f2`, `c = c1 c2 f1 f2`.
pub open spec fn ded_spec(a: Tv, b: Tv) -> Tv {
    Tv {
        f: (a.f * b.f / TV_ONE as int) as u64,
        c: (a.c * b.c * a.f * b.f / (TV_ONE * TV_ONE * TV_ONE) as int) as u64,
    }
}

proof fn lemma_mul_le(a: nat, b: nat, x: nat, y: nat)
    requires
        a <= x,
        b <= y,
    ensures
        a * b <= x * y,
{
    assert(a * b <= x * y) by (nonlinear_arith)
        requires
            a <= x,
            b <= y,
    ;
}

/// Truth value of a deduction from two premises.
pub fn ded(a: &Tv, b: &Tv) -> (r: Tv)
    requires
        a.wf(),
        b.wf(),
    ensures
        r == ded_spec(*a, *b),
        r.wf(),
{
    proof {
        lemma_mul_le(a.f as nat, b.f as nat, TV_ONE as nat, TV_ONE as nat);
        lemma_mul_le(a.c as nat, b.c as nat, TV_ONE as nat, TV_ONE as nat);
        lemma_mul_le((a.c * b.c) as nat, a.f as nat, (TV_ONE * TV_ONE) as nat, TV_ONE as nat);
        lemma_mul_le((a.c * b.c * a.f) as nat, b.f as nat, (TV_ONE * TV_ONE * TV_ONE) as nat, TV_ONE as nat);
        assert(a.f * b.f / TV_ONE as int <= TV_ONE) by (nonlinear_arith)
            requires
                a.f * b.f <= TV_ONE * TV_ONE,
        ;
        assert(a.c * b.c * a.f * b.f / (TV_ONE * TV_ONE * TV_ONE) as int <= TV_ONE) by (nonlinear_arith)
            requires
                a.c * b.c * a.f * b.f <= TV_ONE * TV_ONE * TV_ONE * TV_ONE,
        ;
    }
    let f = a.f * b.f / TV_ONE;
    let c = a.c * b.c * a.f * b.f / (TV_ONE * TV_ONE * TV_ONE);
    Tv { f, c }
}

/// Expectation `c (f - 1/2) + 1/2`, in the same fixed-point unit.
pub open spec fn exp_spec(tv: Tv) -> int {
    (2 * tv.c * tv.f + (TV_ONE - tv.c) * TV_ONE) / (2 * TV_ONE) as int
}

/// Expectation of a truth value.
pub fn calcExp(tv: &Tv) -> (r: u64)
    requires
        tv.wf(),
    ensures
        r == exp_spec(*tv),
        r <= TV_ONE,
{
    proof {
        lemma_mul_le(tv.c as nat, tv.f as nat, TV_ONE as nat, TV_ONE as nat);
        lemma_mul_le((2 * tv.c) as nat, tv.f as nat, (2 * TV_ONE) as nat, TV_ONE as nat);
        assert(tv.c * tv.f <= TV_ONE * tv.c) by (nonlinear_arith)
            requires
                tv.f <= TV_ONE,
        ;
        assert((2 * tv.c * tv.f + (TV_ONE - tv.c) * TV_ONE) / (2 * TV_ONE) as int <= TV_ONE) by (nonlinear_arith)
            requires
                tv.c * tv.f <= TV_ONE * tv.c,
                tv.c <= TV_ONE,
        ;
    }
    (2 * tv.c * tv.f + (TV_ONE - tv.c) * TV_ONE) / (2 * TV_ONE)
}

/// Truth value of `pos` positive out of `cnt` observations: `f = pos/cnt`, `c = cnt/(cnt+1)`.
pub open spec fn cnt_tv_spec(pos: int, cnt: int) -> Tv {
    Tv { f: (pos * TV_ONE / cnt) as u64, c: (cnt * TV_ONE / (cnt + 1)) as u64 }
}

/// Largest observation count that the conversion to a truth value takes.
pub const CNT_MAX: i64 = 0x0000_ffff_ffff_ffff;

/// Converts observation counts to a truth value.
pub fn convCntToTv(pos: i64, cnt: i64) -> (r: Tv)
    requires
        0 <= pos <= cnt,
        1 <= cnt <= CNT_MAX,
    ensures
        r == cnt_tv_spec(pos as int, cnt as int),
        r.wf(),
{
    let p = pos as u64;
    let n = cnt as u64;
    proof {
        assert(p * TV_ONE <= n * TV_ONE) by (nonlinear_arith)
            requires
                p <= n,
        ;
        assert(p * TV_ONE / n as int <= TV_ONE) by (nonlinear_arith)
            requires
                p * TV_ONE <= n * TV_ONE,
                n >= 1,
        ;
        assert(n * TV_ONE / (n + 1) as int <= TV_ONE) by (nonlinear_arith)
            requires
                n >= 1,
        ;
    }
    Tv { f: p * TV_ONE / n, c: n * TV_ONE / (n + 1) }
}

/// Conversion `a --> b |- b --> a`: frequency 1, confidence `w / (w + 1)` with `w = f c`.
pub open spec fn conv_spec(a: Tv) -> Tv {
    Tv { f: TV_ONE, c: ((a.f * a.c / TV_ONE as int) * TV_ONE / ((a.f * a.c / TV_ONE as int) + TV_ONE) as int) as u64 }
}

/// Truth value of the converse of a statement.
pub fn convTv(a: &Tv) -> (r: Tv)
    requires
        a.wf(),
    ensures
        r == conv_spec(*a),
        r.wf(),
{
    proof {
        lemma_mul_le(a.f as nat, a.c as nat, TV_ONE as nat, TV_ONE as nat);
        assert(a.f * a.c / TV_ONE as int <= TV_ONE) by (nonlinear_arith)
            requires
                a.f * a.c <= TV_ONE * TV_ONE,
        ;
    }
    let w = a.f * a.c / TV_ONE;
    proof {
        assert(w * TV_ONE / (w + TV_ONE) as int <= TV_ONE) by (nonlinear_arith)
            requires
                w <= TV_ONE,
        ;
    }
    Tv { f: TV_ONE, c: w * TV_ONE / (w + TV_ONE) }
}


/// Intersection: `f = f1 f2`, `c = c1 c2`.
pub open spec fn int_spec(a: Tv, b: Tv) -> Tv {
    Tv { f: (a.f * b.f / TV_ONE as int) as u64, c: (a.c * b.c / TV_ONE as int) as u64 }
}

/// Truth value of the intersection of two premises.
pub fn intersection(a: &Tv, b: &Tv) -> (r: Tv)
    requires
        a.wf(),
        b.wf(),
    ensures
        r == int_spec(*a, *b),
        r.wf(),
{
    proof {
        lemma_mul_le(a.f as nat, b.f as nat, TV_ONE as nat, TV_ONE as nat);
        lemma_mul_le(a.c as nat, b.c as nat, TV_ONE as nat, TV_ONE as nat);
        assert(a.f * b.f / TV_ONE as int <= TV_ONE) by (nonlinear_arith)
            requires
                a.f * b.f <= TV_ONE * TV_ONE,
        ;
        assert(a.c * b.c / TV_ONE as int <= TV_ONE) by (nonlinear_arith)
            requires
                a.c * b.c <= TV_ONE * TV_ONE,
        ;
    }
    Tv { f: a.f * b.f / TV_ONE, c: a.c * b.c / TV_ONE }
}


/// Evidence weight `w = c / (1 - c)` of a confidence below 1, in the fixed-point unit.
pub open spec fn weight_spec(c: u64) -> int {
    c * TV_ONE / (TV_ONE - c) as int
}

/// Revision of two truth values: weights `w = c / (1 - c)` add up,
/// `f = (w1 f1 + w2 f2) / (w1 + w2)` and `c = (w1 + w2) / (w1 + w2 + 1)`.
pub open spec fn rev_spec(a: Tv, b: Tv) -> Tv {
    let w1 = weight_spec(a.c);
    let w2 = weight_spec(b.c);
    if w1 + w2 == 0 {
        Tv { f: ((a.f + b.f) / 2) as u64, c: 0 }
    } else {
        Tv {
            f: ((w1 * a.f + w2 * b.f) / (w1 + w2)) as u64,
            c: ((w1 + w2) * TV_ONE / (w1 + w2 + TV_ONE)) as u64,
        }
    }
}

/// Truth value of the revision of two premises with confidences below 1.
pub fn revision(a: &Tv, b: &Tv) -> (r: Tv)
    requires
        a.wf(),
        b.wf(),
        a.c < TV_ONE,
        b.c < TV_ONE,
    ensures
        r == rev_spec(*a, *b),
        r.wf(),
{
    proof {
        assert(a.c * TV_ONE / (TV_ONE - a.c) as int <= TV_ONE * TV_ONE) by (nonlinear_arith)
            requires
                a.c < TV_ONE,
        ;
        assert(b.c * TV_ONE / (TV_ONE - b.c) as int <= TV_ONE * TV_ONE) by (nonlinear_arith)
            requires
                b.c < TV_ONE,
        ;
    }
    let w1 = a.c * TV_ONE / (TV_ONE - a.c);
    let w2 = b.c * TV_ONE / (TV_ONE - b.c);
    if w1 + w2 == 0 {
        return Tv { f: (a.f + b.f) / 2, c: 0 };
    }
    proof {
        lemma_mul_le(w1 as nat, a.f as nat, (TV_ONE * TV_ONE) as nat, TV_ONE as nat);
        lemma_mul_le(w2 as nat, b.f as nat, (TV_ONE * TV_ONE) as nat, TV_ONE as nat);
        assert((w1 * a.f + w2 * b.f) / (w1 + w2) as int <= TV_ONE) by (nonlinear_arith)
            requires
                a.f <= TV_ONE,
                b.f <= TV_ONE,
                w1 + w2 > 0,
        ;
        assert((w1 + w2) * TV_ONE / (w1 + w2 + TV_ONE) as int <= TV_ONE) by (nonlinear_arith)
            requires
                w1 + w2 > 0,
        ;
    }
    Tv { f: (w1 * a.f + w2 * b.f) / (w1 + w2), c: (w1 + w2) * TV_ONE / (w1 + w2 + TV_ONE) }
}

}
