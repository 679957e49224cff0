use vstd::prelude::*;

verus! {

/// Largest value of one term's contribution.
pub const TERM_SCORE_BOUND: u128 = 0x8000_0000_0000_0000_0000_0000;

/// Ranking parameters in thousandths: `k1_milli` is the saturation constant
/// k1 times 1000, `b_milli` the length-normalization constant b times 1000.
#[derive(Debug, Clone, Copy, PartialEq, Eq, Structural)]
pub struct Bm25Params {
    pub k1_milli: u16,
    pub b_milli: u16,
}

impl Bm25Params {
    pub open spec fn valid(&self) -> bool {
        self.b_milli <= 1000
    }

    /// k1 = 1.2, b = 0.75.
    pub fn standard() -> (r: Bm25Params)
        ensures
            r.k1_milli == 1200,
            r.b_milli == 750,
            r.valid(),
    {
        Bm25Params { k1_milli: 1200, b_milli: 750 }
    }
}

/// Inverse document frequency in thousandths: larger for rarer terms.
pub open spec fn idf_milli(df: int, n: int) -> int {
    1000 * (n + 1) / (df + 1)
}

/// Length normalization in thousandths: `1 - b + b * dl / avgdl`, where the
/// average length is `total / n`; rounding happens once, at the end.
pub open spec fn norm_milli(dl: int, n: int, total: int, b: int) -> int {
    if total == 0 {
        1000
    } else {
        1000 - b + b * dl * n / total
    }
}

/// Saturated term frequency in thousandths: `tf * (k1 + 1) / (tf + k1 * norm)`.
pub open spec fn tf_milli(tf: int, k1: int, norm: int) -> int {
    let d = tf * 1000000 + k1 * norm;
    if d == 0 {
        0
    } else {
        tf * (k1 + 1000) * 1000000 / d
    }
}

/// One query term's contribution to a row's score.
pub open spec fn term_score(tf: int, df: int, n: int, dl: int, total: int, p: Bm25Params) -> int {
    idf_milli(df, n) * tf_milli(tf, p.k1_milli as int, norm_milli(dl, n, total, p.b_milli as int))
}

proof fn lemma_div_le(x: int, d: int, c: int)
    requires
        0 <= x,
        0 < d,
        0 <= c,
        x <= c * d,
    ensures
        x / d <= c,
{
    assert(x / d <= c) by (nonlinear_arith)
        requires
            0 <= x,
            0 < d,
            0 <= c,
            x <= c * d,
    ;
}

/// Computes `term_score` for a term with frequency `tf` in a row of length
/// `dl`, document frequency `df`, among `n` rows holding `total` tokens.
pub fn score_term(tf: u32, df: u64, n: u64, dl: u32, total: u64, p: &Bm25Params) -> (r: u128)
    requires
        p.valid(),
    ensures
        r == term_score(tf as int, df as int, n as int, dl as int, total as int, *p),
        r < TERM_SCORE_BOUND,
{
    let idf: u128 = 1000 * (n as u128 + 1) / (df as u128 + 1);
    proof {
        assert(1000 * (n + 1) <= 1000 * (n + 1) * (df + 1)) by (nonlinear_arith)
            requires n >= 0, df >= 0;
        lemma_div_le(1000 * (n + 1), df + 1, 1000 * (n + 1));
        assert(1000 * (n as int + 1) <= 1000 * 0x1_0000_0000_0000_0000);
    }
    let b = p.b_milli as u128;
    let k1 = p.k1_milli as u128;
    let norm: u128 = if total == 0 {
        1000
    } else {
        proof {
            assert((dl as int) * (n as int) <= 0x1_0000_0000 * 0x1_0000_0000_0000_0000) by (nonlinear_arith)
                requires dl <= u32::MAX, n <= u64::MAX;
            assert(b * dl <= 1000 * 0x1_0000_0000) by (nonlinear_arith)
                requires b <= 1000, b >= 0, dl >= 0, dl <= u32::MAX;
            assert(b * dl * n <= 1000 * 0x1_0000_0000_0000_0000_0000_0000) by (nonlinear_arith)
                requires b <= 1000, b >= 0, dl >= 0, n >= 0, (dl as int) * (n as int) <= 0x1_0000_0000 * 0x1_0000_0000_0000_0000;
            assert(b * dl * n <= b * dl * n * total) by (nonlinear_arith)
                requires b >= 0, dl >= 0, n >= 0, total >= 1;
            lemma_div_le(b * dl * n, total as int, b * dl * n);
        }
        1000 - b + b * (dl as u128) * (n as u128) / total as u128
    };
    assert(norm <= 1000 + 1000 * 0x1_0000_0000_0000_0000_0000_0000);
    proof {
        assert(k1 * norm <= 0x1_0000 * (1000 + 1000 * 0x1_0000_0000_0000_0000_0000_0000)) by (nonlinear_arith)
            requires k1 <= 0xffff, norm <= 1000 + 1000 * 0x1_0000_0000_0000_0000_0000_0000;
        assert((tf as int) * 1000000 <= 0x1_0000_0000 * 1000000) by (nonlinear_arith)
            requires tf <= u32::MAX;
    }
    let d: u128 = tf as u128 * 1000000 + k1 * norm;
    let sat: u128 = if d == 0 {
        0
    } else {
        proof {
            assert((tf as int) * (k1 + 1000) * 1000000 <= (k1 + 1000) * d) by (nonlinear_arith)
                requires d == tf * 1000000 + k1 * norm, k1 >= 0, norm >= 0, tf >= 0;
            assert((tf as int) * (k1 + 1000) <= 0x1_0000_0000 * 0x1_0000_0000) by (nonlinear_arith)
                requires tf <= u32::MAX, k1 <= 0xffff;
            lemma_div_le(tf * (k1 + 1000) * 1000000, d as int, k1 + 1000);
        }
        tf as u128 * (k1 + 1000) * 1000000 / d
    };
    proof {
        assert(idf * sat < TERM_SCORE_BOUND) by (nonlinear_arith)
            requires idf <= 1000 * 0x1_0000_0000_0000_0000, sat <= 0xffff + 1000;
    }
    idf * sat
}

/// A row's score for a term never decreases when the term occurs more often
/// in it, the other statistics held fixed.
pub proof fn lemma_score_monotone_in_tf(
    tf1: int,
    tf2: int,
    df: int,
    n: int,
    dl: int,
    total: int,
    p: Bm25Params,
)
    requires
        0 <= tf1 <= tf2,
        0 <= df,
        0 <= n,
        0 <= dl,
        0 <= total,
        p.valid(),
    ensures
        term_score(tf1, df, n, dl, total, p) <= term_score(tf2, df, n, dl, total, p),
{
    let k1 = p.k1_milli as int;
    let b = p.b_milli as int;
    let norm = norm_milli(dl, n, total, b);
    assert(norm >= 0) by {
        if total != 0 {
            assert(b * dl * n / total >= 0) by (nonlinear_arith)
                requires b >= 0, dl >= 0, n >= 0, total > 0;
        }
    }
    let idf = idf_milli(df, n);
    assert(idf >= 0) by (nonlinear_arith)
        requires idf == 1000 * (n + 1) / (df + 1), n >= 0, df >= 0;
    let d1 = tf1 * 1000000 + k1 * norm;
    let d2 = tf2 * 1000000 + k1 * norm;
    let s1 = tf_milli(tf1, k1, norm);
    let s2 = tf_milli(tf2, k1, norm);
    assert(k1 * norm >= 0) by (nonlinear_arith)
        requires k1 >= 0, norm >= 0;
    if d1 != 0 {
        let x1 = tf1 * (k1 + 1000) * 1000000;
        let x2 = tf2 * (k1 + 1000) * 1000000;
        assert(d2 > 0);
        // x1 / d1 <= x2 / d2 because x1 * d2 <= x2 * d1
        assert(x1 * d2 <= x2 * d1) by (nonlinear_arith)
            requires
                x1 == tf1 * (k1 + 1000) * 1000000,
                x2 == tf2 * (k1 + 1000) * 1000000,
                d1 == tf1 * 1000000 + k1 * norm,
                d2 == tf2 * 1000000 + k1 * norm,
                0 <= tf1 <= tf2,
                k1 >= 0,
                norm >= 0,
        ;
        assert(x1 / d1 <= x2 / d2) by (nonlinear_arith)
            requires
                x1 * d2 <= x2 * d1,
                d1 > 0,
                d2 > 0,
                x1 >= 0,
                x2 >= 0,
        ;
    } else {
        assert(s1 == 0);
        if d2 != 0 {
            assert(tf2 * (k1 + 1000) * 1000000 >= 0) by (nonlinear_arith)
                requires tf2 >= 0, k1 >= 0;
            assert(tf2 * (k1 + 1000) * 1000000 / d2 >= 0) by (nonlinear_arith)
                requires tf2 * (k1 + 1000) * 1000000 >= 0, d2 > 0;
        }
    }
    assert(idf * s1 <= idf * s2) by (nonlinear_arith)
        requires idf >= 0, s1 <= s2;
}

/// Scores are never negative.
pub proof fn lemma_score_nonneg(tf: int, df: int, n: int, dl: int, total: int, p: Bm25Params)
    requires
        0 <= tf,
        0 <= df,
        0 <= n,
        0 <= dl,
        0 <= total,
        p.valid(),
    ensures
        term_score(tf, df, n, dl, total, p) >= 0,
{
    lemma_score_monotone_in_tf(0, tf, df, n, dl, total, p);
    let k1 = p.k1_milli as int;
    let norm = norm_milli(dl, n, total, p.b_milli as int);
    assert(tf_milli(0, k1, norm) == 0) by {
        let d = 0 * 1000000 + k1 * norm;
        if d != 0 {
            assert(0 * (k1 + 1000) * 1000000 == 0);
        }
    }
    assert(term_score(0, df, n, dl, total, p) == 0) by (nonlinear_arith)
        requires term_score(0, df, n, dl, total, p) == idf_milli(df, n) * tf_milli(0, k1, norm), tf_milli(0, k1, norm) == 0;
}

} // verus!
