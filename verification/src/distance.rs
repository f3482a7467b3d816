//! Bounded weighted Levenshtein distance over Unicode code points.
//!
//! The computation follows the classic two-row dynamic program. Row 0 and
//! column 0 are initialized to the unweighted index (0, 1, 2, ...); each
//! inner cell takes the minimum of the three weighted moves. Two caps bound
//! the work and the result: a fast rejection when the length difference
//! already reaches the limit, and an early exit when a completed row's last
//! cell reaches the limit.

use crate::text::chars_of;
use vstd::pervasive::VecAdditionalExecFns;
use vstd::prelude::*;

verus! {

/// The smaller of two integers.
pub open spec fn min2(a: int, b: int) -> int {
    if a <= b {
        a
    } else {
        b
    }
}

/// The smallest of three integers.
pub open spec fn min3(a: int, b: int, c: int) -> int {
    min2(min2(a, b), c)
}

/// The absolute difference of two integers.
pub open spec fn abs_diff(x: int, y: int) -> int {
    if x >= y {
        x - y
    } else {
        y - x
    }
}

/// A value capped at `limit`.
pub open spec fn cap(x: int, limit: int) -> int {
    min2(x, limit)
}

/// 0 when the two characters agree, 1 otherwise.
pub open spec fn sub_flag(x: char, y: char) -> int {
    if x == y {
        0
    } else {
        1
    }
}

/// Cell `(i, j)` of the distance matrix between `a` (columns, indexed by `j`)
/// and `b` (rows, indexed by `i`): row 0 and column 0 carry the unweighted
/// index, and an inner cell is the minimum of the weighted deletion,
/// insertion, and substitution moves.
pub open spec fn lev_cell(
    a: Seq<char>,
    b: Seq<char>,
    i: int,
    j: int,
    ins: int,
    del: int,
    sub: int,
) -> int
    decreases i + j,
{
    if i <= 0 {
        j
    } else if j <= 0 {
        i
    } else {
        min3(
            (lev_cell(a, b, i - 1, j, ins, del, sub) + 1) * del,
            (lev_cell(a, b, i, j - 1, ins, del, sub) + 1) * ins,
            (lev_cell(a, b, i - 1, j - 1, ins, del, sub) + sub_flag(a[j - 1], b[i - 1])) * sub,
        )
    }
}

/// The last cell of row `i`: the score after consuming `i` characters of `b`
/// against all of `a`.
pub open spec fn row_last(a: Seq<char>, b: Seq<char>, i: int, ins: int, del: int, sub: int) -> int {
    lev_cell(a, b, i, a.len() as int, ins, del, sub)
}

/// Whether the early exit fires: some completed row's last cell reaches the
/// limit before the final row is returned.
pub open spec fn hits_limit(
    a: Seq<char>,
    b: Seq<char>,
    limit: int,
    ins: int,
    del: int,
    sub: int,
) -> bool {
    exists|i: int|
        1 <= i <= b.len() && #[trigger] row_last(a, b, i, ins, del, sub) >= limit
}

/// What the bounded weighted distance computation returns: the limit when the
/// length difference already reaches it or when the early exit fires, and the
/// final cell of the matrix otherwise.
pub open spec fn spec_levenshtein(
    a: Seq<char>,
    b: Seq<char>,
    limit: int,
    ins: int,
    del: int,
    sub: int,
) -> int {
    if abs_diff(a.len() as int, b.len() as int) >= limit {
        limit
    } else if hits_limit(a, b, limit, ins, del, sub) {
        limit
    } else {
        row_last(a, b, b.len() as int, ins, del, sub)
    }
}

/// Every cell of the matrix is nonnegative when the costs are.
pub proof fn lemma_cell_nonneg(
    a: Seq<char>,
    b: Seq<char>,
    i: int,
    j: int,
    ins: int,
    del: int,
    sub: int,
)
    requires
        0 <= i,
        0 <= j,
        0 <= ins,
        0 <= del,
        0 <= sub,
    ensures
        lev_cell(a, b, i, j, ins, del, sub) >= 0,
    decreases i + j,
{
    if i <= 0 || j <= 0 {
    } else {
        lemma_cell_nonneg(a, b, i - 1, j, ins, del, sub);
        lemma_cell_nonneg(a, b, i, j - 1, ins, del, sub);
        lemma_cell_nonneg(a, b, i - 1, j - 1, ins, del, sub);
        assert((lev_cell(a, b, i - 1, j, ins, del, sub) + 1) * del >= 0) by (nonlinear_arith)
            requires
                lev_cell(a, b, i - 1, j, ins, del, sub) >= 0,
                del >= 0,
        ;
        assert((lev_cell(a, b, i, j - 1, ins, del, sub) + 1) * ins >= 0) by (nonlinear_arith)
            requires
                lev_cell(a, b, i, j - 1, ins, del, sub) >= 0,
                ins >= 0,
        ;
        assert((lev_cell(a, b, i - 1, j - 1, ins, del, sub) + sub_flag(a[j - 1], b[i - 1])) * sub
            >= 0) by (nonlinear_arith)
            requires
                lev_cell(a, b, i - 1, j - 1, ins, del, sub) >= 0,
                sub >= 0,
        ;
    }
}

/// One capped branch of the recurrence agrees with the true branch, or both
/// already reach the limit.
proof fn lemma_cap_branch(x: int, d: int, w: int, limit: int)
    requires
        0 <= x,
        0 <= d,
        0 <= w,
        0 <= limit,
    ensures
        (cap(x, limit) + d) * w == (x + d) * w || ((cap(x, limit) + d) * w >= limit && (x + d) * w
            >= limit),
{
    if x <= limit {
    } else {
        if w == 0 {
            assert((cap(x, limit) + d) * w == 0) by (nonlinear_arith)
                requires
                    w == 0,
            ;
            assert((x + d) * w == 0) by (nonlinear_arith)
                requires
                    w == 0,
            ;
        } else {
            assert((limit + d) * w >= limit) by (nonlinear_arith)
                requires
                    w >= 1,
                    d >= 0,
                    limit >= 0,
            ;
            assert((x + d) * w >= limit) by (nonlinear_arith)
                requires
                    w >= 1,
                    d >= 0,
                    x >= limit,
                    limit >= 0,
            ;
        }
    }
}

/// Computing a cell from capped inputs and capping the outcome equals capping
/// the true cell: values at or above the limit never influence a result that
/// stays below it.
proof fn lemma_cap_cell(p: int, q: int, r: int, flag: int, ins: int, del: int, sub: int, limit: int)
    requires
        0 <= p,
        0 <= q,
        0 <= r,
        0 <= flag <= 1,
        0 <= ins,
        0 <= del,
        0 <= sub,
        0 <= limit,
    ensures
        cap(
            min3(
                (cap(p, limit) + 1) * del,
                (cap(q, limit) + 1) * ins,
                (cap(r, limit) + flag) * sub,
            ),
            limit,
        ) == cap(min3((p + 1) * del, (q + 1) * ins, (r + flag) * sub), limit),
{
    lemma_cap_branch(p, 1, del, limit);
    lemma_cap_branch(q, 1, ins, limit);
    lemma_cap_branch(r, flag, sub, limit);
}

/// Main levenshtein distance computation, with specified costs for insertion,
/// deletion, and substitution, and a limit.
///
/// Returns the limit as soon as the computation shows the score reaches it:
/// immediately when the lengths already differ by at least `limit`, and after
/// any completed row whose last cell reaches `limit`. Otherwise the exact
/// final cell of the weighted matrix is returned. The other functions in this
/// module wrap this one.
pub fn levenshtein_limit_weight(
    a: &str,
    b: &str,
    limit: u32,
    ins_cost: u32,
    del_cost: u32,
    sub_cost: u32,
) -> (r: u32)
    requires
        a@.len() <= u32::MAX,
        b@.len() <= u32::MAX,
    ensures
        r == spec_levenshtein(
            a@,
            b@,
            limit as int,
            ins_cost as int,
            del_cost as int,
            sub_cost as int,
        ),
        r <= limit,
{
    let ghost gi = ins_cost as int;
    let ghost gd = del_cost as int;
    let ghost gs = sub_cost as int;
    let ghost glimit = limit as int;
    let a_chars = chars_of(a);
    let b_chars = chars_of(b);
    let a_len = a_chars.len();
    let b_len = b_chars.len();

    let diff: usize = if a_len >= b_len {
        a_len - b_len
    } else {
        b_len - a_len
    };
    if diff as u64 >= limit as u64 {
        return limit;
    }

    // Rows are stored capped at `limit`; a stored cell is `cap` of the true
    // cell, which preserves every value below the limit exactly.
    let mut v_prev: Vec<u32> = Vec::new();
    v_prev.push(0);
    let mut j0: usize = 0;
    while j0 < a_len
        invariant
            a_len == a@.len(),
            j0 <= a_len,
            a_len <= u32::MAX,
            glimit == limit as int,
            v_prev@.len() == j0 + 1,
            forall|k: int| 0 <= k <= j0 ==> v_prev@[k] == cap(k, glimit),
        decreases a_len - j0,
    {
        let next: usize = j0 + 1;
        let cell: u32 = if (next as u64) <= (limit as u64) {
            next as u32
        } else {
            limit
        };
        v_prev.push(cell);
        j0 = next;
    }
    let mut v_curr: Vec<u32> = Vec::new();
    v_curr.push(0);
    let mut j1: usize = 0;
    while j1 < a_len
        invariant
            j1 <= a_len,
            v_curr@.len() == j1 + 1,
        decreases a_len - j1,
    {
        v_curr.push(0);
        j1 = j1 + 1;
    }

    let mut i: usize = 0;
    while i < b_len
        invariant
            a_len == a@.len(),
            b_len == b@.len(),
            a_chars@ == a@,
            b_chars@ == b@,
            a_len <= u32::MAX,
            b_len <= u32::MAX,
            abs_diff(a@.len() as int, b@.len() as int) < glimit,
            glimit == limit as int,
            gi == ins_cost as int,
            gd == del_cost as int,
            gs == sub_cost as int,
            i <= b_len,
            v_prev@.len() == a_len + 1,
            v_curr@.len() == a_len + 1,
            forall|k: int|
                0 <= k <= a_len ==> v_prev@[k] == cap(lev_cell(a@, b@, i as int, k, gi, gd, gs), glimit),
            forall|i2: int|
                1 <= i2 <= i ==> #[trigger] row_last(a@, b@, i2, gi, gd, gs) < glimit,
        decreases b_len - i,
    {
        let cell0: u32 = if ((i + 1) as u64) <= (limit as u64) {
            (i + 1) as u32
        } else {
            limit
        };
        v_curr.set(0, cell0);
        let mut j: usize = 0;
        while j < a_len
            invariant
                a_len == a@.len(),
                b_len == b@.len(),
                a_chars@ == a@,
                b_chars@ == b@,
                a_len <= u32::MAX,
                b_len <= u32::MAX,
                glimit == limit as int,
                gi == ins_cost as int,
                gd == del_cost as int,
                gs == sub_cost as int,
                i < b_len,
                j <= a_len,
                v_prev@.len() == a_len + 1,
                v_curr@.len() == a_len + 1,
                forall|k: int|
                    0 <= k <= a_len ==> v_prev@[k] == cap(
                        lev_cell(a@, b@, i as int, k, gi, gd, gs),
                        glimit,
                    ),
                forall|k: int|
                    0 <= k <= j ==> v_curr@[k] == cap(
                        lev_cell(a@, b@, i as int + 1, k, gi, gd, gs),
                        glimit,
                    ),
            decreases a_len - j,
        {
            let up: u64 = v_prev[j + 1] as u64;
            let left: u64 = v_curr[j] as u64;
            let diag: u64 = v_prev[j] as u64;
            let flag: u64 = if a_chars[j] == b_chars[i] {
                0
            } else {
                1
            };
            proof {
                assert((up + 1) * (del_cost as u64) < 0x1_0000_0000_0000_0000) by (nonlinear_arith)
                    requires
                        up < 0x1_0000_0000,
                        (del_cost as u64) < 0x1_0000_0000,
                ;
                assert((left + 1) * (ins_cost as u64) < 0x1_0000_0000_0000_0000)
                    by (nonlinear_arith)
                    requires
                        left < 0x1_0000_0000,
                        (ins_cost as u64) < 0x1_0000_0000,
                ;
                assert((diag + flag) * (sub_cost as u64) < 0x1_0000_0000_0000_0000)
                    by (nonlinear_arith)
                    requires
                        diag < 0x1_0000_0000,
                        flag <= 1,
                        (sub_cost as u64) < 0x1_0000_0000,
                ;
            }
            let dc: u64 = (up + 1) * (del_cost as u64);
            let ic: u64 = (left + 1) * (ins_cost as u64);
            let sc: u64 = (diag + flag) * (sub_cost as u64);
            let m: u64 = if dc <= ic && dc <= sc {
                dc
            } else if ic <= sc {
                ic
            } else {
                sc
            };
            let cell: u32 = if m <= limit as u64 {
                m as u32
            } else {
                limit
            };
            proof {
                let gp = lev_cell(a@, b@, i as int, j + 1, gi, gd, gs);
                let gq = lev_cell(a@, b@, i as int + 1, j as int, gi, gd, gs);
                let gr = lev_cell(a@, b@, i as int, j as int, gi, gd, gs);
                lemma_cell_nonneg(a@, b@, i as int, j + 1, gi, gd, gs);
                lemma_cell_nonneg(a@, b@, i as int + 1, j as int, gi, gd, gs);
                lemma_cell_nonneg(a@, b@, i as int, j as int, gi, gd, gs);
                lemma_cap_cell(gp, gq, gr, sub_flag(a@[j as int], b@[i as int]), gi, gd, gs, glimit);
                assert(dc == (cap(gp, glimit) + 1) * gd && ic == (cap(gq, glimit) + 1) * gi && sc
                    == (cap(gr, glimit) + sub_flag(a@[j as int], b@[i as int])) * gs)
                    by (nonlinear_arith)
                    requires
                        up == cap(gp, glimit),
                        left == cap(gq, glimit),
                        diag == cap(gr, glimit),
                        flag == sub_flag(a@[j as int], b@[i as int]),
                        dc == (up + 1) * (del_cost as u64),
                        ic == (left + 1) * (ins_cost as u64),
                        sc == (diag + flag) * (sub_cost as u64),
                        gi == ins_cost as int,
                        gd == del_cost as int,
                        gs == sub_cost as int,
                        0 <= up,
                        0 <= left,
                        0 <= diag,
                ;
                assert(cell == cap(lev_cell(a@, b@, i as int + 1, j + 1, gi, gd, gs), glimit));
            }
            v_curr.set(j + 1, cell);
            j = j + 1;
        }
        let last: u32 = v_curr[a_len];
        if last >= limit {
            proof {
                assert(row_last(a@, b@, i as int + 1, gi, gd, gs) >= glimit);
                assert(hits_limit(a@, b@, glimit, gi, gd, gs));
            }
            return limit;
        }
        proof {
            assert(row_last(a@, b@, i as int + 1, gi, gd, gs) < glimit);
        }
        core::mem::swap(&mut v_prev, &mut v_curr);
        i = i + 1;
    }

    let result: u32 = v_prev[a_len];
    proof {
        assert(!hits_limit(a@, b@, glimit, gi, gd, gs));
        if b@.len() == 0 {
            assert(lev_cell(a@, b@, 0, a@.len() as int, gi, gd, gs) == a@.len() as int);
            assert(abs_diff(a@.len() as int, 0) == a@.len() as int);
        }
        assert(result == spec_levenshtein(a@, b@, glimit, gi, gd, gs));
    }
    result
}

/// Levenshtein distance with weights and no limit.
pub fn levenshtein_weight(a: &str, b: &str, ins_cost: u32, del_cost: u32, sub_cost: u32) -> (r: u32)
    requires
        a@.len() <= u32::MAX,
        b@.len() <= u32::MAX,
    ensures
        r == spec_levenshtein(
            a@,
            b@,
            u32::MAX as int,
            ins_cost as int,
            del_cost as int,
            sub_cost as int,
        ),
{
    levenshtein_limit_weight(a, b, u32::MAX, ins_cost, del_cost, sub_cost)
}

/// Levenshtein distance with all costs 1, capped at `limit`: the usual way to
/// prune candidate pairs that are "different enough".
pub fn levenshtein_limit(a: &str, b: &str, limit: u32) -> (r: u32)
    requires
        a@.len() <= u32::MAX,
        b@.len() <= u32::MAX,
    ensures
        r == spec_levenshtein(a@, b@, limit as int, 1, 1, 1),
        r <= limit,
{
    levenshtein_limit_weight(a, b, limit, 1, 1, 1)
}

/// Basic Levenshtein distance: all costs 1, no limit.
pub fn levenshtein(a: &str, b: &str) -> (r: u32)
    requires
        a@.len() <= u32::MAX,
        b@.len() <= u32::MAX,
    ensures
        r == spec_levenshtein(a@, b@, u32::MAX as int, 1, 1, 1),
{
    levenshtein_limit_weight(a, b, u32::MAX, 1, 1, 1)
}

/// With unit costs, a cell of the matrix between a string and itself is the
/// distance of its indices from the diagonal.
proof fn lemma_cell_self(s: Seq<char>, i: int, j: int)
    requires
        0 <= i,
        0 <= j,
    ensures
        lev_cell(s, s, i, j, 1, 1, 1) == abs_diff(i, j),
    decreases i + j,
{
    if i <= 0 || j <= 0 {
    } else {
        lemma_cell_self(s, i - 1, j);
        lemma_cell_self(s, i, j - 1);
        lemma_cell_self(s, i - 1, j - 1);
    }
}

/// Distance identity: the distance from any string to itself is zero.
pub proof fn lemma_distance_self(s: Seq<char>)
    requires
        s.len() <= u32::MAX,
    ensures
        spec_levenshtein(s, s, u32::MAX as int, 1, 1, 1) == 0,
{
    assert forall|i: int| 1 <= i <= s.len() implies #[trigger] row_last(s, s, i, 1, 1, 1)
        < u32::MAX as int by {
        lemma_cell_self(s, i, s.len() as int);
    }
    lemma_cell_self(s, s.len() as int, s.len() as int);
}

/// With unit costs the matrix is symmetric: swapping the strings transposes it.
proof fn lemma_cell_transpose(a: Seq<char>, b: Seq<char>, i: int, j: int)
    requires
        0 <= i,
        0 <= j,
    ensures
        lev_cell(a, b, i, j, 1, 1, 1) == lev_cell(b, a, j, i, 1, 1, 1),
    decreases i + j,
{
    if i <= 0 || j <= 0 {
    } else {
        lemma_cell_transpose(a, b, i - 1, j);
        lemma_cell_transpose(a, b, i, j - 1);
        lemma_cell_transpose(a, b, i - 1, j - 1);
    }
}

/// With unit costs no cell exceeds the larger of its indices.
proof fn lemma_cell_upper(a: Seq<char>, b: Seq<char>, i: int, j: int)
    requires
        0 <= i,
        0 <= j,
    ensures
        lev_cell(a, b, i, j, 1, 1, 1) <= if i >= j {
            i
        } else {
            j
        },
    decreases i + j,
{
    if i <= 0 || j <= 0 {
    } else {
        lemma_cell_upper(a, b, i - 1, j);
        lemma_cell_upper(a, b, i, j - 1);
        lemma_cell_upper(a, b, i - 1, j - 1);
    }
}

/// With unit costs no cell is below the distance of its indices from the
/// diagonal: at least that many insertions or deletions are required.
proof fn lemma_cell_lower(a: Seq<char>, b: Seq<char>, i: int, j: int)
    requires
        0 <= i,
        0 <= j,
    ensures
        lev_cell(a, b, i, j, 1, 1, 1) >= abs_diff(i, j),
    decreases i + j,
{
    if i <= 0 || j <= 0 {
    } else {
        lemma_cell_lower(a, b, i - 1, j);
        lemma_cell_lower(a, b, i, j - 1);
        lemma_cell_lower(a, b, i - 1, j - 1);
    }
}

/// Distance symmetry: under equal unit costs the distance does not depend on
/// the order of its arguments.
pub proof fn lemma_distance_symmetric(a: Seq<char>, b: Seq<char>)
    requires
        a.len() < u32::MAX,
        b.len() < u32::MAX,
    ensures
        spec_levenshtein(a, b, u32::MAX as int, 1, 1, 1) == spec_levenshtein(
            b,
            a,
            u32::MAX as int,
            1,
            1,
            1,
        ),
{
    assert forall|i: int| 1 <= i <= b.len() implies #[trigger] row_last(a, b, i, 1, 1, 1)
        < u32::MAX as int by {
        lemma_cell_upper(a, b, i, a.len() as int);
    }
    assert forall|i: int| 1 <= i <= a.len() implies #[trigger] row_last(b, a, i, 1, 1, 1)
        < u32::MAX as int by {
        lemma_cell_upper(b, a, i, b.len() as int);
    }
    lemma_cell_transpose(a, b, b.len() as int, a.len() as int);
}

/// Monotonic cap: the bounded distance never exceeds its limit.
pub proof fn lemma_distance_cap(
    a: Seq<char>,
    b: Seq<char>,
    limit: int,
    ins: int,
    del: int,
    sub: int,
)
    ensures
        spec_levenshtein(a, b, limit, ins, del, sub) <= limit,
{
    if abs_diff(a.len() as int, b.len() as int) >= limit {
    } else if hits_limit(a, b, limit, ins, del, sub) {
    } else {
        if b.len() == 0 {
            assert(row_last(a, b, 0, ins, del, sub) == a.len() as int);
        } else {
            assert(row_last(a, b, b.len() as int, ins, del, sub) < limit);
        }
    }
}

/// Bounded exactness: when the final score is below the limit and no
/// intermediate row's last cell reaches the limit, the bounded computation
/// returns exactly the final score of the unit-cost matrix.
pub proof fn lemma_distance_limited_exact(a: Seq<char>, b: Seq<char>, limit: int)
    requires
        row_last(a, b, b.len() as int, 1, 1, 1) < limit,
        forall|i: int| 1 <= i <= b.len() ==> #[trigger] row_last(a, b, i, 1, 1, 1) < limit,
    ensures
        spec_levenshtein(a, b, limit, 1, 1, 1) == row_last(a, b, b.len() as int, 1, 1, 1),
{
    lemma_cell_lower(a, b, b.len() as int, a.len() as int);
}

/// Convert a machine-size integer to a `u32`; the value must fit.
pub fn convertu32(value: usize) -> (r: u32)
    requires
        value <= u32::MAX,
    ensures
        r == value as u32,
{
    value as u32
}

} // verus!
