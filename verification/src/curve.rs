//! The numbers behind a plot of an expression.

use vstd::prelude::*;

use crate::complex::{eml, prim_outcome, Complex64};
use crate::expr::{ops, Expr};
use crate::float::{
    check_finite, eq, float_eq, float_from, float_lt, float_of, get_magnitude, get_minus,
    get_product, get_quotient, get_sum, is_finite, is_nan, lt, magnitude, minus, product, quotient,
    sum, INF_BITS, ONE_BITS,
};
use crate::subtree::NEG_INF_BITS;
use crate::text::{decimal, push_u64};
use crate::value::{
    is_arithmetic, lemma_products, lemma_sums, products_cancel, products_commute,
    products_distribute, sums_associate, sums_cancel, sums_commute, wholes_agree, Numbers,
};

verus! {

/// `r` is a value that `e` may have at the real number `x`.
pub open spec fn may_have_value(e: Expr, x: u64, r: Complex64) -> bool
    decreases e,
{
    match e {
        Expr::Var => r == (Complex64 { re: x, im: 0 }),
        Expr::Const(v) => r == v,
        Expr::Prim(a, b) => exists|p: Complex64, q: Complex64|
            may_have_value(*a, x, p) && may_have_value(*b, x, q) && #[trigger] prim_outcome(
                p,
                q,
                r,
            ),
    }
}

/// The value of an expression at the real number `x`.
pub fn eval_node(node: &Expr, x: u64) -> (r: Complex64)
    ensures
        may_have_value(*node, x, r),
    decreases *node,
{
    match node {
        Expr::Var => Complex64::new(x, 0),
        Expr::Const(v) => *v,
        Expr::Prim(left, right) => {
            let a = eval_node(left, x);
            let b = eval_node(right, x);
            eml(a, b)
        },
    }
}

/// The number of leaves of an expression.
pub open spec fn leaves(e: Expr) -> nat
    decreases e,
{
    match e {
        Expr::Prim(a, b) => leaves(*a) + leaves(*b),
        _ => 1,
    }
}

/// The number of nodes on the longest way down an expression.
pub open spec fn depth(e: Expr) -> nat
    decreases e,
{
    match e {
        Expr::Prim(a, b) => 1 + (if depth(*a) >= depth(*b) {
            depth(*a)
        } else {
            depth(*b)
        }),
        _ => 1,
    }
}

/// An expression has one primitive less than it has leaves, and is no deeper than it has nodes.
pub proof fn law_stats(e: Expr)
    ensures
        ops(e) + 1 == 2 * leaves(e),
        1 <= depth(e) <= ops(e),
    decreases e,
{
    if let Expr::Prim(a, b) = e {
        law_stats(*a);
        law_stats(*b);
    }
}

/// The number of nodes, of leaves, and the depth of an expression.
pub fn eml_stats(node: &Expr) -> (r: (usize, usize, usize))
    requires
        ops(*node) <= usize::MAX,
    ensures
        r.0 == ops(*node),
        r.1 == leaves(*node),
        r.2 == depth(*node),
    decreases *node,
{
    proof {
        law_stats(*node);
    }
    match node {
        Expr::Prim(left, right) => {
            let (n1, l1, d1) = eml_stats(left);
            let (n2, l2, d2) = eml_stats(right);
            let deeper = if d1 >= d2 {
                d1
            } else {
                d2
            };
            (1 + n1 + n2, l1 + l2, 1 + deeper)
        },
        _ => (1, 1, 1),
    }
}

/// The `i`-th of `n` numbers from `xmin` to `xmax` at equal distances.
pub open spec fn spaced(xmin: u64, xmax: u64, n: int, i: int) -> u64 {
    let step = quotient(minus(xmax, xmin), float_of((n - 1) as u64));
    sum(xmin, product(float_of(i as u64), step))
}

/// `n` numbers from `xmin` to `xmax` at equal distances, both ends included; `xmin` alone when
/// one is wanted.
pub fn linspace(xmin: u64, xmax: u64, n: usize) -> (r: Vec<u64>)
    ensures
        r@.len() == n,
        n == 1 ==> r@[0] == xmin,
        n > 1 ==> forall|i: int|
            0 <= i < n ==> #[trigger] r@[i] == spaced(xmin, xmax, n as int, i),
        n > 1 ==> forall|i: int|
            0 <= i < n ==> #[trigger] r@[i] == sum(
                xmin,
                product(
                    float_of(i as u64),
                    quotient(minus(xmax, xmin), float_of((n - 1) as u64)),
                ),
            ),
{
    let mut r: Vec<u64> = Vec::new();
    if n == 0 {
        return r;
    }
    if n == 1 {
        r.push(xmin);
        return r;
    }
    let step = get_quotient(get_minus(xmax, xmin), float_from((n - 1) as u64));
    let mut i: usize = 0;
    while i < n
        invariant
            1 < n,
            i <= n,
            step == quotient(minus(xmax, xmin), float_of((n - 1) as u64)),
            r@.len() == i,
            forall|j: int| 0 <= j < i ==> #[trigger] r@[j] == spaced(xmin, xmax, n as int, j),
        decreases n - i,
    {
        r.push(get_sum(xmin, get_product(float_from(i as u64), step)));
        i += 1;
    }
    r
}

/// The values of an expression at each of `xs`.
pub fn sample_curve(node: &Expr, xs: &Vec<u64>) -> (r: Vec<Complex64>)
    ensures
        r@.len() == xs@.len(),
        forall|i: int|
            0 <= i < r@.len() ==> may_have_value(*node, xs@[i], #[trigger] r@[i]),
{
    let mut r: Vec<Complex64> = Vec::new();
    let mut i: usize = 0;
    while i < xs.len()
        invariant
            i <= xs@.len(),
            r@.len() == i,
            forall|j: int| 0 <= j < i ==> may_have_value(*node, xs@[j], #[trigger] r@[j]),
        decreases xs@.len() - i,
    {
        r.push(eval_node(node, xs[i]));
        i += 1;
    }
    r
}

/// The smallest and the largest finite number among `low`, `high` and the parts of the first `k`
/// of `values`.
pub open spec fn bounds(values: Seq<u64>, k: int) -> (u64, u64)
    decreases k,
{
    if k <= 0 {
        (INF_BITS, NEG_INF_BITS)
    } else {
        let (low, high) = bounds(values, k - 1);
        let v = values[k - 1];
        if is_finite(v) {
            (
                if float_lt(v, low) {
                    v
                } else {
                    low
                },
                if float_lt(high, v) {
                    v
                } else {
                    high
                },
            )
        } else {
            (low, high)
        }
    }
}

/// `-1`.
pub const MINUS_ONE_BITS: u64 = 0xbff0_0000_0000_0000;

/// `1e-6`: a range of values that is narrower is widened.
pub const NARROW: u64 = 0x3eb0_c6f7_a0b5_ed8d;

/// `0.5`.
pub const HALF_BITS: u64 = 0x3fe0_0000_0000_0000;

/// `0.08`: the share of the range that is left free at either end.
pub const MARGIN_SHARE: u64 = 0x3fb4_7ae1_47ae_147b;

/// The range of a plot for values from `low` to `high`: from -1 to 1 when there is none, widened
/// when it is narrow, and with a margin at either end.
pub open spec fn framed(low: u64, high: u64) -> (u64, u64) {
    let (a, b) = if float_eq(low, INF_BITS) || float_eq(high, NEG_INF_BITS) {
        (MINUS_ONE_BITS, ONE_BITS)
    } else {
        (low, high)
    };
    let (c, d) = if float_lt(magnitude(minus(b, a)) as u64, NARROW) {
        (minus(a, HALF_BITS), sum(b, HALF_BITS))
    } else {
        (a, b)
    };
    let room = product(minus(d, c), MARGIN_SHARE);
    (minus(c, room), sum(d, room))
}

/// The range of a plot of `values`. Those that are not finite are left out.
pub fn y_range(values: &Vec<u64>) -> (r: (u64, u64))
    ensures
        ({
            let (low, high) = bounds(values@, values@.len() as int);
            r == framed(low, high)
        }),
{
    let mut low: u64 = INF_BITS;
    let mut high: u64 = NEG_INF_BITS;
    let mut k: usize = 0;
    while k < values.len()
        invariant
            k <= values@.len(),
            (low, high) == bounds(values@, k as int),
        decreases values@.len() - k,
    {
        let v = values[k];
        if check_finite(v) {
            if lt(v, low) {
                low = v;
            }
            if lt(high, v) {
                high = v;
            }
        }
        k += 1;
    }
    let (a, b) = if eq(low, INF_BITS) || eq(high, NEG_INF_BITS) {
        (MINUS_ONE_BITS, ONE_BITS)
    } else {
        (low, high)
    };
    let (c, d) = if lt(get_magnitude(get_minus(b, a)), NARROW) {
        (get_minus(a, HALF_BITS), get_sum(b, HALF_BITS))
    } else {
        (a, b)
    };
    let room = get_product(get_minus(d, c), MARGIN_SHARE);
    (get_minus(c, room), get_sum(d, room))
}

/// `1e-10`: an imaginary part that is smaller everywhere is not drawn.
pub const INVISIBLE: u64 = 0x3ddb_7cdf_d9d7_bdbb;

/// Whether one of `values` is larger than what is invisible.
pub fn check_visible(values: &Vec<u64>) -> (r: bool)
    ensures
        r == exists|i: int|
            0 <= i < values@.len() && float_lt(
                INVISIBLE,
                magnitude(#[trigger] values@[i]) as u64,
            ),
{
    let mut k: usize = 0;
    while k < values.len()
        invariant
            k <= values@.len(),
            forall|i: int|
                0 <= i < k ==> !float_lt(INVISIBLE, magnitude(#[trigger] values@[i]) as u64),
        decreases values@.len() - k,
    {
        if lt(INVISIBLE, get_magnitude(values[k])) {
            assert(float_lt(INVISIBLE, magnitude(values@[k as int]) as u64));
            return true;
        }
        k += 1;
    }
    false
}

/// The dashes of a dashed line through the points `from..n`: `dash` points each, with `gap`
/// points left out in between. A dash of less than two points is not drawn.
pub open spec fn dashes_from(from: int, n: int, dash: int, gap: int) -> Seq<(usize, usize)>
    decreases n - from,
{
    if from >= n || dash <= 0 || gap < 0 {
        Seq::empty()
    } else {
        let end = if from + dash <= n {
            from + dash
        } else {
            n
        };
        let rest = if end + gap < n {
            dashes_from(end + gap, n, dash, gap)
        } else {
            Seq::empty()
        };
        if end - from >= 2 {
            seq![(from as usize, end as usize)] + rest
        } else {
            rest
        }
    }
}

/// The dashes of a dashed line through `n` points: the first point of each, and the one behind
/// its last.
pub fn dashes(n: usize, dash: usize, gap: usize) -> (r: Vec<(usize, usize)>)
    requires
        dash > 0,
    ensures
        r@ == dashes_from(0, n as int, dash as int, gap as int),
{
    let mut r: Vec<(usize, usize)> = Vec::new();
    let mut from: usize = 0;
    let mut over = false;
    while !over && from < n
        invariant
            dash > 0,
            over ==> r@ == dashes_from(0, n as int, dash as int, gap as int),
            !over ==> r@ + dashes_from(from as int, n as int, dash as int, gap as int)
                == dashes_from(0, n as int, dash as int, gap as int),
        decreases (if over { 0int } else { 1 + n - from }),
    {
        let end = if dash <= n - from {
            from + dash
        } else {
            n
        };
        let ghost before = r@;
        let ghost rest = if end + gap < n {
            dashes_from(end + gap, n as int, dash as int, gap as int)
        } else {
            Seq::empty()
        };
        if end - from >= 2 {
            r.push((from, end));
        }
        assert(r@ + rest =~= before + dashes_from(
            from as int,
            n as int,
            dash as int,
            gap as int,
        ));
        if gap >= n - end {
            over = true;
            assert(rest =~= Seq::<(usize, usize)>::empty());
            assert(r@ =~= r@ + rest);
        } else {
            from = end + gap;
        }
    }
    if !over {
        assert(dashes_from(from as int, n as int, dash as int, gap as int) =~= Seq::<
            (usize, usize),
        >::empty());
        assert(r@ =~= r@ + Seq::<(usize, usize)>::empty());
    }
    r
}

proof fn lemma_dash(from: int, n: int, dash: int, gap: int, k: int)
    requires
        0 <= from,
        n <= usize::MAX,
        dash >= 2,
        gap >= 0,
        k >= 0,
    ensures
        ({
            let d = dashes_from(from, n, dash, gap);
            let start = from + k * (dash + gap);
            &&& k < d.len() <==> start + 1 < n
            &&& k < d.len() ==> d[k].0 == start && d[k].1 == if start + dash <= n {
                start + dash
            } else {
                n
            }
        }),
    decreases n - from,
{
    let step = dash + gap;
    assert(k > 0 ==> k * step == (k - 1) * step + step && (k - 1) * step >= 0)
        by (nonlinear_arith)
        requires
            k >= 0,
            step > 0,
    ;
    if from < n {
        let end = if from + dash <= n {
            from + dash
        } else {
            n
        };
        if end + gap < n && k > 0 {
            lemma_dash(end + gap, n, dash, gap, k - 1);
        }
        if k == 0 {
            assert(k * step == 0) by (nonlinear_arith)
                requires
                    k == 0,
            ;
        }
    }
}

/// Dashes start at equal distances: the dash and the gap behind it. Each has `dash` points, or as
/// many as are left, and there is one wherever two points are left. Dashes of one point are never
/// drawn.
pub proof fn law_dashes(n: usize, dash: usize, gap: usize, k: int)
    requires
        dash > 0,
        k >= 0,
    ensures
        ({
            let d = dashes_from(0, n as int, dash as int, gap as int);
            let start = k * (dash + gap);
            &&& dash == 1 ==> d.len() == 0
            &&& dash > 1 ==> (k < d.len() <==> start + 1 < n)
            &&& k < d.len() ==> d[k].0 == start && d[k].1 == if start + dash <= n {
                start + dash
            } else {
                n as int
            }
        }),
{
    if dash > 1 {
        lemma_dash(0, n as int, dash as int, gap as int, k);
    } else {
        lemma_no_dashes(0, n as int, gap as int);
    }
}

proof fn lemma_no_dashes(from: int, n: int, gap: int)
    requires
        gap >= 0,
    ensures
        dashes_from(from, n, 1, gap).len() == 0,
    decreases n - from,
{
    if from < n && from + 1 + gap < n {
        lemma_no_dashes(from + 1 + gap, n, gap);
    }
}

/// The caption of a plot: the symbolic value of the expression and its statistics.
pub fn caption(sym: &str, nodes: usize, leaves: usize, depth: usize) -> (r: String)
    ensures
        r@ == sym@ + "   EML summary: nodes = "@ + decimal(nodes as nat) + ", leaves = "@ + decimal(
            leaves as nat,
        ) + ", depth = "@ + decimal(depth as nat),
{
    let mut out = String::new();
    out.push_str(sym);
    out.push_str("   EML summary: nodes = ");
    push_u64(&mut out, nodes as u64);
    out.push_str(", leaves = ");
    push_u64(&mut out, leaves as u64);
    out.push_str(", depth = ");
    push_u64(&mut out, depth as u64);
    assert(out@ =~= sym@ + "   EML summary: nodes = "@ + decimal(nodes as nat) + ", leaves = "@
        + decimal(leaves as nat) + ", depth = "@ + decimal(depth as nat));
    out
}

/// The machine's sum of `a` and `b` is exact.
pub open spec fn sum_exact<V>(m: Numbers<V>, a: u64, b: u64) -> bool {
    (m.float)(sum(a, b)) == (m.add)((m.float)(a), (m.float)(b))
}

/// The machine's difference of `a` and `b` is exact.
pub open spec fn difference_exact<V>(m: Numbers<V>, a: u64, b: u64) -> bool {
    (m.float)(minus(a, b)) == (m.sub)((m.float)(a), (m.float)(b))
}

/// The machine's product of `a` and `b` is exact.
pub open spec fn product_exact<V>(m: Numbers<V>, a: u64, b: u64) -> bool {
    (m.float)(product(a, b)) == (m.mul)((m.float)(a), (m.float)(b))
}

/// The machine's quotient of `a` and `b` is exact.
pub open spec fn quotient_exact<V>(m: Numbers<V>, a: u64, b: u64) -> bool {
    (m.float)(b) != m.zero() ==> (m.float)(quotient(a, b)) == (m.div)((m.float)(a), (m.float)(b))
}

/// The binary64 number for `n` is `n`.
pub open spec fn whole_exact<V>(m: Numbers<V>, n: u64) -> bool {
    (m.float)(float_of(n)) == (m.whole)(n as int)
}

/// The laws of arithmetic, with no whole number but zero being zero.
pub open spec fn is_endless<V>(m: Numbers<V>) -> bool {
    is_arithmetic(m) && forall|k: int| k != 0 ==> #[trigger] (m.whole)(k) != m.zero()
}

/// Where the machine computes the width of the range, the step and the multiples of it exactly, the
/// first sample is `xmin`, the last is `xmax`, and neighbours are apart by the `n - 1`-th part of
/// the difference of the two, so that no sample lies beyond them.
pub proof fn law_samples_are_even<V>(
    m: Numbers<V>,
    xmin: u64,
    xmax: u64,
    n: usize,
    step: u64,
    samples: Seq<u64>,
    i: int,
)
    requires
        is_endless(m),
        n > 1,
        0 <= i < n - 1,
        step == quotient(minus(xmax, xmin), float_of((n - 1) as u64)),
        difference_exact(m, xmax, xmin),
        quotient_exact(m, minus(xmax, xmin), float_of((n - 1) as u64)),
        forall|k: u64| k < n ==> #[trigger] whole_exact(m, k),
        forall|k: u64| k < n ==> #[trigger] product_exact(m, float_of(k), step),
        forall|k: u64| k < n ==> #[trigger] sum_exact(m, xmin, product(float_of(k), step)),
        samples == Seq::new(n as nat, |k: int| spaced(xmin, xmax, n as int, k)),
    ensures
        (m.float)(samples[0]) == (m.float)(xmin),
        (m.float)(samples[n - 1]) == (m.float)(xmax),
        (m.mul)(
            (m.sub)((m.float)(samples[i + 1]), (m.float)(samples[i])),
            (m.whole)(n - 1),
        ) == (m.sub)((m.float)(xmax), (m.float)(xmin)),
{
    let (a, b) = ((m.float)(xmin), (m.float)(xmax));
    let d = (m.sub)(b, a);
    let parts = (m.whole)(n - 1);
    let part = (m.div)(d, parts);
    assert(parts != m.zero());
    assert(whole_exact(m, (n - 1) as u64));
    assert((m.float)(step) == part);
    assert forall|k: int| 0 <= k < n implies (m.float)(#[trigger] samples[k]) == (m.add)(
        a,
        (m.mul)((m.whole)(k), part),
    ) by {
        let times = k as u64;
        assert(whole_exact(m, times));
        assert(product_exact(m, float_of(times), step));
        assert(sum_exact(m, xmin, product(float_of(times), step)));
    }
    lemma_products(m, part);
    lemma_sums(m, a, b);
    assert((m.float)(samples[0]) == (m.add)(a, (m.mul)((m.whole)(0), part)));
    assert(products_cancel(m, d, parts) && products_commute(m, parts, part));
    assert((m.float)(samples[n - 1]) == (m.add)(a, d));
    assert((m.add)(a, d) == b) by {
        assert(sums_cancel(m, b, a));
        let c = (m.neg)(a);
        assert(sums_commute(m, b, c));
        assert(sums_associate(m, a, c, b));
        assert(sums_cancel(m, a, a));
        lemma_sums(m, b, b);
    }
    let (p, q) = ((m.mul)((m.whole)(i), part), (m.mul)((m.whole)(i + 1), part));
    assert(q == (m.add)(p, part)) by {
        assert(wholes_agree(m, i, 1));
        assert(products_commute(m, (m.whole)(i + 1), part));
        assert(products_commute(m, (m.whole)(i), part));
        assert(products_commute(m, m.one(), part));
        assert(products_distribute(m, part, (m.whole)(i), m.one()));
    }
    assert((m.sub)((m.add)(a, q), (m.add)(a, p)) == part) by {
        let s = (m.add)(a, p);
        assert(sums_associate(m, a, p, part));
        assert(sums_commute(m, s, part));
        lemma_sums(m, part, s);
    }
    assert((m.float)(samples[i]) == (m.add)(a, p));
    assert((m.float)(samples[i + 1]) == (m.add)(a, q));
}

/// The bounds of a list are the bounds of its finite numbers: none lies beyond them, and where there
/// is one, they are among them.
pub proof fn law_bounds(values: Seq<u64>, k: int)
    requires
        0 <= k <= values.len(),
    ensures
        ({
            let (low, high) = bounds(values, k);
            &&& forall|i: int|
                0 <= i < k && is_finite(#[trigger] values[i]) ==> !float_lt(values[i], low)
                    && !float_lt(high, values[i])
            &&& (exists|i: int| 0 <= i < k && is_finite(#[trigger] values[i])) ==> (exists|i: int|
                0 <= i < k && is_finite(values[i]) && #[trigger] values[i] == low) && (exists|
                i: int,
            | 0 <= i < k && is_finite(values[i]) && #[trigger] values[i] == high)
            &&& !is_nan(low) && !is_nan(high)
            &&& (low == INF_BITS || is_finite(low)) && (high == NEG_INF_BITS || is_finite(high))
        }),
    decreases k,
{
    if k > 0 {
        law_bounds(values, k - 1);
        let (low, high) = bounds(values, k - 1);
        let v = values[k - 1];
        let (new_low, new_high) = bounds(values, k);
        if is_finite(v) {
            if exists|i: int| 0 <= i < k - 1 && is_finite(#[trigger] values[i]) {
                let i = choose|i: int| 0 <= i < k - 1 && is_finite(values[i]) && #[trigger] values[i]
                    == low;
                let j = choose|j: int| 0 <= j < k - 1 && is_finite(values[j]) && #[trigger] values[j]
                    == high;
                assert(values[i] == low && values[j] == high);
                assert(values[k - 1] == v);
            } else {
                lemma_bounds_empty(values, k - 1);
                assert(values[k - 1] == new_low && values[k - 1] == new_high);
            }
        } else {
            if exists|i: int| 0 <= i < k && is_finite(#[trigger] values[i]) {
                let i = choose|i: int| 0 <= i < k && is_finite(#[trigger] values[i]);
                assert(i < k - 1);
                let a = choose|i: int| 0 <= i < k - 1 && is_finite(values[i]) && #[trigger] values[i]
                    == low;
                let b = choose|j: int| 0 <= j < k - 1 && is_finite(values[j]) && #[trigger] values[j]
                    == high;
                assert(values[a] == new_low && values[b] == new_high);
            }
        }
    }
}

/// Without a finite number the bounds are the infinities.
proof fn lemma_bounds_empty(values: Seq<u64>, k: int)
    requires
        0 <= k <= values.len(),
        forall|i: int| 0 <= i < k ==> !is_finite(#[trigger] values[i]),
    ensures
        bounds(values, k) == (INF_BITS, NEG_INF_BITS),
    decreases k,
{
    if k > 0 {
        lemma_bounds_empty(values, k - 1);
        assert(!is_finite(values[k - 1]));
    }
}

/// Where the machine computes it exactly, the range of a plot has the middle of the values, and is as wide as
/// they are and a margin at either end.
pub proof fn law_frame<V>(m: Numbers<V>, low: u64, high: u64)
    requires
        is_arithmetic(m),
        !float_eq(low, INF_BITS),
        !float_eq(high, NEG_INF_BITS),
        !float_lt(magnitude(minus(high, low)) as u64, NARROW),
        difference_exact(m, high, low),
        product_exact(m, minus(high, low), MARGIN_SHARE),
        difference_exact(m, low, product(minus(high, low), MARGIN_SHARE)),
        sum_exact(m, high, product(minus(high, low), MARGIN_SHARE)),
    ensures
        ({
            let (a, b) = ((m.float)(low), (m.float)(high));
            let (c, d) = ((m.float)(framed(low, high).0), (m.float)(framed(low, high).1));
            let margin = (m.mul)((m.sub)(b, a), (m.float)(MARGIN_SHARE));
            &&& (m.add)(c, d) == (m.add)(a, b)
            &&& (m.sub)(a, c) == margin
            &&& (m.sub)(d, b) == margin
        }),
{
    let width = minus(high, low);
    let room = product(width, MARGIN_SHARE);
    let (a, b, r) = ((m.float)(low), (m.float)(high), (m.float)(room));
    let n = (m.neg)(r);
    lemma_sums(m, a, r);
    lemma_sums(m, b, r);
    assert(sums_commute(m, b, r));
    lemma_sums(m, r, b);
    assert(sums_cancel(m, a, r));
    assert((m.add)((m.add)(a, n), (m.add)(b, r)) == (m.add)(a, b)) by {
        assert(sums_associate(m, a, n, (m.add)(r, b)));
        assert(sums_associate(m, n, r, b));
        assert(sums_commute(m, n, r));
        assert(sums_cancel(m, r, r));
        lemma_sums(m, b, b);
    }
}

/// A primitive is one deeper than the deeper of its operands, and has the leaves of both.
pub proof fn law_depth(e: Expr, left: Expr, right: Expr)
    requires
        e == Expr::Prim(Box::new(left), Box::new(right)),
    ensures
        depth(e) > depth(left),
        depth(e) > depth(right),
        depth(e) == depth(left) + 1 || depth(e) == depth(right) + 1,
        leaves(e) == leaves(left) + leaves(right),
{
}

} // verus!
