//! What rounding leaves of the layout of the bar: the buttons keep apart, in their order, a touch
//! on a button finds it, what is drawn stays on the bar, and the two halves mirror each other.
//!
//! The lengths are compared with those of exact arithmetic: with `b` for the length of a button
//! and `g` for that of a gap, button `i` reaches from `i * (b + g)` to `i * (b + g) + b`. Errors
//! are measured in units of `u`, the part of `b` that one rounding can add to it.

use vstd::prelude::*;

use crate::accuracy::{
    lemma_medium, lemma_near_both_ways, lemma_rounding_moves, lemma_small_error, near, scale,
    within,
};
use crate::button::ButtonView;
use crate::coord::{law_order_is_numeric, law_position_keeps_value, Coord, INFINITY};
use crate::framebuffer::{clip_fits, lemma_offset_monotone, pixel_offset};
use crate::geometry::{
    button_step, button_width, clip_exists, column_width, free_width, height_share, left_coord,
    left_edge, lemma_share, right_coord, right_edge, spacing_width, spec_button_index,
    spec_hit_area, spec_pixel_box,
};
use crate::layer::{drawable, drawn_clips, due, due_indices, layer_wf};
use crate::rounding::{
    distance, law_round_error, lemma_is_quotient, lemma_ordinary, lemma_power_adds,
    lemma_power_is_pow2, lemma_power_monotone, lemma_power_positive, lemma_quotient, power, round,
    zero,
};
use crate::touch_bar::{BarView, TouchEvent};

verus! {

/// The least height at which the background of a button ends within the bar.
pub const FLATTEST: u16 = 54;

/// The least height at which the background of a button does not begin before the bar.
pub const DRAWABLE_HEIGHT: u16 = 47;

/// The error of what the buttons leave over of the bar, before it is rounded.
#[verifier::spinoff_prover]
proof fn lemma_free_error(w: real, n: real, b: real, u: real, bw: real, used: real)
    requires
        2real <= n,
        n <= 4294967295real,
        0real < u,
        b == u * scale(),
        w == n * b + b,
        near(bw, b),
        near(used, n * bw),
    ensures
        within(bw, b, u),
        within(w - used, b, 2real * (n * u) + u),
{
    let c = scale();
    lemma_rounding_moves(bw, b, 1real, u);
    assert(within(n * bw, n * b, n * u)) by (nonlinear_arith)
        requires
            0real < n,
            b - u <= bw,
            bw <= b + u,
    ;
    assert(n * u <= u * c) by (nonlinear_arith)
        requires
            n <= c,
            0real < u,
    ;
    assert((n + 1real) * (u * c) == n * (u * c) + u * c) by (nonlinear_arith);
    lemma_rounding_moves(used, n * bw, n + 1real, u);
    assert((n + 1real) * u == n * u + u) by (nonlinear_arith);
}

/// The error of what the buttons leave over of the bar.
#[verifier::spinoff_prover]
proof fn lemma_rest_error(n: real, b: real, u: real, rest: real, free: real)
    requires
        2real <= n,
        n <= 4294967295real,
        0real < u,
        b == u * scale(),
        within(rest, b, 2real * (n * u) + u),
        near(free, rest),
    ensures
        within(free, b, 2real * (n * u) + 3real * u),
        2real * (n * u) + 3real * u <= b,
{
    let c = scale();
    assert(2real * (n * u) + 3real * u <= u * c) by (nonlinear_arith)
        requires
            2real * n + 3real <= c,
            0real < u,
    ;
    lemma_rounding_moves(free, rest, 2real, u);
}

/// The error of the length of a gap: divided among the gaps, what is left over shrinks, and so
/// does its error.
#[verifier::spinoff_prover]
proof fn lemma_gap_error(n: real, b: real, u: real, free: real, gap: real)
    requires
        2real <= n,
        n <= 4294967295real,
        0real < u,
        b == u * scale(),
        within(free, b, 2real * (n * u) + 3real * u),
        2real * (n * u) + 3real * u <= b,
        near(gap, free / (n - 1real)),
    ensures
        within(gap, b / (n - 1real), 9real * u),
{
    let c = scale();
    let m = n - 1real;
    let g = b / m;
    let q = free / m;
    assert(q * m == free && g * m == b) by (nonlinear_arith)
        requires
            m >= 1real,
            q == free / m,
            g == b / m,
    ;
    let off = distance(q, gap);
    assert(off * m <= 2real * u) by (nonlinear_arith)
        requires
            off * c <= q,
            q * m == free,
            free <= 2real * (u * c),
            m >= 1real,
            c > 0real,
    ;
    let rest = distance(q, g);
    assert(rest * m <= 2real * (n * u) + 3real * u) by (nonlinear_arith)
        requires
            q * m == free,
            g * m == b,
            rest == q - g || rest == g - q,
            b - (2real * (n * u) + 3real * u) <= free,
            free <= b + (2real * (n * u) + 3real * u),
    ;
    assert((off + rest) * m <= 9real * u * m) by (nonlinear_arith)
        requires
            off * m <= 2real * u,
            rest * m <= 2real * (n * u) + 3real * u,
            m == n - 1real,
            n >= 2real,
            u > 0real,
    ;
    assert(off + rest <= 9real * u) by (nonlinear_arith)
        requires
            (off + rest) * m <= 9real * u * m,
            m >= 1real,
    ;
}

/// The error of the distance between the beginnings of two buttons.
#[verifier::spinoff_prover]
proof fn lemma_step_error(b: real, g: real, u: real, bw: real, gap: real, step: real)
    requires
        0real < u,
        b == u * scale(),
        0real <= g,
        g <= b,
        within(bw, b, u),
        within(gap, g, 9real * u),
        near(step, bw + gap),
    ensures
        within(step, b + g, 13real * u),
{
    let c = scale();
    assert(10real * u <= u * c) by (nonlinear_arith)
        requires
            10real <= c,
            0real < u,
    ;
    lemma_rounding_moves(step, bw + gap, 3real, u);
}

/// The error of where a button begins.
#[verifier::spinoff_prover]
proof fn lemma_left_error(i: real, b: real, g: real, u: real, step: real, left: real)
    requires
        0real <= i,
        0real < u,
        b == u * scale(),
        0real <= g,
        g <= b,
        within(step, b + g, 13real * u),
        near(left, i * step),
    ensures
        within(left, i * (b + g), 16real * (i * u)),
{
    let c = scale();
    let s = b + g;
    assert(within(i * step, i * s, 13real * (i * u))) by (nonlinear_arith)
        requires
            0real <= i,
            s - 13real * u <= step,
            step <= s + 13real * u,
    ;
    assert(i * s <= 2real * (i * (u * c))) by (nonlinear_arith)
        requires
            0real <= i,
            s <= 2real * (u * c),
    ;
    assert(0real <= i * u && 13real * (i * u) <= i * (u * c)) by (nonlinear_arith)
        requires
            0real <= i,
            0real < u,
            13real <= c,
    ;
    assert(3real * i * (u * c) == 3real * (i * (u * c))) by (nonlinear_arith);
    lemma_rounding_moves(left, i * step, 3real * i, u);
    assert(3real * i * u == 3real * (i * u)) by (nonlinear_arith);
}

/// The error of where a button ends.
#[verifier::spinoff_prover]
proof fn lemma_right_error(
    i: real,
    b: real,
    g: real,
    u: real,
    bw: real,
    left: real,
    right: real,
)
    requires
        0real <= i,
        0real < u,
        b == u * scale(),
        0real <= g,
        g <= b,
        within(bw, b, u),
        within(left, i * (b + g), 16real * (i * u)),
        near(right, left + bw),
    ensures
        within(right, i * (b + g) + b, 19real * (i * u) + 3real * u),
{
    let c = scale();
    let s = b + g;
    assert(i * s <= 2real * (i * (u * c))) by (nonlinear_arith)
        requires
            0real <= i,
            s <= 2real * (u * c),
    ;
    assert(0real <= i * u && 16real * (i * u) <= i * (u * c)) by (nonlinear_arith)
        requires
            0real <= i,
            0real < u,
            16real <= c,
    ;
    assert(u <= u * c) by (nonlinear_arith)
        requires
            1real <= c,
            0real < u,
    ;
    assert((3real * i + 2real) * (u * c) == 3real * (i * (u * c)) + 2real * (u * c))
        by (nonlinear_arith);
    lemma_rounding_moves(right, left + bw, 3real * i + 2real, u);
    assert((3real * i + 2real) * u == 3real * (i * u) + 2real * u) by (nonlinear_arith);
}

/// The exact length of a button.
pub open spec fn exact_button(width: u16, num: int) -> real {
    width as real / (num + 1) as real
}

/// The exact length of a gap.
pub open spec fn exact_gap(width: u16, num: int) -> real {
    exact_button(width, num) / (num - 1) as real
}

/// The part of the length of a button that one rounding can add to it.
pub open spec fn unit(width: u16, num: int) -> real {
    exact_button(width, num) / scale()
}

/// A bar of at least one pixel with at least two buttons, and not too many to count.
pub open spec fn plain(width: u16, num: int) -> bool {
    width >= 1 && 2 <= num < u32::MAX
}

/// A bar of at least one pixel with at least two buttons, and no more than it can have pixels.
pub open spec fn regular(width: u16, num: int) -> bool {
    width >= 1 && 2 <= num <= u16::MAX
}

/// How the exact lengths hang together.
#[verifier::spinoff_prover]
pub proof fn lemma_exact(width: u16, num: int)
    requires
        plain(width, num),
    ensures
        ({
            let w = width as real;
            let n = num as real;
            let b = exact_button(width, num);
            let g = exact_gap(width, num);
            let u = unit(width, num);
            &&& b == u * scale()
            &&& 0real < u
            &&& w == n * b + b
            &&& b == g * (n - 1real)
            &&& 0real < g
            &&& g <= b
            &&& 1real <= b * 4294967296real
            &&& b <= 65535real
            &&& u * 1000000000000real <= b
        }),
{
    let w = width as real;
    let n = num as real;
    let b = exact_button(width, num);
    let g = exact_gap(width, num);
    let u = unit(width, num);
    let c = scale();
    let m = n - 1real;
    lemma_quotient(w, n + 1real);
    lemma_quotient(b, c);
    lemma_quotient(b, m);
    assert(b * (n + 1real) == n * b + b) by (nonlinear_arith);
    assert(1real <= b * 4294967296real) by (nonlinear_arith)
        requires
            1real <= b * (n + 1real),
            2real <= n,
            n <= 4294967295real,
    ;
    assert(b <= b * (n + 1real)) by (nonlinear_arith)
        requires
            0real < b,
            2real <= n,
    ;
    assert(0real < u) by (nonlinear_arith)
        requires
            b == u * c,
            0real < b,
            0real < c,
    ;
    assert(0real < g) by (nonlinear_arith)
        requires
            b == g * m,
            0real < b,
            1real <= m,
    ;
    assert(g <= g * m) by (nonlinear_arith)
        requires
            0real < g,
            1real <= m,
    ;
    assert(u * 1000000000000real <= u * c) by (nonlinear_arith)
        requires
            0real < u,
            1000000000000real <= c,
    ;
}

/// With no more buttons than the bar can have pixels, rounding is small against a gap.
#[verifier::spinoff_prover]
proof fn lemma_gaps(width: u16, num: int)
    requires
        regular(width, num),
    ensures
        38real * (num as real * unit(width, num)) < exact_gap(width, num),
        1real <= exact_button(width, num) * 65536real,
{
    let w = width as real;
    let n = num as real;
    let b = exact_button(width, num);
    let g = exact_gap(width, num);
    let u = unit(width, num);
    let c = scale();
    let m = n - 1real;
    lemma_exact(width, num);
    lemma_quotient(w, n + 1real);
    assert(1real <= b * 65536real) by (nonlinear_arith)
        requires
            1real <= b * (n + 1real),
            2real <= n,
            n <= 65535real,
    ;
    assert(n * m <= 65535real * 65535real) by (nonlinear_arith)
        requires
            2real <= n,
            n <= 65535real,
            m == n - 1real,
    ;
    assert(38real * (n * u) * m < g * m) by (nonlinear_arith)
        requires
            g * m == u * c,
            38real * (n * m) < c,
            0real < u,
    ;
    assert(38real * (n * u) < g) by (nonlinear_arith)
        requires
            38real * (n * u) * m < g * m,
            1real <= m,
    ;
}

/// How far rounding moves the lengths that all buttons share.
#[verifier::spinoff_prover]
pub proof fn lemma_lengths(width: u16, num: int)
    requires
        plain(width, num),
    ensures
        ({
            let b = exact_button(width, num);
            let g = exact_gap(width, num);
            let u = unit(width, num);
            &&& within(button_width(width, num).value(), b, u)
            &&& within(button_step(width, num).value(), b + g, 13real * u)
        }),
{
    let w = width as real;
    let n = num as real;
    let b = exact_button(width, num);
    let g = exact_gap(width, num);
    let u = unit(width, num);
    let bw = button_width(width, num).value();
    let used = round(n * bw).value();
    let free = free_width(width, num).value();
    let gap = spacing_width(width, num).value();
    let step = button_step(width, num).value();
    lemma_exact(width, num);
    lemma_medium(b);
    lemma_rounding_moves(bw, b, 1real, u);
    assert(b <= n * bw && n * bw <= 2real * (n * b)) by (nonlinear_arith)
        requires
            2real <= n,
            b <= 2real * bw,
            bw <= 2real * b,
            0real < b,
    ;
    lemma_medium(n * bw);
    lemma_free_error(w, n, b, u, bw, used);
    assert(n * u <= 4294967295real * u) by (nonlinear_arith)
        requires
            n <= 4294967295real,
            0real < u,
    ;
    lemma_medium(w - used);
    lemma_rest_error(n, b, u, w - used, free);
    let q = free / (n - 1real);
    let m = n - 1real;
    lemma_quotient(free, m);
    assert(0real < q) by (nonlinear_arith)
        requires
            0real < q * m,
            1real <= m,
    ;
    assert(q <= q * m && q * m <= q * 4294967295real) by (nonlinear_arith)
        requires
            0real < q,
            1real <= m,
            m <= 4294967295real,
    ;
    lemma_medium(q);
    lemma_gap_error(n, b, u, free, gap);
    lemma_medium(bw + gap);
    lemma_step_error(b, g, u, bw, gap, step);
}

/// How far rounding moves the edges of a button.
#[verifier::spinoff_prover]
pub proof fn lemma_edges(width: u16, num: int, idx: int)
    requires
        plain(width, num),
        0 <= idx <= u32::MAX,
    ensures
        ({
            let i = idx as real;
            let b = exact_button(width, num);
            let s = b + exact_gap(width, num);
            let u = unit(width, num);
            let left = left_coord(width, num, idx);
            let right = right_coord(width, num, idx);
            &&& left.is_finite()
            &&& right.is_finite()
            &&& !left.is_negative()
            &&& left_edge(width, num, idx).within(-132, 8)
            &&& right_edge(width, num, idx).within(-132, 8)
            &&& right.value() == right_edge(width, num, idx).value()
            &&& left.value() == left_edge(width, num, idx).value()
            &&& within(left.value(), i * s, 16real * (i * u))
            &&& within(right.value(), i * s + b, 19real * (i * u) + 3real * u)
        }),
{
    let i = idx as real;
    let b = exact_button(width, num);
    let g = exact_gap(width, num);
    let u = unit(width, num);
    let bw = button_width(width, num).value();
    let step = button_step(width, num).value();
    let left = left_edge(width, num, idx).value();
    let right = right_edge(width, num, idx).value();
    lemma_exact(width, num);
    lemma_lengths(width, num);
    if idx == 0 {
        assert(0real * step == 0real) by (nonlinear_arith);
        assert(0real * power(0) == 0real);
        assert(0real * u == 0real && 0real * (b + g) == 0real) by (nonlinear_arith);
    } else {
        assert(b <= 2real * (i * step) && i * step <= 1152921504606846976real) by (nonlinear_arith)
            requires
                1real <= i,
                i <= 4294967295real,
                b <= 2real * step,
                step <= 262140real,
                0real < b,
        ;
        lemma_medium(i * step);
        lemma_left_error(i, b, g, u, step, left);
        assert(b <= i * (b + g) && 16real * (i * u) * 1000real <= i * (b + g) && i * (b + g)
            <= 576460752303423488real) by (nonlinear_arith)
            requires
                1real <= i,
                i <= 4294967295real,
                0real < g,
                g <= b,
                b <= 65535real,
                0real < u,
                u * 1000000000000real <= b,
        ;
    }
    lemma_medium(left + bw);
    lemma_right_error(i, b, g, u, bw, left, right);
    law_position_keeps_value(left_edge(width, num, idx));
    law_position_keeps_value(right_edge(width, num, idx));
}

/// The buttons keep their order and do not touch.
#[verifier::spinoff_prover]
pub proof fn law_buttons_keep_apart(width: u16, num: int, i: int, j: int)
    requires
        regular(width, num),
        0 <= i < j < num,
    ensures
        right_coord(width, num, i).before(left_coord(width, num, j)),
{
    let a = i as real;
    let d = j as real;
    let n = num as real;
    let b = exact_button(width, num);
    let g = exact_gap(width, num);
    let u = unit(width, num);
    lemma_exact(width, num);
    lemma_gaps(width, num);
    lemma_edges(width, num, i);
    lemma_edges(width, num, j);
    assert(a * (b + g) + (b + g) <= d * (b + g)) by (nonlinear_arith)
        requires
            a + 1real <= d,
            0real < b + g,
    ;
    assert(19real * (a * u) + 3real * u + 16real * (d * u) <= 38real * (n * u)) by (nonlinear_arith)
        requires
            a + 1real <= d,
            d + 1real <= n,
            2real <= n,
            0real < u,
    ;
    law_order_is_numeric(right_coord(width, num, i), left_coord(width, num, j));
}

/// A touch hits at most one button.
#[verifier::spinoff_prover]
pub proof fn law_touch_hits_one_button(
    width: u16,
    height: u16,
    num: int,
    i: int,
    j: int,
    x: Coord,
    y: Coord,
)
    requires
        regular(width, num) || num == 1,
        0 <= i < num,
        0 <= j < num,
        !x.is_nan(),
        spec_hit_area(num, i, width, height).contains(x, y),
        spec_hit_area(num, j, width, height).contains(x, y),
    ensures
        i == j,
{
    if i < j {
        law_buttons_keep_apart(width, num, i, j);
    } else if j < i {
        law_buttons_keep_apart(width, num, j, i);
    }
}

/// The place past the last button, where one more button would be, lies past the end of the bar.
#[verifier::spinoff_prover]
pub proof fn law_no_place_past_the_last_button(width: u16, num: int, idx: int)
    requires
        regular(width, num),
        num <= idx <= u32::MAX,
    ensures
        left_coord(width, num, idx).is_finite(),
        left_coord(width, num, idx).value() > width as real,
{
    let i = idx as real;
    let n = num as real;
    let b = exact_button(width, num);
    let g = exact_gap(width, num);
    let u = unit(width, num);
    lemma_exact(width, num);
    lemma_gaps(width, num);
    lemma_edges(width, num, idx);
    let w = width as real;
    assert(w < i * (b + g) - 16real * (i * u)) by (nonlinear_arith)
        requires
            n <= i,
            2real <= n,
            w == n * b + b,
            b == g * (n - 1real),
            38real * (n * u) < g,
            0real < u,
            0real < g,
            0real < b,
            u * 1000000000000real <= b,
    ;
}

/// A positive position, divided by a middling length, has an exponent.
#[verifier::spinoff_prover]
pub proof fn lemma_column(x: Coord, col: real)
    requires
        x.is_finite(),
        !x.is_negative(),
        x.magnitude() > 0,
        x.value() <= 131072real,
        col <= 131072real,
        1real <= col * 131072real,
    ensures
        x.value() > 0real,
        near(round(x.value() / col).value(), x.value() / col),
{
    let v = x.value();
    let q = v / col;
    let p = power(x.exponent());
    let low = power(-1074);
    let m = x.mantissa() as real;
    lemma_power_monotone(-1074, x.exponent());
    lemma_power_positive(-1074);
    assert(low <= v) by (nonlinear_arith)
        requires
            v == m * p,
            1real <= m,
            low <= p,
            0real < low,
    ;
    lemma_power_is_pow2(17);
    lemma_power_is_pow2(34);
    vstd::arithmetic::power2::lemma2_to64();
    vstd::arithmetic::power2::lemma2_to64_rest();
    lemma_power_adds(-1091, 17);
    let lower = power(-1091);
    lemma_power_positive(-1091);
    assert(q * col == v) by (nonlinear_arith)
        requires
            q == v / col,
            1real <= col * 131072real,
    ;
    assert(lower <= q) by (nonlinear_arith)
        requires
            q * col == v,
            lower * 131072real <= v,
            col <= 131072real,
            1real <= col * 131072real,
            0real < lower,
    ;
    assert(q <= 17179869184real) by (nonlinear_arith)
        requires
            q * col == v,
            v <= 131072real,
            1real <= col * 131072real,
    ;
    lemma_ordinary(q, -1091, 34);
    law_round_error(q);
}

/// The number of columns up to a place, where the length of a column is rounded.
#[verifier::spinoff_prover]
proof fn lemma_columns(x: real, col: real, exact: real)
    requires
        0real <= x,
        near(col, exact),
        0real < exact,
    ensures
        0real < col,
        (x / col) * col == x,
        x / col >= 0real,
{
    let c = scale();
    let v = distance(exact, col);
    assert(v < exact) by (nonlinear_arith)
        requires
            v * c <= exact,
            0real < exact,
            c >= 2real,
    ;
    let q = x / col;
    lemma_quotient(x, col);
    assert(q >= 0real) by (nonlinear_arith)
        requires
            0real <= q * col,
            0real < col,
    ;
}

/// A quotient that is clearly not below `i` is not below it after rounding.
#[verifier::spinoff_prover]
pub proof fn lemma_stays_above(x: real, col: real, exact: real, i: real, low: real, margin: real)
    requires
        0real <= x,
        near(col, exact),
        0real < exact,
        near(round(x / col).value(), x / col),
        0real <= i,
        low <= x,
        i * exact + margin <= low,
        low + i * exact <= margin * scale(),
    ensures
        i <= round(x / col).value(),
{
    let c = scale();
    let q = x / col;
    let r = round(q).value();
    lemma_columns(x, col, exact);
    if r < i {
        lemma_near_both_ways(r, q);
        lemma_near_both_ways(col, exact);
        assert(q * (c - 1real) < i * c) by (nonlinear_arith)
            requires
                (q - r) * c <= q,
                r < i,
                c > 0real,
        ;
        assert(x * (c - 1real) < (i * col) * c) by (nonlinear_arith)
            requires
                q * (c - 1real) < i * c,
                q * col == x,
                col > 0real,
        ;
        assert((i * col) * c <= (i * exact) * (c + 1real)) by (nonlinear_arith)
            requires
                (col - exact) * c <= exact,
                0real <= i,
        ;
        assert(low * (c - 1real) <= x * (c - 1real)) by (nonlinear_arith)
            requires
                low <= x,
                c >= 1real,
        ;
        let e = i * exact;
        assert(e * (c + 1real) <= low * (c - 1real)) by (nonlinear_arith)
            requires
                e + margin <= low,
                low + e <= margin * c,
                c > 0real,
        ;
    }
}

/// A quotient that is clearly below `k` is below it after rounding.
#[verifier::spinoff_prover]
pub proof fn lemma_stays_below(x: real, col: real, exact: real, k: real, high: real, margin: real)
    requires
        0real <= x,
        near(col, exact),
        0real < exact,
        near(round(x / col).value(), x / col),
        0real <= k,
        x <= high,
        high + margin <= k * exact,
        high + k * exact < margin * scale(),
    ensures
        round(x / col).value() < k,
{
    let c = scale();
    let q = x / col;
    let r = round(q).value();
    lemma_columns(x, col, exact);
    if k <= r {
        lemma_near_both_ways(r, q);
        lemma_near_both_ways(col, exact);
        assert(k * c <= q * (c + 1real)) by (nonlinear_arith)
            requires
                (r - q) * c <= q,
                k <= r,
                c > 0real,
        ;
        assert((k * col) * c <= x * (c + 1real)) by (nonlinear_arith)
            requires
                k * c <= q * (c + 1real),
                q * col == x,
                col > 0real,
        ;
        assert((k * exact) * (c - 1real) <= (k * col) * c) by (nonlinear_arith)
            requires
                (exact - col) * c <= exact,
                0real <= k,
        ;
        assert(x * (c + 1real) <= high * (c + 1real)) by (nonlinear_arith)
            requires
                x <= high,
                c >= 1real,
        ;
        let e = k * exact;
        assert(high * (c + 1real) < e * (c - 1real)) by (nonlinear_arith)
            requires
                high + margin <= e,
                high + e < margin * c,
                c > 0real,
        ;
    }
}

/// A touch that hits a button finds it, unless it lies on the far edge of the last button, where
/// the last column may have ended.
#[verifier::spinoff_prover]
pub proof fn law_hit_button_is_found(
    width: u16,
    height: u16,
    num: int,
    idx: int,
    x: Coord,
    y: Coord,
)
    requires
        regular(width, num),
        0 <= idx < num,
        !x.is_nan(),
        spec_hit_area(num, idx, width, height).contains(x, y),
    ensures
        spec_button_index(x, width, num) == idx || (idx == num - 1 && spec_button_index(
            x,
            width,
            num,
        ) == num),
{
    let w = width as real;
    let n = num as real;
    let i = idx as real;
    let b = exact_button(width, num);
    let g = exact_gap(width, num);
    let u = unit(width, num);
    let c = scale();
    let s = b + g;
    let left = left_coord(width, num, idx);
    let right = right_coord(width, num, idx);
    lemma_exact(width, num);
    lemma_gaps(width, num);
    lemma_edges(width, num, idx);
    if x.magnitude() == INFINITY {
        assert(x.before(left) || right.before(x));
    }
    law_order_is_numeric(x, left);
    law_order_is_numeric(right, x);
    law_order_is_numeric(x, Coord { bits: 0 });
    let v = x.value();
    let exact = w / n;
    let col = column_width(width, num).value();
    assert(exact * n == w && b <= exact && exact <= 2real * b && exact * n == n * s - g)
        by (nonlinear_arith)
        requires
            exact == w / n,
            2real <= n,
            w == n * b + b,
            s == b + g,
            b == g * (n - 1real),
            0real < b,
    ;
    lemma_medium(exact);
    assert(0real <= i * u && i * u + u <= n * u) by (nonlinear_arith)
        requires
            0real <= i,
            i + 1real <= n,
            0real < u,
    ;
    assert(i * s + s <= n * s) by (nonlinear_arith)
        requires
            i + 1real <= n,
            0real < s,
    ;
    if x.magnitude() > 0 {
        lemma_rounding_moves(col, exact, 2real, u);
        lemma_column(x, col);
        let q = round(v / col).value();
        let low = i * s - 16real * (i * u);
        let below = i * exact;
        assert(38real * u <= g / n && s == exact + g / n) by (nonlinear_arith)
            requires
                38real * (n * u) < g,
                exact * n == n * s - g,
                2real <= n,
        ;
        let share = g / n;
        assert(share * n == g) by (nonlinear_arith)
            requires
                share == g / n,
                2real <= n,
        ;
        assert(below + 20real * (i * u) <= low && low + below <= 4real * (i * u) * c)
            by (nonlinear_arith)
            requires
                below == i * exact,
                low == i * s - 16real * (i * u),
                s == exact + share,
                38real * u <= share,
                0real <= i,
                s <= 2real * (u * c),
                exact <= 2real * (u * c),
                0real < u,
        ;
        lemma_stays_above(v, col, exact, i, low, 4real * (i * u));
        let high = i * s + b + (19real * (i * u) + 3real * u);
        if idx == num - 1 {
            let margin = b - 19real * (n * u);
            let above = (n + 1real) * exact;
            assert(above == w + exact) by (nonlinear_arith)
                requires
                    above == (n + 1real) * exact,
                    exact * n == w,
            ;
            assert(i * s + b == w) by (nonlinear_arith)
                requires
                    i == n - 1real,
                    s == b + g,
                    b == g * (n - 1real),
                    w == n * b + b,
            ;
            assert(w <= 65536real * b && n * u <= 65535real * u) by (nonlinear_arith)
                requires
                    w == n * b + b,
                    n <= 65535real,
                    0real < b,
                    0real < u,
            ;
            assert(2000000real * b <= margin * c) by (nonlinear_arith)
                requires
                    margin >= b - 1245165real * u,
                    b == u * c,
                    c == 9007199254740992real,
                    0real < u,
            ;
            lemma_stays_below(v, col, exact, n + 1real, high, margin);
        } else {
            let k = i + 1real;
            let margin = 5real * (k * u);
            let above = k * exact;
            let pairs = n * (n - 1real);
            assert(pairs <= 65535real * 65535real) by (nonlinear_arith)
                requires
                    pairs == n * (n - 1real),
                    2real <= n,
                    n <= 65535real,
            ;
            assert(n * pairs <= 65535real * (65535real * 65535real) && 1real <= pairs)
                by (nonlinear_arith)
                requires
                    pairs == n * (n - 1real),
                    pairs <= 65535real * 65535real,
                    2real <= n,
                    n <= 65535real,
            ;
            assert(share * pairs == b) by (nonlinear_arith)
                requires
                    pairs == n * (n - 1real),
                    share * n == g,
                    b == g * (n - 1real),
            ;
            assert(24real * (n * u) * pairs <= u * c) by (nonlinear_arith)
                requires
                    24real * (n * pairs) <= c,
                    0real < u,
            ;
            assert(24real * (n * u) <= share) by (nonlinear_arith)
                requires
                    24real * (n * u) * pairs <= share * pairs,
                    1real <= pairs,
            ;
            assert(high + share - (19real * (i * u) + 3real * u) <= above) by (nonlinear_arith)
                requires
                    high == i * s + b + (19real * (i * u) + 3real * u),
                    above == k * exact,
                    k == i + 1real,
                    s == exact + share,
                    share * n == g,
                    s == b + g,
                    i + 2real <= n,
                    0real <= share,
            ;
            assert(k * u == i * u + u) by (nonlinear_arith)
                requires
                    k == i + 1real,
            ;
            assert(high + above < margin * c) by (nonlinear_arith)
                requires
                    high == i * s + b + (19real * (i * u) + 3real * u),
                    above == k * exact,
                    margin == 5real * (k * u),
                    k == i + 1real,
                    s <= 2real * (u * c),
                    b == u * c,
                    exact <= 2real * (u * c),
                    0real <= i,
                    0real < u,
                    c == 9007199254740992real,
            ;
            lemma_stays_below(v, col, exact, k, high, margin);
        }
        let p = power(column_width(width, num).exponent as int);
        assert(0real * p == 0real) by (nonlinear_arith);
        assert(idx <= q.floor() <= num);
    } else if idx > 0 {
        assert(16real * (i * u) < i * s) by (nonlinear_arith)
            requires
                1real <= i,
                16real * u < s,
        ;
        let p = power(-1074);
        assert(0real * p == 0real) by (nonlinear_arith);
        assert(v == 0real);
    }
}

/// A finger that comes down on the bar is always answered: no place past the last button is hit.
#[verifier::spinoff_prover]
pub proof fn law_touch_on_the_bar_is_answered(bar: BarView, slot: u32, x: Coord, y: Coord)
    requires
        bar.wf(),
        bar.layers[bar.active_layer].len() <= u16::MAX,
        x.is_nan() || (x.is_finite() && x.value() <= bar.width as real),
    ensures
        bar.on_bar(TouchEvent::Down { slot, x, y }),
{
    let num = bar.layers[bar.active_layer].len() as int;
    let idx = bar.candidate(x);
    let zero = Coord { bits: 0 };
    let p = power(-1074);
    assert(0real * p == 0real) by (nonlinear_arith);
    if num <= idx {
        law_order_is_numeric(zero, x);
        if num > 1 {
            let left = left_coord(bar.width, num, idx);
            law_no_place_past_the_last_button(bar.width, num, idx);
            law_order_is_numeric(x, left);
        }
    }
}

/// A finger that comes down on a button presses it, whichever button it is; on the last button
/// this holds up to where the last column ends.
#[verifier::spinoff_prover]
pub proof fn law_touched_button_is_pressed(bar: BarView, slot: u32, btn: int, x: Coord, y: Coord)
    requires
        bar.wf(),
        bar.has_button(bar.active_layer, btn),
        regular(bar.width, bar.layers[bar.active_layer].len() as int)
            || bar.layers[bar.active_layer].len() == 1,
        !x.is_nan(),
        bar.hits(bar.active_layer, btn, x, y),
        bar.candidate(x) < bar.layers[bar.active_layer].len(),
    ensures
        ({
            let touch = TouchEvent::Down { slot, x, y };
            let after = bar.after_touch(touch);
            &&& after.button(bar.active_layer, btn) == bar.button(bar.active_layer, btn).with_active(
                true,
            )
            &&& after.touches[slot] == (bar.active_layer as usize, btn as u32)
            &&& bar.touch_output(touch) == bar.button(bar.active_layer, btn).toggle_events(true)
        }),
{
    let num = bar.layers[bar.active_layer].len() as int;
    if num > 1 {
        law_hit_button_is_found(bar.width, bar.height, num, btn, x, y);
    }
}

/// On a bar without a length everything has the length zero.
#[verifier::spinoff_prover]
pub proof fn lemma_no_length(num: int, idx: int)
    requires
        2 <= num,
    ensures
        left_edge(0, num, idx) == zero(),
        button_width(0, num) == zero(),
        zero().value() == 0real,
{
    let n = num as real;
    let m = (num - 1) as real;
    let i = idx as real;
    assert(0real / (num + 1) as real == 0real) by (nonlinear_arith)
        requires
            2 <= num,
    ;
    assert(0real * power(0) == 0real);
    assert(n * 0real == 0real && 0real / m == 0real && i * 0real == 0real) by (nonlinear_arith)
        requires
            m >= 1real,
    ;
}

/// A button of at least two lies on the bar.
#[verifier::spinoff_prover]
pub proof fn lemma_on_bar(width: u16, num: int, idx: int)
    requires
        2 <= num < u32::MAX,
        0 <= idx < num,
    ensures
        ({
            let left = left_edge(width, num, idx);
            let length = button_width(width, num);
            &&& left.within(-132, 8)
            &&& length.within(-132, 8)
            &&& right_edge(width, num, idx).within(-132, 8)
            &&& 0real <= left.value()
            &&& 0real <= length.value()
            &&& left.value() + length.value() < width as real + 1real
            &&& if width == 0 {
                left.value() == 0real && length.value() == 0real
            } else {
                1real <= length.value() * 8589934592real
            }
        }),
{
    let w = width as real;
    let left = left_edge(width, num, idx).value();
    let length = button_width(width, num).value();
    if width == 0 {
        lemma_no_length(num, idx);
        assert(right_edge(0, num, idx) == zero());
    } else {
        let n = num as real;
        let i = idx as real;
        let b = exact_button(width, num);
        let g = exact_gap(width, num);
        let u = unit(width, num);
        lemma_exact(width, num);
        lemma_lengths(width, num);
        lemma_edges(width, num, idx);
        lemma_medium(b);
        assert(i * (b + g) + b <= w) by (nonlinear_arith)
            requires
                i + 1real <= n,
                w == n * b + b,
                b == g * (n - 1real),
                0real < b,
                0real < g,
        ;
        assert(i * u <= n * u && n * u * 1000000000000real <= n * b) by (nonlinear_arith)
            requires
                i <= n,
                0real < u,
                u * 1000000000000real <= b,
                0real < n,
        ;
        assert(16real * (i * u) <= i * (b + g)) by (nonlinear_arith)
            requires
                0real <= i,
                16real * u <= b + g,
        ;
    }
}

/// The last pixel of a button lies on the bar.
#[verifier::spinoff_prover]
proof fn lemma_length(width: u16, height: u16, num: int, idx: int)
    requires
        1 <= num < u32::MAX,
        0 <= idx < num,
    ensures
        ({
            let pixels = spec_pixel_box(num, idx, width, height);
            pixels.left + pixels.length <= width
        }),
{
    let w = width as real;
    let length = button_width(width, num).value();
    if num == 1 {
        lemma_medium(w / 2real);
        lemma_small_error(length, w / 2real, w);
    } else {
        let left = left_edge(width, num, idx).value();
        lemma_on_bar(width, num, idx);
        assert(0 <= left.floor() && 0 <= length.floor());
        assert(left.floor() + length.floor() <= width);
    }
}

/// What has to be drawn of a layer can be drawn exactly on a bar that leaves room for the
/// backgrounds of the buttons.
#[verifier::spinoff_prover]
pub proof fn law_bar_can_be_drawn(
    buttons: Seq<ButtonView>,
    height: u16,
    width: u16,
    complete_redraw: bool,
)
    requires
        layer_wf(buttons),
    ensures
        drawable(buttons, height, width, complete_redraw) <==> height >= DRAWABLE_HEIGHT || forall|
            i: int,
        |
            0 <= i < buttons.len() ==> !#[trigger] due(buttons, complete_redraw, i),
{
    lemma_share(height, 15);
    lemma_share(height, 85);
    let lower = height_share(height, 15).value();
    let upper = height_share(height, 85).value();
    assert forall|i: int| 0 <= i < buttons.len() implies (clip_exists(
        #[trigger] spec_pixel_box(buttons.len() as int, i, width, height),
        height,
    ) <==> height >= DRAWABLE_HEIGHT) by {
        lemma_length(width, height, buttons.len() as int, i);
        if height >= DRAWABLE_HEIGHT {
            assert(7 <= lower.floor() && 0 <= upper.floor() <= height - 8);
            assert(height >= FLATTEST ==> 8 <= lower.floor());
            assert(lower.floor() <= height);
        } else {
            assert(upper.floor() > height - 8);
        }
    }
    if height < DRAWABLE_HEIGHT && drawable(buttons, height, width, complete_redraw) {
        assert forall|i: int| 0 <= i < buttons.len() implies !#[trigger] due(
            buttons,
            complete_redraw,
            i,
        ) by {
            let pixels = spec_pixel_box(buttons.len() as int, i, width, height);
        }
    }
}

/// What is drawn on a bar that is not too flat lies on the bar.
#[verifier::spinoff_prover]
pub proof fn law_drawn_clips_lie_on_the_bar(
    buttons: Seq<ButtonView>,
    height: u16,
    width: u16,
    complete_redraw: bool,
    k: int,
)
    requires
        layer_wf(buttons),
        height >= FLATTEST,
        0 <= k < drawn_clips(buttons, height, width, complete_redraw).len(),
    ensures
        ({
            let clip = drawn_clips(buttons, height, width, complete_redraw)[k];
            &&& clip.x1 < clip.x2 <= height
            &&& clip.y1 <= clip.y2 <= width
        }),
{
    if !complete_redraw {
        let order = Seq::new(buttons.len(), |i: int| i);
        let pred = |i: int| due(buttons, complete_redraw, i);
        let i = due_indices(buttons, complete_redraw)[k];
        assert(order.filter(pred).contains(i));
        order.lemma_filter_contains_rev(pred, i);
        lemma_share(height, 15);
        lemma_share(height, 85);
        lemma_length(width, height, buttons.len() as int, i);
        let lower = height_share(height, 15).value();
        let upper = height_share(height, 85).value();
        assert(8 <= lower.floor() < upper.floor() <= height - 8);
    }
}

/// What is drawn on a bar that is not too flat can be copied into every framebuffer that holds
/// the bar.
#[verifier::spinoff_prover]
pub proof fn law_drawn_clips_fit_the_framebuffer(
    buttons: Seq<ButtonView>,
    height: u16,
    width: u16,
    complete_redraw: bool,
    k: int,
    pitch: u32,
    cpp: u32,
    len: int,
)
    requires
        layer_wf(buttons),
        height >= FLATTEST,
        0 <= k < drawn_clips(buttons, height, width, complete_redraw).len(),
        pixel_offset(height as int, width - 1, pitch, cpp) <= len,
    ensures
        clip_fits(drawn_clips(buttons, height, width, complete_redraw)[k], pitch, cpp, len),
{
    let clip = drawn_clips(buttons, height, width, complete_redraw)[k];
    law_drawn_clips_lie_on_the_bar(buttons, height, width, complete_redraw, k);
    lemma_offset_monotone(
        clip.x2 as int,
        clip.y2 - 1,
        height as int,
        width - 1,
        pitch,
        cpp,
    );
}

/// The layout is mirrored along the bar and across it, up to rounding: a button begins as far from
/// one end of the bar as its counterpart ends from the other, and its area lies as far from one
/// edge as from the other.
#[verifier::spinoff_prover]
pub proof fn law_layout_is_mirrored(width: u16, height: u16, num: int, idx: int)
    requires
        2 <= num < u32::MAX,
        0 <= idx < num,
    ensures
        ({
            let area = spec_hit_area(num, idx, width, height);
            let mirrored = spec_hit_area(num, num - 1 - idx, width, height);
            &&& area.left.is_finite()
            &&& area.right.is_finite()
            &&& area.low.is_finite()
            &&& area.high.is_finite()
            &&& within(
                mirrored.left.value() + area.right.value(),
                width as real,
                19real * (num as real * unit(width, num)),
            )
            &&& within(
                mirrored.right.value() + area.left.value(),
                width as real,
                19real * (num as real * unit(width, num)),
            )
            &&& within(
                area.low.value() + area.high.value(),
                height as real,
                1real / 2000000real,
            )
        }),
{
    lemma_share(height, 9);
    lemma_share(height, 91);
    law_position_keeps_value(height_share(height, 9));
    law_position_keeps_value(height_share(height, 91));
    lemma_mirrored(width, num, idx);
    lemma_mirrored(width, num, num - 1 - idx);
}

/// A button begins as far from one end of the bar as its counterpart ends from the other.
#[verifier::spinoff_prover]
proof fn lemma_mirrored(width: u16, num: int, idx: int)
    requires
        2 <= num < u32::MAX,
        0 <= idx < num,
    ensures
        left_coord(width, num, num - 1 - idx).is_finite(),
        right_coord(width, num, idx).is_finite(),
        within(
            left_coord(width, num, num - 1 - idx).value() + right_coord(width, num, idx).value(),
            width as real,
            19real * (num as real * unit(width, num)),
        ),
{
    let n = num as real;
    let i = idx as real;
    let j = (num - 1 - idx) as real;
    let b = exact_button(width, num);
    let g = exact_gap(width, num);
    let u = unit(width, num);
    if width == 0 {
        lemma_no_length(num, idx);
        lemma_no_length(num, num - 1 - idx);
        law_position_keeps_value(zero());
        lemma_is_quotient(0real, n + 1real, 0real);
        lemma_is_quotient(0real, scale(), 0real);
        assert(n * 0real == 0real) by (nonlinear_arith);
    } else {
        lemma_exact(width, num);
        lemma_edges(width, num, idx);
        lemma_edges(width, num, num - 1 - idx);
        assert(i * (b + g) + j * (b + g) + b == n * b + b) by (nonlinear_arith)
            requires
                i + j == n - 1real,
                b == g * (n - 1real),
        ;
        assert(16real * (j * u) + 19real * (i * u) + 3real * u <= 19real * (n * u))
            by (nonlinear_arith)
            requires
                i + j == n - 1real,
                0real <= j,
                0real < u,
        ;
    }
}

/// Whether a place is further than `k` from another.
pub open spec fn clear_of(place: real, edge: real, k: real) -> bool {
    !within(place, edge, k)
}

/// A touch hits a button exactly if its mirror image hits the counterpart of the button, along the
/// bar, or the button itself, across it. The mirror images may be off by `k`; touches that lie no
/// further than that and a rounding from an edge of the button are left out.
#[verifier::spinoff_prover]
pub proof fn law_mirrored_touch_hits_the_counterpart(
    width: u16,
    height: u16,
    num: int,
    idx: int,
    x: Coord,
    y: Coord,
    mirror_x: Coord,
    mirror_y: Coord,
    k: real,
)
    requires
        2 <= num < u32::MAX,
        0 <= idx < num,
        x.is_finite(),
        y.is_finite(),
        mirror_x.is_finite(),
        mirror_y.is_finite(),
        within(mirror_x.value(), width as real - x.value(), k),
        within(mirror_y.value(), height as real - y.value(), k),
        ({
            let area = spec_hit_area(num, idx, width, height);
            let along = k + 19real * (num as real * unit(width, num));
            let across = k + 1real / 2000000real;
            &&& clear_of(x.value(), area.left.value(), along)
            &&& clear_of(x.value(), area.right.value(), along)
            &&& clear_of(y.value(), area.low.value(), across)
            &&& clear_of(y.value(), area.high.value(), across)
        }),
    ensures
        ({
            let area = spec_hit_area(num, idx, width, height);
            let counterpart = spec_hit_area(num, num - 1 - idx, width, height);
            &&& area.contains(x, y) <==> counterpart.contains(mirror_x, y)
            &&& area.contains(x, y) <==> area.contains(x, mirror_y)
            &&& area.contains(x, y) <==> counterpart.contains(mirror_x, mirror_y)
        }),
{
    let area = spec_hit_area(num, idx, width, height);
    let counterpart = spec_hit_area(num, num - 1 - idx, width, height);
    law_layout_is_mirrored(width, height, num, idx);
    law_layout_is_mirrored(width, height, num, num - 1 - idx);
    law_order_is_numeric(x, area.left);
    law_order_is_numeric(area.right, x);
    law_order_is_numeric(mirror_x, counterpart.left);
    law_order_is_numeric(counterpart.right, mirror_x);
    law_order_is_numeric(area.low, y);
    law_order_is_numeric(y, area.high);
    law_order_is_numeric(area.low, mirror_y);
    law_order_is_numeric(mirror_y, area.high);
}

} // verus!
