use vstd::prelude::*;

verus! {

/// Fixed-point scale: one world unit is `UNIT` steps of position or velocity.
pub const UNIT: i64 = 1000;

/// Downward change of velocity per tick for bodies under gravity.
pub const GRAVITY: i64 = 100;

/// Largest speed a body keeps after a tick, per tick (5 units).
pub const TERMINAL_SPEED: i64 = 5000;

/// A 2D vector in fixed point (`UNIT` per world unit).
#[derive(Debug, Clone, Copy, PartialEq, Eq, Structural)]
pub struct Vec2 {
    pub x: i64,
    pub y: i64,
}

/// Handle of a body: its slot in `Bodies`. Slots are never reused.
#[derive(Debug, Clone, Copy, PartialEq, Eq, Structural)]
pub struct EntityId(pub usize);

/// A requested change of a body's velocity: added to it, or replacing it
/// where `absolute` is set. `source` tags the producer.
#[derive(Debug, Clone, Copy, PartialEq, Eq, Structural)]
pub struct Impulse {
    pub target: EntityId,
    pub amount: Vec2,
    pub absolute: bool,
    pub source: i32,
}

/// The physics record of one entity.
#[derive(Debug, Clone, Copy, PartialEq, Eq, Structural)]
pub struct Body {
    pub position: Vec2,
    pub velocity: Vec2,
    pub gravity: bool,
}

/// The arena of bodies; a despawned body leaves an empty slot.
pub struct Bodies {
    pub slots: Vec<Option<Body>>,
}

/// `v` brought into the range of `i64`.
pub open spec fn saturate(v: int) -> i64 {
    if v > i64::MAX {
        i64::MAX
    } else if v < i64::MIN {
        i64::MIN
    } else {
        v as i64
    }
}

pub open spec fn contrib_x(e: Impulse, id: EntityId) -> int {
    if e.target == id && !e.absolute { e.amount.x as int } else { 0 }
}

pub open spec fn contrib_y(e: Impulse, id: EntityId) -> int {
    if e.target == id && !e.absolute { e.amount.y as int } else { 0 }
}

/// Sum of the `x` amounts of the additive impulses in `s` aimed at `id`.
pub open spec fn delta_x(s: Seq<Impulse>, id: EntityId) -> int
    decreases s.len(),
{
    if s.len() == 0 { 0 } else { delta_x(s.drop_last(), id) + contrib_x(s.last(), id) }
}

/// Sum of the `y` amounts of the additive impulses in `s` aimed at `id`.
pub open spec fn delta_y(s: Seq<Impulse>, id: EntityId) -> int
    decreases s.len(),
{
    if s.len() == 0 { 0 } else { delta_y(s.drop_last(), id) + contrib_y(s.last(), id) }
}

/// The amount of the last absolute impulse in `s` aimed at `id`.
pub open spec fn last_absolute(s: Seq<Impulse>, id: EntityId) -> Option<Vec2>
    decreases s.len(),
{
    if s.len() == 0 {
        None
    } else if s.last().target == id && s.last().absolute {
        Some(s.last().amount)
    } else {
        last_absolute(s.drop_last(), id)
    }
}

/// Velocity of body `id` after the tick's impulses `s`: the last absolute
/// amount where there is one, else `v` plus the additive sum.
pub open spec fn impulsed(v: Vec2, s: Seq<Impulse>, id: EntityId) -> Vec2 {
    match last_absolute(s, id) {
        Some(a) => a,
        None => Vec2 { x: saturate(v.x + delta_x(s, id)), y: saturate(v.y + delta_y(s, id)) },
    }
}

/// Velocity after one tick of gravity.
pub open spec fn gravitated(b: Body) -> Vec2 {
    if b.gravity {
        Vec2 { x: b.velocity.x, y: saturate(b.velocity.y - GRAVITY) }
    } else {
        b.velocity
    }
}

/// Position after moving for one tick at velocity `v`.
pub open spec fn moved(p: Vec2, v: Vec2) -> Vec2 {
    Vec2 { x: saturate(p.x + v.x), y: saturate(p.y + v.y) }
}

/// Squared length of `v`.
pub open spec fn speed_sq(v: Vec2) -> int {
    v.x * v.x + v.y * v.y
}

/// `r` is the least integer whose square reaches `n`.
pub open spec fn is_ceil_root(n: int, r: int) -> bool {
    r >= 0 && (r - 1) * (r - 1) < n <= r * r
}

/// The least integer whose square reaches `n`.
pub open spec fn ceil_root(n: int) -> int {
    choose|r: int| is_ceil_root(n, r)
}

/// `a / d` rounded towards zero.
pub open spec fn div_toward_zero(a: int, d: int) -> int {
    if a >= 0 { a / d } else { -((-a) / d) }
}

/// Velocity after the terminal-speed clamp: above `TERMINAL_SPEED`, each
/// component is scaled by `TERMINAL_SPEED / ceil_root(speed²)`, rounded
/// towards zero; otherwise unchanged.
pub open spec fn clamped(v: Vec2) -> Vec2 {
    if speed_sq(v) > TERMINAL_SPEED * TERMINAL_SPEED {
        let r = ceil_root(speed_sq(v));
        Vec2 {
            x: div_toward_zero(v.x * TERMINAL_SPEED, r) as i64,
            y: div_toward_zero(v.y * TERMINAL_SPEED, r) as i64,
        }
    } else {
        v
    }
}

/// A body after one full tick: impulses, gravity, integration, clamp.
pub open spec fn ticked(b: Body, s: Seq<Impulse>, id: EntityId) -> Body {
    let b1 = Body { velocity: impulsed(b.velocity, s, id), ..b };
    let v2 = gravitated(b1);
    Body { position: moved(b.position, v2), velocity: clamped(v2), gravity: b.gravity }
}

const I64_SPAN: i128 = 0x8000_0000_0000_0000;

proof fn lemma_delta_bounds(s: Seq<Impulse>, id: EntityId)
    ensures
        -(s.len() * I64_SPAN) <= delta_x(s, id) <= s.len() * I64_SPAN,
        -(s.len() * I64_SPAN) <= delta_y(s, id) <= s.len() * I64_SPAN,
    decreases s.len(),
{
    if s.len() > 0 {
        lemma_delta_bounds(s.drop_last(), id);
    }
}

/// Brings an `i128` into the range of `i64`.
fn saturate_i128(v: i128) -> (r: i64)
    ensures
        r == saturate(v as int),
{
    if v > i64::MAX as i128 {
        i64::MAX
    } else if v < i64::MIN as i128 {
        i64::MIN
    } else {
        v as i64
    }
}

/// The additive sums and the last absolute amount of the impulses aimed at `id`.
fn net_impulse(impulses: &Vec<Impulse>, id: EntityId) -> (r: (i128, i128, Option<Vec2>))
    ensures
        r.0 == delta_x(impulses@, id),
        r.1 == delta_y(impulses@, id),
        r.2 == last_absolute(impulses@, id),
{
    let mut dx: i128 = 0;
    let mut dy: i128 = 0;
    let mut abs: Option<Vec2> = None;
    let mut j: usize = 0;
    while j < impulses.len()
        invariant
            j <= impulses@.len(),
            dx == delta_x(impulses@.take(j as int), id),
            dy == delta_y(impulses@.take(j as int), id),
            abs == last_absolute(impulses@.take(j as int), id),
        decreases impulses@.len() - j,
    {
        let e = impulses[j];
        let ghost next = impulses@.take(j + 1);
        proof {
            assert(next.drop_last() =~= impulses@.take(j as int));
            assert(next.last() == e);
            lemma_delta_bounds(next, id);
            assert(next.len() <= usize::MAX);
        }
        if e.target.0 == id.0 {
            if e.absolute {
                abs = Some(e.amount);
            } else {
                dx = dx + e.amount.x as i128;
                dy = dy + e.amount.y as i128;
            }
        }
        j = j + 1;
    }
    assert(impulses@.take(impulses@.len() as int) =~= impulses@);
    (dx, dy, abs)
}

proof fn lemma_square_monotonic(a: int, b: int)
    requires
        0 <= a <= b,
    ensures
        a * a <= b * b,
{
    assert(a * a <= b * b) by (nonlinear_arith)
        requires 0 <= a <= b;
}

proof fn lemma_ceil_root_unique(n: int, r1: int, r2: int)
    requires
        is_ceil_root(n, r1),
        is_ceil_root(n, r2),
    ensures
        r1 == r2,
{
    if r1 < r2 {
        lemma_square_monotonic(r1, r2 - 1);
    } else if r2 < r1 {
        lemma_square_monotonic(r2, r1 - 1);
    }
}

/// The least integer whose square reaches `n`, found by bisection.
fn ceil_sqrt(n: u128) -> (r: u128)
    requires
        0 < n <= 0x8000_0000_0000_0000_0000_0000_0000_0000u128,
    ensures
        is_ceil_root(n as int, r as int),
        r as int == ceil_root(n as int),
{
    let mut lo: u128 = 0;
    let mut hi: u128 = 0xffff_ffff_ffff_ffff;
    assert(0x8000_0000_0000_0000_0000_0000_0000_0000int <= 0xffff_ffff_ffff_ffffint * 0xffff_ffff_ffff_ffffint);
    while hi - lo > 1
        invariant
            lo < hi <= 0xffff_ffff_ffff_ffff,
            lo * lo < n <= hi * hi,
        decreases hi - lo,
    {
        let mid = lo + (hi - lo) / 2;
        proof {
            lemma_square_monotonic(mid as int, 0xffff_ffff_ffff_ffff);
        }
        if mid * mid >= n {
            hi = mid;
        } else {
            lo = mid;
        }
    }
    proof {
        assert(is_ceil_root(n as int, hi as int));
        lemma_ceil_root_unique(n as int, hi as int, ceil_root(n as int));
    }
    hi
}

/// The terminal-speed clamp of one velocity.
fn clamp_velocity(v: Vec2) -> (r: Vec2)
    ensures
        r == clamped(v),
{
    let ax: u128 = if v.x < 0 { (-(v.x as i128)) as u128 } else { v.x as u128 };
    let ay: u128 = if v.y < 0 { (-(v.y as i128)) as u128 } else { v.y as u128 };
    proof {
        lemma_square_monotonic(ax as int, 0x8000_0000_0000_0000);
        lemma_square_monotonic(ay as int, 0x8000_0000_0000_0000);
        assert(ax * ax == v.x * v.x) by (nonlinear_arith)
            requires ax == v.x || ax == -v.x;
        assert(ay * ay == v.y * v.y) by (nonlinear_arith)
            requires ay == v.y || ay == -v.y;
    }
    let n = ax * ax + ay * ay;
    let cap = TERMINAL_SPEED as u128;
    if n > cap * cap {
        let r = ceil_sqrt(n);
        proof {
            // each component is at most the length, so the scaled one is at most the cap
            if r <= cap {
                lemma_square_monotonic(r as int, cap as int);
            }
            assert((r + 1) * (r + 1) == r * r + 2 * r + 1) by (nonlinear_arith);
            if ax > r {
                lemma_square_monotonic(r + 1, ax as int);
            }
            if ay > r {
                lemma_square_monotonic(r + 1, ay as int);
            }
            assert((ax * cap) / (r as int) <= cap) by (nonlinear_arith)
                requires ax <= r, r > 0, cap > 0;
            assert((ay * cap) / (r as int) <= cap) by (nonlinear_arith)
                requires ay <= r, r > 0, cap > 0;
            assert(ax * cap <= 0x8000_0000_0000_0000 * 5000) by (nonlinear_arith)
                requires ax <= 0x8000_0000_0000_0000, cap == 5000;
            assert(ay * cap <= 0x8000_0000_0000_0000 * 5000) by (nonlinear_arith)
                requires ay <= 0x8000_0000_0000_0000, cap == 5000;
        }
        let sx = (ax * cap / r) as i64;
        let sy = (ay * cap / r) as i64;
        proof {
            assert(v.x * TERMINAL_SPEED == if v.x < 0 { -(ax * cap) } else { ax * cap }) by (nonlinear_arith)
                requires ax == (if v.x < 0 { -v.x } else { v.x as int }), cap == TERMINAL_SPEED;
            assert(v.y * TERMINAL_SPEED == if v.y < 0 { -(ay * cap) } else { ay * cap }) by (nonlinear_arith)
                requires ay == (if v.y < 0 { -v.y } else { v.y as int }), cap == TERMINAL_SPEED;
        }
        Vec2 { x: if v.x < 0 { -sx } else { sx }, y: if v.y < 0 { -sy } else { sy } }
    } else {
        v
    }
}

/// Taking impulse `k` out of a tick takes exactly its own part out of the sums.
proof fn lemma_delta_remove(s: Seq<Impulse>, k: int, id: EntityId)
    requires
        0 <= k < s.len(),
    ensures
        delta_x(s, id) == delta_x(s.remove(k), id) + contrib_x(s[k], id),
        delta_y(s, id) == delta_y(s.remove(k), id) + contrib_y(s[k], id),
    decreases s.len(),
{
    if k == s.len() - 1 {
        assert(s.remove(k) =~= s.drop_last());
    } else {
        lemma_delta_remove(s.drop_last(), k, id);
        assert(s.remove(k).drop_last() =~= s.drop_last().remove(k));
        assert(s.remove(k).last() == s.last());
    }
}

/// A tick whose impulses for `id` are all additive has no absolute amount for it.
proof fn lemma_no_absolute(s: Seq<Impulse>, id: EntityId)
    requires
        forall|j: int| 0 <= j < s.len() ==> !(#[trigger] s[j]).absolute,
    ensures
        last_absolute(s, id) == None::<Vec2>,
    decreases s.len(),
{
    if s.len() > 0 {
        assert(!s[s.len() - 1].absolute);
        lemma_no_absolute(s.drop_last(), id);
    }
}

/// The order in which a tick's impulses were enqueued does not change the
/// sums aimed at a body; where they are all additive, it does not change
/// the body's new velocity either.
pub proof fn lemma_sum_order_independent(a: Seq<Impulse>, b: Seq<Impulse>, v: Vec2, id: EntityId)
    requires
        a.to_multiset() == b.to_multiset(),
    ensures
        delta_x(a, id) == delta_x(b, id),
        delta_y(a, id) == delta_y(b, id),
        (forall|j: int| 0 <= j < a.len() ==> !(#[trigger] a[j]).absolute) ==> impulsed(v, a, id) == impulsed(v, b, id),
    decreases a.len(),
{
    broadcast use vstd::seq_lib::group_to_multiset_ensures;

    if a.len() == 0 {
        vstd::seq_lib::to_multiset_len(a);
        vstd::seq_lib::to_multiset_len(b);
        assert(b.len() == 0);
    } else {
        let e = a.last();
        assert(a.contains(e)) by {
            assert(a[a.len() - 1] == e);
        }
        assert(a.to_multiset().count(e) > 0);
        assert(b.contains(e));
        let k = choose|k: int| 0 <= k < b.len() && b[k] == e;
        assert(a.remove(a.len() - 1) =~= a.drop_last());
        assert(a.drop_last().to_multiset() == b.remove(k).to_multiset());
        lemma_sum_order_independent(a.drop_last(), b.remove(k), v, id);
        lemma_delta_remove(b, k, id);
    }
    if forall|j: int| 0 <= j < a.len() ==> !(#[trigger] a[j]).absolute {
        assert forall|j: int| 0 <= j < b.len() implies !(#[trigger] b[j]).absolute by {
            assert(b.contains(b[j]));
            assert(b.to_multiset().count(b[j]) > 0);
            assert(a.contains(b[j]));
        }
        lemma_no_absolute(a, id);
        lemma_no_absolute(b, id);
    }
}

/// An absolute impulse aimed at a body, with no later absolute one for it
/// in the tick, sets the body's velocity to its amount, whatever additive
/// impulses share the tick.
pub proof fn lemma_absolute_wins(v: Vec2, s: Seq<Impulse>, k: int, id: EntityId)
    requires
        0 <= k < s.len(),
        s[k].target == id,
        s[k].absolute,
        forall|j: int| k < j < s.len() ==> !((#[trigger] s[j]).target == id && s[j].absolute),
    ensures
        impulsed(v, s, id) == s[k].amount,
    decreases s.len(),
{
    lemma_last_absolute_is(s, k, id);
}

proof fn lemma_last_absolute_is(s: Seq<Impulse>, k: int, id: EntityId)
    requires
        0 <= k < s.len(),
        s[k].target == id,
        s[k].absolute,
        forall|j: int| k < j < s.len() ==> !((#[trigger] s[j]).target == id && s[j].absolute),
    ensures
        last_absolute(s, id) == Some(s[k].amount),
    decreases s.len(),
{
    if k < s.len() - 1 {
        assert(!(s[s.len() - 1].target == id && s[s.len() - 1].absolute));
        assert(s.drop_last()[k] == s[k]);
        assert forall|j: int| k < j < s.drop_last().len() implies
            !((#[trigger] s.drop_last()[j]).target == id && s.drop_last()[j].absolute) by {
            assert(s.drop_last()[j] == s[j]);
        }
        lemma_last_absolute_is(s.drop_last(), k, id);
    } else {
        assert(s.last() == s[k]);
    }
}

proof fn lemma_ceil_root_between(n: int, lo: int, hi: int)
    requires
        0 <= lo < hi,
        lo * lo < n <= hi * hi,
    ensures
        is_ceil_root(n, ceil_root(n)),
    decreases hi - lo,
{
    if hi - lo == 1 {
        assert(is_ceil_root(n, hi));
    } else {
        let mid = lo + (hi - lo) / 2;
        if mid * mid >= n {
            lemma_ceil_root_between(n, lo, mid);
        } else {
            lemma_ceil_root_between(n, mid, hi);
        }
    }
}

/// Every positive number has a least integer whose square reaches it.
proof fn lemma_ceil_root_exists(n: int)
    requires
        n > 0,
    ensures
        is_ceil_root(n, ceil_root(n)),
{
    assert(n <= n * n) by (nonlinear_arith)
        requires n > 0;
    lemma_ceil_root_between(n, 0, n);
}

/// `c` moved one step further from zero.
pub open spec fn one_step_out(c: int) -> int {
    if c >= 0 { c + 1 } else { 1 - c }
}

/// One component after the clamp: its size times the root is at most its
/// old size times the terminal speed, and its sign is kept.
proof fn lemma_scaled_component(c: int, r: int, s: int)
    requires
        r > 0,
        -r <= c <= r,
        s > 0,
    ensures
        -s <= div_toward_zero(c * s, r) <= s,
        c >= 0 ==> div_toward_zero(c * s, r) >= 0,
        c <= 0 ==> div_toward_zero(c * s, r) <= 0,
        div_toward_zero(c * s, r) * div_toward_zero(c * s, r) * (r * r) <= c * c * (s * s),
        one_step_out(div_toward_zero(c * s, r)) * one_step_out(div_toward_zero(c * s, r)) * (r * r)
            > c * c * (s * s),
{
    let a = if c >= 0 { c } else { -c };
    let q = (a * s) / r;
    assert(0 <= q <= s && q * r <= a * s) by (nonlinear_arith)
        requires 0 <= a <= r, r > 0, s > 0, q == (a * s) / r;
    assert(c * s == if c >= 0 { a * s } else { -(a * s) }) by (nonlinear_arith)
        requires a == (if c >= 0 { c } else { -c });
    assert(q * q * (r * r) <= a * a * (s * s)) by (nonlinear_arith)
        requires 0 <= q, q * r <= a * s, r > 0;
    assert(a * a == c * c) by (nonlinear_arith)
        requires a == c || a == -c;
    if c == 0 {
        assert(q == 0) by (nonlinear_arith)
            requires a == 0, q == (a * s) / r, r > 0;
    }
    assert(div_toward_zero(c * s, r) == if c >= 0 { q } else { -q });
    assert((-q) * (-q) == q * q) by (nonlinear_arith);
    assert(a * s >= 0) by (nonlinear_arith)
        requires a >= 0, s > 0;
    vstd::arithmetic::div_mod::lemma_fundamental_div_mod(a * s, r);
    vstd::arithmetic::div_mod::lemma_mod_pos_bound(a * s, r);
    assert(one_step_out(div_toward_zero(c * s, r)) == q + 1);
    assert((q + 1) * r > a * s) by (nonlinear_arith)
        requires a * s == r * q + (a * s) % r, (a * s) % r < r;
    assert((q + 1) * (q + 1) * (r * r) > a * a * (s * s)) by (nonlinear_arith)
        requires (q + 1) * r > a * s, a * s >= 0, r > 0, q >= 0;
}

/// Above the terminal speed the clamp leaves a velocity no faster than the
/// terminal speed, and within rounding of it: one step further from zero on
/// each axis it would be faster than `TERMINAL_SPEED - 1`. It keeps the sign
/// of each component. At or below the terminal speed the velocity is left as
/// it is.
pub proof fn lemma_clamp_bounds(v: Vec2)
    ensures
        speed_sq(v) > TERMINAL_SPEED * TERMINAL_SPEED ==> {
            &&& speed_sq(clamped(v)) <= TERMINAL_SPEED * TERMINAL_SPEED
            &&& one_step_out(clamped(v).x as int) * one_step_out(clamped(v).x as int)
                + one_step_out(clamped(v).y as int) * one_step_out(clamped(v).y as int)
                > (TERMINAL_SPEED - 1) * (TERMINAL_SPEED - 1)
            &&& (v.x >= 0 ==> clamped(v).x >= 0) && (v.x <= 0 ==> clamped(v).x <= 0)
            &&& (v.y >= 0 ==> clamped(v).y >= 0) && (v.y <= 0 ==> clamped(v).y <= 0)
        },
        speed_sq(v) <= TERMINAL_SPEED * TERMINAL_SPEED ==> clamped(v) == v,
{
    let n = speed_sq(v);
    let c = TERMINAL_SPEED as int;
    if n > c * c {
        lemma_ceil_root_exists(n);
        let r = ceil_root(n);
        assert(r > 0) by {
            if r == 0 {
                assert(r * r == 0) by (nonlinear_arith)
                    requires r == 0;
            }
        }
        assert(v.x * v.x <= n && v.y * v.y <= n) by (nonlinear_arith)
            requires n == v.x * v.x + v.y * v.y;
        assert((r + 1) * (r + 1) == r * r + 2 * r + 1) by (nonlinear_arith);
        assert(-r <= v.x <= r) by {
            if v.x > r {
                lemma_square_monotonic(r + 1, v.x as int);
            }
            if v.x < -r {
                lemma_square_monotonic(r + 1, -v.x);
                assert((-v.x) * (-v.x) == v.x * v.x) by (nonlinear_arith);
            }
        }
        assert(-r <= v.y <= r) by {
            if v.y > r {
                lemma_square_monotonic(r + 1, v.y as int);
            }
            if v.y < -r {
                lemma_square_monotonic(r + 1, -v.y);
                assert((-v.y) * (-v.y) == v.y * v.y) by (nonlinear_arith);
            }
        }
        lemma_scaled_component(v.x as int, r, c);
        lemma_scaled_component(v.y as int, r, c);
        let qx = div_toward_zero(v.x * c, r);
        let qy = div_toward_zero(v.y * c, r);
        assert(clamped(v).x == qx && clamped(v).y == qy);
        assert((qx * qx + qy * qy) * (r * r) <= n * (c * c)) by (nonlinear_arith)
            requires
                qx * qx * (r * r) <= v.x * v.x * (c * c),
                qy * qy * (r * r) <= v.y * v.y * (c * c),
                n == v.x * v.x + v.y * v.y;
        assert(qx * qx + qy * qy <= c * c) by (nonlinear_arith)
            requires
                (qx * qx + qy * qy) * (r * r) <= n * (c * c),
                n <= r * r,
                r > 0,
                c > 0;
        let ox = one_step_out(qx);
        let oy = one_step_out(qy);
        // (ox² + oy²)·r² > n·c² > (r - 1)²·c² >= (c - 1)²·r², as r > c
        assert((ox * ox + oy * oy) * (r * r) > n * (c * c)) by (nonlinear_arith)
            requires
                ox * ox * (r * r) > v.x * v.x * (c * c),
                oy * oy * (r * r) > v.y * v.y * (c * c),
                n == v.x * v.x + v.y * v.y;
        assert(r > c) by {
            if r <= c {
                lemma_square_monotonic(r, c);
            }
        }
        assert(n * (c * c) >= (r - 1) * (r - 1) * (c * c)) by (nonlinear_arith)
            requires n > (r - 1) * (r - 1), c > 0;
        assert((r - 1) * c >= (c - 1) * r) by (nonlinear_arith)
            requires r > c;
        assert((r - 1) * (r - 1) * (c * c) >= (c - 1) * (c - 1) * (r * r)) by (nonlinear_arith)
            requires (r - 1) * c >= (c - 1) * r, (c - 1) * r >= 0;
        assert(ox * ox + oy * oy > (c - 1) * (c - 1)) by (nonlinear_arith)
            requires
                (ox * ox + oy * oy) * (r * r) > (c - 1) * (c - 1) * (r * r),
                r > 0;
    }
}

/// A tick with no impulses in which `b` falls straight down under gravity.
pub open spec fn fall(b: Body, n: nat, id: EntityId) -> Body
    decreases n,
{
    if n == 0 { b } else { ticked(fall(b, (n - 1) as nat, id), Seq::empty(), id) }
}

/// With no impulses, a body under gravity that is at rest or falling
/// straight down drops strictly lower on the tick, and its downward speed
/// grows by `GRAVITY` until the terminal speed caps it.
pub proof fn lemma_free_fall_step(b: Body, id: EntityId)
    requires
        b.gravity,
        b.velocity.x == 0,
        -TERMINAL_SPEED <= b.velocity.y <= 0,
        b.position.y >= i64::MIN + TERMINAL_SPEED + GRAVITY,
    ensures
        ticked(b, Seq::empty(), id).position.y < b.position.y,
        ticked(b, Seq::empty(), id).position.y >= b.position.y - (TERMINAL_SPEED + GRAVITY),
        ticked(b, Seq::empty(), id).position.x == b.position.x,
        ticked(b, Seq::empty(), id).velocity.x == 0,
        ticked(b, Seq::empty(), id).velocity.y == if b.velocity.y - GRAVITY < -TERMINAL_SPEED {
            -TERMINAL_SPEED
        } else {
            b.velocity.y - GRAVITY
        },
        ticked(b, Seq::empty(), id).gravity,
{
    let s = Seq::<Impulse>::empty();
    assert(last_absolute(s, id) == None::<Vec2>);
    assert(delta_x(s, id) == 0 && delta_y(s, id) == 0);
    let y = b.velocity.y - GRAVITY;
    let v2 = Vec2 { x: 0, y: y as i64 };
    assert(gravitated(Body { velocity: impulsed(b.velocity, s, id), ..b }) == v2);
    if y < -TERMINAL_SPEED {
        let n = speed_sq(v2);
        let c = TERMINAL_SPEED as int;
        assert(n == y * y) by (nonlinear_arith)
            requires n == 0 * 0 + y * y;
        assert(n > c * c) by (nonlinear_arith)
            requires n == y * y, y < -c, c > 0;
        assert(is_ceil_root(n, -y)) by {
            assert((-y - 1) * (-y - 1) < y * y) by (nonlinear_arith)
                requires y < 0;
            assert(y * y == (-y) * (-y)) by (nonlinear_arith);
        }
        lemma_ceil_root_exists(n);
        lemma_ceil_root_unique(n, -y, ceil_root(n));
        assert(((-y) * c) / (-y) == c) by (nonlinear_arith)
            requires y < 0, c > 0;
        assert(-(y * c) == (-y) * c) by (nonlinear_arith);
        assert(div_toward_zero(0 * c, -y) == 0);
    } else {
        assert(speed_sq(v2) <= TERMINAL_SPEED * TERMINAL_SPEED) by (nonlinear_arith)
            requires speed_sq(v2) == 0 * 0 + y * y, -TERMINAL_SPEED <= y <= 0;
    }
}

/// Ticks with no impulses keep a body under gravity, once at rest or
/// falling straight down, dropping strictly lower on every tick without
/// moving sideways, with its downward speed growing by `GRAVITY` until the
/// terminal speed caps it.
pub proof fn lemma_free_fall(b: Body, n: nat, id: EntityId)
    requires
        b.gravity,
        b.velocity.x == 0,
        -TERMINAL_SPEED <= b.velocity.y <= 0,
        b.position.y >= i64::MIN + (n + 1) * (TERMINAL_SPEED + GRAVITY),
    ensures
        fall(b, n + 1, id).position.y < fall(b, n, id).position.y,
        fall(b, n + 1, id).position.x == b.position.x,
        fall(b, n + 1, id).velocity.x == 0,
        fall(b, n + 1, id).velocity.y == if fall(b, n, id).velocity.y - GRAVITY < -TERMINAL_SPEED {
            -TERMINAL_SPEED
        } else {
            fall(b, n, id).velocity.y - GRAVITY
        },
{
    lemma_fall_invariant(b, n, id);
    assert((n + 1) * (TERMINAL_SPEED + GRAVITY) - n * (TERMINAL_SPEED + GRAVITY) == TERMINAL_SPEED + GRAVITY)
        by (nonlinear_arith);
    lemma_free_fall_step(fall(b, n, id), id);
}

proof fn lemma_fall_invariant(b: Body, n: nat, id: EntityId)
    requires
        b.gravity,
        b.velocity.x == 0,
        -TERMINAL_SPEED <= b.velocity.y <= 0,
        b.position.y >= i64::MIN + (n + 1) * (TERMINAL_SPEED + GRAVITY),
    ensures
        fall(b, n, id).gravity,
        fall(b, n, id).velocity.x == 0,
        fall(b, n, id).position.x == b.position.x,
        -TERMINAL_SPEED <= fall(b, n, id).velocity.y <= 0,
        fall(b, n, id).position.y >= b.position.y - n * (TERMINAL_SPEED + GRAVITY),
    decreases n,
{
    assert((n + 1) * (TERMINAL_SPEED + GRAVITY) - n * (TERMINAL_SPEED + GRAVITY) == TERMINAL_SPEED + GRAVITY)
        by (nonlinear_arith);
    if n > 0 {
        let k = TERMINAL_SPEED + GRAVITY;
        assert(n * k == (n - 1) * k + k && (n + 1) * k == (n - 1) * k + 2 * k) by (nonlinear_arith);
        lemma_fall_invariant(b, (n - 1) as nat, id);
        lemma_free_fall_step(fall(b, (n - 1) as nat, id), id);
    }
}

impl Bodies {
    /// Body `id`, where it exists.
    pub open spec fn body(&self, id: EntityId) -> Option<Body> {
        if id.0 < self.slots@.len() { self.slots@[id.0 as int] } else { None }
    }

    /// Adds the impulses aimed at each body to its velocity, or sets its
    /// velocity to the last absolute one. Impulses aimed at no body are dropped.
    pub fn sum_impulses(&mut self, impulses: &Vec<Impulse>)
        ensures
            final(self).slots@.len() == old(self).slots@.len(),
            forall|i: int| 0 <= i < old(self).slots@.len() ==> #[trigger] final(self).slots@[i] == match old(self).slots@[i] {
                Some(b) => Some(Body { velocity: impulsed(b.velocity, impulses@, EntityId(i as usize)), ..b }),
                None => None,
            },
    {
        let ghost start = self.slots@;
        let n_impulses = impulses.len();
        let mut i: usize = 0;
        while i < self.slots.len()
            invariant
                i <= self.slots@.len(),
                impulses@.len() == n_impulses,
                self.slots@.len() == start.len(),
                forall|k: int| 0 <= k < start.len() ==> #[trigger] self.slots@[k] == if k < i { match start[k] {
                    Some(b) => Some(Body { velocity: impulsed(b.velocity, impulses@, EntityId(k as usize)), ..b }),
                    None => None,
                } } else { start[k] },
            decreases start.len() - i,
        {
            if let Some(b) = self.slots[i] {
                let (dx, dy, abs) = net_impulse(impulses, EntityId(i));
                let velocity = match abs {
                    Some(a) => a,
                    None => {
                        proof {
                            lemma_delta_bounds(impulses@, EntityId(i));
                        }
                        Vec2 {
                            x: saturate_i128(b.velocity.x as i128 + dx),
                            y: saturate_i128(b.velocity.y as i128 + dy),
                        }
                    },
                };
                self.slots.set(i, Some(Body { velocity, ..b }));
            }
            i = i + 1;
        }
    }
    /// An arena with no bodies.
    pub fn new() -> (r: Bodies)
        ensures
            r.slots@.len() == 0,
    {
        Bodies { slots: Vec::new() }
    }

    /// Adds `body` in a fresh slot and returns its handle.
    pub fn spawn(&mut self, body: Body) -> (r: EntityId)
        requires
            old(self).slots@.len() < usize::MAX,
        ensures
            final(self).slots@ == old(self).slots@.push(Some(body)),
            r.0 == old(self).slots@.len(),
    {
        let id = EntityId(self.slots.len());
        self.slots.push(Some(body));
        id
    }

    /// Removes body `id`; a handle of no body is ignored.
    pub fn despawn(&mut self, id: EntityId)
        ensures
            final(self).slots@ == if id.0 < old(self).slots@.len() {
                old(self).slots@.update(id.0 as int, None)
            } else {
                old(self).slots@
            },
    {
        if id.0 < self.slots.len() {
            self.slots.set(id.0, None);
        }
    }

    /// Body `id`, or `None` for a handle of no body.
    pub fn get(&self, id: EntityId) -> (r: Option<Body>)
        ensures
            r == self.body(id),
    {
        if id.0 < self.slots.len() {
            self.slots[id.0]
        } else {
            None
        }
    }

    /// Adds gravity to the velocity of every body under gravity.
    pub fn apply_gravity(&mut self)
        ensures
            final(self).slots@.len() == old(self).slots@.len(),
            forall|i: int| 0 <= i < old(self).slots@.len() ==> #[trigger] final(self).slots@[i] == match old(self).slots@[i] {
                Some(b) => Some(Body { velocity: gravitated(b), ..b }),
                None => None,
            },
    {
        let ghost start = self.slots@;
        let mut i: usize = 0;
        while i < self.slots.len()
            invariant
                i <= self.slots@.len(),
                self.slots@.len() == start.len(),
                forall|k: int| 0 <= k < start.len() ==> #[trigger] self.slots@[k] == if k < i { match start[k] {
                    Some(b) => Some(Body { velocity: gravitated(b), ..b }),
                    None => None,
                } } else { start[k] },
            decreases start.len() - i,
        {
            if let Some(b) = self.slots[i] {
                if b.gravity {
                    let y = saturate_i128(b.velocity.y as i128 - GRAVITY as i128);
                    self.slots.set(i, Some(Body { velocity: Vec2 { x: b.velocity.x, y }, ..b }));
                }
            }
            i = i + 1;
        }
    }

    /// Moves every body by its velocity for one tick.
    pub fn apply_velocity(&mut self)
        ensures
            final(self).slots@.len() == old(self).slots@.len(),
            forall|i: int| 0 <= i < old(self).slots@.len() ==> #[trigger] final(self).slots@[i] == match old(self).slots@[i] {
                Some(b) => Some(Body { position: moved(b.position, b.velocity), ..b }),
                None => None,
            },
    {
        let ghost start = self.slots@;
        let mut i: usize = 0;
        while i < self.slots.len()
            invariant
                i <= self.slots@.len(),
                self.slots@.len() == start.len(),
                forall|k: int| 0 <= k < start.len() ==> #[trigger] self.slots@[k] == if k < i { match start[k] {
                    Some(b) => Some(Body { position: moved(b.position, b.velocity), ..b }),
                    None => None,
                } } else { start[k] },
            decreases start.len() - i,
        {
            if let Some(b) = self.slots[i] {
                let position = Vec2 {
                    x: saturate_i128(b.position.x as i128 + b.velocity.x as i128),
                    y: saturate_i128(b.position.y as i128 + b.velocity.y as i128),
                };
                self.slots.set(i, Some(Body { position, ..b }));
            }
            i = i + 1;
        }
    }

    /// Scales down every velocity faster than `TERMINAL_SPEED`.
    pub fn terminal_velocity(&mut self)
        ensures
            final(self).slots@.len() == old(self).slots@.len(),
            forall|i: int| 0 <= i < old(self).slots@.len() ==> #[trigger] final(self).slots@[i] == match old(self).slots@[i] {
                Some(b) => Some(Body { velocity: clamped(b.velocity), ..b }),
                None => None,
            },
    {
        let ghost start = self.slots@;
        let mut i: usize = 0;
        while i < self.slots.len()
            invariant
                i <= self.slots@.len(),
                self.slots@.len() == start.len(),
                forall|k: int| 0 <= k < start.len() ==> #[trigger] self.slots@[k] == if k < i { match start[k] {
                    Some(b) => Some(Body { velocity: clamped(b.velocity), ..b }),
                    None => None,
                } } else { start[k] },
            decreases start.len() - i,
        {
            if let Some(b) = self.slots[i] {
                let velocity = clamp_velocity(b.velocity);
                self.slots.set(i, Some(Body { velocity, ..b }));
            }
            i = i + 1;
        }
    }

    /// One fixed step: impulse summation, gravity, integration and the
    /// terminal-speed clamp, each over all bodies before the next begins.
    pub fn tick(&mut self, impulses: &Vec<Impulse>)
        ensures
            final(self).slots@.len() == old(self).slots@.len(),
            forall|i: int| 0 <= i < old(self).slots@.len() ==> #[trigger] final(self).slots@[i] == match old(self).slots@[i] {
                Some(b) => Some(ticked(b, impulses@, EntityId(i as usize))),
                None => None,
            },
    {
        self.sum_impulses(impulses);
        self.apply_gravity();
        self.apply_velocity();
        self.terminal_velocity();
    }
}

} // verus!
