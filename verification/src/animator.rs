//! The motion of the cart along its walk. Every segment of the walk takes the same time,
//! and the walk is cyclic: after its last entry the cart goes on with the first.
//!
//! Time is counted in whole ticks of whatever length the caller chooses, and the progress
//! along a segment is the ticks spent on it out of the ticks that a segment takes.

use vstd::prelude::*;
use crate::trace::bounded_by;
use crate::viewport::{can_mix, interpolate, is_layout_of, mixed, Layout, Point, Viewport};
use crate::viewport::lemma_layout_mixes;
use vstd::arithmetic::div_mod::{lemma_add_mod_noop, lemma_add_mod_noop_right};
use vstd::arithmetic::div_mod::{lemma_fundamental_div_mod, lemma_fundamental_div_mod_converse};
use vstd::arithmetic::div_mod::{lemma_mod_pos_bound, lemma_small_mod};

verus! {

/// The ticks spent on the current segment once `dt` more ticks have passed.
pub open spec fn elapsed_after(elapsed: int, dt: int, period: int) -> int {
    (elapsed + dt) % period
}

/// The number of segments completed while `dt` more ticks pass.
pub open spec fn segments_passed(elapsed: int, dt: int, period: int) -> int {
    (elapsed + dt) / period
}

/// The position in a cyclic walk of `len` entries that lies `steps` entries after `index`.
pub open spec fn step_index(index: int, steps: int, len: int) -> int {
    (index + steps) % len
}

/// The ticks between the last sample and `now`; none where the clock has not moved on.
pub open spec fn ticks_since(last: int, now: int) -> int {
    if now >= last {
        now - last
    } else {
        0
    }
}

/// When no time passes, nothing moves.
proof fn lemma_zero_time(index: int, elapsed: int, period: int, len: int)
    requires
        0 <= elapsed < period,
        0 <= index < len,
    ensures
        elapsed_after(elapsed, 0, period) == elapsed,
        segments_passed(elapsed, 0, period) == 0,
        step_index(index, 0, len) == index,
{
    assert(elapsed % period == elapsed && elapsed / period == 0) by (nonlinear_arith)
        requires
            0 <= elapsed < period,
    ;
    assert(index % len == index) by (nonlinear_arith)
        requires
            0 <= index < len,
    ;
}

/// Time that does not complete the current segment only adds to the progress.
proof fn lemma_within_segment(elapsed: int, dt: int, period: int)
    requires
        0 <= elapsed,
        0 <= dt,
        elapsed + dt < period,
    ensures
        elapsed_after(elapsed, dt, period) == elapsed + dt,
        segments_passed(elapsed, dt, period) == 0,
{
    let t = elapsed + dt;
    assert(t % period == t && t / period == 0) by (nonlinear_arith)
        requires
            0 <= t < period,
    ;
}

/// Time that completes the current segment moves the cart on by one entry and leaves a
/// segment's worth less to account for.
proof fn lemma_segment_completed(index: int, elapsed: int, dt: int, period: int, len: int)
    requires
        0 <= elapsed,
        0 <= dt,
        elapsed + dt >= period > 0,
        0 <= index < len,
    ensures
        elapsed_after(elapsed, dt, period) == elapsed_after(elapsed, dt - period, period),
        segments_passed(elapsed, dt, period) == 1 + segments_passed(elapsed, dt - period, period),
        segments_passed(elapsed, dt - period, period) >= 0,
        step_index(index, segments_passed(elapsed, dt, period), len) == step_index(
            step_index(index, 1, len),
            segments_passed(elapsed, dt - period, period),
            len,
        ),
{
    let t = elapsed + dt - period;
    assert((t + period) % period == t % period && (t + period) / period == 1 + t / period && t
        / period >= 0) by (nonlinear_arith)
        requires
            t >= 0,
            period > 0,
    ;
    let k = t / period;
    lemma_steps_add(index, 1, k, len);
}

/// Stepping on in two goes is stepping on once by the sum.
proof fn lemma_steps_add(index: int, a: int, b: int, len: int)
    requires
        0 <= index,
        0 <= a,
        0 <= b,
        0 < len,
    ensures
        step_index(step_index(index, a, len), b, len) == step_index(index, a + b, len),
        0 <= step_index(index, a, len) < len,
{
    let x = index + a;
    lemma_add_mod_noop(x, b, len);
    lemma_add_mod_noop_right(x % len, b, len);
    lemma_mod_pos_bound(x, len);
}

/// Passing time in two goes is passing their sum at once.
proof fn lemma_time_adds(elapsed: int, a: int, b: int, period: int)
    requires
        0 <= elapsed,
        0 <= a,
        0 <= b,
        0 < period,
    ensures
        elapsed_after(elapsed_after(elapsed, a, period), b, period) == elapsed_after(
            elapsed,
            a + b,
            period,
        ),
        segments_passed(elapsed, a, period) + segments_passed(
            elapsed_after(elapsed, a, period),
            b,
            period,
        ) == segments_passed(elapsed, a + b, period),
{
    let x = elapsed + a;
    let y = x % period + b;
    lemma_fundamental_div_mod(x, period);
    lemma_fundamental_div_mod(y, period);
    lemma_mod_pos_bound(y, period);
    let q = x / period + y / period;
    assert(x + b == q * period + y % period) by (nonlinear_arith)
        requires
            x == period * (x / period) + x % period,
            y == period * (y / period) + y % period,
            y == x % period + b,
            q == x / period + y / period,
    ;
    lemma_fundamental_div_mod_converse(x + b, period, q, y % period);
}

/// The segments completed are counted from the ticks that have passed in all: there are
/// none to take back, and what is left of the ticks is short of a segment.
proof fn lemma_segments_counted(elapsed: int, dt: int, period: int)
    requires
        0 <= elapsed,
        0 <= dt,
        0 < period,
    ensures
        0 <= segments_passed(elapsed, dt, period) <= elapsed + dt,
        0 <= elapsed_after(elapsed, dt, period) < period,
{
    let t = elapsed + dt;
    lemma_fundamental_div_mod(t, period);
    lemma_mod_pos_bound(t, period);
    assert(0 <= t / period <= t) by (nonlinear_arith)
        requires
            t == period * (t / period) + t % period,
            0 <= t % period < period,
            t >= 0,
    ;
}

/// The state of the cart as plain values.
pub struct CartState {
    /// The walk that the cart follows.
    pub walk: Seq<usize>,
    /// The ticks that every segment takes.
    pub period: int,
    /// The position in the walk that the cart comes from.
    pub source: int,
    /// The ticks spent on the current segment.
    pub ticks: int,
    /// The time of the last sample.
    pub sampled: int,
}

impl CartState {
    /// What holds of every cart: it has a walk and stands on it, its segments take time,
    /// and its progress is short of a whole segment.
    pub open spec fn valid(self) -> bool {
        &&& self.walk.len() > 0
        &&& self.period > 0
        &&& 0 <= self.source < self.walk.len()
        &&& 0 <= self.ticks < self.period
        &&& 0 <= self.sampled
    }

    /// The position in the walk that the cart heads for: the one after the position it
    /// comes from, which after the last is the first.
    pub open spec fn target(self) -> int {
        step_index(self.source, 1, self.walk.len() as int)
    }

    /// The cart at the start of `walk`, with no progress made and never sampled.
    pub open spec fn start(walk: Seq<usize>, period: int) -> CartState {
        CartState { walk, period, source: 0, ticks: 0, sampled: 0 }
    }

    /// The cart once `dt` more ticks have passed: the progress grows by them, and for
    /// every segment's worth of ticks that it then holds the cart moves on by one entry.
    pub open spec fn advance(self, dt: int) -> CartState {
        CartState {
            source: step_index(
                self.source,
                segments_passed(self.ticks, dt, self.period),
                self.walk.len() as int,
            ),
            ticks: elapsed_after(self.ticks, dt, self.period),
            ..self
        }
    }

    /// The cart once it has been sampled at time `now`.
    pub open spec fn sample(self, now: int) -> CartState {
        CartState { sampled: now, ..self.advance(ticks_since(self.sampled, now)) }
    }

    /// The cart put back at the start of its walk.
    pub open spec fn reset(self) -> CartState {
        CartState { source: 0, ticks: 0, ..self }
    }
}

/// When no time passes, the cart stays as it is.
pub proof fn lemma_zero_time_keeps(cart: CartState)
    requires
        cart.valid(),
    ensures
        cart.advance(0) == cart,
        cart.sample(cart.sampled) == cart,
{
    lemma_zero_time(cart.source, cart.ticks, cart.period, cart.walk.len() as int);
}

/// Sampling a second time at the time of the first changes nothing.
pub proof fn lemma_sample_twice(cart: CartState, now: int)
    requires
        cart.valid(),
        0 <= now,
    ensures
        cart.sample(now).valid(),
        cart.sample(now).sample(now) == cart.sample(now),
{
    lemma_keeps_valid(cart, ticks_since(cart.sampled, now));
    lemma_zero_time_keeps(cart.sample(now));
}

/// Time keeps the cart on its walk and its progress short of a whole segment.
pub proof fn lemma_keeps_valid(cart: CartState, dt: int)
    requires
        cart.valid(),
        0 <= dt,
    ensures
        cart.advance(dt).valid(),
        0 <= cart.advance(dt).target() < cart.walk.len(),
        cart.reset().valid(),
{
    let len = cart.walk.len() as int;
    lemma_segments_counted(cart.ticks, dt, cart.period);
    lemma_mod_pos_bound(cart.source + segments_passed(cart.ticks, dt, cart.period), len);
    lemma_mod_pos_bound(cart.advance(dt).source + 1, len);
}

/// Letting time pass in two goes is letting their sum pass at once.
pub proof fn lemma_advance_adds(cart: CartState, a: int, b: int)
    requires
        cart.valid(),
        0 <= a,
        0 <= b,
    ensures
        cart.advance(a).advance(b) == cart.advance(a + b),
{
    let len = cart.walk.len() as int;
    lemma_time_adds(cart.ticks, a, b, cart.period);
    lemma_segments_counted(cart.ticks, a, cart.period);
    lemma_segments_counted(cart.advance(a).ticks, b, cart.period);
    let ka = segments_passed(cart.ticks, a, cart.period);
    let kb = segments_passed(cart.advance(a).ticks, b, cart.period);
    lemma_steps_add(cart.source, ka, kb, len);
}

/// The cart that has completed its segment has moved on by one entry, and goes on as one
/// that has a segment's worth of ticks less to account for.
pub proof fn lemma_segment_by_segment(cart: CartState, dt: int)
    requires
        cart.valid(),
        0 <= dt,
        cart.ticks + dt >= cart.period,
    ensures
        cart.advance(dt) == (CartState { source: cart.target(), ..cart }).advance(
            dt - cart.period,
        ),
{
    lemma_segment_completed(cart.source, cart.ticks, dt, cart.period, cart.walk.len() as int);
}

/// The cart that has not completed its segment has not moved on.
pub proof fn lemma_short_of_a_segment(cart: CartState, dt: int)
    requires
        cart.valid(),
        0 <= dt,
        cart.ticks + dt < cart.period,
    ensures
        cart.advance(dt) == (CartState { ticks: cart.ticks + dt, ..cart }),
{
    lemma_within_segment(cart.ticks, dt, cart.period);
    lemma_zero_time(cart.source, cart.ticks, cart.period, cart.walk.len() as int);
}

/// The cart on its walk: the segment it is on, how far along that segment it is, and when
/// it was last sampled.
#[derive(Debug, PartialEq, Eq)]
pub struct Animator {
    path: Vec<usize>,
    ticks_per_segment: u32,
    from_index: usize,
    elapsed: u32,
    last_sample: u64,
}

impl View for Animator {
    type V = CartState;

    closed spec fn view(&self) -> CartState {
        CartState {
            walk: self.path@,
            period: self.ticks_per_segment as int,
            source: self.from_index as int,
            ticks: self.elapsed as int,
            sampled: self.last_sample as int,
        }
    }
}

impl Animator {
    #[verifier::type_invariant]
    spec fn inv(self) -> bool {
        &&& self.path.len() > 0
        &&& self.ticks_per_segment > 0
        &&& self.from_index < self.path.len()
        &&& self.elapsed < self.ticks_per_segment
    }

    /// Puts the cart at the start of `path`, heading for its second entry, with segments
    /// that take `ticks_per_segment` ticks each. There is no cart without a walk, nor one
    /// whose segments take no time.
    pub fn new(path: Vec<usize>, ticks_per_segment: u32) -> (r: Option<Animator>)
        ensures
            r is Some <==> path.len() > 0 && ticks_per_segment > 0,
            r matches Some(a) ==> a@ == CartState::start(path@, ticks_per_segment as int),
            r matches Some(a) ==> a@.valid() && (path.len() >= 2 ==> a@.target() == 1),
    {
        if path.len() == 0 || ticks_per_segment == 0 {
            return None;
        }
        proof {
            if path.len() >= 2 {
                lemma_small_mod(1, path.len() as nat);
            }
        }
        Some(Animator { path, ticks_per_segment, from_index: 0, elapsed: 0, last_sample: 0 })
    }

    /// Lets `dt` ticks pass. Where none pass, the cart stays as it is.
    pub fn advance(&mut self, dt: u64)
        ensures
            final(self)@ == old(self)@.advance(dt as int),
            final(self)@.valid(),
            dt == 0 ==> final(self)@ == old(self)@,
    {
        proof {
            use_type_invariant(&*self);
            lemma_keeps_valid(self@, dt as int);
            lemma_zero_time_keeps(self@);
        }
        let period: u128 = self.ticks_per_segment as u128;
        let len: u128 = self.path.len() as u128;
        let total: u128 = self.elapsed as u128 + dt as u128;
        let steps: u128 = total / period;
        let rest: u128 = total % period;
        proof {
            lemma_segments_counted(self.elapsed as int, dt as int, period as int);
            lemma_mod_pos_bound(self.from_index + steps, len as int);
        }
        let from_index: u128 = (self.from_index as u128 + steps) % len;
        self.elapsed = rest as u32;
        self.from_index = from_index as usize;
    }

    /// Samples the cart at time `now`: the ticks since the last sample pass, and `now`
    /// becomes the time of the last sample. A clock that has gone back lets no time pass.
    pub fn sample(&mut self, now: u64)
        ensures
            final(self)@ == old(self)@.sample(now as int),
            final(self)@.valid(),
            now == old(self)@.sampled ==> final(self)@ == old(self)@,
    {
        let dt: u64 = if now >= self.last_sample {
            now - self.last_sample
        } else {
            0
        };
        self.advance(dt);
        proof {
            use_type_invariant(&*self);
        }
        self.last_sample = now;
    }

    /// Puts the cart back at the start of the walk, heading for its second entry, with no
    /// progress made. The time of the last sample stays.
    pub fn reset(&mut self)
        ensures
            final(self)@ == old(self)@.reset(),
            final(self)@.valid(),
            final(self)@.source == 0,
            final(self)@.ticks == 0,
            final(self)@.walk.len() >= 2 ==> final(self)@.target() == 1,
    {
        proof {
            use_type_invariant(&*self);
            if self.path.len() >= 2 {
                lemma_small_mod(1, self.path.len() as nat);
            }
        }
        self.from_index = 0;
        self.elapsed = 0;
    }

    /// The walk that the cart follows.
    pub fn path(&self) -> (p: &Vec<usize>)
        ensures
            p@ == self@.walk,
            self@.valid(),
    {
        proof {
            use_type_invariant(self);
        }
        &self.path
    }

    /// The ticks that every segment takes.
    pub fn ticks_per_segment(&self) -> (t: u32)
        ensures
            t == self@.period,
            self@.valid(),
    {
        proof {
            use_type_invariant(self);
        }
        self.ticks_per_segment
    }

    /// The position in the walk that the cart comes from.
    pub fn from_index(&self) -> (i: usize)
        ensures
            i == self@.source,
            self@.valid(),
    {
        proof {
            use_type_invariant(self);
        }
        self.from_index
    }

    /// The position in the walk that the cart heads for.
    pub fn to_index(&self) -> (i: usize)
        ensures
            i == self@.target(),
            i < self@.walk.len(),
            self@.valid(),
    {
        proof {
            use_type_invariant(self);
            lemma_mod_pos_bound(self.from_index + 1, self.path.len() as int);
        }
        (self.from_index + 1) % self.path.len()
    }

    /// The ticks spent on the current segment, always less than a segment takes.
    pub fn elapsed(&self) -> (t: u32)
        ensures
            t == self@.ticks,
            self@.valid(),
    {
        proof {
            use_type_invariant(self);
        }
        self.elapsed
    }

    /// The time of the last sample.
    pub fn last_sample(&self) -> (t: u64)
        ensures
            t == self@.sampled,
    {
        self.last_sample
    }

    /// The node that the cart comes from.
    pub fn from_node(&self) -> (node: usize)
        ensures
            node == self@.walk[self@.source],
    {
        proof {
            use_type_invariant(self);
        }
        self.path[self.from_index]
    }

    /// The node that the cart heads for.
    pub fn to_node(&self) -> (node: usize)
        ensures
            node == self@.walk[self@.target()],
    {
        self.path[self.to_index()]
    }

    /// Where the cart is among the nodes at `positions`: on the way from the node it comes
    /// from to the node it heads for, as far along as its progress says. There is no such
    /// point where one of the two nodes has no position or the point cannot be given.
    pub fn cart_position(&self, positions: &Vec<Point>) -> (r: Option<Point>)
        ensures
            r == cart_point(self@, positions@),
    {
        let from: usize = self.from_node();
        let to: usize = self.to_node();
        if from >= positions.len() || to >= positions.len() {
            return None;
        }
        interpolate(positions[from], positions[to], self.elapsed, self.ticks_per_segment)
    }
}

/// Where a cart is among the nodes at `positions`, if that can be said.
pub open spec fn cart_point(cart: CartState, positions: Seq<Point>) -> Option<Point> {
    let from = cart.walk[cart.source] as int;
    let to = cart.walk[cart.target()] as int;
    if from < positions.len() && to < positions.len() && can_mix(
        positions[from],
        positions[to],
        cart.ticks,
        cart.period,
    ) {
        Some(mixed(positions[from], positions[to], cart.ticks, cart.period))
    } else {
        None
    }
}

/// A cart whose walk stays among the nodes of a layout always has a position in it.
pub proof fn lemma_cart_has_position(
    cart: CartState,
    l: Layout,
    depths: Seq<usize>,
    max_depth: usize,
    viewport: Viewport,
)
    requires
        cart.valid(),
        cart.period <= u32::MAX,
        forall|k: int| 0 <= k < cart.walk.len() ==> #[trigger] cart.walk[k] < depths.len(),
        bounded_by(depths, max_depth),
        is_layout_of(l, depths, max_depth, viewport),
    ensures
        cart_point(cart, l.positions@) is Some,
{
    lemma_mod_pos_bound(cart.source + 1, cart.walk.len() as int);
    lemma_layout_mixes(
        l,
        depths,
        max_depth,
        viewport,
        cart.walk[cart.source] as int,
        cart.walk[cart.target()] as int,
        cart.ticks,
        cart.period,
    );
}

} // verus!
