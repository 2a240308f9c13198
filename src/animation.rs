use vstd::prelude::*;
use crate::vectors::{moved, norm, Vector, MAX_POS, MAX_SPEED, UNIT};

verus! {

/// Most sides a polygon of the animation may have. This and `MAX_DT` only
/// keep the fixed-point arithmetic from overflowing; they lie far beyond
/// what the animation uses.
pub const MAX_SIDES: usize = 256;

/// Longest frame time accepted by one update, in fixed-point seconds.
pub const MAX_DT: i64 = 60 * UNIT;

/// Frequency of the lowest tone, in millihertz.
pub const BASE_TONE: u64 = 400_000;

/// Range over which the tones of the extra shapes are spread, in millihertz.
pub const TONE_SPREAD: u64 = 1_600_000;

/// The tone of a shape with `sides` sides among `extra` shapes beyond the
/// base triangle: the base tone plus one step per side beyond two, where the
/// step spreads `TONE_SPREAD` over the extra shapes. With no extra shapes
/// there is no spread.
pub open spec fn tone_of(sides: int, extra: int) -> int {
    if extra == 0 { BASE_TONE as int } else { BASE_TONE + (sides - 2) * TONE_SPREAD / extra }
}

/// A polygon the animation can trace.
pub open spec fn valid_polygon(s: Seq<Vector<i64>>) -> bool {
    &&& 3 <= s.len() <= MAX_SIDES
    &&& forall|j: int| 0 <= j < s.len() ==> (#[trigger] s[j]).within(MAX_POS as int)
}

/// The speed factor of a shape: its first edge's length times the side count
/// (in sync) or times 6.5, times `speed`, in fixed point.
pub open spec fn rate_of(s: Seq<Vector<i64>>, sync: bool, speed: int) -> int {
    let edge = norm(s[0].x - s[1].x, s[0].y - s[1].y);
    let factor = if sync { s.len() * speed } else { speed * 13 / 2 };
    edge * factor / UNIT as int
}

/// Distance covered in `dt` at `rate`.
pub open spec fn step_length(dt: int, rate: int) -> int {
    dt * rate / (4 * UNIT) as int
}

/// Whether a shape at `pos` heading for vertex `idx` reaches it within `step`.
pub open spec fn arrives(s: Seq<Vector<i64>>, pos: Vector<i64>, idx: int, step: int) -> bool {
    moved(pos, s[idx], step) == s[idx]
}

/// The vertex a shape heads for after a step.
pub open spec fn next_index(s: Seq<Vector<i64>>, pos: Vector<i64>, idx: int, step: int) -> int {
    if arrives(s, pos, idx, step) { (idx + 1) % (s.len() as int) } else { idx }
}

/// Where a shape stands after a step: on arrival the distance left over is
/// carried on toward the next vertex.
pub open spec fn next_position(s: Seq<Vector<i64>>, pos: Vector<i64>, idx: int, step: int) -> Vector<i64> {
    let target = s[idx];
    let remaining = norm(pos.x - target.x, pos.y - target.y);
    if arrives(s, pos, idx, step) && step > remaining {
        moved(target, s[(idx + 1) % (s.len() as int)], step - remaining)
    } else {
        moved(pos, target, step)
    }
}

/// Polygons traced in parallel by moving points, each sounding its tone when
/// it sets out on the first edge of its polygon.
pub struct MyGame {
    polygons: Vec<Vec<Vector<i64>>>,
    positions: Vec<Vector<i64>>,
    indices: Vec<usize>,
    rates: Vec<i64>,
    frequencies: Vec<u64>,
}

impl MyGame {
    pub closed spec fn count(&self) -> int {
        self.polygons@.len() as int
    }

    pub closed spec fn polygon(&self, i: int) -> Seq<Vector<i64>> {
        self.polygons@[i]@
    }

    pub closed spec fn pos(&self, i: int) -> Vector<i64> {
        self.positions@[i]
    }

    pub closed spec fn index(&self, i: int) -> int {
        self.indices@[i] as int
    }

    pub closed spec fn rate(&self, i: int) -> int {
        self.rates@[i] as int
    }

    pub closed spec fn tone(&self, i: int) -> u64 {
        self.frequencies@[i]
    }

    pub closed spec fn wf(&self) -> bool {
        let n = self.polygons@.len();
        &&& self.positions@.len() == n
        &&& self.indices@.len() == n
        &&& self.rates@.len() == n
        &&& self.frequencies@.len() == n
        &&& forall|i: int| 0 <= i < n ==> valid_polygon(#[trigger] self.polygons@[i]@)
        &&& forall|i: int| 0 <= i < n ==> (#[trigger] self.positions@[i]).within(MAX_POS as int)
        &&& forall|i: int| 0 <= i < n ==> #[trigger] self.indices@[i] < self.polygons@[i]@.len()
        &&& forall|i: int| 0 <= i < n ==> 0 <= #[trigger] self.rates@[i] <= 0x200_0000_0000_0000
    }

    /// Sets up one shape per polygon, each standing on its first vertex and
    /// heading for it. The first polygon is the base; the others are the
    /// extra shapes among which the tones are spread.
    pub fn new(polygons: Vec<Vec<Vector<i64>>>, sync: bool, speed: i64) -> (r: MyGame)
        requires
            polygons@.len() >= 1,
            forall|i: int| 0 <= i < polygons@.len() ==> valid_polygon(#[trigger] polygons@[i]@),
            0 <= speed <= MAX_SPEED,
        ensures
            r.wf(),
            r.count() == polygons@.len(),
            forall|i: int| 0 <= i < r.count() ==> {
                &&& #[trigger] r.polygon(i) == polygons@[i]@
                &&& r.pos(i) == polygons@[i]@[0]
                &&& r.index(i) == 0
                &&& r.rate(i) == rate_of(polygons@[i]@, sync, speed as int)
                &&& r.tone(i) == tone_of(polygons@[i]@.len() as int, polygons@.len() - 1)
            },
    {
        let n = polygons.len();
        let extra = (n - 1) as u64;
        let mut positions: Vec<Vector<i64>> = Vec::new();
        let mut indices: Vec<usize> = Vec::new();
        let mut rates: Vec<i64> = Vec::new();
        let mut frequencies: Vec<u64> = Vec::new();
        let mut i: usize = 0;
        while i < n
            invariant
                n == polygons@.len(),
                extra == n - 1,
                n >= 1,
                0 <= speed <= MAX_SPEED,
                forall|k: int| 0 <= k < polygons@.len() ==> valid_polygon(#[trigger] polygons@[k]@),
                i <= n,
                positions@.len() == i,
                indices@.len() == i,
                rates@.len() == i,
                frequencies@.len() == i,
                forall|k: int| 0 <= k < i ==> #[trigger] positions@[k] == polygons@[k]@[0],
                forall|k: int| 0 <= k < i ==> #[trigger] indices@[k] == 0,
                forall|k: int|
                    0 <= k < i ==> #[trigger] rates@[k] == rate_of(polygons@[k]@, sync, speed as int),
                forall|k: int| 0 <= k < i ==> 0 <= #[trigger] rates@[k] <= 0x200_0000_0000_0000,
                forall|k: int|
                    0 <= k < i ==> #[trigger] frequencies@[k] == tone_of(polygons@[k]@.len() as int, n - 1),
            decreases n - i,
        {
            let poly = &polygons[i];
            assert(valid_polygon(poly@));
            let first = poly[0];
            let second = poly[1];
            let sides = poly.len();
            let edge = first.distance(second);
            proof {
                assert(0 <= sides * speed <= 256 * MAX_SPEED) by (nonlinear_arith)
                    requires 0 <= speed <= 100_000_000, 3 <= sides <= 256;
            }
            let factor: i64 = if sync { sides as i64 * speed } else { speed * 13 / 2 };
            proof {
                assert(0 <= edge * factor <= 0x400_0000_0000 * (256 * MAX_SPEED)) by (nonlinear_arith)
                    requires 0 <= edge <= 0x400_0000_0000, 0 <= factor <= 256 * MAX_SPEED;
                assert((edge * factor) / UNIT as int <= 0x200_0000_0000_0000) by (nonlinear_arith)
                    requires 0 <= edge * factor <= 0x400_0000_0000 * (256 * MAX_SPEED);
            }
            let rate = (edge as i128 * factor as i128 / UNIT as i128) as i64;
            let tone = if extra == 0 { BASE_TONE } else { BASE_TONE + (sides as u64 - 2) * TONE_SPREAD / extra };
            positions.push(first);
            indices.push(0);
            rates.push(rate);
            frequencies.push(tone);
            i = i + 1;
        }
        let r = MyGame { polygons, positions, indices, rates, frequencies };
        assert forall|k: int| 0 <= k < n implies (#[trigger] r.positions@[k]).within(MAX_POS as int) by {
            assert(valid_polygon(r.polygons@[k]@));
            assert(r.polygons@[k]@[0].within(MAX_POS as int));
        }
        r
    }

    /// Whether shape `i` sounds its tone in a tick of length `dt`: it reaches
    /// its target and turns to vertex `1`.
    pub open spec fn rings(&self, i: int, dt: int) -> bool {
        let s = self.polygon(i);
        let step = step_length(dt, self.rate(i));
        arrives(s, self.pos(i), self.index(i), step) && next_index(s, self.pos(i), self.index(i), step) == 1
    }

    /// The tones that shapes `0 .. upto` sound in a tick of length `dt`, in
    /// shape order.
    pub open spec fn tones(&self, dt: int, upto: int) -> Seq<u64>
        decreases upto,
    {
        if upto <= 0 {
            Seq::empty()
        } else if self.rings(upto - 1, dt) {
            self.tones(dt, upto - 1).push(self.tone(upto - 1))
        } else {
            self.tones(dt, upto - 1)
        }
    }

    /// Advances every shape by the distance its rate covers in `dt`. A shape
    /// that reaches its target turns to the next vertex, wrapping after the
    /// last, and carries any distance left over toward it. Returns the tones
    /// sounded in this tick: one for each shape that turned to vertex `1`.
    pub fn update(&mut self, dt: i64) -> (events: Vec<u64>)
        requires
            old(self).wf(),
            0 <= dt <= MAX_DT,
        ensures
            final(self).wf(),
            final(self).count() == old(self).count(),
            forall|i: int| 0 <= i < old(self).count() ==> {
                &&& #[trigger] final(self).polygon(i) == old(self).polygon(i)
                &&& final(self).rate(i) == old(self).rate(i)
                &&& final(self).tone(i) == old(self).tone(i)
                &&& final(self).pos(i) == next_position(
                    old(self).polygon(i),
                    old(self).pos(i),
                    old(self).index(i),
                    step_length(dt as int, old(self).rate(i)),
                )
                &&& final(self).index(i) == next_index(
                    old(self).polygon(i),
                    old(self).pos(i),
                    old(self).index(i),
                    step_length(dt as int, old(self).rate(i)),
                )
            },
            events@ == old(self).tones(dt as int, old(self).count()),
    {
        let n = self.positions.len();
        let mut events: Vec<u64> = Vec::new();
        let mut i: usize = 0;
        while i < n
            invariant
                0 <= dt <= MAX_DT,
                old(self).wf(),
                n == old(self).count(),
                i <= n,
                self.polygons == old(self).polygons,
                self.rates == old(self).rates,
                self.frequencies == old(self).frequencies,
                self.positions@.len() == n,
                self.indices@.len() == n,
                forall|k: int| i <= k < n ==> #[trigger] self.positions@[k] == old(self).positions@[k],
                forall|k: int| i <= k < n ==> #[trigger] self.indices@[k] == old(self).indices@[k],
                forall|k: int| 0 <= k < n ==> (#[trigger] self.positions@[k]).within(MAX_POS as int),
                forall|k: int| 0 <= k < n ==> #[trigger] self.indices@[k] < self.polygons@[k]@.len(),
                forall|k: int| 0 <= k < i ==> #[trigger] self.positions@[k] == next_position(
                    old(self).polygon(k),
                    old(self).pos(k),
                    old(self).index(k),
                    step_length(dt as int, old(self).rate(k)),
                ),
                forall|k: int| 0 <= k < i ==> #[trigger] self.indices@[k] == next_index(
                    old(self).polygon(k),
                    old(self).pos(k),
                    old(self).index(k),
                    step_length(dt as int, old(self).rate(k)),
                ),
                events@ == old(self).tones(dt as int, i as int),
            decreases n - i,
        {
            let rate = self.rates[i];
            proof {
                assert(0 <= dt * rate <= 60_000_000 * 0x200_0000_0000_0000) by (nonlinear_arith)
                    requires 0 <= dt <= 60_000_000, 0 <= rate <= 0x200_0000_0000_0000;
            }
            let step = (dt as i128 * rate as i128 / (4 * UNIT as i128)) as i64;
            let idx = self.indices[i];
            let poly = &self.polygons[i];
            assert(valid_polygon(poly@));
            let target = poly[idx];
            let pos = self.positions[i];
            let remaining = pos.distance(target);
            let first = pos.move_towards(target, step);
            if first == target {
                let next = (idx + 1) % poly.len();
                let mut p = first;
                if step > remaining {
                    p = target.move_towards(poly[next], step - remaining);
                }
                self.positions.set(i, p);
                self.indices.set(i, next);
                if next == 1 {
                    events.push(self.frequencies[i]);
                }
            } else {
                self.positions.set(i, first);
            }
            i = i + 1;
        }
        events
    }

    /// Number of shapes.
    pub fn shape_count(&self) -> (r: usize)
        ensures
            r == self.count(),
    {
        self.polygons.len()
    }

    /// The vertices of shape `i`.
    pub fn vertices(&self, i: usize) -> (r: &Vec<Vector<i64>>)
        requires
            i < self.count(),
        ensures
            r@ == self.polygon(i as int),
            self.wf() ==> valid_polygon(r@),
    {
        &self.polygons[i]
    }

    /// The current position of shape `i`.
    pub fn position(&self, i: usize) -> (r: Vector<i64>)
        requires
            self.wf(),
            i < self.count(),
        ensures
            r == self.pos(i as int),
            r.within(MAX_POS as int),
    {
        self.positions[i]
    }

    /// The vertex shape `i` is heading for.
    pub fn target_index(&self, i: usize) -> (r: usize)
        requires
            self.wf(),
            i < self.count(),
        ensures
            r == self.index(i as int),
            r < self.polygon(i as int).len(),
    {
        self.indices[i]
    }

    /// The tone of shape `i`, in millihertz.
    pub fn frequency(&self, i: usize) -> (r: u64)
        requires
            self.wf(),
            i < self.count(),
        ensures
            r == self.tone(i as int),
    {
        self.frequencies[i]
    }
}

/// A tick sounds at most one tone per shape.
pub proof fn lemma_tones_per_shape(g: MyGame, dt: int, upto: int)
    requires
        0 <= upto,
    ensures
        g.tones(dt, upto).len() <= upto,
    decreases upto,
{
    if upto > 0 {
        lemma_tones_per_shape(g, dt, upto - 1);
    }
}

} // verus!
