use vstd::prelude::*;
use vstd::arithmetic::div_mod::lemma_add_mod_noop_right;

verus! {

/// The width of the bathroom floor.
pub const WIDTH: i64 = 101;

/// The height of the bathroom floor.
pub const HEIGHT: i64 = 103;

/// The largest speed along an axis.
pub const MAX_SPEED: i64 = 0x4000_0000_0000_0000;

#[derive(Clone, Copy, Debug, PartialEq, Eq, Structural)]
pub struct Point {
    pub x: i64,
    pub y: i64,
}

impl Point {
    pub fn new(x: i64, y: i64) -> (r: Point)
        ensures
            r.x == x,
            r.y == y,
    {
        Point { x, y }
    }
}

#[derive(Clone, Copy, Debug, PartialEq, Eq, Structural)]
pub struct Velocity {
    pub x: i64,
    pub y: i64,
}

impl Velocity {
    pub fn new(x: i64, y: i64) -> (r: Velocity)
        ensures
            r.x == x,
            r.y == y,
    {
        Velocity { x, y }
    }
}

/// A robot: where it is and how far it moves each second, wrapping around
/// the edges of the floor.
#[derive(Clone, Copy, Debug, PartialEq, Eq, Structural)]
pub struct Robot {
    pub point: Point,
    pub velocity: Velocity,
}

impl Robot {
    /// On the floor, at a speed within `MAX_SPEED` along each axis.
    pub open spec fn wf(self) -> bool {
        &&& 0 <= self.point.x < WIDTH
        &&& 0 <= self.point.y < HEIGHT
        &&& -MAX_SPEED <= self.velocity.x <= MAX_SPEED
        &&& -MAX_SPEED <= self.velocity.y <= MAX_SPEED
    }

    /// Where the robot is after `n` seconds.
    pub open spec fn position_after(self, n: int) -> (int, int) {
        ((self.point.x + n * self.velocity.x) % (WIDTH as int), (self.point.y + n * self.velocity.y) % (HEIGHT as int))
    }

    pub fn new(p: Point, v: Velocity) -> (r: Robot)
        ensures
            r.point == p,
            r.velocity == v,
    {
        Robot { point: p, velocity: v }
    }

    /// Moves the robot by one second.
    pub fn step(&mut self)
        requires
            old(self).wf(),
        ensures
            final(self).wf(),
            final(self).velocity == old(self).velocity,
            (final(self).point.x as int, final(self).point.y as int) == old(self).position_after(1),
    {
        self.point.x = (self.point.x + self.velocity.x).checked_rem_euclid(WIDTH).unwrap();
        self.point.y = (self.point.y + self.velocity.y).checked_rem_euclid(HEIGHT).unwrap();
    }
}

/// The quadrant of the floor that `p` lies in (0 upper left, 1 upper right,
/// 2 lower left, 3 lower right); 4 on the middle row or column.
pub open spec fn quadrant(p: (int, int)) -> int {
    let (mx, my) = (WIDTH as int / 2, HEIGHT as int / 2);
    if p.0 < mx && p.1 < my {
        0
    } else if p.0 > mx && p.1 < my {
        1
    } else if p.0 < mx && p.1 > my {
        2
    } else if p.0 > mx && p.1 > my {
        3
    } else {
        4
    }
}

/// How many of the first `k` robots are in quadrant `q` after `n` seconds.
pub open spec fn quadrant_count(robots: Seq<Robot>, n: int, q: int, k: int) -> int
    decreases k,
{
    if k <= 0 {
        0
    } else {
        quadrant_count(robots, n, q, k - 1) + if quadrant(robots[k - 1].position_after(n)) == q {
            1int
        } else {
            0int
        }
    }
}

/// The product of the numbers of robots in the four quadrants after `n` seconds.
pub open spec fn safety(robots: Seq<Robot>, n: int) -> int {
    let k = robots.len() as int;
    quadrant_count(robots, n, 0, k) * quadrant_count(robots, n, 1, k) * quadrant_count(robots, n, 2, k)
        * quadrant_count(robots, n, 3, k)
}

proof fn lemma_position_step(r: Robot, n: int)
    requires
        n >= 0,
    ensures
        ((r.position_after(n).0 + r.velocity.x) % (WIDTH as int), (r.position_after(n).1 + r.velocity.y) % (
        HEIGHT as int)) == r.position_after(n + 1),
{
    let ax = r.point.x + n * r.velocity.x;
    let ay = r.point.y + n * r.velocity.y;
    lemma_add_mod_noop_right(r.velocity.x as int, ax, WIDTH as int);
    lemma_add_mod_noop_right(r.velocity.y as int, ay, HEIGHT as int);
    assert(ax + r.velocity.x == r.point.x + (n + 1) * r.velocity.x) by (nonlinear_arith)
        requires
            ax == r.point.x + n * r.velocity.x,
    ;
    assert(ay + r.velocity.y == r.point.y + (n + 1) * r.velocity.y) by (nonlinear_arith)
        requires
            ay == r.point.y + n * r.velocity.y,
    ;
}

/// Moves every robot on by `seconds` seconds.
pub fn simulate(robots: &mut Vec<Robot>, seconds: u64)
    requires
        forall|i: int| 0 <= i < old(robots).len() ==> (#[trigger] old(robots)@[i]).wf(),
    ensures
        final(robots)@.len() == old(robots)@.len(),
        forall|i: int|
            0 <= i < final(robots).len() ==> (#[trigger] final(robots)@[i]).wf() && final(robots)@[i].velocity
                == old(robots)@[i].velocity && (final(robots)@[i].point.x as int, final(robots)@[i].point.y as int)
                == old(robots)@[i].position_after(seconds as int),
{
    let ghost start = robots@;
    let mut s: u64 = 0;
    proof {
        assert forall|i: int| 0 <= i < robots.len() implies (robots@[i].point.x as int, robots@[i].point.y as int)
            == start[i].position_after(0) by {
            vstd::arithmetic::div_mod::lemma_small_mod(robots@[i].point.x as nat, WIDTH as nat);
            vstd::arithmetic::div_mod::lemma_small_mod(robots@[i].point.y as nat, HEIGHT as nat);
        }
    }
    while s < seconds
        invariant
            s <= seconds,
            start == old(robots)@,
            robots@.len() == start.len(),
            forall|i: int|
                0 <= i < robots.len() ==> (#[trigger] robots@[i]).wf() && robots@[i].velocity == start[i].velocity && (
                robots@[i].point.x as int, robots@[i].point.y as int) == start[i].position_after(s as int),
        decreases seconds - s,
    {
        let mut i: usize = 0;
        while i < robots.len()
            invariant
                s < seconds,
                i <= robots.len(),
                robots@.len() == start.len(),
                forall|j: int|
                    0 <= j < robots.len() ==> (#[trigger] robots@[j]).wf() && robots@[j].velocity == start[j].velocity
                        && (robots@[j].point.x as int, robots@[j].point.y as int) == start[j].position_after(
                        if j < i { s + 1 } else { s as int },
                    ),
            decreases robots.len() - i,
        {
            let mut r = robots[i];
            proof {
                lemma_position_step(start[i as int], s as int);
            }
            r.step();
            robots.set(i, r);
            i = i + 1;
        }
        s = s + 1;
    }
}

proof fn lemma_quadrant_count_bound(robots: Seq<Robot>, n: int, q: int, k: int)
    requires
        0 <= k,
    ensures
        0 <= quadrant_count(robots, n, q, k) <= k,
    decreases k,
{
    if k > 0 {
        lemma_quadrant_count_bound(robots, n, q, k - 1);
    }
}

/// How many robots are in quadrant `q` of the floor.
fn count_in_quadrant(robots: &Vec<Robot>, q: u8) -> (r: u64)
    requires
        robots.len() <= 0xffff,
        forall|i: int| 0 <= i < robots.len() ==> (#[trigger] robots@[i]).wf(),
    ensures
        r == quadrant_count(robots@, 0, q as int, robots@.len() as int),
        r <= robots.len(),
{
    let mut c: u64 = 0;
    let mut i: usize = 0;
    while i < robots.len()
        invariant
            i <= robots.len(),
            robots.len() <= 0xffff,
            forall|j: int| 0 <= j < robots.len() ==> (#[trigger] robots@[j]).wf(),
            c == quadrant_count(robots@, 0, q as int, i as int),
            c <= i,
        decreases robots.len() - i,
    {
        let p = robots[i].point;
        let quad: u8 = if p.x < WIDTH / 2 && p.y < HEIGHT / 2 {
            0
        } else if p.x > WIDTH / 2 && p.y < HEIGHT / 2 {
            1
        } else if p.x < WIDTH / 2 && p.y > HEIGHT / 2 {
            2
        } else if p.x > WIDTH / 2 && p.y > HEIGHT / 2 {
            3
        } else {
            4
        };
        proof {
            let r = robots@[i as int];
            vstd::arithmetic::div_mod::lemma_small_mod(r.point.x as nat, WIDTH as nat);
            vstd::arithmetic::div_mod::lemma_small_mod(r.point.y as nat, HEIGHT as nat);
            assert(r.position_after(0) == (r.point.x as int, r.point.y as int));
        }
        if quad == q {
            c = c + 1;
        }
        i = i + 1;
    }
    c
}

/// The safety factor after `seconds` seconds: the product of the numbers of
/// robots in the four quadrants of the floor.
pub fn safety_factor(robots: &Vec<Robot>, seconds: u64) -> (r: u64)
    requires
        robots.len() <= 0xffff,
        forall|i: int| 0 <= i < robots.len() ==> (#[trigger] robots@[i]).wf(),
    ensures
        r == safety(robots@, seconds as int),
{
    let mut moved = robots.clone();
    assert(moved@ =~= robots@);
    simulate(&mut moved, seconds);
    let a = count_in_quadrant(&moved, 0);
    let b = count_in_quadrant(&moved, 1);
    let c = count_in_quadrant(&moved, 2);
    let d = count_in_quadrant(&moved, 3);
    proof {
        assert forall|q: int, k: int| 0 <= k <= moved.len() implies #[trigger] quadrant_count(moved@, 0, q, k)
            == quadrant_count(robots@, seconds as int, q, k) by {
            lemma_quadrant_count_moved(moved@, robots@, seconds as int, q, k);
        }
        assert(a * b <= 0xffff * 0xffff) by (nonlinear_arith)
            requires
                a <= 0xffff,
                b <= 0xffff,
        ;
        assert(a * b * c <= 0xffff * 0xffff * 0xffff) by (nonlinear_arith)
            requires
                a * b <= 0xffff * 0xffff,
                c <= 0xffff,
        ;
        assert(a * b * c * d <= 0xffff * 0xffff * 0xffff * 0xffff) by (nonlinear_arith)
            requires
                a * b * c <= 0xffff * 0xffff * 0xffff,
                d <= 0xffff,
        ;
    }
    a * b * c * d
}

proof fn lemma_quadrant_count_moved(moved: Seq<Robot>, robots: Seq<Robot>, n: int, q: int, k: int)
    requires
        0 <= k <= moved.len(),
        moved.len() == robots.len(),
        forall|i: int|
            0 <= i < moved.len() ==> (#[trigger] moved[i]).wf() && (moved[i].point.x as int, moved[i].point.y as int)
                == robots[i].position_after(n),
    ensures
        quadrant_count(moved, 0, q, k) == quadrant_count(robots, n, q, k),
    decreases k,
{
    if k > 0 {
        lemma_quadrant_count_moved(moved, robots, n, q, k - 1);
        let r = moved[k - 1];
        vstd::arithmetic::div_mod::lemma_small_mod(r.point.x as nat, WIDTH as nat);
        vstd::arithmetic::div_mod::lemma_small_mod(r.point.y as nat, HEIGHT as nat);
        assert(r.position_after(0) == (r.point.x as int, r.point.y as int));
    }
}

} // verus!
