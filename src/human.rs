use vstd::prelude::*;

verus! {

/// Position units per pixel: positions and velocities are fixed-point values.
pub const SCALE: i32 = 100;

/// Width of the field, in position units (860 pixels).
pub const WINDOW_WIDTH: i32 = 86000;

/// Height of the field, in position units (660 pixels).
pub const WINDOW_HEIGHT: i32 = 66000;

/// Lowest initial velocity component (inclusive), in position units per tick.
pub const MIN_SPEED: i32 = -100;

/// Highest initial velocity component (exclusive), in position units per tick.
pub const MAX_SPEED: i32 = 200;

/// Bound on the magnitude of a velocity component, reflections included.
pub const SPEED_BOUND: i32 = 200;

/// Radius of the circle around each agent; two agents touch when their circles overlap.
pub const CONTAMINATION_RADIUS: i32 = 500;

/// One individual: identity, position, velocity and the instant (in
/// milliseconds) at which it became infected.
#[derive(Clone, Copy, Debug, PartialEq, Eq)]
pub struct Human {
    pub id: u64,
    pub x: i32,
    pub y: i32,
    pub vx: i32,
    pub vy: i32,
    pub infected_at: i64,
}

/// One axis of the motion is kept near the field: the position stays within one
/// speed bound of `[0, w]`, and so does the next position while outside it.
pub open spec fn axis_ok(p: int, v: int, w: int) -> bool {
    &&& -SPEED_BOUND <= v <= SPEED_BOUND
    &&& -SPEED_BOUND <= p <= w + SPEED_BOUND
    &&& p < 0 ==> p + v >= -SPEED_BOUND
    &&& p > w ==> p + v <= w + SPEED_BOUND
}

/// Position after one step along an axis.
pub open spec fn axis_pos(p: int, v: int) -> int {
    p + v
}

/// Velocity after one step along an axis: reversed when the new position is
/// outside `[0, w]`.
pub open spec fn axis_vel(p: int, v: int, w: int) -> int {
    if p + v < 0 || p + v > w {
        -v
    } else {
        v
    }
}

/// Two circles of radius `CONTAMINATION_RADIUS` around the two points overlap.
pub open spec fn circles_touch(x1: int, y1: int, x2: int, y2: int) -> bool {
    let dx = x2 - x1;
    let dy = y2 - y1;
    dx * dx + dy * dy <= (2 * CONTAMINATION_RADIUS) * (2 * CONTAMINATION_RADIUS)
}

/// Two agents are in contact.
pub open spec fn touching(a: Human, b: Human) -> bool {
    circles_touch(a.x as int, a.y as int, b.x as int, b.y as int)
}

impl Human {
    /// The agent's motion stays near the field.
    pub open spec fn in_bounds(self) -> bool {
        axis_ok(self.x as int, self.vx as int, WINDOW_WIDTH as int)
            && axis_ok(self.y as int, self.vy as int, WINDOW_HEIGHT as int)
    }

    /// The agent after one movement step followed by the wall bounce.
    pub open spec fn moved(self) -> Human {
        Human {
            x: axis_pos(self.x as int, self.vx as int) as i32,
            y: axis_pos(self.y as int, self.vy as int) as i32,
            vx: axis_vel(self.x as int, self.vx as int, WINDOW_WIDTH as int) as i32,
            vy: axis_vel(self.y as int, self.vy as int, WINDOW_HEIGHT as int) as i32,
            ..self
        }
    }

    /// The same agent, infected at instant `now`.
    pub open spec fn infected_from(self, now: i64) -> Human {
        Human { infected_at: now, ..self }
    }

    /// An agent at a given position and velocity.
    pub fn at(id: u64, x: i32, y: i32, vx: i32, vy: i32, infected_at: i64) -> (h: Human)
        ensures
            h == (Human { id, x, y, vx, vy, infected_at }),
    {
        Human { id, x, y, vx, vy, infected_at }
    }

    /// An agent at a random position in `[start_x, end_x) x [start_y, end_y)`,
    /// with random velocity components in `[MIN_SPEED, MAX_SPEED)`.
    pub fn new(id: u64, start_x: i32, start_y: i32, end_x: i32, end_y: i32) -> (h: Human)
        requires
            start_x < end_x,
            start_y < end_y,
        ensures
            h.id == id,
            start_x <= h.x < end_x,
            start_y <= h.y < end_y,
            MIN_SPEED <= h.vx < MAX_SPEED,
            MIN_SPEED <= h.vy < MAX_SPEED,
            h.infected_at == 0,
    {
        let x = crate::dice::random_in(start_x as i64, end_x as i64) as i32;
        let y = crate::dice::random_in(start_y as i64, end_y as i64) as i32;
        let vx = crate::dice::random_in(MIN_SPEED as i64, MAX_SPEED as i64) as i32;
        let vy = crate::dice::random_in(MIN_SPEED as i64, MAX_SPEED as i64) as i32;
        Human { id, x, y, vx, vy, infected_at: 0 }
    }

    /// Moves the agent by its velocity.
    pub fn update_position(&mut self)
        requires
            old(self).in_bounds(),
        ensures
            *final(self) == (Human {
                x: (old(self).x + old(self).vx) as i32,
                y: (old(self).y + old(self).vy) as i32,
                ..*old(self)
            }),
    {
        self.x = self.x + self.vx;
        self.y = self.y + self.vy;
    }

    /// Reverses each velocity component whose position lies outside the field.
    pub fn wall_bump(&mut self)
        requires
            -2 * SPEED_BOUND - 1 <= old(self).vx <= 2 * SPEED_BOUND + 1,
            -2 * SPEED_BOUND - 1 <= old(self).vy <= 2 * SPEED_BOUND + 1,
        ensures
            *final(self) == (Human {
                vx: if old(self).x < 0 || old(self).x > WINDOW_WIDTH {
                    -old(self).vx
                } else {
                    old(self).vx as int
                } as i32,
                vy: if old(self).y < 0 || old(self).y > WINDOW_HEIGHT {
                    -old(self).vy
                } else {
                    old(self).vy as int
                } as i32,
                ..*old(self)
            }),
    {
        if self.x < 0 || self.x > WINDOW_WIDTH {
            self.vx = -self.vx;
        }
        if self.y < 0 || self.y > WINDOW_HEIGHT {
            self.vy = -self.vy;
        }
    }

    /// One step of motion: move, then bounce off the walls.
    pub fn advance(&mut self)
        requires
            old(self).in_bounds(),
        ensures
            *final(self) == old(self).moved(),
            final(self).in_bounds(),
    {
        self.update_position();
        self.wall_bump();
    }

    /// Whether this agent is in contact with `other`.
    pub fn touches(&self, other: &Human) -> (r: bool)
        ensures
            r == touching(*self, *other),
    {
        let dx: i128 = other.x as i128 - self.x as i128;
        let dy: i128 = other.y as i128 - self.y as i128;
        assert(0 <= dx * dx <= 0x1_0000_0000_0000_0000) by (nonlinear_arith)
            requires
                -0x1_0000_0000 <= dx <= 0x1_0000_0000,
        ;
        assert(0 <= dy * dy <= 0x1_0000_0000_0000_0000) by (nonlinear_arith)
            requires
                -0x1_0000_0000 <= dy <= 0x1_0000_0000,
        ;
        let reach: i128 = 2 * CONTAMINATION_RADIUS as i128;
        assert(reach * reach == 1_000_000) by (nonlinear_arith)
            requires
                reach == 1000,
        ;
        dx * dx + dy * dy <= reach * reach
    }
}

} // verus!
