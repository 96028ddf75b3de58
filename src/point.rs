use vstd::prelude::*;

verus! {

/// Largest coordinate magnitude that a scene position may have: up to this
/// bound every integer is held exactly by the host's single-precision floats.
pub const EXACT_LIMIT: i32 = 16777216;

/// One of the two quarter turns a piece may make.
#[derive(Clone, Copy, Debug, PartialEq, Eq, Structural)]
pub enum Turn {
    /// A quarter turn counter-clockwise (+90 degrees, with y pointing up).
    Left,
    /// A quarter turn clockwise (-90 degrees).
    Right,
}

impl Turn {
    /// The signed angle of the turn, in degrees.
    pub fn degrees(self) -> (r: i32)
        ensures
            r == (if self == Turn::Left { 90i32 } else { -90i32 }),
    {
        match self {
            Turn::Left => 90,
            Turn::Right => -90,
        }
    }
}

/// An integer point of the playfield plane.
#[derive(Clone, Copy, Debug, PartialEq, Eq, Structural)]
pub struct Point {
    pub x: i32,
    pub y: i32,
}

/// Both coordinates lie within the exactly representable range.
pub open spec fn representable(p: Point) -> bool {
    -EXACT_LIMIT <= p.x <= EXACT_LIMIT && -EXACT_LIMIT <= p.y <= EXACT_LIMIT
}

/// x coordinate of `p` turned a quarter turn about `o`.
pub open spec fn rotated_x(p: Point, turn: Turn, o: Point) -> int {
    match turn {
        Turn::Left => o.x - (p.y - o.y),
        Turn::Right => o.x + (p.y - o.y),
    }
}

/// y coordinate of `p` turned a quarter turn about `o`.
pub open spec fn rotated_y(p: Point, turn: Turn, o: Point) -> int {
    match turn {
        Turn::Left => o.y + (p.x - o.x),
        Turn::Right => o.y - (p.x - o.x),
    }
}

/// `p` turned a quarter turn about `o`.
pub open spec fn rotated(p: Point, turn: Turn, o: Point) -> Point {
    Point { x: rotated_x(p, turn, o) as i32, y: rotated_y(p, turn, o) as i32 }
}

impl Default for Point {
    fn default() -> (r: Point)
        ensures
            r == (Point { x: 0, y: 0 }),
    {
        Point { x: 0, y: 0 }
    }
}

impl From<(i32, i32)> for Point {
    fn from(value: (i32, i32)) -> (r: Point) {
        Point { x: value.0, y: value.1 }
    }
}

impl vstd::std_specs::convert::FromSpecImpl<(i32, i32)> for Point {
    open spec fn obeys_from_spec() -> bool {
        true
    }

    open spec fn from_spec(value: (i32, i32)) -> Point {
        Point { x: value.0, y: value.1 }
    }
}

impl Point {
    pub fn new(x: i32, y: i32) -> (r: Point)
        ensures
            r.x == x,
            r.y == y,
    {
        Point { x, y }
    }

    /// Turns the point a quarter turn about `origin`, or about (0, 0) when no
    /// origin is given.
    ///
    /// A quarter turn maps grid points onto grid points, so the result is the
    /// exact image of the point: (1, 0) turned `Left` about (0, 0) is (0, 1).
    pub fn rotate(&mut self, angle: Turn, origin: Option<&Point>)
        requires
            representable(*old(self)),
            origin matches Some(o) ==> representable(*o),
        ensures
            *final(self) == rotated(
                *old(self),
                angle,
                match origin {
                    Some(o) => *o,
                    None => Point { x: 0, y: 0 },
                },
            ),
            rotated_x(*old(self), angle, match origin {
                Some(o) => *o,
                None => Point { x: 0, y: 0 },
            }) == final(self).x,
            rotated_y(*old(self), angle, match origin {
                Some(o) => *o,
                None => Point { x: 0, y: 0 },
            }) == final(self).y,
    {
        let o = match origin {
            Some(o) => *o,
            None => Point::default(),
        };
        let dx = self.x - o.x;
        let dy = self.y - o.y;
        match angle {
            Turn::Left => {
                self.x = o.x - dy;
                self.y = o.y + dx;
            },
            Turn::Right => {
                self.x = o.x + dy;
                self.y = o.y - dx;
            },
        }
    }
}

} // verus!
