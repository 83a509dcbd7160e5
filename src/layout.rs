use vstd::prelude::*;

verus! {

/// Number of scalars in one particle's group of the flat buffer.
pub const STRIDE: usize = 8;

/// Where each field of a particle sits within its group of `STRIDE` scalars.
///
/// `radius` is one scalar, `color` three, `velocity` and `position` two each
/// (x, then y). The offsets are chosen by the host.
#[derive(Clone, Copy, Debug)]
pub struct Layout {
    pub radius: usize,
    pub color: usize,
    pub velocity: usize,
    pub position: usize,
}

/// The half-open ranges [a, a + la) and [b, b + lb) do not meet.
pub open spec fn apart(a: int, la: int, b: int, lb: int) -> bool {
    a + la <= b || b + lb <= a
}

impl Layout {
    /// Every field lies inside the group, and no two fields share a scalar.
    pub open spec fn wf(self) -> bool {
        &&& self.radius + 1 <= STRIDE
        &&& self.color + 3 <= STRIDE
        &&& self.velocity + 2 <= STRIDE
        &&& self.position + 2 <= STRIDE
        &&& apart(self.radius as int, 1, self.color as int, 3)
        &&& apart(self.radius as int, 1, self.velocity as int, 2)
        &&& apart(self.radius as int, 1, self.position as int, 2)
        &&& apart(self.color as int, 3, self.velocity as int, 2)
        &&& apart(self.color as int, 3, self.position as int, 2)
        &&& apart(self.velocity as int, 2, self.position as int, 2)
    }

    pub fn new(radius: usize, color: usize, velocity: usize, position: usize) -> (r: Layout)
        ensures
            r == (Layout { radius, color, velocity, position }),
    {
        Layout { radius, color, velocity, position }
    }

    /// Tells whether the offsets describe a usable group layout.
    pub fn is_well_formed(&self) -> (r: bool)
        ensures
            r == self.wf(),
    {
        if !(self.radius < STRIDE && self.color <= STRIDE - 3 && self.velocity <= STRIDE - 2
            && self.position <= STRIDE - 2) {
            return false;
        }
        let radius_free = ranges_apart(self.radius, 1, self.color, 3)
            && ranges_apart(self.radius, 1, self.velocity, 2)
            && ranges_apart(self.radius, 1, self.position, 2);
        let color_free = ranges_apart(self.color, 3, self.velocity, 2)
            && ranges_apart(self.color, 3, self.position, 2);
        radius_free && color_free && ranges_apart(self.velocity, 2, self.position, 2)
    }
}

fn ranges_apart(a: usize, la: usize, b: usize, lb: usize) -> (r: bool)
    requires
        a + la <= STRIDE,
        b + lb <= STRIDE,
    ensures
        r == apart(a as int, la as int, b as int, lb as int),
{
    a + la <= b || b + lb <= a
}

} // verus!
