use rand::Rng;
use vstd::prelude::*;

verus! {

/// Relies on rand's `Rng::gen_range` on the thread-local generator: a value in `[0, n)`;
/// it panics when the range is empty, which `requires` rules out.
#[verifier::external_body]
pub(crate) fn random_below(n: usize) -> (r: usize)
    requires
        n > 0,
    ensures
        r < n,
{
    rand::thread_rng().gen_range(0, n)
}

/// A coordinate axis: rotations turn about one, and hierarchy nodes split along one.
#[derive(Clone, Copy, Debug, PartialEq, Eq, Structural)]
pub enum Axis {
    X,
    Y,
    Z,
}

impl Axis {
    /// Position of the axis among the three coordinates.
    pub open spec fn spec_index(self) -> usize {
        match self {
            Axis::X => 0,
            Axis::Y => 1,
            Axis::Z => 2,
        }
    }

    /// Position of the axis among the three coordinates (x = 0, y = 1, z = 2).
    #[verifier::when_used_as_spec(spec_index)]
    pub fn index(self) -> (r: usize)
        ensures
            r == self.spec_index(),
            r < 3,
    {
        match self {
            Axis::X => 0,
            Axis::Y => 1,
            Axis::Z => 2,
        }
    }

    /// The axis at coordinate position `i`, if there is one.
    pub fn from_index(i: usize) -> (r: Option<Axis>)
        ensures
            i < 3 <==> r.is_some(),
            r matches Some(a) ==> a.spec_index() == i,
    {
        match i {
            0 => Some(Axis::X),
            1 => Some(Axis::Y),
            2 => Some(Axis::Z),
            _ => None,
        }
    }

    /// An axis drawn at random from the thread-local generator.
    pub fn random() -> (r: Axis) {
        let i = random_below(3);
        match i {
            0 => Axis::X,
            1 => Axis::Y,
            _ => Axis::Z,
        }
    }
}

/// A primitive whose surface normals face the other way; the geometry is unchanged.
pub struct FlipNormal<T>(pub T);

} // verus!
