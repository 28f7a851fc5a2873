use vstd::prelude::*;

verus! {

/// One of the three coordinate axes of 3D space.
#[derive(Clone, Copy, Debug, PartialEq, Eq, Structural)]
pub enum Axis {
    X,
    Y,
    Z,
}

/// The position of an axis among the coordinates: X is 0, Y is 1, Z is 2.
pub open spec fn axis_index(axis: Axis) -> usize {
    match axis {
        Axis::X => 0,
        Axis::Y => 1,
        Axis::Z => 2,
    }
}

/// The axis at a coordinate position below 3.
pub open spec fn axis_at(index: usize) -> Axis
    recommends
        index < 3,
{
    if index == 0 {
        Axis::X
    } else if index == 1 {
        Axis::Y
    } else {
        Axis::Z
    }
}

impl From<Axis> for usize {
    fn from(axis: Axis) -> (index: usize)
        ensures
            index == axis_index(axis),
    {
        match axis {
            Axis::X => 0,
            Axis::Y => 1,
            Axis::Z => 2,
        }
    }
}

impl vstd::std_specs::convert::FromSpecImpl<Axis> for usize {
    open spec fn obeys_from_spec() -> bool {
        true
    }

    open spec fn from_spec(axis: Axis) -> usize {
        axis_index(axis)
    }
}

impl Axis {
    /// The axis at coordinate position `axis`; only 0, 1 and 2 name an axis.
    pub fn from(axis: usize) -> (result: Axis)
        requires
            axis < 3,
        ensures
            result == axis_at(axis),
            axis_index(result) == axis,
    {
        if axis == 0 {
            Axis::X
        } else if axis == 1 {
            Axis::Y
        } else {
            Axis::Z
        }
    }

    /// The three coordinate positions in cyclic order, starting at `initial_axis`.
    pub fn iter(initial_axis: Axis) -> (axes: Vec<usize>)
        ensures
            axes@.len() == 3,
            forall|i: int| 0 <= i < 3 ==> #[trigger] axes@[i] == (axis_index(initial_axis) + i) % 3,
    {
        let start: usize = initial_axis.into();
        let mut axes: Vec<usize> = Vec::new();
        let mut a: usize = start;
        while a < start + 3
            invariant
                start == axis_index(initial_axis),
                start <= a <= start + 3,
                axes@.len() == a - start,
                forall|i: int| 0 <= i < axes@.len() ==> #[trigger] axes@[i] == (start + i) % 3,
            decreases start + 3 - a,
        {
            axes.push(a % 3);
            a = a + 1;
        }
        axes
    }
}

/// An axis together with a direction along it: `true` for the positive direction.
#[derive(Clone, Copy, Debug)]
pub struct AxisDirection(pub Axis, pub bool);

/// Converting an axis to its coordinate position and back gives the same axis,
/// and converting a position below 3 to an axis and back gives the same position.
pub proof fn lemma_axis_index_roundtrip(axis: Axis, index: usize)
    ensures
        axis_at(axis_index(axis)) == axis,
        index < 3 ==> axis_index(axis_at(index)) == index,
{
}

/// The cyclic order of `Axis::iter` visits every coordinate position exactly once.
pub proof fn lemma_axis_cycle_is_permutation(initial_axis: Axis, i: int, j: int)
    requires
        0 <= i < 3,
        0 <= j < 3,
        i != j,
    ensures
        (axis_index(initial_axis) + i) % 3 != (axis_index(initial_axis) + j) % 3,
        (axis_index(initial_axis) + i) % 3 < 3,
{
}

} // verus!
