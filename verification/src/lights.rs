use vstd::prelude::*;

verus! {

/// The kinds of light a scene can hold.
#[derive(Clone, Copy, Debug, PartialEq, Eq, Structural)]
pub enum LightType {
    Ambient,
    Point,
}

} // verus!
