use vstd::prelude::*;

use crate::ray::RayType;

verus! {

/// Which faces of a surface are rendered: both, only the front or only the back.
#[derive(Clone, Copy, Debug, PartialEq, Eq, Structural)]
pub enum MaterialSide {
    Both,
    Front,
    Back,
}

impl Default for MaterialSide {
    fn default() -> (side: MaterialSide)
        ensures
            side == MaterialSide::Front,
    {
        MaterialSide::Front
    }
}

/// The faces a ray of `ray_type` can hit on a surface of `side`: shadow rays
/// are blocked by either face, other rays by the faces the material renders.
pub open spec fn spec_hit_sides(side: MaterialSide, ray_type: RayType) -> MaterialSide {
    if side == MaterialSide::Both || ray_type == RayType::Shadow {
        MaterialSide::Both
    } else {
        side
    }
}

impl MaterialSide {
    /// The faces of this surface that a ray of `ray_type` can hit.
    pub fn hit_sides(self, ray_type: RayType) -> (sides: MaterialSide)
        ensures
            sides == spec_hit_sides(self, ray_type),
    {
        match (self, ray_type) {
            (MaterialSide::Both, _) | (_, RayType::Shadow) => MaterialSide::Both,
            (side, _) => side,
        }
    }

    /// Whether the geometric normal must be negated for shading: a two-sided
    /// surface turns its normal against the ray, a back-sided surface always
    /// uses the back face. `normal_along_ray` tells whether the normal points
    /// along the ray direction (positive dot product).
    pub fn flips_normal(self, normal_along_ray: bool) -> (flip: bool)
        ensures
            flip == match self {
                MaterialSide::Both => normal_along_ray,
                MaterialSide::Front => false,
                MaterialSide::Back => true,
            },
    {
        match self {
            MaterialSide::Both => normal_along_ray,
            MaterialSide::Front => false,
            MaterialSide::Back => true,
        }
    }

    /// For a solid hit between a near and a far distance along the ray, whether
    /// the far hit is the one seen through faces `self`: two-sided hits take the
    /// far one only when the near one lies behind the ray origin, front faces
    /// are always near and back faces always far.
    pub fn takes_far_hit(self, near_behind_origin: bool) -> (far: bool)
        ensures
            far == match self {
                MaterialSide::Both => near_behind_origin,
                MaterialSide::Front => false,
                MaterialSide::Back => true,
            },
    {
        match self {
            MaterialSide::Both => near_behind_origin,
            MaterialSide::Front => false,
            MaterialSide::Back => true,
        }
    }
}

/// Shadow rays see both faces of every surface, whatever it renders.
pub proof fn lemma_shadow_rays_hit_both_sides(side: MaterialSide)
    ensures
        spec_hit_sides(side, RayType::Shadow) == MaterialSide::Both,
{
}

/// Primary and secondary rays see exactly the faces the material renders.
pub proof fn lemma_camera_rays_hit_rendered_sides(side: MaterialSide, ray_type: RayType)
    requires
        ray_type != RayType::Shadow,
    ensures
        spec_hit_sides(side, ray_type) == side,
{
}

} // verus!
