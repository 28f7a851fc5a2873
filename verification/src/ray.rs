use vstd::prelude::*;

verus! {

/// The role of a ray: cast from the camera, spawned at a hit at some bounce
/// depth, or cast towards a light to test for shadows.
#[derive(Clone, Copy, Debug, PartialEq, Eq, Structural)]
pub enum RayType {
    Primary,
    Secondary(u8),
    Shadow,
}

/// `base` raised to the power `exp`.
pub open spec fn pow_nat(base: nat, exp: nat) -> nat
    decreases exp,
{
    if exp == 0 {
        1
    } else {
        base * pow_nat(base, (exp - 1) as nat)
    }
}

/// The number of rays spawned at bounce `depth` out of a budget of `max_rays`
/// at the camera, when each bounce divides the budget by `base`; at least one.
pub open spec fn spec_rays_at_depth(max_rays: u16, base: nat, depth: u8) -> u16 {
    let count = max_rays as nat / pow_nat(base, depth as nat);
    if count >= 1 {
        count as u16
    } else {
        1
    }
}

impl RayType {
    /// The bounce depth of a camera or bounce ray: 0 for camera rays.
    /// Shadow rays have no depth.
    pub fn get_depth(&self) -> (depth: u8)
        requires
            *self != RayType::Shadow,
        ensures
            depth == match *self {
                RayType::Secondary(d) => d,
                _ => 0,
            },
    {
        match self {
            RayType::Primary => 0,
            RayType::Secondary(depth) => *depth,
            RayType::Shadow => 0,
        }
    }
}

proof fn lemma_pow_positive(base: nat, e: nat)
    requires
        base >= 1,
    ensures
        pow_nat(base, e) >= 1,
    decreases e,
{
    if e > 0 {
        lemma_pow_positive(base, (e - 1) as nat);
        assert(base * pow_nat(base, (e - 1) as nat) >= 1) by (nonlinear_arith)
            requires
                base >= 1,
                pow_nat(base, (e - 1) as nat) >= 1,
        ;
    }
}

proof fn lemma_pow_monotone(base: nat, e1: nat, e2: nat)
    requires
        base >= 1,
        e1 <= e2,
    ensures
        1 <= pow_nat(base, e1) <= pow_nat(base, e2),
    decreases e2,
{
    lemma_pow_positive(base, e1);
    if e2 > e1 {
        lemma_pow_monotone(base, e1, (e2 - 1) as nat);
        let p = pow_nat(base, (e2 - 1) as nat);
        assert(p <= base * p) by (nonlinear_arith)
            requires
                base >= 1,
        ;
    }
}

fn rays_at_depth(max_rays: u16, base: u16, depth: u8) -> (count: u16)
    requires
        base >= 1,
        pow_nat(base as nat, depth as nat) <= u16::MAX,
    ensures
        count == spec_rays_at_depth(max_rays, base as nat, depth),
{
    let mut divisor: u16 = 1;
    let mut i: u8 = 0;
    while i < depth
        invariant
            base >= 1,
            i <= depth,
            divisor as nat == pow_nat(base as nat, i as nat),
            pow_nat(base as nat, depth as nat) <= u16::MAX,
        decreases depth - i,
    {
        proof {
            lemma_pow_monotone(base as nat, (i + 1) as nat, depth as nat);
        }
        assert(divisor as nat * base as nat == pow_nat(base as nat, (i + 1) as nat)) by {
            assert(pow_nat(base as nat, (i + 1) as nat) == base as nat * pow_nat(base as nat, i as nat));
            assert(divisor as nat * base as nat == base as nat * divisor as nat) by (nonlinear_arith);
        }
        divisor = divisor * base;
        i = i + 1;
    }
    proof {
        lemma_pow_monotone(base as nat, 0, depth as nat);
    }
    let count = max_rays / divisor;
    if count >= 1 {
        count
    } else {
        1
    }
}

/// The number of glossy reflection rays spawned at bounce `depth`: the budget
/// shrinks eightfold per bounce and never drops below one ray.
pub fn reflected_ray_count(max_reflected_rays: u16, depth: u8) -> (count: u16)
    requires
        pow_nat(8, depth as nat) <= u16::MAX,
    ensures
        count == spec_rays_at_depth(max_reflected_rays, 8, depth),
{
    rays_at_depth(max_reflected_rays, 8, depth)
}

/// The number of ambient occlusion rays spawned at bounce `depth`: the budget
/// shrinks fourfold per bounce and never drops below one ray.
pub fn occlusion_ray_count(max_occlusion_rays: u16, depth: u8) -> (count: u16)
    requires
        pow_nat(4, depth as nat) <= u16::MAX,
    ensures
        count == spec_rays_at_depth(max_occlusion_rays, 4, depth),
{
    rays_at_depth(max_occlusion_rays, 4, depth)
}

/// The ray budget at a bounce is at least one ray and never exceeds the
/// budget at any shallower bounce.
pub proof fn lemma_ray_budget_shrinks_with_depth(max_rays: u16, base: nat, d1: u8, d2: u8)
    requires
        base >= 1,
        d1 <= d2,
    ensures
        1 <= spec_rays_at_depth(max_rays, base, d2) <= spec_rays_at_depth(max_rays, base, d1),
        spec_rays_at_depth(max_rays, base, d1) <= if max_rays >= 1 { max_rays } else { 1 },
{
    lemma_pow_monotone(base, 0, d1 as nat);
    lemma_pow_monotone(base, d1 as nat, d2 as nat);
    let p1 = pow_nat(base, d1 as nat);
    let p2 = pow_nat(base, d2 as nat);
    let m = max_rays as nat;
    assert(m / p2 <= m / p1) by {
        vstd::arithmetic::div_mod::lemma_div_is_ordered_by_denominator(m as int, p1 as int, p2 as int);
    }
    assert(m / p1 <= m) by {
        vstd::arithmetic::div_mod::lemma_div_is_ordered_by_denominator(m as int, 1, p1 as int);
    }
}

} // verus!
