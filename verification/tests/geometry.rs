use raytrace::{
    occlusion_ray_count, reflected_ray_count, Axis, AxisDirection, LightType, MaterialSide,
    RayType,
};

#[test]
fn axes_convert_to_positions_and_back() {
    assert_eq!(usize::from(Axis::X), 0);
    assert_eq!(usize::from(Axis::Y), 1);
    assert_eq!(usize::from(Axis::Z), 2);
    for index in 0..3 {
        assert_eq!(usize::from(Axis::from(index)), index);
    }
    assert_eq!(Axis::from(2), Axis::Z);
}

#[test]
fn axis_iteration_cycles_from_the_initial_axis() {
    assert_eq!(Axis::iter(Axis::X), vec![0, 1, 2]);
    assert_eq!(Axis::iter(Axis::Y), vec![1, 2, 0]);
    assert_eq!(Axis::iter(Axis::Z), vec![2, 0, 1]);
}

#[test]
fn axis_directions_carry_axis_and_sign() {
    let AxisDirection(axis, positive) = AxisDirection(Axis::Y, false);
    assert_eq!(axis, Axis::Y);
    assert!(!positive);
}

#[test]
fn materials_render_front_faces_by_default() {
    assert_eq!(MaterialSide::default(), MaterialSide::Front);
}

#[test]
fn shadow_rays_hit_both_sides() {
    for side in [MaterialSide::Both, MaterialSide::Front, MaterialSide::Back] {
        assert_eq!(side.hit_sides(RayType::Shadow), MaterialSide::Both);
        assert_eq!(side.hit_sides(RayType::Primary), side);
        assert_eq!(side.hit_sides(RayType::Secondary(2)), side);
    }
}

#[test]
fn normals_are_flipped_by_side() {
    assert!(MaterialSide::Both.flips_normal(true));
    assert!(!MaterialSide::Both.flips_normal(false));
    assert!(!MaterialSide::Front.flips_normal(true));
    assert!(MaterialSide::Back.flips_normal(false));
}

#[test]
fn solid_hits_pick_near_or_far_by_side() {
    assert!(MaterialSide::Both.takes_far_hit(true));
    assert!(!MaterialSide::Both.takes_far_hit(false));
    assert!(!MaterialSide::Front.takes_far_hit(true));
    assert!(MaterialSide::Back.takes_far_hit(false));
}

#[test]
fn ray_depths() {
    assert_eq!(RayType::Primary.get_depth(), 0);
    assert_eq!(RayType::Secondary(3).get_depth(), 3);
    assert_ne!(RayType::Shadow, RayType::Primary);
    assert_ne!(LightType::Ambient, LightType::Point);
}

#[test]
fn ray_budgets_shrink_with_depth() {
    assert_eq!(reflected_ray_count(32, 0), 32);
    assert_eq!(reflected_ray_count(32, 1), 4);
    assert_eq!(reflected_ray_count(32, 2), 1);
    assert_eq!(reflected_ray_count(0, 0), 1);
    assert_eq!(occlusion_ray_count(16, 0), 16);
    assert_eq!(occlusion_ray_count(16, 1), 4);
    assert_eq!(occlusion_ray_count(16, 2), 1);
    assert_eq!(occlusion_ray_count(u16::MAX, 7), 3);
}
