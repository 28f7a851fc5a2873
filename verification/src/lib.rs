//! Integer and combinatorial core of a ray tracer: axes, ray kinds, material
//! sides, the k-d tree construction rules, pixel ordering and encoding,
//! texture addressing, mesh face assembly and camera field rules.
mod axis;
mod bounds;
mod camera;
mod kdtree;
mod lights;
mod material;
mod mesh;
mod pixels;
mod ray;
mod texture;

pub use crate::axis::{Axis, AxisDirection};
pub use crate::bounds::{BoundedObject, KdTreeAccelerator, ObjectWithBounds, UnboundedObject};
pub use crate::camera::{CameraField, CameraFieldError, CameraFieldsSeen};
pub use crate::kdtree::{
    build_start, candidate_tie_break, random_split, refine_step, split_partition, sweep_counts,
    BuildStart, CandidateKind, KdTree, NodePlan, RefineStep, SplitEvent,
};
pub use crate::lights::LightType;
pub use crate::material::MaterialSide;
pub use crate::mesh::{mesh_faces, mesh_faces_in_range};
pub use crate::pixels::{
    encode_rgba, pack_argb, pixel_position, render_order, to_argb_u32, ALPHA_BIT_MASK,
};
pub use crate::ray::{occlusion_ray_count, reflected_ray_count, RayType};
pub use crate::texture::{Texture, TextureImage};
