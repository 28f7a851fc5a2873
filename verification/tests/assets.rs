use raytrace::{
    mesh_faces, mesh_faces_in_range, CameraField, CameraFieldError, CameraFieldsSeen, Texture,
};

fn two_by_two() -> Vec<u8> {
    vec![1, 1, 1, 2, 2, 2, 3, 3, 3, 4, 4, 4]
}

#[test]
fn texture_images_need_enough_bytes() {
    let mut texture = Texture::new("short.png");
    assert!(!texture.set_image(2, 2, vec![0; 11]));
    assert!(!texture.is_loaded());
    assert_eq!((texture.get_width(), texture.get_height()), (0, 0));
    assert!(texture.set_image(2, 2, vec![0; 12]));
    assert!(texture.is_loaded());

    let mut empty = Texture::new("empty.png");
    assert!(empty.set_image(0, 0, Vec::new()));
    assert!(empty.is_loaded());
}

#[test]
fn textures_load_once() {
    let mut texture = Texture::new("wood.png");
    assert_eq!(texture.texture_path(), "wood.png");
    assert!(!texture.is_loaded());
    assert_eq!((texture.get_width(), texture.get_height()), (0, 0));
    assert!(texture.set_image(2, 2, two_by_two()));
    assert!(texture.is_loaded());
    assert_eq!((texture.get_width(), texture.get_height()), (2, 2));
}

#[test]
fn texel_lookups_are_clamped_to_the_image() {
    let mut texture = Texture::new("checker.png");
    assert!(texture.set_image(2, 2, two_by_two()));
    assert_eq!(texture.texel(0, 0), (1, 1, 1));
    assert_eq!(texture.texel(1, 0), (2, 2, 2));
    assert_eq!(texture.texel(0, 1), (3, 3, 3));
    assert_eq!(texture.texel(1, 1), (4, 4, 4));
    assert_eq!(texture.texel(10, 10), (4, 4, 4));
    assert_eq!(texture.texel(7, 0), (2, 2, 2));
}

#[test]
fn mesh_faces_take_three_indexes_each() {
    let indices = vec![0, 1, 2, 2, 1, 3, 0];
    assert_eq!(mesh_faces(&indices), vec![(0, 1, 2), (2, 1, 3)]);
    assert!(mesh_faces(&Vec::new()).is_empty());
}

#[test]
fn mesh_faces_must_index_existing_vertices() {
    let indices = vec![0, 1, 2, 2, 1, 3, 9];
    // four positions, no normals, no texture coordinates
    assert!(mesh_faces_in_range(&indices, 12, 0, 0));
    assert!(!mesh_faces_in_range(&indices, 9, 0, 0));
    // normals for three vertices only
    assert!(!mesh_faces_in_range(&indices, 12, 9, 0));
    // texture coordinates for four vertices
    assert!(mesh_faces_in_range(&indices, 12, 12, 8));
    assert!(!mesh_faces_in_range(&indices, 12, 12, 7));
}

#[test]
fn camera_fields_are_read_once() {
    let mut seen = CameraFieldsSeen::new();
    assert_eq!(seen.accept(CameraField::Fov), Ok(()));
    assert_eq!(seen.finish(), Err(CameraFieldError::MissingField(CameraField::Position)));
    assert_eq!(seen.accept(CameraField::Position), Ok(()));
    assert_eq!(
        seen.accept(CameraField::Fov),
        Err(CameraFieldError::DuplicateField(CameraField::Fov))
    );
    assert_eq!(seen.finish(), Ok(()));
    assert!(seen.fov && seen.position && !seen.target && !seen.up);
}

#[test]
fn camera_field_names() {
    assert_eq!(CameraField::Fov.name(), "fov");
    assert_eq!(CameraField::Position.name(), "position");
    assert_eq!(CameraField::Target.name(), "target");
    assert_eq!(CameraField::Up.name(), "up");
}
