use vstd::prelude::*;

verus! {

/// Whether vertex `index` of a triangulated mesh has a position and, when the
/// mesh has normals (three floats each) or texture coordinates (two floats
/// each), a normal and texture coordinates too. The lengths count floats.
pub open spec fn vertex_in_range(index: u32, positions_len: usize, normals_len: usize, texcoords_len: usize) -> bool {
    &&& index < positions_len / 3
    &&& normals_len == 0 || index < normals_len / 3
    &&& texcoords_len == 0 || index < texcoords_len / 2
}

/// Whether every vertex of every complete face (three consecutive indexes)
/// is in range; indexes after the last complete face belong to no face.
pub open spec fn faces_in_range(indices: Seq<u32>, positions_len: usize, normals_len: usize, texcoords_len: usize) -> bool {
    forall|i: int|
        0 <= i < (indices.len() / 3) * 3 ==> #[trigger] vertex_in_range(
            indices[i],
            positions_len,
            normals_len,
            texcoords_len,
        )
}

/// Whether every face of the mesh can be assembled: see `faces_in_range`.
pub fn mesh_faces_in_range(indices: &Vec<u32>, positions_len: usize, normals_len: usize, texcoords_len: usize) -> (ok: bool)
    ensures
        ok == faces_in_range(indices@, positions_len, normals_len, texcoords_len),
        ok <==> forall|i: int|
            0 <= i < (indices@.len() / 3) * 3 ==> {
                &&& #[trigger] indices@[i] < positions_len / 3
                &&& normals_len != 0 ==> indices@[i] < normals_len / 3
                &&& texcoords_len != 0 ==> indices@[i] < texcoords_len / 2
            },
{
    let end = (indices.len() / 3) * 3;
    let mut i: usize = 0;
    proof {
        lemma_faces_in_range_checks_each_kind(indices@, positions_len, normals_len, texcoords_len);
    }
    while i < end
        invariant
            end == (indices@.len() / 3) * 3,
            i <= end,
            forall|k: int|
                0 <= k < i ==> #[trigger] vertex_in_range(
                    indices@[k],
                    positions_len,
                    normals_len,
                    texcoords_len,
                ),
        decreases end - i,
    {
        let index = indices[i];
        if (index as usize) >= positions_len / 3 {
            assert(!vertex_in_range(indices@[i as int], positions_len, normals_len, texcoords_len));
            return false;
        }
        if normals_len != 0 && (index as usize) >= normals_len / 3 {
            assert(!vertex_in_range(indices@[i as int], positions_len, normals_len, texcoords_len));
            return false;
        }
        if texcoords_len != 0 && (index as usize) >= texcoords_len / 2 {
            assert(!vertex_in_range(indices@[i as int], positions_len, normals_len, texcoords_len));
            return false;
        }
        i = i + 1;
    }
    true
}

/// The triangles of a mesh: face `f` joins vertices `indices[3f]`,
/// `indices[3f + 1]` and `indices[3f + 2]`; trailing indexes that do not
/// make a whole face are ignored. Each vertex indexes the positions, and the
/// normals and texture coordinates when the mesh has them, which
/// `mesh_faces_in_range` tells.
pub fn mesh_faces(indices: &Vec<u32>) -> (faces: Vec<(usize, usize, usize)>)
    ensures
        faces@.len() == indices@.len() / 3,
        forall|f: int|
            0 <= f < faces@.len() ==> #[trigger] faces@[f] == (
                indices@[3 * f] as usize,
                indices@[3 * f + 1] as usize,
                indices@[3 * f + 2] as usize,
            ),
{
    let num_faces = indices.len() / 3;
    let mut faces: Vec<(usize, usize, usize)> = Vec::new();
    let mut f: usize = 0;
    while f < num_faces
        invariant
            num_faces == indices@.len() / 3,
            indices@.len() <= usize::MAX,
            f <= num_faces,
            faces@.len() == f,
            forall|g: int|
                0 <= g < f ==> #[trigger] faces@[g] == (
                    indices@[3 * g] as usize,
                    indices@[3 * g + 1] as usize,
                    indices@[3 * g + 2] as usize,
                ),
        decreases num_faces - f,
    {
        proof {
            let len = indices@.len() as int;
            assert(3 * f + 2 < len) by (nonlinear_arith)
                requires
                    f < len / 3,
                    len >= 0,
            ;
        }
        let base = 3 * f;
        faces.push((indices[base] as usize, indices[base + 1] as usize, indices[base + 2] as usize));
        f = f + 1;
    }
    faces
}

/// Every vertex of an assembled face indexes an existing position, and an
/// existing normal and texture coordinate pair when the mesh has them.
pub proof fn lemma_face_vertices_in_range(
    indices: Seq<u32>,
    positions_len: usize,
    normals_len: usize,
    texcoords_len: usize,
    f: int,
    k: int,
)
    requires
        faces_in_range(indices, positions_len, normals_len, texcoords_len),
        0 <= f < indices.len() / 3,
        0 <= k < 3,
    ensures
        vertex_in_range(indices[3 * f + k], positions_len, normals_len, texcoords_len),
        indices[3 * f + k] < positions_len / 3,
        normals_len != 0 ==> indices[3 * f + k] < normals_len / 3,
        texcoords_len != 0 ==> indices[3 * f + k] < texcoords_len / 2,
{
    assert(3 * f + k < (indices.len() / 3) * 3);
}

/// A mesh passes the check exactly when every vertex of every complete face
/// has a position, has a normal when the mesh has normals, and has texture
/// coordinates when the mesh has them; each kind of data is checked on its
/// own, whatever the other kinds hold.
pub proof fn lemma_faces_in_range_checks_each_kind(
    indices: Seq<u32>,
    positions_len: usize,
    normals_len: usize,
    texcoords_len: usize,
)
    ensures
        faces_in_range(indices, positions_len, normals_len, texcoords_len) <==> forall|i: int|
            0 <= i < (indices.len() / 3) * 3 ==> {
                &&& #[trigger] indices[i] < positions_len / 3
                &&& normals_len != 0 ==> indices[i] < normals_len / 3
                &&& texcoords_len != 0 ==> indices[i] < texcoords_len / 2
            },
{
    let n = (indices.len() / 3) * 3;
    if faces_in_range(indices, positions_len, normals_len, texcoords_len) {
        assert forall|i: int| 0 <= i < n implies {
            &&& #[trigger] indices[i] < positions_len / 3
            &&& normals_len != 0 ==> indices[i] < normals_len / 3
            &&& texcoords_len != 0 ==> indices[i] < texcoords_len / 2
        } by {
            assert(vertex_in_range(indices[i], positions_len, normals_len, texcoords_len));
        }
    }
    if forall|i: int|
        0 <= i < n ==> {
            &&& #[trigger] indices[i] < positions_len / 3
            &&& normals_len != 0 ==> indices[i] < normals_len / 3
            &&& texcoords_len != 0 ==> indices[i] < texcoords_len / 2
        } {
        assert forall|i: int| 0 <= i < n implies #[trigger] vertex_in_range(
            indices[i],
            positions_len,
            normals_len,
            texcoords_len,
        ) by {
            assert(indices[i] < positions_len / 3);
        }
    }
}

} // verus!
