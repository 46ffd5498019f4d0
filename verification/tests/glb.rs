use redline::glb::{build_bin, frame_glb, gltf_slots, scene_nodes, pad4, write_u32_le, MeshBytes, CHUNK_BIN, CHUNK_JSON, GLB_MAGIC};

fn le_floats<const N: usize>(values: &[[f32; N]]) -> Vec<u8> {
    values.iter().flat_map(|v| v.iter().flat_map(|c| c.to_le_bytes())).collect()
}

fn triangle() -> MeshBytes {
    MeshBytes {
        positions: le_floats(&[[0.0, 0.0, 0.0], [1.0, 0.0, 0.0], [0.0, 1.0, 0.0]]),
        normals: le_floats(&[[0.0, 0.0, 1.0]; 3]),
        tex_coords: le_floats(&[[0.0, 0.0], [1.0, 0.0], [0.0, 1.0]]),
        indices: vec![0, 1, 2],
    }
}

#[test]
fn writes_triangle_glb() {
    let (bin, layouts) = build_bin(&[triangle()]);
    let json = br#"{"asset":{"version":"2.0"}}"#;
    let bytes = frame_glb(json, &bin);
    assert!(bytes.len() > 12);
    let magic = u32::from_le_bytes(bytes[0..4].try_into().unwrap());
    assert_eq!(magic, GLB_MAGIC);
    assert_eq!(layouts.len(), 1);
}

#[test]
fn glb_header_and_chunks_are_aligned() {
    let (bin, layouts) = build_bin(&[triangle(), triangle()]);
    // Per mesh: 36 + 36 + 24 bytes of attributes and 12 of indices.
    assert_eq!(bin.len(), 2 * (36 + 36 + 24 + 12));
    assert_eq!(layouts[1].positions.offset, 108);
    assert_eq!(layouts[1].normals.offset, 144);
    assert_eq!(layouts[1].tex_coords.offset, 180);
    assert_eq!(layouts[1].indices.offset, 204);
    assert_eq!(layouts[1].indices.length, 12);
    assert_eq!(layouts[0].index_max, 2);
    let json = b"{}";
    let file = frame_glb(json, &bin);
    let word = |i: usize| u32::from_le_bytes(file[i..i + 4].try_into().unwrap());
    assert_eq!(word(4), 2);
    assert_eq!(word(8) as usize, file.len());
    assert_eq!(word(12), 4);
    assert_eq!(word(16), CHUNK_JSON);
    assert_eq!(&file[20..24], b"{}  ");
    assert_eq!(word(24) as usize, bin.len());
    assert_eq!(word(28), CHUNK_BIN);
    assert_eq!(&file[32..], &bin[..]);
}

#[test]
fn index_bytes_are_padded() {
    let mut mesh = triangle();
    mesh.tex_coords = le_floats(&[[0.5, 0.5]; 3]);
    let (bin, layouts) = build_bin(&[mesh]);
    assert_eq!(&bin[layouts[0].indices.offset..], &[0, 0, 0, 0, 1, 0, 0, 0, 2, 0, 0, 0]);
    assert_eq!(pad4(0), 0);
    assert_eq!(pad4(5), 8);
    assert_eq!(pad4(8), 8);
    let mut out = vec![9];
    write_u32_le(&mut out, 0x0403_0201);
    assert_eq!(out, vec![9, 1, 2, 3, 4]);
}

#[test]
fn gltf_slots_give_each_mesh_four_views() {
    let s = gltf_slots(2);
    assert_eq!(s.views, [8, 9, 10, 11]);
    assert_eq!(s.material, 2);
    assert_eq!(s.node, 2);
    assert_eq!(scene_nodes(3), vec![0, 1, 2]);
    assert!(scene_nodes(0).is_empty());
}
