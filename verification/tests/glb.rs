use plantastic::glb::{
    assemble_glb, assemble_terrain_glb, max_index, scene_bin_buffer, terrain_bin_buffer, terrain_buffer_layout,
    MeshBuffers, CHUNK_BIN, CHUNK_JSON, GLB_MAGIC, GLB_VERSION,
};

fn u32_at(b: &[u8], at: usize) -> u32 {
    u32::from_le_bytes([b[at], b[at + 1], b[at + 2], b[at + 3]])
}

#[test]
fn glb_header_reads_back() {
    let json = br#"{"asset":{"version":"2.0"}}"#.to_vec();
    let bin = vec![1u8, 2, 3, 4, 5, 6, 7, 8];
    let glb = assemble_glb(json.clone(), &bin);
    assert_eq!(&glb[0..4], b"glTF");
    assert_eq!(u32_at(&glb, 0), GLB_MAGIC);
    assert_eq!(u32_at(&glb, 4), GLB_VERSION);
    assert_eq!(u32_at(&glb, 8) as usize, glb.len());
    let json_len = u32_at(&glb, 12) as usize;
    assert_eq!(json_len % 4, 0);
    assert_eq!(json_len, 28);
    assert_eq!(u32_at(&glb, 16), CHUNK_JSON);
    assert_eq!(&glb[20..20 + json.len()], &json[..]);
    assert!(glb[20 + json.len()..20 + json_len].iter().all(|&b| b == b' '));
    let bin_at = 20 + json_len;
    assert_eq!(u32_at(&glb, bin_at) as usize, bin.len());
    assert_eq!(u32_at(&glb, bin_at + 4), CHUNK_BIN);
    assert_eq!(&glb[bin_at + 8..], &bin[..]);
}

#[test]
fn glb_without_binary_chunk() {
    let glb = assemble_glb(b"{}".to_vec(), &Vec::new());
    assert_eq!(glb.len(), 12 + 8 + 4);
    assert_eq!(u32_at(&glb, 8), 24);
    assert_eq!(&glb[20..24], b"{}  ");
}

#[test]
fn terrain_glb_pads_binary_with_zeros() {
    let glb = assemble_terrain_glb(b"{\"a\":1}".to_vec(), vec![9u8, 9, 9, 9, 9]);
    // JSON: 7 bytes padded to 8; binary: 5 bytes padded to 8.
    assert_eq!(u32_at(&glb, 12), 8);
    assert_eq!(u32_at(&glb, 28), 8);
    assert_eq!(u32_at(&glb, 32), CHUNK_BIN);
    assert_eq!(&glb[36..], &[9, 9, 9, 9, 9, 0, 0, 0]);
    assert_eq!(u32_at(&glb, 8) as usize, glb.len());
}

#[test]
fn terrain_buffer_sections() {
    let l = terrain_buffer_layout(4, 6);
    assert_eq!((l.pos_size, l.norm_size, l.color_size, l.idx_size, l.bin_size), (48, 48, 16, 24, 136));
    let bin = terrain_bin_buffer(&vec![[1, 2, 3]], &vec![[0, 0, 0x3f80_0000]], &vec![[10, 20, 30]], &vec![0, 0, 0]);
    assert_eq!(bin.len(), 12 + 12 + 4 + 12);
    assert_eq!(&bin[0..4], &[1, 0, 0, 0]);
    assert_eq!(&bin[20..24], &[0, 0, 0x80, 0x3f]);
    assert_eq!(&bin[24..28], &[10, 20, 30, 255]);
}

#[test]
fn max_index_of_indices() {
    assert_eq!(max_index(&vec![]), 0);
    assert_eq!(max_index(&vec![3, 9, 2]), 9);
}

#[test]
fn scene_buffer_offsets() {
    let a = MeshBuffers { positions: vec![[1, 1, 1]; 3], normals: vec![[0, 0, 0]; 3], indices: vec![0, 1, 2] };
    let b = MeshBuffers { positions: vec![[2, 2, 2]; 4], normals: vec![[0, 0, 0]; 4], indices: vec![0, 1, 2, 0, 2, 3] };
    let (bin, layouts) = scene_bin_buffer(&vec![a, b]);
    assert_eq!(layouts.len(), 2);
    assert_eq!((layouts[0].pos_offset, layouts[0].norm_offset, layouts[0].idx_offset), (0, 36, 72));
    assert_eq!(layouts[0].max_index, 2);
    assert_eq!(layouts[1].pos_offset, 84);
    assert_eq!(layouts[1].idx_offset, 84 + 48 + 48);
    assert_eq!(layouts[1].max_index, 3);
    assert_eq!(bin.len(), 84 + 48 + 48 + 24);
    assert_eq!(bin.len() % 4, 0);
    // Each section reads back its mesh's data.
    assert_eq!(u32_at(&bin, layouts[1].pos_offset), 2);
    assert_eq!(u32_at(&bin, layouts[0].idx_offset + 8), 2);
    let idx: Vec<u32> = (0..6).map(|i| u32_at(&bin, layouts[1].idx_offset + 4 * i)).collect();
    assert_eq!(idx, vec![0, 1, 2, 0, 2, 3]);
}
