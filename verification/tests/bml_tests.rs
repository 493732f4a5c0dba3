use call_to_exist_gui_lib::bml::{
    process_mesh, read_sections, BMLMeshSection, BMLSection, Index, Mesh, ParseMeshes, Vertex,
};
use call_to_exist_gui_lib::cursor::ByteCursor;
use call_to_exist_gui_lib::error::FormatError;

fn section(out: &mut Vec<u8>, name: &[u8; 4], data: &[u8]) -> u64 {
    out.extend_from_slice(name);
    out.extend_from_slice(&(data.len() as u32).to_le_bytes());
    out.extend_from_slice(&0xABCDu32.to_le_bytes());
    let at = out.len() as u64;
    out.extend_from_slice(data);
    while out.len() % 4 != 0 {
        out.push(0);
    }
    at
}

#[allow(clippy::too_many_arguments)]
fn mesh_desc(name: u64, vbuf: u64, ibuf: u64, lods: [u64; 4], icount: u32, vcount: u32, isize: u16, stride: u16) -> Vec<u8> {
    let mut v = Vec::new();
    for x in [name, vbuf, ibuf, 0, 0, lods[0], lods[1], lods[2], lods[3], 0] {
        v.extend_from_slice(&x.to_le_bytes());
    }
    v.extend_from_slice(&icount.to_le_bytes());
    v.extend_from_slice(&vcount.to_le_bytes());
    v.extend_from_slice(&isize.to_le_bytes());
    v.extend_from_slice(&stride.to_le_bytes());
    v.extend_from_slice(&[0u8; 12]);
    v
}

fn vertex_bytes(seed: u8) -> Vec<u8> {
    let mut v = vec![0u8; 84];
    v[0..4].copy_from_slice(&1.5f32.to_le_bytes());
    v[4..8].copy_from_slice(&(-2.0f32).to_le_bytes());
    v[8..12].copy_from_slice(&(seed as f32).to_le_bytes());
    v[12..16].copy_from_slice(&0.25f32.to_le_bytes());
    v[28] = seed;
    v[31] = 9;
    v[32..36].copy_from_slice(&0.75f32.to_le_bytes());
    v[48] = 3;
    v[52..54].copy_from_slice(&0x3C00u16.to_le_bytes());
    v[60..64].copy_from_slice(&[255, 128, 0, seed]);
    v[64..66].copy_from_slice(&0x3800u16.to_le_bytes());
    v[66..68].copy_from_slice(&0xBC00u16.to_le_bytes());
    v[68..70].copy_from_slice(&0x4000u16.to_le_bytes());
    v[82..84].copy_from_slice(&0x7C00u16.to_le_bytes());
    v
}

/// A file with a head section, a mesh with one level of detail, and a data
/// section holding the name, vertices and indices.
fn model() -> Vec<u8> {
    let mut out = Vec::new();
    section(&mut out, b"HEAD", b"abc");
    // The mesh section starts at 16 with its data at 28; the LODM section's data is at 144.
    let lod_at = 144u64;
    let data_at = 260u64;
    let name_at = data_at;
    let vbuf_at = data_at + 8;
    let ibuf_at = vbuf_at + 168;
    let mesh = mesh_desc(name_at, vbuf_at, ibuf_at, [0, lod_at, 0, 0], 3, 2, 2, 84);
    assert_eq!(section(&mut out, b"MESH", &mesh), 28);
    let lod = mesh_desc(0, vbuf_at + 84, ibuf_at + 8, [0; 4], 1, 1, 4, 84);
    assert_eq!(section(&mut out, b"LODM", &lod), lod_at);
    let mut data = b"body\0\0\0\0".to_vec();
    data.extend_from_slice(&vertex_bytes(1));
    data.extend_from_slice(&vertex_bytes(2));
    data.extend_from_slice(&[0, 0, 1, 0, 2, 0, 0, 0]);
    data.extend_from_slice(&7u32.to_le_bytes());
    assert_eq!(section(&mut out, b"DATA", &data), data_at);
    out
}

#[test]
fn reads_sections_in_order() {
    let file = model();
    let secs: Vec<BMLSection> = read_sections(&file).unwrap();
    let names: Vec<Vec<u8>> = secs.iter().map(|s| s.name.clone()).collect();
    assert_eq!(names, vec![b"HEAD".to_vec(), b"MESH".to_vec(), b"LODM".to_vec(), b"DATA".to_vec()]);
    assert_eq!(secs[0].size, 3);
    assert_eq!(secs[0].unk, 0xABCD);
    assert_eq!(secs[0].section_data, b"abc".to_vec());
    assert_eq!(secs[1].section_data_offset, 28);
    let mut c = ByteCursor::new(&file);
    let first = BMLSection::build(&mut c).unwrap();
    assert_eq!(first.section_data_offset, 12);
    assert_eq!(c.position(), 16);
}

#[test]
fn reads_a_mesh_description() {
    let file = model();
    let mut c = ByteCursor::at(&file, 28);
    let m: BMLMeshSection = BMLMeshSection::build(&mut c).unwrap();
    assert_eq!(m.MeshNameOffset, 260);
    assert_eq!(m.MeshVertexBufferOffset, 268);
    assert_eq!(m.MeshLOD1Offset, 0);
    assert_eq!(m.MeshLOD2Offset, 144);
    assert_eq!(m.IndexCount, 3);
    assert_eq!(m.VertexCount, 2);
    assert_eq!(m.IndexSize, 2);
    assert_eq!(m.VertexStride, 84);
    assert_eq!(c.position(), 28 + 104);
    assert_eq!(BMLMeshSection::build(&mut ByteCursor::at(&file, file.len() as u64 - 50)).err(), Some(FormatError::UnexpectedEof));
}

#[test]
fn decodes_vertices_field_by_field() {
    let mut buf = vertex_bytes(5);
    buf.extend_from_slice(&[0u8; 16]);
    buf.extend_from_slice(&vertex_bytes(6));
    let vs: Vec<Vertex> = Vertex::build(&buf, &2, &100);
    assert_eq!(vs.len(), 2);
    let v = &vs[0];
    assert_eq!(f32::from_bits(v.positions[0]), 1.5);
    assert_eq!(f32::from_bits(v.positions[1]), -2.0);
    assert_eq!(f32::from_bits(v.positions[2]), 5.0);
    assert_eq!(f32::from_bits(v.blendweights[0]), 0.25);
    assert_eq!(v.blendindices, [5, 0, 0, 9]);
    assert_eq!(f32::from_bits(v.blendweights_1[0]), 0.75);
    assert_eq!(v.blendindices_1, [3, 0, 0, 0]);
    assert_eq!(v.normals, [0x3C00, 0, 0, 0]);
    assert_eq!(v.colors, [255, 128, 0, 5]);
    assert_eq!(v.texcoords, [0x3800, 0xBC00]);
    assert_eq!(v.tangents, [0x4000, 0, 0, 0]);
    assert_eq!(v.binormals, [0, 0, 0, 0x7C00]);
    assert_eq!(f32::from_bits(vs[1].positions[2]), 6.0);
    assert_eq!(Vertex::build(&buf, &0, &84).len(), 0);
}

#[test]
fn splitting_a_vertex_buffer() {
    let mut buf = Vec::new();
    for seed in 1..=5u8 {
        buf.extend_from_slice(&vertex_bytes(seed));
        buf.extend_from_slice(&[seed; 6]);
    }
    let all = Vertex::build(&buf, &5, &90);
    let head = Vertex::build(&buf, &2, &90);
    let tail = Vertex::build(&buf[180..].to_vec(), &3, &90);
    assert_eq!(all.len(), 5);
    assert_eq!(&all[..2], &head[..]);
    assert_eq!(&all[2..], &tail[..]);
}

#[test]
fn decodes_indices_of_both_widths() {
    let buf = vec![1u8, 0, 2, 0, 3, 0, 0, 0];
    let idx: Vec<Index> = Index::build(&buf, &3, &2);
    assert_eq!(idx.iter().map(|i| i.index).collect::<Vec<u32>>(), vec![1, 2, 3]);
    let idx = Index::build(&buf, &2, &4);
    assert_eq!(idx.iter().map(|i| i.index).collect::<Vec<u32>>(), vec![0x0002_0001, 3]);
    let odd = Index::build(&buf, &1, &3);
    assert_eq!(odd[0].index, 0x0002_0001);
}

#[test]
fn processes_one_mesh() {
    let file = model();
    let secs = read_sections(&file).unwrap();
    let (desc, mesh): (BMLMeshSection, Mesh) = process_mesh(&secs[1].section_data, &file).unwrap();
    assert_eq!(desc.MeshLOD2Offset, 144);
    assert_eq!(mesh.name, b"body".to_vec());
    assert_eq!(mesh.vertices.len(), 2);
    assert_eq!(mesh.vertices[1].blendindices[0], 2);
    assert_eq!(mesh.indices.iter().map(|i| i.index).collect::<Vec<u32>>(), vec![0, 1, 2]);
    assert_eq!(process_mesh(&secs[0].section_data, &file).err(), Some(FormatError::UnexpectedEof));
}

#[test]
fn parses_meshes_with_their_levels_of_detail() {
    let file = model();
    let meshes = ParseMeshes(&file).unwrap();
    assert_eq!(meshes.len(), 1);
    assert_eq!(meshes[0].len(), 2);
    assert_eq!(meshes[0][0].name, b"body".to_vec());
    assert_eq!(meshes[0][1].name, Vec::<u8>::new());
    assert_eq!(meshes[0][1].vertices.len(), 1);
    assert_eq!(meshes[0][1].vertices[0].colors, [255, 128, 0, 2]);
    assert_eq!(meshes[0][1].indices[0].index, 7);
}

#[test]
fn a_file_without_meshes_has_none() {
    let mut out = Vec::new();
    section(&mut out, b"HEAD", b"abc");
    assert_eq!(ParseMeshes(&out).map(|m| m.len()), Ok(0));
    assert_eq!(ParseMeshes(&[]).map(|m| m.len()), Ok(0));
}

#[test]
fn broken_models_are_refused() {
    let file = model();
    assert_eq!(ParseMeshes(&file[..20]).err(), Some(FormatError::UnexpectedEof));
    let mut bad = file.clone();
    bad[28 + 84..28 + 88].copy_from_slice(&100u32.to_le_bytes());
    assert_eq!(ParseMeshes(&bad).err(), Some(FormatError::UnexpectedEof));
    let mut nameless = file.clone();
    nameless[28..36].copy_from_slice(&10_000u64.to_le_bytes());
    assert_eq!(ParseMeshes(&nameless).err(), Some(FormatError::UnexpectedEof));
    let mut zero = file.clone();
    zero[28 + 90..28 + 92].copy_from_slice(&0u16.to_le_bytes());
    assert_eq!(ParseMeshes(&zero).err(), Some(FormatError::ZeroStride));
}
