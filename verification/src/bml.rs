use vstd::prelude::*;
use crate::cpk::bytes_eq;
use crate::cursor::{
    ByteCursor, ByteOrder, align, can_take, le_u16, le_u32, le_u64, read_bytes, read_cstring,
    read_u16, read_u32, read_u64, round_up, spec_read_cstring, take_bytes, text_of, decode_text,
};
use crate::error::FormatError;
use vstd::slice::slice_to_vec;
use vstd::string::StringSliceAdditionalSpecFns;

verus! {

/// A section of a BML model file: a 4-byte name, its size, a word of unknown
/// use, and its data; sections are aligned to 4 bytes.
#[derive(Debug, Clone, PartialEq, Eq)]
pub struct BMLSection {
    pub name: Vec<u8>,
    pub size: u32,
    pub unk: u32,
    pub section_data_offset: u64,
    pub section_data: Vec<u8>,
}

pub struct BMLSectionView {
    pub name: Seq<u8>,
    pub size: u32,
    pub unk: u32,
    pub section_data_offset: u64,
    pub section_data: Seq<u8>,
}

impl DeepView for BMLSection {
    type V = BMLSectionView;

    open spec fn deep_view(&self) -> BMLSectionView {
        BMLSectionView {
            name: self.name@,
            size: self.size,
            unk: self.unk,
            section_data_offset: self.section_data_offset,
            section_data: self.section_data@,
        }
    }
}

/// The description of one mesh (or level of detail) inside a section.
#[allow(non_snake_case)]
#[derive(Debug, Clone, PartialEq, Eq)]
pub struct BMLMeshSection {
    pub MeshNameOffset: u64,
    pub MeshVertexBufferOffset: u64,
    pub MeshIndexBufferOffset: u64,
    pub MeshIndexBufferInfoOffset: u64,
    pub MeshBoneDataOffset: u64,
    pub MeshLOD1Offset: u64,
    pub MeshLOD2Offset: u64,
    pub MeshLOD3Offset: u64,
    pub MeshLOD4Offset: u64,
    pub unk_1: u64,
    pub IndexCount: u32,
    pub VertexCount: u32,
    pub IndexSize: u16,
    pub VertexStride: u16,
}

/// One vertex as stored: single-precision floats as their bit patterns,
/// half-precision floats as theirs, and colours as bytes (0..255 for 0..1).
#[derive(Debug, Clone, PartialEq, Eq)]
pub struct Vertex {
    pub positions: [u32; 3],
    pub normals: [u16; 4],
    pub binormals: [u16; 4],
    pub tangents: [u16; 4],
    pub texcoords: [u16; 2],
    pub colors: [u8; 4],
    pub blendweights: [u32; 4],
    pub blendindices: [u8; 4],
    pub blendweights_1: [u32; 4],
    pub blendindices_1: [u8; 4],
}

pub struct VertexView {
    pub positions: Seq<u32>,
    pub normals: Seq<u16>,
    pub binormals: Seq<u16>,
    pub tangents: Seq<u16>,
    pub texcoords: Seq<u16>,
    pub colors: Seq<u8>,
    pub blendweights: Seq<u32>,
    pub blendindices: Seq<u8>,
    pub blendweights_1: Seq<u32>,
    pub blendindices_1: Seq<u8>,
}

impl DeepView for Vertex {
    type V = VertexView;

    open spec fn deep_view(&self) -> VertexView {
        VertexView {
            positions: self.positions@,
            normals: self.normals@,
            binormals: self.binormals@,
            tangents: self.tangents@,
            texcoords: self.texcoords@,
            colors: self.colors@,
            blendweights: self.blendweights@,
            blendindices: self.blendindices@,
            blendweights_1: self.blendweights_1@,
            blendindices_1: self.blendindices_1@,
        }
    }
}

/// One vertex index.
#[derive(Debug, Clone, Copy, PartialEq, Eq)]
pub struct Index {
    pub index: u32,
}

/// A mesh: its vertices, its indices and its name.
#[derive(Debug, Clone, PartialEq, Eq)]
pub struct Mesh {
    pub vertices: Vec<Vertex>,
    pub indices: Vec<Index>,
    pub name: Vec<u8>,
}

pub struct MeshView {
    pub vertices: Seq<VertexView>,
    pub indices: Seq<u32>,
    pub name: Seq<u8>,
}

impl DeepView for Mesh {
    type V = MeshView;

    open spec fn deep_view(&self) -> MeshView {
        MeshView {
            vertices: self.vertices.deep_view(),
            indices: Seq::new(self.indices@.len(), |k: int| self.indices@[k].index),
            name: self.name@,
        }
    }
}

// ---------------------------------------------------------------------------
// The layout, as spec functions of the bytes.
// ---------------------------------------------------------------------------

/// The number of bytes of a stored vertex.
pub open spec fn vertex_size() -> int {
    84
}

pub open spec fn u32s_at(b: Seq<u8>, i: int, n: int) -> Seq<u32> {
    Seq::new(n as nat, |k: int| le_u32(b, i + 4 * k) as u32)
}

pub open spec fn u16s_at(b: Seq<u8>, i: int, n: int) -> Seq<u16> {
    Seq::new(n as nat, |k: int| le_u16(b, i + 2 * k) as u16)
}

/// The vertex stored at `i`.
pub open spec fn spec_vertex(b: Seq<u8>, i: int) -> VertexView {
    VertexView {
        positions: u32s_at(b, i, 3),
        blendweights: u32s_at(b, i + 12, 4),
        blendindices: b.subrange(i + 28, i + 32),
        blendweights_1: u32s_at(b, i + 32, 4),
        blendindices_1: b.subrange(i + 48, i + 52),
        normals: u16s_at(b, i + 52, 4),
        colors: b.subrange(i + 60, i + 64),
        texcoords: u16s_at(b, i + 64, 2),
        tangents: u16s_at(b, i + 68, 4),
        binormals: u16s_at(b, i + 76, 4),
    }
}

/// The vertex at `i` of the buffer from `o` on is the vertex at `o + i`.
proof fn lemma_vertex_shift(b: Seq<u8>, o: int, i: int)
    requires
        0 <= o,
        0 <= i,
        o + i + vertex_size() <= b.len(),
    ensures
        spec_vertex(b.skip(o), i) == spec_vertex(b, o + i),
{
    let c = b.skip(o);
    assert forall|j: int| 0 <= j < 84 implies #[trigger] c[i + j] == b[o + i + j] by {}
    assert(u32s_at(c, i, 3) =~= u32s_at(b, o + i, 3));
    assert(u32s_at(c, i + 12, 4) =~= u32s_at(b, o + i + 12, 4));
    assert(u32s_at(c, i + 32, 4) =~= u32s_at(b, o + i + 32, 4));
    assert(u16s_at(c, i + 52, 4) =~= u16s_at(b, o + i + 52, 4));
    assert(u16s_at(c, i + 64, 2) =~= u16s_at(b, o + i + 64, 2));
    assert(u16s_at(c, i + 68, 4) =~= u16s_at(b, o + i + 68, 4));
    assert(u16s_at(c, i + 76, 4) =~= u16s_at(b, o + i + 76, 4));
    assert(c.subrange(i + 28, i + 32) =~= b.subrange(o + i + 28, o + i + 32));
    assert(c.subrange(i + 48, i + 52) =~= b.subrange(o + i + 48, o + i + 52));
    assert(c.subrange(i + 60, i + 64) =~= b.subrange(o + i + 60, o + i + 64));
}

/// Splitting a vertex buffer: the first `n + m` vertices are the first `n`
/// followed by the first `m` of the buffer from the `n`-th vertex on.
pub proof fn lemma_vertices_split(b: Seq<u8>, n: int, m: int, stride: int)
    requires
        0 <= n,
        0 <= m,
        stride > 0,
        m > 0 ==> (n + m - 1) * stride + vertex_size() <= b.len(),
    ensures
        Seq::new((n + m) as nat, |k: int| spec_vertex(b, k * stride)) == Seq::new(
            n as nat,
            |k: int| spec_vertex(b, k * stride),
        ) + Seq::new(m as nat, |k: int| spec_vertex(b.skip(n * stride), k * stride)),
{
    let whole = Seq::new((n + m) as nat, |k: int| spec_vertex(b, k * stride));
    let first = Seq::new(n as nat, |k: int| spec_vertex(b, k * stride));
    let rest = Seq::new(m as nat, |k: int| spec_vertex(b.skip(n * stride), k * stride));
    assert forall|k: int| 0 <= k < m implies #[trigger] rest[k] == whole[n + k] by {
        assert(n * stride + k * stride == (n + k) * stride) by (nonlinear_arith);
        assert((n + k) * stride <= (n + m - 1) * stride) by (nonlinear_arith)
            requires
                0 <= k < m,
                stride > 0,
        ;
        assert(0 <= n * stride && 0 <= k * stride) by (nonlinear_arith)
            requires
                0 <= n,
                0 <= k,
                stride > 0,
        ;
        lemma_vertex_shift(b, n * stride, k * stride);
    }
    assert(whole =~= first + rest);
}

/// The vertices of a vertex buffer: `count` of them, `stride` bytes apart.
pub open spec fn spec_vertices(b: Seq<u8>, count: int, stride: int) -> Result<
    Seq<VertexView>,
    FormatError,
> {
    if stride == 0 {
        Err(FormatError::ZeroStride)
    } else if count * stride > usize::MAX {
        Err(FormatError::Overflow)
    } else if count > 0 && (count - 1) * stride + vertex_size() > b.len() {
        Err(FormatError::UnexpectedEof)
    } else {
        Ok(Seq::new(count as nat, |k: int| spec_vertex(b, k * stride)))
    }
}

/// The index stored at `i`: 16-bit when the index size is 2, 32-bit otherwise.
pub open spec fn spec_index(b: Seq<u8>, i: int, size: int) -> u32 {
    if size == 2 {
        le_u16(b, i) as u32
    } else {
        le_u32(b, i) as u32
    }
}

/// The bytes that the index at `i` occupies.
pub open spec fn index_width(size: int) -> int {
    if size == 2 {
        2
    } else {
        4
    }
}

/// The indices of an index buffer: `count` of them, `size` bytes apart.
pub open spec fn spec_indices(b: Seq<u8>, count: int, size: int) -> Result<Seq<u32>, FormatError> {
    if size == 0 {
        Err(FormatError::ZeroStride)
    } else if count * size > usize::MAX {
        Err(FormatError::Overflow)
    } else if count > 0 && (count - 1) * size + index_width(size) > b.len() {
        Err(FormatError::UnexpectedEof)
    } else {
        Ok(Seq::new(count as nat, |k: int| spec_index(b, k * size, size)))
    }
}

/// The section at `p` and the (4-aligned) position after it.
pub open spec fn spec_section(b: Seq<u8>, p: int) -> Result<(BMLSectionView, int), FormatError> {
    if p + 12 > b.len() {
        Err(FormatError::UnexpectedEof)
    } else {
        let size = le_u32(b, p + 4);
        if !can_take(b, p + 12, size) {
            Err(FormatError::UnexpectedEof)
        } else if p + 12 + size + 3 > u64::MAX {
            Err(FormatError::Overflow)
        } else {
            Ok(
                (
                    BMLSectionView {
                        name: text_of(b.subrange(p, p + 4)),
                        size: size as u32,
                        unk: le_u32(b, p + 8) as u32,
                        section_data_offset: (p + 12) as u64,
                        section_data: take_bytes(b, p + 12, size),
                    },
                    round_up(p + 12 + size, 4),
                ),
            )
        }
    }
}

/// Reading a section moves at least past its 12-byte header.
pub proof fn lemma_section_advances(b: Seq<u8>, p: int)
    requires
        p >= 0,
        spec_section(b, p) is Ok,
    ensures
        spec_section(b, p)->Ok_0.1 >= p + 12,
{
    let size = le_u32(b, p + 4);
    let o = p + 12 + size;
    assert(((o + 3) / 4) * 4 >= o) by (nonlinear_arith)
        requires
            o >= 0,
    ;
}

/// A section is a 4-byte name, a 32-bit little-endian size, a 32-bit word and
/// that many bytes of data; the next section starts at the first multiple of
/// 4 after the data.
pub proof fn lemma_section_layout(b: Seq<u8>, p: int)
    requires
        p >= 0,
    ensures
        spec_section(b, p) matches Ok((s, next)) ==> {
            let size = b[p + 4] + b[p + 5] * 0x100 + b[p + 6] * 0x1_0000 + b[p + 7] * 0x100_0000;
            let end = p + 12 + size;
            &&& s.size == size
            &&& s.section_data_offset == p + 12
            &&& s.section_data.len() == size
            &&& forall|k: int| 0 <= k < size ==> #[trigger] s.section_data[k] == b[p + 12 + k]
            &&& next % 4 == 0
            &&& end <= next < end + 4
        },
{
    if let Ok((s, next)) = spec_section(b, p) {
        let size = le_u32(b, p + 4);
        let o = p + 12 + size;
        let q = (o + 3) / 4;
        let r = (o + 3) % 4;
        assert(o + 3 == q * 4 + r && 0 <= r < 4) by (nonlinear_arith)
            requires
                q == (o + 3) / 4,
                r == (o + 3) % 4,
        ;
        assert((q * 4) % 4 == 0) by (nonlinear_arith);
    }
}

/// The sections from `p` to the end of the file.
pub open spec fn spec_sections(b: Seq<u8>, p: int) -> Result<Seq<BMLSectionView>, FormatError>
    decreases (if p < b.len() {
        b.len() - p
    } else {
        0
    }),
{
    if p < 0 || p >= b.len() {
        Ok(Seq::empty())
    } else {
        match spec_section(b, p) {
            Err(e) => Err(e),
            Ok((s, p1)) => {
                proof {
                    lemma_section_advances(b, p);
                }
                match spec_sections(b, p1) {
                    Err(e) => Err(e),
                    Ok(rest) => Ok(seq![s] + rest),
                }
            },
        }
    }
}

/// Whether the mesh description fits at `p`.
pub open spec fn mesh_section_fits(b: Seq<u8>, p: int) -> bool {
    p + 92 <= b.len()
}

/// The mesh description at `p`.
pub open spec fn spec_mesh_section(b: Seq<u8>, p: int) -> BMLMeshSection {
    BMLMeshSection {
        MeshNameOffset: le_u64(b, p) as u64,
        MeshVertexBufferOffset: le_u64(b, p + 8) as u64,
        MeshIndexBufferOffset: le_u64(b, p + 16) as u64,
        MeshIndexBufferInfoOffset: le_u64(b, p + 24) as u64,
        MeshBoneDataOffset: le_u64(b, p + 32) as u64,
        MeshLOD1Offset: le_u64(b, p + 40) as u64,
        MeshLOD2Offset: le_u64(b, p + 48) as u64,
        MeshLOD3Offset: le_u64(b, p + 56) as u64,
        MeshLOD4Offset: le_u64(b, p + 64) as u64,
        unk_1: le_u64(b, p + 72) as u64,
        IndexCount: le_u32(b, p + 80) as u32,
        VertexCount: le_u32(b, p + 84) as u32,
        IndexSize: le_u16(b, p + 88) as u16,
        VertexStride: le_u16(b, p + 90) as u16,
    }
}

/// The description of a mesh: ten little-endian 64-bit fields in order
/// (name, vertex buffer, index buffer, index buffer info, bone data, the four
/// level-of-detail offsets, a word of unknown use), then the 32-bit index
/// and vertex counts at 80 and 84 and the 16-bit index size and vertex stride
/// at 88 and 90.
pub proof fn lemma_mesh_section_fields(b: Seq<u8>, p: int)
    requires
        0 <= p,
        mesh_section_fits(b, p),
    ensures
        ({
            let m = spec_mesh_section(b, p);
            &&& m.MeshNameOffset == le_u64(b, p)
            &&& m.MeshVertexBufferOffset == le_u64(b, p + 8)
            &&& m.MeshIndexBufferOffset == le_u64(b, p + 16)
            &&& m.MeshIndexBufferInfoOffset == le_u64(b, p + 24)
            &&& m.MeshBoneDataOffset == le_u64(b, p + 32)
            &&& m.MeshLOD1Offset == le_u64(b, p + 40)
            &&& m.MeshLOD2Offset == le_u64(b, p + 48)
            &&& m.MeshLOD3Offset == le_u64(b, p + 56)
            &&& m.MeshLOD4Offset == le_u64(b, p + 64)
            &&& m.unk_1 == le_u64(b, p + 72)
            &&& m.IndexCount == b[p + 80] + b[p + 81] * 0x100 + b[p + 82] * 0x1_0000 + b[p + 83]
                * 0x100_0000
            &&& m.VertexCount == b[p + 84] + b[p + 85] * 0x100 + b[p + 86] * 0x1_0000 + b[p + 87]
                * 0x100_0000
            &&& m.IndexSize == b[p + 88] + b[p + 89] * 0x100
            &&& m.VertexStride == b[p + 90] + b[p + 91] * 0x100
        }),
{
    {
        lemma_le_u64_bound(b, p);
        lemma_le_u64_bound(b, p + 8);
        lemma_le_u64_bound(b, p + 16);
        lemma_le_u64_bound(b, p + 24);
        lemma_le_u64_bound(b, p + 32);
        lemma_le_u64_bound(b, p + 40);
        lemma_le_u64_bound(b, p + 48);
        lemma_le_u64_bound(b, p + 56);
        lemma_le_u64_bound(b, p + 64);
        lemma_le_u64_bound(b, p + 72);
        assert(0 <= b[p + 80] < 256 && 0 <= b[p + 81] < 256 && 0 <= b[p + 82] < 256 && 0 <= b[p + 83] < 256);
        assert(0 <= b[p + 84] < 256 && 0 <= b[p + 85] < 256 && 0 <= b[p + 86] < 256 && 0 <= b[p + 87] < 256);
        assert(0 <= b[p + 88] < 256 && 0 <= b[p + 89] < 256 && 0 <= b[p + 90] < 256 && 0 <= b[p + 91] < 256);
    }
}

proof fn lemma_le_u64_bound(b: Seq<u8>, i: int)
    requires
        0 <= i,
        i + 8 <= b.len(),
    ensures
        0 <= le_u64(b, i) <= u64::MAX,
{
    assert(0 <= le_u32(b, i) <= u32::MAX && 0 <= le_u32(b, i + 4) <= u32::MAX) by {
        assert(0 <= b[i] < 256 && 0 <= b[i + 1] < 256 && 0 <= b[i + 2] < 256 && 0 <= b[i + 3] < 256);
        assert(0 <= b[i + 4] < 256 && 0 <= b[i + 5] < 256 && 0 <= b[i + 6] < 256 && 0 <= b[i + 7] < 256);
    }
}

impl BMLSection {
    /// Reads one section (name, size, unknown word, data) and moves to the next multiple of 4.
    pub fn build(file: &mut ByteCursor) -> (r: Result<Self, FormatError>)
        ensures
            final(file).data@ == old(file).data@,
            match r {
                Ok(s) => spec_section(old(file).data@, old(file).pos as int) == Ok::<
                    (BMLSectionView, int),
                    FormatError,
                >((s.deep_view(), final(file).pos as int)),
                Err(e) => spec_section(old(file).data@, old(file).pos as int) == Err::<
                    (BMLSectionView, int),
                    FormatError,
                >(e),
            },
    {
        let _len = file.data.len();
        if file.remaining() < 12 {
            return Err(FormatError::UnexpectedEof);
        }
        let name_bytes = read_bytes(file, 4);
        let name = decode_text(name_bytes);
        let size = read_u32(file, ByteOrder::Little);
        let unk = read_u32(file, ByteOrder::Little);
        let section_data_offset = file.position();
        if size != 0 && file.remaining() < size as u64 {
            return Err(FormatError::UnexpectedEof);
        }
        let section_data = read_bytes(file, size as u64);
        match align(file, 4) {
            Ok(_) => {},
            Err(e) => return Err(e),
        }
        Ok(BMLSection { name, size, unk, section_data_offset, section_data })
    }
}

impl BMLMeshSection {
    /// Reads a mesh description (ten 64-bit offsets and values, the index and
    /// vertex counts, the index size and the vertex stride) and skips 12 bytes.
    pub fn build(file: &mut ByteCursor) -> (r: Result<Self, FormatError>)
        ensures
            final(file).data@ == old(file).data@,
            match r {
                Ok(m) => mesh_section_fits(old(file).data@, old(file).pos as int) && m
                    == spec_mesh_section(old(file).data@, old(file).pos as int) && final(file).pos
                    == old(file).pos + 104,
                Err(e) => if !mesh_section_fits(old(file).data@, old(file).pos as int) {
                    e == FormatError::UnexpectedEof
                } else {
                    old(file).pos + 104 > u64::MAX && e == FormatError::Overflow
                },
            },
    {
        let _len = file.data.len();
        if file.remaining() < 92 {
            return Err(FormatError::UnexpectedEof);
        }
        let start = file.position();
        if start > u64::MAX - 104 {
            return Err(FormatError::Overflow);
        }
        let mesh_name_offset = read_u64(file, ByteOrder::Little);
        let mesh_vertex_buffer_offset = read_u64(file, ByteOrder::Little);
        let mesh_index_buffer_offset = read_u64(file, ByteOrder::Little);
        let mesh_index_buffer_info_offset = read_u64(file, ByteOrder::Little);
        let mesh_bonedata_offset = read_u64(file, ByteOrder::Little);
        let mesh_lod1_offset = read_u64(file, ByteOrder::Little);
        let mesh_lod2_offset = read_u64(file, ByteOrder::Little);
        let mesh_lod3_offset = read_u64(file, ByteOrder::Little);
        let mesh_lod4_offset = read_u64(file, ByteOrder::Little);
        let unk_1 = read_u64(file, ByteOrder::Little);
        let index_count = read_u32(file, ByteOrder::Little);
        let vertex_count = read_u32(file, ByteOrder::Little);
        let index_size = read_u16(file, ByteOrder::Little);
        let vertex_stride = read_u16(file, ByteOrder::Little);
        file.seek_to(start + 104);
        Ok(BMLMeshSection {
            MeshNameOffset: mesh_name_offset,
            MeshVertexBufferOffset: mesh_vertex_buffer_offset,
            MeshIndexBufferOffset: mesh_index_buffer_offset,
            MeshIndexBufferInfoOffset: mesh_index_buffer_info_offset,
            MeshBoneDataOffset: mesh_bonedata_offset,
            MeshLOD1Offset: mesh_lod1_offset,
            MeshLOD2Offset: mesh_lod2_offset,
            MeshLOD3Offset: mesh_lod3_offset,
            MeshLOD4Offset: mesh_lod4_offset,
            unk_1,
            IndexCount: index_count,
            VertexCount: vertex_count,
            IndexSize: index_size,
            VertexStride: vertex_stride,
        })
    }
}

fn read_u32s(b: &[u8], i: usize, n: usize, out: &mut Vec<u32>)
    requires
        i + 4 * n <= b@.len(),
    ensures
        final(out)@ == old(out)@ + u32s_at(b@, i as int, n as int),
{
    let _len = b.len();
    let ghost start = out@;
    let mut k: usize = 0;
    while k < n
        invariant
            0 <= k <= n,
            _len == b@.len(),
            i + 4 * n <= b@.len(),
            out@ == start + u32s_at(b@, i as int, k as int),
        decreases n - k,
    {
        let mut c = ByteCursor::at(b, (i + 4 * k) as u64);
        let v = read_u32(&mut c, ByteOrder::Little);
        out.push(v);
        k = k + 1;
        assert(out@ =~= start + u32s_at(b@, i as int, k as int));
    }
}

fn read_u16s(b: &[u8], i: usize, n: usize, out: &mut Vec<u16>)
    requires
        i + 2 * n <= b@.len(),
    ensures
        final(out)@ == old(out)@ + u16s_at(b@, i as int, n as int),
{
    let _len = b.len();
    let ghost start = out@;
    let mut k: usize = 0;
    while k < n
        invariant
            0 <= k <= n,
            _len == b@.len(),
            i + 2 * n <= b@.len(),
            out@ == start + u16s_at(b@, i as int, k as int),
        decreases n - k,
    {
        let mut c = ByteCursor::at(b, (i + 2 * k) as u64);
        let v = read_u16(&mut c, ByteOrder::Little);
        out.push(v);
        k = k + 1;
        assert(out@ =~= start + u16s_at(b@, i as int, k as int));
    }
}

/// Decodes the vertex stored at `i`.
fn decode_vertex(b: &[u8], i: usize) -> (v: Vertex)
    requires
        i + vertex_size() <= b@.len(),
    ensures
        v.deep_view() == spec_vertex(b@, i as int),
{
    let _len = b.len();
    let mut w: Vec<u32> = Vec::new();
    read_u32s(b, i, 3, &mut w);
    read_u32s(b, i + 12, 4, &mut w);
    read_u32s(b, i + 32, 4, &mut w);
    let mut h: Vec<u16> = Vec::new();
    read_u16s(b, i + 52, 4, &mut h);
    read_u16s(b, i + 64, 2, &mut h);
    read_u16s(b, i + 68, 4, &mut h);
    read_u16s(b, i + 76, 4, &mut h);
    let v = Vertex {
        positions: [w[0], w[1], w[2]],
        blendweights: [w[3], w[4], w[5], w[6]],
        blendindices: [b[i + 28], b[i + 29], b[i + 30], b[i + 31]],
        blendweights_1: [w[7], w[8], w[9], w[10]],
        blendindices_1: [b[i + 48], b[i + 49], b[i + 50], b[i + 51]],
        normals: [h[0], h[1], h[2], h[3]],
        colors: [b[i + 60], b[i + 61], b[i + 62], b[i + 63]],
        texcoords: [h[4], h[5]],
        tangents: [h[6], h[7], h[8], h[9]],
        binormals: [h[10], h[11], h[12], h[13]],
    };
    assert(v.positions@ =~= u32s_at(b@, i as int, 3));
    assert(v.blendweights@ =~= u32s_at(b@, i + 12, 4));
    assert(v.blendweights_1@ =~= u32s_at(b@, i + 32, 4));
    assert(v.blendindices@ =~= b@.subrange(i + 28, i + 32));
    assert(v.blendindices_1@ =~= b@.subrange(i + 48, i + 52));
    assert(v.colors@ =~= b@.subrange(i + 60, i + 64));
    assert(v.normals@ =~= u16s_at(b@, i + 52, 4));
    assert(v.texcoords@ =~= u16s_at(b@, i + 64, 2));
    assert(v.tangents@ =~= u16s_at(b@, i + 68, 4));
    assert(v.binormals@ =~= u16s_at(b@, i + 76, 4));
    v
}

impl Vertex {
    /// Decodes `VertexCount` vertices, `VertexStride` bytes apart; the stride
    /// is not zero and the buffer holds the last vertex.
    #[allow(non_snake_case)]
    pub fn build(VertexBuffer: &Vec<u8>, VertexCount: &u32, VertexStride: &u16) -> (r: Vec<Vertex>)
        requires
            *VertexStride > 0,
            *VertexCount * *VertexStride <= usize::MAX,
            *VertexCount > 0 ==> (*VertexCount - 1) * *VertexStride + vertex_size()
                <= VertexBuffer@.len(),
        ensures
            r.deep_view() == Seq::new(
                *VertexCount as nat,
                |k: int| spec_vertex(VertexBuffer@, k * *VertexStride),
            ),
    {
        match Self::decode_all(VertexBuffer, VertexCount, VertexStride) {
            Ok(vs) => vs,
            Err(_) => Vec::new(),
        }
    }

    /// Decodes `VertexCount` vertices, `VertexStride` bytes apart, or says why not.
    #[allow(non_snake_case)]
    fn decode_all(VertexBuffer: &Vec<u8>, VertexCount: &u32, VertexStride: &u16) -> (r: Result<
        Vec<Vertex>,
        FormatError,
    >)
        ensures
            match r {
                Ok(vs) => spec_vertices(VertexBuffer@, *VertexCount as int, *VertexStride as int)
                    == Ok::<Seq<VertexView>, FormatError>(vs.deep_view()),
                Err(e) => spec_vertices(VertexBuffer@, *VertexCount as int, *VertexStride as int)
                    == Err::<Seq<VertexView>, FormatError>(e),
            },
    {
        let count = *VertexCount as usize;
        let stride = *VertexStride as usize;
        if stride == 0 {
            return Err(FormatError::ZeroStride);
        }
        let total = match count.checked_mul(stride) {
            Some(t) => t,
            None => return Err(FormatError::Overflow),
        };
        let len = VertexBuffer.len();
        if count > 0 {
            assert((count - 1) * stride <= count * stride) by (nonlinear_arith)
                requires count > 0, stride > 0;
            assert(total >= stride) by (nonlinear_arith)
                requires total == count * stride, count > 0;
            let last = total - stride;
            assert(last == (count - 1) * stride) by (nonlinear_arith)
                requires last == total - stride, total == count * stride;
            if last > len || len - last < 84 {
                return Err(FormatError::UnexpectedEof);
            }
        }
        let buf = VertexBuffer.as_slice();
        let mut vertices: Vec<Vertex> = Vec::new();
        let mut k: usize = 0;
        while k < count
            invariant
                0 <= k <= count,
                count == *VertexCount,
                stride == *VertexStride,
                stride > 0,
                total == count * stride,
                buf@ == VertexBuffer@,
                count > 0 ==> (count - 1) * stride + vertex_size() <= buf@.len(),
                vertices.deep_view() == Seq::new(k as nat, |j: int| spec_vertex(buf@, j * stride)),
            decreases count - k,
        {
            assert(k * stride <= (count - 1) * stride) by (nonlinear_arith)
                requires k < count, stride > 0;
            assert((count - 1) * stride <= total) by (nonlinear_arith)
                requires total == count * stride, count > 0;
            let i = k * stride;
            let v = decode_vertex(buf, i);
            let ghost before = vertices.deep_view();
            let ghost kk = k as int;
            vertices.push(v);
            assert(vertices.deep_view() =~= before.push(spec_vertex(buf@, kk * stride)));
            k = k + 1;
            assert(vertices.deep_view() =~= Seq::new(k as nat, |j: int| spec_vertex(buf@, j * stride)));
        }
        Ok(vertices)
    }
}

impl Index {
    /// Decodes `IndexCount` indices, `IndexSize` bytes apart: 16-bit when the
    /// size is 2, 32-bit otherwise; the size is not zero and the buffer holds
    /// the last index.
    #[allow(non_snake_case)]
    pub fn build(IndexBuffer: &Vec<u8>, IndexCount: &u32, IndexSize: &u16) -> (r: Vec<Index>)
        requires
            *IndexSize > 0,
            *IndexCount * *IndexSize <= usize::MAX,
            *IndexCount > 0 ==> (*IndexCount - 1) * *IndexSize + index_width(*IndexSize as int)
                <= IndexBuffer@.len(),
        ensures
            r@.len() == *IndexCount,
            forall|k: int|
                0 <= k < r@.len() ==> (#[trigger] r@[k]).index == spec_index(
                    IndexBuffer@,
                    k * *IndexSize,
                    *IndexSize as int,
                ),
    {
        match Self::decode_all(IndexBuffer, IndexCount, IndexSize) {
            Ok(is) => {
                proof {
                    let a = Seq::new(is@.len(), |k: int| is@[k].index);
                    let b = Seq::new(
                        *IndexCount as nat,
                        |k: int| spec_index(IndexBuffer@, k * *IndexSize, *IndexSize as int),
                    );
                    assert(a.len() == b.len());
                    assert forall|k: int| 0 <= k < is@.len() implies (#[trigger] is@[k]).index
                        == spec_index(IndexBuffer@, k * *IndexSize, *IndexSize as int) by {
                        assert(a[k] == b[k]);
                    }
                }
                is
            },
            Err(_) => Vec::new(),
        }
    }

    /// Decodes `IndexCount` indices, `IndexSize` bytes apart, or says why not.
    #[allow(non_snake_case)]
    fn decode_all(IndexBuffer: &Vec<u8>, IndexCount: &u32, IndexSize: &u16) -> (r: Result<
        Vec<Index>,
        FormatError,
    >)
        ensures
            match r {
                Ok(is) => spec_indices(IndexBuffer@, *IndexCount as int, *IndexSize as int) == Ok::<
                    Seq<u32>,
                    FormatError,
                >(Seq::new(is@.len(), |k: int| is@[k].index)),
                Err(e) => spec_indices(IndexBuffer@, *IndexCount as int, *IndexSize as int)
                    == Err::<Seq<u32>, FormatError>(e),
            },
    {
        let count = *IndexCount as usize;
        let size = *IndexSize as usize;
        if size == 0 {
            return Err(FormatError::ZeroStride);
        }
        let total = match count.checked_mul(size) {
            Some(t) => t,
            None => return Err(FormatError::Overflow),
        };
        let width: usize = if size == 2 {
            2
        } else {
            4
        };
        let len = IndexBuffer.len();
        if count > 0 {
            assert(total >= size) by (nonlinear_arith)
                requires total == count * size, count > 0;
            let last = total - size;
            assert(last == (count - 1) * size) by (nonlinear_arith)
                requires last == total - size, total == count * size;
            if last > len || len - last < width {
                return Err(FormatError::UnexpectedEof);
            }
        }
        let buf = IndexBuffer.as_slice();
        let mut indices: Vec<Index> = Vec::new();
        let mut k: usize = 0;
        while k < count
            invariant
                0 <= k <= count,
                count == *IndexCount,
                size == *IndexSize,
                size > 0,
                width == index_width(size as int),
                total == count * size,
                buf@ == IndexBuffer@,
                count > 0 ==> (count - 1) * size + width <= buf@.len(),
                indices@.len() == k,
                Seq::new(indices@.len(), |j: int| indices@[j].index) == Seq::new(
                    k as nat,
                    |j: int| spec_index(buf@, j * size, size as int),
                ),
            decreases count - k,
        {
            assert(k * size <= (count - 1) * size) by (nonlinear_arith)
                requires k < count, size > 0;
            assert((count - 1) * size <= total) by (nonlinear_arith)
                requires total == count * size, count > 0;
            let i = k * size;
            let mut c = ByteCursor::at(buf, i as u64);
            let index = if size == 2 {
                read_u16(&mut c, ByteOrder::Little) as u32
            } else {
                read_u32(&mut c, ByteOrder::Little)
            };
            let ghost before = indices@;
            let ghost kk = k as int;
            assert forall|j: int| 0 <= j < kk implies before[j].index == spec_index(buf@, j * size, size as int) by {
                assert(Seq::new(before.len(), |q: int| before[q].index)[j] == before[j].index);
            }
            assert(index == spec_index(buf@, kk * size, size as int));
            indices.push(Index { index });
            assert(indices@[kk].index == spec_index(buf@, kk * size, size as int));
            k = k + 1;
            assert(Seq::new(indices@.len(), |j: int| indices@[j].index) =~= Seq::new(
                k as nat,
                |j: int| spec_index(buf@, j * size, size as int),
            ));
        }
        Ok(indices)
    }
}

/// The name, vertices and indices of a mesh described by `sec`, read from the file `b`.
pub open spec fn spec_process_mesh(sec: Seq<u8>, b: Seq<u8>) -> Result<
    (BMLMeshSection, MeshView),
    FormatError,
> {
    if !mesh_section_fits(sec, 0) {
        Err(FormatError::UnexpectedEof)
    } else {
        let m = spec_mesh_section(sec, 0);
        let name = if m.MeshNameOffset != 0 {
            spec_read_cstring(b, m.MeshNameOffset as int)
        } else {
            Ok(Seq::empty())
        };
        let vlen = m.VertexCount * m.VertexStride;
        let ilen = m.IndexCount * m.IndexSize;
        match name {
            Err(e) => Err(e),
            Ok(name) => if vlen > u32::MAX {
                Err(FormatError::Overflow)
            } else if !can_take(b, m.MeshVertexBufferOffset as int, vlen) {
                Err(FormatError::UnexpectedEof)
            } else if ilen > u32::MAX {
                Err(FormatError::Overflow)
            } else if !can_take(b, m.MeshIndexBufferOffset as int, ilen) {
                Err(FormatError::UnexpectedEof)
            } else {
                match spec_vertices(
                    take_bytes(b, m.MeshVertexBufferOffset as int, vlen),
                    m.VertexCount as int,
                    m.VertexStride as int,
                ) {
                    Err(e) => Err(e),
                    Ok(vs) => match spec_indices(
                        take_bytes(b, m.MeshIndexBufferOffset as int, ilen),
                        m.IndexCount as int,
                        m.IndexSize as int,
                    ) {
                        Err(e) => Err(e),
                        Ok(is) => Ok((m, MeshView { vertices: vs, indices: is, name })),
                    },
                }
            },
        }
    }
}

/// Whether a section is a level of detail of the mesh `m`.
pub open spec fn is_lod_of(s: BMLSectionView, m: BMLMeshSection) -> bool {
    &&& s.name == "LODM".spec_bytes()
    &&& (s.section_data_offset == m.MeshLOD1Offset || s.section_data_offset == m.MeshLOD2Offset
        || s.section_data_offset == m.MeshLOD3Offset || s.section_data_offset == m.MeshLOD4Offset)
}

/// The levels of detail of `m` among the sections `secs[..j]`, in file order.
pub open spec fn spec_lods(b: Seq<u8>, secs: Seq<BMLSectionView>, m: BMLMeshSection, j: int) -> Result<
    Seq<MeshView>,
    FormatError,
>
    decreases j,
{
    if j <= 0 {
        Ok(Seq::empty())
    } else {
        match spec_lods(b, secs, m, j - 1) {
            Err(e) => Err(e),
            Ok(ls) => if is_lod_of(secs[j - 1], m) {
                match spec_process_mesh(secs[j - 1].section_data, b) {
                    Err(e) => Err(e),
                    Ok((_, l)) => Ok(ls.push(l)),
                }
            } else {
                Ok(ls)
            },
        }
    }
}

/// The number of `LODM` sections among `secs[..j]` whose data starts at one
/// of the four level-of-detail offsets of `m`.
pub open spec fn lod_section_count(secs: Seq<BMLSectionView>, m: BMLMeshSection, j: int) -> nat
    decreases j,
{
    if j <= 0 {
        0
    } else {
        let s = secs[j - 1];
        let offset = s.section_data_offset;
        lod_section_count(secs, m, j - 1) + if s.name == seq![76u8, 79u8, 68u8, 77u8] && (offset
            == m.MeshLOD1Offset || offset == m.MeshLOD2Offset || offset == m.MeshLOD3Offset
            || offset == m.MeshLOD4Offset) {
            1nat
        } else {
            0nat
        }
    }
}

/// A mesh's levels of detail are its `LODM` sections: one for each such
/// section whose data starts at any of its four level-of-detail offsets,
/// the first included.
pub proof fn lemma_lods_count(b: Seq<u8>, secs: Seq<BMLSectionView>, m: BMLMeshSection, j: int)
    requires
        j <= secs.len(),
    ensures
        spec_lods(b, secs, m, j) matches Ok(ls) ==> ls.len() == lod_section_count(secs, m, j),
    decreases j,
{
    reveal_strlit("LODM");
    vstd::string::is_ascii_spec_bytes("LODM");
    assert(vstd::string::is_ascii("LODM"));
    assert("LODM".spec_bytes() =~= seq![76u8, 79u8, 68u8, 77u8]);
    if j > 0 {
        lemma_lods_count(b, secs, m, j - 1);
    }
}

/// The meshes of the sections `secs[..i]`: for each `MESH` section, the mesh
/// followed by its levels of detail.
pub open spec fn spec_mesh_groups(b: Seq<u8>, secs: Seq<BMLSectionView>, i: int) -> Result<
    Seq<Seq<MeshView>>,
    FormatError,
>
    decreases i,
{
    if i <= 0 {
        Ok(Seq::empty())
    } else {
        match spec_mesh_groups(b, secs, i - 1) {
            Err(e) => Err(e),
            Ok(gs) => if secs[i - 1].name == "MESH".spec_bytes() {
                match spec_process_mesh(secs[i - 1].section_data, b) {
                    Err(e) => Err(e),
                    Ok((m, inst)) => match spec_lods(b, secs, m, secs.len() as int) {
                        Err(e) => Err(e),
                        Ok(ls) => Ok(gs.push(seq![inst] + ls)),
                    },
                }
            } else {
                Ok(gs)
            },
        }
    }
}

/// The meshes of a BML file.
pub open spec fn spec_parse_meshes(b: Seq<u8>) -> Result<Seq<Seq<MeshView>>, FormatError> {
    match spec_sections(b, 0) {
        Err(e) => Err(e),
        Ok(secs) => spec_mesh_groups(b, secs, secs.len() as int),
    }
}

/// A mesh that reads has as many vertices and indices as its description announces.
pub proof fn lemma_process_mesh_counts(sec: Seq<u8>, b: Seq<u8>)
    ensures
        spec_process_mesh(sec, b) matches Ok((m, mv)) ==> mv.vertices.len() == m.VertexCount
            && mv.indices.len() == m.IndexCount,
{
}

/// The number of `MESH` sections among `secs[..i]`.
pub open spec fn mesh_section_count(secs: Seq<BMLSectionView>, i: int) -> nat
    decreases i,
{
    if i <= 0 {
        0
    } else {
        mesh_section_count(secs, i - 1) + if secs[i - 1].name == "MESH".spec_bytes() {
            1nat
        } else {
            0nat
        }
    }
}

/// A model that reads has one group per `MESH` section, and each group starts
/// with the mesh of its section, followed by its levels of detail.
pub proof fn lemma_mesh_groups_shape(b: Seq<u8>, secs: Seq<BMLSectionView>, i: int)
    requires
        0 <= i <= secs.len(),
    ensures
        spec_mesh_groups(b, secs, i) matches Ok(gs) ==> gs.len() == mesh_section_count(secs, i)
            && forall|g: int| 0 <= g < gs.len() ==> (#[trigger] gs[g]).len() >= 1,
    decreases i,
{
    if i > 0 {
        lemma_mesh_groups_shape(b, secs, i - 1);
        if let Ok(gs) = spec_mesh_groups(b, secs, i) {
            let prev = spec_mesh_groups(b, secs, i - 1)->Ok_0;
            if secs[i - 1].name == "MESH".spec_bytes() {
                let (m, inst) = spec_process_mesh(secs[i - 1].section_data, b)->Ok_0;
                let ls = spec_lods(b, secs, m, secs.len() as int)->Ok_0;
                assert(gs == prev.push(seq![inst] + ls));
                assert forall|g: int| 0 <= g < gs.len() implies (#[trigger] gs[g]).len() >= 1 by {
                    if g < prev.len() {
                        assert(gs[g] == prev[g]);
                    }
                }
            }
        }
    }
}

fn str_bytes(s: &str) -> (v: Vec<u8>)
    ensures
        v@ == s.spec_bytes(),
{
    slice_to_vec(s.as_bytes())
}

/// Reads all sections of a file.
pub fn read_sections(file: &[u8]) -> (r: Result<Vec<BMLSection>, FormatError>)
    ensures
        match r {
            Ok(v) => spec_sections(file@, 0) == Ok::<Seq<BMLSectionView>, FormatError>(v.deep_view()),
            Err(e) => spec_sections(file@, 0) == Err::<Seq<BMLSectionView>, FormatError>(e),
        },
{
    let len = file.len() as u64;
    let mut cursor = ByteCursor::new(file);
    let mut sections: Vec<BMLSection> = Vec::new();
    assert(sections.deep_view() =~= Seq::<BMLSectionView>::empty());
    while cursor.position() < len
        invariant
            cursor.data@ == file@,
            len == file@.len(),
            spec_sections(file@, 0) == match spec_sections(file@, cursor.pos as int) {
                Err(e) => Err(e),
                Ok(rest) => Ok(sections.deep_view() + rest),
            },
        decreases (if cursor.pos < len {
            len - cursor.pos
        } else {
            0
        }),
    {
        let ghost p = cursor.pos as int;
        let s = match BMLSection::build(&mut cursor) {
            Ok(s) => s,
            Err(e) => return Err(e),
        };
        proof {
            lemma_section_advances(file@, p);
        }
        let ghost before = sections.deep_view();
        let ghost sv = s.deep_view();
        sections.push(s);
        assert(sections.deep_view() =~= before.push(sv));
        proof {
            match spec_sections(file@, cursor.pos as int) {
                Ok(rest) => {
                    assert(before + (seq![sv] + rest) =~= sections.deep_view() + rest);
                },
                Err(_) => {},
            }
        }
    }
    assert(sections.deep_view() + Seq::<BMLSectionView>::empty() =~= sections.deep_view());
    Ok(sections)
}

/// Reads the mesh that `section_data` describes, with its name, vertices and
/// indices, from the file.
pub fn process_mesh(section_data: &[u8], file: &[u8]) -> (r: Result<(BMLMeshSection, Mesh), FormatError>)
    ensures
        match r {
            Ok((m, mesh)) => spec_process_mesh(section_data@, file@) == Ok::<
                (BMLMeshSection, MeshView),
                FormatError,
            >((m, mesh.deep_view())),
            Err(e) => spec_process_mesh(section_data@, file@) == Err::<
                (BMLMeshSection, MeshView),
                FormatError,
            >(e),
        },
{
    let mut cursor = ByteCursor::new(section_data);
    let mesh = match BMLMeshSection::build(&mut cursor) {
        Ok(m) => m,
        Err(e) => return Err(e),
    };
    let mut name: Vec<u8> = Vec::new();
    if mesh.MeshNameOffset != 0 {
        let mut f = ByteCursor::at(file, mesh.MeshNameOffset);
        name = match read_cstring(&mut f) {
            Ok(s) => s,
            Err(e) => return Err(e),
        };
    }
    assert((mesh.VertexCount as u64) * (mesh.VertexStride as u64) <= 0xFFFF_FFFF * 0xFFFF) by (nonlinear_arith)
        requires mesh.VertexCount <= 0xFFFF_FFFF, mesh.VertexStride <= 0xFFFF;
    let vlen = (mesh.VertexCount as u64) * (mesh.VertexStride as u64);
    if vlen > u32::MAX as u64 {
        return Err(FormatError::Overflow);
    }
    let mut f = ByteCursor::at(file, mesh.MeshVertexBufferOffset);
    if vlen != 0 && f.remaining() < vlen {
        return Err(FormatError::UnexpectedEof);
    }
    let vertex_buffer = read_bytes(&mut f, vlen);
    assert((mesh.IndexCount as u64) * (mesh.IndexSize as u64) <= 0xFFFF_FFFF * 0xFFFF) by (nonlinear_arith)
        requires mesh.IndexCount <= 0xFFFF_FFFF, mesh.IndexSize <= 0xFFFF;
    let ilen = (mesh.IndexCount as u64) * (mesh.IndexSize as u64);
    if ilen > u32::MAX as u64 {
        return Err(FormatError::Overflow);
    }
    let mut g = ByteCursor::at(file, mesh.MeshIndexBufferOffset);
    if ilen != 0 && g.remaining() < ilen {
        return Err(FormatError::UnexpectedEof);
    }
    let index_buffer = read_bytes(&mut g, ilen);
    let vertices = match Vertex::decode_all(&vertex_buffer, &mesh.VertexCount, &mesh.VertexStride) {
        Ok(v) => v,
        Err(e) => return Err(e),
    };
    let indices = match Index::decode_all(&index_buffer, &mesh.IndexCount, &mesh.IndexSize) {
        Ok(v) => v,
        Err(e) => return Err(e),
    };
    Ok((mesh, Mesh { vertices, indices, name }))
}

/// The mesh followed by its levels of detail among the sections.
fn collect_lods(sections: &Vec<BMLSection>, file: &[u8], mesh: &BMLMeshSection, instance: Mesh) -> (r:
    Result<Vec<Mesh>, FormatError>)
    ensures
        match spec_lods(file@, sections.deep_view(), *mesh, sections@.len() as int) {
            Err(e) => r == Err::<Vec<Mesh>, FormatError>(e),
            Ok(ls) => r matches Ok(v) && v.deep_view() == seq![instance.deep_view()] + ls,
        },
{
    let ghost secs = sections.deep_view();
    let lod_name = str_bytes("LODM");
    let n = sections.len();
    let mut lods: Vec<Mesh> = Vec::new();
    let ghost iv = instance.deep_view();
    lods.push(instance);
    assert(lods.deep_view() =~= seq![iv]);
    let mut j: usize = 0;
    while j < n
        invariant
            0 <= j <= n,
            n == sections@.len(),
            secs == sections.deep_view(),
            lod_name@ == "LODM".spec_bytes(),
            spec_lods(file@, secs, *mesh, j as int) matches Ok(ls) && lods.deep_view() == seq![iv]
                + ls,
        decreases n - j,
    {
        let lod = &sections[j];
        assert(secs[j as int] == lod.deep_view());
        let offset = lod.section_data_offset;
        if bytes_eq(&lod.name, &lod_name) && (offset == mesh.MeshLOD1Offset || offset
            == mesh.MeshLOD2Offset || offset == mesh.MeshLOD3Offset || offset
            == mesh.MeshLOD4Offset) {
            let (_, lod_instance) = match process_mesh(lod.section_data.as_slice(), file) {
                Ok(x) => x,
                Err(e) => {
                    proof {
                        lemma_lods_error_extends(file@, secs, *mesh, j + 1, n as int);
                    }
                    return Err(e);
                },
            };
            let ghost before = lods.deep_view();
            let ghost lv = lod_instance.deep_view();
            lods.push(lod_instance);
            assert(lods.deep_view() =~= before.push(lv));
            proof {
                let ls = spec_lods(file@, secs, *mesh, j as int)->Ok_0;
                assert(seq![iv] + ls.push(lv) =~= (seq![iv] + ls).push(lv));
            }
        }
        j = j + 1;
    }
    Ok(lods)
}

/// Reads the meshes of a BML file: for each `MESH` section, the mesh followed
/// by its levels of detail (the `LODM` sections at one of its four
/// level-of-detail offsets, in file order).
#[allow(non_snake_case)]
pub fn ParseMeshes(file: &[u8]) -> (r: Result<Vec<Vec<Mesh>>, FormatError>)
    ensures
        match r {
            Ok(v) => spec_parse_meshes(file@) == Ok::<Seq<Seq<MeshView>>, FormatError>(v.deep_view()),
            Err(e) => spec_parse_meshes(file@) == Err::<Seq<Seq<MeshView>>, FormatError>(e),
        },
{
    let sections = match read_sections(file) {
        Ok(s) => s,
        Err(e) => return Err(e),
    };
    let ghost secs = sections.deep_view();
    let mesh_name = str_bytes("MESH");
    let n = sections.len();
    let mut meshes: Vec<Vec<Mesh>> = Vec::new();
    assert(meshes.deep_view() =~= Seq::<Seq<MeshView>>::empty());
    let mut i: usize = 0;
    while i < n
        invariant
            0 <= i <= n,
            n == sections@.len(),
            secs == sections.deep_view(),
            spec_sections(file@, 0) == Ok::<Seq<BMLSectionView>, FormatError>(secs),
            mesh_name@ == "MESH".spec_bytes(),
            spec_mesh_groups(file@, secs, i as int) == Ok::<Seq<Seq<MeshView>>, FormatError>(
                meshes.deep_view(),
            ),
        decreases n - i,
    {
        let section = &sections[i];
        assert(secs[i as int] == section.deep_view());
        if bytes_eq(&section.name, &mesh_name) {
            let (mesh, instance) = match process_mesh(section.section_data.as_slice(), file) {
                Ok(x) => x,
                Err(e) => {
                    proof {
                        lemma_groups_error_extends(file@, secs, i + 1, n as int);
                    }
                    return Err(e);
                },
            };
            let lods = match collect_lods(&sections, file, &mesh, instance) {
                Ok(l) => l,
                Err(e) => {
                    proof {
                        lemma_groups_error_extends(file@, secs, i + 1, n as int);
                    }
                    return Err(e);
                },
            };
            let ghost before = meshes.deep_view();
            let ghost gv = lods.deep_view();
            meshes.push(lods);
            assert(meshes.deep_view() =~= before.push(gv));
        }
        i = i + 1;
    }
    Ok(meshes)
}

proof fn lemma_groups_error_extends(b: Seq<u8>, secs: Seq<BMLSectionView>, k: int, n: int)
    requires
        0 <= k <= n,
        spec_mesh_groups(b, secs, k) is Err,
    ensures
        spec_mesh_groups(b, secs, n) == spec_mesh_groups(b, secs, k),
    decreases n - k,
{
    if k < n {
        lemma_groups_error_extends(b, secs, k + 1, n);
    }
}

proof fn lemma_lods_error_extends(
    b: Seq<u8>,
    secs: Seq<BMLSectionView>,
    m: BMLMeshSection,
    k: int,
    n: int,
)
    requires
        0 <= k <= n,
        spec_lods(b, secs, m, k) is Err,
    ensures
        spec_lods(b, secs, m, n) == spec_lods(b, secs, m, k),
    decreases n - k,
{
    if k < n {
        lemma_lods_error_extends(b, secs, m, k + 1, n);
    }
}

} // verus!
