//! Binary glTF 2.0 (`.glb`) containers: little-endian encoding, chunk framing
//! and buffer layouts for terrain and zone meshes.

use vstd::prelude::*;

verus! {

/// GLB magic number: "glTF" in little-endian.
pub const GLB_MAGIC: u32 = 0x4654_6C67;
/// GLB format version 2.
pub const GLB_VERSION: u32 = 2;
/// JSON chunk type.
pub const CHUNK_JSON: u32 = 0x4E4F_534A;
/// Binary chunk type.
pub const CHUNK_BIN: u32 = 0x004E_4942;

/// The four little-endian bytes of the 32-bit value `v`.
#[verifier::opaque]
pub open spec fn le_u32(v: u32) -> Seq<u8> {
    seq![(v % 256) as u8, ((v / 256) % 256) as u8, ((v / 65536) % 256) as u8, ((v / 16777216) % 256) as u8]
}

/// Every encoding is four bytes long.
pub proof fn lemma_le_u32_len(v: u32)
    ensures
        le_u32(v).len() == 4,
{
    reveal(le_u32);
}

/// The 32-bit value stored little-endian in `b[at..at + 4]`.
pub open spec fn read_le_u32(b: Seq<u8>, at: int) -> int {
    b[at] + 256 * b[at + 1] + 65536 * b[at + 2] + 16777216 * b[at + 3]
}

/// Encoding a 32-bit value and reading it back gives the value.
pub proof fn lemma_le_u32_roundtrip(v: u32)
    ensures
        read_le_u32(le_u32(v), 0) == v,
{
    reveal(le_u32);
    let b = le_u32(v);
    assert(b[0] == v % 256);
    assert(b[1] == (v / 256) % 256);
    assert(b[2] == (v / 65536) % 256);
    assert(b[3] == (v / 16777216) % 256);
}

/// Number of fill bytes that bring a length of `len` to a multiple of four.
pub open spec fn pad_len(len: nat) -> nat {
    ((4 - len % 4) % 4) as nat
}

/// `s` followed by `fill` bytes up to the next multiple of four.
pub open spec fn padded(s: Seq<u8>, fill: u8) -> Seq<u8> {
    s + Seq::new(pad_len(s.len()), |i: int| fill)
}

/// Append the little-endian bytes of `v`.
pub fn push_u32_le(buf: &mut Vec<u8>, v: u32)
    ensures
        final(buf)@ == old(buf)@ + le_u32(v),
{
    reveal(le_u32);
    buf.push((v % 256) as u8);
    buf.push(((v / 256) % 256) as u8);
    buf.push(((v / 65536) % 256) as u8);
    buf.push(((v / 16777216) % 256) as u8);
    proof {
        assert(final(buf)@ =~= old(buf)@ + le_u32(v));
    }
}

/// Append `fill` bytes until the length is a multiple of four.
pub fn pad_to_four(buf: &mut Vec<u8>, fill: u8)
    ensures
        final(buf)@ == padded(old(buf)@, fill),
        final(buf)@.len() % 4 == 0,
{
    let ghost start = buf@;
    while buf.len() % 4 != 0
        invariant
            start.len() <= buf@.len(),
            buf@.len() - start.len() <= pad_len(start.len()),
            buf@ == start + Seq::new((buf@.len() - start.len()) as nat, |i: int| fill),
        decreases pad_len(start.len()) - (buf@.len() - start.len()),
    {
        buf.push(fill);
        proof {
            assert(buf@ =~= start + Seq::new((buf@.len() - start.len()) as nat, |i: int| fill));
        }
    }
    proof {
        assert(buf@.len() - start.len() == pad_len(start.len()));
        assert(buf@ =~= padded(start, fill));
    }
}

/// A GLB file holding the JSON chunk `json_padded` and, when present, the
/// binary chunk `bin`. Lengths are written as 32-bit values.
pub open spec fn glb_file(json_padded: Seq<u8>, bin: Option<Seq<u8>>) -> Seq<u8> {
    let bin_chunk = match bin {
        Some(b) => le_u32(b.len() as u32) + le_u32(CHUNK_BIN) + b,
        None => Seq::<u8>::empty(),
    };
    let total = 12 + 8 + json_padded.len() + bin_chunk.len();
    le_u32(GLB_MAGIC) + (le_u32(GLB_VERSION) + (le_u32(total as u32) + (le_u32(json_padded.len() as u32)
        + (le_u32(CHUNK_JSON) + (json_padded + bin_chunk)))))
}

fn write_glb(json_padded: &Vec<u8>, bin: Option<&Vec<u8>>) -> (glb: Vec<u8>)
    requires
        json_padded@.len() + 28 + match bin { Some(b) => b@.len(), None => 0 } <= usize::MAX,
    ensures
        glb@ == glb_file(json_padded@, match bin { Some(b) => Some(b@), None => None }),
{
    let bin_chunk_size: usize = match bin {
        Some(b) => 8 + b.len(),
        None => 0,
    };
    let total_size = 12 + 8 + json_padded.len() + bin_chunk_size;
    let ghost bview = match bin { Some(b) => Some(b@), None => None::<Seq<u8>> };
    let ghost bin_chunk = match bview { Some(b) => le_u32(b.len() as u32) + le_u32(CHUNK_BIN) + b, None => Seq::<u8>::empty() };
    let ghost header = le_u32(GLB_MAGIC) + le_u32(GLB_VERSION) + le_u32(total_size as u32)
        + le_u32(json_padded@.len() as u32) + le_u32(CHUNK_JSON);
    let mut glb: Vec<u8> = Vec::new();
    push_u32_le(&mut glb, GLB_MAGIC);
    push_u32_le(&mut glb, GLB_VERSION);
    push_u32_le(&mut glb, total_size as u32);
    push_u32_le(&mut glb, json_padded.len() as u32);
    push_u32_le(&mut glb, CHUNK_JSON);
    proof {
        assert(glb@ =~= header);
    }
    append_bytes(&mut glb, json_padded);
    match bin {
        Some(b) => {
            push_u32_le(&mut glb, b.len() as u32);
            push_u32_le(&mut glb, CHUNK_BIN);
            append_bytes(&mut glb, b);
            proof {
                assert(glb@ =~= header + json_padded@ + bin_chunk);
            }
        },
        None => {
            proof {
                assert(glb@ =~= header + json_padded@ + bin_chunk);
            }
        },
    }
    proof {
        if let Some(b) = bview {
            lemma_le_u32_len(b.len() as u32);
            lemma_le_u32_len(CHUNK_BIN);
            assert(bin_chunk.len() == 8 + b.len());
        }
        assert(glb@ =~= glb_file(json_padded@, bview));
    }
    glb
}

/// Append every byte of `src` to `dst`.
pub fn append_bytes(dst: &mut Vec<u8>, src: &Vec<u8>)
    ensures
        final(dst)@ == old(dst)@ + src@,
{
    let ghost start = dst@;
    let mut i: usize = 0;
    while i < src.len()
        invariant
            i <= src@.len(),
            dst@ == start + src@.take(i as int),
        decreases src@.len() - i,
    {
        dst.push(src[i]);
        i = i + 1;
        proof {
            assert(dst@ =~= start + src@.take(i as int));
        }
    }
    proof {
        assert(src@.take(src@.len() as int) =~= src@);
    }
}

} // verus!

verus! {

/// Assemble a GLB file from a glTF JSON document and a binary buffer.
///
/// The JSON is padded with spaces to a four-byte boundary; the binary chunk
/// is written only when `bin` is not empty.
pub fn assemble_glb(json: Vec<u8>, bin: &Vec<u8>) -> (glb: Vec<u8>)
    requires
        json@.len() + bin@.len() + 31 <= usize::MAX,
    ensures
        glb@ == glb_file(padded(json@, 0x20), if bin@.len() > 0 { Some(bin@) } else { None }),
{
    let mut json_bytes = json;
    pad_to_four(&mut json_bytes, 0x20);
    if bin.len() > 0 {
        write_glb(&json_bytes, Some(bin))
    } else {
        write_glb(&json_bytes, None)
    }
}

/// Assemble the terrain GLB: the JSON padded with spaces and the binary
/// buffer padded with zeros to four-byte boundaries, both chunks always present.
pub fn assemble_terrain_glb(json: Vec<u8>, bin: Vec<u8>) -> (glb: Vec<u8>)
    requires
        json@.len() + bin@.len() + 34 <= usize::MAX,
    ensures
        glb@ == glb_file(padded(json@, 0x20), Some(padded(bin@, 0))),
{
    let mut json_bytes = json;
    pad_to_four(&mut json_bytes, 0x20);
    let mut bin_bytes = bin;
    pad_to_four(&mut bin_bytes, 0);
    write_glb(&json_bytes, Some(&bin_bytes))
}

proof fn lemma_read_prefix(a: Seq<u8>, b: Seq<u8>)
    requires
        a.len() == 4,
    ensures
        read_le_u32(a + b, 0) == read_le_u32(a, 0),
{
}

proof fn lemma_read_shift(a: Seq<u8>, b: Seq<u8>, at: int)
    requires
        a.len() == 4,
        0 <= at,
        at + 4 <= b.len(),
    ensures
        read_le_u32(a + b, 4 + at) == read_le_u32(b, at),
{
}

/// A GLB file's header reads back as written: the magic number, version 2, a
/// total length equal to the file's length (for files under 4 GiB), and the
/// JSON chunk's length and type.
pub proof fn lemma_glb_reads_back(json_padded: Seq<u8>, bin: Option<Seq<u8>>)
    requires
        json_padded.len() < 0x1_0000_0000,
        glb_file(json_padded, bin).len() < 0x1_0000_0000,
    ensures
        read_le_u32(glb_file(json_padded, bin), 0) == GLB_MAGIC,
        read_le_u32(glb_file(json_padded, bin), 4) == GLB_VERSION,
        read_le_u32(glb_file(json_padded, bin), 8) == glb_file(json_padded, bin).len(),
        read_le_u32(glb_file(json_padded, bin), 12) == json_padded.len(),
        read_le_u32(glb_file(json_padded, bin), 16) == CHUNK_JSON,
{
    let f = glb_file(json_padded, bin);
    let bin_chunk = match bin {
        Some(b) => le_u32(b.len() as u32) + le_u32(CHUNK_BIN) + b,
        None => Seq::<u8>::empty(),
    };
    let total = 12 + 8 + json_padded.len() + bin_chunk.len();
    lemma_le_u32_len(GLB_MAGIC);
    lemma_le_u32_len(GLB_VERSION);
    lemma_le_u32_len(total as u32);
    lemma_le_u32_len(json_padded.len() as u32);
    lemma_le_u32_len(CHUNK_JSON);
    if let Some(b) = bin {
        lemma_le_u32_len(b.len() as u32);
        lemma_le_u32_len(CHUNK_BIN);
    }
    assert(f.len() == total);
    lemma_le_u32_roundtrip(GLB_MAGIC);
    lemma_le_u32_roundtrip(GLB_VERSION);
    lemma_le_u32_roundtrip(total as u32);
    lemma_le_u32_roundtrip(json_padded.len() as u32);
    lemma_le_u32_roundtrip(CHUNK_JSON);
    let h0 = le_u32(GLB_MAGIC);
    let h1 = le_u32(GLB_VERSION);
    let h2 = le_u32(total as u32);
    let h3 = le_u32(json_padded.len() as u32);
    let h4 = le_u32(CHUNK_JSON);
    let t4 = json_padded + bin_chunk;
    let t3 = h4 + t4;
    let t2 = h3 + t3;
    let t1 = h2 + t2;
    let t0 = h1 + t1;
    assert(f == h0 + t0);
    lemma_read_prefix(h0, t0);
    lemma_read_prefix(h1, t1);
    lemma_read_prefix(h2, t2);
    lemma_read_prefix(h3, t3);
    lemma_read_prefix(h4, t4);
    lemma_read_shift(h0, t0, 0);
    lemma_read_shift(h0, t0, 4);
    lemma_read_shift(h0, t0, 8);
    lemma_read_shift(h0, t0, 12);
    lemma_read_shift(h1, t1, 0);
    lemma_read_shift(h1, t1, 4);
    lemma_read_shift(h1, t1, 8);
    lemma_read_shift(h2, t2, 0);
    lemma_read_shift(h2, t2, 4);
    lemma_read_shift(h3, t3, 0);
}

} // verus!

verus! {

/// Little-endian bytes of three 32-bit words (an `f32` vector by its bits).
pub open spec fn le_vec3(v: [u32; 3]) -> Seq<u8> {
    le_u32(v[0]) + le_u32(v[1]) + le_u32(v[2])
}

/// Little-endian bytes of a sequence of 3-word vectors, one after another.
pub open spec fn encode_vec3s(s: Seq<[u32; 3]>) -> Seq<u8>
    decreases s.len(),
{
    if s.len() == 0 { Seq::empty() } else { encode_vec3s(s.drop_last()) + le_vec3(s.last()) }
}

/// RGBA bytes of RGB colours: each colour followed by an opaque alpha of 255.
pub open spec fn encode_rgba(s: Seq<[u8; 3]>) -> Seq<u8>
    decreases s.len(),
{
    if s.len() == 0 { Seq::empty() } else { encode_rgba(s.drop_last()) + seq![s.last()[0], s.last()[1], s.last()[2], 255u8] }
}

/// Little-endian bytes of a sequence of 32-bit words.
pub open spec fn encode_u32s(s: Seq<u32>) -> Seq<u8>
    decreases s.len(),
{
    if s.len() == 0 { Seq::empty() } else { encode_u32s(s.drop_last()) + le_u32(s.last()) }
}

proof fn lemma_encode_vec3s_len(s: Seq<[u32; 3]>)
    ensures
        encode_vec3s(s).len() == 12 * s.len(),
    decreases s.len(),
{
    if s.len() > 0 {
        lemma_encode_vec3s_len(s.drop_last());
        lemma_le_u32_len(s.last()[0]);
        lemma_le_u32_len(s.last()[1]);
        lemma_le_u32_len(s.last()[2]);
    }
}

proof fn lemma_encode_rgba_len(s: Seq<[u8; 3]>)
    ensures
        encode_rgba(s).len() == 4 * s.len(),
    decreases s.len(),
{
    if s.len() > 0 {
        lemma_encode_rgba_len(s.drop_last());
    }
}

proof fn lemma_encode_u32s_len(s: Seq<u32>)
    ensures
        encode_u32s(s).len() == 4 * s.len(),
    decreases s.len(),
{
    if s.len() > 0 {
        lemma_encode_u32s_len(s.drop_last());
        lemma_le_u32_len(s.last());
    }
}

/// Append the little-endian bytes of each vector.
pub fn push_vec3s(buf: &mut Vec<u8>, vs: &Vec<[u32; 3]>)
    ensures
        final(buf)@ == old(buf)@ + encode_vec3s(vs@),
{
    let ghost start = buf@;
    let mut i: usize = 0;
    while i < vs.len()
        invariant
            i <= vs@.len(),
            buf@ == start + encode_vec3s(vs@.take(i as int)),
        decreases vs@.len() - i,
    {
        let v = vs[i];
        push_u32_le(buf, v[0]);
        push_u32_le(buf, v[1]);
        push_u32_le(buf, v[2]);
        proof {
            assert(vs@.take(i + 1).drop_last() =~= vs@.take(i as int));
            assert(buf@ =~= start + encode_vec3s(vs@.take(i + 1)));
        }
        i = i + 1;
    }
    proof {
        assert(vs@.take(vs@.len() as int) =~= vs@);
    }
}

/// Append each colour as RGBA with an opaque alpha.
pub fn push_rgba(buf: &mut Vec<u8>, colors: &Vec<[u8; 3]>)
    ensures
        final(buf)@ == old(buf)@ + encode_rgba(colors@),
{
    let ghost start = buf@;
    let mut i: usize = 0;
    while i < colors.len()
        invariant
            i <= colors@.len(),
            buf@ == start + encode_rgba(colors@.take(i as int)),
        decreases colors@.len() - i,
    {
        let c = colors[i];
        buf.push(c[0]);
        buf.push(c[1]);
        buf.push(c[2]);
        buf.push(255);
        proof {
            assert(colors@.take(i + 1).drop_last() =~= colors@.take(i as int));
            assert(buf@ =~= start + encode_rgba(colors@.take(i + 1)));
        }
        i = i + 1;
    }
    proof {
        assert(colors@.take(colors@.len() as int) =~= colors@);
    }
}

/// Append the little-endian bytes of each word.
pub fn push_u32s(buf: &mut Vec<u8>, ws: &Vec<u32>)
    ensures
        final(buf)@ == old(buf)@ + encode_u32s(ws@),
{
    let ghost start = buf@;
    let mut i: usize = 0;
    while i < ws.len()
        invariant
            i <= ws@.len(),
            buf@ == start + encode_u32s(ws@.take(i as int)),
        decreases ws@.len() - i,
    {
        push_u32_le(buf, ws[i]);
        proof {
            assert(ws@.take(i + 1).drop_last() =~= ws@.take(i as int));
            assert(buf@ =~= start + encode_u32s(ws@.take(i + 1)));
        }
        i = i + 1;
    }
    proof {
        assert(ws@.take(ws@.len() as int) =~= ws@);
    }
}

/// The largest index, or 0 for none.
pub fn max_index(indices: &Vec<u32>) -> (m: u32)
    ensures
        forall|i: int| 0 <= i < indices@.len() ==> indices@[i] <= m,
        indices@.len() == 0 ==> m == 0,
        indices@.len() > 0 ==> exists|i: int| 0 <= i < indices@.len() && indices@[i] == m,
{
    let mut m: u32 = 0;
    let mut i: usize = 0;
    while i < indices.len()
        invariant
            i <= indices@.len(),
            forall|j: int| 0 <= j < i ==> indices@[j] <= m,
            i == 0 ==> m == 0,
            i > 0 ==> exists|j: int| 0 <= j < i && indices@[j] == m,
        decreases indices@.len() - i,
    {
        if i == 0 || indices[i] > m {
            m = indices[i];
        }
        i = i + 1;
    }
    m
}

/// Byte sizes of the four sections of the terrain's binary buffer.
#[derive(Debug, Clone, Copy, PartialEq, Eq, Structural)]
pub struct TerrainBufferLayout {
    /// Positions: 12 bytes per vertex.
    pub pos_size: usize,
    /// Normals: 12 bytes per vertex.
    pub norm_size: usize,
    /// RGBA colours: 4 bytes per vertex.
    pub color_size: usize,
    /// Indices: 4 bytes per index.
    pub idx_size: usize,
    /// The whole buffer.
    pub bin_size: usize,
}

/// Sizes of the terrain buffer's sections for the given counts.
pub fn terrain_buffer_layout(vertex_count: usize, index_count: usize) -> (l: TerrainBufferLayout)
    requires
        28 * vertex_count + 4 * index_count <= usize::MAX,
    ensures
        l.pos_size == 12 * vertex_count,
        l.norm_size == 12 * vertex_count,
        l.color_size == 4 * vertex_count,
        l.idx_size == 4 * index_count,
        l.bin_size == l.pos_size + l.norm_size + l.color_size + l.idx_size,
{
    let pos_size = vertex_count * 12;
    let norm_size = vertex_count * 12;
    let color_size = vertex_count * 4;
    let idx_size = index_count * 4;
    TerrainBufferLayout { pos_size, norm_size, color_size, idx_size, bin_size: pos_size + norm_size + color_size + idx_size }
}

/// The terrain's binary buffer: positions, normals, RGBA colours, indices.
pub open spec fn terrain_bin(positions: Seq<[u32; 3]>, normals: Seq<[u32; 3]>, colors: Seq<[u8; 3]>, indices: Seq<u32>) -> Seq<u8> {
    encode_vec3s(positions) + encode_vec3s(normals) + encode_rgba(colors) + encode_u32s(indices)
}

/// Build the terrain's binary buffer from the bit patterns of the vertex
/// positions and normals, the vertex colours and the triangle indices.
pub fn terrain_bin_buffer(
    position_bits: &Vec<[u32; 3]>,
    normal_bits: &Vec<[u32; 3]>,
    colors: &Vec<[u8; 3]>,
    indices: &Vec<u32>,
) -> (bin: Vec<u8>)
    ensures
        bin@ == terrain_bin(position_bits@, normal_bits@, colors@, indices@),
        bin@.len() == 12 * position_bits@.len() + 12 * normal_bits@.len() + 4 * colors@.len() + 4 * indices@.len(),
{
    let mut bin: Vec<u8> = Vec::new();
    push_vec3s(&mut bin, position_bits);
    push_vec3s(&mut bin, normal_bits);
    push_rgba(&mut bin, colors);
    push_u32s(&mut bin, indices);
    proof {
        lemma_encode_vec3s_len(position_bits@);
        lemma_encode_vec3s_len(normal_bits@);
        lemma_encode_rgba_len(colors@);
        lemma_encode_u32s_len(indices@);
        assert(bin@ =~= terrain_bin(position_bits@, normal_bits@, colors@, indices@));
    }
    bin
}

} // verus!

verus! {

proof fn lemma_subrange_after(a: Seq<u8>, b: Seq<u8>, i: int, j: int)
    requires
        0 <= i <= j <= b.len(),
    ensures
        (a + b).subrange(a.len() + i, a.len() + j) == b.subrange(i, j),
{
    assert((a + b).subrange(a.len() + i, a.len() + j) =~= b.subrange(i, j));
}

proof fn lemma_read_after(a: Seq<u8>, b: Seq<u8>, at: int)
    requires
        0 <= at,
        at + 4 <= b.len(),
    ensures
        read_le_u32(a + b, a.len() + at) == read_le_u32(b, at),
{
}

/// The binary chunk reads back after the JSON chunk: its length, its type
/// and its bytes, which end the file; without one the file ends with the JSON.
pub proof fn lemma_glb_bin_chunk(json_padded: Seq<u8>, bin: Option<Seq<u8>>)
    ensures
        bin is None ==> glb_file(json_padded, bin).len() == 20 + json_padded.len(),
        bin matches Some(b) ==> {
            let f = glb_file(json_padded, bin);
            let at = 20 + json_padded.len() as int;
            &&& f.len() == at + 8 + b.len()
            &&& (b.len() < 0x1_0000_0000 ==> read_le_u32(f, at) == b.len())
            &&& read_le_u32(f, at + 4) == CHUNK_BIN
            &&& f.subrange(at + 8, f.len() as int) == b
        },
{
    let bin_chunk = match bin {
        Some(b) => le_u32(b.len() as u32) + le_u32(CHUNK_BIN) + b,
        None => Seq::<u8>::empty(),
    };
    let total = 12 + 8 + json_padded.len() + bin_chunk.len();
    lemma_le_u32_len(GLB_MAGIC);
    lemma_le_u32_len(GLB_VERSION);
    lemma_le_u32_len(total as u32);
    lemma_le_u32_len(json_padded.len() as u32);
    lemma_le_u32_len(CHUNK_JSON);
    let pre = le_u32(GLB_MAGIC) + le_u32(GLB_VERSION) + le_u32(total as u32) + le_u32(json_padded.len() as u32)
        + le_u32(CHUNK_JSON) + json_padded;
    let f = glb_file(json_padded, bin);
    assert(f =~= pre + bin_chunk);
    if let Some(b) = bin {
        lemma_le_u32_len(b.len() as u32);
        lemma_le_u32_len(CHUNK_BIN);
        let l = le_u32(b.len() as u32);
        let c = le_u32(CHUNK_BIN);
        assert(bin_chunk =~= l + (c + b));
        lemma_read_after(pre, bin_chunk, 0);
        lemma_read_prefix(l, c + b);
        lemma_le_u32_roundtrip(b.len() as u32);
        lemma_read_after(pre, bin_chunk, 4);
        lemma_read_shift(l, c + b, 0);
        lemma_read_prefix(c, b);
        lemma_le_u32_roundtrip(CHUNK_BIN);
        assert(f.subrange(pre.len() as int + 8, f.len() as int) =~= b);
    }
}

/// In a GLB file the JSON chunk's bytes follow the 20 header bytes, and with
/// both chunks padded to four bytes the file length is a multiple of four.
pub proof fn lemma_glb_json_chunk(json_padded: Seq<u8>, bin: Option<Seq<u8>>)
    ensures
        glb_file(json_padded, bin).subrange(20, 20 + json_padded.len() as int) == json_padded,
        (json_padded.len() % 4 == 0 && (bin matches Some(b) ==> b.len() % 4 == 0))
            ==> glb_file(json_padded, bin).len() % 4 == 0,
{
    let bin_chunk = match bin {
        Some(b) => le_u32(b.len() as u32) + le_u32(CHUNK_BIN) + b,
        None => Seq::<u8>::empty(),
    };
    let total = 12 + 8 + json_padded.len() + bin_chunk.len();
    lemma_le_u32_len(GLB_MAGIC);
    lemma_le_u32_len(GLB_VERSION);
    lemma_le_u32_len(total as u32);
    lemma_le_u32_len(json_padded.len() as u32);
    lemma_le_u32_len(CHUNK_JSON);
    if let Some(b) = bin {
        lemma_le_u32_len(b.len() as u32);
        lemma_le_u32_len(CHUNK_BIN);
    }
    let h0 = le_u32(GLB_MAGIC);
    let h1 = le_u32(GLB_VERSION);
    let h2 = le_u32(total as u32);
    let h3 = le_u32(json_padded.len() as u32);
    let h4 = le_u32(CHUNK_JSON);
    let t4 = json_padded + bin_chunk;
    let t3 = h4 + t4;
    let t2 = h3 + t3;
    let t1 = h2 + t2;
    let t0 = h1 + t1;
    let len = json_padded.len() as int;
    assert(t4.subrange(0, len) =~= json_padded);
    lemma_subrange_after(h4, t4, 0, len);
    lemma_subrange_after(h3, t3, 4, 4 + len);
    lemma_subrange_after(h2, t2, 8, 8 + len);
    lemma_subrange_after(h1, t1, 12, 12 + len);
    lemma_subrange_after(h0, t0, 16, 16 + len);
}

} // verus!

verus! {

/// The bit patterns of one zone mesh's vertex data and its triangle indices.
pub struct MeshBuffers {
    /// Position bits, one `[x, y, z]` per vertex.
    pub positions: Vec<[u32; 3]>,
    /// Normal bits, one `[x, y, z]` per vertex.
    pub normals: Vec<[u32; 3]>,
    /// Triangle indices.
    pub indices: Vec<u32>,
}

/// Where one mesh's sections sit in the scene's binary buffer.
#[derive(Debug, Clone, Copy, PartialEq, Eq, Structural)]
pub struct MeshLayout {
    pub pos_offset: usize,
    pub pos_size: usize,
    pub norm_offset: usize,
    pub norm_size: usize,
    pub idx_offset: usize,
    pub idx_size: usize,
    pub vertex_count: usize,
    pub index_count: usize,
    pub max_index: u32,
}

/// One mesh's bytes: positions, then normals, then indices.
pub open spec fn mesh_bytes(m: MeshBuffers) -> Seq<u8> {
    encode_vec3s(m.positions@) + encode_vec3s(m.normals@) + encode_u32s(m.indices@)
}

/// Byte length of one mesh's section.
pub open spec fn mesh_byte_len(m: MeshBuffers) -> nat {
    12 * m.positions@.len() + 12 * m.normals@.len() + 4 * m.indices@.len()
}

/// The meshes' bytes one after another.
pub open spec fn meshes_bytes(ms: Seq<MeshBuffers>) -> Seq<u8>
    decreases ms.len(),
{
    if ms.len() == 0 { Seq::empty() } else { meshes_bytes(ms.drop_last()) + mesh_bytes(ms.last()) }
}

/// Byte length of the meshes' bytes.
pub open spec fn meshes_byte_len(ms: Seq<MeshBuffers>) -> nat
    decreases ms.len(),
{
    if ms.len() == 0 { 0 } else { meshes_byte_len(ms.drop_last()) + mesh_byte_len(ms.last()) }
}

proof fn lemma_mesh_bytes_len(m: MeshBuffers)
    ensures
        mesh_bytes(m).len() == mesh_byte_len(m),
{
    lemma_encode_vec3s_len(m.positions@);
    lemma_encode_vec3s_len(m.normals@);
    lemma_encode_u32s_len(m.indices@);
}

proof fn lemma_meshes_byte_len_prefix(ms: Seq<MeshBuffers>, k: int)
    requires
        0 <= k <= ms.len(),
    ensures
        meshes_byte_len(ms.take(k)) <= meshes_byte_len(ms),
    decreases ms.len(),
{
    if k < ms.len() {
        assert(ms.drop_last().take(k) =~= ms.take(k));
        lemma_meshes_byte_len_prefix(ms.drop_last(), k);
    } else {
        assert(ms.take(k) =~= ms);
    }
}

/// Layout of mesh `m` when its bytes start at `offset`.
pub open spec fn layout_at(m: MeshBuffers, offset: int, l: MeshLayout) -> bool {
    &&& l.pos_offset == offset
    &&& l.pos_size == 12 * m.positions@.len()
    &&& l.norm_offset == offset + 12 * m.positions@.len()
    &&& l.norm_size == 12 * m.positions@.len()
    &&& l.idx_offset == offset + 12 * m.positions@.len() + 12 * m.normals@.len()
    &&& l.idx_size == 4 * m.indices@.len()
    &&& l.vertex_count == m.positions@.len()
    &&& l.index_count == m.indices@.len()
    &&& (forall|i: int| 0 <= i < m.indices@.len() ==> m.indices@[i] <= l.max_index)
    &&& (m.indices@.len() == 0 ==> l.max_index == 0)
    &&& (m.indices@.len() > 0 ==> exists|i: int| 0 <= i < m.indices@.len() && m.indices@[i] == l.max_index)
}

/// The scene's binary buffer (each mesh's positions, normals and indices in
/// turn, zero-padded to four bytes) and where each mesh's sections sit in it.
pub fn scene_bin_buffer(meshes: &Vec<MeshBuffers>) -> (r: (Vec<u8>, Vec<MeshLayout>))
    requires
        meshes_byte_len(meshes@) + 3 <= usize::MAX,
    ensures
        r.0@ == padded(meshes_bytes(meshes@), 0),
        r.1@.len() == meshes@.len(),
        forall|k: int| 0 <= k < meshes@.len() ==>
            layout_at(meshes@[k], meshes_byte_len(meshes@.take(k)) as int, #[trigger] r.1@[k]),
{
    let mut bin: Vec<u8> = Vec::new();
    let mut layouts: Vec<MeshLayout> = Vec::new();
    let mut k: usize = 0;
    while k < meshes.len()
        invariant
            k <= meshes@.len(),
            meshes_byte_len(meshes@) + 3 <= usize::MAX,
            bin@ == meshes_bytes(meshes@.take(k as int)),
            bin@.len() == meshes_byte_len(meshes@.take(k as int)),
            layouts@.len() == k,
            forall|j: int| 0 <= j < k ==>
                layout_at(meshes@[j], meshes_byte_len(meshes@.take(j)) as int, #[trigger] layouts@[j]),
        decreases meshes@.len() - k,
    {
        let m = &meshes[k];
        proof {
            lemma_meshes_byte_len_prefix(meshes@, k + 1);
            assert(meshes@.take(k + 1).drop_last() =~= meshes@.take(k as int));
            lemma_mesh_bytes_len(*m);
        }
        let pos_offset = bin.len();
        let vertex_count = m.positions.len();
        let index_count = m.indices.len();
        push_vec3s(&mut bin, &m.positions);
        let norm_offset = bin.len();
        push_vec3s(&mut bin, &m.normals);
        let idx_offset = bin.len();
        let max_index = max_index(&m.indices);
        push_u32s(&mut bin, &m.indices);
        proof {
            lemma_encode_vec3s_len(m.positions@);
            lemma_encode_vec3s_len(m.normals@);
        }
        layouts.push(MeshLayout {
            pos_offset,
            pos_size: vertex_count * 12,
            norm_offset,
            norm_size: vertex_count * 12,
            idx_offset,
            idx_size: index_count * 4,
            vertex_count,
            index_count,
            max_index,
        });
        proof {
            assert(bin@ =~= meshes_bytes(meshes@.take(k + 1)));
        }
        k = k + 1;
    }
    proof {
        assert(meshes@.take(meshes@.len() as int) =~= meshes@);
    }
    pad_to_four(&mut bin, 0);
    (bin, layouts)
}

} // verus!

verus! {

proof fn lemma_meshes_bytes_len(ms: Seq<MeshBuffers>)
    ensures
        meshes_bytes(ms).len() == meshes_byte_len(ms),
    decreases ms.len(),
{
    if ms.len() > 0 {
        lemma_meshes_bytes_len(ms.drop_last());
        lemma_mesh_bytes_len(ms.last());
    }
}

proof fn lemma_meshes_bytes_prefix(ms: Seq<MeshBuffers>, k: int)
    requires
        0 <= k <= ms.len(),
    ensures
        meshes_byte_len(ms.take(k)) <= meshes_bytes(ms).len(),
        meshes_bytes(ms).subrange(0, meshes_byte_len(ms.take(k)) as int) == meshes_bytes(ms.take(k)),
    decreases ms.len(),
{
    lemma_meshes_bytes_len(ms);
    lemma_meshes_bytes_len(ms.take(k));
    if k < ms.len() {
        assert(ms.drop_last().take(k) =~= ms.take(k));
        lemma_meshes_bytes_prefix(ms.drop_last(), k);
        lemma_meshes_bytes_len(ms.drop_last());
        let whole = meshes_bytes(ms);
        let front = meshes_bytes(ms.drop_last());
        assert(whole == front + mesh_bytes(ms.last()));
        assert(whole.subrange(0, meshes_byte_len(ms.take(k)) as int) =~= front.subrange(0, meshes_byte_len(ms.take(k)) as int));
    } else {
        assert(ms.take(k) =~= ms);
        assert(meshes_bytes(ms).subrange(0, meshes_bytes(ms).len() as int) =~= meshes_bytes(ms));
    }
}

/// In the scene's binary buffer each mesh's positions, normals and indices
/// sit at the offsets its layout records, one section after the other, so an
/// accessor over a layout reads back that mesh's own data.
pub proof fn lemma_scene_sections(ms: Seq<MeshBuffers>, k: int)
    requires
        0 <= k < ms.len(),
    ensures
        ({
            let bin = padded(meshes_bytes(ms), 0);
            let m = ms[k];
            let off = meshes_byte_len(ms.take(k)) as int;
            let p = 12 * m.positions@.len();
            let q = 12 * m.normals@.len();
            let r = 4 * m.indices@.len();
            &&& bin.subrange(off, off + p) == encode_vec3s(m.positions@)
            &&& bin.subrange(off + p, off + p + q) == encode_vec3s(m.normals@)
            &&& bin.subrange(off + p + q, off + p + q + r) == encode_u32s(m.indices@)
        }),
{
    let m = ms[k];
    let off = meshes_byte_len(ms.take(k)) as int;
    let upto = ms.take(k + 1);
    assert(upto.drop_last() =~= ms.take(k));
    assert(upto.last() == m);
    lemma_meshes_bytes_prefix(ms, k + 1);
    lemma_meshes_bytes_len(ms.take(k));
    lemma_mesh_bytes_len(m);
    lemma_encode_vec3s_len(m.positions@);
    lemma_encode_vec3s_len(m.normals@);
    lemma_encode_u32s_len(m.indices@);
    let all = meshes_bytes(ms);
    let bin = padded(all, 0);
    let pre = meshes_bytes(upto);
    assert(pre == meshes_bytes(ms.take(k)) + mesh_bytes(m));
    let end = meshes_byte_len(upto) as int;
    assert(all.subrange(0, end) == pre);
    let p = 12 * m.positions@.len();
    let q = 12 * m.normals@.len();
    let r = 4 * m.indices@.len();
    assert(bin.subrange(off, off + p) =~= encode_vec3s(m.positions@)) by {
        assert forall|i: int| 0 <= i < p implies bin.subrange(off, off + p)[i] == encode_vec3s(m.positions@)[i] by {
            assert(bin[off + i] == all[off + i]);
            assert(all[off + i] == pre[off + i]);
            assert(pre[off + i] == mesh_bytes(m)[i]);
        }
    }
    assert(bin.subrange(off + p, off + p + q) =~= encode_vec3s(m.normals@)) by {
        assert forall|i: int| 0 <= i < q implies bin.subrange(off + p, off + p + q)[i] == encode_vec3s(m.normals@)[i] by {
            assert(bin[off + p + i] == all[off + p + i]);
            assert(all[off + p + i] == pre[off + p + i]);
            assert(pre[off + p + i] == mesh_bytes(m)[p + i]);
        }
    }
    assert(bin.subrange(off + p + q, off + p + q + r) =~= encode_u32s(m.indices@)) by {
        assert forall|i: int| 0 <= i < r implies bin.subrange(off + p + q, off + p + q + r)[i] == encode_u32s(m.indices@)[i] by {
            assert(bin[off + p + q + i] == all[off + p + q + i]);
            assert(all[off + p + q + i] == pre[off + p + q + i]);
            assert(pre[off + p + q + i] == mesh_bytes(m)[p + q + i]);
        }
    }
}

} // verus!

verus! {

/// The terrain buffer's sections sit where its layout puts them: positions
/// from 0, then normals, RGBA colours and indices, each right after the last.
pub proof fn lemma_terrain_sections(positions: Seq<[u32; 3]>, normals: Seq<[u32; 3]>, colors: Seq<[u8; 3]>, indices: Seq<u32>)
    requires
        normals.len() == positions.len(),
        colors.len() == positions.len(),
    ensures
        ({
            let bin = terrain_bin(positions, normals, colors, indices);
            let v = positions.len() as int;
            &&& bin.len() == 28 * v + 4 * indices.len()
            &&& bin.subrange(0, 12 * v) == encode_vec3s(positions)
            &&& bin.subrange(12 * v, 24 * v) == encode_vec3s(normals)
            &&& bin.subrange(24 * v, 28 * v) == encode_rgba(colors)
            &&& bin.subrange(28 * v, 28 * v + 4 * indices.len()) == encode_u32s(indices)
        }),
{
    lemma_encode_vec3s_len(positions);
    lemma_encode_vec3s_len(normals);
    lemma_encode_rgba_len(colors);
    lemma_encode_u32s_len(indices);
    let a = encode_vec3s(positions);
    let b = encode_vec3s(normals);
    let c = encode_rgba(colors);
    let d = encode_u32s(indices);
    let bin = terrain_bin(positions, normals, colors, indices);
    let v = positions.len() as int;
    assert(bin == a + b + c + d);
    assert(bin.subrange(0, 12 * v) =~= a);
    assert(bin.subrange(12 * v, 24 * v) =~= b);
    assert(bin.subrange(24 * v, 28 * v) =~= c);
    assert(bin.subrange(28 * v, 28 * v + 4 * indices.len()) =~= d);
}

} // verus!
