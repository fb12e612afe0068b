//! The cooked mesh format.
//!
//! The writer and the reader of one format are one piece of code. A file is a
//! header -- signature, version, vertex and index counts, the paint flag and
//! the model's two numbers -- followed by positions, normals, optional paint
//! and indices, all little-endian 32-bit words.
//!
//! Positions, normals, paint and the two numbers are `f32` in the file. This
//! module handles them as the bit patterns they are stored as; turning bits
//! into numbers is left to the caller.
use vstd::prelude::*;

verus! {

/// The file signature, `SSMSH` and three zero bytes.
pub const MAGIC: [u8; 8] = [83, 83, 77, 83, 72, 0, 0, 0];

/// The format version. Grows on any layout change.
pub const VERSION: u32 = 2;

/// Signature, version, two counts, the paint flag and the model's two numbers.
pub const HEADER_BYTES: usize = 32;

/// Three 32-bit words: one position, normal or colour.
pub type Triple = (u32, u32, u32);

/// A model as the file holds it: every `f32` as its bit pattern.
pub struct ModelFile {
    /// Length of the original along `+Z` in metres.
    pub height_bits: u32,
    /// Bounding-sphere radius in units of the height.
    pub extent_bits: u32,
    pub positions: Vec<Triple>,
    pub normals: Vec<Triple>,
    /// Base colour per vertex; empty means there is no paint.
    pub paint: Vec<Triple>,
    pub indices: Vec<u32>,
}

/// The contents of a [`ModelFile`].
pub struct ModelFileView {
    pub height_bits: u32,
    pub extent_bits: u32,
    pub positions: Seq<Triple>,
    pub normals: Seq<Triple>,
    pub paint: Seq<Triple>,
    pub indices: Seq<u32>,
}

impl View for ModelFile {
    type V = ModelFileView;

    open spec fn view(&self) -> ModelFileView {
        ModelFileView {
            height_bits: self.height_bits,
            extent_bits: self.extent_bits,
            positions: self.positions@,
            normals: self.normals@,
            paint: self.paint@,
            indices: self.indices@,
        }
    }
}

/// Why a file is not a mesh.
#[derive(Clone, Copy, Debug, PartialEq, Eq, Structural)]
pub enum MeshError {
    /// The file is shorter than the header.
    TooShort { len: usize },
    /// The first eight bytes are not the signature.
    WrongSignature,
    /// The file is of a version this reader does not understand.
    WrongVersion { version: u32 },
    /// The file's length does not match its counts.
    WrongSize { len: usize, vertices: u32, indices: u32, need: u64 },
    /// An index points past the vertices.
    IndexOutOfRange { index: u32, vertices: u32 },
}

/// The four little-endian bytes of `x`.
pub open spec fn le_bytes(x: u32) -> Seq<u8> {
    seq![
        (x % 256) as u8,
        (x / 256 % 256) as u8,
        (x / 65536 % 256) as u8,
        (x / 16777216) as u8,
    ]
}

/// The little-endian word at byte `at` of `b`.
pub open spec fn word_at(b: Seq<u8>, at: int) -> u32 {
    (b[at] + 256 * b[at + 1] + 65536 * b[at + 2] + 16777216 * b[at + 3]) as u32
}

/// The three words at byte `at` of `b`.
pub open spec fn triple_at(b: Seq<u8>, at: int) -> Triple {
    (word_at(b, at), word_at(b, at + 4), word_at(b, at + 8))
}

/// The bytes of one triple.
pub open spec fn triple_bytes(t: Triple) -> Seq<u8> {
    le_bytes(t.0) + le_bytes(t.1) + le_bytes(t.2)
}

/// The bytes of a list of triples, in order.
pub open spec fn triples_bytes(v: Seq<Triple>) -> Seq<u8>
    decreases v.len(),
{
    if v.len() == 0 {
        Seq::empty()
    } else {
        triples_bytes(v.drop_last()) + triple_bytes(v.last())
    }
}

/// The bytes of a list of words, in order.
pub open spec fn words_bytes(v: Seq<u32>) -> Seq<u8>
    decreases v.len(),
{
    if v.len() == 0 {
        Seq::empty()
    } else {
        words_bytes(v.drop_last()) + le_bytes(v.last())
    }
}

/// The header of a model's file: signature, version, the two counts, the
/// paint flag, and the model's two numbers.
pub open spec fn header_of(m: ModelFileView) -> Seq<u8> {
    MAGIC@ + le_bytes(VERSION) + le_bytes(m.positions.len() as u32) + le_bytes(
        m.indices.len() as u32,
    ) + le_bytes(if m.paint.len() > 0 { 1u32 } else { 0u32 }) + le_bytes(m.height_bits)
        + le_bytes(m.extent_bits)
}

/// The file bytes of a model.
pub open spec fn encoded(m: ModelFileView) -> Seq<u8> {
    header_of(m) + triples_bytes(m.positions) + triples_bytes(m.normals) + triples_bytes(m.paint)
        + words_bytes(m.indices)
}

/// The first of `count` index words from byte `start` on, beginning with the
/// `k`-th, that is not below `vertices`.
pub open spec fn first_bad_index(b: Seq<u8>, start: int, count: int, vertices: u32, k: int) -> Option<
    u32,
>
    decreases count - k,
{
    if k >= count {
        None
    } else if word_at(b, start + 4 * k) >= vertices {
        Some(word_at(b, start + 4 * k))
    } else {
        first_bad_index(b, start, count, vertices, k + 1)
    }
}

/// The byte length a header announces: the header, then positions and
/// normals, paint when flagged, and the indices.
pub open spec fn announced_len(vertices: u32, indices: u32, painted: bool) -> int {
    if painted {
        32 + 36 * vertices + 4 * indices
    } else {
        32 + 24 * vertices + 4 * indices
    }
}

/// What a file means: a model, or the first thing wrong with it.
pub open spec fn decoded(b: Seq<u8>) -> Result<ModelFileView, MeshError> {
    if b.len() < HEADER_BYTES {
        Err(MeshError::TooShort { len: b.len() as usize })
    } else if b.subrange(0, 8) != MAGIC@ {
        Err(MeshError::WrongSignature)
    } else if word_at(b, 8) != VERSION {
        Err(MeshError::WrongVersion { version: word_at(b, 8) })
    } else {
        let v = word_at(b, 12);
        let n = word_at(b, 16);
        let painted = word_at(b, 20) == 1;
        let need = announced_len(v, n, painted);
        if b.len() != need {
            Err(MeshError::WrongSize { len: b.len() as usize, vertices: v, indices: n, need: need as u64 })
        } else {
            let start = need - 4 * n;
            match first_bad_index(b, start, n as int, v, 0) {
                Some(index) => Err(MeshError::IndexOutOfRange { index, vertices: v }),
                None => Ok(
                    ModelFileView {
                        height_bits: word_at(b, 24),
                        extent_bits: word_at(b, 28),
                        positions: Seq::new(v as nat, |k: int| triple_at(b, 32 + 12 * k)),
                        normals: Seq::new(v as nat, |k: int| triple_at(b, 32 + 12 * v + 12 * k)),
                        paint: if painted {
                            Seq::new(v as nat, |k: int| triple_at(b, 32 + 24 * v + 12 * k))
                        } else {
                            Seq::empty()
                        },
                        indices: Seq::new(n as nat, |k: int| word_at(b, start + 4 * k)),
                    },
                ),
            }
        }
    }
}

fn push_word(out: &mut Vec<u8>, x: u32)
    ensures
        final(out)@ == old(out)@ + le_bytes(x),
{
    out.push((x % 256) as u8);
    out.push((x / 256 % 256) as u8);
    out.push((x / 65536 % 256) as u8);
    out.push((x / 16777216) as u8);
    assert(out@ =~= old(out)@ + le_bytes(x));
}

fn push_triples(out: &mut Vec<u8>, v: &Vec<Triple>)
    ensures
        final(out)@ == old(out)@ + triples_bytes(v@),
{
    let mut k: usize = 0;
    while k < v.len()
        invariant
            k <= v@.len(),
            out@ == old(out)@ + triples_bytes(v@.take(k as int)),
        decreases v@.len() - k,
    {
        let t = v[k];
        push_word(out, t.0);
        push_word(out, t.1);
        push_word(out, t.2);
        proof {
            assert(v@.take(k + 1).drop_last() =~= v@.take(k as int));
            assert(out@ =~= old(out)@ + triples_bytes(v@.take(k + 1)));
        }
        k = k + 1;
    }
    assert(v@.take(v@.len() as int) =~= v@);
}

fn word(bytes: &[u8], at: usize) -> (w: u32)
    requires
        at + 4 <= bytes@.len(),
    ensures
        w == word_at(bytes@, at as int),
{
    bytes[at] as u32 + bytes[at + 1] as u32 * 256 + bytes[at + 2] as u32 * 65536
        + bytes[at + 3] as u32 * 16777216
}

fn triple(bytes: &[u8], at: usize) -> (t: Triple)
    requires
        at + 12 <= bytes@.len(),
    ensures
        t == triple_at(bytes@, at as int),
{
    let len = bytes.len();
    assert(at + 12 <= len);
    (word(bytes, at), word(bytes, at + 4), word(bytes, at + 8))
}

/// Reads `count` triples from byte `at` on.
fn read_triples(bytes: &[u8], at: usize, count: u32) -> (v: Vec<Triple>)
    requires
        at + 12 * count <= bytes@.len(),
    ensures
        v@ == Seq::new(count as nat, |k: int| triple_at(bytes@, at + 12 * k)),
{
    let len = bytes.len();
    let mut v: Vec<Triple> = Vec::new();
    let mut k: u32 = 0;
    while k < count
        invariant
            k <= count,
            len == bytes@.len(),
            at + 12 * count <= bytes@.len(),
            v@ == Seq::new(k as nat, |n: int| triple_at(bytes@, at + 12 * n)),
        decreases count - k,
    {
        let t = triple(bytes, at + 12 * k as usize);
        v.push(t);
        k = k + 1;
        assert(v@ =~= Seq::new(k as nat, |n: int| triple_at(bytes@, at + 12 * n)));
    }
    v
}

impl ModelFile {
    /// The file bytes.
    pub fn to_bytes(&self) -> (out: Vec<u8>)
        ensures
            out@ == encoded(self@),
    {
        let mut out: Vec<u8> = Vec::new();
        let mut k: usize = 0;
        while k < 8
            invariant
                k <= 8,
                out@ == MAGIC@.take(k as int),
            decreases 8 - k,
        {
            out.push(MAGIC[k]);
            k = k + 1;
            assert(out@ =~= MAGIC@.take(k as int));
        }
        assert(MAGIC@.take(8) =~= MAGIC@);
        push_word(&mut out, VERSION);
        push_word(&mut out, self.positions.len() as u32);
        push_word(&mut out, self.indices.len() as u32);
        push_word(&mut out, if self.paint.len() > 0 { 1 } else { 0 });
        push_word(&mut out, self.height_bits);
        push_word(&mut out, self.extent_bits);
        push_triples(&mut out, &self.positions);
        push_triples(&mut out, &self.normals);
        push_triples(&mut out, &self.paint);
        let ghost before = out@;
        let mut k: usize = 0;
        while k < self.indices.len()
            invariant
                k <= self.indices@.len(),
                out@ == before + words_bytes(self.indices@.take(k as int)),
            decreases self.indices@.len() - k,
        {
            push_word(&mut out, self.indices[k]);
            proof {
                assert(self.indices@.take(k + 1).drop_last() =~= self.indices@.take(k as int));
                assert(out@ =~= before + words_bytes(self.indices@.take(k + 1)));
            }
            k = k + 1;
        }
        assert(self.indices@.take(self.indices@.len() as int) =~= self.indices@);
        assert(out@ =~= encoded(self@));
        out
    }

    /// Read a file. An error says what is wrong rather than panicking: the
    /// asset may not be on disk, and the caller is the one who must say so.
    pub fn from_bytes(bytes: &[u8]) -> (r: Result<ModelFile, MeshError>)
        ensures
            match r {
                Ok(m) => decoded(bytes@) == Ok::<ModelFileView, MeshError>(m@),
                Err(e) => decoded(bytes@) == Err::<ModelFileView, MeshError>(e),
            },
    {
        if bytes.len() < HEADER_BYTES {
            return Err(MeshError::TooShort { len: bytes.len() });
        }
        let mut k: usize = 0;
        while k < 8
            invariant
                k <= 8,
                HEADER_BYTES <= bytes@.len(),
                bytes@.subrange(0, k as int) == MAGIC@.take(k as int),
            decreases 8 - k,
        {
            if bytes[k] != MAGIC[k] {
                assert(bytes@.subrange(0, 8)[k as int] != MAGIC@[k as int]);
                return Err(MeshError::WrongSignature);
            }
            k = k + 1;
            assert(bytes@.subrange(0, k as int) =~= MAGIC@.take(k as int));
        }
        assert(bytes@.subrange(0, 8) =~= MAGIC@);
        let version = word(bytes, 8);
        if version != VERSION {
            return Err(MeshError::WrongVersion { version });
        }
        let vertices = word(bytes, 12);
        let indices = word(bytes, 16);
        let painted = word(bytes, 20) == 1;
        let need: u64 = if painted {
            32 + 36 * vertices as u64 + 4 * indices as u64
        } else {
            32 + 24 * vertices as u64 + 4 * indices as u64
        };
        if bytes.len() as u64 != need {
            return Err(MeshError::WrongSize { len: bytes.len(), vertices, indices, need });
        }
        let height_bits = word(bytes, 24);
        let extent_bits = word(bytes, 28);
        let positions = read_triples(bytes, HEADER_BYTES, vertices);
        let normals = read_triples(bytes, HEADER_BYTES + 12 * vertices as usize, vertices);
        let paint = if painted {
            read_triples(bytes, HEADER_BYTES + 24 * vertices as usize, vertices)
        } else {
            Vec::new()
        };
        let start = bytes.len() - 4 * indices as usize;
        let ghost b = bytes@;
        let mut list: Vec<u32> = Vec::new();
        let mut k: u32 = 0;
        #[verifier::loop_isolation(false)]
        while k < indices
            invariant
                k <= indices,
                b == bytes@,
                start + 4 * indices == b.len(),
                list@ == Seq::new(k as nat, |n: int| word_at(b, start + 4 * n)),
                first_bad_index(b, start as int, indices as int, vertices, 0) == first_bad_index(
                    b,
                    start as int,
                    indices as int,
                    vertices,
                    k as int,
                ),
            decreases indices - k,
        {
            let index = word(bytes, start + 4 * k as usize);
            if index >= vertices {
                return Err(MeshError::IndexOutOfRange { index, vertices });
            }
            list.push(index);
            k = k + 1;
            assert(list@ =~= Seq::new(k as nat, |n: int| word_at(b, start + 4 * n)));
        }
        let m = ModelFile { height_bits, extent_bits, positions, normals, paint, indices: list };
        assert(decoded(bytes@) == Ok::<ModelFileView, MeshError>(m@)) by {
            assert(m@.paint =~= (if painted {
                Seq::new(vertices as nat, |n: int| triple_at(b, 32 + 24 * vertices + 12 * n))
            } else {
                Seq::<Triple>::empty()
            }));
        }
        Ok(m)
    }
}


/// A model the reader accepts: a normal per vertex, paint for every vertex or
/// none, indices that point at vertices, and counts that fit the header.
pub open spec fn well_formed(m: ModelFileView) -> bool {
    &&& m.positions.len() <= u32::MAX
    &&& m.indices.len() <= u32::MAX
    &&& m.normals.len() == m.positions.len()
    &&& (m.paint.len() == 0 || m.paint.len() == m.positions.len())
    &&& forall|k: int| 0 <= k < m.indices.len() ==> #[trigger] m.indices[k] < m.positions.len()
}

proof fn lemma_word_at(s: Seq<u8>, at: int, x: u32)
    requires
        0 <= at,
        at + 4 <= s.len(),
        s[at] == le_bytes(x)[0],
        s[at + 1] == le_bytes(x)[1],
        s[at + 2] == le_bytes(x)[2],
        s[at + 3] == le_bytes(x)[3],
    ensures
        word_at(s, at) == x,
{
    let (b0, b1, b2, b3) = (s[at], s[at + 1], s[at + 2], s[at + 3]);
    assert(b0 == (x % 256) as u8 && b1 == (x / 256 % 256) as u8 && b2 == (x / 65536 % 256) as u8
        && b3 == (x / 16777216) as u8);
    assert(b0 as int == x % 256 && b1 as int == x / 256 % 256 && b2 as int == x / 65536 % 256
        && b3 as int == x / 16777216);
    assert(x == x % 256 + 256 * (x / 256 % 256) + 65536 * (x / 65536 % 256) + 16777216 * (x
        / 16777216)) by (bit_vector);
}

proof fn lemma_triple_at(s: Seq<u8>, at: int, t: Triple)
    requires
        0 <= at,
        at + 12 <= s.len(),
        forall|j: int| 0 <= j < 12 ==> s[at + j] == #[trigger] triple_bytes(t)[j],
    ensures
        triple_at(s, at) == t,
{
    let tb = triple_bytes(t);
    assert(s[at] == tb[0] && s[at + 1] == tb[1] && s[at + 2] == tb[2] && s[at + 3] == tb[3]);
    assert(s[at + 4] == tb[4] && s[at + 5] == tb[5] && s[at + 6] == tb[6] && s[at + 7] == tb[7]);
    assert(s[at + 8] == tb[8] && s[at + 9] == tb[9] && s[at + 10] == tb[10] && s[at + 11]
        == tb[11]);
    lemma_word_at(s, at, t.0);
    lemma_word_at(s, at + 4, t.1);
    lemma_word_at(s, at + 8, t.2);
}

proof fn lemma_triples_bytes(v: Seq<Triple>)
    ensures
        triples_bytes(v).len() == 12 * v.len(),
        forall|k: int, j: int|
            0 <= k < v.len() && 0 <= j < 12 ==> triples_bytes(v)[12 * k + j]
                == #[trigger] triple_bytes(v[k])[j],
    decreases v.len(),
{
    if v.len() > 0 {
        lemma_triples_bytes(v.drop_last());
        assert forall|k: int, j: int|
            0 <= k < v.len() && 0 <= j < 12 implies triples_bytes(v)[12 * k + j]
            == #[trigger] triple_bytes(v[k])[j] by {
            if k < v.len() - 1 {
                assert(v.drop_last()[k] == v[k]);
            }
        }
    }
}

proof fn lemma_words_bytes(v: Seq<u32>)
    ensures
        words_bytes(v).len() == 4 * v.len(),
        forall|k: int, j: int|
            0 <= k < v.len() && 0 <= j < 4 ==> words_bytes(v)[4 * k + j]
                == #[trigger] le_bytes(v[k])[j],
    decreases v.len(),
{
    if v.len() > 0 {
        lemma_words_bytes(v.drop_last());
        assert forall|k: int, j: int|
            0 <= k < v.len() && 0 <= j < 4 implies words_bytes(v)[4 * k + j]
            == #[trigger] le_bytes(v[k])[j] by {
            if k < v.len() - 1 {
                assert(v.drop_last()[k] == v[k]);
            }
        }
    }
}

/// Reading triples back from where they were written gives them back.
proof fn lemma_read_back_triples(s: Seq<u8>, at: int, v: Seq<Triple>)
    requires
        0 <= at,
        at + 12 * v.len() <= s.len(),
        forall|n: int| 0 <= n < 12 * v.len() ==> s[at + n] == #[trigger] triples_bytes(v)[n],
    ensures
        Seq::new(v.len(), |k: int| triple_at(s, at + 12 * k)) == v,
{
    lemma_triples_bytes(v);
    assert forall|k: int| 0 <= k < v.len() implies triple_at(s, at + 12 * k) == v[k] by {
        assert forall|j: int| 0 <= j < 12 implies s[at + 12 * k + j]
            == #[trigger] triple_bytes(v[k])[j] by {
            assert(s[at + (12 * k + j)] == triples_bytes(v)[12 * k + j]);
        }
        lemma_triple_at(s, at + 12 * k, v[k]);
    }
    assert(Seq::new(v.len(), |k: int| triple_at(s, at + 12 * k)) =~= v);
}

proof fn lemma_no_bad_index(s: Seq<u8>, start: int, v: Seq<u32>, vertices: u32, k: int)
    requires
        0 <= start,
        0 <= k <= v.len(),
        start + 4 * v.len() <= s.len(),
        forall|n: int| 0 <= n < v.len() ==> #[trigger] word_at(s, start + 4 * n) == v[n],
        forall|n: int| 0 <= n < v.len() ==> #[trigger] v[n] < vertices,
    ensures
        first_bad_index(s, start, v.len() as int, vertices, k) is None,
    decreases v.len() - k,
{
    if k < v.len() {
        assert(word_at(s, start + 4 * k) == v[k]);
        lemma_no_bad_index(s, start, v, vertices, k + 1);
    }
}

proof fn lemma_header(m: ModelFileView)
    ensures
        header_of(m).len() == 32,
        header_of(m).subrange(0, 8) == MAGIC@,
        forall|j: int|
            0 <= j < 4 ==> {
                &&& header_of(m)[8 + j] == #[trigger] le_bytes(VERSION)[j]
                &&& header_of(m)[12 + j] == le_bytes(m.positions.len() as u32)[j]
                &&& header_of(m)[16 + j] == le_bytes(m.indices.len() as u32)[j]
                &&& header_of(m)[20 + j] == le_bytes(
                    if m.paint.len() > 0 { 1u32 } else { 0u32 },
                )[j]
                &&& header_of(m)[24 + j] == le_bytes(m.height_bits)[j]
                &&& header_of(m)[28 + j] == le_bytes(m.extent_bits)[j]
            },
{
    assert(header_of(m).subrange(0, 8) =~= MAGIC@);
}

proof fn lemma_layout(m: ModelFileView)
    ensures
        ({
            let e = encoded(m);
            let v = m.positions.len();
            let p = triples_bytes(m.positions);
            let q = triples_bytes(m.normals);
            let c = triples_bytes(m.paint);
            let w = words_bytes(m.indices);
            &&& e.len() == 32 + p.len() + q.len() + c.len() + w.len()
            &&& forall|k: int| 0 <= k < 32 ==> e[k] == #[trigger] header_of(m)[k]
            &&& forall|k: int| 0 <= k < p.len() ==> e[32 + k] == #[trigger] p[k]
            &&& forall|k: int| 0 <= k < q.len() ==> e[32 + p.len() + k] == #[trigger] q[k]
            &&& forall|k: int|
                0 <= k < c.len() ==> e[32 + p.len() + q.len() + k] == #[trigger] c[k]
            &&& forall|k: int|
                0 <= k < w.len() ==> e[32 + p.len() + q.len() + c.len() + k] == #[trigger] w[k]
        }),
{
    lemma_header(m);
}

/// A file written from a model reads back as that model.
#[verifier::spinoff_prover]
#[verifier::rlimit(60)]
pub proof fn lemma_round_trip(m: ModelFileView)
    requires
        well_formed(m),
    ensures
        decoded(encoded(m)) == Ok::<ModelFileView, MeshError>(m),
{
    let e = encoded(m);
    let v = m.positions.len();
    let n = m.indices.len();
    let flag: u32 = if m.paint.len() > 0 { 1 } else { 0 };
    let p = triples_bytes(m.positions);
    let q = triples_bytes(m.normals);
    let c = triples_bytes(m.paint);
    let w = words_bytes(m.indices);
    lemma_triples_bytes(m.positions);
    lemma_triples_bytes(m.normals);
    lemma_triples_bytes(m.paint);
    lemma_words_bytes(m.indices);
    lemma_header(m);
    lemma_layout(m);
    let painted = m.paint.len() > 0;
    // The header.
    assert(e.subrange(0, 8) =~= header_of(m).subrange(0, 8));
    assert forall|j: int| 0 <= j < 4 implies e[8 + j] == #[trigger] le_bytes(VERSION)[j] by {
        assert(e[8 + j] == header_of(m)[8 + j]);
    }
    lemma_word_at(e, 8, VERSION);
    assert(e[12] == header_of(m)[12] && e[13] == header_of(m)[13] && e[14] == header_of(m)[14] && e[15] == header_of(m)[15]);
    lemma_word_at(e, 12, v as u32);
    assert(e[16] == header_of(m)[16] && e[17] == header_of(m)[17] && e[18] == header_of(m)[18] && e[19] == header_of(m)[19]);
    lemma_word_at(e, 16, n as u32);
    assert(e[20] == header_of(m)[20] && e[21] == header_of(m)[21] && e[22] == header_of(m)[22] && e[23] == header_of(m)[23]);
    lemma_word_at(e, 20, flag);
    assert(e[24] == header_of(m)[24] && e[25] == header_of(m)[25] && e[26] == header_of(m)[26] && e[27] == header_of(m)[27]);
    lemma_word_at(e, 24, m.height_bits);
    assert(e[28] == header_of(m)[28] && e[29] == header_of(m)[29] && e[30] == header_of(m)[30] && e[31] == header_of(m)[31]);
    lemma_word_at(e, 28, m.extent_bits);
    assert(e.len() == announced_len(v as u32, n as u32, painted));
    // The body.
    lemma_read_back_triples(e, 32, m.positions);
    assert forall|k: int| 0 <= k < 12 * v implies e[32 + 12 * v + k] == #[trigger] q[k] by {}
    lemma_read_back_triples(e, 32 + 12 * v as int, m.normals);
    if painted {
        assert forall|k: int| 0 <= k < 12 * v implies e[32 + 24 * v + k] == #[trigger] c[k] by {}
        lemma_read_back_triples(e, 32 + 24 * v as int, m.paint);
    } else {
        assert(m.paint =~= Seq::<Triple>::empty());
    }
    let start = e.len() - 4 * n;
    assert forall|k: int| 0 <= k < n implies #[trigger] word_at(e, start + 4 * k) == m.indices[k] by {
        assert forall|j: int| 0 <= j < 4 implies e[start + 4 * k + j] == #[trigger] le_bytes(
            m.indices[k],
        )[j] by {
            assert(e[start + (4 * k + j)] == w[4 * k + j]);
        }
        lemma_word_at(e, start + 4 * k, m.indices[k]);
    }
    lemma_no_bad_index(e, start, m.indices, v as u32, 0);
    assert(Seq::new(n as nat, |k: int| word_at(e, start + 4 * k)) =~= m.indices);
}

/// The little-endian word at byte `at` is the plain sum of its bytes.
proof fn lemma_word_value(s: Seq<u8>, at: int)
    requires
        0 <= at,
        at + 4 <= s.len(),
    ensures
        word_at(s, at) as int == s[at] + 256 * s[at + 1] + 65536 * s[at + 2] + 16777216 * s[at + 3],
{
    let x = s[at] + 256 * s[at + 1] + 65536 * s[at + 2] + 16777216 * s[at + 3];
    assert(0 <= x <= u32::MAX);
}

/// Triples read from consecutive twelve-byte slots, as sums of bytes.
proof fn lemma_triples_value(s: Seq<u8>, at: int, v: Seq<Triple>)
    requires
        0 <= at,
        at + 12 * v.len() <= s.len(),
        forall|k: int| 0 <= k < v.len() ==> #[trigger] v[k] == triple_at(s, at + 12 * k),
    ensures
        forall|k: int| 0 <= k < v.len() ==> {
            &&& (#[trigger] v[k]).0 == s[at + 12 * k] + 256 * s[at + 12 * k + 1] + 65536 * s[at + 12 * k + 2] + 16777216 * s[at + 12 * k + 3]
            &&& v[k].1 == s[at + 12 * k + 4] + 256 * s[at + 12 * k + 4 + 1] + 65536 * s[at + 12 * k + 4 + 2] + 16777216 * s[at + 12 * k + 4 + 3]
            &&& v[k].2 == s[at + 12 * k + 8] + 256 * s[at + 12 * k + 8 + 1] + 65536 * s[at + 12 * k + 8 + 2] + 16777216 * s[at + 12 * k + 8 + 3]
        },
{
    assert forall|k: int| 0 <= k < v.len() implies {
        &&& (#[trigger] v[k]).0 == s[at + 12 * k] + 256 * s[at + 12 * k + 1] + 65536 * s[at + 12 * k + 2] + 16777216 * s[at + 12 * k + 3]
        &&& v[k].1 == s[at + 12 * k + 4] + 256 * s[at + 12 * k + 4 + 1] + 65536 * s[at + 12 * k + 4 + 2] + 16777216 * s[at + 12 * k + 4 + 3]
        &&& v[k].2 == s[at + 12 * k + 8] + 256 * s[at + 12 * k + 8 + 1] + 65536 * s[at + 12 * k + 8 + 2] + 16777216 * s[at + 12 * k + 8 + 3]
    } by {
        lemma_word_value(s, at + 12 * k);
        lemma_word_value(s, at + 12 * k + 4);
        lemma_word_value(s, at + 12 * k + 8);
    }
}

/// Triples written where the reader looks for them.
proof fn lemma_triples_read(s: Seq<u8>, at: int, v: Seq<Triple>)
    requires
        0 <= at,
        at + 12 * v.len() <= s.len(),
        Seq::new(v.len(), |k: int| triple_at(s, at + 12 * k)) == v,
    ensures
        forall|k: int| 0 <= k < v.len() ==> {
            &&& (#[trigger] v[k]).0 == s[at + 12 * k] + 256 * s[at + 12 * k + 1] + 65536 * s[at + 12 * k + 2] + 16777216 * s[at + 12 * k + 3]
            &&& v[k].1 == s[at + 12 * k + 4] + 256 * s[at + 12 * k + 4 + 1] + 65536 * s[at + 12 * k + 4 + 2] + 16777216 * s[at + 12 * k + 4 + 3]
            &&& v[k].2 == s[at + 12 * k + 8] + 256 * s[at + 12 * k + 8 + 1] + 65536 * s[at + 12 * k + 8 + 2] + 16777216 * s[at + 12 * k + 8 + 3]
        },
{
    assert forall|k: int| 0 <= k < v.len() implies #[trigger] v[k] == triple_at(s, at + 12 * k) by {
        assert(Seq::new(v.len(), |k: int| triple_at(s, at + 12 * k))[k] == triple_at(s, at + 12 * k));
    }
    lemma_triples_value(s, at, v);
}

/// Where each number of a model lands in its file: a 32-byte header (the
/// signature, then version, vertex count, index count, paint flag, height and
/// extent), then every position, normal and colour with its three components
/// in order, then the indices -- each number as four bytes, least significant
/// first.
pub proof fn lemma_file_layout(m: ModelFileView)
    ensures
        ({
            let e = encoded(m);
            let np = m.positions.len() as int;
            let nn = m.normals.len() as int;
            let nc = m.paint.len() as int;
            let ps = m.positions;
            let ns = m.normals;
            let cs = m.paint;
            let ix = m.indices;
            &&& e.len() == 32 + 12 * (np + nn + nc) + 4 * ix.len()
            &&& forall|j: int| 0 <= j < 8 ==> e[j] == #[trigger] MAGIC@[j]
            &&& e[8] + 256 * e[9] + 65536 * e[10] + 16777216 * e[11] == VERSION
            &&& e[12] + 256 * e[13] + 65536 * e[14] + 16777216 * e[15] == np as u32
            &&& e[16] + 256 * e[17] + 65536 * e[18] + 16777216 * e[19] == ix.len() as u32
            &&& e[20] + 256 * e[21] + 65536 * e[22] + 16777216 * e[23] == (if nc > 0 { 1int } else { 0int })
            &&& e[24] + 256 * e[25] + 65536 * e[26] + 16777216 * e[27] == m.height_bits
            &&& e[28] + 256 * e[29] + 65536 * e[30] + 16777216 * e[31] == m.extent_bits
            &&& forall|k: int| 0 <= k < ps.len() ==> {
                &&& (#[trigger] ps[k]).0 == e[32 + 12 * k] + 256 * e[32 + 12 * k + 1] + 65536 * e[32 + 12 * k + 2] + 16777216 * e[32 + 12 * k + 3]
                &&& ps[k].1 == e[32 + 12 * k + 4] + 256 * e[32 + 12 * k + 4 + 1] + 65536 * e[32 + 12 * k + 4 + 2] + 16777216 * e[32 + 12 * k + 4 + 3]
                &&& ps[k].2 == e[32 + 12 * k + 8] + 256 * e[32 + 12 * k + 8 + 1] + 65536 * e[32 + 12 * k + 8 + 2] + 16777216 * e[32 + 12 * k + 8 + 3]
            }
            &&& forall|k: int| 0 <= k < ns.len() ==> {
                &&& (#[trigger] ns[k]).0 == e[32 + 12 * np + 12 * k] + 256 * e[32 + 12 * np + 12 * k + 1] + 65536 * e[32 + 12 * np + 12 * k + 2] + 16777216 * e[32 + 12 * np + 12 * k + 3]
                &&& ns[k].1 == e[32 + 12 * np + 12 * k + 4] + 256 * e[32 + 12 * np + 12 * k + 4 + 1] + 65536 * e[32 + 12 * np + 12 * k + 4 + 2] + 16777216 * e[32 + 12 * np + 12 * k + 4 + 3]
                &&& ns[k].2 == e[32 + 12 * np + 12 * k + 8] + 256 * e[32 + 12 * np + 12 * k + 8 + 1] + 65536 * e[32 + 12 * np + 12 * k + 8 + 2] + 16777216 * e[32 + 12 * np + 12 * k + 8 + 3]
            }
            &&& forall|k: int| 0 <= k < cs.len() ==> {
                &&& (#[trigger] cs[k]).0 == e[32 + 12 * (np + nn) + 12 * k] + 256 * e[32 + 12 * (np + nn) + 12 * k + 1] + 65536 * e[32 + 12 * (np + nn) + 12 * k + 2] + 16777216 * e[32 + 12 * (np + nn) + 12 * k + 3]
                &&& cs[k].1 == e[32 + 12 * (np + nn) + 12 * k + 4] + 256 * e[32 + 12 * (np + nn) + 12 * k + 4 + 1] + 65536 * e[32 + 12 * (np + nn) + 12 * k + 4 + 2] + 16777216 * e[32 + 12 * (np + nn) + 12 * k + 4 + 3]
                &&& cs[k].2 == e[32 + 12 * (np + nn) + 12 * k + 8] + 256 * e[32 + 12 * (np + nn) + 12 * k + 8 + 1] + 65536 * e[32 + 12 * (np + nn) + 12 * k + 8 + 2] + 16777216 * e[32 + 12 * (np + nn) + 12 * k + 8 + 3]
            }
            &&& forall|k: int| 0 <= k < ix.len() ==> #[trigger] ix[k] == e[32 + 12 * (np + nn + nc) + 4 * k] + 256 * e[32 + 12 * (np + nn + nc) + 4 * k + 1] + 65536 * e[32 + 12 * (np + nn + nc) + 4 * k + 2] + 16777216 * e[32 + 12 * (np + nn + nc) + 4 * k + 3]
        }),
{
    let e = encoded(m);
    let np = m.positions.len() as int;
    let nn = m.normals.len() as int;
    let nc = m.paint.len() as int;
    let p = triples_bytes(m.positions);
    let q = triples_bytes(m.normals);
    let c = triples_bytes(m.paint);
    let w = words_bytes(m.indices);
    let flag: u32 = if nc > 0 { 1 } else { 0 };
    lemma_triples_bytes(m.positions);
    lemma_triples_bytes(m.normals);
    lemma_triples_bytes(m.paint);
    lemma_words_bytes(m.indices);
    lemma_header(m);
    lemma_layout(m);
    assert forall|j: int| 0 <= j < 8 implies e[j] == #[trigger] MAGIC@[j] by {
        assert(e[j] == header_of(m)[j]);
        assert(header_of(m).subrange(0, 8)[j] == MAGIC@[j]);
    }
    assert(e[8] == header_of(m)[8] && e[9] == header_of(m)[9] && e[10] == header_of(m)[10] && e[11] == header_of(m)[11]);
    lemma_word_at(e, 8, VERSION);
    lemma_word_value(e, 8);
    assert(e[12] == header_of(m)[12] && e[13] == header_of(m)[13] && e[14] == header_of(m)[14] && e[15] == header_of(m)[15]);
    lemma_word_at(e, 12, np as u32);
    lemma_word_value(e, 12);
    assert(e[16] == header_of(m)[16] && e[17] == header_of(m)[17] && e[18] == header_of(m)[18] && e[19] == header_of(m)[19]);
    lemma_word_at(e, 16, m.indices.len() as u32);
    lemma_word_value(e, 16);
    assert(e[20] == header_of(m)[20] && e[21] == header_of(m)[21] && e[22] == header_of(m)[22] && e[23] == header_of(m)[23]);
    lemma_word_at(e, 20, flag);
    lemma_word_value(e, 20);
    assert(e[24] == header_of(m)[24] && e[25] == header_of(m)[25] && e[26] == header_of(m)[26] && e[27] == header_of(m)[27]);
    lemma_word_at(e, 24, m.height_bits);
    lemma_word_value(e, 24);
    assert(e[28] == header_of(m)[28] && e[29] == header_of(m)[29] && e[30] == header_of(m)[30] && e[31] == header_of(m)[31]);
    lemma_word_at(e, 28, m.extent_bits);
    lemma_word_value(e, 28);
    lemma_read_back_triples(e, 32, m.positions);
    assert forall|k: int| 0 <= k < 12 * nn implies e[32 + 12 * np + k] == #[trigger] q[k] by {}
    lemma_read_back_triples(e, 32 + 12 * np, m.normals);
    assert forall|k: int| 0 <= k < 12 * nc implies e[32 + 12 * (np + nn) + k] == #[trigger] c[k] by {}
    lemma_read_back_triples(e, 32 + 12 * (np + nn), m.paint);
    lemma_triples_read(e, 32, m.positions);
    lemma_triples_read(e, 32 + 12 * np, m.normals);
    lemma_triples_read(e, 32 + 12 * (np + nn), m.paint);
    let start = 32 + 12 * (np + nn + nc);
    assert forall|k: int| 0 <= k < m.indices.len() implies #[trigger] m.indices[k] == e[start + 4 * k] + 256 * e[start + 4 * k + 1] + 65536 * e[start + 4 * k + 2] + 16777216 * e[start + 4 * k + 3] by {
        assert forall|j: int| 0 <= j < 4 implies e[start + 4 * k + j] == #[trigger] le_bytes(
            m.indices[k],
        )[j] by {
            assert(e[start + (4 * k + j)] == w[4 * k + j]);
        }
        lemma_word_at(e, start + 4 * k, m.indices[k]);
        lemma_word_value(e, start + 4 * k);
    }
}

/// What a file the reader accepts holds: the counts and numbers of its
/// header, and each position, normal and colour read component by component
/// in order from where the layout puts it, each number from four bytes,
/// least significant first.
pub proof fn lemma_file_reading(b: Seq<u8>)
    ensures
        decoded(b) matches Ok(m) ==> ({
            let v = m.positions.len() as int;
            let ps = m.positions;
            let ns = m.normals;
            let cs = m.paint;
            let ix = m.indices;
            &&& v == b[12] + 256 * b[13] + 65536 * b[14] + 16777216 * b[15]
            &&& ix.len() == b[16] + 256 * b[17] + 65536 * b[18] + 16777216 * b[19]
            &&& ns.len() == v
            &&& cs.len() == (if b[20] + 256 * b[21] + 65536 * b[22] + 16777216 * b[23] == 1 { v } else { 0 })
            &&& m.height_bits == b[24] + 256 * b[25] + 65536 * b[26] + 16777216 * b[27]
            &&& m.extent_bits == b[28] + 256 * b[29] + 65536 * b[30] + 16777216 * b[31]
            &&& forall|k: int| 0 <= k < ps.len() ==> {
                &&& (#[trigger] ps[k]).0 == b[32 + 12 * k] + 256 * b[32 + 12 * k + 1] + 65536 * b[32 + 12 * k + 2] + 16777216 * b[32 + 12 * k + 3]
                &&& ps[k].1 == b[32 + 12 * k + 4] + 256 * b[32 + 12 * k + 4 + 1] + 65536 * b[32 + 12 * k + 4 + 2] + 16777216 * b[32 + 12 * k + 4 + 3]
                &&& ps[k].2 == b[32 + 12 * k + 8] + 256 * b[32 + 12 * k + 8 + 1] + 65536 * b[32 + 12 * k + 8 + 2] + 16777216 * b[32 + 12 * k + 8 + 3]
            }
            &&& forall|k: int| 0 <= k < ns.len() ==> {
                &&& (#[trigger] ns[k]).0 == b[32 + 12 * v + 12 * k] + 256 * b[32 + 12 * v + 12 * k + 1] + 65536 * b[32 + 12 * v + 12 * k + 2] + 16777216 * b[32 + 12 * v + 12 * k + 3]
                &&& ns[k].1 == b[32 + 12 * v + 12 * k + 4] + 256 * b[32 + 12 * v + 12 * k + 4 + 1] + 65536 * b[32 + 12 * v + 12 * k + 4 + 2] + 16777216 * b[32 + 12 * v + 12 * k + 4 + 3]
                &&& ns[k].2 == b[32 + 12 * v + 12 * k + 8] + 256 * b[32 + 12 * v + 12 * k + 8 + 1] + 65536 * b[32 + 12 * v + 12 * k + 8 + 2] + 16777216 * b[32 + 12 * v + 12 * k + 8 + 3]
            }
            &&& forall|k: int| 0 <= k < cs.len() ==> {
                &&& (#[trigger] cs[k]).0 == b[32 + 24 * v + 12 * k] + 256 * b[32 + 24 * v + 12 * k + 1] + 65536 * b[32 + 24 * v + 12 * k + 2] + 16777216 * b[32 + 24 * v + 12 * k + 3]
                &&& cs[k].1 == b[32 + 24 * v + 12 * k + 4] + 256 * b[32 + 24 * v + 12 * k + 4 + 1] + 65536 * b[32 + 24 * v + 12 * k + 4 + 2] + 16777216 * b[32 + 24 * v + 12 * k + 4 + 3]
                &&& cs[k].2 == b[32 + 24 * v + 12 * k + 8] + 256 * b[32 + 24 * v + 12 * k + 8 + 1] + 65536 * b[32 + 24 * v + 12 * k + 8 + 2] + 16777216 * b[32 + 24 * v + 12 * k + 8 + 3]
            }
            &&& forall|k: int| 0 <= k < ix.len() ==> #[trigger] ix[k] == b[32 + 24 * v + 12 * cs.len() + 4 * k] + 256 * b[32 + 24 * v + 12 * cs.len() + 4 * k + 1] + 65536 * b[32 + 24 * v + 12 * cs.len() + 4 * k + 2] + 16777216 * b[32 + 24 * v + 12 * cs.len() + 4 * k + 3]
        }),
{
    if let Ok(m) = decoded(b) {
        lemma_word_value(b, 12);
        lemma_word_value(b, 16);
        lemma_word_value(b, 20);
        lemma_word_value(b, 24);
        lemma_word_value(b, 28);
        let v = word_at(b, 12);
        let n = word_at(b, 16);
        let painted = word_at(b, 20) == 1;
        let start = announced_len(v, n, painted) - 4 * n;
        assert(m.positions == Seq::new(v as nat, |k: int| triple_at(b, 32 + 12 * k)));
        assert(m.normals == Seq::new(v as nat, |k: int| triple_at(b, 32 + 12 * v + 12 * k)));
        lemma_triples_value(b, 32, m.positions);
        lemma_triples_value(b, 32 + 12 * v, m.normals);
        if painted {
            lemma_triples_value(b, 32 + 24 * v, m.paint);
        }
        assert(start == 32 + 24 * v + 12 * m.paint.len());
        assert forall|k: int| 0 <= k < m.indices.len() implies #[trigger] m.indices[k] == b[start + 4 * k] + 256 * b[start + 4 * k + 1] + 65536 * b[start + 4 * k + 2] + 16777216 * b[start + 4 * k + 3] by {
            assert(m.indices[k] == word_at(b, start + 4 * k));
            lemma_word_value(b, start + 4 * k);
        }
    }
}

} // verus!
