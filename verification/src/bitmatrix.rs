//! Packed bit matrix and the top-level QR decode entry point.
//!
//! `BitMatrix` stores one bit per QR module, packed row-major into `u32`
//! words (`ceil(dim/32)` words per row, at least one). Decoding itself is
//! delegated to `rqrr` (Reed-Solomon error correction + ISO 18004
//! data-stream parsing); this module supplies the grid, the mirrored-read
//! retry and the tie-break between the two readings.
use vstd::prelude::*;
use vstd::utf8::encode_utf8;
use rqrr::DeQRError;

verus! {

broadcast use vstd::slice::group_slice_axioms;

/// `u32` words per packed row for a `dim`-module matrix: `max(1, ceil(dim/32))`.
pub open spec fn words_per_row_of(dim: int) -> int {
    if dim <= 0 {
        1
    } else {
        (dim + 31) / 32
    }
}

/// Bit `b` of word `w` is set.
pub open spec fn word_bit(w: u32, b: int) -> bool {
    (w >> (b as u32)) & 1u32 != 0u32
}

proof fn lemma_word_bit_or(w: u32, b: u32, c: u32)
    requires
        b < 32,
        c < 32,
    ensures
        ((w | (1u32 << b)) >> c) & 1u32 != 0u32 <==> (c == b || (w >> c) & 1u32 != 0u32),
{
    assert(((w | (1u32 << b)) >> c) & 1u32 != 0u32 <==> (c == b || (w >> c) & 1u32 != 0u32))
        by (bit_vector)
        requires
            b < 32,
            c < 32,
    ;
}

proof fn lemma_word_bit_clear(w: u32, b: u32, c: u32)
    requires
        b < 32,
        c < 32,
    ensures
        ((w & !(1u32 << b)) >> c) & 1u32 != 0u32 <==> (c != b && (w >> c) & 1u32 != 0u32),
{
    assert(((w & !(1u32 << b)) >> c) & 1u32 != 0u32 <==> (c != b && (w >> c) & 1u32 != 0u32))
        by (bit_vector)
        requires
            b < 32,
            c < 32,
    ;
}

proof fn lemma_zero_word_bits(c: u32)
    requires
        c < 32,
    ensures
        (0u32 >> c) & 1u32 == 0u32,
{
    assert((0u32 >> c) & 1u32 == 0u32) by (bit_vector);
}

/// Word slot of module `(x, y)` lies inside a `dim`-row packed buffer.
proof fn lemma_word_index(x: int, y: int, dim: int)
    requires
        0 <= x < dim,
        0 <= y < dim,
    ensures
        0 <= x / 32 < words_per_row_of(dim),
        0 <= y * words_per_row_of(dim) + x / 32 < dim * words_per_row_of(dim),
        dim * words_per_row_of(dim) == words_per_row_of(dim) * dim,
        0 <= y * words_per_row_of(dim),
{
    let wpr = words_per_row_of(dim);
    assert(x / 32 <= (dim - 1) / 32);
    assert(y * wpr + x / 32 < dim * wpr) by (nonlinear_arith)
        requires
            0 <= y < dim,
            0 <= x / 32 < wpr,
    ;
    assert(0 <= y * wpr) by (nonlinear_arith)
        requires
            0 <= y,
            0 <= wpr,
    ;
    assert(dim * wpr == wpr * dim) by (nonlinear_arith);
}

/// Distinct `(row, column-word)` pairs map to distinct word slots.
proof fn lemma_word_index_injective(a: int, b: int, c: int, d: int, wpr: int)
    requires
        0 <= b < wpr,
        0 <= d < wpr,
        0 <= a,
        0 <= c,
        a * wpr + b == c * wpr + d,
    ensures
        a == c,
        b == d,
{
    if a < c {
        assert(a * wpr + wpr <= c * wpr) by (nonlinear_arith)
            requires
                a < c,
                0 <= wpr,
        ;
    } else if c < a {
        assert(c * wpr + wpr <= a * wpr) by (nonlinear_arith)
            requires
                c < a,
                0 <= wpr,
        ;
    }
}

/// A packed, square bit matrix: one bit per QR module.
///
/// Coordinates are `(x, y)` = `(column, row)`.
pub struct BitMatrix {
    /// Row/column count (QR codes are always square).
    pub dim: usize,
    /// Row-major packed storage: `ceil(dim/32)` `u32` words per row.
    words: Vec<u32>,
}

impl BitMatrix {
    /// Row/column count.
    pub closed spec fn n(&self) -> usize {
        self.dim
    }

    /// The packed words.
    pub closed spec fn packed(&self) -> Seq<u32> {
        self.words@
    }

    /// Storage holds exactly `words_per_row · dim` words.
    pub open spec fn wf(&self) -> bool {
        &&& self.packed().len() == words_per_row_of(self.n() as int) * self.n()
        &&& self.packed().len() <= usize::MAX
    }

    /// Module at column `x`, row `y` (`true` = dark).
    pub open spec fn bit(&self, x: int, y: int) -> bool {
        word_bit(self.packed()[y * words_per_row_of(self.n() as int) + x / 32], x % 32)
    }

    /// The matrix as rows of modules: `cells()[y][x]` is module `(x, y)`.
    pub open spec fn cells(&self) -> Seq<Seq<bool>> {
        Seq::new(self.n() as nat, |y: int| Seq::new(self.n() as nat, |x: int| self.bit(x, y)))
    }

    /// Allocate an all-zero (all-light) matrix of size `dim x dim`.
    pub fn new(dim: usize) -> (r: Self)
        requires
            words_per_row_of(dim as int) * dim <= usize::MAX,
        ensures
            r.wf(),
            r.n() == dim,
            forall|x: int, y: int| 0 <= x < dim && 0 <= y < dim ==> !#[trigger] r.bit(x, y),
    {
        let words_per_row = if dim == 0 {
            1
        } else {
            dim / 32 + if dim % 32 == 0 {
                0
            } else {
                1
            }
        };
        assert(words_per_row == words_per_row_of(dim as int));
        let words = vec![0u32; words_per_row * dim];
        let r = BitMatrix { dim, words };
        assert forall|x: int, y: int| 0 <= x < dim && 0 <= y < dim implies !#[trigger] r.bit(
            x,
            y,
        ) by {
            lemma_word_index(x, y, dim as int);
            lemma_zero_word_bits((x % 32) as u32);
        }
        r
    }

    /// Row/column count.
    pub fn dim(&self) -> (r: usize)
        ensures
            r == self.n(),
    {
        self.dim
    }

    /// Number of `u32` words used to store one row.
    pub fn words_per_row(&self) -> (r: usize)
        ensures
            r == words_per_row_of(self.n() as int),
    {
        if self.dim == 0 {
            1
        } else {
            self.dim / 32 + if self.dim % 32 == 0 {
                0
            } else {
                1
            }
        }
    }

    /// Read the module at column `x`, row `y`. `true` = dark.
    pub fn get(&self, x: usize, y: usize) -> (r: bool)
        requires
            self.wf(),
            x < self.n(),
            y < self.n(),
        ensures
            r == self.bit(x as int, y as int),
    {
        proof {
            lemma_word_index(x as int, y as int, self.n() as int);
        }
        let word = self.words[y * self.words_per_row() + x / 32];
        (word >> ((x % 32) as u32)) & 1 != 0
    }

    /// Set the module at column `x`, row `y`. `true` = dark. Every other
    /// module keeps its value.
    pub fn set(&mut self, x: usize, y: usize, v: bool)
        requires
            old(self).wf(),
            x < old(self).n(),
            y < old(self).n(),
        ensures
            final(self).wf(),
            final(self).n() == old(self).n(),
            final(self).bit(x as int, y as int) == v,
            forall|i: int, j: int|
                0 <= i < old(self).n() && 0 <= j < old(self).n() && (i != x || j != y)
                    ==> #[trigger] final(self).bit(i, j) == old(self).bit(i, j),
    {
        proof {
            lemma_word_index(x as int, y as int, self.n() as int);
        }
        let idx = y * self.words_per_row() + x / 32;
        let shift = (x % 32) as u32;
        let bit = 1u32 << shift;
        let ghost before = self.words@;
        let old_word = self.words[idx];
        if v {
            self.words.set(idx, old_word | bit);
        } else {
            self.words.set(idx, old_word & !bit);
        }
        proof {
            let wpr = words_per_row_of(self.n() as int);
            if v {
                lemma_word_bit_or(old_word, shift, shift);
            } else {
                lemma_word_bit_clear(old_word, shift, shift);
            }
            assert forall|i: int, j: int|
                0 <= i < self.n() && 0 <= j < self.n() && (i != x || j != y) implies #[trigger] self.bit(
                i,
                j,
            ) == old(self).bit(i, j) by {
                lemma_word_index(i, j, self.n() as int);
                let k = j * wpr + i / 32;
                if k == idx {
                    lemma_word_index_injective(j, i / 32, y as int, x as int / 32, wpr);
                    assert(i % 32 != x % 32);
                    if v {
                        lemma_word_bit_or(old_word, shift, (i % 32) as u32);
                    } else {
                        lemma_word_bit_clear(old_word, shift, (i % 32) as u32);
                    }
                } else {
                    assert(self.words@[k] == before[k]);
                }
            }
        }
    }

    /// The raw packed row-major words, for trace serialization.
    pub fn words(&self) -> (r: &[u32])
        ensures
            r@ == self.packed(),
    {
        self.words.as_slice()
    }

    /// This matrix with rows and columns swapped (module `(x, y)` of the
    /// result is module `(y, x)` of `self`).
    pub fn transposed(&self) -> (r: BitMatrix)
        requires
            self.wf(),
        ensures
            r.wf(),
            r.n() == self.n(),
            forall|x: int, y: int|
                0 <= x < self.n() && 0 <= y < self.n() ==> #[trigger] r.bit(x, y) == self.bit(y, x),
    {
        let n = self.dim;
        let _len = self.words.len();
        let mut t = BitMatrix::new(n);
        let mut y: usize = 0;
        while y < n
            invariant
                n == self.n(),
                self.wf(),
                t.wf(),
                t.n() == n,
                y <= n,
                forall|i: int, j: int|
                    0 <= i < n && 0 <= j < y ==> #[trigger] t.bit(i, j) == self.bit(j, i),
            decreases n - y,
        {
            let mut x: usize = 0;
            while x < n
                invariant
                    n == self.n(),
                    self.wf(),
                    t.wf(),
                    t.n() == n,
                    y < n,
                    x <= n,
                    forall|i: int, j: int|
                        0 <= i < n && 0 <= j < y ==> #[trigger] t.bit(i, j) == self.bit(j, i),
                    forall|i: int| 0 <= i < x ==> #[trigger] t.bit(i, y as int) == self.bit(
                        y as int,
                        i,
                    ),
                decreases n - x,
            {
                let b = self.get(y, x);
                t.set(x, y, b);
                x = x + 1;
            }
            y = y + 1;
        }
        t
    }
}


// ---------------------------------------------------------------------------
// Decoding through rqrr
// ---------------------------------------------------------------------------
/// The failure kinds `rqrr` reports, one for one.
#[derive(Clone, Copy, Debug, PartialEq, Eq, Structural)]
pub enum DeqrErrorKind {
    /// Could not write the output.
    IoError,
    /// Expected more bits to decode.
    DataUnderflow,
    /// Expected fewer bits to decode.
    DataOverflow,
    /// Unknown data-segment type.
    UnknownDataType,
    /// Too many errors to correct.
    DataEcc,
    /// Format information unreadable at both locations.
    FormatEcc,
    /// Unsupported or non-existent version.
    InvalidVersion,
    /// Unsupported or non-existent grid size.
    InvalidGridSize,
    /// Output was not valid UTF-8.
    EncodingError,
}

/// What `rqrr` hands back for one readable grid.
pub struct RawDecode {
    /// Decoded text.
    pub payload: String,
    /// QR version.
    pub version: usize,
    /// The raw 2-bit format-info error-correction field.
    pub ecc_level: u16,
}

/// `rqrr`'s reading of a square module grid (`cells[y][x]`, `true` = dark):
/// the decoded text, version and raw error-correction field, or the failure
/// kind.
pub uninterp spec fn rqrr_decode_grid(cells: Seq<Seq<bool>>) -> Result<
    (Seq<char>, usize, u16),
    DeqrErrorKind,
>;

/// Decodes `m` with `rqrr::Grid::new(SimpleGrid::from_func(..)).decode()`.
///
/// Trusted: the result is `rqrr_decode_grid` of the module grid, and on
/// success the version is the one `rqrr::Version::from_size` derives from
/// the grid size (`(dim − 17) / 4`, within `1..=40`). The grid is at least
/// 9 modules wide: `rqrr` reads the format information at module
/// coordinates up to 8 before it looks at the size.
#[verifier::external_body]
fn rqrr_decode(m: &BitMatrix) -> (r: Result<RawDecode, DeqrErrorKind>)
    requires
        m.wf(),
        m.n() >= 9,
    ensures
        match r {
            Ok(d) => {
                &&& rqrr_decode_grid(m.cells()) == Ok::<(Seq<char>, usize, u16), DeqrErrorKind>(
                    (d.payload@, d.version, d.ecc_level),
                )
                &&& m.n() >= 21
                &&& d.version == (m.n() - 17) / 4
                &&& 1 <= d.version <= 40
            },
            Err(e) => rqrr_decode_grid(m.cells()) == Err::<(Seq<char>, usize, u16), DeqrErrorKind>(e),
        },
{
    let grid = rqrr::SimpleGrid::from_func(m.dim, |x, y| m.get(x, y));
    match rqrr::Grid::new(grid).decode() {
        Ok((meta, payload)) => Ok(RawDecode { payload, version: meta.version.0, ecc_level: meta.ecc_level }),
        Err(DeQRError::IoError) => Err(DeqrErrorKind::IoError),
        Err(DeQRError::DataUnderflow) => Err(DeqrErrorKind::DataUnderflow),
        Err(DeQRError::DataOverflow) => Err(DeqrErrorKind::DataOverflow),
        Err(DeQRError::UnknownDataType) => Err(DeqrErrorKind::UnknownDataType),
        Err(DeQRError::DataEcc) => Err(DeqrErrorKind::DataEcc),
        Err(DeQRError::FormatEcc) => Err(DeqrErrorKind::FormatEcc),
        Err(DeQRError::InvalidVersion) => Err(DeqrErrorKind::InvalidVersion),
        Err(DeQRError::InvalidGridSize) => Err(DeqrErrorKind::InvalidGridSize),
        Err(DeQRError::EncodingError) => Err(DeqrErrorKind::EncodingError),
    }
}

/// A successfully decoded QR payload.
#[derive(Debug, Clone, PartialEq, Eq)]
pub struct DecodedPayload {
    /// Decoded content, as UTF-8 text.
    pub payload: String,
    /// Same content as raw bytes.
    pub payload_bytes: Vec<u8>,
    /// QR version (1..=40).
    pub version: u32,
    /// Error-correction level: one of `'L'`, `'M'`, `'Q'`, `'H'`, or `'?'`.
    pub ecc: char,
    /// `true` when the payload only decoded via the transposed (mirrored)
    /// read — i.e. the source image was mirrored.
    pub mirrored: bool,
}

/// Why `decode_bits` failed.
#[derive(Debug, Clone, Copy, PartialEq, Eq, Structural)]
pub enum DecodeFailure {
    /// Format-info bits could not be read or corrected at either location.
    Format,
    /// The grid size did not correspond to a valid QR version, or the
    /// version-info bits could not be read/corrected.
    Version,
    /// Too many data errors to correct at the declared level.
    Ecc,
    /// The corrected data stream itself was malformed.
    Content,
}

/// The four-bucket failure an `rqrr` failure kind falls in.
pub open spec fn failure_bucket(e: DeqrErrorKind) -> DecodeFailure {
    match e {
        DeqrErrorKind::FormatEcc => DecodeFailure::Format,
        DeqrErrorKind::InvalidVersion | DeqrErrorKind::InvalidGridSize => DecodeFailure::Version,
        DeqrErrorKind::DataEcc => DecodeFailure::Ecc,
        _ => DecodeFailure::Content,
    }
}

fn map_err(e: DeqrErrorKind) -> (r: DecodeFailure)
    ensures
        r == failure_bucket(e),
{
    match e {
        DeqrErrorKind::FormatEcc => DecodeFailure::Format,
        DeqrErrorKind::InvalidVersion | DeqrErrorKind::InvalidGridSize => DecodeFailure::Version,
        DeqrErrorKind::DataEcc => DecodeFailure::Ecc,
        DeqrErrorKind::DataUnderflow | DeqrErrorKind::DataOverflow | DeqrErrorKind::UnknownDataType
        | DeqrErrorKind::EncodingError | DeqrErrorKind::IoError => DecodeFailure::Content,
    }
}

/// Letter grade of the 2-bit format-info error-correction field
/// (ISO 18004: `01 = L`, `00 = M`, `11 = Q`, `10 = H`).
pub open spec fn ecc_letter(ecc_level: u16) -> char {
    if ecc_level == 1 {
        'L'
    } else if ecc_level == 0 {
        'M'
    } else if ecc_level == 3 {
        'Q'
    } else if ecc_level == 2 {
        'H'
    } else {
        '?'
    }
}

/// Map the raw 2-bit error-correction field to its letter grade.
pub fn ecc_char(ecc_level: u16) -> (r: char)
    ensures
        r == ecc_letter(ecc_level),
{
    match ecc_level {
        0b01 => 'L',
        0b00 => 'M',
        0b11 => 'Q',
        0b10 => 'H',
        _ => '?',
    }
}

/// The grid with rows and columns swapped.
pub open spec fn transpose(cells: Seq<Seq<bool>>) -> Seq<Seq<bool>> {
    Seq::new(cells.len(), |y: int| Seq::new(cells.len(), |x: int| cells[x][y]))
}

/// What one orientation's read yields, failures bucketed.
pub open spec fn grid_outcome(cells: Seq<Seq<bool>>) -> Result<(Seq<char>, usize, u16), DecodeFailure> {
    match rqrr_decode_grid(cells) {
        Ok(t) => Ok(t),
        Err(k) => Err(failure_bucket(k)),
    }
}

/// The result of [`decode_bits`] on a grid: the direct read unless only the
/// transposed read succeeds, or both succeed and the ISO 18004 dark module
/// (row `4·version + 9`, column 8) is set only in the transposed reading.
/// Failure reports the direct read's failure.
pub open spec fn decode_outcome(cells: Seq<Seq<bool>>) -> Result<
    (Seq<char>, usize, u16, bool),
    DecodeFailure,
> {
    match (rqrr_decode_grid(cells), rqrr_decode_grid(transpose(cells))) {
        (Ok(d), Err(_)) => Ok((d.0, d.1, d.2, false)),
        (Err(_), Ok(t)) => Ok((t.0, t.1, t.2, true)),
        (Err(e), Err(_)) => Err(failure_bucket(e)),
        (Ok(d), Ok(t)) => {
            let row = 4 * d.1 + 9;
            if !cells[row][8] && cells[8][row] {
                Ok((t.0, t.1, t.2, true))
            } else {
                Ok((d.0, d.1, d.2, false))
            }
        },
    }
}

fn decode_grid(m: &BitMatrix) -> (r: Result<DecodedPayload, DecodeFailure>)
    requires
        m.wf(),
        m.n() >= 9,
    ensures
        match r {
            Ok(p) => {
                &&& rqrr_decode_grid(m.cells()) == Ok::<(Seq<char>, usize, u16), DeqrErrorKind>(
                    (p.payload@, p.version as usize, rqrr_decode_grid(m.cells())->Ok_0.2),
                )
                &&& p.payload_bytes@ == encode_utf8(p.payload@)
                &&& p.ecc == ecc_letter(rqrr_decode_grid(m.cells())->Ok_0.2)
                &&& !p.mirrored
                &&& m.n() >= 21
                &&& p.version == (m.n() - 17) / 4
                &&& 1 <= p.version <= 40
            },
            Err(f) => grid_outcome(m.cells()) == Err::<(Seq<char>, usize, u16), DecodeFailure>(f),
        },
{
    match rqrr_decode(m) {
        Ok(d) => {
            let payload_bytes = vstd::slice::slice_to_vec(d.payload.as_str().as_bytes());
            let ecc = ecc_char(d.ecc_level);
            Ok(DecodedPayload {
                payload: d.payload,
                payload_bytes,
                version: d.version as u32,
                ecc,
                mirrored: false,
            })
        },
        Err(e) => Err(map_err(e)),
    }
}

/// Decode a QR payload from a sampled bit matrix.
///
/// Tries the matrix as given and with x/y swapped (to handle codes sampled
/// from a mirrored source image). `mirrored = true` iff the transposed read
/// is the one reported: it is when only it succeeds, or when both succeed
/// and only the transposed reading has the dark module set. Matrices
/// narrower than 9 modules are outside the domain (the format-information
/// read addresses modules up to coordinate 8).
pub fn decode_bits(m: &BitMatrix) -> (r: Result<DecodedPayload, DecodeFailure>)
    requires
        m.wf(),
        m.n() >= 9,
    ensures
        match r {
            Ok(p) => decode_outcome(m.cells()) == Ok::<(Seq<char>, usize, u16, bool), DecodeFailure>(
                (
                    p.payload@,
                    p.version as usize,
                    decode_outcome(m.cells())->Ok_0.2,
                    p.mirrored,
                ),
            ) && p.ecc == ecc_letter(decode_outcome(m.cells())->Ok_0.2) && p.payload_bytes@
                == encode_utf8(p.payload@),
            Err(f) => decode_outcome(m.cells()) == Err::<(Seq<char>, usize, u16, bool), DecodeFailure>(
                f,
            ),
        },
{
    let t = m.transposed();
    proof {
        assert(t.cells() =~~= transpose(m.cells()));
    }
    let direct = decode_grid(m);
    let transposed = decode_grid(&t);
    match (direct, transposed) {
        (Ok(d), Err(_)) => Ok(d),
        (Err(_), Ok(tp)) => Ok(DecodedPayload { mirrored: true, ..tp }),
        (Err(direct_err), Err(_)) => Err(direct_err),
        (Ok(d), Ok(tp)) => {
            let row = 4 * d.version as usize + 9;
            let direct_dark = m.get(8, row);
            let transposed_dark = m.get(row, 8);
            if !direct_dark && transposed_dark {
                Ok(DecodedPayload { mirrored: true, ..tp })
            } else {
                Ok(d)
            }
        },
    }
}

} // verus!
