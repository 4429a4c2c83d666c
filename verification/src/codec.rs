use vstd::prelude::*;

use crate::cell::Cell;
use crate::grid::Grid;

verus! {

/// Why a byte stream was rejected while decoding a grid. Corruption is
/// reported, never papered over with a default value.
#[derive(Clone, Copy, Debug, PartialEq, Eq, Structural)]
pub enum DecodeError {
    /// The stream ends before the header or the declared cells do.
    Truncated,
    /// The declared dimensions do not fit in this machine's address space.
    TooLarge,
    /// A declared dimension is even; every stored grid has odd dimensions.
    EvenDimension,
    /// The declared cell count disagrees with `width * height`.
    LengthMismatch,
    /// A cell tag is none of the three known codes.
    BadCellTag,
}

/// The stable on-disk code of a cell.
pub open spec fn cell_code(c: Cell) -> u32 {
    match c {
        Cell::Wall => 0,
        Cell::Path => 1,
        Cell::Solution => 2,
    }
}

/// The cell a tag stands for; an unknown tag is corruption.
pub open spec fn code_cell(t: u32) -> Option<Cell> {
    if t == 0 {
        Some(Cell::Wall)
    } else if t == 1 {
        Some(Cell::Path)
    } else if t == 2 {
        Some(Cell::Solution)
    } else {
        None
    }
}

/// The eight little-endian bytes of a 64-bit value.
pub open spec fn le_bytes_64(v: u64) -> Seq<u8> {
    seq![
        (v & 0xff) as u8,
        ((v >> 8) & 0xff) as u8,
        ((v >> 16) & 0xff) as u8,
        ((v >> 24) & 0xff) as u8,
        ((v >> 32) & 0xff) as u8,
        ((v >> 40) & 0xff) as u8,
        ((v >> 48) & 0xff) as u8,
        ((v >> 56) & 0xff) as u8,
    ]
}

/// The four little-endian bytes of a 32-bit value.
pub open spec fn le_bytes_32(v: u32) -> Seq<u8> {
    seq![(v & 0xff) as u8, ((v >> 8) & 0xff) as u8, ((v >> 16) & 0xff) as u8, ((v >> 24)
        & 0xff) as u8]
}

/// The 64-bit value read little-endian at `off`.
pub open spec fn read_le_64(s: Seq<u8>, off: int) -> u64 {
    (s[off] as u64) | ((s[off + 1] as u64) << 8) | ((s[off + 2] as u64) << 16) | ((s[off
        + 3] as u64) << 24) | ((s[off + 4] as u64) << 32) | ((s[off + 5] as u64) << 40) | ((s[off
        + 6] as u64) << 48) | ((s[off + 7] as u64) << 56)
}

/// The 32-bit value read little-endian at `off`.
pub open spec fn read_le_32(s: Seq<u8>, off: int) -> u32 {
    (s[off] as u32) | ((s[off + 1] as u32) << 8) | ((s[off + 2] as u32) << 16) | ((s[off
        + 3] as u32) << 24)
}

/// Reading back the eight little-endian bytes of `v` gives `v`.
pub proof fn lemma_le_64_roundtrip(v: u64)
    ensures
        read_le_64(le_bytes_64(v), 0) == v,
{
    let s = le_bytes_64(v);
    assert(s[0] == (v & 0xff) as u8);
    assert(s[1] == ((v >> 8) & 0xff) as u8);
    assert(s[2] == ((v >> 16) & 0xff) as u8);
    assert(s[3] == ((v >> 24) & 0xff) as u8);
    assert(s[4] == ((v >> 32) & 0xff) as u8);
    assert(s[5] == ((v >> 40) & 0xff) as u8);
    assert(s[6] == ((v >> 48) & 0xff) as u8);
    assert(s[7] == ((v >> 56) & 0xff) as u8);
    assert(((v & 0xff) as u8 as u64) | (((v >> 8) & 0xff) as u8 as u64) << 8 | (((v >> 16)
        & 0xff) as u8 as u64) << 16 | (((v >> 24) & 0xff) as u8 as u64) << 24 | (((v >> 32)
        & 0xff) as u8 as u64) << 32 | (((v >> 40) & 0xff) as u8 as u64) << 40 | (((v >> 48)
        & 0xff) as u8 as u64) << 48 | (((v >> 56) & 0xff) as u8 as u64) << 56 == v)
        by (bit_vector);
}

/// Reading back the four little-endian bytes of `v` gives `v`.
pub proof fn lemma_le_32_roundtrip(v: u32)
    ensures
        read_le_32(le_bytes_32(v), 0) == v,
{
    let s = le_bytes_32(v);
    assert(s[0] == (v & 0xff) as u8);
    assert(s[1] == ((v >> 8) & 0xff) as u8);
    assert(s[2] == ((v >> 16) & 0xff) as u8);
    assert(s[3] == ((v >> 24) & 0xff) as u8);
    assert(((v & 0xff) as u8 as u32) | (((v >> 8) & 0xff) as u8 as u32) << 8 | (((v >> 16)
        & 0xff) as u8 as u32) << 16 | (((v >> 24) & 0xff) as u8 as u32) << 24 == v)
        by (bit_vector);
}

/// A 64-bit read lands on `v` wherever the stream carries `v`'s bytes.
pub proof fn lemma_read_le_64_at(s: Seq<u8>, off: int, v: u64)
    requires
        0 <= off,
        off + 8 <= s.len(),
        s.subrange(off, off + 8) == le_bytes_64(v),
    ensures
        read_le_64(s, off) == v,
{
    let sub = s.subrange(off, off + 8);
    assert(s[off] == sub[0]);
    assert(s[off + 1] == sub[1]);
    assert(s[off + 2] == sub[2]);
    assert(s[off + 3] == sub[3]);
    assert(s[off + 4] == sub[4]);
    assert(s[off + 5] == sub[5]);
    assert(s[off + 6] == sub[6]);
    assert(s[off + 7] == sub[7]);
    assert(read_le_64(s, off) == read_le_64(sub, 0));
    lemma_le_64_roundtrip(v);
}

/// A 32-bit read lands on `v` wherever the stream carries `v`'s bytes.
pub proof fn lemma_read_le_32_at(s: Seq<u8>, off: int, v: u32)
    requires
        0 <= off,
        off + 4 <= s.len(),
        s.subrange(off, off + 4) == le_bytes_32(v),
    ensures
        read_le_32(s, off) == v,
{
    let sub = s.subrange(off, off + 4);
    assert(s[off] == sub[0]);
    assert(s[off + 1] == sub[1]);
    assert(s[off + 2] == sub[2]);
    assert(s[off + 3] == sub[3]);
    assert(read_le_32(s, off) == read_le_32(sub, 0));
    lemma_le_32_roundtrip(v);
}

/// The cells' byte image: one four-byte tag per cell, in order.
pub open spec fn cells_bytes(cells: Seq<Cell>) -> Seq<u8>
    decreases cells.len(),
{
    if cells.len() == 0 {
        Seq::<u8>::empty()
    } else {
        cells_bytes(cells.drop_last()) + le_bytes_32(cell_code(cells.last()))
    }
}

/// Each cell contributes exactly four bytes.
pub proof fn lemma_cells_bytes_len(cells: Seq<Cell>)
    ensures
        cells_bytes(cells).len() == 4 * cells.len(),
    decreases cells.len(),
{
    if cells.len() > 0 {
        lemma_cells_bytes_len(cells.drop_last());
    }
}

/// The four bytes starting at `4 * k` are the image of cell `k`.
pub proof fn lemma_cells_bytes_at(cells: Seq<Cell>, k: int)
    requires
        0 <= k < cells.len(),
    ensures
        cells_bytes(cells).subrange(4 * k, 4 * k + 4) == le_bytes_32(cell_code(cells[k])),
    decreases cells.len(),
{
    lemma_cells_bytes_len(cells);
    lemma_cells_bytes_len(cells.drop_last());
    if k == cells.len() - 1 {
        assert(cells_bytes(cells).subrange(4 * k, 4 * k + 4) =~= le_bytes_32(
            cell_code(cells.last()),
        ));
    } else {
        lemma_cells_bytes_at(cells.drop_last(), k);
        assert(cells_bytes(cells).subrange(4 * k, 4 * k + 4) =~= cells_bytes(
            cells.drop_last(),
        ).subrange(4 * k, 4 * k + 4));
    }
}

/// The full byte image of a grid: `width`, `height` and the cell count as
/// 64-bit little-endian fields, then one 32-bit tag per cell in row-major
/// order. The length fields come first, so truncation is detectable.
pub open spec fn spec_encode(g: Grid) -> Seq<u8> {
    le_bytes_64(g.width as u64) + le_bytes_64(g.height as u64) + le_bytes_64(
        ((g.width * g.height) as u64),
    ) + cells_bytes(g.grid@)
}

/// The first `count` cell tags of the stream, decoded; `None` on the first
/// unknown tag.
pub open spec fn parse_cells(bytes: Seq<u8>, count: int) -> Option<Seq<Cell>>
    decreases count,
{
    if count <= 0 {
        Some(Seq::<Cell>::empty())
    } else {
        match parse_cells(bytes, count - 1) {
            None => None,
            Some(front) => match code_cell(read_le_32(bytes, 24 + 4 * (count - 1))) {
                None => None,
                Some(c) => Some(front.push(c)),
            },
        }
    }
}

/// Once a tag fails to parse, the whole cell sequence fails.
pub proof fn lemma_parse_cells_none(bytes: Seq<u8>, j: int, count: int)
    requires
        0 <= j <= count,
        parse_cells(bytes, j) is None,
    ensures
        parse_cells(bytes, count) is None,
    decreases count - j,
{
    if j < count {
        assert(parse_cells(bytes, j + 1) is None);
        lemma_parse_cells_none(bytes, j + 1, count);
    }
}

/// What decoding a byte stream yields: the dimensions and cells on success,
/// otherwise which kind of corruption was found. Even dimensions are
/// corruption: every grid the engine stores has odd ones. Bytes beyond the
/// declared cells are ignored, as a stream decoder would leave them unread.
pub open spec fn spec_decode(bytes: Seq<u8>) -> Result<(usize, usize, Seq<Cell>), DecodeError> {
    if bytes.len() < 24 {
        Err(DecodeError::Truncated)
    } else {
        let w = read_le_64(bytes, 0);
        let h = read_le_64(bytes, 8);
        let count = read_le_64(bytes, 16);
        if w as int > usize::MAX as int || h as int > usize::MAX as int || (w as int) * (
        h as int) > usize::MAX as int {
            Err(DecodeError::TooLarge)
        } else if w % 2 == 0 || h % 2 == 0 {
            Err(DecodeError::EvenDimension)
        } else if count as int != (w as int) * (h as int) {
            Err(DecodeError::LengthMismatch)
        } else if bytes.len() < 24 + 4 * ((w as int) * (h as int)) {
            Err(DecodeError::Truncated)
        } else {
            match parse_cells(bytes, (w as int) * (h as int)) {
                None => Err(DecodeError::BadCellTag),
                Some(cells) => Ok((w as usize, h as usize, cells)),
            }
        }
    }
}

fn cell_to_code(c: Cell) -> (r: u32)
    ensures
        r == cell_code(c),
{
    match c {
        Cell::Wall => 0,
        Cell::Path => 1,
        Cell::Solution => 2,
    }
}

fn code_to_cell(t: u32) -> (r: Option<Cell>)
    ensures
        r == code_cell(t),
{
    if t == 0 {
        Some(Cell::Wall)
    } else if t == 1 {
        Some(Cell::Path)
    } else if t == 2 {
        Some(Cell::Solution)
    } else {
        None
    }
}

fn push_le_64(out: &mut Vec<u8>, v: u64)
    ensures
        final(out)@ == old(out)@ + le_bytes_64(v),
{
    proof {
        assert((v & 0xff) <= 0xff && ((v >> 8) & 0xff) <= 0xff && ((v >> 16) & 0xff) <= 0xff && ((v
            >> 24) & 0xff) <= 0xff && ((v >> 32) & 0xff) <= 0xff && ((v >> 40) & 0xff) <= 0xff && (
        (v >> 48) & 0xff) <= 0xff && ((v >> 56) & 0xff) <= 0xff) by (bit_vector);
    }
    out.push((v & 0xff) as u8);
    out.push(((v >> 8) & 0xff) as u8);
    out.push(((v >> 16) & 0xff) as u8);
    out.push(((v >> 24) & 0xff) as u8);
    out.push(((v >> 32) & 0xff) as u8);
    out.push(((v >> 40) & 0xff) as u8);
    out.push(((v >> 48) & 0xff) as u8);
    out.push(((v >> 56) & 0xff) as u8);
    proof {
        assert(out@ =~= old(out)@ + le_bytes_64(v));
    }
}

fn push_le_32(out: &mut Vec<u8>, v: u32)
    ensures
        final(out)@ == old(out)@ + le_bytes_32(v),
{
    proof {
        assert((v & 0xff) <= 0xff && ((v >> 8) & 0xff) <= 0xff && ((v >> 16) & 0xff) <= 0xff && ((v
            >> 24) & 0xff) <= 0xff) by (bit_vector);
    }
    out.push((v & 0xff) as u8);
    out.push(((v >> 8) & 0xff) as u8);
    out.push(((v >> 16) & 0xff) as u8);
    out.push(((v >> 24) & 0xff) as u8);
    proof {
        assert(out@ =~= old(out)@ + le_bytes_32(v));
    }
}

fn read_le_64_at(bytes: &Vec<u8>, off: usize) -> (r: u64)
    requires
        off + 8 <= bytes@.len(),
    ensures
        r == read_le_64(bytes@, off as int),
{
    let _len = bytes.len();
    (bytes[off] as u64) | ((bytes[off + 1] as u64) << 8) | ((bytes[off + 2] as u64) << 16) | ((
    bytes[off + 3] as u64) << 24) | ((bytes[off + 4] as u64) << 32) | ((bytes[off + 5] as u64)
        << 40) | ((bytes[off + 6] as u64) << 48) | ((bytes[off + 7] as u64) << 56)
}

fn read_le_32_at(bytes: &Vec<u8>, off: usize) -> (r: u32)
    requires
        off + 4 <= bytes@.len(),
    ensures
        r == read_le_32(bytes@, off as int),
{
    let _len = bytes.len();
    (bytes[off] as u32) | ((bytes[off + 1] as u32) << 8) | ((bytes[off + 2] as u32) << 16) | ((
    bytes[off + 3] as u32) << 24)
}

impl Grid {
    /// Serializes the grid to its stable binary image.
    pub fn encode(&self) -> (r: Vec<u8>)
        requires
            self.wf(),
        ensures
            r@ == spec_encode(*self),
    {
        let mut out: Vec<u8> = Vec::new();
        push_le_64(&mut out, self.width as u64);
        push_le_64(&mut out, self.height as u64);
        let n = self.grid.len();
        push_le_64(&mut out, n as u64);
        let ghost header = le_bytes_64(self.width as u64) + le_bytes_64(self.height as u64)
            + le_bytes_64((self.width * self.height) as u64);
        proof {
            assert(out@ =~= header + cells_bytes(self.grid@.take(0)));
        }
        let mut i: usize = 0;
        while i < n
            invariant
                i <= n,
                n == self.grid@.len(),
                out@ == header + cells_bytes(self.grid@.take(i as int)),
            decreases n - i,
        {
            let c = self.grid[i];
            push_le_32(&mut out, cell_to_code(c));
            proof {
                let cells = self.grid@;
                assert(cells.take(i + 1).drop_last() =~= cells.take(i as int));
                assert(cells.take(i + 1).last() == cells[i as int]);
                assert(out@ =~= header + cells_bytes(cells.take(i + 1)));
            }
            i = i + 1;
        }
        proof {
            assert(self.grid@.take(n as int) =~= self.grid@);
        }
        out
    }

    /// Deserializes a grid from its binary image, rejecting truncated
    /// streams, oversized or even dimensions (every stored grid has odd
    /// ones), a cell count that disagrees with the dimensions, and unknown
    /// cell tags — each as its own error.
    pub fn decode(bytes: &Vec<u8>) -> (r: Result<Grid, DecodeError>)
        ensures
            (r matches Ok(g) ==> g.wf() && spec_decode(bytes@) == Ok::<
                (usize, usize, Seq<Cell>),
                DecodeError,
            >((g.width, g.height, g.grid@))),
            (r matches Err(e) ==> spec_decode(bytes@) == Err::<
                (usize, usize, Seq<Cell>),
                DecodeError,
            >(e)),
    {
        if bytes.len() < 24 {
            return Err(DecodeError::Truncated);
        }
        let w64 = read_le_64_at(bytes, 0);
        let h64 = read_le_64_at(bytes, 8);
        let c64 = read_le_64_at(bytes, 16);
        if w64 > usize::MAX as u64 || h64 > usize::MAX as u64 {
            return Err(DecodeError::TooLarge);
        }
        let w = w64 as usize;
        let h = h64 as usize;
        let n: usize = match w.checked_mul(h) {
            None => {
                return Err(DecodeError::TooLarge);
            },
            Some(n) => n,
        };
        if w64 % 2 == 0 || h64 % 2 == 0 {
            return Err(DecodeError::EvenDimension);
        }
        if c64 != n as u64 {
            return Err(DecodeError::LengthMismatch);
        }
        let blen = bytes.len();
        let rem = blen - 24;
        if rem / 4 < n {
            return Err(DecodeError::Truncated);
        }
        proof {
            assert(bytes@.len() >= 24 + 4 * (n as int));
        }
        let mut cells: Vec<Cell> = Vec::new();
        let mut i: usize = 0;
        while i < n
            invariant
                i <= n,
                cells@.len() == i,
                bytes@.len() >= 24 + 4 * (n as int),
                bytes@.len() >= 24,
                bytes@.len() <= usize::MAX,
                w64 == read_le_64(bytes@, 0),
                h64 == read_le_64(bytes@, 8),
                c64 == read_le_64(bytes@, 16),
                w64 as int <= usize::MAX as int,
                h64 as int <= usize::MAX as int,
                w64 % 2 == 1,
                h64 % 2 == 1,
                n as int == (w64 as int) * (h64 as int),
                c64 as int == n as int,
                w == w64 as usize,
                h == h64 as usize,
                parse_cells(bytes@, i as int) == Some(cells@),
            decreases n - i,
        {
            let off = 24 + 4 * i;
            let t = read_le_32_at(bytes, off);
            match code_to_cell(t) {
                None => {
                    proof {
                        assert(parse_cells(bytes@, i as int + 1) is None);
                        lemma_parse_cells_none(bytes@, i as int + 1, n as int);
                    }
                    return Err(DecodeError::BadCellTag);
                },
                Some(c) => {
                    proof {
                        assert(parse_cells(bytes@, i as int + 1) == Some(cells@.push(c)));
                    }
                    cells.push(c);
                },
            }
            i = i + 1;
        }
        let g = Grid { width: w, height: h, grid: cells };
        proof {
            assert(spec_decode(bytes@) == Ok::<(usize, usize, Seq<Cell>), DecodeError>(
                (w, h, cells@),
            ));
        }
        Ok(g)
    }
}

/// Round-trip law: decoding the byte image of any well-formed grid yields
/// exactly its dimensions and its cells - a solved or unsolved maze survives
/// a save and a load untouched.
pub proof fn lemma_encode_decode_roundtrip(g: Grid)
    requires
        g.wf(),
        g.width % 2 == 1,
        g.height % 2 == 1,
        g.grid@.len() <= usize::MAX,
    ensures
        spec_decode(spec_encode(g)) == Ok::<(usize, usize, Seq<Cell>), DecodeError>(
            (g.width, g.height, g.grid@),
        ),
{
    let enc = spec_encode(g);
    let w64 = g.width as u64;
    let h64 = g.height as u64;
    let c64 = ((g.width * g.height) as u64);
    let cells = g.grid@;
    lemma_cells_bytes_len(cells);
    assert(enc.len() == 24 + 4 * cells.len());

    assert(enc.subrange(0, 8) =~= le_bytes_64(w64));
    lemma_read_le_64_at(enc, 0, w64);
    assert(enc.subrange(8, 16) =~= le_bytes_64(h64));
    lemma_read_le_64_at(enc, 8, h64);
    assert(enc.subrange(16, 24) =~= le_bytes_64(c64));
    lemma_read_le_64_at(enc, 16, c64);

    lemma_parse_encoded(g, cells.len() as int);
    assert(cells.take(cells.len() as int) =~= cells);
}

/// The first `i` tags of a grid's own byte image always parse back to the
/// first `i` cells.
#[verifier::rlimit(30)]
proof fn lemma_parse_encoded(g: Grid, i: int)
    requires
        g.wf(),
        g.grid@.len() <= usize::MAX,
        0 <= i <= g.grid@.len(),
    ensures
        parse_cells(spec_encode(g), i) == Some(g.grid@.take(i)),
    decreases i,
{
    let enc = spec_encode(g);
    let cells = g.grid@;
    lemma_cells_bytes_len(cells);
    if i == 0 {
        assert(cells.take(0) =~= Seq::<Cell>::empty());
    } else {
        lemma_parse_encoded(g, i - 1);
        let k = i - 1;
        lemma_cells_bytes_at(cells, k);
        assert(enc.subrange(24 + 4 * k, 24 + 4 * k + 4) =~= cells_bytes(cells).subrange(
            4 * k,
            4 * k + 4,
        ));
        lemma_read_le_32_at(enc, 24 + 4 * k, cell_code(cells[k]));
        assert(code_cell(cell_code(cells[k])) == Some(cells[k]));
        assert(cells.take(i) =~= cells.take(k).push(cells[k]));
    }
}

} // verus!
