use vstd::prelude::*;
use vstd::slice::slice_subrange;

use crate::oled::{OLED_HEIGHT, OLED_WIDTH};

verus! {

/// Number of pixels of the reference display.
pub const BUFFER_SIZE: usize = OLED_WIDTH * OLED_HEIGHT;

/// One binary pixel of the display.
#[derive(Clone, Copy, PartialEq, Eq, Debug, Structural)]
pub enum OledPixel {
    Off,
    On,
}

/// Whether bit `b` (0 = least significant) of `byte` is set.
pub open spec fn bit_set(byte: u8, b: u8) -> bool {
    (byte >> b) & 1u8 == 1u8
}

/// The bit of `byte` that stands for pixel `k` of a group of eight:
/// pixel 0 is bit 7, pixel 7 is bit 0.
pub open spec fn pixel_bit(byte: u8, k: int) -> bool {
    bit_set(byte, (7 - k) as u8)
}

/// `byte` is the packed form of `group`: for each of the eight positions,
/// the bit is set exactly when the group has an `On` pixel there (positions
/// past the end of a short group count as `Off`).
pub open spec fn packs(byte: u8, group: Seq<OledPixel>) -> bool {
    forall|k: int| 0 <= k < 8 ==> #[trigger] pixel_bit(byte, k) == (k < group.len() && group[k] is On)
}

/// Setting bit `j` changes that bit alone.
proof fn lemma_or_bit(out: u8, j: u8, b: u8)
    requires
        j < 8,
        b < 8,
    ensures
        bit_set(out | (1u8 << j), b) == (bit_set(out, b) || b == j),
{
    assert(((out | (1u8 << j)) >> b) & 1u8 == 1u8 <==> (((out >> b) & 1u8 == 1u8) || b == j))
        by (bit_vector)
        requires
            j < 8,
            b < 8,
    ;
}

proof fn lemma_zero_bits(b: u8)
    requires
        b < 8,
    ensures
        !bit_set(0u8, b),
{
    assert((0u8 >> b) & 1u8 != 1u8) by (bit_vector);
}

impl OledPixel {
    /// Packs up to eight pixels into one byte, the first pixel in the most
    /// significant bit.
    pub fn pack(slice: &[OledPixel]) -> (r: u8)
        requires
            slice@.len() <= 8,
        ensures
            packs(r, slice@),
    {
        let mut out: u8 = 0;
        let mut i: usize = 0;
        proof {
            assert forall|k: int| 0 <= k < 8 implies !#[trigger] pixel_bit(out, k) by {
                lemma_zero_bits((7 - k) as u8);
            }
        }
        while i < slice.len()
            invariant
                i <= slice@.len() <= 8,
                forall|k: int| 0 <= k < 8 ==> #[trigger] pixel_bit(out, k) == (k < i && slice@[k] is On),
            decreases slice@.len() - i,
        {
            if slice[i] == OledPixel::On {
                let j: u8 = (7 - i) as u8;
                let prev: u8 = out;
                out = out | (1u8 << j);
                proof {
                    assert forall|k: int| 0 <= k < 8 implies #[trigger] pixel_bit(out, k) == (pixel_bit(prev, k) || k == i) by {
                        lemma_or_bit(prev, j, (7 - k) as u8);
                    }
                }
            }
            i = i + 1;
        }
        out
    }

    /// Turns the pixel on.
    pub fn set_on(&mut self)
        ensures
            *final(self) == OledPixel::On,
    {
        *self = OledPixel::On;
    }

    /// Turns the pixel off.
    pub fn set_off(&mut self)
        ensures
            *final(self) == OledPixel::Off,
    {
        *self = OledPixel::Off;
    }

    /// Whether the pixel is on.
    pub fn is_on(&self) -> (r: bool)
        ensures
            r == (*self is On),
    {
        *self == OledPixel::On
    }

    /// Whether the pixel is off.
    pub fn is_off(&self) -> (r: bool)
        ensures
            r == (*self is Off),
    {
        *self == OledPixel::Off
    }
}

/// Why a pixel access failed.
#[derive(Clone, Copy, PartialEq, Eq, Debug, Structural)]
pub enum BufferError {
    /// The coordinate lies outside the buffer's dimensions.
    OutOfBounds,
}

/// The mathematical content of a framebuffer: its dimensions, its cells in
/// row-major order, and the optional clip rectangle `(x0, y0, x1, y1)` with
/// exclusive upper bounds.
pub struct FrameView {
    pub width: nat,
    pub height: nat,
    pub cells: Seq<OledPixel>,
    pub clip: Option<(int, int, int, int)>,
}

impl FrameView {
    /// Positive dimensions, a width that packs into whole bytes, and one cell
    /// per coordinate.
    pub open spec fn wf(self) -> bool {
        &&& self.width > 0
        &&& self.height > 0
        &&& self.width % 8 == 0
        &&& self.cells.len() == self.width * self.height
    }

    pub open spec fn in_bounds(self, x: int, y: int) -> bool {
        0 <= x < self.width && 0 <= y < self.height
    }

    pub open spec fn index(self, x: int, y: int) -> int {
        y * self.width + x
    }

    pub open spec fn in_clip(self, x: int, y: int) -> bool {
        match self.clip {
            None => true,
            Some((x0, y0, x1, y1)) => x0 <= x < x1 && y0 <= y < y1,
        }
    }

    /// The cells that `set_pixel` and `clear` may modify.
    pub open spec fn writable(self, x: int, y: int) -> bool {
        self.in_bounds(x, y) && self.in_clip(x, y)
    }

    pub open spec fn pixel(self, x: int, y: int) -> OledPixel {
        self.cells[self.index(x, y)]
    }

    /// What reading `(x, y)` gives: the pixel, or `OutOfBounds`.
    pub open spec fn get(self, x: int, y: int) -> Result<OledPixel, BufferError> {
        if self.in_bounds(x, y) {
            Ok(self.pixel(x, y))
        } else {
            Err(BufferError::OutOfBounds)
        }
    }

    /// The frame after writing `p` at `(x, y)`: writes outside the bounds or
    /// outside the clip rectangle are dropped.
    pub open spec fn set(self, x: int, y: int, p: OledPixel) -> FrameView {
        if self.writable(x, y) {
            FrameView { cells: self.cells.update(self.index(x, y), p), ..self }
        } else {
            self
        }
    }

    /// `post` is this frame after `clear`: every writable cell is `Off`, every
    /// other cell keeps its value.
    pub open spec fn cleared_to(self, post: FrameView) -> bool {
        &&& post.width == self.width
        &&& post.height == self.height
        &&& post.clip == self.clip
        &&& post.cells.len() == self.cells.len()
        &&& forall|x: int, y: int|
            #![trigger post.pixel(x, y)]
            self.in_bounds(x, y) ==> post.pixel(x, y) == if self.writable(x, y) {
                OledPixel::Off
            } else {
                self.pixel(x, y)
            }
    }

    /// `bytes` is the packed form of the frame: byte `b` holds cells `8 * b`
    /// to `8 * b + 7`, which (the width being a multiple of eight) is the
    /// `b % (width / 8)`-th group of eight pixels of row `b / (width / 8)`.
    pub open spec fn serializes(self, bytes: Seq<u8>) -> bool {
        &&& bytes.len() == self.cells.len() / 8
        &&& forall|b: int|
            0 <= b < bytes.len() ==> packs(#[trigger] bytes[b], self.cells.subrange(8 * b, 8 * b + 8))
    }
}

/// The cell index of an in-bounds coordinate lies inside the buffer.
proof fn lemma_index_in_range(w: int, h: int, x: int, y: int)
    requires
        0 <= x < w,
        0 <= y < h,
    ensures
        0 <= y * w + x < w * h,
{
    assert(y * w + x < w * h) by (nonlinear_arith)
        requires
            0 <= x < w,
            0 <= y < h,
    ;
    assert(0 <= y * w) by (nonlinear_arith)
        requires
            0 <= y,
            0 <= x < w,
    ;
}

/// Distinct in-bounds coordinates have distinct cell indices.
proof fn lemma_index_injective(w: int, x1: int, y1: int, x2: int, y2: int)
    requires
        0 <= x1 < w,
        0 <= x2 < w,
        0 <= y1,
        0 <= y2,
    ensures
        (y1 * w + x1 == y2 * w + x2) <==> (x1 == x2 && y1 == y2),
{
    if y1 < y2 {
        assert(y1 * w + x1 < y2 * w + x2) by (nonlinear_arith)
            requires
                y1 < y2,
                0 <= x1 < w,
                0 <= x2,
        ;
    } else if y2 < y1 {
        assert(y2 * w + x2 < y1 * w + x1) by (nonlinear_arith)
            requires
                y2 < y1,
                0 <= x2 < w,
                0 <= x1,
        ;
    }
}

/// A framebuffer: a grid of binary pixels with an optional clip rectangle
/// that restricts which cells writes may change.
pub struct OledBuffer {
    width: usize,
    height: usize,
    buffer: Vec<OledPixel>,
    /// `(x, y, width, height)` of the clip rectangle.
    scissor: Option<(usize, usize, usize, usize)>,
}

impl View for OledBuffer {
    type V = FrameView;

    closed spec fn view(&self) -> FrameView {
        FrameView {
            width: self.width as nat,
            height: self.height as nat,
            cells: self.buffer@,
            clip: match self.scissor {
                None => None,
                Some((x, y, w, h)) => Some((x as int, y as int, x + w, y + h)),
            },
        }
    }
}

impl OledBuffer {
    pub open spec fn well_formed(&self) -> bool {
        self@.wf() && self@.cells.len() <= usize::MAX
    }

    /// The number of cells.
    pub fn pixel_count(&self) -> (r: usize)
        requires
            self.well_formed(),
        ensures
            r == self@.cells.len(),
    {
        self.buffer.len()
    }

    /// A buffer of the reference display's size, all pixels off, no clip.
    pub fn new() -> (r: Self)
        ensures
            r.well_formed(),
            r@.width == OLED_WIDTH,
            r@.height == OLED_HEIGHT,
            r@.clip is None,
            forall|i: int| 0 <= i < r@.cells.len() ==> #[trigger] r@.cells[i] == OledPixel::Off,
    {
        Self::with_size(OLED_WIDTH, OLED_HEIGHT)
    }

    /// A `width` by `height` buffer, all pixels off, no clip. The width must
    /// be a multiple of eight so that each row packs into whole bytes.
    pub fn with_size(width: usize, height: usize) -> (r: Self)
        requires
            width > 0,
            height > 0,
            width % 8 == 0,
            width * height <= usize::MAX,
        ensures
            r.well_formed(),
            r@.width == width,
            r@.height == height,
            r@.clip is None,
            forall|i: int| 0 <= i < r@.cells.len() ==> #[trigger] r@.cells[i] == OledPixel::Off,
    {
        let n: usize = width * height;
        let mut buffer: Vec<OledPixel> = Vec::new();
        let mut i: usize = 0;
        while i < n
            invariant
                i <= n,
                buffer@.len() == i,
                forall|k: int| 0 <= k < i ==> #[trigger] buffer@[k] == OledPixel::Off,
            decreases n - i,
        {
            buffer.push(OledPixel::Off);
            i = i + 1;
        }
        OledBuffer { width, height, buffer, scissor: None }
    }

    /// Reads the pixel at `(x, y)`, whatever the clip; fails with
    /// `OutOfBounds` outside the buffer.
    pub fn get_pixel(&self, x: usize, y: usize) -> (r: Result<&OledPixel, BufferError>)
        requires
            self.well_formed(),
        ensures
            match r {
                Ok(p) => self@.get(x as int, y as int) == Ok::<OledPixel, BufferError>(*p),
                Err(e) => self@.get(x as int, y as int) == Err::<OledPixel, BufferError>(e),
            },
    {
        if x >= self.width || y >= self.height {
            return Err(BufferError::OutOfBounds);
        }
        proof {
            lemma_index_in_range(self.width as int, self.height as int, x as int, y as int);
        }
        let i = y * self.width + x;
        Ok(&self.buffer[i])
    }

    /// A mutable reference to the pixel at `(x, y)`, whatever the clip; fails
    /// with `OutOfBounds` outside the buffer.
    pub fn get_pixel_mut(&mut self, x: usize, y: usize) -> (r: Result<&mut OledPixel, BufferError>)
        requires
            old(self).well_formed(),
        ensures
            match r {
                Ok(p) => {
                    &&& old(self)@.in_bounds(x as int, y as int)
                    &&& *p == old(self)@.pixel(x as int, y as int)
                    &&& final(self)@ == (FrameView {
                        cells: old(self)@.cells.update(old(self)@.index(x as int, y as int), *final(p)),
                        ..old(self)@
                    })
                },
                Err(e) => {
                    &&& old(self)@.get(x as int, y as int) == Err::<OledPixel, BufferError>(e)
                    &&& final(self)@ == old(self)@
                },
            },
    {
        if x >= self.width || y >= self.height {
            return Err(BufferError::OutOfBounds);
        }
        proof {
            lemma_index_in_range(self.width as int, self.height as int, x as int, y as int);
        }
        let i = y * self.width + x;
        Ok(&mut self.buffer[i])
    }
    /// Writes `state` at `(x, y)`. Outside the buffer, or outside the clip
    /// rectangle when one is set, the write is silently dropped.
    pub fn set_pixel(&mut self, x: usize, y: usize, state: OledPixel)
        requires
            old(self).well_formed(),
        ensures
            final(self).well_formed(),
            final(self)@ == old(self)@.set(x as int, y as int, state),
    {
        if x >= self.width || y >= self.height {
            return;
        }
        if let Some(value) = &self.scissor {
            if x < value.0 || x - value.0 >= value.2 || y < value.1 || y - value.1 >= value.3 {
                return;
            }
        }
        proof {
            lemma_index_in_range(self.width as int, self.height as int, x as int, y as int);
        }
        let i = y * self.width + x;
        self.buffer[i] = state;
    }

    /// Restricts later writes to the rectangle `[x, x + width) × [y, y + height)`.
    pub fn set_scissor(&mut self, x: usize, y: usize, width: usize, height: usize)
        requires
            old(self).well_formed(),
        ensures
            final(self).well_formed(),
            final(self)@ == (FrameView {
                clip: Some((x as int, y as int, x + width, y + height)),
                ..old(self)@
            }),
    {
        self.scissor = Some((x, y, width, height));
    }

    /// Removes the clip rectangle.
    pub fn clear_scissor(&mut self)
        requires
            old(self).well_formed(),
        ensures
            final(self).well_formed(),
            final(self)@ == (FrameView { clip: None, ..old(self)@ }),
    {
        self.scissor = None;
    }

    /// Turns off every pixel that `set_pixel` may currently write: the cells
    /// of the clip rectangle that lie inside the buffer, or every cell when
    /// no clip is set.
    pub fn clear(&mut self)
        requires
            old(self).well_formed(),
        ensures
            final(self).well_formed(),
            old(self)@.cleared_to(final(self)@),
    {
        let w = self.width;
        let h = self.height;
        if let Some(value) = self.scissor {
            let (x0, y0, cw, ch) = value;
            let x_end: usize = if x0 >= w {
                x0
            } else if cw < w - x0 {
                x0 + cw
            } else {
                w
            };
            let y_end: usize = if y0 >= h {
                y0
            } else if ch < h - y0 {
                y0 + ch
            } else {
                h
            };
            let mut y: usize = y0;
            while y < y_end
                invariant
                    self.well_formed(),
                    self@.width == old(self)@.width == w,
                    self@.height == old(self)@.height == h,
                    self@.clip == old(self)@.clip,
                    self.scissor == Some(value),
                    old(self)@.clip == Some((x0 as int, y0 as int, x0 + cw, y0 + ch)),
                    y0 <= y,
                    y0 < h ==> y_end <= h,
                    y0 >= h ==> y_end == y0,
                    y_end <= y0 + ch,
                    y0 < h && y_end < h ==> y_end == y0 + ch,
                    x0 >= w ==> x_end == x0,
                    x0 < w ==> x_end <= w && x_end <= x0 + cw && (x_end < w ==> x_end == x0 + cw),
                    forall|cx: int, cy: int|
                        #![trigger self@.pixel(cx, cy)]
                        old(self)@.in_bounds(cx, cy) ==> self@.pixel(cx, cy) == if old(self)@.writable(cx, cy) && cy < y {
                            OledPixel::Off
                        } else {
                            old(self)@.pixel(cx, cy)
                        },
                decreases y_end - y,
            {
                let mut x: usize = x0;
                while x < x_end
                    invariant
                        self.well_formed(),
                        self@.width == old(self)@.width == w,
                        self@.height == old(self)@.height == h,
                        self@.clip == old(self)@.clip,
                        self.scissor == Some(value),
                        old(self)@.clip == Some((x0 as int, y0 as int, x0 + cw, y0 + ch)),
                        y0 <= y < y_end,
                        y0 < h,
                        y_end <= h,
                        y < y0 + ch,
                        x0 <= x,
                        x0 >= w ==> x_end == x0,
                        x0 < w ==> x_end <= w && x_end <= x0 + cw && (x_end < w ==> x_end == x0 + cw),
                        forall|cx: int, cy: int|
                            #![trigger self@.pixel(cx, cy)]
                            old(self)@.in_bounds(cx, cy) ==> self@.pixel(cx, cy) == if old(self)@.writable(cx, cy) && (cy < y || (cy == y && cx < x)) {
                                OledPixel::Off
                            } else {
                                old(self)@.pixel(cx, cy)
                            },
                    decreases x_end - x,
                {
                    proof {
                        lemma_index_in_range(w as int, h as int, x as int, y as int);
                    }
                    let i = y * w + x;
                    let ghost before = self@;
                    self.buffer[i] = OledPixel::Off;
                    proof {
                        assert forall|cx: int, cy: int| old(self)@.in_bounds(cx, cy) implies #[trigger] self@.pixel(cx, cy) == if old(self)@.writable(cx, cy) && (cy < y || (cy == y && cx < x + 1)) {
                            OledPixel::Off
                        } else {
                            old(self)@.pixel(cx, cy)
                        } by {
                            lemma_index_injective(w as int, cx, cy, x as int, y as int);
                            lemma_index_in_range(w as int, h as int, cx, cy);
                            assert(before.pixel(cx, cy) == before.cells[cy * w + cx]);
                        }
                    }
                    x = x + 1;
                }
                y = y + 1;
            }
            return;
        }
        let n = self.buffer.len();
        let mut i: usize = 0;
        while i < n
            invariant
                self.well_formed(),
                self@.width == old(self)@.width,
                self@.height == old(self)@.height,
                self@.clip == old(self)@.clip,
                n == self@.cells.len(),
                i <= n,
                forall|k: int| 0 <= k < i ==> #[trigger] self@.cells[k] == OledPixel::Off,
            decreases n - i,
        {
            self.buffer[i] = OledPixel::Off;
            i = i + 1;
        }
        proof {
            assert forall|cx: int, cy: int| old(self)@.in_bounds(cx, cy) implies #[trigger] self@.pixel(cx, cy) == OledPixel::Off by {
                lemma_index_in_range(w as int, h as int, cx, cy);
            }
        }
    }
    /// Packs the buffer into `buffer`, one byte per group of eight pixels,
    /// rows top to bottom and groups left to right, the leftmost pixel of a
    /// group in the most significant bit.
    pub fn to_buffer(&self, buffer: &mut [u8])
        requires
            self.well_formed(),
            old(buffer)@.len() == self@.cells.len() / 8,
        ensures
            self@.serializes(final(buffer)@),
    {
        let n = self.buffer.len();
        let count = n / 8;
        let cells = self.buffer.as_slice();
        let mut b: usize = 0;
        while b < count
            invariant
                self.well_formed(),
                cells@ == self@.cells,
                n == cells@.len(),
                count == n / 8,
                buffer@.len() == count,
                b <= count,
                forall|k: int| 0 <= k < b ==> packs(#[trigger] buffer@[k], cells@.subrange(8 * k, 8 * k + 8)),
            decreases count - b,
        {
            let i = 8 * b;
            let group = slice_subrange(cells, i, i + 8);
            buffer[b] = OledPixel::pack(group);
            b = b + 1;
        }
    }
}

/// Two bytes with the same eight bits are equal.
proof fn lemma_bits_equal(a: u8, c: u8)
    requires
        bit_set(a, 0) == bit_set(c, 0),
        bit_set(a, 1) == bit_set(c, 1),
        bit_set(a, 2) == bit_set(c, 2),
        bit_set(a, 3) == bit_set(c, 3),
        bit_set(a, 4) == bit_set(c, 4),
        bit_set(a, 5) == bit_set(c, 5),
        bit_set(a, 6) == bit_set(c, 6),
        bit_set(a, 7) == bit_set(c, 7),
    ensures
        a == c,
{
    assert(a == c) by (bit_vector)
        requires
            ((a >> 0u8) & 1u8 == 1u8) == ((c >> 0u8) & 1u8 == 1u8),
            ((a >> 1u8) & 1u8 == 1u8) == ((c >> 1u8) & 1u8 == 1u8),
            ((a >> 2u8) & 1u8 == 1u8) == ((c >> 2u8) & 1u8 == 1u8),
            ((a >> 3u8) & 1u8 == 1u8) == ((c >> 3u8) & 1u8 == 1u8),
            ((a >> 4u8) & 1u8 == 1u8) == ((c >> 4u8) & 1u8 == 1u8),
            ((a >> 5u8) & 1u8 == 1u8) == ((c >> 5u8) & 1u8 == 1u8),
            ((a >> 6u8) & 1u8 == 1u8) == ((c >> 6u8) & 1u8 == 1u8),
            ((a >> 7u8) & 1u8 == 1u8) == ((c >> 7u8) & 1u8 == 1u8),
    ;
}

/// A group of pixels has exactly one packed byte.
pub proof fn lemma_packs_unique(a: u8, c: u8, group: Seq<OledPixel>)
    requires
        packs(a, group),
        packs(c, group),
    ensures
        a == c,
{
    assert(pixel_bit(a, 0) == pixel_bit(c, 0));
    assert(pixel_bit(a, 1) == pixel_bit(c, 1));
    assert(pixel_bit(a, 2) == pixel_bit(c, 2));
    assert(pixel_bit(a, 3) == pixel_bit(c, 3));
    assert(pixel_bit(a, 4) == pixel_bit(c, 4));
    assert(pixel_bit(a, 5) == pixel_bit(c, 5));
    assert(pixel_bit(a, 6) == pixel_bit(c, 6));
    assert(pixel_bit(a, 7) == pixel_bit(c, 7));
    lemma_bits_equal(a, c);
}

/// Writing a pixel that is in bounds and not clipped away, then reading it
/// back, gives the written value, `On` or `Off`.
pub proof fn lemma_set_then_get(v: FrameView, x: int, y: int, p: OledPixel)
    requires
        v.wf(),
        v.writable(x, y),
    ensures
        v.set(x, y, p).get(x, y) == Ok::<OledPixel, BufferError>(p),
{
    lemma_index_in_range(v.width as int, v.height as int, x, y);
}

/// Reading outside the buffer fails with `OutOfBounds`, and writing there
/// leaves the buffer as it was.
pub proof fn lemma_out_of_bounds(v: FrameView, x: int, y: int, p: OledPixel)
    requires
        v.wf(),
        !v.in_bounds(x, y),
    ensures
        v.get(x, y) == Err::<OledPixel, BufferError>(BufferError::OutOfBounds),
        v.set(x, y, p) == v,
{
}

/// With the clip set to `[x0, x0 + w) × [y0, y0 + h)`, a write outside that
/// rectangle leaves the buffer as it was, and clearing changes no cell
/// outside it.
pub proof fn lemma_clip_confines_changes(
    v: FrameView,
    post: FrameView,
    x0: int,
    y0: int,
    w: int,
    h: int,
    x: int,
    y: int,
    p: OledPixel,
)
    requires
        v.wf(),
        0 <= x0,
        0 <= y0,
        0 <= w,
        0 <= h,
        v.clip == Some((x0, y0, x0 + w, y0 + h)),
        !(x0 <= x < x0 + w && y0 <= y < y0 + h),
        v.cleared_to(post),
    ensures
        v.set(x, y, p) == v,
        forall|cx: int, cy: int|
            #![trigger post.pixel(cx, cy)]
            v.in_bounds(cx, cy) && !(x0 <= cx < x0 + w && y0 <= cy < y0 + h) ==> post.pixel(cx, cy) == v.pixel(cx, cy),
{
}

/// Packing a buffer whose pixels are all `Off` gives `width * height / 8`
/// zero bytes.
pub proof fn lemma_serialize_all_off(v: FrameView, bytes: Seq<u8>)
    requires
        v.wf(),
        forall|i: int| 0 <= i < v.cells.len() ==> #[trigger] v.cells[i] == OledPixel::Off,
        v.serializes(bytes),
    ensures
        bytes.len() == v.width * v.height / 8,
        forall|b: int| 0 <= b < bytes.len() ==> #[trigger] bytes[b] == 0u8,
{
    assert forall|b: int| 0 <= b < bytes.len() implies #[trigger] bytes[b] == 0u8 by {
        let group = v.cells.subrange(8 * b, 8 * b + 8);
        assert(packs(bytes[b], group));
        assert forall|k: int| 0 <= k < 8 implies #[trigger] pixel_bit(0u8, k) == (k < group.len() && group[k] is On) by {
            lemma_zero_bits((7 - k) as u8);
        }
        lemma_packs_unique(bytes[b], 0u8, group);
    }
}

proof fn lemma_bits_of_top(b: u8)
    requires
        b < 8,
    ensures
        bit_set(0x80u8, b) == (b == 7),
{
    assert((0x80u8 >> b) & 1u8 == 1u8 <==> b == 7) by (bit_vector)
        requires
            b < 8,
    ;
}

/// Packing a buffer whose only `On` pixel is `(0, 0)` gives `0x80` first and
/// zero bytes after it: the leftmost pixel of a group is the most
/// significant bit.
pub proof fn lemma_serialize_first_pixel(v: FrameView, bytes: Seq<u8>)
    requires
        v.wf(),
        v.pixel(0, 0) == OledPixel::On,
        forall|i: int| 1 <= i < v.cells.len() ==> #[trigger] v.cells[i] == OledPixel::Off,
        v.serializes(bytes),
    ensures
        bytes.len() == v.width * v.height / 8,
        bytes[0] == 0x80u8,
        forall|b: int| 1 <= b < bytes.len() ==> #[trigger] bytes[b] == 0u8,
{
    assert(v.cells.len() >= 8) by (nonlinear_arith)
        requires
            v.cells.len() == v.width * v.height,
            v.width % 8 == 0,
            v.width > 0,
            v.height > 0,
    ;
    let first = v.cells.subrange(0, 8);
    assert(packs(bytes[0], first));
    assert forall|k: int| 0 <= k < 8 implies #[trigger] pixel_bit(0x80u8, k) == (k < first.len() && first[k] is On) by {
        lemma_bits_of_top((7 - k) as u8);
    }
    lemma_packs_unique(bytes[0], 0x80u8, first);
    assert forall|b: int| 1 <= b < bytes.len() implies #[trigger] bytes[b] == 0u8 by {
        let group = v.cells.subrange(8 * b, 8 * b + 8);
        assert(packs(bytes[b], group));
        assert forall|k: int| 0 <= k < 8 implies #[trigger] pixel_bit(0u8, k) == (k < group.len() && group[k] is On) by {
            lemma_zero_bits((7 - k) as u8);
        }
        lemma_packs_unique(bytes[b], 0u8, group);
    }
}

/// In packed form, pixel `(x, y)` is bit `7 - x % 8` of byte
/// `(y * width + x) / 8`: rows run top to bottom, and within a row each
/// group of eight pixels fills one byte from its most significant bit down.
pub proof fn lemma_serialized_pixel(v: FrameView, bytes: Seq<u8>, x: int, y: int)
    requires
        v.wf(),
        v.serializes(bytes),
        v.in_bounds(x, y),
    ensures
        0 <= (y * v.width + x) / 8 < bytes.len(),
        pixel_bit(bytes[(y * v.width + x) / 8], x % 8) == (v.pixel(x, y) is On),
{
    let w = v.width as int;
    let idx = y * w + x;
    lemma_index_in_range(w, v.height as int, x, y);
    let m = y * (w / 8);
    assert(y * w == 8 * m) by (nonlinear_arith)
        requires
            w % 8 == 0,
            m == y * (w / 8),
    ;
    let q = (w / 8) * (v.height as int);
    assert(w * v.height == 8 * q) by (nonlinear_arith)
        requires
            w % 8 == 0,
            q == (w / 8) * v.height,
    ;
    assert(idx / 8 == m + x / 8);
    assert(idx % 8 == x % 8);
    let b = idx / 8;
    assert(b < q);
    assert(bytes.len() == q);
    assert(packs(bytes[b], v.cells.subrange(8 * b, 8 * b + 8)));
    assert(v.cells.subrange(8 * b, 8 * b + 8)[x % 8] == v.cells[idx]);
}

} // verus!
