//! Shared pixel grid storage.
//!
//! The canvas holds one 32-bit value per coordinate in a flat backing vector
//! addressed by `y * width + x`. The low-order three bytes of a pixel value
//! are blue, green and red (so the raw byte order of a pixel is red, green,
//! blue, unused); the high byte is accepted on writes but carries no meaning.
//! Reads and writes outside the fixed dimensions are absorbed: `get` answers
//! `None` and `set` leaves the canvas unchanged, and neither signals an
//! error.

use vstd::prelude::*;

verus! {

/// Mathematical model of the canvas: the fixed dimensions and the flat
/// sequence of pixel values, one per coordinate, row by row.
pub struct FbView {
    pub width: nat,
    pub height: nat,
    pub grid: Seq<u32>,
}

impl FbView {
    /// The coordinate pair lies on the canvas.
    pub open spec fn in_bounds(self, x: int, y: int) -> bool {
        0 <= x < self.width && 0 <= y < self.height
    }

    /// Position of coordinate `(x, y)` in the flat backing sequence.
    pub open spec fn index_of(self, x: int, y: int) -> int {
        y * self.width + x
    }

    /// The stored value of coordinate `(x, y)`.
    pub open spec fn pixel(self, x: int, y: int) -> u32 {
        self.grid[self.index_of(x, y)]
    }

    /// The canvas after storing `v` at `(x, y)`: updated in bounds,
    /// unchanged otherwise.
    pub open spec fn store(self, x: int, y: int, v: u32) -> FbView {
        if self.in_bounds(x, y) {
            FbView { grid: self.grid.update(self.index_of(x, y), v), ..self }
        } else {
            self
        }
    }

    /// The backing sequence covers exactly the canvas area, and the
    /// dimensions are addressable.
    pub open spec fn wf(self) -> bool {
        &&& self.grid.len() == self.width * self.height
        &&& self.width <= usize::MAX
        &&& self.height <= usize::MAX
    }
}

/// The little-endian byte rendering of one pixel value: red, green, blue,
/// then the meaningless high byte.
pub open spec fn pixel_bytes(v: u32) -> Seq<u8> {
    seq![
        (v & 0xff) as u8,
        ((v >> 8) & 0xff) as u8,
        ((v >> 16) & 0xff) as u8,
        ((v >> 24) & 0xff) as u8,
    ]
}

/// The shared canvas: immutable dimensions fixed at construction and a
/// zero-initialized backing vector, zero encoding black.
pub struct FrameBuffer {
    width: usize,
    height: usize,
    buffer: Vec<u32>,
}

impl View for FrameBuffer {
    type V = FbView;

    closed spec fn view(&self) -> FbView {
        FbView { width: self.width as nat, height: self.height as nat, grid: self.buffer@ }
    }
}

impl FrameBuffer {
    /// Allocates a zero-initialized grid; zero encodes black.
    pub fn new(width: usize, height: usize) -> (fb: FrameBuffer)
        requires
            width * height <= usize::MAX,
        ensures
            fb@.width == width as nat,
            fb@.height == height as nat,
            fb@.wf(),
            forall|i: int| 0 <= i < fb@.grid.len() ==> fb@.grid[i] == 0u32,
    {
        let size = width * height;
        let mut buffer: Vec<u32> = Vec::new();
        while buffer.len() < size
            invariant
                buffer@.len() <= size,
                forall|i: int| 0 <= i < buffer@.len() ==> buffer@[i] == 0u32,
            decreases size - buffer@.len(),
        {
            buffer.push(0u32);
        }
        FrameBuffer { width, height, buffer }
    }

    pub fn get_width(&self) -> (w: usize)
        ensures
            w as nat == self@.width,
    {
        self.width
    }

    pub fn get_height(&self) -> (h: usize)
        ensures
            h as nat == self@.height,
    {
        self.height
    }

    /// Number of pixels on the canvas.
    pub fn get_size(&self) -> (size: usize)
        requires
            self@.wf(),
        ensures
            size as nat == self@.width * self@.height,
    {
        proof {
            // The backing vector realizes the area, so the product fits.
            assert(self.buffer.len() == self@.width * self@.height);
        }
        self.width * self.height
    }

    /// The stored value at `(x, y)`, or `None` outside the canvas. Never an
    /// error and never a panic.
    pub fn get(&self, x: usize, y: usize) -> (r: Option<u32>)
        requires
            self@.wf(),
        ensures
            r == if self@.in_bounds(x as int, y as int) {
                Some(self@.pixel(x as int, y as int))
            } else {
                None::<u32>
            },
    {
        if x < self.width && y < self.height {
            proof {
                assert(self.buffer.len() == self@.width * self@.height);
                lemma_flat_index(x as int, y as int, self@.width as int, self@.height as int);
            }
            Some(self.buffer[y * self.width + x])
        } else {
            None
        }
    }

    /// Stores the value if `(x, y)` is in bounds; silently does nothing
    /// otherwise.
    pub fn set(&mut self, x: usize, y: usize, rgba: u32)
        requires
            old(self)@.wf(),
        ensures
            final(self)@ == old(self)@.store(x as int, y as int, rgba),
            final(self)@.wf(),
    {
        if x < self.width && y < self.height {
            proof {
                assert(self.buffer.len() == self@.width * self@.height);
                lemma_flat_index(x as int, y as int, self@.width as int, self@.height as int);
            }
            let idx = y * self.width + x;
            self.buffer.set(idx, rgba);
        }
    }

    /// Read-only access to the full backing storage for external consumers.
    pub fn get_buffer(&self) -> (buffer: &Vec<u32>)
        ensures
            buffer@ == self@.grid,
    {
        &self.buffer
    }

    /// A byte-level snapshot of the full backing storage, four bytes per
    /// pixel in red, green, blue, unused order.
    pub fn as_bytes(&self) -> (bytes: Vec<u8>)
        ensures
            bytes@.len() == 4 * self@.grid.len(),
            forall|i: int|
                0 <= i < self@.grid.len() ==> bytes@.subrange(4 * i, 4 * i + 4) == pixel_bytes(
                    #[trigger] self@.grid[i],
                ),
    {
        let mut bytes: Vec<u8> = Vec::new();
        let mut i: usize = 0;
        while i < self.buffer.len()
            invariant
                i <= self.buffer.len(),
                self.buffer@ == self@.grid,
                bytes@.len() == 4 * i,
                forall|j: int|
                    0 <= j < i ==> bytes@.subrange(4 * j, 4 * j + 4) == pixel_bytes(
                        #[trigger] self@.grid[j],
                    ),
            decreases self.buffer@.len() - i,
        {
            let v = self.buffer[i];
            bytes.push((v & 0xff) as u8);
            bytes.push(((v >> 8) & 0xff) as u8);
            bytes.push(((v >> 16) & 0xff) as u8);
            bytes.push(((v >> 24) & 0xff) as u8);
            proof {
                assert(forall|j: int|
                    0 <= j <= i ==> bytes@.subrange(4 * j, 4 * j + 4) =~= pixel_bytes(
                        #[trigger] self@.grid[j],
                    ));
            }
            i = i + 1;
        }
        bytes
    }
}

/// In a `width`-wide, `height`-high grid stored row by row, the flat position
/// of an in-bounds coordinate lies inside the grid's area.
pub proof fn lemma_flat_index(x: int, y: int, width: int, height: int)
    requires
        0 <= x < width,
        0 <= y < height,
    ensures
        0 <= y * width + x < width * height,
{
    assert(0 <= y * width + x < width * height) by (nonlinear_arith)
        requires
            0 <= x < width,
            0 <= y < height,
    ;
}

} // verus!
