//! Frames: bitplanes of multiplex rows of column bytes, stored row-major in
//! one buffer.
use vstd::prelude::*;

verus! {

/// Largest bit depth: the passes over a bitplane are counted in a `u64`.
pub const MAX_DEPTH: usize = 64;

/// What a frame holds: `depth` bitplanes, most significant first, each of
/// `rows` multiplex rows of `cols` bytes.
pub struct FrameView {
    pub depth: nat,
    pub rows: nat,
    pub cols: nat,
    pub bytes: Seq<u8>,
}

impl FrameView {
    pub open spec fn index(self, plane: int, row: int, col: int) -> int {
        (plane * self.rows + row) * self.cols + col
    }

    /// The byte of column `col` of row `row` of the bitplane stored at `plane`.
    pub open spec fn byte(self, plane: int, row: int, col: int) -> u8 {
        self.bytes[self.index(plane, row, col)]
    }

    pub open spec fn wf(self) -> bool {
        &&& self.depth <= MAX_DEPTH
        &&& self.bytes.len() == self.depth * self.rows * self.cols
        &&& self.bytes.len() <= usize::MAX
    }
}

/// An immutable frame of packed pixel bytes.
pub struct Frame {
    depth: usize,
    rows: usize,
    cols: usize,
    data: Vec<u8>,
}

impl View for Frame {
    type V = FrameView;

    closed spec fn view(&self) -> FrameView {
        FrameView { depth: self.depth as nat, rows: self.rows as nat, cols: self.cols as nat, bytes: self.data@ }
    }
}

pub(crate) proof fn lemma_index_bounds(depth: int, rows: int, cols: int, plane: int, row: int, col: int)
    requires
        0 <= plane < depth,
        0 <= row < rows,
        0 <= col < cols,
    ensures
        0 <= plane * rows <= plane * rows + row < depth * rows,
        0 <= (plane * rows + row) * cols <= (plane * rows + row) * cols + col < depth * rows * cols,
{
    assert(plane * rows + row < depth * rows) by (nonlinear_arith)
        requires
            0 <= plane < depth,
            0 <= row < rows,
    ;
    assert((plane * rows + row) * cols + col < depth * rows * cols) by (nonlinear_arith)
        requires
            0 <= plane * rows + row < depth * rows,
            0 <= col < cols,
    ;
    assert(0 <= plane * rows) by (nonlinear_arith)
        requires
            0 <= plane,
            0 <= rows,
    ;
    assert(0 <= (plane * rows + row) * cols) by (nonlinear_arith)
        requires
            0 <= plane * rows + row,
            0 <= cols,
    ;
}

impl Frame {
    /// Builds a frame over `data`, which holds `depth * rows * cols` bytes
    /// ordered by bitplane (most significant first), then row, then column.
    /// Returns `None` when the length does not match or `depth` exceeds
    /// [`MAX_DEPTH`].
    pub fn new(depth: usize, rows: usize, cols: usize, data: Vec<u8>) -> (r: Option<Frame>)
        ensures
            r is Some <==> depth <= MAX_DEPTH && data@.len() == depth * rows * cols,
            r is Some ==> r->Some_0@.wf(),
            r is Some ==> r->Some_0@ == (FrameView {
                depth: depth as nat,
                rows: rows as nat,
                cols: cols as nat,
                bytes: data@,
            }),
    {
        if depth > MAX_DEPTH {
            return None;
        }
        let size = if rows == 0 || cols == 0 {
            proof {
                assert(depth * rows * cols == 0) by (nonlinear_arith)
                    requires
                        rows == 0 || cols == 0,
                ;
            }
            Some(0)
        } else {
            match depth.checked_mul(rows) {
                Some(planes) => planes.checked_mul(cols),
                None => None,
            }
        };
        let len = data.len();
        match size {
            Some(n) => {
                if n == len {
                    Some(Frame { depth, rows, cols, data })
                } else {
                    None
                }
            },
            None => {
                proof {
                    assert(depth * rows * cols > usize::MAX) by (nonlinear_arith)
                        requires
                            depth * rows > usize::MAX || (depth * rows) * cols > usize::MAX,
                            1 <= cols,
                            0 <= depth,
                            1 <= rows,
                    ;
                }
                None
            },
        }
    }

    /// Number of bitplanes.
    pub fn depth(&self) -> (r: usize)
        ensures
            r == self@.depth,
    {
        self.depth
    }

    /// Number of multiplex rows per bitplane.
    pub fn rows(&self) -> (r: usize)
        ensures
            r == self@.rows,
    {
        self.rows
    }

    /// Number of column bytes per row.
    pub fn cols(&self) -> (r: usize)
        ensures
            r == self@.cols,
    {
        self.cols
    }

    /// The byte of column `col` of row `row` of the bitplane stored at `plane`.
    pub fn byte(&self, plane: usize, row: usize, col: usize) -> (r: u8)
        requires
            self@.wf(),
            plane < self@.depth,
            row < self@.rows,
            col < self@.cols,
        ensures
            r == self@.byte(plane as int, row as int, col as int),
    {
        let ghost d = self.depth as int;
        let ghost n = self.rows as int;
        let ghost m = self.cols as int;
        proof {
            lemma_index_bounds(d, n, m, plane as int, row as int, col as int);
            assert(self.data@.len() == d * n * m);
            assert(d * n <= d * n * m) by (nonlinear_arith)
                requires
                    m >= 1,
                    d * n >= 0,
            ;
        }
        self.data[(plane * self.rows + row) * self.cols + col]
    }
}

} // verus!
