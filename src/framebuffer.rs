use vstd::arithmetic::div_mod::{lemma_fundamental_div_mod, lemma_mod_bound};
use vstd::prelude::*;

verus! {

/// A display color already gamma-corrected and quantized: one byte per channel.
#[derive(Clone, Copy, Debug, PartialEq, Eq, Structural)]
pub struct Rgb {
    pub r: u8,
    pub g: u8,
    pub b: u8,
}

/// The packed display word of one pixel: a zero high byte, then red, green
/// and blue, most significant first.
pub open spec fn packed(c: Rgb) -> u32 {
    (c.r as int * 65536 + c.g as int * 256 + c.b as int) as u32
}

/// Packs three display bytes into one pixel word.
pub fn pack_rgb(c: Rgb) -> (w: u32)
    ensures
        w == packed(c),
        w as int == c.r as int * 65536 + c.g as int * 256 + c.b as int,
{
    (c.r as u32) * 65536 + (c.g as u32) * 256 + (c.b as u32)
}

/// Position of pixel `(x, y)` in a row-major buffer of rows `width` long.
pub open spec fn pixel_index(width: int, x: int, y: int) -> int {
    y * width + x
}

/// The buffer `s` after the row `y` of a frame `width` pixels wide has had its
/// first `line.len()` pixels painted with `line`.
pub open spec fn painted_row(s: Seq<u32>, width: int, y: int, line: Seq<Rgb>) -> Seq<u32> {
    Seq::new(
        s.len(),
        |k: int|
            if y * width <= k < y * width + line.len() {
                packed(line[k - y * width])
            } else {
                s[k]
            },
    )
}

proof fn lemma_index_in_frame(width: int, height: int, x: int, y: int)
    requires
        0 <= x < width,
        0 <= y < height,
    ensures
        0 <= y * width + x < width * height,
{
    assert(0 <= y * width) by (nonlinear_arith)
        requires
            0 <= y,
            0 <= width,
    ;
    lemma_row_in_frame(width, height, y);
}

proof fn lemma_row_in_frame(width: int, height: int, y: int)
    requires
        0 <= width,
        0 <= y < height,
    ensures
        (y + 1) * width <= width * height,
        (y + 1) * width == y * width + width,
{
    assert((y + 1) * width <= width * height) by (nonlinear_arith)
        requires
            y + 1 <= height,
            0 <= width,
    ;
    assert((y + 1) * width == y * width + width) by (nonlinear_arith);
}

/// Committing two different rows gives the same buffer in either order: rows
/// of a frame may be finished and written in any order.
pub proof fn lemma_rows_commute(
    s: Seq<u32>,
    width: int,
    y1: int,
    a: Seq<Rgb>,
    y2: int,
    b: Seq<Rgb>,
)
    requires
        0 <= width,
        0 <= y1,
        0 <= y2,
        y1 != y2,
        a.len() <= width,
        b.len() <= width,
    ensures
        painted_row(painted_row(s, width, y1, a), width, y2, b) == painted_row(
            painted_row(s, width, y2, b),
            width,
            y1,
            a,
        ),
{
    let l = painted_row(painted_row(s, width, y1, a), width, y2, b);
    let r = painted_row(painted_row(s, width, y2, b), width, y1, a);
    assert forall|k: int| 0 <= k < l.len() implies l[k] == r[k] by {
        if y1 < y2 {
            assert((y1 + 1) * width <= y2 * width) by (nonlinear_arith)
                requires
                    y1 + 1 <= y2,
                    0 <= width,
            ;
        } else {
            assert((y2 + 1) * width <= y1 * width) by (nonlinear_arith)
                requires
                    y2 + 1 <= y1,
                    0 <= width,
            ;
        }
        assert((y1 + 1) * width == y1 * width + width) by (nonlinear_arith);
        assert((y2 + 1) * width == y2 * width + width) by (nonlinear_arith);
    }
    assert(l =~= r);
}

/// The frame `width` pixels wide whose row `y` shows `rows[y]`, packed.
pub open spec fn frame_image(width: int, height: int, rows: Seq<Seq<Rgb>>) -> Seq<u32> {
    Seq::new((width * height) as nat, |k: int| packed(rows[k / width][k % width]))
}

/// The buffer `s` after row `order[i]` has been committed with the line
/// `rows[order[i]]`, for each `i` in turn.
pub open spec fn commit_rows(s: Seq<u32>, width: int, order: Seq<int>, rows: Seq<Seq<Rgb>>) -> Seq<
    u32,
>
    decreases order.len(),
{
    if order.len() == 0 {
        s
    } else {
        let y = order.last();
        painted_row(commit_rows(s, width, order.drop_last(), rows), width, y, rows[y])
    }
}

proof fn lemma_row_of(width: int, k: int, y: int)
    requires
        0 < width,
        0 <= k,
    ensures
        (y * width <= k < y * width + width) == (k / width == y),
        k / width == y ==> k % width == k - y * width,
{
    lemma_fundamental_div_mod(k, width);
    lemma_mod_bound(k, width);
    let q = k / width;
    let r = k % width;
    assert(k == width * q + r);
    if y * width <= k && k < y * width + width {
        if q < y {
            assert(width * (q + 1) <= width * y) by (nonlinear_arith)
                requires
                    q + 1 <= y,
                    0 < width,
            ;
            assert(width * (q + 1) == width * q + width) by (nonlinear_arith);
            assert(y * width == width * y) by (nonlinear_arith);
        } else if q > y {
            assert(width * (y + 1) <= width * q) by (nonlinear_arith)
                requires
                    y + 1 <= q,
                    0 < width,
            ;
            assert(width * (y + 1) == width * y + width) by (nonlinear_arith);
            assert(y * width == width * y) by (nonlinear_arith);
        }
    }
    if q == y {
        assert(y * width == width * q) by (nonlinear_arith)
            requires
                q == y,
        ;
    }
}

proof fn lemma_row_below_height(width: int, height: int, k: int)
    requires
        0 < width,
        0 <= k < width * height,
    ensures
        0 <= k / width < height,
        0 <= k % width < width,
{
    lemma_fundamental_div_mod(k, width);
    lemma_mod_bound(k, width);
    let q = k / width;
    let r = k % width;
    if q < 0 {
        assert(width * q <= -width) by (nonlinear_arith)
            requires
                q <= -1,
                0 < width,
        ;
    }
    if q >= height {
        assert(width * height <= width * q) by (nonlinear_arith)
            requires
                height <= q,
                0 < width,
        ;
    }
}

proof fn lemma_commit_prefix(
    s: Seq<u32>,
    width: int,
    height: int,
    order: Seq<int>,
    rows: Seq<Seq<Rgb>>,
)
    requires
        0 < width,
        s.len() == width * height,
        rows.len() == height,
        forall|y: int| 0 <= y < height ==> #[trigger] rows[y].len() == width,
        forall|i: int| 0 <= i < order.len() ==> 0 <= #[trigger] order[i] < height,
    ensures
        commit_rows(s, width, order, rows).len() == s.len(),
        forall|k: int|
            0 <= k < s.len() ==> #[trigger] commit_rows(s, width, order, rows)[k] == if order.contains(
                k / width,
            ) {
                packed(rows[k / width][k % width])
            } else {
                s[k]
            },
    decreases order.len(),
{
    if order.len() > 0 {
        let prefix = order.drop_last();
        let y = order.last();
        assert forall|i: int| 0 <= i < prefix.len() implies 0 <= #[trigger] prefix[i] < height by {
            assert(prefix[i] == order[i]);
        }
        lemma_commit_prefix(s, width, height, prefix, rows);
        let prev = commit_rows(s, width, prefix, rows);
        assert forall|k: int| 0 <= k < s.len() implies #[trigger] commit_rows(
            s,
            width,
            order,
            rows,
        )[k] == if order.contains(k / width) {
            packed(rows[k / width][k % width])
        } else {
            s[k]
        } by {
            lemma_row_of(width, k, y);
            lemma_row_below_height(width, height, k);
            let z = k / width;
            if z == y {
                assert(order[order.len() - 1] == z);
            } else {
                if order.contains(z) {
                    let i = choose|i: int| 0 <= i < order.len() && order[i] == z;
                    assert(prefix[i] == z);
                }
                if prefix.contains(z) {
                    let i = choose|i: int| 0 <= i < prefix.len() && prefix[i] == z;
                    assert(order[i] == z);
                }
            }
        }
    }
}

/// A frame whose every row is committed with a full-width line comes out the
/// same whatever the buffer held before and in whatever order the rows were
/// committed, a row committed more than once included.
pub proof fn lemma_full_frame(
    s: Seq<u32>,
    width: int,
    height: int,
    order: Seq<int>,
    rows: Seq<Seq<Rgb>>,
)
    requires
        0 <= width,
        s.len() == width * height,
        rows.len() == height,
        forall|y: int| 0 <= y < height ==> #[trigger] rows[y].len() == width,
        forall|i: int| 0 <= i < order.len() ==> 0 <= #[trigger] order[i] < height,
        forall|y: int| 0 <= y < height ==> #[trigger] order.contains(y),
    ensures
        commit_rows(s, width, order, rows) == frame_image(width, height, rows),
{
    let image = frame_image(width, height, rows);
    if width == 0 {
        lemma_commit_len(s, width, order, rows);
        assert(commit_rows(s, width, order, rows) =~= image);
    } else {
        lemma_commit_prefix(s, width, height, order, rows);
        let c = commit_rows(s, width, order, rows);
        assert forall|k: int| 0 <= k < c.len() implies c[k] == image[k] by {
            lemma_row_below_height(width, height, k);
            assert(order.contains(k / width));
        }
        assert(c =~= image);
    }
}

proof fn lemma_commit_len(s: Seq<u32>, width: int, order: Seq<int>, rows: Seq<Seq<Rgb>>)
    ensures
        commit_rows(s, width, order, rows).len() == s.len(),
    decreases order.len(),
{
    if order.len() > 0 {
        lemma_commit_len(s, width, order.drop_last(), rows);
    }
}

/// Pixels of a fixed-size frame, row by row, each a packed display word.
pub struct FrameBuffer {
    width: usize,
    height: usize,
    buf: Vec<u32>,
}

impl View for FrameBuffer {
    type V = Seq<u32>;

    closed spec fn view(&self) -> Seq<u32> {
        self.buf@
    }
}

impl FrameBuffer {
    pub closed spec fn spec_width(&self) -> nat {
        self.width as nat
    }

    pub closed spec fn spec_height(&self) -> nat {
        self.height as nat
    }

    /// One word per pixel.
    pub closed spec fn wf(&self) -> bool {
        &&& self.buf@.len() == self.width * self.height
        &&& self.width * self.height <= usize::MAX
    }

    /// A black frame of `width` by `height` pixels.
    pub fn new(width: usize, height: usize) -> (fb: FrameBuffer)
        requires
            width * height <= usize::MAX,
        ensures
            fb.wf(),
            fb.spec_width() == width,
            fb.spec_height() == height,
            fb@ == Seq::new((width * height) as nat, |k: int| 0u32),
    {
        let n: usize = width * height;
        let mut buf: Vec<u32> = Vec::with_capacity(n);
        let mut i: usize = 0;
        while i < n
            invariant
                i <= n,
                buf@ == Seq::new(i as nat, |k: int| 0u32),
            decreases n - i,
        {
            buf.push(0);
            i = i + 1;
            assert(buf@ =~= Seq::new(i as nat, |k: int| 0u32));
        }
        FrameBuffer { width, height, buf }
    }

    pub fn width(&self) -> (w: usize)
        ensures
            w == self.spec_width(),
    {
        self.width
    }

    pub fn height(&self) -> (h: usize)
        ensures
            h == self.spec_height(),
    {
        self.height
    }

    /// The packed pixel words, row-major, ready to hand to a display surface.
    pub fn pixels(&self) -> (p: &Vec<u32>)
        ensures
            p@ == self@,
    {
        &self.buf
    }

    /// Position of pixel `(x, y)` in the buffer.
    pub fn index(&self, x: usize, y: usize) -> (i: usize)
        requires
            self.wf(),
            x < self.spec_width(),
            y < self.spec_height(),
        ensures
            i == pixel_index(self.spec_width() as int, x as int, y as int),
            i < self@.len(),
    {
        proof {
            lemma_index_in_frame(self.width as int, self.height as int, x as int, y as int);
        }
        y * self.width + x
    }

    /// Writes the packed form of `color` at pixel `(x, y)`; no other pixel changes.
    pub fn paint(&mut self, x: usize, y: usize, color: Rgb)
        requires
            old(self).wf(),
            x < old(self).spec_width(),
            y < old(self).spec_height(),
        ensures
            final(self).wf(),
            final(self).spec_width() == old(self).spec_width(),
            final(self).spec_height() == old(self).spec_height(),
            final(self)@ == old(self)@.update(
                pixel_index(old(self).spec_width() as int, x as int, y as int),
                packed(color),
            ),
    {
        let i = self.index(x, y);
        let w = pack_rgb(color);
        self.buf.set(i, w);
    }

    /// Writes `line` into row `y`, starting at its first pixel; the rest of the
    /// frame is unchanged.
    pub fn paint_line(&mut self, y: usize, line: Vec<Rgb>)
        requires
            old(self).wf(),
            y < old(self).spec_height(),
            line@.len() <= old(self).spec_width(),
        ensures
            final(self).wf(),
            final(self).spec_width() == old(self).spec_width(),
            final(self).spec_height() == old(self).spec_height(),
            final(self)@ == painted_row(
                old(self)@,
                old(self).spec_width() as int,
                y as int,
                line@,
            ),
    {
        let ghost start = self@;
        let ghost w = self.width as int;
        proof {
            lemma_row_in_frame(self.width as int, self.height as int, y as int);
        }
        let mut x: usize = 0;
        assert(self@ =~= painted_row(start, w, y as int, line@.subrange(0, 0)));
        while x < line.len()
            invariant
                self.wf(),
                self.width as int == w,
                self.height == old(self).spec_height(),
                y < self.height,
                line@.len() <= w,
                x <= line@.len(),
                (y + 1) * w <= w * self.height,
                self@ == painted_row(start, w, y as int, line@.subrange(0, x as int)),
            decreases line@.len() - x,
        {
            proof {
                lemma_index_in_frame(self.width as int, self.height as int, x as int, y as int);
            }
            self.paint(x, y, line[x]);
            x = x + 1;
            assert(self@ =~= painted_row(start, w, y as int, line@.subrange(0, x as int)));
        }
        assert(line@.subrange(0, x as int) =~= line@);
    }
}

} // verus!
