//! Render settings and the layout of the rendered image in memory.
use vstd::prelude::*;

verus! {

/// Settings of a path-traced render.
#[derive(Clone)]
pub struct Config {
    /// Image width in pixels.
    pub width: usize,
    /// Image height in pixels.
    pub height: usize,
    /// Camera paths traced per pixel.
    pub samples: usize,
    /// Maximum number of surface interactions per path.
    pub bounces: usize,
}

impl Config {
    /// The image holds `width * height` pixels, and that number fits in a `usize`.
    pub open spec fn image_fits(self) -> bool {
        self.width * self.height <= usize::MAX
    }

    /// The row-major position of pixel `(x, y)`: rows are stored one after another.
    pub open spec fn spec_offset(self, x: int, y: int) -> int {
        y * self.width + x
    }

    /// The number of pixels of the image.
    pub fn pixel_count(&self) -> (r: usize)
        requires
            self.image_fits(),
        ensures
            r == self.width * self.height,
    {
        self.width * self.height
    }

    /// The position of pixel `(x, y)` in the image buffer.
    pub fn pixel_offset(&self, x: usize, y: usize) -> (r: usize)
        requires
            self.image_fits(),
            x < self.width,
            y < self.height,
        ensures
            r == self.spec_offset(x as int, y as int),
            r < self.width * self.height,
    {
        proof {
            lemma_offset_in_image(self.width as int, self.height as int, x as int, y as int);
        }
        y * self.width + x
    }
}

/// Where a render stands when the viewer polls it.
#[derive(Clone, Copy, Debug, PartialEq, Eq, Structural)]
pub enum RenderStatus {
    /// Its worker is still tracing paths.
    Running,
    /// Its worker has finished, and its image waits to be collected.
    Finished,
    /// Its image has been collected.
    Done,
}

/// What one poll of the renders does: the renders whose images are collected now, and whether
/// another frame must be drawn to poll again.
pub struct PollActions {
    /// Positions of the finished renders, in increasing order.
    pub collect: Vec<usize>,
    /// Some render is still running.
    pub repaint: bool,
}

/// Decides one poll of the renders: every finished render is collected, in order, and another
/// frame is asked for while any render is still running.
pub fn poll(statuses: &[RenderStatus]) -> (r: PollActions)
    ensures
        forall|j: int, k: int| 0 <= j < k < r.collect@.len() ==> r.collect@[j] < r.collect@[k],
        forall|k: int|
            0 <= k < r.collect@.len() ==> #[trigger] r.collect@[k] < statuses@.len()
                && statuses@[r.collect@[k] as int] == RenderStatus::Finished,
        forall|i: int|
            0 <= i < statuses@.len() && statuses@[i] == RenderStatus::Finished
                ==> #[trigger] r.collect@.contains(i as usize),
        r.repaint <==> exists|i: int|
            0 <= i < statuses@.len() && #[trigger] statuses@[i] == RenderStatus::Running,
{
    let mut collect: Vec<usize> = Vec::new();
    let mut repaint = false;
    let mut i: usize = 0;
    while i < statuses.len()
        invariant
            i <= statuses@.len(),
            forall|j: int, k: int| 0 <= j < k < collect@.len() ==> collect@[j] < collect@[k],
            forall|k: int|
                0 <= k < collect@.len() ==> #[trigger] collect@[k] < i && statuses@[collect@[k] as int]
                    == RenderStatus::Finished,
            forall|j: int|
                0 <= j < i && statuses@[j] == RenderStatus::Finished
                    ==> #[trigger] collect@.contains(j as usize),
            repaint <==> exists|j: int| 0 <= j < i && #[trigger] statuses@[j] == RenderStatus::Running,
        decreases statuses.len() - i,
    {
        let ghost before = collect@;
        match statuses[i] {
            RenderStatus::Running => {
                repaint = true;
            },
            RenderStatus::Finished => {
                collect.push(i);
                proof {
                    assert(collect@[before.len() as int] == i);
                    assert forall|j: int|
                        0 <= j < i + 1 && statuses@[j] == RenderStatus::Finished
                            implies #[trigger] collect@.contains(j as usize) by {
                        if j < i {
                            assert(before.contains(j as usize));
                            let k = choose|k: int| 0 <= k < before.len() && before[k] == j as usize;
                            assert(collect@[k] == j as usize);
                        } else {
                            assert(collect@[before.len() as int] == j as usize);
                        }
                    }
                }
            },
            RenderStatus::Done => {},
        }
        i += 1;
    }
    PollActions { collect, repaint }
}

proof fn lemma_offset_in_image(w: int, h: int, x: int, y: int)
    by (nonlinear_arith)
    requires
        0 <= x < w,
        0 <= y < h,
    ensures
        0 <= y * w + x < w * h,
{
}

proof fn lemma_rows_apart(w: int, x1: int, y1: int, x2: int, y2: int)
    by (nonlinear_arith)
    requires
        0 <= x1 < w,
        0 <= x2 < w,
        0 <= y1 < y2,
    ensures
        y1 * w + x1 < y2 * w + x2,
{
}

/// Distinct pixels have distinct positions in the image buffer, so every pixel is written to
/// a place of its own.
pub proof fn lemma_offset_injective(c: Config, x1: int, y1: int, x2: int, y2: int)
    requires
        0 <= x1 < c.width,
        0 <= y1 < c.height,
        0 <= x2 < c.width,
        0 <= y2 < c.height,
        c.spec_offset(x1, y1) == c.spec_offset(x2, y2),
    ensures
        x1 == x2,
        y1 == y2,
{
    let w = c.width as int;
    if y1 < y2 {
        lemma_rows_apart(w, x1, y1, x2, y2);
    } else if y2 < y1 {
        lemma_rows_apart(w, x2, y2, x1, y1);
    }
}

/// Every position of the image buffer belongs to a pixel, so the pixels fill the buffer
/// without a gap.
pub proof fn lemma_offset_covers(c: Config, offset: int)
    requires
        0 <= offset < c.width * c.height,
    ensures
        exists|x: int, y: int|
            0 <= x < c.width && 0 <= y < c.height && #[trigger] c.spec_offset(x, y) == offset,
{
    let w = c.width as int;
    let h = c.height as int;
    assert(w > 0) by (nonlinear_arith)
        requires
            0 <= offset < w * h,
            h >= 0,
            w >= 0,
    ;
    let x = offset % w;
    let y = offset / w;
    assert(y * w + x == offset) by (nonlinear_arith)
        requires
            w > 0,
            x == offset % w,
            y == offset / w,
    ;
    assert(0 <= y < h) by (nonlinear_arith)
        requires
            w > 0,
            0 <= offset < w * h,
            y == offset / w,
    ;
    assert(c.spec_offset(x, y) == offset);
}

/// The buffer is filled in scan order: the next pixel of a row follows it directly, and the
/// first pixel of a row follows the last pixel of the row above.
pub proof fn lemma_scan_order(c: Config, x: int, y: int)
    requires
        0 <= x < c.width,
        0 <= y < c.height,
    ensures
        x + 1 < c.width ==> c.spec_offset(x + 1, y) == c.spec_offset(x, y) + 1,
        x + 1 == c.width ==> c.spec_offset(0, y + 1) == c.spec_offset(x, y) + 1,
{
    assert((y + 1) * c.width == y * c.width + c.width) by (nonlinear_arith);
}

} // verus!
