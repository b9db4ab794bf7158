use crate::camera::{half_pixel_point, Camera, WorldPoint};
use crate::canvas::{in_rect, paint_rect, Canvas, PixelPoint, BACKGROUND};
use crate::color::{channel, Color};
use vstd::arithmetic::div_mod::{
    lemma_div_denominator, lemma_fundamental_div_mod, lemma_fundamental_div_mod_converse,
    lemma_mod_pos_bound,
};
use vstd::prelude::*;

verus! {

/// How many blocks of one pass make up a side of a block of the pass before.
pub const REFINEMENT_FACTOR: u32 = 3;

/// The block size that a new scene starts from.
pub const DEFAULT_MAX_BLOCK_SIZE: u32 = 81;

/// The side of a new scene's viewport, in world units.
pub const DEFAULT_VIEWPORT_SIZE: u32 = 5;

/// A block size: a power of the refinement factor.
pub open spec fn is_block_size(n: nat) -> bool
    decreases n,
{
    if n == 1 {
        true
    } else if n < REFINEMENT_FACTOR || n % (REFINEMENT_FACTOR as nat) != 0 {
        false
    } else {
        is_block_size(n / (REFINEMENT_FACTOR as nat))
    }
}

/// The refinement factor to the power `k`.
pub open spec fn pow3(k: nat) -> nat
    decreases k,
{
    if k == 0 {
        1
    } else {
        (REFINEMENT_FACTOR as nat) * pow3((k - 1) as nat)
    }
}

/// The block size of the pass after a pass at block size `s`.
pub open spec fn next_block_size(s: nat) -> nat {
    if s > 1 {
        s / (REFINEMENT_FACTOR as nat)
    } else {
        s
    }
}

/// The number of blocks of size `s` that cover `n` pixels.
pub open spec fn blocks_across(n: nat, s: nat) -> nat {
    ((n + s - 1) / (s as int)) as nat
}

/// The column of the block of size `s` that pixel number `p` of a frame `w`
/// pixels wide lies in.
pub open spec fn block_x(w: nat, s: nat, p: int) -> int {
    (p % (w as int)) / (s as int)
}

/// The row of the block of size `s` that pixel number `p` lies in.
pub open spec fn block_y(w: nat, s: nat, p: int) -> int {
    (p / (w as int)) / (s as int)
}

/// Whether a pass at block size `s` leaves block `(bx, by)` as it is: below
/// the largest size, the middle block of each 3 × 3 group has the color that
/// the pass before sampled at the same point.
pub open spec fn block_skipped(s: nat, max: nat, bx: int, by: int) -> bool {
    &&& s != max
    &&& bx % (REFINEMENT_FACTOR as int) == 1
    &&& by % (REFINEMENT_FACTOR as int) == 1
}

/// The half-pixel coordinate of the center of block `b` of size `s`.
pub open spec fn block_center(s: nat, b: int) -> int {
    s * (2 * b + 1)
}

/// The world point that block `(bx, by)` of size `s` is sampled at.
pub open spec fn block_point(cam: Camera, w: nat, h: nat, s: nat, bx: int, by: int) -> WorldPoint {
    half_pixel_point(cam, w, h, block_center(s, bx), block_center(s, by))
}

/// The frame after one pass at block size `s`, where `colors(bx, by)` is the
/// color sampled for block `(bx, by)`: each pixel of a block that is not
/// skipped takes the block's color, alpha bytes are kept.
pub open spec fn pass_frame(
    frame: Seq<u8>,
    w: nat,
    s: nat,
    max: nat,
    colors: spec_fn(int, int) -> Color,
) -> Seq<u8> {
    Seq::new(
        frame.len(),
        |i: int|
            {
                let (bx, by) = (block_x(w, s, i / 4), block_y(w, s, i / 4));
                if i % 4 < 3 && !block_skipped(s, max, bx, by) {
                    channel(colors(bx, by), i % 4)
                } else {
                    frame[i]
                }
            },
    )
}

/// The frame part way through a pass: the blocks before block `(col, row)`
/// in row-major order have been painted.
spec fn pass_prefix(
    frame: Seq<u8>,
    w: nat,
    s: nat,
    max: nat,
    colors: spec_fn(int, int) -> Color,
    row: int,
    col: int,
) -> Seq<u8> {
    Seq::new(
        frame.len(),
        |i: int|
            {
                let (bx, by) = (block_x(w, s, i / 4), block_y(w, s, i / 4));
                if i % 4 < 3 && (by < row || (by == row && bx < col)) && !block_skipped(
                    s,
                    max,
                    bx,
                    by,
                ) {
                    channel(colors(bx, by), i % 4)
                } else {
                    frame[i]
                }
            },
    )
}

/// Pixel coordinate `a` lies in block `b` of size `s` exactly when it lies
/// between the block's first and last coordinates.
proof fn lemma_in_block(a: int, s: int, b: int)
    requires
        0 <= a,
        0 < s,
        0 <= b,
    ensures
        (b * s <= a <= b * s + s - 1) == (a / s == b),
{
    lemma_fundamental_div_mod(a, s);
    lemma_mod_pos_bound(a, s);
    if b * s <= a <= b * s + s - 1 {
        lemma_fundamental_div_mod_converse(a, s, b, a - b * s);
    }
    if a / s == b {
        assert(b * s <= a <= b * s + s - 1) by (nonlinear_arith)
            requires
                a == s * (a / s) + a % s,
                0 <= a % s < s,
                a / s == b,
        ;
    }
}

/// Every pixel coordinate below `n` lies in one of the blocks of size `s` that
/// cover `n` pixels.
proof fn lemma_block_bounds(n: nat, s: nat, a: int)
    requires
        0 < s,
        0 <= a < n,
    ensures
        0 <= a / (s as int) < blocks_across(n, s),
{
    let si = s as int;
    lemma_fundamental_div_mod(a, si);
    lemma_mod_pos_bound(a, si);
    lemma_fundamental_div_mod(n + si - 1, si);
    lemma_mod_pos_bound(n + si - 1, si);
    let q = (n + si - 1) / si;
    assert(0 <= a / si < q) by (nonlinear_arith)
        requires
            a == si * (a / si) + a % si,
            0 <= a % si < si,
            n + si - 1 == si * q + (n + si - 1) % si,
            0 <= (n + si - 1) % si < si,
            0 <= a < n,
    ;
}

/// The first pixel coordinate of each block of size `s` that covers `n`
/// pixels lies below `n`.
proof fn lemma_block_starts(n: nat, s: nat)
    requires
        0 < s,
    ensures
        forall|b: int| 0 <= b < blocks_across(n, s) ==> #[trigger] (b * s) < n,
{
    let si = s as int;
    lemma_fundamental_div_mod(n + si - 1, si);
    lemma_mod_pos_bound(n + si - 1, si);
    let q = (n + si - 1) / si;
    assert forall|b: int| 0 <= b < blocks_across(n, s) implies #[trigger] (b * s) < n by {
        assert(b * s < n) by (nonlinear_arith)
            requires
                n + si - 1 == si * q + (n + si - 1) % si,
                0 <= (n + si - 1) % si < si,
                0 <= b < q,
                s == si,
        ;
    }
}

/// The world point at the center of a block of size `s`, where a block one
/// size larger has its center too when the block is its middle block.
proof fn lemma_middle_block_center(a: int, s: int)
    requires
        0 <= a,
        0 < s,
        (a / s) % 3 == 1,
    ensures
        (3 * s) * (2 * (a / (3 * s)) + 1) == s * (2 * (a / s) + 1),
{
    lemma_div_denominator(a, s, 3);
    let b = a / s;
    lemma_fundamental_div_mod(b, 3);
    assert((3 * s) * (2 * (b / 3) + 1) == s * (2 * b + 1)) by (nonlinear_arith)
        requires
            b == 3 * (b / 3) + b % 3,
            b % 3 == 1,
    ;
}

/// The block size that a scene was asked to start from is not a power of the
/// refinement factor.
#[derive(Clone, Copy, Debug, PartialEq, Eq, Structural)]
pub struct InvalidBlockSize {
    pub size: u32,
}

/// Whether `n` is a power of the refinement factor.
fn check_block_size(n: u32) -> (r: bool)
    ensures
        r == is_block_size(n as nat),
{
    let mut m = n;
    while m > 1 && m % REFINEMENT_FACTOR == 0
        invariant
            is_block_size(m as nat) == is_block_size(n as nat),
        decreases m,
    {
        m = m / REFINEMENT_FACTOR;
    }
    m == 1
}

/// The frame after passes at block sizes `3^k, 3^(k-1), ..., 3^j` of a scene
/// whose largest block size is `3^k`, where `colors(l, bx, by)` is the color
/// sampled for block `(bx, by)` in the pass at size `3^l`.
pub open spec fn refine(
    frame: Seq<u8>,
    w: nat,
    k: nat,
    j: nat,
    colors: spec_fn(nat, int, int) -> Color,
) -> Seq<u8>
    decreases k - j,
{
    if j >= k {
        pass_frame(frame, w, pow3(k), pow3(k), |bx: int, by: int| colors(k, bx, by))
    } else {
        pass_frame(
            refine(frame, w, k, j + 1, colors),
            w,
            pow3(j),
            pow3(k),
            |bx: int, by: int| colors(j, bx, by),
        )
    }
}

/// Whether each pass from size `3^k` down to `3^j` samples every block that it
/// paints through `f`, at the block's center in half-pixel coordinates.
pub open spec fn samples_through(
    w: nat,
    h: nat,
    k: nat,
    j: nat,
    colors: spec_fn(nat, int, int) -> Color,
    f: spec_fn(int, int) -> Color,
) -> bool {
    forall|l: nat, bx: int, by: int|
        j <= l <= k && 0 <= bx < blocks_across(w, pow3(l)) && 0 <= by < blocks_across(h, pow3(l))
            && !block_skipped(pow3(l), pow3(k), bx, by) ==> #[trigger] colors(l, bx, by) == f(
            block_center(pow3(l), bx),
            block_center(pow3(l), by),
        )
}

proof fn lemma_pow3_grows(j: nat, k: nat)
    ensures
        0 < pow3(j),
        j < k ==> pow3(j) < pow3(k),
        pow3(j + 1) == 3 * pow3(j),
    decreases k + j,
{
    reveal_with_fuel(pow3, 2);
    if j > 0 {
        lemma_pow3_grows((j - 1) as nat, 0);
    }
    if k > 0 && j < k {
        lemma_pow3_grows(j, (k - 1) as nat);
    }
}

proof fn lemma_refine_len(
    frame: Seq<u8>,
    w: nat,
    k: nat,
    j: nat,
    colors: spec_fn(nat, int, int) -> Color,
)
    ensures
        refine(frame, w, k, j, colors).len() == frame.len(),
    decreases k - j,
{
    if j < k {
        lemma_refine_len(frame, w, k, j + 1, colors);
    }
}

/// The block sizes are exactly the powers of the refinement factor, and the
/// pass after one at size `3^(k+1)` runs at size `3^k`: from a largest size
/// `3^k`, the scheduler's passes run at `3^k, 3^(k-1), ..., 1`, as `refine`
/// describes.
pub proof fn lemma_block_sizes(n: nat, k: nat)
    ensures
        is_block_size(pow3(k)),
        next_block_size(pow3(k + 1)) == pow3(k),
        next_block_size(pow3(0)) == pow3(0),
        is_block_size(n) ==> exists|j: nat| pow3(j) == n,
    decreases n + k,
{
    lemma_pow3_grows(k, 0);
    reveal_with_fuel(pow3, 2);
    if k > 0 {
        lemma_block_sizes(0, (k - 1) as nat);
        lemma_pow3_grows((k - 1) as nat, 0);
        assert(pow3(k) / 3 == pow3((k - 1) as nat));
    }
    if is_block_size(n) && n > 1 {
        lemma_block_sizes(n / 3, 0);
        let j = choose|j: nat| pow3(j) == n / 3;
        lemma_pow3_grows(j, 0);
        assert(pow3(j + 1) == n);
    }
    if n == 1 {
        assert(pow3(0) == n);
    }
}

/// After the passes from size `3^k` down to `3^j`, each pixel has the color
/// sampled at the center of its block of size `3^j`.
proof fn lemma_refine_levels(
    frame: Seq<u8>,
    w: nat,
    h: nat,
    k: nat,
    j: nat,
    colors: spec_fn(nat, int, int) -> Color,
    f: spec_fn(int, int) -> Color,
)
    requires
        0 < w,
        frame.len() == w * h * 4,
        j <= k,
        samples_through(w, h, k, j, colors, f),
    ensures
        forall|i: int|
            0 <= i < frame.len() ==> #[trigger] refine(frame, w, k, j, colors)[i] == if i % 4 < 3 {
                channel(
                    f(
                        block_center(pow3(j), block_x(w, pow3(j), i / 4)),
                        block_center(pow3(j), block_y(w, pow3(j), i / 4)),
                    ),
                    i % 4,
                )
            } else {
                frame[i]
            },
    decreases k - j,
{
    lemma_pow3_grows(j, k);
    lemma_refine_len(frame, w, k, j, colors);
    let s = pow3(j);
    if j < k {
        lemma_refine_levels(frame, w, h, k, j + 1, colors, f);
    }
    assert forall|i: int| 0 <= i < frame.len() implies #[trigger] refine(frame, w, k, j, colors)[i]
        == if i % 4 < 3 {
        channel(
            f(block_center(s, block_x(w, s, i / 4)), block_center(s, block_y(w, s, i / 4))),
            i % 4,
        )
    } else {
        frame[i]
    } by {
        let p = i / 4;
        lemma_fundamental_div_mod(p, w as int);
        lemma_mod_pos_bound(p, w as int);
        assert(p / (w as int) < h) by (nonlinear_arith)
            requires
                p == w * (p / (w as int)) + p % (w as int),
                0 <= p % (w as int),
                0 <= i < w * h * 4,
                p == i / 4,
        ;
        lemma_block_bounds(w, s, p % (w as int));
        lemma_block_bounds(h, s, p / (w as int));
        let bx = block_x(w, s, p);
        let by = block_y(w, s, p);
        assert(colors(j, bx, by) == f(block_center(s, bx), block_center(s, by))
            || block_skipped(s, pow3(k), bx, by));
        if j < k && block_skipped(s, pow3(k), bx, by) {
            lemma_middle_block_center(p % (w as int), s as int);
            lemma_middle_block_center(p / (w as int), s as int);
            let s3 = pow3(j + 1);
            assert(block_center(s3, block_x(w, s3, p)) == block_center(s, bx));
            assert(block_center(s3, block_y(w, s3, p)) == block_center(s, by));
            assert(refine(frame, w, k, j, colors)[i] == refine(frame, w, k, j + 1, colors)[i]);
        } else if j < k {
            assert(!block_skipped(s, pow3(k), bx, by));
            if i % 4 < 3 {
                assert(refine(frame, w, k, j, colors)[i] == channel(colors(j, bx, by), i % 4));
            } else {
                assert(refine(frame, w, k, j, colors)[i] == refine(frame, w, k, j + 1, colors)[i]);
            }
        } else {
            assert(refine(frame, w, k, j, colors) == pass_frame(
                frame,
                w,
                pow3(k),
                pow3(k),
                |bx: int, by: int| colors(k, bx, by),
            ));
        }
    }
}

/// Running the passes from the largest block size `3^k` down to 1, each of
/// which samples the blocks it paints through the same shading `f`, leaves
/// the frame that one pass at block size 1 with nothing skipped leaves.
pub proof fn lemma_refinement_converges(
    frame: Seq<u8>,
    w: nat,
    h: nat,
    k: nat,
    colors: spec_fn(nat, int, int) -> Color,
    f: spec_fn(int, int) -> Color,
)
    requires
        0 < w,
        frame.len() == w * h * 4,
        samples_through(w, h, k, 0, colors, f),
    ensures
        refine(frame, w, k, 0, colors) == pass_frame(
            frame,
            w,
            1,
            1,
            |bx: int, by: int| f(block_center(1, bx), block_center(1, by)),
        ),
{
    lemma_refine_levels(frame, w, h, k, 0, colors, f);
    lemma_refine_len(frame, w, k, 0, colors);
    assert(pow3(0) == 1);
    assert(refine(frame, w, k, 0, colors) =~= pass_frame(
        frame,
        w,
        1,
        1,
        |bx: int, by: int| f(block_center(1, bx), block_center(1, by)),
    ));
}

/// Running a pass again on the frame that it left, with the same block sizes
/// and the same colors for the blocks it paints, changes nothing.
pub proof fn lemma_pass_idempotent(
    frame: Seq<u8>,
    w: nat,
    h: nat,
    s: nat,
    max: nat,
    colors: spec_fn(int, int) -> Color,
    again: spec_fn(int, int) -> Color,
)
    requires
        0 < w,
        0 < s,
        frame.len() == w * h * 4,
        forall|bx: int, by: int|
            0 <= bx < blocks_across(w, s) && 0 <= by < blocks_across(h, s) && !block_skipped(
                s,
                max,
                bx,
                by,
            ) ==> #[trigger] again(bx, by) == colors(bx, by),
    ensures
        pass_frame(pass_frame(frame, w, s, max, colors), w, s, max, again) == pass_frame(
            frame,
            w,
            s,
            max,
            colors,
        ),
{
    assert forall|i: int| 0 <= i < frame.len() implies #[trigger] pass_frame(
        pass_frame(frame, w, s, max, colors),
        w,
        s,
        max,
        again,
    )[i] == pass_frame(frame, w, s, max, colors)[i] by {
        let p = i / 4;
        lemma_fundamental_div_mod(p, w as int);
        lemma_mod_pos_bound(p, w as int);
        assert(p / (w as int) < h) by (nonlinear_arith)
            requires
                p == w * (p / (w as int)) + p % (w as int),
                0 <= p % (w as int),
                0 <= i < w * h * 4,
                p == i / 4,
        ;
        lemma_block_bounds(w, s, p % (w as int));
        lemma_block_bounds(h, s, p / (w as int));
    }
    assert(pass_frame(pass_frame(frame, w, s, max, colors), w, s, max, again) =~= pass_frame(
        frame,
        w,
        s,
        max,
        colors,
    ));
}

/// A scene: a camera, a frame, and the block sizes of the progressive render.
pub struct Scene {
    camera: Camera,
    pub canvas: Canvas,
    cur_block_size: u32,
    max_block_size: u32,
}

impl Scene {
    pub closed spec fn camera(&self) -> Camera {
        self.camera
    }

    /// The block size of the next pass.
    pub closed spec fn cur_size(&self) -> nat {
        self.cur_block_size as nat
    }

    /// The block size that the first pass after a change paints at.
    pub closed spec fn max_size(&self) -> nat {
        self.max_block_size as nat
    }

    pub closed spec fn canvas(&self) -> Canvas {
        self.canvas
    }

    pub open spec fn wf(&self) -> bool {
        &&& self.canvas().wf()
        &&& is_block_size(self.cur_size())
        &&& is_block_size(self.max_size())
        &&& self.cur_size() <= self.max_size()
    }

    /// A scene of a `width × height` frame, all background, whose first pass
    /// paints at the default largest block size.
    pub fn new(width: u32, height: u32) -> (r: Scene)
        requires
            width * height * 4 <= usize::MAX,
        ensures
            r.wf(),
            r.camera().viewport_width == DEFAULT_VIEWPORT_SIZE,
            r.camera().viewport_height == DEFAULT_VIEWPORT_SIZE,
            r.camera().center_z == crate::camera::CAMERA_CENTER_Z,
            r.canvas().width() == width,
            r.canvas().height() == height,
            r.canvas().bytes() == Seq::new((width * height * 4) as nat, |i: int| BACKGROUND),
            r.max_size() == DEFAULT_MAX_BLOCK_SIZE,
            r.cur_size() == DEFAULT_MAX_BLOCK_SIZE,
    {
        proof {
            reveal_with_fuel(is_block_size, 5);
        }
        Scene {
            camera: Camera::new(DEFAULT_VIEWPORT_SIZE, DEFAULT_VIEWPORT_SIZE),
            canvas: Canvas::new(width, height),
            cur_block_size: DEFAULT_MAX_BLOCK_SIZE,
            max_block_size: DEFAULT_MAX_BLOCK_SIZE,
        }
    }

    /// The camera that the scene is viewed through.
    pub fn camera_ref(&self) -> (r: &Camera)
        ensures
            *r == self.camera(),
    {
        &self.camera
    }

    /// The block size of the next pass.
    pub fn block_size(&self) -> (r: u32)
        ensures
            r == self.cur_size(),
    {
        self.cur_block_size
    }

    /// The block size of the first pass after a change.
    pub fn max_block_size(&self) -> (r: u32)
        ensures
            r == self.max_size(),
    {
        self.max_block_size
    }

    /// Discards the refinement made so far: the next pass paints at the
    /// largest block size. Called on every change of what the scene shows.
    pub fn reset_blocks_size(&mut self)
        requires
            old(self).wf(),
        ensures
            final(self).wf(),
            final(self).cur_size() == old(self).max_size(),
            final(self).max_size() == old(self).max_size(),
            final(self).camera() == old(self).camera(),
            final(self).canvas() == old(self).canvas(),
    {
        self.cur_block_size = self.max_block_size;
    }

    /// Gives the frame new dimensions (see `Canvas::resize`) and restarts the
    /// refinement.
    pub fn resize(&mut self, width: u32, height: u32)
        requires
            old(self).wf(),
            width * height * 4 <= usize::MAX,
        ensures
            final(self).wf(),
            final(self).cur_size() == old(self).max_size(),
            final(self).max_size() == old(self).max_size(),
            final(self).camera() == old(self).camera(),
            final(self).canvas().width() == width,
            final(self).canvas().height() == height,
            final(self).canvas().bytes() == Seq::new(
                (width * height * 4) as nat,
                |i: int|
                    if i < old(self).canvas().bytes().len() {
                        old(self).canvas().bytes()[i]
                    } else {
                        BACKGROUND
                    },
            ),
    {
        self.canvas.resize(width, height);
        self.reset_blocks_size();
    }

    /// Sets the largest block size and restarts the refinement from it. A size
    /// that is not a power of the refinement factor is refused and changes
    /// nothing.
    pub fn set_max_block_size(&mut self, size: u32) -> (r: Result<(), InvalidBlockSize>)
        requires
            old(self).wf(),
        ensures
            final(self).wf(),
            final(self).camera() == old(self).camera(),
            final(self).canvas() == old(self).canvas(),
            r is Ok <==> is_block_size(size as nat),
            r is Ok ==> final(self).max_size() == size && final(self).cur_size() == size,
            r is Err ==> r == Err::<(), _>(InvalidBlockSize { size }) && *final(self) == *old(self),
    {
        if !check_block_size(size) {
            return Err(InvalidBlockSize { size });
        }
        self.max_block_size = size;
        self.cur_block_size = size;
        Ok(())
    }

    /// Runs one pass of the progressive render. The frame is cut into square
    /// blocks of the current block size, row by row (the last row and column
    /// of blocks may be cut off by the frame's edge). Each block that is not
    /// skipped is sampled once, at its center, through `shade`, and filled with
    /// the color that comes back. The block size then shrinks by the refinement
    /// factor, down to 1.
    pub fn update<F: Fn(WorldPoint) -> Color>(&mut self, shade: F)
        requires
            old(self).wf(),
            forall|p: WorldPoint| shade.requires((p,)),
        ensures
            final(self).wf(),
            final(self).camera() == old(self).camera(),
            final(self).canvas().width() == old(self).canvas().width(),
            final(self).canvas().height() == old(self).canvas().height(),
            final(self).max_size() == old(self).max_size(),
            final(self).cur_size() == next_block_size(old(self).cur_size()),
            exists|colors: spec_fn(int, int) -> Color|
                {
                    &&& forall|bx: int, by: int|
                        0 <= bx < blocks_across(old(self).canvas().width(), old(self).cur_size())
                            && 0 <= by < blocks_across(
                            old(self).canvas().height(),
                            old(self).cur_size(),
                        ) && !block_skipped(old(self).cur_size(), old(self).max_size(), bx, by)
                            ==> shade.ensures(
                            (
                                block_point(
                                    old(self).camera(),
                                    old(self).canvas().width(),
                                    old(self).canvas().height(),
                                    old(self).cur_size(),
                                    bx,
                                    by,
                                ),
                            ),
                            #[trigger] colors(bx, by),
                        )
                    &&& final(self).canvas().bytes() == pass_frame(
                        old(self).canvas().bytes(),
                        old(self).canvas().width(),
                        old(self).cur_size(),
                        old(self).max_size(),
                        colors,
                    )
                },
    {
        let s = self.cur_block_size;
        let max = self.max_block_size;
        let w = self.canvas.get_width();
        let h = self.canvas.get_height();
        let ghost start = self.canvas.bytes();
        let ghost cam = self.camera;
        let ghost mut colors: spec_fn(int, int) -> Color = |bx: int, by: int|
            Color { r: 0, g: 0, b: 0 };
        proof {
            reveal(is_block_size);
        }
        let points_x: u64 = (w as u64 + s as u64 - 1) / s as u64;
        let points_y: u64 = (h as u64 + s as u64 - 1) / s as u64;
        assert(pass_prefix(start, w as nat, s as nat, max as nat, colors, 0, 0) =~= start);
        let mut row: u64 = 0;
        while row < points_y
            invariant
                self.canvas.wf(),
                self.canvas.width() == w,
                self.canvas.height() == h,
                self.camera == cam,
                self.cur_block_size == s,
                self.max_block_size == max,
                0 < s,
                points_x == blocks_across(w as nat, s as nat),
                points_y == blocks_across(h as nat, s as nat),
                row <= points_y,
                forall|p: WorldPoint| shade.requires((p,)),
                forall|bx: int, by: int|
                    0 <= bx < points_x && 0 <= by < row && !block_skipped(
                        s as nat,
                        max as nat,
                        bx,
                        by,
                    ) ==> shade.ensures(
                        (block_point(cam, w as nat, h as nat, s as nat, bx, by),),
                        #[trigger] colors(bx, by),
                    ),
                self.canvas.bytes() == pass_prefix(
                    start,
                    w as nat,
                    s as nat,
                    max as nat,
                    colors,
                    row as int,
                    0,
                ),
            decreases points_y - row,
        {
            let mut column: u64 = 0;
            while column < points_x
                invariant
                    self.canvas.wf(),
                    self.canvas.width() == w,
                    self.canvas.height() == h,
                    self.camera == cam,
                    self.cur_block_size == s,
                    self.max_block_size == max,
                    0 < s,
                    points_x == blocks_across(w as nat, s as nat),
                    points_y == blocks_across(h as nat, s as nat),
                    row < points_y,
                    column <= points_x,
                    forall|p: WorldPoint| shade.requires((p,)),
                    forall|bx: int, by: int|
                        0 <= bx < points_x && 0 <= by < points_y && (by < row || (by == row && bx
                            < column)) && !block_skipped(s as nat, max as nat, bx, by)
                            ==> shade.ensures(
                            (block_point(cam, w as nat, h as nat, s as nat, bx, by),),
                            #[trigger] colors(bx, by),
                        ),
                    self.canvas.bytes() == pass_prefix(
                        start,
                        w as nat,
                        s as nat,
                        max as nat,
                        colors,
                        row as int,
                        column as int,
                    ),
                decreases points_x - column,
            {
                let skipped = s != max && row % REFINEMENT_FACTOR as u64 == 1 && column
                    % REFINEMENT_FACTOR as u64 == 1;
                if !skipped {
                    proof {
                        lemma_block_starts(w as nat, s as nat);
                        lemma_block_starts(h as nat, s as nat);
                        assert(column * s < w);
                        assert(row * s < h);
                    }
                    let x0: u64 = column * s as u64;
                    let y0: u64 = row * s as u64;
                    let hx: u64 = 2 * x0 + s as u64;
                    let hy: u64 = 2 * y0 + s as u64;
                    let point = self.camera.point_at(w, h, hx, hy);
                    assert(point == block_point(cam, w as nat, h as nat, s as nat, column as int, row as int)) by {
                        assert(hx == s * (2 * column + 1)) by (nonlinear_arith)
                            requires
                                x0 == column * s,
                                hx == 2 * x0 + s,
                        ;
                        assert(hy == s * (2 * row + 1)) by (nonlinear_arith)
                            requires
                                y0 == row * s,
                                hy == 2 * y0 + s,
                        ;
                    }
                    let color = shade(point);
                    let x1: u64 = if x0 + s as u64 - 1 < w as u64 - 1 {
                        x0 + s as u64 - 1
                    } else {
                        w as u64 - 1
                    };
                    let y1: u64 = if y0 + s as u64 - 1 < h as u64 - 1 {
                        y0 + s as u64 - 1
                    } else {
                        h as u64 - 1
                    };
                    let ghost before = self.canvas.bytes();
                    let ghost old_colors = colors;
                    self.canvas.draw_rectangle(
                        PixelPoint { x: x0 as u32, y: y0 as u32 },
                        PixelPoint { x: x1 as u32, y: y1 as u32 },
                        color,
                    );
                    proof {
                        colors = |bx: int, by: int|
                            if bx == column && by == row {
                                color
                            } else {
                                old_colors(bx, by)
                            };
                        assert forall|i: int| 0 <= i < start.len() implies #[trigger] self.canvas.bytes()[i]
                            == pass_prefix(
                            start,
                            w as nat,
                            s as nat,
                            max as nat,
                            colors,
                            row as int,
                            column + 1,
                        )[i] by {
                            let p = i / 4;
                            lemma_fundamental_div_mod(p, w as int);
                            lemma_mod_pos_bound(p, w as int);
                            assert(p / (w as int) < h) by (nonlinear_arith)
                                requires
                                    p == w * (p / (w as int)) + p % (w as int),
                                    0 <= p % (w as int),
                                    0 <= i < w * h * 4,
                                    p == i / 4,
                            ;
                            lemma_in_block(p % (w as int), s as int, column as int);
                            lemma_in_block(p / (w as int), s as int, row as int);
                            assert(in_rect(w as nat, p, x0 as int, y0 as int, x1 as int, y1 as int)
                                == (block_x(w as nat, s as nat, p) == column && block_y(
                                w as nat,
                                s as nat,
                                p,
                            ) == row));
                        }
                        assert(self.canvas.bytes() =~= pass_prefix(
                            start,
                            w as nat,
                            s as nat,
                            max as nat,
                            colors,
                            row as int,
                            column + 1,
                        ));
                    }
                } else {
                    assert(self.canvas.bytes() =~= pass_prefix(
                        start,
                        w as nat,
                        s as nat,
                        max as nat,
                        colors,
                        row as int,
                        column + 1,
                    ));
                }
                column = column + 1;
            }
            proof {
                assert forall|i: int| 0 <= i < start.len() implies #[trigger] self.canvas.bytes()[i]
                    == pass_prefix(
                    start,
                    w as nat,
                    s as nat,
                    max as nat,
                    colors,
                    row + 1,
                    0,
                )[i] by {
                    let p = i / 4;
                    lemma_mod_pos_bound(p, w as int);
                    lemma_block_bounds(w as nat, s as nat, p % (w as int));
                }
                assert(self.canvas.bytes() =~= pass_prefix(
                    start,
                    w as nat,
                    s as nat,
                    max as nat,
                    colors,
                    row + 1,
                    0,
                ));
            }
            row = row + 1;
        }
        proof {
            assert forall|i: int| 0 <= i < start.len() implies #[trigger] self.canvas.bytes()[i]
                == pass_frame(start, w as nat, s as nat, max as nat, colors)[i] by {
                let p = i / 4;
                lemma_fundamental_div_mod(p, w as int);
                lemma_mod_pos_bound(p, w as int);
                assert(p / (w as int) < h) by (nonlinear_arith)
                    requires
                        p == w * (p / (w as int)) + p % (w as int),
                        0 <= p % (w as int),
                        0 <= i < w * h * 4,
                        p == i / 4,
                ;
                lemma_block_bounds(h as nat, s as nat, p / (w as int));
            }
            assert(self.canvas.bytes() =~= pass_frame(start, w as nat, s as nat, max as nat, colors));
        }
        if self.cur_block_size > 1 {
            self.cur_block_size = self.cur_block_size / REFINEMENT_FACTOR;
        }
    }
}

} // verus!
