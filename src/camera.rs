use vstd::arithmetic::div_mod::{lemma_fundamental_div_mod, lemma_fundamental_div_mod_converse};
use vstd::prelude::*;

verus! {

/// Depth of the plane from which all rays are cast.
pub const CAMERA_CENTER_Z: i64 = -20;

/// The exact rational number `num / den`.
#[derive(Clone, Copy, Debug, PartialEq, Eq, Structural)]
pub struct Ratio {
    pub num: i128,
    pub den: u64,
}

/// A point in world space; `x` and `y` are exact, `z` is a whole depth.
#[derive(Clone, Copy, Debug, PartialEq, Eq, Structural)]
pub struct WorldPoint {
    pub x: Ratio,
    pub y: Ratio,
    pub z: i64,
}

/// An orthographic camera: a viewport of whole world units, centered on the
/// view axis at depth `center_z`, looking along `+z`.
#[derive(Clone, Copy, Debug, PartialEq, Eq, Structural)]
pub struct Camera {
    pub viewport_width: u32,
    pub viewport_height: u32,
    pub center_z: i64,
}

/// The world point at half-pixel coordinates `(hx, hy)` of a `w × h` image laid
/// over the viewport. `hx` runs from 0 at the left edge to `2w` at the right
/// edge, `hy` from 0 at the top edge to `2h` at the bottom edge, so the center
/// of pixel `(i, j)` is at `(2i + 1, 2j + 1)`.
pub open spec fn half_pixel_point(cam: Camera, w: nat, h: nat, hx: int, hy: int) -> WorldPoint {
    WorldPoint {
        x: Ratio { num: (cam.viewport_width * (hx - w)) as i128, den: (2 * w) as u64 },
        y: Ratio { num: (cam.viewport_height * (h - hy)) as i128, den: (2 * h) as u64 },
        z: cam.center_z,
    }
}

/// The `k`-th sample of a `w × h` image in row-major order: the center of
/// pixel `(k % w, k / w)`.
pub open spec fn grid_point(cam: Camera, w: nat, h: nat, k: int) -> WorldPoint {
    half_pixel_point(cam, w, h, 2 * (k % (w as int)) + 1, 2 * (k / (w as int)) + 1)
}

/// All samples of a `w × h` image, row by row from the top, left to right.
pub open spec fn grid_points(cam: Camera, w: nat, h: nat) -> Seq<WorldPoint> {
    Seq::new(w * h, |k: int| grid_point(cam, w, h, k))
}

impl Camera {
    pub fn new(viewport_width: u32, viewport_height: u32) -> (c: Camera)
        ensures
            c.viewport_width == viewport_width,
            c.viewport_height == viewport_height,
            c.center_z == CAMERA_CENTER_Z,
    {
        Camera { viewport_width, viewport_height, center_z: CAMERA_CENTER_Z }
    }

    /// The upper-left corner of the viewport.
    pub fn upper_left_corner(&self) -> (p: WorldPoint)
        ensures
            p.x == (Ratio { num: (-self.viewport_width) as i128, den: 2 }),
            p.y == (Ratio { num: self.viewport_height as i128, den: 2 }),
            p.z == self.center_z,
    {
        WorldPoint {
            x: Ratio { num: -(self.viewport_width as i128), den: 2 },
            y: Ratio { num: self.viewport_height as i128, den: 2 },
            z: self.center_z,
        }
    }

    /// The world point at half-pixel coordinates `(hx, hy)` of a `w × h` image.
    pub fn point_at(&self, w: u32, h: u32, hx: u64, hy: u64) -> (p: WorldPoint)
        requires
            0 < w,
            0 < h,
            hx <= 4 * u32::MAX,
            hy <= 4 * u32::MAX,
        ensures
            p == half_pixel_point(*self, w as nat, h as nat, hx as int, hy as int),
    {
        let vw = self.viewport_width as i128;
        let vh = self.viewport_height as i128;
        let dx = hx as i128 - w as i128;
        let dy = h as i128 - hy as i128;
        assert(-0x1_0000_0000_0000_0000_0000 <= vw * dx <= 0x1_0000_0000_0000_0000_0000) by (nonlinear_arith)
            requires
                0 <= vw <= u32::MAX,
                -(u32::MAX as int) <= dx <= 4 * u32::MAX,
        ;
        assert(-0x1_0000_0000_0000_0000_0000 <= vh * dy <= 0x1_0000_0000_0000_0000_0000) by (nonlinear_arith)
            requires
                0 <= vh <= u32::MAX,
                -4 * u32::MAX <= dy <= u32::MAX,
        ;
        WorldPoint {
            x: Ratio { num: vw * dx, den: 2 * (w as u64) },
            y: Ratio { num: vh * dy, den: 2 * (h as u64) },
            z: self.center_z,
        }
    }

    /// A fresh sequence of the sample points of an `img_width × img_height` image.
    pub fn get_points_iterator(&self, img_width: u32, img_height: u32) -> (it: PointsIter)
        ensures
            it.wf(),
            it.points() == grid_points(*self, img_width as nat, img_height as nat),
            it.pos() == 0,
    {
        PointsIter::new(self, img_width, img_height)
    }
}

/// The sample points of one image, handed out one at a time.
pub struct PointsIter {
    camera: Camera,
    cur_x: u32,
    cur_y: u32,
    img_width: u32,
    img_height: u32,
}

impl PointsIter {
    pub closed spec fn camera(&self) -> Camera {
        self.camera
    }

    pub closed spec fn width(&self) -> nat {
        self.img_width as nat
    }

    pub closed spec fn height(&self) -> nat {
        self.img_height as nat
    }

    /// How many points have been handed out.
    pub closed spec fn pos(&self) -> nat {
        (self.cur_y * self.img_width + self.cur_x) as nat
    }

    /// Every point, in the order in which they are handed out.
    pub open spec fn points(&self) -> Seq<WorldPoint> {
        grid_points(self.camera(), self.width(), self.height())
    }

    pub closed spec fn wf(&self) -> bool {
        if self.img_width == 0 || self.img_height == 0 {
            self.cur_x == 0 && self.cur_y == 0
        } else {
            &&& self.cur_x < self.img_width
            &&& self.cur_y <= self.img_height
            &&& self.cur_y == self.img_height ==> self.cur_x == 0
        }
    }

    fn new(camera: &Camera, img_width: u32, img_height: u32) -> (it: PointsIter)
        ensures
            it.wf(),
            it.camera() == *camera,
            it.width() == img_width,
            it.height() == img_height,
            it.pos() == 0,
    {
        PointsIter { camera: *camera, cur_x: 0, cur_y: 0, img_width, img_height }
    }

    /// The next point, or `None` once all `width · height` points are out.
    pub fn next(&mut self) -> (r: Option<WorldPoint>)
        requires
            old(self).wf(),
        ensures
            final(self).wf(),
            final(self).points() == old(self).points(),
            old(self).pos() <= old(self).points().len(),
            old(self).pos() < old(self).points().len() ==> r == Some(
                old(self).points()[old(self).pos() as int],
            ),
            old(self).pos() < old(self).points().len() ==> final(self).pos() == old(self).pos() + 1,
            old(self).pos() == old(self).points().len() ==> {
                &&& r is None
                &&& final(self).pos() == old(self).pos()
            },
    {
        let ghost w = self.img_width as int;
        let ghost h = self.img_height as int;
        let ghost k = self.cur_y * w + self.cur_x;
        if self.cur_y >= self.img_height || self.img_width == 0 {
            assert(k == w * h) by (nonlinear_arith)
                requires
                    k == self.cur_y * w + self.cur_x,
                    w == 0 || h == 0 ==> self.cur_x == 0 && self.cur_y == 0,
                    w != 0 && h != 0 ==> self.cur_y == h && self.cur_x == 0,
            ;
            return None;
        }
        proof {
            lemma_fundamental_div_mod_converse(k, w, self.cur_y as int, self.cur_x as int);
            assert(k < w * h) by (nonlinear_arith)
                requires
                    k == self.cur_y * w + self.cur_x,
                    self.cur_x < w,
                    self.cur_y < h,
            ;
        }
        let hx = 2 * (self.cur_x as u64) + 1;
        let hy = 2 * (self.cur_y as u64) + 1;
        let result = self.camera.point_at(self.img_width, self.img_height, hx, hy);
        self.cur_x = self.cur_x + 1;
        if self.cur_x >= self.img_width {
            assert((self.cur_y + 1) * w == self.cur_y * w + w) by (nonlinear_arith);
            self.cur_y = self.cur_y + 1;
            self.cur_x = 0;
        }
        Some(result)
    }
}

/// A one-pixel image has exactly one sample, at the center of the viewport.
pub proof fn lemma_single_pixel_centered(cam: Camera)
    ensures
        grid_points(cam, 1, 1).len() == 1,
        grid_points(cam, 1, 1)[0].x.num == 0,
        grid_points(cam, 1, 1)[0].y.num == 0,
        grid_points(cam, 1, 1)[0].z == cam.center_z,
{
    let pts = grid_points(cam, 1, 1);
    assert(pts.len() == 1);
    assert(0int % 1int == 0 && 0int / 1int == 0);
    assert(cam.viewport_width * 0int == 0 && cam.viewport_height * 0int == 0);
}

/// The samples of a `w × h` image come in row-major order: within a row each is
/// one pixel step (`vw / w`) to the right of the one before; after the last
/// column the next row starts again at the left, one pixel step (`vh / h`) lower.
pub proof fn lemma_grid_row_major(cam: Camera, w: nat, h: nat, k: int)
    requires
        0 < w <= u32::MAX,
        0 < h <= u32::MAX,
        0 <= k,
        k + 1 < w * h,
    ensures
        ({
            let pts = grid_points(cam, w, h);
            let (p, q) = (pts[k], pts[k + 1]);
            &&& pts.len() == w * h
            &&& p.x.den == q.x.den == 2 * w
            &&& p.y.den == q.y.den == 2 * h
            &&& (k + 1) % (w as int) != 0 ==> q.x.num == p.x.num + 2 * cam.viewport_width
                && q.y == p.y
            &&& (k + 1) % (w as int) == 0 ==> q.x == pts[0].x && q.y.num == p.y.num - 2
                * cam.viewport_height
        }),
{
    let wi = w as int;
    let vw = cam.viewport_width as int;
    let vh = cam.viewport_height as int;
    let i = k % wi;
    let j = k / wi;
    lemma_fundamental_div_mod(k, wi);
    lemma_fundamental_div_mod_converse(0, wi, 0, 0);
    assert(0 <= i < wi);
    assert(0 <= j < h) by (nonlinear_arith)
        requires
            k == wi * j + i,
            0 <= i < wi,
            0 <= k,
            k + 1 < wi * h,
    ;
    if i + 1 < wi {
        lemma_fundamental_div_mod_converse(k + 1, wi, j, i + 1);
    } else {
        assert(k + 1 == (j + 1) * wi + 0) by (nonlinear_arith)
            requires
                k == wi * j + i,
                i + 1 == wi,
        ;
        lemma_fundamental_div_mod_converse(k + 1, wi, j + 1, 0);
    }
    lemma_fundamental_div_mod(k + 1, wi);
    let i2 = (k + 1) % wi;
    let j2 = (k + 1) / wi;
    assert(0 <= j2 < h) by (nonlinear_arith)
        requires
            k + 1 == wi * j2 + i2,
            0 <= i2 < wi,
            0 <= k,
            k + 1 < wi * h,
    ;
    assert forall|a: int, b: int| 0 <= a < wi && 0 <= b < h implies {
        &&& -0x1_0000_0000_0000_0000_0000 <= #[trigger] (vw * (2 * a + 1 - wi)) <= 0x1_0000_0000_0000_0000_0000
        &&& -0x1_0000_0000_0000_0000_0000 <= #[trigger] (vh * (h - (2 * b + 1))) <= 0x1_0000_0000_0000_0000_0000
    } by {
        assert(-0x1_0000_0000_0000_0000_0000 <= vw * (2 * a + 1 - wi) <= 0x1_0000_0000_0000_0000_0000)
            by (nonlinear_arith)
            requires
                0 <= vw <= u32::MAX,
                0 <= a < wi,
                wi <= u32::MAX,
        ;
        assert(-0x1_0000_0000_0000_0000_0000 <= vh * (h - (2 * b + 1)) <= 0x1_0000_0000_0000_0000_0000)
            by (nonlinear_arith)
            requires
                0 <= vh <= u32::MAX,
                0 <= b < h,
                h <= u32::MAX,
        ;
    }
    assert(vw * (2 * (i + 1) + 1 - wi) == vw * (2 * i + 1 - wi) + 2 * vw) by (nonlinear_arith);
    assert(vh * (h - (2 * (j + 1) + 1)) == vh * (h - (2 * j + 1)) - 2 * vh) by (nonlinear_arith);
}

} // verus!
