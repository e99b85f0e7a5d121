use vstd::prelude::*;
use crate::trig::{FP, FPU, isqrt, sqrt_floor, lemma_sqrt_floor_unique, atan2_units,
    acos_units, sincos_turn, spec_atan2_units, spec_acos_units, spec_sincos_turn, lemma_div_le,
    lemma_div_nonneg};

verus! {

/// A pixel coordinate or a dimension pair, (x, y) with the origin at the
/// top-left corner.
#[derive(Clone, Copy, PartialEq, Eq, Structural, Debug)]
pub struct Vec2 {
    pub x: u32,
    pub y: u32,
}

impl Vec2 {
    pub fn new(x: u32, y: u32) -> (v: Vec2)
        ensures
            v == (Vec2 { x, y }),
    {
        Vec2 { x, y }
    }
}

/// A direction in space, fixed point: a unit vector has components in
/// [-FP, FP].
#[derive(Clone, Copy, PartialEq, Eq, Structural, Debug)]
pub struct Vec3 {
    pub x: i64,
    pub y: i64,
    pub z: i64,
}

impl Vec3 {
    pub fn new(x: i64, y: i64, z: i64) -> (v: Vec3)
        ensures
            v == (Vec3 { x, y, z }),
    {
        Vec3 { x, y, z }
    }
}

/// The six cube faces, named by their facing direction.
#[derive(Clone, Copy, PartialEq, Eq, Structural, Debug)]
pub enum Face {
    Front,
    Back,
    Left,
    Right,
    Up,
    Down,
}

impl Face {
    /// The outward unit normal, which is also the ray through the face
    /// centre: front = (0,1,0), back = (0,-1,0), left = (-1,0,0),
    /// right = (1,0,0), up = (0,0,1), down = (0,0,-1).
    pub open spec fn normal_spec(self) -> Vec3 {
        match self {
            Face::Front => Vec3 { x: 0, y: FP, z: 0 },
            Face::Back => Vec3 { x: 0, y: (-FP) as i64, z: 0 },
            Face::Left => Vec3 { x: (-FP) as i64, y: 0, z: 0 },
            Face::Right => Vec3 { x: FP, y: 0, z: 0 },
            Face::Up => Vec3 { x: 0, y: 0, z: FP },
            Face::Down => Vec3 { x: 0, y: 0, z: (-FP) as i64 },
        }
    }

    /// The basis vector along which the face's pixel y coordinate grows.
    pub open spec fn down_basis_spec(self) -> Vec3 {
        match self {
            Face::Front => Vec3 { x: 0, y: 0, z: (-FP) as i64 },
            Face::Back => Vec3 { x: 0, y: 0, z: (-FP) as i64 },
            Face::Left => Vec3 { x: 0, y: 0, z: (-FP) as i64 },
            Face::Right => Vec3 { x: 0, y: 0, z: (-FP) as i64 },
            Face::Up => Vec3 { x: 0, y: (-FP) as i64, z: 0 },
            Face::Down => Vec3 { x: 0, y: (-FP) as i64, z: 0 },
        }
    }

    /// The basis vector along which the face's pixel x coordinate grows.
    pub open spec fn right_basis_spec(self) -> Vec3 {
        match self {
            Face::Front => Vec3 { x: FP, y: 0, z: 0 },
            Face::Back => Vec3 { x: (-FP) as i64, y: 0, z: 0 },
            Face::Left => Vec3 { x: 0, y: FP, z: 0 },
            Face::Right => Vec3 { x: 0, y: (-FP) as i64, z: 0 },
            Face::Up => Vec3 { x: (-FP) as i64, y: 0, z: 0 },
            Face::Down => Vec3 { x: FP, y: 0, z: 0 },
        }
    }

    pub fn normal(self) -> (v: Vec3)
        ensures
            v == self.normal_spec(),
    {
        match self {
            Face::Front => Vec3 { x: 0, y: FP, z: 0 },
            Face::Back => Vec3 { x: 0, y: (-FP) as i64, z: 0 },
            Face::Left => Vec3 { x: (-FP) as i64, y: 0, z: 0 },
            Face::Right => Vec3 { x: FP, y: 0, z: 0 },
            Face::Up => Vec3 { x: 0, y: 0, z: FP },
            Face::Down => Vec3 { x: 0, y: 0, z: (-FP) as i64 },
        }
    }

    pub fn down_basis(self) -> (v: Vec3)
        ensures
            v == self.down_basis_spec(),
    {
        match self {
            Face::Up | Face::Down => Vec3 { x: 0, y: (-FP) as i64, z: 0 },
            _ => Vec3 { x: 0, y: 0, z: (-FP) as i64 },
        }
    }

    pub fn right_basis(self) -> (v: Vec3)
        ensures
            v == self.right_basis_spec(),
    {
        match self {
            Face::Front => Vec3 { x: FP, y: 0, z: 0 },
            Face::Back => Vec3 { x: (-FP) as i64, y: 0, z: 0 },
            Face::Left => Vec3 { x: 0, y: FP, z: 0 },
            Face::Right => Vec3 { x: 0, y: (-FP) as i64, z: 0 },
            Face::Up => Vec3 { x: (-FP) as i64, y: 0, z: 0 },
            Face::Down => Vec3 { x: FP, y: 0, z: 0 },
        }
    }
}

/// A vector of length one lying exactly on a coordinate axis.
pub open spec fn is_axis_unit(v: Vec3) -> bool {
    ||| ((v.x == FP || v.x == -FP) && v.y == 0 && v.z == 0)
    ||| ((v.y == FP || v.y == -FP) && v.x == 0 && v.z == 0)
    ||| ((v.z == FP || v.z == -FP) && v.x == 0 && v.y == 0)
}

/// Which axis an axis-aligned vector lies on.
pub open spec fn axis_index(v: Vec3) -> int {
    if v.x != 0 {
        0
    } else if v.y != 0 {
        1
    } else {
        2
    }
}

/// A face frame: the normal and the two basis vectors are axis units on
/// three distinct axes.
pub open spec fn wf_frame(center: Vec3, down: Vec3, right: Vec3) -> bool {
    &&& is_axis_unit(center)
    &&& is_axis_unit(down)
    &&& is_axis_unit(right)
    &&& axis_index(center) != axis_index(down)
    &&& axis_index(center) != axis_index(right)
    &&& axis_index(down) != axis_index(right)
}

pub open spec fn sgn(v: int) -> int {
    if v > 0 {
        1
    } else if v < 0 {
        -1
    } else {
        0
    }
}

/// One component of the un-normalised ray for face pixel (px, py): the exact
/// integer value of (center + right (2 px / w - 1) + down (2 py / h - 1))
/// scaled by w h.
pub open spec fn spec_raw_comp(c: int, r: int, d: int, px: int, py: int, w: int, h: int) -> int {
    sgn(c) * (w * h) + sgn(r) * (h * (2 * px - w)) + sgn(d) * (w * (2 * py - h))
}

/// Truncating division of c FP by n, as the scaling to unit length computes
/// it.
pub open spec fn spec_scale_div(c: int, n: int) -> int {
    let fp = FP as int;
    if c >= 0 {
        c * fp / n
    } else {
        -((-c) * fp / n)
    }
}

/// The ray through face pixel (px, py): the exact integer direction, scaled
/// to length FP by the integer square root of its squared length.
pub open spec fn spec_face_pixel2ray(center: Vec3, down: Vec3, right: Vec3, px: int, py: int,
    w: int, h: int) -> Vec3 {
    let rawx = spec_raw_comp(center.x as int, right.x as int, down.x as int, px, py, w, h);
    let rawy = spec_raw_comp(center.y as int, right.y as int, down.y as int, px, py, w, h);
    let rawz = spec_raw_comp(center.z as int, right.z as int, down.z as int, px, py, w, h);
    let n = sqrt_floor(rawx * rawx + rawy * rawy + rawz * rawz);
    Vec3 {
        x: spec_scale_div(rawx, n) as i64,
        y: spec_scale_div(rawy, n) as i64,
        z: spec_scale_div(rawz, n) as i64,
    }
}

fn sgn64(v: i64) -> (s: i64)
    requires
        -0x4000_0000 <= v <= 0x4000_0000,
    ensures
        s == sgn(v as int),
{
    if v > 0 {
        1
    } else if v < 0 {
        -1
    } else {
        0
    }
}

fn scale_div(c: i64, n: u64) -> (r: i64)
    requires
        1 <= n,
        n < 0x8000_0000u64,
        -(n as i64) <= c <= n as i64,
    ensures
        r == spec_scale_div(c as int, n as int),
        -FP <= r <= FP,
{
    if c >= 0 {
        proof {
            assert(0 <= (c as int) * (FP as int) <= (n as int) * (FP as int)
                && (n as int) * (FP as int) <= 0x8000_0000int * 0x4000_0000int)
                by (nonlinear_arith)
                requires
                    0 <= c as int <= n as int,
                    (n as int) < 0x8000_0000int,
            ;
            lemma_div_le((c as int) * (FP as int), n as int, FP as int);
            lemma_div_nonneg((c as int) * (FP as int), n as int);
        }
        ((c as u64) * FPU / n) as i64
    } else {
        proof {
            assert(0 <= (-(c as int)) * (FP as int) <= (n as int) * (FP as int)
                && (n as int) * (FP as int) <= 0x8000_0000int * 0x4000_0000int)
                by (nonlinear_arith)
                requires
                    0 <= -(c as int) <= n as int,
                    (n as int) < 0x8000_0000int,
            ;
            lemma_div_le((-(c as int)) * (FP as int), n as int, FP as int);
            lemma_div_nonneg((-(c as int)) * (FP as int), n as int);
        }
        -((((-c) as u64) * FPU / n) as i64)
    }
}

/// The unit ray through pixel (pixel.x, pixel.y) of a face whose frame is
/// (center, down, right) and whose size is (dimensions.x, dimensions.y):
/// the direction center + right (2x/w - 1) + down (2y/h - 1), computed
/// exactly in integers and scaled to length FP.
///
/// The centre pixel (w/2, h/2) of a face with even dimensions maps exactly
/// to the face normal.
pub fn face_pixel2ray(center: &Vec3, down: &Vec3, right: &Vec3, pixel: &Vec2, dimensions: &Vec2)
    -> (ray: Vec3)
    requires
        wf_frame(*center, *down, *right),
        1 <= dimensions.x <= 0x4000,
        1 <= dimensions.y <= 0x4000,
        pixel.x <= dimensions.x,
        pixel.y <= dimensions.y,
    ensures
        ray == spec_face_pixel2ray(*center, *down, *right, pixel.x as int, pixel.y as int,
            dimensions.x as int, dimensions.y as int),
        -FP <= ray.x <= FP,
        -FP <= ray.y <= FP,
        -FP <= ray.z <= FP,
        dimensions.x % 2 == 0 && dimensions.y % 2 == 0 && pixel.x == dimensions.x / 2
            && pixel.y == dimensions.y / 2 ==> ray == *center,
{
    let w: i64 = dimensions.x as i64;
    let h: i64 = dimensions.y as i64;
    let px: i64 = pixel.x as i64;
    let py: i64 = pixel.y as i64;
    proof {
        assert(1 <= (w as int) * (h as int) <= 0x1000_0000int
            && -0x1000_0000int <= (h as int) * (2 * (px as int) - w as int) <= 0x1000_0000int
            && -0x1000_0000int <= (w as int) * (2 * (py as int) - h as int) <= 0x1000_0000int)
            by (nonlinear_arith)
            requires
                1 <= w as int <= 0x4000,
                1 <= h as int <= 0x4000,
                0 <= px as int <= w as int,
                0 <= py as int <= h as int,
        ;
    }
    let wh: i64 = w * h;
    let bx: i64 = h * (2 * px - w);
    let by: i64 = w * (2 * py - h);
    let rawx: i64 = raw_comp(center.x, right.x, down.x, wh, bx, by);
    let rawy: i64 = raw_comp(center.y, right.y, down.y, wh, bx, by);
    let rawz: i64 = raw_comp(center.z, right.z, down.z, wh, bx, by);
    proof {
        assert((rawx as int) * (rawx as int) <= 0x1000_0000_0000_0000int
            && (rawy as int) * (rawy as int) <= 0x1000_0000_0000_0000int
            && (rawz as int) * (rawz as int) <= 0x1000_0000_0000_0000int
            && 0 <= (rawx as int) * (rawx as int)
            && 0 <= (rawy as int) * (rawy as int)
            && 0 <= (rawz as int) * (rawz as int)) by (nonlinear_arith)
            requires
                -0x3000_0000int <= rawx as int <= 0x3000_0000int,
                -0x3000_0000int <= rawy as int <= 0x3000_0000int,
                -0x3000_0000int <= rawz as int <= 0x3000_0000int,
        ;
        // the component on the centre's axis is exactly +-(w h), so the ray
        // is not the zero vector
        if center.x != 0 {
            assert(rawx as int == sgn(center.x as int) * ((w as int) * (h as int)));
            assert(1 <= (rawx as int) * (rawx as int)) by (nonlinear_arith)
                requires
                    rawx as int == sgn(center.x as int) * ((w as int) * (h as int))
                        && (sgn(center.x as int) == 1 || sgn(center.x as int) == -1)
                        && 1 <= (w as int) * (h as int),
            ;
        } else if center.y != 0 {
            assert(rawy as int == sgn(center.y as int) * ((w as int) * (h as int)));
            assert(1 <= (rawy as int) * (rawy as int)) by (nonlinear_arith)
                requires
                    rawy as int == sgn(center.y as int) * ((w as int) * (h as int))
                        && (sgn(center.y as int) == 1 || sgn(center.y as int) == -1)
                        && 1 <= (w as int) * (h as int),
            ;
        } else {
            assert(rawz as int == sgn(center.z as int) * ((w as int) * (h as int)));
            assert(1 <= (rawz as int) * (rawz as int)) by (nonlinear_arith)
                requires
                    rawz as int == sgn(center.z as int) * ((w as int) * (h as int))
                        && (sgn(center.z as int) == 1 || sgn(center.z as int) == -1)
                        && 1 <= (w as int) * (h as int),
            ;
        }
    }
    let nn: i64 = rawx * rawx + rawy * rawy + rawz * rawz;
    let n: u64 = isqrt(nn as u64);
    proof {
        assert(-(n as int) <= rawx as int <= n as int
            && -(n as int) <= rawy as int <= n as int
            && -(n as int) <= rawz as int <= n as int) by (nonlinear_arith)
            requires
                0 <= n as int,
                (rawx as int) * (rawx as int) <= nn as int,
                (rawy as int) * (rawy as int) <= nn as int,
                (rawz as int) * (rawz as int) <= nn as int,
                (nn as int) < (n as int + 1) * (n as int + 1),
        ;
    }
    let ray = Vec3 {
        x: scale_div(rawx, n),
        y: scale_div(rawy, n),
        z: scale_div(rawz, n),
    };
    proof {
        if dimensions.x % 2 == 0 && dimensions.y % 2 == 0 && pixel.x == dimensions.x / 2
            && pixel.y == dimensions.y / 2 {
            lemma_center_pixel(*center, *down, *right, dimensions.x as int, dimensions.y as int);
        }
    }
    ray
}

fn raw_comp(c: i64, r: i64, d: i64, wh: i64, bx: i64, by: i64) -> (v: i64)
    requires
        -0x4000_0000 <= c <= 0x4000_0000,
        -0x4000_0000 <= r <= 0x4000_0000,
        -0x4000_0000 <= d <= 0x4000_0000,
        1 <= wh <= 0x1000_0000,
        -0x1000_0000 <= bx <= 0x1000_0000,
        -0x1000_0000 <= by <= 0x1000_0000,
    ensures
        v == sgn(c as int) * (wh as int) + sgn(r as int) * (bx as int)
            + sgn(d as int) * (by as int),
        -0x3000_0000 <= v <= 0x3000_0000,
{
    let sc = sgn64(c);
    let sr = sgn64(r);
    let sd = sgn64(d);
    proof {
        assert(-0x1000_0000int <= (sc as int) * (wh as int) <= 0x1000_0000int
            && -0x1000_0000int <= (sr as int) * (bx as int) <= 0x1000_0000int
            && -0x1000_0000int <= (sd as int) * (by as int) <= 0x1000_0000int)
            by (nonlinear_arith)
            requires
                -1 <= sc as int <= 1,
                -1 <= sr as int <= 1,
                -1 <= sd as int <= 1,
                -0x1000_0000int <= wh as int <= 0x1000_0000int,
                -0x1000_0000int <= bx as int <= 0x1000_0000int,
                -0x1000_0000int <= by as int <= 0x1000_0000int,
        ;
    }
    sc * wh + sr * bx + sd * by
}

/// The centre pixel of a face with even dimensions maps exactly to the face
/// normal: the basis contributions vanish and scaling w h to FP is exact.
pub proof fn lemma_center_pixel(center: Vec3, down: Vec3, right: Vec3, w: int, h: int)
    requires
        wf_frame(center, down, right),
        1 <= w <= 0x4000,
        1 <= h <= 0x4000,
        w % 2 == 0,
        h % 2 == 0,
    ensures
        spec_face_pixel2ray(center, down, right, w / 2, h / 2, w, h) == center,
{
    let px = w / 2;
    let py = h / 2;
    assert(2 * px - w == 0);
    assert(2 * py - h == 0);
    assert(h * (2 * px - w) == 0) by (nonlinear_arith)
        requires
            2 * px - w == 0,
    ;
    assert(w * (2 * py - h) == 0) by (nonlinear_arith)
        requires
            2 * py - h == 0,
    ;
    let wh = w * h;
    assert(1 <= wh && wh <= 0x1000_0000) by (nonlinear_arith)
        requires
            1 <= w <= 0x4000,
            1 <= h <= 0x4000,
            wh == w * h,
    ;
    let rawx = spec_raw_comp(center.x as int, right.x as int, down.x as int, px, py, w, h);
    let rawy = spec_raw_comp(center.y as int, right.y as int, down.y as int, px, py, w, h);
    let rawz = spec_raw_comp(center.z as int, right.z as int, down.z as int, px, py, w, h);
    assert(rawx == sgn(center.x as int) * wh);
    assert(rawy == sgn(center.y as int) * wh);
    assert(rawz == sgn(center.z as int) * wh);
    lemma_center_comp(center.x as int, wh, rawx);
    lemma_center_comp(center.y as int, wh, rawy);
    lemma_center_comp(center.z as int, wh, rawz);
    let nn = rawx * rawx + rawy * rawy + rawz * rawz;
    assert(nn == wh * wh) by (nonlinear_arith)
        requires
            is_axis_unit(center),
            rawx == (if center.x == FP { wh } else if center.x == -FP { -wh } else { 0 }),
            rawy == (if center.y == FP { wh } else if center.y == -FP { -wh } else { 0 }),
            rawz == (if center.z == FP { wh } else if center.z == -FP { -wh } else { 0 }),
            nn == rawx * rawx + rawy * rawy + rawz * rawz,
    ;
    assert(wh * wh < (wh + 1) * (wh + 1)) by (nonlinear_arith)
        requires
            1 <= wh,
    ;
    lemma_sqrt_floor_unique(nn, wh);
    let n = sqrt_floor(nn);
    assert(n == wh);
    assert(wh * (FP as int) / wh == FP as int && 0 * (FP as int) / wh == 0)
        by (nonlinear_arith)
        requires
            1 <= wh,
    ;
    assert(spec_scale_div(wh, wh) == FP as int);
    assert(spec_scale_div(-wh, wh) == -(FP as int));
    assert(spec_scale_div(0, wh) == 0);
}

proof fn lemma_center_comp(c: int, wh: int, raw: int)
    requires
        c == FP || c == -FP || c == 0,
        1 <= wh,
        raw == sgn(c) * wh,
    ensures
        raw == (if c == FP { wh } else if c == -FP { -wh } else { 0 }),
{
    assert(raw == (if c == FP { wh } else if c == -FP { -wh } else { 0 })) by (nonlinear_arith)
        requires
            c == FP as int || c == -(FP as int) || c == 0,
            raw == sgn(c) * wh,
    ;
}

/// The equirectangular pixel a unit ray points at: longitude from the angle
/// of (x, y), latitude from the arccosine of z, each truncated to a pixel.
/// The seam ray (0, -1, 0) lands on the last column and the south pole on
/// the last row, so the result is always in range.
pub open spec fn spec_ray2equ(w: int, h: int, rx: int, ry: int, rz: int) -> (int, int) {
    let fp = FP as int;
    let lon = fp / 2 + spec_atan2_units(rx, ry);
    let px0 = w * lon / fp;
    let px = if px0 >= w { w - 1 } else { px0 };
    let lat = spec_acos_units(rz);
    let py0 = h * lat / (fp / 2);
    let py = if py0 >= h { h - 1 } else { py0 };
    (px, py)
}

/// Maps a unit ray to the equirectangular pixel it points at.
///
/// On the axis rays the result is exact: the front ray (0, 1, 0) lands on
/// (w/2, h/2), the back ray on (w - 1, h/2), the left ray on (w/4, h/2), the
/// right ray on (3w/4, h/2), and the poles on the first and last rows.
pub fn ray2equ_pixel(dimensions: &Vec2, ray: &Vec3) -> (pixel: Vec2)
    requires
        1 <= dimensions.x <= 0x10_0000,
        1 <= dimensions.y <= 0x10_0000,
        -FP <= ray.x <= FP,
        -FP <= ray.y <= FP,
        -FP <= ray.z <= FP,
    ensures
        pixel.x as int == spec_ray2equ(dimensions.x as int, dimensions.y as int, ray.x as int,
            ray.y as int, ray.z as int).0,
        pixel.y as int == spec_ray2equ(dimensions.x as int, dimensions.y as int, ray.x as int,
            ray.y as int, ray.z as int).1,
        pixel.x < dimensions.x,
        pixel.y < dimensions.y,
        ray.x == 0 && ray.y > 0 ==> pixel.x == dimensions.x / 2,
        ray.x == 0 && ray.y < 0 ==> pixel.x == dimensions.x - 1,
        ray.x < 0 && ray.y == 0 ==> pixel.x == dimensions.x / 4,
        ray.x > 0 && ray.y == 0 ==> pixel.x as int == 3 * (dimensions.x as int) / 4,
        ray.z == 0 ==> pixel.y == dimensions.y / 2,
        ray.z == FP ==> pixel.y == 0,
        ray.z == -FP ==> pixel.y == dimensions.y - 1,
{
    let w: u64 = dimensions.x as u64;
    let h: u64 = dimensions.y as u64;
    let a: i64 = atan2_units(ray.x, ray.y);
    let lon: u64 = (FP / 2 + a) as u64;
    proof {
        assert(0 <= (w as int) * (lon as int) && (w as int) * (lon as int)
            <= (w as int) * (FP as int)
            && (w as int) * (FP as int) <= 0x10_0000int * 0x4000_0000int) by (nonlinear_arith)
            requires
                0 <= lon as int <= FP as int,
                1 <= w as int <= 0x10_0000int,
        ;
        lemma_div_le((w as int) * (lon as int), FP as int, w as int);
        lemma_div_nonneg((w as int) * (lon as int), FP as int);
    }
    let px0: u64 = w * lon / FPU;
    let px: u32 = if px0 >= w { (w - 1) as u32 } else { px0 as u32 };
    let lat: i64 = acos_units(ray.z);
    let lat_u: u64 = lat as u64;
    proof {
        assert(0 <= (h as int) * (lat_u as int) && (h as int) * (lat_u as int)
            <= (h as int) * (FP as int / 2)
            && (h as int) * (FP as int / 2) <= 0x10_0000int * 0x2000_0000int)
            by (nonlinear_arith)
            requires
                0 <= lat_u as int <= FP as int / 2,
                1 <= h as int <= 0x10_0000int,
        ;
        lemma_div_le((h as int) * (lat_u as int), FP as int / 2, h as int);
        lemma_div_nonneg((h as int) * (lat_u as int), FP as int / 2);
    }
    let py0: u64 = h * lat_u / (FPU / 2);
    let py: u32 = if py0 >= h { (h - 1) as u32 } else { py0 as u32 };
    proof {
        lemma_ray2equ_axis_cases(dimensions.x as int, dimensions.y as int, ray.x as int,
            ray.y as int, ray.z as int);
    }
    Vec2 { x: px, y: py }
}

/// The exact pixels of the axis rays, as the worked values of the contract
/// state them.
pub proof fn lemma_ray2equ_axis_cases(w: int, h: int, rx: int, ry: int, rz: int)
    requires
        1 <= w <= 0x10_0000,
        1 <= h <= 0x10_0000,
        -(FP as int) <= rx <= FP as int,
        -(FP as int) <= ry <= FP as int,
        -(FP as int) <= rz <= FP as int,
    ensures
        rx == 0 && ry > 0 ==> spec_ray2equ(w, h, rx, ry, rz).0 == w / 2,
        rx == 0 && ry < 0 ==> spec_ray2equ(w, h, rx, ry, rz).0 == w - 1,
        rx < 0 && ry == 0 ==> spec_ray2equ(w, h, rx, ry, rz).0 == w / 4,
        rx > 0 && ry == 0 ==> spec_ray2equ(w, h, rx, ry, rz).0 == 3 * w / 4,
        rz == 0 ==> spec_ray2equ(w, h, rx, ry, rz).1 == h / 2,
        rz == FP as int ==> spec_ray2equ(w, h, rx, ry, rz).1 == 0,
        rz == -(FP as int) ==> spec_ray2equ(w, h, rx, ry, rz).1 == h - 1,
{
    let fp = FP as int;
    if rx == 0 && ry > 0 {
        assert(w * (fp / 2) / fp == w / 2 && w / 2 < w) by (nonlinear_arith)
            requires
                1 <= w,
                fp == 0x4000_0000int,
        ;
    }
    if rx == 0 && ry < 0 {
        assert(w * fp / fp == w) by (nonlinear_arith)
            requires
                1 <= w,
                fp == 0x4000_0000int,
        ;
    }
    if rx < 0 && ry == 0 {
        assert(w * (fp / 2 + -(fp / 4)) / fp == w / 4 && w / 4 < w) by (nonlinear_arith)
            requires
                1 <= w,
                fp == 0x4000_0000int,
        ;
    }
    if rx > 0 && ry == 0 {
        assert(w * (fp / 2 + fp / 4) / fp == 3 * w / 4 && 3 * w / 4 < w) by (nonlinear_arith)
            requires
                1 <= w,
                fp == 0x4000_0000int,
        ;
    }
    if rz == 0 {
        assert(fp * fp == 0x1000_0000_0000_0000int && fp * fp < (fp + 1) * (fp + 1))
            by (nonlinear_arith)
            requires
                fp == 0x4000_0000int,
        ;
        lemma_sqrt_floor_unique(fp * fp, fp);
        assert(spec_acos_units(rz) == spec_atan2_units(fp, 0));
        assert(spec_acos_units(rz) == fp / 4);
        assert(h * (fp / 4) / (fp / 2) == h / 2 && h / 2 < h) by (nonlinear_arith)
            requires
                1 <= h,
                fp == 0x4000_0000int,
        ;
    }
    if rz == fp {
        assert(h * 0 / (fp / 2) == 0) by (nonlinear_arith)
            requires
                fp == 0x4000_0000int,
        ;
    }
    if rz == -fp {
        assert(h * (fp / 2) / (fp / 2) == h) by (nonlinear_arith)
            requires
                1 <= h,
                fp == 0x4000_0000int,
        ;
    }
}

/// Truncating division of the product a b by FP, with the sign of a b.
pub open spec fn spec_mul_fp(a: int, b: int) -> int {
    let fp = FP as int;
    let p = a * b;
    if p >= 0 {
        p / fp
    } else {
        -((-p) / fp)
    }
}

fn mul_fp(a: i64, b: i64) -> (r: i64)
    requires
        -FP <= a <= FP,
        -FP <= b <= FP,
    ensures
        r == spec_mul_fp(a as int, b as int),
        -FP <= r <= FP,
{
    let am: u64 = if a >= 0 { a as u64 } else { (-a) as u64 };
    let bm: u64 = if b >= 0 { b as u64 } else { (-b) as u64 };
    proof {
        assert((am as int) * (bm as int) <= 0x1000_0000_0000_0000int
            && 0 <= (am as int) * (bm as int)) by (nonlinear_arith)
            requires
                0 <= am as int <= 0x4000_0000int,
                0 <= bm as int <= 0x4000_0000int,
        ;
        lemma_div_le((am as int) * (bm as int), FP as int, FP as int);
        lemma_div_nonneg((am as int) * (bm as int), FP as int);
        assert((am as int) * (bm as int) <= (FP as int) * (FP as int)) by (nonlinear_arith)
            requires
                0 <= am as int <= 0x4000_0000int,
                0 <= bm as int <= 0x4000_0000int,
        ;
        assert((a as int) * (b as int) == (am as int) * (bm as int)
            || (a as int) * (b as int) == -((am as int) * (bm as int))) by (nonlinear_arith)
            requires
                am as int == (if a as int >= 0 { a as int } else { -(a as int) }),
                bm as int == (if b as int >= 0 { b as int } else { -(b as int) }),
        ;
        assert(((a as int) * (b as int) >= 0 || (a as int) * (b as int) == -((am as int) * (bm as int))));
    }
    let m: u64 = am * bm / FPU;
    let neg: bool = (a < 0) != (b < 0);
    if neg {
        proof {
            if (a as int) * (b as int) >= 0 {
                assert((a as int) * (b as int) == 0) by (nonlinear_arith)
                    requires
                        (a as int) * (b as int) >= 0,
                        (a as int) < 0 != ((b as int) < 0),
                ;
            }
        }
        -(m as i64)
    } else {
        proof {
            if (a as int) * (b as int) < 0 {
                assert(false) by (nonlinear_arith)
                    requires
                        (a as int) * (b as int) < 0,
                        !((a as int) < 0 != ((b as int) < 0)),
                ;
            }
        }
        m as i64
    }
}

/// The unit vector at inclination (in_num / in_den) of a turn from the +z
/// pole and azimuth (az_num / az_den) of a turn in the xy plane:
/// (cos az sin in, sin az sin in, cos in), at FP scale.
pub open spec fn spec_spherical2cartesian(in_num: int, in_den: int, az_num: int, az_den: int)
    -> Vec3 {
    let si = spec_sincos_turn(in_num, in_den).0;
    let ci = spec_sincos_turn(in_num, in_den).1;
    let sa = spec_sincos_turn(az_num, az_den).0;
    let ca = spec_sincos_turn(az_num, az_den).1;
    Vec3 {
        x: spec_mul_fp(ca, si) as i64,
        y: spec_mul_fp(sa, si) as i64,
        z: ci as i64,
    }
}

/// Converts spherical angles, given as rational fractions of a turn, to the
/// Cartesian unit direction at FP scale.
pub fn spherical2cartesian(in_num: u64, in_den: u64, az_num: u64, az_den: u64) -> (v: Vec3)
    requires
        1 <= in_den <= 0x100_0000u64,
        1 <= az_den <= 0x100_0000u64,
    ensures
        v == spec_spherical2cartesian(in_num as int, in_den as int, az_num as int, az_den as int),
        -FP <= v.x <= FP,
        -FP <= v.y <= FP,
        -FP <= v.z <= FP,
{
    let sci = sincos_turn(in_num, in_den);
    let sca = sincos_turn(az_num, az_den);
    Vec3 {
        x: mul_fp(sca.1, sci.0),
        y: mul_fp(sca.0, sci.0),
        z: sci.1,
    }
}

} // verus!
