use vstd::prelude::*;
use crate::pixel::{Image, Rgba};
use crate::pixel::lemma_row_major_index;
use crate::tiling::lemma_row_major_decomp;
use crate::geometry::{Vec2, Vec3, Face, face_pixel2ray, ray2equ_pixel, spherical2cartesian,
    spec_face_pixel2ray, spec_ray2equ, spec_spherical2cartesian, spec_mul_fp, wf_frame};
use crate::trig::{FP, TWO_PI_FP, lemma_div_le, lemma_div_nonneg, spec_sincos_quarter,
    spec_sincos_turn};

verus! {

/// The six face images of a cubemap.
pub struct Cube {
    pub front: Image,
    pub back: Image,
    pub left: Image,
    pub right: Image,
    pub up: Image,
    pub down: Image,
}

impl Cube {
    /// All six faces are well formed and share one size.
    pub open spec fn wf(self) -> bool {
        &&& self.front.wf()
        &&& self.back.wf()
        &&& self.left.wf()
        &&& self.right.wf()
        &&& self.up.wf()
        &&& self.down.wf()
        &&& self.back.width == self.front.width && self.back.height == self.front.height
        &&& self.left.width == self.front.width && self.left.height == self.front.height
        &&& self.right.width == self.front.width && self.right.height == self.front.height
        &&& self.up.width == self.front.width && self.up.height == self.front.height
        &&& self.down.width == self.front.width && self.down.height == self.front.height
    }

    /// The image of one face.
    pub open spec fn face_spec(self, f: Face) -> Image {
        match f {
            Face::Front => self.front,
            Face::Back => self.back,
            Face::Left => self.left,
            Face::Right => self.right,
            Face::Up => self.up,
            Face::Down => self.down,
        }
    }

    pub fn face(&self, f: Face) -> (im: &Image)
        ensures
            *im == self.face_spec(f),
    {
        match f {
            Face::Front => &self.front,
            Face::Back => &self.back,
            Face::Left => &self.left,
            Face::Right => &self.right,
            Face::Up => &self.up,
            Face::Down => &self.down,
        }
    }
}

pub open spec fn spec_abs(v: int) -> int {
    if v >= 0 {
        v
    } else {
        -v
    }
}

pub open spec fn spec_max3(a: int, b: int, c: int) -> int {
    if a >= b && a >= c {
        a
    } else if b >= c {
        b
    } else {
        c
    }
}

/// The face a ray exits the cube through: the strict maximum of the
/// component magnitudes, with its sign.  A zero ray, or a tie between two
/// magnitudes, selects no face.
pub open spec fn spec_select_face(r: Vec3) -> Option<Face> {
    let ax = spec_abs(r.x as int);
    let ay = spec_abs(r.y as int);
    let az = spec_abs(r.z as int);
    let m = spec_max3(ax, ay, az);
    if m == 0 || (ax == m && ay == m) || (ax == m && az == m) || (ay == m && az == m) {
        None
    } else if ax == m {
        if r.x > 0 {
            Some(Face::Right)
        } else {
            Some(Face::Left)
        }
    } else if ay == m {
        if r.y > 0 {
            Some(Face::Back)
        } else {
            Some(Face::Front)
        }
    } else {
        if r.z > 0 {
            Some(Face::Up)
        } else {
            Some(Face::Down)
        }
    }
}

/// Picks the face a ray exits through, or nothing on a zero ray or a tied
/// maximum.
pub fn select_face(ray: &Vec3) -> (r: Option<Face>)
    requires
        -FP <= ray.x <= FP,
        -FP <= ray.y <= FP,
        -FP <= ray.z <= FP,
    ensures
        r == spec_select_face(*ray),
{
    let ax: i64 = if ray.x >= 0 { ray.x } else { -ray.x };
    let ay: i64 = if ray.y >= 0 { ray.y } else { -ray.y };
    let az: i64 = if ray.z >= 0 { ray.z } else { -ray.z };
    let m: i64 = if ax >= ay && ax >= az { ax } else if ay >= az { ay } else { az };
    if m == 0 || (ax == m && ay == m) || (ax == m && az == m) || (ay == m && az == m) {
        None
    } else if ax == m {
        if ray.x > 0 {
            Some(Face::Right)
        } else {
            Some(Face::Left)
        }
    } else if ay == m {
        if ray.y > 0 {
            Some(Face::Back)
        } else {
            Some(Face::Front)
        }
    } else {
        if ray.z > 0 {
            Some(Face::Up)
        } else {
            Some(Face::Down)
        }
    }
}

/// A face-local component in [-m, m] mapped to a pixel coordinate in
/// [0, edge - 1]: (c + m) / 2m of the last index, truncated.
pub open spec fn spec_face_coord(c: int, m: int, edge: int) -> int {
    (c + m) * (edge - 1) / (2 * m)
}

fn face_coord(c: i64, m: i64, edge: u32) -> (r: u32)
    requires
        1 <= m <= FP,
        -m <= c <= m,
        1 <= edge <= 0x4000,
    ensures
        r == spec_face_coord(c as int, m as int, edge as int),
        r < edge,
{
    proof {
        assert(0 <= (c as int + m as int) * (edge as int - 1)
            && (c as int + m as int) * (edge as int - 1)
                <= (2 * (m as int)) * (edge as int - 1)
            && (2 * (m as int)) * (edge as int - 1) <= 0x8000_0000int * 0x4000int)
            by (nonlinear_arith)
            requires
                0 <= c as int + m as int,
                c as int + m as int <= 2 * (m as int),
                1 <= m as int <= 0x4000_0000int,
                0 <= edge as int - 1,
                edge as int <= 0x4000int,
        ;
        lemma_div_le((c as int + m as int) * (edge as int - 1), 2 * (m as int),
            edge as int - 1);
        lemma_div_nonneg((c as int + m as int) * (edge as int - 1), 2 * (m as int));
    }
    let num: u64 = ((c + m) as u64) * ((edge - 1) as u64);
    let r: u64 = num / ((2 * m) as u64);
    r as u32
}

/// The colour a cube shows along a ray: the selected face sampled at the
/// ray's face-local coordinates, with the per-face flips that align stored
/// pixels with the global frame; fully transparent black when no face is
/// selected.
pub open spec fn spec_sample_ray(cube: Cube, r: Vec3) -> Rgba {
    let m = spec_max3(spec_abs(r.x as int), spec_abs(r.y as int), spec_abs(r.z as int));
    match spec_select_face(r) {
        None => Rgba { r: 0, g: 0, b: 0, a: 0 },
        Some(f) => {
            let im = cube.face_spec(f);
            let w = im.width as int;
            let h = im.height as int;
            match f {
                Face::Right => {
                    let ix = spec_face_coord(r.y as int, m, w);
                    let iy = spec_face_coord(r.z as int, m, h);
                    im.pix(ix, h - 1 - iy)
                },
                Face::Left => {
                    let ix = spec_face_coord(r.y as int, m, w);
                    let iy = spec_face_coord(r.z as int, m, h);
                    im.pix(w - 1 - ix, h - 1 - iy)
                },
                Face::Back => {
                    let ix = spec_face_coord(r.x as int, m, w);
                    let iy = spec_face_coord(r.z as int, m, h);
                    im.pix(w - 1 - ix, h - 1 - iy)
                },
                Face::Front => {
                    let ix = spec_face_coord(r.x as int, m, w);
                    let iy = spec_face_coord(r.z as int, m, h);
                    im.pix(ix, h - 1 - iy)
                },
                Face::Up => {
                    let ix = spec_face_coord(r.x as int, m, w);
                    let iy = spec_face_coord(r.y as int, m, h);
                    im.pix(w - 1 - ix, iy)
                },
                Face::Down => {
                    let ix = spec_face_coord(r.x as int, m, w);
                    let iy = spec_face_coord(r.y as int, m, h);
                    im.pix(ix, iy)
                },
            }
        },
    }
}

/// Samples the cube along a ray.  A tied or zero maximum selects no face
/// and yields the transparent fallback instead of failing.
pub fn sample_ray(cube: &Cube, ray: &Vec3) -> (p: Rgba)
    requires
        cube.wf(),
        cube.front.width <= 0x4000,
        cube.front.height <= 0x4000,
        -FP <= ray.x <= FP,
        -FP <= ray.y <= FP,
        -FP <= ray.z <= FP,
    ensures
        p == spec_sample_ray(*cube, *ray),
        spec_select_face(*ray) is None ==> p == (Rgba { r: 0, g: 0, b: 0, a: 0 }),
{
    let ax: i64 = if ray.x >= 0 { ray.x } else { -ray.x };
    let ay: i64 = if ray.y >= 0 { ray.y } else { -ray.y };
    let az: i64 = if ray.z >= 0 { ray.z } else { -ray.z };
    let m: i64 = if ax >= ay && ax >= az { ax } else if ay >= az { ay } else { az };
    let sel = select_face(ray);
    match sel {
        None => Rgba::transparent(),
        Some(f) => {
            let im = cube.face(f);
            let w = im.width;
            let h = im.height;
            match f {
                Face::Right => {
                    let ix = face_coord(ray.y, m, w);
                    let iy = face_coord(ray.z, m, h);
                    im.get(ix, h - 1 - iy)
                },
                Face::Left => {
                    let ix = face_coord(ray.y, m, w);
                    let iy = face_coord(ray.z, m, h);
                    im.get(w - 1 - ix, h - 1 - iy)
                },
                Face::Back => {
                    let ix = face_coord(ray.x, m, w);
                    let iy = face_coord(ray.z, m, h);
                    im.get(w - 1 - ix, h - 1 - iy)
                },
                Face::Front => {
                    let ix = face_coord(ray.x, m, w);
                    let iy = face_coord(ray.z, m, h);
                    im.get(ix, h - 1 - iy)
                },
                Face::Up => {
                    let ix = face_coord(ray.x, m, w);
                    let iy = face_coord(ray.y, m, h);
                    im.get(w - 1 - ix, iy)
                },
                Face::Down => {
                    let ix = face_coord(ray.x, m, w);
                    let iy = face_coord(ray.y, m, h);
                    im.get(ix, iy)
                },
            }
        },
    }
}

/// The colour one face pixel takes in the forward projection: the ray
/// through the pixel, mapped to an equirectangular coordinate and sampled
/// from the source.
pub open spec fn spec_forward_pix(src: Image, f: Face, size: int, x: int, y: int) -> Rgba {
    let ray = spec_face_pixel2ray(f.normal_spec(), f.down_basis_spec(), f.right_basis_spec(),
        x, y, size, size);
    let pq = spec_ray2equ(src.width as int, src.height as int, ray.x as int, ray.y as int,
        ray.z as int);
    src.pix(pq.0, pq.1)
}

/// Projects one cube face out of an equirectangular source.
pub fn project_face(src: &Image, f: Face, size: u32) -> (im: Image)
    requires
        src.wf(),
        src.width <= 0x10_0000,
        src.height <= 0x10_0000,
        1 <= size <= 0x4000,
    ensures
        im.wf(),
        im.width == size,
        im.height == size,
        forall|x: int, y: int|
            0 <= x < size && 0 <= y < size ==> #[trigger] im.pix(x, y)
                == spec_forward_pix(*src, f, size as int, x, y),
{
    let center = f.normal();
    let down = f.down_basis();
    let right = f.right_basis();
    proof {
        assert(wf_frame(center, down, right));
        assert(size * size <= 0x1000_0000int) by (nonlinear_arith)
            requires
                1 <= size as int <= 0x4000int,
        ;
    }
    let mut data: Vec<Rgba> = Vec::new();
    let mut y: u32 = 0;
    while y < size
        invariant
            src.wf(),
            src.width <= 0x10_0000,
            src.height <= 0x10_0000,
            1 <= size <= 0x4000,
            center == f.normal_spec(),
            down == f.down_basis_spec(),
            right == f.right_basis_spec(),
            wf_frame(center, down, right),
            y <= size,
            data@.len() == y * size,
            forall|k: int|
                0 <= k < data@.len() ==> data@[k] == #[trigger] spec_forward_pix(*src, f,
                    size as int, k % (size as int), k / (size as int)),
        decreases size - y,
    {
        let mut x: u32 = 0;
        while x < size
            invariant
                src.wf(),
                src.width <= 0x10_0000,
                src.height <= 0x10_0000,
                1 <= size <= 0x4000,
                center == f.normal_spec(),
                down == f.down_basis_spec(),
                right == f.right_basis_spec(),
                wf_frame(center, down, right),
                y < size,
                x <= size,
                data@.len() == y * size + x,
                forall|k: int|
                    0 <= k < data@.len() ==> data@[k] == #[trigger] spec_forward_pix(*src, f,
                        size as int, k % (size as int), k / (size as int)),
            decreases size - x,
        {
            let pixel = Vec2 { x, y };
            let dims = Vec2 { x: size, y: size };
            let ray = face_pixel2ray(&center, &down, &right, &pixel, &dims);
            let src_dims = Vec2 { x: src.width, y: src.height };
            let coordinate = ray2equ_pixel(&src_dims, &ray);
            let sample = src.get(coordinate.x, coordinate.y);
            data.push(sample);
            proof {
                lemma_row_major_decomp(size as int, x as int, y as int);
                assert(sample == spec_forward_pix(*src, f, size as int, x as int, y as int));
            }
            x = x + 1;
        }
        proof {
            assert((y as int + 1) * (size as int) == (y as int) * (size as int) + size as int)
                by (nonlinear_arith);
        }
        y = y + 1;
    }
    let im = Image { width: size, height: size, data };
    proof {
        assert forall|x: int, y2: int|
            0 <= x < size && 0 <= y2 < size implies #[trigger] im.pix(x, y2)
                == spec_forward_pix(*src, f, size as int, x, y2) by {
            lemma_row_major_index(size as int, size as int, x, y2);
            lemma_row_major_decomp(size as int, x, y2);
        }
    }
    im
}

/// Projects an equirectangular image onto the six faces of a cube, each
/// face `face_size` pixels square.
pub fn equ2cube(source: &Image, face_size: u32) -> (cube: Cube)
    requires
        source.wf(),
        source.width <= 0x10_0000,
        source.height <= 0x10_0000,
        1 <= face_size <= 0x4000,
    ensures
        cube.wf(),
        cube.front.width == face_size,
        cube.front.height == face_size,
        forall|x: int, y: int|
            0 <= x < face_size && 0 <= y < face_size ==> #[trigger] cube.front.pix(x, y)
                == spec_forward_pix(*source, Face::Front, face_size as int, x, y),
        forall|x: int, y: int|
            0 <= x < face_size && 0 <= y < face_size ==> #[trigger] cube.back.pix(x, y)
                == spec_forward_pix(*source, Face::Back, face_size as int, x, y),
        forall|x: int, y: int|
            0 <= x < face_size && 0 <= y < face_size ==> #[trigger] cube.left.pix(x, y)
                == spec_forward_pix(*source, Face::Left, face_size as int, x, y),
        forall|x: int, y: int|
            0 <= x < face_size && 0 <= y < face_size ==> #[trigger] cube.right.pix(x, y)
                == spec_forward_pix(*source, Face::Right, face_size as int, x, y),
        forall|x: int, y: int|
            0 <= x < face_size && 0 <= y < face_size ==> #[trigger] cube.up.pix(x, y)
                == spec_forward_pix(*source, Face::Up, face_size as int, x, y),
        forall|x: int, y: int|
            0 <= x < face_size && 0 <= y < face_size ==> #[trigger] cube.down.pix(x, y)
                == spec_forward_pix(*source, Face::Down, face_size as int, x, y),
{
    Cube {
        front: project_face(source, Face::Front, face_size),
        back: project_face(source, Face::Back, face_size),
        left: project_face(source, Face::Left, face_size),
        right: project_face(source, Face::Right, face_size),
        up: project_face(source, Face::Up, face_size),
        down: project_face(source, Face::Down, face_size),
    }
}

/// The colour one output pixel takes in the inverse projection: the ray at
/// the pixel's latitude and longitude, sampled from the cube.
pub open spec fn spec_equ_pix(cube: Cube, x: int, y: int) -> Rgba {
    let w = 4 * (cube.front.width as int);
    let h = 2 * (cube.front.height as int);
    let ray = spec_spherical2cartesian(y, 2 * h, 4 * x + w, 4 * w);
    spec_sample_ray(cube, ray)
}

/// Projects a cube back onto an equirectangular image of width four face
/// widths and height two face heights.  A ray on a face boundary (a tied
/// maximum component) degrades to a transparent pixel.
pub fn cube2equ(source: &Cube) -> (im: Image)
    requires
        source.wf(),
        1 <= source.front.width <= 0x4000,
        1 <= source.front.height <= 0x4000,
    ensures
        im.wf(),
        im.width == 4 * source.front.width,
        im.height == 2 * source.front.height,
        forall|x: int, y: int|
            0 <= x < im.width && 0 <= y < im.height ==> #[trigger] im.pix(x, y)
                == spec_equ_pix(*source, x, y),
{
    let w: u32 = 4 * source.front.width;
    let h: u32 = 2 * source.front.height;
    proof {
        assert((w as int) * (h as int) <= 0x8000_0000int) by (nonlinear_arith)
            requires
                w as int <= 0x1_0000int,
                h as int <= 0x8000int,
        ;
    }
    let mut data: Vec<Rgba> = Vec::new();
    let mut y: u32 = 0;
    while y < h
        invariant
            source.wf(),
            1 <= source.front.width <= 0x4000,
            1 <= source.front.height <= 0x4000,
            w == 4 * source.front.width,
            h == 2 * source.front.height,
            (w as int) * (h as int) <= 0x8000_0000int,
            y <= h,
            data@.len() == y * w,
            forall|k: int|
                0 <= k < data@.len() ==> data@[k] == #[trigger] spec_equ_pix(*source,
                    k % (w as int), k / (w as int)),
        decreases h - y,
    {
        let mut x: u32 = 0;
        while x < w
            invariant
                source.wf(),
                1 <= source.front.width <= 0x4000,
                1 <= source.front.height <= 0x4000,
                w == 4 * source.front.width,
                h == 2 * source.front.height,
                (w as int) * (h as int) <= 0x8000_0000int,
                y < h,
                x <= w,
                data@.len() == y * w + x,
                forall|k: int|
                    0 <= k < data@.len() ==> data@[k] == #[trigger] spec_equ_pix(*source,
                        k % (w as int), k / (w as int)),
            decreases w - x,
        {
            let ray = spherical2cartesian(y as u64, 2 * (h as u64), 4 * (x as u64) + w as u64,
                4 * (w as u64));
            let sample = sample_ray(source, &ray);
            data.push(sample);
            proof {
                lemma_row_major_decomp(w as int, x as int, y as int);
                assert(sample == spec_equ_pix(*source, x as int, y as int));
            }
            x = x + 1;
        }
        proof {
            assert((y as int + 1) * (w as int) == (y as int) * (w as int) + w as int)
                by (nonlinear_arith);
        }
        y = y + 1;
    }
    proof {
        assert((h as int) * (w as int) == (w as int) * (h as int)) by (nonlinear_arith);
    }
    let im = Image { width: w, height: h, data };
    proof {
        assert(im.wf());
        assert forall|x: int, y2: int|
            0 <= x < w && 0 <= y2 < h implies #[trigger] im.pix(x, y2)
                == spec_equ_pix(*source, x, y2) by {
            lemma_row_major_index(w as int, h as int, x, y2);
            lemma_row_major_decomp(w as int, x, y2);
        }
    }
    im
}

/// A lossless instance of the projection round trip.  With a source of
/// dimensions 4s x 2s and cube faces of even edge s, the inverse
/// projection's output pixel (s, s) rides the ray (-1, 0, 0), which exits
/// the cube through the centre pixel of the left face; the forward
/// projection filled that face pixel from the source at exactly (s, s), so
/// the round trip hands the source pixel back unchanged.
pub proof fn lemma_left_center_roundtrip(src: Image, cube: Cube, out: Image)
    requires
        src.wf(),
        cube.wf(),
        1 <= cube.front.width <= 0x4000,
        cube.front.height == cube.front.width,
        cube.front.width % 2 == 0,
        src.width == 4 * cube.front.width,
        src.height == 2 * cube.front.height,
        forall|x: int, y: int|
            0 <= x < cube.front.width && 0 <= y < cube.front.height
                ==> #[trigger] cube.left.pix(x, y) == spec_forward_pix(src, Face::Left,
                    cube.front.width as int, x, y),
        out.width == 4 * cube.front.width,
        out.height == 2 * cube.front.height,
        forall|x: int, y: int|
            0 <= x < out.width && 0 <= y < out.height ==> #[trigger] out.pix(x, y)
                == spec_equ_pix(cube, x, y),
    ensures
        out.pix(cube.front.width as int, cube.front.height as int)
            == src.pix(cube.front.width as int, cube.front.height as int),
{
    let s = cube.front.width as int;
    let fp = FP as int;
    assert(out.pix(s, s) == spec_equ_pix(cube, s, s));
    // the ray of output pixel (s, s): a quarter turn of latitude and half a
    // turn of longitude, which the turn reductions make exact
    assert(s % (4 * s) == s && (4 * s) / (4 * s) == 1 && (4 * s) % (4 * s) == 0)
        by (nonlinear_arith)
        requires
            1 <= s,
    ;
    assert((8 * s) % (16 * s) == 8 * s && (4 * (8 * s)) / (16 * s) == 2
        && (4 * (8 * s)) % (16 * s) == 0) by (nonlinear_arith)
        requires
            1 <= s,
    ;
    assert(0 * (TWO_PI_FP as int) / (4 * (4 * s)) == 0
        && 0 * (TWO_PI_FP as int) / (4 * (16 * s)) == 0) by (nonlinear_arith)
        requires
            1 <= s,
    ;
    assert(spec_sincos_quarter(0, 4 * s).0 == 0 && spec_sincos_quarter(0, 4 * s).1 == fp);
    assert(spec_sincos_quarter(0, 16 * s).0 == 0 && spec_sincos_quarter(0, 16 * s).1 == fp);
    assert(spec_sincos_turn(s, 4 * s).0 == fp && spec_sincos_turn(s, 4 * s).1 == 0);
    assert(spec_sincos_turn(8 * s, 16 * s).0 == 0 && spec_sincos_turn(8 * s, 16 * s).1 == -fp);
    assert((-fp) * fp == -(0x1000_0000_0000_0000int)
        && 0x1000_0000_0000_0000int / fp == fp) by (nonlinear_arith)
        requires
            fp == 0x4000_0000int,
    ;
    let ray = spec_spherical2cartesian(s, 2 * (2 * s), 4 * s + 4 * s, 4 * (4 * s));
    assert(spec_mul_fp(-fp, fp) == -fp);
    assert(0int * fp == 0int && 0int / fp == 0int) by (nonlinear_arith)
        requires
            fp == 0x4000_0000int,
    ;
    assert(spec_mul_fp(0, fp) == 0);
    assert(ray == (Vec3 { x: (-FP) as i64, y: 0, z: 0 }));
    // the ray exits through the left face, at its centre pixel
    assert(spec_select_face(ray) == Some(Face::Left));
    assert(fp * (s - 1) / (2 * fp) == (s - 1) / 2) by (nonlinear_arith)
        requires
            1 <= s,
            fp == 0x4000_0000int,
    ;
    assert(spec_face_coord(0, fp, s) == (s - 1) / 2);
    assert(s - 1 - (s - 1) / 2 == s / 2) by (nonlinear_arith)
        requires
            2 <= s,
            s % 2 == 0,
    ;
    assert(spec_sample_ray(cube, ray) == cube.left.pix(s / 2, s / 2));
    assert(cube.left.pix(s / 2, s / 2) == spec_forward_pix(src, Face::Left, s, s / 2, s / 2));
    // the forward projection filled the face centre from the source pixel
    // that the left normal maps to: (w/4, h/2) = (s, s)
    let center = Face::Left.normal_spec();
    let down = Face::Left.down_basis_spec();
    let right = Face::Left.right_basis_spec();
    assert(wf_frame(center, down, right));
    crate::geometry::lemma_center_pixel(center, down, right, s, s);
    assert(spec_face_pixel2ray(center, down, right, s / 2, s / 2, s, s) == center);
    crate::geometry::lemma_ray2equ_axis_cases(4 * s, 2 * s, -fp, 0, 0);
    assert((4 * s) / 4 == s && (2 * s) / 2 == s) by (nonlinear_arith)
        requires
            1 <= s,
    ;
    assert(spec_ray2equ(4 * s, 2 * s, -fp, 0, 0).0 == s);
    assert(spec_ray2equ(4 * s, 2 * s, -fp, 0, 0).1 == s);
    assert(spec_forward_pix(src, Face::Left, s, s / 2, s / 2) == src.pix(s, s));
}

} // verus!
