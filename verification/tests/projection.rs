use equistitch::geometry::{ray2equ_pixel, Face, Vec2, Vec3};
use equistitch::pixel::{Image, Rgba};
use equistitch::projector::{cube2equ, equ2cube, sample_ray, select_face, Cube};
use equistitch::trig::FP;

fn numbered_image(width: u32, height: u32) -> Image {
    let mut im = Image::new(width, height, Rgba::new(0, 0, 0, 255));
    for y in 0..height {
        for x in 0..width {
            im.set(x, y, Rgba::new(x as u8, y as u8, (x + y) as u8, 255));
        }
    }
    im
}

fn solid_cube(edge: u32) -> Cube {
    Cube {
        front: Image::new(edge, edge, Rgba::new(1, 0, 0, 255)),
        back: Image::new(edge, edge, Rgba::new(2, 0, 0, 255)),
        left: Image::new(edge, edge, Rgba::new(3, 0, 0, 255)),
        right: Image::new(edge, edge, Rgba::new(4, 0, 0, 255)),
        up: Image::new(edge, edge, Rgba::new(5, 0, 0, 255)),
        down: Image::new(edge, edge, Rgba::new(6, 0, 0, 255)),
    }
}

#[test]
fn axis_rays_select_their_faces() {
    assert_eq!(select_face(&Vec3::new(FP, 0, 0)), Some(Face::Right));
    assert_eq!(select_face(&Vec3::new(-FP, 0, 0)), Some(Face::Left));
    assert_eq!(select_face(&Vec3::new(0, FP, 0)), Some(Face::Back));
    assert_eq!(select_face(&Vec3::new(0, -FP, 0)), Some(Face::Front));
    assert_eq!(select_face(&Vec3::new(0, 0, FP)), Some(Face::Up));
    assert_eq!(select_face(&Vec3::new(0, 0, -FP)), Some(Face::Down));
}

#[test]
fn tied_maximum_selects_no_face_and_samples_transparent() {
    let tied = Vec3::new(FP, FP, 0);
    assert_eq!(select_face(&tied), None);
    let cube = solid_cube(2);
    assert_eq!(sample_ray(&cube, &tied), Rgba::new(0, 0, 0, 0));
    let zero = Vec3::new(0, 0, 0);
    assert_eq!(select_face(&zero), None);
    assert_eq!(sample_ray(&cube, &zero), Rgba::new(0, 0, 0, 0));
}

#[test]
fn dominant_axis_ray_samples_the_selected_face() {
    let cube = solid_cube(2);
    assert_eq!(sample_ray(&cube, &Vec3::new(FP, 1, 2)), Rgba::new(4, 0, 0, 255));
    assert_eq!(sample_ray(&cube, &Vec3::new(0, 0, -FP)), Rgba::new(6, 0, 0, 255));
}

#[test]
fn forward_projection_makes_six_square_faces() {
    let src = numbered_image(8, 4);
    let cube = equ2cube(&src, 2);
    for f in [&cube.front, &cube.back, &cube.left, &cube.right, &cube.up, &cube.down] {
        assert_eq!(f.width, 2);
        assert_eq!(f.height, 2);
    }
}

#[test]
fn face_center_pixel_samples_the_forward_mapped_source_pixel() {
    let src = numbered_image(8, 4);
    let cube = equ2cube(&src, 2);
    // the centre pixel (1, 1) of a 2x2 face rides the face normal
    let back_coord = ray2equ_pixel(&Vec2::new(8, 4), &Face::Back.normal());
    assert_eq!(back_coord, Vec2::new(7, 2));
    assert_eq!(cube.back.get(1, 1), src.get(7, 2));
    let front_coord = ray2equ_pixel(&Vec2::new(8, 4), &Face::Front.normal());
    assert_eq!(front_coord, Vec2::new(4, 2));
    assert_eq!(cube.front.get(1, 1), src.get(4, 2));
}

#[test]
fn round_trip_through_the_cube_matches_the_forward_mapping() {
    let src = numbered_image(8, 4);
    let cube = equ2cube(&src, 2);
    let out = cube2equ(&cube);
    assert_eq!(out.width, 8);
    assert_eq!(out.height, 4);
    // output pixel (0, 2) rides the ray (0, 1, 0), which exits through the
    // back face at (1, 1); the forward pass filled that face pixel from the
    // source at (7, 2)
    assert_eq!(out.get(0, 2), cube.back.get(1, 1));
    assert_eq!(out.get(0, 2), src.get(7, 2));
    // output pixel (2, 2) rides the ray (-1, 0, 0) into the left face and
    // back to the source pixel it was projected from: a lossless round trip
    assert_eq!(out.get(2, 2), cube.left.get(1, 1));
    assert_eq!(out.get(2, 2), src.get(2, 2));
}
