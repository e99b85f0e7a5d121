use equistitch::geometry::{face_pixel2ray, ray2equ_pixel, Face, Vec2, Vec3};
use equistitch::trig::FP;

#[test]
fn front_face_center_point_should_point_to_front_ray() {
    let ray = face_pixel2ray(
        &Face::Front.normal(),
        &Face::Front.down_basis(),
        &Face::Front.right_basis(),
        &Vec2::new(5, 5),
        &Vec2::new(10, 10),
    );
    assert_eq!(ray, Face::Front.normal());
}

#[test]
fn left_face_center_point_should_point_to_left_ray() {
    let ray = face_pixel2ray(
        &Face::Left.normal(),
        &Face::Left.down_basis(),
        &Face::Left.right_basis(),
        &Vec2::new(5, 5),
        &Vec2::new(10, 10),
    );
    assert_eq!(ray, Face::Left.normal());
}

#[test]
fn front_center_should_point_to_center_of_equirectangular_image() {
    // Assume 360 pixels wide, 180 pixels tall equi image
    let coordinate = ray2equ_pixel(&Vec2::new(360, 180), &Face::Front.normal());
    // Front center pixel should point to (180, 90) in equi image
    assert_eq!(coordinate, Vec2::new(180, 90));
}

#[test]
fn front_down_center_should_point_to_center_bottom_of_equirectangular_image() {
    // Assume 360 pixels wide, 180 pixels tall equi image
    let front_down = Vec3::new(0, FP, -FP);
    let coordinate = ray2equ_pixel(&Vec2::new(360, 180), &front_down);
    // Front + down ray should point to (180, 179) in equi image
    assert_eq!(coordinate, Vec2::new(180, 179));
}

#[test]
fn back_center_should_point_to_start_of_equirectangular_image() {
    // Assume 360 pixels wide, 180 pixels tall equi image
    let coordinate = ray2equ_pixel(&Vec2::new(360, 180), &Face::Back.normal());
    // Back center pixel should point to (359, 90) in equi image
    assert_eq!(coordinate, Vec2::new(359, 90));
}

#[test]
fn left_center_should_point_to_90_deg_of_equirectangular_image() {
    // Assume 360 pixels wide, 180 pixels tall equi image
    let coordinate = ray2equ_pixel(&Vec2::new(360, 180), &Face::Left.normal());
    // Left center pixel should point to (90, 90) in equi image
    assert_eq!(coordinate, Vec2::new(90, 90));
}

#[test]
fn right_center_should_point_to_270_deg_of_equirectangular_image() {
    // Assume 360 pixels wide, 180 pixels tall equi image
    let coordinate = ray2equ_pixel(&Vec2::new(360, 180), &Face::Right.normal());
    // Right center pixel should point to (270, 90) in equi image
    assert_eq!(coordinate, Vec2::new(270, 90));
}

#[test]
fn every_face_center_points_to_its_normal() {
    let faces = [Face::Front, Face::Back, Face::Left, Face::Right, Face::Up, Face::Down];
    for f in faces {
        let ray = face_pixel2ray(
            &f.normal(),
            &f.down_basis(),
            &f.right_basis(),
            &Vec2::new(8, 8),
            &Vec2::new(16, 16),
        );
        assert_eq!(ray, f.normal());
    }
}

#[test]
fn poles_map_to_first_and_last_rows() {
    let up = ray2equ_pixel(&Vec2::new(360, 180), &Face::Up.normal());
    assert_eq!(up.y, 0);
    let down = ray2equ_pixel(&Vec2::new(360, 180), &Face::Down.normal());
    assert_eq!(down.y, 179);
}

#[test]
fn diagonal_ray_maps_to_its_exact_longitude() {
    // the ray halfway between front (0,1,0) and right (1,0,0) lies at an
    // eighth of a turn past the front column: 180 + 45 = 225
    let coordinate = ray2equ_pixel(&Vec2::new(360, 180), &Vec3::new(FP, FP, 0));
    assert_eq!(coordinate, Vec2::new(225, 90));
}
