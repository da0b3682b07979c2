use orb_features::angle::{atan2_deg, isqrt_u64, round_angle};
use orb_features::fast::FastType;
use orb_features::orb::{create_sobel_image, sobel, SobelFilter};
use orb_features::gray::GrayImage;

#[test]
fn round_angle_snaps_toward_zero() {
    assert_eq!(round_angle(17, 12), 12);
    assert_eq!(round_angle(-17, 12), -12);
    assert_eq!(round_angle(0, 12), 0);
    assert_eq!(round_angle(180, 12), 180);
    assert_eq!(round_angle(-180, 12), -180);
    assert_eq!(round_angle(11, 12), 0);
    assert_eq!(round_angle(-11, 12), 0);
    assert_eq!(round_angle(23, 12), 12);
}

#[test]
fn atan2_degrees_on_the_axes_and_diagonals() {
    assert_eq!(atan2_deg(0, 0), 0);
    assert_eq!(atan2_deg(0, 5), 0);
    assert_eq!(atan2_deg(5, 0), 90);
    assert_eq!(atan2_deg(0, -5), 180);
    assert_eq!(atan2_deg(-5, 0), -90);
    assert_eq!(atan2_deg(1, 1), 45);
    assert_eq!(atan2_deg(-3, 3), -45);
    assert_eq!(atan2_deg(1, -1), 135);
    assert_eq!(atan2_deg(-1, -1), -135);
    // A nearly-flat vector in the third quadrant rounds to the cut at
    // minus 180 degrees.
    assert_eq!(atan2_deg(-1, -1000000), -180);
    // tan(30 degrees) is about 0.5774: a 4-7-ish ratio lands at 30.
    assert_eq!(atan2_deg(5774, 10000), 30);
}

#[test]
fn integer_square_root_is_the_floor() {
    assert_eq!(isqrt_u64(0), 0);
    assert_eq!(isqrt_u64(1), 1);
    assert_eq!(isqrt_u64(15), 3);
    assert_eq!(isqrt_u64(16), 4);
    assert_eq!(isqrt_u64(99), 9);
    assert_eq!(isqrt_u64(100), 10);
    assert_eq!(isqrt_u64(u64::MAX), 4294967295);
}

#[test]
fn context_tables_have_the_documented_shape() {
    let c12 = FastType::TYPE_7_12.get_context();
    assert_eq!(c12.offsets.len(), 12);
    assert_eq!(c12.idx.len(), 12);
    assert_eq!(c12.cmp.len(), 12);
    assert_eq!(c12.radius, 3);
    assert_eq!(c12.n, 9);
    assert_eq!(c12.offsets[0], (0, -2));
    assert_eq!(c12.idx, vec![0, 6, 3, 9, 1, 2, 4, 5, 7, 8, 10, 11]);

    let c16 = FastType::TYPE_9_16.get_context();
    assert_eq!(c16.offsets.len(), 16);
    assert_eq!(c16.radius, 4);
    assert_eq!(c16.n, 12);
    assert_eq!(c16.offsets[3], (3, -1));
    assert_eq!(c16.cmp[4], 4);
}

#[test]
fn sobel_measures_vertical_gradient() {
    // Rows of 0 above rows of 90: the vertical kernel sums to 4 * 90 on
    // the boundary row, and the horizontal kernel sees nothing.
    let mut data = vec![0u8; 36];
    for y in 3..6usize {
        for x in 0..6usize {
            data[y * 6 + x] = 90;
        }
    }
    let img = GrayImage::new(6, 6, data);
    assert_eq!(sobel(&img, SobelFilter::Y, 2, 2), ((4 * 90) % 256) as u8);
    assert_eq!(sobel(&img, SobelFilter::X, 2, 2), 0);
    assert_eq!(sobel(&img, SobelFilter::Y, 2, 1), 0);
}

#[test]
fn sobel_image_has_zero_border_and_gradient_interior() {
    let mut data = vec![0u8; 36];
    for y in 3..6usize {
        for x in 0..6usize {
            data[y * 6 + x] = 90;
        }
    }
    let img = GrayImage::new(6, 6, data);
    let grad = create_sobel_image(&img);
    assert_eq!(grad.width(), 6);
    assert_eq!(grad.height(), 6);
    assert_eq!(grad.get_pixel(0, 0), 0);
    assert_eq!(grad.get_pixel(5, 5), 0);
    assert_eq!(grad.get_pixel(2, 2), ((4 * 90) % 256) as u8);
    assert_eq!(grad.get_pixel(2, 4), 0);
}
