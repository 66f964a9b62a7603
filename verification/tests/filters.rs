use pixel_filters::ImageProcessor;

/// A small gradient test image: red grows with x, green with y,
/// blue fixed at 128, alpha fixed at 255.
fn create_test_image_data(width: u32, height: u32) -> Vec<u8> {
    let mut data = Vec::new();
    for y in 0..height {
        for x in 0..width {
            let r = (x * 255 / width) as u8;
            let g = (y * 255 / height) as u8;
            let b = 128;
            let a = 255;
            data.extend_from_slice(&[r, g, b, a]);
        }
    }
    data
}

#[test]
fn test_image_processor_creation() {
    let processor = ImageProcessor { width: 100, height: 100 };
    assert_eq!(processor.width, 100);
    assert_eq!(processor.height, 100);
}

#[test]
fn test_gaussian_blur_preserves_data_length() {
    let mut processor = ImageProcessor { width: 10, height: 10 };
    let mut data = create_test_image_data(10, 10);
    let original_len = data.len();

    // a radius of 2 pixels, in half-pixel steps
    processor.gaussian_blur(&mut data, 4);

    assert_eq!(data.len(), original_len);
    for i in (0..data.len()).step_by(4) {
        assert_eq!(data[i + 3], 255);
    }
}

#[test]
fn test_gaussian_blur_zero_radius() {
    let mut processor = ImageProcessor { width: 5, height: 5 };
    let mut data = create_test_image_data(5, 5);
    let original_data = data.clone();

    processor.gaussian_blur(&mut data, 0);

    assert_eq!(data, original_data);
}

#[test]
fn test_sepia_tone_effect() {
    let mut processor = ImageProcessor { width: 2, height: 2 };
    let mut data = vec![
        255, 0, 0, 255, // red
        0, 255, 0, 255, // green
        0, 0, 255, 255, // blue
        255, 255, 255, 255, // white
    ];

    processor.sepia_tone(&mut data);

    assert!(data[0] > 0);
    assert!(data[1] > 0);
    assert_eq!(data[3], 255);
}

#[test]
fn test_negative_effect() {
    let mut processor = ImageProcessor { width: 2, height: 1 };
    let mut data = vec![
        255, 0, 128, 255, //
        100, 200, 50, 255, //
    ];
    let original_data = data.clone();

    processor.negative(&mut data);

    assert_eq!(data[0], 255 - original_data[0]);
    assert_eq!(data[1], 255 - original_data[1]);
    assert_eq!(data[2], 255 - original_data[2]);
    assert_eq!(data[3], original_data[3]);

    assert_eq!(data[4], 255 - original_data[4]);
    assert_eq!(data[5], 255 - original_data[5]);
    assert_eq!(data[6], 255 - original_data[6]);
    assert_eq!(data[7], original_data[7]);
}

#[test]
fn test_get_gray_value() {
    let processor = ImageProcessor { width: 3, height: 1 };
    let data = vec![
        255, 0, 0, 255, // red
        0, 255, 0, 255, // green
        0, 0, 255, 255, // blue
    ];

    let gray_red = processor.get_gray_value(&data, 0, 0, 3);
    let gray_green = processor.get_gray_value(&data, 1, 0, 3);
    let gray_blue = processor.get_gray_value(&data, 2, 0, 3);

    assert!(gray_red > 0);
    assert!(gray_green > gray_red);
    assert!(gray_blue > 0);
}

#[test]
fn test_data_integrity_after_multiple_effects() {
    let mut processor = ImageProcessor { width: 10, height: 10 };
    let mut data = create_test_image_data(10, 10);
    let original_len = data.len();

    // a radius of 1 pixel, in half-pixel steps
    processor.gaussian_blur(&mut data, 2);
    processor.sepia_tone(&mut data);

    assert_eq!(data.len(), original_len);
    for i in (0..data.len()).step_by(4) {
        assert_eq!(data[i + 3], 255);
    }
}

#[test]
fn test_blur_horizontal_basic() {
    let processor = ImageProcessor { width: 3, height: 1 };
    let mut data = vec![
        255, 0, 0, 255, // red
        0, 255, 0, 255, // green
        0, 0, 255, 255, // blue
    ];

    processor.blur_horizontal(&mut data, 3, 1, 2);

    assert_eq!(data[3], 255);
    assert_eq!(data[7], 255);
    assert_eq!(data[11], 255);
}

#[test]
fn test_sepia_exact_first_pixel() {
    let mut processor = ImageProcessor { width: 2, height: 2 };
    let mut data = vec![
        255, 0, 0, 255, //
        0, 255, 0, 255, //
        0, 0, 255, 255, //
        255, 255, 255, 255, //
    ];

    processor.sepia_tone(&mut data);

    // floor of 0.393*255, 0.349*255, 0.272*255
    assert_eq!(&data[0..4], &[100, 88, 69, 255]);
}

#[test]
fn test_negative_exact() {
    let mut processor = ImageProcessor { width: 2, height: 1 };
    let mut data = vec![255, 0, 128, 255, 100, 200, 50, 255];

    processor.negative(&mut data);

    assert_eq!(data, vec![0, 255, 127, 255, 155, 55, 205, 255]);
}

#[test]
fn test_negative_involution_restores_image() {
    let mut processor = ImageProcessor { width: 3, height: 2 };
    let mut data = create_test_image_data(3, 2);
    let original_data = data.clone();

    processor.negative(&mut data);
    processor.negative(&mut data);

    assert_eq!(data, original_data);
}

#[test]
fn test_small_image_interior_ops_are_noops() {
    let mut processor = ImageProcessor { width: 2, height: 2 };
    let mut data = create_test_image_data(2, 2);
    let original_data = data.clone();

    processor.edge_detection(&mut data);
    assert_eq!(data, original_data);

    processor.sharpen(&mut data);
    assert_eq!(data, original_data);

    processor.apply_edge_enhancement(&mut data, 2, 2);
    assert_eq!(data, original_data);
}

#[test]
fn test_edge_detection_uniform_image() {
    let mut processor = ImageProcessor { width: 3, height: 3 };
    let mut data: Vec<u8> = Vec::new();
    for _ in 0..9 {
        data.extend_from_slice(&[10, 20, 30, 255]);
    }
    let original_data = data.clone();

    processor.edge_detection(&mut data);

    // no gradient anywhere: the single interior pixel becomes black
    assert_eq!(&data[16..20], &[0, 0, 0, 255]);
    // the border ring is untouched
    for p in [0, 1, 2, 3, 5, 6, 7, 8] {
        assert_eq!(&data[4 * p..4 * p + 4], &original_data[4 * p..4 * p + 4]);
    }
}

#[test]
fn test_edge_detection_exact_magnitude() {
    // left column black, middle column gray 5, right column gray 10:
    // Gx = 40, Gy = 0 at the center, so the magnitude is exactly 40
    let mut processor = ImageProcessor { width: 3, height: 3 };
    let mut data: Vec<u8> = Vec::new();
    for _ in 0..3 {
        data.extend_from_slice(&[0, 0, 0, 255]);
        data.extend_from_slice(&[5, 5, 5, 255]);
        data.extend_from_slice(&[10, 10, 10, 255]);
    }

    processor.edge_detection(&mut data);

    assert_eq!(&data[16..20], &[40, 40, 40, 255]);
}

#[test]
fn test_edge_detection_clamps_at_255() {
    // left column black, right column white: Gx = 1020 at the center
    let mut processor = ImageProcessor { width: 3, height: 3 };
    let mut data: Vec<u8> = Vec::new();
    for _ in 0..3 {
        data.extend_from_slice(&[0, 0, 0, 255]);
        data.extend_from_slice(&[0, 0, 0, 255]);
        data.extend_from_slice(&[255, 255, 255, 255]);
    }

    processor.edge_detection(&mut data);

    assert_eq!(&data[16..20], &[255, 255, 255, 255]);
}

#[test]
fn test_sharpen_uniform_image_unchanged() {
    let mut processor = ImageProcessor { width: 4, height: 4 };
    let mut data: Vec<u8> = Vec::new();
    for _ in 0..16 {
        data.extend_from_slice(&[90, 120, 200, 255]);
    }
    let original_data = data.clone();

    processor.sharpen(&mut data);

    assert_eq!(data, original_data);
}

#[test]
fn test_sharpen_exact_center() {
    // uniform 50 with a brighter center 60: 5*60 - 4*50 = 100
    let mut processor = ImageProcessor { width: 3, height: 3 };
    let mut data: Vec<u8> = Vec::new();
    for p in 0..9 {
        let v = if p == 4 { 60 } else { 50 };
        data.extend_from_slice(&[v, v, v, 255]);
    }

    processor.sharpen(&mut data);

    assert_eq!(&data[16..20], &[100, 100, 100, 255]);
    // a border pixel is untouched
    assert_eq!(&data[0..4], &[50, 50, 50, 255]);
}

#[test]
fn test_gray_value_exact() {
    let processor = ImageProcessor { width: 3, height: 1 };
    let data = vec![
        255, 0, 0, 255, //
        0, 255, 0, 255, //
        0, 0, 255, 255, //
    ];

    // floor of 0.299*255, 0.587*255, 0.114*255
    assert_eq!(processor.get_gray_value(&data, 0, 0, 3), 76);
    assert_eq!(processor.get_gray_value(&data, 1, 0, 3), 149);
    assert_eq!(processor.get_gray_value(&data, 2, 0, 3), 29);
}

#[test]
fn test_blur_exact_row() {
    let mut processor = ImageProcessor { width: 3, height: 1 };
    let mut data = vec![
        255, 0, 0, 255, //
        0, 255, 0, 255, //
        0, 0, 255, 255, //
    ];

    // radius 1 pixel: windows [0,1], [0,2], [1,2]; the vertical pass is
    // the identity on a single row
    processor.gaussian_blur(&mut data, 2);

    assert_eq!(data, vec![127, 127, 0, 255, 85, 85, 85, 255, 0, 127, 127, 255]);
}

#[test]
fn test_posterization_exact_levels() {
    let processor = ImageProcessor { width: 1, height: 1 };
    let mut data = vec![100, 25, 200, 7];

    // quantize to multiples of 51: round(100/51)=2, round(25/51)=0,
    // round(200/51)=4; alpha kept
    processor.apply_anime_posterization(&mut data, 1, 1);

    assert_eq!(data, vec![102, 0, 204, 7]);
}

#[test]
fn test_hdr_enhancement_extremes() {
    let processor = ImageProcessor { width: 1, height: 1 };

    // black maps to black, white to white: the gamma curve fixes 0 and
    // 255, and the saturation boost around the luma cancels
    let mut black = vec![0, 0, 0, 255];
    processor.apply_hdr_enhancement(&mut black, 1, 1);
    assert_eq!(black, vec![0, 0, 0, 255]);

    let mut white = vec![255, 255, 255, 9];
    processor.apply_hdr_enhancement(&mut white, 1, 1);
    assert_eq!(white, vec![255, 255, 255, 9]);

    // a saturated primary is pushed to the cap, the other channels to 0
    let mut red = vec![255, 0, 0, 255];
    processor.apply_hdr_enhancement(&mut red, 1, 1);
    assert_eq!(red, vec![255, 0, 0, 255]);
}

#[test]
fn test_hdr_anime_small_image() {
    let mut processor = ImageProcessor { width: 1, height: 1 };

    // on a single pixel only the two point stages act; black and white
    // are fixed points of both
    let mut black = vec![0, 0, 0, 3];
    processor.hdr_anime(&mut black);
    assert_eq!(black, vec![0, 0, 0, 3]);

    let mut white = vec![255, 255, 255, 255];
    processor.hdr_anime(&mut white);
    assert_eq!(white, vec![255, 255, 255, 255]);
}

#[test]
fn test_hdr_anime_preserves_alpha_and_length() {
    let mut processor = ImageProcessor { width: 10, height: 10 };
    let mut data = create_test_image_data(10, 10);
    let original_len = data.len();

    processor.hdr_anime(&mut data);

    assert_eq!(data.len(), original_len);
    for i in (0..data.len()).step_by(4) {
        assert_eq!(data[i + 3], 255);
    }
}

#[test]
fn test_blur_alpha_untouched_odd_alpha() {
    // alpha bytes other than 255 are preserved too
    let mut processor = ImageProcessor { width: 2, height: 2 };
    let mut data = vec![
        10, 20, 30, 40, //
        50, 60, 70, 80, //
        90, 100, 110, 120, //
        130, 140, 150, 160, //
    ];

    processor.gaussian_blur(&mut data, 3);

    assert_eq!(data[3], 40);
    assert_eq!(data[7], 80);
    assert_eq!(data[11], 120);
    assert_eq!(data[15], 160);
}
