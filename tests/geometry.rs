use trustmark::geometry::{center_crop_size_and_offset, needs_boundary_mitigation};
use trustmark::Variant;

#[test]
fn normal_image() {
    assert_eq!(center_crop_size_and_offset(Variant::Q, 100, 110), (100, 110, 0, 0));
}

#[test]
fn skinny_image() {
    assert_eq!(center_crop_size_and_offset(Variant::Q, 10, 100), (10, 10, 0, 45));
}

#[test]
fn wide_image() {
    assert_eq!(center_crop_size_and_offset(Variant::Q, 101, 10), (10, 10, 45, 0));
}

#[test]
fn always_crop_p() {
    assert_eq!(center_crop_size_and_offset(Variant::P, 100, 110), (100, 100, 0, 5));
}

#[test]
fn crop_boundaries() {
    assert_eq!(center_crop_size_and_offset(Variant::B, 20, 10), (20, 10, 0, 0));
    assert_eq!(center_crop_size_and_offset(Variant::B, 21, 10), (10, 10, 5, 0));
    assert_eq!(center_crop_size_and_offset(Variant::C, 10, 21), (10, 10, 0, 5));
    assert_eq!(center_crop_size_and_offset(Variant::P, 7, 7), (7, 7, 0, 0));
    assert_eq!(
        center_crop_size_and_offset(Variant::Q, u32::MAX, 1),
        (1, 1, (u32::MAX - 1) / 2, 0)
    );
}

#[test]
fn crop_is_inside_the_image() {
    for v in [Variant::B, Variant::C, Variant::P, Variant::Q] {
        for w in 1..40u32 {
            for h in 1..40u32 {
                let (cw, ch, x, y) = center_crop_size_and_offset(v, w, h);
                assert!(x + cw <= w && y + ch <= h);
                if (cw, ch) != (w, h) {
                    assert_eq!(cw, ch);
                    assert_eq!(cw, w.min(h));
                    assert!(x == 0 || y == 0);
                }
            }
        }
    }
}

#[test]
fn mitigation_policy() {
    assert!(needs_boundary_mitigation(Variant::P, 100, 100));
    assert!(!needs_boundary_mitigation(Variant::Q, 100, 200));
    assert!(needs_boundary_mitigation(Variant::Q, 100, 201));
    assert!(needs_boundary_mitigation(Variant::Q, 201, 100));
    assert!(!needs_boundary_mitigation(Variant::B, 1000, 10));
}

#[test]
fn variant_names_and_files() {
    assert_eq!(Variant::Q.encoder_filename(), "encoder_Q.onnx");
    assert_eq!(Variant::B.decoder_filename(), "decoder_B.onnx");
    assert_eq!(Variant::P.decode_size(), 224);
    assert_eq!(Variant::C.decode_size(), 256);
    for v in [Variant::B, Variant::C, Variant::P, Variant::Q] {
        assert_eq!(v.name().parse::<Variant>().unwrap(), v);
    }
    assert!("X".parse::<Variant>().is_err());
    assert!("BB".parse::<Variant>().is_err());
}
