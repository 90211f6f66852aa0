use nb2nl::color::{Hsv, Rgb};

#[test]
fn test_hsv_to_rgb() {
    assert_eq!(Hsv::new(0, 700, 3600).to_rgb().to_hex(), 0x5C5555);
    assert_eq!(Hsv::new(2500, 5000, 2500).to_rgb().to_hex(), 0x402D20);
    assert_eq!(Hsv::new(4900, 7500, 1200).to_rgb().to_hex(), 0x1F1A08);
    assert_eq!(Hsv::new(6500, 1200, 8700).to_rgb().to_hex(), 0xDCDEC3);
    assert_eq!(Hsv::new(9000, 2200, 5500).to_rgb().to_hex(), 0x7D8C6D);
    assert_eq!(Hsv::new(9000, 2200, 5500).to_rgb().to_hex(), 0x7D8C6D);
    assert_eq!(Hsv::new(12000, 2600, 9100).to_rgb().to_hex(), 0xACE8AC);
    assert_eq!(Hsv::new(17500, 9700, 400).to_rgb().to_hex(), 0x000A09);
    assert_eq!(Hsv::new(18000, 10000, 10000).to_rgb().to_hex(), 0x00FFFF);
    assert_eq!(Hsv::new(21100, 1100, 5900).to_rgb().to_hex(), 0x868E96);
    assert_eq!(Hsv::new(29900, 5800, 9100).to_rgb().to_hex(), 0xE661E8);
    assert_eq!(Hsv::new(31000, 3300, 7700).to_rgb().to_hex(), 0xC484BA);
}

#[test]
fn hsv_vectors_give_exact_channels() {
    assert_eq!(Hsv::new(0, 700, 3600).to_rgb(), Rgb::new(0x5C, 0x55, 0x55));
    assert_eq!(Hsv::new(18000, 10000, 10000).to_rgb(), Rgb::new(0x00, 0xFF, 0xFF));
    assert_eq!(Hsv::new(29900, 5800, 9100).to_rgb(), Rgb::new(0xE6, 0x61, 0xE8));
}

#[test]
fn hsv_extremes_stay_in_channel_range() {
    assert_eq!(Hsv::new(0, 0, 0).to_rgb(), Rgb::new(0, 0, 0));
    assert_eq!(Hsv::new(0, 0, 10000).to_rgb(), Rgb::new(255, 255, 255));
    assert_eq!(Hsv::new(35999, 10000, 10000).to_rgb().to_inner(), (255, 0, 0));
    assert_eq!(Hsv::new(6000, 10000, 10000).to_rgb().to_inner(), (255, 255, 0));
}

#[test]
fn hue_upper_bound_is_rejected() {
    assert!(Hsv::checked(36000, 5000, 5000).is_none());
    assert_eq!(Hsv::checked(35999, 5000, 5000), Some(Hsv::new(35999, 5000, 5000)));
    assert!(Hsv::checked(0, 10001, 0).is_none());
    assert!(Hsv::checked(0, 0, 10001).is_none());
    assert!(Hsv::checked(0, 10000, 10000).is_some());
}

#[test]
fn rgb_channel_bounds_are_accepted() {
    assert_eq!(Rgb::checked(255, 0, 255), Some(Rgb::new(255, 0, 255)));
    assert_eq!(Rgb::checked(0, 0, 0), Some(Rgb::new(0, 0, 0)));
    assert!(Rgb::checked(256, 0, 0).is_none());
}

#[test]
fn rgb_packs_channels_as_hex() {
    assert_eq!(Rgb::new(0x12, 0x34, 0x56).to_hex(), 0x123456);
    assert_eq!(Rgb::new(1, 2, 3).to_inner(), (1, 2, 3));
}
