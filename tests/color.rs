use rasterizer::color::Color;

#[test]
fn from_rgb_packs_channels() {
    let c = Color::from_rgb(0x12, 0x34, 0x56);
    assert_eq!(c.u32(), 0x123456);
    assert_eq!(c, Color::new(0x123456));
}

#[test]
fn channels_unpack() {
    let c = Color::new(0xAB_CD_EF);
    assert_eq!(c.r(), 0xAB);
    assert_eq!(c.g(), 0xCD);
    assert_eq!(c.b(), 0xEF);
    assert_eq!(c.rgb(), (0xAB, 0xCD, 0xEF));
}

#[test]
fn channels_ignore_high_byte() {
    let c = Color::new(0xFF_01_02_03);
    assert_eq!(c.rgb(), (1, 2, 3));
    assert_eq!(c.u32(), 0xFF_01_02_03);
}

#[test]
fn round_trip_through_channels() {
    for &v in &[0u32, 0xFFFFFF, 0xFF0000, 0x00FF00, 0x0000FF, 0x7F807F] {
        let c = Color::new(v);
        let (r, g, b) = c.rgb();
        assert_eq!(Color::from_rgb(r, g, b), c);
    }
}
