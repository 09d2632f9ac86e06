use raytracer::to_u32;

#[test]
fn packs_channels_as_0x00rrggbb() {
    assert_eq!(to_u32(0x12, 0x34, 0x56), 0x0012_3456);
    assert_eq!(to_u32(255, 255, 255), 0x00ff_ffff);
    assert_eq!(to_u32(0, 0, 0), 0);
    assert_eq!(to_u32(255, 0, 0), 0x00ff_0000);
    assert_eq!(to_u32(0, 255, 0), 0x0000_ff00);
    assert_eq!(to_u32(0, 0, 255), 0x0000_00ff);
}

#[test]
fn channels_can_be_read_back() {
    for (r, g, b) in [(1u8, 2u8, 3u8), (200, 100, 50), (204, 76, 76)] {
        let p = to_u32(r, g, b);
        assert_eq!((p >> 16) as u8, r);
        assert_eq!(((p >> 8) & 0xff) as u8, g);
        assert_eq!((p & 0xff) as u8, b);
        assert!(p < 0x0100_0000);
    }
}
