use text_raster::color::Rgba;

#[test]
fn unpack_reads_the_four_channels() {
    let p = Rgba::unpack(0x80FF40C0);
    assert_eq!(p.a, 0x80);
    assert_eq!(p.r, 0xFF);
    assert_eq!(p.g, 0x40);
    assert_eq!(p.b, 0xC0);
}

#[test]
fn pack_writes_the_four_channels() {
    let p = Rgba { r: 0x12, g: 0x34, b: 0x56, a: 0x78 };
    assert_eq!(p.pack(), 0x78123456);
}

#[test]
fn pack_then_unpack_is_identity() {
    let p = Rgba { r: 3, g: 250, b: 0, a: 255 };
    assert_eq!(Rgba::unpack(p.pack()), p);
}

#[test]
fn unpack_then_pack_is_identity() {
    let c: u32 = 0xDEADBEEF;
    assert_eq!(Rgba::unpack(c).pack(), c);
}

#[test]
fn unpack_matches_the_text_shaper_layout() {
    let shaper_color = cosmic_text::Color::rgba(10, 20, 30, 40);
    let p = Rgba::unpack(shaper_color.0);
    assert_eq!(p.r, shaper_color.r());
    assert_eq!(p.g, shaper_color.g());
    assert_eq!(p.b, shaper_color.b());
    assert_eq!(p.a, shaper_color.a());
}

#[test]
fn pack_matches_the_text_shaper_layout() {
    let p = Rgba { r: 10, g: 20, b: 30, a: 40 };
    assert_eq!(p.pack(), cosmic_text::Color::rgba(10, 20, 30, 40).0);
}
