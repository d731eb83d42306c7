use typst::blend::{alpha_mul, blend_src_over, composite_glyph, GlyphBitmap};

#[test]
fn alpha_mul_halves_every_byte() {
    assert_eq!(alpha_mul(0xff80_4020, 128), 0x7f40_2010);
}

#[test]
fn alpha_mul_full_scale_keeps_color() {
    assert_eq!(alpha_mul(0x1234_5678, 256), 0x1234_5678);
    assert_eq!(alpha_mul(0x1234_5678, 0), 0);
}

#[test]
fn blend_opaque_source_replaces() {
    assert_eq!(blend_src_over(0xff11_2233, 0xffaa_bbcc), 0xff11_2233);
}

#[test]
fn blend_transparent_source_keeps_destination() {
    assert_eq!(blend_src_over(0, 0xffaa_bbcc), 0xffaa_bbcc);
}

#[test]
fn blend_half_transparent() {
    // src alpha 0x80: dst bytes are scaled by 128 / 256.
    assert_eq!(blend_src_over(0x8040_2010, 0xff00_ff00), 0xff40_9f10);
}

#[test]
fn glyph_is_composited_by_coverage() {
    let mut pixels = vec![0xff00_0000u32; 6];
    let glyph = GlyphBitmap { left: 0, top: 0, width: 3, height: 1, coverage: vec![255, 0, 128] };
    composite_glyph(&mut pixels, 3, 2, &glyph, 0xff00_00ff);
    assert_eq!(pixels, vec![0xff00_00ff, 0xff00_0000, 0xff00_007f, 0xff00_0000, 0xff00_0000, 0xff00_0000]);
}

#[test]
fn glyph_is_clipped_at_canvas_edges() {
    let mut pixels = vec![0xff00_0000u32; 6];
    let glyph = GlyphBitmap { left: -1, top: 1, width: 3, height: 2, coverage: vec![9, 0, 128, 7, 7, 7] };
    composite_glyph(&mut pixels, 3, 2, &glyph, 0xff00_00ff);
    assert_eq!(pixels, vec![0xff00_0000, 0xff00_0000, 0xff00_0000, 0xff00_0000, 0xff00_007f, 0xff00_0000]);
}
