use creative_zone::color::{shade, tint, Color};
use creative_zone::framebuffer::Framebuffer;

#[test]
fn hex_packs_red_green_blue() {
    assert_eq!(Color::new(0x12, 0x34, 0x56).to_hex(), 0x123456);
    assert_eq!(Color::new(255, 255, 255).to_hex(), 0xFF_FFFF);
    assert_eq!(Color::new(0, 0, 0).to_hex(), 0);
}

#[test]
fn distinct_colors_pack_to_distinct_values() {
    assert_ne!(Color::new(1, 0, 0).to_hex(), Color::new(0, 1, 0).to_hex());
    assert_ne!(Color::new(0, 1, 0).to_hex(), Color::new(0, 0, 1).to_hex());
}

#[test]
fn tint_saturates_at_white() {
    let c = tint(Color::new(250, 10, 0), 10);
    assert_eq!((c.r, c.g, c.b), (255, 20, 10));
}

#[test]
fn shade_clamps_both_ways() {
    let darker = shade(Color::new(5, 100, 250), -10);
    assert_eq!((darker.r, darker.g, darker.b), (0, 90, 240));
    let lighter = shade(Color::new(5, 100, 250), 10);
    assert_eq!((lighter.r, lighter.g, lighter.b), (15, 110, 255));
}

#[test]
fn new_framebuffer_is_black() {
    let framebuffer = Framebuffer::new(4, 3);
    assert_eq!(framebuffer.width, 4);
    assert_eq!(framebuffer.height, 3);
    assert_eq!(framebuffer.color, vec![0; 12]);
}

#[test]
fn set_pixel_writes_row_major() {
    let mut framebuffer = Framebuffer::new(4, 3);
    framebuffer.set_pixel(1, 2, 0xABCDEF);
    assert_eq!(framebuffer.color[2 * 4 + 1], 0xABCDEF);
    assert_eq!(framebuffer.color.iter().filter(|p| **p != 0).count(), 1);
}
