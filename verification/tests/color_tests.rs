use rasterizer::color::Color;

#[test]
fn new_clamps_channels() {
    let c = Color::new(-5, 300, 128);
    assert_eq!(c.r, 0);
    assert_eq!(c.g, 255);
    assert_eq!(c.b, 128);
}

#[test]
fn new_keeps_in_range_channels() {
    let c = Color::new(12, 0, 255);
    assert_eq!((c.r, c.g, c.b), (12, 0, 255));
}

#[test]
fn from_hex_unpacks_channels() {
    let c = Color::from_hex(0xFF5733);
    assert_eq!(c.r, 0xFF);
    assert_eq!(c.g, 0x57);
    assert_eq!(c.b, 0x33);
}

#[test]
fn from_hex_ignores_high_bits() {
    let c = Color::from_hex(0xFFFEF5E7);
    assert_eq!((c.r, c.g, c.b), (0xFE, 0xF5, 0xE7));
}

#[test]
fn to_hex_packs_channels() {
    let c = Color::new(255, 255, 0);
    assert_eq!(c.to_hex(), 0xFFFF00);
}

#[test]
fn hex_round_trip() {
    assert_eq!(Color::from_hex(0xABCDEF).to_hex(), 0xABCDEF);
    let c = Color::new(1, 2, 3);
    assert_eq!(Color::from_hex(c.to_hex()), c);
}

#[test]
fn saturating_add_saturates_per_channel() {
    let a = Color::new(200, 200, 0);
    let b = Color::new(100, 10, 5);
    let c = a.saturating_add(b);
    assert_eq!((c.r, c.g, c.b), (255, 210, 5));
}
