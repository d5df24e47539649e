use filling_polygon::color::Color;

#[test]
fn test_new() {
    let color = Color::new(255, 0, 0);
    assert_eq!(color.red, 255);
    assert_eq!(color.green, 0);
    assert_eq!(color.blue, 0);
}

#[test]
fn test_from_hex() {
    let color = Color::from_hex(0xFF0000);
    assert_eq!(color.red, 255);
    assert_eq!(color.green, 0);
    assert_eq!(color.blue, 0);
}

#[test]
fn test_to_hex() {
    let color = Color::new(255, 0, 0);
    assert_eq!(color.to_hex(), 0xFF0000);
}

#[test]
fn test_add() {
    let color1 = Color::new(100, 100, 100);
    let color2 = Color::new(100, 100, 100);
    let result = color1.add(color2);
    assert_eq!(result.red, 200);
    assert_eq!(result.green, 200);
    assert_eq!(result.blue, 200);
}

#[test]
fn test_add_overflow() {
    let color1 = Color::new(200, 200, 200);
    let color2 = Color::new(100, 100, 100);
    let result = color1.add(color2);
    assert_eq!(result.red, 255);
    assert_eq!(result.green, 255);
    assert_eq!(result.blue, 255);
}

#[test]
fn hex_round_trip_from_color() {
    let samples = [
        Color::new(0, 0, 0),
        Color::new(255, 255, 255),
        Color::new(1, 2, 3),
        Color::new(0x12, 0x34, 0x56),
        Color::new(255, 0, 128),
        Color::new(0, 255, 0),
    ];
    for color in samples.iter() {
        assert_eq!(Color::from_hex(color.to_hex()), *color);
    }
}

#[test]
fn hex_round_trip_from_number() {
    let samples: [u32; 8] = [0, 1, 0xFF, 0x100, 0xFFFF, 0x10000, 0x123456, 0xFFFFFF];
    for n in samples.iter() {
        assert_eq!(Color::from_hex(*n).to_hex(), *n);
    }
    let mut n: u32 = 0;
    while n <= 0xFFFFFF {
        assert_eq!(Color::from_hex(n).to_hex(), n);
        n += 4099;
    }
}

#[test]
fn to_hex_packs_red_high_and_blue_low() {
    assert_eq!(Color::new(0x12, 0x34, 0x56).to_hex(), 0x123456);
    assert_eq!(Color::new(0, 0, 1).to_hex(), 1);
    assert_eq!(Color::new(0, 1, 0).to_hex(), 0x100);
    assert_eq!(Color::new(1, 0, 0).to_hex(), 0x10000);
}

#[test]
fn from_hex_unpacks_each_channel() {
    let color = Color::from_hex(0x123456);
    assert_eq!(color, Color::new(0x12, 0x34, 0x56));
}

#[test]
fn from_hex_ignores_bits_above_the_low_24() {
    assert_eq!(Color::from_hex(0xFF123456), Color::new(0x12, 0x34, 0x56));
    assert_eq!(Color::from_hex(0x01000000), Color::new(0, 0, 0));
    assert_eq!(Color::from_hex(0xFF123456).to_hex(), 0x123456);
}

#[test]
fn add_saturates_each_channel_on_its_own() {
    let sum = Color::new(250, 10, 128).add(Color::new(10, 20, 128));
    assert_eq!(sum, Color::new(255, 30, 255));
}

#[test]
fn add_reaches_255_without_clamping() {
    let sum = Color::new(200, 0, 255).add(Color::new(55, 0, 0));
    assert_eq!(sum, Color::new(255, 0, 255));
}

#[test]
fn add_of_black_changes_nothing() {
    let color = Color::new(7, 8, 9);
    assert_eq!(color.add(Color::new(0, 0, 0)), color);
}

#[test]
fn colors_are_equal_when_all_channels_match() {
    assert_eq!(Color::new(1, 2, 3), Color::new(1, 2, 3));
    assert_ne!(Color::new(1, 2, 3), Color::new(1, 2, 4));
    assert_ne!(Color::new(1, 2, 3), Color::new(1, 3, 3));
    assert_ne!(Color::new(1, 2, 3), Color::new(0, 2, 3));
}
