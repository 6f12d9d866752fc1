use sierpinski::color::{generate_color, rgb_to_hex, Color};

fn is_lower_hex(c: char) -> bool {
    ('0'..='9').contains(&c) || ('a'..='f').contains(&c)
}

#[test]
fn black_is_six_zeroes() {
    assert_eq!(Color::new(0, 0, 0).to_hex(), "#000000");
}

#[test]
fn white_is_six_f() {
    assert_eq!(Color::new(255, 255, 255).to_hex(), "#ffffff");
}

#[test]
fn channels_are_zero_padded_and_lowercase() {
    assert_eq!(Color::new(1, 2, 3).to_hex(), "#010203");
    assert_eq!(Color::new(255, 10, 171).to_hex(), "#ff0aab");
    assert_eq!(Color::new(16, 159, 254).to_hex(), "#109ffe");
}

#[test]
fn channels_come_in_red_green_blue_order() {
    assert_eq!(Color::new(0x12, 0x34, 0x56).to_hex(), "#123456");
}

#[test]
fn new_keeps_each_channel() {
    let c = Color::new(7, 8, 9);
    assert_eq!(c.red, 7);
    assert_eq!(c.green, 8);
    assert_eq!(c.blue, 9);
}

#[test]
fn every_channel_value_gives_two_hex_digits() {
    let mut v: u32 = 0;
    while v < 256 {
        let text = Color::new(v as u8, 0, 0).to_hex();
        assert_eq!(text, format!("#{:02x}0000", v));
        v += 1;
    }
}

#[test]
fn generated_text_is_hash_and_six_lowercase_hex_digits() {
    let mut i: u32 = 0;
    while i < 2000 {
        let text = rgb_to_hex();
        let chars: Vec<char> = text.chars().collect();
        assert_eq!(chars.len(), 7);
        assert_eq!(chars[0], '#');
        assert!(chars[1..].iter().all(|c| is_lower_hex(*c)));
        i += 1;
    }
}

#[test]
fn generated_channels_stay_below_255() {
    let mut i: u32 = 0;
    while i < 5000 {
        let c = generate_color();
        assert!(c.red < 255 && c.green < 255 && c.blue < 255);
        i += 1;
    }
}

#[test]
fn generated_colors_vary() {
    let first = generate_color();
    let mut differs = false;
    let mut i: u32 = 0;
    while i < 200 {
        if generate_color() != first {
            differs = true;
        }
        i += 1;
    }
    assert!(differs);
}
