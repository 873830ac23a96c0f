use seiren::color::{NamedColor, RGBColor, WebColor};

#[test]
fn rgb_color() {
    let color = RGBColor::new(255, 255, 255);
    assert_eq!(color.to_string(), "#FFFFFF");

    let color = RGBColor::new(0, 0, 0);
    assert_eq!(color.to_string(), "#000000");

    let color = RGBColor::new(73, 123, 145);
    assert_eq!(color.to_string(), "#497B91");
}

#[test]
fn named_color() {
    assert_eq!(NamedColor::White.to_string(), "white");
    assert_eq!(NamedColor::Black.to_string(), "black");
}

#[test]
fn web_color_text() {
    assert_eq!(WebColor::RGB(RGBColor::new(28, 28, 28)).to_string(), "#1C1C1C");
    assert_eq!(WebColor::RGB(RGBColor::new(236, 199, 0)).to_string(), "#ECC700");
    assert_eq!(WebColor::Named(NamedColor::White).to_string(), "white");
}

#[test]
fn rgb_text_is_seven_hex_characters() {
    for (r, g, b) in [(1u8, 2u8, 3u8), (16, 171, 205), (255, 0, 128)] {
        let text = RGBColor::new(r, g, b).to_string();
        assert_eq!(text.len(), 7);
        assert!(text.starts_with('#'));
        assert_eq!(u8::from_str_radix(&text[1..3], 16).unwrap(), r);
        assert_eq!(u8::from_str_radix(&text[3..5], 16).unwrap(), g);
        assert_eq!(u8::from_str_radix(&text[5..7], 16).unwrap(), b);
    }
}

#[test]
fn different_colors_have_different_text() {
    let a = RGBColor::new(17, 112, 251).to_string();
    let b = RGBColor::new(17, 112, 250).to_string();
    assert_ne!(a, b);
}

#[test]
fn default_colors() {
    assert_eq!(RGBColor::default().to_string(), "#000000");
    assert_eq!(WebColor::default().to_string(), "black");
}
