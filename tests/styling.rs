use colorize::color::{HEX_FORMAT_ERROR, HEX_VALUE_ERROR, RGB_FORMAT_ERROR};
use colorize::{Color, Colorize};

#[test]
fn main() {
    println!("{}", "Hello, World!".color("0,255,0"));
    println!("{}", "Error!".color("#FF0000"));

    println!("{}", "Bold Text".bold());
    println!("{}", "Italic Text".italic());
    println!("{}", "Underlined Text".underline());
    println!("{}", "Strikethrough Text".strikethrough());
    println!("{}", "Dim Text".dim());
    println!("{}", "Inverted Text".invert());

    println!("{}", "Background Color".bg_color("0,0,255"));

    println!(
        "{}",
        "ALL"
            .color("0,255,0")
            .bold()
            .italic()
            .underline()
            .strikethrough()
            .dim()
            .invert()
            .bg_color("0,0,255")
    );

    let msg = format!("{}", "Hello".color("0,255,0").bold());
    println!("{msg}");
}

#[test]
fn rgb_triplets_parse_to_their_channels() {
    assert_eq!(Color::from_rgb("255,0,0"), Ok(Color(255, 0, 0)));
    assert_eq!(Color::from_rgb("0,255,0"), Ok(Color(0, 255, 0)));
    assert_eq!(Color::from_rgb("12,34,56"), Ok(Color(12, 34, 56)));
    assert_eq!(Color::from_rgb("0,0,0"), Ok(Color(0, 0, 0)));
    assert_eq!(Color::from_rgb("255,255,255"), Ok(Color(255, 255, 255)));
    assert_eq!(Color::from_rgb("007,+8,0255"), Ok(Color(7, 8, 255)));
}

#[test]
fn rgb_rejects_wrong_shapes_and_values() {
    for bad in [
        "", "1,2", "1,2,3,4", "a,b,c", "1,2,x", "-1,0,0", "256,0,0", "0,0,1000", ",,", "1,,3",
        " 1,2,3", "+,1,2", "1.5,2,3",
    ] {
        assert_eq!(Color::from_rgb(bad), Err(RGB_FORMAT_ERROR), "input {bad:?}");
    }
    assert_eq!(RGB_FORMAT_ERROR, "Invalid RGB format");
}

#[test]
fn hex_codes_parse_to_their_channels() {
    assert_eq!(Color::from_hex("#FF0000"), Ok(Color(255, 0, 0)));
    assert_eq!(Color::from_hex("#00FF00"), Ok(Color(0, 255, 0)));
    assert_eq!(Color::from_hex("#0a1B2c"), Ok(Color(10, 27, 44)));
    assert_eq!(Color::from_hex("#000000"), Ok(Color(0, 0, 0)));
    assert_eq!(Color::from_hex("#ffffff"), Ok(Color(255, 255, 255)));
}

#[test]
fn hex_rejects_wrong_shape_as_format() {
    for bad in ["", "#", "#FFF", "#FF00000", "FF0000", "FF00000", "xFF0000"] {
        assert_eq!(Color::from_hex(bad), Err(HEX_FORMAT_ERROR), "input {bad:?}");
    }
    assert_eq!(HEX_FORMAT_ERROR, "Invalid HEX format");
}

#[test]
fn hex_rejects_non_hex_digits_as_value() {
    for bad in ["#GG0000", "#00ZZ00", "#0000-1", "#+F0000", "#12 456"] {
        assert_eq!(Color::from_hex(bad), Err(HEX_VALUE_ERROR), "input {bad:?}");
    }
    assert_eq!(HEX_VALUE_ERROR, "Invalid HEX value");
}

#[test]
fn unknown_color_leaves_text_unchanged() {
    assert_eq!("Hi".color("not-a-color"), "Hi");
    assert_eq!("Hi".bg_color("not-a-color"), "Hi");
    assert_eq!("".color("not-a-color"), "");
    assert_eq!("text".color("#12345"), "text");
    assert_eq!("text".bg_color("1,2,300"), "text");
}

#[test]
fn fixed_styles_wrap_text_exactly() {
    assert_eq!("Hi".bold(), "\x1b[1mHi\x1b[0m");
    assert_eq!("Hi".dim(), "\x1b[2mHi\x1b[0m");
    assert_eq!("Hi".italic(), "\x1b[3mHi\x1b[0m");
    assert_eq!("Hi".underline(), "\x1b[4mHi\x1b[0m");
    assert_eq!("Hi".invert(), "\x1b[7mHi\x1b[0m");
    assert_eq!("Hi".strikethrough(), "\x1b[9mHi\x1b[0m");
    assert_eq!("".bold(), "\x1b[1m\x1b[0m");
}

#[test]
fn colors_emit_24_bit_escapes() {
    assert_eq!("Hi".color("0,255,0"), "\x1b[38;2;0;255;0mHi\x1b[0m");
    assert_eq!("Hi".color("#FF0000"), "\x1b[38;2;255;0;0mHi\x1b[0m");
    assert_eq!("Hi".bg_color("0,0,255"), "\x1b[48;2;0;0;255mHi\x1b[0m");
    assert_eq!("Hi".bg_color("#0a1B2c"), "\x1b[48;2;10;27;44mHi\x1b[0m");
    assert_eq!("x".color("007,8,100"), "\x1b[38;2;7;8;100mx\x1b[0m");
}

#[test]
fn chained_styles_nest_escapes() {
    assert_eq!(
        "Hi".color("0,255,0").bold(),
        "\x1b[1m\x1b[38;2;0;255;0mHi\x1b[0m\x1b[0m"
    );
    assert_eq!(
        "Hi".italic().bg_color("#000000"),
        "\x1b[48;2;0;0;0m\x1b[3mHi\x1b[0m\x1b[0m"
    );
}

#[test]
fn hex_and_rgb_name_the_same_color() {
    assert_eq!(Color::from_hex("#00FF00"), Color::from_rgb("0,255,0"));
    assert_eq!(Color::from_hex("#0000FF"), Color::from_rgb("0,0,255"));
    assert_eq!(Color::from_hex("#00FF00"), Ok(Color(0, 255, 0)));
}

#[test]
fn non_ascii_text_is_kept_verbatim() {
    assert_eq!("héllo ✓".underline(), "\x1b[4mhéllo ✓\x1b[0m");
    assert_eq!("日本".color("#010203"), "\x1b[38;2;1;2;3m日本\x1b[0m");
}
