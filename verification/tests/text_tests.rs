//! Tests of the text utilities, the field-text override steps, the PNG
//! encoding, and the command-line options type.

use automeme::canvas::Image;
use automeme::encode::image_to_png;
use automeme::field::{override_text_fields, regex_text_fields, Effect, Point, TextField};
use automeme::text::{clean_text_to_vec, path_to_clean_text};
use automeme::{Cli, Color};

fn plain_field(text: &str) -> TextField {
    TextField {
        text: String::from(text),
        uppercase: false,
        start: Point { x: 0, y: 0 },
        end: Point { x: 10, y: 10 },
        text_size: 5,
        text_color: Color { r: 0, g: 0, b: 0 },
        effects: vec![Effect::Shadow {
            color: Color { r: 1, g: 2, b: 3 },
            offset_ratio_hundredths: 6,
        }],
    }
}

#[test]
fn path_cleaning_replaces_separators() {
    assert_eq!(
        path_to_clean_text(String::from("mfw-code_doesnt-compile")),
        "mfw code doesnt compile"
    );
    assert_eq!(path_to_clean_text(String::from("plain")), "plain");
    assert_eq!(path_to_clean_text(String::from("")), "");
}

#[test]
fn clean_text_splits_and_trims() {
    assert_eq!(clean_text_to_vec(String::from("a |  b|c")), vec!["a", "b", "c"]);
    assert_eq!(clean_text_to_vec(String::from("single")), vec!["single"]);
    assert_eq!(clean_text_to_vec(String::from(" padded ")), vec!["padded"]);
    assert_eq!(clean_text_to_vec(String::from("x||y")), vec!["x", "", "y"]);
}

#[test]
fn override_replaces_in_order_and_ignores_extras() {
    let fields = vec![plain_field("one"), plain_field("two"), plain_field("three")];
    let out = override_text_fields(
        fields,
        vec![String::from("A"), String::from("B")],
    );
    assert_eq!(out.len(), 3);
    assert_eq!(out[0].text, "A");
    assert_eq!(out[1].text, "B");
    assert_eq!(out[2].text, "three");
    // Everything but the text is kept.
    assert_eq!(out[0].text_size, 5);
    assert_eq!(out[0].effects.len(), 1);

    let out2 = override_text_fields(
        vec![plain_field("only")],
        vec![String::from("X"), String::from("ignored")],
    );
    assert_eq!(out2.len(), 1);
    assert_eq!(out2[0].text, "X");
}

#[test]
fn substring_substitution_in_every_field() {
    let fields = vec![
        plain_field("wouldnt you like to know, weather boy?"),
        plain_field("weather boy and weather boy"),
    ];
    let out = regex_text_fields(
        fields,
        String::from("weather boy"),
        String::from("type checker"),
    );
    assert_eq!(out[0].text, "wouldnt you like to know, type checker?");
    assert_eq!(out[1].text, "type checker and type checker");
}

#[test]
fn substitution_of_empty_pattern_inserts_everywhere() {
    let out = regex_text_fields(vec![plain_field("ab")], String::from(""), String::from("x"));
    assert_eq!(out[0].text, "xaxbx");
}

#[test]
fn png_encoding_round_trips() {
    let img = Image::new_filled(3, 2, Color { r: 10, g: 200, b: 30 });
    let png = image_to_png(&img);
    // A real PNG stream, not the raw pixels handed back.
    assert_eq!(&png[0..8], &[0x89u8, 0x50, 0x4e, 0x47, 0x0d, 0x0a, 0x1a, 0x0a]);
    assert_ne!(png.len(), img.bytes().len());
    let decoded = image::load_from_memory(&png).unwrap().to_rgba8();
    assert_eq!(decoded.width(), 3);
    assert_eq!(decoded.height(), 2);
    assert_eq!(&decoded.into_raw(), img.bytes());
}

#[test]
fn cli_defaults_to_random_template() {
    let cli = Cli::default();
    assert_eq!(cli.template_name, "random");
}
