//! Tests of the value model, tag records and the template codec.

use covernc::elumatec::tag::Tag;
use covernc::elumatec::variant::Variant;
use covernc::elumatec::ElumatecExporter;

#[test]
fn parse_integer() {
    let value = Variant::from("0");
    assert_eq!(value, Variant::Int(0));
}

#[test]
fn variant_parse_float() {
    let value = Variant::from("0.0");
    assert_eq!(value, Variant::Float(0.0f32.to_bits()));
}

#[test]
fn variant_parse_string() {
    let value = Variant::from("\"This is a string\"");
    assert_eq!(value, Variant::String("This is a string".to_owned()));
}

#[test]
fn variant_serialize() {
    assert_eq!(Variant::Int(0).to_string(), "0".to_owned());
    assert_eq!(Variant::Float(0.5f32.to_bits()).to_string(), "0.5".to_owned());
    assert_eq!(
        Variant::String("string".to_owned()).to_string(),
        "\"string\"".to_owned()
    );
    assert_eq!(Variant::Null.to_string(), String::new());
}

#[test]
fn parse_line_comment() {
    let mut tag = Tag::new("tag");
    assert_eq!(tag.update_attributes("// this is a comment"), None);
    assert!(tag.is_empty());
}

#[test]
fn parse_line_with_comment() {
    let mut tag = Tag::new("tag");
    assert_eq!(
        tag.update_attributes("key = value // this is a comment"),
        Some(("key".to_owned(), Variant::String("value".to_owned())))
    );
    assert_eq!(tag.get("key"), Some(Variant::String("value".to_owned())));
}

#[test]
fn parse_int() {
    let mut tag = Tag::new("tag");
    assert_eq!(
        tag.update_attributes("Int = 0"),
        Some(("Int".to_owned(), Variant::Int(0)))
    );
}

#[test]
fn tag_parse_float() {
    let mut tag = Tag::new("tag");
    assert_eq!(
        tag.update_attributes("Float = 0.0"),
        Some(("Float".to_owned(), Variant::Float(0.0f32.to_bits())))
    );
}

#[test]
fn tag_parse_string() {
    let mut tag = Tag::new("tag");
    assert_eq!(
        tag.update_attributes("String = \"Some string\""),
        Some((
            "String".to_owned(),
            Variant::String("Some string".to_owned())
        ))
    );
}

#[test]
fn parse_null_value() {
    let mut tag = Tag::new("tag");
    assert_eq!(
        tag.update_attributes("Null = // null attribute"),
        Some(("Null".to_owned(), Variant::Null))
    );
}

#[test]
fn tag_serialize() {
    let mut tag = Tag::new("TAG");
    tag.set("Int", Variant::Int(0));
    tag.set("Float", Variant::Float(0.1f32.to_bits()));
    tag.update_attributes("String = string");

    assert_eq!(
        tag.to_string(),
        ":TAG\nFloat\t=\t0.1\nInt\t=\t0\nString\t=\t\"string\"\n\n"
    );
}

#[test]
fn elumatec_serialize() {
    let mut exporter = ElumatecExporter::default();
    let mut tag = Tag::new("TAG");

    tag.set("Int", Variant::Int(0));
    tag.set("Float", Variant::Float(0.0f32.to_bits()));
    tag.set("String", Variant::String("string".to_owned()));
    tag.set("V1", Variant::Int(0));
    tag.set("V10", Variant::Int(1));
    tag.set("V2", Variant::Int(2));

    exporter.push_tag(tag);
    let serialized = exporter.to_string();
    assert_eq!(
        serialized,
        ":TAG\nFloat\t=\t0\nInt\t=\t0\nString\t=\t\"string\"\nV1\t=\t0\nV2\t=\t2\nV10\t=\t1\n\n"
    );
}

#[test]
fn elumatec_parse_string() {
    let res = ElumatecExporter::read_template(
        r#"
            :TAG // mock tag
    // line comment
            Int = 0
            Float = 0.0
            String = "string"
        "#,
    );

    assert!(res.is_ok());
    let exporter = res.unwrap();

    assert_eq!(exporter.tag_count(), 1);
    let tag = exporter.tag_at(0);
    assert_eq!(tag.get("Int"), Some(Variant::Int(0)));
    assert_eq!(tag.get("Float"), Some(Variant::Float(0.0f32.to_bits())));
    assert_eq!(
        tag.get("String"),
        Some(Variant::String("string".to_owned()))
    );
}

#[test]
fn parse_empty_tag() {
    let res = ElumatecExporter::read_template(":TAG");
    assert!(res.is_ok());

    let exporter = res.unwrap();
    assert_eq!(exporter.tag_count(), 1);

    let tag = exporter.tag_at(0);
    assert!(tag.is_empty());
}

#[test]
fn should_ignore_headless_tag() {
    let res = ElumatecExporter::read_template(
        r#"
            Foo = test
            Bar = test
///////////////////////
            :TAG
            Int = 0
        "#,
    );

    assert!(res.is_ok());
    let exporter = res.unwrap();
    assert_eq!(exporter.tag_count(), 1);

    let tag = exporter.tag_at(0);
    assert_eq!(tag.get("Int"), Some(Variant::Int(0)));
}

#[test]
fn coerce_orders_kinds() {
    // integer text before float text before plain text
    assert_eq!(Variant::from("0"), Variant::Int(0));
    assert_eq!(Variant::from("0.0"), Variant::Float(0.0f32.to_bits()));
    assert_eq!(Variant::from("abc"), Variant::String("abc".to_owned()));
    assert_eq!(Variant::from("-5"), Variant::Int(-5));
    assert_eq!(Variant::from("+7"), Variant::Int(7));
    assert_eq!(Variant::from("   "), Variant::Null);
    // an integer too wide for 32 bits falls through to the float kind
    assert_eq!(
        Variant::from("2147483648"),
        Variant::Float(2147483648.0f32.to_bits())
    );
}

#[test]
fn render_coerce_is_lossy() {
    // rendering Float(0.0) yields "0", yet coercing "0" yields an
    // integer: the round trip is lossy across the kind boundary
    assert_eq!(Variant::Float(0.0f32.to_bits()).to_string(), "0");
    assert_eq!(Variant::from("0"), Variant::Int(0));
    assert_ne!(Variant::from(&Variant::Float(0.0f32.to_bits()).to_string()), Variant::Float(0.0f32.to_bits()));
}

#[test]
fn bad_assignment_line_is_reported() {
    // a double `=` inside an open tag fails with its 1-based line number
    let res = ElumatecExporter::read_template("\n:TAG\nTest == 5");
    assert!(res.is_err());
    assert_eq!(res.err().unwrap().line, 3);

    // the same line before any tag opens is silently ignored
    let res = ElumatecExporter::read_template("Test == 5\n:TAG");
    assert!(res.is_ok());
    assert_eq!(res.unwrap().tag_count(), 1);
}

#[test]
fn empty_template_parses() {
    let res = ElumatecExporter::read_template("");
    assert!(res.is_ok());
    assert_eq!(res.unwrap().tag_count(), 0);
}

#[test]
fn integer_bounds_round_trip() {
    assert_eq!(Variant::from("-2147483648"), Variant::Int(i32::MIN));
    assert_eq!(Variant::Int(i32::MIN).to_string(), "-2147483648");
    assert_eq!(Variant::from("2147483647"), Variant::Int(i32::MAX));
    assert_eq!(Variant::Int(-5).to_string(), "-5");
    // one step past the bound is no longer integer text
    assert_eq!(
        Variant::from("-2147483649"),
        Variant::Float((-2147483649.0f32).to_bits())
    );
}

#[test]
fn wide_floats_render_plainly() {
    assert_eq!(Variant::Float(10000.0f32.to_bits()).to_string(), "10000");
    assert_eq!(Variant::Float(0.0001f32.to_bits()).to_string(), "0.0001");
    assert_eq!(Variant::from("1e4"), Variant::Float(10000.0f32.to_bits()));
    assert_eq!(Variant::Float(12345.678f32.to_bits()).to_string(), "12345.678");
    assert_eq!(Variant::Float(1e9f32.to_bits()).to_string(), "1000000000");
    assert_eq!(
        Variant::Float(f32::MAX.to_bits()).to_string(),
        format!("{}", f32::MAX)
    );
    assert_eq!(
        Variant::Float(1e-44f32.to_bits()).to_string(),
        format!("{}", 1e-44f32)
    );
}

#[test]
fn special_floats_coerce_and_render() {
    assert_eq!(Variant::from("inf"), Variant::Float(f32::INFINITY.to_bits()));
    assert_eq!(Variant::from("Infinity"), Variant::Float(f32::INFINITY.to_bits()));
    assert_eq!(Variant::from("-INF"), Variant::Float(f32::NEG_INFINITY.to_bits()));
    assert_eq!(Variant::from("NAN"), Variant::Float(0x7FC0_0000));
    assert_eq!(Variant::Float(f32::INFINITY.to_bits()).to_string(), "inf");
    assert_eq!(Variant::Float(f32::NEG_INFINITY.to_bits()).to_string(), "-inf");
    assert_eq!(Variant::Float(f32::NAN.to_bits()).to_string(), "NaN");
}

#[test]
fn float_grammar_rejects_what_std_rejects() {
    // hexadecimal float text, NaN payloads and an empty exponent are
    // plain text, as the standard float grammar has it
    assert_eq!(Variant::from("0x1p3"), Variant::String("0x1p3".to_owned()));
    assert_eq!(Variant::from("nan(0x1)"), Variant::String("nan(0x1)".to_owned()));
    assert_eq!(Variant::from("1e"), Variant::String("1e".to_owned()));
    assert_eq!(Variant::from("1.e4"), Variant::Float(10000.0f32.to_bits()));
    assert_eq!(Variant::from(".5"), Variant::Float(0.5f32.to_bits()));
    assert_eq!(Variant::from("5."), Variant::Float(5.0f32.to_bits()));
}

#[test]
fn quotes_strip_one_layer() {
    assert_eq!(Variant::from("\"\"x\"\""), Variant::String("\"x\"".to_owned()));
    assert_eq!(Variant::from("\"\""), Variant::String("".to_owned()));
    assert_eq!(Variant::from("\""), Variant::String("\"".to_owned()));
}

#[test]
fn natural_order_matches_human_sort() {
    let mut keys = ["V1", "V10", "V2", "Alpha", "B2x"];
    human_sort::sort(&mut keys);
    assert_eq!(keys, ["Alpha", "B2x", "V1", "V2", "V10"]);

    let mut tag = Tag::new("T");
    tag.set("V1", Variant::Int(1));
    tag.set("V10", Variant::Int(10));
    tag.set("V2", Variant::Int(2));
    tag.set("Alpha", Variant::Int(0));
    tag.set("B2x", Variant::Int(3));
    let text = tag.to_string();
    let rendered: Vec<&str> = text
        .lines()
        .skip(1)
        .filter(|l| !l.is_empty())
        .map(|l| l.split('\t').next().unwrap())
        .collect();
    assert_eq!(rendered, keys);
}
