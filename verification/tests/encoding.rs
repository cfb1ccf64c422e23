use influent::decimal::write_decimal;
use influent::escape::{unescape, write_escaped, Profile};
use influent::measurement::{Measurement, Value};
use influent::order::{compare_bytes, Relation};
use influent::serializer::line::{as_integer, as_string, escape, LineSerializer};
use influent::serializer::Serializer;

fn encode(measurement: &Measurement) -> String {
    LineSerializer::new().serialize(measurement)
}

fn escaped(text: &str, profile: Profile) -> Vec<u8> {
    let mut out = Vec::new();
    write_escaped(&mut out, text.as_bytes(), profile);
    out
}

fn decimal(n: i64) -> String {
    let mut out = Vec::new();
    let written = write_decimal(&mut out, n);
    assert_eq!(written, out.len());
    String::from_utf8(out).unwrap()
}

#[test]
fn single_string_field() {
    let mut m = Measurement::new("key");
    m.add_field("s", Value::String("value".to_string()));
    assert_eq!("key s=\"value\"", encode(&m));
}

#[test]
fn tag_all_value_kinds_and_timestamp() {
    let mut m = Measurement::new("key");
    m.add_tag("tag", "value");
    m.add_field("s", Value::String("string".to_string()));
    m.add_field("i", Value::Integer(10));
    m.add_field("f", Value::Float(10.0f64.to_string()));
    m.add_field("b", Value::Boolean(false));
    m.set_timestamp(10);
    assert_eq!("key,tag=value b=f,f=10,i=10i,s=\"string\" 10", encode(&m));
}

#[test]
fn nineteen_digit_timestamp_keeps_every_digit() {
    let mut m = Measurement::new("key");
    m.add_field("s", Value::String("string".to_string()));
    m.set_timestamp(1434055562000000000);
    assert_eq!("key s=\"string\" 1434055562000000000", encode(&m));
}

#[test]
fn comma_in_key_is_escaped() {
    let mut m = Measurement::new("a,b");
    m.add_field("x", Value::Integer(1));
    assert_eq!("a\\,b x=1i", encode(&m));
}

#[test]
fn space_in_key_is_escaped() {
    let mut m = Measurement::new("a b");
    m.add_field("x", Value::Boolean(true));
    assert_eq!("a\\ b x=t", encode(&m));
}

#[test]
fn equals_sign_in_key_stays_bare() {
    let mut m = Measurement::new("a=b");
    m.add_field("x", Value::Integer(1));
    assert_eq!("a=b x=1i", encode(&m));
}

#[test]
fn insertion_order_does_not_show() {
    let mut a = Measurement::new("key");
    a.add_tag("host", "alpha");
    a.add_tag("zone", "west");
    a.add_field("load", Value::Integer(3));
    a.add_field("up", Value::Boolean(true));
    a.set_timestamp(-5);

    let mut b = Measurement::new("key");
    b.set_timestamp(-5);
    b.add_field("up", Value::Boolean(true));
    b.add_tag("zone", "west");
    b.add_field("load", Value::Integer(3));
    b.add_tag("host", "alpha");

    let serializer = LineSerializer::new();
    assert_eq!(serializer.serialize_buf(&a), serializer.serialize_buf(&b));
    assert_eq!("key,host=alpha,zone=west load=3i,up=t -5", encode(&a));
}

#[test]
fn names_are_ordered_by_their_bytes() {
    let mut m = Measurement::new("k");
    m.add_tag("b", "1");
    m.add_tag("ab", "2");
    m.add_tag("a", "3");
    m.add_tag("B", "4");
    m.add_tag("\u{e9}", "5");
    m.add_tag("", "6");
    m.add_field("z", Value::Integer(0));
    m.add_field("Z", Value::Integer(1));
    m.add_field("10", Value::Integer(2));
    m.add_field("9", Value::Integer(3));
    assert_eq!(
        "k,=6,B=4,a=3,ab=2,b=1,\u{e9}=5 10=2i,9=3i,Z=1i,z=0i",
        encode(&m)
    );
}

#[test]
fn a_name_added_again_takes_the_new_value() {
    let mut m = Measurement::new("k");
    m.add_tag("t", "old");
    m.add_tag("u", "kept");
    m.add_tag("t", "new");
    m.add_field("f", Value::Integer(1));
    m.add_field("g", Value::Integer(2));
    m.add_field("f", Value::String("now text".to_string()));
    assert_eq!("k,t=new,u=kept f=\"now text\",g=2i", encode(&m));
    assert_eq!(2, m.tags().len());
    assert_eq!(2, m.fields().len());
}

#[test]
fn the_last_timestamp_counts() {
    let mut m = Measurement::new("k");
    m.add_field("f", Value::Integer(1));
    assert_eq!(None, m.timestamp());
    m.set_timestamp(1);
    m.set_timestamp(2);
    assert_eq!(Some(2), m.timestamp());
    assert_eq!("k f=1i 2", encode(&m));
}

#[test]
fn without_tags_one_space_stands_before_the_fields() {
    let mut m = Measurement::new("k");
    m.add_field("a", Value::Integer(1));
    m.add_field("b", Value::Integer(2));
    assert_eq!("k a=1i,b=2i", encode(&m));
}

#[test]
fn without_fields_the_line_is_key_and_tags() {
    let m = Measurement::new("k");
    assert_eq!("k", encode(&m));

    let mut m = Measurement::new("k");
    m.add_tag("t", "v");
    assert_eq!("k,t=v", encode(&m));
    m.set_timestamp(7);
    assert_eq!("k,t=v 7", encode(&m));
}

#[test]
fn an_empty_key_is_written_as_it_is() {
    let mut m = Measurement::new("");
    m.add_field("f", Value::Integer(1));
    assert_eq!(" f=1i", encode(&m));
}

#[test]
fn equals_sign_in_tags_and_field_names_is_written_as_an_escaped_space() {
    let mut m = Measurement::new("k");
    m.add_tag("a=b", "c=d");
    m.add_field("e=f", Value::String("g=h".to_string()));
    assert_eq!("k,a\\ b=c\\ d e\\ f=\"g=h\"", encode(&m));
    assert_eq!(b"a\\ b".to_vec(), escaped("a=b", Profile::Tag));
    assert_eq!(escaped("a b", Profile::Tag), escaped("a=b", Profile::Tag));
}

#[test]
fn string_values_escape_only_the_quote() {
    let mut m = Measurement::new("k");
    m.add_field("s", Value::String("a, b=c \"d\" \\".to_string()));
    assert_eq!("k s=\"a, b=c \\\"d\\\" \\\"", encode(&m));
    assert_eq!("\"\"", as_string(""));
}

#[test]
fn tag_values_are_escaped_like_tag_names() {
    let mut m = Measurement::new("k");
    m.add_tag("t", "a \"b\", c");
    m.add_field("f", Value::Boolean(true));
    assert_eq!("k,t=a\\ \"b\"\\,\\ c f=t", encode(&m));
}

#[test]
fn float_text_is_written_as_it_stands() {
    let mut m = Measurement::new("k");
    m.add_field("a", Value::Float((-3.14f64).to_string()));
    m.add_field("b", Value::Float(1f64.to_string()));
    m.add_field("c", Value::Float(0.1f64.to_string()));
    assert_eq!("k a=-3.14,b=1,c=0.1", encode(&m));
}

#[test]
fn text_beyond_ascii_passes_through() {
    let mut m = Measurement::new("m\u{e9}t\u{e9}o, \u{1f321}");
    m.add_tag("\u{5730}\u{70b9}", "\u{6771}\u{4eac} \u{90fd}");
    m.add_field("\u{3b8}", Value::String("\u{201c}hot\u{201d} \"42\u{b0}\"".to_string()));
    assert_eq!(
        "m\u{e9}t\u{e9}o\\,\\ \u{1f321},\u{5730}\u{70b9}=\u{6771}\u{4eac}\\ \u{90fd} \u{3b8}=\"\u{201c}hot\u{201d} \\\"42\u{b0}\\\"\"",
        encode(&m)
    );
    assert_eq!("\u{e9}\\,\u{e9}", escape("\u{e9},\u{e9}"));
}

#[test]
fn text_and_bytes_of_a_line_agree() {
    let mut m = Measurement::new("k\u{e9}y");
    m.add_tag("t", "v");
    m.add_field("f", Value::Integer(-1));
    m.set_timestamp(0);
    let serializer = LineSerializer::new();
    assert_eq!(serializer.serialize(&m).into_bytes(), serializer.serialize_buf(&m));
    assert_eq!("k\u{e9}y,t=v f=-1i 0", serializer.serialize(&m));
}

#[test]
fn decimal_text_of_integers() {
    assert_eq!("0", decimal(0));
    assert_eq!("7", decimal(7));
    assert_eq!("10", decimal(10));
    assert_eq!("-1", decimal(-1));
    assert_eq!("1000000", decimal(1_000_000));
    assert_eq!("9007199254740993", decimal(9007199254740993));
    assert_eq!("9223372036854775807", decimal(i64::MAX));
    assert_eq!("-9223372036854775808", decimal(i64::MIN));
    assert_eq!("-9223372036854775808i", as_integer(&i64::MIN));
    assert_eq!("0i", as_integer(&0));
}

#[test]
fn decimal_text_is_appended() {
    let mut out = b"x ".to_vec();
    assert_eq!(3, write_decimal(&mut out, -42));
    assert_eq!(b"x -42".to_vec(), out);
}

#[test]
fn negative_timestamp() {
    let mut m = Measurement::new("k");
    m.add_field("f", Value::Boolean(false));
    m.set_timestamp(i64::MIN);
    assert_eq!("k f=f -9223372036854775808", encode(&m));
}

#[test]
fn escaped_text_is_appended_and_counted() {
    let mut out = b"x".to_vec();
    assert_eq!(6, LineSerializer::write_escaped_key(&mut out, "a, b"));
    assert_eq!(b"xa\\,\\ b".to_vec(), out);
    assert_eq!(3, LineSerializer::write_escaped_key(&mut out, "c=d"));
    assert_eq!(4, LineSerializer::write_escaped_tag(&mut out, "c=d"));
    assert_eq!(b"xa\\,\\ bc=dc\\ d".to_vec(), out);
    assert_eq!(0, LineSerializer::write_escaped_tag(&mut out, ""));
}

#[test]
fn values_are_appended_and_counted() {
    let mut out = Vec::new();
    assert_eq!(3, LineSerializer::write_escaped_value(&mut out, &Value::Integer(42)));
    assert_eq!(b"42i".to_vec(), out);

    let mut out = Vec::new();
    assert_eq!(1, LineSerializer::write_escaped_value(&mut out, &Value::Boolean(true)));
    assert_eq!(b"t".to_vec(), out);

    let mut out = Vec::new();
    assert_eq!(
        4,
        LineSerializer::write_escaped_value(&mut out, &Value::Float(2.25f64.to_string()))
    );
    assert_eq!(b"2.25".to_vec(), out);
}

#[test]
fn the_closing_quote_of_a_string_value_is_not_counted() {
    let mut out = Vec::new();
    let written =
        LineSerializer::write_escaped_value(&mut out, &Value::String("a\"b".to_string()));
    assert_eq!(b"\"a\\\"b\"".to_vec(), out);
    assert_eq!(out.len() - 1, written);
}

#[test]
fn unescaping_gives_the_text_back() {
    for text in ["", "plain", "a, b", ", ,", "back\\slash", "\\", "\\,", "\\\\ ", "q\"q", "\u{e9}, \u{1f321}"] {
        assert_eq!(text.as_bytes(), unescape(&escaped(text, Profile::Key), Profile::Key));
        assert_eq!(text.as_bytes(), unescape(&escaped(text, Profile::Tag), Profile::Tag));
        assert_eq!(text.as_bytes(), unescape(&escaped(text, Profile::Quoted), Profile::Quoted));
    }
    assert_eq!(b"a=b".to_vec(), unescape(&escaped("a=b", Profile::Key), Profile::Key));
    assert_eq!(b"a=b".to_vec(), unescape(&escaped("a=b", Profile::Quoted), Profile::Quoted));
}

#[test]
fn an_equals_sign_does_not_come_back_from_the_tag_profile() {
    assert_eq!(b"a b".to_vec(), unescape(&escaped("a=b", Profile::Tag), Profile::Tag));
}

#[test]
fn unescaping_leaves_other_backslashes_alone() {
    assert_eq!(b"a\\b,\\".to_vec(), unescape(b"a\\b\\,\\", Profile::Key));
    assert_eq!(b"\\\" ".to_vec(), unescape(b"\\\"\\ ", Profile::Tag));
    assert_eq!(b"\"\\,".to_vec(), unescape(b"\\\"\\,", Profile::Quoted));
}

#[test]
fn byte_strings_compare_lexicographically() {
    assert_eq!(Relation::Same, compare_bytes(b"", b""));
    assert_eq!(Relation::Same, compare_bytes(b"abc", b"abc"));
    assert_eq!(Relation::Before, compare_bytes(b"", b"a"));
    assert_eq!(Relation::After, compare_bytes(b"a", b""));
    assert_eq!(Relation::Before, compare_bytes(b"ab", b"abc"));
    assert_eq!(Relation::After, compare_bytes(b"abd", b"abc"));
    assert_eq!(Relation::Before, compare_bytes(b"Z", b"a"));
    assert_eq!(Relation::Before, compare_bytes(b"a\x7f", b"a\x80"));
    assert_eq!(Relation::After, compare_bytes("\u{e9}".as_bytes(), b"z"));
}

#[test]
fn accessors_list_entries_in_written_order() {
    let mut m = Measurement::new("key");
    m.add_tag("b", "2");
    m.add_tag("a", "1");
    m.add_field("y", Value::Integer(2));
    m.add_field("x", Value::Integer(1));
    assert_eq!("key", m.key());
    let tags: Vec<(&str, &str)> =
        m.tags().iter().map(|(k, v)| (k.as_str(), v.as_str())).collect();
    assert_eq!(vec![("a", "1"), ("b", "2")], tags);
    let fields: Vec<&str> = m.fields().iter().map(|(k, _)| k.as_str()).collect();
    assert_eq!(vec!["x", "y"], fields);
}
