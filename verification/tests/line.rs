use influent::measurement::{Measurement, Value};
use influent::serializer::line::{as_boolean, as_integer, as_string, escape, LineSerializer};
use influent::serializer::Serializer;

#[test]
fn test_as_boolean() {
    assert_eq!("t", as_boolean(&true));
    assert_eq!("f", as_boolean(&false));
}

#[test]
fn test_as_string() {
    assert_eq!("\"\\\"hello\\\"\"", as_string(&"\"hello\""));
}

#[test]
fn test_as_integer() {
    assert_eq!("1i", as_integer(&1i64));
    assert_eq!("345i", as_integer(&345i64));
    assert_eq!("2015i", as_integer(&2015i64));
    assert_eq!("-10i", as_integer(&-10i64));
}

fn as_float(f: &f64) -> String {
    let mut line = Vec::new();
    LineSerializer::write_escaped_value(&mut line, &Value::Float(f.to_string()));
    String::from_utf8(line).unwrap()
}

#[test]
fn test_as_float() {
    assert_eq!("1", as_float(&1f64));
    assert_eq!("1", as_float(&1.0f64));
    assert_eq!("-3.14", as_float(&-3.14f64));
    assert_eq!("10", as_float(&10f64));
}

#[test]
fn test_escape() {
    assert_eq!("\\ ", escape(" "));
    assert_eq!("\\,", escape(","));
    assert_eq!("hello\\,\\ gobwas", escape("hello, gobwas"));
}

#[test]
fn test_line_serializer_2() {
    let serializer = LineSerializer::new();
    let mut measurement = Measurement::new("key");

    measurement.add_field("s", Value::String("string".to_string()));
    measurement.add_field("i", Value::Integer(10));
    measurement.add_field("f", Value::Float(10f64.to_string()));
    measurement.add_field("b", Value::Boolean(false));

    measurement.add_tag("tag", "value");

    measurement.add_field("one, two", Value::String("three".to_string()));
    measurement.add_tag("one ,two", "three, four");

    measurement.set_timestamp(10);

    let line = String::from_utf8(serializer.serialize_buf(&measurement)).unwrap();
    assert_eq!("key,one\\ \\,two=three\\,\\ four,tag=value b=f,f=10,i=10i,one\\,\\ two=\"three\",s=\"string\" 10", line);
}

#[test]
fn test_line_serializer() {
    let serializer = LineSerializer::new();
    let mut measurement = Measurement::new("key");

    measurement.add_field("s", Value::String("string".to_string()));
    measurement.add_field("i", Value::Integer(10));
    measurement.add_field("f", Value::Float(10f64.to_string()));
    measurement.add_field("b", Value::Boolean(false));

    measurement.add_tag("tag", "value");

    measurement.add_field("one, two", Value::String("three".to_string()));
    measurement.add_tag("one ,two", "three, four");

    measurement.set_timestamp(10);

    assert_eq!("key,one\\ \\,two=three\\,\\ four,tag=value b=f,f=10,i=10i,one\\,\\ two=\"three\",s=\"string\" 10", serializer.serialize(&measurement));
}

#[test]
fn test_line_serializer_long_timestamp() {
    let serializer = LineSerializer::new();
    let mut measurement = Measurement::new("key");

    measurement.add_field("s", Value::String("string".to_string()));

    measurement.set_timestamp(1434055562000000000);

    assert_eq!("key s=\"string\" 1434055562000000000", serializer.serialize(&measurement));
}
