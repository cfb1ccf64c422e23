//! The line serializer: one measurement, one line.
//!
//! ```text
//! line          = key [tag-section] [" " field-section] [" " timestamp]
//! tag-section   = 1*("," tag-name "=" tag-value)
//! field-section = field *("," field)
//! field         = field-name "=" field-value
//! field-value   = quoted-string | integer "i" | float | ("t" | "f")
//! ```
//!
//! Tags and fields are written in ascending order of the UTF-8 bytes of
//! their names, so a line does not depend on the order in which they were
//! added. A measurement without fields is written as its key and tags alone:
//! the space that separates the field section goes with its first field.

use crate::decimal::{decimal, lemma_decimal_digits_ascii, write_decimal};
use crate::escape::{
    escaped, lemma_escaped_utf8, write_escaped, Profile, COMMA, EQUALS, QUOTE, SPACE,
};
use crate::measurement::{names, Measurement, MeasurementView, Value, ValueView};
use crate::order::ordered_names;
use crate::serializer::Serializer;
use crate::text::{is_ascii_bytes, lemma_ascii_is_utf8, text_of, write_bytes};
use vstd::prelude::*;
use vstd::utf8::*;

verus! {

/// `i`, which marks an integer value.
pub const INTEGER_MARK: u8 = 0x69;

/// `t`, the boolean value true.
pub const TRUE_MARK: u8 = 0x74;

/// `f`, the boolean value false.
pub const FALSE_MARK: u8 = 0x66;

/// A field value as it stands in a line.
pub open spec fn formatted(value: ValueView) -> Seq<u8> {
    match value {
        ValueView::String(s) => seq![QUOTE] + escaped(Profile::Quoted, encode_utf8(s)) + seq![
            QUOTE,
        ],
        ValueView::Float(text) => encode_utf8(text),
        ValueView::Integer(n) => decimal(n as int).push(INTEGER_MARK),
        ValueView::Boolean(b) => if b {
            seq![TRUE_MARK]
        } else {
            seq![FALSE_MARK]
        },
    }
}

/// One tag as it stands in a line, with the comma in front of it.
pub open spec fn tag_item(name: Seq<char>, value: Seq<char>) -> Seq<u8> {
    seq![COMMA] + escaped(Profile::Tag, encode_utf8(name)) + seq![EQUALS] + escaped(
        Profile::Tag,
        encode_utf8(value),
    )
}

/// The tags `names` of `tags`, in that order.
pub open spec fn tag_section(tags: Map<Seq<char>, Seq<char>>, names: Seq<Seq<char>>) -> Seq<u8>
    decreases names.len(),
{
    if names.len() == 0 {
        Seq::empty()
    } else {
        tag_section(tags, names.drop_last()) + tag_item(names.last(), tags[names.last()])
    }
}

/// One field as it stands in a line, without a separator.
pub open spec fn field_item(name: Seq<char>, value: ValueView) -> Seq<u8> {
    escaped(Profile::Tag, encode_utf8(name)) + seq![EQUALS] + formatted(value)
}

/// The fields `names` of `fields`, in that order: a space in front of the
/// first, a comma in front of each of the others.
pub open spec fn field_section(fields: Map<Seq<char>, ValueView>, names: Seq<Seq<char>>) -> Seq<u8>
    decreases names.len(),
{
    if names.len() == 0 {
        Seq::empty()
    } else {
        field_section(fields, names.drop_last()) + seq![
            if names.len() == 1 {
                SPACE
            } else {
                COMMA
            },
        ] + field_item(names.last(), fields[names.last()])
    }
}

/// The end of a line: a space and the timestamp, if there is one.
pub open spec fn timestamp_section(timestamp: Option<i64>) -> Seq<u8> {
    match timestamp {
        Some(t) => seq![SPACE] + decimal(t as int),
        None => Seq::empty(),
    }
}

/// The line that encodes a measurement.
pub open spec fn line(m: MeasurementView) -> Seq<u8> {
    escaped(Profile::Key, encode_utf8(m.key)) + tag_section(m.tags, ordered_names(m.tags.dom()))
        + field_section(m.fields, ordered_names(m.fields.dom())) + timestamp_section(m.timestamp)
}

/// The decimal text of a number is valid UTF-8.
pub proof fn lemma_decimal_utf8(n: int)
    ensures
        is_ascii_bytes(decimal(n)),
        valid_utf8(decimal(n)),
{
    if n < 0 {
        lemma_decimal_digits_ascii((-n) as nat);
    } else {
        lemma_decimal_digits_ascii(n as nat);
    }
    lemma_ascii_is_utf8(decimal(n));
}

/// A formatted value is valid UTF-8.
pub proof fn lemma_formatted_utf8(value: ValueView)
    ensures
        valid_utf8(formatted(value)),
{
    match value {
        ValueView::String(s) => {
            let inner = escaped(Profile::Quoted, encode_utf8(s));
            encode_utf8_valid_utf8(s);
            lemma_escaped_utf8(Profile::Quoted, encode_utf8(s));
            lemma_ascii_is_utf8(seq![QUOTE]);
            valid_utf8_concat(seq![QUOTE], inner);
            valid_utf8_concat(seq![QUOTE] + inner, seq![QUOTE]);
        },
        ValueView::Float(text) => {
            encode_utf8_valid_utf8(text);
        },
        ValueView::Integer(n) => {
            lemma_decimal_utf8(n as int);
            lemma_ascii_is_utf8(decimal(n as int).push(INTEGER_MARK));
        },
        ValueView::Boolean(b) => {
            lemma_ascii_is_utf8(formatted(value));
        },
    }
}

/// A tag section is valid UTF-8.
pub proof fn lemma_tag_section_utf8(tags: Map<Seq<char>, Seq<char>>, names: Seq<Seq<char>>)
    ensures
        valid_utf8(tag_section(tags, names)),
    decreases names.len(),
{
    if names.len() > 0 {
        let name = escaped(Profile::Tag, encode_utf8(names.last()));
        let value = escaped(Profile::Tag, encode_utf8(tags[names.last()]));
        lemma_tag_section_utf8(tags, names.drop_last());
        encode_utf8_valid_utf8(names.last());
        encode_utf8_valid_utf8(tags[names.last()]);
        lemma_escaped_utf8(Profile::Tag, encode_utf8(names.last()));
        lemma_escaped_utf8(Profile::Tag, encode_utf8(tags[names.last()]));
        lemma_ascii_is_utf8(seq![COMMA]);
        lemma_ascii_is_utf8(seq![EQUALS]);
        valid_utf8_concat(seq![COMMA], name);
        valid_utf8_concat(seq![COMMA] + name, seq![EQUALS]);
        valid_utf8_concat(seq![COMMA] + name + seq![EQUALS], value);
        valid_utf8_concat(
            tag_section(tags, names.drop_last()),
            tag_item(names.last(), tags[names.last()]),
        );
    }
}

/// A field section is valid UTF-8.
pub proof fn lemma_field_section_utf8(fields: Map<Seq<char>, ValueView>, names: Seq<Seq<char>>)
    ensures
        valid_utf8(field_section(fields, names)),
    decreases names.len(),
{
    if names.len() > 0 {
        let name = escaped(Profile::Tag, encode_utf8(names.last()));
        let value = formatted(fields[names.last()]);
        let separator = seq![
            if names.len() == 1 {
                SPACE
            } else {
                COMMA
            },
        ];
        lemma_field_section_utf8(fields, names.drop_last());
        encode_utf8_valid_utf8(names.last());
        lemma_escaped_utf8(Profile::Tag, encode_utf8(names.last()));
        lemma_formatted_utf8(fields[names.last()]);
        lemma_ascii_is_utf8(separator);
        lemma_ascii_is_utf8(seq![EQUALS]);
        valid_utf8_concat(name, seq![EQUALS]);
        valid_utf8_concat(name + seq![EQUALS], value);
        valid_utf8_concat(field_section(fields, names.drop_last()), separator);
        valid_utf8_concat(
            field_section(fields, names.drop_last()) + separator,
            field_item(names.last(), fields[names.last()]),
        );
    }
}

/// Every line is valid UTF-8.
pub proof fn lemma_line_utf8(m: MeasurementView)
    ensures
        valid_utf8(line(m)),
{
    let key = escaped(Profile::Key, encode_utf8(m.key));
    let tags = tag_section(m.tags, ordered_names(m.tags.dom()));
    let fields = field_section(m.fields, ordered_names(m.fields.dom()));
    let end = timestamp_section(m.timestamp);
    encode_utf8_valid_utf8(m.key);
    lemma_escaped_utf8(Profile::Key, encode_utf8(m.key));
    lemma_tag_section_utf8(m.tags, ordered_names(m.tags.dom()));
    lemma_field_section_utf8(m.fields, ordered_names(m.fields.dom()));
    match m.timestamp {
        Some(t) => {
            lemma_decimal_utf8(t as int);
            lemma_ascii_is_utf8(seq![SPACE]);
            valid_utf8_concat(seq![SPACE], decimal(t as int));
        },
        None => {},
    }
    valid_utf8_concat(key, tags);
    valid_utf8_concat(key + tags, fields);
    valid_utf8_concat(key + tags + fields, end);
}

/// Two measurements with the same key, the same timestamp, the same tags and
/// the same fields are encoded as the same line, in whatever order their tags
/// and fields were added.
pub proof fn lemma_line_ignores_insertion_order(a: Measurement, b: Measurement)
    requires
        a@.key == b@.key,
        a@.timestamp == b@.timestamp,
        a@.tags == b@.tags,
        a@.fields == b@.fields,
    ensures
        line(a@) == line(b@),
{
}

/// Two tags with different names can be added in either order: the line is
/// the same.
pub proof fn lemma_tags_commute(
    m: MeasurementView,
    name_a: Seq<char>,
    value_a: Seq<char>,
    name_b: Seq<char>,
    value_b: Seq<char>,
)
    requires
        name_a != name_b,
    ensures
        line(MeasurementView { tags: m.tags.insert(name_a, value_a).insert(name_b, value_b), ..m })
            == line(
            MeasurementView { tags: m.tags.insert(name_b, value_b).insert(name_a, value_a), ..m },
        ),
{
    assert(m.tags.insert(name_a, value_a).insert(name_b, value_b) =~= m.tags.insert(
        name_b,
        value_b,
    ).insert(name_a, value_a));
}

/// Two fields with different names can be added in either order: the line is
/// the same.
pub proof fn lemma_fields_commute(
    m: MeasurementView,
    name_a: Seq<char>,
    value_a: ValueView,
    name_b: Seq<char>,
    value_b: ValueView,
)
    requires
        name_a != name_b,
    ensures
        line(
            MeasurementView { fields: m.fields.insert(name_a, value_a).insert(name_b, value_b), ..m },
        ) == line(
            MeasurementView { fields: m.fields.insert(name_b, value_b).insert(name_a, value_a), ..m },
        ),
{
    assert(m.fields.insert(name_a, value_a).insert(name_b, value_b) =~= m.fields.insert(
        name_b,
        value_b,
    ).insert(name_a, value_a));
}

/// The line serializer.
pub struct LineSerializer;

impl LineSerializer {
    /// A line serializer.
    pub fn new() -> (serializer: LineSerializer) {
        LineSerializer
    }

    /// Appends a measurement key to `w`, with `,` and ` ` escaped, and
    /// returns the number of bytes appended.
    pub fn write_escaped_key(w: &mut Vec<u8>, key: &str) -> (written: usize)
        ensures
            final(w)@ == old(w)@ + escaped(Profile::Key, encode_utf8(key@)),
            written == escaped(Profile::Key, encode_utf8(key@)).len(),
    {
        write_escaped(w, key.as_bytes(), Profile::Key)
    }

    /// Appends a tag name, a tag value or a field name to `w`, with `,`, ` `
    /// and `=` escaped, and returns the number of bytes appended. An `=` is
    /// written as `\ `, the escape sequence of the space.
    pub fn write_escaped_tag(w: &mut Vec<u8>, tag: &str) -> (written: usize)
        ensures
            final(w)@ == old(w)@ + escaped(Profile::Tag, encode_utf8(tag@)),
            written == escaped(Profile::Tag, encode_utf8(tag@)).len(),
    {
        write_escaped(w, tag.as_bytes(), Profile::Tag)
    }

    /// Appends a field value to `w` and returns the number of bytes counted.
    ///
    /// A string is written between double quotes, with each `"` in it
    /// escaped; an integer in decimal, followed by `i`; a float as its
    /// decimal text; a boolean as `t` or `f`. Every byte appended is counted
    /// but the closing quote of a string.
    pub fn write_escaped_value(w: &mut Vec<u8>, value: &Value) -> (written: usize)
        ensures
            final(w)@ == old(w)@ + formatted(value@),
            written == if value@ is String {
                formatted(value@).len() - 1
            } else {
                formatted(value@).len() as int
            },
    {
        let start: usize = w.len();
        match value {
            Value::String(s) => {
                w.push(QUOTE);
                write_escaped(w, s.as_str().as_bytes(), Profile::Quoted);
                let written: usize = w.len() - start;
                w.push(QUOTE);
                proof {
                    assert(w@ =~= old(w)@ + formatted(value@));
                }
                written
            },
            Value::Integer(i) => {
                write_decimal(w, *i);
                w.push(INTEGER_MARK);
                proof {
                    assert(w@ =~= old(w)@ + formatted(value@));
                }
                w.len() - start
            },
            Value::Float(text) => write_bytes(w, text.as_str().as_bytes()),
            Value::Boolean(b) => {
                w.push(
                    if *b {
                        TRUE_MARK
                    } else {
                        FALSE_MARK
                    },
                );
                proof {
                    assert(w@ =~= old(w)@ + formatted(value@));
                }
                w.len() - start
            },
        }
    }

    /// Encodes `measurement` as one line: the escaped key; the tags, in
    /// ascending order of their names, each behind a comma; the fields, in
    /// ascending order of their names, behind a space and with commas between
    /// them; and, behind a space, the timestamp if there is one. Without
    /// fields the line has no field section and no space for it. The line is
    /// valid UTF-8.
    pub fn serialize_buf(&self, measurement: &Measurement) -> (bytes: Vec<u8>)
        ensures
            bytes@ == line(measurement@),
            valid_utf8(bytes@),
    {
        let ghost m = measurement@;
        let mut buf: Vec<u8> = Vec::new();
        Self::write_escaped_key(&mut buf, measurement.key());
        let ghost head = escaped(Profile::Key, encode_utf8(m.key));
        proof {
            assert(buf@ =~= head);
        }

        let tags = measurement.tags();
        let mut i: usize = 0;
        proof {
            assert(buf@ =~= head + tag_section(m.tags, names(tags@).take(0)));
        }
        while i < tags.len()
            invariant
                i <= tags@.len(),
                names(tags@) == ordered_names(m.tags.dom()),
                forall|j: int|
                    0 <= j < tags@.len() ==> m.tags[(#[trigger] tags@[j]).0@] == tags@[j].1@,
                buf@ == head + tag_section(m.tags, names(tags@).take(i as int)),
            decreases tags@.len() - i,
        {
            let ghost before = buf@;
            buf.push(COMMA);
            Self::write_escaped_tag(&mut buf, tags[i].0.as_str());
            buf.push(EQUALS);
            Self::write_escaped_tag(&mut buf, tags[i].1.as_str());
            proof {
                let upto = names(tags@).take(i + 1);
                assert(upto.drop_last() =~= names(tags@).take(i as int));
                assert(upto.last() == tags@[i as int].0@);
                assert(buf@ =~= before + tag_item(tags@[i as int].0@, tags@[i as int].1@));
                assert(buf@ =~= head + tag_section(m.tags, upto));
            }
            i += 1;
        }
        let ghost tagged = buf@;
        proof {
            assert(names(tags@).take(i as int) =~= names(tags@));
        }

        let fields = measurement.fields();
        let mut i: usize = 0;
        proof {
            assert(buf@ =~= tagged + field_section(m.fields, names(fields@).take(0)));
        }
        while i < fields.len()
            invariant
                i <= fields@.len(),
                names(fields@) == ordered_names(m.fields.dom()),
                forall|j: int|
                    0 <= j < fields@.len() ==> m.fields[(#[trigger] fields@[j]).0@]
                        == fields@[j].1@,
                buf@ == tagged + field_section(m.fields, names(fields@).take(i as int)),
            decreases fields@.len() - i,
        {
            let ghost before = buf@;
            if i == 0 {
                buf.push(SPACE);
            } else {
                buf.push(COMMA);
            }
            Self::write_escaped_tag(&mut buf, fields[i].0.as_str());
            buf.push(EQUALS);
            Self::write_escaped_value(&mut buf, &fields[i].1);
            proof {
                let upto = names(fields@).take(i + 1);
                assert(upto.drop_last() =~= names(fields@).take(i as int));
                assert(upto.last() == fields@[i as int].0@);
                assert(buf@ =~= before + seq![
                    if i == 0 {
                        SPACE
                    } else {
                        COMMA
                    },
                ] + field_item(fields@[i as int].0@, fields@[i as int].1@));
                assert(buf@ =~= tagged + field_section(m.fields, upto));
            }
            i += 1;
        }
        proof {
            assert(names(fields@).take(i as int) =~= names(fields@));
        }

        match measurement.timestamp() {
            Some(timestamp) => {
                buf.push(SPACE);
                write_decimal(&mut buf, timestamp);
            },
            None => {},
        }
        proof {
            assert(buf@ =~= line(m));
            lemma_line_utf8(m);
        }
        buf
    }
}

impl Serializer for LineSerializer {
    /// Encodes `measurement` as one line of text.
    fn serialize(&self, measurement: &Measurement) -> (text: String)
        ensures
            encode_utf8(text@) == line(measurement@),
            text@ == decode_utf8(line(measurement@)),
    {
        text_of(self.serialize_buf(measurement))
    }
}

/// `s` as a measurement key stands in a line: with `,` and ` ` escaped.
pub fn escape(s: &str) -> (text: String)
    ensures
        encode_utf8(text@) == escaped(Profile::Key, encode_utf8(s@)),
        text@ == decode_utf8(escaped(Profile::Key, encode_utf8(s@))),
{
    let mut buf: Vec<u8> = Vec::new();
    LineSerializer::write_escaped_key(&mut buf, s);
    proof {
        assert(buf@ =~= escaped(Profile::Key, encode_utf8(s@)));
        encode_utf8_valid_utf8(s@);
        lemma_escaped_utf8(Profile::Key, encode_utf8(s@));
    }
    text_of(buf)
}

/// The value of a field, formatted as it stands in a line.
fn formatted_text(value: &Value) -> (text: String)
    ensures
        encode_utf8(text@) == formatted(value@),
        text@ == decode_utf8(formatted(value@)),
{
    let mut buf: Vec<u8> = Vec::new();
    LineSerializer::write_escaped_value(&mut buf, value);
    proof {
        assert(buf@ =~= formatted(value@));
        lemma_formatted_utf8(value@);
    }
    text_of(buf)
}

/// `s` as a string value stands in a line: between double quotes, with each
/// `"` in it escaped.
pub fn as_string(s: &str) -> (text: String)
    ensures
        encode_utf8(text@) == formatted(ValueView::String(s@)),
        text@ == decode_utf8(formatted(ValueView::String(s@))),
{
    formatted_text(&Value::String(s.to_owned()))
}

/// `i` as an integer value stands in a line: in decimal, followed by `i`.
pub fn as_integer(i: &i64) -> (text: String)
    ensures
        encode_utf8(text@) == formatted(ValueView::Integer(*i)),
        text@ == decode_utf8(formatted(ValueView::Integer(*i))),
{
    formatted_text(&Value::Integer(*i))
}

/// `b` as a boolean value stands in a line: `t` or `f`.
pub fn as_boolean(b: &bool) -> (text: String)
    ensures
        encode_utf8(text@) == formatted(ValueView::Boolean(*b)),
        text@ == decode_utf8(formatted(ValueView::Boolean(*b))),
{
    formatted_text(&Value::Boolean(*b))
}

} // verus!
