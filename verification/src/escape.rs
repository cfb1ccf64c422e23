//! Escaping of text on its way into a line.
//!
//! A profile names the bytes that must not stand bare in one part of the
//! line. Escaping works byte by byte on the UTF-8 form of a text: every byte
//! that a profile marks is an ASCII byte, so multi-byte characters pass
//! through untouched.

use crate::text::{is_ascii_bytes, lemma_ascii_is_utf8, lemma_first_scalar_is_utf8};
use vstd::prelude::*;
use vstd::utf8::*;

verus! {

/// `\`, which introduces every escape sequence.
pub const BACKSLASH: u8 = 0x5c;

/// `,`, which separates tags and fields.
pub const COMMA: u8 = 0x2c;

/// ` `, which separates the sections of a line.
pub const SPACE: u8 = 0x20;

/// `=`, which separates a name from its value.
pub const EQUALS: u8 = 0x3d;

/// `"`, which delimits a string value.
pub const QUOTE: u8 = 0x22;

/// The escaping rules of one part of a line.
#[derive(Clone, Copy, Debug, PartialEq, Eq, Structural)]
pub enum Profile {
    /// The measurement key: `,` and ` ` are escaped.
    Key,
    /// Tag names, tag values and field names: `,`, ` ` and `=` are escaped,
    /// and `=` is written with the escape sequence of the space.
    Tag,
    /// The inside of a quoted string value: only `"` is escaped.
    Quoted,
}

/// What `profile` writes for the single byte `b`.
pub open spec fn escaped_byte(profile: Profile, b: u8) -> Seq<u8> {
    match profile {
        Profile::Key => if b == COMMA || b == SPACE {
            seq![BACKSLASH, b]
        } else {
            seq![b]
        },
        Profile::Tag => if b == COMMA || b == SPACE {
            seq![BACKSLASH, b]
        } else if b == EQUALS {
            seq![BACKSLASH, SPACE]
        } else {
            seq![b]
        },
        Profile::Quoted => if b == QUOTE {
            seq![BACKSLASH, b]
        } else {
            seq![b]
        },
    }
}

/// `text` escaped under `profile`: the escaped forms of its bytes, in order.
pub open spec fn escaped(profile: Profile, text: Seq<u8>) -> Seq<u8>
    decreases text.len(),
{
    if text.len() == 0 {
        Seq::empty()
    } else {
        escaped_byte(profile, text[0]) + escaped(profile, text.drop_first())
    }
}

/// The bytes that `profile` writes behind a backslash.
pub open spec fn follows_backslash(profile: Profile, b: u8) -> bool {
    match profile {
        Profile::Key => b == COMMA || b == SPACE,
        Profile::Tag => b == COMMA || b == SPACE,
        Profile::Quoted => b == QUOTE,
    }
}

/// `text` with the escape sequences of `profile` taken out again: a
/// backslash and the byte behind it, where the profile writes that byte
/// behind a backslash, stand for the byte alone.
pub open spec fn unescaped(profile: Profile, text: Seq<u8>) -> Seq<u8>
    decreases text.len(),
{
    if text.len() == 0 {
        Seq::empty()
    } else if text[0] == BACKSLASH && text.len() >= 2 && follows_backslash(profile, text[1]) {
        seq![text[1]] + unescaped(profile, text.skip(2))
    } else {
        seq![text[0]] + unescaped(profile, text.drop_first())
    }
}

/// Escaping distributes over concatenation.
pub proof fn lemma_escaped_concat(profile: Profile, a: Seq<u8>, b: Seq<u8>)
    ensures
        escaped(profile, a + b) == escaped(profile, a) + escaped(profile, b),
    decreases a.len(),
{
    if a.len() == 0 {
        assert(a + b =~= b);
        assert(escaped(profile, a) + escaped(profile, b) =~= escaped(profile, b));
    } else {
        lemma_escaped_concat(profile, a.drop_first(), b);
        assert((a + b).drop_first() =~= a.drop_first() + b);
        assert(escaped(profile, a + b) =~= escaped(profile, a) + escaped(profile, b));
    }
}

/// Escaping a text that grew by one byte appends that byte's escaped form.
pub proof fn lemma_escaped_push(profile: Profile, a: Seq<u8>, b: u8)
    ensures
        escaped(profile, a.push(b)) == escaped(profile, a) + escaped_byte(profile, b),
{
    lemma_escaped_concat(profile, a, seq![b]);
    assert(a.push(b) =~= a + seq![b]);
    assert(seq![b].drop_first() =~= Seq::<u8>::empty());
    assert(escaped(profile, Seq::<u8>::empty()) =~= Seq::<u8>::empty());
    assert(escaped(profile, seq![b]) =~= escaped_byte(profile, b));
}

/// Appends `text`, escaped under `profile`, to `w`, and returns the number of
/// bytes appended.
pub fn write_escaped(w: &mut Vec<u8>, text: &[u8], profile: Profile) -> (written: usize)
    ensures
        final(w)@ == old(w)@ + escaped(profile, text@),
        written == escaped(profile, text@).len(),
{
    let start: usize = w.len();
    let mut i: usize = 0;
    proof {
        assert(w@ =~= old(w)@ + escaped(profile, text@.take(0)));
    }
    while i < text.len()
        invariant
            i <= text.len(),
            start == old(w)@.len(),
            w@ == old(w)@ + escaped(profile, text@.take(i as int)),
        decreases text.len() - i,
    {
        let b: u8 = text[i];
        proof {
            lemma_escaped_push(profile, text@.take(i as int), b);
            assert(text@.take(i + 1) =~= text@.take(i as int).push(b));
        }
        let ghost before = w@;
        match profile {
            Profile::Key => {
                if b == COMMA || b == SPACE {
                    w.push(BACKSLASH);
                }
                w.push(b);
            },
            Profile::Tag => {
                if b == COMMA || b == SPACE {
                    w.push(BACKSLASH);
                    w.push(b);
                } else if b == EQUALS {
                    w.push(BACKSLASH);
                    w.push(SPACE);
                } else {
                    w.push(b);
                }
            },
            Profile::Quoted => {
                if b == QUOTE {
                    w.push(BACKSLASH);
                }
                w.push(b);
            },
        }
        proof {
            assert(w@ =~= before + escaped_byte(profile, b));
        }
        i += 1;
    }
    proof {
        assert(text@.take(i as int) =~= text@);
    }
    w.len() - start
}

/// Takes the escape sequences of `profile` out of `text`.
pub fn unescape(text: &[u8], profile: Profile) -> (plain: Vec<u8>)
    ensures
        plain@ == unescaped(profile, text@),
{
    let mut plain: Vec<u8> = Vec::new();
    let mut i: usize = 0;
    proof {
        assert(text@.skip(0) =~= text@);
    }
    while i < text.len()
        invariant
            i <= text@.len(),
            unescaped(profile, text@) == plain@ + unescaped(profile, text@.skip(i as int)),
        decreases text@.len() - i,
    {
        let ghost rest = text@.skip(i as int);
        let ghost before = plain@;
        let escape_sequence = text[i] == BACKSLASH && i + 1 < text.len() && match profile {
            Profile::Key => text[i + 1] == COMMA || text[i + 1] == SPACE,
            Profile::Tag => text[i + 1] == COMMA || text[i + 1] == SPACE,
            Profile::Quoted => text[i + 1] == QUOTE,
        };
        if escape_sequence {
            plain.push(text[i + 1]);
            proof {
                assert(rest.skip(2) =~= text@.skip(i + 2));
                assert(before + (seq![rest[1]] + unescaped(profile, rest.skip(2))) =~= plain@
                    + unescaped(profile, text@.skip(i + 2)));
            }
            i += 2;
        } else {
            plain.push(text[i]);
            proof {
                assert(rest.drop_first() =~= text@.skip(i + 1));
                assert(before + (seq![rest[0]] + unescaped(profile, rest.drop_first())) =~= plain@
                    + unescaped(profile, text@.skip(i + 1)));
            }
            i += 1;
        }
    }
    proof {
        assert(plain@ =~= plain@ + unescaped(profile, text@.skip(i as int)));
    }
    plain
}

/// A text made of bytes above the ASCII range is its own escaped form.
pub proof fn lemma_escaped_beyond_ascii(profile: Profile, text: Seq<u8>)
    requires
        forall|i: int| 0 <= i < text.len() ==> #[trigger] text[i] >= 0x80,
    ensures
        escaped(profile, text) == text,
    decreases text.len(),
{
    if text.len() > 0 {
        lemma_escaped_beyond_ascii(profile, text.drop_first());
        assert(text =~= seq![text[0]] + text.drop_first());
    }
}

/// Escaping keeps valid UTF-8 valid.
pub proof fn lemma_escaped_utf8(profile: Profile, text: Seq<u8>)
    requires
        valid_utf8(text),
    ensures
        valid_utf8(escaped(profile, text)),
    decreases text.len(),
{
    if text.len() == 0 {
        assert(escaped(profile, text) =~= text);
    } else {
        let head = take_first_scalar(text);
        let rest = pop_first_scalar(text);
        lemma_first_scalar_is_utf8(text);
        lemma_escaped_utf8(profile, rest);
        lemma_escaped_concat(profile, head, rest);
        if head.len() == 1 {
            assert(head.drop_first() =~= Seq::<u8>::empty());
            assert(escaped(profile, Seq::<u8>::empty()) =~= Seq::<u8>::empty());
            assert(escaped(profile, head) =~= escaped_byte(profile, head[0]));
            assert(is_ascii_bytes(escaped_byte(profile, head[0])));
            lemma_ascii_is_utf8(escaped(profile, head));
        } else {
            lemma_escaped_beyond_ascii(profile, head);
        }
        valid_utf8_concat(escaped(profile, head), escaped(profile, rest));
    }
}

/// Whether escaping `text` under `profile` loses nothing. The tag profile
/// writes `=` as it writes a space, so a text with `=` in it cannot be told
/// from the one with spaces in their place; every other text can be
/// recovered.
pub open spec fn recoverable(profile: Profile, text: Seq<u8>) -> bool {
    profile is Tag ==> forall|i: int| 0 <= i < text.len() ==> #[trigger] text[i] != EQUALS
}

/// An escaped text never begins with a byte that could be read as the second
/// half of an escape sequence.
proof fn lemma_escaped_first(profile: Profile, text: Seq<u8>)
    requires
        text.len() > 0,
    ensures
        escaped(profile, text).len() > 0,
        !follows_backslash(profile, escaped(profile, text)[0]),
{
}

/// Escaping and then unescaping under one profile gives the text back,
/// for every recoverable text.
pub proof fn lemma_escape_round_trip(profile: Profile, text: Seq<u8>)
    requires
        recoverable(profile, text),
    ensures
        unescaped(profile, escaped(profile, text)) == text,
    decreases text.len(),
{
    if text.len() == 0 {
    } else {
        let b = text[0];
        let rest = text.drop_first();
        let out = escaped(profile, text);
        assert(recoverable(profile, rest)) by {
            assert forall|i: int| 0 <= i < rest.len() && profile is Tag implies #[trigger] rest[i]
                != EQUALS by {
                assert(rest[i] == text[i + 1]);
            }
        }
        lemma_escape_round_trip(profile, rest);
        assert(text =~= seq![b] + rest);
        if escaped_byte(profile, b).len() == 2 {
            assert(out.skip(2) =~= escaped(profile, rest));
            assert(out[1] == b);
        } else {
            assert(out.drop_first() =~= escaped(profile, rest));
            if rest.len() > 0 {
                lemma_escaped_first(profile, rest);
                assert(out[1] == escaped(profile, rest)[0]);
            }
        }
    }
}

/// `text` with a space in the place of each `=`.
pub open spec fn equals_as_spaces(text: Seq<u8>) -> Seq<u8> {
    Seq::new(
        text.len(),
        |i: int|
            if text[i] == EQUALS {
                SPACE
            } else {
                text[i]
            },
    )
}

/// Under the tag profile a text and the same text with spaces for its `=`
/// are escaped alike, and unescaping gives the second.
pub proof fn lemma_tag_profile_equals(text: Seq<u8>)
    ensures
        escaped(Profile::Tag, text) == escaped(Profile::Tag, equals_as_spaces(text)),
        unescaped(Profile::Tag, escaped(Profile::Tag, text)) == equals_as_spaces(text),
    decreases text.len(),
{
    let spaced = equals_as_spaces(text);
    if text.len() > 0 {
        lemma_tag_profile_equals(text.drop_first());
        assert(spaced.drop_first() =~= equals_as_spaces(text.drop_first()));
    }
    assert(escaped(Profile::Tag, text) == escaped(Profile::Tag, spaced));
    lemma_escape_round_trip(Profile::Tag, spaced);
}

/// Escaping and then unescaping gives the text back exactly where the text
/// is recoverable.
pub proof fn lemma_escape_round_trip_exact(profile: Profile, text: Seq<u8>)
    ensures
        unescaped(profile, escaped(profile, text)) == text <==> recoverable(profile, text),
{
    if recoverable(profile, text) {
        lemma_escape_round_trip(profile, text);
    } else {
        lemma_tag_profile_equals(text);
        let i = choose|i: int| 0 <= i < text.len() && text[i] == EQUALS;
        assert(equals_as_spaces(text)[i] == SPACE);
    }
}

/// Escaping a text and then unescaping its bytes gives the text back, for
/// every text whose UTF-8 form is recoverable.
pub proof fn lemma_escape_round_trip_text(profile: Profile, text: Seq<char>)
    requires
        recoverable(profile, encode_utf8(text)),
    ensures
        decode_utf8(unescaped(profile, escaped(profile, encode_utf8(text)))) == text,
{
    lemma_escape_round_trip(profile, encode_utf8(text));
    encode_utf8_decode_utf8(text);
}

} // verus!
