//! The measurement: a key, tags, typed fields and an optional timestamp.

use crate::order::{
    ascending, compare_bytes, lemma_bytes_lt_irreflexive, lemma_bytes_lt_transitive,
    lemma_ordered_names, lemma_relation_exclusive, lists, name_lt, ordered_names, Relation,
};
use vstd::prelude::*;
use vstd::utf8::*;

verus! {

/// The value of a field.
#[derive(Debug)]
pub enum Value {
    /// A text.
    String(String),
    /// A floating-point number, held as decimal text. Whoever makes the
    /// value renders the number: the shortest text that reads back as the
    /// same number, `10` rather than `10.0`. The text goes into a line as it
    /// stands.
    Float(String),
    /// A whole number.
    Integer(i64),
    /// A truth value.
    Boolean(bool),
}

/// What a [`Value`] stands for.
pub enum ValueView {
    /// A text.
    String(Seq<char>),
    /// The decimal text of a floating-point number.
    Float(Seq<char>),
    /// A whole number.
    Integer(i64),
    /// A truth value.
    Boolean(bool),
}

impl View for Value {
    type V = ValueView;

    open spec fn view(&self) -> ValueView {
        match self {
            Value::String(s) => ValueView::String(s@),
            Value::Float(s) => ValueView::Float(s@),
            Value::Integer(i) => ValueView::Integer(*i),
            Value::Boolean(b) => ValueView::Boolean(*b),
        }
    }
}

/// What a [`Measurement`] stands for. Tags and fields are maps: no name
/// occurs twice, and the order in which they were added is forgotten.
pub struct MeasurementView {
    /// The key.
    pub key: Seq<char>,
    /// The timestamp, in nanoseconds, if one was set.
    pub timestamp: Option<i64>,
    /// The fields, by name.
    pub fields: Map<Seq<char>, ValueView>,
    /// The tags, by name.
    pub tags: Map<Seq<char>, Seq<char>>,
}

/// The names of a run of entries, in the order of the entries.
pub open spec fn names<V>(entries: Seq<(String, V)>) -> Seq<Seq<char>> {
    Seq::new(entries.len(), |i: int| entries[i].0@)
}

/// Where `name` stands among `entries`.
pub open spec fn position<V>(entries: Seq<(String, V)>, name: Seq<char>) -> int {
    choose|i: int| 0 <= i < entries.len() && entries[i].0@ == name
}

/// The map that a run of entries with distinct names spells out.
pub open spec fn contents<V: View>(entries: Seq<(String, V)>) -> Map<Seq<char>, V::V> {
    Map::new(
        |name: Seq<char>| exists|i: int| 0 <= i < entries.len() && (#[trigger] entries[i]).0@ == name,
        |name: Seq<char>| entries[position(entries, name)].1@,
    )
}

/// In an ascending run of entries each name stands at one place only.
pub proof fn lemma_position<V>(entries: Seq<(String, V)>, i: int)
    requires
        ascending(names(entries)),
        0 <= i < entries.len(),
    ensures
        position(entries, entries[i].0@) == i,
{
    let p = position(entries, entries[i].0@);
    lemma_bytes_lt_irreflexive(encode_utf8(entries[i].0@));
    if p < i {
        assert(name_lt(names(entries)[p], names(entries)[i]));
    } else if i < p {
        assert(name_lt(names(entries)[i], names(entries)[p]));
    }
}

/// An ascending run of entries lists the names of its map in the order in
/// which they are written, and holds at each place the value of that name.
pub proof fn lemma_contents<V: View>(entries: Seq<(String, V)>)
    requires
        ascending(names(entries)),
    ensures
        lists(names(entries), contents(entries).dom()),
        names(entries) == ordered_names(contents(entries).dom()),
        forall|i: int|
            0 <= i < entries.len() ==> contents(entries).dom().contains(
                (#[trigger] entries[i]).0@,
            ) && contents(entries)[entries[i].0@] == entries[i].1@,
{
    let ns = names(entries);
    let dom = contents(entries).dom();
    assert forall|i: int| 0 <= i < entries.len() implies dom.contains((#[trigger] entries[i]).0@)
        && contents(entries)[entries[i].0@] == entries[i].1@ by {
        lemma_position(entries, i);
    }
    assert(lists(ns, dom)) by {
        assert forall|i: int| 0 <= i < ns.len() implies dom.contains(#[trigger] ns[i]) by {
            assert(ns[i] == entries[i].0@);
        }
        assert forall|k: Seq<char>| dom.contains(k) implies exists|i: int|
            0 <= i < ns.len() && #[trigger] ns[i] == k by {
            let i = choose|i: int| 0 <= i < entries.len() && (#[trigger] entries[i]).0@ == k;
            assert(ns[i] == k);
        }
    }
    lemma_ordered_names(ns, dom);
}

/// Putting a new name at its place in an ascending run of entries adds it to
/// the map and keeps the run ascending.
pub proof fn lemma_contents_insert<V: View>(entries: Seq<(String, V)>, at: int, entry: (String, V))
    requires
        ascending(names(entries)),
        0 <= at <= entries.len(),
        forall|j: int| 0 <= j < at ==> name_lt(#[trigger] names(entries)[j], entry.0@),
        forall|j: int| at <= j < entries.len() ==> name_lt(entry.0@, #[trigger] names(entries)[j]),
    ensures
        ascending(names(entries.insert(at, entry))),
        contents(entries.insert(at, entry)) == contents(entries).insert(entry.0@, entry.1@),
{
    let grown = entries.insert(at, entry);
    let ns = names(entries);
    let gs = names(grown);
    assert(grown.len() == entries.len() + 1);
    assert forall|i: int, j: int| 0 <= i < j < gs.len() implies name_lt(
        #[trigger] gs[i],
        #[trigger] gs[j],
    ) by {
        let oi = if i < at { i } else { i - 1 };
        let oj = if j < at { j } else { j - 1 };
        if i != at {
            assert(gs[i] == ns[oi]);
        }
        if j != at {
            assert(gs[j] == ns[oj]);
        }
        if i != at && j != at {
            assert(name_lt(ns[oi], ns[oj]));
        }
    }
    lemma_contents(grown);
    lemma_contents(entries);
    let a = contents(grown);
    let b = contents(entries).insert(entry.0@, entry.1@);
    assert forall|k: Seq<char>| #[trigger] a.dom().contains(k) implies b.dom().contains(k) by {
        let i = choose|i: int| 0 <= i < grown.len() && (#[trigger] grown[i]).0@ == k;
        if i < at {
            assert(entries[i].0@ == k);
        } else if i > at {
            assert(entries[i - 1].0@ == k);
        }
    }
    assert forall|k: Seq<char>| #[trigger] b.dom().contains(k) implies a.dom().contains(k) && a[k] == b[k] by {
        if k == entry.0@ {
            assert(grown[at] == entry);
        } else {
            let i = choose|i: int| 0 <= i < entries.len() && (#[trigger] entries[i]).0@ == k;
            let g = if i < at { i } else { i + 1 };
            assert(grown[g] == entries[i]);
        }
    }
    assert(a =~= b);
}

/// Giving the name at one place of an ascending run of entries a new value
/// changes that name's value in the map and nothing else.
pub proof fn lemma_contents_update<V: View>(entries: Seq<(String, V)>, at: int, entry: (String, V))
    requires
        ascending(names(entries)),
        0 <= at < entries.len(),
        entries[at].0@ == entry.0@,
    ensures
        ascending(names(entries.update(at, entry))),
        contents(entries.update(at, entry)) == contents(entries).insert(entry.0@, entry.1@),
{
    let changed = entries.update(at, entry);
    assert(names(changed) =~= names(entries));
    lemma_contents(changed);
    lemma_contents(entries);
    let a = contents(changed);
    let b = contents(entries).insert(entry.0@, entry.1@);
    assert forall|k: Seq<char>| #[trigger] a.dom().contains(k) implies b.dom().contains(k) by {
        let i = choose|i: int| 0 <= i < changed.len() && (#[trigger] changed[i]).0@ == k;
        assert(entries[i].0@ == k);
    }
    assert forall|k: Seq<char>| #[trigger] b.dom().contains(k) implies a.dom().contains(k) && a[k] == b[k] by {
        if k == entry.0@ {
            assert(changed[at] == entry);
        } else {
            let i = choose|i: int| 0 <= i < entries.len() && (#[trigger] entries[i]).0@ == k;
            assert(changed[i] == entries[i]);
        }
    }
    assert(a =~= b);
}

/// Finds the place of `name` in an ascending run of entries: where it
/// stands, or where it would have to be put.
fn slot<V>(entries: &Vec<(String, V)>, name: &str) -> (at: (usize, bool))
    requires
        ascending(names(entries@)),
    ensures
        at.0 <= entries@.len(),
        forall|j: int| 0 <= j < at.0 ==> name_lt(#[trigger] names(entries@)[j], name@),
        at.1 ==> at.0 < entries@.len() && entries@[at.0 as int].0@ == name@,
        !at.1 ==> forall|j: int|
            at.0 <= j < entries@.len() ==> name_lt(name@, #[trigger] names(entries@)[j]),
{
    let mut i: usize = 0;
    while i < entries.len()
        invariant
            i <= entries@.len(),
            ascending(names(entries@)),
            forall|j: int| 0 <= j < i ==> name_lt(#[trigger] names(entries@)[j], name@),
        decreases entries@.len() - i,
    {
        let here: &str = entries[i].0.as_str();
        let r = compare_bytes(here.as_bytes(), name.as_bytes());
        proof {
            lemma_relation_exclusive(encode_utf8(here@), encode_utf8(name@));
            assert(names(entries@)[i as int] == here@);
        }
        match r {
            Relation::Before => {
                i += 1;
            },
            Relation::Same => {
                proof {
                    encode_utf8_decode_utf8(here@);
                    encode_utf8_decode_utf8(name@);
                }
                return (i, true);
            },
            Relation::After => {
                proof {
                    assert forall|j: int| i <= j < entries@.len() implies name_lt(
                        name@,
                        #[trigger] names(entries@)[j],
                    ) by {
                        if j > i {
                            assert(name_lt(names(entries@)[i as int], names(entries@)[j]));
                            lemma_bytes_lt_transitive(
                                encode_utf8(name@),
                                encode_utf8(here@),
                                encode_utf8(names(entries@)[j]),
                            );
                        }
                    }
                }
                return (i, false);
            },
        }
    }
    (i, false)
}

/// A measurement: what is encoded into one line.
///
/// Tags and fields are kept in the order in which they are written, ascending
/// by the UTF-8 bytes of their names, whatever the order in which they were
/// added.
#[derive(Debug)]
pub struct Measurement {
    key: String,
    timestamp: Option<i64>,
    fields: Vec<(String, Value)>,
    tags: Vec<(String, String)>,
}

impl View for Measurement {
    type V = MeasurementView;

    closed spec fn view(&self) -> MeasurementView {
        MeasurementView {
            key: self.key@,
            timestamp: self.timestamp,
            fields: contents(self.fields@),
            tags: contents(self.tags@),
        }
    }
}

impl Measurement {
    #[verifier::type_invariant]
    spec fn well_formed(&self) -> bool {
        &&& ascending(names(self.fields@))
        &&& ascending(names(self.tags@))
    }

    /// A measurement with the given key, and with neither tags nor fields nor
    /// a timestamp. A key is meant to be a non-empty text; an empty one is
    /// taken as it is and not refused.
    pub fn new(key: &str) -> (measurement: Measurement)
        ensures
            measurement@ == (MeasurementView {
                key: key@,
                timestamp: None,
                fields: Map::empty(),
                tags: Map::empty(),
            }),
    {
        let measurement = Measurement {
            key: key.to_owned(),
            timestamp: None,
            fields: Vec::new(),
            tags: Vec::new(),
        };
        proof {
            assert(contents(measurement.fields@) =~= Map::<Seq<char>, ValueView>::empty());
            assert(contents(measurement.tags@) =~= Map::<Seq<char>, Seq<char>>::empty());
        }
        measurement
    }

    /// Gives the field `field` the value `value`. A value that the field had
    /// before is replaced.
    pub fn add_field(&mut self, field: &str, value: Value)
        ensures
            final(self)@ == (MeasurementView {
                fields: old(self)@.fields.insert(field@, value@),
                ..old(self)@
            }),
    {
        proof {
            use_type_invariant(&*self);
        }
        let (at, found) = slot(&self.fields, field);
        let entry = (field.to_owned(), value);
        proof {
            if found {
                lemma_contents_update(self.fields@, at as int, entry);
            } else {
                lemma_contents_insert(self.fields@, at as int, entry);
            }
        }
        let mut fields: Vec<(String, Value)> = Vec::new();
        core::mem::swap(&mut self.fields, &mut fields);
        if found {
            fields[at] = entry;
        } else {
            fields.insert(at, entry);
        }
        core::mem::swap(&mut self.fields, &mut fields);
    }

    /// Gives the tag `tag` the value `value`. A value that the tag had before
    /// is replaced.
    pub fn add_tag(&mut self, tag: &str, value: &str)
        ensures
            final(self)@ == (MeasurementView {
                tags: old(self)@.tags.insert(tag@, value@),
                ..old(self)@
            }),
    {
        proof {
            use_type_invariant(&*self);
        }
        let (at, found) = slot(&self.tags, tag);
        let entry = (tag.to_owned(), value.to_owned());
        proof {
            if found {
                lemma_contents_update(self.tags@, at as int, entry);
            } else {
                lemma_contents_insert(self.tags@, at as int, entry);
            }
        }
        let mut tags: Vec<(String, String)> = Vec::new();
        core::mem::swap(&mut self.tags, &mut tags);
        if found {
            tags[at] = entry;
        } else {
            tags.insert(at, entry);
        }
        core::mem::swap(&mut self.tags, &mut tags);
    }

    /// Sets the timestamp, in nanoseconds since the epoch. The last one set
    /// counts.
    pub fn set_timestamp(&mut self, timestamp: i64)
        ensures
            final(self)@ == (MeasurementView { timestamp: Some(timestamp), ..old(self)@ }),
    {
        proof {
            use_type_invariant(&*self);
        }
        self.timestamp = Some(timestamp);
    }

    /// The key.
    pub fn key(&self) -> (key: &str)
        ensures
            key@ == self@.key,
    {
        self.key.as_str()
    }

    /// The timestamp, if one was set.
    pub fn timestamp(&self) -> (timestamp: Option<i64>)
        ensures
            timestamp == self@.timestamp,
    {
        self.timestamp
    }

    /// The fields, each name with its value, in the order in which they are
    /// written.
    pub fn fields(&self) -> (fields: &Vec<(String, Value)>)
        ensures
            lists(names(fields@), self@.fields.dom()),
            names(fields@) == ordered_names(self@.fields.dom()),
            forall|i: int|
                0 <= i < fields@.len() ==> self@.fields.dom().contains((#[trigger] fields@[i]).0@)
                    && self@.fields[fields@[i].0@] == fields@[i].1@,
    {
        proof {
            use_type_invariant(self);
            lemma_contents(self.fields@);
        }
        &self.fields
    }

    /// The tags, each name with its value, in the order in which they are
    /// written.
    pub fn tags(&self) -> (tags: &Vec<(String, String)>)
        ensures
            lists(names(tags@), self@.tags.dom()),
            names(tags@) == ordered_names(self@.tags.dom()),
            forall|i: int|
                0 <= i < tags@.len() ==> self@.tags.dom().contains((#[trigger] tags@[i]).0@)
                    && self@.tags[tags@[i].0@] == tags@[i].1@,
    {
        proof {
            use_type_invariant(self);
            lemma_contents(self.tags@);
        }
        &self.tags
    }
}

} // verus!
