//! The order in which names are written: ascending by their UTF-8 bytes,
//! compared lexicographically, byte by byte.

use vstd::prelude::*;
use vstd::utf8::*;

verus! {

/// `a` comes strictly before `b` in lexicographic byte order: at the first
/// position where they differ `a` has the smaller byte, or `a` is a proper
/// prefix of `b`.
pub open spec fn bytes_lt(a: Seq<u8>, b: Seq<u8>) -> bool
    decreases a.len(),
{
    if b.len() == 0 {
        false
    } else if a.len() == 0 {
        true
    } else if a[0] != b[0] {
        a[0] < b[0]
    } else {
        bytes_lt(a.drop_first(), b.drop_first())
    }
}

/// No byte string comes before itself.
pub proof fn lemma_bytes_lt_irreflexive(a: Seq<u8>)
    ensures
        !bytes_lt(a, a),
    decreases a.len(),
{
    if a.len() > 0 {
        lemma_bytes_lt_irreflexive(a.drop_first());
    }
}

/// The order is transitive.
pub proof fn lemma_bytes_lt_transitive(a: Seq<u8>, b: Seq<u8>, c: Seq<u8>)
    requires
        bytes_lt(a, b),
        bytes_lt(b, c),
    ensures
        bytes_lt(a, c),
    decreases a.len(),
{
    if a.len() > 0 && a[0] == b[0] && b[0] == c[0] {
        lemma_bytes_lt_transitive(a.drop_first(), b.drop_first(), c.drop_first());
    }
}

/// Of two different byte strings one comes before the other.
pub proof fn lemma_bytes_lt_connected(a: Seq<u8>, b: Seq<u8>)
    requires
        !bytes_lt(a, b),
        !bytes_lt(b, a),
    ensures
        a == b,
    decreases a.len(),
{
    if a.len() > 0 && b.len() > 0 {
        lemma_bytes_lt_connected(a.drop_first(), b.drop_first());
        assert(a =~= seq![a[0]] + a.drop_first());
        assert(b =~= seq![b[0]] + b.drop_first());
    } else {
        assert(a =~= b);
    }
}

/// How one byte string stands to another in lexicographic byte order.
#[derive(Clone, Copy, Debug, PartialEq, Eq, Structural)]
pub enum Relation {
    /// The first comes strictly before the second.
    Before,
    /// Both are the same byte string.
    Same,
    /// The first comes strictly after the second.
    After,
}

/// The relation that holds between `a` and `b`.
pub open spec fn relation(a: Seq<u8>, b: Seq<u8>) -> Relation {
    if bytes_lt(a, b) {
        Relation::Before
    } else if a == b {
        Relation::Same
    } else {
        Relation::After
    }
}

/// Exactly one of the three relations holds, and `After` means that `b`
/// comes before `a`.
pub proof fn lemma_relation_exclusive(a: Seq<u8>, b: Seq<u8>)
    ensures
        relation(a, b) is Before <==> bytes_lt(a, b),
        relation(a, b) is Same <==> a == b,
        relation(a, b) is After <==> bytes_lt(b, a),
{
    lemma_bytes_lt_irreflexive(a);
    if bytes_lt(a, b) && bytes_lt(b, a) {
        lemma_bytes_lt_transitive(a, b, a);
    }
    if !bytes_lt(a, b) && !bytes_lt(b, a) {
        lemma_bytes_lt_connected(a, b);
    }
}

/// Compares two byte strings lexicographically.
pub fn compare_bytes(a: &[u8], b: &[u8]) -> (r: Relation)
    ensures
        r == relation(a@, b@),
{
    let mut i: usize = 0;
    proof {
        assert(a@.skip(0) =~= a@);
        assert(b@.skip(0) =~= b@);
    }
    while i < a.len() && i < b.len()
        invariant
            i <= a.len(),
            i <= b.len(),
            a@.take(i as int) == b@.take(i as int),
            bytes_lt(a@, b@) == bytes_lt(a@.skip(i as int), b@.skip(i as int)),
        decreases a.len() - i,
    {
        proof {
            assert(a@.skip(i as int).drop_first() =~= a@.skip(i + 1));
            assert(b@.skip(i as int).drop_first() =~= b@.skip(i + 1));
        }
        if a[i] < b[i] {
            return Relation::Before;
        }
        if a[i] > b[i] {
            proof {
                assert(a@[i as int] != b@[i as int]);
            }
            return Relation::After;
        }
        proof {
            assert(a@.take(i + 1) =~= a@.take(i as int).push(a@[i as int]));
            assert(b@.take(i + 1) =~= b@.take(i as int).push(b@[i as int]));
        }
        i += 1;
    }
    if i < b.len() {
        proof {
            assert(a@.len() != b@.len());
        }
        Relation::Before
    } else if i < a.len() {
        proof {
            assert(a@.len() != b@.len());
        }
        Relation::After
    } else {
        proof {
            assert(a@ =~= a@.take(i as int));
            assert(b@ =~= b@.take(i as int));
        }
        Relation::Same
    }
}

/// The name `a` is written before the name `b`: its UTF-8 bytes come first.
pub open spec fn name_lt(a: Seq<char>, b: Seq<char>) -> bool {
    bytes_lt(encode_utf8(a), encode_utf8(b))
}

/// Each name of `names` is written strictly before all that follow it. No
/// name then occurs twice.
pub open spec fn ascending(names: Seq<Seq<char>>) -> bool {
    forall|i: int, j: int| 0 <= i < j < names.len() ==> name_lt(#[trigger] names[i], #[trigger] names[j])
}

/// `names` holds exactly the members of `set`, in ascending order.
pub open spec fn lists(names: Seq<Seq<char>>, set: Set<Seq<char>>) -> bool {
    &&& ascending(names)
    &&& forall|i: int| 0 <= i < names.len() ==> set.contains(#[trigger] names[i])
    &&& forall|k: Seq<char>| set.contains(k) ==> exists|i: int| 0 <= i < names.len() && #[trigger] names[i] == k
}

/// The members of a finite `set` of names in the order in which they are
/// written.
pub open spec fn ordered_names(set: Set<Seq<char>>) -> Seq<Seq<char>> {
    choose|names: Seq<Seq<char>>| lists(names, set)
}

/// A set has at most one ascending listing.
pub proof fn lemma_listing_unique(x: Seq<Seq<char>>, y: Seq<Seq<char>>, set: Set<Seq<char>>)
    requires
        lists(x, set),
        lists(y, set),
    ensures
        x == y,
    decreases x.len(),
{
    if x.len() == 0 {
        if y.len() > 0 {
            assert(set.contains(y[0]));
        }
        assert(x =~= y);
    } else {
        assert(set.contains(x[0]));
        let j = choose|j: int| 0 <= j < y.len() && y[j] == x[0];
        assert(set.contains(y[0]));
        let i = choose|i: int| 0 <= i < x.len() && x[i] == y[0];
        lemma_bytes_lt_irreflexive(encode_utf8(x[0]));
        if i > 0 {
            assert(name_lt(x[0], x[i]));
            if j > 0 {
                assert(name_lt(y[0], y[j]));
                lemma_bytes_lt_transitive(
                    encode_utf8(x[0]),
                    encode_utf8(y[0]),
                    encode_utf8(x[0]),
                );
            }
        }
        assert(x[0] == y[0]);
        let rest = set.remove(x[0]);
        let xs = x.drop_first();
        let ys = y.drop_first();
        assert(lists(xs, rest)) by {
            lemma_drop_first_lists(x, set);
        }
        assert(lists(ys, rest)) by {
            lemma_drop_first_lists(y, set);
        }
        lemma_listing_unique(xs, ys, rest);
        assert(x =~= seq![x[0]] + xs);
        assert(y =~= seq![y[0]] + ys);
    }
}

/// Without its first name, a listing lists the set without that name.
proof fn lemma_drop_first_lists(x: Seq<Seq<char>>, set: Set<Seq<char>>)
    requires
        lists(x, set),
        x.len() > 0,
    ensures
        lists(x.drop_first(), set.remove(x[0])),
{
    let xs = x.drop_first();
    let rest = set.remove(x[0]);
    lemma_bytes_lt_irreflexive(encode_utf8(x[0]));
    assert forall|i: int, j: int| 0 <= i < j < xs.len() implies name_lt(
        #[trigger] xs[i],
        #[trigger] xs[j],
    ) by {
        assert(name_lt(x[i + 1], x[j + 1]));
    }
    assert forall|i: int| 0 <= i < xs.len() implies rest.contains(#[trigger] xs[i]) by {
        assert(xs[i] == x[i + 1]);
        assert(set.contains(x[i + 1]));
        assert(name_lt(x[0], x[i + 1]));
    }
    assert forall|k: Seq<char>| rest.contains(k) implies exists|i: int|
        0 <= i < xs.len() && #[trigger] xs[i] == k by {
        assert(set.contains(k));
        let i = choose|i: int| 0 <= i < x.len() && x[i] == k;
        assert(i > 0);
        assert(xs[i - 1] == k);
    }
}

/// `names` with `name` put in front of the first name that comes after it.
pub open spec fn with_name(names: Seq<Seq<char>>, name: Seq<char>) -> Seq<Seq<char>>
    decreases names.len(),
{
    if names.len() == 0 {
        seq![name]
    } else if name_lt(name, names[0]) {
        seq![name] + names
    } else {
        seq![names[0]] + with_name(names.drop_first(), name)
    }
}

/// Putting a new name into an ascending listing keeps it ascending and adds
/// the name to what it lists.
proof fn lemma_with_name(names: Seq<Seq<char>>, set: Set<Seq<char>>, name: Seq<char>)
    requires
        lists(names, set),
        !set.contains(name),
    ensures
        lists(with_name(names, name), set.insert(name)),
    decreases names.len(),
{
    let grown = with_name(names, name);
    let more = set.insert(name);
    if names.len() == 0 {
        assert(lists(grown, more)) by {
            assert(grown[0] == name);
            assert forall|k: Seq<char>| more.contains(k) implies exists|i: int|
                0 <= i < grown.len() && #[trigger] grown[i] == k by {
                if k != name {
                    assert(set.contains(k));
                }
                assert(grown[0] == k);
            }
        }
    } else if name_lt(name, names[0]) {
        assert forall|i: int, j: int| 0 <= i < j < grown.len() implies name_lt(
            #[trigger] grown[i],
            #[trigger] grown[j],
        ) by {
            assert(grown[j] == names[j - 1]);
            if i == 0 {
                if j > 1 {
                    assert(name_lt(names[0], names[j - 1]));
                    lemma_bytes_lt_transitive(
                        encode_utf8(name),
                        encode_utf8(names[0]),
                        encode_utf8(names[j - 1]),
                    );
                }
            } else {
                assert(grown[i] == names[i - 1]);
                assert(name_lt(names[i - 1], names[j - 1]));
            }
        }
        assert forall|i: int| 0 <= i < grown.len() implies more.contains(#[trigger] grown[i]) by {
            if i > 0 {
                assert(grown[i] == names[i - 1]);
            }
        }
        assert forall|k: Seq<char>| more.contains(k) implies exists|i: int|
            0 <= i < grown.len() && #[trigger] grown[i] == k by {
            if k == name {
                assert(grown[0] == k);
            } else {
                assert(set.contains(k));
                let i = choose|i: int| 0 <= i < names.len() && names[i] == k;
                assert(grown[i + 1] == k);
            }
        }
    } else {
        let first = names[0];
        let rest = names.drop_first();
        let shorter = with_name(rest, name);
        lemma_drop_first_lists(names, set);
        lemma_with_name(rest, set.remove(first), name);
        assert(set.contains(first));
        assert(name_lt(first, name)) by {
            if !name_lt(first, name) {
                lemma_bytes_lt_connected(encode_utf8(first), encode_utf8(name));
                encode_utf8_decode_utf8(first);
                encode_utf8_decode_utf8(name);
            }
        }
        assert(grown =~= seq![first] + shorter);
        assert forall|i: int, j: int| 0 <= i < j < grown.len() implies name_lt(
            #[trigger] grown[i],
            #[trigger] grown[j],
        ) by {
            assert(grown[j] == shorter[j - 1]);
            if i == 0 {
                assert(set.remove(first).insert(name).contains(shorter[j - 1]));
                if shorter[j - 1] != name {
                    let at = choose|at: int| 0 <= at < names.len() && names[at] == shorter[j - 1];
                    assert(name_lt(names[0], names[at]));
                }
            } else {
                assert(grown[i] == shorter[i - 1]);
                assert(name_lt(shorter[i - 1], shorter[j - 1]));
            }
        }
        assert forall|i: int| 0 <= i < grown.len() implies more.contains(#[trigger] grown[i]) by {
            if i > 0 {
                assert(grown[i] == shorter[i - 1]);
                assert(set.remove(first).insert(name).contains(shorter[i - 1]));
            }
        }
        assert forall|k: Seq<char>| more.contains(k) implies exists|i: int|
            0 <= i < grown.len() && #[trigger] grown[i] == k by {
            if k == first {
                assert(grown[0] == k);
            } else {
                assert(set.remove(first).insert(name).contains(k));
                let i = choose|i: int| 0 <= i < shorter.len() && shorter[i] == k;
                assert(grown[i + 1] == k);
            }
        }
    }
}

/// Every finite set of names has an ascending listing, so the order in which
/// its names are written is defined.
pub proof fn lemma_ordered_names_lists(set: Set<Seq<char>>)
    requires
        set.finite(),
    ensures
        lists(ordered_names(set), set),
    decreases set.len(),
{
    if set.len() == 0 {
        assert(forall|k: Seq<char>| !set.contains(k)) by {
            if exists|k: Seq<char>| set.contains(k) {
                let k = choose|k: Seq<char>| set.contains(k);
                assert(set.remove(k).len() + 1 == set.len());
            }
        }
        assert(lists(Seq::empty(), set));
    } else {
        let name = set.choose();
        let rest = set.remove(name);
        lemma_ordered_names_lists(rest);
        lemma_with_name(ordered_names(rest), rest, name);
        assert(rest.insert(name) =~= set);
        assert(lists(with_name(ordered_names(rest), name), set));
    }
}

/// An ascending listing of `set` is the order in which its names are
/// written.
pub proof fn lemma_ordered_names(names: Seq<Seq<char>>, set: Set<Seq<char>>)
    requires
        lists(names, set),
    ensures
        ordered_names(set) == names,
{
    lemma_listing_unique(ordered_names(set), names, set);
}

} // verus!
