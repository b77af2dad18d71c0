//! What holds of objects and of layouts whatever the values are.

use vstd::prelude::*;
use crate::json::encoder::EncodingFormat;
use crate::json::key::{key_lt, lemma_key_lt_irreflexive, lemma_key_lt_transitive};
use crate::json::value::{
    has_key, index_of, lemma_with_entry_sorted, lookup, rank, sorted, with_entry, JsonView,
};

verus! {

/// The rank of a key divides the entries: before it the keys come before
/// the key, and the key at the rank, if there is one, does not.
pub proof fn lemma_rank_divides(entries: Seq<(Seq<char>, JsonView)>, key: Seq<char>)
    ensures
        0 <= rank(entries, key) <= entries.len(),
        forall|j: int| 0 <= j < rank(entries, key) ==> key_lt(entries[j].0, key),
        rank(entries, key) < entries.len() ==> !key_lt(entries[rank(entries, key)].0, key),
    decreases entries.len(),
{
    if entries.len() > 0 && key_lt(entries[0].0, key) {
        let rest = entries.drop_first();
        lemma_rank_divides(rest, key);
        assert forall|j: int| 0 <= j < rank(entries, key) implies key_lt(entries[j].0, key) by {
            if j > 0 {
                assert(entries[j] == rest[j - 1]);
            }
        }
        if rank(entries, key) < entries.len() {
            assert(entries[rank(entries, key)] == rest[rank(rest, key)]);
        }
    }
}

/// In sorted entries the keys after the rank of a key come after the key,
/// unless the key itself stands at its rank.
pub proof fn lemma_rank_place(entries: Seq<(Seq<char>, JsonView)>, key: Seq<char>)
    requires
        sorted(entries),
    ensures
        rank(entries, key) < entries.len() ==> (entries[rank(entries, key)].0 == key || key_lt(
            key,
            entries[rank(entries, key)].0,
        )),
        has_key(entries, key) <==> (rank(entries, key) < entries.len() && entries[rank(
            entries,
            key,
        )].0 == key),
        has_key(entries, key) ==> index_of(entries, key) == rank(entries, key),
{
    lemma_rank_divides(entries, key);
    let p = rank(entries, key);
    crate::json::value::lemma_lookup_sorted(entries, key, p);
    if p < entries.len() && entries[p].0 != key {
        lemma_total(entries[p].0, key);
    }
}

/// Of two different keys one comes before the other.
pub proof fn lemma_total(a: Seq<char>, b: Seq<char>)
    requires
        a != b,
    ensures
        key_lt(a, b) || key_lt(b, a),
{
    let x = vstd::utf8::encode_utf8(a);
    let y = vstd::utf8::encode_utf8(b);
    if x == y {
        crate::json::key::lemma_encoding_injective(a, b);
    } else {
        lemma_bytes_total(x, y, 0);
    }
}

/// Two byte sequences that agree before place `k` and are not equal differ
/// at some place from `k` on, and there one comes before the other.
proof fn lemma_bytes_total(x: Seq<u8>, y: Seq<u8>, k: int)
    requires
        x != y,
        0 <= k <= x.len(),
        k <= y.len(),
        forall|j: int| 0 <= j < k ==> x[j] == y[j],
    ensures
        crate::json::key::bytes_lt(x, y) || crate::json::key::bytes_lt(y, x),
    decreases x.len() - k,
{
    if k == x.len() {
        if k == y.len() {
            assert(x =~= y);
        } else {
            assert(crate::json::key::first_difference(x, y, k));
        }
    } else if k == y.len() {
        assert(crate::json::key::first_difference(y, x, k));
    } else if x[k] < y[k] {
        assert(crate::json::key::first_difference(x, y, k));
    } else if y[k] < x[k] {
        assert(crate::json::key::first_difference(y, x, k));
    } else {
        lemma_bytes_total(x, y, k + 1);
    }
}

/// After a key has been bound, it is bound to the new value, and every
/// other key to what it was bound to before.
pub proof fn lemma_lookup_with_entry(
    entries: Seq<(Seq<char>, JsonView)>,
    key: Seq<char>,
    value: JsonView,
    other: Seq<char>,
)
    requires
        sorted(entries),
    ensures
        sorted(with_entry(entries, key, value)),
        lookup(with_entry(entries, key, value), other) == (if other == key {
            Some(value)
        } else {
            lookup(entries, other)
        }),
{
    lemma_rank_divides(entries, key);
    lemma_rank_place(entries, key);
    let p = rank(entries, key);
    lemma_with_entry_sorted(entries, key, value, p);
    let after = with_entry(entries, key, value);
    let replaced = p < entries.len() && entries[p].0 == key;
    assert(after[p] == (key, value));
    if other == key {
        lemma_first_place(after, key, p);
    } else if has_key(entries, other) {
        let i = choose|i: int| 0 <= i < entries.len() && entries[i].0 == other;
        lemma_first_place(entries, other, i);
        lemma_kept(entries, key, value, i);
        let i2 = if replaced || i < p {
            i
        } else {
            i + 1
        };
        lemma_first_place(after, other, i2);
    } else if has_key(after, other) {
        let j = choose|j: int| 0 <= j < after.len() && after[j].0 == other;
        lemma_came_from(entries, key, value, j);
    }
}

/// Binding a key keeps every other entry, at its place or one further on.
proof fn lemma_kept(entries: Seq<(Seq<char>, JsonView)>, key: Seq<char>, value: JsonView, i: int)
    requires
        0 <= i < entries.len(),
        entries[i].0 != key,
        0 <= rank(entries, key) <= entries.len(),
    ensures
        ({
            let p = rank(entries, key);
            let replaced = p < entries.len() && entries[p].0 == key;
            let i2 = if replaced || i < p {
                i
            } else {
                i + 1
            };
            0 <= i2 < with_entry(entries, key, value).len() && with_entry(entries, key, value)[i2]
                == entries[i]
        }),
{
}

/// After a key has been bound, every entry with another key was there
/// before.
proof fn lemma_came_from(
    entries: Seq<(Seq<char>, JsonView)>,
    key: Seq<char>,
    value: JsonView,
    j: int,
)
    requires
        0 <= j < with_entry(entries, key, value).len(),
        with_entry(entries, key, value)[j].0 != key,
        0 <= rank(entries, key) <= entries.len(),
    ensures
        has_key(entries, with_entry(entries, key, value)[j].0),
{
    let p = rank(entries, key);
    let after = with_entry(entries, key, value);
    let replaced = p < entries.len() && entries[p].0 == key;
    let j0 = if replaced || j < p {
        j
    } else {
        j - 1
    };
    assert(after[p] == (key, value));
    assert(j != p);
    assert(0 <= j0 < entries.len() && entries[j0] == after[j]);
}

/// In sorted entries a key stands at one place only.
pub proof fn lemma_unique(entries: Seq<(Seq<char>, JsonView)>, key: Seq<char>, i: int, j: int)
    requires
        sorted(entries),
        0 <= i < entries.len(),
        0 <= j < entries.len(),
        entries[i].0 == key,
        entries[j].0 == key,
    ensures
        i == j,
{
    lemma_key_lt_irreflexive(key);
}

/// **Objects are canonical.** Two objects whose entries are in order and
/// which bind the same keys to the same values have the same entries, in
/// the same order: there is one way to write down a set of bindings.
pub proof fn lemma_objects_canonical(
    a: Seq<(Seq<char>, JsonView)>,
    b: Seq<(Seq<char>, JsonView)>,
)
    requires
        sorted(a),
        sorted(b),
        forall|key: Seq<char>| lookup(a, key) == lookup(b, key),
    ensures
        a == b,
    decreases a.len(),
{
    if a.len() == 0 {
        if b.len() > 0 {
            assert(has_key(b, b[0].0));
            assert(lookup(a, b[0].0) == lookup(b, b[0].0));
        }
        assert(a =~= b);
    } else {
        assert(has_key(a, a[0].0));
        lemma_rank_place(a, a[0].0);
        assert(lookup(a, a[0].0) == lookup(b, a[0].0));
        assert(has_key(b, a[0].0));
        let j = index_of(b, a[0].0);
        lemma_rank_place(b, a[0].0);
        assert(has_key(b, b[0].0));
        lemma_rank_place(b, b[0].0);
        assert(lookup(a, b[0].0) == lookup(b, b[0].0));
        assert(has_key(a, b[0].0));
        let i = index_of(a, b[0].0);
        // The first key of each is the least of both.
        if j > 0 {
            assert(key_lt(b[0].0, b[j].0));
            if i > 0 {
                assert(key_lt(a[0].0, a[i].0));
                lemma_key_lt_transitive(a[0].0, b[0].0, a[0].0);
                lemma_key_lt_irreflexive(a[0].0);
            } else {
                lemma_key_lt_irreflexive(a[0].0);
            }
        }
        assert(a[0].0 == b[0].0);
        lemma_unique(a, a[0].0, 0, index_of(a, a[0].0));
        lemma_unique(b, a[0].0, 0, index_of(b, a[0].0));
        assert(a[0].1 == b[0].1);
        let ra = a.drop_first();
        let rb = b.drop_first();
        assert forall|key: Seq<char>| lookup(ra, key) == lookup(rb, key) by {
            lemma_lookup_rest(a, key);
            lemma_lookup_rest(b, key);
            assert(lookup(a, key) == lookup(b, key));
        }
        assert(sorted(ra)) by {
            assert forall|x: int, y: int| 0 <= x < y < ra.len() implies key_lt(ra[x].0, ra[y].0) by {
                assert(ra[x] == a[x + 1] && ra[y] == a[y + 1]);
            }
        }
        assert(sorted(rb)) by {
            assert forall|x: int, y: int| 0 <= x < y < rb.len() implies key_lt(rb[x].0, rb[y].0) by {
                assert(rb[x] == b[x + 1] && rb[y] == b[y + 1]);
            }
        }
        lemma_objects_canonical(ra, rb);
        assert(a =~= seq![a[0]] + ra);
        assert(b =~= seq![b[0]] + rb);
    }
}

/// What the entries after the first bind: all that the entries bind, but
/// for the first key.
proof fn lemma_lookup_rest(a: Seq<(Seq<char>, JsonView)>, key: Seq<char>)
    requires
        sorted(a),
        a.len() > 0,
    ensures
        lookup(a.drop_first(), key) == (if key == a[0].0 {
            None
        } else {
            lookup(a, key)
        }),
{
    let rest = a.drop_first();
    assert forall|x: int| 0 <= x < rest.len() implies rest[x] == a[x + 1] by {}
    if has_key(rest, key) {
        let i = choose|i: int| 0 <= i < rest.len() && rest[i].0 == key;
        assert(a[i + 1].0 == key);
        assert(key_lt(a[0].0, a[i + 1].0));
        lemma_key_lt_irreflexive(key);
        assert(has_key(a, key));
        lemma_first_place(a, key, i + 1);
        lemma_first_place_rest(a, key, i);
    } else if has_key(a, key) {
        let i = choose|i: int| 0 <= i < a.len() && a[i].0 == key;
        if i > 0 {
            assert(rest[i - 1].0 == key);
            assert(has_key(rest, key));
        }
    }
}

/// In sorted entries the place at which a key stands is the first place at
/// which it stands.
proof fn lemma_first_place(a: Seq<(Seq<char>, JsonView)>, key: Seq<char>, i: int)
    requires
        sorted(a),
        0 <= i < a.len(),
        a[i].0 == key,
    ensures
        has_key(a, key),
        index_of(a, key) == i,
{
    lemma_key_lt_irreflexive(key);
    assert forall|j: int| 0 <= j < a.len() && j != i implies a[j].0 != key by {
        if j < i {
            assert(key_lt(a[j].0, a[i].0));
        } else {
            assert(key_lt(a[i].0, a[j].0));
        }
    }
    assert(has_key(a, key));
    let c = index_of(a, key);
    assert(0 <= c < a.len() && a[c].0 == key);
}

/// The same of the entries after the first.
proof fn lemma_first_place_rest(a: Seq<(Seq<char>, JsonView)>, key: Seq<char>, i: int)
    requires
        sorted(a),
        0 <= i < a.len() - 1,
        a[i + 1].0 == key,
    ensures
        index_of(a.drop_first(), key) == i,
{
    let rest = a.drop_first();
    assert forall|x: int, y: int| 0 <= x < y < rest.len() implies key_lt(rest[x].0, rest[y].0) by {
        assert(rest[x] == a[x + 1] && rest[y] == a[y + 1]);
    }
    assert(rest[i] == a[i + 1]);
    lemma_first_place(rest, key, i);
}

/// **The order of insertion does not matter.** Binding two different keys
/// in an object gives the same object whichever is bound first.
pub proof fn lemma_insertion_order(
    entries: Seq<(Seq<char>, JsonView)>,
    k1: Seq<char>,
    v1: JsonView,
    k2: Seq<char>,
    v2: JsonView,
)
    requires
        sorted(entries),
        k1 != k2,
    ensures
        with_entry(with_entry(entries, k1, v1), k2, v2) == with_entry(
            with_entry(entries, k2, v2),
            k1,
            v1,
        ),
{
    let a1 = with_entry(entries, k1, v1);
    let b1 = with_entry(entries, k2, v2);
    let a = with_entry(a1, k2, v2);
    let b = with_entry(b1, k1, v1);
    lemma_lookup_with_entry(entries, k1, v1, k1);
    lemma_lookup_with_entry(entries, k2, v2, k2);
    lemma_lookup_with_entry(a1, k2, v2, k2);
    lemma_lookup_with_entry(b1, k1, v1, k1);
    assert forall|key: Seq<char>| lookup(a, key) == lookup(b, key) by {
        lemma_lookup_with_entry(entries, k1, v1, key);
        lemma_lookup_with_entry(entries, k2, v2, key);
        lemma_lookup_with_entry(a1, k2, v2, key);
        lemma_lookup_with_entry(b1, k1, v1, key);
    }
    lemma_objects_canonical(a, b);
}

/// **Setting the same width twice is setting it once.** The layout after
/// the width of indentation has been set to `width` does not change when
/// it is set to `width` again, at whatever depth; so what is written
/// afterwards is indented alike.
pub proof fn lemma_indent_idempotent(format: EncodingFormat, width: u32)
    ensures
        format.with_indent(width).with_indent(width) == format.with_indent(width),
        format.with_indent(width).newline() == format.with_indent(width).with_indent(
            width,
        ).newline(),
{
}

/// Setting the width of indentation keeps the depth: one level further in
/// after the width was set is the same as setting the width one level
/// further in.
pub proof fn lemma_indent_keeps_depth(format: EncodingFormat, width: u32)
    ensures
        format.with_indent(width).deeper() == format.deeper().with_indent(width),
        format.with_indent(width).shallower() == format.shallower().with_indent(width),
{
}

} // verus!
