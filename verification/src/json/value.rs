//! The tree of values that a document denotes.

use vstd::prelude::*;
use vstd::std_specs::cmp::PartialEqSpecImpl;
use crate::json::float::{Float, FloatView};
use crate::json::key::{
    compare_keys, key_lt, lemma_key_lt_irreflexive, lemma_key_lt_transitive, KeyOrder,
};

verus! {

/// The mathematical value of a [`Json`]: strings and arrays as sequences, an
/// object as the sequence of its entries.
pub enum JsonView {
    I64(i64),
    U64(u64),
    F64(FloatView),
    String(Seq<char>),
    Boolean(bool),
    Array(Seq<JsonView>),
    Object(Seq<(Seq<char>, JsonView)>),
    Null,
}

/// The entries of an object are in the order of their keys, and no key
/// occurs twice.
pub open spec fn sorted(entries: Seq<(Seq<char>, JsonView)>) -> bool {
    forall|i: int, j: int| 0 <= i < j < entries.len() ==> key_lt(entries[i].0, entries[j].0)
}

/// The number of entries at the start of `entries` whose key comes before
/// `key`.
pub open spec fn rank(entries: Seq<(Seq<char>, JsonView)>, key: Seq<char>) -> int
    decreases entries.len(),
{
    if entries.len() == 0 || !key_lt(entries[0].0, key) {
        0
    } else {
        1 + rank(entries.drop_first(), key)
    }
}

/// Whether an entry of `entries` has this key.
pub open spec fn has_key(entries: Seq<(Seq<char>, JsonView)>, key: Seq<char>) -> bool {
    exists|i: int| 0 <= i < entries.len() && entries[i].0 == key
}

/// The place of the first entry with this key.
pub open spec fn index_of(entries: Seq<(Seq<char>, JsonView)>, key: Seq<char>) -> int {
    choose|i: int|
        0 <= i < entries.len() && entries[i].0 == key && forall|j: int|
            0 <= j < i ==> entries[j].0 != key
}

/// The value of the first entry with this key.
pub open spec fn lookup(entries: Seq<(Seq<char>, JsonView)>, key: Seq<char>) -> Option<
    JsonView,
> {
    if has_key(entries, key) {
        Some(entries[index_of(entries, key)].1)
    } else {
        None
    }
}

/// The entries with `key` bound to `value`: in place of the entry that had
/// the key, or else at the key's place in the order.
pub open spec fn with_entry(
    entries: Seq<(Seq<char>, JsonView)>,
    key: Seq<char>,
    value: JsonView,
) -> Seq<(Seq<char>, JsonView)> {
    let p = rank(entries, key);
    if p < entries.len() && entries[p].0 == key {
        entries.update(p, (key, value))
    } else {
        entries.insert(p, (key, value))
    }
}

/// The entries without the first one that has this key.
pub open spec fn without_key(entries: Seq<(Seq<char>, JsonView)>, key: Seq<char>) -> Seq<
    (Seq<char>, JsonView),
> {
    if has_key(entries, key) {
        entries.remove(index_of(entries, key))
    } else {
        entries
    }
}

impl JsonView {
    /// Every object in the value has its entries in order, and every finite
    /// number is a well-formed decimal.
    pub open spec fn wf(self) -> bool
        decreases self,
    {
        match self {
            JsonView::F64(f) => f.wf(),
            JsonView::Array(items) => forall|i: int|
                0 <= i < items.len() ==> (#[trigger] items[i]).wf(),
            JsonView::Object(entries) => sorted(entries) && forall|i: int|
                0 <= i < entries.len() ==> (#[trigger] entries[i]).1.wf(),
            _ => true,
        }
    }

    /// The value of the field `key`, where this is an object that has it.
    pub open spec fn find(self, key: Seq<char>) -> Option<JsonView> {
        match self {
            JsonView::Object(entries) => lookup(entries, key),
            _ => None,
        }
    }

    /// The value reached by following `keys` from field to field.
    pub open spec fn find_path(self, keys: Seq<Seq<char>>) -> Option<JsonView>
        decreases keys.len(),
    {
        if keys.len() == 0 {
            Some(self)
        } else {
            match self.find(keys[0]) {
                Some(next) => next.find_path(keys.drop_first()),
                None => None,
            }
        }
    }

    /// The first value bound to `key` that a search finds which looks at an
    /// object's own fields first and then, in the order of the keys, into
    /// each of its values.
    pub open spec fn search(self, key: Seq<char>) -> Option<JsonView>
        decreases self, 0int,
    {
        match self {
            JsonView::Object(entries) => match lookup(entries, key) {
                Some(found) => Some(found),
                None => search_from(entries, key, 0),
            },
            _ => None,
        }
    }
}

/// The first value that a search for `key` finds in the values of `entries`
/// from the place `from` on.
pub open spec fn search_from(entries: Seq<(Seq<char>, JsonView)>, key: Seq<char>, from: int) -> Option<
    JsonView,
>
    decreases entries, entries.len() - from,
{
    if 0 <= from < entries.len() {
        match entries[from].1.search(key) {
            Some(found) => Some(found),
            None => search_from(entries, key, from + 1),
        }
    } else {
        None
    }
}

/// An object: values bound to keys, kept in the order of the keys, each key
/// at most once.
#[derive(Debug)]
pub struct Object {
    pub(crate) entries: Vec<(String, Json)>,
}

/// An array of values.
pub type Array = Vec<Json>;

/// Represents a json value
#[derive(Debug)]
pub enum Json {
    I64(i64),
    U64(u64),
    F64(Float),
    String(String),
    Boolean(bool),
    Array(Array),
    Object(Object),
    Null,
}

impl View for Json {
    type V = JsonView;

    open spec fn view(&self) -> JsonView
        decreases self,
    {
        match self {
            Json::I64(n) => JsonView::I64(*n),
            Json::U64(n) => JsonView::U64(*n),
            Json::F64(f) => JsonView::F64(f@),
            Json::String(s) => JsonView::String(s@),
            Json::Boolean(b) => JsonView::Boolean(*b),
            Json::Array(v) => JsonView::Array(items_view(v@)),
            Json::Object(o) => JsonView::Object(o@),
            Json::Null => JsonView::Null,
        }
    }
}

/// The views of a sequence of values, in order: what an array holds.
pub open spec fn items_view(items: Seq<Json>) -> Seq<JsonView>
    decreases items,
{
    if items.len() == 0 {
        Seq::empty()
    } else {
        items_view(items.drop_last()).push(items.last()@)
    }
}

/// The views of a sequence of keys with their values, in order: what an
/// object holds.
pub open spec fn entries_view(entries: Seq<(String, Json)>) -> Seq<(Seq<char>, JsonView)>
    decreases entries,
{
    if entries.len() == 0 {
        Seq::empty()
    } else {
        entries_view(entries.drop_last()).push((entries.last().0@, entries.last().1@))
    }
}

impl View for Object {
    type V = Seq<(Seq<char>, JsonView)>;

    /// The entries, in the order of their keys.
    closed spec fn view(&self) -> Seq<(Seq<char>, JsonView)>
        decreases self,
    {
        entries_view(self.entries@)
    }
}

/// An array has as many items as the vector, each the view of its value.
pub broadcast proof fn lemma_items_view(items: Seq<Json>)
    ensures
        #![trigger items_view(items)]
        items_view(items).len() == items.len(),
        forall|i: int| 0 <= i < items.len() ==> (#[trigger] items_view(items)[i]) == items[i]@,
    decreases items.len(),
{
    if items.len() > 0 {
        lemma_items_view(items.drop_last());
        assert(items_view(items) == items_view(items.drop_last()).push(items.last()@));
    } else {
        assert(items_view(items) == Seq::<JsonView>::empty());
    }
}

/// An object has as many entries as the vector, each the view of its pair.
pub broadcast proof fn lemma_entries_view(entries: Seq<(String, Json)>)
    ensures
        #![trigger entries_view(entries)]
        entries_view(entries).len() == entries.len(),
        forall|i: int|
            0 <= i < entries.len() ==> (#[trigger] entries_view(entries)[i]) == (
                entries[i].0@,
                entries[i].1@,
            ),
    decreases entries.len(),
{
    if entries.len() > 0 {
        lemma_entries_view(entries.drop_last());
        assert(entries_view(entries) == entries_view(entries.drop_last()).push(
            (entries.last().0@, entries.last().1@),
        ));
    } else {
        assert(entries_view(entries) == Seq::<(Seq<char>, JsonView)>::empty());
    }
}

/// An object's view is the view of its entries.
pub(crate) broadcast proof fn lemma_object_view(o: Object)
    ensures
        #[trigger] o@ == entries_view(o.entries@),
{
}

/// Where every key before place `p` comes before `key`, and the key at `p`,
/// if there is one, does not, `p` is the rank of `key`.
pub proof fn lemma_rank(entries: Seq<(Seq<char>, JsonView)>, key: Seq<char>, p: int)
    requires
        0 <= p <= entries.len(),
        forall|j: int| 0 <= j < p ==> key_lt(entries[j].0, key),
        p < entries.len() ==> !key_lt(entries[p].0, key),
    ensures
        rank(entries, key) == p,
    decreases entries.len(),
{
    if p > 0 {
        let rest = entries.drop_first();
        assert forall|j: int| 0 <= j < p - 1 implies key_lt(rest[j].0, key) by {
            assert(rest[j] == entries[j + 1]);
        }
        if p - 1 < rest.len() {
            assert(rest[p - 1] == entries[p]);
        }
        lemma_rank(rest, key, p - 1);
    }
}

/// In sorted entries a key is found at its rank or nowhere.
pub proof fn lemma_lookup_sorted(entries: Seq<(Seq<char>, JsonView)>, key: Seq<char>, p: int)
    requires
        sorted(entries),
        0 <= p <= entries.len(),
        forall|j: int| 0 <= j < p ==> key_lt(entries[j].0, key),
        p < entries.len() ==> !key_lt(entries[p].0, key),
    ensures
        has_key(entries, key) <==> (p < entries.len() && entries[p].0 == key),
        has_key(entries, key) ==> index_of(entries, key) == p,
{
    assert forall|j: int| 0 <= j < entries.len() && j != p implies entries[j].0 != key by {
        if j < p {
            lemma_key_lt_irreflexive(key);
        } else {
            if entries[j].0 == key {
                assert(key_lt(entries[p].0, entries[j].0));
            }
        }
    }
    if p < entries.len() && entries[p].0 == key {
        assert(has_key(entries, key));
    }
}

/// Binding a key in sorted entries leaves them sorted.
pub proof fn lemma_with_entry_sorted(
    entries: Seq<(Seq<char>, JsonView)>,
    key: Seq<char>,
    value: JsonView,
    p: int,
)
    requires
        sorted(entries),
        0 <= p <= entries.len(),
        forall|j: int| 0 <= j < p ==> key_lt(entries[j].0, key),
        p < entries.len() ==> (entries[p].0 == key || key_lt(key, entries[p].0)),
    ensures
        rank(entries, key) == p,
        sorted(with_entry(entries, key, value)),
{
    if p < entries.len() {
        if entries[p].0 == key {
            lemma_key_lt_irreflexive(key);
        } else {
            crate::json::key::lemma_bytes_lt_asymmetric(
                vstd::utf8::encode_utf8(key),
                vstd::utf8::encode_utf8(entries[p].0),
            );
        }
    }
    lemma_rank(entries, key, p);
    let r = with_entry(entries, key, value);
    assert forall|i: int, j: int| 0 <= i < j < r.len() implies key_lt(r[i].0, r[j].0) by {
        if p < entries.len() && entries[p].0 == key {
            assert(r[i].0 == entries[i].0);
            assert(r[j].0 == entries[j].0);
        } else {
            if j < p {
                assert(r[i] == entries[i] && r[j] == entries[j]);
            } else if j == p {
                assert(r[i] == entries[i]);
            } else if i == p {
                assert(r[j] == entries[j - 1]);
                if j - 1 > p {
                    lemma_key_lt_transitive(key, entries[p].0, entries[j - 1].0);
                }
            } else if i < p {
                assert(r[i] == entries[i] && r[j] == entries[j - 1]);
            } else {
                assert(r[i] == entries[i - 1] && r[j] == entries[j - 1]);
            }
        }
    }
}

impl Clone for Json {
    fn clone(&self) -> (r: Json)
        ensures
            r@ == self@,
        decreases self,
    {
        match self {
            Json::I64(n) => Json::I64(*n),
            Json::U64(n) => Json::U64(*n),
            Json::F64(f) => match f {
                Float::Nan => Json::F64(Float::Nan),
                Float::Infinity => Json::F64(Float::Infinity),
                Float::NegInfinity => Json::F64(Float::NegInfinity),
                Float::Finite(d) => Json::F64(Float::Finite(d.clone())),
            },
            Json::String(s) => Json::String(s.clone()),
            Json::Boolean(b) => Json::Boolean(*b),
            Json::Array(v) => {
                let mut items: Vec<Json> = Vec::new();
                let mut i: usize = 0;
                while i < v.len()
                    invariant
                        i <= v.len(),
                        decreases_to!(*self => *v),
                        items@.len() == i,
                        forall|j: int| 0 <= j < i ==> items@[j]@ == v@[j]@,
                    decreases v.len() - i,
                {
                    proof {
                        vstd::std_specs::vec::axiom_vec_index_decreases(*v, i as int);
                    }
                    items.push(v[i].clone());
                    i += 1;
                }
                proof {
                    lemma_items_view(items@);
                    lemma_items_view(v@);
                    assert(items_view(items@) =~= items_view(v@));
                }
                Json::Array(items)
            },
            Json::Object(o) => {
                proof {
                    use_type_invariant(o);
                    lemma_object_view(*o);
                }
                let mut entries: Vec<(String, Json)> = Vec::new();
                let mut i: usize = 0;
                while i < o.entries.len()
                    invariant
                        i <= o.entries.len(),
                        decreases_to!(*self => o.entries),
                        entries@.len() == i,
                        forall|j: int|
                            0 <= j < i ==> entries@[j].0@ == o.entries@[j].0@ && entries@[j].1@
                                == o.entries@[j].1@,
                    decreases o.entries.len() - i,
                {
                    proof {
                        vstd::std_specs::vec::axiom_vec_index_decreases(o.entries, i as int);
                    }
                    entries.push((o.entries[i].0.clone(), o.entries[i].1.clone()));
                    i += 1;
                }
                proof {
                    lemma_entries_view(entries@);
                    lemma_entries_view(o.entries@);
                    assert(entries_view(entries@) =~= entries_view(o.entries@));
                }
                Json::Object(Object { entries })
            },
            Json::Null => Json::Null,
        }
    }
}

impl Clone for Object {
    fn clone(&self) -> (r: Object)
        ensures
            r@ == self@,
    {
        proof {
            use_type_invariant(self);
            lemma_object_view(*self);
        }
        let mut entries: Vec<(String, Json)> = Vec::new();
        let mut i: usize = 0;
        while i < self.entries.len()
            invariant
                i <= self.entries.len(),
                entries@.len() == i,
                forall|j: int|
                    0 <= j < i ==> entries@[j].0@ == self.entries@[j].0@ && entries@[j].1@
                        == self.entries@[j].1@,
            decreases self.entries.len() - i,
        {
            entries.push((self.entries[i].0.clone(), self.entries[i].1.clone()));
            i += 1;
        }
        proof {
            lemma_entries_view(entries@);
            lemma_entries_view(self.entries@);
            assert(entries_view(entries@) =~= entries_view(self.entries@));
        }
        Object { entries }
    }
}

impl Object {
    #[verifier::type_invariant]
    closed spec fn inv(self) -> bool {
        sorted(entries_view(self.entries@))
    }

    /// The object without entries.
    pub fn new() -> (r: Object)
        ensures
            r@ == Seq::<(Seq<char>, JsonView)>::empty(),
    {
        let entries: Vec<(String, Json)> = Vec::new();
        proof {
            lemma_entries_view(entries@);
            assert(entries_view(entries@) =~= Seq::<(Seq<char>, JsonView)>::empty());
        }
        Object { entries }
    }

    /// The number of entries. They are in the order of their keys.
    pub fn len(&self) -> (r: usize)
        ensures
            r == self@.len(),
            sorted(self@),
    {
        proof {
            use_type_invariant(self);
            lemma_entries_view(self.entries@);
        }
        self.entries.len()
    }

    /// Whether the object has no entry.
    pub fn is_empty(&self) -> (r: bool)
        ensures
            r == (self@.len() == 0),
    {
        proof {
            lemma_entries_view(self.entries@);
        }
        self.entries.len() == 0
    }

    /// The key of the entry at place `i` in the order of the keys.
    pub fn key_at(&self, i: usize) -> (r: &str)
        requires
            i < self@.len(),
        ensures
            r@ == self@[i as int].0,
    {
        proof {
            lemma_entries_view(self.entries@);
        }
        self.entries[i].0.as_str()
    }

    /// The value of the entry at place `i` in the order of the keys.
    pub fn value_at(&self, i: usize) -> (r: &Json)
        requires
            i < self@.len(),
        ensures
            r@ == self@[i as int].1,
            decreases_to!(*self => *r),
    {
        proof {
            lemma_entries_view(self.entries@);
            vstd::std_specs::vec::axiom_vec_index_decreases(self.entries, i as int);
        }
        &self.entries[i].1
    }

    // The place of `key` in the order of the keys, and whether it is there.
    fn position(&self, key: &str) -> (r: (usize, bool))
        ensures
            r.0 <= self@.len(),
            r.0 == rank(self@, key@),
            r.1 == has_key(self@, key@),
            r.1 == (r.0 < self@.len() && self@[r.0 as int].0 == key@),
            r.1 ==> index_of(self@, key@) == r.0,
            forall|j: int| 0 <= j < r.0 ==> key_lt(self@[j].0, key@),
            r.0 < self@.len() ==> (self@[r.0 as int].0 == key@ || key_lt(key@, self@[r.0 as int].0)),
            sorted(self@),
    {
        proof {
            use_type_invariant(self);
            lemma_entries_view(self.entries@);
        }
        let mut i: usize = 0;
        let mut found = false;
        while i < self.entries.len()
            invariant_except_break
                !found,
            invariant
                i <= self.entries.len(),
                self@ == entries_view(self.entries@),
                self@.len() == self.entries@.len(),
                forall|j: int| 0 <= j < i ==> key_lt(self@[j].0, key@),
            ensures
                i <= self.entries.len(),
                forall|j: int| 0 <= j < i ==> key_lt(self@[j].0, key@),
                i < self@.len() ==> !key_lt(self@[i as int].0, key@),
                found == (i < self@.len() && self@[i as int].0 == key@),
                i < self@.len() ==> (self@[i as int].0 == key@ || key_lt(key@, self@[i as int].0)),
            decreases self.entries.len() - i,
        {
            proof {
                lemma_entries_view(self.entries@);
            }
            match compare_keys(self.entries[i].0.as_str(), key) {
                KeyOrder::Before => {
                    i += 1;
                },
                KeyOrder::Same => {
                    found = true;
                    proof {
                        lemma_key_lt_irreflexive(key@);
                    }
                    break ;
                },
                KeyOrder::After => {
                    proof {
                        crate::json::key::lemma_bytes_lt_asymmetric(
                            vstd::utf8::encode_utf8(key@),
                            vstd::utf8::encode_utf8(self@[i as int].0),
                        );
                    }
                    break ;
                },
            }
        }
        proof {
            lemma_rank(self@, key@, i as int);
            lemma_lookup_sorted(self@, key@, i as int);
        }
        (i, found)
    }

    /// Whether an entry has this key.
    pub fn contains_key(&self, key: &str) -> (r: bool)
        ensures
            r == has_key(self@, key@),
    {
        self.position(key).1
    }

    /// The value bound to `key`, if there is one.
    pub fn get(&self, key: &str) -> (r: Option<&Json>)
        ensures
            r is Some == has_key(self@, key@),
            r is Some ==> lookup(self@, key@) == Some(r->0@),
    {
        let (p, found) = self.position(key);
        if found {
            Some(self.value_at(p))
        } else {
            None
        }
    }

    /// Binds `key` to `value`, and returns the value that it was bound to
    /// before, if there was one.
    pub fn insert(&mut self, key: String, value: Json) -> (r: Option<Json>)
        ensures
            final(self)@ == with_entry(old(self)@, key@, value@),
            r is Some == has_key(old(self)@, key@),
            r is Some ==> lookup(old(self)@, key@) == Some(r->0@),
    {
        let (p, found) = self.position(key.as_str());
        proof {
            use_type_invariant(&*self);
            lemma_entries_view(self.entries@);
            lemma_with_entry_sorted(self@, key@, value@, p as int);
        }
        let ghost before = self.entries@;
        let ghost target = with_entry(self@, key@, value@);
        if found {
            let mut entry = (key, value);
            proof {
                assert(entries_view(before.update(p as int, entry)) =~= target) by {
                    lemma_entries_view(before.update(p as int, entry));
                }
            }
            let mut entries: Vec<(String, Json)> = Vec::new();
            proof {
                lemma_entries_view(entries@);
            }
            core::mem::swap(&mut self.entries, &mut entries);
            core::mem::swap(&mut entries[p], &mut entry);
            core::mem::swap(&mut self.entries, &mut entries);
            Some(entry.1)
        } else {
            proof {
                assert(entries_view(before.insert(p as int, (key, value))) =~= target) by {
                    lemma_entries_view(before.insert(p as int, (key, value)));
                }
            }
            let mut entries: Vec<(String, Json)> = Vec::new();
            proof {
                lemma_entries_view(entries@);
            }
            core::mem::swap(&mut self.entries, &mut entries);
            entries.insert(p, (key, value));
            core::mem::swap(&mut self.entries, &mut entries);
            None
        }
    }

    /// Removes the entry of `key`, and returns the value that it was bound
    /// to, if there was one.
    pub fn remove(&mut self, key: &str) -> (r: Option<Json>)
        ensures
            final(self)@ == without_key(old(self)@, key@),
            r is Some == has_key(old(self)@, key@),
            r is Some ==> lookup(old(self)@, key@) == Some(r->0@),
    {
        let (p, found) = self.position(key);
        proof {
            use_type_invariant(&*self);
            lemma_entries_view(self.entries@);
        }
        let ghost before = self.entries@;
        if found {
            proof {
                lemma_entries_view(before.remove(p as int));
                let after = entries_view(before.remove(p as int));
                assert(after =~= self@.remove(p as int));
                assert forall|i: int, j: int| 0 <= i < j < after.len() implies key_lt(
                    after[i].0,
                    after[j].0,
                ) by {
                    let i0 = if i < p {
                        i
                    } else {
                        i + 1
                    };
                    let j0 = if j < p {
                        j
                    } else {
                        j + 1
                    };
                    assert(after[i] == self@[i0] && after[j] == self@[j0]);
                }
            }
            let mut entries: Vec<(String, Json)> = Vec::new();
            proof {
                lemma_entries_view(entries@);
            }
            core::mem::swap(&mut self.entries, &mut entries);
            let entry = entries.remove(p);
            core::mem::swap(&mut self.entries, &mut entries);
            Some(entry.1)
        } else {
            None
        }
    }

    /// The entries, in the order of their keys.
    pub fn into_entries(self) -> (r: Vec<(String, Json)>)
        ensures
            entries_view(r@) == self@,
            sorted(self@),
    {
        proof {
            use_type_invariant(&self);
        }
        self.entries
    }
}

/// The views of a slice of keys.
pub open spec fn keys_view(keys: Seq<&str>) -> Seq<Seq<char>> {
    Seq::new(keys.len(), |i: int| keys[i]@)
}

/// The view of a value that may be missing.
pub open spec fn found(r: Option<&Json>) -> Option<JsonView> {
    match r {
        Some(v) => Some(v@),
        None => None,
    }
}

/// Following a path is following its first key and then the rest.
proof fn lemma_find_path_step(v: JsonView, keys: Seq<Seq<char>>, i: int)
    requires
        0 <= i < keys.len(),
    ensures
        v.find_path(keys.skip(i)) == (match v.find(keys[i]) {
            Some(next) => next.find_path(keys.skip(i + 1)),
            None => None,
        }),
{
    assert(keys.skip(i).drop_first() =~= keys.skip(i + 1));
    assert(keys.skip(i)[0] == keys[i]);
}

impl Json {
    /// If the Json value is an Object, returns the value associated with the provided key.
    /// Otherwise, returns None.
    pub fn find<'a>(&'a self, key: &str) -> (r: Option<&'a Json>)
        ensures
            found(r) == self@.find(key@),
    {
        match self {
            Json::Object(map) => map.get(key),
            _ => None,
        }
    }

    /// Attempts to get a nested Json Object for each key in `keys`.
    /// If any key is found not to exist, find_path will return None.
    /// Otherwise, it will return the Json value associated with the final key.
    pub fn find_path<'a>(&'a self, keys: &[&str]) -> (r: Option<&'a Json>)
        ensures
            found(r) == self@.find_path(keys_view(keys@)),
    {
        let ghost path = keys_view(keys@);
        let mut target = self;
        let mut i: usize = 0;
        proof {
            assert(path.skip(0) =~= path);
        }
        while i < keys.len()
            invariant
                i <= keys@.len(),
                path == keys_view(keys@),
                self@.find_path(path) == target@.find_path(path.skip(i as int)),
            decreases keys.len() - i,
        {
            proof {
                lemma_find_path_step(target@, path, i as int);
            }
            match target.find(keys[i]) {
                Some(t) => {
                    target = t;
                },
                None => {
                    return None;
                },
            }
            i += 1;
        }
        Some(target)
    }

    /// If the Json value is an Object, performs a depth-first search until
    /// a value associated with the provided key is found. If no value is found
    /// or the Json value is not an Object, returns None.
    pub fn search<'a>(&'a self, key: &str) -> (r: Option<&'a Json>)
        ensures
            found(r) == self@.search(key@),
        decreases self,
    {
        match self {
            Json::Object(map) => {
                match map.get(key) {
                    Some(json_value) => Some(json_value),
                    None => {
                        proof {
                            lemma_object_view(*map);
                            lemma_entries_view(map.entries@);
                        }
                        let mut i: usize = 0;
                        while i < map.entries.len()
                            invariant
                                i <= map.entries.len(),
                                decreases_to!(*self => map.entries),
                                map@ == entries_view(map.entries@),
                                map@.len() == map.entries@.len(),
                                forall|j: int|
                                    0 <= j < map@.len() ==> (#[trigger] map@[j]).1
                                        == map.entries@[j].1@,
                                search_from(map@, key@, 0) == search_from(map@, key@, i as int),
                                self@ == JsonView::Object(map@),
                                lookup(map@, key@) is None,
                            decreases map.entries.len() - i,
                        {
                            proof {
                                vstd::std_specs::vec::axiom_vec_index_decreases(
                                    map.entries,
                                    i as int,
                                );
                            }
                            let x = map.entries[i].1.search(key);
                            proof {
                                assert(map@[i as int].1 == map.entries@[i as int].1@);
                            }
                            if x.is_some() {
                                return x;
                            }
                            i += 1;
                        }
                        None
                    },
                }
            },
            _ => None,
        }
    }

    /// Returns true if the Json value is an Object. Returns false otherwise.
    pub fn is_object(&self) -> (r: bool)
        ensures
            r == (self@ is Object),
    {
        self.as_object().is_some()
    }

    /// If the Json value is an Object, returns the associated map.
    /// Returns None otherwise.
    pub fn as_object(&self) -> (r: Option<&Object>)
        ensures
            r is Some == (self@ is Object),
            r is Some ==> self@ == JsonView::Object(r->0@),
    {
        match self {
            Json::Object(map) => Some(map),
            _ => None,
        }
    }

    /// If the Json value is an Object, returns the associated mutable map.
    /// Returns None otherwise.
    pub fn as_object_mut(&mut self) -> (r: Option<&mut Object>)
        ensures
            r is Some == (old(self)@ is Object),
            r is Some ==> old(self)@ == JsonView::Object((*r->0)@) && final(self)@
                == JsonView::Object((*final(r->0))@),
            r is None ==> final(self)@ == old(self)@,
    {
        match self {
            Json::Object(map) => Some(map),
            _ => None,
        }
    }

    /// Returns true if the Json value is an Array. Returns false otherwise.
    pub fn is_array(&self) -> (r: bool)
        ensures
            r == (self@ is Array),
    {
        self.as_array().is_some()
    }

    /// If the Json value is an Array, returns the associated vector.
    /// Returns None otherwise.
    pub fn as_array(&self) -> (r: Option<&Array>)
        ensures
            r is Some == (self@ is Array),
            r is Some ==> self@ == JsonView::Array(items_view(r->0@)),
    {
        match self {
            Json::Array(array) => Some(array),
            _ => None,
        }
    }

    /// If the Json value is an Array, returns the associated mutable vector.
    /// Returns None otherwise.
    pub fn as_array_mut(&mut self) -> (r: Option<&mut Array>)
        ensures
            r is Some == (old(self)@ is Array),
            r is Some ==> old(self)@ == JsonView::Array(items_view((*r->0)@)) && final(self)@
                == JsonView::Array(items_view((*final(r->0))@)),
            r is None ==> final(self)@ == old(self)@,
    {
        match self {
            Json::Array(list) => Some(list),
            _ => None,
        }
    }

    /// Returns true if the Json value is a String. Returns false otherwise.
    pub fn is_string(&self) -> (r: bool)
        ensures
            r == (self@ is String),
    {
        self.as_string().is_some()
    }

    /// If the Json value is a String, returns the associated str.
    /// Returns None otherwise.
    pub fn as_string(&self) -> (r: Option<&str>)
        ensures
            r is Some == (self@ is String),
            r is Some ==> self@ == JsonView::String(r->0@),
    {
        match self {
            Json::String(s) => Some(s.as_str()),
            _ => None,
        }
    }

    /// Returns true if the Json value is a Number. Returns false otherwise.
    pub fn is_number(&self) -> (r: bool)
        ensures
            r == (self@ is I64 || self@ is U64 || self@ is F64),
    {
        match self {
            Json::I64(_) | Json::U64(_) | Json::F64(_) => true,
            _ => false,
        }
    }

    /// Returns true if the Json value is a i64. Returns false otherwise.
    pub fn is_i64(&self) -> (r: bool)
        ensures
            r == (self@ is I64),
    {
        match self {
            Json::I64(_) => true,
            _ => false,
        }
    }

    /// Returns true if the Json value is a u64. Returns false otherwise.
    pub fn is_u64(&self) -> (r: bool)
        ensures
            r == (self@ is U64),
    {
        match self {
            Json::U64(_) => true,
            _ => false,
        }
    }

    /// Returns true if the Json value is a f64. Returns false otherwise.
    pub fn is_f64(&self) -> (r: bool)
        ensures
            r == (self@ is F64),
    {
        match self {
            Json::F64(_) => true,
            _ => false,
        }
    }

    /// If the Json value is a number, return or cast it to a i64.
    /// Returns None otherwise. An unsigned number is returned where it is
    /// below `i64::MAX`.
    pub fn as_i64(&self) -> (r: Option<i64>)
        ensures
            r == (match self@ {
                JsonView::I64(n) => Some(n),
                JsonView::U64(n) => if n >= i64::MAX as u64 {
                    None
                } else {
                    Some(n as i64)
                },
                _ => None,
            }),
    {
        match self {
            Json::I64(n) => Some(*n),
            Json::U64(n) => if *n >= i64::MAX as u64 {
                None
            } else {
                Some(*n as i64)
            },
            _ => None,
        }
    }

    /// If the Json value is a number, return or cast it to a u64.
    /// Returns None otherwise.
    pub fn as_u64(&self) -> (r: Option<u64>)
        ensures
            r == (match self@ {
                JsonView::I64(n) => if n >= 0 {
                    Some(n as u64)
                } else {
                    None
                },
                JsonView::U64(n) => Some(n),
                _ => None,
            }),
    {
        match self {
            Json::I64(n) => if *n >= 0 {
                Some(*n as u64)
            } else {
                None
            },
            Json::U64(n) => Some(*n),
            _ => None,
        }
    }

    /// If the Json value is a number, return or cast it to a f64.
    /// Returns None otherwise.
    pub fn as_f64(&self) -> (r: Option<Float>)
        ensures
            match self@ {
                JsonView::I64(n) => r is Some && r->0@ == Float::from_i64_view(n),
                JsonView::U64(n) => r is Some && r->0@ == Float::from_u64_view(n),
                JsonView::F64(f) => r is Some && r->0@ == f,
                _ => r is None,
            },
    {
        match self {
            Json::I64(n) => Some(Float::from_i64(*n)),
            Json::U64(n) => Some(Float::from_u64(*n)),
            Json::F64(n) => match n {
                Float::Nan => Some(Float::Nan),
                Float::Infinity => Some(Float::Infinity),
                Float::NegInfinity => Some(Float::NegInfinity),
                Float::Finite(d) => Some(Float::Finite(d.clone())),
            },
            _ => None,
        }
    }

    /// Returns true if the Json value is a Boolean. Returns false otherwise.
    pub fn is_boolean(&self) -> (r: bool)
        ensures
            r == (self@ is Boolean),
    {
        self.as_boolean().is_some()
    }

    /// If the Json value is a Boolean, returns the associated bool.
    /// Returns None otherwise.
    pub fn as_boolean(&self) -> (r: Option<bool>)
        ensures
            r == (match self@ {
                JsonView::Boolean(b) => Some(b),
                _ => None,
            }),
    {
        match self {
            Json::Boolean(b) => Some(*b),
            _ => None,
        }
    }

    /// Returns true if the Json value is a Null. Returns false otherwise.
    pub fn is_null(&self) -> (r: bool)
        ensures
            r == (self@ is Null),
    {
        self.as_null().is_some()
    }

    /// If the Json value is a Null, returns ().
    /// Returns None otherwise.
    pub fn as_null(&self) -> (r: Option<()>)
        ensures
            r is Some == (self@ is Null),
    {
        match self {
            Json::Null => Some(()),
            _ => None,
        }
    }
}

impl Json {
    /// Whether both are the same value: numbers of the same kind and size,
    /// the same strings, arrays with the same elements in the same order,
    /// objects with the same values bound to the same keys.
    pub fn same(&self, other: &Json) -> (r: bool)
        ensures
            r == (self@ == other@),
        decreases self,
    {
        match (self, other) {
            (Json::I64(a), Json::I64(b)) => *a == *b,
            (Json::U64(a), Json::U64(b)) => *a == *b,
            (Json::F64(a), Json::F64(b)) => a.same(b),
            (Json::String(a), Json::String(b)) => crate::json::key::str_eq(
                a.as_str(),
                b.as_str(),
            ),
            (Json::Boolean(a), Json::Boolean(b)) => *a == *b,
            (Json::Null, Json::Null) => true,
            (Json::Array(a), Json::Array(b)) => {
                proof {
                    lemma_items_view(a@);
                    lemma_items_view(b@);
                }
                if a.len() != b.len() {
                    return false;
                }
                let mut i: usize = 0;
                while i < a.len()
                    invariant
                        i <= a.len(),
                        a.len() == b.len(),
                        decreases_to!(*self => *a),
                        forall|j: int| 0 <= j < i ==> a@[j]@ == b@[j]@,
                        self@ == JsonView::Array(items_view(a@)),
                        other@ == JsonView::Array(items_view(b@)),
                    decreases a.len() - i,
                {
                    proof {
                        vstd::std_specs::vec::axiom_vec_index_decreases(*a, i as int);
                        lemma_items_view(a@);
                        lemma_items_view(b@);
                    }
                    if !a[i].same(&b[i]) {
                        proof {
                            assert(items_view(a@)[i as int] != items_view(b@)[i as int]);
                        }
                        return false;
                    }
                    i += 1;
                }
                proof {
                    lemma_items_view(a@);
                    lemma_items_view(b@);
                    assert(items_view(a@) =~= items_view(b@));
                }
                true
            },
            (Json::Object(a), Json::Object(b)) => a.same(b),
            (_, _) => false,
        }
    }
}

impl Object {
    /// Whether both bind the same values to the same keys.
    pub fn same(&self, other: &Object) -> (r: bool)
        ensures
            r == (self@ == other@),
        decreases self,
    {
        let a = self;
        let b = other;
        proof {
            lemma_object_view(*a);
            lemma_object_view(*b);
            lemma_entries_view(a.entries@);
            lemma_entries_view(b.entries@);
        }
        if a.entries.len() != b.entries.len() {
            return false;
        }
        let mut i: usize = 0;
        while i < a.entries.len()
            invariant
                i <= a.entries.len(),
                a.entries.len() == b.entries.len(),
                decreases_to!(*self => a.entries),
                forall|j: int|
                    0 <= j < i ==> a.entries@[j].0@ == b.entries@[j].0@ && a.entries@[j].1@
                        == b.entries@[j].1@,
                self@ == entries_view(a.entries@),
                other@ == entries_view(b.entries@),
            decreases a.entries.len() - i,
        {
            proof {
                vstd::std_specs::vec::axiom_vec_index_decreases(a.entries, i as int);
                lemma_entries_view(a.entries@);
                lemma_entries_view(b.entries@);
            }
            if !crate::json::key::str_eq(a.entries[i].0.as_str(), b.entries[i].0.as_str()) {
                proof {
                    assert(entries_view(a.entries@)[i as int] != entries_view(b.entries@)[i as int]);
                }
                return false;
            }
            if !a.entries[i].1.same(&b.entries[i].1) {
                proof {
                    assert(entries_view(a.entries@)[i as int] != entries_view(b.entries@)[i as int]);
                }
                return false;
            }
            i += 1;
        }
        proof {
            lemma_entries_view(a.entries@);
            lemma_entries_view(b.entries@);
            assert(entries_view(a.entries@) =~= entries_view(b.entries@));
        }
        true
    }
}

impl PartialEq for Object {
    /// Two objects are equal when they bind the same values to the same
    /// keys.
    fn eq(&self, other: &Object) -> (r: bool) {
        self.same(other)
    }
}

impl PartialEqSpecImpl for Object {
    open spec fn obeys_eq_spec() -> bool {
        true
    }

    open spec fn eq_spec(&self, other: &Object) -> bool {
        self@ == other@
    }
}

impl PartialEq for Json {
    /// Two values are equal when they are the same value.
    fn eq(&self, other: &Json) -> (r: bool) {
        self.same(other)
    }
}

impl PartialEqSpecImpl for Json {
    open spec fn obeys_eq_spec() -> bool {
        true
    }

    open spec fn eq_spec(&self, other: &Json) -> bool {
        self@ == other@
    }
}

} // verus!
