//! A JSON text codec: a recursive-descent parser from UTF-8 text to an
//! owned value tree, and a serializer from the tree back to text under a
//! configurable formatting policy. Doubles are carried as their IEEE-754
//! bit patterns and cross the text boundary through a softfloat library, so
//! the whole of the codec's own logic stays in verified code.

use vstd::prelude::*;

pub mod error;
pub mod format;
pub mod laws;
pub mod model;
pub mod parse;

use crate::model::ValueView;
use vstd::string::StringSliceAdditionalSpecFns;

verus! {

/// A JSON number: either a 64-bit signed integer (the fast path for number
/// tokens without `.` or exponent) or a double-precision float carried as its
/// IEEE-754 bit pattern (`f64::to_bits`). The two are mutually exclusive.
///
/// NaN and the infinities are representable here (by their bit patterns) but
/// have no JSON literal; see the serializer for how they are written out.
#[derive(Debug, Clone, Copy, PartialEq, Eq, Structural)]
pub enum Number {
    /// A double, held as the `u64` returned by `f64::to_bits`.
    Float(u64),
    /// A 64-bit signed integer.
    Int(i64),
}

/// A JSON value: a closed tagged union with exactly six variants. A value
/// exclusively owns all its descendants; the tree has no sharing and no
/// cycles.
#[derive(Debug)]
pub enum Value {
    /// The `null` literal.
    Null,
    /// `true` or `false`.
    Boolean(bool),
    /// A number; see [`Number`].
    Number(Number),
    /// UTF-8 text, owned, already unescaped.
    String(String),
    /// An ordered sequence of values, 0-based.
    Array(Vec<Value>),
    /// A mapping from string keys to values; see [`ValueMap`].
    Object(ValueMap),
}

/// The mapping that [`Value::Object`] uses: string keys to values, each key
/// at most once, iteration in insertion order. Inserting an existing key
/// replaces the value in place and keeps the entry's position (last write
/// wins).
#[derive(Debug)]
pub struct ValueMap {
    entries: Vec<(String, Value)>,
}

impl Value {
    /// The views of the elements of an array payload, in order.
    pub open spec fn views_of_seq(s: Seq<Value>) -> Seq<ValueView>
        decreases s,
    {
        if s.len() == 0 {
            Seq::empty()
        } else {
            Self::views_of_seq(s.subrange(0, s.len() - 1)).push(s.last()@)
        }
    }

    /// The views of the entries of an object payload, in order.
    pub open spec fn views_of_entries(s: Seq<(String, Value)>) -> Seq<(Seq<char>, ValueView)>
        decreases s,
    {
        if s.len() == 0 {
            Seq::empty()
        } else {
            Self::views_of_entries(s.subrange(0, s.len() - 1)).push(
                (s.last().0@, s.last().1@),
            )
        }
    }
}

impl View for Value {
    type V = ValueView;

    open spec fn view(&self) -> ValueView
        decreases self,
    {
        match self {
            Value::Null => ValueView::Null,
            Value::Boolean(b) => ValueView::Boolean(*b),
            Value::Number(n) => ValueView::Number(*n),
            Value::String(s) => ValueView::String(s@),
            Value::Array(vs) => ValueView::Array(Value::views_of_seq(vs@)),
            Value::Object(m) => ValueView::Object(m@),
        }
    }
}

impl View for ValueMap {
    type V = Seq<(Seq<char>, ValueView)>;

    closed spec fn view(&self) -> Seq<(Seq<char>, ValueView)>
        decreases self,
    {
        Value::views_of_entries(self.entries@)
    }
}

/// `views_of_seq` is the pointwise view of its argument.
pub broadcast proof fn lemma_views_of_seq(s: Seq<Value>)
    ensures
        (#[trigger] Value::views_of_seq(s)).len() == s.len(),
        forall|i: int| 0 <= i < s.len() ==> Value::views_of_seq(s)[i] == s[i]@,
    decreases s,
{
    if s.len() > 0 {
        lemma_views_of_seq(s.subrange(0, s.len() - 1));
        assert(Value::views_of_seq(s) == Value::views_of_seq(s.subrange(0, s.len() - 1)).push(
            s.last()@,
        ));
    } else {
        assert(Value::views_of_seq(s) == Seq::<ValueView>::empty());
    }
}

/// `views_of_entries` is the pointwise view of its argument.
pub broadcast proof fn lemma_views_of_entries(s: Seq<(String, Value)>)
    ensures
        (#[trigger] Value::views_of_entries(s)).len() == s.len(),
        forall|i: int|
            0 <= i < s.len() ==> Value::views_of_entries(s)[i] == (s[i].0@, s[i].1@),
    decreases s,
{
    if s.len() > 0 {
        lemma_views_of_entries(s.subrange(0, s.len() - 1));
        assert(Value::views_of_entries(s) == Value::views_of_entries(
            s.subrange(0, s.len() - 1),
        ).push((s.last().0@, s.last().1@)));
    } else {
        assert(Value::views_of_entries(s) == Seq::<(Seq<char>, ValueView)>::empty());
    }
}

/// The view of a map is the pointwise view of its entry vector.
proof fn lemma_map_view(m: &ValueMap)
    ensures
        m@ == Value::views_of_entries(m.entries@),
        m@.len() == m.entries@.len(),
        forall|i: int| 0 <= i < m.entries@.len() ==> m@[i] == (m.entries@[i].0@, m.entries@[i].1@),
{
    assert(m@ == Value::views_of_entries(m.entries@));
    lemma_views_of_entries(m.entries@);
}

/// A value stored in a map stands below the map in the well-founded order
/// that `decreases` clauses use, so recursion over a tree of values may step
/// from a map to one of its values.
pub proof fn lemma_map_entry_decreases(m: &ValueMap, i: int)
    requires
        0 <= i < m@.len(),
    ensures
        decreases_to!(*m => m.spec_entry(i).1),
{
    lemma_map_view(m);
    assert(decreases_to!(*m => m.entries));
    assert(decreases_to!(m.entries => m.entries@[i]));
    assert(decreases_to!(m.entries@[i] => m.entries@[i].1));
}

/// Relies on `String::push`: appends the given character to the end of the
/// string, changing nothing else.
#[verifier::external_body]
pub(crate) fn push_char(s: &mut String, c: char)
    ensures
        final(s)@ == old(s)@.push(c),
{
    s.push(c);
}

/// The characters of `s`, in order, as a vector.
pub(crate) fn str_chars(s: &str) -> (r: Vec<char>)
    ensures
        r@ == s@,
{
    let n = s.unicode_len();
    let mut r: Vec<char> = Vec::new();
    let mut i: usize = 0;
    while i < n
        invariant
            n == s@.len(),
            0 <= i <= n,
            r@ =~= s@.subrange(0, i as int),
        decreases n - i,
    {
        r.push(s.get_char(i));
        i += 1;
    }
    proof {
        assert(r@ =~= s@);
    }
    r
}

/// Character-for-character string comparison, so that equality of the views
/// is established rather than assumed.
pub(crate) fn str_eq(a: &str, b: &str) -> (r: bool)
    ensures
        r == (a@ == b@),
{
    let n = a.unicode_len();
    let m = b.unicode_len();
    if n != m {
        return false;
    }
    let mut i: usize = 0;
    while i < n
        invariant
            n == a@.len(),
            n == b@.len(),
            0 <= i <= n,
            forall|j: int| 0 <= j < i ==> a@[j] == b@[j],
        decreases n - i,
    {
        if a.get_char(i) != b.get_char(i) {
            return false;
        }
        i += 1;
    }
    proof {
        assert(a@ =~= b@);
    }
    true
}

impl ValueMap {
    /// Keys are pairwise distinct; established by [`ValueMap::new`] and kept
    /// by [`ValueMap::insert`].
    pub open spec fn wf(&self) -> bool {
        ValueView::obj_keys_distinct(self@)
    }

    /// An empty mapping.
    pub fn new() -> (r: ValueMap)
        ensures
            r@ == Seq::<(Seq<char>, ValueView)>::empty(),
            r.wf(),
    {
        let r = ValueMap { entries: Vec::new() };
        proof {
            lemma_map_view(&r);
            assert(r@ =~= Seq::<(Seq<char>, ValueView)>::empty());
        }
        r
    }

    /// How many entries the mapping holds.
    pub fn len(&self) -> (n: usize)
        ensures
            n == self@.len(),
    {
        proof {
            lemma_map_view(self);
        }
        self.entries.len()
    }

    /// The entry at position `i`, as a mathematical pair; what `key_at` and
    /// `value_at` hand out.
    pub closed spec fn spec_entry(&self, i: int) -> (String, Value) {
        self.entries@[i]
    }

    /// The key of the entry at position `i` (insertion order).
    pub fn key_at(&self, i: usize) -> (k: &String)
        requires
            i < self@.len(),
        ensures
            k@ == self@[i as int].0,
            *k == self.spec_entry(i as int).0,
    {
        proof {
            lemma_map_view(self);
        }
        &self.entries[i].0
    }

    /// The value of the entry at position `i` (insertion order).
    pub fn value_at(&self, i: usize) -> (v: &Value)
        requires
            i < self@.len(),
        ensures
            v@ == self@[i as int].1,
            *v == self.spec_entry(i as int).1,
    {
        proof {
            lemma_map_view(self);
        }
        &self.entries[i].1
    }

    /// Look a key up; `Some` exactly when the key is present.
    pub fn get(&self, key: &str) -> (r: Option<&Value>)
        requires
            self.wf(),
        ensures
            r is Some <==> ValueView::obj_has_key(self@, key@),
            r matches Some(v) ==> v@ == ValueView::obj_value_of(self@, key@),
    {
        proof {
            lemma_map_view(self);
        }
        let n = self.entries.len();
        let mut i: usize = 0;
        while i < n
            invariant
                self.wf(),
                n == self@.len(),
                0 <= i <= n,
                forall|j: int| 0 <= j < i ==> self@[j].0 != key@,
            decreases n - i,
        {
            proof {
                lemma_map_view(self);
            }
            if str_eq(self.entries[i].0.as_str(), key) {
                proof {
                    assert(self@[i as int].0 == key@);
                    assert(ValueView::obj_index_of(self@, key@) == i as int);
                }
                return Some(&self.entries[i].1);
            }
            i += 1;
        }
        None
    }

    /// Insert `value` under `key`: a new key goes to the end, an existing key
    /// keeps its position and has its value replaced (last write wins); the
    /// replaced value comes back.
    pub fn insert(&mut self, key: String, value: Value) -> (r: Option<Value>)
        requires
            old(self).wf(),
        ensures
            final(self).wf(),
            ValueView::obj_has_key(old(self)@, key@) ==> {
                &&& final(self)@ == old(self)@.update(
                    ValueView::obj_index_of(old(self)@, key@),
                    (key@, value@),
                )
                &&& r matches Some(prev) && prev@ == ValueView::obj_value_of(old(self)@, key@)
            },
            !ValueView::obj_has_key(old(self)@, key@) ==> {
                &&& final(self)@ == old(self)@.push((key@, value@))
                &&& r is None
            },
    {
        proof {
            lemma_map_view(self);
        }
        let ghost old_view = self@;
        let n = self.entries.len();
        let mut i: usize = 0;
        while i < n
            invariant
                ValueView::obj_keys_distinct(old_view),
                old_view == old(self)@,
                self@ == old_view,
                n == self@.len(),
                0 <= i <= n,
                forall|j: int| 0 <= j < i ==> self@[j].0 != key@,
            decreases n - i,
        {
            proof {
                lemma_map_view(self);
            }
            if str_eq(self.entries[i].0.as_str(), key.as_str()) {
                proof {
                    assert(self@[i as int].0 == key@);
                    assert(ValueView::obj_index_of(self@, key@) == i as int);
                }
                let mut entry = (key, value);
                core::mem::swap(&mut self.entries[i], &mut entry);
                proof {
                    lemma_map_view(self);
                    assert(self@ =~= old_view.update(i as int, (key@, value@)));
                    assert(entry.1@ == ValueView::obj_value_of(old(self)@, key@));
                }
                return Some(entry.1);
            }
            i += 1;
        }
        proof {
            lemma_map_view(self);
        }
        let ghost pre_entries = self.entries@;
        self.entries.push((key, value));
        proof {
            lemma_map_view(self);
            assert(self.entries@ == pre_entries.push((key, value)));
            assert(self@ =~= old_view.push((key@, value@)));
        }
        None
    }
}

/// A deep copy of a value: the copy's view is the original's.
fn clone_value(v: &Value) -> (r: Value)
    ensures
        r@ == v@,
    decreases v, 0int, 0int,
{
    match v {
        Value::Null => Value::Null,
        Value::Boolean(b) => Value::Boolean(*b),
        Value::Number(n) => Value::Number(*n),
        Value::String(s) => Value::String(s.clone()),
        Value::Array(vs) => {
            let copies = clone_values(vs);
            let r = Value::Array(copies);
            proof {
                lemma_views_of_seq(copies@);
                lemma_views_of_seq(vs@);
                assert(Value::views_of_seq(copies@) =~= Value::views_of_seq(vs@));
            }
            r
        },
        Value::Object(m) => Value::Object(clone_map(m)),
    }
}

/// Deep copies of a vector of values, element by element.
fn clone_values(vs: &Vec<Value>) -> (r: Vec<Value>)
    ensures
        r@.len() == vs@.len(),
        forall|j: int| 0 <= j < vs@.len() ==> (#[trigger] r@[j])@ == vs@[j]@,
    decreases vs, 1int, 0int,
{
    let mut r: Vec<Value> = Vec::new();
    let n = vs.len();
    let mut i: usize = 0;
    while i < n
        invariant
            n == vs@.len(),
            0 <= i <= n,
            r@.len() == i,
            forall|j: int| 0 <= j < i ==> (#[trigger] r@[j])@ == vs@[j]@,
        decreases n - i,
    {
        r.push(clone_value(&vs[i]));
        i += 1;
    }
    r
}

/// A deep copy of a mapping, entry by entry, in order.
fn clone_map(m: &ValueMap) -> (r: ValueMap)
    ensures
        r@ == m@,
    decreases m, 1int, 0int,
{
    let mut entries: Vec<(String, Value)> = Vec::new();
    let n = m.entries.len();
    let mut i: usize = 0;
    proof {
        lemma_map_view(m);
    }
    while i < n
        invariant
            n == m.entries@.len(),
            0 <= i <= n,
            entries@.len() == i,
            forall|j: int|
                0 <= j < i ==> (#[trigger] entries@[j]).0@ == m.entries@[j].0@ && entries@[j].1@
                    == m.entries@[j].1@,
        decreases n - i,
    {
        proof {
            lemma_map_view(m);
            lemma_map_entry_decreases(m, i as int);
        }
        let key = m.key_at(i).clone();
        let element = m.value_at(i);
        proof {
            assert(*element == m.spec_entry(i as int).1);
        }
        entries.push((key, clone_value(element)));
        i += 1;
    }
    let r = ValueMap { entries };
    proof {
        lemma_map_view(&r);
        lemma_map_view(m);
        assert(r@ =~= m@);
    }
    r
}

impl Clone for Value {
    /// A deep copy; the clone's view equals the original's.
    fn clone(&self) -> (r: Self)
        ensures
            r@ == self@,
    {
        clone_value(self)
    }
}

impl Clone for ValueMap {
    /// A deep copy; the clone's view equals the original's, so
    /// well-formedness carries over.
    fn clone(&self) -> (r: Self)
        ensures
            r@ == self@,
    {
        clone_map(self)
    }
}

/// Something a value can be indexed by for reading: a `usize` position into
/// an array, or a `&str` / `String` key into an object.
pub trait IndexOrKey {
    /// What looking this index up in `v` should find.
    spec fn spec_lookup(&self, v: ValueView) -> Option<ValueView>;

    /// Get a reference to the value under this index, or `None` where the
    /// receiver is the wrong variant or has nothing there.
    fn get<'a>(self, value: &'a Value) -> (r: Option<&'a Value>) where Self: Sized
        requires
            value@ matches ValueView::Object(entries) ==> ValueView::obj_keys_distinct(entries),
        ensures
            r is Some <==> self.spec_lookup(value@) is Some,
            r matches Some(found) ==> Some(found@) == self.spec_lookup(value@),
    ;
}

impl IndexOrKey for usize {
    open spec fn spec_lookup(&self, v: ValueView) -> Option<ValueView> {
        match v {
            ValueView::Array(elems) => if 0 <= *self < elems.len() {
                Some(elems[*self as int])
            } else {
                None
            },
            _ => None,
        }
    }

    /// Index into an array by position.
    fn get<'a>(self, value: &'a Value) -> (r: Option<&'a Value>) {
        match value {
            Value::Array(array) => {
                proof {
                    lemma_views_of_seq(array@);
                    assert(value@ == ValueView::Array(Value::views_of_seq(array@)));
                }
                if self < array.len() {
                    Some(&array[self])
                } else {
                    None
                }
            },
            _ => None,
        }
    }
}

impl IndexOrKey for &str {
    open spec fn spec_lookup(&self, v: ValueView) -> Option<ValueView> {
        match v {
            ValueView::Object(entries) => if ValueView::obj_has_key(entries, self@) {
                Some(ValueView::obj_value_of(entries, self@))
            } else {
                None
            },
            _ => None,
        }
    }

    /// Look a key up in an object.
    fn get<'a>(self, value: &'a Value) -> (r: Option<&'a Value>) {
        match value {
            Value::Object(object) => object.get(self),
            _ => None,
        }
    }
}

impl IndexOrKey for String {
    open spec fn spec_lookup(&self, v: ValueView) -> Option<ValueView> {
        match v {
            ValueView::Object(entries) => if ValueView::obj_has_key(entries, self@) {
                Some(ValueView::obj_value_of(entries, self@))
            } else {
                None
            },
            _ => None,
        }
    }

    /// Look a key up in an object.
    fn get<'a>(self, value: &'a Value) -> (r: Option<&'a Value>) {
        match value {
            Value::Object(object) => object.get(self.as_str()),
            _ => None,
        }
    }
}

/// A key a value can be inserted under: `String` and `&str` both work, so
/// `Value::insert` is generic in its key type.
pub trait InsertKey {
    /// The key as a character sequence; what the contracts speak of.
    spec fn key_view(&self) -> Seq<char>;

    /// Put `value` under this key into `map`; see [`ValueMap::insert`].
    fn insert_into(self, map: &mut ValueMap, value: Value) -> (r: Option<Value>) where Self: Sized
        requires
            old(map).wf(),
        ensures
            final(map).wf(),
            final(map)@ == ValueView::obj_insert(old(map)@, self.key_view(), value@),
            r is Some <==> ValueView::obj_has_key(old(map)@, self.key_view()),
            r matches Some(prev) ==> prev@ == ValueView::obj_value_of(old(map)@, self.key_view()),
    ;
}

impl InsertKey for String {
    open spec fn key_view(&self) -> Seq<char> {
        self@
    }

    fn insert_into(self, map: &mut ValueMap, value: Value) -> (r: Option<Value>) {
        map.insert(self, value)
    }
}

impl InsertKey for &str {
    open spec fn key_view(&self) -> Seq<char> {
        self@
    }

    fn insert_into(self, map: &mut ValueMap, value: Value) -> (r: Option<Value>) {
        map.insert(self.to_owned(), value)
    }
}

impl Value {
    /// Append `value`: a `Null` receiver first becomes an empty array (and
    /// only a `Null` one; any other non-array receiver is outside this
    /// function's contract, where the unverified world would panic).
    pub fn push(&mut self, value: Value)
        requires
            old(self)@ is Null || old(self)@ is Array,
        ensures
            final(self)@ == old(self)@.pushed(value@),
    {
        let mut tmp = Value::Null;
        core::mem::swap(self, &mut tmp);
        let mut array: Vec<Value> = match tmp {
            Value::Null => Vec::new(),
            Value::Array(a) => a,
            other => {
                // Outside the contract (an unverified caller): put the
                // receiver back untouched rather than overwrite its data.
                proof {
                    assert(false);
                }
                *self = other;
                return ;
            },
        };
        array.push(value);
        *self = Value::Array(array);
        proof {
            let vsnew = (*self)->Array_0;
            assert(self@ == ValueView::Array(Value::views_of_seq(vsnew@)));
            lemma_views_of_seq(vsnew@);
            match *old(self) {
                Value::Array(vsold) => {
                    assert(old(self)@ == ValueView::Array(Value::views_of_seq(vsold@)));
                    lemma_views_of_seq(vsold@);
                    assert(Value::views_of_seq(vsnew@) =~= Value::views_of_seq(vsold@).push(
                        value@,
                    ));
                },
                Value::Null => {
                    assert(Value::views_of_seq(vsnew@) =~= seq![value@]);
                },
                _ => {
                    assert(false);
                },
            }
            assert(self@ =~= old(self)@.pushed(value@));
        }
    }

    /// Insert `value` under the key `k` (a `String` or a `&str`): a `Null`
    /// receiver first becomes an empty object; an existing key keeps its
    /// position and has its value replaced, which comes back as `Some`.
    pub fn insert<K: InsertKey>(&mut self, k: K, v: Value) -> (r: Option<Value>)
        requires
            old(self)@ is Null || old(self)@ is Object,
            old(self)@ matches ValueView::Object(entries) ==> ValueView::obj_keys_distinct(
                entries,
            ),
        ensures
            final(self)@ == old(self)@.inserted(k.key_view(), v@),
            r is Some <==> (old(self)@ matches ValueView::Object(entries)
                && ValueView::obj_has_key(entries, k.key_view())),
            r matches Some(prev) ==> prev@ == ValueView::obj_value_of(
                old(self)@->Object_0,
                k.key_view(),
            ),
    {
        let mut tmp = Value::Null;
        core::mem::swap(self, &mut tmp);
        let mut map: ValueMap = match tmp {
            Value::Null => ValueMap::new(),
            Value::Object(m) => m,
            other => {
                // Outside the contract (an unverified caller): put the
                // receiver back untouched rather than overwrite its data.
                proof {
                    assert(false);
                }
                *self = other;
                return None;
            },
        };
        let r = k.insert_into(&mut map, v);
        *self = Value::Object(map);
        proof {
            let mnew = (*self)->Object_0;
            assert(self@ == ValueView::Object(mnew@));
            match *old(self) {
                Value::Object(mold) => {
                    assert(old(self)@ == ValueView::Object(mold@));
                    assert(self@ =~= old(self)@.inserted(k.key_view(), v@));
                },
                Value::Null => {
                    assert(mnew@ =~= seq![(k.key_view(), v@)]);
                    assert(self@ =~= old(self)@.inserted(k.key_view(), v@));
                },
                _ => {
                    assert(false);
                },
            }
        }
        r
    }

    /// Get a reference to the value under an index or key; see
    /// [`IndexOrKey`].
    pub fn get<I: IndexOrKey>(&self, i_k: I) -> (r: Option<&Value>)
        requires
            self@ matches ValueView::Object(entries) ==> ValueView::obj_keys_distinct(entries),
        ensures
            r is Some <==> i_k.spec_lookup(self@) is Some,
            r matches Some(found) ==> Some(found@) == i_k.spec_lookup(self@),
    {
        i_k.get(self)
    }

    /// The length of a `String` (in bytes, the same count `String::len`
    /// gives), `Array` (elements) or `Object` (entries); 0 for every other
    /// variant.
    pub fn len(&self) -> (n: usize)
        ensures
            self@ matches ValueView::String(s) ==> n == vstd::utf8::encode_utf8(s).len() as usize,
            self@ matches ValueView::Array(elems) ==> n == elems.len(),
            self@ matches ValueView::Object(entries) ==> n == entries.len(),
            self@ is Null || self@ is Boolean || self@ is Number ==> n == 0,
    {
        match self {
            Value::String(string) => {
                let s2 = string.as_str();
                let n = s2.len();
                proof {
                    assert(s2.spec_bytes() == vstd::utf8::encode_utf8(s2@));
                    assert(self@ == ValueView::String(string@));
                }
                n
            },
            Value::Array(array) => {
                proof {
                    lemma_views_of_seq(array@);
                    assert(self@ == ValueView::Array(Value::views_of_seq(array@)));
                }
                array.len()
            },
            Value::Object(object) => object.len(),
            _ => 0,
        }
    }
}

impl From<bool> for Value {
    /// A `Boolean` value.
    fn from(value: bool) -> Self {
        Value::Boolean(value)
    }
}

impl vstd::std_specs::convert::FromSpecImpl<bool> for Value {
    open spec fn obeys_from_spec() -> bool {
        true
    }

    open spec fn from_spec(value: bool) -> Self {
        Value::Boolean(value)
    }
}

impl From<i64> for Value {
    /// An integer `Number` value.
    fn from(value: i64) -> Self {
        Value::Number(Number::Int(value))
    }
}

impl vstd::std_specs::convert::FromSpecImpl<i64> for Value {
    open spec fn obeys_from_spec() -> bool {
        true
    }

    open spec fn from_spec(value: i64) -> Self {
        Value::Number(Number::Int(value))
    }
}

impl From<Number> for Value {
    /// A `Number` value.
    fn from(value: Number) -> Self {
        Value::Number(value)
    }
}

impl vstd::std_specs::convert::FromSpecImpl<Number> for Value {
    open spec fn obeys_from_spec() -> bool {
        true
    }

    open spec fn from_spec(value: Number) -> Self {
        Value::Number(value)
    }
}

impl From<String> for Value {
    /// A `String` value.
    fn from(value: String) -> Self {
        Value::String(value)
    }
}

impl vstd::std_specs::convert::FromSpecImpl<String> for Value {
    open spec fn obeys_from_spec() -> bool {
        true
    }

    open spec fn from_spec(value: String) -> Self {
        Value::String(value)
    }
}

impl From<&str> for Value {
    /// A `String` value, copied out of the slice.
    fn from(value: &str) -> Self {
        Value::String(value.to_owned())
    }
}

impl vstd::std_specs::convert::FromSpecImpl<&str> for Value {
    /// `From`'s generic spec machinery cannot name a `String` built from a
    /// `&str`, so this conversion carries no spec-level equation; the
    /// result's text is still visible through its view at run time.
    open spec fn obeys_from_spec() -> bool {
        false
    }

    open spec fn from_spec(value: &str) -> Self {
        arbitrary()
    }
}

impl From<Vec<Value>> for Value {
    /// An `Array` value.
    fn from(value: Vec<Value>) -> Self {
        Value::Array(value)
    }
}

impl vstd::std_specs::convert::FromSpecImpl<Vec<Value>> for Value {
    open spec fn obeys_from_spec() -> bool {
        true
    }

    open spec fn from_spec(value: Vec<Value>) -> Self {
        Value::Array(value)
    }
}

impl From<ValueMap> for Value {
    /// An `Object` value.
    fn from(value: ValueMap) -> Self {
        Value::Object(value)
    }
}

impl vstd::std_specs::convert::FromSpecImpl<ValueMap> for Value {
    open spec fn obeys_from_spec() -> bool {
        true
    }

    open spec fn from_spec(value: ValueMap) -> Self {
        Value::Object(value)
    }
}

/// Appending values to a plain vector of values by the same name the value
/// tree uses.
pub trait ArrayExt {
    /// The elements held so far.
    spec fn spec_elems(&self) -> Seq<Value>;

    /// Append `value` at the end.
    fn push_value(&mut self, value: Value)
        ensures
            final(self).spec_elems() == old(self).spec_elems().push(value),
    ;
}

impl ArrayExt for Vec<Value> {
    open spec fn spec_elems(&self) -> Seq<Value> {
        self@
    }

    fn push_value(&mut self, value: Value) {
        self.push(value);
    }
}

/// Inserting into a mapping by the same name the value tree uses.
pub trait ObjectExt {
    /// Keys are pairwise distinct.
    spec fn spec_wf(&self) -> bool;

    /// The entries, as key/value pairs in order.
    spec fn spec_entries(&self) -> Seq<(Seq<char>, ValueView)>;

    /// Put `value` under `key`, last write winning; see [`ValueMap::insert`].
    fn insert_value(&mut self, key: String, value: Value) -> (r: Option<Value>)
        requires
            old(self).spec_wf(),
        ensures
            final(self).spec_wf(),
            final(self).spec_entries() == ValueView::obj_insert(
                old(self).spec_entries(),
                key@,
                value@,
            ),
            r is Some <==> ValueView::obj_has_key(old(self).spec_entries(), key@),
            r matches Some(prev) ==> prev@ == ValueView::obj_value_of(
                old(self).spec_entries(),
                key@,
            ),
    ;
}

impl ObjectExt for ValueMap {
    open spec fn spec_wf(&self) -> bool {
        self.wf()
    }

    open spec fn spec_entries(&self) -> Seq<(Seq<char>, ValueView)> {
        self@
    }

    fn insert_value(&mut self, key: String, value: Value) -> (r: Option<Value>) {
        self.insert(key, value)
    }
}

} // verus!
