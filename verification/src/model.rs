use vstd::prelude::*;

use crate::Number;

verus! {

/// The mathematical shape of a JSON value: what a `crate::Value` is once
/// every vector, string and map is read as a sequence. All contracts in this
/// crate speak of values through this type.
#[verifier::ext_equal]
pub enum ValueView {
    Null,
    Boolean(bool),
    Number(Number),
    String(Seq<char>),
    Array(Seq<ValueView>),
    /// An object is a sequence of key/value entries in insertion order;
    /// well-formed objects (see [`ValueView::wf`]) carry each key once.
    Object(Seq<(Seq<char>, ValueView)>),
}

impl ValueView {
    /// Do `entries` carry the key `key`?
    pub open spec fn obj_has_key(entries: Seq<(Seq<char>, ValueView)>, key: Seq<char>) -> bool {
        exists|i: int| 0 <= i < entries.len() && entries[i].0 == key
    }

    /// The index of `key` in `entries`, meaningful only when the key is there.
    pub open spec fn obj_index_of(entries: Seq<(Seq<char>, ValueView)>, key: Seq<char>) -> int {
        choose|i: int| 0 <= i < entries.len() && entries[i].0 == key
    }

    /// The value stored under `key`, meaningful only when the key is there
    /// and the keys are distinct.
    pub open spec fn obj_value_of(entries: Seq<(Seq<char>, ValueView)>, key: Seq<char>) -> ValueView {
        entries[Self::obj_index_of(entries, key)].1
    }

    /// Each key appears at most once.
    pub open spec fn obj_keys_distinct(entries: Seq<(Seq<char>, ValueView)>) -> bool {
        forall|i: int, j: int|
            0 <= i < j < entries.len() ==> entries[i].0 != entries[j].0
    }

    /// `entries` after inserting `v` under `key`, last write winning: an
    /// existing key keeps its position, a new key goes to the end.
    pub open spec fn obj_insert(
        entries: Seq<(Seq<char>, ValueView)>,
        key: Seq<char>,
        v: ValueView,
    ) -> Seq<(Seq<char>, ValueView)> {
        if Self::obj_has_key(entries, key) {
            entries.update(Self::obj_index_of(entries, key), (key, v))
        } else {
            entries.push((key, v))
        }
    }

    /// What appending to a value leaves behind: a `Null` receiver becomes a
    /// one-element array, an array grows at the end. Meaningful only for
    /// those two variants.
    pub open spec fn pushed(self, v: ValueView) -> ValueView {
        match self {
            ValueView::Null => ValueView::Array(seq![v]),
            ValueView::Array(elems) => ValueView::Array(elems.push(v)),
            _ => self,
        }
    }

    /// What inserting into a value leaves behind: a `Null` receiver becomes
    /// a one-entry object, an object gains or replaces the entry. Meaningful
    /// only for those two variants.
    pub open spec fn inserted(self, key: Seq<char>, v: ValueView) -> ValueView {
        match self {
            ValueView::Null => ValueView::Object(seq![(key, v)]),
            ValueView::Object(entries) => ValueView::Object(Self::obj_insert(entries, key, v)),
            _ => self,
        }
    }

    /// Well-formedness of a value tree: every object in it, at any depth,
    /// carries distinct keys. The parser only builds such trees, and the
    /// round-trip law asks for it.
    pub open spec fn wf(self) -> bool
        decreases self,
    {
        match self {
            ValueView::Array(elems) => forall|i: int|
                0 <= i < elems.len() ==> (#[trigger] elems[i]).wf(),
            ValueView::Object(entries) => {
                &&& Self::obj_keys_distinct(entries)
                &&& forall|i: int|
                    0 <= i < entries.len() ==> (#[trigger] entries[i]).1.wf()
            },
            _ => true,
        }
    }
}

} // verus!
