//! The key-value model of a keyed archive and the construction of the
//! archive of a Cocoa object.

use crate::object::{NsColor, NsFont, NsObject};
use vstd::prelude::*;
use vstd::utf8::{encode_scalar, encode_utf8};

verus! {

broadcast use vstd::std_specs::vec::axiom_vec_decreases_to_view, vstd::std_specs::vec::axiom_vec_index_decreases;

/// The identifier of an object of an archive: its position in `$objects`.
pub type Uid = u64;

/// The keys that the archives of this library use.
#[derive(PartialEq, Eq, Structural, Clone, Copy, Hash, Debug)]
pub enum Key {
    NsName,
    NsSize,
    NsfFlags,
    Classes,
    Classname,
    Class,
    Objects,
    Top,
    Root,
    Archiver,
    Version,
    NsRgb,
    NsLinearExposure,
    NsComponents,
    NsColorSpace,
}

/// The value of an archive, as a mathematical value.
pub enum ValueModel {
    Integer(i32),
    Real(u64),
    String(Seq<char>),
    Data(Seq<u8>),
    Ref(Uid),
    Array(Seq<ValueModel>),
    Dictionary(Map<Key, ValueModel>),
}

/// A value of an archive.
#[derive(Debug)]
pub enum Value {
    /// An integer.
    Integer(i32),
    /// A real number, as the IEEE 754 bit pattern of a double.
    Real(u64),
    /// A string.
    String(String),
    /// Raw bytes.
    Data(Vec<u8>),
    /// A reference to an object of the archive.
    Ref(Uid),
    /// An array of values.
    Array(Vec<Value>),
    /// A dictionary.
    Dictionary(KeyValueStore),
}

/// A dictionary of an archive: values by key.
#[derive(Debug)]
pub struct KeyValueStore {
    entries: Vec<(Key, Value)>,
}

/// The models of a sequence of values.
pub open spec fn values_model(values: Seq<Value>) -> Seq<ValueModel>
    decreases values,
{
    if values.len() == 0 {
        Seq::empty()
    } else {
        values_model(values.subrange(0, values.len() - 1)).push(values[values.len() - 1].model())
    }
}

/// The map that a sequence of entries stands for; where a key occurs more
/// than once, its first entry counts.
pub closed spec fn entries_model(entries: Seq<(Key, Value)>) -> Map<Key, ValueModel>
    decreases entries,
{
    if entries.len() == 0 {
        Map::empty()
    } else {
        entries_model(entries.subrange(1, entries.len() as int)).insert(
            entries[0].0,
            entries[0].1.model(),
        )
    }
}

impl Value {
    /// The mathematical value.
    pub open spec fn model(self) -> ValueModel
        decreases self,
    {
        match self {
            Value::Integer(i) => ValueModel::Integer(i),
            Value::Real(bits) => ValueModel::Real(bits),
            Value::String(s) => ValueModel::String(s@),
            Value::Data(d) => ValueModel::Data(d@),
            Value::Ref(uid) => ValueModel::Ref(uid),
            Value::Array(items) => ValueModel::Array(values_model(items@)),
            Value::Dictionary(store) => ValueModel::Dictionary(store.model()),
        }
    }
}

impl KeyValueStore {
    /// No key has more than one entry.
    #[verifier::type_invariant]
    closed spec fn keys_unique(self) -> bool {
        forall|i: int, j: int|
            0 <= i < j < self.entries@.len() ==> (#[trigger] self.entries@[i]).0 != (
            #[trigger] self.entries@[j]).0
    }

    /// The map of keys to values.
    pub closed spec fn model(self) -> Map<Key, ValueModel>
        decreases self,
    {
        entries_model(self.entries@)
    }
}

/// The models of a sequence of values are those of its values, one by one.
pub proof fn lemma_values_model(values: Seq<Value>)
    ensures
        values_model(values).len() == values.len(),
        forall|i: int|
            #![trigger values_model(values)[i]]
            #![trigger values[i]]
            0 <= i < values.len() ==> values_model(values)[i] == values[i].model(),
    decreases values.len(),
{
    if values.len() > 0 {
        let front = values.subrange(0, values.len() - 1);
        lemma_values_model(front);
        assert forall|i: int| 0 <= i < values.len() implies values_model(values)[i]
            == values[i].model() by {
            if i < values.len() - 1 {
                assert(front[i] == values[i]);
            }
        }
    }
}

/// Appending a value appends its model.
pub proof fn lemma_values_model_push(values: Seq<Value>, value: Value)
    ensures
        values_model(values.push(value)) == values_model(values).push(value.model()),
{
    assert(values.push(value).subrange(0, values.len() as int) =~= values);
}

/// A key is in the map of a sequence of entries when it is the key of one of them.
proof fn lemma_entries_domain(entries: Seq<(Key, Value)>, key: Key)
    ensures
        entries_model(entries).dom().contains(key) <==> exists|i: int|
            0 <= i < entries.len() && (#[trigger] entries[i]).0 == key,
    decreases entries.len(),
{
    if entries.len() > 0 {
        let rest = entries.subrange(1, entries.len() as int);
        lemma_entries_domain(rest, key);
        if entries_model(entries).dom().contains(key) {
            if entries[0].0 != key {
                let i = choose|i: int| 0 <= i < rest.len() && (#[trigger] rest[i]).0 == key;
                assert(entries[i + 1] == rest[i]);
            }
        } else {
            assert forall|i: int| 0 <= i < entries.len() implies (#[trigger] entries[i]).0 != key by {
                if i > 0 {
                    assert(entries[i] == rest[i - 1]);
                }
            }
        }
    }
}

/// The value of a key is that of its first entry.
proof fn lemma_entries_first(entries: Seq<(Key, Value)>, i: int)
    requires
        0 <= i < entries.len(),
        forall|j: int| 0 <= j < i ==> (#[trigger] entries[j]).0 != entries[i].0,
    ensures
        entries_model(entries).dom().contains(entries[i].0),
        entries_model(entries)[entries[i].0] == entries[i].1.model(),
    decreases entries.len(),
{
    if i > 0 {
        let rest = entries.subrange(1, entries.len() as int);
        assert(rest[i - 1] == entries[i]);
        assert forall|j: int| 0 <= j < i - 1 implies (#[trigger] rest[j]).0 != rest[i - 1].0 by {
            assert(rest[j] == entries[j + 1]);
        }
        lemma_entries_first(rest, i - 1);
        assert(entries[0].0 != entries[i].0);
    }
}

/// Appending an entry of a new key adds it to the map.
proof fn lemma_entries_push(entries: Seq<(Key, Value)>, key: Key, value: Value)
    requires
        forall|j: int| 0 <= j < entries.len() ==> (#[trigger] entries[j]).0 != key,
    ensures
        entries_model(entries.push((key, value))) == entries_model(entries).insert(key, value.model()),
    decreases entries.len(),
{
    let pushed = entries.push((key, value));
    if entries.len() == 0 {
        assert(pushed.subrange(1, pushed.len() as int) =~= Seq::<(Key, Value)>::empty());
        assert(entries_model(pushed.subrange(1, pushed.len() as int)) == Map::<Key, ValueModel>::empty());
        assert(entries_model(entries) == Map::<Key, ValueModel>::empty());
        assert(pushed[0] == (key, value));
        assert(entries_model(pushed) =~= entries_model(entries).insert(key, value.model()));
    } else {
        let rest = entries.subrange(1, entries.len() as int);
        assert forall|j: int| 0 <= j < rest.len() implies (#[trigger] rest[j]).0 != key by {
            assert(rest[j] == entries[j + 1]);
        }
        lemma_entries_push(rest, key, value);
        assert(pushed.subrange(1, pushed.len() as int) =~= rest.push((key, value)));
        assert(pushed[0] == entries[0]);
        assert(entries[0].0 != key);
        assert(entries_model(pushed) == entries_model(rest.push((key, value))).insert(
            entries[0].0,
            entries[0].1.model(),
        ));
        assert(entries_model(entries) == entries_model(rest).insert(entries[0].0, entries[0].1.model()));
        assert(entries_model(pushed) =~= entries_model(entries).insert(key, value.model()));
    }
}

/// Entries with distinct keys stand for a map with one key per entry.
proof fn lemma_entries_len(entries: Seq<(Key, Value)>)
    requires
        forall|i: int, j: int|
            0 <= i < j < entries.len() ==> (#[trigger] entries[i]).0 != (#[trigger] entries[j]).0,
    ensures
        entries_model(entries).dom().finite(),
        entries_model(entries).len() == entries.len(),
    decreases entries.len(),
{
    if entries.len() > 0 {
        let rest = entries.subrange(1, entries.len() as int);
        assert forall|i: int, j: int| 0 <= i < j < rest.len() implies (#[trigger] rest[i]).0 != (
        #[trigger] rest[j]).0 by {
            assert(rest[i] == entries[i + 1]);
            assert(rest[j] == entries[j + 1]);
        }
        lemma_entries_len(rest);
        lemma_entries_domain(rest, entries[0].0);
        if entries_model(rest).dom().contains(entries[0].0) {
            let k = choose|k: int| 0 <= k < rest.len() && (#[trigger] rest[k]).0 == entries[0].0;
            assert(rest[k] == entries[k + 1]);
        }
    }
}

/// Replacing the value of the first entry of a key replaces its value in the map.
proof fn lemma_entries_update(entries: Seq<(Key, Value)>, i: int, value: Value)
    requires
        0 <= i < entries.len(),
        forall|j: int| 0 <= j < i ==> (#[trigger] entries[j]).0 != entries[i].0,
    ensures
        entries_model(entries.update(i, (entries[i].0, value))) == entries_model(entries).insert(
            entries[i].0,
            value.model(),
        ),
    decreases entries.len(),
{
    let key = entries[i].0;
    let updated = entries.update(i, (key, value));
    let rest = entries.subrange(1, entries.len() as int);
    if i == 0 {
        assert(updated.subrange(1, updated.len() as int) =~= rest);
        assert(entries_model(updated) =~= entries_model(entries).insert(key, value.model()));
    } else {
        assert(rest[i - 1] == entries[i]);
        assert forall|j: int| 0 <= j < i - 1 implies (#[trigger] rest[j]).0 != rest[i - 1].0 by {
            assert(rest[j] == entries[j + 1]);
        }
        lemma_entries_update(rest, i - 1, value);
        assert(updated.subrange(1, updated.len() as int) =~= rest.update(i - 1, (key, value)));
        assert(entries[0].0 != key);
        assert(entries_model(updated) =~= entries_model(entries).insert(key, value.model()));
    }
}

impl KeyValueStore {
    /// Creates an empty store.
    pub fn new() -> (store: Self)
        ensures
            store.model() == Map::<Key, ValueModel>::empty(),
    {
        let store = Self { entries: Vec::new() };
        assert(store.model() =~= Map::<Key, ValueModel>::empty());
        store
    }

    /// The position of the first entry of `key`.
    fn find(&self, key: Key) -> (pos: Option<usize>)
        ensures
            pos matches Some(i) ==> {
                &&& i < self.entries@.len()
                &&& self.entries@[i as int].0 == key
                &&& forall|j: int| 0 <= j < i ==> (#[trigger] self.entries@[j]).0 != key
            },
            pos is None ==> forall|j: int|
                0 <= j < self.entries@.len() ==> (#[trigger] self.entries@[j]).0 != key,
    {
        let mut i: usize = 0;
        while i < self.entries.len()
            invariant
                i <= self.entries@.len(),
                forall|j: int| 0 <= j < i ==> (#[trigger] self.entries@[j]).0 != key,
            decreases self.entries@.len() - i,
        {
            if self.entries[i].0 == key {
                return Some(i);
            }
            i = i + 1;
        }
        None
    }

    /// Returns the value of `key`, if it has one.
    pub fn get(&self, key: Key) -> (value: Option<&Value>)
        ensures
            value is Some <==> self.model().dom().contains(key),
            value matches Some(v) ==> v.model() == self.model()[key],
    {
        proof {
            lemma_entries_domain(self.entries@, key);
        }
        match self.find(key) {
            Some(i) => {
                proof {
                    lemma_entries_first(self.entries@, i as int);
                }
                Some(&self.entries[i].1)
            },
            None => None,
        }
    }

    /// Sets the value of `key` to `value`.
    pub fn insert(&mut self, key: Key, value: Value)
        ensures
            final(self).model() == old(self).model().insert(key, value.model()),
    {
        proof {
            use_type_invariant(&*self);
        }
        let found = self.find(key);
        let mut entries: Vec<(Key, Value)> = Vec::new();
        std::mem::swap(&mut entries, &mut self.entries);
        match found {
            Some(i) => {
                proof {
                    lemma_entries_update(entries@, i as int, value);
                }
                entries.set(i, (key, value));
                proof {
                    assert forall|a: int, b: int| 0 <= a < b < entries@.len() implies (
                    #[trigger] entries@[a]).0 != (#[trigger] entries@[b]).0 by {
                        assert(entries@[a].0 == old(self).entries@[a].0);
                        assert(entries@[b].0 == old(self).entries@[b].0);
                    }
                }
            },
            None => {
                proof {
                    lemma_entries_push(entries@, key, value);
                }
                entries.push((key, value));
            },
        }
        self.entries = entries;
    }

    /// The entries of the store, in the order in which their keys were first inserted.
    pub fn entries(&self) -> (entries: &[(Key, Value)])
        ensures
            entries_model(entries@) == self.model(),
            entries@.len() == self.model().len(),
            forall|i: int, j: int|
                0 <= i < j < entries@.len() ==> (#[trigger] entries@[i]).0 != (#[trigger] entries@[j]).0,
    {
        proof {
            use_type_invariant(self);
            lemma_entries_len(self.entries@);
        }
        self.entries.as_slice()
    }
}

/// The double with bit pattern `bits` is a zero (of either sign).
pub open spec fn is_zero_real(bits: u64) -> bool {
    bits & 0x7fff_ffff_ffff_ffff == 0
}

/// The double with bit pattern `bits` is a NaN: all exponent bits set and a
/// nonzero fraction.
pub open spec fn is_nan_real(bits: u64) -> bool {
    &&& bits & 0x7ff0_0000_0000_0000 == 0x7ff0_0000_0000_0000
    &&& bits & 0x000f_ffff_ffff_ffff != 0
}

/// IEEE 754 equality of the doubles with bit patterns `x` and `y`: a NaN
/// equals nothing, the two zeros are equal, and other values are equal when
/// their bit patterns are.
pub open spec fn reals_equal(x: u64, y: u64) -> bool {
    &&& !is_nan_real(x)
    &&& !is_nan_real(y)
    &&& (x == y || (is_zero_real(x) && is_zero_real(y)))
}

/// Equality of archive values: reals compare as doubles, arrays element by
/// element, dictionaries as maps (same keys, matching values), and the other
/// values by what they hold.
pub open spec fn values_match(a: ValueModel, b: ValueModel) -> bool
    decreases a,
{
    match a {
        ValueModel::Integer(x) => b == ValueModel::Integer(x),
        ValueModel::Real(x) => b matches ValueModel::Real(y) && reals_equal(x, y),
        ValueModel::String(x) => b == ValueModel::String(x),
        ValueModel::Data(x) => b == ValueModel::Data(x),
        ValueModel::Ref(x) => b == ValueModel::Ref(x),
        ValueModel::Array(xs) => match b {
            ValueModel::Array(ys) => {
                &&& xs.len() == ys.len()
                &&& forall|i: int| 0 <= i < xs.len() ==> values_match(#[trigger] xs[i], ys[i])
            },
            _ => false,
        },
        ValueModel::Dictionary(xm) => match b {
            ValueModel::Dictionary(ym) => {
                &&& xm.dom() == ym.dom()
                &&& forall|k: Key| xm.dom().contains(k) ==> values_match(#[trigger] xm[k], ym[k])
            },
            _ => false,
        },
    }
}

/// Returns whether `a` and `b` hold the same bytes.
fn bytes_equal(a: &[u8], b: &[u8]) -> (same: bool)
    ensures
        same == (a@ == b@),
{
    if a.len() != b.len() {
        return false;
    }
    let mut i: usize = 0;
    while i < a.len()
        invariant
            a@.len() == b@.len(),
            i <= a@.len(),
            forall|j: int| 0 <= j < i ==> a@[j] == b@[j],
        decreases a@.len() - i,
    {
        if a[i] != b[i] {
            return false;
        }
        i = i + 1;
    }
    assert(a@ =~= b@);
    true
}

/// Returns whether the doubles with bit patterns `x` and `y` are equal.
fn reals_equal_bits(x: u64, y: u64) -> (same: bool)
    ensures
        same == reals_equal(x, y),
{
    let x_nan = x & 0x7ff0_0000_0000_0000 == 0x7ff0_0000_0000_0000 && x & 0x000f_ffff_ffff_ffff != 0;
    let y_nan = y & 0x7ff0_0000_0000_0000 == 0x7ff0_0000_0000_0000 && y & 0x000f_ffff_ffff_ffff != 0;
    !x_nan && !y_nan && (x == y || (x & 0x7fff_ffff_ffff_ffff == 0 && y & 0x7fff_ffff_ffff_ffff == 0))
}

/// Returns whether `a` and `b` are equal values: reals compare as doubles
/// (the two zeros are equal, a NaN equals nothing), arrays element by
/// element, and dictionaries as maps, whatever the order of their entries.
#[verifier::loop_isolation(false)]
pub fn values_equal(a: &Value, b: &Value) -> (same: bool)
    ensures
        same == values_match(a.model(), b.model()),
    decreases a,
{
    match a {
        Value::Integer(x) => match b {
            Value::Integer(y) => *x == *y,
            _ => false,
        },
        Value::Real(x) => match b {
            Value::Real(y) => reals_equal_bits(*x, *y),
            _ => false,
        },
        Value::String(x) => match b {
            Value::String(y) => *x == *y,
            _ => false,
        },
        Value::Data(x) => match b {
            Value::Data(y) => bytes_equal(x.as_slice(), y.as_slice()),
            _ => false,
        },
        Value::Ref(x) => match b {
            Value::Ref(y) => *x == *y,
            _ => false,
        },
        Value::Array(xs) => match b {
            Value::Array(ys) => {
                proof {
                    lemma_values_model(xs@);
                    lemma_values_model(ys@);
                }
                if xs.len() != ys.len() {
                    return false;
                }
                let mut i: usize = 0;
                while i < xs.len()
                    invariant
                        xs@.len() == ys@.len(),
                        i <= xs@.len(),
                        forall|j: int|
                            0 <= j < i ==> values_match((#[trigger] xs@[j]).model(), ys@[j].model()),
                    decreases xs@.len() - i,
                {
                    if !values_equal(&xs[i], &ys[i]) {
                        assert(!values_match(values_model(xs@)[i as int], values_model(ys@)[i as int]));
                        return false;
                    }
                    i = i + 1;
                }
                assert forall|j: int| 0 <= j < values_model(xs@).len() implies values_match(
                    #[trigger] values_model(xs@)[j],
                    values_model(ys@)[j],
                ) by {
                    assert(values_model(xs@)[j] == xs@[j].model());
                }
                true
            },
            _ => false,
        },
        Value::Dictionary(x) => match b {
            Value::Dictionary(y) => stores_equal(x, y),
            _ => false,
        },
    }
}

/// Returns whether `a` and `b` have the same keys with equal values.
#[verifier::loop_isolation(false)]
fn stores_equal(a: &KeyValueStore, b: &KeyValueStore) -> (same: bool)
    ensures
        same == values_match(ValueModel::Dictionary(a.model()), ValueModel::Dictionary(b.model())),
    decreases a,
{
    let mut i: usize = 0;
    while i < a.entries.len()
        invariant
            i <= a.entries@.len(),
            forall|j: int|
                0 <= j < i ==> {
                    &&& b.model().dom().contains((#[trigger] a.entries@[j]).0)
                    &&& values_match(a.model()[a.entries@[j].0], b.model()[a.entries@[j].0])
                },
        decreases a.entries@.len() - i,
    {
        let key = a.entries[i].0;
        proof {
            lemma_entries_domain(a.entries@, key);
            lemma_entries_domain(b.entries@, key);
        }
        let ia = match a.find(key) {
            Some(ia) => ia,
            None => {
                return false;
            },
        };
        let ib = match b.find(key) {
            Some(ib) => ib,
            None => {
                return false;
            },
        };
        proof {
            lemma_entries_first(a.entries@, ia as int);
            lemma_entries_first(b.entries@, ib as int);
        }
        if !values_equal(&a.entries[ia].1, &b.entries[ib].1) {
            return false;
        }
        i = i + 1;
    }
    let mut i: usize = 0;
    while i < b.entries.len()
        invariant
            i <= b.entries@.len(),
            forall|j: int| 0 <= j < i ==> a.model().dom().contains((#[trigger] b.entries@[j]).0),
        decreases b.entries@.len() - i,
    {
        let key = b.entries[i].0;
        proof {
            lemma_entries_domain(a.entries@, key);
            lemma_entries_domain(b.entries@, key);
        }
        if a.find(key).is_none() {
            return false;
        }
        i = i + 1;
    }
    assert forall|key: Key| #[trigger] a.model().dom().contains(key) implies b.model().dom().contains(key)
        && values_match(a.model()[key], b.model()[key]) by {
        lemma_entries_domain(a.entries@, key);
        let j = choose|j: int| 0 <= j < a.entries@.len() && (#[trigger] a.entries@[j]).0 == key;
    }
    assert forall|key: Key| #[trigger] b.model().dom().contains(key) implies a.model().dom().contains(key) by {
        lemma_entries_domain(b.entries@, key);
        let j = choose|j: int| 0 <= j < b.entries@.len() && (#[trigger] b.entries@[j]).0 == key;
    }
    assert(a.model().dom() =~= b.model().dom());
    true
}

/// Some object of `objects` is equal to `value`.
pub open spec fn holds_match(objects: Seq<ValueModel>, value: ValueModel) -> bool {
    exists|i: int| 0 <= i < objects.len() && values_match(#[trigger] objects[i], value)
}

/// The position of the first object of `objects` that is equal to `value`.
pub open spec fn first_position(objects: Seq<ValueModel>, value: ValueModel) -> int {
    choose|i: int|
        0 <= i < objects.len() && values_match(objects[i], value) && forall|j: int|
            0 <= j < i ==> !values_match(#[trigger] objects[j], value)
}

/// The objects after interning `value`, and the reference to it: the first
/// object equal to `value` is reused; otherwise `value` is appended.
pub open spec fn interned(value: ValueModel, objects: Seq<ValueModel>) -> (Seq<ValueModel>, ValueModel) {
    if holds_match(objects, value) {
        (objects, ValueModel::Ref(first_position(objects, value) as Uid))
    } else {
        (objects.push(value), ValueModel::Ref(objects.len() as Uid))
    }
}

/// Interning keeps the objects already there and adds at most `value`; the
/// reference points to the first object equal to `value`, or, when there is
/// none, to `value` appended at the end.
pub proof fn lemma_interned_resolves(value: ValueModel, objects: Seq<ValueModel>)
    requires
        objects.len() < u64::MAX,
    ensures
        ({
            let (after, reference) = interned(value, objects);
            &&& reference matches ValueModel::Ref(i)
            &&& i < after.len()
            &&& after.subrange(0, objects.len() as int) == objects
            &&& holds_match(objects, value) ==> {
                &&& after == objects
                &&& values_match(after[i as int], value)
                &&& forall|j: int| 0 <= j < i ==> !values_match(#[trigger] objects[j], value)
            }
            &&& !holds_match(objects, value) ==> {
                &&& after == objects.push(value)
                &&& i == objects.len()
                &&& after[i as int] == value
            }
        }),
{
    let (after, reference) = interned(value, objects);
    if holds_match(objects, value) {
        let i = choose|i: int| 0 <= i < objects.len() && values_match(#[trigger] objects[i], value);
        lemma_first_position_exists(objects, value, i);
    }
    assert(after.subrange(0, objects.len() as int) =~= objects);
}

/// When an object at `i` is equal to `value`, the first position is a
/// position of such an object with none before it.
proof fn lemma_first_position_exists(objects: Seq<ValueModel>, value: ValueModel, i: int)
    requires
        0 <= i < objects.len(),
        values_match(objects[i], value),
    ensures
        ({
            let p = first_position(objects, value);
            &&& 0 <= p <= i
            &&& values_match(objects[p], value)
            &&& forall|j: int| 0 <= j < p ==> !values_match(#[trigger] objects[j], value)
        }),
    decreases i,
{
    if exists|j: int| 0 <= j < i && values_match(#[trigger] objects[j], value) {
        let j = choose|j: int| 0 <= j < i && values_match(#[trigger] objects[j], value);
        lemma_first_position_exists(objects, value, j);
    } else {
        assert(0 <= i < objects.len() && values_match(objects[i], value) && forall|j: int|
            0 <= j < i ==> !values_match(#[trigger] objects[j], value));
    }
}

/// Interns `value` into `objects` and returns a reference to it: the
/// reference points to the first object equal to `value` (as
/// [`values_equal`] compares); when there is none, `value` is appended and
/// the reference points to it.
pub fn intern_value(value: Value, objects: &mut Vec<Value>) -> (reference: Value)
    ensures
        (values_model(final(objects)@), reference.model()) == interned(
            value.model(),
            values_model(old(objects)@),
        ),
{
    let ghost before = values_model(objects@);
    proof {
        lemma_values_model(objects@);
    }
    let mut i: usize = 0;
    while i < objects.len()
        invariant
            objects@ == old(objects)@,
            before == values_model(objects@),
            before.len() == objects@.len(),
            forall|j: int| 0 <= j < objects@.len() ==> before[j] == (#[trigger] objects@[j]).model(),
            i <= objects@.len(),
            forall|j: int| 0 <= j < i ==> !values_match(#[trigger] before[j], value.model()),
        decreases objects@.len() - i,
    {
        if values_equal(&objects[i], &value) {
            proof {
                assert(values_match(before[i as int], value.model()));
                assert(holds_match(before, value.model()));
                lemma_first_position_exists(before, value.model(), i as int);
                let p = first_position(before, value.model());
                if p < i {
                    assert(!values_match(before[p], value.model()));
                }
            }
            return Value::Ref(i as Uid);
        }
        i = i + 1;
    }
    assert(!holds_match(before, value.model()));
    proof {
        lemma_values_model_push(objects@, value);
    }
    objects.push(value);
    Value::Ref((objects.len() - 1) as Uid)
}

/// The name under which `key` stands in an archive.
pub open spec fn key_name(key: Key) -> Seq<char> {
    match key {
        Key::NsName => "NSName"@,
        Key::NsSize => "NSSize"@,
        Key::NsfFlags => "NSfFlags"@,
        Key::Classes => "$classes"@,
        Key::Classname => "$classname"@,
        Key::Class => "$class"@,
        Key::Objects => "$objects"@,
        Key::Top => "$top"@,
        Key::Root => "root"@,
        Key::Archiver => "$archiver"@,
        Key::Version => "$version"@,
        Key::NsRgb => "NSRGB"@,
        Key::NsLinearExposure => "NSLinearExposure"@,
        Key::NsComponents => "NSComponents"@,
        Key::NsColorSpace => "NSColorSpace"@,
    }
}

impl Key {
    /// Returns the name under which the key stands in an archive.
    pub fn name(&self) -> (name: String)
        ensures
            name@ == key_name(*self),
    {
        match self {
            Key::NsName => String::from_str("NSName"),
            Key::NsSize => String::from_str("NSSize"),
            Key::NsfFlags => String::from_str("NSfFlags"),
            Key::Classes => String::from_str("$classes"),
            Key::Classname => String::from_str("$classname"),
            Key::Class => String::from_str("$class"),
            Key::Objects => String::from_str("$objects"),
            Key::Top => String::from_str("$top"),
            Key::Root => String::from_str("root"),
            Key::Archiver => String::from_str("$archiver"),
            Key::Version => String::from_str("$version"),
            Key::NsRgb => String::from_str("NSRGB"),
            Key::NsLinearExposure => String::from_str("NSLinearExposure"),
            Key::NsComponents => String::from_str("NSComponents"),
            Key::NsColorSpace => String::from_str("NSColorSpace"),
        }
    }
}

/// Distinct keys have distinct names, so no two entries of a store share a
/// name in an archive.
pub proof fn lemma_key_names_distinct(a: Key, b: Key)
    requires
        a != b,
    ensures
        key_name(a) != key_name(b),
{
    reveal_strlit("NSName");
    reveal_strlit("NSSize");
    reveal_strlit("NSfFlags");
    reveal_strlit("$classes");
    reveal_strlit("$classname");
    reveal_strlit("$class");
    reveal_strlit("$objects");
    reveal_strlit("$top");
    reveal_strlit("root");
    reveal_strlit("$archiver");
    reveal_strlit("$version");
    reveal_strlit("NSRGB");
    reveal_strlit("NSLinearExposure");
    reveal_strlit("NSComponents");
    reveal_strlit("NSColorSpace");
    if key_name(a) == key_name(b) {
        let n = key_name(a);
        assert(n.len() == key_name(b).len());
        assert(n[0] == key_name(b)[0]);
        assert(n.len() > 2 ==> n[2] == key_name(b)[2]);
        assert(n.len() > 4 ==> n[4] == key_name(b)[4]);
    }
}

/// The string values of `names`, in order.
pub open spec fn strings_model(names: Seq<Seq<char>>) -> Seq<ValueModel> {
    names.map_values(|name: Seq<char>| ValueModel::String(name))
}

/// The class hierarchy object of `T`: its class name under `$classname`, and
/// the names of its class hierarchy under `$classes`.
pub open spec fn class_metadata<T: NsObject>() -> ValueModel {
    ValueModel::Dictionary(
        Map::empty().insert(Key::Classes, ValueModel::Array(strings_model(T::spec_classes()))).insert(
            Key::Classname,
            ValueModel::String(T::spec_class()),
        ),
    )
}

/// The `$top` dictionary of an archive whose root object is `root`.
pub open spec fn top_store(root: Uid) -> ValueModel {
    ValueModel::Dictionary(Map::empty().insert(Key::Root, ValueModel::Ref(root)))
}

/// The objects after appending those of `object`: its class hierarchy object
/// (interned), what `serializer` adds for it, and last its root store, which
/// refers to the class hierarchy object under `$class`.
pub open spec fn populated<S: CocoaSerializer<T> + ?Sized, T: NsObject>(
    serializer: &S,
    object: T,
    objects: Seq<ValueModel>,
) -> Seq<ValueModel> {
    let (with_class, class_ref) = interned(class_metadata::<T>(), objects);
    let (with_data, root) = serializer.object_data(
        object,
        with_class,
        Map::empty().insert(Key::Class, class_ref),
    );
    with_data.push(ValueModel::Dictionary(root))
}

/// The top-level dictionary of the archive of `object`: `$objects`, which
/// starts with the string `$null`, and `$top`, whose `root` refers to the last
/// object.
pub open spec fn serialized<S: CocoaSerializer<T> + ?Sized, T: NsObject>(serializer: &S, object: T) -> Map<
    Key,
    ValueModel,
> {
    let objects = populated(serializer, object, seq![ValueModel::String("$null"@)]);
    Map::empty().insert(Key::Objects, ValueModel::Array(objects)).insert(
        Key::Top,
        top_store((objects.len() - 1) as Uid),
    )
}

/// Serializes Cocoa objects of class `T` into key-value stores.
pub trait CocoaSerializer<T: NsObject> {
    /// The objects and the root store after [`CocoaSerializer::construct_object_data`].
    spec fn object_data(&self, object: T, objects: Seq<ValueModel>, root: Map<Key, ValueModel>) -> (
        Seq<ValueModel>,
        Map<Key, ValueModel>,
    );

    /// Adds the data of `object` to its root store, and to `objects` the
    /// objects that the root store refers to.
    fn construct_object_data(&self, object: &T, objects: &mut Vec<Value>, root_store: &mut KeyValueStore)
        ensures
            (values_model(final(objects)@), final(root_store).model()) == self.object_data(
                *object,
                values_model(old(objects)@),
                old(root_store).model(),
            ),
    ;
}

/// Serializes `object` with `serializer` into the top-level dictionary of its archive:
/// `$objects` holds the string `$null`, then the objects of `object`, its
/// root store last; `$top` refers to the root store under `root`.
pub fn serialize<S: CocoaSerializer<T> + ?Sized, T: NsObject>(serializer: &S, object: T) -> (store: KeyValueStore)
    ensures
        store.model() == serialized(serializer, object),
{
    let mut store = KeyValueStore::new();
    let mut objects: Vec<Value> = Vec::new();

    let null = Value::String(String::from_str("$null"));
    proof {
        lemma_values_model_push(objects@, null);
        assert(objects@.push(null) =~= seq![null]);
    }
    objects.push(null);

    populate_objects(serializer, &object, &mut objects);
    let object_count = objects.len();
    proof {
        lemma_values_model(objects@);
    }
    store.insert(Key::Objects, Value::Array(objects));

    construct_and_insert_top_store((object_count - 1) as Uid, &mut store);
    store
}

/// Serializes fonts.
pub struct NsFontSerializer;

impl CocoaSerializer<NsFont> for NsFontSerializer {
    /// The font name is interned as a string and referred to under `NSName`;
    /// the size is under `NSSize` and the flags under `NSfFlags`.
    open spec fn object_data(&self, object: NsFont, objects: Seq<ValueModel>, root: Map<Key, ValueModel>) -> (
        Seq<ValueModel>,
        Map<Key, ValueModel>,
    ) {
        let (with_name, name_ref) = interned(ValueModel::String(object.name@), objects);
        (
            with_name,
            root.insert(Key::NsName, name_ref).insert(Key::NsSize, ValueModel::Real(object.size)).insert(
                Key::NsfFlags,
                ValueModel::Integer(object.flags as i32),
            ),
        )
    }

    fn construct_object_data(&self, object: &NsFont, objects: &mut Vec<Value>, root_store: &mut KeyValueStore) {
        root_store.insert(Key::NsName, intern_value(Value::String(object.name.clone()), objects));
        root_store.insert(Key::NsSize, Value::Real(object.size));
        root_store.insert(Key::NsfFlags, Value::Integer(object.flags as i32));
    }
}

/// Serializes colors.
pub struct NsColorSerializer;

impl CocoaSerializer<NsColor> for NsColorSerializer {
    /// The components text, with a terminating NUL under `NSRGB` and without
    /// under `NSComponents`, both as UTF-8 bytes; the color space 1 under
    /// `NSColorSpace` and the byte string `0` under `NSLinearExposure`.
    open spec fn object_data(&self, object: NsColor, objects: Seq<ValueModel>, root: Map<Key, ValueModel>) -> (
        Seq<ValueModel>,
        Map<Key, ValueModel>,
    ) {
        (
            objects,
            root.insert(Key::NsRgb, ValueModel::Data(encode_utf8(object.spec_components().push('\0')))).insert(
                Key::NsColorSpace,
                ValueModel::Integer(1),
            ).insert(Key::NsLinearExposure, ValueModel::Data(seq![48u8])).insert(
                Key::NsComponents,
                ValueModel::Data(encode_utf8(object.spec_components())),
            ),
        )
    }

    fn construct_object_data(&self, object: &NsColor, objects: &mut Vec<Value>, root_store: &mut KeyValueStore) {
        let mut color_string = object.components();
        color_string.append("\0");
        proof {
            reveal_strlit("\0");
            assert(color_string@ =~= object.spec_components().push('\0'));
        }
        let rgb = color_string.as_str().as_bytes_vec();
        assert(rgb@ == encode_utf8(object.spec_components().push('\0')));
        root_store.insert(Key::NsRgb, Value::Data(rgb));
        root_store.insert(Key::NsColorSpace, Value::Integer(1));
        let exposure = vec![48u8];
        assert(exposure@ == seq![48u8]);
        root_store.insert(Key::NsLinearExposure, Value::Data(exposure));
        let components = object.components().as_str().as_bytes_vec();
        assert(components@ == encode_utf8(object.spec_components()));
        root_store.insert(Key::NsComponents, Value::Data(components));
    }
}

/// The UTF-8 encoding of a text followed by one more character is that of
/// the text followed by the encoding of the character.
proof fn lemma_encode_utf8_push(text: Seq<char>, c: char)
    ensures
        encode_utf8(text.push(c)) == encode_utf8(text) + encode_scalar(c as u32),
    decreases text.len(),
{
    if text.len() == 0 {
        assert(text.push(c).drop_first() =~= Seq::<char>::empty());
        assert(text.push(c)[0] == c);
        assert(encode_utf8(text.push(c).drop_first()) == Seq::<u8>::empty());
        assert(encode_utf8(text) == Seq::<u8>::empty());
        assert(encode_utf8(text.push(c)) =~= encode_utf8(text) + encode_scalar(c as u32));
    } else {
        lemma_encode_utf8_push(text.drop_first(), c);
        assert(text.push(c).drop_first() =~= text.drop_first().push(c));
        assert(encode_utf8(text.push(c)) =~= encode_utf8(text) + encode_scalar(c as u32));
    }
}

/// In the root store of a color, the `NSRGB` data is the `NSComponents` data
/// followed by one NUL byte.
pub proof fn lemma_color_rgb_is_components_and_nul(
    color: NsColor,
    objects: Seq<ValueModel>,
    root: Map<Key, ValueModel>,
)
    ensures
        ({
            let (_, data) = NsColorSerializer.object_data(color, objects, root);
            &&& data[Key::NsRgb] matches ValueModel::Data(rgb)
            &&& data[Key::NsComponents] matches ValueModel::Data(components)
            &&& rgb == components.push(0u8)
        }),
{
    lemma_encode_utf8_push(color.spec_components(), '\0');
    assert('\0' as u32 == 0u32);
    assert(0u32 & 0x7f == 0) by (bit_vector);
    assert(encode_scalar('\0' as u32) =~= seq![0u8]);
    assert(encode_utf8(color.spec_components()) + seq![0u8] =~= encode_utf8(
        color.spec_components(),
    ).push(0u8));
}

/// What the serializer of a color adds: no object; in the root store the
/// UTF-8 bytes of the red, green, blue and alpha texts in that order, separated
/// by single spaces, under `NSComponents`, the same bytes and a NUL under
/// `NSRGB`, the color space 1 and the byte `0` (48) under `NSLinearExposure`;
/// every other key keeps what it had.
pub proof fn lemma_color_object_data(color: NsColor, objects: Seq<ValueModel>, root: Map<Key, ValueModel>)
    ensures
        ({
            let (after, data) = NsColorSerializer.object_data(color, objects, root);
            let text = color.red@ + " "@ + color.green@ + " "@ + color.blue@ + " "@ + color.alpha@;
            &&& after == objects
            &&& data.dom().contains(Key::NsComponents)
            &&& data[Key::NsComponents] == ValueModel::Data(encode_utf8(text))
            &&& data.dom().contains(Key::NsRgb)
            &&& data[Key::NsRgb] == ValueModel::Data(encode_utf8(text) + seq![0u8])
            &&& data.dom().contains(Key::NsColorSpace)
            &&& data[Key::NsColorSpace] == ValueModel::Integer(1)
            &&& data.dom().contains(Key::NsLinearExposure)
            &&& data[Key::NsLinearExposure] == ValueModel::Data(seq![48u8])
            &&& forall|k: Key|
                k != Key::NsComponents && k != Key::NsRgb && k != Key::NsColorSpace && k
                    != Key::NsLinearExposure ==> (#[trigger] data.dom().contains(k) == root.dom().contains(k)
                    && (root.dom().contains(k) ==> data[k] == root[k]))
        }),
{
    let text = color.red@ + " "@ + color.green@ + " "@ + color.blue@ + " "@ + color.alpha@;
    assert(color.spec_components() == text);
    lemma_encode_utf8_push(text, '\0');
    assert('\0' as u32 == 0u32);
    assert(0u32 & 0x7f == 0) by (bit_vector);
    assert(encode_scalar('\0' as u32) =~= seq![0u8]);
}

/// A value equal to the string `text` is that string.
pub proof fn lemma_match_string(a: ValueModel, text: Seq<char>)
    requires
        values_match(a, ValueModel::String(text)),
    ensures
        a == ValueModel::String(text),
{
}

/// What the serializer of a font adds: at most one object, keeping those
/// there; in the root store, under `NSName`, a reference to an object that is
/// the font's name, whole; its size under `NSSize` and its flags under
/// `NSfFlags`; every other key keeps what it had.
pub proof fn lemma_font_object_data(font: NsFont, objects: Seq<ValueModel>, root: Map<Key, ValueModel>)
    requires
        objects.len() < u64::MAX,
    ensures
        ({
            let (after, data) = NsFontSerializer.object_data(font, objects, root);
            &&& after.len() <= objects.len() + 1
            &&& after.subrange(0, objects.len() as int) == objects
            &&& data.dom().contains(Key::NsName)
            &&& data[Key::NsName] matches ValueModel::Ref(i)
            &&& i < after.len()
            &&& after[i as int] == ValueModel::String(font.name@)
            &&& data.dom().contains(Key::NsSize)
            &&& data[Key::NsSize] == ValueModel::Real(font.size)
            &&& data.dom().contains(Key::NsfFlags)
            &&& data[Key::NsfFlags] == ValueModel::Integer(font.flags as i32)
            &&& forall|k: Key|
                k != Key::NsName && k != Key::NsSize && k != Key::NsfFlags ==> (
                #[trigger] data.dom().contains(k) == root.dom().contains(k) && (root.dom().contains(k)
                    ==> data[k] == root[k]))
        }),
{
    let name = ValueModel::String(font.name@);
    lemma_interned_resolves(name, objects);
    let (after, reference) = interned(name, objects);
    if holds_match(objects, name) {
        let i = first_position(objects, name);
        lemma_match_string(after[i], font.name@);
    }
}

/// Integers, strings, data and references are equal to exactly the values
/// that hold the same integer, text, bytes or object, whichever side they
/// stand on.
pub proof fn lemma_values_match_plain(x: i32, text: Seq<char>, bytes: Seq<u8>, uid: Uid, other: ValueModel)
    ensures
        values_match(ValueModel::Integer(x), other) <==> other == ValueModel::Integer(x),
        values_match(other, ValueModel::Integer(x)) <==> other == ValueModel::Integer(x),
        values_match(ValueModel::String(text), other) <==> other == ValueModel::String(text),
        values_match(other, ValueModel::String(text)) <==> other == ValueModel::String(text),
        values_match(ValueModel::Data(bytes), other) <==> other == ValueModel::Data(bytes),
        values_match(other, ValueModel::Data(bytes)) <==> other == ValueModel::Data(bytes),
        values_match(ValueModel::Ref(uid), other) <==> other == ValueModel::Ref(uid),
        values_match(other, ValueModel::Ref(uid)) <==> other == ValueModel::Ref(uid),
{
}

/// Reals are equal as doubles: a real equals only reals; it equals the real
/// with the same bit pattern unless that is a NaN (all exponent bits set, a
/// nonzero fraction), and a zero equals the other zero.
pub proof fn lemma_values_match_real(x: u64, other: ValueModel)
    ensures
        values_match(ValueModel::Real(x), other) ==> other is Real,
        values_match(other, ValueModel::Real(x)) ==> other is Real,
        forall|y: u64|
            #[trigger] values_match(ValueModel::Real(x), ValueModel::Real(y)) <==> {
                &&& !(x & 0x7ff0_0000_0000_0000 == 0x7ff0_0000_0000_0000 && x & 0x000f_ffff_ffff_ffff != 0)
                &&& !(y & 0x7ff0_0000_0000_0000 == 0x7ff0_0000_0000_0000 && y & 0x000f_ffff_ffff_ffff != 0)
                &&& (x == y || (x & 0x7fff_ffff_ffff_ffff == 0 && y & 0x7fff_ffff_ffff_ffff == 0))
            },
{
}

/// Arrays are equal to the arrays of the same length whose elements are
/// equal, place by place; dictionaries to the dictionaries with the same keys
/// whose values are equal, key by key.
pub proof fn lemma_values_match_collections(a: ValueModel, b: ValueModel)
    ensures
        a is Array ==> (values_match(a, b) <==> {
            &&& b is Array
            &&& a->Array_0.len() == b->Array_0.len()
            &&& forall|i: int|
                0 <= i < a->Array_0.len() ==> values_match(#[trigger] a->Array_0[i], b->Array_0[i])
        }),
        a is Dictionary ==> (values_match(a, b) <==> {
            &&& b is Dictionary
            &&& a->Dictionary_0.dom() == b->Dictionary_0.dom()
            &&& forall|k: Key|
                a->Dictionary_0.dom().contains(k) ==> values_match(
                    #[trigger] a->Dictionary_0[k],
                    b->Dictionary_0[k],
                )
        }),
{
}

/// Equality of values does not depend on the order of its sides.
pub proof fn lemma_values_match_symmetric(a: ValueModel, b: ValueModel)
    ensures
        values_match(a, b) == values_match(b, a),
    decreases a,
{
    match a {
        ValueModel::Array(xs) => {
            if let ValueModel::Array(ys) = b {
                assert forall|i: int| 0 <= i < xs.len() implies values_match(#[trigger] xs[i], ys[i])
                    == values_match(ys[i], xs[i]) by {
                    lemma_values_match_symmetric(xs[i], ys[i]);
                }
            }
        },
        ValueModel::Dictionary(xm) => {
            if let ValueModel::Dictionary(ym) = b {
                assert forall|k: Key| xm.dom().contains(k) implies values_match(#[trigger] xm[k], ym[k])
                    == values_match(ym[k], xm[k]) by {
                    lemma_values_match_symmetric(xm[k], ym[k]);
                }
            }
        },
        _ => {},
    }
}

/// Appends the objects of `object` to `objects`: its class hierarchy object
/// (interned), what `serializer` adds for it, and last its root store.
pub fn populate_objects<S: CocoaSerializer<T> + ?Sized, T: NsObject>(
    serializer: &S,
    object: &T,
    objects: &mut Vec<Value>,
)
    ensures
        values_model(final(objects)@) == populated(serializer, *object, values_model(old(objects)@)),
{
    let mut root_store = KeyValueStore::new();
    let class_metadata = construct_class_metadata::<T>();
    root_store.insert(Key::Class, intern_value(class_metadata, objects));

    serializer.construct_object_data(object, objects, &mut root_store);
    proof {
        lemma_values_model_push(objects@, Value::Dictionary(root_store));
    }
    objects.push(Value::Dictionary(root_store));
}

/// Sets `$top` of `store` to the dictionary whose `root` refers to `root_store_uid`.
pub fn construct_and_insert_top_store(root_store_uid: Uid, store: &mut KeyValueStore)
    ensures
        final(store).model() == old(store).model().insert(Key::Top, top_store(root_store_uid)),
{
    let mut top_store = KeyValueStore::new();
    top_store.insert(Key::Root, Value::Ref(root_store_uid));

    store.insert(Key::Top, Value::Dictionary(top_store));
}

/// Returns the class hierarchy object of `T`.
pub fn construct_class_metadata<T: NsObject>() -> (metadata: Value)
    ensures
        metadata.model() == class_metadata::<T>(),
{
    let classes = T::classes();
    let mut class_values: Vec<Value> = Vec::new();
    let mut i: usize = 0;
    while i < classes.len()
        invariant
            i <= classes@.len(),
            classes@.len() == T::spec_classes().len(),
            forall|j: int| 0 <= j < classes@.len() ==> #[trigger] classes@[j]@ == T::spec_classes()[j],
            values_model(class_values@) == strings_model(T::spec_classes().take(i as int)),
        decreases classes@.len() - i,
    {
        let class = Value::String(classes[i].to_owned());
        proof {
            lemma_values_model_push(class_values@, class);
        }
        class_values.push(class);
        i = i + 1;
        proof {
            let i = i - 1;
            assert(T::spec_classes().take(i + 1) =~= T::spec_classes().take(i as int).push(
                T::spec_classes()[i as int],
            ));
            assert(strings_model(T::spec_classes().take(i + 1)) =~= strings_model(
                T::spec_classes().take(i as int),
            ).push(ValueModel::String(T::spec_classes()[i as int])));
        }
    }
    assert(T::spec_classes().take(classes@.len() as int) =~= T::spec_classes());
    let classes_value = Value::Array(class_values);
    let class_value = Value::String(T::class().to_owned());

    let mut classes_store = KeyValueStore::new();
    classes_store.insert(Key::Classes, classes_value);
    classes_store.insert(Key::Classname, class_value);

    Value::Dictionary(classes_store)
}

} // verus!
