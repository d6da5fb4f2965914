//! Control groups: named, typed values packed into one aligned byte block, repacked only
//! after a change.
use vstd::prelude::*;

use crate::align::{aligned_len, aligned_of, lemma_aligned_law};
use crate::persist_order_map::{
    has_key, key_index, lemma_inserted_unique, lemma_key_index, unique_keys,
    OrderKey, PersistOrderMap,
};
use crate::value::{
    kind_size, lemma_encoding_round_trip, model_ok, same_value, words_bytes, ControlValue,
    ValueKind, ValueModel,
};
use vstd::slice::slice_to_vec;

verus! {

broadcast use vstd::string::to_string_from_display_ensures_for_str;

/// The error of an operation whose kind differs from the kind a name was registered with.
#[derive(Clone, Copy, Debug, PartialEq, Eq, Structural)]
pub enum ControlError {
    KindMismatch { expected: ValueKind, found: ValueKind },
}

/// The values of a group by name, in registration order.
pub type Entries = Seq<(Seq<char>, ValueModel)>;

/// The bytes of all values, one after the other in registration order.
pub open spec fn concat_bytes(s: Entries) -> Seq<u8>
    decreases s.len(),
{
    if s.len() == 0 {
        Seq::empty()
    } else {
        concat_bytes(s.drop_last()) + s.last().1.bytes
    }
}

/// `n` zero bytes.
pub open spec fn zeros(n: nat) -> Seq<u8> {
    Seq::new(n, |i: int| 0u8)
}

/// The packed block of a group: all values' bytes in registration order, then zero bytes
/// up to the next multiple of 16.
pub open spec fn packed_of(s: Entries) -> Seq<u8> {
    let c = concat_bytes(s);
    c + zeros((aligned_of(c.len() as int) - c.len()) as nat)
}

/// Every value is well formed.
pub open spec fn values_ok(s: Entries) -> bool {
    forall|i: int| 0 <= i < s.len() ==> model_ok(#[trigger] s[i].1)
}

/// The value registered under `k`.
pub open spec fn stored(s: Entries, k: Seq<char>) -> ValueModel {
    s[key_index(s, k)].1
}

/// Whether an operation of `kind` may act on `k`: it is not registered, or registered
/// with that kind.
pub open spec fn kind_fits(s: Entries, k: Seq<char>, kind: ValueKind) -> bool {
    !has_key(s, k) || stored(s, k).kind == kind
}

/// The entries once `k` is registered, with `d` if it was not.
pub open spec fn registered(s: Entries, k: Seq<char>, d: ValueModel) -> Entries {
    if has_key(s, k) {
        s
    } else {
        s.push((k, d))
    }
}

/// Whether `new` differs, component by component, from the value registered under `k`.
pub open spec fn changes(s: Entries, k: Seq<char>, d: ValueModel, new: Option<ValueModel>) -> bool {
    match new {
        Some(n) => !same_value(stored(registered(s, k, d), k), n),
        None => false,
    }
}

/// Whether a set of `k` alters the group: it registers `k`, or brings a different value.
pub open spec fn touches(s: Entries, k: Seq<char>, d: ValueModel, new: Option<ValueModel>) -> bool {
    !has_key(s, k) || changes(s, k, d, new)
}

/// The entries after a set of `k`: registered with `d` if absent, then given `new` if that
/// differs from the value held.
pub open spec fn after_set(s: Entries, k: Seq<char>, d: ValueModel, new: Option<ValueModel>) -> Entries {
    let s1 = registered(s, k, d);
    if changes(s, k, d, new) {
        s1.update(key_index(s1, k), (k, new.unwrap()))
    } else {
        s1
    }
}

/// The value held under `k` after a set of `k`.
pub open spec fn current_after(s: Entries, k: Seq<char>, d: ValueModel, new: Option<ValueModel>) -> ValueModel {
    if changes(s, k, d, new) {
        new.unwrap()
    } else {
        stored(registered(s, k, d), k)
    }
}

/// The error of an operation of `kind` on `k` as registered in `s`.
pub open spec fn mismatch(kind: ValueKind, s: Entries, k: Seq<char>) -> ControlError {
    ControlError::KindMismatch { expected: kind, found: stored(s, k).kind }
}

/// A group as seen in contracts.
pub struct GroupModel {
    pub name: Seq<char>,
    pub entries: Entries,
    pub dirty: bool,
    pub cached: Seq<u8>,
    pub size: nat,
}

/// The invariant of a group: names unique, values well formed, `size` the length of all
/// their bytes, and the cached block current whenever the group is not dirty.
pub open spec fn group_ok(g: GroupModel) -> bool {
    &&& unique_keys(g.entries)
    &&& values_ok(g.entries)
    &&& g.size == concat_bytes(g.entries).len()
    &&& g.size + 15 <= usize::MAX
    &&& !g.dirty ==> g.cached == packed_of(g.entries)
}

/// The outcome of a set of `k` with default `d` and incoming value `new`, from `before`
/// to `after`.
pub open spec fn set_outcome(
    before: GroupModel,
    after: GroupModel,
    k: Seq<char>,
    d: ValueModel,
    new: Option<ValueModel>,
    ok: bool,
) -> bool {
    &&& group_ok(after)
    &&& if kind_fits(before.entries, k, d.kind) {
        &&& ok
        &&& after.name == before.name
        &&& after.entries == after_set(before.entries, k, d, new)
        &&& after.size == before.size + if has_key(before.entries, k) {
            0
        } else {
            kind_size(d.kind)
        }
        &&& after.dirty == (before.dirty || touches(before.entries, k, d, new))
        &&& !touches(before.entries, k, d, new) ==> after == before
    } else {
        !ok && after == before
    }
}

/// What a call for the packed block leaves and returns: the block packed from the values,
/// now cached, with the group clean and otherwise as it was; nothing at all changes for a
/// group that was clean.
pub open spec fn bytes_outcome(before: GroupModel, after: GroupModel, r: Seq<u8>) -> bool {
    &&& group_ok(after)
    &&& r == packed_of(before.entries)
    &&& r == after.cached
    &&& !after.dirty
    &&& after.entries == before.entries
    &&& after.name == before.name
    &&& after.size == before.size
    &&& !before.dirty ==> after == before
}

/// A group with no values, named `name`.
pub open spec fn empty_group(name: Seq<char>) -> GroupModel {
    GroupModel {
        name,
        entries: Seq::empty(),
        dirty: false,
        cached: Seq::empty(),
        size: 0,
    }
}

/// The byte length of a value's bytes is its kind's size.
proof fn lemma_value_len(m: ValueModel)
    requires
        model_ok(m),
    ensures
        m.bytes.len() == kind_size(m.kind),
{
    lemma_encoding_round_trip(m);
}

/// Replacing a value by one of its kind keeps the length of the concatenated bytes.
proof fn lemma_concat_update_len(s: Entries, i: int, e: (Seq<char>, ValueModel))
    requires
        values_ok(s),
        0 <= i < s.len(),
        model_ok(e.1),
        e.1.kind == s[i].1.kind,
    ensures
        concat_bytes(s.update(i, e)).len() == concat_bytes(s).len(),
    decreases s.len(),
{
    let t = s.update(i, e);
    lemma_value_len(e.1);
    lemma_value_len(s[i].1);
    if i == s.len() - 1 {
        assert(t.drop_last() =~= s.drop_last());
    } else {
        assert(t.drop_last() =~= s.drop_last().update(i, e));
        lemma_concat_update_len(s.drop_last(), i, e);
    }
}

/// The concatenated bytes grow by the bytes of an appended value.
proof fn lemma_concat_push(s: Entries, e: (Seq<char>, ValueModel))
    ensures
        concat_bytes(s.push(e)) == concat_bytes(s) + e.1.bytes,
{
    assert(s.push(e).drop_last() =~= s);
}

/// The model of an optional value.
pub open spec fn model_of(o: Option<ControlValue>) -> Option<ValueModel> {
    match o {
        Some(v) => Some(v@),
        None => None,
    }
}

/// The model of an integer value.
pub open spec fn int_model(n: i32) -> ValueModel {
    ValueModel { kind: ValueKind::Int, words: seq![n as u32], bytes: words_bytes(seq![n as u32]) }
}

/// The model of a boolean value.
pub open spec fn bool_model(b: bool) -> ValueModel {
    let w: u32 = if b { 1 } else { 0 };
    ValueModel { kind: ValueKind::Bool, words: seq![w], bytes: words_bytes(seq![w]) }
}

/// The model of a float value given by its bit pattern.
pub open spec fn float_model(x: u32) -> ValueModel {
    ValueModel { kind: ValueKind::Float, words: seq![x], bytes: words_bytes(seq![x]) }
}

/// The model of a vector value of `kind` given by the bit patterns of its floats.
pub open spec fn vec_model(kind: ValueKind, ws: Seq<u32>) -> ValueModel {
    ValueModel { kind, words: ws, bytes: words_bytes(ws) }
}

/// `Some` of `f(x)` for `Some(x)`.
pub open spec fn lift<A>(o: Option<A>, f: spec_fn(A) -> ValueModel) -> Option<ValueModel> {
    match o {
        Some(x) => Some(f(x)),
        None => None,
    }
}

/// A named collection of typed values, packed in registration order into one block padded
/// to a multiple of 16 bytes. The block is rebuilt only after a change.
pub struct ControlGroup {
    name: String,
    values: PersistOrderMap<String, ControlValue>,
    packed: Vec<u8>,
    needs_update: bool,
    size: usize,
}

impl View for ControlGroup {
    type V = GroupModel;

    closed spec fn view(&self) -> GroupModel {
        GroupModel {
            name: self.name@,
            entries: self.values@,
            dirty: self.needs_update,
            cached: self.packed@,
            size: self.size as nat,
        }
    }
}

impl ControlGroup {
    /// The group's invariant holds.
    pub open spec fn wf(&self) -> bool {
        group_ok(self@)
    }

    /// An empty group named `name`.
    pub fn new(name: &str) -> (r: ControlGroup)
        ensures
            r.wf(),
            r@ == empty_group(name@),
    {
        let r = ControlGroup {
            name: name.to_string(),
            values: PersistOrderMap::new(),
            packed: Vec::new(),
            needs_update: false,
            size: 0,
        };
        assert(packed_of(r@.entries) =~= Seq::<u8>::empty());
        assert(r@.entries =~= empty_group(name@).entries);
        assert(r@.cached =~= empty_group(name@).cached);
        r
    }

    /// The group's name.
    pub fn name(&self) -> (r: &str)
        ensures
            r@ == self@.name,
    {
        self.name.as_str()
    }

    /// The total size in bytes of all values, unpadded.
    pub fn size(&self) -> (r: usize)
        ensures
            r == self@.size,
    {
        self.size
    }

    /// Whether the packed block is out of date.
    pub fn needs_update(&self) -> (r: bool)
        ensures
            r == self@.dirty,
    {
        self.needs_update
    }

    /// The values by name, in registration order.
    pub fn values(&self) -> (r: &PersistOrderMap<String, ControlValue>)
        ensures
            r@ == self@.entries,
    {
        &self.values
    }

    /// The value registered under `name`, if any.
    pub fn get(&self, name: &str) -> (r: Option<&ControlValue>)
        requires
            self.wf(),
        ensures
            match r {
                Some(v) => has_key(self@.entries, name@) && v@ == stored(self@.entries, name@),
                None => !has_key(self@.entries, name@),
            },
    {
        let key = name.to_string();
        self.values.get(&key)
    }

    /// The size of the packed block: the total size rounded up to a multiple of 16.
    pub fn aligned_size(&self) -> (r: usize)
        requires
            self.wf(),
        ensures
            r == aligned_of(self@.size as int),
    {
        aligned_len(self.size)
    }

    /// The packed block: rebuilt from all values if the group is dirty, else the cached one.
    pub fn get_bytes(&mut self) -> (r: &[u8])
        requires
            old(self).wf(),
        ensures
            final(self).wf(),
            bytes_outcome(old(self)@, final(self)@, r@),
            r@.len() == aligned_of(old(self)@.size as int),
            !old(self)@.dirty ==> *final(self) == *old(self),
    {
        if self.needs_update {
            self.pack();
            self.needs_update = false;
        }
        proof {
            lemma_packed_len(self@.entries);
        }
        self.packed.as_slice()
    }

    /// Rebuilds the packed block from all values in registration order.
    fn pack(&mut self)
        requires
            old(self).wf(),
        ensures
            final(self).packed@ == packed_of(old(self)@.entries),
            final(self).name == old(self).name,
            final(self).values == old(self).values,
            final(self).needs_update == old(self).needs_update,
            final(self).size == old(self).size,
    {
        let ghost s = self@.entries;
        let mut package: Vec<u8> = Vec::new();
        let mut it = self.values.iter();
        loop
            invariant
                it.map()@ == s,
                0 <= it.index() <= s.len(),
                package@ == concat_bytes(s.subrange(0, it.index())),
            ensures
                package@ == concat_bytes(s),
            decreases s.len() - it.index(),
        {
            let ghost i = it.index();
            match it.next() {
                Some((_, value)) => {
                    let mut b = slice_to_vec(value.get_bytes());
                    package.append(&mut b);
                    assert(s.subrange(0, i + 1).drop_last() =~= s.subrange(0, i));
                },
                None => {
                    assert(s.subrange(0, s.len() as int) =~= s);
                    break ;
                },
            }
        }
        let pad = aligned_len(self.size) - self.size;
        let ghost c = package@;
        let mut j: usize = 0;
        while j < pad
            invariant
                j <= pad,
                package@ == c + zeros(j as nat),
            decreases pad - j,
        {
            package.push(0);
            assert(package@ =~= c + zeros((j + 1) as nat));
            j = j + 1;
        }
        self.packed = package;
    }

    /// Registers `name` with `default` if absent; then, if `new` is given and differs
    /// component by component from the value held, stores it and marks the group dirty.
    fn set_value(
        &mut self,
        name: &str,
        default: ControlValue,
        new: Option<ControlValue>,
    ) -> (r: Result<(), ControlError>)
        requires
            old(self).wf(),
            default.wf(),
            (new matches Some(n) ==> n.wf() && n@.kind == default@.kind),
            !has_key(old(self)@.entries, name@) ==> old(self)@.size + kind_size(default@.kind)
                + 15 <= usize::MAX,
        ensures
            set_outcome(old(self)@, final(self)@, name@, default@, model_of(new), (r is Ok)),
            (r matches Err(e) ==> e == mismatch(default@.kind, old(self)@.entries, name@)),
            r is Ok ==> has_key(final(self)@.entries, name@) && stored(final(self)@.entries, name@)
                == current_after(old(self)@.entries, name@, default@, model_of(new)),
    {
        let ghost s0 = self@.entries;
        let ghost d = default@;
        let key = name.to_string();
        let kind = default.kind();
        if !self.values.contains_key(&key) {
            let sz = default.size();
            proof {
                lemma_value_len(d);
                lemma_concat_push(s0, (name@, d));
                lemma_inserted_unique(s0, name@, d);
            }
            self.values.insert(key.dup_key(), default);
            self.size = self.size + sz;
            self.needs_update = true;
            assert(self@.entries == s0.push((name@, d)));
            assert(values_ok(self@.entries)) by {
                assert forall|i: int| 0 <= i < self@.entries.len() implies model_ok(
                    #[trigger] self@.entries[i].1,
                ) by {
                    if i < s0.len() {
                        assert(self@.entries[i] == s0[i]);
                    }
                }
            }
        }
        let ghost s1 = self@.entries;
        assert(s1 == registered(s0, name@, d));
        proof {
            lemma_key_index(s1, if has_key(s0, name@) {
                key_index(s0, name@)
            } else {
                s0.len() as int
            });
        }
        let held_kind = match self.values.get(&key) {
            Some(cur) => cur.kind(),
            None => {
                return Err(ControlError::KindMismatch { expected: kind, found: kind });
            },
        };
        if held_kind != kind {
            return Err(ControlError::KindMismatch { expected: kind, found: held_kind });
        }
        match new {
            Some(n) => {
                let same = match self.values.get(&key) {
                    Some(cur) => cur.same_as(&n),
                    None => true,
                };
                if !same {
                    let ghost i = key_index(s1, name@);
                    proof {
                        lemma_value_len(n@);
                        lemma_concat_update_len(s1, i, (name@, n@));
                        lemma_key_index(s1, i);
                        lemma_inserted_unique(s1, name@, n@);
                    }
                    self.values.insert(key, n);
                    self.needs_update = true;
                    assert(self@.entries == s1.update(i, (name@, n@)));
                    assert(values_ok(self@.entries)) by {
                        assert forall|j: int| 0 <= j < self@.entries.len() implies model_ok(
                            #[trigger] self@.entries[j].1,
                        ) by {
                            if j != i {
                                assert(self@.entries[j] == s1[j]);
                            }
                        }
                    }
                }
            },
            None => {},
        }
        Ok(())
    }
}


impl ControlGroup {
    /// The integer under `name`: registered with `default` if absent, then set to `new`
    /// when that is given and differs. Fails when `name` holds another kind.
    pub fn set_int(&mut self, name: &str, default: i32, new: Option<i32>) -> (r: Result<i32, ControlError>)
        requires
            old(self).wf(),
            !has_key(old(self)@.entries, name@) ==> old(self)@.size + 4 + 15 <= usize::MAX,
        ensures
            set_outcome(
                old(self)@,
                final(self)@,
                name@,
                int_model(default),
                lift(new, |n: i32| int_model(n)),
                (r is Ok),
            ),
            (r matches Ok(v) ==> stored(final(self)@.entries, name@) == int_model(v)),
            (r matches Err(e) ==> e == mismatch(ValueKind::Int, old(self)@.entries, name@)),
    {
        let d = ControlValue::from_int(default);
        let n = match new {
            Some(v) => Some(ControlValue::from_int(v)),
            None => None,
        };
        assert(model_of(n) == lift(new, |n: i32| int_model(n)));
        match self.set_value(name, d, n) {
            Err(e) => Err(e),
            Ok(()) => match self.get(name) {
                Some(ControlValue::Int(v, _, _)) => Ok(*v),
                _ => {
                    assert(false);
                    Ok(default)
                },
            },
        }
    }

    /// The boolean under `name`, held as 1 or 0: registered with `default` if absent, then set to `new` when that is given
    /// and differs component by component. Fails when `name` holds another kind.
    pub fn set_bool(&mut self, name: &str, default: bool, new: Option<bool>) -> (r: Result<
        bool,
        ControlError,
    >)
        requires
            old(self).wf(),
            !has_key(old(self)@.entries, name@) ==> old(self)@.size + 4 + 15 <= usize::MAX,
        ensures
            set_outcome(
                old(self)@,
                final(self)@,
                name@,
                bool_model(default),
                lift(new, |n: bool| bool_model(n)),
                (r is Ok),
            ),
            (r matches Ok(v) ==> stored(final(self)@.entries, name@) == bool_model(v)),
            (r matches Err(e) ==> e == mismatch(ValueKind::Bool, old(self)@.entries, name@)),
    {
        let d = ControlValue::from_bool(default);
        let n = match new {
            Some(v) => Some(ControlValue::from_bool(v)),
            None => None,
        };
        assert(model_of(n) == lift(new, |n: bool| bool_model(n)));
        match self.set_value(name, d, n) {
            Err(e) => Err(e),
            Ok(()) => match self.get(name) {
                Some(ControlValue::Bool(v, _, _)) => {
                    let ghost e = self@.entries;
                    assert(model_ok(e[key_index(e, name@)].1));
                    let x = *v;
                    assert(x as u32 == 0 || x as u32 == 1);
                    assert((x as u32 == 0 || x as u32 == 1) ==> (x == 0 || x == 1)) by (bit_vector);
                    let b = x == 1;
                    assert(seq![x as u32] =~= seq![if b { 1u32 } else { 0u32 }]);
                    Ok(b)
                },
                _ => {
                    assert(false);
                    Ok(default)
                },
            },
        }
    }

    /// The float under `name`, given by its bit pattern: registered with `default` if absent, then set to `new` when that is given
    /// and differs component by component. Fails when `name` holds another kind.
    pub fn set_float(&mut self, name: &str, default: u32, new: Option<u32>) -> (r: Result<
        u32,
        ControlError,
    >)
        requires
            old(self).wf(),
            !has_key(old(self)@.entries, name@) ==> old(self)@.size + 4 + 15 <= usize::MAX,
        ensures
            set_outcome(
                old(self)@,
                final(self)@,
                name@,
                float_model(default),
                lift(new, |n: u32| float_model(n)),
                (r is Ok),
            ),
            (r matches Ok(v) ==> stored(final(self)@.entries, name@) == float_model(v)),
            (r matches Err(e) ==> e == mismatch(ValueKind::Float, old(self)@.entries, name@)),
    {
        let d = ControlValue::from_float_bits(default);
        let n = match new {
            Some(v) => Some(ControlValue::from_float_bits(v)),
            None => None,
        };
        assert(model_of(n) == lift(new, |n: u32| float_model(n)));
        match self.set_value(name, d, n) {
            Err(e) => Err(e),
            Ok(()) => match self.get(name) {
                Some(ControlValue::Float(v, _, _)) => Ok(*v),
                _ => {
                    assert(false);
                    Ok(default)
                },
            },
        }
    }

    /// The two-component vector under `name`, given by the bit patterns of its floats: registered with `default` if absent, then set to `new` when that is given
    /// and differs component by component. Fails when `name` holds another kind.
    pub fn set_vec2(&mut self, name: &str, default: [u32; 2], new: Option<[u32; 2]>) -> (r: Result<
        [u32; 2],
        ControlError,
    >)
        requires
            old(self).wf(),
            !has_key(old(self)@.entries, name@) ==> old(self)@.size + 8 + 15 <= usize::MAX,
        ensures
            set_outcome(
                old(self)@,
                final(self)@,
                name@,
                vec_model(ValueKind::Vec2, default@),
                lift(new, |n: [u32; 2]| vec_model(ValueKind::Vec2, n@)),
                (r is Ok),
            ),
            (r matches Ok(v) ==> stored(final(self)@.entries, name@) == vec_model(ValueKind::Vec2, v@)),
            (r matches Err(e) ==> e == mismatch(ValueKind::Vec2, old(self)@.entries, name@)),
    {
        let d = ControlValue::from_vec2_bits(default);
        let n = match new {
            Some(v) => Some(ControlValue::from_vec2_bits(v)),
            None => None,
        };
        assert(model_of(n) == lift(new, |n: [u32; 2]| vec_model(ValueKind::Vec2, n@)));
        match self.set_value(name, d, n) {
            Err(e) => Err(e),
            Ok(()) => match self.get(name) {
                Some(ControlValue::Vec2(v, _, _)) => Ok(*v),
                _ => {
                    assert(false);
                    Ok(default)
                },
            },
        }
    }

    /// The three-component vector under `name`, given by the bit patterns of its floats: registered with `default` if absent, then set to `new` when that is given
    /// and differs component by component. Fails when `name` holds another kind.
    pub fn set_vec3(&mut self, name: &str, default: [u32; 3], new: Option<[u32; 3]>) -> (r: Result<
        [u32; 3],
        ControlError,
    >)
        requires
            old(self).wf(),
            !has_key(old(self)@.entries, name@) ==> old(self)@.size + 12 + 15 <= usize::MAX,
        ensures
            set_outcome(
                old(self)@,
                final(self)@,
                name@,
                vec_model(ValueKind::Vec3, default@),
                lift(new, |n: [u32; 3]| vec_model(ValueKind::Vec3, n@)),
                (r is Ok),
            ),
            (r matches Ok(v) ==> stored(final(self)@.entries, name@) == vec_model(ValueKind::Vec3, v@)),
            (r matches Err(e) ==> e == mismatch(ValueKind::Vec3, old(self)@.entries, name@)),
    {
        let d = ControlValue::from_vec3_bits(default);
        let n = match new {
            Some(v) => Some(ControlValue::from_vec3_bits(v)),
            None => None,
        };
        assert(model_of(n) == lift(new, |n: [u32; 3]| vec_model(ValueKind::Vec3, n@)));
        match self.set_value(name, d, n) {
            Err(e) => Err(e),
            Ok(()) => match self.get(name) {
                Some(ControlValue::Vec3(v, _, _)) => Ok(*v),
                _ => {
                    assert(false);
                    Ok(default)
                },
            },
        }
    }

    /// The four-component vector under `name`, given by the bit patterns of its floats: registered with `default` if absent, then set to `new` when that is given
    /// and differs component by component. Fails when `name` holds another kind.
    pub fn set_vec4(&mut self, name: &str, default: [u32; 4], new: Option<[u32; 4]>) -> (r: Result<
        [u32; 4],
        ControlError,
    >)
        requires
            old(self).wf(),
            !has_key(old(self)@.entries, name@) ==> old(self)@.size + 16 + 15 <= usize::MAX,
        ensures
            set_outcome(
                old(self)@,
                final(self)@,
                name@,
                vec_model(ValueKind::Vec4, default@),
                lift(new, |n: [u32; 4]| vec_model(ValueKind::Vec4, n@)),
                (r is Ok),
            ),
            (r matches Ok(v) ==> stored(final(self)@.entries, name@) == vec_model(ValueKind::Vec4, v@)),
            (r matches Err(e) ==> e == mismatch(ValueKind::Vec4, old(self)@.entries, name@)),
    {
        let d = ControlValue::from_vec4_bits(default);
        let n = match new {
            Some(v) => Some(ControlValue::from_vec4_bits(v)),
            None => None,
        };
        assert(model_of(n) == lift(new, |n: [u32; 4]| vec_model(ValueKind::Vec4, n@)));
        match self.set_value(name, d, n) {
            Err(e) => Err(e),
            Ok(()) => match self.get(name) {
                Some(ControlValue::Vec4(v, _, _)) => Ok(*v),
                _ => {
                    assert(false);
                    Ok(default)
                },
            },
        }
    }
}

/// The packed block is as long as the aligned size.
proof fn lemma_packed_len(s: Entries)
    ensures
        packed_of(s).len() == aligned_of(concat_bytes(s).len() as int),
{
}

/// Packing is deterministic and idempotent: with no change between them, two calls for the
/// packed block return the same bytes, as many as the aligned size, a multiple of 16.
pub proof fn lemma_get_bytes_twice(
    g0: GroupModel,
    g1: GroupModel,
    g2: GroupModel,
    r1: Seq<u8>,
    r2: Seq<u8>,
)
    requires
        group_ok(g0),
        bytes_outcome(g0, g1, r1),
        bytes_outcome(g1, g2, r2),
    ensures
        r1 == r2,
        g2 == g1,
        r1.len() == aligned_of(g0.size as int),
        r1.len() % 16 == 0,
{
    lemma_packed_len(g0.entries);
    lemma_aligned_law(g0.size);
}

/// A set that brings a value differing from the one held marks the group dirty, and the
/// next packed block holds the new value in its place; a set that brings the value held
/// changes nothing, and a clean group then hands back its cached block untouched.
pub proof fn lemma_dirty_discipline(
    g0: GroupModel,
    g1: GroupModel,
    g2: GroupModel,
    k: Seq<char>,
    d: ValueModel,
    n: ValueModel,
    r: Seq<u8>,
)
    requires
        group_ok(g0),
        has_key(g0.entries, k),
        stored(g0.entries, k).kind == d.kind,
        set_outcome(g0, g1, k, d, Some(n), true),
        bytes_outcome(g1, g2, r),
    ensures
        !same_value(stored(g0.entries, k), n) ==> {
            &&& g1.dirty
            &&& r == packed_of(g0.entries.update(key_index(g0.entries, k), (k, n)))
        },
        same_value(stored(g0.entries, k), n) ==> {
            &&& g1 == g0
            &&& !g0.dirty ==> r == g0.cached && g2 == g0
        },
{
}

/// Control groups by name.
pub struct Controls {
    values: PersistOrderMap<String, ControlGroup>,
}

/// Names unique and every group well formed.
pub open spec fn groups_ok(s: Seq<(Seq<char>, GroupModel)>) -> bool {
    &&& unique_keys(s)
    &&& forall|i: int| 0 <= i < s.len() ==> group_ok(#[trigger] s[i].1)
}

/// The groups once `name` is registered, as an empty group if it was not.
pub open spec fn with_group(s: Seq<(Seq<char>, GroupModel)>, name: Seq<char>) -> Seq<
    (Seq<char>, GroupModel),
> {
    if has_key(s, name) {
        s
    } else {
        s.push((name, empty_group(name)))
    }
}

impl View for Controls {
    type V = Seq<(Seq<char>, GroupModel)>;

    closed spec fn view(&self) -> Seq<(Seq<char>, GroupModel)> {
        self.values@
    }
}

impl Controls {
    /// Every group is well formed, each name once.
    pub open spec fn wf(&self) -> bool {
        groups_ok(self@)
    }

    /// No groups.
    pub fn new() -> (r: Controls)
        ensures
            r@ == Seq::<(Seq<char>, GroupModel)>::empty(),
            r.wf(),
    {
        Controls { values: PersistOrderMap::new() }
    }

    /// Whether a group is registered under `name`.
    pub fn contains(&self, name: &str) -> (r: bool)
        ensures
            r == has_key(self@, name@),
    {
        let key = name.to_string();
        self.values.contains_key(&key)
    }

    /// The group under `name`, registered empty if absent.
    pub fn group(&mut self, name: &str) -> (r: &mut ControlGroup)
        requires
            old(self).wf(),
        ensures
            (*r).wf(),
            (*r)@ == with_group(old(self)@, name@)[key_index(with_group(old(self)@, name@), name@)].1,
            final(self)@ == with_group(old(self)@, name@).update(
                key_index(with_group(old(self)@, name@), name@),
                (name@, (*final(r))@),
            ),
    {
        let key = name.to_string();
        let ghost s0 = self@;
        if !self.values.contains_key(&key) {
            proof {
                lemma_inserted_unique(s0, name@, empty_group(name@));
            }
            self.values.insert(key.dup_key(), ControlGroup::new(name));
            assert(self@ == s0.push((name@, empty_group(name@))));
        }
        let ghost s1 = self@;
        assert(s1 == with_group(s0, name@));
        proof {
            lemma_key_index(s1, if has_key(s0, name@) {
                key_index(s0, name@)
            } else {
                s0.len() as int
            });
            let i = key_index(s1, name@);
            if i < s0.len() {
                assert(s1[i] == s0[i]);
            }
        }
        self.values.get_mut(&key).unwrap()
    }

    /// The group under `name`, which must be registered.
    pub fn get(&self, name: &str) -> (r: &ControlGroup)
        requires
            self.wf(),
            has_key(self@, name@),
        ensures
            r.wf(),
            r@ == self@[key_index(self@, name@)].1,
    {
        let key = name.to_string();
        self.values.get(&key).unwrap()
    }

    /// The group under `name`, which must be registered, for change.
    pub fn get_mut(&mut self, name: &str) -> (r: &mut ControlGroup)
        requires
            old(self).wf(),
            has_key(old(self)@, name@),
        ensures
            (*r).wf(),
            (*r)@ == old(self)@[key_index(old(self)@, name@)].1,
            final(self)@ == old(self)@.update(key_index(old(self)@, name@), (name@, (*final(r))@)),
    {
        let key = name.to_string();
        self.values.get_mut(&key).unwrap()
    }
}

} // verus!
