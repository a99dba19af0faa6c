//! Tagged dynamic values, from which scenario-defined states are built.
use vstd::prelude::*;
use vstd::string::*;

verus! {

/// Mathematical model of a [`Value`]: the same variants, with strings as
/// character sequences and collections as sequences.
pub enum ValueModel {
    I32(i32),
    U32(u32),
    Float(u32),
    Text(Seq<char>),
    Bool(bool),
    Pair(Box<ValueModel>, Box<ValueModel>),
    List(Seq<ValueModel>),
    Dict(Seq<(ValueModel, ValueModel)>),
}

/// A closed tagged union over the payloads a state may hold.
///
/// A float is held as its raw bit pattern, so equality is exact. A map holds
/// each key once, its entries in increasing order of keys (see [`ValueMap`]),
/// so the order in which it was filled does not show. Equality and hashing
/// look at the variant first, then the payload, so equal payloads of different
/// variants never collide.
#[derive(Debug, PartialEq, Eq, Hash)]
pub enum Value {
    VI32(i32),
    VU32(u32),
    VFloat(u32),
    VString(String),
    VBool(bool),
    VPair(Box<Value>, Box<Value>),
    VVec(Vec<Value>),
    VMap(ValueMap),
}

/// A map from values to values: its entries, each key at most once, in
/// increasing order of keys under [`vcmp`]. That order is canonical, so two
/// maps filled with the same entries in different orders hold them alike, and
/// equality and hashing, which go entry by entry, see no difference.
#[derive(Debug, PartialEq, Eq, Hash)]
pub struct ValueMap {
    entries: Vec<(Value, Value)>,
}

/// An ordered sequence of values; the order is part of the identity of a state.
pub type State = Vec<Value>;

/// The model of a value.
pub closed spec fn model_of(v: Value) -> ValueModel
    decreases v,
{
    match v {
        Value::VI32(x) => ValueModel::I32(x),
        Value::VU32(x) => ValueModel::U32(x),
        Value::VFloat(x) => ValueModel::Float(x),
        Value::VString(s) => ValueModel::Text(s@),
        Value::VBool(b) => ValueModel::Bool(b),
        Value::VPair(l, r) => ValueModel::Pair(Box::new(model_of(*l)), Box::new(model_of(*r))),
        Value::VVec(xs) => ValueModel::List(models_of(xs@)),
        Value::VMap(m) => ValueModel::Dict(entry_models(m.entries@)),
    }
}

/// The models of a sequence of values, element by element.
pub closed spec fn models_of(xs: Seq<Value>) -> Seq<ValueModel>
    decreases xs,
{
    Seq::new(
        xs.len(),
        |i: int|
            if 0 <= i < xs.len() {
                model_of(xs[i])
            } else {
                ValueModel::Bool(false)
            },
    )
}

/// The models of a sequence of map entries, entry by entry.
pub closed spec fn entry_models(es: Seq<(Value, Value)>) -> Seq<(ValueModel, ValueModel)>
    decreases es,
{
    Seq::new(
        es.len(),
        |i: int|
            if 0 <= i < es.len() {
                (model_of(es[i].0), model_of(es[i].1))
            } else {
                (ValueModel::Bool(false), ValueModel::Bool(false))
            },
    )
}

impl View for Value {
    type V = ValueModel;

    open spec fn view(&self) -> ValueModel {
        model_of(*self)
    }
}

/// The place of a variant in the order of values.
pub open spec fn rank(v: ValueModel) -> int {
    match v {
        ValueModel::I32(_) => 0,
        ValueModel::U32(_) => 1,
        ValueModel::Float(_) => 2,
        ValueModel::Text(_) => 3,
        ValueModel::Bool(_) => 4,
        ValueModel::Pair(_, _) => 5,
        ValueModel::List(_) => 6,
        ValueModel::Dict(_) => 7,
    }
}

/// -1, 0 or 1 as `x` is below, equal to or above `y`.
pub open spec fn int_cmp(x: int, y: int) -> int {
    if x < y {
        -1
    } else if x == y {
        0
    } else {
        1
    }
}

/// The lexicographic order of two texts from position `i` on.
pub open spec fn text_cmp(x: Seq<char>, y: Seq<char>, i: int) -> int
    decreases x.len() - i,
{
    if i < 0 || i >= x.len() {
        if i >= 0 && i < y.len() {
            -1
        } else {
            0
        }
    } else if i >= y.len() {
        1
    } else if int_cmp(x[i] as int, y[i] as int) != 0 {
        int_cmp(x[i] as int, y[i] as int)
    } else {
        text_cmp(x, y, i + 1)
    }
}

/// A total order on value models: by variant, then by payload, sequences
/// lexicographically.
pub open spec fn vcmp(a: ValueModel, b: ValueModel) -> int
    decreases a,
{
    if rank(a) != rank(b) {
        int_cmp(rank(a), rank(b))
    } else {
        match a {
            ValueModel::I32(x) => int_cmp(x as int, b->I32_0 as int),
            ValueModel::U32(x) => int_cmp(x as int, b->U32_0 as int),
            ValueModel::Float(x) => int_cmp(x as int, b->Float_0 as int),
            ValueModel::Text(x) => text_cmp(x, b->Text_0, 0),
            ValueModel::Bool(x) => int_cmp(
                if x {
                    1
                } else {
                    0
                },
                if b->Bool_0 {
                    1
                } else {
                    0
                },
            ),
            ValueModel::Pair(l, r) => if vcmp(*l, *b->Pair_0) != 0 {
                vcmp(*l, *b->Pair_0)
            } else {
                vcmp(*r, *b->Pair_1)
            },
            ValueModel::List(x) => list_cmp(x, b->List_0, 0),
            ValueModel::Dict(x) => dict_cmp(x, b->Dict_0, 0),
        }
    }
}

/// The lexicographic order of two lists of values from position `i` on.
pub open spec fn list_cmp(x: Seq<ValueModel>, y: Seq<ValueModel>, i: int) -> int
    decreases x, x.len() - i,
{
    if i < 0 || i >= x.len() {
        if i >= 0 && i < y.len() {
            -1
        } else {
            0
        }
    } else if i >= y.len() {
        1
    } else if vcmp(x[i], y[i]) != 0 {
        vcmp(x[i], y[i])
    } else {
        list_cmp(x, y, i + 1)
    }
}

/// The lexicographic order of two maps' entries from position `i` on.
pub open spec fn dict_cmp(x: Seq<(ValueModel, ValueModel)>, y: Seq<(ValueModel, ValueModel)>, i: int) -> int
    decreases x, x.len() - i,
{
    if i < 0 || i >= x.len() {
        if i >= 0 && i < y.len() {
            -1
        } else {
            0
        }
    } else if i >= y.len() {
        1
    } else if vcmp(x[i].0, y[i].0) != 0 {
        vcmp(x[i].0, y[i].0)
    } else if vcmp(x[i].1, y[i].1) != 0 {
        vcmp(x[i].1, y[i].1)
    } else {
        dict_cmp(x, y, i + 1)
    }
}

proof fn lemma_text_cmp(x: Seq<char>, y: Seq<char>, i: int)
    requires
        0 <= i,
    ensures
        text_cmp(y, x, i) == -text_cmp(x, y, i),
        -1 <= text_cmp(x, y, i) <= 1,
        text_cmp(x, y, i) == 0 && i <= x.len() && i <= y.len() ==> x.len() == y.len() && forall|j: int|
            i <= j < x.len() ==> #[trigger] x[j] == y[j],
    decreases x.len() - i,
{
    if i < x.len() && i < y.len() {
        lemma_text_cmp(x, y, i + 1);
        if (x[i] as int) == (y[i] as int) {
            assert(x[i] == y[i]);
        }
    }
}

/// `vcmp` is antisymmetric, takes the values -1, 0 and 1, and is 0 exactly on
/// equal models.
pub proof fn lemma_vcmp(a: ValueModel, b: ValueModel)
    ensures
        vcmp(b, a) == -vcmp(a, b),
        -1 <= vcmp(a, b) <= 1,
        vcmp(a, b) == 0 <==> a == b,
    decreases a,
{
    if rank(a) == rank(b) {
        match a {
            ValueModel::Text(x) => {
                let y = b->Text_0;
                lemma_text_cmp(x, y, 0);
                if vcmp(a, b) == 0 {
                    assert(x =~= y);
                }
            },
            ValueModel::Pair(l, r) => {
                lemma_vcmp(*l, *b->Pair_0);
                lemma_vcmp(*r, *b->Pair_1);
            },
            ValueModel::List(x) => {
                let y = b->List_0;
                lemma_list_cmp(x, y, 0);
                if vcmp(a, b) == 0 {
                    assert(x =~= y);
                }
            },
            ValueModel::Dict(x) => {
                let y = b->Dict_0;
                lemma_dict_cmp(x, y, 0);
                if vcmp(a, b) == 0 {
                    assert(x =~= y);
                }
            },
            ValueModel::Bool(x) => {},
            _ => {},
        }
    }
    if a == b {
        assert(vcmp(a, b) == -vcmp(a, b));
    }
}

proof fn lemma_list_cmp(x: Seq<ValueModel>, y: Seq<ValueModel>, i: int)
    requires
        0 <= i,
    ensures
        list_cmp(y, x, i) == -list_cmp(x, y, i),
        -1 <= list_cmp(x, y, i) <= 1,
        list_cmp(x, y, i) == 0 && i <= x.len() && i <= y.len() ==> x.len() == y.len() && forall|j: int|
            i <= j < x.len() ==> #[trigger] x[j] == y[j],
    decreases x, x.len() - i,
{
    if i < x.len() && i < y.len() {
        lemma_vcmp(x[i], y[i]);
        lemma_list_cmp(x, y, i + 1);
    }
}

proof fn lemma_dict_cmp(x: Seq<(ValueModel, ValueModel)>, y: Seq<(ValueModel, ValueModel)>, i: int)
    requires
        0 <= i,
    ensures
        dict_cmp(y, x, i) == -dict_cmp(x, y, i),
        -1 <= dict_cmp(x, y, i) <= 1,
        dict_cmp(x, y, i) == 0 && i <= x.len() && i <= y.len() ==> x.len() == y.len() && forall|j: int|
            i <= j < x.len() ==> #[trigger] x[j] == y[j],
    decreases x, x.len() - i,
{
    if i < x.len() && i < y.len() {
        lemma_vcmp(x[i].0, y[i].0);
        lemma_vcmp(x[i].1, y[i].1);
        lemma_dict_cmp(x, y, i + 1);
    }
}

/// The model of a state.
pub open spec fn state_model(s: Seq<Value>) -> Seq<ValueModel> {
    models_of(s)
}

/// Failure to read a value as a native type of another shape.
#[derive(Debug, Clone, Copy, PartialEq, Eq, Structural)]
pub struct TypeMismatch;

/// The bit pattern of a 32-bit float, as a native type of its own.
#[derive(Debug, Clone, Copy, PartialEq, Eq, Structural)]
pub struct FloatBits(pub u32);

/// A map as a native type: its entries. Converted to a value, a later entry
/// for a key replaces the value of an earlier one, and the entries are put in
/// increasing order of keys; read back from a value, they come in that order.
#[derive(Debug, Clone, PartialEq, Eq)]
pub struct Assoc<K, V> {
    pub entries: Vec<(K, V)>,
}

/// No key appears twice in a sequence of entry models.
pub open spec fn dict_keys_distinct(d: Seq<(ValueModel, ValueModel)>) -> bool {
    forall|a: int, b: int| 0 <= a < b < d.len() ==> #[trigger] d[a].0 != #[trigger] d[b].0
}

/// Each key of a sequence of entry models is below the next in [`vcmp`].
pub open spec fn dict_sorted(d: Seq<(ValueModel, ValueModel)>) -> bool {
    forall|i: int| 0 <= i < d.len() - 1 ==> vcmp(#[trigger] d[i].0, d[i + 1].0) == -1
}

/// Where a key `k` not in `d` goes, looking back from position `p`: after the
/// last entry whose key is not above `k`.
pub open spec fn put_pos(d: Seq<(ValueModel, ValueModel)>, k: ValueModel, p: int) -> int
    decreases p,
{
    if 0 < p <= d.len() && vcmp(d[p - 1].0, k) == 1 {
        put_pos(d, k, p - 1)
    } else {
        p
    }
}

proof fn lemma_put_pos_range(d: Seq<(ValueModel, ValueModel)>, k: ValueModel, p: int)
    requires
        0 <= p <= d.len(),
    ensures
        0 <= put_pos(d, k, p) <= p,
    decreases p,
{
    if 0 < p && vcmp(d[p - 1].0, k) == 1 {
        lemma_put_pos_range(d, k, p - 1);
    }
}

/// `d` with entry `e` put in: it replaces the entry with the same key, if
/// there is one, and goes where the order of keys puts it otherwise.
pub open spec fn dict_put(d: Seq<(ValueModel, ValueModel)>, e: (ValueModel, ValueModel)) -> Seq<
    (ValueModel, ValueModel),
> {
    if exists|i: int| 0 <= i < d.len() && #[trigger] d[i].0 == e.0 {
        d.update(choose|i: int| 0 <= i < d.len() && #[trigger] d[i].0 == e.0, e)
    } else {
        d.insert(put_pos(d, e.0, d.len() as int), e)
    }
}

proof fn lemma_models_distinct(es: Seq<(Value, Value)>)
    requires
        forall|a: int, b: int| 0 <= a < b < es.len() ==> #[trigger] es[a].0@ != #[trigger] es[b].0@,
        forall|i: int| 0 <= i < es.len() - 1 ==> vcmp(#[trigger] es[i].0@, es[i + 1].0@) == -1,
    ensures
        dict_keys_distinct(entry_models(es)),
        dict_sorted(entry_models(es)),
{
    let d = entry_models(es);
    assert forall|i: int| 0 <= i < d.len() - 1 implies vcmp(#[trigger] d[i].0, d[i + 1].0) == -1 by {
        assert(d[i].0 == es[i].0@);
        assert(d[i + 1].0 == es[i + 1].0@);
    }
    assert forall|a: int, b: int| 0 <= a < b < d.len() implies #[trigger] d[a].0 != #[trigger] d[b].0 by {
        assert(d[a].0 == es[a].0@);
        assert(d[b].0 == es[b].0@);
    }
}

/// Where key `key`, absent from `entries`, goes: after the last entry, looking
/// back from the end, whose key is not above it.
fn insert_position(entries: &Vec<(Value, Value)>, key: &Value) -> (p: usize)
    ensures
        p <= entries@.len(),
        p == put_pos(entry_models(entries@), key@, entries@.len() as int),
        forall|q: int| p <= q < entries@.len() ==> vcmp(#[trigger] entry_models(entries@)[q].0, key@) == 1,
        p > 0 ==> vcmp(entry_models(entries@)[p - 1].0, key@) != 1,
{
    let ghost d = entry_models(entries@);
    let n = entries.len();
    let mut p: usize = n;
    let mut stop = false;
    while p > 0 && !stop
        invariant
            p <= n,
            n == entries@.len(),
            d == entry_models(entries@),
            put_pos(d, key@, n as int) == put_pos(d, key@, p as int),
            forall|q: int| p <= q < n ==> vcmp(#[trigger] d[q].0, key@) == 1,
            stop ==> p > 0 && vcmp(d[p - 1].0, key@) != 1,
        decreases p + (if stop {
            0int
        } else {
            1int
        }),
    {
        assert(d[p as int - 1].0 == entries@[p as int - 1].0@);
        let c = value_cmp(&entries[p - 1].0, key);
        if c == 1 {
            p = p - 1;
        } else {
            stop = true;
        }
    }
    p
}

impl View for ValueMap {
    type V = Seq<(ValueModel, ValueModel)>;

    closed spec fn view(&self) -> Seq<(ValueModel, ValueModel)> {
        entry_models(self.entries@)
    }
}

impl ValueMap {
    /// Each key once, the keys in increasing order.
    #[verifier::type_invariant]
    spec fn each_key_once(self) -> bool {
        &&& forall|a: int, b: int|
            0 <= a < b < self.entries@.len() ==> #[trigger] self.entries@[a].0@
                != #[trigger] self.entries@[b].0@
        &&& forall|i: int|
            0 <= i < self.entries@.len() - 1 ==> vcmp(#[trigger] self.entries@[i].0@, self.entries@[i + 1].0@)
                == -1
    }

    /// The empty map.
    pub fn new() -> (r: ValueMap)
        ensures
            r@ == Seq::<(ValueModel, ValueModel)>::empty(),
    {
        let r = ValueMap { entries: Vec::new() };
        assert(r@ =~= Seq::<(ValueModel, ValueModel)>::empty());
        r
    }

    /// The number of entries.
    pub fn len(&self) -> (r: usize)
        ensures
            r == self@.len(),
    {
        self.entries.len()
    }

    /// The entries, in increasing order of keys.
    pub fn entries(&self) -> (r: &Vec<(Value, Value)>)
        ensures
            entry_models(r@) == self@,
    {
        &self.entries
    }

    /// The position of the entry with key `key`, if any.
    fn position(&self, key: &Value) -> (r: Option<usize>)
        ensures
            r matches Some(i) ==> i < self@.len() && self@[i as int].0 == key@,
            r is None ==> forall|i: int| 0 <= i < self@.len() ==> #[trigger] self@[i].0 != key@,
    {
        let mut i: usize = 0;
        while i < self.entries.len()
            invariant
                0 <= i <= self.entries@.len(),
                self@ == entry_models(self.entries@),
                forall|j: int| 0 <= j < i ==> #[trigger] self@[j].0 != key@,
            decreases self.entries.len() - i,
        {
            if value_eq(&self.entries[i].0, key) {
                assert(self@[i as int].0 == self.entries@[i as int].0@);
                return Some(i);
            }
            assert(self@[i as int].0 == self.entries@[i as int].0@);
            i = i + 1;
        }
        None
    }

    /// The value of key `key`, if the map has it.
    pub fn get(&self, key: &Value) -> (r: Option<&Value>)
        ensures
            r is Some <==> exists|i: int| 0 <= i < self@.len() && #[trigger] self@[i].0 == key@,
            r matches Some(v) ==> exists|i: int|
                0 <= i < self@.len() && #[trigger] self@[i].0 == key@ && self@[i].1 == v@,
    {
        match self.position(key) {
            Some(i) => {
                assert(self@[i as int].1 == self.entries@[i as int].1@);
                Some(&self.entries[i].1)
            },
            None => None,
        }
    }

    /// Puts `value` under `key`: it replaces the value of `key` if the map has
    /// it, and goes where the order of keys puts it otherwise.
    #[verifier::rlimit(60)]
    pub fn insert(&mut self, key: Value, value: Value)
        ensures
            final(self)@ == dict_put(old(self)@, (key@, value@)),
    {
        proof {
            use_type_invariant(&*self);
            lemma_models_distinct(self.entries@);
        }
        let ghost e = (key@, value@);
        let ghost d = self@;
        match self.position(&key) {
            Some(i) => {
                proof {
                    let c = choose|c: int| 0 <= c < d.len() && #[trigger] d[c].0 == e.0;
                    if c != i {
                        if c < i {
                            assert(d[c].0 != d[i as int].0);
                        } else {
                            assert(d[i as int].0 != d[c].0);
                        }
                    }
                }
                let mut entries: Vec<(Value, Value)> = Vec::new();
                std::mem::swap(&mut entries, &mut self.entries);
                let ghost before = entries@;
                entries.set(i, (key, value));
                proof {
                    assert forall|a: int, b: int| 0 <= a < b < entries@.len() implies #[trigger] entries@[a].0@
                        != #[trigger] entries@[b].0@ by {
                        assert(d[a].0 == before[a].0@);
                        assert(d[b].0 == before[b].0@);
                    }
                    assert(d[i as int].0 == before[i as int].0@);
                    assert forall|q: int| 0 <= q < entries@.len() - 1 implies vcmp(
                        #[trigger] entries@[q].0@,
                        entries@[q + 1].0@,
                    ) == -1 by {
                        assert(vcmp(before[q].0@, before[q + 1].0@) == -1);
                    }
                }
                self.entries = entries;
                assert(self@ =~= d.update(i as int, e));
            },
            None => {
                let mut entries: Vec<(Value, Value)> = Vec::new();
                std::mem::swap(&mut entries, &mut self.entries);
                let ghost before = entries@;
                let p = insert_position(&entries, &key);
                entries.insert(p, (key, value));
                proof {
                    assert(put_pos(d, e.0, p as int) == p);
                    let t = entries@;
                    assert forall|a: int, b: int| 0 <= a < b < t.len() implies #[trigger] t[a].0@
                        != #[trigger] t[b].0@ by {
                        if a != p && b != p {
                            let a0 = if a < p { a } else { a - 1 };
                            let b0 = if b < p { b } else { b - 1 };
                            assert(t[a] == before[a0]);
                            assert(t[b] == before[b0]);
                            assert(d[a0].0 == before[a0].0@);
                            assert(d[b0].0 == before[b0].0@);
                        } else if a == p {
                            let b0 = b - 1;
                            assert(d[b0].0 == before[b0].0@);
                        } else {
                            assert(d[a].0 == before[a].0@);
                        }
                    }
                    assert forall|q: int| 0 <= q < t.len() - 1 implies vcmp(#[trigger] t[q].0@, t[q + 1].0@)
                        == -1 by {
                        if q + 1 < p {
                            assert(vcmp(before[q].0@, before[q + 1].0@) == -1);
                        } else if q + 1 == p {
                            assert(d[q].0 == before[q].0@);
                            lemma_vcmp(d[q].0, e.0);
                        } else if q == p {
                            assert(d[p as int].0 == before[p as int].0@);
                            lemma_vcmp(d[p as int].0, e.0);
                        } else {
                            assert(vcmp(before[q - 1].0@, before[q].0@) == -1);
                        }
                    }
                }
                self.entries = entries;
                assert(self@ =~= d.insert(p as int, e));
            },
        }
    }

    /// The map that inserting the given entries in order gives.
    pub fn from_entries(entries: &Vec<(Value, Value)>) -> (r: ValueMap)
        ensures
            r@ == dict_fold(entry_models(entries@)),
    {
        let ghost all = entry_models(entries@);
        let mut m = ValueMap::new();
        let mut i: usize = 0;
        while i < entries.len()
            invariant
                0 <= i <= entries@.len(),
                all == entry_models(entries@),
                m@ == dict_fold(all.take(i as int)),
            decreases entries.len() - i,
        {
            let k = copy_value(&entries[i].0);
            let v = copy_value(&entries[i].1);
            m.insert(k, v);
            assert(all.take(i as int + 1).drop_last() =~= all.take(i as int));
            assert(all[i as int] == (entries@[i as int].0@, entries@[i as int].1@));
            i = i + 1;
        }
        assert(all.take(i as int) =~= all);
        m
    }
}

/// The map that putting the entries of `s` in order gives.
pub open spec fn dict_fold(s: Seq<(ValueModel, ValueModel)>) -> Seq<(ValueModel, ValueModel)>
    decreases s.len(),
{
    if s.len() == 0 {
        Seq::empty()
    } else {
        dict_put(dict_fold(s.drop_last()), s.last())
    }
}

/// Compares two values by their models.
pub fn value_eq(a: &Value, b: &Value) -> (r: bool)
    ensures
        r == (a@ == b@),
    decreases a,
{
    match a {
        Value::VI32(x) => match b {
            Value::VI32(y) => *x == *y,
            _ => false,
        },
        Value::VU32(x) => match b {
            Value::VU32(y) => *x == *y,
            _ => false,
        },
        Value::VFloat(x) => match b {
            Value::VFloat(y) => *x == *y,
            _ => false,
        },
        Value::VString(x) => match b {
            Value::VString(y) => *x == *y,
            _ => false,
        },
        Value::VBool(x) => match b {
            Value::VBool(y) => *x == *y,
            _ => false,
        },
        Value::VPair(a1, a2) => match b {
            Value::VPair(b1, b2) => {
                let first = value_eq(a1, b1);
                if !first {
                    return false;
                }
                value_eq(a2, b2)
            },
            _ => false,
        },
        Value::VVec(x) => match b {
            Value::VVec(y) => {
                assert(a@ == ValueModel::List(models_of(x@)));
                assert(b@ == ValueModel::List(models_of(y@)));
                if x.len() != y.len() {
                    assert(models_of(x@).len() != models_of(y@).len());
                    return false;
                }
                let mut i: usize = 0;
                while i < x.len()
                    invariant
                        x.len() == y.len(),
                        *a == Value::VVec(*x),
                        a@ == ValueModel::List(models_of(x@)),
                        b@ == ValueModel::List(models_of(y@)),
                        0 <= i <= x.len(),
                        forall|j: int| 0 <= j < i ==> x@[j]@ == y@[j]@,
                    decreases x.len() - i,
                {
                    proof {
                        assert(decreases_to!(*x => x[i as int]));
                        assert(decreases_to!(*a => x[i as int]));
                    }
                    if !value_eq(&x[i], &y[i]) {
                        assert(models_of(x@)[i as int] != models_of(y@)[i as int]);
                        return false;
                    }
                    i = i + 1;
                }
                assert(models_of(x@) =~= models_of(y@));
                true
            },
            _ => false,
        },
        Value::VMap(mx) => match b {
            Value::VMap(my) => {
                let x = &mx.entries;
                let y = &my.entries;
                assert(a@ == ValueModel::Dict(entry_models(x@)));
                assert(b@ == ValueModel::Dict(entry_models(y@)));
                if x.len() != y.len() {
                    assert(entry_models(x@).len() != entry_models(y@).len());
                    return false;
                }
                let mut i: usize = 0;
                while i < x.len()
                    invariant
                        x.len() == y.len(),
                        *a == Value::VMap(*mx),
                        mx.entries == *x,
                        a@ == ValueModel::Dict(entry_models(x@)),
                        b@ == ValueModel::Dict(entry_models(y@)),
                        0 <= i <= x.len(),
                        forall|j: int|
                            0 <= j < i ==> x@[j].0@ == y@[j].0@ && x@[j].1@ == y@[j].1@,
                    decreases x.len() - i,
                {
                    proof {
                        assert((*a)->VMap_0 == *mx);
                        assert(decreases_to!(*a => *mx));
                        assert(decreases_to!(*mx => mx.entries));
                        assert(decreases_to!(*x => x[i as int]));
                        assert(decreases_to!(*a => x[i as int].0));
                        assert(decreases_to!(*a => x[i as int].1));
                    }
                    let same_key = value_eq(&x[i].0, &y[i].0);
                    if !same_key {
                        assert(entry_models(x@)[i as int] != entry_models(y@)[i as int]);
                        return false;
                    }
                    let same_value = value_eq(&x[i].1, &y[i].1);
                    if !same_value {
                        assert(entry_models(x@)[i as int] != entry_models(y@)[i as int]);
                        return false;
                    }
                    i = i + 1;
                }
                assert(entry_models(x@) =~= entry_models(y@));
                true
            },
            _ => false,
        },
    }
}

/// Computes [`int_cmp`] on two 64-bit integers.
fn cmp_i64(x: i64, y: i64) -> (r: i8)
    ensures
        r as int == int_cmp(x as int, y as int),
{
    if x < y {
        -1
    } else if x == y {
        0
    } else {
        1
    }
}

/// Computes [`rank`].
fn rank_of(v: &Value) -> (r: i64)
    ensures
        r as int == rank(v@),
{
    match v {
        Value::VI32(_) => 0,
        Value::VU32(_) => 1,
        Value::VFloat(_) => 2,
        Value::VString(_) => 3,
        Value::VBool(_) => 4,
        Value::VPair(_, _) => 5,
        Value::VVec(_) => 6,
        Value::VMap(_) => 7,
    }
}

/// Computes [`text_cmp`] from the start.
fn text_order(a: &String, b: &String) -> (r: i8)
    ensures
        r as int == text_cmp(a@, b@, 0),
{
    let sa = a.as_str();
    let sb = b.as_str();
    let na = sa.unicode_len();
    let nb = sb.unicode_len();
    let mut i: usize = 0;
    while i < na && i < nb
        invariant
            i <= na,
            i <= nb,
            na == a@.len(),
            nb == b@.len(),
            sa@ == a@,
            sb@ == b@,
            text_cmp(a@, b@, 0) == text_cmp(a@, b@, i as int),
        decreases na - i,
    {
        let ca = sa.get_char(i) as u32 as i64;
        let cb = sb.get_char(i) as u32 as i64;
        let c = cmp_i64(ca, cb);
        if c != 0 {
            return c;
        }
        i = i + 1;
    }
    if i < nb {
        -1
    } else if i < na {
        1
    } else {
        0
    }
}

/// Compares two values in the order [`vcmp`].
pub fn value_cmp(a: &Value, b: &Value) -> (r: i8)
    ensures
        r as int == vcmp(a@, b@),
    decreases a,
{
    let ra = rank_of(a);
    let rb = rank_of(b);
    if ra != rb {
        return cmp_i64(ra, rb);
    }
    match a {
        Value::VI32(x) => match b {
            Value::VI32(y) => cmp_i64(*x as i64, *y as i64),
            _ => vstd::pervasive::unreached(),
        },
        Value::VU32(x) => match b {
            Value::VU32(y) => cmp_i64(*x as i64, *y as i64),
            _ => vstd::pervasive::unreached(),
        },
        Value::VFloat(x) => match b {
            Value::VFloat(y) => cmp_i64(*x as i64, *y as i64),
            _ => vstd::pervasive::unreached(),
        },
        Value::VString(x) => match b {
            Value::VString(y) => text_order(x, y),
            _ => vstd::pervasive::unreached(),
        },
        Value::VBool(x) => match b {
            Value::VBool(y) => cmp_i64(
                if *x {
                    1
                } else {
                    0
                },
                if *y {
                    1
                } else {
                    0
                },
            ),
            _ => vstd::pervasive::unreached(),
        },
        Value::VPair(a1, a2) => match b {
            Value::VPair(b1, b2) => {
                let c = value_cmp(a1, b1);
                if c != 0 {
                    return c;
                }
                value_cmp(a2, b2)
            },
            _ => vstd::pervasive::unreached(),
        },
        Value::VVec(x) => match b {
            Value::VVec(y) => {
                let ghost mx = models_of(x@);
                let ghost my = models_of(y@);
                assert(a@ == ValueModel::List(mx));
                assert(b@ == ValueModel::List(my));
                let mut i: usize = 0;
                while i < x.len() && i < y.len()
                    invariant
                        *a == Value::VVec(*x),
                        mx == models_of(x@),
                        my == models_of(y@),
                        i <= x.len(),
                        i <= y.len(),
                        vcmp(a@, b@) == list_cmp(mx, my, i as int),
                    decreases x.len() - i,
                {
                    proof {
                        assert((*a)->VVec_0 == *x);
                        assert(decreases_to!(*a => *x));
                        assert(decreases_to!(*x => x[i as int]));
                        assert(decreases_to!(*a => x[i as int]));
                    }
                    let c = value_cmp(&x[i], &y[i]);
                    assert(mx[i as int] == x@[i as int]@);
                    assert(my[i as int] == y@[i as int]@);
                    if c != 0 {
                        return c;
                    }
                    i = i + 1;
                }
                if i < y.len() {
                    -1
                } else if i < x.len() {
                    1
                } else {
                    0
                }
            },
            _ => vstd::pervasive::unreached(),
        },
        Value::VMap(ma) => match b {
            Value::VMap(mb) => {
                let x = &ma.entries;
                let y = &mb.entries;
                let ghost mx = entry_models(x@);
                let ghost my = entry_models(y@);
                assert(a@ == ValueModel::Dict(mx));
                assert(b@ == ValueModel::Dict(my));
                let mut i: usize = 0;
                while i < x.len() && i < y.len()
                    invariant
                        *a == Value::VMap(*ma),
                        ma.entries == *x,
                        mx == entry_models(x@),
                        my == entry_models(y@),
                        i <= x.len(),
                        i <= y.len(),
                        vcmp(a@, b@) == dict_cmp(mx, my, i as int),
                    decreases x.len() - i,
                {
                    proof {
                        assert((*a)->VMap_0 == *ma);
                        assert(decreases_to!(*a => *ma));
                        assert(decreases_to!(*ma => ma.entries));
                        assert(decreases_to!(*x => x[i as int]));
                        assert(decreases_to!(*a => x[i as int].0));
                        assert(decreases_to!(*a => x[i as int].1));
                    }
                    assert(mx[i as int] == (x@[i as int].0@, x@[i as int].1@));
                    assert(my[i as int] == (y@[i as int].0@, y@[i as int].1@));
                    let c = value_cmp(&x[i].0, &y[i].0);
                    if c != 0 {
                        return c;
                    }
                    let c = value_cmp(&x[i].1, &y[i].1);
                    if c != 0 {
                        return c;
                    }
                    i = i + 1;
                }
                if i < y.len() {
                    -1
                } else if i < x.len() {
                    1
                } else {
                    0
                }
            },
            _ => vstd::pervasive::unreached(),
        },
    }
}

/// A copy of `v` with the same model.
pub fn copy_value(v: &Value) -> (r: Value)
    ensures
        r@ == v@,
    decreases v,
{
    match v {
        Value::VI32(x) => Value::VI32(*x),
        Value::VU32(x) => Value::VU32(*x),
        Value::VFloat(x) => Value::VFloat(*x),
        Value::VString(s) => Value::VString(s.clone()),
        Value::VBool(b) => Value::VBool(*b),
        Value::VPair(l, r) => {
            let left = copy_value(l);
            let right = copy_value(r);
            Value::VPair(Box::new(left), Box::new(right))
        },
        Value::VVec(xs) => {
            let mut out: Vec<Value> = Vec::new();
            let mut i: usize = 0;
            while i < xs.len()
                invariant
                    *v == Value::VVec(*xs),
                    0 <= i <= xs.len(),
                    out.len() == i,
                    forall|j: int| 0 <= j < i ==> out@[j]@ == xs@[j]@,
                decreases xs.len() - i,
            {
                proof {
                    assert((*v)->VVec_0 == *xs);
                    assert(decreases_to!(*v => *xs));
                    assert(decreases_to!(*xs => xs[i as int]));
                    assert(decreases_to!(*v => xs[i as int]));
                }
                let c = copy_value(&xs[i]);
                out.push(c);
                i = i + 1;
            }
            assert(models_of(out@) =~= models_of(xs@));
            Value::VVec(out)
        },
        Value::VMap(m) => {
            let es = &m.entries;
            proof {
                use_type_invariant(m);
            }
            let mut out: Vec<(Value, Value)> = Vec::new();
            let mut i: usize = 0;
            while i < es.len()
                invariant
                    *v == Value::VMap(*m),
                    m.entries == *es,
                    0 <= i <= es.len(),
                    out.len() == i,
                    forall|j: int|
                        0 <= j < i ==> out@[j].0@ == es@[j].0@ && out@[j].1@ == es@[j].1@,
                decreases es.len() - i,
            {
                proof {
                    assert((*v)->VMap_0 == *m);
                    assert(decreases_to!(*v => *m));
                    assert(decreases_to!(*m => m.entries));
                    assert(decreases_to!(*v => *es));
                    assert(decreases_to!(*es => es[i as int]));
                    assert(decreases_to!(es[i as int] => es[i as int].0));
                    assert(decreases_to!(*v => es[i as int].0));
                    assert(decreases_to!(*v => es[i as int].1));
                }
                let k = copy_value(&es[i].0);
                let x = copy_value(&es[i].1);
                out.push((k, x));
                i = i + 1;
            }
            assert(entry_models(out@) =~= entry_models(es@));
            proof {
                assert forall|a: int, b: int| 0 <= a < b < out@.len() implies #[trigger] out@[a].0@
                    != #[trigger] out@[b].0@ by {
                    assert(es@[a].0@ != es@[b].0@);
                }
                assert forall|q: int| 0 <= q < out@.len() - 1 implies vcmp(#[trigger] out@[q].0@, out@[q + 1].0@)
                    == -1 by {
                    assert(vcmp(es@[q].0@, es@[q + 1].0@) == -1);
                }
            }
            Value::VMap(ValueMap { entries: out })
        },
    }
}

impl Clone for Value {
    fn clone(&self) -> (r: Self)
        ensures
            r@ == self@,
    {
        copy_value(self)
    }
}

/// Compares two states element by element.
pub fn state_eq(a: &State, b: &State) -> (r: bool)
    ensures
        r == (state_model(a@) == state_model(b@)),
{
    if a.len() != b.len() {
        assert(state_model(a@).len() != state_model(b@).len());
        return false;
    }
    let mut i: usize = 0;
    while i < a.len()
        invariant
            a.len() == b.len(),
            0 <= i <= a.len(),
            forall|j: int| 0 <= j < i ==> a@[j]@ == b@[j]@,
        decreases a.len() - i,
    {
        if !value_eq(&a[i], &b[i]) {
            assert(state_model(a@)[i as int] != state_model(b@)[i as int]);
            return false;
        }
        i = i + 1;
    }
    assert(state_model(a@) =~= state_model(b@));
    true
}

/// A copy of a state with the same model.
pub fn copy_state(s: &State) -> (r: State)
    ensures
        state_model(r@) == state_model(s@),
{
    let mut out: State = Vec::new();
    let mut i: usize = 0;
    while i < s.len()
        invariant
            0 <= i <= s.len(),
            out.len() == i,
            forall|j: int| 0 <= j < i ==> out@[j]@ == s@[j]@,
        decreases s.len() - i,
    {
        let c = copy_value(&s[i]);
        out.push(c);
        i = i + 1;
    }
    assert(state_model(out@) =~= state_model(s@));
    out
}

/// Whether every element model reads back as `T`.
pub open spec fn all_fit<T: ValueTyped>(s: Seq<ValueModel>) -> bool {
    forall|i: int| 0 <= i < s.len() ==> T::fits(#[trigger] s[i])
}

/// Whether every entry model reads back as a `K` key and a `V` value.
pub open spec fn all_entries_fit<K: ValueTyped, V: ValueTyped>(
    s: Seq<(ValueModel, ValueModel)>,
) -> bool {
    forall|i: int| 0 <= i < s.len() ==> K::fits(#[trigger] s[i].0) && V::fits(s[i].1)
}

/// A native type that converts to and from a [`Value`].
pub trait ValueTyped: Sized {
    /// The model of the value that stands for `self`.
    spec fn value_model(&self) -> ValueModel;

    /// Whether a value with model `v` reads back as this type.
    spec fn fits(v: ValueModel) -> bool;

    /// The value made from any native value reads back as this type.
    proof fn lemma_reads_back(&self)
        ensures
            Self::fits(self.value_model()),
    ;

    /// The value that stands for `self`.
    fn to_value(&self) -> (r: Value)
        ensures
            r@ == self.value_model(),
    ;

    /// Reads `value` as this type; fails exactly when its shape differs.
    fn from_value(value: &Value) -> (r: Result<Self, TypeMismatch>)
        ensures
            r is Ok <==> Self::fits(value@),
            r matches Ok(x) ==> x.value_model() == value@,
    ;
}

impl ValueTyped for i32 {
    proof fn lemma_reads_back(&self) {
    }

    open spec fn value_model(&self) -> ValueModel {
        ValueModel::I32(*self)
    }

    open spec fn fits(v: ValueModel) -> bool {
        v is I32
    }

    fn to_value(&self) -> (r: Value) {
        Value::VI32(*self)
    }

    fn from_value(value: &Value) -> (r: Result<Self, TypeMismatch>) {
        match value {
            Value::VI32(x) => Ok(*x),
            _ => Err(TypeMismatch),
        }
    }
}

impl ValueTyped for u32 {
    proof fn lemma_reads_back(&self) {
    }

    open spec fn value_model(&self) -> ValueModel {
        ValueModel::U32(*self)
    }

    open spec fn fits(v: ValueModel) -> bool {
        v is U32
    }

    fn to_value(&self) -> (r: Value) {
        Value::VU32(*self)
    }

    fn from_value(value: &Value) -> (r: Result<Self, TypeMismatch>) {
        match value {
            Value::VU32(x) => Ok(*x),
            _ => Err(TypeMismatch),
        }
    }
}

impl ValueTyped for FloatBits {
    proof fn lemma_reads_back(&self) {
    }

    open spec fn value_model(&self) -> ValueModel {
        ValueModel::Float(self.0)
    }

    open spec fn fits(v: ValueModel) -> bool {
        v is Float
    }

    fn to_value(&self) -> (r: Value) {
        Value::VFloat(self.0)
    }

    fn from_value(value: &Value) -> (r: Result<Self, TypeMismatch>) {
        match value {
            Value::VFloat(x) => Ok(FloatBits(*x)),
            _ => Err(TypeMismatch),
        }
    }
}

impl ValueTyped for bool {
    proof fn lemma_reads_back(&self) {
    }

    open spec fn value_model(&self) -> ValueModel {
        ValueModel::Bool(*self)
    }

    open spec fn fits(v: ValueModel) -> bool {
        v is Bool
    }

    fn to_value(&self) -> (r: Value) {
        Value::VBool(*self)
    }

    fn from_value(value: &Value) -> (r: Result<Self, TypeMismatch>) {
        match value {
            Value::VBool(b) => Ok(*b),
            _ => Err(TypeMismatch),
        }
    }
}

impl ValueTyped for String {
    proof fn lemma_reads_back(&self) {
    }

    open spec fn value_model(&self) -> ValueModel {
        ValueModel::Text(self@)
    }

    open spec fn fits(v: ValueModel) -> bool {
        v is Text
    }

    fn to_value(&self) -> (r: Value) {
        Value::VString(self.clone())
    }

    fn from_value(value: &Value) -> (r: Result<Self, TypeMismatch>) {
        match value {
            Value::VString(s) => Ok(s.clone()),
            _ => Err(TypeMismatch),
        }
    }
}

impl<A: ValueTyped, B: ValueTyped> ValueTyped for (A, B) {
    proof fn lemma_reads_back(&self) {
        self.0.lemma_reads_back();
        self.1.lemma_reads_back();
    }

    open spec fn value_model(&self) -> ValueModel {
        ValueModel::Pair(Box::new(self.0.value_model()), Box::new(self.1.value_model()))
    }

    open spec fn fits(v: ValueModel) -> bool {
        match v {
            ValueModel::Pair(l, r) => A::fits(*l) && B::fits(*r),
            _ => false,
        }
    }

    fn to_value(&self) -> (r: Value) {
        let l = self.0.to_value();
        let r = self.1.to_value();
        Value::VPair(Box::new(l), Box::new(r))
    }

    fn from_value(value: &Value) -> (r: Result<Self, TypeMismatch>) {
        match value {
            Value::VPair(l, r) => {
                let a = A::from_value(l);
                let b = B::from_value(r);
                match (a, b) {
                    (Ok(x), Ok(y)) => Ok((x, y)),
                    _ => Err(TypeMismatch),
                }
            },
            _ => Err(TypeMismatch),
        }
    }
}

impl<T: ValueTyped> ValueTyped for Vec<T> {
    proof fn lemma_reads_back(&self) {
        let s = Seq::new(self@.len(), |i: int| self@[i].value_model());
        assert forall|i: int| 0 <= i < s.len() implies T::fits(#[trigger] s[i]) by {
            self@[i].lemma_reads_back();
        }
    }

    open spec fn value_model(&self) -> ValueModel {
        ValueModel::List(Seq::new(self@.len(), |i: int| self@[i].value_model()))
    }

    open spec fn fits(v: ValueModel) -> bool {
        match v {
            ValueModel::List(s) => all_fit::<T>(s),
            _ => false,
        }
    }

    fn to_value(&self) -> (r: Value) {
        let mut out: Vec<Value> = Vec::new();
        let mut i: usize = 0;
        while i < self.len()
            invariant
                0 <= i <= self.len(),
                out.len() == i,
                forall|j: int| 0 <= j < i ==> out@[j]@ == self@[j].value_model(),
            decreases self.len() - i,
        {
            let v = self[i].to_value();
            out.push(v);
            i = i + 1;
        }
        assert(models_of(out@) =~= Seq::new(self@.len(), |i: int| self@[i].value_model()));
        Value::VVec(out)
    }

    fn from_value(value: &Value) -> (r: Result<Self, TypeMismatch>) {
        match value {
            Value::VVec(xs) => {
                assert(value@ == ValueModel::List(models_of(xs@)));
                let mut out: Vec<T> = Vec::new();
                let mut i: usize = 0;
                while i < xs.len()
                    invariant
                        value@ == ValueModel::List(models_of(xs@)),
                        0 <= i <= xs.len(),
                        out.len() == i,
                        forall|j: int| 0 <= j < i ==> T::fits(#[trigger] models_of(xs@)[j]),
                        forall|j: int| 0 <= j < i ==> out@[j].value_model() == xs@[j]@,
                    decreases xs.len() - i,
                {
                    assert(models_of(xs@)[i as int] == xs@[i as int]@);
                    match T::from_value(&xs[i]) {
                        Ok(x) => out.push(x),
                        Err(e) => {
                            assert(!T::fits(models_of(xs@)[i as int]));
                            assert(i < models_of(xs@).len());
                            assert(!all_fit::<T>(models_of(xs@)));
                            assert(!Self::fits(ValueModel::List(models_of(xs@))));
                            return Err(e);
                        },
                    }
                    i = i + 1;
                }
                assert(models_of(xs@) =~= Seq::new(out@.len(), |i: int| out@[i].value_model()));
                Ok(out)
            },
            _ => Err(TypeMismatch),
        }
    }
}

/// The entry models of a native map's entries, in order.
pub open spec fn assoc_models<K: ValueTyped, V: ValueTyped>(entries: Seq<(K, V)>) -> Seq<
    (ValueModel, ValueModel),
> {
    Seq::new(entries.len(), |i: int| (entries[i].0.value_model(), entries[i].1.value_model()))
}

/// Putting entries in order into an empty map gives back a sequence whose
/// keys are already distinct and in order.
pub proof fn lemma_fold_distinct(s: Seq<(ValueModel, ValueModel)>)
    requires
        dict_keys_distinct(s),
        dict_sorted(s),
    ensures
        dict_fold(s) == s,
    decreases s.len(),
{
    if s.len() > 0 {
        let d = s.drop_last();
        assert forall|a: int, b: int| 0 <= a < b < d.len() implies #[trigger] d[a].0 != #[trigger] d[b].0 by {
            assert(s[a].0 != s[b].0);
        }
        assert forall|i: int| 0 <= i < d.len() - 1 implies vcmp(#[trigger] d[i].0, d[i + 1].0) == -1 by {
            assert(vcmp(s[i].0, s[i + 1].0) == -1);
        }
        lemma_fold_distinct(d);
        assert forall|i: int| 0 <= i < d.len() implies #[trigger] d[i].0 != s.last().0 by {
            assert(s[i].0 != s[s.len() - 1].0);
        }
        if d.len() > 0 {
            assert(vcmp(s[d.len() - 1].0, s[d.len() as int].0) == -1);
        }
        assert(put_pos(d, s.last().0, d.len() as int) == d.len());
        assert(d.insert(d.len() as int, s.last()) =~= s);
    }
}

/// Putting entries that fit `K` and `V` into a map gives a map whose
/// entries all fit.
pub proof fn lemma_fold_fits<K: ValueTyped, V: ValueTyped>(s: Seq<(ValueModel, ValueModel)>)
    requires
        all_entries_fit::<K, V>(s),
    ensures
        all_entries_fit::<K, V>(dict_fold(s)),
    decreases s.len(),
{
    if s.len() > 0 {
        let d = s.drop_last();
        assert forall|i: int| 0 <= i < d.len() implies K::fits(#[trigger] d[i].0) && V::fits(d[i].1) by {
            assert(d[i] == s[i]);
        }
        lemma_fold_fits::<K, V>(d);
        let f = dict_fold(d);
        let e = s.last();
        assert(K::fits(s[s.len() - 1].0) && V::fits(s[s.len() - 1].1));
        let r = dict_put(f, e);
        if exists|i: int| 0 <= i < f.len() && #[trigger] f[i].0 == e.0 {
            assert forall|i: int| 0 <= i < r.len() implies K::fits(#[trigger] r[i].0) && V::fits(r[i].1) by {
                if r[i] != e {
                    assert(r[i] == f[i]);
                }
            }
        } else {
            let p = put_pos(f, e.0, f.len() as int);
            lemma_put_pos_range(f, e.0, f.len() as int);
            assert forall|i: int| 0 <= i < r.len() implies K::fits(#[trigger] r[i].0) && V::fits(r[i].1) by {
                if i < p {
                    assert(r[i] == f[i]);
                } else if i > p {
                    assert(r[i] == f[i - 1]);
                }
            }
        }
    }
}

impl<K: ValueTyped, V: ValueTyped> ValueTyped for Assoc<K, V> {
    proof fn lemma_reads_back(&self) {
        let s = assoc_models(self.entries@);
        assert forall|i: int| 0 <= i < s.len() implies K::fits(#[trigger] s[i].0) && V::fits(
            s[i].1,
        ) by {
            self.entries@[i].0.lemma_reads_back();
            self.entries@[i].1.lemma_reads_back();
        }
        lemma_fold_fits::<K, V>(s);
    }

    /// A map holds each key once: a later entry for a key replaces the value
    /// of an earlier one.
    open spec fn value_model(&self) -> ValueModel {
        ValueModel::Dict(dict_fold(assoc_models(self.entries@)))
    }

    open spec fn fits(v: ValueModel) -> bool {
        match v {
            ValueModel::Dict(s) => all_entries_fit::<K, V>(s),
            _ => false,
        }
    }

    fn to_value(&self) -> (r: Value) {
        let ghost all = assoc_models(self.entries@);
        let mut m = ValueMap::new();
        let mut i: usize = 0;
        while i < self.entries.len()
            invariant
                0 <= i <= self.entries@.len(),
                all == assoc_models(self.entries@),
                m@ == dict_fold(all.take(i as int)),
            decreases self.entries.len() - i,
        {
            let k = self.entries[i].0.to_value();
            let v = self.entries[i].1.to_value();
            m.insert(k, v);
            assert(all.take(i as int + 1).drop_last() =~= all.take(i as int));
            i = i + 1;
        }
        assert(all.take(i as int) =~= all);
        Value::VMap(m)
    }

    fn from_value(value: &Value) -> (r: Result<Self, TypeMismatch>) {
        match value {
            Value::VMap(m) => {
                let es = m.entries();
                assert(value@ == ValueModel::Dict(m@));
                let mut out: Vec<(K, V)> = Vec::new();
                let mut i: usize = 0;
                while i < es.len()
                    invariant
                        value@ == ValueModel::Dict(entry_models(es@)),
                        0 <= i <= es.len(),
                        out.len() == i,
                        forall|j: int|
                            0 <= j < i ==> K::fits(#[trigger] entry_models(es@)[j].0) && V::fits(
                                entry_models(es@)[j].1,
                            ),
                        forall|j: int|
                            0 <= j < i ==> out@[j].0.value_model() == es@[j].0@
                                && out@[j].1.value_model() == es@[j].1@,
                    decreases es.len() - i,
                {
                    assert(entry_models(es@)[i as int] == (es@[i as int].0@, es@[i as int].1@));
                    let k = K::from_value(&es[i].0);
                    let v = V::from_value(&es[i].1);
                    match (k, v) {
                        (Ok(k), Ok(v)) => {
                            assert(K::fits(entry_models(es@)[i as int].0) && V::fits(
                                entry_models(es@)[i as int].1,
                            ));
                            out.push((k, v));
                        },
                        _ => {
                            assert(!(K::fits(entry_models(es@)[i as int].0) && V::fits(
                                entry_models(es@)[i as int].1,
                            )));
                            assert(i < entry_models(es@).len());
                            assert(!all_entries_fit::<K, V>(entry_models(es@)));
                            return Err(TypeMismatch);
                        },
                    }
                    assert forall|j: int| 0 <= j < i + 1 implies K::fits(
                        #[trigger] entry_models(es@)[j].0,
                    ) && V::fits(entry_models(es@)[j].1) by {
                        if j == i {
                            assert(K::fits(entry_models(es@)[i as int].0));
                        }
                    }
                    i = i + 1;
                }
                let r = Assoc { entries: out };
                proof {
                    assert(entry_models(es@) =~= assoc_models(r.entries@));
                    use_type_invariant(m);
                    lemma_models_distinct(m.entries@);
                    lemma_fold_distinct(m@);
                }
                Ok(r)
            },
            _ => Err(TypeMismatch),
        }
    }
}

impl Value {
    /// Reads this value as the native type `T`, or fails with [`TypeMismatch`]
    /// when the stored variant is not the one `T` reads.
    pub fn eq_type<T: ValueTyped>(&self) -> (r: Result<T, TypeMismatch>)
        ensures
            r is Ok <==> T::fits(self@),
            r matches Ok(x) ==> x.value_model() == self@,
    {
        T::from_value(self)
    }

    /// The map of a map value; `None` for any other variant.
    pub fn as_map(&self) -> (r: Option<&ValueMap>)
        ensures
            r is Some <==> self is VMap,
            r matches Some(m) ==> self@ == ValueModel::Dict(m@),
    {
        match self {
            Value::VMap(m) => Some(m),
            _ => None,
        }
    }
}

impl Value {
    /// The map of a map value, open to change through [`ValueMap`]'s methods,
    /// which keep each key once; `None` for any other variant.
    pub fn as_map_mut(&mut self) -> (r: Option<&mut ValueMap>)
        ensures
            r is Some <==> *old(self) is VMap,
            r is None ==> *final(self) == *old(self),
            r matches Some(m) ==> *m == (*old(self))->VMap_0 && *final(self) == Value::VMap(*final(m)),
    {
        match self {
            Value::VMap(m) => Some(m),
            _ => None,
        }
    }
}

/// Round trip: a value `v` with the model of a native `x` (as `to_value`
/// makes it) fits `T`, so `from_value` on it returns `Ok`.
pub proof fn lemma_round_trip<T: ValueTyped>(x: T, v: Value)
    requires
        v@ == x.value_model(),
    ensures
        T::fits(v@),
{
    x.lemma_reads_back();
}

/// The value that stands for a native value.
pub fn to_value<T: ValueTyped>(value: T) -> (r: Value)
    ensures
        r@ == value.value_model(),
{
    value.to_value()
}

} // verus!
