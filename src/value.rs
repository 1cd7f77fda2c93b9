//! The tagged datum that flows between blocks, and the string-keyed map that
//! holds block inputs, outputs and configuration.
use vstd::prelude::*;

verus! {

/// Abstract contents of a [`Value`]: what two values must agree on to be the
/// same datum. Objects are maps, so the order of their entries is irrelevant.
pub enum ValueModel {
    Null,
    Bool(bool),
    Int(int),
    Float(u64),
    Str(Seq<char>),
    Array(Seq<ValueModel>),
    Object(Map<Seq<char>, ValueModel>),
    Bytes(Seq<u8>),
}

/// A datum that can flow through a graph or configure a block.
///
/// A float is held as the bit pattern of an IEEE-754 binary64 number
/// (`f64::to_bits`), so that it is carried through the engine unchanged.
#[derive(Debug)]
pub enum Value {
    Null,
    Bool(bool),
    Int(i64),
    Float(u64),
    String(String),
    Array(Vec<Value>),
    Object(ValueMap),
    Bytes(Vec<u8>),
}

/// A map from string keys to values; keys are unique and lookups go by the
/// characters of the key.
#[derive(Debug)]
pub struct ValueMap {
    entries: Vec<(String, Value)>,
}

/// The bit pattern `b` encodes a NaN.
pub open spec fn is_nan_bits(b: u64) -> bool {
    (b >> 52u64) & 0x7ffu64 == 0x7ffu64 && b & 0xf_ffff_ffff_ffffu64 != 0
}

/// The bit pattern `b` encodes positive or negative zero.
pub open spec fn is_zero_bits(b: u64) -> bool {
    b & 0x7fff_ffff_ffff_ffffu64 == 0
}

/// The binary64 numbers with bit patterns `a` and `b` compare equal: neither
/// is NaN, and they are the same number or both zero.
pub open spec fn float_bits_eq(a: u64, b: u64) -> bool {
    !is_nan_bits(a) && !is_nan_bits(b) && (a == b || (is_zero_bits(a) && is_zero_bits(b)))
}

/// Structural equality of values: same variant and equal contents; floats
/// compare as numbers, objects as maps.
pub open spec fn model_eq(a: ValueModel, b: ValueModel) -> bool
    decreases a,
{
    match (a, b) {
        (ValueModel::Null, ValueModel::Null) => true,
        (ValueModel::Bool(x), ValueModel::Bool(y)) => x == y,
        (ValueModel::Int(x), ValueModel::Int(y)) => x == y,
        (ValueModel::Float(x), ValueModel::Float(y)) => float_bits_eq(x, y),
        (ValueModel::Str(x), ValueModel::Str(y)) => x == y,
        (ValueModel::Bytes(x), ValueModel::Bytes(y)) => x == y,
        (ValueModel::Array(xs), ValueModel::Array(ys)) => xs.len() == ys.len() && forall|i: int|
            0 <= i < xs.len() ==> model_eq(#[trigger] xs[i], ys[i]),
        (ValueModel::Object(m), ValueModel::Object(n)) => m.dom() == n.dom() && forall|k: Seq<char>|
            #[trigger] m.contains_key(k) ==> model_eq(m[k], n[k]),
        _ => false,
    }
}

/// Models of a sequence of values, element by element.
pub open spec fn models_of(s: Seq<Value>) -> Seq<ValueModel>
    decreases s,
{
    Seq::new(s.len(), |i: int| if 0 <= i < s.len() { s[i].model() } else { ValueModel::Null })
}

/// Model of an association list; a later entry for a key wins.
pub open spec fn entries_model(s: Seq<(String, Value)>) -> Map<Seq<char>, ValueModel>
    decreases s,
{
    if s.len() == 0 {
        Map::empty()
    } else {
        entries_model(s.drop_last()).insert(s.last().0@, s.last().1.model())
    }
}

/// The characters of each string, in order.
pub open spec fn string_views(v: Seq<String>) -> Seq<Seq<char>> {
    v.map_values(|s: String| s@)
}

/// The keys of an association list, in order.
pub open spec fn keys_of(s: Seq<(String, Value)>) -> Seq<Seq<char>> {
    s.map_values(|e: (String, Value)| e.0@)
}

/// The keys of a nonempty list are those before the last entry, then its key.
pub proof fn lemma_keys_of_push(s: Seq<(String, Value)>)
    requires
        s.len() > 0,
    ensures
        keys_of(s) == keys_of(s.drop_last()).push(s.last().0@),
{
    assert(keys_of(s) =~= keys_of(s.drop_last()).push(s.last().0@));
}

/// The model's keys are exactly the keys of the entries.
pub proof fn lemma_entries_model_dom(s: Seq<(String, Value)>)
    ensures
        forall|k: Seq<char>| #[trigger]
            entries_model(s).contains_key(k) <==> keys_of(s).contains(k),
    decreases s.len(),
{
    if s.len() > 0 {
        let s0 = s.drop_last();
        lemma_entries_model_dom(s0);
        lemma_keys_of_push(s);
        assert(entries_model(s) == entries_model(s0).insert(s.last().0@, s.last().1.model()));
        assert forall|k: Seq<char>| #[trigger]
            entries_model(s).contains_key(k) <==> keys_of(s).contains(k) by {
            let ks = keys_of(s);
            let ks0 = keys_of(s0);
            if ks.contains(k) {
                let i = choose|i: int| 0 <= i < ks.len() && ks[i] == k;
                if i < s.len() - 1 {
                    assert(ks0[i] == k);
                    assert(ks0.contains(k));
                }
            }
            if ks0.contains(k) {
                let i = choose|i: int| 0 <= i < ks0.len() && ks0[i] == k;
                assert(ks[i] == k);
            }
            assert(ks[s.len() - 1] == s.last().0@);
        }
    }
}

/// With unique keys, the entry at index `i` gives the value of its key.
pub proof fn lemma_entries_model_at(s: Seq<(String, Value)>, i: int)
    requires
        0 <= i < s.len(),
        keys_of(s).no_duplicates(),
    ensures
        entries_model(s).contains_key(s[i].0@),
        entries_model(s)[s[i].0@] == s[i].1.model(),
    decreases s.len(),
{
    let s0 = s.drop_last();
    assert(entries_model(s) == entries_model(s0).insert(s.last().0@, s.last().1.model()));
    if i < s.len() - 1 {
        lemma_keys_of_push(s);
        assert(keys_of(s0) =~= keys_of(s).drop_last());
        lemma_entries_model_at(s0, i);
        assert(keys_of(s)[i] == s[i].0@);
        assert(keys_of(s)[s.len() - 1] == s.last().0@);
        assert(s0[i] == s[i]);
    }
}

/// Two association lists whose keys and value models agree entry by entry
/// have the same model.
pub proof fn lemma_entries_model_congruent(a: Seq<(String, Value)>, b: Seq<(String, Value)>)
    requires
        a.len() == b.len(),
        forall|i: int| 0 <= i < a.len() ==> #[trigger] a[i].0@ == b[i].0@,
        forall|i: int| 0 <= i < a.len() ==> #[trigger] a[i].1.model() == b[i].1.model(),
    ensures
        entries_model(a) == entries_model(b),
    decreases a.len(),
{
    if a.len() > 0 {
        let (a0, b0) = (a.drop_last(), b.drop_last());
        assert forall|i: int| 0 <= i < a0.len() implies #[trigger] a0[i].0@ == b0[i].0@ by {
            assert(a[i].0@ == b[i].0@);
        }
        assert forall|i: int| 0 <= i < a0.len() implies #[trigger] a0[i].1.model()
            == b0[i].1.model() by {
            assert(a[i].1.model() == b[i].1.model());
        }
        lemma_entries_model_congruent(a0, b0);
        assert(entries_model(a) == entries_model(a0).insert(a.last().0@, a.last().1.model()));
        assert(entries_model(b) == entries_model(b0).insert(b.last().0@, b.last().1.model()));
        assert(a[a.len() - 1].0@ == b[a.len() - 1].0@);
        assert(a[a.len() - 1].1.model() == b[a.len() - 1].1.model());
    }
}

impl ValueMap {
    #[verifier::type_invariant]
    pub closed spec fn keys_unique(&self) -> bool {
        keys_of(self.entries@).no_duplicates()
    }

    /// What the map holds.
    pub closed spec fn model(&self) -> Map<Seq<char>, ValueModel>
        decreases self,
    {
        entries_model(self.entries@)
    }

    /// The keys, in the order in which they were first inserted.
    pub closed spec fn key_seq(&self) -> Seq<Seq<char>> {
        keys_of(self.entries@)
    }

    /// The key sequence has no repeats and lists exactly the model's keys.
    pub proof fn lemma_key_seq(&self)
        requires
            self.keys_unique(),
        ensures
            self.key_seq().no_duplicates(),
            forall|k: Seq<char>| #[trigger]
                self.model().contains_key(k) <==> self.key_seq().contains(k),
            self.key_seq().len() == self.model().dom().len(),
    {
        lemma_entries_model_dom(self.entries@);
        let ks = self.key_seq();
        ks.unique_seq_to_set();
        assert forall|k: Seq<char>| ks.to_set().contains(k) == self.model().dom().contains(k) by {
            assert(self.model() == entries_model(self.entries@));
        }
        assert(ks.to_set() =~= self.model().dom());
    }

    pub fn new() -> (m: ValueMap)
        ensures
            m.model() == Map::<Seq<char>, ValueModel>::empty(),
            m.key_seq() == Seq::<Seq<char>>::empty(),
    {
        let m = ValueMap { entries: Vec::new() };
        assert(keys_of(m.entries@) =~= Seq::<Seq<char>>::empty());
        m
    }

    /// Index of the entry for `key`, if there is one.
    fn find(&self, key: &str) -> (r: Option<usize>)
        ensures
            match r {
                Some(i) => i < self.entries@.len() && self.entries@[i as int].0@ == key@,
                None => !self.key_seq().contains(key@),
            },
    {
        let target = key.to_owned();
        let mut i: usize = 0;
        while i < self.entries.len()
            invariant
                i <= self.entries@.len(),
                target@ == key@,
                forall|j: int| 0 <= j < i ==> self.entries@[j].0@ != key@,
            decreases self.entries@.len() - i,
        {
            if self.entries[i].0 == target {
                return Some(i);
            }
            i = i + 1;
        }
        proof {
            if self.key_seq().contains(key@) {
                let j = choose|j: int| 0 <= j < self.key_seq().len() && self.key_seq()[j] == key@;
                assert(self.entries@[j].0@ == key@);
            }
        }
        None
    }

    pub fn contains_key(&self, key: &str) -> (r: bool)
        ensures
            r == self.model().contains_key(key@),
    {
        proof {
            use_type_invariant(self);
            self.lemma_key_seq();
        }
        let r = self.find(key);
        proof {
            if let Some(i) = r {
                assert(self.key_seq()[i as int] == key@);
            }
        }
        r.is_some()
    }

    pub fn get(&self, key: &str) -> (r: Option<&Value>)
        ensures
            match r {
                Some(v) => self.model().contains_key(key@) && v.model() == self.model()[key@],
                None => !self.model().contains_key(key@),
            },
    {
        proof {
            use_type_invariant(self);
            self.lemma_key_seq();
        }
        match self.find(key) {
            Some(i) => {
                proof { lemma_entries_model_at(self.entries@, i as int); }
                Some(&self.entries[i].1)
            },
            None => None,
        }
    }

    pub fn len(&self) -> (r: usize)
        ensures
            r == self.model().dom().len(),
    {
        proof {
            use_type_invariant(self);
            self.lemma_key_seq();
        }
        self.entries.len()
    }

    pub fn is_empty(&self) -> (r: bool)
        ensures
            r == (self.model().dom().len() == 0),
    {
        proof {
            use_type_invariant(self);
            self.lemma_key_seq();
        }
        self.entries.len() == 0
    }

    /// Sets `key` to `value`; returns whether the key was already present.
    /// A new key goes after all existing ones.
    pub fn insert(&mut self, key: String, value: Value) -> (replaced: bool)
        ensures
            final(self).model() == old(self).model().insert(key@, value.model()),
            replaced == old(self).model().contains_key(key@),
            replaced ==> final(self).key_seq() == old(self).key_seq(),
            !replaced ==> final(self).key_seq() == old(self).key_seq().push(key@),
    {
        proof {
            use_type_invariant(&*self);
            old(self).lemma_key_seq();
        }
        let ghost old_entries = self.entries@;
        match self.find(key.as_str()) {
            Some(i) => {
                let ghost k = key@;
                let ghost vm = value.model();
                let mut entries: Vec<(String, Value)> = Vec::new();
                std::mem::swap(&mut self.entries, &mut entries);
                entries.set(i, (key, value));
                proof {
                    assert(keys_of(entries@) =~= keys_of(old_entries));
                    let m1 = entries_model(entries@);
                    let m0 = entries_model(old_entries).insert(k, vm);
                    lemma_entries_model_dom(entries@);
                    lemma_entries_model_dom(old_entries);
                    assert forall|kk: Seq<char>| m1.contains_key(kk) implies m1[kk] == m0[kk] by {
                        let j = choose|j: int| 0 <= j < keys_of(entries@).len() && keys_of(entries@)[j] == kk;
                        lemma_entries_model_at(entries@, j);
                        assert(keys_of(entries@)[j] == entries@[j].0@);
                        if j != i {
                            lemma_entries_model_at(old_entries, j);
                            assert(keys_of(old_entries)[j] == old_entries[j].0@);
                            assert(keys_of(old_entries)[i as int] == old_entries[i as int].0@);
                            assert(entries@[j] == old_entries[j]);
                            assert(kk != k);
                        }
                    }
                    assert(keys_of(old_entries)[i as int] == k);
                    assert forall|kk: Seq<char>| m1.contains_key(kk) == m0.contains_key(kk) by {
                        if kk == k {
                            assert(keys_of(old_entries).contains(kk));
                        }
                    }
                    assert(m1 =~= m0);
                }
                std::mem::swap(&mut self.entries, &mut entries);
                true
            },
            None => {
                let ghost k = key@;
                let mut entries: Vec<(String, Value)> = Vec::new();
                std::mem::swap(&mut self.entries, &mut entries);
                entries.push((key, value));
                proof {
                    assert(entries@.drop_last() =~= old_entries);
                    lemma_keys_of_push(entries@);
                    assert(keys_of(entries@) == keys_of(old_entries).push(k));
                    assert forall|a: int, b: int|
                        0 <= a < b < keys_of(entries@).len() implies keys_of(entries@)[a]
                        != keys_of(entries@)[b] by {
                        if b == keys_of(entries@).len() - 1 {
                            assert(keys_of(old_entries)[a] == keys_of(entries@)[a]);
                        }
                    }
                }
                std::mem::swap(&mut self.entries, &mut entries);
                false
            },
        }
    }

    /// The keys, in the order in which they were first inserted.
    pub fn keys(&self) -> (r: Vec<String>)
        ensures
            string_views(r@) == self.key_seq(),
    {
        let mut r: Vec<String> = Vec::new();
        let mut i: usize = 0;
        while i < self.entries.len()
            invariant
                i <= self.entries@.len(),
                r@.len() == i,
                forall|j: int| 0 <= j < i ==> #[trigger] r@[j]@ == self.entries@[j].0@,
            decreases self.entries@.len() - i,
        {
            r.push(self.entries[i].0.clone());
            i = i + 1;
        }
        assert(string_views(r@) =~= keys_of(self.entries@));
        r
    }

    /// A copy with the same model and the same key order.
    pub fn duplicate(&self) -> (r: ValueMap)
        ensures
            r.model() == self.model(),
            r.key_seq() == self.key_seq(),
        decreases self,
    {
        proof { use_type_invariant(self); }
        let mut out: Vec<(String, Value)> = Vec::new();
        let mut i: usize = 0;
        while i < self.entries.len()
            invariant
                i <= self.entries@.len(),
                out@.len() == i,
                forall|j: int| 0 <= j < i ==> #[trigger] out@[j].0@ == self.entries@[j].0@,
                forall|j: int| 0 <= j < i ==> #[trigger] out@[j].1.model()
                    == self.entries@[j].1.model(),
            decreases self.entries@.len() - i,
        {
            proof {
                vstd::std_specs::vec::axiom_vec_index_decreases(self.entries, i as int);
                assert(decreases_to!(*self => self.entries@[i as int].1));
            }
            let v = self.entries[i].1.duplicate();
            let k = self.entries[i].0.clone();
            out.push((k, v));
            i = i + 1;
        }
        proof {
            lemma_entries_model_congruent(out@, self.entries@);
            assert(keys_of(out@) =~= keys_of(self.entries@));
        }
        ValueMap { entries: out }
    }
}

impl ValueMap {
    /// The keys of the model are those of the entries, finitely many.
    proof fn lemma_dom(&self)
        requires
            self.keys_unique(),
        ensures
            self.model().dom() == self.key_seq().to_set(),
            self.model().dom().finite(),
            self.model().dom().len() == self.key_seq().len(),
    {
        self.lemma_key_seq();
        assert(self.model().dom() =~= self.key_seq().to_set());
    }

    /// Whether the two maps hold the same keys with equal values.
    pub fn equals(&self, other: &ValueMap) -> (r: bool)
        ensures
            r == model_eq(ValueModel::Object(self.model()), ValueModel::Object(other.model())),
        decreases self,
    {
        proof {
            use_type_invariant(self);
            use_type_invariant(other);
            self.lemma_dom();
            other.lemma_dom();
            lemma_entries_model_dom(self.entries@);
        }
        let ghost m = self.model();
        let ghost n = other.model();
        if self.entries.len() != other.entries.len() {
            return false;
        }
        let mut i: usize = 0;
        while i < self.entries.len()
            invariant
                m == self.model(),
                n == other.model(),
                keys_of(self.entries@).no_duplicates(),
                i <= self.entries@.len(),
                forall|j: int|
                    0 <= j < i ==> n.contains_key(#[trigger] self.entries@[j].0@) && model_eq(
                        self.entries@[j].1.model(),
                        n[self.entries@[j].0@],
                    ),
            decreases self.entries@.len() - i,
        {
            proof {
                vstd::std_specs::vec::axiom_vec_index_decreases(self.entries, i as int);
                assert(decreases_to!(*self => self.entries@[i as int].1));
                lemma_entries_model_at(self.entries@, i as int);
            }
            match other.get(self.entries[i].0.as_str()) {
                None => {
                    proof {
                        assert(m.contains_key(self.entries@[i as int].0@));
                        assert(!n.contains_key(self.entries@[i as int].0@));
                    }
                    return false;
                },
                Some(v) => {
                    if !self.entries[i].1.equals(v) {
                        proof {
                            let k = self.entries@[i as int].0@;
                            assert(m.contains_key(k));
                        }
                        return false;
                    }
                },
            }
            i = i + 1;
        }
        proof {
            assert(m.dom().subset_of(n.dom())) by {
                assert forall|k: Seq<char>| m.dom().contains(k) implies n.dom().contains(k) by {
                    let j = choose|j: int| 0 <= j < keys_of(self.entries@).len() && keys_of(self.entries@)[j] == k;
                    assert(self.entries@[j].0@ == k);
                }
            }
            vstd::set_lib::lemma_subset_equality(m.dom(), n.dom());
            assert forall|k: Seq<char>| #[trigger] m.contains_key(k) implies model_eq(m[k], n[k]) by {
                let j = choose|j: int| 0 <= j < keys_of(self.entries@).len() && keys_of(self.entries@)[j] == k;
                assert(self.entries@[j].0@ == k);
                lemma_entries_model_at(self.entries@, j);
            }
        }
        true
    }
}

impl Clone for ValueMap {
    fn clone(&self) -> (r: Self)
        ensures
            r.model() == self.model(),
            r.key_seq() == self.key_seq(),
    {
        self.duplicate()
    }
}

impl Value {
    /// What the value holds.
    pub open spec fn model(&self) -> ValueModel
        decreases self,
    {
        match self {
            Value::Null => ValueModel::Null,
            Value::Bool(b) => ValueModel::Bool(*b),
            Value::Int(i) => ValueModel::Int(*i as int),
            Value::Float(f) => ValueModel::Float(*f),
            Value::String(s) => ValueModel::Str(s@),
            Value::Array(v) => ValueModel::Array(models_of(v@)),
            Value::Object(m) => ValueModel::Object(m.model()),
            Value::Bytes(b) => ValueModel::Bytes(b@),
        }
    }

    /// A deep copy with the same model.
    pub fn duplicate(&self) -> (r: Value)
        ensures
            r.model() == self.model(),
        decreases self,
    {
        match self {
            Value::Null => Value::Null,
            Value::Bool(b) => Value::Bool(*b),
            Value::Int(i) => Value::Int(*i),
            Value::Float(f) => Value::Float(*f),
            Value::String(s) => Value::String(s.clone()),
            Value::Array(v) => {
                let mut out: Vec<Value> = Vec::new();
                let mut i: usize = 0;
                while i < v.len()
                    invariant
                        *self == Value::Array(*v),
                        i <= v@.len(),
                        out@.len() == i,
                        forall|j: int| 0 <= j < i ==> #[trigger] out@[j].model() == v@[j].model(),
                    decreases v@.len() - i,
                {
                    proof {
                        let vv = self->Array_0;
                        assert(vv == *v);
                        vstd::std_specs::vec::axiom_vec_index_decreases(vv, i as int);
                        assert(decreases_to!(*self => vv));
                        assert(decreases_to!(*self => vv[i as int]));
                    }
                    let c = v[i].duplicate();
                    out.push(c);
                    i = i + 1;
                }
                assert forall|j: int| 0 <= j < out@.len() implies models_of(out@)[j]
                    == models_of(v@)[j] by {
                    assert(out@[j].model() == v@[j].model());
                }
                assert(models_of(out@) =~= models_of(v@));
                Value::Array(out)
            },
            Value::Object(m) => Value::Object(m.duplicate()),
            Value::Bytes(b) => Value::Bytes(b.clone()),
        }
    }

    /// Structural equality: same variant and equal contents. Floats compare
    /// as IEEE-754 numbers (a NaN equals nothing, the two zeros are equal)
    /// and objects as maps, whatever the order of their entries.
    pub fn equals(&self, other: &Value) -> (r: bool)
        ensures
            r == model_eq(self.model(), other.model()),
        decreases self,
    {
        match (self, other) {
            (Value::Null, Value::Null) => true,
            (Value::Bool(a), Value::Bool(b)) => *a == *b,
            (Value::Int(a), Value::Int(b)) => *a == *b,
            (Value::Float(a), Value::Float(b)) => {
                let (a, b) = (*a, *b);
                let a_nan = (a >> 52u64) & 0x7ffu64 == 0x7ffu64 && a & 0xf_ffff_ffff_ffffu64 != 0;
                let b_nan = (b >> 52u64) & 0x7ffu64 == 0x7ffu64 && b & 0xf_ffff_ffff_ffffu64 != 0;
                let both_zero = a & 0x7fff_ffff_ffff_ffffu64 == 0 && b & 0x7fff_ffff_ffff_ffffu64 == 0;
                !a_nan && !b_nan && (a == b || both_zero)
            },
            (Value::String(a), Value::String(b)) => *a == *b,
            (Value::Bytes(a), Value::Bytes(b)) => {
                if a.len() != b.len() {
                    return false;
                }
                let mut i: usize = 0;
                while i < a.len()
                    invariant
                        *self == Value::Bytes(*a),
                        *other == Value::Bytes(*b),
                        a@.len() == b@.len(),
                        i <= a@.len(),
                        forall|j: int| 0 <= j < i ==> a@[j] == b@[j],
                    decreases a@.len() - i,
                {
                    if a[i] != b[i] {
                        proof {
                            assert(a@ != b@ && a@[i as int] != b@[i as int]);
                        }
                        return false;
                    }
                    i = i + 1;
                }
                assert(a@ =~= b@);
                true
            },
            (Value::Array(a), Value::Array(b)) => {
                if a.len() != b.len() {
                    return false;
                }
                let mut i: usize = 0;
                while i < a.len()
                    invariant
                        *self == Value::Array(*a),
                        *other == Value::Array(*b),
                        a@.len() == b@.len(),
                        i <= a@.len(),
                        forall|j: int| 0 <= j < i ==> model_eq(#[trigger] a@[j].model(), b@[j].model()),
                    decreases a@.len() - i,
                {
                    proof {
                        let vv = self->Array_0;
                        vstd::std_specs::vec::axiom_vec_index_decreases(vv, i as int);
                        assert(decreases_to!(*self => vv));
                        assert(decreases_to!(*self => vv[i as int]));
                    }
                    if !a[i].equals(&b[i]) {
                        proof {
                            assert(models_of(a@)[i as int] == a@[i as int].model());
                            assert(models_of(b@)[i as int] == b@[i as int].model());
                        }
                        return false;
                    }
                    i = i + 1;
                }
                proof {
                    assert forall|j: int| 0 <= j < models_of(a@).len() implies model_eq(
                        #[trigger] models_of(a@)[j],
                        models_of(b@)[j],
                    ) by {
                        assert(models_of(a@)[j] == a@[j].model());
                        assert(models_of(b@)[j] == b@[j].model());
                    }
                }
                true
            },
            (Value::Object(m), Value::Object(n)) => m.equals(n),
            _ => false,
        }
    }

    pub fn is_null(&self) -> (r: bool)
        ensures
            r == (self.model() is Null),
    {
        match self {
            Value::Null => true,
            _ => false,
        }
    }

    pub fn as_bool(&self) -> (r: Option<bool>)
        ensures
            r == (match self.model() {
                ValueModel::Bool(b) => Some(b),
                _ => None,
            }),
    {
        match self {
            Value::Bool(b) => Some(*b),
            _ => None,
        }
    }

    pub fn as_int(&self) -> (r: Option<i64>)
        ensures
            match self.model() {
                ValueModel::Int(i) => r == Some(i as i64) && r.unwrap() as int == i,
                _ => r is None,
            },
    {
        match self {
            Value::Int(i) => Some(*i),
            _ => None,
        }
    }

    pub fn as_str(&self) -> (r: Option<&str>)
        ensures
            match self.model() {
                ValueModel::Str(s) => r is Some && r.unwrap()@ == s,
                _ => r is None,
            },
    {
        match self {
            Value::String(s) => Some(s.as_str()),
            _ => None,
        }
    }

    pub fn as_array(&self) -> (r: Option<&Vec<Value>>)
        ensures
            match self.model() {
                ValueModel::Array(s) => r is Some && models_of(r.unwrap()@) == s,
                _ => r is None,
            },
    {
        match self {
            Value::Array(v) => Some(v),
            _ => None,
        }
    }

    pub fn as_object(&self) -> (r: Option<&ValueMap>)
        ensures
            match self.model() {
                ValueModel::Object(m) => r is Some && r.unwrap().model() == m,
                _ => r is None,
            },
    {
        match self {
            Value::Object(m) => Some(m),
            _ => None,
        }
    }
}

impl PartialEq for Value {
    fn eq(&self, other: &Value) -> (r: bool) {
        self.equals(other)
    }
}

impl vstd::std_specs::cmp::PartialEqSpecImpl for Value {
    open spec fn obeys_eq_spec() -> bool {
        true
    }

    open spec fn eq_spec(&self, other: &Value) -> bool {
        model_eq(self.model(), other.model())
    }
}

impl PartialEq for ValueMap {
    fn eq(&self, other: &ValueMap) -> (r: bool) {
        self.equals(other)
    }
}

impl vstd::std_specs::cmp::PartialEqSpecImpl for ValueMap {
    open spec fn obeys_eq_spec() -> bool {
        true
    }

    open spec fn eq_spec(&self, other: &ValueMap) -> bool {
        model_eq(ValueModel::Object(self.model()), ValueModel::Object(other.model()))
    }
}

impl From<bool> for Value {
    fn from(b: bool) -> (r: Value) {
        Value::Bool(b)
    }
}

impl vstd::std_specs::convert::FromSpecImpl<bool> for Value {
    open spec fn obeys_from_spec() -> bool {
        true
    }

    open spec fn from_spec(b: bool) -> Value {
        Value::Bool(b)
    }
}

impl From<i32> for Value {
    fn from(i: i32) -> (r: Value) {
        Value::Int(i as i64)
    }
}

impl vstd::std_specs::convert::FromSpecImpl<i32> for Value {
    open spec fn obeys_from_spec() -> bool {
        true
    }

    open spec fn from_spec(i: i32) -> Value {
        Value::Int(i as i64)
    }
}

impl From<i64> for Value {
    fn from(i: i64) -> (r: Value) {
        Value::Int(i)
    }
}

impl vstd::std_specs::convert::FromSpecImpl<i64> for Value {
    open spec fn obeys_from_spec() -> bool {
        true
    }

    open spec fn from_spec(i: i64) -> Value {
        Value::Int(i)
    }
}

impl From<String> for Value {
    fn from(s: String) -> (r: Value) {
        Value::String(s)
    }
}

impl vstd::std_specs::convert::FromSpecImpl<String> for Value {
    open spec fn obeys_from_spec() -> bool {
        true
    }

    open spec fn from_spec(s: String) -> Value {
        Value::String(s)
    }
}

impl From<&str> for Value {
    fn from(s: &str) -> (r: Value)
        ensures
            r.model() == ValueModel::Str(s@),
    {
        Value::String(s.to_owned())
    }
}

/// A string value built from a `&str` has no spec-level term of its own; what
/// `from` returns is stated by its `ensures` over the model instead.
impl vstd::std_specs::convert::FromSpecImpl<&str> for Value {
    open spec fn obeys_from_spec() -> bool {
        false
    }

    open spec fn from_spec(s: &str) -> Value {
        arbitrary()
    }
}

impl Clone for Value {
    fn clone(&self) -> (r: Self)
        ensures
            r.model() == self.model(),
    {
        self.duplicate()
    }
}

} // verus!
