//! The value of a cell.
use crate::entity::InstanceId;
use crate::float64::of_int;
use crate::float64::F64;
use std::cmp::Ordering;
use vstd::prelude::*;

verus! {

/// The value of one cell.
#[derive(Debug)]
pub enum Value {
    /// A reference whose target died, or a field that was never written.
    Null,
    Bool(bool),
    Int(i64),
    Float(F64),
    Str(String),
    /// An instance reference. The generation takes part in equality.
    Ref(InstanceId),
    /// A structured cell, read by field path.
    Dict(Dict),
    /// A vector, read by the paths `x`, `y`, `z`.
    Vec3([F64; 3]),
    /// A quaternion, read by the paths `x`, `y`, `z`, `w`.
    Quat([F64; 4]),
}

/// Values under keys. No key occurs twice.
#[derive(Debug)]
pub struct Dict {
    entries: Vec<(String, Value)>,
}

impl Dict {
    pub closed spec fn pairs(self) -> Seq<(String, Value)> {
        self.entries@
    }

    /// The keys are distinct, here and in every value below.
    #[verifier::type_invariant]
    spec fn keyed(self) -> bool {
        val_of(Value::Dict(self)).keyed()
    }
}

/// What a `Value` holds.
pub enum Val {
    Null,
    Bool(bool),
    Int(i64),
    Float(F64),
    Str(Seq<char>),
    Ref(InstanceId),
    Dict(Seq<(Seq<char>, Val)>),
    Vec3(F64, F64, F64),
    Quat(F64, F64, F64, F64),
}

impl View for Value {
    type V = Val;

    open spec fn view(&self) -> Val {
        val_of(*self)
    }
}

pub open spec fn val_of(v: Value) -> Val
    decreases v,
{
    match v {
        Value::Null => Val::Null,
        Value::Bool(b) => Val::Bool(b),
        Value::Int(i) => Val::Int(i),
        Value::Float(f) => Val::Float(f),
        Value::Str(s) => Val::Str(s@),
        Value::Ref(r) => Val::Ref(r),
        Value::Dict(m) => Val::Dict(
            Seq::new(
                m.pairs().len(),
                |i: int|
                    if 0 <= i < m.pairs().len() {
                        (m.pairs()[i].0@, val_of(m.pairs()[i].1))
                    } else {
                        arbitrary()
                    },
            ),
        ),
        Value::Vec3(a) => Val::Vec3(a@[0], a@[1], a@[2]),
        Value::Quat(a) => Val::Quat(a@[0], a@[1], a@[2], a@[3]),
    }
}

/// The views of a sequence of values.
pub open spec fn vals_of(vs: Seq<Value>) -> Seq<Val> {
    Seq::new(vs.len(), |i: int| vs[i]@)
}

/// The texts of a path.
pub open spec fn path_of(p: Seq<String>) -> Seq<Seq<char>> {
    Seq::new(p.len(), |i: int| p[i]@)
}

/// The index of the first entry with the key `key`, or the length where there is none.
pub open spec fn entry_at(m: Seq<(Seq<char>, Val)>, key: Seq<char>) -> int
    decreases m.len(),
{
    if m.len() == 0 {
        0
    } else if m[0].0 == key {
        0
    } else {
        1 + entry_at(m.drop_first(), key)
    }
}

pub proof fn lemma_entry_at(m: Seq<(Seq<char>, Val)>, key: Seq<char>, n: int)
    requires
        0 <= n <= m.len(),
        forall|i: int| 0 <= i < n ==> (#[trigger] m[i]).0 != key,
        n < m.len() ==> m[n].0 == key,
    ensures
        entry_at(m, key) == n,
    decreases n,
{
    if n > 0 {
        let t = m.drop_first();
        assert forall|i: int| 0 <= i < n - 1 implies (#[trigger] t[i]).0 != key by {
            assert(t[i] == m[i + 1]);
        }
        if n < m.len() {
            assert(t[n - 1] == m[n]);
        }
        lemma_entry_at(t, key, n - 1);
    }
}

/// The component that a path names in a vector of `n` numbers.
pub open spec fn component_index(seg: Seq<char>) -> int {
    if seg.len() != 1 {
        -1
    } else if seg[0] == 'x' {
        0
    } else if seg[0] == 'y' {
        1
    } else if seg[0] == 'z' {
        2
    } else if seg[0] == 'w' {
        3
    } else {
        -1
    }
}

/// The component that `path` names in `a`, or null.
pub open spec fn component_val(a: Seq<F64>, path: Seq<Seq<char>>) -> Val {
    let i = component_index(path[0]);
    if path.len() != 1 || i < 0 || i >= a.len() {
        Val::Null
    } else {
        Val::Float(a[i])
    }
}

impl Val {
    /// The value under a field path. The empty path is the value itself; a path that leads
    /// nowhere is null.
    pub open spec fn get_path(self, path: Seq<Seq<char>>) -> Val
        decreases path.len(),
    {
        if path.len() == 0 {
            self
        } else {
            match self {
                Val::Dict(m) => {
                    let i = entry_at(m, path[0]);
                    if 0 <= i < m.len() {
                        m[i].1.get_path(path.drop_first())
                    } else {
                        Val::Null
                    }
                },
                Val::Vec3(x, y, z) => component_val(seq![x, y, z], path),
                Val::Quat(x, y, z, w) => component_val(seq![x, y, z, w], path),
                _ => Val::Null,
            }
        }
    }

    /// The value as a number: integers, floats and booleans have one.
    pub open spec fn num(self) -> Option<F64> {
        match self {
            Val::Int(i) => Some(of_int(i as int)),
            Val::Float(f) => Some(f),
            Val::Bool(b) => Some(of_int(if b {
                1
            } else {
                0
            })),
            _ => None,
        }
    }

    /// How two numbers compare. Anything that is no number, or is NaN, compares to nothing.
    pub open spec fn ordered(self, other: Val) -> Option<Ordering> {
        match (self.num(), other.num()) {
            (Some(a), Some(b)) => if a.flt(b) {
                Some(Ordering::Less)
            } else if a.feq(b) {
                Some(Ordering::Equal)
            } else if b.flt(a) {
                Some(Ordering::Greater)
            } else {
                None
            },
            _ => None,
        }
    }

    /// The value as an integer: integers as they are, floats without their fraction.
    pub open spec fn int_of(self) -> Option<i64> {
        match self {
            Val::Int(i) => Some(i),
            Val::Float(f) => Some(f.trunc_spec()),
            _ => None,
        }
    }

    pub open spec fn ref_id(self) -> Option<InstanceId> {
        match self {
            Val::Ref(r) => Some(r),
            _ => None,
        }
    }

    /// No key of a dictionary occurs twice, here and in every value below.
    pub open spec fn keyed(self) -> bool
        decreases self,
    {
        match self {
            Val::Dict(m) => unique_keys(m) && forall|i: int|
                0 <= i < m.len() ==> (#[trigger] m[i]).1.keyed(),
            _ => true,
        }
    }

    /// Equality of values: floats by IEEE equality, dictionaries by what they map.
    pub open spec fn same(self, other: Val) -> bool
        decreases self,
    {
        match (self, other) {
            (Val::Null, Val::Null) => true,
            (Val::Bool(a), Val::Bool(b)) => a == b,
            (Val::Int(a), Val::Int(b)) => a == b,
            (Val::Float(a), Val::Float(b)) => a.feq(b),
            (Val::Str(a), Val::Str(b)) => a == b,
            (Val::Ref(a), Val::Ref(b)) => a == b,
            (Val::Dict(a), Val::Dict(b)) => {
                &&& a.len() == b.len()
                &&& forall|i: int|
                    0 <= i < a.len() ==> {
                        let j = entry_at(b, (#[trigger] a[i]).0);
                        0 <= j < b.len() && a[i].1.same(b[j].1)
                    }
            },
            (Val::Vec3(a0, a1, a2), Val::Vec3(b0, b1, b2)) => a0.feq(b0) && a1.feq(b1) && a2.feq(
                b2,
            ),
            (Val::Quat(a0, a1, a2, a3), Val::Quat(b0, b1, b2, b3)) => a0.feq(b0) && a1.feq(b1)
                && a2.feq(b2) && a3.feq(b3),
            _ => false,
        }
    }

    /// Equality in conditions: numbers of any kind by their value, the rest by `same`.
    pub open spec fn equals(self, other: Val) -> bool {
        match (self.num(), other.num()) {
            (Some(a), Some(b)) => a.feq(b),
            _ => self.same(other),
        }
    }
}

/// The index of the first entry with the key `key`.
fn find_entry(m: &Vec<(String, Value)>, key: &String) -> (r: usize)
    ensures
        r <= m.len(),
        r == entry_at(pairs_of(m@), key@),
{
    let ghost d = pairs_of(m@);
    let mut i: usize = 0;
    while i < m.len()
        invariant
            i <= m.len(),
            d == pairs_of(m@),
            d.len() == m@.len(),
            forall|j: int| 0 <= j < m@.len() ==> (#[trigger] d[j]).0 == m@[j].0@,
            forall|j: int| 0 <= j < i ==> (#[trigger] d[j]).0 != key@,
        ensures
            i <= m.len(),
            i < m.len() ==> d[i as int].0 == key@,
        decreases m.len() - i,
    {
        if m[i].0 == *key {
            break;
        }
        i = i + 1;
    }
    proof {
        lemma_entry_at(d, key@, i as int);
    }
    i
}

/// The component of a vector or a quaternion that the rest of a path names.
fn component(a: &[F64], seg: &String, last: bool) -> (r: Value)
    ensures
        r@ == (if last && 0 <= component_index(seg@) < a@.len() {
            Val::Float(a@[component_index(seg@)])
        } else {
            Val::Null
        }),
{
    let s = seg.as_str();
    if !last || s.unicode_len() != 1 {
        return Value::Null;
    }
    let i: usize = match s.get_char(0) {
        'x' => 0,
        'y' => 1,
        'z' => 2,
        'w' => 3,
        _ => return Value::Null,
    };
    if i < a.len() {
        Value::Float(a[i])
    } else {
        Value::Null
    }
}

/// The value of the first entry with the key `key`.
pub open spec fn lookup(m: Seq<(Seq<char>, Val)>, key: Seq<char>) -> Option<Val> {
    let i = entry_at(m, key);
    if 0 <= i < m.len() {
        Some(m[i].1)
    } else {
        None
    }
}

/// No key occurs twice.
pub open spec fn unique_keys(m: Seq<(Seq<char>, Val)>) -> bool {
    forall|i: int, j: int| 0 <= i < j < m.len() ==> (#[trigger] m[i]).0 != (#[trigger] m[j]).0
}

/// The views of pairs of a text and a value.
pub open spec fn pairs_of(m: Seq<(String, Value)>) -> Seq<(Seq<char>, Val)> {
    Seq::new(m.len(), |i: int| (m[i].0@, m[i].1@))
}

proof fn lemma_entry_at_bounds(m: Seq<(Seq<char>, Val)>, key: Seq<char>)
    ensures
        0 <= entry_at(m, key) <= m.len(),
        forall|i: int| 0 <= i < entry_at(m, key) ==> (#[trigger] m[i]).0 != key,
        entry_at(m, key) < m.len() ==> m[entry_at(m, key)].0 == key,
    decreases m.len(),
{
    if m.len() > 0 && m[0].0 != key {
        let t = m.drop_first();
        lemma_entry_at_bounds(t, key);
        assert forall|i: int| 0 <= i < entry_at(m, key) implies (#[trigger] m[i]).0 != key by {
            if i > 0 {
                assert(t[i - 1] == m[i]);
            }
        }
    }
}

proof fn lemma_lookup_push(m: Seq<(Seq<char>, Val)>, e: (Seq<char>, Val), key: Seq<char>)
    ensures
        lookup(m.push(e), key) == (if lookup(m, key) is Some {
            lookup(m, key)
        } else if e.0 == key {
            Some(e.1)
        } else {
            None
        }),
{
    lemma_entry_at_bounds(m, key);
    let n = entry_at(m, key);
    let p = m.push(e);
    assert forall|i: int| 0 <= i < n implies (#[trigger] p[i]).0 != key by {
        assert(p[i] == m[i]);
    }
    if n < m.len() {
        assert(p[n] == m[n]);
        lemma_entry_at(p, key, n);
    } else if e.0 == key {
        lemma_entry_at(p, key, n);
    } else {
        lemma_entry_at(p, key, n + 1);
    }
}

impl Value {
    pub fn str(s: &str) -> (r: Value)
        ensures
            r@ == Val::Str(s@),
    {
        Value::Str(s.to_owned())
    }

    /// A structured value. Of several pairs with one key the last counts.
    pub fn map(pairs: Vec<(String, Value)>) -> (r: Value)
        ensures
            r@ is Dict,
            r@.keyed(),
            forall|key: Seq<char>| #[trigger]
                lookup(r@->Dict_0, key) == lookup(pairs_of(pairs@).reverse(), key),
    {
        let ghost all = pairs_of(pairs@).reverse();
        let mut rest = pairs;
        let mut out: Vec<(String, Value)> = Vec::new();
        assert(all.take(0).len() == 0);
        assert(pairs_of(out@).len() == 0);
        while rest.len() > 0
            invariant
                rest@.len() <= pairs@.len(),
                rest@ =~= pairs@.take(rest@.len() as int),
                all == pairs_of(pairs@).reverse(),
                unique_keys(pairs_of(out@)),
                forall|k: int| 0 <= k < out@.len() ==> (#[trigger] out@[k]).1@.keyed(),
                forall|key: Seq<char>| #[trigger]
                    lookup(pairs_of(out@), key) == lookup(all.take(pairs@.len() - rest@.len()), key),
            decreases rest.len(),
        {
            let ghost n = pairs@.len() - rest@.len();
            let ghost before = pairs_of(out@);
            let e = rest.pop().unwrap();
            e.1.observe_keys();
            let ghost pe = (e.0@, e.1@);
            proof {
                assert(all[n] == pe);
                assert(all.take(n + 1) =~= all.take(n).push(pe));
                assert forall|key: Seq<char>| #[trigger]
                    lookup(all.take(n + 1), key) == (if lookup(before, key) is Some {
                        lookup(before, key)
                    } else if pe.0 == key {
                        Some(pe.1)
                    } else {
                        None
                    }) by {
                    assert(lookup(before, key) == lookup(all.take(n), key));
                    lemma_lookup_push(all.take(n), pe, key);
                }
            }
            let j = find_entry(&out, &e.0);
            proof {
                lemma_entry_at_bounds(before, pe.0);
            }
            if j == out.len() {
                out.push(e);
                proof {
                    assert(pairs_of(out@) =~= before.push(pe));
                    assert forall|key: Seq<char>| #[trigger]
                        lookup(pairs_of(out@), key) == lookup(all.take(n + 1), key) by {
                        lemma_lookup_push(before, pe, key);
                    }
                }
            }
        }
        proof {
            assert(all.take(pairs@.len() as int) =~= all);
        }
        Value::of_entries(out)
    }

    /// The keys of a value are distinct: its type has it so.
    fn observe_keys(&self)
        ensures
            self@.keyed(),
    {
        if let Value::Dict(d) = self {
            proof {
                use_type_invariant(d);
            }
        }
    }

    /// A structured value with these entries.
    fn of_entries(entries: Vec<(String, Value)>) -> (r: Value)
        requires
            unique_keys(pairs_of(entries@)),
            forall|k: int| 0 <= k < entries@.len() ==> (#[trigger] entries@[k]).1@.keyed(),
        ensures
            r@ == Val::Dict(pairs_of(entries@)),
            r@.keyed(),
    {
        proof {
            let v = Value::Dict(Dict { entries });
            assert(v@->Dict_0 =~= pairs_of(entries@));
        }
        let r = Value::Dict(Dict { entries });
        proof {
            assert(r@->Dict_0 =~= pairs_of(entries@));
        }
        r
    }

    /// A vector literal.
    pub fn vec3(x: F64, y: F64, z: F64) -> (r: Value)
        ensures
            r@ == Val::Vec3(x, y, z),
    {
        Value::Vec3([x, y, z])
    }

    /// A quaternion literal.
    pub fn quat(x: F64, y: F64, z: F64, w: F64) -> (r: Value)
        ensures
            r@ == Val::Quat(x, y, z, w),
    {
        Value::Quat([x, y, z, w])
    }

    /// The quaternion of no rotation.
    pub fn quat_identity() -> (r: Value)
        ensures
            r@ == Val::Quat(of_int(0), of_int(0), of_int(0), of_int(1)),
    {
        let z = F64::from_i64(0);
        Value::Quat([z, z, z, F64::from_i64(1)])
    }

    pub fn as_vec3(&self) -> (r: Option<[F64; 3]>)
        ensures
            r is Some <==> self@ is Vec3,
            r is Some ==> self@ == Val::Vec3(r->0@[0], r->0@[1], r->0@[2]),
    {
        match self {
            Value::Vec3(a) => Some(*a),
            _ => None,
        }
    }

    pub fn as_quat(&self) -> (r: Option<[F64; 4]>)
        ensures
            r is Some <==> self@ is Quat,
            r is Some ==> self@ == Val::Quat(r->0@[0], r->0@[1], r->0@[2], r->0@[3]),
    {
        match self {
            Value::Quat(a) => Some(*a),
            _ => None,
        }
    }

    /// The value under a field path, copied.
    pub fn get_path(&self, path: &Vec<String>) -> (r: Value)
        ensures
            r@ == self@.get_path(path_of(path@)),
    {
        let ghost whole = path_of(path@);
        let mut cur = self;
        let mut i: usize = 0;
        assert(whole.skip(0) =~= whole);
        while i < path.len()
            invariant
                i <= path.len(),
                whole == path_of(path@),
                self@.get_path(whole) == cur@.get_path(whole.skip(i as int)),
            decreases path.len() - i,
        {
            let seg = &path[i];
            let ghost rest = whole.skip(i as int);
            proof {
                assert(rest.len() == path.len() - i);
                assert(rest[0] == seg@);
                assert(rest.drop_first() =~= whole.skip(i + 1));
            }
            match cur {
                Value::Dict(d) => {
                    let m = &d.entries;
                    assert(cur@->Dict_0 =~= pairs_of(m@));
                    let j = find_entry(m, seg);
                    if j < m.len() {
                        cur = &m[j].1;
                    } else {
                        return Value::Null;
                    }
                },
                Value::Vec3(a) => {
                    proof {
                        assert(seq![a@[0], a@[1], a@[2]] =~= a@);
                    }
                    return component(a.as_slice(), seg, i + 1 == path.len());
                },
                Value::Quat(a) => {
                    proof {
                        assert(seq![a@[0], a@[1], a@[2], a@[3]] =~= a@);
                    }
                    return component(a.as_slice(), seg, i + 1 == path.len());
                },
                _ => {
                    return Value::Null;
                },
            }
            i = i + 1;
        }
        assert(whole.skip(i as int).len() == 0);
        cur.clone()
    }

    /// The value as a number.
    pub fn as_f64(&self) -> (r: Option<F64>)
        ensures
            r == self@.num(),
    {
        match self {
            Value::Int(i) => Some(F64::from_i64(*i)),
            Value::Float(f) => Some(*f),
            Value::Bool(b) => Some(F64::from_i64(if *b {
                1
            } else {
                0
            })),
            _ => None,
        }
    }

    pub fn as_ref_id(&self) -> (r: Option<InstanceId>)
        ensures
            r == self@.ref_id(),
    {
        match self {
            Value::Ref(r) => Some(*r),
            _ => None,
        }
    }

    pub fn as_i64(&self) -> (r: Option<i64>)
        ensures
            r == self@.int_of(),
            r == (match self@ {
                Val::Int(i) => Some(i),
                Val::Float(f) => Some(f.trunc_spec()),
                _ => None,
            }),
    {
        match self {
            Value::Int(i) => Some(*i),
            Value::Float(f) => Some(f.trunc_i64()),
            _ => None,
        }
    }

    pub fn as_str(&self) -> (r: Option<&str>)
        ensures
            r is Some <==> self@ is Str,
            r is Some ==> self@ == Val::Str(r->0@),
    {
        match self {
            Value::Str(s) => Some(s.as_str()),
            _ => None,
        }
    }

    pub fn as_bool(&self) -> (r: Option<bool>)
        ensures
            r == (match self@ {
                Val::Bool(b) => Some(b),
                _ => None,
            }),
    {
        match self {
            Value::Bool(b) => Some(*b),
            _ => None,
        }
    }

    /// Compares two numbers. Anything that is no number, or is NaN, compares to nothing.
    pub fn cmp_num(&self, other: &Value) -> (r: Option<Ordering>)
        ensures
            r == self@.ordered(other@),
            r == (match (self@.num(), other@.num()) {
                (Some(a), Some(b)) => if a.flt(b) {
                    Some(Ordering::Less)
                } else if a.feq(b) {
                    Some(Ordering::Equal)
                } else if b.flt(a) {
                    Some(Ordering::Greater)
                } else {
                    None
                },
                _ => None,
            }),
    {
        match (self.as_f64(), other.as_f64()) {
            (Some(a), Some(b)) => if a.lt(b) {
                Some(Ordering::Less)
            } else if F64::eq(a, b) {
                Some(Ordering::Equal)
            } else if b.lt(a) {
                Some(Ordering::Greater)
            } else {
                None
            },
            _ => None,
        }
    }

    /// Equality of values, as `==` has it.
    fn is_same(&self, other: &Value) -> (r: bool)
        ensures
            r == self@.same(other@),
        decreases self,
    {
        match (self, other) {
            (Value::Null, Value::Null) => true,
            (Value::Bool(a), Value::Bool(b)) => *a == *b,
            (Value::Int(a), Value::Int(b)) => *a == *b,
            (Value::Float(a), Value::Float(b)) => F64::eq(*a, *b),
            (Value::Str(a), Value::Str(b)) => *a == *b,
            (Value::Ref(a), Value::Ref(b)) => *a == *b,
            (Value::Dict(d), Value::Dict(e)) => {
                let a = &d.entries;
                let b = &e.entries;
                let ghost da = self@->Dict_0;
                let ghost db = other@->Dict_0;
                proof {
                    assert(da =~= pairs_of(a@));
                    assert(db =~= pairs_of(b@));
                }
                if a.len() != b.len() {
                    return false;
                }
                let mut i: usize = 0;
                while i < a.len()
                    invariant
                        i <= a.len(),
                        a.len() == b.len(),
                        *self == Value::Dict(*d),
                        *other == Value::Dict(*e),
                        *a == d.entries,
                        *b == e.entries,
                        da == pairs_of(a@),
                        db == pairs_of(b@),
                        da == self@->Dict_0,
                        db == other@->Dict_0,
                        forall|k: int|
                            0 <= k < i ==> {
                                let j = entry_at(db, (#[trigger] da[k]).0);
                                0 <= j < db.len() && da[k].1.same(db[j].1)
                            },
                    decreases a.len() - i,
                {
                    let j = find_entry(b, &a[i].0);
                    proof {
                        assert(da[i as int].0 == a@[i as int].0@);
                        assert(da[i as int].1 == a@[i as int].1@);
                        assert(self->Dict_0 == *d);
                        assert(decreases_to!(self => a@[i as int].1));
                    }
                    if j >= b.len() {
                        return false;
                    }
                    assert(db[j as int].1 == b@[j as int].1@);
                    if !a[i].1.is_same(&b[j].1) {
                        return false;
                    }
                    i = i + 1;
                }
                true
            },
            (Value::Vec3(a), Value::Vec3(b)) => F64::eq(a[0], b[0]) && F64::eq(a[1], b[1])
                && F64::eq(a[2], b[2]),
            (Value::Quat(a), Value::Quat(b)) => F64::eq(a[0], b[0]) && F64::eq(a[1], b[1])
                && F64::eq(a[2], b[2]) && F64::eq(a[3], b[3]),
            _ => false,
        }
    }

    /// Whether two values hold the same: floats by their bits, entries in their order.
    pub fn identical(&self, other: &Value) -> (r: bool)
        ensures
            r == (self@ == other@),
        decreases self,
    {
        match (self, other) {
            (Value::Null, Value::Null) => true,
            (Value::Bool(a), Value::Bool(b)) => *a == *b,
            (Value::Int(a), Value::Int(b)) => *a == *b,
            (Value::Float(a), Value::Float(b)) => a.bits == b.bits,
            (Value::Str(a), Value::Str(b)) => *a == *b,
            (Value::Ref(a), Value::Ref(b)) => *a == *b,
            (Value::Dict(d), Value::Dict(e)) => {
                let a = &d.entries;
                let b = &e.entries;
                let ghost da = self@->Dict_0;
                let ghost db = other@->Dict_0;
                proof {
                    assert(da =~= pairs_of(a@));
                    assert(db =~= pairs_of(b@));
                }
                if a.len() != b.len() {
                    assert(da.len() != db.len());
                    return false;
                }
                let mut i: usize = 0;
                while i < a.len()
                    invariant
                        i <= a.len(),
                        a.len() == b.len(),
                        *self == Value::Dict(*d),
                        *other == Value::Dict(*e),
                        *a == d.entries,
                        *b == e.entries,
                        da == pairs_of(a@),
                        db == pairs_of(b@),
                        da == self@->Dict_0,
                        db == other@->Dict_0,
                        forall|k: int| 0 <= k < i ==> #[trigger] da[k] == db[k],
                    decreases a.len() - i,
                {
                    proof {
                        assert(self->Dict_0 == *d);
                        assert(decreases_to!(self => a@[i as int].1));
                        assert(da[i as int] == (a@[i as int].0@, a@[i as int].1@));
                        assert(db[i as int] == (b@[i as int].0@, b@[i as int].1@));
                    }
                    if a[i].0 != b[i].0 || !a[i].1.identical(&b[i].1) {
                        return false;
                    }
                    i = i + 1;
                }
                assert(da =~= db);
                true
            },
            (Value::Vec3(a), Value::Vec3(b)) => a[0].bits == b[0].bits && a[1].bits == b[1].bits
                && a[2].bits == b[2].bits,
            (Value::Quat(a), Value::Quat(b)) => a[0].bits == b[0].bits && a[1].bits == b[1].bits
                && a[2].bits == b[2].bits && a[3].bits == b[3].bits,
            _ => false,
        }
    }

    /// Equality in conditions: `Int(3)` equals `Float(3)`. It goes both ways.
    pub fn val_eq(&self, other: &Value) -> (r: bool)
        ensures
            r == self@.equals(other@),
            r == other@.equals(self@),
    {
        self.observe_keys();
        other.observe_keys();
        proof {
            law_equality_is_symmetric(self@, other@);
        }
        match (self.as_f64(), other.as_f64()) {
            (Some(a), Some(b)) => F64::eq(a, b),
            _ => self.is_same(other),
        }
    }

    fn copy(&self) -> (r: Value)
        ensures
            r@ == self@,
        decreases self,
    {
        match self {
            Value::Null => Value::Null,
            Value::Bool(b) => Value::Bool(*b),
            Value::Int(i) => Value::Int(*i),
            Value::Float(f) => Value::Float(*f),
            Value::Str(s) => Value::Str(s.clone()),
            Value::Ref(r) => Value::Ref(*r),
            Value::Dict(d) => {
                proof {
                    use_type_invariant(d);
                }
                let m = &d.entries;
                assert(self@->Dict_0 =~= pairs_of(m@));
                let mut out: Vec<(String, Value)> = Vec::new();
                let mut i: usize = 0;
                while i < m.len()
                    invariant
                        i <= m.len(),
                        out.len() == i,
                        *self == Value::Dict(*d),
                        *m == d.entries,
                        forall|j: int|
                            0 <= j < i ==> (#[trigger] out@[j]).0@ == m@[j].0@ && out@[j].1@
                                == m@[j].1@,
                    decreases m.len() - i,
                {
                    proof {
                        assert(self->Dict_0 == *d);
                        assert(decreases_to!(self => m@[i as int].1));
                    }
                    out.push((m[i].0.clone(), m[i].1.copy()));
                    i = i + 1;
                }
                proof {
                    assert(pairs_of(out@) =~= pairs_of(m@));
                    assert forall|k: int| 0 <= k < out@.len() implies (
                    #[trigger] out@[k]).1@.keyed() by {
                        assert(self@->Dict_0[k].1.keyed());
                    }
                }
                Value::of_entries(out)
            },
            Value::Vec3(a) => Value::Vec3(*a),
            Value::Quat(a) => Value::Quat(*a),
        }
    }
}

impl Clone for Value {
    fn clone(&self) -> (r: Value)
        ensures
            r@ == self@,
    {
        self.copy()
    }
}

impl Default for Value {
    fn default() -> (r: Value)
        ensures
            r == Value::Null,
    {
        Value::Null
    }
}

impl PartialEq for Value {
    fn eq(&self, other: &Value) -> (r: bool) {
        self.is_same(other)
    }
}

impl vstd::std_specs::cmp::PartialEqSpecImpl for Value {
    open spec fn obeys_eq_spec() -> bool {
        true
    }

    open spec fn eq_spec(&self, other: &Value) -> bool {
        self@.same(other@)
    }
}

impl From<bool> for Value {
    fn from(v: bool) -> (r: Value) {
        Value::Bool(v)
    }
}

impl vstd::std_specs::convert::FromSpecImpl<bool> for Value {
    open spec fn obeys_from_spec() -> bool {
        true
    }

    open spec fn from_spec(v: bool) -> Value {
        Value::Bool(v)
    }
}

impl From<i32> for Value {
    fn from(v: i32) -> (r: Value) {
        Value::Int(v as i64)
    }
}

impl vstd::std_specs::convert::FromSpecImpl<i32> for Value {
    open spec fn obeys_from_spec() -> bool {
        true
    }

    open spec fn from_spec(v: i32) -> Value {
        Value::Int(v as i64)
    }
}

impl From<i64> for Value {
    fn from(v: i64) -> (r: Value) {
        Value::Int(v)
    }
}

impl vstd::std_specs::convert::FromSpecImpl<i64> for Value {
    open spec fn obeys_from_spec() -> bool {
        true
    }

    open spec fn from_spec(v: i64) -> Value {
        Value::Int(v)
    }
}

impl From<F64> for Value {
    fn from(v: F64) -> (r: Value) {
        Value::Float(v)
    }
}

impl vstd::std_specs::convert::FromSpecImpl<F64> for Value {
    open spec fn obeys_from_spec() -> bool {
        true
    }

    open spec fn from_spec(v: F64) -> Value {
        Value::Float(v)
    }
}

impl From<String> for Value {
    fn from(v: String) -> (r: Value) {
        Value::Str(v)
    }
}

impl vstd::std_specs::convert::FromSpecImpl<String> for Value {
    open spec fn obeys_from_spec() -> bool {
        true
    }

    open spec fn from_spec(v: String) -> Value {
        Value::Str(v)
    }
}

impl From<InstanceId> for Value {
    fn from(v: InstanceId) -> (r: Value) {
        Value::Ref(v)
    }
}

impl vstd::std_specs::convert::FromSpecImpl<InstanceId> for Value {
    open spec fn obeys_from_spec() -> bool {
        true
    }

    open spec fn from_spec(v: InstanceId) -> Value {
        Value::Ref(v)
    }
}

impl From<[F64; 3]> for Value {
    fn from(v: [F64; 3]) -> (r: Value) {
        Value::Vec3(v)
    }
}

impl vstd::std_specs::convert::FromSpecImpl<[F64; 3]> for Value {
    open spec fn obeys_from_spec() -> bool {
        true
    }

    open spec fn from_spec(v: [F64; 3]) -> Value {
        Value::Vec3(v)
    }
}

impl From<[F64; 4]> for Value {
    fn from(v: [F64; 4]) -> (r: Value) {
        Value::Quat(v)
    }
}

impl vstd::std_specs::convert::FromSpecImpl<[F64; 4]> for Value {
    open spec fn obeys_from_spec() -> bool {
        true
    }

    open spec fn from_spec(v: [F64; 4]) -> Value {
        Value::Quat(v)
    }
}

impl From<()> for Value {
    fn from(_v: ()) -> (r: Value) {
        Value::Null
    }
}

impl vstd::std_specs::convert::FromSpecImpl<()> for Value {
    open spec fn obeys_from_spec() -> bool {
        true
    }

    open spec fn from_spec(_v: ()) -> Value {
        Value::Null
    }
}

/// The keys of entries.
spec fn keys_of(m: Seq<(Seq<char>, Val)>) -> Seq<Seq<char>> {
    Seq::new(m.len(), |i: int| m[i].0)
}

/// Where as many distinct keys are all among those of the other, they are the same keys.
proof fn lemma_same_keys(a: Seq<(Seq<char>, Val)>, b: Seq<(Seq<char>, Val)>, j: int) -> (i: int)
    requires
        unique_keys(a),
        unique_keys(b),
        a.len() == b.len(),
        forall|i: int| 0 <= i < a.len() ==> entry_at(b, (#[trigger] a[i]).0) < b.len(),
        0 <= j < b.len(),
    ensures
        0 <= i < a.len(),
        a[i].0 == b[j].0,
{
    let x = keys_of(a);
    let y = keys_of(b);
    assert(x.no_duplicates()) by {
        assert forall|p: int, q: int|
            0 <= p < x.len() && 0 <= q < x.len() && p != q implies x[p] != x[q] by {
            if p < q {
                assert(a[p].0 != a[q].0);
            } else {
                assert(a[q].0 != a[p].0);
            }
        }
    }
    assert(y.no_duplicates()) by {
        assert forall|p: int, q: int|
            0 <= p < y.len() && 0 <= q < y.len() && p != q implies y[p] != y[q] by {
            if p < q {
                assert(b[p].0 != b[q].0);
            } else {
                assert(b[q].0 != b[p].0);
            }
        }
    }
    x.unique_seq_to_set();
    y.unique_seq_to_set();
    vstd::seq_lib::seq_to_set_is_finite(x);
    vstd::seq_lib::seq_to_set_is_finite(y);
    assert forall|k: Seq<char>| x.to_set().contains(k) implies y.to_set().contains(k) by {
        let p = choose|p: int| 0 <= p < x.len() && x[p] == k;
        lemma_entry_at_bounds(b, a[p].0);
        let q = entry_at(b, a[p].0);
        assert(y[q] == k);
    }
    vstd::set_lib::lemma_subset_equality(x.to_set(), y.to_set());
    assert(y[j] == b[j].0);
    assert(y.to_set().contains(y[j]));
    assert(x.to_set().contains(y[j]));
    choose|i: int| 0 <= i < x.len() && x[i] == y[j]
}

proof fn lemma_same_turned(a: Val, b: Val)
    requires
        a.keyed(),
        b.keyed(),
        a.same(b),
    ensures
        b.same(a),
    decreases a,
{
    if let (Val::Dict(m), Val::Dict(n)) = (a, b) {
        assert forall|i: int| 0 <= i < m.len() implies entry_at(n, (#[trigger] m[i]).0)
            < n.len() by {}
        assert forall|j: int| 0 <= j < n.len() implies {
            let i = entry_at(m, (#[trigger] n[j]).0);
            0 <= i < m.len() && n[j].1.same(m[i].1)
        } by {
            let i = lemma_same_keys(m, n, j);
            assert forall|k: int| 0 <= k < i implies (#[trigger] m[k]).0 != n[j].0 by {
                assert(m[k].0 != m[i].0);
            }
            lemma_entry_at(m, n[j].0, i);
            assert forall|k: int| 0 <= k < j implies (#[trigger] n[k]).0 != m[i].0 by {
                assert(n[k].0 != n[j].0);
            }
            lemma_entry_at(n, m[i].0, j);
            assert(m[i].1.same(n[j].1));
            assert(m[i].1.keyed() && n[j].1.keyed());
            lemma_same_turned(m[i].1, n[j].1);
        }
    }
}

/// Equality of values goes both ways, and so does equality in conditions.
pub proof fn law_equality_is_symmetric(a: Val, b: Val)
    requires
        a.keyed(),
        b.keyed(),
    ensures
        a.same(b) == b.same(a),
        a.equals(b) == b.equals(a),
{
    if a.same(b) {
        lemma_same_turned(a, b);
    }
    if b.same(a) {
        lemma_same_turned(b, a);
    }
}

}
