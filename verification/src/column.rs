//! Typed columns: the data of one field over all rows, unboxed where its type allows.
//!
//! A column knows row numbers and nothing of instances. Its type is fixed by the field's
//! default; a write of another type turns the column into a boxed one, once and without
//! changing what any row reads.
use crate::float64::F64;
use crate::value::vals_of;
use crate::value::Val;
use crate::value::Value;
use vstd::prelude::*;

verus! {

pub enum Column {
    Bool(Vec<bool>),
    Int(Vec<i64>),
    Float(Vec<F64>),
    Vec3(Vec<[F64; 3]>),
    Quat(Vec<[F64; 4]>),
    /// Values of any kind.
    Boxed(Vec<Value>),
}

impl View for Column {
    type V = Seq<Val>;

    open spec fn view(&self) -> Seq<Val> {
        match *self {
            Column::Bool(c) => Seq::new(c@.len(), |i: int| Val::Bool(c@[i])),
            Column::Int(c) => Seq::new(c@.len(), |i: int| Val::Int(c@[i])),
            Column::Float(c) => Seq::new(c@.len(), |i: int| Val::Float(c@[i])),
            Column::Vec3(c) => Seq::new(
                c@.len(),
                |i: int| Val::Vec3(c@[i]@[0], c@[i]@[1], c@[i]@[2]),
            ),
            Column::Quat(c) => Seq::new(
                c@.len(),
                |i: int| Val::Quat(c@[i]@[0], c@[i]@[1], c@[i]@[2], c@[i]@[3]),
            ),
            Column::Boxed(c) => vals_of(c@),
        }
    }
}

/// `n` copies of `x`.
pub fn filled<T: Copy>(x: T, n: usize) -> (r: Vec<T>)
    ensures
        r@ == Seq::new(n as nat, |i: int| x),
{
    let mut v: Vec<T> = Vec::new();
    while v.len() < n
        invariant
            v@.len() <= n,
            v@ =~= Seq::new(v@.len(), |i: int| x),
        decreases n - v@.len(),
    {
        v.push(x);
    }
    v
}

/// Cuts `v` to `n` items, or fills it up with `x`.
fn resize_to<T: Copy>(v: &mut Vec<T>, n: usize, x: T)
    ensures
        final(v)@ == resized(old(v)@, n as nat, x),
{
    let ghost before = v@;
    if n < v.len() {
        v.truncate(n);
        assert(v@ =~= resized(before, n as nat, x));
    }
    while v.len() < n
        invariant
            before.len() <= n ==> before.len() <= v@.len() <= n,
            before.len() > n ==> v@.len() == n,
            v@ =~= resized(before, v@.len(), x),
        decreases n - v@.len(),
    {
        v.push(x);
    }
}

/// `s` cut or filled up to `n` items.
pub open spec fn resized<T>(s: Seq<T>, n: nat, x: T) -> Seq<T> {
    Seq::new(
        n,
        |i: int|
            if i < s.len() {
                s[i]
            } else {
                x
            },
    )
}

impl Column {
    /// A value of this kind can be stored without boxing the column.
    pub open spec fn accepts(self, v: Val) -> bool {
        match self {
            Column::Bool(_) => v is Bool,
            Column::Int(_) => v is Int,
            Column::Float(_) => v is Float,
            Column::Vec3(_) => v is Vec3,
            Column::Quat(_) => v is Quat,
            Column::Boxed(_) => true,
        }
    }

    /// The column that a field with this default starts with.
    pub fn with_default(default: &Value, n: usize) -> (r: Column)
        ensures
            r@ == Seq::new(n as nat, |i: int| default@),
            r.accepts(default@),
            r is Boxed <==> !(default@ is Bool || default@ is Int || default@ is Float
                || default@ is Vec3 || default@ is Quat),
    {
        let r = match default {
            Value::Bool(b) => Column::Bool(filled(*b, n)),
            Value::Int(i) => Column::Int(filled(*i, n)),
            Value::Float(f) => Column::Float(filled(*f, n)),
            Value::Vec3(a) => Column::Vec3(filled(*a, n)),
            Value::Quat(a) => Column::Quat(filled(*a, n)),
            _ => {
                let mut c: Vec<Value> = Vec::new();
                while c.len() < n
                    invariant
                        c@.len() <= n,
                        vals_of(c@) =~= Seq::new(c@.len(), |i: int| default@),
                    decreases n - c@.len(),
                {
                    let ghost before = vals_of(c@);
                    c.push(default.clone());
                    assert(vals_of(c@) =~= before.push(default@));
                }
                Column::Boxed(c)
            },
        };
        assert(r@ =~= Seq::new(n as nat, |i: int| default@));
        r
    }

    pub fn len(&self) -> (r: usize)
        ensures
            r == self@.len(),
    {
        match self {
            Column::Bool(c) => c.len(),
            Column::Int(c) => c.len(),
            Column::Float(c) => c.len(),
            Column::Vec3(c) => c.len(),
            Column::Quat(c) => c.len(),
            Column::Boxed(c) => c.len(),
        }
    }

    /// Reads a row. Beyond the end everything is null.
    pub fn get(&self, row: usize) -> (r: Value)
        ensures
            r@ == (if row < self@.len() {
                self@[row as int]
            } else {
                Val::Null
            }),
    {
        if row >= self.len() {
            return Value::Null;
        }
        match self {
            Column::Bool(c) => Value::Bool(c[row]),
            Column::Int(c) => Value::Int(c[row]),
            Column::Float(c) => Value::Float(c[row]),
            Column::Vec3(c) => Value::Vec3(c[row]),
            Column::Quat(c) => Value::Quat(c[row]),
            Column::Boxed(c) => c[row].clone(),
        }
    }

    /// Writes a row. A value of another type boxes the column first; the result says so.
    pub fn set(&mut self, row: usize, v: Value) -> (r: bool)
        requires
            row < old(self)@.len(),
        ensures
            final(self)@ == old(self)@.update(row as int, v@),
            r == !old(self).accepts(v@),
            (*final(self)) is Boxed <==> (r || (*old(self)) is Boxed),
            forall|x: Val| old(self).accepts(x) ==> #[trigger] final(self).accepts(x),
    {
        let ghost before = self@;
        let ghost vv = v@;
        match self {
            Column::Bool(c) => {
                if let Value::Bool(b) = &v {
                    c.set(row, *b);
                    assert(self@ =~= before.update(row as int, vv));
                    return false;
                }
            },
            Column::Int(c) => {
                if let Value::Int(i) = &v {
                    c.set(row, *i);
                    assert(self@ =~= before.update(row as int, vv));
                    return false;
                }
            },
            Column::Float(c) => {
                if let Value::Float(f) = &v {
                    c.set(row, *f);
                    assert(self@ =~= before.update(row as int, vv));
                    return false;
                }
            },
            Column::Vec3(c) => {
                if let Value::Vec3(a) = &v {
                    c.set(row, *a);
                    assert(self@ =~= before.update(row as int, vv));
                    return false;
                }
            },
            Column::Quat(c) => {
                if let Value::Quat(a) = &v {
                    c.set(row, *a);
                    assert(self@ =~= before.update(row as int, vv));
                    return false;
                }
            },
            Column::Boxed(c) => {
                c.set(row, v);
                assert(self@ =~= before.update(row as int, vv));
                return false;
            },
        }
        let mut c = self.unboxed_values();
        c.set(row, v);
        assert(vals_of(c@) =~= before.update(row as int, vv));
        *self = Column::Boxed(c);
        true
    }

    /// Appends a row.
    pub fn push(&mut self, v: Value)
        ensures
            final(self)@ == old(self)@.push(v@),
            (*final(self)) is Boxed <==> (!old(self).accepts(v@) || (*old(self)) is Boxed),
            forall|x: Val| old(self).accepts(x) ==> #[trigger] final(self).accepts(x),
    {
        let ghost before = self@;
        let ghost vv = v@;
        match self {
            Column::Bool(c) => {
                if let Value::Bool(b) = &v {
                    c.push(*b);
                    assert(self@ =~= before.push(vv));
                    return;
                }
            },
            Column::Int(c) => {
                if let Value::Int(i) = &v {
                    c.push(*i);
                    assert(self@ =~= before.push(vv));
                    return;
                }
            },
            Column::Float(c) => {
                if let Value::Float(f) = &v {
                    c.push(*f);
                    assert(self@ =~= before.push(vv));
                    return;
                }
            },
            Column::Vec3(c) => {
                if let Value::Vec3(a) = &v {
                    c.push(*a);
                    assert(self@ =~= before.push(vv));
                    return;
                }
            },
            Column::Quat(c) => {
                if let Value::Quat(a) = &v {
                    c.push(*a);
                    assert(self@ =~= before.push(vv));
                    return;
                }
            },
            Column::Boxed(c) => {
                c.push(v);
                assert(self@ =~= before.push(vv));
                return;
            },
        }
        let mut c = self.unboxed_values();
        c.push(v);
        assert(vals_of(c@) =~= before.push(vv));
        *self = Column::Boxed(c);
    }

    /// Cuts the column to `n` rows, or fills it up with `default`.
    pub fn resize(&mut self, n: usize, default: &Value)
        ensures
            final(self)@ == resized(old(self)@, n as nat, default@),
            (*final(self)) is Boxed <==> (!old(self).accepts(default@) || (*old(self)) is Boxed),
            forall|x: Val| old(self).accepts(x) ==> #[trigger] final(self).accepts(x),
    {
        let ghost before = self@;
        match self {
            Column::Bool(c) => {
                if let Value::Bool(b) = default {
                    resize_to(c, n, *b);
                    assert(self@ =~= resized(before, n as nat, default@));
                    return;
                }
            },
            Column::Int(c) => {
                if let Value::Int(i) = default {
                    resize_to(c, n, *i);
                    assert(self@ =~= resized(before, n as nat, default@));
                    return;
                }
            },
            Column::Float(c) => {
                if let Value::Float(f) = default {
                    resize_to(c, n, *f);
                    assert(self@ =~= resized(before, n as nat, default@));
                    return;
                }
            },
            Column::Vec3(c) => {
                if let Value::Vec3(a) = default {
                    resize_to(c, n, *a);
                    assert(self@ =~= resized(before, n as nat, default@));
                    return;
                }
            },
            Column::Quat(c) => {
                if let Value::Quat(a) = default {
                    resize_to(c, n, *a);
                    assert(self@ =~= resized(before, n as nat, default@));
                    return;
                }
            },
            Column::Boxed(c) => {
                resize_boxed(c, n, default);
                assert(self@ =~= resized(before, n as nat, default@));
                return;
            },
        }
        let mut c = self.unboxed_values();
        resize_boxed(&mut c, n, default);
        *self = Column::Boxed(c);
    }

    /// Moves the last row into `row` and shortens the column by one.
    pub fn swap_remove(&mut self, row: usize)
        requires
            row < old(self)@.len(),
        ensures
            final(self)@ == old(self)@.update(row as int, old(self)@.last()).drop_last(),
            (*final(self)) is Boxed <==> (*old(self)) is Boxed,
            forall|x: Val| old(self).accepts(x) <==> #[trigger] final(self).accepts(x),
    {
        let ghost before = self@;
        match self {
            Column::Bool(c) => {
                c.swap_remove(row);
            },
            Column::Int(c) => {
                c.swap_remove(row);
            },
            Column::Float(c) => {
                c.swap_remove(row);
            },
            Column::Vec3(c) => {
                c.swap_remove(row);
            },
            Column::Quat(c) => {
                c.swap_remove(row);
            },
            Column::Boxed(c) => {
                c.swap_remove(row);
            },
        }
        assert(self@ =~= before.update(row as int, before.last()).drop_last());
    }

    /// Drops what a dead row holds on the heap: a boxed column nulls it, an unboxed one has
    /// nothing to drop.
    pub fn clear_row(&mut self, row: usize)
        requires
            row < old(self)@.len(),
        ensures
            final(self)@ == (if (*old(self)) is Boxed {
                old(self)@.update(row as int, Val::Null)
            } else {
                old(self)@
            }),
            (*final(self)) is Boxed <==> (*old(self)) is Boxed,
            forall|x: Val| old(self).accepts(x) <==> #[trigger] final(self).accepts(x),
    {
        let ghost before = self@;
        if let Column::Boxed(c) = self {
            c.set(row, Value::Null);
            assert(self@ =~= before.update(row as int, Val::Null));
        }
    }

    /// The rows of an unboxed boolean column.
    pub fn as_bool_slice(&self) -> (r: Option<&[bool]>)
        ensures
            r is Some <==> self is Bool,
            r is Some ==> self@ == Seq::new(r->0@.len(), |i: int| Val::Bool(r->0@[i])),
    {
        match self {
            Column::Bool(c) => Some(c.as_slice()),
            _ => None,
        }
    }

    /// Every row as a value of its own.
    fn unboxed_values(&self) -> (r: Vec<Value>)
        ensures
            vals_of(r@) == self@,
    {
        let mut out: Vec<Value> = Vec::new();
        let n = self.len();
        let mut i: usize = 0;
        while i < n
            invariant
                n == self@.len(),
                i <= n,
                out@.len() == i,
                forall|j: int| 0 <= j < i ==> (#[trigger] out@[j])@ == self@[j],
            decreases n - i,
        {
            out.push(self.get(i));
            i = i + 1;
        }
        assert(vals_of(out@) =~= self@);
        out
    }
}

fn resize_boxed(c: &mut Vec<Value>, n: usize, default: &Value)
    ensures
        vals_of(final(c)@) == resized(vals_of(old(c)@), n as nat, default@),
{
    let ghost before = vals_of(c@);
    if n < c.len() {
        c.truncate(n);
        assert(vals_of(c@) =~= resized(before, n as nat, default@));
    }
    while c.len() < n
        invariant
            before.len() <= n ==> before.len() <= c@.len() <= n,
            before.len() > n ==> c@.len() == n,
            vals_of(c@) =~= resized(before, c@.len(), default@),
        decreases n - c@.len(),
    {
        let ghost part = vals_of(c@);
        c.push(default.clone());
        assert(vals_of(c@) =~= part.push(default@));
    }
}

impl Clone for Column {
    fn clone(&self) -> (r: Column)
        ensures
            r@ == self@,
            r is Boxed <==> self is Boxed,
            forall|x: Val| self.accepts(x) <==> #[trigger] r.accepts(x),
    {
        let r = match self {
            Column::Bool(c) => Column::Bool(copied(c)),
            Column::Int(c) => Column::Int(copied(c)),
            Column::Float(c) => Column::Float(copied(c)),
            Column::Vec3(c) => Column::Vec3(copied(c)),
            Column::Quat(c) => Column::Quat(copied(c)),
            Column::Boxed(_) => Column::Boxed(self.unboxed_values()),
        };
        assert(r@ =~= self@);
        r
    }
}

/// A copy of a vector of plain items.
pub fn copied<T: Copy>(v: &Vec<T>) -> (r: Vec<T>)
    ensures
        r@ == v@,
{
    let mut out: Vec<T> = Vec::new();
    let mut i: usize = 0;
    while i < v.len()
        invariant
            i <= v@.len(),
            out@ =~= v@.take(i as int),
        decreases v@.len() - i,
    {
        out.push(v[i]);
        i = i + 1;
    }
    assert(out@ =~= v@);
    out
}

/// Every value is of one of the kinds that have an unboxed column.
pub open spec fn all_kind(vs: Seq<Val>, kind: spec_fn(Val) -> bool) -> bool {
    forall|i: int| 0 <= i < vs.len() ==> kind(#[trigger] vs[i])
}

/// The unboxed column type that all values share.
#[derive(Clone, Copy, Debug, PartialEq, Eq, Structural)]
enum Kind {
    Bool,
    Int,
    Float,
    Vec3,
    Quat,
    Other,
}

spec fn kind_of_val(v: Val) -> Kind {
    match v {
        Val::Bool(_) => Kind::Bool,
        Val::Int(_) => Kind::Int,
        Val::Float(_) => Kind::Float,
        Val::Vec3(_, _, _) => Kind::Vec3,
        Val::Quat(_, _, _, _) => Kind::Quat,
        _ => Kind::Other,
    }
}

fn kind_of(v: &Value) -> (r: Kind)
    ensures
        r == kind_of_val(v@),
{
    match v {
        Value::Bool(_) => Kind::Bool,
        Value::Int(_) => Kind::Int,
        Value::Float(_) => Kind::Float,
        Value::Vec3(_) => Kind::Vec3,
        Value::Quat(_) => Kind::Quat,
        _ => Kind::Other,
    }
}

impl Column {
    pub fn is_empty(&self) -> (r: bool)
        ensures
            r == (self@.len() == 0),
    {
        self.len() == 0
    }

    /// A column of one value.
    pub fn splat(value: Value, lanes: usize) -> (r: Column)
        ensures
            r@ == Seq::new(lanes as nat, |i: int| value@),
            r is Boxed <==> !(value@ is Bool || value@ is Int || value@ is Float || value@ is Vec3
                || value@ is Quat),
    {
        Column::with_default(&value, lanes)
    }

    /// A column of these values: unboxed where all are of one kind that can be.
    pub fn from_values(values: Vec<Value>) -> (r: Column)
        ensures
            r@ == vals_of(values@),
            r is Bool <==> all_kind(vals_of(values@), |v: Val| v is Bool),
            r is Int <==> values@.len() > 0 && all_kind(vals_of(values@), |v: Val| v is Int),
            r is Float <==> values@.len() > 0 && all_kind(vals_of(values@), |v: Val| v is Float),
            r is Vec3 <==> values@.len() > 0 && all_kind(vals_of(values@), |v: Val| v is Vec3),
            r is Quat <==> values@.len() > 0 && all_kind(vals_of(values@), |v: Val| v is Quat),
    {
        let ghost vs = vals_of(values@);
        if values.len() == 0 {
            let r = Column::Bool(Vec::new());
            assert(r@ =~= vs);
            return r;
        }
        let k = kind_of(&values[0]);
        let mut i: usize = 0;
        while i < values.len()
            invariant
                i <= values@.len(),
                values@.len() > 0,
                vs == vals_of(values@),
                k == kind_of_val(vs[0]),
                forall|j: int| 0 <= j < i ==> kind_of_val(#[trigger] vs[j]) == k,
            decreases values@.len() - i,
        {
            if kind_of(&values[i]) != k {
                proof {
                    assert(kind_of_val(vs[i as int]) != kind_of_val(vs[0]));
                }
                let r = Column::Boxed(values);
                assert(r@ =~= vs);
                return r;
            }
            i = i + 1;
        }
        proof {
            assert(kind_of_val(vs[0]) == k);
        }
        let mut r = Column::with_default(&values[0], 0);
        assert(r@ =~= vs.take(0));
        let mut n: usize = 0;
        if k == Kind::Other {
            let r = Column::Boxed(values);
            assert(r@ =~= vs);
            return r;
        }
        while n < values.len()
            invariant
                n <= values@.len(),
                values@.len() > 0,
                vs == vals_of(values@),
                r@ == vs.take(n as int),
                k == kind_of_val(vs[0]),
                forall|j: int| 0 <= j < vs.len() ==> kind_of_val(#[trigger] vs[j]) == k,
                !(r is Boxed),
                k != Kind::Other,
                forall|v: Val| #[trigger] kind_of_val(v) == k ==> r.accepts(v),
            decreases values@.len() - n,
        {
            assert(kind_of_val(vs[n as int]) == k);
            r.push(values[n].clone());
            n = n + 1;
            assert(r@ =~= vs.take(n as int));
        }
        proof {
            assert(r@ =~= vs);
            assert(r.accepts(vs[0]));
        }
        r
    }
}

}
