//! The index of type-wide subscriptions: from a write to the subscriptions it may concern.
//!
//! At registration one conjunct of the condition is bound to a table: a reference lookup, a
//! bucket of constants, a sorted threshold table, or the plain scan list. A table is a
//! filter without false negatives; whatever it lets through is still evaluated in full.
use crate::calculation::CalcId;
use crate::entity::EntityTypeId;
use crate::entity::InstanceId;
use crate::float64::F64;
use crate::predicate::compares;
use crate::predicate::crosses;
use crate::predicate::expr_value;
use crate::predicate::holds;
use crate::predicate::mirror;
use crate::predicate::CmpOp;
use crate::predicate::Cond;
use crate::predicate::Dir;
use crate::predicate::Env;
use crate::predicate::Expr;
use crate::predicate::ValRef;
use crate::runtime::buckets::BucketEntry;
use crate::runtime::buckets::PathBuckets;
use crate::runtime::once::lemma_bucket_count;
use crate::runtime::once::lemma_bucket_empty;
use crate::runtime::once::lemma_collect_count;
use crate::runtime::once::one_more;
use crate::runtime::once::with_hit;
use crate::value::path_of;
use crate::value::Val;
use crate::value::Value;
use vstd::prelude::*;

verus! {

/// A constant that a bucket can be keyed by.
#[derive(Debug)]
pub enum VKey {
    Null,
    /// The rank of a number: equal numbers share it, whatever their kind.
    Num(i64),
    Str(String),
    Ref(InstanceId),
}

/// What a `VKey` holds.
pub ghost enum KeyModel {
    Null,
    Num(int),
    Str(Seq<char>),
    Ref(InstanceId),
}

impl View for VKey {
    type V = KeyModel;

    open spec fn view(&self) -> KeyModel {
        match *self {
            VKey::Null => KeyModel::Null,
            VKey::Num(i) => KeyModel::Num(i as int),
            VKey::Str(s) => KeyModel::Str(s@),
            VKey::Ref(r) => KeyModel::Ref(r),
        }
    }
}

/// The key under which a written value is looked up. Any two values that a condition takes
/// for equal, one of them with a constant's key, share it.
pub open spec fn key_of(v: Val) -> Option<KeyModel> {
    match v {
        Val::Null => Some(KeyModel::Null),
        Val::Str(s) => Some(KeyModel::Str(s)),
        Val::Ref(r) => Some(KeyModel::Ref(r)),
        _ => match v.num() {
            Some(f) => if f.nan() {
                None
            } else {
                Some(KeyModel::Num(f.rank()))
            },
            None => None,
        },
    }
}

/// The key of a constant. Floats have none: they are left to the scan list.
pub open spec fn const_key(v: Val) -> Option<KeyModel> {
    if v is Float {
        None
    } else {
        key_of(v)
    }
}

/// Values that a condition takes for equal share their key.
pub proof fn lemma_equal_keys(v: Val, c: Val)
    requires
        v.equals(c),
        const_key(c) is Some,
    ensures
        key_of(v) == const_key(c),
{
}

fn rank_of(f: F64) -> (r: i64)
    ensures
        r == f.rank(),
{
    let c = f.code();
    if f.negative() {
        0 - c as i64
    } else {
        c as i64
    }
}

/// The key under which a written value is looked up.
pub fn probe_key(v: &Value) -> (r: Option<VKey>)
    ensures
        r is Some <==> key_of(v@) is Some,
        r is Some ==> r->0@ == key_of(v@)->0,
{
    match v {
        Value::Null => Some(VKey::Null),
        Value::Str(s) => Some(VKey::Str(s.clone())),
        Value::Ref(r) => Some(VKey::Ref(*r)),
        _ => match v.as_f64() {
            Some(f) => if f.is_nan() {
                None
            } else {
                Some(VKey::Num(rank_of(f)))
            },
            None => None,
        },
    }
}

/// The key of a constant in a condition.
pub fn vkey(v: &Value) -> (r: Option<VKey>)
    ensures
        r is Some <==> const_key(v@) is Some,
        r is Some ==> r->0@ == const_key(v@)->0,
{
    match v {
        Value::Float(_) => None,
        _ => probe_key(v),
    }
}

pub fn key_same(a: &VKey, b: &VKey) -> (r: bool)
    ensures
        r == (a@ == b@),
{
    match (a, b) {
        (VKey::Null, VKey::Null) => true,
        (VKey::Num(x), VKey::Num(y)) => *x == *y,
        (VKey::Str(x), VKey::Str(y)) => *x == *y,
        (VKey::Ref(x), VKey::Ref(y)) => *x == *y,
        _ => false,
    }
}

/// Whether two paths have the same texts.
pub fn path_same(a: &Vec<String>, b: &Vec<String>) -> (r: bool)
    ensures
        r == (path_of(a@) == path_of(b@)),
{
    if a.len() != b.len() {
        assert(path_of(a@).len() != path_of(b@).len());
        return false;
    }
    let mut i: usize = 0;
    while i < a.len()
        invariant
            i <= a@.len(),
            a@.len() == b@.len(),
            forall|j: int| 0 <= j < i ==> (#[trigger] a@[j])@ == b@[j]@,
        decreases a@.len() - i,
    {
        if a[i] != b[i] {
            assert(path_of(a@)[i as int] != path_of(b@)[i as int]);
            return false;
        }
        i = i + 1;
    }
    assert(path_of(a@) =~= path_of(b@));
    true
}

/// A copy of a path.
pub fn path_copy(p: &Vec<String>) -> (r: Vec<String>)
    ensures
        path_of(r@) == path_of(p@),
{
    let mut out: Vec<String> = Vec::new();
    let mut i: usize = 0;
    while i < p.len()
        invariant
            i <= p@.len(),
            out@.len() == i,
            forall|j: int| 0 <= j < i ==> (#[trigger] out@[j])@ == p@[j]@,
        decreases p@.len() - i,
    {
        out.push(p[i].clone());
        i = i + 1;
    }
    assert(path_of(out@) =~= path_of(p@));
    out
}

/// A subscription that a write may concern. Without a subscriber it concerns every alive
/// instance of the calculation's type.
#[derive(Clone, Copy, Debug, PartialEq, Eq, Structural)]
pub struct Hit {
    pub calc: CalcId,
    pub group: u32,
    pub sub: Option<InstanceId>,
}

/// The hits that `f` gives for the items of `s`, in order.
pub open spec fn collect<T>(s: Seq<T>, f: spec_fn(T) -> Option<Hit>) -> Seq<Hit>
    decreases s.len(),
{
    if s.len() == 0 {
        Seq::empty()
    } else {
        let r = collect(s.drop_last(), f);
        match f(s.last()) {
            Some(h) => r.push(h),
            None => r,
        }
    }
}

pub proof fn lemma_collect_push<T>(s: Seq<T>, x: T, f: spec_fn(T) -> Option<Hit>)
    ensures
        collect(s.push(x), f) == (match f(x) {
            Some(h) => collect(s, f).push(h),
            None => collect(s, f),
        }),
{
    assert(s.push(x).drop_last() =~= s);
}

pub proof fn lemma_collect_contains<T>(s: Seq<T>, f: spec_fn(T) -> Option<Hit>, h: Hit)
    ensures
        collect(s, f).contains(h) <==> exists|i: int| 0 <= i < s.len() && f(#[trigger] s[i]) == Some(h),
    decreases s.len(),
{
    if s.len() > 0 {
        let t = s.drop_last();
        let r = collect(t, f);
        lemma_collect_contains(t, f, h);
        let full = collect(s, f);
        if full.contains(h) {
            let k = choose|k: int| 0 <= k < full.len() && full[k] == h;
            if k < r.len() {
                assert(r[k] == h);
                let i = choose|i: int| 0 <= i < t.len() && f(#[trigger] t[i]) == Some(h);
                assert(s[i] == t[i]);
            } else {
                assert(f(s[s.len() - 1]) == Some(h));
            }
        }
        if exists|i: int| 0 <= i < s.len() && f(#[trigger] s[i]) == Some(h) {
            let i = choose|i: int| 0 <= i < s.len() && f(#[trigger] s[i]) == Some(h);
            if i < t.len() {
                assert(t[i] == s[i]);
                assert(r.contains(h));
                let k = choose|k: int| 0 <= k < r.len() && r[k] == h;
                assert(full[k] == h);
            } else {
                assert(full[full.len() - 1] == h);
            }
        }
    }
}

/// Items for which `f` gives nothing contribute nothing.
pub proof fn lemma_collect_none<T>(s: Seq<T>, f: spec_fn(T) -> Option<Hit>)
    requires
        forall|i: int| 0 <= i < s.len() ==> f(#[trigger] s[i]) is None,
    ensures
        collect(s, f) == Seq::<Hit>::empty(),
    decreases s.len(),
{
    if s.len() > 0 {
        let t = s.drop_last();
        assert forall|i: int| 0 <= i < t.len() implies f(#[trigger] t[i]) is None by {
            assert(t[i] == s[i]);
        }
        lemma_collect_none(t, f);
        assert(f(s[s.len() - 1]) is None);
    }
}

/// A tail of such items can be left out.
pub proof fn lemma_collect_prefix<T>(s: Seq<T>, n: int, f: spec_fn(T) -> Option<Hit>)
    requires
        0 <= n <= s.len(),
        forall|i: int| n <= i < s.len() ==> f(#[trigger] s[i]) is None,
    ensures
        collect(s, f) == collect(s.take(n), f),
    decreases s.len() - n,
{
    if n == s.len() {
        assert(s.take(n) =~= s);
    } else {
        let t = s.drop_last();
        assert forall|i: int| n <= i < t.len() implies f(#[trigger] t[i]) is None by {
            assert(t[i] == s[i]);
        }
        lemma_collect_prefix(t, n, f);
        assert(t.take(n) =~= s.take(n));
        assert(f(s[s.len() - 1]) is None);
    }
}

/// A threshold in a sorted table.
#[derive(Clone, Copy, Debug)]
pub struct ThEntry {
    pub t: F64,
    /// The boundary itself counts.
    pub eq_ok: bool,
    pub calc: CalcId,
    pub group: u32,
}

impl ThEntry {
    pub open spec fn hit(self) -> Hit {
        Hit { calc: self.calc, group: self.group, sub: None }
    }

    pub fn to_hit(&self) -> (r: Hit)
        ensures
            r == self.hit(),
    {
        Hit { calc: self.calc, group: self.group, sub: None }
    }
}

/// The table holds numbers in ascending order.
pub open spec fn sorted(v: Seq<ThEntry>) -> bool {
    &&& forall|i: int| 0 <= i < v.len() ==> !(#[trigger] v[i]).t.nan()
    &&& forall|i: int, j: int|
        0 <= i < j < v.len() ==> (#[trigger] v[i]).t.rank() <= (#[trigger] v[j]).t.rank()
}

/// The number of entries whose threshold is below `n`.
fn partition_lt(v: &Vec<ThEntry>, n: F64) -> (r: usize)
    requires
        sorted(v@),
        !n.nan(),
    ensures
        r <= v@.len(),
        forall|i: int| 0 <= i < r ==> (#[trigger] v@[i]).t.rank() < n.rank(),
        forall|i: int| r <= i < v@.len() ==> n.rank() <= (#[trigger] v@[i]).t.rank(),
{
    let mut lo: usize = 0;
    let mut hi: usize = v.len();
    while lo < hi
        invariant
            sorted(v@),
            !n.nan(),
            lo <= hi <= v@.len(),
            forall|i: int| 0 <= i < lo ==> (#[trigger] v@[i]).t.rank() < n.rank(),
            forall|i: int| hi <= i < v@.len() ==> n.rank() <= (#[trigger] v@[i]).t.rank(),
        decreases hi - lo,
    {
        let mid: usize = lo + (hi - lo) / 2;
        if v[mid].t.lt(n) {
            lo = mid + 1;
        } else {
            hi = mid;
        }
    }
    lo
}

/// The number of entries whose threshold is not above `n`.
fn partition_le(v: &Vec<ThEntry>, n: F64) -> (r: usize)
    requires
        sorted(v@),
        !n.nan(),
    ensures
        r <= v@.len(),
        forall|i: int| 0 <= i < r ==> (#[trigger] v@[i]).t.rank() <= n.rank(),
        forall|i: int| r <= i < v@.len() ==> n.rank() < (#[trigger] v@[i]).t.rank(),
{
    let mut lo: usize = 0;
    let mut hi: usize = v.len();
    while lo < hi
        invariant
            sorted(v@),
            !n.nan(),
            lo <= hi <= v@.len(),
            forall|i: int| 0 <= i < lo ==> (#[trigger] v@[i]).t.rank() <= n.rank(),
            forall|i: int| hi <= i < v@.len() ==> n.rank() < (#[trigger] v@[i]).t.rank(),
        decreases hi - lo,
    {
        let mid: usize = lo + (hi - lo) / 2;
        if v[mid].t.le(n) {
            lo = mid + 1;
        } else {
            hi = mid;
        }
    }
    lo
}

/// Inserts a threshold in front of the first that is not below it.
fn sorted_insert(v: &mut Vec<ThEntry>, e: ThEntry)
    requires
        sorted(old(v)@),
        !e.t.nan(),
    ensures
        sorted(final(v)@),
        exists|k: int| 0 <= k <= old(v)@.len() && final(v)@ == old(v)@.insert(k, e),
{
    let ghost before = v@;
    let i = partition_lt(v, e.t);
    v.insert(i, e);
    proof {
        assert forall|a: int, b: int| 0 <= a < b < v@.len() implies (#[trigger] v@[a]).t.rank() <= (
        #[trigger] v@[b]).t.rank() by {
            if a < i {
                assert(v@[a] == before[a]);
                if b < i {
                    assert(v@[b] == before[b]);
                } else if b > i {
                    assert(v@[b] == before[b - 1]);
                }
            } else if a == i {
                assert(v@[b] == before[b - 1]);
            } else {
                assert(v@[a] == before[a - 1]);
                assert(v@[b] == before[b - 1]);
            }
        }
        assert forall|a: int| 0 <= a < v@.len() implies !(#[trigger] v@[a]).t.nan() by {
            if a < i {
                assert(v@[a] == before[a]);
            } else if a > i {
                assert(v@[a] == before[a - 1]);
            }
        }
        assert(v@ == before.insert(i as int, e));
    }
}

/// Fires where the new number is below the threshold, or at it where that counts.
pub open spec fn lt_fires(new: Option<F64>) -> spec_fn(ThEntry) -> Option<Hit> {
    |e: ThEntry|
        match new {
            Some(n) => if n.flt(e.t) || (e.eq_ok && n.fle(e.t)) {
                Some(e.hit())
            } else {
                None
            },
            None => None,
        }
}

/// Fires where the new number is above the threshold, or at it where that counts.
pub open spec fn gt_fires(new: Option<F64>) -> spec_fn(ThEntry) -> Option<Hit> {
    |e: ThEntry|
        match new {
            Some(n) => if e.t.flt(n) || (e.eq_ok && e.t.fle(n)) {
                Some(e.hit())
            } else {
                None
            },
            None => None,
        }
}

/// Fires where the write went from at or above the threshold to below it.
pub open spec fn down_fires(new: Option<F64>, old: Option<F64>) -> spec_fn(ThEntry) -> Option<Hit> {
    |e: ThEntry|
        match (new, old) {
            (Some(n), Some(o)) => if n.flt(e.t) && e.t.fle(o) {
                Some(e.hit())
            } else {
                None
            },
            _ => None,
        }
}

/// Fires where the write went from at or below the threshold to above it.
pub open spec fn up_fires(new: Option<F64>, old: Option<F64>) -> spec_fn(ThEntry) -> Option<Hit> {
    |e: ThEntry|
        match (new, old) {
            (Some(n), Some(o)) => if o.fle(e.t) && e.t.flt(n) {
                Some(e.hit())
            } else {
                None
            },
            _ => None,
        }
}

/// A subscription found by a reference: the condition has the conjunct `new.path = self`.
pub struct SelfEntry {
    pub path: Vec<String>,
    pub calc: CalcId,
    pub group: u32,
}

/// Fires where the value under the path is a reference to an instance of the calculation's
/// type, and for that instance only.
pub open spec fn self_fires(new: Val, tys: Seq<EntityTypeId>) -> spec_fn(SelfEntry) -> Option<Hit> {
    |e: SelfEntry|
        match new.get_path(path_of(e.path@)).ref_id() {
            Some(t) => if e.calc.0 < tys.len() && t.ty == tys[e.calc.0 as int] {
                Some(Hit { calc: e.calc, group: e.group, sub: Some(t) })
            } else {
                None
            },
            None => None,
        }
}

/// Fires where the key of the value is the constant's.
pub open spec fn bucket_fires(v: Val) -> spec_fn(BucketEntry) -> Option<Hit> {
    |e: BucketEntry|
        if key_of(v) == Some(e.key@) {
            Some(Hit { calc: e.calc, group: e.group, sub: None })
        } else {
            None
        }
}

/// The hits in the buckets of all paths.
pub open spec fn bucket_hits(ps: Seq<PathBuckets>, new: Val) -> Seq<Hit>
    decreases ps.len(),
{
    if ps.len() == 0 {
        Seq::empty()
    } else {
        bucket_hits(ps.drop_last(), new) + collect(
            ps.last().entries@,
            bucket_fires(new.get_path(path_of(ps.last().path@))),
        )
    }
}

proof fn lemma_bucket_hits_contains(ps: Seq<PathBuckets>, new: Val, h: Hit)
    ensures
        bucket_hits(ps, new).contains(h) <==> exists|i: int, j: int|
            0 <= i < ps.len() && 0 <= j < ps[i].entries@.len() && bucket_fires(
                new.get_path(path_of(ps[i].path@)),
            )(#[trigger] ps[i].entries@[j]) == Some(h),
    decreases ps.len(),
{
    if ps.len() > 0 {
        let t = ps.drop_last();
        let a = bucket_hits(t, new);
        let f = bucket_fires(new.get_path(path_of(ps.last().path@)));
        let b = collect(ps.last().entries@, f);
        let full = bucket_hits(ps, new);
        lemma_bucket_hits_contains(t, new, h);
        lemma_collect_contains(ps.last().entries@, f, h);
        if full.contains(h) {
            let k = choose|k: int| 0 <= k < full.len() && full[k] == h;
            if k < a.len() {
                assert(a[k] == h);
                let (i, j) = choose|i: int, j: int|
                    0 <= i < t.len() && 0 <= j < t[i].entries@.len() && bucket_fires(
                        new.get_path(path_of(t[i].path@)),
                    )(#[trigger] t[i].entries@[j]) == Some(h);
                assert(ps[i] == t[i]);
                assert(ps[i].entries@[j] == t[i].entries@[j]);
            } else {
                assert(b[k - a.len()] == h);
                let j = choose|j: int|
                    0 <= j < ps.last().entries@.len() && f(#[trigger] ps.last().entries@[j]) == Some(
                        h,
                    );
                assert(ps[ps.len() - 1].entries@[j] == ps.last().entries@[j]);
            }
        }
        if exists|i: int, j: int|
            0 <= i < ps.len() && 0 <= j < ps[i].entries@.len() && bucket_fires(
                new.get_path(path_of(ps[i].path@)),
            )(#[trigger] ps[i].entries@[j]) == Some(h) {
            let (i, j) = choose|i: int, j: int|
                0 <= i < ps.len() && 0 <= j < ps[i].entries@.len() && bucket_fires(
                    new.get_path(path_of(ps[i].path@)),
                )(#[trigger] ps[i].entries@[j]) == Some(h);
            if i < t.len() {
                assert(t[i] == ps[i]);
                assert(t[i].entries@[j] == ps[i].entries@[j]);
                assert(a.contains(h));
                let k = choose|k: int| 0 <= k < a.len() && a[k] == h;
                assert(full[k] == h);
            } else {
                assert(ps.last().entries@[j] == ps[i].entries@[j]);
                assert(b.contains(h));
                let k = choose|k: int| 0 <= k < b.len() && b[k] == h;
                assert(full[a.len() + k] == h);
            }
        }
    }
}

/// The type-wide subscriptions to one field of one type.
pub struct TypeIndex {
    pub self_eq: Vec<SelfEntry>,
    pub buckets: Vec<PathBuckets>,
    pub lt: Vec<ThEntry>,
    pub gt: Vec<ThEntry>,
    pub cross_down: Vec<ThEntry>,
    pub cross_up: Vec<ThEntry>,
    pub scan: Vec<(CalcId, u32)>,
}

pub open spec fn scan_fires() -> spec_fn((CalcId, u32)) -> Option<Hit> {
    |e: (CalcId, u32)| Some(Hit { calc: e.0, group: e.1, sub: None })
}

impl TypeIndex {
    pub open spec fn wf(self) -> bool {
        &&& sorted(self.lt@)
        &&& sorted(self.gt@)
        &&& sorted(self.cross_down@)
        &&& sorted(self.cross_up@)
        &&& forall|i: int| 0 <= i < self.buckets@.len() ==> (#[trigger] self.buckets@[i]).wf()
        &&& forall|i: int, j: int|
            0 <= i < j < self.buckets@.len() ==> path_of((#[trigger] self.buckets@[i]).path@)
                != path_of((#[trigger] self.buckets@[j]).path@)
    }

    /// The subscriptions that a write may concern, table by table.
    pub open spec fn hits(self, new: Val, old: Val, tys: Seq<EntityTypeId>) -> Seq<Hit> {
        collect(self.self_eq@, self_fires(new, tys)) + bucket_hits(self.buckets@, new) + collect(
            self.lt@,
            lt_fires(new.num()),
        ) + collect(self.gt@, gt_fires(new.num())) + collect(
            self.cross_down@,
            down_fires(new.num(), old.num()),
        ) + collect(self.cross_up@, up_fires(new.num(), old.num())) + collect(
            self.scan@,
            scan_fires(),
        )
    }

    /// The hit comes from one of the tables.
    pub open spec fn has_hit(self, new: Val, old: Val, tys: Seq<EntityTypeId>, h: Hit) -> bool {
        ||| collect(self.self_eq@, self_fires(new, tys)).contains(h)
        ||| bucket_hits(self.buckets@, new).contains(h)
        ||| collect(self.lt@, lt_fires(new.num())).contains(h)
        ||| collect(self.gt@, gt_fires(new.num())).contains(h)
        ||| collect(self.cross_down@, down_fires(new.num(), old.num())).contains(h)
        ||| collect(self.cross_up@, up_fires(new.num(), old.num())).contains(h)
        ||| collect(self.scan@, scan_fires()).contains(h)
    }

    pub proof fn lemma_has_hit(self, new: Val, old: Val, tys: Seq<EntityTypeId>, h: Hit)
        ensures
            self.hits(new, old, tys).contains(h) <==> self.has_hit(new, old, tys, h),
    {
        let a = collect(self.self_eq@, self_fires(new, tys));
        let b = bucket_hits(self.buckets@, new);
        let c = collect(self.lt@, lt_fires(new.num()));
        let d = collect(self.gt@, gt_fires(new.num()));
        let e = collect(self.cross_down@, down_fires(new.num(), old.num()));
        let f = collect(self.cross_up@, up_fires(new.num(), old.num()));
        let g = collect(self.scan@, scan_fires());
        lemma_concat_contains(a, b, h);
        lemma_concat_contains(a + b, c, h);
        lemma_concat_contains(a + b + c, d, h);
        lemma_concat_contains(a + b + c + d, e, h);
        lemma_concat_contains(a + b + c + d + e, f, h);
        lemma_concat_contains(a + b + c + d + e + f, g, h);
    }

    /// A hit for one subscriber names an instance of the calculation's type.
    pub proof fn lemma_hit_types(self, new: Val, old: Val, tys: Seq<EntityTypeId>, h: Hit)
        requires
            self.hits(new, old, tys).contains(h),
            h.sub is Some,
        ensures
            h.calc.0 < tys.len(),
            h.sub->0.ty == tys[h.calc.0 as int],
    {
        self.lemma_has_hit(new, old, tys, h);
        lemma_collect_contains(self.self_eq@, self_fires(new, tys), h);
        lemma_bucket_hits_contains(self.buckets@, new, h);
        lemma_collect_contains(self.lt@, lt_fires(new.num()), h);
        lemma_collect_contains(self.gt@, gt_fires(new.num()), h);
        lemma_collect_contains(self.cross_down@, down_fires(new.num(), old.num()), h);
        lemma_collect_contains(self.cross_up@, up_fires(new.num(), old.num()), h);
        lemma_collect_contains(self.scan@, scan_fires(), h);
    }

    /// The write may concern `sub` through group `group` of calculation `calc`.
    pub open spec fn reaches(
        self,
        new: Val,
        old: Val,
        tys: Seq<EntityTypeId>,
        calc: CalcId,
        group: u32,
        sub: InstanceId,
    ) -> bool {
        ||| self.hits(new, old, tys).contains(Hit { calc, group, sub: None })
        ||| self.hits(new, old, tys).contains(Hit { calc, group, sub: Some(sub) })
    }

    /// No write for which the condition holds is missed.
    pub open spec fn covers(self, cond: Cond, calc: CalcId, group: u32) -> bool {
        forall|env: Env, tys: Seq<EntityTypeId>|
            #![trigger holds(cond, env), self.hits(env.new, env.old, tys)]
            holds(cond, env) && calc.0 < tys.len() && env.sub.ty == tys[calc.0 as int]
                ==> self.reaches(env.new, env.old, tys, calc, group, env.sub)
    }

    /// Every hit of `other` is a hit here, and the hits beyond those belong to `calc` and
    /// `group`.
    pub open spec fn extends(self, other: TypeIndex, calc: CalcId, group: u32) -> bool {
        forall|new: Val, old: Val, tys: Seq<EntityTypeId>, h: Hit|
            #![trigger self.hits(new, old, tys).contains(h)]
            #![trigger other.hits(new, old, tys).contains(h)]
            {
                &&& other.hits(new, old, tys).contains(h) ==> self.hits(new, old, tys).contains(h)
                &&& self.hits(new, old, tys).contains(h) ==> other.hits(new, old, tys).contains(h)
                    || (h.calc == calc && h.group == group)
            }
    }

    /// Every write gives the hits that it gives in `other`, each as often, and at most one
    /// more, which belongs to `calc` and `group`.
    pub open spec fn takes_in(self, other: TypeIndex, calc: CalcId, group: u32) -> bool {
        forall|new: Val, old: Val, tys: Seq<EntityTypeId>|
            #![trigger self.hits(new, old, tys)]
            #![trigger other.hits(new, old, tys)]
            one_more(
                self.hits(new, old, tys).to_multiset(),
                other.hits(new, old, tys).to_multiset(),
                calc,
                group,
            )
    }

    /// The hits are those of the tables together.
    proof fn lemma_tables(self, new: Val, old: Val, tys: Seq<EntityTypeId>)
        ensures
            self.hits(new, old, tys).to_multiset() == collect(
                self.self_eq@,
                self_fires(new, tys),
            ).to_multiset().add(bucket_hits(self.buckets@, new).to_multiset()).add(
                collect(self.lt@, lt_fires(new.num())).to_multiset(),
            ).add(collect(self.gt@, gt_fires(new.num())).to_multiset()).add(
                collect(self.cross_down@, down_fires(new.num(), old.num())).to_multiset(),
            ).add(collect(self.cross_up@, up_fires(new.num(), old.num())).to_multiset()).add(
                collect(self.scan@, scan_fires()).to_multiset(),
            ),
    {
        let a = collect(self.self_eq@, self_fires(new, tys));
        let b = bucket_hits(self.buckets@, new);
        let c = collect(self.lt@, lt_fires(new.num()));
        let d = collect(self.gt@, gt_fires(new.num()));
        let e = collect(self.cross_down@, down_fires(new.num(), old.num()));
        let f = collect(self.cross_up@, up_fires(new.num(), old.num()));
        let g = collect(self.scan@, scan_fires());
        vstd::seq_lib::lemma_multiset_commutative(a, b);
        vstd::seq_lib::lemma_multiset_commutative(a + b, c);
        vstd::seq_lib::lemma_multiset_commutative(a + b + c, d);
        vstd::seq_lib::lemma_multiset_commutative(a + b + c + d, e);
        vstd::seq_lib::lemma_multiset_commutative(a + b + c + d + e, f);
        vstd::seq_lib::lemma_multiset_commutative(a + b + c + d + e + f, g);
    }

    pub fn new() -> (r: TypeIndex)
        ensures
            r.wf(),
            forall|new: Val, old: Val, tys: Seq<EntityTypeId>|
                (#[trigger] r.hits(new, old, tys)).len() == 0,
    {
        TypeIndex {
            self_eq: Vec::new(),
            buckets: Vec::new(),
            lt: Vec::new(),
            gt: Vec::new(),
            cross_down: Vec::new(),
            cross_up: Vec::new(),
            scan: Vec::new(),
        }
    }
}

proof fn lemma_concat_contains(a: Seq<Hit>, b: Seq<Hit>, h: Hit)
    ensures
        (a + b).contains(h) <==> a.contains(h) || b.contains(h),
{
    if a.contains(h) {
        let k = choose|k: int| 0 <= k < a.len() && a[k] == h;
        assert((a + b)[k] == h);
    }
    if b.contains(h) {
        let k = choose|k: int| 0 <= k < b.len() && b[k] == h;
        assert((a + b)[a.len() + k] == h);
    }
}

/// Appends the hits of a range of a threshold table.
fn push_range(v: &Vec<ThEntry>, from: usize, to: usize, out: &mut Vec<Hit>)
    requires
        from <= to <= v@.len(),
    ensures
        final(out)@ == old(out)@ + Seq::new((to - from) as nat, |i: int| v@[from + i].hit()),
{
    let ghost before = out@;
    let mut i: usize = from;
    while i < to
        invariant
            from <= i <= to <= v@.len(),
            out@ =~= before + Seq::new((i - from) as nat, |k: int| v@[from + k].hit()),
        decreases to - i,
    {
        out.push(v[i].to_hit());
        i = i + 1;
    }
}

/// In a stretch of items that all fire, the hits are theirs one by one.
proof fn lemma_collect_stretch(
    s: Seq<ThEntry>,
    f: spec_fn(ThEntry) -> Option<Hit>,
    a: int,
    b: int,
)
    requires
        0 <= a <= b <= s.len(),
        forall|i: int| 0 <= i < a ==> f(#[trigger] s[i]) is None,
        forall|i: int| a <= i < b ==> f(#[trigger] s[i]) == Some(s[i].hit()),
        forall|i: int| b <= i < s.len() ==> f(#[trigger] s[i]) is None,
    ensures
        collect(s, f) == Seq::new((b - a) as nat, |i: int| s[a + i].hit()),
    decreases s.len(),
{
    let want = Seq::new((b - a) as nat, |i: int| s[a + i].hit());
    if s.len() == 0 {
        assert(want =~= collect(s, f));
    } else {
        let t = s.drop_last();
        assert forall|i: int| 0 <= i < t.len() implies #[trigger] t[i] == s[i] by {}
        if b == s.len() {
            if a == b {
                lemma_collect_none(s, f);
                assert(want =~= Seq::empty());
            } else {
                lemma_collect_stretch(t, f, a, b - 1);
                assert(f(s[b - 1]) == Some(s[b - 1].hit()));
                assert(want =~= collect(t, f).push(s[b - 1].hit()));
            }
        } else {
            lemma_collect_stretch(t, f, a, b);
            assert(f(s[s.len() - 1]) is None);
            assert(want =~= collect(t, f));
        }
    }
}

/// The items seen so far, one more.
pub proof fn lemma_take_step<T>(s: Seq<T>, i: int, f: spec_fn(T) -> Option<Hit>)
    requires
        0 <= i < s.len(),
    ensures
        collect(s.take(i + 1), f) == (match f(s[i]) {
            Some(h) => collect(s.take(i), f).push(h),
            None => collect(s.take(i), f),
        }),
{
    assert(s.take(i + 1) =~= s.take(i).push(s[i]));
    lemma_collect_push(s.take(i), s[i], f);
}

impl TypeIndex {
    /// Lists the subscriptions that a write may concern. `tys` gives the type of each
    /// calculation.
    pub fn probe(&self, new: &Value, old: &Value, tys: &Vec<EntityTypeId>) -> (r: Vec<Hit>)
        requires
            self.wf(),
        ensures
            r@ == self.hits(new@, old@, tys@),
    {
        let mut out: Vec<Hit> = Vec::new();
        self.probe_self(new, tys, &mut out);
        self.probe_buckets(new, &mut out);
        let n = new.as_f64();
        let o = old.as_f64();
        self.probe_thresholds(n, &mut out);
        self.probe_crossed(n, o, &mut out);
        self.probe_scan(&mut out);
        assert(out@ =~= self.hits(new@, old@, tys@));
        out
    }

    fn probe_self(&self, new: &Value, tys: &Vec<EntityTypeId>, out: &mut Vec<Hit>)
        ensures
            final(out)@ == old(out)@ + collect(self.self_eq@, self_fires(new@, tys@)),
    {
        let ghost before = out@;
        let ghost f = self_fires(new@, tys@);
        let mut i: usize = 0;
        assert(out@ =~= before + collect(self.self_eq@.take(0), f));
        while i < self.self_eq.len()
            invariant
                i <= self.self_eq@.len(),
                f == self_fires(new@, tys@),
                out@ =~= before + collect(self.self_eq@.take(i as int), f),
            decreases self.self_eq@.len() - i,
        {
            let e = &self.self_eq[i];
            proof {
                lemma_take_step(self.self_eq@, i as int, f);
            }
            if let Some(t) = new.get_path(&e.path).as_ref_id() {
                if (e.calc.0 as usize) < tys.len() && t.ty == tys[e.calc.0 as usize] {
                    out.push(Hit { calc: e.calc, group: e.group, sub: Some(t) });
                }
            }
            i = i + 1;
        }
        assert(self.self_eq@.take(i as int) =~= self.self_eq@);
    }

    fn probe_buckets(&self, new: &Value, out: &mut Vec<Hit>)
        requires
            self.wf(),
        ensures
            final(out)@ == old(out)@ + bucket_hits(self.buckets@, new@),
    {
        let ghost before = out@;
        let mut i: usize = 0;
        assert(out@ =~= before + bucket_hits(self.buckets@.take(0), new@));
        while i < self.buckets.len()
            invariant
                self.wf(),
                i <= self.buckets@.len(),
                out@ == before + bucket_hits(self.buckets@.take(i as int), new@),
            decreases self.buckets@.len() - i,
        {
            let b = &self.buckets[i];
            let ghost part = out@;
            let v = new.get_path(&b.path);
            let ghost f = bucket_fires(v@);
            if let Some(k) = probe_key(&v) {
                b.probe(&k, Ghost(v@), out);
            } else {
                proof {
                    lemma_collect_none(b.entries@, f);
                }
            }
            proof {
                assert(out@ =~= part + collect(b.entries@, f));
                let ps = self.buckets@.take(i + 1);
                assert(ps.drop_last() =~= self.buckets@.take(i as int));
                assert(ps.last() == *b);
                assert(out@ =~= before + bucket_hits(ps, new@));
            }
            i = i + 1;
        }
        assert(self.buckets@.take(i as int) =~= self.buckets@);
    }

    fn probe_thresholds(&self, n: Option<F64>, out: &mut Vec<Hit>)
        requires
            self.wf(),
        ensures
            final(out)@ == old(out)@ + collect(self.lt@, lt_fires(n)) + collect(
                self.gt@,
                gt_fires(n),
            ),
    {
        let ghost before = out@;
        let ghost fl = lt_fires(n);
        let ghost fg = gt_fires(n);
        let x = match n {
            Some(x) => x,
            None => {
                proof {
                    lemma_collect_none(self.lt@, fl);
                    lemma_collect_none(self.gt@, fg);
                    assert(out@ =~= before + collect(self.lt@, fl) + collect(self.gt@, fg));
                }
                return;
            },
        };
        if x.is_nan() {
            proof {
                lemma_collect_none(self.lt@, fl);
                lemma_collect_none(self.gt@, fg);
                assert(out@ =~= before + collect(self.lt@, fl) + collect(self.gt@, fg));
            }
            return;
        }
        let mut i: usize = partition_lt(&self.lt, x);
        proof {
            let head = self.lt@.take(i as int);
            assert forall|k: int| 0 <= k < head.len() implies fl(#[trigger] head[k]) is None by {
                assert(head[k] == self.lt@[k]);
            }
            lemma_collect_none(head, fl);
            assert(out@ =~= before + collect(head, fl));
        }
        while i < self.lt.len()
            invariant
                i <= self.lt@.len(),
                self.wf(),
                fl == lt_fires(n),
                n == Some(x),
                !x.nan(),
                forall|k: int| i <= k < self.lt@.len() ==> x.rank() <= (
                #[trigger] self.lt@[k]).t.rank(),
                out@ =~= before + collect(self.lt@.take(i as int), fl),
            decreases self.lt@.len() - i,
        {
            let e = &self.lt[i];
            proof {
                lemma_take_step(self.lt@, i as int, fl);
            }
            if x.lt(e.t) || e.eq_ok {
                out.push(e.to_hit());
            }
            i = i + 1;
        }
        assert(self.lt@.take(i as int) =~= self.lt@);
        let j = partition_le(&self.gt, x);
        let ghost mid = out@;
        let mut k: usize = 0;
        assert(out@ =~= mid + collect(self.gt@.take(0), fg));
        while k < j
            invariant
                k <= j <= self.gt@.len(),
                self.wf(),
                fg == gt_fires(n),
                n == Some(x),
                !x.nan(),
                forall|i: int| 0 <= i < j ==> (#[trigger] self.gt@[i]).t.rank() <= x.rank(),
                out@ =~= mid + collect(self.gt@.take(k as int), fg),
            decreases j - k,
        {
            let e = &self.gt[k];
            proof {
                lemma_take_step(self.gt@, k as int, fg);
            }
            if e.t.lt(x) || e.eq_ok {
                out.push(e.to_hit());
            }
            k = k + 1;
        }
        proof {
            lemma_collect_prefix(self.gt@, j as int, fg);
        }
    }

    fn probe_crossed(&self, n: Option<F64>, o: Option<F64>, out: &mut Vec<Hit>)
        requires
            self.wf(),
        ensures
            final(out)@ == old(out)@ + collect(self.cross_down@, down_fires(n, o)) + collect(
                self.cross_up@,
                up_fires(n, o),
            ),
    {
        let ghost before = out@;
        let ghost fd = down_fires(n, o);
        let ghost fu = up_fires(n, o);
        match (n, o) {
            (Some(x), Some(y)) => {
                if x.lt(y) {
                    let a = partition_le(&self.cross_down, x);
                    let b = partition_le(&self.cross_down, y);
                    proof {
                        if b < a {
                            assert(self.cross_down@[b as int].t.rank() <= x.rank());
                        }
                        lemma_collect_stretch(self.cross_down@, fd, a as int, b as int);
                        lemma_collect_none(self.cross_up@, fu);
                    }
                    push_range(&self.cross_down, a, b, out);
                } else if y.lt(x) {
                    let a = partition_lt(&self.cross_up, y);
                    let b = partition_lt(&self.cross_up, x);
                    proof {
                        if b < a {
                            assert(self.cross_up@[b as int].t.rank() < y.rank());
                        }
                        lemma_collect_stretch(self.cross_up@, fu, a as int, b as int);
                        lemma_collect_none(self.cross_down@, fd);
                    }
                    push_range(&self.cross_up, a, b, out);
                } else {
                    proof {
                        lemma_collect_none(self.cross_down@, fd);
                        lemma_collect_none(self.cross_up@, fu);
                    }
                }
            },
            _ => {
                proof {
                    lemma_collect_none(self.cross_down@, fd);
                    lemma_collect_none(self.cross_up@, fu);
                }
            },
        }
        assert(out@ =~= before + collect(self.cross_down@, fd) + collect(self.cross_up@, fu));
    }

    fn probe_scan(&self, out: &mut Vec<Hit>)
        ensures
            final(out)@ == old(out)@ + collect(self.scan@, scan_fires()),
    {
        let ghost before = out@;
        let ghost f = scan_fires();
        let mut i: usize = 0;
        assert(out@ =~= before + collect(self.scan@.take(0), f));
        while i < self.scan.len()
            invariant
                i <= self.scan@.len(),
                f == scan_fires(),
                out@ =~= before + collect(self.scan@.take(i as int), f),
            decreases self.scan@.len() - i,
        {
            proof {
                lemma_take_step(self.scan@, i as int, f);
            }
            out.push(Hit { calc: self.scan[i].0, group: self.scan[i].1, sub: None });
            i = i + 1;
        }
        assert(self.scan@.take(i as int) =~= self.scan@);
    }
}

/// One item more in a table, wherever it went.
proof fn lemma_collect_insert<T>(s: Seq<T>, k: int, x: T, f: spec_fn(T) -> Option<Hit>, h: Hit)
    requires
        0 <= k <= s.len(),
    ensures
        collect(s.insert(k, x), f).contains(h) <==> collect(s, f).contains(h) || f(x) == Some(h),
{
    let t = s.insert(k, x);
    lemma_collect_contains(s, f, h);
    lemma_collect_contains(t, f, h);
    if collect(s, f).contains(h) {
        let i = choose|i: int| 0 <= i < s.len() && f(#[trigger] s[i]) == Some(h);
        if i < k {
            assert(f(t[i]) == Some(h));
        } else {
            assert(f(t[i + 1]) == Some(h));
        }
    }
    if f(x) == Some(h) {
        assert(f(t[k]) == Some(h));
    }
    if collect(t, f).contains(h) {
        let i = choose|i: int| 0 <= i < t.len() && f(#[trigger] t[i]) == Some(h);
        if i < k {
            assert(f(s[i]) == Some(h));
        } else if i > k {
            assert(f(s[i - 1]) == Some(h));
        }
    }
}

/// The conjunct can be bound to a table.
pub open spec fn leaf_bindable(c: Cond) -> bool {
    match c {
        Cond::Cmp(Expr::Val(ValRef::New(_)), CmpOp::Eq, Expr::Val(ValRef::SelfRef)) => true,
        Cond::Cmp(Expr::Val(ValRef::SelfRef), CmpOp::Eq, Expr::Val(ValRef::New(_))) => true,
        Cond::Cmp(Expr::Val(ValRef::New(p)), op, Expr::Val(ValRef::Const(v))) => if op is Eq {
            const_key(v@) is Some
        } else {
            p@.len() == 0 && !(op is Ne) && is_threshold(v@)
        },
        Cond::Cmp(Expr::Val(ValRef::Const(v)), op, Expr::Val(ValRef::New(p))) => if op is Eq {
            const_key(v@) is Some
        } else {
            p@.len() == 0 && !(op is Ne) && is_threshold(v@)
        },
        Cond::Became(v) => const_key(v@) is Some,
        Cond::InSet(vs) => forall|i: int|
            0 <= i < vs@.len() ==> const_key((#[trigger] vs@[i])@) is Some,
        Cond::Crossed(Expr::Val(ValRef::Const(v)), _) => is_threshold(v@),
        _ => false,
    }
}

/// The value is a number that other numbers can be compared with.
pub open spec fn is_threshold(v: Val) -> bool {
    v.num() is Some && !v.num()->0.nan()
}

/// Some conjunct of the condition can be bound to a table.
pub open spec fn bindable(c: Cond) -> bool
    decreases c,
{
    match c {
        Cond::And(a, b) => bindable(*a) || bindable(*b),
        Cond::AndNot(a, _) => bindable(*a),
        _ => leaf_bindable(c),
    }
}

impl TypeIndex {
    proof fn lemma_extends(self, other: TypeIndex, calc: CalcId, group: u32)
        requires
            forall|new: Val, old: Val, tys: Seq<EntityTypeId>, h: Hit|
                #![trigger self.has_hit(new, old, tys, h)]
                {
                    &&& other.has_hit(new, old, tys, h) ==> self.has_hit(new, old, tys, h)
                    &&& self.has_hit(new, old, tys, h) ==> other.has_hit(new, old, tys, h) || (
                    h.calc == calc && h.group == group)
                },
        ensures
            self.extends(other, calc, group),
    {
        assert forall|new: Val, old: Val, tys: Seq<EntityTypeId>, h: Hit|
            #![trigger self.hits(new, old, tys).contains(h)]
            #![trigger other.hits(new, old, tys).contains(h)]
            {
                &&& other.hits(new, old, tys).contains(h) ==> self.hits(new, old, tys).contains(h)
                &&& self.hits(new, old, tys).contains(h) ==> other.hits(new, old, tys).contains(h)
                    || (h.calc == calc && h.group == group)
            } by {
            self.lemma_has_hit(new, old, tys, h);
            other.lemma_has_hit(new, old, tys, h);
        }
    }

    fn add_self(&mut self, path: &Vec<String>, calc: CalcId, group: u32)
        requires
            old(self).wf(),
        ensures
            final(self).wf(),
            final(self).scan@ == old(self).scan@,
            final(self).extends(*old(self), calc, group),
            final(self).takes_in(*old(self), calc, group),
            forall|new: Val, old: Val, tys: Seq<EntityTypeId>, sub: InstanceId|
                #![trigger final(self).reaches(new, old, tys, calc, group, sub)]
                calc.0 < tys.len() && sub.ty == tys[calc.0 as int] && new.get_path(
                    path_of(path@),
                ).equals(Val::Ref(sub)) ==> final(self).reaches(new, old, tys, calc, group, sub),
    {
        let ghost before = *self;
        self.self_eq.push(SelfEntry { path: path_copy(path), calc, group });
        proof {
            let e = self.self_eq@.last();
            let n = before.self_eq@.len() as int;
            assert(self.self_eq@ =~= before.self_eq@.insert(n, e));
            assert forall|new: Val, old: Val, tys: Seq<EntityTypeId>, h: Hit|
                #![trigger self.has_hit(new, old, tys, h)]
                {
                    &&& before.has_hit(new, old, tys, h) ==> self.has_hit(new, old, tys, h)
                    &&& self.has_hit(new, old, tys, h) ==> before.has_hit(new, old, tys, h) || (
                    h.calc == calc && h.group == group)
                } by {
                lemma_collect_insert(before.self_eq@, n, e, self_fires(new, tys), h);
            }
            self.lemma_extends(before, calc, group);
            assert forall|new: Val, old: Val, tys: Seq<EntityTypeId>|
                #![trigger self.hits(new, old, tys)]
                #![trigger before.hits(new, old, tys)]
                one_more(
                    self.hits(new, old, tys).to_multiset(),
                    before.hits(new, old, tys).to_multiset(),
                    calc,
                    group,
                ) by {
                lemma_collect_count(before.self_eq@, n, e, self_fires(new, tys));
                self.lemma_tables(new, old, tys);
                before.lemma_tables(new, old, tys);
                assert(self.hits(new, old, tys).to_multiset() =~= with_hit(
                    before.hits(new, old, tys).to_multiset(),
                    self_fires(new, tys)(e),
                ));
            }
            assert forall|new: Val, old: Val, tys: Seq<EntityTypeId>, sub: InstanceId|
                #![trigger self.reaches(new, old, tys, calc, group, sub)]
                calc.0 < tys.len() && sub.ty == tys[calc.0 as int] && new.get_path(
                    path_of(path@),
                ).equals(Val::Ref(sub)) implies self.reaches(new, old, tys, calc, group, sub) by {
                let h = Hit { calc, group, sub: Some(sub) };
                lemma_collect_insert(before.self_eq@, n, e, self_fires(new, tys), h);
                self.lemma_has_hit(new, old, tys, h);
            }
        }
    }

    /// A bucket of the path holds the key for this subscription.
    pub open spec fn bucketed(
        self,
        path: Seq<Seq<char>>,
        key: KeyModel,
        calc: CalcId,
        group: u32,
    ) -> bool {
        exists|i: int, j: int|
            0 <= i < self.buckets@.len() && 0 <= j < self.buckets@[i].entries@.len() && path_of(
                self.buckets@[i].path@,
            ) == path && (#[trigger] self.buckets@[i].entries@[j]).key@ == key
                && self.buckets@[i].entries@[j].calc == calc && self.buckets@[i].entries@[j].group
                == group
    }

    proof fn lemma_bucketed_hit(
        self,
        path: Seq<Seq<char>>,
        key: KeyModel,
        calc: CalcId,
        group: u32,
        new: Val,
        old: Val,
        tys: Seq<EntityTypeId>,
    )
        requires
            self.bucketed(path, key, calc, group),
            key_of(new.get_path(path)) == Some(key),
        ensures
            self.hits(new, old, tys).contains(Hit { calc, group, sub: None }),
    {
        let h = Hit { calc, group, sub: None };
        let (i, j) = choose|i: int, j: int|
            0 <= i < self.buckets@.len() && 0 <= j < self.buckets@[i].entries@.len() && path_of(
                self.buckets@[i].path@,
            ) == path && (#[trigger] self.buckets@[i].entries@[j]).key@ == key
                && self.buckets@[i].entries@[j].calc == calc && self.buckets@[i].entries@[j].group
                == group;
        lemma_bucket_hits_contains(self.buckets@, new, h);
        assert(bucket_fires(new.get_path(path_of(self.buckets@[i].path@)))(
            self.buckets@[i].entries@[j],
        ) == Some(h));
        self.lemma_has_hit(new, old, tys, h);
    }

    /// Beyond the hits of `other`, a write whose value has the key gives one more, if the key
    /// was not there.
    spec fn has_key_of(
        self,
        other: TypeIndex,
        path: Seq<Seq<char>>,
        key: KeyModel,
        calc: CalcId,
        group: u32,
    ) -> bool {
        forall|new: Val, old: Val, tys: Seq<EntityTypeId>|
            #![trigger self.hits(new, old, tys)]
            #![trigger other.hits(new, old, tys)]
            self.hits(new, old, tys).to_multiset() == with_hit(
                other.hits(new, old, tys).to_multiset(),
                if !other.bucketed(path, key, calc, group) && key_of(new.get_path(path)) == Some(
                    key,
                ) {
                    Some(Hit { calc, group, sub: None })
                } else {
                    None
                },
            )
    }

    fn add_bucket(&mut self, path: &Vec<String>, key: VKey, calc: CalcId, group: u32)
        requires
            old(self).wf(),
        ensures
            final(self).wf(),
            final(self).scan@ == old(self).scan@,
            final(self).extends(*old(self), calc, group),
            final(self).takes_in(*old(self), calc, group),
            final(self).bucketed(path_of(path@), key@, calc, group),
            forall|p: Seq<Seq<char>>, k: KeyModel| #[trigger]
                final(self).bucketed(p, k, calc, group) <==> old(self).bucketed(p, k, calc, group)
                    || (p == path_of(path@) && k == key@),
            final(self).has_key_of(*old(self), path_of(path@), key@, calc, group),
    {
        let ghost start = *self;
        let mut i: usize = 0;
        while i < self.buckets.len()
            invariant
                *self == start,
                i <= self.buckets@.len(),
                forall|a: int|
                    0 <= a < i ==> path_of((#[trigger] self.buckets@[a]).path@) != path_of(path@),
            ensures
                *self == start,
                i <= self.buckets@.len(),
                forall|a: int|
                    0 <= a < i ==> path_of((#[trigger] self.buckets@[a]).path@) != path_of(path@),
                i < self.buckets@.len() ==> path_of(self.buckets@[i as int].path@) == path_of(
                    path@,
                ),
            decreases self.buckets@.len() - i,
        {
            if path_same(&self.buckets[i].path, path) {
                break;
            }
            i = i + 1;
        }
        if i == self.buckets.len() {
            self.buckets.push(PathBuckets::new(path_copy(path)));
        }
        let ghost before = *self;
        proof {
            assert(before.wf());
            assert forall|new: Val, old: Val, tys: Seq<EntityTypeId>| #[trigger]
                before.hits(new, old, tys) == start.hits(new, old, tys) by {
                if start.buckets@.len() < before.buckets@.len() {
                    lemma_bucket_empty(start.buckets@, before.buckets@.last(), new);
                }
            }
            // An empty group of entries adds no hit.
            assert forall|new: Val, h: Hit| #[trigger]
                bucket_hits(before.buckets@, new).contains(h) <==> bucket_hits(
                    start.buckets@,
                    new,
                ).contains(h) by {
                lemma_bucket_hits_contains(before.buckets@, new, h);
                lemma_bucket_hits_contains(start.buckets@, new, h);
                assert forall|a: int, b: int|
                    0 <= a < start.buckets@.len() && 0 <= b
                        < start.buckets@[a].entries@.len() implies before.buckets@[a].entries@[b]
                    == #[trigger] start.buckets@[a].entries@[b] by {
                    assert(before.buckets@[a] == start.buckets@[a]);
                }
                assert forall|a: int, b: int|
                    0 <= a < before.buckets@.len() && 0 <= b
                        < before.buckets@[a].entries@.len() implies a < start.buckets@.len()
                    && start.buckets@[a].entries@[b]
                    == #[trigger] before.buckets@[a].entries@[b] by {
                    if a < start.buckets@.len() {
                        assert(before.buckets@[a] == start.buckets@[a]);
                    }
                }
            }
            assert forall|p: Seq<Seq<char>>, k: KeyModel| #[trigger]
                before.bucketed(p, k, calc, group) <==> start.bucketed(p, k, calc, group) by {
                if start.bucketed(p, k, calc, group) {
                    let (a, b) = choose|a: int, b: int|
                        0 <= a < start.buckets@.len() && 0 <= b < start.buckets@[a].entries@.len()
                            && path_of(start.buckets@[a].path@) == p && (
                        #[trigger] start.buckets@[a].entries@[b]).key@ == k
                            && start.buckets@[a].entries@[b].calc == calc
                            && start.buckets@[a].entries@[b].group == group;
                    assert(before.buckets@[a] == start.buckets@[a]);
                    assert(before.buckets@[a].entries@[b].key@ == k);
                }
                if before.bucketed(p, k, calc, group) {
                    let (a, b) = choose|a: int, b: int|
                        0 <= a < before.buckets@.len() && 0 <= b
                            < before.buckets@[a].entries@.len() && path_of(
                            before.buckets@[a].path@,
                        ) == p && (#[trigger] before.buckets@[a].entries@[b]).key@ == k
                            && before.buckets@[a].entries@[b].calc == calc
                            && before.buckets@[a].entries@[b].group == group;
                    assert(a < start.buckets@.len());
                    assert(before.buckets@[a] == start.buckets@[a]);
                    assert(start.buckets@[a].entries@[b].key@ == k);
                }
            }
        }
        let mut j: usize = 0;
        let n = self.buckets[i].entries.len();
        while j < n
            invariant
                *self == before,
                i < self.buckets@.len(),
                n == self.buckets@[i as int].entries@.len(),
                j <= n,
                path_of(self.buckets@[i as int].path@) == path_of(path@),
                before.scan@ == start.scan@,
                before.self_eq@ == start.self_eq@,
                before.lt@ == start.lt@,
                before.gt@ == start.gt@,
                before.cross_down@ == start.cross_down@,
                before.cross_up@ == start.cross_up@,
                start.wf(),
                before.wf(),
                forall|x: int|
                    0 <= x < j ==> !((#[trigger] self.buckets@[i as int].entries@[x]).calc == calc
                        && self.buckets@[i as int].entries@[x].group == group
                        && self.buckets@[i as int].entries@[x].key@ == key@),
                forall|new: Val, old: Val, tys: Seq<EntityTypeId>| #[trigger]
                    before.hits(new, old, tys) == start.hits(new, old, tys),
                forall|new: Val, h: Hit| #[trigger]
                    bucket_hits(before.buckets@, new).contains(h) <==> bucket_hits(
                        start.buckets@,
                        new,
                    ).contains(h),
                forall|p: Seq<Seq<char>>, k: KeyModel| #[trigger]
                    before.bucketed(p, k, calc, group) <==> start.bucketed(p, k, calc, group),
                *old(self) == start,
            decreases n - j,
        {
            let e = &self.buckets[i].entries[j];
            if e.calc == calc && e.group == group && key_same(&e.key, &key) {
                proof {
                    assert(before.buckets@[i as int].entries@[j as int].key@ == key@);
                    assert(before.bucketed(path_of(path@), key@, calc, group));
                    self.lemma_extends(start, calc, group);
                    assert(self.has_key_of(start, path_of(path@), key@, calc, group)) by {
                        assert forall|new: Val, old: Val, tys: Seq<EntityTypeId>|
                            #![trigger self.hits(new, old, tys)]
                            #![trigger start.hits(new, old, tys)]
                            self.hits(new, old, tys) == start.hits(new, old, tys) by {
                            assert(before.hits(new, old, tys) == start.hits(new, old, tys));
                        }
                    }
                    lemma_key_taken_in(*self, start, path_of(path@), key@, calc, group);
                }
                return;
            }
            j = j + 1;
        }
        let ghost e = BucketEntry { key, calc, group };
        self.buckets[i].add(BucketEntry { key, calc, group });
        proof {
            let m = before.buckets@[i as int].entries@.len() as int;
            assert(self.buckets@[i as int].entries@ =~= before.buckets@[i as int].entries@.push(e));
            assert(self.buckets@[i as int].path == before.buckets@[i as int].path);
            assert(forall|a: int|
                0 <= a < self.buckets@.len() && a != i ==> self.buckets@[a] == before.buckets@[a]);
            assert(self.buckets@[i as int].entries@[m].key@ == key@);
            assert(!before.bucketed(path_of(path@), key@, calc, group)) by {
                if before.bucketed(path_of(path@), key@, calc, group) {
                    let (a, b) = choose|a: int, b: int|
                        0 <= a < before.buckets@.len() && 0 <= b
                            < before.buckets@[a].entries@.len() && path_of(
                            before.buckets@[a].path@,
                        ) == path_of(path@) && (
                        #[trigger] before.buckets@[a].entries@[b]).key@ == key@
                            && before.buckets@[a].entries@[b].calc == calc
                            && before.buckets@[a].entries@[b].group == group;
                    assert(before.buckets@[a].path == before.buckets@[a].path);
                    assert(a == i) by {
                        let x = before.buckets@[a];
                        let y = before.buckets@[i as int];
                        assert(path_of(x.path@) == path_of(y.path@));
                    }
                }
            }
            assert(self.wf()) by {
                assert forall|x: int, y: int| 0 <= x < y < self.buckets@.len() implies path_of(
                    (#[trigger] self.buckets@[x]).path@,
                ) != path_of((#[trigger] self.buckets@[y]).path@) by {
                    assert(path_of(before.buckets@[x].path@) != path_of(before.buckets@[y].path@));
                }
            }
            assert forall|new: Val, old: Val, tys: Seq<EntityTypeId>|
                #![trigger self.hits(new, old, tys)]
                #![trigger start.hits(new, old, tys)]
                self.hits(new, old, tys).to_multiset() == with_hit(
                    start.hits(new, old, tys).to_multiset(),
                    if key_of(new.get_path(path_of(path@))) == Some(key@) {
                        Some(Hit { calc, group, sub: None })
                    } else {
                        None
                    },
                ) by {
                assert(before.hits(new, old, tys) == start.hits(new, old, tys));
                lemma_bucket_count(self.buckets@, before.buckets@, i as int, e, new);
                self.lemma_tables(new, old, tys);
                before.lemma_tables(new, old, tys);
                assert(self.hits(new, old, tys).to_multiset() =~= with_hit(
                    before.hits(new, old, tys).to_multiset(),
                    bucket_fires(new.get_path(path_of(path@)))(e),
                ));
            }
            lemma_key_taken_in(*self, start, path_of(path@), key@, calc, group);
            assert forall|p: Seq<Seq<char>>, k: KeyModel| #[trigger]
                self.bucketed(p, k, calc, group) <==> start.bucketed(p, k, calc, group) || (p
                    == path_of(path@) && k == key@) by {
                assert(before.bucketed(p, k, calc, group) <==> start.bucketed(p, k, calc, group));
                if before.bucketed(p, k, calc, group) {
                    let (a, b) = choose|a: int, b: int|
                        0 <= a < before.buckets@.len() && 0 <= b
                            < before.buckets@[a].entries@.len() && path_of(
                            before.buckets@[a].path@,
                        ) == p && (#[trigger] before.buckets@[a].entries@[b]).key@ == k
                            && before.buckets@[a].entries@[b].calc == calc
                            && before.buckets@[a].entries@[b].group == group;
                    assert(self.buckets@[a].entries@[b].key@ == k);
                }
                if self.bucketed(p, k, calc, group) {
                    let (a, b) = choose|a: int, b: int|
                        0 <= a < self.buckets@.len() && 0 <= b < self.buckets@[a].entries@.len()
                            && path_of(self.buckets@[a].path@) == p && (
                        #[trigger] self.buckets@[a].entries@[b]).key@ == k
                            && self.buckets@[a].entries@[b].calc == calc
                            && self.buckets@[a].entries@[b].group == group;
                    if a != i || b != m {
                        assert(before.buckets@[a].entries@[b].key@ == k);
                    }
                }
            }
            assert forall|new: Val, old: Val, tys: Seq<EntityTypeId>, h: Hit|
                #![trigger self.has_hit(new, old, tys, h)]
                {
                    &&& start.has_hit(new, old, tys, h) ==> self.has_hit(new, old, tys, h)
                    &&& self.has_hit(new, old, tys, h) ==> start.has_hit(new, old, tys, h) || (
                    h.calc == calc && h.group == group)
                } by {
                assert(bucket_hits(before.buckets@, new).contains(h) <==> bucket_hits(
                    start.buckets@,
                    new,
                ).contains(h));
                lemma_bucket_hits_contains(before.buckets@, new, h);
                lemma_bucket_hits_contains(self.buckets@, new, h);
                if bucket_hits(before.buckets@, new).contains(h) {
                    let (a, b) = choose|a: int, b: int|
                        0 <= a < before.buckets@.len() && 0 <= b < before.buckets@[a].entries@.len()
                            && bucket_fires(new.get_path(path_of(before.buckets@[a].path@)))(
                            #[trigger] before.buckets@[a].entries@[b],
                        ) == Some(h);
                    assert(self.buckets@[a].entries@[b] == before.buckets@[a].entries@[b]);
                }
                if bucket_hits(self.buckets@, new).contains(h) {
                    let (a, b) = choose|a: int, b: int|
                        0 <= a < self.buckets@.len() && 0 <= b < self.buckets@[a].entries@.len()
                            && bucket_fires(new.get_path(path_of(self.buckets@[a].path@)))(
                            #[trigger] self.buckets@[a].entries@[b],
                        ) == Some(h);
                    if a != i || b != m {
                        assert(self.buckets@[a].entries@[b] == before.buckets@[a].entries@[b]);
                    }
                }
            }
            self.lemma_extends(start, calc, group);
        }
    }
}

impl TypeIndex {
    fn add_lt(&mut self, e: ThEntry)
        requires
            old(self).wf(),
            !e.t.nan(),
        ensures
            final(self).wf(),
            final(self).scan@ == old(self).scan@,
            final(self).extends(*old(self), e.calc, e.group),
            final(self).takes_in(*old(self), e.calc, e.group),
            forall|new: Val, old: Val, tys: Seq<EntityTypeId>|
                lt_fires(new.num())(e) is Some ==> (#[trigger] final(self).hits(new, old, tys)).contains(
                    e.hit(),
                ),
    {
        let ghost before = *self;
        sorted_insert(&mut self.lt, e);
        proof {
            let k = choose|k: int|
                0 <= k <= before.lt@.len() && self.lt@ == before.lt@.insert(k, e);
            assert forall|new: Val, old: Val, tys: Seq<EntityTypeId>, h: Hit|
                #![trigger self.has_hit(new, old, tys, h)]
                {
                    &&& before.has_hit(new, old, tys, h) ==> self.has_hit(new, old, tys, h)
                    &&& self.has_hit(new, old, tys, h) ==> before.has_hit(new, old, tys, h) || (
                    h.calc == e.calc && h.group == e.group)
                } by {
                lemma_collect_insert(before.lt@, k, e, lt_fires(new.num()), h);
            }
            self.lemma_extends(before, e.calc, e.group);
            assert forall|new: Val, old: Val, tys: Seq<EntityTypeId>|
                #![trigger self.hits(new, old, tys)]
                #![trigger before.hits(new, old, tys)]
                one_more(
                    self.hits(new, old, tys).to_multiset(),
                    before.hits(new, old, tys).to_multiset(),
                    e.calc,
                    e.group,
                ) by {
                lemma_collect_count(before.lt@, k, e, lt_fires(new.num()));
                self.lemma_tables(new, old, tys);
                before.lemma_tables(new, old, tys);
                assert(self.hits(new, old, tys).to_multiset() =~= with_hit(
                    before.hits(new, old, tys).to_multiset(),
                    lt_fires(new.num())(e),
                ));
            }
            assert forall|new: Val, old: Val, tys: Seq<EntityTypeId>|
                lt_fires(new.num())(e) is Some implies (#[trigger] self.hits(new, old, tys)).contains(
                e.hit(),
            ) by {
                lemma_collect_insert(before.lt@, k, e, lt_fires(new.num()), e.hit());
                self.lemma_has_hit(new, old, tys, e.hit());
            }
        }
    }

    fn add_gt(&mut self, e: ThEntry)
        requires
            old(self).wf(),
            !e.t.nan(),
        ensures
            final(self).wf(),
            final(self).scan@ == old(self).scan@,
            final(self).extends(*old(self), e.calc, e.group),
            final(self).takes_in(*old(self), e.calc, e.group),
            forall|new: Val, old: Val, tys: Seq<EntityTypeId>|
                gt_fires(new.num())(e) is Some ==> (#[trigger] final(self).hits(new, old, tys)).contains(
                    e.hit(),
                ),
    {
        let ghost before = *self;
        sorted_insert(&mut self.gt, e);
        proof {
            let k = choose|k: int|
                0 <= k <= before.gt@.len() && self.gt@ == before.gt@.insert(k, e);
            assert forall|new: Val, old: Val, tys: Seq<EntityTypeId>, h: Hit|
                #![trigger self.has_hit(new, old, tys, h)]
                {
                    &&& before.has_hit(new, old, tys, h) ==> self.has_hit(new, old, tys, h)
                    &&& self.has_hit(new, old, tys, h) ==> before.has_hit(new, old, tys, h) || (
                    h.calc == e.calc && h.group == e.group)
                } by {
                lemma_collect_insert(before.gt@, k, e, gt_fires(new.num()), h);
            }
            self.lemma_extends(before, e.calc, e.group);
            assert forall|new: Val, old: Val, tys: Seq<EntityTypeId>|
                #![trigger self.hits(new, old, tys)]
                #![trigger before.hits(new, old, tys)]
                one_more(
                    self.hits(new, old, tys).to_multiset(),
                    before.hits(new, old, tys).to_multiset(),
                    e.calc,
                    e.group,
                ) by {
                lemma_collect_count(before.gt@, k, e, gt_fires(new.num()));
                self.lemma_tables(new, old, tys);
                before.lemma_tables(new, old, tys);
                assert(self.hits(new, old, tys).to_multiset() =~= with_hit(
                    before.hits(new, old, tys).to_multiset(),
                    gt_fires(new.num())(e),
                ));
            }
            assert forall|new: Val, old: Val, tys: Seq<EntityTypeId>|
                gt_fires(new.num())(e) is Some implies (#[trigger] self.hits(new, old, tys)).contains(
                e.hit(),
            ) by {
                lemma_collect_insert(before.gt@, k, e, gt_fires(new.num()), e.hit());
                self.lemma_has_hit(new, old, tys, e.hit());
            }
        }
    }

    fn add_down(&mut self, e: ThEntry)
        requires
            old(self).wf(),
            !e.t.nan(),
        ensures
            final(self).wf(),
            final(self).scan@ == old(self).scan@,
            final(self).extends(*old(self), e.calc, e.group),
            final(self).takes_in(*old(self), e.calc, e.group),
            forall|new: Val, old: Val, tys: Seq<EntityTypeId>|
                down_fires(new.num(), old.num())(e) is Some ==> (#[trigger] final(self).hits(new, old, tys)).contains(
                    e.hit(),
                ),
    {
        let ghost before = *self;
        sorted_insert(&mut self.cross_down, e);
        proof {
            let k = choose|k: int|
                0 <= k <= before.cross_down@.len() && self.cross_down@ == before.cross_down@.insert(k, e);
            assert forall|new: Val, old: Val, tys: Seq<EntityTypeId>, h: Hit|
                #![trigger self.has_hit(new, old, tys, h)]
                {
                    &&& before.has_hit(new, old, tys, h) ==> self.has_hit(new, old, tys, h)
                    &&& self.has_hit(new, old, tys, h) ==> before.has_hit(new, old, tys, h) || (
                    h.calc == e.calc && h.group == e.group)
                } by {
                lemma_collect_insert(before.cross_down@, k, e, down_fires(new.num(), old.num()), h);
            }
            self.lemma_extends(before, e.calc, e.group);
            assert forall|new: Val, old: Val, tys: Seq<EntityTypeId>|
                #![trigger self.hits(new, old, tys)]
                #![trigger before.hits(new, old, tys)]
                one_more(
                    self.hits(new, old, tys).to_multiset(),
                    before.hits(new, old, tys).to_multiset(),
                    e.calc,
                    e.group,
                ) by {
                lemma_collect_count(before.cross_down@, k, e, down_fires(new.num(), old.num()));
                self.lemma_tables(new, old, tys);
                before.lemma_tables(new, old, tys);
                assert(self.hits(new, old, tys).to_multiset() =~= with_hit(
                    before.hits(new, old, tys).to_multiset(),
                    down_fires(new.num(), old.num())(e),
                ));
            }
            assert forall|new: Val, old: Val, tys: Seq<EntityTypeId>|
                down_fires(new.num(), old.num())(e) is Some implies (#[trigger] self.hits(new, old, tys)).contains(
                e.hit(),
            ) by {
                lemma_collect_insert(before.cross_down@, k, e, down_fires(new.num(), old.num()), e.hit());
                self.lemma_has_hit(new, old, tys, e.hit());
            }
        }
    }

    fn add_up(&mut self, e: ThEntry)
        requires
            old(self).wf(),
            !e.t.nan(),
        ensures
            final(self).wf(),
            final(self).scan@ == old(self).scan@,
            final(self).extends(*old(self), e.calc, e.group),
            final(self).takes_in(*old(self), e.calc, e.group),
            forall|new: Val, old: Val, tys: Seq<EntityTypeId>|
                up_fires(new.num(), old.num())(e) is Some ==> (#[trigger] final(self).hits(new, old, tys)).contains(
                    e.hit(),
                ),
    {
        let ghost before = *self;
        sorted_insert(&mut self.cross_up, e);
        proof {
            let k = choose|k: int|
                0 <= k <= before.cross_up@.len() && self.cross_up@ == before.cross_up@.insert(k, e);
            assert forall|new: Val, old: Val, tys: Seq<EntityTypeId>, h: Hit|
                #![trigger self.has_hit(new, old, tys, h)]
                {
                    &&& before.has_hit(new, old, tys, h) ==> self.has_hit(new, old, tys, h)
                    &&& self.has_hit(new, old, tys, h) ==> before.has_hit(new, old, tys, h) || (
                    h.calc == e.calc && h.group == e.group)
                } by {
                lemma_collect_insert(before.cross_up@, k, e, up_fires(new.num(), old.num()), h);
            }
            self.lemma_extends(before, e.calc, e.group);
            assert forall|new: Val, old: Val, tys: Seq<EntityTypeId>|
                #![trigger self.hits(new, old, tys)]
                #![trigger before.hits(new, old, tys)]
                one_more(
                    self.hits(new, old, tys).to_multiset(),
                    before.hits(new, old, tys).to_multiset(),
                    e.calc,
                    e.group,
                ) by {
                lemma_collect_count(before.cross_up@, k, e, up_fires(new.num(), old.num()));
                self.lemma_tables(new, old, tys);
                before.lemma_tables(new, old, tys);
                assert(self.hits(new, old, tys).to_multiset() =~= with_hit(
                    before.hits(new, old, tys).to_multiset(),
                    up_fires(new.num(), old.num())(e),
                ));
            }
            assert forall|new: Val, old: Val, tys: Seq<EntityTypeId>|
                up_fires(new.num(), old.num())(e) is Some implies (#[trigger] self.hits(new, old, tys)).contains(
                e.hit(),
            ) by {
                lemma_collect_insert(before.cross_up@, k, e, up_fires(new.num(), old.num()), e.hit());
                self.lemma_has_hit(new, old, tys, e.hit());
            }
        }
    }

    fn add_scan(&mut self, calc: CalcId, group: u32)
        requires
            old(self).wf(),
        ensures
            final(self).wf(),
            final(self).scan@ == old(self).scan@.push((calc, group)),
            *final(self) == (TypeIndex { scan: final(self).scan, ..*old(self) }),
            final(self).extends(*old(self), calc, group),
            final(self).takes_in(*old(self), calc, group),
            forall|new: Val, old: Val, tys: Seq<EntityTypeId>|
                (#[trigger] final(self).hits(new, old, tys)).contains(
                    Hit { calc, group, sub: None },
                ),
    {
        let ghost before = *self;
        self.scan.push((calc, group));
        proof {
            let k = before.scan@.len() as int;
            let e = (calc, group);
            assert(self.scan@ =~= before.scan@.insert(k, e));
            assert forall|new: Val, old: Val, tys: Seq<EntityTypeId>, h: Hit|
                #![trigger self.has_hit(new, old, tys, h)]
                {
                    &&& before.has_hit(new, old, tys, h) ==> self.has_hit(new, old, tys, h)
                    &&& self.has_hit(new, old, tys, h) ==> before.has_hit(new, old, tys, h) || (
                    h.calc == calc && h.group == group)
                } by {
                lemma_collect_insert(before.scan@, k, e, scan_fires(), h);
            }
            self.lemma_extends(before, calc, group);
            assert forall|new: Val, old: Val, tys: Seq<EntityTypeId>|
                #![trigger self.hits(new, old, tys)]
                #![trigger before.hits(new, old, tys)]
                one_more(
                    self.hits(new, old, tys).to_multiset(),
                    before.hits(new, old, tys).to_multiset(),
                    calc,
                    group,
                ) by {
                lemma_collect_count(before.scan@, k, e, scan_fires());
                self.lemma_tables(new, old, tys);
                before.lemma_tables(new, old, tys);
                assert(self.hits(new, old, tys).to_multiset() =~= with_hit(
                    before.hits(new, old, tys).to_multiset(),
                    scan_fires()(e),
                ));
            }
            assert forall|new: Val, old: Val, tys: Seq<EntityTypeId>|
                (#[trigger] self.hits(new, old, tys)).contains(Hit { calc, group, sub: None }) by {
                let h = Hit { calc, group, sub: None };
                lemma_collect_insert(before.scan@, k, e, scan_fires(), h);
                self.lemma_has_hit(new, old, tys, h);
            }
        }
    }

    /// Binds `new op t` to its threshold table.
    fn add_threshold(&mut self, op: CmpOp, v: &Value, calc: CalcId, group: u32) -> (r: bool)
        requires
            old(self).wf(),
            !(op is Eq),
        ensures
            final(self).wf(),
            final(self).scan@ == old(self).scan@,
            r == (!(op is Ne) && is_threshold(v@)),
            !r ==> *final(self) == *old(self),
            r ==> {
                &&& final(self).extends(*old(self), calc, group)
                &&& final(self).takes_in(*old(self), calc, group)
                &&& forall|new: Val, old: Val, tys: Seq<EntityTypeId>|
                    compares(new, op, v@) ==> (#[trigger] final(self).hits(
                        new,
                        old,
                        tys,
                    )).contains(Hit { calc, group, sub: None })
            },
    {
        let t = match v.as_f64() {
            Some(t) => t,
            None => {
                return false;
            },
        };
        if t.is_nan() {
            return false;
        }
        match op {
            CmpOp::Lt => {
                self.add_lt(ThEntry { t, eq_ok: false, calc, group });
                true
            },
            CmpOp::Le => {
                self.add_lt(ThEntry { t, eq_ok: true, calc, group });
                true
            },
            CmpOp::Gt => {
                self.add_gt(ThEntry { t, eq_ok: false, calc, group });
                true
            },
            CmpOp::Ge => {
                self.add_gt(ThEntry { t, eq_ok: true, calc, group });
                true
            },
            _ => false,
        }
    }

    /// Binds `crossed(t, dir)` to its table.
    fn add_crossed(&mut self, v: &Value, dir: Dir, calc: CalcId, group: u32) -> (r: bool)
        requires
            old(self).wf(),
        ensures
            final(self).wf(),
            final(self).scan@ == old(self).scan@,
            r == is_threshold(v@),
            !r ==> *final(self) == *old(self),
            r ==> {
                &&& final(self).extends(*old(self), calc, group)
                &&& final(self).takes_in(*old(self), calc, group)
                &&& forall|new: Val, old: Val, tys: Seq<EntityTypeId>|
                    crosses(v@, dir, old, new) ==> (#[trigger] final(self).hits(
                        new,
                        old,
                        tys,
                    )).contains(Hit { calc, group, sub: None })
            },
    {
        let t = match v.as_f64() {
            Some(t) => t,
            None => {
                return false;
            },
        };
        if t.is_nan() {
            return false;
        }
        let e = ThEntry { t, eq_ok: false, calc, group };
        match dir {
            Dir::Down => self.add_down(e),
            Dir::Up => self.add_up(e),
        }
        true
    }

    /// Binds `new.path = v` to the bucket of the constant.
    fn add_constant(&mut self, path: &Vec<String>, v: &Value, calc: CalcId, group: u32) -> (r: bool)
        requires
            old(self).wf(),
        ensures
            final(self).wf(),
            final(self).scan@ == old(self).scan@,
            r == (const_key(v@) is Some),
            !r ==> *final(self) == *old(self),
            r ==> {
                &&& final(self).extends(*old(self), calc, group)
                &&& final(self).takes_in(*old(self), calc, group)
                &&& forall|new: Val, old: Val, tys: Seq<EntityTypeId>|
                    new.get_path(path_of(path@)).equals(v@) || v@.equals(
                        new.get_path(path_of(path@)),
                    ) ==> (#[trigger] final(self).hits(new, old, tys)).contains(
                        Hit { calc, group, sub: None },
                    )
            },
    {
        match vkey(v) {
            Some(k) => {
                self.add_bucket(path, k, calc, group);
                proof {
                    assert forall|new: Val, old: Val, tys: Seq<EntityTypeId>|
                        new.get_path(path_of(path@)).equals(v@) || v@.equals(
                            new.get_path(path_of(path@)),
                        ) implies (#[trigger] self.hits(new, old, tys)).contains(
                        Hit { calc, group, sub: None },
                    ) by {
                        let x = new.get_path(path_of(path@));
                        lemma_equals_symmetric(x, v@);
                        lemma_equal_keys(x, v@);
                        self.lemma_bucketed_hit(path_of(path@), k@, calc, group, new, old, tys);
                    }
                }
                true
            },
            None => false,
        }
    }

    /// Beyond the hits of `other`, the write gives one more if its value has a key that is
    /// there and was not.
    spec fn keys_hit(
        self,
        other: TypeIndex,
        path: Seq<Seq<char>>,
        calc: CalcId,
        group: u32,
        new: Val,
        old: Val,
        tys: Seq<EntityTypeId>,
    ) -> bool {
        let k = key_of(new.get_path(path));
        self.hits(new, old, tys).to_multiset() == with_hit(
            other.hits(new, old, tys).to_multiset(),
            if k is Some && self.bucketed(path, k->0, calc, group) && !other.bucketed(
                path,
                k->0,
                calc,
                group,
            ) {
                Some(Hit { calc, group, sub: None })
            } else {
                None
            },
        )
    }

    spec fn has_keys_of(
        self,
        other: TypeIndex,
        path: Seq<Seq<char>>,
        calc: CalcId,
        group: u32,
    ) -> bool {
        forall|new: Val, old: Val, tys: Seq<EntityTypeId>|
            #![trigger self.hits(new, old, tys)]
            #![trigger other.hits(new, old, tys)]
            self.keys_hit(other, path, calc, group, new, old, tys)
    }

    /// Binds `new in {..}` to the buckets of its constants, where all have one.
    fn add_set(&mut self, vs: &Vec<Value>, calc: CalcId, group: u32) -> (r: bool)
        requires
            old(self).wf(),
        ensures
            final(self).wf(),
            final(self).scan@ == old(self).scan@,
            r == (forall|i: int|
                0 <= i < vs@.len() ==> const_key((#[trigger] vs@[i])@) is Some),
            !r ==> *final(self) == *old(self),
            r ==> {
                &&& final(self).extends(*old(self), calc, group)
                &&& final(self).takes_in(*old(self), calc, group)
                &&& forall|new: Val, old: Val, tys: Seq<EntityTypeId>, i: int|
                    0 <= i < vs@.len() && (#[trigger] vs@[i])@.equals(new) ==> (
                    #[trigger] final(self).hits(new, old, tys)).contains(
                        Hit { calc, group, sub: None },
                    )
            },
    {
        let ghost before = *self;
        let mut keys: Vec<VKey> = Vec::new();
        let mut i: usize = 0;
        while i < vs.len()
            invariant
                i <= vs@.len(),
                keys@.len() == i,
                forall|j: int|
                    0 <= j < i ==> const_key(vs@[j]@) == Some((#[trigger] keys@[j])@),
                forall|j: int| 0 <= j < i ==> const_key((#[trigger] vs@[j])@) is Some,
                *self == before,
                *old(self) == before,
                before.wf(),
            decreases vs@.len() - i,
        {
            match vkey(&vs[i]) {
                Some(k) => keys.push(k),
                None => {
                    return false;
                },
            }
            i = i + 1;
        }
        let ghost all = keys@;
        let path: Vec<String> = Vec::new();
        while keys.len() > 0
            invariant
                self.wf(),
                self.scan@ == before.scan@,
                path@.len() == 0,
                keys@.len() <= all.len(),
                keys@ == all.take(keys@.len() as int),
                self.extends(before, calc, group),
                self.has_keys_of(before, path_of(path@), calc, group),
                forall|q: KeyModel|
                    before.bucketed(path_of(path@), q, calc, group) ==> #[trigger] self.bucketed(
                        path_of(path@),
                        q,
                        calc,
                        group,
                    ),
                forall|j: int|
                    keys@.len() <= j < all.len() ==> self.bucketed(
                        path_of(path@),
                        (#[trigger] all[j])@,
                        calc,
                        group,
                    ),
            decreases keys@.len(),
        {
            let ghost part = *self;
            let ghost n = keys@.len() - 1;
            let k = keys.pop().unwrap();
            assert(k == all[n]);
            assert(keys@ =~= all.take(n));
            self.add_bucket(&path, k, calc, group);
            proof {
                assert forall|j: int| n <= j < all.len() implies self.bucketed(
                    path_of(path@),
                    (#[trigger] all[j])@,
                    calc,
                    group,
                ) by {
                    if j > n {
                        assert(part.bucketed(path_of(path@), all[j]@, calc, group));
                    }
                }
                lemma_extends_twice(*self, part, before, calc, group);
                assert forall|new: Val, old: Val, tys: Seq<EntityTypeId>|
                    #![trigger self.hits(new, old, tys)]
                    #![trigger before.hits(new, old, tys)]
                    self.keys_hit(before, path_of(path@), calc, group, new, old, tys) by {
                    assert(part.keys_hit(before, path_of(path@), calc, group, new, old, tys)) by {
                        assert(part.hits(new, old, tys) == part.hits(new, old, tys));
                    }
                    let v = key_of(new.get_path(path_of(path@)));
                    if v is Some {
                        assert(self.bucketed(path_of(path@), v->0, calc, group)
                            <==> part.bucketed(path_of(path@), v->0, calc, group) || v->0 == k@);
                    }
                }
            }
        }
        proof {
            assert forall|new: Val, old: Val, tys: Seq<EntityTypeId>, i: int|
                0 <= i < vs@.len() && (#[trigger] vs@[i])@.equals(new) implies (
            #[trigger] self.hits(new, old, tys)).contains(Hit { calc, group, sub: None }) by {
                lemma_equals_symmetric(new, vs@[i]@);
                lemma_equal_keys(new, vs@[i]@);
                assert(const_key(vs@[i]@) == Some(all[i]@));
                assert(new.get_path(path_of(path@)) == new);
                self.lemma_bucketed_hit(path_of(path@), all[i]@, calc, group, new, old, tys);
            }
        }
        true
    }
}

proof fn lemma_extends_twice(
    c: TypeIndex,
    b: TypeIndex,
    a: TypeIndex,
    calc: CalcId,
    group: u32,
)
    requires
        c.extends(b, calc, group),
        b.extends(a, calc, group),
    ensures
        c.extends(a, calc, group),
{
    assert forall|new: Val, old: Val, tys: Seq<EntityTypeId>, h: Hit|
        #![trigger c.hits(new, old, tys).contains(h)]
        #![trigger a.hits(new, old, tys).contains(h)]
        {
            &&& a.hits(new, old, tys).contains(h) ==> c.hits(new, old, tys).contains(h)
            &&& c.hits(new, old, tys).contains(h) ==> a.hits(new, old, tys).contains(h) || (h.calc
                == calc && h.group == group)
        } by {
        assert(b.hits(new, old, tys).contains(h) ==> c.hits(new, old, tys).contains(h));
        assert(a.hits(new, old, tys).contains(h) ==> b.hits(new, old, tys).contains(h));
    }
}

/// A key more is at most one hit more.
proof fn lemma_key_taken_in(
    after: TypeIndex,
    before: TypeIndex,
    path: Seq<Seq<char>>,
    key: KeyModel,
    calc: CalcId,
    group: u32,
)
    requires
        after.has_key_of(before, path, key, calc, group),
    ensures
        after.takes_in(before, calc, group),
{
}

/// Equality with a constant that has a key is symmetric.
proof fn lemma_equals_symmetric(v: Val, c: Val)
    requires
        const_key(c) is Some,
    ensures
        v.equals(c) <==> c.equals(v),
{
}

impl TypeIndex {
    /// Binds a conjunct to its table, where it has one.
    fn bind_leaf(&mut self, cond: &Cond, calc: CalcId, group: u32) -> (r: bool)
        requires
            old(self).wf(),
        ensures
            final(self).wf(),
            final(self).scan@ == old(self).scan@,
            r == leaf_bindable(*cond),
            !r ==> *final(self) == *old(self),
            r ==> {
                &&& final(self).extends(*old(self), calc, group)
                &&& final(self).takes_in(*old(self), calc, group)
                &&& final(self).covers(*cond, calc, group)
            },
    {
        match cond {
            Cond::Cmp(Expr::Val(ValRef::New(p)), CmpOp::Eq, Expr::Val(ValRef::SelfRef)) => {
                self.add_self(p, calc, group);
                proof {
                    assert(self.covers(*cond, calc, group)) by {
                        assert forall|env: Env, tys: Seq<EntityTypeId>|
                            #![trigger holds(*cond, env), self.hits(env.new, env.old, tys)]
                            holds(*cond, env) && calc.0 < tys.len() && env.sub.ty
                                == tys[calc.0 as int] implies self.reaches(
                            env.new,
                            env.old,
                            tys,
                            calc,
                            group,
                            env.sub,
                        ) by {
                            assert(expr_value(Expr::Val(ValRef::New(*p)), env)
                                == env.new.get_path(path_of(p@)));
                        }
                    }
                }
                true
            },
            Cond::Cmp(Expr::Val(ValRef::SelfRef), CmpOp::Eq, Expr::Val(ValRef::New(p))) => {
                self.add_self(p, calc, group);
                proof {
                    assert(self.covers(*cond, calc, group)) by {
                        assert forall|env: Env, tys: Seq<EntityTypeId>|
                            #![trigger holds(*cond, env), self.hits(env.new, env.old, tys)]
                            holds(*cond, env) && calc.0 < tys.len() && env.sub.ty
                                == tys[calc.0 as int] implies self.reaches(
                            env.new,
                            env.old,
                            tys,
                            calc,
                            group,
                            env.sub,
                        ) by {
                            let x = env.new.get_path(path_of(p@));
                            lemma_equals_symmetric(x, Val::Ref(env.sub));
                        }
                    }
                }
                true
            },
            Cond::Cmp(Expr::Val(ValRef::New(p)), op, Expr::Val(ValRef::Const(v))) => {
                let r = if matches!(op, CmpOp::Eq) {
                    self.add_constant(p, v, calc, group)
                } else {
                    p.len() == 0 && self.add_threshold(*op, v, calc, group)
                };
                proof {
                    if r {
                        self.lemma_covers_all(*cond, calc, group);
                    }
                }
                r
            },
            Cond::Cmp(Expr::Val(ValRef::Const(v)), op, Expr::Val(ValRef::New(p))) => {
                let r = if matches!(op, CmpOp::Eq) {
                    self.add_constant(p, v, calc, group)
                } else {
                    match mirror(*op) {
                        Some(m) => p.len() == 0 && self.add_threshold(m, v, calc, group),
                        None => false,
                    }
                };
                proof {
                    if r {
                        self.lemma_covers_all(*cond, calc, group);
                    }
                }
                r
            },
            Cond::Became(v) => {
                let path: Vec<String> = Vec::new();
                let r = self.add_constant(&path, v, calc, group);
                proof {
                    if r {
                        assert forall|new: Val| #[trigger] new.get_path(path_of(path@))
                            == new by {}
                        self.lemma_covers_all(*cond, calc, group);
                    }
                }
                r
            },
            Cond::InSet(vs) => {
                let r = self.add_set(vs, calc, group);
                proof {
                    if r {
                        self.lemma_covers_all(*cond, calc, group);
                    }
                }
                r
            },
            Cond::Crossed(Expr::Val(ValRef::Const(v)), dir) => {
                let r = self.add_crossed(v, *dir, calc, group);
                proof {
                    if r {
                        self.lemma_covers_all(*cond, calc, group);
                    }
                }
                r
            },
            _ => false,
        }
    }

    /// Where every write that the condition holds of gives a hit for all subscribers, none
    /// is missed.
    proof fn lemma_covers_all(self, cond: Cond, calc: CalcId, group: u32)
        requires
            forall|env: Env, tys: Seq<EntityTypeId>|
                #![trigger holds(cond, env), self.hits(env.new, env.old, tys)]
                holds(cond, env) ==> self.hits(env.new, env.old, tys).contains(
                    Hit { calc, group, sub: None },
                ),
        ensures
            self.covers(cond, calc, group),
    {
    }

    /// What covers a conjunct covers the condition.
    proof fn lemma_covers_conjunct(self, cond: Cond, part: Cond, calc: CalcId, group: u32)
        requires
            self.covers(part, calc, group),
            forall|env: Env| #[trigger] holds(cond, env) ==> holds(part, env),
        ensures
            self.covers(cond, calc, group),
    {
        assert forall|env: Env, tys: Seq<EntityTypeId>|
            #![trigger holds(cond, env), self.hits(env.new, env.old, tys)]
            holds(cond, env) && calc.0 < tys.len() && env.sub.ty
                == tys[calc.0 as int] implies self.reaches(
            env.new,
            env.old,
            tys,
            calc,
            group,
            env.sub,
        ) by {
            assert(holds(part, env));
        }
    }

    /// Binds the first conjunct that has a table.
    fn bind(&mut self, cond: &Cond, calc: CalcId, group: u32) -> (r: bool)
        requires
            old(self).wf(),
        ensures
            final(self).wf(),
            final(self).scan@ == old(self).scan@,
            r == bindable(*cond),
            !r ==> *final(self) == *old(self),
            r ==> {
                &&& final(self).extends(*old(self), calc, group)
                &&& final(self).takes_in(*old(self), calc, group)
                &&& final(self).covers(*cond, calc, group)
            },
        decreases cond,
    {
        match cond {
            Cond::And(a, b) => {
                if self.bind(a, calc, group) {
                    proof {
                        self.lemma_covers_conjunct(*cond, **a, calc, group);
                    }
                    true
                } else {
                    let r = self.bind(b, calc, group);
                    proof {
                        if r {
                            self.lemma_covers_conjunct(*cond, **b, calc, group);
                        }
                    }
                    r
                }
            },
            Cond::AndNot(a, _) => {
                let r = self.bind(a, calc, group);
                proof {
                    if r {
                        self.lemma_covers_conjunct(*cond, **a, calc, group);
                    }
                }
                r
            },
            _ => self.bind_leaf(cond, calc, group),
        }
    }

    /// Adds a subscription: to the table of its first conjunct that has one, else to the
    /// scan list. From then on no write for which the condition holds is missed, and every
    /// write finds the subscription once at most.
    pub fn insert(&mut self, cond: &Cond, calc: CalcId, group: u32)
        requires
            old(self).wf(),
        ensures
            final(self).wf(),
            final(self).extends(*old(self), calc, group),
            final(self).takes_in(*old(self), calc, group),
            final(self).covers(*cond, calc, group),
            final(self).scan@ == (if bindable(*cond) {
                old(self).scan@
            } else {
                old(self).scan@.push((calc, group))
            }),
            !bindable(*cond) ==> *final(self) == (TypeIndex {
                scan: final(self).scan,
                ..*old(self)
            }),
    {
        if !self.bind(cond, calc, group) {
            self.add_scan(calc, group);
            proof {
                self.lemma_covers_all(*cond, calc, group);
            }
        }
    }
}

/// What was covered stays covered when the index grows.
pub proof fn law_coverage_is_kept(
    before: TypeIndex,
    after: TypeIndex,
    cond: Cond,
    calc: CalcId,
    group: u32,
    other: CalcId,
    other_group: u32,
)
    requires
        before.covers(cond, calc, group),
        after.extends(before, other, other_group),
    ensures
        after.covers(cond, calc, group),
{
    assert forall|env: Env, tys: Seq<EntityTypeId>|
        #![trigger holds(cond, env), after.hits(env.new, env.old, tys)]
        holds(cond, env) && calc.0 < tys.len() && env.sub.ty
            == tys[calc.0 as int] implies after.reaches(
        env.new,
        env.old,
        tys,
        calc,
        group,
        env.sub,
    ) by {
        let h1 = Hit { calc, group, sub: None };
        let h2 = Hit { calc, group, sub: Some(env.sub) };
        assert(before.hits(env.new, env.old, tys) == before.hits(env.new, env.old, tys));
        assert(before.reaches(env.new, env.old, tys, calc, group, env.sub));
    }
}

}
