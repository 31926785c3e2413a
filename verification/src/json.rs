//! JSON values as the rest of the library sees them.
//!
//! A `JsonValue` mirrors `serde_json::Value`; objects keep their entries in a
//! vector of unique keys (`JsonMap`). Numbers keep serde_json's three
//! representations as plain integers together with the bit pattern of the
//! number's `f64` approximation, which is what every numeric comparison of
//! the library orders by. The serde_json number itself is carried along so
//! that a value can be handed back to serde_json unchanged.
use vstd::prelude::*;

verus! {

#[verifier::external_type_specification]
#[verifier::external_body]
pub struct ExSerdeNumber(serde_json::Number);

#[verifier::external_type_specification]
#[verifier::external_body]
pub struct ExSerdeValue(serde_json::Value);

/// Which of serde_json's representations a number has.
#[derive(PartialEq, Eq, Structural, Clone, Copy, Debug)]
pub enum NumberKind {
    PosInt,
    NegInt,
    Float,
}

/// A JSON number.
#[derive(Debug)]
pub struct JsonNumber {
    pub kind: NumberKind,
    /// The value when `kind` is `PosInt`.
    pub pos: u64,
    /// The value when `kind` is `NegInt`.
    pub neg: i64,
    /// Bit pattern of the number's `f64` approximation (serde_json's `as_f64`).
    pub f64_bits: u64,
    /// The number as serde_json holds it, kept for floats (integers are
    /// rebuilt from `pos` or `neg`).
    pub raw: Option<serde_json::Number>,
}

/// The JSON number of an `i64`, as `serde_json::Number::from` builds it.
pub open spec fn int_number(i: i64) -> JsonNumber {
    JsonNumber {
        kind: if i < 0 {
            NumberKind::NegInt
        } else {
            NumberKind::PosInt
        },
        pos: if i < 0 {
            0
        } else {
            i as u64
        },
        neg: if i < 0 {
            i
        } else {
            0
        },
        f64_bits: i64_f64_bits(i),
        raw: None,
    }
}

/// Bit pattern of IEEE negative zero.
pub const NEG_ZERO_BITS: u64 = 0x8000_0000_0000_0000u64;

/// An unsigned key that orders finite `f64` bit patterns as the floats they
/// encode are ordered, with `-0.0` and `0.0` given the same key.
pub open spec fn f64_order_key(bits: u64) -> int {
    let b = if bits == NEG_ZERO_BITS { 0u64 } else { bits };
    if b >= NEG_ZERO_BITS {
        u64::MAX - b
    } else {
        b + NEG_ZERO_BITS
    }
}

pub fn f64_order_key_exec(bits: u64) -> (k: u64)
    ensures
        k == f64_order_key(bits),
{
    let b = if bits == NEG_ZERO_BITS { 0u64 } else { bits };
    if b >= NEG_ZERO_BITS {
        u64::MAX - b
    } else {
        b + NEG_ZERO_BITS
    }
}

impl JsonNumber {
    /// serde_json's `as_i64`.
    pub open spec fn spec_as_i64(self) -> Option<i64> {
        match self.kind {
            NumberKind::PosInt => if self.pos <= i64::MAX as u64 {
                Some(self.pos as i64)
            } else {
                None
            },
            NumberKind::NegInt => Some(self.neg),
            NumberKind::Float => None,
        }
    }

    /// serde_json's number equality: same representation and same value,
    /// floats compared as floats.
    pub open spec fn same(self, other: JsonNumber) -> bool {
        &&& self.kind == other.kind
        &&& match self.kind {
            NumberKind::PosInt => self.pos == other.pos,
            NumberKind::NegInt => self.neg == other.neg,
            NumberKind::Float => f64_order_key(self.f64_bits) == f64_order_key(other.f64_bits),
        }
    }

    /// Ordering key of the number's `f64` approximation.
    pub open spec fn order_key(self) -> int {
        f64_order_key(self.f64_bits)
    }

    pub fn as_i64(&self) -> (r: Option<i64>)
        ensures
            r == self.spec_as_i64(),
    {
        match self.kind {
            NumberKind::PosInt => if self.pos <= i64::MAX as u64 {
                Some(self.pos as i64)
            } else {
                None
            },
            NumberKind::NegInt => Some(self.neg),
            NumberKind::Float => None,
        }
    }

    pub fn same_as(&self, other: &JsonNumber) -> (r: bool)
        ensures
            r == self.same(*other),
    {
        if self.kind != other.kind {
            return false;
        }
        match self.kind {
            NumberKind::PosInt => self.pos == other.pos,
            NumberKind::NegInt => self.neg == other.neg,
            NumberKind::Float => f64_order_key_exec(self.f64_bits) == f64_order_key_exec(
                other.f64_bits,
            ),
        }
    }

    pub fn duplicate(&self) -> (r: JsonNumber)
        ensures
            r == *self,
    {
        JsonNumber {
            kind: self.kind,
            pos: self.pos,
            neg: self.neg,
            f64_bits: self.f64_bits,
            raw: match &self.raw {
                Some(r) => Some(clone_serde_number(r)),
                None => None,
            },
        }
    }

    /// The JSON number of an `i64`, as `serde_json::Number::from` builds it.
    pub fn from_i64(i: i64) -> (r: JsonNumber)
        ensures
            r == int_number(i),
            r.spec_as_i64() == Some(i),
            forall|j: i64| j <= i ==> (#[trigger] int_number(j)).order_key() <= r.order_key(),
            forall|j: i64| i <= j ==> r.order_key() <= (#[trigger] int_number(j)).order_key(),
            forall|j: i64|
                -9007199254740992 <= j < i <= 9007199254740992 ==> (#[trigger] int_number(j)).order_key()
                    < r.order_key(),
            forall|j: i64|
                -9007199254740992 <= i < j <= 9007199254740992 ==> r.order_key() < (
                #[trigger] int_number(j)).order_key(),
    {
        let bits = i64_to_f64_bits(i);
        if i < 0 {
            JsonNumber { kind: NumberKind::NegInt, pos: 0, neg: i, f64_bits: bits, raw: None }
        } else {
            JsonNumber { kind: NumberKind::PosInt, pos: i as u64, neg: 0, f64_bits: bits, raw: None }
        }
    }
}

/// Bit pattern of the `f64` nearest to an `i64` (what serde_json's `as_f64`
/// gives for an integer number).
pub uninterp spec fn i64_f64_bits(i: i64) -> u64;

/// Calls `serde_json::Number::as_f64` on the number built from `i` and takes
/// its bits. That is `i as f64`, which std documents as the closest float:
/// the contract says that the conversion keeps the order of integers
/// (`f64_order_key`, a finite float's order) and tells apart integers of
/// magnitude up to 2^53, which convert exactly; the bits themselves are only
/// named.
#[verifier::external_body]
fn i64_to_f64_bits(i: i64) -> (r: u64)
    ensures
        r == i64_f64_bits(i),
        forall|j: i64| j <= i ==> f64_order_key(#[trigger] i64_f64_bits(j)) <= f64_order_key(r),
        forall|j: i64| i <= j ==> f64_order_key(r) <= f64_order_key(#[trigger] i64_f64_bits(j)),
        forall|j: i64|
            -9007199254740992 <= j < i <= 9007199254740992 ==> f64_order_key(#[trigger] i64_f64_bits(j))
                < f64_order_key(r),
        forall|j: i64|
            -9007199254740992 <= i < j <= 9007199254740992 ==> f64_order_key(r) < f64_order_key(
                #[trigger] i64_f64_bits(j),
            ),
{
    serde_json::Number::from(i).as_f64().map(|x| x.to_bits()).unwrap_or_default()
}

/// `Clone::clone` on `serde_json::Number`, a derived clone of plain data,
/// which gives back an equal number.
#[verifier::external_body]
fn clone_serde_number(n: &serde_json::Number) -> (r: serde_json::Number)
    ensures
        r == *n,
{
    n.clone()
}

/// A JSON value.
#[derive(Debug)]
pub enum JsonValue {
    Null,
    Bool(bool),
    Number(JsonNumber),
    String(String),
    Array(Vec<JsonValue>),
    Object(JsonMap),
}

/// A JSON object: entries in insertion order, keys unique.
#[derive(Debug)]
pub struct JsonMap {
    pub entries: Vec<(String, JsonValue)>,
}

/// The mathematical value of a `JsonValue`.
pub enum JsonView {
    Null,
    Bool(bool),
    Number(JsonNumber),
    Str(Seq<char>),
    Array(Seq<JsonView>),
    Object(Seq<(Seq<char>, JsonView)>),
}

pub open spec fn json_view(v: JsonValue) -> JsonView
    decreases v,
{
    match v {
        JsonValue::Null => JsonView::Null,
        JsonValue::Bool(b) => JsonView::Bool(b),
        JsonValue::Number(n) => JsonView::Number(n),
        JsonValue::String(s) => JsonView::Str(s@),
        JsonValue::Array(xs) => JsonView::Array(json_views(xs@)),
        JsonValue::Object(m) => JsonView::Object(entries_view(m.entries@)),
    }
}

pub open spec fn json_views(xs: Seq<JsonValue>) -> Seq<JsonView>
    decreases xs,
{
    if xs.len() == 0 {
        Seq::empty()
    } else {
        seq![json_view(xs[0])] + json_views(xs.drop_first())
    }
}

pub open spec fn entries_view(es: Seq<(String, JsonValue)>) -> Seq<(Seq<char>, JsonView)>
    decreases es,
{
    if es.len() == 0 {
        Seq::empty()
    } else {
        seq![(es[0].0@, json_view(es[0].1))] + entries_view(es.drop_first())
    }
}

impl View for JsonValue {
    type V = JsonView;

    open spec fn view(&self) -> JsonView {
        json_view(*self)
    }
}

impl View for JsonMap {
    type V = Seq<(Seq<char>, JsonView)>;

    open spec fn view(&self) -> Seq<(Seq<char>, JsonView)> {
        entries_view(self.entries@)
    }
}

pub proof fn lemma_json_views(xs: Seq<JsonValue>)
    ensures
        json_views(xs).len() == xs.len(),
        forall|i: int| 0 <= i < xs.len() ==> #[trigger] json_views(xs)[i] == json_view(xs[i]),
    decreases xs.len(),
{
    if xs.len() > 0 {
        lemma_json_views(xs.drop_first());
        assert forall|i: int| 0 <= i < xs.len() implies #[trigger] json_views(xs)[i] == json_view(
            xs[i],
        ) by {
            if i > 0 {
                assert(xs.drop_first()[i - 1] == xs[i]);
            }
        }
    }
}

pub proof fn lemma_entries_view(es: Seq<(String, JsonValue)>)
    ensures
        entries_view(es).len() == es.len(),
        forall|i: int|
            0 <= i < es.len() ==> #[trigger] entries_view(es)[i] == (es[i].0@, json_view(es[i].1)),
    decreases es.len(),
{
    if es.len() > 0 {
        lemma_entries_view(es.drop_first());
        assert forall|i: int| 0 <= i < es.len() implies #[trigger] entries_view(es)[i] == (
            es[i].0@,
            json_view(es[i].1),
        ) by {
            if i > 0 {
                assert(es.drop_first()[i - 1] == es[i]);
            }
        }
    }
}

/// The value of the first entry with key `k`.
pub open spec fn entries_get(entries: Seq<(Seq<char>, JsonView)>, k: Seq<char>) -> Option<JsonView>
    decreases entries.len(),
{
    if entries.len() == 0 {
        None
    } else if entries[0].0 == k {
        Some(entries[0].1)
    } else {
        entries_get(entries.drop_first(), k)
    }
}

/// Keys of the entries, in order.
pub open spec fn entries_keys(entries: Seq<(Seq<char>, JsonView)>) -> Seq<Seq<char>> {
    entries.map_values(|e: (Seq<char>, JsonView)| e.0)
}

/// serde_json's value equality (`PartialEq for Value`).
pub open spec fn json_equal(a: JsonView, b: JsonView) -> bool
    decreases a,
{
    match a {
        JsonView::Null => b is Null,
        JsonView::Bool(x) => b matches JsonView::Bool(y) && x == y,
        JsonView::Number(x) => b matches JsonView::Number(y) && x.same(y),
        JsonView::Str(x) => b matches JsonView::Str(y) && x == y,
        JsonView::Array(xs) => b matches JsonView::Array(ys) && seq_equal(xs, ys),
        JsonView::Object(xm) => b matches JsonView::Object(ym) && xm.len() == ym.len()
            && entries_within(xm, ym),
    }
}

/// Element-wise `json_equal`.
pub open spec fn seq_equal(xs: Seq<JsonView>, ys: Seq<JsonView>) -> bool
    decreases xs,
{
    if xs.len() == 0 {
        ys.len() == 0
    } else {
        ys.len() > 0 && json_equal(xs[0], ys[0]) && seq_equal(xs.drop_first(), ys.drop_first())
    }
}

/// Every entry of `xs` has an equal value under its key in `ys`.
pub open spec fn entries_within(xs: Seq<(Seq<char>, JsonView)>, ys: Seq<(Seq<char>, JsonView)>) -> bool
    decreases xs,
{
    if xs.len() == 0 {
        true
    } else {
        &&& entries_get(ys, xs[0].0) matches Some(v) && json_equal(xs[0].1, v)
        &&& entries_within(xs.drop_first(), ys)
    }
}

impl JsonMap {
    pub open spec fn spec_get(self, k: Seq<char>) -> Option<JsonView> {
        entries_get(self@, k)
    }

    pub open spec fn contains_key(self, k: Seq<char>) -> bool {
        self.spec_get(k) is Some
    }

    /// Keys are unique.
    pub open spec fn wf(self) -> bool {
        entries_keys(self@).no_duplicates()
    }

    pub fn new() -> (m: JsonMap)
        ensures
            m@ == Seq::<(Seq<char>, JsonView)>::empty(),
            m.wf(),
    {
        let m = JsonMap { entries: Vec::new() };
        assert(m@ =~= Seq::<(Seq<char>, JsonView)>::empty());
        assert(entries_keys(m@) =~= Seq::<Seq<char>>::empty());
        m
    }

    pub fn len(&self) -> (n: usize)
        ensures
            n == self@.len(),
    {
        proof {
            lemma_entries_view(self.entries@);
        }
        self.entries.len()
    }

    pub fn get(&self, k: &str) -> (r: Option<&JsonValue>)
        ensures
            match r {
                Some(v) => self.spec_get(k@) == Some(v@),
                None => self.spec_get(k@) is None,
            },
    {
        proof {
            lemma_entries_view(self.entries@);
        }
        let ghost ev = self@;
        let mut i: usize = 0;
        assert(ev.skip(0) =~= ev);
        while i < self.entries.len()
            invariant
                i <= self.entries@.len(),
                ev == self@,
                ev.len() == self.entries@.len(),
                forall|j: int| 0 <= j < self.entries@.len() ==> #[trigger] ev[j] == (self.entries@[j].0@, json_view(self.entries@[j].1)),
                entries_get(ev, k@) == entries_get(ev.skip(i as int), k@),
            decreases self.entries@.len() - i,
        {
            assert(ev.skip(i as int).drop_first() =~= ev.skip(i + 1));
            assert(ev.skip(i as int)[0] == ev[i as int]);
            if str_eq(self.entries[i].0.as_str(), k) {
                return Some(&self.entries[i].1);
            }
            i = i + 1;
        }
        None
    }

    /// Sets `k` to `v`: replaces the value of an existing entry in place,
    /// else appends a new entry.
    pub fn insert(&mut self, k: String, v: JsonValue)
        requires
            old(self).wf(),
        ensures
            final(self).wf(),
            final(self)@ == map_insert(old(self)@, k@, v@),
    {
        proof {
            lemma_entries_view(self.entries@);
        }
        let ghost old_view = self@;
        let mut i: usize = 0;
        while i < self.entries.len()
            invariant
                i <= self.entries@.len(),
                old_view == old(self)@,
                self.entries@ == old(self).entries@,
                old_view.len() == self.entries@.len(),
                forall|j: int| 0 <= j < self.entries@.len() ==> #[trigger] old_view[j] == (self.entries@[j].0@, json_view(self.entries@[j].1)),
                entries_keys(old_view).no_duplicates(),
                forall|j: int| 0 <= j < i ==> old_view[j].0 != k@,
            decreases self.entries@.len() - i,
        {
            if str_eq(self.entries[i].0.as_str(), k.as_str()) {
                proof {
                    lemma_index_of_key(old_view, i as int);
                }
                let ghost kv = (k@, v@);
                self.entries.set(i, (k, v));
                proof {
                    lemma_entries_view(self.entries@);
                    assert(self@ =~= old_view.update(i as int, kv));
                    assert(entries_keys(self@) =~= entries_keys(old_view));
                }
                return ;
            }
            i = i + 1;
        }
        proof {
            lemma_entries_get_absent(old_view, k@);
            lemma_keys_push_no_dup(old_view, k@);
        }
        let ghost kv = (k@, v@);
        self.entries.push((k, v));
        proof {
            lemma_entries_view(self.entries@);
            assert(self@ =~= old_view.push(kv));
            assert(entries_keys(self@) =~= entries_keys(old_view).push(k@));
        }
    }
}

/// The entries with `k` set to `v`: the first entry with key `k` gets the
/// new value in place, else a new entry is appended.
pub open spec fn map_insert(
    entries: Seq<(Seq<char>, JsonView)>,
    k: Seq<char>,
    v: JsonView,
) -> Seq<(Seq<char>, JsonView)> {
    if entries_get(entries, k) is Some {
        entries.update(index_of_key(entries, k), (k, v))
    } else {
        entries.push((k, v))
    }
}

/// Index of the first entry with key `k`.
pub open spec fn index_of_key(entries: Seq<(Seq<char>, JsonView)>, k: Seq<char>) -> int
    decreases entries.len(),
{
    if entries.len() == 0 {
        0
    } else if entries[0].0 == k {
        0
    } else {
        1 + index_of_key(entries.drop_first(), k)
    }
}

/// After setting a key, looking it up gives the value set.
pub proof fn lemma_entries_get_insert(entries: Seq<(Seq<char>, JsonView)>, k: Seq<char>, v: JsonView)
    ensures
        entries_get(map_insert(entries, k, v), k) == Some(v),
    decreases entries.len(),
{
    if entries.len() > 0 && entries[0].0 != k {
        let rest = entries.drop_first();
        lemma_entries_get_insert(rest, k, v);
        if entries_get(entries, k) is Some {
            let m = map_insert(entries, k, v);
            lemma_entries_get_some(rest, k);
            assert(index_of_key(entries, k) == 1 + index_of_key(rest, k));
            assert(m[0] == entries[0]);
            assert(m.drop_first() =~= map_insert(rest, k, v));
        } else {
            assert(map_insert(entries, k, v).drop_first() =~= map_insert(rest, k, v));
        }
    }
}

pub proof fn lemma_index_of_key(entries: Seq<(Seq<char>, JsonView)>, i: int)
    requires
        0 <= i < entries.len(),
        forall|j: int| 0 <= j < i ==> entries[j].0 != entries[i].0,
    ensures
        index_of_key(entries, entries[i].0) == i,
        entries_get(entries, entries[i].0) == Some(entries[i].1),
    decreases i,
{
    if i > 0 {
        lemma_index_of_key(entries.drop_first(), i - 1);
    }
}

pub proof fn lemma_entries_get_absent(entries: Seq<(Seq<char>, JsonView)>, k: Seq<char>)
    requires
        forall|j: int| 0 <= j < entries.len() ==> entries[j].0 != k,
    ensures
        entries_get(entries, k) is None,
    decreases entries.len(),
{
    if entries.len() > 0 {
        lemma_entries_get_absent(entries.drop_first(), k);
    }
}

/// `entries_get` finds a key exactly when some entry has it, and then finds
/// the value of the first such entry.
pub proof fn lemma_entries_get_some(entries: Seq<(Seq<char>, JsonView)>, k: Seq<char>)
    ensures
        entries_get(entries, k) is Some <==> exists|j: int|
            0 <= j < entries.len() && #[trigger] entries[j].0 == k,
        entries_get(entries, k) is Some ==> {
            let j = index_of_key(entries, k);
            &&& 0 <= j < entries.len()
            &&& entries[j].0 == k
            &&& entries_get(entries, k) == Some(entries[j].1)
        },
    decreases entries.len(),
{
    if entries.len() > 0 {
        lemma_entries_get_some(entries.drop_first(), k);
        if entries[0].0 != k {
            if exists|j: int| 0 <= j < entries.len() && #[trigger] entries[j].0 == k {
                let j = choose|j: int| 0 <= j < entries.len() && #[trigger] entries[j].0 == k;
                assert(entries.drop_first()[j - 1].0 == k);
            }
            if exists|j: int| 0 <= j < entries.len() - 1 && #[trigger] entries.drop_first()[j].0 == k {
                let j = choose|j: int|
                    0 <= j < entries.len() - 1 && #[trigger] entries.drop_first()[j].0 == k;
                assert(entries[j + 1].0 == k);
            }
        } else {
            assert(entries[0].0 == k);
        }
    }
}

pub proof fn lemma_keys_push_no_dup(entries: Seq<(Seq<char>, JsonView)>, k: Seq<char>)
    requires
        entries_keys(entries).no_duplicates(),
        forall|j: int| 0 <= j < entries.len() ==> entries[j].0 != k,
    ensures
        entries_keys(entries).push(k).no_duplicates(),
        forall|v: JsonView| #[trigger] entries_keys(entries.push((k, v))) == entries_keys(entries).push(k),
{
    assert forall|v: JsonView| #[trigger] entries_keys(entries.push((k, v))) == entries_keys(entries).push(k) by {
        assert(entries_keys(entries.push((k, v))) =~= entries_keys(entries).push(k));
    }
    let ks = entries_keys(entries).push(k);
    assert forall|a: int, b: int| 0 <= a < ks.len() && 0 <= b < ks.len() && a != b implies ks[a]
        != ks[b] by {
        if a == entries.len() as int {
            assert(ks[b] == entries[b].0);
        } else if b == entries.len() as int {
            assert(ks[a] == entries[a].0);
        }
    }
}

impl JsonValue {
    /// A copy of the value.
    #[verifier::loop_isolation(false)]
    pub fn duplicate(&self) -> (r: JsonValue)
        ensures
            r@ == self@,
        decreases self,
    {
        match self {
            JsonValue::Null => JsonValue::Null,
            JsonValue::Bool(b) => JsonValue::Bool(*b),
            JsonValue::Number(n) => JsonValue::Number(n.duplicate()),
            JsonValue::String(s) => JsonValue::String(s.clone()),
            JsonValue::Array(xs) => {
                let mut out: Vec<JsonValue> = Vec::new();
                let mut i: usize = 0;
                while i < xs.len()
                    invariant
                        i <= xs@.len(),
                        out@.len() == i,
                        forall|j: int| 0 <= j < i ==> json_view(#[trigger] out@[j]) == json_view(xs@[j]),
                    decreases xs@.len() - i,
                {
                    proof {
                        assert(decreases_to!(*self => self->Array_0));
                        assert(decreases_to!(*xs => xs@));
                        assert(decreases_to!(xs@ => xs@[i as int]));
                    }
                    let e = xs[i].duplicate();
                    out.push(e);
                    i = i + 1;
                }
                proof {
                    lemma_json_views(out@);
                    lemma_json_views(xs@);
                    assert(json_views(out@) =~= json_views(xs@));
                }
                JsonValue::Array(out)
            },
            JsonValue::Object(m) => JsonValue::Object(m.duplicate()),
        }
    }

    pub fn is_null(&self) -> (r: bool)
        ensures
            r == (self@ is Null),
    {
        match self {
            JsonValue::Null => true,
            _ => false,
        }
    }
}

impl JsonMap {
    /// A copy of the object.
    pub fn duplicate(&self) -> (r: JsonMap)
        ensures
            r@ == self@,
        decreases self,
    {
        let mut out: Vec<(String, JsonValue)> = Vec::new();
        let mut i: usize = 0;
        while i < self.entries.len()
            invariant
                i <= self.entries@.len(),
                out@.len() == i,
                forall|j: int| 0 <= j < i ==> (#[trigger] out@[j]).0@ == self.entries@[j].0@ && json_view(out@[j].1) == json_view(self.entries@[j].1),
            decreases self.entries@.len() - i,
        {
            proof {
                assert(decreases_to!(*self => self.entries));
                assert(decreases_to!(self.entries => self.entries@));
                assert(decreases_to!(self.entries@ => self.entries@[i as int]));
                assert(decreases_to!(self.entries@[i as int] => self.entries@[i as int].1));
            }
            let v = self.entries[i].1.duplicate();
            let k = self.entries[i].0.clone();
            out.push((k, v));
            i = i + 1;
        }
        proof {
            lemma_entries_view(out@);
            lemma_entries_view(self.entries@);
            assert(entries_view(out@) =~= entries_view(self.entries@));
        }
        JsonMap { entries: out }
    }
}

/// serde_json's `==` on values.
#[verifier::loop_isolation(false)]
pub fn json_eq(a: &JsonValue, b: &JsonValue) -> (r: bool)
    ensures
        r == json_equal(a@, b@),
    decreases a,
{
    match (a, b) {
        (JsonValue::Null, _) => b.is_null(),
        (JsonValue::Bool(x), JsonValue::Bool(y)) => *x == *y,
        (JsonValue::Bool(_), _) => false,
        (JsonValue::Number(x), JsonValue::Number(y)) => x.same_as(y),
        (JsonValue::Number(_), _) => false,
        (JsonValue::String(x), JsonValue::String(y)) => {
            str_eq(x.as_str(), y.as_str())
        },
        (JsonValue::String(_), _) => false,
        (JsonValue::Array(xs), JsonValue::Array(ys)) => {
            proof {
                lemma_json_views(xs@);
                lemma_json_views(ys@);
            }
            let ghost xv = json_views(xs@);
            let ghost yv = json_views(ys@);
            if xs.len() != ys.len() {
                proof {
                    lemma_seq_equal_len(xv, yv);
                }
                return false;
            }
            let mut i: usize = 0;
            assert(xv.skip(0) =~= xv);
            assert(yv.skip(0) =~= yv);
            while i < xs.len()
                invariant
                    i <= xs@.len(),
                    xs@.len() == ys@.len(),
                    xv == json_views(xs@),
                    yv == json_views(ys@),
                    xv.len() == xs@.len(),
                    yv.len() == ys@.len(),
                    forall|j: int| 0 <= j < xs@.len() ==> #[trigger] xv[j] == json_view(xs@[j]),
                    forall|j: int| 0 <= j < ys@.len() ==> #[trigger] yv[j] == json_view(ys@[j]),
                    seq_equal(xv, yv) == seq_equal(xv.skip(i as int), yv.skip(i as int)),
                decreases xs@.len() - i,
            {
                assert(xv.skip(i as int).drop_first() =~= xv.skip(i + 1));
                assert(yv.skip(i as int).drop_first() =~= yv.skip(i + 1));
                assert(xv.skip(i as int)[0] == xv[i as int]);
                assert(yv.skip(i as int)[0] == yv[i as int]);
                proof {
                    assert(decreases_to!(*a => a->Array_0));
                    assert(decreases_to!(*xs => xs@));
                    assert(decreases_to!(xs@ => xs@[i as int]));
                }
                if !json_eq(&xs[i], &ys[i]) {
                    return false;
                }
                i = i + 1;
            }
            assert(xv.skip(i as int) =~= Seq::<JsonView>::empty());
            assert(yv.skip(i as int) =~= Seq::<JsonView>::empty());
            true
        },
        (JsonValue::Object(xm), JsonValue::Object(ym)) => {
            proof {
                lemma_entries_view(xm.entries@);
                lemma_entries_view(ym.entries@);
            }
            let ghost xv = xm@;
            if xm.entries.len() != ym.entries.len() {
                return false;
            }
            let mut i: usize = 0;
            assert(xv.skip(0) =~= xv);
            while i < xm.entries.len()
                invariant
                    i <= xm.entries@.len(),
                    xv == xm@,
                    xv.len() == xm.entries@.len(),
                    forall|j: int| 0 <= j < xm.entries@.len() ==> #[trigger] xv[j] == (xm.entries@[j].0@, json_view(xm.entries@[j].1)),
                    entries_within(xv, ym@) == entries_within(xv.skip(i as int), ym@),
                decreases xm.entries@.len() - i,
            {
                assert(xv.skip(i as int).drop_first() =~= xv.skip(i + 1));
                assert(xv.skip(i as int)[0] == xv[i as int]);
                proof {
                    assert(decreases_to!(*a => a->Object_0));
                    assert(decreases_to!(*xm => xm.entries));
                    assert(decreases_to!(xm.entries => xm.entries@));
                    assert(decreases_to!(xm.entries@ => xm.entries@[i as int]));
                    assert(decreases_to!(xm.entries@[i as int] => xm.entries@[i as int].1));
                }
                match ym.get(xm.entries[i].0.as_str()) {
                    None => {
                        return false;
                    },
                    Some(v) => {
                        if !json_eq(&xm.entries[i].1, v) {
                            return false;
                        }
                    },
                }
                i = i + 1;
            }
            assert(xv.skip(i as int) =~= Seq::<(Seq<char>, JsonView)>::empty());
            true
        },
        _ => false,
    }
}

pub proof fn lemma_seq_equal_len(xs: Seq<JsonView>, ys: Seq<JsonView>)
    ensures
        seq_equal(xs, ys) ==> xs.len() == ys.len(),
    decreases xs.len(),
{
    if xs.len() > 0 && ys.len() > 0 {
        lemma_seq_equal_len(xs.drop_first(), ys.drop_first());
    }
}

/// The text `serde_json::to_string` writes for a value.
pub uninterp spec fn json_text(v: JsonView) -> Seq<char>;

/// The value `serde_json::from_str` reads from a text, if it is JSON.
pub uninterp spec fn json_parse(s: Seq<char>) -> Option<JsonView>;

/// `serde_json::to_string` on the value; the result is named, not stated.
/// (It cannot fail on a value: object keys are strings.)
#[verifier::external_body]
pub(crate) fn to_json_string(v: &JsonValue) -> (s: String)
    ensures
        s@ == json_text(v@),
{
    serde_json::to_string(&to_serde_value(v)).unwrap_or_default()
}

/// `serde_json::from_str::<serde_json::Value>`; `None` where it reports an
/// error. The value read is named, not stated.
#[verifier::external_body]
pub(crate) fn parse_json(s: &str) -> (r: Option<JsonValue>)
    ensures
        match r {
            Some(v) => json_parse(s@) == Some(v@),
            None => json_parse(s@) is None,
        },
{
    serde_json::from_str::<serde_json::Value>(s).ok().map(from_serde_value)
}

/// Converts a value into serde_json's representation, one for one.
#[verifier::external_body]
pub(crate) fn to_serde_value(v: &JsonValue) -> serde_json::Value {
    match v {
        JsonValue::Null => serde_json::Value::Null,
        JsonValue::Bool(b) => serde_json::Value::Bool(*b),
        JsonValue::Number(n) => serde_json::Value::Number(to_serde_number(n)),
        JsonValue::String(s) => serde_json::Value::String(s.clone()),
        JsonValue::Array(xs) => serde_json::Value::Array(xs.iter().map(to_serde_value).collect()),
        JsonValue::Object(m) => serde_json::Value::Object(
            m.entries.iter().map(|(k, x)| (k.clone(), to_serde_value(x))).collect(),
        ),
    }
}

/// Converts serde_json's representation of a value into the library's, one
/// for one (object entries in the order serde_json holds them).
#[verifier::external_body]
pub(crate) fn from_serde_value(v: serde_json::Value) -> JsonValue {
    match v {
        serde_json::Value::Null => JsonValue::Null,
        serde_json::Value::Bool(b) => JsonValue::Bool(b),
        serde_json::Value::Number(n) => JsonValue::Number(number_from_serde(n)),
        serde_json::Value::String(s) => JsonValue::String(s),
        serde_json::Value::Array(xs) => JsonValue::Array(xs.into_iter().map(from_serde_value).collect()),
        serde_json::Value::Object(m) => JsonValue::Object(JsonMap {
            entries: m.into_iter().map(|(k, x)| (k, from_serde_value(x))).collect(),
        }),
    }
}

/// Reads serde_json's representation of a number into a `JsonNumber`.
#[verifier::external_body]
pub(crate) fn number_from_serde(n: serde_json::Number) -> JsonNumber {
    let f64_bits = n.as_f64().map(|x| x.to_bits()).unwrap_or_default();
    match (n.as_u64(), n.as_i64()) {
        (Some(p), _) => JsonNumber { kind: NumberKind::PosInt, pos: p, neg: 0, f64_bits, raw: None },
        (None, Some(i)) => JsonNumber { kind: NumberKind::NegInt, pos: 0, neg: i, f64_bits, raw: None },
        (None, None) => JsonNumber { kind: NumberKind::Float, pos: 0, neg: 0, f64_bits, raw: Some(n) },
    }
}

/// `{k: v}`.
pub open spec fn jobj1(k: Seq<char>, v: JsonView) -> JsonView {
    JsonView::Object(seq![(k, v)])
}

/// `{k1: v1, k2: v2}`.
pub open spec fn jobj2(k1: Seq<char>, v1: JsonView, k2: Seq<char>, v2: JsonView) -> JsonView {
    JsonView::Object(seq![(k1, v1), (k2, v2)])
}

/// `{k: v}`.
pub fn make_obj1(k: &str, v: JsonValue) -> (r: JsonValue)
    ensures
        r@ == jobj1(k@, v@),
{
    let mut entries: Vec<(String, JsonValue)> = Vec::new();
    entries.push((String::from_str(k), v));
    proof {
        lemma_entries_view(entries@);
    }
    let r = JsonValue::Object(JsonMap { entries });
    assert(entries_view(entries@) =~= seq![(k@, v@)]);
    r
}

/// `{k1: v1, k2: v2}`.
pub fn make_obj2(k1: &str, v1: JsonValue, k2: &str, v2: JsonValue) -> (r: JsonValue)
    ensures
        r@ == jobj2(k1@, v1@, k2@, v2@),
{
    let mut entries: Vec<(String, JsonValue)> = Vec::new();
    entries.push((String::from_str(k1), v1));
    entries.push((String::from_str(k2), v2));
    proof {
        lemma_entries_view(entries@);
    }
    let r = JsonValue::Object(JsonMap { entries });
    assert(entries_view(entries@) =~= seq![(k1@, v1@), (k2@, v2@)]);
    r
}

/// An array of the values, in order.
pub fn make_array(xs: Vec<JsonValue>) -> (r: JsonValue)
    ensures
        r@ == JsonView::Array(xs@.map_values(|x: JsonValue| x@)),
{
    proof {
        lemma_json_views(xs@);
        assert(json_views(xs@) =~= xs@.map_values(|x: JsonValue| x@));
    }
    JsonValue::Array(xs)
}

/// A string value.
pub fn make_str(s: &str) -> (r: JsonValue)
    ensures
        r@ == JsonView::Str(s@),
{
    JsonValue::String(String::from_str(s))
}

pub open spec fn values_view(xs: Seq<JsonValue>) -> Seq<JsonView> {
    xs.map_values(|x: JsonValue| x@)
}

/// The first value associated with `k` in an association list.
pub open spec fn assoc_get<V>(m: Seq<(String, V)>, k: Seq<char>) -> Option<V>
    decreases m.len(),
{
    if m.len() == 0 {
        None
    } else if m[0].0@ == k {
        Some(m[0].1)
    } else {
        assoc_get(m.drop_first(), k)
    }
}

/// Looks up the first entry with key `k`.
pub fn assoc_find<'a, V>(m: &'a Vec<(String, V)>, k: &str) -> (r: Option<&'a V>)
    ensures
        match r {
            Some(v) => assoc_get(m@, k@) == Some(*v),
            None => assoc_get(m@, k@) is None,
        },
{
    let mut i: usize = 0;
    assert(m@.skip(0) =~= m@);
    while i < m.len()
        invariant
            i <= m@.len(),
            assoc_get(m@, k@) == assoc_get(m@.skip(i as int), k@),
        decreases m@.len() - i,
    {
        assert(m@.skip(i as int).drop_first() =~= m@.skip(i + 1));
        assert(m@.skip(i as int)[0] == m@[i as int]);
        if str_eq(m[i].0.as_str(), k) {
            return Some(&m[i].1);
        }
        i = i + 1;
    }
    None
}

/// The association list with `k` set to `v`: the first entry with key `k`
/// gets the value in place, else an entry is appended.
pub open spec fn assoc_put<V>(m: Seq<(String, V)>, k: String, v: V) -> Seq<(String, V)>
    decreases m.len(),
{
    if m.len() == 0 {
        seq![(k, v)]
    } else if m[0].0@ == k@ {
        seq![(k, v)] + m.drop_first()
    } else {
        seq![m[0]] + assoc_put(m.drop_first(), k, v)
    }
}

/// A key-value list reads back what was put in it: the value put under
/// its key, and what it held under every other key.
pub proof fn lemma_assoc_get_put<V>(m: Seq<(String, V)>, k: String, v: V, u: Seq<char>)
    ensures
        assoc_get(assoc_put(m, k, v), u) == if u == k@ {
            Some(v)
        } else {
            assoc_get(m, u)
        },
    decreases m.len(),
{
    let p = assoc_put(m, k, v);
    if m.len() == 0 {
        assert(p == seq![(k, v)]);
        assert(p[0] == (k, v));
        assert(p.drop_first() =~= Seq::<(String, V)>::empty());
        assert(assoc_get(p.drop_first(), u) is None);
    } else if m[0].0@ != k@ {
        lemma_assoc_get_put(m.drop_first(), k, v, u);
        assert(p == seq![m[0]] + assoc_put(m.drop_first(), k, v));
        assert(p[0] == m[0]);
        assert(p.drop_first() =~= assoc_put(m.drop_first(), k, v));
    } else {
        assert(p == seq![(k, v)] + m.drop_first());
        assert(p[0] == (k, v));
        assert(p.drop_first() =~= m.drop_first());
    }
}

/// Sets `k` to `v` (as `HashMap::insert` does for the key).
pub fn assoc_insert<V>(m: &mut Vec<(String, V)>, k: String, v: V)
    ensures
        final(m)@ == assoc_put(old(m)@, k, v),
{
    let ghost m0 = m@;
    let mut i: usize = 0;
    while i < m.len()
        invariant
            i <= m@.len(),
            m@ == m0,
            m0 == old(m)@,
            forall|j: int| 0 <= j < i ==> m0[j].0@ != k@,
        decreases m@.len() - i,
    {
        if str_eq(m[i].0.as_str(), k.as_str()) {
            let ghost kk = k;
            let ghost vv = v;
            m.set(i, (k, v));
            proof {
                lemma_assoc_put_at(m0, i as int, kk, vv);
            }
            return ;
        }
        i = i + 1;
    }
    let ghost kk = k;
    let ghost vv = v;
    m.push((k, v));
    proof {
        lemma_assoc_put_absent(m0, kk, vv);
    }
}

proof fn lemma_assoc_put_at<V>(m: Seq<(String, V)>, i: int, k: String, v: V)
    requires
        0 <= i < m.len(),
        m[i].0@ == k@,
        forall|j: int| 0 <= j < i ==> m[j].0@ != k@,
    ensures
        assoc_put(m, k, v) == m.update(i, (k, v)),
    decreases i,
{
    if i == 0 {
        assert(assoc_put(m, k, v) =~= m.update(i, (k, v)));
    } else {
        lemma_assoc_put_at(m.drop_first(), i - 1, k, v);
        assert(assoc_put(m, k, v) =~= m.update(i, (k, v)));
    }
}

proof fn lemma_assoc_put_absent<V>(m: Seq<(String, V)>, k: String, v: V)
    requires
        forall|j: int| 0 <= j < m.len() ==> m[j].0@ != k@,
    ensures
        assoc_put(m, k, v) == m.push((k, v)),
    decreases m.len(),
{
    if m.len() == 0 {
        assert(assoc_put(m, k, v) =~= m.push((k, v)));
    } else {
        lemma_assoc_put_absent(m.drop_first(), k, v);
        assert(assoc_put(m, k, v) =~= m.push((k, v)));
    }
}

/// An index as a mathematical integer.
pub open spec fn ix(i: usize) -> int {
    i as int
}

/// A length as an integer.
pub open spec fn int_of_nat(n: nat) -> int {
    n as int
}

/// A `u64` as a mathematical integer.
pub open spec fn int_of_u64(x: u64) -> int {
    x as int
}

/// String equality on `&str`.
pub fn str_eq(a: &str, b: &str) -> (r: bool)
    ensures
        r == (a@ == b@),
{
    let sa = String::from_str(a);
    let sb = String::from_str(b);
    sa == sb
}


/// Converts a number into serde_json's representation, one for one.
#[verifier::external_body]
pub(crate) fn to_serde_number(n: &JsonNumber) -> serde_json::Number {
    match (&n.raw, n.kind) {
        (Some(r), _) => r.clone(),
        (None, NumberKind::NegInt) => serde_json::Number::from(n.neg),
        (None, _) => serde_json::Number::from(n.pos),
    }
}

/// The text `serde_json::Number`'s `Display` writes for a float.
pub uninterp spec fn float_text(n: JsonNumber) -> Seq<char>;

/// `to_string` on a float number (serde_json's `Display`, shortest
/// round-trip notation); the text is named, not stated.
#[verifier::external_body]
pub(crate) fn float_to_string(n: &JsonNumber) -> (s: String)
    requires
        n.kind == NumberKind::Float,
    ensures
        s@ == float_text(*n),
{
    to_serde_number(n).to_string()
}

} // verus!
