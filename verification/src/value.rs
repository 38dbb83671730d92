//! Raw and hydrated cell values.
//!
//! A row cell is a dynamically typed scalar or a text cell. Text doubles as
//! the carrier of structured payloads: a field descriptor, not the value
//! itself, decides whether a text cell is decoded into a value tree. Decoded
//! trees reuse the same type, adding arrays and objects. All text is kept as
//! UTF-8 bytes; the host boundary converts to and from native strings.

use vstd::prelude::*;

verus! {

/// A dynamically typed value: a raw row cell, or a node of a decoded
/// structured payload.
#[derive(Debug, PartialEq, Eq)]
pub enum Value {
    Null,
    Bool(bool),
    Int(i64),
    /// Text, as UTF-8 bytes. Also the undecoded form of a structured payload.
    Text(Vec<u8>),
    /// An ordered list inside a decoded structured payload.
    Array(Vec<Value>),
    /// Key/value members inside a decoded structured payload, in order.
    Object(Vec<(Vec<u8>, Value)>),
}

/// The mathematical shape of a [`Value`]: the same tree over `Seq` and `int`.
pub enum Valuev {
    Null,
    Bool(bool),
    Int(int),
    Text(Seq<u8>),
    Array(Seq<Valuev>),
    Object(Seq<(Seq<u8>, Valuev)>),
}

impl Value {
    /// The abstract value this executable value denotes.
    pub open spec fn dv(self) -> Valuev
        decreases self, 0int,
    {
        match self {
            Value::Null => Valuev::Null,
            Value::Bool(b) => Valuev::Bool(b),
            Value::Int(n) => Valuev::Int(n as int),
            Value::Text(t) => Valuev::Text(t@),
            Value::Array(items) => Valuev::Array(dv_items(items, 0)),
            Value::Object(members) => Valuev::Object(dv_members(members, 0)),
        }
    }
}

/// The abstract values of `items[i..]`, elementwise.
pub open spec fn dv_items(items: Vec<Value>, i: int) -> Seq<Valuev>
    decreases items, items@.len() - i + 1int,
{
    if i < 0 || i >= items@.len() {
        Seq::empty()
    } else {
        seq![items@[i].dv()] + dv_items(items, i + 1)
    }
}

/// The abstract key/value pairs of `members[i..]`, elementwise.
pub open spec fn dv_members(members: Vec<(Vec<u8>, Value)>, i: int) -> Seq<(Seq<u8>, Valuev)>
    decreases members, members@.len() - i + 1int,
{
    if i < 0 || i >= members@.len() {
        Seq::empty()
    } else {
        seq![(members@[i].0@, members@[i].1.dv())] + dv_members(members, i + 1)
    }
}

/// A fresh copy of a byte string.
pub fn dup_bytes(a: &Vec<u8>) -> (r: Vec<u8>)
    ensures
        r@ == a@,
{
    let mut out: Vec<u8> = Vec::new();
    let n = a.len();
    let mut i: usize = 0;
    while i < n
        invariant
            n == a@.len(),
            i <= n,
            out@ == a@.take(i as int),
        decreases n - i,
    {
        out.push(a[i]);
        proof {
            assert(out@ =~= a@.take(i + 1));
        }
        i += 1;
    }
    proof {
        assert(a@.take(n as int) =~= a@);
    }
    out
}

impl Value {
    /// A fresh copy denoting the same abstract value.
    pub fn dup(&self) -> (r: Value)
        ensures
            r.dv() == self.dv(),
        decreases self, 0int,
    {
        match self {
            Value::Null => Value::Null,
            Value::Bool(b) => Value::Bool(*b),
            Value::Int(n) => Value::Int(*n),
            Value::Text(t) => Value::Text(dup_bytes(t)),
            Value::Array(items) => {
                let out = dup_items(items);
                proof {
                    lemma_dv_items_index(*items, 0);
                    lemma_dv_items_index(out, 0);
                    assert(dv_items(out, 0) =~= dv_items(*items, 0));
                }
                Value::Array(out)
            },
            Value::Object(members) => {
                let out = dup_members(members);
                proof {
                    lemma_dv_members_index(*members, 0);
                    lemma_dv_members_index(out, 0);
                    assert(dv_members(out, 0) =~= dv_members(*members, 0));
                }
                Value::Object(out)
            },
        }
    }
}

/// Elementwise description of [`dv_items`].
pub proof fn lemma_dv_items_index(items: Vec<Value>, i: int)
    requires
        0 <= i <= items@.len(),
    ensures
        dv_items(items, i).len() == items@.len() - i,
        forall|k: int| 0 <= k < items@.len() - i ==> dv_items(items, i)[k] == items@[k + i].dv(),
    decreases items@.len() - i,
{
    if i < items@.len() {
        lemma_dv_items_index(items, i + 1);
    }
}

/// Elementwise description of [`dv_members`].
pub proof fn lemma_dv_members_index(members: Vec<(Vec<u8>, Value)>, i: int)
    requires
        0 <= i <= members@.len(),
    ensures
        dv_members(members, i).len() == members@.len() - i,
        forall|k: int| 0 <= k < members@.len() - i ==> dv_members(members, i)[k] == (
        members@[k + i].0@, members@[k + i].1.dv()),
    decreases members@.len() - i,
{
    if i < members@.len() {
        lemma_dv_members_index(members, i + 1);
    }
}

/// A fresh copy of an element vector, pointwise.
fn dup_items(items: &Vec<Value>) -> (r: Vec<Value>)
    ensures
        r@.len() == items@.len(),
        forall|p: int| 0 <= p < items@.len() ==> items@[p].dv() == #[trigger] r@[p].dv(),
    decreases items, 0int,
{
    let mut out: Vec<Value> = Vec::new();
    let n = items.len();
    let mut i: usize = 0;
    while i < n
        invariant
            n == items@.len(),
            i <= n,
            out@.len() == i,
            forall|p: int| 0 <= p < i ==> items@[p].dv() == #[trigger] out@[p].dv(),
        decreases n - i,
    {
        let d = items[i].dup();
        out.push(d);
        i += 1;
    }
    out
}

/// A fresh copy of a member vector, pointwise.
fn dup_members(members: &Vec<(Vec<u8>, Value)>) -> (r: Vec<(Vec<u8>, Value)>)
    ensures
        r@.len() == members@.len(),
        forall|p: int| 0 <= p < members@.len() ==> members@[p].0@ == #[trigger] r@[p].0@
            && members@[p].1.dv() == r@[p].1.dv(),
    decreases members, 0int,
{
    let mut out: Vec<(Vec<u8>, Value)> = Vec::new();
    let n = members.len();
    let mut i: usize = 0;
    while i < n
        invariant
            n == members@.len(),
            i <= n,
            out@.len() == i,
            forall|p: int| 0 <= p < i ==> members@[p].0@ == #[trigger] out@[p].0@
                && members@[p].1.dv() == out@[p].1.dv(),
        decreases n - i,
    {
        let k = dup_bytes(&members[i].0);
        let d = members[i].1.dup();
        out.push((k, d));
        i += 1;
    }
    out
}

/// Byte-string equality, the key comparison used by row lookups.
pub fn bytes_eq(a: &Vec<u8>, b: &Vec<u8>) -> (r: bool)
    ensures
        r == (a@ == b@),
{
    if a.len() != b.len() {
        assert(a@.len() != b@.len());
        return false;
    }
    let n = a.len();
    let mut i: usize = 0;
    while i < n
        invariant
            n == a@.len() && n == b@.len(),
            i <= n,
            forall|j: int| 0 <= j < i ==> a@[j] == b@[j],
        decreases n - i,
    {
        if a[i] != b[i] {
            return false;
        }
        i += 1;
    }
    proof {
        assert(a@ =~= b@);
    }
    true
}

} // verus!
