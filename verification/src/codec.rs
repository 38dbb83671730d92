//! The structured-payload format.
//!
//! A structured payload is a value tree carried inside a row as a text cell,
//! in a JSON-style canonical encoding: `null`, `true`, `false`, decimal
//! integers, double-quoted text with `\"` and `\\` escapes, `[...]` arrays
//! and `{"key":value,...}` objects, with no whitespace. [`encode_spec`] is
//! the one encoding of each value; [`decode_payload`] accepts exactly the
//! encodings and returns the encoded value.

use vstd::prelude::*;

use crate::value::Value;
use crate::value::Valuev;
use crate::value::dv_items;
use crate::value::lemma_dv_items_index;
use crate::value::lemma_dv_members_index;
use crate::value::dv_members;

verus! {

/// Which abstract values the payload format can carry: integers must fit a
/// machine word; everything else is unrestricted.
pub open spec fn payload_wf(v: Valuev) -> bool
    decreases v,
{
    match v {
        Valuev::Null => true,
        Valuev::Bool(_) => true,
        Valuev::Int(n) => i64::MIN <= n <= i64::MAX,
        Valuev::Text(_) => true,
        Valuev::Array(items) => forall|i: int|
            0 <= i < items.len() ==> payload_wf(#[trigger] items[i]),
        Valuev::Object(members) => forall|i: int|
            0 <= i < members.len() ==> payload_wf(#[trigger] members[i].1),
    }
}

/// The decimal digits of `n`, most significant first.
pub open spec fn dec_digits(n: nat) -> Seq<u8>
    decreases n,
{
    if n < 10 {
        seq![(48 + n) as u8]
    } else {
        dec_digits(n / 10).push((48 + n % 10) as u8)
    }
}

/// The encoding of one integer: a minus sign for negatives, then digits.
pub open spec fn int_bytes(n: int) -> Seq<u8> {
    if n < 0 {
        seq![45u8] + dec_digits((-n) as nat)
    } else {
        dec_digits(n as nat)
    }
}

/// The escaped form of one text byte: quote and backslash get a backslash
/// prefix, every other byte stands for itself.
pub open spec fn esc_byte(b: u8) -> Seq<u8> {
    if b == 34 || b == 92 {
        seq![92u8, b]
    } else {
        seq![b]
    }
}

/// The escaped form of a whole text, byte by byte.
pub open spec fn esc_bytes(s: Seq<u8>) -> Seq<u8>
    decreases s.len(),
{
    if s.len() == 0 {
        Seq::empty()
    } else {
        esc_bytes(s.drop_last()) + esc_byte(s.last())
    }
}

/// The encoding of a quoted text: `"` escaped-bytes `"`.
pub open spec fn text_bytes(s: Seq<u8>) -> Seq<u8> {
    seq![34u8] + esc_bytes(s) + seq![34u8]
}

/// The encoding of one object member: quoted key, `:`, value.
pub open spec fn member_bytes(key: Seq<u8>, v: Valuev) -> Seq<u8>
    decreases v, 1int,
{
    text_bytes(key) + seq![58u8] + encode_spec(v)
}

/// The canonical encoding of a payload value.
pub open spec fn encode_spec(v: Valuev) -> Seq<u8>
    decreases v, 0int,
{
    match v {
        Valuev::Null => seq![110u8, 117u8, 108u8, 108u8],
        Valuev::Bool(b) => if b {
            seq![116u8, 114u8, 117u8, 101u8]
        } else {
            seq![102u8, 97u8, 108u8, 115u8, 101u8]
        },
        Valuev::Int(n) => int_bytes(n),
        Valuev::Text(s) => text_bytes(s),
        Valuev::Array(items) => seq![91u8] + items_bytes(items, 0) + seq![93u8],
        Valuev::Object(members) => seq![123u8] + members_bytes(members, 0) + seq![125u8],
    }
}

/// The encodings of `items[i..]`, comma-separated, with a leading comma
/// when `i > 0` points past an earlier element.
pub open spec fn items_bytes(items: Seq<Valuev>, i: int) -> Seq<u8>
    decreases items, items.len() - i + 1int,
{
    if i < 0 || i >= items.len() {
        Seq::empty()
    } else {
        let sep: Seq<u8> = if i > 0 {
            seq![44u8]
        } else {
            Seq::empty()
        };
        sep + encode_spec(items[i]) + items_bytes(items, i + 1)
    }
}

/// The encodings of `members[i..]`, comma-separated, with a leading comma
/// when `i > 0` points past an earlier member.
pub open spec fn members_bytes(members: Seq<(Seq<u8>, Valuev)>, i: int) -> Seq<u8>
    decreases members, members.len() - i + 1int,
{
    if i < 0 || i >= members.len() {
        Seq::empty()
    } else {
        let sep: Seq<u8> = if i > 0 {
            seq![44u8]
        } else {
            Seq::empty()
        };
        sep + member_bytes(members[i].0, members[i].1) + members_bytes(members, i + 1)
    }
}

/// Appends the decimal digits of `m`, most significant first.
fn push_digits(m: u64, out: &mut Vec<u8>)
    ensures
        final(out)@ == old(out)@ + dec_digits(m as nat),
    decreases m,
{
    if m < 10 {
        out.push(48 + m as u8);
        assert(out@ =~= old(out)@ + dec_digits(m as nat));
    } else {
        push_digits(m / 10, out);
        out.push(48 + (m % 10) as u8);
        assert(out@ =~= old(out)@ + dec_digits(m as nat));
    }
}

/// Appends the quoted, escaped form of a text.
fn push_text(t: &Vec<u8>, out: &mut Vec<u8>)
    ensures
        final(out)@ == old(out)@ + text_bytes(t@),
{
    out.push(34);
    let n = t.len();
    let mut i: usize = 0;
    while i < n
        invariant
            n == t@.len(),
            i <= n,
            out@ == old(out)@ + seq![34u8] + esc_bytes(t@.take(i as int)),
        decreases n - i,
    {
        let b = t[i];
        if b == 34 || b == 92 {
            out.push(92);
        }
        out.push(b);
        proof {
            assert(t@.take(i + 1).drop_last() =~= t@.take(i as int));
            assert(t@.take(i + 1).last() == t@[i as int]);
            assert(out@ =~= old(out)@ + seq![34u8] + esc_bytes(t@.take(i + 1)));
        }
        i += 1;
    }
    out.push(34);
    proof {
        assert(t@.take(n as int) =~= t@);
        assert(out@ =~= old(out)@ + text_bytes(t@));
    }
}

/// Appends the canonical encoding of `v`.
fn encode_into(v: &Value, out: &mut Vec<u8>)
    ensures
        final(out)@ == old(out)@ + encode_spec(v.dv()),
    decreases v, 0int,
{
    match v {
        Value::Null => {
            out.push(110);
            out.push(117);
            out.push(108);
            out.push(108);
            assert(out@ =~= old(out)@ + encode_spec(Valuev::Null));
        },
        Value::Bool(b) => {
            if *b {
                out.push(116);
                out.push(114);
                out.push(117);
                out.push(101);
            } else {
                out.push(102);
                out.push(97);
                out.push(108);
                out.push(115);
                out.push(101);
            }
            assert(out@ =~= old(out)@ + encode_spec(Valuev::Bool(*b)));
        },
        Value::Int(n) => {
            if *n < 0 {
                out.push(45);
                let m: u64 = if *n == i64::MIN {
                    9223372036854775808u64
                } else {
                    (-*n) as u64
                };
                assert(m as nat == (-(*n as int)) as nat);
                push_digits(m, out);
                assert(out@ =~= old(out)@ + int_bytes(*n as int));
            } else {
                push_digits(*n as u64, out);
            }
        },
        Value::Text(t) => {
            push_text(t, out);
        },
        Value::Array(items) => {
            out.push(91);
            encode_items_into(items, 0, out);
            out.push(93);
            proof {
                lemma_dv_items_index(*items, 0);
                assert(out@ =~= old(out)@ + encode_spec(v.dv()));
            }
        },
        Value::Object(members) => {
            out.push(123);
            encode_members_into(members, 0, out);
            out.push(125);
            proof {
                lemma_dv_members_index(*members, 0);
                assert(out@ =~= old(out)@ + encode_spec(v.dv()));
            }
        },
    }
}

/// Appends the encodings of `items[i..]`, with separators.
fn encode_items_into(items: &Vec<Value>, i: usize, out: &mut Vec<u8>)
    requires
        i <= items@.len(),
    ensures
        final(out)@ == old(out)@ + items_bytes(dv_items(*items, 0), i as int),
    decreases items, items@.len() - i + 1int,
{
    proof {
        lemma_dv_items_index(*items, 0);
    }
    if i < items.len() {
        if i > 0 {
            out.push(44);
        }
        encode_into(&items[i], out);
        encode_items_into(items, i + 1, out);
        assert(out@ =~= old(out)@ + items_bytes(dv_items(*items, 0), i as int));
    } else {
        assert(out@ =~= old(out)@ + items_bytes(dv_items(*items, 0), i as int));
    }
}

/// Appends the encodings of `members[i..]`, with separators.
fn encode_members_into(members: &Vec<(Vec<u8>, Value)>, i: usize, out: &mut Vec<u8>)
    requires
        i <= members@.len(),
    ensures
        final(out)@ == old(out)@ + members_bytes(dv_members(*members, 0), i as int),
    decreases members, members@.len() - i + 1int,
{
    proof {
        lemma_dv_members_index(*members, 0);
    }
    if i < members.len() {
        if i > 0 {
            out.push(44);
        }
        push_text(&members[i].0, out);
        out.push(58);
        encode_into(&members[i].1, out);
        encode_members_into(members, i + 1, out);
        proof {
            let dvs = dv_members(*members, 0);
            assert(dvs[i as int] == (members@[i as int].0@, members@[i as int].1.dv()));
            assert(member_bytes(dvs[i as int].0, dvs[i as int].1) == text_bytes(
                members@[i as int].0@,
            ) + seq![58u8] + encode_spec(members@[i as int].1.dv()));
            assert(out@ =~= old(out)@ + members_bytes(dv_members(*members, 0), i as int));
        }
    } else {
        assert(out@ =~= old(out)@ + members_bytes(dv_members(*members, 0), i as int));
    }
}

/// Whether a byte is a decimal digit.
pub open spec fn is_digit(b: u8) -> bool {
    48 <= b <= 57
}

/// The number a digit run denotes, most significant digit first.
pub open spec fn digits_val(ds: Seq<u8>) -> int
    decreases ds.len(),
{
    if ds.len() == 0 {
        0
    } else {
        digits_val(ds.drop_last()) * 10 + (ds.last() - 48)
    }
}

/// A split of one subrange into two adjacent ones.
proof fn lemma_subrange_split(s: Seq<u8>, i: int, j: int, a: Seq<u8>, b: Seq<u8>)
    requires
        0 <= i <= j <= s.len(),
        s.subrange(i, j) == a + b,
    ensures
        a.len() + b.len() == j - i,
        s.subrange(i, i + a.len() as int) == a,
        s.subrange(i + a.len() as int, j) == b,
{
    assert((a + b).len() == j - i);
    assert(forall|k: int| 0 <= k < j - i ==> s[i + k] == #[trigger] (a + b)[k]);
    assert(s.subrange(i, i + a.len() as int) =~= a);
    assert forall|k: int| 0 <= k < b.len() implies s.subrange(i + a.len() as int, j)[k]
        == b[k] by {
        assert((a + b)[a.len() + k] == b[k]);
        assert(s[i + (a.len() + k)] == (a + b)[a.len() + k]);
    }
    assert(s.subrange(i + a.len() as int, j) =~= b);
}

/// Two adjacent subranges joined into one.
proof fn lemma_subrange_join(s: Seq<u8>, i: int, m: int, j: int)
    requires
        0 <= i <= m <= j <= s.len(),
    ensures
        s.subrange(i, j) == s.subrange(i, m) + s.subrange(m, j),
{
    assert(s.subrange(i, j) =~= s.subrange(i, m) + s.subrange(m, j));
}

/// Digit-run facts about [`dec_digits`]: nonempty, all digits, value `n`,
/// and no leading zero except for zero itself.
proof fn lemma_dec_digits(n: nat)
    ensures
        dec_digits(n).len() >= 1,
        forall|k: int| 0 <= k < dec_digits(n).len() ==> is_digit(#[trigger] dec_digits(n)[k]),
        digits_val(dec_digits(n)) == n,
        n >= 1 ==> dec_digits(n)[0] != 48,
    decreases n,
{
    if n < 10 {
        reveal_with_fuel(digits_val, 2);
        assert(dec_digits(n) == seq![(48 + n) as u8]);
        assert(dec_digits(n).drop_last() =~= Seq::<u8>::empty());
        assert(digits_val(dec_digits(n)) == (48 + n) as u8 - 48);
        assert(is_digit(dec_digits(n)[0]));
    } else {
        lemma_dec_digits(n / 10);
        let pre = dec_digits(n / 10);
        let d = (48 + n % 10) as u8;
        assert(dec_digits(n) == pre.push(d));
        assert(dec_digits(n).drop_last() =~= pre);
        assert(dec_digits(n).last() == d);
        assert(digits_val(dec_digits(n)) == digits_val(pre) * 10 + (d - 48));
        assert(digits_val(dec_digits(n)) == n);
        assert forall|k: int| 0 <= k < dec_digits(n).len() implies is_digit(
            #[trigger] dec_digits(n)[k],
        ) by {
            if k < pre.len() {
                assert(dec_digits(n)[k] == pre[k]);
            } else {
                assert(dec_digits(n)[k] == d);
            }
        }
        assert(dec_digits(n)[0] == pre[0]);
    }
}

/// A canonical digit run is [`dec_digits`] of its own value.
proof fn lemma_digits_canon(ds: Seq<u8>)
    requires
        ds.len() >= 1,
        forall|k: int| 0 <= k < ds.len() ==> is_digit(#[trigger] ds[k]),
        ds.len() == 1 || ds[0] != 48,
    ensures
        digits_val(ds) >= 0,
        dec_digits(digits_val(ds) as nat) == ds,
    decreases ds.len(),
{
    if ds.len() == 1 {
        reveal_with_fuel(digits_val, 2);
        assert(is_digit(ds[0]));
        assert(ds.last() == ds[0]);
        assert(ds.drop_last() =~= Seq::<u8>::empty());
        assert(digits_val(ds) == ds[0] - 48);
        assert(dec_digits(digits_val(ds) as nat) == seq![(48 + (ds[0] - 48) as nat) as u8]);
        assert(dec_digits(digits_val(ds) as nat) =~= ds);
    } else {
        let pre = ds.drop_last();
        assert(forall|k: int| 0 <= k < pre.len() ==> #[trigger] pre[k] == ds[k]);
        assert(is_digit(ds.last()));
        lemma_digits_canon(pre);
        let v0 = digits_val(pre);
        let d = ds.last() - 48;
        if v0 == 0 {
            lemma_dec_digits(0);
            assert(pre[0] == dec_digits(0nat)[0]);
            assert(false);
        }
        let v = digits_val(ds);
        assert(v == v0 * 10 + d);
        assert(v / 10 == v0 && v % 10 == d) by (nonlinear_arith)
            requires
                v == v0 * 10 + d,
                v0 >= 1,
                0 <= d < 10,
        ;
        assert(v >= 10) by (nonlinear_arith)
            requires
                v == v0 * 10 + d,
                v0 >= 1,
                0 <= d,
        ;
        assert(dec_digits(v as nat) == dec_digits(v0 as nat).push((48 + v % 10) as u8));
        assert(dec_digits(v as nat) =~= ds);
    }
}

/// A digit run's value never goes negative.
proof fn lemma_digits_nonneg(ds: Seq<u8>)
    requires
        forall|p: int| 0 <= p < ds.len() ==> is_digit(#[trigger] ds[p]),
    ensures
        digits_val(ds) >= 0,
    decreases ds.len(),
{
    if ds.len() > 0 {
        assert(forall|p: int| 0 <= p < ds.drop_last().len() ==> #[trigger] ds.drop_last()[p]
            == ds[p]);
        lemma_digits_nonneg(ds.drop_last());
        assert(is_digit(ds.last()));
    }
}

/// A prefix of a digit run never exceeds the whole run's value.
proof fn lemma_digits_prefix(ds: Seq<u8>, k: int)
    requires
        forall|p: int| 0 <= p < ds.len() ==> is_digit(#[trigger] ds[p]),
        0 <= k <= ds.len(),
    ensures
        digits_val(ds.take(k)) <= digits_val(ds),
    decreases ds.len() - k,
{
    if k == ds.len() {
        assert(ds.take(k) =~= ds);
    } else {
        lemma_digits_prefix(ds, k + 1);
        assert(ds.take(k + 1).drop_last() =~= ds.take(k));
        assert(ds.take(k + 1).last() == ds[k]);
        assert(digits_val(ds.take(k + 1)) == digits_val(ds.take(k)) * 10 + (ds[k] - 48));
        assert(forall|p: int| 0 <= p < ds.take(k).len() ==> #[trigger] ds.take(k)[p] == ds[p]);
        lemma_digits_nonneg(ds.take(k));
        assert(digits_val(ds.take(k)) <= digits_val(ds.take(k)) * 10 + (ds[k] - 48))
            by (nonlinear_arith)
            requires
                digits_val(ds.take(k)) >= 0,
                0 <= ds[k] - 48,
        ;
    }
}

/// The first byte of an encoding classifies the encoded value's variant.
proof fn lemma_encode_first(w: Valuev)
    ensures
        encode_spec(w).len() >= 1,
        match w {
            Valuev::Null => encode_spec(w)[0] == 110,
            Valuev::Bool(b) => encode_spec(w)[0] == (if b {
                116u8
            } else {
                102u8
            }),
            Valuev::Int(_) => encode_spec(w)[0] == 45 || is_digit(encode_spec(w)[0]),
            Valuev::Text(_) => encode_spec(w)[0] == 34,
            Valuev::Array(_) => encode_spec(w)[0] == 91,
            Valuev::Object(_) => encode_spec(w)[0] == 123,
        },
{
    match w {
        Valuev::Int(n) => {
            if n < 0 {
                lemma_dec_digits((-n) as nat);
            } else {
                lemma_dec_digits(n as nat);
                assert(encode_spec(w)[0] == dec_digits(n as nat)[0]);
            }
        },
        _ => {},
    }
}

/// Escaped text decomposes from the front, one source byte at a time.
proof fn lemma_esc_front(u: Seq<u8>)
    requires
        u.len() >= 1,
    ensures
        esc_bytes(u) == esc_byte(u[0]) + esc_bytes(u.skip(1)),
    decreases u.len(),
{
    if u.len() == 1 {
        assert(u.drop_last() =~= Seq::<u8>::empty());
        assert(u.skip(1) =~= Seq::<u8>::empty());
        assert(esc_bytes(u) =~= esc_byte(u[0]) + esc_bytes(u.skip(1)));
    } else {
        let pre = u.drop_last();
        lemma_esc_front(pre);
        assert(pre[0] == u[0]);
        assert(u.skip(1).drop_last() =~= pre.skip(1));
        assert(u.skip(1).last() == u.last());
        assert(esc_bytes(u.skip(1)) == esc_bytes(pre.skip(1)) + esc_byte(u.last()));
        assert(esc_bytes(u) =~= esc_byte(u[0]) + esc_bytes(u.skip(1)));
    }
}

/// Appending one source byte extends the escaped text by its escape.
proof fn lemma_esc_push(u: Seq<u8>, b: u8)
    ensures
        esc_bytes(u.push(b)) == esc_bytes(u) + esc_byte(b),
{
    assert(u.push(b).drop_last() =~= u);
    assert(u.push(b).last() == b);
}

/// Appending an element extends the separated element list at its tail.
proof fn lemma_items_bytes_push_gen(items: Seq<Valuev>, x: Valuev, i: int)
    requires
        0 <= i <= items.len(),
    ensures
        items_bytes(items.push(x), i) == items_bytes(items, i) + (if items.len() > 0 {
            seq![44u8]
        } else {
            Seq::<u8>::empty()
        }) + encode_spec(x),
    decreases items.len() - i,
{
    let sep: Seq<u8> = if items.len() > 0 {
        seq![44u8]
    } else {
        Seq::<u8>::empty()
    };
    if i == items.len() {
        assert(items_bytes(items.push(x), i + 1) =~= Seq::<u8>::empty());
        assert(items.push(x)[i] == x);
        assert(items_bytes(items.push(x), i) =~= items_bytes(items, i) + sep + encode_spec(x));
    } else {
        lemma_items_bytes_push_gen(items, x, i + 1);
        assert(items.push(x)[i] == items[i]);
        assert(items_bytes(items.push(x), i) =~= items_bytes(items, i) + sep + encode_spec(x));
    }
}

/// Appending a member extends the separated member list at its tail.
proof fn lemma_members_bytes_push_gen(
    members: Seq<(Seq<u8>, Valuev)>,
    key: Seq<u8>,
    x: Valuev,
    i: int,
)
    requires
        0 <= i <= members.len(),
    ensures
        members_bytes(members.push((key, x)), i) == members_bytes(members, i) + (if members.len()
            > 0 {
            seq![44u8]
        } else {
            Seq::<u8>::empty()
        }) + member_bytes(key, x),
    decreases members.len() - i,
{
    let sep: Seq<u8> = if members.len() > 0 {
        seq![44u8]
    } else {
        Seq::<u8>::empty()
    };
    if i == members.len() {
        assert(members_bytes(members.push((key, x)), i + 1) =~= Seq::<u8>::empty());
        assert(members.push((key, x))[i] == (key, x));
        assert(members_bytes(members.push((key, x)), i) =~= members_bytes(members, i) + sep
            + member_bytes(key, x));
    } else {
        lemma_members_bytes_push_gen(members, key, x, i + 1);
        assert(members.push((key, x))[i] == members[i]);
        assert(members_bytes(members.push((key, x)), i) =~= members_bytes(members, i) + sep
            + member_bytes(key, x));
    }
}

/// The magnitude of an integer.
pub open spec fn mag_of(n: int) -> nat {
    if n < 0 {
        (-n) as nat
    } else {
        n as nat
    }
}

/// An integer encoding sits at `[i, jj)` of `s`, not followed by a digit.
pub open spec fn int_at(s: Seq<u8>, i: int, n: int, jj: int) -> bool {
    &&& i64::MIN <= n <= i64::MAX
    &&& 0 <= i <= jj <= s.len()
    &&& s.subrange(i, jj) == int_bytes(n)
    &&& (jj == s.len() || !is_digit(s[jj]))
}

/// A quoted-text encoding sits at `[i, jj)` of `s`.
pub open spec fn str_at(s: Seq<u8>, i: int, u: Seq<u8>, jj: int) -> bool {
    &&& 0 <= i <= jj <= s.len()
    &&& s.subrange(i, jj) == text_bytes(u)
}

/// A payload encoding sits at `[i, jj)` of `s`; an integer encoding is not
/// followed by a digit, so that it cannot be read as part of a longer run.
pub open spec fn valid_at(s: Seq<u8>, i: int, w: Valuev, jj: int) -> bool {
    &&& payload_wf(w)
    &&& 0 <= i <= jj <= s.len()
    &&& s.subrange(i, jj) == encode_spec(w)
    &&& (jj == s.len() || !(w is Int && is_digit(s[jj])))
}

/// What an integer encoding at `[i, jj)` forces on the bytes of `s`: the
/// sign byte classifies the sign, and the rest is one canonical digit run.
proof fn lemma_int_run(s: Seq<u8>, i: int, n: int, jj: int)
    requires
        int_at(s, i, n, jj),
    ensures
        (n < 0 <==> s[i] == 45),
        n >= 0 ==> is_digit(s[i]),
        ({
            let k = if n < 0 {
                i + 1
            } else {
                i
            };
            &&& k < jj
            &&& s.subrange(k, jj) == dec_digits(mag_of(n))
            &&& forall|p: int| k <= p < jj ==> is_digit(#[trigger] s[p])
            &&& digits_val(s.subrange(k, jj)) == mag_of(n)
            &&& (s[k] == 48 ==> jj == k + 1 && n == 0)
        }),
{
    lemma_dec_digits(mag_of(n));
    let k = if n < 0 {
        i + 1
    } else {
        i
    };
    if n < 0 {
        assert(int_bytes(n) == seq![45u8] + dec_digits(mag_of(n)));
        lemma_subrange_split(s, i, jj, seq![45u8], dec_digits(mag_of(n)));
        assert(s[i] == s.subrange(i, jj)[0]);
    } else {
        assert(int_bytes(n) == dec_digits(mag_of(n)));
        assert(s[i] == s.subrange(i, jj)[0]);
        assert(s[i] == dec_digits(mag_of(n))[0]);
    }
    let ds = dec_digits(mag_of(n));
    assert(s.subrange(k, jj) == ds);
    assert forall|p: int| k <= p < jj implies is_digit(#[trigger] s[p]) by {
        assert(s[p] == s.subrange(k, jj)[p - k]);
    }
    if s[k] == 48 {
        assert(ds[0] == s[k]);
        if mag_of(n) >= 1 {
            assert(false);
        }
        assert(mag_of(n) == 0 && n == 0);
        assert(ds.len() == 1);
    }
}

/// Reads an integer at `i` (first byte is a sign or digit): accepts exactly
/// the canonical integer encodings that fit a 64-bit word, and reads the
/// longest digit run, so a caller knows no digit follows.
fn parse_int(s: &Vec<u8>, i: usize) -> (r: Option<(i64, usize)>)
    requires
        i < s@.len(),
        s@[i as int] == 45 || is_digit(s@[i as int]),
    ensures
        (match r {
            Some(p) => {
                &&& i < p.1 <= s@.len()
                &&& s@.subrange(i as int, p.1 as int) == int_bytes(p.0 as int)
                &&& (p.1 == s@.len() || !is_digit(s@[p.1 as int]))
            },
            None => true,
        }),
        forall|n: int, jj: int| int_at(s@, i as int, n, jj) ==> r is Some && r->Some_0.0 == n
            && r->Some_0.1 == jj,
{
    let len = s.len();
    let neg = s[i] == 45;
    let k: usize = if neg {
        i + 1
    } else {
        i
    };
    let mut j: usize = k;
    let mut acc: u64 = 0;
    while j < len && 48 <= s[j] && s[j] <= 57
        invariant
            k <= j <= len,
            len == s@.len(),
            i < s@.len(),
            (if neg {
                k == i + 1 && s@[i as int] == 45
            } else {
                k == i && is_digit(s@[i as int])
            }),
            forall|p: int| k <= p < j ==> is_digit(#[trigger] s@[p]),
            acc == digits_val(s@.subrange(k as int, j as int)),
            acc <= 9223372036854775808u64,
        decreases len - j,
    {
        let d: u64 = (s[j] - 48) as u64;
        let ghost run1 = s@.subrange(k as int, j + 1);
        proof {
            assert(run1.drop_last() =~= s@.subrange(k as int, j as int));
            assert(run1.last() == s@[j as int]);
            assert(digits_val(run1) == acc * 10 + d);
        }
        if acc > 922337203685477580 || (acc == 922337203685477580 && d > 8) {
            proof {
                assert forall|n: int, jj: int| int_at(s@, i as int, n, jj) implies false by {
                    lemma_int_run(s@, i as int, n, jj);
                    let ds = dec_digits(mag_of(n));
                    assert(n < 0 <==> neg);
                    assert(jj > j) by {
                        if jj <= j {
                            assert(is_digit(s@[jj]) || jj == s@.len());
                            assert(jj < s@.len());
                            assert(k < jj ==> is_digit(s@[jj]));
                        }
                    }
                    assert(run1 =~= ds.take(j + 1 - k as int));
                    lemma_digits_prefix(ds, j + 1 - k as int);
                    assert(digits_val(run1) <= mag_of(n));
                    assert(mag_of(n) <= 9223372036854775808);
                    assert(acc * 10 + d > 9223372036854775808);
                }
            }
            return None;
        }
        acc = acc * 10 + d;
        j += 1;
        proof {
            assert(forall|p: int| k <= p < j ==> is_digit(#[trigger] s@[p]));
        }
    }
    // After the scan: the run `[k, j)` is maximal.
    proof {
        assert forall|n: int, jj: int| int_at(s@, i as int, n, jj) implies jj == j by {
            lemma_int_run(s@, i as int, n, jj);
            if jj < j {
                assert(is_digit(s@[jj]) || jj == s@.len());
            }
            if jj > j {
                assert(is_digit(s@[j as int]));
                assert(j < len || jj > len);
            }
        }
    }
    if j == k {
        proof {
            assert forall|n: int, jj: int| int_at(s@, i as int, n, jj) implies false by {
                lemma_int_run(s@, i as int, n, jj);
            }
        }
        return None;
    }
    let ghost run = s@.subrange(k as int, j as int);
    if s[k] == 48 && (neg || j - k > 1) {
        proof {
            assert forall|n: int, jj: int| int_at(s@, i as int, n, jj) implies false by {
                lemma_int_run(s@, i as int, n, jj);
                assert(s@[k as int] == 48 ==> jj == k + 1 && n == 0);
                assert(n == 0 ==> int_bytes(n)[0] == dec_digits(0nat)[0]);
                if n == 0 {
                    lemma_dec_digits(0nat);
                    assert(s@[i as int] == s@.subrange(i as int, jj)[0]);
                    assert(!neg);
                }
            }
        }
        return None;
    }
    proof {
        lemma_digits_canon(run);
        assert(acc == digits_val(run));
        assert(dec_digits(acc as nat) == run);
    }
    let val: i64;
    if neg {
        if acc > 9223372036854775808u64 {
            // unreachable given the scan bound, but kept as a plain guard
            proof {
                assert forall|n: int, jj: int| int_at(s@, i as int, n, jj) implies false by {
                    lemma_int_run(s@, i as int, n, jj);
                }
            }
            return None;
        }
        if acc == 9223372036854775808u64 {
            val = i64::MIN;
        } else {
            val = -(acc as i64);
        }
        proof {
            assert(val as int == -(acc as int));
            assert(val < 0) by {
                if acc == 0 {
                    assert(run[0] == 48);
                }
            }
            assert(mag_of(val as int) == acc);
            assert(int_bytes(val as int) == seq![45u8] + dec_digits(acc as nat));
            lemma_subrange_join(s@, i as int, k as int, j as int);
            assert(s@.subrange(i as int, k as int) =~= seq![45u8]);
            assert(s@.subrange(i as int, j as int) == int_bytes(val as int));
        }
    } else {
        if acc > 9223372036854775807u64 {
            proof {
                assert forall|n: int, jj: int| int_at(s@, i as int, n, jj) implies false by {
                    lemma_int_run(s@, i as int, n, jj);
                    assert(n >= 0) by {
                        if n < 0 {
                            assert(s@[i as int] == 45);
                        }
                    }
                    assert(mag_of(n) == n <= 9223372036854775807);
                    assert(digits_val(run) == mag_of(n));
                }
            }
            return None;
        }
        val = acc as i64;
        proof {
            assert(mag_of(val as int) == acc);
            assert(int_bytes(val as int) == dec_digits(acc as nat));
            assert(s@.subrange(i as int, j as int) == int_bytes(val as int));
        }
    }
    proof {
        assert forall|n: int, jj: int| int_at(s@, i as int, n, jj) implies n == val as int && jj
            == j by {
            lemma_int_run(s@, i as int, n, jj);
            assert(jj == j);
            assert(s@.subrange(k as int, jj) == dec_digits(mag_of(n)));
            lemma_dec_digits(mag_of(n));
            assert(digits_val(run) == mag_of(n));
            assert(mag_of(n) == acc);
            assert((n < 0) <==> neg);
        }
    }
    Some((val, j))
}

/// Reads a quoted text at `i` (first byte is the opening quote): accepts
/// exactly the canonical text encodings, with `\"` and `\\` escapes.
fn parse_string(s: &Vec<u8>, i: usize) -> (r: Option<(Vec<u8>, usize)>)
    requires
        i < s@.len(),
        s@[i as int] == 34,
    ensures
        (match r {
            Some(p) => {
                &&& i < p.1 <= s@.len()
                &&& s@.subrange(i as int, p.1 as int) == text_bytes(p.0@)
            },
            None => true,
        }),
        forall|u: Seq<u8>, jj: int| str_at(s@, i as int, u, jj) ==> r is Some && r->Some_0.0@ == u
            && r->Some_0.1 == jj,
{
    let len = s.len();
    let mut out: Vec<u8> = Vec::new();
    let mut j: usize = i + 1;
    proof {
        assert(s@.subrange(i as int + 1, j as int) =~= esc_bytes(out@));
        assert forall|u: Seq<u8>, jj: int| str_at(s@, i as int, u, jj) implies {
            &&& out@.len() <= u.len()
            &&& out@ == u.take(out@.len() as int)
            &&& j <= jj - 1
            &&& s@.subrange(j as int, jj - 1) == esc_bytes(u.skip(out@.len() as int))
            &&& s@[jj - 1] == 34
        } by {
            assert(text_bytes(u) =~= (seq![34u8] + esc_bytes(u)) + seq![34u8]);
            lemma_subrange_split(s@, i as int, jj, seq![34u8] + esc_bytes(u), seq![34u8]);
            lemma_subrange_split(s@, i as int, jj - 1, seq![34u8], esc_bytes(u));
            assert(s@[jj - 1] == s@.subrange(jj - 1, jj)[0]);
            assert(out@ =~= u.take(0));
            assert(u.skip(0) =~= u);
        }
    }
    loop
        invariant
            i + 1 <= j <= len,
            len == s@.len(),
            s@[i as int] == 34,
            s@.subrange(i as int + 1, j as int) == esc_bytes(out@),
            forall|u: Seq<u8>, jj: int| str_at(s@, i as int, u, jj) ==> {
                &&& out@.len() <= u.len()
                &&& out@ == u.take(out@.len() as int)
                &&& j <= jj - 1
                &&& s@.subrange(j as int, jj - 1) == esc_bytes(u.skip(out@.len() as int))
                &&& s@[jj - 1] == 34
            },
        decreases len - j,
    {
        if j >= len {
            proof {
                assert forall|u: Seq<u8>, jj: int| str_at(s@, i as int, u, jj) implies false by {
                    assert(j <= jj - 1 && jj <= len);
                }
            }
            return None;
        }
        let b = s[j];
        if b == 34 {
            proof {
                assert(s@.subrange(i as int, j + 1) =~= seq![34u8] + esc_bytes(out@)
                    + seq![34u8]);
                assert forall|u: Seq<u8>, jj: int| str_at(s@, i as int, u, jj) implies out@ == u
                    && jj == j + 1 by {
                    let m = out@.len() as int;
                    let rest = u.skip(m);
                    if rest.len() >= 1 {
                        lemma_esc_front(rest);
                        assert(esc_bytes(rest)[0] == esc_byte(rest[0])[0]);
                        assert(s@[j as int] == s@.subrange(j as int, jj - 1)[0]);
                        assert(esc_byte(rest[0])[0] != 34);
                        assert(false);
                    }
                    assert(u.take(m) =~= u);
                }
            }
            return Some((out, j + 1));
        } else if b == 92 {
            proof {
                assert forall|u: Seq<u8>, jj: int| str_at(s@, i as int, u, jj) implies {
                    &&& u.skip(out@.len() as int).len() >= 1
                    &&& u[out@.len() as int] == 34 || u[out@.len() as int] == 92
                    &&& j + 2 <= jj - 1
                    &&& s@[j + 1] == u[out@.len() as int]
                } by {
                    let m = out@.len() as int;
                    let rest = u.skip(m);
                    if rest.len() == 0 {
                        assert(s@.subrange(j as int, jj - 1) =~= Seq::<u8>::empty());
                        assert(j == jj - 1);
                        assert(s@[j as int] == 34);
                        assert(false);
                    }
                    lemma_esc_front(rest);
                    assert(esc_bytes(rest)[0] == esc_byte(rest[0])[0]);
                    assert(s@[j as int] == s@.subrange(j as int, jj - 1)[0]);
                    assert(rest[0] == 34 || rest[0] == 92);
                    assert(esc_byte(rest[0]) == seq![92u8, rest[0]]);
                    assert(esc_bytes(rest).len() >= 2) by {
                        assert(esc_bytes(rest) == esc_byte(rest[0]) + esc_bytes(rest.skip(1)));
                    }
                    assert(s@[j + 1] == s@.subrange(j as int, jj - 1)[1]);
                    assert(s@.subrange(j as int, jj - 1)[1] == esc_byte(rest[0])[1]);
                    assert(rest[0] == u[m]);
                }
            }
            if j + 1 >= len {
                proof {
                    assert forall|u: Seq<u8>, jj: int|
                        str_at(s@, i as int, u, jj) implies false by {
                        assert(j + 2 <= jj - 1 && jj <= len);
                    }
                }
                return None;
            }
            let c = s[j + 1];
            if c == 34 || c == 92 {
                let ghost old_out = out@;
                out.push(c);
                proof {
                    lemma_esc_push(old_out, c);
                    assert(esc_byte(c) == seq![92u8, c]);
                    assert(s@.subrange(i as int + 1, j + 2) =~= esc_bytes(old_out) + esc_byte(c));
                    assert forall|u: Seq<u8>, jj: int| str_at(s@, i as int, u, jj) implies {
                        &&& out@.len() <= u.len()
                        &&& out@ == u.take(out@.len() as int)
                        &&& j + 2 <= jj - 1
                        &&& s@.subrange(j + 2, jj - 1) == esc_bytes(u.skip(out@.len() as int))
                        &&& s@[jj - 1] == 34
                    } by {
                        let m = old_out.len() as int;
                        let rest = u.skip(m);
                        assert(u[m] == c);
                        assert(out@ =~= u.take(m + 1)) by {
                            assert(out@ == old_out.push(c));
                            assert(old_out == u.take(m));
                        }
                        lemma_esc_front(rest);
                        assert(rest.skip(1) =~= u.skip(m + 1));
                        assert(esc_byte(rest[0]) == seq![92u8, rest[0]]);
                        lemma_subrange_split(
                            s@,
                            j as int,
                            jj - 1,
                            esc_byte(rest[0]),
                            esc_bytes(u.skip(m + 1)),
                        );
                    }
                }
                j += 2;
            } else {
                proof {
                    assert forall|u: Seq<u8>, jj: int|
                        str_at(s@, i as int, u, jj) implies false by {
                        assert(s@[j + 1] == u[out@.len() as int]);
                    }
                }
                return None;
            }
        } else {
            let ghost old_out = out@;
            out.push(b);
            proof {
                lemma_esc_push(old_out, b);
                assert(esc_byte(b) == seq![b]);
                assert(s@.subrange(i as int + 1, j + 1) =~= esc_bytes(old_out) + esc_byte(b));
                assert forall|u: Seq<u8>, jj: int| str_at(s@, i as int, u, jj) implies {
                    &&& out@.len() <= u.len()
                    &&& out@ == u.take(out@.len() as int)
                    &&& j + 1 <= jj - 1
                    &&& s@.subrange(j + 1, jj - 1) == esc_bytes(u.skip(out@.len() as int))
                    &&& s@[jj - 1] == 34
                } by {
                    let m = old_out.len() as int;
                    let rest = u.skip(m);
                    if rest.len() == 0 {
                        assert(s@.subrange(j as int, jj - 1) =~= Seq::<u8>::empty());
                        assert(j == jj - 1);
                        assert(s@[j as int] == 34);
                        assert(false);
                    }
                    lemma_esc_front(rest);
                    assert(esc_bytes(rest)[0] == esc_byte(rest[0])[0]);
                    assert(s@[j as int] == s@.subrange(j as int, jj - 1)[0]);
                    assert(rest[0] == b) by {
                        if rest[0] == 34 || rest[0] == 92 {
                            assert(esc_byte(rest[0])[0] == 92);
                        }
                    }
                    assert(u[m] == b);
                    assert(out@ =~= u.take(m + 1));
                    assert(rest.skip(1) =~= u.skip(m + 1));
                    lemma_subrange_split(
                        s@,
                        j as int,
                        jj - 1,
                        esc_byte(rest[0]),
                        esc_bytes(u.skip(m + 1)),
                    );
                }
            }
            j += 1;
        }
    }
}

/// An array encoding with elements `ws` sits at `[i, jj)` of `s`.
pub open spec fn arr_at(s: Seq<u8>, i: int, ws: Seq<Valuev>, jj: int) -> bool {
    &&& payload_wf(Valuev::Array(ws))
    &&& 0 <= i <= jj <= s.len()
    &&& s.subrange(i, jj) == encode_spec(Valuev::Array(ws))
}

/// An object encoding with members `ms` sits at `[i, jj)` of `s`.
pub open spec fn obj_at(s: Seq<u8>, i: int, ms: Seq<(Seq<u8>, Valuev)>, jj: int) -> bool {
    &&& payload_wf(Valuev::Object(ms))
    &&& 0 <= i <= jj <= s.len()
    &&& s.subrange(i, jj) == encode_spec(Valuev::Object(ms))
}

/// Reads an array at `i` (first byte is `[`): accepts exactly the canonical
/// array encodings.
#[verifier::rlimit(100)]
fn parse_array(s: &Vec<u8>, i: usize) -> (r: Option<(Value, usize)>)
    requires
        i < s@.len(),
        s@[i as int] == 91,
    ensures
        (match r {
            Some(p) => {
                &&& i < p.1 <= s@.len()
                &&& payload_wf(p.0.dv())
                &&& s@.subrange(i as int, p.1 as int) == encode_spec(p.0.dv())
                &&& p.0.dv() is Array
            },
            None => true,
        }),
        forall|ws: Seq<Valuev>, jj: int| arr_at(s@, i as int, ws, jj) ==> r is Some
            && r->Some_0.0.dv() == Valuev::Array(ws) && r->Some_0.1 == jj,
    decreases s@.len() - i, 0int,
{
    let len = s.len();
    proof {
        assert forall|ws: Seq<Valuev>, jj: int| arr_at(s@, i as int, ws, jj) implies {
            &&& i + 2 <= jj
            &&& s@.subrange(i as int + 1, jj - 1) == items_bytes(ws, 0)
            &&& s@[jj - 1] == 93
        } by {
            assert(encode_spec(Valuev::Array(ws)) =~= (seq![91u8] + items_bytes(ws, 0))
                + seq![93u8]);
            lemma_subrange_split(s@, i as int, jj, seq![91u8] + items_bytes(ws, 0), seq![93u8]);
            lemma_subrange_split(s@, i as int, jj - 1, seq![91u8], items_bytes(ws, 0));
            assert(s@[jj - 1] == s@.subrange(jj - 1, jj)[0]);
        }
    }
    if i + 1 >= len {
        return None;
    }
    if s[i + 1] == 93 {
        let elems: Vec<Value> = Vec::new();
        proof {
            lemma_dv_items_index(elems, 0);
            assert(dv_items(elems, 0) =~= Seq::<Valuev>::empty());
            assert(s@.subrange(i as int, i + 2) =~= encode_spec(
                Valuev::Array(dv_items(elems, 0)),
            ));
            assert forall|ws: Seq<Valuev>, jj: int| arr_at(s@, i as int, ws, jj) implies ws
                =~= dv_items(elems, 0) && jj == i + 2 by {
                if ws.len() > 0 {
                    assert(items_bytes(ws, 0) == encode_spec(ws[0]) + items_bytes(ws, 1));
                    assert(payload_wf(ws[0]));
                    lemma_encode_first(ws[0]);
                    assert(s@[i + 1] == s@.subrange(i as int + 1, jj - 1)[0]);
                    assert(s@[i + 1] == encode_spec(ws[0])[0]);
                    assert(false);
                }
                assert(items_bytes(ws, 0) =~= Seq::<u8>::empty());
            }
        }
        return Some((Value::Array(elems), i + 2));
    }
    let mut elems: Vec<Value> = Vec::new();
    let mut j: usize = i + 1;
    proof {
        lemma_dv_items_index(elems, 0);
        assert(dv_items(elems, 0) =~= Seq::<Valuev>::empty());
        assert(s@.subrange(i as int + 1, j as int) =~= items_bytes(dv_items(elems, 0), 0));
        assert forall|ws: Seq<Valuev>, jj: int| arr_at(s@, i as int, ws, jj) implies {
            &&& (elems@.len() as int) < ws.len()
            &&& dv_items(elems, 0) =~= ws.take(elems@.len() as int)
            &&& j <= jj - 1
            &&& s@.subrange(j as int, jj - 1) == encode_spec(ws[elems@.len() as int])
                + items_bytes(ws, elems@.len() as int + 1)
            &&& s@[jj - 1] == 93
        } by {
            if ws.len() == 0 {
                assert(items_bytes(ws, 0) =~= Seq::<u8>::empty());
                assert(jj == i + 2);
                assert(s@[i + 1] == s@.subrange(jj - 1, jj)[0]);
                assert(false);
            }
            assert(items_bytes(ws, 0) == encode_spec(ws[0]) + items_bytes(ws, 1));
        }
    }
    loop
        invariant
            i + 1 <= j <= len,
            len == s@.len(),
            i < s@.len(),
            s@[i as int] == 91,
            s@.subrange(i as int + 1, j as int) == items_bytes(dv_items(elems, 0), 0) + (if elems@.len() > 0 {
                seq![44u8]
            } else {
                Seq::<u8>::empty()
            }),
            forall|p: int| 0 <= p < dv_items(elems, 0).len() ==> payload_wf(
                #[trigger] dv_items(elems, 0)[p],
            ),
            forall|ws: Seq<Valuev>, jj: int| arr_at(s@, i as int, ws, jj) ==> {
                &&& (elems@.len() as int) < ws.len()
                &&& dv_items(elems, 0) == ws.take(elems@.len() as int)
                &&& j <= jj - 1
                &&& s@.subrange(j as int, jj - 1) == encode_spec(ws[elems@.len() as int])
                    + items_bytes(ws, elems@.len() as int + 1)
                &&& s@[jj - 1] == 93
            },
        decreases len - j,
    {
        let ghost k = elems@.len() as int;
        let ghost edv = dv_items(elems, 0);
        let ghost old_elems_view = elems@;
        proof {
            lemma_dv_items_index(elems, 0);
        }
        let parsed = parse_value(s, j);
        match parsed {
            None => {
                proof {
                    assert forall|ws: Seq<Valuev>, jj: int|
                        arr_at(s@, i as int, ws, jj) implies false by {
                        assert(payload_wf(ws[k]));
                        lemma_subrange_split(
                            s@,
                            j as int,
                            jj - 1,
                            encode_spec(ws[k]),
                            items_bytes(ws, k + 1),
                        );
                        if k + 1 < ws.len() {
                            assert(items_bytes(ws, k + 1) == seq![44u8] + encode_spec(ws[k + 1])
                                + items_bytes(ws, k + 2));
                            assert(items_bytes(ws, k + 1)[0] == 44);
                            assert(s@[j + encode_spec(ws[k]).len()] == s@.subrange(
                                j + encode_spec(ws[k]).len(),
                                jj - 1,
                            )[0]);
                        } else {
                            assert(items_bytes(ws, k + 1) =~= Seq::<u8>::empty());
                        }
                        assert(valid_at(s@, j as int, ws[k], j + encode_spec(ws[k]).len()));
                    }
                }
                return None;
            },
            Some((v, j2)) => {
                proof {
                    assert forall|ws: Seq<Valuev>, jj: int| arr_at(s@, i as int, ws, jj) implies {
                        &&& v.dv() == ws[k]
                        &&& j2 == j + encode_spec(ws[k]).len()
                        &&& j2 <= jj - 1
                        &&& s@.subrange(j2 as int, jj - 1) == items_bytes(ws, k + 1)
                    } by {
                        assert(payload_wf(ws[k]));
                        lemma_subrange_split(
                            s@,
                            j as int,
                            jj - 1,
                            encode_spec(ws[k]),
                            items_bytes(ws, k + 1),
                        );
                        if k + 1 < ws.len() {
                            assert(items_bytes(ws, k + 1) == seq![44u8] + encode_spec(ws[k + 1])
                                + items_bytes(ws, k + 2));
                            assert(items_bytes(ws, k + 1)[0] == 44);
                            assert(s@[j + encode_spec(ws[k]).len()] == s@.subrange(
                                j + encode_spec(ws[k]).len(),
                                jj - 1,
                            )[0]);
                        } else {
                            assert(items_bytes(ws, k + 1) =~= Seq::<u8>::empty());
                        }
                        assert(valid_at(s@, j as int, ws[k], j + encode_spec(ws[k]).len()));
                    }
                }
                let ghost vdv = v.dv();
                elems.push(v);
                proof {
                    lemma_dv_items_index(elems, 0);
                    assert(elems@ == old_elems_view.push(v));
                    assert forall|p: int| 0 <= p <= k implies dv_items(elems, 0)[p] == edv.push(
                        vdv,
                    )[p] by {
                        if p < k {
                            assert(elems@[p] == old_elems_view[p]);
                            assert(edv[p] == old_elems_view[p].dv());
                        } else {
                            assert(elems@[k] == v);
                        }
                    }
                    assert(dv_items(elems, 0) =~= edv.push(vdv));
                    lemma_items_bytes_push_gen(edv, vdv, 0);
                    lemma_subrange_join(s@, i as int + 1, j as int, j2 as int);
                    assert(s@.subrange(i as int + 1, j2 as int) == items_bytes(
                        dv_items(elems, 0),
                        0,
                    ));
                }
                if j2 >= len {
                    proof {
                        assert forall|ws: Seq<Valuev>, jj: int|
                            arr_at(s@, i as int, ws, jj) implies false by {
                            assert(j2 <= jj - 1 && jj <= len);
                        }
                    }
                    return None;
                }
                let b2 = s[j2];
                if b2 == 44 {
                    proof {
                        assert forall|ws: Seq<Valuev>, jj: int|
                            arr_at(s@, i as int, ws, jj) implies {
                            &&& (elems@.len() as int) < ws.len()
                            &&& dv_items(elems, 0) == ws.take(elems@.len() as int)
                            &&& j2 + 1 <= jj - 1
                            &&& s@.subrange(j2 + 1, jj - 1) == encode_spec(
                                ws[elems@.len() as int],
                            ) + items_bytes(ws, elems@.len() as int + 1)
                            &&& s@[jj - 1] == 93
                        } by {
                            if k + 1 >= ws.len() {
                                assert(s@.subrange(j2 as int, jj - 1) =~= Seq::<u8>::empty());
                                assert(j2 == jj - 1);
                                assert(false);
                            }
                            assert(items_bytes(ws, k + 1) == seq![44u8] + encode_spec(ws[k + 1])
                                + items_bytes(ws, k + 2));
                            assert((seq![44u8] + encode_spec(ws[k + 1]) + items_bytes(
                                ws,
                                k + 2,
                            )) =~= seq![44u8] + (encode_spec(ws[k + 1]) + items_bytes(
                                ws,
                                k + 2,
                            )));
                            lemma_subrange_split(
                                s@,
                                j2 as int,
                                jj - 1,
                                seq![44u8],
                                encode_spec(ws[k + 1]) + items_bytes(ws, k + 2),
                            );
                            assert(ws.take(k + 1) =~= ws.take(k).push(ws[k]));
                        }
                    }
                    j = j2 + 1;
                } else if b2 == 93 {
                    proof {
                        assert(s@.subrange(i as int, j2 + 1) =~= seq![91u8] + items_bytes(
                            dv_items(elems, 0),
                            0,
                        ) + seq![93u8]);
                        assert forall|ws: Seq<Valuev>, jj: int|
                            arr_at(s@, i as int, ws, jj) implies ws == dv_items(elems, 0) && jj
                            == j2 + 1 by {
                            if k + 1 < ws.len() {
                                assert(items_bytes(ws, k + 1) == seq![44u8] + encode_spec(
                                    ws[k + 1],
                                ) + items_bytes(ws, k + 2));
                                assert(s@[j2 as int] == s@.subrange(j2 as int, jj - 1)[0]);
                                assert(false);
                            }
                            assert(items_bytes(ws, k + 1) =~= Seq::<u8>::empty());
                            assert(s@.subrange(j2 as int, jj - 1) =~= Seq::<u8>::empty());
                            assert(jj == j2 + 1);
                            assert(ws =~= ws.take(k).push(ws[k]));
                            assert(ws == dv_items(elems, 0));
                        }
                    }
                    return Some((Value::Array(elems), j2 + 1));
                } else {
                    proof {
                        assert forall|ws: Seq<Valuev>, jj: int|
                            arr_at(s@, i as int, ws, jj) implies false by {
                            if k + 1 < ws.len() {
                                assert(items_bytes(ws, k + 1) == seq![44u8] + encode_spec(
                                    ws[k + 1],
                                ) + items_bytes(ws, k + 2));
                                assert(s@[j2 as int] == s@.subrange(j2 as int, jj - 1)[0]);
                            } else {
                                assert(items_bytes(ws, k + 1) =~= Seq::<u8>::empty());
                                assert(s@.subrange(j2 as int, jj - 1) =~= Seq::<u8>::empty());
                                assert(s@[j2 as int] == s@[jj - 1]);
                            }
                        }
                    }
                    return None;
                }
            },
        }
    }
}

/// Reads an object at `i` (first byte is `{`): accepts exactly the
/// canonical object encodings.
#[verifier::rlimit(100)]
fn parse_object(s: &Vec<u8>, i: usize) -> (r: Option<(Value, usize)>)
    requires
        i < s@.len(),
        s@[i as int] == 123,
    ensures
        (match r {
            Some(p) => {
                &&& i < p.1 <= s@.len()
                &&& payload_wf(p.0.dv())
                &&& s@.subrange(i as int, p.1 as int) == encode_spec(p.0.dv())
                &&& p.0.dv() is Object
            },
            None => true,
        }),
        forall|ms: Seq<(Seq<u8>, Valuev)>, jj: int| obj_at(s@, i as int, ms, jj) ==> r is Some
            && r->Some_0.0.dv() == Valuev::Object(ms) && r->Some_0.1 == jj,
    decreases s@.len() - i, 0int,
{
    let len = s.len();
    proof {
        assert forall|ms: Seq<(Seq<u8>, Valuev)>, jj: int| obj_at(s@, i as int, ms, jj) implies {
            &&& i + 2 <= jj
            &&& s@.subrange(i as int + 1, jj - 1) == members_bytes(ms, 0)
            &&& s@[jj - 1] == 125
        } by {
            assert(encode_spec(Valuev::Object(ms)) =~= (seq![123u8] + members_bytes(ms, 0))
                + seq![125u8]);
            lemma_subrange_split(s@, i as int, jj, seq![123u8] + members_bytes(ms, 0), seq![125u8]);
            lemma_subrange_split(s@, i as int, jj - 1, seq![123u8], members_bytes(ms, 0));
            assert(s@[jj - 1] == s@.subrange(jj - 1, jj)[0]);
        }
    }
    if i + 1 >= len {
        return None;
    }
    if s[i + 1] == 125 {
        let members: Vec<(Vec<u8>, Value)> = Vec::new();
        proof {
            lemma_dv_members_index(members, 0);
            assert(dv_members(members, 0) =~= Seq::<(Seq<u8>, Valuev)>::empty());
            assert(s@.subrange(i as int, i + 2) =~= encode_spec(
                Valuev::Object(dv_members(members, 0)),
            ));
            assert forall|ms: Seq<(Seq<u8>, Valuev)>, jj: int|
                obj_at(s@, i as int, ms, jj) implies ms =~= dv_members(members, 0) && jj == i
                + 2 by {
                if ms.len() > 0 {
                    assert(members_bytes(ms, 0) == member_bytes(ms[0].0, ms[0].1) + members_bytes(
                        ms,
                        1,
                    ));
                    assert(member_bytes(ms[0].0, ms[0].1)[0] == 34);
                    assert(members_bytes(ms, 0)[0] == 34);
                    assert(s@[i + 1] == s@.subrange(i as int + 1, jj - 1)[0]);
                    assert(false);
                }
                assert(members_bytes(ms, 0) =~= Seq::<u8>::empty());
            }
        }
        return Some((Value::Object(members), i + 2));
    }
    let mut members: Vec<(Vec<u8>, Value)> = Vec::new();
    let mut j: usize = i + 1;
    proof {
        lemma_dv_members_index(members, 0);
        assert(dv_members(members, 0) =~= Seq::<(Seq<u8>, Valuev)>::empty());
        assert(s@.subrange(i as int + 1, j as int) =~= members_bytes(dv_members(members, 0), 0));
        assert forall|ms: Seq<(Seq<u8>, Valuev)>, jj: int| obj_at(s@, i as int, ms, jj) implies {
            &&& (members@.len() as int) < ms.len()
            &&& dv_members(members, 0) =~= ms.take(members@.len() as int)
            &&& j <= jj - 1
            &&& s@.subrange(j as int, jj - 1) == member_bytes(
                ms[members@.len() as int].0,
                ms[members@.len() as int].1,
            ) + members_bytes(ms, members@.len() as int + 1)
            &&& s@[jj - 1] == 125
        } by {
            if ms.len() == 0 {
                assert(members_bytes(ms, 0) =~= Seq::<u8>::empty());
                assert(jj == i + 2);
                assert(s@[i + 1] == s@.subrange(jj - 1, jj)[0]);
                assert(false);
            }
            assert(members_bytes(ms, 0) == member_bytes(ms[0].0, ms[0].1) + members_bytes(ms, 1));
        }
    }
    loop
        invariant
            i + 1 <= j <= len,
            len == s@.len(),
            i < s@.len(),
            s@[i as int] == 123,
            s@.subrange(i as int + 1, j as int) == members_bytes(dv_members(members, 0), 0) + (
            if members@.len() > 0 {
                seq![44u8]
            } else {
                Seq::<u8>::empty()
            }),
            forall|p: int| 0 <= p < dv_members(members, 0).len() ==> payload_wf(
                #[trigger] dv_members(members, 0)[p].1,
            ),
            forall|ms: Seq<(Seq<u8>, Valuev)>, jj: int| obj_at(s@, i as int, ms, jj) ==> {
                &&& (members@.len() as int) < ms.len()
                &&& dv_members(members, 0) == ms.take(members@.len() as int)
                &&& j <= jj - 1
                &&& s@.subrange(j as int, jj - 1) == member_bytes(
                    ms[members@.len() as int].0,
                    ms[members@.len() as int].1,
                ) + members_bytes(ms, members@.len() as int + 1)
                &&& s@[jj - 1] == 125
            },
        decreases len - j,
    {
        let ghost k = members@.len() as int;
        let ghost mdv = dv_members(members, 0);
        let ghost old_members_view = members@;
        proof {
            lemma_dv_members_index(members, 0);
            assert forall|ms: Seq<(Seq<u8>, Valuev)>, jj: int|
                obj_at(s@, i as int, ms, jj) implies {
                &&& str_at(s@, j as int, ms[k].0, j + text_bytes(ms[k].0).len())
                &&& s@[j as int] == 34
            } by {
                assert(member_bytes(ms[k].0, ms[k].1) =~= text_bytes(ms[k].0) + (seq![58u8]
                    + encode_spec(ms[k].1)));
                lemma_subrange_split(
                    s@,
                    j as int,
                    jj - 1,
                    member_bytes(ms[k].0, ms[k].1),
                    members_bytes(ms, k + 1),
                );
                lemma_subrange_split(
                    s@,
                    j as int,
                    j + member_bytes(ms[k].0, ms[k].1).len(),
                    text_bytes(ms[k].0),
                    seq![58u8] + encode_spec(ms[k].1),
                );
                assert(s@[j as int] == s@.subrange(j as int, j + text_bytes(ms[k].0).len())[0]);
                assert(s@[j as int] == text_bytes(ms[k].0)[0]);
            }
        }
        if j >= len {
            return None;
        }
        if s[j] != 34 {
            return None;
        }
        let key_parsed = parse_string(s, j);
        match key_parsed {
            None => {
                return None;
            },
            Some((key, j1)) => {
                proof {
                    assert forall|ms: Seq<(Seq<u8>, Valuev)>, jj: int|
                        obj_at(s@, i as int, ms, jj) implies {
                        &&& key@ == ms[k].0
                        &&& j1 == j + text_bytes(ms[k].0).len()
                        &&& j1 + 1 <= jj - 1
                        &&& s@[j1 as int] == 58
                        &&& s@.subrange(j1 + 1, jj - 1) == encode_spec(ms[k].1) + members_bytes(
                            ms,
                            k + 1,
                        )
                    } by {
                        assert(member_bytes(ms[k].0, ms[k].1) =~= (text_bytes(ms[k].0)
                            + seq![58u8]) + encode_spec(ms[k].1));
                        lemma_subrange_split(
                            s@,
                            j as int,
                            jj - 1,
                            member_bytes(ms[k].0, ms[k].1),
                            members_bytes(ms, k + 1),
                        );
                        lemma_subrange_join(
                            s@,
                            j + member_bytes(ms[k].0, ms[k].1).len(),
                            jj - 1,
                            jj - 1,
                        );
                        lemma_subrange_join(s@, j as int, j + member_bytes(ms[k].0, ms[k].1).len(), jj - 1);
                        assert(s@.subrange(j as int, jj - 1) =~= ((text_bytes(ms[k].0)
                            + seq![58u8]) + encode_spec(ms[k].1)) + members_bytes(ms, k + 1));
                        assert(((text_bytes(ms[k].0) + seq![58u8]) + encode_spec(ms[k].1))
                            + members_bytes(ms, k + 1) =~= (text_bytes(ms[k].0) + seq![58u8]) + (
                        encode_spec(ms[k].1) + members_bytes(ms, k + 1)));
                        lemma_subrange_split(
                            s@,
                            j as int,
                            jj - 1,
                            text_bytes(ms[k].0) + seq![58u8],
                            encode_spec(ms[k].1) + members_bytes(ms, k + 1),
                        );
                        lemma_subrange_split(
                            s@,
                            j as int,
                            j + text_bytes(ms[k].0).len() + 1,
                            text_bytes(ms[k].0),
                            seq![58u8],
                        );
                        assert(s@[j + text_bytes(ms[k].0).len()] == s@.subrange(
                            j + text_bytes(ms[k].0).len(),
                            j + text_bytes(ms[k].0).len() + 1,
                        )[0]);
                    }
                }
                if j1 >= len {
                    return None;
                }
                if s[j1] != 58 {
                    return None;
                }
                let val_parsed = parse_value(s, j1 + 1);
                match val_parsed {
                    None => {
                        proof {
                            assert forall|ms: Seq<(Seq<u8>, Valuev)>, jj: int|
                                obj_at(s@, i as int, ms, jj) implies false by {
                                assert(payload_wf(ms[k].1));
                                lemma_subrange_split(
                                    s@,
                                    j1 + 1,
                                    jj - 1,
                                    encode_spec(ms[k].1),
                                    members_bytes(ms, k + 1),
                                );
                                if k + 1 < ms.len() {
                                    assert(members_bytes(ms, k + 1) == seq![44u8] + member_bytes(
                                        ms[k + 1].0,
                                        ms[k + 1].1,
                                    ) + members_bytes(ms, k + 2));
                                    assert(members_bytes(ms, k + 1)[0] == 44);
                                    assert(s@[j1 + 1 + encode_spec(ms[k].1).len()] == s@.subrange(
                                        j1 + 1 + encode_spec(ms[k].1).len(),
                                        jj - 1,
                                    )[0]);
                                } else {
                                    assert(members_bytes(ms, k + 1) =~= Seq::<u8>::empty());
                                }
                                assert(valid_at(
                                    s@,
                                    j1 + 1,
                                    ms[k].1,
                                    j1 + 1 + encode_spec(ms[k].1).len(),
                                ));
                            }
                        }
                        return None;
                    },
                    Some((v, j2)) => {
                        proof {
                            assert forall|ms: Seq<(Seq<u8>, Valuev)>, jj: int|
                                obj_at(s@, i as int, ms, jj) implies {
                                &&& v.dv() == ms[k].1
                                &&& j2 == j1 + 1 + encode_spec(ms[k].1).len()
                                &&& j2 <= jj - 1
                                &&& s@.subrange(j2 as int, jj - 1) == members_bytes(ms, k + 1)
                            } by {
                                assert(payload_wf(ms[k].1));
                                lemma_subrange_split(
                                    s@,
                                    j1 + 1,
                                    jj - 1,
                                    encode_spec(ms[k].1),
                                    members_bytes(ms, k + 1),
                                );
                                if k + 1 < ms.len() {
                                    assert(members_bytes(ms, k + 1) == seq![44u8] + member_bytes(
                                        ms[k + 1].0,
                                        ms[k + 1].1,
                                    ) + members_bytes(ms, k + 2));
                                    assert(members_bytes(ms, k + 1)[0] == 44);
                                    assert(s@[j1 + 1 + encode_spec(ms[k].1).len()] == s@.subrange(
                                        j1 + 1 + encode_spec(ms[k].1).len(),
                                        jj - 1,
                                    )[0]);
                                } else {
                                    assert(members_bytes(ms, k + 1) =~= Seq::<u8>::empty());
                                }
                                assert(valid_at(
                                    s@,
                                    j1 + 1,
                                    ms[k].1,
                                    j1 + 1 + encode_spec(ms[k].1).len(),
                                ));
                            }
                        }
                        let ghost vdv = v.dv();
                        let ghost keyv = key@;
                        members.push((key, v));
                        proof {
                            lemma_dv_members_index(members, 0);
                            assert(members@ == old_members_view.push((key, v)));
                            assert forall|p: int| 0 <= p <= k implies dv_members(members, 0)[p]
                                == mdv.push((keyv, vdv))[p] by {
                                if p < k {
                                    assert(members@[p] == old_members_view[p]);
                                    assert(mdv[p] == (old_members_view[p].0@, old_members_view[p].1.dv()));
                                } else {
                                    assert(members@[k] == (key, v));
                                }
                            }
                            assert(dv_members(members, 0) =~= mdv.push((keyv, vdv)));
                            lemma_members_bytes_push_gen(mdv, keyv, vdv, 0);
                            lemma_subrange_join(s@, i as int + 1, j as int, j2 as int);
                            assert(s@.subrange(j as int, j2 as int) =~= member_bytes(keyv, vdv))
                                by {
                                lemma_subrange_join(s@, j as int, j1 as int, j2 as int);
                                lemma_subrange_join(s@, j1 as int, j1 + 1, j2 as int);
                                assert(s@.subrange(j1 as int, j1 + 1) =~= seq![58u8]);
                                assert(member_bytes(keyv, vdv) =~= (text_bytes(keyv) + seq![58u8])
                                    + encode_spec(vdv));
                            }
                            assert(s@.subrange(i as int + 1, j2 as int) == members_bytes(
                                dv_members(members, 0),
                                0,
                            ));
                        }
                        if j2 >= len {
                            proof {
                                assert forall|ms: Seq<(Seq<u8>, Valuev)>, jj: int|
                                    obj_at(s@, i as int, ms, jj) implies false by {
                                    assert(j2 <= jj - 1 && jj <= len);
                                }
                            }
                            return None;
                        }
                        let b2 = s[j2];
                        if b2 == 44 {
                            proof {
                                assert forall|ms: Seq<(Seq<u8>, Valuev)>, jj: int|
                                    obj_at(s@, i as int, ms, jj) implies {
                                    &&& (members@.len() as int) < ms.len()
                                    &&& dv_members(members, 0) == ms.take(members@.len() as int)
                                    &&& j2 + 1 <= jj - 1
                                    &&& s@.subrange(j2 + 1, jj - 1) == member_bytes(
                                        ms[members@.len() as int].0,
                                        ms[members@.len() as int].1,
                                    ) + members_bytes(ms, members@.len() as int + 1)
                                    &&& s@[jj - 1] == 125
                                } by {
                                    if k + 1 >= ms.len() {
                                        assert(s@.subrange(j2 as int, jj - 1)
                                            =~= Seq::<u8>::empty());
                                        assert(j2 == jj - 1);
                                        assert(false);
                                    }
                                    assert(members_bytes(ms, k + 1) == seq![44u8] + member_bytes(
                                        ms[k + 1].0,
                                        ms[k + 1].1,
                                    ) + members_bytes(ms, k + 2));
                                    assert((seq![44u8] + member_bytes(ms[k + 1].0, ms[k + 1].1)
                                        + members_bytes(ms, k + 2)) =~= seq![44u8] + (
                                    member_bytes(ms[k + 1].0, ms[k + 1].1) + members_bytes(
                                        ms,
                                        k + 2,
                                    )));
                                    lemma_subrange_split(
                                        s@,
                                        j2 as int,
                                        jj - 1,
                                        seq![44u8],
                                        member_bytes(ms[k + 1].0, ms[k + 1].1) + members_bytes(
                                            ms,
                                            k + 2,
                                        ),
                                    );
                                    assert(ms.take(k + 1) =~= ms.take(k).push(ms[k]));
                                }
                            }
                            j = j2 + 1;
                        } else if b2 == 125 {
                            proof {
                                assert(s@.subrange(i as int, j2 + 1) =~= seq![123u8]
                                    + members_bytes(dv_members(members, 0), 0) + seq![125u8]);
                                assert forall|ms: Seq<(Seq<u8>, Valuev)>, jj: int|
                                    obj_at(s@, i as int, ms, jj) implies ms == dv_members(
                                    members,
                                    0,
                                ) && jj == j2 + 1 by {
                                    if k + 1 < ms.len() {
                                        assert(members_bytes(ms, k + 1) == seq![44u8]
                                            + member_bytes(ms[k + 1].0, ms[k + 1].1)
                                            + members_bytes(ms, k + 2));
                                        assert(s@[j2 as int] == s@.subrange(
                                            j2 as int,
                                            jj - 1,
                                        )[0]);
                                        assert(false);
                                    }
                                    assert(members_bytes(ms, k + 1) =~= Seq::<u8>::empty());
                                    assert(s@.subrange(j2 as int, jj - 1) =~= Seq::<u8>::empty());
                                    assert(jj == j2 + 1);
                                    assert(ms =~= ms.take(k).push(ms[k]));
                                    assert(ms == dv_members(members, 0));
                                }
                            }
                            return Some((Value::Object(members), j2 + 1));
                        } else {
                            proof {
                                assert forall|ms: Seq<(Seq<u8>, Valuev)>, jj: int|
                                    obj_at(s@, i as int, ms, jj) implies false by {
                                    if k + 1 < ms.len() {
                                        assert(members_bytes(ms, k + 1) == seq![44u8]
                                            + member_bytes(ms[k + 1].0, ms[k + 1].1)
                                            + members_bytes(ms, k + 2));
                                        assert(s@[j2 as int] == s@.subrange(
                                            j2 as int,
                                            jj - 1,
                                        )[0]);
                                    } else {
                                        assert(members_bytes(ms, k + 1) =~= Seq::<u8>::empty());
                                        assert(s@.subrange(j2 as int, jj - 1)
                                            =~= Seq::<u8>::empty());
                                        assert(s@[j2 as int] == s@[jj - 1]);
                                    }
                                }
                            }
                            return None;
                        }
                    },
                }
            },
        }
    }
}

/// Reads one payload value at `i`: accepts exactly the canonical encodings.
fn parse_value(s: &Vec<u8>, i: usize) -> (r: Option<(Value, usize)>)
    requires
        i <= s@.len(),
    ensures
        (match r {
            Some(p) => {
                &&& i < p.1 <= s@.len()
                &&& payload_wf(p.0.dv())
                &&& s@.subrange(i as int, p.1 as int) == encode_spec(p.0.dv())
            },
            None => true,
        }),
        forall|w: Valuev, jj: int| valid_at(s@, i as int, w, jj) ==> r is Some
            && r->Some_0.0.dv() == w && r->Some_0.1 == jj,
    decreases s@.len() - i, 1int,
{
    let len = s.len();
    proof {
        assert forall|w: Valuev, jj: int| valid_at(s@, i as int, w, jj) implies i < jj
            && encode_spec(w)[0] == s@[i as int] by {
            lemma_encode_first(w);
            assert(s@[i as int] == s@.subrange(i as int, jj)[0]);
        }
    }
    if i >= len {
        return None;
    }
    let b = s[i];
    proof {
        assert forall|w: Valuev, jj: int| valid_at(s@, i as int, w, jj) implies encode_spec(w)[0]
            == b by {}
    }
    if b == 110 {
        // null
        if len - i >= 4 && s[i + 1] == 117 && s[i + 2] == 108 && s[i + 3] == 108 {
            proof {
                assert(s@.subrange(i as int, i + 4) =~= encode_spec(Valuev::Null));
                assert forall|w: Valuev, jj: int| valid_at(s@, i as int, w, jj) implies w
                    == Valuev::Null && jj == i + 4 by {
                    lemma_encode_first(w);
                    assert(w is Null);
                }
            }
            Some((Value::Null, i + 4))
        } else {
            proof {
                assert forall|w: Valuev, jj: int| valid_at(s@, i as int, w, jj) implies false by {
                    lemma_encode_first(w);
                    assert(w is Null);
                    assert(jj == i + 4);
                    assert(s@[i + 1] == s@.subrange(i as int, jj)[1]);
                    assert(s@[i + 2] == s@.subrange(i as int, jj)[2]);
                    assert(s@[i + 3] == s@.subrange(i as int, jj)[3]);
                }
            }
            None
        }
    } else if b == 116 {
        // true
        if len - i >= 4 && s[i + 1] == 114 && s[i + 2] == 117 && s[i + 3] == 101 {
            proof {
                assert(s@.subrange(i as int, i + 4) =~= encode_spec(Valuev::Bool(true)));
                assert forall|w: Valuev, jj: int| valid_at(s@, i as int, w, jj) implies w
                    == Valuev::Bool(true) && jj == i + 4 by {
                    lemma_encode_first(w);
                    assert(w is Bool && w->Bool_0 == true);
                }
            }
            Some((Value::Bool(true), i + 4))
        } else {
            proof {
                assert forall|w: Valuev, jj: int| valid_at(s@, i as int, w, jj) implies false by {
                    lemma_encode_first(w);
                    assert(w is Bool && w->Bool_0 == true);
                    assert(jj == i + 4);
                    assert(s@[i + 1] == s@.subrange(i as int, jj)[1]);
                    assert(s@[i + 2] == s@.subrange(i as int, jj)[2]);
                    assert(s@[i + 3] == s@.subrange(i as int, jj)[3]);
                }
            }
            None
        }
    } else if b == 102 {
        // false
        if len - i >= 5 && s[i + 1] == 97 && s[i + 2] == 108 && s[i + 3] == 115 && s[i + 4]
            == 101 {
            proof {
                assert(s@.subrange(i as int, i + 5) =~= encode_spec(Valuev::Bool(false)));
                assert forall|w: Valuev, jj: int| valid_at(s@, i as int, w, jj) implies w
                    == Valuev::Bool(false) && jj == i + 5 by {
                    lemma_encode_first(w);
                    assert(w is Bool && w->Bool_0 == false);
                }
            }
            Some((Value::Bool(false), i + 5))
        } else {
            proof {
                assert forall|w: Valuev, jj: int| valid_at(s@, i as int, w, jj) implies false by {
                    lemma_encode_first(w);
                    assert(w is Bool && w->Bool_0 == false);
                    assert(jj == i + 5);
                    assert(s@[i + 1] == s@.subrange(i as int, jj)[1]);
                    assert(s@[i + 2] == s@.subrange(i as int, jj)[2]);
                    assert(s@[i + 3] == s@.subrange(i as int, jj)[3]);
                    assert(s@[i + 4] == s@.subrange(i as int, jj)[4]);
                }
            }
            None
        }
    } else if b == 45 || (48 <= b && b <= 57) {
        proof {
            assert forall|w: Valuev, jj: int| valid_at(s@, i as int, w, jj) implies w is Int
                && int_at(s@, i as int, w->Int_0, jj) by {
                lemma_encode_first(w);
            }
        }
        match parse_int(s, i) {
            None => None,
            Some((n, j)) => {
                proof {
                    assert(encode_spec(Valuev::Int(n as int)) == int_bytes(n as int));
                }
                Some((Value::Int(n), j))
            },
        }
    } else if b == 34 {
        proof {
            assert forall|w: Valuev, jj: int| valid_at(s@, i as int, w, jj) implies w is Text
                && str_at(s@, i as int, w->Text_0, jj) by {
                lemma_encode_first(w);
            }
        }
        match parse_string(s, i) {
            None => None,
            Some((t, j)) => {
                proof {
                    assert(encode_spec(Valuev::Text(t@)) == text_bytes(t@));
                }
                Some((Value::Text(t), j))
            },
        }
    } else if b == 91 {
        proof {
            assert forall|w: Valuev, jj: int| valid_at(s@, i as int, w, jj) implies w is Array
                && arr_at(s@, i as int, w->Array_0, jj) by {
                lemma_encode_first(w);
            }
        }
        parse_array(s, i)
    } else if b == 123 {
        proof {
            assert forall|w: Valuev, jj: int| valid_at(s@, i as int, w, jj) implies w is Object
                && obj_at(s@, i as int, w->Object_0, jj) by {
                lemma_encode_first(w);
            }
        }
        parse_object(s, i)
    } else {
        proof {
            assert forall|w: Valuev, jj: int| valid_at(s@, i as int, w, jj) implies false by {
                lemma_encode_first(w);
            }
        }
        None
    }
}

/// Decodes a structured payload: returns the one value whose canonical
/// encoding is `s`, and nothing on any other byte string.
pub fn decode_payload(s: &Vec<u8>) -> (r: Option<Value>)
    ensures
        (match r {
            Some(v) => {
                &&& payload_wf(v.dv())
                &&& encode_spec(v.dv()) == s@
                &&& payload_decodes(s@)
                &&& v.dv() == decoded_payload(s@)
                &&& forall|w: Valuev| payload_wf(w) && encode_spec(w) == s@ ==> w == v.dv()
            },
            None => !payload_decodes(s@),
        }),
{
    proof {
        assert forall|w: Valuev| payload_wf(w) && encode_spec(w) == s@ implies valid_at(
            s@,
            0,
            w,
            s@.len() as int,
        ) by {
            assert(s@.subrange(0, s@.len() as int) =~= s@);
        }
    }
    match parse_value(s, 0) {
        None => {
            proof {
                if payload_decodes(s@) {
                    let w = choose|w: Valuev| payload_wf(w) && encode_spec(w) == s@;
                    assert(valid_at(s@, 0, w, s@.len() as int));
                    assert(false);
                }
            }
            None
        },
        Some((v, j)) => {
            if j == s.len() {
                proof {
                    assert(s@.subrange(0, s@.len() as int) =~= s@);
                    assert(payload_wf(v.dv()) && encode_spec(v.dv()) == s@);
                    assert(payload_decodes(s@));
                    let w = choose|w: Valuev| payload_wf(w) && encode_spec(w) == s@;
                    assert(valid_at(s@, 0, w, s@.len() as int));
                    assert(v.dv() == w);
                }
                Some(v)
            } else {
                proof {
                    if payload_decodes(s@) {
                        let w = choose|w: Valuev| payload_wf(w) && encode_spec(w) == s@;
                        assert(valid_at(s@, 0, w, s@.len() as int));
                        assert(false);
                    }
                }
                None
            }
        },
    }
}

/// Encodes a payload value into its one canonical byte form.
pub fn encode_payload(v: &Value) -> (r: Vec<u8>)
    ensures
        r@ == encode_spec(v.dv()),
{
    let mut out: Vec<u8> = Vec::new();
    encode_into(v, &mut out);
    out
}

/// Whether a byte string is the encoding of some payload value.
pub open spec fn payload_decodes(bytes: Seq<u8>) -> bool {
    exists|w: Valuev| payload_wf(w) && encode_spec(w) == bytes
}

/// The payload value a byte string encodes (meaningful when
/// [`payload_decodes`] holds; encodings are unambiguous).
pub open spec fn decoded_payload(bytes: Seq<u8>) -> Valuev {
    choose|w: Valuev| payload_wf(w) && encode_spec(w) == bytes
}

} // verus!
