//! The binary form in which row changes travel to the JavaScript side.
//!
//! Little-endian throughout. A result buffer is `[u32 change count][u8 flags]`
//! (bit 0: error, bit 2: reset signal), the error message and error type as
//! strings when the error bit is set, the changes, then the reset signal as a
//! string when its bit is set. A string is `[u16 byte length][UTF-8 bytes]`.
//! A change is `[u8 type][query id][table][row key value][row]` where the
//! type is 0 add, 1 remove, 2 edit, 3 anything else, and the row is `[0]`
//! when absent, else `[1][u16 column count]` then each column's name and
//! value. A value is tagged: 0 null, 1 i64, 2 f64 bits, 3 text
//! (`[u32 byte length][bytes]`), 5 bool (`[u8]`), 6 JSON text of an array or
//! object (`[u32 byte length][bytes]`).
use vstd::prelude::*;

use crate::advance::{AdvanceResult, AdvanceResultView, RowChange, RowChangeView};
use crate::json::{json_text, to_json_string, JsonMap, JsonValue, JsonView};
use crate::source::RowView;
use vstd::utf8::encode_utf8;

verus! {

/// The `n` low-order bytes of `x`, least significant first.
pub open spec fn le_bytes(x: nat, n: nat) -> Seq<u8>
    decreases n,
{
    if n == 0 {
        Seq::empty()
    } else {
        seq![(x % 256) as u8] + le_bytes(x / 256, (n - 1) as nat)
    }
}

/// A length written as a `u16` (taken modulo 2^16, as a cast does).
pub open spec fn u16_le(x: nat) -> Seq<u8> {
    le_bytes(x % 0x1_0000, 2)
}

/// A count written as a `u32` (taken modulo 2^32, as a cast does).
pub open spec fn u32_le(x: nat) -> Seq<u8> {
    le_bytes(x % 0x1_0000_0000, 4)
}

/// Two's complement bytes of an `i64`.
pub open spec fn i64_le(i: i64) -> Seq<u8> {
    le_bytes(
        (if i >= 0 {
            i as int
        } else {
            i + 0x1_0000_0000_0000_0000
        }) as nat,
        8,
    )
}

pub open spec fn utf8(s: Seq<char>) -> Seq<u8> {
    encode_utf8(s)
}

/// A string: its byte length as a `u16`, then its UTF-8 bytes.
pub open spec fn enc_str(s: Seq<char>) -> Seq<u8> {
    u16_le(utf8(s).len()) + utf8(s)
}

/// A tagged value.
pub open spec fn enc_json(v: JsonView) -> Seq<u8> {
    match v {
        JsonView::Null => seq![0u8],
        JsonView::Bool(b) => seq![
            5u8,
            if b {
                1u8
            } else {
                0u8
            },
        ],
        JsonView::Number(n) => match n.spec_as_i64() {
            Some(i) => seq![1u8] + i64_le(i),
            None => seq![2u8] + le_bytes(n.f64_bits as nat, 8),
        },
        JsonView::Str(s) => seq![3u8] + u32_le(utf8(s).len()) + utf8(s),
        _ => seq![6u8] + u32_le(utf8(json_text(v)).len()) + utf8(json_text(v)),
    }
}

/// The columns of a row, each as its name then its value.
pub open spec fn enc_columns(row: RowView) -> Seq<u8>
    decreases row.len(),
{
    if row.len() == 0 {
        Seq::empty()
    } else {
        enc_str(row[0].0) + enc_json(row[0].1) + enc_columns(row.drop_first())
    }
}

pub open spec fn enc_row(row: Option<RowView>) -> Seq<u8> {
    match row {
        None => seq![0u8],
        Some(r) => seq![1u8] + u16_le(r.len()) + enc_columns(r),
    }
}

pub open spec fn change_type_code(t: Seq<char>) -> u8 {
    if t == "add"@ {
        0
    } else if t == "remove"@ {
        1
    } else if t == "edit"@ {
        2
    } else {
        3
    }
}

pub open spec fn enc_change(c: RowChangeView) -> Seq<u8> {
    seq![change_type_code(c.change_type)] + enc_str(c.query_id) + enc_str(c.table) + enc_json(
        c.row_key,
    ) + enc_row(c.row)
}

pub open spec fn enc_changes(cs: Seq<RowChangeView>) -> Seq<u8>
    decreases cs.len(),
{
    if cs.len() == 0 {
        Seq::empty()
    } else {
        enc_change(cs[0]) + enc_changes(cs.drop_first())
    }
}

pub open spec fn result_flags(r: AdvanceResultView) -> u8 {
    ((if r.error is Some {
        1int
    } else {
        0int
    }) + (if r.reset_signal is Some {
        4int
    } else {
        0int
    })) as u8
}

pub open spec fn opt_or_empty(s: Option<Seq<char>>) -> Seq<char> {
    match s {
        Some(x) => x,
        None => Seq::empty(),
    }
}

/// The whole buffer for an advance or hydrate result.
pub open spec fn enc_result(r: AdvanceResultView) -> Seq<u8> {
    u32_le(r.changes.len()) + seq![result_flags(r)] + (if r.error is Some {
        enc_str(opt_or_empty(r.error)) + enc_str(opt_or_empty(r.error_type))
    } else {
        Seq::empty()
    }) + enc_changes(r.changes) + (match r.reset_signal {
        Some(s) => enc_str(s),
        None => Seq::empty(),
    })
}

/// Appends the `n` low-order bytes of `x`.
pub(crate) fn push_le(buf: &mut Vec<u8>, x: u64, n: u8)
    requires
        n <= 8,
    ensures
        final(buf)@ == old(buf)@ + le_bytes(x as nat, n as nat),
    decreases n,
{
    if n > 0 {
        buf.push((x % 256) as u8);
        push_le(buf, x / 256, n - 1);
        assert(final(buf)@ =~= old(buf)@ + le_bytes(x as nat, n as nat));
    }
}

pub(crate) fn push_bytes(buf: &mut Vec<u8>, bytes: &[u8])
    ensures
        final(buf)@ == old(buf)@ + bytes@,
{
    let mut i: usize = 0;
    while i < bytes.len()
        invariant
            i <= bytes@.len(),
            buf@ == old(buf)@ + bytes@.take(i as int),
        decreases bytes@.len() - i,
    {
        buf.push(bytes[i]);
        assert(bytes@.take(i + 1) =~= bytes@.take(i as int).push(bytes@[i as int]));
        i = i + 1;
    }
    assert(bytes@.take(bytes@.len() as int) =~= bytes@);
}

/// Appends a string: its byte length as a `u16`, then its bytes.
pub fn encode_str(buf: &mut Vec<u8>, s: &str)
    ensures
        final(buf)@ == old(buf)@ + enc_str(s@),
{
    let bytes = s.as_bytes();
    let n = bytes.len();
    push_le(buf, (n % 0x1_0000) as u64, 2);
    push_bytes(buf, bytes);
    assert(final(buf)@ =~= old(buf)@ + enc_str(s@));
}

/// Appends the two's complement bytes of an `i64`.
pub(crate) fn push_i64(buf: &mut Vec<u8>, i: i64)
    ensures
        final(buf)@ == old(buf)@ + i64_le(i),
{
    let u: u64 = if i >= 0 {
        i as u64
    } else {
        ((i - i64::MIN) as u64) + 0x8000_0000_0000_0000u64
    };
    push_le(buf, u, 8);
}

pub(crate) fn push_len_u32(buf: &mut Vec<u8>, n: usize)
    ensures
        final(buf)@ == old(buf)@ + u32_le(n as nat),
{
    push_le(buf, (n as u64) % 0x1_0000_0000, 4);
}

/// Appends a tagged value.
pub fn encode_json_value(buf: &mut Vec<u8>, val: &JsonValue)
    ensures
        final(buf)@ == old(buf)@ + enc_json(val@),
{
    match val {
        JsonValue::Null => {
            buf.push(0);
            assert(final(buf)@ =~= old(buf)@ + enc_json(val@));
        },
        JsonValue::Bool(b) => {
            buf.push(5);
            buf.push(if *b { 1 } else { 0 });
            assert(final(buf)@ =~= old(buf)@ + enc_json(val@));
        },
        JsonValue::Number(n) => {
            match n.as_i64() {
                Some(i) => {
                    buf.push(1);
                    push_i64(buf, i);
                },
                None => {
                    buf.push(2);
                    push_le(buf, n.f64_bits, 8);
                },
            }
            assert(final(buf)@ =~= old(buf)@ + enc_json(val@));
        },
        JsonValue::String(s) => {
            buf.push(3);
            let bytes = s.as_str().as_bytes();
            push_len_u32(buf, bytes.len());
            push_bytes(buf, bytes);
            assert(final(buf)@ =~= old(buf)@ + enc_json(val@));
        },
        _ => {
            let text = to_json_string(val);
            buf.push(6);
            let bytes = text.as_str().as_bytes();
            push_len_u32(buf, bytes.len());
            push_bytes(buf, bytes);
            assert(final(buf)@ =~= old(buf)@ + enc_json(val@));
        },
    }
}

fn encode_row(buf: &mut Vec<u8>, row: &Option<JsonMap>)
    ensures
        final(buf)@ == old(buf)@ + enc_row(
            match *row {
                Some(r) => Some(r@),
                None => None,
            },
        ),
{
    match row {
        None => {
            buf.push(0);
            assert(final(buf)@ =~= old(buf)@ + seq![0u8]);
        },
        Some(r) => {
            proof {
                crate::json::lemma_entries_view(r.entries@);
            }
            let ghost rv = r@;
            buf.push(1);
            let n = r.entries.len();
            push_le(buf, (n % 0x1_0000) as u64, 2);
            let ghost start = buf@;
            let mut i: usize = 0;
            assert(rv.skip(0) =~= rv);
            assert(enc_columns(rv) == enc_columns(rv.skip(0)));
            while i < r.entries.len()
                invariant
                    i <= r.entries@.len(),
                    rv == r@,
                    rv.len() == r.entries@.len(),
                    forall|j: int| 0 <= j < r.entries@.len() ==> #[trigger] rv[j] == (r.entries@[j].0@, r.entries@[j].1@),
                    start + enc_columns(rv) == buf@ + enc_columns(rv.skip(i as int)),
                decreases r.entries@.len() - i,
            {
                assert(rv.skip(i as int).drop_first() =~= rv.skip(i + 1));
                assert(rv.skip(i as int)[0] == rv[i as int]);
                let ghost b0 = buf@;
                encode_str(buf, r.entries[i].0.as_str());
                encode_json_value(buf, &r.entries[i].1);
                assert(b0 + enc_columns(rv.skip(i as int)) =~= buf@ + enc_columns(rv.skip(i + 1)));
                i = i + 1;
            }
            assert(rv.skip(i as int) =~= Seq::<(Seq<char>, JsonView)>::empty());
            assert(final(buf)@ =~= old(buf)@ + enc_row(Some(rv)));
        },
    }
}

fn change_type_byte(t: &str) -> (b: u8)
    ensures
        b == change_type_code(t@),
{
    proof {
        reveal_strlit("add");
        reveal_strlit("remove");
        reveal_strlit("edit");
    }
    if crate::json::str_eq(t, "add") {
        0
    } else if crate::json::str_eq(t, "remove") {
        1
    } else if crate::json::str_eq(t, "edit") {
        2
    } else {
        3
    }
}

/// Appends one change.
pub fn encode_row_change(buf: &mut Vec<u8>, change: &RowChange)
    ensures
        final(buf)@ == old(buf)@ + enc_change(change@),
{
    buf.push(change_type_byte(change.change_type.as_str()));
    encode_str(buf, change.query_id.as_str());
    encode_str(buf, change.table.as_str());
    encode_json_value(buf, &change.row_key);
    encode_row(buf, &change.row);
    assert(final(buf)@ =~= old(buf)@ + enc_change(change@));
}

/// Appends the changes in order.
pub fn encode_row_changes(buf: &mut Vec<u8>, changes: &[RowChange])
    ensures
        final(buf)@ == old(buf)@ + enc_changes(crate::advance::row_changes_view(changes@)),
{
    let ghost cv = crate::advance::row_changes_view(changes@);
    let ghost start = buf@;
    let mut i: usize = 0;
    assert(cv.skip(0) =~= cv);
    while i < changes.len()
        invariant
            i <= changes@.len(),
            cv == crate::advance::row_changes_view(changes@),
            cv.len() == changes@.len(),
            start + enc_changes(cv) == buf@ + enc_changes(cv.skip(i as int)),
        decreases changes@.len() - i,
    {
        assert(cv.skip(i as int).drop_first() =~= cv.skip(i + 1));
        assert(cv.skip(i as int)[0] == cv[i as int]);
        let ghost b0 = buf@;
        encode_row_change(buf, &changes[i]);
        assert(b0 + enc_changes(cv.skip(i as int)) =~= buf@ + enc_changes(cv.skip(i + 1)));
        i = i + 1;
    }
    assert(cv.skip(i as int) =~= Seq::<RowChangeView>::empty());
    assert(final(buf)@ =~= start + enc_changes(cv));
}

/// Encodes an advance or hydrate result.
pub fn encode_advance_result_buf(result: &AdvanceResult) -> (buf: Vec<u8>)
    ensures
        buf@ == enc_result(result@),
{
    let mut buf: Vec<u8> = Vec::new();
    push_len_u32(&mut buf, result.changes.len());
    let has_error = result.error.is_some();
    let has_reset = result.reset_signal.is_some();
    let flags: u8 = (if has_error { 1u8 } else { 0u8 }) + (if has_reset { 4u8 } else { 0u8 });
    buf.push(flags);
    let ghost b1 = buf@;
    if has_error {
        match &result.error {
            Some(e) => encode_str(&mut buf, e.as_str()),
            None => encode_str(&mut buf, ""),
        }
        match &result.error_type {
            Some(e) => encode_str(&mut buf, e.as_str()),
            None => encode_str(&mut buf, ""),
        }
    }
    let ghost b2 = buf@;
    encode_row_changes(&mut buf, result.changes.as_slice());
    let ghost b3 = buf@;
    if let Some(signal) = &result.reset_signal {
        encode_str(&mut buf, signal.as_str());
    }
    proof {
        assert(""@ =~= Seq::<char>::empty()) by {
            reveal_strlit("");
        }
        assert(buf@ =~= enc_result(result@));
    }
    buf
}

// --- Reading the buffer back ---

/// The number that little-endian bytes stand for.
pub open spec fn le_value(b: Seq<u8>) -> nat
    decreases b.len(),
{
    if b.len() == 0 {
        0
    } else {
        b[0] as nat + 256 * le_value(b.drop_first())
    }
}

/// 256 to the power `n`: the numbers `n` bytes can hold.
pub open spec fn byte_range(n: nat) -> nat
    decreases n,
{
    if n == 0 {
        1
    } else {
        256 * byte_range((n - 1) as nat)
    }
}

/// Little-endian bytes read back as the number written, when it fits.
pub proof fn lemma_le_bytes_roundtrip(x: nat, n: nat)
    requires
        x < byte_range(n),
    ensures
        le_bytes(x, n).len() == n,
        le_value(le_bytes(x, n)) == x,
    decreases n,
{
    if n > 0 {
        let m = byte_range((n - 1) as nat);
        assert(x / 256 < m) by (nonlinear_arith)
            requires
                x < 256 * m,
        ;
        lemma_le_bytes_roundtrip(x / 256, (n - 1) as nat);
        let b = le_bytes(x, n);
        assert(b.drop_first() =~= le_bytes(x / 256, (n - 1) as nat));
        assert(x == x % 256 + 256 * (x / 256)) by (nonlinear_arith);
    }
}

/// Reads a string written as its `u16` byte length and its UTF-8 bytes:
/// the string and the bytes that follow it, or nothing when the bytes do not
/// hold one.
pub open spec fn dec_str(b: Seq<u8>) -> Option<(Seq<char>, Seq<u8>)> {
    if b.len() < 2 {
        None
    } else {
        let end: int = 2 + le_value(b.take(2)) as int;
        if b.len() < end || !vstd::utf8::valid_utf8(b.subrange(2, end)) {
            None
        } else {
            Some((vstd::utf8::decode_utf8(b.subrange(2, end)), b.skip(end)))
        }
    }
}

/// A string written reads back as itself, whatever follows it, when its
/// UTF-8 form is shorter than 2^16 bytes.
pub proof fn lemma_str_roundtrip(s: Seq<char>, rest: Seq<u8>)
    requires
        utf8(s).len() < 0x1_0000,
    ensures
        dec_str(enc_str(s) + rest) == Some((s, rest)),
{
    let u = utf8(s);
    let b = enc_str(s) + rest;
    reveal_with_fuel(byte_range, 3);
    lemma_le_bytes_roundtrip(u.len(), 2);
    assert(b.take(2) =~= u16_le(u.len()));
    let end: int = 2 + u.len() as int;
    assert(b.subrange(2, end) =~= u);
    assert(b.skip(end) =~= rest);
    vstd::utf8::encode_utf8_valid_utf8(s);
    vstd::utf8::encode_utf8_decode_utf8(s);
}

/// A result buffer read back: its first four bytes give the number of
/// changes, and its flags byte has bit 0 set exactly when there is an error
/// and bit 2 exactly when there is a reset signal.
pub proof fn lemma_result_header(r: AdvanceResultView)
    requires
        r.changes.len() < 0x1_0000_0000,
    ensures
        enc_result(r).len() >= 5,
        le_value(enc_result(r).take(4)) == r.changes.len(),
        enc_result(r)[4] % 2 == 1 <==> r.error is Some,
        enc_result(r)[4] / 4 % 2 == 1 <==> r.reset_signal is Some,
{
    reveal_with_fuel(byte_range, 5);
    lemma_le_bytes_roundtrip(r.changes.len(), 4);
    let b = enc_result(r);
    assert(b.take(4) =~= u32_le(r.changes.len()));
    assert(b[4] == result_flags(r));
}


/// A result's reset signal is the last thing its buffer holds: reading a
/// string at the end of the buffer (its `u16` length and UTF-8 bytes) gives
/// the signal back, with nothing after it.
pub proof fn lemma_result_reset_signal(r: AdvanceResultView, s: Seq<char>)
    requires
        r.reset_signal == Some(s),
        utf8(s).len() < 0x1_0000,
    ensures
        enc_result(r).len() >= 2 + utf8(s).len(),
        dec_str(enc_result(r).skip(enc_result(r).len() - 2 - utf8(s).len())) == Some((s, Seq::<u8>::empty())),
{
    let b = enc_result(r);
    let tail = enc_str(s);
    reveal_with_fuel(le_bytes, 3);
    assert(u16_le(utf8(s).len()).len() == 2);
    assert(tail.len() == 2 + utf8(s).len());
    let head = b.subrange(0, b.len() - tail.len());
    assert(b.skip(b.len() - tail.len()) =~= tail);
    lemma_str_roundtrip(s, Seq::empty());
    assert(tail + Seq::<u8>::empty() =~= tail);
}

} // verus!
