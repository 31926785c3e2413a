//! Framing of the chunks a streamed advance or hydration sends.
use vstd::prelude::*;

use crate::advance::{row_changes_view, RowChange, RowChangeView};
use crate::text::{decimal, push_decimal};
use crate::encode::{
    byte_range, enc_changes, encode_row_changes, le_value, lemma_le_bytes_roundtrip, push_len_u32, u32_le,
};

verus! {

/// One item of a result stream.
pub enum StreamItem {
    /// An encoded chunk of row changes.
    Chunk(Vec<u8>),
    /// A companion scalar value changed: every pipeline must be reset (the
    /// reason, as in a result's reset signal).
    ResetSignal(String),
    /// A failure while producing the stream: its message and its kind.
    Error(String, String),
}

impl StreamItem {
    /// A short description of the item: a chunk's length, a reset's reason,
    /// an error's message and kind.
    pub fn describe(&self) -> (r: String)
        ensures
            r@ == match *self {
                StreamItem::Chunk(b) => "Chunk(len="@ + decimal(b@.len()) + ")"@,
                StreamItem::ResetSignal(reason) => "ResetSignal("@ + reason@ + ")"@,
                StreamItem::Error(m, k) => "Error(\""@ + m@ + "\", \""@ + k@ + "\")"@,
            },
    {
        match self {
            StreamItem::Chunk(b) => {
                let mut r = String::from_str("Chunk(len=");
                push_decimal(&mut r, b.len() as u64);
                r.append(")");
                r
            },
            StreamItem::ResetSignal(reason) => {
                let mut r = String::from_str("ResetSignal(");
                r.append(reason.as_str());
                r.append(")");
                r
            },
            StreamItem::Error(m, k) => {
                let mut r = String::from_str("Error(\"");
                r.append(m.as_str());
                r.append("\", \"");
                r.append(k.as_str());
                r.append("\")");
                r
            },
        }
    }
}

/// A chunk: `[u32 change count][u8 flags]` with the flags byte reserved as
/// 0, then the changes encoded as in a result buffer.
pub open spec fn enc_chunk(rows: Seq<RowChangeView>) -> Seq<u8> {
    u32_le(rows.len()) + seq![0u8] + enc_changes(rows)
}

/// Encodes one chunk of a streamed result.
pub fn encode_chunk_buf(rows: &[RowChange]) -> (buf: Vec<u8>)
    ensures
        buf@ == enc_chunk(row_changes_view(rows@)),
{
    let mut buf: Vec<u8> = Vec::new();
    push_len_u32(&mut buf, rows.len());
    buf.push(0);
    encode_row_changes(&mut buf, rows);
    buf
}

/// A chunk read back: its first four bytes give the number of changes and
/// its flags byte is 0.
pub proof fn lemma_chunk_header(rows: Seq<RowChangeView>)
    requires
        rows.len() < 0x1_0000_0000,
    ensures
        enc_chunk(rows).len() >= 5,
        le_value(enc_chunk(rows).take(4)) == rows.len(),
        enc_chunk(rows)[4] == 0,
{
    reveal_with_fuel(byte_range, 5);
    lemma_le_bytes_roundtrip(rows.len(), 4);
    assert(enc_chunk(rows).take(4) =~= u32_le(rows.len()));
}

} // verus!
