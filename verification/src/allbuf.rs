//! The row buffer protocol: rows of tagged cells sent to the JavaScript
//! side in one buffer.
//!
//! `[u32 row count][u16 column count]`, then each row's cells in order,
//! each tagged: 0 null, 1 an `i64`, 2 the bits of an `f64`, 3 text and
//! 4 a blob (both `[u32 byte length][bytes]`). Little-endian throughout.
use vstd::prelude::*;

use crate::encode::{
    byte_range, i64_le, le_bytes, le_value, lemma_le_bytes_roundtrip, push_bytes, push_i64, push_le, push_len_u32,
    u16_le, u32_le,
};

verus! {

/// A cell of a fetched row, as SQLite gives it.
pub enum BufCell {
    Null,
    Integer(i64),
    /// A real, by the bits of its `f64`.
    Real(u64),
    Text(Vec<u8>),
    Blob(Vec<u8>),
}

pub enum BufCellView {
    Null,
    Integer(i64),
    Real(u64),
    Text(Seq<u8>),
    Blob(Seq<u8>),
}

impl View for BufCell {
    type V = BufCellView;

    open spec fn view(&self) -> BufCellView {
        match self {
            BufCell::Null => BufCellView::Null,
            BufCell::Integer(i) => BufCellView::Integer(*i),
            BufCell::Real(b) => BufCellView::Real(*b),
            BufCell::Text(t) => BufCellView::Text(t@),
            BufCell::Blob(b) => BufCellView::Blob(b@),
        }
    }
}

/// One tagged cell.
pub open spec fn enc_cell(c: BufCellView) -> Seq<u8> {
    match c {
        BufCellView::Null => seq![0u8],
        BufCellView::Integer(i) => seq![1u8] + i64_le(i),
        BufCellView::Real(b) => seq![2u8] + le_bytes(b as nat, 8),
        BufCellView::Text(t) => seq![3u8] + u32_le(t.len()) + t,
        BufCellView::Blob(b) => seq![4u8] + u32_le(b.len()) + b,
    }
}

/// The cells of a row, in order.
pub open spec fn enc_cells(cells: Seq<BufCellView>) -> Seq<u8>
    decreases cells.len(),
{
    if cells.len() == 0 {
        Seq::empty()
    } else {
        enc_cells(cells.drop_last()) + enc_cell(cells.last())
    }
}

pub open spec fn cells_view(cells: Seq<BufCell>) -> Seq<BufCellView> {
    cells.map_values(|c: BufCell| c@)
}

/// The cells of the rows, row after row.
pub open spec fn enc_rows(rows: Seq<Vec<BufCell>>) -> Seq<u8>
    decreases rows.len(),
{
    if rows.len() == 0 {
        Seq::empty()
    } else {
        enc_rows(rows.drop_last()) + enc_cells(cells_view(rows.last()@))
    }
}

/// The whole buffer: the header, then the rows.
pub open spec fn enc_row_buf(rows: Seq<Vec<BufCell>>, column_count: nat) -> Seq<u8> {
    u32_le(rows.len()) + u16_le(column_count) + enc_rows(rows)
}

fn encode_cell(buf: &mut Vec<u8>, c: &BufCell)
    ensures
        final(buf)@ == old(buf)@ + enc_cell(c@),
{
    match c {
        BufCell::Null => {
            buf.push(0);
        },
        BufCell::Integer(i) => {
            buf.push(1);
            push_i64(buf, *i);
        },
        BufCell::Real(b) => {
            buf.push(2);
            push_le(buf, *b, 8);
        },
        BufCell::Text(t) => {
            buf.push(3);
            push_len_u32(buf, t.len());
            push_bytes(buf, t.as_slice());
        },
        BufCell::Blob(b) => {
            buf.push(4);
            push_len_u32(buf, b.len());
            push_bytes(buf, b.as_slice());
        },
    }
    assert(final(buf)@ =~= old(buf)@ + enc_cell(c@));
}

/// Encodes fetched rows in the row buffer protocol; the column count is
/// written as a `u16` (taken modulo 2^16, as a cast does).
pub fn encode_row_buf(rows: &[Vec<BufCell>], column_count: usize) -> (buf: Vec<u8>)
    requires
        rows@.len() <= u32::MAX,
    ensures
        buf@ == enc_row_buf(rows@, column_count as nat),
{
    let mut buf: Vec<u8> = Vec::new();
    push_len_u32(&mut buf, rows.len());
    push_le(&mut buf, (column_count % 0x1_0000) as u64, 2);
    let ghost head = buf@;
    assert(head =~= u32_le(rows@.len()) + u16_le(column_count as nat));
    let mut i: usize = 0;
    while i < rows.len()
        invariant
            i <= rows@.len(),
            buf@ == head + enc_rows(rows@.take(i as int)),
        decreases rows@.len() - i,
    {
        let row = &rows[i];
        let ghost before = buf@;
        let mut j: usize = 0;
        while j < row.len()
            invariant
                j <= row@.len(),
                buf@ == before + enc_cells(cells_view(row@.take(j as int))),
            decreases row@.len() - j,
        {
            encode_cell(&mut buf, &row[j]);
            assert(cells_view(row@.take(j + 1)).drop_last() =~= cells_view(row@.take(j as int)));
            assert(buf@ =~= before + enc_cells(cells_view(row@.take(j + 1))));
            j = j + 1;
        }
        assert(row@.take(row@.len() as int) =~= row@);
        assert(rows@.take(i + 1).drop_last() =~= rows@.take(i as int));
        assert(buf@ =~= head + enc_rows(rows@.take(i + 1)));
        i = i + 1;
    }
    assert(rows@.take(rows@.len() as int) =~= rows@);
    buf
}

/// A row buffer read back: its first four bytes give the number of rows and
/// the next two the column count.
pub proof fn lemma_row_buf_header(rows: Seq<Vec<BufCell>>, column_count: nat)
    requires
        rows.len() < 0x1_0000_0000,
        column_count < 0x1_0000,
    ensures
        enc_row_buf(rows, column_count).len() >= 6,
        le_value(enc_row_buf(rows, column_count).take(4)) == rows.len(),
        le_value(enc_row_buf(rows, column_count).subrange(4, 6)) == column_count,
{
    reveal_with_fuel(byte_range, 5);
    lemma_le_bytes_roundtrip(rows.len(), 4);
    lemma_le_bytes_roundtrip(column_count, 2);
    let b = enc_row_buf(rows, column_count);
    assert(b.take(4) =~= u32_le(rows.len()));
    assert(b.subrange(4, 6) =~= u16_le(column_count));
}

} // verus!
