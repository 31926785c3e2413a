use rusqlite::types::ValueRef;
use rusqlite::Connection;
use zqlite_rs::allbuf::{encode_row_buf, BufCell};

/// Reads every row of a query as cells, as the row buffer takes them.
fn read_cells(conn: &Connection, sql: &str, params: &[&dyn rusqlite::types::ToSql]) -> (Vec<Vec<BufCell>>, usize) {
    let mut stmt = conn.prepare(sql).unwrap();
    let col_count = stmt.column_count();
    let mut rows = stmt.query(params).unwrap();
    let mut out = Vec::new();
    while let Some(row) = rows.next().unwrap() {
        let mut cells = Vec::new();
        for i in 0..col_count {
            cells.push(match row.get_ref(i).unwrap() {
                ValueRef::Null => BufCell::Null,
                ValueRef::Integer(n) => BufCell::Integer(n),
                ValueRef::Real(f) => BufCell::Real(f.to_bits()),
                ValueRef::Text(s) => BufCell::Text(s.to_vec()),
                ValueRef::Blob(b) => BufCell::Blob(b.to_vec()),
            });
        }
        out.push(cells);
    }
    (out, col_count)
}

#[test]
fn test_get_rows_buf_empty_result() {
    let conn = Connection::open_in_memory().unwrap();
    conn.execute_batch("CREATE TABLE test (id INTEGER, name TEXT)").unwrap();
    let (rows, col_count) = read_cells(&conn, "SELECT id, name FROM test", &[]);
    let buf = encode_row_buf(&rows, col_count);
    // 0 rows, 2 columns
    assert_eq!(buf, vec![0, 0, 0, 0, 2, 0]);
}

#[test]
fn test_changes_since_buf_empty() {
    let conn = Connection::open_in_memory().unwrap();
    conn.execute_batch(
        r#"CREATE TABLE "_zero.changeLog2" ("stateVersion" TEXT, "table" TEXT, "rowKey" TEXT, "op" TEXT, "pos" INTEGER)"#,
    )
    .unwrap();
    let (rows, _) = read_cells(
        &conn,
        r#"SELECT "stateVersion", "table", "rowKey", "op" FROM "_zero.changeLog2" WHERE "stateVersion" > ? ORDER BY "stateVersion" ASC, "pos" ASC LIMIT ? OFFSET ?"#,
        &[&"00", &500, &0],
    );
    let buf = encode_row_buf(&rows, 4);
    assert_eq!(buf, vec![0, 0, 0, 0, 4, 0]);
}

#[test]
fn test_allbuf_protocol_format() {
    let conn = Connection::open_in_memory().unwrap();
    conn.execute_batch("CREATE TABLE test (id INTEGER, name TEXT, val REAL)").unwrap();
    conn.execute("INSERT INTO test VALUES (42, 'hello', 3.14)", []).unwrap();
    conn.execute("INSERT INTO test VALUES (NULL, NULL, NULL)", []).unwrap();

    let (rows, col_count) = read_cells(&conn, "SELECT id, name, val FROM test", &[]);
    let buf = encode_row_buf(&rows, col_count);

    // Header: 2 rows, 3 columns
    assert_eq!(&buf[0..4], &2u32.to_le_bytes());
    assert_eq!(&buf[4..6], &3u16.to_le_bytes());

    // Row 1: int 42, text "hello", real 3.14
    assert_eq!(buf[6], 1);
    assert_eq!(&buf[7..15], &42i64.to_le_bytes());
    assert_eq!(buf[15], 3);
    assert_eq!(&buf[16..20], &5u32.to_le_bytes());
    assert_eq!(&buf[20..25], b"hello");
    assert_eq!(buf[25], 2);
    assert_eq!(&buf[26..34], &3.14f64.to_le_bytes());

    // Row 2: all nulls
    assert_eq!(buf[34], 0);
    assert_eq!(buf[35], 0);
    assert_eq!(buf[36], 0);
}

// Negative integers and blobs.
#[test]
fn row_buf_negative_and_blob() {
    let rows = vec![vec![BufCell::Integer(-1), BufCell::Blob(vec![9, 8])]];
    let buf = encode_row_buf(&rows, 2);
    assert_eq!(buf, vec![1, 0, 0, 0, 2, 0, 1, 255, 255, 255, 255, 255, 255, 255, 255, 4, 2, 0, 0, 0, 9, 8]);
}
