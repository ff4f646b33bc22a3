//! The table's laws, proved over the ghost model that the executable
//! functions are specified against: page isolation of an insert, capacity
//! of a fresh table, and persistence across a close and reopen.

use vstd::prelude::*;

use vstd::utf8::decode_utf8;

use crate::db::{
    lemma_layout_constants, lemma_row_layout, lemma_row_succ, model_wf, nul_free,
    page_of_row, row_bytes_at, slot_of_row, spec_decode_ok, spec_decoded_id, spec_email_field,
    spec_row_bytes, spec_table_insert, spec_table_open, spec_username_field, Row, TableModel,
    ROWS_PER_PAGE, ROW_SIZE, TABLE_MAX_PAGES, TABLE_MAX_ROWS,
};
use crate::pager::{spec_write_at, zero_page, PAGE_SIZE};

verus! {

/// Page isolation: inserting the next row never alters the bytes of any
/// other row, on the same page or on a different one.
pub proof fn lemma_insert_isolation(m: TableModel, r: Row, j: int)
    requires
        model_wf(m),
        r.wf(),
        m.num_rows < TABLE_MAX_ROWS,
        0 <= j < TABLE_MAX_ROWS,
        j != m.num_rows,
    ensures
        page_of_row(j) != page_of_row(m.num_rows) ==> spec_table_insert(m, r).pages[page_of_row(
            j,
        )] == m.pages[page_of_row(j)],
        page_of_row(j) == page_of_row(m.num_rows) && m.pages[page_of_row(j)] is Some
            ==> row_bytes_at(spec_table_insert(m, r), j) == row_bytes_at(m, j),
{
    let k = m.num_rows;
    let d = ROWS_PER_PAGE as int;
    let pj = page_of_row(j);
    let pk = page_of_row(k);
    lemma_layout_constants();
    lemma_row_layout(j);
    lemma_row_layout(k);
    vstd::arithmetic::div_mod::lemma_fundamental_div_mod(j, d);
    vstd::arithmetic::div_mod::lemma_fundamental_div_mod(k, d);
    if pj == pk && m.pages[pj] is Some {
        let m1 = spec_table_insert(m, r);
        assert(j % d != k % d) by (nonlinear_arith)
            requires
                j == pj * d + j % d,
                k == pk * d + k % d,
                pj == pk,
                j != k,
        ;
        let sj = slot_of_row(j);
        let sk = slot_of_row(k);
        assert(sj + ROW_SIZE <= sk || sk + ROW_SIZE <= sj) by (nonlinear_arith)
            requires
                sj == (j % d) * (ROW_SIZE as int),
                sk == (k % d) * (ROW_SIZE as int),
                j % d != k % d,
                0 <= j % d,
                0 <= k % d,
                ROW_SIZE == 292,
        ;
        assert(m1.pages[pj]->0 == spec_write_at(m.pages[pj]->0, sk, spec_row_bytes(r)));
        assert(spec_row_bytes(r).len() == ROW_SIZE);
        assert(row_bytes_at(m1, j) =~= row_bytes_at(m, j));
    }
}

/// The table reached by inserting the rows in order, starting from `m`.
pub open spec fn spec_inserts(m: TableModel, rows: Seq<Row>) -> TableModel
    decreases rows.len(),
{
    if rows.len() == 0 {
        m
    } else {
        spec_table_insert(spec_inserts(m, rows.drop_last()), rows.last())
    }
}

/// What holds of a table built by inserting `rows` into a freshly created
/// empty table: every insert found room (the row count equals the number of
/// rows inserted), the counted pages are exactly the filled ones and all of
/// them are resident, and every row's slot holds that row's encoding.
pub open spec fn built_table(m: TableModel, rows: Seq<Row>) -> bool {
    &&& model_wf(m)
    &&& m.opened
    &&& m.num_rows == rows.len()
    &&& m.num_pages * (ROWS_PER_PAGE as int) < m.num_rows + ROWS_PER_PAGE
    &&& forall|i: int| 0 <= i < m.num_pages ==> #[trigger] m.pages[i] is Some
    &&& forall|k: int| 0 <= k < rows.len() ==> row_bytes_at(m, k) == spec_row_bytes(#[trigger] rows[k])
}

/// One step of the construction: a successful insert into a built table
/// leaves a built table.
proof fn lemma_insert_step(m: TableModel, rows: Seq<Row>, r: Row)
    requires
        built_table(m, rows),
        rows.len() < TABLE_MAX_ROWS,
        r.wf(),
    ensures
        built_table(spec_table_insert(m, r), rows.push(r)),
{
    let k = m.num_rows;
    let d = ROWS_PER_PAGE as int;
    let p = page_of_row(k);
    let m1 = spec_table_insert(m, r);
    lemma_layout_constants();
    lemma_row_layout(k);
    lemma_row_succ(k);
    vstd::arithmetic::div_mod::lemma_fundamental_div_mod(k, d);
    // the target page is a counted one or exactly the next
    if !(m.pages[p] is Some) {
        assert(p >= m.num_pages);
        assert(p <= m.num_pages) by (nonlinear_arith)
            requires
                d > 0,
                k == p * d + k % d,
                0 <= k % d,
                k < m.num_pages * d + d,
        ;
    } else {
        assert(p < m.num_pages);
    }
    // row counts and page counts of the new table
    if m.pages[p] is Some {
        assert(k + 1 <= m1.num_pages * d) by (nonlinear_arith)
            requires
                d > 0,
                p < m1.num_pages,
                k == p * d + k % d,
                k % d < d,
        ;
    } else {
        assert(k + 1 <= m1.num_pages * d && m1.num_pages * d < k + 1 + d) by (nonlinear_arith)
            requires
                d > 0,
                m1.num_pages == p + 1,
                k == p * d + k % d,
                0 <= k % d < d,
        ;
    }
    // the new slot holds the new row's encoding
    let base = if m.pages[p] is Some {
        m.pages[p]->0
    } else {
        zero_page()
    };
    assert(row_bytes_at(m1, k) =~= spec_row_bytes(r));
    // the old slots are untouched
    assert forall|j: int| 0 <= j < rows.len() implies row_bytes_at(m1, j) == spec_row_bytes(
        #[trigger] rows.push(r)[j],
    ) by {
        lemma_row_layout(j);
        lemma_insert_isolation(m, r, j);
        if page_of_row(j) != p {
            assert(row_bytes_at(m1, j) == row_bytes_at(m, j));
        } else {
            assert(m.pages[page_of_row(j)] is Some) by {
                vstd::arithmetic::div_mod::lemma_fundamental_div_mod(j, d);
                assert(page_of_row(j) < m.num_pages || k % d == 0) by (nonlinear_arith)
                    requires
                        d > 0,
                        j == page_of_row(j) * d + j % d,
                        k == p * d + k % d,
                        page_of_row(j) == p,
                        0 <= j % d < d,
                        j < k,
                        k <= m.num_pages * d,
                ;
                if k % d == 0 {
                    assert(j < p * d + 0);
                    assert(false) by (nonlinear_arith)
                        requires
                            d > 0,
                            j == page_of_row(j) * d + j % d,
                            page_of_row(j) == p,
                            0 <= j % d,
                            j < p * d,
                    ;
                }
            }
        }
        assert(rows.push(r)[j] == rows[j]);
    }
    assert(built_table(m1, rows.push(r)));
}

/// Capacity: starting from a fresh empty table, every insert of a sequence
/// of up to `TABLE_MAX_ROWS` well-formed rows finds room — after any prefix
/// the row count is exactly the prefix's length, below the capacity bound —
/// and the table they build holds every row's encoding in its slot. An
/// insert into the full table then fails with `TableFull` and changes
/// nothing, which is what `Table::insert_row` ensures at that row count.
pub proof fn lemma_capacity(rows: Seq<Row>)
    requires
        rows.len() <= TABLE_MAX_ROWS,
        forall|i: int| 0 <= i < rows.len() ==> (#[trigger] rows[i]).wf(),
    ensures
        forall|k: int|
            0 <= k <= rows.len() ==> #[trigger] spec_inserts(spec_table_open(0), rows.take(k)).num_rows
                == k,
        built_table(spec_inserts(spec_table_open(0), rows), rows),
    decreases rows.len(),
{
    lemma_layout_constants();
    let m0 = spec_table_open(0);
    if rows.len() == 0 {
        assert(spec_inserts(m0, rows.take(0)) == m0);
        assert(built_table(m0, rows));
    } else {
        let prefix = rows.drop_last();
        lemma_capacity(prefix);
        assert(prefix.len() == rows.len() - 1);
        lemma_insert_step(spec_inserts(m0, prefix), prefix, rows.last());
        assert(prefix.push(rows.last()) =~= rows);
        assert forall|k: int|
            0 <= k <= rows.len() implies #[trigger] spec_inserts(m0, rows.take(k)).num_rows
            == k by {
            if k < rows.len() {
                assert(rows.take(k) =~= prefix.take(k));
            } else {
                assert(rows.take(k) =~= rows);
            }
        }
    }
}

/// The backing file produced by closing a table whose first `n` pages are
/// resident: those pages' bytes, written back in ascending index order at
/// their offsets, i.e. laid end to end.
pub open spec fn concat_pages(m: TableModel, n: int) -> Seq<u8>
    decreases n,
{
    if n <= 0 {
        Seq::empty()
    } else {
        concat_pages(m, n - 1) + m.pages[n - 1]->0
    }
}

proof fn lemma_concat_pages_len(m: TableModel, n: int)
    requires
        model_wf(m),
        0 <= n <= m.num_pages,
        forall|i: int| 0 <= i < m.num_pages ==> #[trigger] m.pages[i] is Some,
    ensures
        concat_pages(m, n).len() == n * (PAGE_SIZE as int),
    decreases n,
{
    if n > 0 {
        lemma_concat_pages_len(m, n - 1);
    }
}

proof fn lemma_concat_pages_index(m: TableModel, n: int, q: int, off: int)
    requires
        model_wf(m),
        0 <= n <= m.num_pages,
        forall|i: int| 0 <= i < m.num_pages ==> #[trigger] m.pages[i] is Some,
        0 <= q < n,
        0 <= off < PAGE_SIZE,
    ensures
        concat_pages(m, n)[q * (PAGE_SIZE as int) + off] == m.pages[q]->0[off],
    decreases n,
{
    lemma_concat_pages_len(m, n - 1);
    if q == n - 1 {
    } else {
        lemma_concat_pages_index(m, n - 1, q, off);
    }
}

/// The model after the caller has loaded every counted page back from the
/// file, each from its own offset.
pub open spec fn spec_install_all(m: TableModel, file: Seq<u8>) -> TableModel {
    TableModel {
        pages: Seq::new(
            TABLE_MAX_PAGES as nat,
            |i: int|
                if 0 <= i < m.num_pages {
                    Some(file.subrange(i * (PAGE_SIZE as int), (i + 1) * (PAGE_SIZE as int)))
                } else {
                    m.pages[i]
                },
        ),
        ..m
    }
}

/// The table built by inserting the rows into a fresh table over an empty
/// file.
pub open spec fn built_of(rows: Seq<Row>) -> TableModel {
    spec_inserts(spec_table_open(0), rows)
}

/// The backing file after closing that table: every counted page flushed
/// at its offset, onto the empty file.
pub open spec fn file_of(rows: Seq<Row>) -> Seq<u8> {
    concat_pages(built_of(rows), built_of(rows).num_pages)
}

/// The table reopened over that file, with every counted page loaded back.
pub open spec fn reopened_of(rows: Seq<Row>) -> TableModel {
    spec_install_all(spec_table_open(file_of(rows).len() as int), file_of(rows))
}

/// Persistence: rows inserted into a fresh empty table, flushed to the
/// backing file by a close, are read back in insertion order after a
/// reopen over that file — exactly when the rows fill their last page, as
/// the reopened row count is inferred from whole pages present; and, by
/// the codec round trip, each stored slot decodes to the row inserted.
pub proof fn lemma_persistence(rows: Seq<Row>)
    requires
        rows.len() <= TABLE_MAX_ROWS,
        (rows.len() as int) % (ROWS_PER_PAGE as int) == 0,
        forall|i: int| 0 <= i < rows.len() ==> (#[trigger] rows[i]).wf(),
        forall|i: int|
            0 <= i < rows.len() ==> nul_free((#[trigger] rows[i]).username@) && nul_free(
                rows[i].email@,
            ),
    ensures
        file_of(rows).len() == built_of(rows).num_pages * (PAGE_SIZE as int),
        reopened_of(rows).num_rows == rows.len(),
        forall|k: int|
            0 <= k < rows.len() ==> row_bytes_at(reopened_of(rows), k) == spec_row_bytes(
                #[trigger] rows[k],
            ),
{
    lemma_layout_constants();
    lemma_capacity(rows);
    let d = ROWS_PER_PAGE as int;
    let ps = PAGE_SIZE as int;
    let built = built_of(rows);
    let np = built.num_pages;
    let file = file_of(rows);
    lemma_concat_pages_len(built, np);
    // every row fits in the counted pages, and they fill them exactly
    vstd::arithmetic::div_mod::lemma_fundamental_div_mod(rows.len() as int, d);
    assert(np * d == rows.len()) by (nonlinear_arith)
        requires
            d > 0,
            rows.len() == ((rows.len() as int) / d) * d,
            rows.len() <= np * d,
            np * d < rows.len() + d,
    ;
    // the reopened table counts the same pages, hence the same rows
    vstd::arithmetic::div_mod::lemma_fundamental_div_mod_converse(np * ps, ps, np, 0);
    let reopened = reopened_of(rows);
    assert(reopened.num_rows == np * d);
    // each counted page comes back from the file byte for byte
    assert forall|q: int| 0 <= q < np implies reopened.pages[q] == built.pages[q] by {
        assert(0 <= q * ps && (q + 1) * ps <= np * ps) by (nonlinear_arith)
            requires
                ps > 0,
                0 <= q < np,
        ;
        let page = built.pages[q]->0;
        let loaded = file.subrange(q * ps, (q + 1) * ps);
        assert forall|off: int| 0 <= off < ps implies loaded[off] == page[off] by {
            lemma_concat_pages_index(built, np, q, off);
        }
        assert(loaded =~= page);
    }
    // so every row's slot still holds its encoding
    assert forall|k: int|
        0 <= k < rows.len() implies row_bytes_at(reopened_of(rows), k) == spec_row_bytes(
        #[trigger] rows[k],
    ) by {
        assert(reopened_of(rows) == reopened);
        lemma_row_layout(k);
        let p = page_of_row(k);
        vstd::arithmetic::div_mod::lemma_fundamental_div_mod(k, d);
        assert(p < np) by (nonlinear_arith)
            requires
                d > 0,
                k == p * d + k % d,
                0 <= k % d,
                k < np * d,
        ;
        assert(reopened.pages[p] == built.pages[p]);
    }
}

/// The decoded view of persistence: by the codec round trip, each slot of
/// the reopened table decodes, without error, to the row that was inserted
/// at that row number.
pub proof fn lemma_persistence_decodes(rows: Seq<Row>, k: int)
    requires
        rows.len() <= TABLE_MAX_ROWS,
        (rows.len() as int) % (ROWS_PER_PAGE as int) == 0,
        forall|i: int| 0 <= i < rows.len() ==> (#[trigger] rows[i]).wf(),
        forall|i: int|
            0 <= i < rows.len() ==> nul_free((#[trigger] rows[i]).username@) && nul_free(
                rows[i].email@,
            ),
        0 <= k < rows.len(),
    ensures
        spec_decode_ok(row_bytes_at(reopened_of(rows), k)),
        spec_decoded_id(row_bytes_at(reopened_of(rows), k)) == rows[k].id,
        decode_utf8(spec_username_field(row_bytes_at(reopened_of(rows), k))) == rows[k].username@,
        decode_utf8(spec_email_field(row_bytes_at(reopened_of(rows), k))) == rows[k].email@,
{
    lemma_persistence(rows);
    assert(row_bytes_at(reopened_of(rows), k) == spec_row_bytes(rows[k]));
    crate::db::lemma_row_round_trip(rows[k]);
}

} // verus!

