//! The fixed-schema row and its byte codec.
//!
//! A row is `id: u32`, `username` (at most 32 bytes of UTF-8) and `email`
//! (at most 256 bytes). Its encoded form is always exactly `ROW_SIZE` bytes:
//! the id as a big-endian 32-bit integer at offset 0, then each text field
//! in a fixed slot, zero-padded. A NUL byte marks end-of-string on decode,
//! so fields holding a NUL character do not survive a round trip.

use vstd::prelude::*;
use vstd::utf8::*;

use crate::pager::{spec_write_at, zero_page, Pager, PAGE_SIZE};

verus! {

pub const ID_SIZE: usize = 4;

pub const USERNAME_SIZE: usize = 32;

pub const EMAIL_SIZE: usize = 256;

pub const ID_OFFSET: usize = 0;

pub const USERNAME_OFFSET: usize = ID_OFFSET + ID_SIZE;

pub const EMAIL_OFFSET: usize = USERNAME_OFFSET + USERNAME_SIZE;

pub const ROW_SIZE: usize = ID_SIZE + USERNAME_SIZE + EMAIL_SIZE;

pub const ROWS_PER_PAGE: usize = crate::pager::PAGE_SIZE / ROW_SIZE;

pub const TABLE_MAX_PAGES: usize = 100;

pub const TABLE_MAX_ROWS: usize = ROWS_PER_PAGE * TABLE_MAX_PAGES;

/// Everything that can go wrong in the storage core.
#[derive(Clone, Copy, Debug, PartialEq, Eq, Structural)]
pub enum StorageError {
    /// The table already holds `TABLE_MAX_ROWS` rows.
    TableFull,
    /// A text field exceeds its fixed slot.
    FieldTooLong,
    /// Stored bytes are not valid UTF-8: on-disk corruption.
    InvalidEncoding,
    /// The backing file's size does not fit the page layout.
    CorruptFile,
}

/// One record of the table's fixed schema.
pub struct Row {
    pub id: u32,
    pub username: String,
    pub email: String,
}

/// The UTF-8 bytes of a row's username.
pub open spec fn username_bytes(r: Row) -> Seq<u8> {
    encode_utf8(r.username@)
}

/// The UTF-8 bytes of a row's email.
pub open spec fn email_bytes(r: Row) -> Seq<u8> {
    encode_utf8(r.email@)
}

impl Row {
    /// Both text fields fit their fixed slots.
    pub open spec fn wf(self) -> bool {
        username_bytes(self).len() <= USERNAME_SIZE && email_bytes(self).len() <= EMAIL_SIZE
    }
}

/// The four big-endian bytes of a 32-bit integer.
pub open spec fn spec_u32_be(x: u32) -> Seq<u8> {
    seq![
        ((x >> 24) & 0xff) as u8,
        ((x >> 16) & 0xff) as u8,
        ((x >> 8) & 0xff) as u8,
        (x & 0xff) as u8,
    ]
}

/// The 32-bit integer read from four big-endian bytes.
pub open spec fn spec_u32_from_be(b: Seq<u8>) -> u32
    recommends
        b.len() == 4,
{
    (((b[0] as u32) << 24) | ((b[1] as u32) << 16) | ((b[2] as u32) << 8) | (b[3] as u32)) as u32
}

/// Reading back the four big-endian bytes of an integer gives the integer.
pub proof fn lemma_u32_be_round_trip(x: u32)
    ensures
        spec_u32_from_be(spec_u32_be(x)) == x,
{
    let b0 = ((x >> 24) & 0xff) as u8;
    let b1 = ((x >> 16) & 0xff) as u8;
    let b2 = ((x >> 8) & 0xff) as u8;
    let b3 = (x & 0xff) as u8;
    assert((((b0 as u32) << 24) | ((b1 as u32) << 16) | ((b2 as u32) << 8) | (b3 as u32)) as u32
        == x) by (bit_vector)
        requires
            b0 == ((x >> 24) & 0xff) as u8,
            b1 == ((x >> 16) & 0xff) as u8,
            b2 == ((x >> 8) & 0xff) as u8,
            b3 == (x & 0xff) as u8,
    ;
}

/// A field extended with zero bytes to the width of its slot.
pub open spec fn zero_pad(field: Seq<u8>, width: int) -> Seq<u8>
    recommends
        field.len() <= width,
{
    field + Seq::new((width - field.len()) as nat, |i: int| 0u8)
}

/// The encoded form of a row: id, username slot, email slot.
pub open spec fn spec_row_bytes(r: Row) -> Seq<u8> {
    spec_u32_be(r.id) + zero_pad(username_bytes(r), USERNAME_SIZE as int) + zero_pad(
        email_bytes(r),
        EMAIL_SIZE as int,
    )
}

impl Row {
    /// Encodes the row into exactly `ROW_SIZE` bytes.
    pub fn serialize(&self) -> (buf: Vec<u8>)
        requires
            self.wf(),
        ensures
            buf@ == spec_row_bytes(*self),
            buf@.len() == ROW_SIZE,
    {
        let mut buf: Vec<u8> = Vec::new();
        buf.push(((self.id >> 24) & 0xff) as u8);
        buf.push(((self.id >> 16) & 0xff) as u8);
        buf.push(((self.id >> 8) & 0xff) as u8);
        buf.push((self.id & 0xff) as u8);
        assert(buf@ =~= spec_u32_be(self.id));
        write_string(&mut buf, self.username.as_str(), USERNAME_SIZE);
        write_string(&mut buf, self.email.as_str(), EMAIL_SIZE);
        proof {
            assert(buf@ =~= spec_row_bytes(*self));
            assert(spec_row_bytes(*self).len() == ROW_SIZE);
        }
        buf
    }
}

/// Appends a text field to the buffer and zero-pads it to its slot width.
fn write_string(buf: &mut Vec<u8>, s: &str, width: usize)
    requires
        encode_utf8(s@).len() <= width,
        old(buf)@.len() + width <= usize::MAX,
    ensures
        final(buf)@ == old(buf)@ + zero_pad(encode_utf8(s@), width as int),
{
    let bytes: &[u8] = s.as_bytes();
    let n: usize = bytes.len();
    let mut i: usize = 0;
    while i < n
        invariant
            i <= n,
            n == encode_utf8(s@).len(),
            bytes@ == encode_utf8(s@),
            buf@ == old(buf)@ + encode_utf8(s@).take(i as int),
        decreases n - i,
    {
        let b: u8 = bytes[i];
        buf.push(b);
        i = i + 1;
        assert(buf@ =~= old(buf)@ + encode_utf8(s@).take(i as int));
    }
    assert(encode_utf8(s@).take(n as int) =~= encode_utf8(s@));
    while i < width
        invariant
            n <= i <= width,
            n == encode_utf8(s@).len(),
            buf@ == old(buf)@ + encode_utf8(s@) + Seq::new((i - n) as nat, |j: int| 0u8),
        decreases width - i,
    {
        buf.push(0);
        i = i + 1;
        assert(buf@ =~= old(buf)@ + encode_utf8(s@) + Seq::new((i - n) as nat, |j: int| 0u8));
    }
    assert(buf@ =~= old(buf)@ + zero_pad(encode_utf8(s@), width as int));
}

/// No byte of the sequence is NUL.
pub open spec fn nul_free_bytes(s: Seq<u8>) -> bool {
    forall|i: int| 0 <= i < s.len() ==> s[i] != 0
}

/// No character of the sequence is NUL.
pub open spec fn nul_free(s: Seq<char>) -> bool {
    forall|i: int| 0 <= i < s.len() ==> s[i] != '\0'
}

/// Length of the prefix of a slot that precedes its first NUL byte.
pub open spec fn unpad_len(s: Seq<u8>) -> int
    decreases s.len(),
{
    if s.len() == 0 {
        0
    } else if s[0] == 0 {
        0
    } else {
        1 + unpad_len(s.drop_first())
    }
}

/// The field stored in a slot: its bytes up to the first NUL, or all of them.
pub open spec fn unpad(s: Seq<u8>) -> Seq<u8> {
    s.take(unpad_len(s))
}

/// The prefix before the first NUL is within the slot, has no NUL in it,
/// and stops at a NUL whenever it stops early.
pub proof fn lemma_unpad_len_bounds(s: Seq<u8>)
    ensures
        0 <= unpad_len(s) <= s.len(),
        forall|k: int| 0 <= k < unpad_len(s) ==> s[k] != 0,
        unpad_len(s) < s.len() ==> s[unpad_len(s)] == 0,
    decreases s.len(),
{
    if s.len() == 0 {
    } else if s[0] == 0 {
    } else {
        lemma_unpad_len_bounds(s.drop_first());
        assert forall|k: int| 0 <= k < unpad_len(s) implies s[k] != 0 by {
            if k >= 1 {
                assert(s.drop_first()[k - 1] == s[k]);
            }
        }
        if unpad_len(s) < s.len() {
            assert(s.drop_first()[unpad_len(s) - 1] == s[unpad_len(s)]);
        }
    }
}

/// An index with no NUL before it and a NUL (or the slot's end) at it is
/// exactly where the stored field stops.
pub proof fn lemma_unpad_len_at(s: Seq<u8>, j: int)
    requires
        0 <= j <= s.len(),
        forall|k: int| 0 <= k < j ==> s[k] != 0,
        j < s.len() ==> s[j] == 0,
    ensures
        unpad_len(s) == j,
    decreases s.len(),
{
    if s.len() == 0 {
    } else if s[0] == 0 {
        assert(j == 0);
    } else {
        assert(j >= 1);
        lemma_unpad_len_at(s.drop_first(), j - 1);
    }
}

/// Unpadding a zero-padded NUL-free field gives the field back.
pub proof fn lemma_zero_pad_unpad(f: Seq<u8>, width: int)
    requires
        f.len() <= width,
        nul_free_bytes(f),
    ensures
        unpad(zero_pad(f, width)) == f,
{
    let p = zero_pad(f, width);
    lemma_unpad_len_at(p, f.len() as int);
    assert(p.take(f.len() as int) =~= f);
}

/// Encoding NUL-free characters yields NUL-free bytes: every multi-byte
/// UTF-8 unit is at least `0x80`, and a one-byte unit is the scalar itself.
pub proof fn lemma_encode_utf8_nul_free(s: Seq<char>)
    requires
        nul_free(s),
    ensures
        nul_free_bytes(encode_utf8(s)),
    decreases s.len(),
{
    if s.len() > 0 {
        let c = s[0];
        let v = c as u32;
        char_is_scalar(c);
        if v == 0 {
            char_u32_cast(c, 0);
            char_u32_cast('\0', 0);
            assert(false);
        }
        assert(nul_free_bytes(encode_scalar(v))) by {
            if has_width_1_encoding(v) {
                assert((v & 0x7f) as u8 != 0) by (bit_vector)
                    requires v != 0 && v <= 0x7f,
                ;
            } else if has_width_2_encoding(v) {
                assert((0xc0 | ((v >> 6) & 0x1f) as u8) != 0 && (0x80 | (v & 0x3f) as u8) != 0)
                    by (bit_vector);
            } else if has_width_3_encoding(v) {
                assert((0xe0 | ((v >> 12) & 0x0f) as u8) != 0 && (0x80 | ((v >> 6) & 0x3f) as u8)
                    != 0 && (0x80 | (v & 0x3f) as u8) != 0) by (bit_vector);
            } else {
                assert((0xf0 | ((v >> 18) & 0x7) as u8) != 0 && (0x80 | ((v >> 12) & 0x3f) as u8)
                    != 0 && (0x80 | ((v >> 6) & 0x3f) as u8) != 0 && (0x80 | (v & 0x3f) as u8) != 0)
                    by (bit_vector);
            }
        }
        lemma_encode_utf8_nul_free(s.drop_first());
        assert forall|i: int| 0 <= i < encode_utf8(s).len() implies encode_utf8(s)[i] != 0 by {
            let head = encode_scalar(v);
            if i >= head.len() {
                assert(encode_utf8(s)[i] == encode_utf8(s.drop_first())[i - head.len()]);
            }
        }
    }
}

/// Relies on `String::from_utf8`: it succeeds exactly on input that is
/// valid UTF-8, and the string it returns holds those very bytes.
#[verifier::external_body]
fn string_from_utf8(v: Vec<u8>) -> (r: Option<String>)
    ensures
        r is Some <==> valid_utf8(v@),
        r matches Some(s) ==> s@ == decode_utf8(v@) && encode_utf8(s@) == v@,
{
    String::from_utf8(v).ok()
}

/// Reads the field stored in the slot `[pos, pos + max_len)` of the buffer:
/// the bytes up to the first NUL, interpreted as UTF-8 text.
fn read_string(buf: &Vec<u8>, pos: usize, max_len: usize) -> (r: Result<String, StorageError>)
    requires
        pos + max_len <= buf@.len(),
    ensures
        ({
            let field = unpad(buf@.subrange(pos as int, pos + max_len));
            &&& r is Ok <==> valid_utf8(field)
            &&& r matches Ok(s) ==> s@ == decode_utf8(field) && encode_utf8(s@) == field
            &&& r matches Err(e) ==> e == StorageError::InvalidEncoding
        }),
{
    let ghost slot = buf@.subrange(pos as int, pos + max_len);
    // the slot lies within the buffer, so this sum fits
    let blen: usize = buf.len();
    let stop: usize = pos + max_len;
    assert(stop <= blen);
    let mut end: usize = pos;
    while end < stop && buf[end] != 0
        invariant
            pos <= end <= stop,
            stop == pos + max_len,
            stop <= buf@.len(),
            forall|k: int| pos <= k < end ==> buf@[k] != 0,
        decreases stop - end,
    {
        end = end + 1;
    }
    proof {
        lemma_unpad_len_at(slot, end - pos);
    }
    let mut bytes: Vec<u8> = Vec::new();
    let mut i: usize = pos;
    while i < end
        invariant
            pos <= i <= end <= buf@.len(),
            bytes@ == buf@.subrange(pos as int, i as int),
        decreases end - i,
    {
        let b: u8 = buf[i];
        bytes.push(b);
        i = i + 1;
        assert(bytes@ =~= buf@.subrange(pos as int, i as int));
    }
    proof {
        assert(bytes@ =~= unpad(slot));
    }
    match string_from_utf8(bytes) {
        Some(s) => Ok(s),
        None => Err(StorageError::InvalidEncoding),
    }
}

/// The id stored in an encoded row.
pub open spec fn spec_decoded_id(b: Seq<u8>) -> u32 {
    spec_u32_from_be(b.subrange(ID_OFFSET as int, ID_OFFSET + ID_SIZE))
}

/// The username bytes stored in an encoded row.
pub open spec fn spec_username_field(b: Seq<u8>) -> Seq<u8> {
    unpad(b.subrange(USERNAME_OFFSET as int, USERNAME_OFFSET + USERNAME_SIZE))
}

/// The email bytes stored in an encoded row.
pub open spec fn spec_email_field(b: Seq<u8>) -> Seq<u8> {
    unpad(b.subrange(EMAIL_OFFSET as int, EMAIL_OFFSET + EMAIL_SIZE))
}

/// An encoded row decodes without error: both stored fields are valid UTF-8.
pub open spec fn spec_decode_ok(b: Seq<u8>) -> bool {
    valid_utf8(spec_username_field(b)) && valid_utf8(spec_email_field(b))
}

impl Row {
    /// Decodes one `ROW_SIZE`-byte block back into a row. Fails with
    /// `InvalidEncoding` exactly when a stored field is not valid UTF-8,
    /// which signals on-disk corruption.
    pub fn deserialize(buf: &Vec<u8>) -> (r: Result<Row, StorageError>)
        requires
            buf@.len() == ROW_SIZE,
        ensures
            r is Ok <==> spec_decode_ok(buf@),
            r matches Err(e) ==> e == StorageError::InvalidEncoding,
            r matches Ok(row) ==> ({
                &&& row.id == spec_decoded_id(buf@)
                &&& row.username@ == decode_utf8(spec_username_field(buf@))
                &&& username_bytes(row) == spec_username_field(buf@)
                &&& row.email@ == decode_utf8(spec_email_field(buf@))
                &&& email_bytes(row) == spec_email_field(buf@)
                &&& row.wf()
            }),
    {
        let id: u32 = ((buf[0] as u32) << 24) | ((buf[1] as u32) << 16) | ((buf[2] as u32) << 8)
            | (buf[3] as u32);
        proof {
            let idb = buf@.subrange(ID_OFFSET as int, ID_OFFSET + ID_SIZE);
            assert(idb[0] == buf@[0] && idb[1] == buf@[1] && idb[2] == buf@[2] && idb[3]
                == buf@[3]);
        }
        let username = match read_string(buf, USERNAME_OFFSET, USERNAME_SIZE) {
            Ok(s) => s,
            Err(e) => {
                return Err(e);
            },
        };
        let email = match read_string(buf, EMAIL_OFFSET, EMAIL_SIZE) {
            Ok(s) => s,
            Err(e) => {
                return Err(e);
            },
        };
        proof {
            lemma_unpad_len_bounds(buf@.subrange(USERNAME_OFFSET as int,
                USERNAME_OFFSET + USERNAME_SIZE));
            lemma_unpad_len_bounds(buf@.subrange(EMAIL_OFFSET as int, EMAIL_OFFSET + EMAIL_SIZE));
        }
        Ok(Row { id, username, email })
    }
}

/// Round trip: a row whose fields fit their slots and hold no NUL character
/// decodes, from its own encoding, back to exactly itself.
pub proof fn lemma_row_round_trip(r: Row)
    requires
        r.wf(),
        nul_free(r.username@),
        nul_free(r.email@),
    ensures
        spec_decode_ok(spec_row_bytes(r)),
        spec_decoded_id(spec_row_bytes(r)) == r.id,
        decode_utf8(spec_username_field(spec_row_bytes(r))) == r.username@,
        decode_utf8(spec_email_field(spec_row_bytes(r))) == r.email@,
{
    let b = spec_row_bytes(r);
    let ub = username_bytes(r);
    let eb = email_bytes(r);
    assert(b.subrange(ID_OFFSET as int, ID_OFFSET + ID_SIZE) =~= spec_u32_be(r.id));
    lemma_u32_be_round_trip(r.id);
    assert(b.subrange(USERNAME_OFFSET as int, USERNAME_OFFSET + USERNAME_SIZE) =~= zero_pad(
        ub,
        USERNAME_SIZE as int,
    ));
    assert(b.subrange(EMAIL_OFFSET as int, EMAIL_OFFSET + EMAIL_SIZE) =~= zero_pad(
        eb,
        EMAIL_SIZE as int,
    ));
    lemma_encode_utf8_nul_free(r.username@);
    lemma_encode_utf8_nul_free(r.email@);
    lemma_zero_pad_unpad(ub, USERNAME_SIZE as int);
    lemma_zero_pad_unpad(eb, EMAIL_SIZE as int);
    broadcast use encode_utf8_valid_utf8, encode_utf8_decode_utf8;

    assert(valid_utf8(ub));
    assert(decode_utf8(ub) == r.username@);
}

/// Ghost model of a table: the page slots, the page count, the row count
/// and whether the table is still open.
#[verifier::ext_equal]
pub struct TableModel {
    pub pages: Seq<Option<Seq<u8>>>,
    pub num_pages: int,
    pub num_rows: int,
    pub opened: bool,
}

/// The page a row number lives on.
pub open spec fn page_of_row(n: int) -> int {
    n / (ROWS_PER_PAGE as int)
}

/// The byte offset of a row's slot inside its page.
pub open spec fn slot_of_row(n: int) -> int {
    (n % (ROWS_PER_PAGE as int)) * (ROW_SIZE as int)
}

/// The encoded bytes a row number holds, read from its page slot.
pub open spec fn row_bytes_at(m: TableModel, n: int) -> Seq<u8>
    recommends
        m.pages[page_of_row(n)] is Some,
{
    m.pages[page_of_row(n)]->0.subrange(slot_of_row(n), slot_of_row(n) + ROW_SIZE)
}

/// The model invariant: a full-width page table, page sizes exact, row
/// count within capacity and covered by the counted pages, and residency
/// confined below the page count.
pub open spec fn model_wf(m: TableModel) -> bool {
    &&& m.pages.len() == TABLE_MAX_PAGES
    &&& 0 <= m.num_pages <= TABLE_MAX_PAGES
    &&& 0 <= m.num_rows <= TABLE_MAX_ROWS
    &&& m.num_rows <= m.num_pages * ROWS_PER_PAGE
    &&& forall|i: int|
        0 <= i < TABLE_MAX_PAGES && #[trigger] m.pages[i] is Some ==> m.pages[i]->0.len()
            == PAGE_SIZE
    &&& forall|i: int| m.num_pages <= i < TABLE_MAX_PAGES ==> m.pages[i] is None
}

/// The model of a table freshly opened over a file of `len` bytes: no page
/// resident, the page count read off the file length, and — a design quirk,
/// kept on purpose — the row count inferred from whole pages present, which
/// is only right when the last page was completely full at the last close.
/// A sturdier design would persist the row count in a file header.
pub open spec fn spec_table_open(len: int) -> TableModel {
    TableModel {
        pages: Seq::new(TABLE_MAX_PAGES as nat, |i: int| None),
        num_pages: len / (PAGE_SIZE as int),
        num_rows: (len / (PAGE_SIZE as int)) * ROWS_PER_PAGE,
        opened: true,
    }
}

/// The model of a table after one successful insert: the row's encoding is
/// written into its slot, the target page materializes zero-filled when it
/// was not resident, and the row count grows by one.
pub open spec fn spec_table_insert(m: TableModel, r: Row) -> TableModel {
    let p = page_of_row(m.num_rows);
    let base = if m.pages[p] is Some {
        m.pages[p]->0
    } else {
        zero_page()
    };
    TableModel {
        pages: m.pages.update(p, Some(spec_write_at(base, slot_of_row(m.num_rows), spec_row_bytes(r)))),
        num_pages: if m.pages[p] is Some {
            m.num_pages
        } else {
            m.num_pages + 1
        },
        num_rows: m.num_rows + 1,
        opened: m.opened,
    }
}

/// One table: a pager below, a monotonic row counter, and the open/closed
/// lifecycle state.
pub struct Table {
    pager: Pager,
    pub num_rows: usize,
    opened: bool,
}

impl View for Table {
    type V = TableModel;

    closed spec fn view(&self) -> TableModel {
        TableModel {
            pages: Seq::new(
                self.pager.pages@.len(),
                |i: int|
                    if self.pager.pages@[i] is Some {
                        Some(self.pager.pages@[i]->0@)
                    } else {
                        None
                    },
            ),
            num_pages: self.pager.num_pages as int,
            num_rows: self.num_rows as int,
            opened: self.opened,
        }
    }
}

impl Table {
    /// The pager is well formed, the row counter agrees with the pages the
    /// pager counts, and a partly filled last page is always resident (only
    /// inserts of this session leave a page partly filled, and they
    /// materialize it).
    pub closed spec fn wf(self) -> bool {
        &&& self.pager.wf()
        &&& self.num_rows <= TABLE_MAX_ROWS
        &&& self.num_rows <= self.pager.num_pages * ROWS_PER_PAGE
        &&& self.pager.num_pages * ROWS_PER_PAGE < self.num_rows + ROWS_PER_PAGE
        &&& self.num_rows % ROWS_PER_PAGE != 0 ==> self.pager.is_resident(
            page_of_row(self.num_rows as int),
        )
    }

    /// Opens a table over a backing file of the given length; the caller
    /// owns the file and reports its size. Fails with `CorruptFile` when
    /// the size is not a whole number of pages, or more pages than the
    /// table can address.
    pub fn new(file_len: u64) -> (r: Result<Table, StorageError>)
        ensures
            r is Ok <==> (file_len as int % (PAGE_SIZE as int) == 0 && file_len as int / (
            PAGE_SIZE as int) <= TABLE_MAX_PAGES),
            r matches Ok(t) ==> t.wf() && t@ == spec_table_open(file_len as int),
            r matches Err(e) ==> e == StorageError::CorruptFile,
    {
        let pager = match Pager::new(file_len) {
            Ok(p) => p,
            Err(e) => {
                return Err(e);
            },
        };
        let num_rows: usize = pager.num_pages * ROWS_PER_PAGE;
        let table = Table { pager, num_rows, opened: true };
        proof {
            assert forall|i: int| 0 <= i < TABLE_MAX_PAGES implies table@.pages[i] is None by {
                assert(table.pager.pages@[i] is None);
            }
            assert(table@.pages =~= spec_table_open(file_len as int).pages);
            assert(table@ =~= spec_table_open(file_len as int));
        }
        Ok(table)
    }

    /// Whether the table still accepts operations.
    pub fn is_open(&self) -> (r: bool)
        ensures
            r == self@.opened,
    {
        self.opened
    }

    /// True when reading the given row requires loading its page first.
    pub fn row_needs_load(&self, row_index: usize) -> (r: bool)
        requires
            self.wf(),
            row_index < self@.num_rows,
        ensures
            r == !(self@.pages[page_of_row(row_index as int)] is Some),
    {
        proof {
            lemma_row_layout(row_index as int);
        }
        let page_index: usize = row_index / ROWS_PER_PAGE;
        let r = self.pager.needs_load(page_index);
        proof {
            assert(self@.pages[page_of_row(row_index as int)] is Some <==> self.pager.pages@[
                page_of_row(row_index as int)] is Some);
        }
        r
    }

    /// The page a row lives on; the caller loads `PAGE_SIZE` bytes from
    /// file offset `page index * PAGE_SIZE`, padding a short read with
    /// zeroes, before handing them to `install_page`.
    pub fn page_index_of_row(row_index: usize) -> (r: usize)
        requires
            row_index < TABLE_MAX_ROWS,
        ensures
            r == page_of_row(row_index as int),
            r < TABLE_MAX_PAGES,
    {
        proof {
            lemma_row_layout(row_index as int);
        }
        row_index / ROWS_PER_PAGE
    }

    /// Hands the table a page's bytes as loaded from the backing file.
    pub fn install_page(&mut self, page_index: usize, buf: Vec<u8>)
        requires
            old(self).wf(),
            old(self)@.opened,
            page_index < old(self)@.num_pages,
            !(old(self)@.pages[page_index as int] is Some),
            buf@.len() == PAGE_SIZE,
        ensures
            final(self).wf(),
            final(self)@ == (TableModel {
                pages: old(self)@.pages.update(page_index as int, Some(buf@)),
                ..old(self)@
            }),
    {
        self.pager.install_page(page_index, buf);
        proof {
            assert forall|i: int|
                0 <= i < TABLE_MAX_PAGES && i != page_index implies self@.pages[i] == old(
                self,
            )@.pages[i] by {
                assert(self.pager.pages@[i] == old(self).pager.pages@[i]);
            }
            assert(self@.pages =~= old(self)@.pages.update(page_index as int, Some(buf@)));
            assert(self@ =~= (TableModel {
                pages: old(self)@.pages.update(page_index as int, Some(buf@)),
                ..old(self)@
            }));
            if self.num_rows % ROWS_PER_PAGE != 0 {
                let q = page_of_row(self.num_rows as int);
                lemma_row_layout(self.num_rows as int);
                if q != page_index {
                    assert(self.pager.pages@[q] == old(self).pager.pages@[q]);
                }
            }
        }
    }

    /// Appends a row at the next row number. Rejects, in this order, a row
    /// whose fields exceed their slots (`FieldTooLong`) and a table at
    /// capacity (`TableFull`); a rejected insert changes nothing.
    pub fn insert_row(&mut self, row: Row) -> (r: Result<(), StorageError>)
        requires
            old(self).wf(),
            old(self)@.opened,
        ensures
            final(self).wf(),
            r is Ok <==> (row.wf() && old(self)@.num_rows < TABLE_MAX_ROWS),
            r == Err::<(), StorageError>(StorageError::FieldTooLong) <==> !row.wf(),
            r == Err::<(), StorageError>(StorageError::TableFull) <==> (row.wf() && old(
                self,
            )@.num_rows >= TABLE_MAX_ROWS),
            r is Ok ==> final(self)@ == spec_table_insert(old(self)@, row),
            r is Err ==> final(self)@ == old(self)@,
    {
        if self.username_too_long(&row) || self.email_too_long(&row) {
            return Err(StorageError::FieldTooLong);
        }
        if self.num_rows >= TABLE_MAX_ROWS {
            return Err(StorageError::TableFull);
        }
        let ghost n = self.num_rows as int;
        let ghost np = self.pager.num_pages as int;
        let ghost d = ROWS_PER_PAGE as int;
        let ghost p = page_of_row(n);
        proof {
            lemma_row_layout(n);
            vstd::arithmetic::div_mod::lemma_fundamental_div_mod(n, d);
            if self.pager.is_resident(p) {
                // residency stays below the page count
                assert(p < np);
            } else if n % d == 0 {
                // at a page boundary the target is exactly the next page
                assert(n == p * d);
                assert(np == p) by (nonlinear_arith)
                    requires
                        d > 0,
                        n == p * d,
                        n <= np * d,
                        np * d < n + d,
                ;
            } else {
                // a partly filled page is always resident
                assert(false);
            }
        }
        let bytes = row.serialize();
        let page_index: usize = self.num_rows / ROWS_PER_PAGE;
        let row_offset: usize = (self.num_rows % ROWS_PER_PAGE) * ROW_SIZE;
        self.pager.page_to_write(page_index, row_offset, &bytes);
        self.num_rows = self.num_rows + 1;
        proof {
            lemma_row_succ(n);
            if old(self).pager.is_resident(p) {
                assert(n + 1 <= np * d) by (nonlinear_arith)
                    requires
                        d > 0,
                        p < np,
                        n == p * d + n % d,
                        n % d < d,
                ;
            } else {
                assert(n + 1 <= (np + 1) * d) by (nonlinear_arith)
                    requires
                        d >= 1,
                        n <= np * d,
                ;
                assert((np + 1) * d < n + 1 + d) by (nonlinear_arith)
                    requires
                        d > 0,
                        np == p,
                        n == p * d + n % d,
                        0 <= n % d,
                ;
            }
            let m = spec_table_insert(old(self)@, row);
            assert(old(self)@.pages[p] is Some <==> old(self).pager.is_resident(p));
            assert forall|i: int|
                0 <= i < TABLE_MAX_PAGES && i != p implies self@.pages[i] == old(self)@.pages[i] by {
                assert(self.pager.pages@[i] == old(self).pager.pages@[i]);
            }
            assert(self@.pages[p] == m.pages[p]);
            assert(self@.pages =~= m.pages);
            assert(self@ =~= m);
        }
        Ok(())
    }

    /// The username check of `insert_row`, split out for clarity.
    fn username_too_long(&self, row: &Row) -> (r: bool)
        ensures
            r == (username_bytes(*row).len() > USERNAME_SIZE),
    {
        row.username.as_str().as_bytes().len() > USERNAME_SIZE
    }

    /// The email check of `insert_row`, split out for clarity.
    fn email_too_long(&self, row: &Row) -> (r: bool)
        ensures
            r == (email_bytes(*row).len() > EMAIL_SIZE),
    {
        row.email.as_str().as_bytes().len() > EMAIL_SIZE
    }

    /// Decodes the row stored at the given row number, whose page the
    /// caller has made resident. Fails with `InvalidEncoding` exactly when
    /// the stored bytes are corrupt.
    pub fn read_row(&self, row_index: usize) -> (r: Result<Row, StorageError>)
        requires
            self.wf(),
            self@.opened,
            row_index < self@.num_rows,
            self@.pages[page_of_row(row_index as int)] is Some,
        ensures
            ({
                let bytes = row_bytes_at(self@, row_index as int);
                &&& r is Ok <==> spec_decode_ok(bytes)
                &&& r matches Err(e) ==> e == StorageError::InvalidEncoding
                &&& r matches Ok(row) ==> ({
                    &&& row.id == spec_decoded_id(bytes)
                    &&& row.username@ == decode_utf8(spec_username_field(bytes))
                    &&& username_bytes(row) == spec_username_field(bytes)
                    &&& row.email@ == decode_utf8(spec_email_field(bytes))
                    &&& email_bytes(row) == spec_email_field(bytes)
                    &&& row.wf()
                })
            }),
    {
        proof {
            lemma_row_layout(row_index as int);
            assert(self.pager.pages@[page_of_row(row_index as int)] is Some);
        }
        let page_index: usize = row_index / ROWS_PER_PAGE;
        let row_offset: usize = (row_index % ROWS_PER_PAGE) * ROW_SIZE;
        let page = self.pager.page_to_read(page_index);
        let mut bytes: Vec<u8> = Vec::new();
        let mut i: usize = 0;
        while i < ROW_SIZE
            invariant
                i <= ROW_SIZE,
                page@.len() == PAGE_SIZE,
                row_offset + ROW_SIZE <= page@.len(),
                bytes@ == page@.subrange(row_offset as int, row_offset + i),
            decreases ROW_SIZE - i,
        {
            let b: u8 = page[row_offset + i];
            bytes.push(b);
            i = i + 1;
            assert(bytes@ =~= page@.subrange(row_offset as int, row_offset + i));
        }
        proof {
            assert(bytes@ =~= row_bytes_at(self@, row_index as int));
        }
        Row::deserialize(&bytes)
    }

    /// Closes the table and hands back the pager's flush plan: entry `i`
    /// holds the bytes to write at file offset `i * PAGE_SIZE` when the
    /// page is resident. A closed table accepts no further operation.
    pub fn close(&mut self) -> (plan: Vec<Option<Vec<u8>>>)
        requires
            old(self).wf(),
            old(self)@.opened,
        ensures
            final(self).wf(),
            final(self)@ == (TableModel { opened: false, ..old(self)@ }),
            plan@.len() == old(self)@.num_pages,
            forall|i: int|
                0 <= i < plan@.len() ==> (#[trigger] plan@[i] is Some <==> old(self)@.pages[i]
                    is Some),
            forall|i: int|
                0 <= i < plan@.len() && #[trigger] plan@[i] is Some ==> plan@[i]->0@ == old(
                    self,
                )@.pages[i]->0,
    {
        self.opened = false;
        let plan = self.pager.close();
        proof {
            assert forall|i: int|
                0 <= i < plan@.len() implies (plan@[i] is Some <==> old(self)@.pages[i]
                is Some) by {
                assert(plan@[i] is Some <==> self.pager.is_resident(i));
            }
            assert forall|i: int|
                0 <= i < plan@.len() && plan@[i] is Some implies plan@[i]->0@ == old(
                self,
            )@.pages[i]->0 by {
                assert(plan@[i]->0@ == self.pager.page_view(i));
            }
            assert forall|i: int|
                0 <= i < TABLE_MAX_PAGES implies self@.pages[i] == old(self)@.pages[i] by {}
            assert(self@.pages =~= old(self)@.pages);
            assert(self@ =~= (TableModel { opened: false, ..old(self)@ }));
        }
        plan
    }
}

/// The character of one decimal digit.
pub open spec fn digit_char(d: int) -> char
    recommends
        0 <= d <= 9,
{
    if d == 0 {
        '0'
    } else if d == 1 {
        '1'
    } else if d == 2 {
        '2'
    } else if d == 3 {
        '3'
    } else if d == 4 {
        '4'
    } else if d == 5 {
        '5'
    } else if d == 6 {
        '6'
    } else if d == 7 {
        '7'
    } else if d == 8 {
        '8'
    } else {
        '9'
    }
}

/// The decimal digits of a number, most significant first.
pub open spec fn dec_digits(n: int) -> Seq<char>
    recommends
        n >= 0,
    decreases n
        when n >= 0
{
    if n < 10 {
        seq![digit_char(n)]
    } else {
        dec_digits(n / 10) + seq![digit_char(n % 10)]
    }
}

/// One digit as text.
fn digit_str(d: u32) -> (s: &'static str)
    requires
        d <= 9,
    ensures
        s@ == seq![digit_char(d as int)],
{
    let s: &'static str = match d {
        0 => "0",
        1 => "1",
        2 => "2",
        3 => "3",
        4 => "4",
        5 => "5",
        6 => "6",
        7 => "7",
        8 => "8",
        _ => "9",
    };
    proof {
        reveal_strlit("0");
        reveal_strlit("1");
        reveal_strlit("2");
        reveal_strlit("3");
        reveal_strlit("4");
        reveal_strlit("5");
        reveal_strlit("6");
        reveal_strlit("7");
        reveal_strlit("8");
        reveal_strlit("9");
        assert(s@ =~= seq![digit_char(d as int)]);
    }
    s
}

/// The decimal text of a 32-bit number.
fn u32_to_decimal(x: u32) -> (s: String)
    ensures
        s@ == dec_digits(x as int),
    decreases x,
{
    if x < 10 {
        digit_str(x).to_owned()
    } else {
        proof {
            vstd::arithmetic::div_mod::lemma_fundamental_div_mod(x as int, 10);
        }
        let mut s = u32_to_decimal(x / 10);
        s.append(digit_str(x % 10));
        proof {
            assert(s@ =~= dec_digits(x as int));
        }
        s
    }
}

/// The one-line text of a row, as the shell displays it.
pub open spec fn spec_render(r: Row) -> Seq<char> {
    "Row "@ + dec_digits(r.id as int) + ", Username: "@ + r.username@ + ", Email: "@ + r.email@
}

impl Row {
    /// Formats the row as `Row <id>, Username: <username>, Email: <email>`,
    /// decoupled from the storage engine itself.
    pub fn render(&self) -> (s: String)
        ensures
            s@ == spec_render(*self),
    {
        let mut s: String = "Row ".to_owned();
        let num = u32_to_decimal(self.id);
        s.append(num.as_str());
        s.append(", Username: ");
        s.append(self.username.as_str());
        s.append(", Email: ");
        s.append(self.email.as_str());
        proof {
            assert(s@ =~= spec_render(*self));
        }
        s
    }
}

/// The derived layout constants, written out: fourteen rows fit on a page,
/// so the table addresses fourteen hundred rows.
pub proof fn lemma_layout_constants()
    ensures
        ROWS_PER_PAGE == 14,
        TABLE_MAX_ROWS == 1400,
{
    vstd::arithmetic::div_mod::lemma_fundamental_div_mod_converse(4096, 292, 14, 8);
}

/// Moving to the next row number stays on the same page unless the page
/// just filled up, in which case the next page begins.
pub proof fn lemma_row_succ(n: int)
    requires
        0 <= n,
    ensures
        (n + 1) % (ROWS_PER_PAGE as int) != 0 ==> page_of_row(n + 1) == page_of_row(n),
        (n + 1) % (ROWS_PER_PAGE as int) == 0 ==> page_of_row(n + 1) == page_of_row(n) + 1,
{
    lemma_layout_constants();
    let d = ROWS_PER_PAGE as int;
    vstd::arithmetic::div_mod::lemma_fundamental_div_mod(n, d);
    let q = n / d;
    let r = n % d;
    if r + 1 < d {
        vstd::arithmetic::div_mod::lemma_fundamental_div_mod_converse(n + 1, d, q, r + 1);
    } else {
        assert(n + 1 == (q + 1) * d + 0) by (nonlinear_arith)
            requires
                n == q * d + r,
                r + 1 == d,
        ;
        vstd::arithmetic::div_mod::lemma_fundamental_div_mod_converse(n + 1, d, q + 1, 0);
    }
}

/// A row number's page stays addressable and its slot fits inside the page.
pub proof fn lemma_row_layout(n: int)
    requires
        0 <= n < TABLE_MAX_ROWS,
    ensures
        0 <= page_of_row(n) < TABLE_MAX_PAGES,
        0 <= slot_of_row(n),
        slot_of_row(n) + ROW_SIZE <= PAGE_SIZE,
        page_of_row(n) * (ROWS_PER_PAGE as int) <= n,
{
    assert(0 <= n % (ROWS_PER_PAGE as int) < ROWS_PER_PAGE);
    assert(page_of_row(n) * (ROWS_PER_PAGE as int) + n % (ROWS_PER_PAGE as int) == n) by (nonlinear_arith);
    assert(slot_of_row(n) + ROW_SIZE <= PAGE_SIZE) by (nonlinear_arith)
        requires 0 <= n % (ROWS_PER_PAGE as int) < ROWS_PER_PAGE,
    ;
}

} // verus!
