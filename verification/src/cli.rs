//! The statement layer: turning one trimmed input line into a typed
//! request, and recognizing meta commands. The surrounding shell — prompts,
//! line reading, printing — stays with the caller; everything here is a
//! pure decision on the line's characters.

use vstd::prelude::*;
use vstd::utf8::encode_utf8;

use crate::db::{Row, EMAIL_SIZE, USERNAME_SIZE};

verus! {

/// Errors from preparing a statement out of an input line.
#[derive(Clone, Copy, Debug, PartialEq, Eq, Structural)]
pub enum PrepareError {
    /// A field of an insert exceeds its slot.
    StringLength,
    /// The line does not fit the statement's shape.
    Syntax,
    /// The line starts with no known keyword.
    Unrecognized,
}

/// Errors from running a request against the shell's table.
#[derive(Clone, Copy, Debug, PartialEq, Eq, Structural)]
pub enum ExecuteError {
    /// The table already holds as many rows as it can address.
    TableFull,
    /// A meta command the shell does not know.
    UnrecognizedMetaCommand,
}

/// A typed request, prepared from one input line.
pub enum Statement {
    Insert(Row),
    Select,
}

/// The line begins with the given characters.
pub open spec fn starts_with(s: Seq<char>, prefix: Seq<char>) -> bool {
    prefix.len() <= s.len() && s.take(prefix.len() as int) == prefix
}

/// Where the token starting at `from` ends: at the first space at or after
/// it, or at the end of the line.
pub open spec fn token_end(s: Seq<char>, from: int) -> int
    recommends
        0 <= from <= s.len(),
    decreases s.len() - from
        when 0 <= from <= s.len()
{
    if from >= s.len() {
        s.len() as int
    } else if s[from] == ' ' {
        from
    } else {
        token_end(s, from + 1)
    }
}

/// An index with no space between `from` and it, and a space (or the end of
/// the line) at it, is exactly where the token ends.
proof fn lemma_token_end_at(s: Seq<char>, from: int, j: int)
    requires
        0 <= from <= j <= s.len(),
        forall|i: int| from <= i < j ==> s[i] != ' ',
        j < s.len() ==> s[j] == ' ',
    ensures
        token_end(s, from) == j,
    decreases j - from,
{
    if from < j {
        lemma_token_end_at(s, from + 1, j);
    }
}

/// Every character of the sequence is a decimal digit.
pub open spec fn all_digits(s: Seq<char>) -> bool {
    forall|i: int| 0 <= i < s.len() ==> 48 <= #[trigger] (s[i] as u32) <= 57
}

/// The number the decimal digits denote, most significant first.
pub open spec fn digits_value(s: Seq<char>) -> int
    decreases s.len(),
{
    if s.len() == 0 {
        0
    } else {
        digits_value(s.drop_last()) * 10 + (s.last() as u32) - 48
    }
}

/// The value of a digit string is never negative.
proof fn lemma_digits_nonneg(s: Seq<char>)
    requires
        all_digits(s),
    ensures
        digits_value(s) >= 0,
    decreases s.len(),
{
    if s.len() > 0 {
        assert(all_digits(s.drop_last()));
        lemma_digits_nonneg(s.drop_last());
    }
}

/// Extending a digit string never shrinks its value.
proof fn lemma_digits_monotone(s: Seq<char>, j: int)
    requires
        all_digits(s),
        0 <= j <= s.len(),
    ensures
        digits_value(s) >= digits_value(s.take(j)),
    decreases s.len() - j,
{
    assert(all_digits(s.take(j)));
    lemma_digits_nonneg(s.take(j));
    if j < s.len() {
        assert(s.take(j + 1).drop_last() =~= s.take(j));
        assert(digits_value(s.take(j + 1)) == digits_value(s.take(j)) * 10 + (s[j] as u32) - 48);
        lemma_digits_monotone(s, j + 1);
    } else {
        assert(s.take(j) =~= s);
    }
}

/// The line parses as an insert: the keyword, then three tokens — a decimal
/// id that fits 32 bits, a username without spaces, and an email running to
/// the end of the line — separated by single spaces.
pub open spec fn spec_insert_ok(s: Seq<char>) -> bool {
    &&& starts_with(s, "insert "@)
    &&& token_end(s, 7) > 7
    &&& token_end(s, 7) < s.len()
    &&& token_end(s, token_end(s, 7) + 1) > token_end(s, 7) + 1
    &&& token_end(s, token_end(s, 7) + 1) < s.len()
    &&& token_end(s, token_end(s, 7) + 1) + 1 < s.len()
    &&& all_digits(s.subrange(7, token_end(s, 7)))
    &&& digits_value(s.subrange(7, token_end(s, 7))) <= u32::MAX
}

/// The id an insert line denotes.
pub open spec fn spec_insert_id(s: Seq<char>) -> int {
    digits_value(s.subrange(7, token_end(s, 7)))
}

/// The username an insert line denotes.
pub open spec fn spec_insert_username(s: Seq<char>) -> Seq<char> {
    s.subrange(token_end(s, 7) + 1, token_end(s, token_end(s, 7) + 1))
}

/// The email an insert line denotes: everything after the second space.
pub open spec fn spec_insert_email(s: Seq<char>) -> Seq<char> {
    s.subrange(token_end(s, token_end(s, 7) + 1) + 1, s.len() as int)
}

/// True when the line begins with the given prefix.
fn starts_with_lit(s: &str, prefix: &str) -> (r: bool)
    ensures
        r == starts_with(s@, prefix@),
{
    let n: usize = prefix.unicode_len();
    if s.unicode_len() < n {
        return false;
    }
    let mut i: usize = 0;
    while i < n
        invariant
            i <= n,
            n == prefix@.len(),
            n <= s@.len(),
            forall|k: int| 0 <= k < i ==> s@[k] == prefix@[k],
        decreases n - i,
    {
        if s.get_char(i) != prefix.get_char(i) {
            assert(s@.take(n as int)[i as int] != prefix@[i as int]);
            return false;
        }
        i = i + 1;
    }
    assert(s@.take(n as int) =~= prefix@);
    true
}

/// True when the two lines hold the same characters.
fn str_eq_lit(s: &str, other: &str) -> (r: bool)
    ensures
        r == (s@ == other@),
{
    let n: usize = other.unicode_len();
    if s.unicode_len() != n {
        return false;
    }
    let mut i: usize = 0;
    while i < n
        invariant
            i <= n,
            n == other@.len(),
            n == s@.len(),
            forall|k: int| 0 <= k < i ==> s@[k] == other@[k],
        decreases n - i,
    {
        if s.get_char(i) != other.get_char(i) {
            return false;
        }
        i = i + 1;
    }
    assert(s@ =~= other@);
    true
}

/// The index where the token starting at `from` ends.
fn find_token_end(s: &str, from: usize) -> (r: usize)
    requires
        from <= s@.len(),
    ensures
        r == token_end(s@, from as int),
        from <= r <= s@.len(),
{
    let len: usize = s.unicode_len();
    let mut i: usize = from;
    while i < len && s.get_char(i) != ' '
        invariant
            from <= i <= len,
            len == s@.len(),
            forall|k: int| from <= k < i ==> s@[k] != ' ',
        decreases len - i,
    {
        i = i + 1;
    }
    proof {
        lemma_token_end_at(s@, from as int, i as int);
    }
    i
}

/// Reads the decimal number in `[from, to)`. `None` when the range is
/// empty, a character is no digit, or the value exceeds 32 bits.
fn parse_u32_digits(s: &str, from: usize, to: usize) -> (r: Option<u32>)
    requires
        from <= to <= s@.len(),
    ensures
        ({
            let tok = s@.subrange(from as int, to as int);
            &&& r is Some <==> (to > from && all_digits(tok) && digits_value(tok) <= u32::MAX)
            &&& r matches Some(v) ==> v == digits_value(tok)
        }),
{
    let ghost tok = s@.subrange(from as int, to as int);
    if to == from {
        return None;
    }
    let mut value: u32 = 0;
    let mut i: usize = from;
    while i < to
        invariant
            from <= i <= to <= s@.len(),
            tok == s@.subrange(from as int, to as int),
            all_digits(tok.take(i - from)),
            value == digits_value(tok.take(i - from)),
        decreases to - i,
    {
        let c: char = s.get_char(i);
        let d: u32 = c as u32;
        if d < 48 || d > 57 {
            proof {
                assert(tok[i - from] == s@[i as int]);
                assert(!all_digits(tok));
            }
            return None;
        }
        let dv: u32 = d - 48;
        if value > (u32::MAX - dv) / 10 {
            proof {
                assert(tok.take(i - from + 1).drop_last() =~= tok.take(i - from));
                assert(digits_value(tok.take(i - from + 1)) == value * 10 + dv);
                assert(value * 10 + dv > u32::MAX) by (nonlinear_arith)
                    requires
                        value > (u32::MAX - dv) / 10,
                        dv <= 9,
                        (u32::MAX - dv) / 10 == ((u32::MAX - dv) as int) / 10,
                        (u32::MAX - dv) as int == ((u32::MAX - dv) as int / 10) * 10 + (u32::MAX
                            - dv) as int % 10,
                        0 <= (u32::MAX - dv) as int % 10 < 10,
                ;
                if all_digits(tok) {
                    lemma_digits_monotone(tok, i - from + 1);
                    assert(digits_value(tok) > u32::MAX);
                }
            }
            return None;
        }
        value = value * 10 + dv;
        i = i + 1;
        proof {
            assert(tok.take(i - from).drop_last() =~= tok.take(i - from - 1));
            assert(tok.take(i - from).last() == tok[i - from - 1]);
            assert(tok[i - from - 1] == s@[i - 1]);
        }
    }
    proof {
        assert(tok.take(to - from) =~= tok);
    }
    Some(value)
}

/// Splits an insert line into its id, username and email, as the shell's
/// scan rule reads them: tokens separated by single spaces, the email
/// running to the end of the line. Any other shape is a syntax error.
pub fn parse_insert(statement: &str) -> (r: Result<(u32, String, String), PrepareError>)
    ensures
        r is Ok <==> spec_insert_ok(statement@),
        r matches Ok(t) ==> ({
            &&& t.0 == spec_insert_id(statement@)
            &&& t.1@ == spec_insert_username(statement@)
            &&& t.2@ == spec_insert_email(statement@)
        }),
        r matches Err(e) ==> e == PrepareError::Syntax,
{
    proof {
        reveal_strlit("insert ");
    }
    if !starts_with_lit(statement, "insert ") {
        return Err(PrepareError::Syntax);
    }
    let len: usize = statement.unicode_len();
    let id_end: usize = find_token_end(statement, 7);
    if id_end == 7 || id_end >= len {
        return Err(PrepareError::Syntax);
    }
    let id: u32 = match parse_u32_digits(statement, 7, id_end) {
        Some(v) => v,
        None => {
            return Err(PrepareError::Syntax);
        },
    };
    let user_start: usize = id_end + 1;
    let user_end: usize = find_token_end(statement, user_start);
    if user_end == user_start || user_end >= len {
        return Err(PrepareError::Syntax);
    }
    let email_start: usize = user_end + 1;
    if email_start >= len {
        return Err(PrepareError::Syntax);
    }
    let username: String = statement.substring_char(user_start, user_end).to_owned();
    let email: String = statement.substring_char(email_start, len).to_owned();
    Ok((id, username, email))
}

/// Prepares one trimmed input line into a typed request, as the shell
/// would: an `insert` line must parse and its fields must fit their slots;
/// a `select` line asks for all rows; anything else is unrecognized.
pub fn prepare_statement(input: &str) -> (r: Result<Statement, PrepareError>)
    ensures
        starts_with(input@, "insert"@) ==> ({
            &&& r is Ok <==> (spec_insert_ok(input@) && encode_utf8(
                spec_insert_username(input@),
            ).len() <= USERNAME_SIZE && encode_utf8(spec_insert_email(input@)).len() <= EMAIL_SIZE)
            &&& (r matches Ok(st) ==> st matches Statement::Insert(row) && row.id
                == spec_insert_id(input@) && row.username@ == spec_insert_username(input@)
                && row.email@ == spec_insert_email(input@) && row.wf())
            &&& (r matches Err(e) ==> ({
                &&& !spec_insert_ok(input@) ==> e == PrepareError::Syntax
                &&& spec_insert_ok(input@) ==> e == PrepareError::StringLength
            }))
        }),
        !starts_with(input@, "insert"@) && starts_with(input@, "select"@) ==> (r matches Ok(st)
            && st is Select),
        !starts_with(input@, "insert"@) && !starts_with(input@, "select"@) ==> r == Err::<
            Statement,
            PrepareError,
        >(PrepareError::Unrecognized),
{
    if starts_with_lit(input, "insert") {
        let (id, username, email) = match parse_insert(input) {
            Ok(t) => t,
            Err(e) => {
                return Err(e);
            },
        };
        if username.as_str().as_bytes().len() > USERNAME_SIZE || email.as_str().as_bytes().len()
            > EMAIL_SIZE {
            return Err(PrepareError::StringLength);
        }
        Ok(Statement::Insert(Row { id, username, email }))
    } else if starts_with_lit(input, "select") {
        Ok(Statement::Select)
    } else {
        Err(PrepareError::Unrecognized)
    }
}

/// Recognizes a meta command on a trimmed line: `.exit` asks the shell to
/// stop with exit code zero (after closing the table), `.help` asks for the
/// usage text, anything else is unrecognized.
pub fn do_meta_command(buffer: &str) -> (r: Result<Option<i32>, ExecuteError>)
    ensures
        buffer@ == ".exit"@ ==> r == Ok::<Option<i32>, ExecuteError>(Some(0i32)),
        buffer@ == ".help"@ ==> (r matches Ok(o) && o is None),
        buffer@ != ".exit"@ && buffer@ != ".help"@ ==> r == Err::<Option<i32>, ExecuteError>(
            ExecuteError::UnrecognizedMetaCommand,
        ),
{
    proof {
        // the two commands differ, so at most one branch can match
        reveal_strlit(".exit");
        reveal_strlit(".help");
        assert(".exit"@[1] == 'e');
        assert(".help"@[1] == 'h');
        assert(".exit"@ != ".help"@);
    }
    if str_eq_lit(buffer, ".exit") {
        Ok(Some(0))
    } else if str_eq_lit(buffer, ".help") {
        Ok(None)
    } else {
        Err(ExecuteError::UnrecognizedMetaCommand)
    }
}

} // verus!
