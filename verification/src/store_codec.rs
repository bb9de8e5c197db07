//! The store file format: JSON text holding one object with a single
//! `todos` field, an ordered array of record objects.
//!
//! The encoder writes a compact canonical form. The parser accepts that form
//! and the pretty-printed form earlier versions of the store were written
//! in: whitespace between tokens, the record fields in their fixed order
//! (`title`, `completed`, `created_at`, `priority`), the short JSON escapes
//! and `\u00XX`, and a record without the trailing `priority` field, which
//! reads as priority 4.

use vstd::prelude::*;
use vstd::std_specs::iter::IteratorSpec;
use vstd::string::StringExecFns;

use crate::todo::{default_priority, valid_priority, views_of, Todo, TodoError, TodoStore, TodoView};
use crate::todo_manager::all_priorities_valid;

verus! {

// ---------------------------------------------------------------------------
// Character classes and digits
// ---------------------------------------------------------------------------

/// The whitespace JSON allows between tokens.
pub open spec fn is_ws(c: char) -> bool {
    c == ' ' || c == '\n' || c == '\t' || c == '\r'
}

pub open spec fn is_digit(c: char) -> bool {
    '0' as u32 <= c as u32 <= '9' as u32
}

/// The value of a decimal digit character.
pub open spec fn digit_val(c: char) -> int {
    c as u32 - '0' as u32
}

/// The character of a decimal digit value in `[0, 9]`.
pub open spec fn digit_char(d: int) -> char {
    if d == 0 {
        '0'
    } else if d == 1 {
        '1'
    } else if d == 2 {
        '2'
    } else if d == 3 {
        '3'
    } else if d == 4 {
        '4'
    } else if d == 5 {
        '5'
    } else if d == 6 {
        '6'
    } else if d == 7 {
        '7'
    } else if d == 8 {
        '8'
    } else {
        '9'
    }
}

pub open spec fn is_hex_digit(c: char) -> bool {
    is_digit(c) || ('a' as u32 <= c as u32 <= 'f' as u32) || ('A' as u32 <= c as u32 <= 'F' as u32)
}

/// The value of a hexadecimal digit character.
pub open spec fn hex_val(c: char) -> int {
    if is_digit(c) {
        digit_val(c)
    } else if 'a' as u32 <= c as u32 <= 'f' as u32 {
        c as u32 - 'a' as u32 + 10
    } else {
        c as u32 - 'A' as u32 + 10
    }
}

/// The lower-case character of a hexadecimal digit value in `[0, 15]`.
pub open spec fn hex_digit_char(d: int) -> char {
    if d < 10 {
        digit_char(d)
    } else if d == 10 {
        'a'
    } else if d == 11 {
        'b'
    } else if d == 12 {
        'c'
    } else if d == 13 {
        'd'
    } else if d == 14 {
        'e'
    } else {
        'f'
    }
}

// ---------------------------------------------------------------------------
// The encoded form, as a function of the record values
// ---------------------------------------------------------------------------

/// How one character stands inside a JSON string: quote and backslash behind
/// a backslash, control characters as `\u00XX`, everything else as itself.
pub open spec fn escaped_char(c: char) -> Seq<char> {
    if c == '"' {
        seq!['\\', '"']
    } else if c == '\\' {
        seq!['\\', '\\']
    } else if (c as u32) < 32 {
        seq!['\\', 'u', '0', '0', hex_digit_char(c as u32 as int / 16), hex_digit_char(
            c as u32 as int % 16,
        )]
    } else {
        seq![c]
    }
}

/// A text with each character in its escaped form.
pub open spec fn escaped(s: Seq<char>) -> Seq<char>
    decreases s.len(),
{
    if s.len() == 0 {
        Seq::empty()
    } else {
        escaped_char(s.first()) + escaped(s.drop_first())
    }
}

/// A JSON string: the escaped text between quotes.
pub open spec fn quoted(s: Seq<char>) -> Seq<char> {
    seq!['"'] + escaped(s) + seq!['"']
}

/// The decimal digits of a byte, without leading zeros.
pub open spec fn decimal_u8(n: u8) -> Seq<char> {
    if n >= 100 {
        seq![digit_char(n as int / 100), digit_char((n as int / 10) % 10), digit_char(n as int % 10)]
    } else if n >= 10 {
        seq![digit_char(n as int / 10), digit_char(n as int % 10)]
    } else {
        seq![digit_char(n as int)]
    }
}

pub open spec fn encoded_bool(b: bool) -> Seq<char> {
    if b {
        "true"@
    } else {
        "false"@
    }
}

/// A record object up to and including its `created_at` value: the part
/// every record text shares, whether or not a `priority` field follows.
pub open spec fn encoded_record_head(
    title: Seq<char>,
    completed: bool,
    created_at: Seq<char>,
) -> Seq<char> {
    "{"@ + "\"title\""@ + ":"@ + quoted(title) + ","@ + "\"completed\""@ + ":"@ + encoded_bool(
        completed,
    ) + ","@ + "\"created_at\""@ + ":"@ + quoted(created_at)
}

/// One record as a JSON object, fields in their fixed order.
pub open spec fn encoded_record(t: TodoView) -> Seq<char> {
    encoded_record_head(t.title, t.completed, t.created_at) + (","@ + "\"priority\""@ + ":"@
        + decimal_u8(t.priority) + "}"@)
}

/// The second and later records, each behind its separating comma.
pub open spec fn encoded_records_rest(ts: Seq<TodoView>) -> Seq<char>
    decreases ts.len(),
{
    if ts.len() == 0 {
        Seq::empty()
    } else {
        ","@ + encoded_record(ts.first()) + encoded_records_rest(ts.drop_first())
    }
}

/// The array contents: the records joined by commas.
pub open spec fn encoded_records(ts: Seq<TodoView>) -> Seq<char> {
    if ts.len() == 0 {
        Seq::empty()
    } else {
        encoded_record(ts.first()) + encoded_records_rest(ts.drop_first())
    }
}

/// The whole store file: one object whose `todos` field is the record array.
pub open spec fn encoded_store(ts: Seq<TodoView>) -> Seq<char> {
    "{"@ + "\"todos\""@ + ":"@ + "["@ + encoded_records(ts) + "]"@ + "}"@
}

// ---------------------------------------------------------------------------
// The accepted texts, as functions of the characters
//
// Each parsing function consumes a prefix of the remaining text and hands
// back what it read beside the rest.
// ---------------------------------------------------------------------------

/// The text behind its leading whitespace.
pub open spec fn skip_ws(s: Seq<char>) -> Seq<char>
    decreases s.len(),
{
    if s.len() > 0 && is_ws(s.first()) {
        skip_ws(s.drop_first())
    } else {
        s
    }
}

/// Consumes exactly the token `tok`.
pub open spec fn parse_exact(s: Seq<char>, tok: Seq<char>) -> Option<Seq<char>> {
    if s.len() >= tok.len() && s.subrange(0, tok.len() as int) == tok {
        Some(s.skip(tok.len() as int))
    } else {
        None
    }
}

/// The characters that may follow a backslash as a two-character escape.
pub open spec fn is_short_escape(c: char) -> bool {
    c == '"' || c == '\\' || c == '/' || c == 'b' || c == 'f' || c == 'n' || c == 'r' || c == 't'
}

/// The character a two-character escape stands for.
pub open spec fn short_escape_char(c: char) -> char {
    if c == 'b' {
        8u8 as char
    } else if c == 'f' {
        12u8 as char
    } else if c == 'n' {
        '\n'
    } else if c == 'r' {
        '\r'
    } else if c == 't' {
        '\t'
    } else {
        c
    }
}

/// The contents of a JSON string after its opening quote, up to and past the
/// closing quote: raw characters, short escapes, and `\u00XX` escapes.
pub open spec fn parse_string_chars(s: Seq<char>) -> Option<(Seq<char>, Seq<char>)>
    decreases s.len(),
{
    if s.len() == 0 {
        None
    } else if s.first() == '"' {
        Some((Seq::empty(), s.drop_first()))
    } else if s.first() == '\\' {
        if s.len() >= 2 && is_short_escape(s[1]) {
            match parse_string_chars(s.skip(2)) {
                Some((t, rest)) => Some((seq![short_escape_char(s[1])] + t, rest)),
                None => None,
            }
        } else if s.len() >= 6 && s[1] == 'u' && s[2] == '0' && s[3] == '0' && is_hex_digit(s[4])
            && is_hex_digit(s[5]) {
            match parse_string_chars(s.skip(6)) {
                Some((t, rest)) => Some(
                    (seq![((16 * hex_val(s[4]) + hex_val(s[5])) as u8) as char] + t, rest),
                ),
                None => None,
            }
        } else {
            None
        }
    } else if (s.first() as u32) < 32 {
        None
    } else {
        match parse_string_chars(s.drop_first()) {
            Some((t, rest)) => Some((seq![s.first()] + t, rest)),
            None => None,
        }
    }
}

/// A whole JSON string, quotes included.
pub open spec fn parse_string(s: Seq<char>) -> Option<(Seq<char>, Seq<char>)> {
    if s.len() > 0 && s.first() == '"' {
        parse_string_chars(s.drop_first())
    } else {
        None
    }
}

/// One of the literals `true` and `false`.
pub open spec fn parse_bool(s: Seq<char>) -> Option<(bool, Seq<char>)> {
    match parse_exact(s, "true"@) {
        Some(rest) => Some((true, rest)),
        None => match parse_exact(s, "false"@) {
            Some(rest) => Some((false, rest)),
            None => None,
        },
    }
}

/// The digits still to read, folded onto the value read so far; a value past
/// 255 does not fit a priority and fails.
pub open spec fn parse_digits(s: Seq<char>, acc: int) -> Option<(int, Seq<char>)>
    decreases s.len(),
{
    if s.len() > 0 && is_digit(s.first()) {
        if acc * 10 + digit_val(s.first()) > 255 {
            None
        } else {
            parse_digits(s.drop_first(), acc * 10 + digit_val(s.first()))
        }
    } else {
        Some((acc, s))
    }
}

/// A non-empty run of decimal digits, read as a number up to 255.
pub open spec fn parse_number(s: Seq<char>) -> Option<(int, Seq<char>)> {
    if s.len() > 0 && is_digit(s.first()) {
        parse_digits(s, 0)
    } else {
        None
    }
}

/// An object key and its colon, whitespace allowed around both.
pub open spec fn parse_key(s: Seq<char>, key: Seq<char>) -> Option<Seq<char>> {
    match parse_exact(skip_ws(s), key) {
        Some(r) => parse_exact(skip_ws(r), ":"@),
        None => None,
    }
}

/// The tail of a record object after `created_at`: either the closing brace,
/// which leaves the priority at its default of 4, or a `priority` field whose
/// value must lie in `[1, 4]`, then the closing brace.
pub open spec fn parse_record_end(
    s: Seq<char>,
    title: Seq<char>,
    completed: bool,
    created_at: Seq<char>,
) -> Option<(TodoView, Seq<char>)> {
    match parse_exact(skip_ws(s), "}"@) {
        Some(rest) => Some((TodoView { title, completed, created_at, priority: 4u8 }, rest)),
        None => match parse_exact(skip_ws(s), ","@) {
            None => None,
            Some(s1) => match parse_key(s1, "\"priority\""@) {
                None => None,
                Some(s2) => match parse_number(skip_ws(s2)) {
                    None => None,
                    Some((p, s3)) => if 1 <= p <= 4 {
                        match parse_exact(skip_ws(s3), "}"@) {
                            Some(rest) => Some(
                                (
                                    TodoView {
                                        title,
                                        completed,
                                        created_at,
                                        priority: p as u8,
                                    },
                                    rest,
                                ),
                            ),
                            None => None,
                        }
                    } else {
                        None
                    },
                },
            },
        },
    }
}

/// One record object, its fields in their fixed order, the `priority` field
/// optional.
pub open spec fn parse_record(s: Seq<char>) -> Option<(TodoView, Seq<char>)> {
    match parse_exact(skip_ws(s), "{"@) {
        None => None,
        Some(s1) => match parse_key(s1, "\"title\""@) {
            None => None,
            Some(s2) => match parse_string(skip_ws(s2)) {
                None => None,
                Some((title, s3)) => match parse_exact(skip_ws(s3), ","@) {
                    None => None,
                    Some(s4) => match parse_key(s4, "\"completed\""@) {
                        None => None,
                        Some(s5) => match parse_bool(skip_ws(s5)) {
                            None => None,
                            Some((completed, s6)) => match parse_exact(skip_ws(s6), ","@) {
                                None => None,
                                Some(s7) => match parse_key(s7, "\"created_at\""@) {
                                    None => None,
                                    Some(s8) => match parse_string(skip_ws(s8)) {
                                        None => None,
                                        Some((created_at, s9)) => parse_record_end(
                                            s9,
                                            title,
                                            completed,
                                            created_at,
                                        ),
                                    },
                                },
                            },
                        },
                    },
                },
            },
        },
    }
}

/// The records after the first one: each behind a comma, up to and past the
/// closing bracket.
pub open spec fn parse_records_more(s: Seq<char>) -> Option<(Seq<TodoView>, Seq<char>)>
    decreases s.len(),
{
    match parse_exact(skip_ws(s), "]"@) {
        Some(rest) => Some((Seq::empty(), rest)),
        None => match parse_exact(skip_ws(s), ","@) {
            None => None,
            Some(s1) => match parse_record(s1) {
                None => None,
                Some((t, s2)) => if s2.len() < s.len() {
                    match parse_records_more(s2) {
                        Some((ts, rest)) => Some((seq![t] + ts, rest)),
                        None => None,
                    }
                } else {
                    None
                },
            },
        },
    }
}

/// The contents of the record array after its opening bracket, up to and
/// past the closing bracket.
pub open spec fn parse_records_first(s: Seq<char>) -> Option<(Seq<TodoView>, Seq<char>)> {
    match parse_exact(skip_ws(s), "]"@) {
        Some(rest) => Some((Seq::empty(), rest)),
        None => match parse_record(s) {
            None => None,
            Some((t, s2)) => if s2.len() < s.len() {
                match parse_records_more(s2) {
                    Some((ts, rest)) => Some((seq![t] + ts, rest)),
                    None => None,
                }
            } else {
                None
            },
        },
    }
}

/// The whole store text: one object with the single key `todos`, whose value
/// is the record array, and nothing but whitespace after it.
pub open spec fn parse_store_text(s: Seq<char>) -> Option<Seq<TodoView>> {
    match parse_exact(skip_ws(s), "{"@) {
        None => None,
        Some(s1) => match parse_key(s1, "\"todos\""@) {
            None => None,
            Some(s2) => match parse_exact(skip_ws(s2), "["@) {
                None => None,
                Some(s3) => match parse_records_first(s3) {
                    None => None,
                    Some((ts, s4)) => match parse_exact(skip_ws(s4), "}"@) {
                        None => None,
                        Some(s5) => if skip_ws(s5).len() == 0 {
                            Some(ts)
                        } else {
                            None
                        },
                    },
                },
            },
        },
    }
}

// ---------------------------------------------------------------------------
// Trusted string wrappers
// ---------------------------------------------------------------------------

/// The string's characters, in order, as a vector.
fn chars_of(s: &str) -> (r: Vec<char>)
    ensures
        r@ == s@,
{
    broadcast use vstd::string::next_postcondition, vstd::string::axiom_spec_iter;

    let mut it = s.chars();
    let mut out: Vec<char> = Vec::new();
    loop
        invariant
            it.obeys_prophetic_iter_laws(),
            it.decrease() is Some,
            out@ + it.remaining() == s@,
        decreases it.decrease()->0,
    {
        let ghost prev = it.remaining();
        let ghost out_pre = out@;
        match it.next() {
            Some(c) => {
                out.push(c);
                proof {
                    assert(prev.len() > 0);
                    assert(out@ + it.remaining() =~= out_pre + prev);
                }
            },
            None => {
                proof {
                    assert(prev.len() == 0);
                    assert(out@ =~= s@);
                }
                return out;
            },
        }
    }
}

/// Relies on `String::push`: it appends exactly the one character.
#[verifier::external_body]
fn push_char(out: &mut String, c: char)
    ensures
        final(out)@ == old(out)@ + seq![c],
{
    out.push(c);
}

// ---------------------------------------------------------------------------
// The encoder
// ---------------------------------------------------------------------------

/// Splitting a text splits its escaped form.
proof fn lemma_escaped_concat(a: Seq<char>, b: Seq<char>)
    ensures
        escaped(a + b) == escaped(a) + escaped(b),
    decreases a.len(),
{
    if a.len() == 0 {
        assert(a + b =~= b);
        assert(escaped(a) + escaped(b) =~= escaped(b));
    } else {
        lemma_escaped_concat(a.drop_first(), b);
        assert((a + b).drop_first() =~= a.drop_first() + b);
        assert(escaped(a + b) =~= escaped(a) + escaped(b));
    }
}

fn digit_char_exec(d: u8) -> (c: char)
    requires
        d < 10,
    ensures
        c == digit_char(d as int),
{
    if d == 0 {
        '0'
    } else if d == 1 {
        '1'
    } else if d == 2 {
        '2'
    } else if d == 3 {
        '3'
    } else if d == 4 {
        '4'
    } else if d == 5 {
        '5'
    } else if d == 6 {
        '6'
    } else if d == 7 {
        '7'
    } else if d == 8 {
        '8'
    } else {
        '9'
    }
}

fn hex_digit_char_exec(d: u8) -> (c: char)
    requires
        d < 16,
    ensures
        c == hex_digit_char(d as int),
{
    if d < 10 {
        digit_char_exec(d)
    } else if d == 10 {
        'a'
    } else if d == 11 {
        'b'
    } else if d == 12 {
        'c'
    } else if d == 13 {
        'd'
    } else if d == 14 {
        'e'
    } else {
        'f'
    }
}

/// Appends the escaped form of `s`.
fn push_escaped(out: &mut String, s: &str)
    ensures
        final(out)@ == old(out)@ + escaped(s@),
{
    let cs = chars_of(s);
    let mut k: usize = 0;
    while k < cs.len()
        invariant
            k <= cs@.len(),
            cs@ == s@,
            out@ == old(out)@ + escaped(cs@.subrange(0, k as int)),
        decreases cs@.len() - k,
    {
        let c = cs[k];
        if c == '"' {
            push_char(out, '\\');
            push_char(out, '"');
        } else if c == '\\' {
            push_char(out, '\\');
            push_char(out, '\\');
        } else if (c as u32) < 32 {
            let code = c as u32 as u8;
            push_char(out, '\\');
            push_char(out, 'u');
            push_char(out, '0');
            push_char(out, '0');
            push_char(out, hex_digit_char_exec(code / 16));
            push_char(out, hex_digit_char_exec(code % 16));
        } else {
            push_char(out, c);
        }
        proof {
            lemma_escaped_concat(cs@.subrange(0, k as int), seq![cs@[k as int]]);
            assert(cs@.subrange(0, k + 1) =~= cs@.subrange(0, k as int) + seq![cs@[k as int]]);
            assert(seq![cs@[k as int]].drop_first() =~= Seq::<char>::empty());
            assert(escaped(Seq::<char>::empty()) =~= Seq::<char>::empty());
            assert(escaped(seq![cs@[k as int]]) =~= escaped_char(cs@[k as int]));
            assert(out@ =~= old(out)@ + escaped(cs@.subrange(0, k + 1)));
        }
        k += 1;
    }
    proof {
        assert(cs@.subrange(0, cs@.len() as int) =~= s@);
    }
}

/// Appends a JSON string holding `s`.
fn push_quoted(out: &mut String, s: &str)
    ensures
        final(out)@ == old(out)@ + quoted(s@),
{
    push_char(out, '"');
    push_escaped(out, s);
    push_char(out, '"');
    proof {
        assert(out@ =~= old(out)@ + quoted(s@));
    }
}

/// Appends the decimal digits of `n`.
fn push_decimal(out: &mut String, n: u8)
    ensures
        final(out)@ == old(out)@ + decimal_u8(n),
{
    if n >= 100 {
        push_char(out, digit_char_exec(n / 100));
        push_char(out, digit_char_exec((n / 10) % 10));
        push_char(out, digit_char_exec(n % 10));
        proof {
            assert(out@ =~= old(out)@ + decimal_u8(n));
        }
    } else if n >= 10 {
        push_char(out, digit_char_exec(n / 10));
        push_char(out, digit_char_exec(n % 10));
        proof {
            assert(out@ =~= old(out)@ + decimal_u8(n));
        }
    } else {
        push_char(out, digit_char_exec(n));
        proof {
            assert(out@ =~= old(out)@ + decimal_u8(n));
        }
    }
}

/// Appends one record as a JSON object.
#[verifier::rlimit(50)]
fn push_record(out: &mut String, t: &Todo)
    ensures
        final(out)@ == old(out)@ + encoded_record(t@),
{
    out.append("{");
    out.append("\"title\"");
    out.append(":");
    push_quoted(out, t.title.as_str());
    out.append(",");
    out.append("\"completed\"");
    out.append(":");
    if t.completed {
        out.append("true");
    } else {
        out.append("false");
    }
    out.append(",");
    out.append("\"created_at\"");
    out.append(":");
    push_quoted(out, t.created_at.as_str());
    out.append(",");
    out.append("\"priority\"");
    out.append(":");
    push_decimal(out, t.priority);
    out.append("}");
    proof {
        assert(out@ =~= old(out)@ + encoded_record(t@));
    }
}

/// Growing the record list appends one more encoded record, behind a comma
/// from the second record on.
proof fn lemma_encoded_records_push(ts: Seq<TodoView>, t: TodoView)
    ensures
        encoded_records(ts.push(t)) == encoded_records(ts) + (if ts.len() == 0 {
            encoded_record(t)
        } else {
            ","@ + encoded_record(t)
        }),
    decreases ts.len(),
{
    if ts.len() == 0 {
        assert(ts.push(t).drop_first() =~= Seq::<TodoView>::empty());
        assert(encoded_records_rest(Seq::<TodoView>::empty()) =~= Seq::<char>::empty());
        assert(encoded_records(ts.push(t)) =~= encoded_records(ts) + encoded_record(t));
    } else {
        lemma_encoded_records_rest_push(ts.drop_first(), t);
        assert(ts.push(t).drop_first() =~= ts.drop_first().push(t));
        assert(encoded_records(ts.push(t)) =~= encoded_records(ts) + (","@ + encoded_record(t)));
    }
}

proof fn lemma_encoded_records_rest_push(ts: Seq<TodoView>, t: TodoView)
    ensures
        encoded_records_rest(ts.push(t)) == encoded_records_rest(ts) + (","@ + encoded_record(t)),
    decreases ts.len(),
{
    if ts.len() == 0 {
        assert(ts.push(t).drop_first() =~= Seq::<TodoView>::empty());
        assert(encoded_records_rest(Seq::<TodoView>::empty()) =~= Seq::<char>::empty());
        assert(encoded_records_rest(ts.push(t)) =~= encoded_records_rest(ts) + (","@
            + encoded_record(t)));
    } else {
        lemma_encoded_records_rest_push(ts.drop_first(), t);
        assert(ts.push(t).drop_first() =~= ts.drop_first().push(t));
        assert(encoded_records_rest(ts.push(t)) =~= encoded_records_rest(ts) + (","@
            + encoded_record(t)));
    }
}

/// The store as JSON text, in the encoder's compact canonical form.
pub fn encode_store(store: &TodoStore) -> (r: String)
    ensures
        r@ == encoded_store(views_of(store.todos@)),
{
    let mut out = String::new();
    out.append("{");
    out.append("\"todos\"");
    out.append(":");
    out.append("[");
    let ghost prefix = out@;
    let mut k: usize = 0;
    while k < store.todos.len()
        invariant
            k <= store.todos@.len(),
            out@ == prefix + encoded_records(views_of(store.todos@).subrange(0, k as int)),
        decreases store.todos@.len() - k,
    {
        if k > 0 {
            out.append(",");
        }
        push_record(&mut out, &store.todos[k]);
        proof {
            let vs = views_of(store.todos@);
            lemma_encoded_records_push(vs.subrange(0, k as int), vs[k as int]);
            assert(vs.subrange(0, k + 1) =~= vs.subrange(0, k as int).push(vs[k as int]));
            assert(out@ =~= prefix + encoded_records(vs.subrange(0, k + 1)));
        }
        k += 1;
    }
    out.append("]");
    out.append("}");
    proof {
        let vs = views_of(store.todos@);
        assert(vs.subrange(0, vs.len() as int) =~= vs);
        assert(out@ =~= encoded_store(vs));
    }
    out
}

// ---------------------------------------------------------------------------
// The decoder
//
// Each function walks the character vector from an index and relates what it
// did to the parsing function on the text from that index on.
// ---------------------------------------------------------------------------

proof fn lemma_skip_parts(v: Seq<char>, i: int, k: int)
    requires
        0 <= i,
        0 <= k,
        i + k <= v.len(),
    ensures
        v.skip(i).skip(k) == v.skip(i + k),
{
    assert(v.skip(i).skip(k) =~= v.skip(i + k));
}

proof fn lemma_skip_drop_first(v: Seq<char>, i: int)
    requires
        0 <= i < v.len(),
    ensures
        v.skip(i).drop_first() == v.skip(i + 1),
{
    assert(v.skip(i).drop_first() =~= v.skip(i + 1));
}

/// Walks past whitespace.
fn ws_at(v: &Vec<char>, i: usize) -> (j: usize)
    requires
        i <= v@.len(),
    ensures
        i <= j <= v@.len(),
        skip_ws(v@.skip(i as int)) == v@.skip(j as int),
{
    let mut j = i;
    while j < v.len() && (v[j] == ' ' || v[j] == '\n' || v[j] == '\t' || v[j] == '\r')
        invariant
            i <= j <= v@.len(),
            skip_ws(v@.skip(i as int)) == skip_ws(v@.skip(j as int)),
        decreases v@.len() - j,
    {
        proof {
            assert(v@.skip(j as int).first() == v@[j as int]);
            lemma_skip_drop_first(v@, j as int);
        }
        j += 1;
    }
    proof {
        if j < v@.len() {
            assert(v@.skip(j as int).first() == v@[j as int]);
        }
        assert(skip_ws(v@.skip(j as int)) == v@.skip(j as int));
    }
    j
}

/// Consumes exactly the token `tok`, or reports that it does not stand here.
fn tok_at(v: &Vec<char>, i: usize, tok: &str) -> (r: Option<usize>)
    requires
        i <= v@.len(),
    ensures
        match r {
            Some(j) => i <= j <= v@.len() && j - i == tok@.len() && parse_exact(
                v@.skip(i as int),
                tok@,
            ) == Some(v@.skip(j as int)),
            None => parse_exact(v@.skip(i as int), tok@) is None,
        },
{
    let tc = chars_of(tok);
    let n = tc.len();
    if v.len() - i < n {
        proof {
            assert(v@.skip(i as int).len() < tok@.len());
        }
        return None;
    }
    let end: usize = i + n;
    let mut k: usize = 0;
    while k < n
        invariant
            0 <= k <= n,
            n == tok@.len(),
            tc@ == tok@,
            end == i + n,
            i + n <= v@.len(),
            forall|m: int| 0 <= m < k ==> v@[i + m] == tok@[m],
        decreases n - k,
    {
        if v[i + k] != tc[k] {
            proof {
                let s = v@.skip(i as int);
                if s.len() >= tok@.len() {
                    assert(s.subrange(0, tok@.len() as int)[k as int] == v@[i + k]);
                    assert(s.subrange(0, tok@.len() as int) != tok@);
                }
            }
            return None;
        }
        k += 1;
    }
    proof {
        let s = v@.skip(i as int);
        assert(s.subrange(0, tok@.len() as int) =~= tok@);
        lemma_skip_parts(v@, i as int, n as int);
    }
    Some(i + n)
}

/// Consumes a non-empty run of digits as a number up to 255.
fn number_at(v: &Vec<char>, i: usize) -> (r: Option<(u8, usize)>)
    requires
        i <= v@.len(),
    ensures
        match r {
            Some((p, j)) => i < j <= v@.len() && parse_number(v@.skip(i as int)) == Some(
                (p as int, v@.skip(j as int)),
            ),
            None => parse_number(v@.skip(i as int)) is None,
        },
{
    if i == v.len() || !((v[i] as u32) >= 48 && (v[i] as u32) <= 57) {
        proof {
            if i < v@.len() {
                assert(v@.skip(i as int).first() == v@[i as int]);
            }
        }
        return None;
    }
    proof {
        assert(v@.skip(i as int).first() == v@[i as int]);
        assert(is_digit(v@.skip(i as int).first()));
    }
    let mut j = i;
    let mut acc: u16 = 0;
    while j < v.len() && (v[j] as u32) >= 48 && (v[j] as u32) <= 57
        invariant
            i <= j <= v@.len(),
            acc <= 255,
            parse_digits(v@.skip(i as int), 0) == parse_digits(v@.skip(j as int), acc as int),
        decreases v@.len() - j,
    {
        let d = (v[j] as u32) - 48;
        let next = (acc as u32) * 10 + d;
        proof {
            assert(v@.skip(j as int).first() == v@[j as int]);
            assert(is_digit(v@.skip(j as int).first()));
            assert(digit_val(v@.skip(j as int).first()) == d as int);
            lemma_skip_drop_first(v@, j as int);
        }
        if next > 255 {
            proof {
                assert(parse_digits(v@.skip(j as int), acc as int) is None);
            }
            return None;
        }
        acc = next as u16;
        j += 1;
    }
    proof {
        if j < v@.len() {
            assert(v@.skip(j as int).first() == v@[j as int]);
            assert(!is_digit(v@.skip(j as int).first()));
        }
        assert(parse_digits(v@.skip(j as int), acc as int) == Some(
            (acc as int, v@.skip(j as int)),
        ));
    }
    Some((acc as u8, j))
}

/// Consumes one of the literals `true` and `false`.
fn bool_at(v: &Vec<char>, i: usize) -> (r: Option<(bool, usize)>)
    requires
        i <= v@.len(),
    ensures
        match r {
            Some((b, j)) => i <= j <= v@.len() && parse_bool(v@.skip(i as int)) == Some(
                (b, v@.skip(j as int)),
            ),
            None => parse_bool(v@.skip(i as int)) is None,
        },
{
    match tok_at(v, i, "true") {
        Some(j) => Some((true, j)),
        None => match tok_at(v, i, "false") {
            Some(j) => Some((false, j)),
            None => None,
        },
    }
}

fn is_hex_at(c: char) -> (b: bool)
    ensures
        b == is_hex_digit(c),
{
    let u = c as u32;
    (48 <= u && u <= 57) || (97 <= u && u <= 102) || (65 <= u && u <= 70)
}

fn hex_val_at(c: char) -> (r: u8)
    requires
        is_hex_digit(c),
    ensures
        r as int == hex_val(c),
        r <= 15,
{
    let u = c as u32;
    if 48 <= u && u <= 57 {
        (u - 48) as u8
    } else if 97 <= u && u <= 102 {
        (u - 97 + 10) as u8
    } else {
        (u - 65 + 10) as u8
    }
}

/// Consumes a JSON string, quotes included, and hands back its text.
#[verifier::rlimit(80)]
fn string_at(v: &Vec<char>, i: usize) -> (r: Option<(String, usize)>)
    requires
        i <= v@.len(),
    ensures
        match r {
            Some((out, j)) => i < j <= v@.len() && parse_string(v@.skip(i as int)) == Some(
                (out@, v@.skip(j as int)),
            ),
            None => parse_string(v@.skip(i as int)) is None,
        },
{
    if i == v.len() || v[i] != '"' {
        proof {
            if i < v@.len() {
                assert(v@.skip(i as int).first() == v@[i as int]);
            }
        }
        return None;
    }
    proof {
        assert(v@.skip(i as int).first() == '"');
        lemma_skip_drop_first(v@, i as int);
    }
    let mut out = String::new();
    let mut j = i + 1;
    loop
        invariant
            i + 1 <= j <= v@.len(),
            i < v@.len(),
            v@.skip(i as int).first() == '"',
            v@.skip(i as int).drop_first() == v@.skip(i as int + 1),
            parse_string_chars(v@.skip(i as int + 1)) is Some <==> parse_string_chars(
                v@.skip(j as int),
            ) is Some,
            parse_string_chars(v@.skip(j as int)) matches Some((t, rest))
                ==> parse_string_chars(v@.skip(i as int + 1)) == Some((out@ + t, rest)),
        decreases v@.len() - j,
    {
        if j == v.len() {
            proof {
                assert(v@.skip(j as int).len() == 0);
            }
            return None;
        }
        let c = v[j];
        proof {
            assert(v@.skip(j as int).first() == c);
        }
        if c == '"' {
            proof {
                lemma_skip_drop_first(v@, j as int);
                assert(parse_string_chars(v@.skip(j as int)) == Some(
                    (Seq::<char>::empty(), v@.skip(j as int + 1)),
                ));
                assert(out@ + Seq::<char>::empty() =~= out@);
            }
            return Some((out, j + 1));
        }
        if c == '\\' {
            if j + 1 == v.len() {
                proof {
                    assert(v@.skip(j as int).len() == 1);
                }
                return None;
            }
            let e = v[j + 1];
            proof {
                assert(v@.skip(j as int)[1] == e);
            }
            if e == '"' || e == '\\' || e == '/' || e == 'b' || e == 'f' || e == 'n' || e == 'r'
                || e == 't' {
                let decoded: char = if e == 'b' {
                    8u8 as char
                } else if e == 'f' {
                    12u8 as char
                } else if e == 'n' {
                    '\n'
                } else if e == 'r' {
                    '\r'
                } else if e == 't' {
                    '\t'
                } else {
                    e
                };
                proof {
                    let sj = v@.skip(j as int);
                    assert(is_short_escape(e));
                    assert(short_escape_char(e) == decoded);
                    lemma_skip_parts(v@, j as int, 2);
                    assert(parse_string_chars(sj) == (match parse_string_chars(
                        v@.skip(j as int + 2),
                    ) {
                        Some((t, rest)) => Some((seq![decoded] + t, rest)),
                        None => None,
                    }));
                }
                let ghost out_pre = out@;
                push_char(&mut out, decoded);
                proof {
                    if parse_string_chars(v@.skip(j as int + 2)) is Some {
                        let (t, rest) = parse_string_chars(v@.skip(j as int + 2))->Some_0;
                        assert(out@ + t =~= out_pre + (seq![decoded] + t));
                    }
                }
                j += 2;
            } else if e == 'u' {
                if v.len() - j < 6 {
                    proof {
                        assert(v@.skip(j as int).len() < 6);
                        assert(!is_short_escape('u'));
                    }
                    return None;
                }
                let d2 = v[j + 2];
                let d3 = v[j + 3];
                let h1 = v[j + 4];
                let h2 = v[j + 5];
                proof {
                    let sj = v@.skip(j as int);
                    assert(sj[2] == d2 && sj[3] == d3 && sj[4] == h1 && sj[5] == h2);
                    assert(!is_short_escape('u'));
                }
                if !(d2 == '0' && d3 == '0' && is_hex_at(h1) && is_hex_at(h2)) {
                    return None;
                }
                let a = hex_val_at(h1);
                let b = hex_val_at(h2);
                let code: u8 = 16 * a + b;
                let decoded: char = code as char;
                proof {
                    let sj = v@.skip(j as int);
                    assert(16 * hex_val(sj[4]) + hex_val(sj[5]) == code as int);
                    assert(((16 * hex_val(sj[4]) + hex_val(sj[5])) as u8) == code);
                    lemma_skip_parts(v@, j as int, 6);
                    assert(parse_string_chars(sj) == (match parse_string_chars(
                        v@.skip(j as int + 6),
                    ) {
                        Some((t, rest)) => Some((seq![decoded] + t, rest)),
                        None => None,
                    }));
                }
                let ghost out_pre = out@;
                push_char(&mut out, decoded);
                proof {
                    if parse_string_chars(v@.skip(j as int + 6)) is Some {
                        let (t, rest) = parse_string_chars(v@.skip(j as int + 6))->Some_0;
                        assert(out@ + t =~= out_pre + (seq![decoded] + t));
                    }
                }
                j += 6;
            } else {
                proof {
                    assert(!is_short_escape(e));
                }
                return None;
            }
        } else if (c as u32) < 32 {
            return None;
        } else {
            proof {
                lemma_skip_drop_first(v@, j as int);
                assert(parse_string_chars(v@.skip(j as int)) == (match parse_string_chars(
                    v@.skip(j as int + 1),
                ) {
                    Some((t, rest)) => Some((seq![c] + t, rest)),
                    None => None,
                }));
            }
            let ghost out_pre = out@;
            push_char(&mut out, c);
            proof {
                if parse_string_chars(v@.skip(j as int + 1)) is Some {
                    let (t, rest) = parse_string_chars(v@.skip(j as int + 1))->Some_0;
                    assert(out@ + t =~= out_pre + (seq![c] + t));
                }
            }
            j += 1;
        }
    }
}

/// Consumes an object key and its colon, whitespace allowed around both.
fn key_at(v: &Vec<char>, i: usize, key: &str) -> (r: Option<usize>)
    requires
        i <= v@.len(),
    ensures
        match r {
            Some(j) => i <= j <= v@.len() && parse_key(v@.skip(i as int), key@) == Some(
                v@.skip(j as int),
            ),
            None => parse_key(v@.skip(i as int), key@) is None,
        },
{
    let k = ws_at(v, i);
    match tok_at(v, k, key) {
        None => None,
        Some(j1) => {
            let k2 = ws_at(v, j1);
            match tok_at(v, k2, ":") {
                None => None,
                Some(j2) => Some(j2),
            }
        },
    }
}

/// Consumes one record object and hands back the record.
#[verifier::rlimit(100)]
fn record_at(v: &Vec<char>, i: usize) -> (r: Option<(Todo, usize)>)
    requires
        i <= v@.len(),
    ensures
        match r {
            Some((t, j)) => i < j <= v@.len() && parse_record(v@.skip(i as int)) == Some(
                (t@, v@.skip(j as int)),
            ),
            None => parse_record(v@.skip(i as int)) is None,
        },
{
    proof {
        reveal_strlit("{");
    }
    let k0 = ws_at(v, i);
    let j1 = match tok_at(v, k0, "{") {
        Some(j) => j,
        None => {
            return None;
        },
    };
    let j2 = match key_at(v, j1, "\"title\"") {
        Some(j) => j,
        None => {
            return None;
        },
    };
    let k1 = ws_at(v, j2);
    let (title, j3) = match string_at(v, k1) {
        Some(p) => p,
        None => {
            return None;
        },
    };
    let k2 = ws_at(v, j3);
    let j4 = match tok_at(v, k2, ",") {
        Some(j) => j,
        None => {
            return None;
        },
    };
    let j5 = match key_at(v, j4, "\"completed\"") {
        Some(j) => j,
        None => {
            return None;
        },
    };
    let k3 = ws_at(v, j5);
    let (completed, j6) = match bool_at(v, k3) {
        Some(p) => p,
        None => {
            return None;
        },
    };
    let k4 = ws_at(v, j6);
    let j7 = match tok_at(v, k4, ",") {
        Some(j) => j,
        None => {
            return None;
        },
    };
    let j8 = match key_at(v, j7, "\"created_at\"") {
        Some(j) => j,
        None => {
            return None;
        },
    };
    let k5 = ws_at(v, j8);
    let (created_at, j9) = match string_at(v, k5) {
        Some(p) => p,
        None => {
            return None;
        },
    };
    let k6 = ws_at(v, j9);
    match tok_at(v, k6, "}") {
        Some(j10) => {
            let t = Todo { title, completed, created_at, priority: default_priority() };
            Some((t, j10))
        },
        None => {
            let j10 = match tok_at(v, k6, ",") {
                Some(j) => j,
                None => {
                    return None;
                },
            };
            let j11 = match key_at(v, j10, "\"priority\"") {
                Some(j) => j,
                None => {
                    return None;
                },
            };
            let k7 = ws_at(v, j11);
            let (p, j12) = match number_at(v, k7) {
                Some(q) => q,
                None => {
                    return None;
                },
            };
            if p < 1 || p > 4 {
                return None;
            }
            let k8 = ws_at(v, j12);
            let j13 = match tok_at(v, k8, "}") {
                Some(j) => j,
                None => {
                    return None;
                },
            };
            let t = Todo { title, completed, created_at, priority: p };
            Some((t, j13))
        },
    }
}

/// Consumes the record array contents after the opening bracket, up to and
/// past the closing bracket.
fn records_at(v: &Vec<char>, i: usize) -> (r: Option<(Vec<Todo>, usize)>)
    requires
        i <= v@.len(),
    ensures
        match r {
            Some((ts, j)) => i <= j <= v@.len() && parse_records_first(v@.skip(i as int)) == Some(
                (views_of(ts@), v@.skip(j as int)),
            ),
            None => parse_records_first(v@.skip(i as int)) is None,
        },
{
    let mut out: Vec<Todo> = Vec::new();
    let k = ws_at(v, i);
    if let Some(j) = tok_at(v, k, "]") {
        proof {
            assert(views_of(out@) =~= Seq::<TodoView>::empty());
        }
        return Some((out, j));
    }
    let mut cur: usize;
    match record_at(v, i) {
        None => {
            return None;
        },
        Some((t, j)) => {
            proof {
                assert(views_of(out@.push(t)) =~= seq![t@]);
            }
            out.push(t);
            cur = j;
        },
    }
    loop
        invariant
            i < cur <= v@.len(),
            parse_records_first(v@.skip(i as int)) is Some <==> parse_records_more(
                v@.skip(cur as int),
            ) is Some,
            parse_records_more(v@.skip(cur as int)) matches Some((ts, rest))
                ==> parse_records_first(v@.skip(i as int)) == Some((views_of(out@) + ts, rest)),
        decreases v@.len() - cur,
    {
        let k = ws_at(v, cur);
        if let Some(j) = tok_at(v, k, "]") {
            proof {
                assert(parse_records_more(v@.skip(cur as int)) == Some(
                    (Seq::<TodoView>::empty(), v@.skip(j as int)),
                ));
                assert(views_of(out@) + Seq::<TodoView>::empty() =~= views_of(out@));
            }
            return Some((out, j));
        }
        let j1 = match tok_at(v, k, ",") {
            Some(j) => j,
            None => {
                return None;
            },
        };
        match record_at(v, j1) {
            None => {
                return None;
            },
            Some((t, j2)) => {
                proof {
                    assert(v@.skip(j2 as int).len() < v@.skip(cur as int).len());
                    if parse_records_more(v@.skip(j2 as int)) is Some {
                        let (ts, rest) = parse_records_more(v@.skip(j2 as int))->Some_0;
                        assert(parse_records_more(v@.skip(cur as int)) == Some(
                            (seq![t@] + ts, rest),
                        ));
                        assert(views_of(out@.push(t)) =~= views_of(out@).push(t@));
                        assert(views_of(out@) + (seq![t@] + ts) =~= views_of(out@.push(t)) + ts);
                    } else {
                        assert(parse_records_more(v@.skip(cur as int)) is None);
                    }
                }
                out.push(t);
                cur = j2;
            },
        }
    }
}

/// Reads store text back into a store. Succeeds on exactly the texts the
/// store grammar accepts, the encoder's own output among them, and answers
/// `Format` on every other text.
pub fn decode_store(s: &str) -> (r: Result<TodoStore, TodoError>)
    ensures
        match parse_store_text(s@) {
            Some(ts) => r matches Ok(store) && views_of(store.todos@) == ts
                && all_priorities_valid(ts),
            None => r == Err::<TodoStore, TodoError>(TodoError::Format),
        },
{
    proof {
        lemma_parse_store_text_valid(s@);
    }
    let v = chars_of(s);
    proof {
        assert(v@.skip(0) =~= s@);
    }
    let k0 = ws_at(&v, 0);
    let j1 = match tok_at(&v, k0, "{") {
        Some(j) => j,
        None => {
            return Err(TodoError::Format);
        },
    };
    let j2 = match key_at(&v, j1, "\"todos\"") {
        Some(j) => j,
        None => {
            return Err(TodoError::Format);
        },
    };
    let k1 = ws_at(&v, j2);
    let j3 = match tok_at(&v, k1, "[") {
        Some(j) => j,
        None => {
            return Err(TodoError::Format);
        },
    };
    let (todos, j4) = match records_at(&v, j3) {
        Some(p) => p,
        None => {
            return Err(TodoError::Format);
        },
    };
    let k2 = ws_at(&v, j4);
    let j5 = match tok_at(&v, k2, "}") {
        Some(j) => j,
        None => {
            return Err(TodoError::Format);
        },
    };
    let k3 = ws_at(&v, j5);
    if k3 != v.len() {
        proof {
            assert(skip_ws(v@.skip(j5 as int)).len() == v@.len() - k3);
        }
        return Err(TodoError::Format);
    }
    proof {
        assert(skip_ws(v@.skip(j5 as int)).len() == 0);
    }
    Ok(TodoStore { todos })
}

// ---------------------------------------------------------------------------
// Reading back what the encoder wrote
// ---------------------------------------------------------------------------

proof fn lemma_digit_char_val(d: int)
    requires
        0 <= d <= 9,
    ensures
        is_digit(digit_char(d)),
        digit_val(digit_char(d)) == d,
        !is_ws(digit_char(d)),
{
}

proof fn lemma_hex_digit_char_val(d: int)
    requires
        0 <= d <= 15,
    ensures
        is_hex_digit(hex_digit_char(d)),
        hex_val(hex_digit_char(d)) == d,
{
}

/// A token standing at the front of the text is consumed whole.
proof fn lemma_parse_exact_prefix(tok: Seq<char>, rest: Seq<char>)
    ensures
        parse_exact(tok + rest, tok) == Some(rest),
{
    let s = tok + rest;
    assert(s.subrange(0, tok.len() as int) =~= tok);
    assert(s.skip(tok.len() as int) =~= rest);
}

/// Leading whitespace-free text is left alone by `skip_ws`.
proof fn lemma_skip_ws_none(s: Seq<char>)
    requires
        s.len() == 0 || !is_ws(s.first()),
    ensures
        skip_ws(s) == s,
{
}

/// A non-whitespace-headed token at the front survives the whitespace skip
/// and is consumed whole.
proof fn lemma_tok_after_ws(tok: Seq<char>, rest: Seq<char>)
    requires
        tok.len() > 0,
        !is_ws(tok.first()),
    ensures
        parse_exact(skip_ws(tok + rest), tok) == Some(rest),
{
    let s = tok + rest;
    assert(s.first() == tok.first());
    lemma_skip_ws_none(s);
    lemma_parse_exact_prefix(tok, rest);
}

/// A token whose head differs from the text's head does not match.
proof fn lemma_tok_mismatch(s: Seq<char>, tok: Seq<char>)
    requires
        s.len() > 0,
        tok.len() > 0,
        !is_ws(s.first()),
        s.first() != tok.first(),
    ensures
        parse_exact(skip_ws(s), tok) is None,
{
    lemma_skip_ws_none(s);
    if s.len() >= tok.len() {
        assert(s.subrange(0, tok.len() as int)[0] == s.first());
        assert(s.subrange(0, tok.len() as int) != tok);
    }
}

/// A key written as the encoder writes it, with its colon, is consumed whole.
proof fn lemma_parse_key_prefix(key: Seq<char>, tail: Seq<char>)
    requires
        key.len() > 0,
        !is_ws(key.first()),
    ensures
        parse_key(key + (":"@ + tail), key) == Some(tail),
{
    lemma_tok_after_ws(key, ":"@ + tail);
    reveal_strlit(":");
    lemma_tok_after_ws(":"@, tail);
}

/// An escaped text between quotes reads back as exactly the text that was
/// escaped.
proof fn lemma_parse_string_chars_escaped(t: Seq<char>, rest: Seq<char>)
    ensures
        parse_string_chars(escaped(t) + (seq!['"'] + rest)) == Some((t, rest)),
    decreases t.len(),
{
    let s = escaped(t) + (seq!['"'] + rest);
    if t.len() == 0 {
        assert(s =~= seq!['"'] + rest);
        assert(s.first() == '"');
        assert(s.drop_first() =~= rest);
    } else {
        let c = t.first();
        lemma_parse_string_chars_escaped(t.drop_first(), rest);
        let tail = escaped(t.drop_first()) + (seq!['"'] + rest);
        assert(s =~= escaped_char(c) + tail);
        if c == '"' || c == '\\' {
            assert(s.first() == '\\');
            assert(s[1] == c);
            assert(is_short_escape(c));
            assert(short_escape_char(c) == c);
            assert(s.skip(2) =~= tail);
            assert(seq![c] + t.drop_first() =~= t);
        } else if (c as u32) < 32 {
            let cu = c as u32 as int;
            let h1 = hex_digit_char(cu / 16);
            let h2 = hex_digit_char(cu % 16);
            lemma_hex_digit_char_val(cu / 16);
            lemma_hex_digit_char_val(cu % 16);
            assert(s.first() == '\\');
            assert(s[1] == 'u');
            assert(!is_short_escape('u'));
            assert(s[2] == '0');
            assert(s[3] == '0');
            assert(s[4] == h1);
            assert(s[5] == h2);
            assert(16 * hex_val(h1) + hex_val(h2) == cu);
            let d = (cu as u8) as char;
            assert(d as u32 == cu);
            vstd::utf8::char_u32_cast(c, c as u32);
            vstd::utf8::char_u32_cast(d, d as u32);
            assert(d == c);
            assert(s.skip(6) =~= tail);
            assert(seq![c] + t.drop_first() =~= t);
        } else {
            assert(s.first() == c);
            assert(c != '"' && c != '\\');
            assert(s.drop_first() =~= tail);
            assert(seq![c] + t.drop_first() =~= t);
        }
    }
}

/// A quoted text reads back as exactly the text between the quotes, with
/// its escapes undone.
proof fn lemma_parse_string_quoted(t: Seq<char>, rest: Seq<char>)
    ensures
        parse_string(quoted(t) + rest) == Some((t, rest)),
        (quoted(t) + rest).first() == '"',
        (quoted(t) + rest).len() > 0,
{
    let s = quoted(t) + rest;
    assert(s.first() == '"');
    assert(s.drop_first() =~= escaped(t) + (seq!['"'] + rest));
    lemma_parse_string_chars_escaped(t, rest);
}

/// The decimal digits of a byte, followed by anything but a digit, read back
/// as exactly that byte.
proof fn lemma_parse_number_decimal(n: u8, rest: Seq<char>)
    requires
        rest.len() == 0 || !is_digit(rest.first()),
    ensures
        parse_number(decimal_u8(n) + rest) == Some((n as int, rest)),
        !is_ws((decimal_u8(n) + rest).first()),
        (decimal_u8(n) + rest).len() > 0,
{
    let s = decimal_u8(n) + rest;
    if n >= 100 {
        let a = n as int / 100;
        let b = (n as int / 10) % 10;
        let c = n as int % 10;
        lemma_digit_char_val(a);
        lemma_digit_char_val(b);
        lemma_digit_char_val(c);
        assert(s.first() == digit_char(a));
        let s1 = s.drop_first();
        let s2 = s1.drop_first();
        assert(s1.first() == digit_char(b));
        assert(s2.first() == digit_char(c));
        assert(s2.drop_first() =~= rest);
        assert(a * 10 + b == n as int / 10);
        assert((n as int / 10) * 10 + c == n as int);
        assert(parse_digits(rest, n as int) == Some((n as int, rest)));
        assert(parse_digits(s2, n as int / 10) == parse_digits(rest, n as int));
        assert(parse_digits(s1, a) == parse_digits(s2, n as int / 10));
        assert(parse_digits(s, 0) == parse_digits(s1, a));
    } else if n >= 10 {
        let a = n as int / 10;
        let b = n as int % 10;
        lemma_digit_char_val(a);
        lemma_digit_char_val(b);
        assert(s.first() == digit_char(a));
        let s1 = s.drop_first();
        assert(s1.first() == digit_char(b));
        assert(s1.drop_first() =~= rest);
        assert(a * 10 + b == n as int);
        assert(parse_digits(rest, n as int) == Some((n as int, rest)));
        assert(parse_digits(s1, a) == parse_digits(rest, n as int));
        assert(parse_digits(s, 0) == parse_digits(s1, a));
    } else {
        lemma_digit_char_val(n as int);
        assert(s.first() == digit_char(n as int));
        assert(s.drop_first() =~= rest);
        assert(parse_digits(rest, n as int) == Some((n as int, rest)));
        assert(parse_digits(s, 0) == parse_digits(rest, n as int));
    }
}

/// A record text reads up to its `created_at` value as written, and goes on
/// with whatever tail follows.
#[verifier::rlimit(50)]
proof fn lemma_parse_record_head(
    title: Seq<char>,
    completed: bool,
    created_at: Seq<char>,
    tail: Seq<char>,
)
    ensures
        parse_record(encoded_record_head(title, completed, created_at) + tail) == parse_record_end(
            tail,
            title,
            completed,
            created_at,
        ),
{
    let e11 = quoted(created_at) + tail;
    let e10 = ":"@ + e11;
    let e9 = "\"created_at\""@ + e10;
    let e8 = ","@ + e9;
    let e7 = encoded_bool(completed) + e8;
    let e6 = ":"@ + e7;
    let e5 = "\"completed\""@ + e6;
    let e4 = ","@ + e5;
    let e3 = quoted(title) + e4;
    let e2 = ":"@ + e3;
    let e1 = "\"title\""@ + e2;
    let s = encoded_record_head(title, completed, created_at) + tail;
    assert(s =~= "{"@ + e1);
    reveal_strlit("{");
    reveal_strlit(",");
    reveal_strlit("\"title\"");
    reveal_strlit("\"completed\"");
    reveal_strlit("\"created_at\"");
    lemma_tok_after_ws("{"@, e1);
    assert(parse_exact(skip_ws(s), "{"@) == Some(e1));
    lemma_parse_key_prefix("\"title\""@, e3);
    assert(parse_key(e1, "\"title\""@) == Some(e3));
    lemma_parse_string_quoted(title, e4);
    lemma_skip_ws_none(e3);
    assert(parse_string(skip_ws(e3)) == Some((title, e4)));
    lemma_tok_after_ws(","@, e5);
    assert(parse_exact(skip_ws(e4), ","@) == Some(e5));
    lemma_parse_key_prefix("\"completed\""@, e7);
    assert(parse_key(e5, "\"completed\""@) == Some(e7));
    lemma_parse_bool_encoded(completed, e8);
    lemma_skip_ws_none(e7);
    assert(parse_bool(skip_ws(e7)) == Some((completed, e8)));
    lemma_tok_after_ws(","@, e9);
    assert(parse_exact(skip_ws(e8), ","@) == Some(e9));
    lemma_parse_key_prefix("\"created_at\""@, e11);
    assert(parse_key(e9, "\"created_at\""@) == Some(e11));
    lemma_parse_string_quoted(created_at, tail);
    lemma_skip_ws_none(e11);
    assert(parse_string(skip_ws(e11)) == Some((created_at, tail)));
}

/// An encoded record reads back as exactly the record, with whatever tail
/// follows untouched.
proof fn lemma_parse_record_encoded(t: TodoView, rest: Seq<char>)
    requires
        valid_priority(t.priority),
    ensures
        parse_record(encoded_record(t) + rest) == Some((t, rest)),
        (encoded_record(t) + rest).len() > rest.len(),
{
    reveal_strlit(",");
    reveal_strlit(":");
    reveal_strlit("}");
    reveal_strlit("{");
    reveal_strlit("\"priority\"");
    let g4 = "}"@ + rest;
    let g3 = decimal_u8(t.priority) + g4;
    let g2 = ":"@ + g3;
    let g1 = "\"priority\""@ + g2;
    let tail = ","@ + g1;
    let s = encoded_record(t) + rest;
    assert(s =~= encoded_record_head(t.title, t.completed, t.created_at) + tail);
    lemma_parse_record_head(t.title, t.completed, t.created_at, tail);
    lemma_tok_mismatch(tail, "}"@);
    lemma_tok_after_ws(","@, g1);
    assert(parse_exact(skip_ws(tail), ","@) == Some(g1));
    lemma_parse_key_prefix("\"priority\""@, g3);
    assert(parse_key(g1, "\"priority\""@) == Some(g3));
    assert(g4.first() == '}');
    assert(!is_digit('}'));
    lemma_parse_number_decimal(t.priority, g4);
    lemma_skip_ws_none(g3);
    assert(parse_number(skip_ws(g3)) == Some((t.priority as int, g4)));
    lemma_tok_after_ws("}"@, rest);
    assert(parse_exact(skip_ws(g4), "}"@) == Some(rest));
    assert(((t.priority as int) as u8) == t.priority);
    assert((TodoView {
        title: t.title,
        completed: t.completed,
        created_at: t.created_at,
        priority: ((t.priority as int) as u8),
    }) =~= t);
    assert(parse_record_end(tail, t.title, t.completed, t.created_at) == Some((t, rest)));
    assert(s.len() == encoded_record(t).len() + rest.len());
    assert(encoded_record(t).len() > 0);
}

/// A record text that ends right after `created_at`, with no `priority`
/// field, reads back with priority 4: stores written before the field
/// existed keep their records, at the lowest urgency.
pub proof fn lemma_parse_record_without_priority(
    title: Seq<char>,
    completed: bool,
    created_at: Seq<char>,
    rest: Seq<char>,
)
    ensures
        parse_record(encoded_record_head(title, completed, created_at) + ("}"@ + rest)) == Some(
            (TodoView { title, completed, created_at, priority: 4u8 }, rest),
        ),
{
    reveal_strlit("}");
    lemma_parse_record_head(title, completed, created_at, "}"@ + rest);
    lemma_tok_after_ws("}"@, rest);
    assert(parse_exact(skip_ws("}"@ + rest), "}"@) == Some(rest));
}

/// An encoded boolean reads back as itself.
proof fn lemma_parse_bool_encoded(b: bool, rest: Seq<char>)
    ensures
        parse_bool(encoded_bool(b) + rest) == Some((b, rest)),
        !is_ws((encoded_bool(b) + rest).first()),
        (encoded_bool(b) + rest).len() > 0,
{
    reveal_strlit("true");
    reveal_strlit("false");
    let s = encoded_bool(b) + rest;
    if b {
        lemma_parse_exact_prefix("true"@, rest);
    } else {
        assert(s.first() == 'f');
        if s.len() >= "true"@.len() {
            assert(s.subrange(0, "true"@.len() as int)[0] == 'f');
            assert(s.subrange(0, "true"@.len() as int) != "true"@);
        }
        assert(parse_exact(s, "true"@) is None);
        lemma_parse_exact_prefix("false"@, rest);
    }
}

/// Whatever record a record text yields carries a priority in `[1, 4]`:
/// either the text's own, range-checked, or the default 4.
proof fn lemma_parse_record_valid(s: Seq<char>)
    ensures
        parse_record(s) matches Some((t, rest)) ==> valid_priority(t.priority),
{
}

/// Whatever records a record-list text yields carry priorities in `[1, 4]`.
proof fn lemma_parse_records_more_valid(s: Seq<char>)
    ensures
        parse_records_more(s) matches Some((ts, rest)) ==> all_priorities_valid(ts),
    decreases s.len(),
{
    if parse_exact(skip_ws(s), "]"@) is Some {
    } else {
        match parse_exact(skip_ws(s), ","@) {
            None => {},
            Some(s1) => {
                match parse_record(s1) {
                    None => {},
                    Some((t, s2)) => {
                        if s2.len() < s.len() {
                            lemma_parse_record_valid(s1);
                            lemma_parse_records_more_valid(s2);
                            match parse_records_more(s2) {
                                None => {},
                                Some((ts, rest)) => {
                                    assert forall|i: int| 0 <= i < (seq![t] + ts).len() implies
                                        valid_priority(#[trigger] (seq![t] + ts)[i].priority) by {
                                        if i > 0 {
                                            assert((seq![t] + ts)[i] == ts[i - 1]);
                                        }
                                    }
                                },
                            }
                        }
                    },
                }
            },
        }
    }
}

/// Whatever collection a store text yields carries priorities in `[1, 4]`:
/// loading keeps the record invariant.
pub proof fn lemma_parse_store_text_valid(s: Seq<char>)
    ensures
        parse_store_text(s) matches Some(ts) ==> all_priorities_valid(ts),
{
    match parse_exact(skip_ws(s), "{"@) {
        None => {},
        Some(s1) => {
            match parse_key(s1, "\"todos\""@) {
                None => {},
                Some(s2) => {
                    match parse_exact(skip_ws(s2), "["@) {
                        None => {},
                        Some(s3) => {
                            if parse_exact(skip_ws(s3), "]"@) is Some {
                            } else {
                                match parse_record(s3) {
                                    None => {},
                                    Some((t, s4)) => {
                                        if s4.len() < s3.len() {
                                            lemma_parse_record_valid(s3);
                                            lemma_parse_records_more_valid(s4);
                                            match parse_records_more(s4) {
                                                None => {},
                                                Some((ts, rest)) => {
                                                    assert forall|i: int|
                                                        0 <= i < (seq![t] + ts).len() implies
                                                        valid_priority(
                                                            #[trigger] (seq![t] + ts)[i].priority,
                                                        ) by {
                                                        if i > 0 {
                                                            assert((seq![t] + ts)[i] == ts[i - 1]);
                                                        }
                                                    }
                                                },
                                            }
                                        }
                                    },
                                }
                            }
                        },
                    }
                },
            }
        },
    }
}

/// The encoded tail of a record list reads back as exactly those records.
proof fn lemma_parse_records_more_encoded(ts: Seq<TodoView>, rest: Seq<char>)
    requires
        all_priorities_valid(ts),
    ensures
        parse_records_more(encoded_records_rest(ts) + ("]"@ + rest)) == Some((ts, rest)),
    decreases ts.len(),
{
    reveal_strlit("]");
    reveal_strlit(",");
    let s = encoded_records_rest(ts) + ("]"@ + rest);
    if ts.len() == 0 {
        assert(s =~= "]"@ + rest);
        lemma_tok_after_ws("]"@, rest);
        assert(parse_exact(skip_ws(s), "]"@) == Some(rest));
        assert(Seq::<TodoView>::empty() =~= ts);
    } else {
        let t = ts.first();
        assert(valid_priority(ts[0].priority));
        let sub = encoded_records_rest(ts.drop_first()) + ("]"@ + rest);
        let after = encoded_record(t) + sub;
        assert(s =~= ","@ + after);
        lemma_tok_mismatch(s, "]"@);
        lemma_tok_after_ws(","@, after);
        assert(parse_exact(skip_ws(s), ","@) == Some(after));
        lemma_parse_record_encoded(t, sub);
        assert(parse_record(after) == Some((t, sub)));
        assert(sub.len() < s.len());
        assert forall|i: int| 0 <= i < ts.drop_first().len() implies valid_priority(
            #[trigger] ts.drop_first()[i].priority,
        ) by {
            assert(ts.drop_first()[i] == ts[i + 1]);
        }
        lemma_parse_records_more_encoded(ts.drop_first(), rest);
        assert(parse_records_more(sub) == Some((ts.drop_first(), rest)));
        assert(seq![t] + ts.drop_first() =~= ts);
        assert(parse_records_more(s) == Some((ts, rest)));
    }
}

/// The encoded record array contents read back as exactly the records.
proof fn lemma_parse_records_first_encoded(ts: Seq<TodoView>, rest: Seq<char>)
    requires
        all_priorities_valid(ts),
    ensures
        parse_records_first(encoded_records(ts) + ("]"@ + rest)) == Some((ts, rest)),
{
    reveal_strlit("]");
    let s = encoded_records(ts) + ("]"@ + rest);
    if ts.len() == 0 {
        assert(s =~= "]"@ + rest);
        lemma_tok_after_ws("]"@, rest);
        assert(parse_exact(skip_ws(s), "]"@) == Some(rest));
        assert(Seq::<TodoView>::empty() =~= ts);
    } else {
        let t = ts.first();
        assert(valid_priority(ts[0].priority));
        let sub = encoded_records_rest(ts.drop_first()) + ("]"@ + rest);
        assert(s =~= encoded_record(t) + sub);
        lemma_parse_record_encoded(t, sub);
        assert(parse_record(s) == Some((t, sub)));
        reveal_strlit("{");
        assert(s.first() == '{');
        lemma_tok_mismatch(s, "]"@);
        assert(sub.len() < s.len());
        assert forall|i: int| 0 <= i < ts.drop_first().len() implies valid_priority(
            #[trigger] ts.drop_first()[i].priority,
        ) by {
            assert(ts.drop_first()[i] == ts[i + 1]);
        }
        lemma_parse_records_more_encoded(ts.drop_first(), rest);
        assert(parse_records_more(sub) == Some((ts.drop_first(), rest)));
        assert(seq![t] + ts.drop_first() =~= ts);
    }
}

/// The round trip through the store text: a collection whose priorities are
/// all in range, written by the encoder, reads back equal in order, titles,
/// completion flags, timestamps and priorities.
pub proof fn lemma_store_roundtrip(ts: Seq<TodoView>)
    requires
        all_priorities_valid(ts),
    ensures
        parse_store_text(encoded_store(ts)) == Some(ts),
{
    reveal_strlit("{");
    reveal_strlit("}");
    reveal_strlit("[");
    reveal_strlit("]");
    reveal_strlit(":");
    reveal_strlit("\"todos\"");
    let f5 = "}"@ + Seq::<char>::empty();
    let f4 = encoded_records(ts) + ("]"@ + f5);
    let f3 = "["@ + f4;
    let f2 = ":"@ + f3;
    let f1 = "\"todos\""@ + f2;
    let s = encoded_store(ts);
    assert(s =~= "{"@ + f1);
    lemma_tok_after_ws("{"@, f1);
    assert(parse_exact(skip_ws(s), "{"@) == Some(f1));
    lemma_parse_key_prefix("\"todos\""@, f3);
    assert(parse_key(f1, "\"todos\""@) == Some(f3));
    lemma_tok_after_ws("["@, f4);
    assert(parse_exact(skip_ws(f3), "["@) == Some(f4));
    lemma_parse_records_first_encoded(ts, f5);
    assert(parse_records_first(f4) == Some((ts, f5)));
    lemma_tok_after_ws("}"@, Seq::<char>::empty());
    assert(parse_exact(skip_ws(f5), "}"@) == Some(Seq::<char>::empty()));
    assert(skip_ws(Seq::<char>::empty()).len() == 0);
    assert(parse_store_text(s) == Some(ts));
}

} // verus!
