use vstd::prelude::*;
use vstd::string::StrSliceExecFns;
use crate::db_errors::{DbError, error_name};
use crate::tables::{DataTypes, Operator, Value, ValueView, Condition, ConditionView};

verus! {

broadcast use vstd::string::group_string_axioms;

/// `String::push`: appends `c` to `s`.
#[verifier::external_body]
pub(crate) fn push_char(s: &mut String, c: char)
    ensures
        final(s)@ == old(s)@.push(c),
{
    s.push(c);
}

/// The characters of `s`, in order.
pub fn chars_of(s: &str) -> (v: Vec<char>)
    ensures
        v@ == s@,
{
    let mut v: Vec<char> = Vec::new();
    for c in it: s.chars()
        invariant
            v@ == it.seq().subrange(0, it.index() as int),
            it.seq() == s@,
    {
        v.push(c);
    }
    v
}

/// Whether `a` and `b` hold the same characters.
pub fn str_eq(a: &str, b: &str) -> (r: bool)
    ensures
        r == (a@ == b@),
{
    let n = a.unicode_len();
    let m = b.unicode_len();
    if n != m {
        return false;
    }
    let mut i: usize = 0;
    while i < n
        invariant
            n == a@.len(),
            m == b@.len(),
            n == m,
            i <= n,
            forall|k: int| 0 <= k < i ==> a@[k] == b@[k],
        decreases n - i,
    {
        if a.get_char(i) != b.get_char(i) {
            return false;
        }
        i = i + 1;
    }
    assert(a@ =~= b@);
    true
}

/// Appends the characters of `t` to `s`.
pub(crate) fn push_all(s: &mut String, t: &str)
    ensures
        final(s)@ == old(s)@ + t@,
{
    let cs = chars_of(t);
    let mut i: usize = 0;
    while i < cs.len()
        invariant
            i <= cs@.len(),
            cs@ == t@,
            s@ == old(s)@ + t@.subrange(0, i as int),
        decreases cs@.len() - i,
    {
        push_char(s, cs[i]);
        i = i + 1;
        proof {
            assert(s@ =~= old(s)@ + t@.subrange(0, i as int));
        }
    }
    assert(t@.subrange(0, t@.len() as int) =~= t@);
}

/// A piece of a query: a key, or the value that follows a key.
#[derive(Debug, Clone)]
pub enum Token {
    Key(String),
    Value(String),
}

/// A token as a mathematical object.
pub enum TokenView {
    Key(Seq<char>),
    Value(Seq<char>),
}

impl View for Token {
    type V = TokenView;

    open spec fn view(&self) -> TokenView {
        match self {
            Token::Key(s) => TokenView::Key(s@),
            Token::Value(s) => TokenView::Value(s@),
        }
    }
}

/// The tokens of a list.
pub open spec fn tokens_view(ts: Seq<Token>) -> Seq<TokenView> {
    ts.map_values(|t: Token| t@)
}

/// Where the lexer stands after some characters: inside quotes or not, the text read since
/// the last quote, whether a backslash is pending, whether the next text is a value, and
/// the tokens so far.
pub struct LexState {
    pub in_string: bool,
    pub buf: Seq<char>,
    pub is_escape: bool,
    pub is_value: bool,
    pub tokens: Seq<TokenView>,
}

/// One character of lexing. A quote (unless escaped) toggles quoting and turns the text
/// read since the last quote, if any, into a key or a value; an escaped quote or backslash
/// is kept as text; outside quotes `:` makes what follows a value, `{`, `}` and `,` a
/// key, and whitespace is skipped; any other character is text.
pub open spec fn lex_step(s: LexState, c: char) -> LexState {
    if c == '"' {
        if s.is_escape {
            LexState { buf: s.buf.push('"'), is_escape: false, ..s }
        } else {
            LexState {
                in_string: !s.in_string,
                buf: Seq::empty(),
                is_escape: false,
                tokens: if s.buf.len() != 0 {
                    s.tokens.push(
                        if s.is_value {
                            TokenView::Value(s.buf)
                        } else {
                            TokenView::Key(s.buf)
                        },
                    )
                } else {
                    s.tokens
                },
                ..s
            }
        }
    } else if c == '\\' {
        if s.is_escape {
            LexState { buf: s.buf.push('\\'), is_escape: false, ..s }
        } else {
            LexState { is_escape: true, ..s }
        }
    } else if c == ':' && !s.in_string {
        LexState { is_value: true, ..s }
    } else if (c == '}' || c == ',') && !s.in_string {
        LexState { is_value: false, ..s }
    } else if c == '{' && !s.in_string {
        LexState { is_value: false, ..s }
    } else if is_json_space(c) && !s.in_string {
        s
    } else {
        LexState { buf: s.buf.push(c), ..s }
    }
}

/// Whitespace between JSON tokens: space, tab, line feed and carriage return.
pub open spec fn is_json_space(c: char) -> bool {
    c == ' ' || c == '\t' || c == '\n' || c == '\r'
}

/// The lexer's state after the characters `cs`.
pub open spec fn lex_chars(cs: Seq<char>) -> LexState
    decreases cs.len(),
{
    if cs.len() == 0 {
        LexState { in_string: false, buf: Seq::empty(), is_escape: false, is_value: false, tokens: Seq::empty() }
    } else {
        lex_step(lex_chars(cs.drop_last()), cs.last())
    }
}

/// The tokens of a query.
pub open spec fn lex(cs: Seq<char>) -> Seq<TokenView> {
    lex_chars(cs).tokens
}

/// Splits a query into keys and values.
pub fn lexer(query: String) -> (res: Result<Vec<Token>, DbError>)
    ensures
        res is Ok,
        tokens_view(res->Ok_0@) == lex(query@),
{
    let cs = chars_of(query.as_str());
    let mut in_string: bool = false;
    let mut buf = String::new();
    let mut is_escape: bool = false;
    let mut is_value: bool = false;
    let mut tokens: Vec<Token> = Vec::new();
    let mut i: usize = 0;
    proof {
        assert(tokens_view(tokens@) =~= Seq::<TokenView>::empty());
        assert(cs@.subrange(0, 0) =~= Seq::<char>::empty());
    }
    while i < cs.len()
        invariant
            i <= cs@.len(),
            cs@ == query@,
            lex_chars(cs@.subrange(0, i as int)) == (LexState {
                in_string,
                buf: buf@,
                is_escape,
                is_value,
                tokens: tokens_view(tokens@),
            }),
        decreases cs@.len() - i,
    {
        let c = cs[i];
        proof {
            assert(cs@.subrange(0, i + 1).drop_last() =~= cs@.subrange(0, i as int));
        }
        if c == '"' {
            if is_escape {
                push_char(&mut buf, '"');
                is_escape = false;
            } else {
                in_string = !in_string;
                if !buf.as_str().is_empty() {
                    let ghost before = tokens@;
                    if is_value {
                        tokens.push(Token::Value(buf.clone()));
                    } else {
                        tokens.push(Token::Key(buf.clone()));
                    }
                    proof {
                        assert(tokens_view(tokens@) =~= tokens_view(before).push(tokens@.last()@));
                    }
                }
                is_escape = false;
                buf = String::new();
            }
        } else if c == '\\' {
            if is_escape {
                push_char(&mut buf, '\\');
                is_escape = false;
            } else {
                is_escape = true;
            }
        } else if c == ':' && !in_string {
            is_value = true;
        } else if (c == '}' || c == ',') && !in_string {
            is_value = false;
        } else if c == '{' && !in_string {
            is_value = false;
        } else if (c == ' ' || c == '\t' || c == '\n' || c == '\r') && !in_string {
        } else {
            push_char(&mut buf, c);
        }
        i = i + 1;
    }
    proof {
        assert(cs@.subrange(0, cs@.len() as int) =~= cs@);
    }
    Ok(tokens)
}

/// What a character becomes in a JSON string: quotes, backslashes, newlines, carriage
/// returns and tabs are escaped.
pub open spec fn escape_char(c: char) -> Seq<char> {
    if c == '"' {
        seq!['\\', '"']
    } else if c == '\\' {
        seq!['\\', '\\']
    } else if c == '\n' {
        seq!['\\', 'n']
    } else if c == '\r' {
        seq!['\\', 'r']
    } else if c == '\t' {
        seq!['\\', 't']
    } else {
        seq![c]
    }
}

/// `s` with every character escaped for a JSON string.
pub open spec fn escaped(s: Seq<char>) -> Seq<char>
    decreases s.len(),
{
    if s.len() == 0 {
        Seq::empty()
    } else {
        escaped(s.drop_last()) + escape_char(s.last())
    }
}

/// `s` escaped for use inside a JSON string.
pub fn escape_json_string(s: &str) -> (out: String)
    ensures
        out@ == escaped(s@),
{
    let cs = chars_of(s);
    let mut out = String::new();
    let mut i: usize = 0;
    while i < cs.len()
        invariant
            i <= cs@.len(),
            cs@ == s@,
            out@ == escaped(cs@.subrange(0, i as int)),
        decreases cs@.len() - i,
    {
        let c = cs[i];
        proof {
            assert(cs@.subrange(0, i + 1).drop_last() =~= cs@.subrange(0, i as int));
        }
        let ghost before = out@;
        if c == '"' {
            push_char(&mut out, '\\');
            push_char(&mut out, '"');
        } else if c == '\\' {
            push_char(&mut out, '\\');
            push_char(&mut out, '\\');
        } else if c == '\n' {
            push_char(&mut out, '\\');
            push_char(&mut out, 'n');
        } else if c == '\r' {
            push_char(&mut out, '\\');
            push_char(&mut out, 'r');
        } else if c == '\t' {
            push_char(&mut out, '\\');
            push_char(&mut out, 't');
        } else {
            push_char(&mut out, c);
        }
        proof {
            assert(out@ =~= before + escape_char(c));
        }
        i = i + 1;
    }
    proof {
        assert(cs@.subrange(0, cs@.len() as int) =~= cs@);
    }
    out
}

/// The JSON answer for an error: `{"success":false,"error":"<name>"}`.
pub open spec fn error_json(e: DbError) -> Seq<char> {
    "{\"success\":false,\"error\":\""@ + escaped(error_name(e)) + "\"}"@
}

/// The JSON answer sent back for a failed query.
pub fn encode_error(err: &DbError) -> (out: String)
    ensures
        out@ == error_json(*err),
{
    let mut out = String::new();
    push_all(&mut out, "{\"success\":false,\"error\":\"");
    let name = escape_json_string(err.name());
    push_all(&mut out, name.as_str());
    push_all(&mut out, "\"}");
    proof {
        assert(out@ =~= error_json(*err));
    }
    out
}

/// The value that follows the first `table_name` key that has one, if any.
pub open spec fn peeked_name(ts: Seq<TokenView>, i: int) -> Option<Seq<char>>
    decreases ts.len() - i,
{
    if i >= ts.len() || i < 0 {
        None
    } else if ts[i] matches TokenView::Key(k) && k == "table_name"@ && i + 1 < ts.len()
        && ts[i + 1] is Value {
        Some(ts[i + 1]->Value_0)
    } else {
        peeked_name(ts, i + 1)
    }
}

/// The table a query names, read without parsing the rest of it.
pub fn peek_table_name(query: &str) -> (res: Result<Option<String>, DbError>)
    ensures
        res is Ok,
        match res->Ok_0 {
            Some(s) => peeked_name(lex(query@), 0) == Some(s@),
            None => peeked_name(lex(query@), 0) is None,
        },
{
    let tokens = lexer(query.to_owned())?;
    let ghost ts = tokens_view(tokens@);
    let mut i: usize = 0;
    while i < tokens.len()
        invariant
            ts == tokens_view(tokens@),
            ts == lex(query@),
            i <= tokens@.len(),
            peeked_name(ts, i as int) == peeked_name(ts, 0),
        decreases tokens@.len() - i,
    {
        proof {
            assert(ts[i as int] == tokens@[i as int]@);
            if i + 1 < tokens@.len() {
                assert(ts[i + 1] == tokens@[i + 1]@);
            }
        }
        if let Token::Key(k) = &tokens[i] {
            if str_eq(k.as_str(), "table_name") {
                if i + 1 < tokens.len() {
                    if let Token::Value(v) = &tokens[i + 1] {
                        return Ok(Some(v.clone()));
                    }
                }
            }
        }
        i = i + 1;
    }
    Ok(None)
}

/// What reading the value after the key at `i - 1` gives: the value and the position
/// after it, or `MalformedRequest` and the position of what stands there instead.
pub open spec fn next_value_spec(ts: Seq<TokenView>, i: int) -> (Result<Seq<char>, DbError>, int) {
    let j = i + 1;
    if 0 <= j < ts.len() && ts[j] is Value {
        (Ok(ts[j]->Value_0), j + 1)
    } else {
        (Err(DbError::MalformedRequest), j)
    }
}

/// Reads the value after the key at `*i`, moving `*i` past it.
pub fn next_value(tokens: &[Token], i: &mut usize) -> (res: Result<String, DbError>)
    requires
        *old(i) < usize::MAX,
    ensures
        ({
            let (r, j) = next_value_spec(tokens_view(tokens@), *old(i) as int);
            &&& *final(i) == j
            &&& match res {
                Ok(v) => r == Ok::<Seq<char>, DbError>(v@),
                Err(e) => r == Err::<Seq<char>, DbError>(e),
            }
        }),
{
    *i = *i + 1;
    if *i >= tokens.len() {
        return Err(DbError::MalformedRequest);
    }
    proof {
        assert(tokens_view(tokens@)[*i as int] == tokens@[*i as int]@);
    }
    match &tokens[*i] {
        Token::Key(_) => Err(DbError::MalformedRequest),
        Token::Value(v) => {
            let v = v.clone();
            *i = *i + 1;
            Ok(v)
        },
    }
}

/// A name for what `str::to_uppercase` returns: the upper-case form of a string by
/// Unicode's case tables, which depends on the string alone.
pub uninterp spec fn str_uppercase(s: Seq<char>) -> Seq<char>;

/// Whether every character of `s` is ASCII.
pub open spec fn is_ascii_text(s: Seq<char>) -> bool {
    forall|i: int| 0 <= i < s.len() ==> (#[trigger] s[i] as u32) < 128
}

/// The ASCII upper-case form of `c`: `a` to `z` become `A` to `Z`, all else stays.
pub open spec fn ascii_upper(c: char) -> char {
    if 'a' <= c <= 'z' {
        ((c as u32) - 32) as char
    } else {
        c
    }
}

/// `str::to_uppercase`; the result is named by `str_uppercase`. Its documentation maps the
/// ASCII letters `a` to `z` to `A` to `Z` and keeps the other ASCII characters, so on ASCII
/// text the result is stated character by character.
#[verifier::external_body]
fn to_uppercase(s: &str) -> (r: String)
    ensures
        r@ == str_uppercase(s@),
        is_ascii_text(s@) ==> r@ == s@.map_values(|c: char| ascii_upper(c)),
{
    s.to_uppercase()
}

/// The value of a run of decimal digits.
pub open spec fn digits_value(s: Seq<char>) -> int
    decreases s.len(),
{
    if s.len() == 0 {
        0
    } else {
        digits_value(s.drop_last()) * 10 + (s.last() as int - '0' as int)
    }
}

/// `s` is a non-empty run of decimal digits.
pub open spec fn all_digits(s: Seq<char>) -> bool {
    s.len() > 0 && forall|i: int| 0 <= i < s.len() ==> '0' <= #[trigger] s[i] <= '9'
}

/// What `u32::from_str` accepts: an optional `+` then digits, of a value that fits.
pub open spec fn u32_of_text(s: Seq<char>) -> Option<u32> {
    let d = if s.len() > 0 && s[0] == '+' { s.drop_first() } else { s };
    if all_digits(d) && digits_value(d) <= u32::MAX {
        Some(digits_value(d) as u32)
    } else {
        None
    }
}

/// What `i32::from_str` accepts: an optional `+` or `-` then digits, of a value that fits.
pub open spec fn i32_of_text(s: Seq<char>) -> Option<i32> {
    if s.len() > 0 && s[0] == '-' {
        let d = s.drop_first();
        if all_digits(d) && digits_value(d) <= 0x8000_0000 {
            Some((0 - digits_value(d)) as i32)
        } else {
            None
        }
    } else {
        let d = if s.len() > 0 && s[0] == '+' { s.drop_first() } else { s };
        if all_digits(d) && digits_value(d) <= i32::MAX {
            Some(digits_value(d) as i32)
        } else {
            None
        }
    }
}

/// A run of decimal digits has a value no smaller than that of any of its prefixes, and
/// no value is negative.
proof fn lemma_digits_prefix(d: Seq<char>, k: int)
    requires
        0 <= k <= d.len(),
        forall|i: int| 0 <= i < d.len() ==> '0' <= #[trigger] d[i] <= '9',
    ensures
        0 <= digits_value(d.subrange(0, k)) <= digits_value(d),
    decreases d.len(),
{
    if k < d.len() {
        let p = d.drop_last();
        assert(p.subrange(0, k) =~= d.subrange(0, k));
        assert forall|i: int| 0 <= i < p.len() implies '0' <= #[trigger] p[i] <= '9' by {
            assert(p[i] == d[i]);
        }
        lemma_digits_prefix(p, k);
        lemma_digits_prefix(p, p.len() as int);
        assert(p.subrange(0, p.len() as int) =~= p);
    } else {
        assert(d.subrange(0, k) =~= d);
        if d.len() > 0 {
            let p = d.drop_last();
            assert forall|i: int| 0 <= i < p.len() implies '0' <= #[trigger] p[i] <= '9' by {
                assert(p[i] == d[i]);
            }
            lemma_digits_prefix(p, p.len() as int);
            assert(p.subrange(0, p.len() as int) =~= p);
        }
    }
}

/// The value of the digits of `cs` from `start` on, when there is at least one, they are
/// all decimal digits and their value is at most `limit`.
fn digits_upto(cs: &Vec<char>, start: usize, limit: u64) -> (r: Option<u64>)
    requires
        start <= cs@.len(),
        limit <= 0x1_0000_0000,
    ensures
        ({
            let d = cs@.subrange(start as int, cs@.len() as int);
            r == (if all_digits(d) && digits_value(d) <= limit {
                Some(digits_value(d) as u64)
            } else {
                None::<u64>
            })
        }),
        r matches Some(v) ==> v == digits_value(cs@.subrange(start as int, cs@.len() as int)) && v <= limit,
{
    let ghost d = cs@.subrange(start as int, cs@.len() as int);
    if start == cs.len() {
        return None;
    }
    let mut v: u64 = 0;
    let mut i: usize = start;
    proof {
        assert(cs@.subrange(start as int, start as int) =~= Seq::<char>::empty());
    }
    while i < cs.len()
        invariant
            start <= i <= cs@.len(),
            start < cs@.len(),
            limit <= 0x1_0000_0000,
            d == cs@.subrange(start as int, cs@.len() as int),
            v == digits_value(cs@.subrange(start as int, i as int)),
            v <= limit,
            forall|j: int| start <= j < i ==> '0' <= #[trigger] cs@[j] <= '9',
        decreases cs@.len() - i,
    {
        let c = cs[i];
        if !('0' <= c && c <= '9') {
            proof {
                assert(d[i - start] == c);
            }
            return None;
        }
        let digit: u64 = (c as u32 - '0' as u32) as u64;
        proof {
            let p = cs@.subrange(start as int, i + 1);
            assert(p.drop_last() =~= cs@.subrange(start as int, i as int));
            assert(p.last() == c);
        }
        v = v * 10 + digit;
        if v > limit {
            proof {
                assert forall|j: int| 0 <= j < d.len() implies '0' <= #[trigger] d[j] <= '9' || !all_digits(d) by {}
                if all_digits(d) {
                    assert(d.subrange(0, i + 1 - start) =~= cs@.subrange(start as int, i + 1));
                    lemma_digits_prefix(d, i + 1 - start);
                }
            }
            return None;
        }
        i = i + 1;
    }
    proof {
        assert(cs@.subrange(start as int, i as int) =~= d);
        assert forall|j: int| 0 <= j < d.len() implies '0' <= #[trigger] d[j] <= '9' by {
            assert(d[j] == cs@[start + j]);
        }
    }
    Some(v)
}

/// The number that `u32::from_str` reads: an optional `+` followed by decimal digits only,
/// of a value that fits; anything else, an empty string included, reads as nothing.
fn parse_u32(s: &str) -> (r: Option<u32>)
    ensures
        r == u32_of_text(s@),
{
    let cs = chars_of(s);
    let start: usize = if cs.len() > 0 && cs[0] == '+' { 1 } else { 0 };
    let ghost d = if s@.len() > 0 && s@[0] == '+' { s@.drop_first() } else { s@ };
    proof {
        assert(cs@.subrange(start as int, cs@.len() as int) =~= d);
    }
    match digits_upto(&cs, start, 0xFFFF_FFFF) {
        Some(v) => {
            proof {
                assert(v == digits_value(d) && v <= u32::MAX);
            }
            Some(v as u32)
        },
        None => None,
    }
}

/// The number that `i32::from_str` reads: an optional `+` or `-` followed by decimal digits
/// only, of a value in range; anything else, an empty string included, reads as nothing.
fn parse_i32(s: &str) -> (r: Option<i32>)
    ensures
        r == i32_of_text(s@),
{
    let cs = chars_of(s);
    if cs.len() > 0 && cs[0] == '-' {
        let ghost d = s@.drop_first();
        proof {
            assert(cs@.subrange(1, cs@.len() as int) =~= d);
        }
        match digits_upto(&cs, 1, 0x8000_0000) {
            Some(v) => {
                proof {
                    assert(v == digits_value(d) && v <= 0x8000_0000);
                }
                if v == 0x8000_0000 {
                    Some(i32::MIN)
                } else {
                    let x = v as i32;
                    proof {
                        assert(x == v);
                    }
                    Some(-x)
                }
            },
            None => None,
        }
    } else {
        let start: usize = if cs.len() > 0 && cs[0] == '+' { 1 } else { 0 };
        let ghost d = if s@.len() > 0 && s@[0] == '+' { s@.drop_first() } else { s@ };
        proof {
            assert(cs@.subrange(start as int, cs@.len() as int) =~= d);
        }
        match digits_upto(&cs, start, 0x7FFF_FFFF) {
            Some(v) => {
                proof {
                    assert(v == digits_value(d) && v <= i32::MAX);
                }
                Some(v as i32)
            },
            None => None,
        }
    }
}

/// What a query asks for.
#[derive(Debug, Clone, Copy, PartialEq, Eq, Structural)]
pub enum QueryOperation {
    Insert,
    Select,
    Delete,
    Update,
    CreateTable,
    DeleteTable,
    DropDB,
    CreateDB,
    Shutdown,
    GetSchema,
}

/// The comparison operator that a name stands for; names are case sensitive.
pub open spec fn operator_of_name(s: Seq<char>) -> Result<Operator, DbError> {
    if s == "ge"@ {
        Ok(Operator::GreaterEqual)
    } else if s == "le"@ {
        Ok(Operator::LessEqual)
    } else if s == "e"@ {
        Ok(Operator::Equal)
    } else if s == "ne"@ {
        Ok(Operator::NotEqual)
    } else if s == "l"@ {
        Ok(Operator::Less)
    } else if s == "g"@ {
        Ok(Operator::Greater)
    } else {
        Err(DbError::InvalidOperation)
    }
}

/// The column type that an upper-case name stands for.
pub open spec fn data_type_of_name(s: Seq<char>) -> Result<DataTypes, DbError> {
    if s == "UINT32"@ {
        Ok(DataTypes::UINT32)
    } else if s == "INT32"@ {
        Ok(DataTypes::INT32)
    } else if s == "FLOAT32"@ {
        Ok(DataTypes::FLOAT32)
    } else if s == "VARCHAR"@ {
        Ok(DataTypes::VARCHAR)
    } else {
        Err(DbError::TypeMismatch)
    }
}

/// The task that a name stands for; names are case sensitive.
pub open spec fn task_of_name(s: Seq<char>) -> Result<QueryOperation, DbError> {
    if s == "insert"@ {
        Ok(QueryOperation::Insert)
    } else if s == "delete"@ {
        Ok(QueryOperation::Delete)
    } else if s == "update"@ {
        Ok(QueryOperation::Update)
    } else if s == "select"@ {
        Ok(QueryOperation::Select)
    } else if s == "drop_db"@ {
        Ok(QueryOperation::DropDB)
    } else if s == "delete_table"@ {
        Ok(QueryOperation::DeleteTable)
    } else if s == "create_table"@ {
        Ok(QueryOperation::CreateTable)
    } else if s == "create_db"@ {
        Ok(QueryOperation::CreateDB)
    } else if s == "shutdown"@ {
        Ok(QueryOperation::Shutdown)
    } else if s == "get_schema"@ {
        Ok(QueryOperation::GetSchema)
    } else {
        Err(DbError::InvalidOperation)
    }
}

/// The comparison operator named by `lower`.
pub fn operator_named(lower: &str) -> (res: Result<Operator, DbError>)
    ensures
        res == operator_of_name(lower@),
{
    if str_eq(lower, "ge") {
        Ok(Operator::GreaterEqual)
    } else if str_eq(lower, "le") {
        Ok(Operator::LessEqual)
    } else if str_eq(lower, "e") {
        Ok(Operator::Equal)
    } else if str_eq(lower, "ne") {
        Ok(Operator::NotEqual)
    } else if str_eq(lower, "l") {
        Ok(Operator::Less)
    } else if str_eq(lower, "g") {
        Ok(Operator::Greater)
    } else {
        Err(DbError::InvalidOperation)
    }
}

/// The column type named by `upper`, already in upper case.
pub fn data_type_named(upper: &str) -> (res: Result<DataTypes, DbError>)
    ensures
        res == data_type_of_name(upper@),
{
    if str_eq(upper, "UINT32") {
        Ok(DataTypes::UINT32)
    } else if str_eq(upper, "INT32") {
        Ok(DataTypes::INT32)
    } else if str_eq(upper, "FLOAT32") {
        Ok(DataTypes::FLOAT32)
    } else if str_eq(upper, "VARCHAR") {
        Ok(DataTypes::VARCHAR)
    } else {
        Err(DbError::TypeMismatch)
    }
}

/// The task named by `lower`.
pub fn task_named(lower: &str) -> (res: Result<QueryOperation, DbError>)
    ensures
        res == task_of_name(lower@),
{
    if str_eq(lower, "insert") {
        Ok(QueryOperation::Insert)
    } else if str_eq(lower, "delete") {
        Ok(QueryOperation::Delete)
    } else if str_eq(lower, "update") {
        Ok(QueryOperation::Update)
    } else if str_eq(lower, "select") {
        Ok(QueryOperation::Select)
    } else if str_eq(lower, "drop_db") {
        Ok(QueryOperation::DropDB)
    } else if str_eq(lower, "delete_table") {
        Ok(QueryOperation::DeleteTable)
    } else if str_eq(lower, "create_table") {
        Ok(QueryOperation::CreateTable)
    } else if str_eq(lower, "create_db") {
        Ok(QueryOperation::CreateDB)
    } else if str_eq(lower, "shutdown") {
        Ok(QueryOperation::Shutdown)
    } else if str_eq(lower, "get_schema") {
        Ok(QueryOperation::GetSchema)
    } else {
        Err(DbError::InvalidOperation)
    }
}

/// The comparison operator a condition names, matched as written.
pub fn parse_operation(op: &str) -> (res: Result<Operator, DbError>)
    ensures
        res == operator_of_name(op@),
{
    operator_named(op)
}

/// The column type a schema names, in any case.
pub fn parse_data_type(raw: &str) -> (res: Result<DataTypes, DbError>)
    ensures
        res == data_type_of_name(str_uppercase(raw@)),
        is_ascii_text(raw@) ==> res == data_type_of_name(raw@.map_values(|c: char| ascii_upper(c))),
{
    let upper = to_uppercase(raw);
    data_type_named(upper.as_str())
}

/// A schema as names and types.
pub open spec fn schema_view(s: Seq<(String, DataTypes)>) -> Seq<(Seq<char>, DataTypes)> {
    s.map_values(|p: (String, DataTypes)| (p.0@, p.1))
}

/// The type of the first column of `sch` named `col`, or `InvalidColumn`.
pub open spec fn schema_lookup(sch: Seq<(Seq<char>, DataTypes)>, col: Seq<char>) -> Result<DataTypes, DbError>
    decreases sch.len(),
{
    if sch.len() == 0 {
        Err(DbError::InvalidColumn)
    } else if sch[0].0 == col {
        Ok(sch[0].1)
    } else {
        schema_lookup(sch.drop_first(), col)
    }
}

/// The type of column `column` in `schema`.
pub fn lookup_type<'a>(schema: &'a [(String, DataTypes)], column: &str) -> (res: Result<&'a DataTypes, DbError>)
    ensures
        match res {
            Ok(t) => schema_lookup(schema_view(schema@), column@) == Ok::<DataTypes, DbError>(*t),
            Err(e) => schema_lookup(schema_view(schema@), column@) == Err::<DataTypes, DbError>(e),
        },
{
    let ghost sv = schema_view(schema@);
    let mut i: usize = 0;
    proof {
        assert(sv.subrange(0, sv.len() as int) =~= sv);
    }
    while i < schema.len()
        invariant
            i <= schema@.len(),
            sv == schema_view(schema@),
            schema_lookup(sv.subrange(i as int, sv.len() as int), column@) == schema_lookup(sv, column@),
        decreases schema@.len() - i,
    {
        proof {
            assert(sv.subrange(i as int, sv.len() as int)[0] == sv[i as int]);
            assert(sv.subrange(i as int, sv.len() as int).drop_first() =~= sv.subrange(i + 1, sv.len() as int));
        }
        if str_eq(schema[i].0.as_str(), column) {
            return Ok(&schema[i].1);
        }
        i = i + 1;
    }
    proof {
        assert(sv.subrange(i as int, sv.len() as int) =~= Seq::<(Seq<char>, DataTypes)>::empty());
    }
    Err(DbError::InvalidColumn)
}

/// `f` decodes float text as `fl` says: whatever it returns for a text is `fl` of it.
pub open spec fn decodes_floats_as<F: Fn(&str) -> Option<u32>>(f: F, fl: spec_fn(Seq<char>) -> Option<u32>) -> bool {
    forall|s: &str, r: Option<u32>| #[trigger] call_ensures(f, (s,), r) ==> r == fl(s@)
}

/// `f` may be called on any text.
pub open spec fn decoder_total<F: Fn(&str) -> Option<u32>>(f: F) -> bool {
    forall|s: &str| #[trigger] call_requires(f, (s,))
}

/// The value that the text `raw` stands for in a column of type `t`, with float text
/// decoded by `fl`; `TypeMismatch` when the text does not parse.
pub open spec fn coerce_spec(raw: Seq<char>, t: DataTypes, fl: spec_fn(Seq<char>) -> Option<u32>) -> Result<
    ValueView,
    DbError,
> {
    match t {
        DataTypes::UINT32 => match u32_of_text(raw) {
            Some(v) => Ok(ValueView::Uint32(v)),
            None => Err(DbError::TypeMismatch),
        },
        DataTypes::INT32 => match i32_of_text(raw) {
            Some(v) => Ok(ValueView::Int32(v)),
            None => Err(DbError::TypeMismatch),
        },
        DataTypes::FLOAT32 => match fl(raw) {
            Some(b) => Ok(ValueView::Float32(b)),
            None => Err(DbError::TypeMismatch),
        },
        DataTypes::VARCHAR => Ok(ValueView::Varchar(raw)),
    }
}

/// A value or an error, with the value as a mathematical object.
pub open spec fn value_result(r: Result<Value, DbError>) -> Result<ValueView, DbError> {
    match r {
        Ok(v) => Ok(v@),
        Err(e) => Err(e),
    }
}

/// The value that the text `raw` stands for in a column of type `dtype`; float text goes
/// through `float_bits`.
pub fn coerce_value<F: Fn(&str) -> Option<u32>>(raw: &str, dtype: &DataTypes, float_bits: &F) -> (res: Result<
    Value,
    DbError,
>)
    requires
        decoder_total(*float_bits),
    ensures
        forall|fl: spec_fn(Seq<char>) -> Option<u32>|
            decodes_floats_as(*float_bits, fl) ==> value_result(res) == coerce_spec(raw@, *dtype, fl),
{
    match dtype {
        DataTypes::UINT32 => match parse_u32(raw) {
            Some(v) => Ok(Value::Uint32(v)),
            None => Err(DbError::TypeMismatch),
        },
        DataTypes::INT32 => match parse_i32(raw) {
            Some(v) => Ok(Value::Int32(v)),
            None => Err(DbError::TypeMismatch),
        },
        DataTypes::FLOAT32 => match float_bits(raw) {
            Some(b) => Ok(Value::Float32(b)),
            None => Err(DbError::TypeMismatch),
        },
        DataTypes::VARCHAR => Ok(Value::Varchar(raw.to_owned())),
    }
}

/// Keys and values as pairs of character sequences.
pub open spec fn pairs_view(s: Seq<(String, String)>) -> Seq<(Seq<char>, Seq<char>)> {
    s.map_values(|p: (String, String)| (p.0@, p.1@))
}

/// Index of the first pair of `s` with key `k`, or `-1`.
pub open spec fn assoc_index(s: Seq<(Seq<char>, Seq<char>)>, k: Seq<char>) -> int {
    if exists|j: int| 0 <= j < s.len() && s[j].0 == k && forall|l: int| 0 <= l < j ==> s[l].0 != k {
        choose|j: int| 0 <= j < s.len() && s[j].0 == k && forall|l: int| 0 <= l < j ==> s[l].0 != k
    } else {
        -1
    }
}

/// The value of key `k` in the pairs `s`.
pub open spec fn assoc_get(s: Seq<(Seq<char>, Seq<char>)>, k: Seq<char>) -> Option<Seq<char>> {
    let j = assoc_index(s, k);
    if j >= 0 {
        Some(s[j].1)
    } else {
        None
    }
}

/// The pairs `s` with key `k` set to `v`: in place if the key is there, else at the end.
pub open spec fn assoc_insert(s: Seq<(Seq<char>, Seq<char>)>, k: Seq<char>, v: Seq<char>) -> Seq<(Seq<char>, Seq<char>)> {
    let j = assoc_index(s, k);
    if j >= 0 {
        s.update(j, (k, v))
    } else {
        s.push((k, v))
    }
}

/// Position of the first field with key `k`, if any.
fn find_field(fields: &Vec<(String, String)>, k: &str) -> (r: Option<usize>)
    ensures
        match r {
            Some(j) => assoc_index(pairs_view(fields@), k@) == j,
            None => assoc_index(pairs_view(fields@), k@) == -1,
        },
{
    let ghost s = pairs_view(fields@);
    let mut i: usize = 0;
    while i < fields.len()
        invariant
            i <= fields@.len(),
            s == pairs_view(fields@),
            forall|l: int| 0 <= l < i ==> s[l].0 != k@,
        decreases fields@.len() - i,
    {
        if str_eq(fields[i].0.as_str(), k) {
            proof {
                assert(s[i as int].0 == k@);
                let j = assoc_index(s, k@);
                assert(j == i) by {
                    let j0 = choose|j: int| 0 <= j < s.len() && s[j].0 == k@ && forall|l: int| 0 <= l < j ==> s[l].0 != k@;
                    if j0 > i {
                        assert(s[i as int].0 != k@);
                    }
                }
            }
            return Some(i);
        }
        i = i + 1;
    }
    None
}

/// Sets field `k` to `v`, in place if it is there, else at the end.
fn insert_field(fields: &mut Vec<(String, String)>, k: String, v: String)
    ensures
        pairs_view(final(fields)@) == assoc_insert(pairs_view(old(fields)@), k@, v@),
{
    match find_field(fields, k.as_str()) {
        Some(j) => {
            fields.set(j, (k, v));
            proof {
                assert(pairs_view(fields@) =~= assoc_insert(pairs_view(old(fields)@), k@, v@));
            }
        },
        None => {
            fields.push((k, v));
            proof {
                assert(pairs_view(fields@) =~= assoc_insert(pairs_view(old(fields)@), k@, v@));
            }
        },
    }
}

/// The value of field `k`, if there is one.
fn get_field<'a>(fields: &'a Vec<(String, String)>, k: &str) -> (r: Option<&'a String>)
    ensures
        match r {
            Some(v) => assoc_get(pairs_view(fields@), k@) == Some(v@),
            None => assoc_get(pairs_view(fields@), k@) is None,
        },
{
    match find_field(fields, k) {
        Some(j) => Some(&fields[j].1),
        None => None,
    }
}

/// The keys a field group may hold.
pub open spec fn keys_view(s: Seq<&str>) -> Seq<Seq<char>> {
    s.map_values(|k: &str| k@)
}

/// Whether `k` is one of `keys`.
fn contains_key(keys: &[&str], k: &str) -> (r: bool)
    ensures
        r == keys_view(keys@).contains(k@),
{
    let mut i: usize = 0;
    while i < keys.len()
        invariant
            i <= keys@.len(),
            forall|l: int| 0 <= l < i ==> keys@[l]@ != k@,
        decreases keys@.len() - i,
    {
        if str_eq(keys[i], k) {
            proof {
                assert(keys_view(keys@)[i as int] == k@);
            }
            return true;
        }
        i = i + 1;
    }
    proof {
        if keys_view(keys@).contains(k@) {
            let l = choose|l: int| 0 <= l < keys_view(keys@).len() && keys_view(keys@)[l] == k@;
            assert(keys@[l]@ == k@);
        }
    }
    false
}

/// What reading a group of fields from position `i` gives: while fewer distinct keys than
/// `expected` were read, each expected key not yet read and its value are taken; the group
/// ends at the end of the tokens, at a key read already, or at anything else. A key
/// without a value is `MalformedRequest`.
pub open spec fn field_group_spec(
    ts: Seq<TokenView>,
    i: int,
    expected: Seq<Seq<char>>,
    fields: Seq<(Seq<char>, Seq<char>)>,
) -> (Result<Seq<(Seq<char>, Seq<char>)>, DbError>, int)
    decreases ts.len() - i,
{
    if fields.len() < expected.len() && 0 <= i < ts.len() && ts[i] is Key && expected.contains(ts[i]->Key_0)
        && assoc_get(fields, ts[i]->Key_0) is None {
        let k = ts[i]->Key_0;
        let (r, j) = next_value_spec(ts, i);
        match r {
            Ok(v) => if j <= ts.len() {
                field_group_spec(ts, j, expected, assoc_insert(fields, k, v))
            } else {
                (Ok(fields), j)
            },
            Err(e) => (Err(e), j),
        }
    } else {
        (Ok(fields), i)
    }
}

/// Reads a group of fields with keys among `expected_keys`, from position `*i` on.
pub fn read_field_group(tokens: &[Token], i: &mut usize, expected_keys: &[&str]) -> (res: Result<
    Vec<(String, String)>,
    DbError,
>)
    ensures
        ({
            let (r, j) = field_group_spec(tokens_view(tokens@), *old(i) as int, keys_view(expected_keys@), Seq::empty());
            &&& *final(i) == j
            &&& match res {
                Ok(f) => r == Ok::<Seq<(Seq<char>, Seq<char>)>, DbError>(pairs_view(f@)),
                Err(e) => r == Err::<Seq<(Seq<char>, Seq<char>)>, DbError>(e),
            }
        }),
{
    let ghost ts = tokens_view(tokens@);
    let ghost ev = keys_view(expected_keys@);
    let ghost goal = field_group_spec(ts, *i as int, ev, Seq::empty());
    let mut fields: Vec<(String, String)> = Vec::new();
    proof {
        assert(pairs_view(fields@) =~= Seq::<(Seq<char>, Seq<char>)>::empty());
    }
    loop
        invariant
            ts == tokens_view(tokens@),
            ev == keys_view(expected_keys@),
            goal == field_group_spec(ts, *old(i) as int, ev, Seq::empty()),
            field_group_spec(ts, *i as int, ev, pairs_view(fields@)) == goal,
        decreases tokens@.len() - *i,
    {
        proof {
            assert(pairs_view(fields@).len() == fields@.len());
            assert(ev.len() == expected_keys@.len());
        }
        if !(fields.len() < expected_keys.len() && *i < tokens.len()) {
            return Ok(fields);
        }
        proof {
            assert(ts[*i as int] == tokens@[*i as int]@);
        }
        let is_expected = match &tokens[*i] {
            Token::Key(k) => contains_key(expected_keys, k.as_str()),
            Token::Value(_) => false,
        };
        if !is_expected {
            proof {
                if ts[*i as int] is Key {
                    assert(tokens@[*i as int] is Key);
                }
            }
            return Ok(fields);
        }
        let key = match &tokens[*i] {
            Token::Key(k) => k.clone(),
            Token::Value(_) => String::new(),
        };
        if get_field(&fields, key.as_str()).is_some() {
            return Ok(fields);
        }
        let value = next_value(tokens, i)?;
        insert_field(&mut fields, key, value);
    }
}

/// The condition that a group of fields describes: its column and value (converted by
/// the column's type in `sch`), and its operator, `e` when none is given.
pub open spec fn condition_spec(
    fs: Seq<(Seq<char>, Seq<char>)>,
    sch: Seq<(Seq<char>, DataTypes)>,
    fl: spec_fn(Seq<char>) -> Option<u32>,
) -> Result<ConditionView, DbError> {
    match assoc_get(fs, "column"@) {
        None => Err(DbError::MalformedRequest),
        Some(col) => match assoc_get(fs, "value"@) {
            None => Err(DbError::MalformedRequest),
            Some(raw) => match schema_lookup(sch, col) {
                Err(e) => Err(e),
                Ok(t) => match coerce_spec(raw, t, fl) {
                    Err(e) => Err(e),
                    Ok(v) => match assoc_get(fs, "operator"@) {
                        None => Ok(ConditionView { column: col, operator: Operator::Equal, value: v }),
                        Some(op) => match operator_of_name(op) {
                            Err(e) => Err(e),
                            Ok(o) => Ok(ConditionView { column: col, operator: o, value: v }),
                        },
                    },
                },
            },
        },
    }
}

/// A condition or an error, with the condition as a mathematical object.
pub open spec fn condition_result(r: Result<Condition, DbError>) -> Result<ConditionView, DbError> {
    match r {
        Ok(c) => Ok(c@),
        Err(e) => Err(e),
    }
}

/// The condition that a group of fields describes, typed by `schema`.
pub fn build_condition<F: Fn(&str) -> Option<u32>>(
    fields: Vec<(String, String)>,
    schema: &[(String, DataTypes)],
    float_bits: &F,
) -> (res: Result<Condition, DbError>)
    requires
        decoder_total(*float_bits),
    ensures
        forall|fl: spec_fn(Seq<char>) -> Option<u32>|
            decodes_floats_as(*float_bits, fl) ==> condition_result(res) == condition_spec(
                pairs_view(fields@),
                schema_view(schema@),
                fl,
            ),
{
    let column = match get_field(&fields, "column") {
        Some(c) => c.clone(),
        None => return Err(DbError::MalformedRequest),
    };
    let raw_value = match get_field(&fields, "value") {
        Some(v) => v,
        None => return Err(DbError::MalformedRequest),
    };
    let dtype = lookup_type(schema, column.as_str())?;
    let value = coerce_value(raw_value.as_str(), dtype, float_bits)?;
    let operator = match get_field(&fields, "operator") {
        Some(op) => parse_operation(op.as_str())?,
        None => Operator::Equal,
    };
    Ok(Condition { column, value, operator })
}

/// A schema or none, as names and types.
pub open spec fn schema_opt_view(s: Option<&Vec<(String, DataTypes)>>) -> Option<Seq<(Seq<char>, DataTypes)>> {
    match s {
        Some(v) => Some(schema_view(v@)),
        None => None,
    }
}

/// A row's columns and values as mathematical objects.
pub open spec fn row_view(r: Seq<(String, Value)>) -> Seq<(Seq<char>, ValueView)> {
    r.map_values(|p: (String, Value)| (p.0@, p.1@))
}

/// Strings as character sequences.
pub open spec fn strings_view(s: Seq<String>) -> Seq<Seq<char>> {
    s.map_values(|x: String| x@)
}

/// Conditions as mathematical objects.
pub open spec fn conditions_view(s: Seq<Condition>) -> Seq<ConditionView> {
    s.map_values(|c: Condition| c@)
}

/// What reading the columns of a row from position `i` gives: each key and its value,
/// converted by the column's type in `sch`; the row ends at a value token or at the end.
pub open spec fn row_spec(
    ts: Seq<TokenView>,
    i: int,
    sch: Seq<(Seq<char>, DataTypes)>,
    fl: spec_fn(Seq<char>) -> Option<u32>,
    acc: Seq<(Seq<char>, ValueView)>,
) -> Result<(Seq<(Seq<char>, ValueView)>, int), DbError>
    decreases ts.len() - i,
{
    if 0 <= i < ts.len() && ts[i] is Key {
        let col = ts[i]->Key_0;
        let (r, j) = next_value_spec(ts, i);
        match r {
            Err(e) => Err(e),
            Ok(raw) => match schema_lookup(sch, col) {
                Err(e) => Err(e),
                Ok(t) => match coerce_spec(raw, t, fl) {
                    Err(e) => Err(e),
                    Ok(v) => if j <= ts.len() {
                        row_spec(ts, j, sch, fl, acc.push((col, v)))
                    } else {
                        Ok((acc, j))
                    },
                },
            },
        }
    } else {
        Ok((acc, i))
    }
}

/// What reading `column` keys and their values from position `i` gives.
pub open spec fn columns_spec(ts: Seq<TokenView>, i: int, acc: Seq<Seq<char>>) -> Result<(Seq<Seq<char>>, int), DbError>
    decreases ts.len() - i,
{
    if 0 <= i < ts.len() && ts[i] is Key && ts[i]->Key_0 == "column"@ {
        let (r, j) = next_value_spec(ts, i);
        match r {
            Err(e) => Err(e),
            Ok(v) => if j <= ts.len() {
                columns_spec(ts, j, acc.push(v))
            } else {
                Ok((acc, j))
            },
        }
    } else {
        Ok((acc, i))
    }
}

/// What reading schema entries from position `i` gives: groups of a `column` and a `type`,
/// until a group is empty.
pub open spec fn schema_spec(ts: Seq<TokenView>, i: int, acc: Seq<(Seq<char>, DataTypes)>) -> Result<
    (Seq<(Seq<char>, DataTypes)>, int),
    DbError,
>
    decreases ts.len() - i,
{
    let (r, j) = field_group_spec(ts, i, seq!["column"@, "type"@], Seq::empty());
    match r {
        Err(e) => Err(e),
        Ok(fs) => if fs.len() == 0 {
            Ok((acc, j))
        } else {
            match assoc_get(fs, "column"@) {
                None => Err(DbError::MalformedRequest),
                Some(col) => match assoc_get(fs, "type"@) {
                    None => Err(DbError::MalformedRequest),
                    Some(rt) => match data_type_of_name(str_uppercase(rt)) {
                        Err(e) => Err(e),
                        Ok(t) => if i < j <= ts.len() {
                            schema_spec(ts, j, acc.push((col, t)))
                        } else {
                            Ok((acc, j))
                        },
                    },
                },
            }
        },
    }
}

/// What reading conditions from position `i` gives: groups of fields with keys among
/// `expected`, each made into a condition typed by `sch`, in order, until a group is empty.
pub open spec fn conditions_spec(
    ts: Seq<TokenView>,
    i: int,
    expected: Seq<Seq<char>>,
    sch: Seq<(Seq<char>, DataTypes)>,
    fl: spec_fn(Seq<char>) -> Option<u32>,
    acc: Seq<ConditionView>,
) -> Result<(Seq<ConditionView>, int), DbError>
    decreases ts.len() - i,
{
    let (r, j) = field_group_spec(ts, i, expected, Seq::empty());
    match r {
        Err(e) => Err(e),
        Ok(fs) => if fs.len() == 0 {
            Ok((acc, j))
        } else {
            match condition_spec(fs, sch, fl) {
                Err(e) => Err(e),
                Ok(c) => if i < j <= ts.len() {
                    conditions_spec(ts, j, expected, sch, fl, acc.push(c))
                } else {
                    Ok((acc, j))
                },
            }
        },
    }
}

/// Reading a field group from a position in range leaves a position at or after it, and
/// after it when a field was read; never past the end.
pub proof fn lemma_field_group_advances(ts: Seq<TokenView>, i: int, ev: Seq<Seq<char>>, fields: Seq<(Seq<char>, Seq<char>)>)
    requires
        0 <= i <= ts.len(),
    ensures
        i <= field_group_spec(ts, i, ev, fields).1 <= ts.len(),
        field_group_spec(ts, i, ev, fields).0 matches Ok(fs) && fs.len() != fields.len() ==> i < field_group_spec(
            ts,
            i,
            ev,
            fields,
        ).1,
    decreases ts.len() - i,
{
    if fields.len() < ev.len() && 0 <= i < ts.len() && ts[i] is Key && ev.contains(ts[i]->Key_0)
        && assoc_get(fields, ts[i]->Key_0) is None {
        let k = ts[i]->Key_0;
        let (r, j) = next_value_spec(ts, i);
        if r is Ok && j <= ts.len() {
            lemma_field_group_advances(ts, j, ev, assoc_insert(fields, k, r->Ok_0));
        }
    }
}

/// Reading a row leaves a position at or after where it started.
pub proof fn lemma_row_advances(
    ts: Seq<TokenView>,
    i: int,
    sch: Seq<(Seq<char>, DataTypes)>,
    fl: spec_fn(Seq<char>) -> Option<u32>,
    acc: Seq<(Seq<char>, ValueView)>,
)
    requires
        0 <= i <= ts.len(),
    ensures
        row_spec(ts, i, sch, fl, acc) matches Ok((_, j)) ==> i <= j <= ts.len(),
    decreases ts.len() - i,
{
    if 0 <= i < ts.len() && ts[i] is Key {
        let col = ts[i]->Key_0;
        let (r, j) = next_value_spec(ts, i);
        if r is Ok && schema_lookup(sch, col) is Ok && coerce_spec(r->Ok_0, schema_lookup(sch, col)->Ok_0, fl) is Ok
            && j <= ts.len() {
            lemma_row_advances(ts, j, sch, fl, acc.push((col, coerce_spec(r->Ok_0, schema_lookup(sch, col)->Ok_0, fl)->Ok_0)));
        }
    }
}

/// Reading columns leaves a position at or after where it started.
pub proof fn lemma_columns_advances(ts: Seq<TokenView>, i: int, acc: Seq<Seq<char>>)
    requires
        0 <= i <= ts.len(),
    ensures
        columns_spec(ts, i, acc) matches Ok((_, j)) ==> i <= j <= ts.len(),
    decreases ts.len() - i,
{
    if 0 <= i < ts.len() && ts[i] is Key && ts[i]->Key_0 == "column"@ {
        let (r, j) = next_value_spec(ts, i);
        if r is Ok && j <= ts.len() {
            lemma_columns_advances(ts, j, acc.push(r->Ok_0));
        }
    }
}

/// Reading a schema leaves a position at or after where it started.
pub proof fn lemma_schema_advances(ts: Seq<TokenView>, i: int, acc: Seq<(Seq<char>, DataTypes)>)
    requires
        0 <= i <= ts.len(),
    ensures
        schema_spec(ts, i, acc) matches Ok((_, j)) ==> i <= j <= ts.len(),
    decreases ts.len() - i,
{
    lemma_field_group_advances(ts, i, seq!["column"@, "type"@], Seq::empty());
    let (r, j) = field_group_spec(ts, i, seq!["column"@, "type"@], Seq::empty());
    if r is Ok && r->Ok_0.len() != 0 {
        let fs = r->Ok_0;
        let col = assoc_get(fs, "column"@);
        let rt = assoc_get(fs, "type"@);
        if col is Some && rt is Some && data_type_of_name(str_uppercase(rt->Some_0)) is Ok && i < j <= ts.len() {
            lemma_schema_advances(
                ts,
                j,
                acc.push((col->Some_0, data_type_of_name(str_uppercase(rt->Some_0))->Ok_0)),
            );
        }
    }
}

/// Reading conditions leaves a position at or after where it started.
pub proof fn lemma_conditions_advances(
    ts: Seq<TokenView>,
    i: int,
    ev: Seq<Seq<char>>,
    sch: Seq<(Seq<char>, DataTypes)>,
    fl: spec_fn(Seq<char>) -> Option<u32>,
    acc: Seq<ConditionView>,
)
    requires
        0 <= i <= ts.len(),
    ensures
        conditions_spec(ts, i, ev, sch, fl, acc) matches Ok((_, j)) ==> i <= j <= ts.len(),
    decreases ts.len() - i,
{
    lemma_field_group_advances(ts, i, ev, Seq::empty());
    let (r, j) = field_group_spec(ts, i, ev, Seq::empty());
    if r is Ok && r->Ok_0.len() != 0 {
        let c = condition_spec(r->Ok_0, sch, fl);
        if c is Ok && i < j <= ts.len() {
            lemma_conditions_advances(ts, j, ev, sch, fl, acc.push(c->Ok_0));
        }
    }
}

/// A row read or an error, as mathematical objects.
pub open spec fn row_result(r: Result<Vec<(String, Value)>, DbError>) -> Result<Seq<(Seq<char>, ValueView)>, DbError> {
    match r {
        Ok(v) => Ok(row_view(v@)),
        Err(e) => Err(e),
    }
}

/// Reads the columns of a row from position `*i` on, typed by `schema`.
fn read_row<F: Fn(&str) -> Option<u32>>(
    tokens: &[Token],
    i: &mut usize,
    schema: &[(String, DataTypes)],
    float_bits: &F,
) -> (res: Result<Vec<(String, Value)>, DbError>)
    requires
        *old(i) <= tokens@.len(),
        decoder_total(*float_bits),
    ensures
        *old(i) <= *final(i) <= tokens@.len(),
        forall|fl: spec_fn(Seq<char>) -> Option<u32>|
            decodes_floats_as(*float_bits, fl) ==> match row_spec(
                tokens_view(tokens@),
                *old(i) as int,
                schema_view(schema@),
                fl,
                Seq::empty(),
            ) {
                Ok((rv, j)) => res is Ok && row_view(res->Ok_0@) == rv && *final(i) == j,
                Err(e) => res == Err::<Vec<(String, Value)>, DbError>(e),
            },
{
    let ghost ts = tokens_view(tokens@);
    let ghost sv = schema_view(schema@);
    let ghost i0 = *i as int;
    let mut row_vals: Vec<(String, Value)> = Vec::new();
    proof {
        assert(row_view(row_vals@) =~= Seq::<(Seq<char>, ValueView)>::empty());
    }
    while *i < tokens.len()
        invariant_except_break
            ts == tokens_view(tokens@),
            sv == schema_view(schema@),
            i0 == *old(i),
            i0 <= *i <= tokens@.len(),
            decoder_total(*float_bits),
            forall|fl: spec_fn(Seq<char>) -> Option<u32>|
                decodes_floats_as(*float_bits, fl) ==> row_spec(ts, *i as int, sv, fl, row_view(row_vals@))
                    == row_spec(ts, i0, sv, fl, Seq::empty()),
        ensures
            ts == tokens_view(tokens@),
            sv == schema_view(schema@),
            i0 == *old(i),
            i0 <= *i <= tokens@.len(),
            forall|fl: spec_fn(Seq<char>) -> Option<u32>|
                decodes_floats_as(*float_bits, fl) ==> row_spec(ts, i0, sv, fl, Seq::empty()) == Ok::<
                    (Seq<(Seq<char>, ValueView)>, int),
                    DbError,
                >((row_view(row_vals@), *i as int)),
        decreases tokens@.len() - *i,
    {
        proof {
            assert(ts[*i as int] == tokens@[*i as int]@);
        }
        let col = match &tokens[*i] {
            Token::Key(c) => c.clone(),
            Token::Value(_) => break,
        };
        let ghost i_before = *i as int;
        let ghost before = row_vals@;
        let raw = next_value(tokens, i)?;
        let dtype = lookup_type(schema, col.as_str())?;
        let val = coerce_value(raw.as_str(), dtype, float_bits)?;
        row_vals.push((col, val));
        proof {
            assert(row_view(row_vals@) =~= row_view(before).push((col@, val@)));
        }
    }
    Ok(row_vals)
}

/// Reads `column` keys and their values from position `*i` on.
fn read_columns(tokens: &[Token], i: &mut usize) -> (res: Result<Vec<String>, DbError>)
    requires
        *old(i) <= tokens@.len(),
    ensures
        match columns_spec(tokens_view(tokens@), *old(i) as int, Seq::empty()) {
            Ok((cv, j)) => res is Ok && strings_view(res->Ok_0@) == cv && *final(i) == j,
            Err(e) => res == Err::<Vec<String>, DbError>(e),
        },
{
    let ghost ts = tokens_view(tokens@);
    let ghost i0 = *i as int;
    let mut col_vals: Vec<String> = Vec::new();
    proof {
        assert(strings_view(col_vals@) =~= Seq::<Seq<char>>::empty());
    }
    while *i < tokens.len()
        invariant_except_break
            ts == tokens_view(tokens@),
            i0 == *old(i),
            *i <= tokens@.len(),
            columns_spec(ts, *i as int, strings_view(col_vals@)) == columns_spec(ts, i0, Seq::empty()),
        ensures
            ts == tokens_view(tokens@),
            i0 == *old(i),
            *i <= tokens@.len(),
            columns_spec(ts, i0, Seq::empty()) == Ok::<(Seq<Seq<char>>, int), DbError>((strings_view(col_vals@), *i as int)),
        decreases tokens@.len() - *i,
    {
        proof {
            assert(ts[*i as int] == tokens@[*i as int]@);
        }
        let is_column = match &tokens[*i] {
            Token::Key(k) => str_eq(k.as_str(), "column"),
            Token::Value(_) => false,
        };
        if !is_column {
            break;
        }
        let ghost before = col_vals@;
        let val = next_value(tokens, i)?;
        col_vals.push(val);
        proof {
            assert(strings_view(col_vals@) =~= strings_view(before).push(val@));
        }
    }
    Ok(col_vals)
}

/// A schema read or an error, as mathematical objects.
pub open spec fn schema_result(r: Result<Vec<(String, DataTypes)>, DbError>) -> Result<Seq<(Seq<char>, DataTypes)>, DbError> {
    match r {
        Ok(v) => Ok(schema_view(v@)),
        Err(e) => Err(e),
    }
}

/// Reads schema entries, groups of a `column` and a `type`, from position `*i` on.
fn read_schema(tokens: &[Token], i: &mut usize) -> (res: Result<Vec<(String, DataTypes)>, DbError>)
    requires
        *old(i) <= tokens@.len(),
    ensures
        match schema_spec(tokens_view(tokens@), *old(i) as int, Seq::empty()) {
            Ok((sv, j)) => res is Ok && schema_view(res->Ok_0@) == sv && *final(i) == j,
            Err(e) => res == Err::<Vec<(String, DataTypes)>, DbError>(e),
        },
{
    let ghost ts = tokens_view(tokens@);
    let ghost i0 = *i as int;
    let keys: Vec<&str> = vec!["column", "type"];
    let mut schema_vals: Vec<(String, DataTypes)> = Vec::new();
    proof {
        assert(schema_view(schema_vals@) =~= Seq::<(Seq<char>, DataTypes)>::empty());
        assert(keys_view(keys@) =~= seq!["column"@, "type"@]);
    }
    loop
        invariant
            ts == tokens_view(tokens@),
            i0 == *old(i),
            *i <= tokens@.len(),
            keys_view(keys@) == seq!["column"@, "type"@],
            schema_spec(ts, *i as int, schema_view(schema_vals@)) == schema_spec(ts, i0, Seq::empty()),
        decreases tokens@.len() - *i,
    {
        let ghost i_before = *i as int;
        let ghost before = schema_vals@;
        proof {
            lemma_field_group_advances(ts, *i as int, seq!["column"@, "type"@], Seq::empty());
        }
        let fields = read_field_group(tokens, i, keys.as_slice())?;
        if fields.len() == 0 {
            return Ok(schema_vals);
        }
        let col = match get_field(&fields, "column") {
            Some(c) => c.clone(),
            None => return Err(DbError::MalformedRequest),
        };
        let raw_type = match get_field(&fields, "type") {
            Some(t) => t,
            None => return Err(DbError::MalformedRequest),
        };
        let dtype = parse_data_type(raw_type.as_str())?;
        schema_vals.push((col, dtype));
        proof {
            assert(schema_view(schema_vals@) =~= schema_view(before).push((col@, dtype)));
        }
    }
}

/// Reads conditions, groups of fields with keys among `keys`, from position `*i` on, typed
/// by `schema`.
fn read_conditions<F: Fn(&str) -> Option<u32>>(
    tokens: &[Token],
    i: &mut usize,
    keys: &[&str],
    schema: &[(String, DataTypes)],
    float_bits: &F,
) -> (res: Result<Vec<Condition>, DbError>)
    requires
        *old(i) <= tokens@.len(),
        decoder_total(*float_bits),
    ensures
        *old(i) <= *final(i) <= tokens@.len(),
        forall|fl: spec_fn(Seq<char>) -> Option<u32>|
            decodes_floats_as(*float_bits, fl) ==> match conditions_spec(
                tokens_view(tokens@),
                *old(i) as int,
                keys_view(keys@),
                schema_view(schema@),
                fl,
                Seq::empty(),
            ) {
                Ok((cv, j)) => res is Ok && conditions_view(res->Ok_0@) == cv && *final(i) == j,
                Err(e) => res == Err::<Vec<Condition>, DbError>(e),
            },
{
    let ghost ts = tokens_view(tokens@);
    let ghost ev = keys_view(keys@);
    let ghost sv = schema_view(schema@);
    let ghost i0 = *i as int;
    let mut conds: Vec<Condition> = Vec::new();
    proof {
        assert(conditions_view(conds@) =~= Seq::<ConditionView>::empty());
    }
    loop
        invariant
            ts == tokens_view(tokens@),
            ev == keys_view(keys@),
            sv == schema_view(schema@),
            i0 == *old(i),
            i0 <= *i <= tokens@.len(),
            decoder_total(*float_bits),
            forall|fl: spec_fn(Seq<char>) -> Option<u32>|
                decodes_floats_as(*float_bits, fl) ==> conditions_spec(ts, *i as int, ev, sv, fl, conditions_view(conds@))
                    == conditions_spec(ts, i0, ev, sv, fl, Seq::empty()),
        decreases tokens@.len() - *i,
    {
        let ghost i_before = *i as int;
        let ghost before = conds@;
        proof {
            lemma_field_group_advances(ts, *i as int, ev, Seq::empty());
        }
        let fields = read_field_group(tokens, i, keys)?;
        if fields.len() == 0 {
            return Ok(conds);
        }
        let c = build_condition(fields, schema, float_bits)?;
        conds.push(c);
        proof {
            assert(conditions_view(conds@) =~= conditions_view(before).push(c@));
        }
    }
}

/// A parsed query: what it asks for and the parts of the request that came with it.
#[derive(Debug)]
pub struct Query {
    pub table_name: Option<String>,
    pub db_name: Option<String>,
    pub task: QueryOperation,
    pub row: Option<Vec<(String, Value)>>,
    pub columns: Option<Vec<String>>,
    pub conditions: Option<Vec<Condition>>,
    pub updates: Option<Vec<Condition>>,
    pub schema: Option<Vec<(String, DataTypes)>>,
}

/// What parsing has gathered, as mathematical objects; a query's view has its task.
pub struct ParseState {
    pub table_name: Option<Seq<char>>,
    pub db_name: Option<Seq<char>>,
    pub task: Option<QueryOperation>,
    pub row: Option<Seq<(Seq<char>, ValueView)>>,
    pub columns: Option<Seq<Seq<char>>>,
    pub conditions: Option<Seq<ConditionView>>,
    pub updates: Option<Seq<ConditionView>>,
    pub schema: Option<Seq<(Seq<char>, DataTypes)>>,
}

/// Optional string as characters.
pub open spec fn opt_str(o: Option<String>) -> Option<Seq<char>> {
    match o {
        Some(s) => Some(s@),
        None => None,
    }
}

/// Optional row as mathematical objects.
pub open spec fn opt_row(o: Option<Vec<(String, Value)>>) -> Option<Seq<(Seq<char>, ValueView)>> {
    match o {
        Some(r) => Some(row_view(r@)),
        None => None,
    }
}

/// Optional list of strings as characters.
pub open spec fn opt_strings(o: Option<Vec<String>>) -> Option<Seq<Seq<char>>> {
    match o {
        Some(v) => Some(strings_view(v@)),
        None => None,
    }
}

/// Optional conditions as mathematical objects.
pub open spec fn opt_conditions(o: Option<Vec<Condition>>) -> Option<Seq<ConditionView>> {
    match o {
        Some(v) => Some(conditions_view(v@)),
        None => None,
    }
}

/// Optional schema as names and types.
pub open spec fn opt_schema(o: Option<Vec<(String, DataTypes)>>) -> Option<Seq<(Seq<char>, DataTypes)>> {
    match o {
        Some(v) => Some(schema_view(v@)),
        None => None,
    }
}

impl View for Query {
    type V = ParseState;

    open spec fn view(&self) -> ParseState {
        ParseState {
            table_name: opt_str(self.table_name),
            db_name: opt_str(self.db_name),
            task: Some(self.task),
            row: opt_row(self.row),
            columns: opt_strings(self.columns),
            conditions: opt_conditions(self.conditions),
            updates: opt_conditions(self.updates),
            schema: opt_schema(self.schema),
        }
    }
}

/// Nothing gathered yet.
pub open spec fn empty_state() -> ParseState {
    ParseState {
        table_name: None,
        db_name: None,
        task: None,
        row: None,
        columns: None,
        conditions: None,
        updates: None,
        schema: None,
    }
}

/// What parsing the tokens from position `i` on, with `st` gathered so far, gives. Each key
/// takes what follows it: `table_name`, `db_name` and `task` a value; `row` the columns of a
/// row, `conditions` a list of conditions, `updates` a non-empty list of column and value
/// pairs, `columns` a list of names and `schema` a list of columns and types (those that
/// hold values need a schema); an unknown key skips a value that follows it. A value where a key should be is `MalformedRequest`.
pub open spec fn parse_loop(
    ts: Seq<TokenView>,
    i: int,
    st: ParseState,
    sch: Option<Seq<(Seq<char>, DataTypes)>>,
    fl: spec_fn(Seq<char>) -> Option<u32>,
) -> Result<ParseState, DbError>
    decreases ts.len() - i,
{
    if !(0 <= i < ts.len()) {
        Ok(st)
    } else if ts[i] is Value {
        Err(DbError::MalformedRequest)
    } else {
        let key = ts[i]->Key_0;
        if key == "table_name"@ {
            let (r, j) = next_value_spec(ts, i);
            match r {
                Err(e) => Err(e),
                Ok(v) => parse_loop(ts, j, ParseState { table_name: Some(v), ..st }, sch, fl),
            }
        } else if key == "db_name"@ {
            let (r, j) = next_value_spec(ts, i);
            match r {
                Err(e) => Err(e),
                Ok(v) => parse_loop(ts, j, ParseState { db_name: Some(v), ..st }, sch, fl),
            }
        } else if key == "task"@ {
            let (r, j) = next_value_spec(ts, i);
            match r {
                Err(e) => Err(e),
                Ok(v) => match task_of_name(v) {
                    Err(e) => Err(e),
                    Ok(t) => parse_loop(ts, j, ParseState { task: Some(t), ..st }, sch, fl),
                },
            }
        } else if key == "row"@ {
            match sch {
                None => Err(DbError::InsufficientParams),
                Some(s) => match row_spec(ts, i + 1, s, fl, Seq::empty()) {
                    Err(e) => Err(e),
                    Ok((rv, j)) => if i < j <= ts.len() {
                        parse_loop(ts, j, ParseState { row: Some(rv), ..st }, sch, fl)
                    } else {
                        Ok(st)
                    },
                },
            }
        } else if key == "conditions"@ {
            match sch {
                None => Err(DbError::InsufficientParams),
                Some(s) => match conditions_spec(ts, i + 1, seq!["column"@, "operator"@, "value"@], s, fl, Seq::empty()) {
                    Err(e) => Err(e),
                    Ok((cv, j)) => if i < j <= ts.len() {
                        parse_loop(ts, j, ParseState { conditions: Some(cv), ..st }, sch, fl)
                    } else {
                        Ok(st)
                    },
                },
            }
        } else if key == "updates"@ {
            match sch {
                None => Err(DbError::InsufficientParams),
                Some(s) => match conditions_spec(ts, i + 1, seq!["column"@, "value"@], s, fl, Seq::empty()) {
                    Err(e) => Err(e),
                    Ok((uv, j)) => if uv.len() == 0 {
                        Err(DbError::MalformedRequest)
                    } else if i < j <= ts.len() {
                        parse_loop(ts, j, ParseState { updates: Some(uv), ..st }, sch, fl)
                    } else {
                        Ok(st)
                    },
                },
            }
        } else if key == "columns"@ {
            match columns_spec(ts, i + 1, Seq::empty()) {
                Err(e) => Err(e),
                Ok((cv, j)) => if i < j <= ts.len() {
                    parse_loop(ts, j, ParseState { columns: Some(cv), ..st }, sch, fl)
                } else {
                    Ok(st)
                },
            }
        } else if key == "schema"@ {
            match schema_spec(ts, i + 1, Seq::empty()) {
                Err(e) => Err(e),
                Ok((sv, j)) => if i < j <= ts.len() {
                    parse_loop(ts, j, ParseState { schema: Some(sv), ..st }, sch, fl)
                } else {
                    Ok(st)
                },
            }
        } else {
            let j = if i + 1 < ts.len() && ts[i + 1] is Value {
                i + 2
            } else {
                i + 1
            };
            parse_loop(ts, j, st, sch, fl)
        }
    }
}

/// What parsing the query text `q` against the schema `sch` gives, with float text decoded
/// by `fl`: the gathered parts, or the first error met; a query without a task is
/// `MalformedRequest`.
pub open spec fn parse_query(
    q: Seq<char>,
    sch: Option<Seq<(Seq<char>, DataTypes)>>,
    fl: spec_fn(Seq<char>) -> Option<u32>,
) -> Result<ParseState, DbError> {
    match parse_loop(lex(q), 0, empty_state(), sch, fl) {
        Err(e) => Err(e),
        Ok(st) => if st.task is None {
            Err(DbError::MalformedRequest)
        } else {
            Ok(st)
        },
    }
}

/// The parts of a query gathered so far.
pub struct QueryParts {
    pub table_name: Option<String>,
    pub db_name: Option<String>,
    pub task: Option<QueryOperation>,
    pub row: Option<Vec<(String, Value)>>,
    pub columns: Option<Vec<String>>,
    pub conditions: Option<Vec<Condition>>,
    pub updates: Option<Vec<Condition>>,
    pub schema: Option<Vec<(String, DataTypes)>>,
}

impl View for QueryParts {
    type V = ParseState;

    open spec fn view(&self) -> ParseState {
        ParseState {
            table_name: opt_str(self.table_name),
            db_name: opt_str(self.db_name),
            task: self.task,
            row: opt_row(self.row),
            columns: opt_strings(self.columns),
            conditions: opt_conditions(self.conditions),
            updates: opt_conditions(self.updates),
            schema: opt_schema(self.schema),
        }
    }
}

/// One step of parsing from `i0` with `st0` gathered leads on to `i` with `st`, or ends in
/// `outcome`'s error, for the float decoding `fl`.
pub open spec fn step_ok(
    ts: Seq<TokenView>,
    i0: int,
    st0: ParseState,
    i: int,
    st: ParseState,
    outcome: Result<(), DbError>,
    sch: Option<Seq<(Seq<char>, DataTypes)>>,
    fl: spec_fn(Seq<char>) -> Option<u32>,
) -> bool {
    match outcome {
        Ok(()) => parse_loop(ts, i, st, sch, fl) == parse_loop(ts, i0, st0, sch, fl),
        Err(e) => parse_loop(ts, i0, st0, sch, fl) == Err::<ParseState, DbError>(e),
    }
}

/// Parses the key at `*i` and what follows it into `parts`.
#[verifier::rlimit(100)]
fn parse_key<F: Fn(&str) -> Option<u32>>(
    tokens: &[Token],
    i: &mut usize,
    parts: &mut QueryParts,
    schema: Option<&Vec<(String, DataTypes)>>,
    float_bits: &F,
) -> (outcome: Result<(), DbError>)
    requires
        *old(i) < tokens@.len(),
        decoder_total(*float_bits),
    ensures
        outcome is Ok ==> *old(i) < *final(i) <= tokens@.len(),
        forall|fl: spec_fn(Seq<char>) -> Option<u32>|
            decodes_floats_as(*float_bits, fl) ==> step_ok(
                tokens_view(tokens@),
                *old(i) as int,
                old(parts)@,
                *final(i) as int,
                final(parts)@,
                outcome,
                schema_opt_view(schema),
                fl,
            ),
{
    let ghost ts = tokens_view(tokens@);
    let ghost sv = schema_opt_view(schema);
    proof {
        assert(ts[*i as int] == tokens@[*i as int]@);
    }
    let key = match &tokens[*i] {
        Token::Value(_) => return Err(DbError::MalformedRequest),
        Token::Key(key) => key,
    };
    if str_eq(key.as_str(), "table_name") {
        let v = next_value(tokens, i)?;
        parts.table_name = Some(v);
        Ok(())
    } else if str_eq(key.as_str(), "db_name") {
        let v = next_value(tokens, i)?;
        parts.db_name = Some(v);
        Ok(())
    } else if str_eq(key.as_str(), "task") {
        let v = next_value(tokens, i)?;
        let t = task_named(v.as_str())?;
        parts.task = Some(t);
        Ok(())
    } else if str_eq(key.as_str(), "row") {
        *i = *i + 1;
        let schema = match schema {
            Some(s) => s,
            None => return Err(DbError::InsufficientParams),
        };
        proof {
            assert forall|fl: spec_fn(Seq<char>) -> Option<u32>|
                decodes_floats_as(*float_bits, fl) implies #[trigger] row_spec(
                    ts,
                    *i as int,
                    schema_view(schema@),
                    fl,
                    Seq::empty(),
                ) matches Ok((_, j)) ==> *i <= j <= ts.len() by {
                lemma_row_advances(ts, *i as int, schema_view(schema@), fl, Seq::empty());
            }
        }
        let row_vals = read_row(tokens, i, schema.as_slice(), float_bits)?;
        parts.row = Some(row_vals);
        Ok(())
    } else if str_eq(key.as_str(), "conditions") {
        *i = *i + 1;
        let schema = match schema {
            Some(s) => s,
            None => return Err(DbError::InsufficientParams),
        };
        let cond_keys: Vec<&str> = vec!["column", "operator", "value"];
        proof {
            assert(keys_view(cond_keys@) =~= seq!["column"@, "operator"@, "value"@]);
            assert forall|fl: spec_fn(Seq<char>) -> Option<u32>|
                decodes_floats_as(*float_bits, fl) implies #[trigger] conditions_spec(
                    ts,
                    *i as int,
                    keys_view(cond_keys@),
                    schema_view(schema@),
                    fl,
                    Seq::empty(),
                ) matches Ok((_, j)) ==> *i <= j <= ts.len() by {
                lemma_conditions_advances(ts, *i as int, keys_view(cond_keys@), schema_view(schema@), fl, Seq::empty());
            }
        }
        let conds = read_conditions(tokens, i, cond_keys.as_slice(), schema.as_slice(), float_bits)?;
        parts.conditions = Some(conds);
        Ok(())
    } else if str_eq(key.as_str(), "updates") {
        *i = *i + 1;
        let schema = match schema {
            Some(s) => s,
            None => return Err(DbError::InsufficientParams),
        };
        let update_keys: Vec<&str> = vec!["column", "value"];
        proof {
            assert(keys_view(update_keys@) =~= seq!["column"@, "value"@]);
            assert forall|fl: spec_fn(Seq<char>) -> Option<u32>|
                decodes_floats_as(*float_bits, fl) implies #[trigger] conditions_spec(
                    ts,
                    *i as int,
                    keys_view(update_keys@),
                    schema_view(schema@),
                    fl,
                    Seq::empty(),
                ) matches Ok((_, j)) ==> *i <= j <= ts.len() by {
                lemma_conditions_advances(ts, *i as int, keys_view(update_keys@), schema_view(schema@), fl, Seq::empty());
            }
        }
        let ups = read_conditions(tokens, i, update_keys.as_slice(), schema.as_slice(), float_bits)?;
        if ups.len() == 0 {
            return Err(DbError::MalformedRequest);
        }
        parts.updates = Some(ups);
        Ok(())
    } else if str_eq(key.as_str(), "columns") {
        *i = *i + 1;
        proof {
            lemma_columns_advances(ts, *i as int, Seq::empty());
        }
        let col_vals = read_columns(tokens, i)?;
        parts.columns = Some(col_vals);
        Ok(())
    } else if str_eq(key.as_str(), "schema") {
        *i = *i + 1;
        proof {
            lemma_schema_advances(ts, *i as int, Seq::empty());
        }
        let schema_vals = read_schema(tokens, i)?;
        parts.schema = Some(schema_vals);
        Ok(())
    } else {
        *i = *i + 1;
        if *i < tokens.len() {
            proof {
                assert(ts[*i as int] == tokens@[*i as int]@);
            }
            if let Token::Value(_) = &tokens[*i] {
                *i = *i + 1;
            }
        }
        Ok(())
    }
}

/// Parses a query, typing the values it holds by `schema`; float text goes through
/// `float_bits`.
pub fn parse<F: Fn(&str) -> Option<u32>>(
    query: String,
    schema: Option<&Vec<(String, DataTypes)>>,
    float_bits: &F,
) -> (res: Result<Query, DbError>)
    requires
        decoder_total(*float_bits),
    ensures
        forall|fl: spec_fn(Seq<char>) -> Option<u32>|
            decodes_floats_as(*float_bits, fl) ==> match parse_query(query@, schema_opt_view(schema), fl) {
                Ok(qv) => res is Ok && res->Ok_0@ == qv,
                Err(e) => res == Err::<Query, DbError>(e),
            },
{
    let ghost q = query@;
    let tokens = lexer(query)?;
    let ghost ts = tokens_view(tokens@);
    let ghost sv = schema_opt_view(schema);
    let mut parts = QueryParts {
        table_name: None,
        db_name: None,
        task: None,
        row: None,
        columns: None,
        conditions: None,
        updates: None,
        schema: None,
    };
    let mut i: usize = 0;
    while i < tokens.len()
        invariant
            ts == tokens_view(tokens@),
            q == query@,
            ts == lex(q),
            sv == schema_opt_view(schema),
            decoder_total(*float_bits),
            i <= tokens@.len(),
            forall|fl: spec_fn(Seq<char>) -> Option<u32>|
                decodes_floats_as(*float_bits, fl) ==> parse_loop(ts, i as int, parts@, sv, fl) == parse_loop(
                    ts,
                    0,
                    empty_state(),
                    sv,
                    fl,
                ),
        decreases tokens@.len() - i,
    {
        let ghost i0 = i as int;
        let ghost st0 = parts@;
        let outcome = parse_key(tokens.as_slice(), &mut i, &mut parts, schema, float_bits);
        proof {
            assert forall|fl: spec_fn(Seq<char>) -> Option<u32>| decodes_floats_as(*float_bits, fl) implies step_ok(
                ts,
                i0,
                st0,
                i as int,
                parts@,
                outcome,
                sv,
                fl,
            ) && parse_loop(ts, i0, st0, sv, fl) == parse_loop(ts, 0, empty_state(), sv, fl) by {
            }
        }
        if let Err(e) = outcome {
            proof {
                assert forall|fl: spec_fn(Seq<char>) -> Option<u32>|
                    decodes_floats_as(*float_bits, fl) implies parse_query(q, sv, fl) == Err::<ParseState, DbError>(e) by {
                    assert(step_ok(ts, i0, st0, i as int, parts@, outcome, sv, fl));
                    assert(parse_loop(ts, i0, st0, sv, fl) == parse_loop(ts, 0, empty_state(), sv, fl));
                }
            }
            return Err(e);
        }
    }
    let task = match parts.task {
        Some(t) => t,
        None => return Err(DbError::MalformedRequest),
    };
    Ok(
        Query {
            table_name: parts.table_name,
            db_name: parts.db_name,
            task,
            row: parts.row,
            columns: parts.columns,
            conditions: parts.conditions,
            updates: parts.updates,
            schema: parts.schema,
        },
    )
}

} // verus!
