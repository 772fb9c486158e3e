use vstd::prelude::*;
use crate::db_errors::DbError;
use crate::parser::{Query, QueryOperation};
use crate::tables::{Condition, DataTypes, Value, ValueView, row_view};
use crate::parser::{escaped, escape_json_string};

verus! {

/// What a query asks the database to do, with everything it needs for that.
pub enum Command {
    DeleteTable { table_name: String },
    CreateTable { table_name: String, schema: Vec<(String, DataTypes)> },
    CreateDB { db_name: String },
    DropDB { db_name: String },
    Insert { table_name: String, row: Vec<(String, Value)> },
    Update { table_name: String, conditions: Vec<Condition>, updates: Vec<Condition> },
    Select { table_name: String, conditions: Vec<Condition>, columns: Vec<String> },
    Delete { table_name: String, conditions: Vec<Condition> },
    GetSchema { name: Option<String> },
    Shutdown,
}

/// The command a query stands for: each task takes the parts it needs, in the order
/// checked here, and a missing one is `InsufficientParams`.
pub open spec fn planned(q: Query) -> Result<Command, DbError> {
    match q.task {
        QueryOperation::DeleteTable => match q.table_name {
            None => Err(DbError::InsufficientParams),
            Some(t) => Ok(Command::DeleteTable { table_name: t }),
        },
        QueryOperation::CreateTable => match (q.table_name, q.schema) {
            (Some(t), Some(s)) => Ok(Command::CreateTable { table_name: t, schema: s }),
            _ => Err(DbError::InsufficientParams),
        },
        QueryOperation::CreateDB => match q.db_name {
            None => Err(DbError::InsufficientParams),
            Some(d) => Ok(Command::CreateDB { db_name: d }),
        },
        QueryOperation::DropDB => match q.db_name {
            None => Err(DbError::InsufficientParams),
            Some(d) => Ok(Command::DropDB { db_name: d }),
        },
        QueryOperation::Insert => match (q.table_name, q.row) {
            (Some(t), Some(r)) => Ok(Command::Insert { table_name: t, row: r }),
            _ => Err(DbError::InsufficientParams),
        },
        QueryOperation::Update => match (q.table_name, q.conditions, q.updates) {
            (Some(t), Some(c), Some(u)) => Ok(Command::Update { table_name: t, conditions: c, updates: u }),
            _ => Err(DbError::InsufficientParams),
        },
        QueryOperation::Select => match (q.table_name, q.conditions, q.columns) {
            (Some(t), Some(c), Some(cols)) => Ok(Command::Select { table_name: t, conditions: c, columns: cols }),
            _ => Err(DbError::InsufficientParams),
        },
        QueryOperation::Delete => match (q.table_name, q.conditions) {
            (Some(t), Some(c)) => Ok(Command::Delete { table_name: t, conditions: c }),
            _ => Err(DbError::InsufficientParams),
        },
        QueryOperation::GetSchema => Ok(Command::GetSchema { name: q.table_name }),
        QueryOperation::Shutdown => Ok(Command::Shutdown),
    }
}

/// The command that a parsed query stands for; `InsufficientParams` when the query lacks
/// a part its task needs.
pub fn plan(query: Query) -> (res: Result<Command, DbError>)
    ensures
        res == planned(query),
{
    match query.task {
        QueryOperation::DeleteTable => {
            let table_name = match query.table_name {
                Some(t) => t,
                None => return Err(DbError::InsufficientParams),
            };
            Ok(Command::DeleteTable { table_name })
        },
        QueryOperation::CreateTable => {
            let table_name = match query.table_name {
                Some(t) => t,
                None => return Err(DbError::InsufficientParams),
            };
            let schema = match query.schema {
                Some(s) => s,
                None => return Err(DbError::InsufficientParams),
            };
            Ok(Command::CreateTable { table_name, schema })
        },
        QueryOperation::CreateDB => {
            let db_name = match query.db_name {
                Some(d) => d,
                None => return Err(DbError::InsufficientParams),
            };
            Ok(Command::CreateDB { db_name })
        },
        QueryOperation::DropDB => {
            let db_name = match query.db_name {
                Some(d) => d,
                None => return Err(DbError::InsufficientParams),
            };
            Ok(Command::DropDB { db_name })
        },
        QueryOperation::Insert => {
            let table_name = match query.table_name {
                Some(t) => t,
                None => return Err(DbError::InsufficientParams),
            };
            let row = match query.row {
                Some(r) => r,
                None => return Err(DbError::InsufficientParams),
            };
            Ok(Command::Insert { table_name, row })
        },
        QueryOperation::Update => {
            let table_name = match query.table_name {
                Some(t) => t,
                None => return Err(DbError::InsufficientParams),
            };
            let conditions = match query.conditions {
                Some(c) => c,
                None => return Err(DbError::InsufficientParams),
            };
            let updates = match query.updates {
                Some(u) => u,
                None => return Err(DbError::InsufficientParams),
            };
            Ok(Command::Update { table_name, conditions, updates })
        },
        QueryOperation::Select => {
            let table_name = match query.table_name {
                Some(t) => t,
                None => return Err(DbError::InsufficientParams),
            };
            let conditions = match query.conditions {
                Some(c) => c,
                None => return Err(DbError::InsufficientParams),
            };
            let columns = match query.columns {
                Some(c) => c,
                None => return Err(DbError::InsufficientParams),
            };
            Ok(Command::Select { table_name, conditions, columns })
        },
        QueryOperation::Delete => {
            let table_name = match query.table_name {
                Some(t) => t,
                None => return Err(DbError::InsufficientParams),
            };
            let conditions = match query.conditions {
                Some(c) => c,
                None => return Err(DbError::InsufficientParams),
            };
            Ok(Command::Delete { table_name, conditions })
        },
        QueryOperation::GetSchema => Ok(Command::GetSchema { name: query.table_name }),
        QueryOperation::Shutdown => Ok(Command::Shutdown),
    }
}

/// What the database answers to a query that succeeded.
pub enum QueryResult {
    Success,
    Dropped,
    Count(usize),
    Rows(Vec<Vec<(String, Value)>>),
}

/// The outcome of dropping database `db_name` while `current` is open: dropping the open
/// database ends its service.
pub fn drop_result(db_name: &str, current: &str) -> (r: QueryResult)
    ensures
        db_name@ == current@ ==> r is Dropped,
        db_name@ != current@ ==> r is Success,
{
    if crate::parser::str_eq(db_name, current) {
        QueryResult::Dropped
    } else {
        QueryResult::Success
    }
}

/// The character of decimal digit `d`.
pub open spec fn digit_char(d: int) -> char {
    if d == 0 {
        '0'
    } else if d == 1 {
        '1'
    } else if d == 2 {
        '2'
    } else if d == 3 {
        '3'
    } else if d == 4 {
        '4'
    } else if d == 5 {
        '5'
    } else if d == 6 {
        '6'
    } else if d == 7 {
        '7'
    } else if d == 8 {
        '8'
    } else {
        '9'
    }
}

/// The decimal digits of `n`, without leading zeros.
pub open spec fn decimal(n: nat) -> Seq<char>
    decreases n,
{
    if n < 10 {
        seq![digit_char(n as int)]
    } else {
        decimal(n / 10).push(digit_char((n % 10) as int))
    }
}

/// The decimal form of `n`, with a minus sign when it is negative.
pub open spec fn signed_decimal(n: int) -> Seq<char> {
    if n < 0 {
        seq!['-'] + decimal((-n) as nat)
    } else {
        decimal(n as nat)
    }
}

fn digit_of(d: u64) -> (c: char)
    requires
        d < 10,
    ensures
        c == digit_char(d as int),
{
    match d {
        0 => '0',
        1 => '1',
        2 => '2',
        3 => '3',
        4 => '4',
        5 => '5',
        6 => '6',
        7 => '7',
        8 => '8',
        _ => '9',
    }
}

/// Appends the decimal digits of `n`.
fn push_decimal(s: &mut String, n: u64)
    ensures
        final(s)@ == old(s)@ + decimal(n as nat),
    decreases n,
{
    if n >= 10 {
        push_decimal(s, n / 10);
    }
    crate::parser::push_char(s, digit_of(n % 10));
    proof {
        if n < 10 {
            assert(decimal(n as nat) == seq![digit_char(n as int)]);
        }
    }
}

/// Appends the decimal form of `n`, with a minus sign when it is negative.
fn push_signed(s: &mut String, n: i32)
    ensures
        final(s)@ == old(s)@ + signed_decimal(n as int),
{
    if n < 0 {
        crate::parser::push_char(s, '-');
        let m: u64 = (0 - (n as i64)) as u64;
        push_decimal(s, m);
        assert(final(s)@ =~= old(s)@ + (seq!['-'] + decimal((-n) as nat)));
    } else {
        push_decimal(s, n as u64);
    }
}

/// `f` may be called on any float bit pattern.
pub open spec fn float_text_total<G: Fn(u32) -> String>(g: G) -> bool {
    forall|b: u32| #[trigger] call_requires(g, (b,))
}

/// `g` writes float bit patterns as `ft` says.
pub open spec fn writes_floats_as<G: Fn(u32) -> String>(g: G, ft: spec_fn(u32) -> Seq<char>) -> bool {
    forall|b: u32, r: String| #[trigger] call_ensures(g, (b,), r) ==> r@ == ft(b)
}

/// A value in an answer: numbers in decimal, floats as `ft` writes them, text quoted and
/// escaped.
pub open spec fn value_json(v: ValueView, ft: spec_fn(u32) -> Seq<char>) -> Seq<char> {
    match v {
        ValueView::Int32(x) => signed_decimal(x as int),
        ValueView::Uint32(x) => decimal(x as nat),
        ValueView::Float32(b) => ft(b),
        ValueView::Varchar(s) => seq!['"'] + escaped(s) + seq!['"'],
    }
}

/// A column of a row in an answer.
pub open spec fn field_json(col: Seq<char>, v: ValueView, ft: spec_fn(u32) -> Seq<char>) -> Seq<char> {
    "{\"column\":\""@ + escaped(col) + "\",\"value\":"@ + value_json(v, ft) + "}"@
}

/// Parts joined with commas.
pub open spec fn joined(parts: Seq<Seq<char>>) -> Seq<char>
    decreases parts.len(),
{
    if parts.len() == 0 {
        Seq::empty()
    } else if parts.len() == 1 {
        parts[0]
    } else {
        joined(parts.drop_last()) + seq![','] + parts.last()
    }
}

/// A row in an answer: its columns in brackets.
pub open spec fn row_json(row: Seq<(Seq<char>, ValueView)>, ft: spec_fn(u32) -> Seq<char>) -> Seq<char> {
    seq!['['] + joined(row.map_values(|p: (Seq<char>, ValueView)| field_json(p.0, p.1, ft))) + seq![']']
}

/// The answer to a query that succeeded.
pub open spec fn result_json(r: QueryResult, ft: spec_fn(u32) -> Seq<char>) -> Seq<char> {
    match r {
        QueryResult::Success => "{\"success\":true,\"type\":\"success\"}"@,
        QueryResult::Dropped => "{\"success\":true,\"type\":\"success\"}"@,
        QueryResult::Count(c) => "{\"success\":true,\"type\":\"count\",\"count\":"@ + decimal(c as nat) + "}"@,
        QueryResult::Rows(rows) => "{\"success\":true,\"type\":\"rows\",\"rows\":["@ + joined(
            rows@.map_values(|r: Vec<(String, Value)>| row_json(row_view(r@), ft)),
        ) + "]}"@,
    }
}

proof fn lemma_joined_step(parts: Seq<Seq<char>>, i: int)
    requires
        0 <= i < parts.len(),
    ensures
        joined(parts.take(i + 1)) == joined(parts.take(i)) + (if i == 0 {
            Seq::<char>::empty()
        } else {
            seq![',']
        }) + parts[i],
{
    let t = parts.take(i + 1);
    assert(t.drop_last() =~= parts.take(i));
    if i == 0 {
        assert(joined(parts.take(0)) =~= Seq::<char>::empty());
        assert(Seq::<char>::empty() + Seq::<char>::empty() + parts[0] =~= parts[0]);
    }
}

/// Appends a value as an answer writes it.
fn push_value<G: Fn(u32) -> String>(s: &mut String, v: &Value, float_text: &G)
    requires
        float_text_total(*float_text),
    ensures
        forall|ft: spec_fn(u32) -> Seq<char>|
            writes_floats_as(*float_text, ft) ==> final(s)@ == old(s)@ + value_json(v@, ft),
{
    match v {
        Value::Int32(x) => push_signed(s, *x),
        Value::Uint32(x) => push_decimal(s, *x as u64),
        Value::Float32(b) => {
            let t = float_text(*b);
            crate::parser::push_all(s, t.as_str());
        },
        Value::Varchar(t) => {
            crate::parser::push_char(s, '"');
            let e = escape_json_string(t.as_str());
            crate::parser::push_all(s, e.as_str());
            crate::parser::push_char(s, '"');
            assert(s@ =~= old(s)@ + (seq!['"'] + escaped(t@) + seq!['"']));
        },
    }
}

/// Appends a row as an answer writes it.
fn push_row<G: Fn(u32) -> String>(s: &mut String, row: &Vec<(String, Value)>, float_text: &G)
    requires
        float_text_total(*float_text),
    ensures
        forall|ft: spec_fn(u32) -> Seq<char>|
            writes_floats_as(*float_text, ft) ==> final(s)@ == old(s)@ + row_json(row_view(row@), ft),
{
    let ghost rv = row_view(row@);
    crate::parser::push_char(s, '[');
    let ghost start = s@;
    let mut i: usize = 0;
    while i < row.len()
        invariant
            i <= row@.len(),
            rv == row_view(row@),
            float_text_total(*float_text),
            start == old(s)@.push('['),
            forall|ft: spec_fn(u32) -> Seq<char>|
                writes_floats_as(*float_text, ft) ==> s@ == start + joined(
                    rv.map_values(|p: (Seq<char>, ValueView)| field_json(p.0, p.1, ft)).take(i as int),
                ),
        decreases row@.len() - i,
    {
        let ghost before = s@;
        if i > 0 {
            crate::parser::push_char(s, ',');
        }
        crate::parser::push_all(s, "{\"column\":\"");
        let col = escape_json_string(row[i].0.as_str());
        crate::parser::push_all(s, col.as_str());
        crate::parser::push_all(s, "\",\"value\":");
        let ghost mid = s@;
        push_value(s, &row[i].1, float_text);
        crate::parser::push_all(s, "}");
        proof {
            assert forall|ft: spec_fn(u32) -> Seq<char>| writes_floats_as(*float_text, ft) implies s@ == start + joined(
                rv.map_values(|p: (Seq<char>, ValueView)| field_json(p.0, p.1, ft)).take(i + 1),
            ) by {
                let parts = rv.map_values(|p: (Seq<char>, ValueView)| field_json(p.0, p.1, ft));
                lemma_joined_step(parts, i as int);
                assert(rv[i as int] == (row@[i as int].0@, row@[i as int].1@));
                assert(parts[i as int] == field_json(row@[i as int].0@, row@[i as int].1@, ft));
                assert(s@ =~= before + (if i == 0 {
                    Seq::<char>::empty()
                } else {
                    seq![',']
                }) + parts[i as int]);
            }
        }
        i = i + 1;
    }
    crate::parser::push_char(s, ']');
    proof {
        assert forall|ft: spec_fn(u32) -> Seq<char>| writes_floats_as(*float_text, ft) implies s@ == old(s)@
            + row_json(rv, ft) by {
            let parts = rv.map_values(|p: (Seq<char>, ValueView)| field_json(p.0, p.1, ft));
            assert(parts.take(rv.len() as int) =~= parts);
        }
    }
}

/// The JSON answer to a query that succeeded; float values are written by `float_text`.
pub fn encode_query_result<G: Fn(u32) -> String>(result: &QueryResult, float_text: &G) -> (out: String)
    requires
        float_text_total(*float_text),
    ensures
        forall|ft: spec_fn(u32) -> Seq<char>| writes_floats_as(*float_text, ft) ==> out@ == result_json(*result, ft),
{
    let mut out = String::new();
    match result {
        QueryResult::Success => {
            crate::parser::push_all(&mut out, "{\"success\":true,\"type\":\"success\"}");
        },
        QueryResult::Dropped => {
            crate::parser::push_all(&mut out, "{\"success\":true,\"type\":\"success\"}");
        },
        QueryResult::Count(c) => {
            crate::parser::push_all(&mut out, "{\"success\":true,\"type\":\"count\",\"count\":");
            push_decimal(&mut out, *c as u64);
            crate::parser::push_all(&mut out, "}");
        },
        QueryResult::Rows(rows) => {
            crate::parser::push_all(&mut out, "{\"success\":true,\"type\":\"rows\",\"rows\":[");
            let ghost start = out@;
            let mut i: usize = 0;
            while i < rows.len()
                invariant
                    i <= rows@.len(),
                    float_text_total(*float_text),
                    start == "{\"success\":true,\"type\":\"rows\",\"rows\":["@,
                    forall|ft: spec_fn(u32) -> Seq<char>|
                        writes_floats_as(*float_text, ft) ==> out@ == start + joined(
                            rows@.map_values(|r: Vec<(String, Value)>| row_json(row_view(r@), ft)).take(i as int),
                        ),
                decreases rows@.len() - i,
            {
                let ghost before = out@;
                if i > 0 {
                    crate::parser::push_char(&mut out, ',');
                }
                push_row(&mut out, &rows[i], float_text);
                proof {
                    assert forall|ft: spec_fn(u32) -> Seq<char>| writes_floats_as(*float_text, ft) implies out@
                        == start + joined(
                        rows@.map_values(|r: Vec<(String, Value)>| row_json(row_view(r@), ft)).take(i + 1),
                    ) by {
                        let parts = rows@.map_values(|r: Vec<(String, Value)>| row_json(row_view(r@), ft));
                        lemma_joined_step(parts, i as int);
                        assert(out@ =~= before + (if i == 0 {
                            Seq::<char>::empty()
                        } else {
                            seq![',']
                        }) + parts[i as int]);
                    }
                }
                i = i + 1;
            }
            crate::parser::push_all(&mut out, "]}");
            proof {
                assert forall|ft: spec_fn(u32) -> Seq<char>| writes_floats_as(*float_text, ft) implies out@
                    == result_json(*result, ft) by {
                    let parts = rows@.map_values(|r: Vec<(String, Value)>| row_json(row_view(r@), ft));
                    assert(parts.take(rows@.len() as int) =~= parts);
                }
            }
        },
    }
    out
}

} // verus!
