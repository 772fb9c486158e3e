use rustdb::db_errors::DbError;
use rustdb::parser::{
    build_condition, coerce_value, encode_error, escape_json_string, lexer, lookup_type, next_value, parse,
    parse_data_type, parse_operation, peek_table_name, read_field_group, QueryOperation, Token,
};
use rustdb::tables::{DataTypes, Operator, Value};

fn floats(s: &str) -> Option<u32> {
    s.parse::<f32>().ok().map(|f| f.to_bits())
}

fn users_schema() -> Vec<(String, DataTypes)> {
    vec![
        ("id".to_string(), DataTypes::UINT32),
        ("name".to_string(), DataTypes::VARCHAR),
        ("age".to_string(), DataTypes::UINT32),
        ("score".to_string(), DataTypes::FLOAT32),
        ("delta".to_string(), DataTypes::INT32),
    ]
}

fn is_key(t: &Token, s: &str) -> bool {
    matches!(t, Token::Key(k) if k == s)
}

fn is_value(t: &Token, s: &str) -> bool {
    matches!(t, Token::Value(v) if v == s)
}

fn as_u32(v: &Value) -> Option<u32> {
    match v {
        Value::Uint32(x) => Some(*x),
        _ => None,
    }
}

fn as_text(v: &Value) -> Option<&str> {
    match v {
        Value::Varchar(s) => Some(s.as_str()),
        _ => None,
    }
}

#[test]
fn lexer_splits_keys_and_values() {
    let tokens = lexer(r#"{"table_name":"users","task":"insert"}"#.to_string()).unwrap();
    assert_eq!(tokens.len(), 4);
    assert!(is_key(&tokens[0], "table_name"));
    assert!(is_value(&tokens[1], "users"));
    assert!(is_key(&tokens[2], "task"));
    assert!(is_value(&tokens[3], "insert"));
}

#[test]
fn lexer_nested_groups_and_escapes() {
    let tokens = lexer(r#"{"row":{"a\"b":"x, y: {z}"}}"#.to_string()).unwrap();
    assert_eq!(tokens.len(), 3);
    assert!(is_key(&tokens[0], "row"));
    assert!(is_key(&tokens[1], "a\"b"));
    assert!(is_value(&tokens[2], "x, y: {z}"));
    let tokens = lexer(r#"{"k":"a\\b"}"#.to_string()).unwrap();
    assert!(is_value(&tokens[1], "a\\b"));
    // Empty strings give no token.
    let tokens = lexer(r#"{"":"v"}"#.to_string()).unwrap();
    assert_eq!(tokens.len(), 1);
    assert!(is_value(&tokens[0], "v"));
}

#[test]
fn escaping_for_json() {
    assert_eq!(escape_json_string("plain"), "plain");
    assert_eq!(escape_json_string("a\"b\\c\nd\re\tf"), "a\\\"b\\\\c\\nd\\re\\tf");
}

#[test]
fn error_answers() {
    assert_eq!(encode_error(&DbError::TableAbsent), r#"{"success":false,"error":"TableAbsent"}"#);
    assert_eq!(encode_error(&DbError::MalformedRequest), r#"{"success":false,"error":"MalformedRequest"}"#);
}

#[test]
fn peeking_the_table_name() {
    assert_eq!(peek_table_name(r#"{"task":"select","table_name":"users"}"#), Ok(Some("users".to_string())));
    assert_eq!(peek_table_name(r#"{"task":"shutdown"}"#), Ok(None));
    assert_eq!(peek_table_name(r#"{"table_name"}"#), Ok(None));
}

#[test]
fn operators_and_types_by_name() {
    assert_eq!(parse_operation("ge"), Ok(Operator::GreaterEqual));
    assert_eq!(parse_operation("le"), Ok(Operator::LessEqual));
    assert_eq!(parse_operation("LE"), Err(DbError::InvalidOperation));
    assert_eq!(parse_operation("e"), Ok(Operator::Equal));
    assert_eq!(parse_operation("ne"), Ok(Operator::NotEqual));
    assert_eq!(parse_operation("l"), Ok(Operator::Less));
    assert_eq!(parse_operation("g"), Ok(Operator::Greater));
    assert_eq!(parse_operation("G"), Err(DbError::InvalidOperation));
    assert_eq!(parse_operation("gt"), Err(DbError::InvalidOperation));
    assert_eq!(parse_data_type("uint32"), Ok(DataTypes::UINT32));
    assert_eq!(parse_data_type("Int32"), Ok(DataTypes::INT32));
    assert_eq!(parse_data_type("FLOAT32"), Ok(DataTypes::FLOAT32));
    assert_eq!(parse_data_type("varchar"), Ok(DataTypes::VARCHAR));
    assert_eq!(parse_data_type("u32"), Err(DbError::TypeMismatch));
}

#[test]
fn coercing_text_to_values() {
    assert_eq!(as_u32(&coerce_value("42", &DataTypes::UINT32, &floats).unwrap()), Some(42));
    assert_eq!(as_u32(&coerce_value("+7", &DataTypes::UINT32, &floats).unwrap()), Some(7));
    assert_eq!(coerce_value("-1", &DataTypes::UINT32, &floats).unwrap_err(), DbError::TypeMismatch);
    assert_eq!(coerce_value("4294967296", &DataTypes::UINT32, &floats).unwrap_err(), DbError::TypeMismatch);
    assert!(matches!(coerce_value("-2147483648", &DataTypes::INT32, &floats).unwrap(), Value::Int32(i32::MIN)));
    assert_eq!(coerce_value("2147483648", &DataTypes::INT32, &floats).unwrap_err(), DbError::TypeMismatch);
    assert!(matches!(coerce_value("1.5", &DataTypes::FLOAT32, &floats).unwrap(), Value::Float32(b) if b == 1.5f32.to_bits()));
    assert_eq!(coerce_value("abc", &DataTypes::FLOAT32, &floats).unwrap_err(), DbError::TypeMismatch);
    assert_eq!(as_text(&coerce_value("any text", &DataTypes::VARCHAR, &floats).unwrap()), Some("any text"));
}

#[test]
fn reading_values_and_field_groups() {
    let tokens = vec![
        Token::Key("column".to_string()),
        Token::Value("age".to_string()),
        Token::Key("value".to_string()),
        Token::Value("3".to_string()),
        Token::Key("task".to_string()),
    ];
    let mut i = 0usize;
    assert_eq!(next_value(&tokens, &mut i), Ok("age".to_string()));
    assert_eq!(i, 2);
    let mut j = 1usize;
    assert_eq!(next_value(&tokens, &mut j), Err(DbError::MalformedRequest));
    assert_eq!(j, 2);
    let mut k = 4usize;
    assert_eq!(next_value(&tokens, &mut k), Err(DbError::MalformedRequest));

    let mut at = 0usize;
    let fields = read_field_group(&tokens, &mut at, &["column", "operator", "value"]).unwrap();
    assert_eq!(fields, vec![("column".to_string(), "age".to_string()), ("value".to_string(), "3".to_string())]);
    assert_eq!(at, 4);
}

#[test]
fn looking_up_columns_and_building_conditions() {
    let schema = users_schema();
    assert_eq!(lookup_type(&schema, "age"), Ok(&DataTypes::UINT32));
    assert_eq!(lookup_type(&schema, "missing"), Err(DbError::InvalidColumn));
    let fields = vec![
        ("column".to_string(), "age".to_string()),
        ("operator".to_string(), "ge".to_string()),
        ("value".to_string(), "25".to_string()),
    ];
    let c = build_condition(fields, &schema, &floats).unwrap();
    assert_eq!(c.column, "age");
    assert_eq!(c.operator, Operator::GreaterEqual);
    assert_eq!(as_u32(&c.value), Some(25));
    let no_op = vec![("column".to_string(), "name".to_string()), ("value".to_string(), "Bo".to_string())];
    let c = build_condition(no_op, &schema, &floats).unwrap();
    assert_eq!(c.operator, Operator::Equal);
    assert_eq!(as_text(&c.value), Some("Bo"));
    let no_value = vec![("column".to_string(), "name".to_string())];
    assert_eq!(build_condition(no_value, &schema, &floats).unwrap_err(), DbError::MalformedRequest);
    let bad_col = vec![("column".to_string(), "nope".to_string()), ("value".to_string(), "1".to_string())];
    assert_eq!(build_condition(bad_col, &schema, &floats).unwrap_err(), DbError::InvalidColumn);
}

#[test]
fn parse_insert_query() {
    let schema = users_schema();
    let q = r#"{"table_name":"users","task":"insert","row":{"id":"8","name":"Balls","age":"20","score":"2.5","delta":"-3"}}"#;
    let query = parse(q.to_string(), Some(&schema), &floats).unwrap();
    assert_eq!(query.task, QueryOperation::Insert);
    assert_eq!(query.table_name, Some("users".to_string()));
    let row = query.row.unwrap();
    assert_eq!(row.len(), 5);
    assert_eq!(row[0].0, "id");
    assert_eq!(as_u32(&row[0].1), Some(8));
    assert_eq!(as_text(&row[1].1), Some("Balls"));
    assert_eq!(as_u32(&row[2].1), Some(20));
    assert!(matches!(row[3].1, Value::Float32(b) if b == 2.5f32.to_bits()));
    assert!(matches!(row[4].1, Value::Int32(-3)));
    assert!(query.conditions.is_none());
}

#[test]
fn parse_update_query() {
    let schema = users_schema();
    let q = r#"{"table_name":"users","task":"update","updates":{"column":"name","value":"Ballus","column":"age","value":"22"},"conditions":{"column":"id","value":"8","column":"name","value":"Balls"}}"#;
    let query = parse(q.to_string(), Some(&schema), &floats).unwrap();
    assert_eq!(query.task, QueryOperation::Update);
    assert_eq!(query.table_name, Some("users".to_string()));
    let updates = query.updates.unwrap();
    assert_eq!(updates.len(), 2);
    assert_eq!(updates[0].column, "name");
    assert_eq!(updates[0].operator, Operator::Equal);
    assert_eq!(as_text(&updates[0].value), Some("Ballus"));
    assert_eq!(updates[1].column, "age");
    assert_eq!(as_u32(&updates[1].value), Some(22));
    let conditions = query.conditions.unwrap();
    assert_eq!(conditions.len(), 2);
    assert_eq!(conditions[0].column, "id");
    assert_eq!(conditions[0].operator, Operator::Equal);
    assert_eq!(as_u32(&conditions[0].value), Some(8));
    assert_eq!(conditions[1].column, "name");
    assert_eq!(conditions[1].operator, Operator::Equal);
    assert_eq!(as_text(&conditions[1].value), Some("Balls"));
    assert!(query.row.is_none() && query.columns.is_none() && query.schema.is_none() && query.db_name.is_none());
}

#[test]
fn parse_select_and_shutdown() {
    let schema = users_schema();
    let query = parse(r#"{"table_name":"users","task":"select","conditions":{}"#.to_string(), Some(&schema), &floats).unwrap();
    assert_eq!(query.task, QueryOperation::Select);
    assert_eq!(query.conditions.unwrap().len(), 0);
    let query = parse(
        r#"{"table_name":"users","task":"select","columns":{"column":"name","column":"age"},"conditions":{"column":"age","operator":"l","value":"30"}}"#.to_string(),
        Some(&schema),
        &floats,
    )
    .unwrap();
    assert_eq!(query.columns, Some(vec!["name".to_string(), "age".to_string()]));
    let c = &query.conditions.unwrap()[0];
    assert_eq!(c.operator, Operator::Less);
    let query = parse(r#"{"task":"shutdown"}"#.to_string(), None, &floats).unwrap();
    assert_eq!(query.task, QueryOperation::Shutdown);
    assert!(query.table_name.is_none());
}

#[test]
fn parse_create_table_and_db() {
    let q = r#"{"task":"create_table","table_name":"t","schema":{"column":"name","type":"VARCHAR","column":"age","type":"uint32"}}"#;
    let query = parse(q.to_string(), None, &floats).unwrap();
    assert_eq!(query.task, QueryOperation::CreateTable);
    assert_eq!(query.schema, Some(vec![("name".to_string(), DataTypes::VARCHAR), ("age".to_string(), DataTypes::UINT32)]));
    let query = parse(r#"{"task":"create_db","db_name":"main"}"#.to_string(), None, &floats).unwrap();
    assert_eq!(query.task, QueryOperation::CreateDB);
    assert_eq!(query.db_name, Some("main".to_string()));
    let bad = r#"{"task":"create_table","schema":{"column":"a","type":"text"}}"#;
    assert_eq!(parse(bad.to_string(), None, &floats).unwrap_err(), DbError::TypeMismatch);
}

#[test]
fn parse_errors() {
    let schema = users_schema();
    assert_eq!(parse(r#"{"table_name":"users"}"#.to_string(), None, &floats).unwrap_err(), DbError::MalformedRequest);
    assert_eq!(parse(r#"{"task":"explode"}"#.to_string(), None, &floats).unwrap_err(), DbError::InvalidOperation);
    assert_eq!(parse(r#":"loose""#.to_string(), None, &floats).unwrap_err(), DbError::MalformedRequest);
    assert_eq!(parse(r#"{"task"}"#.to_string(), None, &floats).unwrap_err(), DbError::MalformedRequest);
    let row = r#"{"task":"insert","row":{"id":"1"}}"#;
    assert_eq!(parse(row.to_string(), None, &floats).unwrap_err(), DbError::InsufficientParams);
    let bad_col = r#"{"task":"insert","row":{"zzz":"1"}}"#;
    assert_eq!(parse(bad_col.to_string(), Some(&schema), &floats).unwrap_err(), DbError::InvalidColumn);
    let bad_val = r#"{"task":"insert","row":{"age":"old"}}"#;
    assert_eq!(parse(bad_val.to_string(), Some(&schema), &floats).unwrap_err(), DbError::TypeMismatch);
    let bad_op = r#"{"task":"select","conditions":{"column":"age","operator":"gt","value":"1"}}"#;
    assert_eq!(parse(bad_op.to_string(), Some(&schema), &floats).unwrap_err(), DbError::InvalidOperation);
    let cond_no_schema = r#"{"task":"select","conditions":{}}"#;
    assert_eq!(parse(cond_no_schema.to_string(), None, &floats).unwrap_err(), DbError::InsufficientParams);
}

#[test]
fn parse_task_names_are_case_sensitive() {
    assert_eq!(parse(r#"{"task":"SELECT","table_name":"t"}"#.to_string(), None, &floats).unwrap_err(), DbError::InvalidOperation);
    assert_eq!(parse(r#"{"task":"Shutdown"}"#.to_string(), None, &floats).unwrap_err(), DbError::InvalidOperation);
    let names = [
        ("insert", QueryOperation::Insert),
        ("update", QueryOperation::Update),
        ("delete", QueryOperation::Delete),
        ("select", QueryOperation::Select),
        ("create_table", QueryOperation::CreateTable),
        ("delete_table", QueryOperation::DeleteTable),
        ("create_db", QueryOperation::CreateDB),
        ("drop_db", QueryOperation::DropDB),
        ("shutdown", QueryOperation::Shutdown),
        ("get_schema", QueryOperation::GetSchema),
    ];
    for (name, op) in names {
        let q = format!(r#"{{"task":"{}","table_name":"t"}}"#, name);
        assert_eq!(parse(q, None, &floats).unwrap().task, op);
    }
}

#[test]
fn parse_get_schema() {
    let query = parse(r#"{"task":"get_schema","table_name":"users"}"#.to_string(), None, &floats).unwrap();
    assert_eq!(query.task, QueryOperation::GetSchema);
    assert_eq!(query.table_name, Some("users".to_string()));
    assert!(query.db_name.is_none() && query.row.is_none() && query.columns.is_none());
    assert!(query.conditions.is_none() && query.updates.is_none() && query.schema.is_none());
}

#[test]
fn lexer_skips_whitespace_between_tokens() {
    let tokens = lexer("{ \"task\" :\t\"shutdown\" ,\n \"table_name\": \"a b\" }".to_string()).unwrap();
    assert_eq!(tokens.len(), 4);
    assert!(is_key(&tokens[0], "task"));
    assert!(is_value(&tokens[1], "shutdown"));
    assert!(is_key(&tokens[2], "table_name"));
    assert!(is_value(&tokens[3], "a b"));
    let query = parse(r#"{"task": "shutdown"}"#.to_string(), None, &floats).unwrap();
    assert_eq!(query.task, QueryOperation::Shutdown);
}

#[test]
fn parse_updates_need_a_pair() {
    let schema = users_schema();
    let q = r#"{"task":"update","updates":{},"conditions":{}}"#;
    assert_eq!(parse(q.to_string(), Some(&schema), &floats).unwrap_err(), DbError::MalformedRequest);
}

#[test]
fn field_group_ends_at_a_repeated_key() {
    let tokens = vec![
        Token::Key("column".to_string()),
        Token::Value("id".to_string()),
        Token::Key("value".to_string()),
        Token::Value("1".to_string()),
        Token::Key("column".to_string()),
        Token::Value("age".to_string()),
    ];
    let mut at = 0usize;
    let fields = read_field_group(&tokens, &mut at, &["column", "operator", "value"]).unwrap();
    assert_eq!(fields, vec![("column".to_string(), "id".to_string()), ("value".to_string(), "1".to_string())]);
    assert_eq!(at, 4);
}

#[test]
fn reading_whole_numbers_as_std_does() {
    for text in ["", "+", "-", "-0", "1 ", " 1", "١", "1e3", "++1", "4294967296"] {
        assert_eq!(coerce_value(text, &DataTypes::UINT32, &floats).is_ok(), text.parse::<u32>().is_ok(), "{:?}", text);
    }
    assert_eq!(as_u32(&coerce_value("0042", &DataTypes::UINT32, &floats).unwrap()), Some(42));
    assert_eq!(as_u32(&coerce_value("4294967295", &DataTypes::UINT32, &floats).unwrap()), Some(u32::MAX));
    assert!(matches!(coerce_value("-0", &DataTypes::INT32, &floats).unwrap(), Value::Int32(0)));
    assert!(matches!(coerce_value("+2147483647", &DataTypes::INT32, &floats).unwrap(), Value::Int32(i32::MAX)));
    assert!(matches!(coerce_value("-17", &DataTypes::INT32, &floats).unwrap(), Value::Int32(-17)));
    for text in ["", "-", "+", "-2147483649", "--1", "+-1", "1-"] {
        assert_eq!(coerce_value(text, &DataTypes::INT32, &floats).unwrap_err(), DbError::TypeMismatch, "{:?}", text);
    }
}
