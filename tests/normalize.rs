use json2csv::err::CsvError;
use json2csv::ingest::IngestState;
use json2csv::opts::Opts;
use json2csv::row::Row;
use json2csv::schema::Schema;
use json2csv::sink::CsvFileInfo;
use json2csv::table::Table;
use json2csv::value::{JsonValue, Scalar};

fn opts() -> Opts {
    Opts {
        in_file: "in.json".to_string(),
        out_folder: "out".to_string(),
        root_table_name: "ROOT".to_string(),
        column_id_postfix: "_ID".to_string(),
        add_column_name: None,
        json_buf_size: None,
        as_mysql: false,
        scan_only: false,
    }
}

fn s(x: &str) -> String {
    x.to_string()
}

fn leaf_str(x: &str) -> JsonValue {
    JsonValue::Leaf(Scalar::Str(s(x)))
}

fn table<'a>(schema: &'a Schema, name: &str) -> &'a Table {
    let i = schema.position_of(&s(name)).expect("table exists");
    schema.table(i)
}

fn cell(t: &Table, row: usize, col: &str) -> Option<Scalar> {
    t.row(row).get(&s(col)).map(|v| v.duplicate())
}

fn row_of(cells: Vec<(&str, Scalar)>) -> Row {
    let mut r = Row::new();
    for (k, v) in cells {
        r.insert(s(k), v);
    }
    r
}

fn john() -> JsonValue {
    JsonValue::Object(vec![
        (s("name"), leaf_str("John")),
        (s("phones"), JsonValue::Array(vec![leaf_str("+1"), leaf_str("+2")])),
    ])
}

#[test]
fn end_to_end_phones() {
    let mut schema = Schema::new(opts());
    let r = schema.walk_props(vec![s("ROOT")], john());
    assert_eq!(r, Ok(None));
    assert_eq!(schema.num_tables(), 2);
    let root = table(&schema, "ROOT");
    assert_eq!(root.num_rows(), 1);
    assert_eq!(cell(root, 0, "name"), Some(Scalar::Str(s("John"))));
    assert_eq!(cell(root, 0, "ROOT_ID"), Some(Scalar::Int(0)));
    assert_eq!(root.row(0).len(), 2);
    let phones = table(&schema, "ROOT_phones");
    assert_eq!(phones.num_rows(), 2);
    assert_eq!(cell(phones, 0, "phones"), Some(Scalar::Str(s("+1"))));
    assert_eq!(cell(phones, 0, "ROOT_ID"), Some(Scalar::Int(0)));
    assert_eq!(cell(phones, 1, "phones"), Some(Scalar::Str(s("+2"))));
    assert_eq!(cell(phones, 1, "ROOT_ID"), Some(Scalar::Int(0)));
    assert_eq!(cell(phones, 0, "ROOT_phones_ID"), Some(Scalar::Int(0)));
    assert_eq!(cell(phones, 1, "ROOT_phones_ID"), Some(Scalar::Int(1)));
}

#[test]
fn end_to_end_csv_text() {
    let mut schema = Schema::new(opts());
    schema.walk_props(vec![s("ROOT")], john()).unwrap();
    let root = schema.position_of(&s("ROOT")).unwrap();
    let phones = schema.position_of(&s("ROOT_phones")).unwrap();
    assert_eq!(schema.flush_table(root, true), "ROOT_ID,name\n0,John");
    assert_eq!(schema.flush_table(phones, true), "ROOT_ID,ROOT_phones_ID,phones\n0,0,+1\n0,1,+2");
}

#[test]
fn second_record_links_to_second_parent_row() {
    let mut schema = Schema::new(opts());
    schema.walk_props(vec![s("ROOT")], john()).unwrap();
    schema.walk_props(vec![s("ROOT")], john()).unwrap();
    let phones = table(&schema, "ROOT_phones");
    assert_eq!(phones.num_rows(), 4);
    assert_eq!(cell(phones, 2, "ROOT_ID"), Some(Scalar::Int(1)));
    assert_eq!(cell(phones, 3, "ROOT_phones_ID"), Some(Scalar::Int(3)));
    assert_eq!(cell(table(&schema, "ROOT"), 1, "ROOT_ID"), Some(Scalar::Int(1)));
}

#[test]
fn flat_object_gives_one_row() {
    let mut schema = Schema::new(opts());
    let v = JsonValue::Object(vec![
        (s("a"), JsonValue::Leaf(Scalar::Int(1))),
        (s("b"), JsonValue::Leaf(Scalar::Bool(true))),
        (s("c"), JsonValue::Leaf(Scalar::Null)),
    ]);
    schema.walk_props(vec![s("ROOT")], v).unwrap();
    assert_eq!(schema.num_tables(), 1);
    let root = table(&schema, "ROOT");
    assert_eq!(root.num_rows(), 1);
    assert_eq!(root.row(0).len(), 4);
    assert_eq!(root.column_names(), vec![s("ROOT_ID"), s("a"), s("b"), s("c")]);
    assert_eq!(cell(root, 0, "b"), Some(Scalar::Bool(true)));
}

#[test]
fn nested_object_carries_parent_key() {
    let mut schema = Schema::new(opts());
    let v = JsonValue::Object(vec![
        (s("addr"), JsonValue::Object(vec![(s("city"), leaf_str("Oslo"))])),
        (s("id"), JsonValue::Leaf(Scalar::Int(7))),
    ]);
    schema.walk_props(vec![s("ROOT")], v).unwrap();
    let addr = table(&schema, "ROOT_addr");
    assert_eq!(addr.num_rows(), 1);
    assert_eq!(cell(addr, 0, "city"), Some(Scalar::Str(s("Oslo"))));
    assert_eq!(cell(addr, 0, "ROOT_ID"), Some(Scalar::Int(0)));
    assert_eq!(cell(addr, 0, "ROOT_addr_ID"), Some(Scalar::Int(0)));
    let root = table(&schema, "ROOT");
    assert_eq!(cell(root, 0, "addr"), None);
    assert_eq!(cell(root, 0, "id"), Some(Scalar::Int(7)));
}

#[test]
fn scalar_array_rows_carry_parent_key() {
    let mut schema = Schema::new(opts());
    let v = JsonValue::Object(vec![(
        s("tags"),
        JsonValue::Array(vec![leaf_str("x"), JsonValue::Leaf(Scalar::Int(-3)), leaf_str("z")]),
    )]);
    schema.walk_props(vec![s("ROOT")], v).unwrap();
    let tags = table(&schema, "ROOT_tags");
    assert_eq!(tags.num_rows(), 3);
    for i in 0..3 {
        assert_eq!(cell(tags, i, "ROOT_ID"), Some(Scalar::Int(0)));
    }
    assert_eq!(cell(tags, 1, "tags"), Some(Scalar::Int(-3)));
}

#[test]
fn array_of_objects_shares_path() {
    let mut schema = Schema::new(opts());
    let item = |n: i128| JsonValue::Object(vec![(s("n"), JsonValue::Leaf(Scalar::Int(n)))]);
    let v = JsonValue::Object(vec![(s("items"), JsonValue::Array(vec![item(1), item(2)]))]);
    schema.walk_props(vec![s("ROOT")], v).unwrap();
    assert_eq!(schema.num_tables(), 2);
    let items = table(&schema, "ROOT_items");
    assert_eq!(items.num_rows(), 2);
    assert_eq!(cell(items, 1, "n"), Some(Scalar::Int(2)));
    assert_eq!(cell(items, 1, "ROOT_ID"), Some(Scalar::Int(0)));
    assert_eq!(cell(items, 1, "ROOT_items_ID"), Some(Scalar::Int(1)));
}

#[test]
fn scalar_walk_returns_last_name() {
    let mut schema = Schema::new(opts());
    let r = schema.walk_props(vec![s("ROOT")], JsonValue::Leaf(Scalar::Int(5)));
    assert_eq!(r, Ok(Some((s("ROOT"), Scalar::Int(5)))));
    assert_eq!(schema.num_tables(), 0);
}

#[test]
fn fresh_columns_are_union_of_keys() {
    let mut t = Table::new("T", &opts(), &CsvFileInfo::missing());
    assert!(!t.is_appending());
    t.add_row(row_of(vec![("b", Scalar::Int(1))])).unwrap();
    t.add_row(row_of(vec![("a", Scalar::Int(2)), ("b", Scalar::Int(3))])).unwrap();
    t.add_row(Row::new()).unwrap();
    assert_eq!(t.column_names(), vec![s("T_ID"), s("a"), s("b")]);
    assert_eq!(t.columns_as_str(), "T_ID,a,b");
    assert_eq!(cell(&t, 2, "T_ID"), Some(Scalar::Int(2)));
}

#[test]
fn explicit_key_is_kept() {
    let mut t = Table::new("T", &opts(), &CsvFileInfo::missing());
    t.add_row(row_of(vec![("T_ID", Scalar::Int(40))])).unwrap();
    assert_eq!(cell(&t, 0, "T_ID"), Some(Scalar::Int(40)));
    t.add_row(Row::new()).unwrap();
    assert_eq!(cell(&t, 1, "T_ID"), Some(Scalar::Int(1)));
}

#[test]
fn appending_table_refuses_unknown_column() {
    let sink = CsvFileInfo::from_first_line("a,b,ROOT_ID", 3);
    let mut t = Table::new("ROOT", &opts(), &sink);
    assert!(t.is_appending());
    assert_eq!(t.row_offset(), 2);
    let r = t.add_row(row_of(vec![("a", Scalar::Int(1)), ("c", Scalar::Int(2))]));
    assert_eq!(r, Err(CsvError::MissingColumn(s("c"))));
    assert_eq!(t.num_rows(), 0);
    t.add_row(row_of(vec![("a", Scalar::Int(1)), ("b", Scalar::Int(2))])).unwrap();
    t.add_row(row_of(vec![("b", Scalar::Int(3))])).unwrap();
    assert_eq!(cell(&t, 0, "ROOT_ID"), Some(Scalar::Int(2)));
    assert_eq!(cell(&t, 1, "ROOT_ID"), Some(Scalar::Int(3)));
    assert_eq!(t.column_names(), vec![s("ROOT_ID"), s("a"), s("b")]);
}

#[test]
fn appending_schema_walk_stops_on_unknown_column() {
    let mut schema = Schema::new(opts());
    schema.create_table(s("ROOT"), &CsvFileInfo::from_first_line("a,ROOT_ID", 2));
    let v = JsonValue::Object(vec![(s("c"), JsonValue::Leaf(Scalar::Int(1)))]);
    let r = schema.walk_props(vec![s("ROOT")], v);
    assert_eq!(r, Err(CsvError::MissingColumn(s("c"))));
    assert_eq!(table(&schema, "ROOT").num_rows(), 0);
}

#[test]
fn flush_then_reopen_continues_keys() {
    let mut t = Table::new("T", &opts(), &CsvFileInfo::missing());
    t.add_row(row_of(vec![("v", leaf_text("p"))])).unwrap();
    t.add_row(row_of(vec![("v", leaf_text("q"))])).unwrap();
    let text = t.flush_to_file(true);
    assert_eq!(text, "T_ID,v\n0,p\n1,q");
    let lines = text.lines().count();
    let first = text.lines().next().unwrap();
    let mut again = Table::new("T", &opts(), &CsvFileInfo::from_first_line(first, lines));
    assert_eq!(again.row_offset(), t.row_offset());
    again.add_row(row_of(vec![("v", leaf_text("r"))])).unwrap();
    assert_eq!(cell(&again, 0, "T_ID"), Some(Scalar::Int(2)));
    assert_eq!(again.flush_to_file(false), "\n2,r");
}

fn leaf_text(x: &str) -> Scalar {
    Scalar::Str(s(x))
}

#[test]
fn flush_empties_buffer() {
    let mut t = Table::new("T", &opts(), &CsvFileInfo::missing());
    for i in 0..5 {
        t.add_row(row_of(vec![("n", Scalar::Int(i))])).unwrap();
    }
    assert_eq!(t.num_rows(), 5);
    t.flush_to_file(true);
    assert_eq!(t.num_rows(), 0);
    assert_eq!(t.row_offset(), 5);
    assert_eq!(t.flush_to_file(false), "");
    assert_eq!(t.num_rows(), 0);
    t.add_row(Row::new()).unwrap();
    assert_eq!(cell(&t, 0, "T_ID"), Some(Scalar::Int(5)));
}

#[test]
fn missing_cells_render_empty() {
    let mut t = Table::new("T", &opts(), &CsvFileInfo::missing());
    t.add_row(row_of(vec![("a", Scalar::Int(1))])).unwrap();
    t.add_row(row_of(vec![("b", Scalar::Decimal(s("2.5")))])).unwrap();
    assert_eq!(t.csv_text(true), "T_ID,a,b\n0,1,\n1,,2.5");
    assert_eq!(t.export_csv(false), "\n0,1,\n1,,2.5");
}

#[test]
fn scalar_texts() {
    assert_eq!(Scalar::Null.to_text(), "null");
    assert_eq!(Scalar::Bool(false).to_text(), "false");
    assert_eq!(Scalar::Int(0).to_text(), "0");
    assert_eq!(Scalar::Int(-1204).to_text(), "-1204");
    assert_eq!(Scalar::Int(i128::MIN).to_text(), i128::MIN.to_string());
    assert_eq!(Scalar::Int(u64::MAX as i128).to_text(), "18446744073709551615");
    assert_eq!(Scalar::Decimal(s("1e5")).to_text(), "1e5");
    assert_eq!(Scalar::Str(s("a b")).to_text(), "a b");
}

#[test]
fn columns_in_code_point_order() {
    let mut t = Table::new("T", &opts(), &CsvFileInfo::missing());
    t.add_row(row_of(vec![("é", Scalar::Null), ("a", Scalar::Null), ("Z", Scalar::Null), ("ab", Scalar::Null)]))
        .unwrap();
    assert_eq!(t.column_names(), vec![s("T_ID"), s("Z"), s("a"), s("ab"), s("é")]);
}

#[test]
fn header_is_trimmed_and_split() {
    let info = CsvFileInfo::from_first_line("  a, b,,c \r", 4);
    assert_eq!(info.columns, vec![s("a"), s(" b"), s(""), s("c")]);
    assert_eq!(info.lines_in_file, 4);
    let t = Table::new("T", &opts(), &info);
    assert_eq!(t.row_offset(), 3);
    assert_eq!(t.column_names(), vec![s(""), s(" b"), s("T_ID"), s("a"), s("c")]);
}

#[test]
fn empty_file_is_fresh() {
    let t = Table::new("T", &opts(), &CsvFileInfo::missing());
    assert!(!t.is_appending());
    assert_eq!(t.row_offset(), 0);
    assert_eq!(t.get_pk_name(), "T_ID");
}

#[test]
fn schema_create_table_once() {
    let mut schema = Schema::new(opts());
    schema.create_table(s("A"), &CsvFileInfo::from_first_line("x,A_ID", 5));
    schema.create_table(s("A"), &CsvFileInfo::missing());
    assert_eq!(schema.num_tables(), 1);
    assert_eq!(schema.table(0).row_offset(), 4);
    assert_eq!(schema.get_num_table_rows(&[s("A")]), 4);
    assert_eq!(schema.as_fk("A"), "A_ID");
}

#[test]
fn add_table_row_by_path() {
    let mut schema = Schema::new(opts());
    schema.create_table(s("R_x"), &CsvFileInfo::missing());
    schema.add_table_row(&[s("R"), s("x")], row_of(vec![("x", Scalar::Int(1))])).unwrap();
    assert_eq!(schema.get_num_table_rows(&[s("R"), s("x")]), 1);
}

#[test]
fn tables_needed_lists_unknown_tables_once() {
    let mut schema = Schema::new(opts());
    schema.create_table(s("ROOT"), &CsvFileInfo::missing());
    let item = || JsonValue::Object(vec![(s("n"), JsonValue::Leaf(Scalar::Int(1)))]);
    let v = JsonValue::Object(vec![
        (s("items"), JsonValue::Array(vec![item(), item()])),
        (s("name"), leaf_str("x")),
    ]);
    let needed = schema.tables_needed(&[s("ROOT")], &v);
    assert_eq!(needed, vec![s("ROOT_items")]);
}

#[test]
fn room_for_records() {
    let schema = Schema::new(opts());
    assert!(schema.has_room_for(&john()));
}

#[test]
fn error_messages() {
    assert_eq!(CsvError::MissingColumn(s("c")).message(), "Missing a column with name of: c");
    assert_eq!(CsvError::CouldNotWrite(s("f")).message(), "Could not write file for f");
}

#[test]
fn load_reads_rows_back() {
    let lines = vec![s("ROOT_ID,name,n"), s("0,John,5"), s("1,,true"), s("2,\"q\",null")];
    let t = Table::load(&opts(), &lines).unwrap();
    assert_eq!(t.name(), "ROOT");
    assert_eq!(t.num_rows(), 3);
    assert_eq!(t.row_offset(), 0);
    assert!(!t.is_appending());
    assert_eq!(cell(&t, 0, "name"), Some(Scalar::Str(s("John"))));
    assert_eq!(cell(&t, 0, "n"), Some(Scalar::Decimal(s("5"))));
    assert_eq!(cell(&t, 1, "name"), None);
    assert_eq!(cell(&t, 1, "n"), Some(Scalar::Bool(true)));
    assert_eq!(cell(&t, 2, "name"), Some(Scalar::Str(s("q"))));
    assert_eq!(cell(&t, 2, "n"), Some(Scalar::Null));
}

#[test]
fn load_refuses_extra_cells() {
    let lines = vec![s("a,b"), s("1,2,3")];
    let r = Table::load(&opts(), &lines);
    assert_eq!(r.err(), Some(CsvError::MissingColumn(s("File has more columns in data than in header, index: 2"))));
}

#[test]
fn add_column_then_export() {
    let lines = vec![s("ROOT_ID,a"), s("0,x"), s("1,y")];
    let mut t = Table::load(&opts(), &lines).unwrap();
    t.add_column(s("b"));
    t.add_column(s("a"));
    assert_eq!(t.column_names(), vec![s("ROOT_ID"), s("a"), s("b")]);
    assert_eq!(t.export_csv(true), "ROOT_ID,a,b\n0,x,\n1,y,");
}

#[test]
fn flush_cadence() {
    let mut st = IngestState::new();
    assert!(!st.after_line(true, Some(2)));
    assert!(!st.after_line(false, Some(2)));
    assert!(st.after_line(true, Some(2)));
    assert_eq!(st.since_flush, 0);
    assert!(!st.after_line(true, None));
    assert_eq!(st.since_flush, 1);
}


#[test]
fn sql_statements() {
    let mut t = Table::new("T", &opts(), &CsvFileInfo::missing());
    t.add_row(row_of(vec![("name", leaf_text("O'Neil")), ("ok", Scalar::Bool(true)), ("n", Scalar::Int(3))]))
        .unwrap();
    t.add_row(row_of(vec![("name", leaf_text("Al")), ("ok", Scalar::Bool(false)), ("n", Scalar::Decimal(s("2.5")))]))
        .unwrap();
    let sql = t.to_sql().unwrap();
    assert_eq!(
        sql,
        "CREATE TABLE IF NOT EXISTS `T` (`T_ID` INTEGER, `n` INTEGER, `name` VARCHAR(6), `ok` BOOLEAN);\n\
         INSERT INTO `T` (`T_ID`, `n`, `name`, `ok`) VALUES (0, 3, 'O''Neil', TRUE);\n\
         INSERT INTO `T` (`T_ID`, `n`, `name`, `ok`) VALUES (1, 2.5, 'Al', FALSE);"
    );
}

#[test]
fn sql_default_text_size_and_nulls() {
    let mut t = Table::new("T", &opts(), &CsvFileInfo::missing());
    t.add_row(row_of(vec![("s", leaf_text(""))])).unwrap();
    t.add_row(Row::new()).unwrap();
    assert_eq!(
        t.to_sql().unwrap(),
        "CREATE TABLE IF NOT EXISTS `T` (`T_ID` INTEGER, `s` VARCHAR(255));\n\
         INSERT INTO `T` (`T_ID`, `s`) VALUES (0, '');\n\
         INSERT INTO `T` (`T_ID`, `s`) VALUES (1, NULL);"
    );
}

#[test]
fn sql_unsupported_type() {
    let mut t = Table::new("T", &opts(), &CsvFileInfo::missing());
    t.add_row(row_of(vec![("b", Scalar::Null), ("a", Scalar::Null)])).unwrap();
    assert_eq!(t.to_sql(), Err(CsvError::UnsupportedType(s("a"))));
    let empty = Table::new("E", &opts(), &CsvFileInfo::missing());
    assert_eq!(empty.to_sql(), Ok(s("")));
}

#[test]
fn sql_quote_doubles_quotes() {
    assert_eq!(json2csv::sql::quote("a`b", "`"), "`a``b`");
    assert_eq!(json2csv::sql::quote("", "'"), "''");
}

#[test]
fn refusal_names_least_missing_column() {
    let mut t = Table::new("ROOT", &opts(), &CsvFileInfo::from_first_line("a,ROOT_ID", 1));
    let r = t.add_row(row_of(vec![("z", Scalar::Int(1)), ("b", Scalar::Int(2)), ("a", Scalar::Int(3))]));
    assert_eq!(r, Err(CsvError::MissingColumn(s("b"))));
}

#[test]
fn walk_refusal_names_least_missing_column() {
    let mut schema = Schema::new(opts());
    schema.create_table(s("ROOT"), &CsvFileInfo::missing());
    schema.create_table(s("ROOT_x"), &CsvFileInfo::from_first_line("q,ROOT_x_ID", 1));
    let v = JsonValue::Object(vec![(s("x"), JsonValue::Object(vec![(s("z"), JsonValue::Leaf(Scalar::Int(1)))]))]);
    let r = schema.walk_props(vec![s("ROOT")], v);
    assert_eq!(r, Err(CsvError::MissingColumn(s("ROOT_ID"))));
}

#[test]
fn scalar_walk_needs_no_table() {
    let mut schema = Schema::new(opts());
    let r = schema.walk_props(vec![s("A"), s("b")], JsonValue::Leaf(Scalar::Bool(false)));
    assert_eq!(r, Ok(Some((s("b"), Scalar::Bool(false)))));
    assert_eq!(schema.num_tables(), 0);
}

#[test]
fn load_rows_hold_only_their_cells() {
    let lines = vec![s("ROOT_ID,a,b"), s("0,x"), s(""), s("2,,y")];
    let t = Table::load(&opts(), &lines).unwrap();
    assert_eq!(t.row(0).len(), 2);
    assert_eq!(t.row(1).len(), 0);
    assert_eq!(t.row(2).len(), 2);
    assert_eq!(cell(&t, 2, "a"), None);
    assert_eq!(cell(&t, 2, "b"), Some(Scalar::Str(s("y"))));
}

#[test]
fn load_error_names_first_bad_line_and_position() {
    let lines = vec![s("a,a,b"), s("1"), s("1,2,3,4"), s("1,2,3,4,5")];
    let r = Table::load(&opts(), &lines);
    assert_eq!(r.err(), Some(CsvError::MissingColumn(s("File has more columns in data than in header, index: 1"))));
}

#[test]
fn sql_size_tracked_across_flushes() {
    let mut t = Table::new("T", &opts(), &CsvFileInfo::missing());
    t.add_row(row_of(vec![("s", leaf_text("abcdefg"))])).unwrap();
    assert_eq!(t.longest_string(&s("s")), 7);
    t.flush_to_file(true);
    t.add_row(row_of(vec![("s", leaf_text("ab"))])).unwrap();
    assert_eq!(
        t.to_sql().unwrap(),
        "CREATE TABLE IF NOT EXISTS `T` (`T_ID` INTEGER, `s` VARCHAR(7));\n\
         INSERT INTO `T` (`T_ID`, `s`) VALUES (1, 'ab');"
    );
}
