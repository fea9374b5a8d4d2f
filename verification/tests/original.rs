//! The unit tests of the scanner, the table and the command line pieces.

use sqlrunner::command::parse_assignment;
use sqlrunner::scan::extract_variables;
use sqlrunner::shell::shell_quote;
use sqlrunner::table::format_table;

#[test]
fn extracts_variables_sorted_and_deduplicated() {
    let sql = "SELECT * FROM t \
               WHERE day >= :'start_date' AND day < :'end_date' \
                 AND owner = :'owner1' AND creator = :'owner1';";

    assert_eq!(
        extract_variables(sql),
        vec!["end_date", "owner1", "start_date"]
    );
}

#[test]
fn ignores_non_variables() {
    // No variable: a plain literal, a cast, an unquoted psql variable, an
    // empty name, a name with an invalid character, and an unterminated quote.
    let sql = "SELECT 'a', x::text, :plain, :'', :'not a name', :'unterminated";

    assert!(extract_variables(sql).is_empty());
}

#[test]
fn extracts_no_variable_from_plain_sql() {
    assert!(extract_variables("SELECT 1;").is_empty());
}

#[test]
fn ignores_variables_inside_comments() {
    let sql = "-- see :'commented_out'\n\
               /* :'block' /* :'nested' */ still a comment :'deep' */\n\
               SELECT :'kept'; -- :'trailing'";

    assert_eq!(extract_variables(sql), vec!["kept"]);
}

#[test]
fn ignores_variables_inside_literals_and_identifiers() {
    let sql = "SELECT ':''not_a_var''', \"col :'not_a_var'\", \
               E'escaped \\' :''not_a_var''', \
               $body$ :'not_a_var' $body$, $1, :'kept';";

    assert_eq!(extract_variables(sql), vec!["kept"]);
}

#[test]
fn keeps_scanning_after_a_doubled_quote_in_a_literal() {
    let sql = "SELECT 'it''s :''hidden'' here', :'kept';";

    assert_eq!(extract_variables(sql), vec!["kept"]);
}

#[test]
fn formats_a_two_column_table() {
    let rows = vec![
        ("comments.sql".to_string(), "owner, start_date".to_string()),
        ("stats.sql".to_string(), String::new()),
    ];

    assert_eq!(
        format_table(("FILE", "VARIABLES"), &rows),
        "FILE          VARIABLES\n\
         comments.sql  owner, start_date\n\
         stats.sql\n"
    );
}

#[test]
fn table_column_is_at_least_as_wide_as_its_header() {
    let rows = vec![("a.sql".to_string(), "v".to_string())];

    assert_eq!(
        format_table(("FILE", "VARIABLES"), &rows),
        "FILE   VARIABLES\n\
         a.sql  v\n"
    );
}

#[test]
fn parses_assignments() {
    assert_eq!(
        parse_assignment("day=2026-08-04").unwrap(),
        ("day".to_string(), "2026-08-04".to_string())
    );
    // The value keeps everything after the first `=`, and may be empty.
    assert_eq!(
        parse_assignment("filter=a=b").unwrap(),
        ("filter".to_string(), "a=b".to_string())
    );
    assert_eq!(
        parse_assignment("empty=").unwrap(),
        ("empty".to_string(), String::new())
    );
    assert!(parse_assignment("day").is_err());
    assert!(parse_assignment("=value").is_err());
}

#[test]
fn quotes_only_unsafe_arguments() {
    assert_eq!(shell_quote("day=2026-08-04"), "day=2026-08-04");
    assert_eq!(shell_quote(""), "''");
    assert_eq!(shell_quote("name=a b"), "'name=a b'");
    assert_eq!(shell_quote("name=it's"), r"'name=it'\''s'");
}

#[test]
fn unterminated_literals_and_comments_do_not_loop() {
    assert!(extract_variables("SELECT 'oops :'x'").is_empty());
    assert!(extract_variables("/* oops :'x'").is_empty());
    assert!(extract_variables("SELECT $tag$ oops :'x'").is_empty());
    assert!(extract_variables("SELECT $").is_empty());
}
