//! The scanner and its pieces, and the listing.

use sqlrunner::complete::{
    complete_from, completion_request, option_candidates, variable_candidates, Target,
};
use sqlrunner::listing::{description, listing, listing_row, select_sql_files};
use sqlrunner::order::{insert_sorted, lex_less};
use sqlrunner::scan::{
    extract_variables, is_name_byte, skip_block_comment, skip_dollar_quoted, skip_line_comment,
    skip_quoted,
};
use sqlrunner::table::{format_table, format_table3};
use sqlrunner::text::{ascii_string, chars_of, join_with, string_from};

#[test]
fn names_are_letters_digits_and_underscores() {
    for byte in 0..=255u8 {
        let expected = byte.is_ascii_alphanumeric() || byte == b'_';
        assert_eq!(is_name_byte(byte), expected, "byte {byte}");
    }
}

#[test]
fn line_comments_end_at_the_newline() {
    assert_eq!(skip_line_comment(b"-- a\nb", 0), 4);
    assert_eq!(skip_line_comment(b"x -- a", 2), 6);
    assert_eq!(skip_line_comment(b"\n", 1), 1);
}

#[test]
fn block_comments_nest() {
    assert_eq!(skip_block_comment(b"/* a */b", 0), 7);
    assert_eq!(skip_block_comment(b"/* /* */ */b", 0), 11);
    assert_eq!(skip_block_comment(b"/*/", 0), 3);
    assert_eq!(skip_block_comment(b"/* /* */", 0), 8);
    assert_eq!(skip_block_comment(b"/**/", 0), 4);
}

#[test]
fn quoted_texts_end_at_their_quote() {
    assert_eq!(skip_quoted(b"'ab'c", 0, false), 4);
    assert_eq!(skip_quoted(b"'a''b'c", 0, false), 6);
    assert_eq!(skip_quoted(b"'a\\'b'c", 0, false), 4);
    assert_eq!(skip_quoted(b"'a\\'b'c", 0, true), 6);
    assert_eq!(skip_quoted(b"\"a\"", 0, false), 3);
    assert_eq!(skip_quoted(b"'abc", 0, false), 4);
    assert_eq!(skip_quoted(b"'a\\", 0, true), 3);
}

#[test]
fn dollar_quotes_need_a_tag_not_starting_with_a_digit() {
    assert_eq!(skip_dollar_quoted(b"$$ a $$b", 0), 7);
    assert_eq!(skip_dollar_quoted(b"$t$ $ $t$b", 0), 9);
    assert_eq!(skip_dollar_quoted(b"$1", 0), 1);
    assert_eq!(skip_dollar_quoted(b"$1$ x $1$", 0), 1);
    assert_eq!(skip_dollar_quoted(b"$", 0), 1);
    assert_eq!(skip_dollar_quoted(b"$t$ never closed", 0), 16);
    assert_eq!(skip_dollar_quoted(b"$t x", 0), 1);
}

#[test]
fn variables_are_sorted_bytewise_and_kept_once() {
    let sql = ":'b' :'a' :'B' :'a_1' :'a' :'_x' :'a1'";

    assert_eq!(extract_variables(sql), vec!["B", "_x", "a", "a1", "a_1", "b"]);
}

#[test]
fn non_ascii_text_is_scanned_through() {
    let sql = "-- é :'no'\nSELECT 'ü :''no''', :'ok', \"ö:'no'\", :'é';";

    assert_eq!(extract_variables(sql), vec!["ok"]);
}

#[test]
fn an_e_prefix_enables_backslash_escapes_only_alone() {
    // `E'...'` takes backslash escapes; in `name'...'` the `e` ends a name.
    assert_eq!(extract_variables("E'\\'' :'a'"), vec!["a"]);
    assert_eq!(extract_variables("e'\\' :'a'"), Vec::<String>::new());
    assert_eq!(extract_variables("xe'\\' :'a'"), vec!["a"]);
}

#[test]
fn a_colon_before_a_non_name_opens_a_literal() {
    assert_eq!(extract_variables(":'a b' :'c'"), vec!["c"]);
    // A cast before a reference leaves the reference alone.
    assert_eq!(extract_variables("x:::'y'"), vec!["y"]);
}

#[test]
fn listing_rows_join_the_variables() {
    let row = listing_row("orders.sql", "-- Orders\nSELECT :'status', :'end_date';");
    assert_eq!(
        row,
        ("orders.sql".to_string(), "end_date, status".to_string(), "Orders".to_string())
    );
    let row = listing_row("stats.sql", "SELECT 1;");
    assert_eq!(row, ("stats.sql".to_string(), String::new(), String::new()));
}

#[test]
fn listing_is_empty_without_rows() {
    assert_eq!(listing(&[]), "");
    let rows = vec![("stats.sql".to_string(), "day".to_string(), "Daily counters".to_string())];
    assert_eq!(
        listing(&rows),
        "FILE       VARIABLES  DESCRIPTION\nstats.sql  day        Daily counters\n"
    );
}

#[test]
fn table_columns_count_characters() {
    let rows = vec![
        ("é.sql".to_string(), "x".to_string()),
        ("longer.sql".to_string(), "y".to_string()),
    ];

    assert_eq!(
        format_table(("FILE", "VARIABLES"), &rows),
        "FILE        VARIABLES\né.sql       x\nlonger.sql  y\n"
    );
    assert_eq!(format_table(("A", ""), &[]), "A\n");
}

#[test]
fn byte_strings_compare_lexicographically() {
    assert!(lex_less(b"a", b"b"));
    assert!(lex_less(b"a", b"ab"));
    assert!(!lex_less(b"ab", b"a"));
    assert!(!lex_less(b"a", b"a"));
    assert!(lex_less(b"", b"a"));
    assert!(lex_less(b"B", b"a"));
}

#[test]
fn inserting_keeps_the_names_sorted_and_single() {
    let mut names: Vec<Vec<u8>> = Vec::new();
    for name in [&b"m"[..], b"a", b"z", b"m", b"b"] {
        insert_sorted(&mut names, name.to_vec());
    }

    assert_eq!(names, vec![b"a".to_vec(), b"b".to_vec(), b"m".to_vec(), b"z".to_vec()]);
}

#[test]
fn text_helpers_build_the_expected_strings() {
    assert_eq!(ascii_string(b"abc_1"), "abc_1");
    assert_eq!(chars_of("aé"), vec!['a', 'é']);
    assert_eq!(string_from(&['a', 'b', 'c', 'd'], 1, 3), "bc");
    assert_eq!(join_with(&["a".to_string(), "b".to_string()], ", "), "a, b");
    assert_eq!(join_with(&[], ", "), "");
    assert_eq!(join_with(&["a".to_string()], ", "), "a");
}

#[test]
fn only_the_quoted_literal_form_is_a_variable() {
    assert_eq!(extract_variables("SELECT :plain, :\"ident\", :'lit';"), vec!["lit"]);
}

#[test]
fn descriptions_come_from_a_first_line_comment() {
    assert_eq!(description("-- Daily counters\nSELECT 1;"), "Daily counters");
    assert_eq!(description("--   spaced out \t\r\nSELECT 1;"), "spaced out");
    assert_eq!(description("--no space"), "no space");
    assert_eq!(description("--    \nSELECT 1;"), "");
    assert_eq!(description("--"), "");
    assert_eq!(description("SELECT 1; -- trailing\n"), "");
    assert_eq!(description("\n-- second line"), "");
    assert_eq!(description(" -- indented"), "");
    assert_eq!(description(""), "");
}

#[test]
fn three_columns_pad_the_first_two() {
    let rows = vec![
        ("audit.sql".to_string(), "action, row_limit".to_string(), "Audit trail".to_string()),
        ("stats.sql".to_string(), String::new(), "User counts".to_string()),
        ("users.sql".to_string(), "user_id".to_string(), String::new()),
        ("x.sql".to_string(), String::new(), String::new()),
    ];

    assert_eq!(
        format_table3(("FILE", "VARIABLES", "DESCRIPTION"), &rows),
        "FILE       VARIABLES          DESCRIPTION\n\
         audit.sql  action, row_limit  Audit trail\n\
         stats.sql                     User counts\n\
         users.sql  user_id\n\
         x.sql\n"
    );
}

#[test]
fn only_sql_files_are_selected_and_sorted() {
    let names: Vec<Vec<u8>> = ["b.sql", "a.sql", "notes.txt", "no-extension", ".sql", "c.SQL", "z.sql.bak", "..sql"]
        .iter()
        .map(|name| name.as_bytes().to_vec())
        .collect();

    assert_eq!(
        select_sql_files(&names),
        vec![b"..sql".to_vec(), b"a.sql".to_vec(), b"b.sql".to_vec()]
    );
    assert!(select_sql_files(&[]).is_empty());
}

fn words(items: &[&str]) -> Vec<String> {
    items.iter().map(|item| item.to_string()).collect()
}

#[test]
fn completion_reads_what_is_being_completed() {
    let request = completion_request(&words(&[""]));
    assert_eq!(request.target, Target::Files);
    assert_eq!(request.prefix, "");

    let request = completion_request(&words(&["orders.sql", "status=paid", "st"]));
    assert_eq!(request.target, Target::Variables);
    assert_eq!(request.file.as_deref(), Some("orders.sql"));
    assert_eq!(request.given, vec!["status"]);
    assert_eq!(request.prefix, "st");

    let request = completion_request(&words(&["--sql-dir", "/q", "--dsn", "x", "a.sql", ""]));
    assert_eq!(request.target, Target::Variables);
    assert_eq!(request.sql_dir.as_deref(), Some("/q"));
    assert_eq!(request.file.as_deref(), Some("a.sql"));
    assert!(request.given.is_empty());

    let request = completion_request(&words(&["--sql-dir=/r", "-i", "--"]));
    assert_eq!(request.target, Target::Options);
    assert_eq!(request.sql_dir.as_deref(), Some("/r"));
    assert_eq!(request.file, None);

    let request = completion_request(&words(&["--sql-dir", ""]));
    assert_eq!(request.target, Target::Nothing);

    let request = completion_request(&[]);
    assert_eq!(request.target, Target::Files);
}

#[test]
fn completion_candidates_follow_the_prefix() {
    let files = words(&["orders.sql", "stats.sql", "users.sql"]);
    assert_eq!(complete_from(&files, ""), files);
    assert_eq!(complete_from(&files, "s"), vec!["stats.sql"]);
    assert_eq!(complete_from(&files, "x"), Vec::<String>::new());

    let used = words(&["end_date", "start_date", "status"]);
    assert_eq!(
        variable_candidates(&used, &words(&["status"])),
        vec!["end_date=", "start_date="]
    );
    assert_eq!(variable_candidates(&used, &words(&["end_date", "start_date", "status"])).len(), 0);

    assert_eq!(complete_from(&option_candidates(), "--s"), vec!["--sql-dir"]);
    assert_eq!(option_candidates().len(), 6);
}

#[test]
fn a_leading_comment_changes_no_variable() {
    let rest = "SELECT :'a', ':''b''', :'c';";
    assert_eq!(extract_variables(&format!("-- :'x' /* {rest}\n{rest}")), extract_variables(rest));
    assert_eq!(extract_variables(&format!("/* :'x' -- */{rest}")), extract_variables(rest));
    assert_eq!(extract_variables(rest), vec!["a", "c"]);
}

#[test]
fn every_plain_reference_is_found() {
    let sql = "SELECT x:: :'b' , y :'a':'c' FROM t WHERE :'b' = 1";
    assert_eq!(extract_variables(sql), vec!["a", "b", "c"]);
}

#[test]
fn a_closed_quote_is_followed_by_no_quote() {
    let bytes = b"'a''''b' c";
    let end = skip_quoted(bytes, 0, false);
    assert_eq!(end, 8);
    assert_eq!(bytes[end - 1], b'\'');
    assert_ne!(bytes[end], b'\'');
}
