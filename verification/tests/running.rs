//! Running a file: the command built from its text and the assignments, and
//! how it is rendered.

use sqlrunner::command::{
    answer, bind_variables, command_for, exit_code, find_sql_file, parse_assignment,
    pending_variables, psql_command,
};
use sqlrunner::shell::{format_command, purple, shell_quote};

fn strings(items: &[&str]) -> Vec<String> {
    items.iter().map(|item| item.to_string()).collect()
}

#[test]
fn command_sets_the_variables_in_name_order() {
    let sql = "SELECT * FROM t WHERE day >= :'start' AND owner = :'owner';";
    let command = command_for(
        "orders.sql",
        "/q/orders.sql",
        sql,
        None,
        &strings(&["start=2026-08-04", "owner=a's shop"]),
    )
    .unwrap();

    // The arguments are passed to psql unquoted.
    assert_eq!(
        command,
        vec![
            "psql",
            "--quiet",
            "-v",
            "owner=a's shop",
            "-v",
            "start=2026-08-04",
            "-f",
            "/q/orders.sql"
        ]
    );
    assert_eq!(
        format_command(&command),
        "psql \\\n    --quiet \\\n    -v 'owner=a'\\''s shop' \\\n    -v start=2026-08-04 \\\n    -f /q/orders.sql"
    );
}

#[test]
fn command_connects_with_the_dsn() {
    let dsn = "postgresql://user@host:5432/db?sslmode=require";
    let command =
        command_for("stats.sql", "/q/stats.sql", "SELECT :'day';", Some(dsn), &strings(&["day=2026-08-04"]))
            .unwrap();

    // The `?` of the query string is quoted, as a shell would expand it.
    assert_eq!(
        format_command(&command),
        format!("psql \\\n    --quiet \\\n    -d '{dsn}' \\\n    -v day=2026-08-04 \\\n    -f /q/stats.sql")
    );
}

#[test]
fn command_of_a_file_without_variable() {
    let command = command_for("stats.sql", "/q/stats.sql", "SELECT 1;", None, &[]).unwrap();

    assert_eq!(format_command(&command), "psql \\\n    --quiet \\\n    -f /q/stats.sql");
}

#[test]
fn an_odd_option_count_ends_on_a_lone_argument() {
    assert_eq!(format_command(&strings(&["psql", "--quiet"])), "psql \\\n    --quiet");
    assert_eq!(format_command(&strings(&["psql"])), "psql");
}

#[test]
fn each_invalid_invocation_has_its_error() {
    let sql = "SELECT :'start', :'end';";
    let run = |assignments: &[&str]| command_for("orders.sql", "/q/orders.sql", sql, None, &strings(assignments));

    assert_eq!(run(&["start"]).unwrap_err(), "start: expected NAME=VALUE");
    assert_eq!(run(&["=1"]).unwrap_err(), "=1: missing variable name");
    assert_eq!(
        run(&["start=1", "other=2"]).unwrap_err(),
        "orders.sql: unused variable: other"
    );
    assert_eq!(
        run(&["start=1", "start=2"]).unwrap_err(),
        "orders.sql: variable set twice: start"
    );
    assert_eq!(run(&[]).unwrap_err(), "orders.sql: unset variables: end, start");
    assert_eq!(run(&["end=2"]).unwrap_err(), "orders.sql: unset variables: start");
    // The first faulty assignment is the one reported.
    assert_eq!(
        run(&["other=1", "start"]).unwrap_err(),
        "orders.sql: unused variable: other"
    );
    assert!(run(&["end=2", "start=1"]).is_ok());
}

#[test]
fn binding_keeps_the_order_of_the_variables() {
    let used = strings(&["a", "b", "c"]);
    let pairs = bind_variables("f.sql", &used, &strings(&["c=3", "a=1=x", "b="])).unwrap();

    assert_eq!(
        pairs,
        vec![
            ("a".to_string(), "1=x".to_string()),
            ("b".to_string(), String::new()),
            ("c".to_string(), "3".to_string()),
        ]
    );
}

#[test]
fn finds_only_a_listed_file() {
    let names = strings(&["a.sql", "orders.sql"]);

    assert_eq!(find_sql_file("/q", &names, "orders.sql"), Ok(1));
    assert_eq!(
        find_sql_file("/q", &names, "sub/orders.sql").unwrap_err(),
        "sub/orders.sql: no such .sql file in /q"
    );
    assert!(find_sql_file("/q", &names, "../orders.sql").is_err());
    assert!(find_sql_file("/q", &[], "a.sql").is_err());
}

#[test]
fn psql_command_puts_the_connection_first() {
    let variables = vec![("x".to_string(), "1".to_string())];

    assert_eq!(
        psql_command("/q/a.sql", Some("dbname=db"), &variables),
        vec!["psql", "--quiet", "-d", "dbname=db", "-v", "x=1", "-f", "/q/a.sql"]
    );
    assert_eq!(psql_command("a b.sql", None, &[]), vec!["psql", "--quiet", "-f", "a b.sql"]);
}

#[test]
fn assignments_split_at_the_first_equals_sign() {
    let (name, value) = parse_assignment("a=b=c").unwrap();
    assert_eq!(format!("{name}={value}"), "a=b=c");
    assert_eq!(parse_assignment("==").unwrap_err(), "==: missing variable name");
    assert_eq!(parse_assignment("").unwrap_err(), ": expected NAME=VALUE");
    assert_eq!(
        parse_assignment("é=ü").unwrap(),
        ("é".to_string(), "ü".to_string())
    );
}

#[test]
fn quoting_covers_every_unsafe_character() {
    assert_eq!(shell_quote("psql"), "psql");
    assert_eq!(shell_quote("-_./=:,+@aZ9"), "-_./=:,+@aZ9");
    assert_eq!(shell_quote("$HOME"), "'$HOME'");
    assert_eq!(shell_quote("a\\b"), "'a\\b'");
    assert_eq!(shell_quote("''"), r"''\'''\'''");
    assert_eq!(shell_quote("é"), "'é'");
    assert_eq!(shell_quote("a\nb"), "'a\nb'");
}

#[test]
fn purple_wraps_in_escapes() {
    assert_eq!(purple("psql \\\n    -f a.sql"), "\x1b[35mpsql \\\n    -f a.sql\x1b[0m");
    assert_eq!(purple(""), "\x1b[35m\x1b[0m");
}

#[test]
fn exit_codes_follow_psql() {
    assert_eq!(exit_code(Some(0)), 0);
    assert_eq!(exit_code(Some(2)), 2);
    assert_eq!(exit_code(Some(3)), 3);
    assert_eq!(exit_code(Some(256 + 4)), 4);
    assert_eq!(exit_code(None), 1);
}

/// Splits `line` into words as a POSIX shell does, for plain characters,
/// single quotes, backslash escapes and backslash-newline continuations.
fn shell_words(line: &str) -> Vec<String> {
    let chars: Vec<char> = line.chars().collect();
    let mut words = Vec::new();
    let mut word = String::new();
    let mut in_word = false;
    let mut i = 0;
    while i < chars.len() {
        match chars[i] {
            '\'' => {
                in_word = true;
                i += 1;
                while chars[i] != '\'' {
                    word.push(chars[i]);
                    i += 1;
                }
                i += 1;
            }
            '\\' if chars[i + 1] == '\n' => i += 2,
            '\\' => {
                word.push(chars[i + 1]);
                in_word = true;
                i += 2;
            }
            ' ' | '\n' => {
                if in_word {
                    words.push(std::mem::take(&mut word));
                    in_word = false;
                }
                i += 1;
            }
            c => {
                word.push(c);
                in_word = true;
                i += 1;
            }
        }
    }
    if in_word {
        words.push(word);
    }
    words
}

#[test]
fn a_shell_reads_the_rendered_command_back() {
    let commands = [
        strings(&["psql"]),
        strings(&["psql", "-f", "/q/a b.sql"]),
        strings(&["psql", "-d", "", "-v", "x=it's", "-f", "a.sql"]),
        strings(&["psql", "-v", "x=a\nb", "-v", "y=\\'\"$", "-f", "é.sql", "--quiet"]),
    ];
    for command in commands {
        assert_eq!(shell_words(&format_command(&command)), command);
    }
}

#[test]
fn a_long_option_stands_alone_on_its_line() {
    assert_eq!(
        format_command(&strings(&["psql", "--quiet", "-d", "--odd", "-f", "a.sql"])),
        "psql \\\n    --quiet \\\n    -d --odd \\\n    -f a.sql"
    );
}

#[test]
fn pending_variables_are_the_unset_ones_in_order() {
    let sql = "SELECT :'status', :'start_date', :'end_date';";

    assert_eq!(
        pending_variables("orders.sql", sql, &strings(&["status=paid"])).unwrap(),
        vec!["end_date", "start_date"]
    );
    assert!(pending_variables("orders.sql", sql, &strings(&[
        "status=a",
        "start_date=b",
        "end_date=c"
    ]))
    .unwrap()
    .is_empty());
    assert_eq!(
        pending_variables("orders.sql", sql, &strings(&["other=1"])).unwrap_err(),
        "orders.sql: unused variable: other"
    );
}

#[test]
fn answers_are_taken_as_typed() {
    assert_eq!(answer("f.sql", "day", Some("2026-08-05\n")).unwrap(), "day=2026-08-05");
    assert_eq!(answer("f.sql", "day", Some(" a b \r\n")).unwrap(), "day= a b ");
    assert_eq!(answer("f.sql", "day", Some("\n")).unwrap(), "day=");
    assert_eq!(answer("f.sql", "day", Some("x")).unwrap(), "day=x");
    assert_eq!(answer("stats.sql", "day", None).unwrap_err(), "stats.sql: day: no value given");
}

#[test]
fn answering_every_pending_variable_completes_the_run() {
    let sql = "SELECT :'status', :'start_date', :'end_date';";
    let mut assignments = strings(&["status=in progress"]);
    for name in pending_variables("orders.sql", sql, &assignments).unwrap() {
        assignments.push(answer("orders.sql", &name, Some("x=y\n")).unwrap());
    }

    assert_eq!(
        command_for("orders.sql", "/q/orders.sql", sql, None, &assignments).unwrap(),
        vec![
            "psql",
            "--quiet",
            "-v",
            "end_date=x=y",
            "-v",
            "start_date=x=y",
            "-v",
            "status=in progress",
            "-f",
            "/q/orders.sql"
        ]
    );
}

#[test]
fn the_order_of_the_assignments_does_not_matter() {
    let sql = "SELECT :'a', :'b', :'c';";
    let run = |assignments: &[&str]| command_for("f.sql", "/q/f.sql", sql, None, &strings(assignments));

    let expected = run(&["a=1", "b=2", "c=3"]).unwrap();
    assert_eq!(run(&["c=3", "a=1", "b=2"]).unwrap(), expected);
    assert_eq!(run(&["b=2", "c=3", "a=1"]).unwrap(), expected);
}
