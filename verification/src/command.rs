//! Running a file: its `NAME=VALUE` assignments, the psql command, and what
//! psql's exit status becomes.

use vstd::prelude::*;

use crate::order::{lemma_lex_irreflexive, lex_lt, sorted_listing, strictly_sorted};
use crate::scan::{extract_variables, variables_of};
use crate::text::{
    append_str, ascii_text, chars_of, join, join_with, lemma_ascii_text_injective, pair_texts,
    push_char, string_from, texts,
};
use vstd::string::StringSliceAdditionalSpecFns;

verus! {

/// Index of the first `=` of `s` at or after `i`, or the length of `s`.
pub open spec fn equals_index(s: Seq<char>, i: int) -> int
    decreases s.len() - i,
{
    if i >= s.len() {
        s.len() as int
    } else if s[i] == '=' {
        i
    } else {
        equals_index(s, i + 1)
    }
}

/// The name and value of the assignment `arg`, split at its first `=`, or the
/// error it is rejected with.
pub open spec fn assignment(arg: Seq<char>) -> Result<(Seq<char>, Seq<char>), Seq<char>> {
    let k = equals_index(arg, 0);
    if k >= arg.len() {
        Err(arg + ": expected NAME=VALUE"@)
    } else if k == 0 {
        Err(arg + ": missing variable name"@)
    } else {
        Ok((arg.take(k), arg.skip(k + 1)))
    }
}

/// The index found is that of the first `=`.
pub proof fn lemma_equals_index(s: Seq<char>, i: int)
    requires
        0 <= i <= s.len(),
    ensures
        i <= equals_index(s, i) <= s.len(),
        forall|k: int| i <= k < equals_index(s, i) ==> s[k] != '=',
        equals_index(s, i) < s.len() ==> s[equals_index(s, i)] == '=',
    decreases s.len() - i,
{
    if i < s.len() && s[i] != '=' {
        lemma_equals_index(s, i + 1);
    }
}

/// An assignment is accepted exactly when it holds an `=` that is not its
/// first character; its name, an `=` and its value then make it up again,
/// and the name holds no `=`.
pub proof fn lemma_assignment_round_trip(arg: Seq<char>)
    ensures
        assignment(arg) is Ok <==> arg.contains('=') && arg[0] != '=',
        assignment(arg) matches Ok((name, value)) ==> {
            &&& name + seq!['='] + value == arg
            &&& name.len() > 0
            &&& !name.contains('=')
        },
{
    lemma_equals_index(arg, 0);
    let k = equals_index(arg, 0);
    if k < arg.len() && k > 0 {
        assert(arg.take(k) + seq!['='] + arg.skip(k + 1) =~= arg);
        assert(arg[k] == '=');
        if arg.take(k).contains('=') {
            let j = choose|j: int| 0 <= j < arg.take(k).len() && arg.take(k)[j] == '=';
            assert(arg[j] == '=');
        }
    }
    if arg.contains('=') {
        let j = choose|j: int| 0 <= j < arg.len() && arg[j] == '=';
        assert(k <= j);
    }
}

/// Splits a `name=value` argument, the value being allowed to contain `=`.
pub fn parse_assignment(argument: &str) -> (res: Result<(String, String), String>)
    ensures
        match res {
            Ok((name, value)) => assignment(argument@) == Ok::<_, Seq<char>>((name@, value@)),
            Err(e) => assignment(argument@) == Err::<(Seq<char>, Seq<char>), _>(e@),
        },
{
    let chars = chars_of(argument);
    let mut k: usize = 0;
    while k < chars.len() && chars[k] != '='
        invariant
            k <= chars@.len(),
            chars@ == argument@,
            equals_index(chars@, k as int) == equals_index(chars@, 0),
        decreases chars@.len() - k,
    {
        k += 1;
    }
    if k == chars.len() {
        let mut e = argument.to_owned();
        append_str(&mut e, ": expected NAME=VALUE");
        return Err(e);
    }
    if k == 0 {
        let mut e = argument.to_owned();
        append_str(&mut e, ": missing variable name");
        return Err(e);
    }
    let name = string_from(chars.as_slice(), 0, k);
    let value = string_from(chars.as_slice(), k + 1, chars.len());
    proof {
        assert(chars@.subrange(0, k as int) =~= argument@.take(k as int));
        assert(chars@.subrange(k + 1, chars@.len() as int) =~= argument@.skip(k + 1));
    }
    Ok((name, value))
}

/// The `-v` options setting `variables`, in their order.
pub open spec fn variable_options(variables: Seq<(Seq<char>, Seq<char>)>) -> Seq<Seq<char>>
    decreases variables.len(),
{
    if variables.len() == 0 {
        Seq::empty()
    } else {
        variable_options(variables.drop_last()) + seq![
            "-v"@,
            variables.last().0 + seq!['='] + variables.last().1,
        ]
    }
}

/// The text of an optional string.
pub open spec fn optional_text(s: Option<&str>) -> Option<Seq<char>> {
    match s {
        Some(t) => Some(t@),
        None => None,
    }
}

/// The arguments running psql quietly on `file` with `variables` set,
/// connecting with `dsn` when there is one. `--quiet` keeps the output to
/// what the file produces.
pub open spec fn psql_arguments(
    file: Seq<char>,
    dsn: Option<Seq<char>>,
    variables: Seq<(Seq<char>, Seq<char>)>,
) -> Seq<Seq<char>> {
    let connection = match dsn {
        Some(d) => seq!["-d"@, d],
        None => Seq::empty(),
    };
    seq!["psql"@, "--quiet"@] + connection + variable_options(variables) + seq!["-f"@, file]
}

/// Returns the psql command running `file` with `variables` set, as an argument
/// vector starting with the program name.
///
/// Without a `dsn`, psql takes its connection settings from the environment.
/// `file` is the path of the file, as psql is to be given it.
pub fn psql_command(file: &str, dsn: Option<&str>, variables: &[(String, String)]) -> (command: Vec<
    String,
>)
    ensures
        texts(command@) == psql_arguments(file@, optional_text(dsn), pair_texts(variables@)),
{
    let mut command: Vec<String> = Vec::new();
    command.push("psql".to_owned());
    command.push("--quiet".to_owned());
    if let Some(d) = dsn {
        command.push("-d".to_owned());
        command.push(d.to_owned());
    }
    let ghost head = texts(command@);
    proof {
        assert(head =~= seq!["psql"@, "--quiet"@] + match optional_text(dsn) {
            Some(d) => seq!["-d"@, d],
            None => Seq::empty(),
        });
        assert(pair_texts(variables@).subrange(0, 0) =~= Seq::<(Seq<char>, Seq<char>)>::empty());
        assert(head + variable_options(Seq::empty()) =~= head);
    }
    let mut i: usize = 0;
    while i < variables.len()
        invariant
            i <= variables@.len(),
            texts(command@) == head + variable_options(pair_texts(variables@).subrange(0, i as int)),
        decreases variables@.len() - i,
    {
        let mut setting = variables[i].0.clone();
        push_char(&mut setting, '=');
        append_str(&mut setting, variables[i].1.as_str());
        let ghost before = command@;
        command.push("-v".to_owned());
        command.push(setting);
        proof {
            let prefix = pair_texts(variables@).subrange(0, i + 1);
            assert(prefix.drop_last() =~= pair_texts(variables@).subrange(0, i as int));
            assert(prefix.last() == (variables@[i as int].0@, variables@[i as int].1@));
            assert(setting@ == prefix.last().0 + seq!['='] + prefix.last().1);
            assert(variable_options(prefix) == variable_options(prefix.drop_last()) + seq![
                "-v"@,
                prefix.last().0 + seq!['='] + prefix.last().1,
            ]);
            assert(texts(command@) =~= texts(before) + seq!["-v"@, setting@]);
        }
        i += 1;
    }
    let ghost before = command@;
    command.push("-f".to_owned());
    command.push(file.to_owned());
    proof {
        assert(pair_texts(variables@).subrange(0, variables@.len() as int) =~= pair_texts(variables@));
        assert(texts(command@) =~= texts(before) + seq!["-f"@, file@]);
    }
    command
}

/// Returns the exit code to leave with when psql ended with the status `code`:
/// that code, or a failure when a signal ended psql without one.
pub fn exit_code(code: Option<i32>) -> (res: u8)
    ensures
        res == match code {
            Some(c) => c as u8,
            None => 1,
        },
{
    match code {
        Some(0) => 0,
        Some(c) => c as u8,
        None => 1,
    }
}

/// Returns the index of `file` among the `names` of the listed files, the
/// first one when it occurs twice.
pub fn find_sql_file(dir: &str, names: &[String], file: &str) -> (res: Result<usize, String>)
    ensures
        match res {
            Ok(i) => {
                &&& i < names@.len()
                &&& names@[i as int]@ == file@
                &&& forall|j: int| 0 <= j < i ==> names@[j]@ != file@
            },
            Err(e) => {
                &&& forall|j: int| 0 <= j < names@.len() ==> names@[j]@ != file@
                &&& e@ == file@ + ": no such .sql file in "@ + dir@
            },
        },
{
    let wanted = file.to_owned();
    let mut i: usize = 0;
    while i < names.len()
        invariant
            i <= names@.len(),
            wanted@ == file@,
            forall|j: int| 0 <= j < i ==> names@[j]@ != file@,
        decreases names@.len() - i,
    {
        if names[i] == wanted {
            return Ok(i);
        }
        i += 1;
    }
    let mut e = file.to_owned();
    append_str(&mut e, ": no such .sql file in ");
    append_str(&mut e, dir);
    Err(e)
}

/// Checks the assignments from the `i`-th on, `bound` holding the values the
/// ones before set: each must be well formed and set, once, a variable of `used`.
pub open spec fn bind_from(
    file: Seq<char>,
    used: Seq<Seq<char>>,
    assignments: Seq<Seq<char>>,
    i: int,
    bound: Map<Seq<char>, Seq<char>>,
) -> Result<Map<Seq<char>, Seq<char>>, Seq<char>>
    decreases assignments.len() - i,
{
    if i < 0 || i >= assignments.len() {
        Ok(bound)
    } else {
        match assignment(assignments[i]) {
            Err(e) => Err(e),
            Ok((name, value)) => {
                if !used.contains(name) {
                    Err(file + ": unused variable: "@ + name)
                } else if bound.contains_key(name) {
                    Err(file + ": variable set twice: "@ + name)
                } else {
                    bind_from(file, used, assignments, i + 1, bound.insert(name, value))
                }
            },
        }
    }
}

/// The variables of `used` that `bound` leaves unset, in their order.
pub open spec fn unset(used: Seq<Seq<char>>, bound: Map<Seq<char>, Seq<char>>) -> Seq<Seq<char>>
    decreases used.len(),
{
    if used.len() == 0 {
        Seq::empty()
    } else if bound.contains_key(used.last()) {
        unset(used.drop_last(), bound)
    } else {
        unset(used.drop_last(), bound).push(used.last())
    }
}

/// The values `assignments` give the variables `used` by `file`, in the order
/// of `used`, or the error they are rejected with: the first malformed,
/// unused or repeated assignment, else the variables left unset.
pub open spec fn bindings(file: Seq<char>, used: Seq<Seq<char>>, assignments: Seq<Seq<char>>) -> Result<
    Seq<(Seq<char>, Seq<char>)>,
    Seq<char>,
> {
    match bind_from(file, used, assignments, 0, Map::empty()) {
        Err(e) => Err(e),
        Ok(bound) => {
            if unset(used, bound).len() > 0 {
                Err(file + ": unset variables: "@ + join(unset(used, bound), ", "@))
            } else {
                Ok(used.map_values(|n: Seq<char>| (n, bound[n])))
            }
        },
    }
}

/// Returns the index of the variable `name` in `used`.
fn position_of(used: &[String], name: &String) -> (res: Option<usize>)
    ensures
        match res {
            Some(p) => p < used@.len() && used@[p as int]@ == name@,
            None => !texts(used@).contains(name@),
        },
{
    let mut p: usize = 0;
    while p < used.len()
        invariant
            p <= used@.len(),
            forall|j: int| 0 <= j < p ==> used@[j]@ != name@,
        decreases used@.len() - p,
    {
        if used[p] == *name {
            return Some(p);
        }
        p += 1;
    }
    proof {
        if texts(used@).contains(name@) {
            let j = choose|j: int| 0 <= j < texts(used@).len() && texts(used@)[j] == name@;
            assert(used@[j]@ == name@);
        }
    }
    None
}

/// The values bound to the variables of `used`, in their order, when the
/// assignments are well formed and each sets, once, a variable of `used`.
pub open spec fn values_match(
    used: Seq<String>,
    values: Seq<Option<String>>,
    bound: Map<Seq<char>, Seq<char>>,
) -> bool {
    &&& values.len() == used.len()
    &&& forall|q: int|
        0 <= q < used.len() ==> (#[trigger] values[q] is Some <==> bound.contains_key(used[q]@))
    &&& forall|q: int|
        0 <= q < used.len() && #[trigger] values[q] is Some ==> bound[used[q]@] == values[q]->0@
}

/// Checks `assignments` against the variables `used` by `file`, returning the
/// value each variable is set to, when it is.
fn check_assignments(file: &str, used: &[String], assignments: &[String]) -> (res: Result<
    Vec<Option<String>>,
    String,
>)
    requires
        texts(used@).no_duplicates(),
    ensures
        match res {
            Ok(values) => bind_from(file@, texts(used@), texts(assignments@), 0, Map::empty()) matches Ok(
                bound,
            ) && values_match(used@, values@, bound),
            Err(e) => bind_from(file@, texts(used@), texts(assignments@), 0, Map::empty()) == Err::<
                Map<Seq<char>, Seq<char>>,
                _,
            >(e@),
        },
{
    let ghost u = texts(used@);
    let ghost a = texts(assignments@);
    let mut values: Vec<Option<String>> = Vec::new();
    let mut p: usize = 0;
    while p < used.len()
        invariant
            p <= used@.len(),
            values@.len() == p,
            forall|q: int| 0 <= q < p ==> values@[q] is None,
        decreases used@.len() - p,
    {
        values.push(None);
        p += 1;
    }
    let ghost mut bound: Map<Seq<char>, Seq<char>> = Map::empty();
    let mut i: usize = 0;
    while i < assignments.len()
        invariant
            i <= assignments@.len(),
            u == texts(used@),
            a == texts(assignments@),
            u.no_duplicates(),
            values@.len() == used@.len(),
            forall|q: int|
                0 <= q < used@.len() ==> (#[trigger] values@[q] is Some <==> bound.contains_key(
                    used@[q]@,
                )),
            forall|q: int|
                0 <= q < used@.len() && #[trigger] values@[q] is Some ==> bound[used@[q]@]
                    == values@[q]->0@,
            forall|n: Seq<char>| bound.contains_key(n) ==> u.contains(n),
            bind_from(file@, u, a, 0, Map::empty()) == bind_from(file@, u, a, i as int, bound),
        decreases assignments@.len() - i,
    {
        let parsed = parse_assignment(assignments[i].as_str());
        assert(a[i as int] == assignments@[i as int]@);
        let (name, value) = match parsed {
            Ok(pair) => pair,
            Err(e) => {
                return Err(e);
            },
        };
        let found = position_of(used, &name);
        let p = match found {
            Some(p) => p,
            None => {
                let mut e = file.to_owned();
                append_str(&mut e, ": unused variable: ");
                append_str(&mut e, name.as_str());
                return Err(e);
            },
        };
        assert(u[p as int] == used@[p as int]@);
        assert(u.contains(name@));
        if values[p].is_some() {
            let mut e = file.to_owned();
            append_str(&mut e, ": variable set twice: ");
            append_str(&mut e, name.as_str());
            return Err(e);
        }
        proof {
            assert(!bound.contains_key(name@));
            assert forall|q: int| 0 <= q < used@.len() && q != p implies used@[q]@ != name@ by {
                assert(u[q] == used@[q]@);
            }
        }
        let ghost v = value@;
        values.set(p, Some(value));
        proof {
            bound = bound.insert(name@, v);
        }
        i += 1;
    }
    Ok(values)
}

/// The names of `used` whose value is not set, in order.
fn unset_names(used: &[String], values: &Vec<Option<String>>, Ghost(fin): Ghost<Map<Seq<char>, Seq<char>>>) -> (missing: Vec<String>)
    requires
        values_match(used@, values@, fin),
    ensures
        texts(missing@) == unset(texts(used@), fin),
{
    let ghost u = texts(used@);
    let mut missing: Vec<String> = Vec::new();
    let mut q: usize = 0;
    while q < used.len()
        invariant
            q <= used@.len(),
            u == texts(used@),
            values@.len() == used@.len(),
            values_match(used@, values@, fin),
            texts(missing@) == unset(u.subrange(0, q as int), fin),
        decreases used@.len() - q,
    {
        let ghost prefix = u.subrange(0, q + 1);
        proof {
            assert(prefix.drop_last() =~= u.subrange(0, q as int));
            assert(prefix.last() == used@[q as int]@);
        }
        if values[q].is_none() {
            let ghost before = missing@;
            missing.push(used[q].clone());
            proof {
                assert(texts(missing@) =~= texts(before).push(used@[q as int]@));
            }
        }
        q += 1;
    }
    proof {
        assert(u.subrange(0, used@.len() as int) =~= u);
    }
    missing
}

/// Returns the values `assignments` give the variables `used` by `file`, in
/// the order of `used`.
///
/// Each assignment is a `NAME=VALUE` argument, and the assignments must set
/// exactly the variables used, each once.
pub fn bind_variables(file: &str, used: &[String], assignments: &[String]) -> (res: Result<
    Vec<(String, String)>,
    String,
>)
    requires
        texts(used@).no_duplicates(),
    ensures
        match res {
            Ok(pairs) => bindings(file@, texts(used@), texts(assignments@)) == Ok::<
                _,
                Seq<char>,
            >(pair_texts(pairs@)),
            Err(e) => bindings(file@, texts(used@), texts(assignments@)) == Err::<
                Seq<(Seq<char>, Seq<char>)>,
                _,
            >(e@),
        },
{
    let ghost u = texts(used@);
    let ghost a = texts(assignments@);
    let values = check_assignments(file, used, assignments)?;
    let ghost fin = match bind_from(file@, u, a, 0, Map::empty()) {
        Ok(bound) => bound,
        Err(_e) => Map::empty(),
    };
    let missing = unset_names(used, &values, Ghost(fin));
    if missing.len() > 0 {
        let mut e = file.to_owned();
        append_str(&mut e, ": unset variables: ");
        let names = join_with(missing.as_slice(), ", ");
        append_str(&mut e, names.as_str());
        return Err(e);
    }
    let mut pairs: Vec<(String, String)> = Vec::new();
    let mut k: usize = 0;
    while k < used.len()
        invariant
            k <= used@.len(),
            u == texts(used@),
            values@.len() == used@.len(),
            forall|j: int|
                0 <= j < used@.len() ==> (#[trigger] values@[j] is Some <==> fin.contains_key(
                    used@[j]@,
                )),
            forall|j: int|
                0 <= j < used@.len() && #[trigger] values@[j] is Some ==> fin[used@[j]@]
                    == values@[j]->0@,
            unset(u, fin).len() == 0,
            pair_texts(pairs@) == u.subrange(0, k as int).map_values(
                |n: Seq<char>| (n, fin[n]),
            ),
        decreases used@.len() - k,
    {
        proof {
            lemma_unset_empty(u, fin, k as int);
            assert(u[k as int] == used@[k as int]@);
        }
        let value = match &values[k] {
            Some(v) => v.clone(),
            None => String::new(),
        };
        let ghost before = pairs@;
        pairs.push((used[k].clone(), value));
        proof {
            assert(pair_texts(pairs@) =~= pair_texts(before).push((used@[k as int]@, value@)));
            assert(u.subrange(0, k + 1).map_values(|n: Seq<char>| (n, fin[n])) =~= u.subrange(
                0,
                k as int,
            ).map_values(|n: Seq<char>| (n, fin[n])).push((u[k as int], fin[u[k as int]])));
        }
        k += 1;
    }
    proof {
        assert(u.subrange(0, used@.len() as int) =~= u);
    }
    Ok(pairs)
}

/// A variable is left unset by `bound` when no value is bound to it.
pub proof fn lemma_unset_empty(used: Seq<Seq<char>>, bound: Map<Seq<char>, Seq<char>>, k: int)
    requires
        unset(used, bound).len() == 0,
        0 <= k < used.len(),
    ensures
        bound.contains_key(used[k]),
    decreases used.len(),
{
    if k < used.len() - 1 {
        if !bound.contains_key(used.last()) {
            assert(unset(used, bound).len() > 0);
        }
        lemma_unset_empty(used.drop_last(), bound, k);
    } else if !bound.contains_key(used.last()) {
        assert(unset(used, bound).len() > 0);
    }
}

/// The variables `sql` uses, sorted and deduplicated, as `extract_variables`
/// returns them.
pub open spec fn variable_names(sql: &str) -> Seq<Seq<char>> {
    sorted_listing(variables_of(sql.spec_bytes())).map_values(|n: Seq<u8>| ascii_text(n))
}

/// The texts of a strictly sorted listing of names are all different.
pub proof fn lemma_listing_texts_distinct(l: Seq<Seq<u8>>)
    requires
        strictly_sorted(l),
    ensures
        l.map_values(|n: Seq<u8>| ascii_text(n)).no_duplicates(),
{
    let t = l.map_values(|n: Seq<u8>| ascii_text(n));
    assert forall|i: int, j: int| 0 <= i < t.len() && 0 <= j < t.len() && i != j implies t[i]
        != t[j] by {
        if t[i] == t[j] {
            lemma_ascii_text_injective(l[i], l[j]);
            if i < j {
                assert(lex_lt(l[i], l[j]));
            } else {
                assert(lex_lt(l[j], l[i]));
            }
            lemma_lex_irreflexive(l[i]);
        }
    }
}

/// Returns the psql command running `file`, whose path is `path` and whose
/// text is `sql`, with `assignments`.
///
/// The assignments must cover exactly the variables the file uses.
pub fn command_for(
    file: &str,
    path: &str,
    sql: &str,
    dsn: Option<&str>,
    assignments: &[String],
) -> (res: Result<Vec<String>, String>)
    requires
        sql.spec_bytes().len() <= isize::MAX,
    ensures
        match res {
            Ok(command) => exists|pairs: Seq<(Seq<char>, Seq<char>)>|
                {
                    &&& bindings(file@, variable_names(sql), texts(assignments@)) == Ok::<
                        _,
                        Seq<char>,
                    >(pairs)
                    &&& texts(command@) == psql_arguments(path@, optional_text(dsn), pairs)
                },
            Err(e) => bindings(file@, variable_names(sql), texts(assignments@)) == Err::<
                Seq<(Seq<char>, Seq<char>)>,
                _,
            >(e@),
        },
{
    let used = extract_variables(sql);
    proof {
        lemma_listing_texts_distinct(sorted_listing(variables_of(sql.spec_bytes())));
    }
    let variables = bind_variables(file, used.as_slice(), assignments)?;
    Ok(psql_command(path, dsn, variables.as_slice()))
}

/// The name the assignment `arg` sets, when it is well formed.
pub open spec fn assigned_name(arg: Seq<char>) -> Seq<char> {
    match assignment(arg) {
        Ok((name, _value)) => name,
        Err(_e) => Seq::empty(),
    }
}

/// The value the assignment `arg` sets, when it is well formed.
pub open spec fn assigned_value(arg: Seq<char>) -> Seq<char> {
    match assignment(arg) {
        Ok((_name, value)) => value,
        Err(_e) => Seq::empty(),
    }
}

/// The assignments from the `i`-th on are well formed and set variables of `used`.
pub open spec fn all_valid_from(used: Seq<Seq<char>>, assignments: Seq<Seq<char>>, i: int) -> bool {
    forall|k: int|
        i <= k < assignments.len() ==> #[trigger] assignment(assignments[k]) is Ok && used.contains(
            assigned_name(assignments[k]),
        )
}

/// The assignments from the `i`-th on set different variables, none of `bound`.
pub open spec fn all_distinct_from(
    assignments: Seq<Seq<char>>,
    i: int,
    bound: Map<Seq<char>, Seq<char>>,
) -> bool {
    &&& forall|k: int, l: int|
        i <= k < l < assignments.len() ==> assigned_name(#[trigger] assignments[k])
            != assigned_name(#[trigger] assignments[l])
    &&& forall|k: int|
        i <= k < assignments.len() ==> !bound.contains_key(assigned_name(#[trigger] assignments[k]))
}

proof fn lemma_bind_from(
    file: Seq<char>,
    used: Seq<Seq<char>>,
    assignments: Seq<Seq<char>>,
    i: int,
    bound: Map<Seq<char>, Seq<char>>,
)
    requires
        0 <= i <= assignments.len(),
    ensures
        bind_from(file, used, assignments, i, bound) is Ok <==> all_valid_from(used, assignments, i)
            && all_distinct_from(assignments, i, bound),
        bind_from(file, used, assignments, i, bound) matches Ok(fin) ==> {
            &&& forall|n: Seq<char>| #[trigger]
                fin.contains_key(n) <==> bound.contains_key(n) || exists|k: int|
                    i <= k < assignments.len() && assigned_name(assignments[k]) == n
            &&& forall|n: Seq<char>| bound.contains_key(n) ==> #[trigger] fin[n] == bound[n]
            &&& forall|k: int|
                i <= k < assignments.len() ==> fin[assigned_name(#[trigger] assignments[k])]
                    == assigned_value(assignments[k])
        },
    decreases assignments.len() - i,
{
    if i < assignments.len() {
        let a = assignments[i];
        match assignment(a) {
            Err(_e) => {
                assert(!all_valid_from(used, assignments, i));
            },
            Ok((name, value)) => {
                if !used.contains(name) {
                    assert(!all_valid_from(used, assignments, i));
                } else if bound.contains_key(name) {
                    assert(!all_distinct_from(assignments, i, bound));
                } else {
                    let next = bound.insert(name, value);
                    lemma_bind_from(file, used, assignments, i + 1, next);
                    if all_valid_from(used, assignments, i) && all_distinct_from(
                        assignments,
                        i,
                        bound,
                    ) {
                        assert(all_valid_from(used, assignments, i + 1));
                        assert forall|k: int| i + 1 <= k < assignments.len() implies !next.contains_key(
                            assigned_name(#[trigger] assignments[k]),
                        ) by {
                            assert(assigned_name(assignments[i]) != assigned_name(assignments[k]));
                        }
                        assert(all_distinct_from(assignments, i + 1, next));
                    }
                    if all_valid_from(used, assignments, i + 1) && all_distinct_from(
                        assignments,
                        i + 1,
                        next,
                    ) {
                        assert(all_valid_from(used, assignments, i));
                        assert forall|k: int, l: int|
                            i <= k < l < assignments.len() implies assigned_name(
                            #[trigger] assignments[k],
                        ) != assigned_name(#[trigger] assignments[l]) by {
                            if k == i {
                                assert(next.contains_key(assigned_name(assignments[k])));
                            }
                        }
                        assert(all_distinct_from(assignments, i, bound));
                    }
                    if let Ok(fin) = bind_from(file, used, assignments, i, bound) {
                        assert forall|n: Seq<char>| #[trigger]
                            fin.contains_key(n) <==> bound.contains_key(n) || exists|k: int|
                                i <= k < assignments.len() && assigned_name(assignments[k]) == n by {
                            if fin.contains_key(n) && !bound.contains_key(n) {
                                if n == name {
                                    assert(assigned_name(assignments[i]) == n);
                                }
                            }
                            if exists|k: int|
                                i <= k < assignments.len() && assigned_name(assignments[k]) == n {
                                let k = choose|k: int|
                                    i <= k < assignments.len() && assigned_name(assignments[k])
                                        == n;
                                if k == i {
                                    assert(next.contains_key(n));
                                }
                            }
                        }
                        assert forall|k: int| i <= k < assignments.len() implies fin[assigned_name(
                            #[trigger] assignments[k],
                        )] == assigned_value(assignments[k]) by {
                            if k == i {
                                assert(next.contains_key(name));
                                assert(fin[name] == next[name]);
                            }
                        }
                    }
                }
            },
        }
    }
}

/// A variable is left unset by `bound` exactly when no value is bound to it.
pub proof fn lemma_unset(used: Seq<Seq<char>>, bound: Map<Seq<char>, Seq<char>>)
    ensures
        unset(used, bound).len() == 0 <==> forall|j: int|
            0 <= j < used.len() ==> bound.contains_key(#[trigger] used[j]),
    decreases used.len(),
{
    if used.len() > 0 {
        lemma_unset(used.drop_last(), bound);
        if unset(used, bound).len() == 0 {
            assert forall|j: int| 0 <= j < used.len() implies bound.contains_key(
                #[trigger] used[j],
            ) by {
                lemma_unset_empty(used, bound, j);
            }
        }
        if forall|j: int| 0 <= j < used.len() ==> bound.contains_key(#[trigger] used[j]) {
            assert(bound.contains_key(used[used.len() - 1]));
            assert forall|j: int| 0 <= j < used.drop_last().len() implies bound.contains_key(
                #[trigger] used.drop_last()[j],
            ) by {
                assert(used.drop_last()[j] == used[j]);
            }
        }
    }
}

/// Running a file succeeds exactly when each assignment is well formed and
/// sets a variable the file uses, no variable is set twice, and none is left
/// unset; the command then sets each variable, in order, to the value its
/// assignment gives.
pub proof fn lemma_bindings_accepted(
    file: Seq<char>,
    used: Seq<Seq<char>>,
    assignments: Seq<Seq<char>>,
)
    ensures
        bindings(file, used, assignments) is Ok <==> {
            &&& all_valid_from(used, assignments, 0)
            &&& forall|k: int, l: int|
                0 <= k < l < assignments.len() ==> assigned_name(#[trigger] assignments[k])
                    != assigned_name(#[trigger] assignments[l])
            &&& forall|j: int|
                0 <= j < used.len() ==> exists|k: int|
                    0 <= k < assignments.len() && assigned_name(assignments[k]) == #[trigger] used[j]
        },
        bindings(file, used, assignments) matches Ok(pairs) ==> {
            &&& pairs.len() == used.len()
            &&& forall|j: int|
                0 <= j < used.len() ==> #[trigger] pairs[j].0 == used[j] && exists|k: int|
                    0 <= k < assignments.len() && assigned_name(assignments[k]) == used[j]
                        && assigned_value(assignments[k]) == pairs[j].1
        },
{
    let empty = Map::<Seq<char>, Seq<char>>::empty();
    lemma_bind_from(file, used, assignments, 0, empty);
    assert(all_distinct_from(assignments, 0, empty) <==> forall|k: int, l: int|
        0 <= k < l < assignments.len() ==> assigned_name(#[trigger] assignments[k])
            != assigned_name(#[trigger] assignments[l]));
    if let Ok(fin) = bind_from(file, used, assignments, 0, empty) {
        lemma_unset(used, fin);
        if let Ok(pairs) = bindings(file, used, assignments) {
            assert forall|j: int| 0 <= j < used.len() implies #[trigger] pairs[j].0 == used[j]
                && exists|k: int|
                0 <= k < assignments.len() && assigned_name(assignments[k]) == used[j]
                    && assigned_value(assignments[k]) == pairs[j].1 by {
                assert(fin.contains_key(used[j]));
                let k = choose|k: int|
                    0 <= k < assignments.len() && assigned_name(assignments[k]) == used[j];
                assert(fin[assigned_name(assignments[k])] == assigned_value(assignments[k]));
            }
        }
        assert((forall|j: int| 0 <= j < used.len() ==> fin.contains_key(#[trigger] used[j]))
            <==> (forall|j: int|
            0 <= j < used.len() ==> exists|k: int|
                0 <= k < assignments.len() && assigned_name(assignments[k]) == #[trigger] used[j]));
    }
}

/// Returns the variables `sql` uses that `assignments` leave unset, in the
/// order of the listing, once the assignments are found well formed and
/// each setting, once, a variable the file uses.
pub fn pending_variables(file: &str, sql: &str, assignments: &[String]) -> (res: Result<
    Vec<String>,
    String,
>)
    requires
        sql.spec_bytes().len() <= isize::MAX,
    ensures
        match res {
            Ok(names) => bind_from(
                file@,
                variable_names(sql),
                texts(assignments@),
                0,
                Map::empty(),
            ) matches Ok(bound) && texts(names@) == unset(variable_names(sql), bound),
            Err(e) => bind_from(file@, variable_names(sql), texts(assignments@), 0, Map::empty())
                == Err::<Map<Seq<char>, Seq<char>>, _>(e@),
        },
{
    let used = extract_variables(sql);
    proof {
        lemma_listing_texts_distinct(sorted_listing(variables_of(sql.spec_bytes())));
    }
    let values = check_assignments(file, used.as_slice(), assignments)?;
    let ghost fin = match bind_from(
        file@,
        texts(used@),
        texts(assignments@),
        0,
        Map::empty(),
    ) {
        Ok(bound) => bound,
        Err(_e) => Map::empty(),
    };
    Ok(unset_names(used.as_slice(), &values, Ghost(fin)))
}

/// The value typed on `line`: the line without its line ending.
pub open spec fn typed_value(line: Seq<char>) -> Seq<char> {
    let l = if line.len() > 0 && line.last() == '\n' {
        line.drop_last()
    } else {
        line
    };
    if l.len() > 0 && l.last() == '\r' {
        l.drop_last()
    } else {
        l
    }
}

/// Returns the assignment of the variable `name` of `file` from the `line`
/// typed when asked for it, taken as typed, spaces included; when the input
/// ended before a line was given, the error saying so.
pub fn answer(file: &str, name: &str, line: Option<&str>) -> (res: Result<String, String>)
    ensures
        match line {
            Some(l) => res matches Ok(a) && a@ == name@ + seq!['='] + typed_value(l@),
            None => res matches Err(e) && e@ == file@ + ": "@ + name@ + ": no value given"@,
        },
{
    match line {
        Some(l) => {
            let chars = chars_of(l);
            let mut end = chars.len();
            if end > 0 && chars[end - 1] == '\n' {
                end -= 1;
            }
            if end > 0 && chars[end - 1] == '\r' {
                end -= 1;
            }
            let value = string_from(chars.as_slice(), 0, end);
            let mut a = name.to_owned();
            push_char(&mut a, '=');
            append_str(&mut a, value.as_str());
            proof {
                let t = l@;
                let first = if t.len() > 0 && t.last() == '\n' { t.drop_last() } else { t };
                assert(first =~= chars@.subrange(0, first.len() as int));
                assert(typed_value(t) =~= chars@.subrange(0, end as int));
            }
            Ok(a)
        },
        None => {
            let mut e = file.to_owned();
            append_str(&mut e, ": ");
            append_str(&mut e, name);
            append_str(&mut e, ": no value given");
            proof {
                assert(e@ =~= file@ + ": "@ + name@ + ": no value given"@);
            }
            Err(e)
        },
    }
}

/// The order of the assignments does not matter: any reordering of accepted
/// assignments gives the same variables and values, in the order of the
/// variables, and so the same psql command.
pub proof fn lemma_bindings_order_free(
    file: Seq<char>,
    used: Seq<Seq<char>>,
    first: Seq<Seq<char>>,
    second: Seq<Seq<char>>,
)
    requires
        bindings(file, used, first) is Ok,
        second.to_set() == first.to_set(),
        second.no_duplicates(),
    ensures
        bindings(file, used, second) == bindings(file, used, first),
{
    lemma_bindings_accepted(file, used, first);
    lemma_bindings_accepted(file, used, second);
    assert forall|k: int| 0 <= k < second.len() implies exists|m: int|
        0 <= m < first.len() && first[m] == #[trigger] second[k] by {
        assert(second.to_set().contains(second[k]));
    }
    assert(all_valid_from(used, second, 0)) by {
        assert forall|k: int| 0 <= k < second.len() implies #[trigger] assignment(second[k]) is Ok
            && used.contains(assigned_name(second[k])) by {
            let m = choose|m: int| 0 <= m < first.len() && first[m] == second[k];
            assert(assignment(first[m]) is Ok);
        }
    }
    assert forall|k: int, l: int| 0 <= k < l < second.len() implies assigned_name(
        #[trigger] second[k],
    ) != assigned_name(#[trigger] second[l]) by {
        let m = choose|m: int| 0 <= m < first.len() && first[m] == second[k];
        let n = choose|n: int| 0 <= n < first.len() && first[n] == second[l];
        assert(second[k] != second[l]);
        assert(m != n);
        if m < n {
            assert(assigned_name(first[m]) != assigned_name(first[n]));
        } else {
            assert(assigned_name(first[n]) != assigned_name(first[m]));
        }
    }
    assert forall|j: int| 0 <= j < used.len() implies exists|k: int|
        0 <= k < second.len() && assigned_name(second[k]) == #[trigger] used[j] by {
        let m = choose|m: int| 0 <= m < first.len() && assigned_name(first[m]) == used[j];
        assert(first.to_set().contains(first[m]));
        let k = choose|k: int| 0 <= k < second.len() && second[k] == first[m];
    }
    if let Ok(p1) = bindings(file, used, first) {
        if let Ok(p2) = bindings(file, used, second) {
            assert forall|j: int| 0 <= j < used.len() implies p2[j] == p1[j] by {
                assert(p1[j].0 == used[j]);
                assert(p2[j].0 == used[j]);
                let m = choose|m: int|
                    0 <= m < first.len() && assigned_name(first[m]) == used[j] && assigned_value(
                        first[m],
                    ) == p1[j].1;
                let k = choose|k: int|
                    0 <= k < second.len() && assigned_name(second[k]) == used[j] && assigned_value(
                        second[k],
                    ) == p2[j].1;
                let n = choose|n: int| 0 <= n < first.len() && first[n] == second[k];
                if n != m {
                    if n < m {
                        assert(assigned_name(first[n]) != assigned_name(first[m]));
                    } else {
                        assert(assigned_name(first[m]) != assigned_name(first[n]));
                    }
                }
            }
            assert(p2 =~= p1);
        }
    }
}

/// The values the first `i` assignments set, when accepted.
pub open spec fn prefix_bound(assignments: Seq<Seq<char>>, i: int) -> Map<Seq<char>, Seq<char>>
    decreases i,
{
    if i <= 0 {
        Map::empty()
    } else {
        prefix_bound(assignments, i - 1).insert(
            assigned_name(assignments[i - 1]),
            assigned_value(assignments[i - 1]),
        )
    }
}

proof fn lemma_prefix_bound_keys(assignments: Seq<Seq<char>>, i: int, n: Seq<char>)
    requires
        0 <= i,
    ensures
        prefix_bound(assignments, i).contains_key(n) <==> exists|j: int|
            0 <= j < i && assigned_name(assignments[j]) == n,
    decreases i,
{
    if i > 0 {
        lemma_prefix_bound_keys(assignments, i - 1, n);
        if exists|j: int| 0 <= j < i && assigned_name(assignments[j]) == n {
            let j = choose|j: int| 0 <= j < i && assigned_name(assignments[j]) == n;
            if j < i - 1 {
                assert(exists|j2: int| 0 <= j2 < i - 1 && assigned_name(assignments[j2]) == n);
            }
        }
    }
}

/// The error a rejected assignment gives: its own when malformed, else that
/// its variable is unused or set twice.
pub open spec fn rejection(file: Seq<char>, used: Seq<Seq<char>>, arg: Seq<char>) -> Seq<char> {
    match assignment(arg) {
        Err(e) => e,
        Ok((name, _value)) => if !used.contains(name) {
            file + ": unused variable: "@ + name
        } else {
            file + ": variable set twice: "@ + name
        },
    }
}

proof fn lemma_accepted_prefix(
    file: Seq<char>,
    used: Seq<Seq<char>>,
    assignments: Seq<Seq<char>>,
    i: int,
    k: int,
)
    requires
        0 <= i <= k <= assignments.len(),
        forall|j: int|
            0 <= j < k ==> #[trigger] assignment(assignments[j]) is Ok && used.contains(
                assigned_name(assignments[j]),
            ),
        forall|j: int, l: int|
            0 <= j < l < k ==> assigned_name(#[trigger] assignments[j]) != assigned_name(
                #[trigger] assignments[l],
            ),
    ensures
        bind_from(file, used, assignments, i, prefix_bound(assignments, i)) == bind_from(
            file,
            used,
            assignments,
            k,
            prefix_bound(assignments, k),
        ),
    decreases k - i,
{
    if i < k {
        let a = assignments[i];
        assert(assignment(a) is Ok);
        let n = assigned_name(a);
        lemma_prefix_bound_keys(assignments, i, n);
        if prefix_bound(assignments, i).contains_key(n) {
            let j = choose|j: int| 0 <= j < i && assigned_name(assignments[j]) == n;
            assert(assigned_name(assignments[j]) != assigned_name(assignments[i]));
        }
        lemma_accepted_prefix(file, used, assignments, i + 1, k);
    }
}

/// A run reports the first assignment rejected: malformed, setting a
/// variable the file does not use, or one an earlier assignment set.
pub proof fn lemma_first_rejection(
    file: Seq<char>,
    used: Seq<Seq<char>>,
    assignments: Seq<Seq<char>>,
    k: int,
)
    requires
        0 <= k < assignments.len(),
        forall|j: int|
            0 <= j < k ==> #[trigger] assignment(assignments[j]) is Ok && used.contains(
                assigned_name(assignments[j]),
            ),
        forall|j: int, l: int|
            0 <= j < l < k ==> assigned_name(#[trigger] assignments[j]) != assigned_name(
                #[trigger] assignments[l],
            ),
        assignment(assignments[k]) is Err || !used.contains(assigned_name(assignments[k]))
            || exists|j: int| 0 <= j < k && assigned_name(assignments[j]) == assigned_name(
                assignments[k],
            ),
    ensures
        bindings(file, used, assignments) == Err::<Seq<(Seq<char>, Seq<char>)>, _>(
            rejection(file, used, assignments[k]),
        ),
{
    lemma_accepted_prefix(file, used, assignments, 0, k);
    assert(prefix_bound(assignments, 0) =~= Map::<Seq<char>, Seq<char>>::empty());
    lemma_prefix_bound_keys(assignments, k, assigned_name(assignments[k]));
}

/// The variables of `used` that no assignment names, in the order of `used`.
pub open spec fn not_named(used: Seq<Seq<char>>, assignments: Seq<Seq<char>>) -> Seq<Seq<char>>
    decreases used.len(),
{
    if used.len() == 0 {
        Seq::empty()
    } else if exists|k: int|
        0 <= k < assignments.len() && assigned_name(assignments[k]) == used.last() {
        not_named(used.drop_last(), assignments)
    } else {
        not_named(used.drop_last(), assignments).push(used.last())
    }
}

proof fn lemma_unset_is_not_named(
    used: Seq<Seq<char>>,
    assignments: Seq<Seq<char>>,
    bound: Map<Seq<char>, Seq<char>>,
)
    requires
        forall|n: Seq<char>| #[trigger]
            bound.contains_key(n) <==> exists|k: int|
                0 <= k < assignments.len() && assigned_name(assignments[k]) == n,
    ensures
        unset(used, bound) == not_named(used, assignments),
    decreases used.len(),
{
    if used.len() > 0 {
        lemma_unset_is_not_named(used.drop_last(), assignments, bound);
        assert(bound.contains_key(used.last()) == exists|k: int|
            0 <= k < assignments.len() && assigned_name(assignments[k]) == used.last());
    }
}

/// When every assignment is accepted but some variables are left unset, a
/// run reports them, in the order of the variables, comma separated.
pub proof fn lemma_unset_rejection(
    file: Seq<char>,
    used: Seq<Seq<char>>,
    assignments: Seq<Seq<char>>,
)
    requires
        all_valid_from(used, assignments, 0),
        forall|k: int, l: int|
            0 <= k < l < assignments.len() ==> assigned_name(#[trigger] assignments[k])
                != assigned_name(#[trigger] assignments[l]),
        not_named(used, assignments).len() > 0,
    ensures
        bindings(file, used, assignments) == Err::<Seq<(Seq<char>, Seq<char>)>, _>(
            file + ": unset variables: "@ + join(not_named(used, assignments), ", "@),
        ),
{
    let empty = Map::<Seq<char>, Seq<char>>::empty();
    lemma_bind_from(file, used, assignments, 0, empty);
    assert(all_distinct_from(assignments, 0, empty));
    if let Ok(fin) = bind_from(file, used, assignments, 0, empty) {
        lemma_unset_is_not_named(used, assignments, fin);
    }
}

/// The variables `unset` gives are those of `used` that `bound` leaves
/// unset, each once when `used` holds each once.
proof fn lemma_unset_members(used: Seq<Seq<char>>, bound: Map<Seq<char>, Seq<char>>)
    ensures
        forall|n: Seq<char>|
            unset(used, bound).contains(n) <==> used.contains(n) && !bound.contains_key(n),
        used.no_duplicates() ==> unset(used, bound).no_duplicates(),
    decreases used.len(),
{
    if used.len() > 0 {
        let init = used.drop_last();
        lemma_unset_members(init, bound);
        assert forall|n: Seq<char>| used.contains(n) <==> init.contains(n) || n == used.last() by {
            if used.contains(n) && n != used.last() {
                let k = choose|k: int| 0 <= k < used.len() && used[k] == n;
                assert(init[k] == n);
            }
            if init.contains(n) {
                let k = choose|k: int| 0 <= k < init.len() && init[k] == n;
                assert(used[k] == n);
            }
            if n == used.last() {
                assert(used[used.len() - 1] == n);
            }
        }
        let r = unset(init, bound);
        if !bound.contains_key(used.last()) {
            assert forall|n: Seq<char>| r.push(used.last()).contains(n) <==> r.contains(n) || n
                == used.last() by {
                if r.push(used.last()).contains(n) && n != used.last() {
                    let k = choose|k: int| 0 <= k < r.push(used.last()).len() && r.push(used.last())[k] == n;
                    assert(r[k] == n);
                }
                if r.contains(n) {
                    let k = choose|k: int| 0 <= k < r.len() && r[k] == n;
                    assert(r.push(used.last())[k] == n);
                }
                if n == used.last() {
                    assert(r.push(used.last())[r.len() as int] == n);
                }
            }
            if used.no_duplicates() {
                assert(init.no_duplicates()) by {
                    assert forall|i: int, j: int|
                        0 <= i < init.len() && 0 <= j < init.len() && i != j implies init[i]
                        != init[j] by {
                        assert(used[i] == init[i] && used[j] == init[j]);
                    }
                }
                assert(!init.contains(used.last())) by {
                    if init.contains(used.last()) {
                        let k = choose|k: int| 0 <= k < init.len() && init[k] == used.last();
                        assert(used[k] == used[used.len() - 1]);
                    }
                }
                assert(!r.contains(used.last()));
                assert forall|i: int, j: int|
                    0 <= i < r.push(used.last()).len() && 0 <= j < r.push(used.last()).len() && i
                        != j implies r.push(used.last())[i] != r.push(used.last())[j] by {
                    if i < r.len() && j < r.len() {
                    } else if i < r.len() {
                        assert(r.contains(r[i]));
                    } else if j < r.len() {
                        assert(r.contains(r[j]));
                    }
                }
            }
        } else {
            if used.no_duplicates() {
                assert(init.no_duplicates()) by {
                    assert forall|i: int, j: int|
                        0 <= i < init.len() && 0 <= j < init.len() && i != j implies init[i]
                        != init[j] by {
                        assert(used[i] == init[i] && used[j] == init[j]);
                    }
                }
            }
        }
    }
}

/// The assignment `name=value` sets `name` to `value` when the name is
/// nonempty and holds no `=`.
pub proof fn lemma_assignment_of(name: Seq<char>, value: Seq<char>)
    requires
        name.len() > 0,
        !name.contains('='),
    ensures
        assignment(name + seq!['='] + value) == Ok::<_, Seq<char>>((name, value)),
{
    let arg = name + seq!['='] + value;
    lemma_equals_index(arg, 0);
    let k = equals_index(arg, 0);
    assert(arg[name.len() as int] == '=');
    if k < name.len() {
        assert(arg[k] == name[k]);
        assert(name.contains('='));
    }
    assert(k == name.len());
    assert(arg.take(k) =~= name);
    assert(arg.skip(k + 1) =~= value);
}

/// Answering, in order, each variable that the assignments leave unset makes
/// a run succeed: what the interactive mode asks for is exactly what is missing.
pub proof fn lemma_answers_complete(
    file: Seq<char>,
    used: Seq<Seq<char>>,
    assignments: Seq<Seq<char>>,
    values: Seq<Seq<char>>,
)
    requires
        used.no_duplicates(),
        forall|j: int| 0 <= j < used.len() ==> (#[trigger] used[j]).len() > 0 && !used[j].contains('='),
        bind_from(file, used, assignments, 0, Map::empty()) is Ok,
        values.len() == unset(used, bind_from(file, used, assignments, 0, Map::empty())->Ok_0).len(),
    ensures
        ({
            let pending = unset(used, bind_from(file, used, assignments, 0, Map::empty())->Ok_0);
            let answers = Seq::new(
                pending.len(),
                |j: int| pending[j] + seq!['='] + values[j],
            );
            bindings(file, used, assignments + answers) is Ok
        }),
{
    let empty = Map::<Seq<char>, Seq<char>>::empty();
    let fin = bind_from(file, used, assignments, 0, empty)->Ok_0;
    let pending = unset(used, fin);
    let answers = Seq::new(pending.len(), |j: int| pending[j] + seq!['='] + values[j]);
    let all = assignments + answers;
    let m = assignments.len() as int;
    lemma_bind_from(file, used, assignments, 0, empty);
    lemma_unset_members(used, fin);
    lemma_bindings_accepted(file, used, all);
    assert forall|j: int| 0 <= j < pending.len() implies assignment(#[trigger] answers[j])
        == Ok::<_, Seq<char>>((pending[j], values[j])) by {
        assert(pending.contains(pending[j]));
        assert(used.contains(pending[j]));
        let k = choose|k: int| 0 <= k < used.len() && used[k] == pending[j];
        assert(used[k].len() > 0 && !used[k].contains('='));
        lemma_assignment_of(pending[j], values[j]);
    }
    assert forall|k: int| 0 <= k < all.len() implies #[trigger] assignment(all[k]) is Ok
        && used.contains(assigned_name(all[k])) by {
        if k < m {
            assert(all[k] == assignments[k]);
        } else {
            assert(all[k] == answers[k - m]);
            assert(pending.contains(pending[k - m]));
        }
    }
    assert(all_valid_from(used, all, 0));
    assert forall|k: int, l: int| 0 <= k < l < all.len() implies assigned_name(#[trigger] all[k])
        != assigned_name(#[trigger] all[l]) by {
        if l < m {
            assert(all[k] == assignments[k] && all[l] == assignments[l]);
        } else if k < m {
            assert(all[k] == assignments[k] && all[l] == answers[l - m]);
            assert(fin.contains_key(assigned_name(assignments[k])));
            assert(pending.contains(pending[l - m]));
        } else {
            assert(all[k] == answers[k - m] && all[l] == answers[l - m]);
        }
    }
    assert forall|j: int| 0 <= j < used.len() implies exists|k: int|
        0 <= k < all.len() && assigned_name(all[k]) == #[trigger] used[j] by {
        assert(used.contains(used[j]));
        if fin.contains_key(used[j]) {
            let k = choose|k: int|
                0 <= k < assignments.len() && assigned_name(assignments[k]) == used[j];
            assert(all[k] == assignments[k]);
        } else {
            assert(pending.contains(used[j]));
            let i = choose|i: int| 0 <= i < pending.len() && pending[i] == used[j];
            assert(all[m + i] == answers[i]);
        }
    }
}

/// `args` sets `variable` at index `i`: `-v` there, then `name=value`.
pub open spec fn variable_set_at(args: Seq<Seq<char>>, i: int, variable: (Seq<char>, Seq<char>)) -> bool {
    args[i] == "-v"@ && args[i + 1] == variable.0 + seq!['='] + variable.1
}

/// The number of arguments that give the connection: `-d` and the string.
pub open spec fn connection_len(dsn: Option<Seq<char>>) -> int {
    if dsn is Some {
        2
    } else {
        0
    }
}

/// The layout of the psql command: the program and `--quiet`, then `-d` and
/// the connection string when one is given, then a `-v name=value` for each
/// variable, in order and whatever its value, empty included, then `-f` and
/// the file; nothing else.
pub proof fn lemma_psql_arguments_layout(
    file: Seq<char>,
    dsn: Option<Seq<char>>,
    variables: Seq<(Seq<char>, Seq<char>)>,
)
    ensures
        psql_arguments(file, dsn, variables).len() == 4 + connection_len(dsn) + 2 * variables.len(),
        psql_arguments(file, dsn, variables)[0] == "psql"@,
        psql_arguments(file, dsn, variables)[1] == "--quiet"@,
        dsn matches Some(c) ==> psql_arguments(file, dsn, variables)[2] == "-d"@ && psql_arguments(
            file,
            dsn,
            variables,
        )[3] == c,
        forall|j: int|
            0 <= j < variables.len() ==> #[trigger] variable_set_at(
                psql_arguments(file, dsn, variables),
                2 + connection_len(dsn) + 2 * j,
                variables[j],
            ),
        psql_arguments(file, dsn, variables)[2 + connection_len(dsn) + 2 * variables.len()]
            == "-f"@,
        psql_arguments(file, dsn, variables)[3 + connection_len(dsn) + 2 * variables.len()] == file,
{
    let d = connection_len(dsn);
    lemma_variable_options_len(variables);
    let connection = match dsn {
        Some(c) => seq!["-d"@, c],
        None => Seq::<Seq<char>>::empty(),
    };
    let opts = variable_options(variables);
    let args = psql_arguments(file, dsn, variables);
    assert(args == seq!["psql"@, "--quiet"@] + connection + opts + seq!["-f"@, file]);
    assert(connection.len() == d);
    assert(args.len() == 4 + d + 2 * variables.len());
    assert(args[0] == "psql"@);
    assert(args[1] == "--quiet"@);
    if dsn is Some {
        assert(args[2] == connection[0]);
        assert(args[3] == connection[1]);
    }
    assert(args[2 + d + 2 * variables.len()] == "-f"@);
    assert(args[3 + d + 2 * variables.len()] == file);
    assert forall|j: int| 0 <= j < variables.len() implies #[trigger] variable_set_at(
        args,
        2 + d + 2 * j,
        variables[j],
    ) by {
        lemma_variable_option_at(variables, j);
        assert(args[2 + d + 2 * j] == opts[2 * j]);
        assert(args[3 + d + 2 * j] == opts[2 * j + 1]);
    }
}

/// The `-v` options: two arguments per variable, `-v` then `name=value`.
proof fn lemma_variable_options_len(variables: Seq<(Seq<char>, Seq<char>)>)
    ensures
        variable_options(variables).len() == 2 * variables.len(),
    decreases variables.len(),
{
    if variables.len() > 0 {
        lemma_variable_options_len(variables.drop_last());
    }
}

/// The options of the `j`-th variable: `-v` then `name=value`.
proof fn lemma_variable_option_at(variables: Seq<(Seq<char>, Seq<char>)>, j: int)
    requires
        0 <= j < variables.len(),
    ensures
        variable_options(variables)[2 * j] == "-v"@,
        variable_options(variables)[2 * j + 1] == variables[j].0 + seq!['='] + variables[j].1,
    decreases variables.len(),
{
    let init = variables.drop_last();
    let last = variables.last();
    let opts = variable_options(variables);
    let prev = variable_options(init);
    lemma_variable_options_len(init);
    assert(opts == prev + seq!["-v"@, last.0 + seq!['='] + last.1]);
    if j < init.len() {
        lemma_variable_option_at(init, j);
        assert(init[j] == variables[j]);
        assert(opts[2 * j] == prev[2 * j]);
        assert(opts[2 * j + 1] == prev[2 * j + 1]);
    } else {
        assert(opts[2 * j] == "-v"@);
        assert(opts[2 * j + 1] == last.0 + seq!['='] + last.1);
    }
}

/// An accepted run sets every variable the file uses with one `-v`, in the
/// order of the variables, to the value its assignment gives (see
/// `lemma_bindings_accepted`), empty ones too.
pub proof fn lemma_every_variable_passed(
    file: Seq<char>,
    path: Seq<char>,
    dsn: Option<Seq<char>>,
    used: Seq<Seq<char>>,
    assignments: Seq<Seq<char>>,
)
    requires
        bindings(file, used, assignments) is Ok,
    ensures
        psql_arguments(path, dsn, bindings(file, used, assignments)->Ok_0).len() == 4
            + connection_len(dsn) + 2 * used.len(),
        forall|j: int|
            0 <= j < used.len() ==> #[trigger] variable_set_at(
                psql_arguments(path, dsn, bindings(file, used, assignments)->Ok_0),
                2 + connection_len(dsn) + 2 * j,
                (used[j], bindings(file, used, assignments)->Ok_0[j].1),
            ),
{
    let pairs = bindings(file, used, assignments)->Ok_0;
    lemma_bindings_accepted(file, used, assignments);
    assert(pairs.len() == used.len());
    lemma_psql_arguments_layout(path, dsn, pairs);
    assert forall|j: int| 0 <= j < used.len() implies #[trigger] variable_set_at(
        psql_arguments(path, dsn, pairs),
        2 + connection_len(dsn) + 2 * j,
        (used[j], pairs[j].1),
    ) by {
        assert(pairs[j].0 == used[j]);
        assert(variable_set_at(psql_arguments(path, dsn, pairs), 2 + connection_len(dsn) + 2 * j, pairs[j]));
    }
}

} // verus!
