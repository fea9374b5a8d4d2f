//! The listing of the `.sql` files of a directory: which files, and the row
//! of each.

use vstd::prelude::*;

use crate::command::variable_names;
use crate::order::{insert_sorted, lemma_sorted_listing_is, sorted_listing, strictly_sorted, views};
use crate::scan::extract_variables;
use crate::table::{format_table3, table_text3, triple_texts};
use crate::text::{chars_of, join, join_with, string_from};
use vstd::string::StringSliceAdditionalSpecFns;

verus! {

/// ASCII whitespace, as `char::is_ascii_whitespace` tells it.
pub open spec fn blank(c: char) -> bool {
    c == ' ' || c == '\t' || c == '\n' || c == '\x0c' || c == '\r'
}

/// `t` without its leading blanks.
pub open spec fn trim_start(t: Seq<char>) -> Seq<char>
    decreases t.len(),
{
    if t.len() > 0 && blank(t[0]) {
        trim_start(t.drop_first())
    } else {
        t
    }
}

/// `t` without its trailing blanks.
pub open spec fn trim_end(t: Seq<char>) -> Seq<char>
    decreases t.len(),
{
    if t.len() > 0 && blank(t.last()) {
        trim_end(t.drop_last())
    } else {
        t
    }
}

/// Index of the first newline of `s` at or after `i`, or the length.
pub open spec fn newline_index(s: Seq<char>, i: int) -> int
    decreases s.len() - i,
{
    if i >= s.len() {
        s.len() as int
    } else if s[i] == '\n' {
        i
    } else {
        newline_index(s, i + 1)
    }
}

/// The description of the file whose text is `s`: the text of the `--`
/// comment making up its first line, without the marker and the blanks
/// around it; empty when the first line is no such comment.
pub open spec fn description_of(s: Seq<char>) -> Seq<char> {
    let line = s.take(newline_index(s, 0));
    if line.len() >= 2 && line[0] == '-' && line[1] == '-' {
        trim_end(trim_start(line.skip(2)))
    } else {
        Seq::empty()
    }
}

fn is_blank(c: char) -> (res: bool)
    ensures
        res == blank(c),
{
    c == ' ' || c == '\t' || c == '\n' || c == '\x0c' || c == '\r'
}

/// Returns the description of the file whose text is `sql`: the text of a
/// `--` comment making up its first line, without the marker and the blanks
/// around it, or nothing.
pub fn description(sql: &str) -> (res: String)
    ensures
        res@ == description_of(sql@),
{
    let chars = chars_of(sql);
    let ghost s = sql@;
    let mut k: usize = 0;
    while k < chars.len() && chars[k] != '\n'
        invariant
            k <= chars@.len(),
            chars@ == s,
            newline_index(s, k as int) == newline_index(s, 0),
        decreases chars@.len() - k,
    {
        k += 1;
    }
    let ghost line = s.take(k as int);
    if !(k >= 2 && chars[0] == '-' && chars[1] == '-') {
        return String::new();
    }
    let mut start: usize = 2;
    proof {
        assert(line.skip(2) =~= s.subrange(2, k as int));
    }
    while start < k && is_blank(chars[start])
        invariant
            2 <= start <= k <= chars@.len(),
            chars@ == s,
            trim_start(line.skip(2)) == trim_start(s.subrange(start as int, k as int)),
        decreases k - start,
    {
        proof {
            assert(s.subrange(start as int, k as int).drop_first() =~= s.subrange(start + 1, k as int));
        }
        start += 1;
    }
    let mut end: usize = k;
    proof {
        assert(trim_start(line.skip(2)) == s.subrange(start as int, k as int));
    }
    while end > start && is_blank(chars[end - 1])
        invariant
            2 <= start <= end <= k <= chars@.len(),
            chars@ == s,
            trim_end(trim_start(line.skip(2))) == trim_end(s.subrange(start as int, end as int)),
        decreases end - start,
    {
        proof {
            assert(s.subrange(start as int, end as int).drop_last() =~= s.subrange(start as int, end - 1));
        }
        end -= 1;
    }
    string_from(chars.as_slice(), start, end)
}

/// Returns the row listing the file `name` whose text is `sql`: its name, the
/// variables it uses, comma separated, and its description.
pub fn listing_row(name: &str, sql: &str) -> (row: (String, String, String))
    requires
        sql.spec_bytes().len() <= isize::MAX,
    ensures
        row.0@ == name@,
        row.1@ == join(variable_names(sql), ", "@),
        row.2@ == description_of(sql@),
{
    let variables = extract_variables(sql);
    (name.to_owned(), join_with(variables.as_slice(), ", "), description(sql))
}

/// Returns the listing of `rows`: the table under its `FILE`, `VARIABLES`
/// and `DESCRIPTION` headers, or nothing when there is no row.
pub fn listing(rows: &[(String, String, String)]) -> (text: String)
    ensures
        rows@.len() == 0 ==> text@.len() == 0,
        rows@.len() > 0 ==> text@ == table_text3(
            ("FILE"@, "VARIABLES"@, "DESCRIPTION"@),
            triple_texts(rows@),
        ),
{
    if rows.len() == 0 {
        String::new()
    } else {
        format_table3(("FILE", "VARIABLES", "DESCRIPTION"), rows)
    }
}

/// A space, tab, carriage return or form feed.
pub open spec fn whitespace(c: char) -> bool {
    c == ' ' || c == '\t' || c == '\r' || c == '\x0c'
}

proof fn lemma_trim_start(t: Seq<char>)
    requires
        forall|k: int| 0 <= k < t.len() ==> (#[trigger] t[k]) != '\n',
    ensures
        exists|i: int|
            0 <= i <= t.len() && trim_start(t) == t.skip(i) && (forall|k: int|
                0 <= k < i ==> whitespace(#[trigger] t[k])) && (i < t.len() ==> !whitespace(t[i])),
    decreases t.len(),
{
    if t.len() > 0 && blank(t[0]) {
        assert forall|k: int| 0 <= k < t.drop_first().len() implies (#[trigger] t.drop_first()[k])
            != '\n' by {
            assert(t.drop_first()[k] == t[k + 1]);
        }
        lemma_trim_start(t.drop_first());
        let i = choose|i: int|
            0 <= i <= t.drop_first().len() && trim_start(t.drop_first()) == t.drop_first().skip(i)
                && (forall|k: int| 0 <= k < i ==> whitespace(#[trigger] t.drop_first()[k])) && (i
                < t.drop_first().len() ==> !whitespace(t.drop_first()[i]));
        assert(t.drop_first().skip(i) =~= t.skip(i + 1));
        assert forall|k: int| 0 <= k < i + 1 implies whitespace(#[trigger] t[k]) by {
            if k > 0 {
                assert(t[k] == t.drop_first()[k - 1]);
            }
        }
        if i + 1 < t.len() {
            assert(t[i + 1] == t.drop_first()[i]);
        }
    } else {
        assert(t.skip(0) =~= t);
        if t.len() > 0 {
            assert(t[0] != '\n');
        }
    }
}

proof fn lemma_trim_end(t: Seq<char>)
    requires
        forall|k: int| 0 <= k < t.len() ==> (#[trigger] t[k]) != '\n',
    ensures
        exists|j: int|
            0 <= j <= t.len() && trim_end(t) == t.take(j) && (forall|k: int|
                j <= k < t.len() ==> whitespace(#[trigger] t[k])) && (j > 0 ==> !whitespace(t[j - 1])),
    decreases t.len(),
{
    if t.len() > 0 && blank(t.last()) {
        assert forall|k: int| 0 <= k < t.drop_last().len() implies (#[trigger] t.drop_last()[k])
            != '\n' by {
            assert(t.drop_last()[k] == t[k]);
        }
        lemma_trim_end(t.drop_last());
        let j = choose|j: int|
            0 <= j <= t.drop_last().len() && trim_end(t.drop_last()) == t.drop_last().take(j)
                && (forall|k: int| j <= k < t.drop_last().len() ==> whitespace(
                #[trigger] t.drop_last()[k],
            )) && (j > 0 ==> !whitespace(t.drop_last()[j - 1]));
        assert(t.drop_last().take(j) =~= t.take(j));
        assert forall|k: int| j <= k < t.len() implies whitespace(#[trigger] t[k]) by {
            if k < t.len() - 1 {
                assert(t[k] == t.drop_last()[k]);
            }
        }
        if j > 0 {
            assert(t[j - 1] == t.drop_last()[j - 1]);
        }
    } else {
        assert(t.take(t.len() as int) =~= t);
        if t.len() > 0 {
            assert(t.last() != '\n');
        }
    }
}

/// A description is the text of the first line after its `--`, from its
/// first to its last character that is not a space, tab, carriage return or
/// form feed; it is empty when the first line does not start with `--`.
pub proof fn lemma_description_is_trimmed_comment(s: Seq<char>)
    ensures
        ({
            let line = s.take(newline_index(s, 0));
            let text = line.skip(2);
            &&& !(line.len() >= 2 && line[0] == '-' && line[1] == '-') ==> description_of(s).len() == 0
            &&& (line.len() >= 2 && line[0] == '-' && line[1] == '-') ==> exists|i: int, j: int|
                0 <= i <= j <= text.len() && description_of(s) == text.subrange(i, j) && (forall|
                    k: int,
                | 0 <= k < i ==> whitespace(#[trigger] text[k])) && (forall|k: int|
                    j <= k < text.len() ==> whitespace(#[trigger] text[k])) && (i < j ==> !whitespace(
                    text[i],
                ) && !whitespace(text[j - 1]))
        }),
{
    lemma_newline_index(s, 0);
    let line = s.take(newline_index(s, 0));
    if line.len() >= 2 && line[0] == '-' && line[1] == '-' {
        let text = line.skip(2);
        assert forall|k: int| 0 <= k < text.len() implies (#[trigger] text[k]) != '\n' by {
            assert(text[k] == s[k + 2]);
        }
        lemma_trim_start(text);
        let i = choose|i: int|
            0 <= i <= text.len() && trim_start(text) == text.skip(i) && (forall|k: int|
                0 <= k < i ==> whitespace(#[trigger] text[k])) && (i < text.len() ==> !whitespace(
                text[i],
            ));
        let rest = text.skip(i);
        assert forall|k: int| 0 <= k < rest.len() implies (#[trigger] rest[k]) != '\n' by {
            assert(rest[k] == text[k + i]);
        }
        lemma_trim_end(rest);
        let j = choose|j: int|
            0 <= j <= rest.len() && trim_end(rest) == rest.take(j) && (forall|k: int|
                j <= k < rest.len() ==> whitespace(#[trigger] rest[k])) && (j > 0 ==> !whitespace(
                rest[j - 1],
            ));
        assert(rest.take(j) =~= text.subrange(i, i + j));
        assert forall|k: int| i + j <= k < text.len() implies whitespace(#[trigger] text[k]) by {
            assert(text[k] == rest[k - i]);
        }
        if j > 0 {
            assert(text[i] == rest[0]);
            assert(text[i + j - 1] == rest[j - 1]);
            if i < text.len() {
            }
        }
        assert(description_of(s) == text.subrange(i, i + j));
    }
}

/// The index found is the first newline's.
proof fn lemma_newline_index(s: Seq<char>, i: int)
    requires
        0 <= i <= s.len(),
    ensures
        i <= newline_index(s, i) <= s.len(),
        forall|k: int| i <= k < newline_index(s, i) ==> s[k] != '\n',
    decreases s.len() - i,
{
    if i < s.len() && s[i] != '\n' {
        lemma_newline_index(s, i + 1);
    }
}

/// The name of a `.sql` file: `.sql` after a nonempty stem.
pub open spec fn sql_file_name(n: Seq<u8>) -> bool {
    n.len() > 4 && n.subrange(n.len() - 4, n.len() as int) == seq![0x2eu8, 0x73u8, 0x71u8, 0x6cu8]
}

/// The names among `names` that are those of `.sql` files.
pub open spec fn sql_file_names(names: Seq<Seq<u8>>) -> Set<Seq<u8>> {
    Set::new(|n: Seq<u8>| names.contains(n) && sql_file_name(n))
}

fn is_sql_file_name(name: &[u8]) -> (res: bool)
    ensures
        res == sql_file_name(name@),
{
    let n = name.len();
    if n <= 4 {
        return false;
    }
    // `.sql`
    let res = name[n - 4] == 0x2e && name[n - 3] == 0x73 && name[n - 2] == 0x71 && name[n - 1]
        == 0x6c;
    proof {
        let tail = name@.subrange(n - 4, n as int);
        if res {
            assert(tail =~= seq![0x2eu8, 0x73u8, 0x71u8, 0x6cu8]);
        } else if tail == seq![0x2eu8, 0x73u8, 0x71u8, 0x6cu8] {
            assert(tail[0] == name@[n - 4]);
            assert(tail[1] == name@[n - 3]);
            assert(tail[2] == name@[n - 2]);
            assert(tail[3] == name@[n - 1]);
        }
    }
    res
}

/// Returns the names of the `.sql` files among the file `names` of a
/// directory, sorted byte-wise, which is the order of their paths.
pub fn select_sql_files(names: &[Vec<u8>]) -> (res: Vec<Vec<u8>>)
    ensures
        views(res@) == sorted_listing(sql_file_names(views(names@))),
        strictly_sorted(views(res@)),
        views(res@).to_set() == sql_file_names(views(names@)),
{
    let mut res: Vec<Vec<u8>> = Vec::new();
    let mut i: usize = 0;
    proof {
        assert(views(res@).to_set() =~= sql_file_names(views(names@).take(0)));
    }
    while i < names.len()
        invariant
            i <= names@.len(),
            strictly_sorted(views(res@)),
            views(res@).to_set() == sql_file_names(views(names@).take(i as int)),
        decreases names@.len() - i,
    {
        let ghost before = views(res@).to_set();
        assert(views(names@)[i as int] == names@[i as int]@);
        if is_sql_file_name(names[i].as_slice()) {
            let copy = vstd::slice::slice_to_vec(names[i].as_slice());
            insert_sorted(&mut res, copy);
        }
        proof {
            let t = views(names@).take(i + 1);
            assert(t =~= views(names@).take(i as int).push(names@[i as int]@));
            assert forall|x: Seq<u8>| views(res@).to_set().contains(x) <==> sql_file_names(t).contains(x) by {
                if t.contains(x) && x != names@[i as int]@ {
                    let k = choose|k: int| 0 <= k < t.len() && t[k] == x;
                    assert(views(names@).take(i as int)[k] == x);
                }
                if views(names@).take(i as int).contains(x) {
                    let k = choose|k: int| 0 <= k < i && views(names@).take(i as int)[k] == x;
                    assert(t[k] == x);
                }
                assert(t[i as int] == names@[i as int]@);
            }
            assert(views(res@).to_set() =~= sql_file_names(t));
        }
        i += 1;
    }
    proof {
        assert(views(names@).take(names@.len() as int) =~= views(names@));
        lemma_sorted_listing_is(views(res@));
    }
    res
}

/// The files selected are exactly those of the names given whose last four
/// bytes are `.`, `s`, `q`, `l` after at least one more byte: another
/// extension, `sql` without its dot, or `.sql` alone is never selected.
pub proof fn lemma_sql_file_names(names: Seq<Seq<u8>>, n: Seq<u8>)
    ensures
        sql_file_names(names).contains(n) <==> names.contains(n) && n.len() > 4 && n[n.len() - 4]
            == 0x2e && n[n.len() - 3] == 0x73 && n[n.len() - 2] == 0x71 && n[n.len() - 1] == 0x6c,
{
    if n.len() > 4 {
        let tail = n.subrange(n.len() - 4, n.len() as int);
        assert(tail[0] == n[n.len() - 4]);
        assert(tail[1] == n[n.len() - 3]);
        assert(tail[2] == n[n.len() - 2]);
        assert(tail[3] == n[n.len() - 1]);
        if n[n.len() - 4] == 0x2e && n[n.len() - 3] == 0x73 && n[n.len() - 2] == 0x71 && n[n.len()
            - 1] == 0x6c {
            assert(tail =~= seq![0x2eu8, 0x73u8, 0x71u8, 0x6cu8]);
        }
    }
}

} // verus!
