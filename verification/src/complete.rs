//! Shell completion: from the words typed so far, what to complete and with
//! which candidates.
//!
//! The completion script calls `sqlrunner --complete` with the words typed
//! after the program name, the last one being the word being completed.

use vstd::prelude::*;

use crate::command::equals_index;
use crate::text::{chars_of, push_char, string_from, texts};

verus! {

/// What the word being completed stands for.
#[derive(Clone, Copy, Debug, PartialEq, Eq, Structural)]
pub enum Target {
    /// The value of an option, which the shell completes itself or not at all.
    Nothing,
    /// An option.
    Options,
    /// The file to run.
    Files,
    /// An assignment of a variable of the file.
    Variables,
}

/// What a completion asks for.
pub struct CompletionRequest {
    /// What the word being completed stands for.
    pub target: Target,
    /// The directory given with `--sql-dir` among the words, if any.
    pub sql_dir: Option<String>,
    /// The file typed, if any.
    pub file: Option<String>,
    /// The names of the variables already assigned.
    pub given: Vec<String>,
    /// The word being completed, as typed so far.
    pub prefix: String,
}

/// `a` starts with `p`.
pub open spec fn starts_with(a: Seq<char>, p: Seq<char>) -> bool {
    p.len() <= a.len() && a.take(p.len() as int) == p
}

/// A word starting with `-`.
pub open spec fn is_flag(w: Seq<char>) -> bool {
    w.len() > 0 && w[0] == '-'
}

/// An option that takes the next word as its value.
pub open spec fn takes_value(w: Seq<char>) -> bool {
    w == "--sql-dir"@ || w == "--dsn"@ || w == "--completion"@
}

/// The `k`-th word is the value of the option before it.
pub open spec fn option_value(words: Seq<Seq<char>>, k: int) -> bool
    decreases k,
{
    if k < 1 {
        false
    } else {
        takes_value(words[k - 1]) && !option_value(words, k - 1)
    }
}

/// The `k`-th word is neither an option nor an option's value.
pub open spec fn positional(words: Seq<Seq<char>>, k: int) -> bool {
    !option_value(words, k) && !is_flag(words[k])
}

/// The positional words among the first `n`.
pub open spec fn positionals(words: Seq<Seq<char>>, n: int) -> Seq<Seq<char>>
    decreases n,
{
    if n <= 0 {
        Seq::empty()
    } else if positional(words, n - 1) {
        positionals(words, n - 1).push(words[n - 1])
    } else {
        positionals(words, n - 1)
    }
}

/// The directory the first `n` words give with `--sql-dir`, the last one
/// winning.
pub open spec fn sql_dir_given(words: Seq<Seq<char>>, n: int) -> Option<Seq<char>>
    decreases n,
{
    if n <= 0 {
        None
    } else if option_value(words, n - 1) && words[n - 2] == "--sql-dir"@ {
        Some(words[n - 1])
    } else if !option_value(words, n - 1) && starts_with(words[n - 1], "--sql-dir="@) {
        Some(words[n - 1].skip("--sql-dir="@.len() as int))
    } else {
        sql_dir_given(words, n - 1)
    }
}

/// The number of words typed before the one being completed.
pub open spec fn typed_count(words: Seq<Seq<char>>) -> int {
    if words.len() == 0 {
        0
    } else {
        words.len() - 1
    }
}

/// The word being completed.
pub open spec fn current_word(words: Seq<Seq<char>>) -> Seq<char> {
    if words.len() == 0 {
        Seq::empty()
    } else {
        words.last()
    }
}

/// What the word being completed stands for: an option's value, an option,
/// the file when none is typed yet, else a variable.
pub open spec fn target_of(words: Seq<Seq<char>>) -> Target {
    let n = typed_count(words);
    if words.len() > 0 && option_value(words, n) {
        Target::Nothing
    } else if is_flag(current_word(words)) {
        Target::Options
    } else if positionals(words, n).len() == 0 {
        Target::Files
    } else {
        Target::Variables
    }
}

/// The positional words after the first.
pub open spec fn after_first(p: Seq<Seq<char>>) -> Seq<Seq<char>> {
    if p.len() > 0 {
        p.drop_first()
    } else {
        Seq::empty()
    }
}

/// The names the assignments `words` set: each word up to its first `=`.
pub open spec fn assigned_names(words: Seq<Seq<char>>) -> Seq<Seq<char>> {
    words.map_values(|w: Seq<char>| w.take(equals_index(w, 0)))
}

/// The text of an optional string.
pub open spec fn optional_string(s: Option<String>) -> Option<Seq<char>> {
    match s {
        Some(t) => Some(t@),
        None => None,
    }
}

/// Tells whether the characters of `a` are those of `b`.
fn same_chars(a: &[char], b: &[char]) -> (res: bool)
    ensures
        res == (a@ == b@),
{
    if a.len() != b.len() {
        return false;
    }
    let mut k: usize = 0;
    while k < a.len()
        invariant
            k <= a@.len(),
            a@.len() == b@.len(),
            forall|j: int| 0 <= j < k ==> a@[j] == b@[j],
        decreases a@.len() - k,
    {
        if a[k] != b[k] {
            return false;
        }
        k += 1;
    }
    assert(a@ =~= b@);
    true
}

/// Tells whether `a` starts with `p`.
fn chars_start_with(a: &[char], p: &[char]) -> (res: bool)
    ensures
        res == starts_with(a@, p@),
{
    if p.len() > a.len() {
        return false;
    }
    let mut k: usize = 0;
    while k < p.len()
        invariant
            k <= p@.len() <= a@.len(),
            forall|j: int| 0 <= j < k ==> a@[j] == p@[j],
        decreases p@.len() - k,
    {
        if a[k] != p[k] {
            assert(a@.take(p@.len() as int)[k as int] != p@[k as int]);
            return false;
        }
        k += 1;
    }
    assert(a@.take(p@.len() as int) =~= p@);
    true
}

/// Tells whether `word` is an option taking the next word as its value.
fn is_value_option(word: &[char]) -> (res: bool)
    ensures
        res == takes_value(word@),
{
    let sql_dir = chars_of("--sql-dir");
    let dsn = chars_of("--dsn");
    let completion = chars_of("--completion");
    same_chars(word, sql_dir.as_slice()) || same_chars(word, dsn.as_slice()) || same_chars(
        word,
        completion.as_slice(),
    )
}

/// Returns what the completion of the last of `words` asks for.
pub fn completion_request(words: &[String]) -> (req: CompletionRequest)
    ensures
        req.target == target_of(texts(words@)),
        optional_string(req.sql_dir) == sql_dir_given(texts(words@), typed_count(texts(words@))),
        optional_string(req.file) == (if positionals(texts(words@), typed_count(texts(words@))).len()
            > 0 {
            Some(positionals(texts(words@), typed_count(texts(words@)))[0])
        } else {
            None::<Seq<char>>
        }),
        texts(req.given@) == assigned_names(
            after_first(positionals(texts(words@), typed_count(texts(words@)))),
        ),
        req.prefix@ == current_word(texts(words@)),
{
    let ghost ws = texts(words@);
    let n: usize = if words.len() == 0 {
        0
    } else {
        words.len() - 1
    };
    let sql_dir_eq = chars_of("--sql-dir=");
    proof {
        reveal_strlit("--sql-dir=");
    }
    let mut is_value = false;
    assert("--sql-dir="@[0] == '-');
    let mut sql_dir: Option<String> = None;
    let mut file: Option<String> = None;
    let mut given: Vec<String> = Vec::new();
    let mut k: usize = 0;
    while k < n
        invariant
            k <= n,
            n == typed_count(ws),
            ws == texts(words@),
            n <= words@.len(),
            sql_dir_eq@ == "--sql-dir="@,
            sql_dir_eq@.len() == 10,
            is_value == option_value(ws, k as int),
            optional_string(sql_dir) == sql_dir_given(ws, k as int),
            optional_string(file) == (if positionals(ws, k as int).len() > 0 {
                Some(positionals(ws, k as int)[0])
            } else {
                None::<Seq<char>>
            }),
            "--sql-dir="@[0] == '-',
            texts(given@) == assigned_names(after_first(positionals(ws, k as int))),
        decreases n - k,
    {
        let word = chars_of(words[k].as_str());
        assert(ws[k as int] == words@[k as int]@);
        let ghost pos = positionals(ws, k as int);
        if is_value {
            if k >= 1 {
                let previous = chars_of(words[k - 1].as_str());
                let dir_option = chars_of("--sql-dir");
                assert(ws[k - 1] == words@[k - 1]@);
                if same_chars(previous.as_slice(), dir_option.as_slice()) {
                    sql_dir = Some(words[k].clone());
                }
            }
            proof {
                assert(positionals(ws, k + 1) == pos);
            }
        } else if word.len() > 0 && word[0] == '-' {
            if chars_start_with(word.as_slice(), sql_dir_eq.as_slice()) {
                sql_dir = Some(string_from(word.as_slice(), 10, word.len()));
                proof {
                    assert(ws[k as int].skip(10) =~= word@.subrange(10, word@.len() as int));
                }
            }
            proof {
                assert(positionals(ws, k + 1) == pos);
            }
        } else {
            proof {
                if starts_with(ws[k as int], "--sql-dir="@) {
                    assert(ws[k as int].take(10)[0] == ws[k as int][0]);
                }
                assert(sql_dir_given(ws, k + 1) == sql_dir_given(ws, k as int));
            }
            if file.is_none() {
                file = Some(words[k].clone());
                proof {
                    assert(positionals(ws, k + 1) == pos.push(ws[k as int]));
                    assert(pos.len() == 0);
                    assert(after_first(pos.push(ws[k as int])) =~= Seq::<Seq<char>>::empty());
                    assert(assigned_names(Seq::<Seq<char>>::empty()) =~= Seq::<Seq<char>>::empty());
                }
            } else {
                let mut e: usize = 0;
                while e < word.len() && word[e] != '='
                    invariant
                        e <= word@.len(),
                        equals_index(word@, e as int) == equals_index(word@, 0),
                    decreases word@.len() - e,
                {
                    e += 1;
                }
                let name = string_from(word.as_slice(), 0, e);
                let ghost before = given@;
                given.push(name);
                proof {
                    assert(positionals(ws, k + 1) == pos.push(ws[k as int]));
                    assert(after_first(pos.push(ws[k as int])) =~= after_first(pos).push(ws[k as int]));
                    assert(word@.subrange(0, e as int) =~= ws[k as int].take(e as int));
                    assert(texts(given@) =~= texts(before).push(name@));
                    assert(assigned_names(after_first(pos).push(ws[k as int])) =~= assigned_names(
                        after_first(pos),
                    ).push(ws[k as int].take(equals_index(ws[k as int], 0))));
                }
            }
        }
        let next_is_value = !is_value && is_value_option(word.as_slice());
        is_value = next_is_value;
        k += 1;
    }
    let prefix = if words.len() == 0 {
        String::new()
    } else {
        words[n].clone()
    };
    let target = if words.len() > 0 && is_value {
        Target::Nothing
    } else if {
        let p = chars_of(prefix.as_str());
        p.len() > 0 && p[0] == '-'
    } {
        Target::Options
    } else if file.is_none() {
        Target::Files
    } else {
        Target::Variables
    };
    CompletionRequest { target, sql_dir, file, given, prefix }
}

/// The items of `items` that start with `prefix`, in their order.
pub open spec fn with_prefix(items: Seq<Seq<char>>, prefix: Seq<char>) -> Seq<Seq<char>>
    decreases items.len(),
{
    if items.len() == 0 {
        Seq::empty()
    } else if starts_with(items.last(), prefix) {
        with_prefix(items.drop_last(), prefix).push(items.last())
    } else {
        with_prefix(items.drop_last(), prefix)
    }
}

/// The assignments left to offer: `name=` for each variable of `used` that
/// `given` does not name, in the order of `used`.
pub open spec fn unassigned(used: Seq<Seq<char>>, given: Seq<Seq<char>>) -> Seq<Seq<char>>
    decreases used.len(),
{
    if used.len() == 0 {
        Seq::empty()
    } else if given.contains(used.last()) {
        unassigned(used.drop_last(), given)
    } else {
        unassigned(used.drop_last(), given).push(used.last().push('='))
    }
}

/// The options a completion offers.
pub open spec fn option_names() -> Seq<Seq<char>> {
    seq![
        "--completion"@,
        "--dsn"@,
        "--help"@,
        "--interactive"@,
        "--sql-dir"@,
        "--version"@,
    ]
}

/// Returns the items of `items` that start with `prefix`, in their order.
pub fn complete_from(items: &[String], prefix: &str) -> (res: Vec<String>)
    ensures
        texts(res@) == with_prefix(texts(items@), prefix@),
{
    let p = chars_of(prefix);
    let mut res: Vec<String> = Vec::new();
    let mut i: usize = 0;
    while i < items.len()
        invariant
            i <= items@.len(),
            p@ == prefix@,
            texts(res@) == with_prefix(texts(items@).take(i as int), prefix@),
        decreases items@.len() - i,
    {
        let item = chars_of(items[i].as_str());
        proof {
            let t = texts(items@).take(i + 1);
            assert(t.drop_last() =~= texts(items@).take(i as int));
            assert(t.last() == items@[i as int]@);
        }
        if chars_start_with(item.as_slice(), p.as_slice()) {
            let ghost before = res@;
            res.push(items[i].clone());
            proof {
                assert(texts(res@) =~= texts(before).push(items@[i as int]@));
            }
        }
        i += 1;
    }
    proof {
        assert(texts(items@).take(items@.len() as int) =~= texts(items@));
    }
    res
}

/// Returns `name=` for each variable of `used` that `given` does not name, in
/// the order of `used`.
pub fn variable_candidates(used: &[String], given: &[String]) -> (res: Vec<String>)
    ensures
        texts(res@) == unassigned(texts(used@), texts(given@)),
{
    let mut res: Vec<String> = Vec::new();
    let mut i: usize = 0;
    while i < used.len()
        invariant
            i <= used@.len(),
            texts(res@) == unassigned(texts(used@).take(i as int), texts(given@)),
        decreases used@.len() - i,
    {
        proof {
            let t = texts(used@).take(i + 1);
            assert(t.drop_last() =~= texts(used@).take(i as int));
            assert(t.last() == used@[i as int]@);
        }
        let mut found = false;
        let mut j: usize = 0;
        while j < given.len()
            invariant
                j <= given@.len(),
                i < used@.len(),
                found == exists|k: int| 0 <= k < j && given@[k]@ == used@[i as int]@,
            decreases given@.len() - j,
        {
            if given[j] == used[i] {
                found = true;
            }
            j += 1;
        }
        proof {
            if found {
                let k = choose|k: int| 0 <= k < given@.len() && given@[k]@ == used@[i as int]@;
                assert(texts(given@)[k] == used@[i as int]@);
            }
            if texts(given@).contains(used@[i as int]@) {
                let k = choose|k: int|
                    0 <= k < texts(given@).len() && texts(given@)[k] == used@[i as int]@;
                assert(given@[k]@ == used@[i as int]@);
            }
        }
        if !found {
            let mut candidate = used[i].clone();
            push_char(&mut candidate, '=');
            let ghost before = res@;
            res.push(candidate);
            proof {
                assert(texts(res@) =~= texts(before).push(used@[i as int]@.push('=')));
            }
        }
        i += 1;
    }
    proof {
        assert(texts(used@).take(used@.len() as int) =~= texts(used@));
    }
    res
}

/// Returns the options a completion offers.
pub fn option_candidates() -> (res: Vec<String>)
    ensures
        texts(res@) == option_names(),
{
    let mut res: Vec<String> = Vec::new();
    res.push("--completion".to_owned());
    res.push("--dsn".to_owned());
    res.push("--help".to_owned());
    res.push("--interactive".to_owned());
    res.push("--sql-dir".to_owned());
    res.push("--version".to_owned());
    assert(texts(res@) =~= option_names());
    res
}

/// Only `--sql-dir`, `--dsn` and `--completion` take the next word as their
/// value: among other words, none is an option's value.
proof fn lemma_no_option_value(words: Seq<Seq<char>>, k: int)
    requires
        forall|j: int|
            0 <= j < words.len() ==> #[trigger] words[j] != "--sql-dir"@ && words[j] != "--dsn"@
                && words[j] != "--completion"@,
        k <= words.len(),
    ensures
        !option_value(words, k),
    decreases k,
{
    if k >= 1 {
        assert(words[k - 1] != "--sql-dir"@);
    }
}

proof fn lemma_positionals_plain(words: Seq<Seq<char>>, n: int)
    requires
        0 <= n <= words.len(),
        forall|j: int|
            0 <= j < words.len() ==> #[trigger] words[j] != "--sql-dir"@ && words[j] != "--dsn"@
                && words[j] != "--completion"@,
    ensures
        positionals(words, n).len() == 0 <==> forall|j: int|
            0 <= j < n ==> (#[trigger] words[j]).len() > 0 && words[j][0] == '-',
        forall|k: int|
            0 <= k < n && !((#[trigger] words[k]).len() > 0 && words[k][0] == '-') && (forall|j: int|
                0 <= j < k ==> words[j].len() > 0 && words[j][0] == '-') ==> positionals(
                words,
                n,
            ).len() > 0 && positionals(words, n)[0] == words[k],
    decreases n,
{
    if n > 0 {
        lemma_positionals_plain(words, n - 1);
        lemma_no_option_value(words, n - 1);
        let prev = positionals(words, n - 1);
        assert forall|k: int|
            0 <= k < n && !((#[trigger] words[k]).len() > 0 && words[k][0] == '-') && (forall|j: int|
                0 <= j < k ==> words[j].len() > 0 && words[j][0] == '-') implies positionals(
            words,
            n,
        ).len() > 0 && positionals(words, n)[0] == words[k] by {
            if k == n - 1 {
                assert(prev.len() == 0);
            } else {
                assert(prev.len() > 0 && prev[0] == words[k]);
            }
        }
        if positionals(words, n).len() == 0 {
            assert(!positional(words, n - 1));
        }
    }
}

/// Flags such as `--interactive` or `-i` take no value: where none of
/// `--sql-dir`, `--dsn` and `--completion` is typed, the word being completed
/// is an option when it starts with `-`, else a variable of the file once a
/// word not starting with `-` was typed, the first such word being the file,
/// else a file.
pub proof fn lemma_flags_take_no_value(words: Seq<Seq<char>>)
    requires
        forall|j: int|
            0 <= j < words.len() ==> #[trigger] words[j] != "--sql-dir"@ && words[j] != "--dsn"@
                && words[j] != "--completion"@,
    ensures
        forall|k: int| 0 <= k <= words.len() ==> !option_value(words, k),
        target_of(words) == (if current_word(words).len() > 0 && current_word(words)[0] == '-' {
            Target::Options
        } else if exists|k: int|
            0 <= k < typed_count(words) && !((#[trigger] words[k]).len() > 0 && words[k][0] == '-') {
            Target::Variables
        } else {
            Target::Files
        }),
        forall|k: int|
            0 <= k < typed_count(words) && !((#[trigger] words[k]).len() > 0 && words[k][0] == '-')
                && (forall|j: int| 0 <= j < k ==> words[j].len() > 0 && words[j][0] == '-')
                ==> positionals(words, typed_count(words)).len() > 0 && positionals(
                words,
                typed_count(words),
            )[0] == words[k],
{
    assert forall|k: int| 0 <= k <= words.len() implies !option_value(words, k) by {
        lemma_no_option_value(words, k);
    }
    let n = typed_count(words);
    lemma_positionals_plain(words, n);
    if exists|k: int| 0 <= k < n && !((#[trigger] words[k]).len() > 0 && words[k][0] == '-') {
        let k = choose|k: int| 0 <= k < n && !((#[trigger] words[k]).len() > 0 && words[k][0] == '-');
        assert(!(words[k].len() > 0 && words[k][0] == '-'));
    }
}

} // verus!
