//! Quoting arguments for a POSIX shell, and rendering a command line.
//!
//! `shell_words` models how a POSIX shell splits a command line into words,
//! for the subset of the shell language that the rendering produces: words of
//! plain characters, single-quoted text, backslash escapes, and lines joined
//! by a backslash before the newline. Anything else is left undefined (`None`),
//! as the shell could expand it.

use vstd::prelude::*;

use crate::text::{append_str, chars_of, push_char, texts};

verus! {

/// A character a POSIX shell takes literally outside quotes.
pub open spec fn safe_char(c: char) -> bool {
    ||| ('0' <= c && c <= '9')
    ||| ('a' <= c && c <= 'z')
    ||| ('A' <= c && c <= 'Z')
    ||| c == '-' || c == '_' || c == '.' || c == '/' || c == '='
    ||| c == ':' || c == ',' || c == '+' || c == '@'
}

/// A character a POSIX shell takes literally in an argument word: letters,
/// digits and `-_./=:,+@`. Operators (`;&|<>()`), blanks, quotes, `\`, and
/// the characters it expands (`$*?[~#` and the backquote) are not.
pub open spec fn shell_literal(c: char) -> bool {
    let punctuation = seq!['@', '+', ',', ':', '=', '/', '.', '_', '-'];
    ||| 'A' <= c <= 'Z'
    ||| 'a' <= c <= 'z'
    ||| '0' <= c <= '9'
    ||| punctuation.contains(c)
}

/// Every character of `a` is safe.
pub open spec fn all_safe(a: Seq<char>) -> bool {
    forall|i: int| 0 <= i < a.len() ==> safe_char(#[trigger] a[i])
}

/// How a character is written inside single quotes: a quote closes the quoted
/// text, is written escaped, and opens it again.
pub open spec fn quoted_piece(c: char) -> Seq<char> {
    if c == '\'' {
        seq!['\'', '\\', '\'', '\'']
    } else {
        seq![c]
    }
}

/// The characters of `a`, each written as inside single quotes.
pub open spec fn escape_quotes(a: Seq<char>) -> Seq<char>
    decreases a.len(),
{
    if a.len() == 0 {
        Seq::empty()
    } else {
        quoted_piece(a[0]) + escape_quotes(a.drop_first())
    }
}

/// `a` as a POSIX shell word: untouched when nonempty and made of safe
/// characters only, else in single quotes.
pub open spec fn shell_quoted(a: Seq<char>) -> Seq<char> {
    if a.len() > 0 && all_safe(a) {
        a
    } else {
        seq!['\''] + escape_quotes(a) + seq!['\'']
    }
}

/// `words`, with `w` in front of them.
pub open spec fn prepend(w: Seq<char>, words: Option<Seq<Seq<char>>>) -> Option<Seq<Seq<char>>> {
    match words {
        Some(ws) => Some(seq![w] + ws),
        None => None,
    }
}

/// The words a POSIX shell reads from `line`, `cur` being the word read so far
/// (`in_word` telling whether one was started) and `quoted` whether a
/// single-quoted text is open; `None` where `line` leaves the subset.
pub open spec fn shell_split(line: Seq<char>, cur: Seq<char>, in_word: bool, quoted: bool) -> Option<
    Seq<Seq<char>>,
>
    decreases line.len(),
{
    if line.len() == 0 {
        if quoted {
            None
        } else if in_word {
            Some(seq![cur])
        } else {
            Some(Seq::empty())
        }
    } else if quoted {
        if line[0] == '\'' {
            shell_split(line.drop_first(), cur, true, false)
        } else {
            shell_split(line.drop_first(), cur.push(line[0]), true, true)
        }
    } else if line[0] == '\'' {
        shell_split(line.drop_first(), cur, true, true)
    } else if line[0] == '\\' {
        if line.len() < 2 {
            None
        } else if line[1] == '\n' {
            shell_split(line.skip(2), cur, in_word, false)
        } else {
            shell_split(line.skip(2), cur.push(line[1]), true, false)
        }
    } else if line[0] == ' ' || line[0] == '\n' {
        let rest = shell_split(line.drop_first(), Seq::empty(), false, false);
        if in_word {
            prepend(cur, rest)
        } else {
            rest
        }
    } else if shell_literal(line[0]) {
        shell_split(line.drop_first(), cur.push(line[0]), true, false)
    } else {
        None
    }
}

/// The words a POSIX shell reads from the command line `line`.
pub open spec fn shell_words(line: Seq<char>) -> Option<Seq<Seq<char>>> {
    shell_split(line, Seq::empty(), false, false)
}

/// What separates two options of a rendered command: a space, a backslash
/// continuing the command on the next line, and an indentation of four spaces.
pub open spec fn continuation() -> Seq<char> {
    seq![' ', '\\', '\n', ' ', ' ', ' ', ' ']
}

/// A long option, `--name`, which takes no value of its own in a psql command.
pub open spec fn long_option(a: Seq<char>) -> bool {
    a.len() >= 2 && a[0] == '-' && a[1] == '-'
}

/// The options of `command` from index `i`, one per line: a long option
/// alone, any other flag with the value that follows it.
pub open spec fn options_text(command: Seq<Seq<char>>, i: int) -> Seq<char>
    decreases command.len() - i,
{
    if i < 0 || i >= command.len() {
        Seq::empty()
    } else if long_option(command[i]) || i + 1 >= command.len() {
        continuation() + (shell_quoted(command[i]) + options_text(command, i + 1))
    } else {
        continuation() + (shell_quoted(command[i]) + (seq![' '] + (shell_quoted(command[i + 1])
            + options_text(command, i + 2))))
    }
}

/// The rendering of `command`: the program, then one option per line.
pub open spec fn command_text(command: Seq<Seq<char>>) -> Seq<char> {
    shell_quoted(command[0]) + options_text(command, 1)
}

/// Escaping quotes distributes over concatenation.
pub proof fn lemma_escape_quotes_concat(a: Seq<char>, b: Seq<char>)
    ensures
        escape_quotes(a + b) == escape_quotes(a) + escape_quotes(b),
    decreases a.len(),
{
    if a.len() == 0 {
        assert(a + b =~= b);
    } else {
        lemma_escape_quotes_concat(a.drop_first(), b);
        assert((a + b).drop_first() =~= a.drop_first() + b);
        assert((a + b)[0] == a[0]);
    }
}

/// A shell reads the safe characters of `a` as they are, into the current word.
proof fn lemma_split_safe(a: Seq<char>, rest: Seq<char>, cur: Seq<char>, in_word: bool)
    requires
        all_safe(a),
        a.len() > 0,
    ensures
        shell_split(a + rest, cur, in_word, false) == shell_split(rest, cur + a, true, false),
    decreases a.len(),
{
    let line = a + rest;
    assert(line[0] == a[0]);
    assert(safe_char(a[0]));
    assert(shell_literal(a[0]));
    assert(line.drop_first() =~= a.drop_first() + rest);
    if a.len() == 1 {
        assert(a.drop_first() + rest =~= rest);
        assert(cur.push(a[0]) =~= cur + a);
    } else {
        assert(all_safe(a.drop_first())) by {
            assert forall|i: int| 0 <= i < a.drop_first().len() implies safe_char(
                #[trigger] a.drop_first()[i],
            ) by {
                assert(a.drop_first()[i] == a[i + 1]);
            }
        }
        lemma_split_safe(a.drop_first(), rest, cur.push(a[0]), true);
        assert(cur.push(a[0]) + a.drop_first() =~= cur + a);
    }
}

/// Inside single quotes, a shell reads the escaped characters of `a` back.
proof fn lemma_split_escaped(a: Seq<char>, rest: Seq<char>, cur: Seq<char>)
    ensures
        shell_split(escape_quotes(a) + rest, cur, true, true) == shell_split(rest, cur + a, true, true),
    decreases a.len(),
{
    if a.len() == 0 {
        assert(escape_quotes(a) + rest =~= rest);
        assert(cur + a =~= cur);
    } else {
        let c = a[0];
        let tail = escape_quotes(a.drop_first()) + rest;
        assert(escape_quotes(a) + rest =~= quoted_piece(c) + tail);
        lemma_split_escaped(a.drop_first(), rest, cur.push(c));
        assert(cur.push(c) + a.drop_first() =~= cur + a);
        let line = quoted_piece(c) + tail;
        if c == '\'' {
            // `'\''`: close the quotes, an escaped quote, open them again.
            assert(line[0] == '\'');
            let l1 = line.drop_first();
            assert(l1 =~= seq!['\\', '\'', '\''] + tail);
            assert(l1[0] == '\\' && l1[1] == '\'');
            let l2 = l1.skip(2);
            assert(l2 =~= seq!['\''] + tail);
            assert(l2[0] == '\'');
            assert(l2.drop_first() =~= tail);
            assert(shell_split(l2, cur.push(c), true, false) == shell_split(tail, cur.push(c), true, true));
            assert(shell_split(l1, cur, true, false) == shell_split(l2, cur.push(c), true, false));
            assert(shell_split(line, cur, true, true) == shell_split(l1, cur, true, false));
        } else {
            assert(line[0] == c);
            assert(line.drop_first() =~= tail);
            assert(shell_split(line, cur, true, true) == shell_split(tail, cur.push(c), true, true));
        }
    }
}

/// A shell reads the quoted `a` back as `a`, appended to the current word.
pub proof fn lemma_split_quoted(a: Seq<char>, rest: Seq<char>, cur: Seq<char>, in_word: bool)
    ensures
        shell_split(shell_quoted(a) + rest, cur, in_word, false) == shell_split(
            rest,
            cur + a,
            true,
            false,
        ),
{
    if a.len() > 0 && all_safe(a) {
        lemma_split_safe(a, rest, cur, in_word);
    } else {
        let line = shell_quoted(a) + rest;
        assert(line =~= seq!['\''] + (escape_quotes(a) + (seq!['\''] + rest)));
        assert(line[0] == '\'');
        assert(line.drop_first() =~= escape_quotes(a) + (seq!['\''] + rest));
        lemma_split_escaped(a, seq!['\''] + rest, cur);
        let closing = seq!['\''] + rest;
        assert(closing[0] == '\'');
        assert(closing.drop_first() =~= rest);
    }
}

/// After a word, a shell skips the continuation and starts the next word.
proof fn lemma_split_continuation(rest: Seq<char>, cur: Seq<char>)
    ensures
        shell_split(continuation() + rest, cur, true, false) == prepend(
            cur,
            shell_split(rest, Seq::empty(), false, false),
        ),
{
    let e = Seq::<char>::empty();
    let l0 = continuation() + rest;
    assert(l0[0] == ' ');
    let l1 = l0.drop_first();
    assert(l1 =~= seq!['\\', '\n', ' ', ' ', ' ', ' '] + rest);
    assert(l1[0] == '\\' && l1[1] == '\n');
    let l2 = l1.skip(2);
    assert(l2 =~= seq![' ', ' ', ' ', ' '] + rest);
    assert(l2[0] == ' ');
    let l3 = l2.drop_first();
    assert(l3 =~= seq![' ', ' ', ' '] + rest);
    assert(l3[0] == ' ');
    let l4 = l3.drop_first();
    assert(l4 =~= seq![' ', ' '] + rest);
    assert(l4[0] == ' ');
    let l5 = l4.drop_first();
    assert(l5 =~= seq![' '] + rest);
    assert(l5[0] == ' ');
    assert(l5.drop_first() =~= rest);
    assert(shell_split(l5, e, false, false) == shell_split(rest, e, false, false));
    assert(shell_split(l4, e, false, false) == shell_split(rest, e, false, false));
    assert(shell_split(l3, e, false, false) == shell_split(rest, e, false, false));
    assert(shell_split(l2, e, false, false) == shell_split(rest, e, false, false));
    assert(shell_split(l1, e, false, false) == shell_split(rest, e, false, false));
}

/// A shell reads the options of `command` from `i` back as its words from `i`.
proof fn lemma_split_options(command: Seq<Seq<char>>, i: int, cur: Seq<char>)
    requires
        1 <= i <= command.len(),
    ensures
        shell_split(options_text(command, i), cur, true, false) == Some(seq![cur] + command.skip(i)),
    decreases command.len() - i,
{
    let e = Seq::<char>::empty();
    if i == command.len() {
        assert(command.skip(i) =~= Seq::<Seq<char>>::empty());
        assert(seq![cur] + command.skip(i) =~= seq![cur]);
    } else if long_option(command[i]) || i + 1 >= command.len() {
        lemma_split_continuation(shell_quoted(command[i]) + options_text(command, i + 1), cur);
        lemma_split_quoted(command[i], options_text(command, i + 1), e, false);
        assert(e + command[i] =~= command[i]);
        lemma_split_options(command, i + 1, command[i]);
        assert(seq![cur] + (seq![command[i]] + command.skip(i + 1)) =~= seq![cur] + command.skip(i));
    } else {
        let after = seq![' '] + (shell_quoted(command[i + 1]) + options_text(command, i + 2));
        lemma_split_continuation(shell_quoted(command[i]) + after, cur);
        lemma_split_quoted(command[i], after, e, false);
        assert(e + command[i] =~= command[i]);
        assert(after[0] == ' ');
        assert(after.drop_first() =~= shell_quoted(command[i + 1]) + options_text(command, i + 2));
        lemma_split_quoted(command[i + 1], options_text(command, i + 2), e, false);
        assert(e + command[i + 1] =~= command[i + 1]);
        lemma_split_options(command, i + 2, command[i + 1]);
        assert(seq![cur] + (seq![command[i]] + (seq![command[i + 1]] + command.skip(i + 2)))
            =~= seq![cur] + command.skip(i));
    }
}

/// A POSIX shell reads a quoted argument back as the argument itself.
pub proof fn lemma_shell_reads_quoted(a: Seq<char>)
    ensures
        shell_words(shell_quoted(a)) == Some(seq![a]),
{
    let e = Seq::<char>::empty();
    assert(shell_quoted(a) =~= shell_quoted(a) + e);
    lemma_split_quoted(a, e, e, false);
    assert(e + a =~= a);
}

/// A POSIX shell reads a rendered command line back as the command: pasted in
/// a terminal, it runs the program with the same arguments.
pub proof fn lemma_shell_reads_command(command: Seq<Seq<char>>)
    requires
        command.len() >= 1,
    ensures
        shell_words(command_text(command)) == Some(command),
{
    let e = Seq::<char>::empty();
    lemma_split_quoted(command[0], options_text(command, 1), e, false);
    assert(e + command[0] =~= command[0]);
    lemma_split_options(command, 1, command[0]);
    assert(seq![command[0]] + command.skip(1) =~= command);
}

/// Tells whether a POSIX shell takes `c` literally outside quotes.
fn is_safe(c: char) -> (res: bool)
    ensures
        res == safe_char(c),
{
    ('0' <= c && c <= '9') || ('a' <= c && c <= 'z') || ('A' <= c && c <= 'Z') || c == '-' || c
        == '_' || c == '.' || c == '/' || c == '=' || c == ':' || c == ',' || c == '+' || c == '@'
}

/// Quotes `argument` for a POSIX shell, leaving an already safe one untouched.
pub fn shell_quote(argument: &str) -> (res: String)
    ensures
        res@ == shell_quoted(argument@),
{
    let chars = chars_of(argument);
    let mut safe = true;
    let mut i: usize = 0;
    while i < chars.len()
        invariant
            i <= chars@.len(),
            safe == (forall|k: int| 0 <= k < i ==> safe_char(#[trigger] chars@[k])),
        decreases chars@.len() - i,
    {
        if !is_safe(chars[i]) {
            safe = false;
        }
        i += 1;
    }
    if !chars.is_empty() && safe {
        return argument.to_owned();
    }
    let mut res = String::new();
    push_char(&mut res, '\'');
    let mut j: usize = 0;
    while j < chars.len()
        invariant
            j <= chars@.len(),
            chars@ == argument@,
            res@ == seq!['\''] + escape_quotes(chars@.take(j as int)),
        decreases chars@.len() - j,
    {
        let c = chars[j];
        proof {
            lemma_escape_quotes_concat(chars@.take(j as int), seq![c]);
            assert(chars@.take(j + 1) =~= chars@.take(j as int) + seq![c]);
            assert(escape_quotes(seq![c]) =~= quoted_piece(c)) by {
                assert(seq![c].drop_first() =~= Seq::<char>::empty());
                assert(escape_quotes(Seq::<char>::empty()) =~= Seq::<char>::empty());
                assert(seq![c][0] == c);
                assert(escape_quotes(seq![c]) == quoted_piece(c) + escape_quotes(seq![c].drop_first()));
            }
        }
        if c == '\'' {
            push_char(&mut res, '\'');
            push_char(&mut res, '\\');
            push_char(&mut res, '\'');
            push_char(&mut res, '\'');
        } else {
            push_char(&mut res, c);
        }
        proof {
            assert(res@ =~= seq!['\''] + escape_quotes(chars@.take(j + 1)));
        }
        j += 1;
    }
    push_char(&mut res, '\'');
    proof {
        assert(chars@.take(chars@.len() as int) =~= chars@);
        assert(res@ =~= seq!['\''] + escape_quotes(argument@) + seq!['\'']);
    }
    res
}

/// Tells whether `argument` is a long option, `--name`.
fn is_long_option(argument: &str) -> (res: bool)
    ensures
        res == long_option(argument@),
{
    let chars = chars_of(argument);
    chars.len() >= 2 && chars[0] == '-' && chars[1] == '-'
}

/// Appends the separator of two options to `line`.
fn push_continuation(line: &mut String)
    ensures
        final(line)@ == old(line)@ + continuation(),
{
    push_char(line, ' ');
    push_char(line, '\\');
    push_char(line, '\n');
    push_char(line, ' ');
    push_char(line, ' ');
    push_char(line, ' ');
    push_char(line, ' ');
    assert(final(line)@ =~= old(line)@ + continuation());
}

/// Renders `command` as a command line a POSIX shell would run identically,
/// the program on the first line then one option per continuation line.
///
/// An option is a flag and the value that follows it, as psql takes them, or
/// a long option such as `--quiet` alone.
pub fn format_command(command: &[String]) -> (line: String)
    requires
        command@.len() >= 1,
    ensures
        line@ == command_text(texts(command@)),
{
    let ghost cmd = texts(command@);
    let mut line = shell_quote(command[0].as_str());
    let mut i: usize = 1;
    while i < command.len()
        invariant
            1 <= i <= command@.len(),
            cmd == texts(command@),
            line@ + options_text(cmd, i as int) == command_text(cmd),
        decreases command@.len() - i,
    {
        let ghost before = line@;
        push_continuation(&mut line);
        let flag = shell_quote(command[i].as_str());
        append_str(&mut line, flag.as_str());
        let alone = is_long_option(command[i].as_str());
        if !alone && i + 1 < command.len() {
            push_char(&mut line, ' ');
            let value = shell_quote(command[i + 1].as_str());
            append_str(&mut line, value.as_str());
            proof {
                assert(cmd[i as int] == command@[i as int]@);
                assert(cmd[i + 1] == command@[i + 1]@);
                let tail = options_text(cmd, i + 2);
                assert(options_text(cmd, i as int) == continuation() + (shell_quoted(cmd[i as int]) + (
                seq![' '] + (shell_quoted(cmd[i + 1]) + tail))));
                assert(line@ + tail =~= before + options_text(cmd, i as int));
            }
            i += 2;
        } else {
            proof {
                assert(cmd[i as int] == command@[i as int]@);
                let tail = options_text(cmd, i + 1);
                assert(options_text(cmd, i as int) == continuation() + (shell_quoted(cmd[i as int])
                    + tail));
                assert(line@ + tail =~= before + options_text(cmd, i as int));
            }
            i += 1;
        }
    }
    proof {
        assert(options_text(cmd, i as int) =~= Seq::<char>::empty());
        assert(line@ + options_text(cmd, i as int) =~= line@);
    }
    line
}

/// `text` between the escapes displaying it in purple on a terminal.
pub open spec fn purple_text(text: Seq<char>) -> Seq<char> {
    seq!['\x1b', '[', '3', '5', 'm'] + text + seq!['\x1b', '[', '0', 'm']
}

/// Wraps `text` in the escapes displaying it in purple.
pub fn purple(text: &str) -> (res: String)
    ensures
        res@ == purple_text(text@),
{
    let mut res = String::new();
    push_char(&mut res, '\x1b');
    push_char(&mut res, '[');
    push_char(&mut res, '3');
    push_char(&mut res, '5');
    push_char(&mut res, 'm');
    append_str(&mut res, text);
    push_char(&mut res, '\x1b');
    push_char(&mut res, '[');
    push_char(&mut res, '0');
    push_char(&mut res, 'm');
    assert(res@ =~= purple_text(text@));
    res
}

/// An argument holding any character a shell does not take literally is
/// written in single quotes, each quote it holds as `'\''`: the shell runs
/// nothing of it and expands nothing.
pub proof fn lemma_unsafe_argument_quoted(a: Seq<char>, k: int)
    requires
        0 <= k < a.len(),
        !shell_literal(a[k]),
    ensures
        shell_quoted(a) == seq!['\''] + escape_quotes(a) + seq!['\''],
        !a.contains('\'') ==> shell_quoted(a) == seq!['\''] + a + seq!['\''],
{
    assert(!safe_char(a[k]));
    assert(!all_safe(a));
    if !a.contains('\'') {
        lemma_escape_plain(a);
    }
}

/// Without quotes in it, a text is written inside quotes as it is.
proof fn lemma_escape_plain(a: Seq<char>)
    requires
        !a.contains('\''),
    ensures
        escape_quotes(a) == a,
    decreases a.len(),
{
    if a.len() > 0 {
        assert(a[0] != '\'');
        assert(!a.drop_first().contains('\'')) by {
            if a.drop_first().contains('\'') {
                let j = choose|j: int| 0 <= j < a.drop_first().len() && a.drop_first()[j] == '\'';
                assert(a[j + 1] == '\'');
            }
        }
        lemma_escape_plain(a.drop_first());
        assert(seq![a[0]] + a.drop_first() =~= a);
    }
}

/// An argument is left unquoted only when it is nonempty and every character
/// of it is one a shell takes literally.
pub proof fn lemma_unquoted_only_literal(a: Seq<char>)
    ensures
        shell_quoted(a) == a ==> a.len() > 0 && forall|k: int|
            0 <= k < a.len() ==> shell_literal(#[trigger] a[k]),
{
    if shell_quoted(a) == a && !(a.len() > 0 && all_safe(a)) {
        assert(shell_quoted(a).len() == escape_quotes(a).len() + 2);
        lemma_escape_quotes_len(a);
    }
    if a.len() > 0 && all_safe(a) {
        assert forall|k: int| 0 <= k < a.len() implies shell_literal(#[trigger] a[k]) by {
            assert(safe_char(a[k]));
        }
    }
}

/// Quoting never shortens a text.
proof fn lemma_escape_quotes_len(a: Seq<char>)
    ensures
        escape_quotes(a).len() >= a.len(),
    decreases a.len(),
{
    if a.len() > 0 {
        lemma_escape_quotes_len(a.drop_first());
    }
}

} // verus!
