//! Scanning SQL text for psql variable references `:'name'`.
//!
//! The scanner works on the UTF-8 bytes of the text. Every byte it looks for
//! is ASCII, and no byte of a multi-byte UTF-8 sequence is, so scanning the
//! bytes finds exactly what scanning the characters would.

use vstd::prelude::*;

use crate::order::{insert_sorted, lemma_sorted_listing_is, sorted_listing, strictly_sorted, views};
use crate::text::{ascii_string, ascii_text, texts};
use vstd::string::StringSliceAdditionalSpecFns;

verus! {

/// `\n`
pub const NEWLINE: u8 = 0x0a;
/// `"`
pub const DOUBLE_QUOTE: u8 = 0x22;
/// `$`
pub const DOLLAR: u8 = 0x24;
/// `'`
pub const QUOTE: u8 = 0x27;
/// `*`
pub const STAR: u8 = 0x2a;
/// `-`
pub const DASH: u8 = 0x2d;
/// `/`
pub const SLASH: u8 = 0x2f;
/// `:`
pub const COLON: u8 = 0x3a;
/// `\`
pub const BACKSLASH: u8 = 0x5c;
/// `E`
pub const UPPER_E: u8 = 0x45;
/// `e`
pub const LOWER_E: u8 = 0x65;

/// The bytes a variable or dollar-quote tag name is made of: ASCII letters,
/// digits and the underscore.
pub open spec fn name_byte(b: u8) -> bool {
    (0x30 <= b <= 0x39) || (0x41 <= b <= 0x5a) || (0x61 <= b <= 0x7a) || b == 0x5f
}

/// An ASCII digit.
pub open spec fn digit_byte(b: u8) -> bool {
    0x30 <= b <= 0x39
}

/// Tells whether `byte` can be part of a variable or dollar-quote tag name.
pub fn is_name_byte(byte: u8) -> (res: bool)
    ensures
        res == name_byte(byte),
{
    // '0'..='9', 'A'..='Z', 'a'..='z' and '_'.
    (0x30 <= byte && byte <= 0x39) || (0x41 <= byte && byte <= 0x5a) || (0x61 <= byte && byte
        <= 0x7a) || byte == 0x5f
}

/// Index of the first newline at or after `i`, or the length when there is none.
pub open spec fn line_end(b: Seq<u8>, i: int) -> int
    decreases b.len() - i,
{
    if i >= b.len() {
        b.len() as int
    } else if b[i] == NEWLINE {
        i
    } else {
        line_end(b, i + 1)
    }
}

/// Index just after the `*/` closing a block comment whose body is scanned
/// from `i`, `depth` comments being open; the length when it is not closed.
pub open spec fn block_end(b: Seq<u8>, i: int, depth: nat) -> int
    decreases b.len() - i,
{
    if i + 1 >= b.len() {
        b.len() as int
    } else if b[i] == SLASH && b[i + 1] == STAR {
        block_end(b, i + 2, depth + 1)
    } else if b[i] == STAR && b[i + 1] == SLASH {
        if depth <= 1 {
            i + 2
        } else {
            block_end(b, i + 2, (depth - 1) as nat)
        }
    } else {
        block_end(b, i + 1, depth)
    }
}

/// Index just after the `quote` closing a quoted text whose body is scanned
/// from `i`; the length when it is not closed. A doubled quote stands for
/// itself, and with `extended` a backslash escapes the byte after it.
pub open spec fn quoted_end(b: Seq<u8>, i: int, quote: u8, extended: bool) -> int
    decreases b.len() + 1 - i,
{
    if i >= b.len() {
        b.len() as int
    } else if extended && b[i] == BACKSLASH {
        quoted_end(b, i + 2, quote, extended)
    } else if b[i] != quote {
        quoted_end(b, i + 1, quote, extended)
    } else if i + 1 < b.len() && b[i + 1] == quote {
        quoted_end(b, i + 2, quote, extended)
    } else {
        i + 1
    }
}

/// Index of the first byte at or after `i` that is not a name byte, or the length.
pub open spec fn name_run_end(b: Seq<u8>, i: int) -> int
    decreases b.len() - i,
{
    if i >= b.len() {
        b.len() as int
    } else if !name_byte(b[i]) {
        i
    } else {
        name_run_end(b, i + 1)
    }
}

/// Index just after the first occurrence of `tag` starting at or after `p`,
/// or the length when there is none.
pub open spec fn tag_close(b: Seq<u8>, tag: Seq<u8>, p: int) -> int
    decreases b.len() + 1 - p,
{
    if p + tag.len() > b.len() {
        b.len() as int
    } else if b.subrange(p, p + tag.len()) == tag {
        p + tag.len()
    } else {
        tag_close(b, tag, p + 1)
    }
}

/// Index just after the dollar-quoted string opened at `start`, whose opening
/// tag runs from `start` to the next `$` past a run of name bytes not starting
/// with a digit; `start + 1` when no such tag opens there.
pub open spec fn dollar_end(b: Seq<u8>, start: int) -> int {
    let tag_end = name_run_end(b, start + 1);
    if !(tag_end < b.len() && b[tag_end] == DOLLAR) || digit_byte(b[start + 1]) {
        start + 1
    } else {
        tag_close(b, b.subrange(start, tag_end + 1), tag_end + 1)
    }
}

/// A line comment runs to the first newline, which it does not hold.
pub proof fn lemma_line_end(b: Seq<u8>, i: int)
    requires
        0 <= i <= b.len(),
    ensures
        i <= line_end(b, i) <= b.len(),
        forall|k: int| i <= k < line_end(b, i) ==> b[k] != NEWLINE,
        line_end(b, i) < b.len() ==> b[line_end(b, i)] == NEWLINE,
    decreases b.len() - i,
{
    if i < b.len() && b[i] != NEWLINE {
        lemma_line_end(b, i + 1);
    }
}

/// A block comment ends within the text, not before its body.
pub proof fn lemma_block_end_bounds(b: Seq<u8>, i: int, depth: nat)
    requires
        0 <= i <= b.len(),
    ensures
        i <= block_end(b, i, depth) <= b.len(),
    decreases b.len() - i,
{
    if i + 1 < b.len() {
        if b[i] == SLASH && b[i + 1] == STAR {
            lemma_block_end_bounds(b, i + 2, depth + 1);
        } else if b[i] == STAR && b[i + 1] == SLASH {
            if depth > 1 {
                lemma_block_end_bounds(b, i + 2, (depth - 1) as nat);
            }
        } else {
            lemma_block_end_bounds(b, i + 1, depth);
        }
    }
}

/// A quoted text ends within the text, not before its body.
pub proof fn lemma_quoted_end_bounds(b: Seq<u8>, i: int, quote: u8, extended: bool)
    requires
        0 <= i,
    ensures
        i <= b.len() ==> i <= quoted_end(b, i, quote, extended),
        quoted_end(b, i, quote, extended) <= b.len(),
    decreases b.len() + 1 - i,
{
    if i < b.len() {
        if extended && b[i] == BACKSLASH {
            lemma_quoted_end_bounds(b, i + 2, quote, extended);
        } else if b[i] != quote {
            lemma_quoted_end_bounds(b, i + 1, quote, extended);
        } else if i + 1 < b.len() && b[i + 1] == quote {
            lemma_quoted_end_bounds(b, i + 2, quote, extended);
        }
    }
}

/// A run of name bytes stops at the first byte that is not one.
pub proof fn lemma_name_run_end(b: Seq<u8>, i: int)
    requires
        0 <= i <= b.len(),
    ensures
        i <= name_run_end(b, i) <= b.len(),
        forall|k: int| i <= k < name_run_end(b, i) ==> name_byte(#[trigger] b[k]),
        name_run_end(b, i) < b.len() ==> !name_byte(b[name_run_end(b, i)]),
    decreases b.len() - i,
{
    if i < b.len() && name_byte(b[i]) {
        lemma_name_run_end(b, i + 1);
    }
}

/// The search for a closing tag ends within the text, past where it starts.
pub proof fn lemma_tag_close_bounds(b: Seq<u8>, tag: Seq<u8>, p: int)
    requires
        0 <= p <= b.len(),
        tag.len() > 0,
    ensures
        p < tag_close(b, tag, p) <= b.len() || (p == b.len() && tag_close(b, tag, p) == b.len()),
    decreases b.len() - p,
{
    if p + tag.len() <= b.len() && b.subrange(p, p + tag.len()) != tag {
        lemma_tag_close_bounds(b, tag, p + 1);
    }
}

/// Skips the `--` comment starting at `start`, returning the index of its newline.
pub fn skip_line_comment(bytes: &[u8], start: usize) -> (end: usize)
    requires
        start <= bytes@.len(),
    ensures
        end == line_end(bytes@, start as int),
        start <= end <= bytes@.len(),
        forall|k: int| start <= k < end ==> bytes@[k] != NEWLINE,
        end < bytes@.len() ==> bytes@[end as int] == NEWLINE,
{
    proof {
        lemma_line_end(bytes@, start as int);
    }
    let mut i = start;
    while i < bytes.len()
        invariant
            start <= i <= bytes@.len(),
            line_end(bytes@, i as int) == line_end(bytes@, start as int),
        decreases bytes@.len() - i,
    {
        if bytes[i] == NEWLINE {
            assert(line_end(bytes@, i as int) == i);
            proof {
                lemma_line_end(bytes@, start as int);
            }
            return i;
        }
        i += 1;
    }
    bytes.len()
}

/// Skips the `/* */` comment starting at `start`, returning the index just after it.
///
/// Such comments nest in PostgreSQL, so the opening markers are counted.
pub fn skip_block_comment(bytes: &[u8], start: usize) -> (end: usize)
    requires
        start <= usize::MAX - 2,
    ensures
        end == block_end(bytes@, start + 2, 1),
        end <= bytes@.len(),
        start + 2 <= bytes@.len() ==> start + 2 <= end,
{
    proof {
        if start + 2 <= bytes@.len() {
            lemma_block_end_bounds(bytes@, start + 2, 1);
        }
    }
    let mut i = start + 2;
    let mut depth: usize = 1;
    while i < bytes.len() && i + 1 < bytes.len()
        invariant
            start + 2 <= i,
            1 <= depth <= i,
            i + 1 < bytes@.len() ==> i <= bytes@.len(),
            block_end(bytes@, i as int, depth as nat) == block_end(bytes@, start + 2, 1),
        decreases bytes@.len() - i,
    {
        if bytes[i] == SLASH && bytes[i + 1] == STAR {
            depth += 1;
            i += 2;
        } else if bytes[i] == STAR && bytes[i + 1] == SLASH {
            if depth == 1 {
                return i + 2;
            }
            depth -= 1;
            i += 2;
        } else {
            i += 1;
        }
    }
    bytes.len()
}

/// Skips the string or quoted identifier opened at `start`, returning the index
/// just after its closing quote.
///
/// The quote character is doubled to escape itself; `extended` additionally
/// enables backslash escapes, as in an `E'...'` literal.
pub fn skip_quoted(bytes: &[u8], start: usize, extended: bool) -> (end: usize)
    requires
        start < bytes@.len(),
        bytes@.len() <= isize::MAX,
    ensures
        end == quoted_end(bytes@, start + 1, bytes@[start as int], extended),
        start + 1 <= end <= bytes@.len(),
{
    let quote = bytes[start];
    proof {
        lemma_quoted_end_bounds(bytes@, start + 1, quote, extended);
    }
    let mut i = start + 1;
    while i < bytes.len()
        invariant
            start + 1 <= i <= bytes@.len() + 1,
            bytes@.len() <= isize::MAX,
            quote == bytes@[start as int],
            quoted_end(bytes@, i as int, quote, extended) == quoted_end(
                bytes@,
                start + 1,
                quote,
                extended,
            ),
        decreases bytes@.len() + 1 - i,
    {
        if extended && bytes[i] == BACKSLASH {
            i += 2;
        } else if bytes[i] != quote {
            i += 1;
        } else if i + 1 < bytes.len() && bytes[i + 1] == quote {
            i += 2;
        } else {
            return i + 1;
        }
    }
    bytes.len()
}

/// Returns the index of the first byte at or after `start` that is not a name
/// byte, or the length.
fn name_run(bytes: &[u8], start: usize) -> (end: usize)
    requires
        start <= bytes@.len(),
    ensures
        end == name_run_end(bytes@, start as int),
{
    let mut i = start;
    while i < bytes.len() && is_name_byte(bytes[i])
        invariant
            start <= i <= bytes@.len(),
            name_run_end(bytes@, i as int) == name_run_end(bytes@, start as int),
        decreases bytes@.len() - i,
    {
        i += 1;
    }
    i
}

/// Tells whether the `len` bytes at `p` are those at `q`.
fn same_bytes_at(bytes: &[u8], p: usize, q: usize, len: usize) -> (res: bool)
    requires
        p + len <= bytes@.len(),
        q + len <= bytes@.len(),
    ensures
        res == (bytes@.subrange(p as int, p + len) == bytes@.subrange(q as int, q + len)),
{
    let n = bytes.len();
    let mut k: usize = 0;
    while k < len
        invariant
            k <= len,
            n == bytes@.len(),
            p + len <= bytes@.len(),
            q + len <= bytes@.len(),
            forall|j: int|
                0 <= j < k ==> #[trigger] bytes@.subrange(p as int, p + len)[j] == bytes@.subrange(
                    q as int,
                    q + len,
                )[j],
        decreases len - k,
    {
        if bytes[p + k] != bytes[q + k] {
            assert(bytes@.subrange(p as int, p + len)[k as int] != bytes@.subrange(
                q as int,
                q + len,
            )[k as int]);
            return false;
        }
        k += 1;
    }
    assert(bytes@.subrange(p as int, p + len) =~= bytes@.subrange(q as int, q + len));
    true
}

/// Skips the `$tag$ ... $tag$` string opened at `start`, returning the index
/// just after its closing tag.
///
/// Returns `start + 1` when the `$` does not open one, as in `$1`.
pub fn skip_dollar_quoted(bytes: &[u8], start: usize) -> (end: usize)
    requires
        start < bytes@.len(),
        bytes@.len() <= isize::MAX,
    ensures
        end == dollar_end(bytes@, start as int),
        start + 1 <= end <= bytes@.len(),
{
    let tag_end = name_run(bytes, start + 1);
    proof {
        lemma_name_run_end(bytes@, start + 1);
    }
    // A tag is optional but cannot start with a digit, which `$1` does.
    if !(tag_end < bytes.len() && bytes[tag_end] == DOLLAR) || (0x30 <= bytes[start + 1]
        && bytes[start + 1] <= 0x39) {
        return start + 1;
    }
    let tag_len = tag_end + 1 - start;
    let body = tag_end + 1;
    let ghost tag = bytes@.subrange(start as int, tag_end + 1);
    proof {
        lemma_tag_close_bounds(bytes@, tag, body as int);
    }
    assert(dollar_end(bytes@, start as int) == tag_close(bytes@, tag, body as int));
    let mut p = body;
    while p <= bytes.len() && tag_len <= bytes.len() - p
        invariant
            body <= p <= bytes@.len(),
            tag_len == tag.len(),
            tag == bytes@.subrange(start as int, start + tag_len),
            start + tag_len <= bytes@.len(),
            tag_len >= 2,
            tag_close(bytes@, tag, p as int) == tag_close(bytes@, tag, body as int),
            dollar_end(bytes@, start as int) == tag_close(bytes@, tag, body as int),
            start + 1 <= tag_close(bytes@, tag, body as int) <= bytes@.len(),
        decreases bytes@.len() - p,
    {
        if same_bytes_at(bytes, p, start, tag_len) {
            return p + tag_len;
        }
        p += 1;
    }
    bytes.len()
}

/// The quote at `i` opens an `E'...'` literal: an `e` or `E` stands just
/// before it, and is not the end of a longer name.
pub open spec fn extended_at(b: Seq<u8>, i: int) -> bool {
    i >= 1 && (b[i - 1] == LOWER_E || b[i - 1] == UPPER_E) && (i < 2 || !name_byte(b[i - 2]))
}

/// A `:'` at `i` followed by a nonempty run of name bytes and a closing `'`.
pub open spec fn reference_at(b: Seq<u8>, i: int) -> bool {
    &&& i + 1 < b.len()
    &&& b[i] == COLON
    &&& b[i + 1] == QUOTE
    &&& name_run_end(b, i + 2) > i + 2
    &&& name_run_end(b, i + 2) < b.len()
    &&& b[name_run_end(b, i + 2)] == QUOTE
}

/// The name of the reference at `i`.
pub open spec fn reference_name(b: Seq<u8>, i: int) -> Seq<u8> {
    b.subrange(i + 2, name_run_end(b, i + 2))
}

/// The index the scan resumes from after looking at the byte at `i`: past a
/// variable reference, a comment, a string literal, a quoted identifier or a
/// dollar-quoted string starting there, else past the byte.
pub open spec fn next_index(b: Seq<u8>, i: int) -> int {
    if i + 1 < b.len() && b[i] == COLON && b[i + 1] == QUOTE {
        if reference_at(b, i) {
            name_run_end(b, i + 2) + 1
        } else {
            // Not a variable: the quote that follows opens a literal.
            i + 1
        }
    } else if i + 1 < b.len() && b[i] == DASH && b[i + 1] == DASH {
        line_end(b, i)
    } else if i + 1 < b.len() && b[i] == SLASH && b[i + 1] == STAR {
        block_end(b, i + 2, 1)
    } else if b[i] == QUOTE {
        quoted_end(b, i + 1, QUOTE, extended_at(b, i))
    } else if b[i] == DOUBLE_QUOTE {
        quoted_end(b, i + 1, DOUBLE_QUOTE, false)
    } else if b[i] == DOLLAR {
        dollar_end(b, i)
    } else {
        i + 1
    }
}

/// The names of the variables referenced from index `i` on.
pub open spec fn names_from(b: Seq<u8>, i: int) -> Set<Seq<u8>>
    decreases b.len() - i,
    via names_from_decreases
{
    if i < 0 || i >= b.len() {
        Set::empty()
    } else if reference_at(b, i) {
        names_from(b, next_index(b, i)).insert(reference_name(b, i))
    } else {
        names_from(b, next_index(b, i))
    }
}

/// The names of the psql variables `:'name'` that the SQL text with the UTF-8
/// bytes `b` references where psql interpolates them.
pub open spec fn variables_of(b: Seq<u8>) -> Set<Seq<u8>> {
    names_from(b, 0)
}

#[via_fn]
proof fn names_from_decreases(b: Seq<u8>, i: int) {
    if 0 <= i < b.len() {
        lemma_next_index_advances(b, i);
    }
}

/// A dollar-quoted string ends within the text, past its opening `$`.
pub proof fn lemma_dollar_end_bounds(b: Seq<u8>, start: int)
    requires
        0 <= start < b.len(),
    ensures
        start + 1 <= dollar_end(b, start) <= b.len(),
{
    lemma_name_run_end(b, start + 1);
    let tag_end = name_run_end(b, start + 1);
    if tag_end < b.len() && b[tag_end] == DOLLAR && !digit_byte(b[start + 1]) {
        lemma_tag_close_bounds(b, b.subrange(start, tag_end + 1), tag_end + 1);
    }
}

/// The scan always moves forward, and never past the end.
pub proof fn lemma_next_index_advances(b: Seq<u8>, i: int)
    requires
        0 <= i < b.len(),
    ensures
        i < next_index(b, i) <= b.len(),
{
    if i + 1 < b.len() && b[i] == COLON && b[i + 1] == QUOTE {
        lemma_name_run_end(b, i + 2);
    } else if i + 1 < b.len() && b[i] == DASH && b[i + 1] == DASH {
        lemma_line_end(b, i + 1);
    } else if i + 1 < b.len() && b[i] == SLASH && b[i + 1] == STAR {
        lemma_block_end_bounds(b, i + 2, 1);
    } else if b[i] == QUOTE {
        lemma_quoted_end_bounds(b, i + 1, QUOTE, extended_at(b, i));
    } else if b[i] == DOUBLE_QUOTE {
        lemma_quoted_end_bounds(b, i + 1, DOUBLE_QUOTE, false);
    } else if b[i] == DOLLAR {
        lemma_dollar_end_bounds(b, i);
    }
}

/// Every variable found is a nonempty name made of ASCII letters, digits and
/// underscores, and the set of them is finite.
pub proof fn lemma_variables_are_names(b: Seq<u8>, i: int)
    requires
        0 <= i,
    ensures
        names_from(b, i).finite(),
        forall|n: Seq<u8>| #[trigger]
            names_from(b, i).contains(n) ==> n.len() > 0 && forall|k: int|
                0 <= k < n.len() ==> name_byte(#[trigger] n[k]),
    decreases b.len() - i,
{
    if i < b.len() {
        lemma_next_index_advances(b, i);
        lemma_variables_are_names(b, next_index(b, i));
        if reference_at(b, i) {
            lemma_name_run_end(b, i + 2);
            let n = reference_name(b, i);
            assert forall|k: int| 0 <= k < n.len() implies name_byte(#[trigger] n[k]) by {
                assert(n[k] == b[i + 2 + k]);
            }
        }
    }
}

/// Copies the bytes of `bytes` from `start` to `end`.
fn copy_range(bytes: &[u8], start: usize, end: usize) -> (res: Vec<u8>)
    requires
        start <= end <= bytes@.len(),
    ensures
        res@ == bytes@.subrange(start as int, end as int),
{
    let mut res = Vec::new();
    let mut k = start;
    while k < end
        invariant
            start <= k <= end <= bytes@.len(),
            res@ == bytes@.subrange(start as int, k as int),
        decreases end - k,
    {
        res.push(bytes[k]);
        proof {
            assert(bytes@.subrange(start as int, k + 1) =~= bytes@.subrange(
                start as int,
                k as int,
            ).push(bytes@[k as int]));
        }
        k += 1;
    }
    res
}

/// Returns the psql-style variables `:'name'` used in `sql`, sorted and deduplicated.
///
/// A name is made of ASCII alphanumeric characters and underscores; anything
/// else between the quotes is not a variable reference and is skipped.
/// Occurrences inside comments, string literals, dollar-quoted strings and
/// quoted identifiers are ignored, as psql does not interpolate them there.
pub fn extract_variables(sql: &str) -> (res: Vec<String>)
    requires
        sql.spec_bytes().len() <= isize::MAX,
    ensures
        texts(res@) == sorted_listing(variables_of(sql.spec_bytes())).map_values(
            |n: Seq<u8>| ascii_text(n),
        ),
        strictly_sorted(sorted_listing(variables_of(sql.spec_bytes()))),
        sorted_listing(variables_of(sql.spec_bytes())).to_set() == variables_of(sql.spec_bytes()),
{
    let bytes = sql.as_bytes();
    let ghost b = bytes@;
    let mut names: Vec<Vec<u8>> = Vec::new();
    let mut i: usize = 0;
    proof {
        assert(views(names@).to_set() =~= Set::<Seq<u8>>::empty());
        assert(names_from(b, 0).union(Set::empty()) =~= names_from(b, 0));
    }
    while i < bytes.len()
        invariant
            b == bytes@,
            b.len() <= isize::MAX,
            i <= b.len(),
            strictly_sorted(views(names@)),
            views(names@).to_set().union(names_from(b, i as int)) == names_from(b, 0),
        decreases b.len() - i,
    {
        let ghost old_set = views(names@).to_set();
        let ghost old_i = i as int;
        proof {
            lemma_next_index_advances(b, i as int);
        }
        let has_next = i + 1 < bytes.len();
        if has_next && bytes[i] == COLON && bytes[i + 1] == QUOTE {
            let start = i + 2;
            let end = name_run(bytes, start);
            if end > start && end < bytes.len() && bytes[end] == QUOTE {
                let name = copy_range(bytes, start, end);
                insert_sorted(&mut names, name);
                i = end + 1;
            } else {
                // Not a variable: skip the colon so the quote that follows
                // is handled as the start of a string literal.
                i += 1;
            }
        } else if has_next && bytes[i] == DASH && bytes[i + 1] == DASH {
            i = skip_line_comment(bytes, i);
        } else if has_next && bytes[i] == SLASH && bytes[i + 1] == STAR {
            i = skip_block_comment(bytes, i);
        } else if bytes[i] == QUOTE {
            // An `E'...'` literal additionally uses backslash escapes.
            let extended = i >= 1 && (bytes[i - 1] == LOWER_E || bytes[i - 1] == UPPER_E) && (i
                < 2 || !is_name_byte(bytes[i - 2]));
            i = skip_quoted(bytes, i, extended);
        } else if bytes[i] == DOUBLE_QUOTE {
            i = skip_quoted(bytes, i, false);
        } else if bytes[i] == DOLLAR {
            i = skip_dollar_quoted(bytes, i);
        } else {
            i += 1;
        }
        proof {
            assert(i == next_index(b, old_i));
            if reference_at(b, old_i) {
                assert(views(names@).to_set() == old_set.insert(reference_name(b, old_i)));
                assert(views(names@).to_set().union(names_from(b, i as int)) =~= old_set.union(
                    names_from(b, old_i),
                ));
            } else {
                assert(views(names@).to_set() == old_set);
            }
        }
    }
    proof {
        assert(names_from(b, i as int) == Set::<Seq<u8>>::empty());
        assert(views(names@).to_set() =~= names_from(b, 0));
        lemma_sorted_listing_is(views(names@));
    }
    let mut res: Vec<String> = Vec::new();
    let mut k: usize = 0;
    while k < names.len()
        invariant
            k <= names@.len(),
            res@.len() == k,
            texts(res@) == views(names@).subrange(0, k as int).map_values(
                |n: Seq<u8>| ascii_text(n),
            ),
        decreases names@.len() - k,
    {
        let text = ascii_string(names[k].as_slice());
        let ghost prev = res@;
        res.push(text);
        proof {
            assert(views(names@)[k as int] == names@[k as int]@);
            assert(texts(res@) =~= texts(prev).push(text@));
            assert(views(names@).subrange(0, k + 1).map_values(|n: Seq<u8>| ascii_text(n))
                =~= views(names@).subrange(0, k as int).map_values(|n: Seq<u8>| ascii_text(n)).push(
                ascii_text(views(names@)[k as int]),
            ));
            assert(texts(res@) =~= views(names@).subrange(0, k + 1).map_values(
                |n: Seq<u8>| ascii_text(n),
            ));
        }
        k += 1;
    }
    proof {
        assert(views(names@).subrange(0, names@.len() as int) =~= views(names@));
    }
    res
}

/// Text before which the scan of a following text starts afresh: empty, or
/// ending with a byte that cannot end a name (nor an `E` prefix).
pub open spec fn clean_end(p: Seq<u8>) -> bool {
    p.len() == 0 || !name_byte(p.last())
}

proof fn lemma_index_shift(p: Seq<u8>, r: Seq<u8>, i: int)
    requires
        0 <= i < r.len(),
    ensures
        (p + r)[p.len() + i] == r[i],
{
}

proof fn lemma_name_run_end_shift(p: Seq<u8>, r: Seq<u8>, i: int)
    requires
        0 <= i,
    ensures
        name_run_end(p + r, p.len() + i) == p.len() + name_run_end(r, i),
    decreases r.len() - i,
{
    if i < r.len() {
        lemma_index_shift(p, r, i);
        if name_byte(r[i]) {
            lemma_name_run_end_shift(p, r, i + 1);
        }
    }
}

proof fn lemma_line_end_shift(p: Seq<u8>, r: Seq<u8>, i: int)
    requires
        0 <= i,
    ensures
        line_end(p + r, p.len() + i) == p.len() + line_end(r, i),
    decreases r.len() - i,
{
    if i < r.len() {
        lemma_index_shift(p, r, i);
        if r[i] != NEWLINE {
            lemma_line_end_shift(p, r, i + 1);
        }
    }
}

proof fn lemma_block_end_shift(p: Seq<u8>, r: Seq<u8>, i: int, depth: nat)
    requires
        0 <= i,
    ensures
        block_end(p + r, p.len() + i, depth) == p.len() + block_end(r, i, depth),
    decreases r.len() - i,
{
    if i + 1 < r.len() {
        lemma_index_shift(p, r, i);
        lemma_index_shift(p, r, i + 1);
        if r[i] == SLASH && r[i + 1] == STAR {
            lemma_block_end_shift(p, r, i + 2, depth + 1);
        } else if r[i] == STAR && r[i + 1] == SLASH {
            if depth > 1 {
                lemma_block_end_shift(p, r, i + 2, (depth - 1) as nat);
            }
        } else {
            lemma_block_end_shift(p, r, i + 1, depth);
        }
    }
}

proof fn lemma_quoted_end_shift(p: Seq<u8>, r: Seq<u8>, i: int, quote: u8, extended: bool)
    requires
        0 <= i,
    ensures
        quoted_end(p + r, p.len() + i, quote, extended) == p.len() + quoted_end(
            r,
            i,
            quote,
            extended,
        ),
    decreases r.len() + 1 - i,
{
    if i < r.len() {
        lemma_index_shift(p, r, i);
        if i + 1 < r.len() {
            lemma_index_shift(p, r, i + 1);
        }
        if extended && r[i] == BACKSLASH {
            lemma_quoted_end_shift(p, r, i + 2, quote, extended);
        } else if r[i] != quote {
            lemma_quoted_end_shift(p, r, i + 1, quote, extended);
        } else if i + 1 < r.len() && r[i + 1] == quote {
            lemma_quoted_end_shift(p, r, i + 2, quote, extended);
        }
    }
}

proof fn lemma_tag_close_shift(p: Seq<u8>, r: Seq<u8>, tag: Seq<u8>, i: int)
    requires
        0 <= i,
    ensures
        tag_close(p + r, tag, p.len() + i) == p.len() + tag_close(r, tag, i),
    decreases r.len() + 1 - i,
{
    if i + tag.len() <= r.len() {
        assert((p + r).subrange(p.len() + i, p.len() + i + tag.len()) =~= r.subrange(
            i,
            i + tag.len(),
        ));
        if r.subrange(i, i + tag.len()) != tag {
            lemma_tag_close_shift(p, r, tag, i + 1);
        }
    }
}

proof fn lemma_dollar_end_shift(p: Seq<u8>, r: Seq<u8>, i: int)
    requires
        0 <= i < r.len(),
    ensures
        dollar_end(p + r, p.len() + i) == p.len() + dollar_end(r, i),
{
    let b = p + r;
    let o = p.len() as int;
    lemma_name_run_end_shift(p, r, i + 1);
    lemma_name_run_end(r, i + 1);
    let te = name_run_end(r, i + 1);
    if te < r.len() {
        lemma_index_shift(p, r, te);
    }
    if i + 1 < r.len() {
        lemma_index_shift(p, r, i + 1);
    }
    if te < r.len() && r[te] == DOLLAR && !digit_byte(r[i + 1]) {
        let tag = r.subrange(i, te + 1);
        assert(b.subrange(o + i, o + te + 1) =~= tag);
        lemma_tag_close_shift(p, r, tag, te + 1);
    }
}

/// After a clean start, the scan of `p + r` from inside `r` finds what the
/// scan of `r` alone finds: the scanner reads forward only.
pub proof fn lemma_names_from_shift(p: Seq<u8>, r: Seq<u8>, i: int)
    requires
        0 <= i,
        clean_end(p),
    ensures
        names_from(p + r, p.len() + i) == names_from(r, i),
    decreases r.len() - i,
{
    let b = p + r;
    let o = p.len() as int;
    if i < r.len() {
        lemma_index_shift(p, r, i);
        if i + 1 < r.len() {
            lemma_index_shift(p, r, i + 1);
        }
        // Looking back for an `E` prefix sees the same bytes, or none that matter.
        if i >= 1 {
            lemma_index_shift(p, r, i - 1);
        }
        if i >= 2 {
            lemma_index_shift(p, r, i - 2);
        }
        if o >= 1 {
            assert(b[o - 1] == p.last());
        }
        assert(extended_at(b, o + i) == extended_at(r, i));
        lemma_name_run_end_shift(p, r, i + 2);
        if i + 2 <= r.len() {
            lemma_name_run_end(r, i + 2);
            if name_run_end(r, i + 2) < r.len() {
                lemma_index_shift(p, r, name_run_end(r, i + 2));
            }
        }
        assert(reference_at(b, o + i) == reference_at(r, i));
        if reference_at(r, i) {
            assert(reference_name(b, o + i) =~= reference_name(r, i));
        }
        lemma_line_end_shift(p, r, i);
        lemma_block_end_shift(p, r, i + 2, 1);
        lemma_quoted_end_shift(p, r, i + 1, QUOTE, extended_at(r, i));
        lemma_quoted_end_shift(p, r, i + 1, DOUBLE_QUOTE, false);
        lemma_dollar_end_shift(p, r, i);
        assert(next_index(b, o + i) == o + next_index(r, i));
        lemma_next_index_advances(r, i);
        lemma_names_from_shift(p, r, next_index(r, i));
    } else {
        assert(o + i >= b.len());
    }
}

/// A first line made of a `--` comment adds no variable and hides none of
/// the text after it.
pub proof fn lemma_leading_line_comment(comment: Seq<u8>, rest: Seq<u8>)
    requires
        !comment.contains(NEWLINE),
    ensures
        variables_of(seq![DASH, DASH] + comment + seq![NEWLINE] + rest) == variables_of(rest),
{
    let p = seq![DASH, DASH] + comment + seq![NEWLINE];
    let b = p + rest;
    let o = p.len() as int;
    assert(b =~= seq![DASH, DASH] + comment + seq![NEWLINE] + rest);
    assert(b[0] == DASH && b[1] == DASH);
    assert forall|k: int| 0 <= k < o - 1 implies b[k] != NEWLINE by {
        if k >= 2 {
            assert(b[k] == comment[k - 2]);
        }
    }
    assert(b[o - 1] == NEWLINE);
    lemma_line_end(b, 0);
    let e = line_end(b, 0);
    if e < o - 1 {
        assert(b[e] == NEWLINE);
    }
    if e > o - 1 {
        assert(b[o - 1] != NEWLINE);
    }
    assert(next_index(b, 0) == o - 1);
    assert(next_index(b, o - 1) == o);
    lemma_names_from_shift(p, rest, 0);
    assert(names_from(b, o - 1) == names_from(b, o));
    assert(names_from(b, 0) == names_from(b, o - 1));
}

/// No `/*` or `*/` starts in `u`.
pub open spec fn no_comment_marker(u: Seq<u8>) -> bool {
    forall|j: int|
        0 <= j < u.len() - 1 ==> !(u[j] == SLASH && #[trigger] u[j + 1] == STAR) && !(u[j] == STAR
            && u[j + 1] == SLASH)
}

proof fn lemma_block_end_plain(b: Seq<u8>, k: int, end: int)
    requires
        0 <= k <= end,
        end + 1 < b.len(),
        b[end] == STAR && b[end + 1] == SLASH,
        forall|j: int|
            k <= j < end ==> !(b[j] == SLASH && #[trigger] b[j + 1] == STAR) && !(b[j] == STAR
                && b[j + 1] == SLASH),
    ensures
        block_end(b, k, 1) == end + 2,
    decreases end - k,
{
    if k < end {
        assert(!(b[k] == SLASH && b[k + 1] == STAR));
        lemma_block_end_plain(b, k + 1, end);
    }
}

/// A leading `/* ... */` comment, spaced from its markers, adds no variable
/// and hides none of the text after it.
pub proof fn lemma_leading_block_comment(comment: Seq<u8>, rest: Seq<u8>)
    requires
        no_comment_marker(comment),
    ensures
        variables_of(seq![SLASH, STAR, 0x20u8] + comment + seq![0x20u8, STAR, SLASH] + rest)
            == variables_of(rest),
{
    let p = seq![SLASH, STAR, 0x20u8] + comment + seq![0x20u8, STAR, SLASH];
    let b = p + rest;
    let o = p.len() as int;
    let n = comment.len() as int;
    assert(b =~= seq![SLASH, STAR, 0x20u8] + comment + seq![0x20u8, STAR, SLASH] + rest);
    assert(b[0] == SLASH && b[1] == STAR);
    assert(b[o - 2] == STAR && b[o - 1] == SLASH);
    assert forall|j: int|
        2 <= j < o - 2 implies !(b[j] == SLASH && #[trigger] b[j + 1] == STAR) && !(b[j] == STAR
            && b[j + 1] == SLASH) by {
        if j == 2 || j == o - 3 {
            assert(b[j] == 0x20u8);
        } else {
            assert(b[j] == comment[j - 3]);
            if j + 1 == o - 3 {
                assert(b[j + 1] == 0x20u8);
            } else {
                assert(b[j + 1] == comment[j - 2]);
                assert(j - 3 < comment.len() - 1);
                assert(comment[(j - 3) + 1] == comment[j - 2]);
            }
        }
    }
    lemma_block_end_plain(b, 2, o - 2);
    assert(next_index(b, 0) == o);
    lemma_names_from_shift(p, rest, 0);
}

/// Bytes that neither open a quoted text or a comment nor close a reference.
pub open spec fn plain_byte(c: u8) -> bool {
    c != QUOTE && c != DOUBLE_QUOTE && c != DASH && c != SLASH && c != DOLLAR
}

/// A nonempty name of name bytes.
pub open spec fn valid_name(n: Seq<u8>) -> bool {
    n.len() > 0 && forall|k: int| 0 <= k < n.len() ==> name_byte(#[trigger] n[k])
}

/// The reference `:'n'`.
pub open spec fn reference_text(n: Seq<u8>) -> Seq<u8> {
    seq![COLON, QUOTE] + n + seq![QUOTE]
}

/// `segments[0]`, the reference to `names[0]`, `segments[1]`, and so on.
pub open spec fn text_with_references(segments: Seq<Seq<u8>>, names: Seq<Seq<u8>>) -> Seq<u8>
    decreases names.len(),
{
    if segments.len() == 0 {
        Seq::empty()
    } else if names.len() == 0 {
        segments[0]
    } else {
        segments[0] + reference_text(names[0]) + text_with_references(
            segments.drop_first(),
            names.drop_first(),
        )
    }
}

proof fn lemma_plain_prefix(s: Seq<u8>, t: Seq<u8>, i: int)
    requires
        0 <= i <= s.len(),
        forall|k: int| 0 <= k < s.len() ==> plain_byte(#[trigger] s[k]),
        t.len() > 0 ==> t[0] != QUOTE,
    ensures
        names_from(s + t, i) == names_from(s + t, s.len() as int),
    decreases s.len() - i,
{
    let b = s + t;
    if i < s.len() {
        assert(b[i] == s[i]);
        if i + 1 < s.len() {
            assert(b[i + 1] == s[i + 1]);
        } else if i + 1 < b.len() {
            assert(b[i + 1] == t[0]);
        }
        assert(next_index(b, i) == i + 1);
        assert(!reference_at(b, i));
        lemma_plain_prefix(s, t, i + 1);
    }
}

/// Every plain `:'name'` reference is found, and nothing else: in a text made
/// of references between segments that hold no quote, dash, slash or dollar,
/// the variables are exactly the names referenced.
pub proof fn lemma_references_found(segments: Seq<Seq<u8>>, names: Seq<Seq<u8>>)
    requires
        segments.len() == names.len() + 1,
        forall|j: int, k: int|
            0 <= j < segments.len() && 0 <= k < segments[j].len() ==> plain_byte(
                #[trigger] segments[j][k],
            ),
        forall|j: int| 0 <= j < names.len() ==> valid_name(#[trigger] names[j]),
    ensures
        variables_of(text_with_references(segments, names)) == names.to_set(),
    decreases names.len(),
{
    let s = segments[0];
    assert forall|k: int| 0 <= k < s.len() implies plain_byte(#[trigger] s[k]) by {
        assert(plain_byte(segments[0][k]));
    }
    if names.len() == 0 {
        lemma_plain_prefix(s, Seq::empty(), 0);
        assert(s + Seq::<u8>::empty() =~= s);
        assert(names.to_set() =~= Set::<Seq<u8>>::empty());
    } else {
        let n = names[0];
        assert(valid_name(n));
        let rest = text_with_references(segments.drop_first(), names.drop_first());
        assert forall|j: int, k: int|
            0 <= j < segments.drop_first().len() && 0 <= k < segments.drop_first()[j].len()
                implies plain_byte(#[trigger] segments.drop_first()[j][k]) by {
            assert(segments.drop_first()[j] == segments[j + 1]);
            assert(plain_byte(segments[j + 1][k]));
        }
        assert forall|j: int| 0 <= j < names.drop_first().len() implies valid_name(
            #[trigger] names.drop_first()[j],
        ) by {
            assert(names.drop_first()[j] == names[j + 1]);
        }
        lemma_references_found(segments.drop_first(), names.drop_first());
        let r = reference_text(n);
        let b = text_with_references(segments, names);
        assert(b == s + r + rest);
        let t = r + rest;
        assert(b =~= s + t);
        assert(t[0] == COLON);
        lemma_plain_prefix(s, t, 0);
        // The reference right after the first segment.
        let o = s.len() as int;
        let head = s + seq![COLON, QUOTE];
        let tail = n + seq![QUOTE] + rest;
        assert(b =~= head + tail);
        lemma_name_run_end_shift(head, tail, 0);
        lemma_name_run_end(tail, 0);
        assert forall|k: int| 0 <= k < n.len() implies name_byte(#[trigger] tail[k]) by {
            assert(tail[k] == n[k]);
        }
        assert(tail[n.len() as int] == QUOTE);
        let e = name_run_end(tail, 0);
        if e < n.len() {
            assert(!name_byte(tail[e]));
        }
        if e > n.len() {
            assert(name_byte(tail[n.len() as int]));
        }
        assert(name_run_end(b, o + 2) == o + 2 + n.len());
        assert(b[o] == COLON && b[o + 1] == QUOTE);
        assert(b[o + 2 + n.len()] == QUOTE);
        assert(reference_at(b, o));
        assert(reference_name(b, o) =~= n);
        assert(next_index(b, o) == o + r.len());
        let front = s + r;
        assert(b =~= front + rest);
        assert(front.last() == QUOTE);
        lemma_names_from_shift(front, rest, 0);
        assert(names.to_set() =~= names.drop_first().to_set().insert(n)) by {
            assert forall|x: Seq<u8>| names.to_set().contains(x) <==> names.drop_first().to_set().insert(
                n,
            ).contains(x) by {
                if names.contains(x) && x != n {
                    let k = choose|k: int| 0 <= k < names.len() && names[k] == x;
                    assert(names.drop_first()[k - 1] == x);
                }
                if names.drop_first().contains(x) {
                    let k = choose|k: int|
                        0 <= k < names.drop_first().len() && names.drop_first()[k] == x;
                    assert(names[k + 1] == x);
                }
                assert(names[0] == n);
            }
        }
    }
}

/// A quoted body: bytes other than `quote`, and `quote` doubled.
pub open spec fn doubled_quotes_only(body: Seq<u8>, quote: u8) -> bool
    decreases body.len(),
{
    if body.len() == 0 {
        true
    } else if body[0] != quote {
        doubled_quotes_only(body.drop_first(), quote)
    } else {
        body.len() >= 2 && body[1] == quote && doubled_quotes_only(body.skip(2), quote)
    }
}

/// Without backslash escapes, a quoted text ends just after a single quote
/// character, all the quotes before it in its body come doubled; or it runs
/// to the end of the text, doubled quotes only.
pub proof fn lemma_quoted_end_closes(b: Seq<u8>, i: int, quote: u8)
    requires
        0 <= i <= b.len(),
    ensures
        ({
            let r = quoted_end(b, i, quote, false);
            ||| (r == b.len() && doubled_quotes_only(b.subrange(i, r), quote))
            ||| (i < r && b[r - 1] == quote && (r < b.len() ==> b[r] != quote)
                && doubled_quotes_only(b.subrange(i, r - 1), quote))
        }),
    decreases b.len() - i,
{
    let r = quoted_end(b, i, quote, false);
    if i == b.len() {
        assert(b.subrange(i, r) =~= Seq::<u8>::empty());
    } else if b[i] != quote {
        lemma_quoted_end_closes(b, i + 1, quote);
        lemma_quoted_end_bounds(b, i + 1, quote, false);
        if r == b.len() && doubled_quotes_only(b.subrange(i + 1, r), quote) {
            assert(b.subrange(i, r).drop_first() =~= b.subrange(i + 1, r));
        } else {
            assert(b.subrange(i, r - 1).drop_first() =~= b.subrange(i + 1, r - 1));
        }
    } else if i + 1 < b.len() && b[i + 1] == quote {
        lemma_quoted_end_closes(b, i + 2, quote);
        lemma_quoted_end_bounds(b, i + 2, quote, false);
        if r == b.len() && doubled_quotes_only(b.subrange(i + 2, r), quote) {
            assert(b.subrange(i, r).skip(2) =~= b.subrange(i + 2, r));
        } else {
            assert(b.subrange(i, r - 1).skip(2) =~= b.subrange(i + 2, r - 1));
        }
    } else {
        assert(b.subrange(i, r - 1) =~= Seq::<u8>::empty());
    }
}

} // verus!
