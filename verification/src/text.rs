//! Building strings.

use vstd::prelude::*;
use vstd::string::StringExecFns;

verus! {

/// The text whose characters have the codes of the bytes of `b`, as for ASCII
/// bytes.
pub open spec fn ascii_text(b: Seq<u8>) -> Seq<char> {
    b.map_values(|x: u8| x as char)
}

/// Different bytes make different texts.
pub proof fn lemma_ascii_text_injective(a: Seq<u8>, b: Seq<u8>)
    requires
        ascii_text(a) == ascii_text(b),
    ensures
        a == b,
{
    assert(a.len() == ascii_text(a).len());
    assert forall|i: int| 0 <= i < a.len() implies a[i] == b[i] by {
        assert(ascii_text(a)[i] == ascii_text(b)[i]);
        assert(ascii_text(a)[i] == a[i] as char);
        assert(ascii_text(b)[i] == b[i] as char);
        assert((a[i] as char) == (b[i] as char));
    }
    assert(a =~= b);
}

/// Calls `String::push`, which appends the character `c` to the end of `s`.
#[verifier::external_body]
pub(crate) fn push_char(s: &mut String, c: char)
    ensures
        final(s)@ == old(s)@.push(c),
{
    s.push(c);
}

/// Appends `text` to `s`.
pub fn append_str(s: &mut String, text: &str)
    ensures
        final(s)@ == old(s)@ + text@,
{
    s.append(text);
}

/// Returns the text made of the characters whose codes are the bytes of `bytes`.
pub fn ascii_string(bytes: &[u8]) -> (res: String)
    ensures
        res@ == ascii_text(bytes@),
{
    let mut res = String::new();
    let mut i: usize = 0;
    while i < bytes.len()
        invariant
            i <= bytes@.len(),
            res@ == ascii_text(bytes@.subrange(0, i as int)),
        decreases bytes@.len() - i,
    {
        let c = bytes[i] as char;
        push_char(&mut res, c);
        proof {
            assert(ascii_text(bytes@.subrange(0, i + 1)) =~= ascii_text(
                bytes@.subrange(0, i as int),
            ).push(c));
        }
        i += 1;
    }
    assert(bytes@.subrange(0, bytes@.len() as int) =~= bytes@);
    res
}

/// Returns the characters of `s`.
pub fn chars_of(s: &str) -> (res: Vec<char>)
    ensures
        res@ == s@,
{
    broadcast use vstd::string::group_string_axioms;

    let mut res: Vec<char> = Vec::new();
    for c in it: s.chars()
        invariant
            res@ == it.seq().take(it.index() as int),
            it.seq() == s@,
    {
        res.push(c);
    }
    res
}

/// Returns the text of the characters of `chars` from `from` to `to`.
pub fn string_from(chars: &[char], from: usize, to: usize) -> (res: String)
    requires
        from <= to <= chars@.len(),
    ensures
        res@ == chars@.subrange(from as int, to as int),
{
    let mut res = String::new();
    let mut k = from;
    while k < to
        invariant
            from <= k <= to <= chars@.len(),
            res@ == chars@.subrange(from as int, k as int),
        decreases to - k,
    {
        push_char(&mut res, chars[k]);
        proof {
            assert(chars@.subrange(from as int, k + 1) =~= chars@.subrange(from as int, k as int).push(
                chars@[k as int],
            ));
        }
        k += 1;
    }
    res
}

/// `items` one after the other, `sep` between two of them.
pub open spec fn join(items: Seq<Seq<char>>, sep: Seq<char>) -> Seq<char>
    decreases items.len(),
{
    if items.len() == 0 {
        Seq::empty()
    } else if items.len() == 1 {
        items[0]
    } else {
        join(items.drop_last(), sep) + sep + items.last()
    }
}

/// The texts of a sequence of strings.
pub open spec fn texts(s: Seq<String>) -> Seq<Seq<char>> {
    s.map_values(|x: String| x@)
}

/// The texts of pairs of strings.
pub open spec fn pair_texts(pairs: Seq<(String, String)>) -> Seq<(Seq<char>, Seq<char>)> {
    pairs.map_values(|p: (String, String)| (p.0@, p.1@))
}

/// Returns `items` one after the other, `sep` between two of them.
pub fn join_with(items: &[String], sep: &str) -> (res: String)
    ensures
        res@ == join(texts(items@), sep@),
{
    let mut res = String::new();
    let mut i: usize = 0;
    while i < items.len()
        invariant
            i <= items@.len(),
            res@ == join(texts(items@).subrange(0, i as int), sep@),
        decreases items@.len() - i,
    {
        let ghost prefix = texts(items@).subrange(0, i + 1);
        proof {
            assert(prefix.drop_last() =~= texts(items@).subrange(0, i as int));
            assert(prefix.last() == items@[i as int]@);
        }
        if i > 0 {
            append_str(&mut res, sep);
        } else {
            assert(prefix.drop_last() =~= Seq::<Seq<char>>::empty());
        }
        append_str(&mut res, items[i].as_str());
        proof {
            if i == 0 {
                assert(res@ =~= prefix[0]);
            } else {
                assert(res@ =~= join(prefix, sep@));
            }
        }
        i += 1;
    }
    assert(texts(items@).subrange(0, items@.len() as int) =~= texts(items@));
    res
}

/// Joining puts `sep` between every two consecutive items, and nowhere else:
/// a one-item list is the item, and an item added after a nonempty list
/// comes after the list and one `sep`.
pub proof fn lemma_join_appends(items: Seq<Seq<char>>, sep: Seq<char>, item: Seq<char>)
    ensures
        join(seq![item], sep) == item,
        items.len() > 0 ==> join(items.push(item), sep) == join(items, sep) + sep + item,
{
    assert(seq![item].len() == 1);
    if items.len() > 0 {
        assert(items.push(item).drop_last() =~= items);
    }
}

/// Joining two nonempty lists is joining each, with one `sep` between them.
pub proof fn lemma_join_concat(a: Seq<Seq<char>>, b: Seq<Seq<char>>, sep: Seq<char>)
    requires
        a.len() > 0,
        b.len() > 0,
    ensures
        join(a + b, sep) == join(a, sep) + sep + join(b, sep),
    decreases b.len(),
{
    if b.len() == 1 {
        assert((a + b).drop_last() =~= a);
        assert((a + b).last() == b[0]);
    } else {
        lemma_join_concat(a, b.drop_last(), sep);
        assert((a + b).drop_last() =~= a + b.drop_last());
        assert((a + b).last() == b.last());
        assert(join(a + b, sep) == join(a + b.drop_last(), sep) + sep + b.last());
        assert(join(b, sep) == join(b.drop_last(), sep) + sep + b.last());
        assert(join(a, sep) + sep + join(b.drop_last(), sep) + sep + b.last() =~= join(a, sep)
            + sep + (join(b.drop_last(), sep) + sep + b.last()));
    }
}

/// The length of a join: the items, and `sep` once fewer times than there
/// are items.
pub proof fn lemma_join_len(items: Seq<Seq<char>>, sep: Seq<char>)
    requires
        items.len() > 0,
    ensures
        join(items, sep).len() == (items.len() - 1) * sep.len() + items.fold_left(
            0int,
            |n: int, x: Seq<char>| n + x.len(),
        ),
    decreases items.len(),
{
    if items.len() == 1 {
        assert(items.drop_last() =~= Seq::<Seq<char>>::empty());
        assert(items.drop_last().fold_left(0int, |n: int, x: Seq<char>| n + x.len()) == 0);
        assert(items.last() == items[0]);
    } else {
        lemma_join_len(items.drop_last(), sep);
        assert((items.len() - 1) * sep.len() == (items.len() - 2) * sep.len() + sep.len()) by (nonlinear_arith);
    }
}

} // verus!
