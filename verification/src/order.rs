//! The byte-wise lexicographic order of names, and sorted name listings.
//!
//! It is the order `String` and `Vec<u8>` compare in: byte by byte, a proper
//! prefix coming first.

use vstd::prelude::*;

verus! {

/// `a` comes strictly before `b` in byte-wise lexicographic order.
pub open spec fn lex_lt(a: Seq<u8>, b: Seq<u8>) -> bool
    decreases a.len(),
{
    if a.len() == 0 {
        b.len() > 0
    } else if b.len() == 0 {
        false
    } else if a[0] != b[0] {
        a[0] < b[0]
    } else {
        lex_lt(a.drop_first(), b.drop_first())
    }
}

/// Each name of `s` comes strictly before the ones that follow it, so that no
/// name occurs twice.
pub open spec fn strictly_sorted(s: Seq<Seq<u8>>) -> bool {
    forall|i: int, j: int| 0 <= i < j < s.len() ==> lex_lt(#[trigger] s[i], #[trigger] s[j])
}

/// The names of the finite set `names`, in increasing order, each once.
pub open spec fn sorted_listing(names: Set<Seq<u8>>) -> Seq<Seq<u8>> {
    choose|l: Seq<Seq<u8>>| strictly_sorted(l) && l.to_set() == names
}

/// The views of a sequence of byte vectors.
pub open spec fn views(v: Seq<Vec<u8>>) -> Seq<Seq<u8>> {
    v.map_values(|x: Vec<u8>| x@)
}

/// No name comes before itself.
pub proof fn lemma_lex_irreflexive(a: Seq<u8>)
    ensures
        !lex_lt(a, a),
    decreases a.len(),
{
    if a.len() > 0 {
        lemma_lex_irreflexive(a.drop_first());
    }
}

/// Two names never come each before the other.
pub proof fn lemma_lex_asymmetric(a: Seq<u8>, b: Seq<u8>)
    ensures
        !(lex_lt(a, b) && lex_lt(b, a)),
    decreases a.len(),
{
    if a.len() > 0 && b.len() > 0 && a[0] == b[0] {
        lemma_lex_asymmetric(a.drop_first(), b.drop_first());
    }
}

/// The order is transitive.
pub proof fn lemma_lex_transitive(a: Seq<u8>, b: Seq<u8>, c: Seq<u8>)
    requires
        lex_lt(a, b),
        lex_lt(b, c),
    ensures
        lex_lt(a, c),
    decreases a.len(),
{
    if a.len() > 0 && b.len() > 0 && c.len() > 0 && a[0] == b[0] && b[0] == c[0] {
        lemma_lex_transitive(a.drop_first(), b.drop_first(), c.drop_first());
    }
}

/// Two different names are ordered one way or the other.
pub proof fn lemma_lex_total(a: Seq<u8>, b: Seq<u8>)
    ensures
        a == b || lex_lt(a, b) || lex_lt(b, a),
    decreases a.len(),
{
    if a.len() == 0 || b.len() == 0 {
        if a.len() == 0 && b.len() == 0 {
            assert(a =~= b);
        }
    } else if a[0] == b[0] {
        lemma_lex_total(a.drop_first(), b.drop_first());
        if a.drop_first() == b.drop_first() {
            assert(a.drop_first().len() == b.drop_first().len());
            assert(a.len() == b.len());
            assert forall|i: int| 0 <= i < a.len() implies a[i] == b[i] by {
                if i > 0 {
                    assert(a[i] == a.drop_first()[i - 1]);
                    assert(b[i] == b.drop_first()[i - 1]);
                }
            }
            assert(a =~= b);
        }
    }
}

/// A strictly sorted listing holds its first name once.
proof fn lemma_sorted_first_not_in_rest(l: Seq<Seq<u8>>)
    requires
        strictly_sorted(l),
        l.len() > 0,
    ensures
        !l.drop_first().contains(l[0]),
        strictly_sorted(l.drop_first()),
        l.drop_first().to_set() == l.to_set().remove(l[0]),
{
    if l.drop_first().contains(l[0]) {
        let k = choose|k: int| 0 <= k < l.drop_first().len() && l.drop_first()[k] == l[0];
        assert(lex_lt(l[0], l[k + 1]));
        lemma_lex_irreflexive(l[0]);
    }
    assert forall|i: int, j: int| 0 <= i < j < l.drop_first().len() implies lex_lt(
        #[trigger] l.drop_first()[i],
        #[trigger] l.drop_first()[j],
    ) by {
        assert(lex_lt(l[i + 1], l[j + 1]));
    }
    assert forall|x: Seq<u8>| l.drop_first().to_set().contains(x) <==> l.to_set().remove(
        l[0],
    ).contains(x) by {
        if l.to_set().remove(l[0]).contains(x) {
            let k = choose|k: int| 0 <= k < l.len() && l[k] == x;
            assert(k != 0);
            assert(l.drop_first()[k - 1] == x);
        }
        if l.drop_first().to_set().contains(x) {
            let k = choose|k: int| 0 <= k < l.drop_first().len() && l.drop_first()[k] == x;
            assert(l[k + 1] == x);
        }
    }
    assert(l.drop_first().to_set() =~= l.to_set().remove(l[0]));
}

/// A set of names has one strictly sorted listing only: sorting and
/// deduplicating leave no choice.
pub proof fn lemma_sorted_listing_unique(l1: Seq<Seq<u8>>, l2: Seq<Seq<u8>>)
    requires
        strictly_sorted(l1),
        strictly_sorted(l2),
        l1.to_set() == l2.to_set(),
    ensures
        l1 == l2,
    decreases l1.len(),
{
    if l1.len() == 0 {
        if l2.len() > 0 {
            assert(l2.to_set().contains(l2[0]));
        }
        assert(l1 =~= l2);
    } else {
        assert(l1.to_set().contains(l1[0]));
        assert(l2.len() > 0);
        assert(l2.to_set().contains(l2[0]));
        let j = choose|j: int| 0 <= j < l2.len() && l2[j] == l1[0];
        let k = choose|k: int| 0 <= k < l1.len() && l1[k] == l2[0];
        if j > 0 && k > 0 {
            assert(lex_lt(l2[0], l2[j]));
            assert(lex_lt(l1[0], l1[k]));
            lemma_lex_asymmetric(l1[0], l2[0]);
        }
        assert(l1[0] == l2[0]);
        lemma_sorted_first_not_in_rest(l1);
        lemma_sorted_first_not_in_rest(l2);
        lemma_sorted_listing_unique(l1.drop_first(), l2.drop_first());
        assert(l1 =~= seq![l1[0]] + l1.drop_first());
        assert(l2 =~= seq![l2[0]] + l2.drop_first());
    }
}

/// The listing of a set is the strictly sorted sequence of its names.
pub proof fn lemma_sorted_listing_is(l: Seq<Seq<u8>>)
    requires
        strictly_sorted(l),
    ensures
        sorted_listing(l.to_set()) == l,
{
    let c = sorted_listing(l.to_set());
    assert(strictly_sorted(c) && c.to_set() == l.to_set());
    lemma_sorted_listing_unique(c, l);
}

/// Tells whether `a` comes strictly before `b` in byte-wise lexicographic order.
pub fn lex_less(a: &[u8], b: &[u8]) -> (res: bool)
    ensures
        res == lex_lt(a@, b@),
{
    let mut k: usize = 0;
    assert(a@.skip(0) =~= a@);
    assert(b@.skip(0) =~= b@);
    while k < a.len() && k < b.len() && a[k] == b[k]
        invariant
            k <= a@.len(),
            k <= b@.len(),
            lex_lt(a@, b@) == lex_lt(a@.skip(k as int), b@.skip(k as int)),
        decreases a@.len() - k,
    {
        assert(a@.skip(k as int).drop_first() =~= a@.skip(k + 1));
        assert(b@.skip(k as int).drop_first() =~= b@.skip(k + 1));
        k += 1;
    }
    if k == a.len() {
        k < b.len()
    } else if k == b.len() {
        false
    } else {
        a[k] < b[k]
    }
}

/// Adds `name` to the strictly sorted `names`, where it is not already.
pub fn insert_sorted(names: &mut Vec<Vec<u8>>, name: Vec<u8>)
    requires
        strictly_sorted(views(old(names)@)),
    ensures
        strictly_sorted(views(final(names)@)),
        views(final(names)@).to_set() == views(old(names)@).to_set().insert(name@),
{
    let ghost old_views = views(names@);
    let mut p: usize = 0;
    while p < names.len() && lex_less(names[p].as_slice(), name.as_slice())
        invariant
            p <= names@.len(),
            names@ == old(names)@,
            old_views == views(names@),
            strictly_sorted(old_views),
            forall|i: int| 0 <= i < p ==> lex_lt(#[trigger] old_views[i], name@),
        decreases names@.len() - p,
    {
        p += 1;
    }
    if p < names.len() && !lex_less(name.as_slice(), names[p].as_slice()) {
        proof {
            lemma_lex_total(name@, old_views[p as int]);
            assert(old_views[p as int] == name@);
            assert(old_views.to_set().contains(name@));
            assert(old_views.to_set().insert(name@) =~= old_views.to_set());
        }
        return;
    }
    let ghost v = name@;
    names.insert(p, name);
    proof {
        let new_views = views(names@);
        assert(new_views =~= old_views.insert(p as int, v));
        if p < old_views.len() {
            lemma_lex_total(v, old_views[p as int]);
        }
        assert forall|i: int, j: int| 0 <= i < j < new_views.len() implies lex_lt(
            #[trigger] new_views[i],
            #[trigger] new_views[j],
        ) by {
            if j < p {
                assert(lex_lt(old_views[i], old_views[j]));
            } else if j == p {
                assert(lex_lt(old_views[i], v));
            } else if i < p {
                assert(lex_lt(old_views[i], v));
                if j - 1 > p {
                    assert(lex_lt(old_views[p as int], old_views[j - 1]));
                    lemma_lex_transitive(v, old_views[p as int], old_views[j - 1]);
                }
                lemma_lex_transitive(old_views[i], v, old_views[j - 1]);
            } else if i == p {
                if j - 1 > p {
                    assert(lex_lt(old_views[p as int], old_views[j - 1]));
                    lemma_lex_transitive(v, old_views[p as int], old_views[j - 1]);
                }
            } else {
                assert(lex_lt(old_views[i - 1], old_views[j - 1]));
            }
        }
        assert forall|x: Seq<u8>| new_views.to_set().contains(x) <==> old_views.to_set().insert(
            v,
        ).contains(x) by {
            if new_views.to_set().contains(x) {
                let k = choose|k: int| 0 <= k < new_views.len() && new_views[k] == x;
                if k < p {
                    assert(old_views[k] == x);
                } else if k > p {
                    assert(old_views[k - 1] == x);
                }
            }
            if old_views.to_set().insert(v).contains(x) {
                if x == v {
                    assert(new_views[p as int] == x);
                } else {
                    let k = choose|k: int| 0 <= k < old_views.len() && old_views[k] == x;
                    if k < p {
                        assert(new_views[k] == x);
                    } else {
                        assert(new_views[k + 1] == x);
                    }
                }
            }
        }
        assert(new_views.to_set() =~= old_views.to_set().insert(v));
    }
}

} // verus!
