//! Lexicographic order on text, by code point.

use vstd::prelude::*;
use vstd::std_specs::iter::IteratorSpec;
use crate::ordered::{OrderedSet, SortKey};

verus! {

broadcast use vstd::string::group_string_axioms;

/// Code point of a character.
pub open spec fn code(c: char) -> int {
    c as int
}

/// `a` comes strictly before `b` when both are compared code point by code
/// point, a proper prefix coming before any of its extensions.
pub open spec fn text_lt(a: Seq<char>, b: Seq<char>) -> bool
    decreases a.len(),
{
    if b.len() == 0 {
        false
    } else if a.len() == 0 {
        true
    } else if a[0] != b[0] {
        code(a[0]) < code(b[0])
    } else {
        text_lt(a.drop_first(), b.drop_first())
    }
}

/// No text comes before itself.
pub proof fn lemma_text_lt_irreflexive(a: Seq<char>)
    ensures
        !text_lt(a, a),
    decreases a.len(),
{
    if a.len() > 0 {
        lemma_text_lt_irreflexive(a.drop_first());
    }
}

/// The order is transitive.
pub proof fn lemma_text_lt_transitive(a: Seq<char>, b: Seq<char>, c: Seq<char>)
    requires
        text_lt(a, b),
        text_lt(b, c),
    ensures
        text_lt(a, c),
    decreases a.len(),
{
    if a.len() > 0 && a[0] == b[0] && b[0] == c[0] {
        lemma_text_lt_transitive(a.drop_first(), b.drop_first(), c.drop_first());
    }
}

/// Of two different texts one comes before the other.
pub proof fn lemma_text_lt_total(a: Seq<char>, b: Seq<char>)
    requires
        a != b,
    ensures
        text_lt(a, b) || text_lt(b, a),
    decreases a.len(),
{
    if a.len() == 0 || b.len() == 0 {
        assert(a.len() == 0 && b.len() == 0 ==> a =~= b);
    } else if a[0] == b[0] {
        let x = a.drop_first();
        let y = b.drop_first();
        assert(a =~= seq![a[0]] + x);
        assert(b =~= seq![b[0]] + y);
        lemma_text_lt_total(x, y);
    } else {
        assert(code(a[0]) != code(b[0]));
    }
}

/// Whether `a` comes before `b`. This is the order that `str` has by `<`:
/// byte by byte in UTF-8, which is code point by code point.
pub fn str_lt(a: &str, b: &str) -> (r: bool)
    ensures
        r == text_lt(a@, b@),
{
    let mut x = a.chars();
    let mut y = b.chars();
    loop
        invariant
            x.obeys_prophetic_iter_laws(),
            y.obeys_prophetic_iter_laws(),
            x.decrease() is Some,
            text_lt(a@, b@) == text_lt(x.remaining(), y.remaining()),
        decreases x.decrease()->0,
    {
        let cx = x.next();
        let cy = y.next();
        match (cx, cy) {
            (_, None) => { return false; },
            (None, Some(_)) => { return true; },
            (Some(p), Some(q)) => {
                if p != q {
                    return p < q;
                }
            },
        }
    }
}

impl SortKey for String {
    open spec fn before(a: Seq<char>, b: Seq<char>) -> bool {
        text_lt(a, b)
    }

    proof fn order_laws() {
        assert forall|a: Seq<char>| !(#[trigger] Self::before(a, a)) by {
            lemma_text_lt_irreflexive(a);
        }
        assert forall|a: Seq<char>, b: Seq<char>, c: Seq<char>|
            #[trigger] Self::before(a, b) && #[trigger] Self::before(b, c) implies Self::before(
            a,
            c,
        ) by {
            lemma_text_lt_transitive(a, b, c);
        }
        assert forall|a: Seq<char>, b: Seq<char>| a != b implies #[trigger] Self::before(a, b)
            || #[trigger] Self::before(b, a) by {
            lemma_text_lt_total(a, b);
        }
    }

    fn precedes(&self, other: &Self) -> (r: bool) {
        str_lt(self.as_str(), other.as_str())
    }
}

/// The test that a text is in `set`.
pub open spec fn within(set: Set<Seq<char>>) -> spec_fn(Seq<char>) -> bool {
    |t: Seq<char>| set.contains(t)
}

/// The test that a text is not in `set`.
pub open spec fn outside(set: Set<Seq<char>>) -> spec_fn(Seq<char>) -> bool {
    |t: Seq<char>| !set.contains(t)
}

/// Of `texts`, in their order: those that `set` holds, where `held` is true;
/// those that it does not hold, where `held` is false.
pub fn sift(texts: &Vec<String>, set: &OrderedSet<String>, held: bool) -> (kept: Vec<String>)
    ensures
        kept.deep_view() == texts.deep_view().filter(
            if held {
                within(set@)
            } else {
                outside(set@)
            },
        ),
{
    let ghost all = texts.deep_view();
    let ghost wanted = if held {
        within(set@)
    } else {
        outside(set@)
    };
    let mut kept: Vec<String> = Vec::new();
    let mut i: usize = 0;
    proof {
        reveal(Seq::filter);
        assert(kept.deep_view() =~= all.take(0).filter(wanted));
    }
    while i < texts.len()
        invariant
            i <= texts.len(),
            all == texts.deep_view(),
            wanted == if held {
                within(set@)
            } else {
                outside(set@)
            },
            kept.deep_view() == all.take(i as int).filter(wanted),
        decreases texts.len() - i,
    {
        let ghost before = kept.deep_view();
        if set.contains(&texts[i]) == held {
            kept.push(texts[i].clone());
            assert(kept.deep_view() =~= before.push(all[i as int]));
        }
        proof {
            reveal(Seq::filter);
            let now = all.take(i + 1);
            assert(now.drop_last() =~= all.take(i as int));
            assert(now.last() == all[i as int]);
        }
        i += 1;
    }
    assert(all.take(i as int) =~= all);
    kept
}

} // verus!
