//! Total orders: the order of texts and of sequences, and comparison.

use vstd::prelude::*;

use crate::text::to_chars;

verus! {

/// The outcome of comparing two values.
#[derive(Debug, Clone, Copy, PartialEq, Eq, Structural)]
pub enum Order {
    Before,
    Same,
    After,
}

/// `before` is irreflexive, transitive and total.
pub open spec fn is_strict_order<T>(before: spec_fn(T, T) -> bool) -> bool {
    &&& forall|a: T| !#[trigger] before(a, a)
    &&& forall|a: T, b: T, c: T| #[trigger]
        before(a, b) && #[trigger] before(b, c) ==> before(a, c)
    &&& forall|a: T, b: T| #[trigger] before(a, b) || before(b, a) || a == b
}

/// The lexicographic order on sequences.
pub open spec fn lex_before<T>(a: Seq<T>, b: Seq<T>, before: spec_fn(T, T) -> bool) -> bool
    decreases a.len(),
{
    if b.len() == 0 {
        false
    } else if a.len() == 0 {
        true
    } else {
        before(a[0], b[0]) || (a[0] == b[0] && lex_before(a.drop_first(), b.drop_first(), before))
    }
}

pub proof fn lemma_lex_irreflexive<T>(a: Seq<T>, before: spec_fn(T, T) -> bool)
    requires
        is_strict_order(before),
    ensures
        !lex_before(a, a, before),
    decreases a.len(),
{
    if a.len() > 0 {
        assert(!before(a[0], a[0]));
        lemma_lex_irreflexive(a.drop_first(), before);
    }
}

pub proof fn lemma_lex_transitive<T>(
    a: Seq<T>,
    b: Seq<T>,
    c: Seq<T>,
    before: spec_fn(T, T) -> bool,
)
    requires
        is_strict_order(before),
        lex_before(a, b, before),
        lex_before(b, c, before),
    ensures
        lex_before(a, c, before),
    decreases a.len(),
{
    if a.len() > 0 {
        if a[0] == b[0] && b[0] == c[0] && !before(a[0], b[0]) && !before(b[0], c[0]) {
            lemma_lex_transitive(a.drop_first(), b.drop_first(), c.drop_first(), before);
        }
    }
}

pub proof fn lemma_lex_total<T>(a: Seq<T>, b: Seq<T>, before: spec_fn(T, T) -> bool)
    requires
        is_strict_order(before),
    ensures
        lex_before(a, b, before) || lex_before(b, a, before) || a == b,
    decreases a.len(),
{
    if a.len() == 0 || b.len() == 0 {
        if a.len() == b.len() {
            assert(a =~= b);
        }
    } else {
        assert(before(a[0], b[0]) || before(b[0], a[0]) || a[0] == b[0]);
        if a[0] == b[0] {
            lemma_lex_total(a.drop_first(), b.drop_first(), before);
            if a.drop_first() == b.drop_first() {
                assert(a =~= seq![a[0]] + a.drop_first());
                assert(b =~= seq![b[0]] + b.drop_first());
            }
        }
    }
}

/// The lexicographic order on sequences, as a function.
pub open spec fn lex_order<T>(before: spec_fn(T, T) -> bool) -> spec_fn(Seq<T>, Seq<T>) -> bool {
    |a: Seq<T>, b: Seq<T>| lex_before(a, b, before)
}

pub proof fn lemma_lex_order<T>(before: spec_fn(T, T) -> bool)
    requires
        is_strict_order(before),
    ensures
        is_strict_order(lex_order(before)),
{
    let lex = lex_order(before);
    assert forall|a: Seq<T>| !#[trigger] lex(a, a) by {
        lemma_lex_irreflexive(a, before);
    }
    assert forall|a: Seq<T>, b: Seq<T>, c: Seq<T>| #[trigger]
        lex(a, b) && #[trigger] lex(b, c) implies lex(a, c) by {
        lemma_lex_transitive(a, b, c, before);
    }
    assert forall|a: Seq<T>, b: Seq<T>| #[trigger] lex(a, b) || lex(b, a) || a == b by {
        lemma_lex_total(a, b, before);
    }
}

/// The order on pairs: by the first component and then by the second.
pub open spec fn pair_order<S, T>(
    first: spec_fn(S, S) -> bool,
    second: spec_fn(T, T) -> bool,
) -> spec_fn((S, T), (S, T)) -> bool {
    |a: (S, T), b: (S, T)| first(a.0, b.0) || (a.0 == b.0 && second(a.1, b.1))
}

pub proof fn lemma_pair_order<S, T>(
    first: spec_fn(S, S) -> bool,
    second: spec_fn(T, T) -> bool,
)
    requires
        is_strict_order(first),
        is_strict_order(second),
    ensures
        is_strict_order(pair_order(first, second)),
{
    let pair = pair_order(first, second);
    assert forall|a: (S, T)| !#[trigger] pair(a, a) by {
        assert(!first(a.0, a.0));
        assert(!second(a.1, a.1));
    }
    assert forall|a: (S, T), b: (S, T), c: (S, T)| #[trigger]
        pair(a, b) && #[trigger] pair(b, c) implies pair(a, c) by {
        if first(a.0, b.0) && first(b.0, c.0) {
            assert(first(a.0, c.0));
        }
    }
    assert forall|a: (S, T), b: (S, T)| #[trigger] pair(a, b) || pair(b, a) || a == b by {
        assert(first(a.0, b.0) || first(b.0, a.0) || a.0 == b.0);
        assert(second(a.1, b.1) || second(b.1, a.1) || a.1 == b.1);
    }
}

pub open spec fn char_order() -> spec_fn(char, char) -> bool {
    |a: char, b: char| a < b
}

/// The order of texts: by the code point of the first character that differs.
pub open spec fn text_before(a: Seq<char>, b: Seq<char>) -> bool {
    lex_before(a, b, char_order())
}

pub open spec fn text_order() -> spec_fn(Seq<char>, Seq<char>) -> bool {
    lex_order(char_order())
}

pub proof fn lemma_text_order()
    ensures
        is_strict_order(text_order()),
{
    assert(is_strict_order(char_order()));
    lemma_lex_order(char_order());
}

/// Of two texts exactly one comes before the other, unless they are the same.
pub proof fn lemma_text_strict(a: Seq<char>, b: Seq<char>)
    ensures
        !text_before(a, a),
        !(text_before(a, b) && text_before(b, a)),
        text_before(a, b) || text_before(b, a) || a == b,
{
    lemma_text_order();
    let before = text_order();
    assert(!before(a, a));
    assert(before(a, b) && before(b, a) ==> before(a, a));
    assert(before(a, b) || before(b, a) || a == b);
}

pub proof fn lemma_text_transitive(a: Seq<char>, b: Seq<char>, c: Seq<char>)
    requires
        text_before(a, b),
        text_before(b, c),
    ensures
        text_before(a, c),
{
    lemma_text_order();
    let before = text_order();
    assert(before(a, b) && before(b, c) ==> before(a, c));
}

/// What a comparison under a strict order says.
pub open spec fn is_outcome<T>(r: Order, a: T, b: T, before: spec_fn(T, T) -> bool) -> bool {
    match r {
        Order::Before => before(a, b),
        Order::Same => a == b,
        Order::After => before(b, a),
    }
}

/// Compares two texts.
pub fn compare_text(a: &str, b: &str) -> (r: Order)
    ensures
        is_outcome(r, a@, b@, text_order()),
{
    let x = to_chars(a);
    let y = to_chars(b);
    let mut i: usize = 0;
    assert(x@.skip(0) =~= x@ && y@.skip(0) =~= y@);
    while i < x.len() && i < y.len()
        invariant
            i <= x@.len(),
            i <= y@.len(),
            x@ == a@,
            y@ == b@,
            x@.take(i as int) == y@.take(i as int),
            text_before(x@, y@) == text_before(x@.skip(i as int), y@.skip(i as int)),
            text_before(y@, x@) == text_before(y@.skip(i as int), x@.skip(i as int)),
        decreases x@.len() - i,
    {
        if x[i] < y[i] {
            return Order::Before;
        }
        if y[i] < x[i] {
            return Order::After;
        }
        proof {
            assert(x@.skip(i as int).drop_first() =~= x@.skip(i + 1));
            assert(y@.skip(i as int).drop_first() =~= y@.skip(i + 1));
            assert(x@.take(i + 1) =~= x@.take(i as int).push(x@[i as int]));
            assert(y@.take(i + 1) =~= y@.take(i as int).push(y@[i as int]));
        }
        i += 1;
    }
    if i < y.len() {
        Order::Before
    } else if i < x.len() {
        Order::After
    } else {
        assert(x@.take(i as int) =~= x@ && y@.take(i as int) =~= y@);
        Order::Same
    }
}

} // verus!
