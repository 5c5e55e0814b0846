//! Lexicographic order, and texts in that order without repetition.

use crate::text::{chars_of, views};
use vstd::prelude::*;

verus! {

/// `less` is a strict total order.
pub open spec fn is_strict_total<A>(less: spec_fn(A, A) -> bool) -> bool {
    &&& forall|a: A| !#[trigger] less(a, a)
    &&& forall|a: A, b: A, c: A| #[trigger] less(a, b) && #[trigger] less(b, c) ==> less(a, c)
    &&& forall|a: A, b: A| #[trigger] less(a, b) || a == b || less(b, a)
}

/// `a` comes before `b`: at the first place where they differ, `a` has the
/// lesser item or has ended.
pub open spec fn lex_less<A>(less: spec_fn(A, A) -> bool, a: Seq<A>, b: Seq<A>) -> bool
    decreases a.len(),
{
    if b.len() == 0 {
        false
    } else if a.len() == 0 {
        true
    } else {
        less(a[0], b[0]) || (a[0] == b[0] && lex_less(less, a.skip(1), b.skip(1)))
    }
}

proof fn lemma_lex_irreflexive<A>(less: spec_fn(A, A) -> bool, a: Seq<A>)
    requires
        is_strict_total(less),
    ensures
        !lex_less(less, a, a),
    decreases a.len(),
{
    if a.len() > 0 {
        assert(!less(a[0], a[0]));
        lemma_lex_irreflexive(less, a.skip(1));
    }
}

proof fn lemma_lex_transitive<A>(less: spec_fn(A, A) -> bool, a: Seq<A>, b: Seq<A>, c: Seq<A>)
    requires
        is_strict_total(less),
        lex_less(less, a, b),
        lex_less(less, b, c),
    ensures
        lex_less(less, a, c),
    decreases a.len(),
{
    if a.len() > 0 {
        if a[0] == b[0] && b[0] == c[0] && !less(a[0], b[0]) && !less(b[0], c[0]) {
            lemma_lex_transitive(less, a.skip(1), b.skip(1), c.skip(1));
        } else if less(a[0], b[0]) && less(b[0], c[0]) {
            assert(less(a[0], c[0]));
        } else {
            assert(!less(b[0], b[0]));
            assert(!less(a[0], a[0]));
        }
    }
}

proof fn lemma_lex_total<A>(less: spec_fn(A, A) -> bool, a: Seq<A>, b: Seq<A>)
    requires
        is_strict_total(less),
    ensures
        lex_less(less, a, b) || a == b || lex_less(less, b, a),
    decreases a.len(),
{
    if a.len() == 0 || b.len() == 0 {
        if a.len() == 0 && b.len() == 0 {
            assert(a =~= b);
        }
    } else {
        assert(less(a[0], b[0]) || a[0] == b[0] || less(b[0], a[0]));
        if a[0] == b[0] {
            lemma_lex_total(less, a.skip(1), b.skip(1));
            if a.skip(1) == b.skip(1) {
                assert(a =~= seq![a[0]] + a.skip(1));
                assert(b =~= seq![b[0]] + b.skip(1));
            }
        }
    }
}

/// The lexicographic order over a strict total order is one itself.
pub proof fn lemma_lex_strict_total<A>(less: spec_fn(A, A) -> bool)
    requires
        is_strict_total(less),
    ensures
        is_strict_total(|a: Seq<A>, b: Seq<A>| lex_less(less, a, b)),
{
    let lex = |a: Seq<A>, b: Seq<A>| lex_less(less, a, b);
    assert forall|a: Seq<A>| !#[trigger] lex(a, a) by {
        lemma_lex_irreflexive(less, a);
    }
    assert forall|a: Seq<A>, b: Seq<A>, c: Seq<A>| #[trigger] lex(a, b) && #[trigger] lex(b, c)
        implies lex(a, c) by {
        lemma_lex_transitive(less, a, b, c);
    }
    assert forall|a: Seq<A>, b: Seq<A>| #[trigger] lex(a, b) || a == b || lex(b, a) by {
        lemma_lex_total(less, a, b);
    }
}

/// Texts are ordered by the code points of their characters.
pub open spec fn text_less(a: Seq<char>, b: Seq<char>) -> bool {
    lex_less(|c: char, d: char| c < d, a, b)
}

/// The order of texts is a strict total order.
pub proof fn lemma_text_order()
    ensures
        is_strict_total(|a: Seq<char>, b: Seq<char>| text_less(a, b)),
{
    let less = |c: char, d: char| c < d;
    lemma_lex_strict_total(less);
    assert((|a: Seq<char>, b: Seq<char>| text_less(a, b)) =~= (|a: Seq<char>, b: Seq<char>|
        lex_less(less, a, b)));
}

/// How one sequence stands to another in an order.
#[derive(Clone, Copy, Debug, PartialEq, Eq, Structural)]
pub enum Relation {
    Before,
    Same,
    After,
}

/// Compares two texts.
pub fn compare_texts(a: &str, b: &str) -> (res: Relation)
    ensures
        res == Relation::Before <==> text_less(a@, b@),
        res == Relation::Same <==> a@ == b@,
        res == Relation::After <==> text_less(b@, a@),
{
    let left = chars_of(a);
    let right = chars_of(b);
    let ghost less = |c: char, d: char| c < d;
    let mut i: usize = 0;
    proof {
        lemma_lex_irreflexive(less, a@);
        assert(a@.skip(0) == a@);
        assert(b@.skip(0) == b@);
    }
    while i < left.len() && i < right.len() && left[i] == right[i]
        invariant
            left@ == a@,
            right@ == b@,
            less == (|c: char, d: char| c < d),
            i <= left.len(),
            i <= right.len(),
            a@.take(i as int) == b@.take(i as int),
            text_less(a@, b@) == lex_less(less, a@.skip(i as int), b@.skip(i as int)),
            text_less(b@, a@) == lex_less(less, b@.skip(i as int), a@.skip(i as int)),
        decreases left.len() - i,
    {
        assert(a@.skip(i as int).skip(1) == a@.skip(i + 1));
        assert(b@.skip(i as int).skip(1) == b@.skip(i + 1));
        assert(a@.take(i + 1) == a@.take(i as int).push(a@[i as int]));
        assert(b@.take(i + 1) == b@.take(i as int).push(b@[i as int]));
        i = i + 1;
    }
    assert(i < a@.len() && i < b@.len() ==> a@ != b@);
    if i < left.len() && i < right.len() {
        if left[i] < right[i] {
            Relation::Before
        } else {
            Relation::After
        }
    } else if i < right.len() {
        Relation::Before
    } else if i < left.len() {
        Relation::After
    } else {
        assert(a@.take(i as int) == a@);
        assert(b@.take(i as int) == b@);
        Relation::Same
    }
}

/// Each text comes before the next, so that none occurs twice.
pub open spec fn is_increasing(texts: Seq<Seq<char>>) -> bool {
    forall|i: int, j: int| 0 <= i < j < texts.len() ==> text_less(#[trigger] texts[i], #[trigger] texts[j])
}

/// `texts` holds what `wanted` holds, in increasing order.
pub open spec fn is_sorted_set(texts: Seq<Seq<char>>, wanted: Set<Seq<char>>) -> bool {
    &&& is_increasing(texts)
    &&& texts.to_set() == wanted
}

fn insert_text(items: &mut Vec<String>, item: String)
    requires
        is_increasing(views(old(items)@)),
    ensures
        is_increasing(views(final(items)@)),
        views(final(items)@).to_set() == views(old(items)@).to_set().insert(item@),
{
    let ghost before = views(items@);
    let mut at: usize = 0;
    let mut found = false;
    while at < items.len() && !found
        invariant_except_break
            !found,
        invariant
            at <= items.len(),
            items@ == old(items)@,
            before == views(items@),
            forall|j: int| 0 <= j < at ==> text_less(#[trigger] before[j], item@),
        ensures
            found ==> at < items.len() && before[at as int] == item@,
            !found && at < items.len() ==> text_less(item@, before[at as int]),
        decreases items.len() - at,
    {
        match compare_texts(items[at].as_str(), item.as_str()) {
            Relation::Before => {
                at = at + 1;
            },
            Relation::Same => {
                found = true;
                break;
            },
            Relation::After => {
                break;
            },
        }
    }
    if found {
        assert(before.to_set().insert(item@) =~= before.to_set()) by {
            assert(before.contains(before[at as int]));
        }
    } else {
        proof {
            lemma_text_order();
        }
        let ghost less = |a: Seq<char>, b: Seq<char>| text_less(a, b);
        assert forall|j: int| at <= j < before.len() implies text_less(item@, #[trigger] before[j]) by {
            if j > at {
                assert(less(item@, before[at as int]) && less(before[at as int], before[j]));
                assert(less(item@, before[j]));
            }
        }
        items.insert(at, item);
        let ghost after = before.insert(at as int, item@);
        assert(views(items@) =~= after);
        assert forall|i: int, j: int| 0 <= i < j < after.len() implies text_less(
            #[trigger] after[i],
            #[trigger] after[j],
        ) by {
            if i != at && j != at {
                let k = if i < at { i } else { i - 1 };
                let l = if j < at { j } else { j - 1 };
                assert(after[i] == before[k] && after[j] == before[l]);
            } else if j == at {
                assert(after[i] == before[i]);
            } else {
                assert(after[j] == before[j - 1]);
            }
        }
        assert(after.to_set() =~= before.to_set().insert(item@)) by {
            assert forall|t: Seq<char>| after.contains(t) <==> (before.contains(t) || t == item@) by {
                if after.contains(t) {
                    let i = choose|i: int| 0 <= i < after.len() && after[i] == t;
                    if i < at {
                        assert(before[i] == t);
                    } else if i > at {
                        assert(before[i - 1] == t);
                    }
                }
                if before.contains(t) {
                    let i = choose|i: int| 0 <= i < before.len() && before[i] == t;
                    if i < at {
                        assert(after[i] == t);
                    } else {
                        assert(after[i + 1] == t);
                    }
                }
                if t == item@ {
                    assert(after[at as int] == t);
                }
            }
        }
    }
}

/// The given texts in increasing order, each once.
pub fn sorted_set(items: Vec<String>) -> (res: Vec<String>)
    ensures
        is_sorted_set(views(res@), views(items@).to_set()),
{
    let mut res: Vec<String> = Vec::new();
    let mut rest = items;
    assert(views(res@).to_set() + views(rest@).to_set() =~= views(items@).to_set()) by {
        assert(views(res@) =~= Seq::empty());
    }
    while rest.len() > 0
        invariant
            is_increasing(views(res@)),
            views(res@).to_set() + views(rest@).to_set() == views(items@).to_set(),
        decreases rest.len(),
    {
        let ghost known = views(res@);
        let ghost left = views(rest@);
        match rest.pop() {
            Some(item) => {
                assert(views(rest@) =~= left.drop_last());
                assert(left.last() == item@);
                insert_text(&mut res, item);
                assert(left.to_set() =~= left.drop_last().to_set().insert(item@)) by {
                    assert(left =~= left.drop_last().push(item@));
                    assert forall|t: Seq<char>| left.contains(t) <==> (left.drop_last().contains(t)
                        || t == item@) by {
                        if left.contains(t) {
                            let i = choose|i: int| 0 <= i < left.len() && left[i] == t;
                            if i < left.len() - 1 {
                                assert(left.drop_last()[i] == t);
                            }
                        }
                        if left.drop_last().contains(t) {
                            let i = choose|i: int|
                                0 <= i < left.drop_last().len() && left.drop_last()[i] == t;
                            assert(left[i] == t);
                        }
                        assert(left[left.len() - 1] == item@);
                    }
                }
                assert(views(res@).to_set() + views(rest@).to_set() =~= known.to_set()
                    + left.to_set());
            },
            None => {},
        }
    }
    assert(views(rest@) =~= Seq::empty());
    assert(views(res@).to_set() =~= views(items@).to_set());
    res
}

/// A set of texts has one increasing sequence: two that hold the same texts
/// are equal.
pub proof fn lemma_sorted_set_unique(a: Seq<Seq<char>>, b: Seq<Seq<char>>)
    requires
        is_increasing(a),
        is_increasing(b),
        a.to_set() == b.to_set(),
    ensures
        a == b,
    decreases a.len(),
{
    lemma_text_order();
    let less = |x: Seq<char>, y: Seq<char>| text_less(x, y);
    if a.len() == 0 {
        if b.len() > 0 {
            assert(b.to_set().contains(b[0]));
            assert(a.contains(b[0]));
        }
        assert(a =~= b);
    } else {
        assert(a.to_set().contains(a.last()));
        assert(b.contains(a.last()));
        let i = choose|i: int| 0 <= i < b.len() && b[i] == a.last();
        assert(b.to_set().contains(b.last()));
        assert(a.contains(b.last()));
        let j = choose|j: int| 0 <= j < a.len() && a[j] == b.last();
        assert(a.last() == b.last()) by {
            if a.last() != b.last() {
                assert(less(b[i], b[b.len() - 1]));
                assert(less(a[j], a[a.len() - 1]));
                assert(less(a.last(), b.last()) && less(b.last(), a.last()));
                assert(less(a.last(), a.last()));
            }
        }
        let x = a.drop_last();
        let y = b.drop_last();
        assert forall|t: Seq<char>| x.to_set().contains(t) == y.to_set().contains(t) by {
            if x.contains(t) {
                let k = choose|k: int| 0 <= k < x.len() && x[k] == t;
                assert(less(a[k], a[a.len() - 1]));
                assert(!less(t, t));
                assert(a.contains(t)) by {
                    assert(a[k] == t);
                }
                assert(b.to_set().contains(t));
                let l = choose|l: int| 0 <= l < b.len() && b[l] == t;
                assert(y[l] == t);
            }
            if y.contains(t) {
                let k = choose|k: int| 0 <= k < y.len() && y[k] == t;
                assert(less(b[k], b[b.len() - 1]));
                assert(!less(t, t));
                assert(b.contains(t)) by {
                    assert(b[k] == t);
                }
                assert(a.to_set().contains(t));
                let l = choose|l: int| 0 <= l < a.len() && a[l] == t;
                assert(x[l] == t);
            }
        }
        assert(x.to_set() =~= y.to_set());
        assert forall|k: int, l: int| 0 <= k < l < x.len() implies text_less(
            #[trigger] x[k],
            #[trigger] x[l],
        ) by {
            assert(text_less(a[k], a[l]));
        }
        assert forall|k: int, l: int| 0 <= k < l < y.len() implies text_less(
            #[trigger] y[k],
            #[trigger] y[l],
        ) by {
            assert(text_less(b[k], b[l]));
        }
        lemma_sorted_set_unique(x, y);
        assert(a =~= x.push(a.last()));
        assert(b =~= y.push(b.last()));
    }
}

/// One text comes before another if and only if they agree up to some place
/// where the one ends and the other does not, or has the lesser character.
pub proof fn lemma_text_less(a: Seq<char>, b: Seq<char>)
    ensures
        text_less(a, b) <==> exists|k: int|
            #![trigger a.take(k)]
            0 <= k <= a.len() && k < b.len() && a.take(k) == b.take(k) && (k == a.len() || a[k]
                < b[k]),
{
    let less = |c: char, d: char| c < d;
    lemma_lex_less(less, a, b);
    if text_less(a, b) {
        let k = choose|k: int|
            #![trigger a.take(k)]
            0 <= k <= a.len() && k < b.len() && a.take(k) == b.take(k) && (k == a.len() || less(
                a[k],
                b[k],
            ));
        assert(a.take(k) == b.take(k));
    }
    if exists|k: int|
        #![trigger a.take(k)]
        0 <= k <= a.len() && k < b.len() && a.take(k) == b.take(k) && (k == a.len() || a[k] < b[k]) {
        let k = choose|k: int|
            #![trigger a.take(k)]
            0 <= k <= a.len() && k < b.len() && a.take(k) == b.take(k) && (k == a.len() || a[k]
                < b[k]);
        assert(k == a.len() || less(a[k], b[k]));
        assert(a.take(k) == b.take(k));
    }
}

/// One sequence comes before another if and only if they agree up to some place
/// where the one ends and the other does not, or has the lesser item.
pub proof fn lemma_lex_less<A>(less: spec_fn(A, A) -> bool, a: Seq<A>, b: Seq<A>)
    ensures
        lex_less(less, a, b) <==> exists|k: int|
            #![trigger a.take(k)]
            0 <= k <= a.len() && k < b.len() && a.take(k) == b.take(k) && (k == a.len() || less(
                a[k],
                b[k],
            )),
    decreases a.len(),
{
    if b.len() > 0 && a.len() == 0 {
        assert(a.take(0) =~= b.take(0));
    } else if b.len() > 0 {
        let x = a.skip(1);
        let y = b.skip(1);
        lemma_lex_less(less, x, y);
        if less(a[0], b[0]) {
            assert(a.take(0) =~= b.take(0));
        } else if a[0] == b[0] && lex_less(less, x, y) {
            let k = choose|k: int|
                #![trigger x.take(k)]
                0 <= k <= x.len() && k < y.len() && x.take(k) == y.take(k) && (k == x.len() || less(
                    x[k],
                    y[k],
                ));
            assert(a.take(k + 1) =~= seq![a[0]] + x.take(k));
            assert(b.take(k + 1) =~= seq![b[0]] + y.take(k));
        }
        if exists|k: int|
            #![trigger a.take(k)]
            0 <= k <= a.len() && k < b.len() && a.take(k) == b.take(k) && (k == a.len() || less(
                a[k],
                b[k],
            )) {
            let k = choose|k: int|
                #![trigger a.take(k)]
                0 <= k <= a.len() && k < b.len() && a.take(k) == b.take(k) && (k == a.len() || less(
                    a[k],
                    b[k],
                ));
            if k > 0 {
                assert(a.take(k)[0] == b.take(k)[0]);
                assert(x.take(k - 1) =~= a.take(k).skip(1));
                assert(y.take(k - 1) =~= b.take(k).skip(1));
                assert(k - 1 == x.len() || less(x[k - 1], y[k - 1]));
            }
        }
    }
}

/// A sorted set holds every text that is wanted and no other, and of any two
/// the earlier one comes before the later.
pub proof fn lemma_sorted_set(texts: Seq<Seq<char>>, wanted: Set<Seq<char>>)
    requires
        is_sorted_set(texts, wanted),
    ensures
        forall|i: int| 0 <= i < texts.len() ==> wanted.contains(#[trigger] texts[i]),
        forall|t: Seq<char>| wanted.contains(t) ==> exists|i: int|
            0 <= i < texts.len() && #[trigger] texts[i] == t,
        forall|i: int, j: int|
            0 <= i < j < texts.len() ==> text_less(#[trigger] texts[i], #[trigger] texts[j]),
{
    assert forall|i: int| 0 <= i < texts.len() implies wanted.contains(#[trigger] texts[i]) by {
        assert(texts.to_set().contains(texts[i]));
    }
    assert forall|t: Seq<char>| wanted.contains(t) implies exists|i: int|
        0 <= i < texts.len() && #[trigger] texts[i] == t by {
        assert(texts.to_set().contains(t));
        assert(texts.contains(t));
    }
}

} // verus!
