//! Lexicographic order of character sequences, and sorting by it.
use vstd::prelude::*;
use vstd::relations::{sorted_by, total_ordering};

use crate::models::strings_view;
use crate::text::chars_of;

verus! {

broadcast use vstd::seq_lib::group_to_multiset_ensures;

/// `a` comes strictly before `b`, comparing characters by code point, a
/// proper prefix first (the order of `String`'s `Ord`).
pub open spec fn chars_lt(a: Seq<char>, b: Seq<char>) -> bool
    decreases a.len(),
{
    if a.len() == 0 {
        b.len() > 0
    } else if b.len() == 0 {
        false
    } else if (a[0] as int) < (b[0] as int) {
        true
    } else if a[0] == b[0] {
        chars_lt(a.drop_first(), b.drop_first())
    } else {
        false
    }
}

/// `a` comes before `b` or equals it.
pub open spec fn chars_le(a: Seq<char>, b: Seq<char>) -> bool {
    a == b || chars_lt(a, b)
}

/// The order as a relation.
pub open spec fn chars_order() -> spec_fn(Seq<char>, Seq<char>) -> bool {
    |a: Seq<char>, b: Seq<char>| chars_le(a, b)
}

proof fn lemma_lt_irreflexive(a: Seq<char>)
    ensures
        !chars_lt(a, a),
    decreases a.len(),
{
    if a.len() > 0 {
        lemma_lt_irreflexive(a.drop_first());
    }
}

proof fn lemma_lt_asymmetric(a: Seq<char>, b: Seq<char>)
    ensures
        !(chars_lt(a, b) && chars_lt(b, a)),
    decreases a.len(),
{
    if a.len() > 0 && b.len() > 0 && a[0] == b[0] {
        lemma_lt_asymmetric(a.drop_first(), b.drop_first());
    }
}

proof fn lemma_lt_transitive(a: Seq<char>, b: Seq<char>, c: Seq<char>)
    requires
        chars_lt(a, b),
        chars_lt(b, c),
    ensures
        chars_lt(a, c),
    decreases a.len(),
{
    if a.len() > 0 && b.len() > 0 && c.len() > 0 && a[0] == b[0] && b[0] == c[0] {
        lemma_lt_transitive(a.drop_first(), b.drop_first(), c.drop_first());
    }
}

proof fn lemma_lt_total(a: Seq<char>, b: Seq<char>)
    ensures
        a == b || chars_lt(a, b) || chars_lt(b, a),
    decreases a.len(),
{
    if a.len() > 0 && b.len() > 0 && a[0] == b[0] {
        lemma_lt_total(a.drop_first(), b.drop_first());
        if a.drop_first() == b.drop_first() {
            assert(a =~= seq![a[0]] + a.drop_first());
            assert(b =~= seq![b[0]] + b.drop_first());
        }
    } else if a.len() == 0 && b.len() == 0 {
        assert(a =~= b);
    } else if a.len() > 0 && b.len() > 0 {
        assert((a[0] as int) != (b[0] as int));
    }
}

/// The order is a total order.
pub proof fn lemma_chars_order_total()
    ensures
        total_ordering(chars_order()),
{
    assert forall|a: Seq<char>| #[trigger] chars_order()(a, a) by {}
    assert forall|a: Seq<char>, b: Seq<char>|
        #[trigger] chars_order()(a, b) && #[trigger] chars_order()(b, a) implies a == b by {
        lemma_lt_asymmetric(a, b);
    }
    assert forall|a: Seq<char>, b: Seq<char>, c: Seq<char>|
        #[trigger] chars_order()(a, b) && #[trigger] chars_order()(b, c) implies chars_order()(
        a,
        c,
    ) by {
        if a != b && b != c {
            lemma_lt_transitive(a, b, c);
        }
    }
    assert forall|a: Seq<char>, b: Seq<char>|
        #[trigger] chars_order()(a, b) || #[trigger] chars_order()(b, a) by {
        lemma_lt_total(a, b);
    }
}

/// Whether `a` comes before `b` or equals it.
pub fn chars_le_exec(a: &Vec<char>, b: &Vec<char>) -> (r: bool)
    ensures
        r == chars_le(a@, b@),
{
    let mut i: usize = 0;
    assert(a@.skip(0) == a@ && b@.skip(0) == b@);
    while i < a.len() && i < b.len() && a[i] == b[i]
        invariant
            i <= a.len(),
            i <= b.len(),
            a@.take(i as int) == b@.take(i as int),
            chars_lt(a@, b@) == chars_lt(a@.skip(i as int), b@.skip(i as int)),
        decreases a.len() - i,
    {
        assert(a@.skip(i as int).drop_first() == a@.skip(i + 1));
        assert(b@.skip(i as int).drop_first() == b@.skip(i + 1));
        assert(a@.take(i + 1) == a@.take(i as int).push(a@[i as int]));
        assert(b@.take(i + 1) == b@.take(i as int).push(b@[i as int]));
        i += 1;
    }
    if i == a.len() {
        if i == b.len() {
            assert(a@ =~= a@.take(i as int));
            assert(b@ =~= b@.take(i as int));
        }
        true
    } else if i == b.len() {
        assert(b@ =~= b@.take(i as int));
        assert(b@.skip(i as int).len() == 0);
        assert(a@ != b@) by {
            assert(a@.len() != b@.len());
        }
        false
    } else {
        assert(a@[i as int] != b@[i as int]);
        assert(a@ != b@) by {
            assert(a@[i as int] != b@[i as int]);
        }
        assert(a@.skip(i as int)[0] == a@[i as int]);
        assert(b@.skip(i as int)[0] == b@[i as int]);
        a[i] < b[i]
    }
}

/// Two sorted sequences with the same elements, counted with multiplicity,
/// are equal.
pub proof fn lemma_sorted_unique(x: Seq<Seq<char>>, y: Seq<Seq<char>>)
    requires
        sorted_by(x, chars_order()),
        sorted_by(y, chars_order()),
        x.to_multiset() == y.to_multiset(),
    ensures
        x == y,
    decreases x.len(),
{
    lemma_chars_order_total();
    assert(x.len() == x.to_multiset().len());
    assert(y.len() == y.to_multiset().len());
    if x.len() > 0 {
        assert(x.to_multiset().count(x[0]) > 0) by {
            assert(x.contains(x[0]));
        }
        assert(y.contains(x[0]));
        assert(x.contains(y[0])) by {
            assert(y.contains(y[0]));
            assert(y.to_multiset().count(y[0]) > 0);
        }
        let j = choose|j: int| 0 <= j < y.len() && y[j] == x[0];
        let i = choose|i: int| 0 <= i < x.len() && x[i] == y[0];
        if j > 0 {
            assert(chars_order()(y[0], y[j]));
        }
        if i > 0 {
            assert(chars_order()(x[0], x[i]));
        }
        assert(x[0] == y[0]);
        assert(x.remove(0) == x.drop_first());
        assert(y.remove(0) == y.drop_first());
        assert(x.remove(0).to_multiset() == x.to_multiset().remove(x[0]));
        assert(y.remove(0).to_multiset() == y.to_multiset().remove(y[0]));
        assert forall|a: int, b: int| 0 <= a < b < x.drop_first().len() implies #[trigger] chars_order()(
            x.drop_first()[a],
            x.drop_first()[b],
        ) by {
            assert(chars_order()(x[a + 1], x[b + 1]));
        }
        assert forall|a: int, b: int| 0 <= a < b < y.drop_first().len() implies #[trigger] chars_order()(
            y.drop_first()[a],
            y.drop_first()[b],
        ) by {
            assert(chars_order()(y[a + 1], y[b + 1]));
        }
        lemma_sorted_unique(x.drop_first(), y.drop_first());
        assert(x =~= seq![x[0]] + x.drop_first());
        assert(y =~= seq![y[0]] + y.drop_first());
    } else {
        assert(x =~= y);
    }
}


/// The position at which `x` goes into the sorted `r`: after everything
/// not greater than it.
fn insert_position(r: &Vec<String>, x: &Vec<char>) -> (j: usize)
    requires
        sorted_by(strings_view(r@), chars_order()),
    ensures
        j <= r.len(),
        forall|k: int| 0 <= k < j ==> chars_le(#[trigger] strings_view(r@)[k], x@),
        forall|k: int| j <= k < r.len() ==> chars_lt(x@, #[trigger] strings_view(r@)[k]),
{
    proof {
        lemma_chars_order_total();
    }
    let mut j: usize = 0;
    while j < r.len()
        invariant
            j <= r.len(),
            sorted_by(strings_view(r@), chars_order()),
            total_ordering(chars_order()),
            forall|k: int| 0 <= k < j ==> chars_le(#[trigger] strings_view(r@)[k], x@),
        decreases r.len() - j,
    {
        let y = chars_of(r[j].as_str());
        if !chars_le_exec(&y, x) {
            proof {
                lemma_lt_total(y@, x@);
                assert forall|k: int| j <= k < r.len() implies chars_lt(
                    x@,
                    #[trigger] strings_view(r@)[k],
                ) by {
                    if k > j {
                        assert(chars_order()(strings_view(r@)[j as int], strings_view(r@)[k]));
                        if strings_view(r@)[j as int] != strings_view(r@)[k] {
                            lemma_lt_transitive(x@, strings_view(r@)[j as int], strings_view(r@)[k]);
                        }
                    }
                }
            }
            return j;
        }
        j += 1;
    }
    j
}

/// The strings in order, each as often as it occurs.
pub fn sort_strings(v: &Vec<String>) -> (r: Vec<String>)
    ensures
        sorted_by(strings_view(r@), chars_order()),
        strings_view(r@).to_multiset() == strings_view(v@).to_multiset(),
        strings_view(r@) == strings_view(v@).sort_by(chars_order()),
{
    proof {
        lemma_chars_order_total();
    }
    let mut r: Vec<String> = Vec::new();
    let mut i: usize = 0;
    assert(strings_view(v@).take(0) =~= seq![]);
    assert(strings_view(r@) =~= seq![]);
    while i < v.len()
        invariant
            i <= v.len(),
            sorted_by(strings_view(r@), chars_order()),
            strings_view(r@).to_multiset() == strings_view(v@).take(i as int).to_multiset(),
        decreases v.len() - i,
    {
        let x = chars_of(v[i].as_str());
        let j = insert_position(&r, &x);
        let ghost prev = strings_view(r@);
        r.insert(j, v[i].clone());
        let ghost cur = strings_view(r@);
        assert(cur =~= prev.insert(j as int, x@));
        assert forall|a: int, b: int| 0 <= a < b < cur.len() implies #[trigger] chars_order()(
            cur[a],
            cur[b],
        ) by {
            if b < j {
                assert(chars_order()(prev[a], prev[b]));
            } else if b == j {
                assert(chars_le(prev[a], x@));
            } else if a == j {
                assert(chars_lt(x@, prev[b - 1]));
            } else if a < j {
                assert(chars_le(prev[a], x@));
                assert(chars_lt(x@, prev[b - 1]));
                if prev[a] != x@ {
                    lemma_lt_transitive(prev[a], x@, prev[b - 1]);
                }
            } else {
                assert(chars_order()(prev[a - 1], prev[b - 1]));
            }
        }
        assert(cur.remove(j as int) =~= prev);
        assert(cur.remove(j as int).to_multiset() == cur.to_multiset().remove(x@));
        assert(cur.to_multiset().count(x@) > 0) by {
            assert(cur.contains(x@)) by {
                assert(cur[j as int] == x@);
            }
        }
        assert(cur.to_multiset() =~= prev.to_multiset().insert(x@));
        assert(strings_view(v@).take(i + 1) =~= strings_view(v@).take(i as int).push(x@));
        i += 1;
    }
    assert(strings_view(v@).take(v.len() as int) =~= strings_view(v@));
    proof {
        strings_view(v@).lemma_sort_by_ensures(chars_order());
        lemma_sorted_unique(strings_view(r@), strings_view(v@).sort_by(chars_order()));
    }
    r
}

} // verus!
