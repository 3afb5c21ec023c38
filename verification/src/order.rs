//! The order of texts, and sorting by it.

use vstd::prelude::*;
use vstd::relations::*;
use vstd::seq_lib::*;

use crate::text;

verus! {

/// Whether `a` stands before `b` or is `b`: by the first character in which they
/// differ; a text stands before its continuations.
pub open spec fn text_le(a: Seq<char>, b: Seq<char>) -> bool
    decreases a.len(),
{
    if a.len() == 0 {
        true
    } else if b.len() == 0 {
        false
    } else if a[0] != b[0] {
        a[0] < b[0]
    } else {
        text_le(a.drop_first(), b.drop_first())
    }
}

/// The order of texts.
pub open spec fn text_order() -> spec_fn(Seq<char>, Seq<char>) -> bool {
    |a: Seq<char>, b: Seq<char>| text_le(a, b)
}

pub proof fn lemma_text_le_reflexive(a: Seq<char>)
    ensures
        text_le(a, a),
    decreases a.len(),
{
    if a.len() > 0 {
        lemma_text_le_reflexive(a.drop_first());
    }
}

pub proof fn lemma_text_le_antisymmetric(a: Seq<char>, b: Seq<char>)
    requires
        text_le(a, b),
        text_le(b, a),
    ensures
        a == b,
    decreases a.len(),
{
    if a.len() > 0 && b.len() > 0 {
        lemma_text_le_antisymmetric(a.drop_first(), b.drop_first());
        assert(a == seq![a[0]] + a.drop_first());
        assert(b == seq![b[0]] + b.drop_first());
    } else {
        assert(a =~= b);
    }
}

pub proof fn lemma_text_le_transitive(a: Seq<char>, b: Seq<char>, c: Seq<char>)
    requires
        text_le(a, b),
        text_le(b, c),
    ensures
        text_le(a, c),
    decreases a.len(),
{
    if a.len() > 0 && b.len() > 0 && c.len() > 0 && a[0] == b[0] && b[0] == c[0] {
        lemma_text_le_transitive(a.drop_first(), b.drop_first(), c.drop_first());
    }
}

pub proof fn lemma_text_le_total(a: Seq<char>, b: Seq<char>)
    ensures
        text_le(a, b) || text_le(b, a),
    decreases a.len(),
{
    if a.len() > 0 && b.len() > 0 && a[0] == b[0] {
        lemma_text_le_total(a.drop_first(), b.drop_first());
    }
}

/// Texts are in total order.
pub proof fn lemma_text_order()
    ensures
        total_ordering(text_order()),
{
    let le = text_order();
    assert forall|a: Seq<char>| #[trigger] le(a, a) by {
        lemma_text_le_reflexive(a);
    }
    assert forall|a: Seq<char>, b: Seq<char>| #[trigger] le(a, b) && #[trigger] le(b, a) implies a
        == b by {
        lemma_text_le_antisymmetric(a, b);
    }
    assert forall|a: Seq<char>, b: Seq<char>, c: Seq<char>| #[trigger]
        le(a, b) && #[trigger] le(b, c) implies le(a, c) by {
        lemma_text_le_transitive(a, b, c);
    }
    assert forall|a: Seq<char>, b: Seq<char>| #[trigger] le(a, b) || #[trigger] le(b, a) by {
        lemma_text_le_total(a, b);
    }
}

/// Whether `a` stands before `b` or is `b`.
pub fn not_after(a: &str, b: &str) -> (r: bool)
    ensures
        r == text_le(a@, b@),
{
    let v = text::to_chars(a);
    let w = text::to_chars(b);
    let mut i: usize = 0;
    assert(v@.skip(0) == v@);
    assert(w@.skip(0) == w@);
    while i < v.len() && i < w.len() && v[i] == w[i]
        invariant
            i <= v@.len(),
            i <= w@.len(),
            text_le(v@, w@) == text_le(v@.skip(i as int), w@.skip(i as int)),
        decreases v@.len() - i,
    {
        assert(v@.skip(i as int).drop_first() == v@.skip(i + 1));
        assert(w@.skip(i as int).drop_first() == w@.skip(i + 1));
        i = i + 1;
    }
    if i == v.len() {
        true
    } else if i == w.len() {
        false
    } else {
        assert(v@.skip(i as int)[0] == v@[i as int]);
        assert(w@.skip(i as int)[0] == w@[i as int]);
        v[i] < w[i]
    }
}

/// Putting `x` where everything before it is not after it, and nothing behind it
/// is before it, keeps a sequence in order.
pub proof fn lemma_insert_sorted<A>(s: Seq<A>, i: int, x: A, le: spec_fn(A, A) -> bool)
    requires
        sorted_by(s, le),
        0 <= i <= s.len(),
        forall|j: int| 0 <= j < i ==> le(#[trigger] s[j], x),
        forall|j: int| i <= j < s.len() ==> le(x, #[trigger] s[j]),
    ensures
        sorted_by(s.insert(i, x), le),
        s.insert(i, x).to_multiset() == s.to_multiset().insert(x),
{
    broadcast use group_to_multiset_ensures;

    let t = s.insert(i, x);
    assert forall|a: int, b: int| 0 <= a < b < t.len() implies #[trigger] le(t[a], t[b]) by {
        let a0 = if a < i {
            a
        } else {
            a - 1
        };
        let b0 = if b < i {
            b
        } else {
            b - 1
        };
        if a != i && b != i {
            assert(le(s[a0], s[b0]));
        } else if a == i {
            assert(le(x, s[b0]));
        } else {
            assert(le(s[a0], x));
        }
    }
}

/// A sequence in order with the same elements is the sorted sequence.
pub proof fn lemma_sorted_is<A>(s: Seq<A>, t: Seq<A>, le: spec_fn(A, A) -> bool)
    requires
        total_ordering(le),
        sorted_by(t, le),
        t.to_multiset() == s.to_multiset(),
    ensures
        t == s.sort_by(le),
{
    s.lemma_sort_by_ensures(le);
    lemma_sorted_unique(t, s.sort_by(le), le);
}

/// Sorts strings.
pub fn sort_texts(v: &Vec<String>) -> (r: Vec<String>)
    ensures
        text::texts(r@) == text::texts(v@).sort_by(text_order()),
{
    let mut r: Vec<String> = Vec::new();
    let ghost le = text_order();
    let ghost all = text::texts(v@);
    proof {
        lemma_text_order();
        assert(all.take(0) == text::texts(r@));
    }
    for i in 0..v.len()
        invariant
            le == text_order(),
            total_ordering(le),
            all == text::texts(v@),
            sorted_by(text::texts(r@), le),
            text::texts(r@).to_multiset() == all.take(i as int).to_multiset(),
    {
        let x = &v[i];
        let mut p: usize = 0;
        while p < r.len() && not_after(r[p].as_str(), x.as_str())
            invariant
                p <= r@.len(),
                le == text_order(),
                forall|j: int| 0 <= j < p ==> le(#[trigger] text::texts(r@)[j], x@),
            decreases r@.len() - p,
        {
            p = p + 1;
        }
        let ghost before = text::texts(r@);
        proof {
            assert forall|j: int| p <= j < before.len() implies le(x@, #[trigger] before[j]) by {
                assert(!le(before[p as int], x@));
                assert(le(x@, before[p as int]));
                if j > p {
                    assert(le(before[p as int], before[j]));
                }
            }
            lemma_insert_sorted(before, p as int, x@, le);
        }
        r.insert(p, x.clone());
        assert(text::texts(r@) == before.insert(p as int, x@));
        proof {
            broadcast use group_to_multiset_ensures;

            assert(all.take(i + 1) == all.take(i as int).push(x@));
            assert(all.take(i as int).push(x@).to_multiset() == all.take(
                i as int,
            ).to_multiset().insert(x@));
        }
    }
    proof {
        assert(all.take(v@.len() as int) == all);
        lemma_sorted_is(all, text::texts(r@), le);
    }
    r
}

/// Two texts are in the order of the first character in which they differ; where one is
/// the beginning of the other, it comes first.
pub proof fn law_the_first_difference_decides(a: Seq<char>, b: Seq<char>, k: int)
    requires
        0 <= k <= a.len(),
        k <= b.len(),
        forall|j: int| 0 <= j < k ==> a[j] == b[j],
    ensures
        k == a.len() ==> text_le(a, b),
        k < a.len() && k == b.len() ==> !text_le(a, b),
        k < a.len() && k < b.len() && a[k] != b[k] ==> (text_le(a, b) <==> a[k] < b[k]),
    decreases k,
{
    if k > 0 {
        let (s, t) = (a.drop_first(), b.drop_first());
        assert forall|j: int| 0 <= j < k - 1 implies s[j] == t[j] by {
            assert(a[j + 1] == b[j + 1]);
        }
        law_the_first_difference_decides(s, t, k - 1);
        assert(a[0] == b[0]);
    }
}

}
