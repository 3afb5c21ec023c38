//! Pick the profile that describes the connected outputs.
//!
//! A profile matches only if its outputs and the connected heads form a perfect
//! matching: every entry assigned, every head consumed. Entries that pin a serial
//! score higher than entries that only name a model, so a desk-specific profile
//! wins over the generic one for the same monitor models.

use vstd::prelude::*;

use vstd::relations::*;
use vstd::seq_lib::*;

use crate::config;
use crate::config::{Config, Output, Profile};
use crate::order;
use crate::wl;
use crate::wl::{Head, HeadId, OutputSetting, SettingError};

verus! {

/// What an entry that pins a connector or a serial counts.
pub const SCORE_EXACT: u32 = 2;

/// What an entry that names only make or model counts.
pub const SCORE_MODEL: u32 = 1;

/// A profile that describes the connected outputs.
#[derive(Debug)]
pub struct Match<'a> {
    pub profile: &'a Profile,
    pub score: u32,
    /// Index into `heads` for each of the profile's outputs.
    pub assignment: Vec<usize>,
}

/// Whether a match key allows a value: an absent key allows every one.
pub open spec fn allows(key: Option<Seq<char>>, value: Seq<char>) -> bool {
    match key {
        Some(k) => k == value,
        None => true,
    }
}

/// Whether an entry has any match key.
pub open spec fn names_something(o: config::OutputView) -> bool {
    o.connector is Some || o.make is Some || o.model is Some || o.serial is Some
}

/// Whether an entry describes an output: it has a key, and every key it has is
/// the output's.
pub open spec fn applies(o: config::OutputView, id: wl::IdView) -> bool {
    &&& names_something(o)
    &&& allows(o.connector, id.connector)
    &&& allows(o.make, id.make)
    &&& allows(o.model, id.model)
    &&& allows(o.serial, id.serial)
}

/// What an entry counts.
pub open spec fn weight(o: config::OutputView) -> nat {
    if o.connector is Some || o.serial is Some {
        SCORE_EXACT as nat
    } else {
        SCORE_MODEL as nat
    }
}

/// What a profile counts: the sum over its entries.
pub open spec fn total_weight(outputs: Seq<config::OutputView>) -> nat
    decreases outputs.len(),
{
    if outputs.len() == 0 {
        0
    } else {
        total_weight(outputs.drop_last()) + weight(outputs.last())
    }
}

/// Whether `a` gives every entry a head of its own that the entry describes.
pub open spec fn is_assignment(
    outputs: Seq<config::OutputView>,
    ids: Seq<wl::IdView>,
    a: Seq<usize>,
) -> bool {
    &&& a.len() == outputs.len()
    &&& outputs.len() == ids.len()
    &&& a.no_duplicates()
    &&& forall|i: int| 0 <= i < a.len() ==> (#[trigger] a[i]) < ids.len()
    &&& forall|i: int| 0 <= i < a.len() ==> applies(outputs[i], ids[#[trigger] a[i] as int])
}

/// Whether `a` stands before `b`: where they first differ, `a` has the smaller
/// index.
pub open spec fn before(a: Seq<usize>, b: Seq<usize>) -> bool {
    exists|k: int| #[trigger] differ_at(a, b, k)
}

/// Whether `a` and `b` agree up to `k`, where `a` has the smaller index.
pub open spec fn differ_at(a: Seq<usize>, b: Seq<usize>, k: int) -> bool {
    &&& 0 <= k < a.len()
    &&& k < b.len()
    &&& a[k] < b[k]
    &&& forall|j: int| 0 <= j < k ==> a[j] == b[j]
}

/// Whether a profile describes the connected outputs.
pub open spec fn matches_heads(p: config::ProfileView, ids: Seq<wl::IdView>) -> bool {
    ids.len() > 0 && exists|a: Seq<usize>| is_assignment(p.outputs, ids, a)
}

/// Whether `a` is the first of all assignments.
pub open spec fn is_first_assignment(
    outputs: Seq<config::OutputView>,
    ids: Seq<wl::IdView>,
    a: Seq<usize>,
) -> bool {
    &&& is_assignment(outputs, ids, a)
    &&& forall|b: Seq<usize>| #[trigger] is_assignment(outputs, ids, b) && b != a ==> before(a, b)
}

/// How well one entry describes one head. `None` means it does not apply at all.
pub fn score(output: &Output, head: &Head) -> (r: Option<u32>)
    ensures
        match r {
            Some(n) => applies(output@, head@.id) && n == weight(output@),
            None => !applies(output@, head@.id),
        },
{
    let mut exact = false;
    if let Some(connector) = &output.connector {
        if *connector != head.id.connector {
            return None;
        }
        exact = true;
    }
    if let Some(make) = &output.make {
        if *make != head.id.make {
            return None;
        }
    }
    if let Some(model) = &output.model {
        if *model != head.id.model {
            return None;
        }
    }
    if let Some(serial) = &output.serial {
        if *serial != head.id.serial {
            return None;
        }
        exact = true;
    }
    if output.connector.is_none() && output.make.is_none() && output.model.is_none()
        && output.serial.is_none() {
        return None;
    }
    Some(
        if exact {
            SCORE_EXACT
        } else {
            SCORE_MODEL
        },
    )
}

/// Whether an entry describes a head.
pub fn describes(output: &Output, head: &Head) -> (r: bool)
    ensures
        r == applies(output@, head@.id),
{
    score(output, head).is_some()
}

/// The scores of every entry for every head.
pub open spec fn score_table(
    outputs: Seq<config::OutputView>,
    ids: Seq<wl::IdView>,
    scores: Seq<Vec<Option<u32>>>,
) -> bool {
    &&& scores.len() == outputs.len()
    &&& forall|i: int| 0 <= i < scores.len() ==> (#[trigger] scores[i])@.len() == ids.len()
    &&& forall|i: int, j: int|
        0 <= i < scores.len() && 0 <= j < ids.len() ==> match #[trigger] scores[i]@[j] {
            Some(n) => applies(outputs[i], ids[j]) && n == weight(outputs[i]),
            None => !applies(outputs[i], ids[j]),
        }
}

/// Whether `b` chooses for each of the entries from `k` to before `m` a head that
/// the entry has a score for and that is not used, each another one.
pub open spec fn chooses(
    scores: Seq<Vec<Option<u32>>>,
    used: Seq<bool>,
    b: Seq<usize>,
    k: int,
    m: int,
) -> bool {
    &&& m <= b.len()
    &&& forall|i: int| k <= i < m ==> (#[trigger] b[i]) < scores[i]@.len()
    &&& forall|i: int| k <= i < m ==> scores[i]@[#[trigger] b[i] as int] is Some
    &&& forall|i: int| k <= i < m ==> !used[#[trigger] b[i] as int]
    &&& forall|i: int, j: int| k <= i < j < m ==> b[i] != b[j]
}

/// The sum of the scores of a choice for the entries from `k` to before `m`.
pub open spec fn sum_of(scores: Seq<Vec<Option<u32>>>, b: Seq<usize>, k: int, m: int) -> nat
    decreases m - k,
{
    if m <= k {
        0
    } else {
        sum_of(scores, b, k, m - 1) + scores[m - 1]@[b[m - 1] as int]->0 as nat
    }
}

/// Whether `b` starts with `a` and chooses for each of the `n` entries from there on.
pub open spec fn completes(
    scores: Seq<Vec<Option<u32>>>,
    used: Seq<bool>,
    a: Seq<usize>,
    n: nat,
    b: Seq<usize>,
) -> bool {
    &&& b.len() == n
    &&& a.len() <= n
    &&& b.take(a.len() as int) == a
    &&& chooses(scores, used, b, a.len() as int, n as int)
}

/// Whether `new` is the best of `old` and of the full choices `b` that start with
/// `a`, which counts `total`, and then have a head below `h`: the highest sum, the
/// first of those, and `old` rather than an equal sum.
pub open spec fn is_best_of(
    scores: Seq<Vec<Option<u32>>>,
    used: Seq<bool>,
    a: Seq<usize>,
    n: nat,
    total: int,
    h: int,
    old: Option<(u32, Vec<usize>)>,
    new: Option<(u32, Vec<usize>)>,
) -> bool {
    let k = a.len() as int;
    match new {
        None => old is None && forall|b: Seq<usize>| #[trigger]
            completes(scores, used, a, n, b) ==> !below(a, b, h),
        Some(best) => {
            ||| {
                &&& old == new
                &&& forall|b: Seq<usize>| #[trigger]
                    completes(scores, used, a, n, b) && below(a, b, h) ==> total + sum_of(
                        scores,
                        b,
                        k,
                        n as int,
                    ) <= best.0
            }
            ||| {
                &&& completes(scores, used, a, n, best.1@) && below(a, best.1@, h)
                &&& best.0 == total + sum_of(scores, best.1@, k, n as int)
                &&& old is Some ==> (old->0).0 < best.0
                &&& forall|b: Seq<usize>| #[trigger]
                    completes(scores, used, a, n, b) && below(a, b, h) ==> total + sum_of(
                        scores,
                        b,
                        k,
                        n as int,
                    ) < best.0 || (total + sum_of(scores, b, k, n as int) == best.0 && (b == best.1@
                        || before(best.1@, b)))
            }
        },
    }
}

/// Whether the first head of `b` behind `a` is below `h`.
pub open spec fn below(a: Seq<usize>, b: Seq<usize>, h: int) -> bool {
    a.len() < b.len() ==> b[a.len() as int] < h
}

/// The sum with the first score in front.
proof fn lemma_sum_front(scores: Seq<Vec<Option<u32>>>, b: Seq<usize>, k: int, m: int)
    requires
        k < m,
    ensures
        sum_of(scores, b, k, m) == scores[k]@[b[k] as int]->0 as nat + sum_of(
            scores,
            b,
            k + 1,
            m,
        ),
    decreases m - k,
{
    if k + 1 < m {
        lemma_sum_front(scores, b, k, m - 1);
    } else {
        assert(sum_of(scores, b, k, k) == 0);
    }
}

/// The sum is of the choice for those entries alone.
proof fn lemma_sum_same(
    scores: Seq<Vec<Option<u32>>>,
    b: Seq<usize>,
    c: Seq<usize>,
    k: int,
    m: int,
)
    requires
        forall|i: int| k <= i < m ==> b[i] == c[i],
    ensures
        sum_of(scores, b, k, m) == sum_of(scores, c, k, m),
    decreases m - k,
{
    if k < m {
        lemma_sum_same(scores, b, c, k, m - 1);
    }
}

/// A full choice behind `a` has a head below `h`, or it is one behind `a` and `h`.
proof fn lemma_below_next(
    scores: Seq<Vec<Option<u32>>>,
    used: Seq<bool>,
    a: Seq<usize>,
    n: nat,
    b: Seq<usize>,
    h: usize,
)
    requires
        a.len() < n,
        h < used.len(),
        forall|i: int| a.len() <= i < n ==> (#[trigger] scores[i])@.len() <= used.len(),
        completes(scores, used, a, n, b),
        below(a, b, h + 1),
    ensures
        below(a, b, h as int) || completes(scores, used.update(h as int, true), a.push(h), n, b),
{
    let k = a.len() as int;
    if b[k] == h {
        assert(b.take(k + 1) =~= a.push(h)) by {
            assert forall|j: int| 0 <= j < k implies b[j] == a[j] by {
                assert(b.take(k)[j] == a[j]);
            }
        }
        let u = used.update(h as int, true);
        assert forall|i: int| k + 1 <= i < n implies !u[#[trigger] b[i] as int] by {
            assert(b[k] != b[i]);
            assert(b[i] < scores[i]@.len());
            assert(!used[b[i] as int]);
        }
    }
}

/// A full choice behind `a` and `h` is one behind `a`.
proof fn lemma_completes_shorter(
    scores: Seq<Vec<Option<u32>>>,
    used: Seq<bool>,
    a: Seq<usize>,
    n: nat,
    b: Seq<usize>,
    h: usize,
)
    requires
        completes(scores, used.update(h as int, true), a.push(h), n, b),
        h < used.len(),
        !used[h as int],
        h < scores[a.len() as int]@.len(),
        scores[a.len() as int]@[h as int] is Some,
        forall|i: int| a.len() <= i < n ==> (#[trigger] scores[i])@.len() <= used.len(),
    ensures
        completes(scores, used, a, n, b),
        b[a.len() as int] == h,
        below(a, b, h + 1),
        below(a.push(h), b, used.len() as int),
{
    let k = a.len() as int;
    let u = used.update(h as int, true);
    assert(b.take(k) =~= a) by {
        assert forall|j: int| 0 <= j < k implies b[j] == a[j] by {
            assert(b.take(k + 1)[j] == a.push(h)[j]);
        }
    }
    assert(b.take(k + 1)[k] == a.push(h)[k]);
    assert forall|i: int| k < i < n implies !used[#[trigger] b[i] as int] && b[i] != h by {
        assert(b[i] < scores[i]@.len());
        assert(!u[b[i] as int]);
    }
    assert forall|i: int, j: int| k <= i < j < n implies b[i] != b[j] by {
        if i > k {
            assert(b[i] != b[j]);
        }
    }
    if k + 1 < b.len() {
        assert(b[k + 1] < scores[k + 1]@.len());
    }
}

/// A head that no full choice has behind `a` changes nothing.
proof fn lemma_skip(
    scores: Seq<Vec<Option<u32>>>,
    used: Seq<bool>,
    a: Seq<usize>,
    n: nat,
    total: int,
    h: usize,
    old: Option<(u32, Vec<usize>)>,
    new: Option<(u32, Vec<usize>)>,
)
    requires
        a.len() < n,
        is_best_of(scores, used, a, n, total, h as int, old, new),
        scores[a.len() as int]@[h as int] is None || used[h as int],
    ensures
        is_best_of(scores, used, a, n, total, h + 1, old, new),
{
    assert forall|b: Seq<usize>| #[trigger]
        completes(scores, used, a, n, b) && below(a, b, h + 1) implies below(a, b, h as int) by {
        let k = a.len() as int;
        assert(scores[k]@[b[k] as int] is Some);
        assert(!used[b[k] as int]);
    }
}

/// The best with a head below `h`, and then the best with `h`.
proof fn lemma_step(
    scores: Seq<Vec<Option<u32>>>,
    used: Seq<bool>,
    a: Seq<usize>,
    n: nat,
    total: int,
    h: usize,
    old: Option<(u32, Vec<usize>)>,
    mid: Option<(u32, Vec<usize>)>,
    new: Option<(u32, Vec<usize>)>,
)
    requires
        a.len() < n,
        h < used.len(),
        !used[h as int],
        h < scores[a.len() as int]@.len(),
        scores[a.len() as int]@[h as int] is Some,
        forall|i: int| a.len() <= i < n ==> (#[trigger] scores[i])@.len() <= used.len(),
        is_best_of(scores, used, a, n, total, h as int, old, mid),
        is_best_of(
            scores,
            used.update(h as int, true),
            a.push(h),
            n,
            total + scores[a.len() as int]@[h as int]->0,
            used.len() as int,
            mid,
            new,
        ),
    ensures
        is_best_of(scores, used, a, n, total, h + 1, old, new),
{
    let k = a.len() as int;
    let end = n as int;
    let u = used.update(h as int, true);
    let more = scores[k]@[h as int]->0 as int;
    assert forall|b: Seq<usize>| #[trigger]
        completes(scores, used, a, n, b) && below(a, b, h + 1) implies below(a, b, h as int)
        || completes(scores, u, a.push(h), n, b) by {
        lemma_below_next(scores, used, a, n, b, h);
    }
    assert forall|b: Seq<usize>| #[trigger] completes(scores, u, a.push(h), n, b) implies completes(
        scores,
        used,
        a,
        n,
        b,
    ) && b[k] == h && below(a, b, h + 1) && below(a.push(h), b, used.len() as int) && sum_of(
        scores,
        b,
        k,
        end,
    ) == more + sum_of(scores, b, k + 1, end) by {
        lemma_completes_shorter(scores, used, a, n, b, h);
        lemma_sum_front(scores, b, k, end);
    }
    if new is Some && mid == new && !(old == new) {
        let m = (new->0).1@;
        assert forall|b: Seq<usize>| #[trigger]
            completes(scores, used, a, n, b) && below(a, b, h + 1) implies total + sum_of(
            scores,
            b,
            k,
            end,
        ) < (new->0).0 || (total + sum_of(scores, b, k, end) == (new->0).0 && (b == m || before(
            m,
            b,
        ))) by {
            if !below(a, b, h as int) {
                assert(completes(scores, u, a.push(h), n, b));
                if completes(scores, used, a, n, m) && below(a, m, h as int) {
                    assert(differ_at(m, b, k)) by {
                        assert forall|j: int| 0 <= j < k implies m[j] == b[j] by {
                            assert(m.take(k)[j] == b.take(k)[j]);
                        }
                    }
                }
            }
        }
    }
}

/// A copy of a list of indices.
pub fn copy_indices(v: &Vec<usize>) -> (r: Vec<usize>)
    ensures
        r@ == v@,
{
    let mut r: Vec<usize> = Vec::new();
    for i in 0..v.len()
        invariant
            r@ == v@.take(i as int),
    {
        r.push(v[i]);
        assert(v@.take(i + 1) == v@.take(i as int).push(v@[i as int]));
    }
    assert(v@.take(v@.len() as int) == v@);
    r
}

/// Tries every head that is not used for the entry `index` and those behind it, and
/// keeps the best full choice found; `total` is what the entries before it count.
pub fn search(
    index: usize,
    total: u32,
    scores: &Vec<Vec<Option<u32>>>,
    used: &mut Vec<bool>,
    current: &mut Vec<usize>,
    best: &mut Option<(u32, Vec<usize>)>,
)
    requires
        index <= old(current)@.len(),
        old(current)@.len() <= scores@.len(),
        forall|i: int|
            index <= i < old(current)@.len() ==> (#[trigger] scores@[i])@.len() <= old(
                used,
            )@.len(),
        forall|b: Seq<usize>, m: int| #[trigger]
            chooses(scores@, old(used)@, b, index as int, m) && m <= old(current)@.len() ==> total
                + sum_of(scores@, b, index as int, m) <= u32::MAX,
    ensures
        final(used)@ == old(used)@,
        final(current)@.len() == old(current)@.len(),
        final(current)@.take(index as int) == old(current)@.take(index as int),
        *old(best) matches Some(b) ==> *final(best) matches Some(c) && b.0 <= c.0,
        is_best_of(
            scores@,
            old(used)@,
            old(current)@.take(index as int),
            old(current)@.len(),
            total as int,
            old(used)@.len() as int,
            *old(best),
            *final(best),
        ),
    decreases old(current)@.len() - index,
{
    let ghost n = current@.len();
    let ghost marks = used@;
    let ghost a = current@.take(index as int);
    let len = current.len();
    if index == len {
        assert(a == current@);
        assert forall|b: Seq<usize>| #[trigger] completes(scores@, marks, a, n, b) implies b
            == a by {
            assert(b.take(b.len() as int) == b);
        }
        assert(completes(scores@, marks, a, n, a)) by {
            assert(a.take(a.len() as int) == a);
        }
        assert(sum_of(scores@, a, index as int, n as int) == 0);
        let better = match best {
            Some(b) => total > b.0,
            None => true,
        };
        if better {
            *best = Some((total, copy_indices(current)));
        }
        return ;
    }
    let count = scores[index].len();
    for head in 0..count
        invariant
            len == n,
            n == current@.len(),
            n == old(current)@.len(),
            index < n,
            n <= scores@.len(),
            count == scores@[index as int]@.len(),
            marks == old(used)@,
            used@ == marks,
            forall|i: int| index <= i < n ==> (#[trigger] scores@[i])@.len() <= marks.len(),
            a == current@.take(index as int),
            a.len() == index,
            forall|b: Seq<usize>, m: int| #[trigger]
                chooses(scores@, marks, b, index as int, m) && m <= n ==> total + sum_of(
                    scores@,
                    b,
                    index as int,
                    m,
                ) <= u32::MAX,
            is_best_of(scores@, marks, a, n, total as int, head as int, *old(best), *best),
    {
        assert(scores@[index as int]@.len() <= marks.len());
        let cell = scores[index][head];
        let ghost mid = *best;
        match cell {
            Some(score) if !used[head] => {
                let ghost next = a.push(head);
                let ghost u = marks.update(head as int, true);
                proof {
                    lemma_room_for_sum(
                        scores@,
                        marks,
                        index as int,
                        n,
                        total as int,
                        head,
                        current@,
                    );
                }
                used.set(head, true);
                current.set(index, head);
                assert(current@.take(index + 1) == next);
                search(index + 1, total + score, scores, used, current, best);
                used.set(head, false);
                proof {
                    assert(used@ =~= marks);
                    assert(current@.take(index as int) =~= a) by {
                        assert forall|j: int| 0 <= j < index implies current@[j] == a[j] by {
                            assert(current@.take(index + 1)[j] == next[j]);
                        }
                    }
                    lemma_step(
                        scores@,
                        marks,
                        a,
                        n,
                        total as int,
                        head,
                        *old(best),
                        mid,
                        *best,
                    );
                }
            },
            _ => {
                proof {
                    lemma_skip(scores@, marks, a, n, total as int, head, *old(best), *best);
                }
            },
        }
    }
    assert forall|b: Seq<usize>| #[trigger] completes(scores@, marks, a, n, b) implies below(
        a,
        b,
        count as int,
    ) && below(a, b, marks.len() as int) by {
        assert(b[index as int] < scores@[index as int]@.len());
    }
}

/// Where no sum behind an entry is too large, none behind the next is, whichever
/// head the entry gets.
proof fn lemma_room_for_sum(
    scores: Seq<Vec<Option<u32>>>,
    used: Seq<bool>,
    k: int,
    n: nat,
    total: int,
    h: usize,
    any: Seq<usize>,
)
    requires
        0 <= k < n,
        any.len() == n,
        h < used.len(),
        !used[h as int],
        h < scores[k]@.len(),
        scores[k]@[h as int] is Some,
        forall|i: int| k <= i < n ==> (#[trigger] scores[i])@.len() <= used.len(),
        forall|b: Seq<usize>, m: int| #[trigger]
            chooses(scores, used, b, k, m) && m <= n ==> total + sum_of(scores, b, k, m)
                <= u32::MAX,
    ensures
        total + scores[k]@[h as int]->0 <= u32::MAX,
        forall|b: Seq<usize>, m: int| #[trigger]
            chooses(scores, used.update(h as int, true), b, k + 1, m) && m <= n ==> total
                + scores[k]@[h as int]->0 + sum_of(scores, b, k + 1, m) <= u32::MAX,
{
    let u = used.update(h as int, true);
    let one = any.update(k, h);
    assert(chooses(scores, used, one, k, k + 1));
    assert(sum_of(scores, one, k, k + 1) == scores[k]@[h as int]->0) by {
        assert(sum_of(scores, one, k, k) == 0);
    }
    assert forall|b: Seq<usize>, m: int| #[trigger]
        chooses(scores, u, b, k + 1, m) && m <= n implies total + scores[k]@[h as int]->0 + sum_of(
        scores,
        b,
        k + 1,
        m,
    ) <= u32::MAX by {
        if m > k + 1 {
            let c = b.update(k, h);
            assert forall|i: int| k <= i < m implies (#[trigger] c[i]) < scores[i]@.len()
                && scores[i]@[c[i] as int] is Some && !used[c[i] as int] by {
                if i > k {
                    assert(c[i] == b[i]);
                    assert(b[i] < scores[i]@.len());
                    assert(!u[b[i] as int]);
                }
            }
            assert forall|i: int, j: int| k <= i < j < m implies c[i] != c[j] by {
                assert(c[j] == b[j]);
                assert(!u[b[j] as int]);
                assert(b[j] < scores[j]@.len());
                if i > k {
                    assert(c[i] == b[i]);
                }
            }
            assert(chooses(scores, used, c, k, m));
            lemma_sum_front(scores, c, k, m);
            lemma_sum_same(scores, b, c, k + 1, m);
        } else {
            assert(sum_of(scores, b, k + 1, m) == 0);
        }
    }
}

/// The sum of the scores of a choice is what the entries count, whichever heads are
/// chosen.
proof fn lemma_sum_is_weight(
    outputs: Seq<config::OutputView>,
    ids: Seq<wl::IdView>,
    scores: Seq<Vec<Option<u32>>>,
    used: Seq<bool>,
    b: Seq<usize>,
    m: int,
)
    requires
        score_table(outputs, ids, scores),
        chooses(scores, used, b, 0, m),
        m <= outputs.len(),
    ensures
        m >= 0 ==> sum_of(scores, b, 0, m) == total_weight(outputs.take(m)),
        m >= 0 ==> sum_of(scores, b, 0, m) <= 2 * m,
        m < 0 ==> sum_of(scores, b, 0, m) == 0,
    decreases m,
{
    if m > 0 {
        let i = m - 1;
        assert(chooses(scores, used, b, 0, i));
        lemma_sum_is_weight(outputs, ids, scores, used, b, i);
        assert(outputs.take(i + 1).drop_last() == outputs.take(i));
        assert(outputs.take(i + 1).last() == outputs[i]);
        assert(b[i] < scores[i]@.len());
        assert(scores[i]@[b[i] as int] is Some);
    }
}

/// A full choice is an assignment.
proof fn lemma_choice_is_assignment(
    outputs: Seq<config::OutputView>,
    ids: Seq<wl::IdView>,
    scores: Seq<Vec<Option<u32>>>,
    used: Seq<bool>,
    b: Seq<usize>,
)
    requires
        score_table(outputs, ids, scores),
        outputs.len() == ids.len(),
        used.len() == ids.len(),
        forall|j: int| 0 <= j < used.len() ==> !(#[trigger] used[j]),
    ensures
        completes(scores, used, Seq::empty(), outputs.len(), b) <==> is_assignment(
            outputs,
            ids,
            b,
        ),
{
    if is_assignment(outputs, ids, b) {
        assert(b.take(0) == Seq::<usize>::empty());
        assert forall|i: int| 0 <= i < b.len() implies (#[trigger] b[i]) < scores[i]@.len()
            && scores[i]@[b[i] as int] is Some && !used[b[i] as int] by {
            assert(scores[i]@.len() == ids.len());
            assert(applies(outputs[i], ids[b[i] as int]));
        }
    }
    if completes(scores, used, Seq::empty(), outputs.len(), b) {
        assert forall|i: int| 0 <= i < b.len() implies (#[trigger] b[i]) < ids.len() && applies(
            outputs[i],
            ids[b[i] as int],
        ) by {
            assert(scores[i]@.len() == ids.len());
            assert(scores[i]@[b[i] as int] is Some);
        }
    }
}

/// The scores of one entry for every head.
fn score_row(output: &Output, heads: &Vec<Head>) -> (r: Vec<Option<u32>>)
    ensures
        r@.len() == heads@.len(),
        forall|j: int|
            0 <= j < heads@.len() ==> match #[trigger] r@[j] {
                Some(n) => applies(output@, heads@[j]@.id) && n == weight(output@),
                None => !applies(output@, heads@[j]@.id),
            },
{
    let mut row: Vec<Option<u32>> = Vec::new();
    for j in 0..heads.len()
        invariant
            row@.len() == j,
            forall|k: int|
                0 <= k < j ==> match #[trigger] row@[k] {
                    Some(n) => applies(output@, heads@[k]@.id) && n == weight(output@),
                    None => !applies(output@, heads@[k]@.id),
                },
    {
        row.push(score(output, &heads[j]));
    }
    row
}

/// The first assignment of heads to the entries of a profile, with what the
/// profile counts.
fn assign(profile: &Profile, heads: &Vec<Head>) -> (r: Option<(u32, Vec<usize>)>)
    requires
        heads@.len() <= 0x7fff_ffff,
    ensures
        match r {
            Some(m) => {
                &&& heads@.len() > 0
                &&& is_first_assignment(profile@.outputs, wl::ids(wl::head_views(heads@)), m.1@)
                &&& m.0 == total_weight(profile@.outputs)
            },
            None => !matches_heads(profile@, wl::ids(wl::head_views(heads@))),
        },
{
    let ghost outputs = profile@.outputs;
    let ghost ids = wl::ids(wl::head_views(heads@));
    if heads.len() == 0 || profile.outputs.len() != heads.len() {
        return None;
    }
    let mut scores: Vec<Vec<Option<u32>>> = Vec::new();
    for i in 0..profile.outputs.len()
        invariant
            outputs == profile@.outputs,
            ids == wl::ids(wl::head_views(heads@)),
            profile.outputs@.len() == heads@.len(),
            scores@.len() == i,
            forall|k: int| 0 <= k < i ==> (#[trigger] scores@[k])@.len() == ids.len(),
            forall|k: int, j: int|
                0 <= k < i && 0 <= j < ids.len() ==> match #[trigger] scores@[k]@[j] {
                    Some(n) => applies(outputs[k], ids[j]) && n == weight(outputs[k]),
                    None => !applies(outputs[k], ids[j]),
                },
    {
        let row = score_row(&profile.outputs[i], heads);
        assert forall|j: int| 0 <= j < ids.len() implies match #[trigger] row@[j] {
            Some(n) => applies(outputs[i as int], ids[j]) && n == weight(outputs[i as int]),
            None => !applies(outputs[i as int], ids[j]),
        } by {
            assert(ids[j] == heads@[j]@.id);
            assert(outputs[i as int] == profile.outputs@[i as int]@);
        }
        scores.push(row);
    }
    let mut used: Vec<bool> = Vec::new();
    let mut current: Vec<usize> = Vec::new();
    for i in 0..heads.len()
        invariant
            used@.len() == i,
            current@.len() == i,
            forall|j: int| 0 <= j < i ==> !(#[trigger] used@[j]),
    {
        used.push(false);
        current.push(0);
    }
    let mut best: Option<(u32, Vec<usize>)> = None;
    let ghost none = Seq::<usize>::empty();
    proof {
        assert(score_table(outputs, ids, scores@));
        assert(current@.take(0) == none);
        assert forall|b: Seq<usize>, m: int| #[trigger]
            chooses(scores@, used@, b, 0, m) && m <= outputs.len() implies 0 + sum_of(
            scores@,
            b,
            0,
            m,
        ) <= u32::MAX by {
            lemma_sum_is_weight(outputs, ids, scores@, used@, b, m);
        }
    }
    let ghost marks = used@;
    search(0, 0, &scores, &mut used, &mut current, &mut best);
    proof {
        let n = outputs.len();
        assert forall|b: Seq<usize>| #[trigger] is_assignment(outputs, ids, b) implies completes(
            scores@,
            marks,
            none,
            n,
            b,
        ) && below(none, b, ids.len() as int) && sum_of(scores@, b, 0, n as int) == total_weight(
            outputs,
        ) by {
            lemma_choice_is_assignment(outputs, ids, scores@, marks, b);
            lemma_sum_is_weight(outputs, ids, scores@, marks, b, n as int);
            assert(outputs.take(n as int) == outputs);
            assert(b[0] < ids.len());
        }
        if best is Some {
            lemma_choice_is_assignment(outputs, ids, scores@, marks, (best->0).1@);
        }
        assert forall|b: Seq<usize>| #[trigger] is_assignment(outputs, ids, b) && best
            is Some implies b == (best->0).1@ || before((best->0).1@, b) by {
            assert(completes(scores@, marks, none, n, b));
        }
    }
    best
}

/// Whether one profile describes exactly these outputs, and how specifically.
pub fn match_profile<'a>(profile: &'a Profile, heads: &Vec<Head>) -> (r: Option<Match<'a>>)
    requires
        heads@.len() <= 0x7fff_ffff,
    ensures
        match r {
            Some(m) => {
                &&& matches_heads(profile@, wl::ids(wl::head_views(heads@)))
                &&& m.profile == profile
                &&& m.score == total_weight(profile@.outputs)
                &&& is_first_assignment(
                    profile@.outputs,
                    wl::ids(wl::head_views(heads@)),
                    m.assignment@,
                )
            },
            None => !matches_heads(profile@, wl::ids(wl::head_views(heads@))),
        },
{
    match assign(profile, heads) {
        Some((score, assignment)) => Some(Match { profile, score, assignment }),
        None => None,
    }
}

/// Whether the profile at `i` is the best match: it describes the outputs, none
/// that does counts more, and none before it counts as much.
pub open spec fn is_best(ps: Seq<config::ProfileView>, ids: Seq<wl::IdView>, i: int) -> bool {
    &&& 0 <= i < ps.len()
    &&& matches_heads(ps[i], ids)
    &&& forall|j: int|
        0 <= j < ps.len() && matches_heads(#[trigger] ps[j], ids) ==> total_weight(ps[j].outputs)
            <= total_weight(ps[i].outputs)
    &&& forall|j: int|
        0 <= j < i && matches_heads(#[trigger] ps[j], ids) ==> total_weight(ps[j].outputs)
            < total_weight(ps[i].outputs)
}

/// There is a best match exactly where some profile describes the outputs, and never
/// more than one.
pub proof fn law_there_is_one_best_match(ps: Seq<config::ProfileView>, ids: Seq<wl::IdView>)
    ensures
        (exists|i: int| #[trigger] is_best(ps, ids, i)) <==> (exists|i: int|
            0 <= i < ps.len() && matches_heads(#[trigger] ps[i], ids)),
        forall|i: int, j: int| #[trigger]
            is_best(ps, ids, i) && #[trigger] is_best(ps, ids, j) ==> i == j,
    decreases ps.len(),
{
    if ps.len() > 0 {
        let init = ps.drop_last();
        let n = ps.len() - 1;
        law_there_is_one_best_match(init, ids);
        assert forall|j: int| 0 <= j < n implies #[trigger] init[j] == ps[j] by {}
        if exists|i: int| #[trigger] is_best(init, ids, i) {
            let i = choose|i: int| #[trigger] is_best(init, ids, i);
            if matches_heads(ps[n], ids) && total_weight(ps[n].outputs) > total_weight(
                ps[i].outputs,
            ) {
                assert forall|j: int| 0 <= j < n && matches_heads(#[trigger] ps[j], ids) implies total_weight(
                    ps[j].outputs,
                ) < total_weight(ps[n].outputs) by {
                    assert(matches_heads(init[j], ids));
                }
                assert(is_best(ps, ids, n));
            } else {
                assert forall|j: int| 0 <= j < n && matches_heads(#[trigger] ps[j], ids) implies total_weight(
                    ps[j].outputs,
                ) <= total_weight(ps[i].outputs) && (j < i ==> total_weight(ps[j].outputs)
                    < total_weight(ps[i].outputs)) by {
                    assert(matches_heads(init[j], ids));
                }
                assert(is_best(ps, ids, i));
            }
        } else {
            assert forall|j: int| 0 <= j < n implies !matches_heads(#[trigger] ps[j], ids) by {
                assert(!matches_heads(init[j], ids));
            }
            if matches_heads(ps[n], ids) {
                assert(is_best(ps, ids, n));
            }
        }
    }
}

/// Highest-scoring profile; ties go to the one earlier in the file.
pub fn best_match<'a>(config: &'a Config, heads: &Vec<Head>) -> (r: Option<Match<'a>>)
    requires
        heads@.len() <= 0x7fff_ffff,
    ensures
        match r {
            Some(m) => {
                &&& exists|i: int|
                    #[trigger] is_best(config@, wl::ids(wl::head_views(heads@)), i) && *m.profile
                        == config.profiles@[i]
                &&& m.score == total_weight(m.profile@.outputs)
                &&& is_first_assignment(
                    m.profile@.outputs,
                    wl::ids(wl::head_views(heads@)),
                    m.assignment@,
                )
            },
            None => forall|i: int|
                0 <= i < config@.len() ==> !matches_heads(
                    #[trigger] config@[i],
                    wl::ids(wl::head_views(heads@)),
                ),
        },
{
    let ghost ids = wl::ids(wl::head_views(heads@));
    let mut best: Option<Match<'a>> = None;
    let ghost mut at: int = 0;
    for i in 0..config.profiles.len()
        invariant
            heads@.len() <= 0x7fff_ffff,
            ids == wl::ids(wl::head_views(heads@)),
            match best {
                Some(m) => {
                    &&& 0 <= at < i
                    &&& is_best(config@.take(i as int), ids, at)
                    &&& *m.profile == config.profiles@[at]
                    &&& m.score == total_weight(m.profile@.outputs)
                    &&& is_first_assignment(m.profile@.outputs, ids, m.assignment@)
                },
                None => forall|j: int| 0 <= j < i ==> !matches_heads(#[trigger] config@[j], ids),
            },
    {
        let ghost before = config@.take(i as int);
        let ghost after = config@.take(i + 1);
        assert(config@[i as int] == config.profiles@[i as int]@);
        assert forall|j: int| 0 <= j < i implies before[j] == config@[j] && after[j] == config@[j] by {}
        assert(best is Some ==> before[at] == config.profiles@[at]@);
        if let Some(m) = match_profile(&config.profiles[i], heads) {
            let better = match &best {
                Some(b) => m.score > b.score,
                None => true,
            };
            if better {
                proof {
                    at = i as int;
                    assert forall|j: int|
                        0 <= j < i && matches_heads(#[trigger] after[j], ids) implies total_weight(
                        after[j].outputs,
                    ) < total_weight(after[i as int].outputs) by {
                        assert(before[j] == after[j]);
                        assert(config@[j] == after[j]);
                    }
                }
                best = Some(m);
                assert(is_best(after, ids, at));
            } else {
                assert(is_best(after, ids, at)) by {
                    assert forall|j: int|
                        0 <= j < after.len() && matches_heads(
                            #[trigger] after[j],
                            ids,
                        ) implies total_weight(after[j].outputs) <= total_weight(
                        after[at].outputs,
                    ) by {
                        if j < i {
                            assert(before[j] == after[j]);
                        }
                    }
                    assert forall|j: int|
                        0 <= j < at && matches_heads(
                            #[trigger] after[j],
                            ids,
                        ) implies total_weight(after[j].outputs) < total_weight(
                        after[at].outputs,
                    ) by {
                        assert(before[j] == after[j]);
                    }
                }
            }
        } else if best.is_some() {
            assert(is_best(after, ids, at)) by {
                assert forall|j: int|
                    0 <= j < after.len() && matches_heads(
                        #[trigger] after[j],
                        ids,
                    ) implies total_weight(after[j].outputs) <= total_weight(
                    after[at].outputs,
                ) by {
                    if j < i {
                        assert(before[j] == after[j]);
                    }
                }
                assert forall|j: int|
                    0 <= j < at && matches_heads(#[trigger] after[j], ids) implies total_weight(
                    after[j].outputs,
                ) < total_weight(after[at].outputs) by {
                    assert(before[j] == after[j]);
                }
            }
        }
    }
    assert(config@.take(config@.len() as int) == config@);
    best
}


/// How many entries and heads pair up.
pub open spec fn pairs(outputs: nat, assigned: nat) -> nat {
    if outputs < assigned {
        outputs
    } else {
        assigned
    }
}

/// What the entry at `i` asks for on the head assigned to it.
pub open spec fn setting_at(
    outputs: Seq<config::OutputView>,
    ids: Seq<wl::IdView>,
    a: Seq<usize>,
    i: int,
) -> Result<wl::SettingView, wl::SettingErrorView> {
    config::setting_of(outputs[i], ids[a[i] as int])
}

/// Whether the settings are those of the profile under the assignment.
pub open spec fn are_settings(
    outputs: Seq<config::OutputView>,
    ids: Seq<wl::IdView>,
    a: Seq<usize>,
    settings: Seq<wl::SettingView>,
) -> bool {
    &&& settings.len() == outputs.len()
    &&& forall|k: int|
        0 <= k < settings.len() ==> #[trigger] setting_at(outputs, ids, a, k) == Ok::<
            wl::SettingView,
            wl::SettingErrorView,
        >(settings[k])
}

/// Whether the error is the first in the profile under the assignment.
pub open spec fn is_first_error(
    outputs: Seq<config::OutputView>,
    ids: Seq<wl::IdView>,
    a: Seq<usize>,
    error: wl::SettingErrorView,
) -> bool {
    exists|k: int|
        0 <= k < outputs.len() && #[trigger] setting_at(outputs, ids, a, k) == Err::<
            wl::SettingView,
            wl::SettingErrorView,
        >(error) && forall|j: int|
            0 <= j < k ==> (#[trigger] setting_at(outputs, ids, a, j)) is Ok
}

impl<'a> Match<'a> {
    /// What the profile asks for on the heads assigned to it, or the first thing
    /// in it that cannot be read.
    pub fn settings(&self, heads: &Vec<Head>) -> (r: Result<Vec<OutputSetting>, SettingError>)
        requires
            forall|i: int|
                0 <= i < pairs(self.profile.outputs@.len(), self.assignment@.len())
                    ==> #[trigger] self.assignment@[i] < heads@.len(),
        ensures
            ({
                let outputs = self.profile@.outputs;
                let ids = wl::ids(wl::head_views(heads@));
                let n = pairs(outputs.len(), self.assignment@.len());
                match r {
                    Ok(v) => v@.len() == n && forall|i: int|
                        0 <= i < n ==> #[trigger] setting_at(outputs, ids, self.assignment@, i)
                            == Ok::<wl::SettingView, wl::SettingErrorView>(v@[i]@),
                    Err(e) => exists|i: int|
                        0 <= i < n && #[trigger] setting_at(outputs, ids, self.assignment@, i)
                            == Err::<wl::SettingView, wl::SettingErrorView>(e@) && forall|j: int|
                            0 <= j < i ==> (#[trigger] setting_at(
                                outputs,
                                ids,
                                self.assignment@,
                                j,
                            )) is Ok,
                }
            }),
    {
        let ghost outputs = self.profile@.outputs;
        let ghost ids = wl::ids(wl::head_views(heads@));
        let n = if self.profile.outputs.len() < self.assignment.len() {
            self.profile.outputs.len()
        } else {
            self.assignment.len()
        };
        let mut settings: Vec<OutputSetting> = Vec::new();
        for i in 0..n
            invariant
                outputs == self.profile@.outputs,
                ids == wl::ids(wl::head_views(heads@)),
                n == pairs(outputs.len(), self.assignment@.len()),
                forall|k: int| 0 <= k < n ==> #[trigger] self.assignment@[k] < heads@.len(),
                settings@.len() == i,
                forall|k: int|
                    0 <= k < i ==> #[trigger] setting_at(outputs, ids, self.assignment@, k) == Ok::<
                        wl::SettingView,
                        wl::SettingErrorView,
                    >(settings@[k]@),
        {
            let head = self.assignment[i];
            assert(outputs[i as int] == self.profile.outputs@[i as int]@);
            assert(ids[head as int] == heads@[head as int]@.id);
            match self.profile.outputs[i].to_setting(&heads[head].id) {
                Ok(s) => {
                    assert(setting_at(outputs, ids, self.assignment@, i as int) == Ok::<
                        wl::SettingView,
                        wl::SettingErrorView,
                    >(s@));
                    settings.push(s);
                },
                Err(e) => {
                    assert(setting_at(outputs, ids, self.assignment@, i as int) == Err::<
                        wl::SettingView,
                        wl::SettingErrorView,
                    >(e@));
                    return Err(e);
                },
            }
        }
        Ok(settings)
    }
}

/// Why a profile cannot be applied.
#[derive(Debug, PartialEq, Eq)]
pub enum ApplyError {
    /// It does not describe the connected outputs.
    NoMatch,
    /// Something in it cannot be read.
    Invalid(SettingError),
}

/// Whether this is what applying a profile asks for: its settings on the heads
/// that are first assigned to it, or why it cannot be applied.
pub open spec fn is_applied(
    p: config::ProfileView,
    ids: Seq<wl::IdView>,
    r: Result<Vec<OutputSetting>, ApplyError>,
) -> bool {
    match r {
        Ok(v) => matches_heads(p, ids) && exists|a: Seq<usize>| #[trigger]
            is_first_assignment(p.outputs, ids, a) && are_settings(
                p.outputs,
                ids,
                a,
                wl::setting_views(v@),
            ),
        Err(ApplyError::NoMatch) => !matches_heads(p, ids),
        Err(ApplyError::Invalid(e)) => matches_heads(p, ids) && exists|a: Seq<usize>| #[trigger]
            is_first_assignment(p.outputs, ids, a) && is_first_error(p.outputs, ids, a, e@),
    }
}

/// What a profile asks for of the connected outputs, if it describes them.
pub fn profile_settings(profile: &Profile, heads: &Vec<Head>) -> (r: Result<
    Vec<OutputSetting>,
    ApplyError,
>)
    requires
        heads@.len() <= 0x7fff_ffff,
    ensures
        is_applied(profile@, wl::ids(wl::head_views(heads@)), r),
{
    let ghost ids = wl::ids(wl::head_views(heads@));
    match match_profile(profile, heads) {
        Some(m) => {
            let ghost a = m.assignment@;
            assert(is_first_assignment(profile@.outputs, ids, a));
            match m.settings(heads) {
                Ok(v) => {
                    assert(are_settings(profile@.outputs, ids, a, wl::setting_views(v@)));
                    Ok(v)
                },
                Err(e) => {
                    assert(is_first_error(profile@.outputs, ids, a, e@));
                    Err(ApplyError::Invalid(e))
                },
            }
        },
        None => Err(ApplyError::NoMatch),
    }
}

/// The order of identities.
pub open spec fn id_order() -> spec_fn(wl::IdView, wl::IdView) -> bool {
    |a: wl::IdView, b: wl::IdView| a.le(b)
}

/// Identities are in total order.
pub proof fn lemma_id_order()
    ensures
        total_ordering(id_order()),
{
    let le = id_order();
    assert forall|a: wl::IdView| #[trigger] le(a, a) by {
        order::lemma_text_le_reflexive(a.serial);
    }
    assert forall|a: wl::IdView, b: wl::IdView| #[trigger] le(a, b) && #[trigger] le(b, a) implies a
        == b by {
        if a.connector != b.connector {
            order::lemma_text_le_antisymmetric(a.connector, b.connector);
        } else if a.make != b.make {
            order::lemma_text_le_antisymmetric(a.make, b.make);
        } else if a.model != b.model {
            order::lemma_text_le_antisymmetric(a.model, b.model);
        } else {
            order::lemma_text_le_antisymmetric(a.serial, b.serial);
        }
    }
    assert forall|a: wl::IdView, b: wl::IdView, c: wl::IdView| #[trigger]
        le(a, b) && #[trigger] le(b, c) implies le(a, c) by {
        lemma_id_transitive(a, b, c);
    }
    assert forall|a: wl::IdView, b: wl::IdView| #[trigger] le(a, b) || #[trigger] le(b, a) by {
        order::lemma_text_le_total(a.connector, b.connector);
        order::lemma_text_le_total(a.make, b.make);
        order::lemma_text_le_total(a.model, b.model);
        order::lemma_text_le_total(a.serial, b.serial);
    }
}

proof fn lemma_id_transitive(a: wl::IdView, b: wl::IdView, c: wl::IdView)
    requires
        a.le(b),
        b.le(c),
    ensures
        a.le(c),
{
    if a.connector != b.connector || b.connector != c.connector {
        order::lemma_text_le_reflexive(a.connector);
        order::lemma_text_le_reflexive(b.connector);
        order::lemma_text_le_transitive(a.connector, b.connector, c.connector);
        if a.connector == c.connector {
            order::lemma_text_le_antisymmetric(a.connector, b.connector);
        }
    } else if a.make != b.make || b.make != c.make {
        order::lemma_text_le_reflexive(a.make);
        order::lemma_text_le_reflexive(b.make);
        order::lemma_text_le_transitive(a.make, b.make, c.make);
        if a.make == c.make {
            order::lemma_text_le_antisymmetric(a.make, b.make);
        }
    } else if a.model != b.model || b.model != c.model {
        order::lemma_text_le_reflexive(a.model);
        order::lemma_text_le_reflexive(b.model);
        order::lemma_text_le_transitive(a.model, b.model, c.model);
        if a.model == c.model {
            order::lemma_text_le_antisymmetric(a.model, b.model);
        }
    } else {
        order::lemma_text_le_transitive(a.serial, b.serial, c.serial);
    }
}

/// What a list of identities says.
pub open spec fn id_views(v: Seq<HeadId>) -> Seq<wl::IdView> {
    v.map_values(|id: HeadId| id@)
}

/// The set of connected outputs, as the daemon compares it between hotplugs: the
/// identities in order.
pub fn fingerprint(heads: &Vec<Head>) -> (r: Vec<HeadId>)
    ensures
        id_views(r@) == wl::ids(wl::head_views(heads@)).sort_by(id_order()),
{
    let mut r: Vec<HeadId> = Vec::new();
    let ghost le = id_order();
    let ghost all = wl::ids(wl::head_views(heads@));
    proof {
        lemma_id_order();
        assert(all.take(0) == id_views(r@));
    }
    for i in 0..heads.len()
        invariant
            le == id_order(),
            total_ordering(le),
            all == wl::ids(wl::head_views(heads@)),
            sorted_by(id_views(r@), le),
            id_views(r@).to_multiset() == all.take(i as int).to_multiset(),
    {
        let x = &heads[i].id;
        let mut p: usize = 0;
        while p < r.len() && r[p].not_after(x)
            invariant
                p <= r@.len(),
                le == id_order(),
                forall|j: int| 0 <= j < p ==> le(#[trigger] id_views(r@)[j], x@),
            decreases r@.len() - p,
        {
            p = p + 1;
        }
        let ghost before = id_views(r@);
        proof {
            assert forall|j: int| p <= j < before.len() implies le(x@, #[trigger] before[j]) by {
                assert(!le(before[p as int], x@));
                assert(le(x@, before[p as int]));
                if j > p {
                    assert(le(before[p as int], before[j]));
                }
            }
            order::lemma_insert_sorted(before, p as int, x@, le);
        }
        let id = x.clone();
        r.insert(p, id);
        assert(id_views(r@) == before.insert(p as int, x@));
        proof {
            broadcast use group_to_multiset_ensures;

            assert(all.take(i + 1) == all.take(i as int).push(x@));
            assert(all.take(i as int).push(x@).to_multiset() == all.take(
                i as int,
            ).to_multiset().insert(x@));
        }
    }
    proof {
        assert(all.take(heads@.len() as int) == all);
        order::lemma_sorted_is(all, id_views(r@), le);
    }
    r
}

/// Two lists of outputs have the same fingerprint exactly if they are the same
/// outputs, in whatever order.
pub proof fn law_fingerprint_ignores_order(a: Seq<wl::IdView>, b: Seq<wl::IdView>)
    ensures
        a.sort_by(id_order()) == b.sort_by(id_order()) <==> a.to_multiset() == b.to_multiset(),
{
    lemma_id_order();
    a.lemma_sort_by_ensures(id_order());
    b.lemma_sort_by_ensures(id_order());
    if a.to_multiset() == b.to_multiset() {
        lemma_sorted_unique(a.sort_by(id_order()), b.sort_by(id_order()), id_order());
    }
}

/// A profile that matches leaves no output unused.
pub proof fn law_every_head_is_used(
    outputs: Seq<config::OutputView>,
    ids: Seq<wl::IdView>,
    a: Seq<usize>,
)
    requires
        is_assignment(outputs, ids, a),
        ids.len() <= usize::MAX,
    ensures
        forall|h: usize| h < ids.len() ==> #[trigger] a.contains(h),
{
    lemma_full(a, ids.len());
}

/// `n` different indices below `n` are all of them.
proof fn lemma_full(a: Seq<usize>, n: nat)
    requires
        a.no_duplicates(),
        a.len() == n,
        n <= usize::MAX,
        forall|i: int| 0 <= i < a.len() ==> (#[trigger] a[i]) < n,
    ensures
        forall|h: usize| h < n ==> #[trigger] a.contains(h),
{
    let s = a.map_values(|x: usize| x as int);
    assert(s.no_duplicates());
    s.unique_seq_to_set();
    let full = vstd::set_lib::set_int_range(0, n as int);
    vstd::set_lib::lemma_int_range(0, n as int);
    assert(s.to_set().subset_of(full)) by {
        assert forall|x: int| s.to_set().contains(x) implies full.contains(x) by {
            assert(s.contains(x));
            let i = choose|i: int| 0 <= i < s.len() && s[i] == x;
            assert(a[i] < n);
        }
    }
    vstd::set_lib::lemma_subset_equality(s.to_set(), full);
    assert forall|h: usize| h < n implies #[trigger] a.contains(h) by {
        assert(full.contains(h as int));
        assert(s.contains(h as int));
        let i = choose|i: int| 0 <= i < s.len() && s[i] == h as int;
        assert(a[i] == h);
    }
}

/// A profile made from the connected outputs describes them.
pub proof fn law_saved_profile_matches(
    name: Seq<char>,
    heads: Seq<wl::HeadView>,
    with_serial: bool,
)
    requires
        0 < heads.len() <= usize::MAX,
    ensures
        matches_heads(
            config::ProfileView { name, outputs: config::entries_of(heads, with_serial) },
            wl::ids(heads),
        ),
{
    let outputs = config::entries_of(heads, with_serial);
    let ids = wl::ids(heads);
    let a = Seq::new(heads.len(), |i: int| i as usize);
    assert forall|i: int| 0 <= i < a.len() implies applies(outputs[i], ids[#[trigger] a[i] as int]) by {
        assert(outputs[i] == config::entry_of(heads[i], with_serial));
        assert(ids[i] == heads[i].id);
    }
    let p = config::ProfileView { name, outputs };
    assert(is_assignment(p.outputs, ids, a));
    assert(ids.len() > 0);
}

/// The entries with no serial pinned.
pub open spec fn without_serials(outputs: Seq<config::OutputView>) -> Seq<config::OutputView> {
    outputs.map_values(|o: config::OutputView| config::OutputView { serial: None, ..o })
}

proof fn lemma_serials_count(outputs: Seq<config::OutputView>)
    ensures
        total_weight(without_serials(outputs)) <= total_weight(outputs),
        (exists|i: int|
            0 <= i < outputs.len() && (#[trigger] outputs[i]).serial is Some
                && outputs[i].connector is None) ==> total_weight(without_serials(outputs))
            < total_weight(outputs),
    decreases outputs.len(),
{
    if outputs.len() > 0 {
        let t = outputs.drop_last();
        lemma_serials_count(t);
        assert(without_serials(outputs).drop_last() == without_serials(t));
        if exists|i: int|
            0 <= i < outputs.len() && (#[trigger] outputs[i]).serial is Some
                && outputs[i].connector is None {
            let i = choose|i: int|
                0 <= i < outputs.len() && (#[trigger] outputs[i]).serial is Some
                    && outputs[i].connector is None;
            if i < t.len() {
                assert(t[i].serial is Some && t[i].connector is None);
            }
        }
    }
}

/// Wherever a profile with serials matches, the same profile without them matches
/// too, as long as its entries still name something, and counts no more; it
/// counts less if a serial stood where no connector does.
pub proof fn law_serials_win(p: config::ProfileView, ids: Seq<wl::IdView>)
    requires
        matches_heads(p, ids),
        forall|i: int|
            0 <= i < p.outputs.len() ==> names_something(
                #[trigger] without_serials(p.outputs)[i],
            ),
    ensures
        matches_heads(
            config::ProfileView { name: p.name, outputs: without_serials(p.outputs) },
            ids,
        ),
        total_weight(without_serials(p.outputs)) <= total_weight(p.outputs),
        (exists|i: int|
            0 <= i < p.outputs.len() && (#[trigger] p.outputs[i]).serial is Some
                && p.outputs[i].connector is None) ==> total_weight(without_serials(p.outputs))
            < total_weight(p.outputs),
{
    let outputs = without_serials(p.outputs);
    let a = choose|a: Seq<usize>| is_assignment(p.outputs, ids, a);
    assert forall|i: int| 0 <= i < a.len() implies applies(outputs[i], ids[#[trigger] a[i] as int]) by {
        assert(applies(p.outputs[i], ids[a[i] as int]));
        assert(names_something(outputs[i]));
    }
    let q = config::ProfileView { name: p.name, outputs };
    assert(is_assignment(q.outputs, ids, a));
    lemma_serials_count(p.outputs);
}

/// Equal multisets of elements are the same elements in another order: `p` gives,
/// for each place in `a`, a place of its own in `b` with the same element.
pub open spec fn is_reordering<A>(a: Seq<A>, b: Seq<A>, p: Seq<usize>) -> bool {
    &&& p.len() == a.len()
    &&& p.no_duplicates()
    &&& forall|i: int| 0 <= i < p.len() ==> (#[trigger] p[i]) < b.len() && b[p[i] as int] == a[i]
}

proof fn lemma_reordering<A>(a: Seq<A>, b: Seq<A>) -> (p: Seq<usize>)
    requires
        a.to_multiset() == b.to_multiset(),
        b.len() <= usize::MAX,
    ensures
        a.len() == b.len(),
        is_reordering(a, b, p),
    decreases a.len(),
{
    broadcast use group_to_multiset_ensures;

    assert(a.to_multiset().len() == a.len());
    assert(b.to_multiset().len() == b.len());
    if a.len() == 0 {
        Seq::empty()
    } else {
        let x = a.last();
        let a0 = a.drop_last();
        assert(a == a0.push(x));
        assert(a.contains(x)) by {
            assert(a[a.len() - 1] == x);
        }
        assert(b.to_multiset().contains(x));
        let k = choose|k: int| 0 <= k < b.len() && b[k] == x;
        let b0 = b.remove(k);
        assert(a0.to_multiset() =~= b0.to_multiset()) by {
            assert(a.to_multiset() == a0.to_multiset().insert(x));
            assert(b0.to_multiset() == b.to_multiset().remove(x));
        }
        let p0 = lemma_reordering(a0, b0);
        let lift = |i: usize| if i < k { i } else { (i + 1) as usize };
        let p = p0.map_values(lift).push(k as usize);
        assert forall|i: int| 0 <= i < p.len() implies (#[trigger] p[i]) < b.len() && b[p[i] as int]
            == a[i] by {
            if i < p0.len() {
                assert(p0[i] < b0.len());
                assert(b0[p0[i] as int] == a0[i]);
            }
        }
        assert forall|i: int, j: int| 0 <= i < p.len() && 0 <= j < p.len() && i != j implies p[i]
            != p[j] by {
            if i < p0.len() && j < p0.len() {
                assert(p0[i] != p0[j]);
                assert(p0[i] < b0.len());
                assert(p0[j] < b0.len());
            } else if i < p0.len() {
                assert(p0[i] < b0.len());
            } else if j < p0.len() {
                assert(p0[j] < b0.len());
            }
        }
        p
    }
}

/// Whether a profile matches does not depend on the order in which the outputs
/// are listed.
pub proof fn law_matching_ignores_order(
    p: config::ProfileView,
    a: Seq<wl::IdView>,
    b: Seq<wl::IdView>,
)
    requires
        a.to_multiset() == b.to_multiset(),
        b.len() <= usize::MAX,
        matches_heads(p, a),
    ensures
        matches_heads(p, b),
{
    let q = lemma_reordering(a, b);
    let x = choose|x: Seq<usize>| is_assignment(p.outputs, a, x);
    let y = x.map_values(|i: usize| q[i as int]);
    assert forall|i: int| 0 <= i < y.len() implies (#[trigger] y[i]) < b.len() && applies(
        p.outputs[i],
        b[y[i] as int],
    ) by {
        assert(x[i] < a.len());
        assert(applies(p.outputs[i], a[x[i] as int]));
        assert(q[x[i] as int] < b.len());
    }
    assert forall|i: int, j: int| 0 <= i < y.len() && 0 <= j < y.len() && i != j implies y[i]
        != y[j] by {
        assert(x[i] != x[j]);
        assert(x[i] < a.len());
        assert(x[j] < a.len());
    }
    assert(is_assignment(p.outputs, b, y));
}

/// Whether each of the four keys that an entry has is that of an output, and it has one.
pub open spec fn keys_agree(o: config::OutputView, id: wl::IdView) -> bool {
    &&& o.connector matches Some(connector) ==> connector == id.connector
    &&& o.make matches Some(make) ==> make == id.make
    &&& o.model matches Some(model) ==> model == id.model
    &&& o.serial matches Some(serial) ==> serial == id.serial
    &&& o.connector is Some || o.make is Some || o.model is Some || o.serial is Some
}

/// An entry describes an output exactly where each key that it has, connector, make,
/// model or serial, is the output's own, and it has at least one. An entry that names
/// another connector, make, model or serial does not, whatever its other keys are.
pub proof fn law_every_key_counts(o: config::OutputView, id: wl::IdView)
    ensures
        applies(o, id) <==> keys_agree(o, id),
        o.connector is Some && o.connector != Some(id.connector) ==> !applies(o, id),
        o.make is Some && o.make != Some(id.make) ==> !applies(o, id),
        o.model is Some && o.model != Some(id.model) ==> !applies(o, id),
        o.serial is Some && o.serial != Some(id.serial) ==> !applies(o, id),
        o.connector is None && o.make is None && o.model is None && o.serial is None ==> !applies(
            o,
            id,
        ),
{
}

/// What an entry counts: two where it pins a connector or a serial, else one. Match keys
/// and settings besides make no difference.
pub proof fn law_an_exact_key_counts_double(o: config::OutputView)
    ensures
        o.connector is Some ==> weight(o) == 2,
        o.serial is Some ==> weight(o) == 2,
        o.connector is None && o.serial is None ==> weight(o) == 1,
{
}

/// Whether an entry pins a connector or a serial.
pub open spec fn is_exact() -> spec_fn(config::OutputView) -> bool {
    |o: config::OutputView| o.connector is Some || o.serial is Some
}

/// A profile counts one for each entry and one more for each that pins a connector or a
/// serial.
pub proof fn law_a_profile_counts_its_entries(outputs: Seq<config::OutputView>)
    ensures
        total_weight(outputs) == outputs.len() + outputs.filter(is_exact()).len(),
    decreases outputs.len(),
{
    reveal(Seq::filter);
    if outputs.len() > 0 {
        law_a_profile_counts_its_entries(outputs.drop_last());
    }
}

/// A profile describes the connected outputs exactly where its entries and the outputs
/// can be paired, each with one of the other and none left over, so that every key of
/// every entry is that of its output.
pub proof fn law_a_match_pairs_entries_and_outputs(p: config::ProfileView, ids: Seq<wl::IdView>)
    ensures
        matches_heads(p, ids) <==> ids.len() > 0 && p.outputs.len() == ids.len() && exists|
            a: Seq<usize>,
        | #[trigger]
            pairs_up(p.outputs, ids, a),
{
    if matches_heads(p, ids) {
        let a = choose|a: Seq<usize>| is_assignment(p.outputs, ids, a);
        lemma_pairs_up(p.outputs, ids, a);
        assert(pairs_up(p.outputs, ids, a));
    }
    if p.outputs.len() == ids.len() && exists|a: Seq<usize>| #[trigger]
        pairs_up(p.outputs, ids, a) {
        let a = choose|a: Seq<usize>| #[trigger] pairs_up(p.outputs, ids, a);
        lemma_pairs_up(p.outputs, ids, a);
        assert(is_assignment(p.outputs, ids, a));
    }
}

/// Whether `a` pairs every entry with an output of its own whose keys it has.
pub open spec fn pairs_up(
    outputs: Seq<config::OutputView>,
    ids: Seq<wl::IdView>,
    a: Seq<usize>,
) -> bool {
    &&& a.len() == outputs.len()
    &&& forall|i: int|
        0 <= i < a.len() ==> 0 <= #[trigger] a[i] < ids.len() && keys_agree(
            outputs[i],
            ids[a[i] as int],
        )
    &&& forall|i: int, j: int| 0 <= i < j < a.len() ==> a[i] != a[j]
}

proof fn lemma_pairs_up(outputs: Seq<config::OutputView>, ids: Seq<wl::IdView>, a: Seq<usize>)
    requires
        outputs.len() == ids.len(),
    ensures
        pairs_up(outputs, ids, a) <==> is_assignment(outputs, ids, a),
{
    if pairs_up(outputs, ids, a) {
        assert(a.no_duplicates());
        assert forall|i: int| 0 <= i < a.len() implies applies(
            outputs[i],
            ids[#[trigger] a[i] as int],
        ) by {
            law_every_key_counts(outputs[i], ids[a[i] as int]);
        }
    }
    if is_assignment(outputs, ids, a) {
        assert forall|i: int| 0 <= i < a.len() implies 0 <= #[trigger] a[i] < ids.len()
            && keys_agree(outputs[i], ids[a[i] as int]) by {
            law_every_key_counts(outputs[i], ids[a[i] as int]);
        }
    }
}

/// The assignment that a match has pairs entries and outputs up; wherever another does,
/// the first entry that they pair with different outputs has the one listed earlier.
pub proof fn law_the_first_assignment_is_taken(
    outputs: Seq<config::OutputView>,
    ids: Seq<wl::IdView>,
    a: Seq<usize>,
    b: Seq<usize>,
    k: int,
)
    requires
        is_first_assignment(outputs, ids, a),
    ensures
        pairs_up(outputs, ids, a),
        outputs.len() == ids.len(),
        pairs_up(outputs, ids, b) && 0 <= k < a.len() && a[k] != b[k] && (forall|j: int|
            0 <= j < k ==> a[j] == b[j]) ==> a[k] < b[k],
{
    lemma_pairs_up(outputs, ids, a);
    lemma_pairs_up(outputs, ids, b);
    if pairs_up(outputs, ids, b) && 0 <= k < a.len() && a[k] != b[k] && (forall|j: int|
        0 <= j < k ==> a[j] == b[j]) {
        assert(before(a, b));
        let d = choose|d: int| #[trigger] differ_at(a, b, d);
        assert(d == k);
    }
}

/// The best match describes the outputs. No profile that does pins more connectors and
/// serials, and none earlier in the file that does pins as many.
pub proof fn law_the_best_match_is_the_most_specific(
    ps: Seq<config::ProfileView>,
    ids: Seq<wl::IdView>,
    i: int,
    j: int,
)
    requires
        is_best(ps, ids, i),
        0 <= j < ps.len(),
        matches_heads(ps[j], ids),
    ensures
        0 <= i < ps.len(),
        matches_heads(ps[i], ids),
        ps[j].outputs.filter(is_exact()).len() <= ps[i].outputs.filter(is_exact()).len(),
        j < i ==> ps[j].outputs.filter(is_exact()).len() < ps[i].outputs.filter(is_exact()).len(),
{
    law_a_profile_counts_its_entries(ps[i].outputs);
    law_a_profile_counts_its_entries(ps[j].outputs);
    law_a_match_pairs_entries_and_outputs(ps[i], ids);
    law_a_match_pairs_entries_and_outputs(ps[j], ids);
}

/// Every setting of a profile that is applied is for the output that its entry is
/// assigned to, and that output has every key of the entry.
pub proof fn law_a_profile_is_applied_to_the_outputs_it_names(
    p: config::ProfileView,
    ids: Seq<wl::IdView>,
    v: Vec<OutputSetting>,
)
    requires
        is_applied(p, ids, Ok::<Vec<OutputSetting>, ApplyError>(v)),
    ensures
        v@.len() == p.outputs.len(),
        v@.len() == ids.len(),
        forall|k: int|
            #![trigger v@[k]]
            0 <= k < v@.len() ==> {
                let s = v@[k]@;
                let o = p.outputs[k];
                &&& ids.contains(s.id)
                &&& keys_agree(o, s.id)
                &&& s.enabled == o.enabled
                &&& s.position == o.position
                &&& s.scale == o.scale
                &&& s.mode is Some == o.mode is Some
                &&& s.transform is Some == o.transform is Some
            },
{
    let a = choose|a: Seq<usize>| #[trigger]
        is_first_assignment(p.outputs, ids, a) && are_settings(
            p.outputs,
            ids,
            a,
            wl::setting_views(v@),
        );
    let views = wl::setting_views(v@);
    lemma_pairs_up(p.outputs, ids, a);
    assert forall|k: int| #![trigger v@[k]] 0 <= k < v@.len() implies {
        let s = v@[k]@;
        let o = p.outputs[k];
        &&& ids.contains(s.id)
        &&& keys_agree(o, s.id)
        &&& s.enabled == o.enabled
        &&& s.position == o.position
        &&& s.scale == o.scale
        &&& s.mode is Some == o.mode is Some
        &&& s.transform is Some == o.transform is Some
    } by {
        assert(views[k] == v@[k]@);
        assert(setting_at(p.outputs, ids, a, k) == Ok::<wl::SettingView, wl::SettingErrorView>(
            views[k],
        ));
        assert(a[k] < ids.len());
        config::law_a_setting_carries_every_field(p.outputs[k], ids[a[k] as int]);
    }
}

/// Saving and applying again restores what was there: the profile made from the
/// connected outputs can be applied to them, and asks of each to be enabled, placed,
/// turned and driven as it is, at a scale that the compositor takes for its own.
pub proof fn law_a_saved_profile_restores_the_outputs(
    name: Seq<char>,
    heads: Seq<wl::HeadView>,
    with_serial: bool,
    r: Result<Vec<OutputSetting>, ApplyError>,
)
    requires
        0 < heads.len() <= usize::MAX,
        is_applied(
            config::ProfileView { name, outputs: config::entries_of(heads, with_serial) },
            wl::ids(heads),
            r,
        ),
    ensures
        r matches Ok(v) && v@.len() == heads.len() && forall|k: int|
            #![trigger v@[k]]
            0 <= k < v@.len() ==> {
                let s = v@[k]@;
                let h = heads[k];
                &&& s.id == h.id
                &&& s.enabled == h.enabled
                &&& s.position == Some(h.position)
                &&& s.transform == Some(h.transform)
                &&& h.current_mode is None ==> s.mode is None
                &&& h.current_mode matches Some(m) ==> s.mode == Some(
                    wl::ModeSpec { width: m.width, height: m.height, refresh: Some(m.refresh) },
                )
                &&& s.scale matches Some(scale) && (h.scale.is_carried() ==> scale.steps()
                    == h.scale.steps())
            },
{
    let outputs = config::entries_of(heads, with_serial);
    let ids = wl::ids(heads);
    let p = config::ProfileView { name, outputs };
    law_saved_profile_matches(name, heads, with_serial);
    let same = Seq::new(heads.len(), |i: int| i as usize);
    assert forall|i: int| 0 <= i < same.len() implies applies(
        outputs[i],
        ids[#[trigger] same[i] as int],
    ) by {
        assert(outputs[i] == config::entry_of(heads[i], with_serial));
        assert(ids[i] == heads[i].id);
    }
    assert(is_assignment(outputs, ids, same));
    assert forall|a: Seq<usize>| #[trigger] is_first_assignment(outputs, ids, a) implies a
        == same by {
        if a != same {
            assert(before(a, same));
            let k = choose|k: int| #[trigger] differ_at(a, same, k);
            lemma_no_smaller(a, k);
        }
    }
    assert forall|k: int| 0 <= k < heads.len() implies (#[trigger] setting_at(
        outputs,
        ids,
        same,
        k,
    )) is Ok by {
        config::law_an_entry_keeps_every_field(heads[k], with_serial);
        config::law_a_setting_carries_every_field(outputs[k], ids[k]);
    }
    match r {
        Ok(v) => {
            let views = wl::setting_views(v@);
            assert(are_settings(outputs, ids, same, views));
            assert forall|k: int| #![trigger v@[k]] 0 <= k < v@.len() implies {
                let s = v@[k]@;
                let h = heads[k];
                &&& s.id == h.id
                &&& s.enabled == h.enabled
                &&& s.position == Some(h.position)
                &&& s.transform == Some(h.transform)
                &&& h.current_mode is None ==> s.mode is None
                &&& h.current_mode matches Some(m) ==> s.mode == Some(
                    wl::ModeSpec { width: m.width, height: m.height, refresh: Some(m.refresh) },
                )
                &&& s.scale matches Some(scale) && (h.scale.is_carried() ==> scale.steps()
                    == h.scale.steps())
            } by {
                assert(views[k] == v@[k]@);
                assert(setting_at(outputs, ids, same, k) == Ok::<
                    wl::SettingView,
                    wl::SettingErrorView,
                >(views[k]));
                config::law_an_entry_keeps_every_field(heads[k], with_serial);
                config::law_a_setting_carries_every_field(outputs[k], ids[k]);
                if heads[k].scale.is_carried() {
                    crate::scale::law_saved_scale_reapplies(heads[k].scale);
                }
            }
        },
        Err(ApplyError::NoMatch) => {},
        Err(ApplyError::Invalid(e)) => {
            assert(is_first_error(outputs, ids, same, e@));
        },
    }
}

/// No list of different indices stands before that of all of them in their order.
proof fn lemma_no_smaller(a: Seq<usize>, k: int)
    requires
        a.no_duplicates(),
        0 <= k < a.len(),
        forall|j: int| 0 <= j < k ==> a[j] == j,
    ensures
        a[k] >= k,
{
    if a[k] < k {
        assert(a[a[k] as int] == a[k]);
    }
}

/// The set of connected outputs is kept in order, by connector, then make, model and
/// serial, whatever order they are listed in, and none is left out.
pub proof fn law_the_fingerprint_is_in_order(ids: Seq<wl::IdView>, i: int, j: int)
    requires
        0 <= i < j < ids.sort_by(id_order()).len(),
    ensures
        ids.sort_by(id_order()).to_multiset() == ids.to_multiset(),
        ({
            let a = ids.sort_by(id_order())[i];
            let b = ids.sort_by(id_order())[j];
            &&& order::text_le(a.connector, b.connector)
            &&& a.connector == b.connector ==> order::text_le(a.make, b.make)
            &&& a.connector == b.connector && a.make == b.make ==> order::text_le(a.model, b.model)
            &&& a.connector == b.connector && a.make == b.make && a.model == b.model
                ==> order::text_le(a.serial, b.serial)
        }),
{
    lemma_id_order();
    let le = id_order();
    ids.lemma_sort_by_ensures(le);
    let a = ids.sort_by(le)[i];
    let b = ids.sort_by(le)[j];
    assert(le(a, b));
    order::lemma_text_le_reflexive(a.connector);
    order::lemma_text_le_reflexive(a.make);
    order::lemma_text_le_reflexive(a.model);
}

/// A profile that cannot be applied as it stands is refused for its first entry that
/// cannot be read, with what is the matter with that entry; all before it can be read.
pub proof fn law_the_first_unreadable_entry_is_named(
    p: config::ProfileView,
    ids: Seq<wl::IdView>,
    e: SettingError,
)
    requires
        is_applied(p, ids, Err::<Vec<OutputSetting>, ApplyError>(ApplyError::Invalid(e))),
    ensures
        matches_heads(p, ids),
        exists|k: int|
            #![trigger p.outputs[k]]
            0 <= k < p.outputs.len() && {
                let o = p.outputs[k];
                ||| (o.mode matches Some(m) && wl::parse_mode(m) == Err::<
                    wl::ModeSpec,
                    wl::SettingErrorView,
                >(e@))
                ||| (o.transform matches Some(t) && wl::transform_named(t) is None && e@
                    == wl::SettingErrorView::UnknownTransform(t))
            } && forall|j: int|
                #![trigger p.outputs[j]]
                0 <= j < k ==> (p.outputs[j].mode matches Some(m) ==> wl::parse_mode(m) is Ok) && (
                p.outputs[j].transform matches Some(t) ==> wl::transform_named(t) is Some),
{
    let a = choose|a: Seq<usize>| #[trigger]
        is_first_assignment(p.outputs, ids, a) && is_first_error(p.outputs, ids, a, e@);
    let k = choose|k: int|
        0 <= k < p.outputs.len() && #[trigger] setting_at(p.outputs, ids, a, k) == Err::<
            wl::SettingView,
            wl::SettingErrorView,
        >(e@) && forall|j: int|
            0 <= j < k ==> (#[trigger] setting_at(p.outputs, ids, a, j)) is Ok;
    config::law_a_setting_carries_every_field(p.outputs[k], ids[a[k] as int]);
    assert forall|j: int| #![trigger p.outputs[j]] 0 <= j < k implies (
    p.outputs[j].mode matches Some(m) ==> wl::parse_mode(m) is Ok) && (
    p.outputs[j].transform matches Some(t) ==> wl::transform_named(t) is Some) by {
        assert(setting_at(p.outputs, ids, a, j) is Ok);
        config::law_a_setting_carries_every_field(p.outputs[j], ids[a[j] as int]);
    }
}

/// Whether the mode and the transform of every entry can be read.
pub open spec fn is_readable(outputs: Seq<config::OutputView>) -> bool {
    forall|i: int|
        #![trigger outputs[i]]
        0 <= i < outputs.len() ==> (outputs[i].mode matches Some(m) ==> wl::parse_mode(m) is Ok)
            && (outputs[i].transform matches Some(t) ==> wl::transform_named(t) is Some)
}

/// A profile can be applied exactly where it describes the outputs and all of it can be
/// read; where it does not describe them, that is said before anything else.
pub proof fn law_when_a_profile_can_be_applied(
    p: config::ProfileView,
    ids: Seq<wl::IdView>,
    r: Result<Vec<OutputSetting>, ApplyError>,
)
    requires
        is_applied(p, ids, r),
    ensures
        r is Ok <==> matches_heads(p, ids) && is_readable(p.outputs),
        !matches_heads(p, ids) <==> r == Err::<Vec<OutputSetting>, ApplyError>(ApplyError::NoMatch),
{
    match r {
        Ok(v) => {
            let a = choose|a: Seq<usize>| #[trigger]
                is_first_assignment(p.outputs, ids, a) && are_settings(
                    p.outputs,
                    ids,
                    a,
                    wl::setting_views(v@),
                );
            lemma_readable(p.outputs, ids, a, wl::setting_views(v@));
        },
        Err(ApplyError::NoMatch) => {},
        Err(ApplyError::Invalid(e)) => {
            let a = choose|a: Seq<usize>| #[trigger]
                is_first_assignment(p.outputs, ids, a) && is_first_error(p.outputs, ids, a, e@);
            lemma_unreadable(p.outputs, ids, a, e@);
        },
    }
}

/// Where there are settings, all of the profile can be read.
pub proof fn lemma_readable(
    outputs: Seq<config::OutputView>,
    ids: Seq<wl::IdView>,
    a: Seq<usize>,
    settings: Seq<wl::SettingView>,
)
    requires
        are_settings(outputs, ids, a, settings),
    ensures
        is_readable(outputs),
{
    assert forall|i: int| #![trigger outputs[i]] 0 <= i < outputs.len() implies (
    outputs[i].mode matches Some(m) ==> wl::parse_mode(m) is Ok) && (
    outputs[i].transform matches Some(t) ==> wl::transform_named(t) is Some) by {
        assert(setting_at(outputs, ids, a, i) == Ok::<wl::SettingView, wl::SettingErrorView>(
            settings[i],
        ));
        config::law_a_setting_carries_every_field(outputs[i], ids[a[i] as int]);
    }
}

/// Where there is an error, something in the profile cannot be read.
pub proof fn lemma_unreadable(
    outputs: Seq<config::OutputView>,
    ids: Seq<wl::IdView>,
    a: Seq<usize>,
    e: wl::SettingErrorView,
)
    requires
        is_first_error(outputs, ids, a, e),
    ensures
        !is_readable(outputs),
{
    let k = choose|k: int|
        0 <= k < outputs.len() && #[trigger] setting_at(outputs, ids, a, k) == Err::<
            wl::SettingView,
            wl::SettingErrorView,
        >(e) && forall|j: int| 0 <= j < k ==> (#[trigger] setting_at(outputs, ids, a, j)) is Ok;
    config::law_a_setting_carries_every_field(outputs[k], ids[a[k] as int]);
    let o = outputs[k];
    assert((o.mode matches Some(m) && wl::parse_mode(m) is Err) || (o.transform matches Some(t)
        && wl::transform_named(t) is None));
}

}
