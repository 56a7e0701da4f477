//! Ranking by score: the best positions first, the earlier of two equal ones first.

use vstd::prelude::*;

verus! {

/// Position `a` ranks before position `b`: its score is higher, or the scores
/// are equal and `a` is the earlier position.
pub open spec fn ranks_before(scores: Seq<i64>, a: int, b: int) -> bool {
    scores[a] > scores[b] || (scores[a] == scores[b] && a < b)
}

/// `i` is one of the first `n` entries of `order`.
pub open spec fn listed(order: Seq<usize>, n: int, i: int) -> bool {
    exists|j: int| 0 <= j < n && j < order.len() && #[trigger] order[j] == i
}

/// `order` lists positions of `scores` from the best on, without a gap: each
/// entry ranks before the next, and whatever ranks before an entry is listed
/// ahead of it.
pub open spec fn is_best_first(scores: Seq<i64>, order: Seq<usize>) -> bool {
    &&& forall|j: int| 0 <= j < order.len() ==> (#[trigger] order[j]) < scores.len()
    &&& forall|j: int|
        0 <= j && j + 1 < order.len() ==> ranks_before(
            scores,
            #[trigger] order[j] as int,
            order[j + 1] as int,
        )
    &&& forall|j: int, i: int|
        #![trigger order[j], scores[i]]
        0 <= j < order.len() && 0 <= i < scores.len() ==> i == order[j] || ranks_before(
            scores,
            order[j] as int,
            i,
        ) || listed(order, j, i)
}

/// `order` lists the best `k` positions of `scores`, best first; all
/// positions, if there are fewer than `k`.
pub open spec fn is_top(scores: Seq<i64>, k: nat, order: Seq<usize>) -> bool {
    &&& is_best_first(scores, order)
    &&& order.len() <= k
    &&& order.len() < k ==> forall|i: int|
        0 <= i < scores.len() ==> listed(order, order.len() as int, i)
}

/// The entries of `order` whose score is at least `threshold`, in order.
pub open spec fn at_least(scores: Seq<i64>, order: Seq<usize>, threshold: i64) -> Seq<usize>
    decreases order.len(),
{
    if order.len() == 0 {
        seq![]
    } else {
        let before = at_least(scores, order.drop_last(), threshold);
        let last = order.last();
        if last < scores.len() && scores[last as int] >= threshold {
            before.push(last)
        } else {
            before
        }
    }
}

/// `hits` are the positions that a search gives: of the best `k` positions
/// those whose score is at least `threshold`. The threshold is applied to the
/// best `k`, not before they are chosen.
pub open spec fn is_search_order(
    scores: Seq<i64>,
    k: nat,
    threshold: i64,
    hits: Seq<usize>,
) -> bool {
    exists|order: Seq<usize>| #[trigger] is_top(scores, k, order) && hits == at_least(
        scores,
        order,
        threshold,
    )
}

/// The first entry of a list of the best positions has the highest score of
/// all, and is the earliest position with that score.
pub proof fn lemma_first_is_best(scores: Seq<i64>, k: nat, order: Seq<usize>)
    requires
        is_top(scores, k, order),
        k >= 1,
        scores.len() >= 1,
    ensures
        order.len() >= 1,
        forall|i: int| 0 <= i < scores.len() ==> scores[order[0] as int] >= #[trigger] scores[i],
        forall|i: int|
            0 <= i < scores.len() && #[trigger] scores[i] == scores[order[0] as int] ==> order[0]
                <= i,
{
    if order.len() == 0 {
        assert(listed(order, 0, 0));
    }
    assert forall|i: int| 0 <= i < scores.len() implies scores[order[0] as int]
        >= #[trigger] scores[i] && (scores[i] == scores[order[0] as int] ==> order[0] <= i) by {
        let first = order[0];
        assert(i == first || ranks_before(scores, first as int, i) || listed(order, 0, i));
    }
}

/// Two lists of the best positions agree as far as both go.
pub proof fn lemma_best_first_agree(scores: Seq<i64>, a: Seq<usize>, b: Seq<usize>, j: int)
    requires
        is_best_first(scores, a),
        is_best_first(scores, b),
        0 <= j < a.len(),
        j < b.len(),
    ensures
        a[j] == b[j],
    decreases j,
{
    if j > 0 {
        lemma_best_first_agree(scores, a, b, j - 1);
    }
    let x = a[j];
    let y = b[j];
    assert forall|m: int| 0 <= m < j implies a[m] == b[m] by {
        lemma_best_first_agree_below(scores, a, b, j, m);
    }
    lemma_listed_ranks_before(scores, a, j);
    lemma_listed_ranks_before(scores, b, j);
    if x != y {
        // each of the two ranks before the other or is listed ahead of it
        assert(y as int == a[j] || ranks_before(scores, a[j] as int, y as int) || listed(
            a,
            j,
            y as int,
        ));
        assert(x as int == b[j] || ranks_before(scores, b[j] as int, x as int) || listed(
            b,
            j,
            x as int,
        ));
        if listed(a, j, y as int) {
            let m = choose|m: int| 0 <= m < j && m < a.len() && #[trigger] a[m] == y as int;
            assert(b[m] == y);
            assert(ranks_before(scores, b[m] as int, b[j] as int));
        }
        if listed(b, j, x as int) {
            let m = choose|m: int| 0 <= m < j && m < b.len() && #[trigger] b[m] == x as int;
            assert(a[m] == x);
            assert(ranks_before(scores, a[m] as int, a[j] as int));
        }
    }
}

proof fn lemma_best_first_agree_below(
    scores: Seq<i64>,
    a: Seq<usize>,
    b: Seq<usize>,
    j: int,
    m: int,
)
    requires
        is_best_first(scores, a),
        is_best_first(scores, b),
        0 <= m < j < a.len(),
        j < b.len(),
    ensures
        a[m] == b[m],
    decreases j, 0int,
{
    lemma_best_first_agree(scores, a, b, m);
}

/// Each entry of a list of the best positions ranks before all later ones.
pub proof fn lemma_listed_ranks_before(scores: Seq<i64>, order: Seq<usize>, j: int)
    requires
        is_best_first(scores, order),
        0 <= j < order.len(),
    ensures
        forall|m: int|
            0 <= m < j ==> ranks_before(scores, #[trigger] order[m] as int, order[j] as int),
    decreases j,
{
    if j > 0 {
        lemma_listed_ranks_before(scores, order, j - 1);
        assert forall|m: int| 0 <= m < j implies ranks_before(
            scores,
            #[trigger] order[m] as int,
            order[j] as int,
        ) by {
            assert(ranks_before(scores, order[j - 1] as int, order[j - 1 + 1] as int));
            if m < j - 1 {
                assert(ranks_before(scores, order[m] as int, order[j - 1] as int));
            }
        }
    }
}

/// There is one list of the best `k` positions and no other.
pub proof fn lemma_top_is_unique(scores: Seq<i64>, k: nat, a: Seq<usize>, b: Seq<usize>)
    requires
        is_top(scores, k, a),
        is_top(scores, k, b),
    ensures
        a == b,
{
    lemma_top_is_longest(scores, k, a, b);
    lemma_top_is_longest(scores, k, b, a);
    assert forall|j: int| 0 <= j < a.len() implies a[j] == b[j] by {
        lemma_best_first_agree(scores, a, b, j);
    }
    assert(a =~= b);
}

/// No list of the best `k` positions is shorter than another.
proof fn lemma_top_is_longest(scores: Seq<i64>, k: nat, a: Seq<usize>, b: Seq<usize>)
    requires
        is_top(scores, k, a),
        is_top(scores, k, b),
    ensures
        a.len() >= b.len(),
{
    if a.len() < b.len() {
        let n = a.len() as int;
        let extra = b[n];
        assert(listed(a, n, extra as int));
        let m = choose|m: int| 0 <= m < n && m < a.len() && #[trigger] a[m] == extra as int;
        lemma_best_first_agree(scores, a, b, m);
        lemma_listed_ranks_before(scores, b, n);
        assert(ranks_before(scores, b[m] as int, b[n] as int));
    }
}

/// A search has one result and no other.
pub proof fn lemma_search_order_is_unique(
    scores: Seq<i64>,
    k: nat,
    threshold: i64,
    a: Seq<usize>,
    b: Seq<usize>,
)
    requires
        is_search_order(scores, k, threshold, a),
        is_search_order(scores, k, threshold, b),
    ensures
        a == b,
{
    let first = choose|order: Seq<usize>|
        #[trigger] is_top(scores, k, order) && a == at_least(scores, order, threshold);
    let second = choose|order: Seq<usize>|
        #[trigger] is_top(scores, k, order) && b == at_least(scores, order, threshold);
    lemma_top_is_unique(scores, k, first, second);
}

/// Where the first of the best positions passes the threshold, it is the
/// first that is kept.
proof fn lemma_first_is_kept(scores: Seq<i64>, order: Seq<usize>, threshold: i64)
    requires
        order.len() >= 1,
        order[0] < scores.len(),
        scores[order[0] as int] >= threshold,
    ensures
        at_least(scores, order, threshold).len() >= 1,
        at_least(scores, order, threshold)[0] == order[0],
        at_least(scores, order, threshold).len() <= order.len(),
    decreases order.len(),
{
    let before = order.drop_last();
    let kept = at_least(scores, before, threshold);
    if order.len() > 1 {
        assert(before[0] == order[0]);
        lemma_first_is_kept(scores, before, threshold);
        if order.last() < scores.len() && scores[order.last() as int] >= threshold {
            assert(kept.push(order.last())[0] == kept[0]);
        }
    } else {
        assert(before.len() == 0);
        assert(kept.len() == 0);
        assert(order.last() == order[0]);
        assert(kept.push(order[0])[0] == order[0]);
    }
}

/// A position whose score is at least the threshold, is the highest of all,
/// and is higher than every score before it, is the first result of a search
/// for one result or more; it is the only result of a search for one.
pub proof fn lemma_best_is_first_result(
    scores: Seq<i64>,
    k: nat,
    threshold: i64,
    hits: Seq<usize>,
    best: int,
)
    requires
        is_search_order(scores, k, threshold, hits),
        k >= 1,
        0 <= best < scores.len(),
        scores[best] >= threshold,
        forall|i: int| 0 <= i < scores.len() ==> scores[best] >= #[trigger] scores[i],
        forall|i: int| 0 <= i < best ==> scores[best] > #[trigger] scores[i],
    ensures
        hits.len() >= 1,
        hits[0] == best,
        k == 1 ==> hits.len() == 1,
{
    let order = choose|order: Seq<usize>|
        #[trigger] is_top(scores, k, order) && hits == at_least(scores, order, threshold);
    lemma_first_is_best(scores, k, order);
    let first = order[0] as int;
    assert(scores[first] >= scores[best]);
    assert(scores[best] >= scores[first]);
    if first < best {
        assert(scores[best] > scores[first]);
    }
    assert(first == best);
    lemma_first_is_kept(scores, order, threshold);
}

/// Position `i` is still to come after `after`: it ranks after it, or
/// `after` is none.
pub open spec fn comes_after(scores: Seq<i64>, after: Option<usize>, i: int) -> bool {
    match after {
        Some(a) => ranks_before(scores, a as int, i),
        None => true,
    }
}

/// The position that ranks first among those that come after `after`. None
/// where no position is left.
fn next_best(scores: &Vec<i64>, after: Option<usize>) -> (r: Option<usize>)
    requires
        after matches Some(a) ==> a < scores.len(),
    ensures
        r matches Some(b) ==> {
            &&& b < scores.len()
            &&& comes_after(scores@, after, b as int)
            &&& forall|i: int|
                0 <= i < scores.len() && #[trigger] comes_after(scores@, after, i) ==> i == b
                    || ranks_before(scores@, b as int, i)
        },
        r is None ==> forall|i: int|
            0 <= i < scores.len() ==> !#[trigger] comes_after(scores@, after, i),
{
    let mut best: Option<usize> = None;
    let mut i: usize = 0;
    while i < scores.len()
        invariant
            i <= scores.len(),
            after matches Some(a) ==> a < scores.len(),
            best matches Some(b) ==> {
                &&& b < i
                &&& comes_after(scores@, after, b as int)
                &&& forall|c: int|
                    0 <= c < i && #[trigger] comes_after(scores@, after, c) ==> c == b
                        || ranks_before(scores@, b as int, c)
            },
            best is None ==> forall|c: int|
                0 <= c < i ==> !#[trigger] comes_after(scores@, after, c),
        decreases scores.len() - i,
    {
        let open = match after {
            Some(a) => scores[i] < scores[a] || (scores[i] == scores[a] && a < i),
            None => true,
        };
        assert(open == comes_after(scores@, after, i as int));
        if open {
            match best {
                Some(b) => {
                    if scores[i] > scores[b] {
                        best = Some(i);
                    }
                },
                None => {
                    best = Some(i);
                },
            }
        }
        i += 1;
    }
    best
}

/// The last entry of `order`, if it has one.
pub open spec fn last_of(order: Seq<usize>) -> Option<usize> {
    if order.len() > 0 {
        Some(order.last())
    } else {
        None
    }
}

/// What is listed in a list is listed in a longer one.
proof fn lemma_listed_grows(order: Seq<usize>, next: usize, n: int, i: int)
    requires
        listed(order, n, i),
    ensures
        listed(order.push(next), n, i),
{
    let m = choose|m: int| 0 <= m < n && m < order.len() && #[trigger] order[m] == i;
    assert(order.push(next)[m] == i);
}

/// A position that does not come after the last entry is listed.
proof fn lemma_not_after_is_listed(scores: Seq<i64>, order: Seq<usize>, i: int)
    requires
        is_best_first(scores, order),
        0 <= i < scores.len(),
        !comes_after(scores, last_of(order), i),
    ensures
        listed(order, order.len() as int, i),
{
    let n = order.len() as int;
    let last = order[n - 1];
    assert(i == order[n - 1] || ranks_before(scores, order[n - 1] as int, i) || listed(
        order,
        n - 1,
        i,
    ));
    if i == last {
        assert(order[n - 1] == i);
    } else {
        let m = choose|m: int| 0 <= m < n - 1 && m < order.len() && #[trigger] order[m] == i;
        assert(order[m] == i);
    }
}

/// A list of the best positions stays one with the best of the rest at its end.
proof fn lemma_best_first_extends(scores: Seq<i64>, order: Seq<usize>, next: usize)
    requires
        is_best_first(scores, order),
        next < scores.len(),
        comes_after(scores, last_of(order), next as int),
        forall|i: int|
            0 <= i < scores.len() && #[trigger] comes_after(scores, last_of(order), i) ==> i
                == next || ranks_before(scores, next as int, i),
    ensures
        is_best_first(scores, order.push(next)),
{
    let longer = order.push(next);
    let n = order.len() as int;
    assert forall|j: int| 0 <= j < longer.len() implies (#[trigger] longer[j]) < scores.len() by {
        if j < n {
            assert(longer[j] == order[j]);
        }
    }
    assert forall|j: int| 0 <= j && j + 1 < longer.len() implies ranks_before(
        scores,
        #[trigger] longer[j] as int,
        longer[j + 1] as int,
    ) by {
        if j + 1 < n {
            assert(longer[j] == order[j] && longer[j + 1] == order[j + 1]);
            assert(ranks_before(scores, order[j] as int, order[j + 1] as int));
        } else {
            assert(longer[j] == order[n - 1]);
        }
    }
    assert forall|j: int, i: int|
        #![trigger longer[j], scores[i]]
        0 <= j < longer.len() && 0 <= i < scores.len() implies i == longer[j] || ranks_before(
        scores,
        longer[j] as int,
        i,
    ) || listed(longer, j, i) by {
        if j < n {
            assert(longer[j] == order[j]);
            assert(i == order[j] || ranks_before(scores, order[j] as int, i) || listed(
                order,
                j,
                i,
            ));
            if listed(order, j, i) {
                lemma_listed_grows(order, next, j, i);
            }
        } else if comes_after(scores, last_of(order), i) {
        } else {
            lemma_not_after_is_listed(scores, order, i);
            lemma_listed_grows(order, next, n, i);
        }
    }
}

/// The best `k` positions of `scores`, best first.
pub fn top_positions(scores: &Vec<i64>, k: usize) -> (order: Vec<usize>)
    ensures
        is_top(scores@, k as nat, order@),
{
    let mut order: Vec<usize> = Vec::new();
    let mut last: Option<usize> = None;
    let mut full = false;
    while order.len() < k && !full
        invariant
            is_best_first(scores@, order@),
            order.len() <= k,
            last == last_of(order@),
            full ==> forall|i: int|
                0 <= i < scores.len() ==> listed(order@, order.len() as int, i),
        decreases (if full { 0int } else { 1 }), k - order.len(),
    {
        match next_best(scores, last) {
            Some(next) => {
                proof {
                    lemma_best_first_extends(scores@, order@, next);
                }
                order.push(next);
                last = Some(next);
            },
            None => {
                full = true;
                proof {
                    assert forall|i: int| 0 <= i < scores.len() implies listed(
                        order@,
                        order.len() as int,
                        i,
                    ) by {
                        assert(!comes_after(scores@, last_of(order@), i));
                        lemma_not_after_is_listed(scores@, order@, i);
                    }
                }
            },
        }
    }
    order
}

/// The entries of `order` whose score is at least `threshold`, in order.
pub fn keep_at_least(scores: &Vec<i64>, order: &Vec<usize>, threshold: i64) -> (kept: Vec<usize>)
    ensures
        kept@ == at_least(scores@, order@, threshold),
        kept@.len() <= order@.len(),
{
    let mut kept: Vec<usize> = Vec::new();
    let mut j: usize = 0;
    assert(order@.take(0) =~= Seq::<usize>::empty());
    while j < order.len()
        invariant
            j <= order.len(),
            kept@ == at_least(scores@, order@.take(j as int), threshold),
            kept@.len() <= j,
        decreases order.len() - j,
    {
        proof {
            assert(order@.take(j + 1).drop_last() =~= order@.take(j as int));
            assert(order@.take(j + 1).last() == order@[j as int]);
        }
        let at = order[j];
        if at < scores.len() && scores[at] >= threshold {
            kept.push(at);
        }
        j += 1;
    }
    assert(order@.take(order.len() as int) =~= order@);
    kept
}

/// The positions that a search gives, best first.
pub fn rank(scores: &Vec<i64>, k: usize, threshold: i64) -> (hits: Vec<usize>)
    ensures
        is_search_order(scores@, k as nat, threshold, hits@),
        hits@.len() <= k,
{
    let order = top_positions(scores, k);
    keep_at_least(scores, &order, threshold)
}

} // verus!
