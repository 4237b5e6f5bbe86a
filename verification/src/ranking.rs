//! The order in which an allocation run processes the applicants.

use vstd::prelude::*;
use crate::models::{Applicant, ApplicantView, roster};

verus! {

/// `a` has the better score key: a higher total, or on equal totals a higher
/// first component, or on equal totals and first components a higher second.
pub open spec fn outranks(a: ApplicantView, b: ApplicantView) -> bool {
    ||| a.total_score > b.total_score
    ||| a.total_score == b.total_score && a.scores.math > b.scores.math
    ||| a.total_score == b.total_score && a.scores.math == b.scores.math && a.scores.rus
        > b.scores.rus
}

/// The applicant at position `i` is processed before the one at position `j`:
/// by the better score key, and among equal keys by the earlier position.
pub open spec fn precedes(apps: Seq<ApplicantView>, i: int, j: int) -> bool {
    outranks(apps[i], apps[j]) || (!outranks(apps[j], apps[i]) && i < j)
}

/// `order` lists the positions below `n` of the applicants who agreed to
/// enrol, each once, every one before those that it precedes.
pub open spec fn ranks_prefix(apps: Seq<ApplicantView>, n: int, order: Seq<int>) -> bool {
    &&& forall|k: int| 0 <= k < order.len() ==> 0 <= #[trigger] order[k] < n && apps[order[k]].agreed
    &&& forall|i: int| 0 <= i < n && (#[trigger] apps[i]).agreed ==> order.contains(i)
    &&& forall|k: int, l: int| 0 <= k < l < order.len() ==> precedes(apps, order[k], order[l])
}

/// `order` is the order in which the applicants are processed.
pub open spec fn is_processing_order(apps: Seq<ApplicantView>, order: Seq<int>) -> bool {
    ranks_prefix(apps, apps.len() as int, order)
}

/// The order in which the applicants are processed: the positions of those
/// who agreed, by descending score key, equal keys in the order of the list.
pub open spec fn processing_order(apps: Seq<ApplicantView>) -> Seq<int> {
    choose|order: Seq<int>| is_processing_order(apps, order)
}

/// The positions held in `order`, as integers.
pub open spec fn positions(order: Seq<usize>) -> Seq<int> {
    Seq::new(order.len(), |k: int| order[k] as int)
}

/// Two lists with the same members, each sorted by `precedes`, are equal.
pub proof fn lemma_sorted_lists_equal(apps: Seq<ApplicantView>, one: Seq<int>, other: Seq<int>)
    requires
        forall|k: int, l: int| 0 <= k < l < one.len() ==> precedes(apps, one[k], one[l]),
        forall|k: int, l: int| 0 <= k < l < other.len() ==> precedes(apps, other[k], other[l]),
        forall|i: int| one.contains(i) <==> other.contains(i),
    ensures
        one == other,
    decreases one.len(),
{
    if one.len() == 0 {
        if other.len() > 0 {
            assert(other.contains(other[0]));
        }
        assert(one =~= other);
    } else {
        assert(one.contains(one[0]));
        let m = choose|m: int| 0 <= m < other.len() && other[m] == one[0];
        assert(other.contains(other[0]));
        let l = choose|l: int| 0 <= l < one.len() && one[l] == other[0];
        assert(one[0] == other[0]) by {
            if m > 0 && l > 0 {
                assert(precedes(apps, other[0], other[m]));
                assert(precedes(apps, one[0], one[l]));
            }
            if m > 0 && l == 0 {
                assert(precedes(apps, other[0], other[m]));
            }
            if m == 0 && l > 0 {
                assert(precedes(apps, one[0], one[l]));
            }
        }
        let one_rest = one.drop_first();
        let other_rest = other.drop_first();
        assert forall|i: int| one_rest.contains(i) <==> other_rest.contains(i) by {
            if one_rest.contains(i) {
                let k = choose|k: int| 0 <= k < one_rest.len() && one_rest[k] == i;
                assert(one[k + 1] == i);
                assert(precedes(apps, one[0], one[k + 1]));
                assert(one.contains(i));
                let q = choose|q: int| 0 <= q < other.len() && other[q] == i;
                assert(q > 0);
                assert(other_rest[q - 1] == i);
            }
            if other_rest.contains(i) {
                let k = choose|k: int| 0 <= k < other_rest.len() && other_rest[k] == i;
                assert(other[k + 1] == i);
                assert(precedes(apps, other[0], other[k + 1]));
                assert(other.contains(i));
                let q = choose|q: int| 0 <= q < one.len() && one[q] == i;
                assert(q > 0);
                assert(one_rest[q - 1] == i);
            }
        }
        assert forall|k: int, l: int| 0 <= k < l < one_rest.len() implies precedes(
            apps,
            one_rest[k],
            one_rest[l],
        ) by {
            assert(precedes(apps, one[k + 1], one[l + 1]));
        }
        assert forall|k: int, l: int| 0 <= k < l < other_rest.len() implies precedes(
            apps,
            other_rest[k],
            other_rest[l],
        ) by {
            assert(precedes(apps, other[k + 1], other[l + 1]));
        }
        lemma_sorted_lists_equal(apps, one_rest, other_rest);
        assert(one =~= seq![one[0]] + one_rest);
        assert(other =~= seq![other[0]] + other_rest);
    }
}

/// The applicants have one processing order only.
pub proof fn lemma_processing_order_unique(
    apps: Seq<ApplicantView>,
    one: Seq<int>,
    other: Seq<int>,
)
    requires
        is_processing_order(apps, one),
        is_processing_order(apps, other),
    ensures
        one == other,
{
    assert forall|i: int| one.contains(i) <==> other.contains(i) by {
        if one.contains(i) {
            let k = choose|k: int| 0 <= k < one.len() && one[k] == i;
            assert(apps[one[k]].agreed);
        }
        if other.contains(i) {
            let k = choose|k: int| 0 <= k < other.len() && other[k] == i;
            assert(apps[other[k]].agreed);
        }
    }
    lemma_sorted_lists_equal(apps, one, other);
}

/// Putting the applicant at position `n` into an order of the positions below
/// `n`, behind those that it does not outrank and before those that it does,
/// gives an order of the positions up to `n`.
pub proof fn lemma_insert_ranks(apps: Seq<ApplicantView>, n: int, order: Seq<int>, slot: int)
    requires
        0 <= n < apps.len(),
        apps[n].agreed,
        ranks_prefix(apps, n, order),
        0 <= slot <= order.len(),
        forall|k: int| 0 <= k < slot ==> !outranks(apps[n], apps[#[trigger] order[k]]),
        forall|k: int| slot <= k < order.len() ==> outranks(apps[n], apps[#[trigger] order[k]]),
    ensures
        ranks_prefix(apps, n + 1, order.insert(slot, n)),
{
    let grown = order.insert(slot, n);
    assert forall|k: int| 0 <= k < grown.len() implies 0 <= #[trigger] grown[k] < n + 1
        && apps[grown[k]].agreed by {
        if k < slot {
            assert(grown[k] == order[k]);
        } else if k > slot {
            assert(grown[k] == order[k - 1]);
        }
    }
    assert forall|i: int| 0 <= i < n + 1 && (#[trigger] apps[i]).agreed implies grown.contains(
        i,
    ) by {
        if i == n {
            assert(grown[slot] == n);
        } else {
            assert(order.contains(i));
            let k = choose|k: int| 0 <= k < order.len() && order[k] == i;
            if k < slot {
                assert(grown[k] == i);
            } else {
                assert(grown[k + 1] == i);
            }
        }
    }
    assert forall|k: int, l: int| 0 <= k < l < grown.len() implies precedes(
        apps,
        grown[k],
        grown[l],
    ) by {
        if l < slot {
            assert(grown[k] == order[k] && grown[l] == order[l]);
        } else if l == slot {
            assert(grown[k] == order[k]);
        } else if k < slot {
            assert(grown[k] == order[k] && grown[l] == order[l - 1]);
        } else if k == slot {
            assert(grown[l] == order[l - 1]);
        } else {
            assert(grown[k] == order[k - 1] && grown[l] == order[l - 1]);
        }
    }
}

/// An order of the positions below `n` exists for every `n` up to the length.
pub proof fn lemma_prefix_order_exists(apps: Seq<ApplicantView>, n: int) -> (order: Seq<int>)
    requires
        0 <= n <= apps.len(),
    ensures
        ranks_prefix(apps, n, order),
    decreases n,
{
    if n == 0 {
        Seq::<int>::empty()
    } else {
        let shorter = lemma_prefix_order_exists(apps, n - 1);
        if apps[n - 1].agreed {
            let slot = lemma_slot_exists(apps, n - 1, shorter, shorter.len() as int);
            lemma_insert_ranks(apps, n - 1, shorter, slot);
            shorter.insert(slot, n - 1)
        } else {
            assert forall|i: int| 0 <= i < n && (#[trigger] apps[i]).agreed implies shorter.contains(
                i,
            ) by {}
            shorter
        }
    }
}

/// In a sorted order, the members that a newcomer outranks stand behind all
/// those that it does not: a slot between the two groups exists.
proof fn lemma_slot_exists(apps: Seq<ApplicantView>, n: int, order: Seq<int>, upper: int) -> (slot:
    int)
    requires
        0 <= n < apps.len(),
        ranks_prefix(apps, n, order),
        0 <= upper <= order.len(),
        forall|k: int| upper <= k < order.len() ==> outranks(apps[n], apps[#[trigger] order[k]]),
    ensures
        0 <= slot <= order.len(),
        forall|k: int| 0 <= k < slot ==> !outranks(apps[n], apps[#[trigger] order[k]]),
        forall|k: int| slot <= k < order.len() ==> outranks(apps[n], apps[#[trigger] order[k]]),
    decreases upper,
{
    if upper > 0 && outranks(apps[n], apps[order[upper - 1]]) {
        lemma_slot_exists(apps, n, order, upper - 1)
    } else {
        if upper > 0 {
            assert forall|k: int| 0 <= k < upper implies !outranks(
                apps[n],
                apps[#[trigger] order[k]],
            ) by {
                if k < upper - 1 {
                    assert(precedes(apps, order[k], order[upper - 1]));
                }
            }
        }
        upper
    }
}

/// Every list of applicants has a processing order, and `processing_order`
/// names it.
pub proof fn lemma_processing_order(apps: Seq<ApplicantView>)
    ensures
        is_processing_order(apps, processing_order(apps)),
{
    let order = lemma_prefix_order_exists(apps, apps.len() as int);
    assert(is_processing_order(apps, order));
}

/// Whether `a` has the better score key.
pub fn has_better_key(a: &Applicant, b: &Applicant) -> (better: bool)
    ensures
        better == outranks(a@, b@),
{
    a.total_score > b.total_score || (a.total_score == b.total_score && (a.scores.math
        > b.scores.math || (a.scores.math == b.scores.math && a.scores.rus > b.scores.rus)))
}

/// Whether the applicant at position `i` is processed before the one at
/// position `j`.
pub fn goes_before(applicants: &Vec<Applicant>, i: usize, j: usize) -> (before: bool)
    requires
        i < applicants@.len(),
        j < applicants@.len(),
    ensures
        before == precedes(roster(applicants@), i as int, j as int),
{
    has_better_key(&applicants[i], &applicants[j]) || (!has_better_key(
        &applicants[j],
        &applicants[i],
    ) && i < j)
}

/// Every position of `order` comes before those behind it.
pub open spec fn ranked(apps: Seq<ApplicantView>, order: Seq<usize>) -> bool {
    forall|k: int, l: int|
        0 <= k < l < order.len() ==> precedes(apps, order[k] as int, order[l] as int)
}

/// A list with one more entry holds what it held, and the entry.
proof fn lemma_push_contains(list: Seq<usize>, entry: usize, x: usize)
    ensures
        list.push(entry).contains(x) <==> list.contains(x) || x == entry,
{
    let longer = list.push(entry);
    if list.contains(x) {
        let k = choose|k: int| 0 <= k < list.len() && list[k] == x;
        assert(longer[k] == x);
    }
    if x == entry {
        assert(longer[list.len() as int] == x);
    }
    if longer.contains(x) {
        let k = choose|k: int| 0 <= k < longer.len() && longer[k] == x;
        if k < list.len() {
            assert(list[k] == x);
        }
    }
}

/// Merges two ranked lists that share no position into one ranked list.
fn merge_ranked(applicants: &Vec<Applicant>, left: &Vec<usize>, right: &Vec<usize>) -> (merged:
    Vec<usize>)
    requires
        forall|k: int| 0 <= k < left@.len() ==> #[trigger] left@[k] < applicants@.len(),
        forall|k: int| 0 <= k < right@.len() ==> #[trigger] right@[k] < applicants@.len(),
        ranked(roster(applicants@), left@),
        ranked(roster(applicants@), right@),
        forall|k: int, l: int|
            0 <= k < left@.len() && 0 <= l < right@.len() ==> left@[k] != right@[l],
    ensures
        ranked(roster(applicants@), merged@),
        forall|x: usize| merged@.contains(x) <==> left@.contains(x) || right@.contains(x),
{
    let ghost apps = roster(applicants@);
    let mut merged: Vec<usize> = Vec::new();
    let mut a: usize = 0;
    let mut b: usize = 0;
    assert(left@.take(0) =~= Seq::<usize>::empty());
    assert(right@.take(0) =~= Seq::<usize>::empty());
    while a < left.len() || b < right.len()
        invariant
            apps == roster(applicants@),
            0 <= a <= left@.len(),
            0 <= b <= right@.len(),
            forall|k: int| 0 <= k < left@.len() ==> #[trigger] left@[k] < applicants@.len(),
            forall|k: int| 0 <= k < right@.len() ==> #[trigger] right@[k] < applicants@.len(),
            ranked(apps, left@),
            ranked(apps, right@),
            forall|k: int, l: int|
                0 <= k < left@.len() && 0 <= l < right@.len() ==> left@[k] != right@[l],
            ranked(apps, merged@),
            forall|m: int|
                0 <= m < merged@.len() && a < left@.len() ==> precedes(
                    apps,
                    #[trigger] merged@[m] as int,
                    left@[a as int] as int,
                ),
            forall|m: int|
                0 <= m < merged@.len() && b < right@.len() ==> precedes(
                    apps,
                    #[trigger] merged@[m] as int,
                    right@[b as int] as int,
                ),
            forall|x: usize|
                merged@.contains(x) <==> left@.take(a as int).contains(x) || right@.take(
                    b as int,
                ).contains(x),
        decreases left@.len() - a + right@.len() - b,
    {
        let from_left = if b >= right.len() {
            true
        } else if a >= left.len() {
            false
        } else {
            goes_before(applicants, left[a], right[b])
        };
        let ghost before = merged@;
        if from_left {
            let next = left[a];
            merged.push(next);
            proof {
                assert(left@.take(a + 1) =~= left@.take(a as int).push(next));
                assert forall|x: usize|
                    merged@.contains(x) <==> left@.take(a + 1).contains(x) || right@.take(
                        b as int,
                    ).contains(x) by {
                    lemma_push_contains(before, next, x);
                    lemma_push_contains(left@.take(a as int), next, x);
                }
                if a + 1 < left@.len() {
                    assert(precedes(apps, left@[a as int] as int, left@[a + 1] as int));
                }
            }
            a = a + 1;
        } else {
            let next = right[b];
            merged.push(next);
            proof {
                assert(right@.take(b + 1) =~= right@.take(b as int).push(next));
                assert forall|x: usize|
                    merged@.contains(x) <==> left@.take(a as int).contains(x) || right@.take(
                        b + 1,
                    ).contains(x) by {
                    lemma_push_contains(before, next, x);
                    lemma_push_contains(right@.take(b as int), next, x);
                }
                if b + 1 < right@.len() {
                    assert(precedes(apps, right@[b as int] as int, right@[b + 1] as int));
                }
                if a < left@.len() {
                    assert(left@[a as int] != right@[b as int]);
                }
            }
            b = b + 1;
        }
    }
    assert(left@.take(a as int) =~= left@);
    assert(right@.take(b as int) =~= right@);
    merged
}

/// The positions `items[lo..hi]` in the order in which they are processed.
fn sort_ranked(applicants: &Vec<Applicant>, items: &Vec<usize>, lo: usize, hi: usize) -> (sorted:
    Vec<usize>)
    requires
        lo <= hi <= items@.len(),
        forall|k: int| 0 <= k < items@.len() ==> #[trigger] items@[k] < applicants@.len(),
        forall|k: int, l: int| 0 <= k < l < items@.len() ==> items@[k] != items@[l],
    ensures
        ranked(roster(applicants@), sorted@),
        forall|x: usize| sorted@.contains(x) <==> items@.subrange(lo as int, hi as int).contains(x),
    decreases hi - lo,
{
    let ghost part = items@.subrange(lo as int, hi as int);
    if hi - lo == 0 {
        Vec::new()
    } else if hi - lo == 1 {
        let mut sorted: Vec<usize> = Vec::new();
        sorted.push(items[lo]);
        assert(sorted@ =~= part);
        sorted
    } else {
        let mid = lo + (hi - lo) / 2;
        let left = sort_ranked(applicants, items, lo, mid);
        let right = sort_ranked(applicants, items, mid, hi);
        let ghost first = items@.subrange(lo as int, mid as int);
        let ghost second = items@.subrange(mid as int, hi as int);
        proof {
            assert forall|k: int| 0 <= k < left@.len() implies #[trigger] left@[k]
                < applicants@.len() by {
                assert(left@.contains(left@[k]));
                let at = choose|at: int| 0 <= at < first.len() && first[at] == left@[k];
                assert(first[at] == items@[lo + at]);
            }
            assert forall|k: int| 0 <= k < right@.len() implies #[trigger] right@[k]
                < applicants@.len() by {
                assert(right@.contains(right@[k]));
                let at = choose|at: int| 0 <= at < second.len() && second[at] == right@[k];
                assert(second[at] == items@[mid + at]);
            }
            assert forall|k: int, l: int|
                0 <= k < left@.len() && 0 <= l < right@.len() implies left@[k] != right@[l] by {
                assert(left@.contains(left@[k]));
                assert(right@.contains(right@[l]));
                let at = choose|at: int| 0 <= at < first.len() && first[at] == left@[k];
                let bt = choose|bt: int| 0 <= bt < second.len() && second[bt] == right@[l];
                assert(items@[lo + at] != items@[mid + bt]);
            }
        }
        let sorted = merge_ranked(applicants, &left, &right);
        proof {
            assert(part =~= first + second);
            assert forall|x: usize| sorted@.contains(x) <==> part.contains(x) by {
                if first.contains(x) {
                    let at = choose|at: int| 0 <= at < first.len() && first[at] == x;
                    assert(part[at] == x);
                }
                if second.contains(x) {
                    let bt = choose|bt: int| 0 <= bt < second.len() && second[bt] == x;
                    assert(part[first.len() + bt] == x);
                }
                if part.contains(x) {
                    let k = choose|k: int| 0 <= k < part.len() && part[k] == x;
                    if k < first.len() {
                        assert(first[k] == x);
                    } else {
                        assert(second[k - first.len()] == x);
                    }
                }
            }
        }
        sorted
    }
}

/// The positions of the applicants who agreed to enrol, in the order in which
/// an allocation run processes them.
pub fn admission_order(applicants: &Vec<Applicant>) -> (order: Vec<usize>)
    ensures
        positions(order@) == processing_order(roster(applicants@)),
{
    let ghost apps = roster(applicants@);
    let mut agreed: Vec<usize> = Vec::new();
    let mut n: usize = 0;
    while n < applicants.len()
        invariant
            apps == roster(applicants@),
            0 <= n <= applicants@.len(),
            forall|k: int|
                0 <= k < agreed@.len() ==> #[trigger] agreed@[k] < n
                    && apps[agreed@[k] as int].agreed,
            forall|k: int, l: int| 0 <= k < l < agreed@.len() ==> agreed@[k] < agreed@[l],
            forall|i: int|
                0 <= i < n && (#[trigger] apps[i]).agreed ==> agreed@.contains(i as usize),
        decreases applicants@.len() - n,
    {
        if applicants[n].agreed {
            let ghost before = agreed@;
            agreed.push(n);
            assert forall|i: int|
                0 <= i < n + 1 && (#[trigger] apps[i]).agreed implies agreed@.contains(
                i as usize,
            ) by {
                lemma_push_contains(before, n, i as usize);
            }
        }
        n = n + 1;
    }
    let order = sort_ranked(applicants, &agreed, 0, agreed.len());
    proof {
        let listed = positions(order@);
        assert(agreed@.subrange(0, agreed@.len() as int) =~= agreed@);
        assert forall|k: int| 0 <= k < listed.len() implies 0 <= #[trigger] listed[k] < apps.len()
            && apps[listed[k]].agreed by {
            assert(order@.contains(order@[k]));
            let at = choose|at: int| 0 <= at < agreed@.len() && agreed@[at] == order@[k];
            assert(agreed@[at] < n);
        }
        assert forall|i: int|
            0 <= i < apps.len() && (#[trigger] apps[i]).agreed implies listed.contains(i) by {
            assert(order@.contains(i as usize));
            let at = choose|at: int| 0 <= at < order@.len() && order@[at] == i as usize;
            assert(listed[at] == i);
        }
        assert forall|k: int, l: int| 0 <= k < l < listed.len() implies precedes(
            apps,
            listed[k],
            listed[l],
        ) by {
            assert(precedes(apps, order@[k] as int, order@[l] as int));
        }
        lemma_processing_order(apps);
        lemma_processing_order_unique(apps, listed, processing_order(apps));
    }
    order
}

} // verus!
