//! How many applicants name exactly a given set of programs.

use vstd::prelude::*;
use vstd::string::*;
use crate::counting::{tally, lemma_tally_bound};
use crate::models::{Applicant, ApplicantView, roster, texts};

verus! {

/// The applicants of `apps`, by position, whose preferences are, as a set,
/// exactly the codes of `subset`.
pub open spec fn choosing(apps: Seq<ApplicantView>, subset: Seq<Seq<char>>) -> spec_fn(int) -> bool {
    |i: int| apps[i].priorities.to_set() == subset.to_set()
}

/// How many applicants name the codes of `subset` and no other, in whatever
/// order and however often, whether or not they agreed or hold a seat.
pub open spec fn overlap(apps: Seq<ApplicantView>, subset: Seq<Seq<char>>) -> nat {
    tally(apps.len() as int, choosing(apps, subset))
}

/// The counts for every set of two, three or four of the programs ПМ, ИВТ,
/// ИТСС and ИБ.
#[derive(Clone, Copy, Debug, PartialEq, Eq)]
pub struct IntersectionStats {
    pub pm_ivt: usize,
    pub pm_itss: usize,
    pub pm_ib: usize,
    pub ivt_itss: usize,
    pub ivt_ib: usize,
    pub itss_ib: usize,
    pub pm_ivt_itss: usize,
    pub pm_ivt_ib: usize,
    pub ivt_itss_ib: usize,
    pub pm_itss_ib: usize,
    pub all_four: usize,
}

/// Whether `item` is one of `list`.
pub fn contains_text(list: &Vec<String>, item: &String) -> (found: bool)
    ensures
        found == texts(list@).contains(item@),
{
    let mut k: usize = 0;
    while k < list.len()
        invariant
            0 <= k <= list@.len(),
            forall|j: int| 0 <= j < k ==> (#[trigger] texts(list@)[j]) != item@,
        decreases list@.len() - k,
    {
        if list[k] == *item {
            assert(texts(list@)[k as int] == item@);
            return true;
        }
        k = k + 1;
    }
    false
}

/// Whether every one of `list` is one of `among`.
pub fn all_among(list: &Vec<String>, among: &Vec<String>) -> (all: bool)
    ensures
        all == (forall|j: int|
            0 <= j < list@.len() ==> texts(among@).contains(#[trigger] texts(list@)[j])),
{
    let mut k: usize = 0;
    while k < list.len()
        invariant
            0 <= k <= list@.len(),
            forall|j: int| 0 <= j < k ==> texts(among@).contains(#[trigger] texts(list@)[j]),
        decreases list@.len() - k,
    {
        if !contains_text(among, &list[k]) {
            assert(!texts(among@).contains(texts(list@)[k as int]));
            return false;
        }
        k = k + 1;
    }
    true
}

/// Whether the preferences `prefs` are, as a set, exactly the codes of `subset`.
pub fn names_exactly(prefs: &Vec<String>, subset: &Vec<String>) -> (same: bool)
    ensures
        same == (texts(prefs@).to_set() == texts(subset@).to_set()),
{
    let ghost left = texts(prefs@);
    let ghost right = texts(subset@);
    let same = all_among(prefs, subset) && all_among(subset, prefs);
    proof {
        if same {
            assert forall|code: Seq<char>| left.contains(code) <==> right.contains(code) by {
                if left.contains(code) {
                    let j = choose|j: int| 0 <= j < left.len() && left[j] == code;
                    assert(right.contains(left[j]));
                }
                if right.contains(code) {
                    let j = choose|j: int| 0 <= j < right.len() && right[j] == code;
                    assert(left.contains(right[j]));
                }
            }
            assert(left.to_set() =~= right.to_set());
        } else {
            if left.to_set() == right.to_set() {
                assert forall|j: int| 0 <= j < left.len() implies right.contains(
                    #[trigger] left[j],
                ) by {
                    assert(left.contains(left[j]));
                    assert(left.to_set().contains(left[j]));
                }
                assert forall|j: int| 0 <= j < right.len() implies left.contains(
                    #[trigger] right[j],
                ) by {
                    assert(right.contains(right[j]));
                    assert(right.to_set().contains(right[j]));
                }
            }
        }
    }
    same
}

/// Counts the applicants whose preferences are, as a set, exactly the codes
/// of `subset`.
pub fn count_overlap(applicants: &Vec<Applicant>, subset: &Vec<String>) -> (count: usize)
    ensures
        count == overlap(roster(applicants@), texts(subset@)),
{
    let ghost apps = roster(applicants@);
    let ghost wanted = texts(subset@);
    let mut count: usize = 0;
    let mut k: usize = 0;
    while k < applicants.len()
        invariant
            apps == roster(applicants@),
            wanted == texts(subset@),
            0 <= k <= applicants@.len(),
            count == tally(k as int, choosing(apps, wanted)),
        decreases applicants@.len() - k,
    {
        proof {
            lemma_tally_bound(k as int, choosing(apps, wanted));
            assert(apps[k as int].priorities == texts(applicants@[k as int].priorities@));
        }
        if names_exactly(&applicants[k].priorities, subset) {
            count = count + 1;
        }
        k = k + 1;
    }
    count
}

/// The list of two codes.
fn pair(a: &str, b: &str) -> (list: Vec<String>)
    ensures
        texts(list@) == seq![a@, b@],
{
    let mut list: Vec<String> = Vec::new();
    list.push(String::from_str(a));
    list.push(String::from_str(b));
    assert(texts(list@) =~= seq![a@, b@]);
    list
}

/// The list of three codes.
fn triple(a: &str, b: &str, c: &str) -> (list: Vec<String>)
    ensures
        texts(list@) == seq![a@, b@, c@],
{
    let mut list: Vec<String> = Vec::new();
    list.push(String::from_str(a));
    list.push(String::from_str(b));
    list.push(String::from_str(c));
    assert(texts(list@) =~= seq![a@, b@, c@]);
    list
}

/// For every set of two, three or four of the programs ПМ, ИВТ, ИТСС and ИБ,
/// the number of applicants who name exactly that set. An applicant who
/// names fewer than two programs, or one that is not among the four, is
/// counted nowhere.
pub fn calculate_intersections(applicants: &Vec<Applicant>) -> (stats: IntersectionStats)
    ensures
        stats.pm_ivt == overlap(roster(applicants@), seq!["ПМ"@, "ИВТ"@]),
        stats.pm_itss == overlap(roster(applicants@), seq!["ПМ"@, "ИТСС"@]),
        stats.pm_ib == overlap(roster(applicants@), seq!["ПМ"@, "ИБ"@]),
        stats.ivt_itss == overlap(roster(applicants@), seq!["ИВТ"@, "ИТСС"@]),
        stats.ivt_ib == overlap(roster(applicants@), seq!["ИВТ"@, "ИБ"@]),
        stats.itss_ib == overlap(roster(applicants@), seq!["ИТСС"@, "ИБ"@]),
        stats.pm_ivt_itss == overlap(roster(applicants@), seq!["ПМ"@, "ИВТ"@, "ИТСС"@]),
        stats.pm_ivt_ib == overlap(roster(applicants@), seq!["ПМ"@, "ИВТ"@, "ИБ"@]),
        stats.ivt_itss_ib == overlap(roster(applicants@), seq!["ИВТ"@, "ИТСС"@, "ИБ"@]),
        stats.pm_itss_ib == overlap(roster(applicants@), seq!["ПМ"@, "ИТСС"@, "ИБ"@]),
        stats.all_four == overlap(roster(applicants@), seq!["ПМ"@, "ИВТ"@, "ИТСС"@, "ИБ"@]),
{
    let mut all: Vec<String> = Vec::new();
    all.push(String::from_str("ПМ"));
    all.push(String::from_str("ИВТ"));
    all.push(String::from_str("ИТСС"));
    all.push(String::from_str("ИБ"));
    assert(texts(all@) =~= seq!["ПМ"@, "ИВТ"@, "ИТСС"@, "ИБ"@]);
    IntersectionStats {
        pm_ivt: count_overlap(applicants, &pair("ПМ", "ИВТ")),
        pm_itss: count_overlap(applicants, &pair("ПМ", "ИТСС")),
        pm_ib: count_overlap(applicants, &pair("ПМ", "ИБ")),
        ivt_itss: count_overlap(applicants, &pair("ИВТ", "ИТСС")),
        ivt_ib: count_overlap(applicants, &pair("ИВТ", "ИБ")),
        itss_ib: count_overlap(applicants, &pair("ИТСС", "ИБ")),
        pm_ivt_itss: count_overlap(applicants, &triple("ПМ", "ИВТ", "ИТСС")),
        pm_ivt_ib: count_overlap(applicants, &triple("ПМ", "ИВТ", "ИБ")),
        ivt_itss_ib: count_overlap(applicants, &triple("ИВТ", "ИТСС", "ИБ")),
        pm_itss_ib: count_overlap(applicants, &triple("ПМ", "ИТСС", "ИБ")),
        all_four: count_overlap(applicants, &all),
    }
}

/// An applicant is counted for one set at most: two sets that both take the
/// same applicant hold the same codes.
pub proof fn lemma_counted_once(
    apps: Seq<ApplicantView>,
    one: Seq<Seq<char>>,
    other: Seq<Seq<char>>,
    i: int,
)
    requires
        choosing(apps, one)(i),
        choosing(apps, other)(i),
    ensures
        one.to_set() == other.to_set(),
{
}

} // verus!
