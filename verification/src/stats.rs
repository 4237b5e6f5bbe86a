//! Fill levels, cutoffs and the breakdown by preference rank, derived from
//! the seats that the applicants hold.

use vstd::prelude::*;
use crate::allocation::{allocation, lemma_plan_length, seated, seats_taken};
use crate::counting::{
    tally, lemma_tally_bound, lemma_tally_le, lemma_tally_same, lemma_tally_some,
    lemma_tally_split, lemma_tally_witness,
};
use crate::guarantees::{
    lemma_capacity_respected, lemma_passed_over_means_full, lemma_rerun_changes_nothing,
    lemma_seats_are_wanted, lemma_seats_go_to_the_best, passed_over,
};
use crate::models::{Applicant, ApplicantView, ProgramStats, roster};
use crate::programs::{Program, ProgramTable, ProgramView, distinct_codes, sorted_by_code};
use crate::ranking::{positions, precedes};
use crate::text::code_before;

verus! {

/// The applicant holds a seat in `code`.
pub open spec fn has_seat_in(person: ApplicantView, code: Seq<char>) -> bool {
    person.current_program == Some(code)
}

/// The applicants of `apps`, by position, who hold a seat in `code`.
pub open spec fn holding(apps: Seq<ApplicantView>, code: Seq<char>) -> spec_fn(int) -> bool {
    |i: int| has_seat_in(apps[i], code)
}

/// The applicants of `apps`, by position, who name `code` at `rank`.
pub open spec fn wanting(apps: Seq<ApplicantView>, code: Seq<char>, rank: int) -> spec_fn(
    int,
) -> bool {
    |i: int| 0 <= rank < apps[i].priorities.len() && apps[i].priorities[rank] == code
}

/// The applicants of `apps`, by position, who hold a seat in `code` and name
/// it at `rank` for the first time.
pub open spec fn admitted_at(apps: Seq<ApplicantView>, code: Seq<char>, rank: int) -> spec_fn(
    int,
) -> bool {
    |i: int| has_seat_in(apps[i], code) && apps[i].lists_first_at(code, rank)
}

/// How many applicants hold a seat in `code`.
pub open spec fn filled(apps: Seq<ApplicantView>, code: Seq<char>) -> nat {
    tally(apps.len() as int, holding(apps, code))
}

/// How many applicants name `code` at `rank` (from 0), whether or not they
/// agreed to enrol.
pub open spec fn demand(apps: Seq<ApplicantView>, code: Seq<char>, rank: int) -> nat {
    tally(apps.len() as int, wanting(apps, code, rank))
}

/// How many applicants hold a seat in `code` that they first named at `rank`.
pub open spec fn admitted_via(apps: Seq<ApplicantView>, code: Seq<char>, rank: int) -> nat {
    tally(apps.len() as int, admitted_at(apps, code, rank))
}

/// `score` is the lowest total score among the first `n` applicants who hold a
/// seat in `code`, and 0 where none of them does.
pub open spec fn lowest_among(
    apps: Seq<ApplicantView>,
    n: int,
    code: Seq<char>,
    score: int,
) -> bool {
    if exists|i: int| 0 <= i < n && has_seat_in(#[trigger] apps[i], code) {
        &&& exists|i: int|
            0 <= i < n && has_seat_in(#[trigger] apps[i], code) && apps[i].total_score == score
        &&& forall|i: int|
            0 <= i < n && has_seat_in(#[trigger] apps[i], code) ==> apps[i].total_score >= score
    } else {
        score == 0
    }
}

/// `score` is the cutoff of `code`: the lowest total score among the
/// applicants seated there, and 0 where nobody is.
pub open spec fn is_cutoff(apps: Seq<ApplicantView>, code: Seq<char>, score: int) -> bool {
    lowest_among(apps, apps.len() as int, code, score)
}

/// `stat` reports on `program` what the seats and lists of `apps` give.
#[verifier::opaque]
pub open spec fn describes(
    stat: ProgramStats,
    apps: Seq<ApplicantView>,
    program: ProgramView,
) -> bool {
    &&& stat.program_code@ == program.code
    &&& stat.program_name@ == program.name
    &&& stat.places_total == program.capacity
    &&& stat.places_filled == filled(apps, program.code)
    &&& is_cutoff(apps, program.code, stat.passing_score as int)
    &&& stat.is_shortage == (filled(apps, program.code) < program.capacity)
    &&& stat.count_priority_1 == demand(apps, program.code, 0)
    &&& stat.count_priority_2 == demand(apps, program.code, 1)
    &&& stat.count_priority_3 == demand(apps, program.code, 2)
    &&& stat.count_priority_4 == demand(apps, program.code, 3)
    &&& stat.enrolled_priority_1 == admitted_via(apps, program.code, 0)
    &&& stat.enrolled_priority_2 == admitted_via(apps, program.code, 1)
    &&& stat.enrolled_priority_3 == admitted_via(apps, program.code, 2)
    &&& stat.enrolled_priority_4 == admitted_via(apps, program.code, 3)
}

/// Whether the list `prefs` names `code` at `rank`.
pub fn names_at(prefs: &Vec<String>, code: &String, rank: usize) -> (named: bool)
    ensures
        named == (rank < prefs@.len() && prefs@[rank as int]@ == code@),
{
    rank < prefs.len() && prefs[rank] == *code
}

/// The first rank at which the list `prefs` names `code`, if it does.
pub fn first_rank(prefs: &Vec<String>, code: &String) -> (rank: Option<usize>)
    ensures
        match rank {
            Some(r) => r < prefs@.len() && prefs@[r as int]@ == code@ && forall|earlier: int|
                0 <= earlier < r ==> (#[trigger] prefs@[earlier])@ != code@,
            None => forall|r: int| 0 <= r < prefs@.len() ==> (#[trigger] prefs@[r])@ != code@,
        },
{
    let mut r: usize = 0;
    while r < prefs.len()
        invariant
            0 <= r <= prefs@.len(),
            forall|earlier: int| 0 <= earlier < r ==> (#[trigger] prefs@[earlier])@ != code@,
        decreases prefs@.len() - r,
    {
        if prefs[r] == *code {
            return Some(r);
        }
        r = r + 1;
    }
    None
}

/// How the lowest score among the seated changes with one more applicant.
proof fn lemma_lowest_step(
    apps: Seq<ApplicantView>,
    k: int,
    code: Seq<char>,
    before: int,
    after: int,
)
    requires
        0 <= k < apps.len(),
        lowest_among(apps, k, code, before),
        after == if !has_seat_in(apps[k], code) {
            before
        } else if (forall|i: int| 0 <= i < k ==> !has_seat_in(#[trigger] apps[i], code))
            || apps[k].total_score < before {
            apps[k].total_score as int
        } else {
            before
        },
    ensures
        lowest_among(apps, k + 1, code, after),
{
    if has_seat_in(apps[k], code) {
        if exists|i: int| 0 <= i < k && has_seat_in(#[trigger] apps[i], code) {
            let i = choose|i: int|
                0 <= i < k && has_seat_in(#[trigger] apps[i], code) && apps[i].total_score
                    == before;
            if after == before {
                assert(0 <= i < k + 1 && has_seat_in(apps[i], code) && apps[i].total_score
                    == after);
            } else {
                assert(0 <= k < k + 1 && has_seat_in(apps[k], code) && apps[k].total_score
                    == after);
            }
        } else {
            assert(0 <= k < k + 1 && has_seat_in(apps[k], code) && apps[k].total_score == after);
        }
    } else {
        if exists|i: int| 0 <= i < k + 1 && has_seat_in(#[trigger] apps[i], code) {
            let i = choose|i: int| 0 <= i < k + 1 && has_seat_in(#[trigger] apps[i], code);
            assert(0 <= i < k && has_seat_in(apps[i], code));
            let j = choose|j: int|
                0 <= j < k && has_seat_in(#[trigger] apps[j], code) && apps[j].total_score
                    == before;
            assert(0 <= j < k + 1 && has_seat_in(apps[j], code) && apps[j].total_score == after);
        }
    }
}

/// The statistics of one program.
pub fn program_stats(applicants: &Vec<Applicant>, program: &Program) -> (stat: ProgramStats)
    requires
        applicants@.len() <= i32::MAX,
        program.capacity <= i32::MAX,
    ensures
        describes(stat, roster(applicants@), program@),
{
    let ghost apps = roster(applicants@);
    let ghost code = program.code@;
    let mut seats: i32 = 0;
    let mut lowest: i32 = 0;
    let mut want_1: i32 = 0;
    let mut want_2: i32 = 0;
    let mut want_3: i32 = 0;
    let mut want_4: i32 = 0;
    let mut got_1: i32 = 0;
    let mut got_2: i32 = 0;
    let mut got_3: i32 = 0;
    let mut got_4: i32 = 0;
    let mut k: usize = 0;
    while k < applicants.len()
        invariant
            apps == roster(applicants@),
            code == program.code@,
            applicants@.len() <= i32::MAX,
            0 <= k <= applicants@.len(),
            seats == tally(k as int, holding(apps, code)),
            lowest_among(apps, k as int, code, lowest as int),
            want_1 == tally(k as int, wanting(apps, code, 0)),
            want_2 == tally(k as int, wanting(apps, code, 1)),
            want_3 == tally(k as int, wanting(apps, code, 2)),
            want_4 == tally(k as int, wanting(apps, code, 3)),
            got_1 == tally(k as int, admitted_at(apps, code, 0)),
            got_2 == tally(k as int, admitted_at(apps, code, 1)),
            got_3 == tally(k as int, admitted_at(apps, code, 2)),
            got_4 == tally(k as int, admitted_at(apps, code, 3)),
        decreases applicants@.len() - k,
    {
        let person = &applicants[k];
        proof {
            assert(apps[k as int] == person@);
            lemma_tally_bound(k as int, holding(apps, code));
            lemma_tally_bound(k as int, wanting(apps, code, 0));
            lemma_tally_bound(k as int, wanting(apps, code, 1));
            lemma_tally_bound(k as int, wanting(apps, code, 2));
            lemma_tally_bound(k as int, wanting(apps, code, 3));
            lemma_tally_bound(k as int, admitted_at(apps, code, 0));
            lemma_tally_bound(k as int, admitted_at(apps, code, 1));
            lemma_tally_bound(k as int, admitted_at(apps, code, 2));
            lemma_tally_bound(k as int, admitted_at(apps, code, 3));
        }
        if names_at(&person.priorities, &program.code, 0) {
            want_1 = want_1 + 1;
        }
        if names_at(&person.priorities, &program.code, 1) {
            want_2 = want_2 + 1;
        }
        if names_at(&person.priorities, &program.code, 2) {
            want_3 = want_3 + 1;
        }
        if names_at(&person.priorities, &program.code, 3) {
            want_4 = want_4 + 1;
        }
        let here = match &person.current_program {
            Some(held) => *held == program.code,
            None => false,
        };
        assert(here == holding(apps, code)(k as int));
        let ghost old_lowest = lowest;
        if here {
            if seats == 0 || person.total_score < lowest {
                lowest = person.total_score;
            }
            seats = seats + 1;
            let first = first_rank(&person.priorities, &program.code);
            proof {
                match first {
                    Some(r) => {
                        assert(person@.lists_first_at(code, r as int));
                    },
                    None => {},
                }
            }
            match first {
                Some(0) => {
                    got_1 = got_1 + 1;
                },
                Some(1) => {
                    got_2 = got_2 + 1;
                },
                Some(2) => {
                    got_3 = got_3 + 1;
                },
                Some(3) => {
                    got_4 = got_4 + 1;
                },
                _ => {},
            }
        }
        proof {
            if tally(k as int, holding(apps, code)) == 0 {
                assert forall|i: int| 0 <= i < k implies !has_seat_in(#[trigger] apps[i], code) by {
                    if has_seat_in(apps[i], code) {
                        lemma_tally_some(k as int, holding(apps, code), i);
                    }
                }
            } else {
                let w = lemma_tally_witness(k as int, holding(apps, code));
                assert(has_seat_in(apps[w], code));
            }
            lemma_lowest_step(apps, k as int, code, old_lowest as int, lowest as int);
        }
        k = k + 1;
    }
    let total = program.capacity as i32;
    proof {
        reveal(describes);
    }
    ProgramStats {
        program_name: program.name.clone(),
        program_code: program.code.clone(),
        places_total: total,
        places_filled: seats,
        passing_score: lowest,
        is_shortage: seats < total,
        count_priority_1: want_1,
        count_priority_2: want_2,
        count_priority_3: want_3,
        count_priority_4: want_4,
        enrolled_priority_1: got_1,
        enrolled_priority_2: got_2,
        enrolled_priority_3: got_3,
        enrolled_priority_4: got_4,
    }
}

/// One of `stats` reports on `program`.
pub open spec fn has_report(
    stats: Seq<ProgramStats>,
    apps: Seq<ApplicantView>,
    program: ProgramView,
) -> bool {
    exists|j: int| 0 <= j < stats.len() && describes(#[trigger] stats[j], apps, program)
}

/// `stats` has a report for each program of `programs` and no other, and is
/// sorted by program code.
pub open spec fn reports_on(
    stats: Seq<ProgramStats>,
    apps: Seq<ApplicantView>,
    programs: Seq<ProgramView>,
) -> bool {
    &&& stats.len() == programs.len()
    &&& forall|p: int| 0 <= p < programs.len() ==> has_report(stats, apps, #[trigger] programs[p])
    &&& forall|j: int, l: int|
        0 <= j < l < stats.len() ==> code_before(
            (#[trigger] stats[j]).program_code@,
            (#[trigger] stats[l]).program_code@,
        )
}

/// The statistics of every program of the table, sorted by program code.
pub fn get_detailed_stats(applicants: &Vec<Applicant>, table: &ProgramTable) -> (stats: Vec<
    ProgramStats,
>)
    requires
        table.wf(),
        applicants@.len() <= i32::MAX,
    ensures
        reports_on(stats@, roster(applicants@), table@),
{
    let ghost apps = roster(applicants@);
    let order = table.by_code();
    let ghost listed = positions(order@);
    let mut stats: Vec<ProgramStats> = Vec::new();
    let mut j: usize = 0;
    while j < order.len()
        invariant
            table.wf(),
            apps == roster(applicants@),
            applicants@.len() <= i32::MAX,
            listed == positions(order@),
            sorted_by_code(table@, listed),
            0 <= j <= order@.len(),
            stats@.len() == j,
            forall|l: int|
                0 <= l < j ==> describes(#[trigger] stats@[l], apps, table@[listed[l]]),
        decreases order@.len() - j,
    {
        assert(listed[j as int] == order@[j as int]);
        let stat = program_stats(applicants, table.get(order[j]));
        stats.push(stat);
        j = j + 1;
    }
    proof {
        assert forall|p: int| 0 <= p < table@.len() implies has_report(
            stats@,
            apps,
            #[trigger] table@[p],
        ) by {
            assert(listed.contains(p));
            let l = choose|l: int| 0 <= l < listed.len() && listed[l] == p;
            assert(describes(stats@[l], apps, table@[listed[l]]));
        }
        assert forall|j: int, l: int| 0 <= j < l < stats@.len() implies code_before(
            (#[trigger] stats@[j]).program_code@,
            (#[trigger] stats@[l]).program_code@,
        ) by {
            reveal(describes);
            assert(describes(stats@[j], apps, table@[listed[j]]));
            assert(describes(stats@[l], apps, table@[listed[l]]));
            assert(code_before(table@[listed[j]].code, table@[listed[l]].code));
        }
    }
    stats
}

/// A program's count of admissions by a rank is within its demand at that
/// rank: whoever holds a seat first named at a rank names the program there.
pub proof fn lemma_admitted_within_demand(apps: Seq<ApplicantView>, code: Seq<char>, rank: int)
    ensures
        admitted_via(apps, code, rank) <= demand(apps, code, rank),
{
    lemma_tally_le(apps.len() as int, admitted_at(apps, code, rank), wanting(apps, code, rank));
}

/// Every holder of a seat in `code` names it within the first four ranks.
pub open spec fn seats_within_four_ranks(apps: Seq<ApplicantView>, code: Seq<char>) -> bool {
    forall|i: int|
        0 <= i < apps.len() && has_seat_in(#[trigger] apps[i], code) ==> exists|rank: int|
            0 <= rank < 4 && apps[i].lists_first_at(code, rank)
}

/// Where every holder of a seat names the program within the first four
/// ranks, the admissions by the four ranks add up to the seats filled.
pub proof fn lemma_admitted_add_up(apps: Seq<ApplicantView>, code: Seq<char>)
    requires
        seats_within_four_ranks(apps, code),
    ensures
        admitted_via(apps, code, 0) + admitted_via(apps, code, 1) + admitted_via(apps, code, 2)
            + admitted_via(apps, code, 3) == filled(apps, code),
{
    let n = apps.len() as int;
    let first = admitted_at(apps, code, 0);
    let second = admitted_at(apps, code, 1);
    let third = admitted_at(apps, code, 2);
    let fourth = admitted_at(apps, code, 3);
    let two = |i: int| first(i) || second(i);
    let three = |i: int| two(i) || third(i);
    let four = |i: int| three(i) || fourth(i);
    lemma_tally_split(n, two, first, second);
    lemma_tally_split(n, three, two, third);
    lemma_tally_split(n, four, three, fourth);
    assert forall|i: int| 0 <= i < n implies #[trigger] four(i) == holding(apps, code)(i) by {
        if has_seat_in(apps[i], code) {
            let rank = choose|rank: int| 0 <= rank < 4 && apps[i].lists_first_at(code, rank);
            assert(rank == 0 || rank == 1 || rank == 2 || rank == 3);
        }
    }
    lemma_tally_same(n, four, holding(apps, code));
}

/// A list that names `code` names it somewhere for the first time.
pub proof fn lemma_first_listing(person: ApplicantView, code: Seq<char>) -> (rank: int)
    requires
        person.priorities.contains(code),
    ensures
        person.lists_first_at(code, rank),
{
    let some = choose|r: int| 0 <= r < person.priorities.len() && person.priorities[r] == code;
    lemma_first_below(person, code, some)
}

/// The first rank at or below `upper` at which the list names `code`.
proof fn lemma_first_below(person: ApplicantView, code: Seq<char>, upper: int) -> (rank: int)
    requires
        0 <= upper < person.priorities.len(),
        person.priorities[upper] == code,
    ensures
        person.lists_first_at(code, rank),
        rank <= upper,
    decreases upper,
{
    if exists|r: int| 0 <= r < upper && person.priorities[r] == code {
        let r = choose|r: int| 0 <= r < upper && person.priorities[r] == code;
        lemma_first_below(person, code, r)
    } else {
        upper
    }
}

/// The seats filled after `plan` is in place are the seats that it takes.
pub proof fn lemma_filled_is_seats_taken(
    apps: Seq<ApplicantView>,
    plan: Seq<Option<Seq<char>>>,
    code: Seq<char>,
)
    requires
        plan.len() == apps.len(),
    ensures
        filled(seated(apps, plan), code) == seats_taken(plan, code),
{
    let after = seated(apps, plan);
    lemma_tally_same(apps.len() as int, holding(after, code), |i: int| plan[i] == Some(code));
}

/// After a run, no program on offer has more seats filled than it has, and
/// where no list is longer than four, the admissions by the four ranks add up
/// to the seats filled.
pub proof fn lemma_run_accounts(apps: Seq<ApplicantView>, programs: Seq<ProgramView>, p: int)
    requires
        distinct_codes(programs),
        0 <= p < programs.len(),
    ensures
        ({
            let after = seated(apps, allocation(apps, programs));
            let code = programs[p].code;
            &&& filled(after, code) <= programs[p].capacity
            &&& (forall|i: int| 0 <= i < apps.len() ==> (#[trigger] apps[i]).priorities.len() <= 4)
                ==> admitted_via(after, code, 0) + admitted_via(after, code, 1) + admitted_via(
                after,
                code,
                2,
            ) + admitted_via(after, code, 3) == filled(after, code)
        }),
{
    let plan = allocation(apps, programs);
    let after = seated(apps, plan);
    let code = programs[p].code;
    lemma_plan_length(apps, programs);
    lemma_filled_is_seats_taken(apps, plan, code);
    lemma_capacity_respected(apps, programs, p);
    if forall|i: int| 0 <= i < apps.len() ==> (#[trigger] apps[i]).priorities.len() <= 4 {
        assert forall|i: int| 0 <= i < after.len() && has_seat_in(
            #[trigger] after[i],
            code,
        ) implies exists|rank: int| 0 <= rank < 4 && after[i].lists_first_at(code, rank) by {
            lemma_seats_are_wanted(apps, programs, i);
            assert(apps[i].priorities.len() <= 4);
            let rank = lemma_first_listing(after[i], code);
            assert(0 <= rank < 4 && after[i].lists_first_at(code, rank));
        }
        lemma_admitted_add_up(after, code);
    }
}

/// A program has one cutoff only.
pub proof fn lemma_cutoff_unique(apps: Seq<ApplicantView>, code: Seq<char>, one: int, other: int)
    requires
        is_cutoff(apps, code, one),
        is_cutoff(apps, code, other),
    ensures
        one == other,
{
}

/// The cutoff of a program is the total score of one who holds a seat there,
/// and no holder of a seat there has a lower one.
pub proof fn lemma_cutoff_is_lowest(
    apps: Seq<ApplicantView>,
    code: Seq<char>,
    score: int,
    holder: int,
)
    requires
        is_cutoff(apps, code, score),
        0 <= holder < apps.len(),
        has_seat_in(apps[holder], code),
    ensures
        apps[holder].total_score >= score,
        exists|i: int|
            0 <= i < apps.len() && has_seat_in(#[trigger] apps[i], code) && apps[i].total_score
                == score,
{
}

/// After a run, the cutoff of a program with seats is at least the total
/// score of every applicant who was passed over for it: whoever agreed,
/// named the program and ended neither there nor in a program named earlier.
pub proof fn lemma_cutoff_above_passed_over(
    apps: Seq<ApplicantView>,
    programs: Seq<ProgramView>,
    p: int,
    score: int,
    passed: int,
    rank: int,
)
    requires
        distinct_codes(programs),
        0 <= p < programs.len(),
        programs[p].capacity > 0,
        is_cutoff(seated(apps, allocation(apps, programs)), programs[p].code, score),
        passed_over(apps, allocation(apps, programs), passed, programs[p].code, rank),
    ensures
        score >= apps[passed].total_score,
        filled(seated(apps, allocation(apps, programs)), programs[p].code)
            == programs[p].capacity,
{
    let plan = allocation(apps, programs);
    let after = seated(apps, plan);
    let code = programs[p].code;
    lemma_seats_are_wanted(apps, programs, passed);
    lemma_filled_is_seats_taken(apps, plan, code);
    lemma_passed_over_means_full(apps, programs, p, passed, rank);
    let w = lemma_tally_witness(apps.len() as int, holding(after, code));
    assert(has_seat_in(after[w], code));
    let lowest = choose|i: int|
        0 <= i < after.len() && has_seat_in(#[trigger] after[i], code) && after[i].total_score
            == score;
    assert(plan[lowest] == Some(code));
    lemma_seats_go_to_the_best(apps, programs, p, passed, rank, lowest);
}

/// The cutoff of a program is the total score of the holder of a seat who
/// comes last in processing order: where every other holder precedes one of
/// them, that one's total score is the cutoff.
pub proof fn lemma_cutoff_is_last_admitted(apps: Seq<ApplicantView>, code: Seq<char>, last: int)
    requires
        0 <= last < apps.len(),
        has_seat_in(apps[last], code),
        forall|i: int|
            0 <= i < apps.len() && i != last && has_seat_in(#[trigger] apps[i], code) ==> precedes(
                apps,
                i,
                last,
            ),
    ensures
        is_cutoff(apps, code, apps[last].total_score as int),
{
    assert forall|i: int| 0 <= i < apps.len() && has_seat_in(
        #[trigger] apps[i],
        code,
    ) implies apps[i].total_score >= apps[last].total_score by {
        if i != last {
            assert(precedes(apps, i, last));
        }
    }
}

/// A second run leaves the statistics as they were: whatever reports the
/// outcome of the first run has, the outcome of the second has too.
pub proof fn lemma_rerun_same_reports(
    apps: Seq<ApplicantView>,
    programs: Seq<ProgramView>,
    stats: Seq<ProgramStats>,
)
    ensures
        ({
            let first = seated(apps, allocation(apps, programs));
            let second = seated(first, allocation(first, programs));
            reports_on(stats, second, programs) == reports_on(stats, first, programs)
        }),
{
    lemma_rerun_changes_nothing(apps, programs);
}

} // verus!
