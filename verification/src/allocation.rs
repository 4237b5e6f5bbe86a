//! The allocation run: seats are handed out in processing order, each
//! applicant taking the first program of their list that still has room.

use vstd::prelude::*;
use crate::counting::{tally, lemma_tally_gain, lemma_tally_same, lemma_tally_none};
use crate::models::{Applicant, ApplicantView, optional_text, roster};
use crate::programs::{ProgramTable, ProgramView};
use crate::ranking::{
    admission_order, is_processing_order, lemma_processing_order, positions, precedes,
    processing_order,
};

verus! {

/// The number of applicants that `plan` seats in the program `code`.
pub open spec fn seats_taken(plan: Seq<Option<Seq<char>>>, code: Seq<char>) -> nat {
    tally(plan.len() as int, |i: int| plan[i] == Some(code))
}

/// `code` is a program on offer of which `plan` leaves a seat free.
pub open spec fn has_room(
    programs: Seq<ProgramView>,
    plan: Seq<Option<Seq<char>>>,
    code: Seq<char>,
) -> bool {
    exists|p: int|
        0 <= p < programs.len() && (#[trigger] programs[p]).code == code && seats_taken(plan, code)
            < programs[p].capacity
}

/// The first program of `prefs` that has room under `plan`, if there is one.
pub open spec fn choice(
    programs: Seq<ProgramView>,
    plan: Seq<Option<Seq<char>>>,
    prefs: Seq<Seq<char>>,
) -> Option<Seq<char>>
    decreases prefs.len(),
{
    if prefs.len() == 0 {
        None
    } else if has_room(programs, plan, prefs[0]) {
        Some(prefs[0])
    } else {
        choice(programs, plan, prefs.drop_first())
    }
}

/// The plan after the applicants at the positions in `order` have chosen, one
/// after the other, starting from a plan that seats nobody.
pub open spec fn seating(
    apps: Seq<ApplicantView>,
    programs: Seq<ProgramView>,
    order: Seq<int>,
) -> Seq<Option<Seq<char>>>
    decreases order.len(),
{
    if order.len() == 0 {
        Seq::new(apps.len(), |i: int| None::<Seq<char>>)
    } else {
        let earlier = seating(apps, programs, order.drop_last());
        let next = order.last();
        earlier.update(next, choice(programs, earlier, apps[next].priorities))
    }
}

/// The outcome of an allocation run: for each position of `apps` the program
/// that seats the applicant there, or none.
pub open spec fn allocation(apps: Seq<ApplicantView>, programs: Seq<ProgramView>) -> Seq<
    Option<Seq<char>>,
> {
    seating(apps, programs, processing_order(apps))
}

/// The applicants with the seats of `plan` in place of those they held.
pub open spec fn seated(apps: Seq<ApplicantView>, plan: Seq<Option<Seq<char>>>) -> Seq<
    ApplicantView,
> {
    Seq::new(apps.len(), |i: int| apps[i].placed(plan[i]))
}

/// Seating an applicant who had no seat adds one to the count of the program
/// that takes them and leaves the other counts as they were.
pub proof fn lemma_seat_counts(
    plan: Seq<Option<Seq<char>>>,
    at: int,
    taken: Seq<char>,
    code: Seq<char>,
)
    requires
        0 <= at < plan.len(),
        plan[at].is_none(),
    ensures
        seats_taken(plan.update(at, Some(taken)), code) == seats_taken(plan, code) + if code
            == taken {
            1nat
        } else {
            0nat
        },
{
    let next = plan.update(at, Some(taken));
    let before = |i: int| plan[i] == Some(code);
    let after = |i: int| next[i] == Some(code);
    if code == taken {
        lemma_tally_gain(plan.len() as int, before, after, at);
    } else {
        lemma_tally_same(plan.len() as int, before, after);
    }
}

/// A plan that seats nobody has taken no seat.
pub proof fn lemma_empty_plan(n: nat, code: Seq<char>)
    ensures
        seats_taken(Seq::new(n, |i: int| None::<Seq<char>>), code) == 0,
{
    let plan = Seq::new(n, |i: int| None::<Seq<char>>);
    lemma_tally_none(n as int, |i: int| plan[i] == Some(code));
}

/// The view of a plan: for each position the code of the program, or none.
pub open spec fn plan_view(plan: Seq<Option<String>>) -> Seq<Option<Seq<char>>> {
    Seq::new(plan.len(), |i: int| optional_text(plan[i]))
}

/// Computes the outcome of an allocation run and changes nothing: for each
/// position of `applicants` the program that seats the applicant there, or
/// none. The applicants who agreed to enrol are taken in processing order,
/// each into the first program of their list that is on offer and not yet
/// full; the seats that they hold at the start play no part.
pub fn allocate(applicants: &Vec<Applicant>, table: &ProgramTable) -> (seats: Vec<Option<String>>)
    requires
        table.wf(),
    ensures
        plan_view(seats@) == allocation(roster(applicants@), table@),
{
    let ghost apps = roster(applicants@);
    let order = admission_order(applicants);
    let ghost listed = positions(order@);
    proof {
        lemma_processing_order(apps);
    }
    let mut seats: Vec<Option<String>> = Vec::new();
    let mut i: usize = 0;
    while i < applicants.len()
        invariant
            0 <= i <= applicants@.len(),
            seats@.len() == i,
            forall|j: int| 0 <= j < i ==> (#[trigger] seats@[j]).is_none(),
        decreases applicants@.len() - i,
    {
        seats.push(None);
        i = i + 1;
    }
    let mut filled: Vec<usize> = Vec::new();
    let mut p: usize = 0;
    while p < table.len()
        invariant
            0 <= p <= table@.len(),
            filled@.len() == p,
            forall|q: int| 0 <= q < p ==> #[trigger] filled@[q] == 0,
        decreases table@.len() - p,
    {
        filled.push(0);
        p = p + 1;
    }
    let ghost mut plan: Seq<Option<Seq<char>>> = Seq::new(apps.len(), |i: int| None::<Seq<char>>);
    proof {
        assert forall|q: int| 0 <= q < table@.len() implies #[trigger] filled@[q] == seats_taken(
            plan,
            table@[q].code,
        ) by {
            lemma_empty_plan(apps.len(), table@[q].code);
        }
        assert(listed.take(0) =~= Seq::<int>::empty());
        assert(plan_view(seats@) =~= plan);
    }
    let mut k: usize = 0;
    while k < order.len()
        invariant
            table.wf(),
            apps == roster(applicants@),
            is_processing_order(apps, listed),
            listed == positions(order@),
            seats@.len() == apps.len(),
            0 <= k <= order@.len(),
            plan == seating(apps, table@, listed.take(k as int)),
            plan_view(seats@) == plan,
            filled@.len() == table@.len(),
            forall|q: int|
                0 <= q < table@.len() ==> #[trigger] filled@[q] == seats_taken(
                    plan,
                    table@[q].code,
                ),
            forall|j: int|
                0 <= j < plan.len() && (#[trigger] plan[j]).is_some() ==> exists|m: int|
                    0 <= m < k && listed[m] == j,
        decreases order@.len() - k,
    {
        let i = order[k];
        assert(listed[k as int] == i);
        assert(0 <= i < apps.len());
        let ghost prefs = apps[i as int].priorities;
        assert(prefs.skip(0) =~= prefs);
        let person = &applicants[i];
        let mut r: usize = 0;
        let mut found: Option<usize> = None;
        while r < person.priorities.len() && found.is_none()
            invariant
                table.wf(),
                prefs == person@.priorities,
                0 <= r <= prefs.len(),
                filled@.len() == table@.len(),
                forall|q: int|
                    0 <= q < table@.len() ==> #[trigger] filled@[q] == seats_taken(
                        plan,
                        table@[q].code,
                    ),
                found.is_none() ==> choice(table@, plan, prefs) == choice(
                    table@,
                    plan,
                    prefs.skip(r as int),
                ),
                match found {
                    Some(p) => r < prefs.len() && p < table@.len() && table@[p as int].code
                        == prefs[r as int] && filled@[p as int] < table@[p as int].capacity
                        && choice(table@, plan, prefs) == Some(prefs[r as int]),
                    None => true,
                },
            decreases prefs.len() - r + if found.is_none() { 1int } else { 0int },
        {
            let code = &person.priorities[r];
            assert(code@ == prefs[r as int]);
            let ghost rest = prefs.skip(r as int);
            assert(rest[0] == prefs[r as int]);
            assert(rest.drop_first() =~= prefs.skip(r + 1));
            match table.position(code) {
                Some(p) => {
                    assert(filled@[p as int] == seats_taken(plan, table@[p as int].code));
                    if filled[p] < table.get(p).capacity {
                        found = Some(p);
                        assert(has_room(table@, plan, prefs[r as int]));
                    } else {
                        assert(!has_room(table@, plan, prefs[r as int]));
                    }
                },
                None => {
                    assert(!has_room(table@, plan, prefs[r as int]));
                },
            }
            if found.is_none() {
                r = r + 1;
            }
        }
        proof {
            assert(listed.take(k + 1).drop_last() =~= listed.take(k as int));
            assert(listed.take(k + 1).last() == i);
            if plan[i as int].is_some() {
                let m = choose|m: int| 0 <= m < k && listed[m] == i;
                assert(precedes(apps, listed[m], listed[k as int]));
            }
        }
        match found {
            Some(p) => {
                let code = person.priorities[r].clone();
                proof {
                    assert forall|q: int| 0 <= q < table@.len() implies seats_taken(
                        plan.update(i as int, Some(code@)),
                        #[trigger] table@[q].code,
                    ) == filled@[q] + if q == p {
                        1int
                    } else {
                        0int
                    } by {
                        lemma_seat_counts(plan, i as int, code@, table@[q].code);
                    }
                    plan = plan.update(i as int, Some(code@));
                }
                seats.set(i, Some(code));
                let taken = filled[p];
                filled.set(p, taken + 1);
                assert(plan_view(seats@) =~= plan);
            },
            None => {
                assert(prefs.skip(r as int).len() == 0);
                assert(plan.update(i as int, None) =~= plan);
            },
        }
        proof {
            assert forall|j: int| 0 <= j < plan.len() && (#[trigger] plan[j]).is_some() implies exists|
                m: int,
            |
                0 <= m < k + 1 && listed[m] == j by {
                if j == i {
                    assert(listed[k as int] == j);
                } else {
                    let m = choose|m: int| 0 <= m < k && listed[m] == j;
                    assert(0 <= m < k + 1 && listed[m] == j);
                }
            }
        }
        k = k + 1;
    }
    proof {
        assert(listed.take(k as int) =~= listed);
    }
    seats
}

/// Runs the allocation in place: every seat held before is given up, and
/// each applicant gets the seat that `allocate` finds for them.
pub fn recalculate_admissions(applicants: &mut Vec<Applicant>, table: &ProgramTable)
    requires
        table.wf(),
    ensures
        roster(final(applicants)@) == seated(
            roster(old(applicants)@),
            allocation(roster(old(applicants)@), table@),
        ),
{
    let ghost before = roster(applicants@);
    let seats = allocate(applicants, table);
    let ghost plan = plan_view(seats@);
    proof {
        lemma_processing_order(before);
        assert(plan.len() == seats@.len());
        lemma_plan_length(before, table@);
    }
    let mut i: usize = 0;
    while i < applicants.len()
        invariant
            applicants@.len() == before.len(),
            seats@.len() == before.len(),
            plan == plan_view(seats@),
            0 <= i <= applicants@.len(),
            forall|j: int|
                0 <= j < i ==> (#[trigger] applicants@[j])@ == before[j].placed(plan[j]),
            forall|j: int| i <= j < applicants@.len() ==> (#[trigger] applicants@[j])@ == before[j],
        decreases applicants@.len() - i,
    {
        let seat = match &seats[i] {
            Some(code) => Some(code.clone()),
            None => None,
        };
        assert(optional_text(seat) == plan[i as int]);
        applicants[i].current_program = seat;
        i = i + 1;
    }
    proof {
        assert(roster(applicants@) =~= seated(before, plan));
    }
}

/// A plan has an entry for each applicant.
pub proof fn lemma_plan_length(apps: Seq<ApplicantView>, programs: Seq<ProgramView>)
    ensures
        allocation(apps, programs).len() == apps.len(),
{
    lemma_processing_order(apps);
    lemma_seating_length(apps, programs, processing_order(apps));
}

/// Choosing in whatever order of positions of the list leaves the plan with
/// an entry for each applicant.
proof fn lemma_seating_length(
    apps: Seq<ApplicantView>,
    programs: Seq<ProgramView>,
    order: Seq<int>,
)
    requires
        forall|k: int| 0 <= k < order.len() ==> 0 <= #[trigger] order[k] < apps.len(),
    ensures
        seating(apps, programs, order).len() == apps.len(),
    decreases order.len(),
{
    if order.len() > 0 {
        let shorter = order.drop_last();
        assert forall|k: int| 0 <= k < shorter.len() implies 0 <= #[trigger] shorter[k]
            < apps.len() by {
            assert(shorter[k] == order[k]);
        }
        lemma_seating_length(apps, programs, shorter);
    }
}

} // verus!
