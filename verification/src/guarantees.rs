//! What holds of every allocation run: capacities are kept, every applicant
//! gets the best program of their list that was open at their turn, nobody is
//! passed over in favour of a later applicant, and a run depends on nothing
//! but scores, consent and preferences.

use vstd::prelude::*;
use crate::allocation::{
    allocation, choice, has_room, lemma_empty_plan, lemma_seat_counts, seated, seating,
    seats_taken,
};
use crate::models::ApplicantView;
use crate::programs::{ProgramView, distinct_codes, offered};
use crate::ranking::{
    is_processing_order, lemma_processing_order, lemma_processing_order_unique, outranks,
    precedes, processing_order,
};

verus! {

/// The plan as it stands when the applicant at place `turn` of the
/// processing order is about to choose.
pub open spec fn plan_before_turn(
    apps: Seq<ApplicantView>,
    programs: Seq<ProgramView>,
    turn: int,
) -> Seq<Option<Seq<char>>> {
    seating(apps, programs, processing_order(apps).take(turn))
}

/// `prefs` names `code` at `rank`, and no program before it has room.
pub open spec fn first_open_at(
    programs: Seq<ProgramView>,
    plan: Seq<Option<Seq<char>>>,
    prefs: Seq<Seq<char>>,
    rank: int,
) -> bool {
    &&& 0 <= rank < prefs.len()
    &&& has_room(programs, plan, prefs[rank])
    &&& forall|earlier: int|
        0 <= earlier < rank ==> !has_room(programs, plan, #[trigger] prefs[earlier])
}

/// The choice from a list is its first program with room, and there is no
/// choice only where no program of the list has room.
pub proof fn lemma_choice_first_open(
    programs: Seq<ProgramView>,
    plan: Seq<Option<Seq<char>>>,
    prefs: Seq<Seq<char>>,
)
    ensures
        match choice(programs, plan, prefs) {
            Some(code) => exists|rank: int|
                first_open_at(programs, plan, prefs, rank) && #[trigger] prefs[rank] == code,
            None => forall|rank: int|
                0 <= rank < prefs.len() ==> !has_room(programs, plan, #[trigger] prefs[rank]),
        },
    decreases prefs.len(),
{
    if prefs.len() == 0 {
    } else if has_room(programs, plan, prefs[0]) {
        assert(first_open_at(programs, plan, prefs, 0));
    } else {
        let rest = prefs.drop_first();
        lemma_choice_first_open(programs, plan, rest);
        match choice(programs, plan, rest) {
            Some(code) => {
                let rank = choose|rank: int|
                    first_open_at(programs, plan, rest, rank) && #[trigger] rest[rank] == code;
                assert(prefs[rank + 1] == rest[rank]);
                assert forall|earlier: int| 0 <= earlier < rank + 1 implies !has_room(
                    programs,
                    plan,
                    #[trigger] prefs[earlier],
                ) by {
                    if earlier > 0 {
                        assert(prefs[earlier] == rest[earlier - 1]);
                    }
                }
                assert(first_open_at(programs, plan, prefs, rank + 1));
            },
            None => {
                assert forall|rank: int| 0 <= rank < prefs.len() implies !has_room(
                    programs,
                    plan,
                    #[trigger] prefs[rank],
                ) by {
                    if rank > 0 {
                        assert(prefs[rank] == rest[rank - 1]);
                    }
                }
            },
        }
    }
}

/// One turn of the run: the applicant whose turn it is takes their choice.
proof fn lemma_turn(
    apps: Seq<ApplicantView>,
    programs: Seq<ProgramView>,
    order: Seq<int>,
    turn: int,
)
    requires
        0 <= turn < order.len(),
    ensures
        seating(apps, programs, order.take(turn + 1)) == seating(
            apps,
            programs,
            order.take(turn),
        ).update(
            order[turn],
            choice(programs, seating(apps, programs, order.take(turn)), apps[order[turn]].priorities),
        ),
{
    assert(order.take(turn + 1).drop_last() =~= order.take(turn));
    assert(order.take(turn + 1).last() == order[turn]);
}

/// Before a turn the plan seats only applicants whose turn has passed, and
/// has one entry for each applicant.
proof fn lemma_seated_had_turn(
    apps: Seq<ApplicantView>,
    programs: Seq<ProgramView>,
    order: Seq<int>,
    turn: int,
)
    requires
        is_processing_order(apps, order),
        0 <= turn <= order.len(),
    ensures
        seating(apps, programs, order.take(turn)).len() == apps.len(),
        forall|j: int|
            0 <= j < apps.len() && (#[trigger] seating(apps, programs, order.take(turn))[j]).is_some()
                ==> exists|m: int| 0 <= m < turn && order[m] == j,
    decreases turn,
{
    if turn == 0 {
        assert(order.take(0) =~= Seq::<int>::empty());
    } else {
        lemma_seated_had_turn(apps, programs, order, turn - 1);
        lemma_turn(apps, programs, order, turn - 1);
        let earlier = seating(apps, programs, order.take(turn - 1));
        let plan = seating(apps, programs, order.take(turn));
        assert forall|j: int| 0 <= j < apps.len() && (#[trigger] plan[j]).is_some() implies exists|
            m: int,
        |
            0 <= m < turn && order[m] == j by {
            if j == order[turn - 1] {
            } else {
                assert(earlier[j].is_some());
                let m = choose|m: int| 0 <= m < turn - 1 && order[m] == j;
                assert(0 <= m < turn && order[m] == j);
            }
        }
    }
}

/// The applicant whose turn it is holds no seat yet.
proof fn lemma_unseated_at_turn(
    apps: Seq<ApplicantView>,
    programs: Seq<ProgramView>,
    order: Seq<int>,
    turn: int,
)
    requires
        is_processing_order(apps, order),
        0 <= turn < order.len(),
    ensures
        0 <= order[turn] < apps.len(),
        seating(apps, programs, order.take(turn)).len() == apps.len(),
        seating(apps, programs, order.take(turn))[order[turn]].is_none(),
{
    lemma_seated_had_turn(apps, programs, order, turn);
    let plan = seating(apps, programs, order.take(turn));
    if plan[order[turn]].is_some() {
        let m = choose|m: int| 0 <= m < turn && order[m] == order[turn];
        assert(precedes(apps, order[m], order[turn]));
    }
}

/// From one turn to the next a program's count grows by one if the applicant
/// chose it, and stays otherwise.
proof fn lemma_count_step(
    apps: Seq<ApplicantView>,
    programs: Seq<ProgramView>,
    order: Seq<int>,
    turn: int,
    code: Seq<char>,
)
    requires
        is_processing_order(apps, order),
        0 <= turn < order.len(),
    ensures
        seats_taken(seating(apps, programs, order.take(turn + 1)), code) == seats_taken(
            seating(apps, programs, order.take(turn)),
            code,
        ) + if seating(apps, programs, order.take(turn + 1))[order[turn]] == Some(code) {
            1nat
        } else {
            0nat
        },
        seating(apps, programs, order.take(turn + 1))[order[turn]] == choice(
            programs,
            seating(apps, programs, order.take(turn)),
            apps[order[turn]].priorities,
        ),
{
    lemma_turn(apps, programs, order, turn);
    lemma_unseated_at_turn(apps, programs, order, turn);
    let earlier = seating(apps, programs, order.take(turn));
    let taken = choice(programs, earlier, apps[order[turn]].priorities);
    match taken {
        Some(c) => {
            lemma_seat_counts(earlier, order[turn], c, code);
        },
        None => {
            assert(earlier.update(order[turn], None) =~= earlier);
        },
    }
}

/// At no turn does a program on offer hold more applicants than it has seats.
proof fn lemma_capacity_at_turn(
    apps: Seq<ApplicantView>,
    programs: Seq<ProgramView>,
    order: Seq<int>,
    turn: int,
    p: int,
)
    requires
        distinct_codes(programs),
        is_processing_order(apps, order),
        0 <= turn <= order.len(),
        0 <= p < programs.len(),
    ensures
        seats_taken(seating(apps, programs, order.take(turn)), programs[p].code)
            <= programs[p].capacity,
    decreases turn,
{
    if turn == 0 {
        assert(order.take(0) =~= Seq::<int>::empty());
        lemma_empty_plan(apps.len(), programs[p].code);
    } else {
        lemma_capacity_at_turn(apps, programs, order, turn - 1, p);
        lemma_count_step(apps, programs, order, turn - 1, programs[p].code);
        let earlier = seating(apps, programs, order.take(turn - 1));
        let prefs = apps[order[turn - 1]].priorities;
        if choice(programs, earlier, prefs) == Some(programs[p].code) {
            lemma_choice_first_open(programs, earlier, prefs);
            assert(has_room(programs, earlier, programs[p].code));
        }
    }
}

/// Counts never fall from one turn to a later one.
proof fn lemma_counts_grow(
    apps: Seq<ApplicantView>,
    programs: Seq<ProgramView>,
    order: Seq<int>,
    from: int,
    to: int,
    code: Seq<char>,
)
    requires
        is_processing_order(apps, order),
        0 <= from <= to <= order.len(),
    ensures
        seats_taken(seating(apps, programs, order.take(from)), code) <= seats_taken(
            seating(apps, programs, order.take(to)),
            code,
        ),
    decreases to - from,
{
    if from < to {
        lemma_counts_grow(apps, programs, order, from, to - 1, code);
        lemma_count_step(apps, programs, order, to - 1, code);
    }
}

/// What an applicant chose at their turn is what they hold at every later turn.
proof fn lemma_seat_kept(
    apps: Seq<ApplicantView>,
    programs: Seq<ProgramView>,
    order: Seq<int>,
    turn: int,
    later: int,
)
    requires
        is_processing_order(apps, order),
        0 <= turn < later <= order.len(),
    ensures
        seating(apps, programs, order.take(later))[order[turn]] == choice(
            programs,
            seating(apps, programs, order.take(turn)),
            apps[order[turn]].priorities,
        ),
    decreases later - turn,
{
    lemma_seated_had_turn(apps, programs, order, later - 1);
    lemma_turn(apps, programs, order, later - 1);
    if later - 1 > turn {
        lemma_seat_kept(apps, programs, order, turn, later - 1);
        assert(precedes(apps, order[turn], order[later - 1]));
    }
}

/// The outcome has one entry for each applicant, and seats only applicants
/// who agreed, in programs that are on offer and stand in their lists.
pub proof fn lemma_seats_are_wanted(
    apps: Seq<ApplicantView>,
    programs: Seq<ProgramView>,
    i: int,
)
    requires
        0 <= i < apps.len(),
    ensures
        allocation(apps, programs).len() == apps.len(),
        match allocation(apps, programs)[i] {
            Some(code) => apps[i].agreed && offered(programs, code) && apps[i].priorities.contains(
                code,
            ),
            None => true,
        },
{
    let order = processing_order(apps);
    lemma_processing_order(apps);
    let n = order.len() as int;
    assert(order.take(n) =~= order);
    lemma_seated_had_turn(apps, programs, order, n);
    if let Some(code) = allocation(apps, programs)[i] {
        let m = choose|m: int| 0 <= m < n && order[m] == i;
        lemma_seat_kept(apps, programs, order, m, n);
        let at_turn = seating(apps, programs, order.take(m));
        lemma_choice_first_open(programs, at_turn, apps[i].priorities);
        let rank = choose|rank: int|
            first_open_at(programs, at_turn, apps[i].priorities, rank)
                && #[trigger] apps[i].priorities[rank] == code;
        assert(apps[i].priorities.contains(code));
        assert(offered(programs, code));
    }
}

/// After a run no program on offer holds more applicants than it has seats.
pub proof fn lemma_capacity_respected(
    apps: Seq<ApplicantView>,
    programs: Seq<ProgramView>,
    p: int,
)
    requires
        distinct_codes(programs),
        0 <= p < programs.len(),
    ensures
        seats_taken(allocation(apps, programs), programs[p].code) <= programs[p].capacity,
{
    let order = processing_order(apps);
    lemma_processing_order(apps);
    assert(order.take(order.len() as int) =~= order);
    lemma_capacity_at_turn(apps, programs, order, order.len() as int, p);
}

/// The applicant at place `turn` of the processing order ends in the first
/// program of their list that had room when their turn came; where none had,
/// they end without a seat.
pub proof fn lemma_best_open_program(
    apps: Seq<ApplicantView>,
    programs: Seq<ProgramView>,
    turn: int,
)
    requires
        0 <= turn < processing_order(apps).len(),
    ensures
        ({
            let i = processing_order(apps)[turn];
            let prefs = apps[i].priorities;
            let at_turn = plan_before_turn(apps, programs, turn);
            &&& 0 <= i < apps.len()
            &&& allocation(apps, programs)[i] == choice(programs, at_turn, prefs)
            &&& match allocation(apps, programs)[i] {
                Some(code) => exists|rank: int|
                    first_open_at(programs, at_turn, prefs, rank) && #[trigger] prefs[rank] == code,
                None => forall|rank: int|
                    0 <= rank < prefs.len() ==> !has_room(programs, at_turn, #[trigger] prefs[rank]),
            }
        }),
{
    let order = processing_order(apps);
    lemma_processing_order(apps);
    let n = order.len() as int;
    assert(order.take(n) =~= order);
    lemma_seat_kept(apps, programs, order, turn, n);
    lemma_choice_first_open(
        programs,
        plan_before_turn(apps, programs, turn),
        apps[order[turn]].priorities,
    );
}

/// An applicant who did not agree to enrol ends without a seat.
pub proof fn lemma_consent_needed(apps: Seq<ApplicantView>, programs: Seq<ProgramView>, i: int)
    requires
        0 <= i < apps.len(),
        !apps[i].agreed,
    ensures
        allocation(apps, programs)[i].is_none(),
{
    lemma_seats_are_wanted(apps, programs, i);
}

/// `passed` agreed to enrol and lists `code` at `rank`, but ends neither there
/// nor in a program that stands earlier in their list.
pub open spec fn passed_over(
    apps: Seq<ApplicantView>,
    plan: Seq<Option<Seq<char>>>,
    passed: int,
    code: Seq<char>,
    rank: int,
) -> bool {
    &&& 0 <= passed < apps.len()
    &&& apps[passed].agreed
    &&& 0 <= rank < apps[passed].priorities.len()
    &&& apps[passed].priorities[rank] == code
    &&& forall|r: int| 0 <= r <= rank ==> plan[passed] != Some(#[trigger] apps[passed].priorities[r])
}

/// The place in the processing order of the applicant at position `i`.
pub open spec fn turn_of(apps: Seq<ApplicantView>, i: int) -> int {
    choose|turn: int|
        0 <= turn < processing_order(apps).len() && processing_order(apps)[turn] == i
}

/// Every applicant who agreed to enrol has a place in the processing order.
pub proof fn lemma_turn_of(apps: Seq<ApplicantView>, i: int) -> (turn: int)
    requires
        0 <= i < apps.len(),
        apps[i].agreed,
    ensures
        turn == turn_of(apps, i),
        0 <= turn < processing_order(apps).len(),
        processing_order(apps)[turn] == i,
{
    lemma_processing_order(apps);
    let order = processing_order(apps);
    assert(order.contains(i));
    let some = choose|m: int| 0 <= m < order.len() && order[m] == i;
    assert(0 <= some < processing_order(apps).len() && processing_order(apps)[some] == i);
    turn_of(apps, i)
}

/// An applicant who was seated holds the first program of their list that
/// had room when their turn came: no program that they name before it had a
/// seat left at that moment. An applicant who agreed and was not seated
/// found no program of their list with room.
pub proof fn lemma_no_better_program_was_open(
    apps: Seq<ApplicantView>,
    programs: Seq<ProgramView>,
    i: int,
)
    requires
        0 <= i < apps.len(),
        apps[i].agreed,
    ensures
        ({
            let prefs = apps[i].priorities;
            let at_turn = plan_before_turn(apps, programs, turn_of(apps, i));
            match allocation(apps, programs)[i] {
                Some(code) => exists|rank: int|
                    first_open_at(programs, at_turn, prefs, rank) && #[trigger] prefs[rank] == code,
                None => forall|rank: int|
                    0 <= rank < prefs.len() ==> !has_room(programs, at_turn, #[trigger] prefs[rank]),
            }
        }),
{
    let turn = lemma_turn_of(apps, i);
    lemma_best_open_program(apps, programs, turn);
}

/// Where an applicant was passed over for a program on offer, that program
/// had no seat left when their turn came, and is full at the end.
pub proof fn lemma_passed_over_means_full(
    apps: Seq<ApplicantView>,
    programs: Seq<ProgramView>,
    p: int,
    passed: int,
    rank: int,
)
    requires
        distinct_codes(programs),
        0 <= p < programs.len(),
        passed_over(apps, allocation(apps, programs), passed, programs[p].code, rank),
    ensures
        seats_taken(allocation(apps, programs), programs[p].code) == programs[p].capacity,
{
    let order = processing_order(apps);
    lemma_processing_order(apps);
    let n = order.len() as int;
    let code = programs[p].code;
    let plan = allocation(apps, programs);
    assert(order.take(n) =~= order);
    let m = lemma_turn_of(apps, passed);
    let at_turn = seating(apps, programs, order.take(m));
    let prefs = apps[passed].priorities;
    lemma_seat_kept(apps, programs, order, m, n);
    lemma_choice_first_open(programs, at_turn, prefs);
    assert(!has_room(programs, at_turn, code)) by {
        if has_room(programs, at_turn, code) {
            let taken = choice(programs, at_turn, prefs).unwrap();
            let r = choose|r: int|
                first_open_at(programs, at_turn, prefs, r) && #[trigger] prefs[r] == taken;
            assert(r <= rank);
            assert(plan[passed] == Some(prefs[r]));
        }
    }
    assert(seats_taken(at_turn, code) >= programs[p].capacity);
    lemma_counts_grow(apps, programs, order, m, n, code);
    lemma_capacity_at_turn(apps, programs, order, n, p);
}

/// Where an applicant was passed over for a program on offer, everyone seated
/// in it was processed before them: none of its seats went to an applicant
/// with a worse score key, and every total score there is at least that of
/// the one passed over.
pub proof fn lemma_seats_go_to_the_best(
    apps: Seq<ApplicantView>,
    programs: Seq<ProgramView>,
    p: int,
    passed: int,
    rank: int,
    holder: int,
)
    requires
        distinct_codes(programs),
        0 <= p < programs.len(),
        passed_over(apps, allocation(apps, programs), passed, programs[p].code, rank),
        0 <= holder < apps.len(),
        allocation(apps, programs)[holder] == Some(programs[p].code),
    ensures
        precedes(apps, holder, passed),
        !outranks(apps[passed], apps[holder]),
        apps[holder].total_score >= apps[passed].total_score,
{
    let order = processing_order(apps);
    lemma_processing_order(apps);
    let n = order.len() as int;
    let code = programs[p].code;
    assert(order.take(n) =~= order);
    let m = lemma_turn_of(apps, passed);
    lemma_passed_over_means_full(apps, programs, p, passed, rank);
    lemma_seats_are_wanted(apps, programs, holder);
    let h = lemma_turn_of(apps, holder);
    assert(apps[passed].priorities[rank] == code);
    assert(h != m);
    if h > m {
        // The seat would have been taken after the program was found full.
        let at_turn = seating(apps, programs, order.take(m));
        lemma_seat_kept(apps, programs, order, m, n);
        lemma_choice_first_open(programs, at_turn, apps[passed].priorities);
        assert(!has_room(programs, at_turn, code)) by {
            if has_room(programs, at_turn, code) {
                let prefs = apps[passed].priorities;
                let taken = choice(programs, at_turn, prefs).unwrap();
                let r = choose|r: int|
                    first_open_at(programs, at_turn, prefs, r) && #[trigger] prefs[r] == taken;
                assert(r <= rank);
                assert(allocation(apps, programs)[passed] == Some(prefs[r]));
            }
        }
        lemma_seat_kept(apps, programs, order, h, n);
        lemma_count_step(apps, programs, order, h, code);
        lemma_counts_grow(apps, programs, order, m, h, code);
        lemma_capacity_at_turn(apps, programs, order, h + 1, p);
        assert(false);
    }
    assert(precedes(apps, order[h], order[m]));
}

/// Two lists of applicants that differ only in the seats held.
pub open spec fn same_but_seats(apps: Seq<ApplicantView>, others: Seq<ApplicantView>) -> bool {
    &&& apps.len() == others.len()
    &&& forall|i: int|
        0 <= i < apps.len() ==> #[trigger] others[i] == apps[i].placed(others[i].current_program)
}

/// Choosing in one order from lists that differ only in the seats held gives
/// the same plan.
proof fn lemma_seating_ignores_seats(
    apps: Seq<ApplicantView>,
    others: Seq<ApplicantView>,
    programs: Seq<ProgramView>,
    order: Seq<int>,
)
    requires
        same_but_seats(apps, others),
        forall|k: int| 0 <= k < order.len() ==> 0 <= #[trigger] order[k] < apps.len(),
    ensures
        seating(apps, programs, order) == seating(others, programs, order),
    decreases order.len(),
{
    if order.len() == 0 {
        assert(seating(apps, programs, order) =~= seating(others, programs, order));
    } else {
        lemma_seating_ignores_seats(apps, others, programs, order.drop_last());
        assert(others[order.last()] == apps[order.last()].placed(
            others[order.last()].current_program,
        ));
    }
}

/// A run reads scores, consent and preferences only: the seats that the
/// applicants hold when it starts make no difference to its outcome.
pub proof fn lemma_allocation_ignores_seats(
    apps: Seq<ApplicantView>,
    others: Seq<ApplicantView>,
    programs: Seq<ProgramView>,
)
    requires
        same_but_seats(apps, others),
    ensures
        allocation(apps, programs) == allocation(others, programs),
{
    let order = processing_order(apps);
    lemma_processing_order(apps);
    lemma_processing_order(others);
    assert(is_processing_order(others, order)) by {
        assert forall|k: int| 0 <= k < order.len() implies 0 <= #[trigger] order[k] < others.len()
            && others[order[k]].agreed by {
            assert(others[order[k]] == apps[order[k]].placed(others[order[k]].current_program));
        }
        assert forall|i: int|
            0 <= i < others.len() && (#[trigger] others[i]).agreed implies order.contains(i) by {
            assert(others[i] == apps[i].placed(others[i].current_program));
            assert(apps[i].agreed);
        }
        assert forall|k: int, l: int| 0 <= k < l < order.len() implies precedes(
            others,
            order[k],
            order[l],
        ) by {
            assert(precedes(apps, order[k], order[l]));
            assert(others[order[k]] == apps[order[k]].placed(others[order[k]].current_program));
            assert(others[order[l]] == apps[order[l]].placed(others[order[l]].current_program));
        }
    }
    lemma_processing_order_unique(others, order, processing_order(others));
    lemma_seating_ignores_seats(apps, others, programs, order);
}

/// Running the allocation again on its own result changes nothing: the second
/// run seats every applicant where the first did.
pub proof fn lemma_rerun_changes_nothing(apps: Seq<ApplicantView>, programs: Seq<ProgramView>)
    ensures
        ({
            let first = seated(apps, allocation(apps, programs));
            &&& allocation(first, programs) == allocation(apps, programs)
            &&& seated(first, allocation(first, programs)) == first
        }),
{
    let first = seated(apps, allocation(apps, programs));
    assert(same_but_seats(apps, first));
    lemma_allocation_ignores_seats(apps, first, programs);
    assert(seated(first, allocation(first, programs)) =~= first);
}

} // verus!
