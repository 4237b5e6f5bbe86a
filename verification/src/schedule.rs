//! When an allocation run starts: the report date of a run, and the guard
//! that lets one run at a time execute.

use vstd::prelude::*;

verus! {

/// Whether `chrono::NaiveDate::parse_from_str` reads `text` as a date under
/// the format `format`.
pub uninterp spec fn date_parses(text: Seq<char>, format: Seq<char>) -> bool;

/// Calls `chrono::NaiveDate::parse_from_str` and tells whether it returned a
/// date. The answer is known by its name only: the same text and format give
/// the same answer.
#[verifier::external_body]
fn parses_as_date(text: &str, format: &str) -> (ok: bool)
    ensures
        ok == date_parses(text@, format@),
{
    chrono::NaiveDate::parse_from_str(text, format).is_ok()
}

/// `text` is a calendar date written as year, month and day with hyphens.
pub open spec fn is_report_date(text: Seq<char>) -> bool {
    date_parses(text, "%Y-%m-%d"@)
}

/// The date that was given where it is a calendar date, today's otherwise.
pub fn date_or_today(given: String, valid: bool, today: String) -> (date: String)
    ensures
        date@ == if valid {
            given@
        } else {
            today@
        },
{
    if valid {
        given
    } else {
        today
    }
}

/// The report date of a run: the date that came with the import where one
/// came and is a calendar date, and today's date otherwise.
pub fn report_date(given: Option<String>, today: String) -> (date: String)
    ensures
        date@ == match given {
            Some(text) => if is_report_date(text@) {
                text@
            } else {
                today@
            },
            None => today@,
        },
{
    match given {
        Some(text) => {
            let valid = parses_as_date(text.as_str(), "%Y-%m-%d");
            date_or_today(text, valid, today)
        },
        None => today,
    }
}

/// What the contracts see of a [`RunState`].
pub ghost enum RunStateView {
    Idle,
    Running(Seq<char>),
    Queued(Seq<char>),
}

/// The state of the guard: no run executes; one executes, for the date held;
/// or one executes and another is due after it, for the date held.
#[derive(Clone, Debug, PartialEq, Eq)]
pub enum RunState {
    Idle,
    Running(String),
    Queued(String),
}

impl View for RunState {
    type V = RunStateView;

    open spec fn view(&self) -> RunStateView {
        match self {
            RunState::Idle => RunStateView::Idle,
            RunState::Running(date) => RunStateView::Running(date@),
            RunState::Queued(date) => RunStateView::Queued(date@),
        }
    }
}

/// What the caller of the guard has to do: start a run for the date held, or
/// nothing.
#[derive(Clone, Debug, PartialEq, Eq)]
pub enum RunAction {
    Start(String),
    Wait,
}

/// The date of the run to start, if one is to start.
pub open spec fn started(action: RunAction) -> Option<Seq<char>> {
    match action {
        RunAction::Start(date) => Some(date@),
        RunAction::Wait => None,
    }
}

/// The number of runs that execute in a state: none or one.
pub open spec fn in_flight(state: RunStateView) -> nat {
    match state {
        RunStateView::Idle => 0,
        _ => 1,
    }
}

/// The state after a run was asked for, for `date`.
pub open spec fn after_trigger(state: RunStateView, date: Seq<char>) -> RunStateView {
    match state {
        RunStateView::Idle => RunStateView::Running(date),
        _ => RunStateView::Queued(date),
    }
}

/// The state after the executing run has ended.
pub open spec fn after_finish(state: RunStateView) -> RunStateView {
    match state {
        RunStateView::Queued(date) => RunStateView::Running(date),
        _ => RunStateView::Idle,
    }
}

/// A run is asked for, for `date`. Where none executes it starts at once;
/// otherwise it is due after the one that executes, in place of any that was
/// due before.
pub fn on_trigger(state: RunState, date: String) -> (next: (RunState, RunAction))
    ensures
        next.0@ == after_trigger(state@, date@),
        started(next.1) == if state@ is Idle {
            Some(date@)
        } else {
            None
        },
{
    match state {
        RunState::Idle => {
            let copy = date.clone();
            (RunState::Running(date), RunAction::Start(copy))
        },
        _ => (RunState::Queued(date), RunAction::Wait),
    }
}

/// The executing run has ended. Where another is due it starts now.
pub fn on_finished(state: RunState) -> (next: (RunState, RunAction))
    ensures
        next.0@ == after_finish(state@),
        started(next.1) == match state@ {
            RunStateView::Queued(date) => Some(date),
            _ => None,
        },
{
    match state {
        RunState::Queued(date) => {
            let copy = date.clone();
            (RunState::Running(date), RunAction::Start(copy))
        },
        _ => (RunState::Idle, RunAction::Wait),
    }
}

/// One run at a time: a run starts on a trigger only where none executes.
/// After a trigger a run for its date executes or is due, so no request is
/// lost, and the number of executing runs has grown by the run that started.
pub proof fn lemma_trigger_single_flight(state: RunStateView, date: Seq<char>)
    ensures
        in_flight(after_trigger(state, date)) == 1,
        in_flight(after_trigger(state, date)) == in_flight(state) + if state is Idle {
            1nat
        } else {
            0nat
        },
        after_trigger(state, date) == RunStateView::Running(date) || after_trigger(state, date)
            == RunStateView::Queued(date),
{
}

/// One run at a time: when a run ends, the next starts only where one was
/// due, and then one executes again; otherwise none does.
pub proof fn lemma_finish_single_flight(state: RunStateView)
    ensures
        in_flight(after_finish(state)) <= 1,
        in_flight(after_finish(state)) == if state is Queued {
            1nat
        } else {
            0nat
        },
{
}

/// Requests that come while a run executes fall into one: after two triggers
/// in a row and the end of the run, one run starts, for the later date.
pub proof fn lemma_triggers_coalesce(state: RunStateView, first: Seq<char>, second: Seq<char>)
    requires
        !(state is Idle),
    ensures
        after_finish(after_trigger(after_trigger(state, first), second)) == RunStateView::Running(
            second,
        ),
        after_finish(after_finish(after_trigger(after_trigger(state, first), second)))
            == RunStateView::Idle,
{
}

} // verus!
