use admissions::history::{save_statistics, snapshot, History, HistoryRecord};
use admissions::ingest::{
    drop_empty, list_or_empty, normalize_record, parse_consent, priorities_json, split_priorities,
    split_text, stored_priorities, text_or_empty_list, truth_word,
};
use admissions::models::{
    CsvApplicant, NewApplicant, PaginationMeta, PaginationQuery, ProgramStats, Scores,
};
use admissions::paging::{page_meta, page_offset, total_pages};
use admissions::schedule::{date_or_today, on_finished, on_trigger, report_date, RunAction, RunState};

fn text(s: &str) -> String {
    s.to_string()
}

fn list(items: &[&str]) -> Vec<String> {
    items.iter().map(|s| s.to_string()).collect()
}

fn stat(code: &str, filled: i32, cutoff: i32) -> ProgramStats {
    ProgramStats {
        program_name: code.to_string(),
        program_code: code.to_string(),
        places_total: 10,
        places_filled: filled,
        passing_score: cutoff,
        is_shortage: filled < 10,
        count_priority_1: 0,
        count_priority_2: 0,
        count_priority_3: 0,
        count_priority_4: 0,
        enrolled_priority_1: 0,
        enrolled_priority_2: 0,
        enrolled_priority_3: 0,
        enrolled_priority_4: 0,
    }
}

fn row(date: &str, code: &str, cutoff: i32, filled: i32) -> HistoryRecord {
    HistoryRecord {
        record_date: date.to_string(),
        program_code: code.to_string(),
        passing_score: cutoff,
        places_filled: filled,
    }
}

fn rows(history: &History) -> Vec<HistoryRecord> {
    (0..history.len()).map(|i| history.get(i).clone()).collect()
}

#[test]
fn consent_words() {
    assert!(parse_consent(&text("true")));
    assert!(parse_consent(&text("  TRUE\t")));
    assert!(parse_consent(&text("1")));
    assert!(parse_consent(&text(" Да ")));
    assert!(parse_consent(&text("ДА")));
    assert!(parse_consent(&text("+")));
    assert!(!parse_consent(&text("yes")));
    assert!(!parse_consent(&text("")));
    assert!(!parse_consent(&text("нет")));
    assert!(!parse_consent(&text("0")));
    assert!(!parse_consent(&text("t rue")));
}

#[test]
fn truth_word_is_exact() {
    assert!(truth_word(&text("да")));
    assert!(!truth_word(&text("Да")));
    assert!(!truth_word(&text(" true")));
}

#[test]
fn text_is_split_at_each_separator() {
    assert_eq!(split_text("a;b;;c", ';'), list(&["a", "b", "", "c"]));
    assert_eq!(split_text("", ';'), list(&[""]));
    assert_eq!(split_text(";", ';'), list(&["", ""]));
    assert_eq!(split_text("ПМ; ИВТ", ';'), list(&["ПМ", " ИВТ"]));
    assert_eq!(split_text("abc", ';'), list(&["abc"]));
    assert_eq!(split_text("a,b", ','), list(&["a", "b"]));
}

#[test]
fn empty_entries_are_dropped() {
    assert_eq!(drop_empty(list(&["", "a", "", "b", ""])), list(&["a", "b"]));
    assert_eq!(drop_empty(list(&[])), list(&[]));
    assert_eq!(drop_empty(list(&[" "])), list(&[" "]));
}

#[test]
fn preference_text_becomes_a_list() {
    assert_eq!(split_priorities(&text(" ПМ ; ИВТ;;ИБ ; ")), list(&["ПМ", "ИВТ", "ИБ"]));
    assert_eq!(split_priorities(&text("")), list(&[]));
    assert_eq!(split_priorities(&text(" ; ;")), list(&[]));
    assert_eq!(split_priorities(&text("ПМ;ПМ")), list(&["ПМ", "ПМ"]));
    assert_eq!(split_priorities(&text("ИТСС")), list(&["ИТСС"]));
}

#[test]
fn uploaded_row_is_normalized() {
    let record = CsvApplicant {
        id: 17,
        name: text("Иванов Иван"),
        math: 80,
        rus: 70,
        phys: 60,
        achieve: 5,
        agreed: text(" Да"),
        priorities: text("ПМ; ИВТ ;"),
    };
    let person = normalize_record(record);
    assert_eq!(
        person,
        NewApplicant {
            external_id: 17,
            full_name: text("Иванов Иван"),
            score_math: 80,
            score_rus: 70,
            score_phys: 60,
            score_achieve: 5,
            agreed: true,
            priorities: list(&["ПМ", "ИВТ"]),
        }
    );
    assert_eq!(person.total_score(), Some(215));
    assert_eq!(person.scores(), Scores { math: 80, rus: 70, phys: 60, achievements: 5 });
}

#[test]
fn total_is_the_sum_of_the_components() {
    assert_eq!(Scores { math: 1, rus: 2, phys: 3, achievements: 4 }.total(), Some(10));
    assert_eq!(Scores { math: -1, rus: -2, phys: -3, achievements: -4 }.total(), Some(-10));
    assert_eq!(Scores { math: i32::MAX, rus: 1, phys: 0, achievements: 0 }.total(), None);
    assert_eq!(Scores { math: i32::MAX, rus: 1, phys: -1, achievements: 0 }.total(), Some(i32::MAX));
    assert_eq!(Scores { math: i32::MIN, rus: -1, phys: 0, achievements: 0 }.total(), None);
    assert_eq!(
        Scores { math: i32::MAX, rus: i32::MAX, phys: i32::MAX, achievements: i32::MAX }.total(),
        None
    );
}

#[test]
fn stored_preferences_are_read_back() {
    assert_eq!(stored_priorities(&text("[\"ПМ\",\"ИВТ\"]")), list(&["ПМ", "ИВТ"]));
    assert_eq!(stored_priorities(&text("[]")), list(&[]));
    assert_eq!(stored_priorities(&text("oops")), list(&[]));
    assert_eq!(stored_priorities(&text("[1, 2]")), list(&[]));
    assert_eq!(stored_priorities(&text("")), list(&[]));
    assert_eq!(list_or_empty(None), list(&[]));
    assert_eq!(list_or_empty(Some(list(&["a"]))), list(&["a"]));
}

#[test]
fn preferences_are_stored_as_json() {
    assert_eq!(priorities_json(&list(&["ПМ", "ИВТ"])), "[\"ПМ\",\"ИВТ\"]");
    assert_eq!(priorities_json(&list(&[])), "[]");
    assert_eq!(priorities_json(&list(&["a\"b"])), "[\"a\\\"b\"]");
    assert_eq!(text_or_empty_list(None), "[]");
    assert_eq!(text_or_empty_list(Some(text("[\"x\"]"))), "[\"x\"]");
    let odd = list(&["a\"b\\c", "строка\n", ""]);
    assert_eq!(stored_priorities(&priorities_json(&odd)), odd);
}

#[test]
fn report_date_falls_back_to_today() {
    let today = text("2025-07-01");
    assert_eq!(report_date(Some(text("2024-02-29")), today.clone()), "2024-02-29");
    assert_eq!(report_date(Some(text("2024-02-30")), today.clone()), "2025-07-01");
    assert_eq!(report_date(Some(text("01.08.2025")), today.clone()), "2025-07-01");
    assert_eq!(report_date(Some(text("")), today.clone()), "2025-07-01");
    assert_eq!(report_date(None, today.clone()), "2025-07-01");
    assert_eq!(date_or_today(text("x"), true, today.clone()), "x");
    assert_eq!(date_or_today(text("x"), false, today), "2025-07-01");
}

#[test]
fn one_run_at_a_time() {
    let (state, action) = on_trigger(RunState::Idle, text("2025-07-01"));
    assert_eq!(state, RunState::Running(text("2025-07-01")));
    assert_eq!(action, RunAction::Start(text("2025-07-01")));
    let (state, action) = on_trigger(state, text("2025-07-02"));
    assert_eq!(state, RunState::Queued(text("2025-07-02")));
    assert_eq!(action, RunAction::Wait);
    let (state, action) = on_trigger(state, text("2025-07-03"));
    assert_eq!(state, RunState::Queued(text("2025-07-03")));
    assert_eq!(action, RunAction::Wait);
    let (state, action) = on_finished(state);
    assert_eq!(state, RunState::Running(text("2025-07-03")));
    assert_eq!(action, RunAction::Start(text("2025-07-03")));
    let (state, action) = on_finished(state);
    assert_eq!(state, RunState::Idle);
    assert_eq!(action, RunAction::Wait);
    let (state, action) = on_finished(state);
    assert_eq!(state, RunState::Idle);
    assert_eq!(action, RunAction::Wait);
}

#[test]
fn pages_are_counted_upwards() {
    assert_eq!(total_pages(101, 50), 3);
    assert_eq!(total_pages(100, 50), 2);
    assert_eq!(total_pages(1, 50), 1);
    assert_eq!(total_pages(0, 50), 0);
    assert_eq!(total_pages(5, 0), usize::MAX);
    assert_eq!(total_pages(0, 0), 0);
    assert_eq!(total_pages(usize::MAX, 1), usize::MAX);
    assert_eq!(total_pages(usize::MAX, usize::MAX), 1);
}

#[test]
fn offset_of_a_page() {
    assert_eq!(page_offset(1, 50), Some(0));
    assert_eq!(page_offset(3, 50), Some(100));
    assert_eq!(page_offset(0, 50), None);
    assert_eq!(page_offset(7, 0), Some(0));
    assert_eq!(page_offset(2, 2147483647), Some(2147483647));
    assert_eq!(page_offset(3, 2147483647), None);
    assert_eq!(page_offset(usize::MAX, usize::MAX), None);
}

#[test]
fn page_meta_uses_the_defaults() {
    assert_eq!(
        page_meta(&PaginationQuery { page: None, limit: None }, 120),
        PaginationMeta { total_items: 120, current_page: 1, total_pages: 3 }
    );
    assert_eq!(
        page_meta(&PaginationQuery { page: Some(4), limit: Some(10) }, 35),
        PaginationMeta { total_items: 35, current_page: 4, total_pages: 4 }
    );
}

#[test]
fn snapshot_has_a_row_for_each_report() {
    let stats = vec![stat("A", 2, 80), stat("B", 0, 0)];
    assert_eq!(
        snapshot(&text("2025-07-01"), &stats),
        vec![row("2025-07-01", "A", 80, 2), row("2025-07-01", "B", 0, 0)]
    );
    assert_eq!(snapshot(&text("2025-07-01"), &Vec::new()), Vec::new());
}

#[test]
fn same_date_is_overwritten_and_other_dates_are_kept() {
    let mut history = History::new();
    save_statistics(&mut history, &text("2025-07-01"), &vec![stat("A", 2, 80), stat("B", 1, 50)]);
    assert_eq!(
        rows(&history),
        vec![row("2025-07-01", "A", 80, 2), row("2025-07-01", "B", 50, 1)]
    );
    save_statistics(&mut history, &text("2025-07-02"), &vec![stat("A", 3, 75)]);
    save_statistics(&mut history, &text("2025-07-01"), &vec![stat("B", 2, 45), stat("C", 1, 10)]);
    assert_eq!(
        rows(&history),
        vec![
            row("2025-07-01", "A", 80, 2),
            row("2025-07-01", "B", 45, 2),
            row("2025-07-02", "A", 75, 3),
            row("2025-07-01", "C", 10, 1),
        ]
    );
    let before = rows(&history);
    save_statistics(&mut history, &text("2025-07-01"), &vec![stat("B", 2, 45), stat("C", 1, 10)]);
    assert_eq!(rows(&history), before);
    assert_eq!(history.find(&text("2025-07-02"), &text("A")), Some(2));
    assert_eq!(history.find(&text("2025-07-02"), &text("B")), None);
}

#[test]
fn upsert_replaces_the_row_of_the_same_key() {
    let mut history = History::new();
    history.upsert(row("d", "A", 1, 1));
    history.upsert(row("d", "B", 2, 2));
    history.upsert(row("d", "A", 3, 3));
    assert_eq!(rows(&history), vec![row("d", "A", 3, 3), row("d", "B", 2, 2)]);
}
