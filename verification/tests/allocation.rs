use admissions::allocation::recalculate_admissions;
use admissions::models::{Applicant, Scores};
use admissions::programs::{get_program_limits, ProgramTable};
use admissions::ranking::admission_order;

fn person(id: i32, total: i32, math: i32, rus: i32, agreed: bool, prefs: &[&str]) -> Applicant {
    Applicant {
        id,
        full_name: format!("applicant {}", id),
        agreed,
        total_score: total,
        scores: Scores { math, rus, phys: 0, achievements: 0 },
        current_program: None,
        priorities: prefs.iter().map(|s| s.to_string()).collect(),
    }
}

fn table(programs: &[(&str, usize)]) -> ProgramTable {
    let mut table = ProgramTable::new();
    for (code, seats) in programs {
        assert!(table.insert(code.to_string(), code.to_string(), *seats));
    }
    table
}

fn seats(applicants: &[Applicant]) -> Vec<Option<&str>> {
    applicants.iter().map(|a| a.current_program.as_deref()).collect()
}

#[test]
fn full_program_is_not_replaced_by_one_outside_the_list() {
    let programs = table(&[("A", 1), ("B", 1)]);
    let mut applicants = vec![
        person(1, 100, 0, 0, true, &["A", "B"]),
        person(2, 90, 0, 0, true, &["A"]),
    ];
    recalculate_admissions(&mut applicants, &programs);
    assert_eq!(seats(&applicants), vec![Some("A"), None]);
}

#[test]
fn applicant_without_consent_is_not_seated() {
    let programs = table(&[("A", 1)]);
    let mut applicants = vec![
        person(1, 50, 0, 0, false, &["A"]),
        person(2, 40, 0, 0, true, &["A"]),
    ];
    recalculate_admissions(&mut applicants, &programs);
    assert_eq!(seats(&applicants), vec![None, Some("A")]);
}

#[test]
fn earlier_seats_are_given_up() {
    let programs = table(&[("A", 1), ("B", 1)]);
    let mut applicants = vec![
        person(1, 10, 0, 0, true, &["A"]),
        person(2, 20, 0, 0, true, &["A", "B"]),
        person(3, 30, 0, 0, false, &["B"]),
    ];
    applicants[0].current_program = Some("B".to_string());
    applicants[2].current_program = Some("B".to_string());
    recalculate_admissions(&mut applicants, &programs);
    assert_eq!(seats(&applicants), vec![None, Some("A"), None]);
}

#[test]
fn second_choice_is_taken_when_first_is_full() {
    let programs = table(&[("A", 1), ("B", 1)]);
    let mut applicants = vec![
        person(1, 70, 0, 0, true, &["A", "B"]),
        person(2, 80, 0, 0, true, &["A", "B"]),
        person(3, 60, 0, 0, true, &["A", "B"]),
    ];
    recalculate_admissions(&mut applicants, &programs);
    assert_eq!(seats(&applicants), vec![Some("B"), Some("A"), None]);
}

#[test]
fn unknown_program_is_skipped() {
    let programs = table(&[("A", 2)]);
    let mut applicants = vec![person(1, 70, 0, 0, true, &["Z", "A"])];
    recalculate_admissions(&mut applicants, &programs);
    assert_eq!(seats(&applicants), vec![Some("A")]);
}

#[test]
fn table_refuses_a_program_without_seats() {
    let mut programs = ProgramTable::new();
    assert!(!programs.insert("A".to_string(), "none".to_string(), 0));
    assert!(programs.insert("A".to_string(), "one".to_string(), 1));
    assert!(programs.insert("B".to_string(), "most".to_string(), 2147483647));
    assert!(!programs.insert("C".to_string(), "more".to_string(), 2147483648));
    assert_eq!(programs.len(), 2);
    assert_eq!(programs.capacity_of(&"A".to_string()), Some(1));
    assert_eq!(programs.capacity_of(&"C".to_string()), None);
}

#[test]
fn record_is_well_formed_with_the_right_total_and_four_wishes() {
    let mut one = person(1, 150, 100, 50, true, &["A", "B", "C", "D"]);
    assert!(one.is_well_formed());
    one.priorities.push("E".to_string());
    assert!(!one.is_well_formed());
    one.priorities.clear();
    assert!(one.is_well_formed());
    one.total_score = 151;
    assert!(!one.is_well_formed());
    let mut big = person(2, i32::MAX, i32::MAX, 1, true, &[]);
    assert!(!big.is_well_formed());
    big.scores.rus = 0;
    assert!(big.is_well_formed());
}

#[test]
fn order_is_by_total_then_math_then_language_then_position() {
    let applicants = vec![
        person(1, 200, 50, 50, true, &[]),
        person(2, 200, 60, 40, true, &[]),
        person(3, 250, 0, 0, false, &[]),
        person(4, 200, 60, 45, true, &[]),
        person(5, 210, 0, 0, true, &[]),
        person(6, 200, 60, 45, true, &[]),
    ];
    assert_eq!(admission_order(&applicants), vec![4, 3, 5, 1, 0]);
}

#[test]
fn order_of_nobody_is_empty() {
    assert_eq!(admission_order(&Vec::new()), Vec::<usize>::new());
}

#[test]
fn capacities_are_kept() {
    let programs = table(&[("A", 2), ("B", 1)]);
    let mut applicants: Vec<Applicant> = (0..10)
        .map(|i| person(i, 100 - i, 0, 0, true, &["A", "B"]))
        .collect();
    recalculate_admissions(&mut applicants, &programs);
    let in_a = applicants.iter().filter(|a| a.current_program.as_deref() == Some("A")).count();
    let in_b = applicants.iter().filter(|a| a.current_program.as_deref() == Some("B")).count();
    assert_eq!((in_a, in_b), (2, 1));
    assert_eq!(
        seats(&applicants)[..4].to_vec(),
        vec![Some("A"), Some("A"), Some("B"), None]
    );
}

#[test]
fn second_run_changes_nothing() {
    let programs = table(&[("A", 1), ("B", 2)]);
    let mut applicants = vec![
        person(1, 10, 0, 0, true, &["A", "B"]),
        person(2, 30, 0, 0, true, &["B", "A"]),
        person(3, 20, 0, 0, true, &["A"]),
        person(4, 5, 0, 0, true, &["A", "B"]),
    ];
    recalculate_admissions(&mut applicants, &programs);
    let first = applicants.clone();
    recalculate_admissions(&mut applicants, &programs);
    assert_eq!(applicants, first);
    assert_eq!(seats(&first), vec![Some("B"), Some("B"), Some("A"), None]);
}

#[test]
fn faculty_table_has_the_four_programs() {
    let programs = get_program_limits();
    assert_eq!(programs.len(), 4);
    assert_eq!(programs.capacity_of(&"ПМ".to_string()), Some(40));
    assert_eq!(programs.capacity_of(&"ИВТ".to_string()), Some(50));
    assert_eq!(programs.capacity_of(&"ИТСС".to_string()), Some(30));
    assert_eq!(programs.capacity_of(&"ИБ".to_string()), Some(20));
    assert_eq!(programs.capacity_of(&"ФИЗ".to_string()), None);
    assert_eq!(programs.get(1).name, "Информатика и ВТ");
}

#[test]
fn table_refuses_a_code_twice() {
    let mut programs = ProgramTable::new();
    assert!(programs.insert("A".to_string(), "first".to_string(), 1));
    assert!(!programs.insert("A".to_string(), "second".to_string(), 2));
    assert_eq!(programs.len(), 1);
    assert_eq!(programs.capacity_of(&"A".to_string()), Some(1));
    assert_eq!(programs.position(&"A".to_string()), Some(0));
    assert_eq!(programs.position(&"B".to_string()), None);
}

#[test]
fn repeated_preference_is_scanned_as_it_stands() {
    let programs = table(&[("A", 1), ("B", 1)]);
    let mut applicants = vec![
        person(1, 90, 0, 0, true, &["A"]),
        person(2, 80, 0, 0, true, &["A", "A", "B"]),
        person(3, 70, 0, 0, true, &["B", "B"]),
    ];
    recalculate_admissions(&mut applicants, &programs);
    assert_eq!(seats(&applicants), vec![Some("A"), Some("B"), None]);
}

#[test]
fn equal_keys_are_seated_in_the_order_of_the_list() {
    let programs = table(&[("A", 1)]);
    let mut applicants = vec![
        person(1, 90, 5, 5, true, &["A"]),
        person(2, 90, 5, 5, true, &["A"]),
    ];
    recalculate_admissions(&mut applicants, &programs);
    assert_eq!(seats(&applicants), vec![Some("A"), None]);
    let mut swapped = vec![
        person(2, 90, 5, 5, true, &["A"]),
        person(1, 90, 5, 6, true, &["A"]),
    ];
    recalculate_admissions(&mut swapped, &programs);
    assert_eq!(seats(&swapped), vec![None, Some("A")]);
}

#[test]
fn applicant_without_preferences_stays_unseated() {
    let programs = table(&[("A", 1)]);
    let mut applicants = vec![person(1, 90, 0, 0, true, &[])];
    recalculate_admissions(&mut applicants, &programs);
    assert_eq!(seats(&applicants), vec![None]);
}
