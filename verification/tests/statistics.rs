use admissions::allocation::recalculate_admissions;
use admissions::models::{Applicant, ProgramStats, Scores};
use admissions::overlap::{calculate_intersections, count_overlap, names_exactly, IntersectionStats};
use admissions::programs::{get_program_limits, Program, ProgramTable};
use admissions::stats::{first_rank, get_detailed_stats, names_at, program_stats};
use admissions::text::{code_standing, Standing};

fn person(id: i32, total: i32, agreed: bool, prefs: &[&str], seat: Option<&str>) -> Applicant {
    Applicant {
        id,
        full_name: format!("applicant {}", id),
        agreed,
        total_score: total,
        scores: Scores { math: 0, rus: 0, phys: 0, achievements: 0 },
        current_program: seat.map(|s| s.to_string()),
        priorities: prefs.iter().map(|s| s.to_string()).collect(),
    }
}

fn table(programs: &[(&str, &str, usize)]) -> ProgramTable {
    let mut table = ProgramTable::new();
    for (code, name, seats) in programs {
        assert!(table.insert(code.to_string(), name.to_string(), *seats));
    }
    table
}

fn list(codes: &[&str]) -> Vec<String> {
    codes.iter().map(|s| s.to_string()).collect()
}

#[test]
fn demand_counts_applicants_without_consent() {
    let programs = table(&[("A", "Alpha", 1)]);
    let mut applicants = vec![
        person(1, 50, false, &["A"], None),
        person(2, 40, true, &["A"], None),
    ];
    recalculate_admissions(&mut applicants, &programs);
    assert_eq!(applicants[0].current_program, None);
    assert_eq!(applicants[1].current_program, Some("A".to_string()));
    let stats = get_detailed_stats(&applicants, &programs);
    assert_eq!(
        stats,
        vec![ProgramStats {
            program_name: "Alpha".to_string(),
            program_code: "A".to_string(),
            places_total: 1,
            places_filled: 1,
            passing_score: 40,
            is_shortage: false,
            count_priority_1: 2,
            count_priority_2: 0,
            count_priority_3: 0,
            count_priority_4: 0,
            enrolled_priority_1: 1,
            enrolled_priority_2: 0,
            enrolled_priority_3: 0,
            enrolled_priority_4: 0,
        }]
    );
}

#[test]
fn stats_of_a_program_nobody_holds() {
    let program = Program { code: "A".to_string(), name: "Alpha".to_string(), capacity: 3 };
    let applicants = vec![person(1, 77, true, &["B", "A"], Some("B"))];
    let stat = program_stats(&applicants, &program);
    assert_eq!(stat.places_total, 3);
    assert_eq!(stat.places_filled, 0);
    assert_eq!(stat.passing_score, 0);
    assert!(stat.is_shortage);
    assert_eq!(stat.count_priority_1, 0);
    assert_eq!(stat.count_priority_2, 1);
    assert_eq!(stat.enrolled_priority_2, 0);
}

#[test]
fn cutoff_is_the_lowest_total_whatever_the_order() {
    let program = Program { code: "A".to_string(), name: "Alpha".to_string(), capacity: 3 };
    let applicants = vec![
        person(1, 70, true, &["A"], Some("A")),
        person(2, 55, true, &["B", "A"], Some("A")),
        person(3, 90, true, &["C", "B", "A"], Some("A")),
        person(4, 10, true, &["A"], None),
        person(5, 5, true, &["A"], Some("B")),
    ];
    let stat = program_stats(&applicants, &program);
    assert_eq!(stat.places_filled, 3);
    assert_eq!(stat.passing_score, 55);
    assert!(!stat.is_shortage);
    assert_eq!(
        (stat.count_priority_1, stat.count_priority_2, stat.count_priority_3, stat.count_priority_4),
        (3, 1, 1, 0)
    );
    assert_eq!(
        (
            stat.enrolled_priority_1,
            stat.enrolled_priority_2,
            stat.enrolled_priority_3,
            stat.enrolled_priority_4
        ),
        (1, 1, 1, 0)
    );
}

#[test]
fn negative_cutoff_is_reported_as_it_is() {
    let program = Program { code: "A".to_string(), name: "Alpha".to_string(), capacity: 1 };
    let applicants = vec![person(1, -3, true, &["A"], Some("A"))];
    assert_eq!(program_stats(&applicants, &program).passing_score, -3);
}

#[test]
fn repeated_code_counts_at_each_rank_but_admits_once() {
    let program = Program { code: "A".to_string(), name: "Alpha".to_string(), capacity: 2 };
    let applicants = vec![person(1, 70, true, &["B", "A", "A", "A"], Some("A"))];
    let stat = program_stats(&applicants, &program);
    assert_eq!(
        (stat.count_priority_1, stat.count_priority_2, stat.count_priority_3, stat.count_priority_4),
        (0, 1, 1, 1)
    );
    assert_eq!(
        (
            stat.enrolled_priority_1,
            stat.enrolled_priority_2,
            stat.enrolled_priority_3,
            stat.enrolled_priority_4
        ),
        (0, 1, 0, 0)
    );
    assert_eq!(stat.places_filled, 1);
}

#[test]
fn admissions_by_rank_add_up_to_the_seats_filled() {
    let programs = table(&[("A", "Alpha", 2), ("B", "Beta", 2), ("C", "Gamma", 1)]);
    let mut applicants = vec![
        person(1, 90, true, &["A", "B"], None),
        person(2, 80, true, &["A", "C"], None),
        person(3, 70, true, &["A", "B", "C"], None),
        person(4, 60, true, &["C", "A", "B"], None),
        person(5, 50, true, &["A", "C", "B"], None),
        person(6, 40, false, &["B"], None),
        person(7, 30, true, &["A", "C"], None),
    ];
    recalculate_admissions(&mut applicants, &programs);
    let stats = get_detailed_stats(&applicants, &programs);
    assert_eq!(stats.len(), 3);
    for stat in &stats {
        assert!(stat.places_filled <= stat.places_total);
        assert!(stat.enrolled_priority_1 <= stat.count_priority_1);
        assert!(stat.enrolled_priority_2 <= stat.count_priority_2);
        assert!(stat.enrolled_priority_3 <= stat.count_priority_3);
        assert!(stat.enrolled_priority_4 <= stat.count_priority_4);
        assert_eq!(
            stat.enrolled_priority_1
                + stat.enrolled_priority_2
                + stat.enrolled_priority_3
                + stat.enrolled_priority_4,
            stat.places_filled
        );
    }
    let filled: Vec<(String, i32, i32)> = stats
        .iter()
        .map(|s| (s.program_code.clone(), s.places_filled, s.passing_score))
        .collect();
    assert_eq!(
        filled,
        vec![
            ("A".to_string(), 2, 80),
            ("B".to_string(), 2, 50),
            ("C".to_string(), 1, 60)
        ]
    );
}

#[test]
fn reports_are_sorted_by_code() {
    let programs = get_program_limits();
    let stats = get_detailed_stats(&Vec::new(), &programs);
    let codes: Vec<&str> = stats.iter().map(|s| s.program_code.as_str()).collect();
    assert_eq!(codes, vec!["ИБ", "ИВТ", "ИТСС", "ПМ"]);
    let totals: Vec<i32> = stats.iter().map(|s| s.places_total).collect();
    assert_eq!(totals, vec![20, 50, 30, 40]);
    assert_eq!(stats[3].program_name, "Прикладная математика");
    assert!(stats.iter().all(|s| s.is_shortage && s.passing_score == 0));
    assert_eq!(programs.by_code(), vec![3, 1, 2, 0]);
}

#[test]
fn codes_stand_in_dictionary_order() {
    let text = |s: &str| s.to_string();
    assert_eq!(code_standing(&text("A"), &text("B")), Standing::Before);
    assert_eq!(code_standing(&text("B"), &text("A")), Standing::After);
    assert_eq!(code_standing(&text("AB"), &text("AB")), Standing::Same);
    assert_eq!(code_standing(&text("A"), &text("AB")), Standing::Before);
    assert_eq!(code_standing(&text("AB"), &text("A")), Standing::After);
    assert_eq!(code_standing(&text(""), &text("")), Standing::Same);
    assert_eq!(code_standing(&text(""), &text("A")), Standing::Before);
    assert_eq!(code_standing(&text("ИБ"), &text("ИВТ")), Standing::Before);
    assert_eq!(code_standing(&text("ПМ"), &text("ИТСС")), Standing::After);
    assert_eq!(code_standing(&text("Z"), &text("ИБ")), Standing::Before);
}

#[test]
fn rank_of_a_code_in_a_list() {
    let prefs = list(&["B", "A", "A"]);
    assert_eq!(first_rank(&prefs, &"A".to_string()), Some(1));
    assert_eq!(first_rank(&prefs, &"B".to_string()), Some(0));
    assert_eq!(first_rank(&prefs, &"C".to_string()), None);
    assert!(names_at(&prefs, &"A".to_string(), 2));
    assert!(!names_at(&prefs, &"A".to_string(), 0));
    assert!(!names_at(&prefs, &"A".to_string(), 3));
}

#[test]
fn triple_is_counted_as_triple_only() {
    let applicants = vec![person(1, 0, false, &["A", "B", "C"], None)];
    assert_eq!(count_overlap(&applicants, &list(&["A", "B"])), 0);
    assert_eq!(count_overlap(&applicants, &list(&["A", "C"])), 0);
    assert_eq!(count_overlap(&applicants, &list(&["B", "C"])), 0);
    assert_eq!(count_overlap(&applicants, &list(&["A", "B", "C"])), 1);
}

#[test]
fn overlap_ignores_order_and_repetition() {
    assert!(names_exactly(&list(&["B", "A", "B"]), &list(&["A", "B"])));
    assert!(!names_exactly(&list(&["A"]), &list(&["A", "B"])));
    assert!(!names_exactly(&list(&["A", "B", "C"]), &list(&["A", "B"])));
    assert!(names_exactly(&list(&[]), &list(&[])));
}

#[test]
fn intersections_of_the_four_programs() {
    let applicants = vec![
        person(1, 0, true, &["ПМ", "ИВТ"], None),
        person(2, 0, false, &["ИВТ", "ПМ", "ИВТ"], Some("ПМ")),
        person(3, 0, true, &["ПМ", "ИВТ", "ИТСС"], None),
        person(4, 0, true, &["ИБ", "ИТСС", "ИВТ", "ПМ"], None),
        person(5, 0, true, &["ПМ"], None),
        person(6, 0, true, &["ПМ", "ФИЗ"], None),
        person(7, 0, true, &[], None),
        person(8, 0, true, &["ИБ", "ИТСС"], None),
        person(9, 0, true, &["ИБ", "ПМ", "ИТСС"], None),
    ];
    assert_eq!(
        calculate_intersections(&applicants),
        IntersectionStats {
            pm_ivt: 2,
            pm_itss: 0,
            pm_ib: 0,
            ivt_itss: 0,
            ivt_ib: 0,
            itss_ib: 1,
            pm_ivt_itss: 1,
            pm_ivt_ib: 0,
            ivt_itss_ib: 0,
            pm_itss_ib: 1,
            all_four: 1,
        }
    );
}
