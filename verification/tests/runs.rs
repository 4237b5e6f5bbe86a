use admissions::allocation::{allocate, recalculate_admissions};
use admissions::history::{History, HistoryRecord};
use admissions::models::{Applicant, Scores};
use admissions::programs::ProgramTable;
use admissions::ranking::{admission_order, goes_before, has_better_key};
use admissions::stats::get_detailed_stats;

fn person(id: i32, total: i32, math: i32, rus: i32, agreed: bool, prefs: &[&str]) -> Applicant {
    Applicant {
        id,
        full_name: format!("applicant {}", id),
        agreed,
        total_score: total,
        scores: Scores { math, rus, phys: 0, achievements: 0 },
        current_program: None,
        priorities: prefs.iter().map(|s| s.to_string()).collect(),
    }
}

fn table(programs: &[(&str, usize)]) -> ProgramTable {
    let mut table = ProgramTable::new();
    for (code, seats) in programs {
        assert!(table.insert(code.to_string(), code.to_string(), *seats));
    }
    table
}

fn crowd(n: usize) -> Vec<Applicant> {
    let codes = ["A", "B", "C", "D"];
    let mut seed: u64 = 12345;
    let mut next = move |bound: u64| {
        seed = seed.wrapping_mul(6364136223846793005).wrapping_add(1442695040888963407);
        (seed >> 33) % bound
    };
    (0..n)
        .map(|i| {
            let total = next(7) as i32 * 10;
            let math = next(3) as i32;
            let rus = next(3) as i32;
            let agreed = next(5) != 0;
            let wishes = next(5) as usize;
            let prefs: Vec<&str> = (0..wishes).map(|_| codes[next(4) as usize]).collect();
            person(i as i32, total, math, rus, agreed, &prefs)
        })
        .collect()
}

#[test]
fn plan_is_computed_without_touching_the_applicants() {
    let programs = table(&[("A", 1), ("B", 1)]);
    let mut applicants = vec![
        person(1, 70, 0, 0, true, &["A", "B"]),
        person(2, 80, 0, 0, true, &["A", "B"]),
        person(3, 60, 0, 0, true, &["A", "B"]),
    ];
    applicants[2].current_program = Some("A".to_string());
    let before = applicants.clone();
    let plan = allocate(&applicants, &programs);
    assert_eq!(applicants, before);
    assert_eq!(plan, vec![Some("B".to_string()), Some("A".to_string()), None]);
    recalculate_admissions(&mut applicants, &programs);
    let seats: Vec<Option<String>> =
        applicants.iter().map(|a| a.current_program.clone()).collect();
    assert_eq!(seats, plan);
}

#[test]
fn plan_for_nobody_is_empty() {
    assert_eq!(allocate(&Vec::new(), &table(&[("A", 1)])), Vec::<Option<String>>::new());
    let mut nobody: Vec<Applicant> = Vec::new();
    recalculate_admissions(&mut nobody, &ProgramTable::new());
    assert!(nobody.is_empty());
}

#[test]
fn better_key_is_total_then_math_then_language() {
    let a = person(1, 200, 60, 45, true, &[]);
    assert!(has_better_key(&person(2, 201, 0, 0, true, &[]), &a));
    assert!(has_better_key(&person(2, 200, 61, 0, true, &[]), &a));
    assert!(has_better_key(&person(2, 200, 60, 46, true, &[]), &a));
    assert!(!has_better_key(&person(2, 200, 60, 45, true, &[]), &a));
    assert!(!has_better_key(&person(2, 199, 99, 99, true, &[]), &a));
    assert!(!has_better_key(&person(2, 200, 59, 99, true, &[]), &a));
}

#[test]
fn equal_keys_go_by_position() {
    let applicants = vec![
        person(1, 200, 60, 45, true, &[]),
        person(2, 200, 60, 45, true, &[]),
        person(3, 300, 0, 0, true, &[]),
    ];
    assert!(goes_before(&applicants, 0, 1));
    assert!(!goes_before(&applicants, 1, 0));
    assert!(goes_before(&applicants, 2, 0));
    assert!(!goes_before(&applicants, 0, 2));
    assert!(!goes_before(&applicants, 1, 1));
}

#[test]
fn order_agrees_with_a_stable_sort() {
    for n in [1usize, 2, 3, 7, 64, 257] {
        let applicants = crowd(n);
        let mut expected: Vec<usize> = (0..n).filter(|i| applicants[*i].agreed).collect();
        expected.sort_by(|a, b| {
            let (x, y) = (&applicants[*a], &applicants[*b]);
            y.total_score
                .cmp(&x.total_score)
                .then_with(|| y.scores.math.cmp(&x.scores.math))
                .then_with(|| y.scores.rus.cmp(&x.scores.rus))
        });
        assert_eq!(admission_order(&applicants), expected);
    }
}

#[test]
fn run_on_a_crowd_keeps_every_guarantee() {
    let programs = table(&[("A", 20), ("B", 30), ("C", 1), ("D", 25)]);
    let mut applicants = crowd(300);
    recalculate_admissions(&mut applicants, &programs);
    let order = admission_order(&applicants);
    let mut taken = std::collections::HashMap::new();
    for &i in &order {
        let person = &applicants[i];
        let open = person.priorities.iter().find(|code| {
            let seats = programs.capacity_of(code).unwrap_or(0);
            taken.get(code.as_str()).copied().unwrap_or(0) < seats
        });
        assert_eq!(person.current_program.as_ref(), open);
        if let Some(code) = open {
            *taken.entry(code.as_str()).or_insert(0usize) += 1;
        }
    }
    for person in &applicants {
        if !person.agreed {
            assert_eq!(person.current_program, None);
        }
    }
    let stats = get_detailed_stats(&applicants, &programs);
    for stat in &stats {
        assert!(stat.places_filled <= stat.places_total);
        assert_eq!(
            stat.places_filled as usize,
            taken.get(stat.program_code.as_str()).copied().unwrap_or(0)
        );
        for person in &applicants {
            let rank = person.priorities.iter().position(|code| *code == stat.program_code);
            let held = person
                .current_program
                .as_ref()
                .and_then(|code| person.priorities.iter().position(|c| c == code));
            if person.current_program.as_deref() == Some(stat.program_code.as_str()) {
                assert!(person.total_score >= stat.passing_score);
            }
            if let Some(rank) = rank {
                if person.agreed && held.map_or(true, |h| h > rank) && stat.places_total > 0 {
                    assert_eq!(stat.places_filled, stat.places_total);
                    assert!(stat.passing_score >= person.total_score);
                }
            }
        }
    }
}

#[test]
fn second_run_gives_the_same_statistics() {
    let programs = table(&[("A", 5), ("B", 5), ("D", 5)]);
    let mut applicants = crowd(60);
    recalculate_admissions(&mut applicants, &programs);
    let first = applicants.clone();
    let first_stats = get_detailed_stats(&applicants, &programs);
    recalculate_admissions(&mut applicants, &programs);
    assert_eq!(applicants, first);
    assert_eq!(get_detailed_stats(&applicants, &programs), first_stats);
}

#[test]
fn series_of_a_program_is_by_date() {
    let row = |date: &str, code: &str, cutoff: i32| HistoryRecord {
        record_date: date.to_string(),
        program_code: code.to_string(),
        passing_score: cutoff,
        places_filled: 1,
    };
    let mut history = History::new();
    history.upsert(row("2025-07-03", "A", 30));
    history.upsert(row("2025-07-01", "B", 11));
    history.upsert(row("2025-07-01", "A", 10));
    history.upsert(row("2025-07-02", "A", 20));
    history.upsert(row("2025-06-30", "A", 5));
    assert_eq!(history.series(&"A".to_string()), vec![4, 2, 3, 0]);
    assert_eq!(history.series(&"B".to_string()), vec![1]);
    assert_eq!(history.series(&"C".to_string()), Vec::<usize>::new());
    let cutoffs: Vec<i32> = history
        .series(&"A".to_string())
        .into_iter()
        .map(|at| history.get(at).passing_score)
        .collect();
    assert_eq!(cutoffs, vec![5, 10, 20, 30]);
}
