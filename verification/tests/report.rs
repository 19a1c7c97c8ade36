use stats::cli::{exit_code, input_path, usage, Failure};
use stats::report::{banner, report, report_line};
use stats::weight::Weight;
use stats::workout::{estimate_all, Workout};

fn record(date: &str, exercise: &str, weight: &str, reps: u32) -> Workout {
    Workout::from_fields(date.to_string(), exercise.to_string(), weight, reps).unwrap()
}

#[test]
fn five_squats_at_two_hundred() {
    let mut workouts = vec![record("2024-01-01", "Squat", "200.0", 5)];
    estimate_all(&mut workouts);
    assert_eq!(workouts[0].estimated_1rm, Some(233));
    let lines = report(&workouts);
    assert_eq!(lines.len(), 2);
    assert!(lines[1].contains("est. 1RM: 233 lb"));
    assert_eq!(lines[1], "2024-01-01  |  Squat  | 200 lb x 5 reps -> est. 1RM: 233 lb");
}

#[test]
fn a_single_bench_press() {
    let mut workouts = vec![record("2024-01-02", "Bench", "100.0", 1)];
    estimate_all(&mut workouts);
    let lines = report(&workouts);
    assert!(lines[1].contains("est. 1RM: 100 lb"));
    assert_eq!(lines[1], "2024-01-02  |  Bench  | 100 lb x 1 reps -> est. 1RM: 100 lb");
}

#[test]
fn empty_input_gives_the_banner_alone() {
    let mut workouts: Vec<Workout> = Vec::new();
    estimate_all(&mut workouts);
    assert!(workouts.is_empty());
    assert_eq!(report(&workouts), vec!["Stats Calculation".to_string()]);
    assert_eq!(exit_code(Ok(())), 0);
}

#[test]
fn banner_line() {
    assert_eq!(banner(), "Stats Calculation");
}

#[test]
fn order_and_number_of_records_are_kept() {
    let mut workouts = vec![
        record("2024-03-03", "Row", "60", 10),
        record("2024-01-01", "Squat", "200", 5),
        record("2024-02-02", "Bench", "102.5", 8),
        record("2024-01-01", "Squat", "200", 5),
    ];
    let before = workouts.clone();
    estimate_all(&mut workouts);
    assert_eq!(workouts.len(), before.len());
    for (after, before) in workouts.iter().zip(before.iter()) {
        assert_eq!(after.date, before.date);
        assert_eq!(after.exercise, before.exercise);
        assert_eq!(after.weight, before.weight);
        assert_eq!(after.reps, before.reps);
        assert!(after.estimated_1rm.is_some());
    }
    let lines = report(&workouts);
    assert_eq!(
        lines,
        vec![
            "Stats Calculation",
            "2024-03-03  |  Row  | 60 lb x 10 reps -> est. 1RM: 80 lb",
            "2024-01-01  |  Squat  | 200 lb x 5 reps -> est. 1RM: 233 lb",
            "2024-02-02  |  Bench  | 102.5 lb x 8 reps -> est. 1RM: 130 lb",
            "2024-01-01  |  Squat  | 200 lb x 5 reps -> est. 1RM: 233 lb",
        ]
    );
}

#[test]
fn an_estimate_in_the_input_is_overwritten() {
    let mut w = record("2024-01-01", "Squat", "200", 5);
    w.estimated_1rm = Some(1);
    w.estimate();
    assert_eq!(w.estimated_1rm, Some(233));
}

#[test]
fn estimate_fills_one_record() {
    let mut w = record("d", "e", "3", 15);
    assert_eq!(w.estimated_1rm, None);
    w.estimate();
    assert_eq!(w.estimated_1rm, Some(5));
    assert_eq!(w.date, "d");
    assert_eq!(w.exercise, "e");
    assert_eq!(w.weight, Weight { mantissa: 3, scale: 0 });
    assert_eq!(w.reps, 15);
}

#[test]
fn line_of_a_record_with_zero_weight_and_repetitions() {
    let mut w = record("", "", "0", 0);
    w.estimate();
    assert_eq!(report_line(&w), "  |    | 0 lb x 0 reps -> est. 1RM: 0 lb");
}

#[test]
fn line_of_a_negative_weight() {
    let mut w = record("2024-05-05", "Assisted dip", "-12.5", 10);
    w.estimate();
    // -12.5 * 40 / 30 = -16.66...
    assert_eq!(report_line(&w), "2024-05-05  |  Assisted dip  | -12.5 lb x 10 reps -> est. 1RM: -17 lb");
}

#[test]
fn line_keeps_text_that_is_not_ascii() {
    let mut w = record("2024-05-05", "Kniebeuge – tief", "80", 3);
    w.estimate();
    assert_eq!(report_line(&w), "2024-05-05  |  Kniebeuge – tief  | 80 lb x 3 reps -> est. 1RM: 88 lb");
}

#[test]
fn fields_with_a_weight_that_is_no_number() {
    let r = Workout::from_fields("d".to_string(), "e".to_string(), "heavy", 3);
    assert_eq!(r, Err(Failure::Format));
    let r = Workout::from_fields("d".to_string(), "e".to_string(), "1000000000000000000000", 3);
    assert_eq!(r, Err(Failure::Format));
}

#[test]
fn fields_of_a_record() {
    let r = Workout::from_fields("2024-01-01".to_string(), "Squat".to_string(), "200.0", 5);
    assert_eq!(
        r,
        Ok(Workout {
            date: "2024-01-01".to_string(),
            exercise: "Squat".to_string(),
            weight: Weight { mantissa: 200, scale: 0 },
            reps: 5,
            estimated_1rm: None,
        })
    );
}

#[test]
fn one_argument_is_the_path() {
    let args = vec!["stats".to_string(), "workouts.json".to_string()];
    assert_eq!(input_path(&args), Ok("workouts.json".to_string()));
}

#[test]
fn any_other_number_of_arguments_is_a_usage_failure() {
    let none: Vec<String> = Vec::new();
    assert_eq!(input_path(&none), Err(Failure::Usage));
    assert_eq!(input_path(&vec!["stats".to_string()]), Err(Failure::Usage));
    let three = vec!["stats".to_string(), "a.json".to_string(), "b.json".to_string()];
    assert_eq!(input_path(&three), Err(Failure::Usage));
    assert_eq!(exit_code(Err(Failure::Usage)), 1);
}

#[test]
fn usage_line() {
    assert_eq!(usage(), "Usage: stats <path_to_workouts.json>");
}

#[test]
fn failures_leave_with_a_code_that_is_not_zero() {
    assert_eq!(exit_code(Err(Failure::Io)), 1);
    assert_eq!(exit_code(Err(Failure::Format)), 1);
    assert_eq!(exit_code(Ok(())), 0);
}
