use advanced_calculator::history::{Calculation, CalculationHistory};

#[test]
fn new_history_is_empty() {
    let h = CalculationHistory::new();
    assert!(h.is_empty());
    assert!(h.calculations().is_empty());
    assert_eq!(h.display_lines(), vec!["No history available.".to_string()]);
}

#[test]
fn add_calculation_appends() {
    let mut h = CalculationHistory::new();
    h.add_calculation("add", "1 + 2", "3");
    h.add_calculation("expression", "2*3", "6");
    assert!(!h.is_empty());
    let c = h.calculations();
    assert_eq!(c.len(), 2);
    assert_eq!(c[0].operation, "add");
    assert_eq!(c[0].expression, "1 + 2");
    assert_eq!(c[0].result, "3");
    assert_eq!(c[1].operation, "expression");
    assert_eq!(c[1].expression, "2*3");
    assert_eq!(c[1].result, "6");
}

#[test]
fn new_calculation_is_stamped_with_local_time() {
    let c = Calculation::new("add", "1 + 2", "3");
    // "YYYY-MM-DD hh:mm:ss"
    let ts: Vec<char> = c.timestamp.chars().collect();
    assert_eq!(ts.len(), 19);
    assert_eq!(ts[4], '-');
    assert_eq!(ts[7], '-');
    assert_eq!(ts[10], ' ');
    assert_eq!(ts[13], ':');
    assert_eq!(ts[16], ':');
}

#[test]
fn clear_empties_the_history() {
    let mut h = CalculationHistory::new();
    h.add_calculation("add", "1 + 2", "3");
    h.clear();
    assert!(h.is_empty());
    assert_eq!(h.display_lines(), vec!["No history available.".to_string()]);
}

#[test]
fn display_lines_format() {
    let mut h = CalculationHistory::new();
    h.push_calculation(Calculation::with_timestamp("add", "1 + 2", "3", "2024-01-02 03:04:05"));
    h.push_calculation(Calculation::with_timestamp("divide", "7 / 2", "3.5 R 1", "2024-01-02 03:04:06"));
    assert_eq!(
        h.display_lines(),
        vec![
            "History of calculations:".to_string(),
            "1. Operation: add, Expression: 1 + 2, Result: 3, Timestamp: 2024-01-02 03:04:05".to_string(),
            "2. Operation: divide, Expression: 7 / 2, Result: 3.5 R 1, Timestamp: 2024-01-02 03:04:06".to_string(),
        ]
    );
}

#[test]
fn display_numbers_beyond_nine() {
    let mut h = CalculationHistory::new();
    for i in 0..12 {
        h.push_calculation(Calculation::with_timestamp("expression", &i.to_string(), &i.to_string(), "t"));
    }
    let lines = h.display_lines();
    assert_eq!(lines.len(), 13);
    assert_eq!(lines[10], "10. Operation: expression, Expression: 9, Result: 9, Timestamp: t");
    assert_eq!(lines[12], "12. Operation: expression, Expression: 11, Result: 11, Timestamp: t");
}

#[test]
fn replace_all_restores_a_saved_history() {
    let mut h = CalculationHistory::new();
    h.add_calculation("add", "1 + 2", "3");
    h.replace_all(vec![
        Calculation::with_timestamp("power", "2 ^ 3", "8", "a"),
        Calculation::with_timestamp("multiply", "2 * 3", "6", "b"),
    ]);
    let c = h.calculations();
    assert_eq!(c.len(), 2);
    assert_eq!(c[0].operation, "power");
    assert_eq!(c[1].timestamp, "b");
}

#[test]
fn law_display_after_push_example() {
    let mut h = CalculationHistory::new();
    h.push_calculation(Calculation::with_timestamp("add", "1 + 1", "2", "t1"));
    let before = h.display_lines();
    h.push_calculation(Calculation::with_timestamp("power", "2 ^ 2", "4", "t2"));
    let after = h.display_lines();
    assert_eq!(after.len(), before.len() + 1);
    assert_eq!(&after[..before.len()], &before[..]);
    assert_eq!(after[2], "2. Operation: power, Expression: 2 ^ 2, Result: 4, Timestamp: t2");
}
