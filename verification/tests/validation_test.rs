use timeblock_calendar::validation::{
    detect_circular_dependency, validate_time_range, ValidationError,
};

fn now_ts() -> i64 {
    chrono::Utc::now().timestamp()
}

#[test]
fn validate_time_range_ok_for_valid_range() {
    let start = now_ts();
    let end = start + 3600;

    assert!(validate_time_range(start, end).is_ok());
}

#[test]
fn validate_time_range_err_for_reversed_range() {
    let start = now_ts();
    let end = start - 3600;

    assert!(validate_time_range(start, end).is_err());
}

#[test]
fn validate_time_range_err_for_equal_timestamps() {
    let start = now_ts();

    assert!(validate_time_range(start, start).is_err());
}

#[test]
fn detect_circular_dependency_err_when_cycle_exists() {
    let edges = vec![
        ("a".to_string(), "b".to_string()),
        ("b".to_string(), "c".to_string()),
        ("c".to_string(), "a".to_string()),
    ];

    assert!(detect_circular_dependency(&edges).is_err());
}

#[test]
fn detect_circular_dependency_ok_when_no_cycle() {
    let edges = vec![
        ("a".to_string(), "b".to_string()),
        ("b".to_string(), "c".to_string()),
    ];

    assert!(detect_circular_dependency(&edges).is_ok());
}

#[test]
fn detect_circular_dependency_err_on_self_reference() {
    let edges = vec![("a".to_string(), "a".to_string())];

    assert!(detect_circular_dependency(&edges).is_err());
}

#[test]
fn detect_circular_dependency_ok_for_no_edges() {
    let edges: Vec<(String, String)> = Vec::new();

    assert_eq!(detect_circular_dependency(&edges), Ok(()));
}

#[test]
fn detect_circular_dependency_ok_for_diamond() {
    let edges = vec![
        ("a".to_string(), "b".to_string()),
        ("a".to_string(), "c".to_string()),
        ("b".to_string(), "d".to_string()),
        ("c".to_string(), "d".to_string()),
    ];

    assert_eq!(detect_circular_dependency(&edges), Ok(()));
}

#[test]
fn detect_circular_dependency_finds_cycle_off_the_first_node() {
    let edges = vec![
        ("start".to_string(), "x".to_string()),
        ("x".to_string(), "y".to_string()),
        ("y".to_string(), "z".to_string()),
        ("z".to_string(), "x".to_string()),
    ];

    assert_eq!(
        detect_circular_dependency(&edges),
        Err(ValidationError::CircularDependency)
    );
}

#[test]
fn detect_circular_dependency_two_node_cycle() {
    let edges = vec![
        ("p".to_string(), "q".to_string()),
        ("q".to_string(), "p".to_string()),
    ];

    assert_eq!(
        detect_circular_dependency(&edges),
        Err(ValidationError::CircularDependency)
    );
}
