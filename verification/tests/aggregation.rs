use power_monitor::current_monitor::{Current, CurrentArray, CurrentType};

fn example_array() -> CurrentArray {
    // 1.2, 1.0, 9.3, 1.5, 7.6 units, in milli-units
    CurrentArray::new(vec![
        Current::new(1200),
        Current::new(1000),
        Current::new(9300),
        Current::new(1500),
        Current::new(7600),
    ])
}

fn example_types() -> Vec<CurrentType> {
    vec![
        CurrentType::Source,
        CurrentType::Drain,
        CurrentType::Drain,
        CurrentType::Unknown,
        CurrentType::Unknown,
    ]
}

#[test]
fn combine_example() {
    // 1.2 - 1.0 - 9.3 - 1.5 - 7.6 = -18.2
    assert_eq!(example_array().combine(&example_types()), -18200);
}

#[test]
fn combine_ignoring_example() {
    // ignoring indexes 3 and 4: 1.2 - 1.0 - 9.3 = -9.1
    assert_eq!(
        example_array().combine_ignoring(&example_types(), &vec![3, 4]),
        -9100
    );
}

#[test]
fn combine_ignoring_empty_list_is_combine() {
    let a = example_array();
    let t = example_types();
    assert_eq!(a.combine_ignoring(&t, &vec![]), a.combine(&t));
    assert_eq!(a.combine_ignoring(&t, &vec![]), -18200);
}

#[test]
fn combine_ignoring_duplicates_and_out_of_range() {
    let a = example_array();
    let t = example_types();
    assert_eq!(a.combine_ignoring(&t, &vec![3, 4, 4, 3, 99, 1000000]), -9100);
    assert_eq!(a.combine_ignoring(&t, &vec![99]), a.combine(&t));
}

#[test]
fn combine_empty_array() {
    let a = CurrentArray::new(vec![]);
    assert_eq!(a.combine(&vec![]), 0);
    assert_eq!(a.combine_ignoring(&vec![], &vec![0, 1]), 0);
}

#[test]
fn combine_all_sources() {
    let a = CurrentArray::new(vec![Current::new(500), Current::new(2500)]);
    let t = vec![CurrentType::Source, CurrentType::Source];
    assert_eq!(a.combine(&t), 3000);
}

#[test]
fn unknown_counts_as_drain() {
    let a = CurrentArray::new(vec![Current::new(700), Current::new(700)]);
    assert_eq!(
        a.combine(&vec![CurrentType::Source, CurrentType::Unknown]),
        a.combine(&vec![CurrentType::Source, CurrentType::Drain])
    );
}

#[test]
fn generate_line_example() {
    assert_eq!(example_array().generate_line(), ",1.2,1,9.3,1.5,7.6");
}

#[test]
fn generate_line_fractions() {
    let a = CurrentArray::new(vec![Current::new(4), Current::new(1234), Current::new(0)]);
    assert_eq!(a.generate_line(), ",0.004,1.234,0");
}
