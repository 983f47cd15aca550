use events_analyser::chart::{
    build_group_x_axis, build_scalar_x_axis, gather_series, gather_step, group_values, layout_plan,
    present_values, present_values_with_errors, MAX_AXES,
};

#[test]
fn scalar_x_axis_keeps_positions_with_values() {
    let x = [10u32, 20, 30, 40];
    let data = [Some(1u8), None, Some(3), None];
    assert_eq!(build_scalar_x_axis(&x, &data), vec![10, 30]);
}

#[test]
fn scalar_x_axis_stops_at_the_shorter() {
    let x = [10u32, 20];
    let data = [Some(1u8), Some(2), Some(3)];
    assert_eq!(build_scalar_x_axis(&x, &data), vec![10, 20]);
    let long_x = [1u32, 2, 3, 4];
    assert_eq!(build_scalar_x_axis(&long_x, &data), vec![1, 2, 3]);
}

#[test]
fn present_values_in_order() {
    let data = [None, Some(4i32), Some(-1), None];
    assert_eq!(present_values(&data), vec![4, -1]);
    let none: [Option<i32>; 0] = [];
    assert!(present_values(&none).is_empty());
}

#[test]
fn scalar_axes_line_up_when_axis_is_long_enough() {
    let x = [1u32, 2, 3, 4, 5];
    let data = [Some('a'), None, Some('b')];
    assert_eq!(build_scalar_x_axis(&x, &data).len(), present_values(&data).len());
}

#[test]
fn values_with_errors_split() {
    let data = [Some((1u32, 10u32)), None, Some((2, 20))];
    let (values, errors) = present_values_with_errors(&data);
    assert_eq!(values, vec![1, 2]);
    assert_eq!(errors, vec![10, 20]);
}

#[test]
fn group_x_axis_repeats_each_position() {
    let x = [5u32, 6, 7];
    let data = [Some(vec![1u8, 2]), None, Some(vec![3])];
    assert_eq!(build_group_x_axis(&x, &data), vec![5, 5, 7]);
}

#[test]
fn group_values_flatten_and_unzip() {
    let data = [
        Some(vec![(1u32, "a".to_string()), (2, "b".to_string())]),
        None,
        Some(vec![]),
        Some(vec![(3, "c".to_string())]),
    ];
    let (values, texts) = group_values(&data);
    assert_eq!(values, vec![1, 2, 3]);
    assert_eq!(texts, vec!["a".to_string(), "b".to_string(), "c".to_string()]);
    let x = [0u32, 1, 2, 3];
    assert_eq!(build_group_x_axis(&x, &data), vec![0, 0, 3]);
}

#[test]
fn group_axes_line_up_when_axis_is_long_enough() {
    let x = [1u32, 2, 3];
    let data = [Some(vec![(1u8, "x".to_string())]), Some(vec![(2, "y".to_string()), (3, "z".to_string())])];
    assert_eq!(build_group_x_axis(&x, &data).len(), group_values(&data).0.len());
}

#[test]
fn gather_series_keeps_values_and_empty_slots() {
    let outcomes: Vec<Result<u8, Option<&str>>> = vec![Ok(1), Err(None), Ok(3)];
    assert_eq!(gather_series(outcomes), Ok(vec![Some(1), None, Some(3)]));
    let none: Vec<Result<u8, Option<&str>>> = vec![];
    assert_eq!(gather_series(none), Ok(vec![]));
}

#[test]
fn gather_series_gives_the_first_failure() {
    let outcomes: Vec<Result<u8, Option<&str>>> =
        vec![Ok(1), Err(None), Err(Some("first")), Err(Some("second"))];
    assert_eq!(gather_series(outcomes), Err("first"));
}

#[test]
fn layout_plan_sizes_and_axes() {
    assert_eq!(layout_plan(2, 3, Some(100), Some(50)), Some((Some(300), Some(200), 6)));
    assert_eq!(layout_plan(3, 3, None, None), Some((None, None, MAX_AXES)));
    assert_eq!(layout_plan(0, 4, None, Some(10)), Some((None, Some(50), 0)));
}

#[test]
fn layout_plan_refuses_overflow() {
    assert_eq!(layout_plan(usize::MAX, 1, Some(1), None), None);
    assert_eq!(layout_plan(usize::MAX, 0, Some(0), None), None);
    assert_eq!(layout_plan(1, 2, Some(usize::MAX), None), None);
    assert_eq!(layout_plan(usize::MAX, 2, None, None), None);
    assert_eq!(layout_plan(usize::MAX, 1, None, None), Some((None, None, MAX_AXES)));
}

#[test]
fn gather_step_keeps_or_stops() {
    let mut slots: Vec<Option<u8>> = vec![];
    assert_eq!(gather_step(&mut slots, Ok::<u8, Option<&str>>(4)), None);
    assert_eq!(gather_step(&mut slots, Err::<u8, Option<&str>>(None)), None);
    assert_eq!(slots, vec![Some(4), None]);
    assert_eq!(gather_step(&mut slots, Err::<u8, Option<&str>>(Some("bad"))), Some("bad"));
    assert_eq!(slots, vec![Some(4), None]);
}
