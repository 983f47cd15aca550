use events_analyser::output::{all_share_variant, collect_series, is_same_variant, MetricOutputGeneric};

type Output = MetricOutputGeneric<Option<u32>, Option<(u32, u32)>, Vec<(u32, String)>, Vec<u32>>;
type Series = MetricOutputGeneric<
    Vec<Option<u32>>,
    Vec<Option<(u32, u32)>>,
    Vec<Vec<(u32, String)>>,
    Vec<Vec<u32>>,
>;

fn values_of(series: &Series) -> Vec<Option<u32>> {
    match series {
        MetricOutputGeneric::Value(v) => v.clone(),
        _ => panic!("not a value series"),
    }
}

#[test]
fn apply_matched_pushes_onto_the_matching_variant() {
    let mut series: Series = MetricOutputGeneric::Value(vec![Some(1)]);
    let other: Output = MetricOutputGeneric::Value(Some(7));
    series.apply_matched(&other, Vec::push, Vec::push, Vec::push, Vec::push);
    assert_eq!(values_of(&series), vec![Some(1), Some(7)]);
}

#[test]
fn apply_matched_uses_the_closure_of_the_variant() {
    let mut acc: MetricOutputGeneric<u32, u32, u32, u32> = MetricOutputGeneric::Group(10);
    let other: MetricOutputGeneric<u32, u32, u32, u32> = MetricOutputGeneric::Group(5);
    acc.apply_matched(
        &other,
        |a: &mut u32, b: u32| *a += b,
        |a: &mut u32, b: u32| *a -= b,
        |a: &mut u32, b: u32| *a *= b,
        |a: &mut u32, _b: u32| *a = 0,
    );
    assert!(matches!(acc, MetricOutputGeneric::Group(50)));
}

#[test]
fn collect_series_of_nothing_is_none() {
    let values: Vec<Output> = vec![];
    assert!(collect_series(&values).is_none());
}

#[test]
fn collect_series_keeps_order_and_variant() {
    let values: Vec<Output> = vec![
        MetricOutputGeneric::Value(Some(3)),
        MetricOutputGeneric::Value(None),
        MetricOutputGeneric::Value(Some(5)),
    ];
    let series = collect_series(&values).unwrap();
    assert_eq!(values_of(&series), vec![Some(3), None, Some(5)]);
}

#[test]
fn collect_series_of_one_histogram() {
    let values: Vec<Output> = vec![MetricOutputGeneric::Histograms(vec![1, 2, 3])];
    match collect_series(&values).unwrap() {
        MetricOutputGeneric::Histograms(h) => assert_eq!(h, vec![vec![1, 2, 3]]),
        _ => panic!("wrong variant"),
    }
}

#[test]
fn collect_series_of_groups_clones_text() {
    let values: Vec<Output> = vec![
        MetricOutputGeneric::Group(vec![(1, "a".to_string())]),
        MetricOutputGeneric::Group(vec![]),
    ];
    match collect_series(&values).unwrap() {
        MetricOutputGeneric::Group(g) => {
            assert_eq!(g.len(), 2);
            assert_eq!(g[0], vec![(1, "a".to_string())]);
            assert!(g[1].is_empty());
        }
        _ => panic!("wrong variant"),
    }
}

#[test]
fn variant_checks() {
    let a: Output = MetricOutputGeneric::Value(Some(1));
    let b: Output = MetricOutputGeneric::WithErrors(Some((1, 2)));
    let c: Output = MetricOutputGeneric::Value(None);
    assert!(!is_same_variant(&a, &b));
    assert!(is_same_variant(&a, &c));
    assert!(all_share_variant(&[a.clone_value(), c.clone_value()]));
    assert!(!all_share_variant(&[a.clone_value(), b]));
    assert!(all_share_variant::<u8, u8, u8, u8>(&[]));
}

trait CloneValue {
    fn clone_value(&self) -> Self;
}

impl CloneValue for Output {
    fn clone_value(&self) -> Self {
        match self {
            MetricOutputGeneric::Value(v) => MetricOutputGeneric::Value(*v),
            MetricOutputGeneric::WithErrors(v) => MetricOutputGeneric::WithErrors(*v),
            MetricOutputGeneric::Group(v) => MetricOutputGeneric::Group(v.clone()),
            MetricOutputGeneric::Histograms(v) => MetricOutputGeneric::Histograms(v.clone()),
        }
    }
}
