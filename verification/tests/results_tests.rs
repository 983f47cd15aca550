use events_analyser::output::MetricOutputGeneric;
use events_analyser::results::{
    BucketIndex, BucketLimits, Channel, CompleteMetricResultBucket, FlatBucket,
    MetricResultBucketWrapper, MetricResultByBucket, PartialMetricResultBucket,
};

/// Adds up the data pushed to it, remembering the channels seen.
#[derive(Clone, Debug, PartialEq)]
struct Tally {
    count: u32,
    channels: Vec<Channel>,
}

/// The aggregated tally; aggregation fails above a ceiling.
#[derive(Clone, Debug, PartialEq)]
struct Total {
    total: u32,
}

impl PartialMetricResultBucket for Tally {
    type Source = u32;
    type Complete = Total;
    type Waveform = ();
    type Algorithm = ();
    type ChannelData = u32;

    fn make_default(source: &u32) -> Self {
        Tally { count: *source, channels: vec![] }
    }

    fn push(&mut self, _waveform: &(), _algorithm: &(), channel: Channel, by_topic: &u32) {
        self.count += by_topic;
        self.channels.push(channel);
    }
}

impl CompleteMetricResultBucket for Total {
    type Partial = Tally;
    type Error = String;
    type Property = u32;
    type Value = u32;
    type WithErrors = ();
    type Group = ();
    type Histograms = ();

    fn aggregate(source: &Tally) -> Result<Total, String> {
        if source.count > 100 {
            Err(format!("too many: {}", source.count))
        } else {
            Ok(Total { total: source.count })
        }
    }

    fn get_property(&self, factor: u32) -> Result<MetricOutputGeneric<u32, (), (), ()>, String> {
        if factor == 0 {
            Err(format!("zero factor for {}", self.total))
        } else if self.total == 99 {
            Ok(MetricOutputGeneric::Group(()))
        } else {
            Ok(MetricOutputGeneric::Value(self.total * factor))
        }
    }
}

fn bucket(min: usize) -> FlatBucket {
    FlatBucket { limits: BucketLimits { min } }
}

fn at(block_index: usize, bucket_index: usize) -> BucketIndex {
    BucketIndex { block_index, bucket_index }
}

fn counts<C>(store: &MetricResultByBucket<C>) -> Vec<Vec<usize>> {
    (0..store.num_blocks())
        .map(|j| (0..store.block_len(j)).map(|i| store.get_bucket(at(j, i)).num_messages).collect())
        .collect()
}

#[test]
fn wrapper_new_is_empty() {
    let w = MetricResultBucketWrapper::<Tally>::new(&4);
    assert_eq!(w.num_messages, 0);
    assert_eq!(w.object, Tally { count: 4, channels: vec![] });
    assert_eq!(w.count, 4);
}

#[test]
fn wrapper_full_enough_at_the_minimum() {
    let mut w = MetricResultBucketWrapper::<Tally>::new(&0);
    assert!(w.is_bucket_full_enough(&bucket(0)));
    assert!(!w.is_bucket_full_enough(&bucket(1)));
    w.increment_count();
    assert_eq!(w.num_messages, 1);
    assert!(w.is_bucket_full_enough(&bucket(1)));
    assert!(!w.is_bucket_full_enough(&bucket(2)));
}

#[test]
fn wrapper_increment_keeps_object() {
    let mut w = MetricResultBucketWrapper::<Tally>::new(&9);
    w.increment_count();
    w.increment_count();
    assert_eq!(w.num_messages, 2);
    assert_eq!(w.object.count, 9);
}

#[test]
fn wrapper_aggregate_keeps_count() {
    let mut w = MetricResultBucketWrapper::<Tally>::new(&12);
    w.increment_count();
    let a = w.aggregate().unwrap();
    assert_eq!(a.num_messages, 1);
    assert_eq!(a.object, Total { total: 12 });
}

#[test]
fn wrapper_aggregate_passes_error_on() {
    let w = MetricResultBucketWrapper::<Tally>::new(&101);
    assert_eq!(w.aggregate().unwrap_err(), "too many: 101");
}

#[test]
fn by_bucket_new_has_the_given_shape() {
    let store = MetricResultByBucket::<Tally>::new(3, &[2, 0, 3]);
    assert_eq!(counts(&store), vec![vec![0, 0], vec![], vec![0, 0, 0]]);
    assert_eq!(store.get_bucket(at(2, 1)).object.count, 3);
}

#[test]
fn fresh_block_full_enough_only_without_minimum() {
    let store = MetricResultByBucket::<Tally>::new(0, &[2]);
    assert!(store.are_buckets_full_enough(0, &[bucket(0), bucket(0)]));
    assert!(!store.are_buckets_full_enough(0, &[bucket(0), bucket(1)]));
}

#[test]
fn full_enough_compares_as_far_as_both_reach() {
    let mut store = MetricResultByBucket::<Tally>::new(0, &[3]);
    store.push(&(), &(), at(0, 0), &[]);
    store.push(&(), &(), at(0, 0), &[]);
    store.push(&(), &(), at(0, 1), &[]);
    assert!(store.are_buckets_full_enough(0, &[bucket(2), bucket(1)]));
    assert!(!store.are_buckets_full_enough(0, &[bucket(2), bucket(1), bucket(1)]));
    assert!(store.are_buckets_full_enough(0, &[]));
}

#[test]
fn push_counts_one_message_in_one_bucket() {
    let mut store = MetricResultByBucket::<Tally>::new(0, &[2, 2]);
    store.push(&(), &(), at(1, 0), &[(4, 10), (7, 5)]);
    assert_eq!(counts(&store), vec![vec![0, 0], vec![1, 0]]);
    let pushed = &store.get_bucket(at(1, 0)).object;
    assert_eq!(pushed.count, 15);
    assert_eq!(pushed.channels, vec![4, 7]);
    assert_eq!(store.get_bucket(at(0, 0)).object.count, 0);
}

#[test]
fn push_keeps_full_blocks_full() {
    let mut store = MetricResultByBucket::<Tally>::new(0, &[2]);
    store.push(&(), &(), at(0, 0), &[]);
    store.push(&(), &(), at(0, 1), &[]);
    let limits = [bucket(1), bucket(1)];
    assert!(store.are_buckets_full_enough(0, &limits));
    store.push(&(), &(), at(0, 1), &[]);
    assert!(store.are_buckets_full_enough(0, &limits));
}

#[test]
fn load_data_of_same_shape_copies_counts() {
    let mut source = MetricResultByBucket::<Tally>::new(1, &[2, 1]);
    source.push(&(), &(), at(0, 1), &[(1, 2)]);
    source.push(&(), &(), at(1, 0), &[]);
    source.push(&(), &(), at(1, 0), &[]);
    let mut target = MetricResultByBucket::<Tally>::new(0, &[2, 1]);
    target.load_data(&source);
    assert_eq!(counts(&target), vec![vec![0, 1], vec![2]]);
    assert_eq!(target.get_bucket(at(0, 1)).object.count, 3);
}

#[test]
fn load_data_pairs_buckets_in_flattened_order() {
    let mut source = MetricResultByBucket::<Tally>::new(0, &[1, 2]);
    source.push(&(), &(), at(0, 0), &[]);
    source.push(&(), &(), at(1, 1), &[]);
    source.push(&(), &(), at(1, 1), &[]);
    let mut target = MetricResultByBucket::<Tally>::new(5, &[2, 0, 2]);
    target.push(&(), &(), at(2, 1), &[]);
    target.load_data(&source);
    // source flattened counts: [1, 0, 2]; the fourth target bucket has no partner
    assert_eq!(counts(&target), vec![vec![1, 0], vec![], vec![2, 1]]);
    assert_eq!(target.get_bucket(at(2, 1)).object.count, 5);
}

#[test]
fn aggregate_keeps_shape_and_counts() {
    let mut store = MetricResultByBucket::<Tally>::new(2, &[1, 2]);
    store.push(&(), &(), at(1, 1), &[(0, 3)]);
    let complete = store.aggregate().unwrap();
    assert_eq!(complete.num_blocks(), 2);
    assert_eq!(complete.block_len(1), 2);
    assert_eq!(complete.get_bucket(at(1, 1)).num_messages, 1);
    assert_eq!(complete.get_bucket(at(1, 1)).object, Total { total: 5 });
    assert_eq!(complete.get_bucket(at(0, 0)).object, Total { total: 2 });
}

#[test]
fn aggregate_reports_the_first_failing_bucket() {
    let mut store = MetricResultByBucket::<Tally>::new(0, &[2, 1]);
    store.push(&(), &(), at(0, 1), &[(0, 150)]);
    store.push(&(), &(), at(1, 0), &[(0, 200)]);
    assert_eq!(store.aggregate().unwrap_err(), "too many: 150");
}

#[test]
fn deref_reaches_the_object() {
    let w = MetricResultBucketWrapper::<Tally>::new(&8);
    let c: u32 = w.count;
    assert_eq!(c, 8);
}

/// Loads by keeping the larger count, so that a load that merely cloned would show.
#[derive(Clone, Debug, PartialEq)]
struct Peak {
    high: u32,
}

/// The aggregated peak.
#[derive(Clone, Debug, PartialEq)]
struct PeakTotal {
    high: u32,
}

impl PartialMetricResultBucket for Peak {
    type Source = u32;
    type Complete = PeakTotal;
    type Waveform = ();
    type Algorithm = ();
    type ChannelData = u32;

    fn make_default(source: &u32) -> Self {
        Peak { high: *source }
    }

    fn load_data(&mut self, source: &Self) {
        if source.high > self.high {
            self.high = source.high;
        }
    }

    fn push(&mut self, _waveform: &(), _algorithm: &(), _channel: Channel, by_topic: &u32) {
        if *by_topic > self.high {
            self.high = *by_topic;
        }
    }
}

impl CompleteMetricResultBucket for PeakTotal {
    type Partial = Peak;
    type Error = String;
    type Property = ();
    type Value = u32;
    type WithErrors = ();
    type Group = ();
    type Histograms = ();

    fn aggregate(source: &Peak) -> Result<PeakTotal, String> {
        Ok(PeakTotal { high: source.high })
    }

    fn get_property(&self, _property: ()) -> Result<MetricOutputGeneric<u32, (), (), ()>, String> {
        Ok(MetricOutputGeneric::Value(self.high))
    }
}

#[test]
fn load_data_calls_the_objects_own_load() {
    let mut source = MetricResultByBucket::<Peak>::new(4, &[2]);
    source.push(&(), &(), at(0, 0), &[(0, 9)]);
    let mut target = MetricResultByBucket::<Peak>::new(6, &[2]);
    target.load_data(&source);
    assert_eq!(target.get_bucket(at(0, 0)).object, Peak { high: 9 });
    assert_eq!(target.get_bucket(at(0, 1)).object, Peak { high: 6 });
    assert_eq!(counts(&target), vec![vec![1, 0]]);
}

#[test]
fn loading_the_same_results_twice_changes_nothing() {
    let mut source = MetricResultByBucket::<Tally>::new(2, &[1, 2]);
    source.push(&(), &(), at(1, 0), &[(3, 4)]);
    let mut target = MetricResultByBucket::<Tally>::new(0, &[1, 2]);
    target.load_data(&source);
    let once: Vec<Vec<(usize, Tally)>> = target
        .buckets()
        .iter()
        .map(|block| block.iter().map(|b| (b.num_messages, b.object.clone())).collect())
        .collect();
    target.load_data(&source);
    let twice: Vec<Vec<(usize, Tally)>> = target
        .buckets()
        .iter()
        .map(|block| block.iter().map(|b| (b.num_messages, b.object.clone())).collect())
        .collect();
    assert_eq!(once, twice);
    assert_eq!(once[1][0], (1, Tally { count: 6, channels: vec![3] }));
}

#[test]
fn push_hands_each_channel_to_the_object_in_order() {
    let mut store = MetricResultByBucket::<Tally>::new(0, &[1]);
    store.push(&(), &(), at(0, 0), &[(9, 1), (2, 1), (5, 1)]);
    assert_eq!(store.get_bucket(at(0, 0)).object.channels, vec![9, 2, 5]);
    store.push(&(), &(), at(0, 0), &[]);
    assert_eq!(store.get_bucket(at(0, 0)).object.count, 3);
    assert_eq!(counts(&store), vec![vec![2]]);
}

#[test]
fn aggregate_error_comes_from_the_earlier_block() {
    let mut store = MetricResultByBucket::<Tally>::new(0, &[1, 2]);
    store.push(&(), &(), at(1, 0), &[(0, 300)]);
    store.push(&(), &(), at(0, 0), &[(0, 120)]);
    assert_eq!(store.aggregate().unwrap_err(), "too many: 120");
}

#[test]
fn store_from_buckets_keeps_them() {
    let store = MetricResultByBucket::from_buckets(vec![
        vec![MetricResultBucketWrapper { num_messages: 3, object: Tally { count: 1, channels: vec![] } }],
        vec![],
    ]);
    assert_eq!(counts(&store), vec![vec![3], vec![]]);
    assert_eq!(store.buckets()[0][0].object.count, 1);
}

#[test]
fn get_property_gives_the_series_of_a_block() {
    let mut store = MetricResultByBucket::<Tally>::new(2, &[1, 3]);
    store.push(&(), &(), at(1, 2), &[(0, 1)]);
    let complete = store.aggregate().unwrap();
    match complete.get_property(1, 4) {
        Ok(Some(MetricOutputGeneric::Value(values))) => assert_eq!(values, vec![8, 8, 12]),
        other => panic!("unexpected: {:?}", other),
    }
}

#[test]
fn get_property_gives_the_first_error() {
    let mut store = MetricResultByBucket::<Tally>::new(2, &[3]);
    store.push(&(), &(), at(0, 0), &[(0, 3)]);
    let complete = store.aggregate().unwrap();
    match complete.get_property(0, 0) {
        Err(e) => assert_eq!(e, "zero factor for 5"),
        other => panic!("unexpected: {:?}", other),
    }
}

#[test]
fn get_property_of_mixed_shapes_is_no_series() {
    let mut store = MetricResultByBucket::<Tally>::new(2, &[2]);
    store.push(&(), &(), at(0, 1), &[(0, 97)]);
    let complete = store.aggregate().unwrap();
    assert!(matches!(complete.get_property(0, 1), Ok(None)));
}

#[test]
fn get_property_of_one_bucket() {
    let store = MetricResultByBucket::<Peak>::new(7, &[1]);
    let complete = store.aggregate().unwrap();
    match complete.get_property(0, ()) {
        Ok(Some(MetricOutputGeneric::Value(values))) => assert_eq!(values, vec![7]),
        other => panic!("unexpected: {:?}", other),
    }
}

#[test]
fn new_fills_each_block_from_one_default() {
    let store = MetricResultByBucket::<Peak>::new(11, &[2, 1]);
    assert_eq!(store.get_bucket(at(0, 0)).object, Peak { high: 11 });
    assert_eq!(store.get_bucket(at(0, 1)).object, Peak { high: 11 });
    assert_eq!(store.get_bucket(at(1, 0)).object, Peak { high: 11 });
}
