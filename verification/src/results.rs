//! Storage of metric results by bucket: each bucket keeps the number of messages
//! pushed to it and the metric's own results object.

use crate::output::{
    all_share_variant, all_same_variant, collect_series, is_series_of, same_shape_as, same_variant,
    MetricOutputGeneric,
};
use std::ops::Deref;
use vstd::prelude::*;

verus! {

/// A detector channel number.
pub type Channel = u32;

/// Locates one bucket: its block, and its place in that block.
#[derive(Clone, Copy, Debug, PartialEq, Eq, Structural)]
pub struct BucketIndex {
    pub block_index: usize,
    pub bucket_index: usize,
}

/// The bounds on the amount of data a bucket should hold.
#[derive(Clone, Copy, Debug, PartialEq, Eq, Structural)]
pub struct BucketLimits {
    /// Fewest messages the bucket needs before it is aggregated.
    pub min: usize,
}

/// A bucket as configured: what the results logic reads of it.
#[derive(Clone, Copy, Debug, PartialEq, Eq, Structural)]
pub struct FlatBucket {
    pub limits: BucketLimits,
}

/// Results of a metric, built up message by message within one bucket.
pub trait PartialMetricResultBucket: Sized + Clone {
    /// Configuration from which an empty results object is made.
    type Source;
    /// The aggregated form of these results.
    type Complete: CompleteMetricResultBucket<Partial = Self>;
    /// The waveform settings a message was analysed with.
    type Waveform;
    /// The algorithm settings a message was analysed with.
    type Algorithm;
    /// The data one channel holds, by topic.
    type ChannelData;

    fn make_default(source: &Self::Source) -> Self;

    /// Replaces these results with those of `source`; unless overridden, by a clone.
    fn load_data(&mut self, source: &Self)
        default_ensures
            cloned(*source, *final(self)),
    {
        *self = source.clone();
    }

    fn push(
        &mut self,
        waveform: &Self::Waveform,
        algorithm: &Self::Algorithm,
        channel: Channel,
        by_topic: &Self::ChannelData,
    );
}

/// Results of a metric aggregated from the partial results of one bucket.
pub trait CompleteMetricResultBucket: Sized + Clone {
    /// The corresponding partial results type.
    type Partial;
    /// Error type.
    type Error;
    /// Type which specifies a particular property of the metric.
    type Property: Clone;
    /// What a property read as a single value holds.
    type Value: Clone;
    /// What a property read as a value with errors holds.
    type WithErrors: Clone;
    /// What a property read as a group of values holds.
    type Group: Clone;
    /// What a property read as histograms holds.
    type Histograms: Clone;

    /// Creates an instance of this object by aggregating a partial results object.
    fn aggregate(source: &Self::Partial) -> Result<Self, Self::Error>;

    /// Extracts a particular property of the results.
    fn get_property(&self, property: Self::Property) -> Result<
        MetricOutputGeneric<Self::Value, Self::WithErrors, Self::Group, Self::Histograms>,
        Self::Error,
    >;
}

/// A results object, with the number of messages that have been pushed to it.
#[derive(Debug)]
pub struct MetricResultBucketWrapper<C> {
    /// Number of messages stored in this bucket.
    pub num_messages: usize,
    /// Underlying results storage object.
    pub object: C,
}

impl<C: Clone> Clone for MetricResultBucketWrapper<C> {
    fn clone(&self) -> (res: Self)
        ensures
            res.num_messages == self.num_messages,
            cloned(self.object, res.object),
    {
        MetricResultBucketWrapper { num_messages: self.num_messages, object: self.object.clone() }
    }
}

impl<C> Deref for MetricResultBucketWrapper<C> {
    type Target = C;

    fn deref(&self) -> (res: &C)
        ensures
            *res == self.object,
    {
        &self.object
    }
}

impl<C: PartialMetricResultBucket> MetricResultBucketWrapper<C> {
    /// Creates a new and empty partial results storage object.
    pub fn new(source: &C::Source) -> (res: Self)
        ensures
            res.num_messages == 0,
            call_ensures(<C as PartialMetricResultBucket>::make_default, (source,), res.object),
    {
        MetricResultBucketWrapper { num_messages: 0, object: C::make_default(source) }
    }

    /// Tests whether the bucket has enough data to be aggregated.
    pub fn is_bucket_full_enough(&self, bucket: &FlatBucket) -> (res: bool)
        ensures
            res == (self.num_messages >= bucket.limits.min),
    {
        self.num_messages >= bucket.limits.min
    }

    /// Increases the message count by one.
    pub fn increment_count(&mut self)
        requires
            old(self).num_messages < usize::MAX,
        ensures
            final(self).num_messages == old(self).num_messages + 1,
            final(self).object == old(self).object,
    {
        self.num_messages = self.num_messages + 1;
    }

    /// Creates the aggregated version of this bucket, with the same message count.
    pub fn aggregate(&self) -> (res: Result<
        MetricResultBucketWrapper<C::Complete>,
        <C::Complete as CompleteMetricResultBucket>::Error,
    >)
        ensures
            res matches Ok(w) ==> w.num_messages == self.num_messages && call_ensures(
                <C::Complete as CompleteMetricResultBucket>::aggregate,
                (&self.object,),
                Ok(w.object),
            ),
            res matches Err(e) ==> call_ensures(
                <C::Complete as CompleteMetricResultBucket>::aggregate,
                (&self.object,),
                Err(e),
            ),
    {
        let object = C::Complete::aggregate(&self.object)?;
        Ok(MetricResultBucketWrapper { num_messages: self.num_messages, object })
    }
}

/// The results of a metric stored by bucket: the outer `Vec` holds the bucket
/// blocks, each inner `Vec` the buckets of one block.
#[derive(Debug)]
pub struct MetricResultByBucket<C> {
    by_bucket: Vec<Vec<MetricResultBucketWrapper<C>>>,
}

impl<C> View for MetricResultByBucket<C> {
    type V = Seq<Seq<MetricResultBucketWrapper<C>>>;

    closed spec fn view(&self) -> Self::V {
        self.by_bucket@.map_values(|block: Vec<MetricResultBucketWrapper<C>>| block@)
    }
}

/// Every bucket of `block` holds a clone of one results object that `make_default` may
/// make from `source`.
pub open spec fn block_made_by_default<C: PartialMetricResultBucket>(
    source: &C::Source,
    block: Seq<MetricResultBucketWrapper<C>>,
) -> bool {
    exists|d: C|
        #[trigger] call_ensures(<C as PartialMetricResultBucket>::make_default, (source,), d)
            && forall|i: int| 0 <= i < block.len() ==> cloned(d, #[trigger] block[i].object)
}

/// `a` and `b` have the same number of blocks, and of buckets in each block.
pub open spec fn same_shape<C, D>(
    a: Seq<Seq<MetricResultBucketWrapper<C>>>,
    b: Seq<Seq<MetricResultBucketWrapper<D>>>,
) -> bool {
    &&& a.len() == b.len()
    &&& forall|j: int| 0 <= j < a.len() ==> #[trigger] a[j].len() == b[j].len()
}

/// `index` names a bucket of `buckets`.
pub open spec fn valid_index<C>(buckets: Seq<Seq<MetricResultBucketWrapper<C>>>, index: BucketIndex) -> bool {
    &&& index.block_index < buckets.len()
    &&& index.bucket_index < buckets[index.block_index as int].len()
}

/// `(j, i)` names a bucket of `buckets`: block `j`, place `i` in that block.
pub open spec fn has_bucket<C>(buckets: Seq<Seq<MetricResultBucketWrapper<C>>>, j: int, i: int) -> bool {
    0 <= j < buckets.len() && 0 <= i < buckets[j].len()
}

/// Every bucket of `block` reaches the minimum of the configured bucket at its place,
/// as far as both lists reach.
pub open spec fn block_full_enough<C>(
    block: Seq<MetricResultBucketWrapper<C>>,
    buckets: Seq<FlatBucket>,
) -> bool {
    forall|i: int|
        0 <= i < block.len() && i < buckets.len() ==> #[trigger] block[i].num_messages
            >= buckets[i].limits.min
}

impl<C> MetricResultByBucket<C> {
    /// A store that holds `by_bucket` as it is: one inner `Vec` per block of buckets.
    pub fn from_buckets(by_bucket: Vec<Vec<MetricResultBucketWrapper<C>>>) -> (res: Self)
        ensures
            res@ == by_bucket@.map_values(|block: Vec<MetricResultBucketWrapper<C>>| block@),
    {
        MetricResultByBucket { by_bucket }
    }

    /// The buckets of this store, block by block.
    pub fn buckets(&self) -> (res: &Vec<Vec<MetricResultBucketWrapper<C>>>)
        ensures
            res@.map_values(|block: Vec<MetricResultBucketWrapper<C>>| block@) == self@,
    {
        &self.by_bucket
    }

    /// The number of bucket blocks.
    pub fn num_blocks(&self) -> (res: usize)
        ensures
            res == self@.len(),
    {
        self.by_bucket.len()
    }

    /// The number of buckets in block `block`.
    pub fn block_len(&self, block: usize) -> (res: usize)
        requires
            block < self@.len(),
        ensures
            res == self@[block as int].len(),
    {
        self.by_bucket[block].len()
    }

    /// The bucket named by `bucket_index`.
    pub fn get_bucket(&self, bucket_index: BucketIndex) -> (res: &MetricResultBucketWrapper<C>)
        requires
            valid_index(self@, bucket_index),
        ensures
            *res == self@[bucket_index.block_index as int][bucket_index.bucket_index as int],
    {
        &self.by_bucket[bucket_index.block_index][bucket_index.bucket_index]
    }
}

impl<C: PartialMetricResultBucket> MetricResultByBucket<C> {
    /// Creates storage for each block, `bucket_block_sizes[j]` empty buckets in block `j`,
    /// each made from `source`.
    pub fn new(source: C::Source, bucket_block_sizes: &[usize]) -> (res: Self)
        ensures
            res@.len() == bucket_block_sizes@.len(),
            forall|j: int|
                0 <= j < bucket_block_sizes@.len() ==> #[trigger] res@[j].len()
                    == bucket_block_sizes@[j],
            forall|j: int, i: int|
                0 <= j < res@.len() && 0 <= i < res@[j].len() ==> #[trigger] res@[j][i].num_messages
                    == 0,
            forall|j: int| 0 <= j < res@.len() ==> block_made_by_default::<C>(&source, #[trigger] res@[j]),
    {
        let mut by_bucket: Vec<Vec<MetricResultBucketWrapper<C>>> = Vec::new();
        let ghost mut defaults: Seq<C> = seq![];
        let n = bucket_block_sizes.len();
        for j in 0..n
            invariant
                n == bucket_block_sizes@.len(),
                by_bucket@.len() == j,
                defaults.len() == j,
                forall|k: int| 0 <= k < j ==> #[trigger] by_bucket@[k]@.len() == bucket_block_sizes@[k],
                forall|k: int, i: int|
                    0 <= k < j && 0 <= i < by_bucket@[k]@.len() ==> #[trigger] by_bucket@[k]@[i].num_messages
                        == 0,
                forall|k: int|
                    #![trigger defaults[k]]
                    0 <= k < j ==> call_ensures(
                        <C as PartialMetricResultBucket>::make_default,
                        (&source,),
                        defaults[k],
                    ),
                forall|k: int, i: int|
                    0 <= k < j && 0 <= i < by_bucket@[k]@.len() ==> cloned(
                        defaults[k],
                        #[trigger] by_bucket@[k]@[i].object,
                    ),
        {
            let size = bucket_block_sizes[j];
            let empty = MetricResultBucketWrapper::<C>::new(&source);
            let mut block: Vec<MetricResultBucketWrapper<C>> = Vec::new();
            for i in 0..size
                invariant
                    block@.len() == i,
                    empty.num_messages == 0,
                    forall|k: int| 0 <= k < i ==> #[trigger] block@[k].num_messages == 0,
                    forall|k: int| 0 <= k < i ==> cloned(empty.object, #[trigger] block@[k].object),
            {
                block.push(empty.clone());
            }
            let ghost before = by_bucket@;
            let ghost fresh = block@;
            by_bucket.push(block);
            proof {
                let old_defaults = defaults;
                defaults = defaults.push(empty.object);
                assert forall|k: int, i: int|
                    0 <= k < j + 1 && 0 <= i < by_bucket@[k]@.len() implies cloned(
                    defaults[k],
                    #[trigger] by_bucket@[k]@[i].object,
                ) by {
                    if k < j {
                        assert(by_bucket@[k] == before[k]);
                        assert(defaults[k] == old_defaults[k]);
                    } else {
                        assert(by_bucket@[k]@ == fresh);
                    }
                }
                assert forall|k: int| #![trigger defaults[k]] 0 <= k < j + 1 implies call_ensures(
                    <C as PartialMetricResultBucket>::make_default,
                    (&source,),
                    defaults[k],
                ) by {
                    if k < j {
                        assert(defaults[k] == old_defaults[k]);
                    }
                }
                assert forall|k: int, i: int|
                    0 <= k < j + 1 && 0 <= i < by_bucket@[k]@.len() implies #[trigger] by_bucket@[k]@[i].num_messages
                    == 0 by {
                    if k < j {
                        assert(by_bucket@[k] == before[k]);
                    } else {
                        assert(by_bucket@[k]@ == fresh);
                    }
                }
            }
        }
        let res = MetricResultByBucket { by_bucket };
        assert(res@.len() == n);
        assert forall|j: int| 0 <= j < res@.len() implies block_made_by_default::<C>(&source, #[trigger] res@[j]) by {
            assert(res@[j] == by_bucket@[j]@);
            assert(call_ensures(<C as PartialMetricResultBucket>::make_default, (&source,), defaults[j]));
            assert forall|i: int| 0 <= i < res@[j].len() implies cloned(defaults[j], #[trigger] res@[j][i].object) by {
                assert(cloned(defaults[j], by_bucket@[j]@[i].object));
            }
        }
        res
    }

    /// Tests whether every bucket of block `block` holds at least the minimum number of
    /// messages of the configured bucket at its place.
    pub fn are_buckets_full_enough(&self, block: usize, buckets: &[FlatBucket]) -> (res: bool)
        requires
            block < self@.len(),
        ensures
            res == block_full_enough(self@[block as int], buckets@),
            res ==> forall|i: int|
                0 <= i < self@[block as int].len() && i < buckets@.len() ==> #[trigger] self@[block as int][i].num_messages
                    >= buckets@[i].limits.min,
            !res ==> exists|i: int|
                0 <= i < self@[block as int].len() && i < buckets@.len() && #[trigger] self@[block as int][i].num_messages
                    < buckets@[i].limits.min,
    {
        let store = &self.by_bucket[block];
        let n = if store.len() < buckets.len() { store.len() } else { buckets.len() };
        assert(store@ == self@[block as int]);
        for i in 0..n
            invariant
                n <= store@.len(),
                n <= buckets@.len(),
                n == store@.len() || n == buckets@.len(),
                store@ == self@[block as int],
                forall|k: int| 0 <= k < i ==> #[trigger] store@[k].num_messages >= buckets@[k].limits.min,
        {
            if !store[i].is_bucket_full_enough(&buckets[i]) {
                assert(self@[block as int][i as int].num_messages < buckets@[i as int].limits.min);
                return false;
            }
        }
        true
    }

    /// Adds the data of a message to the bucket named by `bucket_index`: its message count
    /// goes up by one and each channel of `collection` is pushed to its results object, in
    /// order. Every other bucket stays as it was.
    pub fn push(
        &mut self,
        waveform: &C::Waveform,
        algorithm: &C::Algorithm,
        bucket_index: BucketIndex,
        collection: &[(Channel, C::ChannelData)],
    )
        requires
            valid_index(old(self)@, bucket_index),
            old(self)@[bucket_index.block_index as int][bucket_index.bucket_index as int].num_messages
                < usize::MAX,
        ensures
            message_added(old(self)@, final(self)@, bucket_index),
            exists|refs: Seq<&mut C>|
                #![trigger refs.len()]
                {
                    let before = old(self)@[bucket_index.block_index as int][bucket_index.bucket_index as int].object;
                    let after = final(self)@[bucket_index.block_index as int][bucket_index.bucket_index as int].object;
                    &&& refs.len() == collection@.len()
                    &&& refs.len() == 0 ==> after == before
                    &&& refs.len() > 0 ==> *refs[0] == before && *final(refs[refs.len() - 1])
                        == after
                    &&& forall|k: int|
                        0 <= k < refs.len() - 1 ==> *final(#[trigger] refs[k]) == *refs[k + 1]
                    &&& forall|k: int|
                        0 <= k < refs.len() ==> call_ensures(
                            <C as PartialMetricResultBucket>::push,
                            (
                                #[trigger] refs[k],
                                waveform,
                                algorithm,
                                collection@[k].0,
                                &collection@[k].1,
                            ),
                            (),
                        )
                },
    {
        let partial_metric_result = self.get_bucket_mut(bucket_index);
        partial_metric_result.increment_count();
        push_channels(partial_metric_result, waveform, algorithm, collection);
    }

    /// Loads the results of `source`, bucket by bucket in flattened order (block by
    /// block, each block in order): the bucket at the `k`-th place of `self` takes the
    /// message count of the bucket at the `k`-th place of `source`, and its results object
    /// loads the results object of that bucket. Buckets beyond the last one of `source`
    /// stay as they were.
    pub fn load_data(&mut self, source: &Self)
        ensures
            same_shape(final(self)@, old(self)@),
            forall|j: int, i: int|
                0 <= j < old(self)@.len() && 0 <= i < old(self)@[j].len() ==> count_loaded(
                    #[trigger] final(self)@[j][i],
                    old(self)@[j][i],
                    source@.flatten(),
                    flat_place(old(self)@, j, i),
                ),
            forall|j: int, i: int|
                0 <= j < old(self)@.len() && 0 <= i < old(self)@[j].len() && #[trigger] flat_place(old(self)@, j, i)
                    < source@.flatten().len() ==> exists|r: &mut C|
                    *r == old(self)@[j][i].object && *final(r) == final(self)@[j][i].object
                        && #[trigger] call_ensures(
                        <C as PartialMetricResultBucket>::load_data,
                        (r, &source@.flatten()[flat_place(old(self)@, j, i)].object),
                        (),
                    ),
    {
        let positions = flat_positions(source);
        proof {
            assert(old(self)@.take(0) =~= Seq::<Seq<MetricResultBucketWrapper<C>>>::empty());
            assert(old(self)@.take(0).flatten() =~= Seq::<MetricResultBucketWrapper<C>>::empty());
            lemma_flatten_offset_total(old(self)@);
        }
        load_buckets_from(self, source, &positions, 0, 0, 0);
    }

    /// Aggregates every bucket, block by block and each block in order; the first
    /// bucket whose aggregation fails gives the error. On success the result has the
    /// shape of `self`, and each bucket keeps its message count.
    pub fn aggregate(&self) -> (res: Result<
        MetricResultByBucket<C::Complete>,
        <C::Complete as CompleteMetricResultBucket>::Error,
    >)
        ensures
            res matches Ok(r) ==> {
                &&& same_shape(r@, self@)
                &&& forall|j: int, i: int|
                    0 <= j < self@.len() && 0 <= i < self@[j].len() ==> {
                        &&& #[trigger] r@[j][i].num_messages == self@[j][i].num_messages
                        &&& call_ensures(
                            <C::Complete as CompleteMetricResultBucket>::aggregate,
                            (&self@[j][i].object,),
                            Ok(r@[j][i].object),
                        )
                    }
            },
            res matches Err(e) ==> exists|j: int, i: int|
                #![trigger self@[j][i]]
                {
                    &&& has_bucket(self@, j, i)
                    &&& call_ensures(
                        <C::Complete as CompleteMetricResultBucket>::aggregate,
                        (&self@[j][i].object,),
                        Err(e),
                    )
                    &&& forall|l: int, m: int|
                        has_bucket(self@, l, m) && comes_before(l, m, j, i) ==> #[trigger] aggregates_ok(
                            self@[l][m].object,
                        )
                },
    {
        let mut by_bucket: Vec<Vec<MetricResultBucketWrapper<C::Complete>>> = Vec::new();
        let nb = self.by_bucket.len();
        let mut b: usize = 0;
        while b < nb
            invariant
                b <= nb,
                nb == self@.len(),
                by_bucket@.len() == b,
                forall|j: int| 0 <= j < b ==> #[trigger] by_bucket@[j]@.len() == self@[j].len(),
                forall|j: int, i: int|
                    0 <= j < b && 0 <= i < self@[j].len() ==> {
                        &&& #[trigger] by_bucket@[j]@[i].num_messages == self@[j][i].num_messages
                        &&& call_ensures(
                            <C::Complete as CompleteMetricResultBucket>::aggregate,
                            (&self@[j][i].object,),
                            Ok(by_bucket@[j]@[i].object),
                        )
                    },
                forall|j: int, i: int|
                    0 <= j < b && 0 <= i < self@[j].len() ==> #[trigger] aggregates_ok(self@[j][i].object),
            decreases nb - b,
        {
            assert(self.by_bucket@[b as int]@ == self@[b as int]);
            let aggregated = match aggregate_block(&self.by_bucket[b]) {
                Ok(aggregated) => aggregated,
                Err(e) => {
                    let ghost i = choose|i: int|
                        #![trigger self@[b as int][i]]
                        {
                            &&& 0 <= i < self@[b as int].len()
                            &&& call_ensures(
                                <C::Complete as CompleteMetricResultBucket>::aggregate,
                                (&self@[b as int][i].object,),
                                Err(e),
                            )
                            &&& forall|l: int|
                                0 <= l < i ==> #[trigger] aggregates_ok(self@[b as int][l].object)
                        };
                    assert(has_bucket(self@, b as int, i));
                    assert forall|l: int, m: int|
                        has_bucket(self@, l, m) && comes_before(l, m, b as int, i) implies #[trigger] aggregates_ok(
                        self@[l][m].object,
                    ) by {
                        if l == b {
                            assert(0 <= m < i);
                        }
                    }
                    return Err(e);
                },
            };
            let ghost before = by_bucket@;
            let ghost fresh = aggregated@;
            by_bucket.push(aggregated);
            b = b + 1;
            proof {
                assert forall|j: int, i: int| 0 <= j < b && 0 <= i < self@[j].len() implies {
                    &&& #[trigger] by_bucket@[j]@[i].num_messages == self@[j][i].num_messages
                    &&& call_ensures(
                        <C::Complete as CompleteMetricResultBucket>::aggregate,
                        (&self@[j][i].object,),
                        Ok(by_bucket@[j]@[i].object),
                    )
                } by {
                    if j < b - 1 {
                        assert(by_bucket@[j] == before[j]);
                    } else {
                        assert(by_bucket@[j]@ == fresh);
                        assert(fresh[i].num_messages == self@[j][i].num_messages);
                    }
                }
                assert forall|j: int, i: int| 0 <= j < b && 0 <= i < self@[j].len() implies #[trigger] aggregates_ok(
                    self@[j][i].object,
                ) by {
                    if j == b - 1 {
                        assert(by_bucket@[j]@[i].num_messages == self@[j][i].num_messages);
                    }
                }
            }
        }
        let res = MetricResultByBucket { by_bucket };
        assert(same_shape(res@, self@));
        Ok(res)
    }

    /// The bucket named by `bucket_index`, to be changed in place.
    fn get_bucket_mut(&mut self, bucket_index: BucketIndex) -> (res: &mut MetricResultBucketWrapper<C>)
        requires
            valid_index(old(self)@, bucket_index),
        ensures
            *res == old(self)@[bucket_index.block_index as int][bucket_index.bucket_index as int],
            final(self)@ == old(self)@.update(
                bucket_index.block_index as int,
                old(self)@[bucket_index.block_index as int].update(
                    bucket_index.bucket_index as int,
                    *final(res),
                ),
            ),
    {
        &mut self.by_bucket[bucket_index.block_index][bucket_index.bucket_index]
    }
}

/// `out` is a possible outcome of reading `property` of `object`, handed a clone of it.
pub open spec fn property_outcome<C: CompleteMetricResultBucket>(
    object: C,
    property: C::Property,
    out: Result<MetricOutputGeneric<C::Value, C::WithErrors, C::Group, C::Histograms>, C::Error>,
) -> bool {
    exists|p: C::Property|
        cloned(property, p) && #[trigger] call_ensures(
            <C as CompleteMetricResultBucket>::get_property,
            (&object, p),
            out,
        )
}

/// Reading `property` of `object` can succeed.
pub open spec fn property_readable<C: CompleteMetricResultBucket>(object: C, property: C::Property) -> bool {
    exists|o: MetricOutputGeneric<C::Value, C::WithErrors, C::Group, C::Histograms>|
        #[trigger] property_outcome(object, property, Ok(o))
}

impl<C: CompleteMetricResultBucket> MetricResultByBucket<C> {
    /// The series of `property` over the buckets of block `block`, in order; the first
    /// bucket whose reading fails gives the error. `Ok(None)` where the outputs read do
    /// not all share one shape, and so make no series.
    pub fn get_property(&self, block: usize, property: C::Property) -> (res: Result<
        Option<
            MetricOutputGeneric<
                Vec<C::Value>,
                Vec<C::WithErrors>,
                Vec<C::Group>,
                Vec<C::Histograms>,
            >,
        >,
        C::Error,
    >)
        requires
            block < self@.len(),
            self@[block as int].len() > 0,
        ensures
            res matches Err(e) ==> exists|k: int|
                #![trigger self@[block as int][k]]
                {
                    &&& 0 <= k < self@[block as int].len()
                    &&& property_outcome(self@[block as int][k].object, property, Err(e))
                    &&& forall|l: int|
                        0 <= l < k ==> #[trigger] property_readable(self@[block as int][l].object, property)
                },
            res matches Ok(r) ==> exists|outputs: Seq<MetricOutputGeneric<C::Value, C::WithErrors, C::Group, C::Histograms>>|
                #![trigger outputs.len()]
                {
                    &&& outputs.len() == self@[block as int].len()
                    &&& forall|k: int|
                        0 <= k < outputs.len() ==> property_outcome(
                            self@[block as int][k].object,
                            property,
                            Ok(#[trigger] outputs[k]),
                        )
                    &&& r is None <==> !all_same_variant(outputs)
                    &&& r is None <==> exists|k: int|
                        0 <= k < outputs.len() && !same_shape_as(#[trigger] outputs[k], outputs[0])
                    &&& r matches Some(s) ==> same_variant(s, outputs[0]) && is_series_of(s, outputs)
                },
    {
        let buckets = &self.by_bucket[block];
        assert(buckets@ == self@[block as int]);
        let mut outputs: Vec<MetricOutputGeneric<C::Value, C::WithErrors, C::Group, C::Histograms>> =
            Vec::new();
        let n = buckets.len();
        for k in 0..n
            invariant
                n == buckets@.len(),
                buckets@ == self@[block as int],
                outputs@.len() == k,
                forall|l: int|
                    0 <= l < k ==> property_outcome(buckets@[l].object, property, Ok(#[trigger] outputs@[l])),
        {
            let p = property.clone();
            match buckets[k].object.get_property(p) {
                Ok(o) => {
                    assert(property_outcome(buckets@[k as int].object, property, Ok(o)));
                    outputs.push(o);
                },
                Err(e) => {
                    assert(property_outcome(buckets@[k as int].object, property, Err(e)));
                    assert forall|l: int| 0 <= l < k implies #[trigger] property_readable(
                        self@[block as int][l].object,
                        property,
                    ) by {
                        assert(property_outcome(buckets@[l].object, property, Ok(outputs@[l])));
                    }
                    return Err(e);
                },
            }
        }
        if !all_share_variant(outputs.as_slice()) {
            return Ok(None);
        }
        Ok(collect_series(outputs.as_slice()))
    }
}

/// The number of buckets that come before block `j` in flattened order.
pub open spec fn flat_offset<C>(s: Seq<Seq<MetricResultBucketWrapper<C>>>, j: int) -> int {
    s.take(j).flatten().len() as int
}

/// `now` is `before` after loading from the bucket at place `k` of `src`, as far as the
/// message count goes: it has that bucket's message count; where `src` has no such place,
/// the bucket is unchanged, results object included.
pub open spec fn count_loaded<C>(
    now: MetricResultBucketWrapper<C>,
    before: MetricResultBucketWrapper<C>,
    src: Seq<MetricResultBucketWrapper<C>>,
    k: int,
) -> bool {
    &&& k < src.len() ==> now.num_messages == src[k].num_messages
    &&& k >= src.len() ==> now == before
}

/// `x`, but no more than `bound`.
pub open spec fn clamp(x: int, bound: int) -> int {
    if x < bound {
        x
    } else {
        bound
    }
}

proof fn lemma_take_flatten_step<A>(s: Seq<Seq<A>>, j: int)
    requires
        0 <= j < s.len(),
    ensures
        s.take(j + 1).flatten() == s.take(j).flatten() + s[j],
{
    assert(s.take(j + 1) =~= s.take(j).push(s[j]));
    s.take(j).lemma_flatten_push(s[j]);
}

proof fn lemma_flat_index<A>(s: Seq<Seq<A>>, j: int, i: int)
    requires
        0 <= j < s.len(),
        0 <= i < s[j].len(),
    ensures
        s.take(j).flatten().len() + i < s.flatten().len(),
        s.flatten()[s.take(j).flatten().len() + i] == s[j][i],
{
    lemma_take_flatten_step(s, j);
    assert(s == s.take(j + 1) + s.skip(j + 1));
    vstd::seq_lib::lemma_flatten_concat(s.take(j + 1), s.skip(j + 1));
}

proof fn lemma_same_shape_offsets<C, D>(
    a: Seq<Seq<MetricResultBucketWrapper<C>>>,
    b: Seq<Seq<MetricResultBucketWrapper<D>>>,
    j: int,
)
    requires
        same_shape(a, b),
        0 <= j <= a.len(),
    ensures
        flat_offset(a, j) == flat_offset(b, j),
    decreases j,
{
    if j > 0 {
        lemma_same_shape_offsets(a, b, j - 1);
        lemma_take_flatten_step(a, j - 1);
        lemma_take_flatten_step(b, j - 1);
        assert(a[j - 1].len() == b[j - 1].len());
    }
}

/// Loading from a store of the same shape loads every bucket from the bucket at the same
/// place: it takes that bucket's message count, and its results object is what the results
/// type's `load_data` leaves of the old object when handed that bucket's object.
pub proof fn law_load_same_shape_loads_each_bucket<C: PartialMetricResultBucket>(
    before: Seq<Seq<MetricResultBucketWrapper<C>>>,
    after: Seq<Seq<MetricResultBucketWrapper<C>>>,
    source: Seq<Seq<MetricResultBucketWrapper<C>>>,
)
    requires
        same_shape(before, source),
        same_shape(after, before),
        forall|j: int, i: int|
            0 <= j < before.len() && 0 <= i < before[j].len() ==> count_loaded(
                #[trigger] after[j][i],
                before[j][i],
                source.flatten(),
                flat_place(before, j, i),
            ),
        forall|j: int, i: int|
            0 <= j < before.len() && 0 <= i < before[j].len() && #[trigger] flat_place(before, j, i)
                < source.flatten().len() ==> exists|r: &mut C|
                *r == before[j][i].object && *final(r) == after[j][i].object && #[trigger] call_ensures(
                    <C as PartialMetricResultBucket>::load_data,
                    (r, &source.flatten()[flat_place(before, j, i)].object),
                    (),
                ),
    ensures
        forall|j: int, i: int|
            #[trigger] has_bucket(source, j, i) ==> {
                &&& after[j][i].num_messages == source[j][i].num_messages
                &&& exists|r: &mut C|
                    *r == before[j][i].object && *final(r) == after[j][i].object && #[trigger] call_ensures(
                        <C as PartialMetricResultBucket>::load_data,
                        (r, &source[j][i].object),
                        (),
                    )
            },
{
    assert forall|j: int, i: int| #[trigger] has_bucket(source, j, i) implies {
        &&& after[j][i].num_messages == source[j][i].num_messages
        &&& exists|r: &mut C|
            *r == before[j][i].object && *final(r) == after[j][i].object && #[trigger] call_ensures(
                <C as PartialMetricResultBucket>::load_data,
                (r, &source[j][i].object),
                (),
            )
    } by {
        lemma_same_shape_offsets(before, source, j);
        lemma_flat_index(source, j, i);
        assert(flat_place(before, j, i) < source.flatten().len());
        assert(source.flatten()[flat_place(before, j, i)] == source[j][i]);
        assert(count_loaded(after[j][i], before[j][i], source.flatten(), flat_place(before, j, i)));
        let r = choose|r: &mut C|
            *r == before[j][i].object && *final(r) == after[j][i].object && #[trigger] call_ensures(
                <C as PartialMetricResultBucket>::load_data,
                (r, &source.flatten()[flat_place(before, j, i)].object),
                (),
            );
        assert(call_ensures(<C as PartialMetricResultBucket>::load_data, (r, &source[j][i].object), ()));
    }
}

/// Where the results type's `load_data` leaves an exact copy of the object it is handed
/// (as its default, a clone, does for a type whose clones are equal), loading from a store
/// of the same shape makes every bucket equal to the bucket at the same place, and loading
/// from that store a second time changes nothing.
pub proof fn law_copying_load_twice_changes_nothing<C: PartialMetricResultBucket>(
    before: Seq<Seq<MetricResultBucketWrapper<C>>>,
    once: Seq<Seq<MetricResultBucketWrapper<C>>>,
    twice: Seq<Seq<MetricResultBucketWrapper<C>>>,
    source: Seq<Seq<MetricResultBucketWrapper<C>>>,
)
    requires
        forall|r: &mut C, s: &C|
            #[trigger] call_ensures(<C as PartialMetricResultBucket>::load_data, (r, s), ()) ==> *final(r)
                == *s,
        same_shape(before, source),
        same_shape(once, before),
        same_shape(twice, once),
        forall|j: int, i: int|
            0 <= j < before.len() && 0 <= i < before[j].len() ==> count_loaded(
                #[trigger] once[j][i],
                before[j][i],
                source.flatten(),
                flat_place(before, j, i),
            ),
        forall|j: int, i: int|
            0 <= j < before.len() && 0 <= i < before[j].len() && #[trigger] flat_place(before, j, i)
                < source.flatten().len() ==> exists|r: &mut C|
                *r == before[j][i].object && *final(r) == once[j][i].object && #[trigger] call_ensures(
                    <C as PartialMetricResultBucket>::load_data,
                    (r, &source.flatten()[flat_place(before, j, i)].object),
                    (),
                ),
        forall|j: int, i: int|
            0 <= j < once.len() && 0 <= i < once[j].len() ==> count_loaded(
                #[trigger] twice[j][i],
                once[j][i],
                source.flatten(),
                flat_place(once, j, i),
            ),
        forall|j: int, i: int|
            0 <= j < once.len() && 0 <= i < once[j].len() && #[trigger] flat_place(once, j, i)
                < source.flatten().len() ==> exists|r: &mut C|
                *r == once[j][i].object && *final(r) == twice[j][i].object && #[trigger] call_ensures(
                    <C as PartialMetricResultBucket>::load_data,
                    (r, &source.flatten()[flat_place(once, j, i)].object),
                    (),
                ),
    ensures
        once == source,
        twice == once,
{
    law_load_same_shape_loads_each_bucket(before, once, source);
    law_load_same_shape_loads_each_bucket(once, twice, source);
    assert forall|j: int| 0 <= j < source.len() implies #[trigger] once[j] == source[j] by {
        assert forall|i: int| 0 <= i < source[j].len() implies #[trigger] once[j][i] == source[j][i] by {
            assert(has_bucket(source, j, i));
        }
        assert(once[j] =~= source[j]);
    }
    assert(once =~= source);
    assert forall|j: int| 0 <= j < once.len() implies #[trigger] twice[j] == once[j] by {
        assert forall|i: int| 0 <= i < once[j].len() implies #[trigger] twice[j][i] == once[j][i] by {
            assert(has_bucket(source, j, i));
        }
        assert(twice[j] =~= once[j]);
    }
    assert(twice =~= once);
}

/// The buckets of `after` are those of `before`, but for the bucket at `index`, whose
/// message count is one more: what pushing a message does to the message counts.
pub open spec fn message_added<C>(
    before: Seq<Seq<MetricResultBucketWrapper<C>>>,
    after: Seq<Seq<MetricResultBucketWrapper<C>>>,
    index: BucketIndex,
) -> bool {
    &&& valid_index(before, index)
    &&& same_shape(after, before)
    &&& forall|j: int, i: int|
        0 <= j < before.len() && 0 <= i < before[j].len() && !(j == index.block_index && i
            == index.bucket_index) ==> #[trigger] after[j][i] == before[j][i]
    &&& after[index.block_index as int][index.bucket_index as int].num_messages
        == before[index.block_index as int][index.bucket_index as int].num_messages + 1
}

/// A block with one bucket below the minimum configured at its place is not full enough.
pub proof fn law_bucket_below_minimum_blocks_fullness<C>(
    block: Seq<MetricResultBucketWrapper<C>>,
    buckets: Seq<FlatBucket>,
    i: int,
)
    requires
        0 <= i < block.len(),
        i < buckets.len(),
        block[i].num_messages < buckets[i].limits.min,
    ensures
        !block_full_enough(block, buckets),
{
}

/// A block whose every bucket holds at least the minimum configured at its place (as far
/// as both lists reach) is full enough.
pub proof fn law_all_minimums_met_makes_block_full<C>(
    block: Seq<MetricResultBucketWrapper<C>>,
    buckets: Seq<FlatBucket>,
)
    requires
        forall|i: int|
            0 <= i < block.len() && i < buckets.len() ==> block[i].num_messages >= buckets[i].limits.min,
    ensures
        block_full_enough(block, buckets),
{
}

/// Pushing a message never makes a block that was full enough stop being so.
pub proof fn law_push_keeps_blocks_full_enough<C>(
    before: Seq<Seq<MetricResultBucketWrapper<C>>>,
    after: Seq<Seq<MetricResultBucketWrapper<C>>>,
    index: BucketIndex,
    buckets: Seq<FlatBucket>,
    block: int,
)
    requires
        message_added(before, after, index),
        0 <= block < before.len(),
        block_full_enough(before[block], buckets),
    ensures
        block_full_enough(after[block], buckets),
{
    assert forall|i: int| 0 <= i < after[block].len() && i < buckets.len() implies #[trigger] after[block][i].num_messages
        >= buckets[i].limits.min by {
        assert(before[block][i].num_messages >= buckets[i].limits.min);
    }
}

/// Aggregating keeps every message count, so a block of the aggregated results is full
/// enough exactly when the block it came from was.
pub proof fn law_aggregate_keeps_fullness<C, D>(
    partial: Seq<Seq<MetricResultBucketWrapper<C>>>,
    complete: Seq<Seq<MetricResultBucketWrapper<D>>>,
    buckets: Seq<FlatBucket>,
    block: int,
)
    requires
        same_shape(complete, partial),
        forall|j: int, i: int|
            0 <= j < partial.len() && 0 <= i < partial[j].len() ==> #[trigger] complete[j][i].num_messages
                == partial[j][i].num_messages,
        0 <= block < partial.len(),
    ensures
        block_full_enough(complete[block], buckets) == block_full_enough(partial[block], buckets),
{
    assert(complete[block].len() == partial[block].len());
    assert forall|i: int| 0 <= i < partial[block].len() implies #[trigger] complete[block][i].num_messages
        == partial[block][i].num_messages by {}
    if block_full_enough(partial[block], buckets) {
        assert forall|i: int| 0 <= i < complete[block].len() && i < buckets.len() implies #[trigger] complete[block][i].num_messages
            >= buckets[i].limits.min by {
            assert(partial[block][i].num_messages >= buckets[i].limits.min);
        }
    }
    if block_full_enough(complete[block], buckets) {
        assert forall|i: int| 0 <= i < partial[block].len() && i < buckets.len() implies #[trigger] partial[block][i].num_messages
            >= buckets[i].limits.min by {
            assert(complete[block][i].num_messages >= buckets[i].limits.min);
        }
    }
}

/// A store fresh from `new` holds no messages, so one of its blocks is full enough
/// exactly when no configured bucket it is compared with asks for any message.
pub proof fn law_fresh_block_full_enough_iff_no_minimum<C>(
    block: Seq<MetricResultBucketWrapper<C>>,
    buckets: Seq<FlatBucket>,
)
    requires
        forall|i: int| 0 <= i < block.len() ==> #[trigger] block[i].num_messages == 0,
    ensures
        block_full_enough(block, buckets) <==> forall|i: int|
            0 <= i < block.len() && i < buckets.len() ==> #[trigger] buckets[i].limits.min == 0,
{
    if block_full_enough(block, buckets) {
        assert forall|i: int| 0 <= i < block.len() && i < buckets.len() implies #[trigger] buckets[i].limits.min
            == 0 by {
            assert(block[i].num_messages >= buckets[i].limits.min);
        }
    }
    if forall|i: int| 0 <= i < block.len() && i < buckets.len() ==> #[trigger] buckets[i].limits.min == 0 {
        assert forall|i: int| 0 <= i < block.len() && i < buckets.len() implies #[trigger] block[i].num_messages
            >= buckets[i].limits.min by {
            assert(buckets[i].limits.min == 0);
        }
    }
}

/// The places of the buckets of `store`, in flattened order.
fn flat_positions<C>(store: &MetricResultByBucket<C>) -> (res: Vec<BucketIndex>)
    ensures
        res@.len() == store@.flatten().len(),
        forall|k: int|
            0 <= k < res@.len() ==> valid_index(store@, #[trigger] res@[k])
                && store@[res@[k].block_index as int][res@[k].bucket_index as int]
                == store@.flatten()[k],
{
    let mut res: Vec<BucketIndex> = Vec::new();
    let nb = store.by_bucket.len();
    for b in 0..nb
        invariant
            nb == store@.len(),
            res@.len() == store@.take(b as int).flatten().len(),
            forall|k: int|
                0 <= k < res@.len() ==> valid_index(store@, #[trigger] res@[k])
                    && store@[res@[k].block_index as int][res@[k].bucket_index as int]
                    == store@.take(b as int).flatten()[k],
    {
        proof {
            lemma_take_flatten_step(store@, b as int);
        }
        let ghost prefix = store@.take(b as int).flatten();
        let n = store.by_bucket[b].len();
        assert(n == store@[b as int].len());
        for i in 0..n
            invariant
                nb == store@.len(),
                b < nb,
                n == store@[b as int].len(),
                res@.len() == prefix.len() + i,
                forall|k: int|
                    0 <= k < res@.len() ==> valid_index(store@, #[trigger] res@[k])
                        && store@[res@[k].block_index as int][res@[k].bucket_index as int]
                        == (prefix + store@[b as int])[k],
        {
            res.push(BucketIndex { block_index: b, bucket_index: i });
        }
    }
    assert(store@.take(nb as int) == store@);
    res
}

/// Aggregating `object` can succeed: some aggregated results object is a possible
/// outcome of `aggregate` on it.
pub open spec fn aggregates_ok<C: PartialMetricResultBucket>(object: C) -> bool {
    exists|c: C::Complete|
        #[trigger] call_ensures(<C::Complete as CompleteMetricResultBucket>::aggregate, (&object,), Ok(c))
}

/// Aggregates each bucket of `block` in order; the first whose aggregation fails gives
/// the error.
fn aggregate_block<C: PartialMetricResultBucket>(
    block: &Vec<MetricResultBucketWrapper<C>>,
) -> (res: Result<
    Vec<MetricResultBucketWrapper<C::Complete>>,
    <C::Complete as CompleteMetricResultBucket>::Error,
>)
    ensures
        res matches Ok(r) ==> {
            &&& r@.len() == block@.len()
            &&& forall|k: int|
                0 <= k < block@.len() ==> {
                    &&& #[trigger] r@[k].num_messages == block@[k].num_messages
                    &&& call_ensures(
                        <C::Complete as CompleteMetricResultBucket>::aggregate,
                        (&block@[k].object,),
                        Ok(r@[k].object),
                    )
                }
        },
        res matches Err(e) ==> exists|k: int|
            #![trigger block@[k]]
            {
                &&& 0 <= k < block@.len()
                &&& call_ensures(
                    <C::Complete as CompleteMetricResultBucket>::aggregate,
                    (&block@[k].object,),
                    Err(e),
                )
                &&& forall|l: int| 0 <= l < k ==> #[trigger] aggregates_ok(block@[l].object)
            },
{
    let mut aggregated: Vec<MetricResultBucketWrapper<C::Complete>> = Vec::new();
    let n = block.len();
    let mut i: usize = 0;
    while i < n
        invariant
            i <= n,
            n == block@.len(),
            aggregated@.len() == i,
            forall|k: int|
                0 <= k < i ==> {
                    &&& #[trigger] aggregated@[k].num_messages == block@[k].num_messages
                    &&& call_ensures(
                        <C::Complete as CompleteMetricResultBucket>::aggregate,
                        (&block@[k].object,),
                        Ok(aggregated@[k].object),
                    )
                },
            forall|k: int| 0 <= k < i ==> #[trigger] aggregates_ok(block@[k].object),
        decreases n - i,
    {
        let bucket = match block[i].aggregate() {
            Ok(bucket) => {
                assert(call_ensures(
                    <C::Complete as CompleteMetricResultBucket>::aggregate,
                    (&block@[i as int].object,),
                    Ok(bucket.object),
                ));
                bucket
            },
            Err(e) => {
                assert(call_ensures(
                    <C::Complete as CompleteMetricResultBucket>::aggregate,
                    (&block@[i as int].object,),
                    Err(e),
                ));
                return Err(e);
            },
        };
        let ghost before = aggregated@;
        aggregated.push(bucket);
        assert forall|k: int| 0 <= k < i + 1 implies {
            &&& #[trigger] aggregated@[k].num_messages == block@[k].num_messages
            &&& call_ensures(
                <C::Complete as CompleteMetricResultBucket>::aggregate,
                (&block@[k].object,),
                Ok(aggregated@[k].object),
            )
        } by {
            if k < i {
                assert(aggregated@[k] == before[k]);
            } else {
                assert(aggregated@[k] == bucket);
            }
        }
        assert(aggregates_ok(block@[i as int].object));
        i = i + 1;
    }
    Ok(aggregated)
}

/// Loads the results object `source` into `object`.
fn load_into_object<C: PartialMetricResultBucket>(object: &mut C, source: &C)
    ensures
        exists|r: &mut C|
            *r == *old(object) && *final(r) == *final(object) && #[trigger] call_ensures(
                <C as PartialMetricResultBucket>::load_data,
                (r, source),
                (),
            ),
{
    object.load_data(source);
}

/// The place of bucket `(j, l)` of `s` in flattened order.
pub open spec fn flat_place<C>(s: Seq<Seq<MetricResultBucketWrapper<C>>>, j: int, l: int) -> int {
    flat_offset(s, j) + l
}

/// Bucket `(j, l)` comes before bucket `(b, i)` in flattened order.
pub open spec fn comes_before(j: int, l: int, b: int, i: int) -> bool {
    j < b || (j == b && l < i)
}

proof fn lemma_flatten_offset_total<A>(s: Seq<Seq<MetricResultBucketWrapper<A>>>)
    ensures
        flat_offset(s, s.len() as int) == s.flatten().len(),
{
    assert(s.take(s.len() as int) == s);
}

proof fn lemma_offset_step<A>(s: Seq<Seq<MetricResultBucketWrapper<A>>>, j: int)
    requires
        0 <= j < s.len(),
    ensures
        flat_offset(s, j + 1) == flat_offset(s, j) + s[j].len(),
{
    lemma_take_flatten_step(s, j);
}

proof fn lemma_offset_monotone<A>(s: Seq<Seq<MetricResultBucketWrapper<A>>>, a: int, b: int)
    requires
        0 <= a < b <= s.len(),
    ensures
        flat_offset(s, a) + s[a].len() <= flat_offset(s, b),
    decreases b - a,
{
    lemma_offset_step(s, a);
    if a + 1 < b {
        lemma_offset_monotone(s, a + 1, b);
    }
}

/// Every bucket `(j, l)` of `s` from `(b, i)` on lies at or after flattened place
/// `flat_place(s, b, i)`, and strictly after it unless it is `(b, i)`.
proof fn lemma_later_places<A>(s: Seq<Seq<MetricResultBucketWrapper<A>>>, b: int, i: int)
    requires
        0 <= b < s.len(),
        0 <= i < s[b].len(),
    ensures
        forall|j: int, l: int|
            0 <= j < s.len() && 0 <= l < s[j].len() && !comes_before(j, l, b, i) ==> {
                &&& #[trigger] flat_place(s, j, l) >= flat_place(s, b, i)
                &&& !(j == b && l == i) ==> flat_place(s, j, l) > flat_place(s, b, i)
            },
{
    assert forall|j: int, l: int|
        0 <= j < s.len() && 0 <= l < s[j].len() && !comes_before(j, l, b, i) implies {
            &&& #[trigger] flat_place(s, j, l) >= flat_place(s, b, i)
            &&& !(j == b && l == i) ==> flat_place(s, j, l) > flat_place(s, b, i)
        } by {
        if j > b {
            lemma_offset_monotone(s, b, j);
        }
    }
}

/// Loads into `store` the buckets from `(b, i)` on, in flattened order, from the buckets
/// of `source` at the same flattened places (`counter` is the place of `(b, i)`, or the
/// number of buckets of `source` if that is smaller); buckets before `(b, i)` are left
/// as they were.
fn load_buckets_from<C: PartialMetricResultBucket>(
    store: &mut MetricResultByBucket<C>,
    source: &MetricResultByBucket<C>,
    positions: &Vec<BucketIndex>,
    b: usize,
    i: usize,
    counter: usize,
)
    requires
        positions@.len() == source@.flatten().len(),
        forall|k: int|
            0 <= k < positions@.len() ==> valid_index(source@, #[trigger] positions@[k])
                && source@[positions@[k].block_index as int][positions@[k].bucket_index as int]
                == source@.flatten()[k],
        b <= old(store)@.len(),
        b < old(store)@.len() ==> i <= old(store)@[b as int].len(),
        b == old(store)@.len() ==> i == 0,
        counter == clamp(flat_offset(old(store)@, b as int) + i, source@.flatten().len() as int),
    ensures
        same_shape(final(store)@, old(store)@),
        forall|j: int, l: int|
            0 <= j < old(store)@.len() && 0 <= l < old(store)@[j].len() && comes_before(j, l, b as int, i as int)
                ==> #[trigger] final(store)@[j][l] == old(store)@[j][l],
        forall|j: int, l: int|
            0 <= j < old(store)@.len() && 0 <= l < old(store)@[j].len() && !comes_before(j, l, b as int, i as int)
                ==> count_loaded(
                #[trigger] final(store)@[j][l],
                old(store)@[j][l],
                source@.flatten(),
                flat_place(old(store)@, j, l),
            ),
        forall|j: int, l: int|
            0 <= j < old(store)@.len() && 0 <= l < old(store)@[j].len() && !comes_before(j, l, b as int, i as int)
                && #[trigger] flat_place(old(store)@, j, l) < source@.flatten().len() ==> exists|r: &mut C|
                *r == old(store)@[j][l].object && *final(r) == final(store)@[j][l].object
                    && #[trigger] call_ensures(
                    <C as PartialMetricResultBucket>::load_data,
                    (r, &source@.flatten()[flat_place(old(store)@, j, l)].object),
                    (),
                ),
    decreases old(store)@.len() - b, if b < old(store)@.len() { old(store)@[b as int].len() - i } else { 0 },
{
    let ghost start = store@;
    proof {
        lemma_flatten_offset_total(start);
    }
    if b == store.by_bucket.len() {
        return;
    }
    assert(store@[b as int] == store.by_bucket@[b as int]@);
    if i == store.by_bucket[b].len() {
        proof {
            lemma_offset_step(start, b as int);
            if b + 1 < start.len() {
                lemma_offset_monotone(start, (b + 1) as int, start.len() as int);
            }
        }
        load_buckets_from(store, source, positions, b + 1, 0, counter);
        return;
    }
    proof {
        lemma_later_places(start, b as int, i as int);
        lemma_offset_step(start, b as int);
        if b + 1 < start.len() {
            lemma_offset_monotone(start, b as int, start.len() as int);
        } else {
            assert(b + 1 == start.len());
        }
    }
    if counter < positions.len() {
        let at = positions[counter];
        let source_bucket = &source.by_bucket[at.block_index][at.bucket_index];
        assert(*source_bucket == source@.flatten()[counter as int]);
        let bucket = store.get_bucket_mut(BucketIndex { block_index: b, bucket_index: i });
        bucket.num_messages = source_bucket.num_messages;
        load_into_object(&mut bucket.object, &source_bucket.object);
        let ghost middle = store@;
        proof {
            lemma_same_shape_offsets(middle, start, b as int);
            assert forall|j: int| 0 <= j <= middle.len() implies #[trigger] flat_offset(middle, j) == flat_offset(start, j) by {
                lemma_same_shape_offsets(middle, start, j);
            }
            lemma_flatten_offset_total(middle);
        }
        load_buckets_from(store, source, positions, b, i + 1, counter + 1);
        proof {
            assert forall|j: int, l: int| 0 <= j <= start.len() implies #[trigger] flat_place(start, j, l) == flat_place(middle, j, l) by {
                lemma_same_shape_offsets(middle, start, j);
            }
            let r = choose|r: &mut C|
                *r == start[b as int][i as int].object && *final(r) == middle[b as int][i as int].object
                    && #[trigger] call_ensures(
                    <C as PartialMetricResultBucket>::load_data,
                    (r, &source_bucket.object),
                    (),
                );
            assert(call_ensures(
                <C as PartialMetricResultBucket>::load_data,
                (r, &source@.flatten()[flat_place(start, b as int, i as int)].object),
                (),
            ));
        }
    } else {
        load_buckets_from(store, source, positions, b, i + 1, counter);
    }
}

/// Pushes the data of one channel to a results object.
fn push_to_object<C: PartialMetricResultBucket>(
    object: &mut C,
    waveform: &C::Waveform,
    algorithm: &C::Algorithm,
    channel: Channel,
    by_topic: &C::ChannelData,
)
    ensures
        exists|r: &mut C|
            *r == *old(object) && *final(r) == *final(object) && #[trigger] call_ensures(
                <C as PartialMetricResultBucket>::push,
                (r, waveform, algorithm, channel, by_topic),
                (),
            ),
{
    object.push(waveform, algorithm, channel, by_topic);
}

/// Pushes the channels of `collection` from place `start` on, in order, to `object`.
/// `refs` are the references that the successive pushes were handed: the first holds the
/// object as it was, each leaves what the next one holds, and the last leaves the object
/// as it ends.
fn push_channels_from<C: PartialMetricResultBucket>(
    object: &mut C,
    waveform: &C::Waveform,
    algorithm: &C::Algorithm,
    collection: &[(Channel, C::ChannelData)],
    start: usize,
)
    requires
        start <= collection@.len(),
    ensures
        exists|refs: Seq<&mut C>|
            #![trigger refs.len()]
            {
                &&& refs.len() == collection@.len() - start
                &&& refs.len() == 0 ==> *final(object) == *old(object)
                &&& refs.len() > 0 ==> *refs[0] == *old(object) && *final(refs[refs.len() - 1])
                    == *final(object)
                &&& forall|k: int|
                    0 <= k < refs.len() - 1 ==> *final(#[trigger] refs[k]) == *refs[k + 1]
                &&& forall|k: int|
                    0 <= k < refs.len() ==> call_ensures(
                        <C as PartialMetricResultBucket>::push,
                        (
                            #[trigger] refs[k],
                            waveform,
                            algorithm,
                            collection@[start + k].0,
                            &collection@[start + k].1,
                        ),
                        (),
                    )
            },
    decreases collection@.len() - start,
{
    if start == collection.len() {
        proof {
            let refs = Seq::<&mut C>::empty();
            assert(refs.len() == 0);
        }
        return;
    }
    let (channel, by_topic) = &collection[start];
    let ghost before = *object;
    push_to_object(object, waveform, algorithm, *channel, by_topic);
    let ghost middle = *object;
    push_channels_from(object, waveform, algorithm, collection, start + 1);
    proof {
        let r = choose|r: &mut C|
            *r == before && *final(r) == middle && #[trigger] call_ensures(
                <C as PartialMetricResultBucket>::push,
                (r, waveform, algorithm, *channel, by_topic),
                (),
            );
        let rest = choose|refs: Seq<&mut C>|
            #![trigger refs.len()]
            {
                &&& refs.len() == collection@.len() - (start + 1)
                &&& refs.len() == 0 ==> *final(object) == middle
                &&& refs.len() > 0 ==> *refs[0] == middle && *final(refs[refs.len() - 1])
                    == *final(object)
                &&& forall|k: int|
                    0 <= k < refs.len() - 1 ==> *final(#[trigger] refs[k]) == *refs[k + 1]
                &&& forall|k: int|
                    0 <= k < refs.len() ==> call_ensures(
                        <C as PartialMetricResultBucket>::push,
                        (
                            #[trigger] refs[k],
                            waveform,
                            algorithm,
                            collection@[(start + 1) + k].0,
                            &collection@[(start + 1) + k].1,
                        ),
                        (),
                    )
            };
        let refs = seq![r] + rest;
        assert(refs.len() == collection@.len() - start);
        assert(refs[0] == r);
        assert(rest.len() > 0 ==> refs[refs.len() - 1] == rest[rest.len() - 1]);
    }
}

/// Pushes each channel of `collection`, in order, to the results object of `bucket`;
/// the message count stays as it was.
fn push_channels<C: PartialMetricResultBucket>(
    bucket: &mut MetricResultBucketWrapper<C>,
    waveform: &C::Waveform,
    algorithm: &C::Algorithm,
    collection: &[(Channel, C::ChannelData)],
)
    ensures
        final(bucket).num_messages == old(bucket).num_messages,
        exists|refs: Seq<&mut C>|
            #![trigger refs.len()]
            {
                &&& refs.len() == collection@.len()
                &&& refs.len() == 0 ==> final(bucket).object == old(bucket).object
                &&& refs.len() > 0 ==> *refs[0] == old(bucket).object
                    && *final(refs[refs.len() - 1]) == final(bucket).object
                &&& forall|k: int|
                    0 <= k < refs.len() - 1 ==> *final(#[trigger] refs[k]) == *refs[k + 1]
                &&& forall|k: int|
                    0 <= k < refs.len() ==> call_ensures(
                        <C as PartialMetricResultBucket>::push,
                        (#[trigger] refs[k], waveform, algorithm, collection@[k].0, &collection@[k].1),
                        (),
                    )
            },
{
    push_channels_from(&mut bucket.object, waveform, algorithm, collection, 0);
}

} // verus!
