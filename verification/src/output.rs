//! Metric outputs: a single value per bucket, and series of them over buckets.

use vstd::prelude::*;

verus! {

/// Output of a metric, in one of four shapes.
#[derive(Debug)]
pub enum MetricOutputGeneric<V, E, G, H> {
    Value(V),
    WithErrors(E),
    Group(G),
    Histograms(H),
}

/// `a` and `b` use the same variant (their payload types may differ).
pub open spec fn same_variant<V1, E1, G1, H1, V2, E2, G2, H2>(
    a: MetricOutputGeneric<V1, E1, G1, H1>,
    b: MetricOutputGeneric<V2, E2, G2, H2>,
) -> bool {
    match (a, b) {
        (MetricOutputGeneric::Value(_), MetricOutputGeneric::Value(_)) => true,
        (MetricOutputGeneric::WithErrors(_), MetricOutputGeneric::WithErrors(_)) => true,
        (MetricOutputGeneric::Group(_), MetricOutputGeneric::Group(_)) => true,
        (MetricOutputGeneric::Histograms(_), MetricOutputGeneric::Histograms(_)) => true,
        _ => false,
    }
}

impl<V1, E1, G1, H1> MetricOutputGeneric<V1, E1, G1, H1> {
    /// Applies to the payload of `self` the closure of the variant that `self` and `other`
    /// share, handing it a clone of the payload of `other`.
    pub fn apply_matched<V2, E2, G2, H2, FV, FE, FG, FH>(
        &mut self,
        other: &MetricOutputGeneric<V2, E2, G2, H2>,
        fv: FV,
        fe: FE,
        fg: FG,
        fh: FH,
    ) where
        FV: Fn(&mut V1, V2),
        FE: Fn(&mut E1, E2),
        FG: Fn(&mut G1, G2),
        FH: Fn(&mut H1, H2),
        V2: Clone,
        E2: Clone,
        G2: Clone,
        H2: Clone,
        requires
            same_variant(*old(self), *other),
            forall|a: &mut V1, b: V2| #[trigger] call_requires(fv, (a, b)),
            forall|a: &mut E1, b: E2| #[trigger] call_requires(fe, (a, b)),
            forall|a: &mut G1, b: G2| #[trigger] call_requires(fg, (a, b)),
            forall|a: &mut H1, b: H2| #[trigger] call_requires(fh, (a, b)),
        ensures
            same_variant(*final(self), *old(self)),
            match (*old(self), *other, *final(self)) {
                (
                    MetricOutputGeneric::Value(a),
                    MetricOutputGeneric::Value(x),
                    MetricOutputGeneric::Value(b),
                ) => exists|c: V2, r: &mut V1|
                    cloned(x, c) && *r == a && *final(r) == b && #[trigger] call_ensures(fv, (r, c), ()),
                (
                    MetricOutputGeneric::WithErrors(a),
                    MetricOutputGeneric::WithErrors(x),
                    MetricOutputGeneric::WithErrors(b),
                ) => exists|c: E2, r: &mut E1|
                    cloned(x, c) && *r == a && *final(r) == b && #[trigger] call_ensures(fe, (r, c), ()),
                (
                    MetricOutputGeneric::Group(a),
                    MetricOutputGeneric::Group(x),
                    MetricOutputGeneric::Group(b),
                ) => exists|c: G2, r: &mut G1|
                    cloned(x, c) && *r == a && *final(r) == b && #[trigger] call_ensures(fg, (r, c), ()),
                (
                    MetricOutputGeneric::Histograms(a),
                    MetricOutputGeneric::Histograms(x),
                    MetricOutputGeneric::Histograms(b),
                ) => exists|c: H2, r: &mut H1|
                    cloned(x, c) && *r == a && *final(r) == b && #[trigger] call_ensures(fh, (r, c), ()),
                _ => false,
            },
    {
        match (self, other) {
            (MetricOutputGeneric::Value(v), MetricOutputGeneric::Value(x)) => fv(v, x.clone()),
            (MetricOutputGeneric::WithErrors(v), MetricOutputGeneric::WithErrors(x)) => fe(
                v,
                x.clone(),
            ),
            (MetricOutputGeneric::Group(v), MetricOutputGeneric::Group(x)) => fg(v, x.clone()),
            (MetricOutputGeneric::Histograms(v), MetricOutputGeneric::Histograms(x)) => fh(
                v,
                x.clone(),
            ),
            _ => {},
        }
    }
}


/// The number of entries of a series.
pub open spec fn series_len<V, E, G, H>(
    s: MetricOutputGeneric<Vec<V>, Vec<E>, Vec<G>, Vec<H>>,
) -> nat {
    match s {
        MetricOutputGeneric::Value(v) => v@.len(),
        MetricOutputGeneric::WithErrors(v) => v@.len(),
        MetricOutputGeneric::Group(v) => v@.len(),
        MetricOutputGeneric::Histograms(v) => v@.len(),
    }
}

/// The `i`-th entry of a series, as a single output.
pub open spec fn series_entry<V, E, G, H>(
    s: MetricOutputGeneric<Vec<V>, Vec<E>, Vec<G>, Vec<H>>,
    i: int,
) -> MetricOutputGeneric<V, E, G, H> {
    match s {
        MetricOutputGeneric::Value(v) => MetricOutputGeneric::Value(v@[i]),
        MetricOutputGeneric::WithErrors(v) => MetricOutputGeneric::WithErrors(v@[i]),
        MetricOutputGeneric::Group(v) => MetricOutputGeneric::Group(v@[i]),
        MetricOutputGeneric::Histograms(v) => MetricOutputGeneric::Histograms(v@[i]),
    }
}

/// `b` is `a`, or a clone of it: the same variant with a cloned payload.
pub open spec fn output_cloned<V: Clone, E: Clone, G: Clone, H: Clone>(
    a: MetricOutputGeneric<V, E, G, H>,
    b: MetricOutputGeneric<V, E, G, H>,
) -> bool {
    match (a, b) {
        (MetricOutputGeneric::Value(x), MetricOutputGeneric::Value(y)) => cloned(x, y),
        (MetricOutputGeneric::WithErrors(x), MetricOutputGeneric::WithErrors(y)) => cloned(x, y),
        (MetricOutputGeneric::Group(x), MetricOutputGeneric::Group(y)) => cloned(x, y),
        (MetricOutputGeneric::Histograms(x), MetricOutputGeneric::Histograms(y)) => cloned(x, y),
        _ => false,
    }
}

/// Every output in `values` uses the same variant.
pub open spec fn all_same_variant<V, E, G, H>(values: Seq<MetricOutputGeneric<V, E, G, H>>) -> bool {
    forall|i: int| 0 <= i < values.len() ==> #[trigger] same_variant(values[i], values[0])
}

/// `s` is the series made of `values`, in order: one entry per output, each a clone of it.
pub open spec fn is_series_of<V: Clone, E: Clone, G: Clone, H: Clone>(
    s: MetricOutputGeneric<Vec<V>, Vec<E>, Vec<G>, Vec<H>>,
    values: Seq<MetricOutputGeneric<V, E, G, H>>,
) -> bool {
    &&& series_len(s) == values.len()
    &&& forall|i: int| 0 <= i < values.len() ==> #[trigger] output_cloned(values[i], series_entry(s, i))
}

/// `a` and `b` are outputs of one shape: both values, both values with errors, both
/// groups, or both histograms.
pub open spec fn same_shape_as<V1, E1, G1, H1, V2, E2, G2, H2>(
    a: MetricOutputGeneric<V1, E1, G1, H1>,
    b: MetricOutputGeneric<V2, E2, G2, H2>,
) -> bool {
    ||| (a is Value && b is Value)
    ||| (a is WithErrors && b is WithErrors)
    ||| (a is Group && b is Group)
    ||| (a is Histograms && b is Histograms)
}

/// Two outputs use the same variant exactly when they have the same shape, whatever
/// their payloads: every variant matches itself, and no variant matches another.
pub proof fn law_same_variant_is_same_shape<V1, E1, G1, H1, V2, E2, G2, H2>(
    a: MetricOutputGeneric<V1, E1, G1, H1>,
    b: MetricOutputGeneric<V2, E2, G2, H2>,
)
    ensures
        same_variant(a, b) <==> same_shape_as(a, b),
        a is Histograms && b is Histograms ==> same_variant(a, b),
        a is Value && b is Value ==> same_variant(a, b),
        a is WithErrors && b is WithErrors ==> same_variant(a, b),
        a is Group && b is Group ==> same_variant(a, b),
{
}

/// Outputs that all have the shape of the first share one variant, so that
/// `collect_series` gathers them into a series of that shape.
pub proof fn law_outputs_of_one_shape_share_variant<V, E, G, H>(
    values: Seq<MetricOutputGeneric<V, E, G, H>>,
)
    requires
        forall|i: int| 0 <= i < values.len() ==> #[trigger] same_shape_as(values[i], values[0]),
    ensures
        all_same_variant(values),
{
    assert forall|i: int| 0 <= i < values.len() implies #[trigger] same_variant(values[i], values[0]) by {
        assert(same_shape_as(values[i], values[0]));
    }
}

/// Whether `a` and `b` use the same variant.
pub fn is_same_variant<V1, E1, G1, H1, V2, E2, G2, H2>(
    a: &MetricOutputGeneric<V1, E1, G1, H1>,
    b: &MetricOutputGeneric<V2, E2, G2, H2>,
) -> (res: bool)
    ensures
        res == same_variant(*a, *b),
        res == ({
            ||| (*a is Value && *b is Value)
            ||| (*a is WithErrors && *b is WithErrors)
            ||| (*a is Group && *b is Group)
            ||| (*a is Histograms && *b is Histograms)
        }),
{
    match (a, b) {
        (MetricOutputGeneric::Value(_), MetricOutputGeneric::Value(_)) => true,
        (MetricOutputGeneric::WithErrors(_), MetricOutputGeneric::WithErrors(_)) => true,
        (MetricOutputGeneric::Group(_), MetricOutputGeneric::Group(_)) => true,
        (MetricOutputGeneric::Histograms(_), MetricOutputGeneric::Histograms(_)) => true,
        _ => false,
    }
}

/// Whether every output in `values` uses the same variant, as `collect_series` needs.
pub fn all_share_variant<V, E, G, H>(values: &[MetricOutputGeneric<V, E, G, H>]) -> (res: bool)
    ensures
        res == all_same_variant(values@),
        res == forall|i: int| 0 <= i < values@.len() ==> #[trigger] same_shape_as(values@[i], values@[0]),
{
    let n = values.len();
    for i in 0..n
        invariant
            n == values@.len(),
            forall|k: int| 0 <= k < i ==> #[trigger] same_variant(values@[k], values@[0]),
            forall|k: int| 0 <= k < i ==> #[trigger] same_shape_as(values@[k], values@[0]),
    {
        if !is_same_variant(&values[i], &values[0]) {
            assert(!same_shape_as(values@[i as int], values@[0]));
            return false;
        }
    }
    true
}

/// Gathers the outputs of several buckets into one series, in order; `None` when there
/// are no outputs. All outputs must use the same variant.
pub fn collect_series<V: Clone, E: Clone, G: Clone, H: Clone>(
    values: &[MetricOutputGeneric<V, E, G, H>],
) -> (series: Option<MetricOutputGeneric<Vec<V>, Vec<E>, Vec<G>, Vec<H>>>)
    requires
        all_same_variant(values@),
    ensures
        series is None <==> values@.len() == 0,
        series matches Some(s) ==> same_variant(s, values@[0]) && is_series_of(s, values@),
{
    if values.len() == 0 {
        return None;
    }
    let mut series = match &values[0] {
        MetricOutputGeneric::Value(v) => MetricOutputGeneric::Value(vec![v.clone()]),
        MetricOutputGeneric::WithErrors(v) => MetricOutputGeneric::WithErrors(vec![v.clone()]),
        MetricOutputGeneric::Group(v) => MetricOutputGeneric::Group(vec![v.clone()]),
        MetricOutputGeneric::Histograms(v) => MetricOutputGeneric::Histograms(vec![v.clone()]),
    };
    let n = values.len();
    for i in 1..n
        invariant
            n == values@.len(),
            all_same_variant(values@),
            same_variant(series, values@[0]),
            is_series_of(series, values@.take(i as int)),
    {
        assert(same_variant(values@[i as int], values@[0]));
        let ghost before = series;
        series.apply_matched(&values[i], Vec::push, Vec::push, Vec::push, Vec::push);
        assert(is_series_of(series, values@.take(i + 1))) by {
            assert forall|j: int| 0 <= j < i + 1 implies #[trigger] output_cloned(
                values@.take(i + 1)[j],
                series_entry(series, j),
            ) by {
                if j < i {
                    assert(values@.take(i as int)[j] == values@.take(i + 1)[j]);
                    assert(output_cloned(values@.take(i as int)[j], series_entry(before, j)));
                }
            }
        }
    }
    assert(values@.take(n as int) == values@);
    Some(series)
}

} // verus!
