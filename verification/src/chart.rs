//! The data that chart traces are drawn from: which x-axis positions carry a value,
//! and the values themselves, taken from the outputs of a metric over buckets.

use vstd::prelude::*;

verus! {

/// The values present in `data`, in order.
pub open spec fn present<T>(data: Seq<Option<T>>) -> Seq<T>
    decreases data.len(),
{
    if data.len() == 0 {
        seq![]
    } else {
        let rest = present(data.drop_last());
        match data.last() {
            Some(v) => rest.push(v),
            None => rest,
        }
    }
}

/// Of positions `x` paired one to one with `data`, those whose datum is present, in order.
pub open spec fn positions_present<X, T>(x: Seq<X>, data: Seq<Option<T>>) -> Seq<X>
    decreases data.len(),
{
    if data.len() == 0 || x.len() == 0 {
        seq![]
    } else {
        let rest = positions_present(x.drop_last(), data.drop_last());
        match data.last() {
            Some(_) => rest.push(x.last()),
            None => rest,
        }
    }
}

/// The number of pairs that zipping sequences of lengths `a` and `b` gives.
pub open spec fn zip_len(a: nat, b: nat) -> int {
    if a < b {
        a as int
    } else {
        b as int
    }
}

/// Of positions `x` paired with `data` as far as both reach, those whose datum is present.
pub open spec fn scalar_x_axis<X, T>(x: Seq<X>, data: Seq<Option<T>>) -> Seq<X> {
    let n = zip_len(x.len(), data.len());
    positions_present(x.take(n), data.take(n))
}

/// The entries of the groups present in `data`, group after group.
pub open spec fn group_entries<T>(data: Seq<Option<Vec<T>>>) -> Seq<T>
    decreases data.len(),
{
    if data.len() == 0 {
        seq![]
    } else {
        let rest = group_entries(data.drop_last());
        match data.last() {
            Some(group) => rest + group@,
            None => rest,
        }
    }
}

/// For positions `x` paired one to one with `data`: each position of a present group,
/// repeated once per entry of the group.
pub open spec fn group_positions<X, T>(x: Seq<X>, data: Seq<Option<Vec<T>>>) -> Seq<X>
    decreases data.len(),
{
    if data.len() == 0 || x.len() == 0 {
        seq![]
    } else {
        let rest = group_positions(x.drop_last(), data.drop_last());
        match data.last() {
            Some(group) => rest + Seq::new(group@.len(), |k: int| x.last()),
            None => rest,
        }
    }
}

/// The positions of the x-axis at which `data` holds a value, as far as both reach.
pub fn build_scalar_x_axis<X: Copy, T>(x_axis: &[X], data: &[Option<T>]) -> (res: Vec<X>)
    ensures
        res@ == scalar_x_axis(x_axis@, data@),
        res@ == Seq::new(
            (if x_axis@.len() < data@.len() { x_axis@.len() } else { data@.len() }) as nat,
            |i: int| if data@[i] is Some { seq![x_axis@[i]] } else { Seq::<X>::empty() },
        ).flatten(),
{
    proof {
        law_scalar_x_axis_pairs_by_index(x_axis@, data@);
    }
    let n = if x_axis.len() < data.len() { x_axis.len() } else { data.len() };
    let mut res: Vec<X> = Vec::new();
    for k in 0..n
        invariant
            n == zip_len(x_axis@.len(), data@.len()),
            res@ == positions_present(x_axis@.take(k as int), data@.take(k as int)),
    {
        assert(x_axis@.take(k + 1).drop_last() == x_axis@.take(k as int));
        assert(data@.take(k + 1).drop_last() == data@.take(k as int));
        if data[k].is_some() {
            res.push(x_axis[k]);
        }
    }
    res
}

/// The values present in `data`, in order.
pub fn present_values<T: Copy>(data: &[Option<T>]) -> (res: Vec<T>)
    ensures
        res@ == present(data@),
        res@ == Seq::new(
            data@.len(),
            |i: int|
                match data@[i] {
                    Some(v) => seq![v],
                    None => Seq::<T>::empty(),
                },
        ).flatten(),
{
    proof {
        law_present_values_by_index(data@);
    }
    let mut res: Vec<T> = Vec::new();
    for k in 0..data.len()
        invariant
            res@ == present(data@.take(k as int)),
    {
        assert(data@.take(k + 1).drop_last() == data@.take(k as int));
        if let Some(v) = data[k] {
            res.push(v);
        }
    }
    assert(data@.take(data@.len() as int) == data@);
    res
}

/// The values and the error values of the pairs present in `data`, in order.
pub fn present_values_with_errors<A: Copy, B: Copy>(data: &[Option<(A, B)>]) -> (res: (
    Vec<A>,
    Vec<B>,
))
    ensures
        res.0@ == present(data@).map_values(|p: (A, B)| p.0),
        res.1@ == present(data@).map_values(|p: (A, B)| p.1),
{
    let mut values: Vec<A> = Vec::new();
    let mut errors: Vec<B> = Vec::new();
    for k in 0..data.len()
        invariant
            values@ == present(data@.take(k as int)).map_values(|p: (A, B)| p.0),
            errors@ == present(data@.take(k as int)).map_values(|p: (A, B)| p.1),
    {
        assert(data@.take(k + 1).drop_last() == data@.take(k as int));
        let ghost before = present(data@.take(k as int));
        if let Some(pair) = data[k] {
            values.push(pair.0);
            errors.push(pair.1);
            assert(present(data@.take(k + 1)) == before.push(pair));
            assert(values@ == before.push(pair).map_values(|p: (A, B)| p.0));
            assert(errors@ == before.push(pair).map_values(|p: (A, B)| p.1));
        }
    }
    assert(data@.take(data@.len() as int) == data@);
    (values, errors)
}

/// Each position of the x-axis at which `data` holds a group, repeated once per entry of
/// the group, as far as both reach.
pub fn build_group_x_axis<X: Copy, T>(x_axis: &[X], data: &[Option<Vec<T>>]) -> (res: Vec<X>)
    ensures
        ({
            let n = zip_len(x_axis@.len(), data@.len());
            res@ == group_positions(x_axis@.take(n), data@.take(n))
        }),
        res@ == Seq::new(
            (if x_axis@.len() < data@.len() { x_axis@.len() } else { data@.len() }) as nat,
            |i: int|
                match data@[i] {
                    Some(g) => Seq::new(g@.len(), |k: int| x_axis@[i]),
                    None => Seq::<X>::empty(),
                },
        ).flatten(),
{
    proof {
        law_group_x_axis_pairs_by_index(x_axis@, data@);
    }
    let n = if x_axis.len() < data.len() { x_axis.len() } else { data.len() };
    let mut res: Vec<X> = Vec::new();
    for k in 0..n
        invariant
            n == zip_len(x_axis@.len(), data@.len()),
            res@ == group_positions(x_axis@.take(k as int), data@.take(k as int)),
    {
        assert(x_axis@.take(k + 1).drop_last() == x_axis@.take(k as int));
        assert(data@.take(k + 1).drop_last() == data@.take(k as int));
        if let Some(group) = &data[k] {
            let ghost before = res@;
            let a = x_axis[k];
            for _i in 0..group.len()
                invariant
                    res@ == before + Seq::new(_i as nat, |j: int| a),
            {
                res.push(a);
                assert(res@ == before + Seq::new((_i + 1) as nat, |j: int| a));
            }
        }
    }
    res
}

/// The values and the hover texts of all entries of the groups present in `data`, group
/// after group; each hover text is a clone of the entry's.
pub fn group_values<A: Copy, B: Clone>(data: &[Option<Vec<(A, B)>>]) -> (res: (Vec<A>, Vec<B>))
    ensures
        res.0@ == group_entries(data@).map_values(|p: (A, B)| p.0),
        res.0@ == Seq::new(
            data@.len(),
            |i: int|
                match data@[i] {
                    Some(g) => g@,
                    None => Seq::<(A, B)>::empty(),
                },
        ).flatten().map_values(|p: (A, B)| p.0),
        res.1@.len() == group_entries(data@).len(),
        forall|k: int|
            #![trigger res.1@[k]]
            0 <= k < res.1@.len() ==> cloned(group_entries(data@)[k].1, res.1@[k]),
{
    proof {
        law_group_entries_by_index(data@);
    }
    let mut values: Vec<A> = Vec::new();
    let mut texts: Vec<B> = Vec::new();
    for k in 0..data.len()
        invariant
            values@ == group_entries(data@.take(k as int)).map_values(|p: (A, B)| p.0),
            texts@.len() == group_entries(data@.take(k as int)).len(),
            forall|i: int|
                #![trigger texts@[i]]
                0 <= i < texts@.len() ==> cloned(group_entries(data@.take(k as int))[i].1, texts@[i]),
    {
        assert(data@.take(k + 1).drop_last() == data@.take(k as int));
        let ghost before = group_entries(data@.take(k as int));
        if let Some(group) = &data[k] {
            let ghost all = before + group@;
            for i in 0..group.len()
                invariant
                    all == before + group@,
                    values@ == all.take(before.len() + i).map_values(|p: (A, B)| p.0),
                    texts@.len() == before.len() + i,
                    forall|j: int|
                        #![trigger texts@[j]]
                        0 <= j < texts@.len() ==> cloned(all[j].1, texts@[j]),
            {
                proof {
                    assert(all.take(before.len() + i + 1) == all.take(before.len() + i).push(group@[i as int]));
                }
                values.push(group[i].0);
                texts.push(group[i].1.clone());
            }
            assert(all.take(all.len() as int) == all);
            assert(group_entries(data@.take(k + 1)) == all);
        } else {
            assert(group_entries(data@.take(k + 1)) == before);
        }
    }
    assert(data@.take(data@.len() as int) == data@);
    (values, texts)
}

/// What the chart keeps of the outcome of reading one series: the series itself, or
/// nothing where the property has no value (`Err(None)`).
pub open spec fn series_slot<S, E>(outcome: Result<S, Option<E>>) -> Option<S> {
    match outcome {
        Ok(series) => Some(series),
        Err(_) => None,
    }
}

/// The outcome of reading a series is a failure other than the property having no value.
pub open spec fn is_failure<S, E>(outcome: Result<S, Option<E>>) -> bool {
    outcome matches Err(Some(_))
}

/// One step of gathering the chart's series: the series read is kept, a property with no
/// value (`Err(None)`) leaves an empty slot, and any other failure (`Err(Some(e))`) is
/// handed back, unchanged slots and all, for the gathering to stop with.
pub fn gather_step<S, E>(slots: &mut Vec<Option<S>>, outcome: Result<S, Option<E>>) -> (stop: Option<E>)
    ensures
        outcome matches Err(Some(e)) ==> stop == Some(e) && final(slots)@ == old(slots)@,
        !is_failure(outcome) ==> stop is None && final(slots)@ == old(slots)@.push(series_slot(outcome)),
{
    match outcome {
        Ok(series) => {
            slots.push(Some(series));
            None
        },
        Err(None) => {
            slots.push(None);
            None
        },
        Err(Some(e)) => Some(e),
    }
}

/// Gathers the outcomes of reading the chart's series, in order: each series read is kept,
/// a property with no value (`Err(None)`) leaves an empty slot, and the first other
/// failure (`Err(Some(e))`) is the result.
pub fn gather_series<S, E>(outcomes: Vec<Result<S, Option<E>>>) -> (res: Result<Vec<Option<S>>, E>)
    ensures
        res is Ok <==> forall|k: int| 0 <= k < outcomes@.len() ==> !is_failure(#[trigger] outcomes@[k]),
        res matches Ok(slots) ==> slots@ == outcomes@.map_values(|o: Result<S, Option<E>>| series_slot(o)),
        res matches Err(e) ==> exists|k: int|
            #![trigger outcomes@[k]]
            {
                &&& 0 <= k < outcomes@.len()
                &&& outcomes@[k] == Err::<S, Option<E>>(Some(e))
                &&& forall|l: int| 0 <= l < k ==> !is_failure(#[trigger] outcomes@[l])
            },
{
    let ghost all = outcomes@;
    let n = outcomes.len();
    let mut rest = outcomes;
    let mut slots: Vec<Option<S>> = Vec::new();
    let mut k: usize = 0;
    while rest.len() > 0
        invariant
            all == outcomes@,
            n == all.len(),
            k + rest@.len() == all.len(),
            rest@ == all.skip(k as int),
            slots@ == all.take(k as int).map_values(|o: Result<S, Option<E>>| series_slot(o)),
            forall|l: int| 0 <= l < k ==> !is_failure(#[trigger] all[l]),
        decreases rest@.len(),
    {
        assert(rest@[0] == all[k as int]);
        let outcome = rest.remove(0);
        assert(all.take(k + 1) == all.take(k as int).push(outcome));
        if let Some(e) = gather_step(&mut slots, outcome) {
            assert(all[k as int] == Err::<S, Option<E>>(Some(e)));
            return Err(e);
        }
        assert(slots@ == all.take(k + 1).map_values(|o: Result<S, Option<E>>| series_slot(o)));
        assert(rest@ == all.skip(k + 1));
        k = k + 1;
    }
    assert(all.take(k as int) == all);
    Ok(slots)
}

/// The most axes a chart's layout has.
pub const MAX_AXES: usize = 8;

/// `(extent + 1) * size`, the length of a chart side of `extent` subplots of `size` each.
pub open spec fn side_length(extent: usize, size: usize) -> int {
    (extent + 1) * size
}

/// How a chart's layout is sized and how many pairs of axes it has: the width and height
/// (where set) leave room for one subplot more than the columns and rows, and the axes
/// are one pair per subplot, at most `MAX_AXES`. `None` where the number of subplots, a
/// set size, or the count of columns or rows plus one does not fit in a `usize`.
pub fn layout_plan(num_cols: usize, num_rows: usize, width: Option<usize>, height: Option<usize>) -> (res: Option<(
    Option<usize>,
    Option<usize>,
    usize,
)>)
    ensures
        res is Some <==> {
            &&& num_rows * num_cols <= usize::MAX
            &&& width matches Some(w) ==> num_cols < usize::MAX && side_length(num_cols, w) <= usize::MAX
            &&& height matches Some(h) ==> num_rows < usize::MAX && side_length(num_rows, h) <= usize::MAX
        },
        res matches Some((w, h, axes)) ==> {
            &&& w == (match width { Some(x) => Some(side_length(num_cols, x) as usize), None => None::<usize> })
            &&& h == (match height { Some(y) => Some(side_length(num_rows, y) as usize), None => None::<usize> })
            &&& axes == (if num_rows * num_cols < MAX_AXES { (num_rows * num_cols) as usize } else { MAX_AXES })
        },
{
    let subplots = match num_rows.checked_mul(num_cols) {
        Some(n) => n,
        None => return None,
    };
    let w = match width {
        Some(x) => {
            let cols = match num_cols.checked_add(1) {
                Some(c) => c,
                None => return None,
            };
            match cols.checked_mul(x) {
                Some(v) => Some(v),
                None => return None,
            }
        },
        None => None,
    };
    let h = match height {
        Some(y) => {
            let rows = match num_rows.checked_add(1) {
                Some(r) => r,
                None => return None,
            };
            match rows.checked_mul(y) {
                Some(v) => Some(v),
                None => return None,
            }
        },
        None => None,
    };
    let axes = if subplots < MAX_AXES { subplots } else { MAX_AXES };
    Some((w, h, axes))
}

/// Of the first `m` pairs of `x` and `data`, the x-position of each present datum, as a
/// one-element sequence; an empty one for a missing datum.
spec fn position_slots<X, T>(x: Seq<X>, data: Seq<Option<T>>, m: int) -> Seq<Seq<X>> {
    Seq::new(m as nat, |i: int| if data[i] is Some { seq![x[i]] } else { Seq::<X>::empty() })
}

/// Of the first `m` data, each present value as a one-element sequence; an empty one for
/// a missing datum.
spec fn value_slots<T>(data: Seq<Option<T>>, m: int) -> Seq<Seq<T>> {
    Seq::new(
        m as nat,
        |i: int|
            match data[i] {
                Some(v) => seq![v],
                None => Seq::<T>::empty(),
            },
    )
}

/// Of the first `m` pairs of `x` and `data`, the x-position of each present group,
/// repeated once per entry; an empty sequence for a missing group.
spec fn group_position_slots<X, T>(x: Seq<X>, data: Seq<Option<Vec<T>>>, m: int) -> Seq<Seq<X>> {
    Seq::new(
        m as nat,
        |i: int|
            match data[i] {
                Some(g) => Seq::new(g@.len(), |k: int| x[i]),
                None => Seq::<X>::empty(),
            },
    )
}

/// Of the first `m` data, the entries of each present group; an empty sequence for a
/// missing group.
spec fn entry_slots<T>(data: Seq<Option<Vec<T>>>, m: int) -> Seq<Seq<T>> {
    Seq::new(
        m as nat,
        |i: int|
            match data[i] {
                Some(g) => g@,
                None => Seq::<T>::empty(),
            },
    )
}

proof fn lemma_positions_by_index<X, T>(x: Seq<X>, data: Seq<Option<T>>, m: int)
    requires
        0 <= m <= x.len(),
        m <= data.len(),
    ensures
        positions_present(x.take(m), data.take(m)) == position_slots(x, data, m).flatten(),
    decreases m,
{
    if m == 0 {
        assert(position_slots(x, data, 0) =~= Seq::<Seq<X>>::empty());
    } else {
        lemma_positions_by_index(x, data, m - 1);
        assert(x.take(m).drop_last() =~= x.take(m - 1));
        assert(data.take(m).drop_last() =~= data.take(m - 1));
        assert(position_slots(x, data, m) =~= position_slots(x, data, m - 1).push(
            position_slots(x, data, m)[m - 1],
        ));
        position_slots(x, data, m - 1).lemma_flatten_push(position_slots(x, data, m)[m - 1]);
        if data[m - 1] is Some {
            assert(seq![x[m - 1]] =~= Seq::<X>::empty().push(x[m - 1]));
        }
        assert(positions_present(x.take(m), data.take(m)) =~= position_slots(x, data, m).flatten());
    }
}

proof fn lemma_values_by_index<T>(data: Seq<Option<T>>, m: int)
    requires
        0 <= m <= data.len(),
    ensures
        present(data.take(m)) == value_slots(data, m).flatten(),
    decreases m,
{
    if m == 0 {
        assert(value_slots(data, 0) =~= Seq::<Seq<T>>::empty());
    } else {
        lemma_values_by_index(data, m - 1);
        assert(data.take(m).drop_last() =~= data.take(m - 1));
        assert(value_slots(data, m) =~= value_slots(data, m - 1).push(value_slots(data, m)[m - 1]));
        value_slots(data, m - 1).lemma_flatten_push(value_slots(data, m)[m - 1]);
        assert(present(data.take(m)) =~= value_slots(data, m).flatten());
    }
}

proof fn lemma_group_positions_by_index<X, T>(x: Seq<X>, data: Seq<Option<Vec<T>>>, m: int)
    requires
        0 <= m <= x.len(),
        m <= data.len(),
    ensures
        group_positions(x.take(m), data.take(m)) == group_position_slots(x, data, m).flatten(),
    decreases m,
{
    if m == 0 {
        assert(group_position_slots(x, data, 0) =~= Seq::<Seq<X>>::empty());
    } else {
        lemma_group_positions_by_index(x, data, m - 1);
        assert(x.take(m).drop_last() =~= x.take(m - 1));
        assert(data.take(m).drop_last() =~= data.take(m - 1));
        assert(group_position_slots(x, data, m) =~= group_position_slots(x, data, m - 1).push(
            group_position_slots(x, data, m)[m - 1],
        ));
        group_position_slots(x, data, m - 1).lemma_flatten_push(group_position_slots(x, data, m)[m - 1]);
        match data[m - 1] {
            Some(g) => {
                assert(Seq::new(g@.len(), |k: int| x.take(m).last()) =~= Seq::new(
                    g@.len(),
                    |k: int| x[m - 1],
                ));
            },
            None => {},
        }
        assert(group_positions(x.take(m), data.take(m)) =~= group_position_slots(x, data, m).flatten());
    }
}

proof fn lemma_entries_by_index<T>(data: Seq<Option<Vec<T>>>, m: int)
    requires
        0 <= m <= data.len(),
    ensures
        group_entries(data.take(m)) == entry_slots(data, m).flatten(),
    decreases m,
{
    if m == 0 {
        assert(entry_slots(data, 0) =~= Seq::<Seq<T>>::empty());
    } else {
        lemma_entries_by_index(data, m - 1);
        assert(data.take(m).drop_last() =~= data.take(m - 1));
        assert(entry_slots(data, m) =~= entry_slots(data, m - 1).push(entry_slots(data, m)[m - 1]));
        entry_slots(data, m - 1).lemma_flatten_push(entry_slots(data, m)[m - 1]);
        assert(group_entries(data.take(m)) =~= entry_slots(data, m).flatten());
    }
}

/// A scalar trace's x-axis pairs each datum with the x-axis entry at its own index: it is,
/// index by index up to the shorter of the two, `x[i]` where `data[i]` is present and
/// nothing where it is missing.
pub proof fn law_scalar_x_axis_pairs_by_index<X, T>(x: Seq<X>, data: Seq<Option<T>>)
    ensures
        scalar_x_axis(x, data) == Seq::new(
            (if x.len() < data.len() { x.len() } else { data.len() }) as nat,
            |i: int| if data[i] is Some { seq![x[i]] } else { Seq::<X>::empty() },
        ).flatten(),
{
    let n: int = if x.len() < data.len() { x.len() as int } else { data.len() as int };
    lemma_positions_by_index(x, data, n);
    assert(x.take(n).take(n) =~= x.take(n));
    assert(data.take(n).take(n) =~= data.take(n));
    assert(position_slots(x, data, n) =~= Seq::new(
        (if x.len() < data.len() { x.len() } else { data.len() }) as nat,
        |i: int| if data[i] is Some { seq![x[i]] } else { Seq::<X>::empty() },
    ));
}

/// The values of a scalar trace are the present data, index by index: `v` where
/// `data[i]` is `Some(v)`, nothing where it is missing.
pub proof fn law_present_values_by_index<T>(data: Seq<Option<T>>)
    ensures
        present(data) == Seq::new(
            data.len(),
            |i: int|
                match data[i] {
                    Some(v) => seq![v],
                    None => Seq::<T>::empty(),
                },
        ).flatten(),
{
    lemma_values_by_index(data, data.len() as int);
    assert(data.take(data.len() as int) =~= data);
    assert(value_slots(data, data.len() as int) =~= Seq::new(
        data.len(),
        |i: int|
            match data[i] {
                Some(v) => seq![v],
                None => Seq::<T>::empty(),
            },
    ));
}

/// A box plot's x-axis places every entry of the group at index `i` at `x[i]`: index by
/// index up to the shorter of the two, `x[i]` once per entry of a present group, nothing
/// for a missing one.
pub proof fn law_group_x_axis_pairs_by_index<X, T>(x: Seq<X>, data: Seq<Option<Vec<T>>>)
    ensures
        ({
            let n = if x.len() < data.len() { x.len() as int } else { data.len() as int };
            group_positions(x.take(n), data.take(n))
        }) == Seq::new(
            (if x.len() < data.len() { x.len() } else { data.len() }) as nat,
            |i: int|
                match data[i] {
                    Some(g) => Seq::new(g@.len(), |k: int| x[i]),
                    None => Seq::<X>::empty(),
                },
        ).flatten(),
{
    let n: int = if x.len() < data.len() { x.len() as int } else { data.len() as int };
    lemma_group_positions_by_index(x, data, n);
    assert(x.take(n).take(n) =~= x.take(n));
    assert(data.take(n).take(n) =~= data.take(n));
    assert(group_position_slots(x, data, n) =~= Seq::new(
        (if x.len() < data.len() { x.len() } else { data.len() }) as nat,
        |i: int|
            match data[i] {
                Some(g) => Seq::new(g@.len(), |k: int| x[i]),
                None => Seq::<X>::empty(),
            },
    ));
}

/// The entries of a box plot are those of the present groups, index by index: the
/// entries of `g` where `data[i]` is `Some(g)`, nothing where it is missing.
pub proof fn law_group_entries_by_index<T>(data: Seq<Option<Vec<T>>>)
    ensures
        group_entries(data) == Seq::new(
            data.len(),
            |i: int|
                match data[i] {
                    Some(g) => g@,
                    None => Seq::<T>::empty(),
                },
        ).flatten(),
{
    lemma_entries_by_index(data, data.len() as int);
    assert(data.take(data.len() as int) =~= data);
    assert(entry_slots(data, data.len() as int) =~= Seq::new(
        data.len(),
        |i: int|
            match data[i] {
                Some(g) => g@,
                None => Seq::<T>::empty(),
            },
    ));
}

proof fn lemma_positions_match_values<X, T>(x: Seq<X>, data: Seq<Option<T>>)
    requires
        x.len() == data.len(),
    ensures
        positions_present(x, data).len() == present(data).len(),
    decreases data.len(),
{
    if data.len() > 0 {
        lemma_positions_match_values(x.drop_last(), data.drop_last());
    }
}

proof fn lemma_group_positions_match_entries<X, T>(x: Seq<X>, data: Seq<Option<Vec<T>>>)
    requires
        x.len() == data.len(),
    ensures
        group_positions(x, data).len() == group_entries(data).len(),
    decreases data.len(),
{
    if data.len() > 0 {
        lemma_group_positions_match_entries(x.drop_last(), data.drop_last());
    }
}

/// When the x-axis is at least as long as the data, a scalar trace has one x-axis
/// position for each value present: the axis and the values line up.
pub proof fn law_scalar_axes_line_up<X, T>(x_axis: Seq<X>, data: Seq<Option<T>>)
    requires
        data.len() <= x_axis.len(),
    ensures
        scalar_x_axis(x_axis, data).len() == present(data).len(),
{
    assert(data.take(data.len() as int) == data);
    lemma_positions_match_values(x_axis.take(data.len() as int), data);
}

/// When the x-axis is at least as long as the data, a box plot has one x-axis position
/// for each entry of the groups present: the axis and the values line up.
pub proof fn law_group_axes_line_up<X, T>(x_axis: Seq<X>, data: Seq<Option<Vec<T>>>)
    requires
        data.len() <= x_axis.len(),
    ensures
        ({
            let n = zip_len(x_axis.len(), data.len());
            group_positions(x_axis.take(n), data.take(n)).len() == group_entries(data).len()
        }),
{
    assert(data.take(data.len() as int) == data);
    lemma_group_positions_match_entries(x_axis.take(data.len() as int), data);
}

} // verus!
