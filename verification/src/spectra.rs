//! Pulse height spectra: regrouping the per-channel histogram counts bin by bin,
//! ahead of the statistics taken over channels in each bin.

use vstd::prelude::*;

verus! {

/// Every histogram of `histograms` has at least `num_bins` counts.
pub open spec fn all_have_bins<T>(histograms: Seq<Vec<T>>, num_bins: nat) -> bool {
    forall|c: int| 0 <= c < histograms.len() ==> #[trigger] histograms[c]@.len() >= num_bins
}

/// The counts of the first `num_bins` bins, regrouped by bin: entry `c` of column `i`
/// is count `i` of histogram `c`.
pub fn counts_by_bin<T: Copy>(histograms: &[Vec<T>], num_bins: usize) -> (columns: Vec<Vec<T>>)
    requires
        all_have_bins(histograms@, num_bins as nat),
    ensures
        columns@.len() == num_bins,
        forall|i: int|
            0 <= i < num_bins ==> #[trigger] columns@[i]@.len() == histograms@.len(),
        forall|i: int, c: int|
            0 <= i < num_bins && 0 <= c < histograms@.len() ==> #[trigger] columns@[i]@[c]
                == histograms@[c]@[i],
{
    let mut columns: Vec<Vec<T>> = Vec::new();
    for i in 0..num_bins
        invariant
            all_have_bins(histograms@, num_bins as nat),
            columns@.len() == i,
            forall|k: int| 0 <= k < i ==> #[trigger] columns@[k]@.len() == histograms@.len(),
            forall|k: int, c: int|
                0 <= k < i && 0 <= c < histograms@.len() ==> #[trigger] columns@[k]@[c]
                    == histograms@[c]@[k],
    {
        let mut column: Vec<T> = Vec::new();
        for c in 0..histograms.len()
            invariant
                all_have_bins(histograms@, num_bins as nat),
                i < num_bins,
                column@.len() == c,
                forall|d: int| 0 <= d < c ==> #[trigger] column@[d] == histograms@[d]@[i as int],
        {
            assert(histograms@[c as int]@.len() >= num_bins);
            column.push(histograms[c][i]);
        }
        columns.push(column);
    }
    columns
}

} // verus!
