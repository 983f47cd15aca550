# events_analyser

The analysis core of a muon event analyser, verified with Verus.

- `src/output.rs`: metric outputs in four shapes (value, value with errors, group,
  histograms); applying per-shape updates and gathering bucket outputs into a series.
- `src/results.rs`: per-bucket storage of a metric's results: message counts,
  fullness checks against configured minimums, pushing messages, loading saved data
  and aggregating; the laws that relate these operations.
- `src/chart.rs`: the axes and values that chart traces are drawn from, gathering the
  series of a chart, and the sizes and axis count of its layout.
- `src/spectra.rs`: regrouping per-channel histogram counts bin by bin.

`app/` holds what is not verified: configuration and event-list types, the pulse
height spectra metric (floating point), dispatch over metrics, and chart output with
plotly and JSON files.
