# rsmdl

Histogramming of neutron event data, with filters on the events.

- `src/filters/weights.rs`: event weights as a bit string in 64-bit chunks
  (`Weights`): all-ones and all-zeros sets, setting single weights and
  ranges, slicing, combining by and, inverting.
- `src/filters/byte_weights.rs`: the same idea in 8-bit chunks, most
  significant bit first, with a byte padding that indexing adds.
- `src/filters/filtering.rs`: locating filter bounds among frame start times
  by binary search, and turning filtered frames into weights.
- `src/filters/api.rs`: the user's filter settings: named time and sample log
  filters, whether the time filters keep or drop their ranges, and the
  case-insensitive type names.
- `src/stats.rs`: counting events per period, spectrum and time bin, merging
  histograms of event chunks, and the chunk bounds.
- `app/`: the Python module (pyo3), reading HDF5 event files, the
  floating-point time binning, the parallel chunk loop, and a benchmark.

The functions under `src/` are verified with Verus against the contracts in
their headers, except the small wrappers marked `external_body` that call
rayon, ndarray and `str::to_lowercase`: their contracts are trusted, and each one's doc comment
says what it claims of the call. The proof functions state the laws the
weights and the histograms obey, among them that histograms counted
chunk by chunk and merged equal one pass over all events.
