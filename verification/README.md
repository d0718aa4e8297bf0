# fraud_api

Card-fraud detection by nearest-neighbour search. A transaction becomes a vector of fourteen
features; its fraud score is the share of frauds among the five nearest reference vectors; below
0.6 it is approved.

The library under `src/` is verified with [Verus](https://github.com/verus-lang/verus). The
programs under `app/` are ordinary Rust around it: the scoring service, its load balancer and the
builder of the index.

| Module | Contents |
|---|---|
| `rounding`, `binary32`, `binary64` | IEEE 754 numbers as bit patterns, with correctly rounded operations in integer arithmetic |
| `vectorizer`, `models` | timestamps, feature vectors, payloads and decisions |
| `index::layout`, `index::writer` | the file format: reading, writing, and that what is written is read back |
| `index::quantize`, `index::simd`, `index::bbox`, `index::distance` | quantised features, distances with early exit, lower bounds of clusters |
| `index::search`, `index::clusters`, `index` | the five nearest, the heap of the nearest, nearest clusters, the pruned search |
| `index::nearest`, `index::knn` | that pruning loses nothing, and that a search gives the nearest in order |
| `index::kmeans`, `index::training` | k-means++ and k-means, that a training on finite vectors gets through, and when a drawn centroid is new |
| `build_index` | grouping, packing, bounds and validation of an index |
| `http`, `responses` | the course of a connection, the choice and text of a response |
| `stream` | that the answers do not depend on how a stream is cut into reads |
| `balancer`, `warmup`, `text` | round robin and retries, warm-up queries, numbers and white space in text |

Public proof functions whose names start with `law_` state what holds of the library as a whole.

Single-precision features are carried as `Binary32 { bits }`, so that every result is known to the
last bit. The tests compare each operation with the arithmetic of the machine.

The last bits of a distance depend on whether the machine multiplies and adds with one rounding
(AVX2 and FMA). The programs find out and hand it to the library as `fma`; the contracts and laws
cover both.
