# ivf_clusterer

The clusterer of an inverted-file vector index, verified with Verus.

It decides how many clusters an index gets, checks what goes into the clustering
algorithm and what comes out of it, and finds the further clusters that a vector
near a boundary is replicated into. The scan for these looks at the neighbors of
the vector's own cluster only, where a certificate says that this is enough, and
at all clusters otherwise.

- `src/` is the library. Verus proves its functions to meet their contracts, but
  for the few below that call into other crates.
  Single-precision values are held by their bit patterns. The arithmetic on them
  is a type of the caller's; the clustering algorithm, and the building of a
  neighbor table on many threads, are functions that the caller hands in.
- `tests/` runs the library with single-precision arithmetic.
- `app/` plugs the library into a search index.

What is trusted without proof: the hasher of `rustc-hash` behind the fingerprint
of a centroid matrix (`src/fingerprint.rs`), and the mutex of `parking_lot` around
the kept neighbor table (`src/cache.rs`).
