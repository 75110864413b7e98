# vectorscale

Building and searching a vector index in clusters, with the decisions verified by Verus.

A table of vectors is grouped into clusters. One process scans the table and pushes each vector
to the queue of its cluster in shared memory; workers take vectors from the queues and build the
graph of each cluster. A search goes through all clusters and merges what they give.

- `src/` is the verified library.
  - `item_pointer`, `start_nodes`, `assignments`, `queue`, `centroids`, `shared`: what processes
    share, and how it is laid out.
  - `distribution`, `collector`, `leader`, `producer`, `consumer`, `settings`: how a build is
    planned and in which order its processes act.
  - `k_means`, `kmeans1d`, `lloyd`, `refill`: how vectors are grouped.
  - `result_heap`, `scan`: how an index is searched.
  - `binary64`, `double_order`, `single`, `sums`: numbers. Doubles are computed in integers with correct
    rounding; components of vectors are kept as bit patterns.
- `tests/` runs the library.
- `app/` is ordinary Rust around it: arithmetic on components, atomics in shared memory, threads
  and PostgreSQL.

Processes that wait for each other are described by state machines: the library says from an
action and what came of it what comes next, and `app/` acts. What is proved of the queues holds
of one operation after the other; `app/` performs them with atomic instructions on counts that
only grow.
