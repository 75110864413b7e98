//! Searching an index: how results of several clusters are merged, in which order rows are
//! returned, and what a scan checks. The graph is searched by the caller.
use crate::item_pointer::{law_keys_are_distinct, ItemPointer, ItemPointerData, INVALID_OFFSET_NUMBER};
use crate::result_heap::{law_taken_result_is_nearest, nearest_of, ResultHeap, SearchResult};
use crate::shared::StorageType;
use crate::single::smaller;
use std::collections::HashSet;
use vstd::math::max;
use vstd::multiset::Multiset;
use vstd::prelude::*;

verus! {

/// Each cluster may give at least this many results.
pub const MIN_RESULTS_PER_CLUSTER: usize = 10;

pub open spec fn spec_results_per_cluster(queue_size: int, num_clusters: int) -> int {
    max(queue_size / max(num_clusters, 1), MIN_RESULTS_PER_CLUSTER as int)
}

/// How many results a cluster may give: an even share of all, but not too few.
pub fn results_per_cluster(queue_size: usize, num_clusters: usize) -> (r: usize)
    ensures
        r == spec_results_per_cluster(queue_size as int, num_clusters as int),
{
    let clusters: usize = if num_clusters < 1 {
        1
    } else {
        num_clusters
    };
    let share: usize = queue_size / clusters;
    if share < MIN_RESULTS_PER_CLUSTER {
        MIN_RESULTS_PER_CLUSTER
    } else {
        share
    }
}

/// What a search of all clusters does next.
#[derive(Clone, Copy, Debug, PartialEq, Eq, Structural)]
pub enum SearchStep {
    /// Start to search a cluster from its start node.
    Begin { cluster: usize },
    /// Search on in the cluster, and look at one more result.
    Expand { cluster: usize },
    /// All results have been gathered.
    Done,
}

/// A search of one cluster after another, whose results are gathered in one heap.
pub struct ClusterSearch {
    pub num_clusters: usize,
    pub queue_size: usize,
    pub results_per_cluster: usize,
    /// The cluster that is being searched.
    pub cluster: usize,
    /// How many results it has given.
    pub cluster_result_count: usize,
    pub results: ResultHeap,
    /// The nodes of all results.
    pub seen_nodes: HashSet<u64>,
}

/// What a search of all clusters has gathered, and where it stands.
#[verifier::ext_equal]
pub struct SearchView {
    pub num_clusters: int,
    pub queue_size: int,
    pub cluster: int,
    pub count: int,
    pub results: Multiset<SearchResult>,
    pub seen: Set<u64>,
}

impl View for ClusterSearch {
    type V = SearchView;

    open spec fn view(&self) -> SearchView {
        SearchView {
            num_clusters: self.num_clusters as int,
            queue_size: self.queue_size as int,
            cluster: self.cluster as int,
            count: self.cluster_result_count as int,
            results: self.results@,
            seen: self.seen_nodes@,
        }
    }
}

/// What the caller of a search tells it.
#[derive(Clone, Copy, Debug, PartialEq, Eq, Structural)]
pub enum SearchEvent {
    /// The search of the cluster has been started.
    Begun,
    /// The cluster gave a result.
    Found { result: SearchResult },
    /// The cluster gave no result; perhaps it will not give any more.
    Nothing { exhausted: bool },
}

impl SearchView {
    pub open spec fn initial(num_clusters: int, queue_size: int) -> SearchView {
        SearchView {
            num_clusters,
            queue_size,
            cluster: 0,
            count: 0,
            results: Multiset::empty(),
            seen: Set::empty(),
        }
    }

    pub open spec fn first_step(self) -> SearchStep {
        if self.num_clusters > 0 {
            SearchStep::Begin { cluster: 0 }
        } else {
            SearchStep::Done
        }
    }

    /// A result is gathered if its row has not been deleted and its node is new.
    pub open spec fn gathers(self, result: SearchResult) -> bool {
        &&& result.heap_pointer.offset != INVALID_OFFSET_NUMBER
        &&& !self.seen.contains(result.index_pointer.spec_key() as u64)
    }

    pub open spec fn with(self, result: SearchResult) -> SearchView {
        SearchView {
            count: self.count + 1,
            results: self.results.insert(result),
            seen: self.seen.insert(result.index_pointer.spec_key() as u64),
            ..self
        }
    }

    /// The cluster has given enough, or enough has been gathered.
    pub open spec fn enough(self) -> bool {
        ||| self.count >= spec_results_per_cluster(self.queue_size, self.num_clusters)
        ||| self.results.len() >= self.queue_size
    }

    /// The step after a cluster: the next cluster, unless there is none or enough has been
    /// gathered.
    pub open spec fn after_cluster(self) -> SearchStep {
        if self.results.len() >= self.queue_size || self.cluster + 1 >= self.num_clusters {
            SearchStep::Done
        } else {
            SearchStep::Begin { cluster: (self.cluster + 1) as usize }
        }
    }

    pub open spec fn here(self) -> SearchStep {
        SearchStep::Expand { cluster: self.cluster as usize }
    }

    /// The search and its next step, after a step and what came of it. An event that does not
    /// answer the step changes nothing.
    pub open spec fn next(self, step: SearchStep, event: SearchEvent) -> (SearchView, SearchStep) {
        match (step, event) {
            (SearchStep::Begin { cluster }, SearchEvent::Begun) => {
                let started = SearchView { cluster: cluster as int, count: 0, ..self };
                (started, started.here())
            },
            (SearchStep::Expand { .. }, SearchEvent::Found { result }) => if self.gathers(result) {
                let more = self.with(result);
                if more.enough() {
                    (more, more.after_cluster())
                } else {
                    (more, more.here())
                }
            } else {
                (self, self.here())
            },
            (SearchStep::Expand { .. }, SearchEvent::Nothing { exhausted }) => if exhausted {
                (self, self.after_cluster())
            } else {
                (self, self.here())
            },
            _ => (self, step),
        }
    }

    /// The search and its next step after some events.
    pub open spec fn run(self, events: Seq<SearchEvent>) -> (SearchView, SearchStep)
        decreases events.len(),
    {
        if events.len() == 0 {
            (self, self.first_step())
        } else {
            let (before, step) = self.run(events.drop_last());
            before.next(step, events.last())
        }
    }
}

/// Every result is a row that has not been deleted, and every node occurs once among them.
pub open spec fn distinct_nodes(results: Multiset<SearchResult>, seen: Set<u64>) -> bool {
    &&& forall|r: SearchResult| #[trigger]
        results.contains(r) ==> {
            &&& results.count(r) == 1
            &&& r.heap_pointer.offset != INVALID_OFFSET_NUMBER
            &&& seen.contains(r.index_pointer.spec_key() as u64)
        }
    &&& forall|r: SearchResult, s: SearchResult| #[trigger]
        results.contains(r) && #[trigger] results.contains(s) && r.index_pointer == s.index_pointer
            ==> r == s
}

proof fn lemma_gathering_keeps_nodes_distinct(search: SearchView, result: SearchResult)
    requires
        distinct_nodes(search.results, search.seen),
        search.gathers(result),
    ensures
        distinct_nodes(search.with(result).results, search.with(result).seen),
{
    let before = search.results;
    let after = search.with(result).results;
    assert(!before.contains(result));
    assert forall|r: SearchResult| #[trigger] after.contains(r) implies {
        &&& after.count(r) == 1
        &&& r.heap_pointer.offset != INVALID_OFFSET_NUMBER
        &&& search.with(result).seen.contains(r.index_pointer.spec_key() as u64)
    } by {
        if r != result {
            assert(before.contains(r));
        }
    }
    assert forall|r: SearchResult, s: SearchResult| #[trigger]
        after.contains(r) && #[trigger] after.contains(s) && r.index_pointer
            == s.index_pointer implies r == s by {
        if r != result {
            assert(before.contains(r));
        }
        if s != result {
            assert(before.contains(s));
        }
    }
}

/// Whatever the clusters give, no node is gathered twice and no deleted row at all, no more
/// than enough is gathered, and no cluster gives more than its share.
pub proof fn law_search_gathers_distinct_rows(
    num_clusters: int,
    queue_size: int,
    events: Seq<SearchEvent>,
)
    requires
        0 <= num_clusters <= usize::MAX,
        0 <= queue_size,
    ensures
        ({
            let (search, step) = SearchView::initial(num_clusters, queue_size).run(events);
            let share = spec_results_per_cluster(queue_size, num_clusters);
            &&& distinct_nodes(search.results, search.seen)
            &&& search.results.len() <= max(queue_size, 1)
            &&& 0 <= search.count <= share
            &&& 0 <= search.cluster
            &&& step is Expand ==> search.count < share
            &&& step != SearchStep::Done ==> search.results.len() < max(queue_size, 1)
            &&& step matches SearchStep::Begin { cluster } ==> cluster < num_clusters
        }),
    decreases events.len(),
{
    broadcast use vstd::multiset::group_multiset_axioms;

    if events.len() > 0 {
        let start = SearchView::initial(num_clusters, queue_size);
        law_search_gathers_distinct_rows(num_clusters, queue_size, events.drop_last());
        lemma_run_keeps_limits(start, events.drop_last());
        let (before, step) = start.run(events.drop_last());
        if step is Expand && events.last() is Found {
            let result = events.last()->result;
            if before.gathers(result) {
                lemma_gathering_keeps_nodes_distinct(before, result);
            }
        }
    }
}

/// The known nodes are those of the results.
proof fn lemma_known_nodes_are_gathered(
    num_clusters: int,
    queue_size: int,
    events: Seq<SearchEvent>,
    key: u64,
)
    ensures
        ({
            let (search, step) = SearchView::initial(num_clusters, queue_size).run(events);
            search.seen.contains(key) ==> exists|r: SearchResult| #[trigger]
                search.results.contains(r) && r.index_pointer.spec_key() == key
        }),
    decreases events.len(),
{
    broadcast use vstd::multiset::group_multiset_axioms;

    if events.len() > 0 {
        let start = SearchView::initial(num_clusters, queue_size);
        lemma_known_nodes_are_gathered(num_clusters, queue_size, events.drop_last(), key);
        let (before, step) = start.run(events.drop_last());
        let (search, _) = start.run(events);
        if search.seen.contains(key) {
            if before.seen.contains(key) {
                let r = choose|r: SearchResult| #[trigger]
                    before.results.contains(r) && r.index_pointer.spec_key() == key;
                assert(search.results.contains(r));
            } else {
                assert(search.results.contains(events.last()->result));
            }
        }
    }
}

/// Whatever the clusters gave before, a row that has not been deleted is gathered in the step
/// that finds it, unless its node is that of a result that was gathered already. No other event
/// changes what has been gathered.
pub proof fn law_every_new_row_is_gathered(
    num_clusters: int,
    queue_size: int,
    events: Seq<SearchEvent>,
    event: SearchEvent,
)
    requires
        0 <= num_clusters <= usize::MAX,
        0 <= queue_size,
    ensures
        ({
            let start = SearchView::initial(num_clusters, queue_size);
            let (before, step) = start.run(events);
            let (after, _) = start.run(events.push(event));
            match (step, event) {
                (SearchStep::Expand { .. }, SearchEvent::Found { result }) => after.results == if (
                result.heap_pointer.offset == 0) || exists|r: SearchResult| #[trigger]
                    before.results.contains(r) && r.index_pointer == result.index_pointer {
                    before.results
                } else {
                    before.results.insert(result)
                },
                _ => after.results == before.results,
            }
        }),
{
    let start = SearchView::initial(num_clusters, queue_size);
    let (before, step) = start.run(events);
    assert(events.push(event).drop_last() =~= events);
    if step is Expand && event is Found {
        let result = event->result;
        let key = result.index_pointer.spec_key() as u64;
        law_search_gathers_distinct_rows(num_clusters, queue_size, events);
        lemma_known_nodes_are_gathered(num_clusters, queue_size, events, key);
        assert(result.index_pointer.spec_key() == key);
        if before.seen.contains(key) {
            let r = choose|r: SearchResult| #[trigger]
                before.results.contains(r) && r.index_pointer.spec_key() == key;
            law_keys_are_distinct(r.index_pointer, result.index_pointer);
        }
    }
}

/// A search stays in a cluster until the cluster has no more to give, has given its share, or
/// enough has been gathered, and then goes on to the next one, if any; it ends in no other way.
pub proof fn law_search_leaves_a_cluster_for_a_reason(search: SearchView, event: SearchEvent)
    requires
        0 <= search.cluster < search.num_clusters <= usize::MAX,
        0 <= search.queue_size,
    ensures
        ({
            let step = SearchStep::Expand { cluster: search.cluster as usize };
            let (after, next) = search.next(step, event);
            let all = after.results.len();
            let gathered = all > search.results.len();
            let leaves = (event matches SearchEvent::Nothing { exhausted } && exhausted) || (
            gathered && (all >= search.queue_size || after.count >= spec_results_per_cluster(
                search.queue_size,
                search.num_clusters,
            )));
            &&& after.cluster == search.cluster
            &&& after.count == search.count + if gathered {
                1int
            } else {
                0int
            }
            &&& !leaves ==> next == step
            &&& leaves && (all >= search.queue_size || search.cluster + 1 == search.num_clusters)
                ==> next == SearchStep::Done
            &&& leaves && all < search.queue_size && search.cluster + 1 < search.num_clusters
                ==> next == SearchStep::Begin { cluster: (search.cluster + 1) as usize }
        }),
{
    broadcast use vstd::multiset::group_multiset_axioms;
}

/// A search starts with nothing gathered and with the first cluster, if there is any. A cluster
/// that it begins with it then searches, and counts that cluster's results from zero. An event
/// that does not answer the step changes nothing.
pub proof fn law_search_begins_each_cluster_anew(
    num_clusters: int,
    queue_size: int,
    search: SearchView,
    step: SearchStep,
    event: SearchEvent,
)
    requires
        0 <= num_clusters <= usize::MAX,
    ensures
        ({
            let (start, first) = SearchView::initial(num_clusters, queue_size).run(Seq::empty());
            &&& start.results == Multiset::<SearchResult>::empty()
            &&& num_clusters > 0 ==> first == SearchStep::Begin { cluster: 0 }
            &&& num_clusters == 0 ==> first == SearchStep::Done
        }),
        step matches SearchStep::Begin { cluster } ==> (event == SearchEvent::Begun ==> {
            let (after, next) = search.next(step, event);
            &&& after.cluster == cluster
            &&& after.count == 0
            &&& after.results == search.results
            &&& next == SearchStep::Expand { cluster }
        }),
        step is Begin && event != SearchEvent::Begun ==> search.next(step, event) == (search, step),
        step is Expand && event == SearchEvent::Begun ==> search.next(step, event) == (
            search,
            step,
        ),
        step == SearchStep::Done ==> search.next(step, event) == (search, step),
{
}

/// The share of a cluster is the largest one of which every cluster can have one, but ten at
/// least.
pub proof fn law_clusters_have_even_shares(queue_size: int, num_clusters: int)
    requires
        0 <= queue_size,
        0 < num_clusters,
    ensures
        ({
            let share = spec_results_per_cluster(queue_size, num_clusters);
            &&& share >= 10
            &&& share > 10 ==> share * num_clusters <= queue_size
            &&& queue_size < (share + 1) * num_clusters
        }),
{
    let even = queue_size / num_clusters;
    let share = spec_results_per_cluster(queue_size, num_clusters);
    assert(even * num_clusters <= queue_size < (even + 1) * num_clusters) by (nonlinear_arith)
        requires
            even == queue_size / num_clusters,
            num_clusters > 0,
    ;
    assert((even + 1) * num_clusters <= (share + 1) * num_clusters) by (nonlinear_arith)
        requires
            even <= share,
            num_clusters > 0,
    ;
}

proof fn lemma_run_keeps_limits(start: SearchView, events: Seq<SearchEvent>)
    ensures
        start.run(events).0.num_clusters == start.num_clusters,
        start.run(events).0.queue_size == start.queue_size,
    decreases events.len(),
{
    if events.len() > 0 {
        lemma_run_keeps_limits(start, events.drop_last());
    }
}

/// A search goes from a cluster to the one after it, and ends after the last or as soon as
/// enough has been gathered.
pub proof fn law_search_visits_clusters_in_order(search: SearchView)
    requires
        0 <= search.cluster < search.num_clusters <= usize::MAX,
    ensures
        search.after_cluster() == SearchStep::Done <==> search.results.len() >= search.queue_size
            || search.cluster == search.num_clusters - 1,
        search.after_cluster() matches SearchStep::Begin { cluster } ==> cluster == search.cluster
            + 1,
{
}

impl ClusterSearch {
    /// The limits are those of the clusters, and every node occurs once among the results.
    pub open spec fn wf(self) -> bool {
        &&& self.results.wf()
        &&& self.cluster_result_count <= self.results@.len()
        &&& self.results_per_cluster == spec_results_per_cluster(
            self.queue_size as int,
            self.num_clusters as int,
        )
        &&& distinct_nodes(self.results@, self.seen_nodes@)
    }

    /// A search that has gathered nothing.
    pub fn new(num_clusters: usize, queue_size: usize) -> (r: ClusterSearch)
        ensures
            r.wf(),
            r@ == SearchView::initial(num_clusters as int, queue_size as int),
    {
        broadcast use vstd::std_specs::hash::group_hash_axioms;

        let r = ClusterSearch {
            num_clusters,
            queue_size,
            results_per_cluster: results_per_cluster(queue_size, num_clusters),
            cluster: 0,
            cluster_result_count: 0,
            results: ResultHeap::new(),
            seen_nodes: HashSet::new(),
        };
        assert(r@.seen =~= Set::empty());
        r
    }

    /// The first step.
    pub fn start(&self) -> (r: SearchStep)
        ensures
            r == self@.first_step(),
    {
        if self.num_clusters > 0 {
            SearchStep::Begin { cluster: 0 }
        } else {
            SearchStep::Done
        }
    }

    fn leave_cluster(&self) -> (r: SearchStep)
        ensures
            r == self@.after_cluster(),
    {
        if self.results.len() >= self.queue_size || self.cluster >= self.num_clusters
            || self.cluster + 1 >= self.num_clusters {
            SearchStep::Done
        } else {
            SearchStep::Begin { cluster: self.cluster + 1 }
        }
    }

    /// Gathers a result, unless its row has been deleted or its node is known.
    fn gather(&mut self, result: SearchResult) -> (r: bool)
        requires
            old(self).wf(),
            old(self).results@.len() < usize::MAX,
        ensures
            final(self).wf(),
            r == old(self)@.gathers(result),
            final(self)@ == if r {
                old(self)@.with(result)
            } else {
                old(self)@
            },
            final(self).results_per_cluster == old(self).results_per_cluster,
    {
        broadcast use vstd::std_specs::hash::group_hash_axioms;

        if result.heap_pointer.offset == INVALID_OFFSET_NUMBER {
            return false;
        }
        let key: u64 = result.index_pointer.key();
        if self.seen_nodes.contains(&key) {
            return false;
        }
        proof {
            lemma_gathering_keeps_nodes_distinct(self@, result);
        }
        self.seen_nodes.insert(key);
        self.results.push(result);
        self.cluster_result_count = self.cluster_result_count + 1;
        assert(self@ =~= old(self)@.with(result));
        true
    }

    /// Takes note of what came of a step, and says what to do next.
    pub fn next(&mut self, step: SearchStep, event: SearchEvent) -> (r: SearchStep)
        requires
            old(self).wf(),
            old(self).results@.len() < usize::MAX,
        ensures
            final(self).wf(),
            (final(self)@, r) == old(self)@.next(step, event),
    {
        match (step, event) {
            (SearchStep::Begin { cluster }, SearchEvent::Begun) => {
                self.cluster = cluster;
                self.cluster_result_count = 0;
                SearchStep::Expand { cluster }
            },
            (SearchStep::Expand { .. }, SearchEvent::Found { result }) => {
                if self.gather(result) && (self.cluster_result_count >= self.results_per_cluster
                    || self.results.len() >= self.queue_size) {
                    self.leave_cluster()
                } else {
                    SearchStep::Expand { cluster: self.cluster }
                }
            },
            (SearchStep::Expand { .. }, SearchEvent::Nothing { exhausted }) => {
                if exhausted {
                    self.leave_cluster()
                } else {
                    SearchStep::Expand { cluster: self.cluster }
                }
            },
            _ => step,
        }
    }
}

/// A row of the table and its node in the index.
pub type Row = (ItemPointer, ItemPointer);

/// What a scan does next to find a row.
#[derive(Clone, Copy, Debug, PartialEq, Eq)]
pub enum ResponseAction {
    /// Search on in the graph and take the next row from it.
    Consume { resort: bool },
    /// Measure the exact distance of a row.
    Measure { heap_pointer: ItemPointer, index_pointer: ItemPointer },
    /// Return a row, or the end of the scan.
    Return { row: Option<Row> },
}

/// The rows that a scan has found and not yet returned.
pub struct ResponseIterator {
    pub is_cluster_mode: bool,
    pub has_label_filter: bool,
    pub search_list_size: usize,
    /// How many rows are sorted by their exact distance before one is returned.
    pub resort_size: usize,
    pub resort_buffer: ResultHeap,
    pub cluster_results: ResultHeap,
    /// How many distances still count for the base statistics of the scan.
    pub base_left: usize,
    pub next_calls: i32,
    pub next_calls_with_resort: i32,
    pub full_distance_comparisons: i32,
}

/// A nearest row is taken out of some results, or none if there are none.
pub open spec fn takes_nearest(
    before: Multiset<SearchResult>,
    after: Multiset<SearchResult>,
    row: Option<Row>,
) -> bool {
    match row {
        Some(row) => exists|x: SearchResult| #[trigger]
            nearest_of(before, x) && (x.heap_pointer, x.index_pointer) == row && after
                == before.remove(x),
        None => before.len() == 0 && after == before,
    }
}

fn take_nearest(results: &mut ResultHeap) -> (r: Option<Row>)
    requires
        old(results).wf(),
    ensures
        final(results).wf(),
        takes_nearest(old(results)@, final(results)@, r),
{
    match results.pop() {
        Some(x) => {
            assert(nearest_of(old(results)@, x));
            Some((x.heap_pointer, x.index_pointer))
        },
        None => None,
    }
}

/// An index whose clusters were built apart has no common start nodes.
pub fn is_cluster_mode(has_start_nodes: bool) -> (r: bool)
    ensures
        r == !has_start_nodes,
{
    !has_start_nodes
}

/// Whether a query filters by labels: if it has any.
pub fn has_label_filter(num_labels: Option<usize>) -> (r: bool)
    ensures
        r == (num_labels matches Some(n) && n > 0),
{
    match num_labels {
        Some(n) => n > 0,
        None => false,
    }
}

impl ResponseIterator {
    /// No more rows are kept for sorting than are sorted at a time.
    pub open spec fn wf(self) -> bool {
        &&& self.resort_buffer.wf()
        &&& self.cluster_results.wf()
        &&& self.resort_buffer@.len() <= self.resort_size
        &&& self.base_left <= self.resort_size
    }

    /// The kind of scan stays the same, and what counts for its statistics.
    pub open spec fn same_scan(self, other: ResponseIterator) -> bool {
        &&& self.is_cluster_mode == other.is_cluster_mode
        &&& self.has_label_filter == other.has_label_filter
        &&& self.search_list_size == other.search_list_size
        &&& self.resort_size == other.resort_size
        &&& self.base_left == other.base_left
    }

    /// The buffer is filled before its nearest row is returned.
    pub open spec fn fills_or_returns(self, before: ResponseIterator, r: ResponseAction) -> bool {
        &&& self.cluster_results@ == before.cluster_results@
        &&& if before.resort_buffer@.len() < before.resort_size {
            &&& r == (ResponseAction::Consume { resort: true })
            &&& self.next_calls == before.next_calls + 1
            &&& self.resort_buffer@ == before.resort_buffer@
        } else {
            &&& r is Return
            &&& self.next_calls == before.next_calls
            &&& takes_nearest(before.resort_buffer@, self.resort_buffer@, r->row)
        }
    }

    /// A scan that has found nothing, or whose results have been gathered from all clusters.
    pub fn new(
        cluster_results: Option<ResultHeap>,
        has_label_filter: bool,
        search_list_size: usize,
        resort_size: usize,
    ) -> (r: ResponseIterator)
        requires
            cluster_results is Some ==> cluster_results->0.wf(),
        ensures
            r.wf(),
            r.is_cluster_mode == (cluster_results is Some),
            r.has_label_filter == has_label_filter,
            r.search_list_size == search_list_size,
            r.resort_size == resort_size,
            r.resort_buffer@ == Multiset::<SearchResult>::empty(),
            r.cluster_results@ == match cluster_results {
                Some(results) => results@,
                None => Multiset::<SearchResult>::empty(),
            },
            r.base_left == resort_size,
            r.next_calls == 0,
            r.next_calls_with_resort == 0,
            r.full_distance_comparisons == 0,
    {
        broadcast use vstd::multiset::group_multiset_axioms;

        let (is_cluster_mode, results) = match cluster_results {
            Some(results) => (true, results),
            None => (false, ResultHeap::new()),
        };
        ResponseIterator {
            is_cluster_mode,
            has_label_filter,
            search_list_size,
            resort_size,
            resort_buffer: ResultHeap::new(),
            cluster_results: results,
            base_left: resort_size,
            next_calls: 0,
            next_calls_with_resort: 0,
            full_distance_comparisons: 0,
        }
    }

    /// Asks for the next row as the search finds it. The results of clusters are returned the
    /// nearest first.
    pub fn next(&mut self) -> (r: ResponseAction)
        requires
            old(self).wf(),
            old(self).next_calls < i32::MAX,
        ensures
            final(self).wf(),
            final(self).same_scan(*old(self)),
            final(self).next_calls == old(self).next_calls + 1,
            final(self).next_calls_with_resort == old(self).next_calls_with_resort,
            final(self).full_distance_comparisons == old(self).full_distance_comparisons,
            final(self).resort_buffer@ == old(self).resort_buffer@,
            if old(self).is_cluster_mode {
                &&& r is Return
                &&& takes_nearest(old(self).cluster_results@, final(self).cluster_results@, r->row)
            } else {
                &&& r == (ResponseAction::Consume { resort: false })
                &&& final(self).cluster_results@ == old(self).cluster_results@
            },
    {
        self.next_calls = self.next_calls + 1;
        if self.is_cluster_mode {
            ResponseAction::Return { row: take_nearest(&mut self.cluster_results) }
        } else {
            ResponseAction::Consume { resort: false }
        }
    }

    fn fill_or_return(&mut self) -> (r: ResponseAction)
        requires
            old(self).wf(),
            old(self).next_calls < i32::MAX,
        ensures
            final(self).wf(),
            final(self).same_scan(*old(self)),
            final(self).fills_or_returns(*old(self), r),
            final(self).next_calls_with_resort == old(self).next_calls_with_resort,
            final(self).full_distance_comparisons == old(self).full_distance_comparisons,
    {
        broadcast use vstd::multiset::group_multiset_axioms;

        if self.resort_buffer.len() < self.resort_size {
            self.next_calls = self.next_calls + 1;
            ResponseAction::Consume { resort: true }
        } else {
            ResponseAction::Return { row: take_nearest(&mut self.resort_buffer) }
        }
    }

    /// Asks for the next row in the order of exact distances, as far as the rows that are
    /// sorted at a time tell it. If none are, rows are returned as the search finds them.
    pub fn next_with_resort(&mut self) -> (r: ResponseAction)
        requires
            old(self).wf(),
            old(self).next_calls < i32::MAX,
            old(self).next_calls_with_resort < i32::MAX,
        ensures
            final(self).wf(),
            final(self).same_scan(*old(self)),
            final(self).next_calls_with_resort == old(self).next_calls_with_resort + 1,
            final(self).full_distance_comparisons == old(self).full_distance_comparisons,
            if old(self).is_cluster_mode {
                &&& r is Return
                &&& takes_nearest(old(self).cluster_results@, final(self).cluster_results@, r->row)
                &&& final(self).resort_buffer@ == old(self).resort_buffer@
                &&& final(self).next_calls == old(self).next_calls
            } else if old(self).resort_size == 0 {
                &&& r == (ResponseAction::Consume { resort: false })
                &&& final(self).cluster_results@ == old(self).cluster_results@
                &&& final(self).resort_buffer@ == old(self).resort_buffer@
                &&& final(self).next_calls == old(self).next_calls + 1
            } else {
                final(self).fills_or_returns(*old(self), r)
            },
    {
        self.next_calls_with_resort = self.next_calls_with_resort + 1;
        if self.is_cluster_mode {
            return ResponseAction::Return { row: take_nearest(&mut self.cluster_results) };
        }
        if self.resort_size == 0 {
            return self.next();
        }
        self.fill_or_return()
    }

    /// The search gave a row, or has come to its end. A deleted row is passed over.
    pub fn consumed(&mut self, resort: bool, item: Option<Row>) -> (r: ResponseAction)
        requires
            old(self).wf(),
            old(self).full_distance_comparisons < i32::MAX,
        ensures
            final(self).wf(),
            final(self).same_scan(*old(self)),
            final(self).cluster_results@ == old(self).cluster_results@,
            final(self).next_calls == old(self).next_calls,
            final(self).next_calls_with_resort == old(self).next_calls_with_resort,
            ({
                let live = item matches Some(row) && row.0.offset != INVALID_OFFSET_NUMBER;
                &&& final(self).full_distance_comparisons == old(self).full_distance_comparisons
                    + if resort && live {
                    1int
                } else {
                    0int
                }
                &&& match item {
                    Some(row) => {
                        &&& final(self).resort_buffer@ == old(self).resort_buffer@
                        &&& r == if !live {
                            ResponseAction::Consume { resort }
                        } else if resort {
                            ResponseAction::Measure { heap_pointer: row.0, index_pointer: row.1 }
                        } else {
                            ResponseAction::Return { row: item }
                        }
                    },
                    None => if resort {
                        &&& r is Return
                        &&& takes_nearest(
                            old(self).resort_buffer@,
                            final(self).resort_buffer@,
                            r->row,
                        )
                    } else {
                        &&& r == (ResponseAction::Return { row: None })
                        &&& final(self).resort_buffer@ == old(self).resort_buffer@
                    },
                }
            }),
    {
        broadcast use vstd::multiset::group_multiset_axioms;

        match item {
            Some((heap_pointer, index_pointer)) => {
                if heap_pointer.offset == INVALID_OFFSET_NUMBER {
                    ResponseAction::Consume { resort }
                } else if resort {
                    self.full_distance_comparisons = self.full_distance_comparisons + 1;
                    ResponseAction::Measure { heap_pointer, index_pointer }
                } else {
                    ResponseAction::Return { row: Some((heap_pointer, index_pointer)) }
                }
            },
            None => {
                if resort {
                    ResponseAction::Return { row: take_nearest(&mut self.resort_buffer) }
                } else {
                    ResponseAction::Return { row: None }
                }
            },
        }
    }

    /// Whether the distance of a row counts for the statistics of the scan: those of the first
    /// rows in the buffer do not.
    pub fn counts_for_stats(&self) -> (r: bool)
        ensures
            r == (self.resort_buffer@.len() > 1),
    {
        self.resort_buffer.len() > 1
    }

    /// Whether a distance that counts for the statistics of the scan counts for its base
    /// statistics too: as many do, from the first on, as rows are sorted at a time.
    pub fn counts_for_base(&mut self) -> (r: bool)
        requires
            old(self).wf(),
        ensures
            final(self).wf(),
            r == (old(self).base_left > 0),
            *final(self) == (ResponseIterator {
                base_left: (old(self).base_left - if r {
                    1int
                } else {
                    0int
                }) as usize,
                ..*old(self)
            }),
    {
        if self.base_left > 0 {
            self.base_left = self.base_left - 1;
            true
        } else {
            false
        }
    }

    /// The exact distance of a row has been measured; there is none if the row is not in the
    /// table any more.
    pub fn measured(
        &mut self,
        heap_pointer: ItemPointer,
        index_pointer: ItemPointer,
        distance: Option<u32>,
    ) -> (r: ResponseAction)
        requires
            old(self).wf(),
            old(self).resort_buffer@.len() < old(self).resort_size,
            old(self).next_calls < i32::MAX,
        ensures
            final(self).wf(),
            final(self).same_scan(*old(self)),
            final(self).next_calls_with_resort == old(self).next_calls_with_resort,
            final(self).full_distance_comparisons == old(self).full_distance_comparisons,
            final(self).cluster_results@ == old(self).cluster_results@,
            ({
                let buffer = match distance {
                    Some(distance) => old(self).resort_buffer@.insert(
                        SearchResult { heap_pointer, index_pointer, distance },
                    ),
                    None => old(self).resort_buffer@,
                };
                if buffer.len() < old(self).resort_size {
                    &&& r == (ResponseAction::Consume { resort: true })
                    &&& final(self).next_calls == old(self).next_calls + 1
                    &&& final(self).resort_buffer@ == buffer
                } else {
                    &&& r is Return
                    &&& final(self).next_calls == old(self).next_calls
                    &&& takes_nearest(buffer, final(self).resort_buffer@, r->row)
                }
            }),
    {
        broadcast use vstd::multiset::group_multiset_axioms;

        if let Some(distance) = distance {
            self.resort_buffer.push(SearchResult { heap_pointer, index_pointer, distance });
        }
        self.fill_or_return()
    }
}

/// A row that is taken is that of a result at the smallest distance, which then is gone, and
/// none is taken only where there is none.
pub proof fn law_taken_row_is_at_the_smallest_distance(
    before: Multiset<SearchResult>,
    after: Multiset<SearchResult>,
    row: Option<Row>,
    other: SearchResult,
)
    requires
        takes_nearest(before, after, row),
    ensures
        row is None <==> before.len() == 0,
        row matches Some(taken) ==> exists|x: SearchResult|
            {
                &&& #[trigger] before.contains(x)
                &&& x.heap_pointer == taken.0
                &&& x.index_pointer == taken.1
                &&& after.insert(x) == before
                &&& before.contains(other) ==> !smaller(other.distance, x.distance)
            },
        row is None ==> after == before,
{
    broadcast use vstd::multiset::group_multiset_axioms;

    if row is Some {
        let x = choose|x: SearchResult| #[trigger]
            nearest_of(before, x) && (x.heap_pointer, x.index_pointer) == row->0 && after
                == before.remove(x);
        assert(before.contains(x));
        assert(before.remove(x).insert(x) =~= before);
        if before.contains(other) {
            law_taken_result_is_nearest(before, x, other);
        }
    }
}

/// Asking for rows changes nothing of what kind of scan it is, nor what counts for its base
/// statistics.
pub proof fn law_scan_stays_the_same(before: ResponseIterator, after: ResponseIterator)
    requires
        after.same_scan(before),
    ensures
        after.is_cluster_mode == before.is_cluster_mode,
        after.has_label_filter == before.has_label_filter,
        after.search_list_size == before.search_list_size,
        after.resort_size == before.resort_size,
        after.base_left == before.base_left,
{
}

/// While fewer rows are buffered than are sorted at a time, another one is asked for and none
/// is returned; from then on one is returned and none is asked for.
pub proof fn law_buffer_is_filled_before_a_row_is_returned(
    before: ResponseIterator,
    after: ResponseIterator,
    r: ResponseAction,
)
    requires
        after.fills_or_returns(before, r),
    ensures
        after.cluster_results@ == before.cluster_results@,
        before.resort_buffer@.len() < before.resort_size ==> {
            &&& r == (ResponseAction::Consume { resort: true })
            &&& after.resort_buffer@ == before.resort_buffer@
            &&& after.next_calls == before.next_calls + 1
        },
        before.resort_buffer@.len() >= before.resort_size ==> {
            &&& r matches ResponseAction::Return { row } && (row is None
                <==> before.resort_buffer@.len() == 0)
            &&& after.next_calls == before.next_calls
            &&& before.resort_buffer@.len() > 0 ==> after.resort_buffer@.len()
                == before.resort_buffer@.len() - 1
        },
{
    broadcast use vstd::multiset::group_multiset_axioms;

    if before.resort_buffer@.len() >= before.resort_size {
        law_taken_row_is_at_the_smallest_distance(
            before.resort_buffer@,
            after.resort_buffer@,
            r->row,
            SearchResult {
                heap_pointer: ItemPointer { block_number: 0, offset: 0 },
                index_pointer: ItemPointer { block_number: 0, offset: 0 },
                distance: 0,
            },
        );
    }
}

/// Rows that are taken one after the other from results to which nothing is added come in the
/// order of their distances, and each of them once.
pub proof fn law_rows_come_nearest_first(
    first: Multiset<SearchResult>,
    second: Multiset<SearchResult>,
    third: Multiset<SearchResult>,
    row: Row,
    next: Row,
)
    requires
        takes_nearest(first, second, Some(row)),
        takes_nearest(second, third, Some(next)),
    ensures
        exists|x: SearchResult, y: SearchResult|
            {
                &&& #[trigger] nearest_of(first, x)
                &&& #[trigger] nearest_of(second, y)
                &&& (x.heap_pointer, x.index_pointer) == row
                &&& (y.heap_pointer, y.index_pointer) == next
                &&& x.no_farther(y)
            },
        second.len() == first.len() - 1,
        third.len() == second.len() - 1,
{
    broadcast use vstd::multiset::group_multiset_axioms;

    let x = choose|x: SearchResult| #[trigger]
        nearest_of(first, x) && (x.heap_pointer, x.index_pointer) == row && second == first.remove(
            x,
        );
    let y = choose|y: SearchResult| #[trigger]
        nearest_of(second, y) && (y.heap_pointer, y.index_pointer) == next && third
            == second.remove(y);
    crate::result_heap::law_results_come_nearest_first(first, x, y);
    assert(nearest_of(first, x) && nearest_of(second, y));
}

/// Why a scan is refused.
#[derive(Clone, Copy, Debug, PartialEq, Eq, Structural)]
pub enum ScanKeyError {
    /// Expected a single order-by key
    OrderBys { norderbys: i32 },
    /// Expected 0 or 1 keys
    Keys { nkeys: i32 },
}

/// Checks the keys of a scan, and tells whether its rows must be checked again: if they are
/// filtered.
pub fn check_scan_keys(nkeys: i32, norderbys: i32) -> (r: Result<bool, ScanKeyError>)
    ensures
        r == if norderbys != 1 {
            Err::<bool, ScanKeyError>(ScanKeyError::OrderBys { norderbys })
        } else if nkeys != 0 && nkeys != 1 {
            Err(ScanKeyError::Keys { nkeys })
        } else {
            Ok(nkeys > 0)
        },
{
    if norderbys != 1 {
        Err(ScanKeyError::OrderBys { norderbys })
    } else if nkeys != 0 && nkeys != 1 {
        Err(ScanKeyError::Keys { nkeys })
    } else {
        Ok(nkeys > 0)
    }
}

/// Whether rows are sorted by their exact distance: always if vectors are compressed, and
/// otherwise if only some of their components are indexed.
pub fn needs_resort(
    storage: StorageType,
    num_dimensions: u32,
    num_dimensions_to_index: u32,
) -> (r: bool)
    ensures
        r == (storage == StorageType::SbqCompression || num_dimensions != num_dimensions_to_index),
{
    match storage {
        StorageType::SbqCompression => true,
        StorageType::Plain => num_dimensions != num_dimensions_to_index,
    }
}

/// What the server is told of a row: its identifier, and the index page that stays pinned as
/// long as it is the last row that was returned.
pub fn get_tuple(next: Option<Row>) -> (r: Option<(ItemPointerData, u32)>)
    ensures
        r == match next {
            Some(row) => Some((row.0.spec_to_data(), row.1.block_number)),
            None => None,
        },
{
    match next {
        Some((heap_pointer, index_pointer)) => Some(
            (heap_pointer.to_item_pointer_data(), index_pointer.block_number),
        ),
        None => None,
    }
}

/// Whether the statistics of a scan are reported at its end: if messages of a level are written
/// to the log or sent to the client.
pub fn reports_stats(log_min_messages: i32, client_min_messages: i32, level: i32) -> (r: bool)
    ensures
        r == (log_min_messages <= level || client_min_messages <= level),
{
    let min_level: i32 = if log_min_messages < client_min_messages {
        log_min_messages
    } else {
        client_min_messages
    };
    min_level <= level
}

} // verus!
