//! The node at which the search of each cluster starts, shared by the workers that build it.
use crate::item_pointer::{law_item_pointer_round_trip, ItemPointer, ItemPointerData, INVALID_OFFSET_NUMBER};
use vstd::prelude::*;

verus! {

/// How many clusters the shared arrays have room for.
pub const MAX_CLUSTERS: usize = 64;

/// The start node of one cluster.
#[derive(Clone, Copy, Debug)]
pub struct ClusterStartNode {
    pub cluster_id: u32,
    pub start_node: ItemPointerData,
}

/// The start nodes of all clusters.
pub struct ClusterStartNodes {
    pub num_clusters: usize,
    pub nodes: [ClusterStartNode; 64],
}

/// The array of start nodes, of which the first `num_clusters` count.
#[verifier::ext_equal]
pub struct StartNodesView {
    pub num_clusters: int,
    pub nodes: Seq<ClusterStartNode>,
}

impl StartNodesView {
    /// The cluster is unknown, or the array has a place for it.
    pub open spec fn has_room_for(self, cluster_id: int) -> bool {
        cluster_id < self.num_clusters ==> cluster_id < self.nodes.len()
    }

    /// The start node of a cluster, where one was set.
    pub open spec fn start_of(self, cluster_id: int) -> Option<ItemPointerData> {
        if 0 <= cluster_id < self.num_clusters && self.nodes[cluster_id].start_node.ip_posid
            != INVALID_OFFSET_NUMBER {
            Some(self.nodes[cluster_id].start_node)
        } else {
            None
        }
    }

    /// The array after the start node of a cluster was set; an unknown cluster is ignored.
    pub open spec fn with(self, cluster_id: int, node: ItemPointerData) -> StartNodesView {
        if cluster_id < self.num_clusters {
            StartNodesView {
                num_clusters: self.num_clusters,
                nodes: self.nodes.update(
                    cluster_id,
                    ClusterStartNode { cluster_id: cluster_id as u32, start_node: node },
                ),
            }
        } else {
            self
        }
    }

    /// The array after a worker offered its own node.
    pub open spec fn claimed(self, cluster_id: int, own: ItemPointer) -> StartNodesView {
        if self.start_of(cluster_id) is None {
            self.with(cluster_id, own.spec_to_data())
        } else {
            self
        }
    }

    /// The node that the worker then starts from.
    pub open spec fn claim_result(self, cluster_id: int, own: ItemPointer) -> Option<ItemPointer> {
        match self.start_of(cluster_id) {
            Some(shared) => Some(ItemPointer::spec_from_data(shared)),
            None => if cluster_id < self.num_clusters {
                Some(own)
            } else {
                None
            },
        }
    }

    /// The start nodes that the first `count` clusters have, with the clusters' numbers.
    pub open spec fn collected(self, count: int) -> Seq<(u32, ItemPointer)>
        decreases count,
    {
        if count <= 0 {
            Seq::empty()
        } else {
            match self.start_of(count - 1) {
                Some(node) => self.collected(count - 1).push(
                    ((count - 1) as u32, ItemPointer::spec_from_data(node)),
                ),
                None => self.collected(count - 1),
            }
        }
    }
}

impl View for ClusterStartNodes {
    type V = StartNodesView;

    open spec fn view(&self) -> StartNodesView {
        StartNodesView { num_clusters: self.num_clusters as int, nodes: self.nodes@ }
    }
}

impl ClusterStartNodes {
    /// No cluster has a start node yet.
    pub fn new(num_clusters: usize) -> (r: ClusterStartNodes)
        ensures
            r@ == (StartNodesView {
                num_clusters: num_clusters as int,
                nodes: Seq::new(
                    64,
                    |i: int|
                        ClusterStartNode {
                            cluster_id: 0,
                            start_node: ItemPointerData::spec_zeroed(),
                        },
                ),
            }),
    {
        ClusterStartNodes {
            num_clusters,
            nodes: [ClusterStartNode { cluster_id: 0, start_node: ItemPointerData::zeroed() }; 64],
        }
    }

    /// Sets the start node of a cluster; an unknown cluster is ignored.
    pub fn set_start_node(&mut self, cluster_id: usize, start_node: ItemPointerData)
        requires
            old(self)@.has_room_for(cluster_id as int),
        ensures
            final(self)@ == old(self)@.with(cluster_id as int, start_node),
    {
        if cluster_id < self.num_clusters {
            self.nodes[cluster_id] =
            ClusterStartNode { cluster_id: cluster_id as u32, start_node };
        }
    }

    /// The start node of a cluster, where one was set.
    pub fn get_start_node(&self, cluster_id: usize) -> (r: Option<ItemPointerData>)
        requires
            self@.has_room_for(cluster_id as int),
        ensures
            r == self@.start_of(cluster_id as int),
    {
        if cluster_id < self.num_clusters {
            let start_node = self.nodes[cluster_id].start_node;
            if start_node.ip_posid != INVALID_OFFSET_NUMBER {
                Some(start_node)
            } else {
                None
            }
        } else {
            None
        }
    }

    /// Sets the start node of a cluster that has none, and says whether it did.
    pub fn try_set_start_node(&mut self, cluster_id: usize, start_node: ItemPointerData) -> (r:
        bool)
        requires
            old(self)@.has_room_for(cluster_id as int),
        ensures
            r == (cluster_id < old(self).num_clusters && old(self)@.start_of(cluster_id as int)
                is None),
            final(self)@ == if r {
                old(self)@.with(cluster_id as int, start_node)
            } else {
                old(self)@
            },
    {
        if cluster_id < self.num_clusters && self.get_start_node(cluster_id).is_none() {
            self.set_start_node(cluster_id, start_node);
            true
        } else {
            false
        }
    }

    /// Offers the first node that a worker has created as the start node of its cluster.
    /// Gives the node to start from: the one that is shared already, else the worker's own.
    pub fn claim_start_node(&mut self, cluster_id: usize, own: ItemPointer) -> (r: Option<
        ItemPointer,
    >)
        requires
            old(self)@.has_room_for(cluster_id as int),
        ensures
            final(self)@ == old(self)@.claimed(cluster_id as int, own),
            r == old(self)@.claim_result(cluster_id as int, own),
    {
        let before = self.get_start_node(cluster_id);
        let claimed = if before.is_none() {
            self.try_set_start_node(cluster_id, own.to_item_pointer_data())
        } else {
            false
        };
        let after = self.get_start_node(cluster_id);
        start_node_to_use(own, before, claimed, after)
    }
}

/// The node that a worker starts from, by what it saw in the shared array: `before` it tried
/// to put its own node there, whether the trial `claimed` the place, and `after` it.
pub fn start_node_to_use(
    own: ItemPointer,
    before: Option<ItemPointerData>,
    claimed: bool,
    after: Option<ItemPointerData>,
) -> (r: Option<ItemPointer>)
    ensures
        r == match before {
            Some(shared) => Some(ItemPointer::spec_from_data(shared)),
            None => if claimed {
                Some(own)
            } else {
                match after {
                    Some(shared) => Some(ItemPointer::spec_from_data(shared)),
                    None => None,
                }
            },
        },
{
    match before {
        Some(shared) => Some(ItemPointer::with_item_pointer_data(shared)),
        None => if claimed {
            Some(own)
        } else {
            match after {
                Some(shared) => Some(ItemPointer::with_item_pointer_data(shared)),
                None => None,
            }
        },
    }
}

/// The clusters that have a start node, each with its node, in the order of their numbers.
pub fn collect_cluster_start_nodes(nodes: &ClusterStartNodes) -> (r: Vec<(u32, ItemPointer)>)
    requires
        nodes.num_clusters <= MAX_CLUSTERS,
    ensures
        r@ == nodes@.collected(nodes.num_clusters as int),
{
    let mut r: Vec<(u32, ItemPointer)> = Vec::new();
    for i in 0..nodes.num_clusters
        invariant
            nodes.num_clusters <= MAX_CLUSTERS,
            r@ == nodes@.collected(i as int),
    {
        if let Some(start_node) = nodes.get_start_node(i) {
            r.push((i as u32, ItemPointer::with_item_pointer_data(start_node)));
        }
    }
    r
}

/// A new array has no start node for any cluster.
pub proof fn law_new_start_nodes_are_unset(nodes: StartNodesView, cluster_id: int)
    requires
        forall|i: int| 0 <= i < nodes.nodes.len() ==> (#[trigger] nodes.nodes[i]).start_node
            == ItemPointerData::spec_zeroed(),
        nodes.has_room_for(cluster_id),
    ensures
        nodes.start_of(cluster_id) is None,
{
}

/// What was set is read back, and no other cluster is touched. An identifier without a line
/// pointer counts as none.
pub proof fn law_set_then_get_start_node(
    nodes: StartNodesView,
    cluster_id: int,
    node: ItemPointerData,
    other: int,
)
    requires
        0 <= cluster_id < nodes.num_clusters,
        nodes.has_room_for(cluster_id),
        nodes.has_room_for(other),
        other != cluster_id,
    ensures
        nodes.with(cluster_id, node).start_of(cluster_id) == if node.ip_posid
            != INVALID_OFFSET_NUMBER {
            Some(node)
        } else {
            None
        },
        nodes.with(cluster_id, node).start_of(other) == nodes.start_of(other),
{
}

/// Whichever worker offers its node first, a later one gets the same start node and changes
/// nothing: all workers of a cluster start from one node.
pub proof fn law_workers_share_one_start_node(
    nodes: StartNodesView,
    cluster_id: int,
    first: ItemPointer,
    second: ItemPointer,
)
    requires
        0 <= cluster_id < nodes.num_clusters,
        nodes.has_room_for(cluster_id),
        first.offset != INVALID_OFFSET_NUMBER,
    ensures
        nodes.claim_result(cluster_id, first) is Some,
        nodes.claimed(cluster_id, first).claim_result(cluster_id, second) == nodes.claim_result(
            cluster_id,
            first,
        ),
        nodes.claimed(cluster_id, first).claimed(cluster_id, second) == nodes.claimed(
            cluster_id,
            first,
        ),
{
}

/// The first worker that offers a node starts from its own, which becomes the start node of the
/// cluster; where there is a start node already, the worker starts from that. For a cluster that
/// is not known nothing is kept.
pub proof fn law_first_offered_node_is_the_start(
    nodes: StartNodesView,
    cluster_id: int,
    own: ItemPointer,
)
    requires
        0 <= cluster_id,
        nodes.has_room_for(cluster_id),
        own.offset != 0,
    ensures
        ({
            let known = cluster_id < nodes.num_clusters;
            let there = nodes.nodes[cluster_id].start_node;
            let after = nodes.claimed(cluster_id, own);
            let used = nodes.claim_result(cluster_id, own);
            &&& known && there.ip_posid == 0 ==> {
                &&& used == Some(own)
                &&& after.nodes[cluster_id].start_node == own.spec_to_data()
                &&& after.nodes[cluster_id].cluster_id == cluster_id as u32
                &&& after.num_clusters == nodes.num_clusters
            }
            &&& known && there.ip_posid != 0 ==> {
                &&& used matches Some(pointer) && pointer.spec_to_data() == there
                &&& after == nodes
            }
            &&& !known ==> used == None::<ItemPointer> && after == nodes
            &&& nodes.start_of(cluster_id) is Some <==> known && there.ip_posid != 0
        }),
{
    if cluster_id < nodes.num_clusters {
        law_item_pointer_round_trip(own, nodes.nodes[cluster_id].start_node);
    }
}

/// The start nodes are collected in the order of the clusters' numbers, one for each cluster.
pub proof fn law_collected_in_order(nodes: StartNodesView, count: int)
    requires
        0 <= count <= 0xFFFF_FFFF,
    ensures
        forall|i: int|
            0 <= i < nodes.collected(count).len() ==> (#[trigger] nodes.collected(count)[i]).0
                < count,
        forall|i: int, j: int|
            0 <= i < j < nodes.collected(count).len() ==> (#[trigger] nodes.collected(count)[i]).0
                < (#[trigger] nodes.collected(count)[j]).0,
    decreases count,
{
    if count > 0 {
        law_collected_in_order(nodes, count - 1);
        let shorter = nodes.collected(count - 1);
        let all = nodes.collected(count);
        assert(forall|i: int| 0 <= i < shorter.len() ==> #[trigger] all[i] == shorter[i]);
    }
}

/// Of each cluster that has a start node, exactly that node is collected; of the others,
/// nothing.
pub proof fn law_collected_start_nodes(nodes: StartNodesView, count: int, entry: (u32, ItemPointer))
    requires
        0 <= count <= 0xFFFF_FFFF,
    ensures
        nodes.collected(count).contains(entry) <==> {
            &&& entry.0 < count
            &&& nodes.start_of(entry.0 as int) is Some
            &&& entry.1 == ItemPointer::spec_from_data(nodes.start_of(entry.0 as int)->0)
        },
    decreases count,
{
    if count > 0 {
        law_collected_start_nodes(nodes, count - 1, entry);
        let shorter = nodes.collected(count - 1);
        if let Some(node) = nodes.start_of(count - 1) {
            let last = ((count - 1) as u32, ItemPointer::spec_from_data(node));
            assert(nodes.collected(count) == shorter.push(last));
            if shorter.contains(entry) {
                let i = choose|i: int| 0 <= i < shorter.len() && shorter[i] == entry;
                assert(nodes.collected(count)[i] == entry);
            }
            assert(nodes.collected(count)[shorter.len() as int] == last);
        }
    }
}

} // verus!
