use vectorscale::item_pointer::{ItemPointer, ItemPointerData};
use vectorscale::start_nodes::{
    collect_cluster_start_nodes, start_node_to_use, ClusterStartNodes, MAX_CLUSTERS,
};

fn data(block: u32, offset: u16) -> ItemPointerData {
    ItemPointer::new(block, offset).to_item_pointer_data()
}

#[test]
fn pointers_survive_conversion() {
    for (block, offset) in [(0, 1), (1, 0), (0x1234_5678, 9), (u32::MAX, u16::MAX)] {
        let pointer = ItemPointer::new(block, offset);
        let raw = pointer.to_item_pointer_data();
        assert_eq!(raw.block_number(), block);
        assert_eq!(raw.ip_posid, offset);
        assert_eq!(ItemPointer::with_item_pointer_data(raw), pointer);
    }
    let raw = data(0x1234_5678, 9);
    assert_eq!(raw.bi_hi, 0x1234);
    assert_eq!(raw.bi_lo, 0x5678);
}

#[test]
fn pointers_at_no_row_are_invalid() {
    assert!(data(0, 1).is_valid());
    assert!(!data(0, 0).is_valid());
    assert!(!data(u32::MAX, 1).is_valid());
    assert!(!ItemPointerData::zeroed().is_valid());
}

#[test]
fn different_pointers_have_different_keys() {
    let all = [
        ItemPointer::new(0, 1),
        ItemPointer::new(1, 0),
        ItemPointer::new(1, 1),
        ItemPointer::new(65536, 0),
        ItemPointer::new(u32::MAX, u16::MAX),
    ];
    for a in all {
        for b in all {
            assert_eq!(a.key() == b.key(), a == b);
        }
    }
}

#[test]
fn start_nodes_are_unset_at_first() {
    let nodes = ClusterStartNodes::new(3);
    for c in 0..5 {
        assert_eq!(nodes.get_start_node(c), None);
    }
}

#[test]
fn start_nodes_are_read_back() {
    let mut nodes = ClusterStartNodes::new(3);
    nodes.set_start_node(1, data(7, 2));
    assert_eq!(nodes.get_start_node(1), Some(data(7, 2)));
    assert_eq!(nodes.get_start_node(0), None);
    assert_eq!(nodes.get_start_node(2), None);
    // A cluster beyond the last one is ignored.
    nodes.set_start_node(3, data(9, 9));
    assert_eq!(nodes.get_start_node(3), None);
}

#[test]
fn first_worker_sets_the_start_node() {
    let mut nodes = ClusterStartNodes::new(2);
    assert!(nodes.try_set_start_node(0, data(4, 4)));
    assert!(!nodes.try_set_start_node(0, data(5, 5)));
    assert_eq!(nodes.get_start_node(0), Some(data(4, 4)));
    let own = ItemPointer::new(6, 6);
    assert_eq!(nodes.claim_start_node(0, own), Some(ItemPointer::new(4, 4)));
    assert_eq!(nodes.claim_start_node(1, own), Some(own));
    assert_eq!(nodes.get_start_node(1), Some(data(6, 6)));
}

#[test]
fn workers_use_the_common_start_node() {
    let own = ItemPointer::new(1, 1);
    let other = data(2, 2);
    assert_eq!(start_node_to_use(own, Some(other), false, None), Some(ItemPointer::new(2, 2)));
    assert_eq!(start_node_to_use(own, None, true, None), Some(own));
    assert_eq!(start_node_to_use(own, None, false, Some(other)), Some(ItemPointer::new(2, 2)));
    assert_eq!(start_node_to_use(own, None, false, None), None);
}

#[test]
fn start_nodes_are_collected_in_order() {
    let mut nodes = ClusterStartNodes::new(4);
    nodes.set_start_node(3, data(30, 3));
    nodes.set_start_node(1, data(10, 1));
    let all = collect_cluster_start_nodes(&nodes);
    assert_eq!(all, vec![(1, ItemPointer::new(10, 1)), (3, ItemPointer::new(30, 3))]);
    assert_eq!(MAX_CLUSTERS, 64);
}
