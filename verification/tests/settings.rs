use vectorscale::settings::{
    flush_interval_name, initial_start_nodes_count, int_settings, IntSetting, SettingContext,
};

#[test]
fn settings_have_their_ranges() {
    let expected = [
        ("diskann.query_search_list_size", 100, 1, 70000, SettingContext::Userset),
        ("diskann.query_rescore", 50, 0, 1000, SettingContext::Userset),
        ("diskann.parallel_initial_start_nodes_count", 1024, 1, 10000, SettingContext::Suset),
        ("diskann.min_vectors_for_parallel_build", 65536, 1, i32::MAX, SettingContext::Suset),
        ("diskann.force_parallel_workers", -1, -1, 1024, SettingContext::Suset),
        ("diskann.num_clusters", 0, 0, 1024, SettingContext::Userset),
        ("diskann.clustering_max_sample_size", 100000, 0, i32::MAX, SettingContext::Userset),
        ("diskann.clustering_sample_threshold", 1000000, 0, i32::MAX, SettingContext::Userset),
    ];
    let all = int_settings();
    assert_eq!(all.len(), expected.len());
    for (setting, (name, initial, min, max, context)) in all.iter().zip(expected) {
        assert_eq!(setting.name(), name);
        let range = setting.range();
        assert_eq!(range.initial, initial);
        assert_eq!(range.min, min);
        assert_eq!(range.max, max);
        assert_eq!(range.context, context);
        assert!(range.min <= range.initial && range.initial <= range.max);
    }
    assert_eq!(all[1], IntSetting::QueryRescore);
    assert_eq!(flush_interval_name(), "diskann.parallel_flush_interval");
}

#[test]
fn start_node_count_is_the_setting() {
    assert_eq!(initial_start_nodes_count(1024), 1024);
    assert_eq!(initial_start_nodes_count(1), 1);
}
