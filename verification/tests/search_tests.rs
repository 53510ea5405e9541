use kafka_view::search::{
    str_contains, search_mode, matches_name, SearchMode, GroupQuery, build_group_list,
    filter_topics,
};
use kafka_view::metadata::{Group, GroupMember, Partition};

#[test]
fn substring_search() {
    assert!(str_contains("payments-consumer", "consumer"));
    assert!(str_contains("abc", ""));
    assert!(str_contains("abc", "abc"));
    assert!(!str_contains("abc", "abcd"));
    assert!(!str_contains("payments", "consumer"));
}

#[test]
fn short_searches_match_nothing() {
    assert!(matches!(search_mode("ab", false), SearchMode::Nothing));
    assert!(matches!(search_mode("abc", false), SearchMode::Contains(_)));
    assert!(matches!(search_mode("a", true), SearchMode::Pattern(_)));
    let nothing = search_mode("ab", false);
    assert!(!matches_name(&nothing, "ab"));
}

#[test]
fn regex_search_follows_the_engine() {
    let mode = search_mode("^pay.*ts$", true);
    assert!(matches_name(&mode, "payments"));
    assert!(!matches_name(&mode, "payments-consumer"));
    // An invalid pattern matches nothing instead of failing the request.
    let broken = search_mode("foo(bar", true);
    assert!(!matches_name(&broken, "foobar"));
}

fn group(name: &str, state: &str, members: usize) -> Group {
    let mut ms = Vec::new();
    for i in 0..members {
        ms.push(GroupMember {
            id: format!("m{}", i),
            client_id: "c".to_string(),
            client_host: "/h".to_string(),
        });
    }
    Group { name: name.to_string(), state: state.to_string(), members: ms }
}

#[test]
fn group_list_merges_groups_and_offset_counts() {
    let groups_items = vec![
        (("c1".to_string(), "g1".to_string()), group("g1", "Stable", 2)),
        (("c2".to_string(), "g2".to_string()), group("g2", "Stable", 1)),
    ];
    let offsets_keys = vec![
        ("c1".to_string(), "g1".to_string(), "t1".to_string()),
        ("c1".to_string(), "g1".to_string(), "t2".to_string()),
        ("c1".to_string(), "g3".to_string(), "t1".to_string()),
        ("c2".to_string(), "g2".to_string(), "t9".to_string()),
    ];
    let q = GroupQuery::Cluster("c1".to_string());
    let lines = build_group_list(&groups_items, &offsets_keys, &q);
    assert_eq!(lines.len(), 2);
    assert_eq!(lines[0].0, ("c1".to_string(), "g1".to_string()));
    assert_eq!(lines[0].1.state, "Stable");
    assert_eq!(lines[0].1.members, 2);
    assert_eq!(lines[0].1.stored_offsets, 2);
    // g3 exists only in the offsets cache.
    assert_eq!(lines[1].0, ("c1".to_string(), "g3".to_string()));
    assert_eq!(lines[1].1.state, "Offsets only");
    assert_eq!(lines[1].1.members, 0);
    assert_eq!(lines[1].1.stored_offsets, 1);
}

#[test]
fn group_list_by_name_search() {
    let groups_items = vec![
        (("c1".to_string(), "payments".to_string()), group("payments", "Stable", 1)),
        (("c1".to_string(), "billing".to_string()), group("billing", "Empty", 0)),
    ];
    let q = GroupQuery::Name(search_mode("pay", false));
    let lines = build_group_list(&groups_items, &Vec::new(), &q);
    assert_eq!(lines.len(), 1);
    assert_eq!(lines[0].0 .1, "payments");
}

fn partition(id: i32) -> Partition {
    Partition { id, leader: 1, replicas: vec![1], isr: vec![1], error: None }
}

#[test]
fn topics_filtered_by_cluster_and_name() {
    let items = vec![
        (("c1".to_string(), "orders".to_string()), vec![partition(0)]),
        (("c2".to_string(), "orders".to_string()), vec![partition(0), partition(1)]),
        (("c1".to_string(), "payments".to_string()), vec![partition(0)]),
    ];
    let by_cluster = filter_topics(&items, &GroupQuery::Cluster("c1".to_string()));
    assert_eq!(by_cluster.len(), 2);
    assert_eq!(by_cluster[0].0 .1, "orders");
    assert_eq!(by_cluster[1].0 .1, "payments");
    let by_name = filter_topics(&items, &GroupQuery::Name(search_mode("ord", false)));
    assert_eq!(by_name.len(), 2);
    assert_eq!(by_name[0].0 .0, "c1");
    assert_eq!(by_name[1].0 .0, "c2");
}
