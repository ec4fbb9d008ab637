use wasm_storage::nodes::kvs::gossip::{gossip_endpoints, GossipEntity};
use wasm_storage::nodes::kvs::KvsNodeInfo;

#[test]
fn endpoints_follow_membership() {
    let members = vec![
        "192.168.10.121:11000".to_string(),
        "192.168.10.122:11000".to_string(),
    ];
    assert_eq!(
        gossip_endpoints(&members),
        vec![
            "http://192.168.10.121:11000".to_string(),
            "http://192.168.10.122:11000".to_string()
        ]
    );
}

#[test]
fn no_members_no_endpoints() {
    assert!(gossip_endpoints(&Vec::new()).is_empty());
}

#[test]
fn gossip_entity_is_constructible() {
    let _entity = GossipEntity {};
}

#[test]
fn node_info_getters_return_what_it_was_made_with() {
    let members = vec!["192.168.10.121:11000".to_string(), "192.168.10.122:11000".to_string()];
    let info = KvsNodeInfo::new("192.168.10.120:11000".to_string(), members.clone());
    assert_eq!(info.get_node_id(), "192.168.10.120:11000".to_string());
    assert_eq!(info.get_membership(), members);
    assert_eq!(info.get_membership(), members);
    let alone = KvsNodeInfo::new(String::new(), Vec::new());
    assert_eq!(alone.get_node_id(), String::new());
    assert!(alone.get_membership().is_empty());
}
