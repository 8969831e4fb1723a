use raft::types::ClusterConfig;
use raft::types::ConfigError;
use raft::types::Membership;
use raft::types::NodeId;
use raft::types::SocketAddr;

fn addr(port: u16) -> SocketAddr {
    SocketAddr::V4 { ip: 0x7f00_0001, port }
}

fn single_member_config() -> ClusterConfig {
    ClusterConfig::new(vec![(NodeId::from(1), addr(9001))]).unwrap()
}

#[test]
fn config_new_rejects_empty_members() {
    assert_eq!(ClusterConfig::new(vec![]), Err(ConfigError::Empty));
}

#[test]
fn config_new_accepts_non_empty_members() {
    let members = vec![(NodeId::from(1), addr(9001))];
    assert!(ClusterConfig::new(members).is_ok());
}

#[test]
fn config_with_member_adds_a_new_member() {
    let config = single_member_config();
    let grown = config.with_member(NodeId::from(2), addr(9002));

    assert_eq!(grown.size(), 2);
    assert!(grown.contains(NodeId::from(2)));
}

#[test]
fn config_without_member_removes_an_existing_member() {
    let config = single_member_config().with_member(NodeId::from(2), addr(9002));
    let shrunk = config.without_member(NodeId::from(2)).unwrap();

    assert_eq!(shrunk.size(), 1);
    assert!(!shrunk.contains(NodeId::from(2)));
}

/// The invariant the type exists to enforce: an empty configuration would
/// make a majority of zero voters representable, so it must be rejected.
#[test]
fn config_without_member_rejects_removing_the_last_member() {
    let config = single_member_config();
    assert_eq!(
        config.without_member(NodeId::from(1)),
        Err(ConfigError::Empty)
    );
}

#[test]
fn repeated_member_takes_its_last_address() {
    let config = ClusterConfig::new(vec![
        (NodeId::from(2), addr(1)),
        (NodeId::from(1), addr(2)),
        (NodeId::from(2), addr(3)),
    ])
    .unwrap();
    assert_eq!(
        config.members(),
        vec![(NodeId::from(1), addr(2)), (NodeId::from(2), addr(3))]
    );
}

#[test]
fn peers_are_every_other_member_in_order() {
    let config = single_member_config()
        .with_member(NodeId::from(9), addr(9009))
        .with_member(NodeId::from(4), addr(9004));
    assert_eq!(config.peer_ids(NodeId::from(1)), vec![NodeId::from(4), NodeId::from(9)]);
    assert_eq!(
        config.peer_ids(NodeId::from(7)),
        vec![NodeId::from(1), NodeId::from(4), NodeId::from(9)]
    );
}

#[test]
fn membership_is_named() {
    let config = single_member_config();
    assert_eq!(config.membership_of(NodeId::from(1)), Membership::Member);
    assert_eq!(config.membership_of(NodeId::from(2)), Membership::NonMember);
}

#[test]
fn same_members_compares_addresses_too() {
    let config = single_member_config();
    assert!(config.same_members(&config.clone()));
    assert!(!config.same_members(&config.with_member(NodeId::from(1), addr(1))));
    assert!(!config.same_members(&config.with_member(NodeId::from(2), addr(9001))));
}

#[test]
fn empty_config_error_says_why() {
    assert_eq!(
        ConfigError::Empty.display(),
        "cluster config must have at least one member"
    );
}
