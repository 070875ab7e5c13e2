use std::collections::BTreeMap;
use wgman::manager::Manager;
use wgman::net::{Address, Endpoint, IpRange};
use wgman::peers::{copy_ranges, same_ranges, Peer, PeerTable};
use wgman::reconcile::{actions_of, plan, reconcile, Action, ChangeSet, InterfaceState};
use wgman::wg::observed_peers;

fn host(last: u8) -> Vec<IpRange> {
    vec![IpRange::host(Address::from_octets(10, 33, 7, last))]
}

fn peer(key: &str, last: u8) -> Peer {
    Peer { public_key: key.to_string(), allowed_ips: host(last) }
}

fn table(peers: &[Peer]) -> PeerTable {
    let mut table = PeerTable::new();
    for peer in peers {
        table.insert(peer.clone());
    }
    table
}

fn state(private_key: &str, listen_port: u16, peers: &[Peer]) -> InterfaceState {
    InterfaceState { private_key: private_key.to_string(), listen_port, peers: table(peers) }
}

struct Interface {
    private_key: String,
    listen_port: u16,
    peers: BTreeMap<String, Vec<IpRange>>,
}

fn interface_of(state: &InterfaceState) -> Interface {
    let mut peers = BTreeMap::new();
    for at in 0..state.peers.len() {
        let peer = state.peers.get(at);
        peers.insert(peer.public_key.clone(), peer.allowed_ips.clone());
    }
    Interface { private_key: state.private_key.clone(), listen_port: state.listen_port, peers }
}

fn carry_out(interface: &mut Interface, action: &Action) {
    match action {
        Action::SetPrivateKey(key) => interface.private_key = key.clone(),
        Action::SetListenPort(port) => interface.listen_port = *port,
        Action::RemovePeer(key) => {
            interface.peers.remove(key);
        }
        Action::AddPeer(peer) | Action::UpdatePeer(peer) => {
            interface.peers.insert(peer.public_key.clone(), peer.allowed_ips.clone());
        }
    }
}

fn observe(interface: &Interface) -> InterfaceState {
    let mut peers = PeerTable::new();
    for (key, ranges) in interface.peers.iter().rev() {
        peers.insert(Peer { public_key: key.clone(), allowed_ips: ranges.clone() });
    }
    InterfaceState {
        private_key: interface.private_key.clone(),
        listen_port: interface.listen_port,
        peers,
    }
}

fn same_interface(left: &Interface, right: &Interface) -> bool {
    left.private_key == right.private_key
        && left.listen_port == right.listen_port
        && left.peers == right.peers
}

#[test]
fn peer_table_insert_replaces_in_place() {
    let mut peers = PeerTable::new();
    assert_eq!(peers.len(), 0);
    peers.insert(peer("A", 2));
    peers.insert(peer("B", 3));
    peers.insert(peer("A", 9));
    assert_eq!(peers.len(), 2);
    assert_eq!(*peers.get(0), peer("A", 9));
    assert_eq!(*peers.get(1), peer("B", 3));
    assert_eq!(peers.find(&"B".to_string()), Some(1));
    assert_eq!(peers.find(&"A".to_string()), Some(0));
    assert_eq!(peers.find(&"C".to_string()), None);
}

#[test]
fn ranges_copy_and_compare() {
    let ranges = vec![IpRange::host(Address::from_octets(1, 2, 3, 4)), IpRange::host(Address::from_octets(5, 6, 7, 8))];
    assert_eq!(copy_ranges(&ranges), ranges);
    assert!(same_ranges(&ranges, &copy_ranges(&ranges)));
    assert!(!same_ranges(&ranges, &host(2)));
    assert!(!same_ranges(&ranges, &vec![ranges[1], ranges[0]]));
    assert!(same_ranges(&Vec::new(), &Vec::new()));
    assert_eq!(peer("A", 2).duplicate(), peer("A", 2));
}

#[test]
fn plan_sorts_the_peers_into_three_groups() {
    let desired = table(&[peer("keep", 2), peer("add1", 3), peer("change", 4), peer("add2", 5)]);
    let observed = table(&[peer("stale1", 9), peer("change", 40), peer("keep", 2), peer("stale2", 8)]);
    let changes = plan(&desired, &observed);
    assert_eq!(changes.to_add, vec![peer("add1", 3), peer("add2", 5)]);
    assert_eq!(changes.to_remove, vec!["stale1", "stale2"]);
    assert_eq!(changes.to_update, vec![peer("change", 4)]);
    assert!(!changes.is_empty());
}

#[test]
fn plan_between_equal_tables_is_empty() {
    let desired = table(&[peer("A", 2), peer("B", 3)]);
    let observed = table(&[peer("B", 3), peer("A", 2)]);
    let changes = plan(&desired, &observed);
    assert!(changes.is_empty());
    assert_eq!(changes, ChangeSet { to_add: vec![], to_remove: vec![], to_update: vec![] });
    assert!(plan(&PeerTable::new(), &PeerTable::new()).is_empty());
}

#[test]
fn plan_from_nothing_adds_everything() {
    let desired = table(&[peer("A", 2), peer("B", 3)]);
    let changes = plan(&desired, &PeerTable::new());
    assert_eq!(changes.to_add, vec![peer("A", 2), peer("B", 3)]);
    assert!(changes.to_remove.is_empty());
    assert!(changes.to_update.is_empty());
}

#[test]
fn plan_to_nothing_removes_everything() {
    let observed = table(&[peer("A", 2), peer("B", 3)]);
    let changes = plan(&PeerTable::new(), &observed);
    assert!(changes.to_add.is_empty());
    assert_eq!(changes.to_remove, vec!["A", "B"]);
    assert!(changes.to_update.is_empty());
}

#[test]
fn plan_sees_a_change_in_the_number_of_ranges() {
    let desired = table(&[peer("A", 2)]);
    let mut wide = peer("A", 2);
    wide.allowed_ips.push(IpRange::host(Address::from_octets(10, 33, 7, 3)));
    let changes = plan(&desired, &table(&[wide]));
    assert_eq!(changes.to_update, vec![peer("A", 2)]);
    let none = Peer { public_key: "A".to_string(), allowed_ips: vec![] };
    let changes = plan(&desired, &table(&[none]));
    assert_eq!(changes.to_update, vec![peer("A", 2)]);
}

#[test]
fn actions_of_a_change_set_are_removals_additions_updates() {
    let changes = ChangeSet {
        to_add: vec![peer("add", 3)],
        to_remove: vec!["stale".to_string()],
        to_update: vec![peer("change", 4)],
    };
    assert_eq!(
        actions_of(changes),
        vec![
            Action::RemovePeer("stale".to_string()),
            Action::AddPeer(peer("add", 3)),
            Action::UpdatePeer(peer("change", 4)),
        ]
    );
}

#[test]
fn reconcile_sets_the_identity_first() {
    let want = state("new-key", 51900, &[peer("A", 2)]);
    let seen = state("old-key", 1234, &[peer("B", 3)]);
    assert_eq!(
        reconcile(&want, &seen),
        vec![
            Action::SetPrivateKey("new-key".to_string()),
            Action::SetListenPort(51900),
            Action::RemovePeer("B".to_string()),
            Action::AddPeer(peer("A", 2)),
        ]
    );
    let seen = state("new-key", 1234, &[peer("A", 2)]);
    assert_eq!(reconcile(&want, &seen), vec![Action::SetListenPort(51900)]);
    let seen = state("old-key", 51900, &[peer("A", 2)]);
    assert_eq!(reconcile(&want, &seen), vec![Action::SetPrivateKey("new-key".to_string())]);
}

#[test]
fn reconcile_converges_in_any_order() {
    let want = state("key", 51900, &[peer("keep", 2), peer("add1", 3), peer("change", 4), peer("add2", 5)]);
    let seen = state("old", 1, &[peer("stale1", 9), peer("change", 40), peer("keep", 2), peer("stale2", 8)]);
    let actions = reconcile(&want, &seen);
    assert_eq!(actions.len(), 7);
    let goal = interface_of(&want);
    let mut forward = interface_of(&seen);
    for action in actions.iter() {
        carry_out(&mut forward, action);
    }
    assert!(same_interface(&forward, &goal));
    let mut backward = interface_of(&seen);
    for action in actions.iter().rev() {
        carry_out(&mut backward, action);
    }
    assert!(same_interface(&backward, &goal));
    let mut rotated = interface_of(&seen);
    for at in 0..actions.len() {
        carry_out(&mut rotated, &actions[(at * 3 + 2) % actions.len()]);
    }
    assert!(same_interface(&rotated, &goal));
}

#[test]
fn reconcile_twice_finds_nothing_to_do() {
    let want = state("key", 51900, &[peer("keep", 2), peer("add", 3), peer("change", 4)]);
    let seen = state("old", 1, &[peer("stale", 9), peer("change", 40), peer("keep", 2)]);
    let mut interface = interface_of(&seen);
    for action in reconcile(&want, &seen).iter() {
        carry_out(&mut interface, action);
    }
    let again = observe(&interface);
    assert!(reconcile(&want, &again).is_empty());
    assert!(plan(&want.peers, &again.peers).is_empty());
}

#[test]
fn reconcile_of_a_settled_interface_is_empty() {
    let want = state("key", 51900, &[peer("A", 2), peer("B", 3)]);
    let seen = state("key", 51900, &[peer("B", 3), peer("A", 2)]);
    assert!(reconcile(&want, &seen).is_empty());
}

fn server_with_clients() -> Manager {
    let mut manager = Manager::new(
        Endpoint { address: Address::from_octets(127, 0, 0, 1), port: 51900 },
        IpRange::parse("10.33.7.0/24").unwrap(),
        "wg0".to_string(),
        "SERVER-PRIVATE=".to_string(),
        "SERVER-PUBLIC=".to_string(),
    );
    manager
        .new_client("alice".to_string(), Address::from_octets(10, 33, 7, 2), "a".to_string(), "ALICE=".to_string())
        .unwrap();
    manager
        .new_client("bob".to_string(), Address::from_octets(10, 33, 7, 3), "b".to_string(), "BOB=".to_string())
        .unwrap();
    manager
}

#[test]
fn desired_state_of_a_configuration() {
    let want = server_with_clients().desired();
    assert_eq!(want, state("SERVER-PRIVATE=", 51900, &[peer("ALICE=", 2), peer("BOB=", 3)]));
}

#[test]
fn desired_state_lets_the_later_client_decide_a_shared_key() {
    let mut manager = server_with_clients();
    manager
        .new_client("carol".to_string(), Address::from_octets(10, 33, 7, 4), "c".to_string(), "ALICE=".to_string())
        .unwrap();
    let want = manager.desired();
    assert_eq!(want.peers.len(), 2);
    assert_eq!(*want.peers.get(0), peer("ALICE=", 4));
    assert_eq!(*want.peers.get(1), peer("BOB=", 3));
}

#[test]
fn commit_plans_from_what_the_interface_shows() {
    let manager = server_with_clients();
    let rows = vec![
        vec!["BOB=".to_string(), "10.33.7.30/32".to_string()],
        vec!["MALLORY=".to_string(), "10.33.7.66/32".to_string()],
    ];
    let observed = InterfaceState {
        private_key: "SERVER-PRIVATE=".to_string(),
        listen_port: 51820,
        peers: observed_peers(&rows).unwrap(),
    };
    assert_eq!(
        manager.commit(&observed),
        vec![
            Action::SetListenPort(51900),
            Action::RemovePeer("MALLORY=".to_string()),
            Action::AddPeer(peer("ALICE=", 2)),
            Action::UpdatePeer(peer("BOB=", 3)),
        ]
    );
}

#[test]
fn commit_on_a_settled_interface_does_nothing() {
    let manager = server_with_clients();
    let observed = manager.desired();
    assert!(manager.commit(&observed).is_empty());
}

#[test]
fn actions_say_what_they_do() {
    assert_eq!(Action::SetPrivateKey("KEY=".to_string()).describe(), "set private key");
    assert_eq!(Action::SetListenPort(51900).describe(), "set listen port 51900");
    assert_eq!(Action::RemovePeer("OLD=".to_string()).describe(), "remove peer OLD=");
    assert_eq!(Action::AddPeer(peer("NEW=", 2)).describe(), "add peer NEW=");
    assert_eq!(Action::UpdatePeer(peer("CHG=", 3)).describe(), "update peer CHG=");
}

#[test]
fn failed_actions_are_reported_with_key_and_operation() {
    assert_eq!(
        Action::RemovePeer("OLD=".to_string()).failure(wgman::wg::WgError::PermissionDenied),
        "failed to remove peer OLD=: permission denied"
    );
    assert_eq!(
        Action::AddPeer(peer("NEW=", 2)).failure(wgman::wg::WgError::InterfaceUnavailable),
        "failed to add peer NEW=: interface unavailable"
    );
    assert_eq!(
        Action::SetListenPort(7).failure(wgman::wg::WgError::InterfaceUnavailable),
        "failed to set listen port 7: interface unavailable"
    );
}

#[test]
fn commit_hands_on_ranges_that_can_be_written() {
    let manager = server_with_clients();
    for action in manager.commit(&state("other", 1, &[])) {
        if let Action::AddPeer(peer) | Action::UpdatePeer(peer) = action {
            assert!(wgman::net::ranges_well_formed(&peer.allowed_ips));
        }
    }
}
