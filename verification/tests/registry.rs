use wgman::manager::{Client, ConfigRecord, Manager, ManagerError};
use wgman::net::{Address, Endpoint, IpRange};
use wgman::utils::cli_table;

fn server() -> Manager {
    Manager::new(
        Endpoint { address: Address::from_octets(127, 0, 0, 1), port: 51900 },
        IpRange::parse("10.33.7.0/24").unwrap(),
        "wg0".to_string(),
        "SERVER-PRIVATE=".to_string(),
        "SERVER-PUBLIC=".to_string(),
    )
}

fn ip(text: [u8; 4]) -> Address {
    Address::from_octets(text[0], text[1], text[2], text[3])
}

#[test]
fn new_server_has_no_clients() {
    let manager = server();
    assert!(manager.clients().is_empty());
    assert_eq!(manager.interface_name(), "wg0");
    assert_eq!(manager.private_key(), "SERVER-PRIVATE=");
    assert_eq!(manager.public_key(), "SERVER-PUBLIC=");
    assert_eq!(manager.endpoint(), Endpoint { address: ip([127, 0, 0, 1]), port: 51900 });
    assert_eq!(manager.ip_range(), IpRange { address: ip([10, 33, 7, 0]), prefix_len: 24 });
    assert_eq!(manager.wg().binary_path(), "wg");
}

#[test]
fn scenario_alice_joins_once() {
    let mut manager = server();
    {
        let (client, private_key) = manager
            .new_client("alice".to_string(), ip([10, 33, 7, 2]), "ALICE-PRIVATE=".to_string(), "ALICE-PUBLIC=".to_string())
            .unwrap();
        assert_eq!(client.name(), "alice");
        assert_eq!(client.public_key(), "ALICE-PUBLIC=");
        assert_eq!(client.ip(), ip([10, 33, 7, 2]));
        assert_eq!(private_key, "ALICE-PRIVATE=");
    }
    {
        let clients = manager.clients();
        assert_eq!(clients.len(), 1);
        assert_eq!(clients[0].name(), "alice");
        assert_eq!(clients[0].public_key(), "ALICE-PUBLIC=");
        let mut table: Vec<Vec<&str>> = vec![vec!["Name", "Pubkey"]];
        for client in &clients {
            table.push(vec![client.name().as_str(), client.public_key().as_str()]);
        }
        assert_eq!(cli_table(table), vec![" Name        Pubkey", "alice ALICE-PUBLIC="]);
    }
    let before = manager.clone();
    let again = manager
        .new_client("alice".to_string(), ip([10, 33, 7, 3]), "OTHER-PRIVATE=".to_string(), "OTHER-PUBLIC=".to_string())
        .map(|(client, key)| (client.clone(), key));
    assert_eq!(again, Err(ManagerError::ClientNameExistsError("alice".to_string())));
    assert_eq!(manager, before);
    assert_eq!(manager.clients().len(), 1);
    assert!(manager.clients().iter().all(|client| client.ip() != ip([10, 33, 7, 3])));
    assert_eq!(manager.check_new_client(&"bob".to_string(), ip([10, 33, 7, 3])), Ok(()));
}

#[test]
fn duplicate_name_wins_over_every_other_refusal() {
    let mut manager = server();
    manager.new_client("alice".to_string(), ip([10, 33, 7, 2]), "k".to_string(), "K".to_string()).unwrap();
    for address in [ip([10, 33, 7, 2]), ip([10, 33, 7, 0]), ip([192, 168, 0, 1]), ip([127, 0, 0, 1])] {
        assert_eq!(
            manager.check_new_client(&"alice".to_string(), address),
            Err(ManagerError::ClientNameExistsError("alice".to_string()))
        );
    }
}

#[test]
fn address_outside_the_pool_is_refused() {
    let mut manager = server();
    let before = manager.clone();
    for address in [ip([10, 33, 8, 2]), ip([10, 33, 6, 255]), ip([192, 168, 0, 1]), ip([127, 0, 0, 1])] {
        let result = manager
            .new_client("bob".to_string(), address, "k".to_string(), "K".to_string())
            .map(|(client, key)| (client.clone(), key));
        assert_eq!(result, Err(ManagerError::AddressOutOfRangeError(address)));
        assert_eq!(manager, before);
    }
}

#[test]
fn address_of_a_client_is_refused() {
    let mut manager = server();
    manager.new_client("alice".to_string(), ip([10, 33, 7, 2]), "k".to_string(), "K".to_string()).unwrap();
    let before = manager.clone();
    let result = manager
        .new_client("bob".to_string(), ip([10, 33, 7, 2]), "k2".to_string(), "K2".to_string())
        .map(|(client, key)| (client.clone(), key));
    assert_eq!(result, Err(ManagerError::AddressInUseError(ip([10, 33, 7, 2]))));
    assert_eq!(manager, before);
}

#[test]
fn address_of_the_server_is_refused() {
    let manager = server();
    assert_eq!(
        manager.check_new_client(&"bob".to_string(), ip([10, 33, 7, 0])),
        Err(ManagerError::AddressInUseError(ip([10, 33, 7, 0])))
    );
    let inside = Manager::new(
        Endpoint { address: ip([10, 33, 7, 1]), port: 51900 },
        IpRange::parse("10.33.7.254/24").unwrap(),
        "wg0".to_string(),
        "p".to_string(),
        "P".to_string(),
    );
    assert_eq!(
        inside.check_new_client(&"bob".to_string(), ip([10, 33, 7, 1])),
        Err(ManagerError::AddressInUseError(ip([10, 33, 7, 1])))
    );
    assert_eq!(
        inside.check_new_client(&"bob".to_string(), ip([10, 33, 7, 254])),
        Err(ManagerError::AddressInUseError(ip([10, 33, 7, 254])))
    );
    assert_eq!(inside.check_new_client(&"bob".to_string(), ip([10, 33, 7, 0])), Ok(()));
}

#[test]
fn remove_client_frees_name_and_address() {
    let mut manager = server();
    manager.new_client("alice".to_string(), ip([10, 33, 7, 2]), "a".to_string(), "A".to_string()).unwrap();
    manager.new_client("bob".to_string(), ip([10, 33, 7, 3]), "b".to_string(), "B".to_string()).unwrap();
    manager.new_client("carol".to_string(), ip([10, 33, 7, 4]), "c".to_string(), "C".to_string()).unwrap();
    assert_eq!(manager.remove_client(&"bob".to_string()), Ok(()));
    let names: Vec<String> = manager.clients().iter().map(|client| client.name().clone()).collect();
    assert_eq!(names, vec!["alice", "carol"]);
    assert_eq!(manager.check_new_client(&"bob".to_string(), ip([10, 33, 7, 3])), Ok(()));
    manager.new_client("bob".to_string(), ip([10, 33, 7, 3]), "b2".to_string(), "B2".to_string()).unwrap();
    assert_eq!(manager.clients().len(), 3);
}

#[test]
fn remove_client_that_is_not_there_fails() {
    let mut manager = server();
    manager.new_client("alice".to_string(), ip([10, 33, 7, 2]), "a".to_string(), "A".to_string()).unwrap();
    let before = manager.clone();
    assert_eq!(
        manager.remove_client(&"bob".to_string()),
        Err(ManagerError::ClientNotFoundError("bob".to_string()))
    );
    assert_eq!(manager, before);
    assert_eq!(manager.remove_client(&"alice".to_string()), Ok(()));
    assert_eq!(
        manager.remove_client(&"alice".to_string()),
        Err(ManagerError::ClientNotFoundError("alice".to_string()))
    );
}

#[test]
fn error_messages() {
    assert_eq!(
        ManagerError::ClientNameExistsError("alice".to_string()).to_string(),
        "client with name 'alice' already exists"
    );
    assert_eq!(
        ManagerError::ClientNotFoundError("bob".to_string()).to_string(),
        "client with name 'bob' does not exist"
    );
    assert_eq!(
        ManagerError::AddressOutOfRangeError(ip([10, 33, 8, 2])).to_string(),
        "address 10.33.8.2 is outside the address range"
    );
    assert_eq!(
        ManagerError::AddressInUseError(ip([10, 33, 7, 2])).to_string(),
        "address 10.33.7.2 is already in use"
    );
    assert_eq!(ManagerError::IOError("no such file".to_string()).to_string(), "no such file");
    assert_eq!(ManagerError::SerializationError("eof".to_string()).to_string(), "eof");
}

#[test]
fn save_then_load_gives_the_same_configuration() {
    let mut manager = server();
    manager.new_client("alice".to_string(), ip([10, 33, 7, 2]), "a".to_string(), "A".to_string()).unwrap();
    manager.new_client("bob".to_string(), ip([10, 33, 7, 3]), "b".to_string(), "B".to_string()).unwrap();
    let record = manager.clone().save_config();
    assert_eq!(record.interface_name, "wg0");
    assert_eq!(record.private_key, "SERVER-PRIVATE=");
    assert_eq!(record.public_key, "SERVER-PUBLIC=");
    assert_eq!(record.endpoint, Endpoint { address: ip([127, 0, 0, 1]), port: 51900 });
    assert_eq!(record.ip_range, "10.33.7.0/24");
    assert_eq!(record.wg_binary_path, "wg");
    assert_eq!(record.clients.len(), 2);
    assert_eq!(Manager::from_config(record), Ok(manager));
}

#[test]
fn save_then_load_of_an_empty_configuration() {
    let manager = server();
    assert_eq!(Manager::from_config(manager.clone().save_config()), Ok(manager));
}

#[test]
fn save_keeps_the_host_bits_of_the_pool() {
    let manager = Manager::new(
        Endpoint { address: ip([192, 0, 2, 1]), port: 1 },
        IpRange::parse("10.33.7.1/24").unwrap(),
        "wg7".to_string(),
        "p".to_string(),
        "P".to_string(),
    );
    let record = manager.clone().save_config();
    assert_eq!(record.ip_range, "10.33.7.1/24");
    assert_eq!(Manager::from_config(record), Ok(manager));
}

fn record(ip_range: &str, clients: Vec<Client>) -> ConfigRecord {
    ConfigRecord {
        interface_name: "wg0".to_string(),
        private_key: "p".to_string(),
        public_key: "P".to_string(),
        endpoint: Endpoint { address: ip([127, 0, 0, 1]), port: 51900 },
        ip_range: ip_range.to_string(),
        clients,
        wg_binary_path: "/usr/bin/wg".to_string(),
    }
}

#[test]
fn load_takes_the_record_as_it_is() {
    let clients = vec![
        Client::new("alice".to_string(), "A".to_string(), ip([10, 33, 7, 2])),
        Client::new("bob".to_string(), "B".to_string(), ip([172, 16, 0, 1])),
    ];
    let manager = Manager::from_config(record("10.33.7.0/24", clients)).unwrap();
    assert_eq!(manager.wg().binary_path(), "/usr/bin/wg");
    assert_eq!(manager.ip_range(), IpRange { address: ip([10, 33, 7, 0]), prefix_len: 24 });
    let listed = manager.clients();
    assert_eq!(listed.len(), 2);
    assert_eq!(listed[0].name(), "alice");
    assert_eq!(listed[1].name(), "bob");
    assert_eq!(listed[1].ip(), ip([172, 16, 0, 1]));
}

#[test]
fn load_refuses_a_pool_that_is_no_range() {
    assert_eq!(
        Manager::from_config(record("10.33.7.0", Vec::new())),
        Err(ManagerError::SerializationError("invalid IP network syntax".to_string()))
    );
    assert_eq!(
        Manager::from_config(record("", Vec::new())),
        Err(ManagerError::SerializationError("invalid IP network syntax".to_string()))
    );
}

#[test]
fn load_refuses_clients_that_share_a_name() {
    let clients = vec![
        Client::new("alice".to_string(), "A".to_string(), ip([10, 33, 7, 2])),
        Client::new("bob".to_string(), "B".to_string(), ip([10, 33, 7, 3])),
        Client::new("alice".to_string(), "C".to_string(), ip([10, 33, 7, 4])),
    ];
    assert_eq!(
        Manager::from_config(record("10.33.7.0/24", clients)),
        Err(ManagerError::SerializationError("duplicate client name".to_string()))
    );
}

#[test]
fn client_holds_what_it_was_made_of() {
    let client = Client::new("alice".to_string(), "A".to_string(), ip([10, 33, 7, 2]));
    assert_eq!(client.name(), "alice");
    assert_eq!(client.public_key(), "A");
    assert_eq!(client.ip(), ip([10, 33, 7, 2]));
    assert_eq!(client.duplicate(), client);
}

#[test]
fn client_rows_list_name_and_public_key() {
    let mut manager = server();
    assert_eq!(manager.client_rows(), vec![vec!["Name", "Pubkey"]]);
    manager.new_client("alice".to_string(), ip([10, 33, 7, 2]), "a".to_string(), "ALICE=".to_string()).unwrap();
    manager.new_client("bob".to_string(), ip([10, 33, 7, 3]), "b".to_string(), "BOB=".to_string()).unwrap();
    assert_eq!(
        manager.client_rows(),
        vec![vec!["Name", "Pubkey"], vec!["alice", "ALICE="], vec!["bob", "BOB="]]
    );
    assert_eq!(cli_table(manager.client_rows()), vec![" Name Pubkey", "alice ALICE=", "  bob   BOB="]);
}

#[test]
fn load_does_not_depend_on_the_order_of_the_clients() {
    let forward = vec![
        Client::new("alice".to_string(), "A".to_string(), ip([10, 33, 7, 2])),
        Client::new("bob".to_string(), "B".to_string(), ip([10, 33, 7, 3])),
    ];
    let backward = vec![forward[1].clone(), forward[0].clone()];
    let one = Manager::from_config(record("10.33.7.0/24", forward)).unwrap();
    let other = Manager::from_config(record("10.33.7.0/24", backward)).unwrap();
    for client in one.clients() {
        assert!(other.clients().iter().any(|found| *found == client));
    }
    assert_eq!(one.clients().len(), other.clients().len());
    assert_eq!(one.check_new_client(&"alice".to_string(), ip([10, 33, 7, 9])), other.check_new_client(&"alice".to_string(), ip([10, 33, 7, 9])));
    assert_eq!(one.desired().peers.len(), other.desired().peers.len());
}
