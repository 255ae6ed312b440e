use noise_io::relay::{is_relay_address, Protocol, RelayConnection, RelayError, RelayedListenerUpgrade};

#[test]
fn address_without_circuit_is_direct() {
    assert!(!is_relay_address(&[]));
    assert!(!is_relay_address(&[Protocol::Other]));
    assert!(!is_relay_address(&[Protocol::Other, Protocol::Other, Protocol::Other]));
}

#[test]
fn address_with_circuit_is_relayed() {
    assert!(is_relay_address(&[Protocol::P2pCircuit]));
    assert!(is_relay_address(&[Protocol::Other, Protocol::Other, Protocol::P2pCircuit]));
    assert!(is_relay_address(&[Protocol::P2pCircuit, Protocol::Other]));
    assert!(is_relay_address(&[Protocol::Other, Protocol::P2pCircuit, Protocol::Other]));
}

#[test]
fn relay_types_can_be_made() {
    let _upgrade: RelayedListenerUpgrade<u8> = RelayedListenerUpgrade::new();
    let _connection = RelayConnection {};
    let error = RelayError {};
    assert_eq!(format!("{:?}", error), "RelayError");
}
