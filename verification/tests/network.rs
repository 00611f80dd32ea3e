use game_logic::network::{Client, ClientRegistry, PeerAddr};

fn v4(ip: u32, port: u16) -> PeerAddr {
    PeerAddr::V4 { ip, port }
}

#[test]
fn first_client_gets_id_zero() {
    let mut r = ClientRegistry::new();
    let c = r.register(v4(0x7f000001, 34255));
    assert_eq!(c, Client { id: 0, socker_addr: v4(0x7f000001, 34255) });
    assert_eq!(r.len(), 1);
}

#[test]
fn registering_twice_gives_the_same_client() {
    let mut r = ClientRegistry::new();
    let a = r.register(v4(1, 1));
    let b = r.register(v4(1, 1));
    assert_eq!(a, b);
    assert_eq!(r.len(), 1);
}

#[test]
fn distinct_addresses_get_distinct_ids_in_arrival_order() {
    let mut r = ClientRegistry::new();
    let a = r.register(v4(1, 1));
    let b = r.register(v4(1, 2));
    let c = r.register(PeerAddr::V6 { ip: 1, port: 1, flowinfo: 0, scope_id: 0 });
    assert_eq!((a.id, b.id, c.id), (0, 1, 2));
    let a2 = r.register(v4(1, 1));
    assert_eq!(a2.id, 0);
    assert_eq!(r.len(), 3);
}

#[test]
fn lookup_finds_only_registered_addresses() {
    let mut r = ClientRegistry::new();
    assert_eq!(r.lookup(v4(9, 9)), None);
    r.register(v4(5, 5));
    r.register(v4(9, 9));
    assert_eq!(r.lookup(v4(9, 9)), Some(Client { id: 1, socker_addr: v4(9, 9) }));
    assert_eq!(r.lookup(v4(9, 8)), None);
}

#[test]
fn clients_are_listed_in_registration_order() {
    let mut r = ClientRegistry::new();
    r.register(v4(3, 3));
    r.register(v4(2, 2));
    r.register(v4(3, 3));
    r.register(v4(1, 1));
    let cs = r.clients_iter();
    assert_eq!(
        cs,
        vec![
            Client { id: 0, socker_addr: v4(3, 3) },
            Client { id: 1, socker_addr: v4(2, 2) },
            Client { id: 2, socker_addr: v4(1, 1) },
        ]
    );
}
