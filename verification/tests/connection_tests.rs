use rand::rngs::SmallRng;
use rand::SeedableRng;

use aquatic::common::{PeerAddr, PeerIp};
use aquatic::connection::ConnectionTable;

fn addr(ip: u32, port: u16) -> PeerAddr {
    PeerAddr { ip: PeerIp::V4(ip), port }
}

#[test]
fn issued_id_validates_for_its_address() {
    let mut table = ConnectionTable::new();
    let mut rng = SmallRng::seed_from_u64(1);
    let a = addr(0x0a000001, 6881);
    let id = table.issue(&mut rng, a, 100, 120);
    assert!(table.validate(id, a, 100));
    assert!(table.validate(id, a, 220));
}

#[test]
fn issued_id_rejected_for_other_address() {
    let mut table = ConnectionTable::new();
    let mut rng = SmallRng::seed_from_u64(2);
    let a = addr(0x0a000001, 6881);
    let b = addr(0x0a000002, 6881);
    let same_ip_other_port = addr(0x0a000001, 6882);
    let id = table.issue(&mut rng, a, 100, 120);
    assert!(!table.validate(id, b, 100));
    assert!(!table.validate(id, same_ip_other_port, 100));
}

#[test]
fn expired_id_rejected() {
    let mut table = ConnectionTable::new();
    let mut rng = SmallRng::seed_from_u64(3);
    let a = addr(0x0a000001, 6881);
    let id = table.issue(&mut rng, a, 100, 120);
    // Inside the window, including its last second.
    assert!(table.validate(id, a, 220));
    // Older than max_connection_age plus one second.
    assert!(!table.validate(id, a, 221));
}

#[test]
fn cleaning_drops_expired_entries() {
    let mut table = ConnectionTable::new();
    let mut rng = SmallRng::seed_from_u64(4);
    let a = addr(0x0a000001, 6881);
    let b = addr(0x0a000002, 6882);
    let early = table.issue(&mut rng, a, 0, 120);
    let late = table.issue(&mut rng, b, 200, 120);
    table.clean(200);
    assert!(!table.validate(early, a, 200));
    assert!(table.validate(late, b, 200));
    assert_eq!(table.entries.len(), 1);
}
