use fds::conn::{ConnTable, Connection, ConnectionId};
use fds::sockaddr::{
    addr_from_storage, listen_sockaddr, sockaddr_in_from, sockaddr_of, sockaddr_to_addr,
    sockaddr_to_socket_addr, AddrError, SockAddr,
};

#[test]
fn id_packs_core_and_slot() {
    let id = ConnectionId::new(3, 42);
    assert_eq!(id.core_id(), 3);
    assert_eq!(id.slot(), 42);
    assert_eq!(ConnectionId::from_u64(id.as_u64()), id);
}

fn any(port: u16) -> SockAddr {
    SockAddr::V4 { ip: [127, 0, 0, 1], port }
}

#[test]
fn table_acquire_release_cycle() {
    let mut table: ConnTable<4> = ConnTable::new();
    for i in 0..4 {
        table.initialize(i, Connection::new(any(0), 1));
    }
    let a = table.try_acquire().expect("free slot");
    let ai = a.index();
    assert_eq!(table.conn(ai).hot.seq, 0);
    table.release(a);
    let b = table.try_acquire().expect("free again");
    assert_eq!(table.conn(b.index()).hot.seq, 0);
    table.release(b);
    let s0 = table.try_acquire().unwrap();
    let s1 = table.try_acquire().unwrap();
    let s2 = table.try_acquire().unwrap();
    let s3 = table.try_acquire().unwrap();
    assert!(table.try_acquire().is_none());
    assert_eq!(table.in_use(), 4);
    table.release(s0);
    table.release(s1);
    table.release(s2);
    table.release(s3);
    assert_eq!(table.in_use(), 0);
}

#[test]
fn hot_and_cold_are_a_line_apart() {
    let conn = Connection::new(any(9), 7);
    let hot = core::ptr::from_ref(&conn.hot).addr();
    let cold = core::ptr::from_ref(&conn.cold).addr();
    let gap = cold.abs_diff(hot);
    assert!(gap >= 64);
}

#[test]
fn flags_are_set_and_cleared_per_slot() {
    let mut table: ConnTable<2> = ConnTable::new();
    table.set_flag(0, 0b101, true);
    table.set_flag(0, 0b001, false);
    assert!(table.flag(0, 0b100));
    assert!(!table.flag(0, 0b001));
    assert!(!table.flag(1, 0xff));
    assert_eq!(ConnTable::<2>::capacity(), 2);
}

#[test]
fn owned_slots_can_be_changed() {
    let mut table: ConnTable<2> = ConnTable::new();
    table.initialize(0, Connection::new(any(1), 5));
    let i = table.acquire_index().unwrap();
    table.conn_mut(i).hot.value.seq = 9;
    assert_eq!(table.conn(i).hot.seq, 9);
    assert_eq!(table.conn(i).cold.established_at, 5);
    assert_eq!(table.conn(i).hot.fd, -1);
    table.release_slot(i);
    assert_eq!(table.in_use(), 0);
}

fn storage(bytes: &[u8]) -> [u8; 128] {
    let mut ss = [0u8; 128];
    ss[..bytes.len()].copy_from_slice(bytes);
    ss
}

#[test]
fn addresses_survive_the_kernel_encoding() {
    let v4 = SockAddr::V4 { ip: [10, 1, 2, 3], port: 8080 };
    let bytes = sockaddr_of(&v4);
    assert_eq!(bytes, vec![2, 0, 0x1f, 0x90, 10, 1, 2, 3, 0, 0, 0, 0, 0, 0, 0, 0]);
    assert_eq!(sockaddr_to_addr(&storage(&bytes), bytes.len()), Ok(v4));
    assert_eq!(addr_from_storage(&storage(&bytes)), v4);
    let mut ip = [0u8; 16];
    ip[0] = 0x20;
    ip[15] = 1;
    let v6 = SockAddr::V6 { ip, port: 80, flowinfo: 0x0102_0304, scope_id: 7 };
    let bytes = sockaddr_of(&v6);
    assert_eq!(bytes.len(), 28);
    assert_eq!(&bytes[..8], &[10, 0, 0, 80, 4, 3, 2, 1]);
    assert_eq!(sockaddr_to_addr(&storage(&bytes), 28), Ok(v6));
    assert_eq!(&listen_sockaddr(&v6)[4..8], &[0, 0, 0, 0]);
}

#[test]
fn short_and_foreign_addresses_are_refused() {
    let v4 = storage(&sockaddr_of(&any(1)));
    assert_eq!(sockaddr_to_addr(&v4, 15), Err(AddrError::ShortV4));
    let v6 = storage(&sockaddr_of(&SockAddr::V6 { ip: [0; 16], port: 0, flowinfo: 0, scope_id: 0 }));
    assert_eq!(sockaddr_to_addr(&v6, 27), Err(AddrError::ShortV6));
    assert_eq!(sockaddr_to_addr(&[0u8; 128], 128), Err(AddrError::Family));
    let rejected = sockaddr_in_from(&SockAddr::V6 { ip: [0; 16], port: 0, flowinfo: 0, scope_id: 0 });
    assert_eq!(rejected, Err(AddrError::V6Rejected));
    assert_eq!(
        AddrError::V6Rejected.message(),
        "UdpSocket is IPv4-only; IPv6 address rejected"
    );
    assert_eq!(sockaddr_in_from(&any(5)).unwrap().len(), 16);
}

#[test]
fn mapped_peers_present_as_v4() {
    let mut ip = [0u8; 16];
    ip[10] = 0xff;
    ip[11] = 0xff;
    ip[12..].copy_from_slice(&[192, 168, 0, 9]);
    let ss = storage(&sockaddr_of(&SockAddr::V6 { ip, port: 99, flowinfo: 1, scope_id: 2 }));
    assert_eq!(
        sockaddr_to_socket_addr(&ss),
        SockAddr::V4 { ip: [192, 168, 0, 9], port: 99 }
    );
    ip[0] = 1;
    let ss = storage(&sockaddr_of(&SockAddr::V6 { ip, port: 99, flowinfo: 1, scope_id: 2 }));
    assert_eq!(
        sockaddr_to_socket_addr(&ss),
        SockAddr::V6 { ip, port: 99, flowinfo: 0, scope_id: 0 }
    );
}
