use fds::sockaddr::SockAddr;
use fds::uring::{
    ring_capacity, user_data, Completed, Datapath, Op, QueueFull, UdpPhase, EAGAIN, ECANCELED,
    EINVAL, ENOBUFS,
};
use fds::uring_pool::{
    kernel_version, modern_capable, received_buffer, result, BufState, BufferPool, Outcome,
    PendingTokens, RecvMsgOut, CONN_BUF, KIND_ACCEPT, KIND_POLL, KIND_TCP_CLOSE, KIND_TCP_POLLOUT,
    KIND_TCP_READ, KIND_TCP_SEND, KIND_TIMEOUT, KIND_UDP_RECV, KIND_UDP_SEND, KIND_UNIT,
    POOL_TOTAL,
};

#[test]
fn kernel_version_parses() {
    let (major, minor) = kernel_version("6.18.44-fc-v445");
    assert!(major >= 5, "kernel {major}.{minor} too old for io_uring");
    assert_eq!((major, minor), (6, 18));
    assert_eq!(kernel_version("5.10-rc1"), (5, 0));
    assert_eq!(kernel_version(""), (0, 0));
    assert_eq!(kernel_version("x.7"), (0, 7));
    assert!(modern_capable((6, 0)));
    assert!(!modern_capable((5, 19)));
}

#[test]
fn recvmsg_out_header_parses() {
    let mut buf = vec![0u8; CONN_BUF];
    buf[8..12].copy_from_slice(&1234u32.to_le_bytes());
    buf[16..16 + 1234].fill(0x77);
    let h = RecvMsgOut::parse(&buf);
    let (off, len) = h.payload().unwrap();
    assert_eq!(off, 16);
    assert_eq!(h.payloadlen as usize, 1234);
    assert_eq!(len, 1234);
    assert!(buf[off as usize..off as usize + h.payloadlen as usize].iter().all(|&b| b == 0x77));
}

#[test]
fn oversized_payloads_have_no_place() {
    let h = RecvMsgOut { namelen: 0, controllen: 0, payloadlen: 8177, flags: 0 };
    assert_eq!(h.payload(), None);
    let h = RecvMsgOut { namelen: u32::MAX, controllen: u32::MAX, payloadlen: u32::MAX, flags: 0 };
    assert_eq!(h.payload(), None);
    let h = RecvMsgOut { namelen: 16, controllen: 8, payloadlen: 8152, flags: 0 };
    assert_eq!(h.payload(), Some((40, 8152)));
}

#[test]
fn completion_results_are_counts_or_errors() {
    assert_eq!(result(7), Outcome::Done(7));
    assert_eq!(result(0), Outcome::Done(0));
    assert_eq!(result(-11), Outcome::Failed(11));
    assert_eq!(received_buffer(0x0003_0001), Some(3));
    assert_eq!(received_buffer(0x0003_0000), None);
    assert_eq!(received_buffer(0x0200_0001), None);
}

#[test]
fn pool_buffers_go_round() {
    let mut p = BufferPool::new();
    assert_eq!(p.take_free(), Some(0));
    assert_eq!(p.take_free(), Some(1));
    assert_eq!(p.states[0], BufState::InGroup);
    p.mark_owned(0, 16, 100);
    p.submit_zc(0);
    p.submit_zc(0);
    assert!(!p.zc_settled(0));
    assert!(!p.notify_zc(0));
    assert!(p.notify_zc(0));
    assert_eq!(p.states[0], BufState::Free);
    assert_eq!(p.take_free(), Some(0));
    assert!(!p.notify_zc(1));
    p.give_back(1);
    assert_eq!(p.free.len(), POOL_TOTAL - 1);
}

#[test]
fn pending_tokens_come_and_go() {
    let mut t = PendingTokens::new();
    t.submitted(1);
    t.submitted(2);
    t.submitted(1);
    t.completed(1);
    t.completed(9);
    t.tokens.sort();
    assert_eq!(t.tokens, vec![1, 2]);
}

const CORE: u32 = 3;

fn peer() -> SockAddr {
    SockAddr::V4 { ip: [127, 0, 0, 1], port: 5 }
}

fn header(len: u32) -> RecvMsgOut {
    RecvMsgOut { namelen: 0, controllen: 0, payloadlen: len, flags: 0 }
}

fn done(token: u64, res: Outcome, flags: u32) -> Completed {
    Completed { token, res, flags, header: header(100), peer: peer(), now: 77 }
}

fn conn_token(kind: u64, slot: u64) -> u64 {
    kind * KIND_UNIT + ((CORE as u64) << 32) + slot
}

fn send_token(id: u64, slot: u64) -> u64 {
    KIND_TCP_SEND * KIND_UNIT + (id << 32) + slot
}

fn datapath(modern: bool) -> Datapath {
    Datapath::new(CORE, 10, 11, Some(12), 512, modern)
}

#[test]
fn start_queues_the_first_operations() {
    let mut d = datapath(true);
    assert_eq!(d.start(), Ok(()));
    assert_eq!(
        d.take_ops(),
        vec![
            Op::UdpRecv { slot: 0 },
            Op::UdpRecv { slot: 1 },
            Op::UdpRecv { slot: 2 },
            Op::UdpRecv { slot: 3 },
            Op::AcceptMulti,
            Op::Timeout,
            Op::PollMetrics { fd: 12 },
            Op::Submit,
        ]
    );
    assert!(d.accept_multi);
    let mut legacy = datapath(false);
    assert_eq!(legacy.start(), Ok(()));
    assert_eq!(legacy.take_ops()[4], Op::Accept);
    assert_eq!(ring_capacity(1), 16);
    assert_eq!(ring_capacity(100), 128);
    assert_eq!(ring_capacity(512), 512);
    assert_eq!(ring_capacity(u32::MAX), 1 << 32);
}

#[test]
fn datagrams_are_echoed() {
    let mut d = datapath(true);
    let recv = KIND_UDP_RECV * KIND_UNIT + 2;
    assert!(d.accepts(recv));
    assert!(!d.accepts(KIND_UDP_RECV * KIND_UNIT + 4));
    assert_eq!(d.dispatch(&done(recv, Outcome::Done(60), 0)), Ok(()));
    assert_eq!(d.take_ops(), vec![Op::UdpSend { slot: 2, len: 60 }]);
    assert_eq!((d.tally.packets, d.tally.bytes, d.tally.drops), (1, 60, 0));
    assert_eq!(d.phases[2], UdpPhase::SendPending);
    let sent = KIND_UDP_SEND * KIND_UNIT + 2;
    assert_eq!(d.dispatch(&done(sent, Outcome::Done(60), 0)), Ok(()));
    assert_eq!(d.take_ops(), vec![Op::UdpRecv { slot: 2 }]);
    assert_eq!(d.dispatch(&done(recv, Outcome::Failed(EAGAIN), 0)), Ok(()));
    assert_eq!(d.tally.drops, 0);
    assert_eq!(d.dispatch(&done(recv, Outcome::Failed(5), 0)), Ok(()));
    assert_eq!(d.tally.drops, 1);
}

fn accepted() -> Datapath {
    let mut d = datapath(true);
    assert_eq!(d.start(), Ok(()));
    d.take_ops();
    let c = done(KIND_ACCEPT * KIND_UNIT, Outcome::Done(40), 2);
    assert_eq!(d.dispatch(&c), Ok(()));
    d
}

#[test]
fn accepted_connections_get_buffers_and_a_receive() {
    let mut d = accepted();
    let ops = d.take_ops();
    assert_eq!(ops.len(), 65);
    assert_eq!(ops[0], Op::Provide { id: 0, group: 0 });
    assert_eq!(ops[63], Op::Provide { id: 63, group: 0 });
    assert_eq!(ops[64], Op::RecvMulti { fd: 40, slot: 0 });
    assert_eq!(d.open_fds(), vec![40]);
    assert_eq!(d.pool.free.len(), POOL_TOTAL - 64);
}

#[test]
fn received_data_is_sent_and_recycled() {
    let mut d = accepted();
    d.flush_batch();
    assert_eq!(d.take_ops().last(), Some(&Op::Submit));
    let read = conn_token(KIND_TCP_READ, 0);
    assert_eq!(d.dispatch(&done(read, Outcome::Done(116), 0x0005_0003)), Ok(()));
    assert_eq!(
        d.take_ops(),
        vec![Op::Send { fd: 40, id: 5, off: 16, len: 100, slot: 0 }]
    );
    assert_eq!((d.tally.packets, d.tally.bytes), (1, 100));
    assert_eq!(d.pool.states[5], BufState::InKernel);
    let c = d.conns[0].as_ref().unwrap();
    assert_eq!(c.outstanding, 1);
    assert_eq!(d.table.conn(0).hot.seq, 100);
    assert_eq!(d.table.conn(0).hot.last_activity, 77);
    assert_eq!(d.table.conn(0).cold.peer, peer());

    assert_eq!(d.dispatch(&done(send_token(5, 0), Outcome::Done(40), 0)), Ok(()));
    assert_eq!(
        d.take_ops(),
        vec![Op::Send { fd: 40, id: 5, off: 56, len: 60, slot: 0 }]
    );
    assert_eq!(d.dispatch(&done(send_token(5, 0), Outcome::Failed(EAGAIN), 0)), Ok(()));
    assert_eq!(d.take_ops(), vec![Op::PollOut { fd: 40, slot: 0 }]);
    assert_eq!(d.dispatch(&done(conn_token(KIND_TCP_POLLOUT, 0), Outcome::Done(4), 0)), Ok(()));
    assert_eq!(
        d.take_ops(),
        vec![Op::Send { fd: 40, id: 5, off: 56, len: 60, slot: 0 }]
    );
    assert_eq!(d.dispatch(&done(send_token(5, 0), Outcome::Done(60), 0)), Ok(()));
    assert_eq!(d.pool.states[5], BufState::Free);
    assert_eq!(d.conns[0].as_ref().unwrap().outstanding, 0);
}

#[test]
fn the_high_watermark_stops_reads_and_the_low_one_resumes() {
    let mut d = accepted();
    let read = conn_token(KIND_TCP_READ, 0);
    let mut sent = 0u64;
    for round in 0..3u32 {
        d.take_ops();
        d.submit();
        for k in 0..64u32 {
            if d.conns[0].as_ref().unwrap().outstanding >= 160 {
                break;
            }
            let id = d.conns[0].as_ref().unwrap().provided[0];
            assert_eq!(d.dispatch(&done(read, Outcome::Done(116), (id << 16) | 3)), Ok(()));
            sent += 1;
            if k == 63 && round < 2 {
                assert_eq!(d.dispatch(&done(read, Outcome::Failed(ENOBUFS), 0)), Ok(()));
            }
            d.take_ops();
            d.flush_batch();
        }
    }
    let c = d.conns[0].as_ref().unwrap();
    assert_eq!(c.outstanding, 160);
    assert!(!c.recv_armed);
    assert_eq!(sent, 160);
    let ids: Vec<u32> = c.in_kernel.clone();
    assert_eq!(ids.len(), 160);
    d.take_ops();
    assert_eq!(d.dispatch(&done(read, Outcome::Failed(ECANCELED), 0)), Ok(()));
    assert!(d.take_ops().is_empty());
    for (n, id) in ids.iter().enumerate() {
        d.take_ops();
        assert_eq!(d.dispatch(&done(send_token(*id as u64, 0), Outcome::Done(100), 0)), Ok(()));
        d.flush_batch();
        let c = d.conns[0].as_ref().unwrap();
        assert_eq!(c.recv_armed, n >= 95);
    }
}

#[test]
fn end_of_file_closes_and_takes_the_group_back() {
    let mut d = accepted();
    d.take_ops();
    let read = conn_token(KIND_TCP_READ, 0);
    assert_eq!(d.dispatch(&done(read, Outcome::Done(0), 0)), Ok(()));
    assert_eq!(
        d.take_ops(),
        vec![Op::CloseFd { fd: 40 }, Op::RemoveBuffers { count: 64, slot: 0 }]
    );
    assert!(d.open_fds().is_empty());
    assert_eq!(d.table.in_use(), 1);
    let close = conn_token(KIND_TCP_CLOSE, 0);
    assert_eq!(d.dispatch(&done(close, Outcome::Done(64), 0)), Ok(()));
    assert_eq!(d.table.in_use(), 0);
    assert_eq!(d.pool.free.len(), POOL_TOTAL);
    assert!(d.conns[0].is_none());
}

#[test]
fn a_rejected_multishot_falls_back_to_single_reads() {
    let mut d = accepted();
    d.take_ops();
    let read = conn_token(KIND_TCP_READ, 0);
    assert_eq!(d.dispatch(&done(read, Outcome::Failed(EINVAL), 0)), Ok(()));
    assert!(d.legacy);
    assert_eq!(d.take_ops(), vec![Op::CloseFd { fd: 40 }]);
    assert_eq!(
        d.dispatch(&done(KIND_ACCEPT * KIND_UNIT, Outcome::Done(41), 0)),
        Ok(())
    );
    assert_eq!(d.take_ops(), vec![Op::Read { fd: 41, slot: 1 }, Op::Accept]);
    let read = conn_token(KIND_TCP_READ, 1);
    assert_eq!(d.dispatch(&done(read, Outcome::Done(9), 0)), Ok(()));
    assert_eq!(d.take_ops(), vec![Op::Write { fd: 41, slot: 1, len: 9 }]);
    let wrote = conn_token(KIND_TCP_SEND, 1);
    assert_eq!(d.dispatch(&done(wrote, Outcome::Done(9), 0)), Ok(()));
    assert_eq!(d.take_ops(), vec![Op::Read { fd: 41, slot: 1 }]);
    assert_eq!(d.dispatch(&done(read, Outcome::Failed(104), 0)), Ok(()));
    assert_eq!(d.take_ops(), vec![Op::CloseFd { fd: 41 }]);
    assert_eq!(d.tally.drops, 1);
}

#[test]
fn a_malformed_receive_returns_its_buffer() {
    let mut d = accepted();
    d.take_ops();
    let mut c = done(conn_token(KIND_TCP_READ, 0), Outcome::Done(9), 0x0002_0003);
    c.header = header(9000);
    assert_eq!(d.dispatch(&c), Ok(()));
    assert_eq!(d.tally.drops, 1);
    assert_eq!(d.pool.states[2], BufState::Free);
    assert!(d.take_ops().is_empty());
}

#[test]
fn a_full_queue_is_reported() {
    let mut d = Datapath::new(CORE, 10, 11, None, 12, true);
    assert_eq!(d.start(), Ok(()));
    let c = done(KIND_ACCEPT * KIND_UNIT, Outcome::Done(40), 2);
    assert_eq!(d.dispatch(&c), Err(QueueFull));
}

#[test]
fn a_full_table_drops_connections() {
    let mut d = datapath(false);
    for fd in 0..1024u32 {
        assert_eq!(
            d.dispatch(&done(KIND_ACCEPT * KIND_UNIT, Outcome::Done(fd), 0)),
            Ok(())
        );
        d.take_ops();
        d.submit();
    }
    d.take_ops();
    assert_eq!(
        d.dispatch(&done(KIND_ACCEPT * KIND_UNIT, Outcome::Done(5000), 0)),
        Ok(())
    );
    assert_eq!(d.take_ops(), vec![Op::CloseFd { fd: 5000 }, Op::Accept]);
    assert_eq!(d.tally.drops, 1);
}

#[test]
fn metrics_and_wake_ups_are_armed_again() {
    let mut d = datapath(true);
    assert_eq!(d.dispatch(&done(KIND_POLL * KIND_UNIT, Outcome::Done(1), 0)), Ok(()));
    assert_eq!(d.take_ops(), vec![Op::ServeMetrics, Op::PollMetrics { fd: 12 }]);
    assert_eq!(d.dispatch(&done(KIND_TIMEOUT * KIND_UNIT, Outcome::Failed(62), 0)), Ok(()));
    assert_eq!(d.take_ops(), vec![Op::Timeout]);
    assert_eq!(d.dispatch(&done(0xF * KIND_UNIT, Outcome::Done(0), 0)), Ok(()));
    assert!(d.take_ops().is_empty());
}

#[test]
fn operations_carry_tokens_that_lead_back() {
    assert_eq!(
        user_data(&Op::Send { fd: 1, id: 7, off: 0, len: 0, slot: 9 }, CORE),
        Some(send_token(7, 9))
    );
    assert_eq!(
        user_data(&Op::CancelRecv { slot: 9 }, CORE),
        Some(conn_token(KIND_TCP_READ, 9))
    );
    assert_eq!(user_data(&Op::Submit, CORE), None);
    assert_eq!(
        user_data(&Op::UdpRecv { slot: 1 }, CORE),
        Some(KIND_UDP_RECV * KIND_UNIT + 1)
    );
}
