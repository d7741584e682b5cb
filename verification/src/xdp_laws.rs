//! Laws of AF_XDP sockets: the steps of opening one with the kernel's
//! figures, and when frames are received, sent and refused.
use vstd::prelude::*;
use crate::af_xdp;
use crate::af_xdp::{Setup, SetupStep, SockaddrXdp, TxStep, XdpDesc, XdpUmemReg, XskRings};

verus! {

/// Opening a socket: 16 MiB of frames are mapped and registered in chunks of
/// 4096 bytes; the four rings (options 2, 3, 5 and 6) get their entries; the
/// offsets are read; the rings are mapped at the kernel's four offsets, each
/// with its descriptors; and the socket is bound to the queue of the device,
/// without flags.
pub proof fn law_opening_steps(s: Setup)
    requires
        s.wf(),
    ensures
        s.done == 0 ==> s.next() == (SetupStep::MapUmem { len: 16777216 }),
        s.done == 1 ==> s.next() == (SetupStep::RegisterUmem {
            reg: XdpUmemReg {
                addr: s.umem,
                len: 16777216,
                chunk_size: 4096,
                headroom: 0,
                flags: 0,
                tx_metadata_len: 0,
            },
        }),
        s.done == 2 ==> s.next() == (SetupStep::SetRing { opt: 2, size: 256 }),
        s.done == 3 ==> s.next() == (SetupStep::SetRing { opt: 3, size: 256 }),
        s.done == 4 ==> s.next() == (SetupStep::SetRing { opt: 5, size: 256 }),
        s.done == 5 ==> s.next() == (SetupStep::SetRing { opt: 6, size: 256 }),
        s.done == 6 ==> s.next() == SetupStep::GetOffsets,
        s.done == 7 ==> s.next() == (SetupStep::MapRing {
            pgoff: 0,
            len: (s.offsets.rx.desc + 256 * 16) as usize,
        }),
        s.done == 8 ==> s.next() == (SetupStep::MapRing {
            pgoff: 0x8000_0000,
            len: (s.offsets.tx.desc + 256 * 16) as usize,
        }),
        s.done == 9 ==> s.next() == (SetupStep::MapRing {
            pgoff: 0x1_0000_0000,
            len: (s.offsets.fr.desc + 256 * 8) as usize,
        }),
        s.done == 10 ==> s.next() == (SetupStep::MapRing {
            pgoff: 0x1_8000_0000,
            len: (s.offsets.cr.desc + 256 * 8) as usize,
        }),
        s.done == 11 ==> s.next() == (SetupStep::Bind {
            addr: SockaddrXdp {
                sxdp_family: 44,
                sxdp_flags: 0,
                sxdp_ifindex: s.ifindex,
                sxdp_queue_id: s.queue_id,
                sxdp_shared_umem_fd: 0,
            },
        }),
        s.done == 12 ==> s.next() == SetupStep::Done,
{
}

/// Whatever was mapped is released: the frames once they are mapped, and
/// each ring that was mapped, with the length it was mapped with.
pub proof fn law_all_mappings_are_released(s: Setup, i: int)
    requires
        s.wf(),
        0 <= i < s.rings@.len(),
    ensures
        s.mapped().len() == s.rings@.len() + 1,
        s.mapped().contains((s.umem, 16777216usize)),
        s.mapped().contains(
            (
                s.rings@[i],
                (if i == 0 {
                    s.offsets.rx.desc + 256 * 16
                } else if i == 1 {
                    s.offsets.tx.desc + 256 * 16
                } else if i == 2 {
                    s.offsets.fr.desc + 256 * 8
                } else {
                    s.offsets.cr.desc + 256 * 8
                }) as usize,
            ),
        ),
{
    let m = s.mapped();
    assert(m.contains(m[0]));
    assert(m.contains(m[i]) && m.contains(m[i + 1]));
    assert(m.contains(m[m.len() - 1]));
}

/// Nothing is released before anything was mapped.
pub proof fn law_nothing_mapped_nothing_released(s: Setup)
    requires
        s.wf(),
        s.done == 0,
    ensures
        s.mapped().len() == 0,
{
}

/// Indices that the kernel and the program keep count up and wrap; `n` is
/// how far `head` is ahead of `tail`.
pub open spec fn ahead(head: u32, tail: u32) -> int {
    (head - tail) % 0x1_0000_0000
}

/// A frame is sent when it fits, the reserved frame is not in flight (or its
/// completion has come), and the ring has room: the descriptor of the
/// reserved frame with its length goes into the next slot.
pub proof fn law_frames_are_sent(s: XskRings, len: nat, cr_head: u32, tx_tail: u32)
    requires
        s.wf(),
        len <= s.frame_size,
        !s.tx_in_flight || cr_head != s.cr_tail,
        ahead(s.tx_head, tx_tail) < s.ring_size,
    ensures
        ({
            let (t, step) = af_xdp::send_step(s, len, cr_head, tx_tail);
            &&& step.submit == Some(
                (
                    (s.tx_head % s.ring_size) as u32,
                    XdpDesc { addr: s.tx_frame_off, len: len as u32, options: 0 },
                ),
            )
            &&& step.tx_head == (s.tx_head + 1) % 0x1_0000_0000
            &&& t.tx_head == step.tx_head
            &&& t.tx_in_flight
            &&& if s.tx_in_flight {
                step.cr_tail == Some(t.cr_tail) && t.cr_tail == (s.cr_tail + 1) % 0x1_0000_0000
            } else {
                step.cr_tail is None && t.cr_tail == s.cr_tail
            }
            &&& t.rx_tail == s.rx_tail
            &&& t.fill_head == s.fill_head
        }),
{
}

/// A frame is refused when it is too long, when the reserved frame is still
/// in flight, or when the ring is full; then no index moves, except that a
/// completion that has come is taken.
pub proof fn law_frames_are_refused(s: XskRings, len: nat, cr_head: u32, tx_tail: u32)
    requires
        s.wf(),
        len > s.frame_size || (s.tx_in_flight && cr_head == s.cr_tail) || ahead(s.tx_head, tx_tail)
            >= s.ring_size,
    ensures
        ({
            let (t, step) = af_xdp::send_step(s, len, cr_head, tx_tail);
            &&& step.submit is None
            &&& t.tx_head == s.tx_head
            &&& step.tx_head == s.tx_head
            &&& len > s.frame_size || (s.tx_in_flight && cr_head == s.cr_tail) ==> t == s && step
                == TxStep { cr_tail: None, submit: None, tx_head: s.tx_head }
        }),
{
}

/// A received frame is copied when it fits into the caller's buffer and lies
/// inside the umem, and only then.
pub proof fn law_frames_are_copied_when_they_fit(addr: u64, len: u32, out_len: nat, umem_len: u64)
    ensures
        len <= out_len && addr + len <= umem_len ==> af_xdp::rx_fits(
            XdpDesc { addr, len, options: 0 },
            out_len,
            umem_len,
        ),
        len > out_len || addr + len > umem_len ==> !af_xdp::rx_fits(
            XdpDesc { addr, len, options: 0 },
            out_len,
            umem_len,
        ),
{
}

} // verus!
