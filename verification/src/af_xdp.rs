//! AF_XDP datapath: the frame echo pipeline, the ring index arithmetic of
//! one socket, and the kernel interface's numbers and records.
use vstd::prelude::*;
use crate::bytes::get_be16;
use crate::checksum::{ip_checksum, udp_checksum};
use crate::parse::{parse_ipv4, parse_udp};
use vstd::slice::slice_subrange;

verus! {

/// `SOL_XDP` socket option level.
pub const SOL_XDP: i32 = 283;

/// Per-ring byte offsets in the mapped regions.
pub const XDP_MMAP_OFFSETS: i32 = 1;

/// RX ring entry count.
pub const XDP_RX_RING: i32 = 2;

/// TX ring entry count.
pub const XDP_TX_RING: i32 = 3;

/// Umem registration.
pub const XDP_UMEM_REG: i32 = 4;

/// Fill ring entry count.
pub const XDP_UMEM_FILL_RING: i32 = 5;

/// Completion ring entry count.
pub const XDP_UMEM_COMPLETION_RING: i32 = 6;

/// Map offset of the RX ring.
pub const XDP_PGOFF_RX_RING: i64 = 0;

/// Map offset of the TX ring.
pub const XDP_PGOFF_TX_RING: i64 = 0x8000_0000;

/// Map offset of the fill ring.
pub const XDP_UMEM_PGOFF_FILL_RING: i64 = 0x1_0000_0000;

/// Map offset of the completion ring.
pub const XDP_UMEM_PGOFF_COMPLETION_RING: i64 = 0x1_8000_0000;

/// Umem frames: 4096 frames of one page each (16 MiB).
pub const DEFAULT_NUM_FRAMES: u32 = 4096;

/// Umem frame size, one page.
pub const DEFAULT_FRAME_SIZE: u32 = 4096;

/// Per-ring entry count (a power of two, as the kernel requires).
pub const DEFAULT_RING_SIZE: u32 = 256;

/// `struct sockaddr_xdp`.
#[derive(Clone, Copy, Debug, PartialEq, Eq, Structural)]
pub struct SockaddrXdp {
    pub sxdp_family: u16,
    pub sxdp_flags: u16,
    pub sxdp_ifindex: u32,
    pub sxdp_queue_id: u32,
    pub sxdp_shared_umem_fd: u32,
}

/// `struct xdp_umem_reg`.
#[derive(Clone, Copy, Debug, PartialEq, Eq, Structural)]
pub struct XdpUmemReg {
    pub addr: u64,
    pub len: u64,
    pub chunk_size: u32,
    pub headroom: u32,
    pub flags: u32,
    pub tx_metadata_len: u32,
}

/// `struct xdp_ring_offset`.
#[derive(Clone, Copy, Debug, PartialEq, Eq, Structural)]
pub struct XdpRingOffset {
    pub producer: u64,
    pub consumer: u64,
    pub desc: u64,
    pub flags: u64,
}

/// `struct xdp_mmap_offsets`.
#[derive(Clone, Copy, Debug, PartialEq, Eq, Structural)]
pub struct XdpMmapOffsets {
    pub rx: XdpRingOffset,
    pub tx: XdpRingOffset,
    pub fr: XdpRingOffset,
    pub cr: XdpRingOffset,
}

/// `struct xdp_desc`: an RX/TX ring entry.
#[derive(Clone, Copy, Debug, PartialEq, Eq, Structural)]
pub struct XdpDesc {
    pub addr: u64,
    pub len: u32,
    pub options: u32,
}

/// Byte length of a ring's mapped region: the pages before the descriptor
/// area, then one entry per slot.
pub fn ring_map_len(desc_off: u64, ring_size: u32, entry_size: usize) -> (r: usize)
    requires
        desc_off + ring_size * entry_size <= usize::MAX,
        ring_size * entry_size <= usize::MAX,
    ensures
        r == desc_off + ring_size * entry_size,
{
    desc_off as usize + ring_size as usize * entry_size
}

// ---------------------------------------------------------------------
// Setup
// ---------------------------------------------------------------------

/// Address family of AF_XDP sockets.
pub const AF_XDP: u16 = 44;

/// Bytes of the umem.
pub const UMEM_LEN: usize = 16777216;

/// Bytes per entry of an RX or TX ring, and of a fill or completion ring.
pub const DESC_BYTES: usize = 16;

pub const ADDR_BYTES: usize = 8;

/// One step of opening a socket on a device queue.
#[derive(Clone, Copy, Debug, PartialEq, Eq, Structural)]
pub enum SetupStep {
    /// Map anonymous memory for the frames.
    MapUmem { len: usize },
    /// Register the frames.
    RegisterUmem { reg: XdpUmemReg },
    /// Set the entry count of a ring.
    SetRing { opt: i32, size: u32 },
    /// Ask for the offsets within the ring regions.
    GetOffsets,
    /// Map a ring region.
    MapRing { pgoff: i64, len: usize },
    /// Bind to the device queue.
    Bind { addr: SockaddrXdp },
    /// The socket is ready.
    Done,
}

/// The opening of a socket, step by step.
pub struct Setup {
    pub ifindex: u32,
    pub queue_id: u32,
    /// Steps done.
    pub done: usize,
    pub umem: u64,
    pub offsets: XdpMmapOffsets,
    /// The ring regions mapped so far: RX, TX, fill, completion.
    pub rings: Vec<u64>,
}

/// The offset of the descriptors of ring `i`.
pub open spec fn desc_offset(o: XdpMmapOffsets, i: int) -> u64 {
    if i == 0 {
        o.rx.desc
    } else if i == 1 {
        o.tx.desc
    } else if i == 2 {
        o.fr.desc
    } else {
        o.cr.desc
    }
}

/// The mapped length of ring `i`.
pub open spec fn ring_len(o: XdpMmapOffsets, i: int) -> int {
    desc_offset(o, i) + DEFAULT_RING_SIZE * (if i < 2 {
        DESC_BYTES as int
    } else {
        ADDR_BYTES as int
    })
}

/// The ring regions have lengths that fit the machine.
pub open spec fn offsets_fit(o: XdpMmapOffsets) -> bool {
    forall|i: int| 0 <= i < 4 ==> #[trigger] ring_len(o, i) <= usize::MAX
}

/// The map offset of ring `i`.
pub open spec fn ring_pgoff(i: int) -> i64 {
    if i == 0 {
        XDP_PGOFF_RX_RING
    } else if i == 1 {
        XDP_PGOFF_TX_RING
    } else if i == 2 {
        XDP_UMEM_PGOFF_FILL_RING
    } else {
        XDP_UMEM_PGOFF_COMPLETION_RING
    }
}

/// The entry-count option of ring `i`.
pub open spec fn ring_option(i: int) -> i32 {
    if i == 0 {
        XDP_RX_RING
    } else if i == 1 {
        XDP_TX_RING
    } else if i == 2 {
        XDP_UMEM_FILL_RING
    } else {
        XDP_UMEM_COMPLETION_RING
    }
}

impl Setup {
    /// The ring regions are mapped one by one, after their offsets are
    /// known.
    pub open spec fn wf(&self) -> bool {
        &&& self.done <= 12
        &&& offsets_fit(self.offsets)
        &&& self.rings@.len() == if self.done <= 7 {
            0
        } else if self.done >= 11 {
            4
        } else {
            self.done - 7
        }
    }

    /// The next step.
    pub open spec fn next(&self) -> SetupStep {
        if self.done == 0 {
            SetupStep::MapUmem { len: UMEM_LEN }
        } else if self.done == 1 {
            SetupStep::RegisterUmem {
                reg: XdpUmemReg {
                    addr: self.umem,
                    len: UMEM_LEN as u64,
                    chunk_size: DEFAULT_FRAME_SIZE,
                    headroom: 0,
                    flags: 0,
                    tx_metadata_len: 0,
                },
            }
        } else if self.done <= 5 {
            SetupStep::SetRing { opt: ring_option(self.done - 2), size: DEFAULT_RING_SIZE }
        } else if self.done == 6 {
            SetupStep::GetOffsets
        } else if self.done <= 10 {
            SetupStep::MapRing {
                pgoff: ring_pgoff(self.done - 7),
                len: ring_len(self.offsets, self.done - 7) as usize,
            }
        } else if self.done == 11 {
            SetupStep::Bind {
                addr: SockaddrXdp {
                    sxdp_family: AF_XDP,
                    sxdp_flags: 0,
                    sxdp_ifindex: self.ifindex,
                    sxdp_queue_id: self.queue_id,
                    sxdp_shared_umem_fd: 0,
                },
            }
        } else {
            SetupStep::Done
        }
    }

    /// Nothing done.
    pub fn new(ifindex: u32, queue_id: u32) -> (s: Self)
        ensures
            s.wf(),
            s.done == 0,
            s.ifindex == ifindex,
            s.queue_id == queue_id,
    {
        let zero = XdpRingOffset { producer: 0, consumer: 0, desc: 0, flags: 0 };
        Setup {
            ifindex,
            queue_id,
            done: 0,
            umem: 0,
            offsets: XdpMmapOffsets { rx: zero, tx: zero, fr: zero, cr: zero },
            rings: Vec::new(),
        }
    }

    /// The next step.
    pub fn step(&self) -> (r: SetupStep)
        requires
            self.wf(),
        ensures
            r == self.next(),
    {
        match self.done {
            0 => SetupStep::MapUmem { len: UMEM_LEN },
            1 => SetupStep::RegisterUmem {
                reg: XdpUmemReg {
                    addr: self.umem,
                    len: UMEM_LEN as u64,
                    chunk_size: DEFAULT_FRAME_SIZE,
                    headroom: 0,
                    flags: 0,
                    tx_metadata_len: 0,
                },
            },
            2 => SetupStep::SetRing { opt: XDP_RX_RING, size: DEFAULT_RING_SIZE },
            3 => SetupStep::SetRing { opt: XDP_TX_RING, size: DEFAULT_RING_SIZE },
            4 => SetupStep::SetRing { opt: XDP_UMEM_FILL_RING, size: DEFAULT_RING_SIZE },
            5 => SetupStep::SetRing { opt: XDP_UMEM_COMPLETION_RING, size: DEFAULT_RING_SIZE },
            6 => SetupStep::GetOffsets,
            7 => SetupStep::MapRing { pgoff: XDP_PGOFF_RX_RING, len: self.ring_bytes(0) },
            8 => SetupStep::MapRing { pgoff: XDP_PGOFF_TX_RING, len: self.ring_bytes(1) },
            9 => SetupStep::MapRing { pgoff: XDP_UMEM_PGOFF_FILL_RING, len: self.ring_bytes(2) },
            10 => SetupStep::MapRing {
                pgoff: XDP_UMEM_PGOFF_COMPLETION_RING,
                len: self.ring_bytes(3),
            },
            11 => SetupStep::Bind {
                addr: SockaddrXdp {
                    sxdp_family: AF_XDP,
                    sxdp_flags: 0,
                    sxdp_ifindex: self.ifindex,
                    sxdp_queue_id: self.queue_id,
                    sxdp_shared_umem_fd: 0,
                },
            },
            _ => SetupStep::Done,
        }
    }

    /// The mapped length of ring `i`.
    pub fn ring_bytes(&self, i: usize) -> (r: usize)
        requires
            self.wf(),
            i < 4,
        ensures
            r == ring_len(self.offsets, i as int),
    {
        assert(ring_len(self.offsets, i as int) <= usize::MAX);
        if i == 0 {
            ring_map_len(self.offsets.rx.desc, DEFAULT_RING_SIZE, DESC_BYTES)
        } else if i == 1 {
            ring_map_len(self.offsets.tx.desc, DEFAULT_RING_SIZE, DESC_BYTES)
        } else if i == 2 {
            ring_map_len(self.offsets.fr.desc, DEFAULT_RING_SIZE, ADDR_BYTES)
        } else {
            ring_map_len(self.offsets.cr.desc, DEFAULT_RING_SIZE, ADDR_BYTES)
        }
    }

    /// The step succeeded; a mapping gave `addr`.
    pub fn succeeded(&mut self, addr: u64)
        requires
            old(self).wf(),
            old(self).done < 12,
            old(self).done != 6,
        ensures
            final(self).wf(),
            final(self).done == old(self).done + 1,
            final(self).ifindex == old(self).ifindex,
            final(self).queue_id == old(self).queue_id,
            final(self).offsets == old(self).offsets,
            final(self).umem == if old(self).done == 0 {
                addr
            } else {
                old(self).umem
            },
            final(self).rings@ == if 7 <= old(self).done <= 10 {
                old(self).rings@.push(addr)
            } else {
                old(self).rings@
            },
    {
        if self.done == 0 {
            self.umem = addr;
        } else if 7 <= self.done && self.done <= 10 {
            self.rings.push(addr);
        }
        self.done = self.done + 1;
    }

    /// The kernel told the offsets.
    pub fn got_offsets(&mut self, offsets: XdpMmapOffsets)
        requires
            old(self).wf(),
            old(self).done == 6,
            offsets_fit(offsets),
        ensures
            final(self).wf(),
            final(self).done == 7,
            final(self).ifindex == old(self).ifindex,
            final(self).queue_id == old(self).queue_id,
            final(self).umem == old(self).umem,
            final(self).offsets == offsets,
            final(self).rings@ == old(self).rings@,
    {
        self.offsets = offsets;
        self.done = 7;
    }

    /// What is mapped, as regions: the frames first, then the rings.
    pub open spec fn mapped(&self) -> Seq<(u64, usize)> {
        (if self.done == 0 {
            Seq::empty()
        } else {
            seq![(self.umem, UMEM_LEN)]
        }) + Seq::new(
            self.rings@.len(),
            |i: int| (self.rings@[i], ring_len(self.offsets, i) as usize),
        )
    }

    /// The regions to unmap when a later step fails: exactly what was
    /// mapped so far.
    pub fn release(&self) -> (v: Vec<(u64, usize)>)
        requires
            self.wf(),
        ensures
            v@ == self.mapped(),
    {
        let mut v: Vec<(u64, usize)> = Vec::new();
        if self.done > 0 {
            v.push((self.umem, UMEM_LEN));
        }
        let ghost head = v@;
        let ghost tail = Seq::new(
            self.rings@.len(),
            |i: int| (self.rings@[i], ring_len(self.offsets, i) as usize),
        );
        let mut i: usize = 0;
        assert(v@ =~= head + tail.take(0));
        while i < self.rings.len()
            invariant
                i <= self.rings@.len(),
                self.wf(),
                tail == Seq::new(
                    self.rings@.len(),
                    |k: int| (self.rings@[k], ring_len(self.offsets, k) as usize),
                ),
                v@ == head + tail.take(i as int),
            decreases self.rings@.len() - i,
        {
            let len: usize = self.ring_bytes(i);
            v.push((self.rings[i], len));
            i += 1;
            assert(v@ =~= head + tail.take(i as int));
        }
        assert(v@ =~= self.mapped());
        v
    }
}

/// Whether the offsets that the kernel told give regions that fit.
pub fn check_offsets(o: &XdpMmapOffsets) -> (r: bool)
    ensures
        r == offsets_fit(*o),
{
    let big: u64 = usize::MAX as u64 - 4096;
    let small: u64 = usize::MAX as u64 - 2048;
    let r: bool = o.rx.desc <= big && o.tx.desc <= big && o.fr.desc <= small && o.cr.desc <= small;
    proof {
        if r {
            assert forall|i: int| 0 <= i < 4 implies #[trigger] ring_len(*o, i) <= usize::MAX by {
            }
        } else {
            if o.rx.desc > big {
                assert(ring_len(*o, 0) > usize::MAX);
            } else if o.tx.desc > big {
                assert(ring_len(*o, 1) > usize::MAX);
            } else if o.fr.desc > small {
                assert(ring_len(*o, 2) > usize::MAX);
            } else {
                assert(ring_len(*o, 3) > usize::MAX);
            }
        }
    }
    r
}

// ---------------------------------------------------------------------
// Ring indices
// ---------------------------------------------------------------------

/// What to do with one received descriptor.
#[derive(Clone, Copy, Debug, PartialEq, Eq, Structural)]
pub struct RxStep {
    /// Copy this many bytes from the descriptor's address; `None` when the
    /// frame does not fit and is dropped.
    pub copy: Option<usize>,
    /// Fill-ring slot that takes the frame back.
    pub fill_slot: u32,
    /// Fill-ring producer index to publish.
    pub fill_head: u32,
    /// RX-ring consumer index to publish.
    pub rx_tail: u32,
}

/// What to do for one send attempt.
#[derive(Clone, Copy, Debug, PartialEq, Eq)]
pub struct TxStep {
    /// Completion-ring consumer index to publish, when one was consumed.
    pub cr_tail: Option<u32>,
    /// TX-ring slot and descriptor to write, when the frame is accepted.
    pub submit: Option<(u32, XdpDesc)>,
    /// TX-ring producer index after the step.
    pub tx_head: u32,
}

/// The user-space side of one socket's four rings: indices only.
#[derive(Clone, Copy, Debug, PartialEq, Eq, Structural)]
pub struct XskRings {
    /// Umem length in bytes.
    pub umem_len: u64,
    /// Umem frame size in bytes.
    pub frame_size: u32,
    /// Byte offset of the fixed TX frame.
    pub tx_frame_off: u64,
    /// Entry count of every ring.
    pub ring_size: u32,
    /// RX consumer index.
    pub rx_tail: u32,
    /// TX producer index.
    pub tx_head: u32,
    /// Fill-ring producer index.
    pub fill_head: u32,
    /// Completion-ring consumer index.
    pub cr_tail: u32,
    /// True while the fixed TX frame awaits completion.
    pub tx_in_flight: bool,
}

/// A received frame fits: into the caller's buffer and inside the umem.
pub open spec fn rx_fits(desc: XdpDesc, out_len: nat, umem_len: u64) -> bool {
    desc.len <= out_len && desc.addr + desc.len <= umem_len
}

/// One send attempt: the indices after it and what to do. An oversized
/// frame and one sent while the fixed frame awaits completion change
/// nothing; a completion is consumed even when the TX ring turns out full.
pub open spec fn send_step(s: XskRings, len: nat, cr_head: u32, tx_tail: u32) -> (XskRings, TxStep) {
    let blocked = s.tx_in_flight && cr_head == s.cr_tail;
    let full = s.tx_head.wrapping_sub(tx_tail) >= s.ring_size;
    if len > s.frame_size || blocked {
        (s, TxStep { cr_tail: None, submit: None, tx_head: s.tx_head })
    } else {
        let cr_tail = if s.tx_in_flight {
            s.cr_tail.wrapping_add(1)
        } else {
            s.cr_tail
        };
        let tx_head = if full {
            s.tx_head
        } else {
            s.tx_head.wrapping_add(1)
        };
        (
            XskRings { cr_tail, tx_head, tx_in_flight: !full, ..s },
            TxStep {
                cr_tail: if s.tx_in_flight {
                    Some(cr_tail)
                } else {
                    None
                },
                submit: if full {
                    None
                } else {
                    Some(
                        (
                            s.tx_head % s.ring_size,
                            XdpDesc { addr: s.tx_frame_off, len: len as u32, options: 0 },
                        ),
                    )
                },
                tx_head,
            },
        )
    }
}

impl XskRings {
    /// Ring sizes divide the index range, the fill ring always holds
    /// exactly one entry per slot more than was received, and the fixed TX
    /// frame lies inside the umem.
    pub open spec fn wf(self) -> bool {
        &&& self.ring_size > 0
        &&& 0x1_0000_0000int % (self.ring_size as int) == 0
        &&& self.fill_head == self.rx_tail.wrapping_add(self.ring_size)
        &&& self.tx_frame_off + self.frame_size <= self.umem_len
    }

    /// The indices of a socket just opened: every fill slot holds a frame,
    /// the last umem frame is reserved for sending.
    pub fn new() -> (r: XskRings)
        ensures
            r.wf(),
            r.umem_len == 4096 * 4096,
            r.frame_size == DEFAULT_FRAME_SIZE,
            r.ring_size == DEFAULT_RING_SIZE,
            r.tx_frame_off == 4095 * 4096,
            r.rx_tail == 0,
            r.tx_head == 0,
            r.fill_head == DEFAULT_RING_SIZE,
            r.cr_tail == 0,
            !r.tx_in_flight,
    {
        XskRings {
            umem_len: DEFAULT_NUM_FRAMES as u64 * DEFAULT_FRAME_SIZE as u64,
            frame_size: DEFAULT_FRAME_SIZE,
            tx_frame_off: (DEFAULT_NUM_FRAMES - 1) as u64 * DEFAULT_FRAME_SIZE as u64,
            ring_size: DEFAULT_RING_SIZE,
            rx_tail: 0,
            tx_head: 0,
            fill_head: DEFAULT_RING_SIZE,
            cr_tail: 0,
            tx_in_flight: false,
        }
    }

    /// The frame offsets that pre-fill the fill ring, slot by slot. None
    /// of them is the reserved TX frame.
    pub fn initial_fill(&self) -> (out: Vec<u64>)
        requires
            self.ring_size * self.frame_size <= self.tx_frame_off,
        ensures
            out@.len() == self.ring_size,
            forall|i: int|
                0 <= i < out@.len() ==> {
                    &&& #[trigger] out@[i] == i * self.frame_size
                    &&& out@[i] + self.frame_size <= self.tx_frame_off
                },
    {
        let mut out: Vec<u64> = Vec::new();
        let mut i: u32 = 0;
        while i < self.ring_size
            invariant
                i <= self.ring_size,
                out@.len() == i,
                self.ring_size * self.frame_size <= self.tx_frame_off,
                forall|j: int|
                    0 <= j < i ==> {
                        &&& #[trigger] out@[j] == j * self.frame_size
                        &&& out@[j] + self.frame_size <= self.tx_frame_off
                    },
            decreases self.ring_size - i,
        {
            proof {
                let n = self.ring_size as int;
                let s = self.frame_size as int;
                let k = i as int;
                assert(k * s + s <= n * s) by (nonlinear_arith)
                    requires
                        0 <= k < n,
                        0 <= s,
                ;
                assert(0 <= k * s) by (nonlinear_arith)
                    requires
                        0 <= k,
                        0 <= s,
                ;
            }
            out.push(i as u64 * self.frame_size as u64);
            i += 1;
        }
        out
    }

    /// The RX slot to read, given the kernel's producer index; `None` when
    /// the ring is empty.
    pub fn rx_slot(&self, rx_head: u32) -> (r: Option<u32>)
        requires
            self.wf(),
        ensures
            r == if rx_head == self.rx_tail {
                None
            } else {
                Some(self.rx_tail % self.ring_size)
            },
            r matches Some(slot) ==> slot < self.ring_size,
    {
        if rx_head == self.rx_tail {
            None
        } else {
            Some(self.rx_tail % self.ring_size)
        }
    }

    /// Consume the descriptor read from the RX slot. The frame goes back
    /// to the fill ring whether or not it fits `out_len` bytes.
    pub fn recv_frame(&mut self, desc: XdpDesc, out_len: usize) -> (r: RxStep)
        requires
            old(self).wf(),
        ensures
            final(self).wf(),
            r.copy == if rx_fits(desc, out_len as nat, old(self).umem_len) {
                Some(desc.len as usize)
            } else {
                None
            },
            r.fill_slot == old(self).fill_head % old(self).ring_size,
            r.fill_slot < old(self).ring_size,
            r.fill_head == old(self).fill_head.wrapping_add(1),
            r.rx_tail == old(self).rx_tail.wrapping_add(1),
            *final(self) == (XskRings {
                fill_head: r.fill_head,
                rx_tail: r.rx_tail,
                ..*old(self)
            }),
    {
        let fits: bool = desc.len as usize <= out_len && match desc.addr.checked_add(
            desc.len as u64,
        ) {
            Some(end) => end <= self.umem_len,
            None => false,
        };
        let fill_slot: u32 = self.fill_head % self.ring_size;
        self.fill_head = self.fill_head.wrapping_add(1);
        self.rx_tail = self.rx_tail.wrapping_add(1);
        RxStep {
            copy: if fits {
                Some(desc.len as usize)
            } else {
                None
            },
            fill_slot,
            fill_head: self.fill_head,
            rx_tail: self.rx_tail,
        }
    }

    /// One send attempt of `len` bytes, given the kernel's completion
    /// producer and TX consumer indices. The fixed frame is reused only
    /// after its completion; a refused frame leaves `submit` empty.
    pub fn send_frame(&mut self, len: usize, cr_head: u32, tx_tail: u32) -> (r: TxStep)
        requires
            old(self).wf(),
        ensures
            final(self).wf(),
            (*final(self), r) == send_step(*old(self), len as nat, cr_head, tx_tail),
            r.submit matches Some(p) ==> p.0 < old(self).ring_size,
    {
        let mut step = TxStep { cr_tail: None, submit: None, tx_head: self.tx_head };
        if len > self.frame_size as usize {
            return step;
        }
        if self.tx_in_flight {
            if cr_head == self.cr_tail {
                return step;
            }
            self.cr_tail = self.cr_tail.wrapping_add(1);
            step.cr_tail = Some(self.cr_tail);
            self.tx_in_flight = false;
        }
        if self.tx_head.wrapping_sub(tx_tail) >= self.ring_size {
            return step;
        }
        let slot: u32 = self.tx_head % self.ring_size;
        step.submit = Some(
            (slot, XdpDesc { addr: self.tx_frame_off, len: len as u32, options: 0 }),
        );
        self.tx_head = self.tx_head.wrapping_add(1);
        step.tx_head = self.tx_head;
        self.tx_in_flight = true;
        step
    }
}

/// Consecutive indices use consecutive slots, also where the index wraps.
pub proof fn law_slots_are_cyclic(index: u32, ring_size: u32)
    requires
        ring_size > 0,
        0x1_0000_0000int % (ring_size as int) == 0,
    ensures
        index.wrapping_add(1) % ring_size == (index % ring_size + 1) % (ring_size as int),
{
    let n = ring_size as int;
    let i = index as int;
    let next = index.wrapping_add(1) as int;
    assert((i + 1) % n == (i % n + 1) % n) by {
        vstd::arithmetic::div_mod::lemma_add_mod_noop_right(1, i, n);
    }
    if index == u32::MAX {
        assert(next == 0);
        vstd::arithmetic::div_mod::lemma_small_mod(0, n as nat);
    } else {
        assert(next == i + 1);
    }
}

/// A frame sent is never overwritten before its completion: after an
/// accepted send, another one without a completion is refused and changes
/// nothing.
pub proof fn law_one_frame_in_flight(
    s: XskRings,
    len: nat,
    cr_head: u32,
    tx_tail: u32,
    next_len: nat,
    next_tx_tail: u32,
)
    requires
        s.wf(),
        send_step(s, len, cr_head, tx_tail).1.submit is Some,
    ensures
        ({
            let after = send_step(s, len, cr_head, tx_tail).0;
            &&& after.tx_in_flight
            &&& send_step(after, next_len, after.cr_tail, next_tx_tail) == (
                after,
                TxStep { cr_tail: None, submit: None, tx_head: after.tx_head },
            )
        }),
{
}

// ---------------------------------------------------------------------
// The echo pipeline
// ---------------------------------------------------------------------

/// The outcome of processing one received frame.
#[derive(Clone, Copy, Debug, PartialEq, Eq, Structural)]
pub enum FrameAction {
    /// Validated and rewritten for echo: transmit it.
    Echo,
    /// Not IPv4/UDP, malformed, bad checksum, or TTL expired: drop it.
    Drop,
}

/// Length of the IPv4 header of frame `f`.
pub open spec fn frame_ihl(f: Seq<u8>) -> int {
    (f[14] % 16) * 4
}

/// The UDP datagram of frame `f` with its checksum field zeroed.
pub open spec fn udp_zeroed(f: Seq<u8>) -> Seq<u8> {
    let off = 14 + frame_ihl(f);
    let len = crate::bytes::be16_at(f, off + 4);
    f.subrange(off, off + len).update(6, 0).update(7, 0)
}

/// Frame `f` carries well-formed IPv4 and UDP headers that cover each
/// other.
pub open spec fn well_framed(f: Seq<u8>) -> bool {
    let off = 14 + frame_ihl(f);
    let total = crate::bytes::be16_at(f, 16);
    &&& f.len() >= 42
    &&& crate::bytes::be16_at(f, 12) == 0x0800
    &&& crate::parse::ipv4_error(f.skip(14)) is None
    &&& f[23] == 17
    &&& total >= 28
    &&& 14 + total <= f.len()
    &&& off + 8 <= 14 + total
    &&& crate::parse::udp_error(f.skip(off)) is None
    &&& off + crate::bytes::be16_at(f, off + 4) <= 14 + total
}

/// The IPv4 header checksum of `f` is right.
pub open spec fn ip_checksum_ok(f: Seq<u8>) -> bool {
    crate::simd::checksum_of(crate::simd::word_sum(f.subrange(14, 14 + frame_ihl(f)))) == 0
}

/// The UDP checksum of `f` is right, or switched off with zero.
pub open spec fn udp_checksum_ok(f: Seq<u8>) -> bool {
    let off = 14 + frame_ihl(f);
    let len = crate::bytes::be16_at(f, off + 4);
    let stored = crate::bytes::be16_at(f, off + 6);
    stored == 0 || stored == crate::simd::checksum_of(
        crate::checksum::pseudo_v4(f.subrange(26, 30), f.subrange(30, 34), 17, len as nat)
            + crate::simd::word_sum(udp_zeroed(f)),
    )
}

/// Frame `f` is to be echoed.
pub open spec fn echo_ok(f: Seq<u8>) -> bool {
    well_framed(f) && ip_checksum_ok(f) && udp_checksum_ok(f) && f[22] > 1
}

/// Frame `f` with its MAC addresses swapped.
pub open spec fn macs_swapped(f: Seq<u8>) -> Seq<u8> {
    f.subrange(6, 12) + f.subrange(0, 6) + f.skip(12)
}

/// Frame `f` with swapped MACs, one hop less and a zero header checksum.
pub open spec fn hop_taken(f: Seq<u8>) -> Seq<u8> {
    macs_swapped(f).update(22, (f[22] - 1) as u8).update(24, 0).update(25, 0)
}

/// Frame `f` rewritten for echo.
pub open spec fn echoed(f: Seq<u8>) -> Seq<u8> {
    let g = hop_taken(f);
    let c = crate::simd::checksum_of(crate::simd::word_sum(g.subrange(14, 14 + frame_ihl(f))));
    g.update(24, (c / 256) as u8).update(25, (c % 256) as u8)
}

/// Check the UDP checksum of a well-framed datagram at `udp_off`: the field
/// is zeroed for the sum and restored.
fn udp_verifies(
    frame: &mut [u8],
    src: [u8; 4],
    dst: [u8; 4],
    udp_off: usize,
    udp_len: u16,
) -> (r: bool)
    requires
        well_framed(old(frame)@),
        udp_off == 14 + frame_ihl(old(frame)@),
        udp_len == crate::bytes::be16_at(old(frame)@, udp_off + 4),
        src@ == old(frame)@.subrange(26, 30),
        dst@ == old(frame)@.subrange(30, 34),
    ensures
        r == udp_checksum_ok(old(frame)@),
        final(frame)@ == old(frame)@,
{
    let ghost f = frame@;
    let csum_off: usize = udp_off + 6;
    let stored: u16 = get_be16(frame, csum_off);
    if stored == 0 {
        return true;
    }
    let hi: u8 = frame[csum_off];
    let lo: u8 = frame[csum_off + 1];
    frame[csum_off] = 0;
    frame[csum_off + 1] = 0;
    let datagram = slice_subrange(frame, udp_off, udp_off + udp_len as usize);
    assert(datagram@ =~= udp_zeroed(f));
    let calc: u16 = udp_checksum(src, dst, udp_len, datagram);
    frame[csum_off] = hi;
    frame[csum_off + 1] = lo;
    assert(frame@ =~= f);
    calc == stored
}

/// Validate a frame for echo; the result is the IPv4 header length.
fn validated(frame: &mut [u8]) -> (r: Option<usize>)
    ensures
        final(frame)@ == old(frame)@,
        match r {
            Some(ihl) => echo_ok(old(frame)@) && ihl == frame_ihl(old(frame)@),
            None => !echo_ok(old(frame)@),
        },
{
    let ghost f = frame@;
    let n: usize = frame.len();
    if n < 42 {
        return None;
    }
    if get_be16(frame, 12) != 0x0800 {
        return None;
    }
    let ip_bytes = slice_subrange(frame, 14, n);
    assert(ip_bytes@ =~= f.skip(14));
    let ip = match parse_ipv4(ip_bytes) {
        Ok(h) => h,
        Err(_) => {
            return None;
        },
    };
    assert(ip.src@ =~= f.subrange(26, 30));
    assert(ip.dst@ =~= f.subrange(30, 34));
    if ip.protocol != 17 {
        return None;
    }
    let ihl: usize = (frame[14] % 16) as usize * 4;
    let ip_total: usize = ip.total_len as usize;
    assert(ip_total == crate::bytes::be16_at(f, 16));
    if ip_total < 28 || 14 + ip_total > n || ihl + 8 > ip_total {
        return None;
    }
    let header = slice_subrange(frame, 14, 14 + ihl);
    if ip_checksum(header) != 0 {
        assert(!ip_checksum_ok(f));
        return None;
    }
    let udp_off: usize = 14 + ihl;
    let udp_bytes = slice_subrange(frame, udp_off, n);
    assert(udp_bytes@ =~= f.skip(udp_off as int));
    let udp = match parse_udp(udp_bytes) {
        Ok(h) => h,
        Err(_) => {
            return None;
        },
    };
    assert(udp.len == crate::bytes::be16_at(f, udp_off + 4));
    if udp_off + udp.len as usize > 14 + ip_total {
        return None;
    }
    assert(well_framed(f));
    if !udp_verifies(frame, ip.src, ip.dst, udp_off, udp.len) {
        return None;
    }
    if ip.ttl <= 1 {
        return None;
    }
    Some(ihl)
}

/// Exchange the two MAC addresses.
fn swap_macs(frame: &mut [u8])
    requires
        old(frame)@.len() >= 12,
    ensures
        final(frame)@ == macs_swapped(old(frame)@),
{
    let ghost f = frame@;
    let mut i: usize = 0;
    while i < 6
        invariant
            i <= 6,
            frame@.len() == f.len(),
            f.len() >= 12,
            forall|j: int| 0 <= j < i ==> #[trigger] frame@[j] == f[j + 6],
            forall|j: int| i <= j < 6 ==> #[trigger] frame@[j] == f[j],
            forall|j: int| 6 <= j < 6 + i ==> #[trigger] frame@[j] == f[j - 6],
            forall|j: int| 6 + i <= j < f.len() ==> #[trigger] frame@[j] == f[j],
        decreases 6 - i,
    {
        let t: u8 = frame[i];
        frame[i] = frame[i + 6];
        frame[i + 6] = t;
        i += 1;
    }
    assert(frame@ =~= macs_swapped(f));
}

/// Process one received Ethernet frame in place for echo: validate the
/// headers and both checksums, then swap the MACs, decrement the TTL and
/// recompute the IP checksum. A dropped frame is left as it was.
pub fn process_frame(frame: &mut [u8]) -> (r: FrameAction)
    ensures
        r == if echo_ok(old(frame)@) {
            FrameAction::Echo
        } else {
            FrameAction::Drop
        },
        final(frame)@ == if echo_ok(old(frame)@) {
            echoed(old(frame)@)
        } else {
            old(frame)@
        },
{
    let ghost f = frame@;
    let ihl: usize = match validated(frame) {
        Some(n) => n,
        None => {
            return FrameAction::Drop;
        },
    };
    swap_macs(frame);
    assert(macs_swapped(f)[22] == f[22]);
    frame[22] = frame[22] - 1;
    frame[24] = 0;
    frame[25] = 0;
    assert(frame@ =~= hop_taken(f));
    let csum: u16 = ip_checksum(slice_subrange(frame, 14, 14 + ihl));
    frame[24] = (csum / 256) as u8;
    frame[25] = (csum % 256) as u8;
    assert(frame@ =~= echoed(f));
    FrameAction::Echo
}

/// What an echo keeps: the length, everything from the IP addresses on and
/// so the whole datagram. What it changes: the MACs change places and the
/// TTL drops by one.
pub proof fn law_echo_rewrites_header_only(f: Seq<u8>)
    requires
        echo_ok(f),
    ensures
        echoed(f).len() == f.len(),
        echoed(f).subrange(0, 6) == f.subrange(6, 12),
        echoed(f).subrange(6, 12) == f.subrange(0, 6),
        echoed(f)[22] == f[22] - 1,
        echoed(f).skip(26) == f.skip(26),
        forall|i: int| 12 <= i < 22 ==> echoed(f)[i] == f[i],
        echoed(f)[23] == f[23],
{
    let g = echoed(f);
    assert(g.len() == f.len());
    assert(g.subrange(0, 6) =~= f.subrange(6, 12));
    assert(g.subrange(6, 12) =~= f.subrange(0, 6));
    assert(g.skip(26) =~= f.skip(26));
}

/// The header checksum of every echoed frame is right.
pub proof fn law_echo_checksum_valid(f: Seq<u8>)
    requires
        echo_ok(f),
    ensures
        ip_checksum_ok(echoed(f)),
{
    law_echo_rewrites_header_only(f);
    let ihl = frame_ihl(f);
    let g = hop_taken(f);
    let zero = g.subrange(14, 14 + ihl);
    let c = crate::simd::checksum_of(crate::simd::word_sum(zero)) as u16;
    crate::simd::law_word_sum_bound(zero);
    assert(zero[10] == g[24] && zero[11] == g[25]);
    crate::simd::law_stored_checksum_verifies(zero, 10, 0, c);
    assert(echoed(f).subrange(14, 14 + ihl) =~= zero.update(10, (c / 256) as u8).update(
        11,
        (c % 256) as u8,
    ));
}

/// Echoing an echoed frame is again a valid echo while hops remain, and
/// two echoes put the MACs back.
pub proof fn law_echo_is_repeatable(f: Seq<u8>)
    requires
        echo_ok(f),
        f[22] > 2,
    ensures
        echo_ok(echoed(f)),
        echoed(echoed(f)).subrange(0, 12) == f.subrange(0, 12),
        echoed(echoed(f))[22] == f[22] - 2,
{
    let g = echoed(f);
    let off = 14 + frame_ihl(f);
    law_echo_rewrites_header_only(f);
    law_echo_checksum_valid(f);
    assert forall|i: int| 26 <= i < f.len() implies g[i] == f[i] by {
        assert(g.skip(26)[i - 26] == f.skip(26)[i - 26]);
    }
    assert(g.skip(14)[0] == f.skip(14)[0]);
    assert(crate::parse::ipv4_error(g.skip(14)) is None);
    assert(g.skip(off) =~= f.skip(off));
    assert(g.subrange(26, 30) =~= f.subrange(26, 30));
    assert(g.subrange(30, 34) =~= f.subrange(30, 34));
    let len = crate::bytes::be16_at(f, off + 4);
    assert(g.subrange(off, off + len) =~= f.subrange(off, off + len));
    assert(echo_ok(g));
    law_echo_rewrites_header_only(g);
    let h = echoed(g);
    assert forall|i: int| 0 <= i < 12 implies h[i] == f[i] by {
        if i < 6 {
            assert(h.subrange(0, 6)[i] == g.subrange(6, 12)[i]);
            assert(g.subrange(6, 12)[i] == f.subrange(0, 6)[i]);
        } else {
            assert(h.subrange(6, 12)[i - 6] == g.subrange(0, 6)[i - 6]);
            assert(g.subrange(0, 6)[i - 6] == f.subrange(6, 12)[i - 6]);
        }
    }
    assert(h.subrange(0, 12) =~= f.subrange(0, 12));
}

// ---------------------------------------------------------------------
// Which frames are echoed, by their bytes
// ---------------------------------------------------------------------

/// Bytes behind the IP packet do not matter: a frame with anything appended
/// is echoed exactly when it is echoed without, with the same rewritten
/// bytes, and what was appended is kept.
pub proof fn law_padding_does_not_matter(f: Seq<u8>, padding: Seq<u8>)
    requires
        echo_ok(f),
    ensures
        echo_ok(f + padding),
        echoed(f + padding) == echoed(f) + padding,
{
    let g = f + padding;
    let ihl = frame_ihl(f);
    let off = 14 + ihl;
    let len = crate::bytes::be16_at(f, off + 4);
    assert(g.skip(14) =~= f.skip(14) + padding);
    assert(g.skip(14)[0] == f[14]);
    assert(crate::parse::ipv4_error(g.skip(14)) is None) by {
        assert(f.skip(14)[0] == f[14]);
    }
    assert(g.skip(off) =~= f.skip(off) + padding);
    assert(g.skip(off)[4] == f.skip(off)[4] && g.skip(off)[5] == f.skip(off)[5]);
    assert(crate::parse::udp_error(g.skip(off)) is None);
    assert(g.subrange(14, 14 + ihl) =~= f.subrange(14, 14 + ihl));
    assert(g.subrange(off, off + len) =~= f.subrange(off, off + len));
    assert(g.subrange(26, 30) =~= f.subrange(26, 30));
    assert(g.subrange(30, 34) =~= f.subrange(30, 34));
    assert(echo_ok(g));
    let a = hop_taken(f);
    let b = hop_taken(g);
    assert(b =~= a + padding);
    assert(b.subrange(14, 14 + ihl) =~= a.subrange(14, 14 + ihl));
    assert(echoed(g) =~= echoed(f) + padding);
}

/// Every padded frame that is echoed is echoed without its padding too: only
/// what the IP packet holds decides.
pub proof fn law_only_the_packet_decides(f: Seq<u8>)
    requires
        echo_ok(f),
    ensures
        ({
            let end = 14 + f[16] * 256 + f[17];
            &&& 42 <= end <= f.len()
            &&& echo_ok(f.take(end))
            &&& echoed(f.take(end)) == echoed(f).take(end)
        }),
{
    let end = 14 + f[16] * 256 + f[17];
    let g = f.take(end);
    let ihl = frame_ihl(f);
    let off = 14 + ihl;
    let len = crate::bytes::be16_at(f, off + 4);
    assert(f.skip(14)[0] == f[14] && g.skip(14)[0] == f[14]);
    assert(crate::parse::ipv4_error(g.skip(14)) is None);
    assert(g.skip(off)[4] == f.skip(off)[4] && g.skip(off)[5] == f.skip(off)[5]);
    assert(crate::parse::udp_error(g.skip(off)) is None);
    assert(g.subrange(14, 14 + ihl) =~= f.subrange(14, 14 + ihl));
    assert(g.subrange(off, off + len) =~= f.subrange(off, off + len));
    assert(g.subrange(26, 30) =~= f.subrange(26, 30));
    assert(g.subrange(30, 34) =~= f.subrange(30, 34));
    assert(echo_ok(g));
    assert(g + f.skip(end) =~= f);
    law_padding_does_not_matter(g, f.skip(end));
    assert(echoed(g).len() == g.len()) by {
        law_echo_rewrites_header_only(g);
    }
    assert((echoed(g) + f.skip(end)).take(end) =~= echoed(g));
}

/// Frame `f` is an Ethernet frame with an IPv4 packet (whose header has
/// `ihl` bytes, options included) that carries a UDP datagram of `len`
/// bytes, its header included; bytes may follow the datagram in the packet
/// and the packet in the frame.
pub open spec fn udp_frame(f: Seq<u8>, ihl: int, len: int) -> bool {
    let off = 14 + ihl;
    let total = f[16] * 256 + f[17];
    &&& ihl % 4 == 0
    &&& 20 <= ihl <= 60
    &&& 8 <= len
    &&& off + len <= 14 + total <= f.len()
    &&& f[12] == 0x08
    &&& f[13] == 0x00
    &&& f[14] == 0x40 + ihl / 4
    &&& f[23] == 17
    &&& f[off + 4] * 256 + f[off + 5] == len
}

/// The IPv4 header of `f` sums to zero, as a receiver checks it.
pub open spec fn header_sums_to_zero(f: Seq<u8>, ihl: int) -> bool {
    crate::simd::checksum_of(crate::simd::word_sum(f.subrange(14, 14 + ihl))) == 0
}

/// The stored UDP checksum is zero (none), or the checksum of the addresses,
/// the protocol, the length and the datagram with a zero checksum field.
pub open spec fn datagram_checks(f: Seq<u8>, ihl: int, len: int) -> bool {
    let off = 14 + ihl;
    let stored = f[off + 6] * 256 + f[off + 7];
    let zeroed = f.subrange(off, off + len).update(6, 0).update(7, 0);
    let pseudo = crate::simd::word_sum(f.subrange(26, 34)) + 17 + len;
    stored == 0 || stored == crate::simd::checksum_of(
        (pseudo + crate::simd::word_sum(zeroed)) as nat,
    )
}

/// Which frames are echoed: those with a UDP datagram whose two checksums
/// are right and which has more than one hop left, with or without IP
/// options, and whatever follows the packet.
pub proof fn law_right_datagrams_are_echoed(f: Seq<u8>, ihl: int, len: int)
    requires
        udp_frame(f, ihl, len),
        header_sums_to_zero(f, ihl),
        datagram_checks(f, ihl, len),
        f[22] > 1,
    ensures
        echo_ok(f),
{
    lemma_udp_frame(f, ihl, len);
}

/// A right frame that fails one of the tests is not echoed: a wrong header
/// sum, a wrong datagram checksum, or no hop left.
pub proof fn law_wrong_datagrams_are_dropped(f: Seq<u8>, ihl: int, len: int)
    requires
        udp_frame(f, ihl, len),
        !header_sums_to_zero(f, ihl) || !datagram_checks(f, ihl, len) || f[22] <= 1,
    ensures
        !echo_ok(f),
{
    lemma_udp_frame(f, ihl, len);
}

/// A frame that is no IPv4 UDP packet, or whose lengths do not fit into each
/// other, is not echoed.
pub proof fn law_other_frames_are_dropped(f: Seq<u8>)
    requires
        forall|ihl: int, len: int| !#[trigger] udp_frame(f, ihl, len),
    ensures
        !echo_ok(f),
{
    if echo_ok(f) {
        let ihl = frame_ihl(f);
        let off = 14 + ihl;
        let len = crate::bytes::be16_at(f, off + 4);
        assert(f.skip(14)[0] == f[14]);
        assert(f.skip(off)[4] == f[off + 4] && f.skip(off)[5] == f[off + 5]);
        assert(udp_frame(f, ihl, len as int));
    }
}

proof fn lemma_udp_frame(f: Seq<u8>, ihl: int, len: int)
    requires
        udp_frame(f, ihl, len),
    ensures
        well_framed(f),
        frame_ihl(f) == ihl,
        ip_checksum_ok(f) == header_sums_to_zero(f, ihl),
        udp_checksum_ok(f) == datagram_checks(f, ihl, len),
{
    let off = 14 + ihl;
    assert(f[14] % 16 == ihl / 4);
    assert(f.skip(14)[0] == f[14]);
    assert(crate::parse::ipv4_error(f.skip(14)) is None);
    assert(f.skip(off)[4] == f[off + 4] && f.skip(off)[5] == f[off + 5]);
    assert(crate::parse::udp_error(f.skip(off)) is None);
    crate::simd::law_word_sum_concat(f.subrange(26, 30), f.subrange(30, 34));
    assert(f.subrange(26, 30) + f.subrange(30, 34) =~= f.subrange(26, 34));
}

} // verus!
