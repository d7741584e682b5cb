//! What the io_uring datapath keeps through every completion: each pool
//! buffer is in exactly one place, the flow-control measure counts what is
//! outstanding, and buffering stays within the pool.
use vstd::multiset::Multiset;
use vstd::prelude::*;
use vstd::seq_lib::group_to_multiset_ensures;
use crate::conn::CONN_CAP;
use crate::uring;
use crate::uring::{
    Completed, ConnView, PathView, Tally, ECANCELED, EINVAL, ENOBUFS, EOPNOTSUPP, HWM_BUFS,
    INIT_PROVIDE,
};
use crate::uring_pool;
use crate::uring_pool::{BufState, Outcome, PoolView, POOL_TOTAL};

verus! {

// ---------------------------------------------------------------------
// Places
// ---------------------------------------------------------------------

/// The buffers that a connection holds.
pub open spec fn held(c: ConnView) -> Multiset<u32> {
    c.provided.to_multiset().add(c.to_send.to_multiset()).add(c.in_kernel.to_multiset())
}

/// The buffers that a slot holds.
pub open spec fn held_in(c: Option<ConnView>) -> Multiset<u32> {
    match c {
        Some(x) => held(x),
        None => Multiset::empty(),
    }
}

/// The buffers that all slots hold.
pub open spec fn held_by_all(conns: Seq<Option<ConnView>>) -> Multiset<u32>
    decreases conns.len(),
{
    if conns.len() == 0 {
        Multiset::empty()
    } else {
        held_by_all(conns.drop_last()).add(held_in(conns.last()))
    }
}

/// All buffers, wherever they are.
pub open spec fn everywhere(s: PathView) -> Multiset<u32> {
    s.pool.free.to_multiset().add(held_by_all(s.conns))
}

/// Every pool buffer once.
pub open spec fn each_once(m: Multiset<u32>) -> bool {
    forall|id: u32|
        #[trigger] m.count(id) == if id < POOL_TOTAL {
            1nat
        } else {
            0nat
        }
}

/// The buffers of a list are in a state, with a number of sends in flight.
pub open spec fn all_in(p: PoolView, ids: Seq<u32>, state: BufState, sends: u32) -> bool {
    forall|k: int|
        0 <= k < ids.len() ==> p.states[(#[trigger] ids[k]) as int] == state && p.inflight[ids[k] as int]
            == sends
}

/// The lists of a connection agree with the pool, a closing connection has
/// nothing left to send, and the measure counts what is outstanding.
pub open spec fn agrees(p: PoolView, c: ConnView) -> bool {
    &&& c.wf()
    &&& all_in(p, c.provided, BufState::InGroup, 0)
    &&& all_in(p, c.to_send, BufState::Owned, 0)
    &&& all_in(p, c.in_kernel, BufState::InKernel, 1)
    &&& c.closing ==> c.to_send.len() == 0
    &&& c.outstanding == c.to_send.len() + c.in_kernel.len()
}

/// The modern datapath is sound: every buffer is in exactly one place, and
/// every list agrees with the pool.
pub open spec fn sound(s: PathView) -> bool {
    &&& !s.legacy
    &&& s.pool.wf()
    &&& s.conns.len() == CONN_CAP
    &&& each_once(everywhere(s))
    &&& all_in(s.pool, s.pool.free, BufState::Free, 0)
    &&& forall|i: int| #[trigger] s.is_open(i) ==> agrees(s.pool, s.at(i))
    &&& slots_sound(s)
}

/// Only empty slots are free, each listed once.
pub open spec fn slots_sound(s: PathView) -> bool {
    &&& s.free_slots.no_duplicates()
    &&& forall|k: int|
        0 <= k < s.free_slots.len() ==> (#[trigger] s.free_slots[k]) < CONN_CAP && !s.is_open(
            s.free_slots[k] as int,
        )
}

/// What the kernel may report of connection operations while the datapath
/// is sound: a receive fills a buffer of the connection's own group, a send
/// reports on a buffer that is being sent. Left out are the rejection of
/// multishot receives, and on a closing connection new data and sends that
/// did not take all bytes.
pub open spec fn conforms(s: PathView, c: Completed) -> bool {
    let kind = uring_pool::kind_of(c.token);
    let i = s.slot_of(uring_pool::object_of(c.token));
    let j = uring_pool::send_slot(c.token) as int;
    let id = uring_pool::send_buffer(c.token);
    &&& s.knows(c.token)
    &&& kind == uring_pool::KIND_TCP_READ && s.is_open(i) ==> match c.res {
        Outcome::Done(n) => n > 0 && uring_pool::has_buffer(c.flags) && uring_pool::buffer_id(
            c.flags,
        ) < POOL_TOTAL ==> s.at(i).provided.contains(uring_pool::buffer_id(c.flags)) && !s.at(
            i,
        ).closing,
        Outcome::Failed(e) => e != EINVAL && e != EOPNOTSUPP,
    }
    &&& kind == uring_pool::KIND_TCP_SEND ==> !uring_pool::is_notif(c.flags)
    &&& kind == uring_pool::KIND_TCP_SEND && s.is_open(j) ==> s.at(j).in_kernel.contains(id)
        && match c.res {
        Outcome::Done(n) => s.at(j).closing ==> n > 0 && n >= s.pool.metas[id as int].len,
        Outcome::Failed(e) => s.at(j).closing ==> e != uring::EAGAIN,
    }
}

// ---------------------------------------------------------------------
// Counting
// ---------------------------------------------------------------------

proof fn lemma_slot_counted(conns: Seq<Option<ConnView>>, i: int, id: u32)
    requires
        0 <= i < conns.len(),
    ensures
        held_by_all(conns).count(id) >= held_in(conns[i]).count(id),
    decreases conns.len(),
{
    if i < conns.len() - 1 {
        lemma_slot_counted(conns.drop_last(), i, id);
        assert(conns.drop_last()[i] == conns[i]);
    }
}

proof fn lemma_two_slots_counted(conns: Seq<Option<ConnView>>, i: int, j: int, id: u32)
    requires
        0 <= i < j < conns.len(),
    ensures
        held_by_all(conns).count(id) >= held_in(conns[i]).count(id) + held_in(conns[j]).count(id),
    decreases conns.len(),
{
    if j < conns.len() - 1 {
        lemma_two_slots_counted(conns.drop_last(), i, j, id);
        assert(conns.drop_last()[i] == conns[i]);
        assert(conns.drop_last()[j] == conns[j]);
    } else {
        lemma_slot_counted(conns.drop_last(), i, id);
        assert(conns.drop_last()[i] == conns[i]);
    }
}

/// Replacing what one slot holds changes the whole by the difference.
proof fn lemma_slot_replaced(conns: Seq<Option<ConnView>>, i: int, c: Option<ConnView>, id: u32)
    requires
        0 <= i < conns.len(),
    ensures
        held_by_all(conns.update(i, c)).count(id) + held_in(conns[i]).count(id) == held_by_all(
            conns,
        ).count(id) + held_in(c).count(id),
    decreases conns.len(),
{
    let next = conns.update(i, c);
    if i == conns.len() - 1 {
        assert(next.drop_last() =~= conns.drop_last());
    } else {
        lemma_slot_replaced(conns.drop_last(), i, c, id);
        assert(next.drop_last() =~= conns.drop_last().update(i, c));
        assert(conns.drop_last()[i] == conns[i]);
    }
}

/// What changes hands between the free list and one slot is conserved.
proof fn lemma_balance(s: PathView, t: PathView, i: int)
    requires
        0 <= i < s.conns.len(),
        t.conns == s.conns.update(i, t.conns[i]),
        forall|id: u32|
            #[trigger] t.pool.free.to_multiset().count(id) + held_in(t.conns[i]).count(id)
                == s.pool.free.to_multiset().count(id) + held_in(s.conns[i]).count(id),
        each_once(everywhere(s)),
    ensures
        each_once(everywhere(t)),
{
    assert forall|id: u32|
        #[trigger] everywhere(t).count(id) == if id < POOL_TOTAL {
            1nat
        } else {
            0nat
        } by {
        lemma_slot_replaced(s.conns, i, t.conns[i], id);
        assert(everywhere(s).count(id) == if id < POOL_TOTAL {
            1nat
        } else {
            0nat
        });
        assert(t.pool.free.to_multiset().count(id) + held_in(t.conns[i]).count(id)
            == s.pool.free.to_multiset().count(id) + held_in(s.conns[i]).count(id));
    }
}

/// A buffer in one place is in no other.
proof fn lemma_alone(s: PathView, i: int, id: u32)
    requires
        sound(s),
        s.is_open(i),
        held(s.at(i)).count(id) >= 1,
    ensures
        held(s.at(i)).count(id) == 1,
        id < POOL_TOTAL,
        s.pool.free.to_multiset().count(id) == 0,
        forall|j: int| #[trigger] s.is_open(j) && j != i ==> held(s.at(j)).count(id) == 0,
{
    lemma_slot_counted(s.conns, i, id);
    assert(everywhere(s).count(id) == if id < POOL_TOTAL {
        1nat
    } else {
        0nat
    });
    assert forall|j: int| #[trigger] s.is_open(j) && j != i implies held(s.at(j)).count(
        id,
    ) == 0 by {
        if i < j {
            lemma_two_slots_counted(s.conns, i, j, id);
        } else {
            lemma_two_slots_counted(s.conns, j, i, id);
        }
    }
}

/// A free buffer is in no connection, and once in the free list.
proof fn lemma_free_alone(s: PathView, id: u32)
    requires
        sound(s),
        s.pool.free.contains(id),
    ensures
        s.pool.free.to_multiset().count(id) == 1,
        forall|j: int| #[trigger] s.is_open(j) ==> held(s.at(j)).count(id) == 0,
{
    broadcast use group_to_multiset_ensures;

    assert(s.pool.free.to_multiset().count(id) >= 1);
    assert(everywhere(s).count(id) == if id < POOL_TOTAL {
        1nat
    } else {
        0nat
    });
    assert forall|j: int| #[trigger] s.is_open(j) implies held(s.at(j)).count(id) == 0 by {
        lemma_slot_counted(s.conns, j, id);
    }
}

/// A list in which an id does not count does not hold it.
proof fn lemma_not_listed(ids: Seq<u32>, id: u32)
    requires
        ids.to_multiset().count(id) == 0,
    ensures
        forall|k: int| 0 <= k < ids.len() ==> #[trigger] ids[k] != id,
{
    broadcast use group_to_multiset_ensures;

    assert forall|k: int| 0 <= k < ids.len() implies #[trigger] ids[k] != id by {
        if ids[k] == id {
            assert(ids.contains(id));
        }
    }
}

/// The pools differ at one buffer only.
pub open spec fn same_but(p: PoolView, q: PoolView, id: u32) -> bool {
    &&& p.states.len() == q.states.len()
    &&& p.inflight.len() == q.inflight.len()
    &&& forall|k: int|
        0 <= k < POOL_TOTAL && k != id ==> #[trigger] q.states[k] == p.states[k] && q.inflight[k]
            == p.inflight[k]
}

proof fn lemma_list_unaffected(
    p: PoolView,
    q: PoolView,
    ids: Seq<u32>,
    state: BufState,
    sends: u32,
    id: u32,
)
    requires
        all_in(p, ids, state, sends),
        same_but(p, q, id),
        uring_pool::in_pool(ids),
        ids.to_multiset().count(id) == 0,
    ensures
        all_in(q, ids, state, sends),
{
    lemma_not_listed(ids, id);
    assert forall|k: int| 0 <= k < ids.len() implies q.states[(#[trigger] ids[k]) as int] == state
        && q.inflight[ids[k] as int] == sends by {
        assert(q.states[ids[k] as int] == p.states[ids[k] as int]);
    }
}

/// A connection that does not hold the buffer still agrees.
proof fn lemma_unaffected(p: PoolView, q: PoolView, c: ConnView, id: u32)
    requires
        agrees(p, c),
        same_but(p, q, id),
        held(c).count(id) == 0,
    ensures
        agrees(q, c),
{
    lemma_list_unaffected(p, q, c.provided, BufState::InGroup, 0, id);
    lemma_list_unaffected(p, q, c.to_send, BufState::Owned, 0, id);
    lemma_list_unaffected(p, q, c.in_kernel, BufState::InKernel, 1, id);
}

/// Nothing that soundness speaks of changed.
pub open spec fn same_books(s: PathView, t: PathView) -> bool {
    t.legacy == s.legacy && t.pool == s.pool && t.conns == s.conns && t.free_slots == s.free_slots
}

proof fn lemma_same_books(s: PathView, t: PathView)
    requires
        sound(s),
        same_books(s, t),
    ensures
        sound(t),
{
    assert forall|i: int| #[trigger] t.is_open(i) implies agrees(t.pool, t.at(i)) by {
        assert(s.is_open(i));
    }
    assert forall|k: int| 0 <= k < t.free_slots.len() implies (#[trigger] t.free_slots[k])
        < CONN_CAP && !t.is_open(t.free_slots[k] as int) by {
        assert(s.free_slots[k] < CONN_CAP && !s.is_open(s.free_slots[k] as int));
    }
}

/// Only flags of one connection changed.
proof fn lemma_flags(s: PathView, t: PathView, i: int)
    requires
        sound(s),
        s.is_open(i),
        t.legacy == s.legacy,
        t.pool == s.pool,
        t.free_slots == s.free_slots,
        t.conns == s.conns.update(i, t.conns[i]),
        t.conns[i] is Some,
        t.at(i).provided == s.at(i).provided,
        t.at(i).to_send == s.at(i).to_send,
        t.at(i).in_kernel == s.at(i).in_kernel,
        t.at(i).outstanding == s.at(i).outstanding,
        t.at(i).closing ==> s.at(i).closing || s.at(i).to_send.len() == 0,
    ensures
        sound(t),
{
    assert(held(t.at(i)) == held(s.at(i)));
    lemma_balance(s, t, i);
    assert forall|j: int| #[trigger] t.is_open(j) implies agrees(t.pool, t.at(j)) by {
        assert(s.is_open(j));
        assert(agrees(s.pool, s.at(i)));
    }
    lemma_slots_kept(s, t, i);
}

proof fn lemma_slots_kept(s: PathView, t: PathView, i: int)
    requires
        slots_sound(s),
        s.is_open(i),
        t.free_slots == s.free_slots,
        t.conns == s.conns.update(i, t.conns[i]),
    ensures
        slots_sound(t),
{
    assert forall|k: int| 0 <= k < t.free_slots.len() implies (#[trigger] t.free_slots[k])
        < CONN_CAP && !t.is_open(t.free_slots[k] as int) by {
        assert(s.free_slots[k] < CONN_CAP && !s.is_open(s.free_slots[k] as int));
    }
}

/// One buffer moved within connection `i`, or between it and the free list.
proof fn lemma_moved(s: PathView, t: PathView, i: int, id: u32)
    requires
        sound(s),
        s.is_open(i),
        t.legacy == s.legacy,
        t.free_slots == s.free_slots,
        t.conns == s.conns.update(i, t.conns[i]),
        t.conns[i] is Some,
        t.pool.wf(),
        same_but(s.pool, t.pool, id),
        held(s.at(i)).count(id) >= 1 || s.pool.free.contains(id),
        forall|x: u32|
            #[trigger] t.pool.free.to_multiset().count(x) + held(t.at(i)).count(x)
                == s.pool.free.to_multiset().count(x) + held(s.at(i)).count(x),
        all_in(t.pool, t.pool.free, BufState::Free, 0),
        agrees(t.pool, t.at(i)),
    ensures
        sound(t),
{
    lemma_balance(s, t, i);
    assert forall|j: int| #[trigger] t.is_open(j) implies agrees(t.pool, t.at(j)) by {
        if j != i {
            assert(s.is_open(j));
            if held(s.at(i)).count(id) >= 1 {
                lemma_alone(s, i, id);
            } else {
                lemma_free_alone(s, id);
            }
            assert(held(s.at(j)).count(id) == 0);
            lemma_unaffected(s.pool, t.pool, s.at(j), id);
        }
    }
    lemma_slots_kept(s, t, i);
}

// ---------------------------------------------------------------------
// Lists
// ---------------------------------------------------------------------

proof fn lemma_popped_front(ids: Seq<u32>, x: u32)
    requires
        ids.len() > 0,
    ensures
        ids.to_multiset().count(x) == ids.skip(1).to_multiset().count(x) + if x == ids[0] {
            1nat
        } else {
            0nat
        },
{
    broadcast use group_to_multiset_ensures;

    assert(ids.skip(1) =~= ids.remove(0));
    assert(ids.contains(ids[0]));
}

proof fn lemma_popped_back(ids: Seq<u32>, x: u32)
    requires
        ids.len() > 0,
    ensures
        ids.to_multiset().count(x) == ids.drop_last().to_multiset().count(x) + if x
            == ids.last() {
            1nat
        } else {
            0nat
        },
{
    broadcast use group_to_multiset_ensures;

    assert(ids.drop_last() =~= ids.remove(ids.len() - 1));
    assert(ids.contains(ids[ids.len() - 1]));
}

proof fn lemma_pushed(ids: Seq<u32>, y: u32, x: u32)
    ensures
        ids.push(y).to_multiset().count(x) == ids.to_multiset().count(x) + if x == y {
            1nat
        } else {
            0nat
        },
{
    broadcast use group_to_multiset_ensures;

}

proof fn lemma_pushed_front(ids: Seq<u32>, y: u32, x: u32)
    ensures
        (seq![y] + ids).to_multiset().count(x) == ids.to_multiset().count(x) + if x == y {
            1nat
        } else {
            0nat
        },
{
    let s = seq![y] + ids;
    lemma_popped_front(s, x);
    assert(s.skip(1) =~= ids);
}

proof fn lemma_filtered(ids: Seq<u32>, y: u32, x: u32)
    ensures
        uring_pool::without(ids, y).to_multiset().count(x) == if x == y {
            0nat
        } else {
            ids.to_multiset().count(x)
        },
    decreases ids.len(),
{
    reveal(Seq::filter);
    if ids.len() == 0 {
        assert(uring_pool::without(ids, y) =~= ids);
        broadcast use group_to_multiset_ensures;

    } else {
        let rest = ids.drop_last();
        lemma_filtered(rest, y, x);
        lemma_popped_back(ids, x);
        if ids.last() != y {
            assert(uring_pool::without(ids, y) == uring_pool::without(rest, y).push(ids.last()));
            lemma_pushed(uring_pool::without(rest, y), ids.last(), x);
        } else {
            assert(uring_pool::without(ids, y) == uring_pool::without(rest, y));
        }
    }
}

/// Every item of the filtered list is one of the list.
proof fn lemma_filtered_from(ids: Seq<u32>, y: u32)
    ensures
        forall|k: int|
            0 <= k < uring_pool::without(ids, y).len() ==> ids.contains(
                #[trigger] uring_pool::without(ids, y)[k],
            ) && uring_pool::without(ids, y)[k] != y,
    decreases ids.len(),
{
    reveal(Seq::filter);
    if ids.len() > 0 {
        let rest = ids.drop_last();
        let kept = uring_pool::without(ids, y);
        lemma_filtered_from(rest, y);
        assert forall|k: int| 0 <= k < kept.len() implies ids.contains(#[trigger] kept[k])
            && kept[k] != y by {
            if k < uring_pool::without(rest, y).len() {
                assert(kept[k] == uring_pool::without(rest, y)[k]);
                assert(rest.contains(kept[k]));
                let m = choose|m: int| 0 <= m < rest.len() && rest[m] == kept[k];
                assert(ids[m] == kept[k]);
            } else {
                assert(kept[k] == ids[ids.len() - 1]);
            }
        }
    }
}

/// The length of the filtered list, when the id occurred once.
proof fn lemma_filtered_len(ids: Seq<u32>, y: u32)
    ensures
        uring_pool::without(ids, y).len() + ids.to_multiset().count(y) == ids.len(),
    decreases ids.len(),
{
    reveal(Seq::filter);
    if ids.len() == 0 {
        broadcast use group_to_multiset_ensures;

        assert(uring_pool::without(ids, y) =~= ids);
    } else {
        lemma_filtered_len(ids.drop_last(), y);
        lemma_popped_back(ids, y);
    }
}

proof fn lemma_swapped_out(ids: Seq<u32>, y: u32, x: u32)
    requires
        ids.contains(y),
    ensures
        uring_pool::swap_removed(ids, y).len() == ids.len() - 1,
        ids.to_multiset().count(x) == uring_pool::swap_removed(ids, y).to_multiset().count(x)
            + if x == y {
            1nat
        } else {
            0nat
        },
        forall|k: int|
            0 <= k < uring_pool::swap_removed(ids, y).len() ==> ids.contains(
                #[trigger] uring_pool::swap_removed(ids, y)[k],
            ),
{
    broadcast use group_to_multiset_ensures;

    uring_pool::lemma_first_index(ids, y);
    let i = uring_pool::first_index(ids, y);
    let r = uring_pool::swap_removed(ids, y);
    if i == ids.len() - 1 {
        assert(r =~= ids.remove(i));
    } else {
        let a = ids.remove(i);
        assert(a.last() == ids.last());
        assert(r =~= a.drop_last().insert(i, ids.last()));
        assert(a =~= a.drop_last().push(ids.last()));
        assert(r.to_multiset() =~= a.to_multiset());
    }
    assert forall|k: int| 0 <= k < r.len() implies ids.contains(#[trigger] r[k]) by {
        if k == i {
            assert(ids[ids.len() - 1] == r[k]);
        } else {
            assert(ids[k] == r[k]);
        }
    }
}

/// A list that draws on another shares its state.
proof fn lemma_drawn(p: PoolView, from: Seq<u32>, ids: Seq<u32>, state: BufState, sends: u32)
    requires
        all_in(p, from, state, sends),
        uring_pool::in_pool(from),
        forall|k: int| 0 <= k < ids.len() ==> from.contains(#[trigger] ids[k]),
    ensures
        all_in(p, ids, state, sends),
        uring_pool::in_pool(ids),
{
    assert forall|k: int| 0 <= k < ids.len() implies p.states[(#[trigger] ids[k]) as int] == state
        && p.inflight[ids[k] as int] == sends && ids[k] < POOL_TOTAL by {
        assert(from.contains(ids[k]));
        let m = choose|m: int| 0 <= m < from.len() && from[m] == ids[k];
        assert(p.states[from[m] as int] == state);
    }
}

// ---------------------------------------------------------------------
// Transitions
// ---------------------------------------------------------------------

/// A connection never holds more buffers than the pool has.
proof fn lemma_outstanding_bounded(s: PathView, i: int)
    requires
        sound(s),
        s.is_open(i),
    ensures
        s.at(i).to_send.len() + s.at(i).in_kernel.len() <= POOL_TOTAL,
        s.at(i).outstanding <= POOL_TOTAL,
{
    broadcast use group_to_multiset_ensures;

    let c = s.at(i);
    let q = c.to_send + c.in_kernel;
    vstd::seq_lib::lemma_multiset_commutative(c.to_send, c.in_kernel);
    assert forall|x: u32| q.to_multiset().contains(x) implies q.to_multiset().count(x) == 1 by {
        assert(held(c).count(x) >= 1);
        lemma_alone(s, i, x);
    }
    q.lemma_multiset_has_no_duplicates_conv();
    assert(uring_pool::in_pool(q));
    let ints = q.map_values(|x: u32| x as int);
    assert(ints.no_duplicates());
    ints.unique_seq_to_set();
    let range = vstd::set_lib::set_int_range(0, POOL_TOTAL as int);
    vstd::set_lib::lemma_int_range(0, POOL_TOTAL as int);
    assert(ints.to_set().subset_of(range)) by {
        assert forall|x: int| ints.to_set().contains(x) implies range.contains(x) by {
            let k = choose|k: int| 0 <= k < ints.len() && ints[k] == x;
            assert(q[k] < POOL_TOTAL);
        }
    }
    vstd::set_lib::lemma_len_subset(ints.to_set(), range);
}

/// In which list of a connection a buffer counts.
proof fn lemma_counted_once(s: PathView, i: int, id: u32)
    requires
        sound(s),
        s.is_open(i),
        s.at(i).provided.contains(id) || s.at(i).to_send.contains(id) || s.at(
            i,
        ).in_kernel.contains(id),
    ensures
        held(s.at(i)).count(id) == 1,
        id < POOL_TOTAL,
        s.pool.free.to_multiset().count(id) == 0,
        s.at(i).provided.contains(id) ==> s.at(i).provided.to_multiset().count(id) == 1 && s.at(
            i,
        ).to_send.to_multiset().count(id) == 0 && s.at(i).in_kernel.to_multiset().count(id) == 0,
        s.at(i).to_send.contains(id) ==> s.at(i).provided.to_multiset().count(id) == 0 && s.at(
            i,
        ).to_send.to_multiset().count(id) == 1 && s.at(i).in_kernel.to_multiset().count(id) == 0,
        s.at(i).in_kernel.contains(id) ==> s.at(i).provided.to_multiset().count(id) == 0 && s.at(
            i,
        ).to_send.to_multiset().count(id) == 0 && s.at(i).in_kernel.to_multiset().count(id) == 1,
{
    broadcast use group_to_multiset_ensures;

    assert(held(s.at(i)).count(id) >= 1);
    lemma_alone(s, i, id);
}

proof fn lemma_send_step(s: PathView, i: int)
    requires
        sound(s),
        s.is_open(i),
        !s.at(i).closing,
        s.at(i).to_send.len() > 0,
    ensures
        ({
            let c = s.at(i);
            let id = c.to_send[0];
            sound(
                PathView {
                    pool: s.pool.submit_zc(id),
                    ..s.with(
                        i,
                        ConnView {
                            to_send: c.to_send.skip(1),
                            in_kernel: c.in_kernel.push(id),
                            ..c
                        },
                    )
                },
            )
        }),
{
    let c = s.at(i);
    let id = c.to_send[0];
    let d = ConnView { to_send: c.to_send.skip(1), in_kernel: c.in_kernel.push(id), ..c };
    let t = PathView { pool: s.pool.submit_zc(id), ..s.with(i, d) };
    assert(agrees(s.pool, c));
    assert(c.to_send.contains(id));
    lemma_counted_once(s, i, id);
    lemma_popped_front(c.to_send, id);
    assert forall|k: int| 0 <= k < d.to_send.len() implies c.to_send.contains(
        #[trigger] d.to_send[k],
    ) by {
        assert(c.to_send[k + 1] == d.to_send[k]);
    }
    lemma_drawn(s.pool, c.to_send, d.to_send, BufState::Owned, 0);
    lemma_list_unaffected(s.pool, t.pool, c.provided, BufState::InGroup, 0, id);
    lemma_list_unaffected(s.pool, t.pool, d.to_send, BufState::Owned, 0, id);
    lemma_list_unaffected(s.pool, t.pool, c.in_kernel, BufState::InKernel, 1, id);
    lemma_list_unaffected(s.pool, t.pool, s.pool.free, BufState::Free, 0, id);
    assert(s.pool.inflight[id as int] == 0);
    assert(all_in(t.pool, d.in_kernel, BufState::InKernel, 1)) by {
        assert forall|k: int| 0 <= k < d.in_kernel.len() implies t.pool.states[(
        #[trigger] d.in_kernel[k]) as int] == BufState::InKernel && t.pool.inflight[d.in_kernel[k] as int]
            == 1 by {
            if k < c.in_kernel.len() {
                assert(d.in_kernel[k] == c.in_kernel[k]);
            }
        }
    }
    assert(agrees(t.pool, d));
    assert forall|x: u32|
        #[trigger] t.pool.free.to_multiset().count(x) + held(d).count(x)
            == s.pool.free.to_multiset().count(x) + held(c).count(x) by {
        lemma_popped_front(c.to_send, x);
        lemma_pushed(c.in_kernel, id, x);
    }
    lemma_moved(s, t, i, id);
}

proof fn lemma_flushed(s: PathView, i: int)
    requires
        sound(s),
    ensures
        sound(s.flushed(i)),
    decreases s.at(i).to_send.len(),
{
    if !s.is_open(i) || s.at(i).closing || s.at(i).to_send.len() == 0 {
    } else if !s.has_room() {
        lemma_same_books(s, s.submit());
    } else {
        let c = s.at(i);
        let id = c.to_send[0];
        let meta = s.pool.metas[id as int];
        lemma_send_step(s, i);
        let moved = PathView {
            pool: s.pool.submit_zc(id),
            ..s.with(
                i,
                ConnView { to_send: c.to_send.skip(1), in_kernel: c.in_kernel.push(id), ..c },
            )
        };
        let queued = moved.push(
            uring::Op::Send { fd: c.fd, id, off: meta.off, len: meta.len, slot: i as usize },
        );
        lemma_same_books(moved, queued);
        if s.queued >= uring::FLUSH_AT {
            lemma_same_books(queued, queued.submit());
            lemma_flushed(queued.submit(), i);
        } else {
            lemma_flushed(queued, i);
        }
    }
}

proof fn lemma_provide_step(s: PathView, i: int)
    requires
        sound(s),
        s.is_open(i),
        s.pool.free.len() > 0,
    ensures
        ({
            let c = s.at(i);
            let id = s.pool.free.last();
            sound(
                PathView {
                    pool: s.pool.take_free(),
                    ..s.with(i, ConnView { provided: c.provided.push(id), ..c })
                },
            )
        }),
{
    let c = s.at(i);
    let id = s.pool.free.last();
    let d = ConnView { provided: c.provided.push(id), ..c };
    let t = PathView { pool: s.pool.take_free(), ..s.with(i, d) };
    assert(agrees(s.pool, c));
    assert(s.pool.free[s.pool.free.len() - 1] == id);
    assert(s.pool.free.contains(id));
    lemma_free_alone(s, id);
    assert(held(c).count(id) == 0);
    lemma_popped_back(s.pool.free, id);
    assert forall|k: int| 0 <= k < t.pool.free.len() implies s.pool.free.contains(
        #[trigger] t.pool.free[k],
    ) by {
        assert(s.pool.free[k] == t.pool.free[k]);
    }
    lemma_drawn(s.pool, s.pool.free, t.pool.free, BufState::Free, 0);
    lemma_list_unaffected(s.pool, t.pool, t.pool.free, BufState::Free, 0, id);
    lemma_list_unaffected(s.pool, t.pool, c.provided, BufState::InGroup, 0, id);
    lemma_list_unaffected(s.pool, t.pool, c.to_send, BufState::Owned, 0, id);
    lemma_list_unaffected(s.pool, t.pool, c.in_kernel, BufState::InKernel, 1, id);
    assert(all_in(t.pool, d.provided, BufState::InGroup, 0)) by {
        assert forall|k: int| 0 <= k < d.provided.len() implies t.pool.states[(
        #[trigger] d.provided[k]) as int] == BufState::InGroup && t.pool.inflight[d.provided[k] as int]
            == 0 by {
            if k < c.provided.len() {
                assert(d.provided[k] == c.provided[k]);
            }
        }
    }
    assert forall|x: u32|
        #[trigger] t.pool.free.to_multiset().count(x) + held(d).count(x)
            == s.pool.free.to_multiset().count(x) + held(c).count(x) by {
        lemma_popped_back(s.pool.free, x);
        lemma_pushed(c.provided, id, x);
    }
    lemma_moved(s, t, i, id);
}

proof fn lemma_provided(s: PathView, i: int, n: nat)
    requires
        sound(s),
        s.is_open(i),
    ensures
        sound(s.provided(i, n).0),
        s.provided(i, n).0.is_open(i),
    decreases n,
{
    if n > 0 && s.pool.free.len() > 0 {
        let c = s.at(i);
        let id = s.pool.free.last();
        lemma_provide_step(s, i);
        let taken = PathView {
            pool: s.pool.take_free(),
            ..s.with(i, ConnView { provided: c.provided.push(id), ..c })
        };
        if taken.has_room() {
            let queued = taken.push(uring::Op::Provide { id, group: i as usize });
            lemma_same_books(taken, queued);
            lemma_provided(queued, i, (n - 1) as nat);
        }
    }
}

proof fn lemma_armed(s: PathView, i: int)
    requires
        sound(s),
    ensures
        sound(s.armed(i).0),
{
    if s.is_open(i) && !s.at(i).recv_armed && !s.at(i).closing && s.has_room() {
        lemma_flags(s, s.with(i, ConnView { recv_armed: true, ..s.at(i) }), i);
        lemma_same_books(s.with(i, ConnView { recv_armed: true, ..s.at(i) }), s.armed(i).0);
    }
}

proof fn lemma_resumed(s: PathView, i: int)
    requires
        sound(s),
    ensures
        sound(s.resumed(i).0),
{
    if s.is_open(i) {
        lemma_provided(s, i, INIT_PROVIDE as nat);
        lemma_armed(s.provided(i, INIT_PROVIDE as nat).0, i);
    }
}

proof fn lemma_group_drained(s: PathView, i: int)
    requires
        sound(s),
    ensures
        sound(s.group_drained(i).0),
{
    if s.is_open(i) {
        let t = s.with(i, ConnView { draining: true, ..s.at(i) });
        lemma_flags(s, t, i);
        lemma_same_books(
            t,
            t.push(
                uring::Op::RemoveBuffers {
                    count: s.at(i).provided.len() as u16,
                    slot: i as usize,
                },
            ),
        );
    }
}

proof fn lemma_finished(s: PathView, i: int)
    requires
        sound(s),
    ensures
        sound(s.finished(i)),
{
    let t = s.finished(i);
    if t.conns != s.conns {
        broadcast use group_to_multiset_ensures;

        let c = s.at(i);
        assert(agrees(s.pool, c));
        assert(held(c) =~= Multiset::empty());
        lemma_balance(s, t, i);
        assert forall|j: int| #[trigger] t.is_open(j) implies agrees(t.pool, t.at(j)) by {
            assert(s.is_open(j));
        }
        assert(slots_sound(t)) by {
            assert forall|k: int| 0 <= k < t.free_slots.len() implies (#[trigger] t.free_slots[k])
                < CONN_CAP && !t.is_open(t.free_slots[k] as int) by {
                if k < s.free_slots.len() {
                    assert(s.free_slots[k] < CONN_CAP && !s.is_open(s.free_slots[k] as int));
                }
            }
            assert forall|a: int, b: int|
                0 <= a < t.free_slots.len() && 0 <= b < t.free_slots.len() && a
                    != b implies t.free_slots[a] != t.free_slots[b] by {
                if a < s.free_slots.len() {
                    assert(!s.is_open(s.free_slots[a] as int));
                }
                if b < s.free_slots.len() {
                    assert(!s.is_open(s.free_slots[b] as int));
                }
            }
        }
    } else {
        if s.is_open(i) && s.at(i).closing && !s.at(i).recv_armed && s.at(i).provided.len() == 0
            && s.at(i).in_kernel.len() == 0 {
            assert(t.conns[i] is None);
        }
    }
}

proof fn lemma_wound_up(s: PathView, i: int)
    requires
        sound(s),
    ensures
        sound(s.wound_up(i).0),
{
    lemma_group_drained(s, i);
    lemma_finished(s.group_drained(i).0, i);
}

/// The front of the send queue of a connection returned to the pool.
proof fn lemma_release_step(s: PathView, i: int)
    requires
        sound(s),
        s.is_open(i),
        s.at(i).to_send.len() > 0,
    ensures
        s.pool.inflight[s.at(i).to_send[0] as int] == 0,
        sound(
            PathView {
                pool: s.pool.give_back(s.at(i).to_send[0]),
                ..s.with(
                    i,
                    ConnView {
                        to_send: s.at(i).to_send.skip(1),
                        outstanding: s.at(i).outstanding.saturating_sub(1),
                        ..s.at(i)
                    },
                )
            },
        ),
{
    let c = s.at(i);
    let id = c.to_send[0];
    let d = ConnView {
        to_send: c.to_send.skip(1),
        outstanding: c.outstanding.saturating_sub(1),
        ..c
    };
    let t = PathView { pool: s.pool.give_back(id), ..s.with(i, d) };
    assert(agrees(s.pool, c));
    assert(c.to_send.contains(id));
    lemma_counted_once(s, i, id);
    lemma_popped_front(c.to_send, id);
    assert forall|k: int| 0 <= k < d.to_send.len() implies c.to_send.contains(
        #[trigger] d.to_send[k],
    ) by {
        assert(c.to_send[k + 1] == d.to_send[k]);
    }
    lemma_drawn(s.pool, c.to_send, d.to_send, BufState::Owned, 0);
    lemma_list_unaffected(s.pool, t.pool, c.provided, BufState::InGroup, 0, id);
    lemma_list_unaffected(s.pool, t.pool, d.to_send, BufState::Owned, 0, id);
    lemma_list_unaffected(s.pool, t.pool, c.in_kernel, BufState::InKernel, 1, id);
    lemma_list_unaffected(s.pool, t.pool, s.pool.free, BufState::Free, 0, id);
    lemma_freed(s.pool, id);
    assert forall|x: u32|
        #[trigger] t.pool.free.to_multiset().count(x) + held(d).count(x)
            == s.pool.free.to_multiset().count(x) + held(c).count(x) by {
        lemma_popped_front(c.to_send, x);
        lemma_pushed(s.pool.free, id, x);
    }
    lemma_moved(s, t, i, id);
}

/// A settled buffer given back joins the free ones.
proof fn lemma_freed(p: PoolView, id: u32)
    requires
        p.wf(),
        id < POOL_TOTAL,
        p.inflight[id as int] == 0,
        all_in(p.give_back(id), p.free, BufState::Free, 0),
    ensures
        all_in(p.give_back(id), p.give_back(id).free, BufState::Free, 0),
        p.give_back(id).wf(),
{
    let q = p.give_back(id);
    assert forall|k: int| 0 <= k < q.free.len() implies q.states[(#[trigger] q.free[k]) as int]
        == BufState::Free && q.inflight[q.free[k] as int] == 0 && q.free[k] < POOL_TOTAL by {
        if k < p.free.len() {
            assert(q.free[k] == p.free[k]);
        }
    }
}

/// The whole send queue of a connection returned to the pool.
proof fn lemma_released(s: PathView, i: int)
    requires
        sound(s),
        s.is_open(i),
    ensures
        ({
            let (pool, outstanding) = uring::released(
                s.pool,
                s.at(i).to_send,
                s.at(i).outstanding,
            );
            sound(
                PathView {
                    pool,
                    ..s.with(
                        i,
                        ConnView { to_send: Seq::empty(), outstanding, ..s.at(i) },
                    )
                },
            )
        }),
    decreases s.at(i).to_send.len(),
{
    let c = s.at(i);
    let (pool, outstanding) = uring::released(s.pool, c.to_send, c.outstanding);
    let end = PathView {
        pool,
        ..s.with(i, ConnView { to_send: Seq::empty(), outstanding, ..c })
    };
    if c.to_send.len() == 0 {
        assert(c.to_send =~= Seq::empty());
        assert(end.conns =~= s.conns);
    } else {
        lemma_release_step(s, i);
        let t = PathView {
            pool: s.pool.give_back(c.to_send[0]),
            ..s.with(
                i,
                ConnView {
                    to_send: c.to_send.skip(1),
                    outstanding: c.outstanding.saturating_sub(1),
                    ..c
                },
            )
        };
        lemma_released(t, i);
        assert(end.conns =~= t.with(
            i,
            ConnView { to_send: Seq::empty(), outstanding, ..t.at(i) },
        ).conns);
    }
}

proof fn lemma_closed(s: PathView, i: int)
    requires
        sound(s),
    ensures
        sound(s.closed(i).0),
{
    if s.is_open(i) && !s.at(i).closing {
        let c = s.at(i);
        let (pool, outstanding) = uring::released(s.pool, c.to_send, c.outstanding);
        lemma_released(s, i);
        let r = PathView {
            pool,
            ..s.with(i, ConnView { to_send: Seq::empty(), outstanding, ..c })
        };
        let fd = if c.fd >= 0 {
            -1i32
        } else {
            c.fd
        };
        let a = PathView {
            pool,
            ..s.with(
                i,
                ConnView { closing: true, to_send: Seq::empty(), outstanding, fd, ..c },
            )
        };
        assert(a.conns =~= r.conns.update(i, a.conns[i]));
        lemma_flags(r, a, i);
        let b = if c.fd >= 0 {
            a.act(uring::Op::CloseFd { fd: c.fd })
        } else {
            a
        };
        lemma_same_books(a, b);
        lemma_finished(b, i);
        lemma_wound_up(b, i);
    }
}

proof fn lemma_fill_step(s: PathView, i: int, id: u32, off: u16, len: u16, d: ConnView)
    requires
        sound(s),
        s.is_open(i),
        !s.at(i).closing,
        s.at(i).provided.contains(id),
        !d.closing,
        d.provided == uring_pool::without(s.at(i).provided, id),
        d.to_send == s.at(i).to_send.push(id),
        d.in_kernel == s.at(i).in_kernel,
        d.outstanding == s.at(i).outstanding.wrapping_add(1),
    ensures
        sound(PathView { pool: s.pool.mark_owned(id, off, len), ..s.with(i, d) }),
{
    let c = s.at(i);
    let t = PathView { pool: s.pool.mark_owned(id, off, len), ..s.with(i, d) };
    assert(agrees(s.pool, c));
    lemma_outstanding_bounded(s, i);
    lemma_counted_once(s, i, id);
    lemma_filtered(c.provided, id, id);
    lemma_filtered_from(c.provided, id);
    lemma_drawn(s.pool, c.provided, d.provided, BufState::InGroup, 0);
    let k0 = choose|k: int| 0 <= k < c.provided.len() && c.provided[k] == id;
    assert(s.pool.inflight[c.provided[k0] as int] == 0);
    lemma_list_unaffected(s.pool, t.pool, d.provided, BufState::InGroup, 0, id);
    lemma_list_unaffected(s.pool, t.pool, c.to_send, BufState::Owned, 0, id);
    lemma_list_unaffected(s.pool, t.pool, c.in_kernel, BufState::InKernel, 1, id);
    lemma_list_unaffected(s.pool, t.pool, s.pool.free, BufState::Free, 0, id);
    assert(all_in(t.pool, d.to_send, BufState::Owned, 0)) by {
        assert forall|k: int| 0 <= k < d.to_send.len() implies t.pool.states[(
        #[trigger] d.to_send[k]) as int] == BufState::Owned && t.pool.inflight[d.to_send[k] as int]
            == 0 by {
            if k < c.to_send.len() {
                assert(d.to_send[k] == c.to_send[k]);
            }
        }
    }
    assert forall|x: u32|
        #[trigger] t.pool.free.to_multiset().count(x) + held(d).count(x)
            == s.pool.free.to_multiset().count(x) + held(c).count(x) by {
        lemma_filtered(c.provided, id, x);
        lemma_pushed(c.to_send, id, x);
    }
    lemma_moved(s, t, i, id);
}

proof fn lemma_buffered(s: PathView, i: int, id: u32, off: u16, len: u16, more: bool, now: u64)
    requires
        sound(s),
        s.is_open(i),
        !s.at(i).closing,
        s.at(i).provided.contains(id),
    ensures
        sound(s.buffered(i, id, off, len, more, now).0),
{
    let c = s.at(i);
    let outstanding = c.outstanding.wrapping_add(1);
    let armed = c.recv_armed && more;
    let pause = outstanding >= HWM_BUFS && armed;
    let d = ConnView {
        provided: uring_pool::without(c.provided, id),
        to_send: c.to_send.push(id),
        outstanding,
        recv_armed: armed && !(pause && s.has_room()),
        ..c
    };
    lemma_fill_step(s, i, id, off, len, d);
    let a = PathView { pool: s.pool.mark_owned(id, off, len), ..s.with(i, d) };
    let b = a.touched(i, len as u32, now).count(1, len as u64, 0);
    lemma_same_books(a, b);
    lemma_flushed(b, i);
    let e = b.push(uring::Op::CancelRecv { slot: i as usize }).submit();
    lemma_same_books(b, e);
    lemma_flushed(e, i);
}

proof fn lemma_return_step(s: PathView, i: int, id: u32)
    requires
        sound(s),
        s.is_open(i),
        s.at(i).provided.contains(id),
    ensures
        sound(
            PathView {
                pool: s.pool.give_back(id),
                ..s.with(
                    i,
                    ConnView { provided: uring_pool::without(s.at(i).provided, id), ..s.at(i) },
                )
            },
        ),
{
    let c = s.at(i);
    let d = ConnView { provided: uring_pool::without(c.provided, id), ..c };
    let t = PathView { pool: s.pool.give_back(id), ..s.with(i, d) };
    assert(agrees(s.pool, c));
    lemma_counted_once(s, i, id);
    lemma_filtered(c.provided, id, id);
    lemma_filtered_from(c.provided, id);
    lemma_drawn(s.pool, c.provided, d.provided, BufState::InGroup, 0);
    let k0 = choose|k: int| 0 <= k < c.provided.len() && c.provided[k] == id;
    assert(s.pool.inflight[c.provided[k0] as int] == 0);
    lemma_list_unaffected(s.pool, t.pool, d.provided, BufState::InGroup, 0, id);
    lemma_list_unaffected(s.pool, t.pool, c.to_send, BufState::Owned, 0, id);
    lemma_list_unaffected(s.pool, t.pool, c.in_kernel, BufState::InKernel, 1, id);
    lemma_list_unaffected(s.pool, t.pool, s.pool.free, BufState::Free, 0, id);
    lemma_freed(s.pool, id);
    assert forall|x: u32|
        #[trigger] t.pool.free.to_multiset().count(x) + held(d).count(x)
            == s.pool.free.to_multiset().count(x) + held(c).count(x) by {
        lemma_filtered(c.provided, id, x);
        lemma_pushed(s.pool.free, id, x);
    }
    lemma_moved(s, t, i, id);
}

proof fn lemma_received(s: PathView, i: int, c: Completed)
    requires
        sound(s),
        s.is_open(i) ==> match c.res {
            Outcome::Done(n) => n > 0 && uring_pool::has_buffer(c.flags)
                && uring_pool::buffer_id(c.flags) < POOL_TOTAL ==> s.at(i).provided.contains(
                uring_pool::buffer_id(c.flags),
            ) && !s.at(i).closing,
            Outcome::Failed(e) => e != EINVAL && e != EOPNOTSUPP,
        },
    ensures
        sound(s.received(i, c).0),
{
    reveal(PathView::received);
    if s.is_open(i) {
        let stopped = s.with(i, ConnView { recv_armed: false, ..s.at(i) });
        lemma_flags(s, stopped, i);
        match c.res {
            Outcome::Done(n) => {
                if n == 0 {
                    lemma_closed(stopped, i);
                } else if !uring_pool::has_buffer(c.flags) || uring_pool::buffer_id(c.flags)
                    >= POOL_TOTAL {
                    lemma_same_books(s, s.count(0, 0, 1));
                } else {
                    let id = uring_pool::buffer_id(c.flags);
                    match c.header.payload_in() {
                        None => {
                            lemma_return_step(s, i, id);
                            let t = PathView {
                                pool: s.pool.give_back(id),
                                ..s.with(
                                    i,
                                    ConnView {
                                        provided: uring_pool::without(s.at(i).provided, id),
                                        ..s.at(i)
                                    },
                                )
                            };
                            lemma_same_books(t, t.count(0, 0, 1));
                        },
                        Some((off, len)) => {
                            lemma_buffered(
                                s,
                                i,
                                id,
                                off,
                                len,
                                uring_pool::has_more(c.flags),
                                c.now,
                            );
                        },
                    }
                }
            },
            Outcome::Failed(e) => {
                if e == ECANCELED || e == ENOBUFS {
                    lemma_wound_up(stopped, i);
                    lemma_resumed(stopped, i);
                } else {
                    lemma_same_books(stopped, stopped.count(0, 0, 1));
                    lemma_closed(stopped.count(0, 0, 1), i);
                }
            },
        }
    }
}

proof fn lemma_requeued(s: PathView, i: int, id: u32, off: u16, len: u16)
    requires
        sound(s),
        s.is_open(i),
        !s.at(i).closing,
        s.at(i).in_kernel.contains(id),
    ensures
        sound(s.requeued(i, id, off, len)),
        s.requeued(i, id, off, len).is_open(i),
{
    let c = s.at(i);
    let t = s.requeued(i, id, off, len);
    let d = t.at(i);
    assert(agrees(s.pool, c));
    lemma_counted_once(s, i, id);
    lemma_swapped_out(c.in_kernel, id, id);
    lemma_pushed_front(c.to_send, id, id);
    let k0 = choose|k: int| 0 <= k < c.in_kernel.len() && c.in_kernel[k] == id;
    assert(s.pool.inflight[c.in_kernel[k0] as int] == 1);
    lemma_drawn(s.pool, c.in_kernel, d.in_kernel, BufState::InKernel, 1);
    lemma_list_unaffected(s.pool, t.pool, c.provided, BufState::InGroup, 0, id);
    lemma_list_unaffected(s.pool, t.pool, c.to_send, BufState::Owned, 0, id);
    lemma_list_unaffected(s.pool, t.pool, d.in_kernel, BufState::InKernel, 1, id);
    lemma_list_unaffected(s.pool, t.pool, s.pool.free, BufState::Free, 0, id);
    assert(all_in(t.pool, d.to_send, BufState::Owned, 0) && uring_pool::in_pool(d.to_send)) by {
        assert forall|k: int| 0 <= k < d.to_send.len() implies t.pool.states[(
        #[trigger] d.to_send[k]) as int] == BufState::Owned && t.pool.inflight[d.to_send[k] as int]
            == 0 && d.to_send[k] < POOL_TOTAL by {
            if k > 0 {
                assert(d.to_send[k] == c.to_send[k - 1]);
            }
        }
    }
    assert forall|x: u32|
        #[trigger] t.pool.free.to_multiset().count(x) + held(d).count(x)
            == s.pool.free.to_multiset().count(x) + held(c).count(x) by {
        lemma_swapped_out(c.in_kernel, id, x);
        lemma_pushed_front(c.to_send, id, x);
    }
    lemma_moved(s, t, i, id);
}

proof fn lemma_awaiting_write(s: PathView, i: int)
    requires
        sound(s),
        s.is_open(i),
    ensures
        sound(s.awaiting_write(i).0),
{
    if !s.at(i).poll_out && s.has_room() {
        let t = s.with(i, ConnView { poll_out: true, ..s.at(i) });
        lemma_flags(s, t, i);
        lemma_same_books(t, s.awaiting_write(i).0);
    }
}

proof fn lemma_send_ended(s: PathView, i: int, id: u32)
    requires
        sound(s),
        s.is_open(i),
        s.at(i).in_kernel.contains(id),
    ensures
        s.pool.recycles(id),
        sound(s.send_ended(i, id)),
        s.send_ended(i, id).is_open(i),
{
    let c = s.at(i);
    let t = s.send_ended(i, id);
    assert(agrees(s.pool, c));
    lemma_counted_once(s, i, id);
    let k0 = choose|k: int| 0 <= k < c.in_kernel.len() && c.in_kernel[k] == id;
    assert(s.pool.inflight[c.in_kernel[k0] as int] == 1);
    assert(s.pool.states[c.in_kernel[k0] as int] == BufState::InKernel);
    let d = t.at(i);
    lemma_filtered(c.in_kernel, id, id);
    lemma_filtered_from(c.in_kernel, id);
    lemma_filtered_len(c.in_kernel, id);
    lemma_drawn(s.pool, c.in_kernel, d.in_kernel, BufState::InKernel, 1);
    lemma_list_unaffected(s.pool, t.pool, c.provided, BufState::InGroup, 0, id);
    lemma_list_unaffected(s.pool, t.pool, c.to_send, BufState::Owned, 0, id);
    lemma_list_unaffected(s.pool, t.pool, d.in_kernel, BufState::InKernel, 1, id);
    lemma_list_unaffected(s.pool, t.pool, s.pool.free, BufState::Free, 0, id);
    lemma_freed(s.pool.cancel_zc(id), id);
    assert forall|x: u32|
        #[trigger] t.pool.free.to_multiset().count(x) + held(d).count(x)
            == s.pool.free.to_multiset().count(x) + held(c).count(x) by {
        lemma_filtered(c.in_kernel, id, x);
        lemma_pushed(s.pool.free, id, x);
    }
    lemma_moved(s, t, i, id);
}

proof fn lemma_relieved(s: PathView, i: int)
    requires
        sound(s),
    ensures
        sound(s.relieved(i).0),
{
    lemma_wound_up(s, i);
    lemma_resumed(s, i);
}

proof fn lemma_sent(s: PathView, c: Completed)
    requires
        sound(s),
        !uring_pool::is_notif(c.flags),
        ({
            let j = uring_pool::send_slot(c.token) as int;
            let id = uring_pool::send_buffer(c.token);
            s.is_open(j) ==> s.at(j).in_kernel.contains(id) && match c.res {
                Outcome::Done(n) => s.at(j).closing ==> n > 0 && n
                    >= s.pool.metas[id as int].len,
                Outcome::Failed(e) => s.at(j).closing ==> e != uring::EAGAIN,
            }
        }),
    ensures
        sound(s.sent(c).0),
{
    reveal(PathView::sent);
    let i = uring_pool::send_slot(c.token) as int;
    let id = uring_pool::send_buffer(c.token);
    if s.is_open(i) {
        let meta = s.pool.metas[id as int];
        match c.res {
            Outcome::Done(n) => {
                let t = s.count(0, n as u64, 0);
                lemma_same_books(s, t);
                assert(t.is_open(i) && t.at(i) == s.at(i));
                if n == 0 {
                    lemma_requeued(t, i, id, meta.off, meta.len);
                    lemma_awaiting_write(t.requeued(i, id, meta.off, meta.len), i);
                } else if n < meta.len {
                    lemma_requeued(t, i, id, (meta.off + n) as u16, (meta.len - n) as u16);
                    lemma_flushed(
                        t.requeued(i, id, (meta.off + n) as u16, (meta.len - n) as u16),
                        i,
                    );
                } else {
                    lemma_send_ended(t, i, id);
                    lemma_relieved(t.send_ended(i, id), i);
                }
            },
            Outcome::Failed(e) => {
                if e == uring::EAGAIN {
                    lemma_requeued(s, i, id, meta.off, meta.len);
                    lemma_awaiting_write(s.requeued(i, id, meta.off, meta.len), i);
                } else {
                    lemma_same_books(s, s.count(0, 0, 1));
                    lemma_closed(s.count(0, 0, 1), i);
                }
            },
        }
    }
}

proof fn lemma_take_back_step(s: PathView, i: int)
    requires
        sound(s),
        s.is_open(i),
        s.at(i).provided.len() > 0,
    ensures
        sound(
            PathView {
                pool: s.pool.give_back(s.at(i).provided[0]),
                ..s.with(i, ConnView { provided: s.at(i).provided.skip(1), ..s.at(i) })
            },
        ),
{
    let c = s.at(i);
    let id = c.provided[0];
    let d = ConnView { provided: c.provided.skip(1), ..c };
    let t = PathView { pool: s.pool.give_back(id), ..s.with(i, d) };
    assert(agrees(s.pool, c));
    assert(c.provided.contains(id));
    lemma_counted_once(s, i, id);
    lemma_popped_front(c.provided, id);
    assert forall|k: int| 0 <= k < d.provided.len() implies c.provided.contains(
        #[trigger] d.provided[k],
    ) by {
        assert(c.provided[k + 1] == d.provided[k]);
    }
    lemma_drawn(s.pool, c.provided, d.provided, BufState::InGroup, 0);
    lemma_list_unaffected(s.pool, t.pool, d.provided, BufState::InGroup, 0, id);
    lemma_list_unaffected(s.pool, t.pool, c.to_send, BufState::Owned, 0, id);
    lemma_list_unaffected(s.pool, t.pool, c.in_kernel, BufState::InKernel, 1, id);
    lemma_list_unaffected(s.pool, t.pool, s.pool.free, BufState::Free, 0, id);
    lemma_freed(s.pool, id);
    assert forall|x: u32|
        #[trigger] t.pool.free.to_multiset().count(x) + held(d).count(x)
            == s.pool.free.to_multiset().count(x) + held(c).count(x) by {
        lemma_popped_front(c.provided, x);
        lemma_pushed(s.pool.free, id, x);
    }
    lemma_moved(s, t, i, id);
}

proof fn lemma_group_returned(s: PathView, i: int, n: nat)
    requires
        sound(s),
        s.is_open(i),
        n <= s.at(i).provided.len(),
    ensures
        ({
            let t = PathView {
                pool: uring::all_given_back(s.pool, s.at(i).provided.take(n as int)),
                ..s.with(i, ConnView { provided: s.at(i).provided.skip(n as int), ..s.at(i) })
            };
            sound(t) && t.is_open(i)
        }),
    decreases n,
{
    let c = s.at(i);
    let t = PathView {
        pool: uring::all_given_back(s.pool, c.provided.take(n as int)),
        ..s.with(i, ConnView { provided: c.provided.skip(n as int), ..c })
    };
    if n == 0 {
        assert(c.provided.skip(0) =~= c.provided);
        assert(c.provided.take(0) =~= Seq::empty());
        assert(t.conns =~= s.conns);
        lemma_same_books(s, t);
    } else {
        let m = (n - 1) as nat;
        lemma_group_returned(s, i, m);
        let u = PathView {
            pool: uring::all_given_back(s.pool, c.provided.take(m as int)),
            ..s.with(i, ConnView { provided: c.provided.skip(m as int), ..c })
        };
        lemma_take_back_step(u, i);
        assert(c.provided.take(n as int).drop_last() =~= c.provided.take(m as int));
        assert(c.provided.skip(m as int).skip(1) =~= c.provided.skip(n as int));
        assert(c.provided.take(n as int).last() == c.provided.skip(m as int)[0]);
        let v = PathView {
            pool: u.pool.give_back(u.at(i).provided[0]),
            ..u.with(i, ConnView { provided: u.at(i).provided.skip(1), ..u.at(i) })
        };
        assert(v.conns =~= t.conns);
        lemma_same_books(v, t);
    }
}

proof fn lemma_taken_back(s: PathView, i: int, res: Outcome)
    requires
        sound(s),
    ensures
        sound(s.taken_back(i, res)),
{
    if s.is_open(i) {
        let c = s.at(i);
        let removed: int = match res {
            Outcome::Done(n) => n as int,
            Outcome::Failed(_) => 0,
        };
        let n = if removed < c.provided.len() {
            removed
        } else {
            c.provided.len() as int
        };
        lemma_group_returned(s, i, n as nat);
        let u = PathView {
            pool: uring::all_given_back(s.pool, c.provided.take(n)),
            ..s.with(i, ConnView { provided: c.provided.skip(n), ..c })
        };
        let v = PathView {
            pool: uring::all_given_back(s.pool, c.provided.take(n)),
            ..s.with(i, ConnView { draining: false, provided: c.provided.skip(n), ..c })
        };
        assert(v.conns =~= u.conns.update(i, v.conns[i]));
        lemma_flags(u, v, i);
        lemma_finished(v, i);
    }
}

proof fn lemma_admitted(s: PathView, fd: i32, peer: crate::sockaddr::SockAddr)
    requires
        sound(s),
    ensures
        sound(s.admitted(fd, peer).0),
{
    if s.free_slots.len() == 0 {
        lemma_same_books(s, s.admitted(fd, peer).0);
    } else {
        broadcast use group_to_multiset_ensures;

        let i = s.free_slots[0] as int;
        assert(s.free_slots[0] < CONN_CAP && !s.is_open(s.free_slots[0] as int));
        let t = PathView {
            free_slots: s.free_slots.skip(1),
            cold: s.cold.update(i, crate::conn::ColdState { peer, ..s.cold[i] }),
            ..s.with(i, ConnView::fresh(fd))
        };
        assert(held(ConnView::fresh(fd)) =~= Multiset::empty());
        lemma_balance(s, t, i);
        assert forall|j: int| #[trigger] t.is_open(j) implies agrees(t.pool, t.at(j)) by {
            if j != i {
                assert(s.is_open(j));
            }
        }
        assert(slots_sound(t)) by {
            assert forall|k: int| 0 <= k < t.free_slots.len() implies (#[trigger] t.free_slots[k])
                < CONN_CAP && !t.is_open(t.free_slots[k] as int) by {
                assert(s.free_slots[k + 1] < CONN_CAP && !s.is_open(s.free_slots[k + 1] as int));
                assert(s.free_slots[k + 1] != s.free_slots[0]);
            }
        }
        lemma_resumed(t, i);
    }
}

/// A completion that the kernel may report leaves a sound datapath sound:
/// no buffer is lost, held twice, or in a state other than its place, and
/// the flow-control measure stays exact.
pub proof fn law_completions_keep_buffers(s: PathView, c: Completed)
    requires
        sound(s),
        conforms(s, c),
    ensures
        sound(s.dispatched(c).0),
{
    let t = PathView { tally: Tally { packets: 0, bytes: 0, drops: 0 }, ..s };
    lemma_same_books(s, t);
    let kind = uring_pool::kind_of(c.token);
    let object = uring_pool::object_of(c.token);
    let i = t.slot_of(object);
    if kind == uring_pool::KIND_ACCEPT {
        reveal(PathView::accepted);
        match c.res {
            Outcome::Done(fd) => {
                lemma_admitted(t, fd as i32, c.peer);
            },
            Outcome::Failed(_) => {},
        }
        let a = match c.res {
            Outcome::Done(fd) => t.admitted(fd as i32, c.peer).0,
            Outcome::Failed(_) => t,
        };
        lemma_same_books(a, a.accept_queued().0);
    } else if kind == uring_pool::KIND_TCP_READ {
        lemma_received(t, i, c);
    } else if kind == uring_pool::KIND_TCP_SEND {
        lemma_sent(t, c);
    } else if kind == uring_pool::KIND_TCP_POLLOUT {
        if t.is_open(i) {
            let u = t.with(i, ConnView { poll_out: false, ..t.at(i) });
            lemma_flags(t, u, i);
            lemma_flushed(u, i);
        }
    } else if kind == uring_pool::KIND_TCP_CLOSE {
        lemma_taken_back(t, i, c.res);
    } else {
        lemma_same_books(t, s.dispatched(c).0);
    }
}

/// A new modern datapath is sound: every buffer is free.
pub proof fn law_new_datapath_is_sound(s: PathView)
    requires
        !s.legacy,
        s.pool == PoolView::initial(),
        s.conns == Seq::new(CONN_CAP as nat, |i: int| None::<ConnView>),
        s.free_slots == Seq::new(CONN_CAP as nat, |i: int| i as usize),
    ensures
        sound(s),
{
    broadcast use group_to_multiset_ensures;

    assert(held_by_all(s.conns) =~= Multiset::empty()) by {
        lemma_nothing_held(s.conns);
    }
    let free = s.pool.free;
    assert forall|id: u32|
        #[trigger] everywhere(s).count(id) == if id < POOL_TOTAL {
            1nat
        } else {
            0nat
        } by {
        assert(free.no_duplicates());
        free.lemma_multiset_has_no_duplicates();
        if id < POOL_TOTAL {
            assert(free[POOL_TOTAL - 1 - id] == id);
            assert(free.contains(id));
        } else {
            assert(!free.contains(id));
        }
    }
}

proof fn lemma_nothing_held(conns: Seq<Option<ConnView>>)
    requires
        forall|i: int| 0 <= i < conns.len() ==> #[trigger] conns[i] is None,
    ensures
        held_by_all(conns) == Multiset::<u32>::empty(),
    decreases conns.len(),
{
    if conns.len() > 0 {
        lemma_nothing_held(conns.drop_last());
        assert(conns[conns.len() - 1] is None);
        assert(held_by_all(conns) =~= Multiset::empty());
    }
}

/// Buffering is bounded by the pool: what a connection has outstanding
/// never exceeds the pool's buffers.
pub proof fn law_buffering_is_bounded(s: PathView, i: int)
    requires
        sound(s),
        s.is_open(i),
    ensures
        s.at(i).outstanding == s.at(i).to_send.len() + s.at(i).in_kernel.len(),
        s.at(i).outstanding <= POOL_TOTAL,
{
    lemma_outstanding_bounded(s, i);
    assert(agrees(s.pool, s.at(i)));
}

/// Backpressure: data that brings a connection to the high watermark stops
/// its reads, and a connection at or over it is not armed again.
pub proof fn law_high_watermark_stops_reads(
    s: PathView,
    i: int,
    id: u32,
    off: u16,
    len: u16,
    more: bool,
    now: u64,
)
    requires
        s.is_open(i),
    ensures
        s.at(i).outstanding >= HWM_BUFS ==> s.resumed(i) == (s, true),
        s.at(i).outstanding.wrapping_add(1) >= HWM_BUFS && s.has_room() ==> !s.buffered(
            i,
            id,
            off,
            len,
            more,
            now,
        ).0.at(i).recv_armed,
{
    if s.at(i).outstanding.wrapping_add(1) >= HWM_BUFS && s.has_room() {
        let c = s.at(i);
        let a = PathView {
            pool: s.pool.mark_owned(id, off, len),
            ..s.with(
                i,
                ConnView {
                    provided: uring_pool::without(c.provided, id),
                    to_send: c.to_send.push(id),
                    outstanding: c.outstanding.wrapping_add(1),
                    recv_armed: false,
                    ..c
                },
            )
        }.touched(i, len as u32, now).count(1, len as u64, 0);
        lemma_flush_keeps_reads(a, i);
        lemma_flush_keeps_reads(a.push(uring::Op::CancelRecv { slot: i as usize }).submit(), i);
    }
}

proof fn lemma_flush_keeps_reads(s: PathView, i: int)
    requires
        s.is_open(i),
    ensures
        s.flushed(i).at(i).recv_armed == s.at(i).recv_armed,
    decreases s.at(i).to_send.len(),
{
    if !s.at(i).closing && s.at(i).to_send.len() > 0 && s.has_room() {
        let c = s.at(i);
        let id = c.to_send[0];
        let meta = s.pool.metas[id as int];
        let queued = PathView {
            pool: s.pool.submit_zc(id),
            ..s.with(
                i,
                ConnView { to_send: c.to_send.skip(1), in_kernel: c.in_kernel.push(id), ..c },
            )
        }.push(uring::Op::Send { fd: c.fd, id, off: meta.off, len: meta.len, slot: i as usize });
        if s.queued >= uring::FLUSH_AT {
            lemma_flush_keeps_reads(queued.submit(), i);
        } else {
            lemma_flush_keeps_reads(queued, i);
        }
    }
}

/// Closing is final and happens once: closing a closing connection does
/// nothing.
pub proof fn law_close_is_idempotent(s: PathView, i: int)
    requires
        !s.legacy,
        s.is_open(i),
        s.at(i).closing,
    ensures
        s.closed(i) == (s, true),
        s.flushed(i) == s,
        s.resumed(i) == (s, true),
{
}

/// Exactly one operation refers to a UDP slot at a time: each completion of
/// a slot queues the slot's next operation and touches no other slot.
pub proof fn law_one_operation_per_udp_slot(s: PathView, c: Completed)
    requires
        s.knows(c.token),
        s.phases.len() == uring::UDP_SLOTS,
        s.has_room(),
        uring_pool::kind_of(c.token) == uring_pool::KIND_UDP_RECV || uring_pool::kind_of(c.token)
            == uring_pool::KIND_UDP_SEND,
    ensures
        ({
            let slot = uring_pool::object_of(c.token) as int;
            let t = s.dispatched(c).0;
            let sends = uring_pool::kind_of(c.token) == uring_pool::KIND_UDP_RECV && c.res is Done;
            &&& s.dispatched(c).1
            &&& t.phases == s.phases.update(
                slot,
                if sends {
                    uring::UdpPhase::SendPending
                } else {
                    uring::UdpPhase::RecvPending
                },
            )
            &&& t.ops == s.ops.push(
                if sends {
                    uring::Op::UdpSend { slot: slot as usize, len: c.res->Done_0 }
                } else {
                    uring::Op::UdpRecv { slot: slot as usize }
                },
            )
            &&& t.conns == s.conns
            &&& t.pool == s.pool
        }),
{
}

} // verus!
