//! The application-facing readiness model: delivered events, and the
//! bookkeeping of the io_uring driver.
//!
//! Each registered descriptor has poll operations in flight; a completion
//! is reported as an event, and the poll is armed again when the last one
//! in flight has completed. Changing an interest cancels the poll in flight
//! and arms a new one; the count per token keeps the two completions from
//! arming twice.
use vstd::prelude::*;
use crate::reactor::{EpollEvent, Interest};

verus! {

/// Poll bits.
pub const POLLIN: u32 = 0x1;

pub const POLLOUT: u32 = 0x4;

pub const POLLERR: u32 = 0x8;

pub const POLLHUP: u32 = 0x10;

/// The error number of a cancelled operation.
pub const ECANCELED: i32 = 125;

/// One delivered readiness event.
#[derive(Clone, Copy, Debug, PartialEq, Eq, Structural)]
pub struct Event {
    pub token: u64,
    pub readable: bool,
    pub writable: bool,
    pub hang_up: bool,
    pub error: bool,
}

impl Default for Event {
    fn default() -> (r: Self)
        ensures
            r == (Event {
                token: 0,
                readable: false,
                writable: false,
                hang_up: false,
                error: false,
            }),
    {
        Event { token: 0, readable: false, writable: false, hang_up: false, error: false }
    }
}

/// The event of an epoll event.
pub fn event_from_epoll(e: &EpollEvent) -> (r: Event)
    ensures
        r == (Event {
            token: e.token,
            readable: e.readable,
            writable: e.writable,
            hang_up: e.hang_up,
            error: e.error,
        }),
{
    Event {
        token: e.token,
        readable: e.readable,
        writable: e.writable,
        hang_up: e.hang_up,
        error: e.error,
    }
}

/// The poll bits of an interest: what is asked for, and always errors and
/// hang-ups.
pub open spec fn poll_bits(i: Interest) -> int {
    POLLERR + POLLHUP + (if i.reads() {
        POLLIN as int
    } else {
        0
    }) + (if i.writes() {
        POLLOUT as int
    } else {
        0
    })
}

/// The poll bits of an interest.
pub fn poll_flags(i: Interest) -> (r: u32)
    ensures
        r == poll_bits(i),
{
    match i {
        Interest::Readable => POLLERR + POLLHUP + POLLIN,
        Interest::Writable => POLLERR + POLLHUP + POLLOUT,
        Interest::ReadableWritable => POLLERR + POLLHUP + POLLIN + POLLOUT,
    }
}

/// A poll operation to submit.
#[derive(Clone, Copy, Debug, PartialEq, Eq, Structural)]
pub struct PollRequest {
    pub fd: i32,
    pub flags: u32,
    pub token: u64,
}

/// The poll operation for a registration.
pub open spec fn request(fd: i32, token: u64, interest: Interest) -> PollRequest {
    PollRequest { fd, flags: poll_bits(interest) as u32, token }
}

/// A registered descriptor.
#[derive(Clone, Copy, Debug, PartialEq, Eq, Structural)]
pub struct Registration {
    pub token: u64,
    pub fd: i32,
    pub interest: Interest,
    /// Poll operations in flight.
    pub in_flight: u32,
}

/// The token is already registered.
#[derive(Clone, Copy, Debug, PartialEq, Eq, Structural)]
pub struct AlreadyRegistered;

/// What to do for a changed interest.
#[derive(Clone, Copy, Debug, PartialEq, Eq, Structural)]
pub struct Rearm {
    /// Whether the poll in flight under the token is cancelled first.
    pub cancel: bool,
    pub poll: PollRequest,
}

/// What a completion gives.
#[derive(Clone, Copy, Debug, PartialEq, Eq, Structural)]
pub struct Completion {
    pub event: Option<Event>,
    /// The poll to arm again.
    pub rearm: Option<PollRequest>,
}

/// The registrations of an io_uring driver.
pub struct IoUringDriver {
    entries: Vec<Registration>,
}

/// Where the registration of a token stands; the length when there is none.
pub open spec fn find_token(s: Seq<Registration>, token: u64) -> int
    decreases s.len(),
{
    if s.len() == 0 || s[0].token == token {
        0
    } else {
        1 + find_token(s.skip(1), token)
    }
}

proof fn lemma_find_token(s: Seq<Registration>, token: u64)
    ensures
        0 <= find_token(s, token) <= s.len(),
        find_token(s, token) < s.len() ==> s[find_token(s, token)].token == token,
        forall|i: int| 0 <= i < find_token(s, token) ==> (#[trigger] s[i]).token != token,
    decreases s.len(),
{
    if s.len() > 0 && s[0].token != token {
        lemma_find_token(s.skip(1), token);
        assert forall|i: int| 0 <= i < find_token(s, token) implies (#[trigger] s[i]).token
            != token by {
            if i > 0 {
                assert(s.skip(1)[i - 1] == s[i]);
            }
        }
    }
}

impl IoUringDriver {
    /// The registrations by token.
    pub closed spec fn view(&self) -> Map<u64, Registration> {
        Map::new(
            |t: u64| exists|i: int| 0 <= i < self.entries@.len() && self.entries@[i].token == t,
            |t: u64| self.entries@[find_token(self.entries@, t)],
        )
    }

    /// Each token is registered at most once, with a poll in flight.
    pub closed spec fn wf(&self) -> bool {
        &&& forall|i: int, j: int|
            0 <= i < j < self.entries@.len() ==> (#[trigger] self.entries@[i]).token != (
            #[trigger] self.entries@[j]).token
        &&& forall|i: int|
            0 <= i < self.entries@.len() ==> (#[trigger] self.entries@[i]).in_flight >= 1
    }

    /// No registrations.
    pub fn new() -> (r: Self)
        ensures
            r.wf(),
            r@ == Map::<u64, Registration>::empty(),
    {
        let r = IoUringDriver { entries: Vec::new() };
        assert(r@ =~= Map::<u64, Registration>::empty());
        r
    }

    proof fn lemma_at(&self, i: int)
        requires
            self.wf(),
            0 <= i < self.entries@.len(),
        ensures
            self@.contains_key(self.entries@[i].token),
            self@[self.entries@[i].token] == self.entries@[i],
            find_token(self.entries@, self.entries@[i].token) == i,
    {
        let t = self.entries@[i].token;
        lemma_find_token(self.entries@, t);
        let k = find_token(self.entries@, t);
        if k < i {
            assert(self.entries@[k].token != self.entries@[i].token);
        } else if k > i {
            assert(self.entries@[i].token != t);
        }
    }

    /// A registration is filed under its own token, with a poll in flight.
    pub proof fn law_registrations_are_armed(&self, token: u64)
        requires
            self.wf(),
            self@.contains_key(token),
        ensures
            self@[token].token == token,
            self@[token].in_flight >= 1,
    {
        let i = choose|i: int| 0 <= i < self.entries@.len() && self.entries@[i].token == token;
        self.lemma_at(i);
    }

    fn find(&self, token: u64) -> (r: usize)
        requires
            self.wf(),
        ensures
            r <= self.entries@.len(),
            r == self.entries@.len() <==> !self@.contains_key(token),
            r < self.entries@.len() ==> self.entries@[r as int].token == token && self@[token]
                == self.entries@[r as int],
    {
        let mut i: usize = 0;
        while i < self.entries.len() && self.entries[i].token != token
            invariant
                i <= self.entries@.len(),
                forall|j: int| 0 <= j < i ==> (#[trigger] self.entries@[j]).token != token,
            decreases self.entries@.len() - i,
        {
            i += 1;
        }
        proof {
            if i < self.entries@.len() {
                self.lemma_at(i as int);
            }
        }
        i
    }

    /// The registration of a token.
    pub fn get(&self, token: u64) -> (r: Option<Registration>)
        requires
            self.wf(),
        ensures
            r == if self@.contains_key(token) {
                Some(self@[token])
            } else {
                None
            },
    {
        let i: usize = self.find(token);
        if i < self.entries.len() {
            Some(self.entries[i])
        } else {
            None
        }
    }

    /// Ask to register `fd` under `token`: the poll to submit. A token that
    /// is registered already is refused. Once the poll is submitted,
    /// [`IoUringDriver::armed`] records it.
    pub fn register(&self, fd: i32, token: u64, interest: Interest) -> (r: Result<
        PollRequest,
        AlreadyRegistered,
    >)
        requires
            self.wf(),
        ensures
            r == if self@.contains_key(token) {
                Err(AlreadyRegistered)
            } else {
                Ok::<PollRequest, AlreadyRegistered>(request(fd, token, interest))
            },
    {
        let i: usize = self.find(token);
        if i < self.entries.len() {
            Err(AlreadyRegistered)
        } else {
            Ok(PollRequest { fd, flags: poll_flags(interest), token })
        }
    }

    /// Ask to change the interest of a token: the poll to submit, and
    /// whether the one in flight is cancelled first. An unknown token is
    /// registered. Once the poll is submitted, [`IoUringDriver::armed`]
    /// records it.
    pub fn modify(&self, fd: i32, token: u64, interest: Interest) -> (r: Rearm)
        requires
            self.wf(),
        ensures
            r == (Rearm { cancel: self@.contains_key(token), poll: request(fd, token, interest) }),
    {
        let i: usize = self.find(token);
        Rearm {
            cancel: i < self.entries.len(),
            poll: PollRequest { fd, flags: poll_flags(interest), token },
        }
    }

    /// Record a submitted poll: one more in flight under the token.
    pub fn armed(&mut self, fd: i32, token: u64, interest: Interest)
        requires
            old(self).wf(),
            old(self)@.contains_key(token) ==> old(self)@[token].in_flight < u32::MAX,
        ensures
            final(self).wf(),
            final(self)@ == old(self)@.insert(
                token,
                Registration {
                    token,
                    fd,
                    interest,
                    in_flight: if old(self)@.contains_key(token) {
                        (old(self)@[token].in_flight + 1) as u32
                    } else {
                        1
                    },
                },
            ),
    {
        let i: usize = self.find(token);
        let ghost before = *self;
        if i < self.entries.len() {
            let n: u32 = self.entries[i].in_flight;
            self.entries.set(i, Registration { token, fd, interest, in_flight: n + 1 });
        } else {
            self.entries.push(Registration { token, fd, interest, in_flight: 1 });
        }
        proof {
            before.lemma_set(*self, i as int);
        }
    }

    /// Replacing one entry under the same token, or adding one under a new
    /// token, changes the map at that token only.
    proof fn lemma_set(&self, next: IoUringDriver, i: int)
        requires
            self.wf(),
            0 <= i <= self.entries@.len(),
            i < self.entries@.len() ==> next.entries@ == self.entries@.update(
                i,
                next.entries@[i],
            ) && next.entries@[i].token == self.entries@[i].token,
            i == self.entries@.len() ==> next.entries@ == self.entries@.push(next.entries@[i])
                && !self@.contains_key(next.entries@[i].token),
            next.entries@[i].in_flight >= 1,
        ensures
            next.wf(),
            next@ == self@.insert(next.entries@[i].token, next.entries@[i]),
    {
        let t = next.entries@[i].token;
        assert(next.wf()) by {
            assert forall|a: int, b: int| 0 <= a < b < next.entries@.len() implies (
            #[trigger] next.entries@[a]).token != (#[trigger] next.entries@[b]).token by {
                if b < self.entries@.len() {
                    assert(self.entries@[a].token != self.entries@[b].token);
                } else {
                    self.lemma_at(a);
                }
            }
            assert forall|a: int| 0 <= a < next.entries@.len() implies (
            #[trigger] next.entries@[a]).in_flight >= 1 by {
                if a != i {
                    assert(self.entries@[a].in_flight >= 1);
                }
            }
        }
        assert(next@ =~= self@.insert(t, next.entries@[i])) by {
            next.lemma_at(i);
            assert forall|x: u64| next@.contains_key(x) == self@.insert(
                t,
                next.entries@[i],
            ).contains_key(x) by {
                if next@.contains_key(x) && x != t {
                    let a = choose|a: int|
                        0 <= a < next.entries@.len() && next.entries@[a].token == x;
                    assert(self.entries@[a].token == x);
                }
                if self@.contains_key(x) && x != t {
                    let a = choose|a: int|
                        0 <= a < self.entries@.len() && self.entries@[a].token == x;
                    assert(next.entries@[a].token == x);
                }
            }
            assert forall|x: u64| next@.contains_key(x) implies next@[x] == self@.insert(
                t,
                next.entries@[i],
            )[x] by {
                if x != t {
                    let a = choose|a: int|
                        0 <= a < next.entries@.len() && next.entries@[a].token == x;
                    next.lemma_at(a);
                    assert(self.entries@[a] == next.entries@[a]);
                    self.lemma_at(a);
                }
            }
        }
    }

    /// Remove a registration of `fd`; its token is to be cancelled. Without
    /// one nothing changes.
    pub fn unregister(&mut self, fd: i32) -> (r: Option<u64>)
        requires
            old(self).wf(),
        ensures
            final(self).wf(),
            match r {
                Some(t) => {
                    &&& old(self)@.contains_key(t)
                    &&& old(self)@[t].fd == fd
                    &&& final(self)@ == old(self)@.remove(t)
                },
                None => {
                    &&& final(self)@ == old(self)@
                    &&& forall|t: u64| #[trigger]
                        old(self)@.contains_key(t) ==> old(self)@[t].fd != fd
                },
            },
    {
        let ghost before = *self;
        let mut i: usize = 0;
        while i < self.entries.len() && self.entries[i].fd != fd
            invariant
                i <= self.entries@.len(),
                *self == before,
                forall|j: int| 0 <= j < i ==> (#[trigger] self.entries@[j]).fd != fd,
            decreases self.entries@.len() - i,
        {
            i += 1;
        }
        if i >= self.entries.len() {
            proof {
                assert forall|t: u64| #[trigger] self@.contains_key(t) implies self@[t].fd
                    != fd by {
                    let a = choose|a: int|
                        0 <= a < self.entries@.len() && self.entries@[a].token == t;
                    self.lemma_at(a);
                }
            }
            return None;
        }
        let token: u64 = self.entries[i].token;
        let _gone = self.entries.remove(i);
        proof {
            before.lemma_at(i as int);
            before.lemma_remove(*self, i as int);
        }
        Some(token)
    }

    proof fn lemma_remove(&self, next: IoUringDriver, i: int)
        requires
            self.wf(),
            0 <= i < self.entries@.len(),
            next.entries@ == self.entries@.remove(i),
        ensures
            next.wf(),
            next@ == self@.remove(self.entries@[i].token),
    {
        let t = self.entries@[i].token;
        let back = |a: int|
            if a < i {
                a
            } else {
                a + 1
            };
        assert forall|a: int| 0 <= a < next.entries@.len() implies #[trigger] next.entries@[a]
            == self.entries@[back(a)] by {
        }
        assert forall|a: int, b: int| 0 <= a < b < next.entries@.len() implies (
        #[trigger] next.entries@[a]).token != (#[trigger] next.entries@[b]).token by {
            assert(self.entries@[back(a)].token != self.entries@[back(b)].token);
        }
        assert forall|a: int| 0 <= a < next.entries@.len() implies (
        #[trigger] next.entries@[a]).in_flight >= 1 by {
            assert(self.entries@[back(a)].in_flight >= 1);
        }
        assert(next@ =~= self@.remove(t)) by {
            assert forall|x: u64| next@.contains_key(x) == self@.remove(t).contains_key(x) by {
                if next@.contains_key(x) {
                    let a = choose|a: int|
                        0 <= a < next.entries@.len() && next.entries@[a].token == x;
                    assert(self.entries@[back(a)].token == x);
                    if back(a) < i {
                        assert(self.entries@[back(a)].token != self.entries@[i].token);
                    } else {
                        assert(self.entries@[i].token != self.entries@[back(a)].token);
                    }
                }
                if self@.remove(t).contains_key(x) {
                    let b = choose|b: int|
                        0 <= b < self.entries@.len() && self.entries@[b].token == x;
                    assert(b != i);
                    let a = if b < i {
                        b
                    } else {
                        b - 1
                    };
                    assert(next.entries@[a].token == x);
                }
            }
            assert forall|x: u64| next@.contains_key(x) implies next@[x] == self@.remove(t)[x] by {
                let a = choose|a: int| 0 <= a < next.entries@.len() && next.entries@[a].token == x;
                next.lemma_at(a);
                self.lemma_at(back(a));
            }
        }
    }

    /// A poll of `token` completed, with an error number or without. A
    /// cancelled poll is no event; a failed one is a hang-up with an error;
    /// a successful one reports the interest as ready. When it was the last
    /// one in flight, the poll is armed again (and stays counted as in
    /// flight); else one less is in flight. A token that is no longer
    /// registered gives nothing.
    pub fn completed(&mut self, token: u64, errno: Option<i32>) -> (r: Completion)
        requires
            old(self).wf(),
        ensures
            final(self).wf(),
            !old(self)@.contains_key(token) ==> final(self)@ == old(self)@ && r == (Completion {
                event: None,
                rearm: None,
            }),
            old(self)@.contains_key(token) ==> {
                let reg = old(self)@[token];
                &&& r.event == if errno == Some(ECANCELED) {
                    None
                } else {
                    Some(
                        Event {
                            token,
                            readable: errno is None && reg.interest.reads(),
                            writable: errno is None && reg.interest.writes(),
                            hang_up: errno is Some,
                            error: errno is Some,
                        },
                    )
                }
                &&& r.rearm == if rearms(reg.in_flight) {
                    Some(request(reg.fd, token, reg.interest))
                } else {
                    None
                }
                &&& final(self)@ == old(self)@.insert(
                    token,
                    Registration { in_flight: left_in_flight(reg.in_flight), ..reg },
                )
            },
    {
        let i: usize = self.find(token);
        if i >= self.entries.len() {
            return Completion { event: None, rearm: None };
        }
        let reg: Registration = self.entries[i];
        let ghost before = *self;
        let event: Option<Event> = match errno {
            None => Some(
                Event {
                    token,
                    readable: reg.interest.wants_read(),
                    writable: reg.interest.wants_write(),
                    hang_up: false,
                    error: false,
                },
            ),
            Some(e) => if e == ECANCELED {
                None
            } else {
                Some(Event { token, readable: false, writable: false, hang_up: true, error: true })
            },
        };
        proof {
            before.lemma_at(i as int);
        }
        if reg.in_flight == 1 {
            assert(self@ =~= before@.insert(token, reg));
            return Completion {
                event,
                rearm: Some(
                    PollRequest { fd: reg.fd, flags: poll_flags(reg.interest), token },
                ),
            };
        }
        self.entries.set(
            i,
            Registration {
                token: reg.token,
                fd: reg.fd,
                interest: reg.interest,
                in_flight: reg.in_flight - 1,
            },
        );
        proof {
            before.lemma_set(*self, i as int);
        }
        Completion { event, rearm: None }
    }
}

/// Whether a completion with `n` polls in flight arms the poll again.
pub open spec fn rearms(n: u32) -> bool {
    n == 1
}

/// The polls in flight after a completion with `n` in flight.
pub open spec fn left_in_flight(n: u32) -> u32 {
    if n == 1 {
        1
    } else {
        (n - 1) as u32
    }
}

/// The polls in flight after `k` completions.
pub open spec fn in_flight_after(n: u32, k: nat) -> u32
    decreases k,
{
    if k == 0 {
        n
    } else {
        left_in_flight(in_flight_after(n, (k - 1) as nat))
    }
}

/// With `n` polls in flight the first `n - 1` completions arm nothing and
/// the last one arms one poll: no token is ever armed twice, nor left
/// without a poll.
pub proof fn law_never_armed_twice(n: u32, k: nat)
    requires
        1 <= n,
        k < n,
    ensures
        in_flight_after(n, k) == n - k,
        rearms(in_flight_after(n, k)) <==> k == n - 1,
        in_flight_after(n, n as nat) == 1,
{
    lemma_in_flight(n, k);
    lemma_in_flight(n, (n - 1) as nat);
}

proof fn lemma_in_flight(n: u32, k: nat)
    requires
        1 <= n,
        k < n,
    ensures
        in_flight_after(n, k) == n - k,
    decreases k,
{
    if k > 0 {
        lemma_in_flight(n, (k - 1) as nat);
    }
}

} // verus!
