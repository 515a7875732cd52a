use vstd::prelude::*;

use crate::error::Error;
use crate::event::{has_flag, Event, Events, POLLERR, POLLHUP, POLLIN, POLLOUT, POLLPRI, POLLRDHUP};
use crate::interest::Interest;
use crate::token::Token;

verus! {

/// A raw file descriptor.
pub type RawFd = i32;

/// One registered file descriptor: the token its events carry, the readiness
/// bits it is polled for, and the registration record that tracks it.
#[derive(Clone, Copy, Debug, PartialEq, Eq, Structural)]
pub struct FdEntry {
    pub fd: RawFd,
    pub token: Token,
    pub events: u16,
    pub record: usize,
}

/// A file descriptor as handed to `poll(2)`: the readiness bits asked for
/// and, once polled, the readiness bits reported.
#[derive(Clone, Copy, Debug, PartialEq, Eq, Structural)]
pub struct PollFd {
    pub fd: RawFd,
    pub events: u16,
    pub revents: u16,
}

/// The abstract state of a selector.
///
/// `entries` are the registrations in polling order; `records[id]` tells
/// whether registration record `id` still counts as registered;
/// `pending_removal` holds the descriptors deregistered since the last
/// selection, whose readiness that selection must ignore; `pending_wake`
/// holds the token of a wake-up not yet delivered.
#[verifier::ext_equal]
pub struct RegistryModel {
    pub entries: Seq<FdEntry>,
    pub records: Seq<bool>,
    pub pending_removal: Seq<RawFd>,
    pub pending_wake: Option<Token>,
}

/// The `poll(2)` readiness bits that an interest asks for.
pub open spec fn poll_mask(i: Interest) -> u16 {
    (if i.wants_read() {
        POLLIN | POLLRDHUP
    } else {
        0u16
    }) | (if i.wants_write() {
        POLLOUT
    } else {
        0u16
    }) | (if i.wants_priority() {
        POLLPRI
    } else {
        0u16
    })
}

/// The readiness bits after which a descriptor is taken to be closed.
pub open spec fn closing_mask() -> u16 {
    POLLHUP | POLLERR
}

/// `fd` is registered in `es`.
pub open spec fn has_fd(es: Seq<FdEntry>, fd: RawFd) -> bool {
    exists|i: int| 0 <= i < es.len() && #[trigger] es[i].fd == fd
}

/// The position of `fd` in `es` (meaningful when `has_fd(es, fd)`).
pub open spec fn index_of(es: Seq<FdEntry>, fd: RawFd) -> int {
    choose|i: int| 0 <= i < es.len() && #[trigger] es[i].fd == fd
}

/// No descriptor is registered twice.
pub open spec fn unique_fds(es: Seq<FdEntry>) -> bool {
    forall|i: int, j: int|
        0 <= i < es.len() && 0 <= j < es.len() && i != j ==> #[trigger] es[i].fd != #[trigger] es[j].fd
}

/// No registration record is shared by two registrations.
pub open spec fn unique_records(es: Seq<FdEntry>) -> bool {
    forall|i: int, j: int|
        0 <= i < es.len() && 0 <= j < es.len() && i != j ==> #[trigger] es[i].record
            != #[trigger] es[j].record
}

/// Every registration's record lies below `n`.
pub open spec fn records_below(es: Seq<FdEntry>, n: nat) -> bool {
    forall|i: int| 0 <= i < es.len() ==> #[trigger] es[i].record < n
}

/// `s` with every occurrence of `fd` left out, the rest in order.
pub open spec fn without(s: Seq<RawFd>, fd: RawFd) -> Seq<RawFd>
    decreases s.len(),
{
    if s.len() == 0 {
        s
    } else {
        let w = without(s.drop_last(), fd);
        if s.last() == fd {
            w
        } else {
            w.push(s.last())
        }
    }
}

/// `s` with position `i` removed by moving the last element into its place.
pub open spec fn swap_removed<A>(s: Seq<A>, i: int) -> Seq<A> {
    s.update(i, s.last()).drop_last()
}

/// The `poll(2)` set for a sequence of registrations, in the same order.
pub open spec fn poll_set(es: Seq<FdEntry>) -> Seq<PollFd> {
    es.map_values(|e: FdEntry| PollFd { fd: e.fd, events: e.events, revents: 0 })
}

/// The events a pending wake-up contributes to a selection.
pub open spec fn wake_events(w: Option<Token>) -> Seq<Event> {
    match w {
        Some(t) => seq![Event { token: t, events: POLLIN }],
        None => Seq::empty(),
    }
}

/// Processes the `poll(2)` results `polled`, in order, against the
/// registrations `es`: every result with readiness, for a registered
/// descriptor not in `pending`, yields an event with that registration's
/// token, disarms the reported bits of that registration, and, if it reports
/// hang-up or error, names the descriptor as closed.
///
/// Returns the registrations after disarming, the events, and the closed
/// descriptors.
pub open spec fn deliver(es: Seq<FdEntry>, pending: Seq<RawFd>, polled: Seq<PollFd>) -> (
    Seq<FdEntry>,
    Seq<Event>,
    Seq<RawFd>,
)
    decreases polled.len(),
{
    if polled.len() == 0 {
        (es, Seq::empty(), Seq::empty())
    } else {
        let prev = deliver(es, pending, polled.drop_last());
        let p = polled.last();
        if p.revents != 0 && !pending.contains(p.fd) && has_fd(prev.0, p.fd) {
            let i = index_of(prev.0, p.fd);
            let e = prev.0[i];
            let disarmed = FdEntry {
                fd: e.fd,
                token: e.token,
                events: e.events & !p.revents,
                record: e.record,
            };
            let closed = if has_flag(p.revents, closing_mask()) {
                prev.2.push(p.fd)
            } else {
                prev.2
            };
            (
                prev.0.update(i, disarmed),
                prev.1.push(Event { token: e.token, events: p.revents }),
                closed,
            )
        } else {
            prev
        }
    }
}

/// Every record that counts as registered is the record of a registration.
pub open spec fn records_live(es: Seq<FdEntry>, records: Seq<bool>) -> bool {
    forall|id: int|
        0 <= id < records.len() && #[trigger] records[id] ==> exists|i: int|
            0 <= i < es.len() && #[trigger] es[i].record == id
}

/// No registered descriptor is pending removal.
pub open spec fn none_pending(es: Seq<FdEntry>, pending: Seq<RawFd>) -> bool {
    forall|i: int| 0 <= i < es.len() ==> !pending.contains(#[trigger] es[i].fd)
}

/// No record of `a` counts as registered in `b` unless it did in `a`: a
/// record, once unregistered, never counts as registered again.
pub open spec fn records_fall(a: RegistryModel, b: RegistryModel) -> bool {
    &&& a.records.len() <= b.records.len()
    &&& forall|id: int| 0 <= id < a.records.len() && #[trigger] b.records[id] ==> a.records[id]
}

impl RegistryModel {
    /// The invariant of the registrations and records: descriptors and
    /// records are not shared, every record a registration names exists, and
    /// a record counts as registered only while its registration stands.
    pub open spec fn wf_core(self) -> bool {
        &&& unique_fds(self.entries)
        &&& unique_records(self.entries)
        &&& records_below(self.entries, self.records.len())
        &&& records_live(self.entries, self.records)
    }

    /// The state's invariant: `wf_core`, and no registered descriptor is
    /// pending removal (so a selection reports every registration).
    pub open spec fn wf(self) -> bool {
        &&& self.wf_core()
        &&& none_pending(self.entries, self.pending_removal)
    }

    /// `fd` is registered.
    pub open spec fn is_registered(self, fd: RawFd) -> bool {
        has_fd(self.entries, fd)
    }

    /// The registration of `fd` (meaningful when `fd` is registered).
    pub open spec fn entry(self, fd: RawFd) -> FdEntry {
        self.entries[index_of(self.entries, fd)]
    }

    /// Registration record `id` exists and still counts as registered.
    pub open spec fn record_registered(self, id: usize) -> bool {
        id < self.records.len() && self.records[id as int]
    }

    /// The empty state.
    pub open spec fn empty() -> RegistryModel {
        RegistryModel {
            entries: Seq::empty(),
            records: Seq::empty(),
            pending_removal: Seq::empty(),
            pending_wake: None,
        }
    }

    /// The state after registering `fd`, not registered before, with
    /// `token` and readiness bits `mask`: the registration goes last, under
    /// a fresh record, and `fd` stops being pending removal.
    pub open spec fn registered(self, fd: RawFd, token: Token, mask: u16) -> RegistryModel {
        RegistryModel {
            entries: self.entries.push(
                FdEntry { fd: fd, token: token, events: mask, record: self.records.len() as usize },
            ),
            records: self.records.push(true),
            pending_removal: without(self.pending_removal, fd),
            pending_wake: self.pending_wake,
        }
    }

    /// The state after giving the registration of `fd` a new token and
    /// readiness bits; its position and record stay.
    pub open spec fn reregistered(self, fd: RawFd, token: Token, mask: u16) -> RegistryModel {
        let i = index_of(self.entries, fd);
        RegistryModel {
            entries: self.entries.update(
                i,
                FdEntry { fd: fd, token: token, events: mask, record: self.entries[i].record },
            ),
            records: self.records,
            pending_removal: self.pending_removal,
            pending_wake: self.pending_wake,
        }
    }

    /// The state after removing the registration of `fd`, if any: the last
    /// registration takes its place and its record stops counting as
    /// registered.
    pub open spec fn without_fd(self, fd: RawFd) -> RegistryModel {
        if has_fd(self.entries, fd) {
            let i = index_of(self.entries, fd);
            RegistryModel {
                entries: swap_removed(self.entries, i),
                records: self.records.update(self.entries[i].record as int, false),
                pending_removal: self.pending_removal,
                pending_wake: self.pending_wake,
            }
        } else {
            self
        }
    }

    /// The state after removing the registrations of `targets`, in order.
    pub open spec fn without_fds(self, targets: Seq<RawFd>) -> RegistryModel
        decreases targets.len(),
    {
        if targets.len() == 0 {
            self
        } else {
            self.without_fds(targets.drop_last()).without_fd(targets.last())
        }
    }

    /// Each of `targets` is registered at the moment it is removed.
    pub open spec fn all_registered(self, targets: Seq<RawFd>) -> bool
        decreases targets.len(),
    {
        targets.len() == 0 || (self.all_registered(targets.drop_last()) && self.without_fds(
            targets.drop_last(),
        ).is_registered(targets.last()))
    }

    /// The state after deregistering `targets`: their registrations are
    /// removed and they become pending removal.
    pub open spec fn deregistered_all(self, targets: Seq<RawFd>) -> RegistryModel {
        let m = self.without_fds(targets);
        RegistryModel {
            entries: m.entries,
            records: m.records,
            pending_removal: self.pending_removal + targets,
            pending_wake: self.pending_wake,
        }
    }

    /// The state after a wake-up with `token` was requested.
    pub open spec fn woken(self, token: Token) -> RegistryModel {
        RegistryModel {
            entries: self.entries,
            records: self.records,
            pending_removal: self.pending_removal,
            pending_wake: Some(token),
        }
    }

    /// The state after record `id` was marked unregistered.
    pub open spec fn record_marked(self, id: usize) -> RegistryModel {
        RegistryModel {
            entries: self.entries,
            records: if id < self.records.len() {
                self.records.update(id as int, false)
            } else {
                self.records
            },
            pending_removal: self.pending_removal,
            pending_wake: self.pending_wake,
        }
    }

    /// The events a selection on the `poll(2)` results `polled` yields: the
    /// pending wake-up first, then the readiness of the registrations.
    pub open spec fn select_events(self, polled: Seq<PollFd>) -> Seq<Event> {
        wake_events(self.pending_wake) + deliver(self.entries, self.pending_removal, polled).1
    }

    /// The descriptors a selection on `polled` finds closed.
    pub open spec fn closed_by(self, polled: Seq<PollFd>) -> Seq<RawFd> {
        deliver(self.entries, self.pending_removal, polled).2
    }

    /// The state after a selection on `polled`: the wake-up and the pending
    /// removals are consumed, reported readiness is disarmed, and closed
    /// descriptors are deregistered.
    pub open spec fn selected(self, polled: Seq<PollFd>) -> RegistryModel {
        let d = deliver(self.entries, self.pending_removal, polled);
        RegistryModel {
            entries: d.0,
            records: self.records,
            pending_removal: Seq::empty(),
            pending_wake: None,
        }.deregistered_all(d.2)
    }
}

// ---------------------------------------------------------------------------
// Lemmas on the model
// ---------------------------------------------------------------------------

proof fn lemma_index_of(es: Seq<FdEntry>, fd: RawFd, i: int)
    requires
        unique_fds(es),
        0 <= i < es.len(),
        es[i].fd == fd,
    ensures
        has_fd(es, fd),
        index_of(es, fd) == i,
{
    assert(has_fd(es, fd));
    let j = index_of(es, fd);
    assert(es[j].fd == fd);
}

proof fn lemma_index_of_some(es: Seq<FdEntry>, fd: RawFd)
    requires
        has_fd(es, fd),
    ensures
        0 <= index_of(es, fd) < es.len(),
        es[index_of(es, fd)].fd == fd,
{
}

/// `without(s, fd)` holds no `fd`, every other element of `s`, and nothing
/// else.
proof fn lemma_without(s: Seq<RawFd>, fd: RawFd)
    ensures
        !without(s, fd).contains(fd),
        forall|g: RawFd| g != fd && s.contains(g) ==> #[trigger] without(s, fd).contains(g),
        forall|g: RawFd| #[trigger] without(s, fd).contains(g) ==> s.contains(g),
    decreases s.len(),
{
    if s.len() > 0 {
        let p = s.drop_last();
        lemma_without(p, fd);
        let w = without(p, fd);
        if s.last() != fd {
            assert(w.push(s.last())[w.len() as int] == s.last());
            assert forall|g: RawFd| g != fd && s.contains(g) implies #[trigger] without(
                s,
                fd,
            ).contains(g) by {
                let k = choose|k: int| 0 <= k < s.len() && s[k] == g;
                if k < p.len() {
                    assert(p[k] == g);
                    assert(p.contains(g));
                    assert(without(p, fd).contains(g));
                    let j = choose|j: int| 0 <= j < w.len() && w[j] == g;
                    assert(w.push(s.last())[j] == g);
                } else {
                    assert(w.push(s.last())[w.len() as int] == g);
                }
            }
            assert(!without(s, fd).contains(fd)) by {
                if without(s, fd).contains(fd) {
                    let j = choose|j: int| 0 <= j < w.len() + 1 && w.push(s.last())[j] == fd;
                    if j < w.len() {
                        assert(w[j] == fd);
                    }
                }
            }
            assert forall|g: RawFd| #[trigger] without(s, fd).contains(g) implies s.contains(g) by {
                let j = choose|j: int| 0 <= j < w.len() + 1 && w.push(s.last())[j] == g;
                if j < w.len() {
                    assert(w[j] == g);
                    assert(w.contains(g));
                    assert(p.contains(g));
                    let k = choose|k: int| 0 <= k < p.len() && p[k] == g;
                    assert(s[k] == g);
                } else {
                    assert(s[s.len() - 1] == g);
                }
            }
        } else {
            assert forall|g: RawFd| g != fd && s.contains(g) implies #[trigger] without(
                s,
                fd,
            ).contains(g) by {
                let k = choose|k: int| 0 <= k < s.len() && s[k] == g;
                assert(k < p.len());
                assert(p[k] == g);
                assert(p.contains(g));
                assert(without(p, fd).contains(g));
            }
            assert forall|g: RawFd| #[trigger] without(s, fd).contains(g) implies s.contains(g) by {
                assert(w.contains(g));
                assert(p.contains(g));
                let k = choose|k: int| 0 <= k < p.len() && p[k] == g;
                assert(s[k] == g);
            }
        }
    }
}

/// `(a + b)` holds exactly what `a` or `b` holds.
proof fn lemma_concat_contains(a: Seq<RawFd>, b: Seq<RawFd>, x: RawFd)
    ensures
        (a + b).contains(x) == (a.contains(x) || b.contains(x)),
{
    if (a + b).contains(x) {
        let j = choose|j: int| 0 <= j < (a + b).len() && (a + b)[j] == x;
        if j < a.len() {
            assert(a[j] == x);
        } else {
            assert(b[j - a.len()] == x);
        }
    }
    if a.contains(x) {
        let j = choose|j: int| 0 <= j < a.len() && a[j] == x;
        assert((a + b)[j] == x);
    }
    if b.contains(x) {
        let j = choose|j: int| 0 <= j < b.len() && b[j] == x;
        assert((a + b)[a.len() + j] == x);
    }
}

proof fn lemma_without_fd_wf(m: RegistryModel, fd: RawFd)
    requires
        m.wf_core(),
    ensures
        m.without_fd(fd).wf_core(),
        m.wf() ==> m.without_fd(fd).wf(),
        m.without_fd(fd).records.len() == m.records.len(),
        m.without_fd(fd).pending_removal == m.pending_removal,
        m.without_fd(fd).pending_wake == m.pending_wake,
        records_fall(m, m.without_fd(fd)),
        !m.without_fd(fd).is_registered(fd),
        forall|g: RawFd| #[trigger] m.without_fd(fd).is_registered(g) ==> m.is_registered(g),
        forall|g: RawFd| g != fd && m.is_registered(g) ==> #[trigger] m.without_fd(fd).is_registered(g),
        forall|k: int|
            0 <= k < m.without_fd(fd).entries.len() ==> m.entries.contains(
                #[trigger] m.without_fd(fd).entries[k],
            ),
{
    if has_fd(m.entries, fd) {
        let i = index_of(m.entries, fd);
        lemma_index_of_some(m.entries, fd);
        let es = m.entries;
        let n = es.len();
        let r = swap_removed(es, i);
        let rid = es[i].record;
        let rr = m.records.update(rid as int, false);
        assert(r.len() == n - 1);
        // every entry of `r` is an entry of `es` other than position `i`
        assert forall|k: int| 0 <= k < r.len() implies (if k == i {
            r[k] == es[n - 1]
        } else {
            r[k] == es[k]
        }) by {}
        assert forall|a: int, b: int|
            0 <= a < r.len() && 0 <= b < r.len() && a != b implies #[trigger] r[a].fd
            != #[trigger] r[b].fd by {
            let ia = if a == i { n - 1 } else { a };
            let ib = if b == i { n - 1 } else { b };
            assert(r[a] == es[ia]);
            assert(r[b] == es[ib]);
        }
        assert forall|a: int, b: int|
            0 <= a < r.len() && 0 <= b < r.len() && a != b implies #[trigger] r[a].record
            != #[trigger] r[b].record by {
            let ia = if a == i { n - 1 } else { a };
            let ib = if b == i { n - 1 } else { b };
            assert(r[a] == es[ia]);
            assert(r[b] == es[ib]);
        }
        assert forall|a: int| 0 <= a < r.len() implies #[trigger] r[a].record < m.records.len() by {
            let ia = if a == i { n - 1 } else { a };
            assert(r[a] == es[ia]);
        }
        assert forall|k: int| 0 <= k < r.len() implies m.entries.contains(#[trigger] r[k]) by {
            let ik = if k == i { n - 1 } else { k };
            assert(r[k] == es[ik]);
        }
        assert forall|id: int| 0 <= id < rr.len() && #[trigger] rr[id] implies exists|k: int|
            0 <= k < r.len() && #[trigger] r[k].record == id by {
            assert(id != rid);
            assert(m.records[id]);
            let j = choose|j: int| 0 <= j < es.len() && #[trigger] es[j].record == id;
            assert(j != i);
            if j == n - 1 {
                assert(r[i] == es[j]);
                assert(r[i].record == id);
            } else {
                assert(r[j] == es[j]);
                assert(r[j].record == id);
            }
        }
        assert(!has_fd(r, fd)) by {
            if has_fd(r, fd) {
                let k = choose|k: int| 0 <= k < r.len() && #[trigger] r[k].fd == fd;
                let ik = if k == i { n - 1 } else { k };
                assert(r[k] == es[ik]);
            }
        }
        assert forall|g: RawFd| #[trigger] has_fd(r, g) implies has_fd(es, g) by {
            let k = choose|k: int| 0 <= k < r.len() && #[trigger] r[k].fd == g;
            let ik = if k == i { n - 1 } else { k };
            assert(r[k] == es[ik]);
            assert(es[ik].fd == g);
        }
        assert forall|g: RawFd| g != fd && has_fd(es, g) implies #[trigger] has_fd(r, g) by {
            let k = choose|k: int| 0 <= k < es.len() && #[trigger] es[k].fd == g;
            assert(k != i);
            if k == n - 1 {
                assert(r[i] == es[k]);
                assert(r[i].fd == g);
            } else {
                assert(r[k] == es[k]);
                assert(r[k].fd == g);
            }
        }
        if m.wf() {
            assert forall|k: int| 0 <= k < r.len() implies !m.pending_removal.contains(
                #[trigger] r[k].fd,
            ) by {
                let ik = if k == i { n - 1 } else { k };
                assert(r[k] == es[ik]);
            }
        }
    } else {
        assert forall|k: int|
            0 <= k < m.entries.len() implies m.entries.contains(#[trigger] m.entries[k]) by {}
    }
}

proof fn lemma_without_fds_wf(m: RegistryModel, targets: Seq<RawFd>)
    requires
        m.wf_core(),
    ensures
        m.without_fds(targets).wf_core(),
        m.without_fds(targets).records.len() == m.records.len(),
        m.without_fds(targets).pending_removal == m.pending_removal,
        m.without_fds(targets).pending_wake == m.pending_wake,
        records_fall(m, m.without_fds(targets)),
        forall|g: RawFd| #[trigger] m.without_fds(targets).is_registered(g) ==> m.is_registered(g),
        forall|k: int|
            0 <= k < targets.len() ==> !m.without_fds(targets).is_registered(#[trigger] targets[k]),
        forall|g: RawFd|
            m.is_registered(g) && !targets.contains(g) ==> #[trigger] m.without_fds(
                targets,
            ).is_registered(g),
        forall|k: int|
            0 <= k < m.without_fds(targets).entries.len() ==> m.entries.contains(
                #[trigger] m.without_fds(targets).entries[k],
            ),
    decreases targets.len(),
{
    if targets.len() > 0 {
        let prefix = targets.drop_last();
        lemma_without_fds_wf(m, prefix);
        let p = m.without_fds(prefix);
        lemma_without_fd_wf(p, targets.last());
        let r = m.without_fds(targets);
        assert forall|g: RawFd|
            m.is_registered(g) && !targets.contains(g) implies #[trigger] m.without_fds(
            targets,
        ).is_registered(g) by {
            if prefix.contains(g) {
                let k = choose|k: int| 0 <= k < prefix.len() && prefix[k] == g;
                assert(targets[k] == g);
            }
            assert(g != targets.last());
            assert(p.is_registered(g));
        }
        assert forall|k: int|
            0 <= k < targets.len() implies !m.without_fds(targets).is_registered(
            #[trigger] targets[k],
        ) by {
            if k < targets.len() - 1 {
                assert(prefix[k] == targets[k]);
                assert(!p.is_registered(prefix[k]));
            }
        }
        assert forall|k: int| 0 <= k < r.entries.len() implies m.entries.contains(
            #[trigger] r.entries[k],
        ) by {
            assert(p.entries.contains(r.entries[k]));
            let j = choose|j: int| 0 <= j < p.entries.len() && p.entries[j] == r.entries[k];
            assert(m.entries.contains(p.entries[j]));
        }
        assert forall|id: int| 0 <= id < m.records.len() && #[trigger] r.records[id] implies m.records[id] by {
            assert(p.records[id]);
        }
    } else {
        assert forall|k: int|
            0 <= k < m.entries.len() implies m.entries.contains(#[trigger] m.entries[k]) by {}
    }
}

proof fn lemma_deregistered_all_wf(m: RegistryModel, targets: Seq<RawFd>)
    requires
        m.wf(),
    ensures
        m.deregistered_all(targets).wf(),
        records_fall(m, m.deregistered_all(targets)),
        forall|k: int|
            0 <= k < targets.len() ==> !m.deregistered_all(targets).is_registered(
                #[trigger] targets[k],
            ),
        forall|g: RawFd|
            m.is_registered(g) && !targets.contains(g) ==> #[trigger] m.deregistered_all(
                targets,
            ).is_registered(g),
        forall|g: RawFd| #[trigger] m.deregistered_all(targets).is_registered(g) ==> m.is_registered(g),
        forall|k: int|
            0 <= k < m.deregistered_all(targets).entries.len() ==> m.entries.contains(
                #[trigger] m.deregistered_all(targets).entries[k],
            ),
{
    lemma_without_fds_wf(m, targets);
    let d = m.deregistered_all(targets);
    let w = m.without_fds(targets);
    assert(d.entries == w.entries);
    assert forall|g: RawFd| #[trigger] d.is_registered(g) implies m.is_registered(g) by {
        assert(w.is_registered(g));
    }
    assert forall|g: RawFd| m.is_registered(g) && !targets.contains(g) implies #[trigger] d.is_registered(g) by {
        assert(w.is_registered(g));
    }
    assert forall|k: int| 0 <= k < targets.len() implies !d.is_registered(#[trigger] targets[k]) by {
        assert(!w.is_registered(targets[k]));
    }
    assert forall|k: int| 0 <= k < d.entries.len() implies m.entries.contains(#[trigger] d.entries[k]) by {
        assert(m.entries.contains(w.entries[k]));
    }
    assert forall|k: int| 0 <= k < d.entries.len() implies !d.pending_removal.contains(
        #[trigger] d.entries[k].fd,
    ) by {
        let e = d.entries[k];
        assert(m.entries.contains(w.entries[k]));
        let j = choose|j: int| 0 <= j < m.entries.len() && m.entries[j] == e;
        assert(!m.pending_removal.contains(m.entries[j].fd));
        assert(has_fd(d.entries, e.fd));
        if targets.contains(e.fd) {
            let t = choose|t: int| 0 <= t < targets.len() && targets[t] == e.fd;
            assert(!w.is_registered(targets[t]));
        }
        lemma_concat_contains(m.pending_removal, targets, e.fd);
    }
}

proof fn lemma_registered_wf(m: RegistryModel, fd: RawFd, token: Token, mask: u16)
    requires
        m.wf(),
        !m.is_registered(fd),
        m.records.len() <= usize::MAX,
    ensures
        m.registered(fd, token, mask).wf(),
        records_fall(m, m.registered(fd, token, mask)),
        m.registered(fd, token, mask).is_registered(fd),
        m.registered(fd, token, mask).entry(fd) == (FdEntry {
            fd: fd,
            token: token,
            events: mask,
            record: m.records.len() as usize,
        }),
        m.registered(fd, token, mask).record_registered(m.records.len() as usize),
{
    let r = m.registered(fd, token, mask);
    let n = m.entries.len();
    lemma_without(m.pending_removal, fd);
    assert forall|a: int, b: int|
        0 <= a < r.entries.len() && 0 <= b < r.entries.len() && a != b implies #[trigger] r.entries[a].fd
        != #[trigger] r.entries[b].fd by {
        if a == n {
            assert(m.entries[b].fd == r.entries[b].fd);
        } else if b == n {
            assert(m.entries[a].fd == r.entries[a].fd);
        }
    }
    assert forall|a: int, b: int|
        0 <= a < r.entries.len() && 0 <= b < r.entries.len() && a != b implies #[trigger] r.entries[a].record
        != #[trigger] r.entries[b].record by {
        if a == n {
            assert(m.entries[b].record < m.records.len());
        } else if b == n {
            assert(m.entries[a].record < m.records.len());
        }
    }
    assert forall|id: int| 0 <= id < r.records.len() && #[trigger] r.records[id] implies exists|k: int|
        0 <= k < r.entries.len() && #[trigger] r.entries[k].record == id by {
        if id < m.records.len() {
            assert(m.records[id]);
            let j = choose|j: int| 0 <= j < m.entries.len() && #[trigger] m.entries[j].record == id;
            assert(r.entries[j] == m.entries[j]);
        } else {
            assert(r.entries[n as int].record == id);
        }
    }
    assert forall|k: int| 0 <= k < r.entries.len() implies !r.pending_removal.contains(
        #[trigger] r.entries[k].fd,
    ) by {
        if k < n {
            assert(r.entries[k] == m.entries[k]);
            assert(!m.pending_removal.contains(m.entries[k].fd));
        }
    }
    lemma_index_of(r.entries, fd, n as int);
}

proof fn lemma_reregistered_wf(m: RegistryModel, fd: RawFd, token: Token, mask: u16)
    requires
        m.wf(),
        m.is_registered(fd),
    ensures
        m.reregistered(fd, token, mask).wf(),
        records_fall(m, m.reregistered(fd, token, mask)),
        forall|g: RawFd| #[trigger] m.reregistered(fd, token, mask).is_registered(g) == m.is_registered(g),
{
    let i = index_of(m.entries, fd);
    lemma_index_of_some(m.entries, fd);
    let r = m.reregistered(fd, token, mask);
    assert forall|g: RawFd| #[trigger] r.is_registered(g) == m.is_registered(g) by {
        if has_fd(m.entries, g) {
            let k = choose|k: int| 0 <= k < m.entries.len() && #[trigger] m.entries[k].fd == g;
            assert(r.entries[k].fd == g);
        }
        if has_fd(r.entries, g) {
            let k = choose|k: int| 0 <= k < r.entries.len() && #[trigger] r.entries[k].fd == g;
            assert(m.entries[k].fd == g);
        }
    }
    assert forall|id: int| 0 <= id < r.records.len() && #[trigger] r.records[id] implies exists|k: int|
        0 <= k < r.entries.len() && #[trigger] r.entries[k].record == id by {
        let j = choose|j: int| 0 <= j < m.entries.len() && #[trigger] m.entries[j].record == id;
        assert(r.entries[j].record == m.entries[j].record);
    }
    assert forall|k: int| 0 <= k < r.entries.len() implies !r.pending_removal.contains(
        #[trigger] r.entries[k].fd,
    ) by {
        assert(r.entries[k].fd == m.entries[k].fd);
    }
}

proof fn lemma_record_marked_wf(m: RegistryModel, id: usize)
    requires
        m.wf(),
    ensures
        m.record_marked(id).wf(),
        records_fall(m, m.record_marked(id)),
        !m.record_marked(id).record_registered(id),
{
    let r = m.record_marked(id);
    assert forall|j: int| 0 <= j < r.records.len() && #[trigger] r.records[j] implies exists|k: int|
        0 <= k < r.entries.len() && #[trigger] r.entries[k].record == j by {
        assert(m.records[j]);
        let k = choose|k: int| 0 <= k < m.entries.len() && #[trigger] m.entries[k].record == j;
        assert(r.entries[k].record == j);
    }
}

/// `deliver` changes only the readiness bits of registrations.
proof fn lemma_deliver_shape(es: Seq<FdEntry>, pending: Seq<RawFd>, polled: Seq<PollFd>)
    ensures
        deliver(es, pending, polled).0.len() == es.len(),
        forall|k: int|
            0 <= k < es.len() ==> (#[trigger] deliver(es, pending, polled).0[k]).fd == es[k].fd
                && deliver(es, pending, polled).0[k].record == es[k].record
                && deliver(es, pending, polled).0[k].token == es[k].token,
    decreases polled.len(),
{
    if polled.len() > 0 {
        lemma_deliver_shape(es, pending, polled.drop_last());
        let prev = deliver(es, pending, polled.drop_last());
        let p = polled.last();
        if p.revents != 0 && !pending.contains(p.fd) && has_fd(prev.0, p.fd) {
            lemma_index_of_some(prev.0, p.fd);
        }
    }
}

proof fn lemma_deliver_wf(m: RegistryModel, pending: Seq<RawFd>, polled: Seq<PollFd>)
    requires
        m.wf_core(),
    ensures
        ({
            let d = deliver(m.entries, pending, polled);
            &&& unique_fds(d.0)
            &&& unique_records(d.0)
            &&& records_below(d.0, m.records.len())
            &&& records_live(d.0, m.records)
            &&& forall|g: RawFd| #[trigger] has_fd(d.0, g) == has_fd(m.entries, g)
        }),
{
    lemma_deliver_shape(m.entries, pending, polled);
    let d = deliver(m.entries, pending, polled);
    assert forall|a: int, b: int|
        0 <= a < d.0.len() && 0 <= b < d.0.len() && a != b implies #[trigger] d.0[a].fd
        != #[trigger] d.0[b].fd by {
        assert(d.0[a].fd == m.entries[a].fd);
        assert(d.0[b].fd == m.entries[b].fd);
    }
    assert forall|a: int, b: int|
        0 <= a < d.0.len() && 0 <= b < d.0.len() && a != b implies #[trigger] d.0[a].record
        != #[trigger] d.0[b].record by {
        assert(d.0[a].record == m.entries[a].record);
        assert(d.0[b].record == m.entries[b].record);
    }
    assert forall|a: int| 0 <= a < d.0.len() implies #[trigger] d.0[a].record < m.records.len() by {
        assert(d.0[a].record == m.entries[a].record);
    }
    assert forall|id: int| 0 <= id < m.records.len() && #[trigger] m.records[id] implies exists|k: int|
        0 <= k < d.0.len() && #[trigger] d.0[k].record == id by {
        let j = choose|j: int| 0 <= j < m.entries.len() && #[trigger] m.entries[j].record == id;
        assert(d.0[j].record == m.entries[j].record);
    }
    assert forall|g: RawFd| #[trigger] has_fd(d.0, g) == has_fd(m.entries, g) by {
        if has_fd(m.entries, g) {
            let k = choose|k: int| 0 <= k < m.entries.len() && #[trigger] m.entries[k].fd == g;
            assert(d.0[k].fd == g);
        }
        if has_fd(d.0, g) {
            let k = choose|k: int| 0 <= k < d.0.len() && #[trigger] d.0[k].fd == g;
            assert(m.entries[k].fd == g);
        }
    }
}

// ---------------------------------------------------------------------------
// Laws of the registry
// ---------------------------------------------------------------------------

/// A fresh registration is registered under the token and readiness bits it
/// was given and a record id not used before, which counts as registered.
pub proof fn law_registration_recorded(m: RegistryModel, fd: RawFd, token: Token, mask: u16)
    requires
        m.wf(),
        !m.is_registered(fd),
        m.records.len() <= usize::MAX,
    ensures
        m.registered(fd, token, mask).wf(),
        m.registered(fd, token, mask).is_registered(fd),
        m.registered(fd, token, mask).entry(fd) == (FdEntry {
            fd: fd,
            token: token,
            events: mask,
            record: m.records.len() as usize,
        }),
        m.registered(fd, token, mask).record_registered(m.records.len() as usize),
        !m.record_registered(m.records.len() as usize),
{
    lemma_registered_wf(m, fd, token, mask);
}

/// Registering a descriptor takes it out of the pending removals, and only
/// it: its readiness is reported by the next selection even if it was
/// deregistered since the previous one.
pub proof fn law_register_clears_pending(m: RegistryModel, fd: RawFd, token: Token, mask: u16)
    ensures
        !m.registered(fd, token, mask).pending_removal.contains(fd),
        forall|g: RawFd|
            g != fd && m.pending_removal.contains(g) ==> #[trigger] m.registered(
                fd,
                token,
                mask,
            ).pending_removal.contains(g),
{
    lemma_without(m.pending_removal, fd);
}

/// Registering a descriptor that is not registered and deregistering it
/// again succeeds and gives back the same registrations, in the same order;
/// the record of the undone registration stays behind, unregistered, and the
/// descriptor is left pending removal.
pub proof fn law_register_then_deregister(m: RegistryModel, fd: RawFd, token: Token, mask: u16)
    requires
        m.wf(),
        !m.is_registered(fd),
        m.records.len() <= usize::MAX,
    ensures
        m.registered(fd, token, mask).all_registered(seq![fd]),
        m.registered(fd, token, mask).deregistered_all(seq![fd]).entries == m.entries,
        m.registered(fd, token, mask).deregistered_all(seq![fd]).records == m.records.push(false),
        m.registered(fd, token, mask).deregistered_all(seq![fd]).pending_removal == without(
            m.pending_removal,
            fd,
        ).push(fd),
        m.registered(fd, token, mask).deregistered_all(seq![fd]).pending_wake == m.pending_wake,
{
    let r = m.registered(fd, token, mask);
    let n = m.entries.len();
    lemma_registered_wf(m, fd, token, mask);
    lemma_index_of(r.entries, fd, n as int);
    assert(seq![fd].drop_last() =~= Seq::<RawFd>::empty());
    assert(seq![fd].last() == fd);
    assert(r.without_fds(Seq::<RawFd>::empty()) == r);
    assert(r.all_registered(Seq::<RawFd>::empty()));
    assert(swap_removed(r.entries, n as int) =~= m.entries);
    assert(r.records.update(m.records.len() as int, false) =~= m.records.push(false));
    assert(r.pending_removal + seq![fd] =~= without(m.pending_removal, fd).push(fd));
}

/// Deregistering a descriptor that is not registered fails and leaves every
/// registration and record as it was.
pub proof fn law_deregister_unregistered(m: RegistryModel, fd: RawFd)
    requires
        m.wf(),
        !m.is_registered(fd),
    ensures
        !m.all_registered(seq![fd]),
        m.deregistered_all(seq![fd]).entries == m.entries,
        m.deregistered_all(seq![fd]).records == m.records,
{
    assert(seq![fd].drop_last() =~= Seq::<RawFd>::empty());
    assert(seq![fd].last() == fd);
    assert(m.without_fds(Seq::<RawFd>::empty()) == m);
}

/// Deregistering a registered descriptor succeeds; afterwards it is not
/// registered, the record of its registration no longer counts as
/// registered, and every other descriptor is registered exactly when it
/// was before.
pub proof fn law_deregister_revokes(m: RegistryModel, fd: RawFd)
    requires
        m.wf(),
        m.is_registered(fd),
    ensures
        m.all_registered(seq![fd]),
        m.deregistered_all(seq![fd]).wf(),
        !m.deregistered_all(seq![fd]).is_registered(fd),
        !m.deregistered_all(seq![fd]).record_registered(m.entry(fd).record),
        forall|g: RawFd|
            g != fd ==> #[trigger] m.deregistered_all(seq![fd]).is_registered(g) == m.is_registered(
                g,
            ),
{
    assert(seq![fd].drop_last() =~= Seq::<RawFd>::empty());
    assert(seq![fd].last() == fd);
    assert(m.without_fds(Seq::<RawFd>::empty()) == m);
    assert(m.all_registered(Seq::<RawFd>::empty()));
    lemma_without_fd_wf(m, fd);
    lemma_index_of_some(m.entries, fd);
    let d = m.deregistered_all(seq![fd]);
    assert(d.entries == m.without_fd(fd).entries);
    assert forall|g: RawFd| g != fd implies #[trigger] d.is_registered(g) == m.is_registered(g) by {
        assert(d.is_registered(g) == m.without_fd(fd).is_registered(g));
        if m.is_registered(g) {
            assert(m.without_fd(fd).is_registered(g));
        }
    }
}

/// A requested wake-up is reported exactly once: as the first event of the
/// next selection, with readable readiness, and by no selection after it.
pub proof fn law_wake_reported_once(
    m: RegistryModel,
    token: Token,
    polled: Seq<PollFd>,
    later: Seq<PollFd>,
)
    requires
        m.wf(),
    ensures
        m.woken(token).select_events(polled).len() >= 1,
        m.woken(token).select_events(polled)[0] == (Event { token: token, events: POLLIN }),
        m.woken(token).selected(polled).select_events(later) == deliver(
            m.woken(token).selected(polled).entries,
            m.woken(token).selected(polled).pending_removal,
            later,
        ).1,
{
    let w = m.woken(token);
    let d = deliver(w.entries, w.pending_removal, polled);
    let s = w.selected(polled);
    assert(wake_events(Some(token)) + d.1 == w.select_events(polled));
    assert((wake_events(Some(token)) + d.1)[0] == wake_events(Some(token))[0]);
    assert(s.pending_wake == None::<Token>);
    assert(wake_events(None) + deliver(s.entries, s.pending_removal, later).1 =~= deliver(
        s.entries,
        s.pending_removal,
        later,
    ).1);
}

/// A selection keeps the state well formed, and no descriptor that it found
/// closed (hang-up or error) is registered after it.
pub proof fn law_select_deregisters_closed(m: RegistryModel, polled: Seq<PollFd>)
    requires
        m.wf(),
    ensures
        m.selected(polled).wf(),
        m.selected(polled).pending_wake is None,
        m.selected(polled).pending_removal == m.closed_by(polled),
        forall|k: int|
            0 <= k < m.closed_by(polled).len() ==> !m.selected(polled).is_registered(
                #[trigger] m.closed_by(polled)[k],
            ),
{
    let d = deliver(m.entries, m.pending_removal, polled);
    let mid = RegistryModel {
        entries: d.0,
        records: m.records,
        pending_removal: Seq::empty(),
        pending_wake: None,
    };
    lemma_deliver_wf(m, m.pending_removal, polled);
    lemma_without_fds_wf(mid, d.2);
    assert(Seq::<RawFd>::empty() + d.2 =~= d.2);
}

/// Reregistering a registered descriptor changes only its own token and
/// readiness bits: it keeps its position and record, and every other
/// registration stays as it was.
pub proof fn law_reregister_in_place(m: RegistryModel, fd: RawFd, token: Token, mask: u16)
    requires
        m.wf(),
        m.is_registered(fd),
    ensures
        m.reregistered(fd, token, mask).wf(),
        m.reregistered(fd, token, mask).entries.len() == m.entries.len(),
        m.reregistered(fd, token, mask).entry(fd) == (FdEntry {
            fd: fd,
            token: token,
            events: mask,
            record: m.entry(fd).record,
        }),
        forall|k: int|
            0 <= k < m.entries.len() && m.entries[k].fd != fd ==> #[trigger] m.reregistered(
                fd,
                token,
                mask,
            ).entries[k] == m.entries[k],
        m.reregistered(fd, token, mask).records == m.records,
{
    lemma_reregistered_wf(m, fd, token, mask);
    lemma_index_of_some(m.entries, fd);
    let i = index_of(m.entries, fd);
    let r = m.reregistered(fd, token, mask);
    lemma_index_of(r.entries, fd, i);
}

/// A selection deregisters no descriptor that it did not find closed.
pub proof fn law_select_keeps_open(m: RegistryModel, polled: Seq<PollFd>)
    requires
        m.wf(),
    ensures
        forall|g: RawFd|
            m.is_registered(g) && !m.closed_by(polled).contains(g) ==> #[trigger] m.selected(
                polled,
            ).is_registered(g),
{
    let d = deliver(m.entries, m.pending_removal, polled);
    let mid = RegistryModel {
        entries: d.0,
        records: m.records,
        pending_removal: Seq::empty(),
        pending_wake: None,
    };
    lemma_deliver_wf(m, m.pending_removal, polled);
    lemma_without_fds_wf(mid, d.2);
    assert forall|g: RawFd|
        m.is_registered(g) && !m.closed_by(polled).contains(g) implies #[trigger] m.selected(
        polled,
    ).is_registered(g) by {
        assert(has_fd(d.0, g));
        assert(mid.is_registered(g));
        assert(mid.without_fds(d.2).is_registered(g));
    }
}

/// A record counts as registered only while the registration it was handed
/// out for stands.
pub proof fn law_records_track_registrations(m: RegistryModel)
    requires
        m.wf(),
    ensures
        forall|id: usize|
            #[trigger] m.record_registered(id) ==> exists|i: int|
                0 <= i < m.entries.len() && m.entries[i].record == id,
{
    assert forall|id: usize| #[trigger] m.record_registered(id) implies exists|i: int|
        0 <= i < m.entries.len() && m.entries[i].record == id by {
        assert(m.records[id as int]);
        let i = choose|i: int| 0 <= i < m.entries.len() && #[trigger] m.entries[i].record == id as int;
        assert(m.entries[i].record == id);
    }
}

/// No operation makes a record count as registered again once it does not:
/// a registration always gets a fresh record.
pub proof fn law_records_never_return(
    m: RegistryModel,
    fd: RawFd,
    token: Token,
    mask: u16,
    targets: Seq<RawFd>,
    id: usize,
    polled: Seq<PollFd>,
)
    requires
        m.wf(),
    ensures
        records_fall(m, m.registered(fd, token, mask)),
        records_fall(m, m.reregistered(fd, token, mask)),
        records_fall(m, m.deregistered_all(targets)),
        records_fall(m, m.woken(token)),
        records_fall(m, m.record_marked(id)),
        records_fall(m, m.selected(polled)),
{
    let r = m.registered(fd, token, mask);
    assert forall|j: int| 0 <= j < m.records.len() && #[trigger] r.records[j] implies m.records[j] by {
        assert(r.records[j] == m.records[j]);
    }
    lemma_deregistered_all_wf(m, targets);
    lemma_record_marked_wf(m, id);
    let d = deliver(m.entries, m.pending_removal, polled);
    let mid = RegistryModel {
        entries: d.0,
        records: m.records,
        pending_removal: Seq::empty(),
        pending_wake: None,
    };
    lemma_deliver_wf(m, m.pending_removal, polled);
    lemma_deregistered_all_wf(mid, d.2);
}

/// Deregistering `targets` followed by `x` in one call is deregistering
/// `targets` and then `x` alone: the same final state, and success exactly
/// when both steps succeed. By induction, one call on a list is the same as
/// one `deregister` per descriptor, in order.
pub proof fn law_deregister_all_stepwise(m: RegistryModel, targets: Seq<RawFd>, x: RawFd)
    ensures
        m.deregistered_all(targets.push(x)) == m.deregistered_all(targets).deregistered_all(
            seq![x],
        ),
        m.all_registered(targets.push(x)) == (m.all_registered(targets) && m.deregistered_all(
            targets,
        ).all_registered(seq![x])),
{
    let t2 = targets.push(x);
    assert(t2.drop_last() =~= targets);
    assert(t2.last() == x);
    assert(seq![x].drop_last() =~= Seq::<RawFd>::empty());
    assert(seq![x].last() == x);
    let d = m.deregistered_all(targets);
    let w = m.without_fds(targets);
    assert(d.without_fds(Seq::<RawFd>::empty()) == d);
    assert(d.all_registered(Seq::<RawFd>::empty()));
    assert(d.entries == w.entries && d.records == w.records);
    assert(d.without_fd(x).entries == w.without_fd(x).entries);
    assert(d.without_fd(x).records == w.without_fd(x).records);
    assert(m.pending_removal + targets + seq![x] =~= m.pending_removal + t2);
    assert(m.deregistered_all(t2) =~= d.deregistered_all(seq![x]));
}

/// The events of `deliver` on a prefix of the results come first, unchanged,
/// among the events on all of them.
proof fn lemma_deliver_prefix(es: Seq<FdEntry>, pending: Seq<RawFd>, polled: Seq<PollFd>, j: int)
    requires
        0 <= j <= polled.len(),
    ensures
        deliver(es, pending, polled.take(j)).1.len() <= deliver(es, pending, polled).1.len(),
        forall|i: int|
            0 <= i < deliver(es, pending, polled.take(j)).1.len() ==> #[trigger] deliver(
                es,
                pending,
                polled,
            ).1[i] == deliver(es, pending, polled.take(j)).1[i],
    decreases polled.len(),
{
    if j == polled.len() {
        assert(polled.take(j) =~= polled);
    } else {
        let pre = polled.drop_last();
        assert(pre.take(j) =~= polled.take(j));
        lemma_deliver_prefix(es, pending, pre, j);
    }
}

/// A selection reports every registered descriptor that `poll(2)` reports
/// ready: the event carries the token the descriptor is registered under and
/// the readiness `poll(2)` reported.
pub proof fn law_ready_reported(m: RegistryModel, polled: Seq<PollFd>, k: int)
    requires
        m.wf(),
        0 <= k < polled.len(),
        polled[k].revents != 0,
        m.is_registered(polled[k].fd),
    ensures
        m.select_events(polled).contains(
            Event { token: m.entry(polled[k].fd).token, events: polled[k].revents },
        ),
{
    let fd = polled[k].fd;
    let pre = polled.take(k + 1);
    assert(pre.drop_last() =~= polled.take(k));
    assert(pre.last() == polled[k]);
    let prev = deliver(m.entries, m.pending_removal, polled.take(k));
    lemma_deliver_wf(m, m.pending_removal, polled.take(k));
    lemma_deliver_shape(m.entries, m.pending_removal, polled.take(k));
    lemma_index_of_some(m.entries, fd);
    let im = index_of(m.entries, fd);
    assert(!m.pending_removal.contains(m.entries[im].fd));
    assert(has_fd(prev.0, fd));
    lemma_index_of_some(prev.0, fd);
    let i = index_of(prev.0, fd);
    lemma_index_of(m.entries, fd, i);
    let ev = Event { token: m.entry(fd).token, events: polled[k].revents };
    assert(deliver(m.entries, m.pending_removal, pre).1 == prev.1.push(ev));
    lemma_deliver_prefix(m.entries, m.pending_removal, polled, k + 1);
    let all = deliver(m.entries, m.pending_removal, polled).1;
    assert(all[prev.1.len() as int] == ev);
    let w = wake_events(m.pending_wake);
    assert((w + all)[(w.len() + prev.1.len()) as int] == ev);
}

/// Once a registration is re-armed (as after an operation that would block),
/// the next selection reports the readiness `poll(2)` reports for it, under
/// the token it was re-armed with.
pub proof fn law_rearmed_reported(
    m: RegistryModel,
    fd: RawFd,
    token: Token,
    mask: u16,
    polled: Seq<PollFd>,
    k: int,
)
    requires
        m.wf(),
        m.is_registered(fd),
        0 <= k < polled.len(),
        polled[k].fd == fd,
        polled[k].revents != 0,
    ensures
        m.reregistered(fd, token, mask).select_events(polled).contains(
            Event { token: token, events: polled[k].revents },
        ),
{
    lemma_reregistered_wf(m, fd, token, mask);
    law_reregister_in_place(m, fd, token, mask);
    law_ready_reported(m.reregistered(fd, token, mask), polled, k);
}

/// A descriptor that a selection finds closed loses its registration and the
/// registration's record stops counting as registered, so the owner of the
/// source does not deregister it a second time.
pub proof fn law_closed_records_revoked(m: RegistryModel, polled: Seq<PollFd>, fd: RawFd)
    requires
        m.wf(),
        m.is_registered(fd),
        m.closed_by(polled).contains(fd),
    ensures
        !m.selected(polled).is_registered(fd),
        !m.selected(polled).record_registered(m.entry(fd).record),
{
    let c = m.closed_by(polled);
    let kc = choose|kc: int| 0 <= kc < c.len() && c[kc] == fd;
    law_select_deregisters_closed(m, polled);
    assert(!m.selected(polled).is_registered(c[kc]));
    let d = deliver(m.entries, m.pending_removal, polled);
    let mid = RegistryModel {
        entries: d.0,
        records: m.records,
        pending_removal: Seq::empty(),
        pending_wake: None,
    };
    lemma_deliver_wf(m, m.pending_removal, polled);
    lemma_deliver_shape(m.entries, m.pending_removal, polled);
    lemma_deregistered_all_wf(mid, d.2);
    let sel = m.selected(polled);
    lemma_index_of_some(m.entries, fd);
    let im = index_of(m.entries, fd);
    let id = m.entries[im].record;
    if sel.record_registered(id) {
        assert(sel.records[id as int]);
        let i = choose|i: int| 0 <= i < sel.entries.len() && #[trigger] sel.entries[i].record == id as int;
        assert(mid.entries.contains(sel.entries[i]));
        let j = choose|j: int| 0 <= j < d.0.len() && d.0[j] == sel.entries[i];
        assert(d.0[j].record == m.entries[j].record);
        assert(j == im);
        assert(sel.entries[i].fd == fd);
        assert(has_fd(sel.entries, fd));
    }
}

/// Every descriptor that `deliver` names as closed is that of a polled
/// result reporting hang-up or error.
proof fn lemma_closed_have_hangup(es: Seq<FdEntry>, pending: Seq<RawFd>, polled: Seq<PollFd>)
    ensures
        forall|k: int|
            0 <= k < deliver(es, pending, polled).2.len() ==> exists|j: int|
                0 <= j < polled.len() && polled[j].fd == #[trigger] deliver(es, pending, polled).2[k]
                    && polled[j].revents & (POLLHUP | POLLERR) != 0,
    decreases polled.len(),
{
    if polled.len() > 0 {
        let pre = polled.drop_last();
        lemma_closed_have_hangup(es, pending, pre);
        let prev = deliver(es, pending, pre);
        let c = deliver(es, pending, polled).2;
        assert forall|k: int| 0 <= k < c.len() implies exists|j: int|
            0 <= j < polled.len() && polled[j].fd == #[trigger] c[k] && polled[j].revents & (
            POLLHUP | POLLERR) != 0 by {
            if k < prev.2.len() {
                assert(c[k] == prev.2[k]);
                let j = choose|j: int|
                    0 <= j < pre.len() && pre[j].fd == #[trigger] prev.2[k] && pre[j].revents & (
                    POLLHUP | POLLERR) != 0;
                assert(polled[j] == pre[j]);
            } else {
                let j = polled.len() - 1;
                assert(polled[j] == polled.last());
            }
        }
    }
}

/// `poll(2)` reported hang-up (`POLLHUP`) or error (`POLLERR`) for `fd` in
/// one of the results `polled`.
pub open spec fn reported_hangup_or_error(polled: Seq<PollFd>, fd: RawFd) -> bool {
    exists|j: int|
        0 <= j < polled.len() && #[trigger] polled[j].fd == fd && polled[j].revents & (POLLHUP
            | POLLERR) != 0
}

/// A selection takes a descriptor to be closed only when `poll(2)` reported
/// hang-up (`POLLHUP`) or error (`POLLERR`) for it; other readiness, such as
/// the peer closing its writing half (`POLLRDHUP`), never deregisters it.
pub proof fn law_closed_only_on_hangup_or_error(m: RegistryModel, polled: Seq<PollFd>)
    ensures
        forall|k: int|
            0 <= k < m.closed_by(polled).len() ==> reported_hangup_or_error(
                polled,
                #[trigger] m.closed_by(polled)[k],
            ),
{
    lemma_closed_have_hangup(m.entries, m.pending_removal, polled);
    let c = deliver(m.entries, m.pending_removal, polled).2;
    assert forall|k: int| 0 <= k < m.closed_by(polled).len() implies reported_hangup_or_error(
        polled,
        #[trigger] m.closed_by(polled)[k],
    ) by {
        assert(m.closed_by(polled)[k] == c[k]);
        let j = choose|j: int|
            0 <= j < polled.len() && polled[j].fd == #[trigger] c[k] && polled[j].revents & (POLLHUP
                | POLLERR) != 0;
        assert(polled[j].fd == m.closed_by(polled)[k]);
    }
}

/// Removing descriptors other than `g` keeps `g`'s registration as it is and
/// leaves its record's standing alone.
proof fn lemma_without_fds_keeps(m: RegistryModel, targets: Seq<RawFd>, g: RawFd)
    requires
        m.wf_core(),
        m.is_registered(g),
        !targets.contains(g),
    ensures
        m.without_fds(targets).is_registered(g),
        m.without_fds(targets).entry(g) == m.entry(g),
        m.without_fds(targets).records[m.entry(g).record as int] == m.records[m.entry(g).record as int],
    decreases targets.len(),
{
    lemma_without_fds_wf(m, targets);
    if targets.len() > 0 {
        let prefix = targets.drop_last();
        let x = targets.last();
        assert(x != g);
        assert(!prefix.contains(g)) by {
            if prefix.contains(g) {
                let k = choose|k: int| 0 <= k < prefix.len() && prefix[k] == g;
                assert(targets[k] == g);
            }
        }
        lemma_without_fds_keeps(m, prefix, g);
        let p = m.without_fds(prefix);
        lemma_without_fds_wf(m, prefix);
        lemma_without_fd_wf(p, x);
        let w = p.without_fd(x);
        assert(w.is_registered(g));
        lemma_index_of_some(w.entries, g);
        let iw = index_of(w.entries, g);
        assert(p.entries.contains(w.entries[iw]));
        let j = choose|j: int| 0 <= j < p.entries.len() && p.entries[j] == w.entries[iw];
        lemma_index_of(p.entries, g, j);
        assert(w.entry(g) == p.entry(g));
        if has_fd(p.entries, x) {
            lemma_index_of_some(p.entries, x);
            let ix = index_of(p.entries, x);
            assert(ix != j);
            assert(p.entries[ix].record != p.entries[j].record);
        }
    }
}

/// A registered descriptor for which `poll(2)` reported neither hang-up nor
/// error stays registered through a selection, with the same token and
/// record, and its record keeps its standing.
pub proof fn law_select_keeps_unclosed(m: RegistryModel, polled: Seq<PollFd>, g: RawFd)
    requires
        m.wf(),
        m.is_registered(g),
        forall|j: int|
            0 <= j < polled.len() && #[trigger] polled[j].fd == g ==> polled[j].revents & (POLLHUP
                | POLLERR) == 0,
    ensures
        m.selected(polled).is_registered(g),
        m.selected(polled).entry(g).token == m.entry(g).token,
        m.selected(polled).entry(g).record == m.entry(g).record,
        m.selected(polled).record_registered(m.entry(g).record) == m.record_registered(
            m.entry(g).record,
        ),
{
    let d = deliver(m.entries, m.pending_removal, polled);
    lemma_closed_have_hangup(m.entries, m.pending_removal, polled);
    assert(!d.2.contains(g)) by {
        if d.2.contains(g) {
            let k = choose|k: int| 0 <= k < d.2.len() && d.2[k] == g;
            let j = choose|j: int|
                0 <= j < polled.len() && polled[j].fd == #[trigger] d.2[k] && polled[j].revents & (
                POLLHUP | POLLERR) != 0;
            assert(polled[j].fd == g);
        }
    }
    let mid = RegistryModel {
        entries: d.0,
        records: m.records,
        pending_removal: Seq::empty(),
        pending_wake: None,
    };
    lemma_deliver_wf(m, m.pending_removal, polled);
    lemma_deliver_shape(m.entries, m.pending_removal, polled);
    lemma_index_of_some(m.entries, g);
    let im = index_of(m.entries, g);
    assert(d.0[im].fd == g);
    lemma_index_of(d.0, g, im);
    assert(mid.entry(g).record == m.entry(g).record);
    assert(mid.entry(g).token == m.entry(g).token);
    lemma_without_fds_keeps(mid, d.2, g);
    let w = mid.without_fds(d.2);
    let sel = m.selected(polled);
    assert(sel.entries == w.entries && sel.records == w.records);
    assert(sel.entry(g) == w.entry(g));
    lemma_without_fds_wf(mid, d.2);
    let rid = m.entry(g).record;
    assert(rid < m.records.len());
    assert(sel.records.len() == m.records.len());
    assert(sel.records[rid as int] == m.records[rid as int]);
}

/// The readiness bits polled for an interest: `POLLIN` and `POLLRDHUP`
/// exactly when it asks for readable readiness, `POLLOUT` exactly when it
/// asks for writable readiness, `POLLPRI` exactly when it asks for priority
/// readiness, and no other bit.
pub proof fn law_poll_mask_bits(i: Interest)
    ensures
        (poll_mask(i) & POLLIN != 0) == i.wants_read(),
        (poll_mask(i) & POLLRDHUP != 0) == i.wants_read(),
        (poll_mask(i) & POLLOUT != 0) == i.wants_write(),
        (poll_mask(i) & POLLPRI != 0) == i.wants_priority(),
        poll_mask(i) & !(POLLIN | POLLRDHUP | POLLOUT | POLLPRI) == 0,
{
    let r = i.wants_read();
    let w = i.wants_write();
    let p = i.wants_priority();
    let m = poll_mask(i);
    assert(m == ((if r { POLLIN | POLLRDHUP } else { 0u16 }) | (if w { POLLOUT } else { 0u16 }) | (
    if p { POLLPRI } else { 0u16 })));
    assert((m & POLLIN != 0) == r && (m & POLLRDHUP != 0) == r && (m & POLLOUT != 0) == w && (m
        & POLLPRI != 0) == p && m & !(POLLIN | POLLRDHUP | POLLOUT | POLLPRI) == 0) by (bit_vector)
        requires
            m == ((if r { 0x0001u16 | 0x2000u16 } else { 0u16 }) | (if w { 0x0004u16 } else { 0u16 }) | (
            if p { 0x0002u16 } else { 0u16 })),
    ;
}

/// After registering `fd` with interests `i`, the selector polls `fd` for
/// readable readiness exactly when `i` asks for it, for writable readiness
/// exactly when `i` asks for it, and for priority readiness exactly when `i`
/// asks for it, and reports its events under `token`.
pub proof fn law_register_polls_interests(m: RegistryModel, fd: RawFd, token: Token, i: Interest)
    requires
        m.wf(),
        !m.is_registered(fd),
        m.records.len() <= usize::MAX,
    ensures
        m.registered(fd, token, poll_mask(i)).is_registered(fd),
        m.registered(fd, token, poll_mask(i)).entry(fd).token == token,
        (m.registered(fd, token, poll_mask(i)).entry(fd).events & POLLIN != 0) == i.wants_read(),
        (m.registered(fd, token, poll_mask(i)).entry(fd).events & POLLOUT != 0) == i.wants_write(),
        (m.registered(fd, token, poll_mask(i)).entry(fd).events & POLLPRI != 0) == i.wants_priority(),
{
    lemma_registered_wf(m, fd, token, poll_mask(i));
    law_poll_mask_bits(i);
}

/// After reregistering a registered `fd` with token `token` and interests
/// `i`, the selector polls `fd` for exactly the readiness `i` asks for and
/// reports its events under `token`.
pub proof fn law_reregister_polls_interests(m: RegistryModel, fd: RawFd, token: Token, i: Interest)
    requires
        m.wf(),
        m.is_registered(fd),
    ensures
        m.reregistered(fd, token, poll_mask(i)).is_registered(fd),
        m.reregistered(fd, token, poll_mask(i)).entry(fd).token == token,
        (m.reregistered(fd, token, poll_mask(i)).entry(fd).events & POLLIN != 0) == i.wants_read(),
        (m.reregistered(fd, token, poll_mask(i)).entry(fd).events & POLLOUT != 0) == i.wants_write(),
        (m.reregistered(fd, token, poll_mask(i)).entry(fd).events & POLLPRI != 0)
            == i.wants_priority(),
{
    lemma_reregistered_wf(m, fd, token, poll_mask(i));
    law_reregister_in_place(m, fd, token, poll_mask(i));
    law_poll_mask_bits(i);
}

/// `e` reports what `poll(2)` said of a polled descriptor that was
/// registered in `m`, under its token, and not pending removal.
pub open spec fn reported_for(m: RegistryModel, polled: Seq<PollFd>, e: Event) -> bool {
    exists|k: int|
        0 <= k < polled.len() && #[trigger] polled[k].revents != 0 && !m.pending_removal.contains(
            polled[k].fd,
        ) && m.is_registered(polled[k].fd) && e == (Event {
            token: m.entry(polled[k].fd).token,
            events: polled[k].revents,
        })
}

/// Every readiness event a selection reports for a registration carries the
/// token registered for a polled descriptor that reported exactly that
/// readiness, was registered, and was not deregistered since the previous
/// selection.
pub proof fn law_events_come_from_registrations(m: RegistryModel, polled: Seq<PollFd>)
    requires
        m.wf(),
    ensures
        forall|j: int|
            0 <= j < deliver(m.entries, m.pending_removal, polled).1.len() ==> reported_for(
                m,
                polled,
                #[trigger] deliver(m.entries, m.pending_removal, polled).1[j],
            ),
    decreases polled.len(),
{
    if polled.len() > 0 {
        let pre = polled.drop_last();
        law_events_come_from_registrations(m, pre);
        let prev = deliver(m.entries, m.pending_removal, pre);
        let ev = deliver(m.entries, m.pending_removal, polled).1;
        let p = polled.last();
        lemma_deliver_wf(m, m.pending_removal, pre);
        lemma_deliver_shape(m.entries, m.pending_removal, pre);
        assert forall|j: int| 0 <= j < ev.len() implies reported_for(m, polled, #[trigger] ev[j]) by {
            if j < prev.1.len() {
                assert(ev[j] == prev.1[j]);
                assert(reported_for(m, pre, prev.1[j]));
                let k = choose|k: int|
                    0 <= k < pre.len() && #[trigger] pre[k].revents != 0
                        && !m.pending_removal.contains(pre[k].fd) && m.is_registered(pre[k].fd)
                        && prev.1[j] == (Event {
                        token: m.entry(pre[k].fd).token,
                        events: pre[k].revents,
                    });
                assert(polled[k] == pre[k]);
            } else {
                let k = polled.len() - 1;
                assert(polled[k] == p);
                lemma_index_of_some(prev.0, p.fd);
                let i = index_of(prev.0, p.fd);
                lemma_index_of(m.entries, p.fd, i);
                assert(polled[k].revents != 0);
            }
        }
    }
}

// ---------------------------------------------------------------------------
// The executable registry
// ---------------------------------------------------------------------------

/// The readiness bits to poll for a given interest.
pub fn interests_to_poll(interests: Interest) -> (r: u16)
    ensures
        r == poll_mask(interests),
{
    (if interests.is_readable() {
        POLLIN | POLLRDHUP
    } else {
        0u16
    }) | (if interests.is_writable() {
        POLLOUT
    } else {
        0u16
    }) | (if interests.is_priority() {
        POLLPRI
    } else {
        0u16
    })
}

/// The position of `fd` among the registrations `es`, if it is registered.
fn find_fd(es: &Vec<FdEntry>, fd: RawFd) -> (r: Option<usize>)
    ensures
        match r {
            Some(i) => i < es.len() && es@[i as int].fd == fd,
            None => !has_fd(es@, fd),
        },
{
    let mut k: usize = 0;
    while k < es.len()
        invariant
            k <= es.len(),
            forall|j: int| 0 <= j < k ==> #[trigger] es@[j].fd != fd,
        decreases es.len() - k,
    {
        if es[k].fd == fd {
            return Some(k);
        }
        k = k + 1;
    }
    None
}

/// Whether `fd` occurs in `v`.
fn contains_fd(v: &Vec<RawFd>, fd: RawFd) -> (r: bool)
    ensures
        r == v@.contains(fd),
{
    let mut k: usize = 0;
    while k < v.len()
        invariant
            k <= v.len(),
            forall|j: int| 0 <= j < k ==> #[trigger] v@[j] != fd,
        decreases v.len() - k,
    {
        if v[k] == fd {
            return true;
        }
        k = k + 1;
    }
    false
}

/// `v` with every occurrence of `fd` left out.
fn without_vec(v: &Vec<RawFd>, fd: RawFd) -> (r: Vec<RawFd>)
    ensures
        r@ == without(v@, fd),
{
    let mut out: Vec<RawFd> = Vec::new();
    let mut k: usize = 0;
    while k < v.len()
        invariant
            k <= v.len(),
            out@ == without(v@.take(k as int), fd),
        decreases v.len() - k,
    {
        assert(v@.take(k as int + 1).drop_last() =~= v@.take(k as int));
        if v[k] != fd {
            out.push(v[k]);
        }
        k = k + 1;
    }
    assert(v@.take(v.len() as int) =~= v@);
    out
}

/// The registrations of a `poll(2)`-based selector, with the bookkeeping
/// that lets a selection run concurrently with registration changes.
pub struct SelectorState {
    entries: Vec<FdEntry>,
    records: Vec<bool>,
    pending_removal: Vec<RawFd>,
    pending_wake: Option<Token>,
}

impl View for SelectorState {
    type V = RegistryModel;

    closed spec fn view(&self) -> RegistryModel {
        RegistryModel {
            entries: self.entries@,
            records: self.records@,
            pending_removal: self.pending_removal@,
            pending_wake: self.pending_wake,
        }
    }
}

impl SelectorState {
    /// A selector with no registrations.
    pub fn new() -> (r: Result<SelectorState, Error>)
        ensures
            r matches Ok(s) && s@ == RegistryModel::empty() && s@.wf(),
    {
        Ok(
            SelectorState {
                entries: Vec::new(),
                records: Vec::new(),
                pending_removal: Vec::new(),
                pending_wake: None,
            },
        )
    }

    /// The `poll(2)` set: every registration, in order, with the readiness
    /// bits it is polled for and no readiness reported yet.
    pub fn poll_fds(&self) -> (r: Vec<PollFd>)
        ensures
            r@ == poll_set(self@.entries),
    {
        let mut out: Vec<PollFd> = Vec::new();
        let mut k: usize = 0;
        while k < self.entries.len()
            invariant
                k <= self.entries.len(),
                out@ == poll_set(self.entries@.take(k as int)),
            decreases self.entries.len() - k,
        {
            let e = self.entries[k];
            out.push(PollFd { fd: e.fd, events: e.events, revents: 0 });
            assert(poll_set(self.entries@.take(k as int + 1)) =~= poll_set(
                self.entries@.take(k as int),
            ).push(PollFd { fd: e.fd, events: e.events, revents: 0 }));
            k = k + 1;
        }
        assert(self.entries@.take(self.entries.len() as int) =~= self.entries@);
        out
    }

    /// Registers `fd` with `token` and `interests` and returns the id of the
    /// registration record that tracks it.
    ///
    /// Fails with `AlreadyExists`, changing nothing, if `fd` is registered.
    pub fn register_internal(&mut self, fd: RawFd, token: Token, interests: Interest) -> (r: Result<
        usize,
        Error,
    >)
        requires
            old(self)@.wf(),
        ensures
            final(self)@.wf(),
            old(self)@.is_registered(fd) ==> r == Err::<usize, Error>(Error::AlreadyExists)
                && final(self)@ == old(self)@,
            !old(self)@.is_registered(fd) ==> r == Ok::<usize, Error>(
                old(self)@.records.len() as usize,
            ) && final(self)@ == old(self)@.registered(fd, token, poll_mask(interests)),
            r matches Ok(id) ==> id == old(self)@.records.len(),
    {
        match find_fd(&self.entries, fd) {
            Some(_) => {
                return Err(Error::AlreadyExists);
            },
            None => {},
        }
        let record: usize = self.records.len();
        proof {
            lemma_registered_wf(self@, fd, token, poll_mask(interests));
        }
        let mask = interests_to_poll(interests);
        self.pending_removal = without_vec(&self.pending_removal, fd);
        self.records.push(true);
        self.entries.push(FdEntry { fd: fd, token: token, events: mask, record: record });
        assert(self@ =~= old(self)@.registered(fd, token, mask));
        Ok(record)
    }

    /// Registers `fd` with `token` and `interests`.
    ///
    /// Fails with `AlreadyExists`, changing nothing, if `fd` is registered.
    pub fn register(&mut self, fd: RawFd, token: Token, interests: Interest) -> (r: Result<
        (),
        Error,
    >)
        requires
            old(self)@.wf(),
        ensures
            final(self)@.wf(),
            old(self)@.is_registered(fd) ==> r == Err::<(), Error>(Error::AlreadyExists)
                && final(self)@ == old(self)@,
            !old(self)@.is_registered(fd) ==> r == Ok::<(), Error>(()) && final(self)@ == old(self)@.registered(fd, token, poll_mask(interests)),
    {
        match self.register_internal(fd, token, interests) {
            Ok(_) => Ok(()),
            Err(e) => Err(e),
        }
    }

    /// Gives the registration of `fd` a new token and interests.
    ///
    /// Fails with `NotFound`, changing nothing, if `fd` is not registered.
    pub fn reregister(&mut self, fd: RawFd, token: Token, interests: Interest) -> (r: Result<
        (),
        Error,
    >)
        requires
            old(self)@.wf(),
        ensures
            final(self)@.wf(),
            old(self)@.is_registered(fd) ==> r == Ok::<(), Error>(()) && final(self)@ == old(self)@.reregistered(fd, token, poll_mask(interests)),
            !old(self)@.is_registered(fd) ==> r == Err::<(), Error>(Error::NotFound) && final(self)@ == old(self)@,
    {
        match find_fd(&self.entries, fd) {
            Some(i) => {
                proof {
                    lemma_index_of(self.entries@, fd, i as int);
                    lemma_reregistered_wf(self@, fd, token, poll_mask(interests));
                }
                let mask = interests_to_poll(interests);
                let record = self.entries[i].record;
                self.entries.set(i, FdEntry { fd: fd, token: token, events: mask, record: record });
                assert(self@ =~= old(self)@.reregistered(fd, token, mask));
                Ok(())
            },
            None => Err(Error::NotFound),
        }
    }

    /// Deregisters every descriptor of `targets`, in order, and marks each
    /// pending removal. `Ok` when each was registered at its turn.
    pub fn deregister_all(&mut self, targets: &[RawFd]) -> (r: Result<(), ()>)
        requires
            old(self)@.wf(),
        ensures
            final(self)@.wf(),
            final(self)@ == old(self)@.deregistered_all(targets@),
            r is Ok <==> old(self)@.all_registered(targets@),
    {
        let ghost m0 = self@;
        let mut all_found = true;
        let mut k: usize = 0;
        while k < targets.len()
            invariant
                k <= targets.len(),
                m0.wf(),
                self.entries@ == m0.without_fds(targets@.take(k as int)).entries,
                self.records@ == m0.without_fds(targets@.take(k as int)).records,
                self.pending_removal@ == m0.pending_removal + targets@.take(k as int),
                self.pending_wake == m0.pending_wake,
                all_found == m0.all_registered(targets@.take(k as int)),
                self@.wf(),
            decreases targets.len() - k,
        {
            let t = targets[k];
            let ghost before = RegistryModel {
                entries: self.entries@,
                records: self.records@,
                pending_removal: m0.pending_removal,
                pending_wake: m0.pending_wake,
            };
            proof {
                lemma_without_fds_wf(m0, targets@.take(k as int));
                assert(targets@.take(k as int + 1).drop_last() =~= targets@.take(k as int));
                assert(targets@.take(k as int + 1).last() == t);
                assert(m0.without_fds(targets@.take(k as int)) =~= before);
                lemma_without_fd_wf(before, t);
            }
            self.pending_removal.push(t);
            match find_fd(&self.entries, t) {
                Some(i) => {
                    proof {
                        lemma_index_of(self.entries@, t, i as int);
                    }
                    let e = self.entries.swap_remove(i);
                    self.records.set(e.record, false);
                },
                None => {
                    all_found = false;
                },
            }
            assert(self.pending_removal@ =~= m0.pending_removal + targets@.take(k as int + 1));
            k = k + 1;
        }
        proof {
            assert(targets@.take(targets.len() as int) =~= targets@);
            lemma_without_fds_wf(m0, targets@);
        }
        assert(self@ =~= old(self)@.deregistered_all(targets@));
        if all_found {
            Ok(())
        } else {
            Err(())
        }
    }

    /// Deregisters `fd` and marks it pending removal.
    ///
    /// Fails with `NotFound` if `fd` is not registered; it is still marked
    /// pending removal.
    pub fn deregister(&mut self, fd: RawFd) -> (r: Result<(), Error>)
        requires
            old(self)@.wf(),
        ensures
            final(self)@.wf(),
            final(self)@ == old(self)@.deregistered_all(seq![fd]),
            old(self)@.is_registered(fd) ==> r == Ok::<(), Error>(()),
            !old(self)@.is_registered(fd) ==> r == Err::<(), Error>(Error::NotFound),
    {
        let targets: Vec<RawFd> = vec![fd];
        proof {
            assert(targets@ =~= seq![fd]);
            assert(seq![fd].drop_last() =~= Seq::<RawFd>::empty());
            assert(seq![fd].last() == fd);
            assert(old(self)@.without_fds(Seq::<RawFd>::empty()) == old(self)@);
            assert(old(self)@.all_registered(Seq::<RawFd>::empty()));
            assert(old(self)@.all_registered(seq![fd]) == old(self)@.is_registered(fd));
        }
        match self.deregister_all(targets.as_slice()) {
            Ok(()) => Ok(()),
            Err(()) => Err(Error::NotFound),
        }
    }

    /// Requests a wake-up: the next selection reports an event with `token`.
    pub fn wake(&mut self, token: Token) -> (r: Result<(), Error>)
        requires
            old(self)@.wf(),
        ensures
            final(self)@.wf(),
            final(self)@ == old(self)@.woken(token),
            r == Ok::<(), Error>(()),
    {
        self.pending_wake = Some(token);
        assert(self@ =~= old(self)@.woken(token));
        Ok(())
    }

    /// Whether registration record `id` still counts as registered.
    pub fn is_record_registered(&self, id: usize) -> (r: bool)
        ensures
            r == self@.record_registered(id),
    {
        id < self.records.len() && self.records[id]
    }

    /// Marks registration record `id` unregistered.
    pub fn mark_record_unregistered(&mut self, id: usize)
        requires
            old(self)@.wf(),
        ensures
            final(self)@.wf(),
            final(self)@ == old(self)@.record_marked(id),
    {
        if id < self.records.len() {
            self.records.set(id, false);
        }
        assert(self@ =~= old(self)@.record_marked(id));
    }

    /// Processes one round of `poll(2)` results.
    ///
    /// `polled` holds what `poll(2)` reported for the set that `poll_fds`
    /// returned (registrations may have changed since). `events` is cleared
    /// and receives, first, the pending wake-up, if any, as readable
    /// readiness, then one event per polled descriptor with readiness that is
    /// registered and was not deregistered since the last selection. Reported
    /// readiness bits are disarmed until the next `reregister`; descriptors
    /// that report hang-up or error are deregistered.
    pub fn select(&mut self, events: &mut Events, polled: &[PollFd]) -> (r: Result<(), Error>)
        requires
            old(self)@.wf(),
        ensures
            final(self)@.wf(),
            final(events)@ == old(self)@.select_events(polled@),
            final(self)@ == old(self)@.selected(polled@),
            r == Ok::<(), Error>(()),
    {
        let ghost m0 = self@;
        events.clear();
        let wake = self.pending_wake;
        self.pending_wake = None;
        match wake {
            Some(t) => {
                events.push(Event { token: t, events: POLLIN });
            },
            None => {},
        }
        assert(events@ =~= wake_events(m0.pending_wake));
        let mut pending: Vec<RawFd> = Vec::new();
        std::mem::swap(&mut pending, &mut self.pending_removal);
        let mut closed: Vec<RawFd> = Vec::new();
        let mut k: usize = 0;
        assert(polled@.take(0) =~= Seq::<PollFd>::empty());
        assert(wake_events(m0.pending_wake) + Seq::<Event>::empty() =~= wake_events(m0.pending_wake));
        while k < polled.len()
            invariant
                k <= polled.len(),
                m0.wf(),
                pending@ == m0.pending_removal,
                self.records@ == m0.records,
                self.pending_removal@ == Seq::<RawFd>::empty(),
                self.pending_wake is None,
                self.entries@ == deliver(m0.entries, m0.pending_removal, polled@.take(k as int)).0,
                events@ == wake_events(m0.pending_wake) + deliver(
                    m0.entries,
                    m0.pending_removal,
                    polled@.take(k as int),
                ).1,
                closed@ == deliver(m0.entries, m0.pending_removal, polled@.take(k as int)).2,
            decreases polled.len() - k,
        {
            let p = polled[k];
            let ghost prev = deliver(m0.entries, m0.pending_removal, polled@.take(k as int));
            proof {
                lemma_deliver_wf(m0, m0.pending_removal, polled@.take(k as int));
                assert(polled@.take(k as int + 1).drop_last() =~= polled@.take(k as int));
                assert(polled@.take(k as int + 1).last() == p);
            }
            if p.revents != 0 && !contains_fd(&pending, p.fd) {
                match find_fd(&self.entries, p.fd) {
                    Some(i) => {
                        proof {
                            lemma_index_of(self.entries@, p.fd, i as int);
                        }
                        let e = self.entries[i];
                        let ev = Event { token: e.token, events: p.revents };
                        events.push(ev);
                        assert(wake_events(m0.pending_wake) + prev.1.push(ev) =~= (wake_events(
                            m0.pending_wake,
                        ) + prev.1).push(ev));
                        self.entries.set(
                            i,
                            FdEntry {
                                fd: e.fd,
                                token: e.token,
                                events: e.events & !p.revents,
                                record: e.record,
                            },
                        );
                        if p.revents & (POLLHUP | POLLERR) != 0 {
                            closed.push(p.fd);
                        }
                    },
                    None => {},
                }
            }
            k = k + 1;
        }
        proof {
            assert(polled@.take(polled.len() as int) =~= polled@);
            lemma_deliver_wf(m0, m0.pending_removal, polled@);
        }
        let ghost mid = RegistryModel {
            entries: deliver(m0.entries, m0.pending_removal, polled@).0,
            records: m0.records,
            pending_removal: Seq::empty(),
            pending_wake: None,
        };
        assert(self@ =~= mid);
        let _ = self.deregister_all(closed.as_slice());
        Ok(())
    }
}

} // verus!
