//! What holds of a simulation as a whole.

use vstd::prelude::*;
use vstd::set_lib::*;

use crate::context::{MAX_PROCESSES_COUNT, SimView, reads_from, woken_as};
use crate::delivery::law_read_gives_back_write;
use crate::fd::{Fd, opposite};
use crate::ids::ProcID;
use crate::scheduler::{any_ready, first_ready, lemma_first_ready_known, round, writer_of};
use crate::status::{Readiness, StatusView, law_who_calls_for_attention};
use crate::walk::{is_walk, lemma_first_where_none};

verus! {

/// A new simulation is well formed and linked.
pub proof fn law_initial_is_wf<J>()
    ensures
        SimView::<J>::initial().wf(),
        SimView::<J>::initial().linked(),
{
}

/// A new simulation holds one process, which has number zero and was started with nothing;
/// no pipe is open and nobody waits. The first pipe takes the numbers two and three, the
/// first child the number one.
pub proof fn law_initial_is_bare<J>(k: u64)
    ensures
        ({
            let s = SimView::<J>::initial();
            &&& s.procs.contains_key(k) <==> k == 0
            &&& s.procs[0].parent == 0 && s.procs[0].inherited.len() == 0
            &&& s.procs[0].handle is None
            &&& !s.status.contains_key(k)
            &&& !s.fds.contains_key(k)
            &&& s.next_fd == 2 && s.next_proc == 1 && s.next_tag == 0
        }),
{
}

/// A simulation is well formed exactly if the processes are those below the next number, and
/// the open ends lie from two up to below the next number, which is even.
pub proof fn law_wf_bounds_the_numbers<J>(s: SimView<J>)
    ensures
        s.wf() <==> {
            &&& 1 <= s.next_proc
            &&& 2 <= s.next_fd
            &&& s.next_fd % 2 == 0
            &&& forall|p: u64| p < s.next_proc ==> #[trigger] s.procs.dom().contains(p)
            &&& forall|p: u64| #[trigger] s.procs.dom().contains(p) ==> p < s.next_proc
            &&& forall|fd: u64| #[trigger] s.fds.dom().contains(fd) ==> 2 <= fd
            &&& forall|fd: u64| #[trigger] s.fds.dom().contains(fd) ==> fd < s.next_fd
        },
{
    if forall|p: u64| p < s.next_proc ==> #[trigger] s.procs.dom().contains(p) {
        assert forall|p: u64| p < s.next_proc implies #[trigger] s.procs.contains_key(p) by {
            assert(s.procs.dom().contains(p));
        }
    }
    if s.wf() {
        assert forall|p: u64| p < s.next_proc implies #[trigger] s.procs.dom().contains(p) by {
            assert(s.procs.contains_key(p));
        }
        assert forall|p: u64| #[trigger] s.procs.dom().contains(p) implies p < s.next_proc by {
            assert(s.procs.contains_key(p));
        }
        assert forall|fd: u64| #[trigger] s.fds.dom().contains(fd) implies 2 <= fd
            < s.next_fd by {
            assert(s.fds.contains_key(fd));
        }
    }
}

/// A simulation is linked exactly if nobody waits that is not one of its processes, and no
/// process has a parent that is not.
pub proof fn law_linked_knows_everybody<J>(s: SimView<J>)
    ensures
        s.linked() <==> {
            &&& s.status.dom().subset_of(s.procs.dom())
            &&& forall|p: u64, q: u64|
                #![trigger s.procs.dom().contains(p), s.procs.dom().contains(q)]
                s.procs.dom().contains(p) && s.procs[p].parent == q ==> s.procs.dom().contains(q)
        },
{
    if s.linked() {
        assert forall|p: u64| s.status.dom().contains(p) implies s.procs.dom().contains(p) by {
            assert(s.status.contains_key(p));
        }
    }
    if s.status.dom().subset_of(s.procs.dom()) {
        assert forall|p: u64| #[trigger] s.status.contains_key(p) implies s.procs.contains_key(
            p,
        ) by {
            assert(s.status.dom().contains(p));
        }
    }
    if forall|p: u64, q: u64|
        #![trigger s.procs.dom().contains(p), s.procs.dom().contains(q)]
        s.procs.dom().contains(p) && s.procs[p].parent == q ==> s.procs.dom().contains(q) {
        assert forall|p: u64| s.procs.contains_key(p) implies s.procs.contains_key(
            (#[trigger] s.procs[p]).parent,
        ) by {
            let q = s.procs[p].parent;
            assert(s.procs.dom().contains(p));
            assert(s.procs.dom().contains(q) || !s.procs.dom().contains(q));
        }
    }
}

/// A process owns a pipe end exactly if the end is open and the table names the process.
pub proof fn law_table_names_the_owner<J>(s: SimView<J>, pid: ProcID, fd: Fd)
    ensures
        !s.fds.dom().contains(fd.0) ==> !s.owns(pid, fd),
        s.fds.dom().contains(fd.0) ==> (s.owns(pid, fd) <==> pid.0 == s.fds[fd.0]),
{
}

/// Opening a pipe changes the table of pipe ends and the number of the next pipe, and nothing
/// else; two ends are added, and both belong to the process that opens them.
pub proof fn law_opening_adds_two_ends<J>(s: SimView<J>, pid: u64, fd: u64)
    requires
        s.next_fd + 2 <= u64::MAX,
    ensures
        ({
            let t = s.opened(pid);
            let new = fd == s.next_fd || fd == s.next_fd + 1;
            &&& t.next_fd == s.next_fd + 2
            &&& t.fds.contains_key(fd) <==> s.fds.contains_key(fd) || new
            &&& new ==> t.fds[fd] == pid
            &&& s.fds.contains_key(fd) && !new ==> t.fds[fd] == s.fds[fd]
            &&& t.procs == s.procs && t.status == s.status
            &&& t.next_proc == s.next_proc && t.next_tag == s.next_tag
        }),
{
}

/// Closing a pipe end closes that end and no other, its opposite end neither: every other
/// end stays open or closed as it was, with its owner. Nothing else changes.
pub proof fn law_closing_leaves_other_ends<J>(s: SimView<J>, fd: u64, other: Fd, pid: ProcID)
    ensures
        ({
            let t = s.closed(fd);
            &&& !t.fds.contains_key(fd)
            &&& other.0 != fd ==> (t.owns(pid, other) <==> s.owns(pid, other))
            &&& other.0 != fd ==> (t.fds.contains_key(other.0) <==> s.fds.contains_key(other.0))
            &&& other.0 != fd && s.fds.contains_key(other.0) ==> t.fds[other.0] == s.fds[other.0]
            &&& t.procs == s.procs && t.status == s.status
            &&& t.next_fd == s.next_fd && t.next_proc == s.next_proc && t.next_tag == s.next_tag
        }),
{
}

/// Two ends can be closed in either order.
pub proof fn law_closing_order_is_free<J>(s: SimView<J>, a: u64, b: u64)
    ensures
        s.closed(a).closed(b) == s.closed(b).closed(a),
{
    assert(s.closed(a).closed(b).fds =~= s.closed(b).closed(a).fds);
}

/// After a process has been started, whatever pipe ends it was handed, its parent waits for
/// its turn, and everybody else waits for what they waited for before.
pub proof fn law_start_makes_parent_wait<J>(s: SimView<J>, parent: u64, ends: Seq<Fd>, p: u64)
    ensures
        ({
            let t = s.started(parent, ends);
            &&& t.status.contains_key(parent)
            &&& t.status[parent] is WaitSpawn
            &&& p != parent ==> (t.status.contains_key(p) <==> s.status.contains_key(p))
            &&& p != parent && s.status.contains_key(p) ==> t.status[p] == s.status[p]
        }),
{
}

/// Starting a process takes one process number and no other: no end is opened or closed, an
/// end that is handed over belongs to the new process, and every other end to whom it did.
/// The new process is known with its parent and its ends, and has no handle yet.
pub proof fn law_start_opens_and_closes_nothing<J>(
    s: SimView<J>,
    parent: u64,
    ends: Seq<Fd>,
    fd: u64,
    p: u64,
)
    requires
        s.next_proc < u64::MAX,
    ensures
        ({
            let t = s.started(parent, ends);
            &&& t.next_proc == s.next_proc + 1
            &&& t.next_fd == s.next_fd && t.next_tag == s.next_tag
            &&& t.fds.dom() == s.fds.dom()
            &&& s.fds.contains_key(fd) && (exists|i: int|
                0 <= i < ends.len() && (#[trigger] ends[i]).0 == fd) ==> t.fds[fd] == s.next_proc
            &&& s.fds.contains_key(fd) && !(exists|i: int|
                0 <= i < ends.len() && (#[trigger] ends[i]).0 == fd) ==> t.fds[fd] == s.fds[fd]
            &&& t.procs.contains_key(p) <==> s.procs.contains_key(p) || p == s.next_proc
            &&& p == s.next_proc ==> t.procs[p].parent == parent && t.procs[p].inherited == ends
                && t.procs[p].handle is None
            &&& p != s.next_proc && s.procs.contains_key(p) ==> t.procs[p] == s.procs[p]
        }),
{
    let t = s.started(parent, ends);
    assert(t.fds.dom() =~= s.fds.dom());
    if exists|i: int| 0 <= i < ends.len() && (#[trigger] ends[i]).0 == fd {
        let i = choose|i: int| 0 <= i < ends.len() && (#[trigger] ends[i]).0 == fd;
        assert(ends[i] == Fd(fd));
    } else if ends.contains(Fd(fd)) {
        let i = choose|i: int| 0 <= i < ends.len() && ends[i] == Fd(fd);
        assert(ends[i].0 == fd);
    }
}

/// The parent of a process that has just been started goes on as soon as there is nothing
/// else to do: if nobody else calls for attention and no reader has a writer, the next round
/// wakes it.
pub proof fn law_parent_resumes_after_start<J>(
    s: SimView<J>,
    parent: u64,
    ends: Seq<Fd>,
    t: SimView<J>,
    woken: Option<ProcID>,
)
    requires
        s.started(parent, ends).rounds_to(t, woken),
        forall|x: u64| #[trigger]
            s.status.contains_key(x) && x != parent ==> !(s.status[x] is Terminated)
                && !(s.status[x] is WaitSpawn) && !(s.status[x] is WriteWait) && (
            s.status[x] is ReadWait ==> s.status[x]->missing > 0),
    ensures
        woken == Some(ProcID(parent)),
        t == s.started(parent, ends),
{
    let u = s.started(parent, ends);
    law_start_makes_parent_wait(s, parent, ends, parent);
    assert forall|x: u64| #[trigger] u.status.contains_key(x) && x != parent implies forall|
        want: Readiness,
    |
        !u.status[x].meets(want) by {
        law_start_makes_parent_wait(s, parent, ends, x);
        assert forall|want: Readiness| !u.status[x].meets(want) by {
            law_who_calls_for_attention(u.status[x], want, want);
        }
    }
    assert forall|r: u64| writer_of(u.status, u.fds, r) is None by {
        if let Some(w) = writer_of(u.status, u.fds, r) {
            law_start_makes_parent_wait(s, parent, ends, w);
            assert(u.status.contains_key(w) && u.status[w] is WriteWait);
        }
    }
    law_spawner_resumes_last(u, parent, t, woken);
}

/// A process that has ended is marked so and has no open end; everybody else waits as before
/// and keeps their ends, and nothing else changes.
pub proof fn law_end_touches_only_its_own<J>(s: SimView<J>, id: u64, fd: u64, p: u64)
    ensures
        ({
            let t = s.ended(id);
            &&& t.fds.contains_key(fd) <==> s.fds.contains_key(fd) && s.fds[fd] != id
            &&& t.fds.contains_key(fd) ==> t.fds[fd] == s.fds[fd]
            &&& t.status.contains_key(id) && t.status[id] is Terminated
            &&& p != id ==> (t.status.contains_key(p) <==> s.status.contains_key(p))
            &&& p != id && s.status.contains_key(p) ==> t.status[p] == s.status[p]
            &&& t.procs == s.procs
            &&& t.next_fd == s.next_fd && t.next_proc == s.next_proc && t.next_tag == s.next_tag
        }),
{
}

/// A process that waits to read is a reader of the end that it names, which misses exactly as
/// many bytes as it asks for and has received none. The others wait as before, and nothing
/// else changes but the tag.
pub proof fn law_read_asks_for_its_length<J>(s: SimView<J>, pid: u64, fd: Fd, len: usize, p: u64)
    requires
        s.next_tag < u64::MAX,
    ensures
        ({
            let t = s.parked(pid, s.read_request(fd, len));
            &&& t.status.contains_key(pid) && t.status[pid] is ReadWait
            &&& t.status[pid]->ReadWait_fd == fd.0
            &&& t.status[pid]->missing == len
            &&& t.status[pid]->received == Seq::<u8>::empty()
            &&& t.status[pid]->ReadWait_tag == s.next_tag
            &&& p != pid ==> (t.status.contains_key(p) <==> s.status.contains_key(p))
            &&& p != pid && s.status.contains_key(p) ==> t.status[p] == s.status[p]
            &&& t.procs == s.procs && t.fds == s.fds
            &&& t.next_fd == s.next_fd && t.next_proc == s.next_proc
            &&& t.next_tag == s.next_tag + 1
        }),
{
}

/// A process that waits to write is a writer to the end that it names, which has exactly its
/// bytes pending, in order. The others wait as before, and nothing else changes but the tag.
pub proof fn law_write_offers_its_bytes<J>(
    s: SimView<J>,
    pid: u64,
    fd: Fd,
    bytes: Seq<u8>,
    p: u64,
)
    requires
        s.next_tag < u64::MAX,
    ensures
        ({
            let t = s.parked(pid, s.write_request(fd, bytes));
            &&& t.status.contains_key(pid) && t.status[pid] is WriteWait
            &&& t.status[pid]->WriteWait_fd == fd.0
            &&& t.status[pid]->pending == bytes
            &&& t.status[pid]->WriteWait_tag == s.next_tag
            &&& p != pid ==> (t.status.contains_key(p) <==> s.status.contains_key(p))
            &&& p != pid && s.status.contains_key(p) ==> t.status[p] == s.status[p]
            &&& t.procs == s.procs && t.fds == s.fds
            &&& t.next_fd == s.next_fd && t.next_proc == s.next_proc
            &&& t.next_tag == s.next_tag + 1
        }),
{
}

/// Forgetting or changing waits changes only the waits.
pub proof fn law_waits_change_alone<J>(s: SimView<J>, status: Map<u64, StatusView>)
    ensures
        ({
            let t = s.with_status(status);
            &&& t.status == status
            &&& t.procs == s.procs && t.fds == s.fds
            &&& t.next_fd == s.next_fd && t.next_proc == s.next_proc && t.next_tag == s.next_tag
        }),
{
}

/// A process reads from an end exactly if it waits to read and names that end.
pub proof fn law_readers_name_their_end(s: StatusView, fd: u64)
    ensures
        s is ReadWait ==> (reads_from(s, fd) <==> fd == s->ReadWait_fd),
        !(s is ReadWait) ==> !reads_from(s, fd),
{
}

/// A round changes only the waits. It passes the waiting processes in some order, each once,
/// and wakes whom [`round`] wakes over that order, where the parent of a process is the one
/// that started it.
pub proof fn law_round_changes_only_waits<J>(
    s: SimView<J>,
    t: SimView<J>,
    woken: Option<ProcID>,
)
    requires
        s.rounds_to(t, woken),
    ensures
        t.procs == s.procs,
        t.fds == s.fds,
        t.next_fd == s.next_fd,
        t.next_proc == s.next_proc,
        t.next_tag == s.next_tag,
        exists|order: Seq<u64>, parents: Map<u64, u64>|
            {
                let out = #[trigger] round(s.status, s.fds, parents, order);
                &&& order.no_duplicates()
                &&& order.to_set() == s.status.dom()
                &&& forall|p: u64| #[trigger]
                    s.procs.contains_key(p) ==> parents[p] == s.procs[p].parent
                &&& t.status == out.status
                &&& woken is Some <==> out.woken is Some
                &&& woken matches Some(p) ==> out.woken == Some(p.0)
            },
{
    let order = lemma_some_walk(s, t, woken);
    assert(order.to_set() =~= s.status.dom()) by {
        assert forall|k: u64| s.status.dom().contains(k) implies order.to_set().contains(k) by {
            assert(order.contains(k));
        }
        assert forall|k: u64| order.to_set().contains(k) implies s.status.dom().contains(k) by {
            assert(order.contains(k));
        }
    }
    let out = round(s.status, s.fds, s.parents(), order);
    assert(out == s.round(order));
}

/// A new pipe has numbers that no open end has, the even one first, and the running
/// process owns both ends; every other end keeps its owner.
pub proof fn law_new_pipe_is_fresh<J>(s: SimView<J>, pid: ProcID)
    requires
        s.wf(),
        s.next_fd + 2 <= u64::MAX,
    ensures
        ({
            let read = s.next_fd as u64;
            let write = (s.next_fd + 1) as u64;
            let t = s.opened(pid.0);
            &&& !s.fds.contains_key(read) && !s.fds.contains_key(write)
            &&& read % 2 == 0 && write == opposite(read)
            &&& t.owns(pid, Fd(read)) && t.owns(pid, Fd(write))
            &&& forall|fd: u64| #[trigger]
                s.fds.contains_key(fd) ==> t.fds.contains_key(fd) && t.fds[fd] == s.fds[fd]
            &&& t.fds.dom() == s.fds.dom().insert(read).insert(write)
        }),
{
    let t = s.opened(pid.0);
    assert(t.fds.dom() =~= s.fds.dom().insert(s.next_fd as u64).insert((s.next_fd + 1) as u64));
}

/// Closing both ends of a new pipe undoes its opening, but for the numbers used.
pub proof fn law_close_undoes_open<J>(s: SimView<J>, pid: u64)
    requires
        s.wf(),
        s.next_fd + 2 <= u64::MAX,
    ensures
        s.opened(pid).closed(s.next_fd as u64).closed((s.next_fd + 1) as u64) == (SimView::<J> {
            next_fd: s.next_fd + 2,
            ..s
        }),
{
    assert(s.opened(pid).closed(s.next_fd as u64).closed((s.next_fd + 1) as u64).fds =~= s.fds);
}

/// A pipe end that is closed is owned by nobody, so it cannot be closed twice.
pub proof fn law_closed_end_is_gone<J>(s: SimView<J>, fd: Fd, pid: ProcID)
    ensures
        !s.closed(fd.0).owns(pid, fd),
{
}

/// A pipe end has at most one owner.
pub proof fn law_one_owner<J>(s: SimView<J>, fd: Fd, a: ProcID, b: ProcID)
    requires
        s.owns(a, fd),
        s.owns(b, fd),
    ensures
        a == b,
{
}

/// A new process has a number that no process has; it alone owns the pipe ends that it
/// was started with; every other end keeps its owner; and no process is lost.
pub proof fn law_start_hands_over<J>(s: SimView<J>, parent: u64, ends: Seq<Fd>, fd: Fd, pid: ProcID)
    requires
        s.wf(),
        s.next_proc < u64::MAX,
        forall|i: int| 0 <= i < ends.len() ==> s.fds.contains_key((#[trigger] ends[i]).0),
    ensures
        ({
            let child = s.next_proc as u64;
            let t = s.started(parent, ends);
            &&& !s.procs.contains_key(child)
            &&& t.procs.contains_key(child) && t.procs[child].parent == parent
            &&& t.procs[child].inherited == ends
            &&& ends.contains(fd) ==> (t.owns(pid, fd) <==> pid.0 == child)
            &&& !ends.contains(fd) ==> (t.owns(pid, fd) <==> s.owns(pid, fd))
            &&& forall|p: u64| #[trigger]
                s.procs.contains_key(p) ==> t.procs.contains_key(p) && t.procs[p] == s.procs[p]
        }),
{
    if ends.contains(fd) {
        let i = choose|i: int| 0 <= i < ends.len() && ends[i] == fd;
        assert(s.fds.contains_key(ends[i].0));
    }
    assert(Fd(fd.0) == fd);
}

/// A process that has ended owns no pipe end; the ends of others are kept.
pub proof fn law_ended_owns_nothing<J>(s: SimView<J>, id: ProcID, pid: ProcID, fd: Fd)
    ensures
        s.ended(id.0).owns(pid, fd) <==> s.owns(pid, fd) && pid != id,
{
}

/// The processes are numbered from zero without gaps, so there are as many as have been
/// started, and one more.
pub proof fn law_processes_are_counted<J>(s: SimView<J>)
    requires
        s.wf(),
        s.next_proc <= u64::MAX,
    ensures
        s.procs.dom().finite(),
        s.procs.dom().len() == s.next_proc,
{
    let numbers = set_int_range(0, s.next_proc as int);
    lemma_int_range(0, s.next_proc as int);
    let as_u64 = |k: int| k as u64;
    assert(numbers.map(as_u64) =~= s.procs.dom()) by {
        assert forall|p: u64| s.procs.dom().contains(p) implies numbers.map(as_u64).contains(p) by {
            assert(s.procs.contains_key(p));
            assert(as_u64(p as int) == p);
            assert(numbers.contains(p as int));
        }
        assert forall|p: u64| numbers.map(as_u64).contains(p) implies s.procs.dom().contains(p) by {
            let k = choose|k: int| numbers.contains(k) && p == as_u64(k);
            assert(p == k);
            assert(s.procs.contains_key(p));
        }
    }
    lemma_map_size(numbers, s.procs.dom(), as_u64);
}

/// A simulation is full once as many processes have been started, the first one not
/// counted, as [`MAX_PROCESSES_COUNT`] says.
pub proof fn law_full_when_enough_started<J>(s: SimView<J>)
    requires
        s.wf(),
        s.next_proc <= u64::MAX,
    ensures
        s.next_proc > MAX_PROCESSES_COUNT <==> s.procs.dom().remove(0).len() >= MAX_PROCESSES_COUNT,
{
    law_processes_are_counted(s);
    assert(s.procs.contains_key(0));
}

/// A walk in which exactly one process meets a condition finds that process.
proof fn lemma_only_ready(
    status: Map<u64, StatusView>,
    order: Seq<u64>,
    want: Readiness,
    p: u64,
)
    requires
        is_walk(order, status.dom()),
        status.contains_key(p),
        status[p].meets(want),
        forall|x: u64| #[trigger] status.contains_key(x) && x != p ==> !status[x].meets(want),
    ensures
        first_ready(status, order, want) == Some(p),
{
    lemma_first_ready_known(status, order, want);
    let ready = |x: u64| status[x].meets(want);
    lemma_first_where_none(order, ready);
    assert(order.contains(p));
    let i = choose|i: int| 0 <= i < order.len() && order[i] == p;
    assert(ready(order[i]));
    let q = first_ready(status, order, want)->0;
    assert(status.contains_key(q));
}

/// The walk of a round that has been run.
proof fn lemma_some_walk<J>(s: SimView<J>, t: SimView<J>, woken: Option<ProcID>) -> (order: Seq<
    u64,
>)
    requires
        s.rounds_to(t, woken),
    ensures
        is_walk(order, s.status.dom()),
        t == s.with_status(s.round(order).status),
        woken_as(woken, s.round(order).woken),
{
    choose|order: Seq<u64>|
        {
            &&& #[trigger] is_walk(order, s.status.dom())
            &&& t == s.with_status(s.round(order).status)
            &&& woken_as(woken, s.round(order).woken)
        }
}

/// When a process ends and no other has ended, its parent is woken, and what remains are
/// the waits of the others.
pub proof fn law_end_wakes_parent<J>(
    s: SimView<J>,
    id: u64,
    t: SimView<J>,
    woken: Option<ProcID>,
)
    requires
        s.procs.contains_key(id),
        s.ended(id).rounds_to(t, woken),
        forall|p: u64| #[trigger]
            s.status.contains_key(p) && p != id ==> !(s.status[p] is Terminated),
    ensures
        woken == Some(ProcID(s.procs[id].parent)),
        t == s.ended(id).with_status(s.status.remove(id)),
{
    let e = s.ended(id);
    let order = lemma_some_walk(e, t, woken);
    lemma_only_ready(e.status, order, Readiness::Terminated, id);
    assert(e.status.remove(id) =~= s.status.remove(id));
}

/// A writer that has nothing left, an empty write among them, is woken and waits no longer,
/// unless a process has ended; no byte moves.
pub proof fn law_emptied_writer_is_woken<J>(
    s: SimView<J>,
    w: u64,
    t: SimView<J>,
    woken: Option<ProcID>,
)
    requires
        s.rounds_to(t, woken),
        s.status.contains_key(w),
        s.status[w].meets(Readiness::Drained),
        forall|p: u64| #[trigger]
            s.status.contains_key(p) && p != w ==> !s.status[p].meets(Readiness::Terminated)
                && !s.status[p].meets(Readiness::Drained),
    ensures
        woken == Some(ProcID(w)),
        t == s.with_status(s.status.remove(w)),
{
    let order = lemma_some_walk(s, t, woken);
    lemma_only_ready(s.status, order, Readiness::Drained, w);
    lemma_first_ready_known(s.status, order, Readiness::Terminated);
}

/// A write that meets a waiting reader, and a read that meets a waiting writer, come to
/// the same: in a simulation in which `w` waits to write `bytes` and owns the opposite end of
/// `rfd`, and `r` waits to read `n` of them from `rfd`, and no other reader has a writer and
/// nobody else calls for attention first, a round wakes `r`, which has received the first
/// `n` bytes, and leaves `w` the rest.
pub proof fn law_pipe_carries_bytes<J>(
    s: SimView<J>,
    r: u64,
    w: u64,
    rfd: Fd,
    n: nat,
    bytes: Seq<u8>,
    t: SimView<J>,
    woken: Option<ProcID>,
)
    requires
        s.rounds_to(t, woken),
        s.owns(ProcID(w), Fd(opposite(rfd.0))),
        s.status.contains_key(r),
        reads_from(s.status[r], rfd.0),
        s.status[r]->missing == n,
        s.status[r]->received.len() == 0,
        s.status.contains_key(w),
        s.status[w] is WriteWait,
        s.status[w]->pending == bytes,
        0 < bytes.len(),
        n <= bytes.len(),
        forall|x: u64| x != r ==> writer_of(s.status, s.fds, x) is None,
        forall|p: u64| #[trigger]
            s.status.contains_key(p) && p != w ==> !s.status[p].meets(Readiness::Terminated)
                && !s.status[p].meets(Readiness::Drained),
    ensures
        woken == Some(ProcID(r)),
        t.status.contains_key(r) && reads_from(t.status[r], rfd.0),
        t.status[r]->missing == 0,
        t.status[r]->received == bytes.take(n as int),
        t.status.contains_key(w) && t.status[w] is WriteWait,
        t.status[w]->pending == bytes.skip(n as int),
        t.status[r]->received + t.status[w]->pending == bytes,
{
    let order = lemma_some_walk(s, t, woken);
    assert(writer_of(s.status, s.fds, r) == Some(w));
    law_read_gives_back_write(s.status, s.fds, s.parents(), order, r, w);
    assert(s.status[r]->received + bytes.take(n as int) =~= bytes.take(n as int));
    assert(bytes.take(n as int) + bytes.skip(n as int) =~= bytes);
}

/// A process that has started a child is woken when there is nothing else to do: it
/// alone waits for that, no process meets another condition, and no reader has a writer.
/// The waits stay as they are.
pub proof fn law_spawner_resumes_last<J>(
    s: SimView<J>,
    p: u64,
    t: SimView<J>,
    woken: Option<ProcID>,
)
    requires
        s.rounds_to(t, woken),
        s.status.contains_key(p),
        s.status[p] is WaitSpawn,
        forall|x: u64| #[trigger]
            s.status.contains_key(x) && x != p ==> forall|want: Readiness|
                !s.status[x].meets(want),
        forall|r: u64| writer_of(s.status, s.fds, r) is None,
    ensures
        woken == Some(ProcID(p)),
        t == s,
{
    let order = lemma_some_walk(s, t, woken);
    lemma_only_ready(s.status, order, Readiness::Spawned, p);
    lemma_first_ready_known(s.status, order, Readiness::Terminated);
    lemma_first_ready_known(s.status, order, Readiness::Drained);
    lemma_first_ready_known(s.status, order, Readiness::Filled);
    let matched = |r: u64| writer_of(s.status, s.fds, r) is Some;
    order.lemma_all_neg_filter_empty(matched);
}

/// Nobody but `w` and `r` has a say in the next round: no other process has ended or is a
/// writer with nothing left, and no other reader reads from `w` or from a process that
/// waits to write.
pub open spec fn by_themselves<J>(s: SimView<J>, r: u64, w: u64) -> bool {
    forall|p: u64| #[trigger]
        s.status.contains_key(p) && p != r && p != w ==> {
            &&& !(s.status[p] is Terminated)
            &&& s.status[p] is WriteWait ==> s.status[p]->pending.len() > 0
            &&& s.status[p] is ReadWait ==> {
                let end = opposite(s.status[p]->ReadWait_fd);
                s.fds.contains_key(end) ==> {
                    &&& s.fds[end] != w
                    &&& s.status.contains_key(s.fds[end]) ==> !(s.status[s.fds[end]] is WriteWait)
                }
            }
        }
}

/// A process that asks to read `len` bytes while the owner of the other end waits to write.
/// If the writer has that many, the reader is woken with exactly the first `len` of them, and
/// the writer keeps the others; if it has fewer, the reader has them all, still misses the
/// difference, and the writer is woken and waits no longer.
pub proof fn law_read_meets_writer<J>(
    s: SimView<J>,
    r: u64,
    w: u64,
    rfd: Fd,
    len: usize,
    t: SimView<J>,
    woken: Option<ProcID>,
)
    requires
        r != w,
        s.next_tag < u64::MAX,
        s.owns(ProcID(w), Fd(opposite(rfd.0))),
        s.status.contains_key(w),
        s.status[w] is WriteWait,
        s.status[w]->pending.len() > 0,
        by_themselves(s, r, w),
        s.parked(r, s.read_request(rfd, len)).rounds_to(t, woken),
    ensures
        t.status.contains_key(r) && reads_from(t.status[r], rfd.0),
        len <= s.status[w]->pending.len() ==> {
            &&& woken == Some(ProcID(r))
            &&& t.status[r]->missing == 0
            &&& t.status[r]->received == s.status[w]->pending.take(len as int)
            &&& t.status.contains_key(w) && t.status[w] is WriteWait
            &&& t.status[w]->pending == s.status[w]->pending.skip(len as int)
        },
        len > s.status[w]->pending.len() ==> {
            &&& woken == Some(ProcID(w))
            &&& t.status[r]->received == s.status[w]->pending
            &&& t.status[r]->missing + s.status[w]->pending.len() == len
            &&& !t.status.contains_key(w)
        },
{
    let u = s.parked(r, s.read_request(rfd, len));
    law_read_asks_for_its_length(s, r, rfd, len, w);
    assert(u.status.dom() =~= s.status.dom().insert(r).insert(w));
    let order = lemma_some_walk(u, t, woken);
    lemma_alone(s, u, r, w);
    let bytes = s.status[w]->pending;
    assert(writer_of(u.status, u.fds, r) == Some(w));
    law_read_gives_back_write(u.status, u.fds, u.parents(), order, r, w);
    assert(Seq::<u8>::empty() + bytes =~= bytes);
    if len <= bytes.len() {
        assert(Seq::<u8>::empty() + bytes.take(len as int) =~= bytes.take(len as int));
    }
}

/// If two processes are by themselves, only one of them can have the other for a writer.
proof fn lemma_alone<J>(s: SimView<J>, u: SimView<J>, r: u64, w: u64)
    requires
        r != w,
        by_themselves(s, r, w),
        u.fds == s.fds,
        u.status.dom() == s.status.dom().insert(r).insert(w),
        forall|p: u64| #[trigger]
            s.status.contains_key(p) && p != r && p != w ==> u.status[p] == s.status[p],
        u.status[r] is ReadWait,
        u.status[w] is WriteWait,
        u.status[w]->pending.len() > 0,
    ensures
        !any_ready(u.status, Readiness::Terminated),
        !any_ready(u.status, Readiness::Drained),
        forall|x: u64| x != r ==> writer_of(u.status, u.fds, x) is None,
{
    assert forall|p: u64| #[trigger] u.status.contains_key(p) implies !u.status[p].meets(
        Readiness::Terminated,
    ) && !u.status[p].meets(Readiness::Drained) by {
        assert(u.status.dom().contains(p));
        if p != r && p != w {
            assert(s.status.contains_key(p));
        }
    }
    assert forall|x: u64| x != r implies writer_of(u.status, u.fds, x) is None by {
        if let Some(v) = writer_of(u.status, u.fds, x) {
            assert(u.status.dom().contains(x) && u.status.dom().contains(v));
            assert(s.status.contains_key(x));
            if v != w && v != r {
                assert(s.status.contains_key(v));
            }
        }
    }
}

/// A process that writes while a reader of its pipe waits, whatever that reader has received
/// so far. What is written follows what was received: if the reader misses no more than
/// there is, it is woken with as many bytes as it missed, and the writer keeps the others; if
/// it misses more, it has them all, still misses the difference, and the writer is woken and
/// waits no longer. Nobody else is touched.
pub proof fn law_write_meets_reader<J>(
    s: SimView<J>,
    r: u64,
    w: u64,
    wfd: Fd,
    bytes: Seq<u8>,
    t: SimView<J>,
    woken: Option<ProcID>,
)
    requires
        r != w,
        s.next_tag < u64::MAX,
        s.status.contains_key(r),
        s.status[r] is ReadWait,
        s.owns(ProcID(w), Fd(opposite(s.status[r]->ReadWait_fd))),
        bytes.len() > 0,
        by_themselves(s, r, w),
        s.parked(w, s.write_request(wfd, bytes)).rounds_to(t, woken),
    ensures
        t.status.contains_key(r) && t.status[r] is ReadWait,
        t.status[r]->ReadWait_fd == s.status[r]->ReadWait_fd,
        s.status[r]->missing <= bytes.len() ==> {
            let n = s.status[r]->missing as int;
            &&& woken == Some(ProcID(r))
            &&& t.status[r]->missing == 0
            &&& t.status[r]->received == s.status[r]->received + bytes.take(n)
            &&& t.status.contains_key(w) && t.status[w] is WriteWait
            &&& t.status[w]->pending == bytes.skip(n)
        },
        s.status[r]->missing > bytes.len() ==> {
            &&& woken == Some(ProcID(w))
            &&& t.status[r]->received == s.status[r]->received + bytes
            &&& t.status[r]->missing + bytes.len() == s.status[r]->missing
            &&& !t.status.contains_key(w)
        },
        forall|p: u64|
            p != r && p != w ==> (#[trigger] t.status.contains_key(p) <==> s.status.contains_key(p)),
        forall|p: u64|
            p != r && p != w && s.status.contains_key(p) ==> #[trigger] t.status[p] == s.status[p],
        t.fds == s.fds,
        t.procs == s.procs,
{
    let u = s.parked(w, s.write_request(wfd, bytes));
    law_write_offers_its_bytes(s, w, wfd, bytes, r);
    let order = lemma_some_walk(u, t, woken);
    assert(u.status.dom() =~= s.status.dom().insert(r).insert(w));
    lemma_alone(s, u, r, w);
    assert(writer_of(u.status, u.fds, r) == Some(w));
    law_read_gives_back_write(u.status, u.fds, u.parents(), order, r, w);
}

/// What a list of writes holds, one after the other.
pub open spec fn joined(writes: Seq<Seq<u8>>) -> Seq<u8>
    decreases writes.len(),
{
    if writes.len() == 0 {
        Seq::empty()
    } else {
        joined(writes.drop_last()) + writes.last()
    }
}

/// A read that takes several writes to fill receives them one after the other, in the order
/// in which they were written, after what it had received before; it misses as many bytes
/// fewer as were written, and the last write that is taken whole lets the writer go on.
/// `states` are the simulation before the writes and after each of them.
pub proof fn law_writes_are_received_in_order<J>(
    states: Seq<SimView<J>>,
    woken: Seq<Option<ProcID>>,
    writes: Seq<Seq<u8>>,
    r: u64,
    w: u64,
    wfd: Fd,
)
    requires
        r != w,
        states.len() == writes.len() + 1,
        woken.len() == writes.len(),
        states[0].status.contains_key(r),
        states[0].status[r] is ReadWait,
        states[0].owns(ProcID(w), Fd(opposite(states[0].status[r]->ReadWait_fd))),
        by_themselves(states[0], r, w),
        joined(writes).len() < states[0].status[r]->missing,
        forall|i: int| 0 <= i < writes.len() ==> (#[trigger] writes[i]).len() > 0,
        forall|i: int|
            0 <= i < writes.len() ==> (#[trigger] states[i]).next_tag < u64::MAX && states[i].parked(
                w,
                states[i].write_request(wfd, writes[i]),
            ).rounds_to(states[i + 1], woken[i]),
    ensures
        ({
            let t = states.last();
            &&& t.status.contains_key(r) && t.status[r] is ReadWait
            &&& t.status[r]->received == states[0].status[r]->received + joined(writes)
            &&& t.status[r]->missing + joined(writes).len() == states[0].status[r]->missing
            &&& forall|i: int| 0 <= i < woken.len() ==> #[trigger] woken[i] == Some(ProcID(w))
            &&& writes.len() > 0 ==> !t.status.contains_key(w)
        }),
{
    lemma_writes_so_far(states, woken, writes, r, w, wfd);
}

/// A read that several writes fill: once a last write `rest` brings as many bytes as are still
/// missing, the reader is woken, and it has received, after what it had before, the front of
/// all the writes joined, as many bytes as it missed. The writer keeps what is left over.
pub proof fn law_filled_read_is_the_writes_joined<J>(
    states: Seq<SimView<J>>,
    woken: Seq<Option<ProcID>>,
    writes: Seq<Seq<u8>>,
    rest: Seq<u8>,
    r: u64,
    w: u64,
    wfd: Fd,
    t: SimView<J>,
    served: Option<ProcID>,
)
    requires
        r != w,
        states.len() == writes.len() + 1,
        woken.len() == writes.len(),
        states[0].status.contains_key(r),
        states[0].status[r] is ReadWait,
        states[0].owns(ProcID(w), Fd(opposite(states[0].status[r]->ReadWait_fd))),
        by_themselves(states[0], r, w),
        joined(writes).len() < states[0].status[r]->missing <= joined(writes).len() + rest.len(),
        forall|i: int| 0 <= i < writes.len() ==> (#[trigger] writes[i]).len() > 0,
        forall|i: int|
            0 <= i < writes.len() ==> (#[trigger] states[i]).next_tag < u64::MAX && states[i].parked(
                w,
                states[i].write_request(wfd, writes[i]),
            ).rounds_to(states[i + 1], woken[i]),
        states.last().next_tag < u64::MAX,
        states.last().parked(w, states.last().write_request(wfd, rest)).rounds_to(t, served),
    ensures
        ({
            let n = states[0].status[r]->missing as int;
            let all = joined(writes) + rest;
            &&& served == Some(ProcID(r))
            &&& t.status[r]->missing == 0
            &&& t.status[r]->received == states[0].status[r]->received + all.take(n)
            &&& t.status[w]->pending == all.skip(n)
        }),
{
    lemma_writes_so_far(states, woken, writes, r, w, wfd);
    let s = states.last();
    law_write_meets_reader(s, r, w, wfd, rest, t, served);
    let n = states[0].status[r]->missing as int;
    let all = joined(writes) + rest;
    let old = states[0].status[r]->received;
    assert(old + joined(writes) + rest.take(n - joined(writes).len()) =~= old + all.take(n));
    assert(rest.skip(n - joined(writes).len()) =~= all.skip(n));
}

/// As [`law_writes_are_received_in_order`], with what stays the same along the way.
proof fn lemma_writes_so_far<J>(
    states: Seq<SimView<J>>,
    woken: Seq<Option<ProcID>>,
    writes: Seq<Seq<u8>>,
    r: u64,
    w: u64,
    wfd: Fd,
)
    requires
        r != w,
        states.len() == writes.len() + 1,
        woken.len() == writes.len(),
        states[0].status.contains_key(r),
        states[0].status[r] is ReadWait,
        states[0].owns(ProcID(w), Fd(opposite(states[0].status[r]->ReadWait_fd))),
        by_themselves(states[0], r, w),
        joined(writes).len() < states[0].status[r]->missing,
        forall|i: int| 0 <= i < writes.len() ==> (#[trigger] writes[i]).len() > 0,
        forall|i: int|
            0 <= i < writes.len() ==> (#[trigger] states[i]).next_tag < u64::MAX && states[i].parked(
                w,
                states[i].write_request(wfd, writes[i]),
            ).rounds_to(states[i + 1], woken[i]),
    ensures
        ({
            let t = states.last();
            &&& t.status.contains_key(r) && t.status[r] is ReadWait
            &&& t.status[r]->ReadWait_fd == states[0].status[r]->ReadWait_fd
            &&& t.status[r]->received == states[0].status[r]->received + joined(writes)
            &&& t.status[r]->missing + joined(writes).len() == states[0].status[r]->missing
            &&& t.fds == states[0].fds
            &&& by_themselves(t, r, w)
            &&& forall|i: int| 0 <= i < woken.len() ==> #[trigger] woken[i] == Some(ProcID(w))
            &&& writes.len() > 0 ==> !t.status.contains_key(w)
        }),
    decreases writes.len(),
{
    if writes.len() == 0 {
        assert(states[0].status[r]->received + joined(writes) =~= states[0].status[r]->received);
    } else {
        let n = writes.len() - 1;
        let (fewer, before, seen) = (writes.drop_last(), states.drop_last(), woken.drop_last());
        assert(joined(writes) == joined(fewer) + writes.last());
        assert forall|i: int| 0 <= i < fewer.len() implies (#[trigger] fewer[i]).len() > 0 by {
            assert(fewer[i] == writes[i]);
        }
        assert forall|i: int| 0 <= i < fewer.len() implies (#[trigger] before[i]).next_tag
            < u64::MAX && before[i].parked(w, before[i].write_request(wfd, fewer[i])).rounds_to(
            before[i + 1],
            seen[i],
        ) by {
            assert(before[i] == states[i] && before[i + 1] == states[i + 1]);
            assert(fewer[i] == writes[i] && seen[i] == woken[i]);
        }
        lemma_writes_so_far(before, seen, fewer, r, w, wfd);
        let s = before.last();
        let t = states.last();
        let bytes = writes[n];
        assert(s == states[n] && t == states[n + 1]);
        assert(bytes.len() > 0);
        law_write_meets_reader(s, r, w, wfd, bytes, t, woken[n]);
        assert(by_themselves(t, r, w)) by {
            assert forall|p: u64| #[trigger]
                t.status.contains_key(p) && p != r && p != w implies s.status.contains_key(p)
                && t.status[p] == s.status[p] by {}
        }
        assert(states[0].status[r]->received + joined(fewer) + bytes
            =~= states[0].status[r]->received + joined(writes));
        assert forall|i: int| 0 <= i < woken.len() implies #[trigger] woken[i] == Some(
            ProcID(w),
        ) by {
            if i < n {
                assert(seen[i] == woken[i]);
            }
        }
    }
}

} // verus!
