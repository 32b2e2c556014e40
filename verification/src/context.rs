//! The state of one simulation: its processes, its pipes, and who waits.

use std::collections::HashMap;
use vstd::prelude::*;
use vstd::slice::slice_to_vec;

use crate::fd::{Fd, opposite};
use crate::ids::{ProcID, SimID, ThreadContext};
use crate::scheduler::{
    Round, entry_mut, find_ready, first_ready, is_uncontended_with, lemma_first_ready_known,
    lemma_matched_readers_have_writers, lemma_served_is_reader, match_readers, matched_readers,
    round, serve, serve_readers, statuses, uncontended,
};
use crate::status::{ProcStatus, Readiness, StatusView};
use crate::walk::{
    first_where, is_walk, keys_of, lemma_first_where_at, lemma_first_where_none,
};

verus! {

/// The number of started processes at which a simulation is full.
pub const MAX_PROCESSES_COUNT: u64 = 16;

/// A process of a simulation. `J` is the handle by which the thread that runs
/// the process can be joined.
pub struct ProcInfo<J> {
    parent_id: ProcID,
    inherited_fds: Vec<Fd>,
    join_handle: Option<J>,
}

/// The mathematical value of a [`ProcInfo`].
#[verifier::ext_equal]
pub struct ProcView<J> {
    /// The process that started this one.
    pub parent: u64,
    /// The pipe ends that were handed to it when it started.
    pub inherited: Seq<Fd>,
    /// The handle of the thread that runs it, until it is taken.
    pub handle: Option<J>,
}

impl<J> View for ProcInfo<J> {
    type V = ProcView<J>;

    closed spec fn view(&self) -> ProcView<J> {
        ProcView {
            parent: self.parent_id.0,
            inherited: self.inherited_fds@,
            handle: self.join_handle,
        }
    }
}

impl<J> Default for ProcInfo<J> {
    fn default() -> (res: Self)
        ensures
            res@ == (ProcView::<J> { parent: 0, inherited: Seq::empty(), handle: None }),
    {
        ProcInfo { parent_id: ProcID::default(), inherited_fds: Vec::new(), join_handle: None }
    }
}

impl<J> ProcInfo<J> {
    /// Makes `id` the process that the thread runs.
    pub fn set_pid(ctx: &mut ThreadContext, id: ProcID)
        ensures
            *final(ctx) == (ThreadContext { sim_id: old(ctx).sim_id, proc_id: id }),
    {
        ctx.proc_id = id;
    }

    /// The process that the thread runs.
    pub fn id(ctx: &ThreadContext) -> (res: ProcID)
        ensures
            res == ctx.proc_id,
    {
        ctx.proc_id
    }
}

/// The state of one simulation.
pub struct SimContext<J> {
    fds_count: u64,
    proc_id_count: ProcID,
    proc_info: HashMap<u64, ProcInfo<J>>,
    process_status: HashMap<u64, ProcStatus>,
    fds: HashMap<u64, u64>,
    dbg_status_count: u64,
}

/// The mathematical value of a [`SimContext`].
#[verifier::ext_equal]
pub struct SimView<J> {
    /// The number that the next pipe starts at.
    pub next_fd: nat,
    /// The number of the next process.
    pub next_proc: nat,
    /// The processes.
    pub procs: Map<u64, ProcView<J>>,
    /// What the stopped processes wait for.
    pub status: Map<u64, StatusView>,
    /// The open pipe ends, each with the process that owns it.
    pub fds: Map<u64, u64>,
    /// The tag of the next wait.
    pub next_tag: nat,
}

/// The processes of a table.
pub open spec fn proc_views<J>(table: Map<u64, ProcInfo<J>>) -> Map<u64, ProcView<J>> {
    table.map_values(|p: ProcInfo<J>| p@)
}

/// A table of pipe ends after `ends` have been handed to `owner`.
pub open spec fn handed(fds: Map<u64, u64>, ends: Seq<Fd>, owner: u64) -> Map<u64, u64> {
    Map::new(
        |k: u64| fds.contains_key(k),
        |k: u64|
            if ends.contains(Fd(k)) {
                owner
            } else {
                fds[k]
            },
    )
}

/// A table of pipe ends without those of `owner`.
pub open spec fn without_owner(fds: Map<u64, u64>, owner: u64) -> Map<u64, u64> {
    Map::new(|k: u64| fds.contains_key(k) && fds[k] != owner, |k: u64| fds[k])
}

/// Whether a process in state `s` reads from `fd`.
pub open spec fn reads_from(s: StatusView, fd: u64) -> bool {
    s is ReadWait && s->ReadWait_fd == fd
}

impl<J> SimView<J> {
    /// A simulation that holds only the process that it starts with.
    pub open spec fn initial() -> Self {
        SimView {
            next_fd: 2,
            next_proc: 1,
            procs: map![0u64 => ProcView { parent: 0, inherited: Seq::empty(), handle: None }],
            status: Map::empty(),
            fds: Map::empty(),
            next_tag: 0,
        }
    }

    /// The numbers below `next_proc` are the processes, and the open pipe ends
    /// have numbers below `next_fd`, which starts a pipe.
    pub open spec fn wf(self) -> bool {
        &&& self.next_proc >= 1
        &&& forall|p: u64| #[trigger] self.procs.contains_key(p) <==> p < self.next_proc
        &&& self.next_fd >= 2
        &&& self.next_fd % 2 == 0
        &&& forall|fd: u64| #[trigger] self.fds.contains_key(fd) ==> 2 <= fd < self.next_fd
    }

    /// Every process that waits, and every parent, is a process of the simulation.
    pub open spec fn linked(self) -> bool {
        &&& forall|p: u64| #[trigger] self.status.contains_key(p) ==> self.procs.contains_key(p)
        &&& forall|p: u64|
            self.procs.contains_key(p) ==> self.procs.contains_key((#[trigger] self.procs[p]).parent)
    }

    /// `pid` owns the open pipe end `fd`.
    pub open spec fn owns(self, pid: ProcID, fd: Fd) -> bool {
        self.fds.contains_key(fd.0) && self.fds[fd.0] == pid.0
    }

    /// The parent of each process.
    pub open spec fn parents(self) -> Map<u64, u64> {
        self.procs.map_values(|p: ProcView<J>| p.parent)
    }

    /// The same simulation with other waits.
    pub open spec fn with_status(self, status: Map<u64, StatusView>) -> Self {
        SimView { status, ..self }
    }

    /// The simulation after `pid` has begun to wait as `s` says.
    pub open spec fn parked(self, pid: u64, s: StatusView) -> Self {
        SimView { status: self.status.insert(pid, s), next_tag: self.next_tag + 1, ..self }
    }

    /// The state of a process that asks to read `len` bytes from `fd`.
    pub open spec fn read_request(self, fd: Fd, len: usize) -> StatusView {
        StatusView::ReadWait {
            fd: fd.0,
            missing: len as nat,
            received: Seq::empty(),
            tag: self.next_tag as u64,
        }
    }

    /// The state of a process that asks to write `bytes` to `fd`.
    pub open spec fn write_request(self, fd: Fd, bytes: Seq<u8>) -> StatusView {
        StatusView::WriteWait { fd: fd.0, pending: bytes, tag: self.next_tag as u64 }
    }

    /// The simulation after one round over the walk `order`.
    pub open spec fn round(self, order: Seq<u64>) -> Round {
        round(self.status, self.fds, self.parents(), order)
    }

    /// `after` is this simulation after one round, over some walk, that woke `woken`.
    pub open spec fn rounds_to(self, after: Self, woken: Option<ProcID>) -> bool {
        exists|order: Seq<u64>|
            {
                &&& #[trigger] is_walk(order, self.status.dom())
                &&& after == self.with_status(self.round(order).status)
                &&& woken_as(woken, self.round(order).woken)
            }
    }

    /// The simulation after `pid` has opened a pipe.
    pub open spec fn opened(self, pid: u64) -> Self {
        SimView {
            next_fd: self.next_fd + 2,
            fds: self.fds.insert(self.next_fd as u64, pid).insert((self.next_fd + 1) as u64, pid),
            ..self
        }
    }

    /// The simulation after the pipe end `fd` has been closed.
    pub open spec fn closed(self, fd: u64) -> Self {
        SimView { fds: self.fds.remove(fd), ..self }
    }

    /// The simulation after `parent` has started a process and handed it `ends`.
    pub open spec fn started(self, parent: u64, ends: Seq<Fd>) -> Self {
        let id = self.next_proc as u64;
        SimView {
            next_proc: self.next_proc + 1,
            procs: self.procs.insert(id, ProcView { parent, inherited: ends, handle: None }),
            status: self.status.insert(parent, StatusView::WaitSpawn),
            fds: handed(self.fds, ends, id),
            ..self
        }
    }

    /// The simulation after `id` has ended: its pipe ends are closed.
    pub open spec fn ended(self, id: u64) -> Self {
        SimView {
            fds: without_owner(self.fds, id),
            status: self.status.insert(id, StatusView::Terminated),
            ..self
        }
    }
}

/// `id` names the process `number`, or both name none.
pub open spec fn woken_as(id: Option<ProcID>, number: Option<u64>) -> bool {
    match id {
        Some(p) => number == Some(p.0),
        None => number is None,
    }
}

impl<J> View for SimContext<J> {
    type V = SimView<J>;

    closed spec fn view(&self) -> SimView<J> {
        SimView {
            next_fd: self.fds_count as nat,
            next_proc: self.proc_id_count.0 as nat,
            procs: proc_views(self.proc_info@),
            status: statuses(self.process_status@),
            fds: self.fds@,
            next_tag: self.dbg_status_count as nat,
        }
    }
}

impl<J> Default for SimContext<J> {
    fn default() -> (res: Self)
        ensures
            res@ == SimView::<J>::initial(),
    {
        let mut proc_info: HashMap<u64, ProcInfo<J>> = HashMap::new();
        proc_info.insert(0, ProcInfo::default());
        let res = SimContext {
            fds_count: 2,
            proc_id_count: ProcID::from(1),
            proc_info,
            process_status: HashMap::new(),
            fds: HashMap::new(),
            dbg_status_count: 0,
        };
        assert(res@.procs =~= SimView::<J>::initial().procs);
        assert(res@.status =~= SimView::<J>::initial().status);
        res
    }
}

/// What a process that begins to wait is told.
#[derive(Copy, Clone, Debug, PartialEq, Eq, Structural)]
pub struct Waited {
    /// The process whose event the caller is to wait on: its own.
    pub event: ProcID,
    /// The process whose event is to be notified.
    pub woken: Option<ProcID>,
}

impl<J> SimContext<J> {
    /// A new simulation; the thread runs the process that it starts with.
    pub fn new_in(ctx: &mut ThreadContext) -> (res: Self)
        ensures
            res@ == SimView::<J>::initial(),
            *final(ctx) == (ThreadContext { sim_id: old(ctx).sim_id, proc_id: ProcID(0) }),
    {
        ProcInfo::<J>::set_pid(ctx, ProcID::from(0));
        Self::default()
    }

    /// Makes the thread run the simulation `id` and, if one is given, the process `pid`.
    pub fn update_ctx_id(ctx: &mut ThreadContext, id: SimID, pid: Option<ProcID>)
        ensures
            final(ctx).sim_id == id,
            final(ctx).proc_id == (match pid {
                Some(p) => p,
                None => old(ctx).proc_id,
            }),
    {
        ctx.sim_id = id;
        if let Some(pid) = pid {
            ProcInfo::<J>::set_pid(ctx, pid);
        }
    }

    /// The simulation that the thread runs.
    pub fn ctx_id(ctx: &ThreadContext) -> (res: SimID)
        ensures
            res == ctx.sim_id,
    {
        ctx.sim_id
    }

    /// Puts the thread back to where threads start.
    pub fn clean(ctx: &mut ThreadContext)
        ensures
            *final(ctx) == (ThreadContext { sim_id: SimID(0), proc_id: ProcID(0) }),
    {
        ctx.sim_id = SimID::from(0);
        ctx.proc_id = ProcID::from(0);
    }

    /// The process that the thread runs.
    pub fn pid(ctx: &ThreadContext) -> (res: ProcID)
        ensures
            res == ctx.proc_id,
    {
        ProcInfo::<J>::id(ctx)
    }

    /// Starts a process: the running process becomes its parent and waits, and
    /// the pipe ends `fds` pass to the new process.
    ///
    /// The caller runs the process on a thread, hands the thread's handle to
    /// [`SimContext::set_join_handle`], and calls [`SimContext::end_process`]
    /// when the process has ended.
    pub fn start_process(&mut self, ctx: &ThreadContext, fds: &[Fd]) -> (res: ProcID)
        requires
            old(self)@.next_proc < u64::MAX,
            forall|i: int|
                0 <= i < fds@.len() ==> old(self)@.fds.contains_key((#[trigger] fds@[i]).0),
        ensures
            res.0 == old(self)@.next_proc,
            final(self)@ == old(self)@.started(ctx.proc_id.0, fds@),
            old(self)@.wf() ==> final(self)@.wf(),
            old(self)@.wf() && old(self)@.linked() && old(self)@.procs.contains_key(ctx.proc_id.0)
                ==> final(self)@.linked(),
    {
        let parent_id = ProcInfo::<J>::id(ctx);
        let id = self.proc_id_count.next();
        let mut inherited_fds: Vec<Fd> = Vec::new();
        for i in 0..fds.len()
            invariant
                inherited_fds@ == fds@.take(i as int),
        {
            inherited_fds.push(fds[i]);
            assert(fds@.take(i + 1) =~= fds@.take(i as int).push(fds@[i as int]));
        }
        assert(fds@.take(fds@.len() as int) =~= fds@);
        let process = ProcInfo { parent_id, inherited_fds, join_handle: None };
        self.proc_info.insert(id.0, process);

        let ghost listed = self@;
        let ghost before = listed.fds;
        assert(handed(before, fds@.take(0), id.0) =~= before);
        for i in 0..fds.len()
            invariant
                before == listed.fds,
                self@ == (SimView::<J> {
                    fds: handed(before, fds@.take(i as int), id.0),
                    ..listed
                }),
                forall|j: int|
                    0 <= j < fds@.len() ==> before.contains_key((#[trigger] fds@[j]).0),
        {
            self.move_pipe(&fds[i], id);
            proof {
                let done = fds@.take(i as int);
                let next = fds@.take(i + 1);
                assert(next =~= done.push(fds@[i as int]));
                assert forall|k: u64| next.contains(Fd(k)) <==> done.contains(Fd(k)) || fds@[i as int]
                    == Fd(k) by {
                    if done.contains(Fd(k)) {
                        let j = choose|j: int| 0 <= j < done.len() && done[j] == Fd(k);
                        assert(next[j] == Fd(k));
                    }
                    if fds@[i as int] == Fd(k) {
                        assert(next[i as int] == Fd(k));
                    }
                }
                assert(self@.fds =~= handed(before, next, id.0));
            }
        }
        assert(fds@.take(fds@.len() as int) =~= fds@);
        self.process_status.insert(parent_id.0, ProcStatus::WaitSpawn);
        proof {
            assert(self@.procs =~= old(self)@.procs.insert(
                id.0,
                ProcView { parent: parent_id.0, inherited: fds@, handle: None },
            ));
            assert(self@.status =~= old(self)@.status.insert(parent_id.0, StatusView::WaitSpawn));
        }
        id
    }

    /// Hands an open pipe end to a process.
    pub fn move_pipe(&mut self, fd: &Fd, pid: ProcID)
        requires
            old(self)@.fds.contains_key(fd.0),
        ensures
            final(self)@ == (SimView::<J> {
                fds: old(self)@.fds.insert(fd.0, pid.0),
                ..old(self)@
            }),
            old(self)@.wf() ==> final(self)@.wf(),
    {
        if let Some(owner) = entry_mut(&mut self.fds, fd.0) {
            *owner = pid.0;
        }
    }

    /// The process `id`.
    fn process(&self, id: &ProcID) -> (res: &ProcInfo<J>)
        requires
            self@.procs.contains_key(id.0),
        ensures
            res@ == self@.procs[id.0],
    {
        self.proc_info.get(&id.0).unwrap()
    }

    /// The process `id`, for updating in place.
    fn process_mut(&mut self, id: &ProcID) -> (res: &mut ProcInfo<J>)
        requires
            old(self)@.procs.contains_key(id.0),
        ensures
            res@ == old(self)@.procs[id.0],
            final(self)@ == (SimView::<J> {
                procs: old(self)@.procs.insert(id.0, final(res)@),
                ..old(self)@
            }),
    {
        entry_mut(&mut self.proc_info, id.0).unwrap()
    }

    /// Keeps the handle of the thread that runs the process `id`.
    pub fn set_join_handle(&mut self, id: &ProcID, handle: J)
        requires
            old(self)@.procs.contains_key(id.0),
        ensures
            final(self)@ == (SimView::<J> {
                procs: old(self)@.procs.insert(
                    id.0,
                    ProcView { handle: Some(handle), ..old(self)@.procs[id.0] },
                ),
                ..old(self)@
            }),
            old(self)@.wf() ==> final(self)@.wf(),
            old(self)@.linked() ==> final(self)@.linked(),
    {
        let process = self.process_mut(id);
        process.join_handle = Some(handle);
    }

    /// Takes the handle of the thread that runs the process `id`.
    pub fn exit(&mut self, id: &ProcID) -> (res: Option<J>)
        requires
            old(self)@.procs.contains_key(id.0),
        ensures
            res == old(self)@.procs[id.0].handle,
            final(self)@ == (SimView::<J> {
                procs: old(self)@.procs.insert(
                    id.0,
                    ProcView { handle: None, ..old(self)@.procs[id.0] },
                ),
                ..old(self)@
            }),
            old(self)@.wf() ==> final(self)@.wf(),
            old(self)@.linked() ==> final(self)@.linked(),
    {
        let process = self.process_mut(id);
        process.join_handle.take()
    }

    /// The pipe ends that the running process was started with.
    pub fn inherited_fds(&self, ctx: &ThreadContext) -> (res: Vec<Fd>)
        requires
            self@.procs.contains_key(ctx.proc_id.0),
        ensures
            res@ == self@.procs[ctx.proc_id.0].inherited,
    {
        let process = self.process(&ProcInfo::<J>::id(ctx));
        let res = process.inherited_fds.clone();
        assert(res@ =~= process.inherited_fds@);
        res
    }

    /// Whether no more processes are to be started.
    pub fn max_proc_spawned(&self) -> (res: bool)
        ensures
            res <==> self@.next_proc > MAX_PROCESSES_COUNT,
    {
        u64::from(self.proc_id_count) > MAX_PROCESSES_COUNT
    }

    /// Whether `id` is a process of the simulation.
    pub fn has_proc(&self, id: &ProcID) -> (res: bool)
        ensures
            res <==> self@.procs.contains_key(id.0),
    {
        self.proc_info.contains_key(&id.0)
    }

    /// The process whose event the running process waits on: each process has
    /// one event, and waits on its own.
    pub fn get_event(&self, ctx: &ThreadContext) -> (res: ProcID)
        requires
            self@.procs.contains_key(ctx.proc_id.0),
        ensures
            res == ctx.proc_id,
    {
        ProcInfo::<J>::id(ctx)
    }

    /// The first process in the walk that meets the condition.
    fn find_ready(&self, order: &Vec<u64>, want: Readiness) -> (res: Option<u64>)
        requires
            is_walk(order@, self@.status.dom()),
        ensures
            res == first_ready(self@.status, order@, want),
            res matches Some(p) ==> self@.status.contains_key(p),
    {
        assert(self@.status.dom() =~= self.process_status@.dom());
        proof {
            lemma_first_ready_known(self@.status, order@, want);
        }
        find_ready(&self.process_status, order, want)
    }

    /// Forgets what a process waits for.
    fn forget(&mut self, id: u64)
        ensures
            final(self)@ == old(self)@.with_status(old(self)@.status.remove(id)),
    {
        self.process_status.remove(&id);
        assert(self@.status =~= old(self)@.status.remove(id));
    }

    /// Moves bytes to the readers in the order of the walk, until one of them
    /// misses nothing; that one is returned.
    fn serve_along(&mut self, order: &Vec<u64>) -> (res: Option<u64>)
        requires
            is_walk(order@, old(self)@.status.dom()),
        ensures
            ({
                let readers = matched_readers(old(self)@.status, old(self)@.fds, order@);
                let (after, served) = serve(old(self)@.status, old(self)@.fds, readers);
                &&& final(self)@ == old(self)@.with_status(after)
                &&& res == served
            }),
            final(self)@.status.dom() == old(self)@.status.dom(),
            res matches Some(p) ==> final(self)@.status.contains_key(p),
    {
        assert(self@.status.dom() =~= self.process_status@.dom());
        let readers = match_readers(&self.process_status, &self.fds, order);
        proof {
            lemma_matched_readers_have_writers(self@.status, self@.fds, order@);
            lemma_served_is_reader(self@.status, self@.fds, readers@);
        }
        let served = serve_readers(&mut self.process_status, &self.fds, &readers);
        assert(self@.status.dom() =~= self.process_status@.dom());
        served
    }

    /// Runs one round over the walk `order` and returns the process to wake.
    pub fn process_io_along(&mut self, order: &Vec<u64>) -> (res: Option<ProcID>)
        requires
            is_walk(order@, old(self)@.status.dom()),
            old(self)@.linked(),
            uncontended(old(self)@.status, old(self)@.fds),
        ensures
            final(self)@ == old(self)@.with_status(old(self)@.round(order@).status),
            woken_as(res, old(self)@.round(order@).woken),
            old(self)@.wf() ==> final(self)@.wf(),
            final(self)@.linked(),
            res matches Some(p) ==> final(self)@.procs.contains_key(p.0),
    {
        if let Some(id) = self.find_ready(order, Readiness::Terminated) {
            let parent = self.process(&ProcID(id)).parent_id;
            self.forget(id);
            return Some(parent);
        }
        if let Some(id) = self.find_ready(order, Readiness::Drained) {
            self.forget(id);
            return Some(ProcID(id));
        }
        if let Some(id) = self.serve_along(order) {
            return Some(ProcID(id));
        }
        if let Some(id) = self.find_ready(order, Readiness::Drained) {
            self.forget(id);
            return Some(ProcID(id));
        }
        if let Some(id) = self.find_ready(order, Readiness::Filled) {
            return Some(ProcID(id));
        }
        match self.find_ready(order, Readiness::Spawned) {
            Some(id) => Some(ProcID(id)),
            None => None,
        }
    }

    /// Runs one round and returns the process to wake. The order in which the
    /// stopped processes are looked at is not specified.
    pub fn process_io(&mut self) -> (res: Option<ProcID>)
        requires
            old(self)@.linked(),
            uncontended(old(self)@.status, old(self)@.fds),
        ensures
            old(self)@.rounds_to(final(self)@, res),
            old(self)@.wf() ==> final(self)@.wf(),
            final(self)@.linked(),
            res matches Some(p) ==> final(self)@.procs.contains_key(p.0),
    {
        let order = keys_of(&self.process_status);
        assert(self@.status.dom() =~= self.process_status@.dom());
        self.process_io_along(&order)
    }

    /// Whether a wait to read `len` bytes from `fd` leaves no two readers
    /// competing for the bytes of one writer.
    pub fn can_wait_read(&self, ctx: &ThreadContext, fd: &Fd, len: usize) -> (res: bool)
        ensures
            res == uncontended(
                self@.parked(ctx.proc_id.0, self@.read_request(*fd, len)).status,
                self@.fds,
            ),
    {
        let id = ProcInfo::<J>::id(ctx);
        let own = ProcStatus::ReadWait(*fd, len, Vec::new(), self.dbg_status_count);
        assert(own@ =~= self@.read_request(*fd, len));
        is_uncontended_with(&self.process_status, &self.fds, id.0, &own)
    }

    /// Whether a wait to write `buf` to `fd` leaves no two readers competing
    /// for the bytes of one writer.
    pub fn can_wait_write(&self, ctx: &ThreadContext, fd: &Fd, buf: &[u8]) -> (res: bool)
        ensures
            res == uncontended(
                self@.parked(ctx.proc_id.0, self@.write_request(*fd, buf@)).status,
                self@.fds,
            ),
    {
        let id = ProcInfo::<J>::id(ctx);
        let own = ProcStatus::WriteWait(*fd, slice_to_vec(buf), self.dbg_status_count);
        assert(own@ =~= self@.write_request(*fd, buf@));
        is_uncontended_with(&self.process_status, &self.fds, id.0, &own)
    }

    /// The running process waits to read `len` bytes from `fd`, and a round is run.
    pub fn wait_read(&mut self, ctx: &ThreadContext, fd: Fd, len: usize) -> (res: Waited)
        requires
            old(self)@.procs.contains_key(ctx.proc_id.0),
            old(self)@.linked(),
            old(self)@.next_tag < u64::MAX,
            uncontended(
                old(self)@.parked(ctx.proc_id.0, old(self)@.read_request(fd, len)).status,
                old(self)@.fds,
            ),
        ensures
            res.event == ctx.proc_id,
            old(self)@.parked(ctx.proc_id.0, old(self)@.read_request(fd, len)).rounds_to(
                final(self)@,
                res.woken,
            ),
            old(self)@.wf() ==> final(self)@.wf(),
            final(self)@.linked(),
            res.woken matches Some(p) ==> final(self)@.procs.contains_key(p.0),
    {
        let id = ProcInfo::<J>::id(ctx);
        let dbg_id = self.dbg_status_count;
        self.dbg_status_count = self.dbg_status_count + 1;
        let own = ProcStatus::ReadWait(fd, len, Vec::new(), dbg_id);
        assert(own@ =~= old(self)@.read_request(fd, len));
        self.process_status.insert(id.0, own);
        assert(self@ =~= old(self)@.parked(id.0, old(self)@.read_request(fd, len)));
        let woken = self.process_io();
        Waited { event: self.get_event(ctx), woken }
    }

    /// The running process waits for `buf` to be taken from `fd`, and a round is run.
    pub fn wait_write(&mut self, ctx: &ThreadContext, fd: Fd, buf: &[u8]) -> (res: Waited)
        requires
            old(self)@.procs.contains_key(ctx.proc_id.0),
            old(self)@.linked(),
            old(self)@.next_tag < u64::MAX,
            uncontended(
                old(self)@.parked(ctx.proc_id.0, old(self)@.write_request(fd, buf@)).status,
                old(self)@.fds,
            ),
        ensures
            res.event == ctx.proc_id,
            old(self)@.parked(ctx.proc_id.0, old(self)@.write_request(fd, buf@)).rounds_to(
                final(self)@,
                res.woken,
            ),
            old(self)@.wf() ==> final(self)@.wf(),
            final(self)@.linked(),
            res.woken matches Some(p) ==> final(self)@.procs.contains_key(p.0),
    {
        let id = ProcInfo::<J>::id(ctx);
        let dbg_id = self.dbg_status_count;
        self.dbg_status_count = self.dbg_status_count + 1;
        let own = ProcStatus::WriteWait(fd, slice_to_vec(buf), dbg_id);
        assert(own@ =~= old(self)@.write_request(fd, buf@));
        self.process_status.insert(id.0, own);
        assert(self@ =~= old(self)@.parked(id.0, old(self)@.write_request(fd, buf@)));
        let woken = self.process_io();
        Waited { event: self.get_event(ctx), woken }
    }

    /// Takes what the first process in the walk that reads from `fd` has
    /// received, and ends its wait. Nothing is taken if no process reads from `fd`.
    pub fn read_cache_along(&mut self, order: &Vec<u64>, fd: &Fd) -> (res: Vec<u8>)
        requires
            is_walk(order@, old(self)@.status.dom()),
        ensures
            match first_where(order@, |p: u64| reads_from(old(self)@.status[p], fd.0)) {
                Some(p) => {
                    &&& old(self)@.status.contains_key(p)
                    &&& reads_from(old(self)@.status[p], fd.0)
                    &&& res@ == old(self)@.status[p]->received
                    &&& final(self)@ == old(self)@.with_status(old(self)@.status.remove(p))
                },
                None => {
                    &&& forall|p: u64| #[trigger]
                        old(self)@.status.contains_key(p) ==> !reads_from(
                            old(self)@.status[p],
                            fd.0,
                        )
                    &&& res@ == Seq::<u8>::empty()
                    &&& final(self)@ == old(self)@
                },
            },
            old(self)@.wf() ==> final(self)@.wf(),
            old(self)@.linked() ==> final(self)@.linked(),
    {
        let ghost status = self@.status;
        let ghost reads = |p: u64| reads_from(status[p], fd.0);
        assert(self@.status.dom() =~= self.process_status@.dom());
        for i in 0..order.len()
            invariant
                *self == *old(self),
                status == self@.status,
                status.dom() == self.process_status@.dom(),
                reads == (|p: u64| reads_from(status[p], fd.0)),
                is_walk(order@, status.dom()),
                forall|j: int| 0 <= j < i ==> !reads(#[trigger] order@[j]),
        {
            let pid = order[i];
            assert(order@.contains(pid));
            let mut found: Option<Vec<u8>> = None;
            if let Some(s) = self.process_status.get(&pid) {
                if let Some((rfd, _, buf)) = s.read_wait() {
                    if rfd.0 == fd.0 {
                        found = Some(slice_to_vec(buf));
                    }
                }
            }
            if let Some(buf) = found {
                proof {
                    assert(reads(order@[i as int]));
                    lemma_first_where_at(order@, reads, i as int);
                }
                self.forget(pid);
                return buf;
            }
        }
        proof {
            lemma_first_where_none(order@, reads);
            assert forall|p: u64| #[trigger] status.contains_key(p) implies !reads_from(
                status[p],
                fd.0,
            ) by {
                assert(order@.contains(p));
                let j = choose|j: int| 0 <= j < order@.len() && order@[j] == p;
                assert(!reads(order@[j]));
            }
        }
        Vec::new()
    }

    /// Takes what a process that reads from `fd` has received, and ends its
    /// wait. Nothing is taken if no process reads from `fd`; if several do, it is
    /// not specified which one is chosen.
    pub fn read_cache(&mut self, fd: &Fd) -> (res: Vec<u8>)
        ensures
            (forall|p: u64| #[trigger]
                old(self)@.status.contains_key(p) ==> !reads_from(old(self)@.status[p], fd.0))
                ==> res@ == Seq::<u8>::empty() && final(self)@ == old(self)@,
            (exists|p: u64| #[trigger]
                old(self)@.status.contains_key(p) && reads_from(old(self)@.status[p], fd.0))
                ==> exists|p: u64|
                {
                    &&& #[trigger] old(self)@.status.contains_key(p)
                    &&& reads_from(old(self)@.status[p], fd.0)
                    &&& res@ == old(self)@.status[p]->received
                    &&& final(self)@ == old(self)@.with_status(old(self)@.status.remove(p))
                },
            old(self)@.wf() ==> final(self)@.wf(),
            old(self)@.linked() ==> final(self)@.linked(),
    {
        let order = keys_of(&self.process_status);
        assert(self@.status.dom() =~= self.process_status@.dom());
        self.read_cache_along(&order, fd)
    }

    /// Opens a pipe that the running process owns: its read end and its write end.
    pub fn new_pipe(&mut self, ctx: &ThreadContext) -> (res: (Fd, Fd))
        requires
            old(self)@.next_fd + 2 <= u64::MAX,
        ensures
            res.0.0 == old(self)@.next_fd,
            res.1.0 == old(self)@.next_fd + 1,
            final(self)@ == old(self)@.opened(ctx.proc_id.0),
            old(self)@.wf() ==> final(self)@.wf(),
            old(self)@.linked() ==> final(self)@.linked(),
    {
        let pid = ProcInfo::<J>::id(ctx);
        let fds = Fd::create(self.fds_count);
        self.fds.insert(fds.0.0, pid.0);
        self.fds.insert(fds.1.0, pid.0);
        self.fds_count = fds.2;
        (fds.0, fds.1)
    }

    /// Closes a pipe end, if the running process owns it.
    pub fn close_pipe(&mut self, ctx: &ThreadContext, fd: Fd) -> (res: bool)
        ensures
            res <==> old(self)@.owns(ctx.proc_id, fd),
            res ==> final(self)@ == old(self)@.closed(fd.0),
            !res ==> final(self)@ == old(self)@,
            old(self)@.wf() ==> final(self)@.wf(),
            old(self)@.linked() ==> final(self)@.linked(),
    {
        if !self.has_fd(ctx, &fd) {
            false
        } else {
            self.fds.remove(&fd.0).is_some()
        }
    }

    /// The number of open pipe ends.
    pub fn len_pipe(&self) -> (res: usize)
        ensures
            res == self@.fds.len(),
    {
        self.fds.len()
    }

    /// Closes the pipe ends of the process `id`, which has ended.
    pub fn close_all(&mut self, id: &ProcID)
        ensures
            final(self)@ == old(self)@.ended(id.0),
            old(self)@.wf() ==> final(self)@.wf(),
            old(self)@.linked() && old(self)@.procs.contains_key(id.0) ==> final(self)@.linked(),
    {
        let keys = keys_of(&self.fds);
        let ghost all = self.fds@;
        let ghost start = *self;
        for i in 0..keys.len()
            invariant
                start == *old(self),
                all == start.fds@,
                is_walk(keys@, all.dom()),
                self.fds_count == start.fds_count,
                self.proc_id_count == start.proc_id_count,
                self.proc_info == start.proc_info,
                self.process_status == start.process_status,
                self.dbg_status_count == start.dbg_status_count,
                forall|k: u64| #[trigger]
                    self.fds@.contains_key(k) ==> all.contains_key(k) && self.fds@[k] == all[k],
                forall|k: u64| #[trigger]
                    all.contains_key(k) && !self.fds@.contains_key(k) ==> all[k] == id.0,
                forall|j: int|
                    0 <= j < i && all[#[trigger] keys@[j]] == id.0 ==> !self.fds@.contains_key(
                        keys@[j],
                    ),
        {
            let k = keys[i];
            let mut owned = false;
            if let Some(owner) = self.fds.get(&k) {
                owned = *owner == id.0;
            }
            if owned {
                self.fds.remove(&k);
            }
        }
        proof {
            assert forall|k: u64| self.fds@.contains_key(k) <==> all.contains_key(k) && all[k]
                != id.0 by {
                if all.contains_key(k) && all[k] == id.0 {
                    assert(keys@.contains(k));
                    let j = choose|j: int| 0 <= j < keys@.len() && keys@[j] == k;
                    assert(all[keys@[j]] == id.0);
                }
            }
            assert(self.fds@ =~= without_owner(all, id.0));
        }
        self.process_status.insert(id.0, ProcStatus::Terminated);
        assert(self@ =~= old(self)@.ended(id.0));
    }

    /// The process `id` has ended: closes its pipe ends and runs a round. The
    /// process that is returned is to be woken.
    pub fn end_process(&mut self, id: &ProcID) -> (res: Option<ProcID>)
        requires
            old(self)@.procs.contains_key(id.0),
            old(self)@.linked(),
        ensures
            old(self)@.ended(id.0).rounds_to(final(self)@, res),
            old(self)@.wf() ==> final(self)@.wf(),
            final(self)@.linked(),
            res matches Some(p) ==> final(self)@.procs.contains_key(p.0),
    {
        self.close_all(id);
        proof {
            assert(self@.status.contains_key(id.0));
            assert(self@.status[id.0].meets(Readiness::Terminated));
        }
        self.process_io()
    }

    /// Whether the running process owns the pipe end `fd`.
    pub fn has_fd(&self, ctx: &ThreadContext, fd: &Fd) -> (res: bool)
        ensures
            res <==> self@.owns(ctx.proc_id, *fd),
    {
        if let Some(pid) = self.fds.get(&fd.0) {
            ProcInfo::<J>::id(ctx).0 == *pid
        } else {
            false
        }
    }

    /// Whether the opposite end of the pipe is open.
    pub fn chech_other_fd(&self, fd: &Fd) -> (res: bool)
        ensures
            res <==> self@.fds.contains_key(opposite(fd.0)),
    {
        self.fds.contains_key(&fd.other_fd().0)
    }

    /// Whether there are numbers left for another pipe, another process and another wait.
    pub fn has_numbers_left(&self) -> (res: bool)
        ensures
            res <==> {
                &&& self@.next_fd + 2 <= u64::MAX
                &&& self@.next_proc < u64::MAX
                &&& self@.next_tag < u64::MAX
            },
    {
        self.fds_count <= u64::MAX - 2 && self.proc_id_count.0 < u64::MAX && self.dbg_status_count
            < u64::MAX
    }

    /// Whether every process that waits, and every parent, is a process of the simulation.
    pub fn is_linked(&self) -> (res: bool)
        ensures
            res == self@.linked(),
    {
        let waiting = keys_of(&self.process_status);
        assert(self@.status.dom() =~= self.process_status@.dom());
        for i in 0..waiting.len()
            invariant
                is_walk(waiting@, self@.status.dom()),
                forall|j: int| 0 <= j < i ==> self@.procs.contains_key(#[trigger] waiting@[j]),
        {
            if !self.proc_info.contains_key(&waiting[i]) {
                assert(waiting@.contains(waiting@[i as int]));
                assert(self@.status.contains_key(waiting@[i as int]));
                return false;
            }
        }
        let ids = keys_of(&self.proc_info);
        assert(self@.procs.dom() =~= self.proc_info@.dom());
        for i in 0..ids.len()
            invariant
                is_walk(ids@, self@.procs.dom()),
                forall|j: int|
                    0 <= j < i ==> self@.procs.contains_key(
                        self@.procs[#[trigger] ids@[j]].parent,
                    ),
        {
            assert(ids@.contains(ids@[i as int]));
            let parent = self.process(&ProcID(ids[i])).parent_id;
            assert(parent.0 == self@.procs[ids@[i as int]].parent);
            if !self.has_proc(&parent) {
                return false;
            }
        }
        proof {
            assert forall|p: u64| #[trigger] self@.status.contains_key(
                p,
            ) implies self@.procs.contains_key(p) by {
                assert(waiting@.contains(p));
                let j = choose|j: int| 0 <= j < waiting@.len() && waiting@[j] == p;
                assert(self@.procs.contains_key(waiting@[j]));
            }
            assert forall|p: u64| self@.procs.contains_key(p) implies self@.procs.contains_key(
                (#[trigger] self@.procs[p]).parent,
            ) by {
                assert(ids@.contains(p));
                let j = choose|j: int| 0 <= j < ids@.len() && ids@[j] == p;
                assert(self@.procs.contains_key(self@.procs[ids@[j]].parent));
            }
        }
        true
    }
}

} // verus!
