//! The process table that is shared between native binaries, and the calls that
//! a native binary makes on it.

use std::collections::{HashMap, HashSet};
use vstd::prelude::*;

use crate::binary::{
    Byte32, INDEX_OUT_OF_BOUND, NativeBinaries, Place, find_bin_path_by_hash, get_hash, hash_name,
    lower_hex, place_of, selected,
};
use crate::context::handed;
use crate::fd::{Fd, opposite};
use crate::ids::VmId;
use crate::outside::blake2b_digest;
use crate::scheduler::entry_mut;

verus! {

/// The code for a pipe end that is not open or belongs to another process.
pub const CKB_INVALID_FD: i32 = 6;

/// A process of the table.
pub struct ProcessInfo {
    pid: VmId,
    child_id: HashSet<VmId>,
    inherited_fds: Option<Vec<Fd>>,
}

/// The mathematical value of a [`ProcessInfo`].
#[verifier::ext_equal]
pub struct ProcessInfoView {
    /// The number of the process.
    pub pid: u64,
    /// The processes that it is known to have started.
    pub children: Set<u64>,
    /// The pipe ends that it was started with; none for the first process.
    pub inherited: Option<Seq<Fd>>,
}

impl View for ProcessInfo {
    type V = ProcessInfoView;

    closed spec fn view(&self) -> ProcessInfoView {
        ProcessInfoView {
            pid: self.pid,
            children: self.child_id@,
            inherited: match self.inherited_fds {
                Some(fds) => Some(fds@),
                None => None,
            },
        }
    }
}

impl ProcessInfo {
    /// The process that runs first.
    pub fn new_parent() -> (res: Self)
        ensures
            res@ == (ProcessInfoView { pid: 0, children: Set::empty(), inherited: None }),
    {
        ProcessInfo { pid: 0, child_id: HashSet::new(), inherited_fds: None }
    }
}

/// The process table.
pub struct ProcessInfos {
    fds_count: u64,
    pid_count: u64,
    processes: HashMap<u64, ProcessInfo>,
    fds: HashMap<u64, u64>,
}

/// The mathematical value of a [`ProcessInfos`].
#[verifier::ext_equal]
pub struct InfosView {
    /// The number that the next pipe starts at.
    pub next_fd: nat,
    /// The number of the next process.
    pub next_pid: nat,
    /// The processes that have begun to run.
    pub processes: Map<u64, ProcessInfoView>,
    /// The open pipe ends, each with the process that owns it.
    pub fds: Map<u64, u64>,
}

impl InfosView {
    /// A table that holds only the first process.
    pub open spec fn initial() -> Self {
        InfosView {
            next_fd: 2,
            next_pid: 1,
            processes: map![
                0u64 => ProcessInfoView { pid: 0, children: Set::empty(), inherited: None },
            ],
            fds: Map::empty(),
        }
    }

    /// The first process runs, processes have numbers below `next_pid`, and open pipe
    /// ends have numbers below `next_fd`, which starts a pipe.
    pub open spec fn wf(self) -> bool {
        &&& self.processes.contains_key(0)
        &&& self.next_pid >= 1
        &&& forall|p: u64| #[trigger] self.processes.contains_key(p) ==> p < self.next_pid
        &&& self.next_fd >= 2
        &&& self.next_fd % 2 == 0
        &&& forall|fd: u64| #[trigger] self.fds.contains_key(fd) ==> 2 <= fd < self.next_fd
    }

    /// `pid` owns the open pipe end `fd`.
    pub open spec fn owns(self, pid: u64, fd: u64) -> bool {
        self.fds.contains_key(fd) && self.fds[fd] == pid
    }

    /// The table after `pid` has opened a pipe.
    pub open spec fn opened(self, pid: u64) -> Self {
        InfosView {
            next_fd: self.next_fd + 2,
            fds: self.fds.insert(self.next_fd as u64, pid).insert((self.next_fd + 1) as u64, pid),
            ..self
        }
    }

    /// The table after the pipe end `fd` has been closed.
    pub open spec fn closed(self, fd: u64) -> Self {
        InfosView { fds: self.fds.remove(fd), ..self }
    }

    /// The table after a process has been given a number and `ends`.
    pub open spec fn reserved(self, ends: Seq<Fd>) -> Self {
        InfosView {
            next_pid: self.next_pid + 1,
            fds: handed(self.fds, ends, self.next_pid as u64),
            ..self
        }
    }

    /// The table after `pid`, which was started with `ends`, has begun to run.
    pub open spec fn begun(self, pid: u64, ends: Seq<Fd>) -> Self {
        InfosView {
            processes: self.processes.insert(
                pid,
                ProcessInfoView { pid, children: Set::empty(), inherited: Some(ends) },
            ),
            ..self
        }
    }
}

impl View for ProcessInfos {
    type V = InfosView;

    closed spec fn view(&self) -> InfosView {
        InfosView {
            next_fd: self.fds_count as nat,
            next_pid: self.pid_count as nat,
            processes: self.processes@.map_values(|p: ProcessInfo| p@),
            fds: self.fds@,
        }
    }
}

impl Default for ProcessInfos {
    fn default() -> (res: Self)
        ensures
            res@ == InfosView::initial(),
            res@.wf(),
    {
        let mut processes: HashMap<u64, ProcessInfo> = HashMap::new();
        processes.insert(0, ProcessInfo::new_parent());
        let res = ProcessInfos { fds_count: 2, pid_count: 1, processes, fds: HashMap::new() };
        assert(res@ =~= InfosView::initial());
        res
    }
}

/// The process that runs, given the number that the process was told, if it was told one.
pub open spec fn running(pid: Option<VmId>) -> VmId {
    match pid {
        Some(p) => p,
        None => 0,
    }
}

/// The words before the first zero.
pub open spec fn before_zero(words: Seq<u64>) -> Seq<u64>
    decreases words.len(),
{
    if words.len() == 0 || words[0] == 0 {
        Seq::empty()
    } else {
        seq![words[0]] + before_zero(words.drop_first())
    }
}

/// Pipe ends with these numbers.
pub open spec fn as_fds(words: Seq<u64>) -> Seq<Fd> {
    words.map_values(|w: u64| Fd(w))
}

impl ProcessInfos {
    /// The process that runs: the first one, unless another number has been given.
    pub fn get_pid(pid: Option<VmId>) -> (res: VmId)
        ensures
            res == running(pid),
    {
        match pid {
            Some(p) => p,
            None => 0,
        }
    }

    /// The process that runs.
    pub fn get_process_info(&self, pid: Option<VmId>) -> (res: &ProcessInfo)
        requires
            self@.processes.contains_key(running(pid)),
        ensures
            res@ == self@.processes[running(pid)],
    {
        self.processes.get(&Self::get_pid(pid)).unwrap()
    }

    /// Hands out the number of a new process.
    pub fn get_new_pid(&mut self) -> (res: VmId)
        requires
            old(self)@.next_pid < u64::MAX,
        ensures
            res == old(self)@.next_pid,
            final(self)@ == (InfosView { next_pid: old(self)@.next_pid + 1, ..old(self)@ }),
            old(self)@.wf() ==> final(self)@.wf(),
    {
        let id = self.pid_count;
        self.pid_count = self.pid_count + 1;
        id
    }

    /// Opens a pipe that the running process owns: its read end and its write end.
    pub fn new_pipe(&mut self, pid: Option<VmId>) -> (res: (Fd, Fd))
        requires
            old(self)@.next_fd + 2 <= u64::MAX,
        ensures
            res.0.0 == old(self)@.next_fd,
            res.1.0 == old(self)@.next_fd + 1,
            final(self)@ == old(self)@.opened(running(pid)),
            old(self)@.wf() ==> final(self)@.wf(),
    {
        let owner = Self::get_pid(pid);
        let fds = Fd::create(self.fds_count);
        self.fds.insert(fds.0.0, owner);
        self.fds.insert(fds.1.0, owner);
        self.fds_count = fds.2;
        (fds.0, fds.1)
    }

    /// Closes a pipe end, if the running process owns it.
    pub fn close_pipe(&mut self, pid: Option<VmId>, fd: Fd) -> (res: bool)
        ensures
            res <==> old(self)@.owns(running(pid), fd.0),
            res ==> final(self)@ == old(self)@.closed(fd.0),
            !res ==> final(self)@ == old(self)@,
            old(self)@.wf() ==> final(self)@.wf(),
    {
        match self.fds.get(&fd.0) {
            None => {
                return false;
            },
            Some(owner) => {
                if *owner != Self::get_pid(pid) {
                    return false;
                }
            },
        }
        self.fds.remove(&fd.0).is_some()
    }

    /// Gives a new process a number, and the pipe ends `ends`.
    pub fn reserve(&mut self, ends: &Vec<Fd>) -> (res: VmId)
        requires
            old(self)@.next_pid < u64::MAX,
            forall|i: int|
                0 <= i < ends@.len() ==> old(self)@.fds.contains_key((#[trigger] ends@[i]).0),
        ensures
            res == old(self)@.next_pid,
            final(self)@ == old(self)@.reserved(ends@),
            old(self)@.wf() ==> final(self)@.wf(),
    {
        let id = self.get_new_pid();
        let ghost named = self@;
        assert(handed(named.fds, ends@.take(0), id) =~= named.fds);
        for i in 0..ends.len()
            invariant
                self@ == (InfosView { fds: handed(named.fds, ends@.take(i as int), id), ..named }),
                forall|j: int|
                    0 <= j < ends@.len() ==> named.fds.contains_key((#[trigger] ends@[j]).0),
        {
            let end = ends[i];
            if let Some(owner) = entry_mut(&mut self.fds, end.0) {
                *owner = id;
            }
            proof {
                let done = ends@.take(i as int);
                let next = ends@.take(i + 1);
                assert(next =~= done.push(end));
                assert forall|k: u64| next.contains(Fd(k)) <==> done.contains(Fd(k)) || end == Fd(
                    k,
                ) by {
                    if done.contains(Fd(k)) {
                        let j = choose|j: int| 0 <= j < done.len() && done[j] == Fd(k);
                        assert(next[j] == Fd(k));
                    }
                    if end == Fd(k) {
                        assert(next[i as int] == Fd(k));
                    }
                }
                assert(self@.fds =~= handed(named.fds, next, id));
            }
        }
        assert(ends@.take(ends@.len() as int) =~= ends@);
        id
    }

    /// Whether there are numbers left for another pipe and another process.
    pub fn has_numbers_left(&self) -> (res: bool)
        ensures
            res <==> self@.next_fd + 2 <= u64::MAX && self@.next_pid < u64::MAX,
    {
        self.fds_count <= u64::MAX - 2 && self.pid_count < u64::MAX
    }

    /// Whether the running process is listed and was started by another.
    pub fn has_inherited(&self, pid: Option<VmId>) -> (res: bool)
        ensures
            res <==> self@.processes.contains_key(running(pid))
                && self@.processes[running(pid)].inherited is Some,
    {
        match self.processes.get(&Self::get_pid(pid)) {
            Some(info) => info.inherited_fds.is_some(),
            None => false,
        }
    }

    /// Lists a process that begins to run, with the pipe ends that it was started with.
    pub fn begin(&mut self, pid: VmId, ends: Vec<Fd>)
        ensures
            final(self)@ == old(self)@.begun(pid, ends@),
            old(self)@.wf() && pid < old(self)@.next_pid ==> final(self)@.wf(),
    {
        let info = ProcessInfo { pid, child_id: HashSet::new(), inherited_fds: Some(ends) };
        self.processes.insert(pid, info);
        assert(self@.processes =~= old(self)@.processes.insert(pid, info@));
    }
}

/// Tells a process its number.
pub fn update_spawn_info(current: &mut Option<VmId>, pid: u64)
    ensures
        *final(current) == Some(pid),
{
    *current = Some(pid);
}

/// What a process hands over to start another.
#[derive(Clone)]
pub struct SpawnArgs {
    /// The number of arguments passed to the program.
    pub argc: u64,
    /// The arguments.
    pub argv: Vec<String>,
    /// Where the number of the child process is stored.
    pub process_id: u64,
    /// The pipe ends passed to the child process. The list ends with zero.
    pub inherited_fds: Vec<u64>,
}

impl SpawnArgs {
    /// The pipe ends that the list names.
    pub open spec fn ends(self) -> Seq<Fd> {
        as_fds(before_zero(self.inherited_fds@))
    }

    /// There are as many arguments as announced, the list of pipe ends ends with zero,
    /// the pipe ends are open, and there is a number left for another process.
    pub open spec fn fits(self, infos: InfosView) -> bool {
        &&& self.argc <= self.argv@.len()
        &&& self.inherited_fds@.contains(0)
        &&& forall|i: int|
            0 <= i < self.ends().len() ==> infos.fds.contains_key((#[trigger] self.ends()[i]).0)
        &&& infos.next_pid < u64::MAX
    }
}

impl SpawnArgs {
    /// Whether a process can be started with these arguments.
    pub fn can_spawn(&self, infos: &ProcessInfos) -> (res: bool)
        ensures
            res == self.fits(infos@),
    {
        if self.argc > self.argv.len() as u64 || infos.pid_count == u64::MAX {
            return false;
        }
        let mut ended = false;
        for i in 0..self.inherited_fds.len()
            invariant
                ended <==> self.inherited_fds@.take(i as int).contains(0),
        {
            let ghost word = self.inherited_fds@[i as int];
            if self.inherited_fds[i] == 0 {
                ended = true;
            }
            proof {
                let done = self.inherited_fds@.take(i as int);
                let next = self.inherited_fds@.take(i + 1);
                assert(next =~= done.push(word));
                if done.contains(0) {
                    let j = choose|j: int| 0 <= j < done.len() && done[j] == 0;
                    assert(next[j] == 0);
                }
                if word == 0 {
                    assert(next[i as int] == 0);
                }
            }
        }
        assert(self.inherited_fds@.take(self.inherited_fds@.len() as int) =~= self.inherited_fds@);
        if !ended {
            return false;
        }
        let ends = read_fds(&self.inherited_fds);
        for i in 0..ends.len()
            invariant
                ends@ == self.ends(),
                forall|j: int|
                    0 <= j < i ==> infos@.fds.contains_key((#[trigger] self.ends()[j]).0),
        {
            assert(self.ends()[i as int] == ends@[i as int]);
            if !infos.fds.contains_key(&ends[i].0) {
                return false;
            }
        }
        true
    }
}

/// A process that is ready to be run.
pub struct SpawnPlan {
    /// The library that holds its program.
    pub native_bin_path: String,
    /// Its number.
    pub spawn_pid: VmId,
    /// The pipe ends that it is started with.
    pub inherited_fds: Vec<Fd>,
    /// Its arguments.
    pub args: Vec<String>,
}

/// What comes of an attempt to start a process.
pub enum SpawnOutcome {
    /// The program cannot be had, for the reason that the code gives.
    Failed(i32),
    /// No native binary is listed under this name.
    NoBinary(String),
    /// The process can be run.
    Ready(SpawnPlan),
}

/// The texts of a list of strings.
pub open spec fn texts(strings: Seq<String>) -> Seq<Seq<char>> {
    strings.map_values(|s: String| s@)
}

/// The outcome of an attempt to start the program that is listed under `name`, from the table
/// `before` and the arguments `given` to the table `after` and the arguments `left`.
pub open spec fn spawn_result(
    before: InfosView,
    after: InfosView,
    given: SpawnArgs,
    left: SpawnArgs,
    binaries: Map<Seq<char>, Seq<char>>,
    name: Seq<char>,
    res: SpawnOutcome,
) -> bool {
    if binaries.contains_key(name) {
        &&& res is Ready
        &&& res->Ready_0.native_bin_path@ == binaries[name]
        &&& res->Ready_0.spawn_pid == before.next_pid
        &&& res->Ready_0.inherited_fds@ == given.ends()
        &&& texts(res->Ready_0.args@) == texts(given.argv@.take(given.argc as int))
        &&& after == before.reserved(given.ends())
        &&& left == (SpawnArgs { process_id: res->Ready_0.spawn_pid, ..given })
    } else {
        &&& res is NoBinary
        &&& res->NoBinary_0@ == name
        &&& after == before
        &&& left == given
    }
}

/// The pipe ends that a list that ends with zero names.
pub fn read_fds(words: &Vec<u64>) -> (res: Vec<Fd>)
    requires
        words@.contains(0),
    ensures
        res@ == as_fds(before_zero(words@)),
{
    let mut fds: Vec<Fd> = Vec::new();
    let mut i: usize = 0;
    assert(words@.skip(0) =~= words@);
    while i < words.len() && words[i] != 0
        invariant
            i <= words@.len(),
            as_fds(before_zero(words@)) =~= fds@ + as_fds(before_zero(words@.skip(i as int))),
        decreases words@.len() - i,
    {
        assert(words@.skip(i as int).drop_first() =~= words@.skip(i + 1));
        assert(as_fds(before_zero(words@.skip(i as int))) =~= seq![Fd(words@[i as int])] + as_fds(
            before_zero(words@.skip(i + 1)),
        ));
        fds.push(Fd::from(words[i]));
        i = i + 1;
    }
    assert(as_fds(before_zero(words@.skip(i as int))) =~= Seq::<Fd>::empty());
    fds
}

/// Makes ready to run the program whose code has this hash: finds its native binary, gives
/// the new process a number, hands it the pipe ends, and stores its number.
pub fn prepare_spawn(
    infos: &mut ProcessInfos,
    hash: &Byte32,
    binaries: &NativeBinaries,
    spgs: &mut SpawnArgs,
) -> (res: SpawnOutcome)
    requires
        binaries@.contains_key(lower_hex(hash@)) ==> old(spgs).fits(old(infos)@),
    ensures
        spawn_result(
            old(infos)@,
            final(infos)@,
            *old(spgs),
            *final(spgs),
            binaries@,
            lower_hex(hash@),
            res,
        ),
        old(infos)@.wf() ==> final(infos)@.wf(),
{
    let native_bin_path = match find_bin_path_by_hash(binaries, hash) {
        Some(path) => path,
        None => {
            return SpawnOutcome::NoBinary(hash_name(hash));
        },
    };
    let inherited_fds = read_fds(&spgs.inherited_fds);
    assert forall|i: int| 0 <= i < inherited_fds@.len() implies infos@.fds.contains_key(
        (#[trigger] inherited_fds@[i]).0,
    ) by {
        assert(spgs.ends()[i] == inherited_fds@[i]);
    }
    let spawn_pid = infos.reserve(&inherited_fds);
    let mut args: Vec<String> = Vec::new();
    assert(spgs.argc <= spgs.argv.len());
    let argc = spgs.argc as usize;
    for i in 0..argc
        invariant
            *spgs == *old(spgs),
            argc <= spgs.argv@.len(),
            texts(args@) == texts(spgs.argv@.take(i as int)),
    {
        let ghost before = args@;
        args.push(spgs.argv[i].clone());
        assert(texts(args@) =~= texts(before).push(spgs.argv@[i as int]@));
        assert(texts(spgs.argv@.take(i + 1)) =~= texts(spgs.argv@.take(i as int)).push(
            spgs.argv@[i as int]@,
        ));
    }
    spgs.process_id = spawn_pid;
    SpawnOutcome::Ready(SpawnPlan { native_bin_path, spawn_pid, inherited_fds, args })
}

/// A process asks for another to be started: `place`, `fetched` and `bounds` say where its code
/// is, as for [`get_hash`].
///
/// If the process is ready, the caller runs it on a thread, which first calls
/// [`ProcessInfos::begin`], and waits for its end.
pub fn ckb_spawn(
    infos: &mut ProcessInfos,
    place: usize,
    fetched: &Result<Vec<u8>, i32>,
    bounds: usize,
    binaries: &NativeBinaries,
    spgs: &mut SpawnArgs,
) -> (res: SpawnOutcome)
    requires
        place_of(place) == Some(Place::Witness) ==> fetched is Ok,
        place_of(place) is Some && fetched is Ok ==> old(spgs).fits(old(infos)@),
    ensures
        match place_of(place) {
            Some(_) => match *fetched {
                Ok(data) => spawn_result(
                    old(infos)@,
                    final(infos)@,
                    *old(spgs),
                    *final(spgs),
                    binaries@,
                    lower_hex(blake2b_digest(selected(data@, bounds))),
                    res,
                ),
                Err(code) => {
                    &&& res == SpawnOutcome::Failed(code)
                    &&& final(infos)@ == old(infos)@
                    &&& *final(spgs) == *old(spgs)
                },
            },
            None => {
                &&& res == SpawnOutcome::Failed(INDEX_OUT_OF_BOUND)
                &&& final(infos)@ == old(infos)@
                &&& *final(spgs) == *old(spgs)
            },
        },
        old(infos)@.wf() ==> final(infos)@.wf(),
{
    match get_hash(place, fetched, bounds) {
        Ok(hash) => prepare_spawn(infos, &hash, binaries, spgs),
        Err(code) => SpawnOutcome::Failed(code),
    }
}

/// A process asks for its number.
pub fn ckb_process_id(pid: Option<VmId>) -> (res: u64)
    ensures
        res == running(pid),
{
    ProcessInfos::get_pid(pid)
}

/// A process opens a pipe: the numbers of its read end and its write end are stored.
pub fn ckb_pipe(infos: &mut ProcessInfos, pid: Option<VmId>, fds: &mut [u64; 2]) -> (res: i32)
    requires
        old(infos)@.next_fd + 2 <= u64::MAX,
    ensures
        res == 0,
        final(fds)@ == seq![old(infos)@.next_fd as u64, (old(infos)@.next_fd + 1) as u64],
        final(infos)@ == old(infos)@.opened(running(pid)),
        old(infos)@.wf() ==> final(infos)@.wf(),
{
    let out = infos.new_pipe(pid);
    fds[0] = out.0.0;
    fds[1] = out.1.0;
    assert(fds@ =~= seq![out.0.0, out.1.0]);
    0
}

/// A process asks for the pipe ends that it was started with: as many as there is room for
/// are stored, and what room is left stays as it is.
pub fn ckb_inherited_fds(infos: &ProcessInfos, pid: Option<VmId>, fds: &mut [u64]) -> (res: i32)
    requires
        infos@.processes.contains_key(running(pid)),
        infos@.processes[running(pid)].inherited is Some,
    ensures
        res == 0,
        ({
            let ends = infos@.processes[running(pid)].inherited->0;
            &&& final(fds)@.len() == old(fds)@.len()
            &&& forall|i: int|
                0 <= i < old(fds)@.len() ==> #[trigger] final(fds)@[i] == (if i < ends.len() {
                    ends[i].0
                } else {
                    old(fds)@[i]
                })
        }),
{
    let info = infos.get_process_info(pid);
    if let Some(ends) = &info.inherited_fds {
        let len = if ends.len() < fds.len() {
            ends.len()
        } else {
            fds.len()
        };
        for i in 0..len
            invariant
                len <= ends@.len(),
                len <= old(fds)@.len(),
                fds@.len() == old(fds)@.len(),
                forall|j: int|
                    0 <= j < old(fds)@.len() ==> #[trigger] fds@[j] == (if j < i {
                        ends@[j].0
                    } else {
                        old(fds)@[j]
                    }),
        {
            fds[i] = u64::from(ends[i]);
        }
    }
    0
}

/// A process closes a pipe end.
pub fn ckb_close(infos: &mut ProcessInfos, pid: Option<VmId>, fd: u64) -> (res: i32)
    ensures
        old(infos)@.owns(running(pid), fd) ==> res == 0 && final(infos)@ == old(infos)@.closed(fd),
        !old(infos)@.owns(running(pid), fd) ==> res == CKB_INVALID_FD && final(infos)@ == old(
            infos,
        )@,
        old(infos)@.wf() ==> final(infos)@.wf(),
{
    if infos.close_pipe(pid, Fd::from(fd)) {
        0
    } else {
        CKB_INVALID_FD
    }
}

/// The list of pipe ends stops at its first zero, whatever follows.
pub proof fn law_list_stops_at_first_zero(words: Seq<u64>, n: int)
    requires
        0 <= n < words.len(),
        words[n] == 0,
        forall|i: int| 0 <= i < n ==> #[trigger] words[i] != 0,
    ensures
        before_zero(words) == words.take(n),
    decreases words.len(),
{
    if n > 0 {
        let rest = words.drop_first();
        assert forall|i: int| 0 <= i < n - 1 implies #[trigger] rest[i] != 0 by {
            assert(rest[i] == words[i + 1]);
        }
        law_list_stops_at_first_zero(rest, n - 1);
        assert(seq![words[0]] + rest.take(n - 1) =~= words.take(n));
    } else {
        assert(words.take(0) =~= Seq::<u64>::empty());
    }
}

/// A new pipe has numbers that no open end has, the even one first, and the running
/// process owns both ends; every other end keeps its owner. Closing both ends undoes the
/// opening, but for the numbers used.
pub proof fn law_shared_pipe_is_fresh(s: InfosView, pid: u64)
    requires
        s.wf(),
        s.next_fd + 2 <= u64::MAX,
    ensures
        ({
            let read = s.next_fd as u64;
            let write = (s.next_fd + 1) as u64;
            let t = s.opened(pid);
            &&& !s.fds.contains_key(read) && !s.fds.contains_key(write)
            &&& read % 2 == 0 && write == opposite(read)
            &&& t.owns(pid, read) && t.owns(pid, write)
            &&& forall|fd: u64| #[trigger]
                s.fds.contains_key(fd) ==> t.fds.contains_key(fd) && t.fds[fd] == s.fds[fd]
            &&& t.closed(read).closed(write) == (InfosView { next_fd: s.next_fd + 2, ..s })
        }),
{
    let t = s.opened(pid);
    assert(t.closed(s.next_fd as u64).closed((s.next_fd + 1) as u64).fds =~= s.fds);
}

/// A pipe end that is closed is owned by nobody, so it cannot be closed twice; every other
/// end keeps its owner.
pub proof fn law_shared_end_closes_once(s: InfosView, fd: u64, pid: u64, other: u64)
    ensures
        !s.closed(fd).owns(pid, fd),
        other != fd ==> (s.closed(fd).owns(pid, other) <==> s.owns(pid, other)),
{
}

/// A new process has a number that no process has; it alone owns the pipe ends that it
/// is given, and every other end keeps its owner.
pub proof fn law_spawn_hands_over(s: InfosView, ends: Seq<Fd>, fd: Fd, pid: u64)
    requires
        s.wf(),
        s.next_pid < u64::MAX,
        forall|i: int| 0 <= i < ends.len() ==> s.fds.contains_key((#[trigger] ends[i]).0),
    ensures
        !s.processes.contains_key(s.next_pid as u64),
        ends.contains(fd) ==> (s.reserved(ends).owns(pid, fd.0) <==> pid == s.next_pid),
        !ends.contains(fd) ==> (s.reserved(ends).owns(pid, fd.0) <==> s.owns(pid, fd.0)),
{
    if ends.contains(fd) {
        let i = choose|i: int| 0 <= i < ends.len() && ends[i] == fd;
        assert(s.fds.contains_key(ends[i].0));
    }
    assert(Fd(fd.0) == fd);
}

/// A process that begins to run finds the pipe ends that it was given in the table, owns
/// each of them, and leaves the other processes as they were.
pub proof fn law_child_learns_its_ends(s: InfosView, ends: Seq<Fd>, other: u64)
    requires
        s.wf(),
        s.next_pid < u64::MAX,
        forall|i: int| 0 <= i < ends.len() ==> s.fds.contains_key((#[trigger] ends[i]).0),
    ensures
        ({
            let child = s.next_pid as u64;
            let t = s.reserved(ends).begun(child, ends);
            &&& t.wf()
            &&& t.processes.contains_key(child) && t.processes[child].inherited == Some(ends)
            &&& forall|i: int| 0 <= i < ends.len() ==> t.owns(child, (#[trigger] ends[i]).0)
            &&& s.processes.contains_key(other) ==> t.processes.contains_key(other)
                && t.processes[other] == s.processes[other]
        }),
{
    let child = s.next_pid as u64;
    let t = s.reserved(ends).begun(child, ends);
    assert forall|i: int| 0 <= i < ends.len() implies t.owns(child, (#[trigger] ends[i]).0) by {
        assert(Fd(ends[i].0) == ends[i]);
        assert(ends.contains(Fd(ends[i].0)));
    }
}

/// A new table holds one process, which has number zero and was not started by another; no
/// pipe is open. The first pipe takes the numbers two and three, the first child the number
/// one.
pub proof fn law_new_table_is_bare(k: u64)
    ensures
        ({
            let s = InfosView::initial();
            &&& s.processes.contains_key(k) <==> k == 0
            &&& s.processes[0].pid == 0 && s.processes[0].inherited is None
            &&& !s.processes[0].children.contains(k)
            &&& !s.fds.contains_key(k)
            &&& s.next_fd == 2 && s.next_pid == 1
        }),
{
}

/// A table is well formed exactly if the first process is in it, all numbers of processes lie
/// below the next one, and the open ends lie from two up to below the next number, which is
/// even.
pub proof fn law_table_bounds_its_numbers(s: InfosView)
    ensures
        s.wf() <==> {
            &&& s.processes.dom().contains(0)
            &&& 1 <= s.next_pid
            &&& 2 <= s.next_fd
            &&& s.next_fd % 2 == 0
            &&& forall|p: u64| #[trigger] s.processes.dom().contains(p) ==> p < s.next_pid
            &&& forall|fd: u64| #[trigger] s.fds.dom().contains(fd) ==> 2 <= fd
            &&& forall|fd: u64| #[trigger] s.fds.dom().contains(fd) ==> fd < s.next_fd
        },
{
    if s.wf() {
        assert forall|p: u64| #[trigger] s.processes.dom().contains(p) implies p < s.next_pid by {
            assert(s.processes.contains_key(p));
        }
        assert forall|fd: u64| #[trigger] s.fds.dom().contains(fd) implies 2 <= fd
            < s.next_fd by {
            assert(s.fds.contains_key(fd));
        }
    }
}

/// A process owns a pipe end exactly if the end is open and the table names the process; and
/// a process that was told no number is the first one.
pub proof fn law_shared_table_names_the_owner(s: InfosView, pid: u64, fd: u64)
    ensures
        !s.fds.dom().contains(fd) ==> !s.owns(pid, fd),
        s.fds.dom().contains(fd) ==> (s.owns(pid, fd) <==> pid == s.fds[fd]),
        running(None) == 0,
        running(Some(pid)) == pid,
{
}

/// Opening a pipe adds two ends, which both belong to the process that opens them, and takes
/// their numbers; nothing else changes.
pub proof fn law_shared_opening_adds_two_ends(s: InfosView, pid: u64, fd: u64)
    requires
        s.next_fd + 2 <= u64::MAX,
    ensures
        ({
            let t = s.opened(pid);
            let new = fd == s.next_fd || fd == s.next_fd + 1;
            &&& t.next_fd == s.next_fd + 2
            &&& t.fds.contains_key(fd) <==> s.fds.contains_key(fd) || new
            &&& new ==> t.fds[fd] == pid
            &&& s.fds.contains_key(fd) && !new ==> t.fds[fd] == s.fds[fd]
            &&& t.processes == s.processes && t.next_pid == s.next_pid
        }),
{
}

/// Closing a pipe end changes only that end.
pub proof fn law_shared_closing_leaves_the_rest(s: InfosView, fd: u64, other: u64)
    ensures
        ({
            let t = s.closed(fd);
            &&& !t.fds.contains_key(fd)
            &&& other != fd ==> (t.fds.contains_key(other) <==> s.fds.contains_key(other))
            &&& other != fd && s.fds.contains_key(other) ==> t.fds[other] == s.fds[other]
            &&& t.processes == s.processes
            &&& t.next_fd == s.next_fd && t.next_pid == s.next_pid
        }),
{
}

/// Giving a process a number and pipe ends takes one number, opens and closes nothing, and
/// lists nobody: an end that is given belongs to the new process, every other end to whom it
/// did. Beginning to run lists exactly that process, with its number and the ends it was
/// started with, and moves no end.
pub proof fn law_reserving_and_beginning(
    s: InfosView,
    ends: Seq<Fd>,
    fd: u64,
    pid: u64,
    other: u64,
)
    requires
        s.next_pid < u64::MAX,
    ensures
        ({
            let t = s.reserved(ends);
            &&& t.next_pid == s.next_pid + 1 && t.next_fd == s.next_fd
            &&& t.processes == s.processes
            &&& t.fds.dom() == s.fds.dom()
            &&& s.fds.contains_key(fd) && (exists|i: int|
                0 <= i < ends.len() && (#[trigger] ends[i]).0 == fd) ==> t.fds[fd] == s.next_pid
            &&& s.fds.contains_key(fd) && !(exists|i: int|
                0 <= i < ends.len() && (#[trigger] ends[i]).0 == fd) ==> t.fds[fd] == s.fds[fd]
        }),
        ({
            let t = s.begun(pid, ends);
            &&& t.next_pid == s.next_pid && t.next_fd == s.next_fd && t.fds == s.fds
            &&& t.processes.contains_key(other) <==> s.processes.contains_key(other) || other == pid
            &&& t.processes[pid].pid == pid && t.processes[pid].inherited == Some(ends)
            &&& !t.processes[pid].children.contains(other)
            &&& other != pid && s.processes.contains_key(other) ==> t.processes[other]
                == s.processes[other]
        }),
{
    let t = s.reserved(ends);
    assert(t.fds.dom() =~= s.fds.dom());
    if exists|i: int| 0 <= i < ends.len() && (#[trigger] ends[i]).0 == fd {
        let i = choose|i: int| 0 <= i < ends.len() && (#[trigger] ends[i]).0 == fd;
        assert(ends[i] == Fd(fd));
    } else if ends.contains(Fd(fd)) {
        let i = choose|i: int| 0 <= i < ends.len() && ends[i] == Fd(fd);
        assert(ends[i].0 == fd);
    }
}

/// The pipe ends that arguments name are the numbers that stand before the first zero of
/// their list, in order.
pub proof fn law_arguments_name_their_ends(given: SpawnArgs, n: int, i: int)
    requires
        0 <= n < given.inherited_fds@.len(),
        given.inherited_fds@[n] == 0,
        forall|j: int| 0 <= j < n ==> #[trigger] given.inherited_fds@[j] != 0,
    ensures
        given.ends().len() == n,
        0 <= i < n ==> given.ends()[i].0 == given.inherited_fds@[i],
{
    law_list_stops_at_first_zero(given.inherited_fds@, n);
}

/// Arguments, whose list has its first zero at `n`, fit a table exactly if there are as many
/// as announced, every number before the zero is an open end, and a process number is left.
/// Arguments whose list has no zero fit none.
pub proof fn law_which_arguments_fit(given: SpawnArgs, infos: InfosView, n: int)
    ensures
        0 <= n < given.inherited_fds@.len() && given.inherited_fds@[n] == 0 && (forall|j: int|
            0 <= j < n ==> #[trigger] given.inherited_fds@[j] != 0) ==> (given.fits(infos) <==> {
            &&& given.argc <= given.argv@.len()
            &&& forall|j: int|
                0 <= j < n ==> infos.fds.contains_key(#[trigger] given.inherited_fds@[j])
            &&& infos.next_pid < u64::MAX
        }),
        (forall|j: int|
            0 <= j < given.inherited_fds@.len() ==> #[trigger] given.inherited_fds@[j] != 0)
            ==> !given.fits(infos),
{
    let words = given.inherited_fds@;
    if 0 <= n < words.len() && words[n] == 0 && (forall|j: int|
        0 <= j < n ==> #[trigger] words[j] != 0) {
        law_list_stops_at_first_zero(words, n);
        assert(words.contains(0));
        if given.fits(infos) {
            assert forall|j: int| 0 <= j < n implies infos.fds.contains_key(#[trigger] words[j]) by {
                assert(given.ends()[j].0 == words[j]);
            }
        }
        if forall|j: int| 0 <= j < n ==> infos.fds.contains_key(#[trigger] words[j]) {
            assert forall|i: int| 0 <= i < given.ends().len() implies infos.fds.contains_key(
                (#[trigger] given.ends()[i]).0,
            ) by {
                assert(given.ends()[i].0 == words[i]);
            }
        }
    }
}

/// What comes of an attempt to start a program whose name is known. If a binary is listed under
/// the name, the process is ready, with the path that is listed, the next number, the numbers
/// before the first zero as its pipe ends, and exactly the announced arguments; its number is
/// stored, it owns these ends, and every other end keeps its owner. If none is listed, the name
/// is reported, and nothing changes.
pub proof fn law_what_comes_of_a_spawn(
    before: InfosView,
    after: InfosView,
    given: SpawnArgs,
    left: SpawnArgs,
    binaries: Map<Seq<char>, Seq<char>>,
    name: Seq<char>,
    res: SpawnOutcome,
    n: int,
    i: int,
    fd: u64,
)
    requires
        spawn_result(before, after, given, left, binaries, name, res),
        given.fits(before),
        0 <= n < given.inherited_fds@.len(),
        given.inherited_fds@[n] == 0,
        forall|j: int| 0 <= j < n ==> #[trigger] given.inherited_fds@[j] != 0,
    ensures
        binaries.contains_key(name) ==> {
            let plan = res->Ready_0;
            let handed_over = exists|j: int|
                0 <= j < n && #[trigger] given.inherited_fds@[j] == fd;
            &&& res is Ready
            &&& plan.native_bin_path@ == binaries[name]
            &&& plan.spawn_pid == before.next_pid
            &&& plan.inherited_fds@.len() == n
            &&& 0 <= i < n ==> plan.inherited_fds@[i].0 == given.inherited_fds@[i]
            &&& plan.args@.len() == given.argc
            &&& 0 <= i < given.argc ==> plan.args@[i]@ == given.argv@[i]@
            &&& left.process_id == plan.spawn_pid
            &&& left.argc == given.argc && left.argv == given.argv
            &&& left.inherited_fds == given.inherited_fds
            &&& after.next_pid == before.next_pid + 1 && after.next_fd == before.next_fd
            &&& after.processes == before.processes
            &&& after.fds.contains_key(fd) <==> before.fds.contains_key(fd)
            &&& before.fds.contains_key(fd) && handed_over ==> after.fds[fd] == plan.spawn_pid
            &&& before.fds.contains_key(fd) && !handed_over ==> after.fds[fd] == before.fds[fd]
        },
        !binaries.contains_key(name) ==> {
            &&& res is NoBinary && res->NoBinary_0@ == name
            &&& after == before
            &&& left == given
        },
{
    if binaries.contains_key(name) {
        let plan = res->Ready_0;
        let ends = given.ends();
        law_arguments_name_their_ends(given, n, i);
        law_reserving_and_beginning(before, ends, fd, 0, 0);
        assert(texts(plan.args@).len() == plan.args@.len());
        assert(texts(given.argv@.take(given.argc as int)).len() == given.argc);
        if 0 <= i < given.argc {
            assert(texts(plan.args@)[i] == plan.args@[i]@);
            assert(texts(given.argv@.take(given.argc as int))[i] == given.argv@[i]@);
        }
        assert((exists|j: int| 0 <= j < n && #[trigger] given.inherited_fds@[j] == fd) <==> (exists|
            j: int,
        |
            0 <= j < ends.len() && (#[trigger] ends[j]).0 == fd)) by {
            if exists|j: int| 0 <= j < n && #[trigger] given.inherited_fds@[j] == fd {
                let j = choose|j: int| 0 <= j < n && #[trigger] given.inherited_fds@[j] == fd;
                law_arguments_name_their_ends(given, n, j);
                assert(ends[j].0 == fd);
            }
            if exists|j: int| 0 <= j < ends.len() && (#[trigger] ends[j]).0 == fd {
                let j = choose|j: int| 0 <= j < ends.len() && (#[trigger] ends[j]).0 == fd;
                law_arguments_name_their_ends(given, n, j);
                assert(given.inherited_fds@[j] == fd);
            }
        }
    }
}

} // verus!
