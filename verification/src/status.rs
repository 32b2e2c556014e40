//! What a process is waiting for.

use vstd::prelude::*;

use crate::fd::Fd;

verus! {

/// Why a process is not running.
///
/// The last field of the two waiting states is a running number that tells
/// one wait from the next when states are printed.
#[derive(PartialEq, Eq, Debug)]
pub enum ProcStatus {
    /// The process has been set up.
    Loaded,
    /// The process has started a child and waits for its turn.
    WaitSpawn,
    /// The process waits for more bytes from a read end: the end, the number
    /// of bytes still missing, and the bytes received so far.
    ReadWait(Fd, usize, Vec<u8>, u64),
    /// The process waits for its bytes to be taken: the write end, and the
    /// bytes still to be taken.
    WriteWait(Fd, Vec<u8>, u64),
    /// The process has ended.
    Terminated,
}

/// The mathematical value of a [`ProcStatus`].
#[verifier::ext_equal]
pub enum StatusView {
    Loaded,
    WaitSpawn,
    ReadWait { fd: u64, missing: nat, received: Seq<u8>, tag: u64 },
    WriteWait { fd: u64, pending: Seq<u8>, tag: u64 },
    Terminated,
}

impl View for ProcStatus {
    type V = StatusView;

    open spec fn view(&self) -> StatusView {
        match *self {
            ProcStatus::Loaded => StatusView::Loaded,
            ProcStatus::WaitSpawn => StatusView::WaitSpawn,
            ProcStatus::ReadWait(fd, len, buf, tag) => StatusView::ReadWait {
                fd: fd.0,
                missing: len as nat,
                received: buf@,
                tag,
            },
            ProcStatus::WriteWait(fd, buf, tag) => StatusView::WriteWait {
                fd: fd.0,
                pending: buf@,
                tag,
            },
            ProcStatus::Terminated => StatusView::Terminated,
        }
    }
}

/// The conditions under which a stopped process calls for attention.
#[derive(Copy, Clone, PartialEq, Eq, Debug, Structural)]
pub enum Readiness {
    /// The process has ended.
    Terminated,
    /// The process writes, and all its bytes have been taken.
    Drained,
    /// The process reads, and has received all it asked for.
    Filled,
    /// The process has started a child.
    Spawned,
}

impl StatusView {
    /// Whether a process in this state meets the condition.
    pub open spec fn meets(self, want: Readiness) -> bool {
        match want {
            Readiness::Terminated => self is Terminated,
            Readiness::Drained => self is WriteWait && self->pending.len() == 0,
            Readiness::Filled => self is ReadWait && self->missing == 0,
            Readiness::Spawned => self is WaitSpawn,
        }
    }
}

impl Default for ProcStatus {
    fn default() -> (res: Self)
        ensures
            res == ProcStatus::Loaded,
    {
        ProcStatus::Loaded
    }
}

impl ProcStatus {
    /// The read end, the missing count and the received bytes of a reader.
    pub fn read_wait(&self) -> (res: Option<(&Fd, &usize, &[u8])>)
        ensures
            res is Some <==> self@ is ReadWait,
            res matches Some(r) ==> self@ == (StatusView::ReadWait {
                fd: r.0.0,
                missing: *r.1 as nat,
                received: r.2@,
                tag: self@->ReadWait_tag,
            }),
    {
        if let ProcStatus::ReadWait(fd, len, buf, _) = self {
            Some((fd, len, buf.as_slice()))
        } else {
            None
        }
    }

    /// As [`ProcStatus::read_wait`], for updating in place.
    pub fn read_wait_mut(&mut self) -> (res: Option<(&mut Fd, &mut usize, &mut Vec<u8>)>)
        ensures
            res is Some <==> old(self)@ is ReadWait,
            res is None ==> *final(self) == *old(self),
            res matches Some(r) ==> {
                &&& old(self)@ == (StatusView::ReadWait {
                    fd: r.0.0,
                    missing: *r.1 as nat,
                    received: r.2@,
                    tag: old(self)@->ReadWait_tag,
                })
                &&& final(self)@ == (StatusView::ReadWait {
                    fd: final(r.0).0,
                    missing: *final(r.1) as nat,
                    received: final(r.2)@,
                    tag: old(self)@->ReadWait_tag,
                })
            },
    {
        if let ProcStatus::ReadWait(fd, len, buf, _) = self {
            Some((fd, len, buf))
        } else {
            None
        }
    }

    /// The write end and the pending bytes of a writer.
    pub fn write_wait(&self) -> (res: Option<(&Fd, &[u8])>)
        ensures
            res is Some <==> self@ is WriteWait,
            res matches Some(w) ==> self@ == (StatusView::WriteWait {
                fd: w.0.0,
                pending: w.1@,
                tag: self@->WriteWait_tag,
            }),
    {
        if let ProcStatus::WriteWait(fd, buf, _) = self {
            Some((fd, buf.as_slice()))
        } else {
            None
        }
    }

    /// As [`ProcStatus::write_wait`], for updating in place.
    pub fn write_wait_mut(&mut self) -> (res: Option<(&mut Fd, &mut Vec<u8>)>)
        ensures
            res is Some <==> old(self)@ is WriteWait,
            res is None ==> *final(self) == *old(self),
            res matches Some(w) ==> {
                &&& old(self)@ == (StatusView::WriteWait {
                    fd: w.0.0,
                    pending: w.1@,
                    tag: old(self)@->WriteWait_tag,
                })
                &&& final(self)@ == (StatusView::WriteWait {
                    fd: final(w.0).0,
                    pending: final(w.1)@,
                    tag: old(self)@->WriteWait_tag,
                })
            },
    {
        if let ProcStatus::WriteWait(fd, buf, _) = self {
            Some((fd, buf))
        } else {
            None
        }
    }

    /// Whether the process meets the condition.
    pub fn meets(&self, want: Readiness) -> (res: bool)
        ensures
            res == self@.meets(want),
    {
        match want {
            Readiness::Terminated => matches!(self, ProcStatus::Terminated),
            Readiness::Drained => match self.write_wait() {
                Some((_, buf)) => buf.len() == 0,
                None => false,
            },
            Readiness::Filled => match self.read_wait() {
                Some((_, len, _)) => *len == 0,
                None => false,
            },
            Readiness::Spawned => matches!(self, ProcStatus::WaitSpawn),
        }
    }
}

/// The mathematical value of a state holds what the state holds: a reader misses as many bytes
/// as it says, and the bytes received or pending are those of the buffer, in order.
pub proof fn law_state_is_what_it_holds(fd: Fd, len: usize, buf: Vec<u8>, tag: u64)
    ensures
        ({
            let r = ProcStatus::ReadWait(fd, len, buf, tag)@;
            &&& r is ReadWait && r->ReadWait_fd == fd.0 && r->missing == len
            &&& r->received == buf@ && r->ReadWait_tag == tag
        }),
        ({
            let w = ProcStatus::WriteWait(fd, buf, tag)@;
            &&& w is WriteWait && w->WriteWait_fd == fd.0 && w->pending == buf@
            &&& w->WriteWait_tag == tag
        }),
        ProcStatus::Loaded@ is Loaded,
        ProcStatus::WaitSpawn@ is WaitSpawn,
        ProcStatus::Terminated@ is Terminated,
{
}

/// A reader calls for attention exactly when it misses nothing, a writer exactly when no byte
/// is left, a process that has ended or has started a child always; no state meets two
/// conditions.
pub proof fn law_who_calls_for_attention(s: StatusView, a: Readiness, b: Readiness)
    ensures
        s is ReadWait ==> (s.meets(a) <==> a == Readiness::Filled && s->missing == 0),
        s is WriteWait ==> (s.meets(a) <==> a == Readiness::Drained && s->pending
            == Seq::<u8>::empty()),
        s is Terminated ==> (s.meets(a) <==> a == Readiness::Terminated),
        s is WaitSpawn ==> (s.meets(a) <==> a == Readiness::Spawned),
        s is Loaded ==> !s.meets(a),
        s.meets(a) && s.meets(b) ==> a == b,
{
    if s is WriteWait && s->pending.len() == 0 {
        assert(s->pending =~= Seq::<u8>::empty());
    }
}

} // verus!
