//! One round of scheduling: bytes move from writers to readers, and at most
//! one process is woken.

use std::collections::hash_map::Entry;
use std::collections::HashMap;
use vstd::prelude::*;

use crate::fd::opposite;
use crate::status::{ProcStatus, Readiness, StatusView};
use crate::walk::{
    first_where, is_walk, keys_of, lemma_first_where_at, lemma_first_where_none,
    lemma_first_where_some,
};

verus! {

/// The mathematical value of a table of process states.
pub open spec fn statuses(table: Map<u64, ProcStatus>) -> Map<u64, StatusView> {
    table.map_values(|s: ProcStatus| s@)
}

/// The process that `reader` takes bytes from: the owner of the opposite end of
/// the pipe that `reader` reads, if that owner waits for bytes to be taken.
///
/// A process waits for one thing at a time, so its pending bytes go to whoever
/// reads from it, whichever of its write ends they were written to.
pub open spec fn writer_of(
    status: Map<u64, StatusView>,
    fds: Map<u64, u64>,
    reader: u64,
) -> Option<u64> {
    match status[reader] {
        StatusView::ReadWait { fd, missing, received, tag } => {
            let end = opposite(fd);
            if status.contains_key(reader) && fds.contains_key(end) && status.contains_key(fds[end])
                && status[fds[end]] is WriteWait {
                Some(fds[end])
            } else {
                None
            }
        },
        _ => None,
    }
}

/// How many bytes a reader that misses `missing` takes of `pending`.
pub open spec fn share(missing: nat, pending: nat) -> nat {
    if missing <= pending {
        missing
    } else {
        pending
    }
}

/// A reader after it has received `bytes`.
pub open spec fn receive(s: StatusView, bytes: Seq<u8>) -> StatusView {
    StatusView::ReadWait {
        fd: s->ReadWait_fd,
        missing: (s->missing - bytes.len()) as nat,
        received: s->received + bytes,
        tag: s->ReadWait_tag,
    }
}

/// A writer after the first `n` of its bytes have been taken.
pub open spec fn release(s: StatusView, n: nat) -> StatusView {
    StatusView::WriteWait {
        fd: s->WriteWait_fd,
        pending: s->pending.skip(n as int),
        tag: s->WriteWait_tag,
    }
}

/// The table after `reader` has taken as many bytes as it misses, or as there
/// are, from the front of what `writer` has pending.
pub open spec fn hand_over(
    status: Map<u64, StatusView>,
    reader: u64,
    writer: u64,
) -> Map<u64, StatusView> {
    let n = share(status[reader]->missing, status[writer]->pending.len());
    status.insert(reader, receive(status[reader], status[writer]->pending.take(n as int))).insert(
        writer,
        release(status[writer], n),
    )
}

/// The table after the readers have been served in turn, up to and with the
/// first one that then misses nothing, and that reader.
pub open spec fn serve(
    status: Map<u64, StatusView>,
    fds: Map<u64, u64>,
    readers: Seq<u64>,
) -> (Map<u64, StatusView>, Option<u64>)
    decreases readers.len(),
{
    if readers.len() == 0 {
        (status, None)
    } else {
        let after = hand_over(status, readers[0], writer_of(status, fds, readers[0])->0);
        if after[readers[0]].meets(Readiness::Filled) {
            (after, Some(readers[0]))
        } else {
            serve(after, fds, readers.drop_first())
        }
    }
}

/// The readers that have a writer to take bytes from, in the order of the walk.
pub open spec fn matched_readers(
    status: Map<u64, StatusView>,
    fds: Map<u64, u64>,
    order: Seq<u64>,
) -> Seq<u64> {
    order.filter(|r: u64| writer_of(status, fds, r) is Some)
}

/// The first process in the walk that meets the condition.
pub open spec fn first_ready(
    status: Map<u64, StatusView>,
    order: Seq<u64>,
    want: Readiness,
) -> Option<u64> {
    first_where(order, |p: u64| status[p].meets(want))
}

/// The outcome of one round.
#[verifier::ext_equal]
pub struct Round {
    /// The states after the round.
    pub status: Map<u64, StatusView>,
    /// The process that is woken.
    pub woken: Option<u64>,
}

/// One round of scheduling over the walk `order`. In order of preference:
/// the parent of an ended process is woken and the ended process forgotten;
/// a writer that has nothing left to write is woken and forgotten; bytes move,
/// and the reader that is served in full is woken; a writer that has just been
/// emptied is woken and forgotten; a reader that misses nothing is woken; a
/// process that has started a child is woken.
pub open spec fn round(
    status: Map<u64, StatusView>,
    fds: Map<u64, u64>,
    parents: Map<u64, u64>,
    order: Seq<u64>,
) -> Round {
    if let Some(p) = first_ready(status, order, Readiness::Terminated) {
        Round { status: status.remove(p), woken: Some(parents[p]) }
    } else if let Some(p) = first_ready(status, order, Readiness::Drained) {
        Round { status: status.remove(p), woken: Some(p) }
    } else {
        let (after, served) = serve(status, fds, matched_readers(status, fds, order));
        if served is Some {
            Round { status: after, woken: served }
        } else if let Some(p) = first_ready(after, order, Readiness::Drained) {
            Round { status: after.remove(p), woken: Some(p) }
        } else if let Some(p) = first_ready(after, order, Readiness::Filled) {
            Round { status: after, woken: Some(p) }
        } else {
            Round { status: after, woken: first_ready(after, order, Readiness::Spawned) }
        }
    }
}

/// Two readers compete for the bytes of one writer: `a` would take them all
/// and miss more, and `b` misses some too.
pub open spec fn compete(
    status: Map<u64, StatusView>,
    fds: Map<u64, u64>,
    a: u64,
    b: u64,
) -> bool {
    &&& a != b
    &&& writer_of(status, fds, a) is Some
    &&& writer_of(status, fds, a) == writer_of(status, fds, b)
    &&& status[a]->missing > status[writer_of(status, fds, a)->0]->pending.len()
    &&& status[b]->missing > 0
}

/// Some process of the table meets the condition.
pub open spec fn any_ready(status: Map<u64, StatusView>, want: Readiness) -> bool {
    exists|p: u64| #[trigger] status.contains_key(p) && status[p].meets(want)
}

/// No two readers compete for one writer in a round over this table.
pub open spec fn uncontended(status: Map<u64, StatusView>, fds: Map<u64, u64>) -> bool {
    ||| any_ready(status, Readiness::Terminated)
    ||| any_ready(status, Readiness::Drained)
    ||| forall|a: u64, b: u64|
        #![trigger writer_of(status, fds, a), writer_of(status, fds, b)]
        !compete(status, fds, a, b)
}

/// The entry of `key`, for updating in place.
pub fn entry_mut<V>(table: &mut HashMap<u64, V>, key: u64) -> (res: Option<&mut V>)
    ensures
        res is Some <==> old(table)@.contains_key(key),
        res is None ==> final(table)@ == old(table)@,
        res matches Some(v) ==> *v == old(table)@[key] && final(table)@ == old(table)@.insert(
            key,
            *final(v),
        ),
{
    match table.entry(key) {
        Entry::Occupied(e) => Some(e.into_mut()),
        Entry::Vacant(_) => None,
    }
}

/// The first process in the walk that meets the condition.
pub fn find_ready(table: &HashMap<u64, ProcStatus>, order: &Vec<u64>, want: Readiness) -> (res:
    Option<u64>)
    requires
        is_walk(order@, table@.dom()),
    ensures
        res == first_ready(statuses(table@), order@, want),
{
    let ghost status = statuses(table@);
    let ghost ready = |p: u64| status[p].meets(want);
    for i in 0..order.len()
        invariant
            is_walk(order@, table@.dom()),
            status == statuses(table@),
            ready == (|p: u64| status[p].meets(want)),
            forall|j: int| 0 <= j < i ==> !ready(#[trigger] order@[j]),
    {
        let p = order[i];
        assert(order@.contains(p));
        if let Some(s) = table.get(&p) {
            if s.meets(want) {
                proof {
                    assert(ready(order@[i as int]));
                    lemma_first_where_at(order@, ready, i as int);
                }
                return Some(p);
            }
        }
    }
    proof {
        lemma_first_where_none(order@, ready);
    }
    None
}

/// The process that `reader` takes bytes from.
pub fn find_writer(
    table: &HashMap<u64, ProcStatus>,
    fds: &HashMap<u64, u64>,
    reader: u64,
) -> (res: Option<u64>)
    requires
        table@.contains_key(reader),
    ensures
        res == writer_of(statuses(table@), fds@, reader),
{
    if let Some(s) = table.get(&reader) {
        if let Some((fd, _, _)) = s.read_wait() {
            let end = fd.other_fd();
            if let Some(owner) = fds.get(&end.0) {
                if let Some(w) = table.get(owner) {
                    if w.write_wait().is_some() {
                        return Some(*owner);
                    }
                }
            }
        }
    }
    None
}

/// Moves bytes from `writer` to `reader`, as many as the reader misses or as
/// there are, and says whether the reader then misses nothing.
pub fn hand_over_bytes(table: &mut HashMap<u64, ProcStatus>, reader: u64, writer: u64) -> (res:
    bool)
    requires
        old(table)@.contains_key(reader),
        old(table)@.contains_key(writer),
        old(table)@[reader]@ is ReadWait,
        old(table)@[writer]@ is WriteWait,
    ensures
        statuses(final(table)@) == hand_over(statuses(old(table)@), reader, writer),
        res == statuses(final(table)@)[reader].meets(Readiness::Filled),
{
    let mut taken: Vec<u8> = Vec::new();
    let mut missing: usize = 0;
    if let Some(s) = table.get(&reader) {
        if let Some((_, len, _)) = s.read_wait() {
            missing = *len;
        }
    }
    if let Some(s) = entry_mut(table, writer) {
        if let Some((_, pending)) = s.write_wait_mut() {
            let n = if missing <= pending.len() { missing } else { pending.len() };
            taken = pending.split_off(n);
            std::mem::swap(pending, &mut taken);
        }
    }
    let mut filled = false;
    if let Some(s) = entry_mut(table, reader) {
        if let Some((_, len, received)) = s.read_wait_mut() {
            *len = *len - taken.len();
            filled = *len == 0;
            received.append(&mut taken);
        }
    }
    filled
}

/// Handing bytes over leaves every process waiting for what it waited for, so
/// every reader keeps its writer.
pub proof fn lemma_hand_over_keeps_writers(
    status: Map<u64, StatusView>,
    fds: Map<u64, u64>,
    reader: u64,
)
    requires
        writer_of(status, fds, reader) is Some,
    ensures
        ({
            let after = hand_over(status, reader, writer_of(status, fds, reader)->0);
            &&& after.dom() == status.dom()
            &&& forall|r: u64| #[trigger] writer_of(after, fds, r) == writer_of(status, fds, r)
        }),
{
    let after = hand_over(status, reader, writer_of(status, fds, reader)->0);
    assert(after.dom() =~= status.dom());
    assert forall|r: u64| #[trigger] writer_of(after, fds, r) == writer_of(status, fds, r) by {}
}

/// Serves the readers in turn until one of them misses nothing; that one is
/// returned.
pub fn serve_readers(
    table: &mut HashMap<u64, ProcStatus>,
    fds: &HashMap<u64, u64>,
    readers: &Vec<u64>,
) -> (res: Option<u64>)
    requires
        forall|i: int|
            0 <= i < readers@.len() ==> writer_of(
                statuses(old(table)@),
                fds@,
                #[trigger] readers@[i],
            ) is Some,
    ensures
        (statuses(final(table)@), res) == serve(statuses(old(table)@), fds@, readers@),
        final(table)@.dom() == old(table)@.dom(),
{
    let ghost start = statuses(table@);
    assert(readers@.skip(0) =~= readers@);
    for i in 0..readers.len()
        invariant
            start == statuses(old(table)@),
            table@.dom() == old(table)@.dom(),
            serve(start, fds@, readers@) == serve(
                statuses(table@),
                fds@,
                readers@.skip(i as int),
            ),
            forall|r: u64| #[trigger]
                writer_of(statuses(table@), fds@, r) == writer_of(start, fds@, r),
            forall|j: int|
                0 <= j < readers@.len() ==> writer_of(start, fds@, #[trigger] readers@[j]) is Some,
    {
        let reader = readers[i];
        let ghost now = statuses(table@);
        assert(writer_of(now, fds@, reader) is Some);
        proof {
            lemma_hand_over_keeps_writers(now, fds@, reader);
            assert(readers@.skip(i as int).drop_first() =~= readers@.skip(i + 1));
        }
        if let Some(writer) = find_writer(table, fds, reader) {
            let filled = hand_over_bytes(table, reader, writer);
            assert(table@.dom() =~= statuses(table@).dom());
            assert(old(table)@.dom() =~= now.dom());
            if filled {
                return Some(reader);
            }
        }
    }
    assert(readers@.skip(readers@.len() as int) =~= Seq::<u64>::empty());
    None
}

/// The readers that have a writer to take bytes from, in the order of the walk.
pub fn match_readers(
    table: &HashMap<u64, ProcStatus>,
    fds: &HashMap<u64, u64>,
    order: &Vec<u64>,
) -> (res: Vec<u64>)
    requires
        is_walk(order@, table@.dom()),
    ensures
        res@ == matched_readers(statuses(table@), fds@, order@),
{
    let ghost matched = |r: u64| writer_of(statuses(table@), fds@, r) is Some;
    let mut readers: Vec<u64> = Vec::new();
    assert(order@.take(0).filter(matched) =~= Seq::<u64>::empty()) by {
        reveal(Seq::filter);
    }
    for i in 0..order.len()
        invariant
            is_walk(order@, table@.dom()),
            matched == (|r: u64| writer_of(statuses(table@), fds@, r) is Some),
            readers@ == order@.take(i as int).filter(matched),
    {
        let r = order[i];
        assert(order@.contains(r));
        proof {
            reveal(Seq::filter);
            assert(order@.take(i + 1).drop_last() =~= order@.take(i as int));
        }
        if find_writer(table, fds, r).is_some() {
            readers.push(r);
        }
    }
    assert(order@.take(order@.len() as int) =~= order@);
    readers
}

/// A process that is found is one of the walk, and meets the condition.
pub proof fn lemma_first_ready_known(
    status: Map<u64, StatusView>,
    order: Seq<u64>,
    want: Readiness,
)
    ensures
        first_ready(status, order, want) matches Some(p) ==> order.contains(p)
            && status[p].meets(want),
{
    lemma_first_where_some(order, |p: u64| status[p].meets(want));
}

/// Each matched reader has a writer.
pub proof fn lemma_matched_readers_have_writers(
    status: Map<u64, StatusView>,
    fds: Map<u64, u64>,
    order: Seq<u64>,
)
    ensures
        forall|i: int|
            0 <= i < matched_readers(status, fds, order).len() ==> writer_of(
                status,
                fds,
                #[trigger] matched_readers(status, fds, order)[i],
            ) is Some,
{
    let matched = |r: u64| writer_of(status, fds, r) is Some;
    broadcast use vstd::seq_lib::group_filter_ensures;

    assert forall|i: int| 0 <= i < order.filter(matched).len() implies matched(
        #[trigger] order.filter(matched)[i],
    ) by {}
}

/// A reader that is served in full is one of the readers.
pub proof fn lemma_served_is_reader(
    status: Map<u64, StatusView>,
    fds: Map<u64, u64>,
    readers: Seq<u64>,
)
    ensures
        serve(status, fds, readers).1 matches Some(r) ==> readers.contains(r),
    decreases readers.len(),
{
    if readers.len() > 0 {
        let after = hand_over(status, readers[0], writer_of(status, fds, readers[0])->0);
        lemma_served_is_reader(after, fds, readers.drop_first());
        if let Some(r) = serve(after, fds, readers.drop_first()).1 {
            if !after[readers[0]].meets(Readiness::Filled) {
                let rest = readers.drop_first();
                let i = choose|i: int| 0 <= i < rest.len() && rest[i] == r;
                assert(readers[i + 1] == r);
            }
        }
        assert(readers.contains(readers[0]));
    }
}

/// The state of `key` in the table in which the state of `pid` is `own`.
fn state_with<'a>(
    table: &'a HashMap<u64, ProcStatus>,
    pid: u64,
    own: &'a ProcStatus,
    key: u64,
) -> (res: Option<&'a ProcStatus>)
    ensures
        ({
            let status = statuses(table@).insert(pid, own@);
            &&& res is Some <==> status.contains_key(key)
            &&& res matches Some(s) ==> s@ == status[key]
        }),
{
    if key == pid {
        Some(own)
    } else {
        table.get(&key)
    }
}

/// A reader with its writer, what it misses and what its writer has pending.
struct Claim {
    reader: u64,
    writer: u64,
    missing: usize,
    pending: usize,
}

impl Claim {
    /// The claim describes a reader of the table.
    spec fn holds(self, status: Map<u64, StatusView>, fds: Map<u64, u64>) -> bool {
        &&& writer_of(status, fds, self.reader) == Some(self.writer)
        &&& status[self.reader]->missing == self.missing
        &&& status[self.writer]->pending.len() == self.pending
    }
}

/// The claim of `key`, if it has a writer, in the table in which the state of
/// `pid` is `own`.
fn claim_with(
    table: &HashMap<u64, ProcStatus>,
    fds: &HashMap<u64, u64>,
    pid: u64,
    own: &ProcStatus,
    key: u64,
) -> (res: Option<Claim>)
    ensures
        ({
            let status = statuses(table@).insert(pid, own@);
            &&& res is Some <==> writer_of(status, fds@, key) is Some
            &&& res matches Some(c) ==> c.reader == key && c.holds(status, fds@)
        }),
{
    if let Some(s) = state_with(table, pid, own, key) {
        if let Some((fd, missing, _)) = s.read_wait() {
            let end = fd.other_fd();
            if let Some(owner) = fds.get(&end.0) {
                if let Some(w) = state_with(table, pid, own, *owner) {
                    if let Some((_, pending)) = w.write_wait() {
                        return Some(
                            Claim {
                                reader: key,
                                writer: *owner,
                                missing: *missing,
                                pending: pending.len(),
                            },
                        );
                    }
                }
            }
        }
    }
    None
}

/// Whether no two readers would compete for one writer in a round over the
/// table in which the state of `pid` is `own`.
pub fn is_uncontended_with(
    table: &HashMap<u64, ProcStatus>,
    fds: &HashMap<u64, u64>,
    pid: u64,
    own: &ProcStatus,
) -> (res: bool)
    ensures
        res == uncontended(statuses(table@).insert(pid, own@), fds@),
{
    let ghost status = statuses(table@).insert(pid, own@);
    let mut keys = keys_of(table);
    let ghost walk = keys@;
    keys.push(pid);
    assert forall|k: u64| status.contains_key(k) <==> keys@.contains(k) by {
        if k == pid {
            assert(keys@[keys@.len() - 1] == pid);
        } else if table@.contains_key(k) {
            assert(walk.contains(k));
            let i = choose|i: int| 0 <= i < walk.len() && walk[i] == k;
            assert(keys@[i] == k);
        } else if keys@.contains(k) {
            let i = choose|i: int| 0 <= i < keys@.len() && keys@[i] == k;
            assert(walk[i] == k);
            assert(walk.contains(k));
        }
    }
    let mut claims: Vec<Claim> = Vec::new();
    for i in 0..keys.len()
        invariant
            status == statuses(table@).insert(pid, own@),
            forall|k: u64| status.contains_key(k) <==> keys@.contains(k),
            forall|j: int|
                0 <= j < i ==> !status[#[trigger] keys@[j]].meets(Readiness::Terminated)
                    && !status[keys@[j]].meets(Readiness::Drained),
            forall|c: int| 0 <= c < claims@.len() ==> (#[trigger] claims@[c]).holds(status, fds@),
            forall|j: int|
                0 <= j < i && writer_of(status, fds@, #[trigger] keys@[j]) is Some ==> exists|c: int|
                    0 <= c < claims@.len() && (#[trigger] claims@[c]).reader == keys@[j],
    {
        let key = keys[i];
        assert(keys@.contains(key));
        if let Some(s) = state_with(table, pid, own, key) {
            if s.meets(Readiness::Terminated) || s.meets(Readiness::Drained) {
                return true;
            }
        }
        let ghost before = claims@;
        if let Some(claim) = claim_with(table, fds, pid, own, key) {
            claims.push(claim);
            assert(claims@[claims@.len() - 1].reader == key);
        }
        assert forall|j: int|
            0 <= j <= i && writer_of(status, fds@, #[trigger] keys@[j]) is Some implies exists|
            c: int,
        |
            0 <= c < claims@.len() && (#[trigger] claims@[c]).reader == keys@[j] by {
            if j < i {
                let c = choose|c: int|
                    0 <= c < before.len() && (#[trigger] before[c]).reader == keys@[j];
                assert(claims@[c].reader == keys@[j]);
            }
        }
    }
    assert(!any_ready(status, Readiness::Terminated) && !any_ready(status, Readiness::Drained)) by {
        assert forall|p: u64| #[trigger] status.contains_key(p) implies !status[p].meets(
            Readiness::Terminated,
        ) && !status[p].meets(Readiness::Drained) by {
            let j = choose|j: int| 0 <= j < keys@.len() && keys@[j] == p;
            assert(keys@[j] == p);
        }
    }
    let mut safe = true;
    for i in 0..claims.len()
        invariant
            safe <==> forall|a: int, b: int|
                0 <= a < i && 0 <= b < claims@.len() ==> !compete(
                    status,
                    fds@,
                    (#[trigger] claims@[a]).reader,
                    (#[trigger] claims@[b]).reader,
                ),
            forall|c: int| 0 <= c < claims@.len() ==> (#[trigger] claims@[c]).holds(status, fds@),
    {
        for k in 0..claims.len()
            invariant
                i < claims@.len(),
                safe <==> (forall|a: int, b: int|
                    0 <= a < i && 0 <= b < claims@.len() ==> !compete(
                        status,
                        fds@,
                        (#[trigger] claims@[a]).reader,
                        (#[trigger] claims@[b]).reader,
                    )) && (forall|b: int|
                    0 <= b < k ==> !compete(
                        status,
                        fds@,
                        claims@[i as int].reader,
                        (#[trigger] claims@[b]).reader,
                    )),
                forall|c: int|
                    0 <= c < claims@.len() ==> (#[trigger] claims@[c]).holds(status, fds@),
        {
            let (a, b) = (&claims[i], &claims[k]);
            assert(claims@[i as int].holds(status, fds@) && claims@[k as int].holds(status, fds@));
            if a.reader != b.reader && a.writer == b.writer && a.missing > a.pending && b.missing
                > 0 {
                safe = false;
            }
        }
    }
    proof {
        if safe {
            assert forall|a: u64, b: u64|
                #![trigger writer_of(status, fds@, a), writer_of(status, fds@, b)]
                !compete(status, fds@, a, b) by {
                if compete(status, fds@, a, b) {
                    assert(status.contains_key(a) && status.contains_key(b));
                    let i = choose|i: int| 0 <= i < keys@.len() && keys@[i] == a;
                    let k = choose|k: int| 0 <= k < keys@.len() && keys@[k] == b;
                    assert(writer_of(status, fds@, keys@[i]) is Some);
                    assert(writer_of(status, fds@, keys@[k]) is Some);
                    let c = choose|c: int|
                        0 <= c < claims@.len() && (#[trigger] claims@[c]).reader == keys@[i];
                    let d = choose|d: int|
                        0 <= d < claims@.len() && (#[trigger] claims@[d]).reader == keys@[k];
                    assert(compete(status, fds@, claims@[c].reader, claims@[d].reader));
                }
            }
        } else {
            let (a, b) = choose|a: int, b: int|
                0 <= a < claims@.len() && 0 <= b < claims@.len() && compete(
                    status,
                    fds@,
                    (#[trigger] claims@[a]).reader,
                    (#[trigger] claims@[b]).reader,
                );
            let (x, y) = (claims@[a].reader, claims@[b].reader);
            assert(writer_of(status, fds@, x) is Some && writer_of(status, fds@, y) is Some);
            assert(compete(status, fds@, x, y));
        }
    }
    safe
}

} // verus!
