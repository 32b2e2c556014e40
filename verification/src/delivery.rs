//! What a round of scheduling does to the bytes in the pipes and to the
//! processes that wait.

use vstd::prelude::*;

use crate::fd::{law_ends_are_paired, opposite};
use crate::scheduler::{
    any_ready, compete, first_ready, hand_over, lemma_first_ready_known,
    lemma_hand_over_keeps_writers, lemma_served_is_reader, matched_readers, receive, release,
    round, serve, share, statuses, uncontended, writer_of,
};
use crate::status::{ProcStatus, Readiness, StatusView, law_who_calls_for_attention};
use crate::walk::{is_walk, lemma_first_where_at, lemma_first_where_none};

verus! {

/// The number of bytes that `reader` takes from its writer when it is served.
pub open spec fn portion(status: Map<u64, StatusView>, fds: Map<u64, u64>, reader: u64) -> nat {
    share(
        status[reader]->missing,
        status[writer_of(status, fds, reader)->0]->pending.len(),
    )
}

/// From `before` to `after`, `reader` has received the first bytes that its
/// writer had pending, and the writer has released exactly those.
pub open spec fn took(
    before: Map<u64, StatusView>,
    fds: Map<u64, u64>,
    after: Map<u64, StatusView>,
    reader: u64,
) -> bool {
    let n = portion(before, fds, reader);
    match writer_of(before, fds, reader) {
        Some(w) => {
            &&& after[reader] == receive(before[reader], before[w]->pending.take(n as int))
            &&& after[w] == release(before[w], n)
        },
        None => false,
    }
}

/// From `before` to `after` bytes have moved from writers to their readers, and
/// nothing else has changed: a reader that changed took bytes from its writer, a
/// writer that changed had bytes taken by one of its readers, and no two readers
/// of one writer changed.
pub open spec fn moved(
    before: Map<u64, StatusView>,
    fds: Map<u64, u64>,
    after: Map<u64, StatusView>,
) -> bool {
    &&& after.dom() == before.dom()
    &&& forall|p: u64|
        before.contains_key(p) && #[trigger] after[p] != before[p] ==> {
            ||| before[p] is ReadWait && took(before, fds, after, p)
            ||| before[p] is WriteWait && exists|r: u64| #[trigger]
                before.contains_key(r) && after[r] != before[r] && writer_of(before, fds, r)
                    == Some(p) && took(before, fds, after, r)
        }
    &&& forall|a: u64, b: u64|
        #![trigger after[a], after[b]]
        a != b && before.contains_key(a) && before.contains_key(b) && before[a] is ReadWait
            && before[b] is ReadWait && after[a] != before[a] && after[b] != before[b]
            ==> writer_of(before, fds, a) != writer_of(before, fds, b)
}

/// Taking no bytes changes nothing.
proof fn lemma_hand_over_nothing(status: Map<u64, StatusView>, reader: u64, writer: u64)
    requires
        status.contains_key(reader),
        status.contains_key(writer),
        status[reader] is ReadWait,
        status[writer] is WriteWait,
        status[reader]->missing == 0,
    ensures
        hand_over(status, reader, writer) == status,
{
    let pending = status[writer]->pending;
    assert(pending.take(0) =~= Seq::<u8>::empty());
    assert(pending.skip(0) =~= pending);
    assert(receive(status[reader], pending.take(0)) =~= status[reader]);
    assert(release(status[writer], 0) =~= status[writer]);
    assert(hand_over(status, reader, writer) =~= status);
}

/// A served reader that has changed has received bytes.
proof fn lemma_took_some(
    before: Map<u64, StatusView>,
    fds: Map<u64, u64>,
    after: Map<u64, StatusView>,
    reader: u64,
)
    requires
        took(before, fds, after, reader),
        after[reader] != before[reader],
    ensures
        portion(before, fds, reader) > 0,
        after[writer_of(before, fds, reader)->0] != before[writer_of(before, fds, reader)->0],
{
    let w = writer_of(before, fds, reader)->0;
    let n = portion(before, fds, reader);
    if n == 0 {
        assert(before[w]->pending.take(0) =~= Seq::<u8>::empty());
        assert(receive(before[reader], before[w]->pending.take(0)) =~= before[reader]);
    }
    assert(after[w]->pending.len() == before[w]->pending.len() - n);
}

/// Serving readers, each untouched so far, moves bytes.
proof fn lemma_serve_moves(
    before: Map<u64, StatusView>,
    fds: Map<u64, u64>,
    now: Map<u64, StatusView>,
    readers: Seq<u64>,
)
    requires
        moved(before, fds, now),
        readers.no_duplicates(),
        forall|r: u64| #[trigger] writer_of(now, fds, r) == writer_of(before, fds, r),
        forall|a: u64, b: u64|
            #![trigger writer_of(before, fds, a), writer_of(before, fds, b)]
            !compete(before, fds, a, b),
        forall|i: int|
            0 <= i < readers.len() ==> {
                let r = #[trigger] readers[i];
                let w = writer_of(before, fds, r);
                &&& w is Some
                &&& now[r] == before[r]
                &&& now[w->0] == before[w->0] || before[r]->missing == 0
            },
    ensures
        moved(before, fds, serve(now, fds, readers).0),
    decreases readers.len(),
{
    if readers.len() > 0 {
        let r = readers[0];
        let w = writer_of(before, fds, r)->0;
        assert(writer_of(now, fds, r) == Some(w));
        let after = hand_over(now, r, w);
        lemma_hand_over_keeps_writers(now, fds, r);
        if before[r]->missing == 0 {
            lemma_hand_over_nothing(now, r, w);
        } else {
            lemma_hand_over_extends(before, fds, now, r);
            if !after[r].meets(Readiness::Filled) {
                let rest = readers.drop_first();
                assert forall|i: int| 0 <= i < rest.len() implies {
                    let x = #[trigger] rest[i];
                    let v = writer_of(before, fds, x);
                    &&& v is Some
                    &&& after[x] == before[x]
                    &&& after[v->0] == before[v->0] || before[x]->missing == 0
                } by {
                    let x = rest[i];
                    assert(x == readers[i + 1]);
                    assert(x != r);
                    let v = writer_of(before, fds, x);
                    assert(x != w);
                    if v->0 == w {
                        assert(!compete(before, fds, r, x));
                    } else {
                        assert(v->0 != r);
                    }
                }
                lemma_serve_moves(before, fds, after, rest);
            }
        }
    }
}

/// Serving one reader, when neither it nor its writer has changed, keeps to [`moved`].
proof fn lemma_hand_over_extends(
    before: Map<u64, StatusView>,
    fds: Map<u64, u64>,
    now: Map<u64, StatusView>,
    r: u64,
)
    requires
        moved(before, fds, now),
        writer_of(before, fds, r) is Some,
        writer_of(now, fds, r) == writer_of(before, fds, r),
        now[r] == before[r],
        now[writer_of(before, fds, r)->0] == before[writer_of(before, fds, r)->0],
    ensures
        moved(before, fds, hand_over(now, r, writer_of(before, fds, r)->0)),
{
    let w = writer_of(before, fds, r)->0;
    let after = hand_over(now, r, w);
    assert(after.dom() =~= before.dom());
    assert(took(before, fds, after, r));
    assert forall|x: u64|
        before.contains_key(x) && now[x] != before[x] && took(before, fds, now, x) implies took(
        before,
        fds,
        after,
        x,
    ) && writer_of(before, fds, x)->0 != w && x != r by {
        lemma_took_some(before, fds, now, x);
        let v = writer_of(before, fds, x)->0;
        assert(v != w && v != r && x != w);
    }
    assert forall|p: u64| before.contains_key(p) && #[trigger] after[p] != before[p] implies {
        ||| before[p] is ReadWait && took(before, fds, after, p)
        ||| before[p] is WriteWait && exists|x: u64| #[trigger]
            before.contains_key(x) && after[x] != before[x] && writer_of(before, fds, x) == Some(p)
                && took(before, fds, after, x)
    } by {
        if p == w {
            if after[r] == before[r] {
                let n = portion(before, fds, r);
                assert(after[r]->missing == before[r]->missing - n);
                assert(n == 0);
                assert(release(before[w], 0) =~= before[w]) by {
                    assert(before[w]->pending.skip(0) =~= before[w]->pending);
                }
            }
            assert(before.contains_key(r));
        } else if p != r {
            assert(now[p] == after[p]);
            if before[p] is WriteWait {
                let x = choose|x: u64| #[trigger]
                    before.contains_key(x) && now[x] != before[x] && writer_of(before, fds, x)
                        == Some(p) && took(before, fds, now, x);
                assert(took(before, fds, after, x));
                assert(after[x] == now[x]);
                assert(before.contains_key(x));
            }
        }
    }
    assert forall|a: u64, b: u64|
        #![trigger after[a], after[b]]
        a != b && before.contains_key(a) && before.contains_key(b) && before[a] is ReadWait
            && before[b] is ReadWait && after[a] != before[a] && after[b] != before[b] implies writer_of(
        before,
        fds,
        a,
    ) != writer_of(before, fds, b) by {
        if a == r {
            assert(now[b] == after[b]);
        } else if b == r {
            assert(now[a] == after[a]);
        } else {
            assert(now[a] == after[a] && now[b] == after[b]);
        }
    }
}

/// The matched readers are distinct, stand in the walk, and are all that have a writer.
proof fn lemma_matched_readers(
    status: Map<u64, StatusView>,
    fds: Map<u64, u64>,
    order: Seq<u64>,
)
    requires
        is_walk(order, status.dom()),
    ensures
        matched_readers(status, fds, order).no_duplicates(),
        forall|r: u64| #[trigger]
            matched_readers(status, fds, order).contains(r) <==> writer_of(status, fds, r) is Some,
{
    broadcast use vstd::seq_lib::group_filter_ensures;

    let matched = |r: u64| writer_of(status, fds, r) is Some;
    let readers = order.filter(matched);
    lemma_filter_keeps_distinct(order, matched);
    assert forall|r: u64| #[trigger] readers.contains(r) <==> writer_of(status, fds, r) is Some by {
        if readers.contains(r) {
            let i = choose|i: int| 0 <= i < readers.len() && readers[i] == r;
            assert(matched(readers[i]));
        }
        if writer_of(status, fds, r) is Some {
            assert(order.contains(r));
            let i = choose|i: int| 0 <= i < order.len() && order[i] == r;
            assert(matched(order[i]));
            assert(readers.contains(order[i]));
        }
    }
}

/// Filtering keeps the elements distinct.
proof fn lemma_filter_keeps_distinct(s: Seq<u64>, p: spec_fn(u64) -> bool)
    requires
        s.no_duplicates(),
    ensures
        s.filter(p).no_duplicates(),
    decreases s.len(),
{
    reveal(Seq::filter);
    if s.len() > 0 {
        let front = s.drop_last();
        lemma_filter_keeps_distinct(front, p);
        if front.filter(p).contains(s.last()) {
            front.lemma_filter_contains_rev(p, s.last());
            let i = choose|i: int| 0 <= i < front.len() && front[i] == s.last();
            assert(s[i] == s[s.len() - 1]);
        }
    }
}

/// A walk finds a process that meets a condition exactly if there is one.
proof fn lemma_first_ready_iff(status: Map<u64, StatusView>, order: Seq<u64>, want: Readiness)
    requires
        is_walk(order, status.dom()),
    ensures
        first_ready(status, order, want) is Some <==> any_ready(status, want),
{
    let ready = |p: u64| status[p].meets(want);
    lemma_first_where_none(order, ready);
    lemma_first_ready_known(status, order, want);
    if any_ready(status, want) {
        let p = choose|p: u64| #[trigger] status.contains_key(p) && status[p].meets(want);
        assert(order.contains(p));
        let i = choose|i: int| 0 <= i < order.len() && order[i] == p;
        assert(ready(order[i]));
    }
    if let Some(p) = first_ready(status, order, want) {
        assert(status.contains_key(p));
    }
}

/// Serving readers keeps the processes, and a writer with nothing left stays one.
proof fn lemma_serve_keeps(
    status: Map<u64, StatusView>,
    fds: Map<u64, u64>,
    readers: Seq<u64>,
    w: u64,
)
    requires
        forall|i: int|
            0 <= i < readers.len() ==> writer_of(status, fds, #[trigger] readers[i]) is Some,
    ensures
        serve(status, fds, readers).0.dom() == status.dom(),
        status[w].meets(Readiness::Drained) && status.contains_key(w) ==> serve(
            status,
            fds,
            readers,
        ).0[w].meets(Readiness::Drained),
    decreases readers.len(),
{
    if readers.len() > 0 {
        let r = readers[0];
        let after = hand_over(status, r, writer_of(status, fds, r)->0);
        lemma_hand_over_keeps_writers(status, fds, r);
        let rest = readers.drop_first();
        assert forall|i: int| 0 <= i < rest.len() implies writer_of(
            after,
            fds,
            #[trigger] rest[i],
        ) is Some by {
            assert(rest[i] == readers[i + 1]);
        }
        lemma_serve_keeps(after, fds, rest, w);
    }
}

/// If readers are served and none of them in full, a writer has nothing left.
proof fn lemma_serve_fills_or_drains(
    status: Map<u64, StatusView>,
    fds: Map<u64, u64>,
    readers: Seq<u64>,
)
    requires
        readers.len() > 0,
        forall|i: int|
            0 <= i < readers.len() ==> writer_of(status, fds, #[trigger] readers[i]) is Some,
    ensures
        serve(status, fds, readers).1 is Some || any_ready(
            serve(status, fds, readers).0,
            Readiness::Drained,
        ),
{
    let r = readers[0];
    let w = writer_of(status, fds, r)->0;
    let after = hand_over(status, r, w);
    lemma_hand_over_keeps_writers(status, fds, r);
    let rest = readers.drop_first();
    assert forall|i: int| 0 <= i < rest.len() implies writer_of(
        after,
        fds,
        #[trigger] rest[i],
    ) is Some by {
        assert(rest[i] == readers[i + 1]);
    }
    if !after[r].meets(Readiness::Filled) {
        assert(after[w].meets(Readiness::Drained));
        lemma_serve_keeps(after, fds, rest, w);
        assert(serve(after, fds, rest).0.contains_key(w));
    }
}

/// A reader that is served in full then misses nothing.
proof fn lemma_served_is_filled(
    status: Map<u64, StatusView>,
    fds: Map<u64, u64>,
    readers: Seq<u64>,
)
    ensures
        serve(status, fds, readers).1 matches Some(r) ==> serve(status, fds, readers).0[r].meets(
            Readiness::Filled,
        ),
    decreases readers.len(),
{
    if readers.len() > 0 {
        let r = readers[0];
        let after = hand_over(status, r, writer_of(status, fds, r)->0);
        lemma_served_is_filled(after, fds, readers.drop_first());
    }
}

/// In a round no byte is lost, copied or put out of order: bytes move from the
/// front of what a writer has pending to the end of what its reader has received,
/// as [`moved`] says, and then at most one process is forgotten, one that has
/// ended or a writer that has nothing left.
pub proof fn law_round_moves_bytes(
    status: Map<u64, StatusView>,
    fds: Map<u64, u64>,
    parents: Map<u64, u64>,
    order: Seq<u64>,
)
    requires
        is_walk(order, status.dom()),
        uncontended(status, fds),
    ensures
        exists|after: Map<u64, StatusView>|
            {
                let out = round(status, fds, parents, order);
                &&& #[trigger] moved(status, fds, after)
                &&& {
                    ||| out.status == after
                    ||| exists|p: u64|
                        {
                            &&& #[trigger] status.contains_key(p)
                            &&& out.status == after.remove(p)
                            &&& {
                                ||| after[p] is Terminated && out.woken == Some(parents[p])
                                ||| after[p].meets(Readiness::Drained) && out.woken == Some(p)
                            }
                        }
                }
            },
{
    let out = round(status, fds, parents, order);
    lemma_first_ready_known(status, order, Readiness::Terminated);
    lemma_first_ready_known(status, order, Readiness::Drained);
    lemma_first_ready_iff(status, order, Readiness::Terminated);
    lemma_first_ready_iff(status, order, Readiness::Drained);
    assert(moved(status, fds, status));
    if let Some(p) = first_ready(status, order, Readiness::Terminated) {
        assert(status.contains_key(p));
    } else if let Some(p) = first_ready(status, order, Readiness::Drained) {
        assert(status.contains_key(p));
    } else {
        let readers = matched_readers(status, fds, order);
        lemma_matched_readers(status, fds, order);
        assert forall|i: int| 0 <= i < readers.len() implies writer_of(
            status,
            fds,
            #[trigger] readers[i],
        ) is Some by {
            assert(readers.contains(readers[i]));
        }
        lemma_serve_moves(status, fds, status, readers);
        let after = serve(status, fds, readers).0;
        assert(moved(status, fds, after));
        lemma_first_ready_known(after, order, Readiness::Drained);
        if let Some(p) = first_ready(after, order, Readiness::Drained) {
            assert(status.contains_key(p));
        }
    }
}

/// What a reader has received only grows, and only by the first bytes that its writer
/// had pending; the writer then keeps the rest, or, if there is no rest, may no longer
/// wait. A reader goes on waiting through every round.
pub proof fn law_reader_receives_from_front(
    status: Map<u64, StatusView>,
    fds: Map<u64, u64>,
    parents: Map<u64, u64>,
    order: Seq<u64>,
    r: u64,
)
    requires
        is_walk(order, status.dom()),
        uncontended(status, fds),
        status.contains_key(r),
        status[r] is ReadWait,
    ensures
        ({
            let out = round(status, fds, parents, order);
            let n = portion(status, fds, r);
            &&& out.status.contains_key(r)
            &&& {
                ||| out.status[r] == status[r]
                ||| {
                    let w = writer_of(status, fds, r);
                    &&& w is Some
                    &&& out.status[r] == receive(status[r], status[w->0]->pending.take(n as int))
                    &&& out.status.contains_key(w->0) ==> out.status[w->0] == release(
                        status[w->0],
                        n,
                    )
                    &&& !out.status.contains_key(w->0) ==> n == status[w->0]->pending.len()
                }
            }
        }),
{
    let out = round(status, fds, parents, order);
    law_round_moves_bytes(status, fds, parents, order);
    let after = choose|after: Map<u64, StatusView>|
        {
            &&& #[trigger] moved(status, fds, after)
            &&& {
                ||| out.status == after
                ||| exists|p: u64|
                    {
                        &&& #[trigger] status.contains_key(p)
                        &&& out.status == after.remove(p)
                        &&& {
                            ||| after[p] is Terminated && out.woken == Some(parents[p])
                            ||| after[p].meets(Readiness::Drained) && out.woken == Some(p)
                        }
                    }
            }
        };
    assert(after[r] == status[r] || took(status, fds, after, r));
}

/// A writer loses bytes only to a reader: what it no longer has pending after a round,
/// one of its readers has received. If it no longer waits, it has nothing left.
pub proof fn law_writer_loses_only_what_is_received(
    status: Map<u64, StatusView>,
    fds: Map<u64, u64>,
    parents: Map<u64, u64>,
    order: Seq<u64>,
    w: u64,
)
    requires
        is_walk(order, status.dom()),
        uncontended(status, fds),
        status.contains_key(w),
        status[w] is WriteWait,
    ensures
        ({
            let out = round(status, fds, parents, order);
            ||| out.status.contains_key(w) && out.status[w] == status[w]
            ||| !out.status.contains_key(w) && status[w]->pending.len() == 0
            ||| exists|r: u64|
                {
                    let n = portion(status, fds, r);
                    &&& #[trigger] writer_of(status, fds, r) == Some(w)
                    &&& out.status[r] == receive(status[r], status[w]->pending.take(n as int))
                    &&& if out.status.contains_key(w) {
                        out.status[w] == release(status[w], n)
                    } else {
                        n == status[w]->pending.len()
                    }
                }
        }),
{
    let out = round(status, fds, parents, order);
    law_round_moves_bytes(status, fds, parents, order);
    let after = choose|after: Map<u64, StatusView>|
        {
            &&& #[trigger] moved(status, fds, after)
            &&& {
                ||| out.status == after
                ||| exists|p: u64|
                    {
                        &&& #[trigger] status.contains_key(p)
                        &&& out.status == after.remove(p)
                        &&& {
                            ||| after[p] is Terminated && out.woken == Some(parents[p])
                            ||| after[p].meets(Readiness::Drained) && out.woken == Some(p)
                        }
                    }
            }
        };
    if after[w] != status[w] {
        let r = choose|r: u64| #[trigger]
            status.contains_key(r) && after[r] != status[r] && writer_of(status, fds, r) == Some(w)
                && took(status, fds, after, r);
        assert(writer_of(status, fds, r) == Some(w));
        assert(after[r] is ReadWait);
        assert(out.status[r] == after[r]);
    }
}

/// A round wakes nobody exactly if there is nothing to do: no process meets any
/// of the conditions, and no reader has a writer. Such a round changes nothing.
pub proof fn law_round_is_idle_only_if_nothing_to_do(
    status: Map<u64, StatusView>,
    fds: Map<u64, u64>,
    parents: Map<u64, u64>,
    order: Seq<u64>,
)
    requires
        is_walk(order, status.dom()),
    ensures
        round(status, fds, parents, order).woken is None <==> {
            &&& forall|want: Readiness| !any_ready(status, want)
            &&& forall|r: u64| writer_of(status, fds, r) is None
        },
        round(status, fds, parents, order).woken is None ==> round(
            status,
            fds,
            parents,
            order,
        ).status == status,
{
    let readers = matched_readers(status, fds, order);
    lemma_matched_readers(status, fds, order);
    assert forall|i: int| 0 <= i < readers.len() implies writer_of(
        status,
        fds,
        #[trigger] readers[i],
    ) is Some by {
        assert(readers.contains(readers[i]));
    }
    let after = serve(status, fds, readers).0;
    lemma_serve_keeps(status, fds, readers, 0);
    lemma_first_ready_iff(status, order, Readiness::Terminated);
    lemma_first_ready_iff(status, order, Readiness::Drained);
    lemma_first_ready_iff(after, order, Readiness::Drained);
    lemma_first_ready_iff(after, order, Readiness::Filled);
    lemma_first_ready_iff(after, order, Readiness::Spawned);
    if readers.len() > 0 {
        lemma_serve_fills_or_drains(status, fds, readers);
        assert(writer_of(status, fds, readers[0]) is Some);
    } else {
        assert forall|r: u64| writer_of(status, fds, r) is None by {
            assert(!readers.contains(r));
        }
    }
    let out = round(status, fds, parents, order);
    if out.woken is None {
        assert(after == status);
        assert forall|want: Readiness| !any_ready(status, want) by {
            match want {
                Readiness::Terminated => {},
                Readiness::Drained => {},
                Readiness::Filled => {},
                Readiness::Spawned => {},
            }
        }
    }
    if forall|want: Readiness| !any_ready(status, want) {
        assert(!any_ready(status, Readiness::Terminated));
        assert(!any_ready(status, Readiness::Drained));
        assert(!any_ready(status, Readiness::Filled));
        assert(!any_ready(status, Readiness::Spawned));
    }
}

/// A process is woken only with cause: it is the parent of a process that has
/// ended, or it waited itself, and then it was a writer that has nothing left and
/// no longer waits, or it still waits as a reader that misses nothing or as a
/// process that has started a child.
pub proof fn law_woken_with_cause(
    status: Map<u64, StatusView>,
    fds: Map<u64, u64>,
    parents: Map<u64, u64>,
    order: Seq<u64>,
)
    requires
        is_walk(order, status.dom()),
    ensures
        ({
            let out = round(status, fds, parents, order);
            out.woken matches Some(p) ==> {
                ||| exists|t: u64| #[trigger]
                    status.contains_key(t) && status[t] is Terminated && p == parents[t]
                        && out.status == status.remove(t)
                ||| {
                    &&& status.contains_key(p)
                    &&& {
                        ||| status[p] is WriteWait && !out.status.contains_key(p)
                        ||| out.status.contains_key(p) && out.status[p].meets(Readiness::Filled)
                        ||| out.status.contains_key(p) && out.status[p].meets(Readiness::Spawned)
                    }
                }
            }
        }),
{
    let readers = matched_readers(status, fds, order);
    lemma_matched_readers(status, fds, order);
    assert forall|i: int| 0 <= i < readers.len() implies writer_of(
        status,
        fds,
        #[trigger] readers[i],
    ) is Some by {
        assert(readers.contains(readers[i]));
    }
    let after = serve(status, fds, readers).0;
    lemma_served_is_filled(status, fds, readers);
    lemma_served_is_reader(status, fds, readers);
    lemma_serve_keeps(status, fds, readers, 0);
    lemma_serve_keeps_kinds(status, fds, readers);
    lemma_first_ready_known(status, order, Readiness::Terminated);
    lemma_first_ready_known(status, order, Readiness::Drained);
    lemma_first_ready_known(after, order, Readiness::Drained);
    lemma_first_ready_known(after, order, Readiness::Filled);
    lemma_first_ready_known(after, order, Readiness::Spawned);
    if let Some(t) = first_ready(status, order, Readiness::Terminated) {
        assert(status.contains_key(t));
    }
}

/// Serving readers makes no process a writer that was none.
proof fn lemma_serve_keeps_kinds(
    status: Map<u64, StatusView>,
    fds: Map<u64, u64>,
    readers: Seq<u64>,
)
    requires
        forall|i: int|
            0 <= i < readers.len() ==> writer_of(status, fds, #[trigger] readers[i]) is Some,
    ensures
        forall|p: u64|
            (#[trigger] serve(status, fds, readers).0[p]) is WriteWait <==> status[p] is WriteWait,
    decreases readers.len(),
{
    if readers.len() > 0 {
        let r = readers[0];
        let after = hand_over(status, r, writer_of(status, fds, r)->0);
        lemma_hand_over_keeps_writers(status, fds, r);
        let rest = readers.drop_first();
        assert forall|i: int| 0 <= i < rest.len() implies writer_of(
            after,
            fds,
            #[trigger] rest[i],
        ) is Some by {
            assert(rest[i] == readers[i + 1]);
        }
        lemma_serve_keeps_kinds(after, fds, rest);
        assert forall|p: u64|
            (#[trigger] serve(status, fds, readers).0[p]) is WriteWait <==> status[p] is WriteWait by {
            assert(after[p] is WriteWait <==> status[p] is WriteWait);
        }
    }
}

/// A read gives back what was written. If `r` is the only reader that has a writer,
/// `w`, and no process has ended or has been left with nothing to write, then after
/// a round over any walk: if `w` had enough bytes, `r` has received as many as it
/// missed, from the front, `w` keeps the rest, and `r` is woken; if not, `r` has
/// received them all, and `w` is woken and no longer waits.
pub proof fn law_read_gives_back_write(
    status: Map<u64, StatusView>,
    fds: Map<u64, u64>,
    parents: Map<u64, u64>,
    order: Seq<u64>,
    r: u64,
    w: u64,
)
    requires
        is_walk(order, status.dom()),
        !any_ready(status, Readiness::Terminated),
        !any_ready(status, Readiness::Drained),
        writer_of(status, fds, r) == Some(w),
        forall|x: u64| x != r ==> writer_of(status, fds, x) is None,
    ensures
        ({
            let out = round(status, fds, parents, order);
            let n = status[r]->missing;
            let bytes = status[w]->pending;
            if n <= bytes.len() {
                &&& out.woken == Some(r)
                &&& out.status == status.insert(
                    r,
                    receive(status[r], bytes.take(n as int)),
                ).insert(w, release(status[w], n))
            } else {
                &&& out.woken == Some(w)
                &&& out.status == status.insert(r, receive(status[r], bytes)).remove(w)
            }
        }),
{
    lemma_first_ready_iff(status, order, Readiness::Terminated);
    lemma_first_ready_iff(status, order, Readiness::Drained);
    let readers = matched_readers(status, fds, order);
    lemma_matched_readers(status, fds, order);
    assert(readers.contains(r));
    let i = choose|i: int| 0 <= i < readers.len() && readers[i] == r;
    assert(readers.contains(readers[0]));
    if readers.len() > 1 {
        assert(readers.contains(readers[1]));
        assert(readers[0] == readers[1]);
    }
    assert(readers[0] == r);
    let bytes = status[w]->pending;
    let after = hand_over(status, r, w);
    assert(serve(after, fds, readers.drop_first()) == (after, None::<u64>));
    if status[r]->missing > bytes.len() {
        assert(bytes.take(bytes.len() as int) =~= bytes);
        assert(after.dom() =~= status.dom());
        assert(after[w].meets(Readiness::Drained));
        lemma_first_ready_iff(after, order, Readiness::Drained);
        lemma_first_ready_known(after, order, Readiness::Drained);
        assert(after.contains_key(w));
        let p = first_ready(after, order, Readiness::Drained)->0;
        assert(status.contains_key(p));
        if p != w {
            assert(after[p].meets(Readiness::Drained));
            assert(p != r);
            assert(status[p].meets(Readiness::Drained));
        }
        assert(after.remove(w) =~= status.insert(r, receive(status[r], bytes)).remove(w));
    }
}

/// Bytes are read in the order in which they were written: what two reads in turn
/// take from one write is what one read of both lengths would have taken.
pub proof fn law_consecutive_reads(
    status: Map<u64, StatusView>,
    r: u64,
    w: u64,
    request: StatusView,
)
    requires
        r != w,
        status[r] is ReadWait,
        status[r]->received.len() == 0,
        status[w] is WriteWait,
        request is ReadWait,
        request->received.len() == 0,
        status[r]->missing + request->missing <= status[w]->pending.len(),
    ensures
        ({
            let first = hand_over(status, r, w);
            let second = hand_over(first.insert(r, request), r, w);
            let both = status[r]->missing + request->missing;
            &&& first[r]->received + second[r]->received == status[w]->pending.take(both as int)
            &&& second[w]->pending == status[w]->pending.skip(both as int)
        }),
{
    let first = hand_over(status, r, w);
    let second = hand_over(first.insert(r, request), r, w);
    let both = status[r]->missing + request->missing;
    assert(first[r]->received =~= status[w]->pending.take(status[r]->missing as int));
    assert(second[r]->received =~= first[w]->pending.take(request->missing as int));
    assert(first[r]->received + second[r]->received =~= status[w]->pending.take(both as int));
    assert(second[w]->pending =~= status[w]->pending.skip(both as int));
}

/// Bytes stay in their pipe as long as a process that waits to write owns no write
/// end but the one it writes to: what a reader of a read end takes was written to
/// the write end of the same pipe.
pub proof fn law_bytes_stay_in_their_pipe(
    status: Map<u64, StatusView>,
    fds: Map<u64, u64>,
    reader: u64,
)
    requires
        writer_of(status, fds, reader) is Some,
        status[reader]->ReadWait_fd % 2 == 0,
        forall|end: u64| #[trigger]
            fds.contains_key(end) && end % 2 == 1 && fds[end] == writer_of(status, fds, reader)->0
                ==> end == status[writer_of(status, fds, reader)->0]->WriteWait_fd,
    ensures
        status[writer_of(status, fds, reader)->0]->WriteWait_fd == opposite(
            status[reader]->ReadWait_fd,
        ),
{
    assert(fds.contains_key(opposite(status[reader]->ReadWait_fd)));
}

/// A table of states holds the value of each state, under the same number.
pub proof fn law_table_holds_each_state(table: Map<u64, ProcStatus>, p: u64)
    ensures
        statuses(table).contains_key(p) <==> table.contains_key(p),
        table.contains_key(p) ==> statuses(table)[p] == table[p]@,
{
}

/// A reader takes bytes from a process exactly if that process waits to write and owns the
/// other end of the pipe that is read: the one end that is not the reader's own and gives
/// the same number when halved.
pub proof fn law_writer_owns_the_other_end(
    status: Map<u64, StatusView>,
    fds: Map<u64, u64>,
    r: u64,
    w: u64,
)
    ensures
        writer_of(status, fds, r) == Some(w) <==> {
            &&& status.contains_key(r) && status[r] is ReadWait
            &&& status.contains_key(w) && status[w] is WriteWait
            &&& exists|end: u64|
                {
                    &&& #[trigger] fds.contains_key(end)
                    &&& fds[end] == w
                    &&& end != status[r]->ReadWait_fd
                    &&& end / 2 == status[r]->ReadWait_fd / 2
                }
        },
{
    if status[r] is ReadWait {
        let fd = status[r]->ReadWait_fd;
        law_ends_are_paired(fd);
        if writer_of(status, fds, r) == Some(w) {
            assert(fds.contains_key(opposite(fd)));
        }
        assert forall|end: u64| #[trigger] fds.contains_key(end) && end != fd && end / 2 == fd
            / 2 implies end == opposite(fd) by {}
    }
}

/// Bytes that are handed over leave the front of what the writer has pending and join the end
/// of what the reader has received, whatever that was: what was received before stays in
/// front, what is handed over and what is left make up what was pending, and the reader
/// misses as many bytes fewer as it got. As many are handed over as are missed, or as there
/// are. Nobody else is touched.
pub proof fn law_bytes_join_the_end(status: Map<u64, StatusView>, r: u64, w: u64, p: u64)
    requires
        r != w,
        status[r] is ReadWait,
        status[w] is WriteWait,
    ensures
        ({
            let t = hand_over(status, r, w);
            let old = status[r]->received;
            let new = t[r]->received;
            let n = new.len() - old.len();
            &&& t[r] is ReadWait && t[w] is WriteWait
            &&& n >= 0
            &&& new.take(old.len() as int) == old
            &&& new.skip(old.len() as int) + t[w]->pending == status[w]->pending
            &&& t[r]->missing + n == status[r]->missing
            &&& t[r]->missing == 0 || t[w]->pending.len() == 0
            &&& t[r]->ReadWait_fd == status[r]->ReadWait_fd
            &&& t[r]->ReadWait_tag == status[r]->ReadWait_tag
            &&& t[w]->WriteWait_fd == status[w]->WriteWait_fd
            &&& t[w]->WriteWait_tag == status[w]->WriteWait_tag
            &&& t.dom() == status.dom().insert(r).insert(w)
            &&& p != r && p != w && status.contains_key(p) ==> t[p] == status[p]
        }),
{
    let t = hand_over(status, r, w);
    let old = status[r]->received;
    let new = t[r]->received;
    assert(new.take(old.len() as int) =~= old);
    assert(new.skip(old.len() as int) + t[w]->pending =~= status[w]->pending);
    assert(t.dom() =~= status.dom().insert(r).insert(w));
}

/// Readers are served one after the other: serving a list is serving its first part and, if
/// nobody was served in full, going on with the rest. Serving nobody changes nothing, and
/// serving one reader hands it bytes of its writer and finds it if it then misses nothing.
pub proof fn law_readers_are_served_in_turn(
    status: Map<u64, StatusView>,
    fds: Map<u64, u64>,
    front: Seq<u64>,
    back: Seq<u64>,
    r: u64,
    w: u64,
)
    ensures
        serve(status, fds, Seq::empty()) == (status, None::<u64>),
        writer_of(status, fds, r) == Some(w) ==> {
            let (t, served) = serve(status, fds, seq![r]);
            &&& t == hand_over(status, r, w)
            &&& served == Some(r) <==> t[r]->missing == 0
            &&& served is None <==> t[r]->missing > 0
        },
        ({
            let (t, served) = serve(status, fds, front);
            serve(status, fds, front + back) == (if served is Some {
                (t, served)
            } else {
                serve(t, fds, back)
            })
        }),
    decreases front.len(),
{
    assert(seq![r].drop_first() =~= Seq::<u64>::empty());
    assert(serve(hand_over(status, r, w), fds, Seq::empty()) == (
        hand_over(status, r, w),
        None::<u64>,
    ));
    if front.len() == 0 {
        assert(front + back =~= back);
    } else {
        let after = hand_over(status, front[0], writer_of(status, fds, front[0])->0);
        assert((front + back).drop_first() =~= front.drop_first() + back);
        law_readers_are_served_in_turn(after, fds, front.drop_first(), back, r, w);
    }
}

/// The readers that have a writer keep the order of the walk: those of a walk in two parts are
/// those of its first part and then those of its second, and a process is one of them exactly
/// if it has a writer.
pub proof fn law_readers_keep_the_order(
    status: Map<u64, StatusView>,
    fds: Map<u64, u64>,
    front: Seq<u64>,
    back: Seq<u64>,
    r: u64,
)
    ensures
        matched_readers(status, fds, Seq::empty()) == Seq::<u64>::empty(),
        matched_readers(status, fds, seq![r]) == (if writer_of(status, fds, r) is Some {
            seq![r]
        } else {
            Seq::empty()
        }),
        matched_readers(status, fds, front + back) == matched_readers(status, fds, front)
            + matched_readers(status, fds, back),
{
    let matched = |x: u64| writer_of(status, fds, x) is Some;
    reveal(Seq::filter);
    assert(seq![r].drop_last() =~= Seq::<u64>::empty());
    assert(Seq::<u64>::empty().filter(matched) =~= Seq::<u64>::empty());
    assert(Seq::<u64>::empty().push(r) =~= seq![r]);
    Seq::filter_distributes_over_add(front, back, matched);
}

/// The process that is found to meet a condition is the one that the walk passes first, and
/// none is found only if none meets it.
pub proof fn law_walk_finds_the_first(
    status: Map<u64, StatusView>,
    order: Seq<u64>,
    want: Readiness,
    i: int,
)
    requires
        0 <= i < order.len(),
    ensures
        status[order[i]].meets(want) && (forall|j: int|
            0 <= j < i ==> !status[#[trigger] order[j]].meets(want)) ==> first_ready(
            status,
            order,
            want,
        ) == Some(order[i]),
        first_ready(status, order, want) is None ==> !status[order[i]].meets(want),
{
    let ready = |p: u64| status[p].meets(want);
    lemma_first_where_none(order, ready);
    if first_ready(status, order, want) is None {
        assert(!ready(order[i]));
    }
    if status[order[i]].meets(want) && (forall|j: int|
        0 <= j < i ==> !status[#[trigger] order[j]].meets(want)) {
        lemma_first_where_at(order, ready, i);
    }
}

/// Readers are in each other's way exactly if nobody has ended, no writer has nothing left,
/// and two readers want bytes of one writer that has too few for one of them.
pub proof fn law_when_readers_are_in_the_way(status: Map<u64, StatusView>, fds: Map<u64, u64>)
    ensures
        !uncontended(status, fds) <==> {
            &&& forall|p: u64| #[trigger]
                status.contains_key(p) ==> !(status[p] is Terminated) && !(status[p] is WriteWait
                    && status[p]->pending == Seq::<u8>::empty())
            &&& exists|a: u64, b: u64|
                {
                    let w = #[trigger] writer_of(status, fds, a);
                    &&& a != b
                    &&& w is Some && #[trigger] writer_of(status, fds, b) == w
                    &&& status[a]->missing > status[w->0]->pending.len()
                    &&& status[b]->missing > 0
                }
        },
{
    assert forall|p: u64| #[trigger] status.contains_key(p) implies (status[p].meets(
        Readiness::Terminated,
    ) <==> status[p] is Terminated) && (status[p].meets(Readiness::Drained) <==> status[p] is WriteWait
        && status[p]->pending == Seq::<u8>::empty()) by {
        law_who_calls_for_attention(status[p], Readiness::Terminated, Readiness::Drained);
        law_who_calls_for_attention(status[p], Readiness::Drained, Readiness::Drained);
    }
    if !uncontended(status, fds) {
        let (a, b) = choose|a: u64, b: u64|
            #![trigger writer_of(status, fds, a), writer_of(status, fds, b)]
            compete(status, fds, a, b);
        assert(writer_of(status, fds, a) == writer_of(status, fds, b));
    }
    if exists|a: u64, b: u64|
        {
            let w = #[trigger] writer_of(status, fds, a);
            &&& a != b
            &&& w is Some && #[trigger] writer_of(status, fds, b) == w
            &&& status[a]->missing > status[w->0]->pending.len()
            &&& status[b]->missing > 0
        } {
        let (a, b) = choose|a: u64, b: u64|
            {
                let w = #[trigger] writer_of(status, fds, a);
                &&& a != b
                &&& w is Some && #[trigger] writer_of(status, fds, b) == w
                &&& status[a]->missing > status[w->0]->pending.len()
                &&& status[b]->missing > 0
            };
        assert(compete(status, fds, a, b));
    }
}

/// The first process that the walk passes and that has ended is forgotten, and its parent is
/// woken, whatever the others wait for.
pub proof fn law_ended_come_first(
    status: Map<u64, StatusView>,
    fds: Map<u64, u64>,
    parents: Map<u64, u64>,
    order: Seq<u64>,
    i: int,
)
    requires
        0 <= i < order.len(),
        status[order[i]] is Terminated,
        forall|j: int| 0 <= j < i ==> !(status[#[trigger] order[j]] is Terminated),
    ensures
        ({
            let out = round(status, fds, parents, order);
            &&& out.woken == Some(parents[order[i]])
            &&& out.status == status.remove(order[i])
        }),
{
    law_walk_finds_the_first(status, order, Readiness::Terminated, i);
}

/// If nobody has ended, the first writer that the walk passes and that has nothing left is
/// woken and forgotten, before any byte moves.
pub proof fn law_emptied_come_next(
    status: Map<u64, StatusView>,
    fds: Map<u64, u64>,
    parents: Map<u64, u64>,
    order: Seq<u64>,
    i: int,
)
    requires
        forall|j: int| 0 <= j < order.len() ==> !(status[#[trigger] order[j]] is Terminated),
        0 <= i < order.len(),
        status[order[i]] is WriteWait && status[order[i]]->pending.len() == 0,
        forall|j: int|
            0 <= j < i && status[#[trigger] order[j]] is WriteWait ==> status[order[j]]->pending.len()
                > 0,
    ensures
        ({
            let out = round(status, fds, parents, order);
            &&& out.woken == Some(order[i])
            &&& out.status == status.remove(order[i])
        }),
{
    lemma_none_ready(status, order, Readiness::Terminated);
    law_walk_finds_the_first(status, order, Readiness::Drained, i);
}

/// If nobody of the walk meets a condition, none is found.
proof fn lemma_none_ready(status: Map<u64, StatusView>, order: Seq<u64>, want: Readiness)
    requires
        forall|j: int| 0 <= j < order.len() ==> !status[#[trigger] order[j]].meets(want),
    ensures
        first_ready(status, order, want) is None,
{
    lemma_first_where_none(order, |p: u64| status[p].meets(want));
}

/// The table after each of the readers in `done` has taken all that its writer had pending.
spec fn emptied(
    status: Map<u64, StatusView>,
    fds: Map<u64, u64>,
    done: Seq<u64>,
) -> Map<u64, StatusView> {
    Map::new(
        |p: u64| status.contains_key(p),
        |p: u64|
            if done.contains(p) {
                receive(status[p], status[writer_of(status, fds, p)->0]->pending)
            } else if fed_from(status, fds, done, p) {
                release(status[p], status[p]->pending.len())
            } else {
                status[p]
            },
    )
}

/// One of the readers takes bytes from `w`.
spec fn fed_from(
    status: Map<u64, StatusView>,
    fds: Map<u64, u64>,
    readers: Seq<u64>,
    w: u64,
) -> bool {
    exists|j: int| 0 <= j < readers.len() && writer_of(status, fds, #[trigger] readers[j]) == Some(w)
}

/// No two readers compete, writers have bytes, and the readers are distinct and have writers.
spec fn orderly(status: Map<u64, StatusView>, fds: Map<u64, u64>, readers: Seq<u64>) -> bool {
    &&& readers.no_duplicates()
    &&& forall|a: u64, b: u64|
        #![trigger writer_of(status, fds, a), writer_of(status, fds, b)]
        !compete(status, fds, a, b)
    &&& forall|p: u64| #[trigger]
        status.contains_key(p) && status[p] is WriteWait ==> status[p]->pending.len() > 0
    &&& forall|i: int|
        0 <= i < readers.len() ==> writer_of(status, fds, #[trigger] readers[i]) is Some
}

/// Serving readers of whom the first `k` miss more than there is: these take all, and serving
/// goes on with the others.
proof fn lemma_serve_past_unfilled(
    status: Map<u64, StatusView>,
    fds: Map<u64, u64>,
    readers: Seq<u64>,
    k: int,
)
    requires
        orderly(status, fds, readers),
        0 <= k <= readers.len(),
        forall|i: int|
            0 <= i < k ==> status[#[trigger] readers[i]]->missing > status[writer_of(
                status,
                fds,
                readers[i],
            )->0]->pending.len(),
    ensures
        serve(status, fds, readers) == serve(
            emptied(status, fds, readers.take(k)),
            fds,
            readers.skip(k),
        ),
        forall|x: u64| #[trigger]
            writer_of(emptied(status, fds, readers.take(k)), fds, x) == writer_of(status, fds, x),
    decreases k,
{
    let done = readers.take(k);
    let now = emptied(status, fds, done);
    assert forall|x: u64| #[trigger] writer_of(now, fds, x) == writer_of(status, fds, x) by {
        assert forall|p: u64| status.contains_key(p) && done.contains(p) implies status[p] is ReadWait by {
            let i = choose|i: int| 0 <= i < done.len() && done[i] == p;
            assert(writer_of(status, fds, readers[i]) is Some);
        }
        assert forall|p: u64| fed_from(status, fds, done, p) implies status[p] is WriteWait by {
            let j = choose|j: int|
                0 <= j < done.len() && writer_of(status, fds, #[trigger] done[j]) == Some(p);
        }
    }
    if k == 0 {
        assert(readers.skip(0) =~= readers);
        assert(now =~= status);
    } else {
        lemma_serve_past_unfilled(status, fds, readers, k - 1);
        let prior = readers.take(k - 1);
        let before = emptied(status, fds, prior);
        let r = readers[k - 1];
        let w = writer_of(status, fds, r)->0;
        lemma_untouched_until_now(status, fds, readers, k - 1);
        assert(readers.skip(k - 1)[0] == r);
        assert(readers.skip(k - 1).drop_first() =~= readers.skip(k));
        let after = hand_over(before, r, w);
        assert(writer_of(before, fds, r) == Some(w));
        let bytes = status[w]->pending;
        assert(bytes.take(bytes.len() as int) =~= bytes);
        assert(done =~= prior.push(r));
        assert forall|p: u64| status.contains_key(p) implies #[trigger] after[p] == now[p] by {
            assert(done.contains(p) <==> prior.contains(p) || p == r) by {
                if prior.contains(p) {
                    let i = choose|i: int| 0 <= i < prior.len() && prior[i] == p;
                    assert(done[i] == p);
                }
                assert(done[k - 1] == r);
            }
            assert(fed_from(status, fds, done, p) <==> fed_from(status, fds, prior, p) || p == w)
                by {
                if fed_from(status, fds, prior, p) {
                    let j = choose|j: int|
                        0 <= j < prior.len() && writer_of(status, fds, #[trigger] prior[j]) == Some(p);
                    assert(writer_of(status, fds, done[j]) == Some(p));
                }
                assert(writer_of(status, fds, done[k - 1]) == Some(w));
                if fed_from(status, fds, done, p) && p != w {
                    let j = choose|j: int|
                        0 <= j < done.len() && writer_of(status, fds, #[trigger] done[j]) == Some(p);
                    assert(writer_of(status, fds, prior[j]) == Some(p));
                }
            }
            if prior.contains(w) {
                let i = choose|i: int| 0 <= i < prior.len() && prior[i] == w;
                assert(writer_of(status, fds, readers[i]) is Some);
            }
        }
        assert(after.dom() =~= now.dom());
        assert(after =~= now);
    }
}

/// A reader whose turn it is has not changed, and neither has its writer, unless the reader
/// misses nothing.
proof fn lemma_untouched_until_now(
    status: Map<u64, StatusView>,
    fds: Map<u64, u64>,
    readers: Seq<u64>,
    k: int,
)
    requires
        orderly(status, fds, readers),
        0 <= k < readers.len(),
        forall|i: int|
            0 <= i < k ==> status[#[trigger] readers[i]]->missing > status[writer_of(
                status,
                fds,
                readers[i],
            )->0]->pending.len(),
    ensures
        ({
            let now = emptied(status, fds, readers.take(k));
            let r = readers[k];
            let w = writer_of(status, fds, r)->0;
            &&& now[r] == status[r]
            &&& status[r]->missing > 0 ==> now[w] == status[w] && !fed_from(
                status,
                fds,
                readers.take(k),
                w,
            )
            &&& now.contains_key(r) && now.contains_key(w)
        }),
{
    let done = readers.take(k);
    let r = readers[k];
    let w = writer_of(status, fds, r)->0;
    if done.contains(r) {
        let i = choose|i: int| 0 <= i < done.len() && done[i] == r;
        assert(readers[i] == readers[k]);
    }
    if fed_from(status, fds, done, r) {
        let j = choose|j: int|
            0 <= j < done.len() && writer_of(status, fds, #[trigger] done[j]) == Some(r);
    }
    if done.contains(w) {
        let i = choose|i: int| 0 <= i < done.len() && done[i] == w;
        assert(writer_of(status, fds, readers[i]) is Some);
    }
    if status[r]->missing > 0 && fed_from(status, fds, done, w) {
        let j = choose|j: int|
            0 <= j < done.len() && writer_of(status, fds, #[trigger] done[j]) == Some(w);
        assert(done[j] == readers[j]);
        assert(compete(status, fds, readers[j], r));
    }
}

/// The readers of a part of a walk are those that it passes and that have a writer.
proof fn lemma_readers_of_part(
    status: Map<u64, StatusView>,
    fds: Map<u64, u64>,
    part: Seq<u64>,
    p: u64,
)
    ensures
        matched_readers(status, fds, part).contains(p) <==> part.contains(p) && writer_of(
            status,
            fds,
            p,
        ) is Some,
{
    broadcast use vstd::seq_lib::group_filter_ensures;

    let matched = |x: u64| writer_of(status, fds, x) is Some;
    let readers = part.filter(matched);
    if readers.contains(p) {
        let i = choose|i: int| 0 <= i < readers.len() && readers[i] == p;
        assert(matched(readers[i]));
        part.lemma_filter_contains_rev(matched, p);
    }
    if part.contains(p) && writer_of(status, fds, p) is Some {
        let i = choose|i: int| 0 <= i < part.len() && part[i] == p;
        assert(matched(part[i]));
        assert(readers.contains(part[i]));
    }
}

/// In a round that moves bytes the readers are served in orderly fashion.
proof fn lemma_round_is_orderly(
    status: Map<u64, StatusView>,
    fds: Map<u64, u64>,
    order: Seq<u64>,
)
    requires
        is_walk(order, status.dom()),
        uncontended(status, fds),
        forall|p: u64| #[trigger]
            status.contains_key(p) ==> !(status[p] is Terminated) && (status[p] is WriteWait
                ==> status[p]->pending.len() > 0),
    ensures
        orderly(status, fds, matched_readers(status, fds, order)),
        first_ready(status, order, Readiness::Terminated) is None,
        first_ready(status, order, Readiness::Drained) is None,
{
    let readers = matched_readers(status, fds, order);
    lemma_matched_readers(status, fds, order);
    lemma_first_ready_iff(status, order, Readiness::Terminated);
    lemma_first_ready_iff(status, order, Readiness::Drained);
    assert forall|i: int| 0 <= i < readers.len() implies writer_of(
        status,
        fds,
        #[trigger] readers[i],
    ) is Some by {
        assert(readers.contains(readers[i]));
    }
}

/// Nobody has ended and every writer has bytes left. Then the first reader that the walk
/// passes and whose writer has enough for it is woken. It has received, after what it had,
/// exactly the first bytes that its writer had, as many as it missed. Each reader that the
/// walk passes earlier has received, after what it had, all that its writer had. Each later
/// reader, and whoever has no part in this, is left alone.
pub proof fn law_first_satisfied_reader_is_woken(
    status: Map<u64, StatusView>,
    fds: Map<u64, u64>,
    parents: Map<u64, u64>,
    order: Seq<u64>,
    i: int,
    j: int,
)
    requires
        is_walk(order, status.dom()),
        uncontended(status, fds),
        forall|p: u64| #[trigger]
            status.contains_key(p) ==> !(status[p] is Terminated) && (status[p] is WriteWait
                ==> status[p]->pending.len() > 0),
        0 <= i < order.len(),
        writer_of(status, fds, order[i]) is Some,
        status[order[i]]->missing <= status[writer_of(status, fds, order[i])->0]->pending.len(),
        forall|a: int|
            0 <= a < i && writer_of(status, fds, #[trigger] order[a]) is Some
                ==> status[order[a]]->missing > status[writer_of(
                status,
                fds,
                order[a],
            )->0]->pending.len(),
        0 <= j < order.len(),
    ensures
        ({
            let out = round(status, fds, parents, order);
            let n = status[order[i]]->missing as int;
            let w = writer_of(status, fds, order[i])->0;
            let p = order[j];
            let v = writer_of(status, fds, p);
            let (old, new) = (status[p], out.status[p]);
            let drained = exists|a: int|
                0 <= a < i && writer_of(status, fds, #[trigger] order[a]) == Some(p);
            &&& out.woken == Some(order[i])
            &&& out.status.dom() == status.dom()
            &&& j <= i && v is Some ==> {
                &&& new is ReadWait && new->ReadWait_fd == old->ReadWait_fd
                &&& new->ReadWait_tag == old->ReadWait_tag
            }
            &&& j < i && v is Some ==> {
                &&& new->received == old->received + status[v->0]->pending
                &&& new->missing + status[v->0]->pending.len() == old->missing
            }
            &&& j == i ==> {
                &&& new->received == old->received + status[w]->pending.take(n)
                &&& new->missing == 0
            }
            &&& p == w || drained ==> {
                &&& new is WriteWait && new->WriteWait_fd == old->WriteWait_fd
                &&& new->WriteWait_tag == old->WriteWait_tag
            }
            &&& drained ==> new->pending == Seq::<u8>::empty()
            &&& p == w && !drained ==> new->pending == old->pending.skip(n)
            &&& (v is None || j > i) && p != w && !drained ==> new == old
        }),
{
    let readers = matched_readers(status, fds, order);
    lemma_round_is_orderly(status, fds, order);
    let front = order.take(i);
    let back = order.skip(i);
    let done = matched_readers(status, fds, front);
    let k = done.len() as int;
    let r = order[i];
    let w = writer_of(status, fds, r)->0;
    assert(front + back =~= order);
    assert(seq![r] + order.skip(i + 1) =~= back);
    law_readers_keep_the_order(status, fds, front, back, r);
    law_readers_keep_the_order(status, fds, seq![r], order.skip(i + 1), r);
    assert(readers.take(k) =~= done);
    assert(readers[k] == r);
    assert forall|a: int| 0 <= a < k implies status[#[trigger] readers[a]]->missing > status[writer_of(
        status,
        fds,
        readers[a],
    )->0]->pending.len() by {
        assert(done[a] == readers[a]);
        assert(done.contains(readers[a]));
        lemma_readers_of_part(status, fds, front, readers[a]);
        let b = choose|b: int| 0 <= b < front.len() && front[b] == readers[a];
        assert(order[b] == readers[a]);
    }
    lemma_serve_past_unfilled(status, fds, readers, k);
    lemma_untouched_until_now(status, fds, readers, k);
    let now = emptied(status, fds, done);
    assert(readers.skip(k)[0] == r);
    let after = hand_over(now, r, w);
    assert(writer_of(now, fds, r) == Some(w));
    assert(serve(status, fds, readers) == (after, Some(r)));
    assert(after.dom() =~= status.dom());
    let p = order[j];
    assert(order.contains(p));
    lemma_readers_of_part(status, fds, front, p);
    assert(front.contains(p) <==> j < i) by {
        if j < i {
            assert(front[j] == p);
        } else if front.contains(p) {
            let b = choose|b: int| 0 <= b < front.len() && front[b] == p;
            assert(order[b] == order[j]);
        }
    }
    assert(fed_from(status, fds, done, p) <==> exists|a: int|
        0 <= a < i && writer_of(status, fds, #[trigger] order[a]) == Some(p)) by {
        if fed_from(status, fds, done, p) {
            let b = choose|b: int|
                0 <= b < done.len() && writer_of(status, fds, #[trigger] done[b]) == Some(p);
            assert(done.contains(done[b]));
            lemma_readers_of_part(status, fds, front, done[b]);
            let a = choose|a: int| 0 <= a < front.len() && front[a] == done[b];
            assert(writer_of(status, fds, order[a]) == Some(p));
        }
        if exists|a: int| 0 <= a < i && writer_of(status, fds, #[trigger] order[a]) == Some(p) {
            let a = choose|a: int|
                0 <= a < i && writer_of(status, fds, #[trigger] order[a]) == Some(p);
            assert(front[a] == order[a]);
            lemma_readers_of_part(status, fds, front, order[a]);
            let b = choose|b: int| 0 <= b < done.len() && done[b] == order[a];
            assert(writer_of(status, fds, done[b]) == Some(p));
        }
    }
    assert(status[p]->pending.skip(status[p]->pending.len() as int) =~= Seq::<u8>::empty());
    assert(order[i] == order[j] ==> i == j);
    assert(Seq::<u8>::empty().take(0) =~= Seq::<u8>::empty());
    assert(Seq::<u8>::empty().skip(0) =~= Seq::<u8>::empty());
    assert(status[w]->pending.take(0) =~= Seq::<u8>::empty());
    assert(status[w]->pending.skip(status[w]->pending.len() as int) =~= Seq::<u8>::empty());
    if fed_from(status, fds, done, w) {
        assert(!done.contains(w)) by {
            if done.contains(w) {
                let b = choose|b: int| 0 <= b < done.len() && done[b] == w;
                assert(writer_of(status, fds, readers[b]) is Some);
            }
        }
        assert(now[w]->pending =~= Seq::<u8>::empty());
        assert(status[r]->missing == 0);
    }
}

/// Nobody has ended, every writer has bytes left, and no reader's writer has enough for it,
/// but some reader has a writer. Then every reader that has a writer has received, after what
/// it had, all that its writer had; these writers have nothing left, and the first of them
/// that the walk passes is woken and forgotten. Whoever has no part in this is left alone.
pub proof fn law_unsatisfied_readers_take_all(
    status: Map<u64, StatusView>,
    fds: Map<u64, u64>,
    parents: Map<u64, u64>,
    order: Seq<u64>,
    i: int,
    a: int,
    j: int,
)
    requires
        is_walk(order, status.dom()),
        uncontended(status, fds),
        forall|p: u64| #[trigger]
            status.contains_key(p) ==> !(status[p] is Terminated) && (status[p] is WriteWait
                ==> status[p]->pending.len() > 0),
        forall|b: int|
            0 <= b < order.len() && writer_of(status, fds, #[trigger] order[b]) is Some
                ==> status[order[b]]->missing > status[writer_of(
                status,
                fds,
                order[b],
            )->0]->pending.len(),
        0 <= i < order.len(),
        0 <= a < order.len(),
        writer_of(status, fds, order[a]) == Some(order[i]),
        forall|b: int, c: int|
            0 <= b < order.len() && 0 <= c < i ==> writer_of(status, fds, #[trigger] order[b])
                != Some(#[trigger] order[c]),
        0 <= j < order.len(),
    ensures
        ({
            let out = round(status, fds, parents, order);
            let p = order[j];
            let v = writer_of(status, fds, p);
            let (old, new) = (status[p], out.status[p]);
            let drained = exists|b: int|
                0 <= b < order.len() && writer_of(status, fds, #[trigger] order[b]) == Some(p);
            &&& out.woken == Some(order[i])
            &&& out.status.dom() == status.dom().remove(order[i])
            &&& v is Some ==> {
                &&& new is ReadWait && new->ReadWait_fd == old->ReadWait_fd
                &&& new->ReadWait_tag == old->ReadWait_tag
                &&& new->received == old->received + status[v->0]->pending
                &&& new->missing + status[v->0]->pending.len() == old->missing
            }
            &&& drained && j != i ==> {
                &&& new is WriteWait && new->WriteWait_fd == old->WriteWait_fd
                &&& new->WriteWait_tag == old->WriteWait_tag
                &&& new->pending == Seq::<u8>::empty()
            }
            &&& v is None && !drained ==> new == old
        }),
{
    let readers = matched_readers(status, fds, order);
    lemma_round_is_orderly(status, fds, order);
    let k = readers.len() as int;
    assert(readers.take(k) =~= readers);
    assert(readers.skip(k) =~= Seq::<u64>::empty());
    assert forall|b: int| 0 <= b < k implies status[#[trigger] readers[b]]->missing > status[writer_of(
        status,
        fds,
        readers[b],
    )->0]->pending.len() by {
        assert(readers.contains(readers[b]));
        lemma_readers_of_part(status, fds, order, readers[b]);
        let c = choose|c: int| 0 <= c < order.len() && order[c] == readers[b];
        assert(order[c] == readers[b]);
    }
    lemma_serve_past_unfilled(status, fds, readers, k);
    let after = emptied(status, fds, readers);
    assert(serve(status, fds, readers) == (after, None::<u64>));
    assert forall|p: u64| #[trigger] fed_from(status, fds, readers, p) <==> exists|b: int|
        0 <= b < order.len() && writer_of(status, fds, #[trigger] order[b]) == Some(p) by {
        if fed_from(status, fds, readers, p) {
            let b = choose|b: int|
                0 <= b < readers.len() && writer_of(status, fds, #[trigger] readers[b]) == Some(p);
            assert(readers.contains(readers[b]));
            lemma_readers_of_part(status, fds, order, readers[b]);
            let c = choose|c: int| 0 <= c < order.len() && order[c] == readers[b];
            assert(writer_of(status, fds, order[c]) == Some(p));
        }
        if exists|b: int|
            0 <= b < order.len() && writer_of(status, fds, #[trigger] order[b]) == Some(p) {
            let b = choose|b: int|
                0 <= b < order.len() && writer_of(status, fds, #[trigger] order[b]) == Some(p);
            assert(order.contains(order[b]));
            lemma_readers_of_part(status, fds, order, order[b]);
            let c = choose|c: int| 0 <= c < readers.len() && readers[c] == order[b];
            assert(writer_of(status, fds, readers[c]) == Some(p));
        }
    }
    assert forall|c: int| 0 <= c < order.len() implies (after[#[trigger] order[c]].meets(
        Readiness::Drained,
    ) <==> fed_from(status, fds, readers, order[c])) by {
        let p = order[c];
        assert(order.contains(p));
        lemma_readers_of_part(status, fds, order, p);
        assert(status[p]->pending.skip(status[p]->pending.len() as int).len() == 0);
        if fed_from(status, fds, readers, p) {
            let b = choose|b: int|
                0 <= b < order.len() && writer_of(status, fds, #[trigger] order[b]) == Some(p);
            assert(status[p] is WriteWait);
        }
    }
    assert(fed_from(status, fds, readers, order[i]));
    assert forall|c: int| 0 <= c < i implies !after[#[trigger] order[c]].meets(
        Readiness::Drained,
    ) by {
        if fed_from(status, fds, readers, order[c]) {
            let b = choose|b: int|
                0 <= b < order.len() && writer_of(status, fds, #[trigger] order[b]) == Some(order[c]);
        }
    }
    law_walk_finds_the_first(after, order, Readiness::Drained, i);
    let p = order[j];
    assert(order.contains(p));
    assert(order.contains(order[i]));
    lemma_readers_of_part(status, fds, order, p);
    assert(status[p]->pending.skip(status[p]->pending.len() as int) =~= Seq::<u8>::empty());
    assert(after.remove(order[i]).dom() =~= status.dom().remove(order[i]));
    assert(order[i] == order[j] ==> i == j);
}

/// Nobody has ended, every writer has bytes left, and no reader has a writer. Then no wait
/// changes. The first reader that the walk passes and that misses nothing is woken; if there
/// is none, the first process that has started a child; if there is none, nobody.
pub proof fn law_quiet_round_changes_nothing(
    status: Map<u64, StatusView>,
    fds: Map<u64, u64>,
    parents: Map<u64, u64>,
    order: Seq<u64>,
    i: int,
)
    requires
        forall|j: int|
            0 <= j < order.len() ==> !(status[#[trigger] order[j]] is Terminated) && (
            status[order[j]] is WriteWait ==> status[order[j]]->pending.len() > 0),
        forall|j: int| 0 <= j < order.len() ==> writer_of(status, fds, #[trigger] order[j]) is None,
    ensures
        ({
            let out = round(status, fds, parents, order);
            let filled = exists|j: int|
                0 <= j < order.len() && status[#[trigger] order[j]] is ReadWait
                    && status[order[j]]->missing == 0;
            &&& out.status == status
            &&& 0 <= i < order.len() && status[order[i]] is ReadWait && status[order[i]]->missing == 0
                && (forall|j: int|
                0 <= j < i && status[#[trigger] order[j]] is ReadWait ==> status[order[j]]->missing > 0)
                ==> out.woken == Some(order[i])
            &&& 0 <= i < order.len() && !filled && status[order[i]] is WaitSpawn && (forall|j: int|
                0 <= j < i ==> !(status[#[trigger] order[j]] is WaitSpawn)) ==> out.woken == Some(
                order[i],
            )
            &&& !filled && (forall|j: int|
                0 <= j < order.len() ==> !(status[#[trigger] order[j]] is WaitSpawn))
                ==> out.woken is None
        }),
{
    lemma_none_ready(status, order, Readiness::Terminated);
    lemma_none_ready(status, order, Readiness::Drained);
    let matched = |x: u64| writer_of(status, fds, x) is Some;
    order.lemma_all_neg_filter_empty(matched);
    if !(exists|j: int|
        0 <= j < order.len() && status[#[trigger] order[j]] is ReadWait && status[order[j]]->missing
            == 0) {
        lemma_none_ready(status, order, Readiness::Filled);
    }
    if forall|j: int| 0 <= j < order.len() ==> !(status[#[trigger] order[j]] is WaitSpawn) {
        lemma_none_ready(status, order, Readiness::Spawned);
    }
    if 0 <= i < order.len() {
        law_walk_finds_the_first(status, order, Readiness::Filled, i);
        law_walk_finds_the_first(status, order, Readiness::Spawned, i);
    }
}

/// What a reader has received before a round it has after the round, in front. What follows is
/// the front of what its writer had pending, and the reader misses as many bytes fewer. The
/// writer is left with the rest, or, if there is no rest, may be gone.
pub proof fn law_received_bytes_stay_in_front(
    status: Map<u64, StatusView>,
    fds: Map<u64, u64>,
    parents: Map<u64, u64>,
    order: Seq<u64>,
    r: u64,
)
    requires
        is_walk(order, status.dom()),
        uncontended(status, fds),
        status.contains_key(r),
        status[r] is ReadWait,
    ensures
        ({
            let out = round(status, fds, parents, order).status;
            let w = writer_of(status, fds, r);
            let old = status[r]->received;
            let new = out[r]->received;
            let n = new.len() - old.len();
            &&& out.contains_key(r) && out[r] is ReadWait
            &&& n >= 0
            &&& new.take(old.len() as int) == old
            &&& out[r]->missing + n == status[r]->missing
            &&& n > 0 ==> {
                &&& w is Some
                &&& n <= status[w->0]->pending.len()
                &&& new.skip(old.len() as int) == status[w->0]->pending.take(n)
                &&& out[r]->missing == 0 || n == status[w->0]->pending.len()
                &&& out.contains_key(w->0) ==> out[w->0]->pending == status[w->0]->pending.skip(n)
                &&& !out.contains_key(w->0) ==> n == status[w->0]->pending.len()
            }
        }),
{
    law_reader_receives_from_front(status, fds, parents, order, r);
    let out = round(status, fds, parents, order).status;
    let old = status[r]->received;
    let new = out[r]->received;
    assert(new.take(old.len() as int) =~= old);
    if out[r] != status[r] {
        let w = writer_of(status, fds, r)->0;
        let n = portion(status, fds, r) as int;
        assert(new.skip(old.len() as int) =~= status[w]->pending.take(n));
    }
}

} // verus!
