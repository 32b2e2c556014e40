use ckb_native_simulator::context::{ProcInfo, SimContext};
use ckb_native_simulator::fd::Fd;
use ckb_native_simulator::ids::{ProcID, SimID, ThreadContext};

type Sim = SimContext<&'static str>;

fn running(pid: u64) -> ThreadContext {
    ThreadContext { sim_id: SimID(1), proc_id: ProcID(pid) }
}

/// The first process with a child that reads from it: the simulation, and the two ends of
/// the pipe.
fn parent_and_child() -> (Sim, Fd, Fd) {
    let mut sim = Sim::default();
    let (r, w) = sim.new_pipe(&running(0));
    let child = sim.start_process(&running(0), &[r]);
    assert_eq!(child, ProcID(1));
    (sim, r, w)
}

#[test]
fn a_thread_knows_what_it_runs() {
    let mut ctx = ThreadContext::default();
    assert_eq!(Sim::ctx_id(&ctx), SimID(0));
    assert_eq!(Sim::pid(&ctx), ProcID(0));
    Sim::update_ctx_id(&mut ctx, SimID(5), None);
    assert_eq!(ctx, ThreadContext { sim_id: SimID(5), proc_id: ProcID(0) });
    Sim::update_ctx_id(&mut ctx, SimID(6), Some(ProcID(3)));
    assert_eq!(ctx, ThreadContext { sim_id: SimID(6), proc_id: ProcID(3) });
    assert_eq!(Sim::ctx_id(&ctx), SimID(6));
    assert_eq!(ProcInfo::<u8>::id(&ctx), ProcID(3));
    ProcInfo::<u8>::set_pid(&mut ctx, ProcID(9));
    assert_eq!(Sim::pid(&ctx), ProcID(9));
    Sim::clean(&mut ctx);
    assert_eq!(ctx, ThreadContext::default());
}

#[test]
fn a_new_simulation_runs_its_first_process() {
    let mut ctx = running(7);
    let sim = Sim::new_in(&mut ctx);
    assert_eq!(ctx, ThreadContext { sim_id: SimID(1), proc_id: ProcID(0) });
    assert!(sim.has_proc(&ProcID(0)));
    assert!(!sim.has_proc(&ProcID(1)));
    assert_eq!(sim.len_pipe(), 0);
    assert_eq!(sim.inherited_fds(&ctx), Vec::<Fd>::new());
    assert!(!sim.max_proc_spawned());
    assert!(sim.is_linked());
    assert!(sim.has_numbers_left());
}

#[test]
fn process_numbers_are_handed_out_in_turn() {
    let mut id = ProcID::from(1);
    assert_eq!(id.next(), ProcID(1));
    assert_eq!(id.next(), ProcID(2));
    assert_eq!(u64::from(id), 3);
}

#[test]
fn new_pipes_have_fresh_numbers() {
    let mut sim = Sim::default();
    assert_eq!(sim.new_pipe(&running(0)), (Fd(2), Fd(3)));
    assert_eq!(sim.new_pipe(&running(0)), (Fd(4), Fd(5)));
    assert_eq!(sim.len_pipe(), 4);
    assert!(sim.has_fd(&running(0), &Fd(5)));
    assert!(!sim.has_fd(&running(1), &Fd(5)));
    assert!(!sim.has_fd(&running(0), &Fd(6)));
}

#[test]
fn closing_both_ends_undoes_opening() {
    let mut sim = Sim::default();
    let (r, w) = sim.new_pipe(&running(0));
    assert!(sim.chech_other_fd(&r));
    assert!(!sim.close_pipe(&running(1), w));
    assert!(sim.close_pipe(&running(0), w));
    assert!(!sim.chech_other_fd(&r));
    assert!(sim.chech_other_fd(&w));
    assert!(!sim.close_pipe(&running(0), w));
    assert!(sim.close_pipe(&running(0), r));
    assert_eq!(sim.len_pipe(), 0);
    assert_eq!(sim.new_pipe(&running(0)), (Fd(4), Fd(5)));
}

#[test]
fn a_child_owns_what_it_is_handed() {
    let mut sim = Sim::default();
    let (r1, w1) = sim.new_pipe(&running(0));
    let (r2, w2) = sim.new_pipe(&running(0));
    let child = sim.start_process(&running(0), &[r1, w2]);
    assert_eq!(child, ProcID(1));
    assert!(sim.has_proc(&child));
    assert_eq!(sim.inherited_fds(&running(1)), vec![r1, w2]);
    for fd in [r1, w2].iter() {
        assert!(sim.has_fd(&running(1), fd));
        assert!(!sim.has_fd(&running(0), fd));
    }
    for fd in [w1, r2].iter() {
        assert!(sim.has_fd(&running(0), fd));
        assert!(!sim.has_fd(&running(1), fd));
    }
    assert_eq!(sim.get_event(&running(1)), ProcID(1));
}

#[test]
fn a_pipe_end_can_be_moved() {
    let mut sim = Sim::default();
    let (r, _) = sim.new_pipe(&running(0));
    sim.move_pipe(&r, ProcID(4));
    assert!(sim.has_fd(&running(4), &r));
    assert!(!sim.has_fd(&running(0), &r));
}

#[test]
fn a_simulation_fills_up() {
    let mut sim = Sim::default();
    for n in 1..=16u64 {
        assert!(!sim.max_proc_spawned());
        assert_eq!(sim.start_process(&running(0), &[]), ProcID(n));
    }
    assert!(sim.max_proc_spawned());
}

#[test]
fn a_handle_is_taken_once() {
    let mut sim = Sim::default();
    let child = sim.start_process(&running(0), &[]);
    assert_eq!(sim.exit(&child), None);
    sim.set_join_handle(&child, "thread");
    assert_eq!(sim.exit(&child), Some("thread"));
    assert_eq!(sim.exit(&child), None);
}

#[test]
fn a_spawner_resumes_when_nothing_else_is_to_do() {
    let (mut sim, r, _) = parent_and_child();
    let waited = sim.wait_read(&running(1), r, 3);
    assert_eq!(waited.event, ProcID(1));
    assert_eq!(waited.woken, Some(ProcID(0)));
}

#[test]
fn an_idle_round_wakes_nobody() {
    let mut sim = Sim::default();
    assert_eq!(sim.process_io(), None);
    let (r, _) = sim.new_pipe(&running(0));
    let waited = sim.wait_read(&running(0), r, 1);
    assert_eq!(waited.woken, None);
    assert_eq!(sim.process_io(), None);
}

#[test]
fn a_read_gives_back_what_was_written() {
    let (mut sim, r, w) = parent_and_child();
    sim.wait_read(&running(1), r, 3);
    let waited = sim.wait_write(&running(0), w, &[1, 2, 3, 4, 5]);
    assert_eq!(waited.event, ProcID(0));
    assert_eq!(waited.woken, Some(ProcID(1)));
    assert_eq!(sim.read_cache(&r), vec![1, 2, 3]);
    // The rest stays with the writer, in order.
    let waited = sim.wait_read(&running(1), r, 2);
    assert_eq!(waited.woken, Some(ProcID(1)));
    assert_eq!(sim.read_cache(&r), vec![4, 5]);
    // The writer has nothing left and goes on.
    assert_eq!(sim.process_io(), Some(ProcID(0)));
    assert_eq!(sim.process_io(), None);
}

#[test]
fn a_write_may_come_first() {
    let mut sim = Sim::default();
    let (r, w) = sim.new_pipe(&running(0));
    sim.start_process(&running(0), &[w]);
    let waited = sim.wait_write(&running(1), w, &[7, 8]);
    assert_eq!(waited.woken, Some(ProcID(0)));
    let waited = sim.wait_read(&running(0), r, 2);
    assert_eq!(waited.woken, Some(ProcID(0)));
    assert_eq!(sim.read_cache(&r), vec![7, 8]);
    assert_eq!(sim.process_io(), Some(ProcID(1)));
}

#[test]
fn a_long_read_takes_several_writes() {
    let (mut sim, r, w) = parent_and_child();
    sim.wait_read(&running(1), r, 5);
    // All is taken, and the writer goes on.
    assert_eq!(sim.wait_write(&running(0), w, &[1, 2]).woken, Some(ProcID(0)));
    assert_eq!(sim.wait_write(&running(0), w, &[3]).woken, Some(ProcID(0)));
    assert_eq!(sim.wait_write(&running(0), w, &[4, 5, 6]).woken, Some(ProcID(1)));
    assert_eq!(sim.read_cache(&r), vec![1, 2, 3, 4, 5]);
}

#[test]
fn an_interrupted_read_gives_what_there_is() {
    let (mut sim, r, w) = parent_and_child();
    sim.wait_read(&running(1), r, 5);
    sim.wait_write(&running(0), w, &[1, 2]);
    assert_eq!(sim.read_cache(&r), vec![1, 2]);
    assert_eq!(sim.read_cache(&r), Vec::<u8>::new());
}

#[test]
fn reading_where_nobody_waits_gives_nothing() {
    let mut sim = Sim::default();
    assert_eq!(sim.read_cache(&Fd(2)), Vec::<u8>::new());
}

#[test]
fn an_empty_write_goes_on_at_once() {
    let (mut sim, r, w) = parent_and_child();
    sim.wait_read(&running(1), r, 1);
    assert_eq!(sim.wait_write(&running(0), w, &[]).woken, Some(ProcID(0)));
    assert_eq!(sim.read_cache(&r), Vec::<u8>::new());
}

#[test]
fn a_read_of_nothing_goes_on_at_once() {
    let mut sim = Sim::default();
    let (r, _) = sim.new_pipe(&running(0));
    assert_eq!(sim.wait_read(&running(0), r, 0).woken, Some(ProcID(0)));
    assert_eq!(sim.read_cache(&r), Vec::<u8>::new());
}

#[test]
fn the_end_of_a_process_wakes_its_parent() {
    let mut sim = Sim::default();
    let (r, w) = sim.new_pipe(&running(0));
    sim.start_process(&running(0), &[w]);
    sim.start_process(&running(1), &[]);
    sim.wait_read(&running(0), r, 1);
    assert_eq!(sim.end_process(&ProcID(2)), Some(ProcID(1)));
    assert!(sim.has_fd(&running(1), &w));
    assert_eq!(sim.end_process(&ProcID(1)), Some(ProcID(0)));
    assert!(!sim.has_fd(&running(1), &w));
    assert!(sim.has_fd(&running(0), &r));
    assert!(!sim.chech_other_fd(&r));
    assert_eq!(sim.len_pipe(), 1);
    assert!(sim.has_proc(&ProcID(1)));
}

#[test]
fn an_ended_process_loses_its_pipe_ends() {
    let mut sim = Sim::default();
    let (r, w) = sim.new_pipe(&running(0));
    sim.new_pipe(&running(0));
    sim.start_process(&running(0), &[r, w]);
    sim.close_all(&ProcID(1));
    assert_eq!(sim.len_pipe(), 2);
    assert!(!sim.has_fd(&running(1), &r));
    assert!(sim.has_fd(&running(0), &Fd(4)));
    assert_eq!(sim.process_io(), Some(ProcID(0)));
}

#[test]
fn the_walk_decides_among_the_ended() {
    for order in [vec![0, 1, 2], vec![2, 1, 0]].iter() {
        let mut sim = Sim::default();
        sim.start_process(&running(0), &[]);
        sim.start_process(&running(1), &[]);
        sim.close_all(&ProcID(1));
        sim.close_all(&ProcID(2));
        let first = if order[0] == 0 { ProcID(0) } else { ProcID(1) };
        assert_eq!(sim.process_io_along(order), Some(first));
    }
}

#[test]
fn only_one_of_two_readers_is_served() {
    let mut sim = Sim::default();
    let (r1, w1) = sim.new_pipe(&running(0));
    let (r2, _w2) = sim.new_pipe(&running(0));
    sim.start_process(&running(0), &[r1]);
    sim.start_process(&running(0), &[r2]);
    sim.wait_read(&running(1), r1, 2);
    sim.wait_read(&running(2), r2, 2);
    // Both read from the first process, and both could be served in full.
    assert!(sim.can_wait_write(&running(0), &w1, &[1, 2, 3]));
    sim.wait_write(&running(0), w1, &[1, 2, 3]);
    let got = (sim.read_cache(&r1), sim.read_cache(&r2));
    assert!(got == (vec![1, 2], vec![]) || got == (vec![], vec![1, 2]));
}

#[test]
fn bytes_go_to_whoever_reads_from_the_writer() {
    let mut sim = Sim::default();
    let (r1, _w1) = sim.new_pipe(&running(0));
    let (_r2, w2) = sim.new_pipe(&running(0));
    sim.start_process(&running(0), &[r1]);
    sim.wait_read(&running(1), r1, 2);
    // The first process owns both write ends, and the child waits for it.
    assert_eq!(sim.wait_write(&running(0), w2, &[5, 6]).woken, Some(ProcID(1)));
    assert_eq!(sim.read_cache(&r1), vec![5, 6]);
}

#[test]
fn bytes_stay_in_the_pipe_of_a_writer_with_one_pipe() {
    let mut sim = Sim::default();
    let (r1, w1) = sim.new_pipe(&running(0));
    let (r2, w2) = sim.new_pipe(&running(0));
    sim.start_process(&running(0), &[w1]);
    sim.start_process(&running(0), &[w2]);
    sim.start_process(&running(0), &[r1]);
    sim.start_process(&running(0), &[r2]);
    sim.wait_read(&running(3), r1, 1);
    sim.wait_read(&running(4), r2, 1);
    assert_eq!(sim.wait_write(&running(2), w2, &[9]).woken, Some(ProcID(4)));
    assert_eq!(sim.read_cache(&r1), Vec::<u8>::new());
    assert_eq!(sim.read_cache(&r2), vec![9]);
}

#[test]
fn the_walk_decides_whose_bytes_are_read() {
    for order in [vec![0, 1], vec![1, 0]].iter() {
        let mut sim = Sim::default();
        let (r, w) = sim.new_pipe(&running(0));
        sim.start_process(&running(0), &[w]);
        // A second process waits to read from the same end, which it does not own.
        sim.wait_read(&running(0), r, 1);
        sim.wait_read(&running(1), r, 2);
        assert_eq!(sim.read_cache_along(order, &r), Vec::<u8>::new());
        assert_eq!(sim.read_cache_along(&vec![order[1]], &r), Vec::<u8>::new());
        assert_eq!(sim.read_cache_along(&vec![], &r), Vec::<u8>::new());
    }
}

#[test]
fn readers_that_compete_are_found() {
    let mut sim = Sim::default();
    let (r1, w1) = sim.new_pipe(&running(0));
    let (r2, _w2) = sim.new_pipe(&running(0));
    sim.start_process(&running(0), &[r1]);
    sim.start_process(&running(0), &[r2]);
    sim.wait_read(&running(1), r1, 4);
    assert!(sim.can_wait_read(&running(2), &r2, 4));
    sim.wait_read(&running(2), r2, 1);
    // The first reader would take all three bytes and still miss one.
    assert!(!sim.can_wait_write(&running(0), &w1, &[1, 2, 3]));
    assert!(sim.can_wait_write(&running(0), &w1, &[1, 2, 3, 4]));
    assert!(sim.can_wait_write(&running(0), &w1, &[]));
}

#[test]
fn a_served_reader_does_not_compete() {
    let mut sim = Sim::default();
    let (r1, w1) = sim.new_pipe(&running(0));
    let (r2, _w2) = sim.new_pipe(&running(0));
    sim.start_process(&running(0), &[r1]);
    sim.start_process(&running(0), &[r2]);
    sim.wait_write(&running(0), w1, &[1, 2, 3]);
    assert!(sim.can_wait_read(&running(1), &r1, 9));
    assert_eq!(sim.wait_read(&running(1), r1, 2).woken, Some(ProcID(1)));
    // The first reader has what it wants; its wait does not stand in the way.
    assert!(sim.can_wait_read(&running(2), &r2, 1));
    assert!(sim.can_wait_read(&running(2), &r2, 2));
}

#[test]
fn unknown_processes_are_noticed() {
    let mut sim = Sim::default();
    sim.start_process(&running(5), &[]);
    assert!(!sim.is_linked());
}
