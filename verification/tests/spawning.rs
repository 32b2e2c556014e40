use ckb_native_simulator::binary::{hash_name, Byte32, NativeBinaries};
use ckb_native_simulator::fd::Fd;
use ckb_native_simulator::spawn::{
    ckb_close, ckb_inherited_fds, ckb_pipe, ckb_process_id, ckb_spawn, prepare_spawn, read_fds,
    update_spawn_info, ProcessInfos, SpawnArgs, SpawnOutcome, CKB_INVALID_FD,
};

fn args(fds: &[u64]) -> SpawnArgs {
    SpawnArgs {
        argc: 2,
        argv: vec!["one".to_string(), "two".to_string(), "three".to_string()],
        process_id: 99,
        inherited_fds: fds.to_vec(),
    }
}

fn binaries_for(data: &[u8]) -> NativeBinaries {
    let mut binaries = NativeBinaries::new();
    let hash = Byte32(ckb_hash::blake2b_256(data));
    binaries.insert(hash_name(&hash), "libchild.so".to_string());
    binaries
}

#[test]
fn the_first_process_has_no_number_given() {
    let mut pid = None;
    assert_eq!(ckb_process_id(pid), 0);
    update_spawn_info(&mut pid, 4);
    assert_eq!(pid, Some(4));
    assert_eq!(ckb_process_id(pid), 4);
    assert_eq!(ProcessInfos::get_pid(Some(8)), 8);
}

#[test]
fn pipes_are_numbered_from_two() {
    let mut infos = ProcessInfos::default();
    let mut fds = [0u64; 2];
    assert_eq!(ckb_pipe(&mut infos, None, &mut fds), 0);
    assert_eq!(fds, [2, 3]);
    assert_eq!(ckb_pipe(&mut infos, Some(1), &mut fds), 0);
    assert_eq!(fds, [4, 5]);
    assert_eq!(infos.new_pipe(None), (Fd(6), Fd(7)));
    assert!(infos.has_numbers_left());
}

#[test]
fn only_the_owner_closes() {
    let mut infos = ProcessInfos::default();
    let mut fds = [0u64; 2];
    ckb_pipe(&mut infos, None, &mut fds);
    assert_eq!(ckb_close(&mut infos, Some(1), 2), CKB_INVALID_FD);
    assert_eq!(ckb_close(&mut infos, None, 2), 0);
    assert_eq!(ckb_close(&mut infos, None, 2), 6);
    assert_eq!(ckb_close(&mut infos, None, 100), 6);
    assert!(infos.close_pipe(Some(0), Fd(3)));
}

#[test]
fn numbers_of_processes_are_handed_out_in_turn() {
    let mut infos = ProcessInfos::default();
    assert_eq!(infos.get_new_pid(), 1);
    assert_eq!(infos.get_new_pid(), 2);
}

#[test]
fn the_list_of_pipe_ends_stops_at_zero() {
    assert_eq!(read_fds(&vec![0]), Vec::<Fd>::new());
    assert_eq!(read_fds(&vec![2, 5, 0]), vec![Fd(2), Fd(5)]);
    assert_eq!(read_fds(&vec![2, 0, 5, 0]), vec![Fd(2)]);
}

#[test]
fn a_spawn_is_made_ready() {
    let data = vec![1, 2, 3, 4, 5];
    let binaries = binaries_for(&data[1..3]);
    let mut infos = ProcessInfos::default();
    infos.new_pipe(None);
    infos.new_pipe(None);
    let mut spgs = args(&[2, 5, 0]);
    assert!(spgs.can_spawn(&infos));
    let outcome = ckb_spawn(&mut infos, 0, &Ok(data), 1 << 32 | 2, &binaries, &mut spgs);
    let plan = match outcome {
        SpawnOutcome::Ready(plan) => plan,
        _ => panic!("not ready"),
    };
    assert_eq!(plan.native_bin_path, "libchild.so");
    assert_eq!(plan.spawn_pid, 1);
    assert_eq!(plan.inherited_fds, vec![Fd(2), Fd(5)]);
    assert_eq!(plan.args, vec!["one".to_string(), "two".to_string()]);
    assert_eq!(spgs.process_id, 1);
    assert_eq!(spgs.argc, 2);
    // The child owns what it was handed, and nothing else.
    assert!(!infos.close_pipe(None, Fd(2)));
    assert!(infos.close_pipe(Some(1), Fd(2)));
    assert!(infos.close_pipe(Some(1), Fd(5)));
    assert!(!infos.close_pipe(Some(1), Fd(3)));
    assert!(infos.close_pipe(None, Fd(3)));
    assert_eq!(infos.get_new_pid(), 2);
}

#[test]
fn a_process_that_begins_knows_its_pipe_ends() {
    let mut infos = ProcessInfos::default();
    infos.new_pipe(None);
    let pid = infos.reserve(&vec![Fd(2), Fd(3)]);
    assert_eq!(pid, 1);
    assert!(!infos.has_inherited(Some(1)));
    infos.begin(pid, vec![Fd(2), Fd(3)]);
    assert!(infos.has_inherited(Some(1)));
    assert!(!infos.has_inherited(None));

    let mut room = [9u64; 4];
    assert_eq!(ckb_inherited_fds(&infos, Some(1), &mut room), 0);
    assert_eq!(room, [2, 3, 9, 9]);
    let mut room = [9u64; 1];
    assert_eq!(ckb_inherited_fds(&infos, Some(1), &mut room), 0);
    assert_eq!(room, [2]);
    assert_eq!(ckb_inherited_fds(&infos, Some(1), &mut []), 0);
}

#[test]
fn a_failed_fetch_spawns_nothing() {
    let mut infos = ProcessInfos::default();
    let mut spgs = args(&[0]);
    let binaries = NativeBinaries::new();
    let outcome = ckb_spawn(&mut infos, 0, &Err(3), 0, &binaries, &mut spgs);
    assert!(matches!(outcome, SpawnOutcome::Failed(3)));
    assert_eq!(spgs.process_id, 99);
    assert_eq!(infos.get_new_pid(), 1);
}

#[test]
fn an_unknown_place_spawns_nothing() {
    let mut infos = ProcessInfos::default();
    let mut spgs = args(&[0]);
    let binaries = NativeBinaries::new();
    let outcome = ckb_spawn(&mut infos, 2, &Ok(vec![]), 0, &binaries, &mut spgs);
    assert!(matches!(outcome, SpawnOutcome::Failed(1)));
    assert_eq!(spgs.process_id, 99);
}

#[test]
fn an_unlisted_binary_spawns_nothing() {
    let mut infos = ProcessInfos::default();
    let mut spgs = args(&[0]);
    let binaries = binaries_for(&[1]);
    let hash = Byte32([0xfe; 32]);
    let outcome = prepare_spawn(&mut infos, &hash, &binaries, &mut spgs);
    match outcome {
        SpawnOutcome::NoBinary(name) => assert_eq!(name, "fe".repeat(32)),
        _ => panic!("found a binary"),
    }
    assert_eq!(spgs.process_id, 99);
    assert_eq!(infos.get_new_pid(), 1);
}

#[test]
fn unfit_arguments_are_noticed() {
    let mut infos = ProcessInfos::default();
    assert!(args(&[0]).can_spawn(&infos));
    // The list does not end.
    assert!(!args(&[]).can_spawn(&infos));
    // The pipe end is not open.
    assert!(!args(&[2, 0]).can_spawn(&infos));
    infos.new_pipe(None);
    assert!(args(&[2, 0]).can_spawn(&infos));
    // Fewer arguments than announced.
    let mut short = args(&[0]);
    short.argc = 4;
    assert!(!short.can_spawn(&infos));
}
