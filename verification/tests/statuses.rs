use ckb_native_simulator::fd::Fd;
use ckb_native_simulator::status::{ProcStatus, Readiness};

#[test]
fn a_new_process_is_loaded() {
    assert_eq!(ProcStatus::default(), ProcStatus::Loaded);
}

#[test]
fn a_reader_shows_its_read() {
    let mut s = ProcStatus::ReadWait(Fd(2), 5, vec![1, 2], 7);
    let (fd, len, buf) = s.read_wait().unwrap();
    assert_eq!((*fd, *len, buf), (Fd(2), 5, &[1u8, 2][..]));
    assert!(s.write_wait().is_none());
    assert!(s.write_wait_mut().is_none());
    {
        let (_, len, buf) = s.read_wait_mut().unwrap();
        *len = 4;
        buf.push(3);
    }
    assert_eq!(s, ProcStatus::ReadWait(Fd(2), 4, vec![1, 2, 3], 7));
}

#[test]
fn a_writer_shows_its_write() {
    let mut s = ProcStatus::WriteWait(Fd(3), vec![8, 9], 1);
    let (fd, buf) = s.write_wait().unwrap();
    assert_eq!((*fd, buf), (Fd(3), &[8u8, 9][..]));
    assert!(s.read_wait().is_none());
    assert!(s.read_wait_mut().is_none());
    {
        let (_, buf) = s.write_wait_mut().unwrap();
        buf.clear();
    }
    assert_eq!(s, ProcStatus::WriteWait(Fd(3), vec![], 1));
}

#[test]
fn conditions_are_told_apart() {
    let all = [Readiness::Terminated, Readiness::Drained, Readiness::Filled, Readiness::Spawned];
    let cases = [
        (ProcStatus::Terminated, Some(Readiness::Terminated)),
        (ProcStatus::WriteWait(Fd(3), vec![], 0), Some(Readiness::Drained)),
        (ProcStatus::WriteWait(Fd(3), vec![1], 0), None),
        (ProcStatus::ReadWait(Fd(2), 0, vec![1], 0), Some(Readiness::Filled)),
        (ProcStatus::ReadWait(Fd(2), 1, vec![], 0), None),
        (ProcStatus::WaitSpawn, Some(Readiness::Spawned)),
        (ProcStatus::Loaded, None),
    ];
    for (status, met) in cases.iter() {
        for want in all.iter() {
            assert_eq!(status.meets(*want), *met == Some(*want));
        }
    }
}
