//! Pipe file descriptors.

use vstd::prelude::*;
use vstd::std_specs::convert::{FromSpec, FromSpecImpl};

verus! {

/// One end of a pipe. A pipe takes two neighbouring numbers: the even one is
/// its read end, the odd one its write end.
#[derive(Copy, Clone, Debug, PartialEq, Eq, Hash, PartialOrd, Ord, Structural)]
pub struct Fd(pub u64);

/// The number of the opposite end of the pipe that `fd` belongs to.
pub open spec fn opposite(fd: u64) -> u64 {
    if fd % 2 == 0 {
        (fd + 1) as u64
    } else {
        (fd - 1) as u64
    }
}

/// Flipping the lowest bit moves between the two ends of a pipe.
proof fn lemma_flip_lowest_bit(x: u64)
    ensures
        x ^ 0x1 == opposite(x),
{
    assert(x % 2 == 0 ==> x ^ 0x1 == x + 1) by (bit_vector);
    assert(x % 2 == 1 ==> x ^ 0x1 == x - 1) by (bit_vector);
}

impl Fd {
    /// The two ends of a new pipe in the slot that starts at `slot`, and the
    /// slot that comes after it.
    pub fn create(slot: u64) -> (res: (Fd, Fd, u64))
        requires
            slot + 2 <= u64::MAX,
        ensures
            res.0 == Fd(slot),
            res.1.0 == slot + 1,
            res.2 == slot + 2,
    {
        (Fd(slot), Fd(slot + 1), slot + 2)
    }

    /// The opposite end of the same pipe.
    pub fn other_fd(&self) -> (res: Fd)
        ensures
            res == Fd(opposite(self.0)),
    {
        proof {
            lemma_flip_lowest_bit(self.0);
        }
        Fd(self.0 ^ 0x1)
    }

    /// Whether this is a read end.
    pub fn is_read(&self) -> (res: bool)
        ensures
            res <==> self.0 % 2 == 0,
    {
        self.0 % 2 == 0
    }

    /// Whether this is a write end.
    pub fn is_write(&self) -> (res: bool)
        ensures
            res <==> self.0 % 2 == 1,
    {
        self.0 % 2 == 1
    }
}

impl From<u64> for Fd {
    fn from(value: u64) -> (res: Self) {
        Fd(value)
    }
}

impl FromSpecImpl<u64> for Fd {
    open spec fn obeys_from_spec() -> bool {
        true
    }

    open spec fn from_spec(value: u64) -> Self {
        Fd(value)
    }
}

impl From<Fd> for u64 {
    fn from(value: Fd) -> (res: Self) {
        value.0
    }
}

impl FromSpecImpl<Fd> for u64 {
    open spec fn obeys_from_spec() -> bool {
        true
    }

    open spec fn from_spec(value: Fd) -> Self {
        value.0
    }
}

/// The opposite of the opposite end is the end itself; the two ends are neighbours, those
/// numbers that are the same when halved; and exactly one of them is a read end.
pub proof fn law_ends_are_paired(fd: u64)
    ensures
        opposite(opposite(fd)) == fd,
        opposite(fd) != fd,
        opposite(fd) / 2 == fd / 2,
        fd % 2 == 0 <==> opposite(fd) % 2 == 1,
{
}

/// A number and the pipe end that it stands for convert into each other, and each way back
/// gives what was there before.
pub proof fn law_ends_are_numbers(n: u64, fd: Fd)
    ensures
        <Fd as FromSpec<u64>>::from_spec(n).0 == n,
        <u64 as FromSpec<Fd>>::from_spec(fd) == fd.0,
        <u64 as FromSpec<Fd>>::from_spec(<Fd as FromSpec<u64>>::from_spec(n)) == n,
{
}

} // verus!
