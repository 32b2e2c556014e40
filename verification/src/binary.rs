//! Native binaries: which part of the chain's data names one, and where it lies.

use vstd::prelude::*;
use vstd::slice::slice_subrange;

use crate::outside::{blake2b_256, blake2b_digest, hex_string, raw_data};

verus! {

/// The code that a fetch or a spawn gives for a place that does not exist.
pub const INDEX_OUT_OF_BOUND: i32 = 1;

/// A hash.
#[derive(Copy, Clone, Debug, PartialEq, Eq)]
pub struct Byte32(pub [u8; 32]);

impl View for Byte32 {
    type V = Seq<u8>;

    open spec fn view(&self) -> Seq<u8> {
        self.0@
    }
}

/// Where the data of a binary is kept.
#[derive(Copy, Clone, Debug, PartialEq, Eq, Structural)]
pub enum Place {
    /// In the data of a cell.
    Cell,
    /// In a witness.
    Witness,
}

/// The place that a number stands for.
pub open spec fn place_of(place: usize) -> Option<Place> {
    if place == 0 {
        Some(Place::Cell)
    } else if place == 1 {
        Some(Place::Witness)
    } else {
        None
    }
}

/// The place that a number stands for, or the code for a place that does not exist.
pub fn locate(place: usize) -> (res: Result<Place, i32>)
    ensures
        match place_of(place) {
            Some(p) => res == Ok::<Place, i32>(p),
            None => res == Err::<Place, i32>(INDEX_OUT_OF_BOUND),
        },
{
    match place {
        0 => Ok(Place::Cell),
        1 => Ok(Place::Witness),
        _ => Err(INDEX_OUT_OF_BOUND),
    }
}

/// The part of `data` that `bounds` selects. The high half of `bounds` is the offset
/// and the low 32 bits are the length; a length of zero means all that follows, and
/// what lies beyond the end of the data is left out.
pub open spec fn selected(data: Seq<u8>, bounds: usize) -> Seq<u8> {
    let wanted = bounds as int / 0x1_0000_0000;
    let length = bounds as int % 0x1_0000_0000;
    let offset = if wanted < data.len() {
        wanted
    } else {
        data.len() as int
    };
    if length > 0 && offset + length < data.len() {
        data.subrange(offset, offset + length)
    } else {
        data.skip(offset)
    }
}

/// The part of `data` that `bounds` selects.
pub fn select(data: &[u8], bounds: usize) -> (res: &[u8])
    ensures
        res@ == selected(data@, bounds),
{
    let all = bounds as u64;
    proof {
        assert(all >> 32 == all / 0x1_0000_0000) by (bit_vector);
        assert(all as u32 == all % 0x1_0000_0000) by (bit_vector);
    }
    let offset = (all >> 32) as usize;
    let length = (all as u32) as usize;
    let offset = if offset < data.len() {
        offset
    } else {
        data.len()
    };
    let full_length = data.len() - offset;
    let real_length = if length > 0 {
        if full_length < length {
            full_length
        } else {
            length
        }
    } else {
        full_length
    };
    assert(data@.subrange(offset as int, data@.len() as int) =~= data@.skip(offset as int));
    slice_subrange(data, offset, offset + real_length)
}

/// The hash of the part that `bounds` selects of what was fetched from `place`.
///
/// `fetched` holds the data of the cell, or the code with which fetching the cell
/// failed, or the witness; for a place that does not exist it is not looked at.
pub fn get_hash(place: usize, fetched: &Result<Vec<u8>, i32>, bounds: usize) -> (res: Result<
    Byte32,
    i32,
>)
    requires
        place_of(place) == Some(Place::Witness) ==> fetched is Ok,
    ensures
        match place_of(place) {
            Some(_) => match *fetched {
                Ok(data) => res is Ok && res->Ok_0@ == blake2b_digest(selected(data@, bounds)),
                Err(code) => res == Err::<Byte32, i32>(code),
            },
            None => res == Err::<Byte32, i32>(INDEX_OUT_OF_BOUND),
        },
{
    match locate(place) {
        Ok(_) => match fetched {
            Ok(data) => Ok(Byte32(blake2b_256(select(data.as_slice(), bounds)))),
            Err(code) => Err(*code),
        },
        Err(code) => Err(code),
    }
}

/// The digit for a number below sixteen.
pub open spec fn hex_digit(n: int) -> char {
    if n < 10 {
        ('0' as int + n) as char
    } else {
        ('a' as int + n - 10) as char
    }
}

/// Two digits for each byte, the high half first.
pub open spec fn lower_hex(bytes: Seq<u8>) -> Seq<char> {
    Seq::new(
        2 * bytes.len(),
        |i: int|
            hex_digit(
                if i % 2 == 0 {
                    bytes[i / 2] as int / 16
                } else {
                    bytes[i / 2] as int % 16
                },
            ),
    )
}

/// The name under which a binary with this hash is listed.
pub fn hash_name(hash: &Byte32) -> (res: String)
    ensures
        res@ == lower_hex(hash@),
{
    let raw = raw_data(hash);
    hex_string(raw.as_slice())
}

/// Where the native binaries lie: a list of names, each with a path.
pub struct NativeBinaries {
    entries: Vec<(String, String)>,
}

/// The path that stands first in the list under `name`.
spec fn listed(entries: Seq<(String, String)>, name: Seq<char>) -> Option<Seq<char>>
    decreases entries.len(),
{
    if entries.len() == 0 {
        None
    } else if entries[0].0@ == name {
        Some(entries[0].1@)
    } else {
        listed(entries.drop_first(), name)
    }
}

impl View for NativeBinaries {
    type V = Map<Seq<char>, Seq<char>>;

    closed spec fn view(&self) -> Map<Seq<char>, Seq<char>> {
        Map::new(
            |name: Seq<char>| listed(self.entries@, name) is Some,
            |name: Seq<char>| listed(self.entries@, name)->0,
        )
    }
}

/// What is listed under a name stands at the first index that has the name.
proof fn lemma_listed_at(entries: Seq<(String, String)>, name: Seq<char>, i: int)
    requires
        0 <= i <= entries.len(),
        forall|j: int| 0 <= j < i ==> (#[trigger] entries[j]).0@ != name,
    ensures
        i < entries.len() && entries[i].0@ == name ==> listed(entries, name) == Some(
            entries[i].1@,
        ),
        i == entries.len() ==> listed(entries, name) is None,
    decreases entries.len(),
{
    if i > 0 {
        let rest = entries.drop_first();
        assert forall|j: int| 0 <= j < i - 1 implies (#[trigger] rest[j]).0@ != name by {
            assert(rest[j] == entries[j + 1]);
        }
        lemma_listed_at(rest, name, i - 1);
    }
}

/// Lists that agree on a name where it comes first agree on what is listed under it.
proof fn lemma_listed_same(
    a: Seq<(String, String)>,
    b: Seq<(String, String)>,
    name: Seq<char>,
)
    requires
        a.len() <= b.len(),
        forall|i: int|
            0 <= i < a.len() ==> (#[trigger] a[i]).0@ == b[i].0@ && (a[i].0@ == name ==> a[i].1@
                == b[i].1@),
        forall|i: int| a.len() <= i < b.len() ==> (#[trigger] b[i]).0@ != name,
    ensures
        listed(a, name) == listed(b, name),
    decreases b.len(),
{
    if a.len() > 0 {
        if a[0].0@ != name {
            let (x, y) = (a.drop_first(), b.drop_first());
            assert forall|i: int| 0 <= i < x.len() implies (#[trigger] x[i]).0@ == y[i].0@ && (
            x[i].0@ == name ==> x[i].1@ == y[i].1@) by {
                assert(x[i] == a[i + 1] && y[i] == b[i + 1]);
            }
            assert forall|i: int| x.len() <= i < y.len() implies (#[trigger] y[i]).0@ != name by {
                assert(y[i] == b[i + 1]);
            }
            lemma_listed_same(x, y, name);
        }
    } else {
        lemma_listed_at(b, name, b.len() as int);
    }
}

impl NativeBinaries {
    /// An empty list.
    pub fn new() -> (res: Self)
        ensures
            res@ == Map::<Seq<char>, Seq<char>>::empty(),
    {
        let res = NativeBinaries { entries: Vec::new() };
        assert(res@ =~= Map::<Seq<char>, Seq<char>>::empty());
        res
    }

    /// The index of the first entry under `name`.
    fn position(&self, name: &String) -> (res: Option<usize>)
        ensures
            res is Some <==> self@.contains_key(name@),
            res matches Some(i) ==> {
                &&& i < self.entries@.len()
                &&& self.entries@[i as int].0@ == name@
                &&& self.entries@[i as int].1@ == self@[name@]
                &&& forall|j: int| 0 <= j < i ==> (#[trigger] self.entries@[j]).0@ != name@
            },
            res is None ==> forall|j: int|
                0 <= j < self.entries@.len() ==> (#[trigger] self.entries@[j]).0@ != name@,
    {
        for i in 0..self.entries.len()
            invariant
                forall|j: int| 0 <= j < i ==> (#[trigger] self.entries@[j]).0@ != name@,
        {
            if self.entries[i].0 == *name {
                proof {
                    lemma_listed_at(self.entries@, name@, i as int);
                }
                return Some(i);
            }
        }
        proof {
            lemma_listed_at(self.entries@, name@, self.entries@.len() as int);
        }
        None
    }

    /// Lists `path` under `name`, in place of what was there.
    pub fn insert(&mut self, name: String, path: String)
        ensures
            final(self)@ == old(self)@.insert(name@, path@),
    {
        let ghost before = self.entries@;
        let ghost (key, value) = (name@, path@);
        match self.position(&name) {
            Some(i) => {
                self.entries.set(i, (name, path));
                proof {
                    assert forall|other: Seq<char>| other != key implies listed(
                        self.entries@,
                        other,
                    ) == listed(before, other) by {
                        lemma_listed_same(before, self.entries@, other);
                    }
                    lemma_listed_at(self.entries@, key, i as int);
                }
            },
            None => {
                self.entries.push((name, path));
                proof {
                    assert forall|other: Seq<char>| other != key implies listed(
                        self.entries@,
                        other,
                    ) == listed(before, other) by {
                        lemma_listed_same(before, self.entries@, other);
                    }
                    lemma_listed_at(self.entries@, key, before.len() as int);
                }
            },
        }
        assert(self@ =~= old(self)@.insert(key, value));
    }

    /// The path that is listed under `name`.
    pub fn get(&self, name: &String) -> (res: Option<String>)
        ensures
            res is Some <==> self@.contains_key(name@),
            res matches Some(path) ==> path@ == self@[name@],
    {
        match self.position(name) {
            Some(i) => Some(self.entries[i].1.clone()),
            None => None,
        }
    }
}

/// The path of the native binary that stands for the code with this hash.
pub fn get_bin_path_by_hash(binaries: &NativeBinaries, hash: &Byte32) -> (res: String)
    requires
        binaries@.contains_key(lower_hex(hash@)),
    ensures
        res@ == binaries@[lower_hex(hash@)],
{
    let name = hash_name(hash);
    binaries.get(&name).unwrap()
}

/// The path of the native binary that stands for the code with this hash, if there is one.
pub fn find_bin_path_by_hash(binaries: &NativeBinaries, hash: &Byte32) -> (res: Option<String>)
    ensures
        res is Some <==> binaries@.contains_key(lower_hex(hash@)),
        res matches Some(path) ==> path@ == binaries@[lower_hex(hash@)],
{
    let name = hash_name(hash);
    if binaries.get(&name).is_some() {
        Some(get_bin_path_by_hash(binaries, hash))
    } else {
        None
    }
}

/// Different hashes are listed under different names.
pub proof fn law_names_tell_hashes_apart(a: Seq<u8>, b: Seq<u8>)
    ensures
        lower_hex(a) == lower_hex(b) <==> a == b,
{
    if lower_hex(a) == lower_hex(b) {
        assert(lower_hex(a).len() == lower_hex(b).len());
        assert forall|i: int| 0 <= i < a.len() implies a[i] == b[i] by {
            assert(lower_hex(a)[2 * i] == lower_hex(b)[2 * i]);
            assert(lower_hex(a)[2 * i + 1] == lower_hex(b)[2 * i + 1]);
            assert((2 * i) / 2 == i && (2 * i + 1) / 2 == i && (2 * i) % 2 == 0 && (2 * i + 1) % 2
                == 1);
        }
        assert(a =~= b);
    }
}

/// What is selected is a part of the data, from the offset on and no longer than asked.
pub proof fn law_selection_is_part(data: Seq<u8>, bounds: usize, i: int)
    requires
        0 <= i < selected(data, bounds).len(),
    ensures
        ({
            let offset = bounds as int / 0x1_0000_0000;
            let length = bounds as int % 0x1_0000_0000;
            &&& offset + i < data.len()
            &&& selected(data, bounds)[i] == data[offset + i]
            &&& length > 0 ==> selected(data, bounds).len() <= length
        }),
{
}

/// Bounds of zero select all of the data.
pub proof fn law_zero_bounds_select_all(data: Seq<u8>)
    ensures
        selected(data, 0) == data,
{
    assert(data.skip(0) =~= data);
}

/// What is selected is as long as asked for: all that the data holds from the offset on, cut
/// to the length if one is given and there is more.
pub proof fn law_selection_is_as_long_as_asked(data: Seq<u8>, bounds: usize)
    ensures
        ({
            let offset = bounds as int / 0x1_0000_0000;
            let length = bounds as int % 0x1_0000_0000;
            let n = selected(data, bounds).len();
            &&& length == 0 && offset <= data.len() ==> offset + n == data.len()
            &&& length > 0 && offset + length <= data.len() ==> n == length
            &&& length > 0 && offset <= data.len() < offset + length ==> offset + n == data.len()
            &&& offset > data.len() ==> n == 0
        }),
{
}

/// The parts that two neighbouring bounds select follow each other: together they are what
/// one bound with both lengths selects.
pub proof fn law_selections_join(data: Seq<u8>, a: usize, b: usize, both: usize)
    requires
        a as int % 0x1_0000_0000 > 0,
        b as int % 0x1_0000_0000 > 0,
        b as int / 0x1_0000_0000 == a as int / 0x1_0000_0000 + a as int % 0x1_0000_0000,
        both as int / 0x1_0000_0000 == a as int / 0x1_0000_0000,
        both as int % 0x1_0000_0000 == a as int % 0x1_0000_0000 + b as int % 0x1_0000_0000,
    ensures
        selected(data, a) + selected(data, b) == selected(data, both),
{
    assert(selected(data, a) + selected(data, b) =~= selected(data, both));
}

/// There are two places: cells have number zero, witnesses have number one, and no other
/// number is a place.
pub proof fn law_two_places(place: usize)
    ensures
        place_of(place) == Some(Place::Cell) <==> place == 0,
        place_of(place) == Some(Place::Witness) <==> place == 1,
        place_of(place) is None <==> place >= 2,
{
}

/// The name of a hash spells each byte with two digits of `0123456789abcdef`, the one that
/// counts sixteens first.
pub proof fn law_name_spells_each_byte(bytes: Seq<u8>, i: int)
    requires
        0 <= i < bytes.len(),
    ensures
        ({
            let digits = seq![
                '0', '1', '2', '3', '4', '5', '6', '7', '8', '9', 'a', 'b', 'c', 'd', 'e', 'f',
            ];
            &&& lower_hex(bytes).len() == 2 * bytes.len()
            &&& exists|high: int, low: int|
                {
                    &&& 0 <= high < 16 && 0 <= low < 16
                    &&& bytes[i] == 16 * high + low
                    &&& lower_hex(bytes)[2 * i] == #[trigger] digits[high]
                    &&& lower_hex(bytes)[2 * i + 1] == #[trigger] digits[low]
                }
        }),
{
    let digits = seq![
        '0', '1', '2', '3', '4', '5', '6', '7', '8', '9', 'a', 'b', 'c', 'd', 'e', 'f',
    ];
    let high = bytes[i] as int / 16;
    let low = bytes[i] as int % 16;
    assert((2 * i) / 2 == i && (2 * i + 1) / 2 == i && (2 * i) % 2 == 0 && (2 * i + 1) % 2 == 1);
    assert forall|n: int| 0 <= n < 16 implies hex_digit(n) == #[trigger] digits[n] by {}
    assert(digits[high] == hex_digit(high) && digits[low] == hex_digit(low));
}

/// The value of a hash is its bytes, in order.
pub proof fn law_hash_is_its_bytes(bytes: [u8; 32], i: int)
    ensures
        Byte32(bytes)@.len() == 32,
        0 <= i < 32 ==> Byte32(bytes)@[i] == bytes@[i],
{
}

} // verus!
