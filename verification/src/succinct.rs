//! Trusted declarations of the succinct integer structures of the `sucds`
//! crate: Elias-Fano monotone sequences, gap-coded integer lists and
//! fixed-width compact vectors. Every structure of these types in this crate
//! is built through the build wrappers below, so each value is one that the
//! crate's builder produced from a checked input.

use vstd::prelude::*;

use crate::specs::{count_below, monotone, sum_seq};

verus! {

#[verifier::external_type_specification]
#[verifier::external_body]
pub struct ExEliasFano(sucds::EliasFano);

#[verifier::external_type_specification]
#[verifier::external_body]
pub struct ExEliasFanoList(sucds::EliasFanoList);

#[verifier::external_type_specification]
#[verifier::external_body]
pub struct ExCompactVector(sucds::CompactVector);

/// The integers a `sucds::EliasFano` stores, in order.
pub uninterp spec fn ef_seq(ef: sucds::EliasFano) -> Seq<int>;

/// The exclusive upper bound the sequence was built with.
pub uninterp spec fn ef_universe(ef: sucds::EliasFano) -> int;

/// Whether the rank index was enabled at build time.
pub uninterp spec fn ef_has_rank(ef: sucds::EliasFano) -> bool;

/// The integers a `sucds::EliasFanoList` stores, in order.
pub uninterp spec fn efl_seq(l: sucds::EliasFanoList) -> Seq<int>;

/// The integers a `sucds::CompactVector` stores, in order.
pub uninterp spec fn cv_seq(c: sucds::CompactVector) -> Seq<int>;

/// The fixed bit width a `sucds::CompactVector` was built with.
pub uninterp spec fn cv_width(c: sucds::CompactVector) -> int;

/// Relies on `sucds::EliasFanoBuilder`: `new`, `push` (through `append`) and
/// `build` store a non-decreasing sequence below the universe bound, and
/// `enable_rank` adds the rank index; `select` then recovers each integer.
#[verifier::external_body]
pub fn ef_build(values: &Vec<usize>, universe: usize, with_rank: bool) -> (r: sucds::EliasFano)
    requires
        values@.len() > 0,
        monotone(values@.map_values(|v: usize| v as int)),
        forall|i: int| 0 <= i < values@.len() ==> (#[trigger] values@[i] as int) < universe as int,
        universe <= usize::MAX / 4,
        values@.len() <= usize::MAX / 4,
    ensures
        ef_seq(r) == values@.map_values(|v: usize| v as int),
        ef_universe(r) == universe as int,
        ef_has_rank(r) == with_rank,
{
    let mut b = sucds::EliasFanoBuilder::new(universe, values.len()).unwrap();
    b.append(values.as_slice()).unwrap();
    let ef = b.build();
    if with_rank {
        ef.enable_rank()
    } else {
        ef
    }
}

/// Relies on `sucds::EliasFano::select`: the `k`-th stored integer.
#[verifier::external_body]
pub fn ef_select(ef: &sucds::EliasFano, k: usize) -> (r: usize)
    requires
        0 <= k < ef_seq(*ef).len(),
    ensures
        r as int == ef_seq(*ef)[k as int],
{
    ef.select(k)
}

/// Relies on `sucds::EliasFano::rank`: how many stored integers lie below
/// `pos`; it needs the rank index and a sorted sequence.
#[verifier::external_body]
pub fn ef_rank(ef: &sucds::EliasFano, pos: usize) -> (r: usize)
    requires
        ef_has_rank(*ef),
        monotone(ef_seq(*ef)),
    ensures
        r as int == count_below(ef_seq(*ef), pos as int),
{
    ef.rank(pos)
}

/// Relies on `sucds::EliasFano::len`: the number of stored integers.
#[verifier::external_body]
pub fn ef_len(ef: &sucds::EliasFano) -> (r: usize)
    ensures
        r as int == ef_seq(*ef).len(),
{
    ef.len()
}

/// Relies on `sucds::EliasFanoList::from_slice`: gap-coded storage of any
/// integer list whose sum stays below the machine bound.
#[verifier::external_body]
pub fn efl_from_slice(values: &Vec<usize>) -> (r: sucds::EliasFanoList)
    requires
        values@.len() > 0,
        values@.len() <= usize::MAX / 4,
        sum_seq(values@.map_values(|v: usize| v as int)) <= (usize::MAX / 4) as int,
    ensures
        efl_seq(r) == values@.map_values(|v: usize| v as int),
{
    sucds::EliasFanoList::from_slice(values.as_slice()).unwrap()
}

/// Relies on `sucds::EliasFanoList::get`: the `i`-th stored integer.
#[verifier::external_body]
pub fn efl_get(l: &sucds::EliasFanoList, i: usize) -> (r: usize)
    requires
        0 <= i < efl_seq(*l).len(),
    ensures
        r as int == efl_seq(*l)[i as int],
{
    l.get(i)
}

/// Relies on `sucds::EliasFanoList::len`: the number of stored integers.
#[verifier::external_body]
pub fn efl_len(l: &sucds::EliasFanoList) -> (r: usize)
    ensures
        r as int == efl_seq(*l).len(),
{
    l.len()
}

/// Relies on `sucds::CompactVector::new`: an empty vector of the given width.
#[verifier::external_body]
pub fn cv_new(width: usize) -> (r: sucds::CompactVector)
    requires
        1 <= width <= 64,
    ensures
        cv_seq(r) == Seq::<int>::empty(),
        cv_width(r) == width as int,
{
    sucds::CompactVector::new(width)
}

/// Relies on `sucds::CompactVector::push`: appends one integer that fits the
/// vector's width.
#[verifier::external_body]
pub fn cv_push(c: &mut sucds::CompactVector, value: usize)
    requires
        1 <= cv_width(*old(c)) <= 64,
        (value as int) < vstd::arithmetic::power2::pow2(cv_width(*old(c)) as nat),
        cv_seq(*old(c)).len() < usize::MAX / 64,
    ensures
        cv_seq(*final(c)) == cv_seq(*old(c)).push(value as int),
        cv_width(*final(c)) == cv_width(*old(c)),
{
    c.push(value)
}

/// Relies on `sucds::CompactVector::get`: the `i`-th stored integer.
#[verifier::external_body]
pub fn cv_get(c: &sucds::CompactVector, i: usize) -> (r: usize)
    requires
        0 <= i < cv_seq(*c).len(),
        1 <= cv_width(*c) <= 64,
    ensures
        r as int == cv_seq(*c)[i as int],
{
    c.get(i)
}

/// Relies on `sucds::CompactVector::len`: the number of stored integers.
#[verifier::external_body]
pub fn cv_len(c: &sucds::CompactVector) -> (r: usize)
    ensures
        r as int == cv_seq(*c).len(),
{
    c.len()
}

} // verus!
