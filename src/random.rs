use vstd::prelude::*;

use rand::Rng;

use crate::substitute::{ascending, in_bounds};

verus! {

broadcast use vstd::seq_lib::group_to_multiset_ensures;

/// Relies on rand's `Rng::gen_range(low, high)` on the thread-local
/// generator: the value lies in `[low, high)`; it panics when `low >= high`.
#[verifier::external_body]
fn random_index(len: usize) -> (r: usize)
    requires
        len > 0,
    ensures
        r < len,
{
    rand::thread_rng().gen_range(0, len)
}

/// Relies on rand's `Rng::gen::<u8>()` on the thread-local generator: any
/// byte value may come out.
#[verifier::external_body]
fn random_byte() -> (r: u8) {
    rand::thread_rng().gen::<u8>()
}

/// Relies on std's `slice::sort`: the same items, in ascending order.
#[verifier::external_body]
fn sort_offsets(v: &mut Vec<usize>)
    ensures
        final(v)@.to_multiset() == old(v)@.to_multiset(),
        ascending(final(v)@),
{
    v.sort();
}

/// `count` independently drawn bytes.
pub fn draw_bytes(count: usize) -> (r: Vec<u8>)
    ensures
        r@.len() == count,
{
    let mut r: Vec<u8> = Vec::new();
    let mut i: usize = 0;
    while i < count
        invariant
            i <= count,
            r@.len() == i,
        decreases count - i,
    {
        r.push(random_byte());
        i += 1;
    }
    r
}

/// `count` offsets drawn uniformly from `[0, len)`, in ascending order.
pub fn draw_offsets(len: usize, count: usize) -> (r: Vec<usize>)
    requires
        len > 0 || count == 0,
    ensures
        r@.len() == count,
        in_bounds(r@, len as nat),
        ascending(r@),
{
    let mut r: Vec<usize> = Vec::new();
    let mut i: usize = 0;
    while i < count
        invariant
            len > 0 || count == 0,
            i <= count,
            r@.len() == i,
            in_bounds(r@, len as nat),
        decreases count - i,
    {
        r.push(random_index(len));
        i += 1;
    }
    let ghost drawn = r@;
    sort_offsets(&mut r);
    assert forall|j: int| 0 <= j < r@.len() implies r@[j] < len by {
        assert(r@.to_multiset().count(r@[j]) > 0);
        assert(drawn.contains(r@[j]));
    }
    assert(r@.len() == drawn.len()) by {
        drawn.to_multiset_ensures();
        r@.to_multiset_ensures();
    }
    r
}

} // verus!
