use vstd::prelude::*;

use crate::error::VandalizeError;
use crate::random::{draw_bytes, draw_offsets};

verus! {

/// `data` with `positions[j]` overwritten by `fresh[j]`, one after the other:
/// where an offset is listed twice, the later byte wins.
pub open spec fn substituted(data: Seq<u8>, positions: Seq<usize>, fresh: Seq<u8>) -> Seq<u8>
    decreases positions.len(),
{
    if positions.len() == 0 {
        data
    } else {
        let n = positions.len() - 1;
        substituted(data, positions.take(n), fresh.take(n)).update(positions[n] as int, fresh[n])
    }
}

/// Every offset addresses a byte of a sequence of length `len`.
pub open spec fn in_bounds(positions: Seq<usize>, len: nat) -> bool {
    forall|j: int| 0 <= j < positions.len() ==> positions[j] < len
}

/// The offsets ascend; equal neighbours are allowed.
pub open spec fn ascending(positions: Seq<usize>) -> bool {
    forall|a: int, b: int| 0 <= a < b < positions.len() ==> positions[a] <= positions[b]
}

/// Some listed offset equals `k`.
pub open spec fn listed(positions: Seq<usize>, k: int) -> bool {
    exists|j: int| 0 <= j < positions.len() && positions[j] == k
}

/// The shape of `substituted`: the length is kept, an unlisted byte is kept,
/// and a listed byte is one of the bytes drawn for its offset.
proof fn lemma_substituted(data: Seq<u8>, positions: Seq<usize>, fresh: Seq<u8>)
    requires
        in_bounds(positions, data.len()),
        fresh.len() == positions.len(),
    ensures
        substituted(data, positions, fresh).len() == data.len(),
        forall|k: int|
            0 <= k < data.len() && !listed(positions, k) ==> #[trigger] substituted(
                data,
                positions,
                fresh,
            )[k] == data[k],
        forall|k: int|
            0 <= k < data.len() && listed(positions, k) ==> exists|j: int|
                0 <= j < positions.len() && positions[j] == k && #[trigger] substituted(
                    data,
                    positions,
                    fresh,
                )[k] == fresh[j],
    decreases positions.len(),
{
    if positions.len() > 0 {
        let n = positions.len() - 1;
        let ps = positions.take(n);
        let fs = fresh.take(n);
        lemma_substituted(data, ps, fs);
        let prev = substituted(data, ps, fs);
        let cur = substituted(data, positions, fresh);
        assert forall|k: int| 0 <= k < data.len() && !listed(positions, k) implies cur[k]
            == data[k] by {
            if listed(ps, k) {
                let j = choose|j: int| 0 <= j < ps.len() && ps[j] == k;
                assert(positions[j] == k);
            }
        }
        assert forall|k: int| 0 <= k < data.len() && listed(positions, k) implies exists|j: int|
            0 <= j < positions.len() && positions[j] == k && cur[k] == fresh[j] by {
            if positions[n] as int == k {
                assert(cur[k] == fresh[n]);
            } else {
                let j = choose|j: int| 0 <= j < positions.len() && positions[j] == k;
                assert(j < n);
                assert(ps[j] == k);
                assert(listed(ps, k));
                let i = choose|i: int| 0 <= i < ps.len() && ps[i] == k && prev[k] == fs[i];
                assert(positions[i] == k && cur[k] == fresh[i]);
            }
        }
    }
}

/// Beyond the last listed offset, `substituted` is still `data`.
proof fn lemma_tail_untouched(data: Seq<u8>, positions: Seq<usize>, fresh: Seq<u8>, k: int)
    requires
        in_bounds(positions, data.len()),
        fresh.len() == positions.len(),
        forall|j: int| 0 <= j < positions.len() ==> positions[j] < k,
        0 <= k < data.len(),
    ensures
        substituted(data, positions, fresh)[k] == data[k],
{
    lemma_substituted(data, positions, fresh);
    assert(!listed(positions, k));
}

/// Copies `data`, writing `fresh[j]` in place of the byte at `positions[j]`:
/// the gap before each listed offset is copied, then the drawn byte, and at
/// the end the tail after the last offset.
pub fn substitute(data: &[u8], positions: &[usize], fresh: &[u8]) -> (out: Vec<u8>)
    requires
        in_bounds(positions@, data@.len()),
        ascending(positions@),
        fresh@.len() == positions@.len(),
    ensures
        out@ == substituted(data@, positions@, fresh@),
        out@.len() == data@.len(),
{
    let mut out: Vec<u8> = Vec::new();
    let mut last_end: usize = 0;
    let mut i: usize = 0;
    while i < positions.len()
        invariant
            in_bounds(positions@, data@.len()),
            ascending(positions@),
            fresh@.len() == positions@.len(),
            i <= positions@.len(),
            last_end <= data@.len(),
            i == 0 ==> last_end == 0,
            i > 0 ==> last_end == positions@[i - 1] + 1,
            out@ == substituted(data@, positions@.take(i as int), fresh@.take(i as int)).take(
                last_end as int,
            ),
        decreases positions@.len() - i,
    {
        let ghost before = substituted(data@, positions@.take(i as int), fresh@.take(i as int));
        let ghost after = substituted(
            data@,
            positions@.take(i + 1 as int),
            fresh@.take(i + 1 as int),
        );
        proof {
            assert(positions@.take(i + 1 as int).take(i as int) =~= positions@.take(i as int));
            assert(fresh@.take(i + 1 as int).take(i as int) =~= fresh@.take(i as int));
            assert(after == before.update(positions@[i as int] as int, fresh@[i as int]));
            lemma_substituted(data@, positions@.take(i as int), fresh@.take(i as int));
        }
        let index = positions[i];
        assert(index < data.len());
        if index >= last_end {
            let mut k: usize = last_end;
            while k < index
                invariant
                    last_end <= k <= index < data@.len(),
                    before.len() == data@.len(),
                    forall|j: int| 0 <= j < i ==> positions@[j] < last_end,
                    in_bounds(positions@, data@.len()),
                    fresh@.len() == positions@.len(),
                    i < positions@.len(),
                    before == substituted(
                        data@,
                        positions@.take(i as int),
                        fresh@.take(i as int),
                    ),
                    out@ == before.take(k as int),
                decreases index - k,
            {
                proof {
                    lemma_tail_untouched(
                        data@,
                        positions@.take(i as int),
                        fresh@.take(i as int),
                        k as int,
                    );
                }
                out.push(data[k]);
                k += 1;
                assert(out@ =~= before.take(k as int));
            }
            out.push(fresh[i]);
            assert(out@ =~= after.take(index + 1 as int));
        } else {
            assert(index == last_end - 1);
            out.set(index, fresh[i]);
            assert(out@ =~= after.take(index + 1 as int));
        }
        last_end = index + 1;
        i += 1;
    }
    let ghost all = substituted(data@, positions@, fresh@);
    proof {
        assert(positions@.take(i as int) =~= positions@);
        assert(fresh@.take(i as int) =~= fresh@);
        lemma_substituted(data@, positions@, fresh@);
    }
    let mut k: usize = last_end;
    while k < data.len()
        invariant
            last_end <= k <= data@.len(),
            all.len() == data@.len(),
            all == substituted(data@, positions@, fresh@),
            forall|j: int| 0 <= j < positions@.len() ==> positions@[j] < last_end,
            in_bounds(positions@, data@.len()),
            fresh@.len() == positions@.len(),
            out@ == all.take(k as int),
        decreases data@.len() - k,
    {
        proof {
            lemma_tail_untouched(data@, positions@, fresh@, k as int);
        }
        out.push(data[k]);
        k += 1;
        assert(out@ =~= all.take(k as int));
    }
    assert(out@ =~= all);
    out
}

/// Copies `data` with a freshly drawn byte at each offset of `positions`,
/// which must all lie within `data`.
pub(crate) fn scramble_at(data: &[u8], positions: &[usize]) -> (out: Vec<u8>)
    requires
        in_bounds(positions@, data@.len()),
        ascending(positions@),
    ensures
        exists|fresh: Seq<u8>|
            fresh.len() == positions@.len() && out@ == substituted(data@, positions@, fresh),
{
    let fresh = draw_bytes(positions.len());
    substitute(data, positions, fresh.as_slice())
}

/// Copies `data` with a freshly drawn byte at each offset of `positions`.
/// Every offset is checked before anything is drawn or copied: one outside
/// `data` gives `PositionOutOfRange`.
pub fn vandalize_bytes(data: &[u8], positions: &[usize]) -> (r: Result<Vec<u8>, VandalizeError>)
    requires
        ascending(positions@),
    ensures
        r is Err <==> !in_bounds(positions@, data@.len()),
        r is Err ==> r == Err::<Vec<u8>, VandalizeError>(VandalizeError::PositionOutOfRange),
        r matches Ok(out) ==> exists|fresh: Seq<u8>|
            fresh.len() == positions@.len() && out@ == substituted(data@, positions@, fresh),
{
    let mut j: usize = 0;
    while j < positions.len()
        invariant
            j <= positions@.len(),
            in_bounds(positions@.take(j as int), data@.len()),
        decreases positions@.len() - j,
    {
        if positions[j] >= data.len() {
            return Err(VandalizeError::PositionOutOfRange);
        }
        j += 1;
        assert(in_bounds(positions@.take(j as int), data@.len()));
    }
    assert(positions@.take(j as int) =~= positions@);
    Ok(scramble_at(data, positions))
}

/// Copies `data` with `bytes_to_break` offsets drawn uniformly, each holding
/// a freshly drawn byte; `data` must not be empty unless nothing is drawn.
pub(crate) fn scramble(data: &[u8], bytes_to_break: usize) -> (out: Vec<u8>)
    requires
        data@.len() > 0 || bytes_to_break == 0,
    ensures
        exists|positions: Seq<usize>, fresh: Seq<u8>|
            positions.len() == bytes_to_break && in_bounds(positions, data@.len()) && ascending(
                positions,
            ) && fresh.len() == bytes_to_break && out@ == substituted(data@, positions, fresh),
{
    let positions = draw_offsets(data.len(), bytes_to_break);
    scramble_at(data, positions.as_slice())
}

/// Copies `data` with `bytes_to_break` offsets drawn uniformly, each holding
/// a freshly drawn byte. No offset can be drawn from an empty `data`:
/// asking for one gives `InvalidRange`.
pub fn vandalize_data(data: &[u8], bytes_to_break: usize) -> (r: Result<Vec<u8>, VandalizeError>)
    ensures
        r is Err <==> data@.len() == 0 && bytes_to_break > 0,
        r is Err ==> r == Err::<Vec<u8>, VandalizeError>(VandalizeError::InvalidRange),
        r matches Ok(out) ==> exists|positions: Seq<usize>, fresh: Seq<u8>|
            positions.len() == bytes_to_break && in_bounds(positions, data@.len()) && ascending(
                positions,
            ) && fresh.len() == bytes_to_break && out@ == substituted(data@, positions, fresh),
{
    if data.len() == 0 && bytes_to_break > 0 {
        return Err(VandalizeError::InvalidRange);
    }
    Ok(scramble(data, bytes_to_break))
}

/// Substitution keeps the length: whatever bytes are drawn, the copy is as
/// long as the original.
pub proof fn lemma_length_preserved(data: Seq<u8>, positions: Seq<usize>, fresh: Seq<u8>)
    requires
        in_bounds(positions, data.len()),
        fresh.len() == positions.len(),
    ensures
        substituted(data, positions, fresh).len() == data.len(),
{
    lemma_substituted(data, positions, fresh);
}

/// Substitution leaves alone every byte whose offset is not listed.
pub proof fn lemma_unlisted_bytes_kept(
    data: Seq<u8>,
    positions: Seq<usize>,
    fresh: Seq<u8>,
    k: int,
)
    requires
        in_bounds(positions, data.len()),
        fresh.len() == positions.len(),
        0 <= k < data.len(),
        !listed(positions, k),
    ensures
        substituted(data, positions, fresh)[k] == data[k],
{
    lemma_substituted(data, positions, fresh);
}

/// Substitution puts at every listed offset a byte drawn for that offset, not
/// the original one: the copy agrees with `data` there only where a draw
/// happens to give the original value.
pub proof fn lemma_listed_bytes_drawn(
    data: Seq<u8>,
    positions: Seq<usize>,
    fresh: Seq<u8>,
    k: int,
)
    requires
        in_bounds(positions, data.len()),
        fresh.len() == positions.len(),
        0 <= k < data.len(),
        listed(positions, k),
    ensures
        exists|j: int|
            0 <= j < positions.len() && positions[j] == k && substituted(data, positions, fresh)[k]
                == fresh[j],
{
    lemma_substituted(data, positions, fresh);
}

} // verus!
