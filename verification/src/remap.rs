//! Turning one source frame into the pixel buffer of one device.

use crate::settings::{is_mapping_table, ranges_in_order, LedMapping};
use crate::table::MappingTable;
use vstd::prelude::*;

verus! {

/// Why a frame could not be laid out for a device.
#[derive(Clone, Copy, Debug, PartialEq, Eq, Structural)]
pub enum RemapError {
    /// A mapping reads pixels that the frame does not hold.
    SourceRangeOutOfBounds,
    /// A mapping places pixels beyond the end of the target buffer.
    TargetRangeOutOfBounds,
}

/// The mapping of `table` that fills target pixel `p`, if there is one.
pub open spec fn covering(table: Seq<LedMapping>, p: int) -> Option<LedMapping> {
    if exists|k: int| 0 <= k < table.len() && (#[trigger] table[k]).covers(p) {
        Some(table[choose|k: int| 0 <= k < table.len() && (#[trigger] table[k]).covers(p)])
    } else {
        None
    }
}

/// Byte `b` of the target buffer: the matching channel of the source pixel
/// shown there, or zero where no mapping reaches.
pub open spec fn target_byte(frame: Seq<u8>, table: Seq<LedMapping>, b: int) -> u8 {
    match covering(table, b / 3) {
        Some(m) => frame[3 * m.source_of(b / 3) + b % 3],
        None => 0,
    }
}

/// The target buffer of `target_size` pixels that `table` makes of `frame`.
pub open spec fn remapped(frame: Seq<u8>, table: Seq<LedMapping>, target_size: nat) -> Seq<u8> {
    Seq::new(3 * target_size, |b: int| target_byte(frame, table, b))
}

/// Whether `m` needs source bytes beyond a frame of `frame_len` bytes.
pub open spec fn reads_past(m: LedMapping, frame_len: int) -> bool {
    m.len() > 0 && 3 * m.source_end() > frame_len
}

/// Whether `m` fills pixels beyond a target of `target_size` pixels.
pub open spec fn writes_past(m: LedMapping, target_size: int) -> bool {
    m.len() > 0 && m.target_end() > target_size
}

/// What, if anything, keeps `table` from being applied: a read past the frame
/// is reported before a write past the target.
pub open spec fn remap_error(frame_len: int, table: Seq<LedMapping>, target_size: int) -> Option<
    RemapError,
> {
    if exists|k: int| 0 <= k < table.len() && reads_past(#[trigger] table[k], frame_len) {
        Some(RemapError::SourceRangeOutOfBounds)
    } else if exists|k: int|
        0 <= k < table.len() && writes_past(#[trigger] table[k], target_size) {
        Some(RemapError::TargetRangeOutOfBounds)
    } else {
        None
    }
}

/// In a table whose ranges are in order, the mapping that covers a pixel is
/// the only one that does.
pub proof fn lemma_covering_is_unique(table: Seq<LedMapping>, k: int, p: int)
    requires
        ranges_in_order(table),
        0 <= k < table.len(),
        table[k].covers(p),
    ensures
        covering(table, p) == Some(table[k]),
{
    let c = choose|c: int| 0 <= c < table.len() && (#[trigger] table[c]).covers(p);
    if c < k {
        assert(table[c].target_end() <= table[k].target_start);
    } else if k < c {
        assert(table[k].target_end() <= table[c].target_start);
    }
}

/// Each pixel of a run shows up where the mapping places it: channel `c` of
/// the `i`-th source pixel of mapping `k` is channel `c` of the target pixel
/// at `placement(i)`.
pub proof fn lemma_run_is_placed(
    frame: Seq<u8>,
    table: Seq<LedMapping>,
    target_size: nat,
    k: int,
    i: int,
    c: int,
)
    requires
        is_mapping_table(table),
        remap_error(frame.len() as int, table, target_size as int) is None,
        0 <= k < table.len(),
        0 <= i < table[k].len(),
        0 <= c < 3,
    ensures
        0 <= 3 * table[k].placement(i) + c < remapped(frame, table, target_size).len(),
        0 <= 3 * (table[k].source_start + i) + c < frame.len(),
        remapped(frame, table, target_size)[3 * table[k].placement(i) + c] == frame[3 * (
            table[k].source_start + i) + c],
{
    let m = table[k];
    let p = m.placement(i);
    assert(!writes_past(m, target_size as int));
    assert(!reads_past(m, frame.len() as int));
    assert(m.covers(p));
    assert((3 * p + c) / 3 == p);
    assert((3 * p + c) % 3 == c);
    lemma_covering_is_unique(table, k, p);
}

/// A target pixel that no mapping fills stays black.
pub proof fn lemma_gap_stays_black(
    frame: Seq<u8>,
    table: Seq<LedMapping>,
    target_size: nat,
    b: int,
)
    requires
        0 <= b < 3 * target_size,
        forall|k: int| 0 <= k < table.len() ==> !(#[trigger] table[k]).covers(b / 3),
    ensures
        remapped(frame, table, target_size)[b] == 0,
{
}

/// A forward mapping of a single pixel copies the triplet at its source start
/// to its target start, byte for byte.
pub proof fn lemma_single_pixel_is_copied(
    frame: Seq<u8>,
    table: Seq<LedMapping>,
    target_size: nat,
    k: int,
)
    requires
        is_mapping_table(table),
        remap_error(frame.len() as int, table, target_size as int) is None,
        0 <= k < table.len(),
        table[k].len() == 1,
        !table[k].reversed(),
    ensures
        3 * table[k].target_start + 3 <= remapped(frame, table, target_size).len(),
        3 * table[k].source_start + 3 <= frame.len(),
        remapped(frame, table, target_size).subrange(
            3 * table[k].target_start,
            3 * table[k].target_start + 3,
        ) == frame.subrange(3 * table[k].source_start, 3 * table[k].source_start + 3),
{
    lemma_run_is_placed(frame, table, target_size, k, 0, 0);
    lemma_run_is_placed(frame, table, target_size, k, 0, 1);
    lemma_run_is_placed(frame, table, target_size, k, 0, 2);
    assert(remapped(frame, table, target_size).subrange(
        3 * table[k].target_start,
        3 * table[k].target_start + 3,
    ) =~= frame.subrange(3 * table[k].source_start, 3 * table[k].source_start + 3));
}

/// A reversed mapping puts the first source pixel of its run on the last
/// target pixel of the run, and the last source pixel on the first.
pub proof fn lemma_reversed_run_is_mirrored(
    frame: Seq<u8>,
    table: Seq<LedMapping>,
    target_size: nat,
    k: int,
    c: int,
)
    requires
        is_mapping_table(table),
        remap_error(frame.len() as int, table, target_size as int) is None,
        0 <= k < table.len(),
        table[k].len() >= 1,
        table[k].reversed(),
        0 <= c < 3,
    ensures
        remapped(frame, table, target_size)[3 * (table[k].target_start + table[k].len() - 1) + c]
            == frame[3 * table[k].source_start + c],
        remapped(frame, table, target_size)[3 * table[k].target_start + c] == frame[3 * (
            table[k].source_start + table[k].len() - 1) + c],
{
    lemma_run_is_placed(frame, table, target_size, k, 0, c);
    lemma_run_is_placed(frame, table, target_size, k, table[k].len() - 1, c);
}

/// Lays `frame` out for one device: a buffer of `target_size` black pixels
/// into which each mapping of `table` copies its run of source pixels.
pub fn remap(frame: &[u8], table: &MappingTable, target_size: usize) -> (outcome: Result<
    Vec<u8>,
    RemapError,
>)
    requires
        3 * target_size <= usize::MAX,
    ensures
        match outcome {
            Ok(buffer) => remap_error(frame@.len() as int, table@, target_size as int) is None
                && buffer@ == remapped(frame@, table@, target_size as nat),
            Err(e) => remap_error(frame@.len() as int, table@, target_size as int) == Some(e),
        },
{
    let entries = table.as_slice();
    let n = entries.len();
    let frame_len = frame.len();
    let mut beyond_target = false;
    let mut k: usize = 0;
    while k < n
        invariant
            k <= n,
            n == entries@.len(),
            entries@ == table@,
            frame_len == frame@.len(),
            forall|j: int| 0 <= j < k ==> !reads_past(#[trigger] entries@[j], frame_len as int),
            beyond_target <==> exists|j: int|
                0 <= j < k && writes_past(#[trigger] entries@[j], target_size as int),
        decreases n - k,
    {
        let m = entries[k];
        let len = m.run_length() as u64;
        if len > 0 {
            if 3 * (m.source_start as u64 + len) > frame_len as u64 {
                assert(reads_past(entries@[k as int], frame_len as int));
                return Err(RemapError::SourceRangeOutOfBounds);
            }
            if m.target_start as u64 + len > target_size as u64 {
                beyond_target = true;
            }
        }
        k += 1;
    }
    if beyond_target {
        return Err(RemapError::TargetRangeOutOfBounds);
    }
    let mut buffer: Vec<u8> = Vec::new();
    let total = 3 * target_size;
    let mut filled: usize = 0;
    while filled < total
        invariant
            filled <= total,
            buffer@.len() == filled,
            forall|b: int| 0 <= b < filled ==> buffer@[b] == 0,
        decreases total - filled,
    {
        buffer.push(0);
        filled += 1;
    }
    proof {
        assert(buffer@ =~= remapped(frame@, entries@.take(0), target_size as nat));
    }
    let mut k: usize = 0;
    while k < n
        invariant
            k <= n,
            n == entries@.len(),
            is_mapping_table(entries@),
            frame_len == frame@.len(),
            total == 3 * target_size,
            forall|j: int| 0 <= j < n ==> !reads_past(#[trigger] entries@[j], frame_len as int),
            forall|j: int|
                0 <= j < n ==> !writes_past(#[trigger] entries@[j], target_size as int),
            buffer@ == remapped(frame@, entries@.take(k as int), target_size as nat),
        decreases n - k,
    {
        let m = entries[k];
        let len = m.run_length();
        let ghost before = buffer@;
        let mut i: u16 = 0;
        while i < len
            invariant
                i <= len,
                len == m.len(),
                !reads_past(m, frame_len as int),
                !writes_past(m, target_size as int),
                frame_len == frame@.len(),
                total == 3 * target_size,
                buffer@.len() == total,
                before.len() == total,
                forall|b: int|
                    0 <= b < total ==> #[trigger] buffer@[b] == (if m.covers(b / 3) && m.source_of(
                        b / 3,
                    ) - m.source_start < i {
                        frame@[3 * m.source_of(b / 3) + b % 3]
                    } else {
                        before[b]
                    }),
            decreases len - i,
        {
            if let Some(landing) = m.target_index(i) {
                let from = 3 * (m.source_start as usize + i as usize);
                let to = 3 * (landing as usize);
                buffer[to] = frame[from];
                buffer[to + 1] = frame[from + 1];
                buffer[to + 2] = frame[from + 2];
            }
            i += 1;
        }
        proof {
            let done = entries@.take(k as int);
            let next = entries@.take(k as int + 1);
            assert(ranges_in_order(next));
            assert(ranges_in_order(done));
            assert forall|b: int| 0 <= b < total implies #[trigger] buffer@[b] == target_byte(
                frame@,
                next,
                b,
            ) by {
                let p = b / 3;
                if m.covers(p) {
                    assert(next[k as int] == m);
                    lemma_covering_is_unique(next, k as int, p);
                } else {
                    assert(before[b] == target_byte(frame@, done, b));
                    if exists|j: int| 0 <= j < done.len() && (#[trigger] done[j]).covers(p) {
                        let j = choose|j: int|
                            0 <= j < done.len() && (#[trigger] done[j]).covers(p);
                        assert(next[j] == done[j]);
                        lemma_covering_is_unique(next, j, p);
                        lemma_covering_is_unique(done, j, p);
                    } else {
                        if exists|j: int| 0 <= j < next.len() && (#[trigger] next[j]).covers(p) {
                            let j = choose|j: int|
                                0 <= j < next.len() && (#[trigger] next[j]).covers(p);
                            if j < k {
                                assert(done[j] == next[j]);
                            }
                        }
                    }
                }
            }
            assert(buffer@ =~= remapped(frame@, next, target_size as nat));
        }
        k += 1;
    }
    proof {
        assert(entries@.take(n as int) =~= entries@);
    }
    Ok(buffer)
}

} // verus!
