//! The RGBA frame buffer: four bytes per pixel, row after row.
use vstd::prelude::*;

verus! {

/// `frame` with the four bytes of pixel `index` replaced by `rgba`.
pub open spec fn painted(frame: Seq<u8>, index: int, rgba: Seq<u8>) -> Seq<u8> {
    Seq::new(
        frame.len(),
        |p: int|
            if index * 4 <= p < index * 4 + 4 {
                rgba[p - index * 4]
            } else {
                frame[p]
            },
    )
}

/// `frame` after the first `count` results have been written in order.
pub open spec fn painted_all(frame: Seq<u8>, results: Seq<(usize, [u8; 4])>, count: nat) -> Seq<
    u8,
>
    decreases count,
{
    if count == 0 {
        frame
    } else {
        let (index, rgba) = results[count - 1];
        painted(painted_all(frame, results, (count - 1) as nat), index as int, rgba@)
    }
}

/// Every result names a pixel that lies inside the frame.
pub open spec fn results_fit(frame_len: nat, results: Seq<(usize, [u8; 4])>) -> bool {
    forall|k: int| 0 <= k < results.len() ==> (#[trigger] results[k]).0 * 4 + 4 <= frame_len
}

/// `frame` with every whole pixel set to `colour`; trailing bytes that do
/// not make a whole pixel are left as they were.
pub open spec fn cleared(frame: Seq<u8>, colour: Seq<u8>) -> Seq<u8> {
    Seq::new(
        frame.len(),
        |p: int|
            if p < (frame.len() / 4) * 4 {
                colour[p % 4]
            } else {
                frame[p]
            },
    )
}

/// Writes the colour of pixel `index`.
pub fn write_pixel(frame: &mut [u8], index: usize, rgba: [u8; 4])
    requires
        index * 4 + 4 <= old(frame)@.len(),
    ensures
        final(frame)@ == painted(old(frame)@, index as int, rgba@),
{
    let len = frame.len();
    assert(index * 4 + 4 <= len);
    let base = index * 4;
    let mut j: usize = 0;
    while j < 4
        invariant
            j <= 4,
            base == index * 4,
            base + 4 <= frame@.len(),
            frame@.len() == old(frame)@.len(),
            forall|p: int|
                0 <= p < frame@.len() ==> #[trigger] frame@[p] == if base <= p < base + j {
                    rgba@[p - base]
                } else {
                    old(frame)@[p]
                },
        decreases 4 - j,
    {
        frame[base + j] = rgba[j];
        j = j + 1;
    }
    assert(frame@ =~= painted(old(frame)@, index as int, rgba@));
}

/// Writes a batch of shaded pixels into the frame, in order.
pub fn write_results(frame: &mut [u8], results: &Vec<(usize, [u8; 4])>)
    requires
        results_fit(old(frame)@.len(), results@),
    ensures
        final(frame)@ == painted_all(old(frame)@, results@, results@.len()),
{
    let mut k: usize = 0;
    while k < results.len()
        invariant
            k <= results@.len(),
            frame@.len() == old(frame)@.len(),
            results_fit(old(frame)@.len(), results@),
            frame@ == painted_all(old(frame)@, results@, k as nat),
        decreases results@.len() - k,
    {
        let (index, rgba) = results[k];
        assert(results@[k as int].0 * 4 + 4 <= old(frame)@.len());
        write_pixel(frame, index, rgba);
        k = k + 1;
    }
}

/// Sets every whole pixel of the frame to `pixel_clear`.
pub fn clear_buffer(frame: &mut [u8], pixel_clear: [u8; 4])
    ensures
        final(frame)@ == cleared(old(frame)@, pixel_clear@),
{
    let pixels = frame.len() / 4;
    let mut k: usize = 0;
    while k < pixels
        invariant
            k <= pixels,
            pixels == old(frame)@.len() / 4,
            frame@.len() == old(frame)@.len(),
            forall|p: int|
                0 <= p < frame@.len() ==> #[trigger] frame@[p] == if p < k * 4 {
                    pixel_clear@[p % 4]
                } else {
                    old(frame)@[p]
                },
        decreases pixels - k,
    {
        let ghost before = frame@;
        write_pixel(frame, k, pixel_clear);
        assert forall|p: int| 0 <= p < frame@.len() implies #[trigger] frame@[p] == if p < (k
            + 1) * 4 {
            pixel_clear@[p % 4]
        } else {
            old(frame)@[p]
        } by {
            if k * 4 <= p < k * 4 + 4 {
                assert(p % 4 == p - k * 4) by (nonlinear_arith)
                    requires
                        k * 4 <= p < k * 4 + 4,
                ;
            }
        }
        k = k + 1;
    }
    assert(frame@ =~= cleared(old(frame)@, pixel_clear@));
}

/// Writing two different pixels gives the same frame in either order, so
/// batches of distinct pixels can be written as they come in.
pub proof fn lemma_distinct_writes_commute(frame: Seq<u8>, a: int, ra: Seq<u8>, b: int, rb: Seq<u8>)
    requires
        a != b,
    ensures
        painted(painted(frame, a, ra), b, rb) == painted(painted(frame, b, rb), a, ra),
{
    assert forall|p: int| 0 <= p < frame.len() implies #[trigger] painted(painted(frame, a, ra), b, rb)[p]
        == painted(painted(frame, b, rb), a, ra)[p] by {
        if a * 4 <= p < a * 4 + 4 && b * 4 <= p < b * 4 + 4 {
            assert(false) by (nonlinear_arith)
                requires
                    a != b,
                    a * 4 <= p < a * 4 + 4,
                    b * 4 <= p < b * 4 + 4,
            ;
        }
    }
    assert(painted(painted(frame, a, ra), b, rb) =~= painted(painted(frame, b, rb), a, ra));
}

/// A pixel reads back the colour last written to it.
pub proof fn lemma_write_reads_back(frame: Seq<u8>, index: int, rgba: Seq<u8>, j: int)
    requires
        0 <= j < 4,
        0 <= index,
        index * 4 + 4 <= frame.len(),
    ensures
        painted(frame, index, rgba)[index * 4 + j] == rgba[j],
{
}

/// Writing a batch leaves the frame as long as it was.
pub proof fn lemma_painted_all_len(frame: Seq<u8>, results: Seq<(usize, [u8; 4])>, count: nat)
    ensures
        painted_all(frame, results, count).len() == frame.len(),
    decreases count,
{
    if count > 0 {
        lemma_painted_all_len(frame, results, (count - 1) as nat);
    }
}

/// A byte of pixel `i` is not a byte of any other pixel.
proof fn lemma_other_pixel(i: int, j: int, other: int)
    requires
        0 <= j < 4,
        i != other,
    ensures
        !(other * 4 <= i * 4 + j < other * 4 + 4),
{
    if other * 4 <= i * 4 + j < other * 4 + 4 {
        assert(false) by (nonlinear_arith)
            requires
                0 <= j < 4,
                i != other,
                other * 4 <= i * 4 + j < other * 4 + 4,
        ;
    }
}

/// After a batch is written, each pixel shows the colour of the last
/// result that names it, byte for byte as given.
pub proof fn lemma_last_write_wins(
    frame: Seq<u8>,
    results: Seq<(usize, [u8; 4])>,
    count: nat,
    k: int,
    j: int,
)
    requires
        results_fit(frame.len(), results),
        count <= results.len(),
        0 <= k < count,
        0 <= j < 4,
        forall|k2: int| k < k2 < count ==> (#[trigger] results[k2]).0 != results[k].0,
    ensures
        painted_all(frame, results, count)[results[k].0 * 4 + j] == results[k].1[j],
    decreases count,
{
    let i = results[k].0 as int;
    assert(results[k].0 * 4 + 4 <= frame.len());
    lemma_painted_all_len(frame, results, (count - 1) as nat);
    if k == count - 1 {
    } else {
        lemma_last_write_wins(frame, results, (count - 1) as nat, k, j);
        let other = results[count - 1].0 as int;
        assert(results[count - 1].0 != results[k].0);
        lemma_other_pixel(i, j, other);
    }
}

/// Writing a batch changes no byte of a pixel that no result names.
pub proof fn lemma_unnamed_bytes_kept(frame: Seq<u8>, results: Seq<(usize, [u8; 4])>, count: nat, p: int)
    requires
        count <= results.len(),
        0 <= p < frame.len(),
        forall|k: int| 0 <= k < count ==> !((#[trigger] results[k]).0 * 4 <= p < results[k].0 * 4 + 4),
    ensures
        painted_all(frame, results, count)[p] == frame[p],
    decreases count,
{
    if count > 0 {
        lemma_painted_all_len(frame, results, (count - 1) as nat);
        lemma_unnamed_bytes_kept(frame, results, (count - 1) as nat, p);
        assert(!(results[count - 1].0 * 4 <= p < results[count - 1].0 * 4 + 4));
    }
}

/// Clearing gives every whole pixel of the frame, the last one included,
/// the clear colour, byte `j` of pixel `i` being byte `j` of the colour;
/// the bytes after the last whole pixel are kept.
pub proof fn lemma_clear_fills_every_pixel(frame: Seq<u8>, colour: Seq<u8>, i: int, j: int, p: int)
    requires
        0 <= i < frame.len() / 4,
        0 <= j < 4,
    ensures
        cleared(frame, colour).len() == frame.len(),
        cleared(frame, colour)[i * 4 + j] == colour[j],
        (frame.len() / 4) * 4 <= p < frame.len() ==> cleared(frame, colour)[p] == frame[p],
{
    let n = frame.len() / 4;
    assert(i * 4 + j < n * 4 && (i * 4 + j) % 4 == j && n * 4 <= frame.len()) by (nonlinear_arith)
        requires
            0 <= i < n,
            0 <= j < 4,
            n == frame.len() / 4,
    ;
}

} // verus!
