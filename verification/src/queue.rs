//! The queue of pixels still to be shaded, shared by the render workers.
use vstd::prelude::*;
use rand::seq::SliceRandom;

verus! {

#[verifier::external_type_specification]
#[verifier::external_body]
pub struct ExThreadRng(rand::rngs::ThreadRng);

/// Calls `rand::thread_rng`, which hands out the thread's random generator.
/// Nothing is stated about it: it only serves to draw random numbers.
#[verifier::external_body]
fn thread_rng() -> rand::rngs::ThreadRng {
    rand::thread_rng()
}

/// Calls `rand::seq::SliceRandom::shuffle` on the vector. The crate's source
/// only swaps elements (a Fisher-Yates shuffle), so the vector ends up
/// holding the same elements, each as often as before; which order comes
/// out depends on the generator and is not stated.
#[verifier::external_body]
fn shuffle(v: &mut Vec<usize>, rng: &mut rand::rngs::ThreadRng)
    ensures
        final(v)@.to_multiset() == old(v)@.to_multiset(),
{
    v.shuffle(rng)
}

/// The pixel indices `0 .. n` in order.
pub open spec fn pixel_indices(n: nat) -> Seq<usize> {
    Seq::new(n, |i: int| i as usize)
}

/// A new queue holding every pixel index of a `buffer_width` by
/// `buffer_height` buffer once, in random order.
pub fn new_ray_queue(buffer_width: u32, buffer_height: u32) -> (queue: Vec<usize>)
    requires
        buffer_height as int * buffer_width as int <= usize::MAX,
    ensures
        queue@.to_multiset() == pixel_indices((buffer_height as int * buffer_width as int) as nat).to_multiset(),
        queue@.len() == buffer_height as int * buffer_width as int,
{
    broadcast use vstd::seq_lib::group_to_multiset_ensures;

    assert(buffer_height as usize as int * buffer_width as usize as int == buffer_height as int
        * buffer_width as int);
    let size: usize = buffer_height as usize * buffer_width as usize;
    let mut queue: Vec<usize> = Vec::new();
    let mut i: usize = 0;
    while i < size
        invariant
            i <= size,
            size == buffer_height as int * buffer_width as int,
            queue@ == pixel_indices(i as nat),
        decreases size - i,
    {
        queue.push(i);
        i = i + 1;
        assert(queue@ =~= pixel_indices(i as nat));
    }
    let ghost before = queue@;
    let mut rng = thread_rng();
    shuffle(&mut queue, &mut rng);
    proof {
        assert(queue@.to_multiset().len() == before.to_multiset().len());
    }
    queue
}

/// Takes up to `pixels_per_thread` indices off the back of the queue, in
/// the order they are popped.
pub fn pop_batch(queue: &mut Vec<usize>, pixels_per_thread: u32) -> (batch: Vec<usize>)
    ensures
        ({
            let len = old(queue)@.len();
            let taken = if pixels_per_thread as int <= len {
                pixels_per_thread as int
            } else {
                len as int
            };
            &&& final(queue)@ == old(queue)@.take(len - taken)
            &&& batch@ == old(queue)@.skip(len - taken).reverse()
        }),
{
    let ghost start = queue@;
    let mut batch: Vec<usize> = Vec::new();
    let mut k: u32 = 0;
    while k < pixels_per_thread
        invariant
            k <= pixels_per_thread,
            queue@.len() + k == start.len(),
            queue@.len() <= start.len(),
            queue@ == start.take(queue@.len() as int),
            batch@ == start.skip(queue@.len() as int).reverse(),
        ensures
            k == pixels_per_thread || queue@.len() == 0,
        decreases pixels_per_thread - k,
    {
        match queue.pop() {
            Some(index) => {
                let ghost len = queue@.len();
                batch.push(index);
                assert(start.skip(len as int).reverse() =~= start.skip((len + 1) as int).reverse().push(
                    index,
                ));
                assert(queue@ =~= start.take(len as int));
            },
            None => {
                break ;
            },
        }
        k = k + 1;
    }
    batch
}

/// Nothing is lost or repeated by taking a batch: what is left, followed by
/// the batch in the order it was popped read backwards, is the old queue.
pub proof fn lemma_pop_batch_keeps_pixels(before: Seq<usize>, after: Seq<usize>, batch: Seq<usize>, taken: int)
    requires
        0 <= taken <= before.len(),
        after == before.take(before.len() - taken),
        batch == before.skip(before.len() - taken).reverse(),
    ensures
        after + batch.reverse() == before,
        (after + batch.reverse()).to_multiset() == before.to_multiset(),
{
    assert(batch.reverse() =~= before.skip(before.len() - taken));
    assert(after + batch.reverse() =~= before);
}

} // verus!
