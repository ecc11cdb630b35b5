//! The ring buffer between the audio callback and the thread behind it.
//!
//! The two ends of a ring may live on different threads. What one end sees of the other changes
//! with time, so the outside calls say what holds whatever the other end does meanwhile.

use vstd::prelude::*;
use rtrb::{Consumer, Producer};

verus! {

/// The writing end of a ring.
#[verifier::external_type_specification]
#[verifier::external_body]
#[verifier::reject_recursive_types(T)]
pub struct ExProducer<T>(rtrb::Producer<T>);

/// The reading end of a ring.
#[verifier::external_type_specification]
#[verifier::external_body]
#[verifier::reject_recursive_types(T)]
pub struct ExConsumer<T>(rtrb::Consumer<T>);

/// All that was written so far, in order.
pub uninterp spec fn written(p: Producer<u32>) -> Seq<u32>;

/// All that was read so far, in order.
pub uninterp spec fn read(c: Consumer<u32>) -> Seq<u32>;

/// All that is ever written into the ring of a writing end, in order.
pub uninterp spec fn inflow(p: Producer<u32>) -> Seq<u32>;

/// All that is ever written into the ring of a reading end, in order.
pub uninterp spec fn outflow(c: Consumer<u32>) -> Seq<u32>;

/// How many slots the ring of a writing end has.
pub uninterp spec fn size(p: Producer<u32>) -> nat;

/// How many slots of the ring are free, as the writing end sees it, when it writes next. Until then
/// the reading end may free slots and takes none.
pub uninterp spec fn room(p: Producer<u32>) -> nat;

/// How many slots of the ring were free, as the writing end saw it, when it had written last, or all
/// of them before it writes.
pub uninterp spec fn spare(p: Producer<u32>) -> nat;

/// How many slots of the ring are filled, as the reading end sees it, when it reads next. Until then
/// the writing end may fill slots and frees none.
pub uninterp spec fn ready(c: Consumer<u32>) -> nat;

/// How many slots of the ring were filled, as the reading end saw it, when it had read last, or none
/// before it reads.
pub uninterp spec fn left(c: Consumer<u32>) -> nat;

/// `rtrb::RingBuffer::new`: the two ends of an empty ring with `capacity` slots, all of them free.
/// It allocates the slots, so their bytes have to be countable.
#[verifier::external_body]
pub(crate) fn ring(capacity: usize) -> (r: (Producer<u32>, Consumer<u32>))
    requires
        capacity * 4 <= isize::MAX,
    ensures
        written(r.0) == Seq::<u32>::empty(),
        read(r.1) == Seq::<u32>::empty(),
        inflow(r.0) == outflow(r.1),
        size(r.0) == capacity,
        room(r.0) == capacity,
        spare(r.0) == capacity,
        left(r.1) == 0,
{
    rtrb::RingBuffer::new(capacity)
}

/// `rtrb::Producer::slots`: how many slots are free now, which is no more than when the end writes
/// next, and no fewer than it left free when it wrote last. All are free but those that were written
/// and not yet read, so at least those that were never written.
#[verifier::external_body]
pub(crate) fn free_slots(p: &Producer<u32>) -> (r: usize)
    ensures
        spare(*p) <= r <= room(*p),
        size(*p) <= r + written(*p).len(),
{
    p.slots()
}

/// `rtrb::Producer::push_entire_slice`: writes all of `slice` where that many slots are free, else
/// nothing. The result tells which.
#[verifier::external_body]
pub(crate) fn push_slice(p: &mut Producer<u32>, slice: &[u32]) -> (r: bool)
    ensures
        r == (slice@.len() <= room(*old(p))),
        r ==> written(*final(p)) == written(*old(p)) + slice@,
        !r ==> written(*final(p)) == written(*old(p)),
        r ==> spare(*final(p)) == room(*old(p)) - slice@.len(),
        !r ==> spare(*final(p)) == room(*old(p)),
        inflow(*final(p)) == inflow(*old(p)),
        size(*final(p)) == size(*old(p)),
        written(*final(p)).is_prefix_of(inflow(*final(p))),
{
    p.push_entire_slice(slice).is_ok()
}

/// `rtrb::Consumer::slots`: how many slots are filled now, which is no more than when the end reads
/// next, and no fewer than it left behind when it read last.
#[verifier::external_body]
pub(crate) fn filled_slots(c: &Consumer<u32>) -> (r: usize)
    ensures
        left(*c) <= r <= ready(*c),
{
    c.slots()
}

/// `rtrb::Consumer::is_empty`: whether no slot is filled now. A slot may be filled the next moment,
/// so of an empty ring it is said that nothing was left behind when the end read last. One that is
/// not empty still has a filled slot when the end reads next.
#[verifier::external_body]
pub(crate) fn is_empty(c: &Consumer<u32>) -> (r: bool)
    ensures
        r ==> left(*c) == 0,
        !r ==> ready(*c) > 0,
{
    c.is_empty()
}

/// `rtrb::Consumer::pop_entire_slice`: fills all of `slice` with what was written first and not yet
/// read where that much is there, else touches nothing. The result tells which.
#[verifier::external_body]
pub(crate) fn pop_slice(c: &mut Consumer<u32>, slice: &mut [u32]) -> (r: bool)
    ensures
        r == (old(slice)@.len() <= ready(*old(c))),
        final(slice)@.len() == old(slice)@.len(),
        r ==> read(*final(c)) == read(*old(c)) + final(slice)@,
        !r ==> read(*final(c)) == read(*old(c)) && final(slice)@ == old(slice)@,
        r ==> left(*final(c)) == ready(*old(c)) - old(slice)@.len(),
        !r ==> left(*final(c)) == ready(*old(c)),
        outflow(*final(c)) == outflow(*old(c)),
        read(*final(c)).is_prefix_of(outflow(*final(c))),
{
    c.pop_entire_slice(slice).is_ok()
}

/// The next `n` samples that the reading end reads.
pub open spec fn coming(c: Consumer<u32>, n: nat) -> Seq<u32> {
    outflow(c).subrange(read(c).len() as int, (read(c).len() + n) as int)
}

/// Where all that was read so far, and what was read now, is the beginning of what goes through the
/// ring, what was read now is the next of it.
pub(crate) proof fn lemma_coming(before: Consumer<u32>, after: Consumer<u32>, got: Seq<u32>)
    requires
        read(after) == read(before) + got,
        outflow(after) == outflow(before),
        read(after).is_prefix_of(outflow(after)),
    ensures
        got == coming(before, got.len()),
{
    let all = read(after);
    let from = read(before).len();
    let next = coming(before, got.len());
    assert(all == outflow(after).subrange(0, all.len() as int));
    assert forall|i: int| 0 <= i < got.len() implies #[trigger] got[i] == next[i] by {
        assert(all[from + i] == got[i]);
    }
    assert(got =~= next);
}

/// What comes out of a ring is what went in, in order: of what was written and what was read, one is
/// the beginning of the other, and where as much was read as was written, they are equal.
pub proof fn law_a_ring_keeps_the_order(p: Producer<u32>, c: Consumer<u32>)
    requires
        inflow(p) == outflow(c),
        written(p).is_prefix_of(inflow(p)),
        read(c).is_prefix_of(outflow(c)),
    ensures
        read(c).len() <= written(p).len() ==> read(c) == written(p).take(read(c).len() as int),
        read(c).len() == written(p).len() ==> read(c) == written(p),
{
    if read(c).len() <= written(p).len() {
        assert(read(c) =~= written(p).take(read(c).len() as int));
    }
    if read(c).len() == written(p).len() {
        assert(written(p).take(read(c).len() as int) =~= written(p));
    }
}

/// What comes next out of a ring continues what was read: its sample `i` stands `i` places behind that in
/// the order in which all was written.
pub proof fn law_what_comes_next_continues_what_was_read(c: Consumer<u32>, n: nat, i: int)
    requires
        read(c).len() + n <= outflow(c).len(),
        0 <= i < n,
    ensures
        coming(c, n).len() == n,
        coming(c, n)[i] == outflow(c)[read(c).len() + i],
{
}

} // verus!
