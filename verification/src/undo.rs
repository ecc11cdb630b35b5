//! The undo stack of a document.
//!
//! An edit in place is undone from a copy of the original samples, so its cost grows with the
//! selection. The stack is capped: older entries make room for newer ones, and an edit whose own
//! copy is too large is not recorded.

use vstd::prelude::*;
use crate::audio::{AudioInfo, MAX_UNDO_BYTES};
use crate::decode::contents;

verus! {

/// One reversible step.
pub enum UndoEntry {
    /// An edit in place: the original samples from `start` on, by channel.
    Samples { start: usize, channels: Vec<Vec<u32>> },
    /// A trim: the cache file of the document that it replaced, and its geometry.
    Trim { cache_path: String, info: AudioInfo },
}

/// [`UndoEntry`], in the mathematical sense.
pub enum Undo {
    /// The original samples from `start` on, by channel.
    Samples { start: int, channels: Seq<Seq<u32>> },
    /// The cache file and the geometry before a trim.
    Trim { cache_path: Seq<char>, info: AudioInfo },
}

/// The bytes that samples take.
pub open spec fn weight(channels: Seq<Seq<u32>>) -> nat
    decreases channels.len(),
{
    if channels.len() == 0 {
        0
    } else {
        weight(channels.drop_last()) + channels.last().len() * 4
    }
}

/// Channels of equal length weigh four bytes a sample.
pub proof fn lemma_weight(channels: Seq<Seq<u32>>, len: nat)
    requires
        forall|ch: int| 0 <= ch < channels.len() ==> (#[trigger] channels[ch]).len() == len,
    ensures
        weight(channels) == channels.len() * len * 4,
    decreases channels.len(),
{
    if channels.len() > 0 {
        let rest = channels.drop_last();
        assert forall|ch: int| 0 <= ch < rest.len() implies (#[trigger] rest[ch]).len() == len by {
            assert(rest[ch] == channels[ch]);
        }
        lemma_weight(rest, len);
        let n = channels.len() as int;
        assert((n - 1) * len * 4 + len * 4 == n * len * 4) by (nonlinear_arith);
    } else {
        assert(0 * len * 4 == 0) by (nonlinear_arith);
    }
}

impl Undo {
    /// The sample bytes that the entry holds in memory. A trim holds a file, not memory.
    pub open spec fn bytes(self) -> nat {
        match self {
            Undo::Samples { channels, .. } => weight(channels),
            Undo::Trim { .. } => 0,
        }
    }

    /// The cache files that the entry owns.
    pub open spec fn files(self) -> Seq<Seq<char>> {
        match self {
            Undo::Samples { .. } => Seq::empty(),
            Undo::Trim { cache_path, .. } => seq![cache_path],
        }
    }

    /// The entry can be applied to a document with these channels and frames.
    pub open spec fn fits(self, channels: nat, frames: nat) -> bool {
        match self {
            Undo::Samples { start, channels: originals } => {
                &&& originals.len() == channels
                &&& 0 <= start
                &&& forall|ch: int|
                    0 <= ch < originals.len() ==> start + (#[trigger] originals[ch]).len() <= frames
            },
            Undo::Trim { info, .. } => info.channels > 0,
        }
    }
}

impl View for UndoEntry {
    type V = Undo;

    open spec fn view(&self) -> Undo {
        match *self {
            UndoEntry::Samples { start, channels } => Undo::Samples {
                start: start as int,
                channels: contents(channels@),
            },
            UndoEntry::Trim { cache_path, info } => Undo::Trim { cache_path: cache_path@, info },
        }
    }
}

impl UndoEntry {
    /// Sample bytes that the entry holds in memory.
    pub fn bytes(&self) -> (r: usize)
        requires
            self@.bytes() <= usize::MAX,
        ensures
            r == self@.bytes(),
    {
        match self {
            UndoEntry::Samples { channels, .. } => {
                let ghost all = contents(channels@);
                let mut total: usize = 0;
                let mut ch: usize = 0;
                proof {
                    assert(all.take(0) =~= Seq::empty());
                }
                while ch < channels.len()
                    invariant
                        ch <= channels@.len(),
                        all == contents(channels@),
                        weight(all) <= usize::MAX,
                        total == weight(all.take(ch as int)),
                    decreases channels@.len() - ch,
                {
                    proof {
                        assert(all.take(ch + 1).drop_last() =~= all.take(ch as int));
                        assert(all[ch as int] == channels@[ch as int]@);
                        lemma_weight_of_part(all, ch + 1);
                    }
                    total = total + channels[ch].len() * 4;
                    ch = ch + 1;
                }
                proof {
                    assert(all.take(channels@.len() as int) =~= all);
                }
                total
            },
            UndoEntry::Trim { .. } => 0,
        }
    }
}

/// Some of the channels weigh no more than all of them.
proof fn lemma_weight_of_part(channels: Seq<Seq<u32>>, n: int)
    requires
        0 <= n <= channels.len(),
    ensures
        weight(channels.take(n)) <= weight(channels),
    decreases channels.len(),
{
    if n == channels.len() {
        assert(channels.take(n) =~= channels);
    } else {
        let rest = channels.drop_last();
        assert(channels.take(n) =~= rest.take(n));
        lemma_weight_of_part(rest, n);
    }
}

/// The entries of a stack, oldest first.
pub open spec fn entries(stack: Seq<UndoEntry>) -> Seq<Undo> {
    Seq::new(stack.len(), |i: int| stack[i]@)
}

/// The texts of a list of paths.
pub open spec fn texts(paths: Seq<String>) -> Seq<Seq<char>> {
    Seq::new(paths.len(), |i: int| paths[i]@)
}

/// The sample bytes that a stack holds.
pub open spec fn total(stack: Seq<Undo>) -> nat
    decreases stack.len(),
{
    if stack.len() == 0 {
        0
    } else {
        total(stack.drop_last()) + stack.last().bytes()
    }
}

/// The cache files that a stack owns, in order.
pub open spec fn files_of(stack: Seq<Undo>) -> Seq<Seq<char>>
    decreases stack.len(),
{
    if stack.len() == 0 {
        Seq::empty()
    } else {
        files_of(stack.drop_last()) + stack.last().files()
    }
}

/// What is left of a stack when the oldest entries have made room.
pub open spec fn kept(stack: Seq<Undo>) -> Seq<Undo>
    decreases stack.len(),
{
    if total(stack) <= MAX_UNDO_BYTES || stack.len() <= 1 {
        stack
    } else {
        kept(stack.drop_first())
    }
}

/// A stack after an entry was pushed. One that is too large on its own is not recorded, and the
/// older ones, which no longer match the document, go.
pub open spec fn pushed(stack: Seq<Undo>, entry: Undo) -> Seq<Undo> {
    if entry.bytes() > MAX_UNDO_BYTES {
        Seq::empty()
    } else {
        kept(stack.push(entry))
    }
}

/// The cache files of the entries that a push drops.
pub open spec fn dropped(stack: Seq<Undo>, entry: Undo) -> Seq<Seq<char>> {
    if entry.bytes() > MAX_UNDO_BYTES {
        files_of(stack)
    } else {
        let all = stack.push(entry);
        files_of(all.take(all.len() - kept(all).len()))
    }
}

/// The bytes of a stack are those of its oldest entry and of the rest.
proof fn lemma_total_front(stack: Seq<Undo>)
    requires
        stack.len() > 0,
    ensures
        total(stack) == stack.first().bytes() + total(stack.drop_first()),
    decreases stack.len(),
{
    if stack.len() == 1 {
        assert(stack.drop_first() =~= Seq::empty());
        assert(stack.drop_last() =~= Seq::empty());
    } else {
        lemma_total_front(stack.drop_last());
        assert(stack.drop_last().drop_first() =~= stack.drop_first().drop_last());
    }
}

/// The files of a stack are those of a front part and of the rest.
pub proof fn lemma_files_split(stack: Seq<Undo>, n: int)
    requires
        0 <= n <= stack.len(),
    ensures
        files_of(stack) == files_of(stack.take(n)) + files_of(stack.skip(n)),
    decreases stack.len() - n,
{
    if n == stack.len() {
        assert(stack.take(n) =~= stack);
        assert(stack.skip(n) =~= Seq::empty());
        assert(files_of(stack) + Seq::<Seq<char>>::empty() =~= files_of(stack));
    } else {
        lemma_files_split(stack, n + 1);
        assert(stack.take(n + 1).drop_last() =~= stack.take(n));
        assert(stack.take(n + 1).last() == stack[n]);
        lemma_files_front(stack.skip(n));
        assert(stack.skip(n).drop_first() =~= stack.skip(n + 1));
        assert(files_of(stack) =~= files_of(stack.take(n)) + files_of(stack.skip(n)));
    }
}

/// The files of a stack are those of its oldest entry and of the rest.
proof fn lemma_files_front(stack: Seq<Undo>)
    requires
        stack.len() > 0,
    ensures
        files_of(stack) == stack.first().files() + files_of(stack.drop_first()),
    decreases stack.len(),
{
    if stack.len() == 1 {
        assert(stack.drop_first() =~= Seq::empty());
        assert(stack.drop_last() =~= Seq::empty());
        assert(files_of(stack) =~= stack.first().files() + files_of(stack.drop_first()));
    } else {
        lemma_files_front(stack.drop_last());
        assert(stack.drop_last().drop_first() =~= stack.drop_first().drop_last());
        assert(files_of(stack) =~= stack.first().files() + files_of(stack.drop_first()));
    }
}

/// What is kept of a stack is its newest entries, and at least the newest one.
pub proof fn lemma_kept_is_a_suffix(stack: Seq<Undo>)
    ensures
        kept(stack).len() <= stack.len(),
        kept(stack) == stack.skip(stack.len() - kept(stack).len()),
        stack.len() > 0 ==> kept(stack).len() > 0,
        stack.len() > 0 && stack.last().bytes() <= MAX_UNDO_BYTES ==> total(kept(stack)) <= MAX_UNDO_BYTES,
    decreases stack.len(),
{
    if total(stack) <= MAX_UNDO_BYTES || stack.len() <= 1 {
        assert(stack.skip(0) =~= stack);
        if stack.len() == 1 {
            assert(stack.drop_last() =~= Seq::empty());
            assert(total(stack.drop_last()) == 0);
        }
    } else {
        let rest = stack.drop_first();
        lemma_kept_is_a_suffix(rest);
        assert(rest.skip(rest.len() - kept(rest).len()) =~= stack.skip(stack.len() - kept(rest).len()));
    }
}

/// The stack stays under its cap: a push leaves no more sample data on it than it may hold.
pub proof fn law_stack_stays_under_its_cap(stack: Seq<Undo>, entry: Undo)
    ensures
        total(pushed(stack, entry)) <= MAX_UNDO_BYTES,
{
    lemma_kept_is_a_suffix(stack.push(entry));
}

/// A push makes room from the oldest entry on, and only as far as needed: what it leaves is the
/// newest entries with the new one on top, and one entry more would not fit.
pub proof fn law_the_oldest_entries_make_room(stack: Seq<Undo>, entry: Undo)
    requires
        entry.bytes() <= MAX_UNDO_BYTES,
    ensures
        pushed(stack, entry).len() > 0,
        pushed(stack, entry).last() == entry,
        pushed(stack, entry) == stack.push(entry).skip(stack.len() + 1 - pushed(stack, entry).len()),
        pushed(stack, entry).len() <= stack.len() ==> total(
            stack.push(entry).skip(stack.len() - pushed(stack, entry).len()),
        ) > MAX_UNDO_BYTES,
{
    lemma_kept_is_a_suffix(stack.push(entry));
    lemma_kept_is_longest(stack.push(entry));
}

/// One entry more than is kept would not fit.
proof fn lemma_kept_is_longest(stack: Seq<Undo>)
    ensures
        kept(stack).len() < stack.len() ==> total(stack.skip(stack.len() - kept(stack).len() - 1)) > MAX_UNDO_BYTES,
    decreases stack.len(),
{
    lemma_kept_is_a_suffix(stack);
    if !(total(stack) <= MAX_UNDO_BYTES || stack.len() <= 1) {
        let rest = stack.drop_first();
        lemma_kept_is_longest(rest);
        lemma_kept_is_a_suffix(rest);
        if kept(rest).len() == rest.len() {
            assert(stack.skip(0) =~= stack);
        } else {
            assert(rest.skip(rest.len() - kept(rest).len() - 1) =~= stack.skip(stack.len() - kept(rest).len() - 1));
        }
    }
}

/// A push loses no file: each one that the stack and the entry owned is owned by what is left or
/// handed out for deletion, in order.
pub proof fn law_a_push_loses_no_file(stack: Seq<Undo>, entry: Undo)
    requires
        entry.bytes() > MAX_UNDO_BYTES ==> entry is Samples,
    ensures
        dropped(stack, entry) + files_of(pushed(stack, entry)) == files_of(stack) + entry.files(),
{
    let all = stack.push(entry);
    if entry.bytes() > MAX_UNDO_BYTES {
        assert(dropped(stack, entry) + files_of(pushed(stack, entry)) =~= files_of(stack) + entry.files());
    } else {
        lemma_kept_is_a_suffix(all);
        lemma_files_split(all, all.len() - kept(all).len());
        assert(all.drop_last() =~= stack);
    }
}

/// Hands out the cache file that an entry owns.
fn discard(entry: UndoEntry, discarded: &mut Vec<String>)
    ensures
        texts(final(discarded)@) == texts(old(discarded)@) + entry@.files(),
{
    match entry {
        UndoEntry::Samples { .. } => {
            proof {
                assert(texts(discarded@) =~= texts(discarded@) + Seq::<Seq<char>>::empty());
            }
        },
        UndoEntry::Trim { cache_path, .. } => {
            let ghost before = texts(discarded@);
            let ghost path = cache_path@;
            discarded.push(cache_path);
            proof {
                assert(texts(discarded@) =~= before + seq![path]);
            }
        },
    }
}

/// Drops the oldest entry, handing out the cache file that it owns.
fn drop_oldest(stack: &mut Vec<UndoEntry>, discarded: &mut Vec<String>)
    requires
        old(stack)@.len() > 0,
    ensures
        entries(final(stack)@) == entries(old(stack)@).drop_first(),
        texts(final(discarded)@) == texts(old(discarded)@) + entries(old(stack)@).first().files(),
{
    let ghost before = stack@;
    let entry: UndoEntry = stack.remove(0);
    proof {
        assert(entries(stack@) =~= entries(before).drop_first());
    }
    discard(entry, discarded);
}

/// Drops all entries, handing out the cache files that they own.
pub fn clear(stack: &mut Vec<UndoEntry>, discarded: &mut Vec<String>)
    ensures
        final(stack)@ == Seq::<UndoEntry>::empty(),
        texts(final(discarded)@) == texts(old(discarded)@) + files_of(entries(old(stack)@)),
{
    let ghost all = entries(stack@);
    let ghost before = texts(discarded@);
    proof {
        assert(all.skip(0) =~= all);
        assert(all.take(0) =~= Seq::empty());
        assert(before =~= before + files_of(all.take(0)));
    }
    while stack.len() > 0
        invariant
            stack@.len() <= all.len(),
            entries(stack@) == all.skip(all.len() - stack@.len()),
            texts(discarded@) == before + files_of(all.take(all.len() - stack@.len())),
        decreases stack@.len(),
    {
        let ghost n = all.len() - stack@.len();
        drop_oldest(stack, discarded);
        proof {
            assert(all.skip(n).drop_first() =~= all.skip(n + 1));
            assert(all.take(n + 1).drop_last() =~= all.take(n));
            assert(all.take(n + 1).last() == all.skip(n).first());
            assert(entries(stack@).len() == stack@.len());
            assert(texts(discarded@) =~= before + files_of(all.take(n + 1)));
        }
    }
    proof {
        assert(all.take(all.len() as int) =~= all);
    }
}

/// Pushes an entry, dropping the oldest ones to stay under the cap. Returns whether the entry was
/// recorded.
pub fn push(stack: &mut Vec<UndoEntry>, entry: UndoEntry, discarded: &mut Vec<String>) -> (r: bool)
    requires
        entry@.bytes() <= usize::MAX,
        entry@.bytes() > MAX_UNDO_BYTES ==> entry@ is Samples,
        total(entries(old(stack)@)) <= MAX_UNDO_BYTES,
    ensures
        r == (entry@.bytes() <= MAX_UNDO_BYTES),
        entries(final(stack)@) == pushed(entries(old(stack)@), entry@),
        texts(final(discarded)@) == texts(old(discarded)@) + dropped(entries(old(stack)@), entry@),
{
    let ghost before = texts(discarded@);
    let bytes: usize = entry.bytes();
    if bytes > MAX_UNDO_BYTES {
        clear(stack, discarded);
        proof {
            assert(entries(stack@) =~= Seq::empty());
        }
        return false;
    }
    let ghost all = entries(stack@).push(entry@);
    let mut sum: usize = bytes;
    let mut i: usize = 0;
    let ghost older = entries(stack@);
    proof {
        assert(older.take(0) =~= Seq::empty());
    }
    while i < stack.len()
        invariant
            i <= stack@.len(),
            older == entries(stack@),
            total(older) <= MAX_UNDO_BYTES,
            bytes <= MAX_UNDO_BYTES,
            sum == total(older.take(i as int)) + bytes,
        decreases stack@.len() - i,
    {
        proof {
            assert(older.take(i + 1).drop_last() =~= older.take(i as int));
            assert(older[i as int] == stack@[i as int]@);
            lemma_total_of_part(older, i + 1);
        }
        sum = sum + stack[i].bytes();
        i = i + 1;
    }
    stack.push(entry);
    proof {
        assert(older.take(older.len() as int) =~= older);
        assert(entries(stack@) =~= all);
        assert(all.drop_last() =~= older);
        assert(all.skip(0) =~= all);
        assert(all.take(0) =~= Seq::empty());
        assert(before =~= before + files_of(all.take(0)));
    }
    while sum > MAX_UNDO_BYTES && stack.len() > 1
        invariant
            0 < stack@.len() <= all.len(),
            entries(stack@) == all.skip(all.len() - stack@.len()),
            sum == total(entries(stack@)),
            kept(entries(stack@)) == kept(all),
            texts(discarded@) == before + files_of(all.take(all.len() - stack@.len())),
        decreases stack@.len(),
    {
        let ghost n = all.len() - stack@.len();
        proof {
            lemma_total_front(entries(stack@));
            assert(entries(stack@).first() == stack@[0]@);
        }
        sum = sum - stack[0].bytes();
        drop_oldest(stack, discarded);
        proof {
            assert(all.skip(n).drop_first() =~= all.skip(n + 1));
            assert(all.take(n + 1).drop_last() =~= all.take(n));
            assert(all.take(n + 1).last() == all.skip(n).first());
            assert(entries(stack@).len() == stack@.len());
            assert(texts(discarded@) =~= before + files_of(all.take(n + 1)));
        }
    }
    true
}

/// Some of the entries hold no more than all of them.
proof fn lemma_total_of_part(stack: Seq<Undo>, n: int)
    requires
        0 <= n <= stack.len(),
    ensures
        total(stack.take(n)) <= total(stack),
    decreases stack.len(),
{
    if n == stack.len() {
        assert(stack.take(n) =~= stack);
    } else {
        let rest = stack.drop_last();
        assert(stack.take(n) =~= rest.take(n));
        lemma_total_of_part(rest, n);
    }
}

/// A snapshot weighs four bytes for each of its samples, and a trim weighs nothing.
pub proof fn law_a_snapshot_weighs_four_bytes_a_sample(entry: Undo)
    ensures
        entry matches Undo::Samples { channels, .. } ==> entry.bytes() == channels.fold_left(
            0int,
            |sum: int, c: Seq<u32>| sum + 4 * c.len(),
        ),
        entry is Trim ==> entry.bytes() == 0,
{
    if let Undo::Samples { channels, .. } = entry {
        lemma_weight_is_a_sum(channels);
    }
}

proof fn lemma_weight_is_a_sum(channels: Seq<Seq<u32>>)
    ensures
        weight(channels) == channels.fold_left(0int, |sum: int, c: Seq<u32>| sum + 4 * c.len()),
    decreases channels.len(),
{
    let step = |sum: int, c: Seq<u32>| sum + 4 * c.len();
    if channels.len() > 0 {
        lemma_weight_is_a_sum(channels.drop_last());
        assert(channels.fold_left(0int, step) == step(
            channels.drop_last().fold_left(0int, step),
            channels.last(),
        ));
    }
}

/// A stack weighs as much as its entries together.
pub proof fn law_a_stack_weighs_what_its_entries_weigh(stack: Seq<Undo>)
    ensures
        total(stack) == stack.fold_left(0int, |sum: int, e: Undo| sum + e.bytes()),
    decreases stack.len(),
{
    let step = |sum: int, e: Undo| sum + e.bytes();
    if stack.len() > 0 {
        law_a_stack_weighs_what_its_entries_weigh(stack.drop_last());
        assert(stack.fold_left(0int, step) == step(stack.drop_last().fold_left(0int, step), stack.last()));
    }
}

/// Entries are kept as long as all of them together weigh no more than 256 MiB: a push that stays under
/// that drops nothing, and one that would exceed it on its own leaves nothing.
pub proof fn law_what_fits_is_kept(stack: Seq<Undo>, entry: Undo)
    ensures
        total(stack) + entry.bytes() <= 268435456 ==> pushed(stack, entry) == stack.push(entry),
        total(stack) + entry.bytes() <= 268435456 ==> dropped(stack, entry) == Seq::<Seq<char>>::empty(),
        entry.bytes() > 268435456 ==> pushed(stack, entry) == Seq::<Undo>::empty(),
        total(pushed(stack, entry)) <= 268435456,
{
    let all = stack.push(entry);
    assert(all.drop_last() =~= stack);
    law_stack_stays_under_its_cap(stack, entry);
    assert(all.take(0) =~= Seq::<Undo>::empty());
}

/// The cache files of a stack are those of its trims, from the oldest to the newest: the files of two
/// stacks on top of each other are those of the one and then those of the other.
pub proof fn law_a_stack_owns_the_files_of_its_trims(lower: Seq<Undo>, upper: Seq<Undo>, entry: Undo)
    ensures
        files_of(lower + upper) == files_of(lower) + files_of(upper),
        entry matches Undo::Trim { cache_path, .. } ==> files_of(seq![entry]) == seq![cache_path],
        entry is Samples ==> files_of(seq![entry]) == Seq::<Seq<char>>::empty(),
        files_of(Seq::empty()) == Seq::<Seq<char>>::empty(),
    decreases upper.len(),
{
    assert(seq![entry].drop_last() =~= Seq::<Undo>::empty());
    assert(files_of(seq![entry].drop_last()) =~= Seq::<Seq<char>>::empty());
    assert(files_of(seq![entry]) =~= entry.files());
    if upper.len() == 0 {
        assert(lower + upper =~= lower);
        assert(files_of(lower) + files_of(upper) =~= files_of(lower));
    } else {
        law_a_stack_owns_the_files_of_its_trims(lower, upper.drop_last(), entry);
        assert((lower + upper).drop_last() =~= lower + upper.drop_last());
        assert((lower + upper).last() == upper.last());
        assert(files_of(lower + upper) =~= files_of(lower) + files_of(upper));
    }
}

/// The entries and the texts of a stack and of a list are those of each element, in the same order.
pub proof fn law_views_keep_their_order(stack: Seq<UndoEntry>, paths: Seq<String>, i: int)
    ensures
        entries(stack).len() == stack.len(),
        0 <= i < stack.len() ==> entries(stack)[i] == stack[i]@,
        texts(paths).len() == paths.len(),
        0 <= i < paths.len() ==> texts(paths)[i] == paths[i]@,
{
}

} // verus!
