//! The naming convention of PCM cache files, and which of them are orphans.
//!
//! A cache file carries the pid of the process that made it, so a later run can ask whether that
//! process is still there. Only a file that is provably stale is reaped; whatever is uncertain is
//! kept, because deleting a live instance's cache is far worse than leaving a dead one on disk.

use vstd::prelude::*;
use crate::text::{decimal, digits, law_digits_are_injective, lemma_digits_shape, parse_decimal};

verus! {

/// What every cache file name starts with.
pub const PREFIX: &'static str = "pcm-";

/// What every cache file name ends with.
pub const SUFFIX: &'static str = ".cache";

/// The cache file name for `pid` and `counter`.
pub open spec fn name_of(pid: u32, counter: u64) -> Seq<char> {
    PREFIX@ + digits(pid as nat) + seq!['-'] + digits(counter as nat) + SUFFIX@
}

/// `name` is a cache file name that carries `pid`.
pub open spec fn carries(name: Seq<char>, pid: u32) -> bool {
    exists|counter: u64| name == #[trigger] name_of(pid, counter)
}

/// The cache file name for `pid` and `counter`: `pcm-<pid>-<counter>.cache`.
pub fn file_name(pid: u32, counter: u64) -> (r: String)
    ensures
        r@ == name_of(pid, counter),
{
    let mut s: String = PREFIX.to_owned();
    s.append(decimal(pid as u64).as_str());
    proof {
        reveal_strlit("-");
        assert("-"@ =~= seq!['-']);
    }
    s.append("-");
    s.append(decimal(counter).as_str());
    s.append(SUFFIX);
    s
}

/// `name` has the prefix and the suffix of a cache file name and a dash between them.
spec fn well_shaped(name: Seq<char>) -> bool {
    &&& name.len() >= 10
    &&& name.take(4) == PREFIX@
    &&& name.skip(name.len() - 6) == SUFFIX@
    &&& exists|i: int| 4 <= i < name.len() - 6 && #[trigger] name[i] == '-'
}

/// Where the parts of a cache file name stand.
proof fn lemma_name_parts(pid: u32, counter: u64)
    ensures
        PREFIX@ == seq!['p', 'c', 'm', '-'],
        SUFFIX@ == seq!['.', 'c', 'a', 'c', 'h', 'e'],
        ({
            let name = name_of(pid, counter);
            let dash = 4 + digits(pid as nat).len() as int;
            let end = name.len() - 6;
            &&& name.len() == dash + 1 + digits(counter as nat).len() + 6
            &&& name.take(4) == PREFIX@
            &&& name.skip(end) == SUFFIX@
            &&& name.subrange(4, dash) == digits(pid as nat)
            &&& name[dash as int] == '-'
            &&& name.subrange(dash + 1, end) == digits(counter as nat)
            &&& forall|i: int| 4 <= i < dash ==> #[trigger] name[i] != '-'
        }),
{
    reveal_strlit("pcm-");
    reveal_strlit(".cache");
    assert(PREFIX@ =~= seq!['p', 'c', 'm', '-']);
    assert(SUFFIX@ =~= seq!['.', 'c', 'a', 'c', 'h', 'e']);
    lemma_digits_shape(pid as nat);
    let name = name_of(pid, counter);
    let dash = 4 + digits(pid as nat).len() as int;
    let end = name.len() - 6;
    assert(name.take(4) =~= PREFIX@);
    assert(name.skip(end) =~= SUFFIX@);
    assert(name.subrange(4, dash as int) =~= digits(pid as nat));
    assert(name.subrange(dash + 1, end) =~= digits(counter as nat));
    assert forall|i: int| 4 <= i < dash implies #[trigger] name[i] != '-' by {
        assert(name[i] == digits(pid as nat)[i - 4]);
    }
}

/// A cache file name carries one pid, and one counter.
pub proof fn law_file_names_are_distinct(pid: u32, counter: u64, pid2: u32, counter2: u64)
    requires
        name_of(pid, counter) == name_of(pid2, counter2),
    ensures
        pid == pid2,
        counter == counter2,
{
    lemma_name_parts(pid, counter);
    lemma_name_parts(pid2, counter2);
    let name = name_of(pid, counter);
    let d1 = 4 + digits(pid as nat).len();
    let d2 = 4 + digits(pid2 as nat).len();
    assert(d1 == d2) by {
        if d1 < d2 {
            assert(name[d1 as int] == '-');
        }
        if d2 < d1 {
            assert(name[d2 as int] == '-');
        }
    }
    law_digits_are_injective(pid as nat, pid2 as nat);
    law_digits_are_injective(counter as nat, counter2 as nat);
}

/// Reading back a file name gives the pid that it was made for.
pub proof fn law_file_name_round_trips(pid: u32, counter: u64, found: u32)
    ensures
        carries(name_of(pid, counter), found) <==> found == pid,
{
    if carries(name_of(pid, counter), found) {
        let c = choose|c: u64| name_of(pid, counter) == #[trigger] name_of(found, c);
        law_file_names_are_distinct(pid, counter, found, c);
    }
}

/// The pid in a cache file name, or `None` where `name` is not one: the exact inverse of
/// [`file_name`]. The sweep deletes what this recognises, so nothing else matches.
pub fn parse_pid(name: &str) -> (r: Option<u32>)
    ensures
        match r {
            Some(pid) => carries(name@, pid),
            None => forall|pid: u32| !#[trigger] carries(name@, pid),
        },
{
    proof {
        lemma_name_parts(0, 0);
        assert forall|pid: u32| #[trigger] carries(name@, pid) implies well_shaped(name@) by {
            let counter = choose|counter: u64| name@ == #[trigger] name_of(pid, counter);
            lemma_name_parts(pid, counter);
            assert(name@[4 + digits(pid as nat).len() as int] == '-');
        }
    }
    let n: usize = name.unicode_len();
    if n < 10 {
        return None;
    }
    let end: usize = n - 6;
    let prefix: bool = name.get_char(0) == 'p' && name.get_char(1) == 'c' && name.get_char(2) == 'm'
        && name.get_char(3) == '-';
    let suffix: bool = name.get_char(end) == '.' && name.get_char(end + 1) == 'c' && name.get_char(end + 2) == 'a'
        && name.get_char(end + 3) == 'c' && name.get_char(end + 4) == 'h' && name.get_char(end + 5) == 'e';
    proof {
        assert(prefix <==> name@.take(4) =~= PREFIX@);
        assert(suffix <==> name@.skip(end as int) =~= SUFFIX@);
    }
    if !prefix || !suffix {
        return None;
    }
    let mut dash: usize = 4;
    while dash < end && name.get_char(dash) != '-'
        invariant
            4 <= dash <= end,
            end < name@.len(),
            forall|i: int| 4 <= i < dash ==> #[trigger] name@[i] != '-',
        decreases end - dash,
    {
        dash = dash + 1;
    }
    if dash == end {
        return None;
    }
    let pid: Option<u64> = parse_decimal(name, 4, dash, u32::MAX as u64);
    let counter: Option<u64> = parse_decimal(name, dash + 1, end, u64::MAX);
    proof {
        assert forall|p: u32, c: u64| name@ == #[trigger] name_of(p, c) implies name@.subrange(4, dash as int) == digits(
            p as nat,
        ) && name@.subrange(dash + 1, end as int) == digits(c as nat) by {
            lemma_name_parts(p, c);
            let d = 4 + digits(p as nat).len();
            assert(name@[d as int] == '-');
            assert(d == dash);
        }
    }
    match (pid, counter) {
        (Some(p), Some(c)) => {
            proof {
                assert(name@ =~= name@.take(4) + name@.subrange(4, dash as int) + seq!['-'] + name@.subrange(
                    dash + 1,
                    end as int,
                ) + name@.skip(end as int));
                assert(name@ == name_of(p as u32, c));
            }
            Some(p as u32)
        },
        _ => {
            proof {
                assert forall|p: u32| !#[trigger] carries(name@, p) by {
                    if carries(name@, p) {
                        let c = choose|c: u64| name@ == #[trigger] name_of(p, c);
                        assert(name@.subrange(4, dash as int) == digits(p as nat));
                        assert(name@.subrange(dash + 1, end as int) == digits(c as nat));
                    }
                }
            }
            None
        },
    }
}

/// What signalling a process with nothing came to.
#[derive(Debug, Clone, Copy, PartialEq, Eq, Structural)]
pub enum Probe {
    /// The signal could be sent.
    Sent,
    /// The signal could not be sent; the system gave this error number.
    Failed(i32),
}

/// The error number by which the system says that no process has the pid.
pub const ESRCH: i32 = 3;

/// Whether `pid` names a process that exists, where `probe` signals a positive pid with nothing.
///
/// Zero and what is too large for a pid would address a process group, so the system is not asked;
/// such a pid counts as alive and its file is left alone. A process is dead only where the system
/// says that there is none: one that may not be signalled exists, and after any other failure too the
/// file is left alone.
pub fn pid_is_live<P: Fn(i32) -> Probe>(pid: u32, probe: P) -> (r: bool)
    requires
        0 < pid <= i32::MAX ==> call_requires(probe, (pid as i32,)),
    ensures
        pid == 0 || pid > i32::MAX ==> r,
        0 < pid <= i32::MAX ==> exists|p: Probe| #[trigger]
            call_ensures(probe, (pid as i32,), p) && r == (p != Probe::Failed(ESRCH)),
{
    if pid == 0 || pid > i32::MAX as u32 {
        return true;
    }
    let answer: Probe = probe(pid as i32);
    match answer {
        Probe::Sent => true,
        Probe::Failed(errno) => errno != ESRCH,
    }
}

/// What a sweep did.
#[derive(Debug, Clone, Copy, PartialEq, Eq, Structural)]
pub struct Swept {
    /// Orphaned caches deleted.
    pub removed: usize,
    /// Total bytes freed by those deletions.
    pub bytes_freed: u64,
    /// Caches left alone because their process is still alive.
    pub kept: usize,
    /// Caches that looked stale but could not be deleted.
    pub failed: usize,
}

impl Default for Swept {
    fn default() -> (r: Self)
        ensures
            r == swept_after(Seq::empty()),
    {
        Swept { removed: 0, bytes_freed: 0, kept: 0, failed: 0 }
    }
}

/// A directory entry: its name where that is text, and whether it is a regular file. A directory
/// or a symbolic link is none.
#[derive(Debug)]
pub struct Entry {
    /// The file name.
    pub name: Option<String>,
    /// Whether the entry itself is a regular file.
    pub is_file: bool,
}

/// What an attempt to delete a file gave.
#[derive(Debug, Clone, Copy, PartialEq, Eq, Structural)]
pub enum Removal {
    /// The file is deleted; it held this many bytes.
    Done(u64),
    /// Somebody else deleted it first.
    Missing,
    /// The file could not be deleted.
    Failed,
}

/// What became of an entry.
#[derive(Debug, Clone, Copy, PartialEq, Eq, Structural)]
pub enum Fate {
    /// It is no cache file.
    Ignored,
    /// Its process is alive.
    Kept,
    /// Its deletion was attempted.
    Reaped(Removal),
}

impl Swept {
    /// The counts after one more entry. The byte count stops at its largest value.
    pub open spec fn noted(self, fate: Fate) -> Swept {
        match fate {
            Fate::Ignored => self,
            Fate::Kept => Swept { kept: (self.kept + 1) as usize, ..self },
            Fate::Reaped(Removal::Done(size)) => Swept {
                removed: (self.removed + 1) as usize,
                bytes_freed: if self.bytes_freed + size <= u64::MAX {
                    (self.bytes_freed + size) as u64
                } else {
                    u64::MAX
                },
                ..self
            },
            Fate::Reaped(Removal::Missing) => self,
            Fate::Reaped(Removal::Failed) => Swept { failed: (self.failed + 1) as usize, ..self },
        }
    }

    /// Counts what became of one entry.
    pub fn note(&mut self, fate: Fate)
        requires
            old(self).removed < usize::MAX,
            old(self).kept < usize::MAX,
            old(self).failed < usize::MAX,
        ensures
            *final(self) == old(self).noted(fate),
    {
        match fate {
            Fate::Ignored => {},
            Fate::Kept => {
                self.kept = self.kept + 1;
            },
            Fate::Reaped(Removal::Done(size)) => {
                self.removed = self.removed + 1;
                self.bytes_freed = if size <= u64::MAX - self.bytes_freed {
                    self.bytes_freed + size
                } else {
                    u64::MAX
                };
            },
            Fate::Reaped(Removal::Missing) => {},
            Fate::Reaped(Removal::Failed) => {
                self.failed = self.failed + 1;
            },
        }
    }
}

/// The counts over a whole sweep.
pub open spec fn swept_after(fates: Seq<Fate>) -> Swept
    decreases fates.len(),
{
    if fates.len() == 0 {
        Swept { removed: 0, bytes_freed: 0, kept: 0, failed: 0 }
    } else {
        swept_after(fates.drop_last()).noted(fates.last())
    }
}

/// `entry` is a regular file with a cache file name that carries `pid`.
pub open spec fn is_cache_of(entry: Entry, pid: u32) -> bool {
    entry.is_file && (entry.name matches Some(name) && carries(name@, pid))
}

/// `entry` is a cache whose process is gone: it carries `current` or a pid that `is_live` finds dead.
pub open spec fn stale<L: Fn(u32) -> bool>(entry: Entry, current: u32, is_live: L) -> bool {
    exists|pid: u32| #[trigger]
        is_cache_of(entry, pid) && (pid == current || call_ensures(is_live, (pid,), false))
}

/// `fate` is what befalls entry `i`. What is no cache file is ignored. A cache that carries another
/// pid than `current` is kept where its process is alive. Any other is reaped.
pub open spec fn befalls<L: Fn(u32) -> bool, R: Fn(usize) -> Removal>(
    entry: Entry,
    i: usize,
    current: u32,
    is_live: L,
    remove: R,
    fate: Fate,
) -> bool {
    match fate {
        Fate::Ignored => forall|pid: u32| !#[trigger] is_cache_of(entry, pid),
        Fate::Kept => exists|pid: u32| #[trigger]
            is_cache_of(entry, pid) && pid != current && call_ensures(is_live, (pid,), true),
        Fate::Reaped(removal) => {
            &&& stale(entry, current, is_live)
            &&& call_ensures(remove, (i,), removal)
        },
    }
}

/// Deletes orphaned caches among `entries`. `is_live` tells whether another process exists and
/// `remove` deletes the entry with the index it is given. Only a stale cache is handed to `remove`.
///
/// This must run before the process writes a cache of its own: a cache that carries the current pid
/// is taken for one that an earlier process with the same pid left behind.
pub fn sweep_at_startup<L: Fn(u32) -> bool, R: Fn(usize) -> Removal>(
    entries: &[Entry],
    current_pid: u32,
    is_live: L,
    remove: R,
) -> (r: Swept)
    requires
        forall|pid: u32| pid != current_pid ==> #[trigger] call_requires(is_live, (pid,)),
        forall|i: usize|
            i < entries@.len() && stale(entries@[i as int], current_pid, is_live) ==> #[trigger] call_requires(
                remove,
                (i,),
            ),
    ensures
        exists|fates: Seq<Fate>|
            {
                &&& fates.len() == entries@.len()
                &&& forall|i: int|
                    0 <= i < fates.len() ==> befalls(
                        entries@[i],
                        i as usize,
                        current_pid,
                        is_live,
                        remove,
                        #[trigger] fates[i],
                    )
                &&& r == #[trigger] swept_after(fates)
            },
{
    let mut swept: Swept = Swept::default();
    let mut i: usize = 0;
    let ghost mut fates: Seq<Fate> = Seq::empty();
    while i < entries.len()
        invariant
            forall|pid: u32| pid != current_pid ==> #[trigger] call_requires(is_live, (pid,)),
            forall|k: usize|
                k < entries@.len() && stale(entries@[k as int], current_pid, is_live) ==> #[trigger] call_requires(
                    remove,
                    (k,),
                ),
            i <= entries@.len(),
            fates.len() == i,
            forall|k: int|
                0 <= k < i ==> befalls(entries@[k], k as usize, current_pid, is_live, remove, #[trigger] fates[k]),
            swept == swept_after(fates),
            swept.removed <= i,
            swept.kept <= i,
            swept.failed <= i,
        decreases entries@.len() - i,
    {
        let fate: Fate = judge(&entries[i], i, current_pid, &is_live, &remove);
        swept.note(fate);
        proof {
            let after = fates.push(fate);
            assert(after.drop_last() =~= fates);
            fates = after;
        }
        i = i + 1;
    }
    swept
}

/// Decides on one entry, and deletes it where it is stale.
fn judge<L: Fn(u32) -> bool, R: Fn(usize) -> Removal>(
    entry: &Entry,
    i: usize,
    current: u32,
    is_live: &L,
    remove: &R,
) -> (fate: Fate)
    requires
        forall|pid: u32| pid != current ==> #[trigger] call_requires(*is_live, (pid,)),
        stale(*entry, current, *is_live) ==> call_requires(*remove, (i,)),
    ensures
        befalls(*entry, i, current, *is_live, *remove, fate),
{
    let parsed: Option<u32> = match &entry.name {
        Some(name) => parse_pid(name.as_str()),
        None => None,
    };
    let pid: u32 = match parsed {
        Some(pid) => pid,
        None => return Fate::Ignored,
    };
    if !entry.is_file {
        return Fate::Ignored;
    }
    proof {
        assert(is_cache_of(*entry, pid));
    }
    if pid != current && is_live(pid) {
        return Fate::Kept;
    }
    Fate::Reaped(remove(i))
}

/// Only a stale cache is ever deleted: what the sweep reaps is a regular file with a cache file
/// name, and the process that its name carries is not a live one other than this.
pub proof fn law_only_stale_caches_are_reaped<L: Fn(u32) -> bool, R: Fn(usize) -> Removal>(
    entry: Entry,
    i: usize,
    current: u32,
    is_live: L,
    remove: R,
    removal: Removal,
    pid: u32,
)
    requires
        befalls(entry, i, current, is_live, remove, Fate::Reaped(removal)),
        is_cache_of(entry, pid),
    ensures
        entry.is_file,
        pid == current || call_ensures(is_live, (pid,), false),
{
    let p = choose|p: u32| #[trigger]
        is_cache_of(entry, p) && (p == current || call_ensures(is_live, (p,), false));
    let name = entry.name->0@;
    let c = choose|c: u64| name == #[trigger] name_of(p, c);
    let d = choose|d: u64| name == #[trigger] name_of(pid, d);
    law_file_names_are_distinct(p, c, pid, d);
}

/// A name carries the pids that it was made with and no others: where it carries one, it is the name of that
/// pid and the counter that the law gives back.
pub proof fn law_only_made_names_carry_a_pid(name: Seq<char>, pid: u32, made: u64) -> (counter: u64)
    ensures
        name == name_of(pid, made) ==> carries(name, pid),
        carries(name, pid) ==> name == name_of(pid, counter),
{
    choose|counter: u64| name == #[trigger] name_of(pid, counter)
}

/// What becomes of a cache file depends on the process whose pid its name carries. Where that process is
/// another one that is known to be alive, the file is kept; where it is known to be dead, or the pid is
/// that of this process, the file is reaped.
pub proof fn law_a_cache_shares_the_fate_of_its_process<L: Fn(u32) -> bool, R: Fn(usize) -> Removal>(
    entry: Entry,
    i: usize,
    current: u32,
    is_live: L,
    remove: R,
    fate: Fate,
    pid: u32,
    counter: u64,
)
    requires
        befalls(entry, i, current, is_live, remove, fate),
        entry.is_file,
        entry.name matches Some(name) && name@ == name_of(pid, counter),
    ensures
        pid != current && !call_ensures(is_live, (pid,), false) ==> fate == Fate::Kept,
        pid == current || !call_ensures(is_live, (pid,), true) ==> fate is Reaped,
        fate matches Fate::Reaped(removal) ==> call_ensures(remove, (i,), removal),
{
    assert(is_cache_of(entry, pid));
    assert forall|p: u32| #[trigger] is_cache_of(entry, p) implies p == pid by {
        let name = entry.name->0@;
        let c = choose|c: u64| name == #[trigger] name_of(p, c);
        law_file_names_are_distinct(p, c, pid, counter);
    }
}

/// What is no cache file is left alone: a name that no pid and counter make, no name, and what is no
/// regular file.
pub proof fn law_nothing_but_caches_is_touched<L: Fn(u32) -> bool, R: Fn(usize) -> Removal>(
    entry: Entry,
    i: usize,
    current: u32,
    is_live: L,
    remove: R,
    fate: Fate,
)
    requires
        befalls(entry, i, current, is_live, remove, fate),
        !entry.is_file || entry.name is None || forall|pid: u32, counter: u64|
            entry.name->0@ != #[trigger] name_of(pid, counter),
    ensures
        fate == Fate::Ignored,
{
}

/// A sweep counts what it did: the files that it deleted, those that it kept and those that it could not
/// delete. The bytes are those of the deleted files together, up to the largest count there is.
pub proof fn law_a_sweep_counts_what_it_did(fates: Seq<Fate>)
    requires
        fates.len() <= usize::MAX,
    ensures
        swept_after(fates).kept == fates.filter(|f: Fate| f == Fate::Kept).len(),
        swept_after(fates).removed == fates.filter(|f: Fate| f matches Fate::Reaped(Removal::Done(_))).len(),
        swept_after(fates).failed == fates.filter(|f: Fate| f == Fate::Reaped(Removal::Failed)).len(),
        ({
            let bytes = fates.fold_left(
                0int,
                |sum: int, f: Fate|
                    match f {
                        Fate::Reaped(Removal::Done(size)) => sum + size,
                        _ => sum,
                    },
            );
            &&& bytes <= u64::MAX ==> swept_after(fates).bytes_freed == bytes
            &&& bytes > u64::MAX ==> swept_after(fates).bytes_freed == u64::MAX
        }),
    decreases fates.len(),
{
    reveal(Seq::filter);
    let step = |sum: int, f: Fate|
        match f {
            Fate::Reaped(Removal::Done(size)) => sum + size,
            _ => sum,
        };
    if fates.len() > 0 {
        let rest = fates.drop_last();
        law_a_sweep_counts_what_it_did(rest);
        assert(fates.fold_left(0int, step) == step(rest.fold_left(0int, step), fates.last()));
        lemma_filter_is_no_longer(rest, |f: Fate| f == Fate::Kept);
        lemma_filter_is_no_longer(rest, |f: Fate| f matches Fate::Reaped(Removal::Done(_)));
        lemma_filter_is_no_longer(rest, |f: Fate| f == Fate::Reaped(Removal::Failed));
    }
}

/// What is left of a sequence is no longer than it.
proof fn lemma_filter_is_no_longer(fates: Seq<Fate>, keep: spec_fn(Fate) -> bool)
    ensures
        fates.filter(keep).len() <= fates.len(),
    decreases fates.len(),
{
    reveal(Seq::filter);
    if fates.len() > 0 {
        lemma_filter_is_no_longer(fates.drop_last(), keep);
    }
}

/// A cache file name is `pcm-`, the pid, a dash, the counter and `.cache`, both numbers in decimal digits.
pub proof fn law_a_name_shows_pid_and_counter(pid: u32, counter: u64)
    ensures
        name_of(pid, counter) == seq!['p', 'c', 'm', '-'] + digits(pid as nat) + seq!['-'] + digits(counter as nat)
            + seq!['.', 'c', 'a', 'c', 'h', 'e'],
{
    reveal_strlit("pcm-");
    reveal_strlit(".cache");
    assert("pcm-"@ =~= seq!['p', 'c', 'm', '-']);
    assert(".cache"@ =~= seq!['.', 'c', 'a', 'c', 'h', 'e']);
}

} // verus!
