use soundforge::cache::{
    file_name, parse_pid, pid_is_live, sweep_at_startup, Entry, Fate, Probe, Removal, Swept, ESRCH,
};
use std::cell::RefCell;

#[test]
fn file_name_round_trips_through_parse() {
    for &(pid, n) in &[(1u32, 0u64), (12_345, 7), (u32::MAX, u64::MAX)] {
        let name = file_name(pid, n);
        assert_eq!(parse_pid(&name), Some(pid), "name {name}");
    }
}

#[test]
fn parse_pid_rejects_foreign_names() {
    // The sweep deletes whatever this matches, so it must not match anything else.
    for name in [
        "unrelated.txt",
        "important-user-data.cache",
        "pcm.cache",
        "pcm-.cache",
        "pcm-123.cache",       // no counter
        "pcm-abc-1.cache",     // pid not numeric
        "pcm-123-abc.cache",   // counter not numeric
        "pcm-123-1.txt",       // wrong extension
        "pcm-123-1.cache.bak", // wrong extension
        "notpcm-123-1.cache",
        "pcm--1.cache", // empty pid
    ] {
        assert_eq!(parse_pid(name), None, "should not match: {name}");
    }
}

#[test]
fn parse_pid_accepts_a_negative_looking_pid_as_no_match() {
    // A pid is unsigned in our names; `pcm--5-0.cache` must not parse to something we would then
    // hand to kill().
    assert_eq!(parse_pid("pcm--5-0.cache"), None);
}

#[test]
fn parse_pid_is_the_exact_inverse_of_file_name() {
    assert_eq!(file_name(42, 7), "pcm-42-7.cache");
    for name in [
        "pcm-007-1.cache",                      // leading zeros
        "pcm-7-01.cache",
        "pcm-+7-1.cache",                       // a sign
        "pcm-7-+1.cache",
        "pcm-4294967296-1.cache",               // one more than a pid holds
        "pcm-7-18446744073709551616.cache",     // one more than a counter holds
        "pcm-7-1-2.cache",
        "pcm-7-.cache",
        "pcm-7 -1.cache",
        "pcm-７-1.cache",                        // digits, but not ours
        "",
        ".cache",
        "pcm-",
    ] {
        assert_eq!(parse_pid(name), None, "should not match: {name}");
    }
    assert_eq!(parse_pid("pcm-0-0.cache"), Some(0));
    assert_eq!(parse_pid("pcm-4294967295-18446744073709551615.cache"), Some(u32::MAX));
}

#[test]
fn pid_is_live_rejects_unusable_pids_conservatively() {
    // 0 and out-of-range values must never be handed to kill() as process groups; they report
    // "live" so the sweep keeps the file.
    let never = |_: i32| -> Probe { panic!("the system must not be asked") };
    assert!(pid_is_live(0, never));
    assert!(pid_is_live(u32::MAX, never));
}

#[test]
fn only_a_process_that_does_not_exist_is_dead() {
    assert_eq!(ESRCH, libc::ESRCH);
    let gone = Probe::Failed(ESRCH);
    assert!(pid_is_live(1, |_| Probe::Sent));
    assert!(!pid_is_live(1, |_| gone));
    // A process of another user may not be signalled, and exists.
    assert!(pid_is_live(1, |_| Probe::Failed(libc::EPERM)));
    // What the system does not say is not held against the file.
    for errno in [0, -1, libc::EINVAL, libc::EAGAIN, libc::ENOSYS, i32::MAX] {
        assert!(pid_is_live(1, |_| Probe::Failed(errno)), "{errno}");
    }
    assert!(!pid_is_live(i32::MAX as u32, |pid| if pid == i32::MAX { gone } else { Probe::Sent }));
    assert!(pid_is_live(i32::MAX as u32 + 1, |_| gone));
}

/// A directory of files with their sizes; removing one takes it out.
struct Dir(RefCell<Vec<(Entry, Option<u64>)>>);

impl Dir {
    fn new() -> Dir {
        Dir(RefCell::new(Vec::new()))
    }
    fn put(&self, name: &str, is_file: bool, size: u64) {
        self.0.borrow_mut().push((Entry { name: Some(name.to_string()), is_file }, Some(size)));
    }
    fn cache(&self, pid: u32, counter: u64, size: u64) -> usize {
        self.put(&file_name(pid, counter), true, size);
        self.0.borrow().len() - 1
    }
    fn holds(&self, i: usize) -> bool {
        self.0.borrow()[i].1.is_some()
    }
    fn sweep(&self, current: u32, is_live: impl Fn(u32) -> bool) -> Swept {
        let entries: Vec<Entry> = self
            .0
            .borrow()
            .iter()
            .map(|(e, _)| Entry { name: e.name.clone(), is_file: e.is_file })
            .collect();
        sweep_at_startup(&entries, current, is_live, |i: usize| match self.0.borrow_mut()[i].1.take() {
            Some(size) => Removal::Done(size),
            None => Removal::Missing,
        })
    }
}

#[test]
fn sweep_removes_caches_of_dead_processes() {
    let dir = Dir::new();
    let dead = dir.cache(4242, 0, 1024);
    let also_dead = dir.cache(4243, 1, 512);

    let swept = dir.sweep(999, |_| false);
    assert_eq!(swept.removed, 2);
    assert_eq!(swept.kept, 0);
    assert_eq!(swept.failed, 0);
    assert_eq!(swept.bytes_freed, 1024 + 512);
    assert!(!dir.holds(dead));
    assert!(!dir.holds(also_dead));
}

#[test]
fn sweep_keeps_caches_of_a_live_second_instance() {
    // The dangerous mistake: deleting a concurrently running instance's cache.
    let dir = Dir::new();
    let other = dir.cache(4242, 0, 64);
    let dead = dir.cache(4243, 0, 64);

    let swept = dir.sweep(999, |pid| pid == 4242);
    assert_eq!(swept.kept, 1);
    assert_eq!(swept.removed, 1);
    assert!(dir.holds(other), "a live instance's cache must survive");
    assert!(!dir.holds(dead));
}

#[test]
fn sweep_removes_our_own_pid_caches_even_though_we_are_live() {
    // A crashed earlier instance whose pid the OS recycled onto us. `is_live` says yes (it is us),
    // so only the own-pid rule can reclaim this; otherwise it leaks forever.
    let dir = Dir::new();
    let ours = dir.cache(777, 0, 2048);

    let swept = dir.sweep(777, |_| true);
    assert_eq!(swept.removed, 1);
    assert_eq!(swept.kept, 0);
    assert_eq!(swept.bytes_freed, 2048);
    assert!(!dir.holds(ours));
}

#[test]
fn sweep_ignores_files_that_are_not_ours() {
    let dir = Dir::new();
    for name in ["unrelated.txt", "important-user-data.cache", "pcm-abc-1.cache", "notpcm-1-1.cache"] {
        dir.put(name, true, 8);
    }
    // A directory or a symbolic link with a matching name must not trip it up either.
    dir.put(&file_name(4242, 9), false, 0);

    let swept = dir.sweep(999, |_| false);
    assert_eq!(swept.removed, 0, "no foreign file may be deleted");
    assert_eq!(swept.failed, 0, "a non-file is skipped, not a failure");
    assert!((0..5).all(|i| dir.holds(i)));
}

#[test]
fn sweep_hands_only_stale_caches_to_removal() {
    let entry = |pid: u32, is_file: bool| Entry { name: Some(file_name(pid, 0)), is_file };
    let entries = [entry(1, true), entry(2, true), entry(3, true), entry(3, false), Entry { name: None, is_file: true }];
    let asked = RefCell::new(Vec::new());
    let removed = RefCell::new(Vec::new());
    let is_live = |pid: u32| {
        asked.borrow_mut().push(pid);
        pid == 2
    };
    let remove = |i: usize| {
        removed.borrow_mut().push(i);
        Removal::Done(1)
    };
    let swept = sweep_at_startup(&entries, 1, is_live, remove);
    assert_eq!(swept, Swept { removed: 2, bytes_freed: 2, kept: 1, failed: 0 });
    assert_eq!(asked.into_inner(), vec![2, 3], "this process is not asked about");
    assert_eq!(removed.into_inner(), vec![0, 2]);
}

#[test]
fn sweep_of_an_empty_directory_does_nothing() {
    assert_eq!(Dir::new().sweep(1, |_| false), Swept::default());
}

#[test]
fn sweep_counts_failures_and_passes_over_what_is_gone() {
    let entries = [
        Entry { name: Some(file_name(5, 0)), is_file: true },
        Entry { name: Some(file_name(6, 0)), is_file: true },
        Entry { name: None, is_file: true },
    ];
    let swept = sweep_at_startup(&entries, 1, |_| false, |i| {
        if i == 0 {
            Removal::Missing
        } else {
            Removal::Failed
        }
    });
    assert_eq!(swept, Swept { removed: 0, bytes_freed: 0, kept: 0, failed: 1 });
    let mut s = Swept::default();
    s.note(Fate::Reaped(Removal::Done(u64::MAX)));
    s.note(Fate::Reaped(Removal::Done(5)));
    assert_eq!((s.removed, s.bytes_freed), (2, u64::MAX));
}
