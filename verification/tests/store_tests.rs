use mediatree::auth::{login, master_protection, password_required, LoginForm};
use mediatree::locks::{Acquired, LockTable};
use mediatree::media::Timestamp;
use mediatree::store::TreeStore;
use mediatree::tree::{find_entry, scan_dir, DiskEntry, DiskMeta};
use mediatree::watch::{triggers_rescan, ChangeKind, RescanSignal};

fn disk_file(name: &str, len: u64) -> DiskEntry {
    DiskEntry {
        name: Some(name.to_string()),
        meta: Some(DiskMeta { is_dir: false, len, modified: Some(Timestamp { secs: 1, nanos: 0 }) }),
        children: Vec::new(),
    }
}

fn disk_dir(name: &str, children: Vec<DiskEntry>) -> DiskEntry {
    DiskEntry {
        name: Some(name.to_string()),
        meta: Some(DiskMeta { is_dir: true, len: 0, modified: None }),
        children,
    }
}

#[test]
fn first_request_for_a_path_is_granted() {
    let mut table = LockTable::new();
    assert_eq!(table.holder("a.mp4"), None);
    assert_eq!(table.acquire("a.mp4"), Acquired::Granted(0));
    assert_eq!(table.holder("a.mp4"), Some(0));
}

#[test]
fn second_request_for_the_same_path_waits_for_the_first() {
    let mut table = LockTable::new();
    assert_eq!(table.acquire("a.mp4"), Acquired::Granted(0));
    assert_eq!(table.acquire("a.mp4"), Acquired::Queued(1));
    assert_eq!(table.holder("a.mp4"), Some(0));
    assert_eq!(table.release("a.mp4", 0), Some(1));
    assert_eq!(table.holder("a.mp4"), Some(1));
    assert_eq!(table.release("a.mp4", 1), None);
    assert_eq!(table.holder("a.mp4"), None);
}

#[test]
fn waiters_are_served_in_the_order_they_asked() {
    let mut table = LockTable::new();
    assert_eq!(table.acquire("p"), Acquired::Granted(0));
    assert_eq!(table.acquire("p"), Acquired::Queued(1));
    assert_eq!(table.acquire("p"), Acquired::Queued(2));
    assert_eq!(table.acquire("p"), Acquired::Queued(3));
    assert_eq!(table.release("p", 0), Some(1));
    assert_eq!(table.release("p", 1), Some(2));
    assert_eq!(table.release("p", 2), Some(3));
    assert_eq!(table.release("p", 3), None);
}

#[test]
fn different_paths_do_not_wait_for_each_other() {
    let mut table = LockTable::new();
    assert_eq!(table.acquire("a"), Acquired::Granted(0));
    assert_eq!(table.acquire("b"), Acquired::Granted(1));
    assert_eq!(table.acquire("a/b"), Acquired::Granted(2));
    assert_eq!(table.holder("a"), Some(0));
    assert_eq!(table.holder("b"), Some(1));
    assert_eq!(table.release("a", 0), None);
    assert_eq!(table.holder("b"), Some(1));
    assert_eq!(table.holder("a/b"), Some(2));
}

#[test]
fn a_waiter_that_gives_up_leaves_the_queue() {
    let mut table = LockTable::new();
    assert_eq!(table.acquire("p"), Acquired::Granted(0));
    assert_eq!(table.acquire("p"), Acquired::Queued(1));
    assert_eq!(table.acquire("p"), Acquired::Queued(2));
    assert_eq!(table.release("p", 1), None);
    assert_eq!(table.holder("p"), Some(0));
    assert_eq!(table.release("p", 0), Some(2));
}

#[test]
fn release_of_an_unknown_ticket_or_path_changes_nothing() {
    let mut table = LockTable::new();
    assert_eq!(table.acquire("p"), Acquired::Granted(0));
    assert_eq!(table.release("p", 77), None);
    assert_eq!(table.release("q", 0), None);
    assert_eq!(table.holder("p"), Some(0));
    assert_eq!(table.release("p", 0), None);
    assert_eq!(table.release("p", 0), None);
}

#[test]
fn a_freed_path_is_granted_again_with_a_new_ticket() {
    let mut table = LockTable::new();
    assert_eq!(table.acquire("p"), Acquired::Granted(0));
    assert_eq!(table.release("p", 0), None);
    assert_eq!(table.acquire("p"), Acquired::Granted(1));
}

#[test]
fn store_hands_out_the_snapshot_of_the_last_swap() {
    let first = scan_dir(&disk_dir("media", vec![disk_file("a.mp4", 1)]), 64);
    let mut store = TreeStore::new(first);
    let held = store.current_snapshot().unwrap();
    assert!(find_entry(&held, "a.mp4").is_some());
    let second = scan_dir(&disk_dir("media", vec![disk_file("b.mp4", 2)]), 64);
    store.replace_snapshot(second);
    let now = store.current_snapshot().unwrap();
    assert!(find_entry(&now, "a.mp4").is_none());
    assert!(find_entry(&now, "b.mp4").is_some());
    // the snapshot that was taken before the swap is still whole
    assert!(find_entry(&held, "a.mp4").is_some());
    assert!(find_entry(&held, "b.mp4").is_none());
}

#[test]
fn store_without_tree() {
    let mut store = TreeStore::new(None);
    assert!(store.current_snapshot().is_none());
    assert!(store.find("a").is_none());
    store.patch_removed("a");
    store.patch_replaced("a", Some(1), None);
    assert!(store.current_snapshot().is_none());
    store.replace_snapshot(scan_dir(&disk_dir("media", vec![]), 64));
    assert!(store.find("").is_some());
}

#[test]
fn store_finds_entries_of_the_current_snapshot() {
    let store = TreeStore::new(scan_dir(&disk_dir("media", vec![disk_file("a.mp4", 5)]), 64));
    assert_eq!(store.find("a.mp4").unwrap().size, Some(5));
    assert!(store.find("b.mp4").is_none());
}

#[test]
fn store_patches_publish_a_new_snapshot() {
    let listing = disk_dir("media", vec![disk_file("a.mp4", 5), disk_file("b.mp4", 6)]);
    let mut store = TreeStore::new(scan_dir(&listing, 64));
    let held = store.current_snapshot().unwrap();
    store.patch_replaced("a.mp4", Some(50), Some(Timestamp { secs: 86_400, nanos: 0 }));
    let a = store.find("a.mp4").unwrap();
    assert_eq!(a.size, Some(50));
    assert_eq!(a.modified.as_deref(), Some("1970-01-02T00:00:00+00:00"));
    assert_eq!(store.find("b.mp4").unwrap().size, Some(6));
    store.patch_removed("b.mp4");
    assert!(store.find("b.mp4").is_none());
    assert!(store.find("a.mp4").is_some());
    assert_eq!(find_entry(&held, "a.mp4").unwrap().size, Some(5));
    assert!(find_entry(&held, "b.mp4").is_some());
}

#[test]
fn store_locks_survive_a_swap() {
    let mut store = TreeStore::new(None);
    assert_eq!(store.lock_for("a.mp4"), Acquired::Granted(0));
    store.replace_snapshot(scan_dir(&disk_dir("media", vec![]), 64));
    assert_eq!(store.holder("a.mp4"), Some(0));
    assert_eq!(store.lock_for("a.mp4"), Acquired::Queued(1));
    assert_eq!(store.unlock("a.mp4", 0), Some(1));
    assert_eq!(store.unlock("a.mp4", 1), None);
    assert_eq!(store.holder("a.mp4"), None);
}

#[test]
fn only_create_modify_and_remove_call_for_a_rescan() {
    assert!(triggers_rescan(ChangeKind::Create));
    assert!(triggers_rescan(ChangeKind::Modify));
    assert!(triggers_rescan(ChangeKind::Remove));
    assert!(!triggers_rescan(ChangeKind::Access));
    assert!(!triggers_rescan(ChangeKind::Any));
    assert!(!triggers_rescan(ChangeKind::Other));
}

#[test]
fn a_storm_of_changes_makes_one_rescan() {
    let mut signal = RescanSignal::new();
    assert!(!signal.take());
    assert!(signal.record(ChangeKind::Create));
    assert!(!signal.record(ChangeKind::Modify));
    assert!(!signal.record(ChangeKind::Remove));
    assert!(!signal.record(ChangeKind::Access));
    assert!(signal.take());
    assert!(!signal.take());
}

#[test]
fn changes_that_alter_nothing_make_no_rescan() {
    let mut signal = RescanSignal::new();
    assert!(!signal.record(ChangeKind::Access));
    assert!(!signal.record(ChangeKind::Other));
    assert!(!signal.record(ChangeKind::Any));
    assert!(!signal.take());
    assert!(signal.record(ChangeKind::Remove));
    assert!(signal.take());
}

#[test]
fn login_needs_the_configured_password() {
    let form = LoginForm::new(String::from("hunter2"));
    assert_eq!(form.password(), "hunter2");
    assert!(login(&form, "hunter2"));
    assert!(!login(&form, "hunter3"));
    assert!(!login(&form, ""));
    assert!(login(&LoginForm::new(String::new()), ""));
}

#[test]
fn password_is_required_when_one_is_configured() {
    assert!(password_required("secret"));
    assert!(!password_required(""));
}

#[test]
fn everyone_is_let_in_without_password_and_cookie_holders_with_one() {
    assert!(master_protection("", None));
    assert!(master_protection("", Some("0")));
    assert!(master_protection("secret", Some("1")));
    assert!(!master_protection("secret", None));
    assert!(!master_protection("secret", Some("0")));
    assert!(!master_protection("secret", Some("11")));
}

#[test]
fn spellings_of_one_path_share_a_lock() {
    let mut store = TreeStore::new(None);
    assert_eq!(store.lock_for("a/x.mp4"), Acquired::Granted(0));
    assert_eq!(store.lock_for("a//x.mp4"), Acquired::Queued(1));
    assert_eq!(store.lock_for("./a/b/../x.mp4/"), Acquired::Queued(2));
    assert_eq!(store.holder("/a/x.mp4"), Some(0));
    assert_eq!(store.lock_for("a/y.mp4"), Acquired::Granted(3));
    assert_eq!(store.unlock("a/./x.mp4", 0), Some(1));
    assert_eq!(store.unlock("a/x.mp4", 1), Some(2));
    assert_eq!(store.unlock("a/x.mp4", 2), None);
    assert_eq!(store.holder("a/x.mp4"), None);
}

/// One request to replace `clip.mp4`, as far as it has come.
struct Replacing {
    body: Vec<u8>,
    ticket: Option<u64>,
    holding: bool,
    steps_done: u8,
    done: bool,
}

fn replacing(body: &[u8]) -> Replacing {
    Replacing { body: body.to_vec(), ticket: None, holding: false, steps_done: 0, done: false }
}

/// Lets the request `who` do its next step and returns the ticket that it
/// woke, if any.
fn next_step(
    store: &mut TreeStore,
    file: &mut Option<Vec<u8>>,
    who: &mut Replacing,
) -> Option<u64> {
    if who.done {
        return None;
    }
    match who.ticket {
        None => match store.lock_for("clip.mp4") {
            Acquired::Granted(t) => {
                who.ticket = Some(t);
                who.holding = true;
            }
            Acquired::Queued(t) => who.ticket = Some(t),
            Acquired::Exhausted => panic!("no ticket left"),
        },
        Some(_) if !who.holding => {}
        Some(ticket) => {
            match who.steps_done {
                0 => *file = None,
                1 => *file = Some(who.body.clone()),
                2 => store.patch_replaced("clip.mp4", Some(who.body.len() as u64), None),
                _ => {
                    who.done = true;
                    who.holding = false;
                    return store.unlock("clip.mp4", ticket);
                }
            }
            who.steps_done += 1;
        }
    }
    None
}

#[test]
fn two_replacements_of_one_path_take_turns_in_every_order_of_their_steps() {
    let listing = disk_dir("media", vec![disk_file("clip.mp4", 3)]);
    let mut finished = 0;
    for schedule in 0u32..(1 << 12) {
        let mut store = TreeStore::new(scan_dir(&listing, 8));
        let mut file = Some(b"old".to_vec());
        let mut a = replacing(b"from a");
        let mut b = replacing(b"the bytes of b");
        for bit in 0..12 {
            let first = (schedule >> bit) & 1 == 0;
            let woken = if first {
                next_step(&mut store, &mut file, &mut a)
            } else {
                next_step(&mut store, &mut file, &mut b)
            };
            if let Some(ticket) = woken {
                let other = if first { &mut b } else { &mut a };
                assert_eq!(other.ticket, Some(ticket));
                other.holding = true;
            }
            assert!(!(a.holding && b.holding), "{schedule:b}");
            let whole = [None, Some(b"old".to_vec()), Some(a.body.clone()), Some(b.body.clone())];
            assert!(whole.contains(&file), "{schedule:b}");
            let holder = store.holder("clip.mp4");
            assert_eq!(holder.is_some(), a.holding || b.holding);
        }
        if a.done && b.done {
            finished += 1;
            let second = if a.ticket < b.ticket { &b } else { &a };
            assert_eq!(file.as_ref(), Some(&second.body), "{schedule:b}");
            let node = store.find("clip.mp4").unwrap();
            assert_eq!(node.size, Some(second.body.len() as u64), "{schedule:b}");
            assert_eq!(store.holder("clip.mp4"), None);
        }
    }
    assert!(finished > 0);
}

#[test]
fn the_first_lock_of_a_new_store_is_granted() {
    let mut store = TreeStore::new(None);
    assert_eq!(store.holder("a"), None);
    assert_eq!(store.lock_for("a"), Acquired::Granted(0));
}
