use diskviz::aggregate::build_tree;
use diskviz::entry::Entry;
use diskviz::location::ScanPath;
use diskviz::mailbox::run_scan;
use diskviz::mailbox::scan_channel;
use diskviz::message::scan_messages;
use diskviz::message::summarize;
use diskviz::message::ScanMsg;
use diskviz::message::ScanProgress;
use diskviz::message::MEBIBYTE;
use diskviz::viewer::Viewer;

fn path(parts: &[&str]) -> ScanPath {
    ScanPath::new(parts.iter().map(|p| p.to_string()).collect())
}

fn fixture() -> Vec<Entry> {
    vec![
        Entry::directory(path(&["R"])),
        Entry::file(path(&["R", "a.txt"]), 10),
        Entry::directory(path(&["R", "B"])),
        Entry::file(path(&["R", "B", "b.txt"]), 20),
        Entry::directory(path(&["R", "B", "C"])),
        Entry::file(path(&["R", "B", "C", "c.txt"]), 30),
    ]
}

fn totals(dirs: u64, bytes: u64) -> ScanProgress {
    ScanProgress { total_dirs: dirs, total_bytes: bytes, scanned_dirs: dirs, scanned_bytes: bytes }
}

#[test]
fn scan_sends_progress_then_tree() {
    let root = path(&["R"]);
    let msgs = scan_messages(&root, &fixture()).unwrap();
    assert_eq!(msgs.len(), 2);
    assert_eq!(msgs[0], ScanMsg::Progress(totals(3, 60)));
    assert_eq!(msgs[1], ScanMsg::Finished(build_tree(&root, &fixture()).unwrap()));
}

#[test]
fn scan_of_nothing_still_sends_both_messages() {
    let root = path(&["gone"]);
    let msgs = scan_messages(&root, &Vec::new()).unwrap();
    assert_eq!(msgs.len(), 2);
    assert_eq!(msgs[0], ScanMsg::Progress(totals(0, 0)));
    match &msgs[1] {
        ScanMsg::Finished(tree) => {
            assert_eq!(tree.size, 0);
            assert!(tree.children.is_empty());
            assert_eq!(tree.path, root);
        },
        ScanMsg::Progress(_) => panic!("the second message is the tree"),
    }
}

#[test]
fn scan_beyond_64_bits_sends_nothing() {
    let root = path(&["R"]);
    let entries = vec![
        Entry::file(path(&["R", "a"]), u64::MAX),
        Entry::file(path(&["R", "b"]), u64::MAX),
    ];
    assert_eq!(scan_messages(&root, &entries), None);
    assert_eq!(summarize(&entries), None);
}

#[test]
fn summary_is_complete() {
    let progress = summarize(&fixture()).unwrap();
    assert_eq!(progress, totals(3, 60));
    assert_eq!(progress.scanned_dirs, progress.total_dirs);
    assert_eq!(progress.scanned_bytes, progress.total_bytes);
    assert_eq!(ScanProgress::completed(4, 9), totals(4, 9));
}

#[test]
fn progress_text_counts_whole_mebibytes() {
    let progress = ScanProgress {
        total_dirs: 1,
        total_bytes: 5 * MEBIBYTE + 17,
        scanned_dirs: 1,
        scanned_bytes: 2 * MEBIBYTE - 1,
    };
    assert_eq!(progress.mebibytes(), (1, 5));
    assert_eq!(MEBIBYTE, 1_048_576);
}

#[test]
fn progress_fraction_never_divides_by_zero() {
    assert_eq!(totals(0, 0).fraction(), (0, 1));
    assert_eq!(totals(2, 60).fraction(), (60, 60));
    let half = ScanProgress { total_dirs: 2, total_bytes: 60, scanned_dirs: 1, scanned_bytes: 30 };
    assert_eq!(half.fraction(), (30, 60));
}

/// A consumer that awaits a scan on a channel of its own.
fn listening_viewer() -> Viewer {
    let mut viewer = Viewer::new();
    viewer.begin_scan(scan_channel().1);
    viewer
}

#[test]
fn consumer_takes_a_scan() {
    let root = path(&["R"]);
    let mut viewer = Viewer::new();
    assert!(!viewer.is_listening());
    assert!(viewer.tree().is_none());
    assert!(viewer.current().is_none());
    viewer.begin_scan(scan_channel().1);
    assert!(viewer.is_listening());
    let mut msgs = scan_messages(&root, &fixture()).unwrap();
    let tree = msgs.pop().unwrap();
    let progress = msgs.pop().unwrap();
    assert!(viewer.receive(progress));
    assert_eq!(viewer.progress(), Some(totals(3, 60)));
    assert!(viewer.tree().is_none());
    assert!(!viewer.receive(tree));
    assert!(!viewer.is_listening());
    assert_eq!(viewer.progress(), Some(totals(3, 60)));
    assert_eq!(viewer.tree(), build_tree(&root, &fixture()).as_ref());
    assert_eq!(viewer.current(), viewer.tree());
    assert_eq!(viewer.depth(), 0);
}

#[test]
fn consumer_takes_a_batch() {
    let root = path(&["R"]);
    let mut viewer = listening_viewer();
    assert!(!viewer.receive_all(scan_messages(&root, &fixture()).unwrap()));
    assert_eq!(viewer.tree().unwrap().size, 60);
    assert_eq!(viewer.progress(), Some(totals(3, 60)));
    let mut waiting = listening_viewer();
    assert!(waiting.receive_all(Vec::new()));
    assert!(waiting.receive_all(vec![ScanMsg::Progress(totals(1, 1))]));
    assert_eq!(waiting.progress(), Some(totals(1, 1)));
}

#[test]
fn consumer_ignores_messages_it_does_not_await() {
    let root = path(&["R"]);
    let mut viewer = Viewer::default();
    assert!(!viewer.receive_all(scan_messages(&root, &fixture()).unwrap()));
    assert!(viewer.tree().is_none());
    assert_eq!(viewer.progress(), None);
    viewer.begin_scan(scan_channel().1);
    viewer.receive_all(scan_messages(&root, &fixture()).unwrap());
    let other = path(&["S"]);
    assert!(!viewer.receive_all(scan_messages(&other, &Vec::new()).unwrap()));
    assert_eq!(viewer.tree().unwrap().path, root);
    assert_eq!(viewer.progress(), Some(totals(3, 60)));
}

#[test]
fn new_scan_clears_what_was_held() {
    let root = path(&["R"]);
    let mut viewer = listening_viewer();
    viewer.receive_all(scan_messages(&root, &fixture()).unwrap());
    assert!(viewer.enter(1));
    viewer.begin_scan(scan_channel().1);
    assert!(viewer.is_listening());
    assert!(viewer.tree().is_none());
    assert_eq!(viewer.progress(), None);
    assert_eq!(viewer.depth(), 0);
    assert!(viewer.current().is_none());
}

#[test]
fn consumer_walks_the_tree() {
    let root = path(&["R"]);
    let mut viewer = Viewer::new();
    assert!(!viewer.enter(0));
    assert!(!viewer.back());
    viewer.begin_scan(scan_channel().1);
    viewer.receive_all(scan_messages(&root, &fixture()).unwrap());
    // child 0 is the file a.txt, child 1 the directory B
    assert!(!viewer.enter(0));
    assert!(!viewer.enter(2));
    assert_eq!(viewer.depth(), 0);
    assert!(viewer.enter(1));
    assert_eq!(viewer.depth(), 1);
    assert_eq!(viewer.current().unwrap().name, "B");
    assert_eq!(viewer.current().unwrap().children.len(), 1);
    // b.txt has no children
    assert!(!viewer.enter(0));
    assert_eq!(viewer.current().unwrap().name, "B");
    assert!(viewer.back());
    assert_eq!(viewer.current().unwrap().name, "R");
    assert!(!viewer.back());
    assert_eq!(viewer.depth(), 0);
}

#[test]
fn scan_arrives_through_the_channel_in_order() {
    let root = path(&["R"]);
    let (mut outbox, rx) = scan_channel();
    let mut viewer = Viewer::new();
    viewer.begin_scan(rx);
    // Nothing has been sent yet.
    assert!(viewer.poll());
    assert_eq!(viewer.progress(), None);
    assert!(viewer.tree().is_none());
    assert!(run_scan(&root, &fixture(), &mut outbox));
    assert!(!viewer.poll());
    assert_eq!(viewer.progress(), Some(totals(3, 60)));
    assert_eq!(viewer.tree(), build_tree(&root, &fixture()).as_ref());
    assert_eq!(viewer.current().unwrap().name, "R");
}

#[test]
fn messages_are_taken_as_they_arrive() {
    let root = path(&["R"]);
    let (mut outbox, rx) = scan_channel();
    let mut viewer = Viewer::new();
    viewer.begin_scan(rx);
    let mut msgs = scan_messages(&root, &fixture()).unwrap();
    let tree = msgs.pop().unwrap();
    let progress = msgs.pop().unwrap();
    assert!(outbox.send(progress));
    assert!(viewer.poll());
    assert_eq!(viewer.progress(), Some(totals(3, 60)));
    assert!(viewer.tree().is_none());
    assert!(viewer.poll());
    assert!(outbox.send(tree));
    assert!(!viewer.poll());
    assert_eq!(viewer.tree().unwrap().size, 60);
    // The consumer has let the channel go: nothing can be delivered now.
    assert!(!outbox.send(ScanMsg::Progress(totals(9, 9))));
    assert!(!viewer.poll());
    assert_eq!(viewer.progress(), Some(totals(3, 60)));
}

#[test]
fn polling_stops_at_the_tree() {
    let root = path(&["R"]);
    let (mut outbox, rx) = scan_channel();
    let mut viewer = Viewer::new();
    viewer.begin_scan(rx);
    assert_eq!(outbox.send_all(scan_messages(&root, &fixture()).unwrap()), 2);
    assert!(outbox.send(ScanMsg::Progress(totals(9, 9))));
    assert!(!viewer.poll());
    assert_eq!(viewer.progress(), Some(totals(3, 60)));
    assert_eq!(viewer.tree().unwrap().size, 60);
}

#[test]
fn scan_finishes_though_the_consumer_is_gone() {
    let root = path(&["R"]);
    let (mut outbox, rx) = scan_channel();
    drop(rx);
    assert!(run_scan(&root, &fixture(), &mut outbox));
    assert_eq!(outbox.send_all(scan_messages(&root, &fixture()).unwrap()), 0);
}

#[test]
fn stale_scan_is_never_read() {
    let (mut old_outbox, old_rx) = scan_channel();
    let (mut new_outbox, new_rx) = scan_channel();
    let mut viewer = Viewer::new();
    viewer.begin_scan(old_rx);
    viewer.begin_scan(new_rx);
    run_scan(&path(&["old"]), &fixture(), &mut old_outbox);
    assert!(viewer.poll());
    assert!(viewer.tree().is_none());
    assert_eq!(viewer.progress(), None);
    assert!(run_scan(&path(&["new"]), &Vec::new(), &mut new_outbox));
    assert!(!viewer.poll());
    assert_eq!(viewer.tree().unwrap().name, "new");
    assert_eq!(viewer.progress(), Some(totals(0, 0)));
}

#[test]
fn scan_beyond_64_bits_leaves_the_channel_untouched() {
    let root = path(&["R"]);
    let entries = vec![
        Entry::file(path(&["R", "a"]), u64::MAX),
        Entry::file(path(&["R", "b"]), 1),
    ];
    let (mut outbox, rx) = scan_channel();
    let mut viewer = Viewer::new();
    viewer.begin_scan(rx);
    assert!(!run_scan(&root, &entries, &mut outbox));
    assert!(viewer.poll());
    assert_eq!(viewer.progress(), None);
}

#[test]
fn idle_consumer_polls_nothing() {
    let mut viewer = Viewer::new();
    assert!(!viewer.poll());
    assert!(viewer.tree().is_none());
}
