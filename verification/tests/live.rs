use mylocate::fsevents::{
    EV_IDS_WRAPPED, EV_ITEM_CREATED, EV_ITEM_IS_DIR, EV_KERNEL_DROPPED, EV_MOUNT,
    EV_MUST_SCAN_SUBDIRS, EV_ROOT_CHANGED, EV_UNMOUNT, EV_USER_DROPPED,
};
use mylocate::index::Index;
use mylocate::live::Live;
use mylocate::live_search::Hit;
use mylocate::plan::Note;
use mylocate::reader::Reader;
use mylocate::scan::{merge, DirEntry, ScanResult, Scratch, Worker, ID_BATCH};
use mylocate::search::{merge_parts, part, search, Options, Query, TypeFilter};
use mylocate::update::Subtree;
use mylocate::writer::build;

fn q(s: &str, whole_path: bool, tf: TypeFilter) -> Query {
    Query::parse_opts(
        s,
        Options {
            whole_path,
            basename: false,
            type_filter: Some(tf),
        },
    )
}

fn q_basename(s: &str, tf: TypeFilter) -> Query {
    Query::parse_opts(
        s,
        Options {
            whole_path: false,
            basename: true,
            type_filter: Some(tf),
        },
    )
}

const ROOT: &str = "/tmp/tree";

/// A directory in memory.
#[derive(Default)]
struct Dir {
    dirs: Vec<(String, Dir)>,
    files: Vec<String>,
}

impl Dir {
    fn with(mut self, path: &str) -> Dir {
        self.put(path);
        self
    }

    /// Adds a file, or a directory where the path ends in a slash.
    fn put(&mut self, path: &str) {
        match path.split_once('/') {
            None => self.files.push(path.to_string()),
            Some((first, rest)) => {
                if !self.dirs.iter().any(|(n, _)| n == first) {
                    self.dirs.push((first.to_string(), Dir::default()));
                }
                if !rest.is_empty() {
                    let d = self.dirs.iter_mut().find(|(n, _)| n == first).unwrap();
                    d.1.put(rest);
                }
            }
        }
    }
}

fn walk(w: &mut Worker, dir: &Dir, id: u32, next_id: &mut u32) {
    let mut sc = Scratch::default();
    for (name, _) in dir.dirs.iter() {
        sc.push(name.as_bytes());
    }
    for name in dir.files.iter() {
        w.files.push(name.as_bytes(), id, false);
    }
    for _ in 0..dir.dirs.len() {
        if w.needs_ids() {
            let base = *next_id;
            *next_id += ID_BATCH;
            w.refill(base);
        }
        w.register(&mut sc, id);
    }
    for (i, (name, child)) in dir.dirs.iter().enumerate() {
        let n = w.enter(name.as_bytes());
        walk(w, child, sc.ids[i], next_id);
        w.leave(n);
    }
}

fn scan_of(root: &str, tree: &Dir) -> ScanResult {
    let mut w = Worker::new();
    let mut next_id = 1u32;
    w.path = root.as_bytes().to_vec();
    walk(&mut w, tree, 0, &mut next_id);
    assert_eq!(w.path, root.as_bytes());
    merge(root.as_bytes(), next_id as usize, vec![w.finish()], 0)
}

fn make_tree() -> Dir {
    Dir::default()
        .with("foo/")
        .with("keep/deep/")
        .with("other/")
        .with("foo.txt")
        .with("foo/note.txt")
        .with("keep/deep/README.md")
        .with("other/README.md")
}

fn build_index(tree: &Dir) -> Vec<u8> {
    build(&scan_of(ROOT, tree), 0, [0u8; 16], 0)
}

fn live_of(bytes: &[u8]) -> Live {
    let idx = Index::from_vec(bytes.to_vec()).unwrap();
    assert!(idx.is_consistent());
    Live::new(idx)
}

fn short(path: &[u8]) -> String {
    String::from_utf8_lossy(path).replace(&format!("{ROOT}/"), "")
}

fn live_paths(l: &Live, q: &Query, limit: usize) -> (Vec<String>, usize) {
    let (hits, total) = l.search(q, limit);
    (hits.iter().map(|h| short(&l.path_of(*h))).collect(), total)
}

fn index_paths(idx: &Index, q: &Query, limit: usize) -> (Vec<String>, usize) {
    let h = search(idx, q, limit, 1);
    let mut v: Vec<String> = h
        .dirs
        .iter()
        .map(|&d| short(&[idx.dir_path(d), b"/".to_vec()].concat()))
        .collect();
    v.extend(h.files.iter().map(|&f| short(&idx.file_path(f as usize))));
    (v, h.total)
}

#[test]
fn dirs_take_the_limit_first() {
    let live = live_of(&build_index(&make_tree()));
    let (paths, total) = live_paths(&live, &q("foo", false, TypeFilter::All), 1);
    assert_eq!(paths, vec!["foo/"]);
    assert_eq!(total, 2);
}

#[test]
fn type_filter_selects_kind() {
    let live = live_of(&build_index(&make_tree()));

    let only_dirs = q("foo", false, TypeFilter::Dirs);
    let (paths, total) = live_paths(&live, &only_dirs, 10);
    assert_eq!(paths, vec!["foo/"]);
    assert_eq!(total, 1);

    let only_files = q("foo", false, TypeFilter::Files);
    let (mut paths, total) = live_paths(&live, &only_files, 10);
    paths.sort();
    assert_eq!(paths, vec!["foo.txt"]);
    assert_eq!(total, 1);
}

#[test]
fn path_term_narrows_by_directory() {
    let live = live_of(&build_index(&make_tree()));
    let q = q("keep/deep README", false, TypeFilter::All);
    let (paths, total) = live_paths(&live, &q, 10);
    assert_eq!(paths, vec!["keep/deep/README.md"]);
    assert_eq!(total, 1);
}

#[test]
fn path_term_across_boundary() {
    let live = live_of(&build_index(&make_tree()));
    let q = q("deep/readme", false, TypeFilter::All);
    let (paths, total) = live_paths(&live, &q, 10);
    assert_eq!(paths, vec!["keep/deep/README.md"]);
    assert_eq!(total, 1);
}

#[test]
fn path_only_query_uses_linear_scan() {
    let live = live_of(&build_index(&make_tree()));
    let q = q("keep/deep", false, TypeFilter::All);
    let (mut paths, total) = live_paths(&live, &q, 10);
    paths.sort();
    assert_eq!(paths, vec!["keep/deep/", "keep/deep/README.md"]);
    assert_eq!(total, 2);
}

#[test]
fn glob_anchors_the_extension() {
    let tree = make_tree()
        .with("keep/report.pdf.bak")
        .with("keep/report.pdf");
    let live = live_of(&build_index(&tree));

    let (paths, total) = live_paths(&live, &q("*.pdf", false, TypeFilter::All), 10);
    assert_eq!(paths, vec!["keep/report.pdf"]);
    assert_eq!(total, 1);

    let (mut paths, _) = live_paths(&live, &q(".pdf", false, TypeFilter::All), 10);
    paths.sort();
    assert_eq!(paths, vec!["keep/report.pdf", "keep/report.pdf.bak"]);
}

#[test]
fn basename_glob_without_anchor_still_filters() {
    let tree = make_tree().with("keep/report.pdf");
    let bytes = build_index(&tree);
    let live = live_of(&bytes);
    let idx = Index::from_vec(bytes.clone()).unwrap();

    let query = q_basename("*.pdf", TypeFilter::All);
    let (paths, total) = live_paths(&live, &query, 10);
    assert_eq!(paths, vec!["keep/report.pdf"]);
    assert_eq!(total, 1);

    let (paths2, total2) = index_paths(&idx, &query, 10);
    assert_eq!(paths, paths2);
    assert_eq!(total, total2);
}

#[test]
fn daemon_and_offline_paths_agree() {
    let bytes = build_index(&make_tree());
    let live = live_of(&bytes);
    let idx = Index::from_vec(bytes.clone()).unwrap();

    let cases: Vec<(&str, bool, TypeFilter, usize)> = vec![
        ("foo", false, TypeFilter::All, 1),
        ("foo", false, TypeFilter::All, 10),
        ("readme", false, TypeFilter::All, 10),
        ("foo", false, TypeFilter::Dirs, 10),
        ("foo", false, TypeFilter::Files, 10),
        ("keep/deep README", false, TypeFilter::All, 10),
        ("deep/readme", false, TypeFilter::All, 10),
        ("keep/deep", false, TypeFilter::All, 10),
        ("keep deep", true, TypeFilter::All, 10),
        ("txt", false, TypeFilter::All, 1),
        ("*.txt", false, TypeFilter::All, 10),
        ("*.md", false, TypeFilter::All, 10),
        ("*/keep/*", false, TypeFilter::All, 10),
        ("*.md", false, TypeFilter::Files, 10),
        ("*keep*", false, TypeFilter::Dirs, 10),
        ("f?o.txt", false, TypeFilter::All, 10),
        ("*.md keep/", false, TypeFilter::All, 10),
    ];

    for (s, force_path, tf, limit) in cases {
        let q = q(s, force_path, tf);
        let (mut a, ta) = live_paths(&live, &q, limit);
        let (mut b, tb) = index_paths(&idx, &q, limit);
        a.sort();
        b.sort();
        assert_eq!(a, b, "{s}");
        assert_eq!(ta, tb, "{s}");
    }

    for s in ["*.md", "*.txt", "f?o.txt", "readme"] {
        let q = q_basename(s, TypeFilter::All);
        let (mut a, ta) = live_paths(&live, &q, 10);
        let (mut b, tb) = index_paths(&idx, &q, 10);
        a.sort();
        b.sort();
        assert_eq!(a, b, "-b {s}");
        assert_eq!(ta, tb, "-b {s}");
    }
}

#[test]
fn empty_query_finds_nothing() {
    let bytes = build_index(&make_tree());
    let live = live_of(&bytes);
    let (hits, total) = live.search(&Query::parse("  "), 10);
    assert!(hits.is_empty());
    assert_eq!(total, 0);
    let h = search(&Index::from_vec(bytes).unwrap(), &Query::parse(""), 10, 2);
    assert!(h.dirs.is_empty() && h.files.is_empty());
    assert_eq!(h.total, 0);
}

#[test]
fn total_does_not_depend_on_the_limit() {
    let live = live_of(&build_index(&make_tree()));
    for limit in [0, 1, 2, 3, 100] {
        let (hits, total) = live.search(&q("o", false, TypeFilter::All), limit);
        assert_eq!(total, 4);
        assert_eq!(hits.len(), limit.min(4));
    }
    let (hits, _) = live.search(&q("o", false, TypeFilter::All), 3);
    assert!(matches!(hits[0], Hit::Dir(_)));
    assert!(matches!(hits[1], Hit::Dir(_)));
    assert!(matches!(hits[2], Hit::File(_)));
}

#[test]
fn anchor_across_a_border_is_passed_over() {
    // In the arena the names stand back to back: "xa" and "aa" make "xaaa". The anchor is
    // found first across the border, then inside the second name.
    let tree = Dir::default().with("d/xa").with("d/aa").with("d/ab");
    let live = live_of(&build_index(&tree));
    let (paths, total) = live_paths(&live, &q("aa", false, TypeFilter::Files), 10);
    assert_eq!(paths, vec!["d/aa"]);
    assert_eq!(total, 1);

    // A name that holds the anchor more than once is one hit.
    let tree = Dir::default().with("d/aaaa").with("d/banana").with("d/xyz");
    let live = live_of(&build_index(&tree));
    let (paths, total) = live_paths(&live, &q("a", false, TypeFilter::Files), 10);
    assert_eq!(paths, vec!["d/aaaa", "d/banana"]);
    assert_eq!(total, 2);

    // Nothing matches across names.
    let tree = Dir::default().with("d/foo").with("d/bar");
    let live = live_of(&build_index(&tree));
    let (_, total) = live_paths(&live, &q("ob", false, TypeFilter::All), 10);
    assert_eq!(total, 0);
}

#[test]
fn parts_give_what_the_whole_gives() {
    let mut tree = Dir::default();
    for i in 0..37 {
        tree.put(&format!("d{}/file{}.txt", i % 5, i));
    }
    let bytes = build_index(&tree);
    let idx = Index::from_vec(bytes.clone()).unwrap();
    let live = live_of(&bytes);
    let query = q("1", false, TypeFilter::Files);
    let whole = search(&idx, &query, 7, 1);
    assert_eq!(whole.total, 13);
    for threads in [0, 1, 2, 3, 8, 36, 37, 38, 1000] {
        let h = search(&idx, &query, 7, threads);
        assert_eq!(h.files, whole.files);
        assert_eq!(h.total, whole.total);
    }
    for threads in [1, 2, 5, 40] {
        let mut parts = Vec::new();
        for t in 0..threads {
            if let Some((lo, hi)) = part(37, threads, t) {
                parts.push(live.search_base_range(&query, 7, lo, hi));
            }
        }
        let (files, total) = merge_parts(&parts, 7);
        assert_eq!(files, whole.files);
        assert_eq!(total, whole.total);
        let (hits, total) = live.finish_search(&query, 7, files, total);
        assert_eq!(hits.len(), 7);
        assert_eq!(total, 13);
    }
    assert_eq!(part(10, 3, 0), Some((0, 4)));
    assert_eq!(part(10, 3, 2), Some((8, 10)));
    assert_eq!(part(10, 8, 7), None);
    assert_eq!(part(0, 2, 0), None);
}

// --- looking ---

#[test]
fn directories_are_found_by_path() {
    let live = live_of(&build_index(&make_tree()));
    for path in ["/tmp/tree", "/tmp/tree/foo", "/tmp/tree/keep/deep"] {
        let id = live.lookup_dir(path.as_bytes()).unwrap();
        assert_eq!(live.dir_path(id), path.as_bytes());
    }
    assert_eq!(live.lookup_dir(b"/tmp/tree/"), Some(0));
    assert_eq!(
        live.lookup_dir(b"/tmp/tree//keep///deep/"),
        live.lookup_dir(b"/tmp/tree/keep/deep")
    );
    assert_eq!(live.lookup_dir(b"/tmp/tree/none"), None);
    assert_eq!(live.lookup_dir(b"/elsewhere"), None);
}

#[test]
fn paths_of_a_root_that_is_a_slash() {
    let bytes = build(&scan_of("/", &make_tree()), 0, [0u8; 16], 0);
    let live = live_of(&bytes);
    let id = live.lookup_dir(b"/keep/deep").unwrap();
    assert_eq!(live.dir_path(id), b"/keep/deep");
    assert_eq!(live.dir_path(0), b"/");
    let files = live.files_in_dir(0);
    assert_eq!(live.file_path(files[0]), b"/foo.txt");
    assert_eq!(live.path_of(Hit::Dir(0)), b"//");
}

#[test]
fn a_path_that_only_begins_like_the_root_is_not_found() {
    let tree = Dir::default().with("yz/").with("z/");
    let live = live_of(&build(&scan_of("/r", &tree), 0, [0u8; 16], 0));
    assert!(live.lookup_dir(b"/r/yz").is_some());
    assert_eq!(live.lookup_dir(b"/ryz"), None);
    assert_eq!(live.lookup_dir(b"/ry/z"), None);
    assert_eq!(live.lookup_dir(b"/rz"), None);
    assert_eq!(live.lookup_dir(b"/r"), Some(0));
    assert_eq!(live.lookup_dir(b"/r/"), Some(0));
    // A volume there is none of ours.
    let plan = live.plan(&[event("/ryz", EV_MOUNT)]);
    assert!(plan.rescan_ids.is_empty() && plan.refresh.is_empty() && !plan.need_full);
    assert!(matches!(plan.notes[..], [Note::MountOutside]));
    let plan = live.plan(&[event("/r/yz", EV_MOUNT)]);
    assert_eq!(plan.rescan_ids.len(), 1);
    assert!(matches!(plan.notes[..], [Note::MountInside]));
}

#[test]
fn what_is_found_has_the_path_that_was_asked_for() {
    for root in ["/", "/r", "/tmp/tree"] {
        let live = live_of(&build(&scan_of(root, &make_tree()), 0, [0u8; 16], 0));
        let mut found = 0;
        for id in 0..live.n_dirs() {
            let path = live.dir_path(id);
            if live.dir_name(id).is_empty() {
                continue;
            }
            assert_eq!(live.lookup_dir(&path), Some(id));
            // Without its last byte it is another path, or none.
            if let Some(other) = live.lookup_dir(&path[..path.len() - 1]) {
                assert_eq!(live.dir_path(other), path[..path.len() - 1]);
            }
            found += 1;
        }
        assert_eq!(found, 5);
    }
}

#[test]
fn children_and_files_of_a_directory() {
    let live = live_of(&build_index(&make_tree()));
    let names: Vec<Vec<u8>> = live
        .child_dirs(0)
        .iter()
        .map(|&d| live.dir_name(d).to_vec())
        .collect();
    assert_eq!(names, vec![b"foo".to_vec(), b"keep".to_vec(), b"other".to_vec()]);
    let foo = live.lookup_dir(b"/tmp/tree/foo").unwrap();
    let files = live.files_in_dir(foo);
    assert_eq!(files.len(), 1);
    assert_eq!(live.file_name(files[0]), b"note.txt");
    assert!(live.child_dirs(foo).is_empty());
    assert!(live.files_in_dir(u32::MAX).is_empty());
}

// --- planning ---

fn event(path: &str, flags: u32) -> (Vec<u8>, u32) {
    (path.as_bytes().to_vec(), flags)
}

#[test]
fn an_event_refreshes_its_directory() {
    let live = live_of(&build_index(&make_tree()));
    let plan = live.plan(&[
        event("/tmp/tree/foo/a", EV_ITEM_CREATED),
        event("/tmp/tree/foo/b", EV_ITEM_CREATED),
        event("/tmp/tree/keep/deep", EV_ITEM_IS_DIR),
    ]);
    let paths: Vec<String> = plan
        .refresh
        .iter()
        .map(|(_, p)| String::from_utf8_lossy(p).to_string())
        .collect();
    assert_eq!(paths, vec!["/tmp/tree/foo", "/tmp/tree/keep", "/tmp/tree/keep/deep"]);
    for (id, p) in plan.refresh.iter() {
        assert_eq!(live.lookup_dir(p), Some(*id));
    }
    assert!(plan.rescan_ids.is_empty());
    assert!(!plan.need_full);
    assert!(plan.notes.is_empty());
}

#[test]
fn an_unknown_directory_falls_back_to_an_ancestor() {
    let live = live_of(&build_index(&make_tree()));
    let plan = live.plan(&[event("/tmp/tree/foo/new/deeper/x", EV_ITEM_CREATED)]);
    assert_eq!(plan.refresh.len(), 1);
    assert_eq!(plan.refresh[0].1, b"/tmp/tree/foo");
    let plan = live.plan(&[event("/x", EV_ITEM_CREATED), event("name", EV_ITEM_CREATED)]);
    assert!(plan.refresh.is_empty());
}

#[test]
fn a_root_that_is_a_slash_is_an_ancestor_like_any_other() {
    let live = live_of(&build(&scan_of("/", &make_tree()), 0, [0u8; 16], 0));
    for path in ["/new/x", "/new/deeper/x", "/x"] {
        let plan = live.plan(&[event(path, EV_ITEM_CREATED)]);
        assert_eq!(plan.refresh, vec![(0, b"/".to_vec())]);
    }
    let plan = live.plan(&[event("/new", EV_ITEM_IS_DIR)]);
    assert_eq!(plan.refresh, vec![(0, b"/".to_vec())]);
}

#[test]
fn dropped_events_below_an_unknown_directory_list_the_root() {
    for (root, path) in [
        ("/tmp/tree", "/tmp/tree/new"),
        ("/tmp/tree", "/tmp/tree/new/deeper"),
        ("/", "/new"),
    ] {
        let live = live_of(&build(&scan_of(root, &make_tree()), 0, [0u8; 16], 0));
        for flag in [EV_MUST_SCAN_SUBDIRS, EV_USER_DROPPED, EV_KERNEL_DROPPED, EV_MOUNT] {
            let plan = live.plan(&[event(path, flag), event(path, flag)]);
            assert_eq!(plan.refresh, vec![(0, root.as_bytes().to_vec())]);
            assert!(plan.rescan_ids.is_empty());
            assert!(!plan.need_full);
        }
    }
    // The root is listed once, whatever asks for it.
    let live = live_of(&build_index(&make_tree()));
    let plan = live.plan(&[
        event("/tmp/tree/a", EV_ITEM_CREATED),
        event("/tmp/tree/new", EV_KERNEL_DROPPED),
    ]);
    assert_eq!(plan.refresh, vec![(0, b"/tmp/tree".to_vec())]);
    // Below a directory that is known, that one is read anew.
    let plan = live.plan(&[event("/tmp/tree/foo/new", EV_KERNEL_DROPPED)]);
    assert_eq!(plan.rescan_ids.len(), 1);
    assert_eq!(plan.rescan_ids[0].1, b"/tmp/tree/foo");
    assert!(plan.refresh.is_empty() && !plan.need_full);
    // Outside the tree there is nothing to be done.
    let plan = live.plan(&[event("/elsewhere", EV_KERNEL_DROPPED)]);
    assert!(plan.refresh.is_empty() && plan.rescan_ids.is_empty() && !plan.need_full);
}

#[test]
fn dropped_events_rescan_their_subtree() {
    let live = live_of(&build_index(&make_tree()));
    for flag in [EV_MUST_SCAN_SUBDIRS, EV_USER_DROPPED, EV_KERNEL_DROPPED] {
        let plan = live.plan(&[
            event("/tmp/tree/keep", flag),
            event("/tmp/tree/keep", flag),
        ]);
        assert_eq!(plan.rescan_ids.len(), 1);
        assert_eq!(plan.rescan_ids[0].1, b"/tmp/tree/keep");
        assert!(!plan.need_full);
        assert!(plan.refresh.is_empty());
        assert_eq!(plan.notes.len(), 1);
        assert!(matches!(&plan.notes[0], Note::Dropped(p) if p == b"/tmp/tree/keep"));
    }
    // Where it is the root, the index is rebuilt.
    let plan = live.plan(&[event("/tmp/tree", EV_KERNEL_DROPPED)]);
    assert!(plan.need_full);
    assert!(plan.rescan_ids.is_empty());
}

#[test]
fn only_a_moved_root_or_wrapped_ids_rebuild() {
    let live = live_of(&build_index(&make_tree()));
    for flag in [EV_ROOT_CHANGED, EV_IDS_WRAPPED] {
        let plan = live.plan(&[event("/tmp/tree", flag)]);
        assert!(plan.need_full);
        assert!(matches!(plan.notes[..], [Note::RootChanged]));
    }
    let plan = live.plan(&[event("/Volumes/x", EV_MOUNT), event("/Volumes/x", EV_UNMOUNT)]);
    assert!(!plan.need_full);
    assert!(plan.rescan_ids.is_empty());
    assert!(matches!(plan.notes[..], [Note::MountOutside]));
    let plan = live.plan(&[event("/tmp/tree/other", EV_MOUNT)]);
    assert_eq!(plan.rescan_ids.len(), 1);
    assert!(matches!(plan.notes[..], [Note::MountInside]));
}

#[test]
fn ignored_paths_plan_nothing() {
    let mut live = live_of(&build_index(&make_tree()));
    live.ignore_path(b"/tmp/tree/foo");
    assert!(live.ignored(b"/tmp/tree/foo/index.bin"));
    assert!(!live.ignored(b"/tmp/tree/keep"));
    let plan = live.plan(&[
        event("/tmp/tree/foo/index.bin", EV_ITEM_CREATED),
        event("/tmp/tree/foo", EV_ROOT_CHANGED),
    ]);
    assert!(plan.refresh.is_empty());
    assert!(!plan.need_full);
    assert!(plan.notes.is_empty());
}

// --- updating ---

fn file(name: &str) -> DirEntry {
    (name.as_bytes().to_vec(), false, false)
}

fn dir(name: &str) -> DirEntry {
    (name.as_bytes().to_vec(), true, false)
}

fn names_in(live: &Live, id: u32) -> Vec<String> {
    let mut v: Vec<String> = live
        .files_in_dir(id)
        .iter()
        .map(|&f| String::from_utf8_lossy(live.file_name(f)).to_string())
        .chain(
            live.child_dirs(id)
                .iter()
                .map(|&d| format!("{}/", String::from_utf8_lossy(live.dir_name(d)))),
        )
        .collect();
    v.sort();
    v
}

#[test]
fn a_listing_is_taken_over() {
    let mut live = live_of(&build_index(&make_tree()));
    let before = live.clone();
    let entries = vec![file("foo.txt"), file("new.txt"), dir("keep"), dir("fresh")];
    assert!(live.has_room_for_listing(&entries));
    let fresh = live.apply_listing(0, Some(entries));
    assert_eq!(fresh, vec![b"fresh".to_vec()]);
    assert_eq!(names_in(&live, 0), vec!["foo.txt", "keep/", "new.txt"]);
    // What lay below the directories that are gone is gone too.
    let (_, total) = live_paths(&live, &q("note", false, TypeFilter::All), 10);
    assert_eq!(total, 0);
    let (paths, _) = live_paths(&live, &q("readme", false, TypeFilter::All), 10);
    assert_eq!(paths, vec!["keep/deep/README.md"]);
    // The copy that was taken before has not changed.
    assert_eq!(names_in(&before, 0), vec!["foo.txt", "foo/", "keep/", "other/"]);
    let (_, total) = live_paths(&before, &q("note", false, TypeFilter::All), 10);
    assert_eq!(total, 1);
}

#[test]
fn listing_twice_is_listing_once() {
    let mut live = live_of(&build_index(&make_tree()));
    let entries = || vec![file("foo.txt"), file("new.txt"), dir("keep"), dir("fresh")];
    let first = live.apply_listing(0, Some(entries()));
    let (dirs, files, delta, dead) = (
        live.total_dirs(),
        live.total_files(),
        live.delta_len(),
        live.dead_len(),
    );
    let second = live.apply_listing(0, Some(entries()));
    assert_eq!(first, second);
    assert_eq!(live.total_dirs(), dirs);
    assert_eq!(live.total_files(), files);
    assert_eq!(live.delta_len(), delta);
    assert_eq!(live.dead_len(), dead);
    assert_eq!(names_in(&live, 0), vec!["foo.txt", "keep/", "new.txt"]);
}

#[test]
fn counts_follow_updates() {
    let mut live = live_of(&build_index(&make_tree()));
    let dirs = live.total_dirs();
    assert_eq!(live.total_files(), 4);
    assert_eq!(live.delta_len(), 0);
    assert_eq!(live.dead_len(), 0);
    let foo = live.lookup_dir(b"/tmp/tree/foo").unwrap();
    live.apply_listing(foo, Some(vec![file("a"), file("b")]));
    assert_eq!(live.total_files(), 5);
    assert_eq!(live.delta_len(), 2);
    assert_eq!(live.dead_len(), 1);
    assert_eq!(live.total_dirs(), dirs);
    live.apply_listing(foo, None);
    assert_eq!(live.total_files(), 3);
    assert_eq!(live.total_dirs(), dirs - 1);
    assert_eq!(live.lookup_dir(b"/tmp/tree/foo"), None);
}

#[test]
fn the_root_never_goes() {
    let mut live = live_of(&build_index(&make_tree()));
    let fresh = live.apply_listing(0, None);
    assert!(fresh.is_empty());
    assert_eq!(live.total_files(), 4);
    assert_eq!(live.lookup_dir(b"/tmp/tree"), Some(0));
}

#[test]
fn a_name_listed_twice_is_added_twice() {
    let mut live = live_of(&build_index(&make_tree()));
    let foo = live.lookup_dir(b"/tmp/tree/foo").unwrap();
    live.apply_listing(foo, Some(vec![file("note.txt"), file("note.txt"), file("x"), file("x")]));
    assert_eq!(names_in(&live, foo), vec!["note.txt", "note.txt", "x", "x"]);
    // Of two that bear one name, the last stands for it.
    live.apply_listing(foo, Some(vec![file("x")]));
    assert_eq!(names_in(&live, foo), vec!["note.txt", "x", "x"]);
}

#[test]
fn a_file_and_a_directory_may_share_a_name() {
    let mut live = live_of(&build_index(&make_tree()));
    let fresh = live.apply_listing(0, Some(vec![dir("foo.txt"), file("foo")]));
    assert_eq!(fresh, vec![b"foo.txt".to_vec()]);
    assert_eq!(names_in(&live, 0), vec!["foo"]);
}

#[test]
fn a_subtree_is_put_in_place() {
    let mut live = live_of(&build_index(&make_tree()));
    let tree = Subtree {
        dirs: vec![
            (u32::MAX, b"proj".to_vec()),
            (0, b"src".to_vec()),
            (1, b"bin".to_vec()),
        ],
        files: vec![
            (0, b"Cargo.toml".to_vec(), false),
            (2, b"main.rs".to_vec(), true),
            (9, b"lost".to_vec(), false),
        ],
    };
    assert!(live.has_room_for_tree(&tree));
    let keep = live.lookup_dir(b"/tmp/tree/keep").unwrap();
    live.graft(keep, &tree);
    let (paths, total) = live_paths(&live, &q("main", false, TypeFilter::All), 10);
    assert_eq!(paths, vec!["keep/proj/src/bin/main.rs"]);
    assert_eq!(total, 1);
    let (paths, _) = live_paths(&live, &q("proj/src", false, TypeFilter::Dirs), 10);
    assert_eq!(paths, vec!["keep/proj/src/", "keep/proj/src/bin/"]);
    let (_, total) = live_paths(&live, &q("lost", false, TypeFilter::All), 10);
    assert_eq!(total, 0);
    assert!(live.lookup_dir(b"/tmp/tree/keep/proj/src/bin").is_some());
}

#[test]
fn a_subtree_is_read_anew() {
    let mut live = live_of(&build_index(&make_tree()));
    let keep = live.lookup_dir(b"/tmp/tree/keep").unwrap();
    let tree = Subtree {
        dirs: vec![(u32::MAX, b"keep".to_vec()), (0, b"other".to_vec())],
        files: vec![(1, b"README.md".to_vec(), false)],
    };
    live.rescan_subtree(keep, &tree);
    let (mut paths, total) = live_paths(&live, &q("readme", false, TypeFilter::All), 10);
    paths.sort();
    assert_eq!(paths, vec!["keep/other/README.md", "other/README.md"]);
    assert_eq!(total, 2);
    assert_ne!(live.lookup_dir(b"/tmp/tree/keep"), Some(keep));
    assert_eq!(live.lookup_dir(b"/tmp/tree/keep/deep"), None);
}

/// Every directory below the root has names of its own, and is found by its path.
fn assert_tidy(live: &Live) {
    assert_eq!(live.lookup_dir(&live.dir_path(0)), Some(0));
    let mut stack = vec![0u32];
    let mut seen = Vec::new();
    while let Some(d) = stack.pop() {
        assert!(!seen.contains(&d));
        seen.push(d);
        assert_eq!(live.lookup_dir(&live.dir_path(d)), Some(d));
        for is_dir in [true, false] {
            let mut names: Vec<Vec<u8>> = if is_dir {
                live.child_dirs(d).iter().map(|&c| live.dir_name(c).to_vec()).collect()
            } else {
                live.files_in_dir(d).iter().map(|&f| live.file_name(f).to_vec()).collect()
            };
            let n = names.len();
            names.sort();
            names.dedup();
            assert_eq!(names.len(), n);
        }
        stack.append(&mut live.child_dirs(d));
    }
}

#[test]
fn updates_keep_names_apart() {
    let mut live = live_of(&build_index(&make_tree()));
    assert_tidy(&live);
    // A listing: one file stays, two come, a directory goes, one is new.
    let listing = || {
        Some(vec![
            file("foo.txt"),
            file("keep"),
            file("late"),
            dir("keep"),
            dir("fresh"),
            dir("foo"),
        ])
    };
    let new = live.apply_listing(0, listing());
    assert_eq!(new, vec![b"fresh".to_vec()]);
    assert_eq!(live.lookup_dir(b"/tmp/tree/other"), None);
    assert_tidy(&live);
    // Once more: nothing changes, and the same is new.
    let counts = |l: &Live| (l.total_files(), l.total_dirs(), l.delta_len(), l.dead_len());
    let before = (counts(&live), live.files_in_dir(0), live.child_dirs(0));
    assert_eq!(live.apply_listing(0, listing()), new);
    assert_eq!((counts(&live), live.files_in_dir(0), live.child_dirs(0)), before);
    // What is new is read and put in place; none of it was there.
    let mut r = Reader::new(b"/tmp/tree/fresh", b"fresh");
    while let Some(p) = r.next() {
        let p = String::from_utf8_lossy(p).to_string();
        r.take(match p.as_str() {
            "/tmp/tree/fresh" => Some(vec![dir("a"), dir("b"), file("a")]),
            "/tmp/tree/fresh/a" => Some(vec![file("a"), dir("a")]),
            _ => None,
        });
    }
    let tree = r.finish();
    live.graft(0, &tree);
    assert_eq!(names_in(&live, 0), vec!["foo.txt", "foo/", "fresh/", "keep", "keep/", "late"]);
    assert!(live.lookup_dir(b"/tmp/tree/fresh/a/a").is_some());
    assert_tidy(&live);
    // A subtree that is read anew takes the place of the old one.
    let fresh = live.lookup_dir(b"/tmp/tree/fresh").unwrap();
    live.rescan_subtree(fresh, &tree);
    assert_eq!(names_in(&live, 0), vec!["foo.txt", "foo/", "fresh/", "keep", "keep/", "late"]);
    assert_tidy(&live);
    // A directory that is gone.
    let keep = live.lookup_dir(b"/tmp/tree/keep").unwrap();
    live.apply_listing(keep, None);
    assert_eq!(live.lookup_dir(b"/tmp/tree/keep/deep"), None);
    assert_tidy(&live);
}

#[test]
fn a_directory_without_its_parent_is_passed_over() {
    let mut live = live_of(&build_index(&make_tree()));
    let tree = Subtree {
        dirs: vec![
            (u32::MAX, b"top".to_vec()),
            (7, b"nowhere".to_vec()),
            (0, b"sub".to_vec()),
        ],
        files: vec![(1, b"f".to_vec(), false)],
    };
    live.graft(0, &tree);
    assert_eq!(live.delta_len(), 3);
    // The numbers of those behind it shift.
    assert!(live.lookup_dir(b"/tmp/tree/top/sub").is_some());
    let sub = live.lookup_dir(b"/tmp/tree/top/sub").unwrap();
    assert_eq!(names_in(&live, sub), vec!["f"]);
}

#[test]
fn a_subtree_is_read_from_the_top() {
    let mut r = Reader::new(b"/a/top", b"top");
    let mut seen: Vec<String> = Vec::new();
    while let Some(p) = r.next() {
        let p = String::from_utf8_lossy(p).to_string();
        seen.push(p.clone());
        r.take(match p.as_str() {
            "/a/top" => Some(vec![dir("x"), file("f"), dir("y")]),
            "/a/top/x" => Some(vec![(b"l".to_vec(), false, true)]),
            _ => None,
        });
    }
    assert_eq!(seen, vec!["/a/top", "/a/top/y", "/a/top/x"]);
    assert_eq!(r.dirs_found(), 3);
    let t = r.finish();
    assert_eq!(
        t.dirs,
        vec![
            (u32::MAX, b"top".to_vec()),
            (0, b"x".to_vec()),
            (0, b"y".to_vec())
        ]
    );
    assert_eq!(
        t.files,
        vec![(0, b"f".to_vec(), false), (1, b"l".to_vec(), true)]
    );
}

#[test]
fn a_reading_holds_each_entry_once_under_its_directory() {
    let list = |p: &str| match p {
        "/t" => Some(vec![dir("a"), file("f"), dir("b"), file("f")]),
        "/t/a" => Some(vec![file("g"), dir("a")]),
        "/t/b" => Some(Vec::new()),
        "/t/a/a" => Some(vec![file("h")]),
        _ => None,
    };
    let mut r = Reader::new(b"/t", b"t");
    while let Some(p) = r.next() {
        let p = String::from_utf8_lossy(p).to_string();
        r.take(list(&p));
    }
    let t = r.finish();
    let mut paths: Vec<String> = Vec::new();
    for (i, (up, name)) in t.dirs.iter().enumerate() {
        let name = String::from_utf8_lossy(name);
        let path = if i == 0 {
            "/t".to_string()
        } else {
            format!("{}/{}", paths[*up as usize], name)
        };
        paths.push(path);
    }
    for (i, path) in paths.iter().enumerate() {
        let mut found: Vec<(Vec<u8>, bool)> = Vec::new();
        found.extend(t.dirs.iter().filter(|d| d.0 == i as u32).map(|d| (d.1.clone(), true)));
        found.extend(t.files.iter().filter(|f| f.0 == i as u32).map(|f| (f.1.clone(), false)));
        let listed = list(path).unwrap_or_default();
        let mut expected: Vec<(Vec<u8>, bool)> = Vec::new();
        expected.extend(listed.iter().filter(|e| e.1).map(|e| (e.0.clone(), true)));
        expected.extend(listed.iter().filter(|e| !e.1).map(|e| (e.0.clone(), false)));
        assert_eq!(found, expected);
    }
    assert_eq!(paths.len(), 4);
    assert_eq!(t.files.len(), 4);
}

#[test]
fn a_batch_is_worked_off_on_a_copy() {
    let live = live_of(&build_index(&make_tree()));
    let keep = live.lookup_dir(b"/tmp/tree/keep").unwrap();
    let foo = live.lookup_dir(b"/tmp/tree/foo").unwrap();
    let tree = Subtree {
        dirs: vec![(u32::MAX, b"keep".to_vec())],
        files: vec![(0, b"kept.txt".to_vec(), false)],
    };
    let listings = vec![
        (0, b"/tmp/tree".to_vec(), Some(vec![dir("foo"), dir("keep"), dir("brand")])),
        (foo, b"/tmp/tree/foo".to_vec(), Some(vec![file("a"), dir("inner")])),
    ];
    let (next, pending) = live.updated(&vec![(keep, tree)], listings).unwrap();
    assert_eq!(
        pending,
        vec![
            (0, b"/tmp/tree/brand".to_vec()),
            (foo, b"/tmp/tree/foo/inner".to_vec())
        ]
    );
    assert_eq!(names_in(&next, 0), vec!["foo/", "keep/"]);
    assert_eq!(names_in(&next, foo), vec!["a"]);
    let (paths, _) = live_paths(&next, &q("kept", false, TypeFilter::All), 10);
    assert_eq!(paths, vec!["keep/kept.txt"]);
    assert_eq!(live.total_files(), 4);
    assert_eq!(names_in(&live, 0), vec!["foo.txt", "foo/", "keep/", "other/"]);
    // A directory that is gone.
    let (next, pending) = live
        .updated(&Vec::new(), vec![(foo, b"/tmp/tree/foo".to_vec(), None)])
        .unwrap();
    assert!(pending.is_empty());
    assert_eq!(next.lookup_dir(b"/tmp/tree/foo"), None);
}

#[test]
fn updates_keep_ids() {
    let mut live = live_of(&build_index(&make_tree()));
    let ids: Vec<u32> = (0..live.n_dirs()).collect();
    let names: Vec<Vec<u8>> = ids.iter().map(|&i| live.dir_name(i).to_vec()).collect();
    let files: Vec<Vec<u8>> = (0..live.n_files())
        .map(|i| live.file_name(i).to_vec())
        .collect();
    live.apply_listing(0, Some(vec![file("new")]));
    live.graft(
        0,
        &Subtree {
            dirs: vec![(u32::MAX, b"d".to_vec())],
            files: Vec::new(),
        },
    );
    for (i, n) in names.iter().enumerate() {
        assert_eq!(live.dir_name(i as u32), n);
    }
    for (i, n) in files.iter().enumerate() {
        assert_eq!(live.file_name(i as u32), n);
    }
    // What is gone stays gone, though its id can still be looked up.
    assert_eq!(live.total_files(), 1);
    assert_eq!(live.lookup_dir(b"/tmp/tree/keep"), None);
}

#[test]
fn a_removal_takes_the_subtree_and_nothing_else() {
    let tree = Dir::default()
        .with("a/b/c/x")
        .with("a/b/y")
        .with("a/z")
        .with("ab/x")
        .with("w");
    let mut live = live_of(&build_index(&tree));
    let b = live.lookup_dir(b"/tmp/tree/a/b").unwrap();
    live.apply_listing(b, None);
    let (mut paths, _) = live_paths(&live, &q("*", false, TypeFilter::All), 100);
    paths.sort();
    // The root itself is listed with nothing behind its path.
    assert_eq!(paths, vec!["", "a/", "a/z", "ab/", "ab/x", "w"]);
}
