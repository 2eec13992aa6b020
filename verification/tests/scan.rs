use mylocate::bitset::BitSet;
use mylocate::bytes::{get_u16, put_u16, to_pattern64, to_signed32, to_signed64};
use mylocate::ffi::{
    build_attrlist_fast, rd_i32, rd_i64, rd_u32, ATTR_BIT_MAP_COUNT, VDIR, VLNK, VREG,
};
use mylocate::scan::{
    handout, merge, next_step, on_volume, parse_batch, scan_root, share_from, take_batch, to_cstring,
    DirNode, FileShard, Scratch, Step, Worker, FLAG_SYMLINK, ID_BATCH, MAX_DEPTH,
};
use mylocate::text::{join_path, leaf_name};

/// One entry of a listing.
fn entry(name: &[u8], kind: u32) -> Vec<u8> {
    let mut e = vec![0u8; 48];
    e.extend_from_slice(name);
    e.push(0);
    while e.len() % 4 != 0 {
        e.push(0);
    }
    let len = e.len() as u32;
    e[0..4].copy_from_slice(&len.to_le_bytes());
    e[28..32].copy_from_slice(&20i32.to_le_bytes());
    e[32..36].copy_from_slice(&(name.len() as u32 + 1).to_le_bytes());
    e[36..40].copy_from_slice(&kind.to_le_bytes());
    e
}

fn listing() -> Vec<u8> {
    let mut buf = Vec::new();
    buf.extend(entry(b"dir", VDIR));
    buf.extend(entry(b"file.txt", VREG));
    buf.extend(entry(b"socket", 6));
    buf.extend(entry(b"link", VLNK));
    buf.extend(entry(b"sub", VDIR));
    buf
}

#[test]
fn a_batch_is_read() {
    let layout = build_attrlist_fast();
    let buf = listing();
    let got = parse_batch(&buf, 5, &layout);
    assert_eq!(
        got,
        vec![
            (b"dir".to_vec(), true, false),
            (b"file.txt".to_vec(), false, false),
            (b"link".to_vec(), false, true),
            (b"sub".to_vec(), true, false),
        ]
    );
    // No more is read than was announced.
    assert_eq!(parse_batch(&buf, 2, &layout).len(), 2);
    assert_eq!(parse_batch(&buf, 0, &layout).len(), 0);
    // Nor more than is there.
    assert_eq!(parse_batch(&buf, 99, &layout).len(), 4);
}

#[test]
fn entries_that_are_cut_short_end_the_batch() {
    let layout = build_attrlist_fast();
    let mut buf = listing();
    buf.truncate(buf.len() - 1);
    assert_eq!(parse_batch(&buf, 5, &layout).len(), 3);
    // An entry that claims to be shorter than the fixed fields.
    let mut buf = listing();
    buf[0..4].copy_from_slice(&47u32.to_le_bytes());
    assert_eq!(parse_batch(&buf, 5, &layout).len(), 0);
    assert_eq!(parse_batch(&[], 5, &layout).len(), 0);
}

#[test]
fn names_outside_their_entry_are_passed_over() {
    let layout = build_attrlist_fast();
    let mut buf = listing();
    // Before the entry, behind its end, and empty.
    buf[28..32].copy_from_slice(&(-29i32).to_le_bytes());
    assert_eq!(parse_batch(&buf, 5, &layout)[0].0, b"file.txt");
    buf[28..32].copy_from_slice(&1000i32.to_le_bytes());
    assert_eq!(parse_batch(&buf, 5, &layout)[0].0, b"file.txt");
    let mut buf = listing();
    buf[32..36].copy_from_slice(&1u32.to_le_bytes());
    assert_eq!(parse_batch(&buf, 5, &layout)[0].0, b"file.txt");
    // A name may start anywhere inside.
    let mut buf = listing();
    buf[28..32].copy_from_slice(&(-28i32).to_le_bytes());
    buf[32..36].copy_from_slice(&3u32.to_le_bytes());
    assert_eq!(parse_batch(&buf, 5, &layout)[0].0, &buf[0..2]);
}

#[test]
fn a_batch_fills_the_tables() {
    let layout = build_attrlist_fast();
    let mut files = FileShard::default();
    let mut sc = Scratch::default();
    take_batch(&listing(), 5, &layout, &mut files, &mut sc, 9);
    assert_eq!(files.names, b"file.txtlink");
    assert_eq!(files.recs.len(), 2);
    assert_eq!(files.recs[0].parent, 9);
    assert_eq!(files.recs[0].flags, 0);
    assert_eq!(files.recs[1].name_off, 8);
    assert_eq!(files.recs[1].name_len, 4);
    assert_eq!(files.recs[1].flags, FLAG_SYMLINK);
    assert_eq!(sc.name(0), b"dir");
    assert_eq!(sc.name(1), b"sub");
    assert_eq!(sc.c_name(1), Some(b"sub\0".to_vec()));
}

#[test]
fn names_are_kept_within_their_counters() {
    let mut files = FileShard::default();
    let long = vec![b'n'; 0x1_0000 + 3];
    files.push(&long, 0, false);
    assert_eq!(files.recs[0].name_len, 3);
    assert_eq!(files.names.len(), 0x1_0003);
    let mut sc = Scratch::default();
    sc.push(&[b'x'; 255]);
    sc.push(&[b'x'; 256]);
    assert_eq!(sc.c_name(0).unwrap().len(), 256);
    assert_eq!(sc.c_name(1), None);
    sc.clear();
    assert!(sc.subdirs.is_empty());
}

#[test]
fn ids_come_in_batches() {
    let mut w = Worker::new();
    let mut sc = Scratch::default();
    for i in 0..ID_BATCH + 1 {
        sc.push(format!("d{i}").as_bytes());
    }
    assert!(w.needs_ids());
    w.refill(1);
    for _ in 0..ID_BATCH {
        assert!(!w.needs_ids());
        w.register(&mut sc, 0);
    }
    assert!(w.needs_ids());
    w.refill(5000);
    w.register(&mut sc, 0);
    assert_eq!(sc.ids[0], 1);
    assert_eq!(sc.ids[511], 512);
    assert_eq!(sc.ids[512], 5000);
    assert_eq!(w.alloc_id(), 5001);
    assert_eq!(w.dir_nodes[1].1.parent, 0);
    assert_eq!(w.dir_nodes[1].1.name_off, 2);
}

#[test]
fn work_is_shared_where_someone_is_idle() {
    assert_eq!(share_from(7, 0, 0), 7);
    assert_eq!(share_from(7, 1, 0), 3);
    assert_eq!(share_from(1, 1, 0), 1);
    assert_eq!(share_from(0, 1, 0), 0);
    assert_eq!(share_from(7, 0, MAX_DEPTH), 0);
    let mut sc = Scratch::default();
    sc.push(b"a");
    sc.push(b"b");
    let mut w = Worker::new();
    w.refill(10);
    w.register(&mut sc, 3);
    w.register(&mut sc, 3);
    let tasks = handout(b"/r", &sc, 1);
    assert_eq!(tasks.len(), 1);
    assert_eq!(tasks[0].path, b"/r/b");
    assert_eq!(tasks[0].dir_id, 11);
    sc.truncate(1);
    assert_eq!(sc.subdirs.len(), 1);
    assert_eq!(handout(b"/", &sc, 0)[0].path, b"/a");
}

#[test]
fn workers_stop_together() {
    assert_eq!(next_step(2, true, 0, 4), Step::Take);
    assert_eq!(next_step(0, true, 0, 4), Step::Stop);
    assert_eq!(next_step(0, false, 4, 4), Step::Finish);
    assert_eq!(next_step(0, false, 3, 4), Step::Wait);
}

#[test]
fn the_path_is_as_before_after_coming_back() {
    let mut w = Worker::new();
    w.path = b"/r".to_vec();
    let n = w.enter(b"sub");
    assert_eq!(w.path, b"/r/sub");
    w.leave(n);
    assert_eq!(w.path, b"/r");
    w.path = b"/".to_vec();
    w.enter(b"x");
    assert_eq!(w.path, b"/x");
}

#[test]
fn merging_loses_no_directory() {
    let mut a = Worker::new();
    let mut sc = Scratch::default();
    sc.push(b"one");
    a.refill(1);
    a.register(&mut sc, 0);
    a.files.push(b"f", 0, false);
    let mut b = Worker::new();
    let mut sc = Scratch::default();
    sc.push(b"two");
    sc.push(b"three");
    b.refill(513);
    b.register(&mut sc, 1);
    b.register(&mut sc, 513);
    let r = merge(b"/root", 1025, vec![a.finish(), b.finish()], 7);
    assert_eq!(r.stats.dirs, 4);
    assert_eq!(r.stats.files, 1);
    assert_eq!(r.stats.errors, 7);
    assert_eq!(r.dirs.names, b"/rootonetwothree");
    assert_eq!(r.dirs.nodes.len(), 1025);
    let name = |n: &DirNode| {
        let s = n.name_off as usize;
        r.dirs.names[s..s + n.name_len as usize].to_vec()
    };
    assert_eq!(name(&r.dirs.nodes[0]), b"/root");
    assert_eq!(r.dirs.nodes[0].parent, u32::MAX);
    assert_eq!(name(&r.dirs.nodes[1]), b"one");
    assert_eq!(name(&r.dirs.nodes[513]), b"two");
    assert_eq!(r.dirs.nodes[513].parent, 1);
    assert_eq!(name(&r.dirs.nodes[514]), b"three");
    assert_eq!(r.dirs.nodes[2], DirNode::default());
    assert_eq!(r.shards.len(), 2);
}

#[test]
fn roots_lose_their_last_slashes() {
    assert_eq!(scan_root(b"/Users/x/"), b"/Users/x");
    assert_eq!(scan_root(b"/Users/x"), b"/Users/x");
    assert_eq!(scan_root(b"///"), b"/");
    assert_eq!(scan_root(b""), b"/");
}

#[test]
fn c_strings_end_in_nul() {
    assert_eq!(to_cstring(b"ab"), vec![97, 98, 0]);
    assert_eq!(to_cstring(&[0x80, 0xff]), vec![-128, -1, 0]);
    assert_eq!(to_cstring(b""), vec![0]);
}

#[test]
fn integers_are_read_unaligned() {
    let b = [0u8, 0xfe, 0xff, 0xff, 0xff, 0xff, 0xff, 0xff, 0xff, 1];
    assert_eq!(rd_u32(&b, 1), 0xffff_fffe);
    assert_eq!(rd_i32(&b, 1), -2);
    assert_eq!(rd_i64(&b, 1), -2);
    assert_eq!(rd_u32(&b, 6), 0x01ff_ffff);
    assert_eq!(to_signed32(0x7fff_ffff), i32::MAX);
    assert_eq!(to_signed32(0x8000_0000), i32::MIN);
    assert_eq!(to_signed64(to_pattern64(i64::MIN)), i64::MIN);
    let mut v = Vec::new();
    put_u16(&mut v, 0x1234);
    assert_eq!(v, vec![0x34, 0x12]);
    assert_eq!(get_u16(&v, 0), 0x1234);
}

#[test]
fn only_what_a_listing_holds_is_asked_for() {
    let l = build_attrlist_fast();
    assert_eq!(l.min_len, 48);
    assert_eq!(l.attrlist.bitmapcount, ATTR_BIT_MAP_COUNT);
    assert_eq!(l.attrlist.commonattr, 0xA200_0009);
    assert_eq!(l.attrlist.fileattr, 0);
}

#[test]
fn a_bit_set_holds_what_was_put_in() {
    let mut s = BitSet::new(70);
    assert_eq!(s.count(), 0);
    for i in [0, 63, 64, 69] {
        s.set(i);
        s.set(i);
    }
    assert!(s.get(0) && s.get(63) && s.get(64) && s.get(69));
    assert!(!s.get(1) && !s.get(65) && !s.get(1000));
    assert_eq!(s.count(), 4);
    s.set(100_000);
    assert_eq!(s.count(), 4);
    s.grow(200);
    assert!(s.get(63) && !s.get(199));
    s.set(199);
    assert_eq!(s.clone().count(), 5);
}

#[test]
fn paths_and_names() {
    assert_eq!(join_path(b"/a", b"b"), b"/a/b");
    assert_eq!(join_path(b"/", b"b"), b"/b");
    assert_eq!(join_path(b"", b"b"), b"/b");
    assert_eq!(leaf_name(b"/a/b"), b"b");
    assert_eq!(leaf_name(b"b"), b"b");
    assert_eq!(leaf_name(b"/a/"), b"");
}

#[test]
fn other_volumes_are_left_alone() {
    assert!(on_volume(Some(16), 16));
    assert!(!on_volume(Some(17), 16));
    assert!(!on_volume(None, 16));
    assert!(on_volume(Some(-1), -1));
}

#[test]
fn ids_from_batches_are_distinct_and_leave_the_root_alone() {
    let mut next: u32 = 1;
    let mut workers = vec![Worker::new(), Worker::new(), Worker::new()];
    for round in 0..900 {
        for (k, w) in workers.iter_mut().enumerate() {
            if w.needs_ids() {
                w.refill(next);
                next += ID_BATCH;
            }
            let mut sc = Scratch::default();
            sc.push(format!("d{round}_{k}").as_bytes());
            w.register(&mut sc, 0);
        }
    }
    let outs: Vec<_> = workers.into_iter().map(|w| w.finish()).collect();
    let mut ids: Vec<u32> = Vec::new();
    for o in outs.iter() {
        ids.extend(o.dir_nodes.iter().map(|(id, _)| *id));
    }
    assert_eq!(ids.len(), 2700);
    assert!(ids.iter().all(|&id| 0 < id && id < next));
    ids.sort();
    ids.dedup();
    assert_eq!(ids.len(), 2700);
    let r = merge(b"/some/root", next as usize, outs, 0);
    let root = r.dirs.nodes[0];
    assert_eq!((root.name_off, root.name_len, root.parent), (0, 10, u32::MAX));
    assert_eq!(&r.dirs.names[..10], b"/some/root");
    assert_eq!(r.dirs.nodes.iter().filter(|n| n.name_len > 0).count(), 2701);
}
