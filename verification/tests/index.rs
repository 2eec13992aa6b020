use mylocate::index::{Index, IndexError, MAGIC};
use mylocate::order::order_by_key;
use mylocate::scan::{
    DirNode, DirTable, FileRec, FileShard, ScanResult, ScanStats, FLAG_SYMLINK,
};
use mylocate::search::{search, Query};
use mylocate::writer::{align8, build, fits};

fn sample() -> ScanResult {
    let mut a = FileShard::default();
    a.push(b"zeta", 2, false);
    a.push(b"alpha", 0, true);
    let mut b = FileShard::default();
    b.push(b"beta", 2, false);
    b.push(b"gamma", 0, false);
    let names = b"/roothomework".to_vec();
    let node = |name_off: u32, parent: u32, name_len: u16| DirNode {
        name_off,
        parent,
        name_len,
        _pad: 0,
    };
    let nodes = vec![
        node(0, u32::MAX, 5),
        node(9, 2, 4),
        node(5, 0, 4),
        DirNode::default(),
    ];
    ScanResult {
        dirs: DirTable { names, nodes },
        shards: vec![a, b],
        stats: ScanStats {
            dirs: 3,
            files: 4,
            errors: 0,
        },
    }
}

fn u64_at(b: &[u8], off: usize) -> u64 {
    u64::from_le_bytes(b[off..off + 8].try_into().unwrap())
}

#[test]
fn what_is_written_is_read_back() {
    let uuid = [7u8; 16];
    let bytes = build(&sample(), 42, uuid, -5);
    let idx = Index::from_vec(bytes).unwrap();
    assert!(idx.is_consistent());
    let h = idx.header();
    assert_eq!(h.magic, MAGIC);
    assert_eq!(h.version, 2);
    assert_eq!(h.event_id, 42);
    assert_eq!(h.dev_uuid, uuid);
    assert_eq!(h.scan_time, -5);
    assert_eq!(h.n_dirs, 4);
    assert_eq!(h.n_files, 4);
    assert_eq!(h.n_dir_by_parent, 3);
    assert_eq!(idx.root(), b"/root");
    assert_eq!(idx.dir_names(), b"/roothomework");
    // Files stand in the order of their parents, those of one parent as they came.
    assert_eq!(idx.file_names(), b"alphagammazetabeta");
    let names: Vec<&[u8]> = (0..4).map(|i| idx.file_name(i)).collect();
    assert_eq!(names, vec![&b"alpha"[..], b"gamma", b"zeta", b"beta"]);
    assert_eq!(idx.file_recs()[0].flags, FLAG_SYMLINK);
    assert_eq!(idx.file_recs()[1].flags, 0);
    assert_eq!(idx.file_recs()[2].parent, 2);
    // The unused id is left out; the root has no parent and comes last.
    assert_eq!(idx.dir_by_parent(), &[2, 1, 0]);
    assert_eq!(idx.dir_nodes()[2].parent, 0);
    assert_eq!(idx.dir_path(1), b"/root/home/work");
    assert_eq!(idx.file_path(3), b"/root/home/beta");
    assert_eq!(idx.child_dirs(0), vec![2]);
    assert_eq!(idx.child_dirs(2), vec![1]);
    assert_eq!(idx.child_dirs(1), Vec::<u32>::new());
    assert_eq!(idx.files_in_dir(0), 0..2);
    assert_eq!(idx.files_in_dir(1), 2..2);
    assert_eq!(idx.files_in_dir(2), 2..4);
    assert_eq!(idx.files_in_dir(9), 4..4);
    assert_eq!(idx.dir_name(1), b"work");
}

#[test]
fn the_layout_is_fixed() {
    let bytes = build(&sample(), 42, [7u8; 16], 9);
    assert_eq!(&bytes[0..8], b"MYLOCIDX");
    assert_eq!(&bytes[8..16], &[2, 0, 0, 0, 0, 0, 0, 0]);
    assert_eq!(u64_at(&bytes, 16), 192);
    assert_eq!(u64_at(&bytes, 24), 5);
    assert_eq!(u64_at(&bytes, 32), 192);
    assert_eq!(u64_at(&bytes, 40), 13);
    // 192 + 13 rounded up, then four nodes, three ids, eighteen bytes of names.
    assert_eq!(u64_at(&bytes, 48), 208);
    assert_eq!(u64_at(&bytes, 56), 4);
    assert_eq!(u64_at(&bytes, 128), 256);
    assert_eq!(u64_at(&bytes, 136), 3);
    assert_eq!(u64_at(&bytes, 64), 272);
    assert_eq!(u64_at(&bytes, 72), 18);
    assert_eq!(u64_at(&bytes, 80), 296);
    assert_eq!(u64_at(&bytes, 88), 4);
    assert_eq!(u64_at(&bytes, 96), 9);
    assert_eq!(u64_at(&bytes, 104), 42);
    assert_eq!(bytes.len(), 296 + 48);
    assert!(bytes[144..192].iter().all(|&b| b == 0));
    assert_eq!(&bytes[192..205], b"/roothomework");
    assert_eq!(&bytes[205..208], &[0, 0, 0]);
    assert_eq!(&bytes[208..220], &[0, 0, 0, 0, 255, 255, 255, 255, 5, 0, 0, 0]);
    assert_eq!(&bytes[256..268], &[2, 0, 0, 0, 1, 0, 0, 0, 0, 0, 0, 0]);
    assert_eq!(&bytes[296..308], &[0, 0, 0, 0, 0, 0, 0, 0, 5, 0, 1, 0]);
}

#[test]
fn damaged_files_are_refused() {
    let good = build(&sample(), 0, [0u8; 16], 0);
    let err = |b: Vec<u8>| Index::from_vec(b).err();
    assert_eq!(err(Vec::new()), Some(IndexError::TooSmall));
    assert_eq!(err(good[..191].to_vec()), Some(IndexError::TooSmall));
    let mut b = good.clone();
    b[0] = b'X';
    assert_eq!(err(b), Some(IndexError::BadMagic));
    let mut b = good.clone();
    b[8] = 1;
    assert_eq!(err(b), Some(IndexError::BadVersion));
    // Cut short, the last section reaches beyond the end.
    assert_eq!(
        err(good[..good.len() - 1].to_vec()),
        Some(IndexError::OutOfRange)
    );
    // Sizes that would wrap around are out of range as well.
    for off in [16, 24, 32, 40, 48, 56, 64, 72, 80, 88, 128, 136] {
        let mut b = good.clone();
        b[off..off + 8].copy_from_slice(&[255u8; 8]);
        assert_eq!(err(b), Some(IndexError::OutOfRange), "{off}");
    }
    assert_eq!(err(good), None);
}

#[test]
fn inconsistent_tables_are_seen() {
    let good = build(&sample(), 0, [0u8; 16], 0);
    let check = |off: usize, value: u8| {
        let mut b = good.clone();
        b[off] = value;
        Index::from_vec(b).unwrap().is_consistent()
    };
    assert!(Index::from_vec(good.clone()).unwrap().is_consistent());
    // A name that leaves its arena.
    assert!(!check(208 + 12, 200));
    // A parent that is not a directory.
    assert!(!check(208 + 12 + 4, 9));
    // An id twice, an id out of range, an unused id.
    assert!(!check(256, 1));
    assert!(!check(256, 7));
    assert!(!check(256, 3));
    // Files out of order, and names that are not back to back.
    assert!(!check(296 + 4, 3));
    assert!(!check(296 + 12, 4));
}

#[test]
fn an_empty_scan_makes_an_index() {
    let scan = ScanResult {
        dirs: DirTable::default(),
        shards: Vec::new(),
        stats: ScanStats {
            dirs: 0,
            files: 0,
            errors: 0,
        },
    };
    let bytes = build(&scan, 0, [0u8; 16], 0);
    assert_eq!(bytes.len(), 192);
    let idx = Index::from_vec(bytes).unwrap();
    assert!(idx.is_consistent());
    assert_eq!(idx.root(), b"");
    let h = search(&idx, &Query::parse("x"), 5, 4);
    assert_eq!(h.total, 0);
}

#[test]
fn a_path_climbs_at_most_256_levels() {
    // A directory that is its own parent does not make the climb endless.
    let scan = ScanResult {
        dirs: DirTable {
            names: b"ab".to_vec(),
            nodes: vec![DirNode {
                name_off: 0,
                parent: 0,
                name_len: 1,
                _pad: 0,
            }],
        },
        shards: Vec::new(),
        stats: ScanStats {
            dirs: 1,
            files: 0,
            errors: 0,
        },
    };
    let idx = Index::from_vec(build(&scan, 0, [0u8; 16], 0)).unwrap();
    let path = idx.dir_path(0);
    assert_eq!(path.len(), 256 + 255);
    assert_eq!(&path[..3], b"a/a");
    assert_eq!(idx.dir_path(5), b"");
    assert_eq!(idx.dir_path(u32::MAX), b"");
}

#[test]
fn names_may_be_shared_between_records() {
    let rec = |name_off: u32, parent: u32| FileRec {
        name_off,
        parent,
        name_len: 3,
        flags: 0,
    };
    let scan = ScanResult {
        dirs: DirTable {
            names: b"/".to_vec(),
            nodes: vec![DirNode {
                name_off: 0,
                parent: u32::MAX,
                name_len: 1,
                _pad: 0,
            }],
        },
        shards: vec![FileShard {
            names: b"abcd".to_vec(),
            recs: vec![rec(1, 0), rec(0, 0)],
        }],
        stats: ScanStats {
            dirs: 1,
            files: 2,
            errors: 0,
        },
    };
    let idx = Index::from_vec(build(&scan, 0, [0u8; 16], 0)).unwrap();
    assert_eq!(idx.file_names(), b"bcdabc");
    assert_eq!(idx.file_path(0), b"/bcd");
}

#[test]
fn order_is_stable() {
    assert_eq!(order_by_key(&[3, 1, 3, 0, 1]), vec![3, 1, 4, 0, 2]);
    assert_eq!(order_by_key(&[]), Vec::<u32>::new());
    assert_eq!(order_by_key(&[5]), vec![0]);
    assert_eq!(order_by_key(&[2, 2, 2]), vec![0, 1, 2]);
    assert_eq!(order_by_key(&[u32::MAX, 0]), vec![1, 0]);
}

#[test]
fn offsets_are_rounded_up() {
    assert_eq!(align8(0), 0);
    assert_eq!(align8(1), 8);
    assert_eq!(align8(8), 8);
    assert_eq!(align8(205), 208);
}

#[test]
fn scans_that_fit_are_told_from_those_that_do_not() {
    assert!(fits(&sample()));
    // A name that leaves the arena of all shards.
    let mut scan = sample();
    scan.shards[1].recs[1].name_off = 100;
    assert!(!fits(&scan));
    // One that reaches into the next shard still lies inside.
    let mut scan = sample();
    scan.shards[0].recs[1].name_len += 2;
    assert!(fits(&scan));
}

#[test]
fn every_file_is_written_whatever_its_parent() {
    let mut scan = sample();
    // A directory that is not there, and no directory at all.
    scan.shards[0].push(b"lost", 77, false);
    scan.shards[1].push(b"loose", u32::MAX, true);
    scan.shards[1].push(b"beta", 2, false);
    assert!(fits(&scan));
    let idx = Index::from_vec(build(&scan, 3, [9u8; 16], 4)).unwrap();
    assert!(!idx.is_consistent());
    assert_eq!(idx.header().event_id, 3);
    assert_eq!(idx.header().dev_uuid, [9u8; 16]);
    assert_eq!(idx.header().scan_time, 4);
    assert_eq!(idx.dir_names(), &scan.dirs.names[..]);
    assert_eq!(idx.dir_nodes(), &scan.dirs.nodes[..]);
    let mut wanted: Vec<(Vec<u8>, u32, u16)> = Vec::new();
    for shard in scan.shards.iter() {
        for r in shard.recs.iter() {
            let start = r.name_off as usize;
            let name = shard.names[start..start + r.name_len as usize].to_vec();
            wanted.push((name, r.parent, r.flags));
        }
    }
    let mut off = 0;
    let mut found: Vec<(Vec<u8>, u32, u16)> = Vec::new();
    for (i, r) in idx.file_recs().iter().enumerate() {
        assert_eq!(r.name_off, off);
        off += r.name_len as u32;
        found.push((idx.file_name(i).to_vec(), r.parent, r.flags));
    }
    assert_eq!(off as usize, idx.file_names().len());
    assert!(found.windows(2).all(|w| w[0].1 <= w[1].1));
    wanted.sort();
    found.sort();
    assert_eq!(found, wanted);
    assert_eq!(idx.dir_by_parent(), &[2, 1, 0]);
}
