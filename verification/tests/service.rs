use mylocate::cli::{
    command, describe_flags, parse_args, route, ArgError, Command, Route, SearchArgs,
};
use mylocate::daemon::{
    default_path, history_done, info_answer, parse_request, rebuild_reason, resume,
    search_answer, socket_path, split_answer, told_total, told_version, trim, unknown_answer,
    version_answer, Rebuild, Request, Resume, COMPACT_THRESHOLD,
};
use mylocate::fsevents::{
    EV_HISTORY_DONE, EV_ITEM_CREATED, EV_ITEM_IS_DIR, EV_ITEM_IS_FILE, EV_ITEM_MODIFIED,
    EV_ITEM_REMOVED, EV_ITEM_RENAMED, EV_MUST_SCAN_SUBDIRS, SINCE_NOW,
};
use mylocate::index::Index;
use mylocate::live::Live;
use mylocate::number::{number_text, parse_number};
use mylocate::scan::{DirNode, DirTable, FileShard, ScanResult, ScanStats};
use mylocate::search::{Options, Query, TypeFilter};
use mylocate::words::{folded_words, is_whitespace};
use mylocate::writer::build;

fn live(names: &[&str]) -> Live {
    let mut shard = FileShard::default();
    for n in names {
        shard.push(n.as_bytes(), 0, false);
    }
    let scan = ScanResult {
        dirs: DirTable {
            names: b"/r".to_vec(),
            nodes: vec![DirNode {
                name_off: 0,
                parent: u32::MAX,
                name_len: 2,
                _pad: 0,
            }],
        },
        shards: vec![shard],
        stats: ScanStats {
            dirs: 1,
            files: names.len(),
            errors: 0,
        },
    };
    Live::new(Index::from_vec(build(&scan, 0, [0u8; 16], 0)).unwrap())
}

// --- requests ---

fn asked(line: &str) -> (usize, Options, u8, String) {
    match parse_request(line) {
        Request::Search {
            limit,
            opts,
            sep,
            query,
        } => (limit, opts, sep, query),
        _ => panic!("not a search"),
    }
}

#[test]
fn requests_are_read() {
    assert!(matches!(parse_request("V\n"), Request::Version));
    assert!(matches!(parse_request("V"), Request::Version));
    assert!(matches!(parse_request("I\t\t\n"), Request::Info));
    assert!(matches!(parse_request("X\t1\n"), Request::Unknown));
    assert!(matches!(parse_request(""), Request::Unknown));

    let (limit, opts, sep, query) = asked("Q\t7\tp0d\twebpack config\n");
    assert_eq!(limit, 7);
    assert!(opts.whole_path && !opts.basename);
    assert_eq!(opts.type_filter, Some(TypeFilter::Dirs));
    assert_eq!(sep, 0);
    assert_eq!(query, "webpack config");

    let (limit, opts, sep, query) = asked("Q\t0\tbf\ta\tb\n");
    assert_eq!(limit, usize::MAX);
    assert!(!opts.whole_path && opts.basename);
    assert_eq!(opts.type_filter, Some(TypeFilter::Files));
    assert_eq!(sep, b'\n');
    assert_eq!(query, "a\tb");

    // The older form has no field for flags.
    let (limit, opts, sep, query) = asked("S\tmany\t報表 p0\n");
    assert_eq!(limit, 50);
    assert!(!opts.whole_path && opts.type_filter.is_none());
    assert_eq!(sep, b'\n');
    assert_eq!(query, "報表 p0");

    let (limit, _, _, query) = asked("S");
    assert_eq!(limit, 50);
    assert_eq!(query, "");
}

#[test]
fn limits_are_numbers() {
    assert_eq!(asked("S\t+5\tx").0, 5);
    assert_eq!(asked("S\t-5\tx").0, 50);
    assert_eq!(asked("S\t\tx").0, 50);
    assert_eq!(asked("S\t99999999999999999999\tx").0, 50);
    assert_eq!(parse_number("0", 10), Some(0));
    assert_eq!(parse_number("10", 10), Some(10));
    assert_eq!(parse_number("11", 10), None);
    assert_eq!(parse_number("+", 10), None);
    assert_eq!(parse_number("++1", 10), None);
    assert_eq!(parse_number("1a", 10), None);
    assert_eq!(parse_number("18446744073709551615", u64::MAX), Some(u64::MAX));
    assert_eq!(parse_number("18446744073709551616", u64::MAX), None);
    for n in [0, 9, 10, 1234567890, u64::MAX] {
        assert_eq!(number_text(n), format!("{n}"));
        assert_eq!(parse_number(&number_text(n), u64::MAX), Some(n));
    }
}

// --- answers ---

#[test]
fn answers_are_framed() {
    assert_eq!(version_answer(), b"\x042\n");
    assert_eq!(unknown_answer(), b"\x040\t0\n");
    let live = live(&["a", "b.txt"]);
    assert_eq!(info_answer(&live), b"\x041\t2\t0\t0\n");
    let (hits, total) = live.search(&Query::parse("b"), 50);
    assert_eq!(
        search_answer(&live, &hits, b'\n', total, 17),
        b"/r/b.txt\n\x041\t17\n"
    );
    let (hits, total) = live.search(&Query::parse("r"), 50);
    assert_eq!(search_answer(&live, &hits, 0, total, 3), b"/r/\0\x041\t3\n");
}

#[test]
fn answers_are_read_back() {
    // Names with line ends and control characters survive where NUL separates them.
    let live = live(&["odd\nname", "od\x04d", "odd"]);
    let (hits, total) = live.search(&Query::parse("od"), 50);
    let buf = search_answer(&live, &hits, 0, total, 9);
    let (items, tail) = split_answer(&buf, 0).unwrap();
    assert_eq!(
        items,
        vec![b"/r/odd\nname".to_vec(), b"/r/od\x04d".to_vec(), b"/r/odd".to_vec()]
    );
    let tail = String::from_utf8_lossy(&tail).to_string();
    assert_eq!(tail, "3\t9\n");
    assert_eq!(trim(&tail), "3\t9");
    assert_eq!(told_total(trim(&tail)), 3);
    assert_eq!(told_version(trim("2\n")), Some(2));
    assert_eq!(told_version(""), None);
    assert_eq!(told_version("4294967296"), None);
    assert_eq!(told_total("x"), 0);
    assert!(split_answer(b"no end", b'\n').is_none());
    let (items, tail) = split_answer(b"\n\na\n\nb\x04", b'\n').unwrap();
    assert_eq!(items, vec![b"a".to_vec(), b"b".to_vec()]);
    assert!(tail.is_empty());
    assert_eq!(trim("\u{3000} a b \t"), "a b");
    assert_eq!(trim("  "), "");
}

// --- decisions ---

#[test]
fn events_are_taken_up_where_the_mark_is_good() {
    let none = [0u8; 16];
    let one = [1u8; 16];
    let two = [2u8; 16];
    assert_eq!(resume(0, &one, &one), Resume::NoMark);
    assert_eq!(resume(5, &none, &none), Resume::NoMark);
    assert_eq!(resume(5, &one, &two), Resume::Rebuilt);
    assert_eq!(resume(5, &one, &one), Resume::Replay(5));
    assert_eq!(resume(5, &one, &one).since(), 5);
    assert_eq!(resume(5, &one, &two).since(), SINCE_NOW);
    assert_eq!(resume(0, &one, &one).since(), SINCE_NOW);
    // Only where the event database was made anew is all scanned again.
    assert!(resume(5, &one, &two).rescans());
    assert!(!resume(5, &one, &one).rescans());
    assert!(!resume(0, &one, &two).rescans());
    assert!(!resume(5, &none, &two).rescans());
}

#[test]
fn the_index_is_rebuilt_where_it_must_be() {
    assert_eq!(rebuild_reason(false, COMPACT_THRESHOLD), None);
    assert_eq!(
        rebuild_reason(false, COMPACT_THRESHOLD + 1),
        Some(Rebuild::Bloated)
    );
    assert_eq!(rebuild_reason(true, 0), Some(Rebuild::Asked));
    assert_eq!(COMPACT_THRESHOLD, 200_000);
}

#[test]
fn the_end_of_the_replay_is_seen() {
    let e = |flags: u32| (b"/x".to_vec(), flags);
    assert!(!history_done(&[]));
    assert!(!history_done(&[e(EV_ITEM_CREATED)]));
    assert!(history_done(&[e(EV_ITEM_CREATED), e(EV_HISTORY_DONE | 1)]));
}

#[test]
fn files_have_their_places() {
    assert_eq!(
        default_path(Some("/Users/x")),
        b"/Users/x/Library/Caches/mylocate/index.bin"
    );
    assert_eq!(
        default_path(Some("/")),
        b"/Library/Caches/mylocate/index.bin"
    );
    assert_eq!(
        default_path(None),
        b"/tmp/Library/Caches/mylocate/index.bin"
    );
    assert_eq!(
        default_path(Some("")),
        b"Library/Caches/mylocate/index.bin"
    );
    assert_eq!(
        socket_path(Some("/Users/x")),
        b"/Users/x/Library/Caches/mylocate/daemon.sock"
    );
}

// --- the command line ---

fn args(list: &[&str]) -> Vec<String> {
    list.iter().map(|s| s.to_string()).collect()
}

fn wanted(list: &[&str]) -> SearchArgs {
    match parse_args(&args(list)) {
        Ok(a) => a,
        Err(e) => panic!("{e:?}"),
    }
}

fn refused(list: &[&str]) -> ArgError {
    match parse_args(&args(list)) {
        Ok(_) => panic!("accepted"),
        Err(e) => e,
    }
}

#[test]
fn commands_are_told_apart() {
    assert_eq!(command(None), Command::Usage);
    assert_eq!(command(Some("index")), Command::Index);
    assert_eq!(command(Some("stats")), Command::Stats);
    assert_eq!(command(Some("watch")), Command::Watch);
    assert_eq!(command(Some("daemon")), Command::Daemon);
    assert_eq!(command(Some("-i")), Command::Interactive);
    assert_eq!(command(Some("--help")), Command::Usage);
    assert_eq!(command(Some("-V")), Command::Version);
    assert_eq!(command(Some("indexes")), Command::Search);
}

#[test]
fn search_arguments_are_read() {
    let a = wanted(&["webpack", "config"]);
    assert_eq!(a.limit, 50);
    assert_eq!(a.sep, b'\n');
    assert!(!a.count_only && !a.opts.whole_path && !a.opts.basename);
    assert_eq!(a.opts.type_filter, None);
    assert_eq!(a.query(), "webpack config");

    let a = wanted(&["-n", "0", "-t", "d", "-w", "-0", "-i", "x"]);
    assert_eq!(a.limit, usize::MAX);
    assert_eq!(a.opts.type_filter, Some(TypeFilter::Dirs));
    assert!(a.opts.whole_path);
    assert_eq!(a.sep, 0);
    assert_eq!(a.query(), "x");

    let a = wanted(&["-l", "3", "-t", "f", "--basename", "--count", "--ignore-case", "y"]);
    assert_eq!(a.limit, 3);
    assert_eq!(a.opts.type_filter, Some(TypeFilter::Files));
    assert!(a.opts.basename && a.count_only);
    assert_eq!(a.asked_limit(), 1);
}

#[test]
fn wrong_arguments_are_refused() {
    assert_eq!(refused(&["-n", "abc", "README"]), ArgError::BadLimit(0));
    assert_eq!(refused(&["x", "-l"]), ArgError::BadLimit(1));
    assert_eq!(refused(&["-t", "x", "y"]), ArgError::BadType);
    assert_eq!(refused(&["-t"]), ArgError::BadType);
    assert_eq!(refused(&["-w", "-b", "x"]), ArgError::Clash);
    assert_eq!(refused(&["--path", "--basename"]), ArgError::Clash);
    assert_eq!(refused(&["-c"]), ArgError::NoTerms);
    assert_eq!(refused(&[]), ArgError::NoTerms);
}

#[test]
fn requests_arrive_as_they_were_meant() {
    assert_eq!(wanted(&["a", "b"]).request(), "Q\t50\t\ta b\n");
    assert_eq!(
        wanted(&["-n", "0", "-w", "-0", "-t", "f", "a"]).request(),
        "Q\t0\tp0f\ta\n"
    );
    assert_eq!(wanted(&["-b", "-t", "d", "-c", "a"]).request(), "Q\t1\tbd\ta\n");
    for list in [
        &["-n", "0", "-w", "報表", "b"][..],
        &["-b", "-t", "d", "x\ty"],
        &["-0", "-t", "f", "-c", "z"],
    ] {
        let a = wanted(list);
        let (limit, opts, sep, query) = asked(&a.request());
        assert_eq!(limit, a.asked_limit());
        assert_eq!(opts.whole_path, a.opts.whole_path);
        assert_eq!(opts.basename, a.opts.basename);
        assert_eq!(opts.type_filter, a.opts.type_filter);
        assert_eq!(sep, a.sep);
        assert_eq!(query, a.query());
    }
}

#[test]
fn old_services_are_passed_by() {
    assert_eq!(route(Some(2)), Route::Service);
    assert_eq!(route(Some(3)), Route::Service);
    assert_eq!(route(Some(0)), Route::TooOld);
    assert_eq!(route(None), Route::NoService);
}

#[test]
fn flags_are_described() {
    assert_eq!(describe_flags(0), "0x0");
    assert_eq!(describe_flags(0x8000_00e0), "0x800000e0");
    assert_eq!(
        describe_flags(EV_HISTORY_DONE | EV_ITEM_CREATED | EV_ITEM_IS_FILE),
        "建立+檔案+歷史重放完畢"
    );
    assert_eq!(
        describe_flags(
            EV_ITEM_REMOVED
                | EV_ITEM_RENAMED
                | EV_ITEM_MODIFIED
                | EV_ITEM_IS_DIR
                | EV_MUST_SCAN_SUBDIRS
        ),
        "刪除+改名+修改+目錄+**需重掃**"
    );
    assert_eq!(describe_flags(EV_ITEM_MODIFIED), "修改");
}

#[test]
fn words_are_folded() {
    assert_eq!(
        folded_words(" Foo\u{3000}BÄR\tx "),
        vec![b"foo".to_vec(), "bÄr".as_bytes().to_vec(), b"x".to_vec()]
    );
    assert!(folded_words("\n \u{85}").is_empty());
    assert!(is_whitespace('\u{2009}') && !is_whitespace('\u{200b}'));
}
