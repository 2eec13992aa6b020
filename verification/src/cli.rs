//! The command line.

use vstd::prelude::*;
use vstd::string::StringExecFns;

use crate::daemon::{text_eq, DEFAULT_LIMIT, NEWLINE, PROTO_VERSION};
#[allow(unused_imports)]
use crate::daemon::{asked, chomped, field, fields_after, lemma_first_is, limit_of, opts_of, Asked};
use crate::fsevents::{
    EV_HISTORY_DONE, EV_ITEM_CREATED, EV_ITEM_IS_DIR, EV_ITEM_IS_FILE, EV_ITEM_MODIFIED,
    EV_ITEM_REMOVED, EV_ITEM_RENAMED, EV_MUST_SCAN_SUBDIRS,
};
use crate::number::{hex_text, number_text, parse_number};
#[allow(unused_imports)]
use crate::number::{decimal, hex, law_decimal_is_read_back, number};
use crate::query::{Options, TypeFilter};
#[allow(unused_imports)]
use crate::words::{is_space, words};

verus! {

/// What the first argument asks for.
#[derive(Clone, Copy, PartialEq, Eq, Debug, Structural)]
pub enum Command {
    Usage,
    Index,
    Stats,
    Watch,
    Daemon,
    Interactive,
    Version,
    Search,
}

/// What the first argument asks for, `None` standing for no argument.
pub open spec fn command_of(first: Option<Seq<char>>) -> Command {
    match first {
        None => Command::Usage,
        Some(a) => if a == "index"@ {
            Command::Index
        } else if a == "stats"@ {
            Command::Stats
        } else if a == "watch"@ {
            Command::Watch
        } else if a == "daemon"@ {
            Command::Daemon
        } else if a == "-i"@ || a == "--interactive"@ {
            Command::Interactive
        } else if a == "-h"@ || a == "--help"@ {
            Command::Usage
        } else if a == "-V"@ || a == "--version"@ {
            Command::Version
        } else {
            Command::Search
        },
    }
}

/// Reads the first argument.
pub fn command(first: Option<&str>) -> (r: Command)
    ensures
        r == command_of(
            match first {
                Some(a) => Some(a@),
                None => None,
            },
        ),
{
    match first {
        None => Command::Usage,
        Some(a) => if text_eq(a, "index") {
            Command::Index
        } else if text_eq(a, "stats") {
            Command::Stats
        } else if text_eq(a, "watch") {
            Command::Watch
        } else if text_eq(a, "daemon") {
            Command::Daemon
        } else if text_eq(a, "-i") || text_eq(a, "--interactive") {
            Command::Interactive
        } else if text_eq(a, "-h") || text_eq(a, "--help") {
            Command::Usage
        } else if text_eq(a, "-V") || text_eq(a, "--version") {
            Command::Version
        } else {
            Command::Search
        },
    }
}

/// A search, as asked for on the command line.
pub struct SearchArgs {
    /// How many hits to list at most.
    pub limit: usize,
    pub opts: Options,
    /// What to put behind each path.
    pub sep: u8,
    /// Print the number of hits only.
    pub count_only: bool,
    pub terms: Vec<String>,
}

/// What is wrong with the arguments of a search.
#[derive(Clone, Copy, PartialEq, Eq, Debug, Structural)]
pub enum ArgError {
    /// No number follows the argument at this position.
    BadLimit(usize),
    /// Neither `d` nor `f` follows `-t`.
    BadType,
    /// `-w` and `-b` exclude each other.
    Clash,
    /// There is nothing to search for.
    NoTerms,
}

/// What the arguments of a search mean.
pub ghost struct Wanted {
    pub limit: usize,
    pub opts: Options,
    pub sep: u8,
    pub count_only: bool,
    pub terms: Seq<Seq<char>>,
}

/// Before any argument.
pub open spec fn wanted_at_first() -> Wanted {
    Wanted {
        limit: DEFAULT_LIMIT,
        opts: Options { whole_path: false, basename: false, type_filter: None },
        sep: NEWLINE,
        count_only: false,
        terms: Seq::empty(),
    }
}

/// The limit that the number `n` asks for.
pub open spec fn limit_for(n: nat) -> usize {
    if n == 0 {
        usize::MAX
    } else {
        n as usize
    }
}

/// What the arguments from `i` on add to `w`.
pub open spec fn walk(args: Seq<Seq<char>>, i: int, w: Wanted) -> Result<Wanted, ArgError>
    decreases args.len() - i,
{
    if i < 0 || i >= args.len() {
        Ok(w)
    } else {
        let a = args[i];
        if a == "-n"@ || a == "-l"@ {
            if i + 1 < args.len() {
                match number(args[i + 1]) {
                    Some(n) if n <= usize::MAX => walk(
                        args,
                        i + 2,
                        Wanted { limit: limit_for(n), ..w },
                    ),
                    _ => Err(ArgError::BadLimit(i as usize)),
                }
            } else {
                Err(ArgError::BadLimit(i as usize))
            }
        } else if a == "-t"@ {
            if i + 1 < args.len() && args[i + 1] == "d"@ {
                let opts = Options { type_filter: Some(TypeFilter::Dirs), ..w.opts };
                walk(args, i + 2, Wanted { opts, ..w })
            } else if i + 1 < args.len() && args[i + 1] == "f"@ {
                let opts = Options { type_filter: Some(TypeFilter::Files), ..w.opts };
                walk(args, i + 2, Wanted { opts, ..w })
            } else {
                Err(ArgError::BadType)
            }
        } else if a == "-w"@ || a == "--path"@ || a == "--wholename"@ {
            walk(args, i + 1, Wanted { opts: Options { whole_path: true, ..w.opts }, ..w })
        } else if a == "-b"@ || a == "--basename"@ {
            walk(args, i + 1, Wanted { opts: Options { basename: true, ..w.opts }, ..w })
        } else if a == "-0"@ || a == "--null"@ {
            walk(args, i + 1, Wanted { sep: 0, ..w })
        } else if a == "-c"@ || a == "--count"@ {
            walk(args, i + 1, Wanted { count_only: true, ..w })
        } else if a == "-i"@ || a == "--ignore-case"@ {
            walk(args, i + 1, w)
        } else {
            walk(args, i + 1, Wanted { terms: w.terms.push(a), ..w })
        }
    }
}

/// What the arguments of a search mean, or what is wrong with them.
pub open spec fn wanted(args: Seq<Seq<char>>) -> Result<Wanted, ArgError> {
    match walk(args, 0, wanted_at_first()) {
        Ok(w) => if w.opts.whole_path && w.opts.basename {
            Err(ArgError::Clash)
        } else if w.terms.len() == 0 {
            Err(ArgError::NoTerms)
        } else {
            Ok(w)
        },
        Err(e) => Err(e),
    }
}

/// Texts.
pub open spec fn texts(list: Seq<String>) -> Seq<Seq<char>> {
    list.map_values(|s: String| s@)
}

impl SearchArgs {
    pub open spec fn view(&self) -> Wanted {
        Wanted {
            limit: self.limit,
            opts: self.opts,
            sep: self.sep,
            count_only: self.count_only,
            terms: texts(self.terms@),
        }
    }
}

/// Reads the arguments of a search.
#[verifier::rlimit(60)]
pub fn parse_args(args: &[String]) -> (r: Result<SearchArgs, ArgError>)
    ensures
        match r {
            Ok(a) => wanted(texts(args@)) == Ok::<Wanted, ArgError>(a@),
            Err(e) => wanted(texts(args@)) == Err::<Wanted, ArgError>(e),
        },
{
    let ghost all = texts(args@);
    let mut limit: usize = DEFAULT_LIMIT;
    let mut opts = Options::default();
    let mut sep: u8 = NEWLINE;
    let mut count_only = false;
    let mut terms: Vec<String> = Vec::new();
    let n = args.len();
    let mut i: usize = 0;
    assert(texts(terms@) =~= Seq::empty());
    while i < n
        invariant
            n == args@.len(),
            i <= n,
            all == texts(args@),
            walk(all, 0, wanted_at_first()) == walk(
                all,
                i as int,
                (Wanted { limit, opts, sep, count_only, terms: texts(terms@) }),
            ),
        decreases n - i,
    {
        let a = args[i].as_str();
        assert(all[i as int] == a@);
        if text_eq(a, "-n") || text_eq(a, "-l") {
            if i + 1 >= n {
                return Err(ArgError::BadLimit(i));
            }
            assert(all[i + 1] == args@[i + 1]@);
            match parse_number(args[i + 1].as_str(), usize::MAX as u64) {
                Some(v) => {
                    limit = if v == 0 {
                        usize::MAX
                    } else {
                        v as usize
                    };
                },
                None => {
                    return Err(ArgError::BadLimit(i));
                },
            }
            i += 2;
        } else if text_eq(a, "-t") {
            if i + 1 >= n {
                return Err(ArgError::BadType);
            }
            assert(all[i + 1] == args@[i + 1]@);
            let kind = args[i + 1].as_str();
            if text_eq(kind, "d") {
                opts.type_filter = Some(TypeFilter::Dirs);
            } else if text_eq(kind, "f") {
                opts.type_filter = Some(TypeFilter::Files);
            } else {
                return Err(ArgError::BadType);
            }
            i += 2;
        } else if text_eq(a, "-w") || text_eq(a, "--path") || text_eq(a, "--wholename") {
            opts.whole_path = true;
            i += 1;
        } else if text_eq(a, "-b") || text_eq(a, "--basename") {
            opts.basename = true;
            i += 1;
        } else if text_eq(a, "-0") || text_eq(a, "--null") {
            sep = 0;
            i += 1;
        } else if text_eq(a, "-c") || text_eq(a, "--count") {
            count_only = true;
            i += 1;
        } else if text_eq(a, "-i") || text_eq(a, "--ignore-case") {
            i += 1;
        } else {
            let ghost old_terms = terms@;
            terms.push(String::from_str(a));
            assert(texts(terms@) =~= texts(old_terms).push(a@));
            i += 1;
        }
    }
    if opts.whole_path && opts.basename {
        return Err(ArgError::Clash);
    }
    if terms.len() == 0 {
        return Err(ArgError::NoTerms);
    }
    Ok(SearchArgs { limit, opts, sep, count_only, terms })
}

// --- asking the service ---

/// The terms, one space between.
pub open spec fn joined(terms: Seq<Seq<char>>) -> Seq<char>
    decreases terms.len(),
{
    if terms.len() == 0 {
        Seq::empty()
    } else if terms.len() == 1 {
        terms[0]
    } else {
        joined(terms.drop_last()) + seq![' '] + terms.last()
    }
}

/// `c`, where it is wanted.
pub open spec fn only_if(wanted: bool, c: char) -> Seq<char> {
    if wanted {
        seq![c]
    } else {
        Seq::empty()
    }
}

/// The flags of a request.
pub open spec fn flags_text(opts: Options, sep: u8) -> Seq<char> {
    only_if(opts.whole_path, 'p') + only_if(opts.basename, 'b') + only_if(sep == 0, '0') + only_if(
        opts.type_filter == Some(TypeFilter::Dirs),
        'd',
    ) + only_if(opts.type_filter == Some(TypeFilter::Files), 'f')
}

impl Wanted {
    /// How many hits are asked for. Where only their number is wanted, one will do: it does
    /// not depend on the limit.
    pub open spec fn asked_limit(self) -> usize {
        if self.count_only {
            1
        } else {
            self.limit
        }
    }

    /// The request. No limit is written as 0.
    pub open spec fn request(self) -> Seq<char> {
        seq!['Q', '\t'] + decimal(
            if self.asked_limit() == usize::MAX {
                0
            } else {
                self.asked_limit() as nat
            },
        ) + seq!['\t'] + flags_text(self.opts, self.sep) + seq!['\t'] + joined(self.terms) + seq![
            '\n',
        ]
    }
}

fn append_if(text: &mut String, wanted: bool, letter: &str, Ghost(c): Ghost<char>)
    requires
        letter@ == seq![c],
    ensures
        final(text)@ == old(text)@ + only_if(wanted, c),
{
    if wanted {
        text.append(letter);
    } else {
        assert(text@ =~= old(text)@ + only_if(wanted, c));
    }
}

fn is_kind(filter: Option<TypeFilter>, kind: TypeFilter) -> (r: bool)
    ensures
        r == (filter == Some(kind)),
{
    match filter {
        Some(f) => f == kind,
        None => false,
    }
}

impl SearchArgs {
    /// The query: the terms, one space between.
    pub fn query(&self) -> (r: String)
        ensures
            r@ == joined(self@.terms),
    {
        let ghost all = self@.terms;
        let mut text = String::new();
        let n = self.terms.len();
        assert(all.take(0) =~= Seq::empty());
        assert(text@ =~= joined(all.take(0)));
        for i in 0..n
            invariant
                n == self.terms@.len(),
                all == self@.terms,
                text@ == joined(all.take(i as int)),
        {
            proof {
                assert(all[i as int] == self.terms@[i as int]@);
                assert(all.take(i + 1).drop_last() =~= all.take(i as int));
                assert(all.take(i + 1).last() == all[i as int]);
            }
            if i > 0 {
                let space = " ";
                text.append(space);
                proof {
                    reveal_strlit(" ");
                    assert(space@ =~= seq![' ']);
                }
            }
            text.append(self.terms[i].as_str());
            assert(text@ =~= joined(all.take(i + 1)));
        }
        assert(all.take(n as int) =~= all);
        text
    }

    /// How many hits are asked for.
    pub fn asked_limit(&self) -> (r: usize)
        ensures
            r == self@.asked_limit(),
    {
        if self.count_only {
            1
        } else {
            self.limit
        }
    }

    /// The request to the service.
    #[verifier::rlimit(60)]
    pub fn request(&self) -> (r: String)
        ensures
            r@ == self@.request(),
    {
        let n = self.asked_limit();
        let digits = number_text(
            if n == usize::MAX {
                0
            } else {
                n as u64
            },
        );
        let (q, tab, end) = ("Q\t", "\t", "\n");
        let (p, b, zero, d, f) = ("p", "b", "0", "d", "f");
        proof {
            reveal_strlit("Q\t");
            reveal_strlit("\t");
            reveal_strlit("\n");
            reveal_strlit("p");
            reveal_strlit("b");
            reveal_strlit("0");
            reveal_strlit("d");
            reveal_strlit("f");
            assert(q@ =~= seq!['Q', '\t']);
            assert(tab@ =~= seq!['\t']);
            assert(end@ =~= seq!['\n']);
            assert(p@ =~= seq!['p']);
            assert(b@ =~= seq!['b']);
            assert(zero@ =~= seq!['0']);
            assert(d@ =~= seq!['d']);
            assert(f@ =~= seq!['f']);
        }
        let mut flags = String::new();
        append_if(&mut flags, self.opts.whole_path, p, Ghost('p'));
        append_if(&mut flags, self.opts.basename, b, Ghost('b'));
        append_if(&mut flags, self.sep == 0, zero, Ghost('0'));
        append_if(&mut flags, is_kind(self.opts.type_filter, TypeFilter::Dirs), d, Ghost('d'));
        append_if(&mut flags, is_kind(self.opts.type_filter, TypeFilter::Files), f, Ghost('f'));
        assert(flags@ =~= flags_text(self.opts, self.sep));
        let mut text = String::from_str(q);
        text.append(digits.as_str());
        text.append(tab);
        text.append(flags.as_str());
        text.append(tab);
        text.append(self.query().as_str());
        text.append(end);
        text
    }
}

proof fn lemma_field_of(a: Seq<char>, rest: Seq<char>)
    requires
        !a.contains('\t'),
    ensures
        field(a + seq!['\t'] + rest) == a,
        fields_after(a + seq!['\t'] + rest) == rest,
{
    let s = a + seq!['\t'] + rest;
    assert forall|i: int| 0 <= i < a.len() implies s[i] != '\t' by {
        assert(a.contains(a[i]));
    }
    lemma_first_is(s, '\t', a.len() as int);
    assert(field(s) =~= a);
    assert(fields_after(s) =~= rest);
}

proof fn lemma_flags(opts: Options, sep: u8)
    ensures
        ({
            let f = flags_text(opts, sep);
            &&& f.contains('p') == opts.whole_path
            &&& f.contains('b') == opts.basename
            &&& f.contains('0') == (sep == 0)
            &&& f.contains('d') == (opts.type_filter == Some(TypeFilter::Dirs))
            &&& f.contains('f') == (opts.type_filter == Some(TypeFilter::Files))
            &&& !f.contains('\t')
        }),
{
    let s1 = only_if(opts.whole_path, 'p');
    let s2 = s1 + only_if(opts.basename, 'b');
    let s3 = s2 + only_if(sep == 0, '0');
    let s4 = s3 + only_if(opts.type_filter == Some(TypeFilter::Dirs), 'd');
    assert forall|c: char| #[trigger] s1.contains(c) == (opts.whole_path && c == 'p') by {
        lemma_only_if(Seq::empty(), opts.whole_path, 'p', c);
        assert(Seq::<char>::empty() + s1 =~= s1);
    }
    assert forall|c: char| #[trigger] s2.contains(c) == (s1.contains(c) || (opts.basename && c
        == 'b')) by {
        lemma_only_if(s1, opts.basename, 'b', c);
    }
    assert forall|c: char| #[trigger] s3.contains(c) == (s2.contains(c) || (sep == 0 && c
        == '0')) by {
        lemma_only_if(s2, sep == 0, '0', c);
    }
    assert forall|c: char| #[trigger] s4.contains(c) == (s3.contains(c) || (opts.type_filter
        == Some(TypeFilter::Dirs) && c == 'd')) by {
        lemma_only_if(s3, opts.type_filter == Some(TypeFilter::Dirs), 'd', c);
    }
    assert forall|c: char| #[trigger] flags_text(opts, sep).contains(c) == (s4.contains(c) || (
    opts.type_filter == Some(TypeFilter::Files) && c == 'f')) by {
        lemma_only_if(s4, opts.type_filter == Some(TypeFilter::Files), 'f', c);
    }
}

proof fn lemma_only_if(s: Seq<char>, wanted: bool, c: char, x: char)
    ensures
        (s + only_if(wanted, c)).contains(x) == (s.contains(x) || (wanted && x == c)),
{
    let all = s + only_if(wanted, c);
    if s.contains(x) {
        let i = choose|i: int| 0 <= i < s.len() && s[i] == x;
        assert(all[i] == x);
    }
    if wanted && x == c {
        assert(all[s.len() as int] == x);
    }
    if all.contains(x) {
        let i = choose|i: int| 0 <= i < all.len() && all[i] == x;
        if i < s.len() {
            assert(s[i] == x);
        }
    }
}

/// The service understands a request as it was meant: limit, options, separator and
/// query arrive as they were.
#[verifier::rlimit(60)]
pub proof fn law_request_is_understood(w: Wanted)
    requires
        w.limit > 0,
        w.sep == 0 || w.sep == NEWLINE,
        w.opts.type_filter != Some(TypeFilter::All),
        !joined(w.terms).contains('\n'),
    ensures
        asked(w.request()) == (Asked::Search {
            limit: w.asked_limit(),
            opts: w.opts,
            sep: w.sep,
            query: joined(w.terms),
        }),
{
    let n: nat = if w.asked_limit() == usize::MAX {
        0
    } else {
        w.asked_limit() as nat
    };
    let digits = decimal(n);
    let flags = flags_text(w.opts, w.sep);
    let query = joined(w.terms);
    let tab = seq!['\t'];
    law_decimal_is_read_back(n);
    lemma_flags(w.opts, w.sep);
    let rest2 = flags + tab + query;
    let rest1 = digits + tab + rest2;
    let cmd = seq!['Q'];
    let line = cmd + tab + rest1;
    assert(w.request() =~= line.push('\n'));
    assert(line.push('\n').drop_last() =~= line);
    if query.len() > 0 {
        assert(line.last() == query.last());
        assert(query.contains(query.last()));
    } else {
        assert(line.last() == '\t');
    }
    assert(chomped(line) == line);
    assert(chomped(w.request()) == line);
    assert(!digits.contains('\t')) by {
        if digits.contains('\t') {
            let i = choose|i: int| 0 <= i < digits.len() && digits[i] == '\t';
            assert('0' <= digits[i]);
        }
    }
    lemma_field_of(cmd, rest1);
    lemma_field_of(digits, rest2);
    lemma_field_of(flags, query);
    reveal_strlit("V");
    reveal_strlit("Q");
    assert("Q"@ =~= cmd);
    assert("V"@[0] != cmd[0]);
    assert(limit_of(digits) == w.asked_limit());
    match w.opts.type_filter {
        Some(TypeFilter::Dirs) => {},
        Some(TypeFilter::Files) => {},
        Some(TypeFilter::All) => {},
        None => {},
    }
    assert(opts_of(flags).type_filter == w.opts.type_filter);
    assert(opts_of(flags) == w.opts);
}

/// Where a query goes.
#[derive(Clone, Copy, PartialEq, Eq, Debug, Structural)]
pub enum Route {
    /// To the service.
    Service,
    /// To the index file: the service is too old to understand options.
    TooOld,
    /// To the index file: there is no service.
    NoService,
}

/// Where a query goes, by the version that the service told.
pub open spec fn route_of(told: Option<u32>) -> Route {
    match told {
        Some(v) => if v >= PROTO_VERSION {
            Route::Service
        } else {
            Route::TooOld
        },
        None => Route::NoService,
    }
}

/// Decides where a query goes, by the version that the service told.
pub fn route(told: Option<u32>) -> (r: Route)
    ensures
        r == route_of(told),
        r == match told {
            Some(v) => if v >= PROTO_VERSION {
                Route::Service
            } else {
                Route::TooOld
            },
            None => Route::NoService,
        },
{
    match told {
        Some(v) => if v >= PROTO_VERSION {
            Route::Service
        } else {
            Route::TooOld
        },
        None => Route::NoService,
    }
}

// --- describing events ---

/// What a flag of an event says.
#[derive(Clone, Copy, PartialEq, Eq, Debug, Structural)]
pub enum FlagWord {
    Created,
    Removed,
    Renamed,
    Modified,
    Dir,
    File,
    MustScan,
    HistoryDone,
}

/// `w`, where the flag is set.
pub open spec fn word_if(f: u32, flag: u32, w: FlagWord) -> Seq<FlagWord> {
    if f & flag != 0 {
        seq![w]
    } else {
        Seq::empty()
    }
}

/// What the flags of an event say.
pub open spec fn flag_words(f: u32) -> Seq<FlagWord> {
    word_if(f, EV_ITEM_CREATED, FlagWord::Created) + word_if(f, EV_ITEM_REMOVED, FlagWord::Removed)
        + word_if(f, EV_ITEM_RENAMED, FlagWord::Renamed) + word_if(
        f,
        EV_ITEM_MODIFIED,
        FlagWord::Modified,
    ) + word_if(f, EV_ITEM_IS_DIR, FlagWord::Dir) + word_if(f, EV_ITEM_IS_FILE, FlagWord::File)
        + word_if(f, EV_MUST_SCAN_SUBDIRS, FlagWord::MustScan) + word_if(
        f,
        EV_HISTORY_DONE,
        FlagWord::HistoryDone,
    )
}

fn push_word_if(out: &mut Vec<FlagWord>, f: u32, flag: u32, w: FlagWord)
    ensures
        final(out)@ == old(out)@ + word_if(f, flag, w),
{
    if f & flag != 0 {
        out.push(w);
    }
    assert(out@ =~= old(out)@ + word_if(f, flag, w));
}

fn list_words(f: u32) -> (r: Vec<FlagWord>)
    ensures
        r@ == flag_words(f),
{
    let mut out: Vec<FlagWord> = Vec::new();
    push_word_if(&mut out, f, EV_ITEM_CREATED, FlagWord::Created);
    push_word_if(&mut out, f, EV_ITEM_REMOVED, FlagWord::Removed);
    push_word_if(&mut out, f, EV_ITEM_RENAMED, FlagWord::Renamed);
    push_word_if(&mut out, f, EV_ITEM_MODIFIED, FlagWord::Modified);
    push_word_if(&mut out, f, EV_ITEM_IS_DIR, FlagWord::Dir);
    push_word_if(&mut out, f, EV_ITEM_IS_FILE, FlagWord::File);
    push_word_if(&mut out, f, EV_MUST_SCAN_SUBDIRS, FlagWord::MustScan);
    push_word_if(&mut out, f, EV_HISTORY_DONE, FlagWord::HistoryDone);
    assert(out@ =~= flag_words(f));
    out
}

/// A word as text.
pub open spec fn word_text(w: FlagWord) -> Seq<char> {
    match w {
        FlagWord::Created => "建立"@,
        FlagWord::Removed => "刪除"@,
        FlagWord::Renamed => "改名"@,
        FlagWord::Modified => "修改"@,
        FlagWord::Dir => "目錄"@,
        FlagWord::File => "檔案"@,
        FlagWord::MustScan => "**需重掃**"@,
        FlagWord::HistoryDone => "歷史重放完畢"@,
    }
}

/// Words as text, a plus sign between.
pub open spec fn words_text(words: Seq<FlagWord>) -> Seq<char>
    decreases words.len(),
{
    if words.len() == 0 {
        Seq::empty()
    } else if words.len() == 1 {
        word_text(words[0])
    } else {
        words_text(words.drop_last()) + "+"@ + word_text(words.last())
    }
}

fn text_of(w: FlagWord) -> (r: &'static str)
    ensures
        r@ == word_text(w),
{
    match w {
        FlagWord::Created => "建立",
        FlagWord::Removed => "刪除",
        FlagWord::Renamed => "改名",
        FlagWord::Modified => "修改",
        FlagWord::Dir => "目錄",
        FlagWord::File => "檔案",
        FlagWord::MustScan => "**需重掃**",
        FlagWord::HistoryDone => "歷史重放完畢",
    }
}

/// What the flags of an event say, in words, or in hexadecimal digits.
pub open spec fn described(f: u32) -> Seq<char> {
    if flag_words(f).len() == 0 {
        "0x"@ + hex(f as nat)
    } else {
        words_text(flag_words(f))
    }
}

/// Says in words what the flags of an event say; where they say nothing that is known, in
/// hexadecimal digits.
pub fn describe_flags(f: u32) -> (r: String)
    ensures
        r@ == if flag_words(f).len() == 0 {
            "0x"@ + hex(f as nat)
        } else {
            words_text(flag_words(f))
        },
        r@ == described(f),
{
    let words = list_words(f);
    if words.len() == 0 {
        let mut text = String::from_str("0x");
        text.append(hex_text(f as u64).as_str());
        return text;
    }
    let ghost all = words@;
    let n = words.len();
    let mut text = String::from_str(text_of(words[0]));
    assert(all.take(1) =~= seq![all[0]]);
    for i in 1..n
        invariant
            all == words@,
            n == all.len(),
            text@ == words_text(all.take(i as int)),
    {
        proof {
            assert(all.take(i + 1).drop_last() =~= all.take(i as int));
            assert(all.take(i + 1).last() == all[i as int]);
        }
        text.append("+");
        text.append(text_of(words[i]));
    }
    assert(all.take(n as int) =~= all);
    text
}

// --- laws ---

/// What the arguments come to, before it is asked whether that makes a search.
pub open spec fn understood(args: Seq<Seq<char>>) -> Result<Wanted, ArgError> {
    walk(args, 0, wanted_at_first())
}

/// None of the options that a search knows.
pub open spec fn no_option(a: Seq<char>) -> bool {
    &&& a != seq!['-', 'n'] && a != seq!['-', 'l'] && a != seq!['-', 't']
    &&& a != seq!['-', 'w'] && a != seq!['-', '-', 'p', 'a', 't', 'h'] && a != seq![
        '-', '-', 'w', 'h', 'o', 'l', 'e', 'n', 'a', 'm', 'e',
    ]
    &&& a != seq!['-', 'b'] && a != seq!['-', '-', 'b', 'a', 's', 'e', 'n', 'a', 'm', 'e']
    &&& a != seq!['-', '0'] && a != seq!['-', '-', 'n', 'u', 'l', 'l']
    &&& a != seq!['-', 'c'] && a != seq!['-', '-', 'c', 'o', 'u', 'n', 't']
    &&& a != seq!['-', 'i'] && a != seq![
        '-', '-', 'i', 'g', 'n', 'o', 'r', 'e', '-', 'c', 'a', 's', 'e',
    ]
}

proof fn lemma_option_texts()
    ensures
        "-n"@ == seq!['-', 'n'],
        "-l"@ == seq!['-', 'l'],
        "-t"@ == seq!['-', 't'],
        "d"@ == seq!['d'],
        "f"@ == seq!['f'],
        "-w"@ == seq!['-', 'w'],
        "--path"@ == seq!['-', '-', 'p', 'a', 't', 'h'],
        "--wholename"@ == seq!['-', '-', 'w', 'h', 'o', 'l', 'e', 'n', 'a', 'm', 'e'],
        "-b"@ == seq!['-', 'b'],
        "--basename"@ == seq!['-', '-', 'b', 'a', 's', 'e', 'n', 'a', 'm', 'e'],
        "-0"@ == seq!['-', '0'],
        "--null"@ == seq!['-', '-', 'n', 'u', 'l', 'l'],
        "-c"@ == seq!['-', 'c'],
        "--count"@ == seq!['-', '-', 'c', 'o', 'u', 'n', 't'],
        "-i"@ == seq!['-', 'i'],
        "--ignore-case"@ == seq!['-', '-', 'i', 'g', 'n', 'o', 'r', 'e', '-', 'c', 'a', 's', 'e'],
{
    reveal_strlit("-n");
    reveal_strlit("-l");
    reveal_strlit("-t");
    reveal_strlit("d");
    reveal_strlit("f");
    reveal_strlit("-w");
    reveal_strlit("--path");
    reveal_strlit("--wholename");
    reveal_strlit("-b");
    reveal_strlit("--basename");
    reveal_strlit("-0");
    reveal_strlit("--null");
    reveal_strlit("-c");
    reveal_strlit("--count");
    reveal_strlit("-i");
    reveal_strlit("--ignore-case");
    assert("-n"@ =~= seq!['-', 'n']);
    assert("-l"@ =~= seq!['-', 'l']);
    assert("-t"@ =~= seq!['-', 't']);
    assert("d"@ =~= seq!['d']);
    assert("f"@ =~= seq!['f']);
    assert("-w"@ =~= seq!['-', 'w']);
    assert("--path"@ =~= seq!['-', '-', 'p', 'a', 't', 'h']);
    assert("--wholename"@ =~= seq!['-', '-', 'w', 'h', 'o', 'l', 'e', 'n', 'a', 'm', 'e']);
    assert("-b"@ =~= seq!['-', 'b']);
    assert("--basename"@ =~= seq!['-', '-', 'b', 'a', 's', 'e', 'n', 'a', 'm', 'e']);
    assert("-0"@ =~= seq!['-', '0']);
    assert("--null"@ =~= seq!['-', '-', 'n', 'u', 'l', 'l']);
    assert("-c"@ =~= seq!['-', 'c']);
    assert("--count"@ =~= seq!['-', '-', 'c', 'o', 'u', 'n', 't']);
    assert("-i"@ =~= seq!['-', 'i']);
    assert("--ignore-case"@ =~= seq![
        '-', '-', 'i', 'g', 'n', 'o', 'r', 'e', '-', 'c', 'a', 's', 'e',
    ]);
}

/// Arguments that were understood stay understood when more follow.
#[verifier::rlimit(60)]
proof fn lemma_walk_on(args: Seq<Seq<char>>, more: Seq<Seq<char>>, i: int, w: Wanted)
    requires
        0 <= i <= args.len(),
        walk(args, i, w) is Ok,
    ensures
        walk(args + more, i, w) == walk(args + more, args.len() as int, walk(args, i, w)->Ok_0),
    decreases args.len() - i,
{
    let all = args + more;
    if i < args.len() {
        assert(all[i] == args[i]);
        let a = args[i];
        if a == "-n"@ || a == "-l"@ {
            assert(all[i + 1] == args[i + 1]);
            let n = number(args[i + 1])->0;
            lemma_walk_on(args, more, i + 2, Wanted { limit: limit_for(n), ..w });
        } else if a == "-t"@ {
            assert(all[i + 1] == args[i + 1]);
            if args[i + 1] == "d"@ {
                let opts = Options { type_filter: Some(TypeFilter::Dirs), ..w.opts };
                lemma_walk_on(args, more, i + 2, Wanted { opts, ..w });
            } else {
                let opts = Options { type_filter: Some(TypeFilter::Files), ..w.opts };
                lemma_walk_on(args, more, i + 2, Wanted { opts, ..w });
            }
        } else if a == "-w"@ || a == "--path"@ || a == "--wholename"@ {
            let opts = Options { whole_path: true, ..w.opts };
            lemma_walk_on(args, more, i + 1, Wanted { opts, ..w });
        } else if a == "-b"@ || a == "--basename"@ {
            let opts = Options { basename: true, ..w.opts };
            lemma_walk_on(args, more, i + 1, Wanted { opts, ..w });
        } else if a == "-0"@ || a == "--null"@ {
            lemma_walk_on(args, more, i + 1, Wanted { sep: 0, ..w });
        } else if a == "-c"@ || a == "--count"@ {
            lemma_walk_on(args, more, i + 1, Wanted { count_only: true, ..w });
        } else if a == "-i"@ || a == "--ignore-case"@ {
            lemma_walk_on(args, more, i + 1, w);
        } else {
            lemma_walk_on(args, more, i + 1, Wanted { terms: w.terms.push(a), ..w });
        }
    }
}

/// Without arguments the limit is 50, each path stands on a line of its own, and nothing else
/// is asked for.
pub proof fn law_nothing_is_asked_for_at_first()
    ensures
        understood(Seq::empty()) == Ok::<Wanted, ArgError>(
            Wanted {
                limit: 50,
                opts: Options { whole_path: false, basename: false, type_filter: None },
                sep: 10,
                count_only: false,
                terms: Seq::empty(),
            },
        ),
{
}

/// An argument that is no option is one more keyword, behind those before it; it changes
/// nothing else.
pub proof fn law_other_arguments_are_keywords(args: Seq<Seq<char>>, a: Seq<char>)
    requires
        understood(args) is Ok,
        no_option(a),
    ensures
        ({
            let w = understood(args)->Ok_0;
            understood(args.push(a)) == Ok::<Wanted, ArgError>(
                Wanted { terms: w.terms.push(a), ..w },
            )
        }),
{
    let w = understood(args)->Ok_0;
    let all = args.push(a);
    lemma_option_texts();
    lemma_walk_on(args, seq![a], 0, wanted_at_first());
    assert(args + seq![a] =~= all);
    let next = Wanted { terms: w.terms.push(a), ..w };
    assert(all[args.len() as int] == a);
    assert(walk(all, args.len() as int + 1, next) == Ok::<Wanted, ArgError>(next));
}

/// Arguments of which none begins with a dash are the keywords, all of them, in order.
pub proof fn law_arguments_without_dashes_are_keywords(args: Seq<Seq<char>>)
    requires
        forall|i: int|
            0 <= i < args.len() ==> (#[trigger] args[i]).len() == 0 || args[i][0] != '-',
    ensures
        understood(args) is Ok,
        understood(args)->Ok_0.terms == args,
        args.len() > 0 ==> wanted(args) == Ok::<Wanted, ArgError>(
            Wanted {
                limit: 50,
                opts: Options { whole_path: false, basename: false, type_filter: None },
                sep: 10,
                count_only: false,
                terms: args,
            },
        ),
    decreases args.len(),
{
    law_nothing_is_asked_for_at_first();
    if args.len() == 0 {
        assert(args =~= Seq::empty());
    } else {
        let front = args.drop_last();
        let a = args.last();
        assert(args[args.len() - 1] == a);
        assert forall|i: int| 0 <= i < front.len() implies (#[trigger] front[i]).len() == 0
            || front[i][0] != '-' by {
            assert(front[i] == args[i]);
        }
        law_arguments_without_dashes_are_keywords(front);
        assert(no_option(a));
        law_other_arguments_are_keywords(front, a);
        assert(front.push(a) =~= args);
        if front.len() == 0 {
            assert(front =~= Seq::empty());
        }
    }
}

/// Each option does its one thing, whatever came before it.
#[verifier::rlimit(60)]
pub proof fn law_options_do_one_thing(args: Seq<Seq<char>>, a: Seq<char>)
    requires
        understood(args) is Ok,
    ensures
        ({
            let w = understood(args)->Ok_0;
            let next = understood(args.push(a));
            &&& a == seq!['-', 'w'] || a == seq!['-', '-', 'p', 'a', 't', 'h'] || a == seq![
                '-', '-', 'w', 'h', 'o', 'l', 'e', 'n', 'a', 'm', 'e',
            ] ==> next == Ok::<Wanted, ArgError>(
                Wanted { opts: Options { whole_path: true, ..w.opts }, ..w },
            )
            &&& a == seq!['-', 'b'] || a == seq![
                '-', '-', 'b', 'a', 's', 'e', 'n', 'a', 'm', 'e',
            ] ==> next == Ok::<Wanted, ArgError>(
                Wanted { opts: Options { basename: true, ..w.opts }, ..w },
            )
            &&& a == seq!['-', '0'] || a == seq!['-', '-', 'n', 'u', 'l', 'l'] ==> next == Ok::<
                Wanted,
                ArgError,
            >(Wanted { sep: 0, ..w })
            &&& a == seq!['-', 'c'] || a == seq!['-', '-', 'c', 'o', 'u', 'n', 't'] ==> next == Ok::<
                Wanted,
                ArgError,
            >(Wanted { count_only: true, ..w })
            &&& a == seq!['-', 'i'] || a == seq![
                '-', '-', 'i', 'g', 'n', 'o', 'r', 'e', '-', 'c', 'a', 's', 'e',
            ] ==> next == Ok::<Wanted, ArgError>(w)
            &&& a == seq!['-', 'n'] || a == seq!['-', 'l'] ==> next == Err::<Wanted, ArgError>(
                ArgError::BadLimit(args.len() as usize),
            )
            &&& a == seq!['-', 't'] ==> next == Err::<Wanted, ArgError>(ArgError::BadType)
        }),
{
    let w = understood(args)->Ok_0;
    let all = args.push(a);
    lemma_option_texts();
    lemma_walk_on(args, seq![a], 0, wanted_at_first());
    assert(args + seq![a] =~= all);
    let n = args.len() as int;
    assert(all[n] == a);
    assert(understood(all) == walk(all, n, w));
    lemma_walk_end(all, Wanted { opts: Options { whole_path: true, ..w.opts }, ..w });
    lemma_walk_end(all, Wanted { opts: Options { basename: true, ..w.opts }, ..w });
    lemma_walk_end(all, Wanted { sep: 0, ..w });
    lemma_walk_end(all, Wanted { count_only: true, ..w });
    lemma_walk_end(all, w);
    lemma_options_differ();
}

proof fn lemma_walk_end(args: Seq<Seq<char>>, w: Wanted)
    ensures
        walk(args, args.len() as int, w) == Ok::<Wanted, ArgError>(w),
{
}

/// No two options are spelled alike.
proof fn lemma_options_differ()
    ensures
        ({
            let n = "-n"@;
            let l = "-l"@;
            let t = "-t"@;
            let w = "-w"@;
            let b = "-b"@;
            let z = "-0"@;
            let c = "-c"@;
            let i = "-i"@;
            &&& n.len() == 2 && l.len() == 2 && t.len() == 2 && w.len() == 2 && b.len() == 2
            &&& z.len() == 2 && c.len() == 2 && i.len() == 2
            &&& n[1] == 'n' && l[1] == 'l' && t[1] == 't' && w[1] == 'w' && b[1] == 'b'
            &&& z[1] == '0' && c[1] == 'c' && i[1] == 'i'
            &&& "--path"@.len() == 6 && "--path"@[2] == 'p'
            &&& "--null"@.len() == 6 && "--null"@[2] == 'n'
            &&& "--wholename"@.len() == 11
            &&& "--basename"@.len() == 10
            &&& "--count"@.len() == 7
            &&& "--ignore-case"@.len() == 13
        }),
{
    lemma_option_texts();
}

/// `-n` and `-l` take a number for the limit, 0 for none; `-t` takes `d` or `f`. Anything else
/// in their place is an error, whatever follows.
#[verifier::rlimit(60)]
pub proof fn law_options_with_values(
    args: Seq<Seq<char>>,
    a: Seq<char>,
    v: Seq<char>,
    rest: Seq<Seq<char>>,
)
    requires
        understood(args) is Ok,
    ensures
        ({
            let w = understood(args)->Ok_0;
            let next = understood(args.push(a).push(v));
            let far = understood(args.push(a).push(v) + rest);
            &&& a == seq!['-', 'n'] || a == seq!['-', 'l'] ==> match number(v) {
                Some(n) => if n == 0 {
                    next == Ok::<Wanted, ArgError>(Wanted { limit: usize::MAX, ..w })
                } else if n <= usize::MAX {
                    next == Ok::<Wanted, ArgError>(Wanted { limit: n as usize, ..w })
                } else {
                    far == Err::<Wanted, ArgError>(ArgError::BadLimit(args.len() as usize))
                },
                None => far == Err::<Wanted, ArgError>(ArgError::BadLimit(args.len() as usize)),
            }
            &&& a == seq!['-', 't'] && v == seq!['d'] ==> next == Ok::<Wanted, ArgError>(
                Wanted {
                    opts: Options { type_filter: Some(TypeFilter::Dirs), ..w.opts },
                    ..w
                },
            )
            &&& a == seq!['-', 't'] && v == seq!['f'] ==> next == Ok::<Wanted, ArgError>(
                Wanted {
                    opts: Options { type_filter: Some(TypeFilter::Files), ..w.opts },
                    ..w
                },
            )
            &&& a == seq!['-', 't'] && v != seq!['d'] && v != seq!['f'] ==> far == Err::<
                Wanted,
                ArgError,
            >(ArgError::BadType)
        }),
{
    let two = seq![a, v];
    let all = args.push(a).push(v);
    let long = all + rest;
    lemma_option_texts();
    lemma_walk_on(args, two, 0, wanted_at_first());
    lemma_walk_on(args, two + rest, 0, wanted_at_first());
    assert(args + two =~= all);
    assert(args + (two + rest) =~= long);
    let n = args.len() as int;
    let w = understood(args)->Ok_0;
    assert(all[n] == a && all[n + 1] == v);
    assert(long[n] == a && long[n + 1] == v);
    assert(understood(all) == walk(all, n, w));
    assert(understood(long) == walk(long, n, w));
    if let Some(x) = number(v) {
        lemma_walk_end(all, Wanted { limit: limit_for(x), ..w });
    }
    let dirs = Options { type_filter: Some(TypeFilter::Dirs), ..w.opts };
    let files = Options { type_filter: Some(TypeFilter::Files), ..w.opts };
    lemma_walk_end(all, Wanted { opts: dirs, ..w });
    lemma_walk_end(all, Wanted { opts: files, ..w });
    lemma_options_differ();
    assert(seq!['d'][0] == 'd' && seq!['f'][0] == 'f');
}

/// A search needs a keyword, and cannot be asked to look at names only and at paths only;
/// anything else that was understood is searched for as it was understood.
pub proof fn law_what_makes_a_search(args: Seq<Seq<char>>)
    ensures
        match understood(args) {
            Err(e) => wanted(args) == Err::<Wanted, ArgError>(e),
            Ok(w) => {
                &&& w.opts.whole_path && w.opts.basename ==> wanted(args) == Err::<
                    Wanted,
                    ArgError,
                >(ArgError::Clash)
                &&& !(w.opts.whole_path && w.opts.basename) && w.terms.len() == 0 ==> wanted(args)
                    == Err::<Wanted, ArgError>(ArgError::NoTerms)
                &&& !(w.opts.whole_path && w.opts.basename) && w.terms.len() > 0 ==> wanted(args)
                    == Ok::<Wanted, ArgError>(w)
            },
        },
{
}

/// The words of the query are those of the keywords, all of them, in order.
pub proof fn law_query_holds_every_keyword(terms: Seq<Seq<char>>, t: Seq<char>)
    ensures
        joined(Seq::empty()) == Seq::<char>::empty(),
        joined(seq![t]) == t,
        terms.len() > 0 ==> joined(terms.push(t)) == joined(terms) + seq![' '] + t,
        words(joined(terms.push(t))) == words(joined(terms)) + words(t),
{
    let all = terms.push(t);
    assert(seq![t][0] == t);
    if terms.len() == 0 {
        assert(words(joined(terms)) =~= Seq::empty());
        assert(words(joined(terms)) + words(t) =~= words(t));
        assert(all[0] == t);
    } else {
        assert(all.drop_last() =~= terms);
        crate::words::law_spaces_are_these(' ');
        assert(is_space(' '));
        crate::words::law_lines_are_cut_at_spaces(joined(terms), ' ', t, seq!['x']);
    }
}

/// Where only the number of hits is wanted one hit is asked for, else as many as the limit
/// says.
pub proof fn law_as_many_as_the_limit_says(w: Wanted)
    ensures
        !w.count_only ==> w.asked_limit() == w.limit,
        w.count_only ==> w.asked_limit() == 1,
{
}

/// A query goes to a service that speaks version 2 or later; to the index file where there is
/// none, or an older one.
pub proof fn law_old_services_are_passed_by(v: u32)
    ensures
        route_of(Some(v)) == Route::Service <==> v >= 2,
        route_of(Some(v)) == Route::TooOld <==> v < 2,
        route_of(None) == Route::NoService,
{
}

/// The first argument names a command, or begins a search.
pub proof fn law_commands_by_name(a: Seq<char>)
    ensures
        command_of(None) == Command::Usage,
        command_of(Some(a)) == Command::Index <==> a == seq!['i', 'n', 'd', 'e', 'x'],
        command_of(Some(a)) == Command::Stats <==> a == seq!['s', 't', 'a', 't', 's'],
        command_of(Some(a)) == Command::Watch <==> a == seq!['w', 'a', 't', 'c', 'h'],
        command_of(Some(a)) == Command::Daemon <==> a == seq!['d', 'a', 'e', 'm', 'o', 'n'],
        command_of(Some(a)) == Command::Interactive <==> a == seq!['-', 'i'] || a == seq![
            '-', '-', 'i', 'n', 't', 'e', 'r', 'a', 'c', 't', 'i', 'v', 'e',
        ],
        command_of(Some(a)) == Command::Usage <==> a == seq!['-', 'h'] || a == seq![
            '-', '-', 'h', 'e', 'l', 'p',
        ],
        command_of(Some(a)) == Command::Version <==> a == seq!['-', 'V'] || a == seq![
            '-', '-', 'v', 'e', 'r', 's', 'i', 'o', 'n',
        ],
{
    reveal_strlit("index");
    reveal_strlit("stats");
    reveal_strlit("watch");
    reveal_strlit("daemon");
    reveal_strlit("-i");
    reveal_strlit("--interactive");
    reveal_strlit("-h");
    reveal_strlit("--help");
    reveal_strlit("-V");
    reveal_strlit("--version");
    assert("index"@ =~= seq!['i', 'n', 'd', 'e', 'x']);
    assert("stats"@ =~= seq!['s', 't', 'a', 't', 's']);
    assert("watch"@ =~= seq!['w', 'a', 't', 'c', 'h']);
    assert("daemon"@ =~= seq!['d', 'a', 'e', 'm', 'o', 'n']);
    assert("-i"@ =~= seq!['-', 'i']);
    assert("--interactive"@ =~= seq![
        '-', '-', 'i', 'n', 't', 'e', 'r', 'a', 'c', 't', 'i', 'v', 'e',
    ]);
    assert("-h"@ =~= seq!['-', 'h']);
    assert("--help"@ =~= seq!['-', '-', 'h', 'e', 'l', 'p']);
    assert("-V"@ =~= seq!['-', 'V']);
    assert("--version"@ =~= seq!['-', '-', 'v', 'e', 'r', 's', 'i', 'o', 'n']);
}

proof fn lemma_word_if(list: Seq<FlagWord>, f: u32, flag: u32, w: FlagWord, x: FlagWord)
    ensures
        (list + word_if(f, flag, w)).contains(x) <==> list.contains(x) || (x == w && f & flag != 0),
{
    let all = list + word_if(f, flag, w);
    if list.contains(x) {
        let k = choose|k: int| 0 <= k < list.len() && list[k] == x;
        assert(all[k] == x);
    }
    if x == w && f & flag != 0 {
        assert(all[list.len() as int] == x);
    }
    if all.contains(x) && !list.contains(x) {
        let k = choose|k: int| 0 <= k < all.len() && all[k] == x;
        if k < list.len() {
            assert(list[k] == x);
        }
    }
}

/// An event is described by the words of its flags.
pub proof fn law_flags_are_described(f: u32)
    ensures
        flag_words(f).contains(FlagWord::MustScan) <==> f & 0x1 != 0,
        flag_words(f).contains(FlagWord::HistoryDone) <==> f & 0x10 != 0,
        flag_words(f).contains(FlagWord::Created) <==> f & 0x100 != 0,
        flag_words(f).contains(FlagWord::Removed) <==> f & 0x200 != 0,
        flag_words(f).contains(FlagWord::Renamed) <==> f & 0x800 != 0,
        flag_words(f).contains(FlagWord::Modified) <==> f & 0x1000 != 0,
        flag_words(f).contains(FlagWord::File) <==> f & 0x1_0000 != 0,
        flag_words(f).contains(FlagWord::Dir) <==> f & 0x2_0000 != 0,
{
    let none = Seq::<FlagWord>::empty();
    let a = word_if(f, EV_ITEM_CREATED, FlagWord::Created);
    let b = a + word_if(f, EV_ITEM_REMOVED, FlagWord::Removed);
    let c = b + word_if(f, EV_ITEM_RENAMED, FlagWord::Renamed);
    let d = c + word_if(f, EV_ITEM_MODIFIED, FlagWord::Modified);
    let e = d + word_if(f, EV_ITEM_IS_DIR, FlagWord::Dir);
    let g = e + word_if(f, EV_ITEM_IS_FILE, FlagWord::File);
    let h = g + word_if(f, EV_MUST_SCAN_SUBDIRS, FlagWord::MustScan);
    assert(none + a =~= a);
    assert forall|x: FlagWord| #[trigger] flag_words(f).contains(x) <==> (x == FlagWord::Created
        && f & 0x100 != 0) || (x == FlagWord::Removed && f & 0x200 != 0) || (x
        == FlagWord::Renamed && f & 0x800 != 0) || (x == FlagWord::Modified && f & 0x1000 != 0)
        || (x == FlagWord::Dir && f & 0x2_0000 != 0) || (x == FlagWord::File && f & 0x1_0000 != 0)
        || (x == FlagWord::MustScan && f & 0x1 != 0) || (x == FlagWord::HistoryDone && f & 0x10
        != 0) by {
        lemma_word_if(none, f, EV_ITEM_CREATED, FlagWord::Created, x);
        lemma_word_if(a, f, EV_ITEM_REMOVED, FlagWord::Removed, x);
        lemma_word_if(b, f, EV_ITEM_RENAMED, FlagWord::Renamed, x);
        lemma_word_if(c, f, EV_ITEM_MODIFIED, FlagWord::Modified, x);
        lemma_word_if(d, f, EV_ITEM_IS_DIR, FlagWord::Dir, x);
        lemma_word_if(e, f, EV_ITEM_IS_FILE, FlagWord::File, x);
        lemma_word_if(g, f, EV_MUST_SCAN_SUBDIRS, FlagWord::MustScan, x);
        lemma_word_if(h, f, EV_HISTORY_DONE, FlagWord::HistoryDone, x);
    }
}

/// The description of an event is the words of its flags with a `+` between any two; where
/// there is none, it is the number of the flags.
pub proof fn law_words_stand_one_by_one(f: u32, words: Seq<FlagWord>, w: FlagWord)
    ensures
        f & 0x3_1b11 == 0 ==> described(f) == seq!['0', 'x'] + hex(f as nat),
        f & 0x3_1b11 != 0 ==> described(f) == words_text(flag_words(f)) && flag_words(f).len() > 0,
        words_text(seq![w]) == word_text(w),
        words.len() > 0 ==> words_text(words.push(w)) == words_text(words) + seq!['+'] + word_text(
            w,
        ),
{
    law_flags_are_described(f);
    reveal_strlit("0x");
    reveal_strlit("+");
    assert("0x"@ =~= seq!['0', 'x']);
    assert("+"@ =~= seq!['+']);
    assert(words.push(w).drop_last() =~= words);
    let none = f & 0x1 == 0 && f & 0x10 == 0 && f & 0x100 == 0 && f & 0x200 == 0 && f & 0x800 == 0
        && f & 0x1000 == 0 && f & 0x1_0000 == 0 && f & 0x2_0000 == 0;
    assert(f & 0x3_1b11 == 0 <==> f & 0x1 == 0 && f & 0x10 == 0 && f & 0x100 == 0 && f & 0x200 == 0
        && f & 0x800 == 0 && f & 0x1000 == 0 && f & 0x1_0000 == 0 && f & 0x2_0000 == 0)
        by (bit_vector);
    if none {
        if flag_words(f).len() > 0 {
            assert(flag_words(f).contains(flag_words(f)[0]));
            match flag_words(f)[0] {
                FlagWord::Created => {},
                FlagWord::Removed => {},
                FlagWord::Renamed => {},
                FlagWord::Modified => {},
                FlagWord::Dir => {},
                FlagWord::File => {},
                FlagWord::MustScan => {},
                FlagWord::HistoryDone => {},
            }
        }
    } else if flag_words(f).len() == 0 {
        assert(!flag_words(f).contains(FlagWord::Created));
    }
}

/// The place of a word among the words of an event.
pub open spec fn place_of(w: FlagWord) -> int {
    match w {
        FlagWord::Created => 0,
        FlagWord::Removed => 1,
        FlagWord::Renamed => 2,
        FlagWord::Modified => 3,
        FlagWord::Dir => 4,
        FlagWord::File => 5,
        FlagWord::MustScan => 6,
        FlagWord::HistoryDone => 7,
    }
}

spec fn placed_before(words: Seq<FlagWord>, n: int) -> bool {
    &&& forall|i: int| 0 <= i < words.len() ==> place_of(#[trigger] words[i]) < n
    &&& forall|i: int, j: int|
        0 <= i < j < words.len() ==> place_of(#[trigger] words[i]) < place_of(#[trigger] words[j])
}

proof fn lemma_word_placed(words: Seq<FlagWord>, f: u32, flag: u32, w: FlagWord)
    requires
        placed_before(words, place_of(w)),
    ensures
        placed_before(words + word_if(f, flag, w), place_of(w) + 1),
{
}

/// The words of an event stand in one order: what happened to an entry, what it is, and what
/// is said of the stream.
pub proof fn law_words_stand_in_order(f: u32, i: int, j: int)
    requires
        0 <= i < j < flag_words(f).len(),
    ensures
        place_of(flag_words(f)[i]) < place_of(flag_words(f)[j]),
{
    let none = Seq::<FlagWord>::empty();
    let a = word_if(f, EV_ITEM_CREATED, FlagWord::Created);
    let b = a + word_if(f, EV_ITEM_REMOVED, FlagWord::Removed);
    let c = b + word_if(f, EV_ITEM_RENAMED, FlagWord::Renamed);
    let d = c + word_if(f, EV_ITEM_MODIFIED, FlagWord::Modified);
    let e = d + word_if(f, EV_ITEM_IS_DIR, FlagWord::Dir);
    let g = e + word_if(f, EV_ITEM_IS_FILE, FlagWord::File);
    let h = g + word_if(f, EV_MUST_SCAN_SUBDIRS, FlagWord::MustScan);
    lemma_word_placed(none, f, EV_ITEM_CREATED, FlagWord::Created);
    assert(none + a =~= a);
    lemma_word_placed(a, f, EV_ITEM_REMOVED, FlagWord::Removed);
    lemma_word_placed(b, f, EV_ITEM_RENAMED, FlagWord::Renamed);
    lemma_word_placed(c, f, EV_ITEM_MODIFIED, FlagWord::Modified);
    lemma_word_placed(d, f, EV_ITEM_IS_DIR, FlagWord::Dir);
    lemma_word_placed(e, f, EV_ITEM_IS_FILE, FlagWord::File);
    lemma_word_placed(g, f, EV_MUST_SCAN_SUBDIRS, FlagWord::MustScan);
    lemma_word_placed(h, f, EV_HISTORY_DONE, FlagWord::HistoryDone);
}

/// The words, letter by letter.
pub proof fn law_words_of_events()
    ensures
        word_text(FlagWord::Created) == seq!['建', '立'],
        word_text(FlagWord::Removed) == seq!['刪', '除'],
        word_text(FlagWord::Renamed) == seq!['改', '名'],
        word_text(FlagWord::Modified) == seq!['修', '改'],
        word_text(FlagWord::Dir) == seq!['目', '錄'],
        word_text(FlagWord::File) == seq!['檔', '案'],
        word_text(FlagWord::MustScan) == seq!['*', '*', '需', '重', '掃', '*', '*'],
        word_text(FlagWord::HistoryDone) == seq!['歷', '史', '重', '放', '完', '畢'],
{
    reveal_strlit("建立");
    reveal_strlit("刪除");
    reveal_strlit("改名");
    reveal_strlit("修改");
    reveal_strlit("目錄");
    reveal_strlit("檔案");
    reveal_strlit("**需重掃**");
    reveal_strlit("歷史重放完畢");
    assert("建立"@ =~= seq!['建', '立']);
    assert("刪除"@ =~= seq!['刪', '除']);
    assert("改名"@ =~= seq!['改', '名']);
    assert("修改"@ =~= seq!['修', '改']);
    assert("目錄"@ =~= seq!['目', '錄']);
    assert("檔案"@ =~= seq!['檔', '案']);
    assert("**需重掃**"@ =~= seq!['*', '*', '需', '重', '掃', '*', '*']);
    assert("歷史重放完畢"@ =~= seq!['歷', '史', '重', '放', '完', '畢']);
}

} // verus!
