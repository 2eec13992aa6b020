use mylocate::glob::glob_match;
use mylocate::search::{Options, Query, TypeFilter};

fn q_opts(s: &str, whole_path: bool, basename: bool, tf: TypeFilter) -> Query {
    Query::parse_opts(
        s,
        Options {
            whole_path,
            basename,
            type_filter: Some(tf),
        },
    )
}

#[test]
fn case_insensitive() {
    let q = Query::parse("readme");
    assert!(q.matches(b"README.md"));
    assert!(q.matches(b"ReadMe.txt"));
    assert!(q.matches(b"readme"));
    assert!(Query::parse("README").matches(b"readme.md"));
}

#[test]
fn multiple_terms_are_anded() {
    let q = Query::parse("webpack config");
    assert!(q.matches(b"webpack.config.js"));
    assert!(q.matches(b"config-for-webpack"));
    assert!(!q.matches(b"webpack.js"));
    assert!(!q.matches(b"config.js"));
}

#[test]
fn single_character_query() {
    let q = Query::parse("a");
    assert!(q.matches(b"a"));
    assert!(q.matches(b"bar"));
    assert!(q.matches(b"A"));
    assert!(!q.matches(b"xyz"));
}

#[test]
fn needle_longer_than_name() {
    assert!(!Query::parse("readme.markdown").matches(b"readme"));
    assert!(!Query::parse("x").matches(b""));
}

#[test]
fn matches_at_both_ends() {
    let q = Query::parse("lock");
    assert!(q.matches(b"lockfile"));
    assert!(q.matches(b"package-lock"));
}

#[test]
fn non_ascii_compared_verbatim() {
    let q = Query::parse("報表");
    assert!(q.matches("年度報表.xlsx".as_bytes()));
    assert!(!q.matches("年度報告.xlsx".as_bytes()));
}

#[test]
fn empty_query_is_detected() {
    assert!(Query::parse("").is_empty());
    assert!(Query::parse("   ").is_empty());
    assert!(!Query::parse("x").is_empty());
}

#[test]
fn anchor_picks_longest_term() {
    let q = Query::parse("js webpack cfg");
    assert_eq!(q.anchor(), Some(b"webpack".as_slice()));
    assert!(Query::parse("").anchor().is_none());
}

#[test]
fn basename_glob_can_still_anchor() {
    let q = q_opts("*.pdf", false, true, TypeFilter::All);
    assert!(q.has_name_terms());
    assert_eq!(q.anchor(), Some(b".pdf".as_slice()));
    let q = q_opts("*.pdf report", false, true, TypeFilter::All);
    assert_eq!(q.anchor(), Some(b"report".as_slice()));
}

#[test]
fn glob_anchor_is_the_trailing_literal() {
    assert_eq!(Query::parse("*.pdf").anchor(), Some(b".pdf".as_slice()));
    assert_eq!(
        Query::parse("*report*.pdf").anchor(),
        Some(b".pdf".as_slice())
    );
    assert_eq!(Query::parse("foo?.txt").anchor(), Some(b".txt".as_slice()));
    assert_eq!(Query::parse("*.pdf*").anchor(), None);
    assert_eq!(Query::parse("*/tool/*").anchor(), None);
    assert_eq!(Query::parse("report?").anchor(), None);
    assert_eq!(Query::parse("*deep/readme").anchor(), None);
    assert_eq!(Query::parse("*a\\*b").anchor(), Some(b"a*b".as_slice()));
}

#[test]
fn anchor_picks_the_longest_candidate() {
    assert_eq!(
        Query::parse("js *.markdown").anchor(),
        Some(b".markdown".as_slice())
    );
    assert_eq!(
        Query::parse("webpack *.js").anchor(),
        Some(b"webpack".as_slice())
    );
}

#[test]
fn path_substring_term_is_not_an_anchor() {
    let q = Query::parse("codes/tool");
    assert!(q.has_path_terms());
    assert_eq!(q.anchor(), None);
}

#[test]
fn name_prefilter_uses_glob_anchor() {
    let q = Query::parse("*.pdf");
    assert!(q.name_prefilter(b"report.pdf"));
    assert!(!q.name_prefilter(b"report.txt"));
    let q = Query::parse("*/tool/*");
    assert!(q.name_prefilter(b"anything"));
    let q = Query::parse("codes/tool");
    assert!(q.name_prefilter(b"anything"));
}

#[test]
fn slash_term_becomes_path_term() {
    let q = Query::parse("tool/mylocate README");
    assert!(q.has_name_terms());
    assert!(q.has_path_terms());
    assert!(q.matches(b"README.md"));
    assert!(!q.matches(b"main.rs"));
    assert!(q.path_ok_dir(b"/Users/x/codes/tool/mylocate"));
    assert!(!q.path_ok_dir(b"/Users/x/codes/tool/printer"));
}

#[test]
fn whole_path_converts_every_term() {
    let q = q_opts("codes mylocate", true, false, TypeFilter::All);
    assert!(!q.has_name_terms());
    assert!(q.has_path_terms());
    assert!(q.path_ok_dir(b"/Users/x/codes/tool/mylocate"));
    assert!(!q.path_ok_dir(b"/Users/x/codes/tool/printer"));
    assert!(q.matches("任何名字".as_bytes()));
}

#[test]
fn basename_forces_name_matching() {
    let q = q_opts("*.pdf", false, true, TypeFilter::All);
    assert!(!q.has_path_terms());
    assert!(q.matches(b"report.pdf"));
    assert!(!q.matches(b"report.pdf.bak"));
}

#[test]
fn path_term_across_dir_and_name_boundary() {
    let q = Query::parse("mylocate/readme");
    let mut buf = Vec::new();
    assert!(q.path_ok_file(b"/Users/x/codes/tool/mylocate", b"README.md", &mut buf));
    assert!(!q.path_ok_file(b"/Users/x/codes/tool/printer", b"README.md", &mut buf));
    assert!(q.path_ok_file(b"/mylocate", b"readme", &mut buf));
}

#[test]
fn path_terms_evaluated_independently() {
    let q = Query::parse("codes/tool mylocate/readme");
    let mut buf = Vec::new();
    assert!(q.path_ok_file(b"/Users/x/codes/tool/mylocate", b"README.md", &mut buf));
    assert!(!q.path_ok_file(b"/Users/x/other/mylocate", b"README.md", &mut buf));
}

#[test]
fn type_filter_gates_each_kind() {
    let all = q_opts("x", false, false, TypeFilter::All);
    assert!(all.wants_dirs() && all.wants_files());
    let d = q_opts("x", false, false, TypeFilter::Dirs);
    assert!(d.wants_dirs() && !d.wants_files());
    let f = q_opts("x", false, false, TypeFilter::Files);
    assert!(!f.wants_dirs() && f.wants_files());
}

#[test]
fn path_only_query_is_not_empty() {
    let q = Query::parse("tool/mylocate");
    assert!(!q.is_empty());
    assert!(!q.has_name_terms());
}


#[test]
fn glob_is_anchored_not_substring() {
    assert!(glob_match(b"*.pdf", b"/a/b/report.pdf"));
    assert!(!glob_match(b"*.pdf", b"/a/b/report.pdf.bak"));
    assert!(glob_match(b"*.pdf*", b"/a/b/report.pdf.bak"));
    assert!(glob_match(b"*", b""));
    assert!(!glob_match(b"", b"x"));
    assert!(glob_match(b"", b""));
}

#[test]
fn glob_star_crosses_slashes() {
    assert!(glob_match(
        b"/users/*/codes/*.rs",
        b"/users/jlin/codes/tool/x.rs"
    ));
    assert!(glob_match(b"*tool*", b"/users/jlin/codes/tool/x.rs"));
}

#[test]
fn glob_question_matches_exactly_one() {
    assert!(glob_match(b"a?c", b"abc"));
    assert!(!glob_match(b"a?c", b"ac"));
    assert!(!glob_match(b"a?c", b"abbc"));
}

#[test]
fn glob_character_class() {
    assert!(glob_match(b"file[0-9].txt", b"file7.txt"));
    assert!(!glob_match(b"file[0-9].txt", b"filex.txt"));
    assert!(glob_match(b"file[!0-9].txt", b"filex.txt"));
    assert!(!glob_match(b"file[!0-9].txt", b"file7.txt"));
    assert!(glob_match(b"[abc]x", b"bx"));
    assert!(glob_match(b"[]]x", b"]x"));
    assert!(glob_match(b"a[bc", b"a[bc"));
}

#[test]
fn glob_backslash_escapes() {
    assert!(glob_match(b"a\\*b", b"a*b"));
    assert!(!glob_match(b"a\\*b", b"axxb"));
}

#[test]
fn glob_is_case_insensitive() {
    assert!(glob_match(b"*.pdf", b"/a/REPORT.PDF"));
}

#[test]
fn glob_backtracking_terminates() {
    assert!(glob_match(b"*a*b*c*", b"xxaxxbxxcxx"));
    assert!(!glob_match(b"*a*b*c*d", b"xxaxxbxxcxx"));
    let long = vec![b'x'; 4096];
    assert!(!glob_match(b"*a*a*a*a*a*a*b", &long));
}

#[test]
fn glob_term_defaults_to_path_scope() {
    let q = Query::parse("*.pdf");
    assert!(q.has_path_terms());
    assert!(!q.has_name_terms());
    let mut buf = Vec::new();
    assert!(q.path_ok_file(b"/Users/x/docs", b"report.pdf", &mut buf));
    assert!(!q.path_ok_file(b"/Users/x/docs", b"report.pdf.bak", &mut buf));
    assert!(q.path_ok_dir(b"/Users/x/weird.pdf"));
}

#[test]
fn glob_and_substring_path_terms_mix() {
    let q = Query::parse("codes/tool *.rs");
    let mut buf = Vec::new();
    assert!(q.path_ok_file(b"/Users/x/codes/tool/mylocate/src", b"live.rs", &mut buf));
    assert!(!q.path_ok_file(b"/Users/x/codes/tool/mylocate/src", b"live.txt", &mut buf));
    assert!(!q.path_ok_file(b"/Users/x/other/src", b"live.rs", &mut buf));
}

#[test]
fn keyword_order_does_not_matter() {
    for name in ["webpack.config.js", "config-for-webpack", "webpack.js", "x"] {
        assert_eq!(
            Query::parse("webpack config").matches(name.as_bytes()),
            Query::parse("CONFIG Webpack").matches(name.as_bytes())
        );
    }
}

#[test]
fn cheap_tests_turn_nothing_away() {
    let names: [&[u8]; 5] = [b"report.pdf", b"REPORT.PDF", b"a*b", b"readme", b"x.rs"];
    for line in ["*.pdf", "*/docs/*", "*a\\*b", "f?o", "[r]e*", "docs/re", "*.rs x"] {
        let q = Query::parse(line);
        let mut buf = Vec::new();
        for name in names {
            if q.matches(name) && q.path_ok_file(b"/docs", name, &mut buf) {
                assert!(q.name_prefilter(name), "{line}");
                if let Some(a) = q.anchor() {
                    let low = name.to_ascii_lowercase();
                    assert!(low.windows(a.len()).any(|w| w == a), "{line}");
                }
            }
        }
    }
}

#[test]
fn path_terms_see_one_separator() {
    let q = Query::parse("//x");
    let mut buf = Vec::new();
    assert!(!q.path_ok_file(b"/", b"x", &mut buf));
    assert!(Query::parse("/x").path_ok_file(b"/", b"x", &mut buf));
    let q = Query::parse("a/b");
    assert!(q.path_ok_file(b"/a/b/c", b"x", &mut buf));
    assert!(q.path_ok_file(b"/a", b"b", &mut buf));
    assert!(!q.path_ok_file(b"/a", b"c", &mut buf));
}
