use printree::config::{MatchMode, PatternSyntax};
use printree::filters::{parse_mtime_filter, parse_perm_filter, parse_size_filter, SizeCmp};
use printree::pattern::{
    build_include_prefixes, build_patterns, include_dir_allowed, match_globs, PatternList,
};

#[test]
fn match_mode_path_uses_root_prefix_for_globs() {
    let inc_pl = build_patterns(
        &vec!["src/utils/**".to_string()],
        PatternSyntax::Glob,
        false,
    )
    .expect("building inc_pl glob");
    let root = "/project";
    let included_path = "/project/src/utils/filter.rs";
    let excluded_path = "/project/src/bin/main.rs";

    assert!(match_globs(
        root,
        included_path,
        &inc_pl,
        &None::<PatternList>,
        MatchMode::Path
    ));
    assert!(!match_globs(
        root,
        excluded_path,
        &inc_pl,
        &None::<PatternList>,
        MatchMode::Path
    ));
}

#[test]
fn include_patterns_support_partial_match_without_glob() {
    let inc_pl = build_patterns(&vec!["util".to_string()], PatternSyntax::Glob, true)
        .expect("build patterns")
        .expect("pattern list");
    let included_path = "/project/src/utils/filter.rs";
    assert!(inc_pl.is_match(included_path));
}

#[test]
fn regex_patterns_are_supported() {
    let inc_pl = build_patterns(&vec![r"src/.+".to_string()], PatternSyntax::Regex, true)
        .expect("build regex patterns");
    let root = "/project";
    let included_path = "/project/src/utils/filter.rs";
    assert!(match_globs(
        root,
        included_path,
        &inc_pl,
        &None::<PatternList>,
        MatchMode::Path
    ));
}

#[test]
fn include_prefixes_capture_intermediate_directories() {
    let root = "/project";
    let prefixes = build_include_prefixes(
        root,
        &vec!["src/utils/deep/file.rs".to_string()],
        PatternSyntax::Glob,
        MatchMode::Path,
    );

    assert!(prefixes.contains(&"src".to_string()));
    assert!(prefixes.contains(&"src/utils".to_string()));
    assert!(prefixes.contains(&"src/utils/deep".to_string()));
    assert!(!prefixes.contains(&"src/utils/deep/file.rs".to_string()));
}

#[test]
fn include_dir_allowed_accepts_ancestors_and_rejects_unrelated_dirs() {
    let root = "/project";
    let include_glob = build_patterns(
        &vec!["src/utils/deep/file.rs".to_string()],
        PatternSyntax::Glob,
        true,
    )
    .expect("build patterns");
    let prefixes = build_include_prefixes(
        root,
        &vec!["src/utils/deep/file.rs".to_string()],
        PatternSyntax::Glob,
        MatchMode::Path,
    );

    let ancestor = "/project/src/utils";
    assert!(include_dir_allowed(
        root,
        ancestor,
        &include_glob,
        &prefixes,
        MatchMode::Path
    ));

    let unrelated = "/project/docs";
    assert!(!include_dir_allowed(
        root,
        unrelated,
        &include_glob,
        &prefixes,
        MatchMode::Path
    ));
}

#[test]
fn size_filter_specs_parse_to_thresholds() {
    let f = parse_size_filter(">=1MB").expect("parse");
    assert_eq!(f.cmp, SizeCmp::Ge);
    assert_eq!(f.threshold, 1048576);

    let f = parse_size_filter("<=10k").expect("parse");
    assert_eq!(f.cmp, SizeCmp::Le);
    assert_eq!(f.threshold, 10240);

    let f = parse_size_filter(">5").expect("parse");
    assert_eq!(f.cmp, SizeCmp::Gt);
    assert_eq!(f.threshold, 5);

    assert!(parse_size_filter("abc").is_err());
    assert!(parse_size_filter(">=1zz").is_err());
    assert!(parse_size_filter(">=99999999999999999999").is_err());
}

#[test]
fn size_filter_rejects_unknown_sizes() {
    let f = parse_size_filter(">=1MB").expect("parse");
    assert!(f.allows(Some(2 * 1048576)));
    assert!(!f.allows(Some(10)));
    assert!(!f.allows(None));
}

#[test]
fn mtime_filter_specs_parse_against_now() {
    let now = 1_000_000u64;
    let f = parse_mtime_filter("3d", now).expect("parse");
    assert_eq!(f.earliest, now - 3 * 86400);
    let f = parse_mtime_filter("10m", now).expect("parse");
    assert_eq!(f.earliest, now - 600);
    let f = parse_mtime_filter("2h", now).expect("parse");
    assert_eq!(f.earliest, now - 7200);
    let f = parse_mtime_filter("1w", now).expect("parse");
    assert_eq!(f.earliest, now - 604800);
    // A window reaching past the epoch clamps at zero.
    let f = parse_mtime_filter("100w", 1000).expect("parse");
    assert_eq!(f.earliest, 0);
    assert!(parse_mtime_filter("", now).is_err());
    assert!(parse_mtime_filter("3y", now).is_err());
    assert!(!f.allows(None));
}

#[test]
fn perm_filter_specs_parse_octal() {
    let f = parse_perm_filter("755").expect("parse").expect("filter");
    assert_eq!(f.expected, 0o755);
    assert!(f.allows(Some(0o100755)));
    assert!(!f.allows(Some(0o100644)));
    assert!(!f.allows(None));
    assert!(parse_perm_filter("99").is_err());
    assert!(parse_perm_filter("988").is_err());
    assert!(parse_perm_filter("75555").is_err());
    assert!(parse_perm_filter("").is_err());
}

#[test]
fn json_diff_serializes() {
    let j = printree::diff::diff_json_line("added", "src/main.rs");
    assert!(j.contains("\"status\":\"added\""));
    assert_eq!(j, "{\"status\":\"added\",\"path\":\"src/main.rs\"}");
}

#[test]
fn diff_status_map_keeps_higher_priority() {
    let mut map: Vec<(String, char)> = Vec::new();
    printree::diff::set_status(&mut map, "src", 'M');
    printree::diff::set_status(&mut map, "src", 'D');
    printree::diff::set_status(&mut map, "src", 'A');
    assert_eq!(map.len(), 1);
    assert_eq!(map[0].1, 'D');
    assert_eq!(printree::diff::status_priority('D'), 5);
    assert_eq!(printree::diff::status_priority('?'), 0);
}

#[test]
fn relative_to_base_strips_the_subtree_prefix() {
    assert_eq!(
        printree::diff::relative_to_base("a/b/c", "a/b"),
        Some("c".to_string())
    );
    assert_eq!(
        printree::diff::relative_to_base("a/b/c", ""),
        Some("a/b/c".to_string())
    );
    assert_eq!(printree::diff::relative_to_base("x/y", "a"), None);
}

fn lookup_status(map: &Vec<(String, char)>, key: &str) -> Option<char> {
    map.iter().find(|(k, _)| k == key).map(|(_, v)| *v)
}

#[test]
fn record_status_marks_every_ancestor() {
    let mut old_map: Vec<(String, char)> = Vec::new();
    let mut new_map: Vec<(String, char)> = Vec::new();
    printree::diff::set_status(&mut old_map, "keep", '?');
    printree::diff::record_status(&mut old_map, &mut new_map, "a/b/c.rs", Some('A'), Some('A'));
    assert_eq!(lookup_status(&old_map, "a/b/c.rs"), Some('A'));
    assert_eq!(lookup_status(&new_map, "a/b/c.rs"), Some('A'));
    assert_eq!(lookup_status(&old_map, "a/b"), Some('M'));
    assert_eq!(lookup_status(&old_map, "a"), Some('M'));
    assert_eq!(lookup_status(&old_map, ""), Some('M'));
    assert_eq!(lookup_status(&old_map, "keep"), Some('?'));
    // A deletion recorded later outranks the modified marker on an ancestor.
    printree::diff::record_status(&mut old_map, &mut new_map, "a/b", Some('D'), Some('D'));
    assert_eq!(lookup_status(&old_map, "a/b"), Some('D'));
}

#[test]
fn presence_defaults_and_render_pair_lines() {
    let root = printree::diff::CombinedNode {
        name: "repo".to_string(),
        path: "".to_string(),
        old_present: true,
        new_present: true,
        children: vec![
            printree::diff::CombinedNode {
                name: "gone.rs".to_string(),
                path: "gone.rs".to_string(),
                old_present: true,
                new_present: false,
                children: vec![],
            },
            printree::diff::CombinedNode {
                name: "fresh.rs".to_string(),
                path: "fresh.rs".to_string(),
                old_present: false,
                new_present: true,
                children: vec![],
            },
        ],
    };
    let mut old_map: Vec<(String, char)> = Vec::new();
    let mut new_map: Vec<(String, char)> = Vec::new();
    printree::diff::apply_presence_defaults(&root, &mut old_map, &mut new_map);
    assert_eq!(lookup_status(&old_map, "gone.rs"), Some('D'));
    assert_eq!(lookup_status(&new_map, "fresh.rs"), Some('A'));

    let mut lines: Vec<(String, String)> = Vec::new();
    printree::diff::render_node(&root, "", "", true, false, false, &old_map, &new_map, &mut lines);
    assert_eq!(lines.len(), 3);
    assert_eq!(lines[0].0, "  repo");
    assert_eq!(lines[1].0, "D └── gone.rs");
    assert_eq!(lines[1].1, "D     ");
    assert_eq!(lines[2].0, "A     ");
    assert_eq!(lines[2].1, "A └── fresh.rs");
}
