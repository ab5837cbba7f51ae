use printree::config::{
    Cli, ColorMode, EncodingMode, Format, GitignoreMode, MatchMode, PatternSyntax, SortMode,
};
use printree::engine::{DirListing, FsModel};
use printree::gitmap::GitTracker;
use printree::meta::{EntryMeta, FileKind};

fn base_cli() -> Cli {
    Cli {
        cmd: None,
        path: None,
        max_depth: None,
        hidden: false,
        follow_symlinks: false,
        sort: SortMode::Name,
        dirs_first: false,
        includes: vec![],
        excludes: vec![],
        pattern_syntax: PatternSyntax::Glob,
        match_mode: MatchMode::Name,
        filter_regex: None,
        filter_size: None,
        filter_mtime: None,
        filter_perm: None,
        types: vec![],
        gitignore: GitignoreMode::Off,
        git_status: false,
        git_rename: false,
        color: ColorMode::Never,
        format: Format::Plain,
        encoding: EncodingMode::Utf8,
        jobs: 1,
        warn_depth: 0,
    }
}

fn file_meta(path: &str, name: &str, size: u64) -> EntryMeta {
    EntryMeta {
        path: path.to_string(),
        name: name.to_string(),
        file_type: Some(FileKind::File),
        target_file_type: Some(FileKind::File),
        size: Some(size),
        mtime: Some(1000),
        perm_unix: None,
        is_symlink: false,
        symlink_target: None,
        canonical_path: None,
        loop_detected: false,
        error: None,
        git_status: None,
    }
}

fn dir_meta(path: &str, name: &str, canonical: &str) -> EntryMeta {
    EntryMeta {
        path: path.to_string(),
        name: name.to_string(),
        file_type: Some(FileKind::Dir),
        target_file_type: Some(FileKind::Dir),
        size: Some(4096),
        mtime: Some(1000),
        perm_unix: None,
        is_symlink: false,
        symlink_target: None,
        canonical_path: Some(canonical.to_string()),
        loop_detected: false,
        error: None,
        git_status: None,
    }
}

fn link_meta(path: &str, name: &str, canonical: &str) -> EntryMeta {
    EntryMeta {
        path: path.to_string(),
        name: name.to_string(),
        file_type: Some(FileKind::Symlink),
        target_file_type: Some(FileKind::Dir),
        size: Some(0),
        mtime: Some(1000),
        perm_unix: None,
        is_symlink: true,
        symlink_target: Some(canonical.to_string()),
        canonical_path: Some(canonical.to_string()),
        loop_detected: false,
        error: None,
        git_status: None,
    }
}

fn no_git() -> GitTracker {
    GitTracker { map: None }
}

/// Root holds `a/file.txt` (10 bytes) and `a/sub/` (empty); plain output
/// shows `a` with aggregate size 10 and `sub` with aggregate size 0.
#[test]
fn plain_rolls_up_directory_sizes() {
    let model = FsModel {
        root_path: "/r".to_string(),
        root_meta: dir_meta("/r", "r", "/r"),
        cwd: None,
        dirs: vec![
            DirListing {
                path: "/r".to_string(),
                entries: vec![dir_meta("/r/a", "a", "/r/a")],
            },
            DirListing {
                path: "/r/a".to_string(),
                entries: vec![
                    file_meta("/r/a/file.txt", "file.txt", 10),
                    dir_meta("/r/a/sub", "sub", "/r/a/sub"),
                ],
            },
            DirListing {
                path: "/r/a/sub".to_string(),
                entries: vec![],
            },
        ],
    };
    let out = printree::render::run_tree(&base_cli(), &model, &no_git(), 2000).expect("run");
    let expected = "/r\n    ├── [10] file.txt\n    └── [0] sub\n└── [10] a\n";
    assert_eq!(out, expected);
}

/// Root holds a self-referential symlink; with follow-symlinks enabled the
/// traversal terminates and the link is emitted once, loop-flagged.
#[test]
fn self_link_is_flagged_and_not_followed() {
    let model = FsModel {
        root_path: "/r".to_string(),
        root_meta: dir_meta("/r", "r", "/r"),
        cwd: None,
        dirs: vec![DirListing {
            path: "/r".to_string(),
            entries: vec![link_meta("/r/link", "link", "/r")],
        }],
    };
    let mut cli = base_cli();
    cli.follow_symlinks = true;
    cli.format = Format::Ndjson;
    let out = printree::render::run_tree(&cli, &model, &no_git(), 2000).expect("run");
    assert_eq!(out.matches("\"name\":\"link\"").count(), 1);
    assert_eq!(out.matches("\"loop_detected\":true").count(), 1);
    assert!(out.contains("\"skipped\"") == false);
}

/// A symlink whose canonical target lies outside the scan root is never
/// descended into and carries a non-empty error.
#[test]
fn escaping_link_is_blocked_with_error() {
    let model = FsModel {
        root_path: "/r".to_string(),
        root_meta: dir_meta("/r", "r", "/r"),
        cwd: None,
        dirs: vec![
            DirListing {
                path: "/r".to_string(),
                entries: vec![link_meta("/r/out", "out", "/elsewhere")],
            },
            DirListing {
                path: "/elsewhere".to_string(),
                entries: vec![file_meta("/elsewhere/secret", "secret", 1)],
            },
        ],
    };
    let mut cli = base_cli();
    cli.follow_symlinks = true;
    cli.format = Format::Ndjson;
    let out = printree::render::run_tree(&cli, &model, &no_git(), 2000).expect("run");
    assert!(out.contains("symlink target outside root"));
    assert!(!out.contains("secret"));
    assert!(!out.contains("\"loop_detected\":true"));
}

/// A `size>=1MB` filter on a directory with one 2MB file and one 10-byte
/// file yields exactly one emitted file entry.
#[test]
fn size_filter_keeps_only_large_files() {
    let model = FsModel {
        root_path: "/r".to_string(),
        root_meta: dir_meta("/r", "r", "/r"),
        cwd: None,
        dirs: vec![DirListing {
            path: "/r".to_string(),
            entries: vec![
                file_meta("/r/big.bin", "big.bin", 2 * 1048576),
                file_meta("/r/small.txt", "small.txt", 10),
            ],
        }],
    };
    let mut cli = base_cli();
    cli.filter_size = Some(">=1MB".to_string());
    cli.format = Format::Ndjson;
    let out = printree::render::run_tree(&cli, &model, &no_git(), 2000).expect("run");
    assert!(out.contains("big.bin"));
    assert!(!out.contains("small.txt"));
    // Exactly the root record and one file record.
    assert_eq!(out.lines().count(), 2);
}

/// CSV, NDJSON and JSON enumerate the same paths for the same tree and
/// filters.
#[test]
fn record_formats_enumerate_same_paths() {
    let model = FsModel {
        root_path: "/r".to_string(),
        root_meta: dir_meta("/r", "r", "/r"),
        cwd: None,
        dirs: vec![
            DirListing {
                path: "/r".to_string(),
                entries: vec![
                    dir_meta("/r/d", "d", "/r/d"),
                    file_meta("/r/z.txt", "z.txt", 3),
                ],
            },
            DirListing {
                path: "/r/d".to_string(),
                entries: vec![file_meta("/r/d/inner.txt", "inner.txt", 7)],
            },
        ],
    };
    let git = no_git();
    let mut cli = base_cli();
    cli.format = Format::Csv;
    let csv = printree::render::run_tree(&cli, &model, &git, 2000).expect("run");
    cli.format = Format::Ndjson;
    let nd = printree::render::run_tree(&cli, &model, &git, 2000).expect("run");
    cli.format = Format::Json;
    let js = printree::render::run_tree(&cli, &model, &git, 2000).expect("run");

    let paths = ["/r", "/r/d", "/r/d/inner.txt", "/r/z.txt"];
    for p in paths.iter() {
        assert!(csv.contains(p), "csv misses {}", p);
        assert!(nd.contains(p), "ndjson misses {}", p);
        assert!(js.contains(p), "json misses {}", p);
    }
    // One record per emitted entry in each format.
    assert_eq!(csv.lines().count() - 1, paths.len());
    assert_eq!(nd.lines().count(), paths.len());
    assert_eq!(nd.matches("\"path\":").count(), js.matches("\"path\":").count());
}

/// Name sorting and dirs-first ordering are applied to siblings.
#[test]
fn siblings_follow_configured_sort_order() {
    let model = FsModel {
        root_path: "/r".to_string(),
        root_meta: dir_meta("/r", "r", "/r"),
        cwd: None,
        dirs: vec![
            DirListing {
                path: "/r".to_string(),
                entries: vec![
                    file_meta("/r/b.txt", "b.txt", 1),
                    dir_meta("/r/z", "z", "/r/z"),
                    file_meta("/r/a.txt", "a.txt", 1),
                ],
            },
            DirListing {
                path: "/r/z".to_string(),
                entries: vec![],
            },
        ],
    };
    let git = no_git();
    let mut cli = base_cli();
    cli.format = Format::Ndjson;
    let out = printree::render::run_tree(&cli, &model, &git, 2000).expect("run");
    let a = out.find("a.txt").unwrap();
    let b = out.find("b.txt").unwrap();
    let z = out.find("\"z\"").unwrap();
    assert!(a < b && b < z);

    cli.dirs_first = true;
    let out = printree::render::run_tree(&cli, &model, &git, 2000).expect("run");
    let a = out.find("a.txt").unwrap();
    let b = out.find("b.txt").unwrap();
    let z = out.find("\"z\"").unwrap();
    assert!(z < a && a < b);
}

/// Chunked resolution preserves seed order when merged back.
#[test]
fn chunking_preserves_seed_order() {
    let seeds: Vec<printree::resolver::EntrySeed> = (0..5)
        .map(|i| printree::resolver::EntrySeed {
            path: format!("/r/{}", i),
            name: format!("{}", i),
            file_type_hint: Some(FileKind::File),
            file_type_error: None,
        })
        .collect();
    let chunks = printree::resolver::chunk_seeds(seeds, 2);
    assert_eq!(chunks.len(), 2);
    assert!(chunks.iter().all(|c| c.len() <= 3));
    let merged = printree::resolver::merge_chunks(chunks);
    let names: Vec<String> = merged.into_iter().map(|s| s.name).collect();
    assert_eq!(names, vec!["0", "1", "2", "3", "4"]);
}

/// The worker pool rejects zero and clamps oversized counts.
#[test]
fn job_pool_validates_worker_count() {
    let mut cli = base_cli();
    cli.jobs = 0;
    assert!(printree::resolver::JobPool::new(&cli).is_err());
    cli.jobs = 300;
    let pool = printree::resolver::JobPool::new(&cli).expect("pool");
    assert_eq!(pool.workers(), 256);
    assert!(pool.is_parallel());
    cli.jobs = 1;
    let pool = printree::resolver::JobPool::new(&cli).expect("pool");
    assert!(!pool.is_parallel());
}

/// The YAML tree reports rolled-up directory sizes.
#[test]
fn yaml_reports_rollup_sizes() {
    let model = FsModel {
        root_path: "/r".to_string(),
        root_meta: dir_meta("/r", "r", "/r"),
        cwd: None,
        dirs: vec![
            DirListing {
                path: "/r".to_string(),
                entries: vec![dir_meta("/r/a", "a", "/r/a")],
            },
            DirListing {
                path: "/r/a".to_string(),
                entries: vec![file_meta("/r/a/file.txt", "file.txt", 10)],
            },
        ],
    };
    let mut cli = base_cli();
    cli.format = Format::Yaml;
    let out = printree::render::run_tree(&cli, &model, &no_git(), 2000).expect("run");
    assert!(out.contains("name: \"r\""));
    assert!(out.contains("children:"));
    // The file keeps its own size; the directory and the root report the
    // 10-byte rollup.
    assert_eq!(out.matches("size: 10\n").count(), 3);
}

/// The HTML page embeds the entries and escapes script-closing sequences.
#[test]
fn html_embeds_escaped_entries() {
    let model = FsModel {
        root_path: "/r".to_string(),
        root_meta: dir_meta("/r", "r", "/r"),
        cwd: None,
        dirs: vec![DirListing {
            path: "/r".to_string(),
            entries: vec![file_meta("/r/x.txt", "x.txt", 1)],
        }],
    };
    let mut cli = base_cli();
    cli.format = Format::Html;
    let out = printree::render::run_tree(&cli, &model, &no_git(), 2000).expect("run");
    assert!(out.starts_with("<!DOCTYPE html>\n"));
    assert!(out.contains("x.txt"));
    assert_eq!(
        printree::render::escape_script_data("a</script>b"),
        "a<\\/script>b"
    );
}

/// An invalid configuration fails before traversal starts.
#[test]
fn invalid_filter_specs_are_fatal() {
    let model = FsModel {
        root_path: "/r".to_string(),
        root_meta: dir_meta("/r", "r", "/r"),
        cwd: None,
        dirs: vec![],
    };
    let mut cli = base_cli();
    cli.filter_size = Some("huge".to_string());
    assert!(printree::render::run_tree(&cli, &model, &no_git(), 2000).is_err());
    let mut cli = base_cli();
    cli.filter_regex = Some("[".to_string());
    assert!(printree::render::run_tree(&cli, &model, &no_git(), 2000).is_err());
}

/// Entries annotated from a status map carry their symbols through to the
/// output.
#[test]
fn git_status_symbols_are_annotated() {
    let mut statuses: Vec<(String, char)> = Vec::new();
    printree::gitmap::update_git_status(&mut statuses, "x.txt".to_string(), 'M');
    printree::gitmap::update_git_status(&mut statuses, "x.txt".to_string(), 'D');
    let map = printree::gitmap::GitStatusMap {
        workdir: "/r".to_string(),
        cwd: "/r".to_string(),
        statuses,
    };
    assert_eq!(map.status_for("/r/x.txt"), Some('D'));
    assert_eq!(map.status_for("/r"), None);
    assert_eq!(map.status_for("/other/x.txt"), None);

    let model = FsModel {
        root_path: "/r".to_string(),
        root_meta: dir_meta("/r", "r", "/r"),
        cwd: None,
        dirs: vec![DirListing {
            path: "/r".to_string(),
            entries: vec![file_meta("/r/x.txt", "x.txt", 1)],
        }],
    };
    let git = GitTracker { map: Some(map) };
    let mut cli = base_cli();
    cli.format = Format::Ndjson;
    let out = printree::render::run_tree(&cli, &model, &git, 2000).expect("run");
    assert!(out.contains("\"git_status\":\"D\""));
}

/// A depth limit of one shows only the root.
#[test]
fn depth_limit_one_shows_only_the_root() {
    let model = FsModel {
        root_path: "/r".to_string(),
        root_meta: dir_meta("/r", "r", "/r"),
        cwd: None,
        dirs: vec![DirListing {
            path: "/r".to_string(),
            entries: vec![file_meta("/r/x.txt", "x.txt", 1)],
        }],
    };
    let mut cli = base_cli();
    cli.max_depth = Some(1);
    cli.format = Format::Ndjson;
    let out = printree::render::run_tree(&cli, &model, &no_git(), 2000).expect("run");
    assert_eq!(out.lines().count(), 1);
    assert!(!out.contains("x.txt"));
}

/// Hidden entries are excluded unless requested.
#[test]
fn hidden_entries_follow_the_flag() {
    let model = FsModel {
        root_path: "/r".to_string(),
        root_meta: dir_meta("/r", "r", "/r"),
        cwd: None,
        dirs: vec![DirListing {
            path: "/r".to_string(),
            entries: vec![
                file_meta("/r/.secret", ".secret", 1),
                file_meta("/r/shown", "shown", 1),
            ],
        }],
    };
    let git = no_git();
    let mut cli = base_cli();
    cli.format = Format::Ndjson;
    let out = printree::render::run_tree(&cli, &model, &git, 2000).expect("run");
    assert!(!out.contains(".secret"));
    assert!(out.contains("shown"));
    cli.hidden = true;
    let out = printree::render::run_tree(&cli, &model, &git, 2000).expect("run");
    assert!(out.contains(".secret"));
}

/// CSV fields holding separators are quoted with doubled quotes.
#[test]
fn csv_escaping_quotes_fields() {
    assert_eq!(printree::render::csv_escape("plain"), "plain");
    assert_eq!(printree::render::csv_escape("a,b"), "\"a,b\"");
    assert_eq!(printree::render::csv_escape("say \"hi\""), "\"say \"\"hi\"\"\"");
}

/// The ignore-rule listing formats events as an indented list or JSON lines.
#[test]
fn gitignore_listing_formats_events() {
    let events = vec![
        printree::gitignore::WalkEvent {
            path: "/r".to_string(),
            name: "r".to_string(),
            depth: 0,
            kind: Some(FileKind::Dir),
            error: None,
        },
        printree::gitignore::WalkEvent {
            path: "/r/x".to_string(),
            name: "x".to_string(),
            depth: 1,
            kind: Some(FileKind::Dir),
            error: None,
        },
        printree::gitignore::WalkEvent {
            path: "/r/x/y.txt".to_string(),
            name: "y.txt".to_string(),
            depth: 2,
            kind: Some(FileKind::File),
            error: None,
        },
    ];
    let cli = base_cli();
    let out = printree::gitignore::run_tree_gitignore(&cli, "/r", &events).expect("run");
    assert_eq!(out, "/r\n    x\n        y.txt\n");

    let mut cli = base_cli();
    cli.format = Format::Json;
    let out = printree::gitignore::run_tree_gitignore(&cli, "/r", &events).expect("run");
    assert!(out.starts_with("{\"path\":\"/r\",\"name\":\".\",\"depth\":0,\"kind\":\"dir\"}\n"));
    assert!(out.contains("{\"path\":\"/r/x/y.txt\",\"name\":\"y.txt\",\"depth\":2,\"kind\":\"file\"}\n"));
}

/// Permission bits render as padded octal text.
#[test]
fn permissions_render_as_octal() {
    let mut meta = file_meta("/r/x", "x", 1);
    meta.perm_unix = Some(0o100644);
    let entry = printree::meta::Entry::from_meta(&meta, 1);
    assert_eq!(entry.perm, Some("100644".to_string()));
    let mut meta = file_meta("/r/x", "x", 1);
    meta.perm_unix = Some(0o7);
    let entry = printree::meta::Entry::from_meta(&meta, 1);
    assert_eq!(entry.perm, Some("007".to_string()));
    assert_eq!(entry.mtime, Some("1000".to_string()));
}

/// With directories-first on and no sort configured, directory-pointing
/// entries move ahead while each class keeps the listing order.
#[test]
fn dirs_first_without_sort_keeps_listing_order() {
    let model = FsModel {
        root_path: "/r".to_string(),
        root_meta: dir_meta("/r", "r", "/r"),
        cwd: None,
        dirs: vec![
            DirListing {
                path: "/r".to_string(),
                entries: vec![
                    file_meta("/r/b.txt", "b.txt", 1),
                    dir_meta("/r/z", "z", "/r/z"),
                    file_meta("/r/a.txt", "a.txt", 1),
                    dir_meta("/r/k", "k", "/r/k"),
                ],
            },
            DirListing {
                path: "/r/z".to_string(),
                entries: vec![],
            },
            DirListing {
                path: "/r/k".to_string(),
                entries: vec![],
            },
        ],
    };
    let mut cli = base_cli();
    cli.sort = SortMode::Unsorted;
    cli.dirs_first = true;
    cli.format = Format::Ndjson;
    let out = printree::render::run_tree(&cli, &model, &no_git(), 2000).expect("run");
    let z = out.find("\"z\"").unwrap();
    let k = out.find("\"k\"").unwrap();
    let a = out.find("a.txt").unwrap();
    let b = out.find("b.txt").unwrap();
    // Directories in listing order (z before k), then files in listing
    // order (b before a).
    assert!(z < k && k < b && b < a);
}
