//! Ignore-rule based listing: the walk itself (ignore-file semantics, I/O)
//! happens outside the library and hands in a stream of plain events; the
//! per-event filtering and the plain/JSON formatting are decided here.

use vstd::prelude::*;
use crate::config::{Cli, Format};
use crate::meta::{opt_view, FileKind};
use crate::pattern::{
    allow_type, build_patterns, match_globs, spec_allow_type, spec_match_globs, PatternList,
};
use crate::render::{append_json_str_pub, spec_json_str};
use crate::text::{dec_digits, spaces, u64_to_dec, str_eq};

verus! {

/// Mathematical view of a [`WalkEvent`].
pub ghost struct WalkEventV {
    pub path: Seq<char>,
    pub name: Seq<char>,
    pub depth: int,
    pub kind: Option<FileKind>,
    pub error: Option<Seq<char>>,
}

/// One event of an ignore-rule walk, as plain values: a visited path with
/// its name, depth and type, or a walk error.
pub struct WalkEvent {
    pub path: String,
    pub name: String,
    pub depth: usize,
    pub kind: Option<FileKind>,
    pub error: Option<String>,
}

impl View for WalkEvent {
    type V = WalkEventV;

    open spec fn view(&self) -> WalkEventV {
        WalkEventV {
            path: self.path@,
            name: self.name@,
            depth: self.depth as int,
            kind: self.kind,
            error: opt_view(self.error),
        }
    }
}

/// Views of an event stream.
pub open spec fn events_view(s: Seq<WalkEvent>) -> Seq<WalkEventV> {
    s.map_values(|e: WalkEvent| e@)
}

/// The kind label the ignore-rule listing uses.
pub open spec fn spec_event_kind_label(kind: Option<FileKind>) -> Seq<char> {
    match kind {
        Option::Some(FileKind::Dir) => "dir"@,
        Option::Some(FileKind::Symlink) => "symlink"@,
        Option::Some(_) => "file"@,
        Option::None => "unknown"@,
    }
}

/// The plain-mode text one event contributes: an error line for a failed
/// step; nothing for the root itself, a filtered-out type or a pattern miss;
/// otherwise the name indented four spaces per depth level.
pub open spec fn spec_gitignore_plain_event(
    ev: WalkEventV,
    root: Seq<char>,
    inc: Option<PatternList>,
    exc: Option<PatternList>,
    cli: &Cli,
) -> Seq<char> {
    match ev.error {
        Option::Some(e) => "[error] "@ + e + "\n"@,
        Option::None => {
            if ev.path == root {
                Seq::empty()
            } else if !(match ev.kind {
                Option::Some(ft) => spec_allow_type(ft, cli.types@),
                Option::None => true,
            }) {
                Seq::empty()
            } else if !spec_match_globs(root, ev.path, inc, exc, cli.match_mode) {
                Seq::empty()
            } else {
                Seq::new(spec_plain_indent(ev.depth) as nat, |j: int| ' ') + ev.name + "\n"@
            }
        },
    }
}

/// Four spaces per depth level, capped far beyond any real tree.
pub open spec fn spec_plain_indent(depth: int) -> int {
    if depth > 1000000 {
        4000000
    } else {
        4 * depth
    }
}

/// The plain-mode text of a whole event stream.
pub open spec fn spec_gitignore_plain(
    events: Seq<WalkEventV>,
    root: Seq<char>,
    inc: Option<PatternList>,
    exc: Option<PatternList>,
    cli: &Cli,
) -> Seq<char>
    decreases events.len(),
{
    if events.len() == 0 {
        Seq::empty()
    } else {
        spec_gitignore_plain(events.drop_last(), root, inc, exc, cli)
            + spec_gitignore_plain_event(events.last(), root, inc, exc, cli)
    }
}

/// The JSON record one event contributes, newline-terminated; empty for a
/// skipped event.
pub open spec fn spec_gitignore_json_event(
    ev: WalkEventV,
    root: Seq<char>,
    inc: Option<PatternList>,
    exc: Option<PatternList>,
    cli: &Cli,
) -> Seq<char> {
    match ev.error {
        Option::Some(e) => "{\"path\":\"\",\"name\":\"\",\"depth\":0,\"kind\":\"unknown\",\"error\":"@
            + spec_json_str(e) + "}\n"@,
        Option::None => {
            if ev.path == root {
                Seq::empty()
            } else if !(match ev.kind {
                Option::Some(ft) => spec_allow_type(ft, cli.types@),
                Option::None => true,
            }) {
                Seq::empty()
            } else if !spec_match_globs(root, ev.path, inc, exc, cli.match_mode) {
                Seq::empty()
            } else {
                "{\"path\":"@ + spec_json_str(ev.path) + ",\"name\":"@ + spec_json_str(ev.name)
                    + ",\"depth\":"@ + dec_digits(ev.depth) + ",\"kind\":\""@
                    + spec_event_kind_label(ev.kind) + "\"}\n"@
            }
        },
    }
}

/// The JSON-mode text of a whole event stream.
pub open spec fn spec_gitignore_json(
    events: Seq<WalkEventV>,
    root: Seq<char>,
    inc: Option<PatternList>,
    exc: Option<PatternList>,
    cli: &Cli,
) -> Seq<char>
    decreases events.len(),
{
    if events.len() == 0 {
        Seq::empty()
    } else {
        spec_gitignore_json(events.drop_last(), root, inc, exc, cli)
            + spec_gitignore_json_event(events.last(), root, inc, exc, cli)
    }
}

/// Marker naming a concrete matcher pair, used to guide the existential in
/// [`run_tree_gitignore`]'s contract.
pub open spec fn matcher_pair(inc: Option<PatternList>, exc: Option<PatternList>) -> bool {
    true
}

/// The JSON record emitted for the root itself.
pub open spec fn spec_gitignore_json_root(root: Seq<char>) -> Seq<char> {
    "{\"path\":"@ + spec_json_str(root) + ",\"name\":\".\",\"depth\":0,\"kind\":\"dir\"}\n"@
}

fn event_passes(ev: &WalkEvent, root: &str, inc: &Option<PatternList>, exc: &Option<PatternList>, cli: &Cli) -> (r: bool)
    requires
        ev@.error is None,
    ensures
        r == (ev@.path != root@ && (match ev@.kind {
            Option::Some(ft) => spec_allow_type(ft, cli.types@),
            Option::None => true,
        }) && spec_match_globs(root@, ev@.path, *inc, *exc, cli.match_mode)),
{
    if str_eq(ev.path.as_str(), root) {
        return false;
    }
    let type_ok = match ev.kind {
        Option::Some(ft) => allow_type(ft, &cli.types),
        Option::None => true,
    };
    if !type_ok {
        return false;
    }
    match_globs(root, ev.path.as_str(), inc, exc, cli.match_mode)
}

#[verifier::rlimit(100)]
fn gitignore_plain(events: &Vec<WalkEvent>, root: &str, inc: &Option<PatternList>, exc: &Option<
    PatternList,
>, cli: &Cli) -> (r: String)
    ensures
        r@ == root@ + "\n"@ + spec_gitignore_plain(events_view(events@), root@, *inc, *exc, cli),
{
    let mut out = root.to_owned();
    out.append("\n");
    let ghost evs = events_view(events@);
    let ghost base = out@;
    let mut i: usize = 0;
    proof {
        assert(spec_gitignore_plain(evs.take(0), root@, *inc, *exc, cli)
            =~= Seq::<char>::empty());
        assert(out@ =~= base + spec_gitignore_plain(evs.take(0), root@, *inc, *exc, cli));
    }
    while i < events.len()
        invariant
            i <= events@.len(),
            evs == events_view(events@),
            evs.len() == events@.len(),
            out@ == base + spec_gitignore_plain(evs.take(i as int), root@, *inc, *exc, cli),
        decreases events@.len() - i,
    {
        let ev = &events[i];
        proof {
            assert(evs[i as int] == events@[i as int]@);
            assert(evs.take(i + 1).drop_last() =~= evs.take(i as int));
            assert(evs.take(i + 1).last() == evs[i as int]);
        }
        match &ev.error {
            Option::Some(e) => {
                out.append("[error] ");
                out.append(e.as_str());
                out.append("\n");
            },
            Option::None => {
                if event_passes(ev, root, inc, exc, cli) {
                    let capped = if ev.depth > 1000000 {
                        1000000
                    } else {
                        ev.depth
                    };
                    let ind = spaces(4 * capped);
                    proof {
                        assert(ind@ =~= Seq::new(spec_plain_indent(ev@.depth) as nat, |j: int| ' '));
                    }
                    out.append(ind.as_str());
                    out.append(ev.name.as_str());
                    out.append("\n");
                }
            },
        }
        proof {
            assert(out@ =~= base + spec_gitignore_plain(evs.take(i + 1), root@, *inc, *exc, cli));
        }
        i = i + 1;
    }
    proof {
        assert(evs.take(evs.len() as int) =~= evs);
    }
    out
}

#[verifier::rlimit(100)]
fn gitignore_json(events: &Vec<WalkEvent>, root: &str, inc: &Option<PatternList>, exc: &Option<
    PatternList,
>, cli: &Cli) -> (r: String)
    ensures
        r@ == spec_gitignore_json_root(root@) + spec_gitignore_json(
            events_view(events@),
            root@,
            *inc,
            *exc,
            cli,
        ),
{
    let mut out = String::from_str("{\"path\":");
    append_json_str_pub(&mut out, root);
    out.append(",\"name\":\".\",\"depth\":0,\"kind\":\"dir\"}\n");
    let ghost base = out@;
    proof {
        assert(base =~= spec_gitignore_json_root(root@));
    }
    let ghost evs = events_view(events@);
    let mut i: usize = 0;
    proof {
        assert(spec_gitignore_json(evs.take(0), root@, *inc, *exc, cli) =~= Seq::<char>::empty());
        assert(out@ =~= base + spec_gitignore_json(evs.take(0), root@, *inc, *exc, cli));
    }
    while i < events.len()
        invariant
            i <= events@.len(),
            evs == events_view(events@),
            evs.len() == events@.len(),
            out@ == base + spec_gitignore_json(evs.take(i as int), root@, *inc, *exc, cli),
        decreases events@.len() - i,
    {
        let ev = &events[i];
        proof {
            assert(evs[i as int] == events@[i as int]@);
            assert(evs.take(i + 1).drop_last() =~= evs.take(i as int));
            assert(evs.take(i + 1).last() == evs[i as int]);
        }
        match &ev.error {
            Option::Some(e) => {
                out.append("{\"path\":\"\",\"name\":\"\",\"depth\":0,\"kind\":\"unknown\",\"error\":");
                append_json_str_pub(&mut out, e.as_str());
                out.append("}\n");
            },
            Option::None => {
                if event_passes(ev, root, inc, exc, cli) {
                    out.append("{\"path\":");
                    append_json_str_pub(&mut out, ev.path.as_str());
                    out.append(",\"name\":");
                    append_json_str_pub(&mut out, ev.name.as_str());
                    out.append(",\"depth\":");
                    let d = u64_to_dec(ev.depth as u64);
                    out.append(d.as_str());
                    out.append(",\"kind\":\"");
                    match ev.kind {
                        Option::Some(FileKind::Dir) => out.append("dir"),
                        Option::Some(FileKind::Symlink) => out.append("symlink"),
                        Option::Some(_) => out.append("file"),
                        Option::None => out.append("unknown"),
                    }
                    out.append("\"}\n");
                }
            },
        }
        proof {
            assert(out@ =~= base + spec_gitignore_json(evs.take(i + 1), root@, *inc, *exc, cli));
        }
        i = i + 1;
    }
    proof {
        assert(evs.take(evs.len() as int) =~= evs);
    }
    out
}

/// Renders an ignore-rule walk: one line per surviving event, as an indented
/// listing or as line-delimited JSON records, per the configured format.
///
/// Fails exactly when a configured pattern list does not compile.
pub fn run_tree_gitignore(cli: &Cli, root: &str, events: &Vec<WalkEvent>) -> (r: Result<
    String,
    String,
>)
    ensures
        r is Ok <==> crate::render::spec_patterns_ok(
            crate::meta::strings_view(cli.includes@),
            cli.pattern_syntax,
            true,
        ) && crate::render::spec_patterns_ok(
            crate::meta::strings_view(cli.excludes@),
            cli.pattern_syntax,
            false,
        ),
        r matches Ok(s) ==> exists|inc: Option<PatternList>, exc: Option<PatternList>|
            #![trigger matcher_pair(inc, exc)]
            {
                &&& (if cli.format == Format::Json {
                    s@ == spec_gitignore_json_root(root@) + spec_gitignore_json(
                        events_view(events@),
                        root@,
                        inc,
                        exc,
                        cli,
                    )
                } else {
                    s@ == root@ + "\n"@ + spec_gitignore_plain(
                        events_view(events@),
                        root@,
                        inc,
                        exc,
                        cli,
                    )
                })
                &&& (match inc {
                    Option::Some(pl) => cli.includes@.len() > 0 && pl.patterns()
                        == crate::pattern::spec_effective_patterns(
                        crate::meta::strings_view(cli.includes@),
                        cli.pattern_syntax,
                        true,
                    ),
                    Option::None => cli.includes@.len() == 0,
                })
                &&& (cli.includes@.len() == 0 ==> inc is None)
                &&& (match exc {
                    Option::Some(pl) => cli.excludes@.len() > 0 && pl.patterns()
                        == crate::pattern::spec_effective_patterns(
                        crate::meta::strings_view(cli.excludes@),
                        cli.pattern_syntax,
                        false,
                    ),
                    Option::None => cli.excludes@.len() == 0,
                })
                &&& (cli.excludes@.len() == 0 ==> exc is None)
            },
{
    let inc = match build_patterns(&cli.includes, cli.pattern_syntax, true) {
        Result::Ok(v) => v,
        Result::Err(e) => {
            return Result::Err(e);
        },
    };
    let exc = match build_patterns(&cli.excludes, cli.pattern_syntax, false) {
        Result::Ok(v) => v,
        Result::Err(e) => {
            return Result::Err(e);
        },
    };
    let is_json = match cli.format {
        Format::Json => true,
        _ => false,
    };
    if is_json {
        let s = gitignore_json(events, root, &inc, &exc, cli);
        proof {
            assert(matcher_pair(inc, exc));
            assert(s@ == spec_gitignore_json_root(root@) + spec_gitignore_json(
                events_view(events@),
                root@,
                inc,
                exc,
                cli,
            ));
        }
        Result::Ok(s)
    } else {
        let s = gitignore_plain(events, root, &inc, &exc, cli);
        proof {
            assert(matcher_pair(inc, exc));
            assert(s@ == root@ + "\n"@ + spec_gitignore_plain(
                events_view(events@),
                root@,
                inc,
                exc,
                cli,
            ));
        }
        Result::Ok(s)
    }
}

} // verus!
