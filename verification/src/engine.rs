//! The traversal engine: explicit-stack depth-first walk with cycle
//! detection, a containment boundary against symlinks that escape the scan
//! root, and depth policy.
//!
//! The engine works over an in-memory model of the scanned subtree
//! ([`FsModel`]); listing a live directory and resolving its metadata happen
//! outside the library and feed the same decision functions.

use vstd::prelude::*;
use vstd::multiset::Multiset;
use crate::config::Cli;
use crate::meta::{
    metas_view, opt_view, spec_entry_of, spec_points_to_directory, Entry, EntryMeta, EntryMetaV,
    FileKind,
};
use crate::pathops::spec_within;
use crate::text::{str_eq, str_le};

verus! {

/// The set of canonical paths already entered during one traversal. It only
/// grows, which bounds both memory and the traversal itself.
pub struct VisitedSet {
    pub paths: Vec<String>,
}

impl View for VisitedSet {
    type V = Seq<Seq<char>>;

    open spec fn view(&self) -> Seq<Seq<char>> {
        crate::meta::strings_view(self.paths@)
    }
}

impl VisitedSet {
    /// An empty visited set.
    pub fn new() -> (r: VisitedSet)
        ensures
            r@ =~= Seq::<Seq<char>>::empty(),
    {
        VisitedSet { paths: Vec::new() }
    }

    /// Whether `p` was already entered.
    pub fn contains(&self, p: &str) -> (r: bool)
        ensures
            r == self@.contains(p@),
    {
        let mut i: usize = 0;
        let n = self.paths.len();
        while i < n
            invariant
                i <= n,
                n == self.paths@.len(),
                forall|j: int| 0 <= j < i ==> self@[j] != p@,
            decreases n - i,
        {
            if str_eq(self.paths[i].as_str(), p) {
                assert(self@[i as int] == p@);
                return true;
            }
            i = i + 1;
        }
        assert(forall|j: int| 0 <= j < self@.len() ==> self@[j] != p@);
        false
    }

    /// How many paths were entered.
    pub fn len(&self) -> (r: usize)
        ensures
            r == self@.len(),
    {
        self.paths.len()
    }

    /// Records `p` as entered.
    pub fn insert(&mut self, p: String)
        ensures
            final(self)@ =~= old(self)@.push(p@),
    {
        self.paths.push(p);
    }
}

/// Error text recorded when a symlink's canonical target escapes the root.
pub open spec fn outside_root_label() -> Seq<char> {
    "symlink target outside root"@
}

/// The traversal engine's decision for one entry.
pub ghost struct DecisionV {
    /// Open a new frame for this entry.
    pub descend: bool,
    /// The entry's canonical path was already entered: a cycle.
    pub loop_detected: bool,
    /// Canonical path to record in the visited set when descending.
    pub record: Option<Seq<char>>,
    /// Descent was blocked because the canonical target escapes the root.
    pub blocked: bool,
}

/// The decision the engine takes for one entry, in order: descent
/// eligibility, cycle check against the visited set, symlink-following
/// policy, containment against the scan root, and the depth limit. Only an
/// entry that survives them all records its canonical path and descends.
pub open spec fn spec_decide(
    m: EntryMetaV,
    visited: Seq<Seq<char>>,
    follow_symlinks: bool,
    guard: Option<Seq<char>>,
    depth: int,
    max_depth: Option<usize>,
) -> DecisionV {
    let base = spec_points_to_directory(m);
    let stage1 = if m.is_symlink {
        match m.canonical_path {
            Option::Some(c) => {
                if visited.contains(c) {
                    DecisionV { descend: false, loop_detected: true, record: Option::None, blocked: false }
                } else if follow_symlinks && base {
                    DecisionV { descend: base, loop_detected: false, record: Option::Some(c), blocked: false }
                } else {
                    DecisionV { descend: false, loop_detected: false, record: Option::None, blocked: false }
                }
            },
            Option::None => DecisionV {
                descend: false,
                loop_detected: false,
                record: Option::None,
                blocked: false,
            },
        }
    } else if m.file_type == Option::Some(FileKind::Dir) {
        match m.canonical_path {
            Option::Some(c) => {
                if visited.contains(c) {
                    DecisionV { descend: false, loop_detected: true, record: Option::None, blocked: false }
                } else {
                    DecisionV { descend: base, loop_detected: false, record: Option::Some(c), blocked: false }
                }
            },
            Option::None => DecisionV {
                descend: base,
                loop_detected: false,
                record: Option::None,
                blocked: false,
            },
        }
    } else {
        DecisionV { descend: false, loop_detected: false, record: Option::None, blocked: false }
    };
    let blocked = match (guard, stage1.record) {
        (Option::Some(g), Option::Some(c)) => !spec_within(c, g),
        _ => false,
    };
    let stage2 = if blocked {
        DecisionV { descend: false, loop_detected: stage1.loop_detected, record: Option::None, blocked: true }
    } else {
        stage1
    };
    let over_depth = match max_depth {
        Option::Some(d) => depth >= d,
        Option::None => false,
    };
    if over_depth {
        DecisionV { descend: false, ..stage2 }
    } else {
        stage2
    }
}

/// The metadata record after the engine's decision: the loop flag is set (and
/// forced off for a blocked symlink), and a blocked entry without an error
/// gets one.
pub open spec fn spec_meta_after(m: EntryMetaV, dec: DecisionV) -> EntryMetaV {
    EntryMetaV {
        loop_detected: if dec.blocked && m.is_symlink {
            false
        } else {
            dec.loop_detected
        },
        error: if dec.blocked && m.error is None {
            Option::Some(outside_root_label())
        } else {
            m.error
        },
        ..m
    }
}

/// The rendering prefix handed to a child frame.
pub open spec fn spec_child_prefix(prefix: Seq<char>, is_last: bool) -> Seq<char> {
    if is_last {
        prefix + "    "@
    } else {
        prefix + "│   "@
    }
}

/// Decides, for one entry, whether to descend; updates the entry's loop and
/// error state, projects it for output, and records its canonical path in
/// the visited set exactly when descending into a fresh canonical path.
///
/// A cycle hit is emitted but never descended into; a canonical target
/// outside the root is never descended into, regardless of the
/// follow-symlinks setting, and carries a non-empty error with the loop flag
/// off; a fresh canonical path is recorded only on actual descent.
pub fn handle_entry(
    meta: EntryMeta,
    prefix: &str,
    depth: usize,
    is_last: bool,
    cli: &Cli,
    visited: &mut VisitedSet,
    root_guard: &Option<String>,
) -> (r: (EntryMeta, Entry, bool, String))
    ensures
        ({
            let dec = spec_decide(
                meta@,
                old(visited)@,
                cli.follow_symlinks,
                opt_view(*root_guard),
                depth as int,
                cli.max_depth,
            );
            &&& r.0@ == spec_meta_after(meta@, dec)
            &&& r.1@ == spec_entry_of(r.0@, depth as int)
            &&& r.2 == dec.descend
            &&& r.3@ == spec_child_prefix(prefix@, is_last)
            &&& final(visited)@ == (match (dec.descend, dec.record) {
                (true, Option::Some(c)) => old(visited)@.push(c),
                _ => old(visited)@,
            })
            &&& (r.0@.loop_detected ==> !dec.descend)
            &&& (dec.blocked ==> !dec.descend && r.0@.error is Some)
            &&& (dec.descend ==> (dec.record matches Option::Some(c) ==> !old(visited)@.contains(
                c,
            ) && meta@.canonical_path == Option::Some(c)))
            &&& (dec.record is None ==> final(visited)@ == old(visited)@)
        }),
{
    let mut meta = meta;
    let mut loop_detected = false;
    let mut descend = meta.points_to_directory();
    let mut canonical_to_record: Option<String> = Option::None;
    let mut blocked_outside_root = false;

    if meta.is_symlink {
        match crate::meta::clone_opt_string(&meta.canonical_path) {
            Option::Some(canonical) => {
                if visited.contains(canonical.as_str()) {
                    loop_detected = true;
                    descend = false;
                } else if cli.follow_symlinks && meta.points_to_directory() {
                    canonical_to_record = Option::Some(canonical);
                } else {
                    descend = false;
                }
            },
            Option::None => {
                descend = false;
            },
        }
    } else if meta.is_directory() {
        match crate::meta::clone_opt_string(&meta.canonical_path) {
            Option::Some(canonical) => {
                if visited.contains(canonical.as_str()) {
                    loop_detected = true;
                    descend = false;
                } else {
                    canonical_to_record = Option::Some(canonical);
                }
            },
            Option::None => {},
        }
    } else {
        descend = false;
    }

    match (root_guard, &canonical_to_record) {
        (Option::Some(root_path), Option::Some(candidate)) => {
            if !path_within_root(candidate.as_str(), root_path.as_str()) {
                descend = false;
                blocked_outside_root = true;
                canonical_to_record = Option::None;
                if meta.error.is_none() {
                    meta.error = Option::Some(String::from_str("symlink target outside root"));
                }
            }
        },
        _ => {},
    }

    match cli.max_depth {
        Option::Some(maxd) => {
            if depth >= maxd {
                descend = false;
            }
        },
        Option::None => {},
    }

    meta.loop_detected = loop_detected;

    if blocked_outside_root && meta.is_symlink {
        meta.loop_detected = false;
    }

    let entry = Entry::from_meta(&meta, depth);

    let mut child_prefix: String = prefix.to_owned();
    if is_last {
        child_prefix.append("    ");
    } else {
        child_prefix.append("│   ");
    }

    if descend {
        match canonical_to_record {
            Option::Some(canonical) => {
                visited.insert(canonical);
            },
            Option::None => {},
        }
    }

    (meta, entry, descend, child_prefix)
}

/// `path` is the root itself or lies below it.
pub fn path_within_root(path: &str, root: &str) -> (r: bool)
    ensures
        r == spec_within(path@, root@),
{
    crate::pathops::path_within(path, root)
}

/// The canonical identity of the scan root for containment checks: its
/// canonical path when known, the root itself when absolute, otherwise the
/// root joined onto the starting directory (when that is known).
pub open spec fn spec_canonical_root(
    root: Seq<char>,
    root_canonical: Option<Seq<char>>,
    cwd: Option<Seq<char>>,
) -> Option<Seq<char>> {
    match root_canonical {
        Option::Some(canon) => Option::Some(canon),
        Option::None => {
            if crate::pathops::spec_is_absolute(root) {
                Option::Some(root)
            } else {
                match cwd {
                    Option::Some(c) => Option::Some(crate::pathops::spec_join(c, root)),
                    Option::None => Option::None,
                }
            }
        },
    }
}

/// Computes the containment boundary for a scan rooted at `root`.
pub fn canonical_root_for_security(root: &str, root_meta: &EntryMeta, cwd: &Option<String>) -> (r:
    Option<String>)
    ensures
        opt_view(r) == spec_canonical_root(root@, root_meta@.canonical_path, opt_view(*cwd)),
{
    match crate::meta::clone_opt_string(&root_meta.canonical_path) {
        Option::Some(canon) => Option::Some(canon),
        Option::None => {
            if crate::pathops::is_absolute(root) {
                Option::Some(root.to_owned())
            } else {
                match cwd {
                    Option::Some(c) => Option::Some(crate::pathops::path_join(c.as_str(), root)),
                    Option::None => Option::None,
                }
            }
        },
    }
}

/// Sibling order by name.
pub open spec fn sorted_by_name_v(s: Seq<EntryMetaV>) -> bool {
    forall|i: int, j: int|
        0 <= i < j < s.len() ==> crate::text::lex_le(s[i].name, s[j].name)
}

/// Sibling order with directory-pointing entries first, names deciding
/// within each class.
pub open spec fn dirs_first_le(a: EntryMetaV, b: EntryMetaV) -> bool {
    (spec_points_to_directory(a) && !spec_points_to_directory(b)) || (spec_points_to_directory(a)
        == spec_points_to_directory(b) && crate::text::lex_le(a.name, b.name))
}

/// Sibling order for the dirs-first mode.
pub open spec fn sorted_dirs_first_v(s: Seq<EntryMetaV>) -> bool {
    forall|i: int, j: int| 0 <= i < j < s.len() ==> dirs_first_le(s[i], s[j])
}

proof fn lemma_dirs_first_total(a: EntryMetaV, b: EntryMetaV)
    ensures
        dirs_first_le(a, b) || dirs_first_le(b, a),
{
    crate::text::lemma_lex_total(a.name, b.name);
}

proof fn lemma_dirs_first_trans(a: EntryMetaV, b: EntryMetaV, c: EntryMetaV)
    requires
        dirs_first_le(a, b),
        dirs_first_le(b, c),
    ensures
        dirs_first_le(a, c),
{
    if spec_points_to_directory(a) == spec_points_to_directory(b) && spec_points_to_directory(b)
        == spec_points_to_directory(c) {
        crate::text::lemma_lex_trans(a.name, b.name, c.name);
    }
}

/// Sorts siblings by base name (code-point order, permutation of the input).
pub fn sort_by_name(v: Vec<EntryMeta>) -> (r: Vec<EntryMeta>)
    ensures
        metas_view(r@).to_multiset() == metas_view(v@).to_multiset(),
        sorted_by_name_v(metas_view(r@)),
        r@.len() == v@.len(),
{
    let ghost all = metas_view(v@);
    let mut rest = v;
    let mut out: Vec<EntryMeta> = Vec::new();
    proof {
        broadcast use vstd::seq_lib::group_to_multiset_ensures;

        assert(metas_view(out@) =~= Seq::<EntryMetaV>::empty());
        assert(metas_view(out@).to_multiset().add(metas_view(rest@).to_multiset())
            =~= all.to_multiset());
    }
    while rest.len() > 0
        invariant
            metas_view(out@).to_multiset().add(metas_view(rest@).to_multiset())
                == all.to_multiset(),
            out@.len() + rest@.len() == all.len(),
            sorted_by_name_v(metas_view(out@)),
            forall|i: int, j: int|
                0 <= i < out@.len() && 0 <= j < rest@.len() ==> crate::text::lex_le(
                    metas_view(out@)[i].name,
                    metas_view(rest@)[j].name,
                ),
        decreases rest@.len(),
    {
        let mut mi: usize = 0;
        let mut k: usize = 1;
        proof {
            crate::text::lemma_lex_total(metas_view(rest@)[0].name, metas_view(rest@)[0].name);
        }
        while k < rest.len()
            invariant
                0 < rest@.len(),
                mi < rest@.len(),
                k <= rest@.len(),
                forall|j: int|
                    0 <= j < k ==> crate::text::lex_le(
                        metas_view(rest@)[mi as int].name,
                        metas_view(rest@)[j].name,
                    ),
            decreases rest@.len() - k,
        {
            if str_le(rest[k].name.as_str(), rest[mi].name.as_str()) {
                proof {
                    assert forall|j: int| 0 <= j < k + 1 implies crate::text::lex_le(
                        metas_view(rest@)[k as int].name,
                        metas_view(rest@)[j].name,
                    ) by {
                        if j < k {
                            crate::text::lemma_lex_trans(
                                metas_view(rest@)[k as int].name,
                                metas_view(rest@)[mi as int].name,
                                metas_view(rest@)[j].name,
                            );
                        } else {
                            crate::text::lemma_lex_total(
                                metas_view(rest@)[k as int].name,
                                metas_view(rest@)[k as int].name,
                            );
                        }
                    }
                }
                mi = k;
            } else {
                proof {
                    crate::text::lemma_lex_total(
                        metas_view(rest@)[k as int].name,
                        metas_view(rest@)[mi as int].name,
                    );
                }
            }
            k = k + 1;
        }
        let ghost rest_pre = metas_view(rest@);
        let ghost out_pre = metas_view(out@);
        let x = rest.remove(mi);
        out.push(x);
        proof {
            broadcast use vstd::seq_lib::group_to_multiset_ensures;

            assert(metas_view(rest@) =~= rest_pre.remove(mi as int));
            assert(metas_view(out@) =~= out_pre.push(rest_pre[mi as int]));
            assert(rest_pre.contains(rest_pre[mi as int]));
            assert(rest_pre.to_multiset().count(rest_pre[mi as int]) > 0);
            assert(metas_view(out@).to_multiset().add(metas_view(rest@).to_multiset())
                =~= all.to_multiset());
        }
    }
    proof {
        broadcast use vstd::seq_lib::group_to_multiset_ensures;

        assert(metas_view(rest@) =~= Seq::<EntryMetaV>::empty());
        assert(metas_view(rest@).to_multiset() =~= Multiset::<EntryMetaV>::empty());
        assert(metas_view(out@).to_multiset() =~= all.to_multiset());
    }
    out
}

/// Sorts siblings with directory-pointing entries first, by name within each
/// class (permutation of the input).
pub fn sort_dirs_first(v: Vec<EntryMeta>) -> (r: Vec<EntryMeta>)
    ensures
        metas_view(r@).to_multiset() == metas_view(v@).to_multiset(),
        sorted_dirs_first_v(metas_view(r@)),
        r@.len() == v@.len(),
{
    let ghost all = metas_view(v@);
    let mut rest = v;
    let mut out: Vec<EntryMeta> = Vec::new();
    proof {
        broadcast use vstd::seq_lib::group_to_multiset_ensures;

        assert(metas_view(out@) =~= Seq::<EntryMetaV>::empty());
        assert(metas_view(out@).to_multiset().add(metas_view(rest@).to_multiset())
            =~= all.to_multiset());
    }
    while rest.len() > 0
        invariant
            metas_view(out@).to_multiset().add(metas_view(rest@).to_multiset())
                == all.to_multiset(),
            out@.len() + rest@.len() == all.len(),
            sorted_dirs_first_v(metas_view(out@)),
            forall|i: int, j: int|
                0 <= i < out@.len() && 0 <= j < rest@.len() ==> dirs_first_le(
                    metas_view(out@)[i],
                    metas_view(rest@)[j],
                ),
        decreases rest@.len(),
    {
        let mut mi: usize = 0;
        let mut k: usize = 1;
        proof {
            crate::text::lemma_lex_total(metas_view(rest@)[0].name, metas_view(rest@)[0].name);
            assert(dirs_first_le(metas_view(rest@)[0], metas_view(rest@)[0]));
        }
        while k < rest.len()
            invariant
                0 < rest@.len(),
                mi < rest@.len(),
                k <= rest@.len(),
                forall|j: int|
                    0 <= j < k ==> dirs_first_le(
                        metas_view(rest@)[mi as int],
                        metas_view(rest@)[j],
                    ),
            decreases rest@.len() - k,
        {
            let kd = rest[k].points_to_directory();
            let md = rest[mi].points_to_directory();
            let before = if kd && !md {
                true
            } else if kd == md {
                str_le(rest[k].name.as_str(), rest[mi].name.as_str())
            } else {
                false
            };
            if before {
                proof {
                    assert(dirs_first_le(metas_view(rest@)[k as int], metas_view(rest@)[mi as int]));
                    assert forall|j: int| 0 <= j < k + 1 implies dirs_first_le(
                        metas_view(rest@)[k as int],
                        metas_view(rest@)[j],
                    ) by {
                        if j < k {
                            lemma_dirs_first_trans(
                                metas_view(rest@)[k as int],
                                metas_view(rest@)[mi as int],
                                metas_view(rest@)[j],
                            );
                        } else {
                            crate::text::lemma_lex_total(
                                metas_view(rest@)[k as int].name,
                                metas_view(rest@)[k as int].name,
                            );
                        }
                    }
                }
                mi = k;
            } else {
                proof {
                    lemma_dirs_first_total(metas_view(rest@)[k as int], metas_view(rest@)[mi as int]);
                }
            }
            k = k + 1;
        }
        let ghost rest_pre = metas_view(rest@);
        let ghost out_pre = metas_view(out@);
        let x = rest.remove(mi);
        out.push(x);
        proof {
            broadcast use vstd::seq_lib::group_to_multiset_ensures;

            assert(metas_view(rest@) =~= rest_pre.remove(mi as int));
            assert(metas_view(out@) =~= out_pre.push(rest_pre[mi as int]));
            assert(rest_pre.contains(rest_pre[mi as int]));
            assert(rest_pre.to_multiset().count(rest_pre[mi as int]) > 0);
            assert(metas_view(out@).to_multiset().add(metas_view(rest@).to_multiset())
                =~= all.to_multiset());
        }
    }
    proof {
        broadcast use vstd::seq_lib::group_to_multiset_ensures;

        assert(metas_view(rest@) =~= Seq::<EntryMetaV>::empty());
        assert(metas_view(rest@).to_multiset() =~= Multiset::<EntryMetaV>::empty());
        assert(metas_view(out@).to_multiset() =~= all.to_multiset());
    }
    out
}

/// One directory's pending listing: its filtered, annotated, sorted children
/// with a cursor, the rendering prefix for this directory's children, and
/// their depth.
pub struct Frame {
    pub path: String,
    pub entries: Vec<EntryMeta>,
    pub idx: usize,
    pub prefix: String,
    pub depth: usize,
    /// Which [`FrameLog`] of the walk this frame reports to.
    pub log_id: Ghost<int>,
}

/// The per-entry decision of the filter pipeline at listing time: hidden
/// entries (unless shown), unwanted types, pattern misses, and entries a
/// configured predicate rejects are all excluded before sorting.
pub open spec fn spec_frame_pass(
    mv: EntryMetaV,
    cli: &Cli,
    root: Seq<char>,
    inc: Option<crate::pattern::PatternList>,
    exc: Option<crate::pattern::PatternList>,
    filters: &crate::filters::Filters,
) -> bool {
    (cli.hidden || !crate::pattern::spec_is_hidden(mv.name)) && (match mv.file_type {
        Option::Some(ft) => crate::pattern::spec_allow_type(ft, cli.types@),
        Option::None => true,
    }) && crate::pattern::spec_match_globs(root, mv.path, inc, exc, cli.match_mode)
        && filters.spec_allows(mv)
}

/// Any element of a multiset-equal sequence stems from the other sequence.
proof fn lemma_perm_source(a: Seq<EntryMetaV>, b: Seq<EntryMetaV>, k: int)
    requires
        a.to_multiset() == b.to_multiset(),
        0 <= k < a.len(),
    ensures
        exists|j: int| 0 <= j < b.len() && a[k] == b[j],
{
    broadcast use vstd::seq_lib::group_to_multiset_ensures;

    assert(a.contains(a[k]));
    assert(b.to_multiset().count(a[k]) > 0);
    assert(b.contains(a[k]));
    let j = choose|j: int| 0 <= j < b.len() && b[j] == a[k];
    assert(0 <= j < b.len() && a[k] == b[j]);
}

/// Directory-pointing entries.
pub open spec fn points_v(mv: EntryMetaV) -> bool {
    spec_points_to_directory(mv)
}

/// A sequence splits, by multiplicity, into the part a predicate keeps and
/// the part its negation keeps.
pub proof fn lemma_filter_split(
    s: Seq<EntryMetaV>,
    pred: spec_fn(EntryMetaV) -> bool,
    negpred: spec_fn(EntryMetaV) -> bool,
)
    requires
        forall|mv: EntryMetaV| #[trigger] negpred(mv) == !pred(mv),
    ensures
        (s.filter(pred) + s.filter(negpred)).to_multiset() == s.to_multiset(),
        s.filter(pred).len() + s.filter(negpred).len() == s.len(),
{
    broadcast use vstd::seq_lib::group_to_multiset_ensures;

    lemma_visible_children_each_once(s, pred);
    lemma_visible_children_each_once(s, negpred);
    let a = s.filter(pred);
    let b = s.filter(negpred);
    assert forall|x: EntryMetaV| #[trigger] (a + b).to_multiset().count(x) == s.to_multiset().count(
        x,
    ) by {
        vstd::seq_lib::lemma_multiset_commutative(a, b);
        assert((a + b).to_multiset().count(x) == a.to_multiset().count(x) + b.to_multiset().count(
            x,
        ));
        assert(negpred(x) == !pred(x));
    }
    assert((a + b).to_multiset() =~= s.to_multiset());
    assert((a + b).to_multiset().len() == s.to_multiset().len());
    assert((a + b).len() == a.len() + b.len());
}

/// Stably partitions the entries: directory-pointing ones first, each class
/// keeping its input order.
pub fn partition_dirs_first(v: Vec<EntryMeta>) -> (r: Vec<EntryMeta>)
    ensures
        metas_view(r@) == metas_view(v@).filter(|mv: EntryMetaV| points_v(mv)) + metas_view(
            v@,
        ).filter(|mv: EntryMetaV| !points_v(mv)),
        metas_view(r@).to_multiset() == metas_view(v@).to_multiset(),
        r@.len() == v@.len(),
{
    let ghost all = metas_view(v@);
    let ghost keep = |mv: EntryMetaV| points_v(mv);
    let ghost drop_pred = |mv: EntryMetaV| !points_v(mv);
    let mut dirs: Vec<EntryMeta> = Vec::new();
    let mut others: Vec<EntryMeta> = Vec::new();
    let mut i: usize = 0;
    proof {
        reveal(Seq::filter);
        assert(all.take(0) =~= Seq::<EntryMetaV>::empty());
        assert(metas_view(dirs@) =~= all.take(0).filter(keep));
        assert(metas_view(others@) =~= all.take(0).filter(drop_pred));
    }
    while i < v.len()
        invariant
            i <= v@.len(),
            all == metas_view(v@),
            keep == (|mv: EntryMetaV| points_v(mv)),
            drop_pred == (|mv: EntryMetaV| !points_v(mv)),
            metas_view(dirs@) =~= all.take(i as int).filter(keep),
            metas_view(others@) =~= all.take(i as int).filter(drop_pred),
        decreases v@.len() - i,
    {
        let ghost pre_d = metas_view(dirs@);
        let ghost pre_o = metas_view(others@);
        let ghost snext = all.take(i + 1);
        proof {
            reveal(Seq::filter);
            assert(snext.drop_last() =~= all.take(i as int));
            assert(snext.last() == all[i as int]);
            assert(all[i as int] == v@[i as int]@);
        }
        if v[i].points_to_directory() {
            dirs.push(v[i].clone());
            proof {
                assert(snext.filter(keep) == snext.drop_last().filter(keep).push(snext.last()));
                assert(snext.filter(drop_pred) == snext.drop_last().filter(drop_pred));
                assert(metas_view(dirs@) =~= pre_d.push(v@[i as int]@));
            }
        } else {
            others.push(v[i].clone());
            proof {
                assert(snext.filter(drop_pred) == snext.drop_last().filter(drop_pred).push(
                    snext.last(),
                ));
                assert(snext.filter(keep) == snext.drop_last().filter(keep));
                assert(metas_view(others@) =~= pre_o.push(v@[i as int]@));
            }
        }
        i = i + 1;
    }
    proof {
        assert(all.take(v@.len() as int) =~= all);
    }
    let mut out = dirs;
    let mut rest = others;
    out.append(&mut rest);
    proof {
        assert(metas_view(out@) =~= all.filter(keep) + all.filter(drop_pred));
        lemma_filter_split(all, keep, drop_pred);
    }
    out
}

/// The relation between a directory's raw listing and the frame built from
/// it: the frame holds exactly the listing entries the pipeline keeps
/// (multiset-equal, status-annotated), in the configured order — by name
/// when name-sorting is on; directory-pointing entries stably partitioned
/// ahead of the rest, each class keeping its secondary order, when
/// directories-first is on; the listing order otherwise.
pub open spec fn spec_pipeline_rel(
    children: Seq<EntryMetaV>,
    es: Seq<EntryMetaV>,
    cli: &Cli,
    root: Seq<char>,
    inc: Option<crate::pattern::PatternList>,
    exc: Option<crate::pattern::PatternList>,
    filters: &crate::filters::Filters,
    git: &crate::gitmap::GitTracker,
) -> bool {
    let kept = spec_kept_children(children, cli, root, inc, exc, filters);
    let annotated = kept.map_values(|mv: EntryMetaV| crate::gitmap::spec_with_status(git, mv));
    &&& kept.len() > 0
    &&& es.len() == annotated.len()
    &&& es.to_multiset() == annotated.to_multiset()
    &&& (cli.dirs_first && cli.sort == crate::config::SortMode::Name ==> sorted_dirs_first_v(es))
    &&& (cli.dirs_first && cli.sort == crate::config::SortMode::Unsorted ==> es
        == annotated.filter(|mv: EntryMetaV| points_v(mv)) + annotated.filter(
        |mv: EntryMetaV| !points_v(mv),
    ))
    &&& (!cli.dirs_first && cli.sort == crate::config::SortMode::Name ==> sorted_by_name_v(es))
    &&& (!cli.dirs_first && cli.sort == crate::config::SortMode::Unsorted ==> es == annotated)
}

/// Filters, annotates and sorts one directory's children into a frame.
///
/// `None` exactly when no child passes the pipeline. The frame's entries are
/// exactly the passing children (each exactly once, annotated with their
/// status symbol), in the configured order, as [`spec_pipeline_rel`]
/// describes: sorted by name when name-sorting is on; with directories-first
/// on, directory-pointing entries are stably partitioned ahead of the rest,
/// each class keeping its secondary order (the name order, or the listing
/// order when no sort is configured); otherwise in listing order.
pub fn prepare_frame(
    path: String,
    prefix: String,
    depth: usize,
    children: Vec<EntryMeta>,
    cli: &Cli,
    root: &str,
    inc: &Option<crate::pattern::PatternList>,
    exc: &Option<crate::pattern::PatternList>,
    filters: &crate::filters::Filters,
    git: &crate::gitmap::GitTracker,
) -> (r: Option<Frame>)
    ensures
        ({
            let kept = spec_kept_children(metas_view(children@), cli, root@, *inc, *exc, filters);
            let annotated = kept.map_values(
                |mv: EntryMetaV| crate::gitmap::spec_with_status(git, mv),
            );
            match r {
                Option::None => kept.len() == 0,
                Option::Some(f) => {
                    &&& f.path@ == path@
                    &&& f.prefix@ == prefix@
                    &&& f.depth == depth
                    &&& f.idx == 0
                    &&& spec_pipeline_rel(
                        metas_view(children@),
                        metas_view(f.entries@),
                        cli,
                        root@,
                        *inc,
                        *exc,
                        filters,
                        git,
                    )
                    &&& (forall|k: int|
                        0 <= k < f.entries@.len() ==> exists|j: int|
                            0 <= j < children@.len() && #[trigger] metas_view(f.entries@)[k]
                                == crate::gitmap::spec_with_status(git, #[trigger] children@[j]@))
                },
            }
        }),
{
    let ghost pass = |mv: EntryMetaV| spec_frame_pass(mv, cli, root@, *inc, *exc, filters);
    let mut kept: Vec<EntryMeta> = Vec::new();
    let mut i: usize = 0;
    proof {
        reveal(Seq::filter);
        assert(metas_view(children@).take(0) =~= Seq::<EntryMetaV>::empty());
        assert(metas_view(children@).take(0).filter(pass) =~= Seq::<EntryMetaV>::empty());
    }
    while i < children.len()
        invariant
            i <= children@.len(),
            pass == (|mv: EntryMetaV| spec_frame_pass(mv, cli, root@, *inc, *exc, filters)),
            metas_view(kept@) =~= metas_view(children@).take(i as int).filter(pass).map_values(
                |mv: EntryMetaV| crate::gitmap::spec_with_status(git, mv),
            ),
            forall|k: int|
                0 <= k < kept@.len() ==> exists|j: int|
                    0 <= j < children@.len() && #[trigger] metas_view(kept@)[k]
                        == crate::gitmap::spec_with_status(git, #[trigger] children@[j]@),
        decreases children@.len() - i,
    {
        let c = &children[i];
        let hidden_ok = cli.hidden || !crate::pattern::is_hidden(c.name.as_str());
        let type_ok = match c.file_type {
            Option::Some(ft) => crate::pattern::allow_type(ft, &cli.types),
            Option::None => true,
        };
        let glob_ok = crate::pattern::match_globs(root, c.path.as_str(), inc, exc, cli.match_mode);
        let filt_ok = filters.allows(c);
        let ghost pre = metas_view(children@).take(i as int).filter(pass);
        let ghost snext = metas_view(children@).take(i + 1);
        proof {
            assert(snext.len() == i + 1);
            assert(snext.drop_last() =~= metas_view(children@).take(i as int));
            assert(snext.last() == metas_view(children@)[i as int]);
            assert(metas_view(children@)[i as int] == children@[i as int]@);
        }
        if hidden_ok && type_ok && glob_ok && filt_ok {
            assert(pass(children@[i as int]@));
            let mut kc = children[i].clone();
            git.apply(&mut kc);
            let ghost kpre = metas_view(kept@);
            kept.push(kc);
            proof {
                reveal(Seq::filter);
                assert(pass(snext.last()));
                assert(snext.filter(pass) == snext.drop_last().filter(pass).push(snext.last()));
                assert(snext.filter(pass) == pre.push(children@[i as int]@));
                assert(metas_view(kept@) =~= kpre.push(
                    crate::gitmap::spec_with_status(git, children@[i as int]@),
                ));
                assert(metas_view(kept@) =~= snext.filter(pass).map_values(
                    |mv: EntryMetaV| crate::gitmap::spec_with_status(git, mv),
                ));
            }
        } else {
            assert(!pass(children@[i as int]@));
            proof {
                reveal(Seq::filter);
                assert(!pass(snext.last()));
                assert(snext.filter(pass) == snext.drop_last().filter(pass));
                assert(metas_view(kept@) =~= snext.filter(pass).map_values(
                    |mv: EntryMetaV| crate::gitmap::spec_with_status(git, mv),
                ));
            }
        }
        i = i + 1;
    }
    proof {
        assert(metas_view(children@).take(children@.len() as int) =~= metas_view(children@));
    }
    if kept.len() == 0 {
        proof {
            let keptv = metas_view(children@).filter(pass);
            assert(metas_view(kept@).len() == 0);
            assert(keptv.map_values(
                |mv: EntryMetaV| crate::gitmap::spec_with_status(git, mv),
            ).len() == keptv.len());
        }
        return Option::None;
    }
    let ghost annotated = metas_view(children@).filter(pass).map_values(
        |mv: EntryMetaV| crate::gitmap::spec_with_status(git, mv),
    );
    let ghost kept_src: Seq<EntryMetaV> = metas_view(kept@);
    let sorted_first: Vec<EntryMeta> = match cli.sort {
        crate::config::SortMode::Name => {
            let r = sort_by_name(kept);
            proof {
                assert forall|k: int| 0 <= k < metas_view(r@).len() implies exists|j: int|
                    0 <= j < children@.len() && #[trigger] metas_view(r@)[k]
                    == crate::gitmap::spec_with_status(git, #[trigger] children@[j]@) by {
                    lemma_perm_source(metas_view(r@), kept_src, k);
                }
            }
            r
        },
        crate::config::SortMode::Unsorted => kept,
    };
    let entries: Vec<EntryMeta> = if cli.dirs_first {
        match cli.sort {
            crate::config::SortMode::Name => {
                let r = sort_dirs_first(sorted_first);
                proof {
                    assert forall|k: int| 0 <= k < metas_view(r@).len() implies exists|j: int|
                        0 <= j < children@.len() && #[trigger] metas_view(r@)[k]
                        == crate::gitmap::spec_with_status(git, #[trigger] children@[j]@) by {
                        lemma_perm_source(metas_view(r@), kept_src, k);
                    }
                }
                r
            },
            crate::config::SortMode::Unsorted => {
                let r = partition_dirs_first(sorted_first);
                proof {
                    lemma_filter_split(
                        kept_src,
                        |mv: EntryMetaV| points_v(mv),
                        |mv: EntryMetaV| !points_v(mv),
                    );
                    assert forall|k: int| 0 <= k < metas_view(r@).len() implies exists|j: int|
                        0 <= j < children@.len() && #[trigger] metas_view(r@)[k]
                        == crate::gitmap::spec_with_status(git, #[trigger] children@[j]@) by {
                        lemma_perm_source(metas_view(r@), kept_src, k);
                    }
                }
                r
            },
        }
    } else {
        sorted_first
    };
    Option::Some(Frame { path, entries, idx: 0, prefix, depth, log_id: Ghost(0) })
}

/// One directory's listing in the in-memory model of the scanned subtree.
pub struct DirListing {
    pub path: String,
    pub entries: Vec<EntryMeta>,
}

/// An in-memory model of the subtree: the root's own metadata, the directory
/// the scan started from (if known), and a listing per readable directory. A
/// directory path without a listing models one that cannot be opened.
pub struct FsModel {
    pub root_path: String,
    pub root_meta: EntryMeta,
    pub cwd: Option<String>,
    pub dirs: Vec<DirListing>,
}

/// Canonical paths occurring in a listing.
pub open spec fn entry_canons(entries: Seq<EntryMeta>) -> Seq<Seq<char>>
    decreases entries.len(),
{
    if entries.len() == 0 {
        Seq::empty()
    } else {
        entry_canons(entries.drop_last()) + (match entries.last()@.canonical_path {
            Option::Some(c) => seq![c],
            Option::None => Seq::<Seq<char>>::empty(),
        })
    }
}

/// Canonical paths occurring anywhere in the model's listings.
pub open spec fn model_canons(dirs: Seq<DirListing>) -> Seq<Seq<char>>
    decreases dirs.len(),
{
    if dirs.len() == 0 {
        Seq::empty()
    } else {
        model_canons(dirs.drop_last()) + entry_canons(dirs.last().entries@)
    }
}

proof fn lemma_entry_canons_contains(entries: Seq<EntryMeta>, j: int)
    requires
        0 <= j < entries.len(),
    ensures
        match entries[j]@.canonical_path {
            Option::Some(c) => entry_canons(entries).contains(c),
            Option::None => true,
        },
    decreases entries.len(),
{
    if entries.len() > 0 {
        if j == entries.len() - 1 {
            match entries[j]@.canonical_path {
                Option::Some(c) => {
                    assert(entry_canons(entries).last() == c);
                },
                Option::None => {},
            }
        } else {
            lemma_entry_canons_contains(entries.drop_last(), j);
            assert(entries.drop_last()[j] == entries[j]);
            match entries[j]@.canonical_path {
                Option::Some(c) => {
                    let d = entry_canons(entries.drop_last());
                    let w = choose|w: int| 0 <= w < d.len() && d[w] == c;
                    assert(entry_canons(entries)[w] == c);
                },
                Option::None => {},
            }
        }
    }
}

proof fn lemma_model_canons_contains(dirs: Seq<DirListing>, i: int, j: int)
    requires
        0 <= i < dirs.len(),
        0 <= j < dirs[i].entries@.len(),
    ensures
        match dirs[i].entries@[j]@.canonical_path {
            Option::Some(c) => model_canons(dirs).contains(c),
            Option::None => true,
        },
    decreases dirs.len(),
{
    if i == dirs.len() - 1 {
        lemma_entry_canons_contains(dirs[i].entries@, j);
        match dirs[i].entries@[j]@.canonical_path {
            Option::Some(c) => {
                let e = entry_canons(dirs[i].entries@);
                let w = choose|w: int| 0 <= w < e.len() && e[w] == c;
                assert(model_canons(dirs)[model_canons(dirs.drop_last()).len() + w] == c);
            },
            Option::None => {},
        }
    } else {
        lemma_model_canons_contains(dirs.drop_last(), i, j);
        assert(dirs.drop_last()[i] == dirs[i]);
        match dirs[i].entries@[j]@.canonical_path {
            Option::Some(c) => {
                let d = model_canons(dirs.drop_last());
                let w = choose|w: int| 0 <= w < d.len() && d[w] == c;
                assert(model_canons(dirs)[w] == c);
            },
            Option::None => {},
        }
    }
}

/// A well-formed model: every entry that resolves to a directory carries a
/// canonical path (the resolver computes one for directories and symlinks).
pub open spec fn spec_model_wf(model: &FsModel) -> bool {
    forall|i: int, j: int|
        0 <= i < model.dirs@.len() && 0 <= j < model.dirs@[i].entries@.len()
            && spec_points_to_directory(#[trigger] model.dirs@[i].entries@[j]@)
            ==> model.dirs@[i].entries@[j]@.canonical_path is Some
}

/// Clones a listing's entries, preserving every view.
fn clone_metas(v: &Vec<EntryMeta>) -> (r: Vec<EntryMeta>)
    ensures
        metas_view(r@) =~= metas_view(v@),
{
    let mut out: Vec<EntryMeta> = Vec::new();
    let mut i: usize = 0;
    while i < v.len()
        invariant
            i <= v@.len(),
            out@.len() == i,
            forall|j: int| 0 <= j < i ==> out@[j]@ == v@[j]@,
        decreases v@.len() - i,
    {
        out.push(v[i].clone());
        i = i + 1;
    }
    out
}

impl FsModel {
    /// The listing recorded for `path`: `None` exactly when the model lists
    /// no directory under that path.
    pub fn read_dir(&self, path: &str) -> (r: Option<Vec<EntryMeta>>)
        ensures
            match r {
                Option::Some(es) => exists|i: int|
                    0 <= i < self.dirs@.len() && #[trigger] self.dirs@[i].path@ == path@
                        && metas_view(es@) == metas_view(self.dirs@[i].entries@),
                Option::None => forall|i: int|
                    0 <= i < self.dirs@.len() ==> (#[trigger] self.dirs@[i]).path@ != path@,
            },
    {
        let mut i: usize = 0;
        let n = self.dirs.len();
        while i < n
            invariant
                i <= n,
                n == self.dirs@.len(),
                forall|j: int| 0 <= j < i ==> (#[trigger] self.dirs@[j]).path@ != path@,
            decreases n - i,
        {
            if str_eq(self.dirs[i].path.as_str(), path) {
                let es = clone_metas(&self.dirs[i].entries);
                proof {
                    assert(self.dirs@[i as int].path@ == path@);
                }
                return Option::Some(es);
            }
            i = i + 1;
        }
        Option::None
    }
}

/// Mathematical view of a [`WalkItem`].
pub ghost struct WalkItemV {
    pub entry: crate::meta::EntryV,
    pub descend: bool,
    pub is_last: bool,
    pub prefix: Seq<char>,
    pub parent: Seq<char>,
    pub canon: Option<Seq<char>>,
}

/// One element of the traversal stream: the output entry, whether the engine
/// descends into it, its position among its siblings, the rendering prefix of
/// its line, and the directory that listed it. The ghost `canon` field keeps
/// the entry's canonical path, which the output projection drops but the
/// cycle policy decides on.
pub struct WalkItem {
    pub entry: Entry,
    pub descend: bool,
    pub is_last: bool,
    pub prefix: String,
    pub parent: String,
    pub canon: Ghost<Option<Seq<char>>>,
}

impl View for WalkItem {
    type V = WalkItemV;

    open spec fn view(&self) -> WalkItemV {
        WalkItemV {
            entry: self.entry@,
            descend: self.descend,
            is_last: self.is_last,
            prefix: self.prefix@,
            parent: self.parent@,
            canon: self.canon@,
        }
    }
}

/// What one opened frame contributed to the emitted stream: the directory's
/// identity, its prepared entries, the stream index of the item whose descent
/// opened it, and the stream index at which each entry was emitted, in cursor
/// order.
pub ghost struct FrameLog {
    pub path: Seq<char>,
    pub prefix: Seq<char>,
    pub depth: int,
    /// The canonical identity recorded in the visited set when this frame
    /// opened (the opening entry's canonical path); no two frames of one walk
    /// share it, so the same canonical directory is never listed twice.
    pub canon: Seq<char>,
    /// Stream index of the item whose descent opened this frame (0 for the
    /// frame the root itself opened). The frame's first entry is emitted at
    /// the very next stream index.
    pub opener: int,
    pub entries: Seq<EntryMetaV>,
    pub positions: Seq<int>,
}

/// The containment boundary of a walk over `model`, as a function of the
/// model alone.
pub open spec fn spec_guard(model: &FsModel) -> Option<Seq<char>> {
    spec_canonical_root(
        model.root_path@,
        model.root_meta@.canonical_path,
        crate::meta::opt_view(model.cwd),
    )
}

/// The canonical identity under which the root itself enters the visited set:
/// the containment boundary when one is known, the root path otherwise.
pub open spec fn spec_root_key(model: &FsModel) -> Seq<char> {
    match spec_guard(model) {
        Option::Some(c) => c,
        Option::None => model.root_path@,
    }
}

/// The visited set as it stands when the item at stream position `j` is
/// decided: the root's key, then the canonical path of every earlier non-root
/// item that descended, in stream order.
pub open spec fn visited_at(itemsv: Seq<WalkItemV>, j: int, root_key: Seq<char>) -> Seq<Seq<char>>
    decreases j,
{
    if j <= 1 {
        seq![root_key]
    } else {
        visited_at(itemsv, j - 1, root_key) + (if 0 <= j - 1 < itemsv.len() && itemsv[j
            - 1].descend {
            match itemsv[j - 1].canon {
                Option::Some(c) => seq![c],
                Option::None => Seq::<Seq<char>>::empty(),
            }
        } else {
            Seq::<Seq<char>>::empty()
        })
    }
}

/// Appending an item to the stream leaves every earlier decision's visited
/// set unchanged.
proof fn lemma_visited_at_push(itemsv: Seq<WalkItemV>, x: WalkItemV, root_key: Seq<char>, j: int)
    requires
        0 <= j <= itemsv.len(),
    ensures
        visited_at(itemsv.push(x), j, root_key) == visited_at(itemsv, j, root_key),
    decreases j,
{
    if j > 1 {
        lemma_visited_at_push(itemsv, x, root_key, j - 1);
        assert(itemsv.push(x)[j - 1] == itemsv[j - 1]);
    }
}

/// The children a directory's listing keeps after the filter pipeline's
/// per-entry screening.
pub open spec fn spec_kept_children(
    children: Seq<EntryMetaV>,
    cli: &Cli,
    root: Seq<char>,
    inc: Option<crate::pattern::PatternList>,
    exc: Option<crate::pattern::PatternList>,
    filters: &crate::filters::Filters,
) -> Seq<EntryMetaV> {
    children.filter(|mv: EntryMetaV| spec_frame_pass(mv, cli, root, inc, exc, filters))
}

/// The walk opens a frame for `path` whenever it descends into it: the model
/// lists the path, and every listing of it keeps at least one child after
/// screening.
pub open spec fn spec_opens(
    model: &FsModel,
    path: Seq<char>,
    cli: &Cli,
    inc: Option<crate::pattern::PatternList>,
    exc: Option<crate::pattern::PatternList>,
    filters: &crate::filters::Filters,
) -> bool {
    &&& exists|i: int| 0 <= i < model.dirs@.len() && (#[trigger] model.dirs@[i]).path@ == path
    &&& forall|i: int|
        0 <= i < model.dirs@.len() && (#[trigger] model.dirs@[i]).path@ == path
            ==> spec_kept_children(
            metas_view(model.dirs@[i].entries@),
            cli,
            model.root_path@,
            inc,
            exc,
            filters,
        ).len() > 0
}

/// Some log records the frame that the item at stream position `j` opened.
pub open spec fn some_log_opened_at(logs: Seq<FrameLog>, j: int) -> bool {
    exists|f: int| 0 <= f < logs.len() && (#[trigger] logs[f]).opener == j
}

/// Depth-first nesting of the logs' stream positions: a frame opened during
/// another frame's emission window is fully consumed before that window's
/// next emission. Together with the opener adjacency this pins the stream to
/// preorder: a frame's entries are interleaved only with their own subtrees.
pub open spec fn logs_nested(logs: Seq<FrameLog>) -> bool {
    forall|f1: int, f2: int, k1: int, k2: int|
        0 <= f1 < logs.len() && 0 <= f2 < logs.len() && 0 <= k1 < logs[f1].positions.len() && 0
            <= k2 < logs[f2].positions.len() && logs[f1].opener < logs[f2].opener
            < #[trigger] logs[f1].positions[k1] ==> #[trigger] logs[f2].positions[k2]
            < logs[f1].positions[k1]
}

/// A non-root frame log was opened by the stream item at its `opener`
/// position: that item descends, names the log's directory and canonical
/// identity, and hands down its depth and rendering prefix.
pub open spec fn frame_opened_at(log: FrameLog, itemsv: Seq<WalkItemV>) -> bool {
    &&& 1 <= log.opener < itemsv.len()
    &&& itemsv[log.opener].descend
    &&& itemsv[log.opener].entry.path == log.path
    &&& itemsv[log.opener].canon == Option::Some(log.canon)
    &&& log.depth == itemsv[log.opener].entry.depth + 1
    &&& log.prefix == spec_child_prefix(itemsv[log.opener].prefix, itemsv[log.opener].is_last)
}

/// The frame behind a log was built by the filter pipeline from the model's
/// listing of its path.
pub open spec fn frame_log_from_model(
    log: FrameLog,
    model: &FsModel,
    cli: &Cli,
    inc: Option<crate::pattern::PatternList>,
    exc: Option<crate::pattern::PatternList>,
    filters: &crate::filters::Filters,
    git: &crate::gitmap::GitTracker,
) -> bool {
    exists|i: int|
        0 <= i < model.dirs@.len() && (#[trigger] model.dirs@[i]).path@ == log.path
            && spec_pipeline_rel(
            metas_view(model.dirs@[i].entries@),
            log.entries,
            cli,
            model.root_path@,
            inc,
            exc,
            filters,
            git,
        )
}

/// The item at stream position `j` realizes frame slot `k`: it carries the
/// frame's path, prefix and depth, the cursor's last-sibling position, and is
/// exactly the slot's metadata projected after the engine's decision for it —
/// [`spec_decide`] evaluated against the visited set as it stands at `j`.
pub open spec fn item_matches_slot(
    itemsv: Seq<WalkItemV>,
    j: int,
    log: FrameLog,
    k: int,
    model: &FsModel,
    cli: &Cli,
) -> bool {
    let it = itemsv[j];
    let dec = spec_decide(
        log.entries[k],
        visited_at(itemsv, j, spec_root_key(model)),
        cli.follow_symlinks,
        spec_guard(model),
        log.depth,
        cli.max_depth,
    );
    &&& it.parent == log.path
    &&& it.prefix == log.prefix
    &&& it.is_last == (k == log.entries.len() - 1)
    &&& it.entry == spec_entry_of(spec_meta_after(log.entries[k], dec), log.depth)
    &&& it.descend == dec.descend
    &&& it.canon == log.entries[k].canonical_path
}

/// The recorded positions agree with the emitted stream: each lies past the
/// root item, they strictly increase in cursor order, the frame's first entry
/// is emitted right after the item that opened the frame, and the item at
/// each position realizes its slot.
pub open spec fn frame_log_stream_wf(
    log: FrameLog,
    itemsv: Seq<WalkItemV>,
    model: &FsModel,
    cli: &Cli,
) -> bool {
    &&& log.positions.len() <= log.entries.len()
    &&& forall|k: int|
        0 <= k < log.positions.len() ==> 1 <= #[trigger] log.positions[k] < itemsv.len()
    &&& forall|k1: int, k2: int|
        0 <= k1 < k2 < log.positions.len() ==> #[trigger] log.positions[k1]
            < #[trigger] log.positions[k2]
    &&& (log.positions.len() > 0 ==> log.positions[0] == log.opener + 1)
    &&& forall|k: int|
        0 <= k < log.positions.len() ==> item_matches_slot(
            itemsv,
            #[trigger] log.positions[k],
            log,
            k,
            model,
            cli,
        )
}

/// A finished log: the whole frame was consumed, one stream position per
/// entry, in cursor order.
pub open spec fn frame_log_wf(
    log: FrameLog,
    itemsv: Seq<WalkItemV>,
    model: &FsModel,
    cli: &Cli,
) -> bool {
    &&& frame_log_stream_wf(log, itemsv, model, cli)
    &&& log.positions.len() == log.entries.len()
}

/// All stream positions the logs claim, in log order.
pub open spec fn logs_positions(logs: Seq<FrameLog>) -> Seq<int>
    decreases logs.len(),
{
    if logs.len() == 0 {
        Seq::empty()
    } else {
        logs_positions(logs.drop_last()) + logs.last().positions
    }
}

/// The integers from `a` (inclusive) to `b` (exclusive).
pub open spec fn idx_range(a: int, b: int) -> Seq<int> {
    Seq::new(if b >= a {
        (b - a) as nat
    } else {
        0
    }, |i: int| a + i)
}

proof fn lemma_logs_positions_push(logs: Seq<FrameLog>, log: FrameLog)
    ensures
        logs_positions(logs.push(log)) == logs_positions(logs) + log.positions,
{
    assert(logs.push(log).drop_last() =~= logs);
    assert(logs.push(log).last() == log);
}

proof fn lemma_logs_positions_append(logs: Seq<FrameLog>, lid: int, j: int)
    requires
        0 <= lid < logs.len(),
    ensures
        logs_positions(
            logs.update(
                lid,
                FrameLog { positions: logs[lid].positions.push(j), ..logs[lid] },
            ),
        ).to_multiset() == logs_positions(logs).to_multiset().insert(j),
    decreases logs.len(),
{
    broadcast use vstd::seq_lib::group_to_multiset_ensures;

    let upd = logs.update(lid, FrameLog { positions: logs[lid].positions.push(j), ..logs[lid] });
    let d = logs.drop_last();
    vstd::seq_lib::lemma_multiset_commutative(logs_positions(d), logs.last().positions);
    if lid == logs.len() - 1 {
        assert(upd.drop_last() =~= d);
        assert(upd.last() == FrameLog { positions: logs[lid].positions.push(j), ..logs[lid] });
        vstd::seq_lib::lemma_multiset_commutative(
            logs_positions(d),
            logs.last().positions.push(j),
        );
        assert(logs_positions(upd).to_multiset() =~= logs_positions(logs).to_multiset().insert(j));
    } else {
        let dupd = d.update(lid, FrameLog { positions: d[lid].positions.push(j), ..d[lid] });
        assert(upd.drop_last() =~= dupd);
        assert(upd.last() == logs.last());
        lemma_logs_positions_append(d, lid, j);
        vstd::seq_lib::lemma_multiset_commutative(logs_positions(dupd), logs.last().positions);
        assert(logs_positions(upd).to_multiset() =~= logs_positions(logs).to_multiset().insert(j));
    }
}

/// Stream log ids of the open frames, bottom of the stack first.
pub open spec fn stack_log_ids(stack: Seq<Frame>) -> Seq<int> {
    stack.map_values(|f: Frame| f.log_id@)
}

/// View of a traversal stream.
pub open spec fn items_view(s: Seq<WalkItem>) -> Seq<WalkItemV> {
    s.map_values(|it: WalkItem| it@)
}

/// Entries not yet consumed across the whole stack.
pub open spec fn frames_remaining(stack: Seq<Frame>) -> int
    decreases stack.len(),
{
    if stack.len() == 0 {
        0
    } else {
        frames_remaining(stack.drop_last()) + (stack.last().entries@.len() - stack.last().idx)
    }
}

proof fn lemma_frames_remaining_nonneg(stack: Seq<Frame>)
    requires
        forall|fi: int| 0 <= fi < stack.len() ==> (#[trigger] stack[fi]).idx
            <= stack[fi].entries@.len(),
    ensures
        frames_remaining(stack) >= 0,
    decreases stack.len(),
{
    if stack.len() > 0 {
        let d = stack.drop_last();
        assert(forall|fi: int| 0 <= fi < d.len() ==> d[fi] == stack[fi]);
        lemma_frames_remaining_nonneg(d);
    }
}

/// The root item the walk emits first.
pub open spec fn spec_root_item(model: &FsModel, git: &crate::gitmap::GitTracker) -> WalkItemV {
    WalkItemV {
        entry: spec_entry_of(
            crate::gitmap::spec_with_status(git, model.root_meta@),
            0,
        ),
        descend: spec_points_to_directory(model.root_meta@),
        is_last: true,
        prefix: Seq::empty(),
        parent: Seq::empty(),
        canon: model.root_meta@.canonical_path,
    }
}

/// Walks the modelled subtree depth-first with an explicit frame stack.
///
/// The root is emitted once, unconditionally; an item whose loop flag is set
/// is never descended into. The returned frame logs decompose the stream:
/// every opened directory contributes one log whose entries are exactly what
/// the pipeline keeps of its model listing ([`spec_pipeline_rel`]), the item
/// positions of each log strictly increase (each frame is consumed in
/// order), the positions of all logs together cover every non-root item
/// exactly once, and no two logs share a canonical identity — the same
/// canonical directory is never listed twice. Each item at a log position is
/// the slot's metadata after the exact engine decision for it, evaluated
/// against the visited set at that point ([`item_matches_slot`]).
///
/// The logs also pin the stream's shape and extent. The first log, when any
/// exists, is the root's own listing; every later log is opened by the
/// stream item at its `opener` position ([`frame_opened_at`]), and a frame's
/// first entry is emitted right after its opener. Conversely a frame is
/// always opened where one can be: when the root descends and the model
/// lists the root with surviving children ([`spec_opens`]), the root log
/// exists; and every emitted item that descends into a path the model lists
/// with surviving children is the opener of some log.
///
/// The walk terminates on cyclic models: each opened frame records a fresh
/// canonical path in the visited set, which never shrinks and is bounded by
/// the model.
#[verifier::rlimit(100)]
pub fn walk(
    model: &FsModel,
    cli: &Cli,
    inc: &Option<crate::pattern::PatternList>,
    exc: &Option<crate::pattern::PatternList>,
    filters: &crate::filters::Filters,
    git: &crate::gitmap::GitTracker,
) -> (r: (Vec<WalkItem>, Ghost<Seq<FrameLog>>))
    requires
        spec_model_wf(model),
        !model.root_meta@.loop_detected,
    ensures
        r.0@.len() >= 1,
        r.0@[0]@ == spec_root_item(model, git),
        forall|i: int|
            0 <= i < r.0@.len() ==> ((#[trigger] r.0@[i])@.entry.loop_detected
                ==> !r.0@[i]@.descend),
        forall|f: int|
            0 <= f < r.1@.len() ==> frame_log_from_model(
                #[trigger] r.1@[f],
                model,
                cli,
                *inc,
                *exc,
                filters,
                git,
            ) && frame_log_wf(r.1@[f], items_view(r.0@), model, cli),
        forall|f1: int, f2: int|
            0 <= f1 < f2 < r.1@.len() ==> (#[trigger] r.1@[f1]).canon != (#[trigger] r.1@[f2]).canon,
        logs_positions(r.1@).to_multiset() == idx_range(1, r.0@.len() as int).to_multiset(),
        r.1@.len() > 0 ==> (r.1@[0].opener == 0 && r.1@[0].path == model.root_path@
            && r.1@[0].canon == spec_root_key(model) && r.1@[0].depth == 1 && r.1@[0].prefix
            == Seq::<char>::empty()),
        forall|f: int|
            1 <= f < r.1@.len() ==> frame_opened_at(#[trigger] r.1@[f], items_view(r.0@)),
        (spec_points_to_directory(model.root_meta@) && cli.max_depth != Option::<usize>::Some(1)
            && spec_opens(model, model.root_path@, cli, *inc, *exc, filters)) ==> r.1@.len() > 0,
        forall|j: int|
            1 <= j < r.0@.len() && (#[trigger] items_view(r.0@)[j]).descend && spec_opens(
                model,
                items_view(r.0@)[j].entry.path,
                cli,
                *inc,
                *exc,
                filters,
            ) ==> some_log_opened_at(r.1@, j),
        logs_nested(r.1@),
{
    broadcast use vstd::seq_lib::group_to_multiset_ensures;

    let mut root_meta = model.root_meta.clone();
    git.apply(&mut root_meta);
    let root_security = canonical_root_for_security(
        model.root_path.as_str(),
        &root_meta,
        &model.cwd,
    );
    let mut visited = VisitedSet::new();
    match crate::meta::clone_opt_string(&root_security) {
        Option::Some(canon) => visited.insert(canon),
        Option::None => visited.insert(model.root_path.clone()),
    }
    let ghost root_key = visited@[0];
    let ghost universe = (seq![root_key] + model_canons(model.dirs@)).to_set();
    proof {
        broadcast use vstd::seq_lib::seq_to_set_is_finite;

        assert((seq![root_key] + model_canons(model.dirs@))[0] == root_key);
        assert(universe.contains(root_key));
    }

    let ghost mut logs: Seq<FrameLog> = Seq::empty();
    let mut items: Vec<WalkItem> = Vec::new();
    let root_entry = Entry::from_meta(&root_meta, 0);
    let root_descend = root_meta.points_to_directory();
    items.push(
        WalkItem {
            entry: root_entry,
            descend: root_descend,
            is_last: true,
            prefix: String::new(),
            parent: String::new(),
            canon: Ghost(model.root_meta@.canonical_path),
        },
    );
    proof {
        assert(items@[0]@ == spec_root_item(model, git));
        assert(items@[0]@.entry.loop_detected == model.root_meta@.loop_detected);
        assert(logs_positions(logs) =~= Seq::<int>::empty());
        assert(idx_range(1, 1) =~= Seq::<int>::empty());
        assert(logs_positions(logs).to_multiset() =~= idx_range(1, 1).to_multiset());
        assert(opt_view(root_security) == spec_guard(model));
        assert(root_key == spec_root_key(model));
        assert(visited@ =~= visited_at(items_view(items@), 1, root_key));
        assert(root_descend == spec_points_to_directory(model.root_meta@));
    }

    let depth_limited = match cli.max_depth {
        Option::Some(d) => d == 1,
        Option::None => false,
    };
    if !root_descend || depth_limited {
        return (items, Ghost(logs));
    }

    let mut stack: Vec<Frame> = Vec::new();
    match model.read_dir(model.root_path.as_str()) {
        Option::Some(children) => {
            let ghost childrenv = children@;
            proof {
                lemma_listing_in_universe(model, model.root_path@, children@, universe, root_key);
            }
            match prepare_frame(
                model.root_path.clone(),
                String::new(),
                1,
                children,
                cli,
                model.root_path.as_str(),
                inc,
                exc,
                filters,
                git,
            ) {
                Option::Some(f) => {
                    let mut f = f;
                    f.log_id = Ghost(0);
                    let ghost new_log = FrameLog {
                        path: f.path@,
                        prefix: f.prefix@,
                        depth: f.depth as int,
                        canon: root_key,
                        opener: 0,
                        entries: metas_view(f.entries@),
                        positions: Seq::empty(),
                    };
                    proof {
                        logs = logs.push(new_log);
                        assert(logs[0].opener == 0 && logs[0].path == model.root_path@
                            && logs[0].canon == root_key && logs[0].depth == 1);
                        assert(logs[0].prefix =~= Seq::<char>::empty());
                        let i = choose|i: int|
                            0 <= i < model.dirs@.len() && #[trigger] model.dirs@[i].path@
                                == model.root_path@ && metas_view(childrenv) == metas_view(
                                model.dirs@[i].entries@,
                            );
                        assert(spec_pipeline_rel(
                            metas_view(model.dirs@[i].entries@),
                            new_log.entries,
                            cli,
                            model.root_path@,
                            *inc,
                            *exc,
                            filters,
                            git,
                        ));
                        assert(frame_log_from_model(new_log, model, cli, *inc, *exc, filters, git));
                        lemma_logs_positions_push(Seq::empty(), new_log);
                        assert(logs_positions(logs) =~= Seq::<int>::empty());
                    }
                    stack.push(f);
                    proof {
                        assert(stack@.len() == 1 && stack@[0] == f);
                        assert(stack_log_ids(stack@)[0] == 0);
                        assert(stack_log_ids(stack@).contains(0));
                        assert forall|k: int|
                            0 <= k < f.entries@.len() implies (match (
                        #[trigger] f.entries@[k])@.canonical_path {
                            Option::Some(c) => universe.contains(c),
                            Option::None => true,
                        }) && (spec_points_to_directory(f.entries@[k]@)
                            ==> f.entries@[k]@.canonical_path is Some) by {
                            assert(metas_view(f.entries@)[k] == f.entries@[k]@);
                            let j = choose|j: int|
                                0 <= j < childrenv.len() && metas_view(f.entries@)[k]
                                    == crate::gitmap::spec_with_status(git, childrenv[j]@);
                            assert(f.entries@[k]@.canonical_path == childrenv[j]@.canonical_path);
                            assert(spec_points_to_directory(f.entries@[k]@)
                                == spec_points_to_directory(childrenv[j]@));
                        }
                        assert(stack@[0].idx == 0);
                        assert(logs[stack@[0].log_id@].opener == 0 == items@.len() - 1);
                    }
                },
                Option::None => {
                    proof {
                        if spec_opens(model, model.root_path@, cli, *inc, *exc, filters) {
                            let i = choose|i: int|
                                0 <= i < model.dirs@.len() && #[trigger] model.dirs@[i].path@
                                    == model.root_path@ && metas_view(childrenv) == metas_view(
                                    model.dirs@[i].entries@,
                                );
                            assert(spec_kept_children(
                                metas_view(model.dirs@[i].entries@),
                                cli,
                                model.root_path@,
                                *inc,
                                *exc,
                                filters,
                            ).len() > 0);
                            assert(false);
                        }
                    }
                },
            }
        },
        Option::None => {
            proof {
                assert(!spec_opens(model, model.root_path@, cli, *inc, *exc, filters));
            }
        },
    }

    while stack.len() > 0
        invariant
            visited@.no_duplicates(),
            visited@.len() >= 1,
            universe.finite(),
            forall|k: int| 0 <= k < visited@.len() ==> universe.contains(#[trigger] visited@[k]),
            visited@.len() <= universe.len(),
            universe == (seq![root_key] + model_canons(model.dirs@)).to_set(),
            spec_model_wf(model),
            forall|fi: int|
                0 <= fi < stack@.len() ==> (#[trigger] stack@[fi]).idx <= stack@[fi].entries@.len(),
            forall|fi: int, k: int|
                0 <= fi < stack@.len() && stack@[fi].idx <= k < stack@[fi].entries@.len()
                    ==> (match (#[trigger] stack@[fi].entries@[k])@.canonical_path {
                    Option::Some(c) => universe.contains(c),
                    Option::None => true,
                }),
            forall|fi: int, k: int|
                0 <= fi < stack@.len() && stack@[fi].idx <= k < stack@[fi].entries@.len()
                    && spec_points_to_directory((#[trigger] stack@[fi].entries@[k])@)
                    ==> stack@[fi].entries@[k]@.canonical_path is Some,
            forall|fi: int| 0 <= fi < stack@.len() ==> (#[trigger] stack@[fi]).depth
                <= visited@.len(),
            items@.len() >= 1,
            items@[0]@ == spec_root_item(model, git),
            forall|i: int|
                0 <= i < items@.len() ==> ((#[trigger] items@[i])@.entry.loop_detected
                    ==> !items@[i]@.descend),
            forall|fi: int|
                0 <= fi < stack@.len() ==> {
                    let f = #[trigger] stack@[fi];
                    &&& 0 <= f.log_id@ < logs.len()
                    &&& logs[f.log_id@].path == f.path@
                    &&& logs[f.log_id@].prefix == f.prefix@
                    &&& logs[f.log_id@].depth == f.depth as int
                    &&& logs[f.log_id@].entries == metas_view(f.entries@)
                    &&& logs[f.log_id@].positions.len() == f.idx as int
                },
            forall|s1: int, s2: int|
                0 <= s1 < s2 < stack@.len() ==> (#[trigger] stack@[s1]).log_id@
                    < (#[trigger] stack@[s2]).log_id@,
            forall|lid: int|
                0 <= lid < logs.len() && !stack_log_ids(stack@).contains(lid)
                    ==> (#[trigger] logs[lid]).positions.len() == logs[lid].entries.len(),
            forall|lid: int|
                0 <= lid < logs.len() ==> frame_log_from_model(
                    #[trigger] logs[lid],
                    model,
                    cli,
                    *inc,
                    *exc,
                    filters,
                    git,
                ),
            forall|lid: int|
                0 <= lid < logs.len() ==> frame_log_stream_wf(
                    #[trigger] logs[lid],
                    items_view(items@),
                    model,
                    cli,
                ),
            forall|lid: int|
                0 <= lid < logs.len() ==> visited@.contains((#[trigger] logs[lid]).canon),
            forall|l1: int, l2: int|
                0 <= l1 < l2 < logs.len() ==> (#[trigger] logs[l1]).canon
                    != (#[trigger] logs[l2]).canon,
            logs_positions(logs).to_multiset() == idx_range(1, items@.len() as int).to_multiset(),
            opt_view(root_security) == spec_guard(model),
            root_key == spec_root_key(model),
            visited@ == visited_at(items_view(items@), items@.len() as int, root_key),
            forall|si: int| 0 <= si < stack@.len() - 1 ==> (#[trigger] stack@[si]).idx >= 1,
            forall|si: int|
                0 <= si < stack@.len() && (#[trigger] stack@[si]).idx == 0
                    ==> logs[stack@[si].log_id@].opener == items@.len() - 1,
            logs.len() > 0 ==> (logs[0].opener == 0 && logs[0].path == model.root_path@
                && logs[0].canon == root_key && logs[0].depth == 1 && logs[0].prefix
                == Seq::<char>::empty()),
            forall|lid: int|
                1 <= lid < logs.len() ==> frame_opened_at(
                    #[trigger] logs[lid],
                    items_view(items@),
                ),
            (spec_points_to_directory(model.root_meta@) && cli.max_depth != Option::<usize>::Some(1)
                && spec_opens(model, model.root_path@, cli, *inc, *exc, filters)) ==> logs.len()
                > 0,
            forall|j2: int|
                1 <= j2 < items@.len() && (#[trigger] items_view(items@)[j2]).descend && spec_opens(
                    model,
                    items_view(items@)[j2].entry.path,
                    cli,
                    *inc,
                    *exc,
                    filters,
                ) ==> some_log_opened_at(logs, j2),
            forall|l1: int, l2: int|
                0 <= l1 < l2 < logs.len() ==> (#[trigger] logs[l1]).opener
                    < (#[trigger] logs[l2]).opener,
            forall|lid: int|
                0 <= lid < logs.len() ==> 0 <= (#[trigger] logs[lid]).opener < items@.len(),
            logs_nested(logs),
            forall|si: int, g: int, k2: int|
                0 <= si < stack@.len() && 0 <= g < logs.len() && 0 <= k2
                    < logs[g].positions.len() && logs[g].opener
                    < logs[(#[trigger] stack@[si]).log_id@].opener
                    ==> #[trigger] logs[g].positions[k2]
                    <= logs[stack@[si].log_id@].opener,
        decreases universe.len() - visited@.len(), frames_remaining(stack@), stack@.len(),
    {
        let ghost stack_pre = stack@;
        let ghost logs_pre = logs;
        let mut frame = stack.pop().unwrap();
        proof {
            assert(stack@ =~= stack_pre.drop_last());
            assert(forall|fi: int| 0 <= fi < stack@.len() ==> stack@[fi] == stack_pre[fi]);
            assert(forall|fi: int|
                0 <= fi < stack@.len() ==> stack_log_ids(stack@)[fi] == stack_log_ids(
                    stack_pre,
                )[fi]);
            assert(frame == stack_pre.last());
            assert(frames_remaining(stack_pre) == frames_remaining(stack@) + (
            frame.entries@.len() - frame.idx));
            lemma_frames_remaining_nonneg(stack@);
        }
        if frame.idx >= frame.entries.len() {
            proof {
                assert(frame.idx <= frame.entries@.len());
                assert(frames_remaining(stack@) == frames_remaining(stack_pre));
                assert forall|lid: int|
                    0 <= lid < logs.len() && !stack_log_ids(stack@).contains(
                        lid,
                    ) implies (#[trigger] logs[lid]).positions.len()
                    == logs[lid].entries.len() by {
                    if lid == frame.log_id@ {
                        assert(logs[lid].positions.len() == frame.idx as int);
                        assert(logs[lid].entries == metas_view(frame.entries@));
                    } else {
                        if stack_log_ids(stack_pre).contains(lid) {
                            let si = choose|si: int|
                                0 <= si < stack_pre.len() && stack_log_ids(stack_pre)[si] == lid;
                            assert(si < stack_pre.len() - 1);
                            assert(stack_log_ids(stack@)[si] == lid);
                            assert(stack_log_ids(stack@).contains(lid));
                            assert(false);
                        }
                    }
                }
                assert forall|si: int| 0 <= si < stack@.len() implies (#[trigger] stack@[si]).idx
                    >= 1 by {
                    assert(stack@[si] == stack_pre[si]);
                }
            }
            continue;
        }
        let idx = frame.idx;
        let is_last = idx + 1 == frame.entries.len();
        let m = frame.entries[idx].clone();
        let ghost mv = m@;
        proof {
            assert(mv == stack_pre.last().entries@[idx as int]@);
            assert(mv == logs[frame.log_id@].entries[idx as int]);
        }
        frame.idx = idx + 1;
        let ghost visited_pre = visited@;
        let (m2, entry, descend, child_prefix) = handle_entry(
            m,
            frame.prefix.as_str(),
            frame.depth,
            is_last,
            cli,
            &mut visited,
            &root_security,
        );
        let ghost dec = spec_decide(
            mv,
            visited_pre,
            cli.follow_symlinks,
            opt_view(root_security),
            frame.depth as int,
            cli.max_depth,
        );
        proof {
            if descend {
                assert(dec.descend);
                if mv.is_symlink {
                    assert(dec.record is Some);
                } else {
                    assert(spec_points_to_directory(mv));
                    assert(mv.canonical_path is Some);
                    assert(dec.record is Some);
                }
                let c = dec.record->0;
                assert(mv.canonical_path == Option::Some(c));
                assert(universe.contains(c));
                assert(!visited_pre.contains(c));
                assert(visited@ == visited_pre.push(c));
                assert forall|a: int, b: int| 0 <= a < b < visited@.len() implies visited@[a]
                    != visited@[b] by {
                    if b == visited@.len() - 1 {
                        assert(visited@[a] == visited_pre[a]);
                        assert(visited_pre.contains(visited_pre[a]));
                    }
                }
                assert(visited@.no_duplicates());
                assert forall|k: int| 0 <= k < visited@.len() implies universe.contains(
                    #[trigger] visited@[k],
                ) by {
                    if k < visited@.len() - 1 {
                        assert(visited@[k] == visited_pre[k]);
                    }
                }
                lemma_visited_bound(visited@, universe);
                assert forall|l2: int| 0 <= l2 < logs.len() implies visited@.contains(
                    (#[trigger] logs[l2]).canon,
                ) by {
                    let w = choose|w: int|
                        0 <= w < visited_pre.len() && visited_pre[w] == logs[l2].canon;
                    assert(visited@[w] == logs[l2].canon);
                }
            } else {
                assert(visited@ == visited_pre);
            }
        }
        let ghost items_pre = items_view(items@);
        let ghost j = items@.len() as int;
        items.push(
            WalkItem {
                entry,
                descend,
                is_last,
                prefix: frame.prefix.clone(),
                parent: frame.path.clone(),
                canon: Ghost(mv.canonical_path),
            },
        );
        let ghost lid = frame.log_id@;
        proof {
            broadcast use vstd::seq_lib::group_to_multiset_ensures;

            assert(items_view(items@) =~= items_pre.push(items@[j]@));
            assert forall|p: int| 0 <= p <= items_pre.len() implies visited_at(
                items_view(items@),
                p,
                root_key,
            ) == visited_at(items_pre, p, root_key) by {
                lemma_visited_at_push(items_pre, items@[j]@, root_key, p);
            }
            // The visited set stays the reconstruction from the stream.
            assert(visited_pre == visited_at(items_view(items@), j, root_key));
            assert(items@[j]@.descend == dec.descend && items@[j]@.canon == mv.canonical_path);
            if descend {
                assert(visited@ =~= visited_pre.push(dec.record->0));
                assert(mv.canonical_path == Option::Some(dec.record->0));
                assert(visited@ =~= visited_at(items_view(items@), j + 1, root_key));
            } else {
                assert(visited@ =~= visited_at(items_view(items@), j + 1, root_key));
            }
            let upd = FrameLog { positions: logs[lid].positions.push(j), ..logs[lid] };
            lemma_logs_positions_append(logs, lid, j);
            logs = logs.update(lid, upd);
            assert(forall|l2: int|
                0 <= l2 < logs.len() ==> (#[trigger] logs[l2]).canon == logs_pre[l2].canon
                    && logs[l2].opener == logs_pre[l2].opener && logs[l2].path == logs_pre[l2].path
                    && logs[l2].prefix == logs_pre[l2].prefix && logs[l2].depth
                    == logs_pre[l2].depth && logs[l2].entries == logs_pre[l2].entries);
            assert forall|l2: int| 0 <= l2 < logs.len() implies visited@.contains(
                (#[trigger] logs[l2]).canon,
            ) by {
                assert(logs[l2].canon == logs_pre[l2].canon);
            }
            assert(idx_range(1, j + 1) =~= idx_range(1, j).push(j));
            assert(idx_range(1, j).push(j).to_multiset() =~= idx_range(1, j).to_multiset().insert(
                j,
            ));
            assert(idx_range(1, j + 1).to_multiset() =~= idx_range(1, j).to_multiset().insert(j));
            assert(logs_positions(logs).to_multiset() == idx_range(
                1,
                items@.len() as int,
            ).to_multiset());
            // The fresh position realizes its slot, under the exact decision.
            assert(items@[j]@.entry == spec_entry_of(spec_meta_after(mv, dec), frame.depth as int));
            assert(mv == logs[lid].entries[idx as int]);
            assert(logs[lid].depth == frame.depth as int);
            assert(dec == spec_decide(
                logs[lid].entries[idx as int],
                visited_at(items_view(items@), j, root_key),
                cli.follow_symlinks,
                spec_guard(model),
                logs[lid].depth,
                cli.max_depth,
            ));
            assert(item_matches_slot(items_view(items@), j, logs[lid], idx as int, model, cli));
            assert(items_view(items@)[j].descend == descend);
            // Every earlier descending item keeps the log it opened.
            assert forall|j2: int|
                1 <= j2 < j && (#[trigger] items_view(items@)[j2]).descend && spec_opens(
                    model,
                    items_view(items@)[j2].entry.path,
                    cli,
                    *inc,
                    *exc,
                    filters,
                ) implies some_log_opened_at(logs, j2) by {
                assert(items_view(items@)[j2] == items_pre[j2]);
                assert(items_pre[j2].descend && spec_opens(
                    model,
                    items_pre[j2].entry.path,
                    cli,
                    *inc,
                    *exc,
                    filters,
                ));
                assert(some_log_opened_at(logs_pre, j2));
                let lid2 = choose|lid2: int|
                    0 <= lid2 < logs_pre.len() && (#[trigger] logs_pre[lid2]).opener == j2;
                assert(logs[lid2].opener == j2);
                assert(some_log_opened_at(logs, j2));
            }
            // The root's log keeps its identity; later logs keep their openers.
            assert forall|lid2: int| 1 <= lid2 < logs.len() implies frame_opened_at(
                #[trigger] logs[lid2],
                items_view(items@),
            ) by {
                assert(frame_opened_at(logs_pre[lid2], items_pre));
                assert(items_view(items@)[logs[lid2].opener] == items_pre[logs_pre[lid2].opener]);
            }
            // Every position recorded before this emission lies below it.
            assert forall|g: int, k2: int|
                0 <= g < logs_pre.len() && 0 <= k2
                    < logs_pre[g].positions.len() implies #[trigger] logs_pre[g].positions[k2]
                < j by {
                assert(frame_log_stream_wf(logs_pre[g], items_pre, model, cli));
            }
            // The frame being consumed holds the largest opener on the stack.
            assert(stack_pre[stack_pre.len() - 1].log_id@ == lid);
            assert forall|g: int, k2: int|
                0 <= g < logs.len() && 0 <= k2 < logs[g].positions.len() && logs[g].opener
                    < logs[lid].opener implies #[trigger] logs[g].positions[k2]
                <= logs[lid].opener by {
                assert(g != lid);
                assert(logs[g].positions[k2] == logs_pre[g].positions[k2]);
            }
            assert forall|f1: int, f2: int, k1: int, k2: int|
                0 <= f1 < logs.len() && 0 <= f2 < logs.len() && 0 <= k1
                    < logs[f1].positions.len() && 0 <= k2 < logs[f2].positions.len()
                    && logs[f1].opener < logs[f2].opener
                    < logs[f1].positions[k1] implies #[trigger] logs[f2].positions[k2]
                < #[trigger] logs[f1].positions[k1] by {
                let fresh1 = f1 == lid && k1 == logs[lid].positions.len() - 1;
                let fresh2 = f2 == lid && k2 == logs[lid].positions.len() - 1;
                if fresh1 {
                    assert(logs[f1].positions[k1] == j);
                    if !fresh2 {
                        assert(logs[f2].positions[k2] == logs_pre[f2].positions[k2]);
                    }
                } else {
                    assert(logs[f1].positions[k1] == logs_pre[f1].positions[k1]);
                    if fresh2 {
                        // The top frame's opener dominates every older
                        // frame's recorded positions, so this pair is void.
                        assert(logs[f2].positions[k2] == j);
                        assert(logs[f1].opener < logs[lid].opener);
                        assert(logs[f1].positions[k1] <= logs[lid].opener);
                        assert(false);
                    } else {
                        assert(logs[f2].positions[k2] == logs_pre[f2].positions[k2]);
                        assert(logs_nested(logs_pre));
                    }
                }
            }
            assert(logs_nested(logs));
            assert forall|l2: int| 0 <= l2 < logs.len() implies frame_log_stream_wf(
                #[trigger] logs[l2],
                items_view(items@),
                model,
                cli,
            ) by {
                assert(forall|p: int|
                    0 <= p < items_pre.len() ==> items_view(items@)[p] == items_pre[p]);
                if l2 != lid {
                    assert(logs[l2] == logs_pre[l2]);
                    assert(frame_log_stream_wf(logs_pre[l2], items_pre, model, cli));
                    assert forall|k: int| 0 <= k < logs[l2].positions.len() implies item_matches_slot(
                        items_view(items@),
                        #[trigger] logs[l2].positions[k],
                        logs[l2],
                        k,
                        model,
                        cli,
                    ) by {
                        assert(item_matches_slot(
                            items_pre,
                            logs_pre[l2].positions[k],
                            logs_pre[l2],
                            k,
                            model,
                            cli,
                        ));
                        assert(logs[l2].positions[k] < items_pre.len());
                    }
                } else {
                    assert(frame_log_stream_wf(logs_pre[lid], items_pre, model, cli));
                    assert forall|k: int|
                        0 <= k < logs[lid].positions.len() implies 1 <= #[trigger] logs[lid].positions[k]
                        < items_view(items@).len() && item_matches_slot(
                        items_view(items@),
                        logs[lid].positions[k],
                        logs[lid],
                        k,
                        model,
                        cli,
                    ) by {
                        if k < logs[lid].positions.len() - 1 {
                            assert(logs[lid].positions[k] == logs_pre[lid].positions[k]);
                            assert(item_matches_slot(
                                items_pre,
                                logs_pre[lid].positions[k],
                                logs_pre[lid],
                                k,
                                model,
                                cli,
                            ));
                            assert(logs[lid].positions[k] < items_pre.len());
                        } else {
                            assert(logs[lid].positions[k] == j);
                        }
                    }
                    assert forall|k1: int, k2: int|
                        0 <= k1 < k2 < logs[lid].positions.len() implies #[trigger] logs[lid].positions[k1]
                        < #[trigger] logs[lid].positions[k2] by {
                        if k2 == logs[lid].positions.len() - 1 {
                            assert(logs[lid].positions[k1] == logs_pre[lid].positions[k1]);
                            assert(logs_pre[lid].positions[k1] < items_pre.len());
                        }
                    }
                    // The frame's first entry follows its opener directly.
                    if logs_pre[lid].positions.len() == 0 {
                        assert(stack_pre[stack_pre.len() - 1].idx == idx);
                        assert(idx as int == logs_pre[lid].positions.len());
                        if idx == 0 {
                            assert(logs_pre[lid].opener == items_pre.len() - 1);
                            assert(logs[lid].positions[0] == j == logs[lid].opener + 1);
                        }
                        assert(logs[lid].positions[0] == logs[lid].opener + 1);
                    } else {
                        assert(logs[lid].positions[0] == logs_pre[lid].positions[0]);
                    }
                }
            }
            assert forall|l2: int| 0 <= l2 < logs.len() implies frame_log_from_model(
                #[trigger] logs[l2],
                model,
                cli,
                *inc,
                *exc,
                filters,
                git,
            ) by {
                if l2 == lid {
                    assert(logs[l2].path == logs_pre[l2].path);
                    assert(logs[l2].entries == logs_pre[l2].entries);
                    let i = choose|i: int|
                        0 <= i < model.dirs@.len() && #[trigger] model.dirs@[i].path@
                            == logs_pre[l2].path && spec_pipeline_rel(
                            metas_view(model.dirs@[i].entries@),
                            logs_pre[l2].entries,
                            cli,
                            model.root_path@,
                            *inc,
                            *exc,
                            filters,
                            git,
                        );
                    assert(model.dirs@[i].path@ == logs[l2].path);
                } else {
                    assert(logs[l2] == logs_pre[l2]);
                }
            }
        }
        let parent_depth = frame.depth;
        let child_path = m2.path.clone();
        stack.push(frame);
        proof {
            assert(stack@.drop_last() =~= stack_pre.drop_last());
            assert(stack@.last() == frame);
            assert(frames_remaining(stack@) == frames_remaining(stack_pre) - 1);
            assert(forall|fi: int| 0 <= fi < stack@.len() - 1 ==> stack@[fi] == stack_pre[fi]);
            assert(frame.entries@ == stack_pre.last().entries@);
            assert forall|fi: int, k: int|
                0 <= fi < stack@.len() && stack@[fi].idx <= k
                    < stack@[fi].entries@.len() implies (match (#[trigger] stack@[fi].entries@[k])@.canonical_path {
                Option::Some(c) => universe.contains(c),
                Option::None => true,
            }) by {
                if fi == stack@.len() - 1 {
                    assert(stack@[fi].entries@[k] == stack_pre[fi].entries@[k]);
                    assert(stack_pre[fi].idx <= k);
                } else {
                    assert(stack@[fi] == stack_pre[fi]);
                }
            }
            assert forall|fi: int, k: int|
                0 <= fi < stack@.len() && stack@[fi].idx <= k < stack@[fi].entries@.len()
                    && spec_points_to_directory(
                    (#[trigger] stack@[fi].entries@[k])@,
                ) implies stack@[fi].entries@[k]@.canonical_path is Some by {
                if fi == stack@.len() - 1 {
                    assert(stack@[fi].entries@[k] == stack_pre[fi].entries@[k]);
                    assert(stack_pre[fi].idx <= k);
                } else {
                    assert(stack@[fi] == stack_pre[fi]);
                }
            }
            assert forall|fi: int| 0 <= fi < stack@.len() implies (#[trigger] stack@[fi]).depth
                <= visited@.len() by {
                assert(visited_pre.len() <= visited@.len());
                if fi < stack@.len() - 1 {
                    assert(stack@[fi] == stack_pre[fi]);
                }
            }
            lemma_frames_remaining_nonneg(stack@);
            // The log linkage survives the cursor advance.
            assert forall|fi: int| 0 <= fi < stack@.len() implies {
                let f = #[trigger] stack@[fi];
                &&& 0 <= f.log_id@ < logs.len()
                &&& logs[f.log_id@].path == f.path@
                &&& logs[f.log_id@].prefix == f.prefix@
                &&& logs[f.log_id@].depth == f.depth as int
                &&& logs[f.log_id@].entries == metas_view(f.entries@)
                &&& logs[f.log_id@].positions.len() == f.idx as int
            } by {
                if fi == stack@.len() - 1 {
                    assert(logs[lid].positions.len() == logs_pre[lid].positions.len() + 1);
                } else {
                    assert(stack@[fi] == stack_pre[fi]);
                    assert(stack@[fi].log_id@ != lid);
                    assert(logs[stack@[fi].log_id@] == logs_pre[stack@[fi].log_id@]);
                }
            }
            assert(stack_log_ids(stack@) =~= stack_log_ids(stack_pre));
            assert forall|lid2: int|
                0 <= lid2 < logs.len() && !stack_log_ids(stack@).contains(
                    lid2,
                ) implies (#[trigger] logs[lid2]).positions.len() == logs[lid2].entries.len() by {
                assert(stack_log_ids(stack@)[stack@.len() - 1] == lid);
                assert(lid2 != lid);
                assert(logs[lid2] == logs_pre[lid2]);
            }
            // Every frame now has a consumed entry; the cursor-at-start
            // bookkeeping is vacuous until a fresh frame opens.
            assert forall|si: int| 0 <= si < stack@.len() implies (#[trigger] stack@[si]).idx
                >= 1 by {
                if si < stack@.len() - 1 {
                    assert(stack@[si] == stack_pre[si]);
                }
            }
            // Frames deeper in the stack keep dominating the positions of
            // frames that opened before them.
            assert forall|si: int, g: int, k2: int|
                0 <= si < stack@.len() && 0 <= g < logs.len() && 0 <= k2
                    < logs[g].positions.len() && logs[g].opener
                    < logs[(#[trigger] stack@[si]).log_id@].opener
                    implies #[trigger] logs[g].positions[k2]
                <= logs[stack@[si].log_id@].opener by {
                let h = stack@[si].log_id@;
                assert(stack@[si].log_id@ == stack_pre[si].log_id@);
                if g == lid {
                    if si < stack@.len() - 1 {
                        assert(stack_pre[si].log_id@ < stack_pre[stack_pre.len() - 1].log_id@);
                        assert(logs[h].opener < logs[lid].opener);
                    }
                    assert(false);
                } else {
                    assert(logs[g].positions[k2] == logs_pre[g].positions[k2]);
                }
            }
        }
        if descend {
            let vlen = visited.len();
            proof {
                assert(vlen == visited_pre.len() + 1);
                assert(parent_depth <= visited_pre.len());
            }
            let child_depth = parent_depth + 1;
            match model.read_dir(child_path.as_str()) {
                Option::Some(children) => {
                    let ghost childrenv = children@;
                    proof {
                        lemma_listing_in_universe(
                            model,
                            child_path@,
                            children@,
                            universe,
                            root_key,
                        );
                    }
                    let ghost stack_mid = stack@;
                    let ghost logs_mid = logs;
                    match prepare_frame(
                        child_path,
                        child_prefix,
                        child_depth,
                        children,
                        cli,
                        model.root_path.as_str(),
                        inc,
                        exc,
                        filters,
                        git,
                    ) {
                        Option::Some(f) => {
                            let mut f = f;
                            f.log_id = Ghost(logs.len() as int);
                            let ghost new_log = FrameLog {
                                path: f.path@,
                                prefix: f.prefix@,
                                depth: f.depth as int,
                                canon: dec.record->0,
                                opener: j,
                                entries: metas_view(f.entries@),
                                positions: Seq::empty(),
                            };
                            proof {
                                // Every earlier frame's canonical identity was
                                // in the visited set before this descent
                                // recorded a fresh one.
                                assert(forall|l2: int|
                                    0 <= l2 < logs.len() ==> visited_pre.contains(
                                        (#[trigger] logs[l2]).canon,
                                    ));
                                assert(visited@ == visited_pre.push(dec.record->0));
                                assert(!visited_pre.contains(dec.record->0));
                                assert forall|l2: int| 0 <= l2 < logs.len() implies visited@.contains(
                                    (#[trigger] logs[l2]).canon,
                                ) by {
                                    let w = choose|w: int|
                                        0 <= w < visited_pre.len() && visited_pre[w]
                                            == logs[l2].canon;
                                    assert(visited@[w] == logs[l2].canon);
                                }
                                logs = logs.push(new_log);
                                assert(visited@[visited@.len() - 1] == dec.record->0);
                                assert(visited@.contains(new_log.canon));
                                let i = choose|i: int|
                                    0 <= i < model.dirs@.len() && #[trigger] model.dirs@[i].path@
                                        == child_path@ && metas_view(childrenv) == metas_view(
                                        model.dirs@[i].entries@,
                                    );
                                assert(spec_pipeline_rel(
                                    metas_view(model.dirs@[i].entries@),
                                    new_log.entries,
                                    cli,
                                    model.root_path@,
                                    *inc,
                                    *exc,
                                    filters,
                                    git,
                                ));
                                assert(frame_log_from_model(
                                    new_log,
                                    model,
                                    cli,
                                    *inc,
                                    *exc,
                                    filters,
                                    git,
                                ));
                                lemma_logs_positions_push(logs_mid, new_log);
                                assert(logs_positions(logs) =~= logs_positions(logs_mid));
                                assert(forall|l2: int|
                                    0 <= l2 < logs_mid.len() ==> logs[l2] == logs_mid[l2]);
                                // The fresh log is opened by the item just
                                // emitted, which carries its path, canonical
                                // identity, depth and prefix.
                                assert(items_view(items@)[j].descend);
                                assert(items_view(items@)[j].entry.path == m2@.path);
                                assert(new_log.path == m2@.path);
                                assert(items_view(items@)[j].canon == Option::Some(new_log.canon));
                                assert(items_view(items@)[j].entry.depth == parent_depth as int);
                                assert(new_log.depth == parent_depth as int + 1);
                                assert(new_log.prefix == spec_child_prefix(
                                    items_view(items@)[j].prefix,
                                    items_view(items@)[j].is_last,
                                ));
                                assert(frame_opened_at(new_log, items_view(items@)));
                                assert(frame_log_stream_wf(
                                    new_log,
                                    items_view(items@),
                                    model,
                                    cli,
                                ));
                                assert(logs[logs.len() - 1] == new_log && new_log.opener == j);
                                assert(some_log_opened_at(logs, j));
                            }
                            stack.push(f);
                            proof {
                                assert(stack@.drop_last() =~= stack_mid);
                                assert(stack@.last() == f);
                                assert(forall|fi: int|
                                    0 <= fi < stack@.len() - 1 ==> stack@[fi] == stack_mid[fi]);
                                assert forall|k: int|
                                    0 <= k < f.entries@.len() implies (match (
                                #[trigger] f.entries@[k])@.canonical_path {
                                    Option::Some(c) => universe.contains(c),
                                    Option::None => true,
                                }) && (spec_points_to_directory(f.entries@[k]@)
                                    ==> f.entries@[k]@.canonical_path is Some) by {
                                    assert(metas_view(f.entries@)[k] == f.entries@[k]@);
                                    let j2 = choose|j2: int|
                                        0 <= j2 < childrenv.len() && metas_view(f.entries@)[k]
                                            == crate::gitmap::spec_with_status(
                                            git,
                                            childrenv[j2]@,
                                        );
                                    assert(f.entries@[k]@.canonical_path
                                        == childrenv[j2]@.canonical_path);
                                    assert(spec_points_to_directory(f.entries@[k]@)
                                        == spec_points_to_directory(childrenv[j2]@));
                                }
                                assert(frames_remaining(stack@) == frames_remaining(stack_mid) + (
                                f.entries@.len() - f.idx));
                                lemma_frames_remaining_nonneg(stack@);
                                assert forall|lid2: int|
                                    0 <= lid2 < logs.len() && !stack_log_ids(stack@).contains(
                                        lid2,
                                    ) implies (#[trigger] logs[lid2]).positions.len()
                                    == logs[lid2].entries.len() by {
                                    assert(stack_log_ids(stack@)[stack@.len() - 1] == f.log_id@);
                                    assert(lid2 != f.log_id@);
                                    assert(logs[lid2] == logs_mid[lid2]);
                                    if stack_log_ids(stack_mid).contains(lid2) {
                                        let si = choose|si: int|
                                            0 <= si < stack_mid.len() && stack_log_ids(
                                                stack_mid,
                                            )[si] == lid2;
                                        assert(stack_log_ids(stack@)[si] == lid2);
                                        assert(false);
                                    }
                                }
                                assert forall|si: int|
                                    0 <= si < stack@.len() - 1 implies (#[trigger] stack@[si]).idx
                                    >= 1 by {
                                    assert(stack@[si] == stack_mid[si]);
                                }
                                assert(stack@[stack@.len() - 1].idx == 0);
                                assert(logs[stack@[stack@.len() - 1].log_id@].opener == j);
                                assert(j == items@.len() - 1);
                                // The fresh opener dominates every earlier
                                // opener and every recorded position.
                                assert(forall|l2: int|
                                    0 <= l2 < logs.len() - 1 ==> (#[trigger] logs[l2]).opener
                                        == logs_pre[l2].opener);
                                assert forall|l1: int, l2: int|
                                    0 <= l1 < l2 < logs.len() implies (#[trigger] logs[l1]).opener
                                    < (#[trigger] logs[l2]).opener by {
                                    if l2 == logs.len() - 1 {
                                        assert(logs[l1].opener == logs_pre[l1].opener < j);
                                    }
                                }
                                assert forall|g: int, k2: int|
                                    0 <= g < logs.len() && 0 <= k2
                                        < logs[g].positions.len() implies #[trigger] logs[g].positions[k2]
                                    <= j by {
                                    assert(g < logs.len() - 1);
                                    assert(logs[g] == logs_mid[g]);
                                    assert(frame_log_stream_wf(
                                        logs_mid[g],
                                        items_view(items@),
                                        model,
                                        cli,
                                    ));
                                    assert(logs_mid[g].positions[k2] < items_view(items@).len());
                                }
                                assert forall|f1: int, f2: int, k1: int, k2: int|
                                    0 <= f1 < logs.len() && 0 <= f2 < logs.len() && 0 <= k1
                                        < logs[f1].positions.len() && 0 <= k2
                                        < logs[f2].positions.len() && logs[f1].opener
                                        < logs[f2].opener
                                        < logs[f1].positions[k1] implies #[trigger] logs[f2].positions[k2]
                                    < #[trigger] logs[f1].positions[k1] by {
                                    assert(f1 < logs.len() - 1 && f2 < logs.len() - 1);
                                    assert(logs[f1] == logs_mid[f1] && logs[f2] == logs_mid[f2]);
                                    assert(logs_nested(logs_mid));
                                }
                                assert forall|si: int, g: int, k2: int|
                                    0 <= si < stack@.len() && 0 <= g < logs.len() && 0 <= k2
                                        < logs[g].positions.len() && logs[g].opener
                                        < logs[(#[trigger] stack@[si]).log_id@].opener
                                        implies #[trigger] logs[g].positions[k2]
                                    <= logs[stack@[si].log_id@].opener by {
                                    assert(g < logs.len() - 1);
                                    assert(logs[g] == logs_mid[g]);
                                    if si == stack@.len() - 1 {
                                        assert(logs[stack@[si].log_id@].opener == j);
                                    } else {
                                        assert(stack@[si] == stack_mid[si]);
                                        assert(stack@[si].log_id@ < logs.len() - 1);
                                        assert(logs[stack@[si].log_id@]
                                            == logs_mid[stack@[si].log_id@]);
                                    }
                                }
                            }
                        },
                        Option::None => {
                            proof {
                                if spec_opens(model, child_path@, cli, *inc, *exc, filters) {
                                    let i = choose|i: int|
                                        0 <= i < model.dirs@.len()
                                            && #[trigger] model.dirs@[i].path@ == child_path@
                                            && metas_view(childrenv) == metas_view(
                                            model.dirs@[i].entries@,
                                        );
                                    assert(spec_kept_children(
                                        metas_view(model.dirs@[i].entries@),
                                        cli,
                                        model.root_path@,
                                        *inc,
                                        *exc,
                                        filters,
                                    ).len() > 0);
                                    assert(false);
                                }
                                assert(items_view(items@)[j].entry.path == child_path@);
                            }
                        },
                    }
                },
                Option::None => {
                    proof {
                        assert(!spec_opens(model, child_path@, cli, *inc, *exc, filters));
                        assert(items_view(items@)[j].entry.path == child_path@);
                    }
                },
            }
        }
    }
    proof {
        assert(stack@.len() == 0);
        assert forall|f: int| 0 <= f < logs.len() implies frame_log_wf(
            #[trigger] logs[f],
            items_view(items@),
            model,
            cli,
        ) by {
            if stack_log_ids(stack@).contains(f) {
                let si = choose|si: int|
                    0 <= si < stack@.len() && stack_log_ids(stack@)[si] == f;
                assert(false);
            }
        }
    }
    (items, Ghost(logs))
}

/// Every canonical path in a listing obtained from the model lies in the
/// walk's universe of canonical paths, and directory-pointing entries carry
/// one (in a well-formed model).
proof fn lemma_listing_in_universe(
    model: &FsModel,
    path: Seq<char>,
    es: Seq<EntryMeta>,
    universe: Set<Seq<char>>,
    root_key: Seq<char>,
)
    requires
        spec_model_wf(model),
        universe == (seq![root_key] + model_canons(model.dirs@)).to_set(),
        exists|i: int|
            0 <= i < model.dirs@.len() && #[trigger] model.dirs@[i].path@ == path && metas_view(es)
                == metas_view(model.dirs@[i].entries@),
    ensures
        forall|j: int|
            0 <= j < es.len() ==> (match (#[trigger] es[j])@.canonical_path {
                Option::Some(c) => universe.contains(c),
                Option::None => true,
            }),
        forall|j: int|
            0 <= j < es.len() && spec_points_to_directory((#[trigger] es[j])@)
                ==> es[j]@.canonical_path is Some,
{
    let i = choose|i: int|
        0 <= i < model.dirs@.len() && #[trigger] model.dirs@[i].path@ == path && metas_view(es)
            == metas_view(model.dirs@[i].entries@);
    assert(metas_view(es).len() == es.len());
    assert(metas_view(model.dirs@[i].entries@).len() == model.dirs@[i].entries@.len());
    assert forall|j: int| 0 <= j < es.len() implies (match (#[trigger] es[j])@.canonical_path {
        Option::Some(c) => universe.contains(c),
        Option::None => true,
    }) by {
        assert(metas_view(es)[j] == es[j]@);
        assert(metas_view(model.dirs@[i].entries@)[j] == model.dirs@[i].entries@[j]@);
        assert(es[j]@ == model.dirs@[i].entries@[j]@);
        lemma_model_canons_contains(model.dirs@, i, j);
        match es[j]@.canonical_path {
            Option::Some(c) => {
                let mc = model_canons(model.dirs@);
                let w = choose|w: int| 0 <= w < mc.len() && mc[w] == c;
                assert((seq![root_key] + mc)[1 + w] == c);
                assert((seq![root_key] + mc).contains(c));
            },
            Option::None => {},
        }
    }
    assert forall|j: int|
        0 <= j < es.len() && spec_points_to_directory(
            (#[trigger] es[j])@,
        ) implies es[j]@.canonical_path is Some by {
        assert(metas_view(es)[j] == es[j]@);
        assert(metas_view(model.dirs@[i].entries@)[j] == model.dirs@[i].entries@[j]@);
        assert(es[j]@ == model.dirs@[i].entries@[j]@);
        assert(spec_points_to_directory(model.dirs@[i].entries@[j]@));
    }
}

/// A duplicate-free sequence drawn from a finite set is no longer than the
/// set's cardinality.
proof fn lemma_visited_bound(visited: Seq<Seq<char>>, universe: Set<Seq<char>>)
    requires
        visited.no_duplicates(),
        universe.finite(),
        forall|k: int| 0 <= k < visited.len() ==> universe.contains(#[trigger] visited[k]),
    ensures
        visited.len() <= universe.len(),
{
    visited.unique_seq_to_set();
    assert forall|x: Seq<char>| visited.to_set().contains(x) implies universe.contains(x) by {
        assert(visited.contains(x));
        let k = choose|k: int| 0 <= k < visited.len() && visited[k] == x;
        assert(universe.contains(visited[k]));
    }
    vstd::set_lib::lemma_len_subset(visited.to_set(), universe);
}

/// Exactly-once emission of visible children: for a directory's listing, the
/// filtered child sequence holds every passing child exactly as often as the
/// listing does, and no rejected child at all. Together with
/// [`prepare_frame`]'s contract (whose frame is a permutation of exactly this
/// filtered sequence, in the configured order) this says the engine emits,
/// for each directory, exactly its visible children, each exactly once.
pub proof fn lemma_visible_children_each_once(
    children: Seq<EntryMetaV>,
    pred: spec_fn(EntryMetaV) -> bool,
)
    ensures
        forall|x: EntryMetaV|
            #[trigger] children.filter(pred).to_multiset().count(x) == (if pred(x) {
                children.to_multiset().count(x)
            } else {
                0
            }),
    decreases children.len(),
{
    reveal(Seq::filter);
    broadcast use vstd::seq_lib::group_to_multiset_ensures;

    if children.len() == 0 {
        assert(children.filter(pred) =~= children);
        assert(forall|x: EntryMetaV|
            #[trigger] children.to_multiset().count(x) == 0) by {
            assert(children.to_multiset() =~= vstd::multiset::Multiset::<EntryMetaV>::empty());
        }
    } else {
        let d = children.drop_last();
        lemma_visible_children_each_once(d, pred);
        let last = children.last();
        assert(children =~= d.push(last));
        assert(children.to_multiset() =~= d.to_multiset().insert(last));
        if pred(last) {
            assert(children.filter(pred) == d.filter(pred).push(last));
            assert(children.filter(pred).to_multiset() =~= d.filter(pred).to_multiset().insert(
                last,
            ));
        } else {
            assert(children.filter(pred) == d.filter(pred));
        }
        assert forall|x: EntryMetaV|
            #[trigger] children.filter(pred).to_multiset().count(x) == (if pred(x) {
                children.to_multiset().count(x)
            } else {
                0
            }) by {
            assert(d.filter(pred).to_multiset().count(x) == (if pred(x) {
                d.to_multiset().count(x)
            } else {
                0
            }));
        }
    }
}

} // verus!
