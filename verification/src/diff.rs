//! Pure helpers of the two-revision diff view. The diff itself (repository
//! access, tree walking) is a separate collaborator; these are the plain
//! rules it applies: status precedence, path relativization, status-map
//! updates, and line formatting.

use vstd::prelude::*;
use crate::gitmap::spec_status_lookup;
use crate::pathops::{last_slash, spec_within, strip_prefix};
use crate::render::{spec_json_str, append_json_str_pub};
use crate::text::str_eq;

verus! {

/// Precedence of diff status symbols: deletion over addition, addition over
/// type change, type change over rename/copy, rename over modification.
pub open spec fn spec_diff_priority(c: char) -> u8 {
    if c == 'D' {
        5u8
    } else if c == 'A' {
        4u8
    } else if c == 'T' {
        3u8
    } else if c == 'R' || c == 'C' {
        2u8
    } else if c == 'M' {
        1u8
    } else {
        0u8
    }
}

/// Priority of a diff status symbol.
pub fn status_priority(c: char) -> (r: u8)
    ensures
        r == spec_diff_priority(c),
{
    if c == 'D' {
        5
    } else if c == 'A' {
        4
    } else if c == 'T' {
        3
    } else if c == 'R' || c == 'C' {
        2
    } else if c == 'M' {
        1
    } else {
        0
    }
}

/// A path made relative to the diff base: the path itself under an empty
/// base, otherwise only paths within the base survive.
pub open spec fn spec_relative_to_base(path: Seq<char>, base: Seq<char>) -> Option<Seq<char>> {
    if base.len() == 0 {
        Option::Some(path)
    } else if spec_within(path, base) {
        if path == base {
            Option::Some(Seq::empty())
        } else {
            Option::Some(path.subrange(base.len() as int + 1, path.len() as int))
        }
    } else {
        Option::None
    }
}

/// Relativizes a changed path against the requested subtree.
pub fn relative_to_base(path: &str, base: &str) -> (r: Option<String>)
    ensures
        crate::meta::opt_view(r) == spec_relative_to_base(path@, base@),
{
    if base.unicode_len() == 0 {
        return Option::Some(path.to_owned());
    }
    strip_prefix(path, base)
}

/// Records `status` for `path` in a diff status map, keeping the symbol with
/// the higher diff priority; other paths are untouched.
pub fn set_status(map: &mut Vec<(String, char)>, path: &str, status: char)
    ensures
        spec_status_lookup(final(map)@, path@) == Option::Some(
            match spec_status_lookup(old(map)@, path@) {
                Option::Some(prev) => {
                    if spec_diff_priority(status) > spec_diff_priority(prev) {
                        status
                    } else {
                        prev
                    }
                },
                Option::None => status,
            },
        ),
        forall|k: Seq<char>|
            k != path@ ==> #[trigger] spec_status_lookup(final(map)@, k) == spec_status_lookup(
                old(map)@,
                k,
            ),
{
    let mut i: usize = 0;
    while i < map.len()
        invariant
            i <= map@.len(),
            map@ == old(map)@,
            forall|j: int| 0 <= j < i ==> map@[j].0@ != path@,
        decreases map@.len() - i,
    {
        if str_eq(map[i].0.as_str(), path) {
            let prev = map[i].1;
            let ghost pre = map@;
            proof {
                crate::gitmap::lemma_lookup_at(pre, i as int);
            }
            if status_priority(status) > status_priority(prev) {
                let _ = map.remove(i);
                map.insert(i, (path.to_owned(), status));
                proof {
                    assert(map@.len() == pre.len());
                    assert(forall|j: int| 0 <= j < pre.len() && j != i ==> map@[j] == pre[j]);
                    assert(map@[i as int].0@ == path@);
                    assert(forall|j: int| 0 <= j < i ==> map@[j].0@ != path@);
                    crate::gitmap::lemma_lookup_at(map@, i as int);
                    assert forall|k: Seq<char>| k != path@ implies #[trigger] spec_status_lookup(
                        map@,
                        k,
                    ) == spec_status_lookup(pre, k) by {
                        crate::gitmap::lemma_lookup_frame(pre, map@, k);
                    }
                }
            }
            return;
        }
        i = i + 1;
    }
    let ghost pre = map@;
    proof {
        crate::gitmap::lemma_lookup_none(pre, path@);
    }
    map.push((path.to_owned(), status));
    proof {
        assert(map@[pre.len() as int].0@ == path@);
        assert(forall|j: int| 0 <= j < pre.len() ==> map@[j] == pre[j]);
        crate::gitmap::lemma_lookup_at(map@, pre.len() as int);
        assert forall|k: Seq<char>| k != path@ implies #[trigger] spec_status_lookup(map@, k)
            == spec_status_lookup(pre, k) by {
            crate::gitmap::lemma_lookup_frame(pre, map@, k);
        }
    }
}

/// One side of a diff line: status symbol, space, then (away from the root)
/// the branch glyphs, and the name when the node exists on that side.
pub open spec fn spec_format_line(
    status: char,
    prefix: Seq<char>,
    branch: Seq<char>,
    present: bool,
    name: Seq<char>,
    is_root: bool,
) -> Seq<char> {
    seq![status] + " "@ + (if !is_root {
        prefix + branch
    } else {
        Seq::<char>::empty()
    }) + (if present || is_root {
        name
    } else {
        Seq::<char>::empty()
    })
}

/// Formats one side of a diff line.
pub fn format_line(
    status: char,
    prefix: &str,
    branch: &str,
    present: bool,
    name: &str,
    is_root: bool,
) -> (r: String)
    ensures
        r@ == spec_format_line(status, prefix@, branch@, present, name@, is_root),
{
    let mut line = String::new();
    crate::text::push_char(&mut line, status);
    line.append(" ");
    if !is_root {
        line.append(prefix);
        line.append(branch);
    }
    if present || is_root {
        line.append(name);
    }
    proof {
        assert(line@ =~= spec_format_line(status, prefix@, branch@, present, name@, is_root));
    }
    line
}

/// One diff record as JSON: the change status and the path it applies to.
pub open spec fn spec_diff_json(status: Seq<char>, path: Seq<char>) -> Seq<char> {
    "{\"status\":"@ + spec_json_str(status) + ",\"path\":"@ + spec_json_str(path) + "}"@
}

/// Serializes one diff record.
pub fn diff_json_line(status: &str, path: &str) -> (r: String)
    ensures
        r@ == spec_diff_json(status@, path@),
{
    let mut s = String::from_str("{\"status\":");
    append_json_str_pub(&mut s, status);
    s.append(",\"path\":");
    append_json_str_pub(&mut s, path);
    s.append("}");
    proof {
        assert(s@ =~= spec_diff_json(status@, path@));
    }
    s
}

/// The symbol kept when `c` arrives at a key holding `prev`.
pub open spec fn spec_merged(prev: Option<char>, c: char) -> char {
    match prev {
        Option::Some(p) => {
            if spec_diff_priority(c) > spec_diff_priority(p) {
                c
            } else {
                p
            }
        },
        Option::None => c,
    }
}

/// The ancestor directories of a changed path, innermost first, ending with
/// the repository root (the empty path, or `/` for a top-level absolute
/// path).
pub open spec fn spec_ancestors(p: Seq<char>) -> Seq<Seq<char>>
    decreases p.len(),
    via spec_ancestors_decreases
{
    match last_slash(p) {
        Option::None => {
            if p.len() == 0 {
                Seq::empty()
            } else {
                seq![Seq::<char>::empty()]
            }
        },
        Option::Some(k) => {
            if k == 0 {
                if p.len() == 1 {
                    Seq::empty()
                } else {
                    seq![seq!['/']]
                }
            } else {
                seq![p.subrange(0, k)] + spec_ancestors(p.subrange(0, k))
            }
        },
    }
}

#[via_fn]
proof fn spec_ancestors_decreases(p: Seq<char>) {
    crate::pathops::lemma_last_slash_bound(p);
}

/// Ancestors are strictly shorter than the path, and strictly shrink along
/// the chain.
proof fn lemma_ancestors_chain(p: Seq<char>)
    ensures
        forall|i: int|
            0 <= i < spec_ancestors(p).len() ==> #[trigger] spec_ancestors(p)[i].len() < p.len(),
        forall|i: int, j: int|
            0 <= i < j < spec_ancestors(p).len() ==> #[trigger] spec_ancestors(p)[j].len()
                < #[trigger] spec_ancestors(p)[i].len(),
    decreases p.len(),
{
    crate::pathops::lemma_last_slash_bound(p);
    match last_slash(p) {
        Option::None => {},
        Option::Some(k) => {
            if k > 0 {
                let par = p.subrange(0, k);
                lemma_ancestors_chain(par);
                assert(forall|i: int|
                    1 <= i < spec_ancestors(p).len() ==> spec_ancestors(p)[i] == spec_ancestors(
                        par,
                    )[i - 1]);
                assert(spec_ancestors(p)[0] == par);
            }
        },
    }
}

/// Records a delta for `path` in both status maps (the change symbols on the
/// path itself, per side), then marks every ancestor directory as modified
/// in both maps.
///
/// The path's own entry follows the priority merge of its side's symbol;
/// every ancestor holds the merge of its previous symbol with `M`; all other
/// keys are untouched.
pub fn record_status(
    statuses_old: &mut Vec<(String, char)>,
    statuses_new: &mut Vec<(String, char)>,
    path: &str,
    old_status: Option<char>,
    new_status: Option<char>,
)
    ensures
        spec_status_lookup(final(statuses_old)@, path@) == (match old_status {
            Option::Some(c) => Option::Some(
                spec_merged(spec_status_lookup(old(statuses_old)@, path@), c),
            ),
            Option::None => spec_status_lookup(old(statuses_old)@, path@),
        }),
        spec_status_lookup(final(statuses_new)@, path@) == (match new_status {
            Option::Some(c) => Option::Some(
                spec_merged(spec_status_lookup(old(statuses_new)@, path@), c),
            ),
            Option::None => spec_status_lookup(old(statuses_new)@, path@),
        }),
        forall|a: Seq<char>|
            spec_ancestors(path@).contains(a) ==> #[trigger] spec_status_lookup(
                final(statuses_old)@,
                a,
            ) == Option::Some(spec_merged(spec_status_lookup(old(statuses_old)@, a), 'M'))
                && spec_status_lookup(final(statuses_new)@, a) == Option::Some(
                spec_merged(spec_status_lookup(old(statuses_new)@, a), 'M'),
            ),
        forall|k: Seq<char>|
            k != path@ && !spec_ancestors(path@).contains(k) ==> #[trigger] spec_status_lookup(
                final(statuses_old)@,
                k,
            ) == spec_status_lookup(old(statuses_old)@, k) && spec_status_lookup(
                final(statuses_new)@,
                k,
            ) == spec_status_lookup(old(statuses_new)@, k),
{
    proof {
        lemma_ancestors_chain(path@);
    }
    match old_status {
        Option::Some(c) => set_status(statuses_old, path, c),
        Option::None => {},
    }
    match new_status {
        Option::Some(c) => set_status(statuses_new, path, c),
        Option::None => {},
    }
    let ghost anc = spec_ancestors(path@);
    let ghost base_old = statuses_old@;
    let ghost base_new = statuses_new@;
    let mut current: String = path.to_owned();
    let ghost mut t: int = 0;
    loop
        invariant_except_break
            0 <= t <= anc.len(),
            anc == spec_ancestors(path@),
            anc =~= anc.take(t) + spec_ancestors(current@),
            forall|i: int, j: int| 0 <= i < j < anc.len() ==> #[trigger] anc[j].len()
                < #[trigger] anc[i].len(),
            forall|i: int|
                0 <= i < t ==> #[trigger] spec_status_lookup(statuses_old@, anc[i])
                    == Option::Some(spec_merged(spec_status_lookup(base_old, anc[i]), 'M')),
            forall|i: int|
                0 <= i < t ==> #[trigger] spec_status_lookup(statuses_new@, anc[i])
                    == Option::Some(spec_merged(spec_status_lookup(base_new, anc[i]), 'M')),
            forall|k: Seq<char>|
                !anc.take(t).contains(k) ==> #[trigger] spec_status_lookup(statuses_old@, k)
                    == spec_status_lookup(base_old, k),
            forall|k: Seq<char>|
                !anc.take(t).contains(k) ==> #[trigger] spec_status_lookup(statuses_new@, k)
                    == spec_status_lookup(base_new, k),
        ensures
            forall|i: int|
                0 <= i < anc.len() ==> #[trigger] spec_status_lookup(statuses_old@, anc[i])
                    == Option::Some(spec_merged(spec_status_lookup(base_old, anc[i]), 'M')),
            forall|i: int|
                0 <= i < anc.len() ==> #[trigger] spec_status_lookup(statuses_new@, anc[i])
                    == Option::Some(spec_merged(spec_status_lookup(base_new, anc[i]), 'M')),
            forall|k: Seq<char>|
                !anc.contains(k) ==> #[trigger] spec_status_lookup(statuses_old@, k)
                    == spec_status_lookup(base_old, k),
            forall|k: Seq<char>|
                !anc.contains(k) ==> #[trigger] spec_status_lookup(statuses_new@, k)
                    == spec_status_lookup(base_new, k),
        decreases anc.len() - t,
    {
        let ghost rest = spec_ancestors(current@);
        let ghost pre_old = statuses_old@;
        let ghost pre_new = statuses_new@;
        match crate::pathops::find_last_slash(current.as_str()) {
            Option::None => {
                if current.as_str().unicode_len() > 0 {
                    proof {
                        reveal_strlit("");
                        assert(rest =~= seq![Seq::<char>::empty()]);
                        assert(anc[t] =~= Seq::<char>::empty());
                        lemma_step_frame(anc, t);
                        assert(""@ =~= Seq::<char>::empty());
                    }
                    set_status(statuses_old, "", 'M');
                    set_status(statuses_new, "", 'M');
                    proof {
                        lemma_record_step(anc, t, base_old, pre_old, statuses_old@);
                        lemma_record_step(anc, t, base_new, pre_new, statuses_new@);
                        t = t + 1;
                        assert(anc.take(t) =~= anc);
                    }
                } else {
                    proof {
                        assert(rest =~= Seq::<Seq<char>>::empty());
                        assert(anc.take(t) =~= anc);
                    }
                }
                break;
            },
            Option::Some(k) => {
                if k == 0 {
                    if current.as_str().unicode_len() == 1 {
                        proof {
                            assert(rest =~= Seq::<Seq<char>>::empty());
                            assert(anc.take(t) =~= anc);
                        }
                        break;
                    }
                    proof {
                        reveal_strlit("/");
                        assert(rest =~= seq![seq!['/']]);
                        assert(anc[t] =~= seq!['/']);
                        lemma_step_frame(anc, t);
                        assert("/"@ =~= seq!['/']);
                    }
                    set_status(statuses_old, "/", 'M');
                    set_status(statuses_new, "/", 'M');
                    proof {
                        lemma_record_step(anc, t, base_old, pre_old, statuses_old@);
                        lemma_record_step(anc, t, base_new, pre_new, statuses_new@);
                        t = t + 1;
                        assert(anc.take(t) =~= anc);
                    }
                    break;
                } else {
                    let parent = current.as_str().substring_char(0, k);
                    let parent = parent.to_owned();
                    proof {
                        assert(parent@ == current@.subrange(0, k as int));
                        assert(rest == seq![parent@] + spec_ancestors(parent@));
                        assert(anc[t] == parent@);
                        lemma_step_frame(anc, t);
                    }
                    set_status(statuses_old, parent.as_str(), 'M');
                    set_status(statuses_new, parent.as_str(), 'M');
                    current = parent;
                    proof {
                        lemma_record_step(anc, t, base_old, pre_old, statuses_old@);
                        lemma_record_step(anc, t, base_new, pre_new, statuses_new@);
                        t = t + 1;
                        assert(anc.take(t) =~= anc.take(t - 1) + seq![anc[t - 1]]);
                        assert(anc =~= anc.take(t) + spec_ancestors(current@));
                    }
                }
            },
        }
    }
    proof {
        lemma_ancestors_chain(path@);
        assert forall|a: Seq<char>| anc.contains(a) implies a != path@ by {
            let i = choose|i: int| 0 <= i < anc.len() && anc[i] == a;
            assert(anc[i].len() < path@.len());
        }
    }
}

/// After one ancestor update at position `t`, the processed prefix facts
/// carry over: the updated key held its base value just before (no earlier
/// step touched it), so the merge result is against the base map.
proof fn lemma_record_step(
    anc: Seq<Seq<char>>,
    t: int,
    base: Seq<(String, char)>,
    pre: Seq<(String, char)>,
    post: Seq<(String, char)>,
)
    requires
        0 <= t < anc.len(),
        forall|i: int, j: int| 0 <= i < j < anc.len() ==> #[trigger] anc[j].len()
            < #[trigger] anc[i].len(),
        forall|k: Seq<char>|
            !anc.take(t).contains(k) ==> #[trigger] spec_status_lookup(pre, k)
                == spec_status_lookup(base, k),
        forall|i: int|
            0 <= i < t ==> #[trigger] spec_status_lookup(pre, anc[i]) == Option::Some(
                spec_merged(spec_status_lookup(base, anc[i]), 'M'),
            ),
        spec_status_lookup(post, anc[t]) == Option::Some(
            match spec_status_lookup(pre, anc[t]) {
                Option::Some(prev) => {
                    if spec_diff_priority('M') > spec_diff_priority(prev) {
                        'M'
                    } else {
                        prev
                    }
                },
                Option::None => 'M',
            },
        ),
        forall|k: Seq<char>|
            k != anc[t] ==> #[trigger] spec_status_lookup(post, k) == spec_status_lookup(pre, k),
    ensures
        forall|i: int|
            0 <= i < t + 1 ==> #[trigger] spec_status_lookup(post, anc[i]) == Option::Some(
                spec_merged(spec_status_lookup(base, anc[i]), 'M'),
            ),
        forall|k: Seq<char>|
            !anc.take(t + 1).contains(k) ==> #[trigger] spec_status_lookup(post, k)
                == spec_status_lookup(base, k),
{
    lemma_step_frame(anc, t);
    assert(!anc.take(t).contains(anc[t])) by {
        if anc.take(t).contains(anc[t]) {
            let i = choose|i: int| 0 <= i < t && anc.take(t)[i] == anc[t];
            assert(anc[i] == anc[t]);
        }
    }
    assert(spec_status_lookup(pre, anc[t]) == spec_status_lookup(base, anc[t]));
    assert forall|i: int| 0 <= i < t + 1 implies #[trigger] spec_status_lookup(post, anc[i])
        == Option::Some(spec_merged(spec_status_lookup(base, anc[i]), 'M')) by {
        if i < t {
            assert(anc[i] != anc[t]);
        }
    }
    assert forall|k: Seq<char>| !anc.take(t + 1).contains(k) implies #[trigger] spec_status_lookup(
        post,
        k,
    ) == spec_status_lookup(base, k) by {
        assert(anc.take(t + 1)[t] == anc[t]);
        assert(k != anc[t]);
        assert forall|j: int| 0 <= j < t implies anc.take(t)[j] != k by {
            assert(anc.take(t + 1)[j] == anc.take(t)[j]);
        }
        assert(!anc.take(t).contains(k));
    }
}

/// The key updated at step `t` of the ancestor pass differs from every key
/// updated before it and from the path itself.
proof fn lemma_step_frame(anc: Seq<Seq<char>>, t: int)
    requires
        0 <= t < anc.len(),
        forall|i: int, j: int| 0 <= i < j < anc.len() ==> #[trigger] anc[j].len()
            < #[trigger] anc[i].len(),
    ensures
        forall|i: int| 0 <= i < t ==> anc[i] != anc[t],
        forall|i: int| t < i < anc.len() ==> anc[i] != anc[t],
{
    assert forall|i: int| 0 <= i < t implies anc[i] != anc[t] by {
        assert(anc[t].len() < anc[i].len());
    }
    assert forall|i: int| t < i < anc.len() implies anc[i] != anc[t] by {
        assert(anc[i].len() < anc[t].len());
    }
}

/// One name seen on either side of the diff, with the merged subtrees below
/// it.
pub struct CombinedNode {
    pub name: String,
    pub path: String,
    pub old_present: bool,
    pub new_present: bool,
    pub children: Vec<CombinedNode>,
}

/// A node that exists on only one side of the diff.
pub open spec fn spec_one_sided(n: &CombinedNode) -> bool {
    n.old_present != n.new_present
}

/// The recorded statuses as a map from path to symbol.
pub open spec fn status_map(entries: Seq<(String, char)>) -> Map<Seq<char>, char> {
    Map::new(
        |k: Seq<char>| spec_status_lookup(entries, k) is Some,
        |k: Seq<char>| spec_status_lookup(entries, k)->0,
    )
}

/// Records `c` for `k` only where nothing is recorded yet.
pub open spec fn spec_or_insert(m: Map<Seq<char>, char>, k: Seq<char>, c: char) -> Map<
    Seq<char>,
    char,
> {
    if m.dom().contains(k) {
        m
    } else {
        m.insert(k, c)
    }
}

/// The default symbol for a one-sided node: added on the new side, deleted
/// on the old side.
pub open spec fn spec_default_symbol(n: &CombinedNode) -> char {
    if n.new_present {
        'A'
    } else {
        'D'
    }
}

/// Both maps after the presence defaults of one subtree, visited root first,
/// children left to right: each one-sided node records its default symbol at
/// its path where nothing is recorded yet; nothing else changes.
pub open spec fn spec_apply_defaults(
    n: &CombinedNode,
    mo: Map<Seq<char>, char>,
    mn: Map<Seq<char>, char>,
) -> (Map<Seq<char>, char>, Map<Seq<char>, char>)
    decreases n, 1int,
{
    let step = if spec_one_sided(n) {
        (
            spec_or_insert(mo, n.path@, spec_default_symbol(n)),
            spec_or_insert(mn, n.path@, spec_default_symbol(n)),
        )
    } else {
        (mo, mn)
    };
    spec_apply_forest(n.children@, 0, step.0, step.1)
}

/// Both maps after the presence defaults of a forest from position `i` on.
pub open spec fn spec_apply_forest(
    children: Seq<CombinedNode>,
    i: int,
    mo: Map<Seq<char>, char>,
    mn: Map<Seq<char>, char>,
) -> (Map<Seq<char>, char>, Map<Seq<char>, char>)
    decreases children, children.len() - i, 2int,
{
    if i < 0 || i >= children.len() {
        (mo, mn)
    } else {
        let step = spec_apply_defaults(&children[i], mo, mn);
        spec_apply_forest(children, i + 1, step.0, step.1)
    }
}

/// `m2` keeps every recorded status of `m1` unchanged (it may add more).
pub open spec fn spec_keeps(m1: Seq<(String, char)>, m2: Seq<(String, char)>) -> bool {
    forall|k: Seq<char>|
        #[trigger] spec_status_lookup(m1, k) is Some ==> spec_status_lookup(m2, k)
            == spec_status_lookup(m1, k)
}

/// Applying defaults never disturbs a recorded status.
proof fn lemma_apply_keeps(n: &CombinedNode, mo: Map<Seq<char>, char>, mn: Map<Seq<char>, char>)
    ensures
        ({
            let r = spec_apply_defaults(n, mo, mn);
            &&& forall|k: Seq<char>|
                #[trigger] mo.dom().contains(k) ==> r.0.dom().contains(k) && r.0[k] == mo[k]
            &&& forall|k: Seq<char>|
                #[trigger] mn.dom().contains(k) ==> r.1.dom().contains(k) && r.1[k] == mn[k]
        }),
    decreases n, 1int,
{
    let step = if spec_one_sided(n) {
        (
            spec_or_insert(mo, n.path@, spec_default_symbol(n)),
            spec_or_insert(mn, n.path@, spec_default_symbol(n)),
        )
    } else {
        (mo, mn)
    };
    assert(spec_apply_defaults(n, mo, mn) == spec_apply_forest(n.children@, 0, step.0, step.1));
    assert(forall|k: Seq<char>|
        #[trigger] mo.dom().contains(k) ==> step.0.dom().contains(k) && step.0[k] == mo[k]);
    assert(forall|k: Seq<char>|
        #[trigger] mn.dom().contains(k) ==> step.1.dom().contains(k) && step.1[k] == mn[k]);
    lemma_apply_forest_keeps(n.children@, 0, step.0, step.1);
}

proof fn lemma_apply_forest_keeps(
    children: Seq<CombinedNode>,
    i: int,
    mo: Map<Seq<char>, char>,
    mn: Map<Seq<char>, char>,
)
    ensures
        ({
            let r = spec_apply_forest(children, i, mo, mn);
            &&& forall|k: Seq<char>|
                #[trigger] mo.dom().contains(k) ==> r.0.dom().contains(k) && r.0[k] == mo[k]
            &&& forall|k: Seq<char>|
                #[trigger] mn.dom().contains(k) ==> r.1.dom().contains(k) && r.1[k] == mn[k]
        }),
    decreases children, children.len() - i, 2int,
{
    if 0 <= i && i < children.len() {
        let step = spec_apply_defaults(&children[i], mo, mn);
        lemma_apply_keeps(&children[i], mo, mn);
        lemma_apply_forest_keeps(children, i + 1, step.0, step.1);
    }
}

proof fn lemma_lookup_none_keys(entries: Seq<(String, char)>, k: Seq<char>)
    requires
        spec_status_lookup(entries, k) is None,
    ensures
        forall|j: int| 0 <= j < entries.len() ==> (#[trigger] entries[j]).0@ != k,
    decreases entries.len(),
{
    if entries.len() > 0 {
        let d = entries.drop_first();
        lemma_lookup_none_keys(d, k);
        assert(forall|j: int| 0 <= j < d.len() ==> d[j] == entries[j + 1]);
        assert forall|j: int| 0 <= j < entries.len() implies (#[trigger] entries[j]).0@ != k by {
            if j > 0 {
                assert(d[j - 1].0@ != k);
            }
        }
    }
}

/// Whether a status is recorded for `key`.
fn status_recorded(map: &Vec<(String, char)>, key: &str) -> (r: bool)
    ensures
        r == (spec_status_lookup(map@, key@) is Some),
{
    let mut i: usize = 0;
    while i < map.len()
        invariant
            i <= map@.len(),
            forall|j: int| 0 <= j < i ==> map@[j].0@ != key@,
        decreases map@.len() - i,
    {
        if str_eq(map[i].0.as_str(), key) {
            proof {
                crate::gitmap::lemma_lookup_at(map@, i as int);
            }
            return true;
        }
        i = i + 1;
    }
    proof {
        crate::gitmap::lemma_lookup_none(map@, key@);
    }
    false
}

/// Records `c` for `key` only when nothing is recorded yet: afterwards the
/// map is the prior map with `c` or-inserted at `key`.
fn status_or_insert(map: &mut Vec<(String, char)>, key: &str, c: char)
    ensures
        status_map(final(map)@) == spec_or_insert(status_map(old(map)@), key@, c),
{
    if !status_recorded(map, key) {
        let ghost pre = map@;
        proof {
            lemma_lookup_none_keys(pre, key@);
        }
        map.push((key.to_owned(), c));
        proof {
            assert(map@[pre.len() as int].0@ == key@);
            assert(forall|j: int| 0 <= j < pre.len() ==> map@[j] == pre[j]);
            crate::gitmap::lemma_lookup_at(map@, pre.len() as int);
            assert forall|k: Seq<char>| k != key@ implies #[trigger] spec_status_lookup(map@, k)
                == spec_status_lookup(pre, k) by {
                crate::gitmap::lemma_lookup_frame(pre, map@, k);
            }
            assert(status_map(map@) =~= spec_or_insert(status_map(pre), key@, c));
        }
    } else {
        proof {
            assert(status_map(map@) =~= spec_or_insert(status_map(map@), key@, c));
        }
    }
}

/// Gives every one-sided node of the subtree its default status in both
/// maps (`A` when present only on the new side, `D` only on the old side),
/// inserted only where the key was absent: afterwards both maps are exactly
/// [`spec_apply_defaults`] of the prior maps — nodes present on both sides
/// and every key outside the subtree's one-sided paths are untouched, and no
/// recorded status is ever overwritten.
pub fn apply_presence_defaults(
    node: &CombinedNode,
    statuses_old: &mut Vec<(String, char)>,
    statuses_new: &mut Vec<(String, char)>,
)
    ensures
        ({
            let r = spec_apply_defaults(
                node,
                status_map(old(statuses_old)@),
                status_map(old(statuses_new)@),
            );
            status_map(final(statuses_old)@) == r.0 && status_map(final(statuses_new)@) == r.1
        }),
        spec_keeps(old(statuses_old)@, final(statuses_old)@),
        spec_keeps(old(statuses_new)@, final(statuses_new)@),
    decreases node,
{
    let ghost mo0 = status_map(statuses_old@);
    let ghost mn0 = status_map(statuses_new@);
    if node.old_present != node.new_present {
        let c = if node.new_present {
            'A'
        } else {
            'D'
        };
        status_or_insert(statuses_old, node.path.as_str(), c);
        status_or_insert(statuses_new, node.path.as_str(), c);
    }
    let ghost step = (status_map(statuses_old@), status_map(statuses_new@));
    proof {
        assert(step == (if spec_one_sided(node) {
            (
                spec_or_insert(mo0, node.path@, spec_default_symbol(node)),
                spec_or_insert(mn0, node.path@, spec_default_symbol(node)),
            )
        } else {
            (mo0, mn0)
        }));
    }
    let mut i: usize = 0;
    while i < node.children.len()
        invariant
            i <= node.children@.len(),
            spec_apply_forest(node.children@, 0, step.0, step.1) == spec_apply_forest(
                node.children@,
                i as int,
                status_map(statuses_old@),
                status_map(statuses_new@),
            ),
        decreases node.children@.len() - i,
    {
        let ghost pre_old = status_map(statuses_old@);
        let ghost pre_new = status_map(statuses_new@);
        apply_presence_defaults(&node.children[i], statuses_old, statuses_new);
        proof {
            assert(spec_apply_defaults(&node.children@[i as int], pre_old, pre_new) == (
            status_map(statuses_old@),
            status_map(statuses_new@),
            ));
        }
        i = i + 1;
    }
    proof {
        assert(spec_apply_forest(
            node.children@,
            node.children@.len() as int,
            status_map(statuses_old@),
            status_map(statuses_new@),
        ) == (status_map(statuses_old@), status_map(statuses_new@)));
        lemma_apply_keeps(node, mo0, mn0);
        assert forall|k: Seq<char>|
            #[trigger] spec_status_lookup(old(statuses_old)@, k) is Some implies spec_status_lookup(
            statuses_old@,
            k,
        ) == spec_status_lookup(old(statuses_old)@, k) by {
            assert(mo0.dom().contains(k));
            assert(status_map(statuses_old@).dom().contains(k));
            assert(status_map(statuses_old@)[k] == mo0[k]);
        }
        assert forall|k: Seq<char>|
            #[trigger] spec_status_lookup(old(statuses_new)@, k) is Some implies spec_status_lookup(
            statuses_new@,
            k,
        ) == spec_status_lookup(old(statuses_new)@, k) by {
            assert(mn0.dom().contains(k));
            assert(status_map(statuses_new@).dom().contains(k));
            assert(status_map(statuses_new@)[k] == mn0[k]);
        }
    }
}

/// The recorded status of a path, a space when none is.
pub open spec fn spec_status_or_space(m: Seq<(String, char)>, k: Seq<char>) -> char {
    match spec_status_lookup(m, k) {
        Option::Some(c) => c,
        Option::None => ' ',
    }
}

fn status_or_space(map: &Vec<(String, char)>, key: &str) -> (r: char)
    ensures
        r == spec_status_or_space(map@, key@),
{
    let mut i: usize = 0;
    while i < map.len()
        invariant
            i <= map@.len(),
            forall|j: int| 0 <= j < i ==> map@[j].0@ != key@,
        decreases map@.len() - i,
    {
        if str_eq(map[i].0.as_str(), key) {
            proof {
                crate::gitmap::lemma_lookup_at(map@, i as int);
            }
            return map[i].1;
        }
        i = i + 1;
    }
    proof {
        crate::gitmap::lemma_lookup_none(map@, key@);
    }
    ' '
}

/// The branch glyphs for one side of a node's line.
pub open spec fn spec_branch(is_root: bool, present: bool, is_last: bool) -> Seq<char> {
    if is_root {
        Seq::empty()
    } else if present {
        if is_last {
            "└── "@
        } else {
            "├── "@
        }
    } else {
        "    "@
    }
}

/// The prefix a node's children inherit on one side.
pub open spec fn spec_next_prefix(
    prefix: Seq<char>,
    is_root: bool,
    present: bool,
    is_last: bool,
) -> Seq<char> {
    if is_root {
        Seq::empty()
    } else {
        prefix + (if present && !is_last {
            "│   "@
        } else {
            "    "@
        })
    }
}

/// How many of the nodes from position `i` on exist on the old side.
pub open spec fn count_old(children: Seq<CombinedNode>, i: int) -> int
    decreases children.len() - i,
{
    if i < 0 || i >= children.len() {
        0
    } else {
        (if children[i].old_present {
            1int
        } else {
            0int
        }) + count_old(children, i + 1)
    }
}

/// How many of the nodes from position `i` on exist on the new side.
pub open spec fn count_new(children: Seq<CombinedNode>, i: int) -> int
    decreases children.len() - i,
{
    if i < 0 || i >= children.len() {
        0
    } else {
        (if children[i].new_present {
            1int
        } else {
            0int
        }) + count_new(children, i + 1)
    }
}

/// The side-by-side lines of one node and its subtree: the node's own pair,
/// then its children, each side's connector chosen by that side's presence
/// and last-sibling position.
pub open spec fn spec_render_node(
    node: &CombinedNode,
    prefix_old: Seq<char>,
    prefix_new: Seq<char>,
    is_root: bool,
    is_last_old: bool,
    is_last_new: bool,
    m_old: Seq<(String, char)>,
    m_new: Seq<(String, char)>,
) -> Seq<(Seq<char>, Seq<char>)>
    decreases node, 1int,
{
    let line = (
        spec_format_line(
            spec_status_or_space(m_old, node.path@),
            prefix_old,
            spec_branch(is_root, node.old_present, is_last_old),
            node.old_present,
            node.name@,
            is_root,
        ),
        spec_format_line(
            spec_status_or_space(m_new, node.path@),
            prefix_new,
            spec_branch(is_root, node.new_present, is_last_new),
            node.new_present,
            node.name@,
            is_root,
        ),
    );
    seq![line] + (if node.children@.len() == 0 {
        Seq::<(Seq<char>, Seq<char>)>::empty()
    } else {
        spec_render_forest(
            node.children@,
            0,
            count_old(node.children@, 0),
            count_new(node.children@, 0),
            spec_next_prefix(prefix_old, is_root, node.old_present, is_last_old),
            spec_next_prefix(prefix_new, is_root, node.new_present, is_last_new),
            m_old,
            m_new,
        )
    })
}

/// The lines of a sibling forest from position `i` on, given how many nodes
/// of each side remain.
pub open spec fn spec_render_forest(
    children: Seq<CombinedNode>,
    i: int,
    rem_old: int,
    rem_new: int,
    prefix_old: Seq<char>,
    prefix_new: Seq<char>,
    m_old: Seq<(String, char)>,
    m_new: Seq<(String, char)>,
) -> Seq<(Seq<char>, Seq<char>)>
    decreases children, children.len() - i, 2int,
{
    if i < 0 || i >= children.len() {
        Seq::empty()
    } else {
        let c = &children[i];
        spec_render_node(
            c,
            prefix_old,
            prefix_new,
            false,
            c.old_present && rem_old == 1,
            c.new_present && rem_new == 1,
            m_old,
            m_new,
        ) + spec_render_forest(
            children,
            i + 1,
            rem_old - (if c.old_present {
                1int
            } else {
                0int
            }),
            rem_new - (if c.new_present {
                1int
            } else {
                0int
            }),
            prefix_old,
            prefix_new,
            m_old,
            m_new,
        )
    }
}

fn count_old_exec(children: &Vec<CombinedNode>) -> (r: usize)
    ensures
        r as int == count_old(children@, 0),
{
    let clen = children.len();
    let mut n: usize = 0;
    let mut i: usize = clen;
    proof {
        assert(count_old(children@, children@.len() as int) == 0);
    }
    while i > 0
        invariant
            i <= clen,
            clen == children@.len(),
            n as int == count_old(children@, i as int),
            n <= clen - i,
        decreases i,
    {
        i = i - 1;
        if children[i].old_present {
            n = n + 1;
        }
    }
    n
}

fn count_new_exec(children: &Vec<CombinedNode>) -> (r: usize)
    ensures
        r as int == count_new(children@, 0),
{
    let clen = children.len();
    let mut n: usize = 0;
    let mut i: usize = clen;
    proof {
        assert(count_new(children@, children@.len() as int) == 0);
    }
    while i > 0
        invariant
            i <= clen,
            clen == children@.len(),
            n as int == count_new(children@, i as int),
            n <= clen - i,
        decreases i,
    {
        i = i - 1;
        if children[i].new_present {
            n = n + 1;
        }
    }
    n
}

/// Views of rendered line pairs.
pub open spec fn lines_view(s: Seq<(String, String)>) -> Seq<(Seq<char>, Seq<char>)> {
    s.map_values(|p: (String, String)| (p.0@, p.1@))
}

/// Renders one node of the combined diff tree and its subtree as
/// side-by-side line pairs, appended to `lines`.
pub fn render_node(
    node: &CombinedNode,
    prefix_old: &str,
    prefix_new: &str,
    is_root: bool,
    is_last_old: bool,
    is_last_new: bool,
    statuses_old: &Vec<(String, char)>,
    statuses_new: &Vec<(String, char)>,
    lines: &mut Vec<(String, String)>,
)
    ensures
        lines_view(final(lines)@) == lines_view(old(lines)@) + spec_render_node(
            node,
            prefix_old@,
            prefix_new@,
            is_root,
            is_last_old,
            is_last_new,
            statuses_old@,
            statuses_new@,
        ),
    decreases node,
{
    let ghost base = lines_view(lines@);
    let status_left = status_or_space(statuses_old, node.path.as_str());
    let status_right = status_or_space(statuses_new, node.path.as_str());

    let branch_old: &str = if is_root {
        ""
    } else if node.old_present {
        if is_last_old {
            "└── "
        } else {
            "├── "
        }
    } else {
        "    "
    };
    let branch_new: &str = if is_root {
        ""
    } else if node.new_present {
        if is_last_new {
            "└── "
        } else {
            "├── "
        }
    } else {
        "    "
    };
    proof {
        reveal_strlit("");
        assert(branch_old@ == spec_branch(is_root, node.old_present, is_last_old));
        assert(branch_new@ == spec_branch(is_root, node.new_present, is_last_new));
    }

    let left = format_line(
        status_left,
        prefix_old,
        branch_old,
        node.old_present,
        node.name.as_str(),
        is_root,
    );
    let right = format_line(
        status_right,
        prefix_new,
        branch_new,
        node.new_present,
        node.name.as_str(),
        is_root,
    );
    lines.push((left, right));
    proof {
        assert(lines_view(lines@) =~= base + seq![
            (
                spec_format_line(
                    spec_status_or_space(statuses_old@, node.path@),
                    prefix_old@,
                    spec_branch(is_root, node.old_present, is_last_old),
                    node.old_present,
                    node.name@,
                    is_root,
                ),
                spec_format_line(
                    spec_status_or_space(statuses_new@, node.path@),
                    prefix_new@,
                    spec_branch(is_root, node.new_present, is_last_new),
                    node.new_present,
                    node.name@,
                    is_root,
                ),
            ),
        ]);
    }

    if node.children.len() == 0 {
        proof {
            assert(lines_view(lines@) =~= base + spec_render_node(
                node,
                prefix_old@,
                prefix_new@,
                is_root,
                is_last_old,
                is_last_new,
                statuses_old@,
                statuses_new@,
            ));
        }
        return;
    }

    let next_prefix_old: String = if is_root {
        String::new()
    } else {
        let mut sline = prefix_old.to_owned();
        if node.old_present && !is_last_old {
            sline.append("│   ");
        } else {
            sline.append("    ");
        }
        sline
    };
    let next_prefix_new: String = if is_root {
        String::new()
    } else {
        let mut sline = prefix_new.to_owned();
        if node.new_present && !is_last_new {
            sline.append("│   ");
        } else {
            sline.append("    ");
        }
        sline
    };
    proof {
        assert(next_prefix_old@ == spec_next_prefix(
            prefix_old@,
            is_root,
            node.old_present,
            is_last_old,
        ));
        assert(next_prefix_new@ == spec_next_prefix(
            prefix_new@,
            is_root,
            node.new_present,
            is_last_new,
        ));
    }

    let mut old_remaining = count_old_exec(&node.children);
    let mut new_remaining = count_new_exec(&node.children);
    let ghost fbase = lines_view(lines@);
    let ghost target = spec_render_forest(
        node.children@,
        0,
        count_old(node.children@, 0),
        count_new(node.children@, 0),
        next_prefix_old@,
        next_prefix_new@,
        statuses_old@,
        statuses_new@,
    );
    let mut i: usize = 0;
    while i < node.children.len()
        invariant
            i <= node.children@.len(),
            old_remaining as int == count_old(node.children@, i as int),
            new_remaining as int == count_new(node.children@, i as int),
            fbase + target =~= lines_view(lines@) + spec_render_forest(
                node.children@,
                i as int,
                old_remaining as int,
                new_remaining as int,
                next_prefix_old@,
                next_prefix_new@,
                statuses_old@,
                statuses_new@,
            ),
        decreases node.children@.len() - i,
    {
        let child = &node.children[i];
        let child_is_last_old = child.old_present && old_remaining == 1;
        let child_is_last_new = child.new_present && new_remaining == 1;
        render_node(
            child,
            next_prefix_old.as_str(),
            next_prefix_new.as_str(),
            false,
            child_is_last_old,
            child_is_last_new,
            statuses_old,
            statuses_new,
            lines,
        );
        proof {
            lemma_count_nonneg(node.children@, i + 1);
            assert(child.old_present ==> count_old(node.children@, i as int) >= 1);
            assert(child.new_present ==> count_new(node.children@, i as int) >= 1);
        }
        if child.old_present {
            old_remaining = old_remaining - 1;
        }
        if child.new_present {
            new_remaining = new_remaining - 1;
        }
        i = i + 1;
    }
    proof {
        assert(spec_render_forest(
            node.children@,
            node.children@.len() as int,
            old_remaining as int,
            new_remaining as int,
            next_prefix_old@,
            next_prefix_new@,
            statuses_old@,
            statuses_new@,
        ) =~= Seq::<(Seq<char>, Seq<char>)>::empty());
        assert(lines_view(lines@) + Seq::<(Seq<char>, Seq<char>)>::empty() =~= lines_view(
            lines@,
        ));
        assert(lines_view(lines@) =~= fbase + target);
        assert(lines_view(lines@) =~= base + spec_render_node(
            node,
            prefix_old@,
            prefix_new@,
            is_root,
            is_last_old,
            is_last_new,
            statuses_old@,
            statuses_new@,
        ));
    }
}

proof fn lemma_count_nonneg(children: Seq<CombinedNode>, i: int)
    ensures
        count_old(children, i) >= 0,
        count_new(children, i) >= 0,
    decreases children.len() - i,
{
    if 0 <= i && i < children.len() {
        lemma_count_nonneg(children, i + 1);
    }
}

} // verus!
