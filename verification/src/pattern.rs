//! Name/path pattern matching for the filter pipeline.
//!
//! Glob and regular-expression matching is performed by outside crates; the
//! compiled matchers are opaque here. What a matcher was built from, and what
//! matching yields, are given names (`glob_match`, `regex_match`, ...) that
//! the trusted wrappers below relate to the plain pattern strings.

use vstd::prelude::*;
use crate::config::{MatchMode, PatternSyntax, TypeFilter};
use crate::meta::FileKind;
use crate::meta::strings_view;
use crate::pathops::{spec_within, strip_prefix, base_name};
use crate::text::push_char;

verus! {

#[verifier::external_type_specification]
#[verifier::external_body]
pub struct ExGlobSet(globset::GlobSet);

#[verifier::external_type_specification]
#[verifier::external_body]
pub struct ExRegex(regex_automata::meta::Regex);

/// The glob patterns a compiled [`globset::GlobSet`] holds.
pub uninterp spec fn globset_patterns(gs: globset::GlobSet) -> Seq<Seq<char>>;

/// Whether a set of glob patterns all compile.
pub uninterp spec fn glob_set_ok(patterns: Seq<Seq<char>>) -> bool;

/// Whether any glob compiled from `patterns` matches `target`, under this
/// platform's path-matching rules.
pub uninterp spec fn glob_match(patterns: Seq<Seq<char>>, target: Seq<char>) -> bool;

/// The patterns a compiled [`regex_automata::meta::Regex`] holds.
pub uninterp spec fn regex_patterns(re: regex_automata::meta::Regex) -> Seq<Seq<char>>;

/// Whether a set of regex patterns compiles.
pub uninterp spec fn regex_ok(patterns: Seq<Seq<char>>) -> bool;

/// Whether the regex set compiled from `patterns` matches somewhere in
/// `hay`.
pub uninterp spec fn regex_match(patterns: Seq<Seq<char>>, hay: Seq<char>) -> bool;

/// Relies on `globset::Glob::new` and `globset::GlobSetBuilder`: compiling
/// the given patterns into a glob set succeeds or fails deterministically,
/// and the resulting set holds exactly those patterns.
#[verifier::external_body]
fn build_glob_set(patterns: &Vec<String>) -> (r: Result<globset::GlobSet, String>)
    ensures
        r is Ok <==> glob_set_ok(strings_view(patterns@)),
        r matches Ok(gs) ==> globset_patterns(gs) == strings_view(patterns@),
{
    let mut builder = globset::GlobSetBuilder::new();
    for p in patterns.iter() {
        match globset::Glob::new(p) {
            Ok(g) => {
                builder.add(g);
            },
            Err(e) => {
                return Err(e.to_string());
            },
        }
    }
    builder.build().map_err(|e| e.to_string())
}

/// Relies on `globset::GlobSet::is_match`: true if any glob in the set
/// matches the path; the decision depends only on the set's patterns and the
/// path.
#[verifier::external_body]
fn glob_set_is_match(gs: &globset::GlobSet, target: &str) -> (r: bool)
    ensures
        r == glob_match(globset_patterns(*gs), target@),
{
    gs.is_match(std::path::Path::new(target))
}

/// Relies on `regex_automata::meta::Regex::new_many`: compiling the given
/// patterns succeeds or fails deterministically, and the resulting regex
/// holds exactly those patterns.
#[verifier::external_body]
pub(crate) fn build_regex(patterns: &Vec<String>) -> (r: Result<regex_automata::meta::Regex, String>)
    ensures
        r is Ok <==> regex_ok(strings_view(patterns@)),
        r matches Ok(re) ==> regex_patterns(re) == strings_view(patterns@),
{
    regex_automata::meta::Regex::new_many(patterns.as_slice()).map_err(|e| e.to_string())
}

/// Relies on `regex_automata::meta::Regex::is_match`: true if the regex
/// matches anywhere in the haystack; the decision depends only on the
/// patterns and the haystack.
#[verifier::external_body]
pub(crate) fn regex_is_match(re: &regex_automata::meta::Regex, hay: &str) -> (r: bool)
    ensures
        r == regex_match(regex_patterns(*re), hay@),
{
    re.is_match(hay)
}

/// A compiled include/exclude matcher.
pub enum PatternList {
    Glob(globset::GlobSet),
    Regex(regex_automata::meta::Regex),
}

impl PatternList {
    /// The pattern strings this matcher was compiled from.
    pub open spec fn patterns(&self) -> Seq<Seq<char>> {
        match self {
            PatternList::Glob(gs) => globset_patterns(*gs),
            PatternList::Regex(re) => regex_patterns(*re),
        }
    }

    /// The decision this matcher gives for `target`.
    pub open spec fn spec_matches(&self, target: Seq<char>) -> bool {
        match self {
            PatternList::Glob(gs) => glob_match(globset_patterns(*gs), target),
            PatternList::Regex(re) => regex_match(regex_patterns(*re), target),
        }
    }

    /// Whether this matcher accepts `target`.
    pub fn is_match(&self, target: &str) -> (r: bool)
        ensures
            r == self.spec_matches(target@),
    {
        match self {
            PatternList::Glob(gs) => glob_set_is_match(gs, target),
            PatternList::Regex(re) => regex_is_match(re, target),
        }
    }
}

/// A dotfile: the name starts with `.`.
pub open spec fn spec_is_hidden(name: Seq<char>) -> bool {
    name.len() > 0 && name[0] == '.'
}

/// Whether the base name denotes a hidden entry.
pub fn is_hidden(name: &str) -> (r: bool)
    ensures
        r == spec_is_hidden(name@),
{
    if name.unicode_len() == 0 {
        false
    } else {
        name.get_char(0) == '.'
    }
}

/// A character that gives a pattern glob syntax.
pub open spec fn spec_is_glob_meta(c: char) -> bool {
    c == '*' || c == '?' || c == '[' || c == '{'
}

/// Whether the pattern holds any glob metacharacter.
pub open spec fn spec_contains_glob_meta(p: Seq<char>) -> bool {
    exists|j: int| 0 <= j < p.len() && spec_is_glob_meta(p[j])
}

/// Whether the pattern holds `*`, `?`, `[` or `{`.
pub fn contains_glob_meta(pattern: &str) -> (r: bool)
    ensures
        r == spec_contains_glob_meta(pattern@),
{
    let len = pattern.unicode_len();
    let mut i: usize = 0;
    while i < len
        invariant
            i <= len,
            len == pattern@.len(),
            forall|j: int| 0 <= j < i ==> !spec_is_glob_meta(pattern@[j]),
        decreases len - i,
    {
        let c = pattern.get_char(i);
        if c == '*' || c == '?' || c == '[' || c == '{' {
            assert(spec_is_glob_meta(pattern@[i as int]));
            return true;
        }
        i = i + 1;
    }
    false
}

/// The pattern actually compiled: a plain pattern without glob syntax is
/// wrapped as a contains-match when partial matching is allowed.
pub open spec fn spec_effective_pattern(p: Seq<char>, allow_partial: bool) -> Seq<char> {
    if allow_partial && !spec_contains_glob_meta(p) {
        seq!['*'] + p + seq!['*']
    } else {
        p
    }
}

/// The patterns handed to the matcher for the given syntax.
pub open spec fn spec_effective_patterns(
    ps: Seq<Seq<char>>,
    syntax: PatternSyntax,
    allow_partial: bool,
) -> Seq<Seq<char>> {
    if syntax == PatternSyntax::Glob {
        ps.map_values(|p: Seq<char>| spec_effective_pattern(p, allow_partial))
    } else {
        ps
    }
}

fn effective_pattern(p: &String, allow_partial: bool) -> (r: String)
    ensures
        r@ == spec_effective_pattern(p@, allow_partial),
{
    if allow_partial && !contains_glob_meta(p.as_str()) {
        let mut s = String::new();
        push_char(&mut s, '*');
        s.append(p.as_str());
        push_char(&mut s, '*');
        proof {
            assert(s@ =~= seq!['*'] + p@ + seq!['*']);
        }
        s
    } else {
        p.clone()
    }
}

/// Compiles the configured patterns into a matcher.
///
/// `None` exactly when no pattern was given; an error exactly when the
/// effective patterns do not compile under the chosen syntax.
pub fn build_patterns(patterns: &Vec<String>, syntax: PatternSyntax, allow_partial: bool) -> (r:
    Result<Option<PatternList>, String>)
    ensures
        ({
            let effective = spec_effective_patterns(
                strings_view(patterns@),
                syntax,
                allow_partial,
            );
            match r {
                Result::Ok(Option::None) => patterns@.len() == 0,
                Result::Ok(Option::Some(pl)) => patterns@.len() > 0 && pl.patterns() == effective
                    && (match pl {
                    PatternList::Glob(_) => syntax == PatternSyntax::Glob && glob_set_ok(effective),
                    PatternList::Regex(_) => syntax == PatternSyntax::Regex && regex_ok(effective),
                }),
                Result::Err(_) => patterns@.len() > 0 && (if syntax == PatternSyntax::Glob {
                    !glob_set_ok(effective)
                } else {
                    !regex_ok(effective)
                }),
            }
        }),
{
    if patterns.len() == 0 {
        return Ok(Option::None);
    }
    match syntax {
        PatternSyntax::Glob => {
            let mut effective: Vec<String> = Vec::new();
            let mut i: usize = 0;
            while i < patterns.len()
                invariant
                    i <= patterns@.len(),
                    effective@.len() == i,
                    forall|j: int|
                        0 <= j < i ==> (#[trigger] effective@[j])@ == spec_effective_pattern(
                            patterns@[j]@,
                            allow_partial,
                        ),
                decreases patterns@.len() - i,
            {
                effective.push(effective_pattern(&patterns[i], allow_partial));
                i = i + 1;
            }
            proof {
                assert(strings_view(effective@) =~= spec_effective_patterns(
                    strings_view(patterns@),
                    PatternSyntax::Glob,
                    allow_partial,
                ));
            }
            match build_glob_set(&effective) {
                Ok(gs) => Ok(Option::Some(PatternList::Glob(gs))),
                Err(e) => {
                    let mut msg = String::from_str("invalid glob: ");
                    msg.append(e.as_str());
                    Err(msg)
                },
            }
        },
        PatternSyntax::Regex => {
            match build_regex(patterns) {
                Ok(re) => Ok(Option::Some(PatternList::Regex(re))),
                Err(e) => {
                    let mut msg = String::from_str("invalid regex pattern: ");
                    msg.append(e.as_str());
                    Err(msg)
                },
            }
        },
    }
}

/// What a pattern is matched against: the base name, or the path made
/// relative to the scan root (the path itself when it does not lie within
/// the root).
pub open spec fn spec_target_for_glob(root: Seq<char>, path: Seq<char>, mode: MatchMode) -> Seq<
    char,
> {
    match mode {
        MatchMode::Name => crate::pathops::spec_base_name(path),
        MatchMode::Path => {
            if spec_within(path, root) {
                if path == root {
                    Seq::empty()
                } else {
                    path.subrange(root.len() as int + 1, path.len() as int)
                }
            } else {
                path
            }
        },
    }
}

/// The text the matchers are applied to for `path`.
pub fn target_for_glob(root: &str, path: &str, mode: MatchMode) -> (r: String)
    ensures
        r@ == spec_target_for_glob(root@, path@, mode),
{
    match mode {
        MatchMode::Name => base_name(path),
        MatchMode::Path => {
            match strip_prefix(path, root) {
                Option::Some(rest) => {
                    proof {
                        if path@ == root@ {
                            assert(rest@ =~= Seq::<char>::empty());
                        }
                    }
                    rest
                },
                Option::None => path.to_owned(),
            }
        },
    }
}

/// The include/exclude decision for `path`: the include matcher (when
/// configured) must accept the target and the exclude matcher (when
/// configured) must not.
pub open spec fn spec_match_globs(
    root: Seq<char>,
    path: Seq<char>,
    inc: Option<PatternList>,
    exc: Option<PatternList>,
    mode: MatchMode,
) -> bool {
    let target = spec_target_for_glob(root, path, mode);
    (match inc {
        Option::Some(pl) => pl.spec_matches(target),
        Option::None => true,
    }) && (match exc {
        Option::Some(pl) => !pl.spec_matches(target),
        Option::None => true,
    })
}

/// Applies the include and exclude matchers to `path`.
pub fn match_globs(
    root: &str,
    path: &str,
    inc: &Option<PatternList>,
    exc: &Option<PatternList>,
    mode: MatchMode,
) -> (r: bool)
    ensures
        r == spec_match_globs(root@, path@, *inc, *exc, mode),
{
    match inc {
        Option::Some(pl) => {
            let target = target_for_glob(root, path, mode);
            if !pl.is_match(target.as_str()) {
                return false;
            }
        },
        Option::None => {},
    }
    match exc {
        Option::Some(pl) => {
            let target = target_for_glob(root, path, mode);
            if pl.is_match(target.as_str()) {
                return false;
            }
        },
        Option::None => {},
    }
    true
}

/// Entry-type decision for one selector.
pub open spec fn spec_matches_type(t: TypeFilter, ty: FileKind) -> bool {
    match t {
        TypeFilter::File => ty != FileKind::Dir && ty != FileKind::Symlink,
        TypeFilter::Dir => ty == FileKind::Dir,
        TypeFilter::Symlink => ty == FileKind::Symlink,
    }
}

/// Entry-type decision: no selector accepts everything; otherwise some
/// selector must match.
pub open spec fn spec_allow_type(ty: FileKind, types: Seq<TypeFilter>) -> bool {
    types.len() == 0 || exists|i: int| 0 <= i < types.len() && spec_matches_type(types[i], ty)
}

/// Whether the entry type passes the configured type selectors.
pub fn allow_type(ty: FileKind, types: &Vec<TypeFilter>) -> (r: bool)
    ensures
        r == spec_allow_type(ty, types@),
{
    if types.len() == 0 {
        return true;
    }
    let mut i: usize = 0;
    while i < types.len()
        invariant
            i <= types@.len(),
            forall|j: int| 0 <= j < i ==> !spec_matches_type(types@[j], ty),
        decreases types@.len() - i,
    {
        let t = types[i];
        let ok = match t {
            TypeFilter::File => !(ty == FileKind::Dir) && !(ty == FileKind::Symlink),
            TypeFilter::Dir => ty == FileKind::Dir,
            TypeFilter::Symlink => ty == FileKind::Symlink,
        };
        if ok {
            assert(spec_matches_type(types@[i as int], ty));
            return true;
        }
        i = i + 1;
    }
    false
}

/// Backslashes turned into separators, as pattern normalization does.
pub open spec fn spec_norm_char(c: char) -> char {
    if c == '\\' {
        '/'
    } else {
        c
    }
}

/// A pattern with every backslash normalized to `/`.
pub open spec fn spec_norm(p: Seq<char>) -> Seq<char> {
    p.map_values(|c: char| spec_norm_char(c))
}

fn normalize_pattern(p: &str) -> (r: String)
    ensures
        r@ == spec_norm(p@),
{
    let len = p.unicode_len();
    let mut s = String::new();
    let mut i: usize = 0;
    while i < len
        invariant
            i <= len,
            len == p@.len(),
            s@.len() == i,
            forall|j: int| 0 <= j < i ==> s@[j] == spec_norm_char(p@[j]),
        decreases len - i,
    {
        let c = p.get_char(i);
        if c == '\\' {
            push_char(&mut s, '/');
        } else {
            push_char(&mut s, c);
        }
        i = i + 1;
    }
    proof {
        assert(s@ =~= spec_norm(p@));
    }
    s
}

/// Splitting on `/` with empty segments dropped, scanning left to right with
/// the segment collected so far in `cur`.
pub open spec fn split_acc(p: Seq<char>, cur: Seq<char>) -> Seq<Seq<char>>
    decreases p.len(),
{
    if p.len() == 0 {
        if cur.len() == 0 {
            Seq::empty()
        } else {
            seq![cur]
        }
    } else if p[0] == '/' {
        (if cur.len() == 0 {
            Seq::<Seq<char>>::empty()
        } else {
            seq![cur]
        }) + split_acc(p.drop_first(), Seq::empty())
    } else {
        split_acc(p.drop_first(), cur.push(p[0]))
    }
}

/// The non-empty `/`-separated segments of a pattern.
pub open spec fn split_nonempty(p: Seq<char>) -> Seq<Seq<char>> {
    split_acc(p, Seq::empty())
}

fn split_segments(s: &str) -> (r: Vec<String>)
    ensures
        strings_view(r@) == split_nonempty(s@),
{
    let len = s.unicode_len();
    let mut parts: Vec<String> = Vec::new();
    let mut cur = String::new();
    let mut i: usize = 0;
    proof {
        assert(s@.skip(0) =~= s@);
    }
    while i < len
        invariant
            i <= len,
            len == s@.len(),
            split_nonempty(s@) == strings_view(parts@) + split_acc(s@.skip(i as int), cur@),
        decreases len - i,
    {
        let c = s.get_char(i);
        let ghost pre_parts = strings_view(parts@);
        let ghost pre_cur = cur@;
        let ghost rem = s@.skip(i as int);
        proof {
            assert(rem[0] == s@[i as int]);
            assert(rem.drop_first() =~= s@.skip(i + 1));
        }
        if c == '/' {
            proof {
                assert(split_acc(rem, pre_cur) == (if pre_cur.len() == 0 {
                    Seq::<Seq<char>>::empty()
                } else {
                    seq![pre_cur]
                }) + split_acc(s@.skip(i + 1), Seq::<char>::empty()));
            }
            if cur.as_str().unicode_len() > 0 {
                parts.push(cur);
                cur = String::new();
                proof {
                    assert(strings_view(parts@) =~= pre_parts + seq![pre_cur]);
                    let x = split_acc(s@.skip(i + 1), Seq::<char>::empty());
                    assert(split_acc(rem, pre_cur) == seq![pre_cur] + x);
                    assert((pre_parts + seq![pre_cur]) + x =~= pre_parts + (seq![pre_cur] + x));
                    assert(strings_view(parts@) + split_acc(s@.skip(i + 1), cur@) == pre_parts
                        + split_acc(rem, pre_cur));
                }
            } else {
                proof {
                    assert(pre_cur.len() == 0);
                    assert(pre_cur =~= Seq::<char>::empty());
                    assert(Seq::<Seq<char>>::empty() + split_acc(s@.skip(i + 1), Seq::<char>::empty())
                        =~= split_acc(s@.skip(i + 1), Seq::<char>::empty()));
                    assert(strings_view(parts@) + split_acc(s@.skip(i + 1), cur@) =~= pre_parts
                        + split_acc(rem, pre_cur));
                }
            }
        } else {
            push_char(&mut cur, c);
            proof {
                assert(split_acc(rem, pre_cur) == split_acc(s@.skip(i + 1), pre_cur.push(
                    s@[i as int],
                )));
            }
        }
        i = i + 1;
    }
    proof {
        assert(s@.skip(len as int) =~= Seq::<char>::empty());
    }
    if cur.as_str().unicode_len() > 0 {
        let ghost pre_parts = strings_view(parts@);
        let ghost pre_cur = cur@;
        parts.push(cur);
        proof {
            assert(split_acc(Seq::<char>::empty(), pre_cur) =~= seq![pre_cur]);
            assert(strings_view(parts@) =~= pre_parts + seq![pre_cur]);
        }
    } else {
        proof {
            assert(split_acc(Seq::<char>::empty(), cur@) =~= Seq::<Seq<char>>::empty());
        }
    }
    proof {
        assert(strings_view(parts@) =~= split_nonempty(s@));
    }
    parts
}

/// The segments `1..=k` joined with `/`.
pub open spec fn joined_upto(parts: Seq<Seq<char>>, k: int) -> Seq<char>
    decreases k,
{
    if k <= 1 {
        parts[0]
    } else {
        joined_upto(parts, k - 1) + seq!['/'] + parts[k - 1]
    }
}

/// How many leading segments are free of glob metacharacters.
pub open spec fn clean_count(parts: Seq<Seq<char>>) -> int
    decreases parts.len(),
{
    if parts.len() == 0 {
        0
    } else if spec_contains_glob_meta(parts[0]) {
        0
    } else {
        1 + clean_count(parts.drop_first())
    }
}

/// How many prefixes one pattern contributes: one per clean segment, except
/// that the full pattern itself is kept only when it ended in `/`.
pub open spec fn emitted_count(parts: Seq<Seq<char>>, keep_last: bool) -> int {
    let n = clean_count(parts);
    if n == parts.len() && !keep_last {
        if n == 0 {
            0
        } else {
            n - 1
        }
    } else {
        n
    }
}

/// A candidate prefix made relative to the scan root when it lies within it.
pub open spec fn spec_strip_or_self(q: Seq<char>, root: Seq<char>) -> Seq<char> {
    if spec_within(q, root) {
        if q == root {
            Seq::empty()
        } else {
            q.subrange(root.len() as int + 1, q.len() as int)
        }
    } else {
        q
    }
}

/// The directory prefixes one pattern contributes.
pub open spec fn spec_pattern_prefixes(p: Seq<char>, root: Seq<char>) -> Seq<Seq<char>> {
    let norm = spec_norm(p);
    let parts = split_nonempty(norm);
    let keep_last = norm.len() > 0 && norm.last() == '/';
    Seq::new(
        emitted_count(parts, keep_last) as nat,
        |i: int| spec_strip_or_self(joined_upto(parts, i + 1), root),
    )
}

/// The directory prefixes of all patterns, in pattern order.
pub open spec fn spec_all_prefixes(pats: Seq<Seq<char>>, root: Seq<char>) -> Seq<Seq<char>>
    decreases pats.len(),
{
    if pats.len() == 0 {
        Seq::empty()
    } else {
        spec_all_prefixes(pats.drop_last(), root) + spec_pattern_prefixes(pats.last(), root)
    }
}

/// What [`build_include_prefixes`] yields: nothing unless path-based glob
/// patterns are in use, otherwise every glob-free leading prefix of each
/// pattern, made relative to the root.
pub open spec fn spec_include_prefixes(
    pats: Seq<Seq<char>>,
    root: Seq<char>,
    syntax: PatternSyntax,
    mode: MatchMode,
) -> Seq<Seq<char>> {
    if pats.len() == 0 || mode != MatchMode::Path || syntax != PatternSyntax::Glob {
        Seq::empty()
    } else {
        spec_all_prefixes(pats, root)
    }
}

proof fn lemma_clean_count(parts: Seq<Seq<char>>)
    ensures
        0 <= clean_count(parts) <= parts.len(),
        forall|j: int| 0 <= j < clean_count(parts) ==> !spec_contains_glob_meta(parts[j]),
        clean_count(parts) < parts.len() ==> spec_contains_glob_meta(parts[clean_count(parts)]),
    decreases parts.len(),
{
    if parts.len() > 0 && !spec_contains_glob_meta(parts[0]) {
        let d = parts.drop_first();
        lemma_clean_count(d);
        assert(forall|j: int| 0 <= j < d.len() ==> d[j] == parts[j + 1]);
        assert forall|j: int| 0 <= j < clean_count(parts) implies !spec_contains_glob_meta(
            parts[j],
        ) by {
            if j > 0 {
                assert(!spec_contains_glob_meta(d[j - 1]));
            }
        }
        if clean_count(parts) < parts.len() {
            assert(d[clean_count(d)] == parts[clean_count(parts)]);
        }
    }
}

fn strip_or_self(q: &str, root: &str) -> (r: String)
    ensures
        r@ == spec_strip_or_self(q@, root@),
{
    match strip_prefix(q, root) {
        Option::Some(rest) => {
            proof {
                if q@ == root@ {
                    assert(rest@ =~= Seq::<char>::empty());
                }
            }
            rest
        },
        Option::None => q.to_owned(),
    }
}

/// Collects, for path-mode glob patterns, the directory prefixes that may
/// still lead to an included entry: every glob-free leading portion of each
/// pattern, relative to the scan root.
pub fn build_include_prefixes(
    root: &str,
    patterns: &Vec<String>,
    syntax: PatternSyntax,
    mode: MatchMode,
) -> (r: Vec<String>)
    ensures
        strings_view(r@) == spec_include_prefixes(strings_view(patterns@), root@, syntax, mode),
{
    let mut out: Vec<String> = Vec::new();
    if patterns.len() == 0 {
        return out;
    }
    match mode {
        MatchMode::Name => {
            return out;
        },
        MatchMode::Path => {},
    }
    match syntax {
        PatternSyntax::Regex => {
            return out;
        },
        PatternSyntax::Glob => {},
    }
    let mut pi: usize = 0;
    while pi < patterns.len()
        invariant
            pi <= patterns@.len(),
            strings_view(out@) == spec_all_prefixes(
                strings_view(patterns@).take(pi as int),
                root@,
            ),
        decreases patterns@.len() - pi,
    {
        let norm = normalize_pattern(patterns[pi].as_str());
        let norm_len = norm.as_str().unicode_len();
        let keep_last = norm_len > 0 && norm.as_str().get_char(norm_len - 1) == '/';
        let parts = split_segments(norm.as_str());
        let ghost pviews = strings_view(parts@);
        proof {
            lemma_clean_count(pviews);
        }
        let ghost emit_seq = spec_pattern_prefixes(patterns@[pi as int]@, root@);
        let ghost base = strings_view(out@);
        let mut buf = String::new();
        let mut idx: usize = 0;
        let mut stop = false;
        let ghost mut emitted: int = 0;
        while idx < parts.len() && !stop
            invariant
                0 <= idx <= parts@.len(),
                pviews == strings_view(parts@),
                emit_seq == spec_pattern_prefixes(patterns@[pi as int]@, root@),
                emit_seq.len() == emitted_count(pviews, keep_last),
                forall|i: int|
                    0 <= i < emit_seq.len() ==> emit_seq[i] == spec_strip_or_self(
                        joined_upto(pviews, i + 1),
                        root@,
                    ),
                !stop ==> clean_count(pviews) >= idx,
                !stop ==> (idx > 0 ==> buf@ == joined_upto(pviews, idx as int)),
                !stop ==> emitted == (if idx < pviews.len() || pviews.len() == 0 {
                    idx as int
                } else if keep_last {
                    idx as int
                } else {
                    idx - 1
                }),
                stop ==> emitted == emit_seq.len(),
                0 <= emitted <= emit_seq.len(),
                strings_view(out@) == base + emit_seq.take(emitted),
            decreases parts@.len() - idx, (if stop { 0int } else { 1int }),
        {
            if contains_glob_meta(parts[idx].as_str()) {
                proof {
                    lemma_clean_count(pviews);
                    assert(parts@[idx as int]@ == pviews[idx as int]);
                    if clean_count(pviews) > idx {
                        assert(!spec_contains_glob_meta(pviews[idx as int]));
                    }
                    assert(clean_count(pviews) == idx);
                    assert(emitted == emit_seq.len());
                }
                stop = true;
            } else {
                proof {
                    lemma_clean_count_step(pviews, idx as int);
                }
                if idx == 0 {
                    buf = parts[0].clone();
                } else {
                    push_char(&mut buf, '/');
                    buf.append(parts[idx].as_str());
                    proof {
                        assert(buf@ =~= joined_upto(pviews, idx + 1));
                    }
                }
                let is_last = idx + 1 == parts.len();
                if !is_last || keep_last {
                    let ghost before = strings_view(out@);
                    out.push(strip_or_self(buf.as_str(), root));
                    proof {
                        assert(strings_view(out@) =~= before + seq![
                            spec_strip_or_self(joined_upto(pviews, idx + 1), root@),
                        ]);
                        assert(emitted + 1 <= emit_seq.len());
                        assert(emit_seq.take(emitted + 1) =~= emit_seq.take(emitted) + seq![
                            emit_seq[emitted],
                        ]);
                        emitted = emitted + 1;
                    }
                }
                idx = idx + 1;
            }
        }
        proof {
            if !stop {
                assert(idx == parts@.len());
                lemma_clean_count(pviews);
                assert(clean_count(pviews) == pviews.len());
                assert(emitted == emit_seq.len());
            }
            assert(emit_seq.take(emitted) =~= emit_seq);
            assert(strings_view(out@) == base + emit_seq);
            assert(strings_view(patterns@).take(pi + 1).drop_last() =~= strings_view(
                patterns@,
            ).take(pi as int));
            assert(strings_view(patterns@).take(pi + 1).last() == patterns@[pi as int]@);
        }
        pi = pi + 1;
    }
    proof {
        assert(strings_view(patterns@).take(patterns@.len() as int) =~= strings_view(patterns@));
    }
    out
}

proof fn lemma_clean_count_step(parts: Seq<Seq<char>>, idx: int)
    requires
        0 <= idx < parts.len(),
        clean_count(parts) >= idx,
        !spec_contains_glob_meta(parts[idx]),
    ensures
        clean_count(parts) >= idx + 1,
    decreases idx,
{
    lemma_clean_count(parts);
    if clean_count(parts) == idx {
        assert(spec_contains_glob_meta(parts[idx]));
    }
}

/// Whether a directory may still be descended into while an inclusion
/// matcher is active: in name mode always, in path mode only when some
/// pattern prefix covers the directory's path relative to the root.
pub open spec fn spec_include_dir_allowed(
    root: Seq<char>,
    dir_path: Seq<char>,
    has_inc: bool,
    prefixes: Seq<Seq<char>>,
    mode: MatchMode,
) -> bool {
    if !has_inc {
        false
    } else {
        let relative = spec_strip_or_self(dir_path, root);
        match mode {
            MatchMode::Name => true,
            MatchMode::Path => prefixes.len() == 0 || exists|i: int|
                0 <= i < prefixes.len() && spec_within(relative, prefixes[i]),
        }
    }
}

/// Decides whether a directory can contain entries an inclusion pattern may
/// still match.
pub fn include_dir_allowed(
    root: &str,
    dir_path: &str,
    inc: &Option<PatternList>,
    prefixes: &Vec<String>,
    mode: MatchMode,
) -> (r: bool)
    ensures
        r == spec_include_dir_allowed(
            root@,
            dir_path@,
            inc is Some,
            strings_view(prefixes@),
            mode,
        ),
{
    if inc.is_none() {
        return false;
    }
    let relative = strip_or_self(dir_path, root);
    match mode {
        MatchMode::Name => true,
        MatchMode::Path => {
            if prefixes.len() == 0 {
                return true;
            }
            let mut i: usize = 0;
            while i < prefixes.len()
                invariant
                    i <= prefixes@.len(),
                    inc is Some,
                    prefixes@.len() > 0,
                    mode == MatchMode::Path,
                    relative@ == spec_strip_or_self(dir_path@, root@),
                    forall|j: int|
                        0 <= j < i ==> !spec_within(relative@, strings_view(prefixes@)[j]),
                decreases prefixes@.len() - i,
            {
                if crate::pathops::path_within(relative.as_str(), prefixes[i].as_str()) {
                    proof {
                        assert(spec_within(relative@, strings_view(prefixes@)[i as int]));
                    }
                    return true;
                }
                i = i + 1;
            }
            false
        },
    }
}

} // verus!
