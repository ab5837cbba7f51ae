//! The filter pipeline: size, modification-time and permission predicates,
//! their textual specifications, and the combined per-entry decision.
//!
//! All configured filters are ANDed; an entry missing the metadata a filter
//! needs never matches.

use vstd::prelude::*;
use crate::config::{Cli, MatchMode};
use crate::meta::{EntryMeta, EntryMetaV};
use crate::pattern::{regex_match, regex_ok, regex_patterns, target_for_glob, spec_target_for_glob};

verus! {

/// Comparison operator of a size filter.
#[derive(Clone, Copy, PartialEq, Eq, Structural, Debug)]
pub enum SizeCmp {
    Lt,
    Le,
    Eq,
    Ge,
    Gt,
}

/// Size predicate: compare the entry size against a byte threshold.
#[derive(Clone, Copy, PartialEq, Eq, Structural, Debug)]
pub struct SizeFilter {
    pub cmp: SizeCmp,
    pub threshold: u64,
}

/// Modification-time predicate: entries at or after `earliest` pass.
#[derive(Clone, Copy, PartialEq, Eq, Structural, Debug)]
pub struct MtimeFilter {
    /// Earliest acceptable time, seconds since the Unix epoch.
    pub earliest: u64,
}

/// Permission predicate: exact match on the low permission bits.
#[derive(Clone, Copy, PartialEq, Eq, Structural, Debug)]
pub struct PermFilter {
    pub expected: u32,
}

/// Verdict of a size filter; an unknown size never matches.
pub open spec fn spec_size_allows(f: SizeFilter, size: Option<u64>) -> bool {
    match size {
        Option::None => false,
        Option::Some(s) => match f.cmp {
            SizeCmp::Lt => s < f.threshold,
            SizeCmp::Le => s <= f.threshold,
            SizeCmp::Eq => s == f.threshold,
            SizeCmp::Ge => s >= f.threshold,
            SizeCmp::Gt => s > f.threshold,
        },
    }
}

impl SizeFilter {
    /// Whether an entry of the given size passes.
    pub fn allows(&self, size: Option<u64>) -> (r: bool)
        ensures
            r == spec_size_allows(*self, size),
    {
        match size {
            Option::None => false,
            Option::Some(s) => match self.cmp {
                SizeCmp::Lt => s < self.threshold,
                SizeCmp::Le => s <= self.threshold,
                SizeCmp::Eq => s == self.threshold,
                SizeCmp::Ge => s >= self.threshold,
                SizeCmp::Gt => s > self.threshold,
            },
        }
    }
}

/// Verdict of an mtime filter; an unknown mtime never matches.
pub open spec fn spec_mtime_allows(f: MtimeFilter, mtime: Option<u64>) -> bool {
    match mtime {
        Option::None => false,
        Option::Some(t) => t >= f.earliest,
    }
}

impl MtimeFilter {
    /// Whether an entry modified at the given time passes.
    pub fn allows(&self, mtime: Option<u64>) -> (r: bool)
        ensures
            r == spec_mtime_allows(*self, mtime),
    {
        match mtime {
            Option::None => false,
            Option::Some(t) => t >= self.earliest,
        }
    }
}

/// Verdict of a permission filter; unknown bits never match.
pub open spec fn spec_perm_allows(f: PermFilter, perm: Option<u32>) -> bool {
    match perm {
        Option::None => false,
        Option::Some(bits) => bits & 0o777 == f.expected,
    }
}

impl PermFilter {
    /// Whether an entry with the given permission bits passes.
    pub fn allows(&self, perm: Option<u32>) -> (r: bool)
        ensures
            r == spec_perm_allows(*self, perm),
    {
        match perm {
            Option::None => false,
            Option::Some(bits) => bits & 0o777 == self.expected,
        }
    }
}

/// Whitespace trimmed from the ends of a filter specification.
pub open spec fn spec_is_space(c: char) -> bool {
    c == ' ' || c == '\t' || c == '\n' || c == '\r'
}

/// Number of leading whitespace characters.
pub open spec fn leading_spaces(s: Seq<char>) -> int
    decreases s.len(),
{
    if s.len() == 0 {
        0
    } else if spec_is_space(s[0]) {
        1 + leading_spaces(s.drop_first())
    } else {
        0
    }
}

/// Number of trailing whitespace characters.
pub open spec fn trailing_spaces(s: Seq<char>) -> int
    decreases s.len(),
{
    if s.len() == 0 {
        0
    } else if spec_is_space(s.last()) {
        1 + trailing_spaces(s.drop_last())
    } else {
        0
    }
}

/// `s` with whitespace removed from both ends.
pub open spec fn spec_trim(s: Seq<char>) -> Seq<char> {
    let a = leading_spaces(s);
    let b = s.len() - trailing_spaces(s);
    if a >= b {
        Seq::empty()
    } else {
        s.subrange(a, b)
    }
}

proof fn lemma_leading_spaces(s: Seq<char>)
    ensures
        0 <= leading_spaces(s) <= s.len(),
        forall|j: int| 0 <= j < leading_spaces(s) ==> spec_is_space(s[j]),
        leading_spaces(s) < s.len() ==> !spec_is_space(s[leading_spaces(s)]),
    decreases s.len(),
{
    if s.len() > 0 && spec_is_space(s[0]) {
        let d = s.drop_first();
        lemma_leading_spaces(d);
        assert(forall|j: int| 0 <= j < d.len() ==> d[j] == s[j + 1]);
        assert forall|j: int| 0 <= j < leading_spaces(s) implies spec_is_space(s[j]) by {
            if j > 0 {
                assert(spec_is_space(d[j - 1]));
            }
        }
        if leading_spaces(s) < s.len() {
            assert(d[leading_spaces(d)] == s[leading_spaces(s)]);
        }
    }
}

proof fn lemma_trailing_spaces(s: Seq<char>)
    ensures
        0 <= trailing_spaces(s) <= s.len(),
        forall|j: int| s.len() - trailing_spaces(s) <= j < s.len() ==> spec_is_space(s[j]),
        trailing_spaces(s) < s.len() ==> !spec_is_space(s[s.len() - trailing_spaces(s) - 1]),
    decreases s.len(),
{
    if s.len() > 0 && spec_is_space(s.last()) {
        let d = s.drop_last();
        lemma_trailing_spaces(d);
        assert(forall|j: int| 0 <= j < d.len() ==> d[j] == s[j]);
        assert forall|j: int| s.len() - trailing_spaces(s) <= j < s.len() implies spec_is_space(
            s[j],
        ) by {
            if j < s.len() - 1 {
                assert(spec_is_space(d[j]));
            }
        }
        if trailing_spaces(s) < s.len() {
            assert(d[d.len() - trailing_spaces(d) - 1] == s[s.len() - trailing_spaces(s) - 1]);
        }
    }
}

fn is_space_exec(c: char) -> (r: bool)
    ensures
        r == spec_is_space(c),
{
    c == ' ' || c == '\t' || c == '\n' || c == '\r'
}

/// Removes whitespace from both ends.
pub fn trim(s: &str) -> (r: String)
    ensures
        r@ == spec_trim(s@),
{
    let len = s.unicode_len();
    proof {
        lemma_leading_spaces(s@);
        lemma_trailing_spaces(s@);
    }
    let mut a: usize = 0;
    while a < len && is_space_exec(s.get_char(a))
        invariant
            a <= len,
            len == s@.len(),
            forall|j: int| 0 <= j < a ==> spec_is_space(s@[j]),
            leading_spaces(s@) >= a,
        decreases len - a,
    {
        proof {
            lemma_leading_spaces_step(s@, a as int);
        }
        a = a + 1;
    }
    proof {
        lemma_leading_spaces(s@);
        assert(leading_spaces(s@) == a);
    }
    let mut b: usize = len;
    while b > a && is_space_exec(s.get_char(b - 1))
        invariant
            a <= b <= len,
            len == s@.len(),
            forall|j: int| b <= j < len ==> spec_is_space(s@[j]),
            trailing_spaces(s@) >= len - b,
        decreases b,
    {
        proof {
            lemma_trailing_spaces_step(s@, b as int);
        }
        b = b - 1;
    }
    proof {
        lemma_trailing_spaces(s@);
        lemma_leading_spaces(s@);
        if b > a {
            assert(trailing_spaces(s@) == len - b);
        } else {
            assert(b == a);
            assert(trailing_spaces(s@) >= len - a);
            assert(leading_spaces(s@) >= s@.len() - trailing_spaces(s@));
        }
    }
    if a >= b {
        proof {
            assert(spec_trim(s@) =~= Seq::<char>::empty());
        }
        String::new()
    } else {
        let t = s.substring_char(a, b);
        t.to_owned()
    }
}

proof fn lemma_leading_spaces_step(s: Seq<char>, a: int)
    requires
        0 <= a < s.len(),
        forall|j: int| 0 <= j <= a ==> spec_is_space(s[j]),
    ensures
        leading_spaces(s) >= a + 1,
    decreases a,
{
    let d = s.drop_first();
    if a == 0 {
        lemma_leading_spaces(d);
    } else {
        assert forall|j: int| 0 <= j <= a - 1 implies spec_is_space(d[j]) by {
            assert(d[j] == s[j + 1]);
        }
        lemma_leading_spaces_step(d, a - 1);
    }
}

proof fn lemma_trailing_spaces_step(s: Seq<char>, b: int)
    requires
        0 < b <= s.len(),
        forall|j: int| b - 1 <= j < s.len() ==> spec_is_space(s[j]),
    ensures
        trailing_spaces(s) >= s.len() - b + 1,
    decreases s.len() - b,
{
    let d = s.drop_last();
    if b == s.len() {
        lemma_trailing_spaces(d);
    } else {
        assert forall|j: int| b - 1 <= j < d.len() implies spec_is_space(d[j]) by {
            assert(d[j] == s[j]);
        }
        lemma_trailing_spaces_step(d, b);
    }
}

/// A decimal digit.
pub open spec fn spec_is_digit(c: char) -> bool {
    '0' <= c && c <= '9'
}

/// Numeric value of a digit character.
pub open spec fn digit_val(c: char) -> int {
    (c as u32) - ('0' as u32)
}

/// Value of a decimal digit string.
pub open spec fn dec_value(s: Seq<char>) -> int
    decreases s.len(),
{
    if s.len() == 0 {
        0
    } else {
        dec_value(s.drop_last()) * 10 + digit_val(s.last())
    }
}

/// Index of the first non-digit character, or the length when all are
/// digits.
pub open spec fn digit_prefix_len(s: Seq<char>) -> int
    decreases s.len(),
{
    if s.len() == 0 {
        0
    } else if !spec_is_digit(s[0]) {
        0
    } else {
        1 + digit_prefix_len(s.drop_first())
    }
}

proof fn lemma_digit_prefix(s: Seq<char>)
    ensures
        0 <= digit_prefix_len(s) <= s.len(),
        forall|j: int| 0 <= j < digit_prefix_len(s) ==> spec_is_digit(s[j]),
        digit_prefix_len(s) < s.len() ==> !spec_is_digit(s[digit_prefix_len(s)]),
    decreases s.len(),
{
    if s.len() > 0 && spec_is_digit(s[0]) {
        let d = s.drop_first();
        lemma_digit_prefix(d);
        assert(forall|j: int| 0 <= j < d.len() ==> d[j] == s[j + 1]);
        assert forall|j: int| 0 <= j < digit_prefix_len(s) implies spec_is_digit(s[j]) by {
            if j > 0 {
                assert(spec_is_digit(d[j - 1]));
            }
        }
        if digit_prefix_len(s) < s.len() {
            assert(d[digit_prefix_len(d)] == s[digit_prefix_len(s)]);
        }
    }
}

proof fn lemma_digit_prefix_step(s: Seq<char>, a: int)
    requires
        0 <= a < s.len(),
        forall|j: int| 0 <= j <= a ==> spec_is_digit(s[j]),
    ensures
        digit_prefix_len(s) >= a + 1,
    decreases a,
{
    let d = s.drop_first();
    if a == 0 {
        lemma_digit_prefix(d);
    } else {
        assert forall|j: int| 0 <= j <= a - 1 implies spec_is_digit(d[j]) by {
            assert(d[j] == s[j + 1]);
        }
        lemma_digit_prefix_step(d, a - 1);
    }
}

fn is_digit_exec(c: char) -> (r: bool)
    ensures
        r == spec_is_digit(c),
{
    ('0' as u32) <= (c as u32) && (c as u32) <= ('9' as u32)
}

/// Finds how many leading characters of `s` are decimal digits.
fn digit_prefix(s: &str) -> (r: usize)
    ensures
        r == digit_prefix_len(s@),
{
    let len = s.unicode_len();
    proof {
        lemma_digit_prefix(s@);
    }
    let mut i: usize = 0;
    while i < len && is_digit_exec(s.get_char(i))
        invariant
            i <= len,
            len == s@.len(),
            forall|j: int| 0 <= j < i ==> spec_is_digit(s@[j]),
            digit_prefix_len(s@) >= i,
        decreases len - i,
    {
        proof {
            lemma_digit_prefix_step(s@, i as int);
        }
        i = i + 1;
    }
    proof {
        lemma_digit_prefix(s@);
    }
    i
}

proof fn lemma_dec_value_nonneg(s: Seq<char>)
    requires
        forall|j: int| 0 <= j < s.len() ==> spec_is_digit(s[j]),
    ensures
        dec_value(s) >= 0,
    decreases s.len(),
{
    if s.len() > 0 {
        assert(forall|j: int| 0 <= j < s.len() - 1 ==> spec_is_digit(s.drop_last()[j]));
        lemma_dec_value_nonneg(s.drop_last());
    }
}

proof fn lemma_dec_value_extend(s: Seq<char>, i: int)
    requires
        0 <= i <= s.len(),
        forall|j: int| 0 <= j < s.len() ==> spec_is_digit(s[j]),
    ensures
        dec_value(s.take(i)) <= dec_value(s),
    decreases s.len() - i,
{
    if i < s.len() {
        lemma_dec_value_extend(s, i + 1);
        assert(s.take(i + 1).drop_last() =~= s.take(i));
        assert(forall|j: int| 0 <= j < i ==> spec_is_digit(s.take(i)[j]));
        lemma_dec_value_nonneg(s.take(i));
        assert(dec_value(s.take(i + 1)) == dec_value(s.take(i)) * 10 + digit_val(s.take(i + 1).last()));
        assert(spec_is_digit(s[i]));
        assert(digit_val(s.take(i + 1).last()) >= 0);
        assert(dec_value(s.take(i)) <= dec_value(s.take(i + 1)));
    } else {
        assert(s.take(i) =~= s);
    }
}

/// Parses a decimal digit string as a `u64`; `None` when the value does not
/// fit.
fn parse_u64(s: &str) -> (r: Option<u64>)
    requires
        forall|j: int| 0 <= j < s@.len() ==> spec_is_digit(s@[j]),
    ensures
        match r {
            Option::Some(v) => v as int == dec_value(s@),
            Option::None => dec_value(s@) > u64::MAX,
        },
{
    let len = s.unicode_len();
    let mut acc: u64 = 0;
    let mut i: usize = 0;
    proof {
        assert(s@.take(0) =~= Seq::<char>::empty());
    }
    while i < len
        invariant
            i <= len,
            len == s@.len(),
            forall|j: int| 0 <= j < s@.len() ==> spec_is_digit(s@[j]),
            acc as int == dec_value(s@.take(i as int)),
        decreases len - i,
    {
        let c = s.get_char(i);
        let d: u64 = ((c as u32) - ('0' as u32)) as u64;
        assert(d <= 9) by {
            assert(spec_is_digit(s@[i as int]));
        }
        if acc > (u64::MAX - d) / 10 {
            proof {
                assert(s@.take(i + 1).drop_last() =~= s@.take(i as int));
                assert(dec_value(s@.take(i + 1)) == acc * 10 + d);
                assert(dec_value(s@.take(i + 1)) > u64::MAX);
                lemma_dec_value_extend(s@, i + 1);
            }
            return Option::None;
        }
        proof {
            assert(s@.take(i + 1).drop_last() =~= s@.take(i as int));
        }
        acc = acc * 10 + d;
        i = i + 1;
    }
    proof {
        assert(s@.take(len as int) =~= s@);
    }
    Option::Some(acc)
}

/// Octal value of a digit string.
pub open spec fn oct_value(s: Seq<char>) -> int
    decreases s.len(),
{
    if s.len() == 0 {
        0
    } else {
        oct_value(s.drop_last()) * 8 + digit_val(s.last())
    }
}

/// Lower-cased code point, for case-insensitive unit comparison.
pub open spec fn char_ci(c: char) -> int {
    if 65 <= (c as u32) && (c as u32) <= 90 {
        (c as u32) + 32
    } else {
        (c as u32) as int
    }
}

/// Case-insensitive (ASCII) equality of two character sequences.
pub open spec fn spec_eq_ci(a: Seq<char>, b: Seq<char>) -> bool {
    a.len() == b.len() && forall|j: int| 0 <= j < a.len() ==> char_ci(a[j]) == char_ci(b[j])
}

fn eq_ci(a: &str, b: &str) -> (r: bool)
    ensures
        r == spec_eq_ci(a@, b@),
{
    let alen = a.unicode_len();
    let blen = b.unicode_len();
    if alen != blen {
        return false;
    }
    let mut i: usize = 0;
    while i < alen
        invariant
            i <= alen,
            alen == a@.len(),
            alen == b@.len(),
            forall|j: int| 0 <= j < i ==> char_ci(a@[j]) == char_ci(b@[j]),
        decreases alen - i,
    {
        let ca = a.get_char(i) as u32;
        let cb = b.get_char(i) as u32;
        let la = if 65 <= ca && ca <= 90 { ca + 32 } else { ca };
        let lb = if 65 <= cb && cb <= 90 { cb + 32 } else { cb };
        if la != lb {
            return false;
        }
        i = i + 1;
    }
    true
}

/// The comparison operator at the head of a size specification, with the
/// remainder after it.
pub open spec fn spec_take_op(t: Seq<char>) -> Option<(SizeCmp, Seq<char>)> {
    if t.len() >= 2 && t[0] == '>' && t[1] == '=' {
        Option::Some((SizeCmp::Ge, t.skip(2)))
    } else if t.len() >= 2 && t[0] == '<' && t[1] == '=' {
        Option::Some((SizeCmp::Le, t.skip(2)))
    } else if t.len() >= 2 && t[0] == '=' && t[1] == '=' {
        Option::Some((SizeCmp::Eq, t.skip(2)))
    } else if t.len() >= 1 && t[0] == '>' {
        Option::Some((SizeCmp::Gt, t.skip(1)))
    } else if t.len() >= 1 && t[0] == '<' {
        Option::Some((SizeCmp::Lt, t.skip(1)))
    } else {
        Option::None
    }
}

/// Bytes per unit suffix (binary powers); `None` for an unknown suffix.
pub open spec fn spec_unit_multiplier(u: Seq<char>) -> Option<u64> {
    if u.len() == 0 || spec_eq_ci(u, "b"@) {
        Option::Some(1u64)
    } else if spec_eq_ci(u, "k"@) || spec_eq_ci(u, "kb"@) || spec_eq_ci(u, "kib"@) {
        Option::Some(1024u64)
    } else if spec_eq_ci(u, "m"@) || spec_eq_ci(u, "mb"@) || spec_eq_ci(u, "mib"@) {
        Option::Some(1048576u64)
    } else if spec_eq_ci(u, "g"@) || spec_eq_ci(u, "gb"@) || spec_eq_ci(u, "gib"@) {
        Option::Some(1073741824u64)
    } else if spec_eq_ci(u, "t"@) || spec_eq_ci(u, "tb"@) || spec_eq_ci(u, "tib"@) {
        Option::Some(1099511627776u64)
    } else {
        Option::None
    }
}

/// What a size specification parses to: operator, decimal count, unit
/// suffix; `None` on any malformed part or overflow.
pub open spec fn spec_parse_size(s: Seq<char>) -> Option<SizeFilter> {
    let t = spec_trim(s);
    match spec_take_op(t) {
        Option::None => Option::None,
        Option::Some((cmp, rest0)) => {
            let rest = spec_trim(rest0);
            if rest.len() == 0 {
                Option::None
            } else {
                let k = digit_prefix_len(rest);
                if k == 0 {
                    Option::None
                } else {
                    let v = dec_value(rest.take(k));
                    let unit = spec_trim(rest.skip(k));
                    if v > u64::MAX {
                        Option::None
                    } else {
                        match spec_unit_multiplier(unit) {
                            Option::None => Option::None,
                            Option::Some(m) => {
                                if v * m > u64::MAX {
                                    Option::None
                                } else {
                                    Option::Some(SizeFilter { cmp, threshold: (v * m) as u64 })
                                }
                            },
                        }
                    }
                }
            }
        },
    }
}

fn unit_multiplier(u: &str) -> (r: Option<u64>)
    ensures
        r == spec_unit_multiplier(u@),
{
    if u.unicode_len() == 0 || eq_ci(u, "b") {
        Option::Some(1u64)
    } else if eq_ci(u, "k") || eq_ci(u, "kb") || eq_ci(u, "kib") {
        Option::Some(1024u64)
    } else if eq_ci(u, "m") || eq_ci(u, "mb") || eq_ci(u, "mib") {
        Option::Some(1048576u64)
    } else if eq_ci(u, "g") || eq_ci(u, "gb") || eq_ci(u, "gib") {
        Option::Some(1073741824u64)
    } else if eq_ci(u, "t") || eq_ci(u, "tb") || eq_ci(u, "tib") {
        Option::Some(1099511627776u64)
    } else {
        Option::None
    }
}

/// Multiplies with an overflow check.
fn mul_checked(v: u64, m: u64) -> (r: Option<u64>)
    requires
        m >= 1,
    ensures
        match r {
            Option::Some(p) => p == v * m,
            Option::None => v * m > u64::MAX,
        },
{
    if v > u64::MAX / m {
        proof {
            let q = u64::MAX as int / m as int;
            assert((q + 1) * m > u64::MAX) by (nonlinear_arith)
                requires
                    m >= 1,
                    q == u64::MAX as int / m as int,
            {}
            assert(v * m >= (q + 1) * m) by (nonlinear_arith)
                requires
                    v >= q + 1,
                    m >= 1,
            {}
        }
        Option::None
    } else {
        proof {
            let q = u64::MAX as int / m as int;
            assert(q * m <= u64::MAX) by (nonlinear_arith)
                requires
                    m >= 1,
                    q == u64::MAX as int / m as int,
            {}
            assert(v * m <= q * m) by (nonlinear_arith)
                requires
                    0 <= v <= q,
                    m >= 1,
            {}
        }
        Option::Some(v * m)
    }
}

/// Parses a size specification such as `>=1MB` or `<10k`.
///
/// Returns the filter exactly when [`spec_parse_size`] accepts the text, and
/// an error message otherwise.
pub fn parse_size_filter(sp: &str) -> (r: Result<SizeFilter, String>)
    ensures
        match r {
            Result::Ok(f) => spec_parse_size(sp@) == Option::Some(f),
            Result::Err(_) => spec_parse_size(sp@) is None,
        },
{
    let t = trim(sp);
    let tlen = t.as_str().unicode_len();
    let ghost tv = t@;
    let (cmp, rest0): (SizeCmp, String) = if tlen >= 2 && t.as_str().get_char(0) == '>'
        && t.as_str().get_char(1) == '=' {
        (SizeCmp::Ge, t.as_str().substring_char(2, tlen).to_owned())
    } else if tlen >= 2 && t.as_str().get_char(0) == '<' && t.as_str().get_char(1) == '=' {
        (SizeCmp::Le, t.as_str().substring_char(2, tlen).to_owned())
    } else if tlen >= 2 && t.as_str().get_char(0) == '=' && t.as_str().get_char(1) == '=' {
        (SizeCmp::Eq, t.as_str().substring_char(2, tlen).to_owned())
    } else if tlen >= 1 && t.as_str().get_char(0) == '>' {
        (SizeCmp::Gt, t.as_str().substring_char(1, tlen).to_owned())
    } else if tlen >= 1 && t.as_str().get_char(0) == '<' {
        (SizeCmp::Lt, t.as_str().substring_char(1, tlen).to_owned())
    } else {
        return Result::Err(String::from_str("invalid --filter-size value"));
    };
    proof {
        assert(spec_take_op(tv) == Option::Some((cmp, rest0@)));
    }
    let rest = trim(rest0.as_str());
    let rlen = rest.as_str().unicode_len();
    if rlen == 0 {
        return Result::Err(String::from_str("invalid --filter-size value"));
    }
    let k = digit_prefix(rest.as_str());
    if k == 0 {
        return Result::Err(String::from_str("invalid --filter-size value"));
    }
    proof {
        lemma_digit_prefix(rest@);
    }
    let num = rest.as_str().substring_char(0, k);
    proof {
        assert(forall|j: int| 0 <= j < num@.len() ==> num@[j] == rest@.take(k as int)[j]);
        assert(num@ =~= rest@.take(k as int));
    }
    let v = match parse_u64(num) {
        Option::Some(v) => v,
        Option::None => {
            return Result::Err(String::from_str("invalid --filter-size numeric value"));
        },
    };
    let unit_raw = rest.as_str().substring_char(k, rlen);
    let unit = trim(unit_raw);
    proof {
        assert(unit_raw@ =~= rest@.skip(k as int));
    }
    let m = match unit_multiplier(unit.as_str()) {
        Option::Some(m) => m,
        Option::None => {
            return Result::Err(String::from_str("invalid --filter-size unit"));
        },
    };
    match mul_checked(v, m) {
        Option::Some(threshold) => Result::Ok(SizeFilter { cmp, threshold }),
        Option::None => Result::Err(String::from_str("--filter-size value overflow")),
    }
}

/// Seconds per window unit (`s`, `m`, `h`, `d`, `w` and their long forms).
pub open spec fn spec_window_unit(u: Seq<char>) -> Option<u64> {
    if spec_eq_ci(u, "s"@) || spec_eq_ci(u, "sec"@) || spec_eq_ci(u, "secs"@) {
        Option::Some(1u64)
    } else if spec_eq_ci(u, "m"@) || spec_eq_ci(u, "min"@) || spec_eq_ci(u, "mins"@) {
        Option::Some(60u64)
    } else if spec_eq_ci(u, "h"@) || spec_eq_ci(u, "hour"@) || spec_eq_ci(u, "hours"@) {
        Option::Some(3600u64)
    } else if spec_eq_ci(u, "d"@) || spec_eq_ci(u, "day"@) || spec_eq_ci(u, "days"@) {
        Option::Some(86400u64)
    } else if spec_eq_ci(u, "w"@) || spec_eq_ci(u, "week"@) || spec_eq_ci(u, "weeks"@) {
        Option::Some(604800u64)
    } else {
        Option::None
    }
}

/// What an mtime window specification parses to, relative to `now`: the
/// earliest acceptable time is `now` minus the window, clamped at the epoch.
pub open spec fn spec_parse_mtime(s: Seq<char>, now: u64) -> Option<MtimeFilter> {
    let t = spec_trim(s);
    if t.len() == 0 {
        Option::None
    } else {
        let k = digit_prefix_len(t);
        if k == 0 {
            Option::None
        } else {
            let q = dec_value(t.take(k));
            let unit = spec_trim(t.skip(k));
            if q > u64::MAX {
                Option::None
            } else {
                match spec_window_unit(unit) {
                    Option::None => Option::None,
                    Option::Some(m) => {
                        if q * m > u64::MAX {
                            Option::None
                        } else {
                            Option::Some(
                                MtimeFilter {
                                    earliest: if q * m > now {
                                        0u64
                                    } else {
                                        (now - q * m) as u64
                                    },
                                },
                            )
                        }
                    },
                }
            }
        }
    }
}

fn window_unit(u: &str) -> (r: Option<u64>)
    ensures
        r == spec_window_unit(u@),
{
    if eq_ci(u, "s") || eq_ci(u, "sec") || eq_ci(u, "secs") {
        Option::Some(1u64)
    } else if eq_ci(u, "m") || eq_ci(u, "min") || eq_ci(u, "mins") {
        Option::Some(60u64)
    } else if eq_ci(u, "h") || eq_ci(u, "hour") || eq_ci(u, "hours") {
        Option::Some(3600u64)
    } else if eq_ci(u, "d") || eq_ci(u, "day") || eq_ci(u, "days") {
        Option::Some(86400u64)
    } else if eq_ci(u, "w") || eq_ci(u, "week") || eq_ci(u, "weeks") {
        Option::Some(604800u64)
    } else {
        Option::None
    }
}

/// Parses a relative time window such as `3d` or `10m` against `now`
/// (seconds since the epoch).
pub fn parse_mtime_filter(sp: &str, now: u64) -> (r: Result<MtimeFilter, String>)
    ensures
        match r {
            Result::Ok(f) => spec_parse_mtime(sp@, now) == Option::Some(f),
            Result::Err(_) => spec_parse_mtime(sp@, now) is None,
        },
{
    let t = trim(sp);
    let tlen = t.as_str().unicode_len();
    if tlen == 0 {
        return Result::Err(String::from_str("invalid --filter-mtime value"));
    }
    let k = digit_prefix(t.as_str());
    if k == 0 {
        return Result::Err(String::from_str("invalid --filter-mtime value"));
    }
    proof {
        lemma_digit_prefix(t@);
    }
    let num = t.as_str().substring_char(0, k);
    proof {
        assert(forall|j: int| 0 <= j < num@.len() ==> num@[j] == t@.take(k as int)[j]);
        assert(num@ =~= t@.take(k as int));
    }
    let q = match parse_u64(num) {
        Option::Some(v) => v,
        Option::None => {
            return Result::Err(String::from_str("invalid --filter-mtime value"));
        },
    };
    let unit_raw = t.as_str().substring_char(k, tlen);
    let unit = trim(unit_raw);
    proof {
        assert(unit_raw@ =~= t@.skip(k as int));
    }
    let m = match window_unit(unit.as_str()) {
        Option::Some(m) => m,
        Option::None => {
            return Result::Err(String::from_str("invalid --filter-mtime unit"));
        },
    };
    match mul_checked(q, m) {
        Option::Some(secs) => {
            let earliest = if secs > now {
                0u64
            } else {
                now - secs
            };
            Result::Ok(MtimeFilter { earliest })
        },
        Option::None => Result::Err(String::from_str("invalid --filter-mtime value")),
    }
}

/// What a permission specification parses to: three or four octal digits,
/// masked to the low permission bits.
pub open spec fn spec_parse_perm(s: Seq<char>) -> Option<PermFilter> {
    let t = spec_trim(s);
    if t.len() == 0 {
        Option::None
    } else if !(3 <= t.len() <= 4) {
        Option::None
    } else if exists|j: int| 0 <= j < t.len() && !spec_is_digit(t[j]) {
        Option::None
    } else if exists|j: int| 0 <= j < t.len() && digit_val(t[j]) > 7 {
        Option::None
    } else {
        Option::Some(PermFilter { expected: (oct_value(t) % 0x200) as u32 })
    }
}

/// 8 to the power `n`.
pub open spec fn pow8(n: int) -> int
    decreases n,
{
    if n <= 0 {
        1
    } else {
        8 * pow8(n - 1)
    }
}

proof fn lemma_oct_value_bound(s: Seq<char>, bound: int)
    requires
        forall|j: int| 0 <= j < s.len() ==> spec_is_digit(s[j]) && digit_val(s[j]) <= 7,
        s.len() <= bound,
        0 <= bound,
    ensures
        0 <= oct_value(s) < pow8(bound),
    decreases s.len(),
{
    if s.len() == 0 {
        lemma_pow8_pos(bound);
    } else {
        let d = s.drop_last();
        assert(forall|j: int| 0 <= j < d.len() ==> spec_is_digit(d[j]) && digit_val(d[j]) <= 7);
        lemma_oct_value_bound(d, bound - 1);
        assert(oct_value(s) == oct_value(d) * 8 + digit_val(s.last()));
        assert(oct_value(d) * 8 + 7 < pow8(bound - 1) * 8) by (nonlinear_arith)
            requires
                oct_value(d) < pow8(bound - 1),
        {}
        assert(pow8(bound) == 8 * pow8(bound - 1));
    }
}

proof fn lemma_pow8_pos(n: int)
    ensures
        pow8(n) >= 1,
    decreases n,
{
    if n > 0 {
        lemma_pow8_pos(n - 1);
    }
}

/// Parses an octal permission specification such as `755`.
pub fn parse_perm_filter(sp: &str) -> (r: Result<Option<PermFilter>, String>)
    ensures
        match r {
            Result::Ok(f) => f is Some && spec_parse_perm(sp@) == f,
            Result::Err(_) => spec_parse_perm(sp@) is None,
        },
{
    let t = trim(sp);
    let tlen = t.as_str().unicode_len();
    if tlen == 0 {
        return Result::Err(String::from_str("invalid --filter-perm value"));
    }
    if tlen < 3 || tlen > 4 {
        return Result::Err(String::from_str("invalid --filter-perm value"));
    }
    let mut acc: u32 = 0;
    let mut i: usize = 0;
    proof {
        assert(t@.take(0) =~= Seq::<char>::empty());
    }
    while i < tlen
        invariant
            i <= tlen,
            tlen == t@.len(),
            3 <= tlen <= 4,
            t@ == spec_trim(sp@),
            acc as int == oct_value(t@.take(i as int)),
            acc < 4096,
            forall|j: int| 0 <= j < i ==> spec_is_digit(t@[j]) && digit_val(t@[j]) <= 7,
        decreases tlen - i,
    {
        let c = t.as_str().get_char(i);
        if !is_digit_exec(c) {
            proof {
                assert(!spec_is_digit(t@[i as int]));
                assert(exists|j: int| 0 <= j < t@.len() && !spec_is_digit(t@[j]));
            }
            return Result::Err(String::from_str("invalid --filter-perm value"));
        }
        let d: u32 = (c as u32) - ('0' as u32);
        if d > 7 {
            proof {
                assert(digit_val(t@[i as int]) > 7);
                assert(exists|j: int| 0 <= j < t@.len() && digit_val(t@[j]) > 7);
            }
            return Result::Err(String::from_str("invalid --filter-perm value"));
        }
        proof {
            assert(t@.take(i + 1).drop_last() =~= t@.take(i as int));
        }
        acc = acc * 8 + d;
        proof {
            lemma_oct_value_bound(t@.take(i + 1), 4);
            reveal_with_fuel(pow8, 5);
            assert(pow8(4) == 4096);
        }
        i = i + 1;
    }
    proof {
        assert(t@.take(tlen as int) =~= t@);
        assert(forall|j: int| 0 <= j < t@.len() ==> spec_is_digit(t@[j]) && digit_val(t@[j]) <= 7);
    }
    Result::Ok(Option::Some(PermFilter { expected: acc % 0x200 }))
}

/// The text the post-resolution regex filter is applied to: the base name,
/// or the path relative to the scan root.
pub open spec fn spec_filter_target(root: Seq<char>, m: EntryMetaV, mode: MatchMode) -> Seq<char> {
    match mode {
        MatchMode::Name => m.name,
        MatchMode::Path => spec_target_for_glob(root, m.path, MatchMode::Path),
    }
}

/// The compiled per-entry filters, derived once from configuration.
pub struct Filters {
    pub root: String,
    pub match_mode: MatchMode,
    pub regex: Option<regex_automata::meta::Regex>,
    pub size: Option<SizeFilter>,
    pub mtime: Option<MtimeFilter>,
    pub perm: Option<PermFilter>,
}

impl Filters {
    /// The patterns the regex filter holds, if one is configured.
    pub open spec fn regex_view(&self) -> Option<Seq<Seq<char>>> {
        match self.regex {
            Option::Some(re) => Option::Some(regex_patterns(re)),
            Option::None => Option::None,
        }
    }

    /// The combined decision: every configured filter must accept the entry.
    pub open spec fn spec_allows(&self, m: EntryMetaV) -> bool {
        (match self.regex {
            Option::Some(re) => regex_match(
                regex_patterns(re),
                spec_filter_target(self.root@, m, self.match_mode),
            ),
            Option::None => true,
        }) && (match self.size {
            Option::Some(f) => spec_size_allows(f, m.size),
            Option::None => true,
        }) && (match self.mtime {
            Option::Some(f) => spec_mtime_allows(f, m.mtime),
            Option::None => true,
        }) && (match self.perm {
            Option::Some(f) => spec_perm_allows(f, m.perm_unix),
            Option::None => true,
        })
    }

    /// Builds the filter set from configuration; `now` is the current time
    /// in seconds since the epoch, fixed at construction.
    ///
    /// Fails exactly when one of the configured specifications is invalid.
    pub fn from_cli(cli: &Cli, root: &str, now: u64) -> (r: Result<Filters, String>)
        ensures
            match r {
                Result::Ok(f) => {
                    &&& f.root@ == root@
                    &&& f.match_mode == cli.match_mode
                    &&& (match (cli.filter_regex, f.regex) {
                        (Option::Some(p), Option::Some(re)) => regex_ok(seq![p@])
                            && regex_patterns(re) == seq![p@],
                        (Option::None, Option::None) => true,
                        _ => false,
                    })
                    &&& (match (cli.filter_size, f.size) {
                        (Option::Some(sp), Option::Some(sf)) => spec_parse_size(sp@)
                            == Option::Some(sf),
                        (Option::None, Option::None) => true,
                        _ => false,
                    })
                    &&& (match (cli.filter_mtime, f.mtime) {
                        (Option::Some(sp), Option::Some(mf)) => spec_parse_mtime(sp@, now)
                            == Option::Some(mf),
                        (Option::None, Option::None) => true,
                        _ => false,
                    })
                    &&& (match (cli.filter_perm, f.perm) {
                        (Option::Some(sp), Option::Some(pf)) => spec_parse_perm(sp@)
                            == Option::Some(pf),
                        (Option::None, Option::None) => true,
                        _ => false,
                    })
                },
                Result::Err(_) => {
                    ||| (cli.filter_regex matches Option::Some(p) && !regex_ok(seq![p@]))
                    ||| (cli.filter_size matches Option::Some(sp) && spec_parse_size(sp@) is None)
                    ||| (cli.filter_mtime matches Option::Some(sp) && spec_parse_mtime(sp@, now)
                        is None)
                    ||| (cli.filter_perm matches Option::Some(sp) && spec_parse_perm(sp@) is None)
                },
            },
    {
        let regex: Option<regex_automata::meta::Regex> = match &cli.filter_regex {
            Option::Some(p) => {
                let mut pats: Vec<String> = Vec::new();
                pats.push(p.clone());
                proof {
                    assert(crate::meta::strings_view(pats@) =~= seq![p@]);
                }
                match crate::pattern::build_regex(&pats) {
                    Result::Ok(re) => Option::Some(re),
                    Result::Err(e) => {
                        let mut msg = String::from_str("invalid --filter-regex value: ");
                        msg.append(e.as_str());
                        return Result::Err(msg);
                    },
                }
            },
            Option::None => Option::None,
        };
        let size: Option<SizeFilter> = match &cli.filter_size {
            Option::Some(sp) => match parse_size_filter(sp.as_str()) {
                Result::Ok(f) => Option::Some(f),
                Result::Err(e) => {
                    return Result::Err(e);
                },
            },
            Option::None => Option::None,
        };
        let mtime: Option<MtimeFilter> = match &cli.filter_mtime {
            Option::Some(sp) => match parse_mtime_filter(sp.as_str(), now) {
                Result::Ok(f) => Option::Some(f),
                Result::Err(e) => {
                    return Result::Err(e);
                },
            },
            Option::None => Option::None,
        };
        let perm: Option<PermFilter> = match &cli.filter_perm {
            Option::Some(sp) => match parse_perm_filter(sp.as_str()) {
                Result::Ok(f) => f,
                Result::Err(e) => {
                    return Result::Err(e);
                },
            },
            Option::None => Option::None,
        };
        Result::Ok(
            Filters { root: root.to_owned(), match_mode: cli.match_mode, regex, size, mtime, perm },
        )
    }

    /// Applies every configured filter to the entry.
    pub fn allows(&self, m: &EntryMeta) -> (r: bool)
        ensures
            r == self.spec_allows(m@),
    {
        match &self.regex {
            Option::Some(re) => {
                let target: String = match self.match_mode {
                    MatchMode::Name => m.name.clone(),
                    MatchMode::Path => target_for_glob(
                        self.root.as_str(),
                        m.path.as_str(),
                        MatchMode::Path,
                    ),
                };
                if !crate::pattern::regex_is_match(re, target.as_str()) {
                    return false;
                }
            },
            Option::None => {},
        }
        match &self.size {
            Option::Some(f) => {
                if !f.allows(m.size) {
                    return false;
                }
            },
            Option::None => {},
        }
        match &self.mtime {
            Option::Some(f) => {
                if !f.allows(m.mtime) {
                    return false;
                }
            },
            Option::None => {},
        }
        match &self.perm {
            Option::Some(f) => {
                if !f.allows(m.perm_unix) {
                    return false;
                }
            },
            Option::None => {},
        }
        true
    }
}

} // verus!
