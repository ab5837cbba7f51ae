//! Version-control status annotations.
//!
//! How the status map is built (repository discovery, diffing) lives outside
//! the library; the map itself is plain data: repository-relative paths with
//! a one-character status symbol each, merged by priority.

use vstd::prelude::*;
use crate::meta::{opt_view, EntryMeta, EntryMetaV};
use crate::pathops::{is_absolute, path_join, spec_is_absolute, spec_join, strip_prefix, spec_within};
use crate::text::str_eq;

verus! {

/// Precedence of status symbols when several deltas touch one path:
/// deletion wins over rename, rename over addition, addition over
/// modification.
pub open spec fn spec_git_status_priority(symbol: char) -> u8 {
    if symbol == 'D' {
        4u8
    } else if symbol == 'R' {
        3u8
    } else if symbol == 'A' {
        2u8
    } else if symbol == 'M' {
        1u8
    } else {
        0u8
    }
}

/// Priority of a status symbol.
pub fn git_status_priority(symbol: char) -> (r: u8)
    ensures
        r == spec_git_status_priority(symbol),
{
    if symbol == 'D' {
        4
    } else if symbol == 'R' {
        3
    } else if symbol == 'A' {
        2
    } else if symbol == 'M' {
        1
    } else {
        0
    }
}

/// First status recorded for `key`, if any.
pub open spec fn spec_status_lookup(entries: Seq<(String, char)>, key: Seq<char>) -> Option<char>
    decreases entries.len(),
{
    if entries.len() == 0 {
        Option::None
    } else if entries[0].0@ == key {
        Option::Some(entries[0].1)
    } else {
        spec_status_lookup(entries.drop_first(), key)
    }
}

/// Records `status` for `path`, keeping the higher-priority symbol when the
/// path already has one; other paths are untouched.
pub fn update_git_status(entries: &mut Vec<(String, char)>, path: String, status: char)
    ensures
        spec_status_lookup(final(entries)@, path@) == Option::Some(
            match spec_status_lookup(old(entries)@, path@) {
                Option::Some(prev) => {
                    if spec_git_status_priority(status) > spec_git_status_priority(prev) {
                        status
                    } else {
                        prev
                    }
                },
                Option::None => status,
            },
        ),
        forall|k: Seq<char>|
            k != path@ ==> #[trigger] spec_status_lookup(final(entries)@, k) == spec_status_lookup(
                old(entries)@,
                k,
            ),
{
    let mut i: usize = 0;
    while i < entries.len()
        invariant
            i <= entries@.len(),
            entries@ == old(entries)@,
            forall|j: int| 0 <= j < i ==> entries@[j].0@ != path@,
        decreases entries@.len() - i,
    {
        if str_eq(entries[i].0.as_str(), path.as_str()) {
            let prev = entries[i].1;
            let ghost pre = entries@;
            proof {
                lemma_lookup_at(pre, i as int);
            }
            if git_status_priority(status) > git_status_priority(prev) {
                let _ = entries.remove(i);
                entries.insert(i, (path, status));
                proof {
                    assert(entries@.len() == pre.len());
                    assert(forall|j: int| 0 <= j < pre.len() && j != i ==> entries@[j] == pre[j]);
                    assert(entries@[i as int].0@ == path@);
                    assert(forall|j: int| 0 <= j < i ==> entries@[j].0@ != path@);
                    lemma_lookup_at(entries@, i as int);
                    assert forall|k: Seq<char>| k != path@ implies #[trigger] spec_status_lookup(
                        entries@,
                        k,
                    ) == spec_status_lookup(pre, k) by {
                        lemma_lookup_frame(pre, entries@, k);
                    }
                }
            }
            return;
        }
        i = i + 1;
    }
    let ghost pre = entries@;
    proof {
        lemma_lookup_none(pre, path@);
    }
    entries.push((path, status));
    proof {
        assert(entries@[pre.len() as int].0@ == path@);
        assert(forall|j: int| 0 <= j < pre.len() ==> entries@[j] == pre[j]);
        lemma_lookup_at(entries@, pre.len() as int);
        assert forall|k: Seq<char>| k != path@ implies #[trigger] spec_status_lookup(entries@, k)
            == spec_status_lookup(pre, k) by {
            lemma_lookup_frame(pre, entries@, k);
        }
    }
}

/// The lookup of a key finds the first entry with that key; entries before
/// `i` with other keys do not interfere.
pub(crate) proof fn lemma_lookup_at(entries: Seq<(String, char)>, i: int)
    requires
        0 <= i < entries.len(),
        forall|j: int| 0 <= j < i ==> entries[j].0@ != entries[i].0@,
    ensures
        spec_status_lookup(entries, entries[i].0@) == Option::Some(entries[i].1),
    decreases i,
{
    if i > 0 {
        let d = entries.drop_first();
        assert(forall|j: int| 0 <= j < i - 1 ==> d[j] == entries[j + 1]);
        lemma_lookup_at(d, i - 1);
    }
}

/// Two entry sequences of equal length that agree except possibly at one
/// position whose key is not `k` give the same lookup for `k`.
pub(crate) proof fn lemma_lookup_frame(a: Seq<(String, char)>, b: Seq<(String, char)>, k: Seq<char>)
    requires
        a.len() <= b.len(),
        b.len() <= a.len() + 1,
        forall|j: int| 0 <= j < a.len() ==> (a[j] == b[j] || (a[j].0@ == b[j].0@ && b[j].0@ != k)),
        b.len() > a.len() ==> b[a.len() as int].0@ != k,
    ensures
        spec_status_lookup(a, k) == spec_status_lookup(b, k),
    decreases a.len(),
{
    if a.len() == 0 {
        if b.len() > 0 {
            assert(b[0].0@ != k);
        }
    } else {
        let da = a.drop_first();
        let db = b.drop_first();
        assert(forall|j: int| 0 <= j < da.len() ==> da[j] == a[j + 1] && db[j] == b[j + 1]);
        if b.len() > a.len() {
            assert(db[da.len() as int] == b[a.len() as int]);
        }
        lemma_lookup_frame(da, db, k);
    }
}

/// The status map one traversal consults: repository work directory (no
/// trailing separator), the directory the run started in, and the recorded
/// path/symbol pairs.
pub struct GitStatusMap {
    pub workdir: String,
    pub cwd: String,
    pub statuses: Vec<(String, char)>,
}

/// The path a status query uses: the entry path made absolute against the
/// starting directory, then made relative to the work directory.
pub open spec fn spec_status_for(m: &GitStatusMap, path: Seq<char>) -> Option<char> {
    let abs = if spec_is_absolute(path) {
        path
    } else {
        spec_join(m.cwd@, path)
    };
    if !spec_within(abs, m.workdir@) {
        Option::None
    } else {
        let rel = if abs == m.workdir@ {
            Seq::<char>::empty()
        } else {
            abs.subrange(m.workdir@.len() as int + 1, abs.len() as int)
        };
        if rel.len() == 0 {
            Option::None
        } else {
            spec_status_lookup(m.statuses@, rel)
        }
    }
}

impl GitStatusMap {
    /// The recorded status for `path`, if it lies inside the work directory
    /// and is not the work directory itself.
    pub fn status_for(&self, path: &str) -> (r: Option<char>)
        ensures
            r == spec_status_for(self, path@),
    {
        let abs: String = if is_absolute(path) {
            path.to_owned()
        } else {
            path_join(self.cwd.as_str(), path)
        };
        match strip_prefix(abs.as_str(), self.workdir.as_str()) {
            Option::None => Option::None,
            Option::Some(rel) => {
                if rel.as_str().unicode_len() == 0 {
                    Option::None
                } else {
                    let mut i: usize = 0;
                    let n = self.statuses.len();
                    while i < n
                        invariant
                            i <= n,
                            n == self.statuses@.len(),
                            spec_within(abs@, self.workdir@),
                            abs@ != self.workdir@,
                            rel@ == abs@.subrange(
                                self.workdir@.len() as int + 1,
                                abs@.len() as int,
                            ),
                            rel@.len() > 0,
                            abs@ == (if spec_is_absolute(path@) {
                                path@
                            } else {
                                spec_join(self.cwd@, path@)
                            }),
                            forall|j: int| 0 <= j < i ==> self.statuses@[j].0@ != rel@,
                        decreases n - i,
                    {
                        if str_eq(self.statuses[i].0.as_str(), rel.as_str()) {
                            proof {
                                lemma_lookup_at(self.statuses@, i as int);
                            }
                            return Option::Some(self.statuses[i].1);
                        }
                        i = i + 1;
                    }
                    proof {
                        lemma_lookup_none(self.statuses@, rel@);
                    }
                    Option::None
                }
            },
        }
    }
}

pub(crate) proof fn lemma_lookup_none(entries: Seq<(String, char)>, k: Seq<char>)
    requires
        forall|j: int| 0 <= j < entries.len() ==> entries[j].0@ != k,
    ensures
        spec_status_lookup(entries, k) is None,
    decreases entries.len(),
{
    if entries.len() > 0 {
        let d = entries.drop_first();
        assert(forall|j: int| 0 <= j < d.len() ==> d[j] == entries[j + 1]);
        lemma_lookup_none(d, k);
    }
}

/// The optional status capability one traversal carries.
pub struct GitTracker {
    pub map: Option<GitStatusMap>,
}

/// The metadata record after status annotation.
pub open spec fn spec_with_status(t: &GitTracker, m: EntryMetaV) -> EntryMetaV {
    match t.map {
        Option::Some(sm) => EntryMetaV { git_status: spec_status_for(&sm, m.path), ..m },
        Option::None => m,
    }
}

impl GitTracker {
    /// Annotates the entry with its status symbol, when a map is present.
    pub fn apply(&self, meta: &mut EntryMeta)
        ensures
            final(meta)@ == spec_with_status(self, old(meta)@),
    {
        match &self.map {
            Option::Some(sm) => {
                meta.git_status = sm.status_for(meta.path.as_str());
            },
            Option::None => {},
        }
    }
}

} // verus!
