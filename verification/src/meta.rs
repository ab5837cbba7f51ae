//! Entry metadata: the working record for one filesystem entry and its
//! immutable output projection.
//!
//! Filesystem queries themselves happen outside the library; their results
//! arrive here as plain values (kind, size, modification seconds, permission
//! bits, canonical path, link target) and are assembled into an
//! [`EntryMeta`], then projected into an [`Entry`] for output.

use vstd::prelude::*;
use crate::pathops::{last_slash, parent_dir, path_join, spec_is_absolute, spec_join};
use crate::text::{dec_digits, oct3_digits, u32_to_oct3, u64_to_dec};

verus! {

/// View of a sequence of strings as character sequences.
pub open spec fn strings_view(s: Seq<String>) -> Seq<Seq<char>> {
    s.map_values(|x: String| x@)
}

/// View of an optional string.
pub open spec fn opt_view(o: Option<String>) -> Option<Seq<char>> {
    match o {
        Option::Some(s) => Option::Some(s@),
        Option::None => Option::None,
    }
}

/// Classification a status query reports for one path.
#[derive(Clone, Copy, PartialEq, Eq, Structural, Debug)]
pub enum FileKind {
    File,
    Dir,
    Symlink,
    Other,
}

/// Output-facing classification of an entry.
#[derive(Clone, Copy, PartialEq, Eq, Structural, Debug)]
pub enum EntryKind {
    File,
    Dir,
    Symlink,
    Unknown,
}

/// What a successful (following) metadata query yields, as plain values.
#[derive(Clone, Copy, PartialEq, Eq, Structural, Debug)]
pub struct RawMeta {
    /// The file type the query resolved to (the target's type for symlinks).
    pub kind: FileKind,
    /// Size in bytes.
    pub size: u64,
    /// Modification time, seconds since the Unix epoch, when readable.
    pub mtime: Option<u64>,
    /// Permission bits, when the platform exposes them.
    pub perm: Option<u32>,
}

/// Mathematical view of an [`EntryMeta`].
pub ghost struct EntryMetaV {
    pub path: Seq<char>,
    pub name: Seq<char>,
    pub file_type: Option<FileKind>,
    pub target_file_type: Option<FileKind>,
    pub size: Option<u64>,
    pub mtime: Option<u64>,
    pub perm_unix: Option<u32>,
    pub is_symlink: bool,
    pub symlink_target: Option<Seq<char>>,
    pub canonical_path: Option<Seq<char>>,
    pub loop_detected: bool,
    pub error: Option<Seq<char>>,
    pub git_status: Option<char>,
}

/// Working record for one filesystem entry.
pub struct EntryMeta {
    pub path: String,
    pub name: String,
    pub file_type: Option<FileKind>,
    pub target_file_type: Option<FileKind>,
    pub size: Option<u64>,
    pub mtime: Option<u64>,
    pub perm_unix: Option<u32>,
    pub is_symlink: bool,
    pub symlink_target: Option<String>,
    pub canonical_path: Option<String>,
    pub loop_detected: bool,
    pub error: Option<String>,
    pub git_status: Option<char>,
}

impl View for EntryMeta {
    type V = EntryMetaV;

    open spec fn view(&self) -> EntryMetaV {
        EntryMetaV {
            path: self.path@,
            name: self.name@,
            file_type: self.file_type,
            target_file_type: self.target_file_type,
            size: self.size,
            mtime: self.mtime,
            perm_unix: self.perm_unix,
            is_symlink: self.is_symlink,
            symlink_target: opt_view(self.symlink_target),
            canonical_path: opt_view(self.canonical_path),
            loop_detected: self.loop_detected,
            error: opt_view(self.error),
            git_status: self.git_status,
        }
    }
}

/// View of a sequence of metadata records.
pub open spec fn metas_view(s: Seq<EntryMeta>) -> Seq<EntryMetaV> {
    s.map_values(|m: EntryMeta| m@)
}

/// Clones an optional string, preserving the view.
pub fn clone_opt_string(o: &Option<String>) -> (r: Option<String>)
    ensures
        opt_view(r) == opt_view(*o),
{
    match o {
        Option::Some(s) => Option::Some(s.clone()),
        Option::None => Option::None,
    }
}

impl Clone for EntryMeta {
    /// Clone preserves the view.
    fn clone(&self) -> (r: Self)
        ensures
            r@ == self@,
    {
        EntryMeta {
            path: self.path.clone(),
            name: self.name.clone(),
            file_type: self.file_type,
            target_file_type: self.target_file_type,
            size: self.size,
            mtime: self.mtime,
            perm_unix: self.perm_unix,
            is_symlink: self.is_symlink,
            symlink_target: clone_opt_string(&self.symlink_target),
            canonical_path: clone_opt_string(&self.canonical_path),
            loop_detected: self.loop_detected,
            error: clone_opt_string(&self.error),
            git_status: self.git_status,
        }
    }
}

/// The entry is a directory itself (not through a link).
pub open spec fn spec_is_directory(m: EntryMetaV) -> bool {
    m.file_type == Option::Some(FileKind::Dir)
}

/// The entry resolves to a directory: a directory proper, or a symlink whose
/// target is a directory. This is the single eligibility predicate for
/// descent, checked before cycle, containment and depth policy.
pub open spec fn spec_points_to_directory(m: EntryMetaV) -> bool {
    if m.is_symlink {
        m.target_file_type == Option::Some(FileKind::Dir)
    } else {
        spec_is_directory(m)
    }
}

/// Error strings joined with `"; "`.
pub open spec fn spec_joined_errors(parts: Seq<Seq<char>>) -> Seq<char>
    decreases parts.len(),
{
    if parts.len() == 0 {
        Seq::empty()
    } else if parts.len() == 1 {
        parts[0]
    } else {
        spec_joined_errors(parts.drop_last()) + "; "@ + parts.last()
    }
}

/// Joins accumulated error messages with `"; "`; `None` when there are none.
pub fn join_errors(errors: &Vec<String>) -> (r: Option<String>)
    ensures
        match r {
            Option::Some(s) => errors@.len() > 0 && s@ == spec_joined_errors(
                strings_view(errors@),
            ),
            Option::None => errors@.len() == 0,
        },
{
    if errors.len() == 0 {
        return Option::None;
    }
    let mut s: String = errors[0].clone();
    let mut i: usize = 1;
    proof {
        assert(strings_view(errors@).take(1) =~= seq![errors@[0]@]);
    }
    while i < errors.len()
        invariant
            1 <= i <= errors@.len(),
            s@ == spec_joined_errors(strings_view(errors@).take(i as int)),
        decreases errors@.len() - i,
    {
        s.append("; ");
        s.append(errors[i].as_str());
        proof {
            let parts = strings_view(errors@);
            assert(parts.take(i + 1).drop_last() =~= parts.take(i as int));
            assert(parts.take(i + 1).last() == errors@[i as int]@);
        }
        i = i + 1;
    }
    proof {
        assert(strings_view(errors@).take(errors@.len() as int) =~= strings_view(errors@));
    }
    Option::Some(s)
}

/// The symlink target recorded for a link without a canonical path: the raw
/// target itself when absolute, otherwise resolved against the link's parent
/// directory (or kept as-is when the path has no parent).
pub open spec fn spec_resolved_target(path: Seq<char>, target: Seq<char>) -> Seq<char> {
    if spec_is_absolute(target) {
        target
    } else {
        match last_slash(path) {
            Option::None => target,
            Option::Some(k) => {
                if k == 0 {
                    spec_join(seq!['/'], target)
                } else {
                    spec_join(path.subrange(0, k), target)
                }
            },
        }
    }
}

fn resolve_link_target(path: &str, target: String) -> (r: String)
    ensures
        r@ == spec_resolved_target(path@, target@),
{
    if crate::pathops::is_absolute(target.as_str()) {
        target
    } else {
        match parent_dir(path) {
            Option::None => target,
            Option::Some(parent) => path_join(parent.as_str(), target.as_str()),
        }
    }
}

impl EntryMeta {
    /// Assembles the working record from the raw query results, as the
    /// resolver contract describes: partial failures leave the obtainable
    /// subset populated and the causes joined in `error`.
    ///
    /// `canonical` is what full resolution of `path` yielded (kept only for
    /// directories and symlinks); `raw_target` is the raw link text, used
    /// when a symlink has no canonical path.
    pub fn construct(
        path: String,
        name: String,
        file_type: Option<FileKind>,
        metadata: Option<RawMeta>,
        is_symlink: bool,
        errors: Vec<String>,
        canonical: Option<String>,
        raw_target: Option<String>,
    ) -> (r: EntryMeta)
        ensures
            r@.path == path@,
            r@.name == name@,
            r@.file_type == file_type,
            r@.is_symlink == is_symlink,
            r@.loop_detected == false,
            r@.git_status is None,
            r@.target_file_type == (match metadata {
                Option::Some(md) => Option::Some(md.kind),
                Option::None => Option::<FileKind>::None,
            }),
            r@.size == (match metadata {
                Option::Some(md) => Option::Some(md.size),
                Option::None => Option::<u64>::None,
            }),
            r@.mtime == (match metadata {
                Option::Some(md) => md.mtime,
                Option::None => Option::<u64>::None,
            }),
            r@.perm_unix == (match metadata {
                Option::Some(md) => md.perm,
                Option::None => Option::<u32>::None,
            }),
            r@.canonical_path == (if file_type == Option::Some(FileKind::Dir) || is_symlink {
                opt_view(canonical)
            } else {
                Option::<Seq<char>>::None
            }),
            r@.symlink_target == (if is_symlink {
                match (opt_view(canonical), opt_view(raw_target)) {
                    (Option::Some(c), _) => Option::Some(c),
                    (Option::None, Option::Some(t)) => Option::Some(
                        spec_resolved_target(path@, t),
                    ),
                    (Option::None, Option::None) => Option::<Seq<char>>::None,
                }
            } else {
                Option::<Seq<char>>::None
            }),
            r@.error == (if errors@.len() == 0 {
                Option::<Seq<char>>::None
            } else {
                Option::Some(spec_joined_errors(strings_view(errors@)))
            }),
    {
        let mut size: Option<u64> = Option::None;
        let mut mtime: Option<u64> = Option::None;
        let mut perm_unix: Option<u32> = Option::None;
        let mut target_file_type: Option<FileKind> = Option::None;
        match &metadata {
            Option::Some(md) => {
                size = Option::Some(md.size);
                mtime = md.mtime;
                perm_unix = md.perm;
                target_file_type = Option::Some(md.kind);
            },
            Option::None => {},
        }

        let is_dir = match file_type {
            Option::Some(FileKind::Dir) => true,
            _ => false,
        };
        let canonical_path: Option<String> = if is_dir || is_symlink {
            canonical
        } else {
            Option::None
        };

        let symlink_target: Option<String> = if is_symlink {
            match clone_opt_string(&canonical_path) {
                Option::Some(c) => Option::Some(c),
                Option::None => match raw_target {
                    Option::Some(t) => Option::Some(resolve_link_target(path.as_str(), t)),
                    Option::None => Option::None,
                },
            }
        } else {
            Option::None
        };

        let error = join_errors(&errors);

        EntryMeta {
            path,
            name,
            file_type,
            target_file_type,
            size,
            mtime,
            perm_unix,
            is_symlink,
            symlink_target,
            canonical_path,
            loop_detected: false,
            error,
            git_status: Option::None,
        }
    }

    /// The entry is a directory itself.
    pub fn is_directory(&self) -> (r: bool)
        ensures
            r == spec_is_directory(self@),
    {
        match self.file_type {
            Option::Some(FileKind::Dir) => true,
            _ => false,
        }
    }

    /// The entry resolves to a directory (possibly through a symlink).
    pub fn points_to_directory(&self) -> (r: bool)
        ensures
            r == spec_points_to_directory(self@),
    {
        if self.is_symlink {
            match self.target_file_type {
                Option::Some(FileKind::Dir) => true,
                _ => false,
            }
        } else {
            self.is_directory()
        }
    }

    /// The key sibling ordering goes by: the base name.
    pub fn sort_key(&self) -> (r: &String)
        ensures
            r@ == self@.name,
    {
        &self.name
    }
}

/// Mathematical view of an [`Entry`].
pub ghost struct EntryV {
    pub name: Seq<char>,
    pub path: Seq<char>,
    pub depth: int,
    pub kind: EntryKind,
    pub size: Option<u64>,
    pub mtime: Option<Seq<char>>,
    pub perm: Option<Seq<char>>,
    pub symlink_target: Option<Seq<char>>,
    pub loop_detected: bool,
    pub error: Option<Seq<char>>,
    pub git_status: Option<char>,
}

/// Immutable output projection of one entry.
pub struct Entry {
    pub name: String,
    pub path: String,
    pub depth: usize,
    pub kind: EntryKind,
    pub size: Option<u64>,
    pub mtime: Option<String>,
    pub perm: Option<String>,
    pub symlink_target: Option<String>,
    pub loop_detected: bool,
    pub error: Option<String>,
    pub git_status: Option<char>,
}

impl View for Entry {
    type V = EntryV;

    open spec fn view(&self) -> EntryV {
        EntryV {
            name: self.name@,
            path: self.path@,
            depth: self.depth as int,
            kind: self.kind,
            size: self.size,
            mtime: opt_view(self.mtime),
            perm: opt_view(self.perm),
            symlink_target: opt_view(self.symlink_target),
            loop_detected: self.loop_detected,
            error: opt_view(self.error),
            git_status: self.git_status,
        }
    }
}

impl Clone for Entry {
    /// Clone preserves the view.
    fn clone(&self) -> (r: Self)
        ensures
            r@ == self@,
    {
        Entry {
            name: self.name.clone(),
            path: self.path.clone(),
            depth: self.depth,
            kind: self.kind,
            size: self.size,
            mtime: clone_opt_string(&self.mtime),
            perm: clone_opt_string(&self.perm),
            symlink_target: clone_opt_string(&self.symlink_target),
            loop_detected: self.loop_detected,
            error: clone_opt_string(&self.error),
            git_status: self.git_status,
        }
    }
}

/// Sentinel text recorded for a symlink whose target could not be resolved.
pub open spec fn broken_link_label() -> Seq<char> {
    "[broken symlink]"@
}

/// Output kind of an entry: symlink wins over directory, directory over
/// file; anything else is unknown.
pub open spec fn spec_kind_of(m: EntryMetaV) -> EntryKind {
    if m.is_symlink {
        EntryKind::Symlink
    } else if m.file_type == Option::Some(FileKind::Dir) {
        EntryKind::Dir
    } else if m.file_type == Option::Some(FileKind::File) {
        EntryKind::File
    } else {
        EntryKind::Unknown
    }
}

/// The view [`Entry::from_meta`] produces from a metadata view.
pub open spec fn spec_entry_of(m: EntryMetaV, depth: int) -> EntryV {
    EntryV {
        name: m.name,
        path: m.path,
        depth: depth,
        kind: spec_kind_of(m),
        size: m.size,
        mtime: match m.mtime {
            Option::Some(t) => Option::Some(dec_digits(t as int)),
            Option::None => Option::None,
        },
        perm: match m.perm_unix {
            Option::Some(p) => Option::Some(oct3_digits(p as int)),
            Option::None => Option::None,
        },
        symlink_target: if m.is_symlink {
            match m.symlink_target {
                Option::Some(t) => Option::Some(t),
                Option::None => Option::Some(broken_link_label()),
            }
        } else {
            Option::None
        },
        loop_detected: m.loop_detected,
        error: m.error,
        git_status: m.git_status,
    }
}

impl Entry {
    /// Projects a metadata record into its output form at the given depth.
    pub fn from_meta(meta: &EntryMeta, depth: usize) -> (r: Entry)
        ensures
            r@ == spec_entry_of(meta@, depth as int),
    {
        let kind = if meta.is_symlink {
            EntryKind::Symlink
        } else if meta.is_directory() {
            EntryKind::Dir
        } else {
            match meta.file_type {
                Option::Some(FileKind::File) => EntryKind::File,
                _ => EntryKind::Unknown,
            }
        };

        let mtime = match meta.mtime {
            Option::Some(t) => Option::Some(u64_to_dec(t)),
            Option::None => Option::None,
        };

        let perm = match meta.perm_unix {
            Option::Some(p) => Option::Some(u32_to_oct3(p)),
            Option::None => Option::None,
        };

        let symlink_target = if meta.is_symlink {
            match clone_opt_string(&meta.symlink_target) {
                Option::Some(t) => Option::Some(t),
                Option::None => Option::Some(String::from_str("[broken symlink]")),
            }
        } else {
            Option::None
        };

        Entry {
            name: meta.name.clone(),
            path: meta.path.clone(),
            depth,
            kind,
            size: meta.size,
            mtime,
            perm,
            symlink_target,
            loop_detected: meta.loop_detected,
            error: clone_opt_string(&meta.error),
            git_status: meta.git_status,
        }
    }
}

/// The textual label of an entry kind.
pub open spec fn spec_kind_label(kind: EntryKind) -> Seq<char> {
    match kind {
        EntryKind::File => "file"@,
        EntryKind::Dir => "dir"@,
        EntryKind::Symlink => "symlink"@,
        EntryKind::Unknown => "unknown"@,
    }
}

/// Label used for an entry kind in the record-oriented formats.
pub fn entry_kind_label(kind: EntryKind) -> (r: &'static str)
    ensures
        r@ == spec_kind_label(kind),
{
    match kind {
        EntryKind::File => "file",
        EntryKind::Dir => "dir",
        EntryKind::Symlink => "symlink",
        EntryKind::Unknown => "unknown",
    }
}

} // verus!
