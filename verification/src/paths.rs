use vstd::prelude::*;

use crate::error::GustError;
use crate::strutil::{is_prefix, str_eq, str_starts_with, str_suffix_from};

verus! {

/// A path exactly as the operator typed it: untrusted input, possibly
/// relative to the current working directory.
#[derive(Debug)]
pub struct CliPath(String);

/// A filesystem path anchored at the root directory.
#[derive(Debug)]
pub struct AbsolutePath(String);

/// A path relative to the repository root: the only form stored in any
/// persisted record.
#[derive(Debug, PartialEq, Eq)]
pub struct RootRelativePath(String);

/// The absolute path of the repository root directory.
#[derive(Debug)]
pub struct RootPath(String);

impl View for CliPath {
    type V = Seq<char>;

    closed spec fn view(&self) -> Seq<char> {
        self.0@
    }
}

impl View for AbsolutePath {
    type V = Seq<char>;

    closed spec fn view(&self) -> Seq<char> {
        self.0@
    }
}

impl View for RootRelativePath {
    type V = Seq<char>;

    closed spec fn view(&self) -> Seq<char> {
        self.0@
    }
}

impl View for RootPath {
    type V = Seq<char>;

    closed spec fn view(&self) -> Seq<char> {
        self.0@
    }
}

/// Joining `rel` onto `base`: an already-absolute `rel` replaces `base`, as
/// filesystem path joining does.
pub open spec fn spec_path_join(base: Seq<char>, rel: Seq<char>) -> Seq<char> {
    if rel.len() > 0 && rel[0] == '/' {
        rel
    } else {
        base + "/"@ + rel
    }
}

/// Component-wise "starts with": `s` is `p` itself or lies strictly inside
/// the directory `p`.
pub open spec fn spec_path_starts_with(s: Seq<char>, p: Seq<char>) -> bool {
    s == p || (p.len() < s.len() && is_prefix(p, s) && s[p.len() as int] == '/')
}

/// The remainder of `s` after the directory prefix `p` and its separator.
pub open spec fn spec_strip_path_prefix(s: Seq<char>, p: Seq<char>) -> Seq<char> {
    if s == p {
        Seq::<char>::empty()
    } else {
        s.subrange(p.len() as int + 1, s.len() as int)
    }
}

/// Join `base` and `rel` at the character level.
pub fn path_join(base: &str, rel: &str) -> (r: String)
    ensures
        r@ == spec_path_join(base@, rel@),
{
    if rel.unicode_len() > 0 && rel.get_char(0) == '/' {
        rel.to_owned()
    } else {
        let mut s = base.to_owned();
        s.append("/");
        s.append(rel);
        s
    }
}

impl CliPath {
    /// Wrap a path the operator supplied.
    pub fn new(path: String) -> (r: Self)
        ensures
            r@ == path@,
    {
        CliPath(path)
    }

    pub fn as_str(&self) -> (r: &str)
        ensures
            r@ == self@,
    {
        self.0.as_str()
    }
}

impl Clone for CliPath {
    fn clone(&self) -> (r: Self)
        ensures
            r@ == self@,
    {
        CliPath(self.0.clone())
    }
}

impl AbsolutePath {
    /// Wrap a path that is already known to be absolute.
    pub fn from_absolute_path(path: &str) -> (r: Self)
        ensures
            r@ == path@,
    {
        AbsolutePath(path.to_owned())
    }

    pub fn as_path(&self) -> (r: &str)
        ensures
            r@ == self@,
    {
        self.0.as_str()
    }

    /// The remainder of this path after the directory `prefix`.
    pub fn strip_prefix(&self, prefix: &str) -> (r: String)
        requires
            spec_path_starts_with(self@, prefix@),
        ensures
            r@ == spec_strip_path_prefix(self@, prefix@),
    {
        if str_eq(self.0.as_str(), prefix) {
            String::new()
        } else {
            let slen = self.0.as_str().unicode_len();
            let plen = prefix.unicode_len();
            assert(plen < slen);
            str_suffix_from(self.0.as_str(), plen + 1)
        }
    }

    /// Whether this path equals `other`.
    pub fn equals(&self, other: &AbsolutePath) -> (r: bool)
        ensures
            r <==> self@ == other@,
    {
        str_eq(self.0.as_str(), other.0.as_str())
    }

    /// Whether this path is `dir` or lies inside the directory `dir`.
    pub fn starts_with(&self, dir: &AbsolutePath) -> (r: bool)
        ensures
            r <==> spec_path_starts_with(self@, dir@),
    {
        path_str_starts_with(self.0.as_str(), dir.0.as_str())
    }

    /// Resolve a path the operator typed against the current working
    /// directory. The caller reports whether the joined path exists on disk;
    /// a path that does not exist is refused.
    pub fn try_from_cli(value: &CliPath, cwd: &AbsolutePath, path_exists: bool) -> (r: Result<
        AbsolutePath,
        GustError,
    >)
        ensures
            match r {
                Ok(p) => path_exists && p@ == spec_path_join(cwd@, value@),
                Err(e) => !path_exists && (e matches GustError::User(m) && m@ == "Path not found: "@
                    + spec_path_join(cwd@, value@)),
            },
    {
        let joined = path_join(cwd.0.as_str(), value.0.as_str());
        if !path_exists {
            let mut m = String::from_str("Path not found: ");
            m.append(joined.as_str());
            Err(GustError::User(m))
        } else {
            Ok(AbsolutePath(joined))
        }
    }
}

impl Clone for AbsolutePath {
    fn clone(&self) -> (r: Self)
        ensures
            r@ == self@,
    {
        AbsolutePath(self.0.clone())
    }
}

/// Component-wise "starts with" on string slices.
pub fn path_str_starts_with(s: &str, p: &str) -> (r: bool)
    ensures
        r <==> spec_path_starts_with(s@, p@),
{
    if str_eq(s, p) {
        true
    } else if p.unicode_len() < s.unicode_len() && str_starts_with(s, p) {
        s.get_char(p.unicode_len()) == '/'
    } else {
        false
    }
}

impl RootRelativePath {
    /// Make `path` relative to the repository root; a path outside the root
    /// is refused.
    pub fn new(path: &AbsolutePath, root_path: &RootPath) -> (r: Result<Self, GustError>)
        ensures
            match r {
                Ok(p) => spec_path_starts_with(path@, root_path@) && p@ == spec_strip_path_prefix(
                    path@,
                    root_path@,
                ),
                Err(e) => !spec_path_starts_with(path@, root_path@) && (e matches GustError::User(
                    m,
                ) && m@ == path@ + " isn't inside the project"@),
            },
    {
        if !root_path.is_inside_root(path) {
            let mut m = path.0.clone();
            m.append(" isn't inside the project");
            Err(GustError::User(m))
        } else {
            Ok(RootRelativePath(path.strip_prefix(root_path.0.as_str())))
        }
    }

    /// Resolve a path the operator typed, then make it root-relative.
    pub fn new_from_cli(path: &CliPath, cwd: &AbsolutePath, path_exists: bool, root_path: &RootPath) -> (r:
        Result<Self, GustError>)
        ensures
            r is Ok ==> path_exists && spec_path_starts_with(spec_path_join(cwd@, path@), root_path@)
                && r->Ok_0@ == spec_strip_path_prefix(spec_path_join(cwd@, path@), root_path@),
            r is Err ==> !path_exists || !spec_path_starts_with(
                spec_path_join(cwd@, path@),
                root_path@,
            ),
    {
        let absolute_path = match AbsolutePath::try_from_cli(path, cwd, path_exists) {
            Ok(p) => p,
            Err(e) => {
                return Err(e);
            },
        };
        RootRelativePath::new(&absolute_path, root_path)
    }

    /// Wrap a string that is already root-relative.
    pub fn from_string(path: String) -> (r: Self)
        ensures
            r@ == path@,
    {
        RootRelativePath(path)
    }

    pub fn as_str(&self) -> (r: &str)
        ensures
            r@ == self@,
    {
        self.0.as_str()
    }

    pub fn display(&self) -> (r: String)
        ensures
            r@ == self@,
    {
        self.0.clone()
    }
}

impl Clone for RootRelativePath {
    fn clone(&self) -> (r: Self)
        ensures
            r@ == self@,
    {
        RootRelativePath(self.0.clone())
    }
}

impl RootPath {
    /// Wrap the absolute path of the repository root.
    pub fn from_string(path: String) -> (r: Self)
        ensures
            r@ == path@,
    {
        RootPath(path)
    }

    /// Join a root-relative string onto the root.
    pub fn join(&self, path: &str) -> (r: AbsolutePath)
        ensures
            r@ == spec_path_join(self@, path@),
    {
        AbsolutePath(path_join(self.0.as_str(), path))
    }

    /// Join a root-relative path onto the root.
    pub fn join_path(&self, path: &RootRelativePath) -> (r: AbsolutePath)
        ensures
            r@ == spec_path_join(self@, path@),
    {
        AbsolutePath(path_join(self.0.as_str(), path.0.as_str()))
    }

    pub fn as_path(&self) -> (r: &str)
        ensures
            r@ == self@,
    {
        self.0.as_str()
    }

    /// Whether `path` is the root itself or lies inside it.
    pub fn is_inside_root(&self, path: &AbsolutePath) -> (r: bool)
        ensures
            r <==> spec_path_starts_with(path@, self@),
    {
        path_str_starts_with(path.0.as_str(), self.0.as_str())
    }
}

impl Clone for RootPath {
    fn clone(&self) -> (r: Self)
        ensures
            r@ == self@,
    {
        RootPath(self.0.clone())
    }
}

} // verus!
