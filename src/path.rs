use vstd::prelude::*;

verus! {

/// The last component of a path, converted lossily to text, if the path has one.
pub uninterp spec fn file_name_of(path: Seq<char>) -> Option<Seq<char>>;

/// A non-empty path of one plain component: no separator, no drive colon,
/// and neither `.` nor `..`.
pub open spec fn plain_name(p: Seq<char>) -> bool {
    &&& p.len() > 0
    &&& p != seq!['.']
    &&& p != seq!['.', '.']
    &&& forall|i: int| 0 <= i < p.len() ==> p[i] != '/' && p[i] != '\\' && p[i] != ':'
}

/// Relies on std::path::Path::file_name: `None` where the path has no final
/// component (a root, or a path that ends in `..`), and the path itself where
/// it is one plain component; the component is then converted with
/// OsStr::to_string_lossy, which keeps text that is already UTF-8.
#[verifier::external_body]
fn name_for_path(path: &str) -> (r: Option<String>)
    ensures
        plain_name(path@) ==> r is Some && r->0@ == path@,
        r matches Some(n) ==> file_name_of(path@) == Some(n@),
        r is None ==> file_name_of(path@) is None,
{
    std::path::Path::new(path).file_name().map(|s| s.to_string_lossy().into_owned())
}

/// A path without a final component was given where a file is meant.
#[derive(Debug, PartialEq, Eq)]
pub enum FilePathError {
    PathHasNoName(String),
}

/// Where an open document is stored, with its display name and its text
/// form kept beside it.
pub struct FilePath {
    path: String,
    cached_name: String,
    cached_path_str: String,
}

impl FilePath {
    #[verifier::type_invariant]
    spec fn caches_agree(&self) -> bool {
        &&& file_name_of(self.path@) == Some(self.cached_name@)
        &&& self.cached_path_str@ == self.path@
    }

    /// The stored path.
    pub closed spec fn path_view(&self) -> Seq<char> {
        self.path@
    }

    /// The display name: the path's final component.
    pub closed spec fn name_view(&self) -> Seq<char> {
        self.cached_name@
    }

    pub fn new(path: String) -> (r: Result<FilePath, FilePathError>)
        ensures
            plain_name(path@) ==> r is Ok && r->Ok_0.name_view() == path@,
            match r {
                Ok(p) => p.path_view() == path@ && file_name_of(path@) == Some(p.name_view()),
                Err(FilePathError::PathHasNoName(q)) => q@ == path@ && file_name_of(path@) is None,
            },
    {
        match name_for_path(path.as_str()) {
            Some(name) => {
                let path_str = path.clone();
                Ok(FilePath { path, cached_name: name, cached_path_str: path_str })
            },
            None => Err(FilePathError::PathHasNoName(path)),
        }
    }

    pub fn path(&self) -> (r: &str)
        ensures
            r@ == self.path_view(),
    {
        self.path.as_str()
    }

    /// The path as text, read from its cache.
    pub fn path_str(&self) -> (r: &str)
        ensures
            r@ == self.path_view(),
    {
        proof {
            use_type_invariant(self);
        }
        self.cached_path_str.as_str()
    }

    /// The display name, read from its cache.
    pub fn name(&self) -> (r: &str)
        ensures
            r@ == self.name_view(),
            file_name_of(self.path_view()) == Some(r@),
    {
        proof {
            use_type_invariant(self);
        }
        self.cached_name.as_str()
    }

    /// Points this identity at `path` and returns the previous path. A path
    /// without a final component is refused, and then nothing changes.
    pub fn set_path(&mut self, path: String) -> (r: Result<String, FilePathError>)
        ensures
            match r {
                Ok(prev) => {
                    &&& prev@ == old(self).path_view()
                    &&& final(self).path_view() == path@
                    &&& file_name_of(path@) == Some(final(self).name_view())
                },
                Err(FilePathError::PathHasNoName(q)) => {
                    &&& q@ == path@
                    &&& file_name_of(path@) is None
                    &&& final(self).path_view() == old(self).path_view()
                    &&& final(self).name_view() == old(self).name_view()
                },
            },
    {
        match name_for_path(path.as_str()) {
            Some(name) => {
                let path_str = path.clone();
                let mut other = FilePath { path, cached_name: name, cached_path_str: path_str };
                std::mem::swap(self, &mut other);
                Ok(other.path)
            },
            None => Err(FilePathError::PathHasNoName(path)),
        }
    }
}

} // verus!
