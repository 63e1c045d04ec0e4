use vstd::prelude::*;

verus! {

pub open spec fn strings_view(v: Seq<String>) -> Seq<Seq<char>> {
    v.map_values(|s: String| s@)
}

/// A part of a workspace: the documents under a folder that carry some tags.
pub struct Scope {
    /// Components of the folder's path.
    folder_path: Vec<String>,
    tags: Vec<String>,
}

/// `path` lies under `folder`, component by component.
pub open spec fn path_starts_with(path: Seq<Seq<char>>, folder: Seq<Seq<char>>) -> bool {
    folder.len() <= path.len() && path.take(folder.len() as int) == folder
}

/// A document with path `path` and tags `doc_tags` is in the scope.
pub open spec fn scope_contains(
    folder: Seq<Seq<char>>,
    tags: Seq<Seq<char>>,
    path: Seq<Seq<char>>,
    doc_tags: Seq<Seq<char>>,
) -> bool {
    &&& path_starts_with(path, folder)
    &&& forall|i: int| 0 <= i < tags.len() ==> doc_tags.contains(#[trigger] tags[i])
}

fn string_in(v: &Vec<String>, s: &String) -> (r: bool)
    ensures
        r == strings_view(v@).contains(s@),
{
    let mut i: usize = 0;
    while i < v.len()
        invariant
            i <= v.len(),
            forall|k: int| 0 <= k < i ==> v@[k]@ != s@,
        decreases v.len() - i,
    {
        if v[i] == *s {
            assert(strings_view(v@)[i as int] == s@);
            return true;
        }
        i = i + 1;
    }
    proof {
        if strings_view(v@).contains(s@) {
            let k = choose|k: int| 0 <= k < v@.len() && strings_view(v@)[k] == s@;
            assert(v@[k]@ == s@);
        }
    }
    false
}

impl Scope {
    pub closed spec fn spec_folder(self) -> Seq<Seq<char>> {
        strings_view(self.folder_path@)
    }

    pub closed spec fn spec_tags(self) -> Seq<Seq<char>> {
        strings_view(self.tags@)
    }

    pub fn new(folder_path: Vec<String>, tags: Vec<String>) -> (r: Self)
        ensures
            r.spec_folder() == strings_view(folder_path@),
            r.spec_tags() == strings_view(tags@),
    {
        Scope { folder_path, tags }
    }

    /// Whether a document with path components `doc_path` and tags `doc_tags` is in the
    /// scope: its path lies under the folder and it carries every tag of the scope.
    pub fn contains(&self, doc_path: &Vec<String>, doc_tags: &Vec<String>) -> (r: bool)
        ensures
            r == scope_contains(self.spec_folder(), self.spec_tags(), strings_view(doc_path@), strings_view(doc_tags@)),
    {
        let ghost folder = self.spec_folder();
        let ghost path = strings_view(doc_path@);
        if doc_path.len() < self.folder_path.len() {
            return false;
        }
        let mut i: usize = 0;
        while i < self.folder_path.len()
            invariant
                i <= self.folder_path.len() <= doc_path.len(),
                folder == self.spec_folder(),
                path == strings_view(doc_path@),
                forall|k: int| 0 <= k < i ==> path[k] == folder[k],
            decreases self.folder_path.len() - i,
        {
            if doc_path[i] != self.folder_path[i] {
                assert(path.take(folder.len() as int)[i as int] != folder[i as int]);
                return false;
            }
            i = i + 1;
        }
        assert(path.take(folder.len() as int) =~= folder);
        let mut j: usize = 0;
        while j < self.tags.len()
            invariant
                j <= self.tags.len(),
                forall|k: int| 0 <= k < j ==> strings_view(doc_tags@).contains(#[trigger] self.spec_tags()[k]),
            decreases self.tags.len() - j,
        {
            if !string_in(doc_tags, &self.tags[j]) {
                assert(self.spec_tags()[j as int] == self.tags@[j as int]@);
                return false;
            }
            j = j + 1;
        }
        true
    }
}

/// A quick test whether a document may belong to a scope: it may answer yes for a
/// document that does not belong, never no for one that does.
#[derive(Debug, Clone)]
pub struct PrelimFilter {}

impl PrelimFilter {
    /// The filter of a document.
    pub fn new() -> (r: Self) {
        PrelimFilter {  }
    }

    /// Whether the document of this filter may be in `scope`; the filter keeps nothing of
    /// the document yet, so every scope may hold it.
    pub fn maybe_matches(&self, scope: &Scope) -> (r: bool)
        ensures
            r,
    {
        true
    }
}

} // verus!
