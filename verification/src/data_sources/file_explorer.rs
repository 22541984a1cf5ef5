//! Where the files to analyse come from: an explorer lists them.
use crate::text::strings_view;
use vstd::prelude::*;

verus! {

/// Lists the files to analyse below a root folder.
pub trait IFileExplorer {
    /// Whether `files` is a list of files that the explorer may find. An
    /// explorer that says nothing of what it finds allows any.
    open spec fn finds(&self, files: Seq<String>) -> bool {
        true
    }

    fn discover(&self) -> (r: Vec<String>)
        ensures
            self.finds(r@),
    ;

    fn get_root(&self) -> String;
}

/// The explorer of the files below `root` on disk.
#[derive(Debug)]
pub struct FileExplorer {
    root: String,
}

/// A copy of a list of strings.
pub fn copy_strings(v: &Vec<String>) -> (r: Vec<String>)
    ensures
        r@ == v@,
{
    let mut out: Vec<String> = Vec::new();
    let mut i: usize = 0;
    while i < v.len()
        invariant
            i <= v.len(),
            out@ == v@.take(i as int),
        decreases v.len() - i,
    {
        out.push(v[i].clone());
        proof {
            assert(out@ =~= v@.take(i + 1));
        }
        i += 1;
    }
    proof {
        assert(v@.take(v.len() as int) =~= v@);
    }
    out
}

impl FileExplorer {
    pub closed spec fn root_view(&self) -> Seq<char> {
        self.root@
    }

    pub fn new(root: &str) -> (r: FileExplorer)
        ensures
            r.root_view() == root@,
    {
        FileExplorer { root: root.to_owned() }
    }

    /// The folder whose files the explorer lists.
    pub fn get_root(&self) -> (r: String)
        ensures
            r@ == self.root_view(),
    {
        self.root.clone()
    }

    /// The pattern that matches every entry below the root, at any depth.
    pub fn discovery_pattern(&self) -> (r: String)
        ensures
            r@ == self.root_view() + "/**/*"@,
    {
        crate::text::concat(self.root.as_str(), "/**/*")
    }

    /// The next item of the explorer seen as an iterator: always the empty path.
    pub fn next(&mut self) -> (r: Option<String>)
        ensures
            r matches Some(p) && p@ == Seq::<char>::empty(),
            final(self).root_view() == old(self).root_view(),
    {
        Some(String::new())
    }
}

/// An explorer that lists the files it was given.
#[derive(Debug)]
pub struct FakeFileExplorer {
    files_to_analyze: Vec<String>,
}

impl FakeFileExplorer {
    pub closed spec fn files_view(&self) -> Seq<String> {
        self.files_to_analyze@
    }

    pub fn _new(files_to_analyze: Vec<String>) -> (r: FakeFileExplorer)
        ensures
            r.files_view() == files_to_analyze@,
    {
        FakeFileExplorer { files_to_analyze }
    }

    /// The next item of the explorer seen as an iterator: the last of its
    /// files, which it gives up.
    pub fn next(&mut self) -> (r: Option<String>)
        ensures
            old(self).files_view().len() > 0 ==> r == Some(old(self).files_view().last())
                && final(self).files_view() == old(self).files_view().drop_last(),
            old(self).files_view().len() == 0 ==> r is None && final(self).files_view() == old(
                self,
            ).files_view(),
    {
        self.files_to_analyze.pop()
    }
}

impl IFileExplorer for FakeFileExplorer {
    /// It finds the files it was given.
    open spec fn finds(&self, files: Seq<String>) -> bool {
        files == self.files_view()
    }

    fn discover(&self) -> (r: Vec<String>) {
        copy_strings(&self.files_to_analyze)
    }

    fn get_root(&self) -> (r: String)
        ensures
            r@ == "root"@,
    {
        "root".to_owned()
    }
}

} // verus!
