//! Paths, and what is known of the files and directories behind them.
//!
//! A path is the list of its components. Nothing here touches the file system:
//! a search runs on what is known so far, and says what it has to know next.

use vstd::prelude::*;
use vstd::slice::slice_subrange;
use vstd::string::*;

use crate::text::{copied_texts, join, joined, same_text, slices, texts};

verus! {

// ---------------------------------------------------------------------------
// Paths

/// `path` without what it has in common with `root`, if it is inside.
pub open spec fn relative(root: Seq<Seq<char>>, path: Seq<Seq<char>>) -> Seq<Seq<char>> {
    if root.is_prefix_of(path) {
        path.skip(root.len() as int)
    } else {
        path
    }
}

/// `path` relative to `root`, `/`-separated.
pub open spec fn label_of(root: Seq<Seq<char>>, path: Seq<Seq<char>>) -> Seq<char> {
    joined(relative(root, path), "/"@)
}

/// The directory that a path is in.
pub open spec fn parent_of(path: Seq<Seq<char>>) -> Seq<Seq<char>> {
    if path.len() == 0 {
        path
    } else {
        path.drop_last()
    }
}

/// Whether `path` is `root` or inside it.
pub fn starts_with(path: &[String], root: &[String]) -> (inside: bool)
    ensures
        inside == texts(root@).is_prefix_of(texts(path@)),
{
    if root.len() > path.len() {
        return false;
    }
    let ghost roots = texts(root@);
    let ghost parts = texts(path@);
    let mut at: usize = 0;
    while at < root.len()
        invariant
            at <= root@.len() <= path@.len(),
            roots == texts(root@),
            parts == texts(path@),
            forall|i: int| 0 <= i < at ==> #[trigger] roots[i] == parts[i],
        decreases root@.len() - at,
    {
        if !same_text(root[at].as_str(), path[at].as_str()) {
            assert(roots[at as int] != parts.subrange(0, roots.len() as int)[at as int]);
            return false;
        }
        at = at + 1;
    }
    assert(roots =~= parts.subrange(0, roots.len() as int));
    true
}

/// Whether two paths are the same.
pub fn same_path(left: &[String], right: &[String]) -> (same: bool)
    ensures
        same == (texts(left@) == texts(right@)),
{
    if left.len() != right.len() {
        assert(texts(left@).len() != texts(right@).len());
        return false;
    }
    let inside = starts_with(left, right);
    assert(texts(left@).subrange(0, texts(left@).len() as int) =~= texts(left@));
    inside
}

/// `path` relative to the repository root, `/`-separated as git reports it.
pub fn label(root: &[String], path: &[String]) -> (label: String)
    ensures
        label@ == label_of(texts(root@), texts(path@)),
{
    if starts_with(path, root) {
        let inner = slice_subrange(path, root.len(), path.len());
        assert(texts(inner@) =~= texts(path@).skip(root@.len() as int));
        join(inner, "/")
    } else {
        join(path, "/")
    }
}

/// The directory that a path is in.
pub fn parent(path: &[String]) -> (directory: &[String])
    ensures
        texts(directory@) == parent_of(texts(path@)),
{
    if path.len() == 0 {
        path
    } else {
        let directory = slice_subrange(path, 0, path.len() - 1);
        assert(texts(directory@) =~= texts(path@).drop_last());
        directory
    }
}

/// `path` with one more component.
pub fn child(path: &[String], name: &str) -> (longer: Vec<String>)
    ensures
        texts(longer@) == texts(path@).push(name@),
{
    let mut longer = copied_texts(path);
    longer.push(name.to_owned());
    assert(texts(longer@) =~= texts(path@).push(name@));
    longer
}

// ---------------------------------------------------------------------------
// What is known

/// What a look at a path found.
#[derive(Debug)]
pub struct File {
    pub path: Vec<String>,
    /// Whether a file is there.
    pub is_file: bool,
    /// The contents, or the reason why they could not be read.
    pub contents: Result<String, String>,
}

/// The names of the directories inside a directory; none where it could not be
/// listed.
#[derive(Debug)]
pub struct Listing {
    pub path: Vec<String>,
    pub directories: Vec<String>,
}

/// What is known of the files and directories on disk.
#[derive(Debug)]
pub struct Disk {
    pub files: Vec<File>,
    pub listings: Vec<Listing>,
}

pub struct FileModel {
    pub path: Seq<Seq<char>>,
    pub is_file: bool,
    pub contents: Result<Seq<char>, Seq<char>>,
}

pub struct ListingModel {
    pub path: Seq<Seq<char>>,
    pub directories: Seq<Seq<char>>,
}

pub struct DiskModel {
    pub files: Seq<FileModel>,
    pub listings: Seq<ListingModel>,
}

/// The contents of a file, or the reason why they could not be read.
pub open spec fn contents_model(contents: Result<String, String>) -> Result<Seq<char>, Seq<char>> {
    match contents {
        Ok(source) => Ok(source@),
        Err(reason) => Err(reason@),
    }
}

impl View for File {
    type V = FileModel;

    open spec fn view(&self) -> FileModel {
        FileModel {
            path: texts(self.path@),
            is_file: self.is_file,
            contents: contents_model(self.contents),
        }
    }
}

impl View for Listing {
    type V = ListingModel;

    open spec fn view(&self) -> ListingModel {
        ListingModel { path: texts(self.path@), directories: texts(self.directories@) }
    }
}

impl View for Disk {
    type V = DiskModel;

    open spec fn view(&self) -> DiskModel {
        DiskModel {
            files: Seq::new(self.files@.len(), |i: int| self.files@[i]@),
            listings: Seq::new(self.listings@.len(), |i: int| self.listings@[i]@),
        }
    }
}

/// The first file with this path.
pub open spec fn file_in(files: Seq<FileModel>, path: Seq<Seq<char>>) -> Option<FileModel>
    decreases files.len(),
{
    if files.len() == 0 {
        None
    } else if files[0].path == path {
        Some(files[0])
    } else {
        file_in(files.drop_first(), path)
    }
}

/// The first listing of this directory.
pub open spec fn listing_in(listings: Seq<ListingModel>, path: Seq<Seq<char>>) -> Option<
    Seq<Seq<char>>,
>
    decreases listings.len(),
{
    if listings.len() == 0 {
        None
    } else if listings[0].path == path {
        Some(listings[0].directories)
    } else {
        listing_in(listings.drop_first(), path)
    }
}

impl DiskModel {
    /// What is known of the file at a path.
    pub open spec fn file(self, path: Seq<Seq<char>>) -> Option<FileModel> {
        file_in(self.files, path)
    }

    /// The directories known to be inside a directory.
    pub open spec fn listing(self, path: Seq<Seq<char>>) -> Option<Seq<Seq<char>>> {
        listing_in(self.listings, path)
    }
}

impl Disk {
    /// Nothing is known yet.
    pub fn new() -> (disk: Disk)
        ensures
            disk@.files.len() == 0,
            disk@.listings.len() == 0,
    {
        Disk { files: Vec::new(), listings: Vec::new() }
    }

    /// What is known of the file at `path`.
    pub fn file(&self, path: &[String]) -> (file: Option<&File>)
        ensures
            match file {
                Some(found) => self@.file(texts(path@)) == Some(found@) && found@.path == texts(
                    path@,
                ),
                None => self@.file(texts(path@)) is None,
            },
    {
        let ghost all = self@.files;
        let mut at: usize = 0;
        assert(all.skip(0) =~= all);
        while at < self.files.len()
            invariant
                at <= self.files@.len(),
                all == self@.files,
                file_in(all, texts(path@)) == file_in(all.skip(at as int), texts(path@)),
            decreases self.files@.len() - at,
        {
            assert(all.skip(at as int).drop_first() =~= all.skip(at + 1));
            assert(all.skip(at as int)[0] == self.files@[at as int]@);
            if same_path(self.files[at].path.as_slice(), path) {
                return Some(&self.files[at]);
            }
            at = at + 1;
        }
        None
    }

    /// The directories known to be inside the directory at `path`.
    pub fn listing(&self, path: &[String]) -> (directories: Option<&[String]>)
        ensures
            match directories {
                Some(found) => self@.listing(texts(path@)) == Some(texts(found@)),
                None => self@.listing(texts(path@)) is None,
            },
    {
        let ghost all = self@.listings;
        let mut at: usize = 0;
        assert(all.skip(0) =~= all);
        while at < self.listings.len()
            invariant
                at <= self.listings@.len(),
                all == self@.listings,
                listing_in(all, texts(path@)) == listing_in(all.skip(at as int), texts(path@)),
            decreases self.listings@.len() - at,
        {
            assert(all.skip(at as int).drop_first() =~= all.skip(at + 1));
            assert(all.skip(at as int)[0] == self.listings@[at as int]@);
            if same_path(self.listings[at].path.as_slice(), path) {
                return Some(self.listings[at].directories.as_slice());
            }
            at = at + 1;
        }
        None
    }
}

// ---------------------------------------------------------------------------
// Searches

/// How far a search has come.
#[derive(Debug)]
pub enum Lookup<T> {
    /// It is over.
    Done(T),
    /// It has to know what is at this path.
    Look(Vec<String>),
    /// It has to know which directories are inside this one.
    List(Vec<String>),
}

/// A [`Lookup`] with its paths as models.
pub enum Progress<T> {
    Done(T),
    Look(Seq<Seq<char>>),
    List(Seq<Seq<char>>),
}

/// What a search asks for next, or that it is over with a result that `model`
/// speaks of.
pub open spec fn progress<T, M>(lookup: Lookup<T>, model: spec_fn(T) -> M) -> Progress<M> {
    match lookup {
        Lookup::Done(result) => Progress::Done(model(result)),
        Lookup::Look(path) => Progress::Look(texts(path@)),
        Lookup::List(path) => Progress::List(texts(path@)),
    }
}

/// The contents of a path that may be missing.
pub open spec fn maybe_path(path: Option<Vec<String>>) -> Option<Seq<Seq<char>>> {
    match path {
        Some(parts) => Some(texts(parts@)),
        None => None,
    }
}

/// The first of `names` that is a file in `directory`.
pub open spec fn first_file(
    directory: Seq<Seq<char>>,
    names: Seq<Seq<char>>,
    disk: DiskModel,
) -> Progress<Option<Seq<Seq<char>>>>
    decreases names.len(),
{
    if names.len() == 0 {
        Progress::Done(None)
    } else {
        let path = directory.push(names[0]);
        match disk.file(path) {
            None => Progress::Look(path),
            Some(file) => if file.is_file {
                Progress::Done(Some(path))
            } else {
                first_file(directory, names.drop_first(), disk)
            },
        }
    }
}

/// The nearest of `names` that is a file at or above `directory`, in order in
/// each directory, and not outside `root`.
pub open spec fn nearest_file(
    directory: Seq<Seq<char>>,
    root: Seq<Seq<char>>,
    names: Seq<Seq<char>>,
    disk: DiskModel,
) -> Progress<Option<Seq<Seq<char>>>>
    decreases directory.len(),
{
    if !root.is_prefix_of(directory) {
        Progress::Done(None)
    } else {
        match first_file(directory, names, disk) {
            Progress::Done(None) => if directory.len() == 0 {
                Progress::Done(None)
            } else {
                nearest_file(directory.drop_last(), root, names, disk)
            },
            found => found,
        }
    }
}

fn first_of(directory: &[String], names: &[&str], disk: &Disk) -> (found: Lookup<
    Option<Vec<String>>,
>)
    ensures
        progress(found, |path: Option<Vec<String>>| maybe_path(path)) == first_file(
            texts(directory@),
            slices(names@),
            disk@,
        ),
{
    let ghost all = slices(names@);
    let mut at: usize = 0;
    assert(all.skip(0) =~= all);
    while at < names.len()
        invariant
            at <= names@.len(),
            all == slices(names@),
            first_file(texts(directory@), all, disk@) == first_file(
                texts(directory@),
                all.skip(at as int),
                disk@,
            ),
        decreases names@.len() - at,
    {
        assert(all.skip(at as int).drop_first() =~= all.skip(at + 1));
        assert(all.skip(at as int)[0] == names@[at as int]@);
        let path = child(directory, names[at]);
        match disk.file(path.as_slice()) {
            None => {
                return Lookup::Look(path);
            },
            Some(file) => {
                if file.is_file {
                    return Lookup::Done(Some(path));
                }
            },
        }
        at = at + 1;
    }
    Lookup::Done(None)
}

/// Nearest of `names` at or above `from`, checked in order in each directory
/// and never looking past the repository root.
pub fn nearest(from: &[String], root: &[String], names: &[&str], disk: &Disk) -> (found: Lookup<
    Option<Vec<String>>,
>)
    ensures
        progress(found, |path: Option<Vec<String>>| maybe_path(path)) == nearest_file(
            texts(from@),
            texts(root@),
            slices(names@),
            disk@,
        ),
{
    let ghost all = texts(from@);
    let mut length: usize = from.len();
    assert(all.take(length as int) =~= all);
    loop
        invariant
            length <= from@.len(),
            all == texts(from@),
            nearest_file(all, texts(root@), slices(names@), disk@) == nearest_file(
                all.take(length as int),
                texts(root@),
                slices(names@),
                disk@,
            ),
        decreases length,
    {
        let directory = slice_subrange(from, 0, length);
        assert(texts(directory@) =~= all.take(length as int));
        if !starts_with(directory, root) {
            return Lookup::Done(None);
        }
        match first_of(directory, names, disk) {
            Lookup::Done(None) => {},
            found => {
                return found;
            },
        }
        if length == 0 {
            return Lookup::Done(None);
        }
        assert(all.take(length as int).drop_last() =~= all.take(length - 1));
        length = length - 1;
    }
}

/// A search never leaves `root`: what it finds and what it asks for is inside.
/// And it asks for nothing that is known already.
pub proof fn law_search_stays_inside(
    directory: Seq<Seq<char>>,
    root: Seq<Seq<char>>,
    names: Seq<Seq<char>>,
    disk: DiskModel,
)
    ensures
        match nearest_file(directory, root, names, disk) {
            Progress::Done(Some(path)) => root.is_prefix_of(path) && names.contains(path.last()),
            Progress::Done(None) => true,
            Progress::Look(path) => root.is_prefix_of(path) && names.contains(path.last())
                && disk.file(path) is None,
            Progress::List(_) => false,
        },
    decreases directory.len(),
{
    if root.is_prefix_of(directory) {
        lemma_first_file(directory, names, disk);
        match first_file(directory, names, disk) {
            Progress::Done(None) => {
                if directory.len() > 0 {
                    law_search_stays_inside(directory.drop_last(), root, names, disk);
                }
            },
            Progress::Done(Some(path)) => {
                lemma_inside(root, directory, path.last());
            },
            Progress::Look(path) => {
                lemma_inside(root, directory, path.last());
            },
            Progress::List(_) => {},
        }
    }
}

/// What is in a directory inside `root` is inside `root`.
proof fn lemma_inside(root: Seq<Seq<char>>, directory: Seq<Seq<char>>, name: Seq<char>)
    requires
        root.is_prefix_of(directory),
    ensures
        root.is_prefix_of(directory.push(name)),
{
    assert(directory.push(name).subrange(0, root.len() as int) =~= directory.subrange(
        0,
        root.len() as int,
    ));
}

proof fn lemma_first_file(directory: Seq<Seq<char>>, names: Seq<Seq<char>>, disk: DiskModel)
    ensures
        match first_file(directory, names, disk) {
            Progress::Done(Some(path)) => path == directory.push(path.last()) && names.contains(
                path.last(),
            ),
            Progress::Done(None) => true,
            Progress::Look(path) => path == directory.push(path.last()) && names.contains(
                path.last(),
            ) && disk.file(path) is None,
            Progress::List(_) => false,
        },
    decreases names.len(),
{
    if names.len() > 0 {
        let path = directory.push(names[0]);
        assert(path.last() == names[0]);
        let rest = names.drop_first();
        lemma_first_file(directory, rest, disk);
        assert forall|name: Seq<char>| rest.contains(name) implies names.contains(name) by {
            let at = choose|at: int| 0 <= at < rest.len() && rest[at] == name;
            assert(names[at + 1] == name);
        }
    }
}

} // verus!
