//! In-memory directory entries: the `File`/`Dir` descriptors a directory
//! listing yields, and their common ghost model.

use vstd::prelude::*;
use crate::cluster::Cluster;
use crate::file::File;
use crate::metadata::Metadata;

verus! {

/// The ghost image of one directory entry: what the on-disk record
/// denotes, independent of which handle type carries it.
pub struct EntryModel {
    pub is_dir: bool,
    pub name: Seq<char>,
    pub start: Cluster,
    pub metadata: Metadata,
    pub size: u32,
}

/// A directory descriptor: where the directory's cluster chain starts,
/// its user-visible name and its metadata. Operations on the directory
/// take the mounted filesystem explicitly.
#[derive(Debug)]
pub struct Dir {
    pub start_cluster: Cluster,
    pub name: String,
    pub metadata: Metadata,
}

impl View for Dir {
    type V = EntryModel;

    open spec fn view(&self) -> EntryModel {
        EntryModel {
            is_dir: true,
            name: self.name@,
            start: self.start_cluster,
            metadata: self.metadata,
            size: 0,
        }
    }
}

/// One entry of a directory: a file or a subdirectory.
#[derive(Debug)]
pub enum Entry {
    File(File),
    Dir(Dir),
}

impl View for Entry {
    type V = EntryModel;

    open spec fn view(&self) -> EntryModel {
        match self {
            Entry::File(f) => f@,
            Entry::Dir(d) => d@,
        }
    }
}

impl Entry {
    /// The entry's name.
    pub fn name(&self) -> (r: &str)
        ensures
            r@ == self@.name,
    {
        match self {
            Entry::File(f) => f.name.as_str(),
            Entry::Dir(d) => d.name.as_str(),
        }
    }

    /// The entry's metadata.
    pub fn metadata(&self) -> (r: &Metadata)
        ensures
            r == self@.metadata,
    {
        match self {
            Entry::File(f) => &f.metadata,
            Entry::Dir(d) => &d.metadata,
        }
    }

    /// The file behind this entry, if it is one.
    pub fn as_file(&self) -> (r: Option<&File>)
        ensures
            self is File <==> r is Some,
            r matches Some(f) ==> self == Entry::File(*f),
    {
        match self {
            Entry::File(f) => Some(f),
            Entry::Dir(_) => None,
        }
    }

    /// The directory behind this entry, if it is one.
    pub fn as_dir(&self) -> (r: Option<&Dir>)
        ensures
            self is Dir <==> r is Some,
            r matches Some(d) ==> self == Entry::Dir(*d),
    {
        match self {
            Entry::File(_) => None,
            Entry::Dir(d) => Some(d),
        }
    }

    /// Takes the file behind this entry, if it is one.
    pub fn into_file(self) -> (r: Option<File>)
        ensures
            self is File <==> r is Some,
            r matches Some(f) ==> self == Entry::File(f),
    {
        match self {
            Entry::File(f) => Some(f),
            Entry::Dir(_) => None,
        }
    }

    /// Takes the directory behind this entry, if it is one.
    pub fn into_dir(self) -> (r: Option<Dir>)
        ensures
            self is Dir <==> r is Some,
            r matches Some(d) ==> self == Entry::Dir(d),
    {
        match self {
            Entry::File(_) => None,
            Entry::Dir(d) => Some(d),
        }
    }
}

} // verus!
