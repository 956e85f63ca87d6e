//! What the caller observed of the files: for each path, whether it exists and
//! when it was last modified.
use crate::text::str_eq;
use vstd::prelude::*;

verus! {

/// One observed path: its modification time in nanoseconds since the Unix epoch,
/// or `None` where the file does not exist.
#[derive(Clone, Debug)]
pub struct FileStat {
    pub path: String,
    pub modified: Option<u128>,
}

/// The state of a path in a list of observations: the last one of it counts.
pub open spec fn state_in(s: Seq<FileStat>, p: Seq<char>) -> Option<u128>
    decreases s.len(),
{
    if s.len() == 0 {
        None
    } else if s.last().path@ == p {
        s.last().modified
    } else {
        state_in(s.drop_last(), p)
    }
}

/// The observed files. A path that was not observed counts as absent.
#[derive(Clone, Debug)]
pub struct FileStates {
    pub stats: Vec<FileStat>,
}

impl FileStates {
    pub open spec fn state(&self, p: Seq<char>) -> Option<u128> {
        state_in(self.stats@, p)
    }

    /// Whether the file at `p` exists.
    pub open spec fn present(&self, p: Seq<char>) -> bool {
        self.state(p) is Some
    }

    /// The modification time of `p`; the epoch for an absent file.
    pub open spec fn time(&self, p: Seq<char>) -> u128 {
        match self.state(p) {
            Some(t) => t,
            None => 0,
        }
    }

    pub fn new() -> (r: FileStates)
        ensures
            forall|p: Seq<char>| r.state(p) is None,
    {
        FileStates { stats: Vec::new() }
    }

    /// Records an observation of `path`, which replaces any earlier one.
    pub fn add(&mut self, path: String, modified: Option<u128>)
        ensures
            forall|p: Seq<char>| #[trigger] final(self).state(p) == if p == path@ {
                modified
            } else {
                old(self).state(p)
            },
    {
        let ghost before = self.stats@;
        self.stats.push(FileStat { path, modified });
        assert(self.stats@.drop_last() =~= before);
    }

    /// The state of `p`.
    pub fn modified(&self, p: &str) -> (r: Option<u128>)
        ensures
            r == self.state(p@),
    {
        let mut i: usize = self.stats.len();
        assert(self.stats@.take(i as int) =~= self.stats@);
        while i > 0
            invariant
                i <= self.stats.len(),
                state_in(self.stats@, p@) == state_in(self.stats@.take(i as int), p@),
            decreases i,
        {
            let ghost part = self.stats@.take(i as int);
            assert(part.drop_last() =~= self.stats@.take(i as int - 1));
            if str_eq(self.stats[i - 1].path.as_str(), p) {
                return self.stats[i - 1].modified;
            }
            i = i - 1;
        }
        None
    }

    /// Whether the file at `p` exists.
    pub fn is_present(&self, p: &str) -> (r: bool)
        ensures
            r == self.present(p@),
    {
        self.modified(p).is_some()
    }

    /// The modification time of `p`, the epoch where it is absent.
    pub fn mtime(&self, p: &str) -> (r: u128)
        ensures
            r == self.time(p@),
    {
        match self.modified(p) {
            Some(t) => t,
            None => 0,
        }
    }
}

/// Whether the file `ref_file` was modified after `file`, an absent file counting
/// as modified at the epoch.
pub fn outdated(fs: &FileStates, ref_file: &str, file: &str) -> (r: bool)
    ensures
        r == (fs.time(ref_file@) > fs.time(file@)),
{
    fs.mtime(ref_file) > fs.mtime(file)
}

} // verus!
