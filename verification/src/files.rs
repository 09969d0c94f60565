//! The files of a game package, by path.
use vstd::prelude::*;

use crate::table::TextMap;

verus! {

/// The files of a game package: each path names one byte string.
pub struct FileTable {
    files: TextMap<Vec<u8>>,
}

impl View for FileTable {
    type V = Map<Seq<char>, Seq<u8>>;

    closed spec fn view(&self) -> Map<Seq<char>, Seq<u8>> {
        self.files@
    }
}

impl FileTable {
    /// An empty table.
    pub fn new() -> (t: Self)
        ensures
            t@ == Map::<Seq<char>, Seq<u8>>::empty(),
    {
        FileTable { files: TextMap::new() }
    }

    /// The number of files.
    pub fn len(&self) -> (n: usize)
        ensures
            n == self@.len(),
    {
        self.files.len()
    }

    /// The contents stored under `name`.
    pub fn get(&self, name: &str) -> (r: Option<&Vec<u8>>)
        ensures
            match r {
                Some(v) => self@.contains_key(name@) && v@ == self@[name@],
                None => !self@.contains_key(name@),
            },
    {
        self.files.get(name)
    }

    /// Stores `data` under `name`, replacing what was stored there.
    pub fn insert(&mut self, name: String, data: Vec<u8>)
        ensures
            final(self)@ == old(self)@.insert(name@, data@),
    {
        self.files.insert(name, data);
    }

    /// Appends `data` to what is stored under `name`, or stores it there when nothing was.
    pub fn append(&mut self, name: String, data: &[u8])
        ensures
            final(self)@ == old(self)@.insert(
                name@,
                if old(self)@.contains_key(name@) {
                    old(self)@[name@] + data@
                } else {
                    data@
                },
            ),
    {
        let mut joined: Vec<u8> = match self.files.get(name.as_str()) {
            Some(v) => v.clone(),
            None => Vec::new(),
        };
        assert(joined@ == if old(self)@.contains_key(name@) {
            old(self)@[name@]
        } else {
            Seq::<u8>::empty()
        });
        joined.extend_from_slice(data);
        assert(joined@ =~= if old(self)@.contains_key(name@) {
            old(self)@[name@] + data@
        } else {
            data@
        });
        self.files.insert(name, joined);
    }
}

} // verus!
