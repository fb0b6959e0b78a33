//! The resolver: answers which bytes a path or an index stands for, from the
//! three streams of a container as they lie in memory.
//!
//! Nothing is copied: every answer borrows from the streams. A lookup that
//! finds nothing, or finds streams that do not fit together, answers with
//! `None`; it never fails.

use vstd::prelude::*;
use vstd::slice::slice_subrange;
use crate::bytes::{bytes_eq, contains_byte, lemma_split_len, slice_views, split, split_bytes};
use crate::codec::{COMMA, ENTRY_INDEX, NUL};
use crate::path::{normalize_path, normalized};

verus! {

/// Why the streams of a container could not be taken up.
#[derive(Clone, Copy, Debug, PartialEq, Eq)]
pub enum FsError {
    /// The entry of the path table with this index is not a string that ends
    /// with its only `NUL`.
    MalformedPath(usize),
}

/// `s` ends with a `NUL` and holds no other.
pub open spec fn is_c_string(s: Seq<u8>) -> bool {
    &&& s.len() > 0
    &&& s.last() == NUL
    &&& !s.drop_last().contains(NUL)
}

/// Every piece ends with a `NUL` and holds no other.
pub open spec fn all_c_strings(pieces: Seq<Seq<u8>>) -> bool {
    forall|i: int| 0 <= i < pieces.len() ==> is_c_string(#[trigger] pieces[i])
}

/// The bytes that the offset table and the content blob hold for `index`,
/// without the `NUL` that ends them.
///
/// There are none where the offset table has no entries `index` and
/// `index + 1`, where the two do not bound a part of the blob, or where that
/// part is not a string that ends with its only `NUL`.
pub open spec fn stored(offsets: Seq<u64>, blob: Seq<u8>, index: int) -> Option<Seq<u8>> {
    if 0 <= index && index + 1 < offsets.len() && offsets[index] <= offsets[index + 1]
        <= blob.len() && is_c_string(
        blob.subrange(offsets[index] as int, offsets[index + 1] as int),
    ) {
        Some(blob.subrange(offsets[index] as int, offsets[index + 1] - 1))
    } else {
        None
    }
}

/// The map that a list of entries stands for: of two entries with the same
/// path, the later one counts.
pub open spec fn map_of(entries: Seq<(Seq<u8>, usize)>) -> Map<Seq<u8>, usize>
    decreases entries.len(),
{
    if entries.len() == 0 {
        Map::empty()
    } else {
        map_of(entries.drop_last()).insert(entries.last().0, entries.last().1)
    }
}

/// What a list of borrowed entries holds.
pub open spec fn entry_views(entries: Seq<(&[u8], usize)>) -> Seq<(Seq<u8>, usize)> {
    Seq::new(entries.len(), |i: int| (entries[i].0@, entries[i].1))
}

/// The entries that the pieces of a path table stand for: every piece
/// without its last byte, with its position.
pub open spec fn indexed(pieces: Seq<Seq<u8>>) -> Seq<(Seq<u8>, usize)> {
    Seq::new(pieces.len(), |i: int| (pieces[i].drop_last(), i as usize))
}

/// The index of a path table: from every path to the position of its last
/// entry.
pub open spec fn path_index(table: Seq<u8>) -> Map<Seq<u8>, usize> {
    map_of(indexed(split(table, COMMA)))
}

/// What an optional byte string holds.
pub open spec fn bytes_of(found: Option<&[u8]>) -> Option<Seq<u8>> {
    match found {
        Some(bytes) => Some(bytes@),
        None => None,
    }
}

/// An entry that no later entry repeats is what the map holds for its path.
pub proof fn lemma_map_of_last(entries: Seq<(Seq<u8>, usize)>, i: int)
    requires
        0 <= i < entries.len(),
        forall|k: int| i < k < entries.len() ==> (#[trigger] entries[k]).0 != entries[i].0,
    ensures
        map_of(entries).contains_key(entries[i].0),
        map_of(entries)[entries[i].0] == entries[i].1,
    decreases entries.len(),
{
    if i < entries.len() - 1 {
        let front = entries.drop_last();
        assert(front[i] == entries[i]);
        assert forall|k: int| i < k < front.len() implies (#[trigger] front[k]).0 != front[i].0 by {
            assert(front[k] == entries[k]);
        }
        lemma_map_of_last(front, i);
        assert(entries[entries.len() - 1].0 != entries[i].0);
    }
}

/// A path that no entry has is not in the map.
pub proof fn lemma_map_of_none(entries: Seq<(Seq<u8>, usize)>, path: Seq<u8>)
    requires
        forall|k: int| 0 <= k < entries.len() ==> (#[trigger] entries[k]).0 != path,
    ensures
        !map_of(entries).contains_key(path),
    decreases entries.len(),
{
    if entries.len() > 0 {
        let front = entries.drop_last();
        assert forall|k: int| 0 <= k < front.len() implies (#[trigger] front[k]).0 != path by {
            assert(front[k] == entries[k]);
        }
        lemma_map_of_none(front, path);
        assert(entries[entries.len() - 1].0 != path);
    }
}

/// Whether `bytes` ends with a `NUL` and holds no other.
pub fn is_c_str(bytes: &[u8]) -> (ok: bool)
    ensures
        ok == is_c_string(bytes@),
{
    let n = bytes.len();
    if n == 0 || bytes[n - 1] != NUL {
        return false;
    }
    assert(bytes@.subrange(0, n - 1) =~= bytes@.drop_last());
    !contains_byte(slice_subrange(bytes, 0, n - 1), NUL)
}

/// A map from paths to indices whose keys borrow from the path table.
///
/// A path that is inserted again takes the place of the earlier entry. The
/// entries are kept in the order of insertion and searched from the back:
/// the keys are byte strings, and hash maps are modelled for integer keys
/// only.
#[derive(Debug)]
pub struct PathMap<'a> {
    entries: Vec<(&'a [u8], usize)>,
}

impl<'a> View for PathMap<'a> {
    type V = Map<Seq<u8>, usize>;

    closed spec fn view(&self) -> Map<Seq<u8>, usize> {
        map_of(entry_views(self.entries@))
    }
}

impl<'a> PathMap<'a> {
    /// The empty map.
    pub fn new() -> (map: Self)
        ensures
            map@ == Map::<Seq<u8>, usize>::empty(),
    {
        PathMap { entries: Vec::new() }
    }

    /// Lets `path` stand for `index`, whatever it stood for before.
    pub fn insert(&mut self, path: &'a [u8], index: usize)
        ensures
            final(self)@ == old(self)@.insert(path@, index),
    {
        let ghost before = entry_views(self.entries@);
        self.entries.push((path, index));
        proof {
            let after = entry_views(self.entries@);
            assert(after.drop_last() =~= before);
            assert(after.last() == (path@, index));
        }
    }

    /// The index that `path` stands for, if it stands for one.
    pub fn get(&self, path: &[u8]) -> (index: Option<usize>)
        ensures
            index == (if self@.contains_key(path@) {
                Some(self@[path@])
            } else {
                None
            }),
    {
        let ghost entries = entry_views(self.entries@);
        let mut i: usize = self.entries.len();
        while i > 0
            invariant
                i <= self.entries@.len(),
                entries == entry_views(self.entries@),
                forall|k: int| i <= k < entries.len() ==> (#[trigger] entries[k]).0 != path@,
            decreases i,
        {
            i -= 1;
            let entry = &self.entries[i];
            if bytes_eq(entry.0, path) {
                proof {
                    assert(entries[i as int] == (path@, entry.1));
                    lemma_map_of_last(entries, i as int);
                }
                return Some(entry.1);
            }
        }
        proof {
            lemma_map_of_none(entries, path@);
        }
        None
    }
}

/// The streams of a container as they lie in memory, and the index from
/// paths to positions.
#[derive(Debug)]
pub struct Fs<'a> {
    path_array: &'a [u8],
    path_map: PathMap<'a>,
    start_and_end: &'a [u64],
    files: &'a [u8],
}

impl<'a> Fs<'a> {
    /// The serialized path table.
    pub closed spec fn path_array(&self) -> Seq<u8> {
        self.path_array@
    }

    /// The index from paths to positions.
    pub closed spec fn path_map(&self) -> Map<Seq<u8>, usize> {
        self.path_map@
    }

    /// The offset table.
    pub closed spec fn start_and_end(&self) -> Seq<u64> {
        self.start_and_end@
    }

    /// The content blob.
    pub closed spec fn files(&self) -> Seq<u8> {
        self.files@
    }

    /// The bytes that are stored for `index`.
    pub open spec fn at(&self, index: int) -> Option<Seq<u8>> {
        stored(self.start_and_end(), self.files(), index)
    }

    /// The bytes that are stored under exactly `path`.
    pub open spec fn found(&self, path: Seq<u8>) -> Option<Seq<u8>> {
        if self.path_map().contains_key(path) {
            self.at(self.path_map()[path] as int)
        } else {
            None
        }
    }

    /// The bytes that are stored under what `path` is normalized to.
    pub open spec fn resolved(&self, path: Seq<u8>) -> Option<Seq<u8>> {
        self.found(normalized(path))
    }

    /// The position of the injected startup script: that of the last stored
    /// file.
    pub open spec fn patch_index(&self) -> int {
        self.start_and_end().len() - 2
    }

    /// Puts the streams and an index together as they are.
    pub fn from(
        path_array: &'a [u8],
        path_map: PathMap<'a>,
        start_and_end: &'a [u64],
        files: &'a [u8],
    ) -> (fs: Self)
        ensures
            fs.path_array() == path_array@,
            fs.path_map() == path_map@,
            fs.start_and_end() == start_and_end@,
            fs.files() == files@,
    {
        Self { path_array, path_map, start_and_end, files }
    }

    /// The file that is stored under exactly `path`, if there is one.
    pub fn get_file(&self, path: &[u8]) -> (file: Option<&'a [u8]>)
        ensures
            bytes_of(file) == self.found(path@),
    {
        if let Some(index) = self.path_map.get(path) {
            self.get_file_with_index(index)
        } else {
            None
        }
    }

    /// The file with the given position, if there is one.
    pub fn get_file_with_index(&self, index: usize) -> (file: Option<&'a [u8]>)
        ensures
            bytes_of(file) == self.at(index as int),
    {
        let n = self.start_and_end.len();
        if n < 2 || index > n - 2 {
            return None;
        }
        let start: u64 = self.start_and_end[index];
        let end: u64 = self.start_and_end[index + 1];
        if start > end || end > self.files.len() as u64 {
            return None;
        }
        let from: usize = start as usize;
        let to: usize = end as usize;
        if !is_c_str(slice_subrange(self.files, from, to)) {
            return None;
        }
        Some(slice_subrange(self.files, from, to - 1))
    }

    /// The number of entries of the path table.
    pub fn path_count(&self) -> (count: usize)
        ensures
            count == split(self.path_array(), COMMA).len(),
            count >= 1,
    {
        let pieces = split_bytes(self.path_array, COMMA);
        proof {
            lemma_split_len(self.path_array@, COMMA);
            assert(slice_views(pieces@).len() == pieces@.len());
        }
        pieces.len()
    }

    /// The entry of the path table with the given position, as it is stored:
    /// with the `NUL` that ends it.
    pub fn get_file_name_with_index(&self, index: usize) -> (name: &'a [u8])
        requires
            index < split(self.path_array(), COMMA).len(),
        ensures
            name@ == split(self.path_array(), COMMA)[index as int],
    {
        let pieces = split_bytes(self.path_array, COMMA);
        proof {
            assert(slice_views(pieces@).len() == pieces@.len());
            assert(slice_views(pieces@)[index as int] == pieces@[index as int]@);
        }
        pieces[index]
    }

    /// The file that is stored under what `path` is normalized to, if there
    /// is one.
    pub fn resolve(&self, path: &[u8]) -> (file: Option<&'a [u8]>)
        ensures
            bytes_of(file) == self.resolved(path@),
    {
        let norm_path = normalize_path(path);
        self.get_file(norm_path.as_slice())
    }
}

/// Takes up the streams of a container: cuts the path table at `,` and lets
/// every path stand for the position of its entry.
///
/// Every entry has to be a string that ends with its only `NUL`; the first
/// that is not is reported.
pub fn set_fs<'a>(path_array: &'a [u8], start_and_end: &'a [u64], files: &'a [u8]) -> (loaded:
    Result<Fs<'a>, FsError>)
    ensures
        match loaded {
            Ok(fs) => {
                &&& all_c_strings(split(path_array@, COMMA))
                &&& fs.path_array() == path_array@
                &&& fs.path_map() == path_index(path_array@)
                &&& fs.start_and_end() == start_and_end@
                &&& fs.files() == files@
            },
            Err(FsError::MalformedPath(i)) => {
                &&& i < split(path_array@, COMMA).len()
                &&& !is_c_string(split(path_array@, COMMA)[i as int])
                &&& forall|k: int|
                    0 <= k < i ==> is_c_string(#[trigger] split(path_array@, COMMA)[k])
            },
        },
{
    let pieces = split_bytes(path_array, COMMA);
    let ghost all = split(path_array@, COMMA);
    let mut path_map = PathMap::new();
    let mut i: usize = 0;
    proof {
        assert(slice_views(pieces@).len() == pieces@.len());
        assert(indexed(all).take(0) =~= Seq::<(Seq<u8>, usize)>::empty());
    }
    while i < pieces.len()
        invariant
            i <= pieces@.len(),
            all == split(path_array@, COMMA),
            all == slice_views(pieces@),
            all.len() == pieces@.len(),
            forall|k: int| 0 <= k < i ==> is_c_string(#[trigger] all[k]),
            path_map@ == map_of(indexed(all).take(i as int)),
        decreases pieces@.len() - i,
    {
        let bytes: &'a [u8] = pieces[i];
        assert(all[i as int] == bytes@);
        if !is_c_str(bytes) {
            return Err(FsError::MalformedPath(i));
        }
        proof {
            assert(bytes@.subrange(0, bytes@.len() - 1) =~= bytes@.drop_last());
            assert(indexed(all).take(i + 1).drop_last() =~= indexed(all).take(i as int));
            assert(indexed(all).take(i + 1).last() == (bytes@.drop_last(), i));
        }
        path_map.insert(slice_subrange(bytes, 0, bytes.len() - 1), i);
        i += 1;
    }
    proof {
        assert(indexed(all).take(i as int) =~= indexed(all));
    }
    Ok(Fs::from(path_array, path_map, start_and_end, files))
}

/// The source of the injected startup script: the last stored file.
pub fn get_patch_require<'a>(fs: &Fs<'a>) -> (script: Option<&'a [u8]>)
    ensures
        bytes_of(script) == (if fs.patch_index() >= 0 {
            fs.at(fs.patch_index())
        } else {
            None
        }),
{
    let n = fs.start_and_end.len();
    if n < 2 {
        None
    } else {
        fs.get_file_with_index(n - 2)
    }
}

/// The name of the entry-point script: the first entry of the path table, as
/// it is stored.
pub fn get_start_file_name<'a>(fs: &Fs<'a>) -> (name: &'a [u8])
    ensures
        name@ == split(fs.path_array(), COMMA)[ENTRY_INDEX as int],
{
    proof {
        lemma_split_len(fs.path_array(), COMMA);
    }
    fs.get_file_name_with_index(ENTRY_INDEX)
}

/// The source of the entry-point script: the first stored file.
pub fn get_start_file_script<'a>(fs: &Fs<'a>) -> (script: Option<&'a [u8]>)
    ensures
        bytes_of(script) == fs.at(ENTRY_INDEX as int),
{
    fs.get_file_with_index(ENTRY_INDEX)
}

/// The directories of the load-path string.
pub fn get_load_paths<'a>(load_paths: &'a [u8]) -> (paths: Vec<&'a [u8]>)
    ensures
        slice_views(paths@) == split(load_paths@, COMMA),
{
    split_bytes(load_paths, COMMA)
}

} // verus!
