//! A container under construction: the registered files, in order, together
//! with the streams that encode them.

use vstd::prelude::*;
use vstd::slice::slice_to_vec;
use crate::bytes::vec_views;
use crate::codec::{
    content_blob, content_offsets, encode_offsets, encode_paths, offset_table, patch_path,
    path_table, register_file, PATCH_PATH,
};
use crate::path::{normalize_path, normalized};

verus! {

/// A file to pack: the path under which it will be found, and what was read
/// of it.
#[derive(Debug)]
pub struct SourceFile {
    pub path: Vec<u8>,
    /// The bytes of the file, or `None` where it could not be read.
    pub bytes: Option<Vec<u8>>,
}

/// Why no container was built.
#[derive(Debug, PartialEq, Eq)]
pub enum PackError {
    /// The file with this path could not be read.
    NotFound(Vec<u8>),
}

/// The bytes that were read of `file`; none where it could not be read.
pub open spec fn bytes_read(file: SourceFile) -> Seq<u8> {
    match file.bytes {
        Some(bytes) => bytes@,
        None => Seq::<u8>::empty(),
    }
}

/// The paths under which `files` are recorded, in order: their paths,
/// normalized.
pub open spec fn file_paths(files: Seq<SourceFile>) -> Seq<Seq<u8>> {
    Seq::new(files.len(), |i: int| normalized(files[i].path@))
}

/// The contents of `files`, in order.
pub open spec fn file_bytes(files: Seq<SourceFile>) -> Seq<Seq<u8>> {
    Seq::new(files.len(), |i: int| bytes_read(files[i]))
}

/// Every one of `files` was read.
pub open spec fn all_read(files: Seq<SourceFile>) -> bool {
    forall|i: int| 0 <= i < files.len() ==> (#[trigger] files[i]).bytes is Some
}

/// File `i` is the first of `files` that could not be read.
pub open spec fn first_unread(files: Seq<SourceFile>, i: int) -> bool {
    &&& 0 <= i < files.len()
    &&& files[i].bytes is None
    &&& forall|k: int| 0 <= k < i ==> (#[trigger] files[k]).bytes is Some
}

/// The files of a container and the streams that encode them.
///
/// Files are only ever appended: entry `i` keeps its index, its path and its
/// bytes for the lifetime of the container. Paths that are recorded without
/// bytes are kept apart and follow the files' paths in the path table.
pub struct Container {
    paths: Vec<Vec<u8>>,
    starts_and_ends: Vec<u64>,
    scripts: Vec<u8>,
    assets: Vec<Vec<u8>>,
    contents: Ghost<Seq<Seq<u8>>>,
}

impl Container {
    /// The paths of the registered files, in registration order.
    pub closed spec fn paths(&self) -> Seq<Seq<u8>> {
        vec_views(self.paths@)
    }

    /// The bytes of the registered files, in registration order.
    pub closed spec fn contents(&self) -> Seq<Seq<u8>> {
        self.contents@
    }

    /// The paths that were recorded without bytes, in registration order.
    pub closed spec fn assets(&self) -> Seq<Seq<u8>> {
        vec_views(self.assets@)
    }

    /// The offset table as it stands.
    pub closed spec fn offsets(&self) -> Seq<u64> {
        self.starts_and_ends@
    }

    /// The content blob as it stands.
    pub closed spec fn blob(&self) -> Seq<u8> {
        self.scripts@
    }

    /// The streams encode the registered files: one path per file, the blob
    /// and the offset table as the layout prescribes.
    pub closed spec fn wf(&self) -> bool {
        &&& self.paths@.len() == self.contents@.len()
        &&& self.scripts@ == content_blob(self.contents@)
        &&& self.starts_and_ends@ == content_offsets(self.contents@)
    }

    /// In a well-formed container the streams are those of its files, and
    /// the blob is short enough for its length to be an offset.
    pub proof fn lemma_streams(&self)
        requires
            self.wf(),
        ensures
            self.paths().len() == self.contents().len(),
            self.blob() == content_blob(self.contents()),
            self.offsets() == content_offsets(self.contents()),
            content_blob(self.contents()).len() <= u64::MAX,
    {
        assert(self.scripts@.len() == self.scripts.len());
    }

    /// The offset table has one entry more than there are files, and starts
    /// at zero, whatever was registered.
    pub proof fn lemma_offsets_shape(&self)
        requires
            self.wf(),
        ensures
            self.offsets().len() == self.contents().len() + 1,
            self.offsets()[0] == 0,
    {
        assert(self.contents@.take(0) =~= Seq::<Seq<u8>>::empty());
    }

    /// A container without files.
    pub fn new() -> (c: Container)
        ensures
            c.wf(),
            c.paths() == Seq::<Seq<u8>>::empty(),
            c.contents() == Seq::<Seq<u8>>::empty(),
            c.assets() == Seq::<Seq<u8>>::empty(),
    {
        let mut starts_and_ends: Vec<u64> = Vec::new();
        starts_and_ends.push(0);
        let c = Container {
            paths: Vec::new(),
            starts_and_ends,
            scripts: Vec::new(),
            assets: Vec::new(),
            contents: Ghost(Seq::empty()),
        };
        proof {
            assert(c.contents@.take(0) =~= Seq::<Seq<u8>>::empty());
            assert(c.starts_and_ends@ =~= content_offsets(c.contents@));
            assert(c.paths() =~= Seq::<Seq<u8>>::empty());
            assert(c.assets() =~= Seq::<Seq<u8>>::empty());
        }
        c
    }

    /// Registers a file: its path becomes the next entry of the path table,
    /// its bytes and one `NUL` are appended to the content blob, and the
    /// blob's new length is appended to the offset table.
    pub fn register(&mut self, path: &[u8], bytes: Vec<u8>)
        requires
            old(self).wf(),
        ensures
            final(self).wf(),
            final(self).paths() == old(self).paths().push(path@),
            final(self).contents() == old(self).contents().push(bytes@),
            final(self).assets() == old(self).assets(),
    {
        let ghost before = self.contents@;
        let ghost after = before.push(bytes@);
        let mut buf = bytes;
        proof {
            assert(before.take(before.len() as int) =~= before);
            assert(self.scripts@.len() == self.scripts.len());
            assert(self.starts_and_ends@.last() == self.scripts@.len());
        }
        register_file(&mut self.scripts, &mut self.starts_and_ends, &mut self.paths, path, &mut buf);
        self.contents = Ghost(after);
        proof {
            lemma_offsets_push(before, bytes@);
            assert(after.drop_last() =~= before);
            assert(vec_views(self.paths@).len() == self.paths@.len());
            assert(vec_views(old(self).paths@).len() == old(self).paths@.len());
        }
    }

    /// Registers the injected startup script under its fixed virtual path.
    pub fn register_raw(&mut self, bytes: Vec<u8>)
        requires
            old(self).wf(),
        ensures
            final(self).wf(),
            final(self).paths() == old(self).paths().push(patch_path()),
            final(self).contents() == old(self).contents().push(bytes@),
            final(self).assets() == old(self).assets(),
    {
        self.register(PATCH_PATH.as_bytes(), bytes);
    }

    /// Records a path without bytes: it is listed in the path table after
    /// the files' paths and has no part in the blob or the offset table.
    pub fn register_path_only(&mut self, path: &[u8])
        requires
            old(self).wf(),
        ensures
            final(self).wf(),
            final(self).paths() == old(self).paths(),
            final(self).contents() == old(self).contents(),
            final(self).assets() == old(self).assets().push(path@),
    {
        let ghost before = vec_views(self.assets@);
        self.assets.push(slice_to_vec(path));
        assert(vec_views(self.assets@) =~= before.push(path@));
    }

    /// The number of registered files.
    pub fn len(&self) -> (n: usize)
        requires
            self.wf(),
        ensures
            n == self.contents().len(),
    {
        self.paths.len()
    }

    /// The offset table.
    pub fn starts_and_ends(&self) -> (offsets: &Vec<u64>)
        requires
            self.wf(),
        ensures
            offsets@ == content_offsets(self.contents()),
    {
        &self.starts_and_ends
    }

    /// The content blob.
    pub fn scripts(&self) -> (blob: &Vec<u8>)
        requires
            self.wf(),
        ensures
            blob@ == content_blob(self.contents()),
    {
        &self.scripts
    }

    /// The serialized path table: the files' paths and then the paths that
    /// were recorded without bytes.
    pub fn path_table(&self) -> (table: Vec<u8>)
        ensures
            table@ == path_table(self.paths() + self.assets()),
    {
        let mut all: Vec<Vec<u8>> = Vec::new();
        let mut i: usize = 0;
        assert(vec_views(all@) =~= vec_views(self.paths@).take(0));
        while i < self.paths.len()
            invariant
                i <= self.paths@.len(),
                vec_views(all@) == vec_views(self.paths@).take(i as int),
            decreases self.paths@.len() - i,
        {
            let ghost before = vec_views(all@);
            all.push(slice_to_vec(self.paths[i].as_slice()));
            assert(vec_views(all@) =~= before.push(self.paths@[i as int]@));
            assert(before.push(self.paths@[i as int]@) =~= vec_views(self.paths@).take(i + 1));
            i += 1;
        }
        assert(vec_views(self.paths@).take(i as int) =~= vec_views(self.paths@));
        let mut k: usize = 0;
        assert(vec_views(all@) =~= self.paths() + vec_views(self.assets@).take(0));
        while k < self.assets.len()
            invariant
                k <= self.assets@.len(),
                vec_views(all@) == self.paths() + vec_views(self.assets@).take(k as int),
            decreases self.assets@.len() - k,
        {
            let ghost before = vec_views(all@);
            all.push(slice_to_vec(self.assets[k].as_slice()));
            assert(vec_views(all@) =~= before.push(self.assets@[k as int]@));
            assert(before.push(self.assets@[k as int]@) =~= self.paths() + vec_views(
                self.assets@,
            ).take(k + 1));
            k += 1;
        }
        assert(vec_views(self.assets@).take(k as int) =~= vec_views(self.assets@));
        encode_paths(&all)
    }

    /// The serialized offset table.
    pub fn offset_table(&self) -> (table: Vec<u8>)
        requires
            self.wf(),
        ensures
            table@ == offset_table(content_offsets(self.contents())),
            table@.len() == 8 * (self.contents().len() + 1),
    {
        encode_offsets(&self.starts_and_ends)
    }
}

/// The files of one packaging run, in the order in which they are
/// registered: the entry point, then the packed files.
pub open spec fn sources(entry: SourceFile, files: Seq<SourceFile>) -> Seq<SourceFile> {
    seq![entry] + files
}

/// The paths of a packed container: the entry point first, the packed files
/// in the order given, the injected startup script last. The paths of the
/// files are normalized, so that they are found again by what a path is
/// normalized to.
pub open spec fn packed_paths(entry: SourceFile, files: Seq<SourceFile>) -> Seq<Seq<u8>> {
    file_paths(sources(entry, files)).push(patch_path())
}

/// The contents of a packed container, in the order of `packed_paths`.
pub open spec fn packed_contents(
    entry: SourceFile,
    files: Seq<SourceFile>,
    patch: Seq<u8>,
) -> Seq<Seq<u8>> {
    file_bytes(sources(entry, files)).push(patch)
}

/// Builds the container of one packaging run.
///
/// The entry-point script is registered first, so that it has index
/// `ENTRY_INDEX`; then the packed files in the order given; then the injected
/// startup script, which is therefore the last file; then the paths of the
/// binary assets, which are recorded without bytes. Files are registered
/// under their normalized paths, binary assets under their paths as given.
///
/// A file that could not be read ends the run: the first such file is
/// reported and no container is built.
pub fn pack(
    entry: &SourceFile,
    files: &Vec<SourceFile>,
    patch: &[u8],
    assets: &Vec<Vec<u8>>,
) -> (packed: Result<Container, PackError>)
    ensures
        match packed {
            Ok(c) => {
                &&& all_read(sources(*entry, files@))
                &&& c.wf()
                &&& c.paths() == packed_paths(*entry, files@)
                &&& c.contents() == packed_contents(*entry, files@, patch@)
                &&& c.assets() == vec_views(assets@)
            },
            Err(PackError::NotFound(path)) => exists|i: int|
                first_unread(sources(*entry, files@), i) && path@ == (#[trigger] sources(
                    *entry,
                    files@,
                )[i]).path@,
        },
{
    let ghost all = sources(*entry, files@);
    let mut c = Container::new();
    proof {
        assert(file_bytes(all).take(0) =~= c.contents());
        assert(file_paths(all).take(0) =~= c.paths());
        assert(all[0] == *entry);
    }
    match &entry.bytes {
        Some(bytes) => {
            proof {
                lemma_next_file(all, 0);
            }
            let path = normalize_path(entry.path.as_slice());
            c.register(path.as_slice(), slice_to_vec(bytes.as_slice()));
        },
        None => {
            assert(first_unread(all, 0));
            return Err(PackError::NotFound(slice_to_vec(entry.path.as_slice())));
        },
    }
    let mut i: usize = 0;
    while i < files.len()
        invariant
            i <= files@.len(),
            all == sources(*entry, files@),
            c.wf(),
            c.contents() == file_bytes(all).take(i + 1),
            c.paths() == file_paths(all).take(i + 1),
            c.assets() == Seq::<Seq<u8>>::empty(),
            forall|k: int| 0 <= k <= i ==> (#[trigger] all[k]).bytes is Some,
        decreases files@.len() - i,
    {
        let file = &files[i];
        assert(all[i + 1] == *file);
        match &file.bytes {
            Some(bytes) => {
                proof {
                    lemma_next_file(all, i + 1);
                }
                let path = normalize_path(file.path.as_slice());
                c.register(path.as_slice(), slice_to_vec(bytes.as_slice()));
            },
            None => {
                assert(first_unread(all, i + 1));
                return Err(PackError::NotFound(slice_to_vec(file.path.as_slice())));
            },
        }
        i += 1;
    }
    proof {
        assert(file_bytes(all).take(i + 1) =~= file_bytes(all));
        assert(file_paths(all).take(i + 1) =~= file_paths(all));
    }
    c.register_raw(slice_to_vec(patch));
    let mut k: usize = 0;
    proof {
        assert(c.assets() =~= vec_views(assets@).take(0));
    }
    while k < assets.len()
        invariant
            k <= assets@.len(),
            c.wf(),
            c.contents() == packed_contents(*entry, files@, patch@),
            c.paths() == packed_paths(*entry, files@),
            c.assets() == vec_views(assets@).take(k as int),
        decreases assets@.len() - k,
    {
        proof {
            assert(vec_views(assets@).take(k as int).push(assets@[k as int]@) =~= vec_views(
                assets@,
            ).take(k + 1));
        }
        c.register_path_only(assets[k].as_slice());
        k += 1;
    }
    proof {
        assert(vec_views(assets@).take(k as int) =~= vec_views(assets@));
    }
    Ok(c)
}

/// One file more adds its path and its bytes to what was registered.
proof fn lemma_next_file(all: Seq<SourceFile>, i: int)
    requires
        0 <= i < all.len(),
    ensures
        file_bytes(all).take(i).push(bytes_read(all[i])) == file_bytes(all).take(i + 1),
        file_paths(all).take(i).push(normalized(all[i].path@)) == file_paths(all).take(i + 1),
{
    assert(file_bytes(all).take(i).push(bytes_read(all[i])) =~= file_bytes(all).take(i + 1));
    assert(file_paths(all).take(i).push(normalized(all[i].path@)) =~= file_paths(all).take(
        i + 1,
    ));
}

/// The blob of two lists of files, one after the other, is the blob of the
/// first followed by the blob of the second.
pub proof fn lemma_blob_concat(a: Seq<Seq<u8>>, b: Seq<Seq<u8>>)
    ensures
        content_blob(a + b) == content_blob(a) + content_blob(b),
    decreases b.len(),
{
    if b.len() == 0 {
        assert(a + b =~= a);
        assert(content_blob(a) + content_blob(b) =~= content_blob(a));
    } else {
        lemma_blob_concat(a, b.drop_last());
        assert((a + b).drop_last() =~= a + b.drop_last());
        assert((a + b).last() == b.last());
        assert(content_blob(a + b) =~= content_blob(a) + content_blob(b));
    }
}

/// One more file leaves the offsets of the earlier files as they are and adds
/// the new length of the blob.
pub proof fn lemma_offsets_push(contents: Seq<Seq<u8>>, bytes: Seq<u8>)
    ensures
        content_offsets(contents.push(bytes)) == content_offsets(contents).push(
            content_blob(contents.push(bytes)).len() as u64,
        ),
{
    let longer = contents.push(bytes);
    assert(longer.take(longer.len() as int) =~= longer);
    assert forall|i: int| 0 <= i <= contents.len() implies longer.take(i) == contents.take(i) by {
        assert(longer.take(i) =~= contents.take(i));
    }
    assert(content_offsets(longer) =~= content_offsets(contents).push(
        content_blob(longer).len() as u64,
    ));
}

} // verus!
