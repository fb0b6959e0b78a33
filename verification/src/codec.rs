//! The binary layout of a container: how an ordered list of files becomes the
//! path table, the offset table and the content blob.
//!
//! Entry `i` of a container is a path and the bytes of a file. The content
//! blob holds every file's bytes followed by one `NUL`, in registration order;
//! the offset table holds, for every prefix of the entries, the length of its
//! part of the blob; the path table holds every path followed by one `NUL`,
//! the paths separated by `,`.

use vstd::prelude::*;
use vstd::bytes::{lemma_auto_spec_u64_to_from_le_bytes, spec_u64_to_le_bytes, u64_to_le_bytes};
use vstd::slice::slice_to_vec;
use vstd::string::StringSliceAdditionalSpecFns;
use crate::bytes::{join, join_bytes, vec_views};

verus! {

/// The byte that ends every stored file and every stored path.
pub const NUL: u8 = 0;

/// The byte that separates the entries of the path table and of the
/// load-path string.
pub const COMMA: u8 = 0x2c;

/// The index of the entry-point script among the registered files.
pub const ENTRY_INDEX: usize = 0;

/// The virtual path under which the injected startup script is stored.
pub const PATCH_PATH: &'static str = "/root/kompo_patch.rb";

/// The bytes of `PATCH_PATH`.
pub open spec fn patch_path() -> Seq<u8> {
    PATCH_PATH.spec_bytes()
}

/// Every item followed by one `NUL`.
pub open spec fn terminated(items: Seq<Seq<u8>>) -> Seq<Seq<u8>> {
    Seq::new(items.len(), |i: int| items[i].push(NUL))
}

/// The serialized path table of `paths`.
pub open spec fn path_table(paths: Seq<Seq<u8>>) -> Seq<u8> {
    join(terminated(paths), COMMA)
}

/// The content blob of `contents`: each file's bytes and one `NUL`, one file
/// after the other.
pub open spec fn content_blob(contents: Seq<Seq<u8>>) -> Seq<u8>
    decreases contents.len(),
{
    if contents.len() == 0 {
        Seq::<u8>::empty()
    } else {
        content_blob(contents.drop_last()) + contents.last().push(NUL)
    }
}

/// The offset table of `contents`: entry `i` is the length of the blob of
/// the first `i` files, so that file `i` lies between entries `i` and `i + 1`.
pub open spec fn content_offsets(contents: Seq<Seq<u8>>) -> Seq<u64> {
    Seq::new(contents.len() + 1, |i: int| content_blob(contents.take(i)).len() as u64)
}

/// The serialized offset table: every offset as eight little-endian bytes.
pub open spec fn offset_table(offsets: Seq<u64>) -> Seq<u8>
    decreases offsets.len(),
{
    if offsets.len() == 0 {
        Seq::<u8>::empty()
    } else {
        offset_table(offsets.drop_last()) + spec_u64_to_le_bytes(offsets.last())
    }
}

/// The load-path string: the context directory and then the packed
/// directories, separated by `,`.
pub open spec fn load_path_string(context: Seq<u8>, dirs: Seq<Seq<u8>>) -> Seq<u8> {
    join(seq![context] + dirs, COMMA)
}

/// The serialized offset table takes eight bytes for every offset.
pub proof fn lemma_offset_table_len(offsets: Seq<u64>)
    ensures
        offset_table(offsets).len() == 8 * offsets.len(),
    decreases offsets.len(),
{
    if offsets.len() > 0 {
        lemma_offset_table_len(offsets.drop_last());
        lemma_auto_spec_u64_to_from_le_bytes();
    }
}

/// The offset that follows `last` once a file of `len` bytes was appended.
pub open spec fn next_offset(last: u64, len: nat) -> int {
    last + len + 1
}

/// The next offset can be written down: it fits in 64 bits, or the offset
/// table ends where the blob ends, so that the next offset is the length of
/// the blob after the file was appended.
pub open spec fn can_append(scripts: Seq<u8>, starts_and_ends: Seq<u64>, len: nat) -> bool {
    &&& starts_and_ends.len() > 0
    &&& (next_offset(starts_and_ends.last(), len) <= u64::MAX || starts_and_ends.last()
        == scripts.len())
}

/// Appends one file to the content blob and records where it ends.
///
/// The blob receives the file's bytes followed by one `NUL`; the offset table
/// receives its last entry plus the number of bytes that were appended. The
/// bytes are moved out of `bytes`, which is left empty.
///
/// The offset table grows by one entry and keeps the entries it had. Where
/// it ended at the end of the blob, it does so again, and the part of the
/// blob between its last two entries is the file followed by one `NUL`.
pub fn register_bytes(scripts: &mut Vec<u8>, starts_and_ends: &mut Vec<u64>, bytes: &mut Vec<u8>)
    requires
        can_append(old(scripts)@, old(starts_and_ends)@, old(bytes)@.len()),
    ensures
        final(scripts)@ == old(scripts)@ + old(bytes)@.push(NUL),
        final(starts_and_ends)@ == old(starts_and_ends)@.push(
            next_offset(old(starts_and_ends)@.last(), old(bytes)@.len()) as u64,
        ),
        next_offset(old(starts_and_ends)@.last(), old(bytes)@.len()) <= u64::MAX,
        final(bytes)@ == Seq::<u8>::empty(),
        final(starts_and_ends)@.len() == old(starts_and_ends)@.len() + 1,
        final(starts_and_ends)@[0] == old(starts_and_ends)@[0],
        old(starts_and_ends)@.last() == old(scripts)@.len() ==> {
            &&& final(starts_and_ends)@.last() == final(scripts)@.len()
            &&& final(scripts)@.subrange(
                old(starts_and_ends)@.last() as int,
                final(starts_and_ends)@.last() as int,
            ) == old(bytes)@.push(NUL)
        },
{
    let last: u64 = starts_and_ends[starts_and_ends.len() - 1];
    let added: u64 = bytes.len() as u64;
    let ghost file = bytes@;
    let ghost blob = scripts@;
    scripts.append(bytes);
    scripts.push(NUL);
    proof {
        assert(scripts@ =~= blob + file.push(NUL));
        assert(scripts@.len() == blob.len() + file.len() + 1);
        assert(scripts@.len() == scripts.len());
    }
    starts_and_ends.push(last + added + 1);
    proof {
        if last == blob.len() {
            assert(scripts@.subrange(last as int, scripts@.len() as int) =~= file.push(NUL));
        }
    }
}

/// Registers a file that was read into `buf`: records its path and appends
/// its bytes as `register_bytes` does.
///
/// The list of paths and the offset table grow by one entry each, so that
/// an offset table with one entry more than there are paths stays one.
pub fn register_file(
    scripts: &mut Vec<u8>,
    starts_and_ends: &mut Vec<u64>,
    paths: &mut Vec<Vec<u8>>,
    path: &[u8],
    buf: &mut Vec<u8>,
)
    requires
        can_append(old(scripts)@, old(starts_and_ends)@, old(buf)@.len()),
    ensures
        vec_views(final(paths)@) == vec_views(old(paths)@).push(path@),
        final(scripts)@ == old(scripts)@ + old(buf)@.push(NUL),
        final(starts_and_ends)@ == old(starts_and_ends)@.push(
            next_offset(old(starts_and_ends)@.last(), old(buf)@.len()) as u64,
        ),
        next_offset(old(starts_and_ends)@.last(), old(buf)@.len()) <= u64::MAX,
        final(buf)@ == Seq::<u8>::empty(),
        final(paths)@.len() == old(paths)@.len() + 1,
        final(starts_and_ends)@.len() == old(starts_and_ends)@.len() + 1,
        final(starts_and_ends)@[0] == old(starts_and_ends)@[0],
        old(starts_and_ends)@.last() == old(scripts)@.len() ==> {
            &&& final(starts_and_ends)@.last() == final(scripts)@.len()
            &&& final(scripts)@.subrange(
                old(starts_and_ends)@.last() as int,
                final(starts_and_ends)@.last() as int,
            ) == old(buf)@.push(NUL)
        },
{
    let ghost before = vec_views(paths@);
    paths.push(slice_to_vec(path));
    assert(vec_views(paths@) =~= before.push(path@));
    register_bytes(scripts, starts_and_ends, buf);
}

/// Serializes the path table: every path followed by one `NUL`, the entries
/// separated by `,`.
pub fn encode_paths(paths: &Vec<Vec<u8>>) -> (table: Vec<u8>)
    ensures
        table@ == path_table(vec_views(paths@)),
{
    let mut items: Vec<Vec<u8>> = Vec::new();
    let mut i: usize = 0;
    while i < paths.len()
        invariant
            i <= paths@.len(),
            vec_views(items@) == terminated(vec_views(paths@).take(i as int)),
        decreases paths@.len() - i,
    {
        let ghost before = vec_views(items@);
        let mut item = slice_to_vec(paths[i].as_slice());
        item.push(NUL);
        items.push(item);
        assert(vec_views(items@) =~= before.push(paths@[i as int]@.push(NUL)));
        assert(terminated(vec_views(paths@).take(i + 1)) =~= terminated(
            vec_views(paths@).take(i as int),
        ).push(paths@[i as int]@.push(NUL)));
        i += 1;
    }
    assert(vec_views(paths@).take(i as int) =~= vec_views(paths@));
    join_bytes(&items, COMMA)
}

/// Serializes the offset table: every offset as eight little-endian bytes.
pub fn encode_offsets(starts_and_ends: &Vec<u64>) -> (table: Vec<u8>)
    ensures
        table@ == offset_table(starts_and_ends@),
        table@.len() == 8 * starts_and_ends@.len(),
{
    let mut table: Vec<u8> = Vec::new();
    let mut i: usize = 0;
    assert(starts_and_ends@.take(0) =~= Seq::<u64>::empty());
    while i < starts_and_ends.len()
        invariant
            i <= starts_and_ends@.len(),
            table@ == offset_table(starts_and_ends@.take(i as int)),
            table@.len() == 8 * i,
        decreases starts_and_ends@.len() - i,
    {
        let mut word = u64_to_le_bytes(starts_and_ends[i]);
        proof {
            assert(starts_and_ends@.take(i + 1).drop_last() =~= starts_and_ends@.take(i as int));
            assert(starts_and_ends@.take(i + 1).last() == starts_and_ends@[i as int]);
        }
        table.append(&mut word);
        i += 1;
    }
    assert(starts_and_ends@.take(i as int) =~= starts_and_ends@);
    table
}

/// Serializes the load-path string: the context directory and then the
/// packed directories, separated by `,`.
pub fn encode_load_paths(context: &[u8], dirs: &Vec<Vec<u8>>) -> (joined: Vec<u8>)
    ensures
        joined@ == load_path_string(context@, vec_views(dirs@)),
{
    let mut all: Vec<Vec<u8>> = Vec::new();
    all.push(slice_to_vec(context));
    let mut i: usize = 0;
    assert(vec_views(all@) =~= seq![context@] + vec_views(dirs@).take(0));
    while i < dirs.len()
        invariant
            i <= dirs@.len(),
            vec_views(all@) == seq![context@] + vec_views(dirs@).take(i as int),
        decreases dirs@.len() - i,
    {
        let ghost before = vec_views(all@);
        all.push(slice_to_vec(dirs[i].as_slice()));
        assert(vec_views(all@) =~= before.push(dirs@[i as int]@));
        assert(before.push(dirs@[i as int]@) =~= seq![context@] + vec_views(dirs@).take(i + 1));
        i += 1;
    }
    assert(vec_views(dirs@).take(i as int) =~= vec_views(dirs@));
    join_bytes(&all, COMMA)
}

} // verus!
