//! What the codec writes, the resolver reads: the laws that tie the two
//! sides of the binary layout together.

use vstd::prelude::*;
use crate::bytes::{free_of, lemma_split_join, split};
use crate::codec::{
    content_blob, content_offsets, load_path_string, path_table, terminated, COMMA, NUL,
};
use crate::container::{lemma_blob_concat, Container};
use crate::fs::{
    all_c_strings, indexed, is_c_string, lemma_map_of_last, path_index, stored, Fs,
};
use crate::path::{lemma_normalize_idempotent, normalized};

verus! {

/// The part of the content blob between two neighbours of the offset table
/// is the file with the index of the first, followed by one `NUL`.
///
/// So a file without a `NUL` of its own is read back as it was registered,
/// and a file that holds one is not read back at all.
pub proof fn lemma_stored_registered(contents: Seq<Seq<u8>>, i: int)
    requires
        0 <= i < contents.len(),
        content_blob(contents).len() <= u64::MAX,
    ensures
        content_offsets(contents)[i] <= content_offsets(contents)[i + 1] <= content_blob(
            contents,
        ).len(),
        content_offsets(contents)[i + 1] - content_offsets(contents)[i] == contents[i].len() + 1,
        content_blob(contents).subrange(
            content_offsets(contents)[i] as int,
            content_offsets(contents)[i + 1] as int,
        ) == contents[i].push(NUL),
        !contents[i].contains(NUL) ==> stored(
            content_offsets(contents),
            content_blob(contents),
            i,
        ) == Some(contents[i]),
        contents[i].contains(NUL) ==> stored(content_offsets(contents), content_blob(contents), i)
            is None,
{
    let blob = content_blob(contents);
    let upto = contents.take(i + 1);
    let rest = contents.skip(i + 1);
    assert(contents =~= upto + rest);
    lemma_blob_concat(upto, rest);
    assert(upto.drop_last() =~= contents.take(i));
    assert(upto.last() == contents[i]);
    let start = content_blob(contents.take(i)).len();
    let end = content_blob(upto).len();
    assert(end == start + contents[i].len() + 1);
    assert(end <= blob.len());
    assert(content_offsets(contents)[i] == start);
    assert(content_offsets(contents)[i + 1] == end);
    let part = blob.subrange(start as int, end as int);
    assert(part =~= contents[i].push(NUL));
    assert(part.drop_last() =~= contents[i]);
    assert(blob.subrange(start as int, end - 1) =~= contents[i]);
}

/// Cutting the serialized path table at `,` gives one piece for every path,
/// in order: the path followed by one `NUL`. This holds of at least one path
/// and of paths without a `,`.
pub proof fn lemma_path_table_split(paths: Seq<Seq<u8>>)
    requires
        paths.len() >= 1,
        free_of(paths, COMMA),
    ensures
        split(path_table(paths), COMMA) == terminated(paths),
        split(path_table(paths), COMMA).len() == paths.len(),
        free_of(paths, NUL) ==> all_c_strings(split(path_table(paths), COMMA)),
{
    let items = terminated(paths);
    assert forall|i: int| 0 <= i < items.len() implies !(#[trigger] items[i]).contains(COMMA) by {
        assert(!paths[i].contains(COMMA));
        if items[i].contains(COMMA) {
            let k = choose|k: int| 0 <= k < items[i].len() && items[i][k] == COMMA;
            assert(paths[i][k] == COMMA);
        }
    }
    lemma_split_join(items, COMMA);
    if free_of(paths, NUL) {
        assert forall|i: int| 0 <= i < items.len() implies is_c_string(#[trigger] items[i]) by {
            assert(!paths[i].contains(NUL));
            assert(items[i].drop_last() =~= paths[i]);
        }
    }
}

/// The path table of no paths is empty; cut at `,` it gives one piece, which
/// is no string that ends with a `NUL`.
pub proof fn lemma_path_table_empty()
    ensures
        path_table(Seq::<Seq<u8>>::empty()) == Seq::<u8>::empty(),
        split(path_table(Seq::<Seq<u8>>::empty()), COMMA) == seq![Seq::<u8>::empty()],
        !is_c_string(Seq::<u8>::empty()),
{
    assert(terminated(Seq::<Seq<u8>>::empty()) =~= Seq::<Seq<u8>>::empty());
}

/// Cutting the load-path string at `,` gives the context directory and the
/// packed directories back, where none of them holds a `,`.
pub proof fn lemma_load_paths_split(context: Seq<u8>, dirs: Seq<Seq<u8>>)
    requires
        !context.contains(COMMA),
        free_of(dirs, COMMA),
    ensures
        split(load_path_string(context, dirs), COMMA) == seq![context] + dirs,
{
    let all = seq![context] + dirs;
    assert forall|i: int| 0 <= i < all.len() implies !(#[trigger] all[i]).contains(COMMA) by {
        if i > 0 {
            assert(all[i] == dirs[i - 1]);
        }
    }
    lemma_split_join(all, COMMA);
}

/// The offset table never decreases.
pub proof fn lemma_offsets_monotone(contents: Seq<Seq<u8>>, i: int, j: int)
    requires
        0 <= i <= j <= contents.len(),
        content_blob(contents).len() <= u64::MAX,
    ensures
        content_offsets(contents)[i] <= content_offsets(contents)[j] <= content_blob(
            contents,
        ).len(),
    decreases j - i,
{
    assert(contents.take(contents.len() as int) =~= contents);
    if j < contents.len() {
        lemma_stored_registered(contents, j);
    }
    if i < j {
        lemma_stored_registered(contents, j - 1);
        lemma_offsets_monotone(contents, i, j - 1);
    }
}

/// A registered file is found again under its path, and is resolved from
/// every path that is normalized to its path.
///
/// This holds of paths without `,` and `NUL`, for a file without `NUL` whose
/// path no later entry of the path table repeats.
pub proof fn lemma_registered_is_found(
    fs: Fs,
    paths: Seq<Seq<u8>>,
    contents: Seq<Seq<u8>>,
    i: int,
    query: Seq<u8>,
)
    requires
        fs.path_map() == path_index(path_table(paths)),
        fs.start_and_end() == content_offsets(contents),
        fs.files() == content_blob(contents),
        content_blob(contents).len() <= u64::MAX,
        paths.len() <= usize::MAX,
        0 <= i < contents.len() <= paths.len(),
        free_of(paths, COMMA),
        free_of(paths, NUL),
        forall|k: int| i < k < paths.len() ==> #[trigger] paths[k] != paths[i],
        !contents[i].contains(NUL),
        normalized(query) == paths[i],
    ensures
        fs.at(i) == Some(contents[i]),
        fs.found(paths[i]) == Some(contents[i]),
        fs.resolved(query) == Some(contents[i]),
{
    lemma_stored_registered(contents, i);
    lemma_path_table_split(paths);
    let entries = indexed(terminated(paths));
    assert forall|k: int| 0 <= k < entries.len() implies (#[trigger] entries[k]).0 == paths[k] by {
        assert(terminated(paths)[k].drop_last() =~= paths[k]);
    }
    assert(entries[i] == (paths[i], i as usize));
    lemma_map_of_last(entries, i);
}

/// Every file of a container lies in the blob between its two offsets,
/// followed by one `NUL`, whatever was registered; and a file without a `NUL`
/// of its own is read back from the streams as it was registered.
pub proof fn lemma_container_files(c: Container, i: int)
    requires
        c.wf(),
        0 <= i < c.contents().len(),
    ensures
        c.offsets()[i] <= c.offsets()[i + 1] <= c.blob().len(),
        c.offsets()[i + 1] - c.offsets()[i] == c.contents()[i].len() + 1,
        c.blob().subrange(c.offsets()[i] as int, c.offsets()[i + 1] as int) == c.contents()[i].push(
            NUL,
        ),
        !c.contents()[i].contains(NUL) ==> stored(c.offsets(), c.blob(), i) == Some(
            c.contents()[i],
        ),
{
    c.lemma_streams();
    lemma_stored_registered(c.contents(), i);
}

/// What a container holds is what a resolver over its streams gives back:
/// file `i` by its index, and from every path that is normalized to the path
/// it was registered under.
///
/// This holds of paths without `,` and `NUL`, for a file without `NUL` whose
/// path no later entry of the path table repeats.
pub proof fn lemma_container_resolves(c: Container, fs: Fs, i: int, query: Seq<u8>)
    requires
        c.wf(),
        fs.path_map() == path_index(path_table(c.paths() + c.assets())),
        fs.start_and_end() == c.offsets(),
        fs.files() == c.blob(),
        (c.paths() + c.assets()).len() <= usize::MAX,
        0 <= i < c.contents().len(),
        free_of(c.paths() + c.assets(), COMMA),
        free_of(c.paths() + c.assets(), NUL),
        forall|k: int|
            i < k < (c.paths() + c.assets()).len() ==> #[trigger] (c.paths() + c.assets())[k]
                != c.paths()[i],
        !c.contents()[i].contains(NUL),
        normalized(query) == c.paths()[i],
    ensures
        fs.at(i) == Some(c.contents()[i]),
        fs.resolved(query) == Some(c.contents()[i]),
{
    c.lemma_streams();
    let all = c.paths() + c.assets();
    assert(all[i] == c.paths()[i]);
    lemma_registered_is_found(fs, all, c.contents(), i, query);
}

/// Resolving is idempotent: a path and what it is normalized to resolve to
/// the same file.
pub proof fn lemma_resolve_idempotent(fs: Fs, path: Seq<u8>)
    ensures
        fs.resolved(normalized(path)) == fs.resolved(path),
{
    lemma_normalize_idempotent(path);
}

} // verus!
