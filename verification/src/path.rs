//! Lexical normalization of paths.
//!
//! A path is cut at `/`. Empty components and `.` say nothing; `..` takes
//! the component before it away, where there is one; every other component
//! stays as it is. A leading `/`, the root marker, is kept. Nothing is looked
//! up on any file system.

use vstd::prelude::*;
use crate::bytes::{
    free_of, join, join_slices, lemma_join_split, lemma_split_concat, lemma_split_join, slice_views,
    split, split_bytes,
};

verus! {

/// The byte that separates the components of a path.
pub const SLASH: u8 = 0x2f;

/// The byte of which the components `.` and `..` are made.
pub const DOT: u8 = 0x2e;

/// The component that stands for the directory itself.
pub open spec fn cur_dir() -> Seq<u8> {
    seq![DOT]
}

/// The component that stands for the parent directory.
pub open spec fn parent_dir() -> Seq<u8> {
    seq![DOT, DOT]
}

/// A component that normalization keeps as a name: it is not empty, neither
/// `.` nor `..`, and holds no `/`.
pub open spec fn is_name(piece: Seq<u8>) -> bool {
    &&& piece.len() > 0
    &&& piece != cur_dir()
    &&& piece != parent_dir()
    &&& !piece.contains(SLASH)
}

/// Every component is a name.
pub open spec fn all_names(names: Seq<Seq<u8>>) -> bool {
    forall|i: int| 0 <= i < names.len() ==> is_name(#[trigger] names[i])
}

/// The names that are left once `piece` has followed `names`.
pub open spec fn step(names: Seq<Seq<u8>>, piece: Seq<u8>) -> Seq<Seq<u8>> {
    if piece.len() == 0 || piece == cur_dir() {
        names
    } else if piece == parent_dir() {
        if names.len() > 0 {
            names.drop_last()
        } else {
            names
        }
    } else {
        names.push(piece)
    }
}

/// The names that are left of `pieces`, taken from left to right.
pub open spec fn resolve_pieces(pieces: Seq<Seq<u8>>) -> Seq<Seq<u8>>
    decreases pieces.len(),
{
    if pieces.len() == 0 {
        Seq::<Seq<u8>>::empty()
    } else {
        step(resolve_pieces(pieces.drop_last()), pieces.last())
    }
}

/// Whether `path` starts at the root.
pub open spec fn has_root(path: Seq<u8>) -> bool {
    path.len() > 0 && path[0] == SLASH
}

/// The names of the normalized `path`.
pub open spec fn normal_names(path: Seq<u8>) -> Seq<Seq<u8>> {
    resolve_pieces(split(path, SLASH))
}

/// The normalized `path`: its root marker, if it has one, and its names with
/// one `/` between neighbours.
pub open spec fn normalized(path: Seq<u8>) -> Seq<u8> {
    if has_root(path) {
        seq![SLASH] + join(normal_names(path), SLASH)
    } else {
        join(normal_names(path), SLASH)
    }
}

/// What is left of components without `/` are names.
pub proof fn lemma_resolve_gives_names(pieces: Seq<Seq<u8>>)
    requires
        free_of(pieces, SLASH),
    ensures
        all_names(resolve_pieces(pieces)),
    decreases pieces.len(),
{
    if pieces.len() > 0 {
        let front = pieces.drop_last();
        assert forall|i: int| 0 <= i < front.len() implies !(#[trigger] front[i]).contains(
            SLASH,
        ) by {
            assert(front[i] == pieces[i]);
        }
        lemma_resolve_gives_names(front);
        assert(!pieces[pieces.len() - 1].contains(SLASH));
    }
}

/// Names that follow other components all stay.
pub proof fn lemma_resolve_names(front: Seq<Seq<u8>>, names: Seq<Seq<u8>>)
    requires
        all_names(names),
    ensures
        resolve_pieces(front + names) == resolve_pieces(front) + names,
    decreases names.len(),
{
    if names.len() == 0 {
        assert(front + names =~= front);
        assert(resolve_pieces(front) + names =~= resolve_pieces(front));
    } else {
        let fewer = names.drop_last();
        assert forall|i: int| 0 <= i < fewer.len() implies is_name(#[trigger] fewer[i]) by {
            assert(fewer[i] == names[i]);
        }
        lemma_resolve_names(front, fewer);
        assert((front + names).drop_last() =~= front + fewer);
        assert((front + names).last() == names.last());
        assert(is_name(names[names.len() - 1]));
        assert((resolve_pieces(front) + fewer).push(names.last()) =~= resolve_pieces(front)
            + names);
    }
}

/// What is joined starts with the first byte of the first piece, where that
/// piece has one.
pub proof fn lemma_join_first(pieces: Seq<Seq<u8>>, sep: u8)
    requires
        pieces.len() > 0,
        pieces[0].len() > 0,
    ensures
        join(pieces, sep).len() > 0,
        join(pieces, sep)[0] == pieces[0][0],
    decreases pieces.len(),
{
    if pieces.len() > 1 {
        lemma_join_first(pieces.drop_last(), sep);
    }
}

/// Normalizing is a fixed point: what is normalized stays as it is when it
/// is normalized again. The root marker is there afterwards exactly if it was
/// there before.
pub proof fn lemma_normalize_idempotent(path: Seq<u8>)
    ensures
        normalized(normalized(path)) == normalized(path),
        has_root(normalized(path)) == has_root(path),
{
    let names = normal_names(path);
    let body = join(names, SLASH);
    lemma_join_split(path, SLASH);
    lemma_resolve_gives_names(split(path, SLASH));
    let nothing = Seq::<Seq<u8>>::empty();
    let blank = seq![Seq::<u8>::empty()];
    assert(resolve_pieces(nothing) == nothing);
    assert(blank.drop_last() =~= nothing);
    assert(resolve_pieces(blank) == nothing);
    assert(split(Seq::<u8>::empty(), SLASH) == blank);
    if names.len() > 0 {
        assert(is_name(names[0]));
        lemma_join_first(names, SLASH);
        assert(names[0].contains(names[0][0]));
        assert(body[0] != SLASH);
        assert forall|i: int| 0 <= i < names.len() implies !(#[trigger] names[i]).contains(
            SLASH,
        ) by {
            assert(is_name(names[i]));
        }
        lemma_split_join(names, SLASH);
    } else {
        assert(body =~= Seq::<u8>::empty());
    }
    if has_root(path) {
        let whole = seq![SLASH] + body;
        assert(whole[0] == SLASH);
        assert(whole =~= Seq::<u8>::empty().push(SLASH) + body);
        lemma_split_concat(Seq::<u8>::empty(), body, SLASH);
        if names.len() > 0 {
            lemma_resolve_names(blank, names);
            assert(nothing + names =~= names);
        } else {
            assert((blank + blank).drop_last() =~= blank);
        }
    } else {
        if names.len() > 0 {
            lemma_resolve_names(nothing, names);
            assert(nothing + names =~= names);
        }
    }
}

/// Normalizes `path` lexically.
pub fn normalize_path(path: &[u8]) -> (norm_path: Vec<u8>)
    ensures
        norm_path@ == normalized(path@),
{
    let pieces = split_bytes(path, SLASH);
    let mut names: Vec<&[u8]> = Vec::new();
    let mut i: usize = 0;
    assert(slice_views(pieces@).take(0) =~= Seq::<Seq<u8>>::empty());
    assert(slice_views(names@) =~= Seq::<Seq<u8>>::empty());
    while i < pieces.len()
        invariant
            i <= pieces@.len(),
            slice_views(names@) == resolve_pieces(slice_views(pieces@).take(i as int)),
        decreases pieces@.len() - i,
    {
        let piece: &[u8] = pieces[i];
        let ghost before = slice_views(names@);
        proof {
            let all = slice_views(pieces@);
            assert(all.take(i + 1).drop_last() =~= all.take(i as int));
            assert(all.take(i + 1).last() == piece@);
        }
        if piece.len() == 0 || (piece.len() == 1 && piece[0] == DOT) {
            proof {
                if piece@.len() == 1 {
                    assert(piece@ =~= cur_dir());
                }
            }
        } else if piece.len() == 2 && piece[0] == DOT && piece[1] == DOT {
            proof {
                assert(piece@ =~= parent_dir());
            }
            if names.len() > 0 {
                names.pop();
                proof {
                    assert(slice_views(names@) =~= before.drop_last());
                }
            }
        } else {
            proof {
                if piece@ == cur_dir() {
                    assert(cur_dir().len() == 1 && cur_dir()[0] == DOT);
                }
                if piece@ == parent_dir() {
                    assert(parent_dir().len() == 2 && parent_dir()[0] == DOT && parent_dir()[1]
                        == DOT);
                }
            }
            names.push(piece);
            proof {
                assert(slice_views(names@) =~= before.push(piece@));
            }
        }
        i += 1;
    }
    proof {
        assert(slice_views(pieces@).take(i as int) =~= slice_views(pieces@));
    }
    let mut body = join_slices(&names, SLASH);
    if path.len() > 0 && path[0] == SLASH {
        let mut norm_path: Vec<u8> = Vec::new();
        norm_path.push(SLASH);
        norm_path.append(&mut body);
        proof {
            assert(norm_path@ =~= seq![SLASH] + join(normal_names(path@), SLASH));
        }
        norm_path
    } else {
        body
    }
}

} // verus!
