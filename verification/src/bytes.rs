//! Byte strings cut at a separator byte and put together again.
//!
//! The path table, the load-path string and lexical path normalization all
//! rest on the same two operations, `split` and `join`, which are inverse to
//! each other on pieces that do not hold the separator.

use vstd::prelude::*;
use vstd::slice::slice_subrange;

verus! {

/// The pieces of `s` between the occurrences of `sep`, in order: one piece
/// more than `s` holds separators, so at least one.
pub open spec fn split(s: Seq<u8>, sep: u8) -> Seq<Seq<u8>>
    decreases s.len(),
{
    if s.len() == 0 {
        seq![Seq::<u8>::empty()]
    } else {
        let before = split(s.drop_last(), sep);
        if s.last() == sep {
            before.push(Seq::<u8>::empty())
        } else {
            before.update(before.len() - 1, before.last().push(s.last()))
        }
    }
}

/// The pieces written one after the other with one `sep` between neighbours.
pub open spec fn join(pieces: Seq<Seq<u8>>, sep: u8) -> Seq<u8>
    decreases pieces.len(),
{
    if pieces.len() == 0 {
        Seq::<u8>::empty()
    } else if pieces.len() == 1 {
        pieces[0]
    } else {
        join(pieces.drop_last(), sep).push(sep) + pieces.last()
    }
}

/// No piece holds the byte `sep`.
pub open spec fn free_of(pieces: Seq<Seq<u8>>, sep: u8) -> bool {
    forall|i: int| 0 <= i < pieces.len() ==> !(#[trigger] pieces[i]).contains(sep)
}

/// What a vector of borrowed byte strings holds.
pub open spec fn slice_views(v: Seq<&[u8]>) -> Seq<Seq<u8>> {
    Seq::new(v.len(), |i: int| v[i]@)
}

/// What a vector of owned byte strings holds.
pub open spec fn vec_views(v: Seq<Vec<u8>>) -> Seq<Seq<u8>> {
    Seq::new(v.len(), |i: int| v[i]@)
}

/// A split always yields at least one piece.
pub proof fn lemma_split_len(s: Seq<u8>, sep: u8)
    ensures
        split(s, sep).len() >= 1,
    decreases s.len(),
{
    if s.len() > 0 {
        lemma_split_len(s.drop_last(), sep);
    }
}

/// Bytes without a separator that follow `a` only lengthen its last piece.
pub proof fn lemma_split_append_plain(a: Seq<u8>, b: Seq<u8>, sep: u8)
    requires
        !b.contains(sep),
    ensures
        split(a + b, sep) == split(a, sep).update(
            split(a, sep).len() - 1,
            split(a, sep).last() + b,
        ),
    decreases b.len(),
{
    lemma_split_len(a, sep);
    let pa = split(a, sep);
    if b.len() == 0 {
        assert(a + b =~= a);
        assert(pa.last() + b =~= pa.last());
        assert(pa.update(pa.len() - 1, pa.last()) =~= pa);
    } else {
        let b0 = b.drop_last();
        assert(b[b.len() - 1] == b.last());
        assert(b.contains(b.last()));
        assert forall|x: u8| b0.contains(x) implies b.contains(x) by {
            let k = choose|k: int| 0 <= k < b0.len() && b0[k] == x;
            assert(b[k] == x);
        }
        lemma_split_append_plain(a, b0, sep);
        assert((a + b).drop_last() =~= a + b0);
        assert((a + b).last() == b.last());
        let mid = split(a + b0, sep);
        assert(mid.last().push(b.last()) =~= pa.last() + b);
        assert(mid.update(mid.len() - 1, mid.last().push(b.last())) =~= pa.update(
            pa.len() - 1,
            pa.last() + b,
        ));
    }
}

/// A separator between two byte strings keeps their pieces apart.
pub proof fn lemma_split_concat(a: Seq<u8>, b: Seq<u8>, sep: u8)
    ensures
        split(a.push(sep) + b, sep) == split(a, sep) + split(b, sep),
    decreases b.len(),
{
    lemma_split_len(a, sep);
    lemma_split_len(b, sep);
    if b.len() == 0 {
        assert(a.push(sep) + b =~= a.push(sep));
        assert(a.push(sep).drop_last() =~= a);
        assert(split(a, sep).push(Seq::<u8>::empty()) =~= split(a, sep) + split(b, sep));
    } else {
        let b0 = b.drop_last();
        lemma_split_concat(a, b0, sep);
        lemma_split_len(b0, sep);
        let whole = a.push(sep) + b;
        assert(whole.drop_last() =~= a.push(sep) + b0);
        assert(whole.last() == b.last());
        let left = split(a, sep);
        let right0 = split(b0, sep);
        if b.last() == sep {
            assert((left + right0).push(Seq::<u8>::empty()) =~= left + right0.push(
                Seq::<u8>::empty(),
            ));
        } else {
            assert((left + right0).last() == right0.last());
            assert((left + right0).update(
                (left + right0).len() - 1,
                right0.last().push(b.last()),
            ) =~= left + right0.update(right0.len() - 1, right0.last().push(b.last())));
        }
    }
}

/// Splitting what was joined gives the pieces back, provided there is at
/// least one piece and none of them holds the separator.
pub proof fn lemma_split_join(pieces: Seq<Seq<u8>>, sep: u8)
    requires
        pieces.len() >= 1,
        free_of(pieces, sep),
    ensures
        split(join(pieces, sep), sep) == pieces,
    decreases pieces.len(),
{
    let last = pieces.last();
    assert(!last.contains(sep));
    if pieces.len() == 1 {
        lemma_split_append_plain(Seq::<u8>::empty(), last, sep);
        assert(Seq::<u8>::empty() + last =~= last);
        assert(split(Seq::<u8>::empty(), sep) =~= seq![Seq::<u8>::empty()]);
        assert(seq![Seq::<u8>::empty()].update(0, Seq::<u8>::empty() + last) =~= pieces);
    } else {
        let front = pieces.drop_last();
        assert forall|i: int| 0 <= i < front.len() implies !(#[trigger] front[i]).contains(
            sep,
        ) by {
            assert(front[i] == pieces[i]);
        }
        lemma_split_join(front, sep);
        let head = join(front, sep).push(sep);
        assert(head.drop_last() =~= join(front, sep));
        assert(split(head, sep) == front.push(Seq::<u8>::empty()));
        lemma_split_append_plain(head, last, sep);
        assert(front.push(Seq::<u8>::empty()).update(
            front.len() as int,
            Seq::<u8>::empty() + last,
        ) =~= pieces);
    }
}

/// Joining what was split gives the byte string back, and no piece of a
/// split holds the separator.
pub proof fn lemma_join_split(s: Seq<u8>, sep: u8)
    ensures
        join(split(s, sep), sep) == s,
        free_of(split(s, sep), sep),
    decreases s.len(),
{
    if s.len() == 0 {
        assert(join(split(s, sep), sep) =~= s);
    } else {
        let s0 = s.drop_last();
        lemma_join_split(s0, sep);
        lemma_split_len(s0, sep);
        let before = split(s0, sep);
        let after = split(s, sep);
        if s.last() == sep {
            assert(after.drop_last() =~= before);
            assert(join(after, sep) =~= s0.push(sep));
            assert(s0.push(sep) =~= s);
            assert forall|i: int| 0 <= i < after.len() implies !(#[trigger] after[i]).contains(
                sep,
            ) by {
                if i < before.len() {
                    assert(after[i] == before[i]);
                }
            }
        } else {
            let grown = before.last().push(s.last());
            assert forall|i: int| 0 <= i < after.len() implies !(#[trigger] after[i]).contains(
                sep,
            ) by {
                if i < before.len() - 1 {
                    assert(after[i] == before[i]);
                } else {
                    assert(!before[before.len() - 1].contains(sep));
                    if grown.contains(sep) {
                        let k = choose|k: int| 0 <= k < grown.len() && grown[k] == sep;
                        assert(before.last()[k] == sep);
                    }
                }
            }
            if before.len() == 1 {
                assert(join(before, sep) == before[0]);
                assert(join(after, sep) =~= s0.push(s.last()));
            } else {
                assert(after.drop_last() =~= before.drop_last());
                assert(join(after, sep) =~= join(before.drop_last(), sep).push(sep)
                    + before.last().push(s.last()));
                assert(join(after, sep) =~= s0.push(s.last()));
            }
            assert(s0.push(s.last()) =~= s);
        }
    }
}

/// Whether two byte strings hold the same bytes.
pub fn bytes_eq(a: &[u8], b: &[u8]) -> (same: bool)
    ensures
        same == (a@ == b@),
{
    if a.len() != b.len() {
        return false;
    }
    let mut i: usize = 0;
    while i < a.len()
        invariant
            i <= a@.len(),
            a@.len() == b@.len(),
            a@.take(i as int) == b@.take(i as int),
        decreases a@.len() - i,
    {
        if a[i] != b[i] {
            return false;
        }
        assert(a@.take(i + 1) =~= a@.take(i as int).push(a@[i as int]));
        assert(b@.take(i + 1) =~= b@.take(i as int).push(b@[i as int]));
        i += 1;
    }
    assert(a@.take(a@.len() as int) =~= a@);
    assert(b@.take(b@.len() as int) =~= b@);
    true
}

/// Whether `bytes` holds the byte `needle`.
pub fn contains_byte(bytes: &[u8], needle: u8) -> (found: bool)
    ensures
        found == bytes@.contains(needle),
{
    let mut i: usize = 0;
    while i < bytes.len()
        invariant
            i <= bytes@.len(),
            forall|k: int| 0 <= k < i ==> bytes@[k] != needle,
        decreases bytes@.len() - i,
    {
        if bytes[i] == needle {
            return true;
        }
        i += 1;
    }
    false
}

/// Cuts `bytes` at every `sep`. The pieces borrow from `bytes` and leave the
/// separators out.
pub fn split_bytes<'a>(bytes: &'a [u8], sep: u8) -> (pieces: Vec<&'a [u8]>)
    ensures
        slice_views(pieces@) == split(bytes@, sep),
{
    let mut pieces: Vec<&'a [u8]> = Vec::new();
    let mut start: usize = 0;
    let mut i: usize = 0;
    assert(bytes@.take(0) =~= Seq::<u8>::empty());
    assert(slice_views(pieces@).push(bytes@.subrange(0, 0)) =~= seq![Seq::<u8>::empty()]);
    while i < bytes.len()
        invariant
            start <= i <= bytes@.len(),
            split(bytes@.take(i as int), sep) == slice_views(pieces@).push(
                bytes@.subrange(start as int, i as int),
            ),
        decreases bytes@.len() - i,
    {
        let ghost done = slice_views(pieces@);
        let ghost open = bytes@.subrange(start as int, i as int);
        proof {
            assert(bytes@.take(i + 1).drop_last() =~= bytes@.take(i as int));
            assert(bytes@.take(i + 1).last() == bytes@[i as int]);
        }
        if bytes[i] == sep {
            pieces.push(slice_subrange(bytes, start, i));
            start = i + 1;
            proof {
                assert(slice_views(pieces@) =~= done.push(open));
                assert(bytes@.subrange(start as int, i + 1) =~= Seq::<u8>::empty());
            }
        } else {
            proof {
                assert(open.push(bytes@[i as int]) =~= bytes@.subrange(start as int, i + 1));
                assert(done.push(open).update(done.len() as int, open.push(bytes@[i as int]))
                    =~= done.push(bytes@.subrange(start as int, i + 1)));
            }
        }
        i += 1;
    }
    proof {
        assert(bytes@.take(i as int) =~= bytes@);
    }
    let ghost done = slice_views(pieces@);
    pieces.push(slice_subrange(bytes, start, i));
    proof {
        assert(slice_views(pieces@) =~= done.push(bytes@.subrange(start as int, i as int)));
    }
    pieces
}

/// Writes the pieces one after the other with one `sep` between neighbours.
pub fn join_slices(pieces: &Vec<&[u8]>, sep: u8) -> (joined: Vec<u8>)
    ensures
        joined@ == join(slice_views(pieces@), sep),
{
    let mut joined: Vec<u8> = Vec::new();
    let mut i: usize = 0;
    assert(slice_views(pieces@).take(0) =~= Seq::<Seq<u8>>::empty());
    while i < pieces.len()
        invariant
            i <= pieces@.len(),
            joined@ == join(slice_views(pieces@).take(i as int), sep),
        decreases pieces@.len() - i,
    {
        let ghost all = slice_views(pieces@);
        proof {
            assert(all.take(i + 1).drop_last() =~= all.take(i as int));
            assert(all.take(i + 1).last() == pieces@[i as int]@);
        }
        if i > 0 {
            joined.push(sep);
        }
        let ghost head = joined@;
        let piece: &[u8] = pieces[i];
        let mut k: usize = 0;
        while k < piece.len()
            invariant
                k <= piece@.len(),
                joined@ == head + piece@.take(k as int),
            decreases piece@.len() - k,
        {
            joined.push(piece[k]);
            proof {
                assert(piece@.take(k + 1) =~= piece@.take(k as int).push(piece@[k as int]));
            }
            k += 1;
        }
        proof {
            assert(piece@.take(k as int) =~= piece@);
            if i == 0 {
                assert(head + piece@ =~= piece@);
            }
        }
        i += 1;
    }
    proof {
        assert(slice_views(pieces@).take(i as int) =~= slice_views(pieces@));
    }
    joined
}

/// Writes the pieces one after the other with one `sep` between neighbours.
pub fn join_bytes(pieces: &Vec<Vec<u8>>, sep: u8) -> (joined: Vec<u8>)
    ensures
        joined@ == join(vec_views(pieces@), sep),
{
    let mut borrowed: Vec<&[u8]> = Vec::new();
    let mut i: usize = 0;
    while i < pieces.len()
        invariant
            i <= pieces@.len(),
            slice_views(borrowed@) == vec_views(pieces@).take(i as int),
        decreases pieces@.len() - i,
    {
        let ghost before = slice_views(borrowed@);
        borrowed.push(pieces[i].as_slice());
        proof {
            assert(slice_views(borrowed@) =~= before.push(pieces@[i as int]@));
            assert(before.push(pieces@[i as int]@) =~= vec_views(pieces@).take(i + 1));
        }
        i += 1;
    }
    proof {
        assert(vec_views(pieces@).take(i as int) =~= vec_views(pieces@));
    }
    join_slices(&borrowed, sep)
}

} // verus!
