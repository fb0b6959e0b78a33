//! Splits a static archive into the object files that the link step takes.
//!
//! Members whose name starts with a reserved prefix are stand-ins and stay
//! behind; all others are extracted, in the order of the archive, and are to
//! be numbered in that order.
//!
//! The archive is read by the `object` crate. What is proved here is which
//! of the members it lists are extracted; the listing itself is named by
//! `archive_listing` and believed.

use vstd::prelude::*;
use vstd::string::StringSliceAdditionalSpecFns;
use crate::bytes::slice_views;

verus! {

/// The prefix of the names of the members that are not extracted.
pub const DUMMY_PREFIX: &'static str = "dummy";

/// A member of an archive: its name and its file data, both borrowed from
/// the archive.
#[derive(Debug)]
pub struct Member<'a> {
    pub name: &'a [u8],
    pub data: &'a [u8],
}

/// Why an archive was not split.
#[derive(Debug, PartialEq, Eq)]
pub enum ArchiveError {
    /// The archive or one of its members could not be parsed; the text is
    /// the reader's message.
    Malformed(String),
}

/// What a list of members holds: names and file data.
pub open spec fn member_views(members: Seq<Member>) -> Seq<(Seq<u8>, Seq<u8>)> {
    Seq::new(members.len(), |i: int| (members[i].name@, members[i].data@))
}

/// `name` starts with `prefix`.
pub open spec fn starts_with(name: Seq<u8>, prefix: Seq<u8>) -> bool {
    prefix.len() <= name.len() && name.take(prefix.len() as int) == prefix
}

/// The file data of the members to extract: of those whose name does not
/// start with `prefix`, in the order of the archive.
pub open spec fn extracted(members: Seq<(Seq<u8>, Seq<u8>)>, prefix: Seq<u8>) -> Seq<Seq<u8>>
    decreases members.len(),
{
    if members.len() == 0 {
        Seq::<Seq<u8>>::empty()
    } else if starts_with(members.last().0, prefix) {
        extracted(members.drop_last(), prefix)
    } else {
        extracted(members.drop_last(), prefix).push(members.last().1)
    }
}

/// Extraction takes the archive member by member: what is extracted of two
/// lists of members, one after the other, is what is extracted of the first
/// followed by what is extracted of the second.
pub proof fn lemma_extracted_concat(
    front: Seq<(Seq<u8>, Seq<u8>)>,
    back: Seq<(Seq<u8>, Seq<u8>)>,
    prefix: Seq<u8>,
)
    ensures
        extracted(front + back, prefix) == extracted(front, prefix) + extracted(back, prefix),
    decreases back.len(),
{
    if back.len() == 0 {
        assert(front + back =~= front);
        assert(extracted(front, prefix) + extracted(back, prefix) =~= extracted(front, prefix));
    } else {
        lemma_extracted_concat(front, back.drop_last(), prefix);
        assert((front + back).drop_last() =~= front + back.drop_last());
        assert((front + back).last() == back.last());
        if !starts_with(back.last().0, prefix) {
            assert((extracted(front, prefix) + extracted(back.drop_last(), prefix)).push(
                back.last().1,
            ) =~= extracted(front, prefix) + extracted(back, prefix));
        }
    }
}

/// A member is extracted exactly if its name does not start with the
/// prefix: no more files are extracted than there are members, and where no
/// name starts with the prefix, every member is extracted.
pub proof fn lemma_extracted_len(members: Seq<(Seq<u8>, Seq<u8>)>, prefix: Seq<u8>)
    ensures
        extracted(members, prefix).len() <= members.len(),
        (forall|i: int| 0 <= i < members.len() ==> !starts_with((#[trigger] members[i]).0, prefix))
            ==> extracted(members, prefix) == Seq::new(members.len(), |i: int| members[i].1),
        (forall|i: int| 0 <= i < members.len() ==> starts_with((#[trigger] members[i]).0, prefix))
            ==> extracted(members, prefix) == Seq::<Seq<u8>>::empty(),
    decreases members.len(),
{
    if members.len() > 0 {
        let front = members.drop_last();
        lemma_extracted_len(front, prefix);
        assert forall|i: int| 0 <= i < front.len() implies front[i] == members[i] by {}
        if forall|i: int|
            0 <= i < members.len() ==> !starts_with((#[trigger] members[i]).0, prefix) {
            assert forall|i: int| 0 <= i < front.len() implies !starts_with(
                (#[trigger] front[i]).0,
                prefix,
            ) by {
                assert(front[i] == members[i]);
            }
            assert(!starts_with(members[members.len() - 1].0, prefix));
            assert(extracted(members, prefix) =~= Seq::new(
                members.len(),
                |i: int| members[i].1,
            ));
        }
        if forall|i: int|
            0 <= i < members.len() ==> starts_with((#[trigger] members[i]).0, prefix) {
            assert forall|i: int| 0 <= i < front.len() implies starts_with(
                (#[trigger] front[i]).0,
                prefix,
            ) by {
                assert(front[i] == members[i]);
            }
            assert(starts_with(members[members.len() - 1].0, prefix));
        }
    }
}

/// Whether `name` starts with `prefix`.
pub fn has_prefix(name: &[u8], prefix: &[u8]) -> (yes: bool)
    ensures
        yes == starts_with(name@, prefix@),
{
    if prefix.len() > name.len() {
        return false;
    }
    let mut i: usize = 0;
    while i < prefix.len()
        invariant
            i <= prefix@.len() <= name@.len(),
            name@.take(i as int) == prefix@.take(i as int),
        decreases prefix@.len() - i,
    {
        if name[i] != prefix[i] {
            proof {
                if name@.take(prefix@.len() as int) == prefix@ {
                    assert(name@.take(prefix@.len() as int)[i as int] == prefix@[i as int]);
                }
            }
            return false;
        }
        proof {
            assert(name@.take(i + 1) =~= name@.take(i as int).push(name@[i as int]));
            assert(prefix@.take(i + 1) =~= prefix@.take(i as int).push(prefix@[i as int]));
        }
        i += 1;
    }
    proof {
        assert(prefix@.take(i as int) =~= prefix@);
    }
    true
}

/// Selects the members to extract: the file data of those whose name does
/// not start with `prefix`, in the order given. The file with position `n`
/// in the result is the one to be written out under the number `n`.
pub fn select_members<'a>(members: &Vec<Member<'a>>, prefix: &[u8]) -> (files: Vec<&'a [u8]>)
    ensures
        slice_views(files@) == extracted(member_views(members@), prefix@),
{
    let mut files: Vec<&'a [u8]> = Vec::new();
    let mut i: usize = 0;
    proof {
        assert(member_views(members@).take(0) =~= Seq::<(Seq<u8>, Seq<u8>)>::empty());
        assert(slice_views(files@) =~= Seq::<Seq<u8>>::empty());
    }
    while i < members.len()
        invariant
            i <= members@.len(),
            slice_views(files@) == extracted(member_views(members@).take(i as int), prefix@),
        decreases members@.len() - i,
    {
        let member = &members[i];
        let ghost before = slice_views(files@);
        proof {
            let all = member_views(members@);
            assert(all.take(i + 1).drop_last() =~= all.take(i as int));
            assert(all.take(i + 1).last() == (member.name@, member.data@));
        }
        if !has_prefix(member.name, prefix) {
            files.push(member.data);
            proof {
                assert(slice_views(files@) =~= before.push(member.data@));
            }
        }
        i += 1;
    }
    proof {
        assert(member_views(members@).take(i as int) =~= member_views(members@));
    }
    files
}

#[verifier::external_type_specification]
#[verifier::external_body]
pub struct ExReadError(object::read::Error);

/// The members of the archive `data`, in the order of the archive, each with
/// its name and its file data; `None` where the archive or one of its
/// members cannot be parsed.
pub uninterp spec fn archive_listing(data: Seq<u8>) -> Option<Seq<(Seq<u8>, Seq<u8>)>>;

/// Calls `object::read::archive::ArchiveFile::parse` and walks the archive's
/// `members`, handing out of each its `name` and its `data`.
///
/// Claimed: the outcome is a function of the archive's bytes, the one that
/// `archive_listing` names; an error of any of the calls is the outcome.
#[verifier::external_body]
fn archive_members<'a>(data: &'a [u8]) -> (listing: Result<Vec<Member<'a>>, object::read::Error>)
    ensures
        match listing {
            Ok(members) => archive_listing(data@) == Some(member_views(members@)),
            Err(_) => archive_listing(data@) is None,
        },
{
    let archive = object::read::archive::ArchiveFile::parse(data)?;
    let mut members = Vec::new();
    for member in archive.members() {
        let member = member?;
        members.push(Member { name: member.name(), data: member.data(data)? });
    }
    Ok(members)
}

/// Calls the `to_string` that `object::read::Error` has from its `Display`:
/// the reader's message. Nothing is claimed of the text.
#[verifier::external_body]
fn read_error_text(error: &object::read::Error) -> String {
    error.to_string()
}

/// Splits the archive `data`: gives the file data of every member whose
/// name does not start with `DUMMY_PREFIX`, in the order of the archive.
///
/// An archive that cannot be parsed gives nothing but the error.
pub fn split_archive<'a>(data: &'a [u8]) -> (split: Result<Vec<&'a [u8]>, ArchiveError>)
    ensures
        match split {
            Ok(files) => archive_listing(data@) matches Some(members) && slice_views(files@)
                == extracted(members, DUMMY_PREFIX.spec_bytes()),
            Err(_) => archive_listing(data@) is None,
        },
{
    match archive_members(data) {
        Ok(members) => Ok(select_members(&members, DUMMY_PREFIX.as_bytes())),
        Err(error) => Err(ArchiveError::Malformed(read_error_text(&error))),
    }
}

} // verus!
