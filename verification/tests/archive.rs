use kompo::archive::{
    has_prefix, select_members, split_archive, ArchiveError, Member, DUMMY_PREFIX,
};

fn ar(members: &[(&str, &[u8])]) -> Vec<u8> {
    let mut out = b"!<arch>\n".to_vec();
    for (name, data) in members {
        let header = format!(
            "{:<16}{:<12}{:<6}{:<6}{:<8}{:<10}`\n",
            format!("{}/", name),
            0,
            0,
            0,
            644,
            data.len()
        );
        assert_eq!(header.len(), 60);
        out.extend_from_slice(header.as_bytes());
        out.extend_from_slice(data);
        if data.len() % 2 == 1 {
            out.push(b'\n');
        }
    }
    out
}

#[test]
fn reserved_prefix() {
    assert_eq!(DUMMY_PREFIX, "dummy");
}

#[test]
fn prefix_is_matched_at_the_start() {
    assert!(has_prefix(b"dummy_ext.o", b"dummy"));
    assert!(has_prefix(b"dummy", b"dummy"));
    assert!(has_prefix(b"anything", b""));
    assert!(has_prefix(b"", b""));
    assert!(!has_prefix(b"dumm", b"dummy"));
    assert!(!has_prefix(b"a_dummy.o", b"dummy"));
    assert!(!has_prefix(b"dumbo.o", b"dummy"));
    assert!(!has_prefix(b"", b"dummy"));
}

#[test]
fn members_with_the_prefix_stay_behind() {
    let members = vec![
        Member { name: b"array.o", data: b"1" },
        Member { name: b"dummy_ext.o", data: b"2" },
        Member { name: b"string.o", data: b"3" },
        Member { name: b"dummy_enc.o", data: b"4" },
        Member { name: b"vm.o", data: b"5" },
    ];
    assert_eq!(select_members(&members, b"dummy"), vec![&b"1"[..], &b"3"[..], &b"5"[..]]);
}

#[test]
fn members_are_numbered_in_the_order_of_the_archive() {
    let members = vec![
        Member { name: b"dummy.o", data: b"d" },
        Member { name: b"b.o", data: b"bb" },
        Member { name: b"a.o", data: b"aa" },
    ];
    let numbered: Vec<(usize, &[u8])> =
        select_members(&members, b"dummy").into_iter().enumerate().collect();
    assert_eq!(numbered, vec![(0, &b"bb"[..]), (1, &b"aa"[..])]);
}

#[test]
fn stand_ins_alone_give_nothing() {
    let members =
        vec![Member { name: b"dummy1", data: b"1" }, Member { name: b"dummy2", data: b"2" }];
    assert_eq!(select_members(&members, b"dummy"), Vec::<&[u8]>::new());
    assert_eq!(select_members(&vec![], b"dummy"), Vec::<&[u8]>::new());
}

#[test]
fn an_empty_prefix_keeps_every_member_behind() {
    let members = vec![Member { name: b"a.o", data: b"1" }];
    assert_eq!(select_members(&members, b""), Vec::<&[u8]>::new());
}

#[test]
fn members_of_equal_name_are_all_extracted() {
    let members = vec![Member { name: b"a.o", data: b"1" }, Member { name: b"a.o", data: b"2" }];
    assert_eq!(select_members(&members, b"dummy"), vec![&b"1"[..], &b"2"[..]]);
}

#[test]
fn archive_is_split_into_its_members() {
    let data = ar(&[("a.o", b"AAA"), ("dummy_ext.o", b"D"), ("b.o", b"BB")]);
    assert_eq!(split_archive(&data), Ok(vec![&b"AAA"[..], &b"BB"[..]]));
}

#[test]
fn archive_without_members_gives_nothing() {
    let data = ar(&[]);
    assert_eq!(split_archive(&data), Ok(vec![]));
}

#[test]
fn archive_of_stand_ins_gives_nothing() {
    let data = ar(&[("dummy.o", b"12"), ("dummy2.o", b"")]);
    assert_eq!(split_archive(&data), Ok(vec![]));
}

#[test]
fn empty_member_is_extracted_empty() {
    let data = ar(&[("e.o", b""), ("f.o", b"F")]);
    assert_eq!(split_archive(&data), Ok(vec![&b""[..], &b"F"[..]]));
}

#[test]
fn what_is_no_archive_is_refused() {
    match split_archive(b"this is no archive") {
        Err(ArchiveError::Malformed(message)) => assert!(!message.is_empty()),
        other => panic!("{:?}", other),
    }
    assert!(split_archive(b"").is_err());
}

#[test]
fn archive_that_breaks_off_is_refused() {
    let mut data = ar(&[("a.o", b"AAAA"), ("b.o", b"BBBB")]);
    data.truncate(data.len() - 2);
    assert!(split_archive(&data).is_err());
    let mut data = ar(&[("a.o", b"AAAA")]);
    data.extend_from_slice(b"half a header");
    assert!(split_archive(&data).is_err());
}
