use kompo::bytes::{bytes_eq, contains_byte, join_bytes, join_slices, split_bytes};
use kompo::codec::{
    encode_load_paths, encode_offsets, encode_paths, register_bytes, register_file, COMMA,
    ENTRY_INDEX, NUL, PATCH_PATH,
};
use kompo::container::{pack, Container, PackError, SourceFile};

#[test]
fn register_bytes_test() {
    let mut scripts = vec![0];
    let mut starts_and_ends = vec![0u64];
    let mut bytes = vec![1, 2, 3, 4, 5];

    register_bytes(&mut scripts, &mut starts_and_ends, &mut bytes);

    assert_eq!(scripts, vec![0, 1, 2, 3, 4, 5, 0]);
    assert_eq!(starts_and_ends, vec![0, 6]);
}

#[test]
fn register_file_test() {
    let mut scripts = vec![0];
    let mut starts_and_ends = vec![0u64];
    let mut paths: Vec<Vec<u8>> = vec![];
    let path = b"./test_files/test.rb".to_vec();
    let mut buf = b"p 'Hello World!'\n".to_vec();

    register_file(&mut scripts, &mut starts_and_ends, &mut paths, &path, &mut buf);

    assert_eq!(scripts.len(), 19);
    assert_eq!(
        scripts,
        vec![
            b'\0', b'p', b' ', b'\'', b'H', b'e', b'l', b'l', b'o', b' ', b'W', b'o', b'r', b'l',
            b'd', b'!', b'\'', b'\n', b'\0'
        ]
    );

    assert_eq!(starts_and_ends.len(), 2);
    assert_eq!(starts_and_ends, vec![0, 18]);

    assert_eq!(paths.len(), 1);
    assert_eq!(paths, vec![path]);
}

#[test]
fn register_bytes_leaves_the_source_empty() {
    let mut scripts = vec![];
    let mut starts_and_ends = vec![0u64];
    let mut bytes = b"abc".to_vec();
    register_bytes(&mut scripts, &mut starts_and_ends, &mut bytes);
    assert!(bytes.is_empty());
    assert_eq!(scripts, b"abc\0".to_vec());
    assert_eq!(starts_and_ends, vec![0, 4]);
}

#[test]
fn register_bytes_of_an_empty_file_adds_one_nul() {
    let mut scripts = b"a\0".to_vec();
    let mut starts_and_ends = vec![0u64, 2];
    let mut bytes = vec![];
    register_bytes(&mut scripts, &mut starts_and_ends, &mut bytes);
    assert_eq!(scripts, b"a\0\0".to_vec());
    assert_eq!(starts_and_ends, vec![0, 2, 3]);
}

#[test]
fn register_bytes_adds_the_file_between_the_last_two_offsets() {
    let mut scripts = b"ab\0".to_vec();
    let mut starts_and_ends = vec![0u64, 3];
    let mut bytes = b"xyz".to_vec();
    register_bytes(&mut scripts, &mut starts_and_ends, &mut bytes);
    assert_eq!(starts_and_ends, vec![0, 3, 7]);
    assert_eq!(starts_and_ends[2], scripts.len() as u64);
    assert_eq!(&scripts[3..7], &b"xyz\0"[..]);
}

#[test]
fn register_file_keeps_one_offset_more_than_paths() {
    let mut scripts = vec![];
    let mut starts_and_ends = vec![0u64];
    let mut paths: Vec<Vec<u8>> = vec![];
    for (path, text) in [("/a", "1"), ("/b", ""), ("/c", "333")] {
        let mut buf = text.as_bytes().to_vec();
        register_file(&mut scripts, &mut starts_and_ends, &mut paths, path.as_bytes(), &mut buf);
        assert!(buf.is_empty());
        assert_eq!(starts_and_ends.len(), paths.len() + 1);
        assert_eq!(starts_and_ends[0], 0);
    }
    assert_eq!(starts_and_ends, vec![0, 2, 3, 7]);
    assert_eq!(paths, vec![b"/a".to_vec(), b"/b".to_vec(), b"/c".to_vec()]);
    assert_eq!(scripts, b"1\0\x00333\0".to_vec());
}

#[test]
fn register_bytes_counts_from_the_last_offset() {
    let mut scripts = vec![];
    let mut starts_and_ends = vec![7u64, u64::MAX - 3];
    let mut bytes = b"ab".to_vec();
    register_bytes(&mut scripts, &mut starts_and_ends, &mut bytes);
    assert_eq!(starts_and_ends, vec![7, u64::MAX - 3, u64::MAX]);
    assert_eq!(scripts, b"ab\0".to_vec());
}

#[test]
fn constants_of_the_layout() {
    assert_eq!(NUL, b'\0');
    assert_eq!(COMMA, b',');
    assert_eq!(ENTRY_INDEX, 0);
    assert_eq!(PATCH_PATH, "/root/kompo_patch.rb");
}

#[test]
fn split_cuts_at_every_separator() {
    let pieces = split_bytes(b"a,b,,c", b',');
    assert_eq!(pieces, vec![&b"a"[..], &b"b"[..], &b""[..], &b"c"[..]]);
}

#[test]
fn split_of_nothing_is_one_empty_piece() {
    let pieces = split_bytes(b"", b',');
    assert_eq!(pieces, vec![&b""[..]]);
}

#[test]
fn split_keeps_empty_pieces_at_both_ends() {
    let pieces = split_bytes(b",x,", b',');
    assert_eq!(pieces, vec![&b""[..], &b"x"[..], &b""[..]]);
}

#[test]
fn join_puts_one_separator_between_neighbours() {
    let pieces = vec![b"a".to_vec(), b"".to_vec(), b"bc".to_vec()];
    assert_eq!(join_bytes(&pieces, b','), b"a,,bc".to_vec());
    assert_eq!(join_bytes(&vec![], b','), Vec::<u8>::new());
    assert_eq!(join_bytes(&vec![b"x".to_vec()], b','), b"x".to_vec());
    let borrowed: Vec<&[u8]> = vec![b"p", b"q"];
    assert_eq!(join_slices(&borrowed, b'/'), b"p/q".to_vec());
}

#[test]
fn split_undoes_join() {
    let pieces = vec![b"one".to_vec(), b"".to_vec(), b"three".to_vec()];
    let joined = join_bytes(&pieces, b',');
    let again: Vec<Vec<u8>> = split_bytes(&joined, b',').iter().map(|p| p.to_vec()).collect();
    assert_eq!(again, pieces);
}

#[test]
fn join_undoes_split() {
    let text = b",a,,b,".to_vec();
    let pieces: Vec<Vec<u8>> = split_bytes(&text, b',').iter().map(|p| p.to_vec()).collect();
    assert_eq!(join_bytes(&pieces, b','), text);
}

#[test]
fn bytes_are_compared_and_searched() {
    assert!(bytes_eq(b"abc", b"abc"));
    assert!(!bytes_eq(b"abc", b"abd"));
    assert!(!bytes_eq(b"abc", b"ab"));
    assert!(bytes_eq(b"", b""));
    assert!(contains_byte(b"a\0b", 0));
    assert!(!contains_byte(b"ab", 0));
    assert!(!contains_byte(b"", 0));
}

#[test]
fn path_table_ends_every_path_with_nul() {
    let paths = vec![b"/root/a.rb".to_vec(), b"/root/b.rb".to_vec()];
    assert_eq!(encode_paths(&paths), b"/root/a.rb\0,/root/b.rb\0".to_vec());
    assert_eq!(encode_paths(&vec![b"x".to_vec()]), b"x\0".to_vec());
    assert_eq!(encode_paths(&vec![]), Vec::<u8>::new());
}

#[test]
fn offset_table_is_little_endian() {
    let table = encode_offsets(&vec![0, 5, 0x0102030405060708]);
    assert_eq!(
        table,
        vec![0, 0, 0, 0, 0, 0, 0, 0, 5, 0, 0, 0, 0, 0, 0, 0, 8, 7, 6, 5, 4, 3, 2, 1]
    );
    assert_eq!(encode_offsets(&vec![]), Vec::<u8>::new());
}

#[test]
fn load_paths_start_with_the_context() {
    let dirs = vec![b"lib".to_vec(), b"app.rb".to_vec()];
    assert_eq!(encode_load_paths(b"/root", &dirs), b"/root,lib,app.rb".to_vec());
    assert_eq!(encode_load_paths(b"/root", &vec![]), b"/root".to_vec());
}

#[test]
fn offsets_count_the_files_and_start_at_zero() {
    let mut c = Container::new();
    assert_eq!(c.starts_and_ends().clone(), vec![0]);
    assert_eq!(c.len(), 0);
    c.register(b"/a", b"1".to_vec());
    assert_eq!(c.starts_and_ends().len(), c.len() + 1);
    c.register_path_only(b"/lib.so");
    assert_eq!(c.starts_and_ends().len(), c.len() + 1);
    c.register(b"/b", b"".to_vec());
    c.register_raw(b"22".to_vec());
    assert_eq!(c.len(), 3);
    assert_eq!(c.starts_and_ends().len(), 4);
    assert_eq!(c.starts_and_ends()[0], 0);
    assert_eq!(c.starts_and_ends().clone(), vec![0, 2, 3, 6]);
    assert_eq!(c.scripts().clone(), b"1\0\x0022\0".to_vec());
}

#[test]
fn paths_without_bytes_follow_the_files() {
    let mut c = Container::new();
    c.register(b"/a", b"1".to_vec());
    c.register_path_only(b"/lib/x.so");
    c.register_raw(b"2".to_vec());
    assert_eq!(c.path_table(), b"/a\0,/root/kompo_patch.rb\0,/lib/x.so\0".to_vec());
    assert_eq!(c.starts_and_ends().clone(), vec![0, 2, 4]);
    assert_eq!(c.offset_table().len(), 24);
}

#[test]
fn path_table_has_one_terminated_string_for_every_entry() {
    let mut c = Container::new();
    c.register(b"/root/main.rb", b"1".to_vec());
    c.register(b"/root/lib/a.rb", b"2".to_vec());
    c.register_raw(b"3".to_vec());
    c.register_path_only(b"/root/ext/x.so");
    c.register_path_only(b"/root/ext/y.so");
    let table = c.path_table();
    let pieces = split_bytes(&table, b',');
    assert_eq!(pieces.len(), 5);
    for piece in pieces.iter() {
        assert_eq!(piece.last(), Some(&0));
        assert_eq!(piece.iter().filter(|b| **b == 0).count(), 1);
    }
    assert_eq!(pieces[2], &b"/root/kompo_patch.rb\0"[..]);
    assert_eq!(pieces[4], &b"/root/ext/y.so\0"[..]);
}

#[test]
fn every_file_ends_with_its_only_nul() {
    let mut c = Container::new();
    c.register(b"/a", b"one".to_vec());
    c.register(b"/b", b"".to_vec());
    c.register_raw(b"three".to_vec());
    let offsets = c.starts_and_ends().clone();
    let blob = c.scripts().clone();
    let expected: [&[u8]; 3] = [b"one", b"", b"three"];
    for i in 0..3 {
        let slice = &blob[offsets[i] as usize..offsets[i + 1] as usize];
        assert_eq!(offsets[i + 1] - offsets[i], expected[i].len() as u64 + 1);
        assert_eq!(slice.last(), Some(&0));
        assert_eq!(&slice[..slice.len() - 1], expected[i]);
    }
}

#[test]
fn two_files_and_the_patch() {
    let mut c = Container::new();
    c.register(b"/root/a.rb", b"p 1\n".to_vec());
    c.register(b"/root/b.rb", b"p 2\n".to_vec());
    c.register_raw(b"x\n".to_vec());
    assert_eq!(c.starts_and_ends().clone(), vec![0, 5, 10, 13]);
    let table = c.path_table();
    assert_eq!(split_bytes(&table, b',').len(), 3);
    assert_eq!(c.scripts().clone(), b"p 1\n\0p 2\n\0x\n\0".to_vec());
}

fn source(path: &str, bytes: &str) -> SourceFile {
    SourceFile { path: path.as_bytes().to_vec(), bytes: Some(bytes.as_bytes().to_vec()) }
}

fn missing(path: &str) -> SourceFile {
    SourceFile { path: path.as_bytes().to_vec(), bytes: None }
}

#[test]
fn pack_puts_the_entry_first_and_the_patch_last() {
    let entry = source("/root/main.rb", "m");
    let files = vec![source("/root/lib/a.rb", "aa"), source("/root/lib/b.rb", "")];
    let assets = vec![b"/root/ext/x.so".to_vec()];
    let c = pack(&entry, &files, b"patch", &assets).unwrap();
    assert_eq!(c.len(), 4);
    assert_eq!(c.starts_and_ends().clone(), vec![0, 2, 5, 6, 12]);
    assert_eq!(c.scripts().clone(), b"m\0aa\0\0patch\0".to_vec());
    assert_eq!(
        c.path_table(),
        b"/root/main.rb\0,/root/lib/a.rb\0,/root/lib/b.rb\0,/root/kompo_patch.rb\0,/root/ext/x.so\0"
            .to_vec()
    );
}

#[test]
fn pack_records_normalized_paths() {
    let entry = source("/root/./main.rb", "m");
    let files = vec![source("/root/lib/../lib/a.rb", "a"), source("/root//b.rb", "b")];
    let assets = vec![b"/root/ext/../ext/x.so".to_vec()];
    let c = pack(&entry, &files, b"", &assets).unwrap();
    assert_eq!(
        c.path_table(),
        b"/root/main.rb\0,/root/lib/a.rb\0,/root/b.rb\0,/root/kompo_patch.rb\0,/root/ext/../ext/x.so\0"
            .to_vec()
    );
}

#[test]
fn pack_of_an_entry_alone() {
    let entry = source("/m", "1");
    let c = pack(&entry, &vec![], b"", &vec![]).unwrap();
    assert_eq!(c.starts_and_ends().clone(), vec![0, 2, 3]);
    assert_eq!(c.path_table(), b"/m\0,/root/kompo_patch.rb\0".to_vec());
}

#[test]
fn pack_reports_the_first_file_that_was_not_read() {
    let entry = source("/m", "1");
    let files = vec![source("/a", "2"), missing("/b"), missing("/c")];
    let packed = pack(&entry, &files, b"", &vec![]);
    assert_eq!(packed.err(), Some(PackError::NotFound(b"/b".to_vec())));
}

#[test]
fn pack_reports_an_entry_that_was_not_read() {
    let entry = missing("/m");
    let files = vec![missing("/a")];
    let packed = pack(&entry, &files, b"x", &vec![]);
    assert_eq!(packed.err(), Some(PackError::NotFound(b"/m".to_vec())));
}
