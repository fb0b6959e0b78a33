use kompo::codec::encode_load_paths;
use kompo::container::{pack, Container, SourceFile};
use kompo::fs::{
    get_load_paths, get_patch_require, get_start_file_name, get_start_file_script, is_c_str,
    set_fs, Fs, FsError, PathMap,
};

fn sample() -> Container {
    let mut c = Container::new();
    c.register(b"/root/a.rb", b"p 1\n".to_vec());
    c.register(b"/root/b.rb", b"p 2\n".to_vec());
    c.register_raw(b"x\n".to_vec());
    c
}

#[test]
fn two_files_and_the_patch_resolve() {
    let mut c = Container::new();
    c.register(b"/root/a.rb", b"p 1\n".to_vec());
    c.register(b"/root/b.rb", b"p 2\n".to_vec());
    c.register_raw(b"x\n".to_vec());
    assert_eq!(c.starts_and_ends().clone(), vec![0, 5, 10, 13]);
    let table = c.path_table();
    let fs = set_fs(&table, c.starts_and_ends(), c.scripts()).unwrap();
    assert_eq!(fs.path_count(), 3);
    assert_eq!(fs.get_file_with_index(0), Some(&b"p 1\n"[..]));
    assert_eq!(fs.get_file_with_index(2), Some(&b"x\n"[..]));
}

#[test]
fn files_are_found_by_index() {
    let c = sample();
    let table = c.path_table();
    let fs = set_fs(&table, c.starts_and_ends(), c.scripts()).unwrap();
    assert_eq!(fs.get_file_with_index(0), Some(&b"p 1\n"[..]));
    assert_eq!(fs.get_file_with_index(1), Some(&b"p 2\n"[..]));
    assert_eq!(fs.get_file_with_index(2), Some(&b"x\n"[..]));
}

#[test]
fn index_past_the_last_file_is_absent() {
    let c = sample();
    let table = c.path_table();
    let fs = set_fs(&table, c.starts_and_ends(), c.scripts()).unwrap();
    assert_eq!(fs.get_file_with_index(3), None);
    assert_eq!(fs.get_file_with_index(usize::MAX), None);
}

#[test]
fn files_are_found_by_path() {
    let c = sample();
    let table = c.path_table();
    let fs = set_fs(&table, c.starts_and_ends(), c.scripts()).unwrap();
    assert_eq!(fs.get_file(b"/root/a.rb"), Some(&b"p 1\n"[..]));
    assert_eq!(fs.get_file(b"/root/b.rb"), Some(&b"p 2\n"[..]));
    assert_eq!(fs.get_file(b"/root/kompo_patch.rb"), Some(&b"x\n"[..]));
}

#[test]
fn unregistered_path_is_absent() {
    let c = sample();
    let table = c.path_table();
    let fs = set_fs(&table, c.starts_and_ends(), c.scripts()).unwrap();
    assert_eq!(fs.get_file(b"/root/c.rb"), None);
    assert_eq!(fs.resolve(b"/root/c.rb"), None);
    assert_eq!(fs.get_file(b""), None);
    assert_eq!(fs.get_file(b"/root/a.rb\0"), None);
}

#[test]
fn lookup_is_by_exact_path() {
    let c = sample();
    let table = c.path_table();
    let fs = set_fs(&table, c.starts_and_ends(), c.scripts()).unwrap();
    assert_eq!(fs.get_file(b"/root/A.rb"), None);
    assert_eq!(fs.get_file(b"/root/./a.rb"), None);
    assert_eq!(fs.get_file(b"root/a.rb"), None);
}

#[test]
fn resolve_normalizes_first() {
    let c = sample();
    let table = c.path_table();
    let fs = set_fs(&table, c.starts_and_ends(), c.scripts()).unwrap();
    assert_eq!(fs.resolve(b"/root/./a.rb"), Some(&b"p 1\n"[..]));
    assert_eq!(fs.resolve(b"/root/lib/../b.rb"), Some(&b"p 2\n"[..]));
    assert_eq!(fs.resolve(b"//root//a.rb"), Some(&b"p 1\n"[..]));
    assert_eq!(fs.resolve(b"root/a.rb"), None);
}

#[test]
fn resolve_gives_the_same_answer_again() {
    let c = sample();
    let table = c.path_table();
    let fs = set_fs(&table, c.starts_and_ends(), c.scripts()).unwrap();
    let first = fs.resolve(b"/root/x/../a.rb");
    let second = fs.resolve(b"/root/x/../a.rb");
    let third = fs.resolve(b"/root/a.rb");
    assert_eq!(first, second);
    assert_eq!(first, third);
    assert_eq!(first.map(|s| s.as_ptr()), third.map(|s| s.as_ptr()));
}

#[test]
fn later_entry_wins() {
    let mut c = Container::new();
    c.register(b"/a", b"old".to_vec());
    c.register(b"/a", b"new".to_vec());
    let table = c.path_table();
    let fs = set_fs(&table, c.starts_and_ends(), c.scripts()).unwrap();
    assert_eq!(fs.get_file(b"/a"), Some(&b"new"[..]));
    assert_eq!(fs.get_file_with_index(0), Some(&b"old"[..]));
}

#[test]
fn path_without_bytes_is_absent() {
    let mut c = Container::new();
    c.register(b"/a", b"1".to_vec());
    c.register_path_only(b"/lib/x.so");
    let table = c.path_table();
    let fs = set_fs(&table, c.starts_and_ends(), c.scripts()).unwrap();
    assert_eq!(fs.path_count(), 2);
    assert_eq!(fs.get_file_name_with_index(1), &b"/lib/x.so\0"[..]);
    assert_eq!(fs.get_file(b"/lib/x.so"), None);
}

#[test]
fn file_with_a_nul_is_absent() {
    let mut c = Container::new();
    c.register(b"/a", b"1\x002".to_vec());
    c.register(b"/b", b"3".to_vec());
    let table = c.path_table();
    let fs = set_fs(&table, c.starts_and_ends(), c.scripts()).unwrap();
    assert_eq!(fs.get_file_with_index(0), None);
    assert_eq!(fs.get_file_with_index(1), Some(&b"3"[..]));
}

#[test]
fn empty_file_is_found_empty() {
    let mut c = Container::new();
    c.register(b"/a", b"".to_vec());
    let table = c.path_table();
    let fs = set_fs(&table, c.starts_and_ends(), c.scripts()).unwrap();
    assert_eq!(fs.get_file(b"/a"), Some(&b""[..]));
}

#[test]
fn names_are_given_as_stored() {
    let c = sample();
    let table = c.path_table();
    let fs = set_fs(&table, c.starts_and_ends(), c.scripts()).unwrap();
    assert_eq!(fs.path_count(), 3);
    assert_eq!(fs.get_file_name_with_index(0), &b"/root/a.rb\0"[..]);
    assert_eq!(fs.get_file_name_with_index(2), &b"/root/kompo_patch.rb\0"[..]);
    assert_eq!(get_start_file_name(&fs), &b"/root/a.rb\0"[..]);
}

#[test]
fn entry_point_and_patch_are_found_by_position() {
    let c = sample();
    let table = c.path_table();
    let fs = set_fs(&table, c.starts_and_ends(), c.scripts()).unwrap();
    assert_eq!(get_start_file_script(&fs), Some(&b"p 1\n"[..]));
    assert_eq!(get_patch_require(&fs), Some(&b"x\n"[..]));
}

#[test]
fn patch_of_an_empty_container_is_absent() {
    let offsets = [0u64];
    let fs = Fs::from(b"", PathMap::new(), &offsets, b"");
    assert_eq!(get_patch_require(&fs), None);
    assert_eq!(get_start_file_script(&fs), None);
    let none: [u64; 0] = [];
    let fs = Fs::from(b"", PathMap::new(), &none, b"");
    assert_eq!(get_patch_require(&fs), None);
    assert_eq!(fs.path_count(), 1);
    assert_eq!(get_start_file_name(&fs), &b""[..]);
}

#[test]
fn path_without_terminator_is_refused() {
    let offsets = [0u64];
    assert_eq!(set_fs(b"/a\0,/b", &offsets, b"").err(), Some(FsError::MalformedPath(1)));
    assert_eq!(set_fs(b"", &offsets, b"").err(), Some(FsError::MalformedPath(0)));
    assert_eq!(set_fs(b"/a\0,", &offsets, b"").err(), Some(FsError::MalformedPath(1)));
}

#[test]
fn path_with_a_nul_inside_is_refused() {
    let offsets = [0u64];
    assert_eq!(set_fs(b"/a\0b\0", &offsets, b"").err(), Some(FsError::MalformedPath(0)));
    assert_eq!(set_fs(b"/a\0,/b\0\0", &offsets, b"").err(), Some(FsError::MalformedPath(1)));
}

#[test]
fn streams_that_do_not_fit_give_absence() {
    let mut map = PathMap::new();
    map.insert(b"/a", 0);
    map.insert(b"/b", 1);
    map.insert(b"/c", 7);
    let offsets = [0u64, 2, 9, 4, 6];
    let fs = Fs::from(b"/a\0,/b\0,/c\0", map, &offsets, b"1\x002\x003\0");
    assert_eq!(fs.get_file(b"/a"), Some(&b"1"[..]));
    assert_eq!(fs.get_file(b"/b"), None);
    assert_eq!(fs.get_file(b"/c"), None);
    assert_eq!(fs.get_file_with_index(2), None);
    assert_eq!(fs.get_file_with_index(3), Some(&b"3"[..]));
    let offsets = [1u64, 2];
    let fs = Fs::from(b"", PathMap::new(), &offsets, b"ab");
    assert_eq!(fs.get_file_with_index(0), None);
}

#[test]
fn path_map_remembers_the_last_index() {
    let mut map = PathMap::new();
    assert_eq!(map.get(b"/a"), None);
    map.insert(b"/a", 1);
    map.insert(b"/b", 2);
    map.insert(b"/a", 3);
    assert_eq!(map.get(b"/a"), Some(3));
    assert_eq!(map.get(b"/b"), Some(2));
    assert_eq!(map.get(b"/c"), None);
}

#[test]
fn c_strings_end_with_their_only_nul() {
    assert!(is_c_str(b"abc\0"));
    assert!(is_c_str(b"\0"));
    assert!(!is_c_str(b""));
    assert!(!is_c_str(b"abc"));
    assert!(!is_c_str(b"a\0c\0"));
    assert!(!is_c_str(b"\0\0"));
}

#[test]
fn load_paths_are_cut_at_commas() {
    let joined = encode_load_paths(b"/root", &vec![b"lib".to_vec(), b"app".to_vec()]);
    assert_eq!(get_load_paths(&joined), vec![&b"/root"[..], &b"lib"[..], &b"app"[..]]);
    assert_eq!(get_load_paths(b""), vec![&b""[..]]);
}

#[test]
fn packed_files_resolve_from_every_spelling_of_their_path() {
    let entry = SourceFile { path: b"/root/app/./main.rb".to_vec(), bytes: Some(b"m".to_vec()) };
    let files =
        vec![SourceFile { path: b"/root/app/lib//a.rb".to_vec(), bytes: Some(b"a".to_vec()) }];
    let c = pack(&entry, &files, b"p", &vec![]).unwrap();
    let table = c.path_table();
    let fs = set_fs(&table, c.starts_and_ends(), c.scripts()).unwrap();
    assert_eq!(fs.resolve(b"/root/app/main.rb"), Some(&b"m"[..]));
    assert_eq!(fs.resolve(b"/root/app/./main.rb"), Some(&b"m"[..]));
    assert_eq!(fs.resolve(b"/root/app/lib/../lib/a.rb"), Some(&b"a"[..]));
    assert_eq!(fs.resolve(b"/root/kompo_patch.rb"), Some(&b"p"[..]));
    assert_eq!(get_patch_require(&fs), Some(&b"p"[..]));
    assert_eq!(get_start_file_script(&fs), Some(&b"m"[..]));
    assert_eq!(get_start_file_name(&fs), &b"/root/app/main.rb\0"[..]);
}
