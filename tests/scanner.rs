use oxide::hashmod::{hash_dir, hash_file_content, hash_symlink, DirEntryHash, FileKind};
use oxide::hash::{hash_bytes, HashAlgo};
use oxide::rewrite::{rewrite_str, rewrite_store_path};
use oxide::scan::{scan_chunks, search, BUFF_SIZE, HASH_PART_LEN};
use oxide::store_path::StorePath;
use sha2::Digest;

fn part(c: char) -> String {
    std::iter::repeat(c).take(HASH_PART_LEN).collect()
}

fn path_with(c: char, name: &str) -> StorePath {
    StorePath::from_string(format!("{}-{}", part(c), name))
}

#[test]
fn search_finds_exact_offsets() {
    let a = part('a');
    let b = part('b');
    let buf = format!("xx/{}/yy {} z", a, b).into_bytes();
    let targets = vec![a.clone().into_bytes(), b.clone().into_bytes()];
    let found = search(&buf, &targets);
    assert_eq!(found, vec![(3, 0), (3 + 64 + 4, 1)]);
}

#[test]
fn search_ignores_unknown_hash_parts() {
    let buf = format!("/{}/", part('q')).into_bytes();
    let targets = vec![part('a').into_bytes()];
    assert!(search(&buf, &targets).is_empty());
}

#[test]
fn run_with_slash_or_dot_is_not_a_match() {
    let mut with_slash = part('a').into_bytes();
    with_slash[30] = b'/';
    let mut with_dot = part('a').into_bytes();
    with_dot[0] = b'.';
    let targets = vec![part('a').into_bytes()];
    assert!(search(&with_slash, &targets).is_empty());
    assert!(search(&with_dot, &targets).is_empty());
}

#[test]
fn overlapping_runs_are_all_reported() {
    let buf = part('a').repeat(2).into_bytes();
    let targets = vec![part('a').into_bytes()];
    let found = search(&buf, &targets);
    assert_eq!(found.len(), 65);
    assert_eq!(found[0], (0, 0));
    assert_eq!(found[64], (64, 0));
}

#[test]
fn match_across_chunk_boundary_found_once() {
    let h = part('h');
    let mut content = vec![b' '; BUFF_SIZE - 20];
    content.extend_from_slice(h.as_bytes());
    content.extend(vec![b' '; 100]);
    let targets = vec![h.into_bytes()];
    let found = scan_chunks(&content, &targets);
    assert_eq!(found, vec![(BUFF_SIZE - 20, 0)]);
}

#[test]
fn match_ending_exactly_at_chunk_boundary() {
    let h = part('k');
    let mut content = vec![b'.'; BUFF_SIZE - HASH_PART_LEN];
    content.extend_from_slice(h.as_bytes());
    content.extend(vec![b'.'; 10]);
    content.extend_from_slice(h.as_bytes());
    let targets = vec![h.into_bytes()];
    let found = scan_chunks(&content, &targets);
    assert_eq!(found, vec![(BUFF_SIZE - HASH_PART_LEN, 0), (BUFF_SIZE + 10, 0)]);
}

#[test]
fn chunked_scan_agrees_with_whole_scan() {
    let h = part('z');
    let mut content = Vec::new();
    for i in 0..5000 {
        content.extend_from_slice(format!("{}:{} ", i, h).as_bytes());
    }
    let targets = vec![h.into_bytes()];
    assert_eq!(scan_chunks(&content, &targets), search(&content, &targets));
}

#[test]
fn empty_file_hashes_to_marker() {
    let r = hash_file_content(HashAlgo::Sha512, &Vec::new(), &Vec::new(), &None);
    let expected = sha2::Sha512::digest([0xFFu8; 8]).to_vec();
    assert_eq!(r.hash.digest_as_bytes(), expected.as_slice());
    let r256 = hash_file_content(HashAlgo::Sha256, &Vec::new(), &Vec::new(), &None);
    let expected256 = sha2::Sha256::digest([0xFFu8; 8]).to_vec();
    assert_eq!(r256.hash.digest_as_bytes(), expected256.as_slice());
}

#[test]
fn empty_dir_hashes_to_empty_digest() {
    let h = hash_dir(HashAlgo::Sha512, Vec::new());
    let expected = sha2::Sha512::digest(b"").to_vec();
    assert_eq!(h.digest_as_bytes(), expected.as_slice());
}

#[test]
fn dir_entries_are_sorted_and_framed() {
    let e1 = DirEntryHash { name: b"b".to_vec(), kind: FileKind::File, hash: vec![1, 2] };
    let e2 = DirEntryHash { name: b"a".to_vec(), kind: FileKind::Directory, hash: vec![3] };
    let e3 = DirEntryHash { name: b"c".to_vec(), kind: FileKind::Unknown, hash: vec![9] };
    let h = hash_dir(HashAlgo::Sha256, vec![e1, e2, e3]);
    let mut msg = Vec::new();
    msg.extend_from_slice(&100755u64.to_be_bytes());
    msg.extend_from_slice(&1u64.to_be_bytes());
    msg.extend_from_slice(b"a");
    msg.extend_from_slice(&1u64.to_be_bytes());
    msg.extend_from_slice(&[3]);
    msg.extend_from_slice(&100644u64.to_be_bytes());
    msg.extend_from_slice(&1u64.to_be_bytes());
    msg.extend_from_slice(b"b");
    msg.extend_from_slice(&2u64.to_be_bytes());
    msg.extend_from_slice(&[1, 2]);
    let expected = sha2::Sha256::digest(&msg).to_vec();
    assert_eq!(h.digest_as_bytes(), expected.as_slice());
}

#[test]
fn symlink_hashes_its_target() {
    let h = hash_symlink(HashAlgo::Sha512, b"/some/target");
    let expected = sha2::Sha512::digest(b"/some/target").to_vec();
    assert_eq!(h.digest_as_bytes(), expected.as_slice());
}

#[test]
fn self_hash_is_zeroed_and_offset_mixed_in() {
    let tmp = path_with('t', "out");
    let content = format!("ref={}\n", part('t')).into_bytes();
    let r = hash_file_content(HashAlgo::Sha512, &content, &Vec::new(), &Some(tmp));
    assert_eq!(r.content, content);
    assert_eq!(r.modulos, vec![4]);
    let mut msg = b"ref=".to_vec();
    msg.extend(vec![0u8; 64]);
    msg.push(b'\n');
    msg.extend_from_slice(&[0xFF; 8]);
    msg.extend_from_slice(&[0xFF; 8]);
    msg.extend_from_slice(&4u64.to_be_bytes());
    let expected = sha2::Sha512::digest(&msg).to_vec();
    assert_eq!(r.hash.digest_as_bytes(), expected.as_slice());
}

#[test]
fn self_hash_hash_does_not_depend_on_its_value() {
    let a = hash_file_content(
        HashAlgo::Sha512,
        &format!("x{}y", part('t')).into_bytes(),
        &Vec::new(),
        &Some(path_with('t', "out")),
    );
    let b = hash_file_content(
        HashAlgo::Sha512,
        &format!("x{}y", part('u')).into_bytes(),
        &Vec::new(),
        &Some(path_with('u', "out")),
    );
    assert!(a.hash.same(&b.hash));
}

#[test]
fn rewrites_change_content_and_hash() {
    let from = path_with('f', "dep");
    let to = path_with('g', "dep");
    let content = format!("use {}/bin", part('f')).into_bytes();
    let r = hash_file_content(HashAlgo::Sha512, &content, &vec![(from, to)], &None);
    assert_eq!(r.content, format!("use {}/bin", part('g')).into_bytes());
    let mut msg = r.content.clone();
    msg.extend_from_slice(&[0xFF; 8]);
    let expected = hash_bytes(HashAlgo::Sha512, &msg);
    assert!(r.hash.same(&expected));
}

#[test]
fn rewrite_str_replaces_hash_parts() {
    let from = path_with('e', "a");
    let to = path_with('r', "a");
    let mut s = format!("/store/{}-a/bin é {}", part('e'), part('e'));
    rewrite_str(&mut s, &vec![(from, to)]);
    assert_eq!(s, format!("/store/{}-a/bin é {}", part('r'), part('r')));
}

#[test]
fn rewrite_store_path_uses_hash_part() {
    let from = path_with('e', "x");
    let to = path_with('r', "y");
    let mut p = path_with('e', "name");
    rewrite_store_path(&mut p, &vec![(from, to)]);
    assert_eq!(p.path, format!("{}-name", part('r')));
    let mut q = path_with('w', "name");
    rewrite_store_path(&mut q, &vec![(path_with('e', "x"), path_with('r', "y"))]);
    assert_eq!(q.path, format!("{}-name", part('w')));
}
