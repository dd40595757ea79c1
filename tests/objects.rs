use tiny_git::checkout::{CheckoutStep, Expected, Materialize};
use tiny_git::object::{
    Blob, Commit, CommitAuthor, CommitTimestamp, GitObject, ObjectError, ObjectStorage, Sha, Tree,
    TreeEntry, TreeEntryPermission,
};

const HELLO_HASH: &str = "ce013625030ba8dba906f756967f9e9ca394464a";
const A_TXT_TREE_HASH: &str = "2e81171448eb9f2ee3821e3d447aa6b2fe3ddba1";
const FIRST_COMMIT_HASH: &str = "b18fd98a52a50639ee557b340f2f8d39acda6b44";

fn sha(hex: &str) -> Sha {
    ObjectStorage::hex_string_to_sha(hex).unwrap()
}

fn hex(sha: &Sha) -> String {
    ObjectStorage::sha_to_hex_string(sha)
}

fn author() -> CommitAuthor {
    CommitAuthor { name: b"A U Thor".to_vec(), email: b"author@example.com".to_vec() }
}

fn stamp() -> CommitTimestamp {
    CommitTimestamp { seconds: 1700000000, timezone_offset: 0 }
}

fn entry(permission: TreeEntryPermission, name: &str, hash: Sha) -> TreeEntry {
    TreeEntry { permission, name: name.as_bytes().to_vec(), hash }
}

fn commit(parents: Vec<Sha>, message: &str) -> Commit {
    Commit {
        tree: sha(A_TXT_TREE_HASH),
        parents,
        author: author(),
        author_timestamp: stamp(),
        message: message.as_bytes().to_vec(),
    }
}

#[test]
fn blob_encoding_has_header_and_payload() {
    let blob = Blob::from(b"hello\n");
    assert_eq!(blob.encode(), b"blob 6\0hello\n".to_vec());
}

#[test]
fn empty_blob_encoding() {
    let blob = Blob::from(b"");
    assert_eq!(blob.encode(), b"blob 0\0".to_vec());
    let w = blob.write_to_object_storage().unwrap();
    assert_eq!(hex(&w.hash), "e69de29bb2d1d6434b8b29ae775ad8c2e48c5391");
}

#[test]
fn blob_hash_and_path() {
    let w = Blob::from(b"hello\n").write_to_object_storage().unwrap();
    assert_eq!(hex(&w.hash), HELLO_HASH);
    assert_eq!(w.dir, ".git/objects/ce");
    assert_eq!(w.path, ".git/objects/ce/013625030ba8dba906f756967f9e9ca394464a");
    assert_ne!(w.compressed, b"blob 6\0hello\n".to_vec());
}

#[test]
fn blob_round_trip_through_store_bytes() {
    for payload in [b"".to_vec(), b"hello\n".to_vec(), vec![0u8, 255, 10, 32, 0], vec![7u8; 1000]] {
        let blob = Blob::from(&payload);
        let w = blob.write_to_object_storage().unwrap();
        match GitObject::from_data(&w.compressed).unwrap() {
            GitObject::Blob(b) => assert_eq!(b.content, payload),
            _ => panic!("not a blob"),
        }
    }
}

#[test]
fn store_write_is_idempotent() {
    let bytes = Blob::from(b"same").encode();
    let w1 = ObjectStorage::prepare_write(&bytes).unwrap();
    let w2 = ObjectStorage::prepare_write(&bytes).unwrap();
    assert_eq!(w1.hash, w2.hash);
    assert_eq!(w1.path, w2.path);
    assert_eq!(w1.compressed, w2.compressed);
}

#[test]
fn garbage_does_not_decompress() {
    assert!(matches!(GitObject::from_data(b"not zlib"), Err(ObjectError::MalformedObject)));
}

#[test]
fn unknown_type_is_rejected() {
    assert!(matches!(GitObject::decode(b"blobx 3\0abc"), Err(ObjectError::UnsupportedObjectType)));
    assert!(matches!(GitObject::decode(b"tag 0\0"), Err(ObjectError::UnsupportedObjectType)));
    assert!(matches!(GitObject::decode(b" 0\0"), Err(ObjectError::UnsupportedObjectType)));
}

#[test]
fn malformed_headers_are_rejected() {
    assert!(matches!(GitObject::decode(b"blob 5\0abc"), Err(ObjectError::MalformedObject)));
    assert!(matches!(GitObject::decode(b"blob 3abc"), Err(ObjectError::MalformedObject)));
    assert!(matches!(GitObject::decode(b"blob"), Err(ObjectError::MalformedObject)));
    assert!(matches!(GitObject::decode(b"blob x\0"), Err(ObjectError::MalformedObject)));
    assert!(matches!(GitObject::decode(b"blob \0"), Err(ObjectError::MalformedObject)));
    assert!(matches!(
        GitObject::decode(b"blob 99999999999999999999999\0abc"),
        Err(ObjectError::MalformedObject)
    ));
}

#[test]
fn header_for_content_length_formats_decimal() {
    assert_eq!(ObjectStorage::header_for_content_length("blob", 6), b"blob 6\0".to_vec());
    assert_eq!(ObjectStorage::header_for_content_length("tree", 1234), b"tree 1234\0".to_vec());
    assert_eq!(ObjectStorage::header_for_content_length("commit", 0), b"commit 0\0".to_vec());
}

#[test]
fn mode_strings() {
    assert_eq!(TreeEntryPermission::Directory.to_string_repr(), "40000");
    assert_eq!(TreeEntryPermission::RegularFile.to_string_repr(), "100644");
    assert_eq!(TreeEntryPermission::Executable.to_string_repr(), "100755");
    assert_eq!(TreeEntryPermission::SymbolicLink.to_string_repr(), "120000");
}

#[test]
fn tree_over_one_file() {
    let tree = Tree::from_entries(vec![entry(
        TreeEntryPermission::RegularFile,
        "a.txt",
        sha(HELLO_HASH),
    )]);
    let mut expected = b"100644 a.txt\0".to_vec();
    expected.extend_from_slice(&sha(HELLO_HASH));
    assert_eq!(tree.encode_payload(), expected);
    let w = tree.write_to_object_storage().unwrap();
    assert_eq!(hex(&w.hash), A_TXT_TREE_HASH);
}

#[test]
fn empty_tree_hash() {
    let tree = Tree::from_entries(vec![]);
    assert_eq!(tree.encode(), b"tree 0\0".to_vec());
    let w = tree.write_to_object_storage().unwrap();
    assert_eq!(hex(&w.hash), "4b825dc642cb6eb9a060e54bf8d69288fbee4904");
}

#[test]
fn tree_sort_is_byte_order() {
    let h = sha(HELLO_HASH);
    let tree = Tree::from_entries(vec![
        entry(TreeEntryPermission::RegularFile, "foo.txt", h),
        entry(TreeEntryPermission::Directory, "Zeta", h),
        entry(TreeEntryPermission::RegularFile, "b", h),
        entry(TreeEntryPermission::Directory, "foo", h),
        entry(TreeEntryPermission::RegularFile, "a", h),
    ]);
    let names: Vec<Vec<u8>> = tree.entries.iter().map(|e| e.name.clone()).collect();
    assert_eq!(
        names,
        vec![b"Zeta".to_vec(), b"a".to_vec(), b"b".to_vec(), b"foo".to_vec(), b"foo.txt".to_vec()]
    );
}

#[test]
fn tree_hash_does_not_depend_on_input_order() {
    let h1 = sha(HELLO_HASH);
    let h2 = sha(A_TXT_TREE_HASH);
    let forward = Tree::from_entries(vec![
        entry(TreeEntryPermission::RegularFile, "a.txt", h1),
        entry(TreeEntryPermission::Directory, "src", h2),
        entry(TreeEntryPermission::Executable, "run.sh", h1),
    ]);
    let backward = Tree::from_entries(vec![
        entry(TreeEntryPermission::Executable, "run.sh", h1),
        entry(TreeEntryPermission::Directory, "src", h2),
        entry(TreeEntryPermission::RegularFile, "a.txt", h1),
    ]);
    assert_eq!(forward.encode(), backward.encode());
    assert_eq!(
        forward.write_to_object_storage().unwrap().hash,
        backward.write_to_object_storage().unwrap().hash
    );
}

#[test]
fn tree_round_trip() {
    let tree = Tree::from_entries(vec![
        entry(TreeEntryPermission::SymbolicLink, "link", sha(HELLO_HASH)),
        entry(TreeEntryPermission::Directory, "dir with space", sha(A_TXT_TREE_HASH)),
        entry(TreeEntryPermission::Executable, "x", sha(HELLO_HASH)),
    ]);
    match GitObject::decode(&tree.encode()).unwrap() {
        GitObject::Tree(t) => {
            assert_eq!(t.entries.len(), 3);
            for (a, b) in t.entries.iter().zip(tree.entries.iter()) {
                assert_eq!(a.permission, b.permission);
                assert_eq!(a.name, b.name);
                assert_eq!(a.hash, b.hash);
            }
        }
        _ => panic!("not a tree"),
    }
}

#[test]
fn tree_mode_with_leading_zero_is_accepted() {
    let mut payload = b"040000 sub\0".to_vec();
    payload.extend_from_slice(&sha(A_TXT_TREE_HASH));
    let tree = Tree::from(&payload).unwrap();
    assert_eq!(tree.entries.len(), 1);
    assert_eq!(tree.entries[0].permission, TreeEntryPermission::Directory);
    assert_eq!(tree.entries[0].name, b"sub".to_vec());
}

#[test]
fn tree_unknown_mode_is_rejected() {
    let mut payload = b"100600 f\0".to_vec();
    payload.extend_from_slice(&sha(HELLO_HASH));
    assert!(matches!(Tree::from(&payload), Err(ObjectError::UnsupportedPermission)));
}

#[test]
fn tree_short_hash_is_malformed() {
    assert!(matches!(Tree::from(b"100644 f\0abc"), Err(ObjectError::MalformedObject)));
    assert!(matches!(Tree::from(b"100644 f"), Err(ObjectError::MalformedObject)));
}

#[test]
fn tree_name_may_be_non_utf8() {
    let mut payload = b"100644 \xff\xfe\0".to_vec();
    payload.extend_from_slice(&sha(HELLO_HASH));
    let tree = Tree::from(&payload).unwrap();
    assert_eq!(tree.entries[0].name, vec![0xffu8, 0xfe]);
}

#[test]
fn root_commit_encoding_and_hash() {
    let c = commit(vec![], "first");
    let expected = format!(
        "tree {}\nauthor A U Thor <author@example.com> 1700000000 +0000\ncommitter A U Thor <author@example.com> 1700000000 +0000\n\nfirst\n",
        A_TXT_TREE_HASH
    );
    assert_eq!(c.encode_payload(), expected.as_bytes().to_vec());
    let w = c.write_to_object_storage().unwrap();
    assert_eq!(hex(&w.hash), FIRST_COMMIT_HASH);
}

#[test]
fn commit_with_two_parents_keeps_their_order() {
    let p1 = sha(&"11".repeat(20));
    let p2 = sha(&"22".repeat(20));
    let c = commit(vec![p1, p2], "merge");
    let text = String::from_utf8(c.encode_payload()).unwrap();
    let parents: Vec<&str> = text.lines().filter(|l| l.starts_with("parent ")).collect();
    assert_eq!(
        parents,
        vec![format!("parent {}", "11".repeat(20)), format!("parent {}", "22".repeat(20))]
    );
    match GitObject::decode(&c.encode()).unwrap() {
        GitObject::Commit(d) => assert_eq!(d.parents, vec![p1, p2]),
        _ => panic!("not a commit"),
    }
}

#[test]
fn commit_round_trip() {
    let mut c = commit(vec![sha(HELLO_HASH)], "line one\nline two");
    c.author_timestamp = CommitTimestamp { seconds: 42, timezone_offset: -330 };
    match GitObject::decode(&c.encode()).unwrap() {
        GitObject::Commit(d) => {
            assert_eq!(d.tree, c.tree);
            assert_eq!(d.parents, c.parents);
            assert_eq!(d.author.name, c.author.name);
            assert_eq!(d.author.email, c.author.email);
            assert_eq!(d.author_timestamp, c.author_timestamp);
            assert_eq!(d.message, c.message);
        }
        _ => panic!("not a commit"),
    }
}

#[test]
fn commit_timezone_rendering() {
    let mut c = commit(vec![], "m");
    c.author_timestamp = CommitTimestamp { seconds: 7, timezone_offset: -300 };
    let text = String::from_utf8(c.encode_payload()).unwrap();
    assert!(text.contains("author A U Thor <author@example.com> 7 -0500\n"));
    c.author_timestamp = CommitTimestamp { seconds: 7, timezone_offset: 90 };
    let text = String::from_utf8(c.encode_payload()).unwrap();
    assert!(text.contains("committer A U Thor <author@example.com> 7 +0130\n"));
}

#[test]
fn malformed_commit_is_rejected() {
    assert!(matches!(Commit::from(b"tree abc\n"), Err(ObjectError::MalformedObject)));
    let no_author = format!("tree {}\n\nmsg\n", A_TXT_TREE_HASH);
    assert!(matches!(Commit::from(no_author.as_bytes()), Err(ObjectError::MalformedObject)));
}

#[test]
fn commit_tree_builds_exactly_what_is_given() {
    let (c, w) = ObjectStorage::commit_tree(
        &sha(A_TXT_TREE_HASH),
        vec![],
        b"first".to_vec(),
        author(),
        stamp(),
    )
    .unwrap();
    assert!(c.parents.is_empty());
    assert_eq!(c.message, b"first".to_vec());
    assert_eq!(hex(&w.hash), FIRST_COMMIT_HASH);
}

#[test]
fn hex_conversions() {
    let h = sha(HELLO_HASH);
    assert_eq!(h[0], 0xce);
    assert_eq!(h[19], 0x4a);
    assert_eq!(hex(&h), HELLO_HASH);
    assert_eq!(sha(&HELLO_HASH.to_uppercase()), h);
    assert_eq!(entry(TreeEntryPermission::RegularFile, "a", h).to_hash_hex_string(), HELLO_HASH);
}

#[test]
fn bad_hex_is_rejected() {
    let bad = [&HELLO_HASH[..39], &HELLO_HASH[..38], "zz", "", &"g".repeat(40)];
    for s in bad {
        assert_eq!(ObjectStorage::hex_string_to_sha(s), Err(ObjectError::InvalidHashEncoding));
    }
}

#[test]
fn object_paths() {
    assert_eq!(ObjectStorage::get_dir_for_hash(HELLO_HASH).unwrap(), ".git/objects/ce");
    assert_eq!(
        ObjectStorage::get_path_for_hash(HELLO_HASH).unwrap(),
        ".git/objects/ce/013625030ba8dba906f756967f9e9ca394464a"
    );
    assert_eq!(ObjectStorage::get_dir_for_hash("c"), Err(ObjectError::InvalidHashEncoding));
    assert_eq!(
        ObjectStorage::git_object_path(&sha(HELLO_HASH)),
        ".git/objects/ce/013625030ba8dba906f756967f9e9ca394464a"
    );
}

#[test]
fn blob_as_str() {
    assert_eq!(Blob::from(b"hello\n").as_str().unwrap(), "hello\n");
    assert_eq!(Blob::from(b"\xff").as_str(), Err(ObjectError::MalformedObject));
}

#[test]
fn checkout_steps_follow_the_object_kind() {
    let blob = GitObject::Blob(Blob::from(b"x"));
    assert!(matches!(
        ObjectStorage::checkout_step(blob, Expected::Blob),
        Ok(CheckoutStep::Write(v)) if v == b"x".to_vec()
    ));
    let c = GitObject::Commit(commit(vec![], "m"));
    assert!(matches!(
        ObjectStorage::checkout_step(c, Expected::Any),
        Ok(CheckoutStep::Descend(t)) if t == sha(A_TXT_TREE_HASH)
    ));
    let c = GitObject::Commit(commit(vec![], "m"));
    assert!(matches!(
        ObjectStorage::checkout_step(c, Expected::Tree),
        Err(ObjectError::UnexpectedObjectKind)
    ));
    let t = GitObject::Tree(Tree::from_entries(vec![]));
    assert!(matches!(
        ObjectStorage::checkout_step(t, Expected::Blob),
        Err(ObjectError::UnexpectedObjectKind)
    ));
    assert_eq!(TreeEntryPermission::Directory.materialization(), Materialize::Directory);
    assert_eq!(TreeEntryPermission::Executable.materialization(), Materialize::ExecutableFile);
    assert_eq!(TreeEntryPermission::SymbolicLink.materialization(), Materialize::SymbolicLink);
    assert_eq!(TreeEntryPermission::RegularFile.expected(), Expected::Blob);
    assert_eq!(TreeEntryPermission::Directory.expected(), Expected::Tree);
}

#[test]
fn end_to_end_in_memory() {
    let blob = Blob::from(b"hello\n");
    let wb = blob.write_to_object_storage().unwrap();
    assert_eq!(hex(&wb.hash), HELLO_HASH);
    let tree = Tree::from_entries(vec![TreeEntry {
        permission: TreeEntryPermission::for_child(false, false, false),
        name: b"a.txt".to_vec(),
        hash: wb.hash,
    }]);
    let wt = tree.write_to_object_storage().unwrap();
    assert_eq!(hex(&wt.hash), A_TXT_TREE_HASH);
    let (_, wc) =
        ObjectStorage::commit_tree(&wt.hash, vec![], b"first".to_vec(), author(), stamp()).unwrap();
    let store = vec![wb, wt, wc];
    let read = |h: &Sha| {
        let w = store.iter().find(|w| &w.hash == h).unwrap();
        GitObject::from_data(&w.compressed).unwrap()
    };
    let commit_hash = store[2].hash;
    let tree_hash = match ObjectStorage::checkout_step(read(&commit_hash), Expected::Any).unwrap() {
        CheckoutStep::Descend(t) => t,
        _ => panic!("expected a commit"),
    };
    let entries = match ObjectStorage::checkout_step(read(&tree_hash), Expected::Tree).unwrap() {
        CheckoutStep::Expand(es) => es,
        _ => panic!("expected a tree"),
    };
    assert_eq!(entries.len(), 1);
    assert_eq!(entries[0].name, b"a.txt".to_vec());
    assert_eq!(entries[0].permission.materialization(), Materialize::File);
    let bytes = match ObjectStorage::checkout_step(
        read(&entries[0].hash),
        entries[0].permission.expected(),
    )
    .unwrap()
    {
        CheckoutStep::Write(v) => v,
        _ => panic!("expected a blob"),
    };
    assert_eq!(bytes, b"hello\n".to_vec());
}

#[test]
fn child_modes_and_exclusion() {
    assert_eq!(TreeEntryPermission::for_child(true, false, true), TreeEntryPermission::Directory);
    assert_eq!(TreeEntryPermission::for_child(false, true, true), TreeEntryPermission::SymbolicLink);
    assert_eq!(TreeEntryPermission::for_child(false, false, true), TreeEntryPermission::Executable);
    assert_eq!(TreeEntryPermission::for_child(false, false, false), TreeEntryPermission::RegularFile);
    assert!(ObjectStorage::is_excluded(b".git"));
    assert!(!ObjectStorage::is_excluded(b".gitignore"));
    assert!(!ObjectStorage::is_excluded(b"git"));
}

#[test]
fn listing_lines() {
    let e = entry(TreeEntryPermission::RegularFile, "a.txt", sha(HELLO_HASH));
    assert_eq!(e.listing_line(true), b"a.txt".to_vec());
    assert_eq!(e.listing_line(false), format!("100644 a.txt {}", HELLO_HASH).into_bytes());
}

#[test]
fn object_paths_split_at_bytes() {
    assert_eq!(ObjectStorage::get_dir_for_hash("é").unwrap(), ".git/objects/é");
    assert_eq!(ObjectStorage::get_path_for_hash("é").unwrap(), ".git/objects/é/");
    assert_eq!(ObjectStorage::get_dir_for_hash("aé"), Err(ObjectError::InvalidHashEncoding));
    assert_eq!(ObjectStorage::get_path_for_hash("aé"), Err(ObjectError::InvalidHashEncoding));
    assert_eq!(ObjectStorage::get_path_for_hash("abc").unwrap(), ".git/objects/ab/c");
    assert_eq!(ObjectStorage::get_dir_for_hash(""), Err(ObjectError::InvalidHashEncoding));
}

#[test]
fn uncompressed_object_bytes_are_malformed() {
    assert!(matches!(
        GitObject::from_data(b"blob 6\0hello\n"),
        Err(ObjectError::MalformedObject)
    ));
}

#[test]
fn second_identical_write_succeeds_with_same_result() {
    let tree = Tree::from_entries(vec![entry(
        TreeEntryPermission::RegularFile,
        "a.txt",
        sha(HELLO_HASH),
    )]);
    let w1 = tree.write_to_object_storage().unwrap();
    let w2 = tree.write_to_object_storage().unwrap();
    assert_eq!(w1.hash, w2.hash);
    assert_eq!(w1.path, w2.path);
    assert_eq!(w1.compressed, w2.compressed);
    match GitObject::from_data(&w2.compressed).unwrap() {
        GitObject::Tree(t) => assert_eq!(t.entries[0].name, b"a.txt".to_vec()),
        _ => panic!("not a tree"),
    }
}
