//! Torrent metainfo decoding: info hash, file tree, flattening.

use ygege::bencode::{decode, encode, parse_value, BValue};
use ygege::filetree::{build_file_tree, flatten_tree, parse_torrent_files, FileNode, TorrentFile};
use ygege::infohash::calculate_torrent_hash;
use ygege::YggError;

fn multi_file_doc() -> Vec<u8> {
    b"d8:announce31:http://tracker.invalid/announce4:infod5:filesld6:lengthi20e4:pathl6:READMEeed6:lengthi1682177e4:pathl6:images22:melk-abbey-library.jpgeed6:lengthi17614527e4:pathl6:images35:LOC_Main_Reading_Room_Highsmith.jpgeee4:name14:library-sample12:piece lengthi262144e6:pieces20:\x01\x01\x01\x01\x01\x01\x01\x01\x01\x01\x01\x01\x01\x01\x01\x01\x01\x01\x01\x01ee".to_vec()
}

fn single_file_doc() -> Vec<u8> {
    b"d4:infod6:lengthi42e4:name10:single.bin12:piece lengthi16384e6:pieces20:\x02\x02\x02\x02\x02\x02\x02\x02\x02\x02\x02\x02\x02\x02\x02\x02\x02\x02\x02\x02ee".to_vec()
}

#[test]
fn multi_file_info_hash() {
    let doc = multi_file_doc();
    let hash = calculate_torrent_hash(&doc).expect("hash");
    assert_eq!(hash.len(), 40);
    assert_eq!(hash, "4d964f92c26a221952c472914a8f566dea3fb6c0");
}

#[test]
fn info_hash_is_deterministic() {
    let doc = multi_file_doc();
    let first = calculate_torrent_hash(&doc).expect("hash");
    let second = calculate_torrent_hash(&doc).expect("hash");
    assert_eq!(first, second);
    assert_eq!(first.len(), 40);
}

#[test]
fn single_file_info_hash() {
    let doc = single_file_doc();
    let hash = calculate_torrent_hash(&doc).expect("hash");
    assert_eq!(hash, "4bddfa2154e63539356cee8a266c1dbe73e04c7d");
}

#[test]
fn info_hash_rejects_garbage() {
    let doc = b"not bencode at all".to_vec();
    assert_eq!(calculate_torrent_hash(&doc), Err(YggError::Decode));
    let no_info = b"d8:announce3:abce".to_vec();
    assert_eq!(calculate_torrent_hash(&no_info), Err(YggError::Decode));
}

#[test]
fn multi_file_tree_sizes() {
    let doc = multi_file_doc();
    let tree = parse_torrent_files(&doc).expect("tree");
    assert_eq!(tree.get_size(), 19296724);
    assert_eq!(tree.get_name(), "library-sample");
    match &tree {
        FileNode::Directory { children, .. } => {
            let readme = children.iter().find(|n| n.get_name() == "README");
            assert!(readme.is_some());
            assert_eq!(readme.unwrap().get_size(), 20);
            let images = children.iter().find(|n| n.get_name() == "images");
            assert!(images.is_some());
            let images = images.unwrap();
            assert_eq!(images.get_size(), 19296704);
            match images {
                FileNode::Directory { children, .. } => {
                    let melk = children.iter().find(|n| n.get_name() == "melk-abbey-library.jpg");
                    assert!(melk.is_some());
                    assert_eq!(melk.unwrap().get_size(), 1682177);
                    let loc = children
                        .iter()
                        .find(|n| n.get_name() == "LOC_Main_Reading_Room_Highsmith.jpg");
                    assert!(loc.is_some());
                    assert_eq!(loc.unwrap().get_size(), 17614527);
                },
                FileNode::File { .. } => panic!("images should be a directory"),
            }
        },
        FileNode::File { .. } => panic!("expected a directory root"),
    }
}

#[test]
fn single_file_tree() {
    let doc = single_file_doc();
    let tree = parse_torrent_files(&doc).expect("tree");
    match &tree {
        FileNode::File { name, size } => {
            assert_eq!(name, "single.bin");
            assert_eq!(*size, 42);
        },
        FileNode::Directory { .. } => panic!("expected a single file"),
    }
}

#[test]
fn flatten_tree_lists_full_paths() {
    let doc = multi_file_doc();
    let tree = parse_torrent_files(&doc).expect("tree");
    let flat = flatten_tree(&tree);
    assert_eq!(flat.len(), 3);
    let mut paths: Vec<String> = flat.iter().map(|p| p.0.clone()).collect();
    paths.sort();
    assert!(paths.contains(&"library-sample/README".to_string()));
    assert!(paths.contains(&"library-sample/images/melk-abbey-library.jpg".to_string()));
    assert!(
        paths.contains(&"library-sample/images/LOC_Main_Reading_Room_Highsmith.jpg".to_string())
    );
    let readme = flat.iter().find(|p| p.0.ends_with("README")).unwrap();
    assert_eq!(readme.1, 20);
}

#[test]
fn directory_sizes_sum_recursively() {
    // every directory's size must equal the sum of its children's sizes
    let files = vec![
        TorrentFile { length: 5, path: vec!["a".to_string(), "x".to_string()] },
        TorrentFile { length: 7, path: vec!["a".to_string(), "y".to_string()] },
        TorrentFile { length: 11, path: vec!["b".to_string()] },
    ];
    let tree = build_file_tree("root".to_string(), files).expect("tree");
    assert_eq!(tree.get_size(), 23);
    match &tree {
        FileNode::Directory { children, size, .. } => {
            let total: i64 = children.iter().map(|c| c.get_size()).sum();
            assert_eq!(*size, total);
            let a = children.iter().find(|n| n.get_name() == "a").unwrap();
            assert_eq!(a.get_size(), 12);
            let b = children.iter().find(|n| n.get_name() == "b").unwrap();
            assert_eq!(b.get_size(), 11);
        },
        FileNode::File { .. } => panic!("expected a directory"),
    }
}

#[test]
fn build_file_tree_rejects_negative_lengths() {
    let files = vec![TorrentFile { length: -1, path: vec!["a".to_string()] }];
    assert!(build_file_tree("root".to_string(), files).is_err());
}

#[test]
fn build_file_tree_rejects_name_conflicts() {
    // one name cannot be both a file and a directory
    let files = vec![
        TorrentFile { length: 1, path: vec!["a".to_string()] },
        TorrentFile { length: 2, path: vec!["a".to_string(), "b".to_string()] },
    ];
    assert!(build_file_tree("root".to_string(), files).is_err());
}

#[test]
fn build_file_tree_rejects_duplicate_paths() {
    let files = vec![
        TorrentFile { length: 1, path: vec!["a".to_string()] },
        TorrentFile { length: 2, path: vec!["a".to_string()] },
    ];
    assert!(build_file_tree("root".to_string(), files).is_err());
}

#[test]
fn tree_leaves_are_exactly_the_declared_files() {
    let files = vec![
        TorrentFile { length: 5, path: vec!["docs".to_string(), "a.txt".to_string()] },
        TorrentFile { length: 7, path: vec!["b.txt".to_string()] },
        TorrentFile { length: 11, path: vec!["docs".to_string(), "c.txt".to_string()] },
    ];
    let tree = build_file_tree("root".to_string(), files).expect("tree");
    let mut flat = flatten_tree(&tree);
    flat.sort();
    assert_eq!(flat, vec![
        ("root/b.txt".to_string(), 7),
        ("root/docs/a.txt".to_string(), 5),
        ("root/docs/c.txt".to_string(), 11),
    ]);
    // sibling names never repeat
    match &tree {
        FileNode::Directory { children, .. } => {
            let mut names: Vec<&str> = children.iter().map(|c| c.get_name()).collect();
            names.sort();
            names.dedup();
            assert_eq!(names.len(), children.len());
        },
        FileNode::File { .. } => panic!("expected a directory"),
    }
}

#[test]
fn malformed_documents_never_yield_a_tree() {
    assert!(parse_torrent_files(&b"garbage".to_vec()).is_err());
    // a document without an info dictionary
    assert!(parse_torrent_files(&b"d4:spam3:egge".to_vec()).is_err());
    // an info dictionary without a name
    assert!(parse_torrent_files(&b"d4:infod6:lengthi1eee".to_vec()).is_err());
    // a multi-file info without a files list
    assert!(parse_torrent_files(&b"d4:infod4:name1:xee".to_vec()).is_err());
    // a negative single-file length
    assert!(parse_torrent_files(&b"d4:infod6:lengthi-1e4:name1:xee".to_vec()).is_err());
}

#[test]
fn decode_round_trips_canonical_documents() {
    for doc in [multi_file_doc(), single_file_doc()] {
        let v = decode(&doc).expect("decode");
        let re = encode(&v);
        assert_eq!(re, doc);
    }
}

#[test]
fn decode_accepts_plain_values() {
    let v = decode(&b"i-37e".to_vec()).expect("int");
    match v {
        BValue::Int(i) => assert_eq!(i, -37),
        _ => panic!("expected an integer"),
    }
    let v = decode(&b"4:spam".to_vec()).expect("bytes");
    match v {
        BValue::Bytes(b) => assert_eq!(b, b"spam".to_vec()),
        _ => panic!("expected bytes"),
    }
    let v = decode(&b"li1ei2ee".to_vec()).expect("list");
    match v {
        BValue::List(items) => assert_eq!(items.len(), 2),
        _ => panic!("expected a list"),
    }
}

#[test]
fn decode_rejects_malformed_input() {
    // leading zero in an integer
    assert!(decode(&b"i03e".to_vec()).is_none());
    // negative zero
    assert!(decode(&b"i-0e".to_vec()).is_none());
    // leading zero in a length prefix
    assert!(decode(&b"02:ab".to_vec()).is_none());
    // unsorted dictionary keys
    assert!(decode(&b"d1:bi1e1:ai2ee".to_vec()).is_none());
    // duplicate dictionary keys
    assert!(decode(&b"d1:ai1e1:ai2ee".to_vec()).is_none());
    // trailing bytes after the document
    assert!(decode(&b"i1ejunk".to_vec()).is_none());
    // truncated string
    assert!(decode(&b"9:ab".to_vec()).is_none());
    // unclosed list
    assert!(decode(&b"li1e".to_vec()).is_none());
}

#[test]
fn parse_value_reports_spans() {
    let bytes = b"i12e tail".to_vec();
    let (v, end) = parse_value(&bytes, 0).expect("value");
    match v {
        BValue::Int(i) => assert_eq!(i, 12),
        _ => panic!("expected an integer"),
    }
    assert_eq!(end, 4);
}
