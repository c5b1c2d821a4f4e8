use zung::decode;
use zung::files::{FileNode, SortOrd};
use zung::infohash::InfoHash;
use zung::meta_info::{FileAttr, Files, Info, MetaInfo, MultiFiles, Pieces};
use zung::peer_id::PeerID;
use zung::reader::read_raw;
use zung::sources::{DownloadSources, HttpSeederRequest};

const TEST_PID: u32 = 4242;

const SERIALIZED_BYTES: &[u8; 63] = b"60:\x01\x01\x01\x01\x01\x01\x01\x01\x01\x01\x01\x01\x01\x01\x01\x01\x01\x01\x01\x01\x02\x02\x02\x02\x02\x02\x02\x02\x02\x02\x02\x02\x02\x02\x02\x02\x02\x02\x02\x02\x03\x03\x03\x03\x03\x03\x03\x03\x03\x03\x03\x03\x03\x03\x03\x03\x03\x03\x03\x03";

fn pieces_of(n: u8) -> Pieces {
    let mut raw = Vec::new();
    for i in 0..n {
        raw.extend_from_slice(&[i + 1; 20]);
    }
    Pieces::from_bytes(&raw).unwrap()
}

#[test]
fn test_pieces_deserialization() {
    let v = decode(SERIALIZED_BYTES).unwrap();
    let pieces = Pieces::from_bytes(read_raw(&v).unwrap()).unwrap();
    assert_eq!(pieces.as_slice().to_vec(), vec![[1; 20], [2; 20], [3; 20]]);
}

#[test]
fn test_pieces_invalid_length() {
    let input = b"61:\x01\x01\x01\x01\x01\x01\x01\x01\x01\x01\x01\x01\x01\x01\x01\x01\x01\x01\x01\x01\x02";
    let result = decode(input).and_then(|v| read_raw(&v).map(|b| b.to_vec()));
    assert!(result.is_err() || Pieces::from_bytes(&result.unwrap()).is_err());
}

#[test]
fn pieces_must_be_a_multiple_of_twenty() {
    assert!(Pieces::from_bytes(&[7u8; 59]).is_err());
    assert!(Pieces::from_bytes(&[7u8; 61]).is_err());
    let p = Pieces::from_bytes(&[7u8; 60]).unwrap();
    assert_eq!(p.len(), 3);
    assert_eq!(Pieces::from_bytes(&[]).unwrap().len(), 0);
}

#[test]
fn test_torrent_size() {
    let info = Info {
        piece_length: 1024,
        pieces: pieces_of(3),
        private: None,
        files: Files::SingleFile { length: 4096, md5sum: None, attr: None },
        name: "test_file.txt".to_string(),
    };
    assert_eq!(info.torrent_size(), 3 * 1024);
}

#[test]
fn test_build_file_tree_single_file() {
    let info = Info {
        piece_length: 1024,
        pieces: pieces_of(3),
        private: None,
        files: Files::SingleFile { length: 4096, md5sum: None, attr: None },
        name: "test_file.txt".to_string(),
    };
    let file_tree = info.build_file_tree();
    match file_tree.node {
        FileNode::File { name, length } => {
            assert_eq!(name, "test_file.txt");
            assert_eq!(length, 4096);
        }
        _ => panic!("Expected a file node"),
    }
    assert_eq!(file_tree.num_of_files, 1);
}

fn multi(length: usize, path: &[&str], attr: Option<FileAttr>) -> MultiFiles {
    MultiFiles { length, md5sum: None, path: path.iter().map(|s| s.to_string()).collect(), attr }
}

#[test]
fn test_build_file_tree_multi_file() {
    let files = vec![multi(1024, &["folder", "file1.txt"], None), multi(2048, &["folder", "file2.txt"], None)];
    let info = Info {
        piece_length: 1024,
        pieces: pieces_of(3),
        private: None,
        files: Files::MultiFile { files },
        name: "root_folder".to_string(),
    };
    let file_tree = info.build_file_tree();
    match file_tree.node {
        FileNode::Dir { parent, children, length } => {
            assert_eq!(parent, "root_folder");
            assert_eq!(length, 3072);
            assert_eq!(children.len(), 1);
            assert_eq!(children[0].0, "folder");
            match &children[0].1 {
                FileNode::Dir { children, length, .. } => {
                    assert_eq!(*length, 3072);
                    assert_eq!(children.len(), 2);
                    match &children[0].1 {
                        FileNode::File { name, length } => {
                            assert_eq!(name, "file1.txt");
                            assert_eq!(*length, 1024);
                        }
                        _ => panic!("Expected a file node"),
                    }
                    match &children[1].1 {
                        FileNode::File { name, length } => {
                            assert_eq!(name, "file2.txt");
                            assert_eq!(*length, 2048);
                        }
                        _ => panic!("Expected a file node"),
                    }
                }
                _ => panic!("Expected a directory node for 'folder'"),
            }
        }
        _ => panic!("Expected a directory node for 'root_folder'"),
    }
}

#[test]
fn padding_files_are_left_out() {
    let files = vec![
        multi(10, &["d", "a"], None),
        multi(5, &["d", ".pad", "5"], Some(FileAttr::Padding)),
        multi(20, &["d", "b"], Some(FileAttr::from_text("x".to_string()))),
    ];
    let info = Info {
        piece_length: 16,
        pieces: pieces_of(2),
        private: None,
        files: Files::MultiFile { files },
        name: "t".to_string(),
    };
    let tree = info.build_file_tree();
    assert_eq!(tree.number_of_files(), 2);
    match &tree.node {
        FileNode::Dir { children, .. } => {
            assert_eq!(children.len(), 1);
            assert_eq!(children[0].0, "d");
        }
        _ => panic!("Expected a directory"),
    }
    assert_eq!(tree.node.len(), 30);
    match &tree.node {
        FileNode::Dir { children, .. } => match &children[0].1 {
            FileNode::Dir { children, .. } => assert_eq!(children.len(), 2),
            _ => panic!("Expected a directory"),
        },
        _ => panic!("Expected a directory"),
    }
}

#[test]
fn add_child_replaces_a_file_and_keeps_lengths() {
    let p1 = vec!["a".to_string(), "x".to_string()];
    let p2 = vec!["b".to_string()];
    let root = FileNode::new_dir("r").add_child(&p1, 0, 10).add_child(&p2, 0, 5);
    assert_eq!(root.len(), 15);
    let root = root.add_child(&p1, 0, 3);
    assert_eq!(root.len(), 8);
    let p3 = vec!["b".to_string(), "c".to_string()];
    let root = root.add_child(&p3, 0, 4);
    assert_eq!(root.len(), 7);
    match &root {
        FileNode::Dir { children, .. } => {
            assert_eq!(children.len(), 2);
            assert!(matches!(children[1].1, FileNode::Dir { length: 4, .. }));
        }
        _ => panic!("Expected a directory"),
    }
}

#[test]
fn test_create_new_directory() {
    match FileNode::new_dir("root") {
        FileNode::Dir { parent, children, length } => {
            assert_eq!(parent, "root");
            assert_eq!(children.len(), 0);
            assert_eq!(length, 0);
        }
        _ => panic!("Expected a directory node!"),
    }
}

#[test]
fn test_create_new_file() {
    match FileNode::new_file("file.txt", 1024) {
        FileNode::File { name, length } => {
            assert_eq!(name, "file.txt");
            assert_eq!(length, 1024);
        }
        _ => panic!("Expected a file node!"),
    }
}

#[test]
fn test_add_file_to_directory() {
    let root = FileNode::new_dir("root");
    let path = vec![String::from("file.txt")];
    let root = root.add_child(&path, 0, 512);
    match root {
        FileNode::Dir { ref children, length, .. } => {
            assert_eq!(children.len(), 1);
            assert_eq!(length, 512);
            match &children[0].1 {
                FileNode::File { name, length } => {
                    assert_eq!(name, "file.txt");
                    assert_eq!(*length, 512);
                }
                _ => panic!("Expected a file node!"),
            }
        }
        _ => panic!("Expected a directory node!"),
    }
}

const DOC: &[u8] = b"d8:announce31:http://tracker.example/announce13:creation datei1711994429e4:infod6:lengthi12e4:name8:file.txt12:piece lengthi16384e6:pieces20:aaaaaaaaaaaaaaaaaaaae5:title4:demoe";

#[test]
fn meta_info_reads_fields() {
    let m = MetaInfo::from_bytes(DOC).unwrap();
    assert_eq!(m.announce(), Some(&"http://tracker.example/announce".to_string()));
    assert_eq!(m.title(), Some(&"demo".to_string()));
    assert_eq!(m.creation_date_raw(), Some(1711994429));
    assert_eq!(m.number_of_pieces(), 1);
    assert_eq!(m.piece_length(), 16384);
    assert_eq!(m.size(), 16384);
    assert_eq!(m.info().name(), "file.txt");
    assert_eq!(m.number_of_trackers(), 1);
    assert_eq!(m.number_of_httpsources(), 0);
    assert!(m.comment().is_none());
    assert!(matches!(m.info().files, Files::SingleFile { length: 12, .. }));
}

#[test]
fn meta_info_requires_info() {
    assert!(MetaInfo::from_bytes(b"d8:announce3:abce").is_err());
    assert!(MetaInfo::from_bytes(b"d4:infod4:name1:a12:piece lengthi1e6:pieces1:xee").is_err());
}

#[test]
fn info_hash_fixture() {
    let h = InfoHash::from_document(DOC).unwrap();
    assert_eq!(h.to_hex(), "3e2ad64942f9f50df7303d627d2278f97e766b7c");
    assert_eq!(
        h.to_url_encoded(),
        "%3e%2a%d6%49%42%f9%f5%0d%f7%30%3d%62%7d%22%78%f9%7e%76%6b%7c"
    );
    assert_eq!(
        h.as_bytes(),
        [62, 42, 214, 73, 66, 249, 245, 13, 247, 48, 61, 98, 125, 34, 120, 249, 126, 118, 107, 124]
    );
    assert_eq!(h.as_encoded().to_url_encoded(), h.to_url_encoded());
}

#[test]
fn info_hash_uses_canonical_order() {
    let unordered: &[u8] = b"d4:infod6:pieces20:aaaaaaaaaaaaaaaaaaaa12:piece lengthi16384e4:name8:file.txt6:lengthi12eee";
    let h = InfoHash::from_document(unordered).unwrap();
    assert_eq!(h.to_hex(), "3e2ad64942f9f50df7303d627d2278f97e766b7c");
    assert!(InfoHash::from_document(b"d3:foo3:bare").is_err());
}

#[test]
fn info_hash_of_plain_bytes() {
    assert_eq!(InfoHash::new(b"test info_hash").to_hex(), "395fe69c8d64d53ef0dd8482f94eb8dddb39699b");
}

#[test]
fn test_default_implementation() {
    let default_peer_id = PeerID::new(TEST_PID);
    let new_peer_id = PeerID::new(TEST_PID);
    assert_eq!(default_peer_id.start, new_peer_id.start);
    assert_eq!(default_peer_id.uid, new_peer_id.uid);
    assert_eq!(default_peer_id.pid, new_peer_id.pid);
    assert_eq!(default_peer_id.end, new_peer_id.end);
}

#[test]
fn test_peer_id_new() {
    let peer_id = PeerID::new(TEST_PID);
    assert_eq!(&peer_id.start, b"-");
    assert_eq!(&peer_id.end, b"-");
    assert_eq!(&peer_id.uid, b"ZG");
    assert_eq!(&peer_id.pid, &TEST_PID.to_be_bytes());
}

#[test]
fn test_peer_id_as_bytes() {
    let peer_id = PeerID::new(1);
    let bytes = peer_id.as_bytes();
    assert_eq!(bytes.len(), 20);
    assert_eq!(bytes[0], b'-');
    assert_eq!(bytes[19], b'-');
    assert_eq!(&bytes[1..3], b"ZG");
    assert_eq!(&bytes[3..7], &peer_id.pid);
    assert_eq!(&bytes[7..19], &peer_id.time);
}

#[test]
fn test_to_url_encoded() {
    let peer_id = PeerID {
        start: *b"-",
        uid: *b"ZG",
        pid: [49, 50, 51, 52],
        time: [53, 54, 55, 56, 57, 65, 66, 67, 68, 69, 70, 71],
        end: *b"-",
    };
    let expected = "%2d%5a%47%31%32%33%34%35%36%37%38%39%41%42%43%44%45%46%47%2d";
    assert_eq!(peer_id.to_url_encoded(), expected);
    assert_eq!(peer_id.to_hex_encode(), "2d5a4731323334353637383941424344454647 2d".replace(' ', ""));
}

#[test]
fn test_peer_id_try_from_valid_bytes() {
    let valid_bytes: [u8; 20] = [
        b'-', b'Z', b'G', 0x00, 0x00, 0x00, 0x01, 0x02, 0x00, 0x01, 0x02, 0x03, 0x04, 0x05, 0x06, 0x07, 0x08, 0x09,
        0x0A, b'-',
    ];
    let peer_id = PeerID::try_from(&valid_bytes[..]);
    assert!(peer_id.is_ok());
    let peer_id = peer_id.unwrap();
    assert_eq!(peer_id.start, *b"-");
    assert_eq!(peer_id.uid, *b"ZG");
    assert_eq!(peer_id.pid, [0x00, 0x00, 0x00, 0x01]);
    assert_eq!(peer_id.end, [b'-']);
}

#[test]
fn test_peer_id_try_from_invalid_bytes() {
    let invalid_bytes: [u8; 19] = [
        b'-', b'Z', b'G', 0x00, 0x00, 0x00, 0x01, 0x00, 0x01, 0x02, 0x03, 0x04, 0x05, 0x06, 0x07, 0x08, 0x09, 0x0A,
        b'-',
    ];
    let peer_id = PeerID::try_from(&invalid_bytes[..]);
    assert!(peer_id.is_err());
    assert_eq!(peer_id.unwrap_err().len, 19);
}

#[test]
fn test_peer_id_eq() {
    let peer_id1 = PeerID::new(TEST_PID);
    let peer_id2 = peer_id1;
    assert_eq!(peer_id1, peer_id2);
    let mut peer_id3 = PeerID::new(TEST_PID);
    peer_id3.uid = *b"ZZ";
    assert_ne!(peer_id1, peer_id3);
}

#[test]
fn test_peer_id_not_eq_different_pid() {
    let mut peer_id1 = PeerID::new(TEST_PID);
    let mut peer_id2 = PeerID::new(TEST_PID);
    peer_id1.pid = [0x00, 0x00, 0x00, 0x02];
    peer_id2.pid = [0x00, 0x00, 0x00, 0x03];
    assert_ne!(peer_id1, peer_id2);
}

#[test]
fn download_sources_choice() {
    let trackers_only = MetaInfo::from_bytes(DOC).unwrap();
    assert!(DownloadSources::new(&trackers_only).unwrap().is_trackers());

    let both: &[u8] = b"d8:announce14:http://t/annou4:infod6:lengthi12e4:name8:file.txt12:piece lengthi1e6:pieces0:e8:url-listl15:http://seed.ex/ee";
    let m = MetaInfo::from_bytes(both).unwrap();
    let s = DownloadSources::new(&m).unwrap();
    assert!(s.is_hybrid());
    let seeders = s.http_seeders().unwrap();
    assert_eq!(seeders.http_seeder_list()[0].1.urls(), &["http://seed.ex/file.txt".to_string()]);

    let seeds_only: &[u8] = b"d4:infod6:lengthi12e4:name8:file.txt12:piece lengthi1e6:pieces0:e8:url-listl15:http://seed.ex/ee";
    let m = MetaInfo::from_bytes(seeds_only).unwrap();
    assert!(DownloadSources::new(&m).unwrap().is_http_seeders());

    let empty_seed: &[u8] = b"d8:announce14:http://t/annou4:infod6:lengthi12e4:name8:file.txt12:piece lengthi1e6:pieces0:e8:url-listl0:ee";
    let m = MetaInfo::from_bytes(empty_seed).unwrap();
    assert!(DownloadSources::new(&m).unwrap().is_trackers());

    let neither: &[u8] = b"d4:infod6:lengthi12e4:name8:file.txt12:piece lengthi1e6:pieces0:ee";
    let m = MetaInfo::from_bytes(neither).unwrap();
    assert!(DownloadSources::new(&m).is_err());
}

#[test]
fn seeder_request_url() {
    let r = HttpSeederRequest::new("http://s/", Some("dir"), "a.txt");
    assert_eq!(r.to_url(), "http://s/dir/a.txt");
    assert_eq!(HttpSeederRequest::new("http://s/", None, "a.txt").to_url(), "http://s/a.txt");
}

fn names(n: &FileNode) -> Vec<String> {
    match n {
        FileNode::Dir { children, .. } => children.iter().map(|c| c.0.clone()).collect(),
        FileNode::File { .. } => Vec::new(),
    }
}

fn sample_tree() -> zung::files::FileTree {
    let files = vec![
        multi(5, &["b.txt"], None),
        multi(30, &["Sub", "z.bin"], None),
        multi(1, &["Sub", "a.bin"], None),
        multi(10, &["a.txt"], None),
    ];
    let info = Info {
        piece_length: 16,
        pieces: pieces_of(1),
        private: None,
        files: Files::MultiFile { files },
        name: "root".to_string(),
    };
    info.build_file_tree()
}

#[test]
fn sort_by_name_ignores_case_and_recurses() {
    let t = sample_tree().sort_by_name(SortOrd::Ascending);
    assert_eq!(names(&t.node), vec!["a.txt", "b.txt", "Sub"]);
    let t = t.sort_by_name(SortOrd::Desending);
    assert_eq!(names(&t.node), vec!["Sub", "b.txt", "a.txt"]);
    match &t.node {
        FileNode::Dir { children, .. } => assert_eq!(names(&children[0].1), vec!["z.bin", "a.bin"]),
        _ => panic!("Expected a directory"),
    }
}

#[test]
fn sort_by_size_orders_by_aggregate_length() {
    let t = sample_tree().sort_by_size(SortOrd::Ascending);
    assert_eq!(names(&t.node), vec!["b.txt", "a.txt", "Sub"]);
    assert_eq!(t.node.len(), 46);
    assert_eq!(t.number_of_files(), 4);
    match &t.node {
        FileNode::Dir { children, .. } => assert_eq!(names(&children[2].1), vec!["a.bin", "z.bin"]),
        _ => panic!("Expected a directory"),
    }
}
