use torrent::encoding::{be_encode, BeNode};
use torrent::utils::sha::Sha1;
use torrent::utils::{
    add_file_entry, check_file_list, filepath_concat, hash_decision, pieces_paths,
    produce_pieces_hash, split_path, try_produce_pieces_hash, BLOCK_SIZE,
};

fn strings(v: &[&str]) -> Vec<String> {
    v.iter().map(|s| s.to_string()).collect()
}

fn hex_to_chars(hex: &str) -> String {
    (0..hex.len())
        .step_by(2)
        .map(|i| char::from(u8::from_str_radix(&hex[i..i + 2], 16).unwrap()))
        .collect()
}

fn file_list() -> BeNode {
    let mut files = BeNode::LIST(vec![]);
    add_file_entry(&mut files, 3, &split_path(&strings(&["a", "x.txt"])));
    add_file_entry(&mut files, 7, &split_path(&strings(&["y.txt"])));
    files
}

#[test]
fn split_path_gives_string_nodes() {
    assert_eq!(
        split_path(&strings(&["dir", "sub", "f.txt"])),
        vec![
            BeNode::STR(String::from("dir")),
            BeNode::STR(String::from("sub")),
            BeNode::STR(String::from("f.txt")),
        ]
    );
}

#[test]
fn filepath_concat_appends_the_names() {
    let names = split_path(&strings(&["a", "b.txt"]));
    assert_eq!(
        filepath_concat(&strings(&["root"]), &names),
        strings(&["root", "a", "b.txt"])
    );
    assert_eq!(filepath_concat(&vec![], &names), strings(&["a", "b.txt"]));
}

#[test]
fn add_file_entry_appends_a_dictionary() {
    let files = file_list();
    assert_eq!(
        be_encode(&files),
        "ld6:lengthi3e4:pathl1:a5:x.txteed6:lengthi7e4:pathl5:y.txteee"
    );
}

#[test]
fn file_lists_are_recognised() {
    assert!(check_file_list(&file_list()));
    assert!(check_file_list(&BeNode::LIST(vec![])));
    assert!(!check_file_list(&BeNode::NUM(1)));
    assert!(!check_file_list(&BeNode::LIST(vec![BeNode::NUM(1)])));
    assert!(!check_file_list(&BeNode::LIST(vec![BeNode::DICT(vec![])])));
    let bad = BeNode::LIST(vec![BeNode::DICT(vec![(
        String::from("path"),
        BeNode::LIST(vec![BeNode::NUM(3)]),
    )])]);
    assert!(!check_file_list(&bad));
}

#[test]
fn pieces_paths_of_a_file_list() {
    let paths = pieces_paths(&strings(&["top"]), &file_list());
    assert_eq!(
        paths,
        vec![strings(&["top", "a", "x.txt"]), strings(&["top", "y.txt"])]
    );
}

#[test]
fn pieces_of_one_full_piece() {
    let contents = vec!["a".repeat(100_000), "a".repeat(156_000)];
    assert_eq!(
        produce_pieces_hash(&contents),
        hex_to_chars("16cf3f5a25d778bb7af1c4d150392d5eadbd7672")
    );
}

#[test]
fn pieces_with_bytes_left_end_with_the_raw_state() {
    let contents = vec!["a".repeat(BLOCK_SIZE), String::from("xyz")];
    let expected = hex_to_chars("16cf3f5a25d778bb7af1c4d150392d5eadbd7672")
        + &hex_to_chars("67452301efcdab8998badcfe10325476c3d2e1f0");
    assert_eq!(produce_pieces_hash(&contents), expected);
}

#[test]
fn pieces_of_no_content() {
    assert_eq!(produce_pieces_hash(&vec![]), "");
    assert_eq!(produce_pieces_hash(&vec![String::new()]), "");
}

#[test]
fn pieces_are_cut_across_files() {
    let contents = vec!["ab".repeat(50_000), "ab".repeat(78_000)];
    assert_eq!(
        produce_pieces_hash(&contents),
        hex_to_chars("dc82e645da9466e0caffcba3c1452c55c3a3bbc3")
    );
}

#[test]
fn non_ascii_content_can_overfill_a_piece() {
    // the first file fills the piece with characters, which take more bytes
    let first = "\u{e9}".repeat(BLOCK_SIZE);
    let contents = vec![first, String::from("x")];
    assert_eq!(try_produce_pieces_hash(&contents), None);
}

#[test]
fn hash_decision_reports_completed_pieces() {
    let mut hash = Sha1::new();
    hash.update(&vec![b'a'; 100_000]);
    let out = hash_decision(&"a".repeat(200_000), &mut hash);
    assert_eq!(out, hex_to_chars("16cf3f5a25d778bb7af1c4d150392d5eadbd7672"));
    assert_eq!(hash.size, 44_000);
}
