use torrent::encoding::{
    be_decode, be_decode_dict, be_decode_list, be_decode_num, be_decode_rec, be_decode_str,
    be_encode, dict_get, dict_insert, BeNode,
};

fn chars(s: &str) -> Vec<char> {
    s.chars().collect()
}

#[test]
fn decode_positive_number() {
    assert_eq!(be_decode(String::from("i42e")), BeNode::NUM(42));
}

#[test]
fn decode_negative_number() {
    assert_eq!(be_decode(String::from("i-17e")), BeNode::NUM(-17));
}

#[test]
fn decode_number_moves_past_the_e() {
    let buf = chars("i305e3:abc");
    let mut idx = 0;
    assert_eq!(be_decode_num(&buf, &mut idx), BeNode::NUM(305));
    assert_eq!(idx, 5);
}

#[test]
fn decode_number_without_closing_e() {
    let buf = chars("i12");
    let mut idx = 0;
    assert_eq!(be_decode_num(&buf, &mut idx), BeNode::NUM(12));
    assert_eq!(idx, 4);
}

#[test]
fn decode_largest_number() {
    assert_eq!(
        be_decode(String::from("i9223372036854775807e")),
        BeNode::NUM(i64::MAX)
    );
}

#[test]
fn decode_string() {
    let buf = chars("4:spamxyz");
    let mut idx = 0;
    assert_eq!(be_decode_str(&buf, &mut idx), BeNode::STR(String::from("spam")));
    assert_eq!(idx, 6);
}

#[test]
fn decode_string_counts_characters() {
    assert_eq!(be_decode(String::from("2:\u{e9}t")), BeNode::STR(String::from("\u{e9}t")));
}

#[test]
fn decode_empty_string() {
    assert_eq!(be_decode(String::from("0:")), BeNode::STR(String::new()));
}

#[test]
fn decode_list() {
    assert_eq!(
        be_decode(String::from("l4:spami-3ee")),
        BeNode::LIST(vec![BeNode::STR(String::from("spam")), BeNode::NUM(-3)])
    );
}

#[test]
fn decode_nested_list() {
    let buf = chars("lli1ei2eel0:ee");
    let mut idx = 0;
    assert_eq!(
        be_decode_list(&buf, &mut idx),
        BeNode::LIST(vec![
            BeNode::LIST(vec![BeNode::NUM(1), BeNode::NUM(2)]),
            BeNode::LIST(vec![BeNode::STR(String::new())]),
        ])
    );
    assert_eq!(idx, 14);
}

#[test]
fn decode_unterminated_list() {
    let buf = chars("li7e");
    let mut idx = 0;
    assert_eq!(be_decode_list(&buf, &mut idx), BeNode::LIST(vec![BeNode::NUM(7)]));
    assert_eq!(idx, 5);
}

#[test]
fn decode_dict_reads_only_its_opening() {
    let buf = chars("d3:keyi1ee");
    let mut idx = 0;
    assert_eq!(be_decode_dict(&buf, &mut idx), BeNode::DICT(vec![]));
    assert_eq!(idx, 1);
}

#[test]
fn decode_rec_dispatches_on_the_first_character() {
    let buf = chars("i1e1:xle");
    let mut idx = 0;
    assert_eq!(be_decode_rec(&buf, &mut idx), BeNode::NUM(1));
    assert_eq!(be_decode_rec(&buf, &mut idx), BeNode::STR(String::from("x")));
    assert_eq!(be_decode_rec(&buf, &mut idx), BeNode::LIST(vec![]));
    assert_eq!(idx, 8);
}

#[test]
fn encode_number() {
    assert_eq!(be_encode(&BeNode::NUM(0)), "i0e");
    assert_eq!(be_encode(&BeNode::NUM(-42)), "i-42e");
    assert_eq!(be_encode(&BeNode::NUM(i64::MIN)), "i-9223372036854775808e");
}

#[test]
fn encode_string_gives_its_byte_length() {
    assert_eq!(be_encode(&BeNode::STR(String::from("spam"))), "4:spam");
    assert_eq!(be_encode(&BeNode::STR(String::from("\u{e9}t"))), "3:\u{e9}t");
}

#[test]
fn encode_list() {
    let node = BeNode::LIST(vec![BeNode::STR(String::from("spam")), BeNode::NUM(42)]);
    assert_eq!(be_encode(&node), "l4:spami42ee");
}

#[test]
fn encode_dict_in_key_order() {
    let mut entries = Vec::new();
    dict_insert(&mut entries, String::from("spam"), BeNode::NUM(1));
    dict_insert(&mut entries, String::from("cow"), BeNode::STR(String::from("moo")));
    assert_eq!(be_encode(&BeNode::DICT(entries)), "d3:cow3:moo4:spami1ee");
}

#[test]
fn decode_of_encode_gives_the_value_back() {
    let node = BeNode::LIST(vec![
        BeNode::NUM(-7),
        BeNode::STR(String::from("hello")),
        BeNode::LIST(vec![BeNode::NUM(i64::MAX), BeNode::STR(String::new())]),
    ]);
    assert_eq!(be_decode(be_encode(&node)), node);
}

#[test]
fn dict_insert_replaces_and_keeps_order() {
    let mut d = Vec::new();
    dict_insert(&mut d, String::from("name"), BeNode::NUM(1));
    dict_insert(&mut d, String::from("files"), BeNode::NUM(2));
    dict_insert(&mut d, String::from("pieces length"), BeNode::NUM(3));
    dict_insert(&mut d, String::from("pieces"), BeNode::NUM(4));
    dict_insert(&mut d, String::from("name"), BeNode::NUM(5));
    let keys: Vec<&str> = d.iter().map(|(k, _)| k.as_str()).collect();
    assert_eq!(keys, vec!["files", "name", "pieces", "pieces length"]);
    assert_eq!(dict_get(&d, &String::from("name")), Some(&BeNode::NUM(5)));
    assert_eq!(dict_get(&d, &String::from("length")), None);
}

#[test]
fn decode_encoding_in_the_middle_of_a_buffer() {
    let node = BeNode::LIST(vec![BeNode::NUM(12), BeNode::STR(String::from("ab"))]);
    let enc = be_encode(&node);
    let text = format!("xx{}i5e", enc);
    let buf = chars(&text);
    let mut idx = 2;
    assert_eq!(be_decode_rec(&buf, &mut idx), node);
    assert_eq!(idx, 2 + enc.len());
}

#[test]
fn decode_list_past_the_end_of_the_buffer() {
    let buf = chars("i1e");
    let mut idx = 3;
    assert_eq!(be_decode_list(&buf, &mut idx), BeNode::LIST(vec![]));
    assert_eq!(idx, 5);
}

#[test]
fn dictionaries_compare_as_maps() {
    let a = BeNode::DICT(vec![
        (String::from("x"), BeNode::NUM(1)),
        (String::from("y"), BeNode::STR(String::from("v"))),
    ]);
    let b = BeNode::DICT(vec![
        (String::from("y"), BeNode::STR(String::from("v"))),
        (String::from("x"), BeNode::NUM(1)),
    ]);
    assert_eq!(a, b);
    let c = BeNode::DICT(vec![
        (String::from("x"), BeNode::NUM(2)),
        (String::from("y"), BeNode::STR(String::from("v"))),
    ]);
    assert_ne!(a, c);
    assert_ne!(a, BeNode::DICT(vec![(String::from("x"), BeNode::NUM(1))]));
    assert_ne!(BeNode::NUM(1), BeNode::STR(String::from("1")));
    assert_ne!(
        BeNode::LIST(vec![BeNode::NUM(1), BeNode::NUM(2)]),
        BeNode::LIST(vec![BeNode::NUM(2), BeNode::NUM(1)])
    );
}
