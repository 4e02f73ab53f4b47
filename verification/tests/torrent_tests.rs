use torrent::encoding::{be_encode, BeNode};
use torrent::torrent::{Torrent, TorrentSource};

#[test]
fn torrent_of_a_single_file() {
    let node = Torrent::newNode(String::from("a.txt"), TorrentSource::File { length: 5 });
    assert_eq!(
        be_encode(&node),
        "d8:announce21:http://localhost:80804:infod6:lengthi5e4:name5:a.txt13:pieces lengthi256000eee"
    );
}

#[test]
fn torrent_of_a_directory() {
    let files = BeNode::LIST(vec![]);
    let node = Torrent::newNode(
        String::from("dir"),
        TorrentSource::Directory { files, pieces: String::from("xy") },
    );
    assert_eq!(
        be_encode(&node),
        "d8:announce21:http://localhost:80804:infod5:filesle4:name3:dir6:pieces2:xy13:pieces lengthi256000eee"
    );
}

#[test]
fn torrent_new_has_no_pieces() {
    let _t: Torrent = Torrent::new(1_700_000_000);
}
