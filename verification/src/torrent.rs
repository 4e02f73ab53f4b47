use crate::encoding::{
    dict_model, key_lt, keys_sorted, lemma_dict_model, lookup, node_model, BeNode, BeValue,
};
use crate::utils::BLOCK_SIZE;
use vstd::prelude::*;

verus! {

/// The description of a torrent.
#[allow(non_snake_case)]
pub struct Torrent {
    // MANDATORY BEP 003
    // https://www.bittorrent.org/beps/bep_0003.html
    announce: String,  // domain name
    creationDate: usize,  // seconds
    author: String,
    filename: String,
    pieces_len: usize,  // number of pieces
    pieces: String,  // concatenation of hashs
}

/// The fields of a torrent description.
pub struct TorrentFields {
    pub announce: Seq<char>,
    pub creation_date: nat,
    pub author: Seq<char>,
    pub filename: Seq<char>,
    pub pieces_len: nat,
    pub pieces: Seq<char>,
}

impl View for Torrent {
    type V = TorrentFields;

    closed spec fn view(&self) -> TorrentFields {
        TorrentFields {
            announce: self.announce@,
            creation_date: self.creationDate as nat,
            author: self.author@,
            filename: self.filename@,
            pieces_len: self.pieces_len as nat,
            pieces: self.pieces@,
        }
    }
}

/// What a torrent is made from: a directory, with the entries of its files and
/// the pieces string of their contents, or a single file, with its length.
pub enum TorrentSource {
    Directory { files: BeNode, pieces: String },
    File { length: i64 },
}

/// The tracker that every torrent announces.
pub open spec fn announce_url() -> Seq<char> {
    "http://localhost:8080"@
}

/// The `info` dictionary of a torrent named `name`, in key order.
pub open spec fn info_value(name: Seq<char>, source: TorrentSource) -> BeValue {
    match source {
        TorrentSource::Directory { files, pieces } => BeValue::Dict(
            seq![
                ("files"@, node_model(files)),
                ("name"@, BeValue::Str(name)),
                ("pieces"@, BeValue::Str(pieces@)),
                ("pieces length"@, BeValue::Num(BLOCK_SIZE as int)),
            ],
        ),
        TorrentSource::File { length } => BeValue::Dict(
            seq![
                ("length"@, BeValue::Num(length as int)),
                ("name"@, BeValue::Str(name)),
                ("pieces length"@, BeValue::Num(BLOCK_SIZE as int)),
            ],
        ),
    }
}

/// The torrent dictionary: the tracker's address and the `info` dictionary.
pub open spec fn torrent_value(name: Seq<char>, source: TorrentSource) -> BeValue {
    BeValue::Dict(
        seq![("announce"@, BeValue::Str(announce_url())), ("info"@, info_value(name, source))],
    )
}

/// The keys of the dictionaries that `torrent_value` builds are in increasing order.
pub proof fn law_torrent_keys_sorted(name: Seq<char>, source: TorrentSource)
    ensures
        keys_sorted(torrent_value(name, source)->Dict_0),
        keys_sorted(info_value(name, source)->Dict_0),
{
    reveal_strlit("announce");
    reveal_strlit("info");
    reveal_strlit("files");
    reveal_strlit("length");
    reveal_strlit("name");
    reveal_strlit("pieces");
    reveal_strlit("pieces length");
    reveal_with_fuel(key_lt, 8);
    assert(key_lt("announce"@, "info"@));
    assert(key_lt("files"@, "name"@));
    assert(key_lt("name"@, "pieces"@));
    assert(key_lt("pieces"@, "pieces length"@)) by {
        let a = "pieces"@;
        let b = "pieces length"@;
        assert(a.drop_first() =~= "ieces"@) by { reveal_strlit("ieces"); }
        assert(b.drop_first() =~= "ieces length"@) by { reveal_strlit("ieces length"); }
    }
    assert(key_lt("files"@, "pieces"@));
    assert(key_lt("files"@, "pieces length"@));
    assert(key_lt("name"@, "pieces length"@));
    assert(key_lt("length"@, "name"@));
    assert(key_lt("length"@, "pieces length"@));
}


/// What the torrent dictionary holds, key by key: the tracker's address under
/// `announce`, and under `info` a dictionary with the given name, the piece length
/// and, for a directory, the given files list and pieces string (no length), for a
/// single file, the given length (no files, no pieces).
pub open spec fn holds_torrent(top: BeValue, name: Seq<char>, source: TorrentSource) -> bool {
    &&& top is Dict
    &&& top->Dict_0.len() == 2
    &&& lookup(top->Dict_0, "announce"@) == Some(BeValue::Str("http://localhost:8080"@))
    &&& lookup(top->Dict_0, "info"@) matches Some(BeValue::Dict(info)) && {
        &&& lookup(info, "name"@) == Some(BeValue::Str(name))
        &&& lookup(info, "pieces length"@) == Some(BeValue::Num(256000))
        &&& match source {
            TorrentSource::Directory { files, pieces } => {
                &&& info.len() == 4
                &&& lookup(info, "files"@) == Some(node_model(files))
                &&& lookup(info, "pieces"@) == Some(BeValue::Str(pieces@))
                &&& lookup(info, "length"@) is None
            },
            TorrentSource::File { length } => {
                &&& info.len() == 3
                &&& lookup(info, "length"@) == Some(BeValue::Num(length as int))
                &&& lookup(info, "files"@) is None
                &&& lookup(info, "pieces"@) is None
            },
        }
    }
}

/// The torrent dictionary holds, under each key, what its inputs give.
pub proof fn law_torrent_contents(name: Seq<char>, source: TorrentSource)
    ensures
        holds_torrent(torrent_value(name, source), name, source),
{
    reveal_strlit("announce");
    reveal_strlit("info");
    reveal_strlit("files");
    reveal_strlit("length");
    reveal_strlit("name");
    reveal_strlit("pieces");
    reveal_strlit("pieces length");
    reveal_strlit("http://localhost:8080");
    reveal_with_fuel(lookup, 6);
    // keys differ by their lengths, or by their first characters
    assert("announce"@.len() == 8 && "info"@.len() == 4);
    assert("files"@.len() == 5 && "name"@.len() == 4 && "pieces"@.len() == 6);
    assert("length"@.len() == 6 && "pieces length"@.len() == 13);
    assert("pieces"@[0] != "length"@[0]);
    assert("pieces"@ != "length"@);
}

impl Torrent {
    /// The torrent dictionary of a file or directory named `name`.
    #[allow(non_snake_case)]
    pub fn newNode(name: String, source: TorrentSource) -> (node: BeNode)
        ensures
            node_model(node) == torrent_value(name@, source),
            holds_torrent(node_model(node), name@, source),
            keys_sorted(node_model(node)->Dict_0),
    {
        proof {
            law_torrent_contents(name@, source);
            law_torrent_keys_sorted(name@, source);
        }
        let ghost src = source;
        let announce = String::from_str("http://localhost:8080");
        let mut dict: Vec<(String, BeNode)> = Vec::new();
        match source {
            TorrentSource::Directory { files, pieces } => {
                dict.push((String::from_str("files"), files));
                dict.push((String::from_str("name"), BeNode::STR(name)));
                dict.push((String::from_str("pieces"), BeNode::STR(pieces)));
            },
            TorrentSource::File { length } => {
                dict.push((String::from_str("length"), BeNode::NUM(length)));
                dict.push((String::from_str("name"), BeNode::STR(name)));
            },
        }
        dict.push((String::from_str("pieces length"), BeNode::NUM(BLOCK_SIZE as i64)));
        proof {
            lemma_dict_model(dict@);
            assert(dict_model(dict@) =~= info_value(name@, src)->Dict_0);
        }
        let info = BeNode::DICT(dict);
        let mut top: Vec<(String, BeNode)> = Vec::new();
        top.push((String::from_str("announce"), BeNode::STR(announce)));
        top.push((String::from_str("info"), info));
        proof {
            lemma_dict_model(top@);
            assert(dict_model(top@) =~= torrent_value(name@, src)->Dict_0);
        }
        BeNode::DICT(top)
    }

    /// A torrent description created at `creation_date` (in seconds), with no pieces yet.
    pub fn new(creation_date: usize) -> (t: Torrent)
        ensures
            t@ == (TorrentFields {
                announce: announce_url(),
                creation_date: creation_date as nat,
                author: "Gustavo"@,
                filename: "path.file_name()"@,
                pieces_len: 0,
                pieces: Seq::empty(),
            }),
    {
        let announce = String::from_str("http://localhost:8080");
        let author = String::from_str("Gustavo");
        let filename = String::from_str("path.file_name()");
        let pieces = String::new();
        let pieces_len: usize = 0;
        Torrent { announce, creationDate: creation_date, author, filename, pieces_len, pieces }
    }
}

} // verus!
