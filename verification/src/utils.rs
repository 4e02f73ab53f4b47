pub mod sha;

use crate::encoding::{
    clone_node, dict_get, dict_model, list_model, lookup, node_model, BeNode, BeValue,
};
use crate::utils::sha::nb_utils::initial_state;
use crate::utils::sha::{
    absorbed, digest_state, hash_blocks, initial_sha1_state, law_digest_is_sha1,
    law_initial_absorbed, law_update_absorbs, lemma_update_leftover, raw_digest, sha1_of,
    split_point, update_state, Sha1, Sha1State,
};
use vstd::prelude::*;
use vstd::slice::slice_subrange;
use vstd::utf8::{encode_utf8, is_ascii_chars, is_ascii_chars_encode_utf8};

verus! {

/// Number of bytes hashed into each piece.
pub const BLOCK_SIZE: usize = 256_000;

/// The components of a path, each as a string value.
pub fn split_path(components: &Vec<String>) -> (nodes: Vec<BeNode>)
    ensures
        nodes@.len() == components@.len(),
        forall|i: int|
            0 <= i < components@.len() ==> #[trigger] node_model(nodes@[i]) == BeValue::Str(
                components@[i]@,
            ),
{
    let mut nodes: Vec<BeNode> = Vec::new();
    let mut i: usize = 0;
    while i < components.len()
        invariant
            i <= components@.len(),
            nodes@.len() == i,
            forall|j: int|
                0 <= j < i ==> #[trigger] node_model(nodes@[j]) == BeValue::Str(components@[j]@),
        decreases components@.len() - i,
    {
        nodes.push(BeNode::STR(components[i].clone()));
        i += 1;
    }
    nodes
}

/// The characters of each string.
pub open spec fn texts(v: Seq<String>) -> Seq<Seq<char>> {
    Seq::new(v.len(), |i: int| v[i]@)
}

/// Each value of the sequence is a string.
pub open spec fn all_strings(names: Seq<BeValue>) -> bool {
    forall|i: int| 0 <= i < names.len() ==> #[trigger] names[i] is Str
}

/// The characters of each string of the sequence.
pub open spec fn string_values(names: Seq<BeValue>) -> Seq<Seq<char>> {
    Seq::new(names.len(), |i: int| names[i]->Str_0)
}

/// Builds the relative path of a file from its list of names: the components of
/// `relpath`, then each name, in order.
pub fn filepath_concat(relpath: &Vec<String>, list: &Vec<BeNode>) -> (path: Vec<String>)
    requires
        all_strings(list_model(list@)),
    ensures
        texts(path@) == texts(relpath@) + string_values(list_model(list@)),
{
    proof {
        crate::encoding::lemma_list_model(list@);
    }
    let mut path: Vec<String> = Vec::new();
    let mut i: usize = 0;
    while i < relpath.len()
        invariant
            i <= relpath@.len(),
            path@.len() == i,
            texts(path@) == texts(relpath@).take(i as int),
        decreases relpath@.len() - i,
    {
        let c = relpath[i].clone();
        assert(c@ == relpath@[i as int]@);
        let ghost before = path@;
        path.push(c);
        assert(path@ == before.push(c));
        assert(texts(path@).len() == i + 1);
        assert(forall|j: int| 0 <= j < i ==> texts(path@)[j] == texts(before)[j]);
        assert(texts(path@) =~= texts(relpath@).take(i + 1));
        i += 1;
    }
    assert(texts(relpath@).take(i as int) =~= texts(relpath@));
    let ghost names = string_values(list_model(list@));
    let mut k: usize = 0;
    while k < list.len()
        invariant
            k <= list@.len(),
            all_strings(list_model(list@)),
            names == string_values(list_model(list@)),
            list_model(list@).len() == list@.len(),
            forall|j: int| 0 <= j < list@.len() ==> #[trigger] list_model(list@)[j] == node_model(list@[j]),
            path@.len() == relpath@.len() + k,
            texts(path@) == texts(relpath@) + names.take(k as int),
        decreases list@.len() - k,
    {
        assert(list_model(list@)[k as int] is Str);
        let ghost before = path@;
        match &list[k] {
            BeNode::STR(folder_name) => {
                let c = folder_name.clone();
                assert(names[k as int] == c@);
                path.push(c);
                assert(texts(path@)[texts(path@).len() - 1] == names[k as int]);
            },
            _ => {
                assert(false);
            },
        }
        let ghost target = texts(relpath@) + names.take(k + 1);
        assert forall|j: int| 0 <= j < target.len() implies #[trigger] texts(path@)[j] == target[j] by {
            let r = relpath@.len() as int;
            if j < r {
                assert(texts(path@)[j] == texts(before)[j]);
                assert(texts(before)[j] == (texts(relpath@) + names.take(k as int))[j]);
            } else if j < r + k {
                assert(texts(path@)[j] == texts(before)[j]);
                assert(texts(before)[j] == (texts(relpath@) + names.take(k as int))[j]);
                assert(names.take(k as int)[j - r] == names[j - r]);
            } else {
                assert(j == r + k);
            }
        }
        assert(texts(path@) =~= target);
        k += 1;
    }
    assert(names.take(k as int) =~= names);
    path
}

/// A list of file entries: dictionaries whose `path` is a list of strings.
pub open spec fn is_file_list(v: BeValue) -> bool {
    &&& v is List
    &&& forall|i: int|
        0 <= i < v->List_0.len() ==> #[trigger] file_entry_names(v->List_0[i]) is Some
}

/// The names under the `path` key of a file entry.
pub open spec fn file_entry_names(entry: BeValue) -> Option<Seq<Seq<char>>> {
    match entry {
        BeValue::Dict(entries) => match lookup(entries, "path"@) {
            Some(BeValue::List(names)) => if all_strings(names) {
                Some(string_values(names))
            } else {
                None
            },
            _ => None,
        },
        _ => None,
    }
}

fn entry_names_of(entry: &BeNode) -> (r: Option<&Vec<BeNode>>)
    ensures
        file_entry_names(node_model(*entry)) is Some <==> (r is Some && all_strings(
            list_model(r.unwrap()@),
        )),
        r matches Some(names) ==> file_entry_names(node_model(*entry)) is Some ==> file_entry_names(
            node_model(*entry),
        ).unwrap() == string_values(list_model(names@)),
{
    match entry {
        BeNode::DICT(dict) => {
            let key = String::from_str("path");
            match dict_get(dict, &key) {
                Some(BeNode::LIST(files)) => {
                    Some(files)
                },
                _ => None,
            }
        },
        _ => None,
    }
}


/// The paths of the files that a file list names, each made of the components
/// of `relpath` and then the file's names.
pub fn pieces_paths(relpath: &Vec<String>, node_list: &BeNode) -> (paths: Vec<Vec<String>>)
    requires
        is_file_list(node_model(*node_list)),
    ensures
        paths@.len() == node_model(*node_list)->List_0.len(),
        forall|i: int|
            0 <= i < paths@.len() ==> #[trigger] texts(paths@[i]@) == texts(relpath@)
                + file_entry_names(node_model(*node_list)->List_0[i]).unwrap(),
{
    let ghost items = node_model(*node_list)->List_0;
    let mut paths: Vec<Vec<String>> = Vec::new();
    match node_list {
        BeNode::LIST(list) => {
            proof {
                crate::encoding::lemma_list_model(list@);
            }
            let mut k: usize = 0;
            while k < list.len()
                invariant
                    k <= list@.len(),
                    items == list_model(list@),
                    items.len() == list@.len(),
                    forall|j: int| 0 <= j < list@.len() ==> #[trigger] items[j] == node_model(list@[j]),
                    forall|j: int| 0 <= j < items.len() ==> #[trigger] file_entry_names(items[j]) is Some,
                    paths@.len() == k,
                    forall|j: int|
                        0 <= j < k ==> #[trigger] texts(paths@[j]@) == texts(relpath@)
                            + file_entry_names(items[j]).unwrap(),
                decreases list@.len() - k,
            {
                assert(file_entry_names(items[k as int]) is Some);
                match entry_names_of(&list[k]) {
                    Some(files) => {
                        let path = filepath_concat(relpath, files);
                        paths.push(path);
                    },
                    None => {
                        assert(false);
                    },
                }
                k += 1;
            }
        },
        _ => {},
    }
    paths
}

/// Tells whether a value is a list of file entries whose paths are lists of strings.
pub fn check_file_list(node: &BeNode) -> (r: bool)
    ensures
        r == is_file_list(node_model(*node)),
{
    match node {
        BeNode::LIST(list) => {
            proof {
                crate::encoding::lemma_list_model(list@);
            }
            let ghost items = list_model(list@);
            let mut k: usize = 0;
            while k < list.len()
                invariant
                    k <= list@.len(),
                    *node == BeNode::LIST(*list),
                    items == list_model(list@),
                    items.len() == list@.len(),
                    forall|j: int| 0 <= j < list@.len() ==> #[trigger] items[j] == node_model(list@[j]),
                    forall|j: int| 0 <= j < k ==> #[trigger] file_entry_names(items[j]) is Some,
                decreases list@.len() - k,
            {
                match entry_names_of(&list[k]) {
                    Some(files) => {
                        if !check_strings(files) {
                            assert(node_model(*node)->List_0[k as int] == items[k as int]);
                            return false;
                        }
                    },
                    None => {
                        assert(node_model(*node)->List_0[k as int] == items[k as int]);
                        return false;
                    },
                }
                k += 1;
            }
            true
        },
        _ => false,
    }
}

fn check_strings(list: &Vec<BeNode>) -> (r: bool)
    ensures
        r == all_strings(list_model(list@)),
{
    proof {
        crate::encoding::lemma_list_model(list@);
    }
    let mut k: usize = 0;
    while k < list.len()
        invariant
            k <= list@.len(),
            list_model(list@).len() == list@.len(),
            forall|j: int| 0 <= j < list@.len() ==> #[trigger] list_model(list@)[j] == node_model(list@[j]),
            forall|j: int| 0 <= j < k ==> #[trigger] list_model(list@)[j] is Str,
        decreases list@.len() - k,
    {
        match &list[k] {
            BeNode::STR(_) => {},
            _ => {
                assert(!(list_model(list@)[k as int] is Str));
                return false;
            },
        }
        k += 1;
    }
    true
}


// ---------------------------------------------------------------------------
// Pieces: the file contents, cut in blocks of BLOCK_SIZE bytes, each hashed
// ---------------------------------------------------------------------------

/// When the hasher holds a full piece, its digest is added to `out` and the hasher starts over.
pub open spec fn full_check(st: Sha1State, out: Seq<char>) -> (Sha1State, Seq<char>) {
    if st.size == BLOCK_SIZE {
        (initial_sha1_state(), out + raw_digest(digest_state(st).h))
    } else {
        (st, out)
    }
}

/// Gives `bytes` to the hasher, then checks for a full piece.
pub open spec fn feed(st: Sha1State, out: Seq<char>, bytes: Seq<u8>) -> (Sha1State, Seq<char>) {
    full_check(update_state(st, bytes), out)
}

/// Feeds `bytes` in chunks of BLOCK_SIZE bytes (the last one may be shorter).
pub open spec fn feed_chunks(st: Sha1State, out: Seq<char>, bytes: Seq<u8>) -> (
    Sha1State,
    Seq<char>,
)
    decreases bytes.len(),
{
    if bytes.len() == 0 {
        (st, out)
    } else {
        let n = if bytes.len() < BLOCK_SIZE {
            bytes.len() as int
        } else {
            BLOCK_SIZE as int
        };
        let (s2, o2) = feed(st, out, bytes.take(n));
        feed_chunks(s2, o2, bytes.skip(n))
    }
}

/// One file's content through the hasher: the characters that fill the current
/// piece first (counted in characters), then the rest in chunks of BLOCK_SIZE bytes.
/// Gives the hasher after it and the digests of the pieces completed on the way.
pub open spec fn hash_content(st: Sha1State, content: Seq<char>) -> (Sha1State, Seq<char>) {
    let missing = BLOCK_SIZE - st.size;
    let cut = if missing < content.len() {
        missing
    } else {
        content.len() as int
    };
    let (s1, o1) = feed(st, Seq::empty(), encode_utf8(content.take(cut)));
    feed_chunks(s1, o1, encode_utf8(content.skip(cut)))
}

/// The files one after the other through the hasher; `None` when a file starts
/// while the hasher holds more than a piece.
pub open spec fn run_files(st: Sha1State, acc: Seq<char>, contents: Seq<Seq<char>>) -> Option<
    (Sha1State, Seq<char>),
>
    decreases contents.len(),
{
    if contents.len() == 0 {
        Some((st, acc))
    } else if st.size > BLOCK_SIZE {
        None
    } else {
        let (s2, r) = hash_content(st, contents[0]);
        run_files(s2, acc + r, contents.drop_first())
    }
}

/// The pieces string of the files: the digests of the full pieces, then, when bytes
/// are left, the raw state words of the hasher that holds them.
pub open spec fn pieces_of(contents: Seq<Seq<char>>) -> Option<Seq<char>> {
    match run_files(initial_sha1_state(), Seq::empty(), contents) {
        Some((st, acc)) => Some(
            if st.size != 0 {
                acc + raw_digest(st.h)
            } else {
                acc
            },
        ),
        None => None,
    }
}

proof fn lemma_encode_utf8_concat(a: Seq<char>, b: Seq<char>)
    ensures
        encode_utf8(a + b) == encode_utf8(a) + encode_utf8(b),
    decreases a.len(),
{
    if a.len() == 0 {
        assert(a + b =~= b);
        assert(encode_utf8(a) =~= Seq::<u8>::empty());
        assert(Seq::<u8>::empty() + encode_utf8(b) =~= encode_utf8(b));
    } else {
        assert((a + b).drop_first() =~= a.drop_first() + b);
        assert((a + b)[0] == a[0]);
        lemma_encode_utf8_concat(a.drop_first(), b);
        let e = vstd::utf8::encode_scalar(a[0] as u32);
        assert(e + (encode_utf8(a.drop_first()) + encode_utf8(b)) =~= e + encode_utf8(
            a.drop_first(),
        ) + encode_utf8(b));
    }
}

fn digest_if_full(hash: &mut Sha1, res: &mut String)
    requires
        old(hash)@.leftover.len() <= 64,
    ensures
        (final(hash)@, final(res)@) == full_check(old(hash)@, old(res)@),
{
    // empties hash if full
    if hash.size() == BLOCK_SIZE {
        hash.digest();
        let raw = hash.digest_raw();
        res.append(raw.as_str());
        hash.clear();
    }
}

/// Hashes one file's content: what fills the current piece, then the rest in
/// pieces; gives the digests of the pieces completed.
pub fn hash_decision(content: &String, hash: &mut Sha1) -> (res: String)
    requires
        old(hash)@.size <= BLOCK_SIZE,
        old(hash)@.leftover.len() <= 64,
        encode_utf8(content@).len() <= usize::MAX - BLOCK_SIZE,
    ensures
        (final(hash)@, res@) == hash_content(old(hash)@, content@),
        final(hash)@.leftover.len() <= 64,
{
    let ghost st0 = hash@;
    let s = content.as_str();
    // content splitting
    let missing = BLOCK_SIZE - hash.size();
    let n = s.unicode_len();
    let cut = if missing < n {
        missing
    } else {
        n
    };
    let f_part = s.substring_char(0, cut);
    let sec_part = s.substring_char(cut, n);
    proof {
        assert(content@.take(cut as int) =~= f_part@);
        assert(content@.skip(cut as int) =~= sec_part@);
        assert(content@ =~= f_part@ + sec_part@);
        lemma_encode_utf8_concat(f_part@, sec_part@);
        lemma_update_leftover(st0, encode_utf8(f_part@));
    }
    let mut res = String::new();
    let first = f_part.as_bytes();
    hash.update(first);
    digest_if_full(hash, &mut res);
    // here the hash is guaranteed to be empty, so we can put one block at a time
    let bytes = sec_part.as_bytes();
    let ghost all = encode_utf8(sec_part@);
    let ghost target = hash_content(st0, content@);
    let len = bytes.len();
    let mut start: usize = 0;
    assert(all.skip(0) =~= all);
    while start < len
        invariant
            bytes@ == all,
            len == all.len(),
            start <= len,
            encode_utf8(f_part@).len() + len <= usize::MAX - BLOCK_SIZE,
            hash@.size <= BLOCK_SIZE + encode_utf8(f_part@).len() + start,
            hash@.leftover.len() <= 64,
            feed_chunks(hash@, res@, all.skip(start as int)) == target,
        decreases len - start,
    {
        let end = if len - start < BLOCK_SIZE {
            len
        } else {
            start + BLOCK_SIZE
        };
        let ghost before = (hash@, res@);
        proof {
            let rest = all.skip(start as int);
            assert(rest.take(end - start) =~= all.subrange(start as int, end as int));
            assert(rest.skip(end - start) =~= all.skip(end as int));
            lemma_update_leftover(hash@, all.subrange(start as int, end as int));
        }
        hash.update(slice_subrange(bytes, start, end));
        digest_if_full(hash, &mut res);
        start = end;
    }
    res
}

/// The pieces string of the files' contents, in order: the digest of each full
/// piece, then the raw state of the hasher when bytes are left. `None` when a
/// file would start while the hasher holds more than a piece (which a content
/// that is not ASCII can cause).
pub fn try_produce_pieces_hash(contents: &Vec<String>) -> (pieces: Option<String>)
    requires
        forall|i: int|
            0 <= i < contents@.len() ==> encode_utf8(#[trigger] contents@[i]@).len() <= usize::MAX
                - BLOCK_SIZE,
    ensures
        match pieces {
            Some(p) => pieces_of(texts(contents@)) == Some(p@),
            None => pieces_of(texts(contents@)) is None,
        },
{
    let ghost all = texts(contents@);
    let mut hash = Sha1::new();
    let mut pieces = String::new();
    let mut k: usize = 0;
    assert(all.skip(0) =~= all);
    while k < contents.len()
        invariant
            k <= contents@.len(),
            all == texts(contents@),
            forall|i: int|
                0 <= i < contents@.len() ==> encode_utf8(#[trigger] contents@[i]@).len()
                    <= usize::MAX - BLOCK_SIZE,
            hash@.leftover.len() <= 64,
            run_files(hash@, pieces@, all.skip(k as int)) == run_files(
                initial_sha1_state(),
                Seq::empty(),
                all,
            ),
        decreases contents@.len() - k,
    {
        let ghost rest = all.skip(k as int);
        assert(rest[0] == contents@[k as int]@);
        assert(rest.drop_first() =~= all.skip(k + 1));
        if hash.size() > BLOCK_SIZE {
            return None;
        }
        let part = hash_decision(&contents[k], &mut hash);
        pieces.append(part.as_str());
        k += 1;
    }
    if hash.size() != 0 {
        let raw = hash.digest_raw();
        pieces.append(raw.as_str());
    }
    Some(pieces)
}

/// The pieces string of the files' contents, in order: the digest of each full
/// piece, then the raw state of the hasher when bytes are left.
pub fn produce_pieces_hash(contents: &Vec<String>) -> (pieces: String)
    requires
        pieces_of(texts(contents@)) is Some,
        forall|i: int|
            0 <= i < contents@.len() ==> encode_utf8(#[trigger] contents@[i]@).len() <= usize::MAX
                - BLOCK_SIZE,
    ensures
        pieces@ == pieces_of(texts(contents@)).unwrap(),
{
    match try_produce_pieces_hash(contents) {
        Some(p) => p,
        None => {
            assert(false);
            String::new()
        },
    }
}


/// The entry that describes one file: its length and the list of its path's names.
pub open spec fn file_entry_value(size: i64, names: Seq<BeValue>) -> BeValue {
    BeValue::Dict(seq![("length"@, BeValue::Num(size as int)), ("path"@, BeValue::List(names))])
}

/// Adds to a list of file entries the entry of a file of `size` bytes whose path
/// has the names `split_path`.
pub fn add_file_entry(node: &mut BeNode, size: i64, split_path: &Vec<BeNode>)
    requires
        node_model(*old(node)) is List,
    ensures
        node_model(*final(node)) == BeValue::List(
            node_model(*old(node))->List_0.push(file_entry_value(size, list_model(split_path@))),
        ),
{
    let mut names: Vec<BeNode> = Vec::new();
    let mut k: usize = 0;
    proof {
        crate::encoding::lemma_list_model(split_path@);
    }
    while k < split_path.len()
        invariant
            k <= split_path@.len(),
            names@.len() == k,
            list_model(split_path@).len() == split_path@.len(),
            forall|j: int|
                0 <= j < split_path@.len() ==> #[trigger] list_model(split_path@)[j] == node_model(
                    split_path@[j],
                ),
            forall|j: int| 0 <= j < k ==> #[trigger] node_model(names@[j]) == node_model(split_path@[j]),
        decreases split_path@.len() - k,
    {
        names.push(clone_node(&split_path[k]));
        k += 1;
    }
    proof {
        crate::encoding::lemma_list_model(names@);
        assert(list_model(names@) =~= list_model(split_path@));
    }
    let mut dict: Vec<(String, BeNode)> = Vec::new();
    dict.push((String::from_str("length"), BeNode::NUM(size)));
    dict.push((String::from_str("path"), BeNode::LIST(names)));
    proof {
        crate::encoding::lemma_dict_model(dict@);
        assert(dict_model(dict@) =~= file_entry_value(size, list_model(split_path@))->Dict_0);
    }
    let entry = BeNode::DICT(dict);
    assert(node_model(entry) == file_entry_value(size, list_model(split_path@)));
    match node {
        BeNode::LIST(list) => {
            let ghost before = list@;
            assert(node_model(*old(node)) == BeValue::List(list_model(before)));
            list.push(entry);
            proof {
                assert(list@.drop_last() =~= before);
                assert(list_model(list@) == list_model(before).push(node_model(entry)));
            }
        },
        _ => {
            assert(false);
        },
    }
}


// ---------------------------------------------------------------------------
// What the pieces string is, for ASCII contents
// ---------------------------------------------------------------------------

/// The bytes of the contents, one file after the other.
pub open spec fn contents_bytes(contents: Seq<Seq<char>>) -> Seq<u8>
    decreases contents.len(),
{
    if contents.len() == 0 {
        Seq::empty()
    } else {
        encode_utf8(contents[0]) + contents_bytes(contents.drop_first())
    }
}

/// The digests of the consecutive full pieces of `data`, in order.
pub open spec fn piece_digests(data: Seq<u8>) -> Seq<char>
    decreases data.len(),
{
    if data.len() < BLOCK_SIZE {
        Seq::empty()
    } else {
        raw_digest(sha1_of(data.take(BLOCK_SIZE as int))) + piece_digests(
            data.skip(BLOCK_SIZE as int),
        )
    }
}

/// The bytes of `data` after its full pieces.
pub open spec fn last_part(data: Seq<u8>) -> Seq<u8> {
    data.skip(data.len() - (data.len() as int) % (BLOCK_SIZE as int))
}

/// The full pieces' digests, then, when bytes are left, the raw state words after
/// the complete 64-byte blocks of those bytes except the last (unpadded, not a SHA-1).
pub open spec fn expected_pieces(data: Seq<u8>) -> Seq<char> {
    let rest = last_part(data);
    piece_digests(data) + if rest.len() > 0 {
        raw_digest(hash_blocks(initial_state(), rest.take(split_point(rest.len() as int))))
    } else {
        Seq::empty()
    }
}

/// The hasher after the bytes `c`: it holds the bytes after the full pieces.
spec fn pieces_state(st: Sha1State, c: Seq<u8>) -> bool {
    let t = (c.len() as int) % (BLOCK_SIZE as int);
    &&& st.size == t
    &&& absorbed(st, c.skip(c.len() - t))
    &&& st.leftover.len() <= 64
    &&& (t > 0 ==> st.leftover.len() >= 1)
}

proof fn lemma_piece_digests_concat(x: Seq<u8>, y: Seq<u8>)
    requires
        (x.len() as int) % (BLOCK_SIZE as int) == 0,
    ensures
        piece_digests(x + y) == piece_digests(x) + piece_digests(y),
    decreases x.len(),
{
    if x.len() == 0 {
        assert(x + y =~= y);
        assert(piece_digests(x) == Seq::<char>::empty());
        assert(Seq::<char>::empty() + piece_digests(y) =~= piece_digests(y));
    } else {
        let b = BLOCK_SIZE as int;
        assert((x + y).take(b) =~= x.take(b));
        assert((x + y).skip(b) =~= x.skip(b) + y);
        lemma_piece_digests_concat(x.skip(b), y);
        let d = raw_digest(sha1_of(x.take(b)));
        assert(d + (piece_digests(x.skip(b)) + piece_digests(y)) =~= d + piece_digests(x.skip(b))
            + piece_digests(y));
    }
}

proof fn lemma_feed_acc(st: Sha1State, o: Seq<char>, b: Seq<u8>)
    ensures
        feed(st, o, b).0 == feed(st, Seq::empty(), b).0,
        feed(st, o, b).1 == o + feed(st, Seq::empty(), b).1,
{
    let e = Seq::<char>::empty();
    let st2 = update_state(st, b);
    if st2.size == BLOCK_SIZE {
        let d = raw_digest(digest_state(st2).h);
        assert(e + d =~= d);
    } else {
        assert(o + e =~= o);
    }
}

proof fn lemma_feed_chunks_acc(st: Sha1State, o: Seq<char>, bytes: Seq<u8>)
    ensures
        feed_chunks(st, o, bytes).0 == feed_chunks(st, Seq::empty(), bytes).0,
        feed_chunks(st, o, bytes).1 == o + feed_chunks(st, Seq::empty(), bytes).1,
    decreases bytes.len(),
{
    let e = Seq::<char>::empty();
    if bytes.len() == 0 {
        assert(o + e =~= o);
    } else {
        let n = if bytes.len() < BLOCK_SIZE {
            bytes.len() as int
        } else {
            BLOCK_SIZE as int
        };
        let b = bytes.take(n);
        lemma_feed_acc(st, o, b);
        let (s2, o2) = feed(st, o, b);
        let (s2e, o2e) = feed(st, e, b);
        lemma_feed_chunks_acc(s2, o2, bytes.skip(n));
        lemma_feed_chunks_acc(s2, o2e, bytes.skip(n));
        let r = feed_chunks(s2, e, bytes.skip(n)).1;
        assert(o + o2e + r =~= o + (o2e + r));
    }
}

proof fn lemma_feed_pieces(st: Sha1State, c: Seq<u8>, b: Seq<u8>)
    requires
        pieces_state(st, c),
        st.size + b.len() <= BLOCK_SIZE,
    ensures
        pieces_state(feed(st, Seq::empty(), b).0, c + b),
        piece_digests(c + b) == piece_digests(c) + feed(st, Seq::empty(), b).1,
{
    let bs = BLOCK_SIZE as int;
    let t = (c.len() as int) % bs;
    let full = c.take(c.len() - t);
    let tail = c.skip(c.len() - t);
    let st2 = update_state(st, b);
    let cb = c + b;
    law_update_absorbs(st, tail, b);
    lemma_update_leftover(st, b);
    assert(c =~= full + tail);
    assert(cb =~= full + (tail + b));
    assert((full.len() as int) % bs == 0);
    lemma_piece_digests_concat(full, tail);
    lemma_piece_digests_concat(full, tail + b);
    assert(piece_digests(tail) == Seq::<char>::empty());
    assert(piece_digests(full) + Seq::<char>::empty() =~= piece_digests(full));
    let all = st.leftover + b;
    if st2.size > 0 {
        assert(all.len() >= 1);
        assert(all.len() - split_point(all.len() as int) >= 1) by {
            let n = all.len() as int;
            assert(((n - 1) / 64) * 64 <= n - 1);
        }
    }
    if st2.size == BLOCK_SIZE {
        law_digest_is_sha1(st2, tail + b);
        law_initial_absorbed();
        assert((tail + b).len() == bs);
        assert((tail + b).take(bs) =~= tail + b);
        assert((tail + b).skip(bs).len() == 0);
        assert(piece_digests((tail + b).skip(bs)) == Seq::<char>::empty());
        let d = raw_digest(sha1_of(tail + b));
        assert(piece_digests(tail + b) =~= d);
        assert((cb.len() as int) % bs == 0);
        assert(cb.skip(cb.len() as int) =~= Seq::<u8>::empty());
        assert(Seq::<char>::empty() + d =~= d);
    } else {
        assert(cb.len() - (cb.len() as int) % bs == c.len() - t);
        assert(cb.skip(cb.len() - (cb.len() as int) % bs) =~= tail + b);
        assert(piece_digests(tail + b) == Seq::<char>::empty());
        assert(piece_digests(c) + Seq::<char>::empty() =~= piece_digests(c));
    }
}

proof fn lemma_feed_chunks_pieces(st: Sha1State, c: Seq<u8>, bytes: Seq<u8>)
    requires
        pieces_state(st, c),
        bytes.len() == 0 || st.size == 0,
    ensures
        pieces_state(feed_chunks(st, Seq::empty(), bytes).0, c + bytes),
        piece_digests(c + bytes) == piece_digests(c) + feed_chunks(st, Seq::empty(), bytes).1,
    decreases bytes.len(),
{
    let e = Seq::<char>::empty();
    if bytes.len() == 0 {
        assert(c + bytes =~= c);
        assert(piece_digests(c) + e =~= piece_digests(c));
    } else {
        let n = if bytes.len() < BLOCK_SIZE {
            bytes.len() as int
        } else {
            BLOCK_SIZE as int
        };
        let b = bytes.take(n);
        let rest = bytes.skip(n);
        lemma_feed_pieces(st, c, b);
        let (s2, o2) = feed(st, e, b);
        assert(rest.len() == 0 || s2.size == 0);
        lemma_feed_chunks_pieces(s2, c + b, rest);
        lemma_feed_chunks_acc(s2, o2, rest);
        assert(c + b + rest =~= c + bytes);
        let r = feed_chunks(s2, e, rest).1;
        assert(piece_digests(c) + o2 + r =~= piece_digests(c) + (o2 + r));
    }
}

proof fn lemma_hash_content_pieces(st: Sha1State, c: Seq<u8>, content: Seq<char>)
    requires
        pieces_state(st, c),
        is_ascii_chars(content),
    ensures
        pieces_state(hash_content(st, content).0, c + encode_utf8(content)),
        piece_digests(c + encode_utf8(content)) == piece_digests(c) + hash_content(st, content).1,
{
    let e = Seq::<char>::empty();
    let missing = BLOCK_SIZE - st.size;
    let cut = if missing < content.len() {
        missing
    } else {
        content.len() as int
    };
    let f = content.take(cut);
    let sec = content.skip(cut);
    assert(is_ascii_chars(f));
    assert(is_ascii_chars(sec));
    is_ascii_chars_encode_utf8(f);
    is_ascii_chars_encode_utf8(sec);
    assert(content =~= f + sec);
    lemma_encode_utf8_concat(f, sec);
    let fb = encode_utf8(f);
    let sb = encode_utf8(sec);
    lemma_feed_pieces(st, c, fb);
    let (s1, o1) = feed(st, e, fb);
    assert(sb.len() == 0 || s1.size == 0);
    lemma_feed_chunks_pieces(s1, c + fb, sb);
    lemma_feed_chunks_acc(s1, o1, sb);
    assert(c + fb + sb =~= c + encode_utf8(content));
    let r = feed_chunks(s1, e, sb).1;
    assert(piece_digests(c) + o1 + r =~= piece_digests(c) + (o1 + r));
}

proof fn lemma_run_files_pieces(st: Sha1State, c: Seq<u8>, contents: Seq<Seq<char>>)
    requires
        pieces_state(st, c),
        forall|i: int| 0 <= i < contents.len() ==> is_ascii_chars(#[trigger] contents[i]),
    ensures
        run_files(st, piece_digests(c), contents) is Some,
        pieces_state(run_files(st, piece_digests(c), contents).unwrap().0, c + contents_bytes(contents)),
        run_files(st, piece_digests(c), contents).unwrap().1 == piece_digests(c + contents_bytes(contents)),
    decreases contents.len(),
{
    if contents.len() == 0 {
        assert(c + contents_bytes(contents) =~= c);
    } else {
        let first = contents[0];
        let rest = contents.drop_first();
        lemma_hash_content_pieces(st, c, first);
        let (s2, r) = hash_content(st, first);
        let c2 = c + encode_utf8(first);
        assert forall|i: int| 0 <= i < rest.len() implies is_ascii_chars(#[trigger] rest[i]) by {
            assert(rest[i] == contents[i + 1]);
        }
        lemma_run_files_pieces(s2, c2, rest);
        assert(c2 + contents_bytes(rest) =~= c + contents_bytes(contents));
    }
}

/// For ASCII contents, the pieces string is the SHA-1 digest of each consecutive full
/// piece of BLOCK_SIZE bytes of the files' contents taken one after the other, in
/// order; when bytes are left after the last full piece, the raw state words of the
/// hasher that holds them come last.
pub proof fn law_pieces_of_ascii(contents: Seq<Seq<char>>)
    requires
        forall|i: int| 0 <= i < contents.len() ==> is_ascii_chars(#[trigger] contents[i]),
    ensures
        pieces_of(contents) == Some(expected_pieces(contents_bytes(contents))),
{
    let st = initial_sha1_state();
    let e = Seq::<u8>::empty();
    law_initial_absorbed();
    assert(e.skip(0) =~= e);
    assert(pieces_state(st, e));
    assert(piece_digests(e) == Seq::<char>::empty());
    lemma_run_files_pieces(st, e, contents);
    let all = contents_bytes(contents);
    assert(e + all =~= all);
    let (fin, acc) = run_files(st, Seq::empty(), contents).unwrap();
    let rest = last_part(all);
    if fin.size != 0 {
        assert(rest.len() == fin.size);
        assert(rest.len() - fin.leftover.len() == split_point(rest.len() as int)) by {
            let n = rest.len() as int;
            let c = n - fin.leftover.len();
            assert(c % 64 == 0 && 1 <= n - c <= 64);
            assert(c == ((n - 1) / 64) * 64);
        }
    } else {
        assert(acc + Seq::<char>::empty() =~= acc);
    }
}

} // verus!
