use vstd::prelude::*;
use crate::text::{push_char, string_byte_len};
use vstd::string::*;
use vstd::utf8::*;

verus! {

/// A bencoded value.
#[derive(Debug)]
pub enum BeNode {
    NUM(i64),
    STR(String),
    LIST(Vec<BeNode>),
    /// The entries of a dictionary; `dict_insert` keeps them in increasing order of keys.
    DICT(Vec<(String, BeNode)>),
}

/// Mathematical model of a bencoded value.
pub enum BeValue {
    Num(int),
    Str(Seq<char>),
    List(Seq<BeValue>),
    Dict(Seq<(Seq<char>, BeValue)>),
}

/// The value that a node holds.
pub open spec fn node_model(n: BeNode) -> BeValue
    decreases n, 0nat,
{
    match n {
        BeNode::NUM(x) => BeValue::Num(x as int),
        BeNode::STR(s) => BeValue::Str(s@),
        BeNode::LIST(v) => BeValue::List(list_model(v@)),
        BeNode::DICT(d) => BeValue::Dict(dict_model(d@)),
    }
}

/// The values of a sequence of nodes.
pub open spec fn list_model(s: Seq<BeNode>) -> Seq<BeValue>
    decreases s, 1nat,
{
    if s.len() == 0 {
        Seq::empty()
    } else {
        list_model(s.drop_last()).push(node_model(s.last()))
    }
}

/// The entries of a dictionary, each key with its value.
pub open spec fn dict_model(s: Seq<(String, BeNode)>) -> Seq<(Seq<char>, BeValue)>
    decreases s, 1nat,
{
    if s.len() == 0 {
        Seq::empty()
    } else {
        dict_model(s.drop_last()).push((s.last().0@, node_model(s.last().1)))
    }
}

// ---------------------------------------------------------------------------
// Decoding, as a function on the character buffer
// ---------------------------------------------------------------------------

pub open spec fn is_digit(c: char) -> bool {
    '0' <= c && c <= '9'
}

pub open spec fn digit_value(c: char) -> int {
    c as int - '0' as int
}

/// Value of a run of decimal digits, most significant digit first.
pub open spec fn decimal_value(s: Seq<char>) -> int
    decreases s.len(),
{
    if s.len() == 0 {
        0
    } else {
        decimal_value(s.drop_last()) * 10 + digit_value(s.last())
    }
}

pub open spec fn all_digits(s: Seq<char>) -> bool {
    forall|k: int| 0 <= k < s.len() ==> is_digit(#[trigger] s[k])
}

/// First position at or after `p` that does not hold a decimal digit (the buffer's length if none).
pub open spec fn digits_end(buf: Seq<char>, p: int) -> int
    decreases buf.len() - p,
{
    if p >= buf.len() || !is_digit(buf[p]) {
        p
    } else {
        digits_end(buf, p + 1)
    }
}

/// Decoding of an integer whose leading character sits at `i`:
/// the character at `i` is skipped, an optional `-` follows, then digits up to
/// an `e` or the end of the buffer. `None` where the decoder fails.
pub open spec fn decode_num(buf: Seq<char>, i: int) -> Option<(BeValue, int)> {
    let p0 = i + 1;
    if p0 < 0 || p0 >= buf.len() {
        None
    } else {
        let neg = buf[p0] == '-';
        let p = if neg { p0 + 1 } else { p0 };
        let q = digits_end(buf, p);
        let v = decimal_value(buf.subrange(p, q));
        if q < buf.len() && buf[q] != 'e' {
            None
        } else if v > i64::MAX {
            None
        } else {
            Some((BeValue::Num(if neg { -v } else { v }), q + 1))
        }
    }
}

/// Decoding of a string `<length>:<characters>` starting at `i`; the length counts characters.
pub open spec fn decode_str(buf: Seq<char>, i: int) -> Option<(BeValue, int)> {
    let q = digits_end(buf, i);
    let n = decimal_value(buf.subrange(i, q));
    if i < 0 || q >= buf.len() || buf[q] != ':' {
        None
    } else if q + 1 + n > buf.len() {
        None
    } else {
        Some((BeValue::Str(buf.subrange(q + 1, q + 1 + n)), q + 1 + n))
    }
}

/// Decoding of the value that starts at position `i`.
pub open spec fn decode_at(buf: Seq<char>, i: int) -> Option<(BeValue, int)>
    decreases buf.len() - i, 2nat,
{
    if i < 0 || i >= buf.len() {
        None
    } else if buf[i] == 'i' {
        decode_num(buf, i)
    } else if is_digit(buf[i]) {
        decode_str(buf, i)
    } else if buf[i] == 'l' {
        decode_list(buf, i)
    } else if buf[i] == 'd' {
        decode_dict(buf, i)
    } else {
        None
    }
}

/// Decoding of a list whose opening character sits at `i`: values until an `e`
/// (or the end of the buffer), which is consumed.
pub open spec fn decode_list(buf: Seq<char>, i: int) -> Option<(BeValue, int)>
    decreases buf.len() - i, 1nat,
{
    if i + 1 >= buf.len() {
        Some((BeValue::List(Seq::empty()), i + 2))
    } else {
        match decode_items(buf, i + 1) {
            Some((items, j)) => Some((BeValue::List(items), j)),
            None => None,
        }
    }
}

/// The list items from position `i` on, and the position after the closing `e`.
pub open spec fn decode_items(buf: Seq<char>, i: int) -> Option<(Seq<BeValue>, int)>
    decreases buf.len() - i, 3nat,
{
    if i < 0 {
        None
    } else if i >= buf.len() || buf[i] == 'e' {
        Some((Seq::empty(), i + 1))
    } else {
        match decode_at(buf, i) {
            None => None,
            Some((v, j)) => if j <= i {
                None
            } else if j >= buf.len() {
                Some((seq![v], j + 1))
            } else {
                match decode_items(buf, j) {
                    Some((rest, k)) => Some((seq![v] + rest, k)),
                    None => None,
                }
            },
        }
    }
}

/// A dictionary's opening character is consumed and the dictionary is empty:
/// its entries are left in the buffer.
pub open spec fn decode_dict(buf: Seq<char>, i: int) -> Option<(BeValue, int)> {
    Some((BeValue::Dict(Seq::empty()), i + 1))
}

// ---------------------------------------------------------------------------
// Facts about the decoding functions
// ---------------------------------------------------------------------------

proof fn lemma_digits_end(buf: Seq<char>, p: int)
    requires
        0 <= p <= buf.len(),
    ensures
        p <= digits_end(buf, p) <= buf.len(),
        all_digits(buf.subrange(p, digits_end(buf, p))),
        digits_end(buf, p) < buf.len() ==> !is_digit(buf[digits_end(buf, p)]),
    decreases buf.len() - p,
{
    if p < buf.len() && is_digit(buf[p]) {
        lemma_digits_end(buf, p + 1);
        let q = digits_end(buf, p);
        assert forall|k: int| 0 <= k < buf.subrange(p, q).len() implies is_digit(
            #[trigger] buf.subrange(p, q)[k],
        ) by {
            if k > 0 {
                assert(buf.subrange(p, q)[k] == buf.subrange(p + 1, q)[k - 1]);
            }
        }
    }
}

proof fn lemma_decimal_prefix(s: Seq<char>, n: int)
    requires
        all_digits(s),
        0 <= n <= s.len(),
    ensures
        0 <= decimal_value(s.take(n)) <= decimal_value(s),
    decreases s.len(),
{
    if n == s.len() {
        assert(s.take(n) =~= s);
        if s.len() > 0 {
            lemma_decimal_prefix(s.drop_last(), n - 1);
            assert(s.drop_last().take(n - 1) =~= s.drop_last());
        }
    } else {
        let t = s.drop_last();
        assert(all_digits(t)) by {
            assert forall|k: int| 0 <= k < t.len() implies is_digit(#[trigger] t[k]) by {
                assert(t[k] == s[k]);
            }
        }
        lemma_decimal_prefix(t, n);
        assert(t.take(n) =~= s.take(n));
        lemma_decimal_prefix(t, t.len() as int);
        assert(t.take(t.len() as int) =~= t);
        assert(is_digit(s[s.len() - 1]));
    }
}

proof fn lemma_decimal_step(buf: Seq<char>, p: int, k: int)
    requires
        0 <= p <= k < buf.len(),
    ensures
        decimal_value(buf.subrange(p, k + 1)) == decimal_value(buf.subrange(p, k)) * 10
            + digit_value(buf[k]),
{
    assert(buf.subrange(p, k + 1).drop_last() =~= buf.subrange(p, k));
}

proof fn lemma_decode_at_bounds(buf: Seq<char>, i: int)
    requires
        0 <= i,
        decode_at(buf, i) is Some,
    ensures
        i < decode_at(buf, i).unwrap().1 <= 2 * buf.len() - i + 1,
    decreases buf.len() - i, 2nat,
{
    if buf[i] == 'i' {
        let p0 = i + 1;
        let p = if buf[p0] == '-' { p0 + 1 } else { p0 };
        lemma_digits_end(buf, p);
    } else if is_digit(buf[i]) {
        let q = digits_end(buf, i);
        lemma_digits_end(buf, i);
        lemma_decimal_prefix(buf.subrange(i, q), 0);
    } else if buf[i] == 'l' {
        lemma_decode_list_bounds(buf, i);
    }
}

proof fn lemma_decode_list_bounds(buf: Seq<char>, i: int)
    requires
        0 <= i < buf.len(),
        decode_list(buf, i) is Some,
    ensures
        i < decode_list(buf, i).unwrap().1 <= 2 * buf.len() - i + 1,
    decreases buf.len() - i, 1nat,
{
    if i + 1 < buf.len() {
        lemma_decode_items_bounds(buf, i + 1);
    }
}

proof fn lemma_decode_items_bounds(buf: Seq<char>, i: int)
    requires
        0 <= i <= buf.len(),
        decode_items(buf, i) is Some,
    ensures
        i < decode_items(buf, i).unwrap().1 <= 2 * buf.len() - i + 2,
    decreases buf.len() - i, 3nat,
{
    if i < buf.len() && buf[i] != 'e' {
        lemma_decode_at_bounds(buf, i);
        let j = decode_at(buf, i).unwrap().1;
        if j < buf.len() {
            lemma_decode_items_bounds(buf, j);
        }
    }
}

// ---------------------------------------------------------------------------
// Decoders
// ---------------------------------------------------------------------------

/// Decodes the bencoded value at the start of `input`.
pub fn be_decode(input: String) -> (node: BeNode)
    requires
        decode_at(input@, 0) is Some,
        input@.len() < usize::MAX / 2,
    ensures
        node_model(node) == decode_at(input@, 0).unwrap().0,
{
    let mut buffer: Vec<char> = Vec::new();
    for c in it: input.chars()
        invariant
            buffer@ == it.seq().take(it.index() as int),
    {
        buffer.push(c);
        assert(buffer@ =~= it.seq().take(it.index() + 1));
    }
    assert(buffer@ =~= input@);
    let mut idx: usize = 0;
    be_decode_rec(&buffer, &mut idx)
}


/// Decodes the value at `*idx`, dispatching on its first character, and moves
/// `*idx` past it.
pub fn be_decode_rec(buffer: &Vec<char>, idx: &mut usize) -> (node: BeNode)
    requires
        decode_at(buffer@, *old(idx) as int) is Some,
        buffer@.len() < usize::MAX / 2,
    ensures
        decode_at(buffer@, *old(idx) as int) == Some((node_model(node), *final(idx) as int)),
    decreases buffer@.len() - *old(idx), 2nat,
{
    let c = buffer[*idx];
    if c == 'i' {
        be_decode_num(buffer, idx)
    } else if '0' <= c && c <= '9' {
        be_decode_str(buffer, idx)
    } else if c == 'l' {
        be_decode_list(buffer, idx)
    } else {
        // 'd', the one character left that starts a value
        be_decode_dict(buffer, idx)
    }
}

/// Decodes an integer: skips the character at `*idx`, reads an optional `-`
/// and the digits up to `e`, and moves `*idx` past the `e`.
pub fn be_decode_num(buffer: &Vec<char>, idx: &mut usize) -> (node: BeNode)
    requires
        decode_num(buffer@, *old(idx) as int) is Some,
        buffer@.len() < usize::MAX,
    ensures
        decode_num(buffer@, *old(idx) as int) == Some((node_model(node), *final(idx) as int)),
{
    let ghost buf = buffer@;
    // eat 'i'
    *idx += 1;
    let mut nb: i64 = 0;
    // handle minus
    let sign: i64 = if buffer[*idx] == '-' {
        *idx += 1;
        -1
    } else {
        1
    };
    let ghost p = *idx as int;
    let ghost q = digits_end(buf, p);
    proof {
        lemma_digits_end(buf, p);
        lemma_decimal_prefix(buf.subrange(p, q), 0);
    }
    loop
        invariant
            buf == buffer@,
            0 <= p <= *idx <= q,
            q == digits_end(buf, p),
            q <= buf.len() < usize::MAX,
            all_digits(buf.subrange(p, q)),
            q < buf.len() ==> buf[q] == 'e',
            decimal_value(buf.subrange(p, q)) <= i64::MAX,
            nb == decimal_value(buf.subrange(p, *idx as int)),
        ensures
            *idx == q,
            nb == decimal_value(buf.subrange(p, q)),
        decreases q - *idx,
    {
        if *idx >= buffer.len() {
            break;
        }
        proof {
            if (*idx as int) < q {
                assert(buf.subrange(p, q)[*idx - p] == buf[*idx as int]);
            }
        }
        let c = buffer[*idx];
        if c == 'e' {
            break;
        }
        proof {
            let k = *idx as int;
            assert(buf.subrange(p, q)[k - p] == buf[k]);
            lemma_decimal_step(buf, p, k);
            lemma_decimal_prefix(buf.subrange(p, q), k + 1 - p);
            assert(buf.subrange(p, q).take(k + 1 - p) =~= buf.subrange(p, k + 1));
        }
        nb = nb * 10 + ((c as u32 - '0' as u32) as i64);
        *idx += 1;
    }
    // eat 'e'
    *idx += 1;
    BeNode::NUM(nb * sign)
}

/// Decodes a string: reads the decimal length up to `:`, then that many
/// characters, and moves `*idx` past them.
pub fn be_decode_str(buffer: &Vec<char>, idx: &mut usize) -> (node: BeNode)
    requires
        decode_str(buffer@, *old(idx) as int) is Some,
        buffer@.len() < usize::MAX,
    ensures
        decode_str(buffer@, *old(idx) as int) == Some((node_model(node), *final(idx) as int)),
{
    let ghost buf = buffer@;
    let ghost p = *idx as int;
    let ghost q = digits_end(buf, p);
    let ghost n = decimal_value(buf.subrange(p, q));
    proof {
        lemma_digits_end(buf, p);
        lemma_decimal_prefix(buf.subrange(p, q), 0);
    }
    let mut nb: usize = 0;
    loop
        invariant
            buf == buffer@,
            0 <= p <= *idx <= q,
            q == digits_end(buf, p),
            q < buf.len() < usize::MAX,
            buf[q] == ':',
            all_digits(buf.subrange(p, q)),
            q + 1 + n <= buf.len(),
            n == decimal_value(buf.subrange(p, q)),
            nb == decimal_value(buf.subrange(p, *idx as int)),
        ensures
            *idx == q,
            nb == n,
        decreases q - *idx,
    {
        proof {
            if (*idx as int) < q {
                assert(buf.subrange(p, q)[*idx - p] == buf[*idx as int]);
            }
        }
        let c = buffer[*idx];
        if c == ':' {
            break;
        }
        proof {
            let k = *idx as int;
            assert(buf.subrange(p, q)[k - p] == buf[k]);
            lemma_decimal_step(buf, p, k);
            lemma_decimal_prefix(buf.subrange(p, q), k + 1 - p);
            assert(buf.subrange(p, q).take(k + 1 - p) =~= buf.subrange(p, k + 1));
        }
        nb = nb * 10 + ((c as u32 - '0' as u32) as usize);
        *idx += 1;
    }
    // eat ':'
    *idx += 1;
    let start = *idx;
    let end = *idx + nb;
    let mut value = String::new();
    let mut k = start;
    while k < end
        invariant
            buf == buffer@,
            start <= k <= end <= buf.len(),
            value@ == buf.subrange(start as int, k as int),
        decreases end - k,
    {
        proof {
            assert(buf.subrange(start as int, k + 1) =~= buf.subrange(start as int, k as int).push(
                buf[k as int],
            ));
        }
        push_char(&mut value, buffer[k]);
        k += 1;
    }
    // eat nb
    *idx += nb;
    BeNode::STR(value)
}

/// Decodes a list: skips the character at `*idx`, decodes values until an
/// `e` (or the end of the buffer), and moves `*idx` past that `e`.
pub fn be_decode_list(buffer: &Vec<char>, idx: &mut usize) -> (node: BeNode)
    requires
        decode_list(buffer@, *old(idx) as int) is Some,
        *old(idx) + 2 <= usize::MAX,
        buffer@.len() < usize::MAX / 2,
    ensures
        decode_list(buffer@, *old(idx) as int) == Some((node_model(node), *final(idx) as int)),
    decreases buffer@.len() - *old(idx), 1nat,
{
    let ghost buf = buffer@;
    let ghost i0 = *idx as int;
    // eat 'l'
    *idx += 1;
    let mut list: Vec<BeNode> = Vec::new();
    if *idx >= buffer.len() {
        // nothing to read: the list is empty
        *idx += 1;
        assert(list_model(list@) =~= Seq::<BeValue>::empty());
        return BeNode::LIST(list);
    }
    let ghost all = decode_items(buf, i0 + 1).unwrap();
    proof {
        lemma_decode_items_bounds(buf, i0 + 1);
    }
    loop
        invariant
            buf == buffer@,
            buf.len() < usize::MAX / 2,
            i0 == *old(idx),
            i0 < *idx <= 2 * buf.len() + 1,
            decode_items(buf, *idx as int) is Some,
            *idx <= buf.len() ==> decode_items(buf, *idx as int).unwrap().1 <= 2 * buf.len()
                - *idx + 2,
            list_model(list@) + decode_items(buf, *idx as int).unwrap().0 == all.0,
            decode_items(buf, *idx as int).unwrap().1 == all.1,
        ensures
            *idx == all.1 - 1,
            list_model(list@) == all.0,
        decreases 2 * buf.len() + 2 - *idx,
    {
        if *idx >= buffer.len() {
            assert(list_model(list@) + Seq::empty() =~= list_model(list@));
            break;
        }
        if buffer[*idx] == 'e' {
            assert(list_model(list@) + Seq::empty() =~= list_model(list@));
            break;
        }
        let ghost before = *idx as int;
        let ghost old_list = list@;
        proof {
            lemma_decode_at_bounds(buf, before);
        }
        let elem = be_decode_rec(buffer, idx);
        let ghost v = node_model(elem);
        list.push(elem);
        proof {
            let j = *idx as int;
            assert(list@.drop_last() =~= old_list);
            assert(list_model(list@) == list_model(old_list).push(v));
            if j >= buf.len() {
                assert(seq![v] + Seq::<BeValue>::empty() =~= seq![v]);
                assert(list_model(old_list) + seq![v] =~= list_model(list@));
            } else {
                lemma_decode_items_bounds(buf, j);
                let rest = decode_items(buf, j).unwrap().0;
                assert(list_model(old_list) + (seq![v] + rest) =~= list_model(list@) + rest);
            }
        }
    }
    // eat 'e'
    *idx += 1;
    BeNode::LIST(list)
}

/// Skips the opening character of a dictionary and gives an empty dictionary;
/// the entries that follow are left unread.
pub fn be_decode_dict(_buffer: &Vec<char>, idx: &mut usize) -> (node: BeNode)
    requires
        *old(idx) < usize::MAX,
    ensures
        decode_dict(_buffer@, *old(idx) as int) == Some((node_model(node), *final(idx) as int)),
{
    // eat 'd'
    *idx += 1;
    let node = BeNode::DICT(Vec::new());
    assert(dict_model(Seq::<(String, BeNode)>::empty()) =~= Seq::empty());
    node
}

// ---------------------------------------------------------------------------
// Encoding
// ---------------------------------------------------------------------------

pub open spec fn digit_char(d: int) -> char {
    (d + '0' as int) as char
}

/// Decimal representation of a natural number, without leading zeros.
pub open spec fn nat_decimal(n: nat) -> Seq<char>
    decreases n,
{
    if n < 10 {
        seq![digit_char(n as int)]
    } else {
        nat_decimal(n / 10).push(digit_char((n % 10) as int))
    }
}

/// Decimal representation of an integer, with a leading `-` when it is negative.
pub open spec fn int_decimal(x: int) -> Seq<char> {
    if x < 0 {
        seq!['-'] + nat_decimal((-x) as nat)
    } else {
        nat_decimal(x as nat)
    }
}

/// Number of bytes of the UTF-8 encoding of a character sequence.
pub open spec fn utf8_len(s: Seq<char>) -> nat {
    encode_utf8(s).len()
}

/// Bencoding of a string: its length in bytes of UTF-8, `:`, then its characters.
pub open spec fn encode_str(s: Seq<char>) -> Seq<char> {
    nat_decimal(utf8_len(s)) + seq![':'] + s
}

/// Bencoding of a value. A string's length is given in bytes of UTF-8.
pub open spec fn encode(v: BeValue) -> Seq<char>
    decreases v, 0nat,
{
    match v {
        BeValue::Num(x) => seq!['i'] + int_decimal(x) + seq!['e'],
        BeValue::Str(s) => encode_str(s),
        BeValue::List(items) => seq!['l'] + encode_list(items) + seq!['e'],
        BeValue::Dict(entries) => seq!['d'] + encode_entries(entries) + seq!['e'],
    }
}

/// Concatenated encodings of the items, in order.
pub open spec fn encode_list(items: Seq<BeValue>) -> Seq<char>
    decreases items, 1nat,
{
    if items.len() == 0 {
        Seq::empty()
    } else {
        encode(items[0]) + encode_list(items.drop_first())
    }
}

/// Concatenated encodings of the entries, each key (as a string) followed by its value.
pub open spec fn encode_entries(entries: Seq<(Seq<char>, BeValue)>) -> Seq<char>
    decreases entries, 1nat,
{
    if entries.len() == 0 {
        Seq::empty()
    } else {
        encode_str(entries[0].0) + encode(entries[0].1) + encode_entries(
            entries.drop_first(),
        )
    }
}

pub(crate) proof fn lemma_list_model(s: Seq<BeNode>)
    ensures
        list_model(s).len() == s.len(),
        forall|k: int| 0 <= k < s.len() ==> #[trigger] list_model(s)[k] == node_model(s[k]),
    decreases s.len(),
{
    if s.len() > 0 {
        lemma_list_model(s.drop_last());
    }
}

pub(crate) proof fn lemma_dict_model(s: Seq<(String, BeNode)>)
    ensures
        dict_model(s).len() == s.len(),
        forall|k: int|
            0 <= k < s.len() ==> #[trigger] dict_model(s)[k] == (s[k].0@, node_model(s[k].1)),
    decreases s.len(),
{
    if s.len() > 0 {
        lemma_dict_model(s.drop_last());
    }
}

proof fn lemma_encode_list_snoc(items: Seq<BeValue>, k: int)
    requires
        0 <= k < items.len(),
    ensures
        encode_list(items.take(k + 1)) == encode_list(items.take(k)) + encode(items[k]),
    decreases k,
{
    let a = items.take(k + 1);
    let b = items.take(k);
    assert(encode_list(a) == encode(a[0]) + encode_list(a.drop_first()));
    if k == 0 {
        assert(b =~= Seq::<BeValue>::empty());
        assert(a.drop_first() =~= Seq::<BeValue>::empty());
        assert(encode_list(a.drop_first()) == Seq::<char>::empty());
        assert(encode(items[0]) + Seq::<char>::empty() =~= Seq::<char>::empty() + encode(
            items[0],
        ));
    } else {
        let t = items.drop_first();
        lemma_encode_list_snoc(t, k - 1);
        assert(a.drop_first() =~= t.take(k));
        assert(b.drop_first() =~= t.take(k - 1));
        assert(encode_list(b) == encode(b[0]) + encode_list(b.drop_first()));
        assert(a[0] == b[0]);
        assert(t[k - 1] == items[k]);
        assert(encode(b[0]) + (encode_list(t.take(k - 1)) + encode(items[k])) =~= encode(b[0])
            + encode_list(t.take(k - 1)) + encode(items[k]));
    }
}

proof fn lemma_encode_entries_snoc(entries: Seq<(Seq<char>, BeValue)>, k: int)
    requires
        0 <= k < entries.len(),
    ensures
        encode_entries(entries.take(k + 1)) == encode_entries(entries.take(k)) + encode_str(
            entries[k].0,
        ) + encode(entries[k].1),
    decreases k,
{
    let e = entries[k];
    let a = entries.take(k + 1);
    let b = entries.take(k);
    assert(encode_entries(a) == encode_str(a[0].0) + encode(a[0].1) + encode_entries(
        a.drop_first(),
    ));
    if k == 0 {
        assert(b =~= Seq::<(Seq<char>, BeValue)>::empty());
        assert(a.drop_first() =~= Seq::<(Seq<char>, BeValue)>::empty());
        assert(encode_entries(a.drop_first()) == Seq::<char>::empty());
        assert(encode_str(e.0) + encode(e.1) + Seq::<char>::empty() =~= Seq::<char>::empty()
            + encode_str(e.0) + encode(e.1));
    } else {
        let t = entries.drop_first();
        lemma_encode_entries_snoc(t, k - 1);
        assert(a.drop_first() =~= t.take(k));
        assert(b.drop_first() =~= t.take(k - 1));
        assert(encode_entries(b) == encode_str(b[0].0) + encode(b[0].1) + encode_entries(
            b.drop_first(),
        ));
        assert(a[0] == b[0]);
        assert(t[k - 1] == e);
        let h = encode_str(b[0].0) + encode(b[0].1);
        let r = encode_entries(t.take(k - 1));
        assert(h + (r + encode_str(e.0) + encode(e.1)) =~= h + r + encode_str(e.0) + encode(
            e.1,
        ));
    }
}

/// Appends the decimal digits of `n`.
fn push_decimal(s: &mut String, n: u64)
    ensures
        final(s)@ == old(s)@ + nat_decimal(n as nat),
    decreases n,
{
    if n >= 10 {
        push_decimal(s, n / 10);
    }
    let d: u8 = (n % 10) as u8;
    let c: char = (d + 48u8) as char;
    push_char(s, c);
    proof {
        assert(old(s)@ + nat_decimal(n as nat) =~= final(s)@) by {
            if n >= 10 {
                assert(nat_decimal(n as nat) == nat_decimal((n / 10) as nat).push(
                    digit_char((n % 10) as int),
                ));
            }
        }
    }
}

/// Appends the encoding of a string: its length in bytes, `:`, then its characters.
fn push_encoded_str(s: &mut String, string: &String)
    ensures
        final(s)@ == old(s)@ + encode_str(string@),
{
    let len = string_byte_len(string);
    push_decimal(s, len as u64);
    push_char(s, ':');
    s.append(string.as_str());
    assert(final(s)@ =~= old(s)@ + encode_str(string@));
}

/// Bencodes a value: `i<n>e`, `<byte length>:<string>`, `l<items>e`, `d<key><value>...e`.
pub fn be_encode(node: &BeNode) -> (res: String)
    ensures
        res@ == encode(node_model(*node)),
    decreases node,
{
    let mut res = String::new();
    match node {
        BeNode::NUM(nb) => {
            push_char(&mut res, 'i');
            let x: i64 = *nb;
            if x < 0 {
                push_char(&mut res, '-');
                let m: u64 = ((-(x + 1)) as u64) + 1;
                push_decimal(&mut res, m);
            } else {
                push_decimal(&mut res, x as u64);
            }
            push_char(&mut res, 'e');
            assert(res@ =~= encode(node_model(*node)));
        },
        BeNode::STR(string) => {
            push_encoded_str(&mut res, string);
            assert(res@ =~= encode(node_model(*node)));
        },
        BeNode::LIST(list) => {
            let ghost items = list_model(list@);
            proof {
                lemma_list_model(list@);
            }
            push_char(&mut res, 'l');
            let mut k: usize = 0;
            while k < list.len()
                invariant
                    k <= list.len(),
                    *node == BeNode::LIST(*list),
                    items == list_model(list@),
                    items.len() == list@.len(),
                    forall|j: int| 0 <= j < list@.len() ==> #[trigger] items[j] == node_model(list@[j]),
                    res@ == seq!['l'] + encode_list(items.take(k as int)),
                decreases list.len() - k,
            {
                proof {
                    assert(decreases_to!(*node => (*node)->LIST_0));
                    assert(decreases_to!(*list => list@));
                    assert(decreases_to!(list@ => list@[k as int]));
                    assert(decreases_to!(*node => list@[k as int]));
                }
                let part = be_encode(&list[k]);
                res.append(part.as_str());
                proof {
                    lemma_encode_list_snoc(items, k as int);
                    assert(res@ =~= seq!['l'] + encode_list(items.take(k + 1)));
                }
                k += 1;
            }
            push_char(&mut res, 'e');
            assert(items.take(list.len() as int) =~= items);
            assert(res@ =~= encode(node_model(*node)));
        },
        BeNode::DICT(dict) => {
            let ghost entries = dict_model(dict@);
            proof {
                lemma_dict_model(dict@);
            }
            push_char(&mut res, 'd');
            let mut k: usize = 0;
            while k < dict.len()
                invariant
                    k <= dict.len(),
                    *node == BeNode::DICT(*dict),
                    entries == dict_model(dict@),
                    entries.len() == dict@.len(),
                    forall|j: int|
                        0 <= j < dict@.len() ==> #[trigger] entries[j] == (
                            dict@[j].0@,
                            node_model(dict@[j].1),
                        ),
                    res@ == seq!['d'] + encode_entries(entries.take(k as int)),
                decreases dict.len() - k,
            {
                let entry = &dict[k];
                push_encoded_str(&mut res, &entry.0);
                proof {
                    assert(decreases_to!(*node => (*node)->DICT_0));
                    assert(decreases_to!(*dict => dict@));
                    assert(decreases_to!(dict@ => dict@[k as int]));
                    assert(decreases_to!(dict@[k as int] => dict@[k as int].1));
                    assert(decreases_to!(*node => dict@[k as int].1));
                }
                let part = be_encode(&entry.1);
                res.append(part.as_str());
                proof {
                    lemma_encode_entries_snoc(entries, k as int);
                    assert(res@ =~= seq!['d'] + encode_entries(entries.take(k + 1)));
                }
                k += 1;
            }
            push_char(&mut res, 'e');
            assert(entries.take(dict.len() as int) =~= entries);
            assert(res@ =~= encode(node_model(*node)));
        },
    }
    res
}

// ---------------------------------------------------------------------------
// Decoding an encoding
// ---------------------------------------------------------------------------

/// Values that come back unchanged from their encoding: integers above
/// `i64::MIN`, strings of ASCII characters, and lists of such values.
pub open spec fn round_trips(v: BeValue) -> bool
    decreases v, 0nat,
{
    match v {
        BeValue::Num(x) => -i64::MAX <= x <= i64::MAX,
        BeValue::Str(s) => is_ascii_chars(s),
        BeValue::List(items) => all_round_trip(items),
        BeValue::Dict(_) => false,
    }
}

pub open spec fn all_round_trip(items: Seq<BeValue>) -> bool
    decreases items, 1nat,
{
    items.len() == 0 || (round_trips(items[0]) && all_round_trip(items.drop_first()))
}

proof fn lemma_nat_decimal(n: nat)
    ensures
        nat_decimal(n).len() >= 1,
        all_digits(nat_decimal(n)),
        decimal_value(nat_decimal(n)) == n,
    decreases n,
{
    let d = nat_decimal(n);
    if n < 10 {
        assert(d.drop_last() =~= Seq::<char>::empty());
        assert(decimal_value(Seq::<char>::empty()) == 0);
        assert(decimal_value(d) == decimal_value(d.drop_last()) * 10 + digit_value(d.last()));
        assert(digit_value(digit_char(n as int)) == n);
    } else {
        lemma_nat_decimal(n / 10);
        assert(d.drop_last() =~= nat_decimal(n / 10));
        assert(d.last() == digit_char((n % 10) as int));
        assert(digit_value(digit_char((n % 10) as int)) == n % 10);
        assert(decimal_value(d) == decimal_value(d.drop_last()) * 10 + digit_value(d.last()));
        assert((n / 10) * 10 + n % 10 == n);
        assert forall|k: int| 0 <= k < d.len() implies is_digit(#[trigger] d[k]) by {
            if k < d.len() - 1 {
                assert(d[k] == nat_decimal(n / 10)[k]);
            }
        }
    }
}

proof fn lemma_digits_end_at(buf: Seq<char>, p: int, q: int)
    requires
        0 <= p <= q <= buf.len(),
        forall|k: int| p <= k < q ==> is_digit(#[trigger] buf[k]),
        q < buf.len() ==> !is_digit(buf[q]),
    ensures
        digits_end(buf, p) == q,
    decreases q - p,
{
    if p < q {
        lemma_digits_end_at(buf, p + 1, q);
    }
}

proof fn lemma_encode_first(v: BeValue)
    requires
        round_trips(v),
    ensures
        encode(v).len() >= 1,
        encode(v)[0] == 'i' || encode(v)[0] == 'l' || is_digit(encode(v)[0]),
{
    match v {
        BeValue::Str(s) => {
            lemma_nat_decimal(utf8_len(s));
            assert(encode(v)[0] == nat_decimal(utf8_len(s))[0]);
        },
        _ => {},
    }
}

/// The decimal digits of `n` sit in `buf` at `p`, followed by a non-digit: they are read back as `n`.
proof fn lemma_read_decimal(buf: Seq<char>, p: int, n: nat)
    requires
        0 <= p,
        p + nat_decimal(n).len() < buf.len(),
        buf.subrange(p, p + nat_decimal(n).len()) == nat_decimal(n),
        !is_digit(buf[p + nat_decimal(n).len()]),
    ensures
        digits_end(buf, p) == p + nat_decimal(n).len(),
        decimal_value(buf.subrange(p, p + nat_decimal(n).len())) == n,
{
    let d = nat_decimal(n);
    lemma_nat_decimal(n);
    assert forall|k: int| p <= k < p + d.len() implies is_digit(#[trigger] buf[k]) by {
        assert(buf[k] == buf.subrange(p, p + d.len())[k - p]);
    }
    lemma_digits_end_at(buf, p, p + d.len());
}

/// An encoding read back from anywhere in a buffer: when the encoding of `v` sits in
/// `buf` at position `i`, decoding at `i` gives `v` and stops right after the
/// encoding, whatever comes before or after it (for integers above `i64::MIN`,
/// ASCII strings, and lists of such values).
pub proof fn law_decode_encoded_at(buf: Seq<char>, i: int, v: BeValue)
    requires
        0 <= i,
        round_trips(v),
        i + encode(v).len() <= buf.len(),
        buf.subrange(i, i + encode(v).len()) == encode(v),
    ensures
        decode_at(buf, i) == Some((v, i + encode(v).len())),
    decreases v, 0nat,
{
    let e = encode(v);
    let l = e.len() as int;
    assert forall|k: int| 0 <= k < l implies #[trigger] buf[i + k] == e[k] by {
        assert(buf.subrange(i, i + l)[k] == buf[i + k]);
    }
    lemma_encode_first(v);
    assert(buf[i] == e[0]);
    match v {
        BeValue::Num(x) => {
            let neg = x < 0;
            let m: nat = if neg { (-x) as nat } else { x as nat };
            let d = nat_decimal(m);
            let p = if neg { i + 2 } else { i + 1 };
            lemma_nat_decimal(m);
            if neg {
                assert(e == seq!['i'] + (seq!['-'] + d) + seq!['e']);
                assert(buf[i + 1] == e[1]);
            } else {
                assert(e == seq!['i'] + d + seq!['e']);
                assert(buf[i + 1] == e[1]);
                assert(e[1] == d[0]);
            }
            assert(buf.subrange(p, p + d.len()) =~= d) by {
                assert forall|k: int| 0 <= k < d.len() implies buf.subrange(p, p + d.len())[k]
                    == d[k] by {
                    assert(buf[i + (p - i + k)] == e[p - i + k]);
                }
            }
            assert(buf[p + d.len()] == e[l - 1]);
            lemma_read_decimal(buf, p, m);
        },
        BeValue::Str(s) => {
            lemma_ascii_utf8_len(s);
            let n = s.len();
            let d = nat_decimal(n);
            lemma_nat_decimal(n);
            assert(e == d + seq![':'] + s);
            assert(buf.subrange(i, i + d.len()) =~= d) by {
                assert forall|k: int| 0 <= k < d.len() implies buf.subrange(i, i + d.len())[k]
                    == d[k] by {
                    assert(buf[i + k] == e[k]);
                }
            }
            assert(buf[i + d.len()] == e[d.len() as int]);
            lemma_read_decimal(buf, i, n);
            let q = i + d.len();
            assert(buf.subrange(q + 1, q + 1 + n) =~= s) by {
                assert forall|k: int| 0 <= k < n implies buf.subrange(q + 1, q + 1 + n)[k]
                    == s[k] by {
                    assert(buf[i + (d.len() + 1 + k)] == e[d.len() + 1 + k]);
                }
            }
        },
        BeValue::List(items) => {
            let el = encode_list(items);
            assert(e == seq!['l'] + el + seq!['e']);
            assert(buf.subrange(i + 1, i + 1 + el.len()) =~= el) by {
                assert forall|k: int| 0 <= k < el.len() implies buf.subrange(
                    i + 1,
                    i + 1 + el.len(),
                )[k] == el[k] by {
                    assert(buf[i + (1 + k)] == e[1 + k]);
                }
            }
            assert(buf[i + 1 + el.len()] == e[l - 1]);
            lemma_decode_items_encoded(buf, i + 1, items);
        },
        BeValue::Dict(_) => {},
    }
}

proof fn lemma_ascii_utf8_len(s: Seq<char>)
    requires
        is_ascii_chars(s),
    ensures
        utf8_len(s) == s.len(),
{
    is_ascii_chars_encode_utf8(s);
}

proof fn lemma_decode_items_encoded(buf: Seq<char>, k: int, items: Seq<BeValue>)
    requires
        0 <= k,
        all_round_trip(items),
        k + encode_list(items).len() < buf.len(),
        buf.subrange(k, k + encode_list(items).len()) == encode_list(items),
        buf[k + encode_list(items).len()] == 'e',
    ensures
        decode_items(buf, k) == Some((items, k + encode_list(items).len() + 1)),
    decreases items, 1nat,
{
    let el = encode_list(items);
    if items.len() == 0 {
        assert(el.len() == 0);
    } else {
        let first = items[0];
        let rest = items.drop_first();
        let e0 = encode(first);
        let er = encode_list(rest);
        assert(el == e0 + er);
        lemma_encode_first(first);
        assert(buf.subrange(k, k + e0.len()) =~= e0) by {
            assert forall|m: int| 0 <= m < e0.len() implies buf.subrange(k, k + e0.len())[m]
                == e0[m] by {
                assert(buf.subrange(k, k + el.len())[m] == buf[k + m]);
            }
        }
        assert(buf[k] == e0[0]);
        law_decode_encoded_at(buf, k, first);
        let j = k + e0.len();
        assert(buf.subrange(j, j + er.len()) =~= er) by {
            assert forall|m: int| 0 <= m < er.len() implies buf.subrange(j, j + er.len())[m]
                == er[m] by {
                assert(buf.subrange(k, k + el.len())[e0.len() + m] == buf[j + m]);
            }
        }
        lemma_decode_items_encoded(buf, j, rest);
        assert(seq![first] + rest =~= items);
    }
}

/// Decoding an encoded value gives the value back, and consumes exactly its
/// encoding, for integers above `i64::MIN`, ASCII strings, and lists of such values.
pub proof fn law_decode_encode(v: BeValue)
    requires
        round_trips(v),
    ensures
        decode_at(encode(v), 0) == Some((v, encode(v).len() as int)),
{
    let e = encode(v);
    assert(e.subrange(0, e.len() as int) =~= e);
    law_decode_encoded_at(e, 0, v);
}

// ---------------------------------------------------------------------------
// Dictionaries: entries kept in increasing order of their keys
// ---------------------------------------------------------------------------

/// Order of `String` keys: lexicographic on characters (the order of their UTF-8 bytes).
pub open spec fn key_lt(a: Seq<char>, b: Seq<char>) -> bool
    decreases a.len(),
{
    if a.len() == 0 {
        b.len() > 0
    } else if b.len() == 0 {
        false
    } else if a[0] != b[0] {
        (a[0] as u32) < (b[0] as u32)
    } else {
        key_lt(a.drop_first(), b.drop_first())
    }
}

/// Each key is smaller than the keys after it: keys are increasing and unique.
pub open spec fn keys_sorted(entries: Seq<(Seq<char>, BeValue)>) -> bool {
    forall|i: int, j: int|
        0 <= i < j < entries.len() ==> key_lt(#[trigger] entries[i].0, #[trigger] entries[j].0)
}

/// The value stored under `key`, if any.
pub open spec fn lookup(entries: Seq<(Seq<char>, BeValue)>, key: Seq<char>) -> Option<BeValue>
    decreases entries.len(),
{
    if entries.len() == 0 {
        None
    } else if entries[0].0 == key {
        Some(entries[0].1)
    } else {
        lookup(entries.drop_first(), key)
    }
}

proof fn lemma_key_lt_irreflexive(a: Seq<char>)
    ensures
        !key_lt(a, a),
    decreases a.len(),
{
    if a.len() > 0 {
        lemma_key_lt_irreflexive(a.drop_first());
    }
}

proof fn lemma_key_lt_total(a: Seq<char>, b: Seq<char>)
    ensures
        a == b || key_lt(a, b) || key_lt(b, a),
        !(key_lt(a, b) && key_lt(b, a)),
    decreases a.len(),
{
    if a.len() > 0 && b.len() > 0 {
        if a[0] == b[0] {
            lemma_key_lt_total(a.drop_first(), b.drop_first());
            if a.drop_first() == b.drop_first() {
                assert(a =~= seq![a[0]] + a.drop_first());
                assert(b =~= seq![b[0]] + b.drop_first());
            }
        } else {
            vstd::utf8::char_u32_cast(a[0], a[0] as u32);
            vstd::utf8::char_u32_cast(b[0], b[0] as u32);
        }
    } else if a.len() == 0 && b.len() == 0 {
        assert(a =~= b);
    }
}

proof fn lemma_key_lt_transitive(a: Seq<char>, b: Seq<char>, c: Seq<char>)
    requires
        key_lt(a, b),
        key_lt(b, c),
    ensures
        key_lt(a, c),
    decreases a.len(),
{
    if a.len() > 0 && b.len() > 0 && c.len() > 0 && a[0] == b[0] && b[0] == c[0] {
        lemma_key_lt_transitive(a.drop_first(), b.drop_first(), c.drop_first());
    }
}

proof fn lemma_lookup_absent(entries: Seq<(Seq<char>, BeValue)>, key: Seq<char>)
    requires
        forall|i: int| 0 <= i < entries.len() ==> #[trigger] entries[i].0 != key,
    ensures
        lookup(entries, key) is None,
    decreases entries.len(),
{
    if entries.len() > 0 {
        assert(entries[0].0 != key);
        assert forall|i: int| 0 <= i < entries.drop_first().len() implies #[trigger] entries.drop_first()[i].0
            != key by {
            assert(entries.drop_first()[i] == entries[i + 1]);
        }
        lemma_lookup_absent(entries.drop_first(), key);
    }
}

proof fn lemma_lookup_at(entries: Seq<(Seq<char>, BeValue)>, p: int, key: Seq<char>)
    requires
        0 <= p < entries.len(),
        entries[p].0 == key,
        forall|i: int| 0 <= i < p ==> #[trigger] entries[i].0 != key,
    ensures
        lookup(entries, key) == Some(entries[p].1),
    decreases p,
{
    if p > 0 {
        assert forall|i: int| 0 <= i < p - 1 implies #[trigger] entries.drop_first()[i].0 != key by {
            assert(entries.drop_first()[i] == entries[i + 1]);
        }
        lemma_lookup_at(entries.drop_first(), p - 1, key);
    }
}

/// In sorted entries, the lookup of a key is the entry that holds it.
proof fn lemma_lookup_sorted(entries: Seq<(Seq<char>, BeValue)>, key: Seq<char>)
    requires
        keys_sorted(entries),
    ensures
        lookup(entries, key) matches Some(v) ==> exists|p: int|
            0 <= p < entries.len() && #[trigger] entries[p] == (key, v),
        lookup(entries, key) is None ==> forall|p: int|
            0 <= p < entries.len() ==> #[trigger] entries[p].0 != key,
    decreases entries.len(),
{
    if entries.len() > 0 {
        let t = entries.drop_first();
        assert(keys_sorted(t)) by {
            assert forall|i: int, j: int| 0 <= i < j < t.len() implies key_lt(
                #[trigger] t[i].0,
                #[trigger] t[j].0,
            ) by {
                assert(t[i] == entries[i + 1] && t[j] == entries[j + 1]);
            }
        }
        lemma_lookup_sorted(t, key);
        if entries[0].0 == key {
            assert(entries[0] == (key, entries[0].1));
        } else {
            match lookup(t, key) {
                Some(v) => {
                    let p = choose|p: int| 0 <= p < t.len() && #[trigger] t[p] == (key, v);
                    assert(entries[p + 1] == t[p]);
                },
                None => {
                    assert forall|p: int| 0 <= p < entries.len() implies #[trigger] entries[p].0
                        != key by {
                        if p > 0 {
                            assert(entries[p] == t[p - 1]);
                        }
                    }
                },
            }
        }
    }
}

/// Keys compare as `key_lt` says.
fn key_less(a: &String, b: &String) -> (r: bool)
    ensures
        r == key_lt(a@, b@),
{
    let sa = a.as_str();
    let sb = b.as_str();
    let la = sa.unicode_len();
    let lb = sb.unicode_len();
    let mut i: usize = 0;
    assert(a@.skip(0) =~= a@);
    assert(b@.skip(0) =~= b@);
    while i < la && i < lb
        invariant
            sa@ == a@,
            sb@ == b@,
            la == a@.len(),
            lb == b@.len(),
            i <= la,
            i <= lb,
            key_lt(a@, b@) == key_lt(a@.skip(i as int), b@.skip(i as int)),
        decreases la - i,
    {
        let ca = sa.get_char(i);
        let cb = sb.get_char(i);
        if ca != cb {
            assert(a@.skip(i as int)[0] == ca);
            assert(b@.skip(i as int)[0] == cb);
            return (ca as u32) < (cb as u32);
        }
        assert(a@.skip(i as int).drop_first() =~= a@.skip(i + 1));
        assert(b@.skip(i as int).drop_first() =~= b@.skip(i + 1));
        i += 1;
    }
    i < lb
}

/// Stores `value` under `key`, replacing the value stored there before,
/// and keeps the keys in increasing order.
pub fn dict_insert(dict: &mut Vec<(String, BeNode)>, key: String, value: BeNode)
    requires
        keys_sorted(dict_model(old(dict)@)),
    ensures
        keys_sorted(dict_model(final(dict)@)),
        forall|k: Seq<char>|
            #[trigger] lookup(dict_model(final(dict)@), k) == if k == key@ {
                Some(node_model(value))
            } else {
                lookup(dict_model(old(dict)@), k)
            },
{
    let ghost old_entries = dict_model(dict@);
    let ghost v = node_model(value);
    proof {
        lemma_dict_model(dict@);
    }
    let mut p: usize = 0;
    while p < dict.len() && key_less(&dict[p].0, &key)
        invariant
            p <= dict.len(),
            dict@ == old(dict)@,
            old_entries == dict_model(dict@),
            old_entries.len() == dict@.len(),
            forall|j: int|
                0 <= j < dict@.len() ==> #[trigger] old_entries[j] == (
                    dict@[j].0@,
                    node_model(dict@[j].1),
                ),
            forall|j: int| 0 <= j < p ==> key_lt(#[trigger] old_entries[j].0, key@),
        decreases dict.len() - p,
    {
        p += 1;
    }
    let ghost key_v = key@;
    let replace = p < dict.len() && dict[p].0 == key;
    if replace {
        dict.set(p, (key, value));
    } else {
        dict.insert(p, (key, value));
    }
    proof {
        let new_entries = dict_model(dict@);
        lemma_dict_model(dict@);
        let e = (key_v, v);
        if replace {
            assert(new_entries =~= old_entries.update(p as int, e));
        } else {
            assert(new_entries =~= old_entries.insert(p as int, e));
        }
        // the keys after position p are larger than `key`
        assert forall|j: int| p <= j < old_entries.len() && !(replace && j == p) implies key_lt(
            key_v,
            #[trigger] old_entries[j].0,
        ) by {
            assert(keys_sorted(old_entries));
            if replace {
                assert(key_lt(old_entries[p as int].0, old_entries[j].0));
            } else {
                lemma_key_lt_total(old_entries[p as int].0, key_v);
                if j > p {
                    assert(key_lt(old_entries[p as int].0, old_entries[j].0));
                    lemma_key_lt_transitive(key_v, old_entries[p as int].0, old_entries[j].0);
                }
            }
        }
        assert forall|j: int| 0 <= j < p implies #[trigger] old_entries[j].0 != key_v by {
            lemma_key_lt_irreflexive(key_v);
        }
        assert(keys_sorted(new_entries)) by {
            assert forall|i: int, j: int| 0 <= i < j < new_entries.len() implies key_lt(
                #[trigger] new_entries[i].0,
                #[trigger] new_entries[j].0,
            ) by {
                if replace {
                    if i == p {
                        assert(new_entries[i] == e);
                    } else if j == p {
                        assert(new_entries[i] == old_entries[i]);
                    } else {
                        assert(new_entries[i] == old_entries[i] && new_entries[j] == old_entries[j]);
                    }
                } else {
                    if i < p && j < p {
                        assert(new_entries[i] == old_entries[i] && new_entries[j] == old_entries[j]);
                    } else if i < p && j == p {
                        assert(new_entries[i] == old_entries[i]);
                    } else if i < p {
                        assert(new_entries[i] == old_entries[i] && new_entries[j] == old_entries[j - 1]);
                        lemma_key_lt_transitive(old_entries[i].0, key_v, old_entries[j - 1].0);
                    } else if i == p {
                        assert(new_entries[j] == old_entries[j - 1]);
                    } else {
                        assert(new_entries[i] == old_entries[i - 1] && new_entries[j] == old_entries[j - 1]);
                    }
                }
            }
        }
        assert forall|k: Seq<char>| #[trigger] lookup(new_entries, k) == if k == key_v {
            Some(v)
        } else {
            lookup(old_entries, k)
        } by {
            if k == key_v {
                assert(new_entries[p as int] == e);
                assert forall|i: int| 0 <= i < p implies #[trigger] new_entries[i].0 != k by {
                    assert(new_entries[i] == old_entries[i]);
                }
                lemma_lookup_at(new_entries, p as int, k);
            } else {
                lemma_lookup_sorted(old_entries, k);
                lemma_lookup_sorted(new_entries, k);
                match lookup(old_entries, k) {
                    Some(w) => {
                        let q = choose|q: int| 0 <= q < old_entries.len() && #[trigger] old_entries[q]
                            == (k, w);
                        let q2 = if replace || q < p { q } else { q + 1 };
                        assert(new_entries[q2] == (k, w));
                        assert forall|i: int| 0 <= i < q2 implies #[trigger] new_entries[i].0 != k by {
                            if i != p || replace {
                                let oi = if replace || i < p { i } else { i - 1 };
                                if i == p {
                                } else {
                                    assert(new_entries[i] == old_entries[oi]);
                                    if old_entries[oi].0 == k {
                                        assert(keys_sorted(old_entries));
                                        lemma_key_lt_irreflexive(k);
                                        if oi < q {
                                            assert(key_lt(old_entries[oi].0, old_entries[q].0));
                                        }
                                    }
                                }
                            }
                        }
                        lemma_lookup_at(new_entries, q2, k);
                    },
                    None => {
                        assert forall|i: int| 0 <= i < new_entries.len() implies #[trigger] new_entries[i].0
                            != k by {
                            if !(i == p) {
                                let oi = if replace || i < p { i } else { i - 1 };
                                assert(new_entries[i] == old_entries[oi]);
                            }
                        }
                        lemma_lookup_absent(new_entries, k);
                    },
                }
            }
        }
    }
}

/// The value stored under `key`, if any.
pub fn dict_get<'a>(dict: &'a Vec<(String, BeNode)>, key: &String) -> (r: Option<&'a BeNode>)
    ensures
        match r {
            Some(n) => lookup(dict_model(dict@), key@) == Some(node_model(*n)),
            None => lookup(dict_model(dict@), key@) is None,
        },
{
    let ghost entries = dict_model(dict@);
    proof {
        lemma_dict_model(dict@);
    }
    let mut p: usize = 0;
    while p < dict.len()
        invariant
            p <= dict.len(),
            entries == dict_model(dict@),
            entries.len() == dict@.len(),
            forall|j: int|
                0 <= j < dict@.len() ==> #[trigger] entries[j] == (dict@[j].0@, node_model(dict@[j].1)),
            forall|j: int| 0 <= j < p ==> #[trigger] entries[j].0 != key@,
        decreases dict.len() - p,
    {
        if dict[p].0 == *key {
            proof {
                lemma_lookup_at(entries, p as int, key@);
            }
            return Some(&dict[p].1);
        }
        p += 1;
    }
    proof {
        lemma_lookup_absent(entries, key@);
    }
    None
}


/// A copy of a value.
pub fn clone_node(node: &BeNode) -> (r: BeNode)
    ensures
        node_model(r) == node_model(*node),
    decreases node,
{
    match node {
        BeNode::NUM(x) => BeNode::NUM(*x),
        BeNode::STR(s) => BeNode::STR(s.clone()),
        BeNode::LIST(list) => {
            let mut out: Vec<BeNode> = Vec::new();
            let mut k: usize = 0;
            proof {
                lemma_list_model(list@);
            }
            while k < list.len()
                invariant
                    k <= list.len(),
                    *node == BeNode::LIST(*list),
                    out@.len() == k,
                    list_model(list@).len() == list@.len(),
                    forall|j: int| 0 <= j < list@.len() ==> #[trigger] list_model(list@)[j] == node_model(list@[j]),
                    forall|j: int| 0 <= j < k ==> #[trigger] node_model(out@[j]) == node_model(list@[j]),
                decreases list.len() - k,
            {
                proof {
                    assert(decreases_to!(*node => (*node)->LIST_0));
                    assert(decreases_to!(*list => list@));
                    assert(decreases_to!(list@ => list@[k as int]));
                }
                let c = clone_node(&list[k]);
                out.push(c);
                k += 1;
            }
            proof {
                lemma_list_model(out@);
                assert(list_model(out@) =~= list_model(list@));
            }
            BeNode::LIST(out)
        },
        BeNode::DICT(dict) => {
            let mut out: Vec<(String, BeNode)> = Vec::new();
            let mut k: usize = 0;
            proof {
                lemma_dict_model(dict@);
            }
            while k < dict.len()
                invariant
                    k <= dict.len(),
                    *node == BeNode::DICT(*dict),
                    out@.len() == k,
                    dict_model(dict@).len() == dict@.len(),
                    forall|j: int|
                        0 <= j < dict@.len() ==> #[trigger] dict_model(dict@)[j] == (
                            dict@[j].0@,
                            node_model(dict@[j].1),
                        ),
                    forall|j: int|
                        0 <= j < k ==> #[trigger] out@[j].0@ == dict@[j].0@ && node_model(out@[j].1)
                            == node_model(dict@[j].1),
                decreases dict.len() - k,
            {
                proof {
                    assert(decreases_to!(*node => (*node)->DICT_0));
                    assert(decreases_to!(*dict => dict@));
                    assert(decreases_to!(dict@ => dict@[k as int]));
                    assert(decreases_to!(dict@[k as int] => dict@[k as int].1));
                }
                let v = clone_node(&dict[k].1);
                let key = dict[k].0.clone();
                out.push((key, v));
                k += 1;
            }
            proof {
                lemma_dict_model(out@);
                assert(dict_model(out@) =~= dict_model(dict@));
            }
            BeNode::DICT(out)
        },
    }
}


// ---------------------------------------------------------------------------
// Equality: dictionaries compare as maps
// ---------------------------------------------------------------------------

/// Equal values: equal integers, equal strings, lists equal item by item, and
/// dictionaries with as many entries, each key of the first holding an equal
/// value in the second.
pub open spec fn same_value(a: BeValue, b: BeValue) -> bool
    decreases a, 0nat,
{
    match a {
        BeValue::Num(x) => b is Num && b->Num_0 == x,
        BeValue::Str(s) => b is Str && b->Str_0 == s,
        BeValue::List(xs) => b is List && same_items(xs, b->List_0),
        BeValue::Dict(es) => b is Dict && es.len() == b->Dict_0.len() && entries_found(
            es,
            b->Dict_0,
        ),
    }
}

/// Lists of the same length, equal item by item.
pub open spec fn same_items(xs: Seq<BeValue>, ys: Seq<BeValue>) -> bool
    decreases xs, 1nat,
{
    xs.len() == ys.len() && (xs.len() == 0 || (same_value(xs[0], ys[0]) && same_items(
        xs.drop_first(),
        ys.drop_first(),
    )))
}

/// Each key of `es` holds, in `fs`, a value equal to its own.
pub open spec fn entries_found(es: Seq<(Seq<char>, BeValue)>, fs: Seq<(Seq<char>, BeValue)>) -> bool
    decreases es, 1nat,
{
    es.len() == 0 || (match lookup(fs, es[0].0) {
        Some(w) => same_value(es[0].1, w),
        None => false,
    } && entries_found(es.drop_first(), fs))
}

/// Tells whether two values are equal as `same_value` says.
pub fn be_equal(a: &BeNode, b: &BeNode) -> (r: bool)
    ensures
        r == same_value(node_model(*a), node_model(*b)),
    decreases a,
{
    match a {
        BeNode::NUM(x) => match b {
            BeNode::NUM(y) => *x == *y,
            _ => false,
        },
        BeNode::STR(s) => match b {
            BeNode::STR(t) => *s == *t,
            _ => false,
        },
        BeNode::LIST(xs) => match b {
            BeNode::LIST(ys) => {
                proof {
                    lemma_list_model(xs@);
                    lemma_list_model(ys@);
                }
                if xs.len() != ys.len() {
                    return false;
                }
                let ghost mx = list_model(xs@);
                let ghost my = list_model(ys@);
                let mut k: usize = 0;
                assert(mx.skip(0) =~= mx);
                assert(my.skip(0) =~= my);
                while k < xs.len()
                    invariant
                        *a == BeNode::LIST(*xs),
                        *b == BeNode::LIST(*ys),
                        k <= xs@.len() == ys@.len(),
                        mx == list_model(xs@),
                        my == list_model(ys@),
                        mx.len() == xs@.len() && my.len() == ys@.len(),
                        forall|j: int| 0 <= j < xs@.len() ==> #[trigger] mx[j] == node_model(xs@[j]),
                        forall|j: int| 0 <= j < ys@.len() ==> #[trigger] my[j] == node_model(ys@[j]),
                        same_items(mx, my) == same_items(mx.skip(k as int), my.skip(k as int)),
                    decreases xs@.len() - k,
                {
                    proof {
                        assert(decreases_to!(*a => (*a)->LIST_0));
                        assert(decreases_to!(*xs => xs@));
                        assert(decreases_to!(xs@ => xs@[k as int]));
                        assert(mx.skip(k as int)[0] == mx[k as int]);
                        assert(my.skip(k as int)[0] == my[k as int]);
                        assert(mx.skip(k as int).drop_first() =~= mx.skip(k + 1));
                        assert(my.skip(k as int).drop_first() =~= my.skip(k + 1));
                    }
                    if !be_equal(&xs[k], &ys[k]) {
                        assert(!same_items(mx.skip(k as int), my.skip(k as int)));
                        return false;
                    }
                    k += 1;
                }
                true
            },
            _ => false,
        },
        BeNode::DICT(es) => match b {
            BeNode::DICT(fs) => {
                proof {
                    lemma_dict_model(es@);
                    lemma_dict_model(fs@);
                }
                if es.len() != fs.len() {
                    return false;
                }
                let ghost me = dict_model(es@);
                let ghost mf = dict_model(fs@);
                let mut k: usize = 0;
                assert(me.skip(0) =~= me);
                while k < es.len()
                    invariant
                        *a == BeNode::DICT(*es),
                        *b == BeNode::DICT(*fs),
                        es@.len() == fs@.len(),
                        mf.len() == fs@.len(),
                        k <= es@.len(),
                        me == dict_model(es@),
                        mf == dict_model(fs@),
                        me.len() == es@.len(),
                        forall|j: int|
                            0 <= j < es@.len() ==> #[trigger] me[j] == (
                                es@[j].0@,
                                node_model(es@[j].1),
                            ),
                        entries_found(me, mf) == entries_found(me.skip(k as int), mf),
                    decreases es@.len() - k,
                {
                    proof {
                        assert(decreases_to!(*a => (*a)->DICT_0));
                        assert(decreases_to!(*es => es@));
                        assert(decreases_to!(es@ => es@[k as int]));
                        assert(decreases_to!(es@[k as int] => es@[k as int].1));
                        assert(me.skip(k as int)[0] == me[k as int]);
                        assert(me.skip(k as int).drop_first() =~= me.skip(k + 1));
                    }
                    match dict_get(fs, &es[k].0) {
                        Some(w) => {
                            if !be_equal(&es[k].1, w) {
                                assert(!entries_found(me.skip(k as int), mf));
                                return false;
                            }
                        },
                        None => {
                            assert(!entries_found(me.skip(k as int), mf));
                            return false;
                        },
                    }
                    k += 1;
                }
                true
            },
            _ => false,
        },
    }
}

impl PartialEq for BeNode {
    fn eq(&self, other: &Self) -> (r: bool) {
        be_equal(self, other)
    }
}

impl vstd::std_specs::cmp::PartialEqSpecImpl for BeNode {
    open spec fn obeys_eq_spec() -> bool {
        true
    }

    open spec fn eq_spec(&self, other: &BeNode) -> bool {
        same_value(node_model(*self), node_model(*other))
    }
}


// ---------------------------------------------------------------------------
// Laws of equality
// ---------------------------------------------------------------------------

/// The keys of the entries, in order.
pub open spec fn keys_of(es: Seq<(Seq<char>, BeValue)>) -> Seq<Seq<char>> {
    Seq::new(es.len(), |i: int| es[i].0)
}

/// No key occurs twice, as in a map.
pub open spec fn keys_unique(es: Seq<(Seq<char>, BeValue)>) -> bool {
    keys_of(es).no_duplicates()
}

/// Every dictionary in the value, at any depth, has unique keys.
pub open spec fn well_keyed(v: BeValue) -> bool
    decreases v, 0nat,
{
    match v {
        BeValue::List(xs) => all_well_keyed(xs),
        BeValue::Dict(es) => keys_unique(es) && values_well_keyed(es),
        _ => true,
    }
}

pub open spec fn all_well_keyed(xs: Seq<BeValue>) -> bool
    decreases xs, 1nat,
{
    xs.len() == 0 || (well_keyed(xs[0]) && all_well_keyed(xs.drop_first()))
}

pub open spec fn values_well_keyed(es: Seq<(Seq<char>, BeValue)>) -> bool
    decreases es, 1nat,
{
    es.len() == 0 || (well_keyed(es[0].1) && values_well_keyed(es.drop_first()))
}

proof fn lemma_all_well_keyed(xs: Seq<BeValue>)
    requires
        all_well_keyed(xs),
    ensures
        forall|i: int| 0 <= i < xs.len() ==> well_keyed(#[trigger] xs[i]),
    decreases xs.len(),
{
    if xs.len() > 0 {
        lemma_all_well_keyed(xs.drop_first());
        assert forall|i: int| 0 <= i < xs.len() implies well_keyed(#[trigger] xs[i]) by {
            if i > 0 {
                assert(xs[i] == xs.drop_first()[i - 1]);
            }
        }
    }
}

proof fn lemma_values_well_keyed(es: Seq<(Seq<char>, BeValue)>)
    requires
        values_well_keyed(es),
    ensures
        forall|i: int| 0 <= i < es.len() ==> well_keyed(#[trigger] es[i].1),
    decreases es.len(),
{
    if es.len() > 0 {
        lemma_values_well_keyed(es.drop_first());
        assert forall|i: int| 0 <= i < es.len() implies well_keyed(#[trigger] es[i].1) by {
            if i > 0 {
                assert(es[i] == es.drop_first()[i - 1]);
            }
        }
    }
}

proof fn lemma_same_items(xs: Seq<BeValue>, ys: Seq<BeValue>)
    ensures
        same_items(xs, ys) <==> (xs.len() == ys.len() && forall|i: int|
            0 <= i < xs.len() ==> same_value(#[trigger] xs[i], ys[i])),
    decreases xs.len(),
{
    if xs.len() > 0 && xs.len() == ys.len() {
        lemma_same_items(xs.drop_first(), ys.drop_first());
        if forall|i: int| 0 <= i < xs.len() ==> same_value(#[trigger] xs[i], ys[i]) {
            assert forall|i: int| 0 <= i < xs.drop_first().len() implies same_value(
                #[trigger] xs.drop_first()[i],
                ys.drop_first()[i],
            ) by {
                assert(same_value(xs[i + 1], ys[i + 1]));
            }
        }
        if same_items(xs, ys) {
            assert forall|i: int| 0 <= i < xs.len() implies same_value(#[trigger] xs[i], ys[i]) by {
                if i > 0 {
                    assert(xs[i] == xs.drop_first()[i - 1]);
                    assert(ys[i] == ys.drop_first()[i - 1]);
                }
            }
        }
    }
}

/// The value stored under `key`, when there is one, is an entry of the sequence;
/// when there is none, no entry has that key.
proof fn lemma_lookup_cases(entries: Seq<(Seq<char>, BeValue)>, key: Seq<char>)
    ensures
        lookup(entries, key) matches Some(v) ==> exists|p: int|
            0 <= p < entries.len() && #[trigger] entries[p] == (key, v),
        lookup(entries, key) is None ==> forall|p: int|
            0 <= p < entries.len() ==> #[trigger] entries[p].0 != key,
    decreases entries.len(),
{
    if entries.len() > 0 {
        let t = entries.drop_first();
        lemma_lookup_cases(t, key);
        if entries[0].0 == key {
            assert(entries[0] == (key, entries[0].1));
        } else {
            match lookup(t, key) {
                Some(v) => {
                    let p = choose|p: int| 0 <= p < t.len() && #[trigger] t[p] == (key, v);
                    assert(entries[p + 1] == t[p]);
                },
                None => {
                    assert forall|p: int| 0 <= p < entries.len() implies #[trigger] entries[p].0
                        != key by {
                        if p > 0 {
                            assert(entries[p] == t[p - 1]);
                        }
                    }
                },
            }
        }
    }
}

/// With unique keys, the lookup of an entry's key gives that entry's value.
proof fn lemma_lookup_unique(es: Seq<(Seq<char>, BeValue)>, i: int)
    requires
        keys_unique(es),
        0 <= i < es.len(),
    ensures
        lookup(es, es[i].0) == Some(es[i].1),
{
    assert forall|j: int| 0 <= j < i implies #[trigger] es[j].0 != es[i].0 by {
        assert(keys_of(es)[j] == es[j].0 && keys_of(es)[i] == es[i].0);
    }
    lemma_lookup_at(es, i, es[i].0);
}

proof fn lemma_entries_found(es: Seq<(Seq<char>, BeValue)>, fs: Seq<(Seq<char>, BeValue)>)
    ensures
        entries_found(es, fs) <==> forall|i: int|
            0 <= i < es.len() ==> #[trigger] lookup(fs, es[i].0) is Some && same_value(
                es[i].1,
                lookup(fs, es[i].0).unwrap(),
            ),
    decreases es.len(),
{
    if es.len() > 0 {
        let t = es.drop_first();
        lemma_entries_found(t, fs);
        if entries_found(es, fs) {
            assert forall|i: int| 0 <= i < es.len() implies #[trigger] lookup(fs, es[i].0) is Some
                && same_value(es[i].1, lookup(fs, es[i].0).unwrap()) by {
                if i > 0 {
                    assert(es[i] == t[i - 1]);
                }
            }
        }
        if forall|i: int|
            0 <= i < es.len() ==> #[trigger] lookup(fs, es[i].0) is Some && same_value(
                es[i].1,
                lookup(fs, es[i].0).unwrap(),
            ) {
            assert(lookup(fs, es[0].0) is Some);
            assert forall|i: int| 0 <= i < t.len() implies #[trigger] lookup(fs, t[i].0) is Some
                && same_value(t[i].1, lookup(fs, t[i].0).unwrap()) by {
                assert(t[i] == es[i + 1]);
                assert(lookup(fs, es[i + 1].0) is Some);
            }
        }
    }
}

/// The set of keys of the entries.
pub open spec fn key_set(es: Seq<(Seq<char>, BeValue)>) -> Set<Seq<char>> {
    keys_of(es).to_set()
}

proof fn lemma_key_set(es: Seq<(Seq<char>, BeValue)>, k: Seq<char>)
    ensures
        key_set(es).contains(k) <==> lookup(es, k) is Some,
        key_set(es).finite(),
{
    lemma_lookup_cases(es, k);
    vstd::seq_lib::seq_to_set_is_finite(keys_of(es));
    if lookup(es, k) is Some {
        let p = choose|p: int| 0 <= p < es.len() && #[trigger] es[p] == (k, lookup(es, k).unwrap());
        assert(keys_of(es)[p] == k);
    }
    if key_set(es).contains(k) {
        let p = choose|p: int| 0 <= p < keys_of(es).len() && keys_of(es)[p] == k;
        assert(es[p].0 == k);
    }
}

/// Two unique-keyed entry sequences whose key sets are nested, and which have as
/// many entries, have the same keys.
proof fn lemma_same_key_sets(es: Seq<(Seq<char>, BeValue)>, fs: Seq<(Seq<char>, BeValue)>)
    requires
        keys_unique(es),
        keys_unique(fs),
        forall|k: Seq<char>| lookup(es, k) is Some ==> #[trigger] lookup(fs, k) is Some,
    ensures
        es.len() == fs.len() <==> forall|k: Seq<char>|
            #[trigger] lookup(fs, k) is Some ==> lookup(es, k) is Some,
{
    keys_of(es).unique_seq_to_set();
    keys_of(fs).unique_seq_to_set();
    lemma_key_set(es, Seq::empty());
    lemma_key_set(fs, Seq::empty());
    assert(key_set(es).subset_of(key_set(fs))) by {
        assert forall|k: Seq<char>| key_set(es).contains(k) implies key_set(fs).contains(k) by {
            lemma_key_set(es, k);
            lemma_key_set(fs, k);
        }
    }
    if es.len() == fs.len() {
        vstd::set_lib::lemma_subset_equality(key_set(es), key_set(fs));
        assert forall|k: Seq<char>| #[trigger] lookup(fs, k) is Some implies lookup(es, k) is Some by {
            lemma_key_set(es, k);
            lemma_key_set(fs, k);
        }
    }
    if forall|k: Seq<char>| #[trigger] lookup(fs, k) is Some ==> lookup(es, k) is Some {
        assert(key_set(es) =~= key_set(fs)) by {
            assert forall|k: Seq<char>| key_set(fs).contains(k) implies key_set(es).contains(k) by {
                lemma_key_set(es, k);
                lemma_key_set(fs, k);
            }
        }
    }
}

/// Two dictionaries without repeated keys are equal exactly when they have the
/// same keys and each key holds equal values in both.
pub proof fn law_equal_dicts(es: Seq<(Seq<char>, BeValue)>, fs: Seq<(Seq<char>, BeValue)>)
    requires
        keys_unique(es),
        keys_unique(fs),
    ensures
        same_value(BeValue::Dict(es), BeValue::Dict(fs)) <==> ((forall|k: Seq<char>|
            #[trigger] lookup(es, k) is Some <==> lookup(fs, k) is Some) && (forall|k: Seq<char>|
            #[trigger] lookup(es, k) is Some ==> same_value(
                lookup(es, k).unwrap(),
                lookup(fs, k).unwrap(),
            ))),
{
    lemma_entries_found(es, fs);
    if same_value(BeValue::Dict(es), BeValue::Dict(fs)) {
        assert forall|k: Seq<char>| lookup(es, k) is Some implies #[trigger] lookup(fs, k) is Some
            && same_value(lookup(es, k).unwrap(), lookup(fs, k).unwrap()) by {
            lemma_lookup_cases(es, k);
            let p = choose|p: int| 0 <= p < es.len() && #[trigger] es[p] == (k, lookup(es, k).unwrap());
            assert(lookup(fs, es[p].0) is Some);
        }
        lemma_same_key_sets(es, fs);
    }
    if (forall|k: Seq<char>| #[trigger] lookup(es, k) is Some <==> lookup(fs, k) is Some) && (
    forall|k: Seq<char>|
        #[trigger] lookup(es, k) is Some ==> same_value(
            lookup(es, k).unwrap(),
            lookup(fs, k).unwrap(),
        )) {
        lemma_same_key_sets(es, fs);
        assert forall|i: int| 0 <= i < es.len() implies #[trigger] lookup(fs, es[i].0) is Some
            && same_value(es[i].1, lookup(fs, es[i].0).unwrap()) by {
            lemma_lookup_unique(es, i);
            assert(lookup(es, es[i].0) is Some);
        }
    }
}

/// Dictionaries with different numbers of entries are never equal.
pub proof fn law_dict_sizes(es: Seq<(Seq<char>, BeValue)>, fs: Seq<(Seq<char>, BeValue)>)
    requires
        es.len() != fs.len(),
    ensures
        !same_value(BeValue::Dict(es), BeValue::Dict(fs)),
{
}

/// Equality is symmetric on values whose dictionaries have unique keys.
pub proof fn law_equality_symmetric(a: BeValue, b: BeValue)
    requires
        well_keyed(a),
        well_keyed(b),
    ensures
        same_value(a, b) == same_value(b, a),
{
    if same_value(a, b) {
        lemma_same_value_symmetric(a, b);
    }
    if same_value(b, a) {
        lemma_same_value_symmetric(b, a);
    }
}

proof fn lemma_same_value_symmetric(a: BeValue, b: BeValue)
    requires
        well_keyed(a),
        well_keyed(b),
        same_value(a, b),
    ensures
        same_value(b, a),
    decreases a,
{
    match a {
        BeValue::List(xs) => {
            let ys = b->List_0;
            lemma_same_items(xs, ys);
            lemma_same_items(ys, xs);
            lemma_all_well_keyed(xs);
            lemma_all_well_keyed(ys);
            assert forall|i: int| 0 <= i < ys.len() implies same_value(#[trigger] ys[i], xs[i]) by {
                assert(decreases_to!(a => xs));
                assert(decreases_to!(xs => xs[i]));
                assert(same_value(xs[i], ys[i]));
                lemma_same_value_symmetric(xs[i], ys[i]);
            }
        },
        BeValue::Dict(es) => {
            let fs = b->Dict_0;
            lemma_entries_found(es, fs);
            lemma_entries_found(fs, es);
            lemma_values_well_keyed(es);
            lemma_values_well_keyed(fs);
            assert forall|k: Seq<char>| lookup(es, k) is Some implies #[trigger] lookup(fs, k)
                is Some by {
                lemma_lookup_cases(es, k);
                let p = choose|p: int| 0 <= p < es.len() && #[trigger] es[p] == (k, lookup(es, k).unwrap());
                assert(lookup(fs, es[p].0) is Some);
            }
            lemma_same_key_sets(es, fs);
            assert forall|j: int| 0 <= j < fs.len() implies #[trigger] lookup(es, fs[j].0) is Some
                && same_value(fs[j].1, lookup(es, fs[j].0).unwrap()) by {
                let k = fs[j].0;
                lemma_lookup_unique(fs, j);
                assert(lookup(es, k) is Some);
                lemma_lookup_cases(es, k);
                let i = choose|i: int| 0 <= i < es.len() && #[trigger] es[i] == (k, lookup(es, k).unwrap());
                lemma_lookup_unique(es, i);
                assert(lookup(fs, es[i].0) is Some && same_value(es[i].1, lookup(fs, es[i].0).unwrap()));
                assert(decreases_to!(a => es));
                assert(decreases_to!(es => es[i]));
                assert(decreases_to!(es[i] => es[i].1));
                lemma_same_value_symmetric(es[i].1, fs[j].1);
            }
        },
        _ => {},
    }
}


// ---------------------------------------------------------------------------
// Laws of the key order and of the framing of encodings
// ---------------------------------------------------------------------------

/// `a` comes before `b` in lexicographic order of code points: after a common
/// prefix, either `a` ends where `b` goes on, or `a`'s next character has the
/// smaller code point.
pub open spec fn lex_before(a: Seq<char>, b: Seq<char>, i: int) -> bool {
    &&& 0 <= i <= a.len()
    &&& i <= b.len()
    &&& a.take(i) == b.take(i)
    &&& ((i == a.len() && i < b.len()) || (i < a.len() && i < b.len() && (a[i] as u32) < (
    b[i] as u32)))
}

/// The key order is the lexicographic order of code points.
pub proof fn law_key_order_lexicographic(a: Seq<char>, b: Seq<char>)
    ensures
        key_lt(a, b) <==> exists|i: int| lex_before(a, b, i),
    decreases a.len(),
{
    if a.len() == 0 {
        if b.len() > 0 {
            assert(a.take(0) =~= b.take(0));
            assert(lex_before(a, b, 0));
        }
    } else if b.len() == 0 {
    } else if a[0] != b[0] {
        if (a[0] as u32) < (b[0] as u32) {
            assert(a.take(0) =~= b.take(0));
            assert(lex_before(a, b, 0));
        }
        if exists|i: int| lex_before(a, b, i) {
            let i = choose|i: int| lex_before(a, b, i);
            if i > 0 {
                assert(a.take(i)[0] == b.take(i)[0]);
            }
        }
    } else {
        let a1 = a.drop_first();
        let b1 = b.drop_first();
        law_key_order_lexicographic(a1, b1);
        if key_lt(a1, b1) {
            let i = choose|i: int| lex_before(a1, b1, i);
            assert(a.take(i + 1) =~= seq![a[0]] + a1.take(i));
            assert(b.take(i + 1) =~= seq![b[0]] + b1.take(i));
            assert(lex_before(a, b, i + 1));
        }
        if exists|i: int| lex_before(a, b, i) {
            let i = choose|i: int| lex_before(a, b, i);
            if i == 0 {
                vstd::utf8::char_u32_cast(a[0], a[0] as u32);
                vstd::utf8::char_u32_cast(b[0], b[0] as u32);
            } else {
                assert(a1.take(i - 1) =~= a.take(i).drop_first());
                assert(b1.take(i - 1) =~= b.take(i).drop_first());
                assert(lex_before(a1, b1, i - 1));
            }
        }
    }
}

/// Lexicographic order of byte sequences.
pub open spec fn bytes_lt(a: Seq<u8>, b: Seq<u8>) -> bool
    decreases a.len(),
{
    if a.len() == 0 {
        b.len() > 0
    } else if b.len() == 0 {
        false
    } else if a[0] != b[0] {
        a[0] < b[0]
    } else {
        bytes_lt(a.drop_first(), b.drop_first())
    }
}

/// For ASCII keys the key order is the order of the keys' UTF-8 bytes, as `String`
/// compares them.
pub proof fn law_key_order_bytes(a: Seq<char>, b: Seq<char>)
    requires
        is_ascii_chars(a),
        is_ascii_chars(b),
    ensures
        key_lt(a, b) == bytes_lt(encode_utf8(a), encode_utf8(b)),
    decreases a.len(),
{
    is_ascii_chars_encode_utf8(a);
    is_ascii_chars_encode_utf8(b);
    let ea = encode_utf8(a);
    let eb = encode_utf8(b);
    if a.len() > 0 && b.len() > 0 {
        let a1 = a.drop_first();
        let b1 = b.drop_first();
        assert(is_ascii_chars(a1) && is_ascii_chars(b1)) by {
            assert forall|i: int| 0 <= i < a1.len() implies '\0' <= #[trigger] a1[i] <= '\u{7f}' by {
                assert(a1[i] == a[i + 1]);
            }
            assert forall|i: int| 0 <= i < b1.len() implies '\0' <= #[trigger] b1[i] <= '\u{7f}' by {
                assert(b1[i] == b[i + 1]);
            }
        }
        law_key_order_bytes(a1, b1);
        is_ascii_chars_encode_utf8(a1);
        is_ascii_chars_encode_utf8(b1);
        assert(ea.drop_first() =~= encode_utf8(a1)) by {
            assert forall|i: int| 0 <= i < ea.drop_first().len() implies ea.drop_first()[i]
                == encode_utf8(a1)[i] by {
                assert(a[i + 1] as u8 == ea[i + 1]);
                assert(a1[i] as u8 == encode_utf8(a1)[i]);
            }
        }
        assert(eb.drop_first() =~= encode_utf8(b1)) by {
            assert forall|i: int| 0 <= i < eb.drop_first().len() implies eb.drop_first()[i]
                == encode_utf8(b1)[i] by {
                assert(b[i + 1] as u8 == eb[i + 1]);
                assert(b1[i] as u8 == encode_utf8(b1)[i]);
            }
        }
        assert(a[0] as u8 == ea[0] && b[0] as u8 == eb[0]);
        assert((a[0] as u32) < 128 && (b[0] as u32) < 128);
        vstd::utf8::char_u32_cast(a[0], a[0] as u32);
        vstd::utf8::char_u32_cast(b[0], b[0] as u32);
    }
}

proof fn lemma_encode_list_append(xs: Seq<BeValue>, ys: Seq<BeValue>)
    ensures
        encode_list(xs + ys) == encode_list(xs) + encode_list(ys),
    decreases xs.len(),
{
    if xs.len() == 0 {
        assert(xs + ys =~= ys);
        assert(Seq::<char>::empty() + encode_list(ys) =~= encode_list(ys));
    } else {
        assert((xs + ys).drop_first() =~= xs.drop_first() + ys);
        assert((xs + ys)[0] == xs[0]);
        lemma_encode_list_append(xs.drop_first(), ys);
        let h = encode(xs[0]);
        assert(h + (encode_list(xs.drop_first()) + encode_list(ys)) =~= h + encode_list(
            xs.drop_first(),
        ) + encode_list(ys));
    }
}

proof fn lemma_encode_entries_append(es: Seq<(Seq<char>, BeValue)>, fs: Seq<(Seq<char>, BeValue)>)
    ensures
        encode_entries(es + fs) == encode_entries(es) + encode_entries(fs),
    decreases es.len(),
{
    if es.len() == 0 {
        assert(es + fs =~= fs);
        assert(Seq::<char>::empty() + encode_entries(fs) =~= encode_entries(fs));
    } else {
        assert((es + fs).drop_first() =~= es.drop_first() + fs);
        assert((es + fs)[0] == es[0]);
        lemma_encode_entries_append(es.drop_first(), fs);
        let h = encode_str(es[0].0) + encode(es[0].1);
        assert(h + (encode_entries(es.drop_first()) + encode_entries(fs)) =~= h + encode_entries(
            es.drop_first(),
        ) + encode_entries(fs));
    }
}

/// Every encoding is framed: an integer starts with `i`, a list with `l`, a
/// dictionary with `d`, and each of them ends with `e`; a string is its length,
/// `:`, then its characters.
pub proof fn law_encode_framing(v: BeValue)
    ensures
        encode(v).len() >= 2,
        match v {
            BeValue::Num(_) => encode(v)[0] == 'i' && encode(v).last() == 'e',
            BeValue::List(_) => encode(v)[0] == 'l' && encode(v).last() == 'e',
            BeValue::Dict(_) => encode(v)[0] == 'd' && encode(v).last() == 'e',
            BeValue::Str(s) => encode(v).len() == nat_decimal(utf8_len(s)).len() + 1 + s.len()
                && encode(v).skip(encode(v).len() - s.len()) == s,
        },
{
    match v {
        BeValue::Str(s) => {
            lemma_nat_decimal(utf8_len(s));
            let e = encode(v);
            assert(e.skip(e.len() - s.len()) =~= s);
        },
        _ => {},
    }
}

/// Joining two lists' items joins their encodings: the first without its closing
/// `e`, then the second without its opening `l`.
pub proof fn law_encode_list_concat(xs: Seq<BeValue>, ys: Seq<BeValue>)
    ensures
        encode(BeValue::List(xs + ys)) == encode(BeValue::List(xs)).drop_last() + encode(
            BeValue::List(ys),
        ).drop_first(),
{
    lemma_encode_list_append(xs, ys);
    assert(encode(BeValue::List(xs + ys)) =~= encode(BeValue::List(xs)).drop_last() + encode(
        BeValue::List(ys),
    ).drop_first());
}

/// Joining two dictionaries' entries joins their encodings: the first without its
/// closing `e`, then the second without its opening `d`.
pub proof fn law_encode_dict_concat(es: Seq<(Seq<char>, BeValue)>, fs: Seq<(Seq<char>, BeValue)>)
    ensures
        encode(BeValue::Dict(es + fs)) == encode(BeValue::Dict(es)).drop_last() + encode(
            BeValue::Dict(fs),
        ).drop_first(),
{
    lemma_encode_entries_append(es, fs);
    assert(encode(BeValue::Dict(es + fs)) =~= encode(BeValue::Dict(es)).drop_last() + encode(
        BeValue::Dict(fs),
    ).drop_first());
}


/// Lists are equal exactly when they have the same length and equal items at each position.
pub proof fn law_equal_lists(xs: Seq<BeValue>, ys: Seq<BeValue>)
    ensures
        same_value(BeValue::List(xs), BeValue::List(ys)) <==> (xs.len() == ys.len() && forall|
            i: int,
        |
            0 <= i < xs.len() ==> same_value(#[trigger] xs[i], ys[i])),
{
    lemma_same_items(xs, ys);
}

/// An integer or a string equals exactly the same integer or string, and nothing else.
pub proof fn law_equal_atoms(a: BeValue, b: BeValue)
    requires
        a is Num || a is Str,
    ensures
        same_value(a, b) <==> a == b,
{
}

/// Every value whose dictionaries have unique keys equals itself.
pub proof fn law_equality_reflexive(a: BeValue)
    requires
        well_keyed(a),
    ensures
        same_value(a, a),
    decreases a,
{
    match a {
        BeValue::List(xs) => {
            lemma_same_items(xs, xs);
            lemma_all_well_keyed(xs);
            assert forall|i: int| 0 <= i < xs.len() implies same_value(#[trigger] xs[i], xs[i]) by {
                assert(decreases_to!(a => xs));
                assert(decreases_to!(xs => xs[i]));
                law_equality_reflexive(xs[i]);
            }
        },
        BeValue::Dict(es) => {
            lemma_entries_found(es, es);
            lemma_values_well_keyed(es);
            assert forall|i: int| 0 <= i < es.len() implies #[trigger] lookup(es, es[i].0) is Some
                && same_value(es[i].1, lookup(es, es[i].0).unwrap()) by {
                lemma_lookup_unique(es, i);
                assert(decreases_to!(a => es));
                assert(decreases_to!(es => es[i]));
                assert(decreases_to!(es[i] => es[i].1));
                law_equality_reflexive(es[i].1);
            }
        },
        _ => {},
    }
}

} // verus!
