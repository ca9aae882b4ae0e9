//! The snapshot wire format.
//!
//! A snapshot record is laid out as a flat byte stream: integers as eight
//! little-endian bytes, strings as a length-prefixed UTF-8 encoding,
//! options and entry kinds as a single tag byte, and a directory as its
//! name, its child count and the encodings of its children in order.
//! Stored paths are never written: they are derived data, rebuilt after
//! decoding. The decoder inverts the encoder exactly: decoding the
//! encoding of any record yields that record with all stored paths absent.

use vstd::bytes::{spec_u64_from_le_bytes, spec_u64_to_le_bytes, u64_from_le_bytes, u64_to_le_bytes};
use vstd::prelude::*;
use vstd::slice::{slice_subrange, slice_to_vec};
use vstd::utf8::encode_utf8;

use crate::data::FileData;
use crate::node::dir::DirectoryNode;
use crate::node::file::FileNode;
use crate::node::Node;

verus! {

/// A length-prefixed UTF-8 string: eight little-endian bytes holding the
/// byte length, then the bytes themselves.
pub open spec fn spec_encode_string(s: Seq<char>) -> Seq<u8> {
    spec_u64_to_le_bytes(encode_utf8(s).len() as u64) + encode_utf8(s)
}

/// An optional fingerprint: a tag byte, then the string when present.
pub open spec fn spec_encode_hash(h: Option<String>) -> Seq<u8> {
    match h {
        None => seq![0u8],
        Some(s) => seq![1u8] + spec_encode_string(s@),
    }
}

/// A file entry: name, modification time, optional fingerprint. The
/// stored path is not written.
pub open spec fn spec_encode_file(f: FileNode) -> Seq<u8> {
    spec_encode_string(f.name@) + spec_u64_to_le_bytes(f.last_modified) + spec_encode_hash(f.hash)
}

/// An entry: a kind tag, then the file or directory layout.
pub open spec fn spec_encode_node(n: Node) -> Seq<u8>
    decreases n,
{
    match n {
        Node::File(f) => seq![0u8] + spec_encode_file(f),
        Node::Directory(d) => seq![1u8] + spec_encode_dir(d),
    }
}

/// A directory entry: name, child count, then the children in order. The
/// stored path is not written.
pub open spec fn spec_encode_dir(d: DirectoryNode) -> Seq<u8>
    decreases d,
{
    spec_encode_string(d.name@) + spec_u64_to_le_bytes(d.children@.len() as u64)
        + spec_encode_children(d.children@)
}

/// The encodings of the entries of `s`, concatenated in order.
pub open spec fn spec_encode_children(s: Seq<Node>) -> Seq<u8>
    decreases s,
{
    if s.len() == 0 {
        Seq::empty()
    } else {
        spec_encode_node(s[0]) + spec_encode_children(s.drop_first())
    }
}

/// A snapshot record: source path, schema version, capture time, then an
/// optional root directory behind a tag byte.
pub open spec fn spec_encode_snapshot(d: FileData) -> Seq<u8> {
    spec_encode_string(d.path@) + spec_u64_to_le_bytes(d.version) + spec_u64_to_le_bytes(d.time)
        + match d.root {
        None => seq![0u8],
        Some(r) => seq![1u8] + spec_encode_dir(r),
    }
}

/// Every child contributes at least its tag byte, so a child list never
/// encodes to fewer bytes than it has entries.
pub proof fn lemma_encode_children_len_ge(s: Seq<Node>)
    ensures
        spec_encode_children(s).len() >= s.len(),
    decreases s,
{
    if s.len() != 0 {
        lemma_encode_node_len_ge(s[0]);
        lemma_encode_children_len_ge(s.drop_first());
    }
}

/// Appending one entry to a prefix of a child list extends the encoding
/// by that entry's encoding.
pub proof fn lemma_encode_children_snoc(s: Seq<Node>, i: int)
    requires
        0 <= i < s.len(),
    ensures
        spec_encode_children(s.take(i + 1)) == spec_encode_children(s.take(i)) + spec_encode_node(
            s[i],
        ),
    decreases i,
{
    if i == 0 {
        assert(s.take(0) =~= Seq::<Node>::empty());
        assert(s.take(1)[0] == s[0]);
        assert(s.take(1).drop_first() =~= Seq::<Node>::empty());
        assert(spec_encode_children(s.take(1)) =~= spec_encode_children(s.take(0))
            + spec_encode_node(s[0]));
    } else {
        lemma_encode_children_snoc(s.drop_first(), i - 1);
        assert(s.take(i + 1)[0] == s[0]);
        assert(s.take(i)[0] == s[0]);
        assert(s.take(i + 1).drop_first() =~= s.drop_first().take(i));
        assert(s.take(i).drop_first() =~= s.drop_first().take(i - 1));
        assert(s.drop_first()[i - 1] == s[i]);
        assert(spec_encode_children(s.take(i + 1)) =~= spec_encode_children(s.take(i))
            + spec_encode_node(s[i]));
    }
}

/// Appends the eight little-endian bytes of `x`.
fn push_u64(out: &mut Vec<u8>, x: u64)
    ensures
        final(out)@ == old(out)@ + spec_u64_to_le_bytes(x),
{
    let mut v = u64_to_le_bytes(x);
    out.append(&mut v);
}

/// Appends the length-prefixed UTF-8 encoding of `s`.
fn push_string(out: &mut Vec<u8>, s: &String)
    ensures
        final(out)@ == old(out)@ + spec_encode_string(s@),
{
    let bs = s.as_str().as_bytes();
    push_u64(out, bs.len() as u64);
    let mut v = slice_to_vec(bs);
    out.append(&mut v);
}

/// Appends the encoding of a file entry.
fn encode_file(f: &FileNode, out: &mut Vec<u8>)
    ensures
        final(out)@ == old(out)@ + spec_encode_file(*f),
{
    push_string(out, &f.name);
    push_u64(out, f.last_modified);
    match &f.hash {
        None => {
            out.push(0u8);
        },
        Some(h) => {
            out.push(1u8);
            push_string(out, h);
        },
    }
    proof {
        assert(out@ =~= old(out)@ + spec_encode_file(*f));
    }
}

/// Appends the encoding of an entry.
fn encode_node(n: &Node, out: &mut Vec<u8>)
    ensures
        final(out)@ == old(out)@ + spec_encode_node(*n),
    decreases *n,
{
    match n {
        Node::File(f) => {
            out.push(0u8);
            encode_file(f, out);
        },
        Node::Directory(d) => {
            out.push(1u8);
            encode_dir(d, out);
        },
    }
    proof {
        assert(out@ =~= old(out)@ + spec_encode_node(*n));
    }
}

/// Appends the encoding of a directory entry.
fn encode_dir(d: &DirectoryNode, out: &mut Vec<u8>)
    ensures
        final(out)@ == old(out)@ + spec_encode_dir(*d),
    decreases *d,
{
    push_string(out, &d.name);
    push_u64(out, d.children.len() as u64);
    let ghost header = old(out)@ + spec_encode_string(d.name@) + spec_u64_to_le_bytes(
        d.children@.len() as u64,
    );
    let mut i: usize = 0;
    while i < d.children.len()
        invariant
            i <= d.children@.len(),
            out@ == header + spec_encode_children(d.children@.take(i as int)),
        decreases d.children@.len() - i,
    {
        encode_node(&d.children[i], out);
        proof {
            lemma_encode_children_snoc(d.children@, i as int);
        }
        i = i + 1;
    }
    proof {
        assert(d.children@.take(d.children@.len() as int) =~= d.children@);
        assert(out@ =~= old(out)@ + spec_encode_dir(*d));
    }
}

/// When a range of `whole` holds the concatenation `a + b`, the range
/// splits at `pos + a.len()` into exactly `a` and `b`.
proof fn lemma_concat_split(whole: Seq<u8>, pos: int, e: int, a: Seq<u8>, b: Seq<u8>)
    requires
        0 <= pos <= e <= whole.len(),
        whole.subrange(pos, e) == a + b,
    ensures
        e - pos == a.len() + b.len(),
        whole.subrange(pos, pos + a.len() as int) == a,
        whole.subrange(pos + a.len() as int, e) == b,
{
    assert(whole.subrange(pos, e).len() == e - pos);
    assert((a + b).len() == a.len() + b.len());
    assert(whole.subrange(pos, pos + a.len() as int) =~= a) by {
        assert forall|i: int| 0 <= i < a.len() implies whole.subrange(
            pos,
            pos + a.len() as int,
        )[i] == a[i] by {
            assert(whole.subrange(pos, pos + a.len() as int)[i] == whole[pos + i]);
            assert(whole.subrange(pos, e)[i] == whole[pos + i]);
            assert(whole.subrange(pos, e)[i] == (a + b)[i]);
            assert((a + b)[i] == a[i]);
        }
    }
    assert(whole.subrange(pos + a.len() as int, e) =~= b) by {
        assert forall|i: int| 0 <= i < b.len() implies whole.subrange(
            pos + a.len() as int,
            e,
        )[i] == b[i] by {
            assert(whole.subrange(pos + a.len() as int, e)[i] == whole[pos + a.len() + i]);
            assert(whole.subrange(pos, e)[a.len() + i] == whole[pos + a.len() + i]);
            assert(whole.subrange(pos, e)[a.len() + i] == (a + b)[a.len() + i]);
            assert((a + b)[a.len() + i] == b[i]);
        }
    }
}

/// The byte length of an encoded string: the eight-byte prefix plus the
/// UTF-8 bytes.
proof fn lemma_encode_string_len(s: Seq<char>)
    ensures
        spec_encode_string(s).len() == 8 + encode_utf8(s).len(),
{
    vstd::bytes::lemma_auto_spec_u64_to_from_le_bytes();
    assert(spec_u64_to_le_bytes(encode_utf8(s).len() as u64).len() == 8);
}

/// Every entry encoding starts with its tag byte, so it is never empty.
proof fn lemma_encode_node_len_ge(n: Node)
    ensures
        spec_encode_node(n).len() >= 1,
{
    match n {
        Node::File(f) => {
            assert(spec_encode_node(n).len() == 1 + spec_encode_file(f).len());
        },
        Node::Directory(d) => {
            assert(spec_encode_node(n).len() == 1 + spec_encode_dir(d).len());
        },
    }
}

/// An encoded optional fingerprint holds at least its tag byte.
proof fn lemma_encode_hash_len_ge(h: Option<String>)
    ensures
        spec_encode_hash(h).len() >= 1,
{
    match h {
        None => {},
        Some(s) => {
            assert(spec_encode_hash(h).len() == 1 + spec_encode_string(s@).len());
        },
    }
}

/// Relies on `String::from_utf8`: bytes that are a valid UTF-8 encoding
/// decode to exactly the character sequence that encodes to them, and any
/// other bytes are rejected.
#[verifier::external_body]
fn string_from_utf8(v: Vec<u8>) -> (r: Option<String>)
    ensures
        match r {
            Some(s) => vstd::utf8::valid_utf8(v@) && encode_utf8(s@) == v@,
            None => !vstd::utf8::valid_utf8(v@),
        },
{
    String::from_utf8(v).ok()
}

/// Reads eight little-endian bytes at `pos`.
fn read_u64(bytes: &Vec<u8>, pos: usize) -> (r: Option<(u64, usize)>)
    requires
        pos <= bytes@.len(),
    ensures
        match r {
            Some(p) => p.1 == pos + 8 && p.1 <= bytes@.len() && p.0 == spec_u64_from_le_bytes(
                bytes@.subrange(pos as int, pos + 8),
            ),
            None => bytes@.len() - pos < 8,
        },
{
    if bytes.len() - pos < 8 {
        return None;
    }
    let s = slice_subrange(bytes.as_slice(), pos, pos + 8);
    Some((u64_from_le_bytes(s), pos + 8))
}

/// Reads a length-prefixed UTF-8 string at `pos`: the decoder for
/// `spec_encode_string`.
fn read_string(bytes: &Vec<u8>, pos: usize) -> (r: Option<(String, usize)>)
    requires
        pos <= bytes@.len(),
    ensures
        r matches Some(p) ==> pos + 8 <= p.1 <= bytes@.len(),
        forall|s: Seq<char>, e: int|
            #![trigger spec_encode_string(s), bytes@.subrange(pos as int, e)]
            pos <= e <= bytes@.len() && bytes@.subrange(pos as int, e) == spec_encode_string(s)
                ==> (r matches Some(p) && p.1 == e && p.0@ == s),
{
    proof {
        vstd::bytes::lemma_auto_spec_u64_to_from_le_bytes();
    }
    let prefix = match read_u64(bytes, pos) {
        None => {
            proof {
                assert forall|s: Seq<char>, e: int|
                    #![trigger spec_encode_string(s), bytes@.subrange(pos as int, e)]
                    pos <= e <= bytes@.len() && bytes@.subrange(pos as int, e)
                        == spec_encode_string(s) implies false by {
                    assert(bytes@.subrange(pos as int, e).len() == e - pos);
                    lemma_encode_string_len(s);
                }
            }
            return None;
        },
        Some(p) => p,
    };
    let l64 = prefix.0;
    let pos2 = prefix.1;
    let remaining = bytes.len() - pos2;
    if l64 > remaining as u64 {
        proof {
            assert forall|s: Seq<char>, e: int|
                #![trigger spec_encode_string(s), bytes@.subrange(pos as int, e)]
                pos <= e <= bytes@.len() && bytes@.subrange(pos as int, e) == spec_encode_string(
                    s,
                ) implies false by {
                lemma_concat_split(
                    bytes@,
                    pos as int,
                    e,
                    spec_u64_to_le_bytes(encode_utf8(s).len() as u64),
                    encode_utf8(s),
                );
                assert(encode_utf8(s).len() == e - pos2);
                assert(l64 == encode_utf8(s).len() as u64);
            }
        }
        return None;
    }
    let l = l64 as usize;
    let data_slice = slice_subrange(bytes.as_slice(), pos2, pos2 + l);
    let v = slice_to_vec(data_slice);
    let ghost vbytes = v@;
    match string_from_utf8(v) {
        None => {
            proof {
                assert forall|s: Seq<char>, e: int|
                    #![trigger spec_encode_string(s), bytes@.subrange(pos as int, e)]
                    pos <= e <= bytes@.len() && bytes@.subrange(pos as int, e)
                        == spec_encode_string(s) implies false by {
                    lemma_concat_split(
                        bytes@,
                        pos as int,
                        e,
                        spec_u64_to_le_bytes(encode_utf8(s).len() as u64),
                        encode_utf8(s),
                    );
                    assert(l64 == encode_utf8(s).len() as u64);
                    assert(encode_utf8(s).len() == e - pos2);
                    assert(vbytes =~= encode_utf8(s));
                    vstd::utf8::encode_utf8_valid_utf8(s);
                }
            }
            None
        },
        Some(st) => {
            let end = pos2 + l;
            proof {
                assert forall|s: Seq<char>, e: int|
                    #![trigger spec_encode_string(s), bytes@.subrange(pos as int, e)]
                    pos <= e <= bytes@.len() && bytes@.subrange(pos as int, e)
                        == spec_encode_string(s) implies e == end as int && st@ == s by {
                    lemma_concat_split(
                        bytes@,
                        pos as int,
                        e,
                        spec_u64_to_le_bytes(encode_utf8(s).len() as u64),
                        encode_utf8(s),
                    );
                    assert(l64 == encode_utf8(s).len() as u64);
                    assert(encode_utf8(s).len() == e - pos2);
                    assert(vbytes =~= encode_utf8(s));
                    assert(encode_utf8(st@) == encode_utf8(s));
                    vstd::utf8::encode_utf8_decode_utf8(st@);
                    vstd::utf8::encode_utf8_decode_utf8(s);
                }
            }
            Some((st, end))
        },
    }
}

/// Reads an optional fingerprint at `pos`: the decoder for
/// `spec_encode_hash`.
fn decode_hash(bytes: &Vec<u8>, pos: usize) -> (r: Option<(Option<String>, usize)>)
    requires
        pos <= bytes@.len(),
    ensures
        r matches Some(p) ==> pos < p.1 <= bytes@.len(),
        forall|h: Option<String>, e: int|
            #![trigger spec_encode_hash(h), bytes@.subrange(pos as int, e)]
            pos <= e <= bytes@.len() && bytes@.subrange(pos as int, e) == spec_encode_hash(h)
                ==> (r matches Some(p) && p.1 == e && match (h, p.0) {
                    (None, None) => true,
                    (Some(x), Some(y)) => x@ == y@,
                    _ => false,
                }),
{
    if pos == bytes.len() {
        proof {
            assert forall|h: Option<String>, e: int|
                #![trigger spec_encode_hash(h), bytes@.subrange(pos as int, e)]
                pos <= e <= bytes@.len() && bytes@.subrange(pos as int, e) == spec_encode_hash(
                    h,
                ) implies false by {
                assert(bytes@.subrange(pos as int, e).len() == e - pos);
                lemma_encode_hash_len_ge(h);
            }
        }
        return None;
    }
    let tag = bytes[pos];
    if tag == 0 {
        proof {
            assert forall|h: Option<String>, e: int|
                #![trigger spec_encode_hash(h), bytes@.subrange(pos as int, e)]
                pos <= e <= bytes@.len() && bytes@.subrange(pos as int, e) == spec_encode_hash(
                    h,
                ) implies h is None && e == pos + 1 by {
                assert(bytes@.subrange(pos as int, e).len() == e - pos);
                lemma_encode_hash_len_ge(h);
                assert(bytes@.subrange(pos as int, e)[0] == bytes@[pos as int]);
                if h is Some {
                    assert((seq![1u8] + spec_encode_string(h.unwrap()@))[0] == 1u8);
                }
            }
        }
        Some((None, pos + 1))
    } else if tag == 1 {
        proof {
            assert forall|h: Option<String>, e: int|
                #![trigger spec_encode_hash(h), bytes@.subrange(pos as int, e)]
                pos <= e <= bytes@.len() && bytes@.subrange(pos as int, e) == spec_encode_hash(
                    h,
                ) implies h is Some && pos + 1 <= e && bytes@.subrange(pos + 1, e)
                == spec_encode_string(h.unwrap()@) by {
                assert(bytes@.subrange(pos as int, e).len() == e - pos);
                lemma_encode_hash_len_ge(h);
                assert(bytes@.subrange(pos as int, e)[0] == bytes@[pos as int]);
                if h is Some {
                    assert((seq![1u8] + spec_encode_string(h.unwrap()@))[0] == 1u8);
                    lemma_concat_split(
                        bytes@,
                        pos as int,
                        e,
                        seq![1u8],
                        spec_encode_string(h.unwrap()@),
                    );
                }
            }
        }
        match read_string(bytes, pos + 1) {
            None => None,
            Some(p) => Some((Some(p.0), p.1)),
        }
    } else {
        proof {
            assert forall|h: Option<String>, e: int|
                #![trigger spec_encode_hash(h), bytes@.subrange(pos as int, e)]
                pos <= e <= bytes@.len() && bytes@.subrange(pos as int, e) == spec_encode_hash(
                    h,
                ) implies false by {
                assert(bytes@.subrange(pos as int, e).len() == e - pos);
                lemma_encode_hash_len_ge(h);
                assert(bytes@.subrange(pos as int, e)[0] == bytes@[pos as int]);
                if h is Some {
                    assert((seq![1u8] + spec_encode_string(h.unwrap()@))[0] == 1u8);
                }
            }
        }
        None
    }
}

/// Reads a file entry at `pos`: the decoder for `spec_encode_file`. The
/// decoded entry carries no stored path.
fn decode_file(bytes: &Vec<u8>, pos: usize) -> (r: Option<(FileNode, usize)>)
    requires
        pos <= bytes@.len(),
    ensures
        r matches Some(p) ==> pos < p.1 <= bytes@.len(),
        forall|f: FileNode, e: int|
            #![trigger spec_encode_file(f), bytes@.subrange(pos as int, e)]
            pos <= e <= bytes@.len() && bytes@.subrange(pos as int, e) == spec_encode_file(f)
                ==> (r matches Some(p) && p.1 == e && p.0.path is None && p.0.name@ == f.name@
                    && p.0.last_modified == f.last_modified && match (f.hash, p.0.hash) {
                    (None, None) => true,
                    (Some(x), Some(y)) => x@ == y@,
                    _ => false,
                }),
{
    proof {
        assert forall|f: FileNode, e: int|
            #![trigger spec_encode_file(f), bytes@.subrange(pos as int, e)]
            pos <= e <= bytes@.len() && bytes@.subrange(pos as int, e) == spec_encode_file(
                f,
            ) implies bytes@.subrange(pos as int, e) == spec_encode_string(f.name@) + (
        spec_u64_to_le_bytes(f.last_modified) + spec_encode_hash(f.hash)) by {
            assert(spec_encode_file(f) =~= spec_encode_string(f.name@) + (spec_u64_to_le_bytes(
                f.last_modified,
            ) + spec_encode_hash(f.hash)));
        }
    }
    let name = match read_string(bytes, pos) {
        None => {
            proof {
                assert forall|f: FileNode, e: int|
                    #![trigger spec_encode_file(f), bytes@.subrange(pos as int, e)]
                    pos <= e <= bytes@.len() && bytes@.subrange(pos as int, e) == spec_encode_file(
                        f,
                    ) implies false by {
                    lemma_concat_split(
                        bytes@,
                        pos as int,
                        e,
                        spec_encode_string(f.name@),
                        spec_u64_to_le_bytes(f.last_modified) + spec_encode_hash(f.hash),
                    );
                }
            }
            return None;
        },
        Some(p) => p,
    };
    proof {
        vstd::bytes::lemma_auto_spec_u64_to_from_le_bytes();
        assert forall|f: FileNode, e: int|
            #![trigger spec_encode_file(f), bytes@.subrange(pos as int, e)]
            pos <= e <= bytes@.len() && bytes@.subrange(pos as int, e) == spec_encode_file(
                f,
            ) implies name.0@ == f.name@ && name.1 + 8 <= e && bytes@.subrange(
            name.1 as int,
            name.1 + 8,
        ) == spec_u64_to_le_bytes(f.last_modified) && bytes@.subrange(name.1 + 8, e)
            == spec_encode_hash(f.hash) by {
            lemma_concat_split(
                bytes@,
                pos as int,
                e,
                spec_encode_string(f.name@),
                spec_u64_to_le_bytes(f.last_modified) + spec_encode_hash(f.hash),
            );
            let e1 = pos + spec_encode_string(f.name@).len() as int;
            assert(bytes@.subrange(pos as int, e1) == spec_encode_string(f.name@));
            assert(name.1 == e1 && name.0@ == f.name@);
            lemma_concat_split(
                bytes@,
                e1,
                e,
                spec_u64_to_le_bytes(f.last_modified),
                spec_encode_hash(f.hash),
            );
        }
    }
    let mtime = match read_u64(bytes, name.1) {
        None => {
            return None;
        },
        Some(p) => p,
    };
    let hash = match decode_hash(bytes, mtime.1) {
        None => {
            return None;
        },
        Some(p) => p,
    };
    proof {
        vstd::bytes::lemma_auto_spec_u64_to_from_le_bytes();
    }
    Some((FileNode { path: None, name: name.0, last_modified: mtime.0, hash: hash.0 }, hash.1))
}

/// Reads an entry at `pos`: the decoder for `spec_encode_node`. The
/// decoded entry carries no stored paths.
fn decode_node(bytes: &Vec<u8>, pos: usize) -> (r: Option<(Node, usize)>)
    requires
        pos <= bytes@.len(),
    ensures
        r matches Some(p) ==> pos < p.1 <= bytes@.len(),
        forall|m: Node, e: int|
            #![trigger spec_encode_node(m), bytes@.subrange(pos as int, e)]
            pos <= e <= bytes@.len() && bytes@.subrange(pos as int, e) == spec_encode_node(m)
                ==> (r matches Some(p) && p.1 == e && crate::node::node_stripped(m, p.0)),
    decreases bytes@.len() - pos, 0int, 0int,
{
    if pos == bytes.len() {
        proof {
            assert forall|m: Node, e: int|
                #![trigger spec_encode_node(m), bytes@.subrange(pos as int, e)]
                pos <= e <= bytes@.len() && bytes@.subrange(pos as int, e) == spec_encode_node(
                    m,
                ) implies false by {
                assert(bytes@.subrange(pos as int, e).len() == e - pos);
                lemma_encode_node_len_ge(m);
            }
        }
        return None;
    }
    let tag = bytes[pos];
    proof {
        assert forall|m: Node, e: int|
            #![trigger spec_encode_node(m), bytes@.subrange(pos as int, e)]
            pos <= e <= bytes@.len() && bytes@.subrange(pos as int, e) == spec_encode_node(
                m,
            ) implies pos + 1 <= e && (m is File ==> tag == 0 && bytes@.subrange(pos + 1, e)
            == spec_encode_file(m->File_0)) && (m is Directory ==> tag == 1 && bytes@.subrange(
            pos + 1,
            e,
        ) == spec_encode_dir(m->Directory_0)) by {
            assert(bytes@.subrange(pos as int, e).len() == e - pos);
            lemma_encode_node_len_ge(m);
            assert(bytes@.subrange(pos as int, e)[0] == bytes@[pos as int]);
            match m {
                Node::File(f) => {
                    assert((seq![0u8] + spec_encode_file(f))[0] == 0u8);
                    lemma_concat_split(bytes@, pos as int, e, seq![0u8], spec_encode_file(f));
                },
                Node::Directory(d) => {
                    assert((seq![1u8] + spec_encode_dir(d))[0] == 1u8);
                    lemma_concat_split(bytes@, pos as int, e, seq![1u8], spec_encode_dir(d));
                },
            }
        }
    }
    if tag == 0 {
        match decode_file(bytes, pos + 1) {
            None => None,
            Some(p) => Some((Node::File(p.0), p.1)),
        }
    } else if tag == 1 {
        match decode_dir(bytes, pos + 1) {
            None => None,
            Some(p) => Some((Node::Directory(p.0), p.1)),
        }
    } else {
        None
    }
}

/// Reads a directory entry at `pos`: the decoder for `spec_encode_dir`.
/// The decoded entry carries no stored paths.
fn decode_dir(bytes: &Vec<u8>, pos: usize) -> (r: Option<(DirectoryNode, usize)>)
    requires
        pos <= bytes@.len(),
    ensures
        r matches Some(p) ==> pos < p.1 <= bytes@.len(),
        forall|d: DirectoryNode, e: int|
            #![trigger spec_encode_dir(d), bytes@.subrange(pos as int, e)]
            pos <= e <= bytes@.len() && bytes@.subrange(pos as int, e) == spec_encode_dir(d)
                ==> (r matches Some(p) && p.1 == e && crate::node::dir_stripped(d, p.0)),
    decreases bytes@.len() - pos, 0int, 1int,
{
    proof {
        assert forall|d: DirectoryNode, e: int|
            #![trigger spec_encode_dir(d), bytes@.subrange(pos as int, e)]
            pos <= e <= bytes@.len() && bytes@.subrange(pos as int, e) == spec_encode_dir(
                d,
            ) implies bytes@.subrange(pos as int, e) == spec_encode_string(d.name@) + (
        spec_u64_to_le_bytes(d.children@.len() as u64) + spec_encode_children(d.children@)) by {
            assert(spec_encode_dir(d) =~= spec_encode_string(d.name@) + (spec_u64_to_le_bytes(
                d.children@.len() as u64,
            ) + spec_encode_children(d.children@)));
        }
    }
    let name = match read_string(bytes, pos) {
        None => {
            proof {
                assert forall|d: DirectoryNode, e: int|
                    #![trigger spec_encode_dir(d), bytes@.subrange(pos as int, e)]
                    pos <= e <= bytes@.len() && bytes@.subrange(pos as int, e) == spec_encode_dir(
                        d,
                    ) implies false by {
                    lemma_concat_split(
                        bytes@,
                        pos as int,
                        e,
                        spec_encode_string(d.name@),
                        spec_u64_to_le_bytes(d.children@.len() as u64) + spec_encode_children(
                            d.children@,
                        ),
                    );
                }
            }
            return None;
        },
        Some(p) => p,
    };
    proof {
        vstd::bytes::lemma_auto_spec_u64_to_from_le_bytes();
        assert forall|d: DirectoryNode, e: int|
            #![trigger spec_encode_dir(d), bytes@.subrange(pos as int, e)]
            pos <= e <= bytes@.len() && bytes@.subrange(pos as int, e) == spec_encode_dir(
                d,
            ) implies name.0@ == d.name@ && name.1 + 8 <= e && bytes@.subrange(
            name.1 as int,
            name.1 + 8,
        ) == spec_u64_to_le_bytes(d.children@.len() as u64) && bytes@.subrange(name.1 + 8, e)
            == spec_encode_children(d.children@) && d.children@.len() < 0x1_0000_0000_0000_0000 by {
            lemma_concat_split(
                bytes@,
                pos as int,
                e,
                spec_encode_string(d.name@),
                spec_u64_to_le_bytes(d.children@.len() as u64) + spec_encode_children(d.children@),
            );
            let e1 = pos + spec_encode_string(d.name@).len() as int;
            assert(bytes@.subrange(pos as int, e1) == spec_encode_string(d.name@));
            assert(name.1 == e1 && name.0@ == d.name@);
            lemma_concat_split(
                bytes@,
                e1,
                e,
                spec_u64_to_le_bytes(d.children@.len() as u64),
                spec_encode_children(d.children@),
            );
            lemma_encode_children_len_ge(d.children@);
            assert(bytes@.subrange(e1 + 8, e).len() == e - (e1 + 8));
            assert(d.children@.len() <= e - (e1 + 8));
            assert(bytes@.len() == vstd::std_specs::vec::spec_vec_len(bytes) as nat);
            assert(vstd::std_specs::vec::spec_vec_len(bytes) <= usize::MAX);
            assert(d.children@.len() < 0x1_0000_0000_0000_0000);
        }
    }
    let count = match read_u64(bytes, name.1) {
        None => {
            return None;
        },
        Some(p) => p,
    };
    proof {
        vstd::bytes::lemma_auto_spec_u64_to_from_le_bytes();
    }
    let children = match decode_children(bytes, count.1, count.0) {
        None => {
            return None;
        },
        Some(p) => p,
    };
    Some((DirectoryNode { path: None, name: name.0, children: children.0 }, children.1))
}

/// Reads `count` entries in order from `pos`: the decoder for
/// `spec_encode_children`. The decoded entries carry no stored paths.
fn decode_children(bytes: &Vec<u8>, pos: usize, count: u64) -> (r: Option<(Vec<Node>, usize)>)
    requires
        pos <= bytes@.len(),
    ensures
        r matches Some(p) ==> pos <= p.1 <= bytes@.len(),
        forall|s: Seq<Node>, e: int|
            #![trigger spec_encode_children(s), bytes@.subrange(pos as int, e)]
            pos <= e <= bytes@.len() && bytes@.subrange(pos as int, e) == spec_encode_children(s)
                && s.len() == count as int ==> (r matches Some(p) && p.1 == e && p.0@.len()
                == s.len() && (forall|k: int|
                0 <= k < s.len() ==> crate::node::node_stripped(s[k], #[trigger] p.0@[k]))),
    decreases bytes@.len() - pos, 1int, count,
{
    if count == 0 {
        let out: Vec<Node> = Vec::new();
        proof {
            assert forall|s: Seq<Node>, e: int|
                #![trigger spec_encode_children(s), bytes@.subrange(pos as int, e)]
                pos <= e <= bytes@.len() && bytes@.subrange(pos as int, e)
                    == spec_encode_children(s) && s.len() == count as int implies e
                == pos as int by {
                assert(bytes@.subrange(pos as int, e).len() == 0);
            }
        }
        return Some((out, pos));
    }
    proof {
        assert forall|s: Seq<Node>, e: int|
            #![trigger spec_encode_children(s), bytes@.subrange(pos as int, e)]
            pos <= e <= bytes@.len() && bytes@.subrange(pos as int, e) == spec_encode_children(s)
                && s.len() == count as int implies pos + spec_encode_node(s[0]).len() <= e
            && bytes@.subrange(pos as int, pos + spec_encode_node(s[0]).len() as int)
            == spec_encode_node(s[0]) && bytes@.subrange(pos + spec_encode_node(s[0]).len() as int, e)
            == spec_encode_children(s.drop_first()) by {
            lemma_concat_split(
                bytes@,
                pos as int,
                e,
                spec_encode_node(s[0]),
                spec_encode_children(s.drop_first()),
            );
        }
    }
    let first = match decode_node(bytes, pos) {
        None => {
            return None;
        },
        Some(p) => p,
    };
    let rest = match decode_children(bytes, first.1, count - 1) {
        None => {
            return None;
        },
        Some(p) => p,
    };
    let mut out: Vec<Node> = Vec::new();
    out.push(first.0);
    let mut tail = rest.0;
    out.append(&mut tail);
    proof {
        assert forall|s: Seq<Node>, e: int|
            #![trigger spec_encode_children(s), bytes@.subrange(pos as int, e)]
            pos <= e <= bytes@.len() && bytes@.subrange(pos as int, e) == spec_encode_children(s)
                && s.len() == count as int implies rest.1 == e && out@.len() == s.len() && (forall|
            k: int,
        |
            0 <= k < s.len() ==> crate::node::node_stripped(s[k], #[trigger] out@[k])) by {
            assert(s.drop_first().len() == (count - 1) as int);
            assert forall|k: int| 0 <= k < s.len() implies crate::node::node_stripped(
                s[k],
                #[trigger] out@[k],
            ) by {
                if k > 0 {
                    assert(s.drop_first()[k - 1] == s[k]);
                    assert(out@[k] == rest.0@[k - 1]);
                }
            }
        }
    }
    Some((out, rest.1))
}

/// `x` is the snapshot record `d` as decoding reconstructs it: the same
/// source path, version and capture time, and the same tree with every
/// stored path absent.
pub open spec fn snap_stripped(d: FileData, x: FileData) -> bool {
    &&& x.path@ == d.path@
    &&& x.version == d.version
    &&& x.time == d.time
    &&& match (d.root, x.root) {
        (None, None) => true,
        (Some(a), Some(b)) => crate::node::dir_stripped(a, b),
        _ => false,
    }
}

/// Decodes a snapshot record from its full wire layout; trailing bytes or
/// a malformed layout are rejected. Decoding the encoding of any snapshot
/// yields that snapshot with every stored path absent.
pub fn decode_snapshot(bytes: &Vec<u8>) -> (r: Option<FileData>)
    ensures
        forall|d: FileData|
            #![trigger spec_encode_snapshot(d)]
            bytes@ == spec_encode_snapshot(d) ==> (r matches Some(x) && snap_stripped(d, x)),
{
    proof {
        assert forall|d: FileData| #![trigger spec_encode_snapshot(d)] bytes@ == spec_encode_snapshot(d) implies bytes@.subrange(
            0,
            bytes@.len() as int,
        ) == spec_encode_string(d.path@) + (spec_u64_to_le_bytes(d.version) + (spec_u64_to_le_bytes(
            d.time,
        ) + match d.root {
            None => seq![0u8],
            Some(r) => seq![1u8] + spec_encode_dir(r),
        })) by {
            assert(bytes@.subrange(0, bytes@.len() as int) =~= bytes@);
            assert(spec_encode_snapshot(d) =~= spec_encode_string(d.path@) + (spec_u64_to_le_bytes(
                d.version,
            ) + (spec_u64_to_le_bytes(d.time) + match d.root {
                None => seq![0u8],
                Some(r) => seq![1u8] + spec_encode_dir(r),
            })));
        }
    }
    let path = match read_string(bytes, 0) {
        None => {
            proof {
                assert forall|d: FileData| #![trigger spec_encode_snapshot(d)] bytes@ == spec_encode_snapshot(d) implies false by {
                    lemma_snapshot_split(bytes@, d);
                }
            }
            return None;
        },
        Some(p) => p,
    };
    proof {
        vstd::bytes::lemma_auto_spec_u64_to_from_le_bytes();
        assert forall|d: FileData| #![trigger spec_encode_snapshot(d)] bytes@ == spec_encode_snapshot(d) implies path.0@ == d.path@
            && path.1 + 16 <= bytes@.len() && bytes@.subrange(path.1 as int, path.1 + 8)
            == spec_u64_to_le_bytes(d.version) && bytes@.subrange(path.1 + 8, path.1 + 16)
            == spec_u64_to_le_bytes(d.time) && bytes@.subrange(path.1 + 16, bytes@.len() as int)
            == (match d.root {
            None => seq![0u8],
            Some(r) => seq![1u8] + spec_encode_dir(r),
        }) by {
            lemma_snapshot_split(bytes@, d);
        }
    }
    let version = match read_u64(bytes, path.1) {
        None => {
            return None;
        },
        Some(p) => p,
    };
    let time = match read_u64(bytes, version.1) {
        None => {
            return None;
        },
        Some(p) => p,
    };
    proof {
        vstd::bytes::lemma_auto_spec_u64_to_from_le_bytes();
    }
    if time.1 == bytes.len() {
        return None;
    }
    let tag = bytes[time.1];
    proof {
        assert forall|d: FileData| #![trigger spec_encode_snapshot(d)] bytes@ == spec_encode_snapshot(d) implies (d.root is None ==> tag
            == 0 && time.1 + 1 == bytes@.len()) && (d.root is Some ==> tag == 1 && bytes@.subrange(
            time.1 + 1,
            bytes@.len() as int,
        ) == spec_encode_dir(d.root.unwrap())) by {
            lemma_snapshot_split(bytes@, d);
            let opt = bytes@.subrange(time.1 as int, bytes@.len() as int);
            assert(opt[0] == bytes@[time.1 as int]);
            match d.root {
                None => {
                    assert(opt.len() == 1);
                },
                Some(rt) => {
                    lemma_concat_split(
                        bytes@,
                        time.1 as int,
                        bytes@.len() as int,
                        seq![1u8],
                        spec_encode_dir(rt),
                    );
                },
            }
        }
    }
    if tag == 0 {
        if time.1 + 1 != bytes.len() {
            return None;
        }
        return Some(
            FileData { path: path.0, version: version.0, time: time.0, root: None },
        );
    }
    if tag != 1 {
        return None;
    }
    let root = match decode_dir(bytes, time.1 + 1) {
        None => {
            return None;
        },
        Some(p) => p,
    };
    if root.1 != bytes.len() {
        return None;
    }
    Some(FileData { path: path.0, version: version.0, time: time.0, root: Some(root.0) })
}

/// Splits the snapshot layout into its four fields.
proof fn lemma_snapshot_split(bytes: Seq<u8>, d: FileData)
    requires
        bytes == spec_encode_snapshot(d),
    ensures
        ({
            let p0 = spec_encode_string(d.path@).len() as int;
            &&& p0 + 16 <= bytes.len()
            &&& bytes.subrange(0, p0) == spec_encode_string(d.path@)
            &&& bytes.subrange(p0, p0 + 8) == spec_u64_to_le_bytes(d.version)
            &&& bytes.subrange(p0 + 8, p0 + 16) == spec_u64_to_le_bytes(d.time)
            &&& bytes.subrange(p0 + 16, bytes.len() as int) == (match d.root {
                None => seq![0u8],
                Some(r) => seq![1u8] + spec_encode_dir(r),
            })
        }),
{
    vstd::bytes::lemma_auto_spec_u64_to_from_le_bytes();
    let rest1 = spec_u64_to_le_bytes(d.version) + (spec_u64_to_le_bytes(d.time) + (match d.root {
        None => seq![0u8],
        Some(r) => seq![1u8] + spec_encode_dir(r),
    }));
    assert(bytes.subrange(0, bytes.len() as int) =~= bytes);
    assert(bytes == spec_encode_string(d.path@) + rest1) by {
        assert(spec_encode_snapshot(d) =~= spec_encode_string(d.path@) + rest1);
    }
    lemma_concat_split(bytes, 0, bytes.len() as int, spec_encode_string(d.path@), rest1);
    let p0 = spec_encode_string(d.path@).len() as int;
    lemma_concat_split(
        bytes,
        p0,
        bytes.len() as int,
        spec_u64_to_le_bytes(d.version),
        spec_u64_to_le_bytes(d.time) + (match d.root {
            None => seq![0u8],
            Some(r) => seq![1u8] + spec_encode_dir(r),
        }),
    );
    lemma_concat_split(
        bytes,
        p0 + 8,
        bytes.len() as int,
        spec_u64_to_le_bytes(d.time),
        match d.root {
            None => seq![0u8],
            Some(r) => seq![1u8] + spec_encode_dir(r),
        },
    );
}

/// Encodes a snapshot record to its wire layout.
pub fn encode_snapshot(d: &FileData) -> (r: Vec<u8>)
    ensures
        r@ == spec_encode_snapshot(*d),
{
    let mut out: Vec<u8> = Vec::new();
    push_string(&mut out, &d.path);
    push_u64(&mut out, d.version);
    push_u64(&mut out, d.time);
    match &d.root {
        None => {
            out.push(0u8);
        },
        Some(r) => {
            out.push(1u8);
            encode_dir(r, &mut out);
        },
    }
    proof {
        assert(out@ =~= spec_encode_snapshot(*d));
    }
    out
}

} // verus!
