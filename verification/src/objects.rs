//! The object model: blobs, trees and commits, with their canonical byte
//! encodings and content-derived identifiers.

use vstd::prelude::*;
use vstd::string::*;
use vstd::utf8::encode_utf8;
use crate::errors::RitError;
use crate::hexcodec::{hex_ok, hex_decode_spec, hex_decode};
use crate::hashing::{object_id_spec, is_id_chars, hash_object, u64_dec, dec_bytes};
use crate::substr::{
    occurs,
    occurs_at,
    lemma_no_occ_first_byte,
    lemma_no_occ_prefix,
    lemma_no_occ_concat,
    lemma_unique_occ_left,
    lemma_unique_occ_right,
};

verus! {

/// A blob: the raw bytes of one file's content.
#[derive(Debug)]
pub struct Blob {
    pub data: Vec<u8>,
}

/// One entry of a tree: a mode tag, a single path segment, and the hex
/// identifier of the referenced blob or tree.
#[derive(Debug)]
pub struct TreeEntry {
    pub mode: String,
    pub name: String,
    pub sha: String,
}

/// A tree: an ordered sequence of entries.  The encoding is order-sensitive,
/// so the entry order chosen at construction becomes part of the hashed bytes.
#[derive(Debug)]
pub struct Tree {
    pub entries: Vec<TreeEntry>,
}

/// A commit: a tree identifier, an optional parent commit identifier, an
/// author, a message, and a timestamp.
#[derive(Debug)]
pub struct Commit {
    pub tree: String,
    pub parent: Option<String>,
    pub author: String,
    pub message: String,
    pub timestamp: u64,
}

/// Any of the three object kinds.
pub enum GitObject {
    Blob(Blob),
    Tree(Tree),
    Commit(Commit),
}

/// An object that has a canonical `(type, payload)` encoding.
pub trait SerializeObject {
    /// The object's type tag.
    spec fn type_tag(&self) -> Seq<char>;

    /// Whether the object encodes at all: every identifier embedded in the
    /// payload must be a well-formed hex string.
    spec fn encodable(&self) -> bool;

    /// The canonical payload bytes.
    spec fn payload_spec(&self) -> Seq<u8>;

    /// Produce the `(type tag, payload bytes)` pair of the object.
    fn serialize_data(&self) -> (r: Result<(String, Vec<u8>), RitError>)
        ensures
            r matches Ok(p) ==> self.encodable() && p.0@ == self.type_tag() && p.1@
                == self.payload_spec(),
            r matches Err(e) ==> !self.encodable() && e == RitError::InvalidId,
    ;

    /// The object's identifier: the lowercase-hex SHA-256 digest of
    /// `"<type> <len>\0" + payload`.  Hashing the same object twice yields
    /// the identical identifier.
    fn calculate_sha(&self) -> (r: Result<String, RitError>)
        ensures
            r matches Ok(id) ==> self.encodable() && id@ == object_id_spec(
                self.type_tag(),
                self.payload_spec(),
            ) && is_id_chars(id@),
            r matches Err(e) ==> !self.encodable() && e == RitError::InvalidId,
    {
        match self.serialize_data() {
            Ok((tag, payload)) => Ok(hash_object(tag.as_str(), &payload)),
            Err(e) => Err(e),
        }
    }
}

impl SerializeObject for Blob {
    open spec fn type_tag(&self) -> Seq<char> {
        "blob"@
    }

    open spec fn encodable(&self) -> bool {
        true
    }

    open spec fn payload_spec(&self) -> Seq<u8> {
        self.data@
    }

    fn serialize_data(&self) -> (r: Result<(String, Vec<u8>), RitError>) {
        let mut out: Vec<u8> = Vec::new();
        crate::hashing::push_all(&mut out, self.data.as_slice());
        assert(out@ =~= self.data@);
        Ok((String::from_str("blob"), out))
    }
}

/// The encoding of one tree entry: mode bytes, a space, name bytes, a null
/// byte, then the raw binary form of the referenced identifier.
pub open spec fn tree_entry_bytes(e: TreeEntry) -> Seq<u8> {
    encode_utf8(e.mode@) + seq![32u8] + encode_utf8(e.name@) + seq![0u8] + hex_decode_spec(
        encode_utf8(e.sha@),
    )
}

/// A tree's payload: the concatenation of its entries' encodings, in order.
pub open spec fn tree_payload(entries: Seq<TreeEntry>) -> Seq<u8>
    decreases entries.len(),
{
    if entries.len() == 0 {
        Seq::empty()
    } else {
        tree_entry_bytes(entries[0]) + tree_payload(entries.drop_first())
    }
}

/// Appending one entry appends its encoding.
pub proof fn lemma_tree_payload_snoc(s: Seq<TreeEntry>, e: TreeEntry)
    ensures
        tree_payload(s.push(e)) == tree_payload(s) + tree_entry_bytes(e),
    decreases s.len(),
{
    if s.len() == 0 {
        assert(s.push(e)[0] == e);
        assert(s.push(e).drop_first() =~= Seq::<TreeEntry>::empty());
        assert(tree_payload(s.push(e)) == tree_entry_bytes(e) + tree_payload(
            Seq::<TreeEntry>::empty(),
        ));
        assert(tree_payload(s.push(e)) =~= tree_payload(s) + tree_entry_bytes(e));
    } else {
        lemma_tree_payload_snoc(s.drop_first(), e);
        assert(s.push(e).drop_first() =~= s.drop_first().push(e));
        assert(tree_payload(s.push(e)) =~= tree_payload(s) + tree_entry_bytes(e));
    }
}

impl SerializeObject for Tree {
    open spec fn type_tag(&self) -> Seq<char> {
        "tree"@
    }

    open spec fn encodable(&self) -> bool {
        forall|i: int|
            0 <= i < self.entries@.len() ==> hex_ok(encode_utf8(#[trigger] self.entries@[i].sha@))
    }

    open spec fn payload_spec(&self) -> Seq<u8> {
        tree_payload(self.entries@)
    }

    fn serialize_data(&self) -> (r: Result<(String, Vec<u8>), RitError>) {
        let mut out: Vec<u8> = Vec::new();
        let mut i: usize = 0;
        while i < self.entries.len()
            invariant
                i <= self.entries@.len(),
                out@ == tree_payload(self.entries@.take(i as int)),
                forall|j: int|
                    0 <= j < i ==> hex_ok(encode_utf8(#[trigger] self.entries@[j].sha@)),
            decreases self.entries@.len() - i,
        {
            let entry = &self.entries[i];
            let mut mode_b = entry.mode.as_str().as_bytes_vec();
            out.append(&mut mode_b);
            out.push(32);
            let mut name_b = entry.name.as_str().as_bytes_vec();
            out.append(&mut name_b);
            out.push(0);
            let sha_b = entry.sha.as_str().as_bytes_vec();
            match hex_decode(sha_b.as_slice()) {
                Some(mut raw) => {
                    out.append(&mut raw);
                },
                None => {
                    return Err(RitError::InvalidId);
                },
            }
            proof {
                lemma_tree_payload_snoc(self.entries@.take(i as int), self.entries@[i as int]);
                assert(self.entries@.take(i as int).push(self.entries@[i as int]) =~= self.entries@
                    .take(i as int + 1));
                assert(out@ =~= tree_payload(self.entries@.take(i as int + 1)));
            }
            i = i + 1;
        }
        proof {
            assert(self.entries@.take(self.entries@.len() as int) =~= self.entries@);
        }
        Ok((String::from_str("tree"), out))
    }
}

/// The bytes `"tree "`.
pub open spec fn tree_label() -> Seq<u8> {
    seq![116u8, 114u8, 101u8, 101u8, 32u8]
}

/// The bytes `"parent "`.
pub open spec fn parent_label() -> Seq<u8> {
    seq![112u8, 97u8, 114u8, 101u8, 110u8, 116u8, 32u8]
}

/// The bytes `"author "`.
pub open spec fn author_label() -> Seq<u8> {
    seq![97u8, 117u8, 116u8, 104u8, 111u8, 114u8, 32u8]
}

/// The bytes `"committer "`.
pub open spec fn committer_label() -> Seq<u8> {
    seq![99u8, 111u8, 109u8, 109u8, 105u8, 116u8, 116u8, 101u8, 114u8, 32u8]
}

/// The `"author <name> <timestamp>\n"` part after its label, shared by the
/// author and committer lines (the two identities are identical).
pub open spec fn identity_tail(author: Seq<char>, timestamp: u64) -> Seq<u8> {
    encode_utf8(author) + seq![32u8] + dec_bytes(timestamp as nat) + seq![10u8]
}

/// A commit's payload: the `tree` line, the `parent` line only if a parent
/// exists, identical `author` and `committer` lines, a blank line, then the
/// message bytes verbatim.
pub open spec fn commit_payload(c: Commit) -> Seq<u8> {
    tree_label() + encode_utf8(c.tree@) + seq![10u8] + (match c.parent {
        Some(p) => parent_label() + encode_utf8(p@) + seq![10u8],
        None => Seq::<u8>::empty(),
    }) + author_label() + identity_tail(c.author@, c.timestamp) + committer_label()
        + identity_tail(c.author@, c.timestamp) + seq![10u8] + encode_utf8(c.message@)
}

fn tree_label_vec() -> (r: Vec<u8>)
    ensures
        r@ == tree_label(),
{
    let mut r: Vec<u8> = Vec::new();
    r.push(116);
    r.push(114);
    r.push(101);
    r.push(101);
    r.push(32);
    assert(r@ =~= tree_label());
    r
}

fn parent_label_vec() -> (r: Vec<u8>)
    ensures
        r@ == parent_label(),
{
    let mut r: Vec<u8> = Vec::new();
    r.push(112);
    r.push(97);
    r.push(114);
    r.push(101);
    r.push(110);
    r.push(116);
    r.push(32);
    assert(r@ =~= parent_label());
    r
}

fn author_label_vec() -> (r: Vec<u8>)
    ensures
        r@ == author_label(),
{
    let mut r: Vec<u8> = Vec::new();
    r.push(97);
    r.push(117);
    r.push(116);
    r.push(104);
    r.push(111);
    r.push(114);
    r.push(32);
    assert(r@ =~= author_label());
    r
}

fn committer_label_vec() -> (r: Vec<u8>)
    ensures
        r@ == committer_label(),
{
    let mut r: Vec<u8> = Vec::new();
    r.push(99);
    r.push(111);
    r.push(109);
    r.push(109);
    r.push(105);
    r.push(116);
    r.push(116);
    r.push(101);
    r.push(114);
    r.push(32);
    assert(r@ =~= committer_label());
    r
}

impl Commit {
    /// Append `<author> <timestamp>\n` to `out`.
    fn push_identity_tail(&self, out: &mut Vec<u8>)
        ensures
            final(out)@ == old(out)@ + identity_tail(self.author@, self.timestamp),
    {
        let mut ab = self.author.as_str().as_bytes_vec();
        out.append(&mut ab);
        out.push(32);
        let mut ts = u64_dec(self.timestamp);
        out.append(&mut ts);
        out.push(10);
        assert(out@ =~= old(out)@ + identity_tail(self.author@, self.timestamp));
    }
}

impl SerializeObject for Commit {
    open spec fn type_tag(&self) -> Seq<char> {
        "commit"@
    }

    open spec fn encodable(&self) -> bool {
        true
    }

    open spec fn payload_spec(&self) -> Seq<u8> {
        commit_payload(*self)
    }

    fn serialize_data(&self) -> (r: Result<(String, Vec<u8>), RitError>) {
        let mut out = tree_label_vec();
        let mut tb = self.tree.as_str().as_bytes_vec();
        out.append(&mut tb);
        out.push(10);
        match &self.parent {
            Some(p) => {
                let mut pl = parent_label_vec();
                out.append(&mut pl);
                let mut pb = p.as_str().as_bytes_vec();
                out.append(&mut pb);
                out.push(10);
            },
            None => {},
        }
        let mut al = author_label_vec();
        out.append(&mut al);
        self.push_identity_tail(&mut out);
        let mut cl = committer_label_vec();
        out.append(&mut cl);
        self.push_identity_tail(&mut out);
        out.push(10);
        let mut mb = self.message.as_str().as_bytes_vec();
        out.append(&mut mb);
        assert(out@ =~= commit_payload(*self));
        Ok((String::from_str("commit"), out))
    }
}

/// Hex characters encode to bytes other than `"parent "`'s first byte and
/// the newline.
proof fn lemma_hex_bytes_plain(s: Seq<char>)
    requires
        forall|i: int| 0 <= i < s.len() ==> crate::hashing::is_lower_hex_char(#[trigger] s[i]),
    ensures
        encode_utf8(s).len() == s.len(),
        forall|j: int| 0 <= j < encode_utf8(s).len() ==> #[trigger] encode_utf8(s)[j] != 112
            && encode_utf8(s)[j] != 10,
{
    crate::hashing::lemma_id_chars_bytes(s);
    assert forall|j: int| 0 <= j < encode_utf8(s).len() implies #[trigger] encode_utf8(s)[j] != 112
        && encode_utf8(s)[j] != 10 by {
        assert(crate::hexcodec::is_hex_digit(encode_utf8(s)[j]));
    }
}

/// The bytes `"parent "` hold no newline.
proof fn lemma_parent_label_plain()
    ensures
        parent_label().len() == 7,
        parent_label()[0] == 112,
        forall|k: int| 0 <= k < parent_label().len() ==> #[trigger] parent_label()[k] != 10,
        forall|k: int| 1 <= k < parent_label().len() ==> #[trigger] parent_label()[k] != 112,
{
    assert forall|k: int| 0 <= k < parent_label().len() implies #[trigger] parent_label()[k]
        != 10 by {
        assert(parent_label()[k] == seq![112u8, 97u8, 114u8, 101u8, 110u8, 116u8, 32u8][k]);
    }
    assert forall|k: int| 1 <= k < parent_label().len() implies #[trigger] parent_label()[k]
        != 112 by {
        assert(parent_label()[k] == seq![112u8, 97u8, 114u8, 101u8, 110u8, 116u8, 32u8][k]);
    }
}

/// No occurrence of `"parent "` in the lines after the optional parent
/// line: author line, committer line, blank line, message.
proof fn lemma_commit_tail_no_parent(c: Commit)
    requires
        !occurs(identity_tail(c.author@, c.timestamp), parent_label()),
        !occurs(encode_utf8(c.message@), parent_label()),
    ensures
        forall|i: int|
            !occurs_at(
                author_label() + identity_tail(c.author@, c.timestamp) + committer_label()
                    + identity_tail(c.author@, c.timestamp) + seq![10u8] + encode_utf8(c.message@),
                parent_label(),
                i,
            ),
{
    let pat = parent_label();
    lemma_parent_label_plain();
    let tail_id = identity_tail(c.author@, c.timestamp);
    let c3 = author_label() + tail_id;
    let c4 = committer_label() + tail_id;
    let c5 = seq![10u8];
    let c6 = encode_utf8(c.message@);
    assert(forall|i: int| !occurs_at(tail_id, pat, i));
    assert(forall|i: int| !occurs_at(c6, pat, i));
    assert forall|k: int| 0 <= k < author_label().len() implies #[trigger] author_label()[k]
        != pat[0] by {
        assert(author_label()[k] == seq![97u8, 117u8, 116u8, 104u8, 111u8, 114u8, 32u8][k]);
    }
    lemma_no_occ_prefix(author_label(), tail_id, pat);
    assert forall|k: int| 0 <= k < committer_label().len() implies #[trigger] committer_label()[k]
        != pat[0] by {
        assert(committer_label()[k] == seq![99u8, 111u8, 109u8, 109u8, 105u8, 116u8, 116u8, 101u8, 114u8, 32u8][k]);
    }
    lemma_no_occ_prefix(committer_label(), tail_id, pat);
    assert forall|i: int| !occurs_at(c5, pat, i) by {
        if occurs_at(c5, pat, i) {
            assert(i + pat.len() <= 1);
        }
    }
    lemma_no_occ_concat(c5, c6, pat);
    assert(tail_id.len() > 0 && tail_id.last() == 10) by {
        assert(tail_id[tail_id.len() - 1] == 10);
    }
    assert(c4.last() == 10);
    lemma_no_occ_concat(c4, c5 + c6, pat);
    assert(c3.last() == 10);
    lemma_no_occ_concat(c3, c4 + (c5 + c6), pat);
    let whole = author_label() + tail_id + committer_label() + tail_id + seq![10u8] + c6;
    assert(whole =~= c3 + (c4 + (c5 + c6)));
    assert(forall|i: int| !occurs_at(c3 + (c4 + (c5 + c6)), pat, i));
}

/// With no parent, the encoded commit never contains the bytes `"parent "`.
/// The tree identifier must be hex, and neither the shared
/// `<author> <timestamp>` line tail nor the message may contain those bytes
/// themselves — an author named after the parent line would smuggle them in.
pub proof fn lemma_commit_no_parent(c: Commit)
    requires
        c.parent is None,
        forall|i: int|
            0 <= i < c.tree@.len() ==> crate::hashing::is_lower_hex_char(#[trigger] c.tree@[i]),
        !occurs(identity_tail(c.author@, c.timestamp), parent_label()),
        !occurs(encode_utf8(c.message@), parent_label()),
    ensures
        !occurs(commit_payload(c), parent_label()),
{
    let pat = parent_label();
    lemma_parent_label_plain();
    lemma_hex_bytes_plain(c.tree@);
    let c1 = tree_label() + encode_utf8(c.tree@) + seq![10u8];
    let rest = author_label() + identity_tail(c.author@, c.timestamp) + committer_label()
        + identity_tail(c.author@, c.timestamp) + seq![10u8] + encode_utf8(c.message@);
    assert forall|j: int| 0 <= j < c1.len() implies c1[j] != pat[0] by {
        if j < 5 {
            assert(c1[j] == tree_label()[j]);
            assert(tree_label()[j] == seq![116u8, 114u8, 101u8, 101u8, 32u8][j]);
        } else if j < 5 + encode_utf8(c.tree@).len() {
            assert(c1[j] == encode_utf8(c.tree@)[j - 5]);
        } else {
            assert(c1[j] == 10);
        }
    }
    lemma_no_occ_first_byte(c1, pat);
    lemma_commit_tail_no_parent(c);
    assert(c1.last() == 10);
    lemma_no_occ_concat(c1, rest, pat);
    assert(commit_payload(c) =~= c1 + rest);
    assert(forall|i: int| !occurs_at(commit_payload(c), pat, i));
}

/// With a parent, the encoded commit contains the bytes of the line
/// `"parent <id>\n"` exactly once: right after the tree line, preceded by a
/// newline, and `"parent "` stands nowhere else.  As above, the identifiers
/// must be hex and the author-timestamp tail and message must not contain
/// `"parent "` themselves.
pub proof fn lemma_commit_with_parent(c: Commit)
    requires
        c.parent is Some,
        forall|i: int|
            0 <= i < c.tree@.len() ==> crate::hashing::is_lower_hex_char(#[trigger] c.tree@[i]),
        forall|i: int|
            0 <= i < (c.parent->0)@.len() ==> crate::hashing::is_lower_hex_char(
                #[trigger] (c.parent->0)@[i],
            ),
        !occurs(identity_tail(c.author@, c.timestamp), parent_label()),
        !occurs(encode_utf8(c.message@), parent_label()),
    ensures
        occurs_at(commit_payload(c), parent_label(), (6 + encode_utf8(c.tree@).len()) as int),
        commit_payload(c).subrange(
            (6 + encode_utf8(c.tree@).len()) as int,
            (6 + encode_utf8(c.tree@).len() + 8 + encode_utf8((c.parent->0)@).len()) as int,
        ) == parent_label() + encode_utf8((c.parent->0)@) + seq![10u8],
        commit_payload(c)[(5 + encode_utf8(c.tree@).len()) as int] == 10,
        forall|i: int|
            occurs_at(commit_payload(c), parent_label(), i) ==> i == (6 + encode_utf8(
                c.tree@,
            ).len()) as int,
{
    let pat = parent_label();
    lemma_parent_label_plain();
    lemma_hex_bytes_plain(c.tree@);
    let p = (c.parent->0)@;
    lemma_hex_bytes_plain(p);
    let c1 = tree_label() + encode_utf8(c.tree@) + seq![10u8];
    let c2 = parent_label() + encode_utf8(p) + seq![10u8];
    let rest = author_label() + identity_tail(c.author@, c.timestamp) + committer_label()
        + identity_tail(c.author@, c.timestamp) + seq![10u8] + encode_utf8(c.message@);
    let payload = commit_payload(c);
    assert(payload =~= c1 + (c2 + rest));
    // Exactly one occurrence inside the parent line, at its start.
    assert(occurs_at(c2, pat, 0)) by {
        assert(c2.subrange(0, pat.len() as int) =~= pat);
    }
    assert forall|i: int| occurs_at(c2, pat, i) implies i == 0 by {
        if i != 0 {
            assert(c2.subrange(i, i + pat.len() as int)[0] == c2[i]);
            if i < 7 {
                assert(c2[i] == pat[i]);
            } else if i < 7 + encode_utf8(p).len() {
                assert(c2[i] == encode_utf8(p)[i - 7]);
            } else {
                assert(c2[i] == 10);
            }
        }
    }
    // None in the tree line, none after the parent line.
    assert forall|j: int| 0 <= j < c1.len() implies c1[j] != pat[0] by {
        if j < 5 {
            assert(c1[j] == tree_label()[j]);
            assert(tree_label()[j] == seq![116u8, 114u8, 101u8, 101u8, 32u8][j]);
        } else if j < 5 + encode_utf8(c.tree@).len() {
            assert(c1[j] == encode_utf8(c.tree@)[j - 5]);
        } else {
            assert(c1[j] == 10);
        }
    }
    lemma_no_occ_first_byte(c1, pat);
    lemma_commit_tail_no_parent(c);
    assert(c2.last() == 10);
    lemma_unique_occ_left(c2, rest, pat, 0);
    assert(c1.last() == 10);
    lemma_unique_occ_right(c1, c2 + rest, pat, 0);
    assert(c1.len() == 6 + encode_utf8(c.tree@).len());
    assert(payload.subrange(c1.len() as int, (c1.len() + c2.len()) as int) =~= c2);
    assert(payload[c1.len() - 1] == c1.last());
}

impl GitObject {
    /// The type tag of the wrapped object.
    pub open spec fn tag_spec(&self) -> Seq<char> {
        match self {
            GitObject::Blob(b) => b.type_tag(),
            GitObject::Tree(t) => t.type_tag(),
            GitObject::Commit(c) => c.type_tag(),
        }
    }

    /// Whether the wrapped object encodes.
    pub open spec fn encodable_spec(&self) -> bool {
        match self {
            GitObject::Blob(b) => b.encodable(),
            GitObject::Tree(t) => t.encodable(),
            GitObject::Commit(c) => c.encodable(),
        }
    }

    /// The canonical payload of the wrapped object.
    pub open spec fn payload_of(&self) -> Seq<u8> {
        match self {
            GitObject::Blob(b) => b.payload_spec(),
            GitObject::Tree(t) => t.payload_spec(),
            GitObject::Commit(c) => c.payload_spec(),
        }
    }

    /// The identifier of the wrapped object.
    pub fn get_sha(&self) -> (r: Result<String, RitError>)
        ensures
            r matches Ok(id) ==> self.encodable_spec() && id@ == object_id_spec(
                self.tag_spec(),
                self.payload_of(),
            ) && is_id_chars(id@),
            r matches Err(e) ==> !self.encodable_spec() && e == RitError::InvalidId,
    {
        match self {
            GitObject::Blob(blob) => blob.calculate_sha(),
            GitObject::Tree(tree) => tree.calculate_sha(),
            GitObject::Commit(commit) => commit.calculate_sha(),
        }
    }
}

} // verus!
