//! The staging index: a persisted mapping from working-tree path to
//! `(mode, object identifier)`, serialized as one `"<path> <mode> <id>"`
//! line per entry.

use vstd::prelude::*;
use vstd::slice::{slice_subrange, slice_to_vec};
use crate::errors::RitError;
use crate::hashing::{object_id_spec, hash_object, lemma_id_chars_bytes};
use crate::hexcodec::is_hex_digit;
use crate::paths::{find_byte, lemma_find_byte, lemma_find_byte_is, scan_byte, path_rejected, path_is_rejected};
use vstd::utf8::encode_utf8;

verus! {

/// The spec-level value of one entry: `(path, mode, id)` as byte strings.
pub type EntryV = (Seq<u8>, Seq<u8>, Seq<u8>);

/// One staged entry.
#[derive(Debug)]
pub struct IndexEntry {
    /// The working-tree path, the unique key.
    pub path: Vec<u8>,
    /// The mode tag, e.g. `100644` for a regular file.
    pub mode: Vec<u8>,
    /// The hex identifier of the staged blob.
    pub id: Vec<u8>,
}

impl View for IndexEntry {
    type V = EntryV;

    open spec fn view(&self) -> EntryV {
        (self.path@, self.mode@, self.id@)
    }
}

/// The default mode tag of a regular file: the bytes `"100644"`.
pub open spec fn mode_file() -> Seq<u8> {
    seq![49u8, 48u8, 48u8, 54u8, 52u8, 52u8]
}

/// A field of an index line: nonempty, and free of the space and newline
/// bytes that delimit the line format.
pub open spec fn field_wf(s: Seq<u8>) -> bool {
    s.len() > 0 && (forall|i: int| 0 <= i < s.len() ==> #[trigger] s[i] != 32 && s[i] != 10)
}

/// A well-formed entry: all three fields are well-formed.
pub open spec fn entry_wf(t: EntryV) -> bool {
    field_wf(t.0) && field_wf(t.1) && field_wf(t.2)
}

/// A well-formed index: well-formed entries with pairwise distinct paths.
pub open spec fn entries_wf(s: Seq<EntryV>) -> bool {
    (forall|i: int| 0 <= i < s.len() ==> entry_wf(#[trigger] s[i])) && (forall|i: int, j: int|
        0 <= i < j < s.len() ==> (#[trigger] s[i]).0 != (#[trigger] s[j]).0)
}

/// The index as a mapping from path to `(mode, id)`; a later entry for the
/// same path overrides an earlier one.
pub open spec fn as_map(s: Seq<EntryV>) -> Map<Seq<u8>, (Seq<u8>, Seq<u8>)>
    decreases s.len(),
{
    if s.len() == 0 {
        Map::empty()
    } else {
        as_map(s.drop_last()).insert(s.last().0, (s.last().1, s.last().2))
    }
}

/// The first position holding `path`, or the length if there is none.
pub open spec fn find_path(s: Seq<EntryV>, path: Seq<u8>) -> int
    decreases s.len(),
{
    if s.len() == 0 {
        0
    } else if s[0].0 == path {
        0
    } else {
        1 + find_path(s.drop_first(), path)
    }
}

/// `find_path` returns the first matching position, or the length.
pub proof fn lemma_find_path(s: Seq<EntryV>, path: Seq<u8>)
    ensures
        0 <= find_path(s, path) <= s.len(),
        find_path(s, path) < s.len() ==> s[find_path(s, path)].0 == path,
        forall|i: int| 0 <= i < find_path(s, path) ==> (#[trigger] s[i]).0 != path,
    decreases s.len(),
{
    if s.len() > 0 && s[0].0 != path {
        lemma_find_path(s.drop_first(), path);
        assert forall|i: int| 0 <= i < find_path(s, path) implies (#[trigger] s[i]).0 != path by {
            if i > 0 {
                assert(s.drop_first()[i - 1] == s[i]);
            }
        }
    }
}

/// Insert or replace: overwrite the first entry with the same path, else
/// append at the end.
pub open spec fn upsert_one(s: Seq<EntryV>, t: EntryV) -> Seq<EntryV> {
    let i = find_path(s, t.0);
    if i < s.len() {
        s.update(i, t)
    } else {
        s.push(t)
    }
}

/// Upsert each of `adds` into `init`, in order.
pub open spec fn upsert_all(init: Seq<EntryV>, adds: Seq<EntryV>) -> Seq<EntryV>
    decreases adds.len(),
{
    if adds.len() == 0 {
        init
    } else {
        upsert_all(upsert_one(init, adds[0]), adds.drop_first())
    }
}

/// Upserting preserves well-formedness.
pub proof fn lemma_upsert_wf(s: Seq<EntryV>, t: EntryV)
    requires
        entries_wf(s),
        entry_wf(t),
    ensures
        entries_wf(upsert_one(s, t)),
{
    lemma_find_path(s, t.0);
    let i = find_path(s, t.0);
    let r = upsert_one(s, t);
    if i < s.len() {
        assert forall|a: int, b: int| 0 <= a < b < r.len() implies (#[trigger] r[a]).0 != (
        #[trigger] r[b]).0 by {
            if a != i && b != i {
                assert(r[a] == s[a] && r[b] == s[b]);
            } else if a == i {
                assert(r[b] == s[b] && s[i].0 == t.0);
            } else {
                assert(r[a] == s[a] && s[i].0 == t.0);
            }
        }
    } else {
        assert forall|a: int, b: int| 0 <= a < b < r.len() implies (#[trigger] r[a]).0 != (
        #[trigger] r[b]).0 by {
            if b == s.len() {
                assert(r[a] == s[a] && r[b] == t);
            } else {
                assert(r[a] == s[a] && r[b] == s[b]);
            }
        }
    }
}

/// When the paths of `s` are pairwise distinct, `find_path` finds a
/// matching position.
pub proof fn lemma_find_path_unique(s: Seq<EntryV>, i: int)
    requires
        0 <= i < s.len(),
        forall|a: int, b: int| 0 <= a < b < s.len() ==> (#[trigger] s[a]).0 != (#[trigger] s[b]).0,
    ensures
        find_path(s, s[i].0) == i,
{
    lemma_find_path(s, s[i].0);
    let f = find_path(s, s[i].0);
    if f < i {
        assert(s[f].0 != s[i].0);
        assert(s[f].0 == s[i].0);
    }
    if f > i {
        assert(s[i].0 != s[i].0);
    }
}

/// Upserting writes exactly one binding of the mapping the index
/// represents.
pub proof fn lemma_upsert_map(s: Seq<EntryV>, t: EntryV)
    requires
        forall|a: int, b: int| 0 <= a < b < s.len() ==> (#[trigger] s[a]).0 != (#[trigger] s[b]).0,
    ensures
        as_map(upsert_one(s, t)) == as_map(s).insert(t.0, (t.1, t.2)),
    decreases s.len(),
{
    lemma_find_path(s, t.0);
    let i = find_path(s, t.0);
    if i == s.len() {
        let r = s.push(t);
        assert(r.drop_last() =~= s);
        assert(r.last() == t);
        assert(as_map(r) == as_map(s).insert(t.0, (t.1, t.2)));
    } else {
        let r = s.update(i, t);
        assert(s[i].0 == t.0);
        if i == s.len() - 1 {
            assert(r.drop_last() =~= s.drop_last());
            assert(r.last() == t);
            assert(as_map(r) == as_map(s.drop_last()).insert(t.0, (t.1, t.2)));
            assert(s.last().0 == t.0);
            assert(as_map(s) == as_map(s.drop_last()).insert(t.0, (s.last().1, s.last().2)));
            assert(as_map(s).insert(t.0, (t.1, t.2)) =~= as_map(s.drop_last()).insert(
                t.0,
                (t.1, t.2),
            ));
        } else {
            let sd = s.drop_last();
            assert forall|a: int, b: int| 0 <= a < b < sd.len() implies (#[trigger] sd[a]).0 != (
            #[trigger] sd[b]).0 by {
                assert(sd[a] == s[a] && sd[b] == s[b]);
            }
            assert(sd[i] == s[i]);
            lemma_find_path_unique(sd, i);
            assert(find_path(sd, t.0) == i);
            lemma_upsert_map(sd, t);
            assert(upsert_one(sd, t) == sd.update(i, t));
            assert(r.drop_last() =~= sd.update(i, t));
            assert(r.last() == s.last());
            assert(as_map(r) == as_map(sd).insert(t.0, (t.1, t.2)).insert(
                s.last().0,
                (s.last().1, s.last().2),
            ));
            assert(s.last().0 != t.0) by {
                assert(s[i].0 != s[s.len() - 1].0);
            }
            assert(as_map(r) =~= as_map(s).insert(t.0, (t.1, t.2)));
        }
    }
}

/// One line of the serialized index: `path` space `mode` space `id` newline.
pub open spec fn render_entry(t: EntryV) -> Seq<u8> {
    t.0 + seq![32u8] + t.1 + seq![32u8] + t.2 + seq![10u8]
}

/// The serialized index: the entries' lines, in order.
pub open spec fn render_spec(s: Seq<EntryV>) -> Seq<u8>
    decreases s.len(),
{
    if s.len() == 0 {
        Seq::empty()
    } else {
        render_entry(s[0]) + render_spec(s.drop_first())
    }
}

/// Appending one entry appends its line.
pub proof fn lemma_render_snoc(s: Seq<EntryV>, t: EntryV)
    ensures
        render_spec(s.push(t)) == render_spec(s) + render_entry(t),
    decreases s.len(),
{
    if s.len() == 0 {
        assert(s.push(t)[0] == t);
        assert(s.push(t).drop_first() =~= Seq::<EntryV>::empty());
        assert(render_spec(s.push(t)) == render_entry(t) + render_spec(Seq::<EntryV>::empty()));
        assert(render_spec(s.push(t)) =~= render_spec(s) + render_entry(t));
    } else {
        lemma_render_snoc(s.drop_first(), t);
        assert(s.push(t)[0] == s[0]);
        assert(s.push(t).drop_first() =~= s.drop_first().push(t));
        assert(render_spec(s.push(t)) == render_entry(s[0]) + render_spec(s.drop_first().push(t)));
        assert(render_spec(s.push(t)) =~= render_spec(s) + render_entry(t));
    }
}

/// The staging index: the set of `(path, mode, identifier)` triples that
/// would be committed next.
#[derive(Debug)]
pub struct Index {
    entries: Vec<IndexEntry>,
}

impl View for Index {
    type V = Seq<EntryV>;

    closed spec fn view(&self) -> Seq<EntryV> {
        Seq::new(self.entries@.len(), |i: int| self.entries@[i]@)
    }
}

impl Index {
    /// The index is well-formed: unique paths, well-formed fields.
    pub open spec fn wf(&self) -> bool {
        entries_wf(self@)
    }

    /// The mapping the index represents.
    pub open spec fn map_spec(&self) -> Map<Seq<u8>, (Seq<u8>, Seq<u8>)> {
        as_map(self@)
    }

    /// An empty index.
    pub fn new() -> (r: Index)
        ensures
            r@ == Seq::<EntryV>::empty(),
            r.wf(),
    {
        let r = Index { entries: Vec::new() };
        assert(r@ =~= Seq::<EntryV>::empty());
        r
    }

    /// How many entries are staged.
    pub fn len(&self) -> (r: usize)
        ensures
            r == self@.len(),
    {
        self.entries.len()
    }

    /// The entry at a position.
    pub fn entry_at(&self, i: usize) -> (r: &IndexEntry)
        requires
            i < self@.len(),
        ensures
            r@ == self@[i as int],
    {
        &self.entries[i]
    }

    /// The first position holding `path`, if any.
    pub fn find(&self, path: &[u8]) -> (r: Option<usize>)
        ensures
            r matches Some(i) ==> i == find_path(self@, path@) && i < self@.len(),
            r is None ==> find_path(self@, path@) == self@.len(),
    {
        let mut i: usize = 0;
        while i < self.entries.len()
            invariant
                i <= self@.len(),
                forall|j: int| 0 <= j < i ==> (#[trigger] self@[j]).0 != path@,
            decreases self@.len() - i,
        {
            if bytes_eq(self.entries[i].path.as_slice(), path) {
                proof {
                    lemma_find_path(self@, path@);
                    let f = find_path(self@, path@);
                    assert(self@[i as int].0 == path@);
                    if f < i {
                        assert(self@[f].0 != path@);
                        assert(self@[f].0 == path@);
                    }
                    if f > i {
                        assert(self@[i as int].0 != path@);
                    }
                }
                return Some(i);
            }
            i = i + 1;
        }
        proof {
            lemma_find_path(self@, path@);
            let f = find_path(self@, path@);
            if f < self@.len() {
                assert(self@[f].0 == path@);
                assert(self@[f].0 != path@);
            }
        }
        None
    }

    /// Insert or replace the entry for `path`.
    pub fn upsert(&mut self, path: Vec<u8>, mode: Vec<u8>, id: Vec<u8>)
        ensures
            final(self)@ == upsert_one(old(self)@, (path@, mode@, id@)),
    {
        let pos = self.find(path.as_slice());
        let entry = IndexEntry { path, mode, id };
        match pos {
            Some(i) => {
                self.entries.set(i, entry);
                assert(self@ =~= upsert_one(old(self)@, entry@));
            },
            None => {
                self.entries.push(entry);
                assert(self@ =~= upsert_one(old(self)@, entry@));
            },
        }
    }

    /// Serialize the index: one line per entry, in order, overwriting the
    /// whole file contents.
    pub fn save(&self) -> (r: Vec<u8>)
        ensures
            r@ == render_spec(self@),
    {
        let mut out: Vec<u8> = Vec::new();
        let mut i: usize = 0;
        assert(out@ =~= render_spec(self@.take(0)));
        while i < self.entries.len()
            invariant
                i <= self@.len(),
                out@ == render_spec(self@.take(i as int)),
            decreases self@.len() - i,
        {
            let entry = &self.entries[i];
            crate::hashing::push_all(&mut out, entry.path.as_slice());
            out.push(32);
            crate::hashing::push_all(&mut out, entry.mode.as_slice());
            out.push(32);
            crate::hashing::push_all(&mut out, entry.id.as_slice());
            out.push(10);
            proof {
                lemma_render_snoc(self@.take(i as int), self@[i as int]);
                assert(self@.take(i as int).push(self@[i as int]) =~= self@.take(i as int + 1));
                assert(out@ =~= render_spec(self@.take(i as int + 1)));
            }
            i = i + 1;
        }
        proof {
            assert(self@.take(self@.len() as int) =~= self@);
        }
        out
    }
}

/// Parse one line into an entry: exactly three nonempty space-free fields,
/// `path mode id`.
pub open spec fn parse_line(line: Seq<u8>) -> Option<EntryV> {
    let i = find_byte(line, 32);
    if i >= line.len() {
        None
    } else {
        let path = line.take(i);
        let rest = line.skip(i + 1);
        let j = find_byte(rest, 32);
        if j >= rest.len() {
            None
        } else {
            let mode = rest.take(j);
            let id = rest.skip(j + 1);
            if path.len() > 0 && mode.len() > 0 && id.len() > 0 && find_byte(id, 32) == id.len() {
                Some((path, mode, id))
            } else {
                None
            }
        }
    }
}

/// Parse the index file: the entries of its non-empty lines, in order, or
/// `None` if some non-empty line is malformed.
pub open spec fn parse_index(s: Seq<u8>) -> Option<Seq<EntryV>>
    decreases s.len(),
{
    if s.len() == 0 {
        Some(Seq::empty())
    } else {
        let n = find_byte(s, 10);
        let line = s.take(n);
        let rest = if 0 <= n && n < s.len() {
            s.skip(n + 1)
        } else {
            Seq::<u8>::empty()
        };
        if line.len() == 0 {
            parse_index(rest)
        } else {
            match parse_line(line) {
                None => None,
                Some(t) => match parse_index(rest) {
                    None => None,
                    Some(ts) => Some(seq![t] + ts),
                },
            }
        }
    }
}

impl Index {
    /// Read the index back from the serialized file contents.  Each
    /// non-empty line must hold exactly three space-delimited fields; a
    /// later line for the same path overrides an earlier one.
    pub fn load(text: &[u8]) -> (r: Result<Index, RitError>)
        ensures
            r is Ok <==> parse_index(text@) is Some,
            r matches Ok(ix) ==> parse_index(text@) matches Some(ts) && ix@ == upsert_all(
                Seq::<EntryV>::empty(),
                ts,
            ) && ix.wf(),
            r matches Err(e) ==> e == RitError::IndexFormat,
    {
        let mut ix = Index::new();
        match Index::load_rec(text, &mut ix) {
            Ok(()) => Ok(ix),
            Err(e) => Err(e),
        }
    }

    /// Parse `text` line by line, upserting each entry into `ix`.
    fn load_rec(text: &[u8], ix: &mut Index) -> (r: Result<(), RitError>)
        requires
            old(ix).wf(),
        ensures
            r is Ok <==> parse_index(text@) is Some,
            r is Ok ==> (parse_index(text@) matches Some(ts) && final(ix)@ == upsert_all(
                old(ix)@,
                ts,
            ) && final(ix).wf()),
            r matches Err(e) ==> e == RitError::IndexFormat,
        decreases text@.len(),
    {
        if text.len() == 0 {
            return Ok(());
        }
        let n = scan_byte(text, 10);
        let line = slice_subrange(text, 0, n);
        let rest = if n < text.len() {
            slice_subrange(text, n + 1, text.len())
        } else {
            slice_subrange(text, text.len(), text.len())
        };
        proof {
            assert(line@ =~= text@.take(n as int));
            if n < text@.len() {
                assert(rest@ =~= text@.skip(n as int + 1));
            } else {
                assert(rest@ =~= Seq::<u8>::empty());
            }
        }
        if line.len() == 0 {
            return Index::load_rec(rest, ix);
        }
        let i = scan_byte(line, 32);
        if i >= line.len() {
            return Err(RitError::IndexFormat);
        }
        let path_s = slice_subrange(line, 0, i);
        let rest2 = slice_subrange(line, i + 1, line.len());
        proof {
            assert(path_s@ =~= line@.take(i as int));
            assert(rest2@ =~= line@.skip(i as int + 1));
        }
        let j = scan_byte(rest2, 32);
        if j >= rest2.len() {
            return Err(RitError::IndexFormat);
        }
        let mode_s = slice_subrange(rest2, 0, j);
        let id_s = slice_subrange(rest2, j + 1, rest2.len());
        proof {
            assert(mode_s@ =~= rest2@.take(j as int));
            assert(id_s@ =~= rest2@.skip(j as int + 1));
        }
        let k = scan_byte(id_s, 32);
        if k < id_s.len() || path_s.len() == 0 || mode_s.len() == 0 || id_s.len() == 0 {
            return Err(RitError::IndexFormat);
        }
        let ghost t = (path_s@, mode_s@, id_s@);
        proof {
            assert(parse_line(line@) == Some(t));
            // The fields carry no space (they end at the first space, or
            // were scanned whole) and no newline (the line ends at the
            // first newline).
            lemma_find_byte(line@, 32);
            lemma_find_byte(rest2@, 32);
            lemma_find_byte(id_s@, 32);
            lemma_find_byte(text@, 10);
            assert forall|q: int| 0 <= q < path_s@.len() implies #[trigger] path_s@[q] != 32
                && path_s@[q] != 10 by {
                assert(path_s@[q] == line@[q]);
                assert(line@[q] == text@[q]);
            }
            assert forall|q: int| 0 <= q < mode_s@.len() implies #[trigger] mode_s@[q] != 32
                && mode_s@[q] != 10 by {
                assert(mode_s@[q] == rest2@[q]);
                assert(rest2@[q] == line@[i + 1 + q]);
                assert(line@[i + 1 + q] == text@[i + 1 + q]);
            }
            assert forall|q: int| 0 <= q < id_s@.len() implies #[trigger] id_s@[q] != 32
                && id_s@[q] != 10 by {
                assert(id_s@[q] == rest2@[j + 1 + q]);
                assert(rest2@[j + 1 + q] == line@[i + 1 + j + 1 + q]);
                assert(line@[i + 1 + j + 1 + q] == text@[i + 1 + j + 1 + q]);
            }
            assert(entry_wf(t));
            lemma_upsert_wf(ix@, t);
        }
        ix.upsert(slice_to_vec(path_s), slice_to_vec(mode_s), slice_to_vec(id_s));
        let r = Index::load_rec(rest, ix);
        proof {
            if r is Ok {
                let ts = parse_index(rest@).unwrap();
                assert(parse_index(text@) == Some(seq![t] + ts));
                assert((seq![t] + ts)[0] == t);
                assert((seq![t] + ts).drop_first() =~= ts);
            }
        }
        r
    }
}

/// Copy a byte string.
pub fn vec_copy(src: &[u8]) -> (r: Vec<u8>)
    ensures
        r@ == src@,
{
    let mut r: Vec<u8> = Vec::new();
    crate::hashing::push_all(&mut r, src);
    assert(r@ =~= src@);
    r
}

impl Index {
    /// Hash `data` as a blob and record `(path, "100644", id)`, overwriting
    /// any prior entry for the same path.
    pub fn stage_blob(&mut self, path: Vec<u8>, data: &Vec<u8>)
        requires
            old(self).wf(),
            field_wf(path@),
        ensures
            final(self)@ == upsert_one(
                old(self)@,
                (path@, mode_file(), encode_utf8(object_id_spec("blob"@, data@))),
            ),
            final(self).wf(),
    {
        let id = hash_object("blob", data);
        let id_b = id.as_str().as_bytes_vec();
        let mut mode: Vec<u8> = Vec::new();
        mode.push(49);
        mode.push(48);
        mode.push(48);
        mode.push(54);
        mode.push(52);
        mode.push(52);
        proof {
            assert(mode@ =~= mode_file());
            lemma_id_chars_bytes(id@);
            assert forall|q: int| 0 <= q < id_b@.len() implies #[trigger] id_b@[q] != 32
                && id_b@[q] != 10 by {
                assert(is_hex_digit(id_b@[q]));
            }
            assert(field_wf(id_b@));
            assert(entry_wf((path@, mode@, id_b@)));
            lemma_upsert_wf(self@, (path@, mode@, id_b@));
        }
        self.upsert(path, mode, id_b);
    }

    /// Stage one file: reject a path whose final segment is the reserved
    /// name or hidden, else hash the contents as a blob and upsert the
    /// entry.  On rejection the index is left unchanged.
    pub fn add_single_file(&mut self, path: Vec<u8>, data: &Vec<u8>) -> (r: Result<(), RitError>)
        requires
            old(self).wf(),
            field_wf(path@),
        ensures
            path_rejected(path@) ==> (r matches Err(e) && e == RitError::PathRejected
                && final(self)@ == old(self)@),
            !path_rejected(path@) ==> (r is Ok && final(self)@ == upsert_one(
                old(self)@,
                (path@, mode_file(), encode_utf8(object_id_spec("blob"@, data@))),
            )),
            final(self).wf(),
    {
        if path_is_rejected(path.as_slice()) {
            return Err(RitError::PathRejected);
        }
        self.stage_blob(path, data);
        Ok(())
    }
}

/// A well-formed entry's rendered line parses back to the entry itself.
pub proof fn lemma_parse_render_line(t: EntryV)
    requires
        entry_wf(t),
    ensures
        parse_line(t.0 + seq![32u8] + t.1 + seq![32u8] + t.2) == Some(t),
{
    let line = t.0 + seq![32u8] + t.1 + seq![32u8] + t.2;
    let p0 = t.0.len() as int;
    assert(line[p0] == 32);
    lemma_find_byte_is(line, 32, p0);
    assert(line.take(p0) =~= t.0);
    let rest = line.skip(p0 + 1);
    assert(rest =~= t.1 + seq![32u8] + t.2);
    let p1 = t.1.len() as int;
    assert(rest[p1] == 32);
    lemma_find_byte_is(rest, 32, p1);
    assert(rest.take(p1) =~= t.1);
    assert(rest.skip(p1 + 1) =~= t.2);
    lemma_find_byte_is(t.2, 32, t.2.len() as int);
    assert(parse_line(line) == Some((t.0, t.1, t.2)));
    assert((t.0, t.1, t.2) == t);
}

/// A well-formed index's serialization parses back to the same entries, in
/// the same order.
pub proof fn lemma_parse_render(v: Seq<EntryV>)
    requires
        entries_wf(v),
    ensures
        parse_index(render_spec(v)) == Some(v),
    decreases v.len(),
{
    if v.len() == 0 {
        assert(render_spec(v).len() == 0);
        assert(parse_index(render_spec(v)) == Some(Seq::<EntryV>::empty()));
        assert(Seq::<EntryV>::empty() =~= v);
    } else {
        let t = v[0];
        let line = t.0 + seq![32u8] + t.1 + seq![32u8] + t.2;
        let s = render_spec(v);
        let vr = v.drop_first();
        assert(s == render_entry(t) + render_spec(vr));
        assert(s =~= line + seq![10u8] + render_spec(vr));
        let n = line.len() as int;
        assert(s[n] == 10);
        assert forall|q: int| 0 <= q < n implies s[q] != 10 by {
            assert(s[q] == line[q]);
            if q < t.0.len() {
                assert(line[q] == t.0[q]);
            } else if q == t.0.len() {
            } else if q < t.0.len() + 1 + t.1.len() {
                assert(line[q] == t.1[q - t.0.len() - 1]);
            } else if q == t.0.len() + 1 + t.1.len() {
            } else {
                assert(line[q] == t.2[q - t.0.len() - t.1.len() - 2]);
            }
        }
        lemma_find_byte_is(s, 10, n);
        assert(s.take(n) =~= line);
        assert(line.len() > 0);
        assert(s.skip(n + 1) =~= render_spec(vr));
        lemma_parse_render_line(t);
        assert(entries_wf(vr)) by {
            assert(forall|i: int|
                0 <= i < vr.len() ==> #[trigger] vr[i] == v[i + 1]);
        }
        lemma_parse_render(vr);
        assert(parse_index(s) == Some(seq![t] + vr));
        assert(seq![t] + vr =~= v);
    }
}

/// `find_path` misses when no entry holds the path.
pub proof fn lemma_find_path_missing(s: Seq<EntryV>, path: Seq<u8>)
    requires
        forall|i: int| 0 <= i < s.len() ==> (#[trigger] s[i]).0 != path,
    ensures
        find_path(s, path) == s.len(),
{
    lemma_find_path(s, path);
    let f = find_path(s, path);
    if f < s.len() {
        assert(s[f].0 == path);
        assert(s[f].0 != path);
    }
}

/// Upserting entries with pairwise distinct paths, none already present,
/// appends them in order.
pub proof fn lemma_upsert_all_id(p: Seq<EntryV>, adds: Seq<EntryV>)
    requires
        entries_wf(p + adds),
    ensures
        upsert_all(p, adds) == p + adds,
    decreases adds.len(),
{
    if adds.len() == 0 {
        assert(p + adds =~= p);
    } else {
        let t = adds[0];
        let w = p + adds;
        assert(w[p.len() as int] == t);
        assert forall|i: int| 0 <= i < p.len() implies (#[trigger] p[i]).0 != t.0 by {
            assert(w[i] == p[i]);
        }
        lemma_find_path_missing(p, t.0);
        assert(upsert_one(p, t) == p.push(t));
        assert(p.push(t) + adds.drop_first() =~= p + adds);
        lemma_upsert_all_id(p.push(t), adds.drop_first());
        assert(upsert_all(p, adds) == upsert_all(p.push(t), adds.drop_first()));
    }
}

/// Saving and loading round-trip: for any well-formed index contents,
/// parsing the serialization returns exactly the same entries, and
/// re-inserting them into an empty index reproduces them in order — so a
/// load of a save, saved again, writes the identical mapping.
pub proof fn lemma_save_load_round_trip(v: Seq<EntryV>)
    requires
        entries_wf(v),
    ensures
        parse_index(render_spec(v)) == Some(v),
        upsert_all(Seq::<EntryV>::empty(), v) == v,
{
    lemma_parse_render(v);
    assert(Seq::<EntryV>::empty() + v =~= v);
    lemma_upsert_all_id(Seq::<EntryV>::empty(), v);
}

/// Byte-for-byte equality of two byte strings.
pub fn bytes_eq(a: &[u8], b: &[u8]) -> (r: bool)
    ensures
        r <==> a@ == b@,
{
    if a.len() != b.len() {
        proof {
            assert(a@.len() != b@.len());
        }
        return false;
    }
    let mut i: usize = 0;
    while i < a.len()
        invariant
            i <= a@.len(),
            a@.len() == b@.len(),
            forall|j: int| 0 <= j < i ==> a@[j] == b@[j],
        decreases a@.len() - i,
    {
        if a[i] != b[i] {
            return false;
        }
        i = i + 1;
    }
    proof {
        assert(a@ =~= b@);
    }
    true
}

} // verus!
