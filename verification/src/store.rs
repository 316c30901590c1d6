//! The object store: an object is persisted under a path derived from its
//! identifier, and never written twice.
//!
//! The store itself is a directory tree on disk; this module computes every
//! value the caller needs for one `store` operation — the identifier, the
//! prefix directory, the file path, the full file contents, and whether a
//! write is due.  Because the identifier, path and contents are functions of
//! `(type, payload)` alone, and a write is due only when the file is absent,
//! storing the same content twice writes the backing file exactly once: the
//! second call finds it present and is a no-op.

use vstd::prelude::*;
use vstd::string::*;
use crate::hashing::{
    object_id_spec,
    encoded_object_spec,
    is_id_chars,
    encode_object,
    sha256_hex,
};

verus! {

/// Everything one `store` operation writes or decides.
pub struct StorePlan {
    /// The object's identifier.
    pub id: String,
    /// The fan-out directory: `objects/` plus the first two identifier
    /// characters.
    pub dir: String,
    /// The object's file: the directory plus the remaining characters.
    pub file: String,
    /// The file's full contents: header plus payload.
    pub contents: Vec<u8>,
    /// Whether the file must be written: exactly when it does not exist yet.
    pub write: bool,
}

/// The prefix directory of an identifier, bounding directory fan-out.
pub open spec fn store_dir_spec(id: Seq<char>) -> Seq<char> {
    "objects/"@ + id.take(2)
}

/// The file path of an identifier: prefix directory, slash, remaining
/// characters.
pub open spec fn store_file_spec(id: Seq<char>) -> Seq<char> {
    store_dir_spec(id) + "/"@ + id.skip(2)
}

/// Plan one `store(type, payload)` operation.  `exists` says whether a file
/// already stands at the derived path; the plan orders a write exactly when
/// it does not, which makes storing the same content twice a no-op the
/// second time.
pub fn store_plan(exists: bool, tag: &str, payload: &Vec<u8>) -> (r: StorePlan)
    ensures
        r.id@ == object_id_spec(tag@, payload@),
        is_id_chars(r.id@),
        r.dir@ == store_dir_spec(r.id@),
        r.file@ == store_file_spec(r.id@),
        r.contents@ == encoded_object_spec(tag@, payload@),
        r.write == !exists,
{
    let contents = encode_object(tag, payload);
    let id = sha256_hex(&contents);
    proof {
        assert forall|i: int| 0 <= i < id@.len() implies '\0' <= #[trigger] id@[i] <= '\u{7f}' by {
            assert(crate::hashing::is_lower_hex_char(id@[i]));
        }
        assert(vstd::utf8::is_ascii_chars(id@));
    }
    let id_str = id.as_str();
    let prefix = id_str.substring_ascii(0, 2);
    let rest = id_str.substring_ascii(2, 64);
    let mut dir = String::from_str("objects/");
    dir.append(prefix);
    let mut file = dir.clone();
    file.append("/");
    file.append(rest);
    proof {
        assert(prefix@ =~= id@.take(2));
        assert(rest@ =~= id@.skip(2));
        assert(dir@ =~= store_dir_spec(id@));
        assert(file@ =~= store_file_spec(id@));
    }
    StorePlan { id, dir, file, contents, write: !exists }
}

} // verus!
