//! Loose objects: the canonical `"<kind> <len>\0" || body` framing, the
//! SHA-1 content address, and the zlib-compressed on-disk form.

use crate::encoding::{
    append_bytes, bytes_eq, dec_bytes, dec_digits, find_byte, find_byte_exec, hex_of,
    is_dec_digit, lemma_dec_digits_are_digits, lemma_find_byte_at, lemma_find_byte_props,
    lemma_hex_of_len, sub_bytes,
};
use crate::err::GitError;
use crate::sha::{sha1_digest, sha1_of};
use crate::zlib::{deflate_of, inflate_prefix, zlib_deflate, zlib_inflate_prefix};
use vstd::prelude::*;

verus! {

/// The kind of an object: what the framing header names it.
#[derive(Clone, Copy, Debug, PartialEq, Eq, Structural)]
pub enum ObjectKind {
    Blob,
    Tree,
    Commit,
}

/// The ASCII name of an object kind, as it stands in the framing header.
pub open spec fn kind_bytes(kind: ObjectKind) -> Seq<u8> {
    match kind {
        ObjectKind::Blob => seq![98u8, 108u8, 111u8, 98u8],
        ObjectKind::Tree => seq![116u8, 114u8, 101u8, 101u8],
        ObjectKind::Commit => seq![99u8, 111u8, 109u8, 109u8, 105u8, 116u8],
    }
}

/// The kind a header names, if it names one.
pub open spec fn spec_kind_of(s: Seq<u8>) -> Option<ObjectKind> {
    if s == kind_bytes(ObjectKind::Blob) {
        Some(ObjectKind::Blob)
    } else if s == kind_bytes(ObjectKind::Tree) {
        Some(ObjectKind::Tree)
    } else if s == kind_bytes(ObjectKind::Commit) {
        Some(ObjectKind::Commit)
    } else {
        None
    }
}

impl ObjectKind {
    /// The ASCII name of this kind.
    pub fn label(&self) -> (r: Vec<u8>)
        ensures
            r@ == kind_bytes(*self),
    {
        let mut v: Vec<u8> = Vec::new();
        match self {
            ObjectKind::Blob => {
                v.push(98);
                v.push(108);
                v.push(111);
                v.push(98);
                proof {
                    assert(v@ =~= kind_bytes(ObjectKind::Blob));
                }
            },
            ObjectKind::Tree => {
                v.push(116);
                v.push(114);
                v.push(101);
                v.push(101);
                proof {
                    assert(v@ =~= kind_bytes(ObjectKind::Tree));
                }
            },
            ObjectKind::Commit => {
                v.push(99);
                v.push(111);
                v.push(109);
                v.push(109);
                v.push(105);
                v.push(116);
                proof {
                    assert(v@ =~= kind_bytes(ObjectKind::Commit));
                }
            },
        }
        v
    }

    /// Recognize a kind name; anything else is `BadKind`.
    pub fn from_bytes(s: &[u8]) -> (r: Result<ObjectKind, GitError>)
        ensures
            r is Ok <==> spec_kind_of(s@) is Some,
            r is Ok ==> Some(r->Ok_0) == spec_kind_of(s@),
            r is Err ==> r->Err_0 == GitError::BadKind,
    {
        let blob = ObjectKind::Blob.label();
        let tree = ObjectKind::Tree.label();
        let commit = ObjectKind::Commit.label();
        if bytes_eq(s, blob.as_slice()) {
            Ok(ObjectKind::Blob)
        } else if bytes_eq(s, tree.as_slice()) {
            Ok(ObjectKind::Tree)
        } else if bytes_eq(s, commit.as_slice()) {
            Ok(ObjectKind::Commit)
        } else {
            Err(GitError::BadKind)
        }
    }
}

/// An object: a kind and a body.  Its hash — the SHA-1 of the framed form —
/// is a pure function of the two.
#[derive(Debug, Clone, PartialEq, Eq)]
pub struct Object {
    pub kind: ObjectKind,
    pub body: Vec<u8>,
}

/// The canonical framed form: `"<kind> <len>\0"` followed by the body, with
/// the decimal length written without leading zeros.
pub open spec fn spec_frame(kind: ObjectKind, body: Seq<u8>) -> Seq<u8> {
    kind_bytes(kind) + seq![32u8] + dec_digits(body.len()) + seq![0u8] + body
}

/// Parse a framed object: the kind up to the first space, the advisory
/// decimal length up to the first NUL, and everything after the NUL as the
/// body (the length is checked for shape, not enforced).
pub open spec fn spec_parse_frame(raw: Seq<u8>) -> Option<(ObjectKind, Seq<u8>)> {
    match find_byte(raw, 0, 32) {
        None => None,
        Some(sp) => match spec_kind_of(raw.subrange(0, sp)) {
            None => None,
            Some(kind) => match find_byte(raw, sp + 1, 0) {
                None => None,
                Some(nul) => {
                    let digits = raw.subrange(sp + 1, nul);
                    if digits.len() >= 1 && (forall|i: int|
                        0 <= i < digits.len() ==> is_dec_digit(#[trigger] digits[i])) {
                        Some((kind, raw.subrange(nul + 1, raw.len() as int)))
                    } else {
                        None
                    }
                },
            },
        },
    }
}

/// The framing has a kind header, but it names no kind: the one cause of
/// `BadKind`.
pub open spec fn frame_kind_bad(raw: Seq<u8>) -> bool {
    match find_byte(raw, 0, 32) {
        None => false,
        Some(sp) => spec_kind_of(raw.subrange(0, sp)) is None,
    }
}

/// The zlib stream opens, but its contents name no kind.
pub open spec fn loose_kind_bad(raw: Seq<u8>) -> bool {
    match inflate_prefix(raw) {
        None => false,
        Some((framed, _used)) => frame_kind_bad(framed),
    }
}

/// What a loose object file decodes to: inflate the zlib stream, then parse
/// the framing.
pub open spec fn spec_loose_decode(raw: Seq<u8>) -> Option<(ObjectKind, Seq<u8>)> {
    match inflate_prefix(raw) {
        None => None,
        Some((framed, _used)) => spec_parse_frame(framed),
    }
}

impl Object {
    /// Make an object from a kind and a body.
    pub fn new(kind: ObjectKind, body: Vec<u8>) -> (r: Object)
        ensures
            r.kind == kind,
            r.body == body,
    {
        Object { kind, body }
    }

    /// The framed form of this object.
    pub fn frame(&self) -> (r: Vec<u8>)
        ensures
            r@ == spec_frame(self.kind, self.body@),
    {
        let mut out = self.kind.label();
        out.push(32);
        let len_digits = dec_bytes(self.body.len());
        append_bytes(&mut out, len_digits.as_slice());
        out.push(0);
        append_bytes(&mut out, self.body.as_slice());
        proof {
            assert(out@ =~= spec_frame(self.kind, self.body@));
        }
        out
    }

    /// The content address: the SHA-1 of the framed form, 20 bytes.
    pub fn hash(&self) -> (r: Vec<u8>)
        ensures
            r@ == sha1_of(spec_frame(self.kind, self.body@)),
            r@.len() == 20,
    {
        let framed = self.frame();
        sha1_digest(framed.as_slice())
    }

    /// Parse a framed object.  Succeeds exactly when the framing is
    /// well-formed; the error tells a bad kind name from a missing
    /// separator or a malformed length.
    pub fn parse_frame(raw: &[u8]) -> (r: Result<Object, GitError>)
        ensures
            r is Ok <==> spec_parse_frame(raw@) is Some,
            r is Ok ==> Some((r->Ok_0.kind, r->Ok_0.body@)) == spec_parse_frame(raw@),
            r == Err::<Object, GitError>(GitError::BadKind) <==> frame_kind_bad(raw@),
            r == Err::<Object, GitError>(GitError::Malformed) <==> spec_parse_frame(raw@) is None
                && !frame_kind_bad(raw@),
    {
        let rlen = raw.len();
        let sp = match find_byte_exec(raw, 0, 32) {
            Some(i) => i,
            None => {
                return Err(GitError::Malformed);
            },
        };
        proof {
            lemma_find_byte_props(raw@, 0, 32);
        }
        let kind_name = sub_bytes(raw, 0, sp);
        let kind = match ObjectKind::from_bytes(kind_name.as_slice()) {
            Ok(k) => k,
            Err(e) => {
                return Err(e);
            },
        };
        let nul = match find_byte_exec(raw, sp + 1, 0) {
            Some(i) => i,
            None => {
                return Err(GitError::Malformed);
            },
        };
        proof {
            lemma_find_byte_props(raw@, sp + 1, 0);
        }
        if nul == sp + 1 {
            return Err(GitError::Malformed);
        }
        let ghost digits = raw@.subrange(sp + 1, nul as int);
        let mut i: usize = sp + 1;
        while i < nul
            invariant
                sp + 1 <= i <= nul < raw@.len(),
                digits == raw@.subrange(sp + 1, nul as int),
                find_byte(raw@, 0, 32) == Some(sp as int),
                spec_kind_of(raw@.subrange(0, sp as int)) == Some(kind),
                find_byte(raw@, sp + 1, 0) == Some(nul as int),
                forall|k: int| sp + 1 <= k < i ==> is_dec_digit(#[trigger] raw@[k]),
            decreases nul - i,
        {
            let b = raw[i];
            if b < 48 || b > 57 {
                proof {
                    assert(digits[i - (sp + 1)] == raw@[i as int]);
                }
                return Err(GitError::Malformed);
            }
            i = i + 1;
        }
        proof {
            assert forall|k: int| 0 <= k < digits.len() implies is_dec_digit(
                #[trigger] digits[k],
            ) by {
                assert(digits[k] == raw@[k + sp + 1]);
            }
        }
        let body = sub_bytes(raw, nul + 1, raw.len());
        Ok(Object { kind, body })
    }

    /// The on-disk form of a loose object: the framed form, zlib-compressed
    /// at level 0.  The bytes always decode back to this object.
    pub fn encode_loose(&self) -> (r: Vec<u8>)
        ensures
            r@ == deflate_of(spec_frame(self.kind, self.body@)),
            spec_loose_decode(r@) == Some((self.kind, self.body@)),
    {
        let framed = self.frame();
        let out = zlib_deflate(framed.as_slice());
        proof {
            lemma_frame_roundtrip(self.kind, self.body@);
        }
        out
    }

    /// Decode the on-disk form of a loose object.  Succeeds exactly when the
    /// bytes hold a zlib stream whose contents are a well-formed framing.
    pub fn from_loose_bytes(raw: &[u8]) -> (r: Result<Object, GitError>)
        ensures
            r is Ok <==> spec_loose_decode(raw@) is Some,
            r is Ok ==> Some((r->Ok_0.kind, r->Ok_0.body@)) == spec_loose_decode(raw@),
            r == Err::<Object, GitError>(GitError::BadKind) <==> loose_kind_bad(raw@),
            r == Err::<Object, GitError>(GitError::Malformed) <==> spec_loose_decode(raw@) is None
                && !loose_kind_bad(raw@),
    {
        proof {
            assert(raw@.skip(0) =~= raw@);
        }
        let inflated = match zlib_inflate_prefix(raw, 0) {
            Ok((data, _used)) => data,
            Err(_) => {
                return Err(GitError::Malformed);
            },
        };
        Object::parse_frame(inflated.as_slice())
    }
}

/// The relative path of a loose object under the repository root:
/// `.git/objects/<first two hex chars>/<remaining 38>`.
pub open spec fn spec_loose_path(hash: Seq<u8>) -> Seq<u8> {
    objects_dir_bytes() + hex_of(hash).subrange(0, 2) + seq![47u8] + hex_of(hash).skip(2)
}

/// The ASCII bytes of `.git/objects/`.
pub open spec fn objects_dir_bytes() -> Seq<u8> {
    seq![46u8, 103u8, 105u8, 116u8, 47u8, 111u8, 98u8, 106u8, 101u8, 99u8, 116u8, 115u8, 47u8]
}

/// The relative path of the loose-object file for a 20-byte hash.
pub fn loose_path(hash: &[u8]) -> (r: Vec<u8>)
    requires
        hash@.len() == 20,
    ensures
        r@ == spec_loose_path(hash@),
{
    let hex = crate::encoding::hex_encode(hash);
    let mut out: Vec<u8> = Vec::new();
    out.push(46);
    out.push(103);
    out.push(105);
    out.push(116);
    out.push(47);
    out.push(111);
    out.push(98);
    out.push(106);
    out.push(101);
    out.push(99);
    out.push(116);
    out.push(115);
    out.push(47);
    proof {
        assert(out@ =~= objects_dir_bytes());
    }
    out.push(hex[0]);
    out.push(hex[1]);
    out.push(47);
    let tail = sub_bytes(hex.as_slice(), 2, hex.len());
    append_bytes(&mut out, tail.as_slice());
    proof {
        lemma_hex_of_len(hash@);
        assert(out@ =~= spec_loose_path(hash@));
    }
    out
}

/// Framing round-trip: parsing the canonical framed form of any object gives
/// back exactly its kind and body.  With the zlib codec's own round-trip,
/// this is why a persisted object loads back unchanged.
pub proof fn lemma_frame_roundtrip(kind: ObjectKind, body: Seq<u8>)
    ensures
        spec_parse_frame(spec_frame(kind, body)) == Some((kind, body)),
{
    let kb = kind_bytes(kind);
    let dd = dec_digits(body.len());
    let f = spec_frame(kind, body);
    lemma_dec_digits_are_digits(body.len());
    assert(forall|i: int| 0 <= i < kb.len() ==> kb[i] != 32 && kb[i] != 0) by {
        match kind {
            ObjectKind::Blob => {},
            ObjectKind::Tree => {},
            ObjectKind::Commit => {},
        }
    }
    let sp = kb.len() as int;
    assert(f[sp] == 32);
    assert(forall|i: int| 0 <= i < sp ==> #[trigger] f[i] == kb[i]);
    lemma_find_byte_at(f, 0, sp, 32);
    assert(f.subrange(0, sp) =~= kb);
    assert(spec_kind_of(kb) == Some(kind)) by {
        match kind {
            ObjectKind::Blob => {},
            ObjectKind::Tree => {
                assert(kind_bytes(ObjectKind::Tree)[0] != kind_bytes(ObjectKind::Blob)[0]);
            },
            ObjectKind::Commit => {
                assert(kind_bytes(ObjectKind::Commit).len() != kind_bytes(
                    ObjectKind::Blob,
                ).len());
                assert(kind_bytes(ObjectKind::Commit).len() != kind_bytes(
                    ObjectKind::Tree,
                ).len());
            },
        }
    }
    let nul = sp + 1 + dd.len() as int;
    assert(f[nul] == 0);
    assert(forall|i: int| sp + 1 <= i < nul ==> #[trigger] f[i] == dd[i - (sp + 1)]);
    assert(forall|i: int| sp + 1 <= i < nul ==> f[i] != 0) by {
        assert(forall|i: int|
            sp + 1 <= i < nul ==> is_dec_digit(#[trigger] dd[i - (sp + 1)]));
    }
    lemma_find_byte_at(f, sp + 1, nul, 0);
    assert(f.subrange(sp + 1, nul) =~= dd);
    assert(f.subrange(nul + 1, f.len() as int) =~= body);
}

} // verus!
