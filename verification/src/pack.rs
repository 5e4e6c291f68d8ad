//! The packfile decoder: variable-length object headers, zlib-compressed
//! bodies, and reference-delta reconstruction against earlier objects in the
//! stream.

use crate::encoding::{
    append_bytes, bytes_eq, find_byte, find_byte_exec, lemma_find_byte_props, sub_bytes,
};
use crate::err::GitError;
use crate::object::{spec_frame, Object, ObjectKind};
use crate::sha::sha1_of;
use crate::zlib::{inflate_prefix, zlib_inflate_prefix};
use vstd::prelude::*;

verus! {

/// The six entry types a pack stream can carry.
#[derive(Clone, Copy, Debug, PartialEq, Eq, Structural)]
pub enum ObjectType {
    Commit,
    Tree,
    Blob,
    Tag,
    OfsDelta,
    RefDelta,
}

/// The entry type a 3-bit code names, if any.
pub open spec fn spec_type_code(code: int) -> Option<ObjectType> {
    if code == 1 {
        Some(ObjectType::Commit)
    } else if code == 2 {
        Some(ObjectType::Tree)
    } else if code == 3 {
        Some(ObjectType::Blob)
    } else if code == 4 {
        Some(ObjectType::Tag)
    } else if code == 6 {
        Some(ObjectType::OfsDelta)
    } else if code == 7 {
        Some(ObjectType::RefDelta)
    } else {
        None
    }
}

impl ObjectType {
    /// Map a 3-bit type code to an entry type; anything else is
    /// `Unsupported`.
    pub fn try_from(value: u8) -> (r: Result<ObjectType, GitError>)
        ensures
            r is Ok <==> spec_type_code(value as int) is Some,
            r is Ok ==> Some(r->Ok_0) == spec_type_code(value as int),
            r is Err ==> r->Err_0 == GitError::Unsupported,
    {
        match value {
            1u8 => Ok(ObjectType::Commit),
            2u8 => Ok(ObjectType::Tree),
            3u8 => Ok(ObjectType::Blob),
            4u8 => Ok(ObjectType::Tag),
            6u8 => Ok(ObjectType::OfsDelta),
            7u8 => Ok(ObjectType::RefDelta),
            _ => Err(GitError::Unsupported),
        }
    }
}

/// The object kind a pack entry type stores as; tags are kept under the
/// commit kind.
pub open spec fn spec_type_kind(t: ObjectType) -> Option<ObjectKind> {
    match t {
        ObjectType::Commit => Some(ObjectKind::Commit),
        ObjectType::Tree => Some(ObjectKind::Tree),
        ObjectType::Blob => Some(ObjectKind::Blob),
        ObjectType::Tag => Some(ObjectKind::Commit),
        ObjectType::OfsDelta => None,
        ObjectType::RefDelta => None,
    }
}

/// The continuation bytes of a variable-length size: each contributes its
/// low 7 bits, scaled by `mult`, until a byte without the high bit ends the
/// run.  Sizes past `usize::MAX` are rejected.
pub open spec fn spec_varint_ext(s: Seq<u8>, i: int, mult: nat, acc: nat) -> Option<(nat, int)>
    decreases s.len() - i,
{
    if i < 0 || i >= s.len() {
        None
    } else {
        let b = s[i];
        let prod = (b % 128) * mult;
        if acc + prod > usize::MAX {
            None
        } else {
            let v = acc + prod;
            if b < 128 {
                Some((v as nat, i + 1))
            } else if mult * 128 > usize::MAX {
                None
            } else {
                spec_varint_ext(s, i + 1, mult * 128, v as nat)
            }
        }
    }
}

/// A delta-style size: 7-bit groups from `i` on, least significant first.
pub open spec fn spec_varint(s: Seq<u8>, i: int) -> Option<(nat, int)> {
    spec_varint_ext(s, i, 1, 0)
}

/// A pack object header at `i`: type code in bits 4..6 of the first byte,
/// size in its low 4 bits extended by 7-bit groups.
pub open spec fn spec_obj_header(s: Seq<u8>, i: int) -> Option<(ObjectType, nat, int)> {
    if i < 0 || i >= s.len() {
        None
    } else {
        let b = s[i];
        match spec_type_code((b / 16 % 8) as int) {
            None => None,
            Some(t) => {
                if b < 128 {
                    Some((t, (b % 16) as nat, i + 1))
                } else {
                    match spec_varint_ext(s, i + 1, 16, (b % 16) as nat) {
                        None => None,
                        Some((v, j)) => Some((t, v, j)),
                    }
                }
            },
        }
    }
}

/// Which error a failed header read reports: an unknown type code is
/// `Unsupported`, a truncated buffer or an oversized size is
/// `ProtocolError`.
pub open spec fn spec_header_err(s: Seq<u8>, i: int) -> GitError {
    if i < 0 || i >= s.len() {
        GitError::ProtocolError
    } else if spec_type_code((s[i] / 16 % 8) as int) is None {
        GitError::Unsupported
    } else {
        GitError::ProtocolError
    }
}

/// A found varint ends after where it starts and inside the buffer.
pub proof fn lemma_varint_ext_props(s: Seq<u8>, i: int, mult: nat, acc: nat)
    requires
        spec_varint_ext(s, i, mult, acc) is Some,
    ensures
        i < spec_varint_ext(s, i, mult, acc)->Some_0.1 <= s.len(),
        spec_varint_ext(s, i, mult, acc)->Some_0.0 <= usize::MAX,
    decreases s.len() - i,
{
    let b = s[i];
    let prod = (b % 128) * mult;
    if !(acc + prod > usize::MAX) && b >= 128 && !(mult * 128 > usize::MAX) {
        lemma_varint_ext_props(s, i + 1, mult * 128, (acc + prod) as nat);
    }
}

/// A found header ends after where it starts and inside the buffer.
pub proof fn lemma_obj_header_props(s: Seq<u8>, i: int)
    requires
        spec_obj_header(s, i) is Some,
    ensures
        i < spec_obj_header(s, i)->Some_0.2 <= s.len(),
        spec_obj_header(s, i)->Some_0.1 <= usize::MAX,
{
    let b = s[i];
    if b >= 128 {
        lemma_varint_ext_props(s, i + 1, 16, (b % 16) as nat);
    }
}

/// Read a variable-length size, low 4 bits of the first byte first (an
/// object header with the type bits already taken), or 7-bit groups from
/// scratch.
fn varint_ext_exec(s: &[u8], i: usize, mult0: usize, acc0: usize) -> (r: Result<
    (usize, usize),
    GitError,
>)
    requires
        i <= s@.len(),
    ensures
        r is Ok <==> spec_varint_ext(s@, i as int, mult0 as nat, acc0 as nat) is Some,
        r is Ok ==> Some((r->Ok_0.0 as nat, r->Ok_0.1 as int)) == spec_varint_ext(
            s@,
            i as int,
            mult0 as nat,
            acc0 as nat,
        ),
        r is Err ==> r->Err_0 == GitError::ProtocolError,
{
    let slen = s.len();
    let mut cur: usize = i;
    let mut mult: usize = mult0;
    let mut acc: usize = acc0;
    loop
        invariant
            i <= cur <= slen,
            slen == s@.len(),
            spec_varint_ext(s@, i as int, mult0 as nat, acc0 as nat) == spec_varint_ext(
                s@,
                cur as int,
                mult as nat,
                acc as nat,
            ),
        decreases slen - cur,
    {
        if cur >= slen {
            return Err(GitError::ProtocolError);
        }
        let b = s[cur];
        let low = (b % 128) as usize;
        let prod = match low.checked_mul(mult) {
            Some(p) => p,
            None => {
                return Err(GitError::ProtocolError);
            },
        };
        let v = match acc.checked_add(prod) {
            Some(v) => v,
            None => {
                return Err(GitError::ProtocolError);
            },
        };
        if b < 128 {
            return Ok((v, cur + 1));
        }
        let m2 = match mult.checked_mul(128) {
            Some(m) => m,
            None => {
                return Err(GitError::ProtocolError);
            },
        };
        cur = cur + 1;
        mult = m2;
        acc = v;
    }
}

/// Read a pack object header: entry type and declared size.
fn obj_header_exec(s: &[u8], i: usize) -> (r: Result<(ObjectType, usize, usize), GitError>)
    requires
        i <= s@.len(),
    ensures
        r is Ok <==> spec_obj_header(s@, i as int) is Some,
        r is Ok ==> Some((r->Ok_0.0, r->Ok_0.1 as nat, r->Ok_0.2 as int)) == spec_obj_header(
            s@,
            i as int,
        ),
        r is Err ==> r->Err_0 == spec_header_err(s@, i as int),
{
    if i >= s.len() {
        return Err(GitError::ProtocolError);
    }
    let b = s[i];
    let t = match ObjectType::try_from(b / 16 % 8) {
        Ok(t) => t,
        Err(e) => {
            return Err(e);
        },
    };
    if b < 128 {
        return Ok((t, (b % 16) as usize, i + 1));
    }
    match varint_ext_exec(s, i + 1, 16, (b % 16) as usize) {
        Ok((v, j)) => Ok((t, v, j)),
        Err(e) => Err(e),
    }
}

/// One field of a copy instruction: `count` optional bytes, one per low bit
/// of `bits`, assembled least significant first.
pub open spec fn spec_copy_field(s: Seq<u8>, i: int, bits: nat, count: nat, mult: nat, acc: nat)
    -> Option<(nat, int)>
    decreases count,
{
    if count == 0 {
        Some((acc, i))
    } else if bits % 2 == 1 {
        if i < 0 || i >= s.len() {
            None
        } else {
            spec_copy_field(s, i + 1, bits / 2, (count - 1) as nat, mult * 256, (acc + s[i] * mult) as nat)
        }
    } else {
        spec_copy_field(s, i, bits / 2, (count - 1) as nat, mult * 256, acc)
    }
}

/// A found copy field consumes at most `count` bytes and stays small.
proof fn lemma_copy_field_props(s: Seq<u8>, i: int, bits: nat, count: nat, mult: nat, acc: nat)
    requires
        spec_copy_field(s, i, bits, count, mult, acc) is Some,
        acc < mult,
        mult >= 1,
    ensures
        i <= spec_copy_field(s, i, bits, count, mult, acc)->Some_0.1 <= i + count,
        spec_copy_field(s, i, bits, count, mult, acc)->Some_0.0 < mult * pow256(count),
    decreases count,
{
    lemma_pow256_pos(count);
    if count == 0 {
        assert(mult * pow256(0) == mult);
        assert(acc < mult * pow256(count));
    } else if bits % 2 == 1 {
        let b = s[i];
        assert(acc + b * mult < mult * 256) by (nonlinear_arith)
            requires
                acc < mult,
                b < 256,
                mult >= 1,
        ;
        lemma_copy_field_props(s, i + 1, bits / 2, (count - 1) as nat, mult * 256, (acc + b * mult) as nat);
        assert(mult * 256 * pow256((count - 1) as nat) == mult * pow256(count)) by (nonlinear_arith)
            requires
                pow256(count) == 256 * pow256((count - 1) as nat),
        ;
    } else {
        assert(acc < mult * 256) by (nonlinear_arith)
            requires
                acc < mult,
                mult >= 1,
        ;
        lemma_copy_field_props(s, i, bits / 2, (count - 1) as nat, mult * 256, acc);
        assert(mult * 256 * pow256((count - 1) as nat) == mult * pow256(count)) by (nonlinear_arith)
            requires
                pow256(count) == 256 * pow256((count - 1) as nat),
        ;
    }
}

/// Powers of 256.
pub open spec fn pow256(n: nat) -> nat
    decreases n,
{
    if n == 0 {
        1
    } else {
        256 * pow256((n - 1) as nat)
    }
}

proof fn lemma_pow256_pos(n: nat)
    ensures
        pow256(n) >= 1,
    decreases n,
{
    if n > 0 {
        lemma_pow256_pos((n - 1) as nat);
    }
}

/// The small powers of 256 a copy field can use.
proof fn lemma_pow256_small()
    ensures
        pow256(0) == 1,
        pow256(1) == 0x100,
        pow256(2) == 0x10000,
        pow256(3) == 0x1000000,
        pow256(4) == 0x100000000,
{
    reveal_with_fuel(pow256, 5);
}

/// Read one field of a copy instruction.
fn copy_field_exec(s: &[u8], i: usize, bits: u8, count: usize) -> (r: Result<
    (u64, usize),
    GitError,
>)
    requires
        i <= s@.len(),
        count <= 4,
    ensures
        r is Ok <==> spec_copy_field(s@, i as int, bits as nat, count as nat, 1, 0) is Some,
        r is Ok ==> Some((r->Ok_0.0 as nat, r->Ok_0.1 as int)) == spec_copy_field(
            s@,
            i as int,
            bits as nat,
            count as nat,
            1,
            0,
        ),
        r is Ok ==> r->Ok_0.0 < 0x100000000 && i <= r->Ok_0.1 <= s@.len(),
        r is Err ==> r->Err_0 == GitError::ProtocolError,
{
    let slen = s.len();
    let mut cur: usize = i;
    let mut b: u8 = bits;
    let mut left: usize = count;
    let mut mult: u64 = 1;
    let mut acc: u64 = 0;
    proof {
        lemma_pow256_small();
        assert(pow256(count as nat) <= 0x100000000) by {
            assert(count == 0 || count == 1 || count == 2 || count == 3 || count == 4);
        }
    }
    loop
        invariant
            i <= cur <= slen,
            slen == s@.len(),
            left <= count <= 4,
            mult == pow256((count - left) as nat),
            acc < mult,
            spec_copy_field(s@, i as int, bits as nat, count as nat, 1, 0) == spec_copy_field(
                s@,
                cur as int,
                b as nat,
                left as nat,
                mult as nat,
                acc as nat,
            ),
        decreases left,
    {
        proof {
            lemma_pow256_small();
            assert((count - left) as nat == 0 || (count - left) as nat == 1 || (count - left) as nat
                == 2 || (count - left) as nat == 3 || (count - left) as nat == 4);
        }
        if left == 0 {
            proof {
                lemma_copy_field_props(s@, cur as int, b as nat, 0, mult as nat, acc as nat);
            }
            return Ok((acc, cur));
        }
        if b % 2 == 1 {
            if cur >= slen {
                return Err(GitError::ProtocolError);
            }
            let byte = s[cur];
            proof {
                assert(mult <= 0x1000000);
                assert((byte as u64) * mult + acc < 0x100000000) by (nonlinear_arith)
                    requires
                        byte < 256,
                        acc < mult,
                        mult <= 0x1000000,
                        mult >= 1,
                ;
                assert(pow256(((count - left) + 1) as nat) == 256 * pow256((count - left) as nat));
            }
            acc = acc + (byte as u64) * mult;
            mult = mult * 256;
            b = b / 2;
            left = left - 1;
            cur = cur + 1;
        } else {
            proof {
                assert(mult <= 0x1000000);
                assert(acc < mult * 256) by (nonlinear_arith)
                    requires
                        acc < mult,
                        mult >= 1,
                ;
                assert(pow256(((count - left) + 1) as nat) == 256 * pow256((count - left) as nat));
            }
            mult = mult * 256;
            b = b / 2;
            left = left - 1;
        }
    }
}

/// Apply the delta instructions from `i` on against `base`, growing `acc`
/// up to exactly `target` bytes: a high-bit instruction copies a range of
/// the base, a low one inserts the next `n` literal bytes, and `n == 0` is
/// invalid.  A copy whose assembled size field is 0 copies `0x10000` bytes.
pub open spec fn spec_delta_insns(
    delta: Seq<u8>,
    i: int,
    base: Seq<u8>,
    target: nat,
    acc: Seq<u8>,
) -> Option<Seq<u8>>
    decreases delta.len() - i,
{
    if i < 0 || i > delta.len() {
        None
    } else if i == delta.len() {
        if acc.len() == target {
            Some(acc)
        } else {
            None
        }
    } else {
        let b = delta[i];
        if b >= 128 {
            match spec_copy_field(delta, i + 1, (b % 16) as nat, 4, 1, 0) {
                None => None,
                Some((off, j1)) => match spec_copy_field(delta, j1, (b / 16 % 8) as nat, 3, 1, 0) {
                    None => None,
                    Some((sz0, j2)) => {
                        if !(i < j2 <= delta.len()) {
                            None
                        } else {
                            let sz: nat = if sz0 == 0 {
                                0x10000
                            } else {
                                sz0
                            };
                            if off + sz > base.len() {
                                None
                            } else if acc.len() + sz > target {
                                None
                            } else {
                                spec_delta_insns(
                                    delta,
                                    j2,
                                    base,
                                    target,
                                    acc + base.subrange(off as int, (off + sz) as int),
                                )
                            }
                        }
                    },
                },
            }
        } else if b == 0 {
            None
        } else {
            let n = b as nat;
            if i + 1 + n > delta.len() {
                None
            } else if acc.len() + n > target {
                None
            } else {
                spec_delta_insns(delta, i + 1 + n, base, target, acc + delta.subrange(i + 1, i + 1 + n))
            }
        }
    }
}

/// What a whole delta buffer makes of a base: read the source- and
/// target-size headers, then run the instructions.
pub open spec fn spec_apply_delta(delta: Seq<u8>, base: Seq<u8>) -> Option<Seq<u8>> {
    match spec_varint(delta, 0) {
        None => None,
        Some((_src, d1)) => match spec_varint(delta, d1) {
            None => None,
            Some((target, d2)) => spec_delta_insns(delta, d2, base, target, Seq::empty()),
        },
    }
}

/// Whatever the instructions build, its length is exactly the accumulated
/// length they were asked for.
proof fn lemma_delta_insns_len(delta: Seq<u8>, i: int, base: Seq<u8>, target: nat, acc: Seq<u8>)
    requires
        spec_delta_insns(delta, i, base, target, acc) is Some,
    ensures
        spec_delta_insns(delta, i, base, target, acc)->Some_0.len() == target,
    decreases delta.len() - i,
{
    if i == delta.len() {
    } else {
        let b = delta[i];
        if b >= 128 {
            let (off, j1) = spec_copy_field(delta, i + 1, (b % 16) as nat, 4, 1, 0)->Some_0;
            let (sz0, j2) = spec_copy_field(delta, j1, (b / 16 % 8) as nat, 3, 1, 0)->Some_0;
            let sz: nat = if sz0 == 0 {
                0x10000
            } else {
                sz0
            };
            lemma_delta_insns_len(
                delta,
                j2,
                base,
                target,
                acc + base.subrange(off as int, (off + sz) as int),
            );
        } else {
            let n = b as nat;
            lemma_delta_insns_len(delta, i + 1 + n, base, target, acc + delta.subrange(i + 1, i + 1 + n));
        }
    }
}

/// Delta application gives back exactly as many bytes as the delta's
/// target-size header declares.
pub proof fn lemma_delta_target_len(delta: Seq<u8>, base: Seq<u8>)
    requires
        spec_apply_delta(delta, base) is Some,
    ensures
        spec_varint(delta, spec_varint(delta, 0)->Some_0.1) is Some,
        spec_apply_delta(delta, base)->Some_0.len() == spec_varint(
            delta,
            spec_varint(delta, 0)->Some_0.1,
        )->Some_0.0,
{
    let (_src, d1) = spec_varint(delta, 0)->Some_0;
    let (target, d2) = spec_varint(delta, d1)->Some_0;
    lemma_delta_insns_len(delta, d2, base, target, Seq::empty());
}

/// Apply a delta buffer to a base body.  Succeeds exactly when the headers
/// parse and every instruction stays inside the base and inside the
/// declared target size, which the result's length then equals.
pub fn apply_delta(delta: &[u8], base: &[u8]) -> (r: Result<Vec<u8>, GitError>)
    ensures
        r is Ok <==> spec_apply_delta(delta@, base@) is Some,
        r is Ok ==> Some(r->Ok_0@) == spec_apply_delta(delta@, base@),
        r is Err ==> r->Err_0 == GitError::ProtocolError,
{
    let dlen = delta.len();
    let blen = base.len();
    let (_src, d1) = match varint_ext_exec(delta, 0, 1, 0) {
        Ok(v) => v,
        Err(e) => {
            return Err(e);
        },
    };
    proof {
        lemma_varint_ext_props(delta@, 0, 1, 0);
    }
    let (target, d2) = match varint_ext_exec(delta, d1, 1, 0) {
        Ok(v) => v,
        Err(e) => {
            return Err(e);
        },
    };
    proof {
        lemma_varint_ext_props(delta@, d1 as int, 1, 0);
    }
    let mut out: Vec<u8> = Vec::new();
    let mut i: usize = d2;
    proof {
        assert(out@ =~= Seq::<u8>::empty());
    }
    loop
        invariant
            i <= dlen,
            dlen == delta@.len(),
            blen == base@.len(),
            out@.len() <= target,
            spec_delta_insns(delta@, d2 as int, base@, target as nat, Seq::empty())
                == spec_delta_insns(delta@, i as int, base@, target as nat, out@),
            spec_apply_delta(delta@, base@) == spec_delta_insns(
                delta@,
                d2 as int,
                base@,
                target as nat,
                Seq::empty(),
            ),
        decreases dlen - i,
    {
        if i == dlen {
            if out.len() == target {
                return Ok(out);
            }
            return Err(GitError::ProtocolError);
        }
        let b = delta[i];
        if b >= 128 {
            let (off64, j1) = match copy_field_exec(delta, i + 1, b % 16, 4) {
                Ok(v) => v,
                Err(e) => {
                    return Err(e);
                },
            };
            let (sz064, j2) = match copy_field_exec(delta, j1, b / 16 % 8, 3) {
                Ok(v) => v,
                Err(e) => {
                    return Err(e);
                },
            };
            let sz64: u64 = if sz064 == 0 {
                0x10000
            } else {
                sz064
            };
            if off64 + sz64 > blen as u64 {
                return Err(GitError::ProtocolError);
            }
            if sz64 > (target - out.len()) as u64 {
                return Err(GitError::ProtocolError);
            }
            let off = off64 as usize;
            let sz = sz64 as usize;
            let piece = sub_bytes(base, off, off + sz);
            append_bytes(&mut out, piece.as_slice());
            i = j2;
        } else {
            if b == 0 {
                return Err(GitError::ProtocolError);
            }
            let n = b as usize;
            if n > dlen - i - 1 {
                return Err(GitError::ProtocolError);
            }
            if n as u64 > (target - out.len()) as u64 {
                return Err(GitError::ProtocolError);
            }
            let piece = sub_bytes(delta, i + 1, i + 1 + n);
            append_bytes(&mut out, piece.as_slice());
            i = i + 1 + n;
        }
    }
}


/// One decoded pack entry: the object and its content address.
#[derive(Debug, Clone)]
pub struct PackEntry {
    pub hash: Vec<u8>,
    pub object: Object,
}

/// The mathematical shadow of a pack entry.
pub struct EntryV {
    pub hash: Seq<u8>,
    pub kind: ObjectKind,
    pub body: Seq<u8>,
}

impl View for PackEntry {
    type V = EntryV;

    open spec fn view(&self) -> EntryV {
        EntryV { hash: self.hash@, kind: self.object.kind, body: self.object.body@ }
    }
}

/// The views of a run of entries.
pub open spec fn entries_view(s: Seq<PackEntry>) -> Seq<EntryV> {
    s.map_values(|e: PackEntry| e@)
}

/// The first entry at or after `from` whose hash matches.
pub open spec fn spec_find_entry(entries: Seq<EntryV>, hash: Seq<u8>, from: int) -> Option<int>
    decreases entries.len() - from,
{
    if from < 0 || from >= entries.len() {
        None
    } else if entries[from].hash == hash {
        Some(from)
    } else {
        spec_find_entry(entries, hash, from + 1)
    }
}

/// A found entry index is in bounds and matches.
pub proof fn lemma_find_entry_props(entries: Seq<EntryV>, hash: Seq<u8>, from: int)
    requires
        spec_find_entry(entries, hash, from) is Some,
    ensures
        from <= spec_find_entry(entries, hash, from)->Some_0 < entries.len(),
        entries[spec_find_entry(entries, hash, from)->Some_0].hash == hash,
    decreases entries.len() - from,
{
    if !(from < 0 || from >= entries.len()) && entries[from].hash != hash {
        lemma_find_entry_props(entries, hash, from + 1);
    }
}

/// Scan for the first entry with the given hash.
fn find_index(objects: &Vec<PackEntry>, hash: &[u8]) -> (r: Option<usize>)
    ensures
        match r {
            Some(i) => spec_find_entry(entries_view(objects@), hash@, 0) == Some(i as int),
            None => spec_find_entry(entries_view(objects@), hash@, 0) is None,
        },
{
    let mut i: usize = 0;
    while i < objects.len()
        invariant
            i <= objects@.len(),
            spec_find_entry(entries_view(objects@), hash@, 0) == spec_find_entry(
                entries_view(objects@),
                hash@,
                i as int,
            ),
        decreases objects@.len() - i,
    {
        if bytes_eq(objects[i].hash.as_slice(), hash) {
            return Some(i);
        }
        i = i + 1;
    }
    None
}

/// Decode the object stream of a pack body: headers, zlib bodies, and
/// ref-deltas resolved against entries already decoded, until the body is
/// exhausted.  Each entry is keyed by the SHA-1 of its framed form.
pub open spec fn spec_parse_entries(raw: Seq<u8>, i: int, acc: Seq<EntryV>) -> Option<Seq<EntryV>>
    decreases raw.len() - i,
{
    if i < 0 || i > raw.len() {
        None
    } else if i == raw.len() {
        Some(acc)
    } else {
        match spec_obj_header(raw, i) {
            None => None,
            Some((t, size, j)) => {
                if !(i < j <= raw.len()) {
                    None
                } else if t is OfsDelta {
                    None
                } else if t is RefDelta {
                    if j + 20 > raw.len() {
                        None
                    } else {
                        let base_hash = raw.subrange(j, j + 20);
                        match inflate_prefix(raw.skip(j + 20)) {
                            None => None,
                            Some((delta, used)) => {
                                if !(0 <= used <= raw.len() - j - 20) {
                                    None
                                } else if delta.len() != size {
                                    None
                                } else {
                                    match spec_find_entry(acc, base_hash, 0) {
                                        None => None,
                                        Some(b) => match spec_apply_delta(delta, acc[b].body) {
                                            None => None,
                                            Some(body) => spec_parse_entries(
                                                raw,
                                                j + 20 + used,
                                                acc.push(
                                                    EntryV {
                                                        hash: sha1_of(
                                                            spec_frame(acc[b].kind, body),
                                                        ),
                                                        kind: acc[b].kind,
                                                        body,
                                                    },
                                                ),
                                            ),
                                        },
                                    }
                                }
                            },
                        }
                    }
                } else {
                    let kind = spec_type_kind(t)->Some_0;
                    match inflate_prefix(raw.skip(j)) {
                        None => None,
                        Some((data, used)) => {
                            if !(0 <= used <= raw.len() - j) {
                                None
                            } else if data.len() != size {
                                None
                            } else {
                                spec_parse_entries(
                                    raw,
                                    j + used,
                                    acc.push(
                                        EntryV {
                                            hash: sha1_of(spec_frame(kind, data)),
                                            kind,
                                            body: data,
                                        },
                                    ),
                                )
                            }
                        },
                    }
                }
            },
        }
    }
}

/// Which error a failed stream decode reports: ofs-delta and unknown type
/// codes are `Unsupported`, an absent delta base is `MissingBase`, and any
/// other break — truncation, a bad zlib stream, a size mismatch, a bad
/// delta — is `ProtocolError`.  Meaningful only where the decode fails.
pub open spec fn spec_entries_err(raw: Seq<u8>, i: int, acc: Seq<EntryV>) -> GitError
    decreases raw.len() - i,
{
    if i < 0 || i > raw.len() {
        GitError::ProtocolError
    } else if i == raw.len() {
        GitError::ProtocolError
    } else {
        match spec_obj_header(raw, i) {
            None => spec_header_err(raw, i),
            Some((t, size, j)) => {
                if !(i < j <= raw.len()) {
                    GitError::ProtocolError
                } else if t is OfsDelta {
                    GitError::Unsupported
                } else if t is RefDelta {
                    if j + 20 > raw.len() {
                        GitError::ProtocolError
                    } else {
                        let base_hash = raw.subrange(j, j + 20);
                        match inflate_prefix(raw.skip(j + 20)) {
                            None => GitError::ProtocolError,
                            Some((delta, used)) => {
                                if !(0 <= used <= raw.len() - j - 20) {
                                    GitError::ProtocolError
                                } else if delta.len() != size {
                                    GitError::ProtocolError
                                } else {
                                    match spec_find_entry(acc, base_hash, 0) {
                                        None => GitError::MissingBase,
                                        Some(b) => match spec_apply_delta(delta, acc[b].body) {
                                            None => GitError::ProtocolError,
                                            Some(body) => spec_entries_err(
                                                raw,
                                                j + 20 + used,
                                                acc.push(
                                                    EntryV {
                                                        hash: sha1_of(
                                                            spec_frame(acc[b].kind, body),
                                                        ),
                                                        kind: acc[b].kind,
                                                        body,
                                                    },
                                                ),
                                            ),
                                        },
                                    }
                                }
                            },
                        }
                    }
                } else {
                    let kind = spec_type_kind(t)->Some_0;
                    match inflate_prefix(raw.skip(j)) {
                        None => GitError::ProtocolError,
                        Some((data, used)) => {
                            if !(0 <= used <= raw.len() - j) {
                                GitError::ProtocolError
                            } else if data.len() != size {
                                GitError::ProtocolError
                            } else {
                                spec_entries_err(
                                    raw,
                                    j + used,
                                    acc.push(
                                        EntryV {
                                            hash: sha1_of(spec_frame(kind, data)),
                                            kind,
                                            body: data,
                                        },
                                    ),
                                )
                            }
                        },
                    }
                }
            },
        }
    }
}

/// The object kind a non-delta entry type stores as.
fn type_kind(t: ObjectType) -> (k: ObjectKind)
    requires
        spec_type_kind(t) is Some,
    ensures
        Some(k) == spec_type_kind(t),
{
    match t {
        ObjectType::Commit => ObjectKind::Commit,
        ObjectType::Tree => ObjectKind::Tree,
        ObjectType::Blob => ObjectKind::Blob,
        ObjectType::Tag => ObjectKind::Commit,
        ObjectType::OfsDelta => ObjectKind::Blob,
        ObjectType::RefDelta => ObjectKind::Blob,
    }
}

/// Decode a whole pack body into entries, in stream order.
pub fn parse_entries(raw: &[u8]) -> (r: Result<Vec<PackEntry>, GitError>)
    ensures
        r is Ok <==> spec_parse_entries(raw@, 0, Seq::empty()) is Some,
        r is Ok ==> Some(entries_view(r->Ok_0@)) == spec_parse_entries(raw@, 0, Seq::empty()),
        r is Ok ==> forall|k: int|
            0 <= k < r->Ok_0@.len() ==> (#[trigger] r->Ok_0@[k])@.hash.len() == 20,
        r is Err ==> r->Err_0 == spec_entries_err(raw@, 0, Seq::empty()),
{
    let rlen = raw.len();
    let mut out: Vec<PackEntry> = Vec::new();
    let mut i: usize = 0;
    proof {
        assert(entries_view(out@) =~= Seq::<EntryV>::empty());
    }
    loop
        invariant
            i <= rlen,
            rlen == raw@.len(),
            spec_parse_entries(raw@, 0, Seq::empty()) == spec_parse_entries(
                raw@,
                i as int,
                entries_view(out@),
            ),
            spec_entries_err(raw@, 0, Seq::empty()) == spec_entries_err(
                raw@,
                i as int,
                entries_view(out@),
            ),
            forall|k: int| 0 <= k < out@.len() ==> (#[trigger] out@[k])@.hash.len() == 20,
        decreases rlen - i,
    {
        if i == rlen {
            return Ok(out);
        }
        let (t, size, j) = match obj_header_exec(raw, i) {
            Ok(v) => v,
            Err(e) => {
                return Err(e);
            },
        };
        proof {
            lemma_obj_header_props(raw@, i as int);
        }
        match t {
            ObjectType::OfsDelta => {
                return Err(GitError::Unsupported);
            },
            ObjectType::RefDelta => {
                if rlen - j < 20 {
                    return Err(GitError::ProtocolError);
                }
                let base_hash = sub_bytes(raw, j, j + 20);
                let (delta, used) = match zlib_inflate_prefix(raw, j + 20) {
                    Ok(v) => v,
                    Err(e) => {
                        return Err(e);
                    },
                };
                if delta.len() != size {
                    return Err(GitError::ProtocolError);
                }
                let bidx = match find_index(&out, base_hash.as_slice()) {
                    Some(b) => b,
                    None => {
                        return Err(GitError::MissingBase);
                    },
                };
                proof {
                    lemma_find_entry_props(entries_view(out@), base_hash@, 0);
                }
                let body = match apply_delta(delta.as_slice(), out[bidx].object.body.as_slice()) {
                    Ok(v) => v,
                    Err(e) => {
                        return Err(e);
                    },
                };
                let kind = out[bidx].object.kind;
                let obj = Object { kind, body };
                let hash = obj.hash();
                let ghost prev = entries_view(out@);
                let ghost ev = EntryV { hash: hash@, kind: obj.kind, body: obj.body@ };
                out.push(PackEntry { hash, object: obj });
                proof {
                    assert(entries_view(out@) =~= prev.push(ev));
                }
                i = j + 20 + used;
            },
            _ => {
                let kind = type_kind(t);
                let (data, used) = match zlib_inflate_prefix(raw, j) {
                    Ok(v) => v,
                    Err(e) => {
                        return Err(e);
                    },
                };
                if data.len() != size {
                    return Err(GitError::ProtocolError);
                }
                let obj = Object { kind, body: data };
                let hash = obj.hash();
                let ghost prev = entries_view(out@);
                let ghost ev = EntryV { hash: hash@, kind: obj.kind, body: obj.body@ };
                out.push(PackEntry { hash, object: obj });
                proof {
                    assert(entries_view(out@) =~= prev.push(ev));
                }
                i = j + used;
            },
        }
    }
}

/// The unpacked objects of one pack, in stream order.
#[derive(Debug)]
pub struct Packet {
    pub objects: Vec<PackEntry>,
}

/// Decode a whole upload-pack response: skip the sideband line up to the
/// first newline, check the `PACK` magic, pass over version and count, and
/// decode entries up to the 20-byte trailer, which is consumed unverified.
pub open spec fn spec_parse_pack(raw: Seq<u8>) -> Option<Seq<EntryV>> {
    match find_byte(raw, 0, 10) {
        None => None,
        Some(nl) => {
            let start = nl + 1;
            if start + 32 > raw.len() {
                None
            } else if raw.subrange(start, start + 4) != seq![80u8, 65u8, 67u8, 75u8] {
                None
            } else {
                spec_parse_entries(raw.subrange(start + 12, raw.len() - 20), 0, Seq::empty())
            }
        },
    }
}

/// Which error a failed pack decode reports: a missing sideband newline,
/// a short buffer or a bad magic is `ProtocolError`; past the header, the
/// stream decoder's own classification.
pub open spec fn spec_pack_err(raw: Seq<u8>) -> GitError {
    match find_byte(raw, 0, 10) {
        None => GitError::ProtocolError,
        Some(nl) => {
            let start = nl + 1;
            if start + 32 > raw.len() {
                GitError::ProtocolError
            } else if raw.subrange(start, start + 4) != seq![80u8, 65u8, 67u8, 75u8] {
                GitError::ProtocolError
            } else {
                spec_entries_err(raw.subrange(start + 12, raw.len() - 20), 0, Seq::empty())
            }
        },
    }
}

impl Packet {
    /// Decode an upload-pack response body into its objects.
    pub fn try_from(raw: &[u8]) -> (r: Result<Packet, GitError>)
        ensures
            r is Ok <==> spec_parse_pack(raw@) is Some,
            r is Ok ==> Some(entries_view(r->Ok_0.objects@)) == spec_parse_pack(raw@),
            r is Ok ==> forall|k: int|
                0 <= k < r->Ok_0.objects@.len() ==> (#[trigger] r->Ok_0.objects@[k])@.hash.len()
                    == 20,
            r is Ok ==> forall|k: int|
                0 <= k < r->Ok_0.objects@.len() ==> {
                    let e = (#[trigger] r->Ok_0.objects@[k])@;
                    e.hash == sha1_of(spec_frame(e.kind, e.body))
                },
            r is Err ==> r->Err_0 == spec_pack_err(raw@),
    {
        let rlen = raw.len();
        let nl = match find_byte_exec(raw, 0, 10) {
            Some(i) => i,
            None => {
                return Err(GitError::ProtocolError);
            },
        };
        proof {
            lemma_find_byte_props(raw@, 0, 10);
        }
        let start = nl + 1;
        if rlen < 32 || start > rlen - 32 {
            return Err(GitError::ProtocolError);
        }
        let magic = sub_bytes(raw, start, start + 4);
        let mut pack_tag: Vec<u8> = Vec::new();
        pack_tag.push(80);
        pack_tag.push(65);
        pack_tag.push(67);
        pack_tag.push(75);
        proof {
            assert(pack_tag@ =~= seq![80u8, 65u8, 67u8, 75u8]);
        }
        if !bytes_eq(magic.as_slice(), pack_tag.as_slice()) {
            return Err(GitError::ProtocolError);
        }
        let body = sub_bytes(raw, start + 12, rlen - 20);
        match parse_entries(body.as_slice()) {
            Ok(objects) => {
                proof {
                    lemma_pack_hashes(raw@);
                    let es = spec_parse_pack(raw@)->Some_0;
                    assert(entries_view(objects@) == es);
                    assert forall|k: int| 0 <= k < objects@.len() implies {
                        let e = (#[trigger] objects@[k])@;
                        e.hash == sha1_of(spec_frame(e.kind, e.body))
                    } by {
                        assert(entries_view(objects@)[k] == objects@[k]@);
                        assert(es[k].hash == sha1_of(spec_frame(es[k].kind, es[k].body)));
                    }
                }
                Ok(Packet { objects })
            },
            Err(e) => Err(e),
        }
    }

    /// Look an object up by its 20-byte hash: the first entry of the stream
    /// that carries it.
    pub fn find(&self, hash: &[u8]) -> (r: Option<&Object>)
        ensures
            match spec_find_entry(entries_view(self.objects@), hash@, 0) {
                Some(idx) => {
                    &&& r is Some
                    &&& r->0.kind == self.objects@[idx].object.kind
                    &&& r->0.body@ == self.objects@[idx].object.body@
                },
                None => r is None,
            },
    {
        match find_index(&self.objects, hash) {
            Some(i) => {
                proof {
                    lemma_find_entry_props(entries_view(self.objects@), hash@, 0);
                }
                Some(&self.objects[i].object)
            },
            None => None,
        }
    }
}

/// Every entry the stream decoder yields is keyed by the SHA-1 of its own
/// framed form.
proof fn lemma_parse_entries_hashes(raw: Seq<u8>, i: int, acc: Seq<EntryV>)
    requires
        spec_parse_entries(raw, i, acc) is Some,
        forall|k: int|
            0 <= k < acc.len() ==> (#[trigger] acc[k]).hash == sha1_of(
                spec_frame(acc[k].kind, acc[k].body),
            ),
    ensures
        forall|k: int|
            0 <= k < spec_parse_entries(raw, i, acc)->Some_0.len() ==> {
                let e = #[trigger] spec_parse_entries(raw, i, acc)->Some_0[k];
                e.hash == sha1_of(spec_frame(e.kind, e.body))
            },
    decreases raw.len() - i,
{
    if i == raw.len() {
    } else {
        let (t, size, j) = spec_obj_header(raw, i)->Some_0;
        if t is RefDelta {
            let base_hash = raw.subrange(j, j + 20);
            let (delta, used) = inflate_prefix(raw.skip(j + 20))->Some_0;
            let b = spec_find_entry(acc, base_hash, 0)->Some_0;
            lemma_find_entry_props(acc, base_hash, 0);
            let body = spec_apply_delta(delta, acc[b].body)->Some_0;
            let e = EntryV { hash: sha1_of(spec_frame(acc[b].kind, body)), kind: acc[b].kind, body };
            assert(forall|k: int|
                0 <= k < acc.push(e).len() ==> (#[trigger] acc.push(e)[k]).hash == sha1_of(
                    spec_frame(acc.push(e)[k].kind, acc.push(e)[k].body),
                ));
            lemma_parse_entries_hashes(raw, j + 20 + used, acc.push(e));
        } else {
            let kind = spec_type_kind(t)->Some_0;
            let (data, used) = inflate_prefix(raw.skip(j))->Some_0;
            let e = EntryV { hash: sha1_of(spec_frame(kind, data)), kind, body: data };
            assert(forall|k: int|
                0 <= k < acc.push(e).len() ==> (#[trigger] acc.push(e)[k]).hash == sha1_of(
                    spec_frame(acc.push(e)[k].kind, acc.push(e)[k].body),
                ));
            lemma_parse_entries_hashes(raw, j + used, acc.push(e));
        }
    }
}

/// Every object a pack decodes to is keyed by the SHA-1 of its canonical
/// framed form: the hash the wider ecosystem computes for the same object.
pub proof fn lemma_pack_hashes(raw: Seq<u8>)
    requires
        spec_parse_pack(raw) is Some,
    ensures
        forall|k: int|
            0 <= k < spec_parse_pack(raw)->Some_0.len() ==> {
                let e = #[trigger] spec_parse_pack(raw)->Some_0[k];
                e.hash == sha1_of(spec_frame(e.kind, e.body))
            },
{
    let nl = find_byte(raw, 0, 10)->Some_0;
    let start = nl + 1;
    lemma_parse_entries_hashes(raw.subrange(start + 12, raw.len() - 20), 0, Seq::empty());
}

} // verus!
