//! Small byte-level codecs shared by the object, tree and pkt-line formats:
//! decimal and octal ASCII rendering of integers, lowercase hex for hashes,
//! byte search and byte-wise equality.

use crate::err::GitError;
use vstd::prelude::*;

verus! {

/// Decimal ASCII digits of `n`, most significant first, no leading zeros
/// (the single digit `0` for zero).
pub open spec fn dec_digits(n: nat) -> Seq<u8>
    decreases n,
{
    if n < 10 {
        seq![(48 + n) as u8]
    } else {
        dec_digits(n / 10) + seq![(48 + n % 10) as u8]
    }
}

/// Octal ASCII digits of `n`, most significant first, no leading zeros.
pub open spec fn oct_digits(n: nat) -> Seq<u8>
    decreases n,
{
    if n < 8 {
        seq![(48 + n) as u8]
    } else {
        oct_digits(n / 8) + seq![(48 + n % 8) as u8]
    }
}

pub open spec fn is_dec_digit(b: u8) -> bool {
    48 <= b <= 57
}

/// Every byte of a decimal rendering is an ASCII digit; in particular it is
/// neither a space nor a NUL, which the object framing relies on.
pub proof fn lemma_dec_digits_are_digits(n: nat)
    ensures
        dec_digits(n).len() >= 1,
        forall|i: int| 0 <= i < dec_digits(n).len() ==> is_dec_digit(#[trigger] dec_digits(n)[i]),
    decreases n,
{
    if n >= 10 {
        lemma_dec_digits_are_digits(n / 10);
    }
}

/// Every byte of an octal rendering is an ASCII digit.
pub proof fn lemma_oct_digits_are_digits(n: nat)
    ensures
        oct_digits(n).len() >= 1,
        forall|i: int| 0 <= i < oct_digits(n).len() ==> is_dec_digit(#[trigger] oct_digits(n)[i]),
    decreases n,
{
    if n >= 8 {
        lemma_oct_digits_are_digits(n / 8);
    }
}

/// Decimal ASCII rendering of `n`.
pub fn dec_bytes(n: usize) -> (r: Vec<u8>)
    ensures
        r@ == dec_digits(n as nat),
    decreases n,
{
    if n < 10 {
        let mut v: Vec<u8> = Vec::new();
        v.push(48 + n as u8);
        proof {
            assert(v@ =~= dec_digits(n as nat));
        }
        v
    } else {
        let mut v = dec_bytes(n / 10);
        v.push(48 + (n % 10) as u8);
        proof {
            assert(v@ =~= dec_digits(n as nat));
        }
        v
    }
}

/// Decimal ASCII rendering of a 64-bit value.
pub fn dec_bytes_u64(n: u64) -> (r: Vec<u8>)
    ensures
        r@ == dec_digits(n as nat),
    decreases n,
{
    if n < 10 {
        let mut v: Vec<u8> = Vec::new();
        v.push(48 + n as u8);
        proof {
            assert(v@ =~= dec_digits(n as nat));
        }
        v
    } else {
        let mut v = dec_bytes_u64(n / 10);
        v.push(48 + (n % 10) as u8);
        proof {
            assert(v@ =~= dec_digits(n as nat));
        }
        v
    }
}

/// Octal ASCII rendering of `n`.
pub fn oct_bytes(n: u32) -> (r: Vec<u8>)
    ensures
        r@ == oct_digits(n as nat),
    decreases n,
{
    if n < 8 {
        let mut v: Vec<u8> = Vec::new();
        v.push(48 + n as u8);
        proof {
            assert(v@ =~= oct_digits(n as nat));
        }
        v
    } else {
        let mut v = oct_bytes(n / 8);
        v.push(48 + (n % 8) as u8);
        proof {
            assert(v@ =~= oct_digits(n as nat));
        }
        v
    }
}

/// Lowercase hex digit for a value below 16.
pub open spec fn hex_digit(n: nat) -> u8 {
    if n < 10 {
        (48 + n) as u8
    } else {
        (87 + n) as u8
    }
}

/// Lowercase hex rendering of a byte string: two digits for each byte.
pub open spec fn hex_of(bytes: Seq<u8>) -> Seq<u8>
    decreases bytes.len(),
{
    if bytes.len() == 0 {
        Seq::empty()
    } else {
        hex_of(bytes.drop_last()) + seq![
            hex_digit((bytes.last() / 16) as nat),
            hex_digit((bytes.last() % 16) as nat),
        ]
    }
}

pub proof fn lemma_hex_of_len(bytes: Seq<u8>)
    ensures
        hex_of(bytes).len() == 2 * bytes.len(),
    decreases bytes.len(),
{
    if bytes.len() > 0 {
        lemma_hex_of_len(bytes.drop_last());
    }
}

/// Lowercase hex rendering, two digits per input byte.
pub fn hex_encode(bytes: &[u8]) -> (r: Vec<u8>)
    ensures
        r@ == hex_of(bytes@),
        r@.len() == 2 * bytes@.len(),
{
    let mut r: Vec<u8> = Vec::new();
    let mut i: usize = 0;
    while i < bytes.len()
        invariant
            i <= bytes@.len(),
            r@ == hex_of(bytes@.subrange(0, i as int)),
        decreases bytes@.len() - i,
    {
        let b = bytes[i];
        let hi = b / 16;
        let lo = b % 16;
        r.push(if hi < 10 { 48 + hi } else { 87 + hi });
        r.push(if lo < 10 { 48 + lo } else { 87 + lo });
        proof {
            let pre = bytes@.subrange(0, i as int);
            let cur = bytes@.subrange(0, i + 1);
            assert(cur.drop_last() =~= pre);
            assert(cur.last() == b);
            assert(r@ =~= hex_of(cur));
        }
        i = i + 1;
    }
    proof {
        assert(bytes@.subrange(0, bytes@.len() as int) =~= bytes@);
        lemma_hex_of_len(bytes@);
    }
    r
}

pub open spec fn is_hex_digit(b: u8) -> bool {
    (48 <= b <= 57) || (97 <= b <= 102) || (65 <= b <= 70)
}

/// Value of one hex digit, either case.
pub open spec fn hex_digit_val(b: u8) -> nat {
    if 48 <= b <= 57 {
        (b - 48) as nat
    } else if 97 <= b <= 102 {
        (b - 87) as nat
    } else {
        (b - 55) as nat
    }
}

/// The bytes a valid hex string of even length stands for, pairwise from the
/// front.
pub open spec fn bytes_of_hex(s: Seq<u8>) -> Seq<u8>
    decreases s.len(),
{
    if s.len() < 2 {
        Seq::empty()
    } else {
        seq![(hex_digit_val(s[0]) * 16 + hex_digit_val(s[1])) as u8] + bytes_of_hex(s.skip(2))
    }
}

pub open spec fn all_hex_digits(s: Seq<u8>) -> bool {
    forall|i: int| 0 <= i < s.len() ==> is_hex_digit(#[trigger] s[i])
}

/// Value of one hex digit byte; fails on anything else.
fn hex_val_exec(b: u8) -> (r: Result<u8, GitError>)
    ensures
        r is Ok <==> is_hex_digit(b),
        r is Ok ==> r->Ok_0 == hex_digit_val(b) && hex_digit_val(b) < 16,
        r is Err ==> r->Err_0 == GitError::BadHex,
{
    if 48 <= b && b <= 57 {
        Ok(b - 48)
    } else if 97 <= b && b <= 102 {
        Ok(b - 87)
    } else if 65 <= b && b <= 70 {
        Ok(b - 55)
    } else {
        Err(GitError::BadHex)
    }
}

/// Decode a hex string into bytes.  Fails with `BadHex` exactly when the
/// length is odd or some byte is not a hex digit.
pub fn hex_decode(s: &[u8]) -> (r: Result<Vec<u8>, GitError>)
    ensures
        r is Ok <==> (s@.len() % 2 == 0 && all_hex_digits(s@)),
        r is Ok ==> r->Ok_0@ == bytes_of_hex(s@),
        r is Err ==> r->Err_0 == GitError::BadHex,
{
    if s.len() % 2 != 0 {
        return Err(GitError::BadHex);
    }
    let mut out: Vec<u8> = Vec::new();
    let mut i: usize = 0;
    proof {
        assert(s@.skip(0) =~= s@);
        assert(out@ + bytes_of_hex(s@) =~= bytes_of_hex(s@));
    }
    while i < s.len()
        invariant
            s@.len() % 2 == 0,
            i <= s@.len(),
            i % 2 == 0,
            forall|k: int| 0 <= k < i ==> is_hex_digit(#[trigger] s@[k]),
            bytes_of_hex(s@) =~= out@ + bytes_of_hex(s@.skip(i as int)),
        decreases s@.len() - i,
    {
        let hi = match hex_val_exec(s[i]) {
            Ok(v) => v,
            Err(e) => {
                return Err(e);
            },
        };
        let lo = match hex_val_exec(s[i + 1]) {
            Ok(v) => v,
            Err(e) => {
                return Err(e);
            },
        };
        let ghost pre = s@.skip(i as int);
        out.push(hi * 16 + lo);
        proof {
            assert(pre[0] == s@[i as int]);
            assert(pre[1] == s@[i + 1]);
            assert(pre.skip(2) =~= s@.skip(i + 2));
            assert(bytes_of_hex(s@) =~= out@ + bytes_of_hex(s@.skip(i + 2)));
        }
        i = i + 2;
    }
    proof {
        assert(s@.skip(s@.len() as int) =~= Seq::<u8>::empty());
        assert(out@ =~= bytes_of_hex(s@));
    }
    Ok(out)
}

/// Hex round-trip: decoding what `hex_of` rendered yields the original bytes,
/// and the rendering is always a valid even-length hex string.
pub proof fn lemma_hex_roundtrip(bytes: Seq<u8>)
    ensures
        hex_of(bytes).len() == 2 * bytes.len(),
        all_hex_digits(hex_of(bytes)),
        bytes_of_hex(hex_of(bytes)) == bytes,
{
    lemma_hex_front(bytes);
}

/// Front-form of the hex rendering: the first byte's digits come first.
proof fn lemma_hex_front(bytes: Seq<u8>)
    ensures
        hex_of(bytes).len() == 2 * bytes.len(),
        all_hex_digits(hex_of(bytes)),
        bytes_of_hex(hex_of(bytes)) == bytes,
        bytes.len() > 0 ==> hex_of(bytes) =~= seq![
            hex_digit((bytes[0] / 16) as nat),
            hex_digit((bytes[0] % 16) as nat),
        ] + hex_of(bytes.skip(1)),
    decreases bytes.len(),
{
    lemma_hex_of_len(bytes);
    if bytes.len() == 0 {
        assert(bytes_of_hex(hex_of(bytes)) =~= bytes);
    } else {
        let tail = bytes.skip(1);
        lemma_hex_front(tail);
        lemma_hex_of_len(tail);
        if bytes.len() == 1 {
            assert(bytes.drop_last() =~= Seq::<u8>::empty());
            assert(hex_of(bytes) =~= seq![
                hex_digit((bytes[0] / 16) as nat),
                hex_digit((bytes[0] % 16) as nat),
            ] + hex_of(tail));
        } else {
            // hex_of(bytes) == hex_of(drop_last) + last pair; drop_last of
            // bytes is seq![bytes[0]] + tail.drop_last()
            let pre = bytes.drop_last();
            lemma_hex_front(pre);
            assert(pre.skip(1) =~= tail.drop_last());
            assert(tail.len() > 0);
            assert(hex_of(bytes) =~= seq![
                hex_digit((bytes[0] / 16) as nat),
                hex_digit((bytes[0] % 16) as nat),
            ] + hex_of(tail));
        }
        let h = hex_of(bytes);
        let hd = seq![hex_digit((bytes[0] / 16) as nat), hex_digit((bytes[0] % 16) as nat)];
        assert(h[0] == hex_digit((bytes[0] / 16) as nat));
        assert(h[1] == hex_digit((bytes[0] % 16) as nat));
        assert(h.skip(2) =~= hex_of(tail));
        assert(hex_digit_val(h[0]) == (bytes[0] / 16) as nat && hex_digit_val(h[1]) == (
        bytes[0] % 16) as nat) by {
            lemma_hex_digit_val(bytes[0] / 16);
            lemma_hex_digit_val(bytes[0] % 16);
        }
        assert(bytes_of_hex(h) =~= bytes);
    }
}

/// A hex digit of a value below 16 decodes back to that value.
pub proof fn lemma_hex_digit_val(n: u8)
    requires
        n < 16,
    ensures
        is_hex_digit(hex_digit(n as nat)),
        hex_digit_val(hex_digit(n as nat)) == n as nat,
{
}

/// First index at or after `from` whose byte equals `target`.
pub open spec fn find_byte(s: Seq<u8>, from: int, target: u8) -> Option<int>
    decreases s.len() - from,
{
    if from < 0 || from >= s.len() {
        None
    } else if s[from] == target {
        Some(from)
    } else {
        find_byte(s, from + 1, target)
    }
}

/// Scan for a byte, starting at `from`.
pub fn find_byte_exec(s: &[u8], from: usize, target: u8) -> (r: Option<usize>)
    requires
        from <= s@.len(),
    ensures
        match r {
            Some(i) => find_byte(s@, from as int, target) == Some(i as int),
            None => find_byte(s@, from as int, target) is None,
        },
{
    let mut i: usize = from;
    while i < s.len()
        invariant
            from <= i <= s@.len(),
            find_byte(s@, from as int, target) == find_byte(s@, i as int, target),
        decreases s@.len() - i,
    {
        if s[i] == target {
            return Some(i);
        }
        i = i + 1;
    }
    None
}

/// When `s[k]` is the first occurrence of `target` at or after `from`, the
/// search finds exactly `k`.
pub proof fn lemma_find_byte_at(s: Seq<u8>, from: int, k: int, target: u8)
    requires
        0 <= from <= k < s.len(),
        s[k] == target,
        forall|i: int| from <= i < k ==> s[i] != target,
    ensures
        find_byte(s, from, target) == Some(k),
    decreases k - from,
{
    if from < k {
        lemma_find_byte_at(s, from + 1, k, target);
    }
}

/// A found index is in bounds, holds the target, and nothing before it does.
pub proof fn lemma_find_byte_props(s: Seq<u8>, from: int, target: u8)
    requires
        find_byte(s, from, target) is Some,
    ensures
        from <= find_byte(s, from, target)->Some_0 < s.len(),
        s[find_byte(s, from, target)->Some_0] == target,
        forall|i: int| from <= i < find_byte(s, from, target)->Some_0 ==> s[i] != target,
    decreases s.len() - from,
{
    if !(from < 0 || from >= s.len()) && s[from] != target {
        lemma_find_byte_props(s, from + 1, target);
    }
}

/// Append a copy of `src` to `dst`.
pub fn append_bytes(dst: &mut Vec<u8>, src: &[u8])
    ensures
        final(dst)@ == old(dst)@ + src@,
{
    let mut i: usize = 0;
    while i < src.len()
        invariant
            i <= src@.len(),
            dst@ == old(dst)@ + src@.subrange(0, i as int),
        decreases src@.len() - i,
    {
        dst.push(src[i]);
        proof {
            assert(old(dst)@ + src@.subrange(0, i as int) + seq![src@[i as int]] =~= old(dst)@
                + src@.subrange(0, i + 1));
        }
        i = i + 1;
    }
    proof {
        assert(src@.subrange(0, src@.len() as int) =~= src@);
    }
}

/// A copy of a byte vector.
pub fn clone_bytes(src: &Vec<u8>) -> (r: Vec<u8>)
    ensures
        r@ == src@,
{
    let mut out: Vec<u8> = Vec::new();
    append_bytes(&mut out, src.as_slice());
    out
}

/// A copy of the byte range `[a, b)` of `s`.
pub fn sub_bytes(s: &[u8], a: usize, b: usize) -> (r: Vec<u8>)
    requires
        a <= b <= s@.len(),
    ensures
        r@ == s@.subrange(a as int, b as int),
{
    let mut out: Vec<u8> = Vec::new();
    let mut i: usize = a;
    while i < b
        invariant
            a <= i <= b <= s@.len(),
            out@ == s@.subrange(a as int, i as int),
        decreases b - i,
    {
        out.push(s[i]);
        proof {
            assert(s@.subrange(a as int, i as int) + seq![s@[i as int]] =~= s@.subrange(
                a as int,
                i + 1,
            ));
        }
        i = i + 1;
    }
    out
}

/// Byte-wise equality of two slices.
pub fn bytes_eq(a: &[u8], b: &[u8]) -> (r: bool)
    ensures
        r <==> a@ == b@,
{
    if a.len() != b.len() {
        proof {
            assert(a@.len() != b@.len());
        }
        return false;
    }
    let mut i: usize = 0;
    while i < a.len()
        invariant
            i <= a@.len(),
            a@.len() == b@.len(),
            forall|k: int| 0 <= k < i ==> a@[k] == b@[k],
        decreases a@.len() - i,
    {
        if a[i] != b[i] {
            return false;
        }
        i = i + 1;
    }
    proof {
        assert(a@ =~= b@);
    }
    true
}

} // verus!
