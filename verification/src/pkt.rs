//! Pkt-line framing: each unit is a 4-char hex length (counting itself)
//! followed by the payload, with `0000` as the distinguished flush packet.

use crate::encoding::{
    hex_digit, hex_digit_val, is_hex_digit, lemma_hex_digit_val, sub_bytes,
};
use crate::err::GitError;
use vstd::prelude::*;

verus! {

/// One framed unit as the protocol distinguishes them: a flush packet, or a
/// payload.
pub enum PktMsg {
    Flush,
    Data(Seq<u8>),
}

/// The 4 lowercase hex digits of `n`, most significant first.
pub open spec fn hex4(n: nat) -> Seq<u8> {
    seq![
        hex_digit(n / 4096 % 16),
        hex_digit(n / 256 % 16),
        hex_digit(n / 16 % 16),
        hex_digit(n % 16),
    ]
}

/// The length a pkt-line header states.
pub open spec fn pkt_len_val(s: Seq<u8>) -> nat {
    hex_digit_val(s[0]) * 4096 + hex_digit_val(s[1]) * 256 + hex_digit_val(s[2]) * 16
        + hex_digit_val(s[3])
}

/// Parse the pkt-line at the head of `s`: the unit and how many bytes it
/// occupied.  `None` when fewer than 4 bytes remain, the header is not hex,
/// or the stated length is absurd.
pub open spec fn spec_pkt_parse(s: Seq<u8>) -> Option<(PktMsg, int)> {
    if s.len() < 4 {
        None
    } else if !(is_hex_digit(s[0]) && is_hex_digit(s[1]) && is_hex_digit(s[2]) && is_hex_digit(
        s[3],
    )) {
        None
    } else {
        let l = pkt_len_val(s.subrange(0, 4)) as int;
        if l == 0 {
            Some((PktMsg::Flush, 4))
        } else if l < 4 {
            None
        } else if l > s.len() {
            None
        } else {
            Some((PktMsg::Data(s.subrange(4, l)), l))
        }
    }
}

/// The wire bytes of one unit.
pub open spec fn spec_pkt_encode(m: PktMsg) -> Seq<u8> {
    match m {
        PktMsg::Flush => hex4(0),
        PktMsg::Data(p) => hex4(p.len() + 4) + p,
    }
}

/// The wire bytes of a list of units, one after the other.
pub open spec fn spec_pkt_encode_all(items: Seq<PktMsg>) -> Seq<u8>
    decreases items.len(),
{
    if items.len() == 0 {
        Seq::empty()
    } else {
        spec_pkt_encode(items[0]) + spec_pkt_encode_all(items.skip(1))
    }
}

/// Decode units from the head of `s` until fewer than 4 bytes remain or a
/// frame is broken.
pub open spec fn spec_pkt_decode_all(s: Seq<u8>) -> Seq<PktMsg>
    decreases s.len(),
{
    match spec_pkt_parse(s) {
        None => Seq::empty(),
        Some((m, adv)) => {
            if !(4 <= adv <= s.len()) {
                Seq::empty()
            } else {
                seq![m] + spec_pkt_decode_all(s.skip(adv))
            }
        },
    }
}

/// One pkt-line's payload; a flush packet reads as an empty payload.
#[derive(Debug, Clone, PartialEq, Eq)]
pub struct PacketLine {
    pub data: Vec<u8>,
}

impl PacketLine {
    /// Length of the payload.
    pub fn len(&self) -> (r: usize)
        ensures
            r == self.data@.len(),
    {
        self.data.len()
    }

    /// A flush packet, or a data packet with nothing in it.
    pub fn is_empty(&self) -> (r: bool)
        ensures
            r == (self.data@.len() == 0),
    {
        self.data.len() == 0
    }

    /// Parse the pkt-line at the head of `value`.  Succeeds exactly when a
    /// whole well-formed unit is there; the payload of a flush packet is
    /// empty.
    pub fn try_from(value: &[u8]) -> (r: Result<PacketLine, GitError>)
        ensures
            r is Ok <==> spec_pkt_parse(value@) is Some,
            r is Ok ==> match spec_pkt_parse(value@) {
                Some((m, adv)) => {
                    &&& r->Ok_0.data@ == (match m {
                        PktMsg::Flush => Seq::<u8>::empty(),
                        PktMsg::Data(p) => p,
                    })
                    &&& adv == r->Ok_0.data@.len() + 4
                },
                None => false,
            },
            r is Err ==> r->Err_0 == GitError::ProtocolError,
    {
        let vlen = value.len();
        if vlen < 4 {
            return Err(GitError::ProtocolError);
        }
        let d0 = match hex_val(value[0]) {
            Some(v) => v,
            None => {
                return Err(GitError::ProtocolError);
            },
        };
        let d1 = match hex_val(value[1]) {
            Some(v) => v,
            None => {
                return Err(GitError::ProtocolError);
            },
        };
        let d2 = match hex_val(value[2]) {
            Some(v) => v,
            None => {
                return Err(GitError::ProtocolError);
            },
        };
        let d3 = match hex_val(value[3]) {
            Some(v) => v,
            None => {
                return Err(GitError::ProtocolError);
            },
        };
        let l: usize = (d0 as usize) * 4096 + (d1 as usize) * 256 + (d2 as usize) * 16
            + (d3 as usize);
        proof {
            assert(value@.subrange(0, 4)[0] == value@[0]);
            assert(value@.subrange(0, 4)[1] == value@[1]);
            assert(value@.subrange(0, 4)[2] == value@[2]);
            assert(value@.subrange(0, 4)[3] == value@[3]);
        }
        if l == 0 {
            return Ok(PacketLine { data: Vec::new() });
        }
        if l < 4 {
            return Err(GitError::ProtocolError);
        }
        if l > vlen {
            return Err(GitError::ProtocolError);
        }
        let data = sub_bytes(value, 4, l);
        Ok(PacketLine { data })
    }
}

/// Value of one hex digit byte, either case.
fn hex_val(b: u8) -> (r: Option<u8>)
    ensures
        r is Some <==> is_hex_digit(b),
        r is Some ==> r->0 == hex_digit_val(b) && hex_digit_val(b) < 16,
{
    if 48 <= b && b <= 57 {
        Some(b - 48)
    } else if 97 <= b && b <= 102 {
        Some(b - 87)
    } else if 65 <= b && b <= 70 {
        Some(b - 55)
    } else {
        None
    }
}

/// A pull iterator over the pkt-lines of a byte stream; it stops at the
/// first broken frame or when fewer than 4 bytes remain.
pub struct PacketLineIterator {
    stream: Vec<u8>,
    pos: usize,
}

impl PacketLineIterator {
    /// The bytes not yet consumed.
    pub closed spec fn remaining(&self) -> Seq<u8> {
        self.stream@.skip(self.pos as int)
    }

    /// The cursor sits inside the stream.
    pub closed spec fn wf(&self) -> bool {
        self.pos <= self.stream@.len()
    }

    /// Start iterating over a byte stream.
    pub fn new(stream: Vec<u8>) -> (r: PacketLineIterator)
        ensures
            r.wf(),
            r.remaining() == stream@,
    {
        let r = PacketLineIterator { stream, pos: 0 };
        proof {
            assert(r.stream@.skip(0) =~= r.stream@);
        }
        r
    }

    /// The next pkt-line, if a whole one is there; a flush packet comes out
    /// as an empty line.
    pub fn next(&mut self) -> (r: Option<PacketLine>)
        requires
            old(self).wf(),
        ensures
            final(self).wf(),
            match r {
                Some(pl) => {
                    &&& spec_pkt_parse(old(self).remaining()) is Some
                    &&& match spec_pkt_parse(old(self).remaining()) {
                        Some((m, adv)) => {
                            &&& pl.data@ == (match m {
                                PktMsg::Flush => Seq::<u8>::empty(),
                                PktMsg::Data(p) => p,
                            })
                            &&& final(self).remaining() == old(self).remaining().skip(adv)
                        },
                        None => false,
                    }
                },
                None => {
                    &&& spec_pkt_parse(old(self).remaining()) is None
                    &&& final(self).remaining() == old(self).remaining()
                },
            },
    {
        let ghost rem = self.remaining();
        let slen = self.stream.len();
        let slice = self.stream.as_slice();
        let tail = slice_skip(slice, self.pos);
        let pl = match PacketLine::try_from(tail.as_slice()) {
            Ok(pl) => pl,
            Err(_) => {
                return None;
            },
        };
        proof {
            let rem2 = self.stream@.skip(self.pos as int);
            assert(spec_pkt_parse(rem2) is Some);
            let (m, adv2) = spec_pkt_parse(rem2)->Some_0;
            assert(adv2 <= rem2.len());
            assert(pl.data@.len() + 4 == adv2);
        }
        let adv = pl.len() + 4;
        proof {
            assert(self.stream@.skip(self.pos as int).skip(adv as int) =~= self.stream@.skip(
                self.pos + adv,
            ));
        }
        self.pos = self.pos + adv;
        Some(pl)
    }
}

/// A copy of the bytes of `s` from `from` on.
fn slice_skip(s: &[u8], from: usize) -> (r: Vec<u8>)
    requires
        from <= s@.len(),
    ensures
        r@ == s@.skip(from as int),
{
    let out = sub_bytes(s, from, s.len());
    proof {
        assert(s@.subrange(from as int, s@.len() as int) =~= s@.skip(from as int));
    }
    out
}

/// The payload of a `want` line: `"want <hex>\n"`.
pub open spec fn want_line(hex: Seq<u8>) -> Seq<u8> {
    seq![119u8, 97u8, 110u8, 116u8, 32u8] + hex + seq![10u8]
}

/// The payload of the closing `done` line.
pub open spec fn done_line() -> Seq<u8> {
    seq![100u8, 111u8, 110u8, 101u8, 10u8]
}

/// The units a want list stands for: one data line per want, a flush, and
/// `done`.
pub open spec fn wants_items(wants: Seq<Seq<u8>>) -> Seq<PktMsg> {
    wants.map_values(|h: Seq<u8>| PktMsg::Data(want_line(h))) + seq![
        PktMsg::Flush,
        PktMsg::Data(done_line()),
    ]
}

/// Encode one data pkt-line.
pub fn pkt_encode(payload: &[u8]) -> (r: Vec<u8>)
    requires
        payload@.len() + 4 <= 0xffff,
    ensures
        r@ == spec_pkt_encode(PktMsg::Data(payload@)),
{
    let l: usize = payload.len() + 4;
    let mut out = hex4_bytes(l);
    crate::encoding::append_bytes(&mut out, payload);
    proof {
        assert(out@ =~= spec_pkt_encode(PktMsg::Data(payload@)));
    }
    out
}

/// Encode a flush packet.
pub fn pkt_flush() -> (r: Vec<u8>)
    ensures
        r@ == spec_pkt_encode(PktMsg::Flush),
{
    let r = hex4_bytes(0);
    proof {
        assert(r@ =~= spec_pkt_encode(PktMsg::Flush));
    }
    r
}

/// The 4 lowercase hex digits of `n`.
fn hex4_bytes(n: usize) -> (r: Vec<u8>)
    requires
        n <= 0xffff,
    ensures
        r@ == hex4(n as nat),
{
    let mut out: Vec<u8> = Vec::new();
    out.push(hex_digit_exec((n / 4096 % 16) as u8));
    out.push(hex_digit_exec((n / 256 % 16) as u8));
    out.push(hex_digit_exec((n / 16 % 16) as u8));
    out.push(hex_digit_exec((n % 16) as u8));
    proof {
        assert(out@ =~= hex4(n as nat));
    }
    out
}

/// The lowercase hex digit of a value below 16.
fn hex_digit_exec(v: u8) -> (r: u8)
    requires
        v < 16,
    ensures
        r == hex_digit(v as nat),
{
    if v < 10 {
        48 + v
    } else {
        87 + v
    }
}

/// Collects want hashes and frames the `want`/`done` request body.
pub struct PacketLineBuilder {
    pub wants: Vec<Vec<u8>>,
}

/// The views of the collected want hashes.
pub open spec fn wants_view(wants: Seq<Vec<u8>>) -> Seq<Seq<u8>> {
    wants.map_values(|v: Vec<u8>| v@)
}

impl PacketLineBuilder {
    /// An empty want list.
    pub fn new() -> (r: PacketLineBuilder)
        ensures
            r.wants@.len() == 0,
    {
        PacketLineBuilder { wants: Vec::new() }
    }

    /// Add one want hash, in hex.
    pub fn want(&mut self, hex: Vec<u8>)
        ensures
            final(self).wants@ == old(self).wants@.push(hex),
    {
        self.wants.push(hex)
    }

    /// Frame the request: one `want` line per hash, a flush packet, and a
    /// `done` line.
    pub fn build(self) -> (r: PacketLine)
        requires
            forall|i: int|
                0 <= i < self.wants@.len() ==> #[trigger] self.wants@[i]@.len() + 10 <= 0xffff,
        ensures
            r.data@ == spec_pkt_encode_all(wants_items(wants_view(self.wants@))),
    {
        let ghost items = wants_items(wants_view(self.wants@));
        let mut out: Vec<u8> = Vec::new();
        let mut i: usize = 0;
        proof {
            lemma_wants_items_split(wants_view(self.wants@));
            assert(out@ =~= spec_pkt_encode_all(items.skip(items.len() as int)));
        }
        while i < self.wants.len()
            invariant
                i <= self.wants@.len(),
                forall|k: int|
                    0 <= k < self.wants@.len() ==> #[trigger] self.wants@[k]@.len() + 10
                        <= 0xffff,
                items == wants_items(wants_view(self.wants@)),
                items.len() == self.wants@.len() + 2,
                forall|k: int|
                    0 <= k < self.wants@.len() ==> items[k] == PktMsg::Data(
                        want_line(#[trigger] self.wants@[k]@),
                    ),
                items[items.len() - 2] == PktMsg::Flush,
                items[items.len() - 1] == PktMsg::Data(done_line()),
                out@ == spec_pkt_encode_all(items.subrange(0, i as int)),
            decreases self.wants@.len() - i,
        {
            let mut line: Vec<u8> = Vec::new();
            line.push(119);
            line.push(97);
            line.push(110);
            line.push(116);
            line.push(32);
            crate::encoding::append_bytes(&mut line, self.wants[i].as_slice());
            line.push(10);
            proof {
                assert(line@ =~= want_line(self.wants@[i as int]@));
            }
            let enc = pkt_encode(line.as_slice());
            crate::encoding::append_bytes(&mut out, enc.as_slice());
            proof {
                lemma_pkt_encode_all_snoc(items.subrange(0, i as int), items[i as int]);
                assert(items.subrange(0, i + 1) =~= items.subrange(0, i as int).push(
                    items[i as int],
                ));
                assert(out@ =~= spec_pkt_encode_all(items.subrange(0, i + 1)));
            }
            i = i + 1;
        }
        let flush = pkt_flush();
        crate::encoding::append_bytes(&mut out, flush.as_slice());
        proof {
            lemma_pkt_encode_all_snoc(items.subrange(0, items.len() - 2), items[items.len() - 2]);
            assert(items.subrange(0, items.len() - 1) =~= items.subrange(
                0,
                items.len() - 2,
            ).push(items[items.len() - 2]));
        }
        let mut done: Vec<u8> = Vec::new();
        done.push(100);
        done.push(111);
        done.push(110);
        done.push(101);
        done.push(10);
        proof {
            assert(done@ =~= done_line());
        }
        let enc = pkt_encode(done.as_slice());
        crate::encoding::append_bytes(&mut out, enc.as_slice());
        proof {
            lemma_pkt_encode_all_snoc(items.subrange(0, items.len() - 1), items[items.len() - 1]);
            assert(items.subrange(0, items.len() as int) =~= items.subrange(
                0,
                items.len() - 1,
            ).push(items[items.len() - 1]));
            assert(items.subrange(0, items.len() as int) =~= items);
        }
        PacketLine { data: out }
    }
}

/// Structure of the want-item list: lengths and members.
proof fn lemma_wants_items_split(wants: Seq<Seq<u8>>)
    ensures
        wants_items(wants).len() == wants.len() + 2,
        forall|k: int|
            0 <= k < wants.len() ==> wants_items(wants)[k] == PktMsg::Data(
                want_line(#[trigger] wants[k]),
            ),
        wants_items(wants)[wants.len() as int] == PktMsg::Flush,
        wants_items(wants)[wants.len() as int + 1] == PktMsg::Data(done_line()),
        wants_items(wants).skip(wants.len() as int + 2) =~= Seq::<PktMsg>::empty(),
{
}

/// Appending a unit extends the encoding by that unit's bytes.
proof fn lemma_pkt_encode_all_snoc(items: Seq<PktMsg>, m: PktMsg)
    ensures
        spec_pkt_encode_all(items.push(m)) == spec_pkt_encode_all(items) + spec_pkt_encode(m),
    decreases items.len(),
{
    if items.len() == 0 {
        assert(items.push(m).skip(1) =~= Seq::<PktMsg>::empty());
        assert(items.push(m)[0] == m);
        assert(spec_pkt_encode_all(items.push(m)) == spec_pkt_encode(m) + spec_pkt_encode_all(
            items.push(m).skip(1),
        ));
        assert(spec_pkt_encode_all(items) == Seq::<u8>::empty());
        assert(spec_pkt_encode_all(items.push(m)) =~= spec_pkt_encode_all(items)
            + spec_pkt_encode(m));
    } else {
        lemma_pkt_encode_all_snoc(items.skip(1), m);
        assert(items.push(m).skip(1) =~= items.skip(1).push(m));
        assert(items.push(m)[0] == items[0]);
        assert(spec_pkt_encode(items[0]) + (spec_pkt_encode_all(items.skip(1))
            + spec_pkt_encode(m)) =~= (spec_pkt_encode(items[0]) + spec_pkt_encode_all(
            items.skip(1),
        )) + spec_pkt_encode(m));
    }
}

/// A 4-digit header decodes back to its value.
proof fn lemma_hex4_val(n: nat)
    requires
        n <= 0xffff,
    ensures
        hex4(n).len() == 4,
        is_hex_digit(hex4(n)[0]),
        is_hex_digit(hex4(n)[1]),
        is_hex_digit(hex4(n)[2]),
        is_hex_digit(hex4(n)[3]),
        pkt_len_val(hex4(n)) == n,
{
    lemma_hex_digit_val((n / 4096 % 16) as u8);
    lemma_hex_digit_val((n / 256 % 16) as u8);
    lemma_hex_digit_val((n / 16 % 16) as u8);
    lemma_hex_digit_val((n % 16) as u8);
    assert(n / 4096 % 16 * 4096 + n / 256 % 16 * 256 + n / 16 % 16 * 16 + n % 16 == n) by (nonlinear_arith)
        requires n <= 0xffff;
}

/// Pkt-line round-trip: decoding what a list of units encodes gives back
/// exactly that list, flush packets preserved, as long as every payload fits
/// in a frame.
#[verifier::rlimit(100)]
pub proof fn lemma_pkt_roundtrip(items: Seq<PktMsg>)
    requires
        forall|k: int| 0 <= k < items.len() ==> match #[trigger] items[k] {
            PktMsg::Data(p) => p.len() + 4 <= 0xffff,
            PktMsg::Flush => true,
        },
    ensures
        spec_pkt_decode_all(spec_pkt_encode_all(items)) == items,
    decreases items.len(),
{
    let s = spec_pkt_encode_all(items);
    if items.len() == 0 {
        assert(s.len() == 0);
        assert(spec_pkt_decode_all(s) =~= items);
    } else {
        let m = items[0];
        let e = spec_pkt_encode(m);
        let rest = spec_pkt_encode_all(items.skip(1));
        assert(s == e + rest);
        match m {
            PktMsg::Flush => {
                lemma_hex4_val(0);
                assert(s[0] == hex4(0)[0] && s[1] == hex4(0)[1] && s[2] == hex4(0)[2] && s[3]
                    == hex4(0)[3]);
                assert(s.subrange(0, 4) =~= hex4(0));
                assert(spec_pkt_parse(s) == Some((PktMsg::Flush, 4int)));
                assert(s.skip(4) =~= rest);
            },
            PktMsg::Data(p) => {
                let l = p.len() + 4;
                lemma_hex4_val(l);
                assert(e == hex4(l) + p);
                assert(s[0] == hex4(l)[0] && s[1] == hex4(l)[1] && s[2] == hex4(l)[2] && s[3]
                    == hex4(l)[3]);
                assert(s.subrange(0, 4) =~= hex4(l));
                assert(pkt_len_val(s.subrange(0, 4)) == l);
                assert(e.len() == l);
                assert(s.len() >= l);
                assert(s.subrange(4, l as int) =~= p);
                assert(spec_pkt_parse(s) == Some((PktMsg::Data(p), l as int)));
                assert(s.skip(l as int) =~= rest);
            },
        }
        lemma_pkt_roundtrip(items.skip(1));
        assert(spec_pkt_decode_all(s) =~= items);
    }
}

} // verus!
