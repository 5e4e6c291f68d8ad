//! The `info/refs` advertisement: pkt-lines up to a first flush (the
//! service announcement), then one ref per line — 40 hex chars, a space,
//! and the name up to a NUL or newline — until the closing flush.

use crate::encoding::find_byte;
use crate::err::GitError;
use crate::pkt::{spec_pkt_parse, PacketLineIterator, PktMsg};
use vstd::prelude::*;

verus! {

/// One advertised ref: its name and the hex hash it points at.
#[derive(Debug, Clone, PartialEq, Eq)]
pub struct RefItem {
    pub name: Vec<u8>,
    pub hex: Vec<u8>,
}

/// The views of a run of refs.
pub open spec fn refs_view(s: Seq<RefItem>) -> Seq<(Seq<u8>, Seq<u8>)> {
    s.map_values(|r: RefItem| (r.name@, r.hex@))
}

/// Where a ref line's name ends: the first NUL or newline, or the end.
pub open spec fn ref_name_end(p: Seq<u8>) -> int {
    match (find_byte(p, 0, 0), find_byte(p, 0, 10)) {
        (None, None) => p.len() as int,
        (Some(a), None) => a,
        (None, Some(b)) => b,
        (Some(a), Some(b)) => if a < b {
            a
        } else {
            b
        },
    }
}

/// Read the advertisement from `s` on: before the first empty packet
/// nothing counts; after it, each payload is a ref line until the next
/// empty packet.  The stream running out, or a broken frame, ends the scan
/// with what was collected, as a pull iterator would; only a ref line too
/// short for a hash fails.
pub open spec fn spec_parse_refs(
    s: Seq<u8>,
    seen_sep: bool,
    acc: Seq<(Seq<u8>, Seq<u8>)>,
) -> Option<Seq<(Seq<u8>, Seq<u8>)>>
    decreases s.len(),
{
    match spec_pkt_parse(s) {
        None => Some(acc),
        Some((m, adv)) => {
            if !(4 <= adv <= s.len()) {
                Some(acc)
            } else {
                let payload = match m {
                    PktMsg::Flush => Seq::<u8>::empty(),
                    PktMsg::Data(p) => p,
                };
                if payload.len() == 0 {
                    if seen_sep {
                        Some(acc)
                    } else {
                        spec_parse_refs(s.skip(adv), true, acc)
                    }
                } else if !seen_sep {
                    spec_parse_refs(s.skip(adv), false, acc)
                } else {
                    let pos = ref_name_end(payload);
                    if pos < 41 {
                        None
                    } else {
                        spec_parse_refs(
                            s.skip(adv),
                            true,
                            acc.push((payload.subrange(41, pos), payload.subrange(0, 40))),
                        )
                    }
                }
            }
        },
    }
}

/// Where a ref line's name ends, scanned.
fn ref_name_end_exec(p: &[u8]) -> (r: usize)
    ensures
        r as int == ref_name_end(p@),
        r <= p@.len(),
{
    let a = crate::encoding::find_byte_exec(p, 0, 0);
    let b = crate::encoding::find_byte_exec(p, 0, 10);
    proof {
        if find_byte(p@, 0, 0) is Some {
            crate::encoding::lemma_find_byte_props(p@, 0, 0);
        }
        if find_byte(p@, 0, 10) is Some {
            crate::encoding::lemma_find_byte_props(p@, 0, 10);
        }
    }
    match (a, b) {
        (Option::None, Option::None) => p.len(),
        (Option::Some(x), Option::None) => x,
        (Option::None, Option::Some(y)) => y,
        (Option::Some(x), Option::Some(y)) => if x < y {
            x
        } else {
            y
        },
    }
}

/// Parse a whole `info/refs` response body into the advertised refs, in
/// order.  Fails with `ProtocolError` exactly when a ref line is too short
/// to hold a 40-char hash.
pub fn parse_refs(body: &[u8]) -> (r: Result<Vec<RefItem>, GitError>)
    ensures
        r is Ok <==> spec_parse_refs(body@, false, Seq::empty()) is Some,
        r is Ok ==> Some(refs_view(r->Ok_0@)) == spec_parse_refs(body@, false, Seq::empty()),
        r is Err ==> r->Err_0 == GitError::ProtocolError,
{
    let mut it = PacketLineIterator::new(crate::encoding::sub_bytes(body, 0, body.len()));
    proof {
        assert(body@.subrange(0, body@.len() as int) =~= body@);
    }
    let mut refs: Vec<RefItem> = Vec::new();
    let mut seen_sep = false;
    let ghost whole = body@;
    proof {
        assert(refs_view(refs@) =~= Seq::<(Seq<u8>, Seq<u8>)>::empty());
    }
    loop
        invariant
            it.wf(),
            whole == body@,
            spec_parse_refs(whole, false, Seq::empty()) == spec_parse_refs(
                it.remaining(),
                seen_sep,
                refs_view(refs@),
            ),
        decreases it.remaining().len(),
    {
        let ghost rem0 = it.remaining();
        let pl = match it.next() {
            Some(pl) => pl,
            None => {
                proof {
                    assert(spec_parse_refs(rem0, seen_sep, refs_view(refs@)) == Some(
                        refs_view(refs@),
                    ));
                }
                return Ok(refs);
            },
        };
        proof {
            let (m, adv) = spec_pkt_parse(rem0)->Some_0;
            assert(4 <= adv <= rem0.len());
        }
        if pl.is_empty() {
            if seen_sep {
                proof {
                    assert(spec_parse_refs(rem0, seen_sep, refs_view(refs@)) == Some(
                        refs_view(refs@),
                    ));
                }
                return Ok(refs);
            }
            seen_sep = true;
        } else if seen_sep {
            let pos = ref_name_end_exec(pl.data.as_slice());
            if pos < 41 {
                return Err(GitError::ProtocolError);
            }
            let name = crate::encoding::sub_bytes(pl.data.as_slice(), 41, pos);
            let hex = crate::encoding::sub_bytes(pl.data.as_slice(), 0, 40);
            let ghost prev = refs_view(refs@);
            let ghost rv = (name@, hex@);
            refs.push(RefItem { name, hex });
            proof {
                assert(refs_view(refs@) =~= prev.push(rv));
            }
        }
    }
}

/// The first ref with the given name.
pub open spec fn spec_find_ref(refs: Seq<(Seq<u8>, Seq<u8>)>, name: Seq<u8>, from: int) -> Option<
    int,
>
    decreases refs.len() - from,
{
    if from < 0 || from >= refs.len() {
        None
    } else if refs[from].0 == name {
        Some(from)
    } else {
        spec_find_ref(refs, name, from + 1)
    }
}

/// The hash `HEAD` was advertised with.  Fails with `NoHead` exactly when
/// no ref of that name is there.
pub fn head_hash(refs: &Vec<RefItem>) -> (r: Result<Vec<u8>, GitError>)
    ensures
        r is Ok <==> spec_find_ref(refs_view(refs@), head_name(), 0) is Some,
        r is Ok ==> match spec_find_ref(refs_view(refs@), head_name(), 0) {
            Some(idx) => r->Ok_0@ == refs_view(refs@)[idx].1,
            None => false,
        },
        r is Err ==> r->Err_0 == GitError::NoHead,
{
    let mut target: Vec<u8> = Vec::new();
    target.push(72);
    target.push(69);
    target.push(65);
    target.push(68);
    proof {
        assert(target@ =~= head_name());
    }
    let mut i: usize = 0;
    while i < refs.len()
        invariant
            i <= refs@.len(),
            target@ == head_name(),
            spec_find_ref(refs_view(refs@), head_name(), 0) == spec_find_ref(
                refs_view(refs@),
                head_name(),
                i as int,
            ),
        decreases refs@.len() - i,
    {
        if crate::encoding::bytes_eq(refs[i].name.as_slice(), target.as_slice()) {
            return Ok(crate::encoding::clone_bytes(&refs[i].hex));
        }
        i = i + 1;
    }
    Err(GitError::NoHead)
}

/// The ASCII bytes of `HEAD`.
pub open spec fn head_name() -> Seq<u8> {
    seq![72u8, 69u8, 65u8, 68u8]
}

} // verus!
