//! Commit bodies: assembling the text record that points at a tree and its
//! parents, and reading those pointers back when a history is walked.

use crate::encoding::{
    append_bytes, bytes_eq, dec_bytes_u64, dec_digits, find_byte, find_byte_exec,
    lemma_find_byte_props, sub_bytes,
};
use vstd::prelude::*;

verus! {

/// `"tree <hex>\n"`.
pub open spec fn tree_line(hex: Seq<u8>) -> Seq<u8> {
    seq![116u8, 114u8, 101u8, 101u8, 32u8] + hex + seq![10u8]
}

/// `"parent <hex>\n"` for each parent, in the order given.
pub open spec fn parent_lines(parents: Seq<Seq<u8>>) -> Seq<u8>
    decreases parents.len(),
{
    if parents.len() == 0 {
        Seq::empty()
    } else {
        seq![112u8, 97u8, 114u8, 101u8, 110u8, 116u8, 32u8] + parents[0] + seq![10u8]
            + parent_lines(parents.skip(1))
    }
}

/// `"<tag><identity> <timestamp> <tz>\n"`.
pub open spec fn person_line(tag: Seq<u8>, identity: Seq<u8>, timestamp: nat, tz: Seq<u8>) -> Seq<
    u8,
> {
    tag + identity + seq![32u8] + dec_digits(timestamp) + seq![32u8] + tz + seq![10u8]
}

/// The whole commit body: tree line, parent lines, author, committer, a
/// blank line, then the message and a closing newline.
pub open spec fn spec_commit_body(
    tree_hex: Seq<u8>,
    parents: Seq<Seq<u8>>,
    author: Seq<u8>,
    committer: Seq<u8>,
    timestamp: nat,
    tz: Seq<u8>,
    message: Seq<u8>,
) -> Seq<u8> {
    tree_line(tree_hex) + parent_lines(parents) + person_line(
        seq![97u8, 117u8, 116u8, 104u8, 111u8, 114u8, 32u8],
        author,
        timestamp,
        tz,
    ) + person_line(
        seq![99u8, 111u8, 109u8, 109u8, 105u8, 116u8, 116u8, 101u8, 114u8, 32u8],
        committer,
        timestamp,
        tz,
    ) + seq![10u8] + message + seq![10u8]
}

/// The views of the parent hex strings.
pub open spec fn parents_view(parents: Seq<Vec<u8>>) -> Seq<Seq<u8>> {
    parents.map_values(|v: Vec<u8>| v@)
}

/// Adding a parent extends the parent lines.
proof fn lemma_parent_lines_snoc(parents: Seq<Seq<u8>>, p: Seq<u8>)
    ensures
        parent_lines(parents.push(p)) == parent_lines(parents) + (seq![
            112u8,
            97u8,
            114u8,
            101u8,
            110u8,
            116u8,
            32u8,
        ] + p + seq![10u8]),
    decreases parents.len(),
{
    let line = seq![112u8, 97u8, 114u8, 101u8, 110u8, 116u8, 32u8] + p + seq![10u8];
    if parents.len() == 0 {
        assert(parents.push(p).skip(1) =~= Seq::<Seq<u8>>::empty());
        assert(parents.push(p)[0] == p);
        assert(parent_lines(parents.push(p)) == seq![
            112u8,
            97u8,
            114u8,
            101u8,
            110u8,
            116u8,
            32u8,
        ] + p + seq![10u8] + parent_lines(parents.push(p).skip(1)));
        assert(parent_lines(Seq::<Seq<u8>>::empty()) == Seq::<u8>::empty());
        assert(parent_lines(parents) == Seq::<u8>::empty());
        assert(parent_lines(parents.push(p)) =~= parent_lines(parents) + line);
    } else {
        lemma_parent_lines_snoc(parents.skip(1), p);
        assert(parents.push(p).skip(1) =~= parents.skip(1).push(p));
        assert(parents.push(p)[0] == parents[0]);
        let head = seq![112u8, 97u8, 114u8, 101u8, 110u8, 116u8, 32u8] + parents[0] + seq![10u8];
        assert(head + (parent_lines(parents.skip(1)) + line) =~= (head + parent_lines(
            parents.skip(1),
        )) + line);
    }
}

/// Assemble a commit body.  The timestamp is rendered in decimal; parents
/// appear one line each, in the order given, and are omitted when none are
/// given.
#[verifier::rlimit(100)]
pub fn build_commit_body(
    tree_hex: &[u8],
    parents: &Vec<Vec<u8>>,
    author: &[u8],
    committer: &[u8],
    timestamp: u64,
    tz: &[u8],
    message: &[u8],
) -> (r: Vec<u8>)
    ensures
        r@ == spec_commit_body(
            tree_hex@,
            parents_view(parents@),
            author@,
            committer@,
            timestamp as nat,
            tz@,
            message@,
        ),
{
    let mut out: Vec<u8> = Vec::new();
    out.push(116);
    out.push(114);
    out.push(101);
    out.push(101);
    out.push(32);
    append_bytes(&mut out, tree_hex);
    out.push(10);
    proof {
        assert(out@ =~= tree_line(tree_hex@));
    }
    let ghost pv = parents_view(parents@);
    let mut i: usize = 0;
    proof {
        assert(pv.subrange(0, 0) =~= Seq::<Seq<u8>>::empty());
        assert(out@ =~= tree_line(tree_hex@) + parent_lines(pv.subrange(0, 0)));
    }
    while i < parents.len()
        invariant
            i <= parents@.len(),
            pv == parents_view(parents@),
            out@ == tree_line(tree_hex@) + parent_lines(pv.subrange(0, i as int)),
        decreases parents@.len() - i,
    {
        out.push(112);
        out.push(97);
        out.push(114);
        out.push(101);
        out.push(110);
        out.push(116);
        out.push(32);
        append_bytes(&mut out, parents[i].as_slice());
        out.push(10);
        proof {
            lemma_parent_lines_snoc(pv.subrange(0, i as int), pv[i as int]);
            assert(pv.subrange(0, i + 1) =~= pv.subrange(0, i as int).push(pv[i as int]));
            assert(out@ =~= tree_line(tree_hex@) + parent_lines(pv.subrange(0, i + 1)));
        }
        i = i + 1;
    }
    proof {
        assert(pv.subrange(0, pv.len() as int) =~= pv);
    }
    let ts = dec_bytes_u64(timestamp);
    out.push(97);
    out.push(117);
    out.push(116);
    out.push(104);
    out.push(111);
    out.push(114);
    out.push(32);
    append_bytes(&mut out, author);
    out.push(32);
    append_bytes(&mut out, ts.as_slice());
    out.push(32);
    append_bytes(&mut out, tz);
    out.push(10);
    out.push(99);
    out.push(111);
    out.push(109);
    out.push(109);
    out.push(105);
    out.push(116);
    out.push(116);
    out.push(101);
    out.push(114);
    out.push(32);
    append_bytes(&mut out, committer);
    out.push(32);
    append_bytes(&mut out, ts.as_slice());
    out.push(32);
    append_bytes(&mut out, tz);
    out.push(10);
    out.push(10);
    append_bytes(&mut out, message);
    out.push(10);
    proof {
        assert(out@ =~= spec_commit_body(
            tree_hex@,
            pv,
            author@,
            committer@,
            timestamp as nat,
            tz@,
            message@,
        ));
    }
    out
}

/// A pointer read out of a commit body: the tree, or one parent.
#[derive(Debug, Clone, PartialEq, Eq)]
pub struct CommitLink {
    /// `true` for a `parent` line, `false` for the `tree` line.
    pub parent: bool,
    /// The hex hash named on the line.
    pub hex: Vec<u8>,
}

/// The views of a sequence of links.
pub open spec fn links_view(s: Seq<CommitLink>) -> Seq<(bool, Seq<u8>)> {
    s.map_values(|c: CommitLink| (c.parent, c.hex@))
}

/// What one header line points at, if anything: the word up to the first
/// space decides, and everything after that space is the hash.
pub open spec fn line_link(line: Seq<u8>) -> Option<(bool, Seq<u8>)> {
    match find_byte(line, 0, 32) {
        None => None,
        Some(sp) => {
            if !(0 <= sp < line.len()) {
                None
            } else {
                let tag = line.subrange(0, sp);
                let rest = line.subrange(sp + 1, line.len() as int);
                if tag == seq![116u8, 114u8, 101u8, 101u8] {
                    Some((false, rest))
                } else if tag == seq![112u8, 97u8, 114u8, 101u8, 110u8, 116u8] {
                    Some((true, rest))
                } else {
                    None
                }
            }
        },
    }
}

/// The pointers of a commit body, read line by line until the blank line
/// that opens the message; lines naming neither tree nor parent are passed
/// over.
pub open spec fn spec_commit_links(body: Seq<u8>, from: int, acc: Seq<(bool, Seq<u8>)>) -> Seq<
    (bool, Seq<u8>),
>
    decreases body.len() - from,
{
    if from < 0 || from > body.len() {
        acc
    } else {
        match find_byte(body, from, 10) {
            None => {
                let line = body.subrange(from, body.len() as int);
                if line.len() == 0 {
                    acc
                } else {
                    match line_link(line) {
                        None => acc,
                        Some(l) => acc.push(l),
                    }
                }
            },
            Some(nl) => {
                if !(from <= nl < body.len()) {
                    acc
                } else {
                    let line = body.subrange(from, nl);
                    if line.len() == 0 {
                        acc
                    } else {
                        let acc2 = match line_link(line) {
                            None => acc,
                            Some(l) => acc.push(l),
                        };
                        spec_commit_links(body, nl + 1, acc2)
                    }
                }
            },
        }
    }
}

/// Check one line for a tree or parent pointer.
fn line_link_exec(line: &[u8]) -> (r: Option<CommitLink>)
    ensures
        r is Some <==> line_link(line@) is Some,
        r is Some ==> Some((r->0.parent, r->0.hex@)) == line_link(line@),
{
    let llen = line.len();
    let sp = match find_byte_exec(line, 0, 32) {
        Some(i) => i,
        None => {
            return None;
        },
    };
    proof {
        lemma_find_byte_props(line@, 0, 32);
        assert(sp < llen);
    }
    let tag = sub_bytes(line, 0, sp);
    let rest = sub_bytes(line, sp + 1, line.len());
    let mut tree_tag: Vec<u8> = Vec::new();
    tree_tag.push(116);
    tree_tag.push(114);
    tree_tag.push(101);
    tree_tag.push(101);
    proof {
        assert(tree_tag@ =~= seq![116u8, 114u8, 101u8, 101u8]);
    }
    let mut parent_tag: Vec<u8> = Vec::new();
    parent_tag.push(112);
    parent_tag.push(97);
    parent_tag.push(114);
    parent_tag.push(101);
    parent_tag.push(110);
    parent_tag.push(116);
    proof {
        assert(parent_tag@ =~= seq![112u8, 97u8, 114u8, 101u8, 110u8, 116u8]);
    }
    if bytes_eq(tag.as_slice(), tree_tag.as_slice()) {
        Some(CommitLink { parent: false, hex: rest })
    } else if bytes_eq(tag.as_slice(), parent_tag.as_slice()) {
        Some(CommitLink { parent: true, hex: rest })
    } else {
        None
    }
}

/// Read the tree and parent pointers out of a commit body, in the order the
/// lines stand, stopping at the blank line before the message.
pub fn commit_links(body: &[u8]) -> (r: Vec<CommitLink>)
    ensures
        links_view(r@) == spec_commit_links(body@, 0, Seq::empty()),
{
    let blen = body.len();
    let mut out: Vec<CommitLink> = Vec::new();
    let mut ptr: usize = 0;
    proof {
        assert(links_view(out@) =~= Seq::<(bool, Seq<u8>)>::empty());
    }
    loop
        invariant
            ptr <= blen,
            blen == body@.len(),
            spec_commit_links(body@, 0, Seq::empty()) == spec_commit_links(
                body@,
                ptr as int,
                links_view(out@),
            ),
        decreases blen - ptr,
    {
        match find_byte_exec(body, ptr, 10) {
            Some(nl) => {
                proof {
                    lemma_find_byte_props(body@, ptr as int, 10);
                }
                if nl == ptr {
                    return out;
                }
                let line = sub_bytes(body, ptr, nl);
                let ghost prev = links_view(out@);
                match line_link_exec(line.as_slice()) {
                    Some(l) => {
                        let ghost lv = (l.parent, l.hex@);
                        out.push(l);
                        proof {
                            assert(links_view(out@) =~= prev.push(lv));
                        }
                    },
                    None => {},
                }
                ptr = nl + 1;
            },
            None => {
                if ptr == blen {
                    return out;
                }
                let line = sub_bytes(body, ptr, blen);
                let ghost prev = links_view(out@);
                match line_link_exec(line.as_slice()) {
                    Some(l) => {
                        let ghost lv = (l.parent, l.hex@);
                        out.push(l);
                        proof {
                            assert(links_view(out@) =~= prev.push(lv));
                        }
                    },
                    None => {},
                }
                return out;
            },
        }
    }
}

} // verus!
