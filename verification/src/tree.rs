//! Tree objects: the `"<mode> <name>\0<20-byte hash>"` wire layout of each
//! node, parsing and emitting whole bodies, and the byte-order sort that
//! snapshots rely on for hash stability.

use crate::encoding::{
    append_bytes, bytes_eq, clone_bytes, find_byte, find_byte_exec, lemma_find_byte_at,
    lemma_find_byte_props, lemma_oct_digits_are_digits, oct_bytes, oct_digits, sub_bytes,
};
use crate::err::GitError;
use crate::object::{Object, ObjectKind};
use vstd::prelude::*;
use vstd::multiset::Multiset;
use vstd::seq_lib::lemma_multiset_commutative;

verus! {

/// What a tree node points at, with the octal mode written in the tree body.
#[derive(Clone, Copy, Debug, PartialEq, Eq, Structural)]
pub enum NodeKind {
    Dir { mode: u32 },
    File { mode: u32 },
    SymLink { mode: u32 },
}

impl NodeKind {
    /// The mode bits carried by any of the three variants.
    pub open spec fn spec_mode(&self) -> u32 {
        match self {
            NodeKind::Dir { mode } => *mode,
            NodeKind::File { mode } => *mode,
            NodeKind::SymLink { mode } => *mode,
        }
    }

    /// The mode bits carried by any of the three variants.
    pub fn mode(&self) -> (m: u32)
        ensures
            m == self.spec_mode(),
    {
        match self {
            NodeKind::Dir { mode } => *mode,
            NodeKind::File { mode } => *mode,
            NodeKind::SymLink { mode } => *mode,
        }
    }
}

/// A node's kind/mode pair is canonical when the mode is the one the wire
/// format writes for that kind.
pub open spec fn canonical_mode(kind: NodeKind) -> bool {
    match kind {
        NodeKind::Dir { mode } => mode == 0o40000u32,
        NodeKind::File { mode } => mode == 0o100644u32 || mode == 0o100755u32,
        NodeKind::SymLink { mode } => mode == 0o120000u32,
    }
}

/// One entry of a tree: a name, what it points at, and the child hash.
#[derive(Debug, Clone, PartialEq, Eq)]
pub struct Node {
    pub name: Vec<u8>,
    pub kind: NodeKind,
    pub hash: Vec<u8>,
}

/// The mathematical shadow of a `Node`.
pub struct NodeV {
    pub name: Seq<u8>,
    pub kind: NodeKind,
    pub hash: Seq<u8>,
}

impl View for Node {
    type V = NodeV;

    open spec fn view(&self) -> NodeV {
        NodeV { name: self.name@, kind: self.kind, hash: self.hash@ }
    }
}

/// A node that can stand in a tree body: 20-byte hash, and a name free of
/// NUL and `/`.
pub open spec fn node_wf(n: NodeV) -> bool {
    &&& n.hash.len() == 20
    &&& forall|i: int| 0 <= i < n.name.len() ==> n.name[i] != 0 && n.name[i] != 47
}

/// The wire bytes of one node.
pub open spec fn node_bytes(n: NodeV) -> Seq<u8> {
    oct_digits(n.kind.spec_mode() as nat) + seq![32u8] + n.name + seq![0u8] + n.hash
}

/// The wire bytes of a whole tree body: the nodes one after the other, no
/// separator, no terminator.
pub open spec fn spec_tree_body(nodes: Seq<NodeV>) -> Seq<u8>
    decreases nodes.len(),
{
    if nodes.len() == 0 {
        Seq::empty()
    } else {
        node_bytes(nodes[0]) + spec_tree_body(nodes.skip(1))
    }
}

/// The views of a sequence of nodes.
pub open spec fn nodes_view(s: Seq<Node>) -> Seq<NodeV> {
    s.map_values(|n: Node| n@)
}

/// The kind a mode string names; only the four canonical strings are
/// accepted.
pub open spec fn spec_mode_kind(s: Seq<u8>) -> Option<NodeKind> {
    if s == oct_digits(0o40000u32 as nat) {
        Some(NodeKind::Dir { mode: 0o40000u32 })
    } else if s == oct_digits(0o120000u32 as nat) {
        Some(NodeKind::SymLink { mode: 0o120000u32 })
    } else if s == oct_digits(0o100644u32 as nat) {
        Some(NodeKind::File { mode: 0o100644u32 })
    } else if s == oct_digits(0o100755u32 as nat) {
        Some(NodeKind::File { mode: 0o100755u32 })
    } else {
        None
    }
}

/// Parse a tree body from `from` on: mode up to a space, name up to a NUL,
/// then 20 hash bytes, repeated.  Trailing bytes holding no space are
/// ignored, as the loose reader ignores them.
pub open spec fn spec_parse_tree(body: Seq<u8>, from: int, acc: Seq<NodeV>) -> Option<Seq<NodeV>>
    decreases body.len() - from,
{
    if from < 0 || from > body.len() {
        None
    } else {
        match find_byte(body, from, 32) {
            None => Some(acc),
            Some(sp) => {
                if !(from <= sp < body.len()) {
                    None
                } else {
                    match spec_mode_kind(body.subrange(from, sp)) {
                        None => None,
                        Some(kind) => match find_byte(body, sp + 1, 0) {
                            None => None,
                            Some(nul) => {
                                if !(sp + 1 <= nul < body.len()) {
                                    None
                                } else if nul + 21 > body.len() {
                                    None
                                } else {
                                    spec_parse_tree(
                                        body,
                                        nul + 21,
                                        acc.push(
                                            NodeV {
                                                name: body.subrange(sp + 1, nul),
                                                kind,
                                                hash: body.subrange(nul + 1, nul + 21),
                                            },
                                        ),
                                    )
                                }
                            },
                        },
                    }
                }
            },
        }
    }
}

/// The canonical mode strings, written out.
proof fn lemma_mode_strings()
    ensures
        oct_digits(0o40000u32 as nat) =~= seq![52u8, 48u8, 48u8, 48u8, 48u8],
        oct_digits(0o100644u32 as nat) =~= seq![49u8, 48u8, 48u8, 54u8, 52u8, 52u8],
        oct_digits(0o100755u32 as nat) =~= seq![49u8, 48u8, 48u8, 55u8, 53u8, 53u8],
        oct_digits(0o120000u32 as nat) =~= seq![49u8, 50u8, 48u8, 48u8, 48u8, 48u8],
{
    reveal_with_fuel(oct_digits, 8);
}

/// Recognize a canonical mode string.
fn mode_kind_exec(s: &[u8]) -> (r: Option<NodeKind>)
    ensures
        r == spec_mode_kind(s@),
{
    let dir = oct_bytes(0o40000);
    let link = oct_bytes(0o120000);
    let plain = oct_bytes(0o100644);
    let exec_file = oct_bytes(0o100755);
    if bytes_eq(s, dir.as_slice()) {
        Some(NodeKind::Dir { mode: 0o40000 })
    } else if bytes_eq(s, link.as_slice()) {
        Some(NodeKind::SymLink { mode: 0o120000 })
    } else if bytes_eq(s, plain.as_slice()) {
        Some(NodeKind::File { mode: 0o100644 })
    } else if bytes_eq(s, exec_file.as_slice()) {
        Some(NodeKind::File { mode: 0o100755 })
    } else {
        None
    }
}

/// A directory listing read out of a tree object.
#[derive(Debug)]
pub struct Tree {
    pub nodes: Vec<Node>,
}

/// Parse a whole tree body.  Succeeds exactly when every node the scan
/// reaches is well-formed; the only error is `MalformedTree`.
pub fn parse_tree(body: &[u8]) -> (r: Result<Vec<Node>, GitError>)
    ensures
        r is Ok <==> spec_parse_tree(body@, 0, Seq::empty()) is Some,
        r is Ok ==> Some(nodes_view(r->Ok_0@)) == spec_parse_tree(body@, 0, Seq::empty()),
        r is Err ==> r->Err_0 == GitError::MalformedTree,
{
    let blen = body.len();
    let mut out: Vec<Node> = Vec::new();
    let mut ptr: usize = 0;
    proof {
        assert(nodes_view(out@) =~= Seq::<NodeV>::empty());
    }
    loop
        invariant
            ptr <= blen,
            blen == body@.len(),
            spec_parse_tree(body@, 0, Seq::empty()) == spec_parse_tree(
                body@,
                ptr as int,
                nodes_view(out@),
            ),
        decreases blen - ptr,
    {
        let sp = match find_byte_exec(body, ptr, 32) {
            Some(i) => i,
            None => {
                return Ok(out);
            },
        };
        proof {
            lemma_find_byte_props(body@, ptr as int, 32);
        }
        let mode_str = sub_bytes(body, ptr, sp);
        let kind = match mode_kind_exec(mode_str.as_slice()) {
            Some(k) => k,
            None => {
                return Err(GitError::MalformedTree);
            },
        };
        let nul = match find_byte_exec(body, sp + 1, 0) {
            Some(i) => i,
            None => {
                return Err(GitError::MalformedTree);
            },
        };
        proof {
            lemma_find_byte_props(body@, sp + 1, 0);
        }
        if blen - nul < 21 {
            return Err(GitError::MalformedTree);
        }
        let name = sub_bytes(body, sp + 1, nul);
        let hash = sub_bytes(body, nul + 1, nul + 21);
        let node = Node { name, kind, hash };
        let ghost prev = nodes_view(out@);
        out.push(node);
        proof {
            assert(nodes_view(out@) =~= prev.push(node@));
        }
        ptr = nul + 21;
    }
}

impl Tree {
    /// Read a directory listing out of a tree object's body.
    pub fn try_from(value: &Object) -> (r: Result<Tree, GitError>)
        ensures
            r is Ok <==> spec_parse_tree(value.body@, 0, Seq::empty()) is Some,
            r is Ok ==> Some(nodes_view(r->Ok_0.nodes@)) == spec_parse_tree(
                value.body@,
                0,
                Seq::empty(),
            ),
            r is Err ==> r->Err_0 == GitError::MalformedTree,
    {
        match parse_tree(value.body.as_slice()) {
            Ok(nodes) => Ok(Tree { nodes }),
            Err(e) => Err(e),
        }
    }
}

/// Appending a node extends the body by that node's bytes.
pub proof fn lemma_tree_body_snoc(nodes: Seq<NodeV>, n: NodeV)
    ensures
        spec_tree_body(nodes.push(n)) == spec_tree_body(nodes) + node_bytes(n),
    decreases nodes.len(),
{
    if nodes.len() == 0 {
        assert(nodes.push(n).skip(1) =~= Seq::<NodeV>::empty());
        assert(nodes.push(n)[0] == n);
        assert(spec_tree_body(nodes.push(n)) == node_bytes(n) + spec_tree_body(
            nodes.push(n).skip(1),
        ));
        assert(spec_tree_body(Seq::<NodeV>::empty()) == Seq::<u8>::empty());
        assert(spec_tree_body(nodes) == Seq::<u8>::empty());
        assert(spec_tree_body(nodes.push(n)) =~= spec_tree_body(nodes) + node_bytes(n));
    } else {
        lemma_tree_body_snoc(nodes.skip(1), n);
        assert(nodes.push(n).skip(1) =~= nodes.skip(1).push(n));
        assert(nodes.push(n)[0] == nodes[0]);
        assert(spec_tree_body(nodes.push(n)) == node_bytes(nodes[0]) + (spec_tree_body(
            nodes.skip(1),
        ) + node_bytes(n)));
        assert(spec_tree_body(nodes) == node_bytes(nodes[0]) + spec_tree_body(nodes.skip(1)));
        assert(node_bytes(nodes[0]) + (spec_tree_body(nodes.skip(1)) + node_bytes(n)) =~= (
        node_bytes(nodes[0]) + spec_tree_body(nodes.skip(1))) + node_bytes(n));
    }
}

/// Emit the wire bytes of a tree body, nodes in the order given.
pub fn emit_tree(nodes: &Vec<Node>) -> (r: Vec<u8>)
    ensures
        r@ == spec_tree_body(nodes_view(nodes@)),
{
    let mut out: Vec<u8> = Vec::new();
    let mut i: usize = 0;
    proof {
        assert(nodes_view(nodes@).subrange(0, 0) =~= Seq::<NodeV>::empty());
    }
    while i < nodes.len()
        invariant
            i <= nodes@.len(),
            out@ == spec_tree_body(nodes_view(nodes@).subrange(0, i as int)),
        decreases nodes@.len() - i,
    {
        let node = &nodes[i];
        let mode_str = oct_bytes(node.kind.mode());
        append_bytes(&mut out, mode_str.as_slice());
        out.push(32);
        append_bytes(&mut out, node.name.as_slice());
        out.push(0);
        append_bytes(&mut out, node.hash.as_slice());
        proof {
            let vs = nodes_view(nodes@);
            assert(vs.subrange(0, i + 1) =~= vs.subrange(0, i as int).push(vs[i as int]));
            lemma_tree_body_snoc(vs.subrange(0, i as int), vs[i as int]);
            assert(out@ =~= spec_tree_body(vs.subrange(0, i as int)) + node_bytes(vs[i as int]));
        }
        i = i + 1;
    }
    proof {
        assert(nodes_view(nodes@).subrange(0, nodes@.len() as int) =~= nodes_view(nodes@));
    }
    out
}

/// Tree round-trip at any offset: if the bytes from `from` on are exactly
/// the body of `nodes`, parsing appends exactly `nodes`.
#[verifier::rlimit(100)]
proof fn lemma_parse_tree_gen(body: Seq<u8>, from: int, acc: Seq<NodeV>, nodes: Seq<NodeV>)
    requires
        0 <= from <= body.len(),
        body.len() - from == spec_tree_body(nodes).len(),
        body.subrange(from, body.len() as int) == spec_tree_body(nodes),
        forall|k: int| 0 <= k < nodes.len() ==> node_wf(#[trigger] nodes[k]),
        forall|k: int| 0 <= k < nodes.len() ==> canonical_mode(#[trigger] nodes[k].kind),
    ensures
        spec_parse_tree(body, from, acc) == Some(acc + nodes),
    decreases nodes.len(),
{
    lemma_mode_strings();
    if nodes.len() == 0 {
        assert(find_byte(body, from, 32) is None) by {
            if find_byte(body, from, 32) is Some {
                lemma_find_byte_props(body, from, 32);
            }
        }
        assert(acc + nodes =~= acc);
    } else {
        let n = nodes[0];
        let nb = node_bytes(n);
        let md = oct_digits(n.kind.spec_mode() as nat);
        lemma_oct_digits_are_digits(n.kind.spec_mode() as nat);
        let rest = spec_tree_body(nodes.skip(1));
        assert(spec_tree_body(nodes) == nb + rest);
        let sp = from + md.len();
        let nul = sp + 1 + n.name.len();
        let next = nul + 21;
        // lay the node's bytes over the body
        let tb = spec_tree_body(nodes);
        assert(node_wf(n) && canonical_mode(n.kind));
        assert forall|i: int| from <= i < body.len() implies body[i] == tb[i - from] by {
            assert(body.subrange(from, body.len() as int)[i - from] == body[i]);
        }
        assert(next - from == nb.len());
        assert(next <= body.len());
        assert(body[sp] == 32) by {
            assert(body[sp] == tb[sp - from]);
        }
        assert forall|i: int| from <= i < sp implies body[i] != 32 && body[i] != 0 by {
            assert(body[i] == tb[i - from]);
            assert(tb[i - from] == md[i - from]);
            assert(crate::encoding::is_dec_digit(md[i - from]));
        }
        lemma_find_byte_at(body, from, sp, 32);
        assert forall|j: int| 0 <= j < md.len() implies body.subrange(from, sp)[j] == md[j] by {
            assert(body.subrange(from, sp)[j] == body[from + j]);
            assert(body[from + j] == tb[j]);
        }
        assert(body.subrange(from, sp) =~= md);
        assert(spec_mode_kind(md) == Some(n.kind));
        assert(body[nul] == 0) by {
            assert(body[nul] == tb[nul - from]);
        }
        assert forall|i: int| sp + 1 <= i < nul implies body[i] != 0 by {
            assert(body[i] == tb[i - from]);
            assert(tb[i - from] == n.name[i - (sp + 1)]);
        }
        lemma_find_byte_at(body, sp + 1, nul, 0);
        assert forall|j: int| 0 <= j < n.name.len() implies body.subrange(sp + 1, nul)[j]
            == n.name[j] by {
            assert(body.subrange(sp + 1, nul)[j] == body[sp + 1 + j]);
            assert(body[sp + 1 + j] == tb[sp + 1 + j - from]);
        }
        assert(body.subrange(sp + 1, nul) =~= n.name);
        assert forall|j: int| 0 <= j < 20 implies body.subrange(nul + 1, nul + 21)[j]
            == n.hash[j] by {
            assert(body.subrange(nul + 1, nul + 21)[j] == body[nul + 1 + j]);
            assert(body[nul + 1 + j] == tb[nul + 1 + j - from]);
        }
        assert(body.subrange(nul + 1, nul + 21) =~= n.hash);
        let acc2 = acc.push(NodeV { name: body.subrange(sp + 1, nul), kind: n.kind, hash: body.subrange(nul + 1, nul + 21) });
        assert(acc2 =~= acc.push(n)) by {
            assert(NodeV { name: body.subrange(sp + 1, nul), kind: n.kind, hash: body.subrange(nul + 1, nul + 21) } == n);
        }
        assert forall|j: int| 0 <= j < rest.len() implies body.subrange(
            next,
            body.len() as int,
        )[j] == rest[j] by {
            assert(body.subrange(next, body.len() as int)[j] == body[next + j]);
            assert(body[next + j] == tb[next + j - from]);
            assert(tb[nb.len() + j] == rest[j]);
        }
        assert(body.subrange(next, body.len() as int) =~= rest);
        assert(forall|k: int| 0 <= k < nodes.skip(1).len() ==> node_wf(#[trigger] nodes.skip(1)[k]));
        assert(forall|k: int|
            0 <= k < nodes.skip(1).len() ==> canonical_mode(#[trigger] nodes.skip(1)[k].kind));
        lemma_parse_tree_gen(body, next, acc.push(n), nodes.skip(1));
        assert(acc.push(n) + nodes.skip(1) =~= acc + nodes);
    }
}

/// Tree round-trip: parsing the emitted body of well-formed nodes with
/// canonical modes yields exactly those nodes.
pub proof fn lemma_tree_roundtrip(nodes: Seq<NodeV>)
    requires
        forall|k: int| 0 <= k < nodes.len() ==> node_wf(#[trigger] nodes[k]),
        forall|k: int| 0 <= k < nodes.len() ==> canonical_mode(#[trigger] nodes[k].kind),
    ensures
        spec_parse_tree(spec_tree_body(nodes), 0, Seq::empty()) == Some(nodes),
{
    let body = spec_tree_body(nodes);
    assert(body.subrange(0, body.len() as int) =~= body);
    lemma_parse_tree_gen(body, 0, Seq::empty(), nodes);
    assert(Seq::empty() + nodes =~= nodes);
}

/// Names weakly ordered by raw byte value: the order tree bodies are written
/// in.
pub open spec fn lex_le(a: Seq<u8>, b: Seq<u8>) -> bool
    decreases a.len(),
{
    if a.len() == 0 {
        true
    } else if b.len() == 0 {
        false
    } else if a[0] < b[0] {
        true
    } else if a[0] > b[0] {
        false
    } else {
        lex_le(a.skip(1), b.skip(1))
    }
}

/// Any two names compare one way or the other.
pub proof fn lemma_lex_le_total(a: Seq<u8>, b: Seq<u8>)
    ensures
        lex_le(a, b) || lex_le(b, a),
    decreases a.len(),
{
    if a.len() != 0 && b.len() != 0 && a[0] == b[0] {
        lemma_lex_le_total(a.skip(1), b.skip(1));
    }
}

/// The byte order is transitive.
pub proof fn lemma_lex_le_trans(a: Seq<u8>, b: Seq<u8>, c: Seq<u8>)
    requires
        lex_le(a, b),
        lex_le(b, c),
    ensures
        lex_le(a, c),
    decreases a.len(),
{
    if a.len() != 0 && b.len() != 0 && c.len() != 0 && a[0] == b[0] && b[0] == c[0] {
        lemma_lex_le_trans(a.skip(1), b.skip(1), c.skip(1));
    }
}

/// Compare two names in raw byte order.
pub fn lex_le_exec(a: &[u8], b: &[u8]) -> (r: bool)
    ensures
        r == lex_le(a@, b@),
{
    let alen = a.len();
    let blen = b.len();
    let mut i: usize = 0;
    proof {
        assert(a@.skip(0) =~= a@);
        assert(b@.skip(0) =~= b@);
    }
    while i < alen && i < blen
        invariant
            i <= alen,
            i <= blen,
            alen == a@.len(),
            blen == b@.len(),
            lex_le(a@, b@) == lex_le(a@.skip(i as int), b@.skip(i as int)),
        decreases alen - i,
    {
        let x = a[i];
        let y = b[i];
        proof {
            assert(a@.skip(i as int)[0] == a@[i as int]);
            assert(b@.skip(i as int)[0] == b@[i as int]);
        }
        if x < y {
            return true;
        }
        if x > y {
            return false;
        }
        proof {
            assert(a@.skip(i as int).skip(1) =~= a@.skip(i + 1));
            assert(b@.skip(i as int).skip(1) =~= b@.skip(i + 1));
        }
        i = i + 1;
    }
    if i == alen {
        proof {
            assert(a@.skip(i as int).len() == 0);
        }
        true
    } else {
        proof {
            assert(b@.skip(i as int).len() == 0);
            assert(a@.skip(i as int).len() != 0);
        }
        false
    }
}

/// The nodes stand in tree order: names weakly ascending in raw byte order.
pub open spec fn sorted_by_name(nodes: Seq<NodeV>) -> bool {
    forall|i: int, j: int| 0 <= i < j < nodes.len() ==> lex_le(nodes[i].name, nodes[j].name)
}

/// Where a name belongs in an already sorted run: the first index whose
/// entry is not below it.
fn insert_pos(name: &[u8], out: &Vec<Node>) -> (k: usize)
    ensures
        k <= out@.len(),
        forall|j: int| 0 <= j < k ==> !lex_le(name@, nodes_view(out@)[j].name),
        k < out@.len() ==> lex_le(name@, nodes_view(out@)[k as int].name),
{
    let mut k: usize = 0;
    while k < out.len()
        invariant
            k <= out@.len(),
            forall|j: int| 0 <= j < k ==> !lex_le(name@, nodes_view(out@)[j].name),
        decreases out@.len() - k,
    {
        if lex_le_exec(name, out[k].name.as_slice()) {
            return k;
        }
        k = k + 1;
    }
    k
}

/// Sort nodes by raw byte order of their names, keeping exactly the same
/// collection of nodes.
pub fn sort_nodes(nodes: Vec<Node>) -> (r: Vec<Node>)
    ensures
        sorted_by_name(nodes_view(r@)),
        nodes_view(r@).to_multiset() == nodes_view(nodes@).to_multiset(),
{
    let mut out: Vec<Node> = Vec::new();
    let mut i: usize = 0;
    proof {
        assert(nodes_view(nodes@.subrange(0, 0)) =~= Seq::<NodeV>::empty());
        assert(nodes_view(out@) =~= Seq::<NodeV>::empty());
    }
    while i < nodes.len()
        invariant
            i <= nodes@.len(),
            sorted_by_name(nodes_view(out@)),
            nodes_view(out@).to_multiset() == nodes_view(nodes@.subrange(0, i as int)).to_multiset(),
        decreases nodes@.len() - i,
    {
        let node = Node {
            name: clone_bytes(&nodes[i].name),
            kind: nodes[i].kind,
            hash: clone_bytes(&nodes[i].hash),
        };
        proof {
            assert(node@ == nodes@[i as int]@);
        }
        let k = insert_pos(node.name.as_slice(), &out);
        let ghost old_view = nodes_view(out@);
        let ghost nd = node@;
        out.insert(k, node);
        proof {
            let nv = nodes_view(out@);
            let a = old_view.subrange(0, k as int);
            let b = old_view.subrange(k as int, old_view.len() as int);
            assert(nv =~= a + seq![nd] + b);
            // the insertion point keeps the order
            assert forall|p: int, q: int| 0 <= p < q < nv.len() implies lex_le(
                nv[p].name,
                nv[q].name,
            ) by {
                if q < k {
                    assert(nv[p] == old_view[p] && nv[q] == old_view[q]);
                } else if p < k && q == k {
                    assert(nv[p] == old_view[p]);
                    lemma_lex_le_total(nd.name, old_view[p].name);
                } else if p < k && q > k {
                    assert(nv[p] == old_view[p] && nv[q] == old_view[q - 1]);
                } else if p == k && q > k {
                    assert(nv[q] == old_view[q - 1]);
                    assert(lex_le(nd.name, old_view[k as int].name));
                    if q - 1 > k {
                        assert(lex_le(old_view[k as int].name, old_view[q - 1].name));
                        lemma_lex_le_trans(nd.name, old_view[k as int].name, old_view[q - 1].name);
                    }
                } else {
                    assert(nv[p] == old_view[p - 1] && nv[q] == old_view[q - 1]);
                }
            }
            // the collection gains exactly the inserted node
            assert(a + b =~= old_view);
            lemma_multiset_commutative(a + seq![nd], b);
            lemma_multiset_commutative(a, seq![nd]);
            lemma_multiset_commutative(a, b);
            assert(seq![nd].to_multiset() =~= Multiset::empty().insert(nd)) by {
                seq![nd].to_multiset_ensures();
                assert(seq![nd] =~= Seq::<NodeV>::empty().push(nd));
                Seq::<NodeV>::empty().to_multiset_ensures();
            }
            assert(nv.to_multiset() =~= old_view.to_multiset().insert(nd));
            let pref = nodes_view(nodes@.subrange(0, i as int));
            let pref2 = nodes_view(nodes@.subrange(0, i + 1));
            assert(pref2 =~= pref.push(nodes@[i as int]@));
            pref.to_multiset_ensures();
            assert(pref2.to_multiset() =~= pref.to_multiset().insert(nd));
        }
        i = i + 1;
    }
    proof {
        assert(nodes@.subrange(0, nodes@.len() as int) =~= nodes@);
    }
    out
}

} // verus!
