//! The graph data model: node and edge kinds and their stable integer codes.

use vstd::prelude::*;
use vstd::utf8::*;

verus! {

/// 16-byte node identifier: the first 128 bits of the content hash.
pub type NodeId = [u8; 16];

/// Kind of a content-addressed graph node.
#[derive(Debug, Clone, Copy, PartialEq, Eq, Structural, Hash)]
pub enum NodeKind {
    File,
    AstChunk,
    Signature,
    DocChunk,
}

/// Integer code of a node kind as stored in the index.
pub open spec fn node_kind_code(k: NodeKind) -> int {
    match k {
        NodeKind::File => 1,
        NodeKind::AstChunk => 2,
        NodeKind::Signature => 3,
        NodeKind::DocChunk => 4,
    }
}

/// Human-readable label of a node kind.
pub open spec fn node_kind_label(k: NodeKind) -> Seq<char> {
    match k {
        NodeKind::File => "file"@,
        NodeKind::AstChunk => "ast_chunk"@,
        NodeKind::Signature => "signature"@,
        NodeKind::DocChunk => "doc_chunk"@,
    }
}

impl NodeKind {
    pub fn as_i64(self) -> (r: i64)
        ensures
            r == node_kind_code(self),
    {
        match self {
            NodeKind::File => 1,
            NodeKind::AstChunk => 2,
            NodeKind::Signature => 3,
            NodeKind::DocChunk => 4,
        }
    }

    pub fn from_i64(v: i64) -> (r: Option<NodeKind>)
        ensures
            r matches Some(k) ==> node_kind_code(k) == v,
            r is None <==> !(1 <= v <= 4),
    {
        match v {
            1 => Some(NodeKind::File),
            2 => Some(NodeKind::AstChunk),
            3 => Some(NodeKind::Signature),
            4 => Some(NodeKind::DocChunk),
            _ => None,
        }
    }

    pub fn label(self) -> (r: &'static str)
        ensures
            r@ == node_kind_label(self),
    {
        proof {
            reveal_strlit("file");
            reveal_strlit("ast_chunk");
            reveal_strlit("signature");
            reveal_strlit("doc_chunk");
        }
        match self {
            NodeKind::File => "file",
            NodeKind::AstChunk => "ast_chunk",
            NodeKind::Signature => "signature",
            NodeKind::DocChunk => "doc_chunk",
        }
    }
}

/// Kind of a directed graph edge.
#[derive(Debug, Clone, Copy, PartialEq, Eq, Structural, Hash)]
pub enum EdgeKind {
    Imports,
    Calls,
    Inherits,
    Implements,
    TestedBy,
    MentionsDoc,
    Supersedes,
}

/// Integer code of an edge kind as stored in the index.
pub open spec fn edge_kind_code(k: EdgeKind) -> int {
    match k {
        EdgeKind::Imports => 1,
        EdgeKind::Calls => 2,
        EdgeKind::Inherits => 3,
        EdgeKind::Implements => 4,
        EdgeKind::TestedBy => 5,
        EdgeKind::MentionsDoc => 6,
        EdgeKind::Supersedes => 7,
    }
}

/// Human-readable label of an edge kind.
pub open spec fn edge_kind_label(k: EdgeKind) -> Seq<char> {
    match k {
        EdgeKind::Imports => "imports"@,
        EdgeKind::Calls => "calls"@,
        EdgeKind::Inherits => "inherits"@,
        EdgeKind::Implements => "implements"@,
        EdgeKind::TestedBy => "tested_by"@,
        EdgeKind::MentionsDoc => "doc_mention"@,
        EdgeKind::Supersedes => "supersedes"@,
    }
}

impl EdgeKind {
    pub fn as_i64(self) -> (r: i64)
        ensures
            r == edge_kind_code(self),
    {
        match self {
            EdgeKind::Imports => 1,
            EdgeKind::Calls => 2,
            EdgeKind::Inherits => 3,
            EdgeKind::Implements => 4,
            EdgeKind::TestedBy => 5,
            EdgeKind::MentionsDoc => 6,
            EdgeKind::Supersedes => 7,
        }
    }

    pub fn from_i64(v: i64) -> (r: Option<EdgeKind>)
        ensures
            r matches Some(k) ==> edge_kind_code(k) == v,
            r is None <==> !(1 <= v <= 7),
    {
        match v {
            1 => Some(EdgeKind::Imports),
            2 => Some(EdgeKind::Calls),
            3 => Some(EdgeKind::Inherits),
            4 => Some(EdgeKind::Implements),
            5 => Some(EdgeKind::TestedBy),
            6 => Some(EdgeKind::MentionsDoc),
            7 => Some(EdgeKind::Supersedes),
            _ => None,
        }
    }

    pub fn label(self) -> (r: &'static str)
        ensures
            r@ == edge_kind_label(self),
    {
        proof {
            reveal_strlit("imports");
            reveal_strlit("calls");
            reveal_strlit("inherits");
            reveal_strlit("implements");
            reveal_strlit("tested_by");
            reveal_strlit("doc_mention");
            reveal_strlit("supersedes");
        }
        match self {
            EdgeKind::Imports => "imports",
            EdgeKind::Calls => "calls",
            EdgeKind::Inherits => "inherits",
            EdgeKind::Implements => "implements",
            EdgeKind::TestedBy => "tested_by",
            EdgeKind::MentionsDoc => "doc_mention",
            EdgeKind::Supersedes => "supersedes",
        }
    }
}

/// Decoding an integer code gives back the kind that encoded it.
pub proof fn lemma_node_kind_code_roundtrip(k: NodeKind, j: NodeKind)
    ensures
        node_kind_code(k) == node_kind_code(j) ==> k == j,
        1 <= node_kind_code(k) <= 4,
{
}

/// Edge-kind codes are distinct and lie in 1..=7.
pub proof fn lemma_edge_kind_code_roundtrip(k: EdgeKind, j: EdgeKind)
    ensures
        edge_kind_code(k) == edge_kind_code(j) ==> k == j,
        1 <= edge_kind_code(k) <= 7,
{
}

/// Lowercase hexadecimal digit of a nibble.
pub open spec fn hex_digit(n: int) -> char {
    if n < 10 {
        (('0' as int) + n) as char
    } else {
        (('a' as int) + n - 10) as char
    }
}

/// A lowercase hexadecimal digit.
pub open spec fn is_lower_hex(c: char) -> bool {
    ('0' <= c <= '9') || ('a' <= c <= 'f')
}

/// Hex text is twice as long as its bytes and made of lowercase digits.
pub proof fn lemma_hex_encode_digits(bytes: Seq<u8>)
    ensures
        hex_encode_spec(bytes).len() == 2 * bytes.len(),
        forall|i: int| 0 <= i < 2 * bytes.len() ==> is_lower_hex(#[trigger] hex_encode_spec(bytes)[i]),
{
    assert forall|i: int| 0 <= i < 2 * bytes.len() implies is_lower_hex(#[trigger] hex_encode_spec(bytes)[i]) by {
        let b = bytes[i / 2];
        assert(0 <= b / 16 < 16);
        assert(0 <= b % 16 < 16);
    }
}

/// Lowercase hexadecimal text of a byte sequence: two digits per byte,
/// high nibble first.
pub open spec fn hex_encode_spec(bytes: Seq<u8>) -> Seq<char> {
    Seq::new(
        2 * bytes.len(),
        |i: int|
            if i % 2 == 0 {
                hex_digit((bytes[i / 2] / 16) as int)
            } else {
                hex_digit((bytes[i / 2] % 16) as int)
            },
    )
}

/// Value of an ASCII hexadecimal digit (either case), if it is one.
pub open spec fn hex_value(b: u8) -> Option<int> {
    if 0x30 <= b <= 0x39 {
        Some(b - 0x30)
    } else if 0x61 <= b <= 0x66 {
        Some(b - 0x61 + 10)
    } else if 0x41 <= b <= 0x46 {
        Some(b - 0x41 + 10)
    } else {
        None
    }
}

/// Decoding of hexadecimal text given as bytes: `None` on odd length or on
/// any byte that is not a hexadecimal digit.
pub open spec fn hex_decode_spec(s: Seq<u8>) -> Option<Seq<u8>> {
    if s.len() % 2 != 0 {
        None
    } else if exists|i: int| 0 <= i < s.len() && #[trigger] hex_value(s[i]) is None {
        None
    } else {
        Some(
            Seq::new(
                s.len() / 2,
                |i: int| (16 * hex_value(s[2 * i])->0 + hex_value(s[2 * i + 1])->0) as u8,
            ),
        )
    }
}

/// Wrapper of `hex::encode`: lowercase hexadecimal text of the bytes.
#[verifier::external_body]
pub(crate) fn hex_encode(data: &[u8]) -> (r: String)
    ensures
        r@ == hex_encode_spec(data@),
{
    hex::encode(data)
}

/// Wrapper of `hex::decode`: succeeds exactly when the text has even length
/// and consists of hexadecimal digits of either case, and then yields the
/// decoded bytes.
#[verifier::external_body]
fn hex_decode(s: &str) -> (r: Option<Vec<u8>>)
    ensures
        r is Some <==> hex_decode_spec(encode_utf8(s@)) is Some,
        r matches Some(v) ==> Some(v@) == hex_decode_spec(encode_utf8(s@)),
{
    match hex::decode(s) {
        Ok(v) => Some(v),
        Err(_) => None,
    }
}

/// Lowercase hexadecimal form of a node id (32 characters).
pub fn id_hex(id: &NodeId) -> (r: String)
    ensures
        r@ == hex_encode_spec(id@),
{
    hex_encode(id.as_slice())
}

/// Parse a node id from hexadecimal text; `None` unless the text decodes to
/// exactly 16 bytes.
pub fn id_from_hex(s: &str) -> (r: Option<NodeId>)
    ensures
        r is Some <==> (hex_decode_spec(encode_utf8(s@)) matches Some(b) && b.len() == 16),
        r matches Some(id) ==> Some(id@) == hex_decode_spec(encode_utf8(s@)),
{
    let bytes = match hex_decode(s) {
        Some(b) => b,
        None => return None,
    };
    if bytes.len() != 16 {
        return None;
    }
    let mut id: NodeId = [0u8; 16];
    let mut i: usize = 0;
    while i < 16
        invariant
            i <= 16,
            bytes@.len() == 16,
            forall|k: int| 0 <= k < i ==> id@[k] == bytes@[k],
        decreases 16 - i,
    {
        id[i] = bytes[i];
        i = i + 1;
    }
    proof {
        assert(id@ =~= bytes@);
    }
    Some(id)
}

/// Reading back the hexadecimal form of a node id gives the id itself.
pub proof fn lemma_id_hex_roundtrip(id: NodeId)
    ensures
        hex_decode_spec(encode_utf8(hex_encode_spec(id@))) == Some(id@),
{
    let t = hex_encode_spec(id@);
    assert(is_ascii_chars(t)) by {
        assert forall|i: int| 0 <= i < t.len() implies '\0' <= #[trigger] t[i] <= '\u{7f}' by {
            let b = id@[i / 2];
            assert(0 <= b / 16 < 16 && 0 <= b % 16 < 16);
        }
    }
    is_ascii_chars_encode_utf8(t);
    let e = encode_utf8(t);
    assert forall|i: int| 0 <= i < e.len() implies #[trigger] hex_value(e[i]) == Some(
        (if i % 2 == 0 { id@[i / 2] / 16 } else { id@[i / 2] % 16 }) as int,
    ) by {
        assert(e[i] == t[i] as u8);
        let b = id@[i / 2];
        assert(0 <= b / 16 < 16 && 0 <= b % 16 < 16);
    }
    let d = hex_decode_spec(e);
    assert(!(exists|i: int| 0 <= i < e.len() && #[trigger] hex_value(e[i]) is None));
    assert forall|i: int| 0 <= i < 16 implies d->0[i] == id@[i] by {
        assert(hex_value(e[2 * i]) == Some((id@[i] / 16) as int));
        assert(hex_value(e[2 * i + 1]) == Some((id@[i] % 16) as int));
    }
    assert(d->0 =~= id@);
}

/// One content-addressed graph node. `content` holds the normalized text.
/// (The index also keeps a structural centrality per node; the planner
/// receives it separately.)
#[derive(Debug)]
pub struct Node {
    pub id: NodeId,
    pub hash: [u8; 32],
    pub kind: NodeKind,
    pub path: String,
    pub symbol: Option<String>,
    pub lang: Option<String>,
    pub role: String,
    pub byte_start: i64,
    pub byte_end: i64,
    pub line_start: i64,
    pub line_end: i64,
    pub tokens: i64,
    pub content: String,
    pub valid: bool,
}

/// Mathematical value of a [`Node`].
pub ghost struct NodeView {
    pub id: NodeId,
    pub hash: [u8; 32],
    pub kind: NodeKind,
    pub path: Seq<char>,
    pub symbol: Option<Seq<char>>,
    pub lang: Option<Seq<char>>,
    pub role: Seq<char>,
    pub byte_start: int,
    pub byte_end: int,
    pub line_start: int,
    pub line_end: int,
    pub tokens: int,
    pub content: Seq<char>,
    pub valid: bool,
}

/// View of an optional string.
pub open spec fn opt_view(s: Option<String>) -> Option<Seq<char>> {
    match s {
        Some(t) => Some(t@),
        None => None,
    }
}

/// Copy of an optional string.
pub fn clone_opt_string(s: &Option<String>) -> (r: Option<String>)
    ensures
        opt_view(r) == opt_view(*s),
{
    match s {
        Some(t) => Some(t.clone()),
        None => None,
    }
}

impl View for Node {
    type V = NodeView;

    open spec fn view(&self) -> NodeView {
        NodeView {
            id: self.id,
            hash: self.hash,
            kind: self.kind,
            path: self.path@,
            symbol: opt_view(self.symbol),
            lang: opt_view(self.lang),
            role: self.role@,
            byte_start: self.byte_start as int,
            byte_end: self.byte_end as int,
            line_start: self.line_start as int,
            line_end: self.line_end as int,
            tokens: self.tokens as int,
            content: self.content@,
            valid: self.valid,
        }
    }
}

impl Node {
    /// A copy of the node.
    pub fn duplicate(&self) -> (r: Node)
        ensures
            r@ == self@,
    {
        Node {
            id: self.id,
            hash: self.hash,
            kind: self.kind,
            path: self.path.clone(),
            symbol: clone_opt_string(&self.symbol),
            lang: clone_opt_string(&self.lang),
            role: self.role.clone(),
            byte_start: self.byte_start,
            byte_end: self.byte_end,
            line_start: self.line_start,
            line_end: self.line_end,
            tokens: self.tokens,
            content: self.content.clone(),
            valid: self.valid,
        }
    }
}

} // verus!
