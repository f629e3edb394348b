//! Incremental indexing decisions: which files need work, what a file's
//! content derives to (chunks, signatures, doc chunks, the file node), and
//! Merkle-style invalidation against the previous derivation.

use vstd::prelude::*;
use vstd::utf8::*;
use crate::hash::{content_hash, hash_preimage, node_id, sha256_hex, sha256_spec};
use crate::markdown::{split_markdown, SectionView, split_markdown_spec};
use crate::model::{hex_encode_spec, opt_view, Node, NodeId, NodeKind, NodeView};
use crate::norm::{norm_chars, pm_norm_1};
use crate::plan::{ids_equal, strings_view};
use crate::plugin::{decls_view, file_lang, file_lang_spec, lang_test_path, plugin_for, plugin_for_spec, Decl, DeclView, FileScan};
use crate::store::{FileRow, FileRowView};
use crate::text::{byte_slice_text, chars_of, clone_strings, lines_of, lines_spec, str_eq, str_get, valid_byte_range};
use crate::tokens::{count, token_count_spec};

verus! {

/// Indexing options.
#[derive(Debug)]
pub struct IndexOptions {
    /// Re-derive every file, ignoring stat and digest shortcuts.
    pub force: bool,
}

impl Default for IndexOptions {
    fn default() -> (r: IndexOptions)
        ensures
            !r.force,
    {
        IndexOptions { force: false }
    }
}

/// What one indexing run did.
#[derive(Debug)]
pub struct IndexReport {
    pub files_seen: usize,
    pub files_indexed: usize,
    pub files_unchanged: usize,
    pub files_deleted: usize,
    pub chunks_new: usize,
    pub chunks_preserved: usize,
    pub chunks_staled: usize,
    pub edges_added: usize,
    pub duration_ms: u128,
    /// (path, reason) of files left out of the graph.
    pub skipped: Vec<(String, String)>,
    pub hot_set_version: i64,
}

impl Default for IndexReport {
    fn default() -> (r: IndexReport)
        ensures
            r.files_seen == 0 && r.files_indexed == 0 && r.files_unchanged == 0
                && r.files_deleted == 0,
            r.chunks_new == 0 && r.chunks_preserved == 0 && r.chunks_staled == 0
                && r.edges_added == 0,
            r.duration_ms == 0 && r.skipped@.len() == 0 && r.hot_set_version == 0,
    {
        IndexReport {
            files_seen: 0,
            files_indexed: 0,
            files_unchanged: 0,
            files_deleted: 0,
            chunks_new: 0,
            chunks_preserved: 0,
            chunks_staled: 0,
            edges_added: 0,
            duration_ms: 0,
            skipped: Vec::new(),
            hot_set_version: 0,
        }
    }
}

/// A file may be passed over on its stat alone: it was indexed (not
/// skipped) with the same mtime and size, and no re-derivation is forced.
pub open spec fn stat_unchanged_spec(existing: Option<FileRowView>, force: bool, mtime: int, size: int) -> bool {
    &&& !force
    &&& existing matches Some(row) && row.mtime == mtime && row.size == size && row.skipped is None
}

/// Whether a file may be passed over on its stat alone.
pub fn stat_unchanged(existing: &Option<FileRow>, force: bool, mtime: i64, size: i64) -> (r: bool)
    ensures
        r == stat_unchanged_spec(
            match existing {
                Some(row) => Some(row@),
                None => None,
            },
            force,
            mtime as int,
            size as int,
        ),
{
    if force {
        return false;
    }
    match existing {
        Some(row) => row.mtime == mtime && row.size == size && row.skipped.is_none(),
        None => false,
    }
}

/// What to do with a file whose bytes were read.
#[derive(Debug)]
pub enum FileAction {
    /// Leave the file out of the graph: the row to store and the reason.
    Skip(FileRow, String),
    /// Same content as indexed: only refresh the stored row's stat.
    Touch(FileRow),
    /// Derive the file anew from its normalized text and that text's digest.
    Index(String, String),
}

/// The row of a file left out of the graph.
pub open spec fn skip_row_ok(row: FileRowView, rel: Seq<char>, reason: Seq<char>, mtime: int, size: int) -> bool {
    &&& row.path == rel && row.file_node is None && row.merkle.len() == 0
    &&& row.mtime == mtime && row.size == size
    &&& row.content_sha is None && row.skipped == Some(reason)
}

/// The decision on a file's bytes: bytes with a NUL are `binary`; bytes that
/// are not UTF-8 are `non-utf8`; otherwise the normalized text is digested,
/// and a file indexed earlier with that digest (and not skipped) is only
/// touched, unless re-derivation is forced; anything else is indexed.
pub open spec fn file_action_ok(
    r: FileAction,
    rel: Seq<char>,
    existing: Option<FileRowView>,
    force: bool,
    raw: Seq<u8>,
    mtime: int,
    size: int,
) -> bool {
    let norm = norm_chars(decode_utf8(raw));
    let sha = hex_encode_spec(sha256_spec(encode_utf8(norm)));
    if raw.contains(0u8) {
        r matches FileAction::Skip(row, why) && why@ == "binary"@ && skip_row_ok(
            row@,
            rel,
            "binary"@,
            mtime,
            size,
        )
    } else if !valid_utf8(raw) {
        r matches FileAction::Skip(row, why) && why@ == "non-utf8"@ && skip_row_ok(
            row@,
            rel,
            "non-utf8"@,
            mtime,
            size,
        )
    } else if !force && (existing matches Some(old) && old.content_sha == Some(sha)
        && old.skipped is None) {
        r matches FileAction::Touch(row) && row@ == (FileRowView { mtime, size, ..existing->0 })
    } else {
        r matches FileAction::Index(n, s) && n@ == norm && s@ == sha
    }
}

fn skip_row(rel: &str, reason: &str, mtime: i64, size: i64) -> (r: FileRow)
    ensures
        skip_row_ok(r@, rel@, reason@, mtime as int, size as int),
{
    FileRow {
        path: rel.to_string(),
        file_node: None,
        merkle: Vec::new(),
        mtime,
        size,
        content_sha: None,
        skipped: Some(reason.to_string()),
    }
}

fn has_nul(raw: &[u8]) -> (r: bool)
    ensures
        r == raw@.contains(0u8),
{
    let mut i: usize = 0;
    while i < raw.len()
        invariant
            i <= raw.len(),
            forall|k: int| 0 <= k < i ==> raw@[k] != 0u8,
        decreases raw.len() - i,
    {
        if raw[i] == 0u8 {
            proof {
                assert(raw@[i as int] == 0u8);
            }
            return true;
        }
        i = i + 1;
    }
    false
}

fn copy_merkle(v: &Vec<(i64, i64, NodeId)>) -> (r: Vec<(i64, i64, NodeId)>)
    ensures
        r@ == v@,
{
    let mut out: Vec<(i64, i64, NodeId)> = Vec::new();
    let mut i: usize = 0;
    while i < v.len()
        invariant
            i <= v.len(),
            out@ == v@.take(i as int),
        decreases v.len() - i,
    {
        let (a, b, id) = v[i];
        out.push((a, b, id));
        i = i + 1;
        proof {
            assert(out@ =~= v@.take(i as int));
        }
    }
    proof {
        assert(v@.take(v.len() as int) =~= v@);
    }
    out
}

/// Copy of a file row.
pub fn copy_row(row: &FileRow) -> (r: FileRow)
    ensures
        r@ == row@,
{
    FileRow {
        path: row.path.clone(),
        file_node: row.file_node,
        merkle: copy_merkle(&row.merkle),
        mtime: row.mtime,
        size: row.size,
        content_sha: crate::model::clone_opt_string(&row.content_sha),
        skipped: crate::model::clone_opt_string(&row.skipped),
    }
}

/// Decide what to do with a file's bytes (see [`file_action_ok`]).
pub fn decide_file(
    rel: &str,
    existing: &Option<FileRow>,
    force: bool,
    raw: &[u8],
    mtime: i64,
    size: i64,
) -> (r: FileAction)
    ensures
        file_action_ok(
            r,
            rel@,
            match existing {
                Some(row) => Some(row@),
                None => None,
            },
            force,
            raw@,
            mtime as int,
            size as int,
        ),
{
    if has_nul(raw) {
        return FileAction::Skip(skip_row(rel, "binary", mtime, size), "binary".to_string());
    }
    let norm = match pm_norm_1(raw) {
        Some(n) => n,
        None => {
            return FileAction::Skip(
                skip_row(rel, "non-utf8", mtime, size),
                "non-utf8".to_string(),
            );
        },
    };
    let sha = sha256_hex(norm.as_str().as_bytes());
    if !force {
        match existing {
            Some(row) => {
                let same = match &row.content_sha {
                    Some(s) => str_eq(s.as_str(), sha.as_str()),
                    None => false,
                };
                if same && row.skipped.is_none() {
                    let mut t = copy_row(row);
                    t.mtime = mtime;
                    t.size = size;
                    return FileAction::Touch(t);
                }
            },
            None => {},
        }
    }
    FileAction::Index(norm, sha)
}

/// Role tag of a file's nodes: `test` for test files, else empty.
pub open spec fn role_spec(is_test: bool) -> Seq<char> {
    if is_test {
        "test"@
    } else {
        ""@
    }
}

/// Whether a file holds tests: by its plugin's rule; a file without a
/// plugin never does.
pub open spec fn is_test_spec(rel: Seq<char>) -> bool {
    match plugin_for_spec(rel) {
        Some(l) => lang_test_path(l, rel),
        None => false,
    }
}

/// `n` is the node of kind `kind` derived from `content` at `path`: its
/// hash is the content hash, its id the hash's first 16 bytes, its token
/// count the exact count of the content, and it is valid.
pub open spec fn derived_node(
    n: NodeView,
    kind: NodeKind,
    path: Seq<char>,
    lang: Seq<char>,
    role: Seq<char>,
    symbol: Option<Seq<char>>,
    span: (int, int, int, int),
    content: Seq<char>,
) -> bool {
    let h = sha256_spec(hash_preimage(kind, lang, content));
    &&& n.hash@ == h
    &&& n.id@ == h.take(16)
    &&& n.kind == kind && n.path == path && n.symbol == symbol && n.lang == Some(lang)
    &&& n.role == role
    &&& n.byte_start == span.0 && n.byte_end == span.1
    &&& n.line_start == span.2 && n.line_end == span.3
    &&& n.tokens == token_count_spec(content) && n.content == content && n.valid
}

fn make_node(
    kind: NodeKind,
    path: &str,
    lang: &str,
    role: &str,
    symbol: Option<String>,
    span: (i64, i64, i64, i64),
    content: &str,
) -> (n: Node)
    ensures
        derived_node(
            n@,
            kind,
            path@,
            lang@,
            role@,
            opt_view(symbol),
            (span.0 as int, span.1 as int, span.2 as int, span.3 as int),
            content@,
        ),
{
    let hash = content_hash(kind, lang, content);
    let id = node_id(&hash);
    Node {
        id,
        hash,
        kind,
        path: path.to_string(),
        symbol,
        lang: Some(lang.to_string()),
        role: role.to_string(),
        byte_start: span.0,
        byte_end: span.1,
        line_start: span.2,
        line_end: span.3,
        tokens: count(content),
        content: content.to_string(),
        valid: true,
    }
}

/// Call/inheritance names of one chunk, waiting for symbol resolution.
#[derive(Debug)]
pub struct PendingEdges {
    pub chunk: NodeId,
    pub path: String,
    pub calls: Vec<String>,
    pub bases: Vec<String>,
    pub impls: Vec<String>,
    pub is_test: bool,
}

/// Import targets of one file, waiting for module resolution.
#[derive(Debug)]
pub struct PendingImports {
    pub file_node: NodeId,
    pub path: String,
    pub modules: Vec<String>,
    pub lang: String,
}

/// A doc chunk, waiting for symbol mentions.
#[derive(Debug)]
pub struct PendingDoc {
    pub doc: NodeId,
    pub content: String,
}

/// The derivation of one declaration: its chunk, its signature, whether the
/// chunk was already a Merkle child of the file, and its pending edges.
#[derive(Debug)]
pub struct ChunkPlan {
    pub chunk: Node,
    pub signature: Node,
    pub preserved: bool,
    pub edges: PendingEdges,
}

/// Span of a declaration as stored: byte and line bounds.
pub open spec fn decl_span(d: DeclView) -> (int, int, int, int) {
    (
        (d.byte_start as i64) as int,
        (d.byte_end as i64) as int,
        (d.line_start as i64) as int,
        (d.line_end as i64) as int,
    )
}

/// The declarations whose byte range is a valid range of the text, in order.
pub open spec fn kept_decls(norm: Seq<char>, ds: Seq<DeclView>) -> Seq<DeclView>
    decreases ds.len(),
{
    if ds.len() == 0 {
        Seq::empty()
    } else {
        let r = kept_decls(norm, ds.drop_last());
        if valid_byte_range(norm, ds.last().byte_start, ds.last().byte_end) {
            r.push(ds.last())
        } else {
            r
        }
    }
}

/// `c` is the derivation of declaration `d` of file `rel`.
pub open spec fn chunk_plan_ok(
    c: ChunkPlan,
    rel: Seq<char>,
    lang: Seq<char>,
    is_test: bool,
    norm: Seq<char>,
    old: Seq<NodeId>,
    d: DeclView,
) -> bool {
    let role = role_spec(is_test);
    &&& derived_node(
        c.chunk@,
        NodeKind::AstChunk,
        rel,
        lang,
        role,
        Some(d.name),
        decl_span(d),
        byte_slice_text(norm, d.byte_start, d.byte_end),
    )
    &&& derived_node(
        c.signature@,
        NodeKind::Signature,
        rel,
        lang,
        role,
        Some(d.name),
        decl_span(d),
        d.signature,
    )
    &&& c.preserved == old.contains(c.chunk.id)
    &&& c.edges.chunk == c.chunk.id && c.edges.path@ == rel && c.edges.is_test == is_test
    &&& strings_view(c.edges.calls@) == d.calls && strings_view(c.edges.bases@) == d.bases
    &&& strings_view(c.edges.impls@) == d.impls
}

/// Whether `id` is one of `ids`.
pub fn contains_id(ids: &Vec<NodeId>, id: &NodeId) -> (r: bool)
    ensures
        r == ids@.contains(*id),
{
    let mut i: usize = 0;
    while i < ids.len()
        invariant
            i <= ids.len(),
            forall|k: int| 0 <= k < i ==> ids@[k] != *id,
        decreases ids.len() - i,
    {
        if ids_equal(&ids[i], id) {
            proof {
                assert(ids@[i as int] == *id);
            }
            return true;
        }
        i = i + 1;
    }
    false
}

fn plan_chunk(
    rel: &str,
    lang: &str,
    is_test: bool,
    norm: &str,
    content: &str,
    old: &Vec<NodeId>,
    d: &Decl,
) -> (r: ChunkPlan)
    requires
        content@ == byte_slice_text(norm@, d.byte_start as int, d.byte_end as int),
    ensures
        chunk_plan_ok(r, rel@, lang@, is_test, norm@, old@, d@),
{
    let role = if is_test {
        "test"
    } else {
        ""
    };
    proof {
        reveal_strlit("test");
        reveal_strlit("");
    }
    let span = (d.byte_start as i64, d.byte_end as i64, d.line_start as i64, d.line_end as i64);
    let chunk = make_node(
        NodeKind::AstChunk,
        rel,
        lang,
        role,
        Some(d.name.clone()),
        span,
        content,
    );
    let signature = make_node(
        NodeKind::Signature,
        rel,
        lang,
        role,
        Some(d.name.clone()),
        span,
        d.signature.as_str(),
    );
    let preserved = contains_id(old, &chunk.id);
    let edges = PendingEdges {
        chunk: chunk.id,
        path: rel.to_string(),
        calls: clone_strings(&d.calls),
        bases: clone_strings(&d.bases),
        impls: clone_strings(&d.impls),
        is_test,
    };
    ChunkPlan { chunk, signature, preserved, edges }
}

/// Derive every declaration whose byte range is valid in the text.
pub fn plan_chunks(
    rel: &str,
    lang: &str,
    is_test: bool,
    norm: &str,
    decls: &Vec<Decl>,
    old: &Vec<NodeId>,
) -> (r: Vec<ChunkPlan>)
    ensures
        r@.len() == kept_decls(norm@, decls_view(decls@)).len(),
        forall|i: int|
            0 <= i < r@.len() ==> chunk_plan_ok(
                #[trigger] r@[i],
                rel@,
                lang@,
                is_test,
                norm@,
                old@,
                kept_decls(norm@, decls_view(decls@))[i],
            ),
{
    let ghost dv = decls_view(decls@);
    let mut out: Vec<ChunkPlan> = Vec::new();
    let mut i: usize = 0;
    while i < decls.len()
        invariant
            i <= decls.len(),
            dv == decls_view(decls@),
            out@.len() == kept_decls(norm@, dv.take(i as int)).len(),
            forall|k: int|
                0 <= k < out@.len() ==> chunk_plan_ok(
                    #[trigger] out@[k],
                    rel@,
                    lang@,
                    is_test,
                    norm@,
                    old@,
                    kept_decls(norm@, dv.take(i as int))[k],
                ),
        decreases decls.len() - i,
    {
        let d = &decls[i];
        let ghost prev = kept_decls(norm@, dv.take(i as int));
        proof {
            assert(dv.take(i + 1).drop_last() =~= dv.take(i as int));
            assert(dv.take(i + 1).last() == d@);
        }
        match str_get(norm, d.byte_start, d.byte_end) {
            Some(content) => {
                let c = plan_chunk(rel, lang, is_test, norm, content, old, d);
                out.push(c);
                proof {
                    let next = kept_decls(norm@, dv.take(i + 1));
                    assert(next == prev.push(d@));
                    assert forall|k: int| 0 <= k < out@.len() implies chunk_plan_ok(
                        #[trigger] out@[k],
                        rel@,
                        lang@,
                        is_test,
                        norm@,
                        old@,
                        next[k],
                    ) by {
                        if k < prev.len() {
                            assert(next[k] == prev[k]);
                        }
                    }
                }
            },
            None => {
                proof {
                    assert(kept_decls(norm@, dv.take(i + 1)) == prev);
                }
            },
        }
        i = i + 1;
    }
    proof {
        assert(dv.take(decls.len() as int) =~= dv);
    }
    out
}

/// Markdown sections long enough (at least 30 bytes) to become doc chunks.
pub open spec fn kept_sections(secs: Seq<SectionView>) -> Seq<SectionView>
    decreases secs.len(),
{
    if secs.len() == 0 {
        Seq::empty()
    } else {
        let r = kept_sections(secs.drop_last());
        if encode_utf8(secs.last().1).len() >= 30 {
            r.push(secs.last())
        } else {
            r
        }
    }
}

/// `n` is the doc chunk of section `sec` of markdown file `rel`.
pub open spec fn doc_node_ok(n: NodeView, rel: Seq<char>, sec: SectionView) -> bool {
    derived_node(
        n,
        NodeKind::DocChunk,
        rel,
        "markdown"@,
        ""@,
        Some(sec.0),
        (0, (encode_utf8(sec.1).len() as i64) as int, (sec.2 as i64) as int, (sec.3 as i64) as int),
        sec.1,
    )
}

/// Doc chunks of a markdown file: one per section of at least 30 bytes.
pub fn plan_docs(rel: &str, norm: &str) -> (r: Vec<Node>)
    ensures
        r@.len() == kept_sections(split_markdown_spec(norm@)).len(),
        forall|i: int|
            0 <= i < r@.len() ==> doc_node_ok(
                #[trigger] r@[i]@,
                rel@,
                kept_sections(split_markdown_spec(norm@))[i],
            ),
{
    let secs = split_markdown(norm);
    let ghost sv = split_markdown_spec(norm@);
    proof {
        reveal_strlit("markdown");
        reveal_strlit("");
    }
    let mut out: Vec<Node> = Vec::new();
    let mut i: usize = 0;
    while i < secs.len()
        invariant
            i <= secs.len(),
            crate::markdown::sections_view(secs@) == sv,
            out@.len() == kept_sections(sv.take(i as int)).len(),
            forall|k: int|
                0 <= k < out@.len() ==> doc_node_ok(
                    #[trigger] out@[k]@,
                    rel@,
                    kept_sections(sv.take(i as int))[k],
                ),
        decreases secs.len() - i,
    {
        let (heading, body, ls, le) = (&secs[i].0, &secs[i].1, secs[i].2, secs[i].3);
        let ghost prev = kept_sections(sv.take(i as int));
        proof {
            assert(sv.take(i + 1).drop_last() =~= sv.take(i as int));
            assert(sv[i as int] == (heading@, body@, ls as int, le as int));
            assert(sv.take(i + 1).last() == sv[i as int]);
        }
        let blen = body.as_str().as_bytes().len();
        if blen >= 30 {
            let n = make_node(
                NodeKind::DocChunk,
                rel,
                "markdown",
                "",
                Some(heading.clone()),
                (0, blen as i64, ls as i64, le as i64),
                body.as_str(),
            );
            out.push(n);
            proof {
                let next = kept_sections(sv.take(i + 1));
                assert(next == prev.push(sv[i as int]));
                assert forall|k: int| 0 <= k < out@.len() implies doc_node_ok(
                    #[trigger] out@[k]@,
                    rel@,
                    next[k],
                ) by {
                    if k < prev.len() {
                        assert(next[k] == prev[k]);
                    }
                }
            }
        } else {
            proof {
                assert(kept_sections(sv.take(i + 1)) == prev);
            }
        }
        i = i + 1;
    }
    proof {
        assert(sv.take(secs.len() as int) =~= sv);
    }
    out
}

/// Span of a file node: the whole text, lines 1 to the line count (at
/// least 1).
pub open spec fn file_span(norm: Seq<char>) -> (int, int, int, int) {
    let lc = (lines_spec(norm).len() as i64) as int;
    (0, (encode_utf8(norm).len() as i64) as int, 1, if lc > 1 { lc } else { 1 })
}

/// The file node of a text.
pub fn plan_file_node(rel: &str, lang: &str, is_test: bool, norm: &str) -> (r: Node)
    ensures
        derived_node(
            r@,
            NodeKind::File,
            rel@,
            lang@,
            role_spec(is_test),
            None,
            file_span(norm@),
            norm@,
        ),
{
    let role = if is_test {
        "test"
    } else {
        ""
    };
    proof {
        reveal_strlit("test");
        reveal_strlit("");
    }
    let lines = lines_of(&chars_of(norm));
    proof {
        assert(lines@.len() == lines@.map_values(|l: Vec<char>| l@).len());
    }
    let lc = lines.len() as i64;
    let line_end = if lc > 1 {
        lc
    } else {
        1
    };
    make_node(NodeKind::File, rel, lang, role, None, (0, norm.as_bytes().len() as i64, 1, line_end), norm)
}

/// The ids in `a` that are not in `b`, each once.
pub fn id_difference(a: &Vec<NodeId>, b: &Vec<NodeId>) -> (r: Vec<NodeId>)
    ensures
        r@.no_duplicates(),
        forall|x: NodeId| r@.contains(x) <==> (a@.contains(x) && !b@.contains(x)),
{
    let mut out: Vec<NodeId> = Vec::new();
    let mut i: usize = 0;
    while i < a.len()
        invariant
            i <= a.len(),
            out@.no_duplicates(),
            forall|x: NodeId| out@.contains(x) <==> (a@.take(i as int).contains(x) && !b@.contains(x)),
        decreases a.len() - i,
    {
        let x = a[i];
        let ghost prev = out@;
        let ghost ta = a@.take(i as int);
        proof {
            assert(a@.take(i + 1) =~= ta.push(x));
        }
        if !contains_id(b, &x) && !contains_id(&out, &x) {
            out.push(x);
            proof {
                assert(out@ == prev.push(x));
                assert forall|y: NodeId| out@.contains(y) implies prev.contains(y) || y == x by {
                    let k = choose|k: int| 0 <= k < out@.len() && out@[k] == y;
                    if k < prev.len() {
                        assert(prev[k] == y);
                    }
                }
                assert(out@[prev.len() as int] == x);
                assert forall|y: NodeId| prev.contains(y) implies out@.contains(y) by {
                    let k = choose|k: int| 0 <= k < prev.len() && prev[k] == y;
                    assert(out@[k] == y);
                }
                assert forall|k1: int, k2: int| 0 <= k1 < k2 < out@.len() implies out@[k1] != out@[k2] by {
                    if k2 == prev.len() {
                        assert(prev[k1] == out@[k1]);
                    } else {
                        assert(prev[k1] == out@[k1] && prev[k2] == out@[k2]);
                    }
                }
            }
        }
        i = i + 1;
        proof {
            let tb = a@.take(i as int);
            assert(tb == ta.push(x));
            assert forall|y: NodeId| tb.contains(y) implies ta.contains(y) || y == x by {
                let k = choose|k: int| 0 <= k < tb.len() && tb[k] == y;
                if k < ta.len() {
                    assert(ta[k] == y);
                }
            }
            assert(tb[ta.len() as int] == x);
            assert forall|y: NodeId| ta.contains(y) implies tb.contains(y) by {
                let k = choose|k: int| 0 <= k < ta.len() && ta[k] == y;
                assert(tb[k] == y);
            }
            assert forall|y: NodeId| out@.contains(y) <==> (tb.contains(y) && !b@.contains(y)) by {
                assert(prev.contains(y) <==> (ta.contains(y) && !b@.contains(y)));
                assert(prev.contains(x) <==> (ta.contains(x) && !b@.contains(x)));
            }
        }
    }
    proof {
        assert(a@.take(a.len() as int) =~= a@);
    }
    out
}

/// Everything derived from one file's normalized text, and the Merkle
/// bookkeeping against its previous derivation.
#[derive(Debug)]
pub struct FilePlan {
    pub lang: String,
    pub is_test: bool,
    pub chunks: Vec<ChunkPlan>,
    pub docs: Vec<Node>,
    pub doc_mentions: Vec<PendingDoc>,
    pub file_node: Node,
    pub imports: Option<PendingImports>,
    /// Previous chunks not derived again: they become stale.
    pub staled: Vec<NodeId>,
    /// Chunks not among the previous ones.
    pub added: Vec<NodeId>,
    /// (new, old) when exactly one chunk replaced exactly one other.
    pub supersedes: Option<(NodeId, NodeId)>,
    /// The file's new row.
    pub row: FileRow,
}

/// Chunk ids of a file's previous derivation.
pub open spec fn old_ids_spec(existing: Option<FileRowView>) -> Seq<NodeId> {
    match existing {
        Some(row) => row.merkle.map_values(|m: (i64, i64, NodeId)| m.2),
        None => Seq::empty(),
    }
}

/// Ids of planned chunks.
pub open spec fn chunk_ids(cs: Seq<ChunkPlan>) -> Seq<NodeId> {
    cs.map_values(|c: ChunkPlan| c.chunk.id)
}

/// Merkle children of planned chunks: (byte_start, byte_end, id).
pub open spec fn chunk_children(cs: Seq<ChunkPlan>) -> Seq<(i64, i64, NodeId)> {
    cs.map_values(|c: ChunkPlan| (c.chunk.byte_start, c.chunk.byte_end, c.chunk.id))
}

/// `r` holds exactly the ids in `a` but not in `b`, each once.
pub open spec fn is_difference(r: Seq<NodeId>, a: Seq<NodeId>, b: Seq<NodeId>) -> bool {
    r.no_duplicates() && forall|x: NodeId| r.contains(x) <==> (a.contains(x) && !b.contains(x))
}

/// The full contract of [`plan_file`].
pub open spec fn file_plan_ok(
    r: FilePlan,
    rel: Seq<char>,
    norm: Seq<char>,
    sha: Seq<char>,
    mtime: int,
    size: int,
    scan_decls: Seq<DeclView>,
    scan_imports: Seq<Seq<char>>,
    existing: Option<FileRowView>,
) -> bool {
    let lang = file_lang_spec(rel);
    let is_test = is_test_spec(rel);
    let old = old_ids_spec(existing);
    let kept = kept_decls(norm, scan_decls);
    let docs = if lang == "markdown"@ {
        kept_sections(split_markdown_spec(norm))
    } else {
        Seq::empty()
    };
    let new = chunk_ids(r.chunks@);
    &&& r.lang@ == lang && r.is_test == is_test
    &&& r.chunks@.len() == kept.len()
    &&& forall|i: int|
        0 <= i < kept.len() ==> chunk_plan_ok(#[trigger] r.chunks@[i], rel, lang, is_test, norm, old, kept[i])
    &&& r.docs@.len() == docs.len()
    &&& forall|i: int| 0 <= i < docs.len() ==> doc_node_ok(#[trigger] r.docs@[i]@, rel, docs[i])
    &&& r.doc_mentions@.len() == docs.len()
    &&& forall|i: int|
        0 <= i < docs.len() ==> #[trigger] r.doc_mentions@[i].doc == r.docs@[i].id
            && r.doc_mentions@[i].content@ == docs[i].1
    &&& derived_node(r.file_node@, NodeKind::File, rel, lang, role_spec(is_test), None, file_span(norm), norm)
    &&& (r.imports is Some <==> scan_imports.len() > 0)
    &&& r.imports matches Some(pi) ==> pi.file_node == r.file_node.id && pi.path@ == rel
        && strings_view(pi.modules@) == scan_imports && pi.lang@ == lang
    &&& is_difference(r.staled@, old, new)
    &&& is_difference(r.added@, new, old)
    &&& r.supersedes == (if r.staled@.len() == 1 && r.added@.len() == 1 {
        Some((r.added@[0], r.staled@[0]))
    } else {
        None
    })
    &&& r.row@ == (FileRowView {
        path: rel,
        file_node: Some(r.file_node.id),
        merkle: chunk_children(r.chunks@),
        mtime,
        size,
        content_sha: Some(sha),
        skipped: None,
    })
}

fn old_ids(existing: &Option<FileRow>) -> (r: Vec<NodeId>)
    ensures
        r@ == old_ids_spec(
            match existing {
                Some(row) => Some(row@),
                None => None,
            },
        ),
{
    let mut out: Vec<NodeId> = Vec::new();
    match existing {
        Some(row) => {
            let mut i: usize = 0;
            while i < row.merkle.len()
                invariant
                    i <= row.merkle.len(),
                    out@ == row.merkle@.take(i as int).map_values(|m: (i64, i64, NodeId)| m.2),
                decreases row.merkle.len() - i,
            {
                out.push(row.merkle[i].2);
                i = i + 1;
                proof {
                    assert(out@ =~= row.merkle@.take(i as int).map_values(
                        |m: (i64, i64, NodeId)| m.2,
                    ));
                }
            }
            proof {
                assert(row.merkle@.take(row.merkle.len() as int) =~= row.merkle@);
            }
        },
        None => {
            proof {
                assert(out@ =~= Seq::<NodeId>::empty());
            }
        },
    }
    out
}

fn ids_and_children(cs: &Vec<ChunkPlan>) -> (r: (Vec<NodeId>, Vec<(i64, i64, NodeId)>))
    ensures
        r.0@ == chunk_ids(cs@),
        r.1@ == chunk_children(cs@),
{
    let mut ids: Vec<NodeId> = Vec::new();
    let mut ch: Vec<(i64, i64, NodeId)> = Vec::new();
    let mut i: usize = 0;
    while i < cs.len()
        invariant
            i <= cs.len(),
            ids@ == chunk_ids(cs@.take(i as int)),
            ch@ == chunk_children(cs@.take(i as int)),
        decreases cs.len() - i,
    {
        let c = &cs[i].chunk;
        ids.push(c.id);
        ch.push((c.byte_start, c.byte_end, c.id));
        i = i + 1;
        proof {
            assert(ids@ =~= chunk_ids(cs@.take(i as int)));
            assert(ch@ =~= chunk_children(cs@.take(i as int)));
        }
    }
    proof {
        assert(cs@.take(cs.len() as int) =~= cs@);
    }
    (ids, ch)
}

fn doc_mentions(docs: &Vec<Node>) -> (r: Vec<PendingDoc>)
    ensures
        r@.len() == docs@.len(),
        forall|i: int|
            0 <= i < docs@.len() ==> #[trigger] r@[i].doc == docs@[i].id && r@[i].content@
                == docs@[i].content@,
{
    let mut out: Vec<PendingDoc> = Vec::new();
    let mut i: usize = 0;
    while i < docs.len()
        invariant
            i <= docs.len(),
            out@.len() == i,
            forall|k: int|
                0 <= k < i ==> #[trigger] out@[k].doc == docs@[k].id && out@[k].content@
                    == docs@[k].content@,
        decreases docs.len() - i,
    {
        out.push(PendingDoc { doc: docs[i].id, content: docs[i].content.clone() });
        i = i + 1;
    }
    out
}

/// Derive a file: chunks and signatures for each declaration the scan found
/// (in a valid byte range), doc chunks for markdown sections, the file node,
/// pending imports, and invalidation of the previous derivation.
pub fn plan_file(
    rel: &str,
    norm: &str,
    sha: &str,
    mtime: i64,
    size: i64,
    scan: &FileScan,
    existing: &Option<FileRow>,
) -> (r: FilePlan)
    ensures
        file_plan_ok(
            r,
            rel@,
            norm@,
            sha@,
            mtime as int,
            size as int,
            decls_view(scan.decls@),
            strings_view(scan.imports@),
            match existing {
                Some(row) => Some(row@),
                None => None,
            },
        ),
{
    let lang = file_lang(rel);
    let is_test = match plugin_for(rel) {
        Some(l) => l.is_test_path(rel),
        None => false,
    };
    let old = old_ids(existing);
    let chunks = plan_chunks(rel, lang.as_str(), is_test, norm, &scan.decls, &old);
    proof {
        reveal_strlit("markdown");
    }
    let docs = if str_eq(lang.as_str(), "markdown") {
        plan_docs(rel, norm)
    } else {
        Vec::new()
    };
    let mentions = doc_mentions(&docs);
    proof {
        let kd = if lang@ == "markdown"@ {
            kept_sections(split_markdown_spec(norm@))
        } else {
            Seq::empty()
        };
        assert forall|i: int| 0 <= i < kd.len() implies #[trigger] mentions@[i].content@ == kd[i].1 by {
            assert(mentions@[i].doc == docs@[i].id);
            assert(doc_node_ok(docs@[i]@, rel@, kd[i]));
        }
    }
    let file_node = plan_file_node(rel, lang.as_str(), is_test, norm);
    let imports = if scan.imports.len() > 0 {
        Some(
            PendingImports {
                file_node: file_node.id,
                path: rel.to_string(),
                modules: clone_strings(&scan.imports),
                lang: lang.clone(),
            },
        )
    } else {
        None
    };
    let (new, children) = ids_and_children(&chunks);
    let staled = id_difference(&old, &new);
    let added = id_difference(&new, &old);
    let supersedes = if staled.len() == 1 && added.len() == 1 {
        Some((added[0], staled[0]))
    } else {
        None
    };
    let row = FileRow {
        path: rel.to_string(),
        file_node: Some(file_node.id),
        merkle: children,
        mtime,
        size,
        content_sha: Some(sha.to_string()),
        skipped: None,
    };
    FilePlan {
        lang,
        is_test,
        chunks,
        docs,
        doc_mentions: mentions,
        file_node,
        imports,
        staled,
        added,
        supersedes,
        row,
    }
}

/// Whether an indexed file differs from its row on disk: it is gone
/// (`stat` is `None`), or its mtime or size changed.
pub fn is_dirty(row: &FileRow, stat: Option<(i64, i64)>) -> (r: bool)
    ensures
        r == match stat {
            Some((mtime, size)) => mtime != row.mtime || size != row.size,
            None => true,
        },
{
    match stat {
        Some((mtime, size)) => mtime != row.mtime || size != row.size,
        None => true,
    }
}

/// The scan of a file from its parse: its plugin's scan of the nodes;
/// nothing for a file without a plugin or that did not parse.
pub open spec fn scan_parsed_spec(
    rel: Seq<char>,
    norm: Seq<char>,
    nodes: Option<Seq<crate::syntax::SyntaxNodeView>>,
) -> (Seq<DeclView>, Seq<Seq<char>>) {
    match (plugin_for_spec(rel), nodes) {
        (Some(l), Some(t)) => crate::langs::lang_scan(l, t, norm),
        _ => (Seq::empty(), Seq::empty()),
    }
}

/// The scan of a file from its parsed nodes (see [`scan_parsed_spec`]).
pub fn scan_parsed(rel: &str, norm: &str, nodes: &Option<Vec<crate::syntax::SyntaxNode>>) -> (r: FileScan)
    ensures
        (decls_view(r.decls@), strings_view(r.imports@)) == scan_parsed_spec(
            rel@,
            norm@,
            match nodes {
                Some(ns) => Some(crate::syntax::nodes_view(ns@)),
                None => None,
            },
        ),
{
    match (plugin_for(rel), nodes) {
        (Some(l), Some(ns)) => l.scan(ns, norm),
        _ => {
            let r = FileScan::default();
            proof {
                assert(decls_view(r.decls@) =~= Seq::<DeclView>::empty());
                assert(strings_view(r.imports@) =~= Seq::<Seq<char>>::empty());
            }
            r
        },
    }
}

/// The parse a file gets: its plugin's grammar applied to its text (see
/// [`crate::syntax::parsed_nodes`]); none for a file without a plugin.
pub open spec fn file_parse(rel: Seq<char>, norm: Seq<char>) -> Option<Seq<crate::syntax::SyntaxNodeView>> {
    match plugin_for_spec(rel) {
        Some(l) => crate::syntax::parsed_nodes(l, norm),
        None => None,
    }
}

/// Derive a file: parse it with its plugin's grammar, scan it, and plan its
/// nodes; a file without a plugin, or one the parser gives up on, is
/// planned from an empty scan.
pub fn index_file(
    rel: &str,
    norm: &str,
    sha: &str,
    mtime: i64,
    size: i64,
    existing: &Option<FileRow>,
) -> (r: FilePlan)
    ensures
        file_plan_ok(
            r,
            rel@,
            norm@,
            sha@,
            mtime as int,
            size as int,
            scan_parsed_spec(rel@, norm@, file_parse(rel@, norm@)).0,
            scan_parsed_spec(rel@, norm@, file_parse(rel@, norm@)).1,
            match existing {
                Some(row) => Some(row@),
                None => None,
            },
        ),
{
    let nodes = match plugin_for(rel) {
        Some(l) => crate::syntax::parse(l, norm),
        None => None,
    };
    let scan = scan_parsed(rel, norm, &nodes);
    let r = plan_file(rel, norm, sha, mtime, size, &scan, existing);
    proof {
        let nv = match nodes {
            Some(ns) => Some(crate::syntax::nodes_view(ns@)),
            None => None,
        };
        assert(nv == file_parse(rel@, norm@));
        assert(scan_parsed_spec(rel@, norm@, nv) == (decls_view(scan.decls@), strings_view(scan.imports@)));
    }
    r
}

/// Content addressing: nodes derived with the same kind, language and
/// content have the same hash and id, whatever their path, role, symbol or
/// span.
pub proof fn lemma_same_content_same_id(
    n1: NodeView,
    n2: NodeView,
    kind: NodeKind,
    lang: Seq<char>,
    content: Seq<char>,
    p1: Seq<char>,
    p2: Seq<char>,
    r1: Seq<char>,
    r2: Seq<char>,
    s1: Option<Seq<char>>,
    s2: Option<Seq<char>>,
    sp1: (int, int, int, int),
    sp2: (int, int, int, int),
)
    requires
        derived_node(n1, kind, p1, lang, r1, s1, sp1, content),
        derived_node(n2, kind, p2, lang, r2, s2, sp2, content),
    ensures
        n1.id == n2.id,
        n1.hash == n2.hash,
{
    assert(n1.id@ =~= n2.id@);
    assert(n1.hash@ =~= n2.hash@);
    assert(n1.id =~= n2.id);
    assert(n1.hash =~= n2.hash);
}

/// Chunks survive edits elsewhere: when a file is derived again against
/// the row of its previous derivation, a new chunk with the content of a
/// previous chunk is preserved, and that previous chunk is not staled.
pub proof fn lemma_unchanged_chunk_preserved(
    prev: FilePlan,
    r: FilePlan,
    rel: Seq<char>,
    norm1: Seq<char>,
    norm2: Seq<char>,
    sha1: Seq<char>,
    sha2: Seq<char>,
    mtime1: int,
    mtime2: int,
    size1: int,
    size2: int,
    decls1: Seq<DeclView>,
    decls2: Seq<DeclView>,
    imports1: Seq<Seq<char>>,
    imports2: Seq<Seq<char>>,
    existing: Option<FileRowView>,
    i: int,
    j: int,
)
    requires
        file_plan_ok(prev, rel, norm1, sha1, mtime1, size1, decls1, imports1, existing),
        file_plan_ok(r, rel, norm2, sha2, mtime2, size2, decls2, imports2, Some(prev.row@)),
        0 <= i < r.chunks@.len(),
        0 <= j < prev.chunks@.len(),
        r.chunks@[i].chunk@.content == prev.chunks@[j].chunk@.content,
    ensures
        r.chunks@[i].preserved,
        r.chunks@[i].chunk.id == prev.chunks@[j].chunk.id,
        !r.staled@.contains(prev.chunks@[j].chunk.id),
{
    let lang = file_lang_spec(rel);
    let k1 = kept_decls(norm1, decls1);
    let k2 = kept_decls(norm2, decls2);
    assert(chunk_plan_ok(prev.chunks@[j], rel, lang, is_test_spec(rel), norm1, old_ids_spec(existing), k1[j]));
    assert(chunk_plan_ok(r.chunks@[i], rel, lang, is_test_spec(rel), norm2, old_ids_spec(Some(prev.row@)), k2[i]));
    let n1 = prev.chunks@[j].chunk@;
    let n2 = r.chunks@[i].chunk@;
    lemma_same_content_same_id(
        n1,
        n2,
        NodeKind::AstChunk,
        lang,
        n1.content,
        n1.path,
        n2.path,
        n1.role,
        n2.role,
        n1.symbol,
        n2.symbol,
        (n1.byte_start, n1.byte_end, n1.line_start, n1.line_end),
        (n2.byte_start, n2.byte_end, n2.line_start, n2.line_end),
    );
    let old = old_ids_spec(Some(prev.row@));
    assert(old[j] == prev.chunks@[j].chunk.id);
    assert(old.contains(prev.chunks@[j].chunk.id));
    let new = chunk_ids(r.chunks@);
    assert(new[i] == r.chunks@[i].chunk.id);
    assert(new.contains(prev.chunks@[j].chunk.id));
}

/// Re-deriving unchanged text against the previous derivation's row stales
/// nothing, adds nothing, and preserves every chunk.
pub proof fn lemma_reindex_unchanged(
    prev: FilePlan,
    r: FilePlan,
    rel: Seq<char>,
    norm: Seq<char>,
    sha1: Seq<char>,
    sha2: Seq<char>,
    mtime1: int,
    mtime2: int,
    size1: int,
    size2: int,
    decls: Seq<DeclView>,
    imports: Seq<Seq<char>>,
    existing: Option<FileRowView>,
)
    requires
        file_plan_ok(prev, rel, norm, sha1, mtime1, size1, decls, imports, existing),
        file_plan_ok(r, rel, norm, sha2, mtime2, size2, decls, imports, Some(prev.row@)),
    ensures
        r.staled@.len() == 0,
        r.added@.len() == 0,
        r.supersedes is None,
        forall|i: int| 0 <= i < r.chunks@.len() ==> (#[trigger] r.chunks@[i]).preserved,
        r.chunks@.len() == prev.chunks@.len(),
        forall|i: int| 0 <= i < r.chunks@.len() ==> (#[trigger] r.chunks@[i]).chunk.id == prev.chunks@[i].chunk.id,
{
    let old = old_ids_spec(Some(prev.row@));
    let new = chunk_ids(r.chunks@);
    assert forall|i: int| 0 <= i < r.chunks@.len() implies #[trigger] r.chunks@[i].chunk.id
        == prev.chunks@[i].chunk.id && (r.chunks@[i]).preserved by {
        let k = kept_decls(norm, decls);
        let lang = file_lang_spec(rel);
        assert(chunk_plan_ok(prev.chunks@[i], rel, lang, is_test_spec(rel), norm, old_ids_spec(existing), k[i]));
        assert(chunk_plan_ok(r.chunks@[i], rel, lang, is_test_spec(rel), norm, old, k[i]));
        lemma_unchanged_chunk_preserved(
            prev, r, rel, norm, norm, sha1, sha2, mtime1, mtime2, size1, size2, decls, decls,
            imports, imports, existing, i, i,
        );
    }
    assert(new =~= old);
    if r.staled@.len() > 0 {
        assert(r.staled@.contains(r.staled@[0]));
    }
    if r.added@.len() > 0 {
        assert(r.added@.contains(r.added@[0]));
    }
}

/// What applying one file's plan adds to a run's chunk counts.
#[derive(Debug, Clone, Copy, PartialEq, Eq, Structural)]
pub struct PlanCounts {
    /// Chunks the store did not hold before.
    pub new: usize,
    /// Chunks the store held and the plan keeps from the previous derivation.
    pub preserved: usize,
    /// Previous chunks the store marked stale.
    pub staled: usize,
}

/// Number of planned chunks the store newly took in (`inserted[i]`).
pub open spec fn count_new(inserted: Seq<bool>) -> int
    decreases inserted.len(),
{
    if inserted.len() == 0 {
        0
    } else {
        count_new(inserted.drop_last()) + if inserted.last() {
            1int
        } else {
            0int
        }
    }
}

/// Number of planned chunks the store already held that the plan preserves.
pub open spec fn count_preserved(cs: Seq<ChunkPlan>, inserted: Seq<bool>) -> int
    decreases inserted.len(),
{
    if inserted.len() == 0 {
        0
    } else {
        let i = inserted.len() - 1;
        count_preserved(cs, inserted.drop_last()) + if !inserted[i] && cs[i].preserved {
            1int
        } else {
            0int
        }
    }
}

/// Counts of one applied plan, given for each planned chunk whether the
/// store newly took it in and for each staled chunk whether the store
/// marked it stale.
pub open spec fn plan_counts_spec(plan: FilePlan, inserted: Seq<bool>, marked: Seq<bool>) -> (int, int, int) {
    (count_new(inserted), count_preserved(plan.chunks@, inserted), count_new(marked))
}

/// Counts of one applied plan (see [`plan_counts_spec`]).
pub fn plan_counts(plan: &FilePlan, inserted: &Vec<bool>, marked: &Vec<bool>) -> (r: PlanCounts)
    requires
        inserted.len() == plan.chunks.len(),
        marked.len() == plan.staled.len(),
    ensures
        (r.new as int, r.preserved as int, r.staled as int) == plan_counts_spec(*plan, inserted@, marked@),
{
    let mut new: usize = 0;
    let mut preserved: usize = 0;
    let mut i: usize = 0;
    while i < inserted.len()
        invariant
            i <= inserted.len() == plan.chunks.len(),
            new == count_new(inserted@.take(i as int)),
            preserved == count_preserved(plan.chunks@, inserted@.take(i as int)),
            new + preserved <= i,
        decreases inserted.len() - i,
    {
        proof {
            assert(inserted@.take(i + 1).drop_last() =~= inserted@.take(i as int));
            lemma_count_preserved_prefix(plan.chunks@, inserted@, i as int);
        }
        if inserted[i] {
            new = new + 1;
        } else if plan.chunks[i].preserved {
            preserved = preserved + 1;
        }
        i = i + 1;
    }
    let mut staled: usize = 0;
    let mut k: usize = 0;
    while k < marked.len()
        invariant
            k <= marked.len(),
            staled == count_new(marked@.take(k as int)),
            staled <= k,
        decreases marked.len() - k,
    {
        proof {
            assert(marked@.take(k + 1).drop_last() =~= marked@.take(k as int));
        }
        if marked[k] {
            staled = staled + 1;
        }
        k = k + 1;
    }
    proof {
        assert(inserted@.take(inserted.len() as int) =~= inserted@);
        assert(marked@.take(marked.len() as int) =~= marked@);
    }
    PlanCounts { new, preserved, staled }
}

impl IndexReport {
    /// Adds one applied plan's chunk counts to the run's totals.
    pub fn add_plan_counts(&mut self, c: PlanCounts)
        requires
            old(self).chunks_new + c.new <= usize::MAX,
            old(self).chunks_preserved + c.preserved <= usize::MAX,
            old(self).chunks_staled + c.staled <= usize::MAX,
        ensures
            final(self).chunks_new == old(self).chunks_new + c.new,
            final(self).chunks_preserved == old(self).chunks_preserved + c.preserved,
            final(self).chunks_staled == old(self).chunks_staled + c.staled,
            final(self).files_seen == old(self).files_seen,
            final(self).files_indexed == old(self).files_indexed,
            final(self).files_unchanged == old(self).files_unchanged,
            final(self).files_deleted == old(self).files_deleted,
            final(self).edges_added == old(self).edges_added,
            final(self).duration_ms == old(self).duration_ms,
            final(self).skipped@ == old(self).skipped@,
            final(self).hot_set_version == old(self).hot_set_version,
    {
        self.chunks_new = self.chunks_new + c.new;
        self.chunks_preserved = self.chunks_preserved + c.preserved;
        self.chunks_staled = self.chunks_staled + c.staled;
    }
}

proof fn lemma_count_preserved_prefix(cs: Seq<ChunkPlan>, inserted: Seq<bool>, i: int)
    requires
        0 <= i < inserted.len(),
    ensures
        count_preserved(cs, inserted.take(i + 1)) == count_preserved(cs, inserted.take(i)) + if !inserted[i]
            && cs[i].preserved {
            1int
        } else {
            0int
        },
{
    assert(inserted.take(i + 1).drop_last() =~= inserted.take(i));
}

proof fn lemma_counts_all_held(cs: Seq<ChunkPlan>, inserted: Seq<bool>)
    requires
        inserted.len() <= cs.len(),
        forall|i: int| 0 <= i < inserted.len() ==> !(#[trigger] inserted[i]),
        forall|i: int| 0 <= i < cs.len() ==> (#[trigger] cs[i]).preserved,
    ensures
        count_new(inserted) == 0,
        count_preserved(cs, inserted) == inserted.len(),
    decreases inserted.len(),
{
    if inserted.len() > 0 {
        let pre = inserted.drop_last();
        assert forall|i: int| 0 <= i < pre.len() implies !(#[trigger] pre[i]) by {
            assert(pre[i] == inserted[i]);
        }
        lemma_counts_all_held(cs, pre);
        assert(!inserted[inserted.len() - 1]);
        assert(cs[inserted.len() - 1].preserved);
    }
}

/// The plan re-derives a file whose content did not change since the
/// previous plan.
pub open spec fn replans_unchanged(prev: FilePlan, r: FilePlan) -> bool {
    exists|
        rel: Seq<char>,
        norm: Seq<char>,
        sha1: Seq<char>,
        sha2: Seq<char>,
        mtime1: int,
        mtime2: int,
        size1: int,
        size2: int,
        decls: Seq<DeclView>,
        imports: Seq<Seq<char>>,
        existing: Option<FileRowView>,
    |
        #![trigger file_plan_ok(prev, rel, norm, sha1, mtime1, size1, decls, imports, existing), file_plan_ok(r, rel, norm, sha2, mtime2, size2, decls, imports, Some(prev.row@))]
        file_plan_ok(prev, rel, norm, sha1, mtime1, size1, decls, imports, existing) && file_plan_ok(
            r,
            rel,
            norm,
            sha2,
            mtime2,
            size2,
            decls,
            imports,
            Some(prev.row@),
        )
}

/// Re-indexing a file whose content did not change, against a store that
/// holds its previous chunks, counts no new and no staled chunk, and every
/// chunk as preserved.
pub proof fn lemma_unchanged_file_counts(prev: FilePlan, r: FilePlan, inserted: Seq<bool>, marked: Seq<bool>)
    requires
        replans_unchanged(prev, r),
        inserted.len() == r.chunks@.len(),
        marked.len() == r.staled@.len(),
        forall|i: int| 0 <= i < inserted.len() ==> !(#[trigger] inserted[i]),
    ensures
        plan_counts_spec(r, inserted, marked) == (0int, r.chunks@.len() as int, 0int),
        r.chunks@.len() == prev.chunks@.len(),
{
    let (rel, norm, sha1, sha2, mtime1, mtime2, size1, size2, decls, imports, existing) = choose|
        rel: Seq<char>,
        norm: Seq<char>,
        sha1: Seq<char>,
        sha2: Seq<char>,
        mtime1: int,
        mtime2: int,
        size1: int,
        size2: int,
        decls: Seq<DeclView>,
        imports: Seq<Seq<char>>,
        existing: Option<FileRowView>,
    |
        #![trigger file_plan_ok(prev, rel, norm, sha1, mtime1, size1, decls, imports, existing), file_plan_ok(r, rel, norm, sha2, mtime2, size2, decls, imports, Some(prev.row@))]
        file_plan_ok(prev, rel, norm, sha1, mtime1, size1, decls, imports, existing) && file_plan_ok(
            r,
            rel,
            norm,
            sha2,
            mtime2,
            size2,
            decls,
            imports,
            Some(prev.row@),
        );
    lemma_reindex_unchanged(prev, r, rel, norm, sha1, sha2, mtime1, mtime2, size1, size2, decls, imports, existing);
    lemma_counts_all_held(r.chunks@, inserted);
    assert(marked.len() == 0);
}

/// Sum of the counts of a run's applied plans.
pub open spec fn run_counts(plans: Seq<FilePlan>, inserted: Seq<Seq<bool>>, marked: Seq<Seq<bool>>) -> (int, int, int)
    decreases plans.len(),
{
    if plans.len() == 0 {
        (0, 0, 0)
    } else {
        let i = plans.len() - 1;
        let a = run_counts(plans.drop_last(), inserted, marked);
        let b = plan_counts_spec(plans[i], inserted[i], marked[i]);
        (a.0 + b.0, a.1 + b.1, a.2 + b.2)
    }
}

/// Number of planned chunks over a run's plans.
pub open spec fn run_chunks(plans: Seq<FilePlan>) -> int
    decreases plans.len(),
{
    if plans.len() == 0 {
        0
    } else {
        run_chunks(plans.drop_last()) + plans.last().chunks@.len()
    }
}

/// Re-indexing a repository none of whose files changed, against a store
/// that holds their previous chunks, counts no new and no staled chunk and
/// preserves every chunk.
pub proof fn lemma_reindex_repo_unchanged(
    prevs: Seq<FilePlan>,
    plans: Seq<FilePlan>,
    inserted: Seq<Seq<bool>>,
    marked: Seq<Seq<bool>>,
)
    requires
        prevs.len() == plans.len(),
        inserted.len() == plans.len(),
        marked.len() == plans.len(),
        forall|k: int| 0 <= k < plans.len() ==> replans_unchanged(#[trigger] prevs[k], plans[k]),
        forall|k: int| 0 <= k < plans.len() ==> (#[trigger] inserted[k]).len() == plans[k].chunks@.len(),
        forall|k: int| 0 <= k < plans.len() ==> (#[trigger] marked[k]).len() == plans[k].staled@.len(),
        forall|k: int, i: int| 0 <= k < plans.len() && 0 <= i < inserted[k].len() ==> !(#[trigger] inserted[k][i]),
    ensures
        run_counts(plans, inserted, marked) == (0int, run_chunks(plans), 0int),
{
    lemma_run_counts_unchanged(prevs, plans, inserted, marked);
}

proof fn lemma_run_counts_unchanged(
    prevs: Seq<FilePlan>,
    plans: Seq<FilePlan>,
    inserted: Seq<Seq<bool>>,
    marked: Seq<Seq<bool>>,
)
    requires
        prevs.len() == plans.len(),
        inserted.len() >= plans.len(),
        marked.len() >= plans.len(),
        forall|k: int| 0 <= k < plans.len() ==> replans_unchanged(#[trigger] prevs[k], plans[k]),
        forall|k: int| 0 <= k < plans.len() ==> (#[trigger] inserted[k]).len() == plans[k].chunks@.len(),
        forall|k: int| 0 <= k < plans.len() ==> (#[trigger] marked[k]).len() == plans[k].staled@.len(),
        forall|k: int, i: int| 0 <= k < plans.len() && 0 <= i < inserted[k].len() ==> !(#[trigger] inserted[k][i]),
    ensures
        run_counts(plans, inserted, marked) == (0int, run_chunks(plans), 0int),
    decreases plans.len(),
{
    if plans.len() > 0 {
        let n = plans.len() - 1;
        let pp = prevs.drop_last();
        let ps = plans.drop_last();
        assert forall|k: int| 0 <= k < ps.len() implies replans_unchanged(#[trigger] pp[k], ps[k]) by {
            assert(pp[k] == prevs[k] && ps[k] == plans[k]);
            assert(replans_unchanged(prevs[k], plans[k]));
        }
        assert forall|k: int| 0 <= k < ps.len() implies (#[trigger] inserted[k]).len() == ps[k].chunks@.len() by {
            assert(ps[k] == plans[k]);
        }
        assert forall|k: int| 0 <= k < ps.len() implies (#[trigger] marked[k]).len() == ps[k].staled@.len() by {
            assert(ps[k] == plans[k]);
        }
        lemma_run_counts_unchanged(pp, ps, inserted, marked);
        assert(replans_unchanged(prevs[n], plans[n]));
        assert(inserted[n].len() == plans[n].chunks@.len());
        assert(marked[n].len() == plans[n].staled@.len());
        assert forall|i: int| 0 <= i < inserted[n].len() implies !(#[trigger] inserted[n][i]) by {
            assert(!inserted[n][i]);
        }
        lemma_unchanged_file_counts(prevs[n], plans[n], inserted[n], marked[n]);
        assert(plans.last() == plans[n]);
    }
}

/// Number of previous chunks a run's plans leave behind (not derived again).
pub open spec fn run_staled(plans: Seq<FilePlan>) -> int
    decreases plans.len(),
{
    if plans.len() == 0 {
        0
    } else {
        run_staled(plans.drop_last()) + plans.last().staled@.len()
    }
}

proof fn lemma_count_new_bounds(s: Seq<bool>)
    ensures
        0 <= count_new(s) <= s.len(),
        (forall|i: int| 0 <= i < s.len() ==> #[trigger] s[i]) ==> count_new(s) == s.len(),
    decreases s.len(),
{
    if s.len() > 0 {
        let pre = s.drop_last();
        lemma_count_new_bounds(pre);
        if forall|i: int| 0 <= i < s.len() ==> #[trigger] s[i] {
            assert forall|i: int| 0 <= i < pre.len() implies #[trigger] pre[i] by {
                assert(pre[i] == s[i]);
            }
            assert(s[s.len() - 1]);
        }
    }
}

/// A run stales at most the previous chunks its plans leave behind, and
/// exactly those when the store marks each of them (none was stale yet).
pub proof fn lemma_run_staled_count(plans: Seq<FilePlan>, inserted: Seq<Seq<bool>>, marked: Seq<Seq<bool>>)
    requires
        inserted.len() == plans.len(),
        marked.len() == plans.len(),
        forall|k: int| 0 <= k < plans.len() ==> (#[trigger] marked[k]).len() == plans[k].staled@.len(),
    ensures
        0 <= run_counts(plans, inserted, marked).2 <= run_staled(plans),
        (forall|k: int, i: int| 0 <= k < plans.len() && 0 <= i < marked[k].len() ==> #[trigger] marked[k][i])
            ==> run_counts(plans, inserted, marked).2 == run_staled(plans),
{
    lemma_run_staled_prefix(plans, inserted, marked);
}

proof fn lemma_run_staled_prefix(plans: Seq<FilePlan>, inserted: Seq<Seq<bool>>, marked: Seq<Seq<bool>>)
    requires
        inserted.len() >= plans.len(),
        marked.len() >= plans.len(),
        forall|k: int| 0 <= k < plans.len() ==> (#[trigger] marked[k]).len() == plans[k].staled@.len(),
    ensures
        0 <= run_counts(plans, inserted, marked).2 <= run_staled(plans),
        (forall|k: int, i: int| 0 <= k < plans.len() && 0 <= i < marked[k].len() ==> #[trigger] marked[k][i])
            ==> run_counts(plans, inserted, marked).2 == run_staled(plans),
    decreases plans.len(),
{
    if plans.len() > 0 {
        let n = plans.len() - 1;
        let ps = plans.drop_last();
        assert forall|k: int| 0 <= k < ps.len() implies (#[trigger] marked[k]).len() == ps[k].staled@.len() by {
            assert(ps[k] == plans[k]);
        }
        lemma_run_staled_prefix(ps, inserted, marked);
        lemma_count_new_bounds(marked[n]);
        assert(plans.last() == plans[n]);
        assert(marked[n].len() == plans[n].staled@.len());
        if forall|k: int, i: int| 0 <= k < plans.len() && 0 <= i < marked[k].len() ==> #[trigger] marked[k][i] {
            assert forall|k: int, i: int| 0 <= k < ps.len() && 0 <= i < marked[k].len() implies #[trigger] marked[k][i] by {
                assert(marked[k][i]);
            }
            assert forall|i: int| 0 <= i < marked[n].len() implies #[trigger] marked[n][i] by {
                assert(marked[n][i]);
            }
        }
    }
}

proof fn lemma_run_all_new(plans: Seq<FilePlan>, inserted: Seq<Seq<bool>>, marked: Seq<Seq<bool>>)
    requires
        inserted.len() >= plans.len(),
        marked.len() >= plans.len(),
        forall|k: int| 0 <= k < plans.len() ==> (#[trigger] inserted[k]).len() == plans[k].chunks@.len(),
        forall|k: int, i: int| 0 <= k < plans.len() && 0 <= i < inserted[k].len() ==> #[trigger] inserted[k][i],
    ensures
        run_counts(plans, inserted, marked).0 == run_chunks(plans),
    decreases plans.len(),
{
    if plans.len() > 0 {
        let n = plans.len() - 1;
        let ps = plans.drop_last();
        assert forall|k: int| 0 <= k < ps.len() implies (#[trigger] inserted[k]).len() == ps[k].chunks@.len() by {
            assert(ps[k] == plans[k]);
        }
        lemma_run_all_new(ps, inserted, marked);
        lemma_count_new_bounds(inserted[n]);
        assert forall|i: int| 0 <= i < inserted[n].len() implies #[trigger] inserted[n][i] by {
            assert(inserted[n][i]);
        }
        assert(plans.last() == plans[n]);
    }
}

proof fn lemma_run_chunks_unchanged(prevs: Seq<FilePlan>, plans: Seq<FilePlan>)
    requires
        prevs.len() == plans.len(),
        forall|k: int| 0 <= k < plans.len() ==> replans_unchanged(#[trigger] prevs[k], plans[k]),
    ensures
        run_chunks(prevs) == run_chunks(plans),
    decreases plans.len(),
{
    if plans.len() > 0 {
        let n = plans.len() - 1;
        let pp = prevs.drop_last();
        let ps = plans.drop_last();
        assert forall|k: int| 0 <= k < ps.len() implies replans_unchanged(#[trigger] pp[k], ps[k]) by {
            assert(pp[k] == prevs[k] && ps[k] == plans[k]);
            assert(replans_unchanged(prevs[k], plans[k]));
        }
        lemma_run_chunks_unchanged(pp, ps);
        assert(replans_unchanged(prevs[n], plans[n]));
        let e: Seq<bool> = Seq::new(plans[n].chunks@.len(), |i: int| false);
        let m: Seq<bool> = Seq::new(plans[n].staled@.len(), |i: int| false);
        lemma_unchanged_file_counts(prevs[n], plans[n], e, m);
        assert(plans.last() == plans[n] && prevs.last() == prevs[n]);
    }
}

/// Re-indexing a repository none of whose files changed preserves exactly
/// the chunks its first indexing took in: when the first run found every
/// chunk new and the second finds none new, the second counts no new and
/// no staled chunk, and as many preserved chunks as the first counted new.
pub proof fn lemma_rerun_preserves_first_run(
    prevs: Seq<FilePlan>,
    plans: Seq<FilePlan>,
    inserted1: Seq<Seq<bool>>,
    marked1: Seq<Seq<bool>>,
    inserted2: Seq<Seq<bool>>,
    marked2: Seq<Seq<bool>>,
)
    requires
        prevs.len() == plans.len(),
        inserted1.len() == prevs.len(),
        marked1.len() == prevs.len(),
        inserted2.len() == plans.len(),
        marked2.len() == plans.len(),
        forall|k: int| 0 <= k < plans.len() ==> replans_unchanged(#[trigger] prevs[k], plans[k]),
        forall|k: int| 0 <= k < prevs.len() ==> (#[trigger] inserted1[k]).len() == prevs[k].chunks@.len(),
        forall|k: int, i: int| 0 <= k < prevs.len() && 0 <= i < inserted1[k].len() ==> #[trigger] inserted1[k][i],
        forall|k: int| 0 <= k < plans.len() ==> (#[trigger] inserted2[k]).len() == plans[k].chunks@.len(),
        forall|k: int| 0 <= k < plans.len() ==> (#[trigger] marked2[k]).len() == plans[k].staled@.len(),
        forall|k: int, i: int| 0 <= k < plans.len() && 0 <= i < inserted2[k].len() ==> !(#[trigger] inserted2[k][i]),
    ensures
        run_counts(plans, inserted2, marked2) == (0int, run_counts(prevs, inserted1, marked1).0, 0int),
{
    lemma_reindex_repo_unchanged(prevs, plans, inserted2, marked2);
    lemma_run_all_new(prevs, inserted1, marked1);
    lemma_run_chunks_unchanged(prevs, plans);
}

} // verus!
