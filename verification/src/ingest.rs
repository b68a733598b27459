use vstd::prelude::*;

use crate::store::VectorStore;
use crate::text::chars_to_string;
use crate::text::render_nat;
use crate::text::render_nat_chars;
use crate::text::string_to_chars;

verus! {

/// Whether `c` is one of the whitespace characters that make a chunk blank.
pub open spec fn is_space(c: char) -> bool {
    c == ' ' || c == '\t' || c == '\n' || c == '\r'
}

/// Whether a text is blank: empty, or whitespace throughout.
pub open spec fn is_blank(s: Seq<char>) -> bool {
    forall|i: int| 0 <= i < s.len() ==> is_space(#[trigger] s[i])
}

/// Decides [`is_blank`].
pub fn blank(s: &Vec<char>) -> (r: bool)
    ensures
        r == is_blank(s@),
{
    let n = s.len();
    let mut i: usize = 0;
    while i < n
        invariant
            i <= n,
            n == s@.len(),
            forall|k: int| 0 <= k < i ==> is_space(#[trigger] s@[k]),
        decreases n - i,
    {
        let c = s[i];
        if !(c == ' ' || c == '\t' || c == '\n' || c == '\r') {
            return false;
        }
        i = i + 1;
    }
    true
}

/// The position of the first paragraph separator (a blank line: two
/// consecutive newlines) at or after `pos`, or the text's length when none
/// follows.
pub open spec fn find_sep(t: Seq<char>, pos: int) -> int
    recommends
        0 <= pos <= t.len(),
    decreases t.len() - pos when pos <= t.len()
{
    if pos + 1 < t.len() {
        if t[pos] == '\n' && t[pos + 1] == '\n' {
            pos
        } else {
            find_sep(t, pos + 1)
        }
    } else {
        t.len() as int
    }
}

pub proof fn lemma_find_sep(t: Seq<char>, pos: int)
    requires
        0 <= pos <= t.len(),
    ensures
        pos <= find_sep(t, pos) <= t.len(),
        find_sep(t, pos) < t.len() ==> find_sep(t, pos) + 1 < t.len() && t[find_sep(t, pos)]
            == '\n' && t[find_sep(t, pos) + 1] == '\n',
        forall|k: int|
            pos <= k < find_sep(t, pos) && k + 1 < t.len() ==> !(t[k] == '\n' && #[trigger] t[k + 1]
                == '\n'),
    decreases t.len() - pos,
{
    if pos + 1 < t.len() && !(t[pos] == '\n' && t[pos + 1] == '\n') {
        lemma_find_sep(t, pos + 1);
    }
}

/// Whether a paragraph is kept as a chunk: not blank, and longer than 50
/// characters.
pub open spec fn keeps_piece(p: Seq<char>) -> bool {
    !is_blank(p) && p.len() > 50
}

/// The chunks of a text from `pos` on: paragraphs (maximal pieces between
/// blank lines), those kept by [`keeps_piece`], in order.
pub open spec fn split_chunks_at(t: Seq<char>, pos: int) -> Seq<Seq<char>>
    recommends
        0 <= pos <= t.len(),
    decreases t.len() - pos when 0 <= pos <= t.len() via split_chunks_at_decreases
{
    let sep = find_sep(t, pos);
    let piece = t.subrange(pos, sep);
    let head: Seq<Seq<char>> = if keeps_piece(piece) {
        seq![piece]
    } else {
        Seq::empty()
    };
    if sep == t.len() {
        head
    } else {
        head + split_chunks_at(t, sep + 2)
    }
}

#[via_fn]
proof fn split_chunks_at_decreases(t: Seq<char>, pos: int) {
    lemma_find_sep(t, pos);
}

/// Finds the next paragraph separator, as [`find_sep`] says.
fn find_sep_exec(t: &Vec<char>, pos: usize) -> (r: usize)
    requires
        pos <= t@.len(),
    ensures
        r == find_sep(t@, pos as int),
        pos <= r <= t@.len(),
        r < t@.len() ==> r + 1 < t@.len(),
    decreases t@.len() - pos,
{
    proof {
        lemma_find_sep(t@, pos as int);
    }
    let n = t.len();
    if pos < n && n - pos > 1 {
        if t[pos] == '\n' && t[pos + 1] == '\n' {
            pos
        } else {
            find_sep_exec(t, pos + 1)
        }
    } else {
        n
    }
}

/// Copies `t[from..to]` into a fresh vector.
fn copy_range(t: &Vec<char>, from: usize, to: usize) -> (r: Vec<char>)
    requires
        from <= to <= t@.len(),
    ensures
        r@ == t@.subrange(from as int, to as int),
{
    let mut r: Vec<char> = Vec::new();
    let mut j: usize = from;
    while j < to
        invariant
            from <= j <= to <= t@.len(),
            r@ == t@.subrange(from as int, j as int),
        decreases to - j,
    {
        r.push(t[j]);
        proof {
            assert(r@ =~= t@.subrange(from as int, j + 1 as int));
        }
        j = j + 1;
    }
    r
}

/// Appends the kept chunks of `t` from `pos` on to `out`.
fn split_chunks_from(t: &Vec<char>, pos: usize, out: &mut Vec<String>)
    requires
        pos <= t@.len(),
    ensures
        final(out).deep_view() == old(out).deep_view() + split_chunks_at(t@, pos as int),
    decreases t@.len() - pos,
{
    let sep = find_sep_exec(t, pos);
    let piece = copy_range(t, pos, sep);
    let keep = !blank(&piece) && piece.len() > 50;
    let ghost head: Seq<Seq<char>> = if keeps_piece(t@.subrange(pos as int, sep as int)) {
        seq![t@.subrange(pos as int, sep as int)]
    } else {
        Seq::empty()
    };
    if keep {
        let s = chars_to_string(&piece);
        out.push(s);
        proof {
            assert(out.deep_view() =~= old(out).deep_view() + head);
        }
    } else {
        proof {
            assert(out.deep_view() =~= old(out).deep_view() + head);
        }
    }
    if sep == t.len() {
        proof {
            assert(out.deep_view() =~= old(out).deep_view() + split_chunks_at(t@, pos as int));
        }
    } else {
        let ghost mid = out.deep_view();
        split_chunks_from(t, sep + 2, out);
        proof {
            assert(out.deep_view() =~= old(out).deep_view() + split_chunks_at(t@, pos as int));
        }
    }
}

/// The chunks of a markdown text: paragraphs separated by blank lines, kept
/// when they are not blank and longer than 50 characters.
pub fn split_chunks(text: &str) -> (r: Vec<String>)
    ensures
        r.deep_view() == split_chunks_at(text@, 0),
{
    let t = string_to_chars(text);
    let mut out: Vec<String> = Vec::new();
    proof {
        assert(out.deep_view() =~= Seq::<Seq<char>>::empty());
    }
    split_chunks_from(&t, 0, &mut out);
    proof {
        assert(out.deep_view() =~= split_chunks_at(text@, 0));
    }
    out
}

/// What `html2md::parse_html` returns for a document: a function of the
/// markup alone.
pub uninterp spec fn markdown_of(html: Seq<char>) -> Seq<char>;

/// Relies on `html2md::parse_html`: converts an HTML document to markdown
/// text; the result depends on the input markup alone.
#[verifier::external_body]
fn html_to_markdown(html: &str) -> (r: String)
    ensures
        r@ == markdown_of(html@),
{
    html2md::parse_html(html)
}

/// The chunks of one HTML document: its markdown conversion, split into
/// paragraph chunks.
pub fn markdown_chunks_of(html: &str) -> (r: Vec<String>)
    ensures
        r.deep_view() == split_chunks_at(markdown_of(html@), 0),
{
    let md = html_to_markdown(html);
    split_chunks(md.as_str())
}

/// Decides [`is_blank`] for a string slice.
pub fn blank_str(s: &str) -> (r: bool)
    ensures
        r == is_blank(s@),
{
    let n = s.unicode_len();
    let mut i: usize = 0;
    while i < n
        invariant
            i <= n,
            n == s@.len(),
            forall|k: int| 0 <= k < i ==> is_space(#[trigger] s@[k]),
        decreases n - i,
    {
        let c = s.get_char(i);
        if !(c == ' ' || c == '\t' || c == '\n' || c == '\r') {
            return false;
        }
        i = i + 1;
    }
    true
}

/// What a batch ingestion reports: how many chunks were stored, and how many
/// were skipped because their embedding was missing or of the wrong length.
#[derive(Debug, Clone, Copy, PartialEq, Eq, Structural)]
pub struct IngestReport {
    pub stored: usize,
    pub skipped: usize,
}

/// The outcome of ingesting the chunks from position `i` on, given the
/// store's dimensionality state: which positions are kept, how many eligible
/// chunks are skipped, and the final dimensionality.
pub struct IngestModel {
    pub kept: Seq<int>,
    pub skipped: nat,
    pub dim: nat,
    pub fixed: bool,
}

/// The ingestion policy, chunk by chunk: blank texts are filtered out
/// (neither stored nor counted), a missing embedding skips the chunk, a
/// present embedding is stored when its length fits the store (the first
/// stored embedding fixes the dimensionality), and is skipped otherwise.
pub open spec fn ingest_from(
    texts: Seq<Seq<char>>,
    embs: Seq<Option<Seq<u32>>>,
    i: int,
    dim: nat,
    fixed: bool,
) -> IngestModel
    decreases texts.len() - i when i <= texts.len()
{
    if i >= texts.len() {
        IngestModel { kept: Seq::empty(), skipped: 0, dim, fixed }
    } else if is_blank(texts[i]) {
        ingest_from(texts, embs, i + 1, dim, fixed)
    } else {
        match embs[i] {
            Option::None => {
                let rest = ingest_from(texts, embs, i + 1, dim, fixed);
                IngestModel {
                    kept: rest.kept,
                    skipped: rest.skipped + 1,
                    dim: rest.dim,
                    fixed: rest.fixed,
                }
            },
            Option::Some(e) => {
                if !fixed || e.len() == dim {
                    let ndim: nat = if fixed {
                        dim
                    } else {
                        e.len()
                    };
                    let rest = ingest_from(texts, embs, i + 1, ndim, true);
                    IngestModel {
                        kept: seq![i] + rest.kept,
                        skipped: rest.skipped,
                        dim: rest.dim,
                        fixed: rest.fixed,
                    }
                } else {
                    let rest = ingest_from(texts, embs, i + 1, dim, fixed);
                    IngestModel {
                        kept: rest.kept,
                        skipped: rest.skipped + 1,
                        dim: rest.dim,
                        fixed: rest.fixed,
                    }
                }
            },
        }
    }
}

/// The model of ingesting a whole batch into a fresh store.
pub open spec fn ingest_model(texts: Seq<Seq<char>>, embs: Seq<Option<Seq<u32>>>) -> IngestModel {
    ingest_from(texts, embs, 0, 0, false)
}

/// Copies an embedding.
fn copy_u32s(e: &Vec<u32>) -> (r: Vec<u32>)
    ensures
        r@ == e@,
{
    let mut r: Vec<u32> = Vec::new();
    let n = e.len();
    let mut j: usize = 0;
    while j < n
        invariant
            j <= n,
            n == e@.len(),
            r@ == e@.subrange(0, j as int),
        decreases n - j,
    {
        r.push(e[j]);
        proof {
            assert(r@ =~= e@.subrange(0, j + 1 as int));
        }
        j = j + 1;
    }
    proof {
        assert(r@ =~= e@);
    }
    r
}

/// What the stored chunk at position `k` must hold: the text, embedding and
/// metadata of the kept position it came from, under a fresh 36-character
/// identifier.
pub open spec fn kept_chunk_ok(
    chunks: Seq<crate::store::ChunkView>,
    kept: Seq<int>,
    texts: Seq<Seq<char>>,
    embs: Seq<Option<Seq<u32>>>,
    source: Seq<char>,
    k: int,
) -> bool {
    let j = kept[k];
    &&& 0 <= j < texts.len()
    &&& chunks[k].content == texts[j]
    &&& embs[j] is Some
    &&& chunks[k].embedding == embs[j]->0
    &&& chunks[k].metadata == seq![("source"@, source), ("chunk_index"@, render_nat(j as nat))]
    &&& chunks[k].id.len() == 36
}

/// What every stored chunk must hold.
pub open spec fn kept_chunks_ok(
    chunks: Seq<crate::store::ChunkView>,
    kept: Seq<int>,
    texts: Seq<Seq<char>>,
    embs: Seq<Option<Seq<u32>>>,
    source: Seq<char>,
) -> bool {
    &&& chunks.len() == kept.len()
    &&& forall|k: int|
        0 <= k < kept.len() ==> #[trigger] kept_chunk_ok(chunks, kept, texts, embs, source, k)
}

proof fn lemma_kept_push(
    chunks: Seq<crate::store::ChunkView>,
    kept: Seq<int>,
    texts: Seq<Seq<char>>,
    embs: Seq<Option<Seq<u32>>>,
    source: Seq<char>,
    c: crate::store::ChunkView,
    j: int,
)
    requires
        kept_chunks_ok(chunks, kept, texts, embs, source),
        0 <= j < texts.len(),
        c.content == texts[j],
        embs[j] is Some,
        c.embedding == embs[j]->0,
        c.metadata == seq![("source"@, source), ("chunk_index"@, render_nat(j as nat))],
        c.id.len() == 36,
    ensures
        kept_chunks_ok(chunks.push(c), kept.push(j), texts, embs, source),
{
    let nchunks = chunks.push(c);
    let nkept = kept.push(j);
    assert forall|k: int| 0 <= k < nkept.len() implies #[trigger] kept_chunk_ok(
        nchunks,
        nkept,
        texts,
        embs,
        source,
        k,
    ) by {
        if k < kept.len() {
            assert(kept_chunk_ok(chunks, kept, texts, embs, source, k));
            assert(nchunks[k] == chunks[k]);
            assert(nkept[k] == kept[k]);
        } else {
            assert(nchunks[k] == c);
            assert(nkept[k] == j);
        }
    }
}

/// Ingests a batch of chunk texts with the embeddings the caller obtained
/// for them (`embeddings[i]` belongs to `texts[i]`; `None` stands for a
/// failed embedding call), into a fresh store.
///
/// Exactly the chunks the ingestion policy keeps are stored, in text order;
/// each stored chunk carries its text, its embedding, and metadata naming
/// the source and the chunk's position in the original, pre-filter sequence.
/// The report counts the stored chunks and the skipped ones; blank texts are
/// filtered out before embedding and appear in neither count.
#[verifier::rlimit(50)]
pub fn ingest_chunks(
    source: &str,
    texts: &Vec<String>,
    embeddings: &Vec<Option<Vec<u32>>>,
) -> (r: (VectorStore, IngestReport))
    requires
        texts@.len() == embeddings@.len(),
    ensures
        ({
            let m = ingest_model(texts.deep_view(), embeddings.deep_view());
            &&& r.0@.wf()
            &&& r.0@.embedding_dim == m.dim
            &&& r.0@.chunks.len() == m.kept.len()
            &&& r.1.stored == m.kept.len()
            &&& r.1.skipped == m.skipped
            &&& kept_chunks_ok(
                r.0@.chunks,
                m.kept,
                texts.deep_view(),
                embeddings.deep_view(),
                source@,
            )
        }),
{
    let ghost gtexts = texts.deep_view();
    let ghost gembs = embeddings.deep_view();
    let mut store = VectorStore::new(0);
    let mut stored: usize = 0;
    let mut skipped: usize = 0;
    let ghost mut kept_prefix: Seq<int> = Seq::empty();
    let n = texts.len();
    let mut i: usize = 0;
    proof {
        assert(kept_prefix + ingest_from(gtexts, gembs, 0, 0, false).kept =~= ingest_from(
            gtexts,
            gembs,
            0,
            0,
            false,
        ).kept);
    }
    while i < n
        invariant
            i <= n,
            n == gtexts.len(),
            n == gembs.len(),
            gtexts == texts.deep_view(),
            gembs == embeddings.deep_view(),
            store@.wf(),
            stored == store@.chunks.len(),
            stored == kept_prefix.len(),
            stored <= i,
            skipped <= i,
            ({
                let m = ingest_model(gtexts, gembs);
                let rest = ingest_from(
                    gtexts,
                    gembs,
                    i as int,
                    store@.embedding_dim,
                    !(store@.embedding_dim == 0 && store@.chunks.len() == 0),
                );
                &&& m.kept == kept_prefix + rest.kept
                &&& m.skipped == skipped + rest.skipped
                &&& m.dim == rest.dim
            }),
            kept_chunks_ok(store@.chunks, kept_prefix, gtexts, gembs, source@),
        decreases n - i,
    {
        let ghost dim0 = store@.embedding_dim;
        let ghost fixed0 = !(store@.embedding_dim == 0 && store@.chunks.len() == 0);
        proof {
            assert(gtexts[i as int] == texts@[i as int]@);
        }
        if blank_str(texts[i].as_str()) {
            proof {
                assert(ingest_from(gtexts, gembs, i as int, dim0, fixed0) == ingest_from(
                    gtexts,
                    gembs,
                    i + 1 as int,
                    dim0,
                    fixed0,
                ));
            }
            i = i + 1;
            continue;
        }
        match &embeddings[i] {
            Option::None => {
                proof {
                    assert(gembs[i as int] is None);
                    let rest1 = ingest_from(gtexts, gembs, i + 1 as int, dim0, fixed0);
                    assert(ingest_from(gtexts, gembs, i as int, dim0, fixed0) == IngestModel {
                        kept: rest1.kept,
                        skipped: rest1.skipped + 1,
                        dim: rest1.dim,
                        fixed: rest1.fixed,
                    });
                }
                skipped = skipped + 1;
            },
            Option::Some(e) => {
                proof {
                    assert(gembs[i as int] == Option::Some(e@));
                }
                let emb = copy_u32s(e);
                let mut meta: Vec<(String, String)> = Vec::new();
                meta.push((String::from_str("source"), String::from_str(source)));
                let mut ibuf: Vec<char> = Vec::new();
                render_nat_chars(i as u64, &mut ibuf);
                meta.push((String::from_str("chunk_index"), chars_to_string(&ibuf)));
                proof {
                    assert(meta.deep_view() =~= seq![
                        ("source"@, source@),
                        ("chunk_index"@, render_nat(i as nat)),
                    ]);
                }
                let content = texts[i].clone();
                let ghost old_chunks = store@.chunks;
                let ghost old_kept = kept_prefix;
                let res = store.add_chunk(content, emb, meta);
                match res {
                    Ok(newid) => {
                        proof {
                            let rest1 = ingest_from(
                                gtexts,
                                gembs,
                                i + 1 as int,
                                store@.embedding_dim,
                                true,
                            );
                            assert(ingest_from(gtexts, gembs, i as int, dim0, fixed0)
                                == IngestModel {
                                kept: seq![i as int] + rest1.kept,
                                skipped: rest1.skipped,
                                dim: rest1.dim,
                                fixed: rest1.fixed,
                            });
                            kept_prefix = kept_prefix.push(i as int);
                            assert(old_kept + (seq![i as int] + rest1.kept) =~= kept_prefix
                                + rest1.kept);
                            let cview = crate::store::ChunkView {
                                id: newid@,
                                content: texts@[i as int]@,
                                embedding: e@,
                                metadata: seq![
                                    ("source"@, source@),
                                    ("chunk_index"@, render_nat(i as nat)),
                                ],
                            };
                            lemma_kept_push(
                                old_chunks,
                                old_kept,
                                gtexts,
                                gembs,
                                source@,
                                cview,
                                i as int,
                            );
                            assert(store@.chunks =~~= old_chunks.push(cview));
                            assert(kept_chunks_ok(
                                store@.chunks,
                                kept_prefix,
                                gtexts,
                                gembs,
                                source@,
                            ));
                        }
                        stored = stored + 1;
                    },
                    Err(_mismatch) => {
                        proof {
                            assert(fixed0 && e@.len() != dim0);
                            let rest1 = ingest_from(gtexts, gembs, i + 1 as int, dim0, fixed0);
                            assert(ingest_from(gtexts, gembs, i as int, dim0, fixed0)
                                == IngestModel {
                                kept: rest1.kept,
                                skipped: rest1.skipped + 1,
                                dim: rest1.dim,
                                fixed: rest1.fixed,
                            });
                        }
                        skipped = skipped + 1;
                    },
                }
            },
        }
        i = i + 1;
    }
    proof {
        let m = ingest_model(gtexts, gembs);
        assert(ingest_from(
            gtexts,
            gembs,
            i as int,
            store@.embedding_dim,
            !(store@.embedding_dim == 0 && store@.chunks.len() == 0),
        ).kept =~= Seq::<int>::empty());
        assert(m.kept =~= kept_prefix);
    }
    (store, IngestReport { stored, skipped })
}

} // verus!
