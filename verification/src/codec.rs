use vstd::prelude::*;

use crate::store::ChunkData;
use crate::store::ChunkView;
use crate::store::StoreError;
use crate::store::StoreView;
use crate::store::VectorStore;
use crate::text::chars_to_string;
use crate::text::is_digit;
use crate::text::lemma_parse_render_nat;
use crate::text::lemma_render_nat_digits;
use crate::text::parse_nat;
use crate::text::push_str_chars;
use crate::text::render_nat;
use crate::text::render_nat_chars;
use crate::text::spec_parse_nat;
use crate::text::string_to_chars;

verus! {

// The persisted store format is a structured text document: a header naming
// the format and its version, the dimensionality, the chunk count, and then
// one block per chunk in insertion order. Every string is length-prefixed
// (`<length>:<characters>`, the length counting characters), so any text
// round-trips without an escaping scheme; every number is a decimal integer.
// Embedding components are the 32-bit patterns of their IEEE 754
// single-precision values, so persistence is exact.

/// The rendering of a length-prefixed string.
pub open spec fn render_lp(s: Seq<char>) -> Seq<char> {
    render_nat(s.len()) + seq![':'] + s
}

/// Parses a length-prefixed string.
pub open spec fn spec_parse_lp(t: Seq<char>, pos: int) -> Option<(Seq<char>, int)> {
    match spec_parse_nat(t, pos) {
        Option::None => Option::None,
        Option::Some((n, p)) => {
            if p < t.len() && t[p] == ':' && p + 1 + n <= t.len() {
                Option::Some((t.subrange(p + 1, p + 1 + n), p + 1 + n))
            } else {
                Option::None
            }
        },
    }
}

/// Consumes the exact literal `lit` at `pos`.
pub open spec fn spec_parse_lit(t: Seq<char>, pos: int, lit: Seq<char>) -> Option<int> {
    if 0 <= pos && pos + lit.len() <= t.len() && t.subrange(pos, pos + lit.len() as int) == lit {
        Option::Some(pos + lit.len() as int)
    } else {
        Option::None
    }
}

/// The rendering of embedding components, each preceded by one space.
pub open spec fn render_u32s(e: Seq<u32>) -> Seq<char>
    decreases e.len(),
{
    if e.len() == 0 {
        Seq::empty()
    } else {
        seq![' '] + render_nat(e.first() as nat) + render_u32s(e.drop_first())
    }
}

/// Parses `k` space-preceded numbers, each of which must fit 32 bits.
pub open spec fn spec_parse_u32s(t: Seq<char>, pos: int, k: nat) -> Option<(Seq<u32>, int)>
    decreases k,
{
    if k == 0 {
        Option::Some((Seq::empty(), pos))
    } else if pos < t.len() && t[pos] == ' ' {
        match spec_parse_nat(t, pos + 1) {
            Option::None => Option::None,
            Option::Some((v, p)) => {
                if v <= u32::MAX as nat {
                    match spec_parse_u32s(t, p, (k - 1) as nat) {
                        Option::None => Option::None,
                        Option::Some((vs, p2)) => Option::Some((seq![v as u32] + vs, p2)),
                    }
                } else {
                    Option::None
                }
            },
        }
    } else {
        Option::None
    }
}

/// The rendering of one metadata pair.
pub open spec fn render_pair(k: Seq<char>, v: Seq<char>) -> Seq<char> {
    "pair "@ + render_lp(k) + seq![' '] + render_lp(v) + seq!['\n']
}

/// The rendering of all metadata pairs, in order.
pub open spec fn render_pairs(m: Seq<(Seq<char>, Seq<char>)>) -> Seq<char>
    decreases m.len(),
{
    if m.len() == 0 {
        Seq::empty()
    } else {
        render_pair(m.first().0, m.first().1) + render_pairs(m.drop_first())
    }
}

/// Parses one metadata pair.
pub open spec fn spec_parse_pair(t: Seq<char>, pos: int) -> Option<((Seq<char>, Seq<char>), int)> {
    match spec_parse_lit(t, pos, "pair "@) {
        Option::None => Option::None,
        Option::Some(p0) => match spec_parse_lp(t, p0) {
            Option::None => Option::None,
            Option::Some((k, p1)) => {
                if p1 < t.len() && t[p1] == ' ' {
                    match spec_parse_lp(t, p1 + 1) {
                        Option::None => Option::None,
                        Option::Some((v, p2)) => {
                            if p2 < t.len() && t[p2] == '\n' {
                                Option::Some(((k, v), p2 + 1))
                            } else {
                                Option::None
                            }
                        },
                    }
                } else {
                    Option::None
                }
            },
        },
    }
}

/// Parses `k` metadata pairs.
pub open spec fn spec_parse_pairs(t: Seq<char>, pos: int, k: nat) -> Option<
    (Seq<(Seq<char>, Seq<char>)>, int),
>
    decreases k,
{
    if k == 0 {
        Option::Some((Seq::empty(), pos))
    } else {
        match spec_parse_pair(t, pos) {
            Option::None => Option::None,
            Option::Some((kv, p)) => match spec_parse_pairs(t, p, (k - 1) as nat) {
                Option::None => Option::None,
                Option::Some((kvs, p2)) => Option::Some((seq![kv] + kvs, p2)),
            },
        }
    }
}

/// The rendering of one chunk block.
pub open spec fn render_chunk(c: ChunkView) -> Seq<char> {
    "id "@ + render_lp(c.id) + seq!['\n'] + "content "@ + render_lp(c.content) + seq!['\n']
        + "embedding "@ + render_nat(c.embedding.len()) + render_u32s(c.embedding) + seq!['\n']
        + "meta "@ + render_nat(c.metadata.len()) + seq!['\n'] + render_pairs(c.metadata)
}

/// Parses one chunk block.
pub open spec fn spec_parse_chunk(t: Seq<char>, pos: int) -> Option<(ChunkView, int)> {
    match spec_parse_lit(t, pos, "id "@) {
        Option::None => Option::None,
        Option::Some(p0) => match spec_parse_lp(t, p0) {
            Option::None => Option::None,
            Option::Some((id, p1)) => {
                if p1 < t.len() && t[p1] == '\n' {
                    match spec_parse_lit(t, p1 + 1, "content "@) {
                        Option::None => Option::None,
                        Option::Some(p2) => match spec_parse_lp(t, p2) {
                            Option::None => Option::None,
                            Option::Some((content, p3)) => {
                                if p3 < t.len() && t[p3] == '\n' {
                                    match spec_parse_lit(t, p3 + 1, "embedding "@) {
                                        Option::None => Option::None,
                                        Option::Some(p4) => match spec_parse_nat(t, p4) {
                                            Option::None => Option::None,
                                            Option::Some((k, p5)) => match spec_parse_u32s(
                                                t,
                                                p5,
                                                k,
                                            ) {
                                                Option::None => Option::None,
                                                Option::Some((emb, p6)) => {
                                                    if p6 < t.len() && t[p6] == '\n' {
                                                        spec_parse_chunk_meta(
                                                            t,
                                                            p6 + 1,
                                                            id,
                                                            content,
                                                            emb,
                                                        )
                                                    } else {
                                                        Option::None
                                                    }
                                                },
                                            },
                                        },
                                    }
                                } else {
                                    Option::None
                                }
                            },
                        },
                    }
                } else {
                    Option::None
                }
            },
        },
    }
}

/// Parses the metadata tail of a chunk block.
pub open spec fn spec_parse_chunk_meta(
    t: Seq<char>,
    pos: int,
    id: Seq<char>,
    content: Seq<char>,
    emb: Seq<u32>,
) -> Option<(ChunkView, int)> {
    match spec_parse_lit(t, pos, "meta "@) {
        Option::None => Option::None,
        Option::Some(p0) => match spec_parse_nat(t, p0) {
            Option::None => Option::None,
            Option::Some((m, p1)) => {
                if p1 < t.len() && t[p1] == '\n' {
                    match spec_parse_pairs(t, p1 + 1, m) {
                        Option::None => Option::None,
                        Option::Some((meta, p2)) => Option::Some(
                            (ChunkView { id, content, embedding: emb, metadata: meta }, p2),
                        ),
                    }
                } else {
                    Option::None
                }
            },
        },
    }
}

/// The rendering of all chunk blocks, in insertion order.
pub open spec fn render_chunks(cs: Seq<ChunkView>) -> Seq<char>
    decreases cs.len(),
{
    if cs.len() == 0 {
        Seq::empty()
    } else {
        render_chunk(cs.first()) + render_chunks(cs.drop_first())
    }
}

/// Parses `k` chunk blocks.
pub open spec fn spec_parse_chunks(t: Seq<char>, pos: int, k: nat) -> Option<(Seq<ChunkView>, int)>
    decreases k,
{
    if k == 0 {
        Option::Some((Seq::empty(), pos))
    } else {
        match spec_parse_chunk(t, pos) {
            Option::None => Option::None,
            Option::Some((c, p)) => match spec_parse_chunks(t, p, (k - 1) as nat) {
                Option::None => Option::None,
                Option::Some((cs, p2)) => Option::Some((seq![c] + cs, p2)),
            },
        }
    }
}

/// The rendering of a whole store.
pub open spec fn render_store_view(v: StoreView) -> Seq<char> {
    "vectorstore 1\ndim "@ + render_nat(v.embedding_dim) + seq!['\n'] + "count "@ + render_nat(
        v.chunks.len(),
    ) + seq!['\n'] + render_chunks(v.chunks)
}

/// Parses a whole store: the document must be consumed entirely and the
/// parsed store must satisfy the dimensionality invariant.
pub open spec fn spec_parse_store(t: Seq<char>) -> Option<StoreView> {
    match spec_parse_lit(t, 0, "vectorstore 1\ndim "@) {
        Option::None => Option::None,
        Option::Some(p0) => match spec_parse_nat(t, p0) {
            Option::None => Option::None,
            Option::Some((dim, p1)) => {
                if dim <= usize::MAX as nat && p1 < t.len() && t[p1] == '\n' {
                    match spec_parse_lit(t, p1 + 1, "count "@) {
                        Option::None => Option::None,
                        Option::Some(p2) => match spec_parse_nat(t, p2) {
                            Option::None => Option::None,
                            Option::Some((cnt, p3)) => {
                                if p3 < t.len() && t[p3] == '\n' {
                                    match spec_parse_chunks(t, p3 + 1, cnt) {
                                        Option::None => Option::None,
                                        Option::Some((cs, p4)) => {
                                            let v = StoreView { chunks: cs, embedding_dim: dim };
                                            if p4 == t.len() && v.wf() {
                                                Option::Some(v)
                                            } else {
                                                Option::None
                                            }
                                        },
                                    }
                                } else {
                                    Option::None
                                }
                            },
                        },
                    }
                } else {
                    Option::None
                }
            },
        },
    }
}

/// Splits knowledge of a window `a + b` into its two parts.
proof fn lemma_window(t: Seq<char>, from: int, to: int, a: Seq<char>, b: Seq<char>)
    requires
        0 <= from <= to <= t.len(),
        to - from == a.len() + b.len(),
        t.subrange(from, to) == a + b,
    ensures
        t.subrange(from, from + a.len() as int) == a,
        t.subrange(from + a.len() as int, to) == b,
{
    let ta = t.subrange(from, from + a.len() as int);
    let tb = t.subrange(from + a.len() as int, to);
    assert(ta.len() == a.len());
    assert(tb.len() == b.len());
    assert forall|i: int| 0 <= i < a.len() implies ta[i] == a[i] by {
        assert(ta[i] == t[from + i]);
        assert(t.subrange(from, to)[i] == t[from + i]);
        assert((a + b)[i] == a[i]);
    }
    assert(ta =~= a);
    assert forall|i: int| 0 <= i < b.len() implies tb[i] == b[i] by {
        assert(tb[i] == t[from + a.len() + i]);
        assert(t.subrange(from, to)[a.len() + i] == t[from + a.len() + i]);
        assert((a + b)[a.len() + i] == b[i]);
    }
    assert(tb =~= b);
}

/// Parsing a rendered length-prefixed string gives the string back.
proof fn lemma_parse_render_lp(t: Seq<char>, pos: int, s: Seq<char>)
    requires
        0 <= pos,
        s.len() <= u64::MAX as nat,
        pos + render_lp(s).len() <= t.len(),
        t.subrange(pos, pos + render_lp(s).len() as int) == render_lp(s),
    ensures
        spec_parse_lp(t, pos) == Option::Some((s, pos + render_lp(s).len() as int)),
{
    let rn = render_nat(s.len());
    let l = render_lp(s).len() as int;
    lemma_render_nat_digits(s.len());
    assert(t.subrange(pos, pos + l) =~= (rn + seq![':']) + s);
    lemma_window(t, pos, pos + l, rn + seq![':'], s);
    lemma_window(t, pos, pos + rn.len() + 1, rn, seq![':']);
    assert(t[pos + rn.len() as int] == ':') by {
        assert(t.subrange(pos + rn.len() as int, pos + rn.len() + 1)[0] == seq![':'][0]);
    }
    assert(!is_digit(':'));
    lemma_parse_render_nat(t, pos, s.len());
    assert(spec_parse_nat(t, pos) == Option::<(nat, int)>::Some((s.len(), pos + rn.len() as int)));
}

/// Parsing rendered embedding components gives them back, when what follows
/// the rendering is not a digit.
proof fn lemma_parse_render_u32s(t: Seq<char>, pos: int, e: Seq<u32>)
    requires
        0 <= pos,
        pos + render_u32s(e).len() <= t.len(),
        t.subrange(pos, pos + render_u32s(e).len() as int) == render_u32s(e),
        pos + render_u32s(e).len() == t.len() || !is_digit(t[pos + render_u32s(e).len()]),
    ensures
        spec_parse_u32s(t, pos, e.len()) == Option::Some((e, pos + render_u32s(e).len() as int)),
    decreases e.len(),
{
    if e.len() == 0 {
        assert(e =~= Seq::<u32>::empty());
    } else {
        let rn = render_nat(e.first() as nat);
        let rest = render_u32s(e.drop_first());
        let l = render_u32s(e).len() as int;
        lemma_render_nat_digits(e.first() as nat);
        assert(t.subrange(pos, pos + l) =~= (seq![' '] + rn) + rest);
        lemma_window(t, pos, pos + l, seq![' '] + rn, rest);
        lemma_window(t, pos, pos + 1 + rn.len(), seq![' '], rn);
        assert(t[pos] == ' ') by {
            assert(t.subrange(pos, pos + 1)[0] == seq![' '][0]);
        }
        let p = pos + 1 + rn.len() as int;
        assert(p + rest.len() == pos + l);
        if e.drop_first().len() == 0 {
            assert(rest.len() == 0);
            assert(p == pos + l);
        } else {
            assert(rest == seq![' '] + render_nat(e.drop_first().first() as nat) + render_u32s(
                e.drop_first().drop_first(),
            ));
            assert(t[p] == ' ') by {
                assert(t.subrange(p, pos + l)[0] == rest[0]);
            }
            assert(!is_digit(' '));
        }
        lemma_parse_render_nat(t, pos + 1, e.first() as nat);
        lemma_parse_render_u32s(t, p, e.drop_first());
        assert(seq![e.first()] + e.drop_first() =~= e);
    }
}

/// Parsing a rendered metadata pair gives it back.
proof fn lemma_parse_render_pair(t: Seq<char>, pos: int, k: Seq<char>, v: Seq<char>)
    requires
        0 <= pos,
        k.len() <= u64::MAX as nat,
        v.len() <= u64::MAX as nat,
        pos + render_pair(k, v).len() <= t.len(),
        t.subrange(pos, pos + render_pair(k, v).len() as int) == render_pair(k, v),
    ensures
        spec_parse_pair(t, pos) == Option::Some(((k, v), pos + render_pair(k, v).len() as int)),
{
    let lw = "pair "@;
    let lk = render_lp(k);
    let lv = render_lp(v);
    let l = render_pair(k, v).len() as int;
    let e0 = pos + lw.len() as int;
    let e1 = e0 + lk.len() as int;
    let e2 = e1 + 1;
    let e3 = e2 + lv.len() as int;
    assert(t.subrange(pos, pos + l) =~= lw + (lk + seq![' '] + lv + seq!['\n']));
    lemma_window(t, pos, pos + l, lw, lk + seq![' '] + lv + seq!['\n']);
    assert(t.subrange(e0, pos + l) =~= lk + (seq![' '] + lv + seq!['\n']));
    lemma_window(t, e0, pos + l, lk, seq![' '] + lv + seq!['\n']);
    assert(t.subrange(e1, pos + l) =~= seq![' '] + (lv + seq!['\n']));
    lemma_window(t, e1, pos + l, seq![' '], lv + seq!['\n']);
    assert(t[e1] == ' ') by {
        assert(t.subrange(e1, e2)[0] == seq![' '][0]);
    }
    assert(t.subrange(e2, pos + l) =~= lv + seq!['\n']);
    lemma_window(t, e2, pos + l, lv, seq!['\n']);
    assert(t[e3] == '\n') by {
        assert(t.subrange(e3, pos + l)[0] == seq!['\n'][0]);
    }
    assert(spec_parse_lit(t, pos, lw) == Option::Some(e0));
    lemma_parse_render_lp(t, e0, k);
    lemma_parse_render_lp(t, e2, v);
}

/// Parsing rendered metadata pairs gives them back.
proof fn lemma_parse_render_pairs(t: Seq<char>, pos: int, m: Seq<(Seq<char>, Seq<char>)>)
    requires
        0 <= pos,
        forall|i: int|
            0 <= i < m.len() ==> (#[trigger] m[i]).0.len() <= u64::MAX as nat && m[i].1.len()
                <= u64::MAX as nat,
        pos + render_pairs(m).len() <= t.len(),
        t.subrange(pos, pos + render_pairs(m).len() as int) == render_pairs(m),
    ensures
        spec_parse_pairs(t, pos, m.len()) == Option::Some(
            (m, pos + render_pairs(m).len() as int),
        ),
    decreases m.len(),
{
    if m.len() == 0 {
        assert(m =~= Seq::<(Seq<char>, Seq<char>)>::empty());
    } else {
        let head = render_pair(m.first().0, m.first().1);
        let rest = render_pairs(m.drop_first());
        let l = render_pairs(m).len() as int;
        assert(t.subrange(pos, pos + l) =~= head + rest);
        lemma_window(t, pos, pos + l, head, rest);
        lemma_parse_render_pair(t, pos, m.first().0, m.first().1);
        let p = pos + head.len() as int;
        assert(forall|i: int|
            0 <= i < m.drop_first().len() ==> #[trigger] m.drop_first()[i] == m[i + 1]);
        lemma_parse_render_pairs(t, p, m.drop_first());
        assert(seq![m.first()] + m.drop_first() =~= m);
        assert(seq![(m.first().0, m.first().1)] =~= seq![m.first()]);
    }
}

/// Machine-size bounds under which a chunk can be rendered and parsed back.
pub open spec fn chunk_bounded(c: ChunkView) -> bool {
    &&& c.id.len() <= u64::MAX as nat
    &&& c.content.len() <= u64::MAX as nat
    &&& c.embedding.len() <= u64::MAX as nat
    &&& c.metadata.len() <= u64::MAX as nat
    &&& forall|i: int|
        0 <= i < c.metadata.len() ==> (#[trigger] c.metadata[i]).0.len() <= u64::MAX as nat
            && c.metadata[i].1.len() <= u64::MAX as nat
}

/// Machine-size bounds under which a store can be rendered and parsed back.
pub open spec fn store_bounded(v: StoreView) -> bool {
    &&& v.embedding_dim <= usize::MAX as nat
    &&& v.chunks.len() <= u64::MAX as nat
    &&& forall|i: int| 0 <= i < v.chunks.len() ==> chunk_bounded(#[trigger] v.chunks[i])
}

/// Parsing a rendered chunk block gives the chunk back.
proof fn lemma_parse_render_chunk(t: Seq<char>, pos: int, c: ChunkView)
    requires
        0 <= pos,
        chunk_bounded(c),
        pos + render_chunk(c).len() <= t.len(),
        t.subrange(pos, pos + render_chunk(c).len() as int) == render_chunk(c),
    ensures
        spec_parse_chunk(t, pos) == Option::Some((c, pos + render_chunk(c).len() as int)),
{
    let w1 = "id "@;
    let lid = render_lp(c.id);
    let nl = seq!['\n'];
    let w2 = "content "@;
    let lct = render_lp(c.content);
    let w3 = "embedding "@;
    let rk = render_nat(c.embedding.len());
    let ru = render_u32s(c.embedding);
    let w4 = "meta "@;
    let rm = render_nat(c.metadata.len());
    let rp = render_pairs(c.metadata);
    let x2 = w1 + lid;
    let x3 = x2 + nl;
    let x4 = x3 + w2;
    let x5 = x4 + lct;
    let x6 = x5 + nl;
    let x7 = x6 + w3;
    let x8 = x7 + rk;
    let x9 = x8 + ru;
    let x10 = x9 + nl;
    let x11 = x10 + w4;
    let x12 = x11 + rm;
    let x13 = x12 + nl;
    let end = pos + render_chunk(c).len() as int;
    assert(render_chunk(c) == x13 + rp);
    lemma_window(t, pos, end, x13, rp);
    lemma_window(t, pos, pos + x13.len() as int, x12, nl);
    lemma_window(t, pos, pos + x12.len() as int, x11, rm);
    lemma_window(t, pos, pos + x11.len() as int, x10, w4);
    lemma_window(t, pos, pos + x10.len() as int, x9, nl);
    lemma_window(t, pos, pos + x9.len() as int, x8, ru);
    lemma_window(t, pos, pos + x8.len() as int, x7, rk);
    lemma_window(t, pos, pos + x7.len() as int, x6, w3);
    lemma_window(t, pos, pos + x6.len() as int, x5, nl);
    lemma_window(t, pos, pos + x5.len() as int, x4, lct);
    lemma_window(t, pos, pos + x4.len() as int, x3, w2);
    lemma_window(t, pos, pos + x3.len() as int, x2, nl);
    lemma_window(t, pos, pos + x2.len() as int, w1, lid);
    let p0 = pos + w1.len() as int;
    let p1 = p0 + lid.len() as int;
    let p2 = p1 + 1 + w2.len() as int;
    let p3 = p2 + lct.len() as int;
    let p4 = p3 + 1 + w3.len() as int;
    let p5 = p4 + rk.len() as int;
    let p6 = p5 + ru.len() as int;
    let p7 = p6 + 1 + w4.len() as int;
    let p8 = p7 + rm.len() as int;
    let p9 = p8 + 1 + rp.len() as int;
    assert(spec_parse_lit(t, pos, "id "@) == Option::Some(p0));
    lemma_parse_render_lp(t, p0, c.id);
    assert(t[p1] == '\n') by {
        assert(t.subrange(p1, p1 + 1)[0] == nl[0]);
    }
    assert(spec_parse_lit(t, p1 + 1, "content "@) == Option::Some(p2));
    lemma_parse_render_lp(t, p2, c.content);
    assert(t[p3] == '\n') by {
        assert(t.subrange(p3, p3 + 1)[0] == nl[0]);
    }
    assert(spec_parse_lit(t, p3 + 1, "embedding "@) == Option::Some(p4));
    assert(t[p6] == '\n') by {
        assert(t.subrange(p6, p6 + 1)[0] == nl[0]);
    }
    if c.embedding.len() == 0 {
        assert(!is_digit(t[p5]));
    } else {
        assert(ru == seq![' '] + render_nat(c.embedding.first() as nat) + render_u32s(
            c.embedding.drop_first(),
        ));
        assert(t[p5] == ' ') by {
            assert(t.subrange(p5, p6)[0] == ru[0]);
            assert(ru[0] == (seq![' '] + render_nat(c.embedding.first() as nat))[0]);
        }
        assert(!is_digit(t[p5]));
    }
    lemma_parse_render_nat(t, p4, c.embedding.len());
    lemma_parse_render_u32s(t, p5, c.embedding);
    assert(spec_parse_lit(t, p6 + 1, "meta "@) == Option::Some(p7));
    assert(t[p8] == '\n') by {
        assert(t.subrange(p8, p8 + 1)[0] == nl[0]);
    }
    assert(!is_digit('\n'));
    lemma_parse_render_nat(t, p7, c.metadata.len());
    lemma_parse_render_pairs(t, p8 + 1, c.metadata);
    assert(spec_parse_chunk_meta(t, p6 + 1, c.id, c.content, c.embedding) == Option::Some(
        (ChunkView { id: c.id, content: c.content, embedding: c.embedding, metadata: c.metadata }, p9),
    ));
    assert(c == ChunkView {
        id: c.id,
        content: c.content,
        embedding: c.embedding,
        metadata: c.metadata,
    });
    assert(p9 == end);
}

/// Parsing rendered chunk blocks gives them back.
proof fn lemma_parse_render_chunks(t: Seq<char>, pos: int, cs: Seq<ChunkView>)
    requires
        0 <= pos,
        forall|i: int| 0 <= i < cs.len() ==> chunk_bounded(#[trigger] cs[i]),
        pos + render_chunks(cs).len() <= t.len(),
        t.subrange(pos, pos + render_chunks(cs).len() as int) == render_chunks(cs),
    ensures
        spec_parse_chunks(t, pos, cs.len()) == Option::Some(
            (cs, pos + render_chunks(cs).len() as int),
        ),
    decreases cs.len(),
{
    if cs.len() == 0 {
        assert(cs =~= Seq::<ChunkView>::empty());
    } else {
        let head = render_chunk(cs.first());
        let rest = render_chunks(cs.drop_first());
        let l = render_chunks(cs).len() as int;
        lemma_window(t, pos, pos + l, head, rest);
        lemma_parse_render_chunk(t, pos, cs.first());
        let p = pos + head.len() as int;
        assert(forall|i: int|
            0 <= i < cs.drop_first().len() ==> #[trigger] cs.drop_first()[i] == cs[i + 1]);
        lemma_parse_render_chunks(t, p, cs.drop_first());
        assert(seq![cs.first()] + cs.drop_first() =~= cs);
    }
}

/// The persistence round trip: parsing the rendering of any well-formed
/// store gives an equal store back, chunk for chunk, field for field.
pub proof fn lemma_store_round_trip(v: StoreView)
    requires
        v.wf(),
        store_bounded(v),
    ensures
        spec_parse_store(render_store_view(v)) == Option::Some(v),
{
    let t = render_store_view(v);
    let w0 = "vectorstore 1\ndim "@;
    let rd = render_nat(v.embedding_dim);
    let nl = seq!['\n'];
    let w5 = "count "@;
    let rc = render_nat(v.chunks.len());
    let rcs = render_chunks(v.chunks);
    let x1 = w0 + rd;
    let x2 = x1 + nl;
    let x3 = x2 + w5;
    let x4 = x3 + rc;
    let x5 = x4 + nl;
    let end = t.len() as int;
    assert(t == x5 + rcs);
    assert(t.subrange(0, end) =~= t);
    lemma_window(t, 0, end, x5, rcs);
    lemma_window(t, 0, x5.len() as int, x4, nl);
    lemma_window(t, 0, x4.len() as int, x3, rc);
    lemma_window(t, 0, x3.len() as int, x2, w5);
    lemma_window(t, 0, x2.len() as int, x1, nl);
    lemma_window(t, 0, x1.len() as int, w0, rd);
    let p0 = w0.len() as int;
    let p1 = p0 + rd.len() as int;
    let p2 = p1 + 1 + w5.len() as int;
    let p3 = p2 + rc.len() as int;
    let p4 = p3 + 1 + rcs.len() as int;
    assert(spec_parse_lit(t, 0, "vectorstore 1\ndim "@) == Option::Some(p0));
    assert(t[p1] == '\n') by {
        assert(t.subrange(p1, p1 + 1)[0] == nl[0]);
    }
    assert(!is_digit('\n'));
    lemma_parse_render_nat(t, p0, v.embedding_dim);
    assert(spec_parse_lit(t, p1 + 1, "count "@) == Option::Some(p2));
    assert(t[p3] == '\n') by {
        assert(t.subrange(p3, p3 + 1)[0] == nl[0]);
    }
    lemma_parse_render_nat(t, p2, v.chunks.len());
    lemma_parse_render_chunks(t, p3 + 1, v.chunks);
    assert(p4 == t.len());
    assert(StoreView { chunks: v.chunks, embedding_dim: v.embedding_dim } == v);
}

/// Appends the rendering of a length-prefixed string to `out`.
fn render_lp_chars(s: &str, out: &mut Vec<char>)
    ensures
        final(out)@ == old(out)@ + render_lp(s@),
{
    let n = s.unicode_len();
    render_nat_chars(n as u64, out);
    out.push(':');
    push_str_chars(out, s);
    proof {
        assert(out@ =~= old(out)@ + render_lp(s@));
    }
}

/// Appends the rendering of the components from position `i` on to `out`.
fn render_u32s_from(e: &Vec<u32>, i: usize, out: &mut Vec<char>)
    requires
        i <= e@.len(),
    ensures
        final(out)@ == old(out)@ + render_u32s(e@.skip(i as int)),
    decreases e@.len() - i,
{
    if i == e.len() {
        proof {
            assert(e@.skip(i as int) =~= Seq::<u32>::empty());
            assert(out@ =~= old(out)@ + render_u32s(e@.skip(i as int)));
        }
    } else {
        out.push(' ');
        render_nat_chars(e[i] as u64, out);
        render_u32s_from(e, i + 1, out);
        proof {
            let sk = e@.skip(i as int);
            assert(sk.first() == e@[i as int]);
            assert(sk.drop_first() =~= e@.skip(i + 1 as int));
            assert(out@ =~= old(out)@ + render_u32s(e@.skip(i as int)));
        }
    }
}

/// Appends the rendering of the metadata pairs from position `i` on to `out`.
fn render_pairs_from(m: &Vec<(String, String)>, i: usize, out: &mut Vec<char>)
    requires
        i <= m@.len(),
    ensures
        final(out)@ == old(out)@ + render_pairs(m.deep_view().skip(i as int)),
    decreases m@.len() - i,
{
    if i == m.len() {
        proof {
            assert(m.deep_view().skip(i as int) =~= Seq::<(Seq<char>, Seq<char>)>::empty());
            assert(out@ =~= old(out)@ + render_pairs(m.deep_view().skip(i as int)));
        }
    } else {
        push_str_chars(out, "pair ");
        render_lp_chars(m[i].0.as_str(), out);
        out.push(' ');
        render_lp_chars(m[i].1.as_str(), out);
        out.push('\n');
        let ghost mid = out@;
        render_pairs_from(m, i + 1, out);
        proof {
            let sk = m.deep_view().skip(i as int);
            assert(sk.first() == m.deep_view()[i as int]);
            assert(sk.first() == (m@[i as int].0@, m@[i as int].1@));
            assert(sk.drop_first() =~= m.deep_view().skip(i + 1 as int));
            assert(mid =~= old(out)@ + render_pair(sk.first().0, sk.first().1));
            assert(out@ =~= old(out)@ + render_pairs(sk));
        }
    }
}

/// Appends the rendering of one chunk block to `out`.
#[verifier::rlimit(50)]
fn render_chunk_chars(c: &ChunkData, out: &mut Vec<char>)
    ensures
        final(out)@ == old(out)@ + render_chunk(c@),
{
    push_str_chars(out, "id ");
    render_lp_chars(c.id.as_str(), out);
    out.push('\n');
    push_str_chars(out, "content ");
    render_lp_chars(c.content.as_str(), out);
    out.push('\n');
    push_str_chars(out, "embedding ");
    render_nat_chars(c.embedding.len() as u64, out);
    render_u32s_from(&c.embedding, 0, out);
    out.push('\n');
    push_str_chars(out, "meta ");
    render_nat_chars(c.metadata.len() as u64, out);
    out.push('\n');
    render_pairs_from(&c.metadata, 0, out);
    proof {
        assert(c.embedding@.skip(0) =~= c.embedding@);
        assert(c.metadata.deep_view().skip(0) =~= c.metadata.deep_view());
        assert(out@ =~= old(out)@ + render_chunk(c@));
    }
}

/// Appends the rendering of the chunk blocks from position `i` on to `out`.
fn render_chunks_from(cs: &Vec<ChunkData>, i: usize, out: &mut Vec<char>)
    requires
        i <= cs@.len(),
    ensures
        final(out)@ == old(out)@ + render_chunks(cs.deep_view().skip(i as int)),
    decreases cs@.len() - i,
{
    if i == cs.len() {
        proof {
            assert(cs.deep_view().skip(i as int) =~= Seq::<ChunkView>::empty());
            assert(out@ =~= old(out)@ + render_chunks(cs.deep_view().skip(i as int)));
        }
    } else {
        render_chunk_chars(&cs[i], out);
        let ghost mid = out@;
        render_chunks_from(cs, i + 1, out);
        proof {
            let sk = cs.deep_view().skip(i as int);
            assert(sk.first() == cs.deep_view()[i as int]);
            assert(sk.first() == cs@[i as int]@);
            assert(sk.drop_first() =~= cs.deep_view().skip(i + 1 as int));
            assert(mid =~= old(out)@ + render_chunk(sk.first()));
            assert(out@ =~= old(out)@ + render_chunks(sk));
        }
    }
}

/// Renders a store to its persisted textual form.
pub fn render_store(s: &VectorStore) -> (out: String)
    ensures
        out@ == render_store_view(s@),
{
    let mut buf: Vec<char> = Vec::new();
    push_str_chars(&mut buf, "vectorstore 1\ndim ");
    render_nat_chars(s.embedding_dim as u64, &mut buf);
    buf.push('\n');
    push_str_chars(&mut buf, "count ");
    render_nat_chars(s.chunks.len() as u64, &mut buf);
    buf.push('\n');
    render_chunks_from(&s.chunks, 0, &mut buf);
    proof {
        assert(s.chunks.deep_view().skip(0) =~= s.chunks.deep_view());
        assert(buf@ =~= render_store_view(s@));
    }
    chars_to_string(&buf)
}

/// Consumes the literal `lit` at `pos`, as [`spec_parse_lit`] says.
fn match_lit(t: &Vec<char>, pos: usize, lit: &str) -> (r: Option<usize>)
    requires
        pos <= t@.len(),
    ensures
        match r {
            Option::Some(p) => spec_parse_lit(t@, pos as int, lit@) == Option::Some(p as int) && p
                <= t@.len(),
            Option::None => spec_parse_lit(t@, pos as int, lit@) is None,
        },
{
    let n = lit.unicode_len();
    let tlen = t.len();
    if n > tlen - pos {
        return Option::None;
    }
    let mut i: usize = 0;
    while i < n
        invariant
            i <= n,
            n == lit@.len(),
            tlen == t@.len(),
            pos + n <= tlen,
            forall|k: int| 0 <= k < i ==> t@[pos + k] == lit@[k],
        decreases n - i,
    {
        if t[pos + i] != lit.get_char(i) {
            proof {
                if t@.subrange(pos as int, pos + n as int) == lit@ {
                    assert(t@.subrange(pos as int, pos + n as int)[i as int] == t@[pos + i]);
                }
            }
            return Option::None;
        }
        i = i + 1;
    }
    proof {
        assert(t@.subrange(pos as int, pos + n as int) =~= lit@);
    }
    Option::Some(pos + n)
}

/// Parses a length-prefixed string, as [`spec_parse_lp`] says.
fn parse_lp(t: &Vec<char>, pos: usize) -> (r: Option<(String, usize)>)
    requires
        pos <= t@.len(),
    ensures
        match r {
            Option::Some(v) => spec_parse_lp(t@, pos as int) == Option::Some((v.0@, v.1 as int))
                && v.1 <= t@.len(),
            Option::None => spec_parse_lp(t@, pos as int) is None,
        },
{
    match parse_nat(t, pos) {
        Option::None => Option::None,
        Option::Some((n, p)) => {
            if p < t.len() && t[p] == ':' {
                let tlen = t.len();
                if n <= (tlen - p - 1) as u64 {
                    let len = n as usize;
                    let mut buf: Vec<char> = Vec::new();
                    let mut j: usize = 0;
                    while j < len
                        invariant
                            j <= len,
                            tlen == t@.len(),
                            p + 1 + len <= tlen,
                            buf@ == t@.subrange(p + 1 as int, p + 1 + j as int),
                        decreases len - j,
                    {
                        buf.push(t[p + 1 + j]);
                        proof {
                            assert(buf@ =~= t@.subrange(p + 1 as int, p + 1 + (j + 1) as int));
                        }
                        j = j + 1;
                    }
                    let out = chars_to_string(&buf);
                    Option::Some((out, p + 1 + len))
                } else {
                    Option::None
                }
            } else {
                Option::None
            }
        },
    }
}

/// Parses one embedding component: a space, then a number fitting 32 bits.
fn parse_u32s(t: &Vec<char>, pos: usize, k: u64) -> (r: Option<(Vec<u32>, usize)>)
    requires
        pos <= t@.len(),
    ensures
        match r {
            Option::Some(v) => spec_parse_u32s(t@, pos as int, k as nat) == Option::Some(
                (v.0@, v.1 as int),
            ) && v.1 <= t@.len(),
            Option::None => spec_parse_u32s(t@, pos as int, k as nat) is None,
        },
    decreases k,
{
    if k == 0 {
        let empty: Vec<u32> = Vec::new();
        proof {
            assert(empty@ =~= Seq::<u32>::empty());
        }
        return Option::Some((empty, pos));
    }
    if pos < t.len() && t[pos] == ' ' {
        match parse_nat(t, pos + 1) {
            Option::None => Option::None,
            Option::Some((v, p)) => {
                if v <= u32::MAX as u64 {
                    proof {
                        crate::text::lemma_scan_digits(t@, pos + 1 as int);
                    }
                    match parse_u32s(t, p, k - 1) {
                        Option::None => Option::None,
                        Option::Some((mut vs, p2)) => {
                            vs.insert(0, v as u32);
                            proof {
                                assert(vs@ =~= seq![v as u32] + vs@.subrange(1, vs@.len() as int));
                            }
                            Option::Some((vs, p2))
                        },
                    }
                } else {
                    Option::None
                }
            },
        }
    } else {
        Option::None
    }
}

/// Parses one metadata pair, as [`spec_parse_pair`] says.
fn parse_pair(t: &Vec<char>, pos: usize) -> (r: Option<((String, String), usize)>)
    requires
        pos <= t@.len(),
    ensures
        match r {
            Option::Some(v) => spec_parse_pair(t@, pos as int) == Option::Some(
                (((v.0).0@, (v.0).1@), v.1 as int),
            ) && v.1 <= t@.len(),
            Option::None => spec_parse_pair(t@, pos as int) is None,
        },
{
    match match_lit(t, pos, "pair ") {
        Option::None => Option::None,
        Option::Some(p0) => match parse_lp(t, p0) {
            Option::None => Option::None,
            Option::Some((key, p1)) => {
                if p1 < t.len() && t[p1] == ' ' {
                    match parse_lp(t, p1 + 1) {
                        Option::None => Option::None,
                        Option::Some((val, p2)) => {
                            if p2 < t.len() && t[p2] == '\n' {
                                Option::Some(((key, val), p2 + 1))
                            } else {
                                Option::None
                            }
                        },
                    }
                } else {
                    Option::None
                }
            },
        },
    }
}

/// Parses `k` metadata pairs, as [`spec_parse_pairs`] says.
fn parse_pairs(t: &Vec<char>, pos: usize, k: u64) -> (r: Option<(Vec<(String, String)>, usize)>)
    requires
        pos <= t@.len(),
    ensures
        match r {
            Option::Some(v) => spec_parse_pairs(t@, pos as int, k as nat) == Option::Some(
                (v.0.deep_view(), v.1 as int),
            ) && v.1 <= t@.len(),
            Option::None => spec_parse_pairs(t@, pos as int, k as nat) is None,
        },
    decreases k,
{
    if k == 0 {
        let empty: Vec<(String, String)> = Vec::new();
        proof {
            assert(empty.deep_view() =~= Seq::<(Seq<char>, Seq<char>)>::empty());
        }
        return Option::Some((empty, pos));
    }
    match parse_pair(t, pos) {
        Option::None => Option::None,
        Option::Some((kv, p)) => match parse_pairs(t, p, k - 1) {
            Option::None => Option::None,
            Option::Some((mut kvs, p2)) => {
                let ghost tailview = kvs.deep_view();
                kvs.insert(0, kv);
                proof {
                    assert(kvs.deep_view() =~= seq![(kv.0@, kv.1@)] + tailview);
                }
                Option::Some((kvs, p2))
            },
        },
    }
}

/// Parses one chunk block, as [`spec_parse_chunk`] says.
#[verifier::rlimit(50)]
fn parse_chunk(t: &Vec<char>, pos: usize) -> (r: Option<(ChunkData, usize)>)
    requires
        pos <= t@.len(),
    ensures
        match r {
            Option::Some(v) => spec_parse_chunk(t@, pos as int) == Option::Some(
                (v.0@, v.1 as int),
            ) && v.1 <= t@.len(),
            Option::None => spec_parse_chunk(t@, pos as int) is None,
        },
{
    let p0 = match match_lit(t, pos, "id ") {
        Option::Some(p) => p,
        Option::None => {
            return Option::None;
        },
    };
    let (id, p1) = match parse_lp(t, p0) {
        Option::Some(v) => v,
        Option::None => {
            return Option::None;
        },
    };
    if !(p1 < t.len() && t[p1] == '\n') {
        return Option::None;
    }
    let p2 = match match_lit(t, p1 + 1, "content ") {
        Option::Some(p) => p,
        Option::None => {
            return Option::None;
        },
    };
    let (content, p3) = match parse_lp(t, p2) {
        Option::Some(v) => v,
        Option::None => {
            return Option::None;
        },
    };
    if !(p3 < t.len() && t[p3] == '\n') {
        return Option::None;
    }
    let p4 = match match_lit(t, p3 + 1, "embedding ") {
        Option::Some(p) => p,
        Option::None => {
            return Option::None;
        },
    };
    let (k, p5) = match parse_nat(t, p4) {
        Option::Some(v) => v,
        Option::None => {
            return Option::None;
        },
    };
    let (emb, p6) = match parse_u32s(t, p5, k) {
        Option::Some(v) => v,
        Option::None => {
            return Option::None;
        },
    };
    if !(p6 < t.len() && t[p6] == '\n') {
        return Option::None;
    }
    let p7 = match match_lit(t, p6 + 1, "meta ") {
        Option::Some(p) => p,
        Option::None => {
            return Option::None;
        },
    };
    let (m, p8) = match parse_nat(t, p7) {
        Option::Some(v) => v,
        Option::None => {
            return Option::None;
        },
    };
    if !(p8 < t.len() && t[p8] == '\n') {
        return Option::None;
    }
    let (meta, p9) = match parse_pairs(t, p8 + 1, m) {
        Option::Some(v) => v,
        Option::None => {
            return Option::None;
        },
    };
    let chunk = ChunkData { id, content, embedding: emb, metadata: meta };
    proof {
        assert(chunk@ =~~= ChunkView {
            id: chunk.id@,
            content: chunk.content@,
            embedding: chunk.embedding@,
            metadata: chunk.metadata.deep_view(),
        });
    }
    Option::Some((chunk, p9))
}

/// Parses `k` chunk blocks, as [`spec_parse_chunks`] says.
fn parse_chunks(t: &Vec<char>, pos: usize, k: u64) -> (r: Option<(Vec<ChunkData>, usize)>)
    requires
        pos <= t@.len(),
    ensures
        match r {
            Option::Some(v) => spec_parse_chunks(t@, pos as int, k as nat) == Option::Some(
                (v.0.deep_view(), v.1 as int),
            ) && v.1 <= t@.len(),
            Option::None => spec_parse_chunks(t@, pos as int, k as nat) is None,
        },
    decreases k,
{
    if k == 0 {
        let empty: Vec<ChunkData> = Vec::new();
        proof {
            assert(empty.deep_view() =~= Seq::<ChunkView>::empty());
        }
        return Option::Some((empty, pos));
    }
    match parse_chunk(t, pos) {
        Option::None => Option::None,
        Option::Some((c, p)) => match parse_chunks(t, p, k - 1) {
            Option::None => Option::None,
            Option::Some((mut cs, p2)) => {
                let ghost tailview = cs.deep_view();
                cs.insert(0, c);
                proof {
                    assert(cs.deep_view() =~= seq![c@] + tailview);
                }
                Option::Some((cs, p2))
            },
        },
    }
}

/// Parses a whole persisted store, as [`spec_parse_store`] says: the parse
/// succeeds exactly when the document is a well-formed store rendering, and
/// anything else is reported as [`StoreError::Corrupt`].
#[verifier::loop_isolation(false)]
pub fn parse_store_chars(t: &Vec<char>) -> (r: Result<VectorStore, StoreError>)
    ensures
        match r {
            Ok(st) => spec_parse_store(t@) == Option::Some(st@) && st@.wf(),
            Err(e) => e == StoreError::Corrupt && spec_parse_store(t@) is None,
        },
{
    let p0 = match match_lit(t, 0, "vectorstore 1\ndim ") {
        Option::Some(p) => p,
        Option::None => {
            return Err(StoreError::Corrupt);
        },
    };
    let (dim, p1) = match parse_nat(t, p0) {
        Option::Some(v) => v,
        Option::None => {
            return Err(StoreError::Corrupt);
        },
    };
    if dim > usize::MAX as u64 {
        return Err(StoreError::Corrupt);
    }
    if !(p1 < t.len() && t[p1] == '\n') {
        return Err(StoreError::Corrupt);
    }
    let p2 = match match_lit(t, p1 + 1, "count ") {
        Option::Some(p) => p,
        Option::None => {
            return Err(StoreError::Corrupt);
        },
    };
    let (cnt, p3) = match parse_nat(t, p2) {
        Option::Some(v) => v,
        Option::None => {
            return Err(StoreError::Corrupt);
        },
    };
    if !(p3 < t.len() && t[p3] == '\n') {
        return Err(StoreError::Corrupt);
    }
    let (chunks, p4) = match parse_chunks(t, p3 + 1, cnt) {
        Option::Some(v) => v,
        Option::None => {
            return Err(StoreError::Corrupt);
        },
    };
    if p4 != t.len() {
        return Err(StoreError::Corrupt);
    }
    let dim_us = dim as usize;
    let mut i: usize = 0;
    while i < chunks.len()
        invariant
            i <= chunks@.len(),
            forall|j: int|
                0 <= j < i ==> (#[trigger] chunks.deep_view()[j]).embedding.len() == dim_us,
        decreases chunks@.len() - i,
    {
        if chunks[i].embedding.len() != dim_us {
            proof {
                let v = StoreView { chunks: chunks.deep_view(), embedding_dim: dim as nat };
                assert(v.chunks[i as int] == chunks.deep_view()[i as int]);
                assert(v.chunks[i as int].embedding.len() != v.embedding_dim);
                assert(!v.wf());
            }
            return Err(StoreError::Corrupt);
        }
        i = i + 1;
    }
    let st = VectorStore { chunks, embedding_dim: dim_us };
    proof {
        let v = StoreView { chunks: st.chunks.deep_view(), embedding_dim: dim as nat };
        assert forall|j: int| 0 <= j < v.chunks.len() implies (#[trigger] v.chunks[j]).embedding.len()
            == v.embedding_dim by {
            assert(v.chunks[j] == st.chunks.deep_view()[j]);
        }
        assert(v.wf());
        assert(st@ =~~= v);
        assert(spec_parse_store(t@) == Option::Some(st@));
    }
    Ok(st)
}

/// Parses a whole persisted store from text.
pub fn parse_store(text: &str) -> (r: Result<VectorStore, StoreError>)
    ensures
        match r {
            Ok(st) => spec_parse_store(text@) == Option::Some(st@) && st@.wf(),
            Err(e) => e == StoreError::Corrupt && spec_parse_store(text@) is None,
        },
{
    let t = string_to_chars(text);
    parse_store_chars(&t)
}

} // verus!
