//! The library's laws, proved once and for all inputs: the scan is lossless
//! over the document's structure, documents without recognizable delimited
//! regions pass through unchanged, a code block is reproduced exactly —
//! bare when its content holds no directive, wrapped in raw markers when it
//! does — and a document whose directive-bearing code is already wrapped is
//! a fixed point of the transformation.

use vstd::prelude::*;
use crate::pattern::{
    fence_pat, raw_open_pat, raw_close_pat, nl_pat, matches_at, find_pat, has_pat, lemma_find_pat,
};
use crate::scanner::{
    SegKind, GSeg, raw_at, code_at, opener_at, next_opener, lemma_next_opener, scan_from,
    lemma_scan_from_wf,
};
use crate::renderer::{has_directive, render_seg, render_segs, lemma_render_segs_append, transform_spec};

verus! {

/// The segments of the scan of the whole document.
pub open spec fn doc_segs(s: Seq<u8>) -> Seq<GSeg> {
    scan_from(s, 0).0
}

/// Where the trailing remainder of the whole document begins.
pub open spec fn doc_rem(s: Seq<u8>) -> int {
    scan_from(s, 0).1
}

/// The bytes of `s` that one segment was read from, delimiters included.
pub open spec fn seg_source(s: Seq<u8>, g: GSeg) -> Seq<u8> {
    let c = s.subrange(g.start, g.end);
    match g.kind {
        SegKind::Text => c,
        SegKind::Code => fence_pat() + c + fence_pat(),
        SegKind::RawEscaped => raw_open_pat() + c + raw_close_pat(),
    }
}

/// The bytes that a segment sequence was read from, in order.
pub open spec fn segs_source(s: Seq<u8>, gs: Seq<GSeg>) -> Seq<u8>
    decreases gs.len(),
{
    if gs.len() == 0 {
        Seq::<u8>::empty()
    } else {
        seg_source(s, gs[0]) + segs_source(s, gs.skip(1))
    }
}

proof fn lemma_segs_source_append(s: Seq<u8>, a: Seq<GSeg>, b: Seq<GSeg>)
    ensures
        segs_source(s, a + b) == segs_source(s, a) + segs_source(s, b),
    decreases a.len(),
{
    if a.len() == 0 {
        assert(a + b =~= b);
        assert(segs_source(s, a) + segs_source(s, b) =~= segs_source(s, b));
    } else {
        assert((a + b).skip(1) =~= a.skip(1) + b);
        lemma_segs_source_append(s, a.skip(1), b);
        assert((a + b)[0] == a[0]);
        assert(seg_source(s, a[0]) + (segs_source(s, a.skip(1)) + segs_source(s, b)) =~= (
        seg_source(s, a[0]) + segs_source(s, a.skip(1))) + segs_source(s, b));
    }
}

proof fn lemma_segs_source_singleton(s: Seq<u8>, g: GSeg)
    ensures
        segs_source(s, seq![g]) == seg_source(s, g),
{
    assert(seq![g].skip(1) =~= Seq::<GSeg>::empty());
    assert(segs_source(s, seq![g].skip(1)) == Seq::<u8>::empty());
    assert(seq![g][0] == g);
    assert(seg_source(s, g) + Seq::<u8>::empty() =~= seg_source(s, g));
}

proof fn lemma_render_segs_singleton(s: Seq<u8>, g: GSeg)
    ensures
        render_segs(s, seq![g]) == render_seg(s, g),
{
    assert(seq![g].skip(1) =~= Seq::<GSeg>::empty());
    assert(render_segs(s, seq![g].skip(1)) == Seq::<u8>::empty());
    assert(seq![g][0] == g);
    assert(render_seg(s, g) + Seq::<u8>::empty() =~= render_seg(s, g));
}

/// The scan is lossless over the document's structure: putting every
/// segment's source bytes back together, followed by the remainder, yields
/// exactly the text that was scanned.
#[verifier::rlimit(100)]
pub proof fn lemma_scan_lossless(s: Seq<u8>, p: int)
    requires
        0 <= p <= s.len(),
    ensures
        segs_source(s, scan_from(s, p).0) + s.subrange(scan_from(s, p).1, s.len() as int)
            == s.subrange(p, s.len() as int),
    decreases s.len() - p,
{
    let len = s.len() as int;
    if p >= len {
        assert(segs_source(s, scan_from(s, p).0) + s.subrange(scan_from(s, p).1, len)
            =~= s.subrange(p, len));
    } else if raw_at(s, p) {
        lemma_find_pat(s, p + 9, len, raw_close_pat());
        let q = find_pat(s, p + 9, len, raw_close_pat()).unwrap();
        lemma_scan_from_wf(s, q + 12);
        lemma_scan_lossless(s, q + 12);
        let g = GSeg { kind: SegKind::RawEscaped, start: p + 9, end: q };
        let rest = scan_from(s, q + 12);
        lemma_segs_source_append(s, seq![g], rest.0);
        lemma_segs_source_singleton(s, g);
        assert(s.subrange(p, p + 9) == raw_open_pat());
        assert(s.subrange(q, q + 12) == raw_close_pat());
        assert(segs_source(s, scan_from(s, p).0) + s.subrange(scan_from(s, p).1, len) =~= (
        raw_open_pat() + s.subrange(p + 9, q) + raw_close_pat()) + (segs_source(s, rest.0)
            + s.subrange(rest.1, len)));
        assert((raw_open_pat() + s.subrange(p + 9, q) + raw_close_pat()) + s.subrange(q + 12, len)
            =~= s.subrange(p, len));
    } else if code_at(s, p) {
        lemma_find_pat(s, p + 3, len, fence_pat());
        let q = find_pat(s, p + 3, len, fence_pat()).unwrap();
        lemma_scan_from_wf(s, q + 3);
        lemma_scan_lossless(s, q + 3);
        let g = GSeg { kind: SegKind::Code, start: p + 3, end: q };
        let rest = scan_from(s, q + 3);
        lemma_segs_source_append(s, seq![g], rest.0);
        lemma_segs_source_singleton(s, g);
        assert(s.subrange(p, p + 3) == fence_pat());
        assert(s.subrange(q, q + 3) == fence_pat());
        assert(segs_source(s, scan_from(s, p).0) + s.subrange(scan_from(s, p).1, len) =~= (
        fence_pat() + s.subrange(p + 3, q) + fence_pat()) + (segs_source(s, rest.0) + s.subrange(
            rest.1,
            len,
        )));
        assert((fence_pat() + s.subrange(p + 3, q) + fence_pat()) + s.subrange(q + 3, len)
            =~= s.subrange(p, len));
    } else {
        lemma_next_opener(s, p);
        match next_opener(s, p) {
            None => {
                assert(segs_source(s, scan_from(s, p).0) + s.subrange(scan_from(s, p).1, len)
                    =~= s.subrange(p, len));
            },
            Some(q) => {
                lemma_scan_from_wf(s, q);
                lemma_scan_lossless(s, q);
                let g = GSeg { kind: SegKind::Text, start: p, end: q };
                let rest = scan_from(s, q);
                lemma_segs_source_append(s, seq![g], rest.0);
                lemma_segs_source_singleton(s, g);
                assert(segs_source(s, scan_from(s, p).0) + s.subrange(scan_from(s, p).1, len)
                    =~= s.subrange(p, q) + (segs_source(s, rest.0) + s.subrange(rest.1, len)));
                assert(s.subrange(p, q) + s.subrange(q, len) =~= s.subrange(p, len));
            },
        }
    }
}

/// Segment contents lie in `[p, r)` in strictly increasing, non-overlapping
/// source order.
pub open spec fn ordered_gsegs(gs: Seq<GSeg>, p: int, r: int) -> bool {
    forall|k: int|
        0 <= k < gs.len() ==> p <= (#[trigger] gs[k]).start && gs[k].end <= r && (k + 1 < gs.len()
            ==> gs[k].end < gs[k + 1].start)
}

/// The scan's segments appear in strictly increasing, non-overlapping
/// source-offset order, all before the trailing remainder.
#[verifier::rlimit(100)]
pub proof fn lemma_scan_ordered(s: Seq<u8>, p: int)
    requires
        0 <= p <= s.len(),
    ensures
        ordered_gsegs(scan_from(s, p).0, p, scan_from(s, p).1),
    decreases s.len() - p,
{
    let len = s.len() as int;
    if p >= len {
    } else if raw_at(s, p) {
        lemma_find_pat(s, p + 9, len, raw_close_pat());
        let q = find_pat(s, p + 9, len, raw_close_pat()).unwrap();
        lemma_scan_from_wf(s, q + 12);
        lemma_scan_ordered(s, q + 12);
        let g = GSeg { kind: SegKind::RawEscaped, start: p + 9, end: q };
        let rest = scan_from(s, q + 12);
        let gs = seq![g] + rest.0;
        assert forall|k: int|
            0 <= k < gs.len() implies p <= (#[trigger] gs[k]).start && gs[k].end <= rest.1 && (k + 1
            < gs.len() ==> gs[k].end < gs[k + 1].start) by {
            if k > 0 {
                assert(gs[k] == rest.0[k - 1]);
            }
            if k + 1 < gs.len() {
                assert(gs[k + 1] == rest.0[k]);
            }
        }
    } else if code_at(s, p) {
        lemma_find_pat(s, p + 3, len, fence_pat());
        let q = find_pat(s, p + 3, len, fence_pat()).unwrap();
        lemma_scan_from_wf(s, q + 3);
        lemma_scan_ordered(s, q + 3);
        let g = GSeg { kind: SegKind::Code, start: p + 3, end: q };
        let rest = scan_from(s, q + 3);
        let gs = seq![g] + rest.0;
        assert forall|k: int|
            0 <= k < gs.len() implies p <= (#[trigger] gs[k]).start && gs[k].end <= rest.1 && (k + 1
            < gs.len() ==> gs[k].end < gs[k + 1].start) by {
            if k > 0 {
                assert(gs[k] == rest.0[k - 1]);
            }
            if k + 1 < gs.len() {
                assert(gs[k + 1] == rest.0[k]);
            }
        }
    } else {
        lemma_next_opener(s, p);
        match next_opener(s, p) {
            None => {},
            Some(q) => {
                lemma_scan_from_wf(s, q);
                lemma_scan_ordered(s, q);
                let g = GSeg { kind: SegKind::Text, start: p, end: q };
                let rest = scan_from(s, q);
                let gs = seq![g] + rest.0;
                // The segment after a text segment is delimited, so its
                // content starts strictly past the text's end.
                assert forall|k: int|
                    0 <= k < gs.len() implies p <= (#[trigger] gs[k]).start && gs[k].end <= rest.1
                    && (k + 1 < gs.len() ==> gs[k].end < gs[k + 1].start) by {
                    if k > 0 {
                        assert(gs[k] == rest.0[k - 1]);
                    }
                    if k + 1 < gs.len() {
                        assert(gs[k + 1] == rest.0[k]);
                    }
                    if k == 0 && 1 < gs.len() {
                        assert(rest.0[0] == scan_from(s, q).0[0]);
                        lemma_scan_head_past_opener(s, q);
                    }
                }
            },
        }
    }
}

/// At a position where a delimited region starts, the scan's first segment's
/// content begins strictly past that position.
proof fn lemma_scan_head_past_opener(s: Seq<u8>, q: int)
    requires
        0 <= q < s.len(),
        opener_at(s, q),
    ensures
        scan_from(s, q).0.len() > 0,
        scan_from(s, q).0[0].start > q,
{
    let len = s.len() as int;
    if raw_at(s, q) {
        lemma_find_pat(s, q + 9, len, raw_close_pat());
        let c = find_pat(s, q + 9, len, raw_close_pat()).unwrap();
        let rest = scan_from(s, c + 12);
        assert((seq![GSeg { kind: SegKind::RawEscaped, start: q + 9, end: c }] + rest.0)[0].start
            == q + 9);
    } else {
        lemma_find_pat(s, q + 3, len, fence_pat());
        let c = find_pat(s, q + 3, len, fence_pat()).unwrap();
        let rest = scan_from(s, c + 3);
        assert((seq![GSeg { kind: SegKind::Code, start: q + 3, end: c }] + rest.0)[0].start == q
            + 3);
    }
}

/// A document in which no delimited region ever starts — no code fence with
/// a closing fence, no raw opener with its closer, whatever stray unmatched
/// delimiters it holds — is returned unchanged.
pub proof fn lemma_no_openers_identity(s: Seq<u8>)
    requires
        forall|p: int| !opener_at(s, p),
    ensures
        transform_spec(s) == s,
{
    lemma_next_opener(s, 0);
    assert(scan_from(s, 0).0 =~= Seq::<GSeg>::empty());
    assert(scan_from(s, 0).1 == 0);
    assert(render_segs(s, Seq::<GSeg>::empty()) + s.subrange(0, s.len() as int) =~= s);
}

/// A document holding no ``` fence and no `{% raw %}` marker at all is
/// returned unchanged, byte for byte.
pub proof fn lemma_no_markers_identity(s: Seq<u8>)
    requires
        !has_pat(s, fence_pat()),
        !has_pat(s, raw_open_pat()),
    ensures
        transform_spec(s) == s,
{
    assert forall|p: int| !opener_at(s, p) by {
        if opener_at(s, p) {
            if raw_at(s, p) {
                assert(matches_at(s, p, s.len() as int, raw_open_pat()));
            } else {
                assert(matches_at(s, p, s.len() as int, fence_pat()));
            }
        }
    }
    lemma_no_openers_identity(s);
}

/// No code segment of `gs` still holds a directive in its content.
pub open spec fn code_segs_clean(s: Seq<u8>, gs: Seq<GSeg>) -> bool {
    forall|k: int|
        0 <= k < gs.len() && (#[trigger] gs[k]).kind == SegKind::Code ==> !has_directive(
            s.subrange(gs[k].start, gs[k].end),
        )
}

proof fn lemma_render_eq_source(s: Seq<u8>, gs: Seq<GSeg>)
    requires
        code_segs_clean(s, gs),
    ensures
        render_segs(s, gs) == segs_source(s, gs),
    decreases gs.len(),
{
    if gs.len() == 0 {
    } else {
        assert forall|k: int|
            0 <= k < gs.skip(1).len() && (#[trigger] gs.skip(1)[k]).kind == SegKind::Code
            implies !has_directive(s.subrange(gs.skip(1)[k].start, gs.skip(1)[k].end)) by {
            assert(gs.skip(1)[k] == gs[k + 1]);
        }
        lemma_render_eq_source(s, gs.skip(1));
        assert(render_seg(s, gs[0]) == seg_source(s, gs[0]));
    }
}

/// Idempotence under the fixed wrapping policy: a document none of whose
/// code segments still holds a directive is a fixed point. In particular a
/// document whose directive-bearing fences are already wrapped in raw
/// markers scans those regions as raw-escaped — raw recognition takes
/// precedence over re-reading their content as fresh code fences — so it is
/// not wrapped a second time.
pub proof fn lemma_clean_fixpoint(s: Seq<u8>)
    requires
        code_segs_clean(s, doc_segs(s)),
    ensures
        transform_spec(s) == s,
{
    lemma_render_eq_source(s, doc_segs(s));
    lemma_scan_lossless(s, 0);
    assert(s.subrange(0, s.len() as int) =~= s);
}

/// A code fence whose content holds no directive is reproduced in the output
/// exactly as it stands — ``` then content then ``` — with no raw wrapper
/// added, between the renderings of its neighbours.
pub proof fn lemma_plain_code_kept(s: Seq<u8>, k: int)
    requires
        0 <= k < doc_segs(s).len(),
        doc_segs(s)[k].kind == SegKind::Code,
        !has_directive(s.subrange(doc_segs(s)[k].start, doc_segs(s)[k].end)),
    ensures
        transform_spec(s) == render_segs(s, doc_segs(s).take(k)) + (fence_pat() + s.subrange(
            doc_segs(s)[k].start,
            doc_segs(s)[k].end,
        ) + fence_pat()) + render_segs(s, doc_segs(s).skip(k + 1)) + s.subrange(
            doc_rem(s),
            s.len() as int,
        ),
{
    let gs = doc_segs(s);
    assert(gs =~= gs.take(k) + seq![gs[k]] + gs.skip(k + 1));
    lemma_render_segs_append(s, gs.take(k) + seq![gs[k]], gs.skip(k + 1));
    lemma_render_segs_append(s, gs.take(k), seq![gs[k]]);
    lemma_render_segs_singleton(s, gs[k]);
    assert(render_seg(s, gs[k]) == fence_pat() + s.subrange(gs[k].start, gs[k].end)
        + fence_pat());
    assert(transform_spec(s) =~= render_segs(s, gs.take(k)) + (fence_pat() + s.subrange(
        gs[k].start,
        gs[k].end,
    ) + fence_pat()) + render_segs(s, gs.skip(k + 1)) + s.subrange(doc_rem(s), s.len() as int));
}

/// A code fence whose content does hold a directive is reproduced wrapped:
/// `{% raw %}`, a newline, the fenced block exactly as it stands, a newline,
/// `{% endraw %}`, between the renderings of its neighbours.
pub proof fn lemma_directive_code_wrapped(s: Seq<u8>, k: int)
    requires
        0 <= k < doc_segs(s).len(),
        doc_segs(s)[k].kind == SegKind::Code,
        has_directive(s.subrange(doc_segs(s)[k].start, doc_segs(s)[k].end)),
    ensures
        transform_spec(s) == render_segs(s, doc_segs(s).take(k)) + (raw_open_pat()
            + nl_pat() + fence_pat() + s.subrange(
            doc_segs(s)[k].start,
            doc_segs(s)[k].end,
        ) + fence_pat() + nl_pat() + raw_close_pat()) + render_segs(
            s,
            doc_segs(s).skip(k + 1),
        ) + s.subrange(doc_rem(s), s.len() as int),
{
    let gs = doc_segs(s);
    assert(gs =~= gs.take(k) + seq![gs[k]] + gs.skip(k + 1));
    lemma_render_segs_append(s, gs.take(k) + seq![gs[k]], gs.skip(k + 1));
    lemma_render_segs_append(s, gs.take(k), seq![gs[k]]);
    lemma_render_segs_singleton(s, gs[k]);
    assert(transform_spec(s) =~= render_segs(s, gs.take(k)) + render_seg(s, gs[k]) + render_segs(
        s,
        gs.skip(k + 1),
    ) + s.subrange(doc_rem(s), s.len() as int));
}

/// A region already wrapped in `{% raw %}` ... `{% endraw %}` round-trips
/// unchanged: it is re-emitted with exactly the markers it was read with,
/// between the renderings of its neighbours.
pub proof fn lemma_raw_roundtrip(s: Seq<u8>, k: int)
    requires
        0 <= k < doc_segs(s).len(),
        doc_segs(s)[k].kind == SegKind::RawEscaped,
    ensures
        transform_spec(s) == render_segs(s, doc_segs(s).take(k)) + (raw_open_pat() + s.subrange(
            doc_segs(s)[k].start,
            doc_segs(s)[k].end,
        ) + raw_close_pat()) + render_segs(s, doc_segs(s).skip(k + 1)) + s.subrange(
            doc_rem(s),
            s.len() as int,
        ),
{
    let gs = doc_segs(s);
    assert(gs =~= gs.take(k) + seq![gs[k]] + gs.skip(k + 1));
    lemma_render_segs_append(s, gs.take(k) + seq![gs[k]], gs.skip(k + 1));
    lemma_render_segs_append(s, gs.take(k), seq![gs[k]]);
    lemma_render_segs_singleton(s, gs[k]);
    assert(transform_spec(s) =~= render_segs(s, gs.take(k)) + (raw_open_pat() + s.subrange(
        gs[k].start,
        gs[k].end,
    ) + raw_close_pat()) + render_segs(s, gs.skip(k + 1)) + s.subrange(doc_rem(s), s.len() as int));
}

} // verus!
