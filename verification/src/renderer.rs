//! The renderer: serializes the scanned segments back to text. Plain text
//! and the trailing remainder are emitted verbatim, raw-escaped regions are
//! re-wrapped exactly as they were read, and a fenced code block whose
//! content holds a templating directive is additionally surrounded by
//! `{% raw %}` and `{% endraw %}` markers, each on a line of its own side of
//! the fence.

use vstd::prelude::*;
use crate::pattern::{
    fence_pat, raw_open_pat, raw_close_pat, dir_open_pat, dir_close_pat, nl_pat, matches_at,
    lemma_find_pat, fence_bytes, raw_open_bytes, raw_close_bytes, dir_open_bytes,
    dir_close_bytes, nl_bytes, find_bytes,
};
use crate::scanner::{SegKind, Segment, GSeg, segs_view, scan_from, scan, lemma_scan_from_wf, wf_gsegs};

verus! {

/// The content holds a templating directive: a `{%` somewhere, with a `%}`
/// starting at or after the first candidate's end.
pub open spec fn has_directive(c: Seq<u8>) -> bool {
    exists|i: int, j: int|
        {
            &&& matches_at(c, i, c.len() as int, dir_open_pat())
            &&& matches_at(c, j, c.len() as int, dir_close_pat())
            &&& i + 2 <= j
        }
}

/// How one segment is serialized: text verbatim; raw-escaped regions
/// re-wrapped unchanged; code re-fenced, and wrapped in raw markers when its
/// content holds a directive.
pub open spec fn render_seg(s: Seq<u8>, g: GSeg) -> Seq<u8> {
    let c = s.subrange(g.start, g.end);
    match g.kind {
        SegKind::Text => c,
        SegKind::RawEscaped => raw_open_pat() + c + raw_close_pat(),
        SegKind::Code => if has_directive(c) {
            raw_open_pat() + nl_pat() + fence_pat() + c + fence_pat() + nl_pat() + raw_close_pat()
        } else {
            fence_pat() + c + fence_pat()
        },
    }
}

/// The serialization of a segment sequence: each segment in order.
pub open spec fn render_segs(s: Seq<u8>, gs: Seq<GSeg>) -> Seq<u8>
    decreases gs.len(),
{
    if gs.len() == 0 {
        Seq::<u8>::empty()
    } else {
        render_seg(s, gs[0]) + render_segs(s, gs.skip(1))
    }
}

/// Serialization distributes over concatenation of segment sequences.
pub proof fn lemma_render_segs_append(s: Seq<u8>, a: Seq<GSeg>, b: Seq<GSeg>)
    ensures
        render_segs(s, a + b) == render_segs(s, a) + render_segs(s, b),
    decreases a.len(),
{
    if a.len() == 0 {
        assert(a + b =~= b);
        assert(render_segs(s, a) + render_segs(s, b) =~= render_segs(s, b));
    } else {
        assert((a + b).skip(1) =~= a.skip(1) + b);
        lemma_render_segs_append(s, a.skip(1), b);
        assert((a + b)[0] == a[0]);
        assert(render_segs(s, a + b) == render_seg(s, a[0]) + (render_segs(s, a.skip(1))
            + render_segs(s, b)));
        assert(render_seg(s, a[0]) + (render_segs(s, a.skip(1)) + render_segs(s, b)) =~= (
        render_seg(s, a[0]) + render_segs(s, a.skip(1))) + render_segs(s, b));
    }
}

/// The whole transformation: scan, serialize every segment, then emit the
/// trailing remainder verbatim.
pub open spec fn transform_spec(s: Seq<u8>) -> Seq<u8> {
    render_segs(s, scan_from(s, 0).0) + s.subrange(scan_from(s, 0).1, s.len() as int)
}

/// Does `text[start..end]` hold a templating directive?
pub fn needs_escaping(text: &Vec<u8>, start: usize, end: usize) -> (r: bool)
    requires
        start <= end,
        end <= text@.len(),
    ensures
        r == has_directive(text@.subrange(start as int, end as int)),
{
    let ghost c = text@.subrange(start as int, end as int);
    let dir_open_v = dir_open_bytes();
    let dir_close_v = dir_close_bytes();
    let r1 = find_bytes(text, start, end, &dir_open_v);
    match r1 {
        None => {
            proof {
                lemma_find_pat(text@, start as int, end as int, dir_open_pat());
                if has_directive(c) {
                    let (i, j): (int, int) = choose|i: int, j: int|
                        {
                            &&& matches_at(c, i, c.len() as int, dir_open_pat())
                            &&& matches_at(c, j, c.len() as int, dir_close_pat())
                            &&& i + 2 <= j
                        };
                    assert(c.subrange(i, i + 2) =~= text@.subrange(start + i, start + i + 2));
                    assert(matches_at(text@, start + i, end as int, dir_open_pat()));
                    assert(false);
                }
            }
            false
        },
        Some(i) => {
            let r2 = find_bytes(text, i + 2, end, &dir_close_v);
            match r2 {
                Some(j) => {
                    proof {
                        lemma_find_pat(text@, start as int, end as int, dir_open_pat());
                        lemma_find_pat(text@, i + 2, end as int, dir_close_pat());
                        assert(text@.subrange(i as int, i + 2) =~= c.subrange(
                            i - start,
                            i - start + 2,
                        ));
                        assert(text@.subrange(j as int, j + 2) =~= c.subrange(
                            j - start,
                            j - start + 2,
                        ));
                        assert(matches_at(c, i - start, c.len() as int, dir_open_pat()));
                        assert(matches_at(c, j - start, c.len() as int, dir_close_pat()));
                        assert(has_directive(c));
                    }
                    true
                },
                None => {
                    proof {
                        lemma_find_pat(text@, start as int, end as int, dir_open_pat());
                        lemma_find_pat(text@, i + 2, end as int, dir_close_pat());
                        if has_directive(c) {
                            let (x, y): (int, int) = choose|x: int, y: int|
                                {
                                    &&& matches_at(c, x, c.len() as int, dir_open_pat())
                                    &&& matches_at(c, y, c.len() as int, dir_close_pat())
                                    &&& x + 2 <= y
                                };
                            assert(c.subrange(x, x + 2) =~= text@.subrange(
                                start + x,
                                start + x + 2,
                            ));
                            assert(c.subrange(y, y + 2) =~= text@.subrange(
                                start + y,
                                start + y + 2,
                            ));
                            assert(matches_at(text@, start + x, end as int, dir_open_pat()));
                            assert(matches_at(text@, start + y, end as int, dir_close_pat()));
                            // i is the first `{%`, so x lands at or after it,
                            // and y starts at or after i + 2: contradiction.
                            assert(start + x >= i);
                            assert(false);
                        }
                    }
                    false
                },
            }
        },
    }
}

/// Appends `text[a..b]` to `out`.
fn push_range(out: &mut Vec<u8>, text: &Vec<u8>, a: usize, b: usize)
    requires
        a <= b,
        b <= text@.len(),
    ensures
        final(out)@ == old(out)@ + text@.subrange(a as int, b as int),
{
    let ghost out0 = out@;
    let mut i: usize = a;
    while i < b
        invariant
            a <= i <= b <= text@.len(),
            out@ == out0 + text@.subrange(a as int, i as int),
        decreases b - i,
    {
        out.push(text[i]);
        proof {
            assert(text@.subrange(a as int, i + 1) =~= text@.subrange(a as int, i as int).push(
                text@[i as int],
            ));
            assert(out0 + text@.subrange(a as int, i + 1) =~= (out0 + text@.subrange(
                a as int,
                i as int,
            )).push(text@[i as int]));
        }
        i += 1;
    }
}

/// Appends all of `pat` to `out`.
fn push_bytes(out: &mut Vec<u8>, pat: &Vec<u8>)
    ensures
        final(out)@ == old(out)@ + pat@,
{
    let ghost out0 = out@;
    let mut i: usize = 0;
    while i < pat.len()
        invariant
            0 <= i <= pat@.len(),
            out@ == out0 + pat@.subrange(0, i as int),
        decreases pat@.len() - i,
    {
        out.push(pat[i]);
        proof {
            assert(pat@.subrange(0, i + 1) =~= pat@.subrange(0, i as int).push(pat@[i as int]));
            assert(out0 + pat@.subrange(0, i + 1) =~= (out0 + pat@.subrange(0, i as int)).push(
                pat@[i as int],
            ));
        }
        i += 1;
    }
    proof {
        assert(out0 + pat@.subrange(0, pat@.len() as int) =~= out0 + pat@);
    }
}

/// Serializes the scanned segments and the trailing remainder back to text.
pub fn render(text: &Vec<u8>, segs: &Vec<Segment>, rem_start: usize) -> (out: Vec<u8>)
    requires
        wf_gsegs(text@, segs_view(segs@)),
        rem_start <= text@.len(),
    ensures
        out@ == render_segs(text@, segs_view(segs@)) + text@.subrange(
            rem_start as int,
            text@.len() as int,
        ),
{
    let raw_open_v = raw_open_bytes();
    let raw_close_v = raw_close_bytes();
    let fence_v = fence_bytes();
    let nl_v = nl_bytes();
    let ghost gs = segs_view(segs@);
    let mut out: Vec<u8> = Vec::new();
    let mut k: usize = 0;
    while k < segs.len()
        invariant
            0 <= k <= segs@.len(),
            gs == segs_view(segs@),
            wf_gsegs(text@, gs),
            raw_open_v@ == raw_open_pat(),
            raw_close_v@ == raw_close_pat(),
            fence_v@ == fence_pat(),
            nl_v@ == nl_pat(),
            out@ == render_segs(text@, gs.take(k as int)),
        decreases segs@.len() - k,
    {
        let seg = segs[k];
        proof {
            assert(gs[k as int] == seg@);
            assert(gs.take(k + 1) =~= gs.take(k as int) + seq![gs[k as int]]);
            lemma_render_segs_append(text@, gs.take(k as int), seq![gs[k as int]]);
            assert(render_segs(text@, seq![gs[k as int]]) == render_seg(text@, gs[k as int])
                + render_segs(text@, seq![gs[k as int]].skip(1)));
            assert(seq![gs[k as int]].skip(1) =~= Seq::<GSeg>::empty());
            assert(render_seg(text@, gs[k as int]) + Seq::<u8>::empty() =~= render_seg(
                text@,
                gs[k as int],
            ));
        }
        let ghost out_pre = out@;
        let ghost c = text@.subrange(seg.start as int, seg.end as int);
        match seg.kind {
            SegKind::Text => {
                push_range(&mut out, text, seg.start, seg.end);
            },
            SegKind::RawEscaped => {
                push_bytes(&mut out, &raw_open_v);
                push_range(&mut out, text, seg.start, seg.end);
                push_bytes(&mut out, &raw_close_v);
                proof {
                    assert(out@ =~= out_pre + (raw_open_pat() + c + raw_close_pat()));
                }
            },
            SegKind::Code => {
                if needs_escaping(text, seg.start, seg.end) {
                    push_bytes(&mut out, &raw_open_v);
                    push_bytes(&mut out, &nl_v);
                    push_bytes(&mut out, &fence_v);
                    push_range(&mut out, text, seg.start, seg.end);
                    push_bytes(&mut out, &fence_v);
                    push_bytes(&mut out, &nl_v);
                    push_bytes(&mut out, &raw_close_v);
                    proof {
                        assert(out@ =~= out_pre + (raw_open_pat() + nl_pat() + fence_pat() + c
                            + fence_pat() + nl_pat() + raw_close_pat()));
                    }
                } else {
                    push_bytes(&mut out, &fence_v);
                    push_range(&mut out, text, seg.start, seg.end);
                    push_bytes(&mut out, &fence_v);
                    proof {
                        assert(out@ =~= out_pre + (fence_pat() + c + fence_pat()));
                    }
                }
            },
        }
        k += 1;
    }
    proof {
        assert(gs.take(gs.len() as int) =~= gs);
    }
    push_range(&mut out, text, rem_start, text.len());
    out
}

/// The whole transformation, as the document rewriter applies it: the output
/// is exactly `transform_spec` of the input. A document with no recognized
/// delimited regions comes back unchanged, byte for byte.
pub fn transform(text: &Vec<u8>) -> (out: Vec<u8>)
    ensures
        out@ == transform_spec(text@),
{
    proof {
        lemma_scan_from_wf(text@, 0);
    }
    let (segs, rem_start) = scan(text);
    render(text, &segs, rem_start)
}

} // verus!
