//! The scanner: one left-to-right pass that partitions the document into
//! typed segments (plain text, fenced code, raw-escaped regions) plus the
//! unparsed trailing remainder.
//!
//! A `{% raw %}` opener with a later `{% endraw %}`, or a ``` fence with a
//! later closing fence, starts a segment; raw recognition takes precedence.
//! Plain text runs to the nearest position where either kind of delimited
//! region starts. An opener with no matching closer is never an error: its
//! text is absorbed into plain text or into the final remainder.

use vstd::prelude::*;
use crate::pattern::{
    fence_pat, raw_open_pat, raw_close_pat, matches_at, find_pat, lemma_find_pat, fence_bytes,
    raw_open_bytes, raw_close_bytes, bytes_match_at, find_bytes,
};

verus! {

/// The kind of one classified span of the source document.
#[derive(Clone, Copy, Debug, PartialEq, Eq, Structural)]
pub enum SegKind {
    /// Literal Markdown content, emitted unchanged.
    Text,
    /// The content strictly between a pair of ``` fences.
    Code,
    /// The content strictly between `{% raw %}` and `{% endraw %}`.
    RawEscaped,
}

/// One classified span: the content is `source[start..end]`, exclusive of
/// the delimiters themselves.
#[derive(Clone, Copy, Debug)]
pub struct Segment {
    pub kind: SegKind,
    pub start: usize,
    pub end: usize,
}

/// The mathematical counterpart of `Segment`, with unbounded positions.
pub struct GSeg {
    pub kind: SegKind,
    pub start: int,
    pub end: int,
}

impl View for Segment {
    type V = GSeg;

    open spec fn view(&self) -> GSeg {
        GSeg { kind: self.kind, start: self.start as int, end: self.end as int }
    }
}

/// The segments of a vector, as their mathematical counterparts.
pub open spec fn segs_view(v: Seq<Segment>) -> Seq<GSeg> {
    v.map_values(|seg: Segment| seg@)
}

/// A raw-escaped region starts at `p`: the `{% raw %}` opener sits there and
/// a `{% endraw %}` closer follows.
pub open spec fn raw_at(s: Seq<u8>, p: int) -> bool {
    &&& matches_at(s, p, s.len() as int, raw_open_pat())
    &&& find_pat(s, p + raw_open_pat().len(), s.len() as int, raw_close_pat()).is_some()
}

/// A fenced code block starts at `p`: a ``` fence sits there and a closing
/// fence follows.
pub open spec fn code_at(s: Seq<u8>, p: int) -> bool {
    &&& matches_at(s, p, s.len() as int, fence_pat())
    &&& find_pat(s, p + fence_pat().len(), s.len() as int, fence_pat()).is_some()
}

/// Either kind of delimited region starts at `p`.
pub open spec fn opener_at(s: Seq<u8>, p: int) -> bool {
    raw_at(s, p) || code_at(s, p)
}

/// The nearest position at or after `p` where a delimited region starts.
pub open spec fn next_opener(s: Seq<u8>, p: int) -> Option<int>
    decreases s.len() - p,
{
    if p >= s.len() {
        None
    } else if opener_at(s, p) {
        Some(p)
    } else {
        next_opener(s, p + 1)
    }
}

/// What `next_opener` returns: the nearest opener position, before which no
/// region starts; or nothing when no region starts at or after `p`.
pub proof fn lemma_next_opener(s: Seq<u8>, p: int)
    ensures
        match next_opener(s, p) {
            Some(q) => p <= q < s.len() && opener_at(s, q) && forall|k: int|
                p <= k < q ==> !opener_at(s, k),
            None => forall|k: int| k >= p ==> !opener_at(s, k),
        },
    decreases s.len() - p,
{
    if p >= s.len() {
        assert forall|k: int| k >= p implies !opener_at(s, k) by {
            if opener_at(s, k) {
                assert(k + 3 <= s.len() || k + 9 <= s.len());
            }
        }
    } else if opener_at(s, p) {
    } else {
        lemma_next_opener(s, p + 1);
    }
}

/// The scan of `s` from position `p` on: the segments in source order, and
/// the position where the unparsed trailing remainder begins.
pub open spec fn scan_from(s: Seq<u8>, p: int) -> (Seq<GSeg>, int)
    decreases s.len() - p,
    via scan_from_decreases
{
    if p < 0 || p >= s.len() {
        (Seq::<GSeg>::empty(), p)
    } else if raw_at(s, p) {
        let q = find_pat(s, p + 9, s.len() as int, raw_close_pat()).unwrap();
        let rest = scan_from(s, q + 12);
        (seq![GSeg { kind: SegKind::RawEscaped, start: p + 9, end: q }] + rest.0, rest.1)
    } else if code_at(s, p) {
        let q = find_pat(s, p + 3, s.len() as int, fence_pat()).unwrap();
        let rest = scan_from(s, q + 3);
        (seq![GSeg { kind: SegKind::Code, start: p + 3, end: q }] + rest.0, rest.1)
    } else {
        match next_opener(s, p) {
            None => (Seq::<GSeg>::empty(), p),
            Some(q) => {
                let rest = scan_from(s, q);
                (seq![GSeg { kind: SegKind::Text, start: p, end: q }] + rest.0, rest.1)
            },
        }
    }
}

#[via_fn]
proof fn scan_from_decreases(s: Seq<u8>, p: int) {
    if 0 <= p < s.len() {
        if raw_at(s, p) {
            lemma_find_pat(s, p + 9, s.len() as int, raw_close_pat());
        } else if code_at(s, p) {
            lemma_find_pat(s, p + 3, s.len() as int, fence_pat());
        } else {
            lemma_next_opener(s, p);
        }
    }
}

/// Every segment of the scan is a well-formed span of `s`, and the remainder
/// starts between `p` and the end.
pub open spec fn wf_gsegs(s: Seq<u8>, gs: Seq<GSeg>) -> bool {
    forall|k: int| 0 <= k < gs.len() ==> 0 <= (#[trigger] gs[k]).start <= gs[k].end <= s.len()
}

pub proof fn lemma_scan_from_wf(s: Seq<u8>, p: int)
    requires
        0 <= p <= s.len(),
    ensures
        wf_gsegs(s, scan_from(s, p).0),
        p <= scan_from(s, p).1 <= s.len(),
    decreases s.len() - p,
{
    if p >= s.len() {
    } else if raw_at(s, p) {
        lemma_find_pat(s, p + 9, s.len() as int, raw_close_pat());
        let q = find_pat(s, p + 9, s.len() as int, raw_close_pat()).unwrap();
        lemma_scan_from_wf(s, q + 12);
        let rest = scan_from(s, q + 12);
        let g = GSeg { kind: SegKind::RawEscaped, start: p + 9, end: q };
        assert forall|k: int| 0 <= k < (seq![g] + rest.0).len() implies 0 <= ((
        #[trigger] (seq![g] + rest.0)[k])).start <= (seq![g] + rest.0)[k].end <= s.len() by {
            if k > 0 {
                assert((seq![g] + rest.0)[k] == rest.0[k - 1]);
            }
        }
    } else if code_at(s, p) {
        lemma_find_pat(s, p + 3, s.len() as int, fence_pat());
        let q = find_pat(s, p + 3, s.len() as int, fence_pat()).unwrap();
        lemma_scan_from_wf(s, q + 3);
        let rest = scan_from(s, q + 3);
        let g = GSeg { kind: SegKind::Code, start: p + 3, end: q };
        assert forall|k: int| 0 <= k < (seq![g] + rest.0).len() implies 0 <= ((
        #[trigger] (seq![g] + rest.0)[k])).start <= (seq![g] + rest.0)[k].end <= s.len() by {
            if k > 0 {
                assert((seq![g] + rest.0)[k] == rest.0[k - 1]);
            }
        }
    } else {
        lemma_next_opener(s, p);
        match next_opener(s, p) {
            None => {},
            Some(q) => {
                lemma_scan_from_wf(s, q);
                let rest = scan_from(s, q);
                let g = GSeg { kind: SegKind::Text, start: p, end: q };
                assert forall|k: int| 0 <= k < (seq![g] + rest.0).len() implies 0 <= ((
                #[trigger] (seq![g] + rest.0)[k])).start <= (seq![g] + rest.0)[k].end <= s.len() by {
                    if k > 0 {
                        assert((seq![g] + rest.0)[k] == rest.0[k - 1]);
                    }
                }
            },
        }
    }
}

/// Does a delimited region (raw-escaped or fenced code) start at `p`?
fn opener_at_exec(
    text: &Vec<u8>,
    p: usize,
    raw_open_v: &Vec<u8>,
    raw_close_v: &Vec<u8>,
    fence_v: &Vec<u8>,
) -> (r: bool)
    requires
        p <= text@.len(),
        raw_open_v@ == raw_open_pat(),
        raw_close_v@ == raw_close_pat(),
        fence_v@ == fence_pat(),
    ensures
        r == opener_at(text@, p as int),
{
    let len = text.len();
    if bytes_match_at(text, p, len, raw_open_v) {
        if find_bytes(text, p + 9, len, raw_close_v).is_some() {
            return true;
        }
    }
    if bytes_match_at(text, p, len, fence_v) {
        if find_bytes(text, p + 3, len, fence_v).is_some() {
            return true;
        }
    }
    proof {
        assert(!raw_at(text@, p as int));
        assert(!code_at(text@, p as int));
    }
    false
}

/// The nearest position at or after `p` where a delimited region starts.
fn next_opener_exec(
    text: &Vec<u8>,
    p: usize,
    raw_open_v: &Vec<u8>,
    raw_close_v: &Vec<u8>,
    fence_v: &Vec<u8>,
) -> (r: Option<usize>)
    requires
        p <= text@.len(),
        raw_open_v@ == raw_open_pat(),
        raw_close_v@ == raw_close_pat(),
        fence_v@ == fence_pat(),
    ensures
        match r {
            Some(q) => p <= q < text@.len() && next_opener(text@, p as int) == Some(q as int),
            None => next_opener(text@, p as int) is None,
        },
{
    let len = text.len();
    let mut i: usize = p;
    while i < len
        invariant
            p <= i <= len,
            len == text@.len(),
            raw_open_v@ == raw_open_pat(),
            raw_close_v@ == raw_close_pat(),
            fence_v@ == fence_pat(),
            next_opener(text@, p as int) == next_opener(text@, i as int),
        decreases len - i,
    {
        if opener_at_exec(text, i, raw_open_v, raw_close_v, fence_v) {
            proof {
                assert(next_opener(text@, i as int) == Some(i as int));
            }
            return Some(i);
        }
        proof {
            assert(next_opener(text@, i as int) == next_opener(text@, i + 1));
        }
        i += 1;
    }
    proof {
        assert(next_opener(text@, len as int) is None);
    }
    None
}

/// Scans the whole document: the segments in source order, and the position
/// where the unparsed trailing remainder begins. The remainder — the suffix
/// after the last recognized delimiter — is always plain text.
pub fn scan(text: &Vec<u8>) -> (res: (Vec<Segment>, usize))
    ensures
        segs_view(res.0@) == scan_from(text@, 0).0,
        res.1 as int == scan_from(text@, 0).1,
        res.1 <= text@.len(),
{
    let len = text.len();
    let raw_open_v = raw_open_bytes();
    let raw_close_v = raw_close_bytes();
    let fence_v = fence_bytes();
    let mut segs: Vec<Segment> = Vec::new();
    let mut p: usize = 0;
    while p < len
        invariant
            p <= len,
            len == text@.len(),
            raw_open_v@ == raw_open_pat(),
            raw_close_v@ == raw_close_pat(),
            fence_v@ == fence_pat(),
            scan_from(text@, 0).0 == segs_view(segs@) + scan_from(text@, p as int).0,
            scan_from(text@, 0).1 == scan_from(text@, p as int).1,
        decreases len - p,
    {
        let ghost p0 = p as int;
        if bytes_match_at(text, p, len, &raw_open_v) && find_bytes(
            text,
            p + 9,
            len,
            &raw_close_v,
        ).is_some() {
            let q = find_bytes(text, p + 9, len, &raw_close_v).unwrap();
            let seg = Segment { kind: SegKind::RawEscaped, start: p + 9, end: q };
            proof {
                assert(raw_at(text@, p0));
                assert(scan_from(text@, p0).0 == seq![seg@] + scan_from(text@, q + 12).0);
                assert(scan_from(text@, p0).1 == scan_from(text@, q + 12).1);
                assert(segs_view(segs@.push(seg)) =~= segs_view(segs@).push(seg@));
                assert(segs_view(segs@).push(seg@) + scan_from(text@, q + 12).0 =~= segs_view(
                    segs@,
                ) + (seq![seg@] + scan_from(text@, q + 12).0));
            }
            segs.push(seg);
            p = q + 12;
        } else if bytes_match_at(text, p, len, &fence_v) && find_bytes(
            text,
            p + 3,
            len,
            &fence_v,
        ).is_some() {
            let q = find_bytes(text, p + 3, len, &fence_v).unwrap();
            let seg = Segment { kind: SegKind::Code, start: p + 3, end: q };
            proof {
                assert(!raw_at(text@, p0));
                assert(code_at(text@, p0));
                assert(scan_from(text@, p0).0 == seq![seg@] + scan_from(text@, q + 3).0);
                assert(scan_from(text@, p0).1 == scan_from(text@, q + 3).1);
                assert(segs_view(segs@.push(seg)) =~= segs_view(segs@).push(seg@));
                assert(segs_view(segs@).push(seg@) + scan_from(text@, q + 3).0 =~= segs_view(segs@)
                    + (seq![seg@] + scan_from(text@, q + 3).0));
            }
            segs.push(seg);
            p = q + 3;
        } else {
            proof {
                assert(!raw_at(text@, p0));
                assert(!code_at(text@, p0));
            }
            match next_opener_exec(text, p, &raw_open_v, &raw_close_v, &fence_v) {
                None => {
                    proof {
                        assert(scan_from(text@, p0).0 =~= Seq::<GSeg>::empty());
                        assert(segs_view(segs@) + Seq::<GSeg>::empty() =~= segs_view(segs@));
                    }
                    return (segs, p);
                },
                Some(q) => {
                    let seg = Segment { kind: SegKind::Text, start: p, end: q };
                    proof {
                        assert(scan_from(text@, p0).0 == seq![seg@] + scan_from(text@, q as int).0);
                        assert(scan_from(text@, p0).1 == scan_from(text@, q as int).1);
                        assert(segs_view(segs@.push(seg)) =~= segs_view(segs@).push(seg@));
                        assert(segs_view(segs@).push(seg@) + scan_from(text@, q as int).0
                            =~= segs_view(segs@) + (seq![seg@] + scan_from(text@, q as int).0));
                        assert(opener_at(text@, q as int)) by {
                            lemma_next_opener(text@, p0);
                        }
                    }
                    segs.push(seg);
                    p = q;
                },
            }
        }
    }
    proof {
        assert(scan_from(text@, len as int).0 =~= Seq::<GSeg>::empty());
        assert(segs_view(segs@) + Seq::<GSeg>::empty() =~= segs_view(segs@));
    }
    (segs, p)
}

} // verus!
