//! The fixed delimiter vocabulary, byte-level pattern matching, and a
//! verified first-occurrence search over a byte buffer.

use vstd::prelude::*;

verus! {

// The delimiters, as byte sequences. The document is processed as UTF-8
// bytes; every delimiter is pure ASCII, so byte-level matching finds exactly
// the character-level occurrences.

/// ``` (three backticks), opening and closing a code fence.
pub open spec fn fence_pat() -> Seq<u8> {
    seq![96u8, 96u8, 96u8]
}

/// `{% raw %}`
pub open spec fn raw_open_pat() -> Seq<u8> {
    seq![123u8, 37u8, 32u8, 114u8, 97u8, 119u8, 32u8, 37u8, 125u8]
}

/// `{% endraw %}`
pub open spec fn raw_close_pat() -> Seq<u8> {
    seq![123u8, 37u8, 32u8, 101u8, 110u8, 100u8, 114u8, 97u8, 119u8, 32u8, 37u8, 125u8]
}

/// `{%`, opening a templating directive.
pub open spec fn dir_open_pat() -> Seq<u8> {
    seq![123u8, 37u8]
}

/// `%}`, closing a templating directive.
pub open spec fn dir_close_pat() -> Seq<u8> {
    seq![37u8, 125u8]
}

/// A single newline, used around the injected raw markers.
pub open spec fn nl_pat() -> Seq<u8> {
    seq![10u8]
}

/// `pat` occurs in `s` at position `i`, entirely before position `end`.
pub open spec fn matches_at(s: Seq<u8>, i: int, end: int, pat: Seq<u8>) -> bool {
    &&& 0 <= i
    &&& i + pat.len() <= end
    &&& end <= s.len()
    &&& s.subrange(i, i + pat.len()) == pat
}

/// `pat` occurs somewhere in `s`.
pub open spec fn has_pat(s: Seq<u8>, pat: Seq<u8>) -> bool {
    exists|i: int| matches_at(s, i, s.len() as int, pat)
}

/// The first position at or after `from` where `pat` occurs entirely before
/// `end`, if any.
pub open spec fn find_pat(s: Seq<u8>, from: int, end: int, pat: Seq<u8>) -> Option<int>
    decreases end - from,
{
    if matches_at(s, from, end, pat) {
        Some(from)
    } else if from >= end {
        None
    } else {
        find_pat(s, from + 1, end, pat)
    }
}

/// What `find_pat` returns: the first occurrence when there is one — nothing
/// matches earlier — and nothing at all when no occurrence lies at or after
/// `from`.
pub proof fn lemma_find_pat(s: Seq<u8>, from: int, end: int, pat: Seq<u8>)
    ensures
        match find_pat(s, from, end, pat) {
            Some(q) => from <= q && matches_at(s, q, end, pat) && forall|k: int|
                from <= k < q ==> !matches_at(s, k, end, pat),
            None => forall|k: int| k >= from ==> !matches_at(s, k, end, pat),
        },
    decreases end - from,
{
    if matches_at(s, from, end, pat) {
    } else if from >= end {
        assert forall|k: int| k >= from implies !matches_at(s, k, end, pat) by {
            if matches_at(s, k, end, pat) {
                assert(k + pat.len() <= end);
            }
        }
    } else {
        lemma_find_pat(s, from + 1, end, pat);
    }
}

/// The code-fence delimiter as a byte vector.
pub fn fence_bytes() -> (v: Vec<u8>)
    ensures
        v@ == fence_pat(),
{
    let mut v: Vec<u8> = Vec::new();
    v.push(96);
    v.push(96);
    v.push(96);
    proof {
        assert(v@ =~= fence_pat());
    }
    v
}

/// The `{% raw %}` delimiter as a byte vector.
pub fn raw_open_bytes() -> (v: Vec<u8>)
    ensures
        v@ == raw_open_pat(),
{
    let mut v: Vec<u8> = Vec::new();
    v.push(123);
    v.push(37);
    v.push(32);
    v.push(114);
    v.push(97);
    v.push(119);
    v.push(32);
    v.push(37);
    v.push(125);
    proof {
        assert(v@ =~= raw_open_pat());
    }
    v
}

/// The `{% endraw %}` delimiter as a byte vector.
pub fn raw_close_bytes() -> (v: Vec<u8>)
    ensures
        v@ == raw_close_pat(),
{
    let mut v: Vec<u8> = Vec::new();
    v.push(123);
    v.push(37);
    v.push(32);
    v.push(101);
    v.push(110);
    v.push(100);
    v.push(114);
    v.push(97);
    v.push(119);
    v.push(32);
    v.push(37);
    v.push(125);
    proof {
        assert(v@ =~= raw_close_pat());
    }
    v
}

/// The `{%` delimiter as a byte vector.
pub fn dir_open_bytes() -> (v: Vec<u8>)
    ensures
        v@ == dir_open_pat(),
{
    let mut v: Vec<u8> = Vec::new();
    v.push(123);
    v.push(37);
    proof {
        assert(v@ =~= dir_open_pat());
    }
    v
}

/// The `%}` delimiter as a byte vector.
pub fn dir_close_bytes() -> (v: Vec<u8>)
    ensures
        v@ == dir_close_pat(),
{
    let mut v: Vec<u8> = Vec::new();
    v.push(37);
    v.push(125);
    proof {
        assert(v@ =~= dir_close_pat());
    }
    v
}

/// A newline as a byte vector.
pub fn nl_bytes() -> (v: Vec<u8>)
    ensures
        v@ == nl_pat(),
{
    let mut v: Vec<u8> = Vec::new();
    v.push(10);
    proof {
        assert(v@ =~= nl_pat());
    }
    v
}

/// Does `pat` occur in `s` at position `i`, entirely before `end`?
pub fn bytes_match_at(s: &Vec<u8>, i: usize, end: usize, pat: &Vec<u8>) -> (r: bool)
    requires
        i <= end,
        end <= s@.len(),
    ensures
        r == matches_at(s@, i as int, end as int, pat@),
{
    if pat.len() > end - i {
        return false;
    }
    let mut j: usize = 0;
    while j < pat.len()
        invariant
            0 <= j <= pat@.len(),
            i <= end <= s@.len(),
            i + pat@.len() <= end,
            forall|k: int| 0 <= k < j ==> s@[i + k] == pat@[k],
        decreases pat@.len() - j,
    {
        if s[i + j] != pat[j] {
            proof {
                assert(s@.subrange(i as int, i + pat@.len())[j as int] == s@[i + j]);
            }
            return false;
        }
        j += 1;
    }
    proof {
        assert(s@.subrange(i as int, i + pat@.len()) =~= pat@);
    }
    true
}

/// The first position in `[from, end)` where `pat` occurs entirely before
/// `end`, if any.
pub fn find_bytes(s: &Vec<u8>, from: usize, end: usize, pat: &Vec<u8>) -> (r: Option<usize>)
    requires
        from <= end,
        end <= s@.len(),
        pat@.len() >= 1,
    ensures
        match r {
            Some(q) => from <= q && q + pat@.len() <= end && find_pat(
                s@,
                from as int,
                end as int,
                pat@,
            ) == Some(q as int),
            None => find_pat(s@, from as int, end as int, pat@) is None,
        },
{
    let mut i: usize = from;
    while i < end
        invariant
            from <= i <= end <= s@.len(),
            pat@.len() >= 1,
            find_pat(s@, from as int, end as int, pat@) == find_pat(
                s@,
                i as int,
                end as int,
                pat@,
            ),
        decreases end - i,
    {
        if bytes_match_at(s, i, end, pat) {
            proof {
                assert(find_pat(s@, i as int, end as int, pat@) == Some(i as int));
            }
            return Some(i);
        }
        proof {
            assert(find_pat(s@, i as int, end as int, pat@) == find_pat(
                s@,
                i + 1,
                end as int,
                pat@,
            ));
        }
        i += 1;
    }
    proof {
        assert(!matches_at(s@, end as int, end as int, pat@));
        assert(find_pat(s@, end as int, end as int, pat@) is None);
    }
    None
}

} // verus!
