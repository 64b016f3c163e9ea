use rawwrap::renderer::{needs_escaping, transform};
use rawwrap::scanner::{scan, SegKind};

fn tf(input: &str) -> String {
    let bytes: Vec<u8> = input.as_bytes().to_vec();
    let out = transform(&bytes);
    String::from_utf8(out).unwrap()
}

#[test]
fn empty_input_unchanged() {
    assert_eq!(tf(""), "");
}

#[test]
fn no_markers_unchanged() {
    let doc = "# Title\n\nSome plain Markdown with {% a stray directive %} in text.\n";
    assert_eq!(tf(doc), doc);
}

#[test]
fn plain_fence_unchanged() {
    let doc = "a ```let x = 1;``` b";
    assert_eq!(tf(doc), doc);
}

#[test]
fn directive_fence_wrapped() {
    let doc = "before\n```{% if x %}1{% endif %}```\nafter\n";
    let want = "before\n{% raw %}\n```{% if x %}1{% endif %}```\n{% endraw %}\nafter\n";
    assert_eq!(tf(doc), want);
}

#[test]
fn transform_is_idempotent_on_wrapped_output() {
    let doc = "before\n```{% if x %}1{% endif %}```\nafter\n";
    let once = tf(doc);
    let twice = tf(&once);
    assert_eq!(twice, once);
}

#[test]
fn already_wrapped_not_double_wrapped() {
    let doc = "before\n{% raw %}\n```{% if x %}1{% endif %}```\n{% endraw %}\nafter\n";
    assert_eq!(tf(doc), doc);
}

#[test]
fn unterminated_fence_is_plain_text() {
    let doc = "plain ``` no closing fence";
    assert_eq!(tf(doc), doc);
}

#[test]
fn unterminated_raw_is_plain_text() {
    let doc = "{% raw %} nothing closes this";
    assert_eq!(tf(doc), doc);
}

#[test]
fn raw_block_keeps_fences_inside() {
    let doc = "{% raw %}```{% x %}```{% endraw %}";
    assert_eq!(tf(doc), doc);
}

#[test]
fn minimal_directive_is_wrapped() {
    let doc = "```{%%}```";
    let want = "{% raw %}\n```{%%}```\n{% endraw %}";
    assert_eq!(tf(doc), want);
}

#[test]
fn overlapping_braces_are_no_directive() {
    // `{%}` holds `{%` and `%}` only overlapping: not a directive.
    let doc = "```{%}```";
    assert_eq!(tf(doc), doc);
}

#[test]
fn directive_may_span_lines() {
    let doc = "```{%\nset x\n%}```";
    let want = "{% raw %}\n```{%\nset x\n%}```\n{% endraw %}";
    assert_eq!(tf(doc), want);
}

#[test]
fn earliest_delimiter_wins() {
    // The fence starts before the raw marker, so the fence is read first:
    // its content has no directive and everything round-trips.
    let doc = "a ```code``` b {% raw %}kept{% endraw %} c";
    assert_eq!(tf(doc), doc);
}

#[test]
fn fences_before_raw_marker_are_not_swallowed() {
    let doc = "a ```{% x %}``` b {% raw %}kept{% endraw %}";
    let want = "a {% raw %}\n```{% x %}```\n{% endraw %} b {% raw %}kept{% endraw %}";
    assert_eq!(tf(doc), want);
}

#[test]
fn two_code_blocks_each_judged_alone() {
    let doc = "```plain``` and ```{% d %}```";
    let want = "```plain``` and {% raw %}\n```{% d %}```\n{% endraw %}";
    assert_eq!(tf(doc), want);
}

#[test]
fn scan_classifies_segments() {
    let doc = "text{% raw %}r{% endraw %}```c```tail";
    let bytes: Vec<u8> = doc.as_bytes().to_vec();
    let (segs, rem_start) = scan(&bytes);
    assert_eq!(segs.len(), 3);
    assert!(matches!(segs[0].kind, SegKind::Text));
    assert_eq!((segs[0].start, segs[0].end), (0, 4));
    assert!(matches!(segs[1].kind, SegKind::RawEscaped));
    assert_eq!(&doc[segs[1].start..segs[1].end], "r");
    assert!(matches!(segs[2].kind, SegKind::Code));
    assert_eq!(&doc[segs[2].start..segs[2].end], "c");
    assert_eq!(&doc[rem_start..], "tail");
}

#[test]
fn scan_of_unterminated_opener_leaves_remainder() {
    let doc = "plain ``` no closing fence";
    let bytes: Vec<u8> = doc.as_bytes().to_vec();
    let (segs, rem_start) = scan(&bytes);
    assert_eq!(segs.len(), 0);
    assert_eq!(rem_start, 0);
}

#[test]
fn needs_escaping_finds_directive() {
    let code = "{% if x %}1{% endif %}";
    let bytes: Vec<u8> = code.as_bytes().to_vec();
    let n = bytes.len();
    assert!(needs_escaping(&bytes, 0, n));
}

#[test]
fn needs_escaping_rejects_lone_delimiters() {
    for code in ["plain", "{% open only", "close only %}", "%} wrong order {%", "{%}"] {
        let bytes: Vec<u8> = code.as_bytes().to_vec();
        let n = bytes.len();
        assert!(!needs_escaping(&bytes, 0, n), "{}", code);
    }
}
