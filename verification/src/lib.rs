//! Rewrites a Markdown document so that a downstream templating engine leaves
//! fenced code blocks alone: every triple-backtick code block whose content
//! holds a templating directive (`{%` ... `%}`) is wrapped in a
//! `{% raw %}` / `{% endraw %}` pair, while regions that are already wrapped
//! are recognized and kept as they are.
//!
//! The document is scanned left to right into a sequence of typed segments
//! (plain text, fenced code, raw-escaped regions) plus an unparsed trailing
//! remainder; the renderer serializes the segments back, injecting the raw
//! markers where the directive predicate matches.

pub mod pattern;
pub mod scanner;
pub mod renderer;
pub mod laws;
