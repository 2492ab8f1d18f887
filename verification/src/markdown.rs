//! The detail pane of the context overlay: a node's title, labels, summary
//! (with a little markdown: headings, bullets, `*italic*` and `**bold**`)
//! and id, as lines of styled spans.
use vstd::prelude::*;

use crate::text::{
    chars_of, copy_str, has_prefix, lead_ws, starts_with, string_from_chars, string_from_range, trim, trim_seq,
    trim_start, trim_start_seq, views,
};

verus! {

/// How a span is drawn.
#[derive(Clone, Copy, Debug, PartialEq, Eq, Structural)]
pub struct TextStyle {
    pub bold: bool,
    pub italic: bool,
    pub dim: bool,
}

/// The default style.
pub open spec fn plain() -> TextStyle {
    TextStyle { bold: false, italic: false, dim: false }
}

/// A piece of text and its style.
#[derive(Debug)]
pub struct StyledSpan {
    pub text: String,
    pub style: TextStyle,
}

/// A span as plain values.
pub struct SpanView {
    pub text: Seq<char>,
    pub style: TextStyle,
}

impl View for StyledSpan {
    type V = SpanView;

    open spec fn view(&self) -> SpanView {
        SpanView { text: self.text@, style: self.style }
    }
}

/// The views of a line of spans.
pub open spec fn span_views(v: Seq<StyledSpan>) -> Seq<SpanView> {
    v.map_values(|s: StyledSpan| s@)
}

/// The views of a list of lines.
pub open spec fn line_views(v: Seq<Vec<StyledSpan>>) -> Seq<Seq<SpanView>> {
    v.map_values(|l: Vec<StyledSpan>| span_views(l@))
}

fn plain_style() -> (s: TextStyle)
    ensures
        s == plain(),
{
    TextStyle { bold: false, italic: false, dim: false }
}

fn dim_style() -> (s: TextStyle)
    ensures
        s == (TextStyle { dim: true, ..plain() }),
{
    TextStyle { bold: false, italic: false, dim: true }
}

// ---------------------------------------------------------------------------
// Inline emphasis
// ---------------------------------------------------------------------------

/// `base` with bold and italic added where asked.
pub open spec fn styled(base: TextStyle, bold: bool, italic: bool) -> TextStyle {
    TextStyle { bold: base.bold || bold, italic: base.italic || italic, dim: base.dim }
}

/// The span of the pending text `buf`, if there is any.
pub open spec fn flushed(buf: Seq<char>, base: TextStyle, bold: bool, italic: bool) -> Seq<SpanView> {
    if buf.len() == 0 {
        Seq::empty()
    } else {
        seq![SpanView { text: buf, style: styled(base, bold, italic) }]
    }
}

/// The spans of `t` from `i` on, with `buf` pending and the emphasis as
/// given: `**` flips bold, a single `*` flips italic, and each flip ends the
/// pending span.
pub open spec fn scan(t: Seq<char>, i: int, buf: Seq<char>, bold: bool, italic: bool, base: TextStyle) -> Seq<SpanView>
    decreases t.len() - i,
{
    if i < 0 || i >= t.len() {
        flushed(buf, base, bold, italic)
    } else if t[i] == '*' {
        if i + 1 < t.len() && t[i + 1] == '*' {
            flushed(buf, base, bold, italic) + scan(t, i + 2, Seq::empty(), !bold, italic, base)
        } else {
            flushed(buf, base, bold, italic) + scan(t, i + 1, Seq::empty(), bold, !italic, base)
        }
    } else {
        scan(t, i + 1, buf.push(t[i]), bold, italic, base)
    }
}

/// The spans of `t`: never none, an empty plain span standing for an empty text.
pub open spec fn inline_spans_of(t: Seq<char>, base: TextStyle) -> Seq<SpanView> {
    let s = scan(t, 0, Seq::empty(), false, false, base);
    if s.len() == 0 {
        seq![SpanView { text: Seq::empty(), style: plain() }]
    } else {
        s
    }
}

/// The texts of `spans`, one after the other.
#[verifier::opaque]
pub open spec fn span_text(spans: Seq<SpanView>) -> Seq<char>
    decreases spans.len(),
{
    if spans.len() == 0 {
        Seq::empty()
    } else {
        span_text(spans.drop_last()) + spans.last().text
    }
}

/// `t` without its `*` characters.
#[verifier::opaque]
pub open spec fn without_markers(t: Seq<char>) -> Seq<char>
    decreases t.len(),
{
    if t.len() == 0 {
        Seq::empty()
    } else {
        (if t[0] == '*' {
            Seq::empty()
        } else {
            seq![t[0]]
        }) + without_markers(t.drop_first())
    }
}

proof fn lemma_span_text_concat(a: Seq<SpanView>, b: Seq<SpanView>)
    ensures
        span_text(a + b) == span_text(a) + span_text(b),
    decreases b.len(),
{
    reveal(span_text);
    reveal(without_markers);
    if b.len() == 0 {
        assert(a + b =~= a);
        assert(span_text(a) + span_text(b) =~= span_text(a));
    } else {
        assert((a + b).drop_last() =~= a + b.drop_last());
        assert((a + b).last() == b.last());
        lemma_span_text_concat(a, b.drop_last());
        assert(span_text(a + b) =~= span_text(a) + span_text(b));
    }
}

proof fn lemma_flushed_text(buf: Seq<char>, base: TextStyle, bold: bool, italic: bool)
    ensures
        span_text(flushed(buf, base, bold, italic)) == buf,
{
    reveal(span_text);
    reveal(without_markers);
    if buf.len() == 0 {
        assert(span_text(Seq::<SpanView>::empty()) =~= buf);
    } else {
        let f = flushed(buf, base, bold, italic);
        assert(f.drop_last() =~= Seq::<SpanView>::empty());
        assert(span_text(Seq::<SpanView>::empty()) == Seq::<char>::empty());
        assert(f.last().text == buf);
        assert(span_text(f) =~= buf);
    }
}

proof fn lemma_scan_text(t: Seq<char>, i: int, buf: Seq<char>, bold: bool, italic: bool, base: TextStyle)
    requires
        0 <= i <= t.len(),
    ensures
        span_text(scan(t, i, buf, bold, italic, base)) == buf + without_markers(t.skip(i)),
    decreases t.len() - i,
{
    reveal(span_text);
    reveal(without_markers);
    lemma_flushed_text(buf, base, bold, italic);
    if i == t.len() {
        assert(t.skip(i) =~= Seq::<char>::empty());
        assert(buf + without_markers(t.skip(i)) =~= buf);
    } else {
        assert(t.skip(i).drop_first() =~= t.skip(i + 1));
        assert(t.skip(i)[0] == t[i]);
        if t[i] == '*' {
            if i + 1 < t.len() && t[i + 1] == '*' {
                lemma_scan_text(t, i + 2, Seq::empty(), !bold, italic, base);
                assert(t.skip(i + 1).drop_first() =~= t.skip(i + 2));
                assert(t.skip(i + 1)[0] == t[i + 1]);
                lemma_span_text_concat(flushed(buf, base, bold, italic), scan(t, i + 2, Seq::empty(), !bold, italic, base));
                assert(without_markers(t.skip(i)) =~= without_markers(t.skip(i + 1)));
                assert(without_markers(t.skip(i + 1)) =~= without_markers(t.skip(i + 2)));
                assert(buf + without_markers(t.skip(i)) =~= buf + (Seq::<char>::empty() + without_markers(t.skip(i + 2))));
            } else {
                lemma_scan_text(t, i + 1, Seq::empty(), bold, !italic, base);
                lemma_span_text_concat(flushed(buf, base, bold, italic), scan(t, i + 1, Seq::empty(), bold, !italic, base));
                assert(without_markers(t.skip(i)) =~= without_markers(t.skip(i + 1)));
                assert(buf + without_markers(t.skip(i)) =~= buf + (Seq::<char>::empty() + without_markers(t.skip(i + 1))));
            }
        } else {
            lemma_scan_text(t, i + 1, buf.push(t[i]), bold, italic, base);
            assert(buf.push(t[i]) + without_markers(t.skip(i + 1)) =~= buf + without_markers(t.skip(i)));
        }
    }
}

/// Emphasis loses nothing but its markers: the spans of a text, put back
/// together, are the text without its `*` characters.
pub proof fn lemma_inline_spans_keep_text(t: Seq<char>, base: TextStyle)
    ensures
        span_text(inline_spans_of(t, base)) == without_markers(t),
{
    reveal(span_text);
    reveal(without_markers);
    lemma_scan_text(t, 0, Seq::empty(), false, false, base);
    assert(t.skip(0) =~= t);
    assert(Seq::<char>::empty() + without_markers(t) =~= without_markers(t));
    let sc = scan(t, 0, Seq::empty(), false, false, base);
    if sc.len() == 0 {
        let one = seq![SpanView { text: Seq::empty(), style: plain() }];
        assert(one.drop_last() =~= Seq::<SpanView>::empty());
        assert(span_text(one) =~= Seq::<char>::empty());
    }
}

/// Ends the pending span, if there is any text in it.
fn flush_markdown_span(spans: &mut Vec<StyledSpan>, buffer: &mut Vec<char>, base_style: TextStyle, bold: bool, italic: bool)
    ensures
        span_views(final(spans)@) == span_views(old(spans)@) + flushed(old(buffer)@, base_style, bold, italic),
        final(buffer)@ == Seq::<char>::empty(),
{
    if buffer.len() == 0 {
        assert(span_views(spans@) =~= span_views(old(spans)@) + flushed(old(buffer)@, base_style, bold, italic));
        return;
    }
    let style = TextStyle {
        bold: base_style.bold || bold,
        italic: base_style.italic || italic,
        dim: base_style.dim,
    };
    let text = string_from_chars(buffer);
    let ghost before = spans@;
    spans.push(StyledSpan { text, style });
    buffer.clear();
    assert(span_views(spans@) =~= span_views(before) + flushed(old(buffer)@, base_style, bold, italic));
}

/// Splits `text` into spans by its emphasis markers.
pub fn inline_spans(text: &str, base_style: TextStyle) -> (spans: Vec<StyledSpan>)
    ensures
        span_views(spans@) == inline_spans_of(text@, base_style),
{
    let chars = chars_of(text);
    let ghost t = text@;
    let mut spans: Vec<StyledSpan> = Vec::new();
    let mut buffer: Vec<char> = Vec::new();
    let mut bold = false;
    let mut italic = false;
    let mut idx: usize = 0;
    while idx < chars.len()
        invariant
            0 <= idx <= chars@.len(),
            chars@ == t,
            span_views(spans@) + scan(t, idx as int, buffer@, bold, italic, base_style) == scan(
                t,
                0,
                Seq::empty(),
                false,
                false,
                base_style,
            ),
        decreases chars.len() - idx,
    {
        if chars[idx] == '*' {
            let double_star = idx + 1 < chars.len() && chars[idx + 1] == '*';
            let ghost before = span_views(spans@);
            let ghost buf = buffer@;
            flush_markdown_span(&mut spans, &mut buffer, base_style, bold, italic);
            if double_star {
                proof {
                    assert(before + scan(t, idx as int, buf, bold, italic, base_style) =~= span_views(spans@)
                        + scan(t, idx + 2, Seq::empty(), !bold, italic, base_style));
                }
                bold = !bold;
                idx += 2;
            } else {
                proof {
                    assert(before + scan(t, idx as int, buf, bold, italic, base_style) =~= span_views(spans@)
                        + scan(t, idx + 1, Seq::empty(), bold, !italic, base_style));
                }
                italic = !italic;
                idx += 1;
            }
        } else {
            buffer.push(chars[idx]);
            idx += 1;
        }
    }
    let ghost before = span_views(spans@);
    flush_markdown_span(&mut spans, &mut buffer, base_style, bold, italic);
    if spans.len() == 0 {
        spans.push(StyledSpan { text: String::new(), style: plain_style() });
        assert(span_views(spans@) =~= seq![SpanView { text: Seq::empty(), style: plain() }]);
    }
    spans
}

// ---------------------------------------------------------------------------
// Lines
// ---------------------------------------------------------------------------

/// The heading markers, longest first.
pub open spec fn heading_marker(k: int) -> Seq<char> {
    if k == 0 {
        "###### "@
    } else if k == 1 {
        "##### "@
    } else if k == 2 {
        "#### "@
    } else if k == 3 {
        "### "@
    } else if k == 4 {
        "## "@
    } else {
        "# "@
    }
}

fn heading_marker_str(k: usize) -> (s: &'static str)
    requires
        k < 6,
    ensures
        s@ == heading_marker(k as int),
{
    if k == 0 {
        "###### "
    } else if k == 1 {
        "##### "
    } else if k == 2 {
        "#### "
    } else if k == 3 {
        "### "
    } else if k == 4 {
        "## "
    } else {
        "# "
    }
}

/// The first heading marker, from `k` on, that `content` starts with.
pub open spec fn heading_from(content: Seq<char>, k: int) -> Option<int>
    decreases 6 - k,
{
    if k < 0 || k >= 6 {
        None
    } else if has_prefix(content, heading_marker(k)) {
        Some(k)
    } else {
        heading_from(content, k + 1)
    }
}

/// Whether `content` is a bullet item (`- ` or `* `).
pub open spec fn is_bullet(content: Seq<char>) -> bool {
    has_prefix(content, "- "@) || has_prefix(content, "* "@)
}

/// The spans of one line of a summary: its indent as it is; then, for a
/// heading, its text in bold; for a bullet, a dim `• ` and the item's text;
/// else the text; an empty line gives one empty span.
pub open spec fn markdown_line(line: Seq<char>) -> Seq<SpanView> {
    let indent = line.take(lead_ws(line) as int);
    let content = trim_seq(trim_start_seq(line));
    let head: Seq<SpanView> = if indent.len() > 0 {
        seq![SpanView { text: indent, style: plain() }]
    } else {
        Seq::empty()
    };
    if content.len() == 0 {
        head + seq![SpanView { text: Seq::empty(), style: plain() }]
    } else {
        match heading_from(content, 0) {
            Some(k) => head + inline_spans_of(
                trim_start_seq(content.skip(heading_marker(k).len() as int)),
                TextStyle { bold: true, ..plain() },
            ),
            None => if is_bullet(content) {
                head + seq![SpanView { text: "• "@, style: TextStyle { dim: true, ..plain() } }]
                    + inline_spans_of(trim_start_seq(content.skip(2)), plain())
            } else {
                head + inline_spans_of(content, plain())
            },
        }
    }
}

/// Renders one line of a summary.
pub fn render_markdown_line(line: &str) -> (spans: Vec<StyledSpan>)
    ensures
        span_views(spans@) == markdown_line(line@),
{
    let trimmed_start = trim_start(line);
    let chars = chars_of(line);
    let ghost l = line@;
    proof {
        crate::text::lemma_lead_ws_bound(l);
    }
    let indent_len = chars.len() - chars_of(trimmed_start.as_str()).len();
    let indent = string_from_range(&chars, 0, indent_len);
    let content = trim(trimmed_start.as_str());
    let mut spans: Vec<StyledSpan> = Vec::new();
    if indent_len > 0 {
        spans.push(StyledSpan { text: indent, style: plain_style() });
    }
    let ghost head = span_views(spans@);
    proof {
        assert(indent@ =~= l.take(lead_ws(l) as int));
        assert(head =~= if l.take(lead_ws(l) as int).len() > 0 {
            seq![SpanView { text: l.take(lead_ws(l) as int), style: plain() }]
        } else {
            Seq::<SpanView>::empty()
        });
    }
    if content.as_str().is_empty() {
        spans.push(StyledSpan { text: String::new(), style: plain_style() });
        assert(span_views(spans@) =~= head + seq![SpanView { text: Seq::empty(), style: plain() }]);
        return spans;
    }
    let content_chars = chars_of(content.as_str());
    let mut k: usize = 0;
    while k < 6
        invariant
            0 <= k <= 6,
            content_chars@ == content@,
            heading_from(content@, 0) == heading_from(content@, k as int),
            l == line@,
            content@ == trim_seq(trim_start_seq(l)),
            content@.len() > 0,
            span_views(spans@) == head,
            head == (if l.take(lead_ws(l) as int).len() > 0 {
                seq![SpanView { text: l.take(lead_ws(l) as int), style: plain() }]
            } else {
                Seq::<SpanView>::empty()
            }),
        decreases 6 - k,
    {
        let prefix = heading_marker_str(k);
        if starts_with(content.as_str(), prefix) {
            let plen = chars_of(prefix).len();
            let stripped = string_from_range(&content_chars, plen, content_chars.len());
            let remainder = trim_start(stripped.as_str());
            let style = TextStyle { bold: true, italic: false, dim: false };
            let inline = inline_spans(remainder.as_str(), style);
            let ghost mid = spans@;
            append_spans(&mut spans, inline);
            proof {
                assert(stripped@ =~= content@.skip(heading_marker(k as int).len() as int));
                assert(heading_from(content@, k as int) == Some(k as int));
                assert(content@ == trim_seq(trim_start_seq(l)));
                assert(span_views(spans@) == head + inline_spans_of(
                    trim_start_seq(content@.skip(heading_marker(k as int).len() as int)),
                    TextStyle { bold: true, ..plain() },
                ));
            }
            return spans;
        }
        k += 1;
    }
    assert(heading_from(content@, 0) is None);
    let dash = starts_with(content.as_str(), "- ");
    let star = starts_with(content.as_str(), "* ");
    if dash || star {
        proof {
            reveal_strlit("- ");
            reveal_strlit("* ");
        }
        let bullet = StyledSpan { text: copy_str("• "), style: dim_style() };
        spans.push(bullet);
        assert(span_views(spans@) =~= head + seq![SpanView { text: "• "@, style: TextStyle { dim: true, ..plain() } }]);
        let ghost mid = span_views(spans@);
        let rest = string_from_range(&content_chars, 2, content_chars.len());
        let remainder = trim_start(rest.as_str());
        let inline = inline_spans(remainder.as_str(), plain_style());
        append_spans(&mut spans, inline);
        proof {
            assert(rest@ =~= content@.skip(2));
            assert(is_bullet(content@));
            assert(span_views(spans@) == mid + inline_spans_of(trim_start_seq(content@.skip(2)), plain()));
        }
    } else {
        let inline = inline_spans(content.as_str(), plain_style());
        append_spans(&mut spans, inline);
        assert(!is_bullet(content@));
    }
    spans
}

/// Appends the spans `more` to `spans`.
fn append_spans(spans: &mut Vec<StyledSpan>, more: Vec<StyledSpan>)
    ensures
        span_views(final(spans)@) == span_views(old(spans)@) + span_views(more@),
{
    let mut rest = more;
    let ghost all = span_views(rest@);
    let n = rest.len();
    let mut i: usize = 0;
    assert(span_views(rest@) =~= all.skip(0));
    while i < n
        invariant
            0 <= i <= n,
            n == all.len(),
            rest@.len() == n - i,
            span_views(rest@) == all.skip(i as int),
            span_views(spans@) == span_views(old(spans)@) + all.take(i as int),
        decreases n - i,
    {
        let ghost before = rest@;
        let ghost spans_before = spans@;
        let x = rest.remove(0);
        proof {
            assert(span_views(before)[0] == all[i as int]);
            assert(x@ == all[i as int]);
            assert(span_views(rest@) =~= all.skip(i + 1)) by {
                assert forall|k: int| 0 <= k < rest@.len() implies #[trigger] span_views(rest@)[k] == all.skip(i + 1)[k] by {
                    assert(rest@[k] == before[k + 1]);
                    assert(span_views(before)[k + 1] == all.skip(i as int)[k + 1]);
                }
            }
        }
        spans.push(x);
        proof {
            assert(span_views(spans@) =~= span_views(spans_before).push(all[i as int]));
            assert(all.take(i + 1) =~= all.take(i as int).push(all[i as int]));
        }
        i += 1;
    }
    assert(all.take(n as int) =~= all);
}

// ---------------------------------------------------------------------------
// Headings
// ---------------------------------------------------------------------------

/// `k` hash signs followed by a space: the opening of a level-`k` heading.
pub open spec fn hashes_then_space(k: nat) -> Seq<char> {
    Seq::new(k, |i: int| '#').push(' ')
}

proof fn lemma_heading_markers()
    ensures
        forall|j: int| 0 <= j < 6 ==> #[trigger] heading_marker(j) == hashes_then_space((6 - j) as nat),
{
    reveal_strlit("###### ");
    reveal_strlit("##### ");
    reveal_strlit("#### ");
    reveal_strlit("### ");
    reveal_strlit("## ");
    reveal_strlit("# ");
    assert(heading_marker(0) =~= hashes_then_space(6));
    assert(heading_marker(1) =~= hashes_then_space(5));
    assert(heading_marker(2) =~= hashes_then_space(4));
    assert(heading_marker(3) =~= hashes_then_space(3));
    assert(heading_marker(4) =~= hashes_then_space(2));
    assert(heading_marker(5) =~= hashes_then_space(1));
}

proof fn lemma_trim_start_again(s: Seq<char>)
    ensures
        trim_start_seq(trim_start_seq(s)) == trim_start_seq(s),
{
    crate::text::lemma_lead_ws_bound(s);
    let r = trim_start_seq(s);
    if r.len() > 0 {
        assert(r[0] == s[lead_ws(s) as int]);
    }
    assert(lead_ws(r) == 0);
    assert(r.skip(0) =~= r);
}

/// A line whose content, trimmed, is `k` hash signs (one to six), a space
/// and a text `t` is a level-`k` heading: after its indent it renders as the
/// spans of `t` (its start trimmed) in bold, the hash signs dropped.
pub proof fn lemma_heading_renders_bold(line: Seq<char>, k: nat, t: Seq<char>)
    requires
        1 <= k <= 6,
        trim_seq(line) == hashes_then_space(k) + t,
    ensures
        markdown_line(line) == (if lead_ws(line) > 0 {
            seq![SpanView { text: line.take(lead_ws(line) as int), style: plain() }]
        } else {
            Seq::empty()
        }) + inline_spans_of(trim_start_seq(t), TextStyle { bold: true, ..plain() }),
{
    lemma_heading_markers();
    lemma_trim_start_again(line);
    let content = trim_seq(trim_start_seq(line));
    assert(content == hashes_then_space(k) + t);
    let h = hashes_then_space(k);
    assert(content.len() >= k + 1);
    assert(content[k as int] == ' ');
    assert forall|i: int| 0 <= i < k implies content[i] == '#' by {
        assert(content[i] == h[i]);
    }
    let m: int = 6 - k;
    assert forall|j: int| 0 <= j < m implies !has_prefix(content, #[trigger] heading_marker(j)) by {
        let hm = heading_marker(j);
        assert(hm == hashes_then_space((6 - j) as nat));
        if has_prefix(content, hm) {
            assert(content.take(hm.len() as int)[k as int] == hm[k as int]);
        }
    }
    assert(has_prefix(content, heading_marker(m))) by {
        assert(content.take(k + 1 as int) =~= h);
    }
    reveal_with_fuel(heading_from, 7);
    assert(heading_from(content, 0) == Some(m));
    assert(heading_marker(m).len() == k + 1);
    assert(content.skip(k + 1 as int) =~= t);
    assert(content.skip(heading_marker(m).len() as int) == t);
    crate::text::lemma_lead_ws_bound(line);
    assert(line.take(lead_ws(line) as int).len() == lead_ws(line));
}

} // verus!

