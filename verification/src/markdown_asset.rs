//! The element types and the tokenizer.
//!
//! [`parse_markdown`] turns raw document text into the ordered element
//! stream; its contract states that the result is exactly the value the
//! model in [`crate::model`] assigns to the input.

use vstd::prelude::*;
use vstd::string::StrSliceExecFns;
use vstd::string::StringExecFns;

use crate::model::ElemView;
use crate::model::ParseState;
use crate::model::RunView;
use crate::model::StyleView;
use crate::model::count_char;
use crate::model::digit_run;
use crate::model::ends_hard_break;
use crate::model::hash_run;
use crate::model::init_state;
use crate::model::is_digit;
use crate::model::is_fence;
use crate::model::is_heading;
use crate::model::is_hrule;
use crate::model::is_ordered_item;
use crate::model::is_rule_of;
use crate::model::is_unordered_item;
use crate::model::is_ws;
use crate::model::join_lines;
use crate::model::lemma_trailing_breaks_nonneg;
use crate::model::ltrim;
use crate::model::normalize;
use crate::model::parse_doc;
use crate::model::parse_from;
use crate::model::parse_lines_spec;
use crate::model::rtrim;
use crate::model::split_lines;
use crate::model::split_lines_acc;
use crate::model::step;
use crate::model::strip_cr;
use crate::model::trailing_breaks;
use crate::model::trim;

verus! {

/// The level of a heading, counted from its leading `#` characters.
pub type HeadingLevel = u16;

/// The inline style carried by one styled run. A link target's title is
/// optional; a code span's contents are never scanned for nested styles.
#[derive(Debug, Clone, PartialEq, Eq)]
pub enum MarkdownTextStyle {
    Standard,
    Bold,
    Italic,
    Link { target: String, title: Option<String> },
    Code,
}

/// One contiguous piece of text tagged with a single inline style.
#[derive(Debug, Clone, PartialEq, Eq)]
pub struct MarkdownText {
    pub style: MarkdownTextStyle,
    pub text: String,
}

/// One typed presentation element of the element stream.
#[derive(Debug, Clone, PartialEq, Eq)]
pub enum MarkdownElement {
    Text(MarkdownText),
    Heading(MarkdownText, HeadingLevel),
    HorizontalRule,
    Image { alt_text: String, image: String },
    OrderedListItem(MarkdownText),
    UnorderedListItem(MarkdownText),
    CodeBlock(String),
    LineBreak,
}

/// One parsed document: the ordered element stream and the unresolved
/// reference to the sibling style document a host resolves before rendering.
pub struct Markdown {
    pub content: Vec<MarkdownElement>,
    pub style: String,
}

impl DeepView for MarkdownTextStyle {
    type V = StyleView;

    open spec fn deep_view(&self) -> StyleView {
        match self {
            MarkdownTextStyle::Standard => StyleView::Standard,
            MarkdownTextStyle::Bold => StyleView::Bold,
            MarkdownTextStyle::Italic => StyleView::Italic,
            MarkdownTextStyle::Link { target, title } => StyleView::Link {
                target: target.deep_view(),
                title: title.deep_view(),
            },
            MarkdownTextStyle::Code => StyleView::Code,
        }
    }
}

impl DeepView for MarkdownText {
    type V = RunView;

    open spec fn deep_view(&self) -> RunView {
        RunView { style: self.style.deep_view(), text: self.text.deep_view() }
    }
}

impl DeepView for MarkdownElement {
    type V = ElemView;

    open spec fn deep_view(&self) -> ElemView {
        match self {
            MarkdownElement::Text(t) => ElemView::Text(t.deep_view()),
            MarkdownElement::Heading(t, level) => ElemView::Heading(t.deep_view(), *level),
            MarkdownElement::HorizontalRule => ElemView::HorizontalRule,
            MarkdownElement::Image { alt_text, image } => ElemView::Image {
                alt_text: alt_text.deep_view(),
                image: image.deep_view(),
            },
            MarkdownElement::OrderedListItem(t) => ElemView::OrderedListItem(t.deep_view()),
            MarkdownElement::UnorderedListItem(t) => ElemView::UnorderedListItem(t.deep_view()),
            MarkdownElement::CodeBlock(raw) => ElemView::CodeBlock(raw.deep_view()),
            MarkdownElement::LineBreak => ElemView::LineBreak,
        }
    }
}

/// Whether `c` belongs to the whitespace set the tokenizer trims.
fn is_whitespace(c: char) -> (b: bool)
    ensures
        b == is_ws(c),
{
    let u = c as u32;
    u == 0x20 || (0x09 <= u && u <= 0x0d) || u == 0x85 || u == 0xa0 || u == 0x1680 || (0x2000 <= u
        && u <= 0x200a) || u == 0x2028 || u == 0x2029 || u == 0x202f || u == 0x205f || u == 0x3000
}

/// Whether `c` is an ASCII decimal digit.
fn is_digit_char(c: char) -> (b: bool)
    ensures
        b == is_digit(c),
{
    let u = c as u32;
    0x30 <= u && u <= 0x39
}

/// The line with its leading and trailing whitespace removed.
pub fn trimmed(s: &str) -> (r: String)
    ensures
        r@ == trim(s@),
{
    let n = s.unicode_len();
    proof {
        assert(s@.subrange(0, n as int) =~= s@);
    }
    let mut a: usize = 0;
    while a < n && is_whitespace(s.get_char(a))
        invariant
            0 <= a <= n,
            n == s@.len(),
            ltrim(s@) == ltrim(s@.subrange(a as int, n as int)),
        decreases n - a,
    {
        proof {
            assert(s@.subrange(a as int, n as int).drop_first() =~= s@.subrange(
                a as int + 1,
                n as int,
            ));
        }
        a += 1;
    }
    proof {
        assert(ltrim(s@) == s@.subrange(a as int, n as int));
    }
    let mut b: usize = n;
    while b > a && is_whitespace(s.get_char(b - 1))
        invariant
            0 <= a <= b <= n,
            n == s@.len(),
            ltrim(s@) == s@.subrange(a as int, n as int),
            rtrim(s@.subrange(a as int, n as int)) == rtrim(s@.subrange(a as int, b as int)),
        decreases b,
    {
        proof {
            assert(s@.subrange(a as int, b as int).drop_last() =~= s@.subrange(
                a as int,
                b as int - 1,
            ));
        }
        b -= 1;
    }
    proof {
        assert(trim(s@) == s@.subrange(a as int, b as int));
    }
    s.substring_char(a, b).to_owned()
}

/// Whether the trimmed line begins with a code-fence marker.
fn fence_marker(t: &str) -> (b: bool)
    ensures
        b == is_fence(t@),
{
    let m = t.unicode_len();
    m >= 3 && t.get_char(0) == '`' && t.get_char(1) == '`' && t.get_char(2) == '`'
}

/// Whether the trimmed line is a horizontal rule drawn with the marker `c`.
fn check_rule(t: &str, c: char) -> (b: bool)
    ensures
        b == is_rule_of(t@, c),
{
    let m = t.unicode_len();
    let mut i: usize = 0;
    let mut cnt: usize = 0;
    let mut ok = true;
    while i < m
        invariant
            0 <= i <= m,
            m == t@.len(),
            cnt <= i,
            cnt as int == count_char(t@.take(i as int), c),
            ok <==> (forall|j: int| 0 <= j < i ==> t@[j] == c || is_ws(t@[j])),
        decreases m - i,
    {
        proof {
            assert(t@.take(i as int + 1).drop_last() =~= t@.take(i as int));
            assert(t@.take(i as int + 1).last() == t@[i as int]);
        }
        let ch = t.get_char(i);
        if ch == c {
            cnt += 1;
        } else if !is_whitespace(ch) {
            ok = false;
        }
        i += 1;
    }
    proof {
        assert(t@.take(m as int) =~= t@);
    }
    ok && cnt >= 3
}

/// Tokenize one non-blank source line met outside any code fence, appending
/// the elements it contributes to the stream; the second component of the
/// result reports that the line opened a code fence instead.
pub fn parse_text(line: &str, output: Vec<MarkdownElement>) -> (r: (Vec<MarkdownElement>, bool))
    requires
        line@.len() > 0,
    ensures
        ({
            let stepped = step(ParseState { out: output.deep_view(), fence: None }, line@);
            &&& r.0.deep_view() == stepped.out
            &&& (if r.1 {
                stepped.fence == Some(Seq::<Seq<char>>::empty())
            } else {
                stepped.fence is None
            })
        }),
{
    let ghost out0 = output.deep_view();
    let ghost stepped = step(ParseState { out: out0, fence: None }, line@);
    let mut output = output;
    let t = trimmed(line);
    let ts = t.as_str();
    let ghost tv = ts@;
    let m = ts.unicode_len();

    // Heading: a run of one through six `#` characters followed by whitespace.
    let mut k: usize = 0;
    proof {
        assert(tv.subrange(0, m as int) =~= tv);
    }
    while k < m && ts.get_char(k) == '#'
        invariant
            0 <= k <= m,
            m == tv.len(),
            tv == ts@,
            hash_run(tv) == k + hash_run(tv.subrange(k as int, m as int)),
        decreases m - k,
    {
        proof {
            assert(tv.subrange(k as int, m as int).drop_first() =~= tv.subrange(
                k as int + 1,
                m as int,
            ));
        }
        k += 1;
    }
    proof {
        assert(hash_run(tv) == k);
    }
    if 1 <= k && k <= 6 && k < m && is_whitespace(ts.get_char(k)) {
        let content = trimmed(ts.substring_char(k, m));
        let heading = MarkdownElement::Heading(
            MarkdownText { style: MarkdownTextStyle::Standard, text: content },
            k as u16,
        );
        output.push(heading);
        output.push(MarkdownElement::LineBreak);
        proof {
            assert(is_heading(tv));
            assert(output.deep_view() =~= stepped.out);
        }
        return (output, false);
    }

    // Horizontal rule: three or more repetitions of one marker.
    if check_rule(ts, '-') || check_rule(ts, '*') || check_rule(ts, '_') {
        output.push(MarkdownElement::HorizontalRule);
        proof {
            assert(output.deep_view() =~= stepped.out);
        }
        return (output, false);
    }

    // Code fence: the line opens a block and switches the tokenizer's state.
    if fence_marker(ts) {
        proof {
            assert(output.deep_view() =~= stepped.out);
        }
        return (output, true);
    }

    // Ordered list item: digits, a dot, then whitespace.
    let mut d: usize = 0;
    proof {
        assert(tv.subrange(0, m as int) =~= tv);
    }
    while d < m && is_digit_char(ts.get_char(d))
        invariant
            0 <= d <= m,
            m == tv.len(),
            tv == ts@,
            digit_run(tv) == d + digit_run(tv.subrange(d as int, m as int)),
        decreases m - d,
    {
        proof {
            assert(tv.subrange(d as int, m as int).drop_first() =~= tv.subrange(
                d as int + 1,
                m as int,
            ));
        }
        d += 1;
    }
    proof {
        assert(digit_run(tv) == d);
    }
    if 1 <= d && d < m && ts.get_char(d) == '.' && d + 1 < m && is_whitespace(ts.get_char(d + 1)) {
        let content = trimmed(ts.substring_char(d + 1, m));
        output.push(
            MarkdownElement::OrderedListItem(
                MarkdownText { style: MarkdownTextStyle::Standard, text: content },
            ),
        );
        proof {
            assert(is_ordered_item(tv));
            assert(output.deep_view() =~= stepped.out);
        }
        return (output, false);
    }

    // Unordered list item: a bullet marker followed by whitespace.
    if m >= 2 {
        let c0 = ts.get_char(0);
        if (c0 == '-' || c0 == '*' || c0 == '+') && is_whitespace(ts.get_char(1)) {
            let content = trimmed(ts.substring_char(1, m));
            output.push(
                MarkdownElement::UnorderedListItem(
                    MarkdownText { style: MarkdownTextStyle::Standard, text: content },
                ),
            );
            proof {
                assert(is_unordered_item(tv));
                assert(output.deep_view() =~= stepped.out);
            }
            return (output, false);
        }
    }

    // Plain paragraph line: the whole trimmed line as one standard run; an
    // all-whitespace line contributes no run.
    proof {
        assert(!is_heading(tv) && !is_hrule(tv) && !is_fence(tv) && !is_ordered_item(tv)
            && !is_unordered_item(tv));
    }
    if m > 0 {
        output.push(MarkdownElement::Text(MarkdownText { style: MarkdownTextStyle::Standard, text: t }));
    }
    let n = line.unicode_len();
    if n >= 2 && line.get_char(n - 1) == ' ' && line.get_char(n - 2) == ' ' {
        output.push(MarkdownElement::LineBreak);
        proof {
            assert(ends_hard_break(line@));
        }
    }
    proof {
        assert(output.deep_view() =~= stepped.out);
    }
    (output, false)
}

/// Normalize the blank-line run at the stream's tail: count the line breaks
/// already trailing, capped at two, and append the difference, so that the
/// stream ends with at least two explicit breaks.
pub fn parse_empty_line(output: Vec<MarkdownElement>) -> (r: Vec<MarkdownElement>)
    ensures
        r.deep_view() == normalize(output.deep_view()),
{
    let ghost out0 = output.deep_view();
    let mut output = output;
    let len = output.len();
    let mut breaks: usize = 0;
    if len >= 1 && matches!(&output[len - 1], MarkdownElement::LineBreak) {
        if len >= 2 && matches!(&output[len - 2], MarkdownElement::LineBreak) {
            breaks = 2;
        } else {
            breaks = 1;
        }
    }
    proof {
        lemma_trailing_breaks_nonneg(out0);
        if out0.len() > 0 {
            assert(out0.last() == out0[out0.len() - 1]);
            lemma_trailing_breaks_nonneg(out0.drop_last());
            if out0.len() > 1 {
                assert(out0.drop_last().last() == out0[out0.len() - 2]);
                lemma_trailing_breaks_nonneg(out0.drop_last().drop_last());
            }
        }
        if breaks == 2 {
            assert(out0.last() is LineBreak);
            assert(trailing_breaks(out0) == 1 + trailing_breaks(out0.drop_last()));
            assert(out0.drop_last().last() is LineBreak);
            assert(trailing_breaks(out0.drop_last()) == 1 + trailing_breaks(
                out0.drop_last().drop_last(),
            ));
            assert(trailing_breaks(out0) >= 2);
        } else if breaks == 1 {
            assert(trailing_breaks(out0) == 1);
        } else {
            assert(trailing_breaks(out0) == 0);
        }
    }
    if breaks == 0 {
        output.push(MarkdownElement::LineBreak);
        output.push(MarkdownElement::LineBreak);
    } else if breaks == 1 {
        output.push(MarkdownElement::LineBreak);
    }
    proof {
        assert(output.deep_view() =~= normalize(out0));
    }
    output
}

/// The accumulated lines of a code block, joined back with line feeds.
fn join(lines: &Vec<String>) -> (r: String)
    ensures
        r@ == join_lines(lines.deep_view()),
{
    let mut r = String::new();
    let mut i: usize = 0;
    proof {
        assert(lines.deep_view().take(0) =~= Seq::<Seq<char>>::empty());
    }
    while i < lines.len()
        invariant
            0 <= i <= lines@.len(),
            r@ == join_lines(lines.deep_view().take(i as int)),
        decreases lines@.len() - i,
    {
        proof {
            assert(lines.deep_view().take(i as int + 1).drop_last() =~= lines.deep_view().take(
                i as int,
            ));
            assert(lines.deep_view().take(i as int + 1).last() == lines.deep_view()[i as int]);
            reveal_strlit("\n");
            assert("\n"@ =~= seq!['\n']);
        }
        if i > 0 {
            r.append("\n");
        }
        let li: &String = &lines[i];
        r.append(li.as_str());
        i += 1;
    }
    proof {
        assert(lines.deep_view().take(lines@.len() as int) =~= lines.deep_view());
    }
    r
}

/// Split raw document text into its lines, as the line reader hands them to
/// the tokenizer: split at line feeds, each terminator (and one carriage
/// return before it) stripped, a final terminator yielding no empty line.
pub fn split_into_lines(text: &str) -> (r: Vec<String>)
    ensures
        r.deep_view() == split_lines(text@),
{
    let n = text.unicode_len();
    let mut lines: Vec<String> = Vec::new();
    let mut start: usize = 0;
    let mut i: usize = 0;
    proof {
        assert(text@.subrange(0, n as int) =~= text@);
        assert(text@.subrange(0, 0) =~= Seq::<char>::empty());
        assert(lines.deep_view() =~= Seq::<Seq<char>>::empty());
    }
    while i < n
        invariant
            0 <= start <= i <= n,
            n == text@.len(),
            split_lines(text@) == lines.deep_view() + split_lines_acc(
                text@.subrange(i as int, n as int),
                text@.subrange(start as int, i as int),
            ),
        decreases n - i,
    {
        let ghost cur = text@.subrange(start as int, i as int);
        proof {
            assert(text@.subrange(i as int, n as int).drop_first() =~= text@.subrange(
                i as int + 1,
                n as int,
            ));
            assert(text@.subrange(i as int, n as int)[0] == text@[i as int]);
        }
        let c = text.get_char(i);
        if c == '\n' {
            let end = if i > start && text.get_char(i - 1) == '\r' {
                i - 1
            } else {
                i
            };
            proof {
                if i > start && text@[i as int - 1] == '\r' {
                    assert(cur.last() == text@[i as int - 1]);
                    assert(cur.drop_last() =~= text@.subrange(start as int, i as int - 1));
                }
                assert(strip_cr(cur) == text@.subrange(start as int, end as int));
            }
            let segment = text.substring_char(start, end).to_owned();
            let ghost lines0 = lines.deep_view();
            lines.push(segment);
            proof {
                assert(lines.deep_view() =~= lines0.push(strip_cr(cur)));
                assert(lines0 + (seq![strip_cr(cur)] + split_lines_acc(
                    text@.subrange(i as int + 1, n as int),
                    Seq::<char>::empty(),
                )) =~= lines.deep_view() + split_lines_acc(
                    text@.subrange(i as int + 1, n as int),
                    Seq::<char>::empty(),
                ));
                assert(text@.subrange(i as int + 1, i as int + 1) =~= Seq::<char>::empty());
            }
            start = i + 1;
        } else {
            proof {
                assert(cur.push(text@[i as int]) =~= text@.subrange(start as int, i as int + 1));
            }
        }
        i += 1;
    }
    proof {
        assert(text@.subrange(n as int, n as int).len() == 0);
    }
    if start < n {
        let segment = text.substring_char(start, n).to_owned();
        let ghost lines0 = lines.deep_view();
        lines.push(segment);
        proof {
            assert(lines.deep_view() =~= lines0.push(text@.subrange(start as int, n as int)));
            assert(lines0 + seq![text@.subrange(start as int, n as int)] =~= lines.deep_view());
        }
    } else {
        proof {
            assert(lines.deep_view() + Seq::<Seq<char>>::empty() =~= lines.deep_view());
        }
    }
    lines
}

/// Fold the per-line step over already-split lines, closing an unterminated
/// code fence at end of input.
pub fn parse_lines(lines: &Vec<String>) -> (r: Vec<MarkdownElement>)
    ensures
        r.deep_view() == parse_lines_spec(lines.deep_view()),
{
    let mut output: Vec<MarkdownElement> = Vec::new();
    let mut in_fence = false;
    let mut fence_lines: Vec<String> = Vec::new();
    let mut i: usize = 0;
    proof {
        assert(lines.deep_view().take(0) =~= Seq::<Seq<char>>::empty());
        assert(output.deep_view() =~= Seq::<ElemView>::empty());
    }
    while i < lines.len()
        invariant
            0 <= i <= lines@.len(),
            ({
                let st = parse_from(init_state(), lines.deep_view().take(i as int));
                &&& st.out == output.deep_view()
                &&& st.fence == (if in_fence {
                    Some(fence_lines.deep_view())
                } else {
                    None::<Seq<Seq<char>>>
                })
            }),
        decreases lines@.len() - i,
    {
        let ghost prev = parse_from(init_state(), lines.deep_view().take(i as int));
        proof {
            assert(lines.deep_view().take(i as int + 1).drop_last() =~= lines.deep_view().take(
                i as int,
            ));
            assert(lines.deep_view().take(i as int + 1).last() == lines.deep_view()[i as int]);
        }
        let line: &String = &lines[i];
        if in_fence {
            let t = trimmed(line.as_str());
            if fence_marker(t.as_str()) {
                let payload = join(&fence_lines);
                let ghost out0 = output.deep_view();
                output.push(MarkdownElement::CodeBlock(payload));
                in_fence = false;
                fence_lines = Vec::new();
                proof {
                    assert(output.deep_view() =~= out0.push(
                        ElemView::CodeBlock(join_lines(prev.fence.unwrap())),
                    ));
                }
            } else {
                let ghost fl0 = fence_lines.deep_view();
                fence_lines.push(line.clone());
                proof {
                    assert(fence_lines.deep_view() =~= fl0.push(line@));
                }
            }
        } else if line.as_str().is_empty() {
            output = parse_empty_line(output);
        } else {
            let parsed = parse_text(line.as_str(), output);
            output = parsed.0;
            if parsed.1 {
                in_fence = true;
                fence_lines = Vec::new();
                proof {
                    assert(fence_lines.deep_view() =~= Seq::<Seq<char>>::empty());
                }
            }
        }
        i += 1;
    }
    proof {
        assert(lines.deep_view().take(lines@.len() as int) =~= lines.deep_view());
    }
    if in_fence {
        let payload = join(&fence_lines);
        let ghost out0 = output.deep_view();
        output.push(MarkdownElement::CodeBlock(payload));
        proof {
            assert(output.deep_view() =~= out0.push(
                ElemView::CodeBlock(join_lines(fence_lines.deep_view())),
            ));
        }
    }
    output
}

/// Tokenize a whole document: split the raw text into lines and fold the
/// per-line step over them. The result is exactly the element stream the
/// model assigns to the text.
pub fn parse_markdown(text: &str) -> (r: Vec<MarkdownElement>)
    ensures
        r.deep_view() == parse_doc(text@),
{
    let lines = split_into_lines(text);
    parse_lines(&lines)
}

/// The text a renderer puts in one section for an element: a text run's
/// characters, a line feed for an explicit break, and nothing for the kinds
/// the rendering stage does not handle yet.
pub fn element_section_text(e: &MarkdownElement) -> (r: Option<String>)
    ensures
        match e {
            MarkdownElement::Text(t) => r matches Some(s) && s@ == t.text@,
            MarkdownElement::LineBreak => r matches Some(s) && s@ == seq!['\n'],
            _ => r is None,
        },
{
    match e {
        MarkdownElement::Text(t) => Some(t.text.clone()),
        MarkdownElement::LineBreak => {
            let s = "\n".to_owned();
            proof {
                reveal_strlit("\n");
                assert(s@ =~= seq!['\n']);
            }
            Some(s)
        },
        _ => None,
    }
}

} // verus!
