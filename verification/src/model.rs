//! The mathematical model of the tokenizer.
//!
//! This module defines ghost mirrors of the executable element types together
//! with a complete specification of the parse: line splitting, block
//! classification of a trimmed line, blank-line normalization, code-fence
//! accumulation, and the fold of the per-line step over a whole document. The
//! executable tokenizer in [`crate::markdown_asset`] is proved to return
//! exactly the value this model assigns to its input. The proof functions at
//! the end state the laws the element stream obeys.

use vstd::prelude::*;

verus! {

/// Model of an inline style tag carried by a styled run.
#[verifier::ext_equal]
pub ghost enum StyleView {
    Standard,
    Bold,
    Italic,
    Link { target: Seq<char>, title: Option<Seq<char>> },
    Code,
}

/// Model of one styled text run.
#[verifier::ext_equal]
pub ghost struct RunView {
    pub style: StyleView,
    pub text: Seq<char>,
}

/// Model of one typed presentation element.
#[verifier::ext_equal]
pub ghost enum ElemView {
    Text(RunView),
    Heading(RunView, u16),
    HorizontalRule,
    Image { alt_text: Seq<char>, image: Seq<char> },
    OrderedListItem(RunView),
    UnorderedListItem(RunView),
    CodeBlock(Seq<char>),
    LineBreak,
}

/// A run tagged with the standard style.
pub open spec fn standard_run(text: Seq<char>) -> RunView {
    RunView { style: StyleView::Standard, text }
}

/// The characters the tokenizer treats as whitespace: the Unicode
/// `White_Space` set, the same set `char::is_whitespace` recognizes.
pub open spec fn is_ws(c: char) -> bool {
    let u = c as u32;
    u == 0x20 || (0x09 <= u && u <= 0x0d) || u == 0x85 || u == 0xa0 || u == 0x1680 || (0x2000
        <= u && u <= 0x200a) || u == 0x2028 || u == 0x2029 || u == 0x202f || u == 0x205f || u
        == 0x3000
}

/// An ASCII decimal digit.
pub open spec fn is_digit(c: char) -> bool {
    let u = c as u32;
    0x30 <= u && u <= 0x39
}

/// The sequence without its leading whitespace.
pub open spec fn ltrim(s: Seq<char>) -> Seq<char>
    decreases s.len(),
{
    if s.len() > 0 && is_ws(s[0]) {
        ltrim(s.drop_first())
    } else {
        s
    }
}

/// The sequence without its trailing whitespace.
pub open spec fn rtrim(s: Seq<char>) -> Seq<char>
    decreases s.len(),
{
    if s.len() > 0 && is_ws(s.last()) {
        rtrim(s.drop_last())
    } else {
        s
    }
}

/// The sequence without its leading and trailing whitespace.
pub open spec fn trim(s: Seq<char>) -> Seq<char> {
    rtrim(ltrim(s))
}

/// The length of the run of `#` characters a line begins with.
pub open spec fn hash_run(t: Seq<char>) -> int
    decreases t.len(),
{
    if t.len() > 0 && t[0] == '#' {
        1 + hash_run(t.drop_first())
    } else {
        0
    }
}

/// A trimmed line that begins a heading: a run of one through six `#`
/// characters followed by whitespace.
pub open spec fn is_heading(t: Seq<char>) -> bool {
    let k = hash_run(t);
    1 <= k <= 6 && k < t.len() && is_ws(t[k])
}

/// The heading content: everything after the `#` run, trimmed.
pub open spec fn heading_text(t: Seq<char>) -> Seq<char> {
    trim(t.subrange(hash_run(t), t.len() as int))
}

/// The number of occurrences of `c` in `s`.
pub open spec fn count_char(s: Seq<char>, c: char) -> int
    decreases s.len(),
{
    if s.len() == 0 {
        0
    } else {
        count_char(s.drop_last(), c) + if s.last() == c {
            1int
        } else {
            0int
        }
    }
}

/// A trimmed line consisting solely of three or more repetitions of the
/// marker `c`, ignoring interior whitespace.
pub open spec fn is_rule_of(t: Seq<char>, c: char) -> bool {
    (forall|i: int| 0 <= i < t.len() ==> t[i] == c || is_ws(t[i])) && count_char(t, c) >= 3
}

/// A trimmed line that classifies as a horizontal rule.
pub open spec fn is_hrule(t: Seq<char>) -> bool {
    is_rule_of(t, '-') || is_rule_of(t, '*') || is_rule_of(t, '_')
}

/// A trimmed line that begins with a code-fence marker.
pub open spec fn is_fence(t: Seq<char>) -> bool {
    t.len() >= 3 && t[0] == '`' && t[1] == '`' && t[2] == '`'
}

/// The length of the run of decimal digits a line begins with.
pub open spec fn digit_run(t: Seq<char>) -> int
    decreases t.len(),
{
    if t.len() > 0 && is_digit(t[0]) {
        1 + digit_run(t.drop_first())
    } else {
        0
    }
}

/// A trimmed line that begins an ordered list item: digits, a dot, then
/// whitespace.
pub open spec fn is_ordered_item(t: Seq<char>) -> bool {
    let d = digit_run(t);
    1 <= d && d + 1 < t.len() && t[d] == '.' && is_ws(t[d + 1])
}

/// The ordered item's content: everything after the dot, trimmed.
pub open spec fn ordered_text(t: Seq<char>) -> Seq<char> {
    trim(t.subrange(digit_run(t) + 1, t.len() as int))
}

/// A trimmed line that begins an unordered list item: a bullet marker
/// followed by whitespace.
pub open spec fn is_unordered_item(t: Seq<char>) -> bool {
    t.len() >= 2 && (t[0] == '-' || t[0] == '*' || t[0] == '+') && is_ws(t[1])
}

/// The unordered item's content: everything after the bullet, trimmed.
pub open spec fn unordered_text(t: Seq<char>) -> Seq<char> {
    trim(t.subrange(1, t.len() as int))
}

/// A source line that ends in two trailing spaces: a hard line break.
pub open spec fn ends_hard_break(line: Seq<char>) -> bool {
    line.len() >= 2 && line[line.len() - 1] == ' ' && line[line.len() - 2] == ' '
}

/// The length of the run of line breaks the element stream ends with.
pub open spec fn trailing_breaks(out: Seq<ElemView>) -> int
    decreases out.len(),
{
    if out.len() > 0 && out.last() is LineBreak {
        1 + trailing_breaks(out.drop_last())
    } else {
        0
    }
}

/// The blank-line normalizer: append line breaks until the stream ends with
/// two, counting the breaks already trailing toward that cap.
pub open spec fn normalize(out: Seq<ElemView>) -> Seq<ElemView> {
    if trailing_breaks(out) >= 2 {
        out
    } else if trailing_breaks(out) == 1 {
        out.push(ElemView::LineBreak)
    } else {
        out.push(ElemView::LineBreak).push(ElemView::LineBreak)
    }
}

/// The lines of a code block joined back with line feeds.
pub open spec fn join_lines(ls: Seq<Seq<char>>) -> Seq<char>
    decreases ls.len(),
{
    if ls.len() == 0 {
        Seq::empty()
    } else if ls.len() == 1 {
        ls[0]
    } else {
        join_lines(ls.drop_last()) + seq!['\n'] + ls.last()
    }
}

/// The tokenizer's state between lines: the elements committed so far and,
/// inside a code fence, the verbatim lines accumulated since it opened.
#[verifier::ext_equal]
pub ghost struct ParseState {
    pub out: Seq<ElemView>,
    pub fence: Option<Seq<Seq<char>>>,
}

/// The state before any line has been read.
pub open spec fn init_state() -> ParseState {
    ParseState { out: Seq::empty(), fence: None }
}

/// One line of the tokenizer: inside a fence the line is accumulated
/// verbatim or closes the block; a blank line runs the normalizer; any other
/// line is classified by its leading characters, the first matching rule
/// winning, and falls through to a plain paragraph line whose empty run is
/// rejected and whose trailing double space appends one explicit break.
pub open spec fn step(st: ParseState, line: Seq<char>) -> ParseState {
    match st.fence {
        Some(ls) => {
            if is_fence(trim(line)) {
                ParseState { out: st.out.push(ElemView::CodeBlock(join_lines(ls))), fence: None }
            } else {
                ParseState { out: st.out, fence: Some(ls.push(line)) }
            }
        },
        None => {
            if line.len() == 0 {
                ParseState { out: normalize(st.out), fence: None }
            } else {
                let t = trim(line);
                if is_heading(t) {
                    ParseState {
                        out: st.out.push(
                            ElemView::Heading(standard_run(heading_text(t)), hash_run(t) as u16),
                        ).push(ElemView::LineBreak),
                        fence: None,
                    }
                } else if is_hrule(t) {
                    ParseState { out: st.out.push(ElemView::HorizontalRule), fence: None }
                } else if is_fence(t) {
                    ParseState { out: st.out, fence: Some(Seq::empty()) }
                } else if is_ordered_item(t) {
                    ParseState {
                        out: st.out.push(ElemView::OrderedListItem(standard_run(ordered_text(t)))),
                        fence: None,
                    }
                } else if is_unordered_item(t) {
                    ParseState {
                        out: st.out.push(
                            ElemView::UnorderedListItem(standard_run(unordered_text(t))),
                        ),
                        fence: None,
                    }
                } else {
                    let out1 = if t.len() > 0 {
                        st.out.push(ElemView::Text(standard_run(t)))
                    } else {
                        st.out
                    };
                    let out2 = if ends_hard_break(line) {
                        out1.push(ElemView::LineBreak)
                    } else {
                        out1
                    };
                    ParseState { out: out2, fence: None }
                }
            }
        },
    }
}

/// The fold of [`step`] over a sequence of lines, from the given state.
pub open spec fn parse_from(st: ParseState, lines: Seq<Seq<char>>) -> ParseState
    decreases lines.len(),
{
    if lines.len() == 0 {
        st
    } else {
        step(parse_from(st, lines.drop_last()), lines.last())
    }
}

/// End of input: an unterminated fence closes implicitly, emitting the
/// accumulated code text.
pub open spec fn finish(st: ParseState) -> Seq<ElemView> {
    match st.fence {
        Some(ls) => st.out.push(ElemView::CodeBlock(join_lines(ls))),
        None => st.out,
    }
}

/// The element stream of a document given as its sequence of lines.
pub open spec fn parse_lines_spec(lines: Seq<Seq<char>>) -> Seq<ElemView> {
    finish(parse_from(init_state(), lines))
}

/// The splitter's accumulator: `cur` holds the characters of the line being
/// read. A line-feed-terminated segment drops one carriage return before the
/// terminator; a final unterminated segment is kept as it stands, and a
/// final empty segment yields no line.
pub open spec fn split_lines_acc(s: Seq<char>, cur: Seq<char>) -> Seq<Seq<char>>
    decreases s.len(),
{
    if s.len() == 0 {
        if cur.len() == 0 {
            Seq::empty()
        } else {
            seq![cur]
        }
    } else if s[0] == '\n' {
        seq![strip_cr(cur)] + split_lines_acc(s.drop_first(), Seq::empty())
    } else {
        split_lines_acc(s.drop_first(), cur.push(s[0]))
    }
}

/// A terminated line with a single trailing carriage return removed.
pub open spec fn strip_cr(l: Seq<char>) -> Seq<char> {
    if l.len() > 0 && l.last() == '\r' {
        l.drop_last()
    } else {
        l
    }
}

/// The lines of a document, as the line reader hands them to the tokenizer:
/// split at line feeds, each terminator (and a carriage return before it)
/// stripped, a final terminator yielding no empty last line.
pub open spec fn split_lines(s: Seq<char>) -> Seq<Seq<char>> {
    split_lines_acc(s, Seq::empty())
}

/// The element stream of a whole document given as raw text.
pub open spec fn parse_doc(s: Seq<char>) -> Seq<ElemView> {
    parse_lines_spec(split_lines(s))
}

/// A trailing-break count is never negative.
pub proof fn lemma_trailing_breaks_nonneg(out: Seq<ElemView>)
    ensures
        trailing_breaks(out) >= 0,
    decreases out.len(),
{
    if out.len() > 0 && out.last() is LineBreak {
        lemma_trailing_breaks_nonneg(out.drop_last());
    }
}

/// Appending one line break extends the trailing run by exactly one.
pub proof fn lemma_trailing_breaks_push(out: Seq<ElemView>)
    ensures
        trailing_breaks(out.push(ElemView::LineBreak)) == trailing_breaks(out) + 1,
{
    assert(out.push(ElemView::LineBreak).drop_last() =~= out);
    assert(out.push(ElemView::LineBreak).last() is LineBreak);
}

/// After any blank source line the element stream ends in exactly two line
/// breaks whenever at most two were trailing before it. A longer trailing
/// run — reachable only through hard line breaks on all-whitespace lines,
/// never through blank lines alone — is left as it stands.
pub proof fn lemma_blank_line_cap(st: ParseState, line: Seq<char>)
    requires
        st.fence is None,
        line.len() == 0,
    ensures
        trailing_breaks(st.out) <= 2 ==> trailing_breaks(step(st, line).out) == 2,
        trailing_breaks(st.out) > 2 ==> step(st, line).out == st.out,
        step(st, line).fence is None,
{
    lemma_trailing_breaks_nonneg(st.out);
    lemma_trailing_breaks_push(st.out);
    lemma_trailing_breaks_push(st.out.push(ElemView::LineBreak));
}

/// Normalizing blank-line runs is stable: the normalizer applied to an
/// already-normalized tail appends nothing further.
pub proof fn lemma_normalize_idempotent(out: Seq<ElemView>)
    ensures
        normalize(normalize(out)) == normalize(out),
{
    lemma_trailing_breaks_nonneg(out);
    lemma_trailing_breaks_push(out);
    lemma_trailing_breaks_push(out.push(ElemView::LineBreak));
}

/// Left-trimming yields a sequence that does not begin with whitespace, and
/// a non-whitespace final character survives it.
pub proof fn lemma_ltrim_props(s: Seq<char>)
    ensures
        ltrim(s).len() <= s.len(),
        ltrim(s).len() > 0 ==> !is_ws(ltrim(s)[0]),
        s.len() > 0 && !is_ws(s.last()) ==> ltrim(s).len() > 0 && ltrim(s).last() == s.last(),
    decreases s.len(),
{
    if s.len() > 0 && is_ws(s[0]) {
        lemma_ltrim_props(s.drop_first());
        if !is_ws(s.last()) {
            assert(s.drop_first().last() == s.last());
        }
    }
}

/// Right-trimming yields a sequence that does not end in whitespace, and a
/// non-whitespace first character survives it.
pub proof fn lemma_rtrim_props(s: Seq<char>)
    ensures
        rtrim(s).len() <= s.len(),
        rtrim(s).len() > 0 ==> !is_ws(rtrim(s).last()),
        s.len() > 0 && !is_ws(s[0]) ==> rtrim(s).len() > 0 && rtrim(s)[0] == s[0],
    decreases s.len(),
{
    if s.len() > 0 && is_ws(s.last()) {
        lemma_rtrim_props(s.drop_last());
        if !is_ws(s[0]) {
            assert(s.drop_last()[0] == s[0]);
        }
    }
}

/// A nonempty trimmed sequence neither begins nor ends in whitespace.
pub proof fn lemma_trim_props(s: Seq<char>)
    ensures
        trim(s).len() <= s.len(),
        trim(s).len() > 0 ==> !is_ws(trim(s)[0]) && !is_ws(trim(s).last()),
{
    lemma_ltrim_props(s);
    lemma_rtrim_props(ltrim(s));
}

/// A plain paragraph line emits one standard run holding exactly the source
/// line with its surrounding whitespace removed — never an empty run — and a
/// trailing double space appends one explicit break immediately after it.
pub proof fn lemma_paragraph_line(st: ParseState, line: Seq<char>)
    requires
        st.fence is None,
        line.len() > 0,
        !is_heading(trim(line)),
        !is_hrule(trim(line)),
        !is_fence(trim(line)),
        !is_ordered_item(trim(line)),
        !is_unordered_item(trim(line)),
        trim(line).len() > 0,
    ensures
        ({
            let text_elem = ElemView::Text(standard_run(trim(line)));
            step(st, line).out == if ends_hard_break(line) {
                st.out.push(text_elem).push(ElemView::LineBreak)
            } else {
                st.out.push(text_elem)
            }
        }),
        step(st, line).fence is None,
{
}

/// A line ending in two trailing spaces emits one line break immediately
/// following its text element.
pub proof fn lemma_hard_break_line(st: ParseState, line: Seq<char>)
    requires
        st.fence is None,
        line.len() > 0,
        !is_heading(trim(line)),
        !is_hrule(trim(line)),
        !is_fence(trim(line)),
        !is_ordered_item(trim(line)),
        !is_unordered_item(trim(line)),
        trim(line).len() > 0,
        ends_hard_break(line),
    ensures
        step(st, line).out.len() == st.out.len() + 2,
        step(st, line).out.last() is LineBreak,
        step(st, line).out[st.out.len() as int] == ElemView::Text(standard_run(trim(line))),
{
    lemma_paragraph_line(st, line);
}

/// A heading line yields a heading at the level of its leading `#` run, with
/// trimmed, nonempty text, immediately followed by exactly one line break.
pub proof fn lemma_heading_line(st: ParseState, line: Seq<char>)
    requires
        st.fence is None,
        line.len() > 0,
        is_heading(trim(line)),
    ensures
        step(st, line).out == st.out.push(
            ElemView::Heading(standard_run(heading_text(trim(line))), hash_run(trim(line)) as u16),
        ).push(ElemView::LineBreak),
        step(st, line).fence is None,
        1 <= hash_run(trim(line)) <= 6,
        heading_text(trim(line)).len() > 0,
        !is_ws(heading_text(trim(line))[0]),
        !is_ws(heading_text(trim(line)).last()),
{
    let t = trim(line);
    lemma_trim_props(line);
    let k = hash_run(t);
    let sub = t.subrange(k, t.len() as int);
    assert(sub.last() == t.last());
    lemma_ltrim_props(sub);
    lemma_rtrim_props(ltrim(sub));
}

/// Every heading in the element stream is immediately followed by a line
/// break.
pub open spec fn headings_followed_by_break(out: Seq<ElemView>) -> bool {
    forall|i: int|
        #![trigger out[i]]
        0 <= i < out.len() && out[i] is Heading ==> i + 1 < out.len() && out[i + 1] is LineBreak
}

/// The invariant the tokenizer maintains while building a stream: headings
/// have their break, and the last element is never a bare heading.
pub open spec fn stream_ok(out: Seq<ElemView>) -> bool {
    headings_followed_by_break(out) && (out.len() > 0 ==> !(out.last() is Heading))
}

/// Appending any non-heading element preserves the stream invariant.
proof fn lemma_push_stream_ok(out: Seq<ElemView>, e: ElemView)
    requires
        stream_ok(out),
        !(e is Heading),
    ensures
        stream_ok(out.push(e)),
{
    let out2 = out.push(e);
    assert forall|i: int|
        #![trigger out2[i]]
        0 <= i < out2.len() && out2[i] is Heading implies i + 1 < out2.len() && out2[i
        + 1] is LineBreak by {
        assert(out2[i] == out[i]);
        assert(out2[i + 1] == out[i + 1]);
    }
}

/// Appending a heading together with its break preserves the stream
/// invariant.
proof fn lemma_push_heading_ok(out: Seq<ElemView>, run: RunView, level: u16)
    requires
        stream_ok(out),
    ensures
        stream_ok(out.push(ElemView::Heading(run, level)).push(ElemView::LineBreak)),
{
    let out2 = out.push(ElemView::Heading(run, level)).push(ElemView::LineBreak);
    assert forall|i: int|
        #![trigger out2[i]]
        0 <= i < out2.len() && out2[i] is Heading implies i + 1 < out2.len() && out2[i
        + 1] is LineBreak by {
        if i < out.len() {
            assert(out2[i] == out[i]);
            if i + 1 < out.len() {
                assert(out2[i + 1] == out[i + 1]);
            }
        }
    }
}

/// One step of the tokenizer preserves the stream invariant.
proof fn lemma_step_stream_ok(st: ParseState, line: Seq<char>)
    requires
        stream_ok(st.out),
    ensures
        stream_ok(step(st, line).out),
{
    match st.fence {
        Some(ls) => {
            if is_fence(trim(line)) {
                lemma_push_stream_ok(st.out, ElemView::CodeBlock(join_lines(ls)));
            }
        },
        None => {
            if line.len() == 0 {
                if trailing_breaks(st.out) >= 2 {
                } else if trailing_breaks(st.out) == 1 {
                    lemma_push_stream_ok(st.out, ElemView::LineBreak);
                } else {
                    lemma_push_stream_ok(st.out, ElemView::LineBreak);
                    lemma_push_stream_ok(st.out.push(ElemView::LineBreak), ElemView::LineBreak);
                }
            } else {
                let t = trim(line);
                if is_heading(t) {
                    lemma_push_heading_ok(st.out, standard_run(heading_text(t)), hash_run(t) as u16);
                } else if is_hrule(t) {
                    lemma_push_stream_ok(st.out, ElemView::HorizontalRule);
                } else if is_fence(t) {
                } else if is_ordered_item(t) {
                    lemma_push_stream_ok(st.out, ElemView::OrderedListItem(standard_run(ordered_text(t))));
                } else if is_unordered_item(t) {
                    lemma_push_stream_ok(
                        st.out,
                        ElemView::UnorderedListItem(standard_run(unordered_text(t))),
                    );
                } else {
                    let out1 = if t.len() > 0 {
                        lemma_push_stream_ok(st.out, ElemView::Text(standard_run(t)));
                        st.out.push(ElemView::Text(standard_run(t)))
                    } else {
                        st.out
                    };
                    if ends_hard_break(line) {
                        lemma_push_stream_ok(out1, ElemView::LineBreak);
                    }
                }
            }
        },
    }
}

/// The fold of the step from an invariant-respecting state keeps the stream
/// invariant.
proof fn lemma_parse_from_stream_ok(st: ParseState, lines: Seq<Seq<char>>)
    requires
        stream_ok(st.out),
    ensures
        stream_ok(parse_from(st, lines).out),
    decreases lines.len(),
{
    if lines.len() > 0 {
        lemma_parse_from_stream_ok(st, lines.drop_last());
        lemma_step_stream_ok(parse_from(st, lines.drop_last()), lines.last());
    }
}

/// In every tokenized document, a heading element is immediately followed by
/// a line break representing its line's terminator.
pub proof fn lemma_headings_followed_by_break(lines: Seq<Seq<char>>)
    ensures
        headings_followed_by_break(parse_lines_spec(lines)),
{
    lemma_parse_from_stream_ok(init_state(), lines);
    let st = parse_from(init_state(), lines);
    match st.fence {
        Some(ls) => {
            lemma_push_stream_ok(st.out, ElemView::CodeBlock(join_lines(ls)));
        },
        None => {
        },
    }
}

/// The content of a list item line is never empty after trimming.
pub proof fn lemma_item_text_nonempty(line: Seq<char>)
    requires
        line.len() > 0,
    ensures
        is_ordered_item(trim(line)) ==> ordered_text(trim(line)).len() > 0,
        is_unordered_item(trim(line)) ==> unordered_text(trim(line)).len() > 0,
{
    let t = trim(line);
    lemma_trim_props(line);
    if is_ordered_item(t) {
        let d = digit_run(t);
        let sub = t.subrange(d + 1, t.len() as int);
        assert(sub.last() == t.last());
        lemma_ltrim_props(sub);
        lemma_rtrim_props(ltrim(sub));
    }
    if is_unordered_item(t) {
        let sub = t.subrange(1, t.len() as int);
        assert(sub.last() == t.last());
        lemma_ltrim_props(sub);
        lemma_rtrim_props(ltrim(sub));
    }
}

/// Whether an element's styled run, if it carries one, is nonempty.
pub open spec fn elem_run_nonempty(e: ElemView) -> bool {
    match e {
        ElemView::Text(r) => r.text.len() > 0,
        ElemView::Heading(r, _) => r.text.len() > 0,
        ElemView::OrderedListItem(r) => r.text.len() > 0,
        ElemView::UnorderedListItem(r) => r.text.len() > 0,
        _ => true,
    }
}

/// Every styled run in the element stream is nonempty.
pub open spec fn runs_nonempty(out: Seq<ElemView>) -> bool {
    forall|i: int| 0 <= i < out.len() ==> elem_run_nonempty(#[trigger] out[i])
}

/// Appending an element whose run is nonempty preserves the property.
proof fn lemma_push_runs_nonempty(out: Seq<ElemView>, e: ElemView)
    requires
        runs_nonempty(out),
        elem_run_nonempty(e),
    ensures
        runs_nonempty(out.push(e)),
{
    let out2 = out.push(e);
    assert forall|i: int| 0 <= i < out2.len() implies elem_run_nonempty(#[trigger] out2[i]) by {
        if i < out.len() {
            assert(out2[i] == out[i]);
        }
    }
}

/// One step of the tokenizer never emits an empty styled run.
proof fn lemma_step_runs_nonempty(st: ParseState, line: Seq<char>)
    requires
        runs_nonempty(st.out),
    ensures
        runs_nonempty(step(st, line).out),
{
    match st.fence {
        Some(ls) => {
            if is_fence(trim(line)) {
                lemma_push_runs_nonempty(st.out, ElemView::CodeBlock(join_lines(ls)));
            }
        },
        None => {
            if line.len() == 0 {
                if trailing_breaks(st.out) >= 2 {
                } else if trailing_breaks(st.out) == 1 {
                    lemma_push_runs_nonempty(st.out, ElemView::LineBreak);
                } else {
                    lemma_push_runs_nonempty(st.out, ElemView::LineBreak);
                    lemma_push_runs_nonempty(st.out.push(ElemView::LineBreak), ElemView::LineBreak);
                }
            } else {
                let t = trim(line);
                if is_heading(t) {
                    lemma_heading_line(st, line);
                    let heading = ElemView::Heading(
                        standard_run(heading_text(t)),
                        hash_run(t) as u16,
                    );
                    lemma_push_runs_nonempty(st.out, heading);
                    lemma_push_runs_nonempty(st.out.push(heading), ElemView::LineBreak);
                } else if is_hrule(t) {
                    lemma_push_runs_nonempty(st.out, ElemView::HorizontalRule);
                } else if is_fence(t) {
                } else if is_ordered_item(t) {
                    lemma_item_text_nonempty(line);
                    lemma_push_runs_nonempty(
                        st.out,
                        ElemView::OrderedListItem(standard_run(ordered_text(t))),
                    );
                } else if is_unordered_item(t) {
                    lemma_item_text_nonempty(line);
                    lemma_push_runs_nonempty(
                        st.out,
                        ElemView::UnorderedListItem(standard_run(unordered_text(t))),
                    );
                } else {
                    let out1 = if t.len() > 0 {
                        lemma_push_runs_nonempty(st.out, ElemView::Text(standard_run(t)));
                        st.out.push(ElemView::Text(standard_run(t)))
                    } else {
                        st.out
                    };
                    if ends_hard_break(line) {
                        lemma_push_runs_nonempty(out1, ElemView::LineBreak);
                    }
                }
            }
        },
    }
}

/// The fold of the step preserves nonemptiness of every styled run.
proof fn lemma_parse_from_runs_nonempty(st: ParseState, lines: Seq<Seq<char>>)
    requires
        runs_nonempty(st.out),
    ensures
        runs_nonempty(parse_from(st, lines).out),
    decreases lines.len(),
{
    if lines.len() > 0 {
        lemma_parse_from_runs_nonempty(st, lines.drop_last());
        lemma_step_runs_nonempty(parse_from(st, lines.drop_last()), lines.last());
    }
}

/// Empty runs are never emitted: every text, heading and list element of a
/// tokenized document carries a nonempty styled run.
pub proof fn lemma_stream_runs_nonempty(lines: Seq<Seq<char>>)
    ensures
        runs_nonempty(parse_lines_spec(lines)),
{
    lemma_parse_from_runs_nonempty(init_state(), lines);
    let st = parse_from(init_state(), lines);
    match st.fence {
        Some(ls) => {
            lemma_push_runs_nonempty(st.out, ElemView::CodeBlock(join_lines(ls)));
        },
        None => {
        },
    }
}

/// Lines met inside an open code fence are accumulated verbatim: when none
/// of them closes the fence, the parse emits nothing for them, the fence
/// holds every one of them at end of input, and the implicit close then
/// yields a code block containing exactly those lines.
pub proof fn lemma_unterminated_fence(st: ParseState, rest: Seq<Seq<char>>)
    requires
        st.fence is Some,
        forall|i: int| 0 <= i < rest.len() ==> !is_fence(trim(#[trigger] rest[i])),
    ensures
        parse_from(st, rest).out == st.out,
        parse_from(st, rest).fence == Some(st.fence.unwrap() + rest),
        finish(parse_from(st, rest)) == st.out.push(
            ElemView::CodeBlock(join_lines(st.fence.unwrap() + rest)),
        ),
    decreases rest.len(),
{
    if rest.len() == 0 {
        assert(st.fence.unwrap() + rest =~= st.fence.unwrap());
    } else {
        let prefix = rest.drop_last();
        assert forall|i: int| 0 <= i < prefix.len() implies !is_fence(
            trim(#[trigger] prefix[i]),
        ) by {
            assert(prefix[i] == rest[i]);
        }
        lemma_unterminated_fence(st, prefix);
        assert(!is_fence(trim(rest.last())));
        assert((st.fence.unwrap() + prefix).push(rest.last()) =~= st.fence.unwrap() + rest);
    }
}

} // verus!
