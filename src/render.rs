//! The context block shown for a match: the node's text, highlighted, put
//! back into the file, split into numbered lines, and cut to a window around
//! the match line.

use vstd::prelude::*;
use vstd::slice::slice_subrange;
use colored::Colorize;
use vstd::utf8::{valid_utf8, is_char_boundary, is_char_boundary_start_end_of_seq, is_char_boundary_iff_not_is_continuation_byte, valid_utf8_split, valid_utf8_concat};
use crate::pattern::{Pattern, first_match_span, pattern_matches};
use crate::text::{NEWLINE, text_lines, numbered_line, views, split_lines, number_line, push_all};

verus! {

/// First line of the window: `before` lines above the match line, but not
/// above the first line.
pub open spec fn window_start(match_line: int, before: int) -> int {
    if match_line > before {
        match_line - before
    } else {
        0
    }
}

/// One past the last line of the window: `after` lines below the match line,
/// but not past the last line.
pub open spec fn window_end(match_line: int, after: int, total: int) -> int {
    if match_line + after + 1 < total {
        match_line + after + 1
    } else {
        total
    }
}

/// `source` with the bytes `[start, end)` replaced by `middle`.
pub open spec fn spliced(source: Seq<u8>, start: int, end: int, middle: Seq<u8>) -> Seq<u8> {
    source.subrange(0, start) + middle + source.subrange(end, source.len() as int)
}

/// Each line of `ls` under its 1-based number.
pub open spec fn numbered_lines(ls: Seq<Seq<u8>>) -> Seq<Seq<u8>> {
    Seq::new(ls.len(), |i: int| numbered_line((i + 1) as nat, ls[i]))
}

/// The numbered lines of `text` in the window around `match_line`.
pub open spec fn context_block(text: Seq<u8>, match_line: int, before: int, after: int) -> Seq<
    Seq<u8>,
> {
    let ls = numbered_lines(text_lines(text));
    let a = window_start(match_line, before);
    let b = window_end(match_line, after, ls.len() as int);
    if a < b {
        ls.subrange(a, b)
    } else {
        Seq::empty()
    }
}

/// The window `[first, last)` of lines to show out of `total`, around `match_line`.
pub fn context_window(match_line: usize, before: usize, after: usize, total: usize) -> (r: (
    usize,
    usize,
))
    ensures
        r.0 == window_start(match_line as int, before as int),
        r.1 == window_end(match_line as int, after as int, total as int),
        r.1 <= total,
{
    let first: usize = if match_line > before {
        match_line - before
    } else {
        0
    };
    let last: usize = if match_line >= total {
        total
    } else if after >= total - match_line - 1 {
        total
    } else {
        match_line + after + 1
    };
    (first, last)
}

/// The window lies within the file: it starts at line `0` or later (at `0`
/// for a match on the first line) and ends at the last line or earlier.
pub proof fn lemma_window_within_file(match_line: int, before: int, after: int, total: int)
    requires
        0 <= match_line,
        0 <= before,
        0 <= after,
        0 <= total,
    ensures
        0 <= window_start(match_line, before),
        window_end(match_line, after, total) <= total,
        match_line == 0 ==> window_start(match_line, before) == 0,
{
}

/// `source` with the bytes `[start, end)` replaced by `middle`.
pub fn splice(source: &[u8], start: usize, end: usize, middle: &[u8]) -> (r: Vec<u8>)
    requires
        start <= end <= source@.len(),
    ensures
        r@ == spliced(source@, start as int, end as int, middle@),
{
    let mut out: Vec<u8> = Vec::new();
    push_all(&mut out, slice_subrange(source, 0, start));
    push_all(&mut out, middle);
    push_all(&mut out, slice_subrange(source, end, source.len()));
    out
}

/// The numbered lines of `text` in the window of `before` lines above and
/// `after` lines below `match_line`.
pub fn render_block(text: &[u8], match_line: usize, before: usize, after: usize) -> (r: Vec<
    Vec<u8>,
>)
    ensures
        views(r@) == context_block(text@, match_line as int, before as int, after as int),
{
    let lines = split_lines(text);
    let ghost ls = numbered_lines(text_lines(text@));
    let (first, last) = context_window(match_line, before, after, lines.len());
    let mut out: Vec<Vec<u8>> = Vec::new();
    let mut i: usize = first;
    if first >= last {
        proof {
            assert(views(out@) =~= Seq::<Seq<u8>>::empty());
        }
        return out;
    }
    while i < last
        invariant
            views(lines@) == text_lines(text@),
            ls == numbered_lines(text_lines(text@)),
            first <= i <= last <= lines@.len(),
            views(out@) == ls.subrange(first as int, i as int),
        decreases last - i,
    {
        let numbered = number_line(i + 1, lines[i].as_slice());
        let ghost old_out = out@;
        out.push(numbered);
        i = i + 1;
        proof {
            assert(views(out@) =~= views(old_out).push(numbered@));
            assert(ls.subrange(first as int, i as int) =~= ls.subrange(first as int, i - 1).push(
                ls[i - 1],
            ));
        }
    }
    out
}

pub const ESCAPE: u8 = 27;

pub const LEFT_BRACKET: u8 = 91;

pub const STYLE_END: u8 = 109;

/// A byte that may stand between `ESC [` and `m` in a style code: a digit or `;`.
pub open spec fn is_style_param(b: u8) -> bool {
    (48 <= b && b <= 57) || b == 59
}

/// The first index from `i` on that is not a style parameter.
pub open spec fn params_end(s: Seq<u8>, i: int) -> int
    decreases s.len() - i,
{
    if 0 <= i < s.len() && is_style_param(s[i]) {
        params_end(s, i + 1)
    } else {
        i
    }
}

/// The length of the style code `ESC [ params m` that `s` starts with; `0`
/// when it starts with none.
pub open spec fn style_code_len(s: Seq<u8>) -> int {
    if s.len() >= 2 && s[0] == ESCAPE && s[1] == LEFT_BRACKET {
        let k = params_end(s, 2);
        if 0 <= k < s.len() && s[k] == STYLE_END {
            k + 1
        } else {
            0
        }
    } else {
        0
    }
}

/// `s` with its style codes taken out, read from left to right.
pub open spec fn unstyled(s: Seq<u8>) -> Seq<u8>
    decreases s.len(),
{
    if s.len() == 0 {
        s
    } else {
        let n = style_code_len(s);
        if 0 < n <= s.len() {
            unstyled(s.subrange(n, s.len() as int))
        } else {
            seq![s[0]] + unstyled(s.subrange(1, s.len() as int))
        }
    }
}

/// The number of newline bytes in `s`.
pub open spec fn newline_count(s: Seq<u8>) -> nat {
    s.filter(|b: u8| b == NEWLINE).len()
}

/// `out` is `input` as styled for a terminal: it has as many newlines, and
/// for UTF-8 input the two are the same once style codes are taken out.
pub open spec fn styled_copy(input: Seq<u8>, out: Seq<u8>) -> bool {
    &&& newline_count(out) == newline_count(input)
    &&& valid_utf8(input) ==> unstyled(out) == unstyled(input)
}

/// Relies on colored's `red` and `bold`, written out through its `Display`.
/// With colours off the text comes back as it is; with colours on, a style
/// code goes before it, a reset code after it, and the style code again
/// after each reset code inside it. Each of these codes is `ESC [`, digits
/// and `;`, then `m`. Input that is not UTF-8 is first made so by
/// `String::from_utf8_lossy`, which keeps every newline.
/// The result is the bytes of a `String`, so it is UTF-8.
#[verifier::external_body]
fn paint_match(text: &[u8]) -> (r: Vec<u8>)
    ensures
        styled_copy(text@, r@),
        valid_utf8(r@),
{
    let s = String::from_utf8_lossy(text);
    s.as_ref().red().bold().to_string().into_bytes()
}

/// Relies on colored's `on_bright_black`, written out through its `Display`,
/// which styles text as `paint_match` describes.
#[verifier::external_body]
fn paint_node(text: &[u8]) -> (r: Vec<u8>)
    ensures
        styled_copy(text@, r@),
        valid_utf8(r@),
{
    let s = String::from_utf8_lossy(text);
    s.as_ref().on_bright_black().to_string().into_bytes()
}

/// The first match of `content` in `text`, when there is one and it starts
/// and ends between characters.
pub open spec fn whole_char_match(content: Seq<char>, text: Seq<u8>) -> Option<(int, int)> {
    match first_match_span(content, text) {
        Some(m) => if 0 <= m.0 <= m.1 <= text.len() && is_char_boundary(text, m.0)
            && is_char_boundary(text, m.1) {
            Some(m)
        } else {
            None
        },
        None => None,
    }
}

/// `text` with its first match of `content` replaced by `painted`; `text`
/// itself when there is no match that starts and ends between characters.
pub open spec fn marked(content: Seq<char>, text: Seq<u8>, painted: Seq<u8>) -> Seq<u8> {
    match whole_char_match(content, text) {
        Some(m) => spliced(text, m.0, m.1, painted),
        None => text,
    }
}

/// `painted` is a styled copy of the first match of `content` in `text`,
/// `shaded` a styled copy of `text` so marked; taking the style codes out
/// of each gives back what was styled.
pub open spec fn highlight_of(
    content: Seq<char>,
    text: Seq<u8>,
    painted: Seq<u8>,
    shaded: Seq<u8>,
) -> bool {
    &&& whole_char_match(content, text) matches Some(m) ==> {
        &&& styled_copy(text.subrange(m.0, m.1), painted)
        &&& valid_utf8(text.subrange(m.0, m.1))
        &&& unstyled(painted) == unstyled(text.subrange(m.0, m.1))
    }
    &&& valid_utf8(marked(content, text, painted))
    &&& styled_copy(marked(content, text, painted), shaded)
    &&& unstyled(shaded) == unstyled(marked(content, text, painted))
}

/// `s` holds no escape byte.
pub open spec fn no_escape(s: Seq<u8>) -> bool {
    forall|i: int| 0 <= i < s.len() ==> s[i] != ESCAPE
}

/// Text without escape bytes passes through `unstyled` in front of the rest.
proof fn lemma_unstyled_plain_prefix(x: Seq<u8>, y: Seq<u8>)
    requires
        no_escape(x),
    ensures
        unstyled(x + y) == x + unstyled(y),
    decreases x.len(),
{
    if x.len() == 0 {
        assert(x + y =~= y);
    } else {
        let z = x + y;
        let x1 = x.subrange(1, x.len() as int);
        assert(z[0] == x[0]);
        assert(style_code_len(z) == 0);
        assert(z.subrange(1, z.len() as int) =~= x1 + y);
        lemma_unstyled_plain_prefix(x1, y);
        assert(x =~= seq![x[0]] + x1);
        assert(unstyled(z) == seq![z[0]] + unstyled(z.subrange(1, z.len() as int)));
        assert(unstyled(z) =~= x + unstyled(y));
    }
}

/// A run of style parameters that ends inside `y` ends at the same place in `y + z`.
proof fn lemma_params_end_prefix(y: Seq<u8>, z: Seq<u8>, i: int)
    requires
        0 <= i,
        params_end(y, i) < y.len(),
    ensures
        params_end(y + z, i) == params_end(y, i),
    decreases y.len() - i,
{
    if i < y.len() && is_style_param(y[i]) {
        lemma_params_end_prefix(y, z, i + 1);
    }
}

/// When `unstyled(y)` has no escape byte left, `y` ends with no code cut
/// short, so taking codes out of `y + z` takes them out of each part.
proof fn lemma_unstyled_split(y: Seq<u8>, z: Seq<u8>)
    requires
        no_escape(unstyled(y)),
    ensures
        unstyled(y + z) == unstyled(y) + unstyled(z),
    decreases y.len(),
{
    let w = y + z;
    if y.len() == 0 {
        assert(w =~= z);
    } else {
        let n = style_code_len(y);
        if 0 < n <= y.len() {
            let k = params_end(y, 2);
            lemma_params_end_prefix(y, z, 2);
            assert(w[0] == y[0] && w[1] == y[1] && w[k] == y[k]);
            assert(style_code_len(w) == n);
            let rest = y.subrange(n, y.len() as int);
            assert(w.subrange(n, w.len() as int) =~= rest + z);
            lemma_unstyled_split(rest, z);
        } else {
            let rest = y.subrange(1, y.len() as int);
            assert(unstyled(y) == seq![y[0]] + unstyled(rest));
            assert(unstyled(y)[0] == y[0]);
            assert(y[0] != ESCAPE);
            assert(style_code_len(w) == 0);
            assert(w.subrange(1, w.len() as int) =~= rest + z);
            assert forall|i: int| 0 <= i < unstyled(rest).len() implies unstyled(rest)[i] != ESCAPE by {
                assert(unstyled(y)[i + 1] == unstyled(rest)[i]);
            }
            lemma_unstyled_split(rest, z);
            assert(unstyled(w) =~= unstyled(y) + unstyled(z));
        }
    }
}

/// Where the node's text holds no escape byte, taking the style codes out
/// of what replaces it gives the text back: the highlighting only adds codes.
pub proof fn lemma_highlight_keeps_text(
    content: Seq<char>,
    text: Seq<u8>,
    painted: Seq<u8>,
    shaded: Seq<u8>,
)
    requires
        highlight_of(content, text, painted, shaded),
        no_escape(text),
    ensures
        unstyled(shaded) == text,
{
    lemma_unstyled_plain_prefix(text, Seq::empty());
    assert(text + Seq::<u8>::empty() =~= text);
    assert(unstyled(Seq::<u8>::empty()) =~= Seq::<u8>::empty());
    match whole_char_match(content, text) {
        Some(m) => {
            let pre = text.subrange(0, m.0);
            let mid = text.subrange(m.0, m.1);
            let post = text.subrange(m.1, text.len() as int);
            assert(no_escape(pre) && no_escape(mid) && no_escape(post)) by {
                assert forall|i: int| 0 <= i < mid.len() implies mid[i] != ESCAPE by {
                    assert(mid[i] == text[m.0 + i]);
                }
                assert forall|i: int| 0 <= i < post.len() implies post[i] != ESCAPE by {
                    assert(post[i] == text[m.1 + i]);
                }
            }
            lemma_unstyled_plain_prefix(mid, Seq::empty());
            assert(mid + Seq::<u8>::empty() =~= mid);
            lemma_unstyled_plain_prefix(post, Seq::empty());
            assert(post + Seq::<u8>::empty() =~= post);
            lemma_unstyled_split(painted, post);
            assert(marked(content, text, painted) =~= pre + (painted + post));
            lemma_unstyled_plain_prefix(pre, painted + post);
            assert(text =~= pre + mid + post);
        },
        None => {},
    }
}

/// Whether `i` is the start of a character of `text`, or its end.
fn on_char_boundary(text: &[u8], i: usize) -> (r: bool)
    requires
        valid_utf8(text@),
        i <= text@.len(),
    ensures
        r == is_char_boundary(text@, i as int),
{
    proof {
        is_char_boundary_start_end_of_seq(text@);
    }
    if i == text.len() {
        true
    } else {
        proof {
            is_char_boundary_iff_not_is_continuation_byte(text@, i as int);
        }
        let b = text[i];
        !(0x80 <= b && b <= 0xbf)
    }
}

/// The numbered lines around `match_line` of `source` in which the node at
/// `[start, end)`, whose text `content` matches, is shaded and its first
/// match styled: the node's text, with its first match replaced by a styled
/// copy of it, is replaced by a styled copy of the whole.
pub fn render_match(
    source: &[u8],
    start: usize,
    end: usize,
    content: &Pattern,
    match_line: usize,
    before: usize,
    after: usize,
) -> (r: Vec<Vec<u8>>)
    requires
        start <= end <= source@.len(),
        valid_utf8(source@.subrange(start as int, end as int)),
        pattern_matches(content.source(), source@.subrange(start as int, end as int)),
    ensures
        exists|painted: Seq<u8>, shaded: Seq<u8>|
            highlight_of(
                content.source(),
                source@.subrange(start as int, end as int),
                painted,
                shaded,
            ) && views(r@) == context_block(
                spliced(source@, start as int, end as int, shaded),
                match_line as int,
                before as int,
                after as int,
            ),
{
    let text = slice_subrange(source, start, end);
    let ghost t = text@;
    let ghost painted_match: Seq<u8> = Seq::empty();
    let marked_text = match content.find(text) {
        Some((s, e)) => {
            if on_char_boundary(text, s) && on_char_boundary(text, e) {
                let piece = slice_subrange(text, s, e);
                let painted = paint_match(piece);
                proof {
                    painted_match = painted@;
                    valid_utf8_split(t, s as int);
                    let rest = t.subrange(s as int, t.len() as int);
                    if e < t.len() {
                        is_char_boundary_iff_not_is_continuation_byte(t, e as int);
                        is_char_boundary_iff_not_is_continuation_byte(rest, e - s);
                    } else {
                        is_char_boundary_start_end_of_seq(rest);
                    }
                    assert(is_char_boundary(rest, e - s));
                    valid_utf8_split(rest, e - s);
                    assert(rest.subrange(0, e - s) =~= t.subrange(s as int, e as int));
                    assert(rest.subrange(e - s, rest.len() as int) =~= t.subrange(e as int, t.len() as int));
                    let pre = t.subrange(0, s as int);
                    let post = t.subrange(e as int, t.len() as int);
                    valid_utf8_concat(pre, painted@);
                    valid_utf8_concat(pre + painted@, post);
                }
                splice(text, s, e, painted.as_slice())
            } else {
                slice_to_vec_bytes(text)
            }
        },
        None => slice_to_vec_bytes(text),
    };
    assert(marked_text@ == marked(content.source(), t, painted_match));
    let shaded = paint_node(marked_text.as_slice());
    let full = splice(source, start, end, shaded.as_slice());
    let r = render_block(full.as_slice(), match_line, before, after);
    assert(highlight_of(content.source(), t, painted_match, shaded@));
    r
}

/// `render_match` for a node whose text `content` may not match: none when
/// it does not, since there is then no match to show.
pub fn render_if_matched(
    source: &[u8],
    start: usize,
    end: usize,
    content: &Pattern,
    match_line: usize,
    before: usize,
    after: usize,
) -> (r: Option<Vec<Vec<u8>>>)
    requires
        start <= end <= source@.len(),
        valid_utf8(source@.subrange(start as int, end as int)),
    ensures
        r is None <==> !pattern_matches(content.source(), source@.subrange(start as int, end as int)),
        r matches Some(lines) ==> exists|painted: Seq<u8>, shaded: Seq<u8>|
            highlight_of(
                content.source(),
                source@.subrange(start as int, end as int),
                painted,
                shaded,
            ) && views(lines@) == context_block(
                spliced(source@, start as int, end as int, shaded),
                match_line as int,
                before as int,
                after as int,
            ),
{
    if content.is_match(slice_subrange(source, start, end)) {
        Some(render_match(source, start, end, content, match_line, before, after))
    } else {
        None
    }
}

fn slice_to_vec_bytes(b: &[u8]) -> (r: Vec<u8>)
    ensures
        r@ == b@,
{
    let mut out: Vec<u8> = Vec::new();
    push_all(&mut out, b);
    out
}

} // verus!
