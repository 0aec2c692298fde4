use vstd::prelude::*;

verus! {

use crate::text::{
    byte_pos,
    char_width,
    chars_of,
    lemma_byte_pos_mono,
    lemma_byte_pos_step,
    lemma_bytes_of_range,
};
use vstd::utf8::encode_utf8;

/// One tag found in a template: `start_idx..end_idx` covers the whole tag,
/// delimiters included, and `content` is the text between `<!$ ` and `>`.
/// Positions are byte offsets into the UTF-8 text.
#[derive(Debug, Copy, Clone, Eq, PartialEq, Ord, PartialOrd, Hash, Default)]
pub struct PlaceholderExpr<'a> {
    pub start_idx: usize,
    pub end_idx: usize,
    pub content: &'a str,
}

/// The five delimiter characters of a tag: the four of the opener, then the terminator.
pub open spec fn part_char(part: nat) -> char {
    if part == 0 {
        '<'
    } else if part == 1 {
        '!'
    } else if part == 2 {
        '$'
    } else if part == 3 {
        ' '
    } else {
        '>'
    }
}

/// State of the scanner between two characters: how many delimiters have been
/// matched, where the current tag started, and the spans found so far.
pub struct ScanState {
    pub part: nat,
    pub start: nat,
    pub spans: Seq<(nat, nat)>,
}

/// The scanner's reaction to character `c` at position `i`.
pub open spec fn scan_step(st: ScanState, i: nat, c: char) -> ScanState {
    let part: nat = if c == part_char(st.part) {
        st.part + 1
    } else if st.part != 4 {
        0
    } else {
        4
    };
    let start: nat = if c == part_char(st.part) && st.part == 0 {
        i
    } else {
        st.start
    };
    if part == 5 {
        ScanState { part: 0, start, spans: st.spans.push((start, i + 1)) }
    } else {
        ScanState { part, start, spans: st.spans }
    }
}

/// The scanner's state after the first `n` characters of `s`.
pub open spec fn scan_prefix(s: Seq<char>, n: nat) -> ScanState
    decreases n,
{
    if n == 0 || n > s.len() {
        ScanState { part: 0, start: 0, spans: Seq::empty() }
    } else {
        scan_step(scan_prefix(s, (n - 1) as nat), (n - 1) as nat, s[n - 1])
    }
}

/// The spans of all tags of `s`, in the order they occur.
pub open spec fn scan_spans(s: Seq<char>) -> Seq<(nat, nat)> {
    scan_prefix(s, s.len()).spans
}

/// The text strictly inside the delimiters of the tag spanning `span`.
pub open spec fn span_content(s: Seq<char>, span: (nat, nat)) -> Seq<char> {
    s.subrange(span.0 + 4 as int, span.1 - 1 as int)
}

/// `v` holds the tags of `s` that `spans` gives in character positions, in
/// order, each with its byte offsets and its content.
pub open spec fn tags_agree(s: Seq<char>, v: Seq<PlaceholderExpr>, spans: Seq<(nat, nat)>) -> bool {
    &&& v.len() == spans.len()
    &&& forall|k: int|
        0 <= k < v.len() ==> {
            &&& #[trigger] v[k].start_idx == byte_pos(s, spans[k].0 as int)
            &&& v[k].end_idx == byte_pos(s, spans[k].1 as int)
            &&& v[k].content@ == span_content(s, spans[k])
        }
}

/// Character spans held as pairs of `usize`.
pub open spec fn char_spans(v: Seq<(usize, usize)>) -> Seq<(nat, nat)> {
    v.map_values(|p: (usize, usize)| (p.0 as nat, p.1 as nat))
}

/// The UTF-8 encoding of `s` has a length that `usize` can hold.
pub open spec fn fits_usize(s: Seq<char>) -> bool {
    encode_utf8(s).len() <= usize::MAX
}

/// `v` holds, in order, exactly the tags of `s`, each with its content.
pub open spec fn is_scan_of(s: Seq<char>, v: Seq<PlaceholderExpr>) -> bool {
    tags_agree(s, v, scan_spans(s))
}

/// Each span lies within `len`, holds at least the five delimiters, and
/// begins where the previous one ended or later.
pub open spec fn spans_ordered(spans: Seq<(nat, nat)>, len: nat) -> bool {
    &&& forall|k: int| #![trigger spans[k]] 0 <= k < spans.len() ==> spans[k].0 + 5 <= spans[k].1 <= len
    &&& forall|k: int| 0 <= k < spans.len() - 1 ==> #[trigger] spans[k].1 <= spans[k + 1].0
}

/// Each span of `s` starts with the four characters `<!$ ` and ends with `>`.
pub open spec fn spans_delimited(s: Seq<char>, spans: Seq<(nat, nat)>) -> bool {
    &&& forall|k: int, j: int|
        0 <= k < spans.len() && 0 <= j < 4 ==> #[trigger] s[spans[k].0 + j] == part_char(j as nat)
    &&& forall|k: int| 0 <= k < spans.len() ==> s[#[trigger] spans[k].1 - 1] == '>'
}

/// What holds of the scanner's state after each prefix.
pub open spec fn scan_inv(s: Seq<char>, n: nat, st: ScanState) -> bool {
    &&& st.part <= 4
    &&& st.start <= n
    &&& spans_ordered(st.spans, n)
    &&& spans_delimited(s, st.spans)
    &&& st.part > 0 ==> {
        &&& st.start + st.part <= n
        &&& st.part < 4 ==> st.start + st.part == n
        &&& forall|j: int| 0 <= j < st.part && j < 4 ==> #[trigger] s[st.start + j] == part_char(j as nat)
        &&& st.spans.len() > 0 ==> st.spans.last().1 <= st.start
    }
}

proof fn lemma_scan_inv(s: Seq<char>, n: nat)
    requires
        n <= s.len(),
    ensures
        scan_inv(s, n, scan_prefix(s, n)),
    decreases n,
{
    if n > 0 {
        lemma_scan_inv(s, (n - 1) as nat);
        let prev = scan_prefix(s, (n - 1) as nat);
        let st = scan_prefix(s, n);
        if st.spans.len() > prev.spans.len() {
            assert forall|k: int, j: int| 0 <= k < st.spans.len() && 0 <= j < 4 implies #[trigger] s[st.spans[k].0 + j]
                == part_char(j as nat) by {
                if k < prev.spans.len() {
                    assert(st.spans[k] == prev.spans[k]);
                } else {
                    assert(s[prev.start + j] == part_char(j as nat));
                }
            }
            assert forall|k: int| 0 <= k < st.spans.len() implies s[#[trigger] st.spans[k].1 - 1] == '>' by {
                if k < prev.spans.len() {
                    assert(st.spans[k] == prev.spans[k]);
                }
            }
        }
        if prev.spans.len() > 0 {
            assert(prev.spans[prev.spans.len() - 1].1 <= n - 1);
        }
    }
}

/// Every tag found starts with `<!$ ` and ends with `>`; the tags lie in
/// order within the text and do not overlap.
pub proof fn lemma_spans_well_formed(s: Seq<char>)
    ensures
        spans_ordered(scan_spans(s), s.len()),
        spans_delimited(s, scan_spans(s)),
{
    lemma_scan_inv(s, s.len());
}

/// In the bytes of the text, each tag found starts with the bytes of `<!$ `
/// and ends with the byte of `>`, at its offsets, and its content is
/// exactly the bytes between them.
pub proof fn lemma_tag_bytes(s: Seq<char>, v: Seq<PlaceholderExpr>, k: int)
    requires
        is_scan_of(s, v),
        0 <= k < v.len(),
    ensures
        v[k].start_idx + 5 <= v[k].end_idx <= encode_utf8(s).len(),
        encode_utf8(s).subrange(v[k].start_idx as int, v[k].start_idx + 4) == encode_utf8(
            seq!['<', '!', '$', ' '],
        ),
        encode_utf8(s).subrange(v[k].end_idx - 1, v[k].end_idx as int) == encode_utf8(seq!['>']),
        encode_utf8(v[k].content@) == encode_utf8(s).subrange(v[k].start_idx + 4, v[k].end_idx - 1),
{
    lemma_spans_well_formed(s);
    let sp = scan_spans(s)[k];
    let a = sp.0 as int;
    let b = sp.1 as int;
    assert(v[k].start_idx == byte_pos(s, a));
    assert(s[a + 0] == part_char(0));
    assert(s[a + 1] == part_char(1));
    assert(s[a + 2] == part_char(2));
    assert(s[a + 3] == part_char(3));
    assert(s[b - 1] == '>');
    lemma_byte_pos_step(s, a);
    lemma_byte_pos_step(s, a + 1);
    lemma_byte_pos_step(s, a + 2);
    lemma_byte_pos_step(s, a + 3);
    lemma_byte_pos_step(s, b - 1);
    lemma_byte_pos_mono(s, a + 4, b - 1);
    lemma_bytes_of_range(s, a, a + 4);
    lemma_bytes_of_range(s, b - 1, b);
    lemma_bytes_of_range(s, a + 4, b - 1);
    lemma_bytes_of_range(s, b, s.len() as int);
    assert(s.subrange(a, a + 4) =~= seq!['<', '!', '$', ' ']);
    assert(s.subrange(b - 1, b) =~= seq!['>']);
}

/// The two lists hold the same tags: same spans and same contents.
pub open spec fn same_tags(v: Seq<PlaceholderExpr>, w: Seq<PlaceholderExpr>) -> bool {
    &&& v.len() == w.len()
    &&& forall|k: int|
        0 <= k < v.len() ==> {
            &&& #[trigger] v[k].start_idx == w[k].start_idx
            &&& v[k].end_idx == w[k].end_idx
            &&& v[k].content@ == w[k].content@
        }
}

/// Scanning depends on the text alone: scanning the same text twice gives
/// the same tags.
pub proof fn lemma_scan_deterministic(s: Seq<char>, t: Seq<char>, v: Seq<PlaceholderExpr>, w: Seq<PlaceholderExpr>)
    requires
        s == t,
        is_scan_of(s, v),
        is_scan_of(t, w),
    ensures
        same_tags(v, w),
{
}

proof fn lemma_scan_prefix_extend(p: Seq<char>, q: Seq<char>, n: nat)
    requires
        n <= p.len(),
    ensures
        scan_prefix(p + q, n) == scan_prefix(p, n),
    decreases n,
{
    if n > 0 {
        lemma_scan_prefix_extend(p, q, (n - 1) as nat);
        assert((p + q)[n - 1] == p[n - 1]);
    }
}

proof fn lemma_scan_no_close(p: Seq<char>, q: Seq<char>, m: nat)
    requires
        m <= q.len(),
        !q.contains('>'),
    ensures
        scan_prefix(p + q, p.len() + m).spans == scan_prefix(p, p.len()).spans,
    decreases m,
{
    if m == 0 {
        lemma_scan_prefix_extend(p, q, p.len());
    } else {
        lemma_scan_no_close(p, q, (m - 1) as nat);
        assert((p + q)[p.len() + m - 1] == q[m - 1]);
    }
}

/// A text that goes on without a `>` gains no tag: whatever follows the
/// last `>`, an unterminated `<!$ ...` included, is dropped by the scanner.
pub proof fn lemma_unterminated_dropped(p: Seq<char>, q: Seq<char>)
    requires
        !q.contains('>'),
    ensures
        scan_spans(p + q) == scan_spans(p),
{
    lemma_scan_no_close(p, q, q.len());
    assert(p.len() + q.len() == (p + q).len());
}

/// The delimiter that the scanner expects after matching `part` of them.
fn delimiter(part: usize) -> (c: char)
    ensures
        c == part_char(part as nat),
{
    if part == 0 {
        '<'
    } else if part == 1 {
        '!'
    } else if part == 2 {
        '$'
    } else if part == 3 {
        ' '
    } else {
        '>'
    }
}

/// Finds every tag of `inp_str`, left to right.
pub fn parse_placeholders<'a>(inp_str: &'a str) -> (r: Vec<PlaceholderExpr<'a>>)
    requires
        fits_usize(inp_str@),
    ensures
        is_scan_of(inp_str@, r@),
{
    scan_tags(inp_str).0
}

/// Finds every tag of `inp_str`, left to right, with its span in characters.
pub fn scan_tags<'a>(inp_str: &'a str) -> (r: (Vec<PlaceholderExpr<'a>>, Vec<(usize, usize)>))
    requires
        fits_usize(inp_str@),
    ensures
        is_scan_of(inp_str@, r.0@),
        char_spans(r.1@) == scan_spans(inp_str@),
{
    let ghost s = inp_str@;
    let chars = chars_of(inp_str);
    proof {
        assert(s.subrange(0, s.len() as int) =~= s);
    }
    let mut placeholders: Vec<PlaceholderExpr<'a>> = Vec::new();
    let mut spans: Vec<(usize, usize)> = Vec::new();
    let mut part: usize = 0;
    let mut tag_start: usize = 0;
    let mut tag_start_byte: usize = 0;
    let mut is_in_tag = false;
    let mut i: usize = 0;
    let mut byte: usize = 0;
    proof {
        assert(s.subrange(0, 0) =~= Seq::<char>::empty());
    }
    while i < chars.len()
        invariant
            chars@ == s,
            s == inp_str@,
            i <= s.len(),
            byte_pos(s, s.len() as int) <= usize::MAX,
            byte == byte_pos(s, i as int),
            tag_start <= i,
            tag_start_byte == byte_pos(s, tag_start as int),
            scan_prefix(s, i as nat).part == part,
            scan_prefix(s, i as nat).start == tag_start,
            is_in_tag == (part > 0),
            tags_agree(s, placeholders@, scan_prefix(s, i as nat).spans),
            char_spans(spans@) == scan_prefix(s, i as nat).spans,
        decreases s.len() - i,
    {
        proof {
            lemma_scan_inv(s, i as nat);
            lemma_byte_pos_step(s, i as int);
            lemma_byte_pos_mono(s, i + 1, s.len() as int);
        }
        let ghost prev = scan_prefix(s, i as nat);
        let ghost pv = placeholders@;
        let c = chars[i];
        let next_byte = byte + char_width(c);
        if delimiter(part) == c {
            if is_in_tag {
                part = part + 1;
            } else {
                is_in_tag = true;
                tag_start = i;
                tag_start_byte = byte;
                part = part + 1;
            }
        } else if part != 4 {
            part = 0;
            is_in_tag = false;
        }
        if part == 5 {
            let content = inp_str.substring_char(tag_start + 4, i);
            assert(content@ == span_content(s, (tag_start as nat, (i + 1) as nat)));
            placeholders.push(PlaceholderExpr { start_idx: tag_start_byte, end_idx: next_byte, content });
            spans.push((tag_start, i + 1));
            part = 0;
            is_in_tag = false;
        }
        let ghost next = scan_prefix(s, (i + 1) as nat);
        proof {
            assert(next == scan_step(prev, i as nat, s[i as int]));
        }
        i = i + 1;
        byte = next_byte;
        proof {
            assert(next == scan_prefix(s, i as nat));
            assert forall|k: int| 0 <= k < placeholders@.len() implies {
                &&& #[trigger] placeholders@[k].start_idx == byte_pos(s, next.spans[k].0 as int)
                &&& placeholders@[k].end_idx == byte_pos(s, next.spans[k].1 as int)
                &&& placeholders@[k].content@ == span_content(s, next.spans[k])
            } by {
                if k < pv.len() {
                    assert(placeholders@[k] == pv[k]);
                    assert(pv[k].start_idx == byte_pos(s, prev.spans[k].0 as int));
                    assert(next.spans[k] == prev.spans[k]);
                } else {
                    assert(next.spans[k] == (prev.start, i as nat));
                    assert(placeholders@[k].start_idx == byte_pos(s, prev.start as int));
                    assert(placeholders@[k].end_idx == byte_pos(s, i as int));
                    assert(placeholders@[k].content@ == span_content(s, next.spans[k]));
                }
            }
            assert(tags_agree(s, placeholders@, next.spans));
            assert(char_spans(spans@) =~= next.spans);
        }
    }
    assert(i == s.len());
    assert(scan_spans(s) == scan_prefix(s, i as nat).spans);
    (placeholders, spans)
}

} // verus!
