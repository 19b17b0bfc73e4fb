use vstd::prelude::*;
use vstd::string::*;

verus! {

// ---------------------------------------------------------------------
// Selection in the list of participants
// ---------------------------------------------------------------------
/// `k` is the first position of `h` in `s`.
pub open spec fn is_first_position(s: Seq<Seq<char>>, h: Seq<char>, k: int) -> bool {
    &&& 0 <= k < s.len()
    &&& s[k] == h
    &&& forall|j: int| 0 <= j < k ==> s[j] != h
}

/// The handle selected after moving up: from no selection to the last
/// handle, from the first handle to no selection, otherwise one up.
pub open spec fn spec_select_previous(
    handles: Seq<Seq<char>>,
    selected: Option<Seq<char>>,
    k: int,
) -> Option<Seq<char>> {
    match selected {
        None => if handles.len() == 0 {
            None
        } else {
            Some(handles.last())
        },
        Some(_) => if k == 0 {
            None
        } else {
            Some(handles[k - 1])
        },
    }
}

/// The handle selected after moving down: from no selection to the first
/// handle, from the last handle to no selection, otherwise one down.
pub open spec fn spec_select_next(
    handles: Seq<Seq<char>>,
    selected: Option<Seq<char>>,
    k: int,
) -> Option<Seq<char>> {
    match selected {
        None => if handles.len() == 0 {
            None
        } else {
            Some(handles[0])
        },
        Some(_) => if k + 1 >= handles.len() {
            None
        } else {
            Some(handles[k + 1])
        },
    }
}

fn position(handles: &Vec<String>, h: &String) -> (k: usize)
    requires
        handles.deep_view().contains(h@),
    ensures
        is_first_position(handles.deep_view(), h@, k as int),
{
    let n = handles.len();
    let mut k: usize = 0;
    while k < n
        invariant
            n == handles.deep_view().len(),
            k <= n,
            handles.deep_view().contains(h@),
            forall|j: int| 0 <= j < k ==> handles.deep_view()[j] != h@,
        decreases n - k,
    {
        assert(handles.deep_view()[k as int] == handles[k as int]@);
        if handles[k] == *h {
            return k;
        }
        k = k + 1;
    }
    assert(false);
    0
}

/// Moves the selection up in the displayed list of handles.
pub fn select_previous(handles: &Vec<String>, selected: &Option<String>) -> (r: Option<String>)
    requires
        selected matches Some(h) ==> handles.deep_view().contains(h@),
    ensures
        match selected {
            None => r.deep_view() == spec_select_previous(handles.deep_view(), None, 0),
            Some(h) => exists|k: int|
                is_first_position(handles.deep_view(), h@, k) && r.deep_view()
                    == spec_select_previous(handles.deep_view(), Some(h@), k),
        },
{
    let ghost hv = handles.deep_view();
    match selected {
        None => {
            if handles.len() == 0 {
                None
            } else {
                let r = handles[handles.len() - 1].clone();
                assert(hv[hv.len() - 1] == handles[handles.len() - 1]@);
                Some(r)
            }
        },
        Some(h) => {
            let k = position(handles, h);
            if k == 0 {
                None
            } else {
                assert(hv[k - 1] == handles[k - 1]@);
                Some(handles[k - 1].clone())
            }
        },
    }
}

/// Moves the selection down in the displayed list of handles.
pub fn select_next(handles: &Vec<String>, selected: &Option<String>) -> (r: Option<String>)
    requires
        selected matches Some(h) ==> handles.deep_view().contains(h@),
    ensures
        match selected {
            None => r.deep_view() == spec_select_next(handles.deep_view(), None, 0),
            Some(h) => exists|k: int|
                is_first_position(handles.deep_view(), h@, k) && r.deep_view()
                    == spec_select_next(handles.deep_view(), Some(h@), k),
        },
{
    let ghost hv = handles.deep_view();
    match selected {
        None => {
            if handles.len() == 0 {
                None
            } else {
                assert(hv[0] == handles[0]@);
                Some(handles[0].clone())
            }
        },
        Some(h) => {
            let k = position(handles, h);
            assert(hv.len() == handles@.len());
            assert(is_first_position(hv, h@, k as int));
            assert(k < handles.len());
            if k + 1 >= handles.len() {
                None
            } else {
                assert(hv[k + 1] == handles[k + 1]@);
                Some(handles[k + 1].clone())
            }
        },
    }
}

/// Moving down from the handle at position `k` selects the next handle,
/// and drops the selection only from the last one; moving up selects the
/// previous handle, and drops the selection only from the first one.
pub proof fn law_select_neighbours(handles: Seq<Seq<char>>, h: Seq<char>, k: int)
    requires
        is_first_position(handles, h, k),
    ensures
        k + 1 < handles.len() ==> spec_select_next(handles, Some(h), k) == Some(handles[k + 1]),
        spec_select_next(handles, Some(h), k) is None <==> k == handles.len() - 1,
        k > 0 ==> spec_select_previous(handles, Some(h), k) == Some(handles[k - 1]),
        spec_select_previous(handles, Some(h), k) is None <==> k == 0,
{
}

/// In a list of distinct handles, moving down then up comes back to the
/// handle one started from, and so does moving up then down; from no
/// selection, moving down selects the first handle and moving up the last.
pub proof fn law_select_round_trip(handles: Seq<Seq<char>>, h: Seq<char>, k: int)
    requires
        handles.no_duplicates(),
        is_first_position(handles, h, k),
    ensures
        k + 1 < handles.len() ==> is_first_position(handles, handles[k + 1], k + 1)
            && spec_select_previous(handles, Some(handles[k + 1]), k + 1) == Some(h),
        k > 0 ==> is_first_position(handles, handles[k - 1], k - 1) && spec_select_next(
            handles,
            Some(handles[k - 1]),
            k - 1,
        ) == Some(h),
        handles.len() > 0 ==> spec_select_next(handles, None, 0) == Some(handles[0])
            && spec_select_previous(handles, None, 0) == Some(handles[handles.len() - 1]),
{
}

// ---------------------------------------------------------------------
// The code view of the selected participant
// ---------------------------------------------------------------------
/// How a piece of the code view is drawn: as is, as selected text, or as a
/// cursor mark.
#[derive(Debug, Clone, Copy, PartialEq, Eq)]
pub enum SpanStyle {
    Plain,
    Selection,
    Cursor,
}

/// A piece of a line of the code view: UTF-8 bytes and their style.
pub struct StyledSpan {
    pub text: Vec<u8>,
    pub style: SpanStyle,
}

impl View for StyledSpan {
    type V = (Seq<u8>, SpanStyle);

    open spec fn view(&self) -> (Seq<u8>, SpanStyle) {
        (self.text@, self.style)
    }
}

/// The views of a line of spans.
pub open spec fn span_views(v: Seq<StyledSpan>) -> Seq<(Seq<u8>, SpanStyle)> {
    v.map_values(|s: StyledSpan| s@)
}

/// The views of the lines of the code view.
pub open spec fn line_views(v: Seq<Vec<StyledSpan>>) -> Seq<Seq<(Seq<u8>, SpanStyle)>> {
    v.map_values(|l: Vec<StyledSpan>| span_views(l@))
}

/// The mark drawn at the start of the selection, "▙" in UTF-8.
pub open spec fn start_mark() -> Seq<u8> {
    seq![0xe2u8, 0x96u8, 0x99u8]
}

/// The mark drawn at the end of the selection, "▜" in UTF-8.
pub open spec fn end_mark() -> Seq<u8> {
    seq![0xe2u8, 0x96u8, 0x9cu8]
}

/// Reading bytes from the left: the lines already closed by a newline, and
/// the line being read.
pub open spec fn line_state(b: Seq<u8>) -> (Seq<Seq<u8>>, Seq<u8>)
    decreases b.len(),
{
    if b.len() == 0 {
        (Seq::empty(), Seq::empty())
    } else {
        let (done, cur) = line_state(b.drop_last());
        if b.last() == 10u8 {
            (done.push(cur), Seq::empty())
        } else {
            (done, cur.push(b.last()))
        }
    }
}

/// The lines of `b` without their newlines; a last empty line (after a
/// final newline, or of empty text) is not a line.
pub open spec fn split_lines(b: Seq<u8>) -> Seq<Seq<u8>> {
    let (done, cur) = line_state(b);
    if cur.len() > 0 {
        done.push(cur)
    } else {
        done
    }
}

/// The spans of one line that starts at byte `start` of the code, with the
/// selection from `first` to `last` (`diff` bytes long); `in_sel` tells
/// whether the selection is open when the line starts. Also whether it is
/// open when the line ends.
pub open spec fn render_line(
    line: Seq<u8>,
    start: int,
    first: int,
    last: int,
    diff: int,
    in_sel: bool,
) -> (Seq<(Seq<u8>, SpanStyle)>, bool) {
    let end = start + line.len();
    let (v, sel) = if start <= first <= end {
        (
            seq![
                (line.subrange(0, first - start), SpanStyle::Plain),
                (start_mark(), SpanStyle::Cursor),
                (line.subrange(first - start, line.len() as int), SpanStyle::Selection),
            ],
            true,
        )
    } else {
        (seq![(line, if in_sel { SpanStyle::Selection } else { SpanStyle::Plain })], in_sel)
    };
    if start <= last <= end {
        let idx = if v.len() != 1 { diff } else { last - start };
        let tmp = v.last().0;
        (
            v.drop_last() + seq![
                (tmp.subrange(0, idx), SpanStyle::Selection),
                (end_mark(), SpanStyle::Cursor),
                (tmp.subrange(idx, tmp.len() as int), SpanStyle::Plain),
            ],
            false,
        )
    } else {
        (v, sel)
    }
}

/// The first `n` lines of the code view, the offset of the next line and
/// whether the selection is open there.
pub open spec fn render_prefix(
    lines: Seq<Seq<u8>>,
    n: int,
    first: int,
    last: int,
    diff: int,
) -> (Seq<Seq<(Seq<u8>, SpanStyle)>>, int, bool)
    decreases n,
{
    if n <= 0 {
        (Seq::empty(), 0, false)
    } else {
        let (out, total, sel) = render_prefix(lines, n - 1, first, last, diff);
        let (v, sel2) = render_line(lines[n - 1], total, first, last, diff, sel);
        (out.push(v), total + lines[n - 1].len() + 1, sel2)
    }
}

/// The code view of a participant: each line of its code, split into
/// pieces around the selection between the anchor and the caret, with a
/// mark at both ends of the selection.
pub open spec fn code_view(code: Seq<u8>, anchor: int, caret: int) -> Seq<
    Seq<(Seq<u8>, SpanStyle)>,
> {
    let first = if anchor > caret { caret } else { anchor };
    let last = if anchor > caret { anchor } else { caret };
    let lines = split_lines(code);
    render_prefix(lines, lines.len() as int, first, last, last - first).0
}

fn copy_range(v: &Vec<u8>, a: usize, b: usize) -> (r: Vec<u8>)
    requires
        a <= b <= v@.len(),
    ensures
        r@ == v@.subrange(a as int, b as int),
{
    let mut r: Vec<u8> = Vec::new();
    let mut i = a;
    while i < b
        invariant
            a <= i <= b <= v@.len(),
            r@ == v@.subrange(a as int, i as int),
        decreases b - i,
    {
        r.push(v[i]);
        i = i + 1;
        assert(r@ =~= v@.subrange(a as int, i as int));
    }
    r
}

fn mark(end: bool) -> (r: Vec<u8>)
    ensures
        r@ == (if end { end_mark() } else { start_mark() }),
{
    let mut r: Vec<u8> = Vec::new();
    r.push(0xe2u8);
    r.push(0x96u8);
    if end {
        r.push(0x9cu8);
    } else {
        r.push(0x99u8);
    }
    assert(r@ =~= (if end { end_mark() } else { start_mark() }));
    r
}

fn render_line_exec(
    line: &Vec<u8>,
    start: usize,
    first: usize,
    last: usize,
    in_sel: bool,
) -> (r: (Vec<StyledSpan>, bool))
    requires
        first <= last,
        start + line@.len() <= usize::MAX,
    ensures
        (span_views(r.0@), r.1) == render_line(
            line@,
            start as int,
            first as int,
            last as int,
            last - first,
            in_sel,
        ),
{
    let end = start + line.len();
    let diff = last - first;
    let mut v: Vec<StyledSpan> = Vec::new();
    let mut sel = in_sel;
    if start <= first && first <= end {
        let at = first - start;
        v.push(StyledSpan { text: copy_range(line, 0, at), style: SpanStyle::Plain });
        v.push(StyledSpan { text: mark(false), style: SpanStyle::Cursor });
        v.push(StyledSpan { text: copy_range(line, at, line.len()), style: SpanStyle::Selection });
        sel = true;
    } else {
        let whole: Vec<u8> = copy_range(line, 0, line.len());
        assert(line@.subrange(0, line@.len() as int) =~= line@);
        v.push(
            StyledSpan {
                text: whole,
                style: if in_sel {
                    SpanStyle::Selection
                } else {
                    SpanStyle::Plain
                },
            },
        );
    }
    let ghost v1 = span_views(v@);
    proof {
        assert(v1 =~= (if start <= first <= end {
            seq![
                (line@.subrange(0, first - start), SpanStyle::Plain),
                (start_mark(), SpanStyle::Cursor),
                (line@.subrange(first - start, line@.len() as int), SpanStyle::Selection),
            ]
        } else {
            seq![(line@, if in_sel { SpanStyle::Selection } else { SpanStyle::Plain })]
        }));
    }
    if start <= last && last <= end {
        let idx = if v.len() != 1 {
            diff
        } else {
            last - start
        };
        let tmp = v.pop().unwrap();
        proof {
            assert(span_views(v@) =~= v1.drop_last());
            assert(tmp@ == v1.last());
        }
        let tl = tmp.text.len();
        v.push(StyledSpan { text: copy_range(&tmp.text, 0, idx), style: SpanStyle::Selection });
        v.push(StyledSpan { text: mark(true), style: SpanStyle::Cursor });
        v.push(StyledSpan { text: copy_range(&tmp.text, idx, tl), style: SpanStyle::Plain });
        sel = false;
        proof {
            let t = tmp.text@;
            assert(span_views(v@) =~= v1.drop_last() + seq![
                (t.subrange(0, idx as int), SpanStyle::Selection),
                (end_mark(), SpanStyle::Cursor),
                (t.subrange(idx as int, t.len() as int), SpanStyle::Plain),
            ]);
        }
    }
    (v, sel)
}

/// The code view of a participant, from its code and the anchor and caret
/// of its editor (byte offsets).
pub fn highlight_selection(code: &str, anchor: u32, caret: u32) -> (r: Vec<Vec<StyledSpan>>)
    ensures
        line_views(r@) == code_view(code.spec_bytes(), anchor as int, caret as int),
{
    let bytes = code.as_bytes();
    let ghost b = bytes@;
    let a = anchor as usize;
    let c = caret as usize;
    let (first, last) = if a > c {
        (c, a)
    } else {
        (a, c)
    };
    let ghost diff = last - first;
    let n = bytes.len();
    let mut out: Vec<Vec<StyledSpan>> = Vec::new();
    let mut cur: Vec<u8> = Vec::new();
    let mut line_start: usize = 0;
    let mut in_sel = false;
    let ghost mut done: Seq<Seq<u8>> = Seq::empty();
    for i in 0..n
        invariant
            n == b.len(),
            b == bytes@,
            first <= last,
            diff == last - first,
            line_start <= i,
            line_state(b.subrange(0, i as int)) == (done, cur@),
            cur@ == b.subrange(line_start as int, i as int),
            render_prefix(done, done.len() as int, first as int, last as int, diff) == (
                line_views(out@),
                line_start as int,
                in_sel,
            ),
    {
        let byte = bytes[i];
        assert(b.subrange(0, i + 1).drop_last() =~= b.subrange(0, i as int));
        if byte == 10u8 {
            let (v, s) = render_line_exec(&cur, line_start, first, last, in_sel);
            proof {
                let nd = done.push(cur@);
                assert(nd.drop_last() =~= done);
                assert(render_prefix(nd, done.len() as int, first as int, last as int, diff)
                    == render_prefix(done, done.len() as int, first as int, last as int, diff))
                    by {
                    lemma_render_prefix_extend(done, cur@, done.len() as int, first as int, last as int, diff);
                }
            }
            let ghost old_out = line_views(out@);
            out.push(v);
            proof {
                assert(line_views(out@) =~= old_out.push(span_views(out@[out@.len() - 1]@)));
                done = done.push(cur@);
            }
            cur = Vec::new();
            line_start = i + 1;
            in_sel = s;
            assert(cur@ =~= b.subrange(line_start as int, i + 1));
        } else {
            cur.push(byte);
            assert(cur@ =~= b.subrange(line_start as int, i + 1));
        }
    }
    assert(b.subrange(0, n as int) =~= b);
    if cur.len() > 0 {
        let (v, s) = render_line_exec(&cur, line_start, first, last, in_sel);
        proof {
            let nd = done.push(cur@);
            lemma_render_prefix_extend(done, cur@, done.len() as int, first as int, last as int, diff);
        }
        let ghost old_out = line_views(out@);
        out.push(v);
        proof {
            assert(line_views(out@) =~= old_out.push(span_views(out@[out@.len() - 1]@)));
        }
    }
    out
}

proof fn lemma_render_prefix_extend(
    lines: Seq<Seq<u8>>,
    extra: Seq<u8>,
    n: int,
    first: int,
    last: int,
    diff: int,
)
    requires
        0 <= n <= lines.len(),
    ensures
        render_prefix(lines.push(extra), n, first, last, diff) == render_prefix(
            lines,
            n,
            first,
            last,
            diff,
        ),
    decreases n,
{
    if n > 0 {
        lemma_render_prefix_extend(lines, extra, n - 1, first, last, diff);
        assert(lines.push(extra)[n - 1] == lines[n - 1]);
    }
}

/// The byte offset at which line `n` starts in the code: each line before
/// it and its newline.
pub open spec fn line_offset(lines: Seq<Seq<u8>>, n: int) -> int
    decreases n,
{
    if n <= 0 {
        0
    } else {
        line_offset(lines, n - 1) + lines[n - 1].len() + 1
    }
}

/// Line `i` holds the byte position `p`: from its first byte to the place
/// of its newline.
pub open spec fn line_holds(lines: Seq<Seq<u8>>, i: int, p: int) -> bool {
    line_offset(lines, i) <= p <= line_offset(lines, i) + lines[i].len()
}

proof fn lemma_line_offset_mono(lines: Seq<Seq<u8>>, a: int, b: int)
    requires
        0 <= a <= b,
    ensures
        line_offset(lines, a) + (if a < b { lines[a].len() + 1 } else { 0 }) <= line_offset(
            lines,
            b,
        ),
    decreases b - a,
{
    if a < b {
        if a + 1 < b {
            lemma_line_offset_mono(lines, a + 1, b);
        }
    }
}

proof fn lemma_render_prefix_shape(lines: Seq<Seq<u8>>, n: int, first: int, last: int, diff: int)
    requires
        0 <= n <= lines.len(),
    ensures
        render_prefix(lines, n, first, last, diff).0.len() == n,
        render_prefix(lines, n, first, last, diff).1 == line_offset(lines, n),
    decreases n,
{
    if n > 0 {
        lemma_render_prefix_shape(lines, n - 1, first, last, diff);
    }
}

proof fn lemma_render_prefix_stable(
    lines: Seq<Seq<u8>>,
    m: int,
    n: int,
    first: int,
    last: int,
    diff: int,
)
    requires
        0 <= m < n <= lines.len(),
    ensures
        render_prefix(lines, n, first, last, diff).0[m] == render_prefix(
            lines,
            m + 1,
            first,
            last,
            diff,
        ).0[m],
    decreases n,
{
    if n > m + 1 {
        lemma_render_prefix_stable(lines, m, n - 1, first, last, diff);
        lemma_render_prefix_shape(lines, n - 1, first, last, diff);
    }
}

/// After the line holding the start of the selection, and before the line
/// holding its end, the selection is open.
proof fn lemma_selection_open(
    lines: Seq<Seq<u8>>,
    n: int,
    i: int,
    k: int,
    first: int,
    last: int,
    diff: int,
)
    requires
        0 <= i < n <= k < lines.len(),
        first <= last,
        line_holds(lines, i, first),
        line_holds(lines, k, last),
    ensures
        render_prefix(lines, n, first, last, diff).2,
    decreases n,
{
    lemma_render_prefix_shape(lines, n - 1, first, last, diff);
    lemma_line_offset_mono(lines, n - 1, k);
    if n - 1 > i {
        lemma_selection_open(lines, n - 1, i, k, first, last, diff);
        lemma_line_offset_mono(lines, i, n - 1);
    }
}

/// The selection is drawn over every line between its two ends: a line
/// that lies strictly between the line holding the start of the selection
/// and the line holding its end is drawn whole, as one selected span.
pub proof fn law_inner_lines_selected(code: Seq<u8>, anchor: int, caret: int, i: int, j: int, k: int)
    requires
        0 <= i < j < k < split_lines(code).len(),
        line_holds(split_lines(code), i, if anchor > caret { caret } else { anchor }),
        line_holds(split_lines(code), k, if anchor > caret { anchor } else { caret }),
    ensures
        code_view(code, anchor, caret).len() == split_lines(code).len(),
        code_view(code, anchor, caret)[j] == seq![(split_lines(code)[j], SpanStyle::Selection)],
{
    let lines = split_lines(code);
    let first = if anchor > caret { caret } else { anchor };
    let last = if anchor > caret { anchor } else { caret };
    let diff = last - first;
    let n = lines.len() as int;
    lemma_line_offset_mono(lines, i, k);
    assert(first <= last);
    lemma_render_prefix_shape(lines, n, first, last, diff);
    lemma_render_prefix_stable(lines, j, n, first, last, diff);
    lemma_selection_open(lines, j, i, k, first, last, diff);
    lemma_render_prefix_shape(lines, j, first, last, diff);
    lemma_line_offset_mono(lines, i, j);
    lemma_line_offset_mono(lines, j, k);
}

} // verus!
