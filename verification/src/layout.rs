use vstd::prelude::*;

use core::ops::Range;

use crate::text::{join_with, lemma_join_push};

verus! {

/// The total width of the words `a..b`.
pub open spec fn width_sum(widths: Seq<u32>, a: int, b: int) -> int
    decreases b - a,
{
    if b <= a {
        0
    } else {
        width_sum(widths, a, b - 1) + widths[b - 1]
    }
}

/// The width of the words `a..b` set on one line, one `space` between each two.
pub open spec fn line_width_of(widths: Seq<u32>, space: int, a: int, b: int) -> int {
    if b <= a {
        0
    } else {
        width_sum(widths, a, b) + (b - a - 1) * space
    }
}

/// `line` is a range of word indices within `count` words.
pub open spec fn is_word_range(line: Range<usize>, count: int) -> bool {
    line.start <= line.end <= count
}

/// `lines` is the greedy wrapping of words of these widths under `limit`:
/// consecutive, non-empty ranges that cover every word in order (a single
/// empty range where there are no words), each no wider than `limit` unless
/// it holds a single word, and each but the last too narrow to take the next
/// word without passing `limit`.
pub open spec fn is_greedy_wrap(
    widths: Seq<u32>,
    space: int,
    limit: int,
    lines: Seq<Range<usize>>,
) -> bool {
    &&& lines.len() >= 1
    &&& lines[0].start == 0
    &&& lines.last().end == widths.len()
    &&& widths.len() == 0 ==> lines.len() == 1
    &&& forall|i: int|
        #![trigger lines[i]]
        0 <= i < lines.len() - 1 ==> lines[i].end == lines[i + 1].start
    &&& forall|i: int|
        #![trigger lines[i]]
        0 <= i < lines.len() ==> {
            &&& lines[i].start <= lines[i].end <= widths.len()
            &&& widths.len() > 0 ==> lines[i].start < lines[i].end
            &&& lines[i].end - lines[i].start == 1 || line_width_of(
                widths,
                space,
                lines[i].start as int,
                lines[i].end as int,
            ) <= limit
        }
    &&& forall|i: int|
        #![trigger lines[i]]
        0 <= i < lines.len() - 1 ==> line_width_of(
            widths,
            space,
            lines[i].start as int,
            lines[i].end + 1,
        ) > limit
}

proof fn lemma_width_sum_bound(widths: Seq<u32>, a: int, b: int)
    requires
        a <= b,
    ensures
        0 <= width_sum(widths, a, b) <= (b - a) * 0xffff_ffff,
    decreases b - a,
{
    if b > a {
        lemma_width_sum_bound(widths, a, b - 1);
        assert((b - 1 - a) * 0xffff_ffff + 0xffff_ffff == (b - a) * 0xffff_ffff) by (nonlinear_arith);
    }
}

/// Adding the next word to a line adds a space and its width.
proof fn lemma_line_width_step(widths: Seq<u32>, space: int, a: int, b: int)
    requires
        a < b,
    ensures
        line_width_of(widths, space, a, b + 1) == line_width_of(widths, space, a, b) + space
            + widths[b],
{
    assert((b + 1 - a - 1) * space == (b - a - 1) * space + space) by (nonlinear_arith);
}

/// A line of one word is as wide as the word.
proof fn lemma_line_width_single(widths: Seq<u32>, space: int, a: int)
    ensures
        line_width_of(widths, space, a, a + 1) == widths[a],
{
    assert((a + 1 - a - 1) * space == 0) by (nonlinear_arith);
    assert(width_sum(widths, a, a + 1) == width_sum(widths, a, a) + widths[a]);
}

/// A line never gets narrower when it takes more words.
pub proof fn lemma_line_width_monotone(widths: Seq<u32>, space: int, a: int, b: int, c: int)
    requires
        a <= b <= c,
        space >= 0,
    ensures
        line_width_of(widths, space, a, b) <= line_width_of(widths, space, a, c),
    decreases c - b,
{
    if b < c {
        lemma_line_width_monotone(widths, space, a, b, c - 1);
        if a < c - 1 {
            lemma_line_width_step(widths, space, a, c - 1);
        } else {
            assert(width_sum(widths, a, c) == widths[a] + width_sum(widths, a, a));
        }
    }
}

/// The width of the words in `line` set with one `space` between each two.
pub fn line_width(widths: &[u32], space: u32, line: Range<usize>) -> (width: u128)
    requires
        is_word_range(line, widths@.len() as int),
    ensures
        width == line_width_of(widths@, space as int, line.start as int, line.end as int),
{
    if line.start == line.end {
        return 0;
    }
    let mut sum: u128 = 0;
    let mut k: usize = line.start;
    while k < line.end
        invariant
            line.start <= k <= line.end <= widths@.len(),
            sum == width_sum(widths@, line.start as int, k as int),
        decreases line.end - k,
    {
        proof {
            lemma_width_sum_bound(widths@, line.start as int, k as int);
            assert((k - line.start) * 0xffff_ffff <= 0x1_0000_0000_0000_0000 * 0xffff_ffff)
                by (nonlinear_arith)
                requires
                    k - line.start <= 0x1_0000_0000_0000_0000,
            ;
        }
        sum = sum + widths[k] as u128;
        k = k + 1;
    }
    let gaps = (line.end - line.start - 1) as u128;
    proof {
        lemma_width_sum_bound(widths@, line.start as int, line.end as int);
        assert((line.end - line.start) * 0xffff_ffff <= 0x1_0000_0000_0000_0000 * 0xffff_ffff)
            by (nonlinear_arith)
            requires
                line.end - line.start <= 0x1_0000_0000_0000_0000,
        ;
        assert(gaps * space <= 0x1_0000_0000_0000_0000 * 0xffff_ffff) by (nonlinear_arith)
            requires
                gaps <= 0x1_0000_0000_0000_0000,
                space <= 0xffff_ffff,
        ;
    }
    sum + gaps * (space as u128)
}

/// The closed lines of a wrap in progress: `lines` covers the words before
/// `start`, in greedy lines, each of them unable to take the word after it.
spec fn closed_lines(
    widths: Seq<u32>,
    space: int,
    limit: int,
    lines: Seq<Range<usize>>,
    start: int,
) -> bool {
    &&& lines.len() == 0 ==> start == 0
    &&& lines.len() > 0 ==> lines[0].start == 0 && lines.last().end == start
    &&& forall|i: int|
        #![trigger lines[i]]
        0 <= i < lines.len() - 1 ==> lines[i].end == lines[i + 1].start
    &&& forall|i: int|
        #![trigger lines[i]]
        0 <= i < lines.len() ==> {
            &&& lines[i].start < lines[i].end <= start
            &&& lines[i].end - lines[i].start == 1 || line_width_of(
                widths,
                space,
                lines[i].start as int,
                lines[i].end as int,
            ) <= limit
            &&& line_width_of(widths, space, lines[i].start as int, lines[i].end + 1) > limit
        }
}

/// Greedily groups words of these widths into lines no wider than `limit`,
/// as ranges of word indices. A word wider than `limit` on its own still
/// gets a line of its own.
pub fn wrap(widths: &[u32], space: u32, limit: u64) -> (lines: Vec<Range<usize>>)
    ensures
        is_greedy_wrap(widths@, space as int, limit as int, lines@),
{
    let ghost w = widths@;
    let ghost sp = space as int;
    let ghost lim = limit as int;
    let n = widths.len();
    let mut lines: Vec<Range<usize>> = Vec::new();
    let mut start: usize = 0;
    let mut current: u128 = 0;
    let mut index: usize = 0;
    while index < n
        invariant
            n == widths@.len(),
            w == widths@,
            sp == space as int,
            lim == limit as int,
            index <= n,
            start <= index,
            index == 0 ==> start == 0,
            index > 0 ==> start < index,
            closed_lines(w, sp, lim, lines@, start as int),
            index > start ==> current == line_width_of(w, sp, start as int, index as int),
            index > start ==> (index - start == 1 || current <= limit),
            current <= 0xffff_ffff_ffff_ffff,
        decreases n - index,
    {
        let width = widths[index];
        if index == start {
            current = width as u128;
            proof {
                lemma_line_width_single(w, sp, index as int);
            }
        } else if current + space as u128 + width as u128 <= limit as u128 {
            proof {
                lemma_line_width_step(w, sp, start as int, index as int);
            }
            current = current + space as u128 + width as u128;
        } else {
            proof {
                lemma_line_width_step(w, sp, start as int, index as int);
            }
            let ghost before = lines@;
            lines.push(start..index);
            assert forall|i: int|
                #![trigger lines@[i]]
                0 <= i < lines@.len() - 1 implies lines@[i].end == lines@[i + 1].start by {
                if i < before.len() - 1 {
                    assert(lines@[i] == before[i] && lines@[i + 1] == before[i + 1]);
                } else {
                    assert(lines@[i] == before.last());
                }
            }
            assert forall|i: int| #![trigger lines@[i]] 0 <= i < lines@.len() implies {
                &&& lines@[i].start < lines@[i].end <= index
                &&& lines@[i].end - lines@[i].start == 1 || line_width_of(
                    w,
                    sp,
                    lines@[i].start as int,
                    lines@[i].end as int,
                ) <= lim
                &&& line_width_of(w, sp, lines@[i].start as int, lines@[i].end + 1) > lim
            } by {
                if i < before.len() {
                    assert(lines@[i] == before[i]);
                }
            }
            start = index;
            current = width as u128;
            proof {
                lemma_line_width_single(w, sp, index as int);
            }
        }
        index = index + 1;
    }
    let ghost before = lines@;
    lines.push(start..n);
    assert forall|i: int|
        #![trigger lines@[i]]
        0 <= i < lines@.len() - 1 implies lines@[i].end == lines@[i + 1].start by {
        if i < before.len() - 1 {
            assert(lines@[i] == before[i] && lines@[i + 1] == before[i + 1]);
        } else {
            assert(lines@[i] == before.last());
        }
    }
    assert forall|i: int| #![trigger lines@[i]] 0 <= i < lines@.len() implies {
        &&& lines@[i].start <= lines@[i].end <= n
        &&& n > 0 ==> lines@[i].start < lines@[i].end
        &&& lines@[i].end - lines@[i].start == 1 || line_width_of(
            w,
            sp,
            lines@[i].start as int,
            lines@[i].end as int,
        ) <= lim
    } by {
        if i < before.len() {
            assert(lines@[i] == before[i]);
        }
    }
    assert forall|i: int|
        #![trigger lines@[i]]
        0 <= i < lines@.len() - 1 implies line_width_of(
        w,
        sp,
        lines@[i].start as int,
        lines@[i].end + 1,
    ) > lim by {
        assert(lines@[i] == before[i]);
    }
    lines
}

/// The widest of `lines`, or 0 where there is none.
pub open spec fn widest_of(widths: Seq<u32>, space: int, lines: Seq<Range<usize>>) -> int
    decreases lines.len(),
{
    if lines.len() == 0 {
        0
    } else {
        let rest = widest_of(widths, space, lines.drop_last());
        let last = line_width_of(widths, space, lines.last().start as int, lines.last().end as int);
        if last > rest {
            last
        } else {
            rest
        }
    }
}

/// The widest width is no less than the width of any line, and is the width
/// of one of them (0 where there is none).
pub proof fn lemma_widest_is_widest(widths: Seq<u32>, space: int, lines: Seq<Range<usize>>)
    requires
        space >= 0,
    ensures
        forall|i: int|
            0 <= i < lines.len() ==> line_width_of(
                widths,
                space,
                (#[trigger] lines[i]).start as int,
                lines[i].end as int,
            ) <= widest_of(widths, space, lines),
        lines.len() == 0 ==> widest_of(widths, space, lines) == 0,
        lines.len() > 0 ==> exists|i: int|
            0 <= i < lines.len() && widest_of(widths, space, lines) == line_width_of(
                widths,
                space,
                (#[trigger] lines[i]).start as int,
                lines[i].end as int,
            ),
    decreases lines.len(),
{
    if lines.len() > 0 {
        let front = lines.drop_last();
        lemma_widest_is_widest(widths, space, front);
        let k = lines.len() - 1;
        assert forall|i: int|
            0 <= i < lines.len() implies line_width_of(
            widths,
            space,
            (#[trigger] lines[i]).start as int,
            lines[i].end as int,
        ) <= widest_of(widths, space, lines) by {
            if i < k {
                assert(lines[i] == front[i]);
            }
        }
        if front.len() > 0 && widest_of(widths, space, lines) == widest_of(widths, space, front) {
            let j = choose|j: int|
                0 <= j < front.len() && widest_of(widths, space, front) == line_width_of(
                    widths,
                    space,
                    (#[trigger] front[j]).start as int,
                    front[j].end as int,
                );
            assert(lines[j] == front[j]);
        } else {
            assert(lines[k] == lines.last());
            let a = lines[k].start as int;
            let b = lines[k].end as int;
            if a < b {
                lemma_width_sum_bound(widths, a, b);
                assert((b - a - 1) * space >= 0) by (nonlinear_arith)
                    requires
                        a < b,
                        space >= 0,
                ;
            }
            assert(widest_of(widths, space, lines) == line_width_of(
                widths,
                space,
                lines[k].start as int,
                lines[k].end as int,
            ));
        }
    }
}

/// The width of the widest of `lines`, or 0 where there is none.
pub fn widest_line(widths: &[u32], space: u32, lines: &[Range<usize>]) -> (widest: u128)
    requires
        forall|i: int|
            0 <= i < lines@.len() ==> is_word_range(#[trigger] lines@[i], widths@.len() as int),
    ensures
        widest == widest_of(widths@, space as int, lines@),
        forall|i: int|
            0 <= i < lines@.len() ==> line_width_of(
                widths@,
                space as int,
                (#[trigger] lines@[i]).start as int,
                lines@[i].end as int,
            ) <= widest,
        lines@.len() == 0 ==> widest == 0,
        lines@.len() > 0 ==> exists|i: int|
            0 <= i < lines@.len() && widest == line_width_of(
                widths@,
                space as int,
                (#[trigger] lines@[i]).start as int,
                lines@[i].end as int,
            ),
{
    proof {
        lemma_widest_is_widest(widths@, space as int, lines@);
    }
    let mut widest: u128 = 0;
    let mut i: usize = 0;
    while i < lines.len()
        invariant
            i <= lines@.len(),
            forall|k: int|
                0 <= k < lines@.len() ==> is_word_range(#[trigger] lines@[k], widths@.len() as int),
            widest == widest_of(widths@, space as int, lines@.take(i as int)),
        decreases lines@.len() - i,
    {
        let line = lines[i].start..lines[i].end;
        assert(is_word_range(lines@[i as int], widths@.len() as int));
        let width = line_width(widths, space, line);
        assert(lines@.take(i + 1).drop_last() =~= lines@.take(i as int));
        if width > widest {
            widest = width;
        }
        i = i + 1;
    }
    assert(lines@.take(lines@.len() as int) =~= lines@);
    widest
}

/// The words of `line` written with one space between each two.
pub open spec fn line_text(words: Seq<Seq<char>>, line: Range<usize>) -> Seq<char> {
    join_with(words.subrange(line.start as int, line.end as int), ' ')
}

/// The text of each line: its words joined by single spaces.
pub fn join_lines(words: &Vec<String>, lines: &[Range<usize>]) -> (texts: Vec<String>)
    requires
        forall|i: int|
            0 <= i < lines@.len() ==> is_word_range(#[trigger] lines@[i], words@.len() as int),
    ensures
        texts.deep_view().len() == lines@.len(),
        forall|i: int|
            0 <= i < lines@.len() ==> #[trigger] texts.deep_view()[i] == line_text(
                words.deep_view(),
                lines@[i],
            ),
{
    let mut texts: Vec<String> = Vec::new();
    let mut i: usize = 0;
    while i < lines.len()
        invariant
            i <= lines@.len(),
            forall|k: int|
                0 <= k < lines@.len() ==> is_word_range(#[trigger] lines@[k], words@.len() as int),
            texts.deep_view().len() == i,
            forall|k: int|
                0 <= k < i ==> #[trigger] texts.deep_view()[k] == line_text(
                    words.deep_view(),
                    lines@[k],
                ),
        decreases lines@.len() - i,
    {
        let start = lines[i].start;
        let end = lines[i].end;
        assert(is_word_range(lines@[i as int], words@.len() as int));
        let ghost ws = words.deep_view();
        let mut text = String::new();
        let mut k: usize = start;
        proof {
            reveal_strlit(" ");
            assert(ws.subrange(start as int, start as int) =~= Seq::<Seq<char>>::empty());
        }
        while k < end
            invariant
                start <= k <= end <= words@.len(),
                ws == words.deep_view(),
                " "@ == seq![' '],
                text@ == join_with(ws.subrange(start as int, k as int), ' '),
            decreases end - k,
        {
            proof {
                assert(ws.subrange(start as int, k + 1) =~= ws.subrange(start as int, k as int).push(
                    ws[k as int],
                ));
                lemma_join_push(ws.subrange(start as int, k as int), ws[k as int], ' ');
            }
            if k > start {
                text.append(" ");
            }
            text.append(words[k].as_str());
            k = k + 1;
        }
        let ghost done = texts.deep_view();
        texts.push(text);
        assert(texts.deep_view() =~= done.push(line_text(ws, lines@[i as int])));
        i = i + 1;
    }
    texts
}

/// The width of a space: how much wider a pair of glyphs is with one between
/// them than without, or 0 where it is not wider.
pub fn space_width(spaced: u32, tight: u32) -> (space: u32)
    ensures
        space == if spaced > tight {
            spaced - tight
        } else {
            0
        },
{
    if spaced > tight {
        spaced - tight
    } else {
        0
    }
}

/// Two greedy wrappings of the same words under the same limit are the same:
/// the wrapping is determined by the widths, the space and the limit.
pub proof fn lemma_greedy_wrap_unique(
    widths: Seq<u32>,
    space: int,
    limit: int,
    a: Seq<Range<usize>>,
    b: Seq<Range<usize>>,
)
    requires
        space >= 0,
        is_greedy_wrap(widths, space, limit, a),
        is_greedy_wrap(widths, space, limit, b),
    ensures
        a == b,
{
    let n = widths.len() as int;
    if n == 0 {
        assert(a.len() == 1 && b.len() == 1);
        assert(a[0] == b[0]);
        assert(a =~= b);
    } else {
        let m = if a.len() < b.len() {
            a.len()
        } else {
            b.len()
        };
        assert forall|i: int| 0 <= i < m implies a[i] == b[i] by {
            lemma_greedy_lines_agree(widths, space, limit, a, b, i);
        }
        if a.len() < b.len() {
            let i = a.len() - 1;
            assert(a[i] == b[i]);
            assert(b[i].end == b[i + 1].start);
            assert(b[i + 1].start < b[i + 1].end <= n);
        } else if b.len() < a.len() {
            let i = b.len() - 1;
            assert(a[i] == b[i]);
            assert(a[i].end == a[i + 1].start);
            assert(a[i + 1].start < a[i + 1].end <= n);
        }
        assert(a =~= b);
    }
}

proof fn lemma_greedy_lines_agree(
    widths: Seq<u32>,
    space: int,
    limit: int,
    a: Seq<Range<usize>>,
    b: Seq<Range<usize>>,
    i: int,
)
    requires
        space >= 0,
        widths.len() > 0,
        is_greedy_wrap(widths, space, limit, a),
        is_greedy_wrap(widths, space, limit, b),
        0 <= i < a.len(),
        i < b.len(),
    ensures
        a[i] == b[i],
    decreases i,
{
    if i > 0 {
        lemma_greedy_lines_agree(widths, space, limit, a, b, i - 1);
        assert(a[i - 1].end == a[i].start);
        assert(b[i - 1].end == b[i].start);
    }
    let s = a[i].start as int;
    assert(s == b[i].start);
    lemma_no_longer_line(widths, space, limit, a, b, i);
    lemma_no_longer_line(widths, space, limit, b, a, i);
}

proof fn lemma_no_longer_line(
    widths: Seq<u32>,
    space: int,
    limit: int,
    a: Seq<Range<usize>>,
    b: Seq<Range<usize>>,
    i: int,
)
    requires
        space >= 0,
        widths.len() > 0,
        is_greedy_wrap(widths, space, limit, a),
        is_greedy_wrap(widths, space, limit, b),
        0 <= i < a.len(),
        i < b.len(),
        a[i].start == b[i].start,
    ensures
        b[i].end <= a[i].end,
{
    let s = a[i].start as int;
    if a[i].end < b[i].end {
        assert(b[i].end <= widths.len());
        assert(i < a.len() - 1);
        assert(line_width_of(widths, space, s, a[i].end + 1) > limit);
        assert(a[i].start < a[i].end);
        assert(line_width_of(widths, space, s, b[i].end as int) <= limit);
        lemma_line_width_monotone(widths, space, s, a[i].end + 1, b[i].end as int);
    }
}

/// The width of the words `a..c` is the width of `a..b` plus that of `b..c`.
proof fn lemma_width_sum_split(widths: Seq<u32>, a: int, b: int, c: int)
    requires
        a <= b <= c,
    ensures
        width_sum(widths, a, c) == width_sum(widths, a, b) + width_sum(widths, b, c),
    decreases c - b,
{
    if b < c {
        lemma_width_sum_split(widths, a, b, c - 1);
    }
}

/// A line never gets wider when it gives up words at its front.
proof fn lemma_line_width_front(widths: Seq<u32>, space: int, a: int, b: int, c: int)
    requires
        a <= b <= c,
        space >= 0,
    ensures
        line_width_of(widths, space, b, c) <= line_width_of(widths, space, a, c),
{
    lemma_width_sum_bound(widths, a, b);
    lemma_width_sum_bound(widths, b, c);
    if b < c {
        lemma_width_sum_split(widths, a, b, c);
        assert((c - b - 1) * space <= (c - a - 1) * space) by (nonlinear_arith)
            requires
                a <= b < c,
                space >= 0,
        ;
    } else if a < c {
        lemma_width_sum_bound(widths, a, c);
        assert((c - a - 1) * space >= 0) by (nonlinear_arith)
            requires
                a < c,
                space >= 0,
        ;
    }
}

/// Under a larger limit, each line of the greedy wrap ends no earlier.
proof fn lemma_wrap_stays_ahead(
    widths: Seq<u32>,
    space: int,
    narrow: int,
    wide: int,
    a: Seq<Range<usize>>,
    b: Seq<Range<usize>>,
    i: int,
)
    requires
        space >= 0,
        narrow <= wide,
        widths.len() > 0,
        is_greedy_wrap(widths, space, narrow, a),
        is_greedy_wrap(widths, space, wide, b),
        0 <= i < a.len(),
        i < b.len(),
    ensures
        a[i].end <= b[i].end,
    decreases i,
{
    if i > 0 {
        lemma_wrap_stays_ahead(widths, space, narrow, wide, a, b, i - 1);
        assert(a[i - 1].end == a[i].start);
        assert(b[i - 1].end == b[i].start);
    }
    let sa = a[i].start as int;
    let sb = b[i].start as int;
    let ea = a[i].end as int;
    let eb = b[i].end as int;
    assert(sa <= sb);
    if eb < ea {
        assert(ea <= widths.len());
        assert(i < b.len() - 1);
        assert(line_width_of(widths, space, sb, eb + 1) > wide);
        assert(sb < eb);
        assert(ea - sa != 1);
        assert(line_width_of(widths, space, sa, ea) <= narrow);
        lemma_line_width_monotone(widths, space, sb, eb + 1, ea);
        lemma_line_width_front(widths, space, sa, sb, ea);
    }
}

/// More room never means more lines: wrapping the same words under a larger
/// limit ends every line no earlier and gives no more lines.
pub proof fn lemma_more_room_no_more_lines(
    widths: Seq<u32>,
    space: int,
    narrow: int,
    wide: int,
    a: Seq<Range<usize>>,
    b: Seq<Range<usize>>,
)
    requires
        space >= 0,
        narrow <= wide,
        is_greedy_wrap(widths, space, narrow, a),
        is_greedy_wrap(widths, space, wide, b),
    ensures
        b.len() <= a.len(),
        forall|i: int| 0 <= i < b.len() ==> a[i].end <= #[trigger] b[i].end,
{
    let n = widths.len() as int;
    if n > 0 {
        assert forall|i: int| 0 <= i < b.len() implies a[i].end <= #[trigger] b[i].end by {
            if i < a.len() {
                lemma_wrap_stays_ahead(widths, space, narrow, wide, a, b, i);
            } else {
                let k = a.len() - 1;
                lemma_wrap_stays_ahead(widths, space, narrow, wide, a, b, k);
                assert(b[k].end == b[k + 1].start);
                assert(b[k + 1].start < b[k + 1].end <= n);
            }
        }
        if b.len() > a.len() {
            let k = a.len() - 1;
            assert(a[k].end <= b[k].end);
            assert(b[k].end == b[k + 1].start);
            assert(b[k + 1].start < b[k + 1].end <= n);
        }
    }
}

/// Words that fit on one line under the limit are wrapped onto one line.
pub proof fn lemma_one_line_when_it_fits(
    widths: Seq<u32>,
    space: int,
    limit: int,
    lines: Seq<Range<usize>>,
)
    requires
        space >= 0,
        is_greedy_wrap(widths, space, limit, lines),
        line_width_of(widths, space, 0, widths.len() as int) <= limit,
    ensures
        lines == seq![Range { start: 0usize, end: lines.last().end }],
{
    let one = seq![Range { start: 0usize, end: lines.last().end }];
    assert(one[0].end == widths.len());
    assert(is_greedy_wrap(widths, space, limit, one));
    lemma_greedy_wrap_unique(widths, space, limit, lines, one);
}

/// The text of the words `0..c`, split after word `b`, is the text up to `b`,
/// a space, and the text from `b`.
proof fn lemma_join_split(words: Seq<Seq<char>>, b: int, c: int)
    requires
        0 < b < c <= words.len(),
    ensures
        join_with(words.subrange(0, c), ' ') == join_with(words.subrange(0, b), ' ').push(' ')
            + join_with(words.subrange(b, c), ' '),
    decreases c - b,
{
    assert(words.subrange(0, c) =~= words.subrange(0, c - 1).push(words[c - 1]));
    lemma_join_push(words.subrange(0, c - 1), words[c - 1], ' ');
    if c == b + 1 {
        assert(words.subrange(b, c) =~= seq![words[b]]);
    } else {
        lemma_join_split(words, b, c - 1);
        assert(words.subrange(b, c) =~= words.subrange(b, c - 1).push(words[c - 1]));
        lemma_join_push(words.subrange(b, c - 1), words[c - 1], ' ');
        assert(join_with(words.subrange(0, c), ' ') =~= join_with(words.subrange(0, b), ' ').push(
            ' ',
        ) + join_with(words.subrange(b, c), ' '));
    }
}

/// The texts of `lines`.
pub open spec fn line_texts(words: Seq<Seq<char>>, lines: Seq<Range<usize>>) -> Seq<Seq<char>> {
    Seq::new(lines.len(), |i: int| line_text(words, lines[i]))
}

/// Wrapping never splits a word and loses none: the lines of a wrap, joined
/// by single spaces, are the words joined by single spaces.
pub proof fn lemma_wrapped_lines_rejoin(
    words: Seq<Seq<char>>,
    widths: Seq<u32>,
    space: int,
    limit: int,
    lines: Seq<Range<usize>>,
)
    requires
        widths.len() == words.len(),
        is_greedy_wrap(widths, space, limit, lines),
    ensures
        join_with(line_texts(words, lines), ' ') == join_with(words, ' '),
{
    let n = words.len() as int;
    let texts = line_texts(words, lines);
    if n == 0 {
        assert(texts.len() == 1);
        assert(texts[0] == line_text(words, lines[0]));
        assert(words.subrange(0, 0) =~= words);
    } else {
        lemma_rejoin_prefix(words, widths, space, limit, lines, lines.len() as int);
        assert(texts.take(lines.len() as int) =~= texts);
        assert(words.subrange(0, n) =~= words);
    }
}

proof fn lemma_rejoin_prefix(
    words: Seq<Seq<char>>,
    widths: Seq<u32>,
    space: int,
    limit: int,
    lines: Seq<Range<usize>>,
    k: int,
)
    requires
        widths.len() == words.len(),
        words.len() > 0,
        is_greedy_wrap(widths, space, limit, lines),
        1 <= k <= lines.len(),
    ensures
        join_with(line_texts(words, lines).take(k), ' ') == join_with(
            words.subrange(0, lines[k - 1].end as int),
            ' ',
        ),
    decreases k,
{
    let texts = line_texts(words, lines);
    if k == 1 {
        assert(texts.take(1) =~= seq![texts[0]]);
        assert(lines[0].start == 0);
    } else {
        lemma_rejoin_prefix(words, widths, space, limit, lines, k - 1);
        assert(texts.take(k) =~= texts.take(k - 1).push(texts[k - 1]));
        lemma_join_push(texts.take(k - 1), texts[k - 1], ' ');
        let b = lines[k - 2].end as int;
        assert(lines[k - 2].end == lines[k - 1].start);
        assert(lines[k - 1].start < lines[k - 1].end <= words.len());
        assert(lines[k - 2].start < lines[k - 2].end);
        lemma_join_split(words, b, lines[k - 1].end as int);
    }
}

} // verus!
