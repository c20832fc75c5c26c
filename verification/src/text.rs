use vstd::prelude::*;

verus! {

/// The Unicode `White_Space` property, as `char::is_whitespace` tests it.
pub open spec fn is_white_space(c: char) -> bool {
    let u = c as int;
    ||| 0x09 <= u <= 0x0d
    ||| u == 0x20
    ||| u == 0x85
    ||| u == 0xa0
    ||| u == 0x1680
    ||| 0x2000 <= u <= 0x200a
    ||| u == 0x2028
    ||| u == 0x2029
    ||| u == 0x202f
    ||| u == 0x205f
    ||| u == 0x3000
}

/// Whether `char::is_alphanumeric` holds of a character (the Unicode
/// `Alphabetic` property or a numeric general category).
pub uninterp spec fn unicode_alphanumeric(c: char) -> bool;

/// What `char::to_lowercase` yields for a character.
pub uninterp spec fn unicode_lowercase(c: char) -> Seq<char>;

/// Whether `c` is white space, as `char::is_whitespace` answers: the
/// Unicode `White_Space` code points.
pub fn is_whitespace(c: char) -> (b: bool)
    ensures
        b == is_white_space(c),
{
    let u = c as u32;
    (0x09 <= u && u <= 0x0d) || u == 0x20 || u == 0x85 || u == 0xa0 || u == 0x1680 || (0x2000
        <= u && u <= 0x200a) || u == 0x2028 || u == 0x2029 || u == 0x202f || u == 0x205f || u
        == 0x3000
}

/// An ASCII letter or digit.
pub open spec fn is_ascii_alphanumeric(c: char) -> bool {
    ||| 'a' <= c <= 'z'
    ||| 'A' <= c <= 'Z'
    ||| '0' <= c <= '9'
}

/// The ASCII lowercase of a character: an uppercase ASCII letter becomes its
/// lowercase letter, any other character stays.
pub open spec fn ascii_lowercase(c: char) -> char {
    if 'A' <= c <= 'Z' {
        (c as int + 32) as char
    } else {
        c
    }
}

/// Whether a character is alphanumeric: an ASCII letter or digit among ASCII
/// characters, the named Unicode property beyond them.
pub open spec fn char_alphanumeric(c: char) -> bool {
    if (c as u32) < 128 {
        is_ascii_alphanumeric(c)
    } else {
        unicode_alphanumeric(c)
    }
}

/// The lowercase mapping of a character: the ASCII lowercase of an ASCII
/// character, the named Unicode mapping beyond ASCII.
pub open spec fn char_lowercase(c: char) -> Seq<char> {
    if (c as u32) < 128 {
        seq![ascii_lowercase(c)]
    } else {
        unicode_lowercase(c)
    }
}

/// `char::is_alphanumeric`; the answer is the named property. Of an ASCII
/// character it is stated: the ASCII letters and digits are alphanumeric,
/// every other ASCII character is not.
#[verifier::external_body]
pub(crate) fn is_alphanumeric(c: char) -> (b: bool)
    ensures
        b == unicode_alphanumeric(c),
        (c as u32) < 128 ==> (b == is_ascii_alphanumeric(c)),
{
    c.is_alphanumeric()
}

/// `char::to_lowercase`, its characters collected in order; the mapping
/// itself is the Unicode table and is only named here. Of an ASCII character
/// it is stated: the single character of its ASCII lowercase.
#[verifier::external_body]
pub(crate) fn to_lowercase(c: char) -> (lower: Vec<char>)
    ensures
        lower@ == unicode_lowercase(c),
        (c as u32) < 128 ==> lower@ == seq![ascii_lowercase(c)],
{
    c.to_lowercase().collect()
}

/// `String: FromIterator<&char>`: a string holding exactly these characters.
#[verifier::external_body]
pub(crate) fn string_from_chars(chars: &[char]) -> (s: String)
    ensures
        s@ == chars@,
{
    chars.iter().collect()
}

/// The characters of `s`, in order.
pub fn char_vec(s: &str) -> (chars: Vec<char>)
    ensures
        chars@ == s@,
{
    let mut chars: Vec<char> = Vec::new();
    for c in iter: s.chars()
        invariant
            iter.seq() == s@,
            chars@ == iter.seq().take(iter.index() as int),
    {
        chars.push(c);
    }
    chars
}

/// `s` without its leading white space.
pub open spec fn trim_start(s: Seq<char>) -> Seq<char>
    decreases s.len(),
{
    if s.len() > 0 && is_white_space(s[0]) {
        trim_start(s.drop_first())
    } else {
        s
    }
}

/// `s` without its trailing white space.
pub open spec fn trim_end(s: Seq<char>) -> Seq<char>
    decreases s.len(),
{
    if s.len() > 0 && is_white_space(s.last()) {
        trim_end(s.drop_last())
    } else {
        s
    }
}

/// `s` without leading or trailing white space, as `str::trim` gives it.
pub open spec fn trim(s: Seq<char>) -> Seq<char> {
    trim_end(trim_start(s))
}

/// Whether `s` holds a character that is not white space.
pub open spec fn has_text(s: Seq<char>) -> bool {
    exists|i: int| 0 <= i < s.len() && !is_white_space(#[trigger] s[i])
}

proof fn lemma_trim_start_subrange(s: Seq<char>, i: int)
    requires
        0 <= i < s.len(),
        is_white_space(s[i]),
    ensures
        trim_start(s.subrange(i, s.len() as int)) == trim_start(s.subrange(i + 1, s.len() as int)),
{
    assert(s.subrange(i, s.len() as int).drop_first() =~= s.subrange(i + 1, s.len() as int));
}

proof fn lemma_trim_end_subrange(s: Seq<char>, lo: int, hi: int)
    requires
        0 <= lo < hi <= s.len(),
        is_white_space(s[hi - 1]),
    ensures
        trim_end(s.subrange(lo, hi)) == trim_end(s.subrange(lo, hi - 1)),
{
    assert(s.subrange(lo, hi).drop_last() =~= s.subrange(lo, hi - 1));
}

/// Trimming leaves nothing exactly when every character is white space.
pub proof fn lemma_trim_empty_iff_blank(s: Seq<char>)
    ensures
        (trim(s).len() == 0) == !has_text(s),
    decreases s.len(),
{
    if s.len() > 0 && is_white_space(s[0]) {
        lemma_trim_empty_iff_blank(s.drop_first());
        if has_text(s) {
            let i = choose|i: int| 0 <= i < s.len() && !is_white_space(#[trigger] s[i]);
            assert(s.drop_first()[i - 1] == s[i]);
        }
        if has_text(s.drop_first()) {
            let i = choose|i: int|
                0 <= i < s.drop_first().len() && !is_white_space(#[trigger] s.drop_first()[i]);
            assert(s[i + 1] == s.drop_first()[i]);
        }
    } else if s.len() > 0 {
        assert(!is_white_space(s[0]));
        lemma_trim_end_keeps_first(s);
    }
}

proof fn lemma_trim_end_keeps_first(s: Seq<char>)
    requires
        s.len() > 0,
        !is_white_space(s[0]),
    ensures
        trim_end(s).len() > 0,
    decreases s.len(),
{
    if is_white_space(s.last()) {
        lemma_trim_end_keeps_first(s.drop_last());
    }
}

/// The characters of `chars` without leading or trailing white space.
pub fn trimmed(chars: &Vec<char>) -> (t: Vec<char>)
    ensures
        t@ == trim(chars@),
{
    let n = chars.len();
    let mut start: usize = 0;
    assert(chars@.subrange(0, n as int) =~= chars@);
    while start < n && is_whitespace(chars[start])
        invariant
            0 <= start <= n,
            n == chars.len(),
            trim_start(chars@) == trim_start(chars@.subrange(start as int, n as int)),
        decreases n - start,
    {
        proof {
            lemma_trim_start_subrange(chars@, start as int);
        }
        start = start + 1;
    }
    assert(trim_start(chars@) == chars@.subrange(start as int, n as int));
    let mut end: usize = n;
    while end > start && is_whitespace(chars[end - 1])
        invariant
            start <= end <= n,
            n == chars.len(),
            trim(chars@) == trim_end(chars@.subrange(start as int, end as int)),
        decreases end,
    {
        proof {
            lemma_trim_end_subrange(chars@, start as int, end as int);
        }
        end = end - 1;
    }
    let mut t: Vec<char> = Vec::new();
    let mut k: usize = start;
    while k < end
        invariant
            start <= k <= end <= n,
            n == chars.len(),
            t@ == chars@.subrange(start as int, k as int),
        decreases end - k,
    {
        t.push(chars[k]);
        k = k + 1;
    }
    t
}

/// The runs of `s`, read left to right: an item that `keep` accepts adds its
/// character (`ch`) to the current run, one that `split` accepts (and `keep`
/// does not) closes the run and opens a new one, and any other item is
/// dropped. There is always at least one (possibly empty) run.
pub open spec fn runs<A>(
    s: Seq<A>,
    keep: spec_fn(A) -> bool,
    split: spec_fn(A) -> bool,
    ch: spec_fn(A) -> char,
) -> Seq<Seq<char>>
    decreases s.len(),
{
    if s.len() == 0 {
        seq![Seq::<char>::empty()]
    } else {
        let ps = runs(s.drop_last(), keep, split, ch);
        let a = s.last();
        if keep(a) {
            ps.update(ps.len() - 1, ps.last().push(ch(a)))
        } else if split(a) {
            ps.push(Seq::<char>::empty())
        } else {
            ps
        }
    }
}

/// The pieces of `ps` that are not empty, in order.
pub open spec fn nonempty(ps: Seq<Seq<char>>) -> Seq<Seq<char>>
    decreases ps.len(),
{
    if ps.len() == 0 {
        Seq::<Seq<char>>::empty()
    } else if ps.last().len() > 0 {
        nonempty(ps.drop_last()).push(ps.last())
    } else {
        nonempty(ps.drop_last())
    }
}

/// The pieces of `ps` written one after another with `sep` between each two.
pub open spec fn join_with(ps: Seq<Seq<char>>, sep: char) -> Seq<char>
    decreases ps.len(),
{
    if ps.len() == 0 {
        Seq::<char>::empty()
    } else if ps.len() == 1 {
        ps[0]
    } else {
        join_with(ps.drop_last(), sep).push(sep) + ps.last()
    }
}

/// A character that belongs to a word.
pub open spec fn word_char() -> spec_fn(char) -> bool {
    |c: char| !is_white_space(c)
}

/// A character that ends a word.
pub open spec fn word_break() -> spec_fn(char) -> bool {
    |c: char| is_white_space(c)
}

/// A character as itself.
pub open spec fn same_char() -> spec_fn(char) -> char {
    |c: char| c
}

/// The words of `s`, as `str::split_whitespace` yields them: the maximal
/// runs of characters that are not white space.
pub open spec fn words_of(s: Seq<char>) -> Seq<Seq<char>> {
    nonempty(runs(s, word_char(), word_break(), same_char()))
}

pub proof fn lemma_runs_len<A>(
    s: Seq<A>,
    keep: spec_fn(A) -> bool,
    split: spec_fn(A) -> bool,
    ch: spec_fn(A) -> char,
)
    ensures
        runs(s, keep, split, ch).len() >= 1,
    decreases s.len(),
{
    if s.len() > 0 {
        lemma_runs_len(s.drop_last(), keep, split, ch);
    }
}

/// How `runs` grows by one item.
pub proof fn lemma_runs_push<A>(
    s: Seq<A>,
    c: A,
    keep: spec_fn(A) -> bool,
    split: spec_fn(A) -> bool,
    ch: spec_fn(A) -> char,
)
    ensures
        runs(s.push(c), keep, split, ch) == ({
            let ps = runs(s, keep, split, ch);
            if keep(c) {
                ps.update(ps.len() - 1, ps.last().push(ch(c)))
            } else if split(c) {
                ps.push(Seq::<char>::empty())
            } else {
                ps
            }
        }),
{
    assert(s.push(c).drop_last() =~= s);
}

/// Every piece that `nonempty` keeps is indeed not empty.
pub proof fn lemma_nonempty_pieces(ps: Seq<Seq<char>>)
    ensures
        forall|i: int| 0 <= i < nonempty(ps).len() ==> #[trigger] nonempty(ps)[i].len() > 0,
    decreases ps.len(),
{
    if ps.len() > 0 {
        let r = nonempty(ps.drop_last());
        lemma_nonempty_pieces(ps.drop_last());
        assert forall|i: int| 0 <= i < nonempty(ps).len() implies #[trigger] nonempty(ps)[i].len()
            > 0 by {
            if i < r.len() {
                assert(nonempty(ps)[i] == r[i]);
            }
        }
    }
}

/// Joining ends with the last piece.
pub proof fn lemma_join_push(ps: Seq<Seq<char>>, x: Seq<char>, sep: char)
    ensures
        join_with(ps.push(x), sep) == if ps.len() == 0 {
            x
        } else {
            join_with(ps, sep).push(sep) + x
        },
{
    assert(ps.push(x).drop_last() =~= ps);
    if ps.len() == 0 {
        assert(ps.push(x)[0] == x);
    }
}

/// Joining a sequence of pieces that are not empty gives text exactly when
/// there is a piece.
pub proof fn lemma_join_len(ps: Seq<Seq<char>>, sep: char)
    requires
        forall|i: int| 0 <= i < ps.len() ==> #[trigger] ps[i].len() > 0,
    ensures
        (join_with(ps, sep).len() > 0) == (ps.len() > 0),
{
    if ps.len() > 1 {
        assert(ps.last().len() > 0);
    } else if ps.len() == 1 {
        assert(ps[0].len() > 0);
    }
}

/// Growing the last piece by a character grows the joined text by it.
pub proof fn lemma_join_extend_last(ps: Seq<Seq<char>>, c: char, sep: char)
    requires
        ps.len() > 0,
    ensures
        join_with(ps.update(ps.len() - 1, ps.last().push(c)), sep) == join_with(ps, sep).push(c),
{
    let qs = ps.update(ps.len() - 1, ps.last().push(c));
    assert(qs.drop_last() =~= ps.drop_last());
    if ps.len() == 1 {
        assert(qs[0] == ps[0].push(c));
    } else {
        assert(join_with(qs, sep) =~= join_with(ps, sep).push(c));
    }
}

/// Where every kept item's character has property `p`, so does every
/// character of every run.
pub proof fn lemma_runs_keep_only<A>(
    s: Seq<A>,
    keep: spec_fn(A) -> bool,
    split: spec_fn(A) -> bool,
    ch: spec_fn(A) -> char,
    p: spec_fn(char) -> bool,
)
    requires
        forall|i: int| 0 <= i < s.len() && keep(#[trigger] s[i]) ==> p(ch(s[i])),
    ensures
        forall|i: int, j: int|
            0 <= i < runs(s, keep, split, ch).len() && 0 <= j < runs(s, keep, split, ch)[i].len()
                ==> p(#[trigger] runs(s, keep, split, ch)[i][j]),
    decreases s.len(),
{
    if s.len() > 0 {
        let front = s.drop_last();
        let ps = runs(front, keep, split, ch);
        assert forall|i: int| 0 <= i < front.len() && keep(#[trigger] front[i]) implies p(
            ch(front[i]),
        ) by {
            assert(front[i] == s[i]);
        }
        lemma_runs_keep_only(front, keep, split, ch, p);
        lemma_runs_len(front, keep, split, ch);
        let c = s.last();
        if keep(c) {
            assert(p(ch(s[s.len() - 1])));
            let qs = ps.update(ps.len() - 1, ps.last().push(ch(c)));
            assert forall|i: int, j: int|
                0 <= i < qs.len() && 0 <= j < qs[i].len() implies p(#[trigger] qs[i][j]) by {
                if i == ps.len() - 1 && j < ps.last().len() {
                    assert(qs[i][j] == ps[i][j]);
                } else if i < ps.len() - 1 {
                    assert(qs[i] == ps[i]);
                }
            }
        } else if split(c) {
            let qs = ps.push(Seq::<char>::empty());
            assert forall|i: int, j: int|
                0 <= i < qs.len() && 0 <= j < qs[i].len() implies p(#[trigger] qs[i][j]) by {
                assert(qs[i] == ps[i]);
            }
        }
    }
}

/// Every piece that `nonempty` keeps is one of the pieces it was given.
pub proof fn lemma_nonempty_from(ps: Seq<Seq<char>>)
    ensures
        forall|i: int|
            0 <= i < nonempty(ps).len() ==> exists|k: int|
                0 <= k < ps.len() && #[trigger] nonempty(ps)[i] == ps[k],
    decreases ps.len(),
{
    if ps.len() > 0 {
        let r = nonempty(ps.drop_last());
        lemma_nonempty_from(ps.drop_last());
        assert forall|i: int| 0 <= i < nonempty(ps).len() implies exists|k: int|
            0 <= k < ps.len() && #[trigger] nonempty(ps)[i] == ps[k] by {
            if i < r.len() {
                assert(nonempty(ps)[i] == r[i]);
                let k = choose|k: int| 0 <= k < ps.drop_last().len() && r[i] == ps.drop_last()[k];
                assert(ps[k] == ps.drop_last()[k]);
            } else {
                assert(nonempty(ps)[i] == ps[ps.len() - 1]);
            }
        }
    }
}

/// Where some item is kept, some run is not empty.
pub proof fn lemma_runs_some_text<A>(
    s: Seq<A>,
    keep: spec_fn(A) -> bool,
    split: spec_fn(A) -> bool,
    ch: spec_fn(A) -> char,
    i: int,
)
    requires
        0 <= i < s.len(),
        keep(s[i]),
    ensures
        nonempty(runs(s, keep, split, ch)).len() > 0,
    decreases s.len(),
{
    let front = s.drop_last();
    let ps = runs(front, keep, split, ch);
    lemma_runs_len(front, keep, split, ch);
    let c = s.last();
    if keep(c) {
        let qs = ps.update(ps.len() - 1, ps.last().push(ch(c)));
        assert(qs.last().len() > 0);
    } else {
        assert(i < s.len() - 1);
        assert(front[i] == s[i]);
        lemma_runs_some_text(front, keep, split, ch, i);
        if split(c) {
            let qs = ps.push(Seq::<char>::empty());
            assert(qs.drop_last() =~= ps);
        }
    }
}

/// The words of a text are not empty and hold no white space, and there is a
/// word exactly when the text holds a character that is not white space.
pub proof fn lemma_words_are_clean(s: Seq<char>)
    ensures
        forall|i: int| 0 <= i < words_of(s).len() ==> (#[trigger] words_of(s)[i]).len() > 0,
        forall|i: int, j: int|
            0 <= i < words_of(s).len() && 0 <= j < words_of(s)[i].len() ==> !is_white_space(
                #[trigger] words_of(s)[i][j],
            ),
        (words_of(s).len() > 0) == has_text(s),
{
    let ps = runs(s, word_char(), word_break(), same_char());
    let words = nonempty(ps);
    let p = |c: char| !is_white_space(c);
    lemma_nonempty_pieces(ps);
    lemma_runs_keep_only(s, word_char(), word_break(), same_char(), p);
    lemma_nonempty_from(ps);
    assert forall|i: int, j: int|
        0 <= i < words.len() && 0 <= j < words[i].len() implies !is_white_space(
        #[trigger] words[i][j],
    ) by {
        let k = choose|k: int| 0 <= k < ps.len() && words[i] == ps[k];
        assert(words[i][j] == ps[k][j]);
        assert(p(ps[k][j]));
    }
    if has_text(s) {
        let i = choose|i: int| 0 <= i < s.len() && !is_white_space(#[trigger] s[i]);
        lemma_runs_some_text(s, word_char(), word_break(), same_char(), i);
    } else if words.len() > 0 {
        lemma_no_text_no_runs(s);
    }
}

/// Text of white space alone has only empty runs.
proof fn lemma_no_text_no_runs(s: Seq<char>)
    requires
        !has_text(s),
    ensures
        nonempty(runs(s, word_char(), word_break(), same_char())).len() == 0,
    decreases s.len(),
{
    if s.len() > 0 {
        let front = s.drop_last();
        assert(!has_text(front)) by {
            if has_text(front) {
                let i = choose|i: int| 0 <= i < front.len() && !is_white_space(#[trigger] front[i]);
                assert(s[i] == front[i]);
            }
        }
        lemma_no_text_no_runs(front);
        assert(is_white_space(s[s.len() - 1]));
        let ps = runs(front, word_char(), word_break(), same_char());
        let qs = ps.push(Seq::<char>::empty());
        assert(!word_char()(s.last()) && word_break()(s.last()));
        assert(runs(s, word_char(), word_break(), same_char()) == qs);
        assert(qs.drop_last() =~= ps);
        assert(qs.last().len() == 0);
    } else {
        let ps = runs(s, word_char(), word_break(), same_char());
        assert(ps =~= seq![Seq::<char>::empty()]);
        assert(ps.drop_last() =~= Seq::<Seq<char>>::empty());
        assert(nonempty(Seq::<Seq<char>>::empty()) == Seq::<Seq<char>>::empty());
    }
}

/// `s` with each run of white space replaced by a single space.
pub open spec fn squeeze(s: Seq<char>) -> Seq<char>
    decreases s.len(),
{
    if s.len() == 0 {
        Seq::<char>::empty()
    } else {
        let r = squeeze(s.drop_last());
        if is_white_space(s.last()) {
            if r.len() > 0 && r.last() == ' ' {
                r
            } else {
                r.push(' ')
            }
        } else {
            r.push(s.last())
        }
    }
}

/// `s` with each run of white space collapsed to one space and none left at
/// either end.
pub open spec fn collapsed(s: Seq<char>) -> Seq<char> {
    trim(squeeze(s))
}

/// Pieces joined by `sep` start with the first piece and end with the last.
pub proof fn lemma_join_bounds(ps: Seq<Seq<char>>, sep: char)
    requires
        ps.len() > 0,
        forall|i: int| 0 <= i < ps.len() ==> #[trigger] ps[i].len() > 0,
    ensures
        join_with(ps, sep).len() > 0,
        join_with(ps, sep)[0] == ps[0][0],
        join_with(ps, sep).last() == ps.last().last(),
    decreases ps.len(),
{
    let front = ps.drop_last();
    let x = ps.last();
    assert(ps =~= front.push(x));
    lemma_join_push(front, x, sep);
    assert(x.len() > 0);
    if front.len() > 0 {
        assert forall|i: int| 0 <= i < front.len() implies #[trigger] front[i].len() > 0 by {
            assert(front[i] == ps[i]);
        }
        lemma_join_bounds(front, sep);
        assert(front[0] == ps[0]);
    }
}

/// How the squeezed text stands to the words read so far: an optional
/// leading space, the words joined by single spaces, and a trailing space
/// where white space followed the last word.
spec fn squeeze_shape(s: Seq<char>) -> bool {
    let ps = runs(s, word_char(), word_break(), same_char());
    let m = nonempty(ps);
    let lead = if s.len() > 0 && is_white_space(s[0]) {
        seq![' ']
    } else {
        Seq::<char>::empty()
    };
    let tail = if ps.last().len() == 0 && m.len() > 0 {
        seq![' ']
    } else {
        Seq::<char>::empty()
    };
    squeeze(s) == lead + join_with(m, ' ') + tail
}

proof fn lemma_squeeze_shape(s: Seq<char>)
    ensures
        squeeze_shape(s),
    decreases s.len(),
{
    let k = word_char();
    let b = word_break();
    let ch = same_char();
    let e = Seq::<char>::empty();
    if s.len() == 0 {
        let ps = runs(s, k, b, ch);
        assert(ps =~= seq![e]);
        assert(ps.drop_last() =~= Seq::<Seq<char>>::empty());
        assert(nonempty(Seq::<Seq<char>>::empty()) == Seq::<Seq<char>>::empty());
        assert(e + join_with(Seq::<Seq<char>>::empty(), ' ') + e =~= e);
    } else {
        let front = s.drop_last();
        let c = s.last();
        assert(s =~= front.push(c));
        lemma_squeeze_shape(front);
        lemma_runs_push(front, c, k, b, ch);
        lemma_runs_len(front, k, b, ch);
        lemma_words_are_clean(front);
        let pf = runs(front, k, b, ch);
        let mf = nonempty(pf);
        let l = pf.last();
        let j = join_with(mf, ' ');
        let sf = squeeze(front);
        let lead = if front.len() > 0 && is_white_space(front[0]) {
            seq![' ']
        } else {
            e
        };
        let lead_s = if s.len() > 0 && is_white_space(s[0]) {
            seq![' ']
        } else {
            e
        };
        if front.len() > 0 {
            assert(s[0] == front[0]);
            assert(lead_s == lead);
        }
        assert(mf == if l.len() > 0 {
            nonempty(pf.drop_last()).push(l)
        } else {
            nonempty(pf.drop_last())
        });
        if mf.len() > 0 {
            lemma_join_bounds(mf, ' ');
            assert(mf[mf.len() - 1].len() > 0);
            assert(!is_white_space(mf[mf.len() - 1][mf.last().len() - 1]));
        } else {
            assert(join_with(mf, ' ') == e);
            if front.len() > 0 {
                assert(!has_text(front));
                assert(is_white_space(front[0]));
            }
        }
        assert(is_white_space(' '));
        if !is_white_space(c) {
            let ps = pf.update(pf.len() - 1, l.push(c));
            assert(ps.drop_last() =~= pf.drop_last());
            assert(ps.last() == l.push(c));
            assert(squeeze(s) == sf.push(c));
            if l.len() == 0 {
                assert(nonempty(ps) == mf.push(l.push(c)));
                assert(l.push(c) =~= seq![c]);
                lemma_join_push(mf, seq![c], ' ');
                if mf.len() == 0 {
                    if front.len() == 0 {
                        assert(lead_s == e);
                    }
                    assert(squeeze(s) =~= lead_s + join_with(nonempty(ps), ' ') + e);
                } else {
                    assert(squeeze(s) =~= lead_s + join_with(nonempty(ps), ' ') + e);
                }
            } else {
                assert(nonempty(ps) =~= mf.update(mf.len() - 1, l.push(c)));
                lemma_join_extend_last(mf, c, ' ');
                assert(squeeze(s) =~= lead_s + join_with(nonempty(ps), ' ') + e);
            }
        } else {
            let ps = pf.push(e);
            assert(ps.drop_last() =~= pf);
            assert(nonempty(ps) == mf);
            if mf.len() == 0 {
                if front.len() == 0 {
                    assert(sf == e);
                    assert(squeeze(s) =~= seq![' ']);
                    assert(lead_s == seq![' ']);
                    assert(squeeze(s) =~= lead_s + j + e);
                } else {
                    assert(sf =~= seq![' ']);
                    assert(squeeze(s) == sf);
                    assert(squeeze(s) =~= lead_s + j + e);
                }
            } else if l.len() == 0 {
                assert(sf.last() == ' ');
                assert(squeeze(s) == sf);
            } else {
                assert(mf.last() == l);
                assert(sf == lead + j);
                assert(sf.last() == j.last());
                assert(squeeze(s) == sf.push(' '));
                assert(squeeze(s) =~= lead_s + j + seq![' ']);
            }
        }
    }
}

/// The words of a text, joined by single spaces, are the text with each run
/// of white space collapsed to one space and none at either end: the words
/// keep the text's characters as written, in order, and split it exactly at
/// its white space.
pub proof fn lemma_words_rejoin_to_collapsed(s: Seq<char>)
    ensures
        join_with(words_of(s), ' ') == collapsed(s),
{
    lemma_squeeze_shape(s);
    lemma_words_are_clean(s);
    let ps = runs(s, word_char(), word_break(), same_char());
    let m = nonempty(ps);
    let e = Seq::<char>::empty();
    let j = join_with(m, ' ');
    let sq = squeeze(s);
    assert(is_white_space(' '));
    if m.len() == 0 {
        assert(j == e);
        if s.len() > 0 {
            assert(sq =~= seq![' ']);
            assert(sq[0] == ' ');
            assert(sq.drop_first() =~= e);
            assert(trim_start(e) == e);
            assert(trim_start(sq) == trim_start(sq.drop_first()));
            assert(trim_start(sq) == e);
        } else {
            assert(sq =~= e);
        }
        assert(trim_end(e) == e);
    } else {
        lemma_join_bounds(m, ' ');
        assert(!is_white_space(m[0][0]));
        assert(m[m.len() - 1].len() > 0);
        assert(!is_white_space(m[m.len() - 1][m.last().len() - 1]));
        let tail = if ps.last().len() == 0 {
            seq![' ']
        } else {
            e
        };
        let jt = j + tail;
        assert(jt[0] == j[0]);
        assert(trim_start(jt) == jt);
        if s.len() > 0 && is_white_space(s[0]) {
            assert(sq =~= seq![' '] + jt);
            assert(sq[0] == ' ');
            assert(sq.drop_first() =~= jt);
            assert(trim_start(sq) == trim_start(sq.drop_first()));
        } else {
            assert(sq =~= jt);
        }
        assert(trim_start(sq) == jt);
        assert(j.last() == m.last().last());
        assert(trim_end(j) == j);
        if ps.last().len() == 0 {
            assert(jt.last() == ' ');
            assert(jt.drop_last() =~= j);
            assert(trim_end(jt) == trim_end(jt.drop_last()));
        } else {
            assert(jt =~= j);
        }
        assert(trim_end(jt) == j);
    }
}

/// The words of `chars`, each collected into a string.
pub fn split_words(chars: &Vec<char>) -> (words: Vec<String>)
    ensures
        words.deep_view() == words_of(chars@),
        join_with(words.deep_view(), ' ') == collapsed(chars@),
{
    proof {
        lemma_words_rejoin_to_collapsed(chars@);
    }
    let ghost keep = word_char();
    let ghost split = word_break();
    let ghost ch = same_char();
    let mut words: Vec<String> = Vec::new();
    let mut current: Vec<char> = Vec::new();
    let mut i: usize = 0;
    while i < chars.len()
        invariant
            i <= chars.len(),
            keep == word_char(),
            split == word_break(),
            ch == same_char(),
            runs(chars@.take(i as int), keep, split, ch).len() >= 1,
            current@ == runs(chars@.take(i as int), keep, split, ch).last(),
            words.deep_view() == nonempty(runs(chars@.take(i as int), keep, split, ch).drop_last()),
        decreases chars.len() - i,
    {
        let c = chars[i];
        let ghost before = chars@.take(i as int);
        let ghost ps = runs(before, keep, split, ch);
        proof {
            assert(chars@.take(i + 1) =~= before.push(c));
            lemma_runs_push(before, c, keep, split, ch);
        }
        if is_whitespace(c) {
            let ghost done = words.deep_view();
            if current.len() > 0 {
                let word = string_from_chars(current.as_slice());
                words.push(word);
                assert(words.deep_view() =~= done.push(current@));
            }
            current = Vec::new();
            assert(runs(chars@.take(i + 1), keep, split, ch).drop_last() =~= ps);
        } else {
            current.push(c);
            assert(runs(chars@.take(i + 1), keep, split, ch).drop_last() =~= ps.drop_last());
        }
        i = i + 1;
    }
    assert(chars@.take(chars.len() as int) =~= chars@);
    if current.len() > 0 {
        let ghost done = words.deep_view();
        let word = string_from_chars(current.as_slice());
        words.push(word);
        assert(words.deep_view() =~= done.push(current@));
    }
    words
}

} // verus!
