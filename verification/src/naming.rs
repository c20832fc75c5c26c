use vstd::prelude::*;

use crate::text::{
    ascii_lowercase, char_alphanumeric, char_lowercase, has_text, is_alphanumeric,
    is_white_space, join_with, lemma_join_bounds, lemma_join_extend_last, lemma_join_len, lemma_join_push,
    lemma_nonempty_from, lemma_nonempty_pieces, lemma_runs_keep_only, lemma_runs_len,
    lemma_runs_push, nonempty, runs, to_lowercase, trim, trim_end, trim_start, trimmed,
};

verus! {

/// Every character of `s` replaced by its lowercase mapping.
pub open spec fn lowered(s: Seq<char>) -> Seq<char>
    decreases s.len(),
{
    if s.len() == 0 {
        Seq::<char>::empty()
    } else {
        lowered(s.drop_last()) + char_lowercase(s.last())
    }
}

/// Each character of `lower` together with whether it is alphanumeric.
pub open spec fn marked(lower: Seq<char>) -> Seq<(char, bool)> {
    Seq::new(lower.len(), |i: int| (lower[i], char_alphanumeric(lower[i])))
}

/// A marked character that a file name keeps: one marked alphanumeric.
pub open spec fn name_keep() -> spec_fn((char, bool)) -> bool {
    |m: (char, bool)| m.1
}

/// A marked character that separates two parts of a file name: any one not
/// marked alphanumeric.
pub open spec fn name_break() -> spec_fn((char, bool)) -> bool {
    |m: (char, bool)| !m.1
}

/// The character of a marked character.
pub open spec fn mark_char() -> spec_fn((char, bool)) -> char {
    |m: (char, bool)| m.0
}

/// `s` without its trailing underscores.
pub open spec fn strip_underscores(s: Seq<char>) -> Seq<char>
    decreases s.len(),
{
    if s.len() > 0 && s.last() == '_' {
        strip_underscores(s.drop_last())
    } else {
        s
    }
}

/// The file stem from marked lowercase characters: the maximal runs of
/// characters marked alphanumeric, joined by a single `_` (each run of other
/// characters between two of them collapses to one `_`), with no `_` left at
/// the end.
pub open spec fn stem_of(marks: Seq<(char, bool)>) -> Seq<char> {
    strip_underscores(join_with(nonempty(runs(marks, name_keep(), name_break(), mark_char())), '_'))
}

/// The PNG file name with this stem, or with `image` where the stem is empty.
pub open spec fn name_with_stem(stem: Seq<char>) -> Seq<char> {
    (if stem.len() == 0 {
        seq!['i', 'm', 'a', 'g', 'e']
    } else {
        stem
    }) + seq!['.', 'p', 'n', 'g']
}

/// The PNG file name derived from a caption: the stem of its trimmed,
/// lowercased text, or `image` where that stem is empty, then `.png`.
pub open spec fn file_name_of(caption: Seq<char>) -> Seq<char> {
    name_with_stem(stem_of(marked(lowered(trim(caption)))))
}

/// The state of the stem while `seen` has been read: the joined runs so far,
/// plus one pending `_` after a separator that followed some text.
spec fn stem_state(seen: Seq<(char, bool)>, stem: Seq<char>, after_separator: bool) -> bool {
    let ps = runs(seen, name_keep(), name_break(), mark_char());
    let pieces = nonempty(ps);
    &&& after_separator == (ps.last().len() == 0 && pieces.len() > 0)
    &&& stem == if after_separator {
        join_with(pieces, '_').push('_')
    } else {
        join_with(pieces, '_')
    }
}

proof fn lemma_stem_state_start()
    ensures
        stem_state(Seq::<(char, bool)>::empty(), Seq::<char>::empty(), false),
{
    let ps = runs(Seq::<(char, bool)>::empty(), name_keep(), name_break(), mark_char());
    assert(ps =~= seq![Seq::<char>::empty()]);
    assert(ps.drop_last() =~= Seq::<Seq<char>>::empty());
    assert(nonempty(Seq::<Seq<char>>::empty()) == Seq::<Seq<char>>::empty());
    assert(nonempty(ps) == Seq::<Seq<char>>::empty());
}

/// Reads one more marked character into the stem.
fn push_stem_char(
    stem: &mut Vec<char>,
    after_separator: &mut bool,
    c: char,
    alphanumeric: bool,
    Ghost(seen): Ghost<Seq<(char, bool)>>,
)
    requires
        stem_state(seen, old(stem)@, *old(after_separator)),
    ensures
        stem_state(seen.push((c, alphanumeric)), final(stem)@, *final(after_separator)),
{
    let ghost keep = name_keep();
    let ghost split = name_break();
    let ghost ch = mark_char();
    let ghost ps = runs(seen, keep, split, ch);
    let ghost pieces = nonempty(ps);
    proof {
        lemma_runs_len(seen, keep, split, ch);
        lemma_runs_push(seen, (c, alphanumeric), keep, split, ch);
        lemma_nonempty_pieces(ps);
        lemma_join_len(pieces, '_');
    }
    if alphanumeric {
        stem.push(c);
        *after_separator = false;
        proof {
            let next = ps.update(ps.len() - 1, ps.last().push(c));
            assert(next.drop_last() =~= ps.drop_last());
            if ps.last().len() == 0 {
                assert(pieces == nonempty(ps.drop_last()));
                assert(ps.last().push(c) =~= seq![c]);
                assert(next.last() == seq![c]);
                lemma_join_push(pieces, seq![c], '_');
                assert(nonempty(next) == pieces.push(seq![c]));
                if pieces.len() > 0 {
                    assert(join_with(pieces, '_').push('_') + seq![c] =~= join_with(
                        pieces,
                        '_',
                    ).push('_').push(c));
                } else {
                    assert(stem@ =~= seq![c]);
                }
            } else {
                assert(pieces == nonempty(ps.drop_last()).push(ps.last()));
                assert(nonempty(next) =~= pieces.update(pieces.len() - 1, pieces.last().push(c)));
                lemma_join_extend_last(pieces, c, '_');
            }
            assert(next.last() == ps.last().push(c));
        }
    } else {
        let ghost next = ps.push(Seq::<char>::empty());
        assert(next.drop_last() =~= ps);
        assert(nonempty(next) == pieces);
        if stem.len() > 0 && !*after_separator {
            stem.push('_');
            *after_separator = true;
        }
    }
}

/// The PNG file name made from lowercase characters, each marked with
/// whether it is alphanumeric.
pub fn file_name_from_marked(marks: &[(char, bool)]) -> (name: Vec<char>)
    ensures
        name@ == name_with_stem(stem_of(marks@)),
{
    let mut stem: Vec<char> = Vec::new();
    let mut after_separator = false;
    proof {
        lemma_stem_state_start();
        assert(marks@.take(0) =~= Seq::<(char, bool)>::empty());
    }
    let mut i: usize = 0;
    while i < marks.len()
        invariant
            i <= marks@.len(),
            stem_state(marks@.take(i as int), stem@, after_separator),
        decreases marks@.len() - i,
    {
        let (c, alphanumeric) = marks[i];
        push_stem_char(
            &mut stem,
            &mut after_separator,
            c,
            alphanumeric,
            Ghost(marks@.take(i as int)),
        );
        assert(marks@.take(i + 1) =~= marks@.take(i as int).push((c, alphanumeric)));
        i = i + 1;
    }
    assert(marks@.take(marks@.len() as int) =~= marks@);
    let ghost joined = join_with(
        nonempty(runs(marks@, name_keep(), name_break(), mark_char())),
        '_',
    );
    assert(strip_underscores(stem@) == strip_underscores(joined)) by {
        if after_separator {
            assert(stem@.drop_last() =~= joined);
        }
    }
    while stem.len() > 0 && stem[stem.len() - 1] == '_'
        invariant
            strip_underscores(stem@) == strip_underscores(joined),
        decreases stem.len(),
    {
        stem.pop();
    }
    if stem.len() == 0 {
        stem.push('i');
        stem.push('m');
        stem.push('a');
        stem.push('g');
        stem.push('e');
    }
    stem.push('.');
    stem.push('p');
    stem.push('n');
    stem.push('g');
    stem
}

/// The PNG file name derived from the characters of a caption.
pub fn file_name_chars(caption: &Vec<char>) -> (name: Vec<char>)
    ensures
        name@ == file_name_of(caption@),
{
    let t = trimmed(caption);
    let mut lower: Vec<char> = Vec::new();
    let mut i: usize = 0;
    assert(t@.take(0) =~= Seq::<char>::empty());
    while i < t.len()
        invariant
            i <= t.len(),
            lower@ == lowered(t@.take(i as int)),
        decreases t.len() - i,
    {
        let mapped = to_lowercase(t[i]);
        let ghost before = lower@;
        let mut j: usize = 0;
        assert(before + mapped@.take(0) =~= before);
        while j < mapped.len()
            invariant
                j <= mapped.len(),
                lower@ == before + mapped@.take(j as int),
            decreases mapped.len() - j,
        {
            lower.push(mapped[j]);
            assert(before + mapped@.take(j + 1) =~= (before + mapped@.take(j as int)).push(
                mapped[j as int],
            ));
            j = j + 1;
        }
        assert(t@.take(i + 1).drop_last() =~= t@.take(i as int));
        assert(mapped@.take(mapped.len() as int) =~= mapped@);
        i = i + 1;
    }
    assert(t@.take(t.len() as int) =~= t@);
    let mut marks: Vec<(char, bool)> = Vec::new();
    let mut k: usize = 0;
    while k < lower.len()
        invariant
            k <= lower.len(),
            marks@ =~= marked(lower@).take(k as int),
        decreases lower.len() - k,
    {
        let c = lower[k];
        marks.push((c, is_alphanumeric(c)));
        k = k + 1;
    }
    assert(marked(lower@).take(lower.len() as int) =~= marked(lower@));
    file_name_from_marked(marks.as_slice())
}

/// A file stem that holds only alphanumeric characters and underscores that
/// stand between two alphanumeric characters.
pub open spec fn is_safe_stem(s: Seq<char>) -> bool {
    forall|i: int|
        #![trigger s[i]]
        0 <= i < s.len() ==> char_alphanumeric(s[i]) || (s[i] == '_' && 0 < i < s.len() - 1
            && char_alphanumeric(s[i - 1]) && char_alphanumeric(s[i + 1]))
}

/// Joining non-empty pieces of alphanumeric characters with `_` gives a
/// safe stem that is empty only when there is no piece.
proof fn lemma_join_safe(ps: Seq<Seq<char>>)
    requires
        forall|i: int| 0 <= i < ps.len() ==> #[trigger] ps[i].len() > 0,
        forall|i: int, j: int|
            0 <= i < ps.len() && 0 <= j < ps[i].len() ==> char_alphanumeric(#[trigger] ps[i][j]),
    ensures
        is_safe_stem(join_with(ps, '_')),
        ps.len() > 0 ==> char_alphanumeric(join_with(ps, '_').last()),
    decreases ps.len(),
{
    let joined = join_with(ps, '_');
    if ps.len() == 1 {
        assert(joined == ps[0]);
        assert forall|i: int| 0 <= i < joined.len() implies char_alphanumeric(joined[i]) by {
            assert(ps[0][i] == joined[i]);
        }
    } else if ps.len() > 1 {
        let front = ps.drop_last();
        let x = ps.last();
        assert forall|i: int| 0 <= i < front.len() implies #[trigger] front[i].len() > 0 by {
            assert(front[i] == ps[i]);
        }
        assert forall|i: int, j: int|
            0 <= i < front.len() && 0 <= j < front[i].len() implies char_alphanumeric(
            #[trigger] front[i][j],
        ) by {
            assert(front[i] == ps[i]);
        }
        lemma_join_safe(front);
        let head = join_with(front, '_');
        lemma_join_len(front, '_');
        assert(joined == head.push('_') + x);
        assert(x.len() > 0);
        assert forall|j: int| 0 <= j < x.len() implies char_alphanumeric(#[trigger] x[j]) by {
            assert(x[j] == ps[ps.len() - 1][j]);
        }
        assert forall|i: int| 0 <= i < joined.len() implies char_alphanumeric(#[trigger] joined[i])
            || (joined[i] == '_' && 0 < i < joined.len() - 1 && char_alphanumeric(joined[i - 1])
            && char_alphanumeric(joined[i + 1])) by {
            if i < head.len() {
                assert(joined[i] == head[i]);
                if !char_alphanumeric(head[i]) {
                    assert(head[i] == '_' && 0 < i < head.len() - 1);
                    assert(joined[i - 1] == head[i - 1]);
                    assert(joined[i + 1] == head[i + 1]);
                }
            } else if i == head.len() {
                assert(joined[i - 1] == head.last());
                assert(joined[i + 1] == x[0]);
            } else {
                assert(joined[i] == x[i - head.len() - 1]);
            }
        }
        assert(joined.last() == x.last());
    }
}

/// Removing trailing underscores from a safe stem leaves a safe stem.
proof fn lemma_strip_safe(s: Seq<char>)
    requires
        is_safe_stem(s),
    ensures
        is_safe_stem(strip_underscores(s)),
    decreases s.len(),
{
    if s.len() > 0 && s.last() == '_' {
        assert(char_alphanumeric(s[s.len() - 1]));
        let t = s.drop_last();
        assert forall|i: int| 0 <= i < t.len() implies char_alphanumeric(#[trigger] t[i]) by {
            assert(t[i] == s[i]);
        }
        lemma_strip_safe(t);
    }
}

/// A stem made from characters marked by whether they are alphanumeric is
/// safe: it holds only alphanumeric characters and single underscores
/// between them, never one at either end.
pub proof fn lemma_stem_is_safe(marks: Seq<(char, bool)>)
    requires
        forall|i: int| 0 <= i < marks.len() ==> (#[trigger] marks[i]).1 == char_alphanumeric(
            marks[i].0,
        ),
    ensures
        is_safe_stem(stem_of(marks)),
{
    let p = |c: char| char_alphanumeric(c);
    let ps = runs(marks, name_keep(), name_break(), mark_char());
    let pieces = nonempty(ps);
    lemma_runs_keep_only(marks, name_keep(), name_break(), mark_char(), p);
    lemma_nonempty_from(ps);
    lemma_nonempty_pieces(ps);
    assert forall|i: int, j: int|
        0 <= i < pieces.len() && 0 <= j < pieces[i].len() implies char_alphanumeric(
        #[trigger] pieces[i][j],
    ) by {
        let k = choose|k: int| 0 <= k < ps.len() && pieces[i] == ps[k];
        assert(pieces[i][j] == ps[k][j]);
        assert(p(ps[k][j]));
    }
    lemma_join_safe(pieces);
    lemma_strip_safe(join_with(pieces, '_'));
}

/// The file name of a caption is its safe stem, or `image` where the stem is
/// empty, followed by `.png`.
pub proof fn lemma_file_name_is_safe(caption: Seq<char>)
    ensures
        ({
            let stem = stem_of(marked(lowered(trim(caption))));
            &&& is_safe_stem(stem)
            &&& stem.len() > 0 ==> file_name_of(caption) == stem + seq!['.', 'p', 'n', 'g']
            &&& stem.len() == 0 ==> file_name_of(caption) == seq![
                'i',
                'm',
                'a',
                'g',
                'e',
                '.',
                'p',
                'n',
                'g',
            ]
        }),
{
    let marks = marked(lowered(trim(caption)));
    lemma_stem_is_safe(marks);
    assert(seq!['i', 'm', 'a', 'g', 'e'] + seq!['.', 'p', 'n', 'g'] =~= seq![
        'i',
        'm',
        'a',
        'g',
        'e',
        '.',
        'p',
        'n',
        'g',
    ]);
}

/// An ASCII character.
pub open spec fn is_ascii(c: char) -> bool {
    (c as u32) < 128
}

/// An ASCII character that is not an uppercase letter.
pub open spec fn is_lower_ascii(c: char) -> bool {
    (c as u32) < 128 && !('A' <= c <= 'Z')
}

/// A character that is its own lowercase mapping.
pub open spec fn lowers_to_itself(c: char) -> bool {
    char_lowercase(c) == seq![c]
}

/// An alphanumeric character that is its own lowercase mapping and is not
/// white space: one that a file stem keeps as it is when read again.
pub open spec fn is_name_char(c: char) -> bool {
    char_alphanumeric(c) && lowers_to_itself(c) && !is_white_space(c)
}

/// A character that may stand in a file stem read again: a name character
/// or an underscore.
pub open spec fn is_stem_char(c: char) -> bool {
    is_name_char(c) || c == '_'
}

/// Every alphanumeric character of `lower` is a name character.
pub open spec fn alphanumerics_settled(lower: Seq<char>) -> bool {
    forall|i: int|
        0 <= i < lower.len() && char_alphanumeric(#[trigger] lower[i]) ==> is_name_char(lower[i])
}

proof fn lemma_trim_start_keeps(s: Seq<char>, p: spec_fn(char) -> bool)
    requires
        forall|i: int| 0 <= i < s.len() ==> p(#[trigger] s[i]),
    ensures
        forall|i: int| 0 <= i < trim_start(s).len() ==> p(#[trigger] trim_start(s)[i]),
    decreases s.len(),
{
    if s.len() > 0 && is_white_space(s[0]) {
        let t = s.drop_first();
        assert forall|i: int| 0 <= i < t.len() implies p(#[trigger] t[i]) by {
            assert(t[i] == s[i + 1]);
        }
        lemma_trim_start_keeps(t, p);
        assert(trim_start(s) == trim_start(t));
    } else {
        assert(trim_start(s) == s);
    }
}

proof fn lemma_trim_end_keeps(s: Seq<char>, p: spec_fn(char) -> bool)
    requires
        forall|i: int| 0 <= i < s.len() ==> p(#[trigger] s[i]),
    ensures
        forall|i: int| 0 <= i < trim_end(s).len() ==> p(#[trigger] trim_end(s)[i]),
    decreases s.len(),
{
    if s.len() > 0 && is_white_space(s.last()) {
        let t = s.drop_last();
        assert forall|i: int| 0 <= i < t.len() implies p(#[trigger] t[i]) by {
            assert(t[i] == s[i]);
        }
        lemma_trim_end_keeps(t, p);
        assert(trim_end(s) == trim_end(t));
    } else {
        assert(trim_end(s) == s);
    }
}

/// Lowering ASCII text gives ASCII text without uppercase letters.
proof fn lemma_lowered_ascii(s: Seq<char>)
    requires
        forall|i: int| 0 <= i < s.len() ==> is_ascii(#[trigger] s[i]),
    ensures
        forall|i: int| 0 <= i < lowered(s).len() ==> is_lower_ascii(#[trigger] lowered(s)[i]),
    decreases s.len(),
{
    if s.len() > 0 {
        let front = s.drop_last();
        assert forall|i: int| 0 <= i < front.len() implies is_ascii(#[trigger] front[i]) by {
            assert(front[i] == s[i]);
        }
        lemma_lowered_ascii(front);
        let c = s.last();
        assert(is_ascii(s[s.len() - 1]));
        let l = ascii_lowercase(c);
        assert(is_lower_ascii(l));
        let r = lowered(front) + seq![l];
        assert(lowered(s) == r);
        assert forall|i: int| 0 <= i < r.len() implies is_lower_ascii(#[trigger] r[i]) by {
            if i < lowered(front).len() {
                assert(r[i] == lowered(front)[i]);
            }
        }
    }
}

/// Lowering text that has no uppercase ASCII letter, and nothing beyond ASCII,
/// changes nothing.
proof fn lemma_lowered_id(s: Seq<char>)
    requires
        forall|i: int| 0 <= i < s.len() ==> lowers_to_itself(#[trigger] s[i]),
    ensures
        lowered(s) == s,
    decreases s.len(),
{
    if s.len() > 0 {
        let front = s.drop_last();
        assert forall|i: int| 0 <= i < front.len() implies lowers_to_itself(#[trigger] front[i]) by {
            assert(front[i] == s[i]);
        }
        lemma_lowered_id(front);
        assert(lowers_to_itself(s[s.len() - 1]));
        assert(lowered(s) =~= s);
    }
}

proof fn lemma_marked_push(s: Seq<char>, c: char)
    ensures
        marked(s.push(c)) == marked(s).push((c, char_alphanumeric(c))),
{
    assert(marked(s.push(c)) =~= marked(s).push((c, char_alphanumeric(c))));
}

/// Reading more alphanumeric characters grows the last run by them.
proof fn lemma_runs_extend(s: Seq<char>, x: Seq<char>)
    requires
        forall|j: int| 0 <= j < x.len() ==> is_name_char(#[trigger] x[j]),
    ensures
        ({
            let ps = runs(marked(s), name_keep(), name_break(), mark_char());
            runs(marked(s + x), name_keep(), name_break(), mark_char()) == ps.update(
                ps.len() - 1,
                ps.last() + x,
            )
        }),
    decreases x.len(),
{
    let ps = runs(marked(s), name_keep(), name_break(), mark_char());
    lemma_runs_len(marked(s), name_keep(), name_break(), mark_char());
    if x.len() == 0 {
        assert(s + x =~= s);
        assert(ps.update(ps.len() - 1, ps.last() + x) =~= ps);
    } else {
        let front = x.drop_last();
        let c = x.last();
        assert forall|j: int| 0 <= j < front.len() implies is_name_char(#[trigger] front[j]) by {
            assert(front[j] == x[j]);
        }
        lemma_runs_extend(s, front);
        assert(is_name_char(x[x.len() - 1]));
        assert(char_alphanumeric(c));
        assert(s + x =~= (s + front).push(c));
        lemma_marked_push(s + front, c);
        lemma_runs_push(marked(s + front), (c, true), name_keep(), name_break(), mark_char());
        assert((ps.last() + front).push(c) =~= ps.last() + x);
        assert(ps.update(ps.len() - 1, ps.last() + front).update(
            ps.len() - 1,
            (ps.last() + front).push(c),
        ) =~= ps.update(ps.len() - 1, ps.last() + x));
    }
}

/// The text of pieces joined by `_`, each piece of lowercase letters and
/// digits, splits back into the same pieces.
proof fn lemma_runs_of_join(ps: Seq<Seq<char>>)
    requires
        forall|i: int| 0 <= i < ps.len() ==> #[trigger] ps[i].len() > 0,
        forall|i: int, j: int|
            0 <= i < ps.len() && 0 <= j < ps[i].len() ==> is_name_char(#[trigger] ps[i][j]),
    ensures
        nonempty(runs(marked(join_with(ps, '_')), name_keep(), name_break(), mark_char())) == ps,
    decreases ps.len(),
{
    let e = Seq::<char>::empty();
    let start = runs(marked(e), name_keep(), name_break(), mark_char());
    assert(marked(e) =~= Seq::<(char, bool)>::empty());
    assert(start =~= seq![e]);
    assert(nonempty(Seq::<Seq<char>>::empty()) == Seq::<Seq<char>>::empty());
    if ps.len() == 0 {
        assert(start.drop_last() =~= Seq::<Seq<char>>::empty());
    } else {
        let front = ps.drop_last();
        let x = ps.last();
        assert(ps =~= front.push(x));
        lemma_join_push(front, x, '_');
        assert forall|j: int| 0 <= j < x.len() implies is_name_char(#[trigger] x[j]) by {
            assert(x[j] == ps[ps.len() - 1][j]);
        }
        assert(x.len() > 0);
        if front.len() == 0 {
            lemma_runs_extend(e, x);
            assert(e + x =~= x);
            let r = start.update(0, e + x);
            assert(r =~= seq![x]);
            assert(r.drop_last() =~= Seq::<Seq<char>>::empty());
            assert(nonempty(r) == Seq::<Seq<char>>::empty().push(x));
            assert(seq![x] =~= ps);
        } else {
            assert forall|i: int| 0 <= i < front.len() implies #[trigger] front[i].len() > 0 by {
                assert(front[i] == ps[i]);
            }
            assert forall|i: int, j: int|
                0 <= i < front.len() && 0 <= j < front[i].len() implies is_name_char(
                #[trigger] front[i][j],
            ) by {
                assert(front[i] == ps[i]);
            }
            lemma_runs_of_join(front);
            let head = join_with(front, '_');
            let t = head.push('_');
            let rs = runs(marked(head), name_keep(), name_break(), mark_char());
            lemma_runs_len(marked(head), name_keep(), name_break(), mark_char());
            lemma_marked_push(head, '_');
            assert(!char_alphanumeric('_'));
            lemma_runs_push(marked(head), ('_', false), name_keep(), name_break(), mark_char());
            let rt = rs.push(e);
            assert(runs(marked(t), name_keep(), name_break(), mark_char()) == rt);
            lemma_runs_extend(t, x);
            let r = rt.update(rt.len() - 1, rt.last() + x);
            assert(r =~= rs.push(x));
            assert(rs.push(x).drop_last() =~= rs);
            assert(nonempty(rs.push(x)) == nonempty(rs).push(x));
        }
    }
}

/// Every character of pieces joined by `_` is an underscore or a character
/// of a piece.
proof fn lemma_join_chars(ps: Seq<Seq<char>>)
    requires
        forall|i: int, j: int|
            0 <= i < ps.len() && 0 <= j < ps[i].len() ==> is_name_char(#[trigger] ps[i][j]),
    ensures
        forall|k: int|
            0 <= k < join_with(ps, '_').len() ==> is_stem_char(#[trigger] join_with(ps, '_')[k]),
    decreases ps.len(),
{
    if ps.len() > 0 {
        let front = ps.drop_last();
        let x = ps.last();
        assert(ps =~= front.push(x));
        lemma_join_push(front, x, '_');
        assert forall|i: int, j: int|
            0 <= i < front.len() && 0 <= j < front[i].len() implies is_name_char(
            #[trigger] front[i][j],
        ) by {
            assert(front[i] == ps[i]);
        }
        lemma_join_chars(front);
        let joined = join_with(ps, '_');
        let head = join_with(front, '_');
        assert forall|k: int| 0 <= k < joined.len() implies is_stem_char(#[trigger] joined[k]) by {
            if front.len() == 0 {
                assert(joined[k] == ps[ps.len() - 1][k]);
            } else if k < head.len() {
                assert(joined[k] == head[k]);
            } else if k > head.len() {
                assert(joined[k] == ps[ps.len() - 1][k - head.len() - 1]);
            }
        }
    }
}

/// Pieces of lowercase letters and digits, joined by `_`, give back the same
/// text as a file stem.
proof fn lemma_stem_of_stem(ps: Seq<Seq<char>>)
    requires
        ps.len() > 0,
        forall|i: int| 0 <= i < ps.len() ==> #[trigger] ps[i].len() > 0,
        forall|i: int, j: int|
            0 <= i < ps.len() && 0 <= j < ps[i].len() ==> is_name_char(#[trigger] ps[i][j]),
    ensures
        has_text(join_with(ps, '_')),
        stem_of(marked(lowered(trim(join_with(ps, '_'))))) == join_with(ps, '_'),
{
    let s = join_with(ps, '_');
    lemma_join_bounds(ps, '_');
    lemma_join_chars(ps);
    assert(is_name_char(s[0]));
    assert(is_name_char(s[s.len() - 1]));
    assert(!is_white_space(s[0]));
    assert(trim_start(s) == s);
    assert(trim_end(s) == s);
    assert(lowers_to_itself('_'));
    assert forall|i: int| 0 <= i < s.len() implies lowers_to_itself(#[trigger] s[i]) by {
        assert(is_stem_char(s[i]));
    }
    lemma_lowered_id(s);
    lemma_runs_of_join(ps);
    assert(s.last() != '_');
}

/// Deriving a file name again from the stem of a derived name (the name
/// without `.png`) gives the same name, and the stem is itself a valid
/// caption, wherever each alphanumeric character of the lowered caption is
/// its own lowercase and not white space.
pub proof fn lemma_file_name_fixed_point(caption: Seq<char>)
    requires
        alphanumerics_settled(lowered(trim(caption))),
    ensures
        ({
            let name = file_name_of(caption);
            let stem = name.take(name.len() - 4);
            &&& name.len() > 4
            &&& has_text(stem)
            &&& file_name_of(stem) == name
        }),
{
    let t = trim(caption);
    let l = lowered(t);
    let m = marked(l);
    let rs = runs(m, name_keep(), name_break(), mark_char());
    let pieces = nonempty(rs);
    assert forall|i: int| 0 <= i < m.len() && name_keep()(#[trigger] m[i]) implies is_name_char(
        mark_char()(m[i]),
    ) by {
        assert(char_alphanumeric(l[i]));
    }
    lemma_runs_keep_only(m, name_keep(), name_break(), mark_char(), |c: char| is_name_char(c));
    lemma_nonempty_from(rs);
    lemma_nonempty_pieces(rs);
    assert forall|i: int, j: int|
        0 <= i < pieces.len() && 0 <= j < pieces[i].len() implies is_name_char(
        #[trigger] pieces[i][j],
    ) by {
        let k = choose|k: int| 0 <= k < rs.len() && pieces[i] == rs[k];
        assert(pieces[i][j] == rs[k][j]);
    }
    let joined = join_with(pieces, '_');
    lemma_join_len(pieces, '_');
    let image = seq!['i', 'm', 'a', 'g', 'e'];
    let png = seq!['.', 'p', 'n', 'g'];
    let again = if pieces.len() > 0 {
        pieces
    } else {
        seq![image]
    };
    assert forall|i: int| 0 <= i < again.len() implies #[trigger] again[i].len() > 0 by {}
    assert forall|i: int, j: int|
        0 <= i < again.len() && 0 <= j < again[i].len() implies is_name_char(
        #[trigger] again[i][j],
    ) by {
        if pieces.len() == 0 {
            assert(again[i] == image);
        }
    }
    if pieces.len() > 0 {
        lemma_join_bounds(pieces, '_');
        assert(joined.last() != '_');
        assert(stem_of(m) == joined);
    } else {
        assert(joined.len() == 0);
        assert(stem_of(m) == joined);
        assert(join_with(again, '_') == image);
    }
    let stem = join_with(again, '_');
    lemma_stem_of_stem(again);
    let name = file_name_of(caption);
    assert(name == stem + png);
    assert(name.take(name.len() - 4) =~= stem);
}

/// Deriving a file name again from the stem of a derived name gives the same
/// name for every ASCII caption.
pub proof fn lemma_file_name_fixed_point_ascii(caption: Seq<char>)
    requires
        forall|i: int| 0 <= i < caption.len() ==> is_ascii(#[trigger] caption[i]),
    ensures
        ({
            let name = file_name_of(caption);
            let stem = name.take(name.len() - 4);
            &&& name.len() > 4
            &&& has_text(stem)
            &&& file_name_of(stem) == name
        }),
{
    let p = |c: char| is_ascii(c);
    lemma_trim_start_keeps(caption, p);
    lemma_trim_end_keeps(trim_start(caption), p);
    let t = trim(caption);
    assert forall|i: int| 0 <= i < t.len() implies is_ascii(#[trigger] t[i]) by {
        assert(p(t[i]));
    }
    lemma_lowered_ascii(t);
    let l = lowered(t);
    assert forall|i: int| 0 <= i < l.len() && char_alphanumeric(#[trigger] l[i]) implies is_name_char(
        l[i],
    ) by {
        assert(is_lower_ascii(l[i]));
    }
    lemma_file_name_fixed_point(caption);
}

} // verus!
