//! The chord-change notation: parallel voices moving through equal
//! time steps.
//!
//! A string like `"C [E Eb] G"` lists parts separated by spaces. A
//! bare token is a single step; a bracketed group lists the steps of
//! one voice in sequence. Within a part, a note name starts a note for
//! one beat, `-` rests for one beat, and `_` stretches the previous
//! step by one beat. After interpretation every part is lengthened so
//! that all parts span the same number of beats.

use vstd::prelude::*;

use crate::pattern::TimeCode;
use crate::pattern::create_note;
use crate::pattern::note_events_spec;
use crate::play::TimedEvent;
use crate::play::sort_events;
use crate::play::sort_events_vec;

verus! {

/// One step of one voice: a note (or a rest) held for a number of
/// beats.
pub type Step = (Option<u8>, u8);

/// One voice: its steps in order.
pub type Part = Vec<Step>;

/// The whitespace that separates tokens inside a bracketed group.
pub open spec fn is_ws(c: char) -> bool {
    c == ' ' || c == '\t' || c == '\n' || c == '\r'
}

/// The first position at or after `i` holding whitespace, or the end.
pub open spec fn find_ws(s: Seq<char>, i: int) -> int
    decreases s.len() - i,
{
    if i < 0 || i >= s.len() {
        s.len() as int
    } else if is_ws(s[i]) {
        i
    } else {
        find_ws(s, i + 1)
    }
}

/// The first position at or after `i` holding a space, or the end.
pub open spec fn find_space(s: Seq<char>, i: int) -> int
    decreases s.len() - i,
{
    if i < 0 || i >= s.len() {
        s.len() as int
    } else if s[i] == ' ' {
        i
    } else {
        find_space(s, i + 1)
    }
}

/// The first position at or after `i` holding a closing bracket, or
/// the end.
pub open spec fn find_close(s: Seq<char>, i: int) -> int
    decreases s.len() - i,
{
    if i < 0 || i >= s.len() {
        s.len() as int
    } else if s[i] == ']' {
        i
    } else {
        find_close(s, i + 1)
    }
}

/// Where a search lands: between `i` and the end, at the first
/// position whose character satisfies the search.
proof fn lemma_find_ws_range(s: Seq<char>, i: int)
    requires
        0 <= i <= s.len(),
    ensures
        i <= find_ws(s, i) <= s.len(),
        forall|k: int| i <= k < find_ws(s, i) ==> !is_ws(s[k]),
        find_ws(s, i) < s.len() ==> is_ws(s[find_ws(s, i)]),
    decreases s.len() - i,
{
    if i < s.len() && !is_ws(s[i]) {
        lemma_find_ws_range(s, i + 1);
    }
}

/// Where a search lands: between `i` and the end, at the first
/// position whose character satisfies the search.
proof fn lemma_find_space_range(s: Seq<char>, i: int)
    requires
        0 <= i <= s.len(),
    ensures
        i <= find_space(s, i) <= s.len(),
        forall|k: int| i <= k < find_space(s, i) ==> s[k] != ' ',
        find_space(s, i) < s.len() ==> s[find_space(s, i)] == ' ',
    decreases s.len() - i,
{
    if i < s.len() && s[i] != ' ' {
        lemma_find_space_range(s, i + 1);
    }
}

/// Where a search lands: between `i` and the end, at the first
/// position whose character satisfies the search.
proof fn lemma_find_close_range(s: Seq<char>, i: int)
    requires
        0 <= i <= s.len(),
    ensures
        i <= find_close(s, i) <= s.len(),
        forall|k: int| i <= k < find_close(s, i) ==> s[k] != ']',
        find_close(s, i) < s.len() ==> s[find_close(s, i)] == ']',
    decreases s.len() - i,
{
    if i < s.len() && s[i] != ']' {
        lemma_find_close_range(s, i + 1);
    }
}

/// The whitespace-separated tokens of `s` from position `i` on.
pub open spec fn tokens_from(s: Seq<char>, i: int) -> Seq<Seq<char>>
    decreases s.len() - i, s.len() - i + 1,
        when 0 <= i
    via tokens_from_decreases
{
    if i >= s.len() {
        Seq::empty()
    } else if is_ws(s[i]) {
        tokens_from(s, i + 1)
    } else {
        seq![s.subrange(i, find_ws(s, i + 1))] + tokens_from(s, find_ws(s, i + 1))
    }
}

#[via_fn]
proof fn tokens_from_decreases(s: Seq<char>, i: int) {
    if 0 <= i && i < s.len() && !is_ws(s[i]) {
        lemma_find_ws_range(s, i + 1);
    }
}

/// The parts of a chord-change string from position `i` on: bare
/// tokens and bracketed groups, separated by spaces. A group without
/// its closing bracket is dropped with everything after it.
pub open spec fn parts_from(s: Seq<char>, i: int) -> Seq<Seq<Seq<char>>>
    decreases s.len() - i, s.len() - i + 1,
        when 0 <= i
    via parts_from_decreases
{
    if i >= s.len() {
        Seq::empty()
    } else if s[i] == ' ' {
        parts_from(s, i + 1)
    } else if s[i] == '[' {
        let j = find_close(s, i + 1);
        if j >= s.len() {
            Seq::empty()
        } else {
            seq![tokens_from(s.subrange(i + 1, j), 0)] + parts_from(s, j + 1)
        }
    } else {
        let j = find_space(s, i + 1);
        seq![seq![s.subrange(i, j)]] + parts_from(s, j)
    }
}

#[via_fn]
proof fn parts_from_decreases(s: Seq<char>, i: int) {
    if 0 <= i && i < s.len() && s[i] != ' ' {
        if s[i] == '[' {
            lemma_find_close_range(s, i + 1);
        } else {
            lemma_find_space_range(s, i + 1);
        }
    }
}

/// Decide [`is_ws`].
fn is_ws_char(c: char) -> (r: bool)
    ensures
        r == is_ws(c),
{
    c == ' ' || c == '\t' || c == '\n' || c == '\r'
}

/// Split the whitespace-separated tokens of one part.
pub fn steps<'a>(chord_change: &'a str) -> (r: Vec<&'a str>)
    ensures
        r@.len() == tokens_from(chord_change@, 0).len(),
        forall|k: int| 0 <= k < r@.len() ==> (#[trigger] r@[k])@ == tokens_from(chord_change@, 0)[k],
{
    let s = chord_change;
    let n = s.unicode_len();
    let mut r: Vec<&'a str> = Vec::new();
    let mut i: usize = 0;
    while i < n
        invariant
            0 <= i <= n == s@.len(),
            tokens_from(s@, 0) == r@.map_values(|t: &str| t@) + tokens_from(s@, i as int),
        decreases n - i,
    {
        let c = s.get_char(i);
        if is_ws_char(c) {
            i = i + 1;
        } else {
            let mut j: usize = i + 1;
            while j < n && !is_ws_char(s.get_char(j))
                invariant
                    i + 1 <= j <= n,
                    forall|k: int| i + 1 <= k < j ==> !is_ws(s@[k]),
                decreases n - j,
            {
                j = j + 1;
            }
            proof {
                lemma_find_ws_range(s@, i as int + 1);
                assert(find_ws(s@, i as int + 1) == j as int);
            }
            let tok = s.substring_char(i, j);
            let ghost r0 = r@;
            r.push(tok);
            proof {
                assert(r@.map_values(|t: &str| t@) =~= r0.map_values(|t: &str| t@).push(tok@));
                assert(tokens_from(s@, i as int) == seq![s@.subrange(i as int, j as int)]
                    + tokens_from(s@, j as int));
                assert(r0.map_values(|t: &str| t@) + tokens_from(s@, i as int) =~= r@.map_values(
                    |t: &str| t@,
                ) + tokens_from(s@, j as int));
            }
            i = j;
        }
    }
    proof {
        assert(tokens_from(s@, n as int) =~= Seq::<Seq<char>>::empty());
        assert(tokens_from(s@, 0) =~= r@.map_values(|t: &str| t@));
    }
    r
}

/// Split a chord-change string into its parts, each part a list of
/// tokens.
pub fn split_parts<'a>(chord_change_dsl: &'a str) -> (r: Vec<Vec<&'a str>>)
    ensures
        r@.map_values(|p: Vec<&'a str>| p@.map_values(|t: &str| t@)) == parts_from(
            chord_change_dsl@,
            0,
        ),
{
    let s = chord_change_dsl;
    let n = s.unicode_len();
    let mut r: Vec<Vec<&'a str>> = Vec::new();
    let mut i: usize = 0;
    while i < n
        invariant
            0 <= i <= n == s@.len(),
            parts_from(s@, 0) == r@.map_values(|p: Vec<&'a str>| p@.map_values(|t: &str| t@))
                + parts_from(s@, i as int),
        decreases n - i,
    {
        let c = s.get_char(i);
        if c == ' ' {
            i = i + 1;
        } else if c == '[' {
            let mut j: usize = i + 1;
            while j < n && s.get_char(j) != ']'
                invariant
                    i + 1 <= j <= n,
                    forall|k: int| i + 1 <= k < j ==> s@[k] != ']',
                decreases n - j,
            {
                j = j + 1;
            }
            proof {
                lemma_find_close_range(s@, i as int + 1);
                assert(find_close(s@, i as int + 1) == j as int);
            }
            if j >= n {
                proof {
                    assert(parts_from(s@, i as int) =~= Seq::<Seq<Seq<char>>>::empty());
                }
                i = n;
            } else {
                let inner = s.substring_char(i + 1, j);
                let toks = steps(inner);
                let ghost r0 = r@;
                r.push(toks);
                proof {
                    assert(toks@.map_values(|t: &str| t@) =~= tokens_from(
                        s@.subrange(i as int + 1, j as int),
                        0,
                    ));
                    assert(parts_from(s@, i as int) == seq![
                        tokens_from(s@.subrange(i as int + 1, j as int), 0),
                    ] + parts_from(s@, j as int + 1));
                    assert(r@.map_values(|p: Vec<&'a str>| p@.map_values(|t: &str| t@)) =~= r0
                        .map_values(|p: Vec<&'a str>| p@.map_values(|t: &str| t@)).push(
                        toks@.map_values(|t: &str| t@),
                    ));
                    assert(r0.map_values(|p: Vec<&'a str>| p@.map_values(|t: &str| t@))
                        + parts_from(s@, i as int) =~= r@.map_values(
                        |p: Vec<&'a str>| p@.map_values(|t: &str| t@),
                    ) + parts_from(s@, j as int + 1));
                }
                i = j + 1;
            }
        } else {
            let mut j: usize = i + 1;
            while j < n && s.get_char(j) != ' '
                invariant
                    i + 1 <= j <= n,
                    forall|k: int| i + 1 <= k < j ==> s@[k] != ' ',
                decreases n - j,
            {
                j = j + 1;
            }
            proof {
                lemma_find_space_range(s@, i as int + 1);
                assert(find_space(s@, i as int + 1) == j as int);
            }
            let tok = s.substring_char(i, j);
            let mut part: Vec<&'a str> = Vec::new();
            part.push(tok);
            let ghost r0 = r@;
            r.push(part);
            proof {
                assert(part@.map_values(|t: &str| t@) =~= seq![s@.subrange(i as int, j as int)]);
                assert(parts_from(s@, i as int) == seq![seq![s@.subrange(i as int, j as int)]]
                    + parts_from(s@, j as int));
                assert(r@.map_values(|p: Vec<&'a str>| p@.map_values(|t: &str| t@)) =~= r0
                    .map_values(|p: Vec<&'a str>| p@.map_values(|t: &str| t@)).push(
                    part@.map_values(|t: &str| t@),
                ));
                assert(r0.map_values(|p: Vec<&'a str>| p@.map_values(|t: &str| t@)) + parts_from(
                    s@,
                    i as int,
                ) =~= r@.map_values(|p: Vec<&'a str>| p@.map_values(|t: &str| t@)) + parts_from(
                    s@,
                    j as int,
                ));
            }
            i = j;
        }
    }
    proof {
        assert(parts_from(s@, n as int) =~= Seq::<Seq<Seq<char>>>::empty());
        assert(parts_from(s@, 0) =~= r@.map_values(|p: Vec<&'a str>| p@.map_values(|t: &str| t@)));
    }
    r
}

/// The pitch a note-name token stands for, in octave 4: `C` is 60, up
/// to `B` at 71, with sharp and flat spellings.
pub open spec fn note_of_token(t: Seq<char>) -> Option<u8> {
    if t.len() == 1 {
        if t[0] == 'C' {
            Some(60u8)
        } else if t[0] == 'D' {
            Some(62u8)
        } else if t[0] == 'E' {
            Some(64u8)
        } else if t[0] == 'F' {
            Some(65u8)
        } else if t[0] == 'G' {
            Some(67u8)
        } else if t[0] == 'A' {
            Some(69u8)
        } else if t[0] == 'B' {
            Some(71u8)
        } else {
            None
        }
    } else if t.len() == 2 && t[1] == '#' {
        if t[0] == 'C' {
            Some(61u8)
        } else if t[0] == 'D' {
            Some(63u8)
        } else if t[0] == 'F' {
            Some(66u8)
        } else if t[0] == 'G' {
            Some(68u8)
        } else if t[0] == 'A' {
            Some(70u8)
        } else {
            None
        }
    } else if t.len() == 2 && t[1] == 'b' {
        if t[0] == 'D' {
            Some(61u8)
        } else if t[0] == 'E' {
            Some(63u8)
        } else if t[0] == 'G' {
            Some(66u8)
        } else if t[0] == 'A' {
            Some(68u8)
        } else if t[0] == 'B' {
            Some(70u8)
        } else {
            None
        }
    } else {
        None
    }
}

/// The pitch a note-name token stands for, if any.
fn token_note(t: &str) -> (r: Option<u8>)
    ensures
        r == note_of_token(t@),
{
    let n = t.unicode_len();
    if n == 1 {
        let c = t.get_char(0);
        if c == 'C' {
            Some(60)
        } else if c == 'D' {
            Some(62)
        } else if c == 'E' {
            Some(64)
        } else if c == 'F' {
            Some(65)
        } else if c == 'G' {
            Some(67)
        } else if c == 'A' {
            Some(69)
        } else if c == 'B' {
            Some(71)
        } else {
            None
        }
    } else if n == 2 {
        let c0 = t.get_char(0);
        let c1 = t.get_char(1);
        if c1 == '#' {
            if c0 == 'C' {
                Some(61)
            } else if c0 == 'D' {
                Some(63)
            } else if c0 == 'F' {
                Some(66)
            } else if c0 == 'G' {
                Some(68)
            } else if c0 == 'A' {
                Some(70)
            } else {
                None
            }
        } else if c1 == 'b' {
            if c0 == 'D' {
                Some(61)
            } else if c0 == 'E' {
                Some(63)
            } else if c0 == 'G' {
                Some(66)
            } else if c0 == 'A' {
                Some(68)
            } else if c0 == 'B' {
                Some(70)
            } else {
                None
            }
        } else {
            None
        }
    } else {
        None
    }
}

/// What a token list means as a voice: note names and rests append a
/// one-beat step, an underscore stretches the previous step, anything
/// else is skipped.
pub open spec fn interpret_spec(toks: Seq<Seq<char>>) -> Seq<(Option<u8>, u8)>
    decreases toks.len(),
{
    if toks.len() == 0 {
        Seq::empty()
    } else {
        let prev = interpret_spec(toks.drop_last());
        let t = toks.last();
        if note_of_token(t) is Some {
            prev.push((note_of_token(t), 1u8))
        } else if t.len() == 1 && t[0] == '-' {
            prev.push((Option::<u8>::None, 1u8))
        } else if t.len() == 1 && t[0] == '_' {
            if prev.len() == 0 {
                prev
            } else {
                prev.update(prev.len() - 1, (prev.last().0, (prev.last().1 + 1) as u8))
            }
        } else {
            prev
        }
    }
}

/// Interpret the tokens of one part as its steps.
pub fn interpret(chord_steps: Vec<&str>) -> (res: Part)
    requires
        chord_steps@.len() <= 254,
    ensures
        res@ == interpret_spec(chord_steps@.map_values(|t: &str| t@)),
{
    let ghost views = chord_steps@.map_values(|t: &str| t@);
    let mut res: Part = Vec::new();
    let mut i: usize = 0;
    while i < chord_steps.len()
        invariant
            0 <= i <= chord_steps@.len(),
            views == chord_steps@.map_values(|t: &str| t@),
            res@ == interpret_spec(views.subrange(0, i as int)),
            forall|k: int| 0 <= k < res@.len() ==> (#[trigger] res@[k]).1 <= i,
        decreases chord_steps@.len() - i,
    {
        let ghost pre = views.subrange(0, i as int + 1);
        proof {
            assert(pre.drop_last() =~= views.subrange(0, i as int));
            assert(pre.last() == views[i as int]);
        }
        let t = chord_steps[i];
        let maybe = token_note(t);
        match maybe {
            Some(note) => {
                res.push((Some(note), 1));
            },
            None => {
                let n = t.unicode_len();
                if n == 1 {
                    let c = t.get_char(0);
                    if c == '-' {
                        res.push((None, 1));
                    } else if c == '_' {
                        if res.len() > 0 {
                            let last_idx = res.len() - 1;
                            let last = res[last_idx];
                            res.set(last_idx, (last.0, last.1 + 1));
                        }
                    }
                }
            },
        }
        i = i + 1;
    }
    proof {
        assert(views.subrange(0, views.len() as int) =~= views);
    }
    res
}

/// The beats a voice spans: the sum of its step durations.
pub open spec fn part_dur_sum(p: Seq<(Option<u8>, u8)>) -> int
    decreases p.len(),
{
    if p.len() == 0 {
        0
    } else {
        part_dur_sum(p.drop_last()) + p.last().1
    }
}

/// The longest span among a list of voices.
pub open spec fn max_part_sum(ps: Seq<Seq<(Option<u8>, u8)>>) -> int
    decreases ps.len(),
{
    if ps.len() == 0 {
        0
    } else if part_dur_sum(ps.last()) >= max_part_sum(ps.drop_last()) {
        part_dur_sum(ps.last())
    } else {
        max_part_sum(ps.drop_last())
    }
}

/// A voice stretched to span `m` beats: the deficit is added to its
/// final step. An empty voice stays empty.
pub open spec fn extend_part(p: Seq<(Option<u8>, u8)>, m: int) -> Seq<(Option<u8>, u8)> {
    if p.len() == 0 {
        p
    } else {
        p.update(p.len() - 1, (p.last().0, (p.last().1 + m - part_dur_sum(p)) as u8))
    }
}

/// The interpreted voices of a chord-change string, before
/// stretching.
pub open spec fn interpreted_parts(s: Seq<char>) -> Seq<Seq<(Option<u8>, u8)>> {
    parts_from(s, 0).map_values(|toks: Seq<Seq<char>>| interpret_spec(toks))
}

/// What a chord-change string means: its voices, each stretched to
/// the longest span among them.
pub open spec fn interpret_dsl_spec(s: Seq<char>) -> Seq<Seq<(Option<u8>, u8)>> {
    let parts = interpreted_parts(s);
    parts.map_values(|p: Seq<(Option<u8>, u8)>| extend_part(p, max_part_sum(parts)))
}

/// Interpretation spans at most one beat per token, every step lasts
/// at least one beat, and no step outlasts the token count.
pub proof fn lemma_interpret_bounds(toks: Seq<Seq<char>>)
    requires
        toks.len() <= 254,
    ensures
        interpret_spec(toks).len() <= toks.len(),
        part_dur_sum(interpret_spec(toks)) <= toks.len(),
        forall|k: int|
            0 <= k < interpret_spec(toks).len() ==> 1 <= (#[trigger] interpret_spec(toks)[k]).1
                <= toks.len(),
    decreases toks.len(),
{
    if toks.len() > 0 {
        lemma_interpret_bounds(toks.drop_last());
        let prev = interpret_spec(toks.drop_last());
        let t = toks.last();
        let cur = interpret_spec(toks);
        if note_of_token(t) is Some || (t.len() == 1 && t[0] == '-') {
            assert(cur.drop_last() =~= prev);
        } else if t.len() == 1 && t[0] == '_' && prev.len() > 0 {
            assert(part_dur_sum(cur) <= toks.len()) by {
                assert(cur =~= prev.drop_last().push(
                    (prev.last().0, (prev.last().1 + 1) as u8),
                ));
                assert(cur.drop_last() =~= prev.drop_last());
            }
        }
    }
}

/// Every voice spans at most the longest span.
proof fn lemma_max_part_sum_ge(ps: Seq<Seq<(Option<u8>, u8)>>, i: int)
    requires
        0 <= i < ps.len(),
    ensures
        part_dur_sum(ps[i]) <= max_part_sum(ps),
    decreases ps.len(),
{
    if i < ps.len() - 1 {
        lemma_max_part_sum_ge(ps.drop_last(), i);
        assert(ps.drop_last()[i] == ps[i]);
    }
}

/// A stretched voice spans exactly the requested beats.
proof fn lemma_extend_part_sum(p: Seq<(Option<u8>, u8)>, m: int)
    requires
        p.len() > 0,
        part_dur_sum(p) <= m,
        m <= 254,
        forall|k: int| 0 <= k < p.len() ==> 1 <= (#[trigger] p[k]).1,
    ensures
        part_dur_sum(extend_part(p, m)) == m,
{
    let q = extend_part(p, m);
    lemma_part_dur_sum_last(p);
    assert(p.last().1 + m - part_dur_sum(p) <= 254) by {
        lemma_part_dur_sum_nonneg(p.drop_last());
        assert(part_dur_sum(p) == part_dur_sum(p.drop_last()) + p.last().1);
    }
    assert(q =~= p.drop_last().push((p.last().0, (p.last().1 + m - part_dur_sum(p)) as u8)));
    assert(q.drop_last() =~= p.drop_last());
    assert(part_dur_sum(q) == part_dur_sum(p.drop_last()) + (p.last().1 + m - part_dur_sum(p)));
}

/// A voice of positive steps spans at least its final step.
proof fn lemma_part_dur_sum_last(p: Seq<(Option<u8>, u8)>)
    requires
        p.len() > 0,
        forall|k: int| 0 <= k < p.len() ==> 1 <= (#[trigger] p[k]).1,
    ensures
        part_dur_sum(p) >= p.last().1,
        part_dur_sum(p) >= 1,
{
    lemma_part_dur_sum_nonneg(p.drop_last());
}

/// Durations do not go below zero.
proof fn lemma_part_dur_sum_nonneg(p: Seq<(Option<u8>, u8)>)
    ensures
        part_dur_sum(p) >= 0,
    decreases p.len(),
{
    if p.len() > 0 {
        lemma_part_dur_sum_nonneg(p.drop_last());
    }
}

/// After interpretation, all voices of a chord-change string span the
/// same number of beats: the longest span among them. This holds
/// whenever every part interprets to at least one step.
pub proof fn lemma_dsl_durations_align(s: Seq<char>, i: int)
    requires
        0 <= i < interpret_dsl_spec(s).len(),
        forall|p: int| 0 <= p < parts_from(s, 0).len() ==> (#[trigger] parts_from(s, 0)[p]).len()
            <= 254,
        forall|p: int|
            0 <= p < parts_from(s, 0).len() ==> interpret_spec(#[trigger] parts_from(s, 0)[p]).len()
                > 0,
    ensures
        part_dur_sum(interpret_dsl_spec(s)[i]) == max_part_sum(interpreted_parts(s)),
{
    let parts = interpreted_parts(s);
    let m = max_part_sum(parts);
    lemma_interpret_bounds(parts_from(s, 0)[i]);
    lemma_max_part_sum_ge(parts, i);
    assert(m <= 254) by {
        lemma_max_part_sum_le(parts, parts_from(s, 0));
    }
    lemma_extend_part_sum(parts[i], m);
}

/// The longest span is bounded by the longest token list.
proof fn lemma_max_part_sum_le(ps: Seq<Seq<(Option<u8>, u8)>>, toks: Seq<Seq<Seq<char>>>)
    requires
        ps.len() == toks.len(),
        forall|p: int| 0 <= p < toks.len() ==> (#[trigger] toks[p]).len() <= 254,
        forall|p: int| 0 <= p < ps.len() ==> #[trigger] ps[p] == interpret_spec(toks[p]),
    ensures
        max_part_sum(ps) <= 254,
    decreases ps.len(),
{
    if ps.len() > 0 {
        lemma_max_part_sum_le(ps.drop_last(), toks.drop_last());
        lemma_interpret_bounds(toks.last());
        assert(ps.last() == interpret_spec(toks.last()));
    }
}

/// Interpret a chord-change string: split it into voices, interpret
/// each, and stretch every voice to the longest span.
pub fn interpret_dsl<'a>(chord_change_dsl: &'a str) -> (r: Vec<Part>)
    requires
        parts_from(chord_change_dsl@, 0).len() > 0,
        forall|p: int|
            0 <= p < parts_from(chord_change_dsl@, 0).len() ==> (#[trigger] parts_from(
                chord_change_dsl@,
                0,
            )[p]).len() <= 254,
    ensures
        r@.map_values(|p: Vec<(Option<u8>, u8)>| p@) == interpret_dsl_spec(chord_change_dsl@),
{
    let ghost pviews = parts_from(chord_change_dsl@, 0);
    let parts = split_parts(chord_change_dsl);
    let mut interpreted: Vec<Part> = Vec::new();
    let mut i: usize = 0;
    while i < parts.len()
        invariant
            0 <= i <= parts@.len(),
            pviews == parts@.map_values(|p: Vec<&'a str>| p@.map_values(|t: &str| t@)),
            pviews == parts_from(chord_change_dsl@, 0),
            interpreted@.len() == i,
            forall|k: int|
                0 <= k < i ==> (#[trigger] interpreted@[k])@ == interpret_spec(pviews[k]),
        decreases parts@.len() - i,
    {
        let ghost before = interpreted@;
        let toks = copy_token_vec(&parts[i]);
        proof {
            assert(toks@.map_values(|t: &str| t@) == pviews[i as int]);
        }
        let one = interpret(toks);
        interpreted.push(one);
        i = i + 1;
    }
    let ghost iviews = interpreted_parts(chord_change_dsl@);
    proof {
        assert(interpreted@.map_values(|p: Vec<(Option<u8>, u8)>| p@) =~= iviews);
    }
    let mut max_len: u8 = 0;
    let mut j: usize = 0;
    while j < interpreted.len()
        invariant
            0 <= j <= interpreted@.len(),
            interpreted@.map_values(|p: Vec<(Option<u8>, u8)>| p@) == iviews,
            interpreted@.len() == pviews.len(),
            iviews.len() == pviews.len(),
            pviews == parts_from(chord_change_dsl@, 0),
            max_len == max_part_sum(iviews.subrange(0, j as int)),
        decreases interpreted@.len() - j,
    {
        let ghost pre = iviews.subrange(0, j as int + 1);
        proof {
            assert(pre.drop_last() =~= iviews.subrange(0, j as int));
            assert(pre.last() == iviews[j as int]);
            assert(iviews[j as int] == interpret_spec(pviews[j as int]));
            lemma_interpret_bounds(pviews[j as int]);
        }
        let cur = part_sum(&interpreted[j]);
        if cur > max_len {
            max_len = cur;
        }
        j = j + 1;
    }
    proof {
        assert(iviews.subrange(0, iviews.len() as int) =~= iviews);
    }
    let mut out: Vec<Part> = Vec::new();
    let mut k: usize = 0;
    while k < interpreted.len()
        invariant
            0 <= k <= interpreted@.len(),
            interpreted@.len() == pviews.len(),
            iviews.len() == pviews.len(),
            pviews == parts_from(chord_change_dsl@, 0),
            max_len == max_part_sum(iviews),
            forall|p: int|
                0 <= p < interpreted@.len() ==> (#[trigger] interpreted@[p])@ == iviews[p],
            out@.len() == k,
            forall|p: int|
                0 <= p < k ==> (#[trigger] out@[p])@ == extend_part(
                    iviews[p],
                    max_part_sum(iviews),
                ),
        decreases interpreted@.len() - k,
    {
        proof {
            assert(iviews[k as int] == interpret_spec(pviews[k as int]));
            lemma_interpret_bounds(pviews[k as int]);
            lemma_max_part_sum_ge(iviews, k as int);
        }
        let cur = part_sum(&interpreted[k]);
        let mut q = copy_part(&interpreted[k]);
        let plen = q.len();
        if plen > 0 {
            let last = q[plen - 1];
            proof {
                lemma_part_dur_sum_last(q@);
            }
            let stretched = (last.0, last.1 + (max_len - cur));
            q.set(plen - 1, stretched);
        }
        proof {
            assert(q@ =~= extend_part(iviews[k as int], max_len as int));
        }
        out.push(q);
        k = k + 1;
    }
    proof {
        assert(out@.map_values(|p: Vec<(Option<u8>, u8)>| p@) =~= interpret_dsl_spec(
            chord_change_dsl@,
        ));
    }
    out
}

/// Copy one voice.
fn copy_part(p: &Vec<(Option<u8>, u8)>) -> (r: Vec<(Option<u8>, u8)>)
    ensures
        r@ == p@,
{
    let mut r: Vec<(Option<u8>, u8)> = Vec::new();
    let mut i: usize = 0;
    while i < p.len()
        invariant
            0 <= i <= p@.len(),
            r@ == p@.subrange(0, i as int),
        decreases p@.len() - i,
    {
        r.push(p[i]);
        proof {
            assert(r@ =~= p@.subrange(0, i as int + 1));
        }
        i = i + 1;
    }
    proof {
        assert(p@.subrange(0, p@.len() as int) =~= p@);
    }
    r
}

/// Copy a token vector.
fn copy_token_vec<'a>(v: &Vec<&'a str>) -> (r: Vec<&'a str>)
    ensures
        r@ == v@,
{
    let mut r: Vec<&'a str> = Vec::new();
    let mut i: usize = 0;
    while i < v.len()
        invariant
            0 <= i <= v@.len(),
            r@ == v@.subrange(0, i as int),
        decreases v@.len() - i,
    {
        r.push(v[i]);
        proof {
            assert(r@ =~= v@.subrange(0, i as int + 1));
        }
        i = i + 1;
    }
    proof {
        assert(v@.subrange(0, v@.len() as int) =~= v@);
    }
    r
}

/// The beats a voice spans, when that fits a byte.
fn part_sum(p: &Vec<(Option<u8>, u8)>) -> (r: u8)
    requires
        part_dur_sum(p@) <= 254,
    ensures
        r == part_dur_sum(p@),
{
    proof {
        lemma_part_dur_sum_nonneg(p@);
    }
    let mut r: u8 = 0;
    let mut i: usize = 0;
    while i < p.len()
        invariant
            0 <= i <= p@.len(),
            r == part_dur_sum(p@.subrange(0, i as int)),
            part_dur_sum(p@) <= 254,
        decreases p@.len() - i,
    {
        let ghost pre = p@.subrange(0, i as int + 1);
        proof {
            assert(pre.drop_last() =~= p@.subrange(0, i as int));
            lemma_part_sum_prefix_le(p@, i as int + 1);
            lemma_part_dur_sum_step_nonneg(p@, i as int);
        }
        r = r + p[i].1;
        i = i + 1;
    }
    proof {
        assert(p@.subrange(0, p@.len() as int) =~= p@);
    }
    r
}

/// A prefix never spans more than the whole.
proof fn lemma_part_sum_prefix_le(p: Seq<(Option<u8>, u8)>, k: int)
    requires
        0 <= k <= p.len(),
    ensures
        part_dur_sum(p.subrange(0, k)) <= part_dur_sum(p),
    decreases p.len() - k,
{
    if k == p.len() {
        assert(p.subrange(0, k) =~= p);
    } else {
        lemma_part_sum_prefix_le(p, k + 1);
        let a = p.subrange(0, k);
        let b = p.subrange(0, k + 1);
        assert(b.drop_last() =~= a);
        assert(part_dur_sum(b) == part_dur_sum(a) + p[k].1);
    }
}

/// Every step adds a non-negative duration.
proof fn lemma_part_dur_sum_step_nonneg(p: Seq<(Option<u8>, u8)>, k: int)
    requires
        0 <= k < p.len(),
    ensures
        part_dur_sum(p.subrange(0, k + 1)) == part_dur_sum(p.subrange(0, k)) + p[k].1,
{
    let b = p.subrange(0, k + 1);
    assert(b.drop_last() =~= p.subrange(0, k));
}

/// The events of one step starting at `(bar, beat, tick)`: nothing
/// for a rest; for a note, a note-on at the step's start and a
/// note-off held for all its bars but the last quarter of the final
/// bar, at velocity 100.
pub open spec fn step_events_spec(
    step: (Option<u8>, u8),
    bar: int,
    beat: int,
    tick: int,
    tpq: int,
) -> Seq<TimedEvent> {
    match step.0 {
        Some(note) => {
            let start = (bar * 4 + beat) * tpq + tick;
            let length = (step.1 - 1) * 4 * tpq + 3 * tpq;
            let pair = note_events_spec(start as u32, length as u32, 0u8, note, 100u8);
            seq![pair.0, pair.1]
        },
        None => Seq::empty(),
    }
}

/// Turn one step into timed events, returning also where the next
/// step begins: the same beat and tick, the step's bars later.
pub fn step_to_timed_midi_events(step: Step, offset: TimeCode, ticks_per_quarter: u32) -> (r: (
    Vec<TimedEvent>,
    TimeCode,
))
    requires
        step.1 >= 1,
        offset.bar_spec() + step.1 <= u32::MAX,
        (offset.bar_spec() + step.1) * 4 + offset.beat_spec() <= u32::MAX,
        ((offset.bar_spec() + step.1) * 4 + offset.beat_spec()) * ticks_per_quarter
            + offset.tick_spec() <= u32::MAX,
    ensures
        r.0@ == step_events_spec(
            step,
            offset.bar_spec() as int,
            offset.beat_spec() as int,
            offset.tick_spec() as int,
            ticks_per_quarter as int,
        ),
        r.1.bar_spec() == offset.bar_spec() + step.1,
        r.1.beat_spec() == offset.beat_spec(),
        r.1.tick_spec() == offset.tick_spec(),
{
    let (maybe_note, number_of_bars) = step;
    let end_time = offset.add(TimeCode::new(number_of_bars as u32, 0, 0));
    proof {
        let b = offset.bar_spec() as int;
        let beta = offset.beat_spec() as int;
        let tk = offset.tick_spec() as int;
        let d = step.1 as int;
        let t = ticks_per_quarter as int;
        assert((b * 4 + beta) * t + tk + ((d - 1) * 4 * t + 3 * t) <= ((b + d) * 4 + beta) * t
            + tk) by (nonlinear_arith)
            requires
                t >= 0,
                d >= 1,
        ;
        assert((b * 4 + beta) * t >= 0) by (nonlinear_arith)
            requires
                b >= 0,
                beta >= 0,
                t >= 0,
        ;
        assert((d - 1) * 4 * t >= 0) by (nonlinear_arith)
            requires
                d >= 1,
                t >= 0,
        ;
    }
    if let Some(note) = maybe_note {
        let last_bar_ticks = 3 * ticks_per_quarter;
        let additional_bar_ticks = (number_of_bars as u32 - 1) * 4 * ticks_per_quarter;
        let length = additional_bar_ticks + last_bar_ticks;
        let (on, off) = create_note(offset.ticks(ticks_per_quarter), length, 0, note, 100);
        let events = vec![on, off];
        proof {
            assert(events@ =~= step_events_spec(
                step,
                offset.bar_spec() as int,
                offset.beat_spec() as int,
                offset.tick_spec() as int,
                ticks_per_quarter as int,
            ));
        }
        (events, end_time)
    } else {
        (Vec::new(), end_time)
    }
}

/// The events of one voice from `(bar, beat, tick)` on: each step's
/// events, each step one or more bars after the one before.
pub open spec fn part_events_from(
    part: Seq<(Option<u8>, u8)>,
    bar: int,
    beat: int,
    tick: int,
    tpq: int,
) -> Seq<TimedEvent>
    decreases part.len(),
{
    if part.len() == 0 {
        Seq::empty()
    } else {
        step_events_spec(part[0], bar, beat, tick, tpq) + part_events_from(
            part.drop_first(),
            bar + part[0].1,
            beat,
            tick,
            tpq,
        )
    }
}

/// The bounds a voice owes the tick arithmetic: steps of at least one
/// bar, and a final instant that fits.
pub open spec fn part_fits(
    part: Seq<(Option<u8>, u8)>,
    bar: int,
    beat: int,
    tick: int,
    tpq: int,
) -> bool {
    &&& forall|k: int| 0 <= k < part.len() ==> (#[trigger] part[k]).1 >= 1
    &&& bar + part_dur_sum(part) <= u32::MAX
    &&& (bar + part_dur_sum(part)) * 4 + beat <= u32::MAX
    &&& ((bar + part_dur_sum(part)) * 4 + beat) * tpq + tick <= u32::MAX
}

/// Turn one voice into timed events.
pub fn part_to_timed_midi_events(part: &Part, offset: TimeCode, ticks_per_quarter: u32) -> (r: Vec<
    TimedEvent,
>)
    requires
        part_fits(
            part@,
            offset.bar_spec() as int,
            offset.beat_spec() as int,
            offset.tick_spec() as int,
            ticks_per_quarter as int,
        ),
    ensures
        r@ == part_events_from(
            part@,
            offset.bar_spec() as int,
            offset.beat_spec() as int,
            offset.tick_spec() as int,
            ticks_per_quarter as int,
        ),
{
    let ghost bar0 = offset.bar_spec() as int;
    let ghost beta = offset.beat_spec() as int;
    let ghost tk = offset.tick_spec() as int;
    let ghost t = ticks_per_quarter as int;
    let mut part_events: Vec<TimedEvent> = Vec::new();
    let mut current_time = offset;
    let mut i: usize = 0;
    proof {
        lemma_part_dur_sum_nonneg(part@);
        assert(part@.subrange(0, 0) =~= Seq::<(Option<u8>, u8)>::empty());
        assert(part@.subrange(0, part@.len() as int) =~= part@);
        assert(Seq::<TimedEvent>::empty() + part_events_from(part@, bar0, beta, tk, t)
            =~= part_events_from(part@, bar0, beta, tk, t));
    }
    while i < part.len()
        invariant
            0 <= i <= part@.len(),
            current_time.bar_spec() == bar0 + part_dur_sum(part@.subrange(0, i as int)),
            current_time.beat_spec() == beta,
            current_time.tick_spec() == tk,
            part_events_from(part@, bar0, beta, tk, t) == part_events@ + part_events_from(
                part@.subrange(i as int, part@.len() as int),
                current_time.bar_spec() as int,
                beta,
                tk,
                t,
            ),
        decreases part@.len() - i,
    {
        let step = part[i];
        let ghost rest = part@.subrange(i as int, part@.len() as int);
        proof {
            assert(rest[0] == part@[i as int]);
            assert(rest.drop_first() =~= part@.subrange(i as int + 1, part@.len() as int));
            lemma_part_dur_sum_step_nonneg(part@, i as int);
            lemma_part_sum_prefix_le(part@, i as int + 1);
            lemma_part_dur_sum_nonneg(part@.subrange(0, i as int));
            let sofar = part_dur_sum(part@.subrange(0, i as int));
            let d = step.1 as int;
            let total = part_dur_sum(part@);
            assert(((bar0 + sofar + d) * 4 + beta) * t + tk <= ((bar0 + total) * 4 + beta) * t
                + tk) by (nonlinear_arith)
                requires
                    sofar + d <= total,
                    bar0 >= 0,
                    t >= 0,
            ;
        }
        let (mut step_events, end_part) = step_to_timed_midi_events(
            step,
            current_time,
            ticks_per_quarter,
        );
        current_time = end_part;
        part_events.append(&mut step_events);
        i = i + 1;
    }
    proof {
        assert(part@.subrange(0, part@.len() as int) =~= part@);
        assert(part@.subrange(part@.len() as int, part@.len() as int) =~= Seq::<
            (Option<u8>, u8),
        >::empty());
        assert(part_events@ + Seq::<TimedEvent>::empty() =~= part_events@);
    }
    part_events
}

/// The events of several voices, each starting at the same instant,
/// concatenated in voice order.
pub open spec fn parts_events_concat(
    parts: Seq<Seq<(Option<u8>, u8)>>,
    bar: int,
    beat: int,
    tick: int,
    tpq: int,
) -> Seq<TimedEvent>
    decreases parts.len(),
{
    if parts.len() == 0 {
        Seq::empty()
    } else {
        parts_events_concat(parts.drop_last(), bar, beat, tick, tpq) + part_events_from(
            parts.last(),
            bar,
            beat,
            tick,
            tpq,
        )
    }
}

/// Turn several voices into one sorted event list.
pub fn parts_to_timed_midi_events(parts: &Vec<Part>, offset: TimeCode, ticks_per_quarter: u32) -> (
    r: Vec<TimedEvent>)
    requires
        forall|p: int|
            0 <= p < parts@.len() ==> part_fits(
                (#[trigger] parts@[p])@,
                offset.bar_spec() as int,
                offset.beat_spec() as int,
                offset.tick_spec() as int,
                ticks_per_quarter as int,
            ),
    ensures
        r@ == sort_events(
            parts_events_concat(
                parts@.map_values(|p: Vec<(Option<u8>, u8)>| p@),
                offset.bar_spec() as int,
                offset.beat_spec() as int,
                offset.tick_spec() as int,
                ticks_per_quarter as int,
            ),
        ),
{
    let ghost views = parts@.map_values(|p: Vec<(Option<u8>, u8)>| p@);
    let ghost bar0 = offset.bar_spec() as int;
    let ghost beta = offset.beat_spec() as int;
    let ghost tk = offset.tick_spec() as int;
    let ghost t = ticks_per_quarter as int;
    let mut all_events: Vec<TimedEvent> = Vec::new();
    let mut i: usize = 0;
    while i < parts.len()
        invariant
            0 <= i <= parts@.len(),
            views == parts@.map_values(|p: Vec<(Option<u8>, u8)>| p@),
            all_events@ == parts_events_concat(views.subrange(0, i as int), bar0, beta, tk, t),
        decreases parts@.len() - i,
    {
        let ghost pre = views.subrange(0, i as int + 1);
        proof {
            assert(pre.drop_last() =~= views.subrange(0, i as int));
            assert(pre.last() == views[i as int]);
        }
        let mut part_events = part_to_timed_midi_events(&parts[i], offset, ticks_per_quarter);
        all_events.append(&mut part_events);
        i = i + 1;
    }
    proof {
        assert(views.subrange(0, views.len() as int) =~= views);
    }
    sort_events_vec(&all_events)
}

} // verus!
