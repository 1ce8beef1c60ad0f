//! The chord catalogue and the chord recognizer.
//!
//! A `Chord` is a quality (one of 35 variants, including the one-note
//! `NoChord` quality) together with a root pitch class. Each quality has a
//! fixed ascending template of semitone offsets from the root. The
//! recognizer normalizes a non-empty collection of sounding pitches to a
//! root and a template, scans the catalogue in a fixed priority order,
//! and falls back to rotated (inverted) templates when no direct match
//! exists.

use vstd::prelude::*;

use crate::key::Key;
use crate::key::NOTE_A;
use crate::key::NOTE_B;
use crate::key::NOTE_BFLAT;
use crate::key::NOTE_C;
use crate::key::NOTE_D;
use crate::key::NOTE_DFLAT;
use crate::key::NOTE_E;
use crate::key::NOTE_EFLAT;
use crate::key::NOTE_F;
use crate::key::NOTE_FSHARP;
use crate::key::NOTE_G;
use crate::key::NOTE_GFLAT;
use crate::key::NOTE_AFLAT;
use crate::key::OCTAVE_STEPS;

verus! {

/// A labelled chord: a quality applied to a root pitch class.
#[derive(Clone, Copy, Debug, PartialEq, Eq, Structural)]
pub enum Chord {
    NoChord(Key),
    Major(Key),
    Minor(Key),
    Aug(Key),
    Dim(Key),
    Dim7(Key),
    Sus2(Key),
    Sus4(Key),
    Five(Key),
    SevenSus4(Key),
    Major6(Key),
    Minor6(Key),
    Major6_9(Key),
    Minor6_9(Key),
    Major7(Key),
    Major7_9(Key),
    Major7b9(Key),
    Major7Plus9(Key),
    Major7Plus11(Key),
    Major7b13(Key),
    Major7_13(Key),
    Major7Aug(Key),
    Minor7(Key),
    Minor7_9(Key),
    Minor7_11(Key),
    Major7b5(Key),
    Minor7b5(Key),
    MajorMaj7(Key),
    MajorMaj7_9(Key),
    MajorMaj7Plus11(Key),
    MajorMaj7Aug(Key),
    MinorMaj7(Key),
    MinorMaj7_9(Key),
    MajorAdd9(Key),
    MinorAdd9(Key),
}

impl Chord {
    /// The root pitch class of this chord.
    pub open spec fn key_spec(self) -> Key {
        match self {
            Chord::NoChord(k) => k,
            Chord::Major(k) => k,
            Chord::Minor(k) => k,
            Chord::Aug(k) => k,
            Chord::Dim(k) => k,
            Chord::Dim7(k) => k,
            Chord::Sus2(k) => k,
            Chord::Sus4(k) => k,
            Chord::Five(k) => k,
            Chord::SevenSus4(k) => k,
            Chord::Major6(k) => k,
            Chord::Minor6(k) => k,
            Chord::Major6_9(k) => k,
            Chord::Minor6_9(k) => k,
            Chord::Major7(k) => k,
            Chord::Major7_9(k) => k,
            Chord::Major7b9(k) => k,
            Chord::Major7Plus9(k) => k,
            Chord::Major7Plus11(k) => k,
            Chord::Major7b13(k) => k,
            Chord::Major7_13(k) => k,
            Chord::Major7Aug(k) => k,
            Chord::Minor7(k) => k,
            Chord::Minor7_9(k) => k,
            Chord::Minor7_11(k) => k,
            Chord::Major7b5(k) => k,
            Chord::Minor7b5(k) => k,
            Chord::MajorMaj7(k) => k,
            Chord::MajorMaj7_9(k) => k,
            Chord::MajorMaj7Plus11(k) => k,
            Chord::MajorMaj7Aug(k) => k,
            Chord::MinorMaj7(k) => k,
            Chord::MinorMaj7_9(k) => k,
            Chord::MajorAdd9(k) => k,
            Chord::MinorAdd9(k) => k,
        }
    }

    /// The root pitch class of this chord.
    pub fn key(&self) -> (k: &Key)
        ensures
            *k == self.key_spec(),
    {
        match self {
            Chord::NoChord(k) => k,
            Chord::Major(k) => k,
            Chord::Minor(k) => k,
            Chord::Aug(k) => k,
            Chord::Dim(k) => k,
            Chord::Dim7(k) => k,
            Chord::Sus2(k) => k,
            Chord::Sus4(k) => k,
            Chord::Five(k) => k,
            Chord::SevenSus4(k) => k,
            Chord::Major6(k) => k,
            Chord::Minor6(k) => k,
            Chord::Major6_9(k) => k,
            Chord::Minor6_9(k) => k,
            Chord::Major7(k) => k,
            Chord::Major7_9(k) => k,
            Chord::Major7b9(k) => k,
            Chord::Major7Plus9(k) => k,
            Chord::Major7Plus11(k) => k,
            Chord::Major7b13(k) => k,
            Chord::Major7_13(k) => k,
            Chord::Major7Aug(k) => k,
            Chord::Minor7(k) => k,
            Chord::Minor7_9(k) => k,
            Chord::Minor7_11(k) => k,
            Chord::Major7b5(k) => k,
            Chord::Minor7b5(k) => k,
            Chord::MajorMaj7(k) => k,
            Chord::MajorMaj7_9(k) => k,
            Chord::MajorMaj7Plus11(k) => k,
            Chord::MajorMaj7Aug(k) => k,
            Chord::MinorMaj7(k) => k,
            Chord::MinorMaj7_9(k) => k,
            Chord::MajorAdd9(k) => k,
            Chord::MinorAdd9(k) => k,
        }
    }

    /// The interval template of this chord's quality: the ascending
    /// semitone offsets from the root, always starting at 0.
    pub open spec fn template_spec(self) -> Seq<u8> {
        match self {
            Chord::NoChord(_) => seq![NOTE_C],
            Chord::Major(_) => seq![NOTE_C, NOTE_E, NOTE_G],
            Chord::Minor(_) => seq![NOTE_C, NOTE_EFLAT, NOTE_G],
            Chord::Aug(_) => seq![NOTE_C, NOTE_E, NOTE_AFLAT],
            Chord::Dim(_) => seq![NOTE_C, NOTE_EFLAT, NOTE_FSHARP],
            Chord::Dim7(_) => seq![NOTE_C, NOTE_EFLAT, NOTE_FSHARP, NOTE_A],
            Chord::Sus2(_) => seq![NOTE_C, NOTE_D, NOTE_G],
            Chord::Sus4(_) => seq![NOTE_C, NOTE_F, NOTE_G],
            Chord::Five(_) => seq![NOTE_C, NOTE_G],
            Chord::SevenSus4(_) => seq![NOTE_C, NOTE_F, NOTE_G, NOTE_BFLAT],
            Chord::Major6(_) => seq![NOTE_C, NOTE_E, NOTE_G, NOTE_A],
            Chord::Minor6(_) => seq![NOTE_C, NOTE_EFLAT, NOTE_G, NOTE_A],
            Chord::Major6_9(_) => seq![NOTE_C, NOTE_D, NOTE_E, NOTE_G, NOTE_A],
            Chord::Minor6_9(_) => seq![NOTE_C, NOTE_D, NOTE_EFLAT, NOTE_G, NOTE_A],
            Chord::Major7(_) => seq![NOTE_C, NOTE_E, NOTE_G, NOTE_BFLAT],
            Chord::Major7_9(_) => seq![NOTE_C, NOTE_D, NOTE_E, NOTE_G, NOTE_BFLAT],
            Chord::Major7b9(_) => seq![NOTE_C, NOTE_DFLAT, NOTE_E, NOTE_G, NOTE_BFLAT],
            Chord::Major7Plus9(_) => seq![NOTE_C, NOTE_EFLAT, NOTE_E, NOTE_G, NOTE_BFLAT],
            Chord::Major7Plus11(_) => seq![NOTE_C, NOTE_E, NOTE_FSHARP, NOTE_G, NOTE_BFLAT],
            Chord::Major7b13(_) => seq![NOTE_C, NOTE_E, NOTE_G, NOTE_AFLAT, NOTE_BFLAT],
            Chord::Major7_13(_) => seq![NOTE_C, NOTE_E, NOTE_G, NOTE_A, NOTE_BFLAT],
            Chord::Major7Aug(_) => seq![NOTE_C, NOTE_E, NOTE_AFLAT, NOTE_BFLAT],
            Chord::Minor7(_) => seq![NOTE_C, NOTE_EFLAT, NOTE_G, NOTE_BFLAT],
            Chord::Minor7_9(_) => seq![NOTE_C, NOTE_D, NOTE_EFLAT, NOTE_G, NOTE_BFLAT],
            Chord::Minor7_11(_) => seq![NOTE_C, NOTE_EFLAT, NOTE_F, NOTE_G, NOTE_BFLAT],
            Chord::Major7b5(_) => seq![NOTE_C, NOTE_E, NOTE_GFLAT, NOTE_BFLAT],
            Chord::Minor7b5(_) => seq![NOTE_C, NOTE_EFLAT, NOTE_GFLAT, NOTE_BFLAT],
            Chord::MajorMaj7(_) => seq![NOTE_C, NOTE_E, NOTE_G, NOTE_B],
            Chord::MajorMaj7_9(_) => seq![NOTE_C, NOTE_D, NOTE_E, NOTE_G, NOTE_B],
            Chord::MajorMaj7Plus11(_) => seq![NOTE_C, NOTE_E, NOTE_FSHARP, NOTE_G, NOTE_B],
            Chord::MajorMaj7Aug(_) => seq![NOTE_C, NOTE_E, NOTE_AFLAT, NOTE_B],
            Chord::MinorMaj7(_) => seq![NOTE_C, NOTE_EFLAT, NOTE_G, NOTE_B],
            Chord::MinorMaj7_9(_) => seq![NOTE_C, NOTE_D, NOTE_EFLAT, NOTE_G, NOTE_B],
            Chord::MajorAdd9(_) => seq![NOTE_C, NOTE_D, NOTE_E, NOTE_G],
            Chord::MinorAdd9(_) => seq![NOTE_C, NOTE_D, NOTE_EFLAT, NOTE_G],
        }
    }

    /// The interval template of this chord's quality.
    pub fn template(&self) -> (t: Vec<u8>)
        ensures
            t@ == self.template_spec(),
    {
        let t: Vec<u8> = match self {
            Chord::NoChord(_) => vec![NOTE_C],
            Chord::Major(_) => vec![NOTE_C, NOTE_E, NOTE_G],
            Chord::Minor(_) => vec![NOTE_C, NOTE_EFLAT, NOTE_G],
            Chord::Aug(_) => vec![NOTE_C, NOTE_E, NOTE_AFLAT],
            Chord::Dim(_) => vec![NOTE_C, NOTE_EFLAT, NOTE_FSHARP],
            Chord::Dim7(_) => vec![NOTE_C, NOTE_EFLAT, NOTE_FSHARP, NOTE_A],
            Chord::Sus2(_) => vec![NOTE_C, NOTE_D, NOTE_G],
            Chord::Sus4(_) => vec![NOTE_C, NOTE_F, NOTE_G],
            Chord::Five(_) => vec![NOTE_C, NOTE_G],
            Chord::SevenSus4(_) => vec![NOTE_C, NOTE_F, NOTE_G, NOTE_BFLAT],
            Chord::Major6(_) => vec![NOTE_C, NOTE_E, NOTE_G, NOTE_A],
            Chord::Minor6(_) => vec![NOTE_C, NOTE_EFLAT, NOTE_G, NOTE_A],
            Chord::Major6_9(_) => vec![NOTE_C, NOTE_D, NOTE_E, NOTE_G, NOTE_A],
            Chord::Minor6_9(_) => vec![NOTE_C, NOTE_D, NOTE_EFLAT, NOTE_G, NOTE_A],
            Chord::Major7(_) => vec![NOTE_C, NOTE_E, NOTE_G, NOTE_BFLAT],
            Chord::Major7_9(_) => vec![NOTE_C, NOTE_D, NOTE_E, NOTE_G, NOTE_BFLAT],
            Chord::Major7b9(_) => vec![NOTE_C, NOTE_DFLAT, NOTE_E, NOTE_G, NOTE_BFLAT],
            Chord::Major7Plus9(_) => vec![NOTE_C, NOTE_EFLAT, NOTE_E, NOTE_G, NOTE_BFLAT],
            Chord::Major7Plus11(_) => vec![NOTE_C, NOTE_E, NOTE_FSHARP, NOTE_G, NOTE_BFLAT],
            Chord::Major7b13(_) => vec![NOTE_C, NOTE_E, NOTE_G, NOTE_AFLAT, NOTE_BFLAT],
            Chord::Major7_13(_) => vec![NOTE_C, NOTE_E, NOTE_G, NOTE_A, NOTE_BFLAT],
            Chord::Major7Aug(_) => vec![NOTE_C, NOTE_E, NOTE_AFLAT, NOTE_BFLAT],
            Chord::Minor7(_) => vec![NOTE_C, NOTE_EFLAT, NOTE_G, NOTE_BFLAT],
            Chord::Minor7_9(_) => vec![NOTE_C, NOTE_D, NOTE_EFLAT, NOTE_G, NOTE_BFLAT],
            Chord::Minor7_11(_) => vec![NOTE_C, NOTE_EFLAT, NOTE_F, NOTE_G, NOTE_BFLAT],
            Chord::Major7b5(_) => vec![NOTE_C, NOTE_E, NOTE_GFLAT, NOTE_BFLAT],
            Chord::Minor7b5(_) => vec![NOTE_C, NOTE_EFLAT, NOTE_GFLAT, NOTE_BFLAT],
            Chord::MajorMaj7(_) => vec![NOTE_C, NOTE_E, NOTE_G, NOTE_B],
            Chord::MajorMaj7_9(_) => vec![NOTE_C, NOTE_D, NOTE_E, NOTE_G, NOTE_B],
            Chord::MajorMaj7Plus11(_) => vec![NOTE_C, NOTE_E, NOTE_FSHARP, NOTE_G, NOTE_B],
            Chord::MajorMaj7Aug(_) => vec![NOTE_C, NOTE_E, NOTE_AFLAT, NOTE_B],
            Chord::MinorMaj7(_) => vec![NOTE_C, NOTE_EFLAT, NOTE_G, NOTE_B],
            Chord::MinorMaj7_9(_) => vec![NOTE_C, NOTE_D, NOTE_EFLAT, NOTE_G, NOTE_B],
            Chord::MajorAdd9(_) => vec![NOTE_C, NOTE_D, NOTE_E, NOTE_G],
            Chord::MinorAdd9(_) => vec![NOTE_C, NOTE_D, NOTE_EFLAT, NOTE_G],
        };
        proof {
            assert(t@ =~= self.template_spec());
        }
        t
    }

    /// Whether the proposed template is exactly this quality's template.
    pub fn matches(&self, proposed: &Vec<u8>) -> (r: bool)
        ensures
            r == (self.template_spec() == proposed@),
    {
        let t = self.template();
        if t.len() != proposed.len() {
            proof {
                assert(self.template_spec() != proposed@);
            }
            return false;
        }
        let n = t.len();
        let mut i: usize = 0;
        while i < n
            invariant
                n == t.len() == proposed.len(),
                t@ == self.template_spec(),
                0 <= i <= n,
                forall|j: int| 0 <= j < i ==> t@[j] == proposed@[j],
            decreases n - i,
        {
            if t[i] != proposed[i] {
                proof {
                    assert(self.template_spec() != proposed@);
                }
                return false;
            }
            i = i + 1;
        }
        proof {
            assert(self.template_spec() =~= proposed@);
        }
        true
    }
}

/// `x` inserted in front of the first element of `s` that is not below
/// it; `s` is meant to be ascending, and the result then is too.
pub open spec fn insert_sorted_u8(x: u8, s: Seq<u8>) -> Seq<u8>
    decreases s.len(),
{
    if s.len() == 0 {
        seq![x]
    } else if x <= s[0] {
        seq![x] + s
    } else {
        seq![s[0]] + insert_sorted_u8(x, s.drop_first())
    }
}

/// Insertion sort of a byte sequence, ascending.
pub open spec fn sort_u8(s: Seq<u8>) -> Seq<u8>
    decreases s.len(),
{
    if s.len() == 0 {
        Seq::empty()
    } else {
        insert_sorted_u8(s[0], sort_u8(s.drop_first()))
    }
}

/// `s` with runs of equal adjacent elements collapsed to one element.
pub open spec fn dedup_sorted(s: Seq<u8>) -> Seq<u8>
    decreases s.len(),
{
    if s.len() <= 1 {
        s
    } else if s[s.len() - 1] == s[s.len() - 2] {
        dedup_sorted(s.drop_last())
    } else {
        dedup_sorted(s.drop_last()) + seq![s.last()]
    }
}

/// Each element of `s` replaced by its semitone distance from `root`,
/// reduced modulo one octave. Meaningful when no element is below `root`.
pub open spec fn offsets_from(s: Seq<u8>, root: u8) -> Seq<u8>
    decreases s.len(),
{
    if s.len() == 0 {
        Seq::empty()
    } else {
        offsets_from(s.drop_last(), root).push((((s.last() - root) % (OCTAVE_STEPS as int)) as u8))
    }
}

/// The root pitch class of a non-empty pitch collection: its lowest
/// pitch reduced to a class.
pub open spec fn root_key_of(s: Seq<u8>) -> Key {
    Key((sort_u8(s)[0] as int % OCTAVE_STEPS as int) as u8)
}

/// The normalized template of a non-empty pitch collection: sorted,
/// taken relative to the lowest pitch modulo an octave, sorted again and
/// deduplicated.
pub open spec fn normal_template_of(s: Seq<u8>) -> Seq<u8> {
    dedup_sorted(sort_u8(offsets_from(sort_u8(s), sort_u8(s)[0])))
}

/// How [`insert_sorted_u8`] relates to splitting the sequence at the
/// insertion point: if everything before `p` is below `x` and the
/// element at `p` (if any) is not, the insertion goes exactly there.
proof fn lemma_insert_sorted_at(x: u8, s: Seq<u8>, p: int)
    requires
        0 <= p <= s.len(),
        forall|j: int| 0 <= j < p ==> s[j] < x,
        p < s.len() ==> x <= s[p],
    ensures
        insert_sorted_u8(x, s) =~= s.subrange(0, p) + seq![x] + s.subrange(p, s.len() as int),
    decreases p,
{
    if p == 0 {
        if s.len() == 0 {
            assert(insert_sorted_u8(x, s) =~= seq![x]);
        } else {
            assert(insert_sorted_u8(x, s) =~= seq![x] + s);
        }
    } else {
        let rest = s.drop_first();
        lemma_insert_sorted_at(x, rest, p - 1);
        assert(rest.subrange(0, p - 1) =~= s.subrange(1, p));
        assert(rest.subrange(p - 1, rest.len() as int) =~= s.subrange(p, s.len() as int));
        assert(seq![s[0]] + insert_sorted_u8(x, rest) =~= s.subrange(0, p) + seq![x] + s.subrange(
            p,
            s.len() as int,
        ));
    }
}

/// Insert `x` into the ascending vector `v`, keeping it ascending, at
/// the position [`insert_sorted_u8`] describes.
fn insert_sorted_vec(v: &mut Vec<u8>, x: u8)
    requires
        old(v).len() < usize::MAX,
    ensures
        final(v)@ == insert_sorted_u8(x, old(v)@),
{
    let mut p: usize = 0;
    while p < v.len() && v[p] < x
        invariant
            0 <= p <= v.len(),
            v@ == old(v)@,
            v.len() < usize::MAX,
            forall|j: int| 0 <= j < p ==> v@[j] < x,
        decreases v.len() - p,
    {
        p = p + 1;
    }
    proof {
        lemma_insert_sorted_at(x, v@, p as int);
    }
    v.insert(p, x);
    proof {
        assert(v@ =~= old(v)@.subrange(0, p as int) + seq![x] + old(v)@.subrange(
            p as int,
            old(v)@.len() as int,
        ));
    }
}

/// Sort a byte vector ascending; the result is [`sort_u8`] of the input.
pub fn sort_u8_vec(v: &Vec<u8>) -> (r: Vec<u8>)
    ensures
        r@ == sort_u8(v@),
{
    let mut r: Vec<u8> = Vec::new();
    let mut i: usize = v.len();
    while i > 0
        invariant
            0 <= i <= v.len(),
            r.len() == v.len() - i,
            r@ == sort_u8(v@.subrange(i as int, v.len() as int)),
        decreases i,
    {
        i = i - 1;
        let ghost pre = v@.subrange(i as int, v@.len() as int);
        let ghost r0 = r@;
        proof {
            assert(pre.drop_first() =~= v@.subrange(i as int + 1, v@.len() as int));
            assert(sort_u8(pre) == insert_sorted_u8(pre[0], sort_u8(pre.drop_first())));
        }
        insert_sorted_vec(&mut r, v[i]);
        proof {
            lemma_insert_sorted_u8_len(v@[i as int], r0);
        }
    }
    proof {
        assert(v@.subrange(0, v@.len() as int) =~= v@);
    }
    r
}

/// Collapse runs of equal adjacent elements of `v` to one element; the
/// result is [`dedup_sorted`] of the input.
pub fn dedup_sorted_vec(v: &Vec<u8>) -> (r: Vec<u8>)
    ensures
        r@ == dedup_sorted(v@),
{
    let mut r: Vec<u8> = Vec::new();
    let mut i: usize = 0;
    while i < v.len()
        invariant
            0 <= i <= v.len(),
            r@ == dedup_sorted(v@.subrange(0, i as int)),
        decreases v.len() - i,
    {
        let ghost pre = v@.subrange(0, i as int + 1);
        proof {
            assert(pre.drop_last() =~= v@.subrange(0, i as int));
        }
        if i == 0 || v[i] != v[i - 1] {
            r.push(v[i]);
            proof {
                if i > 0 {
                    assert(r@ =~= dedup_sorted(v@.subrange(0, i as int)) + seq![pre.last()]);
                } else {
                    assert(dedup_sorted(pre) =~= pre);
                    assert(r@ =~= pre);
                }
            }
        }
        i = i + 1;
    }
    proof {
        assert(v@.subrange(0, v@.len() as int) =~= v@);
    }
    r
}

/// Normalize a non-empty pitch collection to its root pitch class and
/// its deduplicated ascending offset template.
pub fn chord_template(chord: Vec<u8>) -> (r: (Key, Vec<u8>))
    requires
        chord.len() > 0,
    ensures
        r.0 == root_key_of(chord@),
        r.1@ == normal_template_of(chord@),
{
    let sorted = sort_u8_vec(&chord);
    proof {
        lemma_sort_u8_len(chord@);
        lemma_sort_u8_sorted(chord@);
    }
    let root = sorted[0];
    let key = Key(root % OCTAVE_STEPS);
    let mut mapped: Vec<u8> = Vec::new();
    let mut i: usize = 0;
    while i < sorted.len()
        invariant
            0 <= i <= sorted.len(),
            sorted@ == sort_u8(chord@),
            sorted.len() > 0,
            root == sorted@[0],
            is_ascending(sorted@),
            mapped@ == offsets_from(sorted@.subrange(0, i as int), root),
        decreases sorted.len() - i,
    {
        let ghost pre = sorted@.subrange(0, i as int + 1);
        proof {
            assert(pre.drop_last() =~= sorted@.subrange(0, i as int));
            assert(sorted@[0] <= sorted@[i as int]);
        }
        mapped.push((sorted[i] - root) % OCTAVE_STEPS);
        i = i + 1;
    }
    proof {
        assert(sorted@.subrange(0, sorted@.len() as int) =~= sorted@);
    }
    let template = dedup_sorted_vec(&sort_u8_vec(&mapped));
    (key, template)
}

/// Sorting keeps the length.
pub proof fn lemma_insert_sorted_u8_len(x: u8, s: Seq<u8>)
    ensures
        insert_sorted_u8(x, s).len() == s.len() + 1,
    decreases s.len(),
{
    if s.len() > 0 && x > s[0] {
        lemma_insert_sorted_u8_len(x, s.drop_first());
    }
}

/// Sorting keeps the length.
pub proof fn lemma_sort_u8_len(s: Seq<u8>)
    ensures
        sort_u8(s).len() == s.len(),
    decreases s.len(),
{
    if s.len() > 0 {
        lemma_sort_u8_len(s.drop_first());
        lemma_insert_sorted_u8_len(s[0], sort_u8(s.drop_first()));
    }
}

/// The ascending order of a byte sequence.
pub open spec fn is_ascending(s: Seq<u8>) -> bool {
    forall|i: int, j: int| 0 <= i <= j < s.len() ==> s[i] <= s[j]
}

proof fn lemma_insert_sorted_u8_sorted(x: u8, s: Seq<u8>)
    requires
        is_ascending(s),
    ensures
        is_ascending(insert_sorted_u8(x, s)),
        forall|j: int|
            0 <= j < insert_sorted_u8(x, s).len() ==> (x <= insert_sorted_u8(x, s)[j] || (s.len()
                > 0 && s[0] <= insert_sorted_u8(x, s)[j])),
    decreases s.len(),
{
    if s.len() == 0 {
    } else if x <= s[0] {
        let r = seq![x] + s;
        assert(forall|i: int, j: int| 0 <= i <= j < r.len() ==> r[i] <= r[j]);
    } else {
        let rest = s.drop_first();
        assert(is_ascending(rest));
        lemma_insert_sorted_u8_sorted(x, rest);
        let inner = insert_sorted_u8(x, rest);
        let r = seq![s[0]] + inner;
        lemma_insert_sorted_u8_len(x, rest);
        assert forall|i: int, j: int| 0 <= i <= j < r.len() implies r[i] <= r[j] by {
            if i == 0 && j > 0 {
                if rest.len() > 0 {
                    assert(x <= inner[j - 1] || rest[0] <= inner[j - 1]);
                    assert(rest[0] == s[1]);
                    assert(s[0] <= s[1]);
                } else {
                    assert(x <= inner[j - 1]);
                }
                assert(s[0] <= r[j]);
            }
        }
    }
}

/// What sorting promises here: an ascending sequence over the same
/// elements.
pub proof fn lemma_sort_u8_sorted(s: Seq<u8>)
    ensures
        is_ascending(sort_u8(s)),
    decreases s.len(),
{
    if s.len() == 0 {
    } else {
        let rest = s.drop_first();
        lemma_sort_u8_sorted(rest);
        lemma_insert_sorted_u8_sorted(s[0], sort_u8(rest));
    }
}

/// Every catalogue template is non-empty and lies below one octave.
proof fn lemma_template_in_range(c: Chord)
    ensures
        1 <= c.template_spec().len() <= 5,
        forall|j: int| 0 <= j < c.template_spec().len() ==> c.template_spec()[j] < OCTAVE_STEPS,
{
}

/// The pitch numbers of a chord's tones before sorting: the template
/// offset at each position, moved to the base octave above `octave`,
/// with the first `inversion` positions raised one octave more.
pub open spec fn raw_notes(t: Seq<u8>, root: u8, octave: u8, inversion: u8) -> Seq<u8>
    decreases t.len(),
{
    if t.len() == 0 {
        Seq::empty()
    } else {
        raw_notes(t.drop_last(), root, octave, inversion).push(
            (t.last() + root + (1 + octave + (if t.len() - 1 < inversion {
                1int
            } else {
                0int
            })) * OCTAVE_STEPS) as u8,
        )
    }
}

/// The sounding pitch numbers of a chord at an octave and inversion,
/// ascending.
pub open spec fn notes_spec(c: Chord, octave: u8, inversion: u8) -> Seq<u8> {
    sort_u8(raw_notes(c.template_spec(), c.key_spec().0, octave, inversion))
}

impl Chord {
    /// The sounding pitch numbers of this chord at the given octave and
    /// inversion, ascending. `inversion` raises the lowest `inversion`
    /// tones by one octave; an inversion at or above the tone count
    /// raises them all.
    pub fn notes(&self, octave: u8, inversion: u8) -> (res: Vec<u8>)
        requires
            self.key_spec().wf(),
            octave <= 17,
        ensures
            res@ == notes_spec(*self, octave, inversion),
    {
        let t = self.template();
        proof {
            lemma_template_in_range(*self);
        }
        let root = self.key().0;
        let mut raw: Vec<u8> = Vec::new();
        let mut j: usize = 0;
        while j < t.len()
            invariant
                0 <= j <= t.len(),
                t@ == self.template_spec(),
                root == self.key_spec().0,
                root < OCTAVE_STEPS,
                octave <= 17,
                forall|m: int| 0 <= m < t@.len() ==> t@[m] < OCTAVE_STEPS,
                raw@ == raw_notes(t@.subrange(0, j as int), root, octave, inversion),
            decreases t.len() - j,
        {
            let ghost pre = t@.subrange(0, j as int + 1);
            proof {
                assert(pre.drop_last() =~= t@.subrange(0, j as int));
            }
            let invert: u8 = if j < inversion as usize {
                1
            } else {
                0
            };
            let val = t[j] + root + (1 + octave + invert) * OCTAVE_STEPS;
            raw.push(val);
            j = j + 1;
        }
        proof {
            assert(t@.subrange(0, t@.len() as int) =~= t@);
        }
        sort_u8_vec(&raw)
    }
}

/// The catalogue in recognition priority order: the more specific
/// qualities come first, and the bare root comes last.
pub open spec fn chord_of(i: int, k: Key) -> Chord {
    if i == 0 {
        Chord::Major(k)
    } else if i == 1 {
        Chord::Minor(k)
    } else if i == 2 {
        Chord::Aug(k)
    } else if i == 3 {
        Chord::Dim(k)
    } else if i == 4 {
        Chord::Dim7(k)
    } else if i == 5 {
        Chord::Sus2(k)
    } else if i == 6 {
        Chord::Sus4(k)
    } else if i == 7 {
        Chord::Five(k)
    } else if i == 8 {
        Chord::SevenSus4(k)
    } else if i == 9 {
        Chord::Major6(k)
    } else if i == 10 {
        Chord::Minor6(k)
    } else if i == 11 {
        Chord::Major6_9(k)
    } else if i == 12 {
        Chord::Minor6_9(k)
    } else if i == 13 {
        Chord::Major7(k)
    } else if i == 14 {
        Chord::Major7_9(k)
    } else if i == 15 {
        Chord::Major7b9(k)
    } else if i == 16 {
        Chord::Major7Plus9(k)
    } else if i == 17 {
        Chord::Major7Plus11(k)
    } else if i == 18 {
        Chord::Major7b13(k)
    } else if i == 19 {
        Chord::Major7_13(k)
    } else if i == 20 {
        Chord::Major7Aug(k)
    } else if i == 21 {
        Chord::Minor7(k)
    } else if i == 22 {
        Chord::Minor7_9(k)
    } else if i == 23 {
        Chord::Minor7_11(k)
    } else if i == 24 {
        Chord::Major7b5(k)
    } else if i == 25 {
        Chord::Minor7b5(k)
    } else if i == 26 {
        Chord::MajorMaj7(k)
    } else if i == 27 {
        Chord::MajorMaj7_9(k)
    } else if i == 28 {
        Chord::MajorMaj7Plus11(k)
    } else if i == 29 {
        Chord::MajorMaj7Aug(k)
    } else if i == 30 {
        Chord::MinorMaj7(k)
    } else if i == 31 {
        Chord::MinorMaj7_9(k)
    } else if i == 32 {
        Chord::MajorAdd9(k)
    } else if i == 33 {
        Chord::MinorAdd9(k)
    } else {
        Chord::NoChord(k)
    }
}

/// The number of scan positions: the 34 proper qualities and the bare
/// root.
pub const SCAN_POSITIONS: usize = 35;

/// Which scan positions take part in the inversion fallback pass. The
/// qualities whose inversions are enharmonically ambiguous with more
/// useful readings sit out.
pub open spec fn fallback_scans(i: int) -> bool {
    i != 2 && i != 4 && i != 5 && i != 9 && i != 10 && i != 11
}

/// The catalogue entry at scan position `i` with root `k`.
fn quality_at(i: usize, k: Key) -> (c: Chord)
    requires
        i < SCAN_POSITIONS,
    ensures
        c == chord_of(i as int, k),
{
    if i == 0 {
        Chord::Major(k)
    } else if i == 1 {
        Chord::Minor(k)
    } else if i == 2 {
        Chord::Aug(k)
    } else if i == 3 {
        Chord::Dim(k)
    } else if i == 4 {
        Chord::Dim7(k)
    } else if i == 5 {
        Chord::Sus2(k)
    } else if i == 6 {
        Chord::Sus4(k)
    } else if i == 7 {
        Chord::Five(k)
    } else if i == 8 {
        Chord::SevenSus4(k)
    } else if i == 9 {
        Chord::Major6(k)
    } else if i == 10 {
        Chord::Minor6(k)
    } else if i == 11 {
        Chord::Major6_9(k)
    } else if i == 12 {
        Chord::Minor6_9(k)
    } else if i == 13 {
        Chord::Major7(k)
    } else if i == 14 {
        Chord::Major7_9(k)
    } else if i == 15 {
        Chord::Major7b9(k)
    } else if i == 16 {
        Chord::Major7Plus9(k)
    } else if i == 17 {
        Chord::Major7Plus11(k)
    } else if i == 18 {
        Chord::Major7b13(k)
    } else if i == 19 {
        Chord::Major7_13(k)
    } else if i == 20 {
        Chord::Major7Aug(k)
    } else if i == 21 {
        Chord::Minor7(k)
    } else if i == 22 {
        Chord::Minor7_9(k)
    } else if i == 23 {
        Chord::Minor7_11(k)
    } else if i == 24 {
        Chord::Major7b5(k)
    } else if i == 25 {
        Chord::Minor7b5(k)
    } else if i == 26 {
        Chord::MajorMaj7(k)
    } else if i == 27 {
        Chord::MajorMaj7_9(k)
    } else if i == 28 {
        Chord::MajorMaj7Plus11(k)
    } else if i == 29 {
        Chord::MajorMaj7Aug(k)
    } else if i == 30 {
        Chord::MinorMaj7(k)
    } else if i == 31 {
        Chord::MinorMaj7_9(k)
    } else if i == 32 {
        Chord::MajorAdd9(k)
    } else if i == 33 {
        Chord::MinorAdd9(k)
    } else {
        Chord::NoChord(k)
    }
}

/// The candidates gathered by scanning the first `n` catalogue entries
/// against the template `t` at root `k`, in scan order. In the fallback
/// pass only the positions [`fallback_scans`] admits take part.
pub open spec fn scan_upto(k: Key, t: Seq<u8>, n: int, fallback: bool) -> Seq<Chord>
    decreases n,
{
    if n <= 0 {
        Seq::empty()
    } else {
        let prev = scan_upto(k, t, n - 1, fallback);
        let c = chord_of(n - 1, k);
        if (!fallback || fallback_scans(n - 1)) && c.template_spec() == t {
            prev.push(c)
        } else {
            prev
        }
    }
}

/// One rotation of a working template: the lowest offset moves up an
/// octave and to the back.
pub open spec fn rotate_template(w: Seq<u8>) -> Seq<u8> {
    w.drop_first().push((w[0] + OCTAVE_STEPS) as u8)
}

/// The candidates of the inversion fallback: `count` successive
/// rotations of the working template `w`, each renormalized, scanned
/// with its root moved by `base`.
pub open spec fn gen_candidates(w: Seq<u8>, base: Key, count: nat) -> Seq<Chord>
    decreases count,
{
    if count == 0 {
        Seq::empty()
    } else {
        let w2 = rotate_template(w);
        let k2 = root_key_of(w2).add_spec(base);
        let t2 = normal_template_of(w2);
        scan_upto(k2, t2, SCAN_POSITIONS as int, true) + gen_candidates(
            w2,
            base,
            (count - 1) as nat,
        )
    }
}

/// The rotation pairs of the inversion fallback: for each of `count`
/// successive rotations of `w`, the renormalized root (moved by
/// `base`) and template.
pub open spec fn gen_pairs(w: Seq<u8>, base: Key, count: nat) -> Seq<(Key, Seq<u8>)>
    decreases count,
{
    if count == 0 {
        Seq::empty()
    } else {
        let w2 = rotate_template(w);
        seq![(root_key_of(w2).add_spec(base), normal_template_of(w2))] + gen_pairs(
            w2,
            base,
            (count - 1) as nat,
        )
    }
}

/// The candidate `(root, template)` readings of a pitch collection:
/// its own normalization when `include_root` is set, then one reading
/// per rotation, one fewer than there are pitches.
pub open spec fn generate_templates_spec(proposed: Seq<u8>, include_root: bool) -> Seq<
    (Key, Seq<u8>),
> {
    let base = root_key_of(proposed);
    let t = normal_template_of(proposed);
    (if include_root {
        seq![(base, t)]
    } else {
        Seq::<(Key, Seq<u8>)>::empty()
    }) + gen_pairs(t, base, (proposed.len() - 1) as nat)
}

/// List the candidate `(root, template)` readings of a non-empty
/// pitch collection, inversions included.
pub fn generate_templates(proposed: &Vec<u8>, include_root: bool) -> (r: Vec<(Key, Vec<u8>)>)
    requires
        0 < proposed.len() <= 20,
    ensures
        r@.len() == generate_templates_spec(proposed@, include_root).len(),
        forall|i: int|
            0 <= i < r@.len() ==> {
                &&& (#[trigger] r@[i]).0 == generate_templates_spec(proposed@, include_root)[i].0
                &&& r@[i].1@ == generate_templates_spec(proposed@, include_root)[i].1
            },
{
    let ghost full = generate_templates_spec(proposed@, include_root);
    let snd = copy_vec_u8(proposed);
    let (base_key, template) = chord_template(snd);
    let mut res: Vec<(Key, Vec<u8>)> = Vec::new();
    if include_root {
        let keep = copy_vec_u8(&template);
        res.push((base_key, keep));
    }
    proof {
        lemma_normal_template_shape(proposed@);
    }
    let mut work = copy_vec_u8(&template);
    let total = proposed.len() - 1;
    let mut done: usize = 0;
    while done < total
        invariant
            0 <= done <= total,
            total == proposed@.len() - 1,
            total <= 19,
            base_key == root_key_of(proposed@),
            base_key.0 < OCTAVE_STEPS,
            work.len() > 0,
            forall|m: int| 0 <= m < work@.len() ==> work@[m] < OCTAVE_STEPS + OCTAVE_STEPS * done,
            res@.len() + gen_pairs(work@, base_key, (total - done) as nat).len() == full.len(),
            forall|i: int|
                0 <= i < res@.len() ==> {
                    &&& (#[trigger] res@[i]).0 == full[i].0
                    &&& res@[i].1@ == full[i].1
                },
            forall|i: int|
                res@.len() <= i < full.len() ==> full[i] == gen_pairs(
                    work@,
                    base_key,
                    (total - done) as nat,
                )[i - res@.len()],
        decreases total - done,
    {
        let ghost w_pre = work@;
        let ghost remaining = (total - done) as nat;
        let first = work.remove(0);
        work.push(first + OCTAVE_STEPS);
        proof {
            assert(work@ =~= rotate_template(w_pre));
        }
        let wc = copy_vec_u8(&work);
        let (k2r, variant) = chord_template(wc);
        let k2 = k2r.add(base_key);
        res.push((k2, variant));
        done = done + 1;
        proof {
            assert(gen_pairs(w_pre, base_key, remaining) == seq![
                (root_key_of(work@).add_spec(base_key), normal_template_of(work@)),
            ] + gen_pairs(work@, base_key, (remaining - 1) as nat));
        }
    }
    proof {
        assert(gen_pairs(work@, base_key, 0).len() == 0);
    }
    res
}

/// What the recognizer returns on a non-empty pitch collection: the
/// direct matches in priority order; if there are none, the matches of
/// the inversion fallback; and if exactly two enharmonically equal
/// flat-five candidates remain, the later one.
pub open spec fn detect_spec(s: Seq<u8>) -> Seq<Chord> {
    let k = root_key_of(s);
    let t = normal_template_of(s);
    let direct = scan_upto(k, t, SCAN_POSITIONS as int, false);
    let cands = if direct.len() == 0 {
        gen_candidates(t, k, (s.len() - 1) as nat)
    } else {
        direct
    };
    if cands.len() == 2 && cands[0] is Major7b5 && cands[1] is Major7b5 {
        cands.drop_first()
    } else {
        cands
    }
}

/// Copy a byte vector.
fn copy_vec_u8(v: &Vec<u8>) -> (r: Vec<u8>)
    ensures
        r@ == v@,
{
    let mut r: Vec<u8> = Vec::new();
    let mut i: usize = 0;
    while i < v.len()
        invariant
            0 <= i <= v.len(),
            r@ == v@.subrange(0, i as int),
        decreases v.len() - i,
    {
        r.push(v[i]);
        proof {
            assert(r@ =~= v@.subrange(0, i as int + 1));
        }
        i = i + 1;
    }
    proof {
        assert(v@.subrange(0, v@.len() as int) =~= v@);
    }
    r
}

/// Recognize the chord sounding in a non-empty collection of pitch
/// numbers. The result lists every candidate reading in priority order;
/// callers typically take the first.
pub fn detect_chord(sounding: &Vec<u8>) -> (res: Vec<Chord>)
    requires
        0 < sounding.len() <= 20,
    ensures
        res@ == detect_spec(sounding@),
{
    let snd = copy_vec_u8(sounding);
    let (key, template) = chord_template(snd);
    let ghost t0 = template@;
    let mut res: Vec<Chord> = Vec::new();
    let mut i: usize = 0;
    while i < SCAN_POSITIONS
        invariant
            0 <= i <= SCAN_POSITIONS,
            key == root_key_of(sounding@),
            template@ == normal_template_of(sounding@),
            res@ == scan_upto(key, template@, i as int, false),
        decreases SCAN_POSITIONS - i,
    {
        let c = quality_at(i, key);
        if c.matches(&template) {
            res.push(c);
        }
        i = i + 1;
    }
    if res.len() == 0 {
        proof {
            assert(scan_upto(key, t0, SCAN_POSITIONS as int, false).len() == 0);
            lemma_normal_template_shape(sounding@);
        }
        let mut work = copy_vec_u8(&template);
        let total = sounding.len() - 1;
        let mut done: usize = 0;
        while done < total
            invariant
                0 <= done <= total,
                work.len() > 0,
                forall|m: int|
                    0 <= m < work@.len() ==> work@[m] < OCTAVE_STEPS + OCTAVE_STEPS * done,
                res@ + gen_candidates(work@, key, (total - done) as nat) == gen_candidates(
                    t0,
                    key,
                    total as nat,
                ),
            decreases total - done,
        {
            let ghost w_pre = work@;
            let ghost remaining = (total - done) as nat;
            let first = work.remove(0);
            work.push(first + OCTAVE_STEPS);
            proof {
                assert(work@ =~= rotate_template(w_pre));
            }
            let wc = copy_vec_u8(&work);
            let (k2r, variant) = chord_template(wc);
            let k2 = k2r.add(key);
            let ghost base_prefix = res@;
            let mut ii: usize = 0;
            while ii < SCAN_POSITIONS
                invariant
                    0 <= ii <= SCAN_POSITIONS,
                    res@ == base_prefix + scan_upto(k2, variant@, ii as int, true),
                decreases SCAN_POSITIONS - ii,
            {
                let scanned = ii != 2 && ii != 4 && ii != 5 && ii != 9 && ii != 10 && ii != 11;
                if scanned {
                    let c = quality_at(ii, k2);
                    if c.matches(&variant) {
                        res.push(c);
                        proof {
                            assert(res@ =~= base_prefix + scan_upto(
                                k2,
                                variant@,
                                ii as int + 1,
                                true,
                            ));
                        }
                    }
                }
                ii = ii + 1;
            }
            done = done + 1;
            proof {
                assert(gen_candidates(w_pre, key, remaining) == scan_upto(
                    k2,
                    variant@,
                    SCAN_POSITIONS as int,
                    true,
                ) + gen_candidates(work@, key, (remaining - 1) as nat));
                assert(res@ + gen_candidates(work@, key, (total - done) as nat) =~= base_prefix
                    + gen_candidates(w_pre, key, remaining));
            }
        }
        proof {
            assert(res@ + gen_candidates(work@, key, 0) =~= res@);
        }
    }
    if res.len() == 2 {
        let first_flat = matches!(res[0], Chord::Major7b5(_));
        let second_flat = matches!(res[1], Chord::Major7b5(_));
        if first_flat && second_flat {
            res.remove(0);
            proof {
                assert(res@ =~= detect_spec(sounding@));
            }
            return res;
        }
    }
    proof {
        assert(res@ =~= detect_spec(sounding@));
    }
    res
}

/// Every element of [`offsets_from`] lies below one octave.
proof fn lemma_offsets_from_in_range(s: Seq<u8>, root: u8)
    ensures
        offsets_from(s, root).len() == s.len(),
        forall|m: int| 0 <= m < s.len() ==> offsets_from(s, root)[m] < OCTAVE_STEPS,
    decreases s.len(),
{
    if s.len() > 0 {
        lemma_offsets_from_in_range(s.drop_last(), root);
    }
}

/// Inserting an element below a bound into a sequence below that bound
/// stays below it.
proof fn lemma_insert_sorted_u8_bound(x: u8, s: Seq<u8>, bound: u8)
    requires
        x < bound,
        forall|m: int| 0 <= m < s.len() ==> s[m] < bound,
    ensures
        forall|m: int|
            0 <= m < insert_sorted_u8(x, s).len() ==> insert_sorted_u8(x, s)[m] < bound,
    decreases s.len(),
{
    if s.len() == 0 {
        assert(insert_sorted_u8(x, s) =~= seq![x]);
    } else if x <= s[0] {
        let r = seq![x] + s;
        assert(forall|m: int| 0 <= m < r.len() ==> r[m] < bound);
    } else {
        lemma_insert_sorted_u8_bound(x, s.drop_first(), bound);
        let inner = insert_sorted_u8(x, s.drop_first());
        let r = seq![s[0]] + inner;
        assert(forall|m: int| 0 <= m < r.len() ==> r[m] < bound);
    }
}

/// Sorting a sequence below a bound stays below it.
proof fn lemma_sort_u8_bound(s: Seq<u8>, bound: u8)
    requires
        forall|m: int| 0 <= m < s.len() ==> s[m] < bound,
    ensures
        forall|m: int| 0 <= m < sort_u8(s).len() ==> sort_u8(s)[m] < bound,
    decreases s.len(),
{
    if s.len() > 0 {
        lemma_sort_u8_bound(s.drop_first(), bound);
        lemma_insert_sorted_u8_bound(s[0], sort_u8(s.drop_first()), bound);
    }
}

/// Deduplication keeps at least one element and keeps every bound.
proof fn lemma_dedup_sorted_bound(s: Seq<u8>, bound: u8)
    requires
        forall|m: int| 0 <= m < s.len() ==> s[m] < bound,
    ensures
        s.len() > 0 ==> dedup_sorted(s).len() > 0,
        forall|m: int| 0 <= m < dedup_sorted(s).len() ==> dedup_sorted(s)[m] < bound,
    decreases s.len(),
{
    if s.len() > 1 {
        lemma_dedup_sorted_bound(s.drop_last(), bound);
    }
}

/// The scan position of a chord's quality: the inverse of
/// [`chord_of`] in its first argument.
pub open spec fn quality_index(c: Chord) -> int {
    match c {
        Chord::Major(_) => 0,
        Chord::Minor(_) => 1,
        Chord::Aug(_) => 2,
        Chord::Dim(_) => 3,
        Chord::Dim7(_) => 4,
        Chord::Sus2(_) => 5,
        Chord::Sus4(_) => 6,
        Chord::Five(_) => 7,
        Chord::SevenSus4(_) => 8,
        Chord::Major6(_) => 9,
        Chord::Minor6(_) => 10,
        Chord::Major6_9(_) => 11,
        Chord::Minor6_9(_) => 12,
        Chord::Major7(_) => 13,
        Chord::Major7_9(_) => 14,
        Chord::Major7b9(_) => 15,
        Chord::Major7Plus9(_) => 16,
        Chord::Major7Plus11(_) => 17,
        Chord::Major7b13(_) => 18,
        Chord::Major7_13(_) => 19,
        Chord::Major7Aug(_) => 20,
        Chord::Minor7(_) => 21,
        Chord::Minor7_9(_) => 22,
        Chord::Minor7_11(_) => 23,
        Chord::Major7b5(_) => 24,
        Chord::Minor7b5(_) => 25,
        Chord::MajorMaj7(_) => 26,
        Chord::MajorMaj7_9(_) => 27,
        Chord::MajorMaj7Plus11(_) => 28,
        Chord::MajorMaj7Aug(_) => 29,
        Chord::MinorMaj7(_) => 30,
        Chord::MinorMaj7_9(_) => 31,
        Chord::MajorAdd9(_) => 32,
        Chord::MinorAdd9(_) => 33,
        Chord::NoChord(_) => 34,
    }
}

/// [`chord_of`] and [`quality_index`] are inverse: the scan entry at a
/// chord's position with its root is the chord itself, and the entry at
/// position `i` sits at position `i`.
proof fn lemma_quality_index_inverse(c: Chord, i: int, k: Key)
    requires
        0 <= i < SCAN_POSITIONS,
    ensures
        0 <= quality_index(c) < SCAN_POSITIONS,
        chord_of(quality_index(c), c.key_spec()) == c,
        quality_index(chord_of(i, k)) == i,
        chord_of(i, k).key_spec() == k,
{
}

/// A numeric code that determines a template below two octaves: its
/// digits in base 24.
spec fn template_code(t: Seq<u8>) -> int
    decreases t.len(),
{
    if t.len() == 0 {
        0
    } else {
        template_code(t.drop_last()) * 24 + t.last()
    }
}

/// The base-24 code of the template at each scan position.
spec fn code_table(i: int) -> int {
    if i == 0 {
        103
    } else     if i == 1 {
        79
    } else     if i == 2 {
        104
    } else     if i == 3 {
        78
    } else     if i == 4 {
        1881
    } else     if i == 5 {
        55
    } else     if i == 6 {
        127
    } else     if i == 7 {
        7
    } else     if i == 8 {
        3058
    } else     if i == 9 {
        2481
    } else     if i == 10 {
        1905
    } else     if i == 11 {
        30129
    } else     if i == 12 {
        29553
    } else     if i == 13 {
        2482
    } else     if i == 14 {
        30130
    } else     if i == 15 {
        16306
    } else     if i == 16 {
        43954
    } else     if i == 17 {
        58930
    } else     if i == 18 {
        59530
    } else     if i == 19 {
        59554
    } else     if i == 20 {
        2506
    } else     if i == 21 {
        1906
    } else     if i == 22 {
        29554
    } else     if i == 23 {
        44530
    } else     if i == 24 {
        2458
    } else     if i == 25 {
        1882
    } else     if i == 26 {
        2483
    } else     if i == 27 {
        30131
    } else     if i == 28 {
        58931
    } else     if i == 29 {
        2507
    } else     if i == 30 {
        1907
    } else     if i == 31 {
        29555
    } else     if i == 32 {
        1255
    } else     if i == 33 {
        1231
    } else {
        0
    }
}

/// Each quality's template carries the code at its scan position.
proof fn lemma_code_identifies(c: Chord)
    ensures
        template_code(c.template_spec()) == code_table(quality_index(c)),
{
    reveal_with_fuel(template_code, 7);
    match c {
        Chord::Major(_) => {
            assert(template_code(c.template_spec()) == code_table(quality_index(c)));
        },
        Chord::Minor(_) => {
            assert(template_code(c.template_spec()) == code_table(quality_index(c)));
        },
        Chord::Aug(_) => {
            assert(template_code(c.template_spec()) == code_table(quality_index(c)));
        },
        Chord::Dim(_) => {
            assert(template_code(c.template_spec()) == code_table(quality_index(c)));
        },
        Chord::Dim7(_) => {
            assert(template_code(c.template_spec()) == code_table(quality_index(c)));
        },
        Chord::Sus2(_) => {
            assert(template_code(c.template_spec()) == code_table(quality_index(c)));
        },
        Chord::Sus4(_) => {
            assert(template_code(c.template_spec()) == code_table(quality_index(c)));
        },
        Chord::Five(_) => {
            assert(template_code(c.template_spec()) == code_table(quality_index(c)));
        },
        Chord::SevenSus4(_) => {
            assert(template_code(c.template_spec()) == code_table(quality_index(c)));
        },
        Chord::Major6(_) => {
            assert(template_code(c.template_spec()) == code_table(quality_index(c)));
        },
        Chord::Minor6(_) => {
            assert(template_code(c.template_spec()) == code_table(quality_index(c)));
        },
        Chord::Major6_9(_) => {
            assert(template_code(c.template_spec()) == code_table(quality_index(c)));
        },
        Chord::Minor6_9(_) => {
            assert(template_code(c.template_spec()) == code_table(quality_index(c)));
        },
        Chord::Major7(_) => {
            assert(template_code(c.template_spec()) == code_table(quality_index(c)));
        },
        Chord::Major7_9(_) => {
            assert(template_code(c.template_spec()) == code_table(quality_index(c)));
        },
        Chord::Major7b9(_) => {
            assert(template_code(c.template_spec()) == code_table(quality_index(c)));
        },
        Chord::Major7Plus9(_) => {
            assert(template_code(c.template_spec()) == code_table(quality_index(c)));
        },
        Chord::Major7Plus11(_) => {
            assert(template_code(c.template_spec()) == code_table(quality_index(c)));
        },
        Chord::Major7b13(_) => {
            assert(template_code(c.template_spec()) == code_table(quality_index(c)));
        },
        Chord::Major7_13(_) => {
            assert(template_code(c.template_spec()) == code_table(quality_index(c)));
        },
        Chord::Major7Aug(_) => {
            assert(template_code(c.template_spec()) == code_table(quality_index(c)));
        },
        Chord::Minor7(_) => {
            assert(template_code(c.template_spec()) == code_table(quality_index(c)));
        },
        Chord::Minor7_9(_) => {
            assert(template_code(c.template_spec()) == code_table(quality_index(c)));
        },
        Chord::Minor7_11(_) => {
            assert(template_code(c.template_spec()) == code_table(quality_index(c)));
        },
        Chord::Major7b5(_) => {
            assert(template_code(c.template_spec()) == code_table(quality_index(c)));
        },
        Chord::Minor7b5(_) => {
            assert(template_code(c.template_spec()) == code_table(quality_index(c)));
        },
        Chord::MajorMaj7(_) => {
            assert(template_code(c.template_spec()) == code_table(quality_index(c)));
        },
        Chord::MajorMaj7_9(_) => {
            assert(template_code(c.template_spec()) == code_table(quality_index(c)));
        },
        Chord::MajorMaj7Plus11(_) => {
            assert(template_code(c.template_spec()) == code_table(quality_index(c)));
        },
        Chord::MajorMaj7Aug(_) => {
            assert(template_code(c.template_spec()) == code_table(quality_index(c)));
        },
        Chord::MinorMaj7(_) => {
            assert(template_code(c.template_spec()) == code_table(quality_index(c)));
        },
        Chord::MinorMaj7_9(_) => {
            assert(template_code(c.template_spec()) == code_table(quality_index(c)));
        },
        Chord::MajorAdd9(_) => {
            assert(template_code(c.template_spec()) == code_table(quality_index(c)));
        },
        Chord::MinorAdd9(_) => {
            assert(template_code(c.template_spec()) == code_table(quality_index(c)));
        },
        Chord::NoChord(_) => {
            assert(template_code(c.template_spec()) == code_table(quality_index(c)));
        },
    }
}

/// No two scan positions carry the same template: the catalogue's
/// templates are pairwise distinct.
#[verifier::rlimit(60)]
proof fn lemma_templates_injective(c1: Chord, c2: Chord)
    requires
        c1.template_spec() == c2.template_spec(),
    ensures
        quality_index(c1) == quality_index(c2),
{
    lemma_code_identifies(c1);
    lemma_code_identifies(c2);
    assert(template_code(c1.template_spec()) == template_code(c2.template_spec()));
    assert(code_table(quality_index(c1)) == code_table(quality_index(c2)));
}

/// Scanning the catalogue against the template of `c` finds exactly the
/// entry at `c`'s own position, when the pass admits that position.
proof fn lemma_scan_upto_unique(k: Key, c: Chord, n: int, fallback: bool)
    requires
        0 <= n <= SCAN_POSITIONS,
    ensures
        scan_upto(k, c.template_spec(), n, fallback) == if quality_index(c) < n && (!fallback
            || fallback_scans(quality_index(c))) {
            seq![chord_of(quality_index(c), k)]
        } else {
            Seq::<Chord>::empty()
        },
    decreases n,
{
    let t = c.template_spec();
    if n > 0 {
        lemma_scan_upto_unique(k, c, n - 1, fallback);
        lemma_quality_index_inverse(c, n - 1, k);
        if chord_of(n - 1, k).template_spec() == t {
            lemma_templates_injective(chord_of(n - 1, k), c);
            assert(n - 1 == quality_index(c));
            if !fallback || fallback_scans(n - 1) {
                assert(scan_upto(k, t, n, fallback) =~= Seq::<Chord>::empty().push(
                    chord_of(n - 1, k),
                ));
                assert(Seq::<Chord>::empty().push(chord_of(n - 1, k)) =~= seq![
                    chord_of(quality_index(c), k),
                ]);
            }
        } else {
            assert(n - 1 != quality_index(c)) by {
                if n - 1 == quality_index(c) {
                    assert(chord_of(n - 1, k).template_spec() == t);
                }
            }
        }
    }
}

/// The shape every catalogue template shares: non-empty, rooted at 0,
/// strictly ascending, within one octave.
proof fn lemma_template_shape(c: Chord)
    ensures
        1 <= c.template_spec().len() <= 5,
        c.template_spec()[0] == 0,
        forall|m: int| 0 <= m < c.template_spec().len() ==> c.template_spec()[m] < OCTAVE_STEPS,
        forall|m: int, j: int|
            0 <= m < j < c.template_spec().len() ==> c.template_spec()[m] < c.template_spec()[j],
{
}

/// Sorting an already ascending sequence changes nothing.
proof fn lemma_sort_u8_of_ascending(s: Seq<u8>)
    requires
        is_ascending(s),
    ensures
        sort_u8(s) == s,
    decreases s.len(),
{
    if s.len() > 0 {
        let rest = s.drop_first();
        assert(is_ascending(rest));
        lemma_sort_u8_of_ascending(rest);
        if rest.len() == 0 {
            assert(insert_sorted_u8(s[0], rest) =~= s);
        } else {
            assert(s[0] <= rest[0]);
            assert(seq![s[0]] + rest =~= s);
        }
    }
}

/// Deduplicating a sequence without equal neighbours changes nothing.
proof fn lemma_dedup_sorted_of_distinct(s: Seq<u8>)
    requires
        forall|m: int| 0 <= m < s.len() - 1 ==> #[trigger] s[m] != s[m + 1],
    ensures
        dedup_sorted(s) == s,
    decreases s.len(),
{
    if s.len() > 1 {
        let head = s.drop_last();
        assert(forall|m: int| 0 <= m < head.len() - 1 ==> #[trigger] head[m] != head[m + 1]);
        lemma_dedup_sorted_of_distinct(head);
        assert(s[s.len() - 2] != s[s.len() - 1]);
        assert(head + seq![s.last()] =~= s);
    }
}

/// The elementwise reading of [`offsets_from`].
proof fn lemma_offsets_from_index(s: Seq<u8>, root: u8)
    ensures
        offsets_from(s, root).len() == s.len(),
        forall|m: int|
            0 <= m < s.len() ==> offsets_from(s, root)[m] == (((s[m] - root) % (
            OCTAVE_STEPS as int)) as u8),
    decreases s.len(),
{
    if s.len() > 0 {
        lemma_offsets_from_index(s.drop_last(), root);
    }
}

/// The elementwise reading of [`raw_notes`].
proof fn lemma_raw_notes_index(t: Seq<u8>, root: u8, octave: u8, inversion: u8)
    ensures
        raw_notes(t, root, octave, inversion).len() == t.len(),
        forall|m: int|
            0 <= m < t.len() ==> raw_notes(t, root, octave, inversion)[m] == ((t[m] + root + (1
                + octave + (if m < inversion {
                1int
            } else {
                0int
            })) * OCTAVE_STEPS) as u8),
    decreases t.len(),
{
    if t.len() > 0 {
        lemma_raw_notes_index(t.drop_last(), root, octave, inversion);
    }
}

/// Normalizing the root-position notes of a well-formed chord recovers
/// its root and its template.
proof fn lemma_notes_normalize(c: Chord)
    requires
        c.key_spec().wf(),
    ensures
        root_key_of(notes_spec(c, 4, 0)) == c.key_spec(),
        normal_template_of(notes_spec(c, 4, 0)) == c.template_spec(),
{
    let t = c.template_spec();
    let k = c.key_spec().0;
    let raw = raw_notes(t, k, 4, 0);
    lemma_template_shape(c);
    lemma_raw_notes_index(t, k, 4, 0);
    assert(forall|m: int| 0 <= m < raw.len() ==> raw[m] == t[m] + k + 60);
    assert(is_ascending(raw));
    lemma_sort_u8_of_ascending(raw);
    let s = notes_spec(c, 4, 0);
    assert(s == raw);
    assert(root_key_of(s) == Key(((k + 60) as int % 12) as u8));
    assert((k + 60) as int % 12 == k as int) by {
        assert(k < 12);
    }
    let offs = offsets_from(raw, raw[0]);
    lemma_offsets_from_index(raw, raw[0]);
    assert(offs =~= t) by {
        assert(forall|m: int| 0 <= m < raw.len() ==> raw[m] - raw[0] == t[m]);
        assert(forall|m: int| 0 <= m < t.len() ==> t[m] as int % 12 == t[m] as int);
    }
    assert(is_ascending(t));
    lemma_sort_u8_of_ascending(t);
    lemma_dedup_sorted_of_distinct(t);
}

/// At root position, recognition inverts note generation: for every
/// quality and every pitch-class root, detecting the notes of the chord
/// yields exactly that chord and nothing else.
pub proof fn lemma_detect_notes_roundtrip(c: Chord)
    requires
        c.key_spec().wf(),
    ensures
        detect_spec(notes_spec(c, 4, 0)) == seq![c],
{
    lemma_notes_normalize(c);
    lemma_scan_upto_unique(c.key_spec(), c, SCAN_POSITIONS as int, false);
    lemma_quality_index_inverse(c, 0, c.key_spec());
    let direct = scan_upto(
        c.key_spec(),
        normal_template_of(notes_spec(c, 4, 0)),
        SCAN_POSITIONS as int,
        false,
    );
    assert(direct == seq![c]);
    assert(direct.len() == 1);
}

/// The normalized template of a non-empty collection is non-empty and
/// holds offsets below one octave.
proof fn lemma_normal_template_shape(s: Seq<u8>)
    requires
        s.len() > 0,
    ensures
        normal_template_of(s).len() > 0,
        forall|m: int| 0 <= m < normal_template_of(s).len() ==> normal_template_of(s)[m]
            < OCTAVE_STEPS,
{
    let sorted = sort_u8(s);
    lemma_sort_u8_len(s);
    let offs = offsets_from(sorted, sorted[0]);
    lemma_offsets_from_in_range(sorted, sorted[0]);
    lemma_sort_u8_bound(offs, OCTAVE_STEPS);
    lemma_sort_u8_len(offs);
    lemma_dedup_sorted_bound(sort_u8(offs), OCTAVE_STEPS);
}

/// The pitch class of an instant value: reduced modulo one octave.
pub open spec fn pitch_class_int(x: int) -> u8 {
    (x % (OCTAVE_STEPS as int)) as u8
}

/// The pitch classes a sequence of offsets reads as, when moved by
/// `root`.
pub open spec fn transposed_classes(t: Seq<u8>, root: u8) -> Set<u8> {
    t.map_values(|o: u8| pitch_class_int(o + root)).to_set()
}

/// The pitch classes sounding in a pitch collection.
pub open spec fn pitch_classes(s: Seq<u8>) -> Set<u8> {
    transposed_classes(s, 0)
}

/// Reducing one addend modulo the octave does not change a pitch
/// class.
proof fn lemma_pc_absorb(a: int, b: int)
    ensures
        pitch_class_int(a % 12 + b) == pitch_class_int(a + b),
{
    broadcast use vstd::arithmetic::div_mod::lemma_mod_twice;

    vstd::arithmetic::div_mod::lemma_add_mod_noop(a % 12, b, 12);
    vstd::arithmetic::div_mod::lemma_add_mod_noop(a, b, 12);
}

/// Raising an offset one octave does not change a pitch class.
proof fn lemma_pc_octave(x: int)
    ensures
        pitch_class_int(x + 12) == pitch_class_int(x),
{
    vstd::arithmetic::div_mod::lemma_mod_add_multiples_vanish(x, 12);
}

/// Inserting keeps exactly the old elements and the new one.
proof fn lemma_insert_sorted_u8_elems(x: u8, s: Seq<u8>, y: u8)
    ensures
        insert_sorted_u8(x, s).contains(y) <==> (y == x || s.contains(y)),
    decreases s.len(),
{
    let r = insert_sorted_u8(x, s);
    if s.len() == 0 {
        if y == x {
            assert(r[0] == y);
            assert(r.contains(y));
        }
        if r.contains(y) {
            let i = choose|i: int| 0 <= i < r.len() && r[i] == y;
            assert(i == 0);
        }
    } else if x <= s[0] {
        assert(r == seq![x] + s);
        if r.contains(y) {
            let i = choose|i: int| 0 <= i < r.len() && r[i] == y;
            if i > 0 {
                assert(s[i - 1] == y);
                assert(s.contains(y));
            }
        }
        if y == x {
            assert(r[0] == y);
            assert(r.contains(y));
        }
        if s.contains(y) {
            let j = choose|j: int| 0 <= j < s.len() && s[j] == y;
            assert(r[j + 1] == y);
            assert(r.contains(y));
        }
    } else {
        let rest = s.drop_first();
        lemma_insert_sorted_u8_elems(x, rest, y);
        let inner = insert_sorted_u8(x, rest);
        assert(r == seq![s[0]] + inner);
        if r.contains(y) {
            let i = choose|i: int| 0 <= i < r.len() && r[i] == y;
            if i == 0 {
                assert(s[0] == y);
                assert(s.contains(y));
            } else {
                assert(inner[i - 1] == y);
                assert(inner.contains(y));
                if y != x {
                    assert(rest.contains(y));
                    let j = choose|j: int| 0 <= j < rest.len() && rest[j] == y;
                    assert(s[j + 1] == y);
                    assert(s.contains(y));
                }
            }
        }
        if y == x {
            assert(inner.contains(y));
            let m = choose|m: int| 0 <= m < inner.len() && inner[m] == y;
            assert(r[m + 1] == y);
            assert(r.contains(y));
        }
        if y != x && s.contains(y) {
            let j = choose|j: int| 0 <= j < s.len() && s[j] == y;
            if j == 0 {
                assert(r[0] == y);
            } else {
                assert(rest[j - 1] == y);
                assert(rest.contains(y));
                assert(inner.contains(y));
                let m = choose|m: int| 0 <= m < inner.len() && inner[m] == y;
                assert(r[m + 1] == y);
            }
            assert(r.contains(y));
        }
    }
}

/// Sorting keeps exactly the elements.
proof fn lemma_sort_u8_elems(s: Seq<u8>, y: u8)
    ensures
        sort_u8(s).contains(y) <==> s.contains(y),
    decreases s.len(),
{
    if s.len() > 0 {
        let rest = s.drop_first();
        lemma_sort_u8_elems(rest, y);
        lemma_insert_sorted_u8_elems(s[0], sort_u8(rest), y);
        let r = sort_u8(s);
        if r.contains(y) {
            if y == s[0] {
                assert(s.contains(y));
            } else {
                assert(rest.contains(y));
                let j = choose|j: int| 0 <= j < rest.len() && rest[j] == y;
                assert(s[j + 1] == y);
                assert(s.contains(y));
            }
        }
        if s.contains(y) {
            let j = choose|j: int| 0 <= j < s.len() && s[j] == y;
            if j > 0 {
                assert(rest[j - 1] == y);
                assert(rest.contains(y));
            }
            assert(r.contains(y));
        }
    }
}

/// Deduplication keeps exactly the elements.
proof fn lemma_dedup_sorted_elems(s: Seq<u8>, y: u8)
    ensures
        dedup_sorted(s).contains(y) <==> s.contains(y),
    decreases s.len(),
{
    if s.len() <= 1 {
    } else {
        let head = s.drop_last();
        lemma_dedup_sorted_elems(head, y);
        let r = dedup_sorted(s);
        if r.contains(y) {
            if s[s.len() - 1] == s[s.len() - 2] {
                assert(head.contains(y));
                let j = choose|j: int| 0 <= j < head.len() && head[j] == y;
                assert(s[j] == y);
                assert(s.contains(y));
            } else {
                let i = choose|i: int| 0 <= i < r.len() && r[i] == y;
                if i < r.len() - 1 {
                    assert(dedup_sorted(head)[i] == y);
                    assert(dedup_sorted(head).contains(y));
                    assert(head.contains(y));
                    let j = choose|j: int| 0 <= j < head.len() && head[j] == y;
                    assert(s[j] == y);
                } else {
                    assert(s[s.len() - 1] == y);
                }
                assert(s.contains(y));
            }
        }
        if s.contains(y) {
            let j = choose|j: int| 0 <= j < s.len() && s[j] == y;
            if s[s.len() - 1] == s[s.len() - 2] {
                if j < s.len() - 1 {
                    assert(head[j] == y);
                } else {
                    assert(head[s.len() - 2] == y);
                }
                assert(head.contains(y));
                assert(r == dedup_sorted(head));
            } else {
                if j == s.len() - 1 {
                    assert(r[r.len() - 1] == y);
                } else {
                    assert(head[j] == y);
                    assert(head.contains(y));
                    assert(dedup_sorted(head).contains(y));
                    let m = choose|m: int|
                        0 <= m < dedup_sorted(head).len() && dedup_sorted(head)[m] == y;
                    assert(r[m] == y);
                }
            }
            assert(r.contains(y));
        }
    }
}

/// Renormalizing a working template keeps its pitch classes: the
/// normalized template read at the old root moved by the new one
/// sounds as the working template did at the old root alone.
proof fn lemma_normalize_classes(w: Seq<u8>, base: u8)
    requires
        w.len() > 0,
        base < OCTAVE_STEPS,
    ensures
        transposed_classes(normal_template_of(w), root_key_of(w).add_spec(Key(base)).0)
            == transposed_classes(w, base),
{
    broadcast use vstd::arithmetic::div_mod::lemma_mod_twice;

    let sorted = sort_u8(w);
    lemma_sort_u8_len(w);
    lemma_sort_u8_sorted(w);
    let root = sorted[0];
    let offs = offsets_from(sorted, root);
    lemma_offsets_from_index(sorted, root);
    let t = normal_template_of(w);
    let k2 = root_key_of(w).add_spec(Key(base)).0;
    vstd::arithmetic::div_mod::lemma_mod_bound(root as int, 12);
    let f2 = |o: u8| pitch_class_int(o + k2);
    let fb = |x: u8| pitch_class_int(x + base);
    // an offset read at the combined root sounds as its pitch did at
    // the base root alone
    assert forall|m: int| 0 <= m < offs.len() implies f2(offs[m]) == fb(sorted[m]) by {
        let x = sorted[m] as int;
        let r = root as int;
        assert(offs[m] == ((x - r) % 12) as u8);
        vstd::arithmetic::div_mod::lemma_mod_bound(x - r, 12);
        lemma_pc_absorb(r, base as int);
        lemma_pc_absorb(x - r, r % 12 + base);
        assert(pitch_class_int((x - r) % 12 + (r % 12 + base) % 12) == pitch_class_int(
            (x - r) % 12 + (r % 12 + base),
        )) by {
            lemma_pc_absorb(r % 12 + base, (x - r) % 12);
        }
        assert(pitch_class_int(x - r + (r % 12 + base)) == pitch_class_int(x + base)) by {
            lemma_pc_absorb(r, x - r + base);
        }
    }
    assert forall|c: u8| transposed_classes(t, k2).contains(c) implies transposed_classes(
        w,
        base,
    ).contains(c) by {
        let i = choose|i: int| 0 <= i < t.len() && t.map_values(f2)[i] == c;
        assert(t.contains(t[i]));
        lemma_dedup_sorted_elems(sort_u8(offs), t[i]);
        lemma_sort_u8_elems(offs, t[i]);
        assert(offs.contains(t[i]));
        let m = choose|m: int| 0 <= m < offs.len() && offs[m] == t[i];
        assert(fb(sorted[m]) == c);
        assert(sorted.contains(sorted[m]));
        lemma_sort_u8_elems(w, sorted[m]);
        assert(w.contains(sorted[m]));
        let n = choose|n: int| 0 <= n < w.len() && w[n] == sorted[m];
        assert(w.map_values(fb)[n] == c);
        assert(w.map_values(fb).contains(c));
    }
    assert forall|c: u8| transposed_classes(w, base).contains(c) implies transposed_classes(
        t,
        k2,
    ).contains(c) by {
        let n = choose|n: int| 0 <= n < w.len() && w.map_values(fb)[n] == c;
        assert(w.contains(w[n]));
        lemma_sort_u8_elems(w, w[n]);
        assert(sorted.contains(w[n]));
        let m = choose|m: int| 0 <= m < sorted.len() && sorted[m] == w[n];
        assert(f2(offs[m]) == c);
        assert(offs.contains(offs[m]));
        lemma_sort_u8_elems(offs, offs[m]);
        lemma_dedup_sorted_elems(sort_u8(offs), offs[m]);
        assert(t.contains(offs[m]));
        let i = choose|i: int| 0 <= i < t.len() && t[i] == offs[m];
        assert(t.map_values(f2)[i] == c);
        assert(t.map_values(f2).contains(c));
    }
    assert(transposed_classes(t, k2) =~= transposed_classes(w, base));
}

/// Rotating a working template keeps its pitch classes: the lowest
/// offset only moves up a whole octave.
proof fn lemma_rotate_classes(w: Seq<u8>, base: u8)
    requires
        w.len() > 0,
        forall|m: int| 0 <= m < w.len() ==> (#[trigger] w[m]) + OCTAVE_STEPS <= u8::MAX,
    ensures
        transposed_classes(rotate_template(w), base) == transposed_classes(w, base),
{
    let w2 = rotate_template(w);
    let fb = |x: u8| pitch_class_int(x + base);
    assert(w2.len() == w.len());
    assert forall|c: u8| transposed_classes(w2, base).contains(c) implies transposed_classes(
        w,
        base,
    ).contains(c) by {
        let i = choose|i: int| 0 <= i < w2.len() && w2.map_values(fb)[i] == c;
        if i < w2.len() - 1 {
            assert(w2[i] == w[i + 1]);
            assert(w.map_values(fb)[i + 1] == c);
        } else {
            assert(w2[i] == (w[0] + OCTAVE_STEPS) as u8);
            lemma_pc_octave(w[0] + base);
            assert(w.map_values(fb)[0] == c);
        }
        assert(w.map_values(fb).contains(c));
    }
    assert forall|c: u8| transposed_classes(w, base).contains(c) implies transposed_classes(
        w2,
        base,
    ).contains(c) by {
        let i = choose|i: int| 0 <= i < w.len() && w.map_values(fb)[i] == c;
        if i > 0 {
            assert(w2[i - 1] == w[i]);
            assert(w2.map_values(fb)[i - 1] == c);
        } else {
            assert(w2[w2.len() - 1] == (w[0] + OCTAVE_STEPS) as u8);
            lemma_pc_octave(w[0] + base);
            assert(w2.map_values(fb)[w2.len() - 1] == c);
        }
        assert(w2.map_values(fb).contains(c));
    }
    assert(transposed_classes(w2, base) =~= transposed_classes(w, base));
}

/// Every candidate a scan pass gathers carries the scanned template
/// and root.
proof fn lemma_scan_members(k: Key, t: Seq<u8>, n: int, fallback: bool, j: int)
    requires
        0 <= n <= SCAN_POSITIONS,
        0 <= j < scan_upto(k, t, n, fallback).len(),
    ensures
        scan_upto(k, t, n, fallback)[j].template_spec() == t,
        scan_upto(k, t, n, fallback)[j].key_spec() == k,
    decreases n,
{
    if n > 0 {
        let prev = scan_upto(k, t, n - 1, fallback);
        if j < prev.len() {
            lemma_scan_members(k, t, n - 1, fallback, j);
        } else {
            lemma_quality_index_inverse(chord_of(n - 1, k), n - 1, k);
        }
    }
}

/// Every candidate the inversion fallback gathers reads as the same
/// pitch classes as the working template it started from.
proof fn lemma_gen_candidates_classes(w: Seq<u8>, base: Key, count: nat, j: int)
    requires
        base.wf(),
        w.len() > 0,
        forall|m: int| 0 <= m < w.len() ==> (#[trigger] w[m]) + OCTAVE_STEPS * count <= u8::MAX,
        0 <= j < gen_candidates(w, base, count).len(),
    ensures
        transposed_classes(
            gen_candidates(w, base, count)[j].template_spec(),
            gen_candidates(w, base, count)[j].key_spec().0,
        ) == transposed_classes(w, base.0),
    decreases count,
{
    let w2 = rotate_template(w);
    let k2 = root_key_of(w2).add_spec(base);
    let t2 = normal_template_of(w2);
    let head = scan_upto(k2, t2, SCAN_POSITIONS as int, true);
    assert(w[0] + OCTAVE_STEPS <= u8::MAX) by {
        assert(OCTAVE_STEPS <= OCTAVE_STEPS * count) by (nonlinear_arith)
            requires
                count >= 1,
        ;
    }
    lemma_rotate_classes(w, base.0);
    assert(forall|m: int|
        0 <= m < w2.len() ==> (#[trigger] w2[m]) + OCTAVE_STEPS * (count - 1) <= u8::MAX) by {
        assert(forall|m: int| 0 <= m < w2.len() - 1 ==> w2[m] == w[m + 1]);
        assert(w2[w2.len() - 1] == (w[0] + OCTAVE_STEPS) as u8);
        assert(forall|m: int|
            0 <= m < w.len() ==> (#[trigger] w[m]) + OCTAVE_STEPS + OCTAVE_STEPS * (count - 1)
                <= u8::MAX) by {
            assert(OCTAVE_STEPS + OCTAVE_STEPS * (count - 1) == OCTAVE_STEPS * count)
                by (nonlinear_arith);
        }
    }
    if j < head.len() {
        lemma_scan_members(k2, t2, SCAN_POSITIONS as int, true, j);
        assert(root_key_of(w2).0 < OCTAVE_STEPS);
        lemma_normalize_classes(w2, base.0);
        assert(k2.0 == root_key_of(w2).add_spec(base).0);
    } else {
        lemma_gen_candidates_classes(w2, base, (count - 1) as nat, j - head.len());
    }
}

/// Whatever reading the recognizer returns is enharmonically the
/// input: every candidate's root and template sound exactly the pitch
/// classes of the collection that was heard. In particular the
/// recognition of any inversion names a chord over the same pitch
/// classes as the chord that was inverted.
pub proof fn lemma_detect_enharmonic(s: Seq<u8>, j: int)
    requires
        0 < s.len() <= 20,
        0 <= j < detect_spec(s).len(),
    ensures
        transposed_classes(detect_spec(s)[j].template_spec(), detect_spec(s)[j].key_spec().0)
            == pitch_classes(s),
{
    broadcast use vstd::arithmetic::div_mod::lemma_mod_twice;

    let k = root_key_of(s);
    let t = normal_template_of(s);
    let direct = scan_upto(k, t, SCAN_POSITIONS as int, false);
    let cands = if direct.len() == 0 {
        gen_candidates(t, k, (s.len() - 1) as nat)
    } else {
        direct
    };
    let jj = if cands.len() == 2 && cands[0] is Major7b5 && cands[1] is Major7b5 {
        j + 1
    } else {
        j
    };
    assert(detect_spec(s)[j] == cands[jj]);
    lemma_normalize_classes(s, 0);
    assert(root_key_of(s).add_spec(Key(0)).0 == k.0) by {
        vstd::arithmetic::div_mod::lemma_mod_bound(sort_u8(s)[0] as int, 12);
    }
    if direct.len() == 0 {
        lemma_normal_template_shape(s);
        assert(forall|m: int|
            0 <= m < t.len() ==> (#[trigger] t[m]) + OCTAVE_STEPS * ((s.len() - 1) as nat)
                <= u8::MAX) by {
            assert(12 * ((s.len() - 1) as nat) <= 228) by (nonlinear_arith)
                requires
                    1 <= s.len() <= 20,
            ;
            assert(OCTAVE_STEPS * ((s.len() - 1) as nat) == 12 * ((s.len() - 1) as nat));
        }
        assert(k.0 < OCTAVE_STEPS);
        lemma_gen_candidates_classes(t, k, (s.len() - 1) as nat, jj);
    } else {
        lemma_scan_members(k, t, SCAN_POSITIONS as int, false, jj);
    }
}

/// The documented enharmonic alias at the head of the fallback
/// family: the first inversion of a minor-seventh chord reads as the
/// major-sixth chord rooted on its minor third, for every root.
pub proof fn lemma_minor7_first_inversion_reads_major6(r: u8)
    requires
        r < OCTAVE_STEPS,
    ensures
        detect_spec(notes_spec(Chord::Minor7(Key(r)), 4, 1)) == seq![
            Chord::Major6(Key(r).add_spec(Key(3))),
        ],
{
    let c = Chord::Minor7(Key(r));
    let t = c.template_spec();
    let raw = raw_notes(t, r, 4, 1);
    lemma_raw_notes_index(t, r, 4, 1);
    let a = (r + 72) as u8;
    let b = (r + 63) as u8;
    let cc = (r + 67) as u8;
    let d = (r + 70) as u8;
    assert(raw =~= seq![a, b, cc, d]);
    // sorting moves the raised root to the top
    let sorted = seq![b, cc, d, a];
    assert(sort_u8(raw) == sorted) by {
        assert(seq![a, b, cc, d].drop_first() =~= seq![b, cc, d]);
        assert(seq![b, cc, d].drop_first() =~= seq![cc, d]);
        assert(seq![cc, d].drop_first() =~= seq![d]);
        assert(seq![d].drop_first() =~= Seq::<u8>::empty());
        assert(sort_u8(Seq::<u8>::empty()) == Seq::<u8>::empty());
        assert(sort_u8(seq![d]) == insert_sorted_u8(d, Seq::<u8>::empty()));
        assert(insert_sorted_u8(d, Seq::<u8>::empty()) =~= seq![d]);
        assert(sort_u8(seq![cc, d]) == insert_sorted_u8(cc, seq![d]));
        assert(insert_sorted_u8(cc, seq![d]) =~= seq![cc, d]);
        assert(sort_u8(seq![b, cc, d]) == insert_sorted_u8(b, seq![cc, d]));
        assert(insert_sorted_u8(b, seq![cc, d]) =~= seq![b, cc, d]);
        assert(sort_u8(seq![a, b, cc, d]) == insert_sorted_u8(a, seq![b, cc, d]));
        assert(seq![b, cc, d].drop_first() =~= seq![cc, d]);
        assert(insert_sorted_u8(a, seq![cc, d]) =~= seq![cc] + insert_sorted_u8(a, seq![d]));
        assert(insert_sorted_u8(a, seq![d]) =~= seq![d] + insert_sorted_u8(
            a,
            Seq::<u8>::empty(),
        ));
        assert(insert_sorted_u8(a, Seq::<u8>::empty()) =~= seq![a]);
        assert(insert_sorted_u8(a, seq![b, cc, d]) =~= seq![b, cc, d, a]);
    }
    let s_notes = notes_spec(c, 4, 1);
    assert(s_notes == sorted);
    // normalizing recovers the major-sixth template on the new root
    let root = b;
    let offs = offsets_from(sorted, root);
    lemma_offsets_from_index(sorted, root);
    assert(offs =~= seq![0u8, 4u8, 7u8, 9u8]);
    assert(sort_u8(s_notes) == sorted) by {
        assert(is_ascending(sorted));
        lemma_sort_u8_of_ascending(sorted);
    }
    let t6 = normal_template_of(s_notes);
    assert(t6 == seq![0u8, 4u8, 7u8, 9u8]) by {
        assert(is_ascending(seq![0u8, 4u8, 7u8, 9u8]));
        lemma_sort_u8_of_ascending(seq![0u8, 4u8, 7u8, 9u8]);
        lemma_dedup_sorted_of_distinct(seq![0u8, 4u8, 7u8, 9u8]);
    }
    let k6 = root_key_of(s_notes);
    assert(k6 == Key(r).add_spec(Key(3))) by {
        vstd::arithmetic::div_mod::lemma_mod_add_multiples_vanish(r + 51, 12);
        vstd::arithmetic::div_mod::lemma_mod_add_multiples_vanish(r + 39, 12);
        vstd::arithmetic::div_mod::lemma_mod_add_multiples_vanish(r + 27, 12);
        vstd::arithmetic::div_mod::lemma_mod_add_multiples_vanish(r + 15, 12);
        vstd::arithmetic::div_mod::lemma_mod_add_multiples_vanish(r + 3, 12);
    }
    let c6 = Chord::Major6(k6);
    assert(c6.template_spec() =~= t6);
    lemma_scan_upto_unique(k6, c6, SCAN_POSITIONS as int, false);
    lemma_quality_index_inverse(c6, 0, k6);
    let direct = scan_upto(k6, t6, SCAN_POSITIONS as int, false);
    assert(direct == seq![c6]);
    assert(direct.len() == 1);
}

} // verus!

