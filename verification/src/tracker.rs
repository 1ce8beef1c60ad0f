//! Tracking which notes the player is holding, and deciding what the
//! current chord is.
//!
//! The held notes form a set of `(channel, note)` pairs, kept as a
//! strictly sorted vector so that equal sets have equal
//! representations. Incoming MIDI packets add and remove pairs; after
//! a batch, [`chord_update`] says whether and with what to overwrite
//! the shared current-chord cell.

use vstd::prelude::*;

use crate::chord::Chord;
use crate::chord::detect_chord;
use crate::chord::detect_spec;

verus! {

/// The strict order on `(channel, note)` pairs: by channel, then note.
pub open spec fn pair_lt(a: (u8, u8), b: (u8, u8)) -> bool {
    a.0 < b.0 || (a.0 == b.0 && a.1 < b.1)
}

/// A strictly ascending pair sequence: the canonical shape of a held
/// set.
pub open spec fn pairs_sorted(s: Seq<(u8, u8)>) -> bool {
    forall|i: int, j: int| 0 <= i < j < s.len() ==> pair_lt(#[trigger] s[i], #[trigger] s[j])
}

/// The set of notes currently held, one entry per `(channel, note)`
/// pair.
#[derive(Debug, Clone, PartialEq, Eq)]
pub struct Playing {
    entries: Vec<(u8, u8)>,
}

impl View for Playing {
    type V = Set<(u8, u8)>;

    closed spec fn view(&self) -> Set<(u8, u8)> {
        self.entries@.to_set()
    }
}

impl Playing {
    /// The canonical entry list: the held pairs in strictly ascending
    /// order.
    pub closed spec fn entries_spec(&self) -> Seq<(u8, u8)> {
        self.entries@
    }

    /// The canonical shape: entries strictly ascending, and the view
    /// is exactly their set.
    pub closed spec fn wf(&self) -> bool {
        pairs_sorted(self.entries@)
    }

    /// The view is the entry list's set.
    pub proof fn lemma_view_is_entries(&self)
        ensures
            self@ == self.entries_spec().to_set(),
            self@.finite(),
            self@.len() == (if self.wf() {
                self.entries_spec().len()
            } else {
                self@.len()
            }),
    {
        broadcast use vstd::seq_lib::group_seq_lib_default;

        assert(self.entries@.to_set().finite()) by {
            vstd::seq_lib::seq_to_set_is_finite(self.entries@);
        }
        if self.wf() {
            assert(self.entries@.no_duplicates());
            self.entries@.unique_seq_to_set();
        }
    }

    /// An empty held set.
    pub fn new() -> (r: Playing)
        ensures
            r.wf(),
            r@ == Set::<(u8, u8)>::empty(),
            r.entries_spec() == Seq::<(u8, u8)>::empty(),
    {
        let r = Playing { entries: Vec::new() };
        proof {
            assert(r.entries@.to_set() =~= Set::<(u8, u8)>::empty());
        }
        r
    }

    /// How many notes are held.
    pub fn len(&self) -> (n: usize)
        requires
            self.wf(),
        ensures
            n == self@.len(),
            n == self.entries_spec().len(),
    {
        proof {
            self.lemma_view_is_entries();
        }
        self.entries.len()
    }

    /// Whether `(channel, note)` is held.
    pub fn contains(&self, channel: u8, note: u8) -> (r: bool)
        requires
            self.wf(),
        ensures
            r == self@.contains((channel, note)),
    {
        let mut i: usize = 0;
        while i < self.entries.len()
            invariant
                0 <= i <= self.entries@.len(),
                forall|j: int| 0 <= j < i ==> self.entries@[j] != (channel, note),
            decreases self.entries@.len() - i,
        {
            let (c, n) = self.entries[i];
            if c == channel && n == note {
                proof {
                    assert(self.entries@.contains((channel, note)));
                }
                return true;
            }
            i = i + 1;
        }
        proof {
            assert(!self.entries@.contains((channel, note)));
        }
        false
    }

    /// The held pairs in ascending order.
    pub fn to_vec(&self) -> (r: Vec<(u8, u8)>)
        ensures
            r@ == self.entries_spec(),
    {
        let mut r: Vec<(u8, u8)> = Vec::new();
        let mut i: usize = 0;
        while i < self.entries.len()
            invariant
                0 <= i <= self.entries@.len(),
                r@ == self.entries@.subrange(0, i as int),
            decreases self.entries@.len() - i,
        {
            r.push(self.entries[i]);
            proof {
                assert(r@ =~= self.entries@.subrange(0, i as int + 1));
            }
            i = i + 1;
        }
        proof {
            assert(self.entries@.subrange(0, self.entries@.len() as int) =~= self.entries@);
        }
        r
    }

    /// The notes held, channel dropped, in entry order.
    pub fn notes(&self) -> (r: Vec<u8>)
        ensures
            r@ == notes_of(self.entries_spec()),
    {
        let mut r: Vec<u8> = Vec::new();
        let mut i: usize = 0;
        while i < self.entries.len()
            invariant
                0 <= i <= self.entries@.len(),
                r@ == notes_of(self.entries@.subrange(0, i as int)),
            decreases self.entries@.len() - i,
        {
            let ghost pre = self.entries@.subrange(0, i as int + 1);
            proof {
                assert(pre.drop_last() =~= self.entries@.subrange(0, i as int));
            }
            let (_, n) = self.entries[i];
            r.push(n);
            i = i + 1;
        }
        proof {
            assert(self.entries@.subrange(0, self.entries@.len() as int) =~= self.entries@);
        }
        r
    }

    /// Add `(channel, note)` to the held set.
    pub fn insert(&mut self, channel: u8, note: u8)
        requires
            old(self).wf(),
        ensures
            final(self).wf(),
            final(self)@ == old(self)@.insert((channel, note)),
    {
        let x = (channel, note);
        let mut p: usize = 0;
        while p < self.entries.len() && pair_lt_exec(&self.entries[p], &x)
            invariant
                0 <= p <= self.entries@.len(),
                self == old(self),
                forall|j: int| 0 <= j < p ==> pair_lt(#[trigger] self.entries@[j], x),
            decreases self.entries@.len() - p,
        {
            p = p + 1;
        }
        if p < self.entries.len() {
            let (c, n) = self.entries[p];
            if c == channel && n == note {
                proof {
                    assert(self.entries@.contains(x));
                    assert(self@.contains(x));
                    assert(self@.insert(x) =~= self@);
                }
                return ;
            }
        }
        let ghost before = self.entries@;
        self.entries.insert(p, x);
        proof {
            let after = self.entries@;
            assert(forall|j: int| 0 <= j < p ==> #[trigger] after[j] == before[j]);
            assert(after[p as int] == x);
            assert(forall|j: int| p < j < after.len() ==> #[trigger] after[j] == before[j - 1]);
            assert(forall|j: int| p < j < after.len() ==> pair_lt(x, #[trigger] after[j])) by {
                assert(forall|j: int|
                    p <= j < before.len() ==> !pair_lt(#[trigger] before[j], x) && before[j] != x);
            }
            assert(pairs_sorted(after));
            assert forall|y: (u8, u8)| after.to_set().contains(y) implies before.to_set().insert(
                x,
            ).contains(y) by {
                let j = choose|j: int| 0 <= j < after.len() && after[j] == y;
                if j < p {
                    assert(before[j] == y);
                    assert(before.contains(y));
                } else if j > p {
                    assert(before[j - 1] == y);
                    assert(before.contains(y));
                }
            }
            assert forall|y: (u8, u8)| before.to_set().insert(x).contains(y) implies after.to_set()
                .contains(y) by {
                if y == x {
                    assert(after.contains(y));
                } else {
                    let j = choose|j: int| 0 <= j < before.len() && before[j] == y;
                    if j < p {
                        assert(after[j] == y);
                    } else {
                        assert(after[j + 1] == y);
                    }
                    assert(after.contains(y));
                }
            }
            assert(after.to_set() =~= before.to_set().insert(x));
        }
    }

    /// Remove `(channel, note)` from the held set.
    pub fn remove(&mut self, channel: u8, note: u8)
        requires
            old(self).wf(),
        ensures
            final(self).wf(),
            final(self)@ == old(self)@.remove((channel, note)),
    {
        let x = (channel, note);
        let mut i: usize = 0;
        while i < self.entries.len()
            invariant
                0 <= i <= self.entries@.len(),
                self == old(self),
                forall|j: int| 0 <= j < i ==> self.entries@[j] != x,
            decreases self.entries@.len() - i,
        {
            let (c, n) = self.entries[i];
            if c == channel && n == note {
                let ghost before = self.entries@;
                self.entries.remove(i);
                proof {
                    let after = self.entries@;
                    assert(forall|j: int| 0 <= j < i ==> #[trigger] after[j] == before[j]);
                    assert(forall|j: int|
                        i <= j < after.len() ==> #[trigger] after[j] == before[j + 1]);
                    assert(pairs_sorted(after));
                    assert(forall|j: int| 0 <= j < before.len() && j != i ==> #[trigger] before[j]
                        != x);
                    assert forall|y: (u8, u8)| after.to_set().contains(y) implies before.to_set()
                        .remove(x).contains(y) by {
                        let j = choose|j: int| 0 <= j < after.len() && after[j] == y;
                        if j < i {
                            assert(before[j] == y);
                        } else {
                            assert(before[j + 1] == y);
                        }
                        assert(before.contains(y));
                        assert(y != x);
                    }
                    assert forall|y: (u8, u8)| before.to_set().remove(x).contains(y) implies after
                        .to_set().contains(y) by {
                        let j = choose|j: int| 0 <= j < before.len() && before[j] == y;
                        if j < i {
                            assert(after[j] == y);
                        } else {
                            assert(after[j - 1] == y);
                        }
                        assert(after.contains(y));
                    }
                    assert(after.to_set() =~= before.to_set().remove(x));
                }
                return ;
            }
            i = i + 1;
        }
        proof {
            assert(!self.entries@.contains(x));
            assert(!self@.contains(x));
            assert(self@.remove(x) =~= self@);
        }
    }
}

/// Decide [`pair_lt`].
fn pair_lt_exec(a: &(u8, u8), b: &(u8, u8)) -> (r: bool)
    ensures
        r == pair_lt(*a, *b),
{
    a.0 < b.0 || (a.0 == b.0 && a.1 < b.1)
}

/// The notes of an entry list, channel dropped, in order.
pub open spec fn notes_of(entries: Seq<(u8, u8)>) -> Seq<u8>
    decreases entries.len(),
{
    if entries.len() == 0 {
        Seq::empty()
    } else {
        notes_of(entries.drop_last()).push(entries.last().1)
    }
}

/// What one MIDI packet does to the held set. Active Sense and
/// packets of other lengths change nothing; a note-on with positive
/// velocity adds its pair; a note-off, or a note-on at velocity zero,
/// removes it unless notes are being accumulated; controller and
/// unknown messages change nothing.
pub open spec fn extract_spec(data: Seq<u8>, held: Set<(u8, u8)>, accumulate_notes: bool) -> Set<
    (u8, u8),
> {
    if data.len() == 1 && data[0] == 0xFEu8 {
        held
    } else if data.len() != 3 {
        held
    } else {
        let channel = data[0] & 0x0fu8;
        let command = data[0] & 0xf0u8;
        let note = data[1];
        let velocity = data[2];
        if command == 0xB0u8 {
            held
        } else if command == 0x90u8 && velocity > 0 {
            held.insert((channel, note))
        } else if (command == 0x90u8 || command == 0x80u8) && (command != 0x90u8 || velocity
            == 0) {
            if accumulate_notes {
                held
            } else {
                held.remove((channel, note))
            }
        } else {
            held
        }
    }
}

/// Apply one MIDI packet to the held set, per [`extract_spec`]. With
/// `accumulate_notes`, note-offs are ignored, so the set gathers every
/// note that sounded.
pub fn extract_playing_notes(data: &[u8], playing: &mut Playing, accumulate_notes: bool)
    requires
        old(playing).wf(),
    ensures
        final(playing).wf(),
        final(playing)@ == extract_spec(data@, old(playing)@, accumulate_notes),
{
    if data.len() == 1 && data[0] == 0xFE {
        return ;
    }
    if data.len() != 3 {
        return ;
    }
    let channel = data[0] & 0x0f;
    let command = data[0] & 0xf0;
    let note = data[1];
    let velocity = data[2];
    if command == 0xB0 {
    } else if command == 0x90 && velocity > 0 {
        playing.insert(channel, note);
    } else if (command == 0x90 || command == 0x80) && (command != 0x90 || velocity == 0) {
        if !accumulate_notes {
            playing.remove(channel, note);
        }
    }
}

/// Apply one incoming MIDI packet to the held set.
pub fn process_midi(data: &[u8], playing: &mut Playing)
    requires
        old(playing).wf(),
    ensures
        final(playing).wf(),
        final(playing)@ == extract_spec(data@, old(playing)@, false),
{
    extract_playing_notes(data, playing, false)
}

/// Releasing a note that is not held changes nothing: a note-off for
/// an absent `(channel, note)` pair leaves the held set as it was.
pub proof fn lemma_note_off_absent_unchanged(
    held: Set<(u8, u8)>,
    channel: u8,
    note: u8,
    velocity: u8,
)
    requires
        channel < 16,
        !held.contains((channel, note)),
    ensures
        extract_spec(seq![0x80u8 | channel, note, velocity], held, false) == held,
{
    let data = seq![0x80u8 | channel, note, velocity];
    assert(data.len() == 3);
    assert((0x80u8 | channel) & 0x0fu8 == channel) by (bit_vector)
        requires
            channel < 16,
    ;
    assert((0x80u8 | channel) & 0xf0u8 == 0x80u8) by (bit_vector)
        requires
            channel < 16,
    ;
    assert(held.remove((channel, note)) =~= held);
}

/// What a batch of input leaves in the current-chord cell. When the
/// held set changed and is non-empty, the cell is overwritten
/// (`Some`): with the first detected chord, or with nothing when no
/// chord is recognized. Otherwise the cell is left alone (`None`).
pub fn chord_update(was_playing: &Playing, playing: &Playing) -> (r: Option<Option<Chord>>)
    requires
        was_playing.wf(),
        playing.wf(),
        playing.entries_spec().len() <= 20,
    ensures
        ({
            let unchanged = was_playing@ == playing@;
            let notes = notes_of(playing.entries_spec());
            if unchanged || playing@.len() == 0 {
                r is None
            } else {
                r == Some(
                    if detect_spec(notes).len() > 0 {
                        Some(detect_spec(notes)[0])
                    } else {
                        Option::<Chord>::None
                    },
                )
            }
        }),
{
    let was = was_playing.to_vec();
    let now = playing.to_vec();
    let mut same = was.len() == now.len();
    if same {
        let mut i: usize = 0;
        while i < now.len()
            invariant
                0 <= i <= now@.len(),
                was@.len() == now@.len(),
                was@ == was_playing.entries_spec(),
                now@ == playing.entries_spec(),
                same <==> (forall|j: int| 0 <= j < i ==> was@[j] == now@[j]),
            decreases now@.len() - i,
        {
            let (wc, wn) = was[i];
            let (nc, nn) = now[i];
            if wc != nc || wn != nn {
                same = false;
                proof {
                    assert(was@[i as int] != now@[i as int]);
                }
            }
            i = i + 1;
        }
    }
    proof {
        if same {
            assert(was@ =~= now@);
            assert(was_playing@ == playing@) by {
                was_playing.lemma_view_is_entries();
                playing.lemma_view_is_entries();
            }
        } else {
            assert(was@ != now@);
            if was_playing@ == playing@ {
                lemma_canonical_pairs_unique(
                    was_playing.entries_spec(),
                    playing.entries_spec(),
                    was_playing@,
                    playing@,
                );
                was_playing.lemma_view_is_entries();
                playing.lemma_view_is_entries();
                assert(false);
            }
        }
        playing.lemma_view_is_entries();
    }
    if !same && playing.len() > 0 {
        let notes = playing.notes();
        proof {
            lemma_notes_of_len(playing.entries_spec());
        }
        let detected = detect_chord(&notes);
        if detected.len() > 0 {
            Some(Some(detected[0]))
        } else {
            Some(None)
        }
    } else {
        None
    }
}

/// An entry list has one note per entry.
proof fn lemma_notes_of_len(entries: Seq<(u8, u8)>)
    ensures
        notes_of(entries).len() == entries.len(),
    decreases entries.len(),
{
    if entries.len() > 0 {
        lemma_notes_of_len(entries.drop_last());
    }
}

/// Dropping the head of a strictly sorted list removes exactly the
/// head from its set, and keeps the rest sorted.
proof fn lemma_drop_first_set(a: Seq<(u8, u8)>)
    requires
        pairs_sorted(a),
        a.len() > 0,
    ensures
        pairs_sorted(a.drop_first()),
        a.drop_first().to_set() == a.to_set().remove(a[0]),
{
    let ra = a.drop_first();
    assert(forall|i: int| 0 <= i < ra.len() ==> #[trigger] ra[i] == a[i + 1]);
    assert(pairs_sorted(ra));
    assert forall|y: (u8, u8)| ra.to_set().contains(y) implies a.to_set().remove(a[0]).contains(
        y,
    ) by {
        let i = choose|i: int| 0 <= i < ra.len() && ra[i] == y;
        assert(a[i + 1] == y);
        assert(a.contains(y));
        assert(pair_lt(a[0], a[i + 1]));
        assert(y != a[0]);
    }
    assert forall|y: (u8, u8)| a.to_set().remove(a[0]).contains(y) implies ra.to_set().contains(
        y,
    ) by {
        let i = choose|i: int| 0 <= i < a.len() && a[i] == y;
        if i == 0 {
        } else {
            assert(ra[i - 1] == y);
            assert(ra.contains(y));
        }
    }
    assert(ra.to_set() =~= a.to_set().remove(a[0]));
}

/// Canonical representations are unique: two strictly sorted entry
/// lists with the same set are the same list.
proof fn lemma_canonical_pairs_unique(
    a: Seq<(u8, u8)>,
    b: Seq<(u8, u8)>,
    sa: Set<(u8, u8)>,
    sb: Set<(u8, u8)>,
)
    requires
        pairs_sorted(a),
        pairs_sorted(b),
        sa == a.to_set(),
        sb == b.to_set(),
        sa == sb,
    ensures
        a == b,
    decreases a.len(),
{
    broadcast use vstd::seq_lib::group_seq_lib_default;

    if a.len() == 0 {
        if b.len() > 0 {
            assert(b.contains(b[0]));
            assert(a.to_set().contains(b[0]));
            assert(a.contains(b[0]));
        }
        assert(a =~= b);
    } else {
        assert(a.contains(a[0]));
        assert(b.to_set().contains(a[0]));
        assert(b.contains(a[0]));
        assert(b.len() > 0);
        assert(b.contains(b[0]));
        assert(a.to_set().contains(b[0]));
        assert(a.contains(b[0]));
        let ia = choose|i: int| 0 <= i < a.len() && a[i] == b[0];
        let ib = choose|i: int| 0 <= i < b.len() && b[i] == a[0];
        assert(a[0] == b[0]) by {
            if ia > 0 {
                assert(pair_lt(a[0], a[ia]));
            }
            if ib > 0 {
                assert(pair_lt(b[0], b[ib]));
            }
        }
        let ra = a.drop_first();
        let rb = b.drop_first();
        assert(pairs_sorted(ra)) by {
            assert(forall|i: int, j: int|
                0 <= i < j < ra.len() ==> pair_lt(#[trigger] ra[i], #[trigger] ra[j])) by {
                assert(forall|i: int| 0 <= i < ra.len() ==> ra[i] == a[i + 1]);
            }
        }
        assert(pairs_sorted(rb)) by {
            assert(forall|i: int, j: int|
                0 <= i < j < rb.len() ==> pair_lt(#[trigger] rb[i], #[trigger] rb[j])) by {
                assert(forall|i: int| 0 <= i < rb.len() ==> rb[i] == b[i + 1]);
            }
        }
        lemma_drop_first_set(a);
        lemma_drop_first_set(b);
        lemma_canonical_pairs_unique(ra, rb, ra.to_set(), rb.to_set());
        assert(a =~= seq![a[0]] + ra);
        assert(b =~= seq![b[0]] + rb);
    }
}

} // verus!
