//! Building looping accompaniment patterns of timed note events.
//!
//! A [`TimeCode`] addresses a point in musical time as bars, beats and
//! ticks; a bar is four quarter-note beats. The builders place
//! simultaneous note-on/note-off pairs for the tones of a chord at a
//! subdivision of the bar, held for three quarters of the subdivision
//! so that repeated hits stay detached.

use vstd::prelude::*;

use crate::chord::Chord;
use crate::chord::notes_spec;
use crate::play::Event;
use crate::play::TimedEvent;
use crate::play::sort_events;
use crate::play::sort_events_vec;

verus! {

/// The note-on/note-off pair of one note: on at `timing`, off at
/// `timing + length` with the fixed release velocity 64.
pub open spec fn note_events_spec(timing: u32, length: u32, channel: u8, note: u8, velocity: u8) -> (
    TimedEvent,
    TimedEvent,
) {
    (
        TimedEvent { timing, event: Event::NoteOn { channel, note, velocity } },
        TimedEvent {
            timing: (timing + length) as u32,
            event: Event::NoteOff { channel, note, velocity: 64u8 },
        },
    )
}

/// Make the note-on/note-off pair of one note.
pub fn create_note(timing: u32, length: u32, channel: u8, note: u8, velocity: u8) -> (r: (
    TimedEvent,
    TimedEvent,
))
    requires
        timing + length <= u32::MAX,
    ensures
        r == note_events_spec(timing, length, channel, note, velocity),
{
    (
        TimedEvent { timing, event: Event::NoteOn { channel, note, velocity } },
        TimedEvent {
            timing: timing + length,
            event: Event::NoteOff { channel, note, velocity: 64 },
        },
    )
}

/// A point in musical time: bars, beats and ticks.
#[derive(Clone, Copy, Debug)]
pub struct TimeCode {
    bar: u32,
    beat: u8,
    tick: u32,
}

/// The tick offset a time code addresses at the resolution
/// `ticks_per_quarter`, four beats to the bar.
pub open spec fn timecode_ticks(t: TimeCode, ticks_per_quarter: int) -> int {
    (t.bar_spec() * 4 + t.beat_spec()) * ticks_per_quarter + t.tick_spec()
}

impl TimeCode {
    /// The bar count.
    pub closed spec fn bar_spec(self) -> u32 {
        self.bar
    }

    /// The beat within the bar.
    pub closed spec fn beat_spec(self) -> u8 {
        self.beat
    }

    /// The tick within the beat.
    pub closed spec fn tick_spec(self) -> u32 {
        self.tick
    }

    pub fn new(bar: u32, beat: u8, tick: u32) -> (t: TimeCode)
        ensures
            t.bar_spec() == bar,
            t.beat_spec() == beat,
            t.tick_spec() == tick,
    {
        TimeCode { bar, beat, tick }
    }

    /// The tick offset this time code addresses.
    pub fn ticks(&self, ticks_per_quarter: u32) -> (r: u32)
        requires
            self.bar_spec() * 4 + self.beat_spec() <= u32::MAX,
            timecode_ticks(*self, ticks_per_quarter as int) <= u32::MAX,
        ensures
            r == timecode_ticks(*self, ticks_per_quarter as int),
    {
        (self.bar * 4 + self.beat as u32) * ticks_per_quarter + self.tick
    }

    /// Component-wise addition of time codes.
    pub fn add(self, rhs: TimeCode) -> (r: TimeCode)
        requires
            self.bar_spec() + rhs.bar_spec() <= u32::MAX,
            self.beat_spec() + rhs.beat_spec() <= u8::MAX,
            self.tick_spec() + rhs.tick_spec() <= u32::MAX,
        ensures
            r.bar_spec() == self.bar_spec() + rhs.bar_spec(),
            r.beat_spec() == self.beat_spec() + rhs.beat_spec(),
            r.tick_spec() == self.tick_spec() + rhs.tick_spec(),
    {
        TimeCode { bar: self.bar + rhs.bar, beat: self.beat + rhs.beat, tick: self.tick + rhs.tick }
    }
}

impl PartialEq for TimeCode {
    /// Two time codes are equal when they address the same instant:
    /// beats and ticks normalize at 1920 ticks per quarter.
    fn eq(&self, rhs: &TimeCode) -> (r: bool) {
        (self.bar as u64 * 4 + self.beat as u64) * 1920 + self.tick as u64 == (rhs.bar as u64 * 4
            + rhs.beat as u64) * 1920 + rhs.tick as u64
    }
}

impl vstd::std_specs::cmp::PartialEqSpecImpl for TimeCode {
    open spec fn obeys_eq_spec() -> bool {
        true
    }

    open spec fn eq_spec(&self, rhs: &TimeCode) -> bool {
        timecode_ticks(*self, 1920) == timecode_ticks(*rhs, 1920)
    }
}

/// The note-on/note-off pairs of a run of notes, in order: each note
/// on at `timing`, off `length` ticks later.
pub open spec fn note_pair_events(notes: Seq<u8>, timing: u32, length: u32, velocity: u8) -> Seq<
    TimedEvent,
>
    decreases notes.len(),
{
    if notes.len() == 0 {
        Seq::empty()
    } else {
        let pair = note_events_spec(timing, length, 0u8, notes.last(), velocity);
        note_pair_events(notes.drop_last(), timing, length, velocity) + seq![pair.0, pair.1]
    }
}

/// The note-on/note-off pair of one note at a subdivision of the bar:
/// held for three quarters of the subdivision, at velocity 120.
pub fn create_note_part(ticks_per_quarter: u32, offset: TimeCode, part: u8, note: u8) -> (r: (
    TimedEvent,
    TimedEvent,
))
    requires
        part > 0,
        offset.bar_spec() * 4 + offset.beat_spec() <= u32::MAX,
        3 * ticks_per_quarter <= u32::MAX,
        timecode_ticks(offset, ticks_per_quarter as int) + 3 * ticks_per_quarter / part as int
            <= u32::MAX,
    ensures
        r == note_events_spec(
            timecode_ticks(offset, ticks_per_quarter as int) as u32,
            (3 * ticks_per_quarter / part as int) as u32,
            0u8,
            note,
            120u8,
        ),
{
    let length = 3 * ticks_per_quarter / part as u32;
    create_note(offset.ticks(ticks_per_quarter), length, 0, note, 120)
}

/// The events of one chord hit at a subdivision of the bar, sorted:
/// the chord's tones at octave 3, each on at `offset` and off three
/// quarters of the subdivision later.
pub open spec fn chord_part_events(
    ticks_per_quarter: int,
    offset_ticks: int,
    part: u8,
    chord: Chord,
) -> Seq<TimedEvent> {
    sort_events(
        note_pair_events(
            notes_spec(chord, 3, 0),
            offset_ticks as u32,
            (3 * ticks_per_quarter / part as int) as u32,
            120u8,
        ),
    )
}

/// Make the events of one chord hit at a subdivision of the bar.
pub fn create_chord_part(ticks_per_quarter: u32, offset: TimeCode, part: u8, chord: Chord) -> (r:
    Vec<TimedEvent>)
    requires
        part > 0,
        chord.key_spec().wf(),
        offset.bar_spec() * 4 + offset.beat_spec() <= u32::MAX,
        3 * ticks_per_quarter <= u32::MAX,
        timecode_ticks(offset, ticks_per_quarter as int) + 3 * ticks_per_quarter / part as int
            <= u32::MAX,
    ensures
        r@ == chord_part_events(
            ticks_per_quarter as int,
            timecode_ticks(offset, ticks_per_quarter as int),
            part,
            chord,
        ),
{
    let tones = chord.notes(3, 0);
    let mut pairs: Vec<TimedEvent> = Vec::new();
    let mut i: usize = 0;
    while i < tones.len()
        invariant
            0 <= i <= tones.len(),
            tones@ == notes_spec(chord, 3, 0),
            pairs@ == note_pair_events(
                tones@.subrange(0, i as int),
                timecode_ticks(offset, ticks_per_quarter as int) as u32,
                (3 * ticks_per_quarter / part as int) as u32,
                120u8,
            ),
        decreases tones.len() - i,
    {
        let ghost pre = tones@.subrange(0, i as int + 1);
        proof {
            assert(pre.drop_last() =~= tones@.subrange(0, i as int));
        }
        let (on, off) = create_note_part(ticks_per_quarter, offset, part, tones[i]);
        pairs.push(on);
        pairs.push(off);
        proof {
            assert(pairs@ =~= note_pair_events(
                pre,
                timecode_ticks(offset, ticks_per_quarter as int) as u32,
                (3 * ticks_per_quarter / part as int) as u32,
                120u8,
            ));
        }
        i = i + 1;
    }
    proof {
        assert(tones@.subrange(0, tones@.len() as int) =~= tones@);
    }
    sort_events_vec(&pairs)
}

/// The events of one bar of a chord: four quarter-note hits.
pub open spec fn bar_events_at(ticks_per_quarter: int, chord: Chord, bar: int) -> Seq<TimedEvent> {
    chord_part_events(ticks_per_quarter, bar * 4 * ticks_per_quarter, 4u8, chord)
        + chord_part_events(ticks_per_quarter, (bar * 4 + 1) * ticks_per_quarter, 4u8, chord)
        + chord_part_events(ticks_per_quarter, (bar * 4 + 2) * ticks_per_quarter, 4u8, chord)
        + chord_part_events(ticks_per_quarter, (bar * 4 + 3) * ticks_per_quarter, 4u8, chord)
}

/// Make one bar of a chord: four quarter-note hits.
pub fn create_bar(ticks_per_quarter: u32, chord: Chord) -> (r: Vec<TimedEvent>)
    requires
        chord.key_spec().wf(),
        4 * ticks_per_quarter <= u32::MAX,
    ensures
        r@ == bar_events_at(ticks_per_quarter as int, chord, 0),
{
    let mut timed_events: Vec<TimedEvent> = Vec::new();
    let mut beat: u8 = 0;
    while beat < 4
        invariant
            0 <= beat <= 4,
            timed_events@ == bar_beats_upto(ticks_per_quarter as int, chord, 0, beat as int),
        decreases 4 - beat,
    {
        let offset = TimeCode::new(0, beat, 0);
        proof {
            let t = ticks_per_quarter as int;
            assert(timecode_ticks(offset, t) == beat * t);
            assert(beat * t + t <= 4 * t) by (nonlinear_arith)
                requires
                    0 <= beat <= 3,
                    t >= 0,
            ;
            assert(3 * t / 4 <= t) by (nonlinear_arith)
                requires
                    t >= 0,
            ;
        }
        let mut part = create_chord_part(ticks_per_quarter, offset, 4, chord);
        timed_events.append(&mut part);
        beat = beat + 1;
    }
    proof {
        reveal_with_fuel(bar_beats_upto, 5);
        assert(bar_beats_upto(ticks_per_quarter as int, chord, 0, 4) =~= bar_events_at(
            ticks_per_quarter as int,
            chord,
            0,
        ));
    }
    timed_events
}

/// The first `beats` quarter-note hits of a bar.
pub open spec fn bar_beats_upto(ticks_per_quarter: int, chord: Chord, bar: int, beats: int) -> Seq<
    TimedEvent,
>
    decreases beats,
{
    if beats <= 0 {
        Seq::empty()
    } else {
        bar_beats_upto(ticks_per_quarter, chord, bar, beats - 1) + chord_part_events(
            ticks_per_quarter,
            (bar * 4 + (beats - 1)) * ticks_per_quarter,
            4u8,
            chord,
        )
    }
}

/// The events of a progression: one bar per chord, tiled in order.
pub open spec fn bars_events(ticks_per_quarter: int, chords: Seq<Chord>) -> Seq<TimedEvent>
    decreases chords.len(),
{
    if chords.len() == 0 {
        Seq::empty()
    } else {
        bars_events(ticks_per_quarter, chords.drop_last()) + bar_events_at(
            ticks_per_quarter,
            chords.last(),
            chords.len() - 1,
        )
    }
}

/// Make the events of a progression: one bar per chord, tiled in
/// order.
pub fn create_bars(ticks_per_quarter: u32, chords: &[Chord]) -> (r: Vec<TimedEvent>)
    requires
        forall|i: int| 0 <= i < chords@.len() ==> (#[trigger] chords@[i]).key_spec().wf(),
        4 * chords@.len() <= u32::MAX,
        4 * chords@.len() * ticks_per_quarter <= u32::MAX,
    ensures
        r@ == bars_events(ticks_per_quarter as int, chords@),
{
    let mut timed_events: Vec<TimedEvent> = Vec::new();
    let mut bar: usize = 0;
    while bar < chords.len()
        invariant
            0 <= bar <= chords@.len(),
            timed_events@ == bars_events(ticks_per_quarter as int, chords@.subrange(0, bar as int)),
        decreases chords@.len() - bar,
    {
        let chord = chords[bar];
        let ghost pre = chords@.subrange(0, bar as int + 1);
        proof {
            assert(pre.drop_last() =~= chords@.subrange(0, bar as int));
        }
        let mut beat: u8 = 0;
        while beat < 4
            invariant
                0 <= beat <= 4,
                timed_events@ == bars_events(
                    ticks_per_quarter as int,
                    chords@.subrange(0, bar as int),
                ) + bar_beats_upto(ticks_per_quarter as int, chord, bar as int, beat as int),
            decreases 4 - beat,
        {
            let offset = TimeCode::new(bar as u32, beat, 0);
            proof {
                let t = ticks_per_quarter as int;
                let n = chords@.len() as int;
                assert(offset.bar_spec() == bar as int);
                assert(timecode_ticks(offset, t) == (bar as int * 4 + beat as int) * t);
                assert((bar as int * 4 + beat as int) * t + t <= 4 * n * t) by (nonlinear_arith)
                    requires
                        0 <= bar as int <= n - 1,
                        0 <= beat as int <= 3,
                        t >= 0,
                ;
                assert(3 * t / 4 <= t) by (nonlinear_arith)
                    requires
                        t >= 0,
                ;
                assert(3 * t <= 4 * n * t) by (nonlinear_arith)
                    requires
                        n >= 1,
                        t >= 0,
                ;
            }
            let mut part = create_chord_part(ticks_per_quarter, offset, 4, chord);
            timed_events.append(&mut part);
            beat = beat + 1;
        }
        proof {
            reveal_with_fuel(bar_beats_upto, 5);
            assert(bar_beats_upto(ticks_per_quarter as int, chord, bar as int, 4) =~= bar_events_at(
                ticks_per_quarter as int,
                chord,
                bar as int,
            ));
            assert(timed_events@ =~= bars_events(ticks_per_quarter as int, pre));
        }
        bar = bar + 1;
    }
    proof {
        assert(chords@.subrange(0, chords@.len() as int) =~= chords@);
    }
    timed_events
}

} // verus!
