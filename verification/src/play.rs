//! Timed note events, the outbound MIDI encoder, and the slice
//! scheduler.
//!
//! A pattern is a sequence of [`TimedEvent`]s addressed in ticks from
//! the pattern origin. The [`Scheduler`] walks wall-clock time in fixed
//! slices: each call selects exactly the events whose nominal
//! nanosecond timestamp falls in the next slice window, re-homing
//! events into the following loop iteration when the window crosses the
//! pattern end, encodes them at the current root key, and computes how
//! long the caller may sleep.

use vstd::prelude::*;

use crate::key::Key;
use crate::key::OCTAVE_STEPS;

verus! {

/// A note message to be sent, before wire encoding.
#[derive(Debug, Clone, Copy, PartialEq, Eq, Structural)]
pub enum Event {
    NoteOn { channel: u8, note: u8, velocity: u8 },
    NoteOff { channel: u8, note: u8, velocity: u8 },
}

/// An [`Event`] at a tick offset from the pattern origin.
#[derive(Debug, Clone, Copy, PartialEq, Eq, Structural)]
pub struct TimedEvent {
    pub timing: u32,
    pub event: Event,
}

pub const NS_PER_MS: u64 = 1_000_000;

pub const NS_PER_US: u64 = 1_000;

/// The channel an event plays on.
pub open spec fn event_channel(e: Event) -> u8 {
    match e {
        Event::NoteOn { channel, .. } => channel,
        Event::NoteOff { channel, .. } => channel,
    }
}

/// The note an event plays.
pub open spec fn event_note(e: Event) -> u8 {
    match e {
        Event::NoteOn { note, .. } => note,
        Event::NoteOff { note, .. } => note,
    }
}

/// The velocity an event plays at.
pub open spec fn event_velocity(e: Event) -> u8 {
    match e {
        Event::NoteOn { velocity, .. } => velocity,
        Event::NoteOff { velocity, .. } => velocity,
    }
}

/// Note-on events order before note-off events at the same tick.
pub open spec fn event_rank(e: Event) -> int {
    match e {
        Event::NoteOn { .. } => 0,
        Event::NoteOff { .. } => 1,
    }
}

/// The total order on timed events: by tick, then kind (note-on before
/// note-off), then channel, note and velocity.
pub open spec fn te_le(a: TimedEvent, b: TimedEvent) -> bool {
    if a.timing != b.timing {
        a.timing < b.timing
    } else if event_rank(a.event) != event_rank(b.event) {
        event_rank(a.event) < event_rank(b.event)
    } else if event_channel(a.event) != event_channel(b.event) {
        event_channel(a.event) < event_channel(b.event)
    } else if event_note(a.event) != event_note(b.event) {
        event_note(a.event) < event_note(b.event)
    } else {
        event_velocity(a.event) <= event_velocity(b.event)
    }
}

/// Decide [`te_le`].
fn te_le_exec(a: &TimedEvent, b: &TimedEvent) -> (r: bool)
    ensures
        r == te_le(*a, *b),
{
    let (ar, ach, an, av) = match a.event {
        Event::NoteOn { channel, note, velocity } => (0u8, channel, note, velocity),
        Event::NoteOff { channel, note, velocity } => (1u8, channel, note, velocity),
    };
    let (br, bch, bn, bv) = match b.event {
        Event::NoteOn { channel, note, velocity } => (0u8, channel, note, velocity),
        Event::NoteOff { channel, note, velocity } => (1u8, channel, note, velocity),
    };
    if a.timing != b.timing {
        a.timing < b.timing
    } else if ar != br {
        ar < br
    } else if ach != bch {
        ach < bch
    } else if an != bn {
        an < bn
    } else {
        av <= bv
    }
}

/// `x` inserted in front of the first event of `s` not ordered below
/// it.
pub open spec fn insert_sorted_event(x: TimedEvent, s: Seq<TimedEvent>) -> Seq<TimedEvent>
    decreases s.len(),
{
    if s.len() == 0 {
        seq![x]
    } else if te_le(x, s[0]) {
        seq![x] + s
    } else {
        seq![s[0]] + insert_sorted_event(x, s.drop_first())
    }
}

/// Insertion sort of timed events under [`te_le`].
pub open spec fn sort_events(s: Seq<TimedEvent>) -> Seq<TimedEvent>
    decreases s.len(),
{
    if s.len() == 0 {
        Seq::empty()
    } else {
        insert_sorted_event(s[0], sort_events(s.drop_first()))
    }
}

proof fn lemma_insert_sorted_event_len(x: TimedEvent, s: Seq<TimedEvent>)
    ensures
        insert_sorted_event(x, s).len() == s.len() + 1,
    decreases s.len(),
{
    if s.len() > 0 && !te_le(x, s[0]) {
        lemma_insert_sorted_event_len(x, s.drop_first());
    }
}

proof fn lemma_insert_sorted_event_at(x: TimedEvent, s: Seq<TimedEvent>, p: int)
    requires
        0 <= p <= s.len(),
        forall|j: int| 0 <= j < p ==> !te_le(x, s[j]),
        p < s.len() ==> te_le(x, s[p]),
    ensures
        insert_sorted_event(x, s) =~= s.subrange(0, p) + seq![x] + s.subrange(p, s.len() as int),
    decreases p,
{
    if p == 0 {
        if s.len() == 0 {
            assert(insert_sorted_event(x, s) =~= seq![x]);
        } else {
            assert(insert_sorted_event(x, s) =~= seq![x] + s);
        }
    } else {
        let rest = s.drop_first();
        lemma_insert_sorted_event_at(x, rest, p - 1);
        assert(rest.subrange(0, p - 1) =~= s.subrange(1, p));
        assert(rest.subrange(p - 1, rest.len() as int) =~= s.subrange(p, s.len() as int));
        assert(seq![s[0]] + insert_sorted_event(x, rest) =~= s.subrange(0, p) + seq![x]
            + s.subrange(p, s.len() as int));
    }
}

fn insert_sorted_event_vec(v: &mut Vec<TimedEvent>, x: TimedEvent)
    requires
        old(v).len() < usize::MAX,
    ensures
        final(v)@ == insert_sorted_event(x, old(v)@),
{
    let mut p: usize = 0;
    while p < v.len() && !te_le_exec(&x, &v[p])
        invariant
            0 <= p <= v.len(),
            v@ == old(v)@,
            forall|j: int| 0 <= j < p ==> !te_le(x, v@[j]),
        decreases v.len() - p,
    {
        p = p + 1;
    }
    proof {
        lemma_insert_sorted_event_at(x, v@, p as int);
    }
    v.insert(p, x);
    proof {
        assert(v@ =~= old(v)@.subrange(0, p as int) + seq![x] + old(v)@.subrange(
            p as int,
            old(v)@.len() as int,
        ));
    }
}

/// Sort timed events under [`te_le`]; the result is [`sort_events`] of
/// the input.
pub fn sort_events_vec(v: &Vec<TimedEvent>) -> (r: Vec<TimedEvent>)
    ensures
        r@ == sort_events(v@),
{
    let mut r: Vec<TimedEvent> = Vec::new();
    let mut i: usize = v.len();
    while i > 0
        invariant
            0 <= i <= v.len(),
            r.len() == v.len() - i,
            r@ == sort_events(v@.subrange(i as int, v.len() as int)),
        decreases i,
    {
        i = i - 1;
        let ghost pre = v@.subrange(i as int, v@.len() as int);
        let ghost r0 = r@;
        proof {
            assert(pre.drop_first() =~= v@.subrange(i as int + 1, v@.len() as int));
            assert(sort_events(pre) == insert_sorted_event(pre[0], sort_events(pre.drop_first())));
        }
        insert_sorted_event_vec(&mut r, v[i]);
        proof {
            lemma_insert_sorted_event_len(v@[i as int], r0);
        }
    }
    proof {
        assert(v@.subrange(0, v@.len() as int) =~= v@);
    }
    r
}

/// The three wire bytes of an event transposed by the root `k`: status
/// with channel, then note, then velocity, the data bytes masked to
/// seven bits.
pub open spec fn encode_spec(e: Event, k: Key) -> Seq<u8> {
    match e {
        Event::NoteOn { channel, note, velocity } => seq![
            0x90u8 | (channel & 0x0f),
            ((k.0 + note) as u8) & 0x7f,
            velocity & 0x7f,
        ],
        Event::NoteOff { channel, note, velocity } => seq![
            0x80u8 | (channel & 0x0f),
            ((k.0 + note) as u8) & 0x7f,
            velocity & 0x7f,
        ],
    }
}

/// Encode an event as a three-byte MIDI message, transposing its note
/// by the root `key`. The status byte carries note-on or note-off with
/// the channel; both data bytes stay below 128.
pub fn midi_encode_event(event: &Event, key: Key) -> (data: [u8; 3])
    requires
        key.0 + event_note(*event) <= u8::MAX,
    ensures
        data@ == encode_spec(*event, key),
        data@[0] & 0xf0 == (if event_rank(*event) == 0 {
            0x90u8
        } else {
            0x80u8
        }),
        data@[1] < 128,
        data@[2] < 128,
{
    let data = match *event {
        Event::NoteOn { channel, note, velocity } => [
            0x90 | (channel & 0x0f),
            (key.0 + note) & 0x7f,
            velocity & 0x7f,
        ],
        Event::NoteOff { channel, note, velocity } => [
            0x80 | (channel & 0x0f),
            (key.0 + note) & 0x7f,
            velocity & 0x7f,
        ],
    };
    proof {
        assert(data@ =~= encode_spec(*event, key));
        let ch = event_channel(*event);
        assert((0x90u8 | (ch & 0x0f)) & 0xf0 == 0x90u8) by (bit_vector);
        assert((0x80u8 | (ch & 0x0f)) & 0xf0 == 0x80u8) by (bit_vector);
        let n = ((key.0 + event_note(*event)) as u8);
        assert(n & 0x7f < 128) by (bit_vector);
        let vel = event_velocity(*event);
        assert(vel & 0x7f < 128) by (bit_vector);
    }
    data
}

/// One outbound MIDI message with the absolute nanosecond instant at
/// which it is due.
#[derive(Debug, Clone, Copy, PartialEq, Eq)]
pub struct Packet {
    pub timestamp: u64,
    pub data: [u8; 3],
}

/// A buffer of outbound messages gathered for one slice, flushed to the
/// output port as a whole.
#[derive(Debug, Clone, PartialEq, Eq)]
pub struct PacketBuffer {
    pub packets: Vec<Packet>,
}

impl View for PacketBuffer {
    type V = Seq<Packet>;

    open spec fn view(&self) -> Seq<Packet> {
        self.packets@
    }
}

impl PacketBuffer {
    /// An empty buffer.
    pub fn new() -> (r: PacketBuffer)
        ensures
            r@ == Seq::<Packet>::empty(),
    {
        PacketBuffer { packets: Vec::new() }
    }

    /// Append a message due at `timestamp`.
    pub fn push_data(&mut self, timestamp: u64, data: &[u8; 3])
        ensures
            final(self)@ == old(self)@.push(Packet { timestamp, data: *data }),
    {
        self.packets.push(Packet { timestamp, data: *data });
    }

    /// How many messages the buffer holds.
    pub fn len(&self) -> (n: usize)
        ensures
            n == self@.len(),
    {
        self.packets.len()
    }
}

/// Nanoseconds from the pattern origin to a tick offset, at the tempo
/// `us_per_quarter` and resolution `ticks_per_quarter`.
pub open spec fn tick_ns(ticks: int, us_per_quarter: int, ticks_per_quarter: int) -> int {
    1000 * ticks * us_per_quarter / ticks_per_quarter
}

/// Convert a tick offset to an absolute nanosecond instant from
/// `offset`.
pub fn ticks_to_time(offset: u64, ticks: u32, us_per_quarter: u32, ticks_per_quarter: u32) -> (r:
    u64)
    requires
        ticks_per_quarter > 0,
        1000 * ticks * us_per_quarter <= u64::MAX,
        offset + tick_ns(ticks as int, us_per_quarter as int, ticks_per_quarter as int)
            <= u64::MAX,
    ensures
        r == offset + tick_ns(ticks as int, us_per_quarter as int, ticks_per_quarter as int),
{
    offset + (NS_PER_US * ticks as u64 * us_per_quarter as u64 / ticks_per_quarter as u64)
}

/// The nominal instant of a timed event in the pattern iteration that
/// begins at `pattern_start`.
pub open spec fn nominal_time(
    pattern_start: int,
    te: TimedEvent,
    us_per_quarter: int,
    ticks_per_quarter: int,
) -> int {
    pattern_start + tick_ns(te.timing as int, us_per_quarter, ticks_per_quarter)
}

/// The first instant at or after `cursor` reached from `t0` by whole
/// steps of `period`.
pub open spec fn rehomed(t0: int, cursor: int, period: int) -> int
    decreases vstd::math::max(cursor - t0, 0)
        when period >= 1
{
    if t0 >= cursor {
        t0
    } else {
        rehomed(t0 + period, cursor, period)
    }
}

/// Where an event at nominal instant `t0` is due, seen from the slice
/// window starting at `cursor`: when the window crosses the pattern
/// end, events are re-homed into the next loop iteration.
pub open spec fn slice_time(
    pattern_start: int,
    cursor: int,
    slice: int,
    length: int,
    t0: int,
) -> int {
    if cursor + slice >= pattern_start + length {
        rehomed(t0, cursor, length)
    } else {
        t0
    }
}

/// Whether an event at nominal instant `t0` is emitted by the slice
/// window `[cursor, cursor + slice)`.
pub open spec fn event_selected(
    pattern_start: int,
    cursor: int,
    slice: int,
    length: int,
    t0: int,
) -> bool {
    let t = slice_time(pattern_start, cursor, slice, length, t0);
    cursor <= t < cursor + slice
}

/// The predicate [`event_selected`] reads on a timed event.
pub open spec fn selected_of(
    pattern_start: int,
    cursor: int,
    slice: int,
    length: int,
    us_per_quarter: int,
    ticks_per_quarter: int,
) -> spec_fn(TimedEvent) -> bool {
    |te: TimedEvent|
        event_selected(
            pattern_start,
            cursor,
            slice,
            length,
            nominal_time(pattern_start, te, us_per_quarter, ticks_per_quarter),
        )
}

/// The overflow-freedom a pattern owes the scheduler: every event's
/// tick arithmetic fits, its nominal offset lies inside one pattern
/// length, and its note leaves room for a transposition.
pub open spec fn events_fit(
    events: Seq<TimedEvent>,
    length: int,
    us_per_quarter: int,
    ticks_per_quarter: int,
) -> bool {
    forall|i: int|
        0 <= i < events.len() ==> {
            &&& 1000 * (#[trigger] events[i]).timing * us_per_quarter <= u64::MAX
            &&& tick_ns(events[i].timing as int, us_per_quarter, ticks_per_quarter) < length
            &&& event_note(events[i].event) < 128
        }
}

/// Gather into a packet buffer the events of one pattern whose slice
/// instant falls in the window `[now, now + timeslice)`, each encoded
/// at the root `key` and stamped with that instant.
///
/// The buffer holds exactly the selected events, in pattern order: the
/// `i`-th packet carries the `i`-th selected event.
pub fn schedule_timeslice(
    pattern_start: u64,
    now: u64,
    timeslice: u64,
    timed_events: &Vec<TimedEvent>,
    pattern_length: u64,
    key: Key,
    us_per_quarter: u32,
    ticks_per_quarter: u32,
) -> (buf: PacketBuffer)
    requires
        ticks_per_quarter > 0,
        pattern_length > 0,
        pattern_start <= now,
        now + timeslice <= u64::MAX,
        now + pattern_length <= u64::MAX,
        key.wf(),
        events_fit(timed_events@, pattern_length as int, us_per_quarter as int,
            ticks_per_quarter as int),
    ensures
        ({
            let chosen = timed_events@.filter(
                selected_of(
                    pattern_start as int,
                    now as int,
                    timeslice as int,
                    pattern_length as int,
                    us_per_quarter as int,
                    ticks_per_quarter as int,
                ),
            );
            &&& buf@.len() == chosen.len()
            &&& forall|i: int|
                0 <= i < chosen.len() ==> {
                    &&& (#[trigger] buf@[i]).timestamp == slice_time(
                        pattern_start as int,
                        now as int,
                        timeslice as int,
                        pattern_length as int,
                        nominal_time(
                            pattern_start as int,
                            chosen[i],
                            us_per_quarter as int,
                            ticks_per_quarter as int,
                        ),
                    )
                    &&& buf@[i].data@ == encode_spec(chosen[i].event, key)
                }
        }),
{
    let ghost sel = selected_of(
        pattern_start as int,
        now as int,
        timeslice as int,
        pattern_length as int,
        us_per_quarter as int,
        ticks_per_quarter as int,
    );
    let mut buf = PacketBuffer::new();
    let mut j: usize = 0;
    while j < timed_events.len()
        invariant
            0 <= j <= timed_events.len(),
            ({
                let chosen = timed_events@.subrange(0, j as int).filter(sel);
                &&& buf@.len() == chosen.len()
                &&& forall|i: int|
                    0 <= i < chosen.len() ==> {
                        &&& (#[trigger] buf@[i]).timestamp == slice_time(
                            pattern_start as int,
                            now as int,
                            timeslice as int,
                            pattern_length as int,
                            nominal_time(
                                pattern_start as int,
                                chosen[i],
                                us_per_quarter as int,
                                ticks_per_quarter as int,
                            ),
                        )
                        &&& buf@[i].data@ == encode_spec(chosen[i].event, key)
                    }
            }),
        decreases timed_events.len() - j,
    {
        broadcast use vstd::seq_lib::group_seq_lib_default;

        let te = timed_events[j];
        let ghost t0 = nominal_time(
            pattern_start as int,
            te,
            us_per_quarter as int,
            ticks_per_quarter as int,
        );
        let mut event_time = ticks_to_time(pattern_start, te.timing, us_per_quarter,
            ticks_per_quarter);
        if now + timeslice >= pattern_start + pattern_length {
            while event_time < now
                invariant
                    t0 <= event_time <= vstd::math::max(t0, now as int + pattern_length as int - 1),
                    rehomed(event_time as int, now as int, pattern_length as int) == rehomed(
                        t0,
                        now as int,
                        pattern_length as int,
                    ),
                decreases vstd::math::max(now as int - event_time as int, 0),
            {
                event_time = event_time + pattern_length;
            }
            proof {
                assert(event_time as int == rehomed(t0, now as int, pattern_length as int));
            }
        }
        proof {
            assert(timed_events@.subrange(0, j as int + 1) =~= timed_events@.subrange(0, j as int)
                + seq![te]);
            lemma_filter_singleton(te, sel);
        }
        if event_time < now || event_time >= now + timeslice {
            proof {
                assert(!sel(te));
                assert(timed_events@.subrange(0, j as int + 1).filter(sel) =~= timed_events@
                    .subrange(0, j as int).filter(sel));
            }
        } else {
            let data = midi_encode_event(&te.event, key);
            buf.push_data(event_time, &data);
            proof {
                assert(sel(te));
                assert(timed_events@.subrange(0, j as int + 1).filter(sel) =~= timed_events@
                    .subrange(0, j as int).filter(sel) + seq![te]);
            }
        }
        j = j + 1;
    }
    proof {
        assert(timed_events@.subrange(0, timed_events@.len() as int) =~= timed_events@);
    }
    buf
}

/// What the re-homing recursion lands on: an occurrence of `t0`
/// modulo `period`, at or past the cursor, and the first such.
proof fn lemma_rehomed_props(t0: int, cursor: int, period: int)
    requires
        period >= 1,
    ensures
        rehomed(t0, cursor, period) >= t0,
        rehomed(t0, cursor, period) >= cursor,
        t0 >= cursor ==> rehomed(t0, cursor, period) == t0,
        exists|k: int| 0 <= k && rehomed(t0, cursor, period) == t0 + #[trigger] (k * period),
        rehomed(t0, cursor, period) == t0 || rehomed(t0, cursor, period) - period < cursor,
    decreases vstd::math::max(cursor - t0, 0),
{
    if t0 >= cursor {
        assert(rehomed(t0, cursor, period) == t0 + 0 * period) by (nonlinear_arith)
            requires
                rehomed(t0, cursor, period) == t0,
        ;
    } else {
        lemma_rehomed_props(t0 + period, cursor, period);
        let k = choose|k: int|
            0 <= k && rehomed(t0 + period, cursor, period) == (t0 + period) + #[trigger] (k
                * period);
        assert(rehomed(t0, cursor, period) == t0 + (k + 1) * period) by (nonlinear_arith)
            requires
                rehomed(t0, cursor, period) == (t0 + period) + k * period,
        ;
    }
}

/// The origin of the pattern iteration in force at the `i`-th
/// scheduling turn, when turns start at the pattern origin `p0` and
/// the cursor advances by `s` each turn.
pub open spec fn origin_at(p0: int, s: int, l: int, i: int) -> int {
    p0 + l * ((i * s) / l)
}

/// The cursor at the start of the `i`-th scheduling turn.
pub open spec fn cursor_at(p0: int, s: int, i: int) -> int {
    p0 + i * s
}

/// The closed forms [`origin_at`] and [`cursor_at`] follow the
/// scheduler's own stepping rule: the cursor starts at the origin and
/// never needs clamping, and the origin advances by one pattern
/// length exactly when the cursor passes its end.
pub proof fn lemma_scheduler_state_recurrence(p0: int, s: int, l: int, i: int)
    requires
        0 < s < l,
        0 <= i,
    ensures
        origin_at(p0, s, l, i) <= cursor_at(p0, s, i) < origin_at(p0, s, l, i) + l,
        origin_at(p0, s, l, i + 1) == (if cursor_at(p0, s, i + 1) >= origin_at(p0, s, l, i) + l {
            origin_at(p0, s, l, i) + l
        } else {
            origin_at(p0, s, l, i)
        }),
        cursor_at(p0, s, i + 1) == cursor_at(p0, s, i) + s,
{
    let q = (i * s) / l;
    let r = (i * s) % l;
    vstd::arithmetic::div_mod::lemma_fundamental_div_mod(i * s, l);
    vstd::arithmetic::div_mod::lemma_mod_bound(i * s, l);
    assert(i * s == l * q + r);
    assert((i + 1) * s == i * s + s) by (nonlinear_arith);
    assert(i * s >= 0) by (nonlinear_arith)
        requires
            i >= 0,
            s >= 0,
    ;
    assert(q >= 0) by (nonlinear_arith)
        requires
            l >= 1,
            l * q + r >= 0,
            0 <= r < l,
    ;
    if r + s < l {
        assert((i + 1) * s == q * l + (r + s)) by (nonlinear_arith)
            requires
                i * s == l * q + r,
                (i + 1) * s == i * s + s,
        ;
        vstd::arithmetic::div_mod::lemma_fundamental_div_mod_converse((i + 1) * s, l, q, r + s);
        assert(((i + 1) * s) / l == q);
        assert(origin_at(p0, s, l, i + 1) == p0 + l * q);
        assert(cursor_at(p0, s, i + 1) == p0 + l * q + r + s);
        assert(cursor_at(p0, s, i + 1) < origin_at(p0, s, l, i) + l);
    } else {
        assert((i + 1) * s == (q + 1) * l + (r + s - l)) by (nonlinear_arith)
            requires
                i * s == l * q + r,
                (i + 1) * s == i * s + s,
        ;
        vstd::arithmetic::div_mod::lemma_fundamental_div_mod_converse(
            (i + 1) * s,
            l,
            q + 1,
            r + s - l,
        );
        assert(((i + 1) * s) / l == q + 1);
        assert(l * (q + 1) == l * q + l) by (nonlinear_arith);
        assert(origin_at(p0, s, l, i + 1) == p0 + l * q + l);
        assert(cursor_at(p0, s, i + 1) == p0 + l * q + r + s);
        assert(cursor_at(p0, s, i + 1) >= origin_at(p0, s, l, i) + l);
    }
}

/// Each pass of the looping pattern reaches each event exactly once:
/// the `j`-th repetition of an event at nanosecond offset `ns` into
/// the pattern is emitted, with its exact nominal timestamp
/// `p0 + j*l + ns`, at the scheduling turn whose window contains that
/// timestamp, and at no other turn.
pub proof fn lemma_slice_covers_each_occurrence_once(
    p0: int,
    s: int,
    l: int,
    ns: int,
    j: int,
    i: int,
)
    requires
        0 < s < l,
        0 <= ns < l,
        0 <= j,
        0 <= i,
        0 <= p0,
    ensures
        ({
            let t_occ = p0 + j * l + ns;
            let c = cursor_at(p0, s, i);
            let orig = origin_at(p0, s, l, i);
            let t0 = orig + ns;
            let emitted_here = event_selected(orig, c, s, l, t0) && slice_time(orig, c, s, l, t0)
                == t_occ;
            emitted_here <==> i == (j * l + ns) / s
        }),
{
    let t_occ = p0 + j * l + ns;
    let c = cursor_at(p0, s, i);
    let orig = origin_at(p0, s, l, i);
    let t0 = orig + ns;
    let m = (i * s) / l;
    lemma_scheduler_state_recurrence(p0, s, l, i);
    let i0 = (j * l + ns) / s;
    let rr = (j * l + ns) % s;
    vstd::arithmetic::div_mod::lemma_fundamental_div_mod(j * l + ns, s);
    vstd::arithmetic::div_mod::lemma_mod_bound(j * l + ns, s);
    assert(j * l >= 0 && j * l < (j + 1) * l) by (nonlinear_arith)
        requires
            0 <= j,
            0 < l,
    ;
    if i == i0 {
        // the occurrence falls inside this turn's window
        assert(t_occ == p0 + s * i0 + rr);
        assert(s * i0 == i0 * s) by (nonlinear_arith);
        assert(c <= t_occ < c + s);
        // this turn's iteration has not passed the occurrence by
        assert(m <= j) by {
            vstd::arithmetic::div_mod::lemma_mod_bound(i * s, l);
            vstd::arithmetic::div_mod::lemma_fundamental_div_mod(i * s, l);
            assert(l * m <= i * s);
            assert(i * s == s * i0) by (nonlinear_arith)
                requires
                    i == i0,
            ;
            assert(s * i0 <= j * l + ns);
            assert(j * l + ns < j * l + l);
            assert(j * l + l == (j + 1) * l) by (nonlinear_arith);
            assert(l * m < (j + 1) * l);
            assert(m < j + 1) by (nonlinear_arith)
                requires
                    l >= 1,
                    l * m < (j + 1) * l,
            ;
        }
        assert(t_occ == t0 + (j - m) * l) by (nonlinear_arith)
            requires
                t_occ == p0 + j * l + ns,
                t0 == p0 + l * m + ns,
        ;
        if c + s >= orig + l {
            // the window crosses the pattern end: re-homing picks
            // exactly this occurrence
            lemma_rehomed_props(t0, c, l);
            let re = rehomed(t0, c, l);
            let a = choose|k: int| 0 <= k && re == t0 + #[trigger] (k * l);
            assert(re <= t_occ) by {
                if re != t0 {
                    assert(re - l < c);
                    assert(t0 + (a - 1) * l < c <= t_occ) by (nonlinear_arith)
                        requires
                            re == t0 + a * l,
                            re - l < c,
                            c <= t_occ,
                    ;
                    assert(a - 1 < j - m) by (nonlinear_arith)
                        requires
                            t0 + (a - 1) * l < t0 + (j - m) * l,
                            l >= 1,
                    ;
                    assert(t0 + a * l <= t0 + (j - m) * l) by (nonlinear_arith)
                        requires
                            a <= j - m,
                            l >= 1,
                    ;
                } else {
                    assert(t0 <= t_occ) by (nonlinear_arith)
                        requires
                            t_occ == t0 + (j - m) * l,
                            0 <= j - m,
                            l >= 1,
                    ;
                }
            }
            assert(re == t_occ) by {
                if re < t_occ {
                    assert(a < j - m) by (nonlinear_arith)
                        requires
                            t0 + a * l < t0 + (j - m) * l,
                            l >= 1,
                    ;
                    assert(t0 + a * l <= t0 + (j - m) * l - l) by (nonlinear_arith)
                        requires
                            a <= j - m - 1,
                            l >= 1,
                    ;
                    assert(re <= t_occ - l);
                    assert(t_occ - l < c + s - l);
                    assert(c + s - l < c);
                    assert(re < c);
                }
            }
        } else {
            // the window stays inside this iteration: the occurrence
            // is this iteration's own
            assert(j == m) by {
                if j > m {
                    assert(t0 + 1 * l <= t0 + (j - m) * l) by (nonlinear_arith)
                        requires
                            1 <= j - m,
                            l >= 1,
                    ;
                    assert(t_occ >= orig + l + ns);
                    assert(t_occ < c + s);
                    assert(c + s < orig + l);
                }
            }
            assert(t_occ == t0 + 0 * l ==> t_occ == t0) by (nonlinear_arith);
            assert(t_occ == t0);
        }
    } else {
        // another turn: the occurrence lies outside this window
        assert(!(c <= t_occ < c + s)) by {
            if c <= t_occ < c + s {
                assert(j * l + ns == i * s + (t_occ - c)) by (nonlinear_arith)
                    requires
                        t_occ == p0 + j * l + ns,
                        c == p0 + i * s,
                ;
                vstd::arithmetic::div_mod::lemma_fundamental_div_mod_converse(
                    j * l + ns,
                    s,
                    i,
                    t_occ - c,
                );
            }
        }
    }
}

/// Filtering a one-element sequence keeps or drops its element.
proof fn lemma_filter_singleton<A>(x: A, pred: spec_fn(A) -> bool)
    ensures
        seq![x].filter(pred) == if pred(x) {
            seq![x]
        } else {
            Seq::<A>::empty()
        },
{
    reveal_with_fuel(Seq::filter, 3);
    let s = seq![x];
    assert(s.drop_last() =~= Seq::<A>::empty());
    assert(Seq::<A>::empty().filter(pred) =~= Seq::<A>::empty());
    if pred(x) {
        assert(s.filter(pred) =~= seq![x]);
    } else {
        assert(s.filter(pred) =~= Seq::<A>::empty());
    }
}

/// A packet buffer that silences every note currently playing on the
/// output: one note-on at velocity zero per held pair, at timestamp
/// zero, untransposed.
pub fn mute_playing(playing: &crate::tracker::Playing) -> (buf: PacketBuffer)
    requires
        playing.wf(),
    ensures
        buf@.len() == playing.entries_spec().len(),
        forall|i: int|
            0 <= i < buf@.len() ==> {
                &&& (#[trigger] buf@[i]).timestamp == 0
                &&& buf@[i].data@ == encode_spec(
                    Event::NoteOn {
                        channel: playing.entries_spec()[i].0,
                        note: playing.entries_spec()[i].1,
                        velocity: 0u8,
                    },
                    Key(0),
                )
            },
{
    let pairs = playing.to_vec();
    let mut buf = PacketBuffer::new();
    let mut i: usize = 0;
    while i < pairs.len()
        invariant
            0 <= i <= pairs@.len(),
            pairs@ == playing.entries_spec(),
            buf@.len() == i,
            forall|j: int|
                0 <= j < i ==> {
                    &&& (#[trigger] buf@[j]).timestamp == 0
                    &&& buf@[j].data@ == encode_spec(
                        Event::NoteOn {
                            channel: pairs@[j].0,
                            note: pairs@[j].1,
                            velocity: 0u8,
                        },
                        Key(0),
                    )
                },
        decreases pairs@.len() - i,
    {
        let (channel, note) = pairs[i];
        let event = Event::NoteOn { channel, note, velocity: 0 };
        let data = midi_encode_event(&event, Key(0));
        buf.push_data(0, &data);
        i = i + 1;
    }
    buf
}

/// The slice scheduler: a looping pattern of timed events together
/// with the origin of its current iteration, the slice width the
/// caller walks time in, and the margin it keeps before each deadline.
pub struct Scheduler {
    pattern_start: u64,
    slice_length: u64,
    scheduling_deadline_margin: u64,
    timed_events: Vec<TimedEvent>,
    pattern_length: u64,
    us_per_quarter: u32,
    ticks_per_quarter: u32,
}

impl Scheduler {
    /// The origin of the current pattern iteration, in nanoseconds.
    pub closed spec fn pattern_start_spec(&self) -> u64 {
        self.pattern_start
    }

    /// The slice width, in nanoseconds.
    pub closed spec fn slice_length_spec(&self) -> u64 {
        self.slice_length
    }

    /// The margin kept before each slice deadline, in nanoseconds.
    pub closed spec fn margin_spec(&self) -> u64 {
        self.scheduling_deadline_margin
    }

    /// The pattern's events.
    pub closed spec fn events_spec(&self) -> Seq<TimedEvent> {
        self.timed_events@
    }

    /// One loop of the pattern, in nanoseconds.
    pub closed spec fn pattern_length_spec(&self) -> u64 {
        self.pattern_length
    }

    /// The tempo, in microseconds per quarter note.
    pub closed spec fn us_per_quarter_spec(&self) -> u32 {
        self.us_per_quarter
    }

    /// The tick resolution, in ticks per quarter note.
    pub closed spec fn ticks_per_quarter_spec(&self) -> u32 {
        self.ticks_per_quarter
    }

    /// The scheduler's invariant: positive resolution, a positive
    /// pattern length longer than the slice, a margin shorter than the
    /// slice, and a pattern whose events fit inside one loop.
    pub closed spec fn wf(&self) -> bool {
        &&& self.ticks_per_quarter > 0
        &&& self.pattern_length > 0
        &&& self.slice_length > 0
        &&& self.slice_length < self.pattern_length
        &&& self.scheduling_deadline_margin < self.slice_length
        &&& events_fit(
            self.timed_events@,
            self.pattern_length as int,
            self.us_per_quarter as int,
            self.ticks_per_quarter as int,
        )
    }

    /// Build a scheduler over a pattern.
    pub fn new(
        pattern_start: u64,
        slice_length: u64,
        scheduling_deadline_margin: u64,
        timed_events: Vec<TimedEvent>,
        pattern_length: u64,
        us_per_quarter: u32,
        ticks_per_quarter: u32,
    ) -> (s: Scheduler)
        requires
            ticks_per_quarter > 0,
            pattern_length > 0,
            0 < slice_length < pattern_length,
            scheduling_deadline_margin < slice_length,
            events_fit(timed_events@, pattern_length as int, us_per_quarter as int,
                ticks_per_quarter as int),
        ensures
            s.wf(),
            s.pattern_start_spec() == pattern_start,
            s.slice_length_spec() == slice_length,
            s.margin_spec() == scheduling_deadline_margin,
            s.events_spec() == timed_events@,
            s.pattern_length_spec() == pattern_length,
            s.us_per_quarter_spec() == us_per_quarter,
            s.ticks_per_quarter_spec() == ticks_per_quarter,
    {
        Scheduler {
            pattern_start,
            slice_length,
            scheduling_deadline_margin,
            timed_events,
            pattern_length,
            us_per_quarter,
            ticks_per_quarter,
        }
    }

    /// One scheduling turn. Clamps the cursor to the current pattern
    /// origin, gathers the events of the window
    /// `[cursor, cursor + slice_length)` encoded at the root `key`,
    /// advances the cursor by one slice, advances the pattern origin by
    /// one loop when the cursor has passed its end, and returns the
    /// signed time the caller may sleep until the next turn is due.
    pub fn schedule_slice(&mut self, now: u64, slice_start: &mut u64, key: Key) -> (r: (
        i64,
        PacketBuffer,
    ))
        requires
            old(self).wf(),
            key.wf(),
            vstd::math::max(*old(slice_start) as int, old(self).pattern_start_spec() as int) + old(
                self,
            ).slice_length_spec() + old(self).pattern_length_spec() <= u64::MAX,
            i64::MIN <= vstd::math::max(
                *old(slice_start) as int,
                old(self).pattern_start_spec() as int,
            ) + old(self).slice_length_spec() - old(self).margin_spec() - now <= i64::MAX,
        ensures
            ({
                let cursor = vstd::math::max(
                    *old(slice_start) as int,
                    old(self).pattern_start_spec() as int,
                );
                let p = old(self).pattern_start_spec() as int;
                let slice = old(self).slice_length_spec() as int;
                let length = old(self).pattern_length_spec() as int;
                let uspq = old(self).us_per_quarter_spec() as int;
                let tpq = old(self).ticks_per_quarter_spec() as int;
                let chosen = old(self).events_spec().filter(
                    selected_of(p, cursor, slice, length, uspq, tpq),
                );
                &&& *final(slice_start) == cursor + slice
                &&& final(self).pattern_start_spec() == (if cursor + slice >= p + length {
                    p + length
                } else {
                    p
                })
                &&& final(self).slice_length_spec() == old(self).slice_length_spec()
                &&& final(self).margin_spec() == old(self).margin_spec()
                &&& final(self).events_spec() == old(self).events_spec()
                &&& final(self).pattern_length_spec() == old(self).pattern_length_spec()
                &&& final(self).us_per_quarter_spec() == old(self).us_per_quarter_spec()
                &&& final(self).ticks_per_quarter_spec() == old(self).ticks_per_quarter_spec()
                &&& final(self).wf()
                &&& r.0 == cursor + slice - old(self).margin_spec() - now
                &&& r.1@.len() == chosen.len()
                &&& forall|i: int|
                    0 <= i < chosen.len() ==> {
                        &&& (#[trigger] r.1@[i]).timestamp == slice_time(
                            p,
                            cursor,
                            slice,
                            length,
                            nominal_time(p, chosen[i], uspq, tpq),
                        )
                        &&& r.1@[i].data@ == encode_spec(chosen[i].event, key)
                    }
            }),
    {
        if *slice_start < self.pattern_start {
            *slice_start = self.pattern_start;
        }
        let packet_buf = schedule_timeslice(
            self.pattern_start,
            *slice_start,
            self.slice_length,
            &self.timed_events,
            self.pattern_length,
            key,
            self.us_per_quarter,
            self.ticks_per_quarter,
        );
        *slice_start = *slice_start + self.slice_length;
        let next_slice_due = *slice_start;
        if next_slice_due >= self.pattern_start + self.pattern_length {
            self.pattern_start = self.pattern_start + self.pattern_length;
        }
        let sleep_time_wide: i128 = next_slice_due as i128 - self.scheduling_deadline_margin as i128
            - now as i128;
        let sleep_time: i64 = sleep_time_wide as i64;
        (sleep_time, packet_buf)
    }

    /// The origin of the current pattern iteration.
    pub fn pattern_start(&self) -> (r: u64)
        ensures
            r == self.pattern_start_spec(),
    {
        self.pattern_start
    }

    /// One loop of the pattern, in nanoseconds.
    pub fn pattern_length(&self) -> (r: u64)
        ensures
            r == self.pattern_length_spec(),
    {
        self.pattern_length
    }

    /// The slice width, in nanoseconds.
    pub fn slice_length(&self) -> (r: u64)
        ensures
            r == self.slice_length_spec(),
    {
        self.slice_length
    }
}

/// Every packet a slice gathers is stamped inside its window: the
/// timestamps of one call's buffer all lie in
/// `[cursor, cursor + slice)`.
pub proof fn lemma_slice_timestamps_in_window(
    events: Seq<TimedEvent>,
    pattern_start: int,
    cursor: int,
    slice: int,
    length: int,
    us_per_quarter: int,
    ticks_per_quarter: int,
    i: int,
)
    requires
        0 <= i < events.filter(
            selected_of(pattern_start, cursor, slice, length, us_per_quarter, ticks_per_quarter),
        ).len(),
    ensures
        ({
            let chosen = events.filter(
                selected_of(
                    pattern_start,
                    cursor,
                    slice,
                    length,
                    us_per_quarter,
                    ticks_per_quarter,
                ),
            );
            let t = slice_time(
                pattern_start,
                cursor,
                slice,
                length,
                nominal_time(pattern_start, chosen[i], us_per_quarter, ticks_per_quarter),
            );
            cursor <= t < cursor + slice
        }),
{
    broadcast use vstd::seq_lib::group_seq_lib_default;

    let sel = selected_of(pattern_start, cursor, slice, length, us_per_quarter, ticks_per_quarter);
    let chosen = events.filter(sel);
    assert(sel(chosen[i]));
}

} // verus!
