use vstd::prelude::*;
use std::collections::VecDeque;
use crate::resample::table_view;

verus! {

/// Nanoseconds in a millisecond: timestamps handed to the renderer are in
/// nanoseconds of a monotonic clock, durations in milliseconds.
pub const NANOS_PER_MILLI: u64 = 1_000_000;

/// A command from the caller to the renderer.
#[derive(Clone, Copy, Debug, PartialEq, Eq, Structural)]
pub enum ToPlayMsg {
    /// Play note `.0` for `.1` milliseconds now, dropping anything queued.
    Play(usize, usize),
    /// Play note `.0` for `.1` milliseconds once what sounds now has finished;
    /// while nothing sounds it starts at once.
    PlayNext(usize, usize),
    /// Silence at once and drop the queue.
    Stop,
}

/// A notification from the renderer to the caller.
#[derive(Clone, Copy, Debug, PartialEq, Eq, Structural)]
pub enum ToFrontMsg {
    /// A segment has played for its whole duration.
    Finish,
}

/// Where the renderer stands.
#[derive(Clone, Copy, Debug, PartialEq, Eq, Structural)]
pub enum PlayState {
    Idle,
    /// Note `id` sounds since timestamp `start` (nanoseconds) for `milisecs`
    /// milliseconds; `pos` is the next frame of its table to be written.
    Playing { id: usize, start: u64, milisecs: usize, pos: usize },
}

/// The note tables, read-only once built, and the mutable playback state.
pub struct PlayData<T> {
    samples: Vec<Vec<Vec<T>>>,
    channels: Vec<usize>,
    equilibrium: T,
    state: PlayState,
    queue: VecDeque<(usize, usize)>,
}

/// Mathematical model of `PlayData`.
pub struct PlayView<T> {
    pub notes: Seq<Seq<Seq<T>>>,
    pub channels: Seq<usize>,
    pub equilibrium: T,
    pub state: PlayState,
    pub queue: Seq<(usize, usize)>,
}

/// Each note has a channel count above zero and at least one frame, and each
/// of its frames holds exactly that many samples.
pub open spec fn tables_ok<T>(notes: Seq<Seq<Seq<T>>>, channels: Seq<usize>) -> bool {
    &&& notes.len() == channels.len()
    &&& forall|k: int|
        0 <= k < notes.len() ==> #[trigger] channels[k] > 0 && notes[k].len() > 0 && notes[k].len()
            <= usize::MAX
    &&& forall|k: int, f: int|
        0 <= k < notes.len() && 0 <= f < notes[k].len() ==> #[trigger] notes[k][f].len()
            == channels[k]
}

pub open spec fn state_ok(state: PlayState, n: nat) -> bool {
    match state {
        PlayState::Idle => true,
        PlayState::Playing { id, .. } => id < n,
    }
}

pub open spec fn queue_ok(queue: Seq<(usize, usize)>, n: nat) -> bool {
    forall|i: int| 0 <= i < queue.len() ==> (#[trigger] queue[i]).0 < n
}

impl<T> PlayView<T> {
    /// Valid tables, valid note ids, and an empty queue while idle.
    pub open spec fn wf(self) -> bool {
        &&& tables_ok(self.notes, self.channels)
        &&& state_ok(self.state, self.notes.len())
        &&& queue_ok(self.queue, self.notes.len())
        &&& (self.state == PlayState::Idle ==> self.queue.len() == 0)
    }
}

impl<T> View for PlayData<T> {
    type V = PlayView<T>;

    closed spec fn view(&self) -> PlayView<T> {
        PlayView {
            notes: self.samples@.map_values(|t: Vec<Vec<T>>| table_view(t@)),
            channels: self.channels@,
            equilibrium: self.equilibrium,
            state: self.state,
            queue: self.queue@,
        }
    }
}

/// More than `milisecs` milliseconds lie between `start` and `now`.
pub open spec fn expired(start: u64, milisecs: usize, now: u64) -> bool {
    now - start > milisecs * NANOS_PER_MILLI
}

/// The state and queue after taking in one command. A command that names a
/// note outside the catalog of `n` notes changes nothing.
pub open spec fn intake(
    state: PlayState,
    queue: Seq<(usize, usize)>,
    msg: Option<ToPlayMsg>,
    now: u64,
    n: nat,
) -> (PlayState, Seq<(usize, usize)>) {
    match msg {
        Some(ToPlayMsg::Play(id, ms)) => if id < n {
            (PlayState::Playing { id, start: now, milisecs: ms, pos: 0 }, Seq::empty())
        } else {
            (state, queue)
        },
        Some(ToPlayMsg::PlayNext(id, ms)) => if id >= n {
            (state, queue)
        } else if state == PlayState::Idle {
            (PlayState::Playing { id, start: now, milisecs: ms, pos: 0 }, queue)
        } else {
            (state, queue.push((id, ms)))
        },
        Some(ToPlayMsg::Stop) => (PlayState::Idle, Seq::empty()),
        None => (state, queue),
    }
}

/// The state and queue once an expired segment has been ended, and whether
/// one was: the next queued note then starts at `now`, else playback idles.
pub open spec fn advance(state: PlayState, queue: Seq<(usize, usize)>, now: u64) -> (
    PlayState,
    Seq<(usize, usize)>,
    bool,
) {
    match state {
        PlayState::Playing { id, start, milisecs, pos } => if expired(start, milisecs, now) {
            if queue.len() > 0 {
                (
                    PlayState::Playing { id: queue[0].0, start: now, milisecs: queue[0].1, pos: 0 },
                    queue.drop_first(),
                    true,
                )
            } else {
                (PlayState::Idle, queue, true)
            }
        } else {
            (state, queue, false)
        },
        PlayState::Idle => (state, queue, false),
    }
}

/// `a + b`, or the largest `usize` where that does not fit.
pub open spec fn sat_add(a: int, b: int) -> int {
    if a + b <= usize::MAX {
        a + b
    } else {
        usize::MAX as int
    }
}

/// Frame `i` of a note's table; past its end, its last frame.
pub open spec fn frame_at<T>(note: Seq<Seq<T>>, i: int) -> Seq<T> {
    if i < note.len() {
        note[i]
    } else {
        note.last()
    }
}

/// The `len` samples written while `sounding`: whole frames of the note from
/// `pos` on, interleaved, then silence in a tail too short for a whole frame;
/// all silence while idle.
pub open spec fn buffer<T>(v: PlayView<T>, sounding: PlayState, len: nat) -> Seq<T> {
    match sounding {
        PlayState::Idle => Seq::new(len, |i: int| v.equilibrium),
        PlayState::Playing { id, pos, .. } => {
            let ch = v.channels[id as int] as int;
            let whole = (len as int / ch) * ch;
            Seq::new(
                len,
                |i: int|
                    if i < whole {
                        frame_at(v.notes[id as int], sat_add(pos as int, i / ch))[i % ch]
                    } else {
                        v.equilibrium
                    },
            )
        },
    }
}

/// The state kept after writing `len` samples while `sounding`: the cursor
/// moves past the whole frames written.
pub open spec fn moved<T>(v: PlayView<T>, sounding: PlayState, len: nat) -> PlayState {
    match sounding {
        PlayState::Idle => PlayState::Idle,
        PlayState::Playing { id, start, milisecs, pos } => PlayState::Playing {
            id,
            start,
            milisecs,
            pos: sat_add(pos as int, len as int / v.channels[id as int] as int) as usize,
        },
    }
}

/// One callback: the command taken in, the segment ended if it has expired,
/// and a buffer of `len` samples written. Gives the next model, whether a
/// segment finished, and the samples written.
pub open spec fn step<T>(v: PlayView<T>, msg: Option<ToPlayMsg>, now: u64, len: nat) -> (
    PlayView<T>,
    bool,
    Seq<T>,
) {
    let (s1, q1) = intake(v.state, v.queue, msg, now, v.notes.len());
    let (s2, q2, finished) = advance(s1, q1, now);
    (
        PlayView { state: moved(v, s2, len), queue: q2, ..v },
        finished,
        buffer(v, s2, len),
    )
}

/// Whether the renderer acts on `msg` in a catalog of `note_count` notes: a
/// command naming a note outside it is rejected, and changes nothing.
pub fn command_accepted(msg: ToPlayMsg, note_count: usize) -> (r: bool)
    ensures
        r == (match msg {
            ToPlayMsg::Play(id, _) => id < note_count,
            ToPlayMsg::PlayNext(id, _) => id < note_count,
            ToPlayMsg::Stop => true,
        }),
        !r ==> forall|state: PlayState, queue: Seq<(usize, usize)>, now: u64|
            #[trigger] intake(state, queue, Some(msg), now, note_count as nat) == (state, queue),
{
    match msg {
        ToPlayMsg::Play(id, _) => id < note_count,
        ToPlayMsg::PlayNext(id, _) => id < note_count,
        ToPlayMsg::Stop => true,
    }
}

fn is_expired(start: u64, milisecs: usize, now: u64) -> (r: bool)
    ensures
        r == expired(start, milisecs, now),
{
    now > start && ((now - start) as u128) > (milisecs as u128) * (NANOS_PER_MILLI as u128)
}


/// The tables are usable for playback (see `tables_ok`).
fn tables_valid<T>(samples: &Vec<Vec<Vec<T>>>, channels: &Vec<usize>) -> (r: bool)
    ensures
        r == tables_ok(samples@.map_values(|t: Vec<Vec<T>>| table_view(t@)), channels@),
{
    let ghost notes = samples@.map_values(|t: Vec<Vec<T>>| table_view(t@));
    if samples.len() != channels.len() {
        return false;
    }
    let mut k: usize = 0;
    while k < samples.len()
        invariant
            k <= samples.len(),
            samples.len() == channels.len(),
            notes == samples@.map_values(|t: Vec<Vec<T>>| table_view(t@)),
            forall|j: int|
                0 <= j < k ==> #[trigger] channels@[j] > 0 && notes[j].len() > 0 && notes[j].len()
                    <= usize::MAX,
            forall|j: int, f: int|
                0 <= j < k && 0 <= f < notes[j].len() ==> #[trigger] notes[j][f].len()
                    == channels@[j],
        decreases samples.len() - k,
    {
        let note = &samples[k];
        assert(notes[k as int] == table_view(note@));
        if channels[k] == 0 || note.len() == 0 {
            return false;
        }
        let mut f: usize = 0;
        while f < note.len()
            invariant
                f <= note.len(),
                k < samples.len(),
                samples.len() == channels.len(),
                notes == samples@.map_values(|t: Vec<Vec<T>>| table_view(t@)),
                notes[k as int] == table_view(note@),
                forall|g: int| 0 <= g < f ==> #[trigger] notes[k as int][g].len() == channels@[k as int],
            decreases note.len() - f,
        {
            if note[f].len() != channels[k] {
                assert(notes[k as int][f as int].len() != channels@[k as int]);
                return false;
            }
            f += 1;
        }
        k += 1;
    }
    true
}

impl<T: Copy> PlayData<T> {
    /// Playback data over the given note tables, idle with an empty queue.
    /// `None` where the tables are unusable: a note with no frames or no
    /// channels, a frame of another width, or counts that do not match.
    pub fn new(samples: Vec<Vec<Vec<T>>>, channels: Vec<usize>, equilibrium: T) -> (r: Option<Self>)
        ensures
            r is Some <==> tables_ok(
                samples@.map_values(|t: Vec<Vec<T>>| table_view(t@)),
                channels@,
            ),
            r matches Some(d) ==> d.wf() && d@ == (PlayView {
                notes: samples@.map_values(|t: Vec<Vec<T>>| table_view(t@)),
                channels: channels@,
                equilibrium,
                state: PlayState::Idle,
                queue: Seq::empty(),
            }),
    {
        if tables_valid(&samples, &channels) {
            let d = PlayData { samples, channels, equilibrium, state: PlayState::Idle, queue: VecDeque::new() };
            assert(d@.queue =~= Seq::empty());
            Some(d)
        } else {
            None
        }
    }

    /// The current playback state.
    pub fn state(&self) -> (r: PlayState)
        ensures
            r == self@.state,
    {
        self.state
    }

    /// Number of notes waiting to follow the current one.
    pub fn queue_len(&self) -> (r: usize)
        ensures
            r == self@.queue.len(),
    {
        self.queue.len()
    }

    /// Number of notes in the catalog.
    pub fn note_count(&self) -> (r: usize)
        ensures
            r == self@.notes.len(),
    {
        self.samples.len()
    }

    pub open spec fn wf(&self) -> bool {
        self@.wf()
    }

    /// Takes in at most one command, ends the current segment once its
    /// duration has passed (starting the next queued note in the same call),
    /// and fills `data` with the samples to play. Returns `Finish` exactly
    /// when a segment ended.
    pub fn render(&mut self, msg: Option<ToPlayMsg>, now: u64, data: &mut [T]) -> (r: Option<
        ToFrontMsg,
    >)
        requires
            old(self).wf(),
        ensures
            final(self).wf(),
            final(self)@ == step(old(self)@, msg, now, old(data)@.len()).0,
            r is Some <==> step(old(self)@, msg, now, old(data)@.len()).1,
            final(data)@ == step(old(self)@, msg, now, old(data)@.len()).2,
    {
        let ghost v = self@;
        let n = self.samples.len();
        match msg {
            Some(ToPlayMsg::Play(id, ms)) => {
                if id < n {
                    self.state = PlayState::Playing { id, start: now, milisecs: ms, pos: 0 };
                    self.queue.clear();
                }
            },
            Some(ToPlayMsg::PlayNext(id, ms)) => {
                if id < n {
                    if self.state == PlayState::Idle {
                        self.state = PlayState::Playing { id, start: now, milisecs: ms, pos: 0 };
                    } else {
                        self.queue.push_back((id, ms));
                    }
                }
            },
            Some(ToPlayMsg::Stop) => {
                self.state = PlayState::Idle;
                self.queue.clear();
            },
            None => {},
        }
        assert(self.state == intake(v.state, v.queue, msg, now, v.notes.len()).0);
        assert(self.queue@ == intake(v.state, v.queue, msg, now, v.notes.len()).1);
        let ghost q1 = self.queue@;
        let mut finished = false;
        if let PlayState::Playing { id, start, milisecs, pos } = self.state {
            if is_expired(start, milisecs, now) {
                finished = true;
                match self.queue.pop_front() {
                    Some(next) => {
                        self.state = PlayState::Playing {
                            id: next.0,
                            start: now,
                            milisecs: next.1,
                            pos: 0,
                        };
                    },
                    None => {
                        self.state = PlayState::Idle;
                    },
                }
            }
        }
        assert(self.queue@ =~= advance(
            intake(v.state, v.queue, msg, now, v.notes.len()).0,
            q1,
            now,
        ).1);
        let ghost sounding = self.state;
        let ghost len = data@.len();
        match self.state {
            PlayState::Idle => {
                let mut i: usize = 0;
                while i < data.len()
                    invariant
                        i <= data@.len(),
                        data@.len() == len,
                        forall|j: int| 0 <= j < i ==> data@[j] == self.equilibrium,
                    decreases data@.len() - i,
                {
                    data[i] = self.equilibrium;
                    i += 1;
                }
                assert(data@ =~= buffer(v, sounding, len));
            },
            PlayState::Playing { id, start, milisecs, pos } => {
                let note = &self.samples[id];
                let ch = self.channels[id];
                let frames = data.len() / ch;
                assert(frames * ch <= data@.len()) by (nonlinear_arith)
                    requires
                        ch > 0,
                        frames == data@.len() as int / (ch as int),
                ;
                let whole = frames * ch;
                assert(v.notes[id as int] == table_view(note@));
                let mut i: usize = 0;
                while i < data.len()
                    invariant
                        i <= data@.len(),
                        data@.len() == len,
                        id < v.notes.len(),
                        ch == v.channels[id as int],
                        ch > 0,
                        note@.len() > 0,
                        v.notes[id as int] == table_view(note@),
                        tables_ok(v.notes, v.channels),
                        whole == (len as int / ch as int) * ch,
                        self.equilibrium == v.equilibrium,
                        forall|j: int| 0 <= j < i ==> data@[j] == #[trigger] buffer(v, sounding, len)[j],
                        sounding == (PlayState::Playing { id, start, milisecs, pos }),
                    decreases data@.len() - i,
                {
                    if i < whole {
                        let f = pos.saturating_add(i / ch);
                        let last = note.len() - 1;
                        let frame = if f < note.len() {
                            &note[f]
                        } else {
                            &note[last]
                        };
                        assert(frame@ == v.notes[id as int][if f < note.len() { f as int } else { last as int }]);
                        assert(frame@.len() == ch);
                        data[i] = frame[i % ch];
                    } else {
                        data[i] = self.equilibrium;
                    }
                    i += 1;
                }
                assert(data@ =~= buffer(v, sounding, len));
                self.state = PlayState::Playing {
                    id,
                    start,
                    milisecs,
                    pos: pos.saturating_add(frames),
                };
            },
        }
        if finished {
            Some(ToFrontMsg::Finish)
        } else {
            None
        }
    }
}

/// One callback as the renderer sees it: the command taken in, if any, the
/// time, and the number of samples asked for.
pub type Callback = (Option<ToPlayMsg>, u64, nat);

/// The model after a run of callbacks, and how many of them reported `Finish`.
pub open spec fn run<T>(v: PlayView<T>, calls: Seq<Callback>) -> (PlayView<T>, nat)
    decreases calls.len(),
{
    if calls.len() == 0 {
        (v, 0)
    } else {
        let (w, count) = run(v, calls.drop_last());
        let e = calls.last();
        let (x, finished, _) = step(w, e.0, e.1, e.2);
        (x, if finished {
            count + 1
        } else {
            count
        })
    }
}

/// No callback of the run takes in a command.
pub open spec fn quiet(calls: Seq<Callback>) -> bool {
    forall|i: int| 0 <= i < calls.len() ==> (#[trigger] calls[i]).0 is None
}

/// The callbacks' times never go back and none lies before `t0`.
pub open spec fn ordered_from(calls: Seq<Callback>, t0: u64) -> bool {
    &&& forall|i: int| 0 <= i < calls.len() ==> t0 <= (#[trigger] calls[i]).1
    &&& forall|i: int, j: int|
        0 <= i <= j < calls.len() ==> (#[trigger] calls[i]).1 <= (#[trigger] calls[j]).1
}

/// A callback's buffer never reads past a note's table: where the cursor has
/// run beyond the last frame, each whole frame written repeats the values of
/// that last frame.
pub proof fn lemma_tail_padding<T>(v: PlayView<T>, sounding: PlayState, len: nat, i: int)
    requires
        v.wf(),
        state_ok(sounding, v.notes.len()),
        sounding matches PlayState::Playing { id, pos, .. } && {
            let ch = v.channels[id as int] as int;
            &&& 0 <= i < (len as int / ch) * ch
            &&& pos + i / ch >= v.notes[id as int].len()
        },
    ensures
        sounding matches PlayState::Playing { id, .. } && {
            let ch = v.channels[id as int] as int;
            let last = v.notes[id as int].last();
            &&& 0 <= i % ch < last.len()
            &&& buffer(v, sounding, len)[i] == last[i % ch]
        },
{
    if let PlayState::Playing { id, pos, .. } = sounding {
        let ch = v.channels[id as int] as int;
        let note = v.notes[id as int];
        assert(ch > 0);
        assert(note.len() > 0);
        assert(0 <= i / ch) by (nonlinear_arith)
            requires
                i >= 0,
                ch > 0,
        ;
        assert(0 <= i % ch < ch) by (nonlinear_arith)
            requires
                ch > 0,
        ;
        assert(note[note.len() - 1].len() == ch);
        assert(sat_add(pos as int, i / ch) >= note.len());
        assert((len as int / ch) * ch <= len) by (nonlinear_arith)
            requires
                ch > 0,
        ;
        assert(frame_at(note, sat_add(pos as int, i / ch)) == note.last());
        assert(buffer(v, sounding, len)[i] == frame_at(note, sat_add(pos as int, i / ch))[i % ch]);
    }
}

/// While a note sounds, sample `j` of whole frame `i` of the buffer (at
/// `i * ch + j`) is sample `j` of frame `pos + i` of the note's table, or of
/// its last frame where `pos + i` is past the end. The cursor then moves on
/// by the number of whole frames written, wherever that fits a `usize`.
pub proof fn lemma_playing_buffer<T>(v: PlayView<T>, sounding: PlayState, len: nat, i: int, j: int)
    requires
        v.wf(),
        state_ok(sounding, v.notes.len()),
        sounding matches PlayState::Playing { id, .. } && {
            let ch = v.channels[id as int] as int;
            &&& 0 <= i < len as int / ch
            &&& 0 <= j < ch
        },
    ensures
        sounding matches PlayState::Playing { id, start, milisecs, pos } && {
            let ch = v.channels[id as int] as int;
            let note = v.notes[id as int];
            let f = if pos + i < note.len() {
                pos + i
            } else {
                note.len() - 1
            };
            &&& 0 <= i * ch + j < len
            &&& 0 <= f < note.len()
            &&& j < note[f].len()
            &&& buffer(v, sounding, len)[i * ch + j] == note[f][j]
            &&& pos + len as int / ch <= usize::MAX ==> moved(v, sounding, len)
                == PlayState::Playing {
                id,
                start,
                milisecs,
                pos: (pos + len as int / ch) as usize,
            }
        },
{
    if let PlayState::Playing { id, pos, .. } = sounding {
        let ch = v.channels[id as int] as int;
        let note = v.notes[id as int];
        let x = i * ch + j;
        assert(ch > 0 && note.len() > 0);
        vstd::arithmetic::div_mod::lemma_fundamental_div_mod_converse(x, ch, i, j);
        assert(0 <= x < (len as int / ch) * ch && (len as int / ch) * ch <= len) by (nonlinear_arith)
            requires
                ch > 0,
                0 <= i < len as int / ch,
                0 <= j < ch,
                x == i * ch + j,
        {
            assert(i * ch + j < (i + 1) * ch);
            assert((i + 1) * ch <= (len as int / ch) * ch);
        }
        let f = if pos + i < note.len() {
            pos + i
        } else {
            note.len() - 1
        };
        assert(note[f].len() == ch);
        assert(frame_at(note, sat_add(pos as int, i)) == note[f]);
    }
}

/// While idle and given no command, a callback writes only silence, reports
/// nothing and leaves the model as it was.
pub proof fn lemma_idle_step<T>(v: PlayView<T>, now: u64, len: nat)
    requires
        v.wf(),
        v.state == PlayState::Idle,
    ensures
        step(v, None, now, len) == (v, false, Seq::new(len, |i: int| v.equilibrium)),
{
    assert(v.queue =~= v.queue);
}

/// Any number of callbacks without a command on an idle player report
/// nothing and leave it idle.
pub proof fn lemma_idle_run<T>(v: PlayView<T>, calls: Seq<Callback>)
    requires
        v.wf(),
        v.state == PlayState::Idle,
        quiet(calls),
    ensures
        run(v, calls) == (v, 0nat),
    decreases calls.len(),
{
    if calls.len() > 0 {
        let rest = calls.drop_last();
        assert(quiet(rest)) by {
            assert forall|i: int| 0 <= i < rest.len() implies (#[trigger] rest[i]).0 is None by {
                assert(rest[i] == calls[i]);
            }
        }
        lemma_idle_run(v, rest);
        assert(calls[calls.len() - 1].0 is None);
        lemma_idle_step(v, calls.last().1, calls.last().2);
    }
}

/// `Stop` silences the callback that takes it in, reports nothing, and no
/// later callback without a command reports anything, however long the run.
pub proof fn lemma_stop_silences<T>(v: PlayView<T>, now: u64, len: nat, calls: Seq<Callback>)
    requires
        v.wf(),
        quiet(calls),
    ensures
        ({
            let (w, finished, out) = step(v, Some(ToPlayMsg::Stop), now, len);
            &&& !finished
            &&& out == Seq::new(len, |i: int| v.equilibrium)
            &&& w.state == PlayState::Idle
            &&& w.queue.len() == 0
            &&& run(w, calls).1 == 0
        }),
{
    let w = step(v, Some(ToPlayMsg::Stop), now, len).0;
    assert(w.wf());
    lemma_idle_run(w, calls);
}

proof fn lemma_single_segment<T>(w0: PlayView<T>, id: usize, ms: usize, t0: u64, calls: Seq<Callback>)
    requires
        w0.wf(),
        w0.state matches PlayState::Playing { id: i, start, milisecs, .. } && i == id && start == t0
            && milisecs == ms,
        w0.queue.len() == 0,
        quiet(calls),
        ordered_from(calls, t0),
    ensures
        ({
            let (w, count) = run(w0, calls);
            let ended = calls.len() > 0 && expired(t0, ms, calls.last().1);
            &&& w.wf()
            &&& w.notes == w0.notes
            &&& w.channels == w0.channels
            &&& w.equilibrium == w0.equilibrium
            &&& w.queue.len() == 0
            &&& count == if ended {
                1nat
            } else {
                0nat
            }
            &&& ended ==> w.state == PlayState::Idle
            &&& !ended ==> (w.state matches PlayState::Playing { id: i, start, milisecs, .. } && i
                == id && start == t0 && milisecs == ms)
        }),
    decreases calls.len(),
{
    if calls.len() > 0 {
        let rest = calls.drop_last();
        assert(quiet(rest) && ordered_from(rest, t0)) by {
            assert forall|i: int| 0 <= i < rest.len() implies (#[trigger] rest[i]) == calls[i] by {}
        }
        lemma_single_segment(w0, id, ms, t0, rest);
        let e = calls.last();
        assert(calls[calls.len() - 1].0 is None);
        if rest.len() > 0 {
            assert(rest.last().1 <= e.1) by {
                assert(calls[rest.len() - 1].1 <= calls[calls.len() - 1].1);
            }
        }
        assert(t0 <= calls[calls.len() - 1].1);
        let w = run(w0, rest).0;
        if w.state == PlayState::Idle {
            lemma_idle_step(w, e.1, e.2);
        }
    }
}

/// A `Play` followed by callbacks without a command reports `Finish` exactly
/// once: in the first callback that sees more than the duration elapsed, and
/// in none before it. The `Play` callback itself reports nothing.
pub proof fn lemma_finish_once<T>(
    v: PlayView<T>,
    id: usize,
    ms: usize,
    t0: u64,
    len: nat,
    calls: Seq<Callback>,
)
    requires
        v.wf(),
        id < v.notes.len(),
        quiet(calls),
        ordered_from(calls, t0),
    ensures
        !step(v, Some(ToPlayMsg::Play(id, ms)), t0, len).1,
        forall|k: int|
            0 <= k <= calls.len() ==> #[trigger] run(
                step(v, Some(ToPlayMsg::Play(id, ms)), t0, len).0,
                calls.take(k),
            ).1 == if k > 0 && expired(t0, ms, calls[k - 1].1) {
                1nat
            } else {
                0nat
            },
        forall|k: int|
            #![trigger calls.take(k)]
            1 <= k <= calls.len() && expired(t0, ms, calls[k - 1].1) ==> {
                let w0 = step(v, Some(ToPlayMsg::Play(id, ms)), t0, len).0;
                let e = calls[k - 1];
                &&& run(w0, calls.take(k)).0.state == PlayState::Idle
                &&& step(run(w0, calls.take(k - 1)).0, e.0, e.1, e.2).2 == Seq::new(
                    e.2,
                    |i: int| v.equilibrium,
                )
            },
{
    let w0 = step(v, Some(ToPlayMsg::Play(id, ms)), t0, len).0;
    assert forall|k: int|
        #![trigger calls.take(k)]
        1 <= k <= calls.len() && expired(t0, ms, calls[k - 1].1) implies {
        let e = calls[k - 1];
        &&& run(w0, calls.take(k)).0.state == PlayState::Idle
        &&& step(run(w0, calls.take(k - 1)).0, e.0, e.1, e.2).2 == Seq::new(
            e.2,
            |i: int| v.equilibrium,
        )
    } by {
        let pre = calls.take(k - 1);
        let e = calls[k - 1];
        assert(w0.queue =~= Seq::<(usize, usize)>::empty());
        assert(quiet(pre) && ordered_from(pre, t0)) by {
            assert forall|i: int| 0 <= i < pre.len() implies (#[trigger] pre[i]) == calls[i] by {}
        }
        assert(e.0 is None);
        assert(t0 <= e.1);
        if k > 1 {
            assert(pre.last() == calls[k - 2]);
            assert(calls[k - 2].1 <= calls[k - 1].1);
        }
        lemma_single_segment(w0, id, ms, t0, pre);
        let w = run(w0, pre).0;
        if w.state == PlayState::Idle {
            lemma_idle_step(w, e.1, e.2);
        }
        assert(calls.take(k).drop_last() =~= pre);
        assert(calls.take(k).last() == e);
    }
    assert(w0.queue =~= Seq::<(usize, usize)>::empty());
    assert forall|k: int| 0 <= k <= calls.len() implies #[trigger] run(w0, calls.take(k)).1
        == if k > 0 && expired(t0, ms, calls[k - 1].1) {
        1nat
    } else {
        0nat
    } by {
        let pre = calls.take(k);
        assert(quiet(pre) && ordered_from(pre, t0)) by {
            assert forall|i: int| 0 <= i < pre.len() implies (#[trigger] pre[i]) == calls[i] by {}
        }
        lemma_single_segment(w0, id, ms, t0, pre);
        if k > 0 {
            assert(pre.last() == calls[k - 1]);
        }
    }
}

/// A note queued behind a segment starts in the very callback that ends that
/// segment: the callback reports `Finish`, the queued note sounds from its
/// first frame on, in the same buffer, and the queue moves up by one.
pub proof fn lemma_queue_handoff<T>(v: PlayView<T>, now: u64, len: nat)
    requires
        v.wf(),
        v.state matches PlayState::Playing { start, milisecs, .. } && expired(start, milisecs, now),
        v.queue.len() > 0,
    ensures
        ({
            let (w, finished, out) = step(v, None, now, len);
            let next = PlayState::Playing {
                id: v.queue[0].0,
                start: now,
                milisecs: v.queue[0].1,
                pos: 0,
            };
            &&& finished
            &&& out == buffer(v, next, len)
            &&& w.state == moved(v, next, len)
            &&& w.queue == v.queue.drop_first()
        }),
{
}

/// Index of the first callback whose time lies more than `ms` milliseconds
/// after `t0`; the number of callbacks where there is none.
pub open spec fn first_expired(calls: Seq<Callback>, t0: u64, ms: usize) -> nat
    decreases calls.len(),
{
    if calls.len() == 0 {
        0
    } else {
        let r = first_expired(calls.drop_last(), t0, ms);
        if r < calls.len() - 1 {
            r
        } else if expired(t0, ms, calls.last().1) {
            (calls.len() - 1) as nat
        } else {
            calls.len()
        }
    }
}

/// `first_expired` is the first callback that sees the time run out.
pub proof fn lemma_first_expired(calls: Seq<Callback>, t0: u64, ms: usize)
    ensures
        first_expired(calls, t0, ms) <= calls.len(),
        first_expired(calls, t0, ms) < calls.len() ==> expired(
            t0,
            ms,
            calls[first_expired(calls, t0, ms) as int].1,
        ),
        forall|i: int|
            0 <= i < first_expired(calls, t0, ms) ==> !expired(t0, ms, (#[trigger] calls[i]).1),
    decreases calls.len(),
{
    if calls.len() > 0 {
        let rest = calls.drop_last();
        lemma_first_expired(rest, t0, ms);
        assert forall|i: int| 0 <= i < rest.len() implies (#[trigger] rest[i]) == calls[i] by {}
        assert(calls.last() == calls[calls.len() - 1]);
        let j = first_expired(calls, t0, ms);
        assert forall|i: int| 0 <= i < j implies !expired(t0, ms, (#[trigger] calls[i]).1) by {
            if i < rest.len() {
                assert(rest[i] == calls[i]);
            }
        }
    }
}

proof fn lemma_pair_phases<T>(
    w0: PlayView<T>,
    a: usize,
    ms_a: usize,
    t0: u64,
    b: usize,
    ms_b: usize,
    t1: u64,
    calls: Seq<Callback>,
)
    requires
        w0.wf(),
        w0.state matches PlayState::Playing { id, start, milisecs, .. } && id == a && start == t0
            && milisecs == ms_a,
        w0.queue == seq![(b, ms_b)],
        t0 <= t1,
        quiet(calls),
        ordered_from(calls, t1),
    ensures
        ({
            let (w, count) = run(w0, calls);
            let j = first_expired(calls, t0, ms_a);
            &&& w.wf()
            &&& w.notes == w0.notes
            &&& w.channels == w0.channels
            &&& w.equilibrium == w0.equilibrium
            &&& count <= 2
            &&& count >= 1 <==> j < calls.len()
            &&& count == 0 ==> (w.state matches PlayState::Playing { id, start, milisecs, .. }
                && id == a && start == t0 && milisecs == ms_a) && w.queue == seq![(b, ms_b)]
            &&& count == 1 ==> (w.state matches PlayState::Playing { id, start, milisecs, .. }
                && id == b && milisecs == ms_b && start == calls[j as int].1 && !expired(
                start,
                ms_b,
                calls.last().1,
            )) && w.queue.len() == 0
            &&& count == 2 <==> j < calls.len() && expired(calls[j as int].1, ms_b, calls.last().1)
            &&& count == 2 ==> w.state == PlayState::Idle
        }),
    decreases calls.len(),
{
    lemma_first_expired(calls, t0, ms_a);
    if calls.len() > 0 {
        let rest = calls.drop_last();
        assert(quiet(rest) && ordered_from(rest, t1)) by {
            assert forall|i: int| 0 <= i < rest.len() implies (#[trigger] rest[i]) == calls[i] by {}
        }
        lemma_pair_phases(w0, a, ms_a, t0, b, ms_b, t1, rest);
        lemma_first_expired(rest, t0, ms_a);
        let e = calls.last();
        assert(calls[calls.len() - 1].0 is None);
        assert(t1 <= calls[calls.len() - 1].1);
        assert(e == calls[calls.len() - 1]);
        let jr = first_expired(rest, t0, ms_a);
        if jr < rest.len() {
            assert(rest[jr as int] == calls[jr as int]);
            assert(calls[jr as int].1 <= e.1);
            if rest.len() > 0 {
                assert(rest.last() == calls[rest.len() - 1]);
                assert(calls[rest.len() - 1].1 <= calls[calls.len() - 1].1);
            }
        }
        let w = run(w0, rest).0;
        if w.state == PlayState::Idle {
            lemma_idle_step(w, e.1, e.2);
        }
    }
}

/// `Play(a)` followed by `PlayNext(b)` before `a` has run out, then callbacks
/// without a command. `Finish` comes first in the callback `j` that sees `a`
/// run out, and `b` starts in that same callback, at its time; it comes a
/// second time once `b`'s duration has passed from there, and never a third
/// time. Until then playback never idles; after it, every callback without
/// a command writes silence and reports nothing. Neither command's own
/// callback reports anything.
pub proof fn lemma_queued_pair<T>(
    v: PlayView<T>,
    a: usize,
    ms_a: usize,
    t0: u64,
    len0: nat,
    b: usize,
    ms_b: usize,
    t1: u64,
    len1: nat,
    calls: Seq<Callback>,
)
    requires
        v.wf(),
        a < v.notes.len(),
        b < v.notes.len(),
        t0 <= t1,
        !expired(t0, ms_a, t1),
        quiet(calls),
        ordered_from(calls, t1),
    ensures
        ({
            let (w1, f1, _) = step(v, Some(ToPlayMsg::Play(a, ms_a)), t0, len0);
            let (w2, f2, _) = step(w1, Some(ToPlayMsg::PlayNext(b, ms_b)), t1, len1);
            let (w, count) = run(w2, calls);
            let j = first_expired(calls, t0, ms_a);
            &&& !f1
            &&& !f2
            &&& j <= calls.len()
            &&& j < calls.len() ==> expired(t0, ms_a, calls[j as int].1)
            &&& forall|i: int| 0 <= i < j ==> !expired(t0, ms_a, (#[trigger] calls[i]).1)
            &&& count <= 2
            &&& count >= 1 <==> j < calls.len()
            &&& count == 1 ==> (w.state matches PlayState::Playing { id, start, milisecs, .. }
                && id == b && milisecs == ms_b && start == calls[j as int].1)
            &&& count == 2 <==> j < calls.len() && expired(calls[j as int].1, ms_b, calls.last().1)
            &&& count < 2 ==> w.state != PlayState::Idle
            &&& count == 2 ==> w.state == PlayState::Idle
            &&& count == 2 ==> forall|more: Seq<Callback>| #[trigger]
                quiet(more) ==> run(w, more) == (w, 0nat)
            &&& count == 2 ==> forall|now: u64, len: nat| #[trigger]
                step(w, None, now, len) == (w, false, Seq::new(len, |i: int| v.equilibrium))
        }),
{
    let w1 = step(v, Some(ToPlayMsg::Play(a, ms_a)), t0, len0).0;
    let w2 = step(w1, Some(ToPlayMsg::PlayNext(b, ms_b)), t1, len1).0;
    assert(w1.queue =~= Seq::<(usize, usize)>::empty());
    assert(w2.queue =~= seq![(b, ms_b)]);
    assert(w2.wf());
    lemma_pair_phases(w2, a, ms_a, t0, b, ms_b, t1, calls);
    lemma_first_expired(calls, t0, ms_a);
    let (w, count) = run(w2, calls);
    if count == 2 {
        assert(w.wf());
        assert forall|more: Seq<Callback>| #[trigger] quiet(more) implies run(w, more) == (
            w,
            0nat,
        ) by {
            lemma_idle_run(w, more);
        }
        assert forall|now: u64, len: nat| #[trigger]
            step(w, None, now, len) == (w, false, Seq::new(len, |i: int| v.equilibrium)) by {
            lemma_idle_step(w, now, len);
        }
    }
}

} // verus!
