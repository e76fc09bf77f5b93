use vstd::prelude::*;
use crate::play::ToPlayMsg;
use rand::rngs::ThreadRng;
use rand::Rng;

verus! {

/// Milliseconds each note of an interval question sounds.
pub const INTERVAL_NOTE_MILLIS: usize = 500;

#[verifier::external_type_specification]
#[verifier::external_body]
pub struct ExThreadRng(ThreadRng);

/// Relies on `Rng::random_range` over `0..n`: a value below `n`, drawn at
/// random; it panics on an empty range.
#[verifier::external_body]
fn random_below(rng: &mut ThreadRng, n: usize) -> (r: usize)
    requires
        n > 0,
    ensures
        r < n,
{
    rng.random_range(0..n)
}

/// Which way an interval question goes from its first note to its second.
#[derive(Clone, Copy, Debug, PartialEq, Eq, Structural)]
pub enum Direction {
    Up,
    Down,
    Rand,
}

impl Default for Direction {
    fn default() -> (r: Self)
        ensures
            r == Direction::Up,
    {
        Direction::Up
    }
}

/// Score and settings of an interval-recognition session.
#[derive(Clone)]
pub struct DistinguishIntervalState {
    pub correct: usize,
    pub wrong: usize,
    /// The open question: interval, first note, second note.
    pub id: Option<(usize, usize, usize)>,
    /// The last answered question: whether it was right, interval, notes.
    pub last: Option<(bool, usize, usize, usize)>,
    pub dir: Direction,
    /// A note that every question starts from, if any.
    pub fixed: Option<usize>,
    /// Which intervals questions may use, by interval.
    pub ticked: Vec<bool>,
}

/// The choices whose tick is set, in order; choices past the ticks' end are
/// left out.
pub open spec fn picked(choices: Seq<usize>, ticked: Seq<bool>) -> Seq<usize>
    decreases choices.len(),
{
    if choices.len() == 0 || ticked.len() == 0 {
        Seq::empty()
    } else {
        let rest = picked(choices.drop_first(), ticked.drop_first());
        if ticked[0] {
            seq![choices[0]].add(rest)
        } else {
            rest
        }
    }
}

/// A question goes upwards: always for `Up`, as `up` says for `Rand`.
pub open spec fn rising(dir: Direction, up: bool) -> bool {
    dir == Direction::Up || (dir == Direction::Rand && up)
}

/// The question for `interval`: interval, first note, second note. From a
/// fixed note `f` it starts there and goes up to `f + interval` or down to
/// `f - interval`; without one, `base` is the lower of its two notes.
pub open spec fn question_of(
    dir: Direction,
    interval: usize,
    fixed: Option<usize>,
    base: usize,
    up: bool,
) -> (usize, usize, usize) {
    match fixed {
        Some(f) => if rising(dir, up) {
            (interval, f, (f + interval) as usize)
        } else {
            (interval, f, (f - interval) as usize)
        },
        None => if rising(dir, up) {
            (interval, base, (base + interval) as usize)
        } else {
            (interval, (base + interval) as usize, base)
        },
    }
}

/// The notes of `question_of` are machine integers.
pub open spec fn question_fits(
    dir: Direction,
    interval: usize,
    fixed: Option<usize>,
    base: usize,
    up: bool,
) -> bool {
    match fixed {
        Some(f) => if rising(dir, up) {
            f + interval <= usize::MAX
        } else {
            f >= interval
        },
        None => base + interval <= usize::MAX,
    }
}

/// The widest interval of a list, 0 for none.
pub open spec fn widest(s: Seq<usize>) -> usize
    decreases s.len(),
{
    if s.len() == 0 {
        0
    } else {
        let w = widest(s.drop_last());
        if s.last() > w {
            s.last()
        } else {
            w
        }
    }
}

/// First of the notes a fixed note may be chosen from.
pub open spec fn range_lo(dir: Direction, cmax: usize) -> int {
    if dir != Direction::Up {
        cmax as int
    } else {
        0
    }
}

/// End (exclusive) of the notes a fixed note may be chosen from, out of `n`.
pub open spec fn range_hi(dir: Direction, cmax: usize, n: usize) -> int {
    if dir != Direction::Down {
        n - cmax
    } else {
        n as int
    }
}

proof fn lemma_widest(s: Seq<usize>, n: usize)
    requires
        forall|i: int| 0 <= i < s.len() ==> #[trigger] s[i] < n,
    ensures
        forall|i: int| 0 <= i < s.len() ==> #[trigger] s[i] <= widest(s),
        s.len() > 0 ==> widest(s) < n,
    decreases s.len(),
{
    if s.len() > 0 {
        let r = s.drop_last();
        assert forall|i: int| 0 <= i < r.len() implies #[trigger] r[i] < n by {
            assert(r[i] == s[i]);
        }
        lemma_widest(r, n);
        assert forall|i: int| 0 <= i < s.len() implies #[trigger] s[i] <= widest(s) by {
            if i < r.len() {
                assert(r[i] == s[i]);
            }
        }
        assert(s[s.len() - 1] < n);
        assert(s.last() == s[s.len() - 1]);
        assert(widest(r) < n || r.len() == 0);
    }
}

/// The widest interval of a list, 0 for none.
fn widest_of(s: &Vec<usize>) -> (r: usize)
    ensures
        r == widest(s@),
{
    let mut m: usize = 0;
    let mut i: usize = 0;
    while i < s.len()
        invariant
            i <= s.len(),
            m == widest(s@.subrange(0, i as int)),
        decreases s.len() - i,
    {
        assert(s@.subrange(0, i + 1).drop_last() =~= s@.subrange(0, i as int));
        if s[i] > m {
            m = s[i];
        }
        i += 1;
    }
    assert(s@.subrange(0, s.len() as int) =~= s@);
    m
}

/// The choices whose tick is set, in order.
pub fn available(choices: &Vec<usize>, ticked: &Vec<bool>) -> (r: Vec<usize>)
    ensures
        r@ == picked(choices@, ticked@),
{
    let n = if choices.len() <= ticked.len() {
        choices.len()
    } else {
        ticked.len()
    };
    let mut i: usize = n;
    let ghost c = choices@;
    let ghost t = ticked@;
    // Collected from the back, so that each step puts one choice in front
    // of those already taken; then turned round.
    let mut rev: Vec<usize> = Vec::new();
    while i > 0
        invariant
            i <= n,
            n <= c.len(),
            n <= t.len(),
            c == choices@,
            t == ticked@,
            rev@.reverse() == picked(c.subrange(i as int, n as int), t.subrange(i as int, n as int)),
        decreases i,
    {
        i -= 1;
        let ghost before = rev@;
        if ticked[i] {
            rev.push(choices[i]);
        }
        proof {
            let cs = c.subrange(i as int, n as int);
            let ts = t.subrange(i as int, n as int);
            assert(cs.drop_first() =~= c.subrange(i + 1, n as int));
            assert(ts.drop_first() =~= t.subrange(i + 1, n as int));
            if t[i as int] {
                assert(rev@.reverse() =~= seq![c[i as int]].add(before.reverse()));
            } else {
                assert(rev@ == before);
            }
        }
    }
    let mut out: Vec<usize> = Vec::new();
    let mut j: usize = rev.len();
    while j > 0
        invariant
            j <= rev.len(),
            out@ == rev@.reverse().subrange(0, rev.len() - j),
        decreases j,
    {
        j -= 1;
        out.push(rev[j]);
        assert(out@ =~= rev@.reverse().subrange(0, rev.len() - j));
    }
    proof {
        lemma_picked_prefix(c, t, n as nat);
    }
    assert(out@ =~= rev@.reverse());
    out
}

proof fn lemma_picked_prefix(c: Seq<usize>, t: Seq<bool>, n: nat)
    requires
        n <= c.len(),
        n <= t.len(),
        n == c.len() || n == t.len(),
    ensures
        picked(c.subrange(0, n as int), t.subrange(0, n as int)) == picked(c, t),
    decreases n,
{
    if n > 0 {
        assert(c.subrange(0, n as int).drop_first() =~= c.drop_first().subrange(0, n - 1));
        assert(t.subrange(0, n as int).drop_first() =~= t.drop_first().subrange(0, n - 1));
        lemma_picked_prefix(c.drop_first(), t.drop_first(), (n - 1) as nat);
    } else {
        assert(c.len() == 0 || t.len() == 0);
    }
}

/// The notes a fixed first note may be chosen from, `lo..hi`, out of `n`
/// notes, where `cmax` is the widest interval on offer: upwards questions
/// need room above it, downwards ones below.
pub fn fixed_range(dir: Direction, cmax: usize, n: usize) -> (r: (usize, usize))
    requires
        cmax <= n,
    ensures
        r.0 == range_lo(dir, cmax),
        r.1 == range_hi(dir, cmax, n),
{
    let lo = if dir != Direction::Up {
        cmax
    } else {
        0
    };
    let hi = if dir != Direction::Down {
        n - cmax
    } else {
        n
    };
    (lo, hi)
}

impl DistinguishIntervalState {
    /// A new session with no score, going up, with `n` intervals all ticked.
    pub fn fresh(n: usize) -> (r: Self)
        ensures
            r.correct == 0,
            r.wrong == 0,
            r.id is None,
            r.last is None,
            r.dir == Direction::Up,
            r.fixed is None,
            r.ticked@ == Seq::new(n as nat, |i: int| true),
    {
        let mut ticked: Vec<bool> = Vec::new();
        let mut i: usize = 0;
        while i < n
            invariant
                i <= n,
                ticked@ == Seq::new(i as nat, |j: int| true),
            decreases n - i,
        {
            ticked.push(true);
            i += 1;
            assert(ticked@ =~= Seq::new(i as nat, |j: int| true));
        }
        DistinguishIntervalState {
            correct: 0,
            wrong: 0,
            id: None,
            last: None,
            dir: Direction::Up,
            fixed: None,
            ticked,
        }
    }

    /// Clears the score and the open and last questions.
    pub fn reset(&mut self)
        ensures
            final(self).correct == 0,
            final(self).wrong == 0,
            final(self).id is None,
            final(self).last is None,
            final(self).dir == old(self).dir,
            final(self).fixed == old(self).fixed,
            final(self).ticked@ == old(self).ticked@,
    {
        self.correct = 0;
        self.wrong = 0;
        self.id = None;
        self.last = None;
    }

    /// Sets the direction; a change of direction drops the fixed note.
    pub fn set_dir(&mut self, dir: Direction)
        ensures
            final(self).dir == dir,
            final(self).fixed == (if dir != old(self).dir {
                None
            } else {
                old(self).fixed
            }),
            final(self).correct == old(self).correct,
            final(self).wrong == old(self).wrong,
            final(self).id == old(self).id,
            final(self).last == old(self).last,
            final(self).ticked@ == old(self).ticked@,
    {
        if dir != self.dir {
            self.fixed = None;
        }
        self.dir = dir;
    }

    /// Opens a question on interval `available[pick]` (see `question_of`);
    /// `up` decides the direction when it is random.
    pub fn next_question(&mut self, available: &Vec<usize>, pick: usize, base: usize, up: bool)
        requires
            pick < available.len(),
            question_fits(old(self).dir, available[pick as int], old(self).fixed, base, up),
        ensures
            final(self).id == Some(
                question_of(old(self).dir, available[pick as int], old(self).fixed, base, up),
            ),
            final(self).correct == old(self).correct,
            final(self).wrong == old(self).wrong,
            final(self).last == old(self).last,
            final(self).dir == old(self).dir,
            final(self).fixed == old(self).fixed,
            final(self).ticked@ == old(self).ticked@,
    {
        let interval = available[pick];
        let rises = match self.dir {
            Direction::Up => true,
            Direction::Down => false,
            Direction::Rand => up,
        };
        let q = match self.fixed {
            Some(f) => if rises {
                (interval, f, f + interval)
            } else {
                (interval, f, f - interval)
            },
            None => if rises {
                (interval, base, base + interval)
            } else {
                (interval, base + interval, base)
            },
        };
        self.id = Some(q);
    }

    /// Opens a question drawn at random among `n_notes` notes: an interval
    /// out of `available`, for `Rand` a direction, and a first note: the
    /// fixed one, or else one drawn so that both notes are in range. A fixed
    /// note outside `fixed_range` for the widest interval on offer (the
    /// choice of intervals may have changed since it was set) is dropped.
    /// Both notes of the question lie below `n_notes`.
    pub fn draw_question(&mut self, available: &Vec<usize>, n_notes: usize, rng: &mut ThreadRng)
        requires
            available.len() > 0,
            forall|i: int| 0 <= i < available.len() ==> #[trigger] available[i] < n_notes,
        ensures
            final(self).fixed == (match old(self).fixed {
                Some(f) => if range_lo(old(self).dir, widest(available@)) <= f < range_hi(
                    old(self).dir,
                    widest(available@),
                    n_notes,
                ) {
                    Some(f)
                } else {
                    None
                },
                None => None,
            }),
            exists|p: int, base: usize, up: bool|
                0 <= p < available.len() && base + available[p] < n_notes && final(self).id
                    == Some(
                    #[trigger] question_of(
                        old(self).dir,
                        available[p],
                        final(self).fixed,
                        base,
                        up,
                    ),
                ),
            final(self).id matches Some(q) && q.1 < n_notes && q.2 < n_notes,
            final(self).correct == old(self).correct,
            final(self).wrong == old(self).wrong,
            final(self).last == old(self).last,
            final(self).dir == old(self).dir,
            final(self).ticked@ == old(self).ticked@,
    {
        proof {
            lemma_widest(available@, n_notes);
        }
        let cmax = widest_of(available);
        let (lo, hi) = fixed_range(self.dir, cmax, n_notes);
        if let Some(f) = self.fixed {
            if !(lo <= f && f < hi) {
                self.fixed = None;
            }
        }
        let ghost dir = self.dir;
        let ghost fixed = self.fixed;
        let pick = random_below(rng, available.len());
        let interval = available[pick];
        let base = match self.fixed {
            Some(_) => 0,
            None => random_below(rng, n_notes - interval),
        };
        let up = match self.dir {
            Direction::Rand => random_below(rng, 2) == 0,
            _ => true,
        };
        assert(available[pick as int] == interval);
        assert(interval <= cmax);
        self.next_question(available, pick, base, up);
        assert(base + available[pick as int] < n_notes);
        assert(self.id == Some(question_of(dir, available[pick as int], fixed, base, up)));
    }

    /// The two commands that play the open question: its first note now,
    /// its second queued behind it.
    pub fn question_commands(&self) -> (r: Option<(ToPlayMsg, ToPlayMsg)>)
        ensures
            r == (match self.id {
                Some(q) => Some(
                    (
                        ToPlayMsg::Play(q.1, INTERVAL_NOTE_MILLIS),
                        ToPlayMsg::PlayNext(q.2, INTERVAL_NOTE_MILLIS),
                    ),
                ),
                None => None,
            }),
    {
        match self.id {
            Some(q) => Some(
                (
                    ToPlayMsg::Play(q.1, INTERVAL_NOTE_MILLIS),
                    ToPlayMsg::PlayNext(q.2, INTERVAL_NOTE_MILLIS),
                ),
            ),
            None => None,
        }
    }

    /// Grades `answer` against the open question: counts it right or wrong,
    /// records it as the last question and closes it.
    pub fn answer(&mut self, answer: usize)
        requires
            old(self).id is Some,
            old(self).correct < usize::MAX,
            old(self).wrong < usize::MAX,
        ensures
            ({
                let q = old(self).id->Some_0;
                let right = q.0 == answer;
                &&& final(self).correct == old(self).correct + (if right {
                    1int
                } else {
                    0
                })
                &&& final(self).wrong == old(self).wrong + (if right {
                    0int
                } else {
                    1
                })
                &&& final(self).last == Some((right, q.0, q.1, q.2))
            }),
            final(self).id is None,
            final(self).dir == old(self).dir,
            final(self).fixed == old(self).fixed,
            final(self).ticked@ == old(self).ticked@,
    {
        if let Some((x, a, b)) = self.id {
            if x == answer {
                self.correct += 1;
                self.last = Some((true, x, a, b));
            } else {
                self.wrong += 1;
                self.last = Some((false, x, a, b));
            }
            self.id = None;
        }
    }
}

} // verus!
