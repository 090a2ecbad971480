//! Playback: one rotating stack of encoded frames per animation, display
//! slots that each show one animation, and the shared tick that decides when
//! each slot moves on to its next frame.
use crate::diff::{frames_view, Frame, FrameView};
use vstd::arithmetic::div_mod::{lemma_add_mod_noop, lemma_mod_add_multiples_vanish, lemma_small_mod};
use vstd::prelude::*;

verus! {

/// Total delay of a frame sequence, in ticks.
pub open spec fn delay_sum(frames: Seq<FrameView>) -> int
    decreases frames.len(),
{
    if frames.len() == 0 {
        0
    } else {
        delay_sum(frames.drop_last()) + frames.last().delay
    }
}

/// Index of the first frame with a zero delay, or the length when there is none.
pub open spec fn first_zero_delay(frames: Seq<FrameView>) -> int
    decreases frames.len(),
{
    if frames.len() == 0 {
        0
    } else {
        let k = first_zero_delay(frames.drop_last());
        if k < frames.len() - 1 {
            k
        } else if frames.last().delay == 0 {
            frames.len() - 1
        } else {
            frames.len() as int
        }
    }
}

/// Why a frame sequence cannot be played.
#[derive(Clone, Copy, Debug, PartialEq, Eq, Structural)]
pub enum StackError {
    /// It has no frame.
    Empty,
    /// Frame `frame` has a zero delay.
    ZeroDelay { frame: usize },
    /// Its delays add up to more than `u32::MAX` ticks.
    TooLong,
}

/// What keeps a frame sequence from being played, checked in that order.
pub open spec fn stack_problem(frames: Seq<FrameView>) -> Option<StackError> {
    if frames.len() == 0 {
        Some(StackError::Empty)
    } else if first_zero_delay(frames) < frames.len() {
        Some(StackError::ZeroDelay { frame: first_zero_delay(frames) as usize })
    } else if delay_sum(frames) > u32::MAX {
        Some(StackError::TooLong)
    } else {
        None
    }
}

/// `first_zero_delay` is the index of a zero delay with none before it, or
/// the length when every delay is non-zero.
pub proof fn lemma_first_zero_delay(frames: Seq<FrameView>)
    ensures
        0 <= first_zero_delay(frames) <= frames.len(),
        first_zero_delay(frames) < frames.len() ==> frames[first_zero_delay(frames)].delay == 0,
        forall|j: int| 0 <= j < first_zero_delay(frames) ==> #[trigger] frames[j].delay > 0,
    decreases frames.len(),
{
    if frames.len() > 0 {
        let rest = frames.drop_last();
        lemma_first_zero_delay(rest);
        assert forall|j: int| 0 <= j < first_zero_delay(frames) implies #[trigger] frames[j].delay > 0 by {
            if j < rest.len() {
                assert(rest[j] == frames[j]);
            }
        }
    }
}

proof fn lemma_delay_sum_prefix(frames: Seq<FrameView>, k: int)
    requires
        0 <= k <= frames.len(),
    ensures
        0 <= delay_sum(frames.take(k)) <= delay_sum(frames),
    decreases frames.len(),
{
    if frames.len() > 0 {
        if k == frames.len() {
            assert(frames.take(k) =~= frames);
            lemma_delay_sum_prefix(frames.drop_last(), k - 1);
        } else {
            assert(frames.drop_last().take(k) =~= frames.take(k));
            lemma_delay_sum_prefix(frames.drop_last(), k);
        }
    }
}

/// Finds what keeps `frames` from being played, if anything.
pub fn check_frames(frames: &Vec<Frame>) -> (r: Option<StackError>)
    ensures
        r == stack_problem(frames_view(frames@)),
{
    let ghost fv = frames_view(frames@);
    if frames.len() == 0 {
        return Some(StackError::Empty);
    }
    let mut k: usize = 0;
    while k < frames.len()
        invariant
            k <= frames@.len(),
            fv == frames_view(frames@),
            first_zero_delay(fv.take(k as int)) == k,
        decreases frames.len() - k,
    {
        assert(fv.take(k + 1).drop_last() =~= fv.take(k as int));
        if frames[k].delay == 0 {
            proof {
                lemma_first_zero_prefix(fv, k as int);
            }
            return Some(StackError::ZeroDelay { frame: k });
        }
        k = k + 1;
    }
    assert(fv.take(k as int) =~= fv);
    let mut total: u64 = 0;
    let mut j: usize = 0;
    while j < frames.len()
        invariant
            j <= frames@.len(),
            fv == frames_view(frames@),
            total == delay_sum(fv.take(j as int)),
            total <= u32::MAX,
            first_zero_delay(fv) == fv.len(),
            fv.len() > 0,
        decreases frames.len() - j,
    {
        assert(fv.take(j + 1).drop_last() =~= fv.take(j as int));
        total = total + frames[j].delay as u64;
        j = j + 1;
        if total > u32::MAX as u64 {
            proof {
                lemma_delay_sum_prefix(fv, j as int);
            }
            return Some(StackError::TooLong);
        }
    }
    assert(fv.take(j as int) =~= fv);
    None
}

/// The first zero delay of a sequence is the first zero delay of any prefix
/// that reaches it.
proof fn lemma_first_zero_prefix(frames: Seq<FrameView>, k: int)
    requires
        0 <= k < frames.len(),
        first_zero_delay(frames.take(k)) == k,
        frames[k].delay == 0,
    ensures
        first_zero_delay(frames) == k,
    decreases frames.len(),
{
    if k < frames.len() - 1 {
        assert(frames.drop_last().take(k) =~= frames.take(k));
        lemma_first_zero_prefix(frames.drop_last(), k);
    } else {
        assert(frames.take(k) =~= frames.drop_last());
    }
}

/// A decoded and encoded animation: its canvas size and its frames.
pub struct Animation {
    pub width: u32,
    pub height: u32,
    pub frames: Vec<Frame>,
}

/// The frames of one animation and its play-head.
pub struct PlaybackStack {
    pub count: usize,
    pub index: usize,
    pub frames: Vec<Frame>,
    pub width: u32,
    pub height: u32,
}

/// What a `PlaybackStack` holds: its frames and its play-head.
pub struct StackView {
    pub index: int,
    pub frames: Seq<FrameView>,
}

impl View for PlaybackStack {
    type V = StackView;

    open spec fn view(&self) -> StackView {
        StackView { index: self.index as int, frames: frames_view(self.frames@) }
    }
}

/// The stack after its play-head moved on by one frame, wrapping at the end.
pub open spec fn advanced(s: StackView) -> StackView {
    StackView { index: (s.index + 1) % (s.frames.len() as int), frames: s.frames }
}

/// Whether a stack can be played: it has frames, its play-head is on one of
/// them, and its delays are non-zero and add up to at most `u32::MAX`.
pub open spec fn playable(s: StackView) -> bool {
    &&& 0 <= s.index < s.frames.len()
    &&& stack_problem(s.frames) is None
}

impl PlaybackStack {
    /// The frame count is the number of frames, and the stack is playable.
    pub open spec fn wf(&self) -> bool {
        &&& self.count == self.frames@.len()
        &&& playable(self@)
    }

    /// Builds the stack of an animation, its play-head on the first frame.
    pub fn new(animation: Animation) -> (r: Result<PlaybackStack, StackError>)
        ensures
            stack_problem(frames_view(animation.frames@)) matches Some(e) ==> r == Err::<
                PlaybackStack,
                StackError,
            >(e),
            stack_problem(frames_view(animation.frames@)) is None ==> (r matches Ok(s) && s.wf()
                && s.index == 0 && s.frames@ == animation.frames@ && s.width == animation.width
                && s.height == animation.height),
    {
        match check_frames(&animation.frames) {
            Some(e) => Err(e),
            None => {
                let count = animation.frames.len();
                Ok(PlaybackStack { count, index: 0, frames: animation.frames, width: animation.width, height: animation.height })
            },
        }
    }

    /// The frame under the play-head.
    pub fn peek(&self) -> (r: &Frame)
        requires
            self.wf(),
        ensures
            r@ == self@.frames[self@.index],
    {
        &self.frames[self.index]
    }

    /// Returns the frame under the play-head and moves the play-head on by
    /// one, back to the first frame after the last.
    pub fn next(&mut self) -> (r: &Frame)
        requires
            old(self).wf(),
        ensures
            final(self).wf(),
            final(self)@ == advanced(old(self)@),
            final(self).frames@ == old(self).frames@,
            final(self).width == old(self).width,
            final(self).height == old(self).height,
            r@ == old(self)@.frames[old(self)@.index],
    {
        let i = self.index;
        self.index = (self.index + 1) % self.count;
        &self.frames[i]
    }

    /// The sum of all frame delays, in ticks.
    pub fn total_time(&self) -> (r: u32)
        requires
            self.wf(),
        ensures
            r == delay_sum(self@.frames),
    {
        let ghost fv = self@.frames;
        let mut total: u32 = 0;
        let mut j: usize = 0;
        while j < self.frames.len()
            invariant
                j <= self.frames@.len(),
                fv == frames_view(self.frames@),
                delay_sum(fv) <= u32::MAX,
                total == delay_sum(fv.take(j as int)),
            decreases self.frames.len() - j,
        {
            assert(fv.take(j + 1).drop_last() =~= fv.take(j as int));
            proof {
                lemma_delay_sum_prefix(fv, j + 1);
            }
            total = total + self.frames[j].delay;
            j = j + 1;
        }
        assert(fv.take(j as int) =~= fv);
        total
    }
}

/// The geometry of one physical display.
#[derive(Clone, Copy, Debug, PartialEq, Eq, Structural)]
pub struct DisplayRect {
    pub x: i32,
    pub y: i32,
    pub width: u32,
    pub height: u32,
}

/// A display and the animation shown on it.
#[derive(Clone, Copy, Debug, PartialEq, Eq, Structural)]
pub struct ScreenSlot {
    pub rect: DisplayRect,
    pub animation: usize,
}

/// Pairs each display with an animation: display `i` shows animation
/// `i % animation_count`, so animations repeat when displays outnumber them.
pub fn assign_slots(displays: &Vec<DisplayRect>, animation_count: usize) -> (r: Vec<ScreenSlot>)
    requires
        animation_count > 0,
    ensures
        r@.len() == displays@.len(),
        forall|i: int| 0 <= i < displays@.len() ==> #[trigger] r@[i] == (ScreenSlot {
            rect: displays@[i],
            animation: (i % animation_count as int) as usize,
        }),
{
    let mut slots: Vec<ScreenSlot> = Vec::new();
    let mut i: usize = 0;
    while i < displays.len()
        invariant
            i <= displays@.len(),
            animation_count > 0,
            slots@.len() == i,
            forall|j: int| 0 <= j < i ==> #[trigger] slots@[j] == (ScreenSlot {
                rect: displays@[j],
                animation: (j % animation_count as int) as usize,
            }),
        decreases displays.len() - i,
    {
        slots.push(ScreenSlot { rect: displays[i], animation: i % animation_count });
        i = i + 1;
    }
    slots
}

/// Why playback cannot start.
#[derive(Clone, Copy, Debug, PartialEq, Eq, Structural)]
pub enum ScheduleError {
    /// There is no animation to play.
    NoAnimations,
    /// Animation `animation` has no frame.
    EmptyAnimation { animation: usize },
    /// Frame `frame` of animation `animation` has a zero delay.
    ZeroDelay { animation: usize, frame: usize },
    /// The delays of all animations add up to more than `u32::MAX` ticks.
    TooLong,
}

/// The frames of each animation.
pub open spec fn animation_frames(anims: Seq<Animation>) -> Seq<Seq<FrameView>> {
    anims.map_values(|a: Animation| frames_view(a.frames@))
}

/// The views of a sequence of stacks.
pub open spec fn stacks_view(stacks: Seq<PlaybackStack>) -> Seq<StackView> {
    stacks.map_values(|s: PlaybackStack| s@)
}

/// The frames of each stack.
pub open spec fn stack_frames(stacks: Seq<StackView>) -> Seq<Seq<FrameView>> {
    stacks.map_values(|s: StackView| s.frames)
}

/// Index of the first frame sequence that cannot be played, or the length
/// when all can.
pub open spec fn first_unplayable(fs: Seq<Seq<FrameView>>) -> int
    decreases fs.len(),
{
    if fs.len() == 0 {
        0
    } else {
        let k = first_unplayable(fs.drop_last());
        if k < fs.len() - 1 {
            k
        } else if stack_problem(fs.last()) is Some {
            fs.len() - 1
        } else {
            fs.len() as int
        }
    }
}

/// The sum of the delays of all frame sequences: one full turn of the tick.
pub open spec fn total_delay(fs: Seq<Seq<FrameView>>) -> int
    decreases fs.len(),
{
    if fs.len() == 0 {
        0
    } else {
        total_delay(fs.drop_last()) + delay_sum(fs.last())
    }
}

/// A stack's problem, told of animation `a`.
pub open spec fn lift(e: StackError, a: int) -> ScheduleError {
    match e {
        StackError::Empty => ScheduleError::EmptyAnimation { animation: a as usize },
        StackError::ZeroDelay { frame } => ScheduleError::ZeroDelay { animation: a as usize, frame },
        StackError::TooLong => ScheduleError::TooLong,
    }
}

/// What keeps a set of animations from being played, checked in that order.
pub open spec fn schedule_problem(fs: Seq<Seq<FrameView>>) -> Option<ScheduleError> {
    if fs.len() == 0 {
        Some(ScheduleError::NoAnimations)
    } else if first_unplayable(fs) < fs.len() {
        Some(lift(stack_problem(fs[first_unplayable(fs)])->0, first_unplayable(fs)))
    } else if total_delay(fs) > u32::MAX {
        Some(ScheduleError::TooLong)
    } else {
        None
    }
}

proof fn lemma_first_unplayable(fs: Seq<Seq<FrameView>>)
    ensures
        0 <= first_unplayable(fs) <= fs.len(),
        first_unplayable(fs) < fs.len() ==> stack_problem(fs[first_unplayable(fs)]) is Some,
        forall|j: int| 0 <= j < first_unplayable(fs) ==> #[trigger] stack_problem(fs[j]) is None,
    decreases fs.len(),
{
    if fs.len() > 0 {
        let rest = fs.drop_last();
        lemma_first_unplayable(rest);
        assert forall|j: int| 0 <= j < first_unplayable(fs) implies #[trigger] stack_problem(fs[j]) is None by {
            if j < rest.len() {
                assert(rest[j] == fs[j]);
            }
        }
    }
}

proof fn lemma_first_unplayable_prefix(fs: Seq<Seq<FrameView>>, k: int)
    requires
        0 <= k < fs.len(),
        first_unplayable(fs.take(k)) == k,
        stack_problem(fs[k]) is Some,
    ensures
        first_unplayable(fs) == k,
    decreases fs.len(),
{
    if k < fs.len() - 1 {
        assert(fs.drop_last().take(k) =~= fs.take(k));
        lemma_first_unplayable_prefix(fs.drop_last(), k);
    } else {
        assert(fs.take(k) =~= fs.drop_last());
    }
}

proof fn lemma_total_delay_prefix(fs: Seq<Seq<FrameView>>, k: int)
    requires
        0 <= k <= fs.len(),
        forall|j: int| 0 <= j < fs.len() ==> #[trigger] stack_problem(fs[j]) is None,
    ensures
        0 <= total_delay(fs.take(k)) <= total_delay(fs),
    decreases fs.len(),
{
    if fs.len() > 0 {
        let rest = fs.drop_last();
        assert forall|j: int| 0 <= j < rest.len() implies #[trigger] stack_problem(rest[j]) is None by {
            assert(rest[j] == fs[j]);
        }
        assert(stack_problem(fs[fs.len() - 1]) is None);
        lemma_delay_sum_prefix(fs.last(), 0);
        if k == fs.len() {
            assert(fs.take(k) =~= fs);
            lemma_total_delay_prefix(rest, k - 1);
        } else {
            assert(rest.take(k) =~= fs.take(k));
            lemma_total_delay_prefix(rest, k);
        }
    }
}

proof fn lemma_delay_sum_positive(frames: Seq<FrameView>)
    requires
        stack_problem(frames) is None,
    ensures
        delay_sum(frames) > 0,
{
    lemma_first_zero_delay(frames);
    assert(frames[frames.len() - 1].delay > 0);
    lemma_delay_sum_prefix(frames.drop_last(), 0);
    lemma_delay_sum_prefix(frames.drop_last(), frames.len() - 1);
}

/// A stack that moved on during a tick, as the scheduler reports it.
#[derive(Clone, Copy, Debug, PartialEq, Eq, Structural)]
pub struct Emission {
    /// The display slot to redraw.
    pub slot: usize,
    /// The animation (stack) shown there.
    pub animation: usize,
    /// The frame of that animation whose regions are to be drawn.
    pub frame: usize,
    /// Whether that frame has any region, so that the slot must be presented.
    pub changed: bool,
}

/// The stacks and the emissions after the first `n` slots were looked at on
/// tick `t`: a slot fires when `t` is a multiple of the delay of its stack's
/// current frame, and then its stack moves on by one frame.
pub open spec fn slot_pass(stacks: Seq<StackView>, slots: Seq<ScreenSlot>, t: int, n: int) -> (Seq<StackView>, Seq<Emission>)
    decreases n,
{
    if n <= 0 {
        (stacks, seq![])
    } else {
        let (st, em) = slot_pass(stacks, slots, t, n - 1);
        let a = slots[n - 1].animation as int;
        let s = st[a];
        let f = s.frames[s.index];
        if t % (f.delay as int) == 0 {
            (
                st.update(a, advanced(s)),
                em.push(Emission { slot: (n - 1) as usize, animation: a as usize, frame: s.index as usize, changed: f.regions.len() > 0 }),
            )
        } else {
            (st, em)
        }
    }
}

/// Every stack, every display slot, and the shared tick counter.
pub struct Scheduler {
    pub stacks: Vec<PlaybackStack>,
    pub slots: Vec<ScreenSlot>,
    pub tick: u32,
    pub max_tick: u32,
}

impl Scheduler {
    /// Every stack is playable, every slot names a stack, `max_tick` is the
    /// sum of all delays, and the counter lies below it.
    pub open spec fn wf(&self) -> bool {
        &&& self.stacks@.len() > 0
        &&& forall|i: int| 0 <= i < self.stacks@.len() ==> (#[trigger] self.stacks@[i]).wf()
        &&& forall|i: int| 0 <= i < self.slots@.len() ==> (#[trigger] self.slots@[i]).animation < self.stacks@.len()
        &&& self.max_tick == total_delay(stack_frames(stacks_view(self.stacks@)))
        &&& self.tick < self.max_tick
    }

    /// Builds one stack per animation, play-heads on their first frames, and
    /// pairs display `i` with animation `i % animations.len()`. Fails, before
    /// any playback, on the first animation that has no frame or a zero
    /// delay, or when all delays add up to more than `u32::MAX` ticks.
    pub fn new(animations: Vec<Animation>, displays: &Vec<DisplayRect>) -> (r: Result<Scheduler, ScheduleError>)
        ensures
            schedule_problem(animation_frames(animations@)) matches Some(e) ==> r == Err::<
                Scheduler,
                ScheduleError,
            >(e),
            schedule_problem(animation_frames(animations@)) is None ==> (r matches Ok(s) && s.wf() && s.tick == 0
                    && s.max_tick == total_delay(animation_frames(animations@))
                    && s.stacks@.len() == animations@.len()
                    && (forall|i: int| 0 <= i < animations@.len() ==> {
                        &&& (#[trigger] s.stacks@[i]).index == 0
                        &&& s.stacks@[i].frames@ == animations@[i].frames@
                        &&& s.stacks@[i].width == animations@[i].width
                        &&& s.stacks@[i].height == animations@[i].height
                    })
                    && s.slots@.len() == displays@.len()
                    && forall|i: int| 0 <= i < displays@.len() ==> #[trigger] s.slots@[i] == (ScreenSlot {
                        rect: displays@[i],
                        animation: (i % animations@.len() as int) as usize,
                    })),
    {
        let ghost orig = animations@;
        let ghost fs = animation_frames(orig);
        let n = animations.len();
        if n == 0 {
            return Err(ScheduleError::NoAnimations);
        }
        let mut k: usize = 0;
        while k < n
            invariant
                k <= n,
                n == orig.len(),
                animations@ == orig,
                fs == animation_frames(orig),
                first_unplayable(fs.take(k as int)) == k,
            decreases n - k,
        {
            assert(fs.take(k + 1).drop_last() =~= fs.take(k as int));
            match check_frames(&animations[k].frames) {
                Some(e) => {
                    proof {
                        lemma_first_unplayable_prefix(fs, k as int);
                    }
                    return Err(match e {
                        StackError::Empty => ScheduleError::EmptyAnimation { animation: k },
                        StackError::ZeroDelay { frame } => ScheduleError::ZeroDelay { animation: k, frame },
                        StackError::TooLong => ScheduleError::TooLong,
                    });
                },
                None => {},
            }
            k = k + 1;
        }
        assert(fs.take(k as int) =~= fs);
        proof {
            lemma_first_unplayable(fs);
        }
        let mut rest = animations;
        let mut stacks: Vec<PlaybackStack> = Vec::new();
        while rest.len() > 0
            invariant
                n == orig.len(),
                n > 0,
                orig == animations@,
                stacks@.len() + rest@.len() == n,
                rest@ == orig.skip(stacks@.len() as int),
                fs == animation_frames(orig),
                first_unplayable(fs) == n,
                forall|j: int| 0 <= j < n ==> #[trigger] stack_problem(fs[j]) is None,
                forall|i: int| 0 <= i < stacks@.len() ==> {
                    &&& (#[trigger] stacks@[i]).wf()
                    &&& stacks@[i].index == 0
                    &&& stacks@[i].frames@ == orig[i].frames@
                    &&& stacks@[i].width == orig[i].width
                    &&& stacks@[i].height == orig[i].height
                },
            decreases rest.len(),
        {
            let ghost i = stacks@.len() as int;
            let a = rest.remove(0);
            assert(a == orig[i]);
            assert(stack_problem(fs[i]) is None);
            let count = a.frames.len();
            stacks.push(PlaybackStack { count, index: 0, frames: a.frames, width: a.width, height: a.height });
            assert(rest@ =~= orig.skip(stacks@.len() as int));
        }
        let ghost sf = stack_frames(stacks_view(stacks@));
        let ghost built = stacks@;
        assert(sf =~= fs);
        let mut total: u64 = 0;
        let mut j: usize = 0;
        while j < n
            invariant
                j <= n,
                n > 0,
                orig == animations@,
                n == stacks@.len(),
                sf == stack_frames(stacks_view(stacks@)),
                sf == fs,
                fs == animation_frames(orig),
                stacks@ == built,
                built.len() == orig.len(),
                forall|i: int| 0 <= i < built.len() ==> {
                    &&& (#[trigger] built[i]).index == 0
                    &&& built[i].frames@ == orig[i].frames@
                    &&& built[i].width == orig[i].width
                    &&& built[i].height == orig[i].height
                },
                first_unplayable(fs) == n,
                fs.len() == n,
                forall|i: int| 0 <= i < n ==> (#[trigger] stacks@[i]).wf(),
                forall|i: int| 0 <= i < n ==> #[trigger] stack_problem(fs[i]) is None,
                total == total_delay(sf.take(j as int)),
                total <= u32::MAX,
            decreases n - j,
        {
            assert(sf.take(j + 1).drop_last() =~= sf.take(j as int));
            assert(sf.take(j + 1).last() == stacks@[j as int]@.frames);
            total = total + stacks[j].total_time() as u64;
            j = j + 1;
            assert(total == total_delay(sf.take(j as int)));
            if total > u32::MAX as u64 {
                proof {
                    lemma_total_delay_prefix(fs, j as int);
                }
                return Err(ScheduleError::TooLong);
            }
        }
        assert(sf.take(j as int) =~= sf);
        proof {
            lemma_delay_sum_positive(fs[0]);
            lemma_total_delay_prefix(fs, 1);
            assert(fs.take(1).drop_last() =~= seq![]);
            assert(fs.take(1).last() == fs[0]);
            assert(total_delay(fs.take(1)) == total_delay(fs.take(1).drop_last()) + delay_sum(fs[0]));
            assert(total_delay(fs.take(1)) > 0);
            assert(total == total_delay(fs));
        }
        let slots = assign_slots(displays, n);
        assert forall|i: int| 0 <= i < slots@.len() implies (#[trigger] slots@[i]).animation < stacks@.len() by {
            assert(slots@[i].animation == (i % n as int) as usize);
            assert(0 <= i % (n as int) < n) by (nonlinear_arith) requires n > 0, i >= 0;
        }
        let s = Scheduler { stacks, slots, tick: 0, max_tick: total as u32 };
        assert(s.max_tick == total_delay(stack_frames(stacks_view(s.stacks@))));
        assert(s.max_tick > 0);
        assert(s.wf());
        Ok(s)
    }

    /// One tick of the shared clock. Each slot, in order, looks at the delay
    /// `d` of its stack's current frame; when the tick counter is a multiple of
    /// `d`, the stack moves on and the frame it was on is reported for that
    /// slot. The counter then moves on by one, back to zero at `max_tick`.
    pub fn tick(&mut self) -> (r: Vec<Emission>)
        requires
            old(self).wf(),
        ensures
            final(self).wf(),
            final(self).slots@ == old(self).slots@,
            final(self).max_tick == old(self).max_tick,
            final(self).tick == (old(self).tick + 1) % (old(self).max_tick as int),
            stacks_view(final(self).stacks@) == slot_pass(
                stacks_view(old(self).stacks@),
                old(self).slots@,
                old(self).tick as int,
                old(self).slots@.len() as int,
            ).0,
            r@ == slot_pass(
                stacks_view(old(self).stacks@),
                old(self).slots@,
                old(self).tick as int,
                old(self).slots@.len() as int,
            ).1,
            forall|i: int| 0 <= i < final(self).stacks@.len() ==> {
                &&& (#[trigger] final(self).stacks@[i]).width == old(self).stacks@[i].width
                &&& final(self).stacks@[i].height == old(self).stacks@[i].height
            },
    {
        let ghost start = stacks_view(self.stacks@);
        let ghost first = self.stacks@;
        let mut emissions: Vec<Emission> = Vec::new();
        let mut i: usize = 0;
        while i < self.slots.len()
            invariant
                i <= self.slots@.len(),
                self.slots@ == old(self).slots@,
                self.max_tick == old(self).max_tick,
                self.tick == old(self).tick,
                self.tick < self.max_tick,
                start == stacks_view(old(self).stacks@),
                first == old(self).stacks@,
                self.stacks@.len() == first.len(),
                forall|j: int| 0 <= j < self.slots@.len() ==> (#[trigger] self.slots@[j]).animation < self.stacks@.len(),
                forall|j: int| 0 <= j < self.stacks@.len() ==> {
                    &&& (#[trigger] self.stacks@[j]).wf()
                    &&& self.stacks@[j].frames@ == first[j].frames@
                    &&& self.stacks@[j].width == first[j].width
                    &&& self.stacks@[j].height == first[j].height
                },
                stacks_view(self.stacks@) == slot_pass(start, self.slots@, self.tick as int, i as int).0,
                emissions@ == slot_pass(start, self.slots@, self.tick as int, i as int).1,
            decreases self.slots.len() - i,
        {
            let a = self.slots[i].animation;
            let ghost before = self.stacks@;
            let frame = self.stacks[a].peek();
            let delay = frame.delay;
            let changed = frame.regions.len() > 0;
            assert(delay > 0) by {
                let sv = self.stacks@[a as int]@;
                lemma_first_zero_delay(sv.frames);
                assert(sv.frames[sv.index].delay > 0);
            }
            if self.tick % delay == 0 {
                let index = self.stacks[a].index;
                self.stacks[a].next();
                emissions.push(Emission { slot: i, animation: a, frame: index, changed });
                assert(stacks_view(self.stacks@) =~= stacks_view(before).update(a as int, advanced(before[a as int]@)));
                assert(self.stacks@ == before.update(a as int, self.stacks@[a as int]));
            }
            i = i + 1;
        }
        assert(stack_frames(stacks_view(self.stacks@)) =~= stack_frames(stacks_view(first)));
        self.tick = (self.tick + 1) % self.max_tick;
        emissions
    }
}

/// The tick counter `n` ticks after it stood at `t`, for a turn of `m` ticks.
pub open spec fn counter_after(t: int, m: int, n: nat) -> int
    decreases n,
{
    if n == 0 {
        t
    } else {
        (counter_after(t, m, (n - 1) as nat) + 1) % m
    }
}

proof fn lemma_counter_after(t: int, m: int, n: nat)
    requires
        0 <= t < m,
    ensures
        counter_after(t, m, n) == (t + n) % m,
    decreases n,
{
    if n > 0 {
        lemma_counter_after(t, m, (n - 1) as nat);
        lemma_add_mod_noop(t + n - 1, 1, m);
        if m > 1 {
            lemma_small_mod(1, m as nat);
        }
    } else {
        lemma_small_mod(t as nat, m as nat);
    }
}

/// The shared counter has period `max_tick`: whatever tick the scheduler
/// stands on, `max_tick` ticks later it stands on the same tick again.
pub proof fn lemma_counter_period(t: int, max_tick: int)
    requires
        0 <= t < max_tick,
    ensures
        counter_after(t, max_tick, max_tick as nat) == t,
{
    lemma_counter_after(t, max_tick, max_tick as nat);
    lemma_mod_add_multiples_vanish(t, max_tick);
    lemma_small_mod(t as nat, max_tick as nat);
}

/// Display `i` drives animation `i % m` for the whole run: when the slots
/// are paired that way (as `Scheduler::new` pairs them, and `tick` keeps
/// them), every emission of a tick names a slot `i` with animation `i % m`,
/// and a stack that no looked-at slot shows does not move.
pub proof fn lemma_slots_drive_their_animation(
    stacks: Seq<StackView>,
    slots: Seq<ScreenSlot>,
    t: int,
    n: int,
    m: int,
)
    requires
        0 < m <= stacks.len(),
        m <= usize::MAX,
        0 <= n <= slots.len() <= usize::MAX,
        forall|i: int| 0 <= i < slots.len() ==> (#[trigger] slots[i]).animation == (i % m) as usize,
    ensures
        slot_pass(stacks, slots, t, n).0.len() == stacks.len(),
        forall|k: int|
            0 <= k < slot_pass(stacks, slots, t, n).1.len() ==> {
                let e = #[trigger] slot_pass(stacks, slots, t, n).1[k];
                &&& e.slot < n
                &&& e.animation == e.slot as int % m
            },
        forall|j: int|
            0 <= j < stacks.len() && (forall|i: int| 0 <= i < n ==> (#[trigger] slots[i]).animation != j)
                ==> #[trigger] slot_pass(stacks, slots, t, n).0[j] == stacks[j],
    decreases n,
{
    if n > 0 {
        lemma_slots_drive_their_animation(stacks, slots, t, n - 1, m);
        let (st, em) = slot_pass(stacks, slots, t, n - 1);
        let a = slots[n - 1].animation as int;
        assert(0 <= (n - 1) % m < m) by (nonlinear_arith) requires 0 < m, n - 1 >= 0;
        let (st2, em2) = slot_pass(stacks, slots, t, n);
        assert forall|k: int| 0 <= k < em2.len() implies {
            let e = #[trigger] em2[k];
            &&& e.slot < n
            &&& e.animation == e.slot as int % m
        } by {
            if k < em.len() {
                assert(em2[k] == em[k]);
            } else {
                assert(em2[k].slot == n - 1);
                assert(em2[k].animation == a);
                assert(a == (n - 1) % m);
            }
        }
        assert forall|j: int|
            0 <= j < stacks.len() && (forall|i: int| 0 <= i < n ==> (#[trigger] slots[i]).animation != j)
                implies #[trigger] st2[j] == stacks[j] by {
            assert(slots[n - 1].animation != j);
            assert forall|i: int| 0 <= i < n - 1 implies (#[trigger] slots[i]).animation != j by {}
        }
    }
}

} // verus!
