//! The decisions of one movement step: whether the player takes off, which
//! set of parameters applies, how long the collide-and-slide goes on, where a
//! contact is kept, how the velocity is mended against the contacts held, and
//! whether the player ends the step on the ground.
//!
//! Velocities, normals and times are real-valued and stay with the caller,
//! who sweeps, clips and integrates as these decisions say.
use vstd::prelude::*;
use crate::player::PlayerFlags;

verus! {

/// The most sweeps of one step.
pub const MAX_SWEEPS: usize = 3;

/// The slots for contact normals.
pub const MAX_CONTACTS: usize = 4;

/// Which parameters govern friction and acceleration.
#[derive(Debug, Clone, Copy, PartialEq, Eq, Structural)]
pub enum MoveMode {
    /// Ground acceleration, ground friction, the ground speed as cap.
    Ground,
    /// Air acceleration, no friction, the air speed as cap.
    Air,
}

/// What the start of a step decides.
#[derive(Debug, Clone, Copy, PartialEq, Eq, Structural)]
pub struct StepStart {
    /// The player is to be put back at the spawn point, at rest.
    pub respawn: bool,
    /// The player takes off: the jump speed goes into the vertical velocity.
    pub takeoff: bool,
    pub mode: MoveMode,
}

/// The flags that a step starts from: none after a reset.
pub open spec fn step_base(flags: PlayerFlags, reset: bool) -> PlayerFlags {
    if reset {
        PlayerFlags { on_ground: false, jumped: false }
    } else {
        flags
    }
}

/// Whether a step makes the player take off: the button is held, the player
/// stands, and no jump has been made since the button was last let go.
pub open spec fn takes_off(flags: PlayerFlags, jump: bool, reset: bool) -> bool {
    jump && step_base(flags, reset).on_ground && !step_base(flags, reset).jumped
}

/// The flags after the start of a step.  Taking off leaves the ground and
/// sets the latch; the latch holds while the button is held and falls when
/// it is let go.
pub open spec fn flags_after_start(flags: PlayerFlags, jump: bool, reset: bool) -> PlayerFlags {
    PlayerFlags {
        on_ground: step_base(flags, reset).on_ground && !takes_off(flags, jump, reset),
        jumped: jump && (step_base(flags, reset).jumped || takes_off(flags, jump, reset)),
    }
}

/// Starts a step: handles the reset, decides the jump, picks the parameters
/// by whether the player still stands, and lets the latch fall if the button
/// is not held.
pub fn begin_step(flags: &mut PlayerFlags, jump: bool, reset: bool) -> (start: StepStart)
    ensures
        *final(flags) == flags_after_start(*old(flags), jump, reset),
        start.respawn == reset,
        start.takeoff == takes_off(*old(flags), jump, reset),
        start.mode == if final(flags).on_ground {
            MoveMode::Ground
        } else {
            MoveMode::Air
        },
{
    if reset {
        *flags = PlayerFlags::empty();
    }
    let takeoff = jump && flags.on_ground && !flags.jumped;
    if takeoff {
        flags.on_ground = false;
        flags.jumped = true;
    }
    let mode = if flags.on_ground {
        MoveMode::Ground
    } else {
        MoveMode::Air
    };
    if !jump {
        flags.jumped = false;
    }
    StepStart { respawn: reset, takeoff, mode }
}

/// The flags at the start of the step `upto` steps on, in a run of steps
/// with the button held and no reset, where `flags` are those after the
/// start of the first step and `grounds[i]` says whether step `i` ended on
/// the ground.
pub open spec fn held_flags(flags: PlayerFlags, grounds: Seq<bool>, upto: int) -> PlayerFlags
    decreases upto,
{
    if upto <= 0 {
        flags
    } else {
        PlayerFlags {
            on_ground: grounds[upto - 1],
            jumped: flags_after_start(held_flags(flags, grounds, upto - 1), true, false).jumped,
        }
    }
}

/// Once set, the latch stays set for as long as the button is held.
proof fn lemma_latch_holds(flags: PlayerFlags, grounds: Seq<bool>, upto: int)
    requires
        flags.jumped,
        0 <= upto <= grounds.len(),
    ensures
        held_flags(flags, grounds, upto).jumped,
    decreases upto,
{
    if upto > 0 {
        lemma_latch_holds(flags, grounds, upto - 1);
    }
}

/// One jump for one press of the button: after a step in which the player
/// took off, no step takes off for as long as the button stays held and no
/// reset comes, however often the player lands in between.
pub proof fn lemma_one_jump_per_press(
    start: PlayerFlags,
    reset: bool,
    grounds: Seq<bool>,
    later: int,
)
    requires
        takes_off(start, true, reset),
        0 <= later <= grounds.len(),
    ensures
        !takes_off(held_flags(flags_after_start(start, true, reset), grounds, later), true, false),
{
    lemma_latch_holds(flags_after_start(start, true, reset), grounds, later);
}

/// Letting the button go lets the latch fall, so that the next press on the
/// ground takes off again.
pub proof fn lemma_release_rearms(flags: PlayerFlags)
    ensures
        !flags_after_start(flags, false, false).jumped,
        takes_off(
            PlayerFlags { on_ground: true, ..flags_after_start(flags, false, false) },
            true,
            false,
        ),
{
}

/// What a sweep of the collide-and-slide came to.
#[derive(Debug, Clone, Copy, PartialEq, Eq, Structural)]
pub enum SweepEvent {
    /// No time was left to sweep in.
    Spent,
    /// Nothing was hit: the whole motion was made.
    Miss,
    /// A surface was hit.
    Hit {
        /// The impact came after the start of the sweep.
        advanced: bool,
        /// The impact came at the very end of the sweep.
        complete: bool,
        /// The surface is a floor: its normal points up steeply enough.
        floor: bool,
    },
}

/// What the caller is to do after a sweep.
#[derive(Debug, Clone, Copy, PartialEq, Eq, Structural)]
pub enum SlideAction {
    /// The collide-and-slide is over.
    Stop,
    /// Keep the normal that was hit in `slot`, mend the velocity against the
    /// first `count` slots, and sweep again if `again` says so.
    Resolve { slot: usize, count: usize, again: bool },
}

/// The collide-and-slide of one step, between sweeps.
#[derive(Debug, Clone, Copy, PartialEq, Eq, Structural)]
pub struct Slide {
    /// Sweeps made so far.
    pub sweeps: usize,
    /// Contacts held.
    pub contacts: usize,
    /// Some surface hit in this step was a floor.
    pub hit_floor: bool,
    /// No sweep is to follow.
    pub over: bool,
}

impl Slide {
    /// Never more contacts than sweeps, never more sweeps than allowed.
    pub open spec fn inv(&self) -> bool {
        &&& self.contacts <= self.sweeps <= MAX_SWEEPS
        &&& self.sweeps == MAX_SWEEPS ==> self.over
    }

    /// The state after a sweep that came to `event`.
    pub open spec fn after(self, event: SweepEvent) -> Slide {
        if self.over {
            self
        } else {
            match event {
                SweepEvent::Spent => Slide { over: true, ..self },
                SweepEvent::Miss => Slide {
                    sweeps: (self.sweeps + 1) as usize,
                    over: true,
                    ..self
                },
                SweepEvent::Hit { advanced, complete, floor } => Slide {
                    sweeps: (self.sweeps + 1) as usize,
                    contacts: if advanced {
                        1
                    } else {
                        (self.contacts + 1) as usize
                    },
                    hit_floor: self.hit_floor || floor,
                    over: (advanced && complete) || self.sweeps + 1 == MAX_SWEEPS,
                },
            }
        }
    }

    /// What the caller is to do after a sweep that came to `event`.
    pub open spec fn action(self, event: SweepEvent) -> SlideAction {
        if self.over {
            SlideAction::Stop
        } else {
            match event {
                SweepEvent::Hit { advanced, complete, floor } => if advanced && complete {
                    SlideAction::Stop
                } else {
                    SlideAction::Resolve {
                        slot: (self.after(event).contacts - 1) as usize,
                        count: self.after(event).contacts,
                        again: !self.after(event).over,
                    }
                },
                _ => SlideAction::Stop,
            }
        }
    }

    /// Before the first sweep.
    pub fn new() -> (slide: Slide)
        ensures
            slide == (Slide { sweeps: 0, contacts: 0, hit_floor: false, over: false }),
            slide.inv(),
    {
        Slide { sweeps: 0, contacts: 0, hit_floor: false, over: false }
    }

    /// Takes in what a sweep came to and says what to do next.  A hit after
    /// the start of the sweep is a new contact and takes the place of all
    /// that were held; a hit at the start joins them.  A slot named is
    /// always one of the slots there are.
    pub fn on_sweep(&mut self, event: SweepEvent) -> (action: SlideAction)
        requires
            old(self).inv(),
        ensures
            *final(self) == old(self).after(event),
            action == old(self).action(event),
            final(self).inv(),
            match action {
                SlideAction::Resolve { slot, count, again } => slot < count <= MAX_SWEEPS
                    && count < MAX_CONTACTS,
                SlideAction::Stop => final(self).over,
            },
    {
        if self.over {
            return SlideAction::Stop;
        }
        match event {
            SweepEvent::Spent => {
                self.over = true;
                SlideAction::Stop
            },
            SweepEvent::Miss => {
                self.sweeps = self.sweeps + 1;
                self.over = true;
                SlideAction::Stop
            },
            SweepEvent::Hit { advanced, complete, floor } => {
                self.sweeps = self.sweeps + 1;
                if floor {
                    self.hit_floor = true;
                }
                if advanced {
                    self.contacts = 1;
                } else {
                    self.contacts = self.contacts + 1;
                }
                if advanced && complete {
                    self.over = true;
                    return SlideAction::Stop;
                }
                if self.sweeps == MAX_SWEEPS {
                    self.over = true;
                }
                SlideAction::Resolve {
                    slot: self.contacts - 1,
                    count: self.contacts,
                    again: !self.over,
                }
            },
        }
    }
}

/// How the velocity is mended against the contacts held.
#[derive(Debug, Clone, Copy, PartialEq, Eq, Structural)]
pub enum Resolution {
    /// Clipped against the contacts up to and including `last`, in turn.
    Clip { last: usize },
    /// Clipped against every contact, and against the first once more.
    Reclip,
    /// Projected onto the crease of the two contacts.
    Crease,
    /// Brought to rest: the contacts leave no way out.
    Stuck,
}

/// The least index below `upto` at which `clear` holds, or `upto`.
pub open spec fn first_clear(clear: Seq<bool>, upto: int) -> int
    decreases upto,
{
    if upto <= 0 {
        0
    } else if first_clear(clear, upto - 1) < upto - 1 || clear[upto - 1] {
        first_clear(clear, upto - 1)
    } else {
        upto
    }
}

/// The mending owed: the first clipping that is clear of all other contacts,
/// else by the number of contacts the crease, rest, or one more clipping.
pub open spec fn resolution(clear: Seq<bool>) -> Resolution {
    if first_clear(clear, clear.len() as int) < clear.len() {
        Resolution::Clip { last: first_clear(clear, clear.len() as int) as usize }
    } else if clear.len() == 2 {
        Resolution::Crease
    } else if clear.len() > 2 {
        Resolution::Stuck
    } else {
        Resolution::Reclip
    }
}

/// Chooses the mending of the velocity.  `clear[i]` says whether the
/// velocity, clipped in turn against the contacts up to and including `i`,
/// moves into none of the other contacts.
pub fn resolve(clear: &Vec<bool>) -> (r: Resolution)
    ensures
        r == resolution(clear@),
{
    let n = clear.len();
    let mut i: usize = 0;
    while i < n
        invariant
            n == clear.len(),
            i <= n,
            first_clear(clear@, i as int) == i,
        decreases n - i,
    {
        if clear[i] {
            proof {
                lemma_first_clear_found(clear@, i as int, n as int);
            }
            return Resolution::Clip { last: i };
        }
        i = i + 1;
    }
    if n == 2 {
        Resolution::Crease
    } else if n > 2 {
        Resolution::Stuck
    } else {
        Resolution::Reclip
    }
}

/// A clear entry with none before it is the first clear entry.
proof fn lemma_first_clear_found(clear: Seq<bool>, at: int, upto: int)
    requires
        0 <= at < upto <= clear.len(),
        first_clear(clear, at) == at,
        clear[at],
    ensures
        first_clear(clear, upto) == at,
    decreases upto,
{
    if upto > at + 1 {
        lemma_first_clear_found(clear, at, upto - 1);
    }
}

/// Ends a step: the player stands if and only if a floor was hit in it.
pub fn end_step(flags: &mut PlayerFlags, slide: &Slide)
    ensures
        final(flags).on_ground == slide.hit_floor,
        final(flags).jumped == old(flags).jumped,
{
    flags.on_ground = slide.hit_floor;
}

/// Whether a sweep hit a floor.
pub open spec fn hits_floor(event: SweepEvent) -> bool {
    match event {
        SweepEvent::Hit { advanced, complete, floor } => floor,
        _ => false,
    }
}

/// `sw` says what `sweep` answers.
pub open spec fn sweeps<P, F: Fn(P) -> (P, SweepEvent)>(
    sweep: F,
    sw: spec_fn(P) -> (P, SweepEvent),
) -> bool {
    forall|body: P, r: (P, SweepEvent)| call_ensures(sweep, (body,), r) ==> r == sw(body)
}

/// `me` says what `mend` answers.
pub open spec fn mends<P, G: Fn(P, usize, usize) -> P>(
    mend: G,
    me: spec_fn(P, usize, usize) -> P,
) -> bool {
    forall|body: P, slot: usize, count: usize, r: P|
        call_ensures(mend, (body, slot, count), r) ==> r == me(body, slot, count)
}

/// `it` says what `integrate` answers.
pub open spec fn integrates<P, I: Fn(P, StepStart) -> P>(
    integrate: I,
    it: spec_fn(P, StepStart) -> P,
) -> bool {
    forall|body: P, start: StepStart, r: P|
        call_ensures(integrate, (body, start), r) ==> r == it(body, start)
}

/// The collide-and-slide from `body` and `slide` on, for at most `fuel`
/// sweeps: sweep, take in what it came to, mend the velocity where a contact
/// is to be kept, and go on until no sweep is to follow.
pub open spec fn slide_run<P>(
    sw: spec_fn(P) -> (P, SweepEvent),
    me: spec_fn(P, usize, usize) -> P,
    body: P,
    slide: Slide,
    fuel: nat,
) -> (P, Slide)
    decreases fuel,
{
    if slide.over || fuel == 0 {
        (body, slide)
    } else {
        let (moved, event) = sw(body);
        let mended = match slide.action(event) {
            SlideAction::Resolve { slot, count, again } => me(moved, slot, count),
            SlideAction::Stop => moved,
        };
        slide_run(sw, me, mended, slide.after(event), (fuel - 1) as nat)
    }
}

/// A collide-and-slide that ends with a floor hit, and did not begin with
/// one, has made a sweep that hit a floor.
pub proof fn lemma_run_ground_needs_floor<P>(
    sw: spec_fn(P) -> (P, SweepEvent),
    me: spec_fn(P, usize, usize) -> P,
    body: P,
    slide: Slide,
    fuel: nat,
)
    requires
        !slide.hit_floor,
        slide_run(sw, me, body, slide, fuel).1.hit_floor,
    ensures
        exists|b: P| hits_floor(#[trigger] sw(b).1),
    decreases fuel,
{
    if !slide.over && fuel > 0 {
        let (moved, event) = sw(body);
        if hits_floor(event) {
            assert(hits_floor(sw(body).1));
        } else {
            let mended = match slide.action(event) {
                SlideAction::Resolve { slot, count, again } => me(moved, slot, count),
                SlideAction::Stop => moved,
            };
            lemma_run_ground_needs_floor(sw, me, mended, slide.after(event), (fuel - 1) as nat);
        }
    }
}

/// What the start of a step decides, as a value.
pub open spec fn step_start(flags: PlayerFlags, jump: bool, reset: bool) -> StepStart {
    StepStart {
        respawn: reset,
        takeoff: takes_off(flags, jump, reset),
        mode: if flags_after_start(flags, jump, reset).on_ground {
            MoveMode::Ground
        } else {
            MoveMode::Air
        },
    }
}

/// The collide-and-slide of one step.  `body` is what the caller moves: it
/// is handed to `sweep`, which moves it as far as it gets and says what the
/// sweep came to, and to `mend`, which keeps the normal that was hit in the
/// slot named and mends the velocity against the contacts held.  Never more
/// than `MAX_SWEEPS` sweeps are made.
pub fn collide_and_slide<P, F: Fn(P) -> (P, SweepEvent), G: Fn(P, usize, usize) -> P>(
    body: P,
    sweep: F,
    mend: G,
) -> (r: (P, Slide))
    requires
        forall|b: P| call_requires(sweep, (b,)),
        forall|b: P, slot: usize, count: usize|
            slot < count <= MAX_SWEEPS ==> call_requires(mend, (b, slot, count)),
    ensures
        r.1.over,
        r.1.inv(),
        forall|sw: spec_fn(P) -> (P, SweepEvent), me: spec_fn(P, usize, usize) -> P|
            #![trigger sweeps(sweep, sw), mends(mend, me)]
            sweeps(sweep, sw) && mends(mend, me) ==> r == slide_run(
                sw,
                me,
                body,
                Slide { sweeps: 0, contacts: 0, hit_floor: false, over: false },
                MAX_SWEEPS as nat,
            ),
{
    let mut slide = Slide::new();
    let mut body = body;
    let ghost first = body;
    while !slide.over
        invariant
            slide.inv(),
            forall|b: P| call_requires(sweep, (b,)),
            forall|b: P, slot: usize, count: usize|
                slot < count <= MAX_SWEEPS ==> call_requires(mend, (b, slot, count)),
            forall|sw: spec_fn(P) -> (P, SweepEvent), me: spec_fn(P, usize, usize) -> P|
                #![trigger sweeps(sweep, sw), mends(mend, me)]
                sweeps(sweep, sw) && mends(mend, me) ==> slide_run(
                    sw,
                    me,
                    first,
                    Slide { sweeps: 0, contacts: 0, hit_floor: false, over: false },
                    MAX_SWEEPS as nat,
                ) == slide_run(sw, me, body, slide, (MAX_SWEEPS - slide.sweeps) as nat),
        decreases
                if slide.over {
                    0
                } else {
                    MAX_SWEEPS - slide.sweeps + 1
                },
    {
        let ghost before = slide;
        let ghost held = body;
        let (moved, event) = sweep(body);
        let ghost swept = moved;
        match slide.on_sweep(event) {
            SlideAction::Resolve { slot, count, again } => {
                body = mend(moved, slot, count);
            },
            SlideAction::Stop => {
                body = moved;
            },
        }
        assert forall|sw: spec_fn(P) -> (P, SweepEvent), me: spec_fn(P, usize, usize) -> P|
            #![trigger sweeps(sweep, sw), mends(mend, me)]
            sweeps(sweep, sw) && mends(mend, me) implies slide_run(
            sw,
            me,
            held,
            before,
            (MAX_SWEEPS - before.sweeps) as nat,
        ) == slide_run(sw, me, body, slide, (MAX_SWEEPS - slide.sweeps) as nat) by {
            assert(sw(held) == (swept, event));
            assert(slide_run(sw, me, held, before, (MAX_SWEEPS - before.sweeps) as nat)
                == slide_run(sw, me, body, slide, (MAX_SWEEPS - before.sweeps - 1) as nat));
        }
    }
    (body, slide)
}

/// One movement step.  `body` is what the caller moves.  The step starts
/// with the reset, the jump and the choice of parameters; `integrate` then
/// applies them with friction, acceleration and gravity; the
/// collide-and-slide follows with `sweep` and `mend`; and the player ends on
/// the ground if and only if a floor was hit.
pub fn move_player<
    P,
    I: Fn(P, StepStart) -> P,
    F: Fn(P) -> (P, SweepEvent),
    G: Fn(P, usize, usize) -> P,
>(
    flags: &mut PlayerFlags,
    body: P,
    jump: bool,
    reset: bool,
    integrate: I,
    sweep: F,
    mend: G,
) -> (moved: P)
    requires
        forall|b: P, start: StepStart| call_requires(integrate, (b, start)),
        forall|b: P| call_requires(sweep, (b,)),
        forall|b: P, slot: usize, count: usize|
            slot < count <= MAX_SWEEPS ==> call_requires(mend, (b, slot, count)),
    ensures
        final(flags).jumped == flags_after_start(*old(flags), jump, reset).jumped,
        forall|
            it: spec_fn(P, StepStart) -> P,
            sw: spec_fn(P) -> (P, SweepEvent),
            me: spec_fn(P, usize, usize) -> P,
        |
            #![trigger integrates(integrate, it), sweeps(sweep, sw), mends(mend, me)]
            integrates(integrate, it) && sweeps(sweep, sw) && mends(mend, me) ==> {
                let end = slide_run(
                    sw,
                    me,
                    it(body, step_start(*old(flags), jump, reset)),
                    Slide { sweeps: 0, contacts: 0, hit_floor: false, over: false },
                    MAX_SWEEPS as nat,
                );
                moved == end.0 && final(flags).on_ground == end.1.hit_floor
            },
{
    let start = begin_step(flags, jump, reset);
    let ready = integrate(body, start);
    let (moved, slide) = collide_and_slide(ready, sweep, mend);
    end_step(flags, &slide);
    moved
}

/// The state of the collide-and-slide after the first `upto` of `events`.
pub open spec fn slide_after(events: Seq<SweepEvent>, upto: int) -> Slide
    decreases upto,
{
    if upto <= 0 {
        Slide { sweeps: 0, contacts: 0, hit_floor: false, over: false }
    } else {
        slide_after(events, upto - 1).after(events[upto - 1])
    }
}

/// A step ends on the ground only if one of its sweeps hit a floor.
pub proof fn lemma_ground_needs_floor(events: Seq<SweepEvent>, upto: int)
    requires
        0 <= upto <= events.len(),
        slide_after(events, upto).hit_floor,
    ensures
        exists|i: int| 0 <= i < upto && hits_floor(#[trigger] events[i]),
    decreases upto,
{
    if upto > 0 {
        let before = slide_after(events, upto - 1);
        if before.hit_floor {
            lemma_ground_needs_floor(events, upto - 1);
        } else {
            assert(hits_floor(events[upto - 1]));
        }
    }
}

} // verus!
