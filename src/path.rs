use vstd::prelude::*;

verus! {

/// What tracing one segment of a light path found.
#[derive(Clone, Copy, Debug, PartialEq, Eq, Structural)]
pub enum Segment {
    /// The ray escaped the scene and sees the background.
    Miss,
    /// The ray hit a surface whose material absorbed it.
    Absorbed,
    /// The ray hit a surface whose material scattered it on.
    Scattered,
}

/// What the shading loop does next.
#[derive(Clone, Copy, Debug, PartialEq, Eq, Structural)]
pub enum Step {
    /// The path ends and carries no light.
    Black,
    /// The path ends on the background, scaled by the attenuation gathered so far.
    Background,
    /// Trace one more segment; the payload is the bounce budget it is traced with.
    Trace(usize),
}

/// The step that opens a path given a budget of `max_bounces` segments.
pub open spec fn spec_first_step(max_bounces: nat) -> Step {
    if max_bounces == 0 {
        Step::Black
    } else {
        Step::Trace(max_bounces as usize)
    }
}

/// The step that follows a segment traced with budget `remaining`.
pub open spec fn spec_next_step(remaining: nat, seg: Segment) -> Step {
    if remaining == 0 {
        Step::Black
    } else {
        match seg {
            Segment::Miss => Step::Background,
            Segment::Absorbed => Step::Black,
            Segment::Scattered => spec_first_step((remaining - 1) as nat),
        }
    }
}

/// Where a path opened with `step` ends up when its segments find `segs`, in
/// order; a path that has ended ignores the rest.
pub open spec fn run(step: Step, segs: Seq<Segment>) -> Step
    decreases segs.len(),
{
    if segs.len() == 0 {
        step
    } else {
        match step {
            Step::Trace(n) => run(spec_next_step(n as nat, segs[0]), segs.drop_first()),
            _ => step,
        }
    }
}

/// Opens a path: with no budget it is black at once, without tracing.
pub fn first_step(max_bounces: usize) -> (s: Step)
    ensures
        s == spec_first_step(max_bounces as nat),
        max_bounces == 0 ==> s == Step::Black,
{
    if max_bounces == 0 {
        Step::Black
    } else {
        Step::Trace(max_bounces)
    }
}

/// Decides what follows a segment traced with budget `remaining`: the
/// background on a miss, black on absorption, and on a scatter one more
/// segment with one bounce less, or black once the budget is spent.
pub fn next_step(remaining: usize, seg: Segment) -> (s: Step)
    ensures
        s == spec_next_step(remaining as nat, seg),
        remaining <= 1 && seg == Segment::Scattered ==> s == Step::Black,
{
    if remaining == 0 {
        return Step::Black;
    }
    match seg {
        Segment::Miss => Step::Background,
        Segment::Absorbed => Step::Black,
        Segment::Scattered => first_step(remaining - 1),
    }
}

/// A path that keeps scattering ends black once its budget is spent, never on
/// the background: whatever the later segments would find, a path whose first
/// `max_bounces` segments all scatter carries no light.
pub proof fn lemma_spent_budget_is_black(max_bounces: nat, segs: Seq<Segment>)
    requires
        max_bounces <= segs.len(),
        max_bounces <= usize::MAX,
        forall|i: int| 0 <= i < max_bounces ==> segs[i] == Segment::Scattered,
    ensures
        run(spec_first_step(max_bounces), segs) == Step::Black,
    decreases max_bounces,
{
    if max_bounces == 0 {
        lemma_ended_stays(Step::Black, segs);
    } else {
        let rest = segs.drop_first();
        assert forall|i: int| 0 <= i < max_bounces - 1 implies rest[i] == Segment::Scattered by {
            assert(rest[i] == segs[i + 1]);
        }
        lemma_spent_budget_is_black((max_bounces - 1) as nat, rest);
    }
}

/// Every path ends within its budget: after `max_bounces` traced segments,
/// whatever they found, the path is black or on the background.
pub proof fn lemma_path_ends_within_budget(max_bounces: nat, segs: Seq<Segment>)
    requires
        max_bounces <= segs.len(),
        max_bounces <= usize::MAX,
    ensures
        !(run(spec_first_step(max_bounces), segs) is Trace),
    decreases max_bounces,
{
    if max_bounces == 0 {
        lemma_ended_stays(Step::Black, segs);
    } else {
        let next = spec_next_step(max_bounces, segs[0]);
        let rest = segs.drop_first();
        if segs[0] == Segment::Scattered {
            lemma_path_ends_within_budget((max_bounces - 1) as nat, rest);
        } else {
            lemma_ended_stays(next, rest);
        }
    }
}

proof fn lemma_ended_stays(step: Step, segs: Seq<Segment>)
    requires
        !(step is Trace),
    ensures
        run(step, segs) == step,
{
}

/// The number of samples a pixel averages: the requested count, and at least
/// one, so that the average is always defined.
pub fn sample_count(requested: usize) -> (n: usize)
    ensures
        n >= 1,
        requested >= 1 ==> n == requested,
        requested == 0 ==> n == 1,
{
    if requested == 0 {
        1
    } else {
        requested
    }
}

} // verus!
