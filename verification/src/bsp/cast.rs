//! The sweep of a moving box through a partition, as a walk that the caller
//! drives.
//!
//! How a stretch of the motion lies to a plane is a question of real-valued
//! geometry, and the caller answers it.  Which subtree is entered next, which
//! contacts are reported and in what order, and when the sweep is over are
//! decided here.  `S` is whatever the caller needs to know a stretch of the
//! motion by; the walk stores it and hands it back, and never looks inside.
use vstd::prelude::*;
use crate::bsp::{NodeIndex, Tree, refers, leaf_slot};

verus! {

/// How a stretch of the motion lies to the plane of an inner node.
#[derive(Debug, Clone, Copy)]
pub enum Crossing<S> {
    /// The stretch is empty: it ends before it begins.
    Empty,
    /// The box stays clear of the plane on the positive side.
    Front,
    /// The box stays clear of the plane on the negative side.
    Back,
    /// The motion runs along the plane.
    Parallel,
    /// The box meets the plane.  `near` is the part of the stretch up to the
    /// plane and `far` the part beyond it; `rising` says that the motion goes
    /// from the negative side to the positive.
    Straddle { rising: bool, near: S, far: S },
}

/// A contact with the plane of inner node `node`: the two parts that the
/// plane split the stretch into, and whether it is the part beyond the plane
/// that ended in solid matter.
#[derive(Debug, Clone, Copy)]
pub struct Contact<S> {
    pub node: usize,
    pub near: S,
    pub far: S,
    pub beyond: bool,
}

/// A straddled node whose two parts are not both done.
#[derive(Debug, Clone, Copy)]
pub struct Frame<S> {
    pub node: usize,
    pub near: S,
    pub far: S,
    pub far_child: NodeIndex,
    /// The near part is done and the far part is under way.
    pub in_far: bool,
    /// Whether the near part hit; meaningful once `in_far` is set.
    pub hit: bool,
}

/// Where the walk stands.
#[derive(Debug, Clone, Copy)]
pub enum Cursor<S> {
    /// About to enter a subtree with a stretch of the motion.
    Enter { node: NodeIndex, seg: S },
    /// Waiting to hear how the stretch lies to the plane of inner node `node`.
    Await { node: NodeIndex, seg: S },
    /// A subtree is done; `hit` says whether the stretch ended in solid matter.
    Leave { hit: bool },
}

/// What the caller is to do before the next step.
#[derive(Debug, Clone, Copy)]
pub enum Action<S> {
    /// Nothing: take the next step.
    Proceed,
    /// Say how `seg` lies to the plane of `node`, and hand that to the next step.
    Classify { node: usize, seg: S },
    /// Tell the visitor of a contact.
    Visit { contact: Contact<S> },
    /// The sweep is over.
    Done { hit: bool },
}

/// The walk as a mathematical value.
pub struct WalkState<S> {
    pub stack: Seq<Frame<S>>,
    pub cursor: Cursor<S>,
}

/// What a sweep comes to: whether it ended in solid matter, the contacts in
/// the order in which they are reported, and the number of steps it takes.
pub struct Outcome<S> {
    pub hit: bool,
    pub contacts: Seq<Contact<S>>,
    pub steps: nat,
}

/// The contact that a part reports if it hit, else nothing.
pub open spec fn report<S>(hit: bool, node: usize, near: S, far: S, beyond: bool) -> Seq<
    Contact<S>,
> {
    if hit {
        seq![Contact { node, near, far, beyond }]
    } else {
        Seq::empty()
    }
}

/// The measure by which a sweep descends: leaves lie below every inner node.
pub open spec fn height(tree: &Tree, node: NodeIndex) -> nat {
    if node < 0 {
        0
    } else {
        tree.rank()[node as int] + 1
    }
}

/// The sweep of the stretch `seg` through the subtree `node`, where `oracle`
/// says how a stretch lies to a node's plane.
///
/// A leaf is hit if it is solid.  Clear of a plane, the sweep goes on in the
/// subtree on that side.  An empty stretch and one along the plane hit
/// nothing.  Where the box meets the plane, the near part is swept through
/// the subtree it starts in and then the far part through the other; each
/// part that hits reports the plane, after the contacts from below it.
pub open spec fn sweep<S>(
    tree: &Tree,
    oracle: spec_fn(usize, S) -> Crossing<S>,
    node: NodeIndex,
    seg: S,
) -> Outcome<S>
    decreases height(tree, node),
    when tree.wf() && refers(node, tree.inodes.len() as int, tree.leaves.len() as int)
{
    if node < 0 {
        Outcome { hit: tree.leaves[leaf_slot(node)].solid, contacts: Seq::empty(), steps: 1 }
    } else {
        let inner = tree.inodes[node as int];
        match oracle(node as usize, seg) {
            Crossing::Empty => Outcome { hit: false, contacts: Seq::empty(), steps: 2 },
            Crossing::Parallel => Outcome { hit: false, contacts: Seq::empty(), steps: 2 },
            Crossing::Front => {
                let below = sweep(tree, oracle, inner.side(true), seg);
                Outcome { steps: below.steps + 2, ..below }
            },
            Crossing::Back => {
                let below = sweep(tree, oracle, inner.side(false), seg);
                Outcome { steps: below.steps + 2, ..below }
            },
            Crossing::Straddle { rising, near, far } => {
                let first = sweep(tree, oracle, inner.side(!rising), near);
                let second = sweep(tree, oracle, inner.side(rising), far);
                Outcome {
                    hit: first.hit || second.hit,
                    contacts: first.contacts + report(first.hit, node as usize, near, far, false)
                        + second.contacts + report(second.hit, node as usize, near, far, true),
                    steps: first.steps + second.steps + 4,
                }
            },
        }
    }
}

/// What is still to come once a subtree is left with `hit`, the straddled
/// nodes on `stack` being open: the far part of each node whose near part
/// was under way, and the contacts of the parts that hit, innermost first.
pub open spec fn unwind<S>(
    tree: &Tree,
    oracle: spec_fn(usize, S) -> Crossing<S>,
    stack: Seq<Frame<S>>,
    hit: bool,
) -> Outcome<S>
    decreases stack.len(),
{
    if stack.len() == 0 {
        Outcome { hit, contacts: Seq::empty(), steps: 0 }
    } else {
        let top = stack.last();
        if top.in_far {
            let up = unwind(tree, oracle, stack.drop_last(), top.hit || hit);
            Outcome {
                hit: up.hit,
                contacts: report(hit, top.node, top.near, top.far, true) + up.contacts,
                steps: up.steps + 1,
            }
        } else {
            let second = sweep(tree, oracle, top.far_child, top.far);
            let up = unwind(tree, oracle, stack.drop_last(), hit || second.hit);
            Outcome {
                hit: up.hit,
                contacts: report(hit, top.node, top.near, top.far, false) + second.contacts
                    + report(second.hit, top.node, top.near, top.far, true) + up.contacts,
                steps: second.steps + up.steps + 2,
            }
        }
    }
}

/// What a walk in state `w` still comes to: the verdict it will end with, the
/// contacts it has yet to report, and the steps it has yet to take.
pub open spec fn rest<S>(
    tree: &Tree,
    oracle: spec_fn(usize, S) -> Crossing<S>,
    w: WalkState<S>,
) -> Outcome<S> {
    match w.cursor {
        Cursor::Enter { node, seg } => {
            let here = sweep(tree, oracle, node, seg);
            let up = unwind(tree, oracle, w.stack, here.hit);
            Outcome {
                hit: up.hit,
                contacts: here.contacts + up.contacts,
                steps: here.steps + up.steps,
            }
        },
        Cursor::Await { node, seg } => {
            let here = sweep(tree, oracle, node, seg);
            let up = unwind(tree, oracle, w.stack, here.hit);
            Outcome {
                hit: up.hit,
                contacts: here.contacts + up.contacts,
                steps: (here.steps - 1 + up.steps) as nat,
            }
        },
        Cursor::Leave { hit } => unwind(tree, oracle, w.stack, hit),
    }
}

/// Every node that the walk holds exists in the tree.
pub open spec fn walk_inv<S>(tree: &Tree, w: WalkState<S>) -> bool {
    &&& match w.cursor {
        Cursor::Enter { node, seg } => refers(
            node,
            tree.inodes.len() as int,
            tree.leaves.len() as int,
        ),
        Cursor::Await { node, seg } => 0 <= node < tree.inodes.len(),
        Cursor::Leave { hit } => true,
    }
    &&& forall|i: int|
        0 <= i < w.stack.len() ==> (#[trigger] w.stack[i]).node < tree.inodes.len() && refers(
            w.stack[i].far_child,
            tree.inodes.len() as int,
            tree.leaves.len() as int,
        )
}

/// The state after a step that enters the subtree on one side of a plane.
pub open spec fn descend<S>(tree: &Tree, w: WalkState<S>, node: NodeIndex, positive: bool, seg: S)
    -> WalkState<S> {
    WalkState {
        stack: w.stack,
        cursor: Cursor::Enter { node: tree.inodes[node as int].side(positive), seg },
    }
}

/// One step of the walk: the state it leads to and what the caller is to do.
///
/// `answer` is how the awaited stretch lies to the awaited plane.  It counts
/// only while the walk waits for it; without it the walk asks again.
pub open spec fn step<S>(tree: &Tree, w: WalkState<S>, answer: Option<Crossing<S>>) -> (
    WalkState<S>,
    Action<S>,
) {
    match w.cursor {
        Cursor::Enter { node, seg } => {
            if node < 0 {
                (
                    WalkState {
                        stack: w.stack,
                        cursor: Cursor::Leave { hit: tree.leaves[leaf_slot(node)].solid },
                    },
                    Action::Proceed,
                )
            } else {
                (
                    WalkState { stack: w.stack, cursor: Cursor::Await { node, seg } },
                    Action::Classify { node: node as usize, seg },
                )
            }
        },
        Cursor::Await { node, seg } => match answer {
            None => (w, Action::Classify { node: node as usize, seg }),
            Some(Crossing::Empty) | Some(Crossing::Parallel) => (
                WalkState { stack: w.stack, cursor: Cursor::Leave { hit: false } },
                Action::Proceed,
            ),
            Some(Crossing::Front) => (descend(tree, w, node, true, seg), Action::Proceed),
            Some(Crossing::Back) => (descend(tree, w, node, false, seg), Action::Proceed),
            Some(Crossing::Straddle { rising, near, far }) => (
                WalkState {
                    stack: w.stack.push(
                        Frame {
                            node: node as usize,
                            near,
                            far,
                            far_child: tree.inodes[node as int].side(rising),
                            in_far: false,
                            hit: false,
                        },
                    ),
                    cursor: Cursor::Enter {
                        node: tree.inodes[node as int].side(!rising),
                        seg: near,
                    },
                },
                Action::Proceed,
            ),
        },
        Cursor::Leave { hit } => {
            if w.stack.len() == 0 {
                (w, Action::Done { hit })
            } else {
                let top = w.stack.last();
                if top.in_far {
                    (
                        WalkState {
                            stack: w.stack.drop_last(),
                            cursor: Cursor::Leave { hit: top.hit || hit },
                        },
                        notice(hit, top.node, top.near, top.far, true),
                    )
                } else {
                    (
                        WalkState {
                            stack: w.stack.drop_last().push(Frame { in_far: true, hit, ..top }),
                            cursor: Cursor::Enter { node: top.far_child, seg: top.far },
                        },
                        notice(hit, top.node, top.near, top.far, false),
                    )
                }
            }
        },
    }
}

/// The action that goes with leaving a part: a visit if it hit.
pub open spec fn notice<S>(hit: bool, node: usize, near: S, far: S, beyond: bool) -> Action<S> {
    if hit {
        Action::Visit { contact: Contact { node, near, far, beyond } }
    } else {
        Action::Proceed
    }
}

/// The contacts that an action reports.
pub open spec fn reported<S>(action: Action<S>) -> Seq<Contact<S>> {
    match action {
        Action::Visit { contact } => seq![contact],
        _ => Seq::empty(),
    }
}

/// A walk at its start comes to the sweep of the whole motion from the root.
pub proof fn lemma_begin<S>(
    tree: &Tree,
    oracle: spec_fn(usize, S) -> Crossing<S>,
    node: NodeIndex,
    seg: S,
)
    ensures
        rest(tree, oracle, WalkState { stack: Seq::empty(), cursor: Cursor::Enter { node, seg } })
            =~~= sweep(tree, oracle, node, seg),
{
    let here = sweep(tree, oracle, node, seg);
    assert(here.contacts + Seq::<Contact<S>>::empty() =~= here.contacts);
}

/// A step from `w` to `next` with `action` changes nothing in what the walk
/// comes to: a step that is not the last takes one from the steps to come,
/// reports the next of the contacts to come if it reports any, and leaves
/// the verdict as it was; the last step is taken when no step and no contact
/// is to come, stays where it is, and gives the verdict.
pub open spec fn keeps_outcome<S>(
    tree: &Tree,
    oracle: spec_fn(usize, S) -> Crossing<S>,
    w: WalkState<S>,
    next: WalkState<S>,
    action: Action<S>,
) -> bool {
    let before = rest(tree, oracle, w);
    let after = rest(tree, oracle, next);
    match action {
        Action::Done { hit } => {
            &&& next == w
            &&& before.steps == 0
            &&& before.contacts =~= Seq::empty()
            &&& before.hit == hit
        },
        _ => {
            &&& before.steps == after.steps + 1
            &&& before.contacts =~= reported(action) + after.contacts
            &&& before.hit == after.hit
        },
    }
}

/// A step keeps to nodes that the tree has.
proof fn lemma_step_inv<S>(tree: &Tree, w: WalkState<S>, answer: Option<Crossing<S>>)
    requires
        tree.wf(),
        walk_inv(tree, w),
    ensures
        walk_inv(tree, step(tree, w, answer).0),
{
    let next = step(tree, w, answer).0;
    match w.cursor {
        Cursor::Enter { node, seg } => {},
        Cursor::Await { node, seg } => {
            let inner = tree.inodes[node as int];
            assert(refers(inner.pos, tree.inodes.len() as int, tree.leaves.len() as int));
            assert(refers(inner.neg, tree.inodes.len() as int, tree.leaves.len() as int));
        },
        Cursor::Leave { hit } => {
            if w.stack.len() > 0 {
                let top = w.stack.last();
                assert(top == w.stack[w.stack.len() - 1]);
            }
        },
    }
}

/// A sweep takes at least one step, and at least two through an inner node.
proof fn lemma_sweep_steps<S>(
    tree: &Tree,
    oracle: spec_fn(usize, S) -> Crossing<S>,
    node: NodeIndex,
    seg: S,
)
    requires
        tree.wf(),
        refers(node, tree.inodes.len() as int, tree.leaves.len() as int),
    ensures
        sweep(tree, oracle, node, seg).steps >= 1,
        node >= 0 ==> sweep(tree, oracle, node, seg).steps >= 2,
{
}

/// `lemma_step` for a walk about to enter a subtree.
proof fn lemma_step_enter<S>(
    tree: &Tree,
    oracle: spec_fn(usize, S) -> Crossing<S>,
    w: WalkState<S>,
    answer: Option<Crossing<S>>,
)
    requires
        tree.wf(),
        walk_inv(tree, w),
        w.cursor is Enter,
    ensures
        keeps_outcome(tree, oracle, w, step(tree, w, answer).0, step(tree, w, answer).1),
{
    let next = step(tree, w, answer).0;
    match w.cursor {
        Cursor::Enter { node, seg } => {
            let here = sweep(tree, oracle, node, seg);
            let up = unwind(tree, oracle, w.stack, here.hit);
            lemma_sweep_steps(tree, oracle, node, seg);
            if node < 0 {
                assert(rest(tree, oracle, next) == up);
                assert(here.contacts =~= Seq::empty());
            } else {
                assert(next.cursor == Cursor::Await { node, seg });
            }
        },
        _ => {},
    }
}

/// `lemma_step` for a walk that has its answer.
proof fn lemma_step_await<S>(
    tree: &Tree,
    oracle: spec_fn(usize, S) -> Crossing<S>,
    w: WalkState<S>,
    answer: Option<Crossing<S>>,
)
    requires
        tree.wf(),
        walk_inv(tree, w),
        match w.cursor {
            Cursor::Await { node, seg } => answer == Some(oracle(node as usize, seg)),
            _ => false,
        },
    ensures
        keeps_outcome(tree, oracle, w, step(tree, w, answer).0, step(tree, w, answer).1),
{
    tree.lemma_rank();
    let next = step(tree, w, answer).0;
    match w.cursor {
        Cursor::Await { node, seg } => {
            let inner = tree.inodes[node as int];
            assert(refers(inner.pos, tree.inodes.len() as int, tree.leaves.len() as int));
            assert(refers(inner.neg, tree.inodes.len() as int, tree.leaves.len() as int));
            let here = sweep(tree, oracle, node, seg);
            let up = unwind(tree, oracle, w.stack, here.hit);
            match oracle(node as usize, seg) {
                Crossing::Empty => {
                    assert(rest(tree, oracle, next) == up);
                },
                Crossing::Parallel => {
                    assert(rest(tree, oracle, next) == up);
                },
                Crossing::Front => {
                    let below = sweep(tree, oracle, inner.side(true), seg);
                    assert(here == Outcome { steps: below.steps + 2, ..below });
                },
                Crossing::Back => {
                    let below = sweep(tree, oracle, inner.side(false), seg);
                    assert(here == Outcome { steps: below.steps + 2, ..below });
                },
                Crossing::Straddle { rising, near, far } => {
                    let first = sweep(tree, oracle, inner.side(!rising), near);
                    let second = sweep(tree, oracle, inner.side(rising), far);
                    assert(here.hit == (first.hit || second.hit));
                    assert(here.steps == first.steps + second.steps + 4);
                    assert(here.contacts == first.contacts + report(
                        first.hit,
                        node as usize,
                        near,
                        far,
                        false,
                    ) + second.contacts + report(second.hit, node as usize, near, far, true));
                    assert(next.stack.drop_last() =~= w.stack);
                    let top = next.stack.last();
                    assert(!top.in_far && top.far_child == inner.side(rising) && top.far == far
                        && top.near == near && top.node == node as usize);
                    let outer = unwind(tree, oracle, w.stack, first.hit || second.hit);
                    let mid = unwind(tree, oracle, next.stack, first.hit);
                    assert(mid.hit == outer.hit);
                    assert(mid.steps == second.steps + outer.steps + 2);
                    assert(mid.contacts == report(first.hit, node as usize, near, far, false)
                        + second.contacts + report(second.hit, node as usize, near, far, true)
                        + outer.contacts);
                    assert(up == outer);
                },
            }
        },
        _ => {},
    }
}

/// `lemma_step` for a walk that leaves a subtree.
proof fn lemma_step_leave<S>(
    tree: &Tree,
    oracle: spec_fn(usize, S) -> Crossing<S>,
    w: WalkState<S>,
    answer: Option<Crossing<S>>,
)
    requires
        tree.wf(),
        walk_inv(tree, w),
        w.cursor is Leave,
    ensures
        keeps_outcome(tree, oracle, w, step(tree, w, answer).0, step(tree, w, answer).1),
{
    let next = step(tree, w, answer).0;
    match w.cursor {
        Cursor::Leave { hit } => {
            if w.stack.len() > 0 {
                let top = w.stack.last();
                assert(top == w.stack[w.stack.len() - 1]);
                if top.in_far {
                    let up = unwind(tree, oracle, w.stack.drop_last(), top.hit || hit);
                    assert(rest(tree, oracle, next) == up);
                } else {
                    lemma_sweep_steps(tree, oracle, top.far_child, top.far);
                    let second = sweep(tree, oracle, top.far_child, top.far);
                    let outer = unwind(tree, oracle, w.stack.drop_last(), hit || second.hit);
                    assert(next.stack.drop_last() =~= w.stack.drop_last());
                    let mid = unwind(tree, oracle, next.stack, second.hit);
                    assert(next.stack.last().in_far && next.stack.last().hit == hit);
                    assert(mid.hit == outer.hit);
                    assert(mid.steps == outer.steps + 1);
                    assert(mid.contacts == report(second.hit, top.node, top.near, top.far, true)
                        + outer.contacts);
                }
            }
        },
        _ => {},
    }
}

/// A step changes nothing in what the walk comes to, where the answers are
/// those of `oracle`.  So a walk from the start ends after the steps of the
/// sweep, having reported its contacts in order, with its verdict.
pub proof fn lemma_step<S>(
    tree: &Tree,
    oracle: spec_fn(usize, S) -> Crossing<S>,
    w: WalkState<S>,
    answer: Option<Crossing<S>>,
)
    requires
        tree.wf(),
        walk_inv(tree, w),
        match w.cursor {
            Cursor::Await { node, seg } => answer == Some(oracle(node as usize, seg)),
            _ => true,
        },
    ensures
        walk_inv(tree, step(tree, w, answer).0),
        keeps_outcome(tree, oracle, w, step(tree, w, answer).0, step(tree, w, answer).1),
{
    lemma_step_inv(tree, w, answer);
    match w.cursor {
        Cursor::Enter { node, seg } => lemma_step_enter(tree, oracle, w, answer),
        Cursor::Await { node, seg } => lemma_step_await(tree, oracle, w, answer),
        Cursor::Leave { hit } => lemma_step_leave(tree, oracle, w, answer),
    }
}

/// The answer that `oracle` gives where the walk waits for one.
pub open spec fn reply<S>(oracle: spec_fn(usize, S) -> Crossing<S>, w: WalkState<S>) -> Option<
    Crossing<S>,
> {
    match w.cursor {
        Cursor::Await { node, seg } => Some(oracle(node as usize, seg)),
        _ => None,
    }
}

/// What a caller sees who drives the walk from `w` with the answers of
/// `oracle` for at most `fuel` steps: the verdict of the last step, the
/// contacts reported on the way, and the steps taken before the last.
pub open spec fn drive<S>(
    tree: &Tree,
    oracle: spec_fn(usize, S) -> Crossing<S>,
    w: WalkState<S>,
    fuel: nat,
) -> Outcome<S>
    decreases fuel,
{
    let (next, action) = step(tree, w, reply(oracle, w));
    match action {
        Action::Done { hit } => Outcome { hit, contacts: Seq::empty(), steps: 0 },
        _ => if fuel == 0 {
            Outcome { hit: false, contacts: Seq::empty(), steps: 0 }
        } else {
            let then = drive(tree, oracle, next, (fuel - 1) as nat);
            Outcome {
                hit: then.hit,
                contacts: reported(action) + then.contacts,
                steps: then.steps + 1,
            }
        },
    }
}

/// Driven with the answers of `oracle`, the walk ends within the steps that
/// are to come, and the caller has then seen exactly what was to come.
pub proof fn lemma_drive<S>(
    tree: &Tree,
    oracle: spec_fn(usize, S) -> Crossing<S>,
    w: WalkState<S>,
    fuel: nat,
)
    requires
        tree.wf(),
        walk_inv(tree, w),
        fuel >= rest(tree, oracle, w).steps,
    ensures
        drive(tree, oracle, w, fuel) =~~= rest(tree, oracle, w),
    decreases fuel,
{
    let answer = reply(oracle, w);
    lemma_step(tree, oracle, w, answer);
    let (next, action) = step(tree, w, answer);
    match action {
        Action::Done { hit } => {},
        _ => {
            lemma_drive(tree, oracle, next, (fuel - 1) as nat);
        },
    }
}

/// A walk begun at `node` with `seg` and driven with the answers of `oracle`
/// is the sweep of `seg` through the subtree `node`: the same verdict, the
/// same contacts in the same order, in the steps that the sweep counts.
pub proof fn lemma_walk_is_sweep<S>(
    tree: &Tree,
    oracle: spec_fn(usize, S) -> Crossing<S>,
    node: NodeIndex,
    seg: S,
)
    requires
        tree.wf(),
        refers(node, tree.inodes.len() as int, tree.leaves.len() as int),
    ensures
        drive(
            tree,
            oracle,
            WalkState { stack: Seq::empty(), cursor: Cursor::Enter { node, seg } },
            sweep(tree, oracle, node, seg).steps,
        ) =~~= sweep(tree, oracle, node, seg),
{
    let start = WalkState { stack: Seq::<Frame<S>>::empty(), cursor: Cursor::Enter { node, seg } };
    lemma_begin(tree, oracle, node, seg);
    lemma_drive(tree, oracle, start, sweep(tree, oracle, node, seg).steps);
}

/// A sweep that reports a contact has hit, and every contact names an inner
/// node that the tree has.
pub proof fn lemma_contacts_imply_hit<S>(
    tree: &Tree,
    oracle: spec_fn(usize, S) -> Crossing<S>,
    node: NodeIndex,
    seg: S,
)
    requires
        tree.wf(),
        refers(node, tree.inodes.len() as int, tree.leaves.len() as int),
    ensures
        sweep(tree, oracle, node, seg).contacts.len() > 0 ==> sweep(tree, oracle, node, seg).hit,
        forall|i: int|
            0 <= i < sweep(tree, oracle, node, seg).contacts.len() ==> (#[trigger] sweep(
                tree,
                oracle,
                node,
                seg,
            ).contacts[i]).node < tree.inodes.len(),
    decreases height(tree, node),
{
    tree.lemma_rank();
    if node >= 0 {
        let inner = tree.inodes[node as int];
        assert(refers(inner.pos, tree.inodes.len() as int, tree.leaves.len() as int));
        assert(refers(inner.neg, tree.inodes.len() as int, tree.leaves.len() as int));
        match oracle(node as usize, seg) {
            Crossing::Front => {
                lemma_contacts_imply_hit(tree, oracle, inner.side(true), seg);
            },
            Crossing::Back => {
                lemma_contacts_imply_hit(tree, oracle, inner.side(false), seg);
            },
            Crossing::Straddle { rising, near, far } => {
                lemma_contacts_imply_hit(tree, oracle, inner.side(!rising), near);
                lemma_contacts_imply_hit(tree, oracle, inner.side(rising), far);
            },
            _ => {},
        }
    }
}

/// A sweep that stays clear of every plane, on the side on which a point
/// lies, ends in solid matter exactly if the point is inside solid matter,
/// and reports no contact.
pub proof fn lemma_clear_sweep_is_containment<S>(
    tree: &Tree,
    oracle: spec_fn(usize, S) -> Crossing<S>,
    positive: Seq<bool>,
    node: NodeIndex,
    seg: S,
)
    requires
        tree.wf(),
        0 <= node < tree.inodes.len(),
        positive.len() == tree.inodes.len(),
        forall|n: usize|
            n < tree.inodes.len() ==> #[trigger] oracle(n, seg) == if positive[n as int] {
                Crossing::<S>::Front
            } else {
                Crossing::<S>::Back
            },
    ensures
        sweep(tree, oracle, node, seg).hit == tree.leaves[tree.leaf_reached(
            positive,
            node as int,
        )].solid,
        sweep(tree, oracle, node, seg).contacts =~= Seq::empty(),
    decreases height(tree, node),
{
    tree.lemma_rank();
    let inner = tree.inodes[node as int];
    assert(refers(inner.pos, tree.inodes.len() as int, tree.leaves.len() as int));
    assert(refers(inner.neg, tree.inodes.len() as int, tree.leaves.len() as int));
    let next = inner.side(positive[node as int]);
    assert(oracle(node as usize, seg) == if positive[node as int] {
        Crossing::<S>::Front
    } else {
        Crossing::<S>::Back
    });
    let below = sweep(tree, oracle, next, seg);
    if positive[node as int] {
        assert(next == inner.side(true));
        assert(sweep(tree, oracle, node, seg) == Outcome { steps: below.steps + 2, ..below });
    } else {
        assert(next == inner.side(false));
        assert(sweep(tree, oracle, node, seg) == Outcome { steps: below.steps + 2, ..below });
    }
    if next >= 0 {
        lemma_clear_sweep_is_containment(tree, oracle, positive, next, seg);
        assert(tree.leaf_reached(positive, node as int) == tree.leaf_reached(
            positive,
            next as int,
        ));
    } else {
        assert(tree.leaf_reached(positive, node as int) == leaf_slot(next));
    }
}

/// An action that names an inner node names one that the tree has.
pub open spec fn names_node<S>(tree: &Tree, action: Action<S>) -> bool {
    match action {
        Action::Classify { node, seg } => node < tree.inodes.len(),
        Action::Visit { contact } => contact.node < tree.inodes.len(),
        _ => true,
    }
}

/// The most steps that a sweep through the subtree `node` can take,
/// whatever the answers.
pub open spec fn cost(tree: &Tree, node: NodeIndex) -> nat
    decreases height(tree, node),
    when tree.wf() && refers(node, tree.inodes.len() as int, tree.leaves.len() as int)
{
    if node < 0 {
        1
    } else {
        cost(tree, tree.inodes[node as int].side(true)) + cost(
            tree,
            tree.inodes[node as int].side(false),
        ) + 4
    }
}

/// The most steps that the open nodes on `stack` can still ask for.
pub open spec fn stack_bound<S>(tree: &Tree, stack: Seq<Frame<S>>) -> nat
    decreases stack.len(),
{
    if stack.len() == 0 {
        0
    } else {
        stack_bound(tree, stack.drop_last()) + if stack.last().in_far {
            1
        } else {
            cost(tree, stack.last().far_child) + 2
        }
    }
}

/// The most steps that a walk in state `w` can still take before its last,
/// whatever the answers.
pub open spec fn bound<S>(tree: &Tree, w: WalkState<S>) -> nat {
    stack_bound(tree, w.stack) + match w.cursor {
        Cursor::Enter { node, seg } => cost(tree, node),
        Cursor::Await { node, seg } => (cost(tree, node) - 1) as nat,
        Cursor::Leave { hit } => 0,
    }
}

/// Every step but the last, and but a question asked again for want of an
/// answer, takes at least one from the steps that the walk can still take:
/// whatever the answers, the walk ends.
pub proof fn lemma_step_bound<S>(tree: &Tree, w: WalkState<S>, answer: Option<Crossing<S>>)
    requires
        tree.wf(),
        walk_inv(tree, w),
        w.cursor is Await ==> answer is Some,
    ensures
        step(tree, w, answer).1 is Done || bound(tree, step(tree, w, answer).0) < bound(tree, w),
{
    tree.lemma_rank();
    let next = step(tree, w, answer).0;
    match w.cursor {
        Cursor::Enter { node, seg } => {},
        Cursor::Await { node, seg } => {
            let inner = tree.inodes[node as int];
            assert(refers(inner.pos, tree.inodes.len() as int, tree.leaves.len() as int));
            assert(refers(inner.neg, tree.inodes.len() as int, tree.leaves.len() as int));
            assert(cost(tree, node) == cost(tree, inner.side(true)) + cost(tree, inner.side(false))
                + 4);
            match answer {
                Some(Crossing::Straddle { rising, near, far }) => {
                    assert(next.stack.drop_last() =~= w.stack);
                    assert(stack_bound(tree, next.stack) == stack_bound(tree, w.stack) + cost(
                        tree,
                        inner.side(rising),
                    ) + 2);
                },
                _ => {},
            }
        },
        Cursor::Leave { hit } => {
            if w.stack.len() > 0 {
                let top = w.stack.last();
                if !top.in_far {
                    assert(next.stack.drop_last() =~= w.stack.drop_last());
                    assert(stack_bound(tree, next.stack) == stack_bound(tree, w.stack.drop_last())
                        + 1);
                }
            }
        },
    }
}

/// `oracle` says what `classify` answers: whatever `classify` may return on
/// a node and a stretch is what `oracle` gives there.
pub open spec fn answers<S, F: Fn(usize, S) -> Crossing<S>>(
    classify: F,
    oracle: spec_fn(usize, S) -> Crossing<S>,
) -> bool {
    forall|node: usize, seg: S, c: Crossing<S>|
        call_ensures(classify, (node, seg), c) ==> c == oracle(node, seg)
}

/// What has been seen so far and what is still to come make up the sweep.
pub open spec fn on_course<S>(
    seen: Seq<Contact<S>>,
    to_come: Outcome<S>,
    whole: Outcome<S>,
) -> bool {
    to_come.hit == whole.hit && seen + to_come.contacts =~= whole.contacts
}

impl Tree {
    /// Sweeps the stretch `seg` through the tree from the root and returns
    /// whether it ended in solid matter, with every contact in the order in
    /// which a visitor is to be told of it.  `classify` says how a stretch
    /// lies to the plane of an inner node.
    ///
    /// Whatever `classify` answers, the sweep ends.  Where its answers are
    /// a function of the node and the stretch, the result is the sweep under
    /// that function.
    pub fn cast_ray_visitor<S: Copy, F: Fn(usize, S) -> Crossing<S>>(&self, seg: S, classify: F)
        -> (r: (bool, Vec<Contact<S>>))
        requires
            self.wf(),
            forall|node: usize, part: S|
                node < self.inodes.len() ==> call_requires(classify, (node, part)),
        ensures
            forall|i: int| 0 <= i < r.1.len() ==> (#[trigger] r.1[i]).node < self.inodes.len(),
            forall|oracle: spec_fn(usize, S) -> Crossing<S>| #[trigger]
                answers(classify, oracle) ==> r.0 == sweep(self, oracle, self.root, seg).hit
                    && r.1@ =~= sweep(self, oracle, self.root, seg).contacts,
    {
        let mut walk = CastWalk::begin(self.root, seg);
        let mut seen: Vec<Contact<S>> = Vec::new();
        proof {
            assert forall|oracle: spec_fn(usize, S) -> Crossing<S>| #[trigger]
                answers(classify, oracle) implies on_course(
                seen@,
                rest(self, oracle, walk@),
                sweep(self, oracle, self.root, seg),
            ) by {
                lemma_begin(self, oracle, self.root, seg);
            }
        }
        loop
            invariant
                self.wf(),
                walk_inv(self, walk@),
                forall|node: usize, part: S|
                    node < self.inodes.len() ==> call_requires(classify, (node, part)),
                forall|i: int|
                    0 <= i < seen.len() ==> (#[trigger] seen[i]).node < self.inodes.len(),
                forall|oracle: spec_fn(usize, S) -> Crossing<S>| #[trigger]
                    answers(classify, oracle) ==> on_course(
                        seen@,
                        rest(self, oracle, walk@),
                        sweep(self, oracle, self.root, seg),
                    ),
            decreases bound(self, walk@),
        {
            let ghost before = walk@;
            let ghost seen_before = seen@;
            let answer = match walk.cursor {
                Cursor::Await { node, seg } => Some(classify(node as usize, seg)),
                _ => None,
            };
            let action = walk.advance(self, answer);
            proof {
                lemma_step_bound(self, before, answer);
            }
            match action {
                Action::Visit { contact } => {
                    seen.push(contact);
                },
                Action::Done { hit } => {
                    proof {
                        assert forall|oracle: spec_fn(usize, S) -> Crossing<S>| #[trigger]
                            answers(classify, oracle) implies hit == sweep(
                            self,
                            oracle,
                            self.root,
                            seg,
                        ).hit && seen@ =~= sweep(self, oracle, self.root, seg).contacts by {
                            lemma_step(self, oracle, before, answer);
                        }
                    }
                    return (hit, seen);
                },
                _ => {},
            }
            proof {
                assert forall|oracle: spec_fn(usize, S) -> Crossing<S>| #[trigger]
                    answers(classify, oracle) implies on_course(
                    seen@,
                    rest(self, oracle, walk@),
                    sweep(self, oracle, self.root, seg),
                ) by {
                    lemma_step(self, oracle, before, answer);
                    assert(seen@ =~= seen_before + reported(action));
                }
            }
        }
    }
}

/// Keeps the first contact of a sweep: the one with the least time of impact.
#[derive(Debug)]
pub struct JustFirstPlaneVisitor<S> {
    /// The first plane hit (as in, least time of impact).  Initially none.
    pub best: Option<Contact<S>>,
}

impl<S: Copy> JustFirstPlaneVisitor<S> {
    pub fn new() -> (visitor: JustFirstPlaneVisitor<S>)
        ensures
            visitor.best is None,
    {
        JustFirstPlaneVisitor { best: None }
    }

    /// Takes in a contact.  `no_later` says that its time of impact is not
    /// after that of the best so far; it counts only where there is a best.
    pub fn visit_plane(&mut self, contact: Contact<S>, no_later: bool)
        ensures
            final(self).best == if old(self).best is None || no_later {
                Some(contact)
            } else {
                old(self).best
            },
    {
        if self.best.is_none() || no_later {
            self.best = Some(contact);
        }
    }
}

/// `order` says what `no_later` answers: whatever `no_later` may return on
/// two contacts is what `order` gives there.
pub open spec fn orders<S, L: Fn(Contact<S>, Contact<S>) -> bool>(
    no_later: L,
    order: spec_fn(Contact<S>, Contact<S>) -> bool,
) -> bool {
    forall|a: Contact<S>, b: Contact<S>, r: bool|
        call_ensures(no_later, (a, b), r) ==> r == order(a, b)
}

/// The contact that a first-hit visitor holds after the first `upto` of
/// `contacts`: the first of them, replaced by each later one that `order`
/// puts no later than the one held.
pub open spec fn first_of<S>(
    contacts: Seq<Contact<S>>,
    order: spec_fn(Contact<S>, Contact<S>) -> bool,
    upto: int,
) -> Option<Contact<S>>
    decreases upto,
{
    if upto <= 0 {
        None
    } else {
        match first_of(contacts, order, upto - 1) {
            None => Some(contacts[upto - 1]),
            Some(best) => if order(contacts[upto - 1], best) {
                Some(contacts[upto - 1])
            } else {
                Some(best)
            },
        }
    }
}

impl Tree {
    /// Casts a stretch of motion against the tree and returns the first
    /// contact, if it made any.  `classify` says how a stretch lies to the
    /// plane of an inner node, and `no_later` whether the first of two
    /// contacts comes no later than the second.
    pub fn cast_ray<
        S: Copy,
        F: Fn(usize, S) -> Crossing<S>,
        L: Fn(Contact<S>, Contact<S>) -> bool,
    >(&self, seg: S, classify: F, no_later: L) -> (first: Option<Contact<S>>)
        requires
            self.wf(),
            forall|node: usize, part: S|
                node < self.inodes.len() ==> call_requires(classify, (node, part)),
            forall|a: Contact<S>, b: Contact<S>| call_requires(no_later, (a, b)),
        ensures
            first matches Some(c) ==> c.node < self.inodes.len(),
            forall|
                oracle: spec_fn(usize, S) -> Crossing<S>,
                order: spec_fn(Contact<S>, Contact<S>) -> bool,
            |
                #![trigger answers(classify, oracle), orders(no_later, order)]
                answers(classify, oracle) && orders(no_later, order) ==> first == first_of(
                    sweep(self, oracle, self.root, seg).contacts,
                    order,
                    sweep(self, oracle, self.root, seg).contacts.len() as int,
                ),
    {
        let (_, contacts) = self.cast_ray_visitor(seg, classify);
        let mut visitor = JustFirstPlaneVisitor::new();
        let mut i: usize = 0;
        while i < contacts.len()
            invariant
                i <= contacts.len(),
                forall|a: Contact<S>, b: Contact<S>| call_requires(no_later, (a, b)),
                forall|k: int|
                    0 <= k < contacts.len() ==> (#[trigger] contacts[k]).node < self.inodes.len(),
                visitor.best matches Some(c) ==> c.node < self.inodes.len(),
                forall|order: spec_fn(Contact<S>, Contact<S>) -> bool| #[trigger]
                    orders(no_later, order) ==> visitor.best == first_of(
                        contacts@,
                        order,
                        i as int,
                    ),
            decreases contacts.len() - i,
        {
            let contact = contacts[i];
            let ghost held = visitor.best;
            let earlier = match visitor.best {
                Some(best) => no_later(contact, best),
                None => true,
            };
            visitor.visit_plane(contact, earlier);
            i = i + 1;
            assert forall|order: spec_fn(Contact<S>, Contact<S>) -> bool| #[trigger]
                orders(no_later, order) implies visitor.best == first_of(
                contacts@,
                order,
                i as int,
            ) by {
                assert(held == first_of(contacts@, order, i - 1));
            }
        }
        visitor.best
    }
}

/// A sweep under way.
#[derive(Debug)]
pub struct CastWalk<S> {
    pub stack: Vec<Frame<S>>,
    pub cursor: Cursor<S>,
}

impl<S> View for CastWalk<S> {
    type V = WalkState<S>;

    open spec fn view(&self) -> WalkState<S> {
        WalkState { stack: self.stack@, cursor: self.cursor }
    }
}

impl<S: Copy> CastWalk<S> {
    /// A walk that sweeps the stretch `seg` through the subtree `node`.
    pub fn begin(node: NodeIndex, seg: S) -> (walk: CastWalk<S>)
        ensures
            walk@ == (WalkState { stack: Seq::empty(), cursor: Cursor::Enter { node, seg } }),
    {
        CastWalk { stack: Vec::new(), cursor: Cursor::Enter { node, seg } }
    }

    /// Takes one step.  `answer` is the reply to the `Classify` that the step
    /// before asked for, and nothing otherwise.
    pub fn advance(&mut self, tree: &Tree, answer: Option<Crossing<S>>) -> (action: Action<S>)
        requires
            tree.wf(),
            walk_inv(tree, old(self)@),
        ensures
            (final(self)@, action) == step(tree, old(self)@, answer),
            walk_inv(tree, final(self)@),
            names_node(tree, action),
    {
        match self.cursor {
            Cursor::Enter { node, seg } => {
                if node < 0 {
                    let hit = tree.get_leaf(node).is_solid();
                    self.cursor = Cursor::Leave { hit };
                    Action::Proceed
                } else {
                    self.cursor = Cursor::Await { node, seg };
                    Action::Classify { node: node as usize, seg }
                }
            },
            Cursor::Await { node, seg } => {
                let at = node as usize;
                match answer {
                    None => Action::Classify { node: at, seg },
                    Some(Crossing::Empty) | Some(Crossing::Parallel) => {
                        self.cursor = Cursor::Leave { hit: false };
                        Action::Proceed
                    },
                    Some(Crossing::Front) => {
                        self.cursor = Cursor::Enter { node: tree.child(at, true), seg };
                        Action::Proceed
                    },
                    Some(Crossing::Back) => {
                        self.cursor = Cursor::Enter { node: tree.child(at, false), seg };
                        Action::Proceed
                    },
                    Some(Crossing::Straddle { rising, near, far }) => {
                        let far_child = tree.child(at, rising);
                        let near_child = tree.child(at, !rising);
                        self.stack.push(
                            Frame { node: at, near, far, far_child, in_far: false, hit: false },
                        );
                        self.cursor = Cursor::Enter { node: near_child, seg: near };
                        Action::Proceed
                    },
                }
            },
            Cursor::Leave { hit } => {
                assert(self.stack.len() > 0 ==> self.stack@.last() == self.stack@[self.stack.len()
                    - 1]);
                match self.stack.pop() {
                    None => Action::Done { hit },
                    Some(top) => {
                        if top.in_far {
                            self.cursor = Cursor::Leave { hit: top.hit || hit };
                            if hit {
                                Action::Visit {
                                    contact: Contact {
                                        node: top.node,
                                        near: top.near,
                                        far: top.far,
                                        beyond: true,
                                    },
                                }
                            } else {
                                Action::Proceed
                            }
                        } else {
                            self.stack.push(
                                Frame {
                                    node: top.node,
                                    near: top.near,
                                    far: top.far,
                                    far_child: top.far_child,
                                    in_far: true,
                                    hit,
                                },
                            );
                            self.cursor = Cursor::Enter { node: top.far_child, seg: top.far };
                            if hit {
                                Action::Visit {
                                    contact: Contact {
                                        node: top.node,
                                        near: top.near,
                                        far: top.far,
                                        beyond: false,
                                    },
                                }
                            } else {
                                Action::Proceed
                            }
                        }
                    },
                }
            },
        }
    }
}

} // verus!
