//! The mathematical model of a turtle interpretation run: the machine that
//! `lsystem2points` is proved to implement, one symbol at a time.

use vstd::prelude::*;

use crate::rule::LsystemAction;

verus! {

/// Largest accepted direction table length.
pub const MAX_UNITS: usize = 1000000;

/// Largest accepted magnitude of a direction table component.
pub const MAX_DIR: i64 = 1000000;

/// Largest accepted step length.
pub const MAX_STEP: i64 = 1000000;

/// Largest magnitude a single forward step can add to a coordinate.
pub const STEP_DELTA: i128 = 1000000000000;

/// Largest magnitude of a starting coordinate.
pub const START_LIMIT: i128 = 0x8000000000000000;

/// A point of a branch: an exact 2-D coordinate in the direction table's
/// units, and the ids of the branches that split off at this point.
pub struct PointModel {
    pub x: int,
    pub y: int,
    pub kids: Seq<int>,
}

/// The turtle while one branch is built: the branch id, the points committed
/// to that branch so far, the pending point (the turtle's position, not yet
/// committed), and the heading as an index into the direction table.
pub struct StateModel {
    pub id: int,
    pub points: Seq<PointModel>,
    pub pending: PointModel,
    pub angle: int,
}

/// The fixed geometry of an interpretation run.  Headings are whole indices
/// into `dirs`, whose entries are fixed-point direction vectors; one heading
/// unit is a full turn divided by `dirs.len()`.
pub struct GeomModel {
    pub dirs: Seq<(int, int)>,
    pub step_len: int,
    pub turn_left: int,
    pub turn_right: int,
    pub start_angle: int,
    pub start_x: int,
    pub start_y: int,
}

impl GeomModel {
    /// How many headings one full turn has.
    pub open spec fn units(self) -> int {
        self.dirs.len() as int
    }

    pub open spec fn wf(self) -> bool {
        &&& 1 <= self.dirs.len() <= MAX_UNITS as int
        &&& 0 <= self.turn_left < self.units()
        &&& 0 <= self.turn_right < self.units()
        &&& 0 <= self.start_angle < self.units()
        &&& 0 <= self.step_len <= MAX_STEP as int
        &&& forall|j: int|
            0 <= j < self.dirs.len() ==> {
                &&& -(MAX_DIR as int) <= (#[trigger] self.dirs[j]).0 <= MAX_DIR as int
                &&& -(MAX_DIR as int) <= self.dirs[j].1 <= MAX_DIR as int
            }
        &&& -(START_LIMIT as int) <= self.start_x <= START_LIMIT as int
        &&& -(START_LIMIT as int) <= self.start_y <= START_LIMIT as int
    }
}

/// The whole machine: the active turtle state, the save stack of suspended
/// parent states, the branches committed so far, and the last branch id that
/// was handed out.
pub struct MachineModel {
    pub cur: StateModel,
    pub stack: Seq<StateModel>,
    pub tree: Map<int, Seq<PointModel>>,
    pub last_id: int,
}

/// What processing one symbol, or a whole string, yields.
pub enum RunOutcome {
    Good(MachineModel),
    MissingAction { symbol: char, index: int },
    Unbalanced { index: int },
}

/// The machine of `Good`, if that is what the outcome is.
pub open spec fn good_machine(o: RunOutcome) -> MachineModel {
    match o {
        RunOutcome::Good(m) => m,
        _ => arbitrary(),
    }
}

/// The turtle's starting point: the configured coordinate, no children.
pub open spec fn start_point(g: GeomModel) -> PointModel {
    PointModel { x: g.start_x, y: g.start_y, kids: Seq::empty() }
}

/// The machine before any symbol: branch id 0, nothing committed, the turtle
/// at the starting point and heading, an empty save stack, an empty tree.
pub open spec fn init_machine(g: GeomModel) -> MachineModel {
    MachineModel {
        cur: StateModel {
            id: 0,
            points: Seq::empty(),
            pending: start_point(g),
            angle: g.start_angle,
        },
        stack: Seq::empty(),
        tree: Map::empty(),
        last_id: 0,
    }
}

/// One step's displacement at heading `angle`.
pub open spec fn step_vec(g: GeomModel, angle: int) -> (int, int) {
    (g.step_len * g.dirs[angle].0, g.step_len * g.dirs[angle].1)
}

/// A forward move: commit the pending point, then advance it one step along
/// the heading; the advanced point starts with no child branches.
pub open spec fn draw_state(g: GeomModel, st: StateModel) -> StateModel {
    StateModel {
        id: st.id,
        points: st.points.push(st.pending),
        pending: PointModel {
            x: st.pending.x + step_vec(g, st.angle).0,
            y: st.pending.y + step_vec(g, st.angle).1,
            kids: Seq::empty(),
        },
        angle: st.angle,
    }
}

/// What one symbol at position `idx` does to the machine.
pub open spec fn step_machine(
    g: GeomModel,
    acts: Map<char, LsystemAction>,
    m: MachineModel,
    c: char,
    idx: int,
) -> RunOutcome {
    if !acts.dom().contains(c) {
        RunOutcome::MissingAction { symbol: c, index: idx }
    } else {
        match acts[c] {
            LsystemAction::DrawForward => RunOutcome::Good(
                MachineModel {
                    cur: draw_state(g, m.cur),
                    stack: m.stack,
                    tree: m.tree,
                    last_id: m.last_id,
                },
            ),
            LsystemAction::TurnLeft => RunOutcome::Good(
                MachineModel {
                    cur: StateModel {
                        id: m.cur.id,
                        points: m.cur.points,
                        pending: m.cur.pending,
                        angle: (m.cur.angle + g.turn_left) % g.units(),
                    },
                    stack: m.stack,
                    tree: m.tree,
                    last_id: m.last_id,
                },
            ),
            LsystemAction::TurnRight => RunOutcome::Good(
                MachineModel {
                    cur: StateModel {
                        id: m.cur.id,
                        points: m.cur.points,
                        pending: m.cur.pending,
                        angle: (m.cur.angle + g.units() - g.turn_right) % g.units(),
                    },
                    stack: m.stack,
                    tree: m.tree,
                    last_id: m.last_id,
                },
            ),
            LsystemAction::BranchStart => {
                let nid = m.last_id + 1;
                let parent = StateModel {
                    id: m.cur.id,
                    points: m.cur.points,
                    pending: PointModel {
                        x: m.cur.pending.x,
                        y: m.cur.pending.y,
                        kids: m.cur.pending.kids.push(nid),
                    },
                    angle: m.cur.angle,
                };
                let child = StateModel {
                    id: nid,
                    points: Seq::empty(),
                    pending: PointModel {
                        x: m.cur.pending.x,
                        y: m.cur.pending.y,
                        kids: Seq::empty(),
                    },
                    angle: m.cur.angle,
                };
                RunOutcome::Good(
                    MachineModel {
                        cur: child,
                        stack: m.stack.push(parent),
                        tree: m.tree,
                        last_id: nid,
                    },
                )
            },
            LsystemAction::BranchEnd => {
                if m.stack.len() == 0 {
                    RunOutcome::Unbalanced { index: idx }
                } else {
                    RunOutcome::Good(
                        MachineModel {
                            cur: m.stack.last(),
                            stack: m.stack.drop_last(),
                            tree: m.tree.insert(m.cur.id, m.cur.points),
                            last_id: m.last_id,
                        },
                    )
                }
            },
        }
    }
}

/// Runs the machine over `s` from position `i` to the end; the first symbol
/// without an action, or the first branch end with an empty save stack,
/// aborts the run.
pub open spec fn run_from(
    g: GeomModel,
    acts: Map<char, LsystemAction>,
    s: Seq<char>,
    i: int,
    m: MachineModel,
) -> RunOutcome
    decreases s.len() - i,
{
    if i < 0 || i >= s.len() {
        RunOutcome::Good(m)
    } else {
        match step_machine(g, acts, m, s[i], i) {
            RunOutcome::Good(m2) => run_from(g, acts, s, i + 1, m2),
            r => r,
        }
    }
}

/// The outcome of interpreting the whole string `s`.
pub open spec fn interpret_spec(
    g: GeomModel,
    acts: Map<char, LsystemAction>,
    s: Seq<char>,
) -> RunOutcome {
    run_from(g, acts, s, 0, init_machine(g))
}

/// The finished tree of a run that consumed its whole string: the still
/// active branch is flushed into the tree even though no branch-end marker
/// closed it.
pub open spec fn finalize(m: MachineModel) -> Map<int, Seq<PointModel>> {
    m.tree.insert(m.cur.id, m.cur.points)
}

/// Structural soundness of a machine: branch ids are non-negative and no
/// larger than the last id handed out, the live ids (the active state and the
/// saved stack) are pairwise distinct, and no live id is already committed.
pub open spec fn machine_inv(g: GeomModel, m: MachineModel) -> bool {
    &&& 0 <= m.cur.id <= m.last_id
    &&& 0 <= m.cur.angle < g.units()
    &&& forall|k: int|
        0 <= k < m.stack.len() ==> {
            &&& 0 <= (#[trigger] m.stack[k]).id <= m.last_id
            &&& 0 <= m.stack[k].angle < g.units()
        }
    &&& forall|k: int, l: int|
        0 <= k < l < m.stack.len() ==> (#[trigger] m.stack[k]).id != (#[trigger] m.stack[l]).id
    &&& forall|k: int| 0 <= k < m.stack.len() ==> (#[trigger] m.stack[k]).id != m.cur.id
    &&& forall|b: int| m.tree.dom().contains(b) ==> 0 <= b <= m.last_id
    &&& !m.tree.dom().contains(m.cur.id)
    &&& forall|k: int| 0 <= k < m.stack.len() ==> !m.tree.dom().contains((#[trigger] m.stack[k]).id)
}

/// `p`'s coordinate lies within `b` of the origin.
pub open spec fn point_in_bound(p: PointModel, b: int) -> bool {
    -b <= p.x <= b && -b <= p.y <= b
}

/// Every coordinate the run can still read (the pending points of the active
/// and the saved states) lies within `b`.
pub open spec fn machine_in_bound(m: MachineModel, b: int) -> bool {
    &&& point_in_bound(m.cur.pending, b)
    &&& forall|k: int| 0 <= k < m.stack.len() ==> point_in_bound((#[trigger] m.stack[k]).pending, b)
}

/// The coordinate bound after `n` symbols: the starting coordinate plus one
/// largest step per symbol.
pub open spec fn coord_bound(n: int) -> int {
    START_LIMIT as int + n * (STEP_DELTA as int)
}

/// One `Good` step keeps the machine sound and moves no coordinate by more
/// than one largest step.
pub proof fn lemma_step_inv(
    g: GeomModel,
    acts: Map<char, LsystemAction>,
    m: MachineModel,
    c: char,
    idx: int,
    b: int,
)
    requires
        g.wf(),
        machine_inv(g, m),
        machine_in_bound(m, b),
        b >= 0,
        step_machine(g, acts, m, c, idx) is Good,
    ensures
        machine_inv(g, good_machine(step_machine(g, acts, m, c, idx))),
        machine_in_bound(good_machine(step_machine(g, acts, m, c, idx)), b + STEP_DELTA as int),
{
    broadcast use vstd::arithmetic::div_mod::lemma_mod_bound;

    let m2 = good_machine(step_machine(g, acts, m, c, idx));
    match acts[c] {
        LsystemAction::DrawForward => {
            let sv = step_vec(g, m.cur.angle);
            assert(-(STEP_DELTA as int) <= sv.0 <= STEP_DELTA as int && -(STEP_DELTA as int)
                <= sv.1 <= STEP_DELTA as int) by (nonlinear_arith)
                requires
                    0 <= g.step_len <= MAX_STEP as int,
                    -(MAX_DIR as int) <= g.dirs[m.cur.angle].0 <= MAX_DIR as int,
                    -(MAX_DIR as int) <= g.dirs[m.cur.angle].1 <= MAX_DIR as int,
                    sv == (g.step_len * g.dirs[m.cur.angle].0, g.step_len * g.dirs[m.cur.angle].1),
            ;
        },
        LsystemAction::TurnLeft => {
            assert(0 <= (m.cur.angle + g.turn_left) % g.units() < g.units());
        },
        LsystemAction::TurnRight => {
            assert(0 <= (m.cur.angle + g.units() - g.turn_right) % g.units() < g.units());
        },
        LsystemAction::BranchStart => {
            assert forall|k: int| 0 <= k < m2.stack.len() implies (#[trigger] m2.stack[k]).id
                != m2.cur.id by {
                if k < m.stack.len() {
                    assert(m2.stack[k] == m.stack[k]);
                }
            }
            assert forall|k: int, l: int| 0 <= k < l < m2.stack.len() implies (
            #[trigger] m2.stack[k]).id != (#[trigger] m2.stack[l]).id by {
                if l < m.stack.len() {
                } else {
                    assert(m2.stack[l].id == m.cur.id);
                    assert(m2.stack[k] == m.stack[k]);
                }
            }
            assert forall|k: int| 0 <= k < m2.stack.len() implies !m2.tree.dom().contains(
                (#[trigger] m2.stack[k]).id,
            ) by {
                if k < m.stack.len() {
                    assert(m2.stack[k] == m.stack[k]);
                }
            }
            assert forall|k: int| 0 <= k < m2.stack.len() implies point_in_bound(
                (#[trigger] m2.stack[k]).pending,
                b + STEP_DELTA as int,
            ) by {
                if k < m.stack.len() {
                    assert(m2.stack[k] == m.stack[k]);
                }
            }
        },
        LsystemAction::BranchEnd => {
            let popped = m.stack.last();
            assert(m.stack[m.stack.len() - 1] == popped);
            assert(popped.id != m.cur.id);
            assert(!m.tree.dom().contains(popped.id));
            assert(forall|k: int|
                0 <= k < m2.stack.len() ==> m2.stack[k] == #[trigger] m.stack[k]);
        },
    }
}

} // verus!
