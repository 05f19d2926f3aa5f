use vstd::prelude::*;
use vstd::string::*;

use crate::assoc::{assoc_map, lemma_assoc_map_dom, lemma_assoc_map_found, lemma_assoc_map_skip};
use crate::model::{
    coord_bound, draw_state, finalize, good_machine, init_machine, interpret_spec, lemma_step_inv,
    machine_in_bound, machine_inv, run_from, step_machine, GeomModel, MachineModel, PointModel,
    RunOutcome, StateModel, MAX_DIR, MAX_STEP, MAX_UNITS, STEP_DELTA,
};
use crate::rule::{LsystemAction, Rule};

verus! {

/// Interpretation failed: either a symbol (at the named 0-based index) has no
/// registered action, or a branch-end symbol occurred with no open branch to
/// close.
#[derive(Clone, Copy, Debug, PartialEq, Eq, Structural)]
pub enum BuildError {
    MissingAction { symbol: char, index: usize },
    UnbalancedBranchMarkers { index: usize },
}

/// A point of a branch: an exact coordinate in the direction table's units,
/// and the ids of the branches that split off at this point (`None` when no
/// branch does).
#[derive(Clone, Debug, PartialEq, Eq)]
pub struct Vec2Branched {
    pub x: i128,
    pub y: i128,
    pub branches: Option<Vec<usize>>,
}

impl View for Vec2Branched {
    type V = PointModel;

    open spec fn view(&self) -> PointModel {
        PointModel {
            x: self.x as int,
            y: self.y as int,
            kids: match self.branches {
                Option::None => Seq::empty(),
                Option::Some(v) => v@.map_values(|u: usize| u as int),
            },
        }
    }
}

impl Vec2Branched {
    /// Records that branch `branch_id` splits off at this point.
    fn add_branch(&mut self, branch_id: usize)
        ensures
            final (self)@.x == old(self)@.x,
            final (self)@.y == old(self)@.y,
            final (self)@.kids == old(self)@.kids.push(branch_id as int),
    {
        let prev = self.branches.take();
        let mut v = match prev {
            Option::Some(v) => v,
            Option::None => Vec::new(),
        };
        v.push(branch_id);
        self.branches = Option::Some(v);
        proof {
            assert(self@.kids =~= old(self)@.kids.push(branch_id as int));
        }
    }
}

/// The points of a branch, as the model sees them.
pub open spec fn pts_view(s: Seq<Vec2Branched>) -> Seq<PointModel> {
    s.map_values(|p: Vec2Branched| p@)
}

/// A tree of branches: branch id 0 is the trunk; every other branch id is
/// recorded as a child reference on some point of its parent branch.
#[derive(Clone, Debug, PartialEq, Eq)]
pub struct LsystemTree {
    pub branches: Vec<(usize, Vec<Vec2Branched>)>,
    pub branches_amount: usize,
}

/// The tree's entries as the model sees them.
pub open spec fn tree_entries(s: Seq<(usize, Vec<Vec2Branched>)>) -> Seq<(int, Seq<PointModel>)> {
    s.map_values(|e: (usize, Vec<Vec2Branched>)| (e.0 as int, pts_view(e.1@)))
}

impl View for LsystemTree {
    type V = Map<int, Seq<PointModel>>;

    open spec fn view(&self) -> Map<int, Seq<PointModel>> {
        assoc_map(tree_entries(self.branches@))
    }
}

impl LsystemTree {
    /// Each branch id occurs once, and the recorded amount is the number of
    /// branches.
    pub open spec fn wf(&self) -> bool {
        &&& self.branches_amount == self.branches@.len()
        &&& forall|j: int, k: int|
            0 <= j < k < self.branches@.len() ==> (#[trigger] self.branches@[j]).0 != (
            #[trigger] self.branches@[k]).0
    }

    fn new() -> (t: LsystemTree)
        ensures
            t@ == Map::<int, Seq<PointModel>>::empty(),
            t.wf(),
            t.branches@.len() == 0,
    {
        let t = LsystemTree { branches: Vec::new(), branches_amount: 0 };
        proof {
            assert(tree_entries(t.branches@) =~= Seq::<(int, Seq<PointModel>)>::empty());
        }
        t
    }

    fn add_branch(&mut self, branch_id: usize, points: Vec<Vec2Branched>)
        requires
            old(self).branches_amount < usize::MAX,
        ensures
            final (self)@ == old(self)@.insert(branch_id as int, pts_view(points@)),
            final (self).branches@ == old(self).branches@.push((branch_id, points)),
            final (self).branches_amount == old(self).branches_amount + 1,
    {
        proof {
            let e2 = tree_entries(old(self).branches@.push((branch_id, points)));
            assert(e2.drop_last() =~= tree_entries(old(self).branches@));
            assert(e2.last() == (branch_id as int, pts_view(points@)));
        }
        self.branches.push((branch_id, points));
        self.branches_amount = self.branches_amount + 1;
    }

    /// The points of branch `branch_id`, if the tree has that branch.
    pub fn get_branch(&self, branch_id: usize) -> (r: Option<&Vec<Vec2Branched>>)
        ensures
            match r {
                Some(pts) => self@.dom().contains(branch_id as int) && pts_view(pts@)
                    == self@[branch_id as int],
                None => !self@.dom().contains(branch_id as int),
            },
    {
        let mut i = self.branches.len();
        while i > 0
            invariant
                i <= self.branches@.len(),
                forall|j: int|
                    i <= j < tree_entries(self.branches@).len() ==> (#[trigger] tree_entries(
                        self.branches@,
                    )[j]).0 != branch_id as int,
            decreases i,
        {
            i = i - 1;
            if self.branches[i].0 == branch_id {
                proof {
                    lemma_assoc_map_found(tree_entries(self.branches@), i as int);
                }
                return Some(&self.branches[i].1);
            }
        }
        proof {
            lemma_assoc_map_skip(tree_entries(self.branches@), 0, branch_id as int);
            assert(tree_entries(self.branches@).take(0) =~= Seq::<(int, Seq<PointModel>)>::empty());
        }
        None
    }
}

/// The direction table as the model sees it.
pub open spec fn dirs_view(s: Seq<(i64, i64)>) -> Seq<(int, int)> {
    s.map_values(|d: (i64, i64)| (d.0 as int, d.1 as int))
}

/// The fixed geometry of an interpretation: a table of fixed-point direction
/// vectors (one per heading unit; a full turn is `dirs.len()` units), the
/// turn amounts and starting heading in those units, the step length, and the
/// starting point.  `grow_scaling` is kept as configuration but is not
/// applied anywhere: it is reserved for a per-depth step decay that no rule
/// of this core defines.
pub struct Geometry {
    turn_left: usize,
    turn_right: usize,
    start_angle: usize,
    step_len: i64,
    grow_scaling: i64,
    start_x: i64,
    start_y: i64,
    dirs: Vec<(i64, i64)>,
}

impl View for Geometry {
    type V = GeomModel;

    closed spec fn view(&self) -> GeomModel {
        GeomModel {
            dirs: dirs_view(self.dirs@),
            step_len: self.step_len as int,
            turn_left: self.turn_left as int,
            turn_right: self.turn_right as int,
            start_angle: self.start_angle as int,
            start_x: self.start_x as int,
            start_y: self.start_y as int,
        }
    }
}

impl Geometry {
    /// Builds a geometry.  Turn amounts and the starting heading are given in
    /// heading units and are reduced modulo the table length, so any value
    /// stands for the heading it points at.
    pub fn new(
        dirs: Vec<(i64, i64)>,
        step_len: i64,
        turn_left: usize,
        turn_right: usize,
        start_angle: usize,
        start_x: i64,
        start_y: i64,
        grow_scaling: i64,
    ) -> (g: Geometry)
        requires
            1 <= dirs@.len() <= MAX_UNITS,
            0 <= step_len <= MAX_STEP,
            forall|j: int|
                0 <= j < dirs@.len() ==> {
                    &&& -MAX_DIR <= (#[trigger] dirs@[j]).0 <= MAX_DIR
                    &&& -MAX_DIR <= dirs@[j].1 <= MAX_DIR
                },
        ensures
            g@.wf(),
            g@.dirs == dirs_view(dirs@),
            g@.step_len == step_len as int,
            g@.turn_left == turn_left as int % dirs@.len() as int,
            g@.turn_right == turn_right as int % dirs@.len() as int,
            g@.start_angle == start_angle as int % dirs@.len() as int,
            g@.start_x == start_x as int,
            g@.start_y == start_y as int,
            g.grow_scaling_spec() == grow_scaling as int,
    {
        let units = dirs.len();
        let g = Geometry {
            turn_left: turn_left % units,
            turn_right: turn_right % units,
            start_angle: start_angle % units,
            step_len,
            grow_scaling,
            start_x,
            start_y,
            dirs,
        };
        proof {
            broadcast use vstd::arithmetic::div_mod::lemma_mod_bound;

            assert forall|j: int| 0 <= j < g@.dirs.len() implies {
                &&& -(MAX_DIR as int) <= (#[trigger] g@.dirs[j]).0 <= MAX_DIR as int
                &&& -(MAX_DIR as int) <= g@.dirs[j].1 <= MAX_DIR as int
            } by {
                assert(g@.dirs[j] == (g.dirs@[j].0 as int, g.dirs@[j].1 as int));
            }
        }
        g
    }

    /// The reserved growth-scaling parameter, as configured.
    pub closed spec fn grow_scaling_spec(&self) -> int {
        self.grow_scaling as int
    }

    /// The reserved growth-scaling parameter; not applied by interpretation.
    pub fn grow_scaling(&self) -> (r: i64)
        ensures
            r as int == self.grow_scaling_spec(),
    {
        self.grow_scaling
    }
}

/// The turtle while one branch is built.
struct TurtleState {
    id: usize,
    points: Vec<Vec2Branched>,
    pending: Vec2Branched,
    angle: usize,
}

impl View for TurtleState {
    type V = StateModel;

    closed spec fn view(&self) -> StateModel {
        StateModel {
            id: self.id as int,
            points: pts_view(self.points@),
            pending: self.pending@,
            angle: self.angle as int,
        }
    }
}

/// The save stack as the model sees it.
spec fn stack_view(s: Seq<TurtleState>) -> Seq<StateModel> {
    s.map_values(|t: TurtleState| t@)
}

/// The machine that the interpreter's locals stand for.
spec fn mach_of(cur: TurtleState, stack: Seq<TurtleState>, tree: LsystemTree, last_id: usize) -> MachineModel {
    MachineModel { cur: cur@, stack: stack_view(stack), tree: tree@, last_id: last_id as int }
}

/// Interprets a symbol string as turtle moves and gathers the branches the
/// turtle draws.  Symbol actions are registered one by one; a later rule for
/// the same symbol wins.
pub struct Lsystem2Points {
    rules: Vec<(char, LsystemAction)>,
    geom: Geometry,
}

impl Lsystem2Points {
    /// The registered action table: symbol to turtle action.
    pub closed spec fn acts_spec(&self) -> Map<char, LsystemAction> {
        assoc_map(self.rules@)
    }

    /// The configured geometry.
    pub closed spec fn geom_spec(&self) -> GeomModel {
        self.geom@
    }

    /// The geometry is sound: a non-empty direction table within the size
    /// bounds, turns and starting heading reduced, step and table entries
    /// within the fixed-point bounds.
    pub open spec fn wf(&self) -> bool {
        self.geom_spec().wf()
    }

    pub fn new(geom: Geometry) -> (r: Lsystem2Points)
        ensures
            r.geom_spec() == geom@,
            r.acts_spec() == Map::<char, LsystemAction>::empty(),
    {
        let r = Lsystem2Points { rules: Vec::new(), geom };
        proof {
            assert(r.rules@ =~= Seq::<(char, LsystemAction)>::empty());
        }
        r
    }

    /// Registers `rule`'s action mapping; a later rule for the same symbol
    /// wins.
    pub fn add_rule(&mut self, rule: &Rule)
        ensures
            final (self).geom_spec() == old(self).geom_spec(),
            final (self).acts_spec() == old(self).acts_spec().insert(rule.ch, rule.action),
    {
        self.rules.push((rule.ch, rule.action));
        proof {
            assert(self.rules@.drop_last() =~= old(self).rules@);
        }
    }

    /// Looks the action of `c` up in the registered table.
    fn find_action(&self, c: char) -> (r: Option<LsystemAction>)
        ensures
            match r {
                Some(a) => self.acts_spec().dom().contains(c) && a == self.acts_spec()[c],
                None => !self.acts_spec().dom().contains(c),
            },
    {
        let mut i = self.rules.len();
        while i > 0
            invariant
                i <= self.rules@.len(),
                forall|j: int| i <= j < self.rules@.len() ==> (#[trigger] self.rules@[j]).0 != c,
            decreases i,
        {
            i = i - 1;
            if self.rules[i].0 == c {
                proof {
                    lemma_assoc_map_found(self.rules@, i as int);
                }
                return Some(self.rules[i].1);
            }
        }
        proof {
            lemma_assoc_map_skip(self.rules@, 0, c);
            assert(self.rules@.take(0) =~= Seq::<(char, LsystemAction)>::empty());
        }
        None
    }

    /// Walks `lsystem` one symbol at a time and returns the branch tree the
    /// turtle draws, exactly as the machine of `crate::model` describes it:
    /// forward moves commit the pending point and advance it one step along
    /// the heading; turns change the heading; a branch start links a fresh
    /// branch id to the pending point and saves the parent state; a branch
    /// end commits the active branch and resumes the saved parent exactly;
    /// when the string ends the still-active branch is committed too.  A
    /// symbol without an action fails the call with `MissingAction`, a branch
    /// end with no open branch fails it with `UnbalancedBranchMarkers`, each
    /// naming the first offending position; no partial tree is returned.
    pub fn build_tree(&self, lsystem: &str) -> (r: Result<LsystemTree, BuildError>)
        requires
            self.wf(),
        ensures
            r is Ok <==> interpret_spec(self.geom_spec(), self.acts_spec(), lsystem@) is Good,
            r matches Ok(tree) ==> {
                &&& tree@ == finalize(
                    good_machine(interpret_spec(self.geom_spec(), self.acts_spec(), lsystem@)),
                )
                &&& tree.wf()
            },
            r matches Err(BuildError::MissingAction { symbol, index }) ==> interpret_spec(
                self.geom_spec(),
                self.acts_spec(),
                lsystem@,
            ) == (RunOutcome::MissingAction { symbol, index: index as int }),
            r matches Err(BuildError::UnbalancedBranchMarkers { index }) ==> interpret_spec(
                self.geom_spec(),
                self.acts_spec(),
                lsystem@,
            ) == (RunOutcome::Unbalanced { index: index as int }),
    {
        let ghost g = self.geom_spec();
        let ghost acts = self.acts_spec();
        let ghost s = lsystem@;

        let mut tree = LsystemTree::new();
        let mut cur = TurtleState {
            id: 0,
            points: Vec::new(),
            pending: Vec2Branched {
                x: self.geom.start_x as i128,
                y: self.geom.start_y as i128,
                branches: Option::None,
            },
            angle: self.geom.start_angle,
        };
        let mut stack: Vec<TurtleState> = Vec::new();
        let mut last_id: usize = 0;

        proof {
            assert(cur@.points =~= Seq::<PointModel>::empty());
            assert(cur@.pending.kids =~= Seq::<int>::empty());
            assert(stack_view(stack@) =~= Seq::<StateModel>::empty());
            assert(mach_of(cur, stack@, tree, last_id) == init_machine(g));
        }

        let n = lsystem.unicode_len();
        let mut i: usize = 0;

        while i < n
            invariant
                i <= n,
                n == s.len(),
                s == lsystem@,
                g == self.geom_spec(),
                acts == self.acts_spec(),
                self.wf(),
                run_from(g, acts, s, i as int, mach_of(cur, stack@, tree, last_id))
                    == interpret_spec(g, acts, s),
                machine_inv(g, mach_of(cur, stack@, tree, last_id)),
                machine_in_bound(mach_of(cur, stack@, tree, last_id), coord_bound(i as int)),
                last_id <= i,
                2 * tree.branches@.len() + stack@.len() <= i,
                tree.wf(),
            decreases n - i,
        {
            let ghost m = mach_of(cur, stack@, tree, last_id);
            let c = lsystem.get_char(i);
            match self.find_action(c) {
                None => {
                    proof {
                        assert(run_from(g, acts, s, i as int, m) == (RunOutcome::MissingAction {
                            symbol: c,
                            index: i as int,
                        }));
                    }
                    return Err(BuildError::MissingAction { symbol: c, index: i });
                },
                Some(action) => {
                    let ghost m2 = good_machine(step_machine(g, acts, m, c, i as int));
                    match action {
                        LsystemAction::DrawForward => {
                            let TurtleState { id, mut points, pending, angle } = cur;
                            let dir = self.geom.dirs[angle];
                            proof {
                                assert(g.dirs[angle as int] == (dir.0 as int, dir.1 as int));
                                assert(-(STEP_DELTA as int) <= g.step_len * (dir.0 as int)
                                    <= STEP_DELTA as int && -(STEP_DELTA as int) <= g.step_len * (
                                dir.1 as int) <= STEP_DELTA as int) by (nonlinear_arith)
                                    requires
                                        0 <= g.step_len <= MAX_STEP as int,
                                        -(MAX_DIR as int) <= dir.0 as int <= MAX_DIR as int,
                                        -(MAX_DIR as int) <= dir.1 as int <= MAX_DIR as int,
                                ;
                                lemma_coord_sum_fits(i as int, n as int);
                            }
                            let dx = (self.geom.step_len as i128) * (dir.0 as i128);
                            let dy = (self.geom.step_len as i128) * (dir.1 as i128);
                            let nx = pending.x + dx;
                            let ny = pending.y + dy;
                            points.push(pending);
                            cur = TurtleState {
                                id,
                                points,
                                pending: Vec2Branched { x: nx, y: ny, branches: Option::None },
                                angle,
                            };
                            proof {
                                assert(cur@.points =~= m.cur.points.push(m.cur.pending));
                                assert(cur@.pending.kids =~= Seq::<int>::empty());
                                assert(cur@ == draw_state(g, m.cur));
                                assert(mach_of(cur, stack@, tree, last_id) == m2);
                                lemma_step_inv(g, acts, m, c, i as int, coord_bound(i as int));
                            }
                        },
                        LsystemAction::TurnLeft => {
                            let units = self.geom.dirs.len();
                            cur.angle = (cur.angle + self.geom.turn_left) % units;
                            proof {
                                assert(cur@.angle == (m.cur.angle + g.turn_left) % g.units());
                                assert(mach_of(cur, stack@, tree, last_id) == m2);
                                lemma_step_inv(g, acts, m, c, i as int, coord_bound(i as int));
                            }
                        },
                        LsystemAction::TurnRight => {
                            let units = self.geom.dirs.len();
                            cur.angle = (cur.angle + units - self.geom.turn_right) % units;
                            proof {
                                assert(cur@.angle == (m.cur.angle + g.units() - g.turn_right)
                                    % g.units());
                                assert(mach_of(cur, stack@, tree, last_id) == m2);
                                lemma_step_inv(g, acts, m, c, i as int, coord_bound(i as int));
                            }
                        },
                        LsystemAction::BranchStart => {
                            let nid = last_id + 1;
                            cur.pending.add_branch(nid);
                            let ghost parent = cur@;
                            let ghost prev_stack = stack@;
                            let px = cur.pending.x;
                            let py = cur.pending.y;
                            let ang = cur.angle;
                            stack.push(cur);
                            cur = TurtleState {
                                id: nid,
                                points: Vec::new(),
                                pending: Vec2Branched { x: px, y: py, branches: Option::None },
                                angle: ang,
                            };
                            last_id = nid;
                            proof {
                                assert(cur@.points =~= Seq::<PointModel>::empty());
                                assert(cur@.pending.kids =~= Seq::<int>::empty());
                                assert(stack_view(stack@) =~= stack_view(prev_stack).push(parent));
                                assert(mach_of(cur, stack@, tree, last_id) == m2);
                                lemma_step_inv(g, acts, m, c, i as int, coord_bound(i as int));
                            }
                        },
                        LsystemAction::BranchEnd => {
                            if stack.len() == 0 {
                                proof {
                                    assert(stack_view(stack@).len() == 0);
                                    assert(run_from(g, acts, s, i as int, m)
                                        == (RunOutcome::Unbalanced { index: i as int }));
                                }
                                return Err(BuildError::UnbalancedBranchMarkers { index: i });
                            }
                            let ghost old_entries = tree.branches@;
                            let ghost old_stack = stack@;
                            proof {
                                lemma_assoc_map_dom(tree_entries(old_entries));
                            }
                            let TurtleState {
                                id,
                                points,
                                pending: _dropped_pending,
                                angle: _dropped_angle,
                            } = cur;
                            tree.add_branch(id, points);
                            cur = stack.pop().unwrap();
                            proof {
                                assert(stack_view(stack@) =~= stack_view(old_stack).drop_last());
                                assert(cur@ == stack_view(old_stack).last());
                                assert(mach_of(cur, stack@, tree, last_id) == m2);
                                lemma_step_inv(g, acts, m, c, i as int, coord_bound(i as int));
                                assert forall|j: int, k: int|
                                    0 <= j < k < tree.branches@.len() implies (
                                #[trigger] tree.branches@[j]).0 != (
                                #[trigger] tree.branches@[k]).0 by {
                                    if k == tree.branches@.len() - 1 {
                                        assert(tree.branches@[j] == old_entries[j]);
                                        if old_entries[j].0 == id {
                                            assert((tree_entries(old_entries)[j]).0 == id as int);
                                            assert(false);
                                        }
                                    }
                                }
                            }
                        },
                    }
                    proof {
                        assert(run_from(g, acts, s, i as int, m) == run_from(
                            g,
                            acts,
                            s,
                            i as int + 1,
                            m2,
                        ));
                        lemma_bound_mono(m2, coord_bound(i as int) + STEP_DELTA as int, coord_bound(
                            i as int + 1,
                        ));
                    }
                    i = i + 1;
                },
            }
        }

        let ghost m = mach_of(cur, stack@, tree, last_id);
        let ghost old_entries = tree.branches@;
        proof {
            assert(run_from(g, acts, s, i as int, m) == RunOutcome::Good(m));
            lemma_assoc_map_dom(tree_entries(old_entries));
        }
        let TurtleState { id, points, pending: _dropped_pending, angle: _dropped_angle } = cur;
        tree.add_branch(id, points);
        proof {
            assert(tree@ == finalize(m));
            assert forall|j: int, k: int| 0 <= j < k < tree.branches@.len() implies (
            #[trigger] tree.branches@[j]).0 != (#[trigger] tree.branches@[k]).0 by {
                if k == tree.branches@.len() - 1 {
                    assert(tree.branches@[j] == old_entries[j]);
                    if old_entries[j].0 == id {
                        assert((tree_entries(old_entries)[j]).0 == id as int);
                        assert(false);
                    }
                }
            }
        }
        Ok(tree)
    }
}

/// A machine within a bound is within any larger bound.
proof fn lemma_bound_mono(m: MachineModel, b1: int, b2: int)
    requires
        machine_in_bound(m, b1),
        b1 <= b2,
    ensures
        machine_in_bound(m, b2),
{
}



/// The coordinate bound after any prefix of the string still fits the
/// coordinate type, with one more step to spare.
proof fn lemma_coord_sum_fits(i: int, n: int)
    requires
        0 <= i,
        i < n,
        n <= usize::MAX as int,
    ensures
        coord_bound(i) + (STEP_DELTA as int) < i128::MAX as int,
{
    assert(n <= u64::MAX as int);
    assert(coord_bound(i) <= coord_bound(u64::MAX as int));
}

} // verus!
