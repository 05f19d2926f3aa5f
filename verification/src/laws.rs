//! Laws of the turtle machine, proved over the model of `crate::model`:
//! what marker-free strings draw, and what one branch pair does.

use vstd::prelude::*;

use crate::model::{
    finalize, good_machine, init_machine, interpret_spec, run_from, start_point, step_machine,
    step_vec, GeomModel, MachineModel, PointModel, RunOutcome, StateModel,
};
use crate::rule::LsystemAction;

verus! {

/// Every symbol of `s[i..j)` has an action and none is a branch marker.
pub open spec fn no_markers(
    acts: Map<char, LsystemAction>,
    s: Seq<char>,
    i: int,
    j: int,
) -> bool {
    forall|k: int|
        i <= k < j ==> {
            &&& acts.dom().contains(#[trigger] s[k])
            &&& acts[s[k]] != LsystemAction::BranchStart
            &&& acts[s[k]] != LsystemAction::BranchEnd
        }
}

/// `p` moved one step along heading `a`, with no child branches.
pub open spec fn advanced(g: GeomModel, p: PointModel, a: int) -> PointModel {
    PointModel { x: p.x + step_vec(g, a).0, y: p.y + step_vec(g, a).1, kids: Seq::empty() }
}

/// How many forward moves `s[i..j)` holds.
pub open spec fn count_draws(acts: Map<char, LsystemAction>, s: Seq<char>, i: int, j: int) -> int
    decreases j - i,
{
    if i < 0 || i >= j {
        0
    } else {
        (if acts[s[i]] == LsystemAction::DrawForward {
            1int
        } else {
            0int
        }) + count_draws(acts, s, i + 1, j)
    }
}

/// The points a marker-free walk of `s[i..j)` commits, starting with pending
/// point `p` at heading `a`: the pending point before each forward move.
pub open spec fn walk_points(
    g: GeomModel,
    acts: Map<char, LsystemAction>,
    s: Seq<char>,
    i: int,
    j: int,
    p: PointModel,
    a: int,
) -> Seq<PointModel>
    decreases j - i,
{
    if i < 0 || i >= j {
        Seq::empty()
    } else {
        match acts[s[i]] {
            LsystemAction::DrawForward => seq![p] + walk_points(
                g,
                acts,
                s,
                i + 1,
                j,
                advanced(g, p, a),
                a,
            ),
            LsystemAction::TurnLeft => walk_points(
                g,
                acts,
                s,
                i + 1,
                j,
                p,
                (a + g.turn_left) % g.units(),
            ),
            LsystemAction::TurnRight => walk_points(
                g,
                acts,
                s,
                i + 1,
                j,
                p,
                (a + g.units() - g.turn_right) % g.units(),
            ),
            _ => Seq::empty(),
        }
    }
}

/// The pending point after a marker-free walk of `s[i..j)`.
pub open spec fn walk_pending(
    g: GeomModel,
    acts: Map<char, LsystemAction>,
    s: Seq<char>,
    i: int,
    j: int,
    p: PointModel,
    a: int,
) -> PointModel
    decreases j - i,
{
    if i < 0 || i >= j {
        p
    } else {
        match acts[s[i]] {
            LsystemAction::DrawForward => walk_pending(g, acts, s, i + 1, j, advanced(g, p, a), a),
            LsystemAction::TurnLeft => walk_pending(
                g,
                acts,
                s,
                i + 1,
                j,
                p,
                (a + g.turn_left) % g.units(),
            ),
            LsystemAction::TurnRight => walk_pending(
                g,
                acts,
                s,
                i + 1,
                j,
                p,
                (a + g.units() - g.turn_right) % g.units(),
            ),
            _ => p,
        }
    }
}

/// The heading after a marker-free walk of `s[i..j)`.
pub open spec fn walk_angle(
    g: GeomModel,
    acts: Map<char, LsystemAction>,
    s: Seq<char>,
    i: int,
    j: int,
    a: int,
) -> int
    decreases j - i,
{
    if i < 0 || i >= j {
        a
    } else {
        match acts[s[i]] {
            LsystemAction::DrawForward => walk_angle(g, acts, s, i + 1, j, a),
            LsystemAction::TurnLeft => walk_angle(g, acts, s, i + 1, j, (a + g.turn_left) % g.units()),
            LsystemAction::TurnRight => walk_angle(
                g,
                acts,
                s,
                i + 1,
                j,
                (a + g.units() - g.turn_right) % g.units(),
            ),
            _ => a,
        }
    }
}

/// The forward steps of a marker-free walk of `s[i..j)`, each taken at the
/// heading in force when it was made.
pub open spec fn walk_steps(
    g: GeomModel,
    acts: Map<char, LsystemAction>,
    s: Seq<char>,
    i: int,
    j: int,
    a: int,
) -> Seq<(int, int)>
    decreases j - i,
{
    if i < 0 || i >= j {
        Seq::empty()
    } else {
        match acts[s[i]] {
            LsystemAction::DrawForward => seq![step_vec(g, a)] + walk_steps(g, acts, s, i + 1, j, a),
            LsystemAction::TurnLeft => walk_steps(g, acts, s, i + 1, j, (a + g.turn_left) % g.units()),
            LsystemAction::TurnRight => walk_steps(
                g,
                acts,
                s,
                i + 1,
                j,
                (a + g.units() - g.turn_right) % g.units(),
            ),
            _ => Seq::empty(),
        }
    }
}

/// The sum of the first components of `sv`.
pub open spec fn sum_x(sv: Seq<(int, int)>) -> int
    decreases sv.len(),
{
    if sv.len() == 0 {
        0
    } else {
        sv[0].0 + sum_x(sv.drop_first())
    }
}

/// The sum of the second components of `sv`.
pub open spec fn sum_y(sv: Seq<(int, int)>) -> int
    decreases sv.len(),
{
    if sv.len() == 0 {
        0
    } else {
        sv[0].1 + sum_y(sv.drop_first())
    }
}

proof fn lemma_sum_cons(v: (int, int), t: Seq<(int, int)>)
    ensures
        sum_x(seq![v] + t) == v.0 + sum_x(t),
        sum_y(seq![v] + t) == v.1 + sum_y(t),
{
    assert((seq![v] + t).drop_first() =~= t);
    assert((seq![v] + t)[0] == v);
}

/// A marker-free stretch of the string moves only the active turtle: the save
/// stack, the committed tree and the id counter stay, the active branch gains
/// the walk's points, and the pending point and heading follow the walk.
pub proof fn lemma_line_walk(
    g: GeomModel,
    acts: Map<char, LsystemAction>,
    s: Seq<char>,
    i: int,
    j: int,
    m: MachineModel,
)
    requires
        0 <= i <= j <= s.len(),
        no_markers(acts, s, i, j),
    ensures
        run_from(g, acts, s, i, m) == run_from(
            g,
            acts,
            s,
            j,
            MachineModel {
                cur: StateModel {
                    id: m.cur.id,
                    points: m.cur.points + walk_points(g, acts, s, i, j, m.cur.pending, m.cur.angle),
                    pending: walk_pending(g, acts, s, i, j, m.cur.pending, m.cur.angle),
                    angle: walk_angle(g, acts, s, i, j, m.cur.angle),
                },
                stack: m.stack,
                tree: m.tree,
                last_id: m.last_id,
            },
        ),
    decreases j - i,
{
    let p = m.cur.pending;
    let a = m.cur.angle;
    if i == j {
        assert(m.cur.points + walk_points(g, acts, s, i, j, p, a) =~= m.cur.points);
        let mm = MachineModel {
            cur: StateModel {
                id: m.cur.id,
                points: m.cur.points + walk_points(g, acts, s, i, j, p, a),
                pending: walk_pending(g, acts, s, i, j, p, a),
                angle: walk_angle(g, acts, s, i, j, a),
            },
            stack: m.stack,
            tree: m.tree,
            last_id: m.last_id,
        };
        assert(mm == m);
    } else {
        let m2 = good_machine(step_machine(g, acts, m, s[i], i));
        assert(step_machine(g, acts, m, s[i], i) == RunOutcome::Good(m2));
        lemma_line_walk(g, acts, s, i + 1, j, m2);
        match acts[s[i]] {
            LsystemAction::DrawForward => {
                assert(m2.cur.pending == advanced(g, p, a));
                assert(m2.cur.points + walk_points(g, acts, s, i + 1, j, advanced(g, p, a), a)
                    =~= m.cur.points + walk_points(g, acts, s, i, j, p, a));
            },
            LsystemAction::TurnLeft => {},
            LsystemAction::TurnRight => {},
            _ => {
                assert(false);
            },
        }
    }
}

/// The shape of a marker-free walk: one committed point per forward move, the
/// k-th being the entry pending point advanced by the first k steps; the
/// first committed point is the entry pending point itself; later points
/// carry no children; the walk's final pending point is the entry point
/// advanced by all the steps.
pub proof fn lemma_walk_shape(
    g: GeomModel,
    acts: Map<char, LsystemAction>,
    s: Seq<char>,
    i: int,
    j: int,
    p: PointModel,
    a: int,
)
    requires
        0 <= i <= j <= s.len(),
        no_markers(acts, s, i, j),
    ensures
        ({
            let wp = walk_points(g, acts, s, i, j, p, a);
            let ws = walk_steps(g, acts, s, i, j, a);
            let wq = walk_pending(g, acts, s, i, j, p, a);
            let n = count_draws(acts, s, i, j);
            &&& wp.len() == n
            &&& ws.len() == n
            &&& forall|k: int|
                0 <= k < n ==> {
                    &&& (#[trigger] wp[k]).x == p.x + sum_x(ws.take(k))
                    &&& wp[k].y == p.y + sum_y(ws.take(k))
                }
            &&& forall|k: int| 1 <= k < n ==> (#[trigger] wp[k]).kids == Seq::<int>::empty()
            &&& n > 0 ==> wp[0] == p
            &&& wq.x == p.x + sum_x(ws)
            &&& wq.y == p.y + sum_y(ws)
            &&& n > 0 ==> wq.kids == Seq::<int>::empty()
            &&& n == 0 ==> wq == p
        }),
    decreases j - i,
{
    let wp = walk_points(g, acts, s, i, j, p, a);
    let ws = walk_steps(g, acts, s, i, j, a);
    let n = count_draws(acts, s, i, j);
    if i == j {
        assert(ws =~= Seq::<(int, int)>::empty());
    } else {
        match acts[s[i]] {
            LsystemAction::DrawForward => {
                let p2 = advanced(g, p, a);
                let sv = step_vec(g, a);
                lemma_walk_shape(g, acts, s, i + 1, j, p2, a);
                let wp2 = walk_points(g, acts, s, i + 1, j, p2, a);
                let ws2 = walk_steps(g, acts, s, i + 1, j, a);
                lemma_sum_cons(sv, ws2);
                assert(wp =~= seq![p] + wp2);
                assert(ws =~= seq![sv] + ws2);
                assert(ws.take(0) =~= Seq::<(int, int)>::empty());
                assert forall|k: int| 0 <= k < n implies {
                    &&& (#[trigger] wp[k]).x == p.x + sum_x(ws.take(k))
                    &&& wp[k].y == p.y + sum_y(ws.take(k))
                } by {
                    if k == 0 {
                        assert(wp[0] == p);
                    } else {
                        assert(wp[k] == wp2[k - 1]);
                        assert(ws.take(k) =~= seq![sv] + ws2.take(k - 1));
                        lemma_sum_cons(sv, ws2.take(k - 1));
                    }
                }
                assert forall|k: int| 1 <= k < n implies (#[trigger] wp[k]).kids == Seq::<
                    int,
                >::empty() by {
                    assert(wp[k] == wp2[k - 1]);
                    if k == 1 {
                        assert(count_draws(acts, s, i + 1, j) > 0);
                        assert(wp2[0] == p2);
                    }
                }
            },
            LsystemAction::TurnLeft => {
                lemma_walk_shape(g, acts, s, i + 1, j, p, (a + g.turn_left) % g.units());
            },
            LsystemAction::TurnRight => {
                lemma_walk_shape(g, acts, s, i + 1, j, p, (a + g.units() - g.turn_right) % g.units());
            },
            _ => {
                assert(false);
            },
        }
    }
}

/// Law: interpreting a string with no branch markers succeeds and yields a
/// tree with exactly one branch, id 0, holding one point per forward move:
/// the k-th point is the starting point advanced by the first k forward
/// steps, with no children; and the turtle ends at the starting point
/// advanced by all the forward steps.
pub proof fn lemma_single_branch(g: GeomModel, acts: Map<char, LsystemAction>, s: Seq<char>)
    requires
        no_markers(acts, s, 0, s.len() as int),
    ensures
        ({
            let o = interpret_spec(g, acts, s);
            let t = finalize(good_machine(o));
            let ws = walk_steps(g, acts, s, 0, s.len() as int, g.start_angle);
            let n = count_draws(acts, s, 0, s.len() as int);
            &&& o is Good
            &&& t.dom() =~= set![0int]
            &&& t[0].len() == n
            &&& forall|k: int|
                0 <= k < n ==> #[trigger] t[0][k] == (PointModel {
                    x: g.start_x + sum_x(ws.take(k)),
                    y: g.start_y + sum_y(ws.take(k)),
                    kids: Seq::<int>::empty(),
                })
            &&& good_machine(o).cur.pending.x == g.start_x + sum_x(ws)
            &&& good_machine(o).cur.pending.y == g.start_y + sum_y(ws)
        }),
{
    let len = s.len() as int;
    let m0 = init_machine(g);
    let p0 = start_point(g);
    let a0 = g.start_angle;
    lemma_line_walk(g, acts, s, 0, len, m0);
    lemma_walk_shape(g, acts, s, 0, len, p0, a0);
    let o = interpret_spec(g, acts, s);
    let mw = good_machine(o);
    assert(mw.cur.points =~= walk_points(g, acts, s, 0, len, p0, a0));
    let t = finalize(mw);
    assert(t.dom() =~= set![0int]);
    let n = count_draws(acts, s, 0, len);
    let ws = walk_steps(g, acts, s, 0, len, a0);
    assert forall|k: int| 0 <= k < n implies #[trigger] t[0][k] == (PointModel {
        x: g.start_x + sum_x(ws.take(k)),
        y: g.start_y + sum_y(ws.take(k)),
        kids: Seq::<int>::empty(),
    }) by {
        let wp = walk_points(g, acts, s, 0, len, p0, a0);
        if k == 0 {
            assert(wp[0] == p0);
            assert(ws.take(0) =~= Seq::<(int, int)>::empty());
        }
    }
}


/// Law: a string whose only branch markers are one branch start at `a` and
/// its matching end at `b` yields exactly two branches.  The child, id 1, is
/// the walk of the marked stretch started at the split position and heading,
/// so its first committed point (if it draws at all) is the split point; the
/// parent, id 0, is the walk before the marker followed by the walk after it,
/// resumed at the exact split position and heading that the branch start
/// saved; and if a forward move follows the end marker, the split point is
/// committed on the parent carrying the child's id.
pub proof fn lemma_branch_pair(
    g: GeomModel,
    acts: Map<char, LsystemAction>,
    s: Seq<char>,
    a: int,
    b: int,
)
    requires
        0 <= a < b < s.len(),
        acts.dom().contains(s[a]),
        acts[s[a]] == LsystemAction::BranchStart,
        acts.dom().contains(s[b]),
        acts[s[b]] == LsystemAction::BranchEnd,
        no_markers(acts, s, 0, a),
        no_markers(acts, s, a + 1, b),
        no_markers(acts, s, b + 1, s.len() as int),
    ensures
        ({
            let len = s.len() as int;
            let o = interpret_spec(g, acts, s);
            let t = finalize(good_machine(o));
            let pa = walk_pending(g, acts, s, 0, a, start_point(g), g.start_angle);
            let aa = walk_angle(g, acts, s, 0, a, g.start_angle);
            let split = PointModel { x: pa.x, y: pa.y, kids: Seq::<int>::empty() };
            let marked = PointModel { x: pa.x, y: pa.y, kids: seq![1int] };
            &&& o is Good
            &&& t.dom() =~= set![0int, 1int]
            &&& t[1] == walk_points(g, acts, s, a + 1, b, split, aa)
            &&& t[0] == walk_points(g, acts, s, 0, a, start_point(g), g.start_angle)
                + walk_points(g, acts, s, b + 1, len, marked, aa)
            &&& count_draws(acts, s, a + 1, b) > 0 ==> t[1][0] == split
            &&& count_draws(acts, s, b + 1, len) > 0 ==> t[0][count_draws(acts, s, 0, a)]
                == marked
        }),
{
    let len = s.len() as int;
    let m0 = init_machine(g);
    let p0 = start_point(g);
    let a0 = g.start_angle;
    let pa = walk_pending(g, acts, s, 0, a, p0, a0);
    let aa = walk_angle(g, acts, s, 0, a, a0);
    let wpa = walk_points(g, acts, s, 0, a, p0, a0);
    let split = PointModel { x: pa.x, y: pa.y, kids: Seq::<int>::empty() };
    let marked = PointModel { x: pa.x, y: pa.y, kids: seq![1int] };

    lemma_line_walk(g, acts, s, 0, a, m0);
    lemma_walk_shape(g, acts, s, 0, a, p0, a0);
    assert(pa.kids =~= Seq::<int>::empty());
    let ma = MachineModel {
        cur: StateModel {
            id: 0,
            points: m0.cur.points + wpa,
            pending: pa,
            angle: aa,
        },
        stack: m0.stack,
        tree: m0.tree,
        last_id: 0,
    };
    assert(run_from(g, acts, s, 0, m0) == run_from(g, acts, s, a, ma));

    let mb = good_machine(step_machine(g, acts, ma, s[a], a));
    assert(pa.kids.push(1int) =~= seq![1int]);
    let parent = StateModel { id: 0, points: ma.cur.points, pending: marked, angle: aa };
    assert(mb.cur == StateModel { id: 1, points: Seq::<PointModel>::empty(), pending: split, angle: aa });
    assert(mb.stack =~= seq![parent]);
    assert(run_from(g, acts, s, a, ma) == run_from(g, acts, s, a + 1, mb));

    lemma_line_walk(g, acts, s, a + 1, b, mb);
    let wpb = walk_points(g, acts, s, a + 1, b, split, aa);
    let mb2 = MachineModel {
        cur: StateModel {
            id: 1,
            points: mb.cur.points + wpb,
            pending: walk_pending(g, acts, s, a + 1, b, split, aa),
            angle: walk_angle(g, acts, s, a + 1, b, aa),
        },
        stack: mb.stack,
        tree: mb.tree,
        last_id: 1,
    };
    assert(run_from(g, acts, s, a + 1, mb) == run_from(g, acts, s, b, mb2));

    let mc = good_machine(step_machine(g, acts, mb2, s[b], b));
    assert(mb2.stack.last() == parent);
    assert(mb2.stack.drop_last() =~= Seq::<StateModel>::empty());
    assert(mc == MachineModel {
        cur: parent,
        stack: mb2.stack.drop_last(),
        tree: mb2.tree.insert(1, mb2.cur.points),
        last_id: 1,
    });
    assert(run_from(g, acts, s, b, mb2) == run_from(g, acts, s, b + 1, mc));

    lemma_line_walk(g, acts, s, b + 1, len, mc);
    let wpc = walk_points(g, acts, s, b + 1, len, marked, aa);
    let md = MachineModel {
        cur: StateModel {
            id: 0,
            points: mc.cur.points + wpc,
            pending: walk_pending(g, acts, s, b + 1, len, marked, aa),
            angle: walk_angle(g, acts, s, b + 1, len, aa),
        },
        stack: mc.stack,
        tree: mc.tree,
        last_id: 1,
    };
    assert(run_from(g, acts, s, b + 1, mc) == run_from(g, acts, s, len, md));
    assert(run_from(g, acts, s, len, md) == RunOutcome::Good(md));

    let o = interpret_spec(g, acts, s);
    assert(o == RunOutcome::Good(md));
    let t = finalize(md);
    assert(t.dom() =~= set![0int, 1int]);
    assert(mb.cur.points + wpb =~= wpb);
    assert(t[1] == wpb);
    assert((m0.cur.points + wpa) + wpc =~= wpa + wpc);
    assert(t[0] == wpa + wpc);

    lemma_walk_shape(g, acts, s, a + 1, b, split, aa);
    if count_draws(acts, s, a + 1, b) > 0 {
        assert(t[1][0] == split);
    }
    lemma_walk_shape(g, acts, s, b + 1, len, marked, aa);
    if count_draws(acts, s, b + 1, len) > 0 {
        assert(wpa.len() == count_draws(acts, s, 0, a));
        assert(t[0][count_draws(acts, s, 0, a)] == wpc[0]);
        assert(wpc[0] == marked);
    }
}


/// Law: a string whose only branch markers are a nested pair of branch pairs
/// (a start at `a`, a start at `b`, its end at `c`, the outer end at `d`)
/// yields three branches whose linkage forms a tree of depth two: the trunk
/// spawns branch 1 at the outer split, branch 1 spawns branch 2 at the inner
/// split.  Each branch end resumes the saved state exactly: branch 1 goes on
/// from the inner split position at the inner split heading, and the trunk
/// goes on from the outer split position at the outer split heading.
pub proof fn lemma_nested_branch_pairs(
    g: GeomModel,
    acts: Map<char, LsystemAction>,
    s: Seq<char>,
    a: int,
    b: int,
    c: int,
    d: int,
)
    requires
        0 <= a < b < c < d < s.len(),
        acts.dom().contains(s[a]),
        acts[s[a]] == LsystemAction::BranchStart,
        acts.dom().contains(s[b]),
        acts[s[b]] == LsystemAction::BranchStart,
        acts.dom().contains(s[c]),
        acts[s[c]] == LsystemAction::BranchEnd,
        acts.dom().contains(s[d]),
        acts[s[d]] == LsystemAction::BranchEnd,
        no_markers(acts, s, 0, a),
        no_markers(acts, s, a + 1, b),
        no_markers(acts, s, b + 1, c),
        no_markers(acts, s, c + 1, d),
        no_markers(acts, s, d + 1, s.len() as int),
    ensures
        ({
            let len = s.len() as int;
            let o = interpret_spec(g, acts, s);
            let t = finalize(good_machine(o));
            let pa = walk_pending(g, acts, s, 0, a, start_point(g), g.start_angle);
            let aa = walk_angle(g, acts, s, 0, a, g.start_angle);
            let split1 = PointModel { x: pa.x, y: pa.y, kids: Seq::<int>::empty() };
            let marked1 = PointModel { x: pa.x, y: pa.y, kids: seq![1int] };
            let pb = walk_pending(g, acts, s, a + 1, b, split1, aa);
            let ab = walk_angle(g, acts, s, a + 1, b, aa);
            let split2 = PointModel { x: pb.x, y: pb.y, kids: Seq::<int>::empty() };
            let marked2 = PointModel { x: pb.x, y: pb.y, kids: seq![2int] };
            &&& o is Good
            &&& t.dom() =~= set![0int, 1int, 2int]
            &&& t[2] == walk_points(g, acts, s, b + 1, c, split2, ab)
            &&& t[1] == walk_points(g, acts, s, a + 1, b, split1, aa)
                + walk_points(g, acts, s, c + 1, d, marked2, ab)
            &&& t[0] == walk_points(g, acts, s, 0, a, start_point(g), g.start_angle)
                + walk_points(g, acts, s, d + 1, len, marked1, aa)
            &&& count_draws(acts, s, b + 1, c) > 0 ==> t[2][0] == split2
            &&& count_draws(acts, s, c + 1, d) > 0 ==> t[1][count_draws(acts, s, a + 1, b)]
                == marked2
            &&& count_draws(acts, s, d + 1, len) > 0 ==> t[0][count_draws(acts, s, 0, a)]
                == marked1
        }),
{
    let len = s.len() as int;
    let m0 = init_machine(g);
    let p0 = start_point(g);
    let a0 = g.start_angle;
    let pa = walk_pending(g, acts, s, 0, a, p0, a0);
    let aa = walk_angle(g, acts, s, 0, a, a0);
    let wpa = walk_points(g, acts, s, 0, a, p0, a0);
    let split1 = PointModel { x: pa.x, y: pa.y, kids: Seq::<int>::empty() };
    let marked1 = PointModel { x: pa.x, y: pa.y, kids: seq![1int] };

    lemma_line_walk(g, acts, s, 0, a, m0);
    lemma_walk_shape(g, acts, s, 0, a, p0, a0);
    assert(pa.kids =~= Seq::<int>::empty());
    let ma = MachineModel {
        cur: StateModel { id: 0, points: m0.cur.points + wpa, pending: pa, angle: aa },
        stack: m0.stack,
        tree: m0.tree,
        last_id: 0,
    };
    assert(run_from(g, acts, s, 0, m0) == run_from(g, acts, s, a, ma));

    let mb = good_machine(step_machine(g, acts, ma, s[a], a));
    assert(pa.kids.push(1int) =~= seq![1int]);
    let parent0 = StateModel { id: 0, points: ma.cur.points, pending: marked1, angle: aa };
    assert(mb.cur == StateModel {
        id: 1,
        points: Seq::<PointModel>::empty(),
        pending: split1,
        angle: aa,
    });
    assert(mb.stack =~= seq![parent0]);
    assert(run_from(g, acts, s, a, ma) == run_from(g, acts, s, a + 1, mb));

    let pb = walk_pending(g, acts, s, a + 1, b, split1, aa);
    let ab = walk_angle(g, acts, s, a + 1, b, aa);
    let wpb = walk_points(g, acts, s, a + 1, b, split1, aa);
    let split2 = PointModel { x: pb.x, y: pb.y, kids: Seq::<int>::empty() };
    let marked2 = PointModel { x: pb.x, y: pb.y, kids: seq![2int] };

    lemma_line_walk(g, acts, s, a + 1, b, mb);
    lemma_walk_shape(g, acts, s, a + 1, b, split1, aa);
    assert(pb.kids =~= Seq::<int>::empty());
    let mc = MachineModel {
        cur: StateModel { id: 1, points: mb.cur.points + wpb, pending: pb, angle: ab },
        stack: mb.stack,
        tree: mb.tree,
        last_id: 1,
    };
    assert(run_from(g, acts, s, a + 1, mb) == run_from(g, acts, s, b, mc));

    let md = good_machine(step_machine(g, acts, mc, s[b], b));
    assert(pb.kids.push(2int) =~= seq![2int]);
    let parent1 = StateModel { id: 1, points: mc.cur.points, pending: marked2, angle: ab };
    assert(md.cur == StateModel {
        id: 2,
        points: Seq::<PointModel>::empty(),
        pending: split2,
        angle: ab,
    });
    assert(md.stack =~= seq![parent0, parent1]);
    assert(run_from(g, acts, s, b, mc) == run_from(g, acts, s, b + 1, md));

    let wpc2 = walk_points(g, acts, s, b + 1, c, split2, ab);
    lemma_line_walk(g, acts, s, b + 1, c, md);
    let me = MachineModel {
        cur: StateModel {
            id: 2,
            points: md.cur.points + wpc2,
            pending: walk_pending(g, acts, s, b + 1, c, split2, ab),
            angle: walk_angle(g, acts, s, b + 1, c, ab),
        },
        stack: md.stack,
        tree: md.tree,
        last_id: 2,
    };
    assert(run_from(g, acts, s, b + 1, md) == run_from(g, acts, s, c, me));

    let mf = good_machine(step_machine(g, acts, me, s[c], c));
    assert(me.stack.last() == parent1);
    assert(me.stack.drop_last() =~= seq![parent0]);
    assert(mf == MachineModel {
        cur: parent1,
        stack: me.stack.drop_last(),
        tree: me.tree.insert(2, me.cur.points),
        last_id: 2,
    });
    assert(run_from(g, acts, s, c, me) == run_from(g, acts, s, c + 1, mf));

    let wpd = walk_points(g, acts, s, c + 1, d, marked2, ab);
    lemma_line_walk(g, acts, s, c + 1, d, mf);
    let mg = MachineModel {
        cur: StateModel {
            id: 1,
            points: mf.cur.points + wpd,
            pending: walk_pending(g, acts, s, c + 1, d, marked2, ab),
            angle: walk_angle(g, acts, s, c + 1, d, ab),
        },
        stack: mf.stack,
        tree: mf.tree,
        last_id: 2,
    };
    assert(run_from(g, acts, s, c + 1, mf) == run_from(g, acts, s, d, mg));

    let mh = good_machine(step_machine(g, acts, mg, s[d], d));
    assert(mg.stack.last() == parent0);
    assert(mg.stack.drop_last() =~= Seq::<StateModel>::empty());
    assert(mh == MachineModel {
        cur: parent0,
        stack: mg.stack.drop_last(),
        tree: mg.tree.insert(1, mg.cur.points),
        last_id: 2,
    });
    assert(run_from(g, acts, s, d, mg) == run_from(g, acts, s, d + 1, mh));

    let wpe = walk_points(g, acts, s, d + 1, len, marked1, aa);
    lemma_line_walk(g, acts, s, d + 1, len, mh);
    let mi = MachineModel {
        cur: StateModel {
            id: 0,
            points: mh.cur.points + wpe,
            pending: walk_pending(g, acts, s, d + 1, len, marked1, aa),
            angle: walk_angle(g, acts, s, d + 1, len, aa),
        },
        stack: mh.stack,
        tree: mh.tree,
        last_id: 2,
    };
    assert(run_from(g, acts, s, d + 1, mh) == run_from(g, acts, s, len, mi));
    assert(run_from(g, acts, s, len, mi) == RunOutcome::Good(mi));

    let o = interpret_spec(g, acts, s);
    assert(o == RunOutcome::Good(mi));
    let t = finalize(mi);
    assert(t.dom() =~= set![0int, 1int, 2int]);
    assert(md.cur.points + wpc2 =~= wpc2);
    assert(t[2] == wpc2);
    assert((mb.cur.points + wpb) + wpd =~= wpb + wpd);
    assert(t[1] == wpb + wpd);
    assert((m0.cur.points + wpa) + wpe =~= wpa + wpe);
    assert(t[0] == wpa + wpe);

    lemma_walk_shape(g, acts, s, b + 1, c, split2, ab);
    if count_draws(acts, s, b + 1, c) > 0 {
        assert(t[2][0] == wpc2[0]);
        assert(wpc2[0] == split2);
    }
    lemma_walk_shape(g, acts, s, c + 1, d, marked2, ab);
    if count_draws(acts, s, c + 1, d) > 0 {
        assert(wpb.len() == count_draws(acts, s, a + 1, b));
        assert(t[1][count_draws(acts, s, a + 1, b)] == wpd[0]);
        assert(wpd[0] == marked2);
    }
    lemma_walk_shape(g, acts, s, d + 1, len, marked1, aa);
    if count_draws(acts, s, d + 1, len) > 0 {
        assert(wpa.len() == count_draws(acts, s, 0, a));
        assert(t[0][count_draws(acts, s, 0, a)] == wpe[0]);
        assert(wpe[0] == marked1);
    }
}

} // verus!
