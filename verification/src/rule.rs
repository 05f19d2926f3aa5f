use vstd::prelude::*;

verus! {

/// The turtle action a symbol stands for when a symbol string is interpreted.
#[derive(Clone, Copy, Debug, PartialEq, Eq, Structural)]
pub enum LsystemAction {
    DrawForward,
    BranchStart,
    BranchEnd,
    TurnLeft,
    TurnRight,
}

/// One rule of an L-system: a symbol, the string it rewrites to in one
/// generation of expansion, and the turtle action it stands for during
/// interpretation.  The two meanings are configured together but are
/// independent of each other.
pub struct Rule {
    pub ch: char,
    pub to: String,
    pub action: LsystemAction,
}

impl Rule {
    pub fn new(ch: char, to: String, action: LsystemAction) -> (r: Rule)
        ensures
            r.ch == ch,
            r.to@ == to@,
            r.action == action,
    {
        Rule { ch, to, action }
    }
}

} // verus!
