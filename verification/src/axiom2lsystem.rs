use vstd::prelude::*;
use vstd::string::*;

use crate::assoc::{assoc_map, lemma_assoc_map_found, lemma_assoc_map_skip};
use crate::rule::Rule;

verus! {

/// Rewrites every symbol of `s` in one pass: the concatenation, left to
/// right, of the replacement of each symbol.  A symbol without a rule
/// contributes an arbitrary value here; `all_mapped` says when that case
/// cannot arise.
pub open spec fn rewrite_all(rules: Map<char, Seq<char>>, s: Seq<char>) -> Seq<char>
    decreases s.len(),
{
    if s.len() == 0 {
        Seq::empty()
    } else {
        rules[s[0]] + rewrite_all(rules, s.drop_first())
    }
}

/// Every symbol of `s` has a replacement rule.
pub open spec fn all_mapped(rules: Map<char, Seq<char>>, s: Seq<char>) -> bool {
    forall|i: int| 0 <= i < s.len() ==> rules.dom().contains(#[trigger] s[i])
}

/// The string after `n` whole generations of rewriting, starting from `s`.
pub open spec fn expand_gen(rules: Map<char, Seq<char>>, s: Seq<char>, n: nat) -> Seq<char>
    decreases n,
{
    if n == 0 {
        s
    } else {
        rewrite_all(rules, expand_gen(rules, s, (n - 1) as nat))
    }
}

/// Every symbol met while rewriting the first `n` generations has a rule.
pub open spec fn gens_ok(rules: Map<char, Seq<char>>, s: Seq<char>, n: nat) -> bool {
    forall|g: nat| g < n ==> all_mapped(rules, #[trigger] expand_gen(rules, s, g))
}

/// The leftmost symbol of `s` that has no rule.
pub open spec fn first_unmapped(rules: Map<char, Seq<char>>, s: Seq<char>) -> char
    decreases s.len(),
{
    if s.len() == 0 {
        arbitrary()
    } else if !rules.dom().contains(s[0]) {
        s[0]
    } else {
        first_unmapped(rules, s.drop_first())
    }
}

/// Expansion failed: the leftmost symbol without a rule in the string of the
/// named generation (0-based), whose rewriting met it.
#[derive(Clone, Copy, Debug, PartialEq, Eq, Structural)]
pub enum ExpandError {
    UnresolvedSymbol { symbol: char, generation: usize },
}

/// Rewriting one more symbol appends that symbol's replacement.
proof fn lemma_rewrite_all_snoc(rules: Map<char, Seq<char>>, s: Seq<char>, i: int)
    requires
        0 <= i < s.len(),
    ensures
        rewrite_all(rules, s.take(i + 1)) == rewrite_all(rules, s.take(i)) + rules[s[i]],
    decreases i,
{
    if i == 0 {
        assert(s.take(1).drop_first() =~= Seq::<char>::empty());
        assert(s.take(1)[0] == s[0]);
        assert(rewrite_all(rules, Seq::<char>::empty()) == Seq::<char>::empty());
        assert(rewrite_all(rules, s.take(1)) == rules[s[0]] + Seq::<char>::empty());
        assert(s.take(0) =~= Seq::<char>::empty());
        assert(rewrite_all(rules, s.take(1)) =~= rewrite_all(rules, s.take(0)) + rules[s[0]]);
    } else {
        let d = s.drop_first();
        lemma_rewrite_all_snoc(rules, d, i - 1);
        assert(s.take(i + 1).drop_first() =~= d.take(i));
        assert(s.take(i).drop_first() =~= d.take(i - 1));
        assert(d[i - 1] == s[i]);
        assert(rewrite_all(rules, s.take(i + 1)) == rules[s[0]] + rewrite_all(rules, d.take(i)));
        assert(rewrite_all(rules, s.take(i)) == rules[s[0]] + rewrite_all(rules, d.take(i - 1)));
        assert(rules[s[0]] + (rewrite_all(rules, d.take(i - 1)) + rules[s[i]]) =~= (rules[s[0]]
            + rewrite_all(rules, d.take(i - 1))) + rules[s[i]]);
    }
}

/// If everything before position `i` is mapped and `s[i]` is not, then `s[i]`
/// is the leftmost unmapped symbol.
proof fn lemma_first_unmapped_at(rules: Map<char, Seq<char>>, s: Seq<char>, i: int)
    requires
        0 <= i < s.len(),
        all_mapped(rules, s.take(i)),
        !rules.dom().contains(s[i]),
    ensures
        first_unmapped(rules, s) == s[i],
        !all_mapped(rules, s),
    decreases i,
{
    if i == 0 {
    } else {
        let d = s.drop_first();
        assert(s.take(i)[0] == s[0]);
        assert(rules.dom().contains(s[0]));
        assert(d.take(i - 1) =~= s.take(i).drop_first());
        assert forall|j: int| 0 <= j < i - 1 implies rules.dom().contains(
            #[trigger] d.take(i - 1)[j],
        ) by {
            assert(d.take(i - 1)[j] == s.take(i)[j + 1]);
        }
        lemma_first_unmapped_at(rules, d, i - 1);
    }
}

/// Expands a start string by a symbol-to-string grammar over a fixed number of
/// generations.  Rules are registered one by one; registering a second rule
/// for the same symbol replaces the first.
pub struct Axiom2Lsystem {
    start: String,
    rules: Vec<(char, String)>,
}

impl Axiom2Lsystem {
    /// The start string as a sequence of symbols.
    pub closed spec fn start_spec(&self) -> Seq<char> {
        self.start@
    }

    /// The registered grammar: symbol to replacement string.
    pub closed spec fn rules_spec(&self) -> Map<char, Seq<char>> {
        assoc_map(self.entries())
    }

    closed spec fn entries(&self) -> Seq<(char, Seq<char>)> {
        self.rules@.map_values(|p: (char, String)| (p.0, p.1@))
    }

    pub fn new(start: String) -> (r: Axiom2Lsystem)
        ensures
            r.start_spec() == start@,
            r.rules_spec() == Map::<char, Seq<char>>::empty(),
    {
        let r = Axiom2Lsystem { start, rules: Vec::new() };
        proof {
            assert(r.entries() =~= Seq::<(char, Seq<char>)>::empty());
        }
        r
    }

    /// Registers `rule`'s rewrite mapping; a later rule for the same symbol
    /// wins.
    pub fn add_rule(&mut self, rule: &Rule)
        ensures
            final (self).start_spec() == old(self).start_spec(),
            final (self).rules_spec() == old(self).rules_spec().insert(rule.ch, rule.to@),
    {
        let to = rule.to.clone();
        self.rules.push((rule.ch, to));
        proof {
            assert(self.entries() =~= old(self).entries().push((rule.ch, rule.to@)));
            assert(self.entries().drop_last() =~= old(self).entries());
        }
    }

    /// Looks the replacement of `c` up in the registered grammar.
    fn find_rule(&self, c: char) -> (r: Option<&String>)
        ensures
            match r {
                Some(s) => self.rules_spec().dom().contains(c) && s@ == self.rules_spec()[c],
                None => !self.rules_spec().dom().contains(c),
            },
    {
        let mut i = self.rules.len();
        while i > 0
            invariant
                i <= self.rules.len(),
                forall|j: int| i <= j < self.entries().len() ==> (#[trigger] self.entries()[j]).0
                    != c,
            decreases i,
        {
            i = i - 1;
            if self.rules[i].0 == c {
                proof {
                    lemma_assoc_map_found(self.entries(), i as int);
                }
                return Some(&self.rules[i].1);
            }
        }
        proof {
            lemma_assoc_map_skip(self.entries(), 0, c);
            assert(self.entries().take(0) =~= Seq::<(char, Seq<char>)>::empty());
        }
        None
    }

    /// Expands the start string over `lvl` generations: each generation rewrites
    /// every symbol of the current string by its rule, left to right.  Zero
    /// generations return the start string unchanged.  A symbol without a rule fails
    /// the whole call with `UnresolvedSymbol` naming that symbol (the
    /// leftmost such) and the generation that met it; no partial string is
    /// returned.
    pub fn build(&self, lvl: usize) -> (r: Result<String, ExpandError>)
        ensures
            r is Ok <==> gens_ok(self.rules_spec(), self.start_spec(), lvl as nat),
            r matches Ok(out) ==> out@ == expand_gen(
                self.rules_spec(),
                self.start_spec(),
                lvl as nat,
            ),
            r matches Err(ExpandError::UnresolvedSymbol { symbol, generation }) ==> {
                let cur = expand_gen(self.rules_spec(), self.start_spec(), generation as nat);
                &&& generation < lvl
                &&& gens_ok(self.rules_spec(), self.start_spec(), generation as nat)
                &&& !all_mapped(self.rules_spec(), cur)
                &&& symbol == first_unmapped(self.rules_spec(), cur)
            },
            lvl == 0 ==> (r matches Ok(out) && out@ == self.start_spec()),
    {
        let rules = Ghost(self.rules_spec());
        let base = Ghost(self.start_spec());
        let mut current = self.start.clone();
        let mut g: usize = 0;
        while g < lvl
            invariant
                g <= lvl,
                rules@ == self.rules_spec(),
                base@ == self.start_spec(),
                current@ == expand_gen(rules@, base@, g as nat),
                gens_ok(rules@, base@, g as nat),
            decreases lvl - g,
        {
            let mut temp = String::new();
            let n = current.unicode_len();
            let mut i: usize = 0;
            while i < n
                invariant
                    i <= n,
                    n == current@.len(),
                    g < lvl,
                    rules@ == self.rules_spec(),
                    base@ == self.start_spec(),
                    current@ == expand_gen(rules@, base@, g as nat),
                    gens_ok(rules@, base@, g as nat),
                    all_mapped(rules@, current@.take(i as int)),
                    temp@ == rewrite_all(rules@, current@.take(i as int)),
                decreases n - i,
            {
                let c = current.as_str().get_char(i);
                match self.find_rule(c) {
                    Some(rep) => {
                        temp.append(rep.as_str());
                        proof {
                            lemma_rewrite_all_snoc(rules@, current@, i as int);
                            assert(all_mapped(rules@, current@.take(i + 1))) by {
                                assert forall|j: int| 0 <= j < i + 1 implies rules@.dom().contains(
                                    #[trigger] current@.take(i + 1)[j],
                                ) by {
                                    if j < i {
                                        assert(current@.take(i + 1)[j] == current@.take(
                                            i as int,
                                        )[j]);
                                    }
                                }
                            }
                        }
                    },
                    None => {
                        proof {
                            lemma_first_unmapped_at(rules@, current@, i as int);
                            assert(!gens_ok(rules@, base@, lvl as nat)) by {
                                assert(!all_mapped(rules@, expand_gen(rules@, base@, g as nat)));
                            }
                        }
                        return Err(ExpandError::UnresolvedSymbol { symbol: c, generation: g });
                    },
                }
                i = i + 1;
            }
            proof {
                assert(current@.take(n as int) =~= current@);
                assert(expand_gen(rules@, base@, (g + 1) as nat) == rewrite_all(
                    rules@,
                    expand_gen(rules@, base@, g as nat),
                ));
                assert(gens_ok(rules@, base@, (g + 1) as nat)) by {
                    assert forall|h: nat| h < g + 1 implies all_mapped(
                        rules@,
                        #[trigger] expand_gen(rules@, base@, h),
                    ) by {
                        if h < g as nat {
                        } else {
                            assert(h == g as nat);
                        }
                    }
                }
            }
            current = temp;
            g = g + 1;
        }
        Ok(current)
    }
}

} // verus!
