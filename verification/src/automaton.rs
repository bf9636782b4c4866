//! The mathematical model of a compiled pattern: a nondeterministic automaton whose
//! states either consume one character or pass control on, and what it means for
//! such an automaton to match.

use crate::lexer::SetSymbol;
use vstd::prelude::*;

verus! {

/// What a state does when control reaches it.
pub enum StateKind {
    /// Consumes exactly this character.
    Symbol(char),
    /// Consumes any character.
    Any,
    /// Consumes a character that one of the members admits.
    InSet(Seq<SetSymbol>),
    /// Consumes a character that none of the members admits.
    NotSet(Seq<SetSymbol>),
    /// Marks the end of a match.
    Accept,
    /// Consumes nothing and passes control to its successors.
    Epsilon,
}

/// One state: its kind and the indices of its successors.
pub struct State {
    pub kind: StateKind,
    pub next: Seq<usize>,
}

/// An automaton: its states, addressed by index, and the index of the state in
/// which every run starts.
pub struct Automaton {
    pub states: Seq<State>,
    pub start: usize,
}

/// Whether a class member admits `c`: the character itself, or one whose ordinal
/// lies between the bounds of the range, both included.
pub open spec fn member_matches(member: SetSymbol, c: char) -> bool {
    match member {
        SetSymbol::Char(x) => x == c,
        SetSymbol::Range(low, high) => low <= c as u32 <= high,
    }
}

/// Whether some member of a class admits `c`.
pub open spec fn in_set(members: Seq<SetSymbol>, c: char) -> bool {
    exists|i: int| 0 <= i < members.len() && member_matches(#[trigger] members[i], c)
}

impl StateKind {
    /// Whether a state of this kind consumes the character `c`.
    pub open spec fn consumes(self, c: char) -> bool {
        match self {
            StateKind::Symbol(x) => x == c,
            StateKind::Any => true,
            StateKind::InSet(members) => in_set(members, c),
            StateKind::NotSet(members) => !in_set(members, c),
            StateKind::Accept => false,
            StateKind::Epsilon => false,
        }
    }
}

/// Whether every successor index in `states` names one of them.
pub open spec fn edges_in_range(states: Seq<State>) -> bool {
    forall|q: int, k: int|
        0 <= q < states.len() && 0 <= k < states[q].next.len() ==> (#[trigger] states[q].next[k])
            < states.len()
}

/// Whether `after` holds the states of `before` at their indices and with their
/// kinds, and no accepting state besides.
pub open spec fn extends(before: Seq<State>, after: Seq<State>) -> bool {
    &&& before.len() <= after.len()
    &&& forall|q: int| 0 <= q < before.len() ==> (#[trigger] after[q]).kind == before[q].kind
    &&& forall|q: int| before.len() <= q < after.len() ==> !((#[trigger] after[q]).kind is Accept)
}

impl Automaton {
    /// The last state is the only accepting one, and it has no successor.
    pub open spec fn accepts_last(self) -> bool {
        &&& self.states.len() >= 2
        &&& self.states.last().kind is Accept
        &&& self.states.last().next.len() == 0
        &&& forall|q: int|
            0 <= q < self.states.len() - 1 ==> !((#[trigger] self.states[q]).kind is Accept)
    }

    /// Every index in the automaton names one of its states.
    pub open spec fn wf(self) -> bool {
        &&& self.start < self.states.len()
        &&& edges_in_range(self.states)
    }

    /// One move of a run over `text`: from state `q` at position `p` to its
    /// successor `r` at position `p2`. An epsilon state keeps the position; a
    /// consuming state needs a character that it consumes and moves one position
    /// on; an accepting state has no move.
    pub open spec fn step(self, text: Seq<char>, p: int, q: usize, p2: int, r: usize) -> bool {
        &&& q < self.states.len()
        &&& self.states[q as int].next.contains(r)
        &&& if self.states[q as int].kind is Epsilon {
            p2 == p
        } else {
            &&& 0 <= p < text.len()
            &&& self.states[q as int].kind.consumes(text[p])
            &&& p2 == p + 1
        }
    }

    /// Whether a run that starts at position `from` is in state `q` at position `p`
    /// after exactly `steps` moves.
    pub open spec fn reaches_in(
        self,
        text: Seq<char>,
        from: int,
        steps: nat,
        p: int,
        q: usize,
    ) -> bool
        decreases steps,
    {
        if steps == 0 {
            p == from && q == self.start
        } else {
            exists|p0: int, q0: usize|
                #![trigger self.step(text, p0, q0, p, q)]
                self.reaches_in(text, from, (steps - 1) as nat, p0, q0) && self.step(
                    text,
                    p0,
                    q0,
                    p,
                    q,
                )
        }
    }

    /// Whether some run that starts at position `from` is in state `q` at `p`.
    pub open spec fn reaches(self, text: Seq<char>, from: int, p: int, q: usize) -> bool {
        exists|steps: nat| self.reaches_in(text, from, steps, p, q)
    }

    /// Whether some run that starts at `from` is at position `p` in any state.
    pub open spec fn alive(self, text: Seq<char>, from: int, p: int) -> bool {
        exists|q: usize| self.reaches(text, from, p, q)
    }

    /// Whether some run that starts at `from` is in an accepting state at `end`.
    pub open spec fn accepts_at(self, text: Seq<char>, from: int, end: int) -> bool {
        exists|q: usize|
            #![trigger self.reaches(text, from, end, q)]
            self.reaches(text, from, end, q) && q < self.states.len()
                && self.states[q as int].kind is Accept
    }

    /// The last position in `from ..= upto` at which a run from `from` accepts, and
    /// `from` where there is none.
    pub open spec fn best_end(self, text: Seq<char>, from: int, upto: int) -> int
        decreases upto - from,
    {
        if upto <= from {
            from
        } else if self.accepts_at(text, from, upto) {
            upto
        } else {
            self.best_end(text, from, upto - 1)
        }
    }

    /// The length of the longest match that starts at `from`: 0 where no run
    /// accepts, and at or behind the end of the text.
    pub open spec fn longest_match(self, text: Seq<char>, from: int) -> int {
        if 0 <= from < text.len() {
            self.best_end(text, from, text.len() as int) - from
        } else {
            0
        }
    }

    /// The matches that a scan from position `from` to the end finds, as pairs of
    /// start and length: at each position the longest match; behind a match that is
    /// not empty the scan goes on at its end, else at the next position.
    pub open spec fn scan(self, text: Seq<char>, from: int) -> Seq<(usize, usize)>
        decreases text.len() - from,
    {
        if 0 <= from < text.len() {
            let length = self.longest_match(text, from);
            if length > 0 {
                proof {
                    self.lemma_best_end_bounds(text, from, text.len() as int);
                }
                seq![(from as usize, length as usize)] + self.scan(text, from + length)
            } else {
                self.scan(text, from + 1)
            }
        } else {
            Seq::empty()
        }
    }

    /// Whether a match that is not empty starts at some position of the text.
    pub open spec fn matches_somewhere(self, text: Seq<char>) -> bool {
        exists|i: int| 0 <= i < text.len() && #[trigger] self.longest_match(text, i) > 0
    }

    /// Whether no match that is not empty starts before position `upto`.
    pub open spec fn no_match_before(self, text: Seq<char>, upto: int) -> bool {
        forall|i: int| 0 <= i < upto ==> #[trigger] self.longest_match(text, i) == 0
    }

    /// The first match of a scan from the start of the text: the longest match at
    /// the first position at which one that is not empty starts.
    pub open spec fn first_match(self, text: Seq<char>, span: Option<(usize, usize)>) -> bool {
        match span {
            Some((start, length)) => {
                &&& start < text.len()
                &&& length > 0
                &&& length == self.longest_match(text, start as int)
                &&& self.no_match_before(text, start as int)
            },
            None => self.no_match_before(text, text.len() as int),
        }
    }

    /// The best end is a position at which a run accepts, unless it is the start;
    /// and no run accepts behind it up to the bound.
    pub proof fn lemma_best_end(self, text: Seq<char>, from: int, upto: int)
        ensures
            self.best_end(text, from, upto) > from ==> self.accepts_at(
                text,
                from,
                self.best_end(text, from, upto),
            ),
            forall|p: int|
                self.best_end(text, from, upto) < p <= upto && from < p ==> !self.accepts_at(
                    text,
                    from,
                    p,
                ),
        decreases upto - from,
    {
        if upto > from && !self.accepts_at(text, from, upto) {
            self.lemma_best_end(text, from, upto - 1);
        }
    }

    /// The longest match is a match and the longest: where its length is not 0 a
    /// run accepts at its end, and no run accepts behind its end.
    pub proof fn lemma_longest_match(self, text: Seq<char>, from: int)
        requires
            0 <= from < text.len(),
        ensures
            self.longest_match(text, from) > 0 ==> self.accepts_at(
                text,
                from,
                from + self.longest_match(text, from),
            ),
            forall|end: int|
                from + self.longest_match(text, from) < end <= text.len() ==> !self.accepts_at(
                    text,
                    from,
                    end,
                ),
    {
        self.lemma_best_end(text, from, text.len() as int);
        self.lemma_best_end_bounds(text, from, text.len() as int);
    }

    /// A match never ends behind the end of the text.
    pub proof fn lemma_longest_match_bounds(self, text: Seq<char>, from: int)
        ensures
            0 <= self.longest_match(text, from),
            0 <= from <= text.len() ==> from + self.longest_match(text, from) <= text.len(),
    {
        self.lemma_best_end_bounds(text, from, text.len() as int);
    }

    /// The states in which a run can enter position `p`: the start state at the
    /// first position, and the successors of the states that consumed the character
    /// before `p`.
    pub open spec fn enters(self, text: Seq<char>, from: int, p: int, r: usize) -> bool {
        ||| p == from && r == self.start
        ||| exists|q0: usize|
            #![trigger self.step(text, p - 1, q0, p, r)]
            self.reaches(text, from, p - 1, q0) && self.step(text, p - 1, q0, p, r)
    }

    /// A run that has reached `(p, q)` and makes one more move has reached where the
    /// move leads.
    pub proof fn lemma_reaches_step(
        self,
        text: Seq<char>,
        from: int,
        p: int,
        q: usize,
        p2: int,
        r: usize,
    )
        requires
            self.reaches(text, from, p, q),
            self.step(text, p, q, p2, r),
        ensures
            self.reaches(text, from, p2, r),
    {
        let steps = choose|steps: nat| self.reaches_in(text, from, steps, p, q);
        assert(self.reaches_in(text, from, (steps + 1) as nat, p2, r));
    }

    /// The start state is reached at the first position.
    pub proof fn lemma_reaches_start(self, text: Seq<char>, from: int)
        ensures
            self.reaches(text, from, from, self.start),
    {
        assert(self.reaches_in(text, from, 0, from, self.start));
    }

    /// A state that enters a position behind the first was passed on by a state that
    /// consumed the character before.
    pub proof fn lemma_enters_later(self, text: Seq<char>, from: int, p: int, r: usize) -> (q0:
        usize)
        requires
            self.enters(text, from, p, r),
            from < p,
        ensures
            self.reaches(text, from, p - 1, q0),
            self.step(text, p - 1, q0, p, r),
    {
        choose|q0: usize|
            #![trigger self.step(text, p - 1, q0, p, r)]
            self.reaches(text, from, p - 1, q0) && self.step(text, p - 1, q0, p, r)
    }

    /// No state but the start state enters the first position.
    pub proof fn lemma_enters_first(self, text: Seq<char>, from: int, r: usize)
        requires
            self.enters(text, from, from, r),
        ensures
            r == self.start,
    {
        if r != self.start {
            let q0 = choose|q0: usize|
                #![trigger self.step(text, from - 1, q0, from, r)]
                self.reaches(text, from, from - 1, q0) && self.step(text, from - 1, q0, from, r);
            self.lemma_reaches_bounds(text, from, from - 1, q0);
        }
    }

    /// A set of states that holds every state entering position `p` and, with each
    /// epsilon state, its successors, holds every state reached at `p`.
    pub proof fn lemma_closure_complete_in(
        self,
        text: Seq<char>,
        from: int,
        p: int,
        visited: Seq<bool>,
        steps: nat,
        q: usize,
    )
        requires
            visited.len() == self.states.len(),
            edges_in_range(self.states),
            self.start < self.states.len(),
            forall|r: usize| self.enters(text, from, p, r) ==> visited[r as int],
            forall|q0: usize, r: usize|
                #![trigger self.step(text, p, q0, p, r)]
                q0 < self.states.len() && visited[q0 as int] && self.step(text, p, q0, p, r)
                    ==> visited[r as int],
            self.reaches_in(text, from, steps, p, q),
        ensures
            q < self.states.len(),
            visited[q as int],
        decreases steps,
    {
        if steps == 0 {
            assert(self.enters(text, from, p, q));
        } else {
            let (p0, q0) = choose|p0: int, q0: usize|
                #![trigger self.step(text, p0, q0, p, q)]
                self.reaches_in(text, from, (steps - 1) as nat, p0, q0) && self.step(
                    text,
                    p0,
                    q0,
                    p,
                    q,
                );
            let k = choose|k: int|
                0 <= k < self.states[q0 as int].next.len() && self.states[q0 as int].next[k] == q;
            assert(self.states[q0 as int].next[k] < self.states.len());
            if p0 == p {
                self.lemma_closure_complete_in(text, from, p, visited, (steps - 1) as nat, q0);
            } else {
                assert(self.reaches(text, from, p - 1, q0));
                assert(self.enters(text, from, p, q));
            }
        }
    }

    /// A set of states that holds every state entering position `p` and, with each
    /// epsilon state, its successors, holds every state reached at `p`.
    pub proof fn lemma_closure_complete(
        self,
        text: Seq<char>,
        from: int,
        p: int,
        visited: Seq<bool>,
        q: usize,
    )
        requires
            visited.len() == self.states.len(),
            self.wf(),
            forall|r: usize| self.enters(text, from, p, r) ==> visited[r as int],
            forall|q0: usize, r: usize|
                #![trigger self.step(text, p, q0, p, r)]
                q0 < self.states.len() && visited[q0 as int] && self.step(text, p, q0, p, r)
                    ==> visited[r as int],
            self.reaches(text, from, p, q),
        ensures
            q < self.states.len(),
            visited[q as int],
    {
        let steps = choose|steps: nat| self.reaches_in(text, from, steps, p, q);
        self.lemma_closure_complete_in(text, from, p, visited, steps, q);
    }

    /// A run is never before the position at which it started nor, where it
    /// started inside the text, behind the end of the text; and where it is behind
    /// its start, it has been at the position before.
    pub proof fn lemma_reaches_bounds(self, text: Seq<char>, from: int, p: int, q: usize)
        requires
            self.reaches(text, from, p, q),
        ensures
            from <= p,
            from <= text.len() ==> p <= text.len(),
            from < p ==> self.alive(text, from, p - 1),
    {
        let steps = choose|steps: nat| self.reaches_in(text, from, steps, p, q);
        self.lemma_reaches_earlier(text, from, steps, p, q);
    }

    /// A run is never before the position at which it started, and where it is
    /// behind it, it has been at the position before.
    pub proof fn lemma_reaches_earlier(
        self,
        text: Seq<char>,
        from: int,
        steps: nat,
        p: int,
        q: usize,
    )
        requires
            self.reaches_in(text, from, steps, p, q),
        ensures
            from <= p,
            from <= text.len() ==> p <= text.len(),
            from < p ==> self.alive(text, from, p - 1),
        decreases steps,
    {
        if steps > 0 {
            let (p0, q0) = choose|p0: int, q0: usize|
                #![trigger self.step(text, p0, q0, p, q)]
                self.reaches_in(text, from, (steps - 1) as nat, p0, q0) && self.step(
                    text,
                    p0,
                    q0,
                    p,
                    q,
                );
            self.lemma_reaches_earlier(text, from, (steps - 1) as nat, p0, q0);
            if p0 != p {
                assert(self.reaches(text, from, p - 1, q0));
            }
        }
    }

    /// Behind a position that no run reaches, no run reaches any position.
    pub proof fn lemma_nothing_later(self, text: Seq<char>, from: int, dead: int, p: int)
        requires
            from < dead <= p,
            !self.alive(text, from, dead),
        ensures
            !self.alive(text, from, p),
        decreases p - dead,
    {
        if self.alive(text, from, p) && p > dead {
            let q = choose|q: usize| self.reaches(text, from, p, q);
            self.lemma_reaches_bounds(text, from, p, q);
            self.lemma_nothing_later(text, from, dead, p - 1);
        }
    }

    /// Where no run accepts behind `last`, the best end up to `upto` is the best end
    /// up to `last`.
    pub proof fn lemma_best_end_stable(self, text: Seq<char>, from: int, last: int, upto: int)
        requires
            from <= last <= upto,
            forall|p: int| last < p <= upto ==> !self.accepts_at(text, from, p),
        ensures
            self.best_end(text, from, upto) == self.best_end(text, from, last),
        decreases upto - last,
    {
        if last < upto {
            self.lemma_best_end_stable(text, from, last, upto - 1);
        }
    }

    /// The best end lies between the start and the bound.
    pub proof fn lemma_best_end_bounds(self, text: Seq<char>, from: int, upto: int)
        ensures
            from <= self.best_end(text, from, upto),
            from <= upto ==> self.best_end(text, from, upto) <= upto,
        decreases upto - from,
    {
        if upto > from && !self.accepts_at(text, from, upto) {
            self.lemma_best_end_bounds(text, from, upto - 1);
        }
    }
}

/// How many entries of `marks` are not set.
pub open spec fn count_unset(marks: Seq<bool>) -> nat
    decreases marks.len(),
{
    if marks.len() == 0 {
        0
    } else {
        count_unset(marks.drop_last()) + if marks.last() {
            0nat
        } else {
            1nat
        }
    }
}

/// Setting an entry that was not set leaves one fewer.
pub proof fn lemma_count_unset_update(marks: Seq<bool>, i: int)
    requires
        0 <= i < marks.len(),
        !marks[i],
    ensures
        count_unset(marks.update(i, true)) + 1 == count_unset(marks),
    decreases marks.len(),
{
    let after = marks.update(i, true);
    if i == marks.len() - 1 {
        assert(after.drop_last() =~= marks.drop_last());
    } else {
        assert(after.drop_last() =~= marks.drop_last().update(i, true));
        lemma_count_unset_update(marks.drop_last(), i);
    }
}

} // verus!
