use vstd::prelude::*;

use crate::state::{symbol_dests, State};
use crate::symbols_eq_exact;
use crate::transition::RealTransition;

verus! {

/// The reasons for which a builder refuses to produce a machine.
#[derive(Debug, PartialEq, Eq, Structural)]
pub enum NFABuilderError {
    MissingStartIndex,
    MissingStates,
    MissingFinish,
    InvalidStartIndex,
}

/// The four build-time conditions: a start index was set, at least one
/// state exists, at least one state is a finish state, and the start index
/// is within bounds.
pub open spec fn builder_valid<S, T>(states: Seq<State<S, T>>, start: Option<usize>) -> bool {
    &&& start is Some
    &&& states.len() > 0
    &&& exists|i: int| 0 <= i < states.len() && states[i].finish
    &&& start->0 < states.len()
}

/// The error that a builder reports for the given candidate states and
/// start index, checking the four conditions in order (meaningful only
/// when `!builder_valid`).
pub open spec fn builder_error<S, T>(states: Seq<State<S, T>>, start: Option<usize>) -> NFABuilderError {
    if start is None {
        NFABuilderError::MissingStartIndex
    } else if states.len() == 0 {
        NFABuilderError::MissingStates
    } else if !(exists|i: int| 0 <= i < states.len() && states[i].finish) {
        NFABuilderError::MissingFinish
    } else {
        NFABuilderError::InvalidStartIndex
    }
}

/// Accumulates candidate states and a start index for an epsilon-free
/// nondeterministic machine; `build` validates and freezes them.
#[derive(Default)]
pub struct NFABuilder<L, S> {
    pub states: Vec<State<S, RealTransition<L>>>,
    pub start: Option<usize>,
}

impl<L, S> NFABuilder<L, S> {
    /// Appends a state; no validation happens until `build`, so forward
    /// references to indices not yet added are permitted.
    pub fn add_state(&mut self, state: State<S, RealTransition<L>>) -> (r: &mut Self)
        ensures
            (*r).states@ == old(self).states@.push(state),
            (*r).start == old(self).start,
            *final(self) == *final(r),
    {
        self.states.push(state);
        self
    }

    /// Records the intended start index; the last write wins.
    pub fn set_start(&mut self, start: usize) -> (r: &mut Self)
        ensures
            (*r).states@ == old(self).states@,
            (*r).start == Some(start),
            *final(self) == *final(r),
    {
        self.start = Some(start);
        self
    }

    /// Validates the accumulated states and start index, in order: a start
    /// index was set, at least one state exists, at least one state is a
    /// finish state, the start index is in bounds.  On success the states
    /// are moved unchanged into the machine.
    pub fn build(self) -> (r: Result<NFA<L, S>, NFABuilderError>)
        ensures
            (r is Ok) <==> builder_valid(self.states@, self.start),
            r matches Ok(m) ==> {
                &&& m.states@ == self.states@
                &&& Some(m.start) == self.start
                &&& m.wf()
            },
            r matches Err(e) ==> e == builder_error(self.states@, self.start),
    {
        let start = match self.start {
            Some(start) => start,
            None => {
                return Err(NFABuilderError::MissingStartIndex);
            },
        };

        if self.states.len() == 0 {
            return Err(NFABuilderError::MissingStates);
        }

        let mut has_finish = false;
        let n = self.states.len();
        let mut i: usize = 0;
        while i < n
            invariant
                i <= n,
                n == self.states@.len(),
                has_finish == exists|j: int| 0 <= j < i && self.states@[j].finish,
            decreases n - i,
        {
            if self.states[i].is_finish() {
                has_finish = true;
            }
            i += 1;
        }
        if !has_finish {
            return Err(NFABuilderError::MissingFinish);
        }

        if start >= self.states.len() {
            return Err(NFABuilderError::InvalidStartIndex);
        }

        Ok(NFA { start, states: self.states })
    }
}

/// An epsilon-free nondeterministic machine: a vector of symbol-transition
/// states and a validated start index.  Treat it as read-only once built.
pub struct NFA<L, S> {
    pub states: Vec<State<S, RealTransition<L>>>,
    pub start: usize,
}

/// The states that a traversal beginning in state `from` can end in after
/// consuming `symbols`, in depth-first branch order: a branch with no
/// transition on the current symbol dies silently, and an out-of-bounds
/// state index yields no result.
pub open spec fn traverse_spec<L, S>(
    states: Seq<State<S, RealTransition<L>>>,
    from: int,
    symbols: Seq<L>,
) -> Seq<int>
    decreases symbols.len(), 0nat, 0nat,
{
    if !(0 <= from < states.len()) {
        Seq::empty()
    } else if symbols.len() == 0 {
        seq![from]
    } else {
        traverse_fanout_spec(
            states,
            symbol_dests(states[from].transitions@, symbols[0]),
            symbols.drop_first(),
        )
    }
}

/// The concatenation, over the branch destinations `ds` in order, of the
/// states reachable from each after consuming `symbols`.
pub open spec fn traverse_fanout_spec<L, S>(
    states: Seq<State<S, RealTransition<L>>>,
    ds: Seq<usize>,
    symbols: Seq<L>,
) -> Seq<int>
    decreases symbols.len(), 1nat, ds.len(),
{
    if ds.len() == 0 {
        Seq::empty()
    } else {
        traverse_spec(states, ds[0] as int, symbols) + traverse_fanout_spec(
            states,
            ds.drop_first(),
            symbols,
        )
    }
}

/// All members of `s` are valid indices into a vector of length `n`.
pub open spec fn indices_in_bounds(s: Seq<int>, n: int) -> bool {
    forall|i: int| 0 <= i < s.len() ==> 0 <= #[trigger] s[i] < n
}

/// Every index that a traversal reports is a valid state index.
proof fn lemma_traverse_spec_in_bounds<L, S>(
    states: Seq<State<S, RealTransition<L>>>,
    from: int,
    symbols: Seq<L>,
)
    ensures
        indices_in_bounds(traverse_spec(states, from, symbols), states.len() as int),
    decreases symbols.len(), 0nat, 0nat,
{
    if !(0 <= from < states.len()) {
    } else if symbols.len() == 0 {
        assert forall|i: int|
            0 <= i < traverse_spec(states, from, symbols).len() implies 0
            <= #[trigger] traverse_spec(states, from, symbols)[i] < states.len() by {
            assert(traverse_spec(states, from, symbols)[i] == from);
        }
    } else {
        lemma_traverse_fanout_in_bounds(
            states,
            symbol_dests(states[from].transitions@, symbols[0]),
            symbols.drop_first(),
        );
    }
}

/// Indexing a concatenation reads from one of the two halves.
proof fn lemma_concat_index(a: Seq<int>, b: Seq<int>, n: int)
    requires
        indices_in_bounds(a, n),
        indices_in_bounds(b, n),
    ensures
        indices_in_bounds(a + b, n),
{
    assert forall|i: int| 0 <= i < (a + b).len() implies 0 <= #[trigger] (a + b)[i] < n by {
        if i < a.len() {
            assert((a + b)[i] == a[i]);
        } else {
            assert((a + b)[i] == b[i - a.len()]);
        }
    }
}

proof fn lemma_traverse_fanout_in_bounds<L, S>(
    states: Seq<State<S, RealTransition<L>>>,
    ds: Seq<usize>,
    symbols: Seq<L>,
)
    ensures
        indices_in_bounds(traverse_fanout_spec(states, ds, symbols), states.len() as int),
    decreases symbols.len(), 1nat, ds.len(),
{
    if ds.len() == 0 {
    } else {
        lemma_traverse_spec_in_bounds(states, ds[0] as int, symbols);
        lemma_traverse_fanout_in_bounds(states, ds.drop_first(), symbols);
        lemma_concat_index(
            traverse_spec(states, ds[0] as int, symbols),
            traverse_fanout_spec(states, ds.drop_first(), symbols),
            states.len() as int,
        );
    }
}

impl<L, S> NFA<L, S> {
    /// A built machine is non-empty and its start index is in bounds.
    pub open spec fn wf(self) -> bool {
        self.start < self.states@.len()
    }

    /// Bounds-checked state lookup.
    pub fn get_state(&self, s: usize) -> (r: Option<&State<S, RealTransition<L>>>)
        ensures
            (r is Some) <==> s < self.states@.len(),
            r matches Some(st) ==> *st == self.states@[s as int],
    {
        if s < self.states.len() {
            Some(&self.states[s])
        } else {
            None
        }
    }

    /// The start state; the start index was validated at build time.
    pub fn get_start(&self) -> (r: &State<S, RealTransition<L>>)
        requires
            self.wf(),
        ensures
            *r == self.states@[self.start as int],
    {
        &self.states[self.start]
    }

    /// Turns the machine back into a builder seeded with its states and
    /// start index, for incremental extension.
    pub fn into_builder(self) -> (r: NFABuilder<L, S>)
        ensures
            r.states@ == self.states@,
            r.start == Some(self.start),
    {
        NFABuilder { states: self.states, start: Some(self.start) }
    }
}

impl<L, S> NFA<L, S> where L: PartialEq {
    #[verifier::rlimit(50)]
    #[verifier::loop_isolation(false)]
    fn traverse_rec<'a>(&'a self, from: usize, symbols: &Vec<L>, pos: usize) -> (r: Vec<
        &'a State<S, RealTransition<L>>,
    >)
        requires
            pos <= symbols@.len(),
        ensures
            symbols_eq_exact::<L>() ==> {
                let sp = traverse_spec(self.states@, from as int, symbols@.skip(pos as int));
                &&& r@.len() == sp.len()
                &&& forall|i: int|
                    0 <= i < sp.len() ==> 0 <= sp[i] < self.states@.len() && *#[trigger] r@[i]
                        == self.states@[sp[i]]
            },
        decreases symbols@.len() - pos, 0nat,
    {
        proof {
            lemma_traverse_spec_in_bounds(self.states@, from as int, symbols@.skip(pos as int));
        }
        if from >= self.states.len() {
            return Vec::new();
        }
        let curr = &self.states[from];
        let sym_len = symbols.len();
        if pos == sym_len {
            let mut one: Vec<&'a State<S, RealTransition<L>>> = Vec::new();
            one.push(curr);
            proof {
                assert(symbols@.skip(pos as int).len() == 0);
            }
            return one;
        }

        assert(pos < sym_len);
        let next_indices = curr.next(&symbols[pos]);
        proof {
            assert(symbols@.skip(pos as int)[0] == symbols@[pos as int]);
            assert(symbols@.skip(pos as int).drop_first() =~= symbols@.skip(pos as int + 1));
        }
        let ends = self.traverse_fanout_rec(&next_indices, 0, symbols, pos + 1);
        proof {
            if symbols_eq_exact::<L>() {
                assert(next_indices@.skip(0) =~= next_indices@);
            }
        }
        ends
    }

    /// The fan-out step of a traversal: gathers, over the branch
    /// destinations from position `dpos` on, the results of traversing each
    /// on the remaining symbols.
    fn traverse_fanout_rec<'a>(
        &'a self,
        ds: &Vec<usize>,
        dpos: usize,
        symbols: &Vec<L>,
        pos: usize,
    ) -> (r: Vec<&'a State<S, RealTransition<L>>>)
        requires
            pos <= symbols@.len(),
            dpos <= ds@.len(),
        ensures
            symbols_eq_exact::<L>() ==> {
                let sp = traverse_fanout_spec(
                    self.states@,
                    ds@.skip(dpos as int),
                    symbols@.skip(pos as int),
                );
                &&& r@.len() == sp.len()
                &&& forall|i: int|
                    0 <= i < sp.len() ==> 0 <= sp[i] < self.states@.len() && *#[trigger] r@[i]
                        == self.states@[sp[i]]
            },
        decreases symbols@.len() - pos, 1nat, ds@.len() - dpos,
    {
        let ghost rest = symbols@.skip(pos as int);
        proof {
            lemma_traverse_fanout_in_bounds(self.states@, ds@.skip(dpos as int), rest);
        }
        if dpos >= ds.len() {
            proof {
                assert(ds@.skip(dpos as int).len() == 0);
            }
            return Vec::new();
        }
        let mut first = self.traverse_rec(ds[dpos], symbols, pos);
        let mut tail = self.traverse_fanout_rec(ds, dpos + 1, symbols, pos);
        let ghost first_view = first@;
        let ghost tail_view = tail@;
        let ghost firstsp = traverse_spec(self.states@, ds@[dpos as int] as int, rest);
        let ghost tailsp = traverse_fanout_spec(self.states@, ds@.skip(dpos as int + 1), rest);
        first.append(&mut tail);
        proof {
            if symbols_eq_exact::<L>() {
                assert(ds@.skip(dpos as int)[0] == ds@[dpos as int]);
                assert(ds@.skip(dpos as int).drop_first() =~= ds@.skip(dpos as int + 1));
                assert(traverse_fanout_spec(self.states@, ds@.skip(dpos as int), rest) == firstsp
                    + tailsp);
                assert forall|i: int|
                    0 <= i < (firstsp + tailsp).len() implies 0 <= (firstsp + tailsp)[i]
                    < self.states@.len() && *(#[trigger] first@[i]) == self.states@[(firstsp
                    + tailsp)[i]] by {
                    if i < firstsp.len() {
                        assert(first@[i] == first_view[i]);
                        assert((firstsp + tailsp)[i] == firstsp[i]);
                    } else {
                        assert(first@[i] == tail_view[i - first_view.len()]);
                        assert((firstsp + tailsp)[i] == tailsp[i - firstsp.len()]);
                    }
                }
            }
        }
        first
    }

    /// Fans a traversal out from the state with index `from`: at each
    /// symbol every live branch follows all of its matching transitions,
    /// and a branch without one dies silently.  When the symbols are
    /// exhausted, the states of the live branches are reported in
    /// depth-first branch order; an out-of-bounds `from` yields no result.
    pub fn traverse_from<'a>(&'a self, from: usize, symbols: &Vec<L>) -> (r: Vec<
        &'a State<S, RealTransition<L>>,
    >)
        ensures
            symbols_eq_exact::<L>() ==> {
                let sp = traverse_spec(self.states@, from as int, symbols@);
                &&& r@.len() == sp.len()
                &&& forall|i: int|
                    0 <= i < sp.len() ==> 0 <= sp[i] < self.states@.len() && *#[trigger] r@[i]
                        == self.states@[sp[i]]
            },
    {
        let r = self.traverse_rec(from, symbols, 0);
        proof {
            assert(symbols@.skip(0) =~= symbols@);
            lemma_traverse_spec_in_bounds(self.states@, from as int, symbols@);
        }
        r
    }

    /// Traversal from the machine's start state.
    pub fn traverse<'a>(&'a self, symbols: &Vec<L>) -> (r: Vec<
        &'a State<S, RealTransition<L>>,
    >)
        ensures
            symbols_eq_exact::<L>() ==> {
                let sp = traverse_spec(self.states@, self.start as int, symbols@);
                &&& r@.len() == sp.len()
                &&& forall|i: int|
                    0 <= i < sp.len() ==> 0 <= sp[i] < self.states@.len() && *#[trigger] r@[i]
                        == self.states@[sp[i]]
            },
    {
        let r = self.traverse_from(self.start, symbols);
        proof {
            lemma_traverse_spec_in_bounds(self.states@, self.start as int, symbols@);
        }
        r
    }
}

} // verus!
