use vstd::prelude::*;

use crate::symbols_eq_exact;
use crate::transition::{MaybeEpsilonTransition, MaybeEpsilonTransitionKind, RealTransition};

verus! {

/// A node of an automaton: caller-supplied data, an ordered collection of
/// outgoing transitions, and a finish (accept) flag.  The transition type
/// parameter lets the same structure back both the epsilon-free and the
/// epsilon machines.
pub struct State<S, T> {
    /// Arbitrary user data held by this state.
    pub data: S,
    /// The transitions from this state, in insertion order.
    pub transitions: Vec<T>,
    /// Whether or not this state is a finish state.
    pub finish: bool,
}

/// The destinations of the transitions among `trs`, from position `k` on,
/// whose symbol is exactly `symbol`, in order.
pub open spec fn symbol_dests_from<L>(trs: Seq<RealTransition<L>>, symbol: L, k: int) -> Seq<
    usize,
>
    decreases trs.len() - k,
{
    if k < 0 || k >= trs.len() {
        Seq::empty()
    } else {
        (if trs[k].symbol == symbol {
            seq![trs[k].dest]
        } else {
            Seq::empty()
        }) + symbol_dests_from(trs, symbol, k + 1)
    }
}

/// The destinations of all transitions among `trs` on exactly `symbol`,
/// in insertion order.
pub open spec fn symbol_dests<L>(trs: Seq<RealTransition<L>>, symbol: L) -> Seq<usize> {
    symbol_dests_from(trs, symbol, 0)
}

impl<L, S> State<S, RealTransition<L>> where L: PartialEq {
    /// Finds the state indices that the given symbol transitions from this
    /// state to: zero, one or many destinations, in insertion order.
    pub fn next(&self, symbol: &L) -> (r: Vec<usize>)
        ensures
            symbols_eq_exact::<L>() ==> r@ == symbol_dests(self.transitions@, *symbol),
    {
        let mut out: Vec<usize> = Vec::new();
        let n = self.transitions.len();
        let mut i: usize = 0;
        while i < n
            invariant
                i <= n,
                n == self.transitions@.len(),
                symbols_eq_exact::<L>() ==> symbol_dests(self.transitions@, *symbol) == out@
                    + symbol_dests_from(self.transitions@, *symbol, i as int),
            decreases n - i,
        {
            let ghost prev = out@;
            if self.transitions[i].symbol() == symbol {
                out.push(self.transitions[i].dest());
                proof {
                    if symbols_eq_exact::<L>() {
                        assert(prev + symbol_dests_from(self.transitions@, *symbol, i as int)
                            =~= out@ + symbol_dests_from(self.transitions@, *symbol, i + 1));
                    }
                }
            } else {
                proof {
                    if symbols_eq_exact::<L>() {
                        assert(prev + symbol_dests_from(self.transitions@, *symbol, i as int)
                            =~= out@ + symbol_dests_from(self.transitions@, *symbol, i + 1));
                    }
                }
            }
            i += 1;
        }
        proof {
            if symbols_eq_exact::<L>() {
                assert(out@ + symbol_dests_from(self.transitions@, *symbol, n as int) =~= out@);
            }
        }
        out
    }
}

impl<S, T> State<S, T> {
    /// Creates a new State with the given internal data and no transitions.
    pub fn new(finish: bool, data: S) -> (r: Self)
        ensures
            r.data == data,
            r.finish == finish,
            r.transitions@ == Seq::<T>::empty(),
    {
        State { data, transitions: Vec::new(), finish }
    }

    pub fn is_finish(&self) -> (r: bool)
        ensures
            r == self.finish,
    {
        self.finish
    }

    /// Appends one transition, keeping insertion order.
    pub fn add_transition(&mut self, transition: T)
        ensures
            final(self).data == old(self).data,
            final(self).finish == old(self).finish,
            final(self).transitions@ == old(self).transitions@.push(transition),
    {
        self.transitions.push(transition);
    }

    /// Appends a collection of transitions, keeping their order.
    pub fn add_transitions(&mut self, transitions: Vec<T>)
        ensures
            final(self).data == old(self).data,
            final(self).finish == old(self).finish,
            final(self).transitions@ == old(self).transitions@ + transitions@,
    {
        let mut ts = transitions;
        self.transitions.append(&mut ts);
    }
}

/// The symbol transition standing for an epsilon-or-symbol transition that
/// does carry a symbol (meaningful only when `t.kind` is a symbol).
pub open spec fn real_of<L: Copy>(t: MaybeEpsilonTransition<L>) -> RealTransition<L> {
    RealTransition { symbol: t.kind->Symbol_0, dest: t.dest }
}

impl<L, S> State<S, MaybeEpsilonTransition<L>> where L: Copy {
    /// Converts this state's transitions to symbol-only form; fails exactly
    /// when some transition is an epsilon transition.
    pub fn try_into_real(self) -> (r: Result<State<S, RealTransition<L>>, String>)
        ensures
            (r is Err) <==> (exists|j: int|
                0 <= j < self.transitions@.len() && self.transitions@[j].kind is Epsilon),
            r matches Ok(st) ==> {
                &&& st.data == self.data
                &&& st.finish == self.finish
                &&& st.transitions@ == self.transitions@.map_values(
                    |t: MaybeEpsilonTransition<L>| real_of(t),
                )
            },
    {
        let mut transitions: Vec<RealTransition<L>> = Vec::new();
        let n = self.transitions.len();
        let mut i: usize = 0;
        while i < n
            invariant
                i <= n,
                n == self.transitions@.len(),
                forall|j: int| 0 <= j < i ==> !(self.transitions@[j].kind is Epsilon),
                transitions@ == self.transitions@.take(i as int).map_values(
                    |t: MaybeEpsilonTransition<L>| real_of(t),
                ),
            decreases n - i,
        {
            let t = self.transitions[i];
            match t.kind {
                MaybeEpsilonTransitionKind::Epsilon => {
                    return Err("transition must have a symbol".to_string());
                },
                MaybeEpsilonTransitionKind::Symbol(sym) => {
                    transitions.push(RealTransition { symbol: sym, dest: t.dest });
                },
            }
            proof {
                assert(self.transitions@.take(i + 1).map_values(
                    |t: MaybeEpsilonTransition<L>| real_of(t),
                ) =~= self.transitions@.take(i as int).map_values(
                    |t: MaybeEpsilonTransition<L>| real_of(t),
                ).push(real_of(self.transitions@[i as int])));
            }
            i += 1;
        }
        proof {
            assert(self.transitions@.take(n as int) =~= self.transitions@);
        }
        Ok(State { data: self.data, transitions, finish: self.finish })
    }
}

} // verus!
