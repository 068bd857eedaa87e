use vstd::prelude::*;

verus! {

/// A transition that always consumes an alphabet symbol: it carries the
/// symbol and the index of the destination state.
pub struct RealTransition<L> {
    pub symbol: L,
    pub dest: usize,
}

impl<L> RealTransition<L> {
    pub fn new(symbol: L, dest: usize) -> (r: Self)
        ensures
            r.symbol == symbol,
            r.dest == dest,
    {
        RealTransition { symbol, dest }
    }

    /// Gets the symbol associated with this transition.
    pub fn symbol(&self) -> (r: &L)
        ensures
            *r == self.symbol,
    {
        &self.symbol
    }

    /// Gets the destination of this transition.
    pub fn dest(&self) -> (r: usize)
        ensures
            r == self.dest,
    {
        self.dest
    }
}

/// Either an epsilon marker (no input consumed) or an alphabet symbol.
#[derive(Copy, Clone)]
pub enum MaybeEpsilonTransitionKind<L> where L: Copy + Clone {
    Epsilon,
    Symbol(L),
}

impl<L> MaybeEpsilonTransitionKind<L> where L: Copy + Clone {
    pub fn symbol(&self) -> (r: Option<&L>)
        ensures
            (self is Epsilon) ==> (r is None),
            self matches MaybeEpsilonTransitionKind::Symbol(s) ==> (r matches Some(x)
                && *x == s),
    {
        match self {
            Self::Epsilon => None,
            Self::Symbol(x) => Some(x),
        }
    }
}

/// A transition that either consumes an alphabet symbol or is taken
/// silently (epsilon), together with its destination state index.
#[derive(Copy, Clone)]
pub struct MaybeEpsilonTransition<L> where L: Copy + Clone {
    pub kind: MaybeEpsilonTransitionKind<L>,
    pub dest: usize,
}

impl<L> MaybeEpsilonTransition<L> where L: Copy + Clone {
    pub fn new_symbol(symbol: L, dest: usize) -> (r: Self)
        ensures
            r.kind == MaybeEpsilonTransitionKind::Symbol(symbol),
            r.dest == dest,
    {
        Self { dest, kind: MaybeEpsilonTransitionKind::Symbol(symbol) }
    }

    pub fn new_epsilon(dest: usize) -> (r: Self)
        ensures
            r.kind == MaybeEpsilonTransitionKind::<L>::Epsilon,
            r.dest == dest,
    {
        Self { dest, kind: MaybeEpsilonTransitionKind::Epsilon }
    }

    /// Gets the symbol associated with this transition, if it has one.
    pub fn symbol(&self) -> (r: Option<&L>)
        ensures
            (self.kind is Epsilon) ==> (r is None),
            self.kind matches MaybeEpsilonTransitionKind::Symbol(s) ==> (r matches Some(x)
                && *x == s),
    {
        self.kind.symbol()
    }

    /// Gets the destination of this transition.
    pub fn dest(&self) -> (r: usize)
        ensures
            r == self.dest,
    {
        self.dest
    }

    /// Sets the destination of this transition.
    pub fn set_dest(&mut self, dest: usize)
        ensures
            final(self).dest == dest,
            final(self).kind == old(self).kind,
    {
        self.dest = dest;
    }

    /// Returns true if this transition is an epsilon transition.
    pub fn is_epsilon(&self) -> (r: bool)
        ensures
            r == (self.kind is Epsilon),
    {
        match self.kind {
            MaybeEpsilonTransitionKind::Epsilon => true,
            _ => false,
        }
    }

    /// Lossless promotion of a symbol transition; `From` does the same
    /// through the standard trait.
    pub fn from_real(value: RealTransition<L>) -> (r: Self)
        ensures
            r.kind == MaybeEpsilonTransitionKind::Symbol(value.symbol),
            r.dest == value.dest,
    {
        MaybeEpsilonTransition {
            kind: MaybeEpsilonTransitionKind::Symbol(value.symbol),
            dest: value.dest,
        }
    }

    /// Fallible extraction of a symbol transition: fails exactly when this
    /// transition is an epsilon transition.
    pub fn to_real(self) -> (r: Result<RealTransition<L>, String>)
        ensures
            (self.kind is Epsilon) ==> (r is Err),
            self.kind matches MaybeEpsilonTransitionKind::Symbol(s) ==> (r matches Ok(t)
                && t.symbol == s && t.dest == self.dest),
    {
        match self.kind {
            MaybeEpsilonTransitionKind::Epsilon => Err("transition must have a symbol".to_string()),
            MaybeEpsilonTransitionKind::Symbol(sym) => Ok(RealTransition { symbol: sym, dest: self.dest }),
        }
    }
}


impl<L> From<RealTransition<L>> for MaybeEpsilonTransition<L> where L: Copy + Clone {
    fn from(value: RealTransition<L>) -> (r: Self) {
        MaybeEpsilonTransition::from_real(value)
    }
}

impl<L> vstd::std_specs::convert::FromSpecImpl<RealTransition<L>> for MaybeEpsilonTransition<L> where L: Copy + Clone {
    open spec fn obeys_from_spec() -> bool {
        true
    }

    open spec fn from_spec(t: RealTransition<L>) -> Self {
        MaybeEpsilonTransition { kind: MaybeEpsilonTransitionKind::Symbol(t.symbol), dest: t.dest }
    }
}

} // verus!
