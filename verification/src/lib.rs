use vstd::prelude::*;
use vstd::std_specs::cmp::PartialEqSpec;

pub mod nfa;
pub mod nfae;
pub mod state;
pub mod transition;

verus! {

/// The alphabet type's `==` agrees with mathematical equality: it obeys its
/// own specification, and that specification is exact equality.  Holds for
/// the integer types; contracts that compare symbols promise their results
/// under this condition.
pub open spec fn symbols_eq_exact<L: PartialEqSpec>() -> bool {
    &&& L::obeys_eq_spec()
    &&& forall|a: L, b: L| #[trigger] a.eq_spec(&b) <==> a == b
}

/// The mapping that a list of key-value entries denotes: a later entry for
/// the same key overwrites an earlier one.
pub open spec fn entries_map<L>(entries: Seq<(L, usize)>) -> Map<L, usize>
    decreases entries.len(),
{
    if entries.len() == 0 {
        Map::empty()
    } else {
        entries_map(entries.drop_last()).insert(entries.last().0, entries.last().1)
    }
}

proof fn lemma_entries_map_last_match<L>(s: Seq<(L, usize)>, key: L, i: int)
    requires
        0 <= i < s.len(),
        s[i].0 == key,
        forall|j: int| i < j < s.len() ==> (#[trigger] s[j]).0 != key,
    ensures
        entries_map(s).contains_key(key),
        entries_map(s)[key] == s[i].1,
    decreases s.len(),
{
    if i == s.len() - 1 {
    } else {
        assert(s.last().0 != key);
        assert forall|j: int| i < j < s.drop_last().len() implies (#[trigger] s.drop_last()[j]).0
            != key by {
            assert(s.drop_last()[j] == s[j]);
        }
        lemma_entries_map_last_match(s.drop_last(), key, i);
    }
}

proof fn lemma_entries_map_no_match<L>(s: Seq<(L, usize)>, key: L)
    requires
        forall|j: int| 0 <= j < s.len() ==> (#[trigger] s[j]).0 != key,
    ensures
        !entries_map(s).contains_key(key),
    decreases s.len(),
{
    if s.len() > 0 {
        lemma_entries_map_no_match(s.drop_last(), key);
    }
}

/// Looks a key up in an entry list, later entries shadowing earlier ones.
fn entries_get<L: PartialEq>(entries: &Vec<(L, usize)>, key: &L) -> (r: Option<usize>)
    ensures
        symbols_eq_exact::<L>() ==> match r {
            Some(v) => entries_map(entries@).contains_key(*key) && entries_map(entries@)[*key]
                == v,
            None => !entries_map(entries@).contains_key(*key),
        },
{
    let mut i = entries.len();
    while i > 0
        invariant
            i <= entries@.len(),
            symbols_eq_exact::<L>() ==> forall|j: int|
                i <= j < entries@.len() ==> (#[trigger] entries@[j]).0 != *key,
        decreases i,
    {
        i -= 1;
        if entries[i].0 == *key {
            proof {
                if symbols_eq_exact::<L>() {
                    lemma_entries_map_last_match(entries@, *key, i as int);
                }
            }
            return Some(entries[i].1);
        }
    }
    proof {
        if symbols_eq_exact::<L>() {
            lemma_entries_map_no_match(entries@, *key);
        }
    }
    None
}

/// A map whose every destination is moved up by `n`, as happens when one
/// machine's states are spliced after another's.
pub open spec fn shift_map<L>(m: Map<L, usize>, n: int) -> Map<L, usize> {
    Map::new(|k: L| m.contains_key(k), |k: L| (m[k] + n) as usize)
}

/// A deterministic automaton: a non-empty table of states, each a payload
/// together with a transition map holding at most one destination per
/// symbol.  Index 0 is always the start state.
pub struct DFA<L, S> {
    pub states: Vec<(S, Vec<(L, usize)>)>,
}

impl<L, S> View for DFA<L, S> {
    type V = Seq<(S, Map<L, usize>)>;

    open spec fn view(&self) -> Seq<(S, Map<L, usize>)> {
        self.states@.map_values(|p: (S, Vec<(L, usize)>)| (p.0, entries_map(p.1@)))
    }
}

/// Where a deterministic run beginning in `state` lands after consuming
/// `inputs`: at each symbol the single map entry is followed, and a missing
/// entry or an out-of-bounds destination ends the run with no match.
pub open spec fn dfa_run_from<L, S>(
    m: Seq<(S, Map<L, usize>)>,
    state: int,
    inputs: Seq<L>,
) -> Option<int>
    decreases inputs.len(),
{
    if !(0 <= state < m.len()) {
        None
    } else if inputs.len() == 0 {
        Some(state)
    } else if m[state].1.contains_key(inputs[0]) {
        dfa_run_from(m, m[state].1[inputs[0]] as int, inputs.drop_first())
    } else {
        None
    }
}

/// Setting a transition twice for the same symbol leaves only the second
/// destination: the overwrite law of the per-state transition map.
pub proof fn lemma_set_transition_overwrites<L>(m: Map<L, usize>, symbol: L, d1: usize, d2: usize)
    ensures
        m.insert(symbol, d1).insert(symbol, d2) == m.insert(symbol, d2),
{
    assert(m.insert(symbol, d1).insert(symbol, d2) =~= m.insert(symbol, d2));
}

/// A read-only cursor into one state of a machine.
pub struct State<'a, L, S> {
    dfa: &'a DFA<L, S>,
    index: usize,
}

/// A cursor that designates one state of a machine for mutation; the
/// machine itself is passed to each operation.
pub struct MutState {
    index: usize,
}

pub trait Transition {
    type Language;

    type Next;

    fn next(&self, transition: &Self::Language) -> Self::Next;
}

impl<'a, L, S> State<'a, L, S> {
    /// The machine this cursor points into.
    pub closed spec fn machine(self) -> DFA<L, S> {
        *self.dfa
    }

    /// The index of the state this cursor designates.
    pub closed spec fn pos(self) -> int {
        self.index as int
    }

    /// The payload of the state under the cursor.
    pub fn value(&self) -> (r: &'a S)
        requires
            0 <= self.pos() < self.machine()@.len(),
        ensures
            *r == self.machine()@[self.pos()].0,
    {
        &self.dfa.states[self.index].0
    }
}

impl<'a, L, S> State<'a, L, S> where L: PartialEq {
    /// Follows this state's transition for the given symbol: the next
    /// state, or nothing when no transition is set for the symbol or its
    /// destination is out of bounds.
    pub fn next(&self, transition: &L) -> (r: Option<State<'a, L, S>>)
        ensures
            symbols_eq_exact::<L>() && 0 <= self.pos() < self.machine()@.len() ==> {
                let tm = self.machine()@[self.pos()].1;
                match r {
                    Some(st) => st.machine() == self.machine() && tm.contains_key(*transition)
                        && tm[*transition] < self.machine()@.len() && st.pos() == tm[*transition],
                    None => !tm.contains_key(*transition) || tm[*transition]
                        >= self.machine()@.len(),
                }
            },
            self.pos() >= self.machine()@.len() ==> r is None,
    {
        if self.index >= self.dfa.states.len() {
            return None;
        }
        match entries_get(&self.dfa.states[self.index].1, transition) {
            None => None,
            Some(d) => {
                if d < self.dfa.states.len() {
                    Some(State { dfa: self.dfa, index: d })
                } else {
                    None
                }
            },
        }
    }
}

impl<'a, L, S> Transition for State<'a, L, S> where L: PartialEq {
    type Language = L;

    type Next = Option<State<'a, L, S>>;

    fn next(&self, transition: &L) -> Option<State<'a, L, S>> {
        self.next(transition)
    }
}

impl<'a, L, S> Transition for Option<State<'a, L, S>> where L: PartialEq {
    type Language = L;

    type Next = Self;

    fn next(&self, transition: &L) -> Option<State<'a, L, S>> {
        match self {
            None => None,
            Some(state) => state.next(transition),
        }
    }
}

impl MutState {
    /// The index of the state this cursor designates.
    pub closed spec fn pos(self) -> int {
        self.index as int
    }
}

impl<L, S> DFA<L, S> {
    /// A machine always has its start state at index 0.
    pub open spec fn wf(self) -> bool {
        self@.len() >= 1
    }

    /// Creates a machine with exactly one state, index 0, carrying the
    /// given payload and no transitions.
    pub fn new(start: S) -> (r: DFA<L, S>)
        ensures
            r@.len() == 1,
            r@[0].0 == start,
            r@[0].1 == Map::<L, usize>::empty(),
            r.wf(),
    {
        let mut states: Vec<(S, Vec<(L, usize)>)> = Vec::new();
        states.push((start, Vec::new()));
        DFA { states }
    }

    /// A read-only cursor to the start state.
    pub fn get_start(&self) -> (r: State<L, S>)
        requires
            self.wf(),
        ensures
            r.machine() == *self,
            r.pos() == 0,
    {
        State { dfa: self, index: 0 }
    }

    /// A mutation cursor to the start state.
    pub fn get_start_mut(&mut self) -> (r: MutState)
        ensures
            *final(self) == *old(self),
            r.pos() == 0,
    {
        MutState { index: 0 }
    }

    /// A bounds-checked read-only cursor.
    pub fn get_state(&self, index: usize) -> (r: Option<State<L, S>>)
        ensures
            (r is Some) <==> index < self@.len(),
            r matches Some(st) ==> st.machine() == *self && st.pos() == index,
    {
        if index >= self.states.len() {
            return None;
        }
        Some(State { dfa: self, index })
    }

    /// A bounds-checked mutation cursor.
    pub fn get_state_mut(&mut self, index: usize) -> (r: Option<MutState>)
        ensures
            *final(self) == *old(self),
            (r is Some) <==> index < old(self)@.len(),
            r matches Some(ms) ==> ms.pos() == index,
    {
        if index >= self.states.len() {
            return None;
        }
        Some(MutState { index })
    }

    /// Appends a new state with no transitions; the returned cursor
    /// designates it.
    pub fn add_state(&mut self, state: S) -> (r: MutState)
        ensures
            final(self)@ == old(self)@.push((state, Map::<L, usize>::empty())),
            r.pos() == old(self)@.len(),
            old(self).wf() ==> final(self).wf(),
    {
        let index = self.states.len();
        self.states.push((state, Vec::new()));
        proof {
            assert(self@ =~= old(self)@.push((state, Map::<L, usize>::empty())));
        }
        MutState { index }
    }
}

impl<L, S> DFA<L, S> where L: PartialEq {
    /// Runs the machine from its start state over the symbols in order,
    /// following one map entry per symbol; reports the final state, or
    /// nothing as soon as a symbol has no transition.
    pub fn traverse<'a>(&'a self, inputs: &Vec<L>) -> (r: Option<State<'a, L, S>>)
        ensures
            symbols_eq_exact::<L>() ==> match r {
                Some(st) => st.machine() == *self && dfa_run_from(self@, 0, inputs@) == Some(
                    st.pos(),
                ),
                None => dfa_run_from(self@, 0, inputs@) is None,
            },
    {
        let ghost mv = self@;
        let n = self.states.len();
        let mut cur: usize = 0;
        if n == 0 {
            return None;
        }
        let in_len = inputs.len();
        let mut i: usize = 0;
        proof {
            assert(inputs@.skip(0) =~= inputs@);
        }
        while i < in_len
            invariant
                i <= in_len,
                in_len == inputs@.len(),
                mv == self@,
                n == self.states@.len(),
                cur < n,
                symbols_eq_exact::<L>() ==> dfa_run_from(mv, 0, inputs@) == dfa_run_from(
                    mv,
                    cur as int,
                    inputs@.skip(i as int),
                ),
            decreases in_len - i,
        {
            proof {
                assert(inputs@.skip(i as int)[0] == inputs@[i as int]);
                assert(inputs@.skip(i as int).drop_first() =~= inputs@.skip(i as int + 1));
                assert(mv[cur as int].1 == entries_map(self.states@[cur as int].1@));
            }
            match entries_get(&self.states[cur].1, &inputs[i]) {
                None => {
                    return None;
                },
                Some(d) => {
                    if d >= n {
                        proof {
                            if symbols_eq_exact::<L>() {
                                assert(dfa_run_from(mv, cur as int, inputs@.skip(i as int))
                                    == dfa_run_from(mv, d as int, inputs@.skip(i as int + 1)));
                                assert(dfa_run_from(mv, d as int, inputs@.skip(i as int + 1))
                                    is None);
                            }
                        }
                        return None;
                    }
                    cur = d;
                },
            }
            i += 1;
        }
        proof {
            if symbols_eq_exact::<L>() {
                assert(inputs@.skip(in_len as int).len() == 0);
            }
        }
        Some(State { dfa: self, index: cur })
    }
}

impl MutState {
    /// Inserts or overwrites the `transition -> to` entry of the state
    /// under the cursor; returns the cursor for chaining.
    pub fn set_transition<L, S>(self, dfa: &mut DFA<L, S>, transition: L, to: usize) -> (r:
        MutState)
        requires
            0 <= self.pos() < old(dfa)@.len(),
        ensures
            final(dfa)@ == old(dfa)@.update(
                self.pos(),
                (old(dfa)@[self.pos()].0, old(dfa)@[self.pos()].1.insert(transition, to)),
            ),
            r == self,
    {
        let idx = self.index;
        let ghost before = dfa.states@;
        let mut row = dfa.states.remove(idx);
        row.1.push((transition, to));
        let ghost g_row = row;
        dfa.states.insert(idx, row);
        proof {
            assert(dfa.states@ =~= before.update(idx as int, g_row));
            assert(g_row.0 == before[idx as int].0);
            assert(g_row.1@ == before[idx as int].1@.push((transition, to)));
            assert(g_row.1@.drop_last() =~= before[idx as int].1@);
            assert(g_row.1@.last() == (transition, to));
            assert(entries_map(g_row.1@) == entries_map(before[idx as int].1@).insert(
                transition,
                to,
            ));
            assert(dfa@ =~~= old(dfa)@.update(
                self.pos(),
                (old(dfa)@[self.pos()].0, old(dfa)@[self.pos()].1.insert(transition, to)),
            ));
        }
        self
    }

    /// Sets a transition from the state under the cursor to itself.
    pub fn add_self_loop<L, S>(self, dfa: &mut DFA<L, S>, transition: L) -> (r: MutState)
        requires
            0 <= self.pos() < old(dfa)@.len(),
        ensures
            final(dfa)@ == old(dfa)@.update(
                self.pos(),
                (
                    old(dfa)@[self.pos()].0,
                    old(dfa)@[self.pos()].1.insert(transition, self.pos() as usize),
                ),
            ),
            r == self,
    {
        let index = self.index;
        self.set_transition(dfa, transition, index)
    }

    /// Creates a new state, wires `transition` from the state under the
    /// cursor to it, and returns a cursor to the new state: the idiomatic
    /// way to grow a chain of states one symbol at a time.
    pub fn add_state<L, S>(self, dfa: &mut DFA<L, S>, transition: L, state: S) -> (r: MutState)
        requires
            0 <= self.pos() < old(dfa)@.len(),
        ensures
            final(dfa)@ == old(dfa)@.push((state, Map::<L, usize>::empty())).update(
                self.pos(),
                (
                    old(dfa)@[self.pos()].0,
                    old(dfa)@[self.pos()].1.insert(transition, old(dfa)@.len() as usize),
                ),
            ),
            r.pos() == old(dfa)@.len(),
    {
        let cursor = dfa.add_state(state);
        let index = cursor.index;
        self.set_transition(dfa, transition, index);
        cursor
    }

    /// Splices another machine's states after this machine's (every
    /// spliced destination moved up by the state count), then wires
    /// `transition` from the state under the cursor to the spliced
    /// machine's former start state.
    pub fn extend<L, S>(self, dfa: &mut DFA<L, S>, transition: L, other: DFA<L, S>)
        requires
            0 <= self.pos() < old(dfa)@.len(),
            forall|i: int, j: int|
                0 <= i < other.states@.len() && 0 <= j < other.states@[i].1@.len() ==> (
                #[trigger] other.states@[i].1@[j]).1 + old(dfa)@.len() <= usize::MAX,
        ensures
            final(dfa)@ == (old(dfa)@ + other@.map_values(
                |p: (S, Map<L, usize>)| (p.0, shift_map(p.1, old(dfa)@.len() as int)),
            )).update(
                self.pos(),
                (
                    old(dfa)@[self.pos()].0,
                    old(dfa)@[self.pos()].1.insert(transition, old(dfa)@.len() as usize),
                ),
            ),
    {
        let num = dfa.states.len();
        let ghost other_view = other.states@;
        let ghost target = other@.map_values(
            |p: (S, Map<L, usize>)| (p.0, shift_map(p.1, num as int)),
        );
        let mut rest = other.states;
        let on = rest.len();
        let mut i: usize = 0;
        while i < on
            invariant
                i <= on,
                num == old(dfa)@.len(),
                on == other_view.len(),
                rest@ =~= other_view.skip(i as int),
                target.len() == other_view.len(),
                forall|i2: int|
                    0 <= i2 < other_view.len() ==> #[trigger] target[i2] == (
                        other_view[i2].0,
                        shift_map(entries_map(other_view[i2].1@), num as int),
                    ),
                forall|i2: int, j: int|
                    0 <= i2 < other_view.len() && 0 <= j < other_view[i2].1@.len() ==> (
                    #[trigger] other_view[i2].1@[j]).1 + num <= usize::MAX,
                dfa.states@.len() == num + i,
                dfa@ =~= old(dfa)@ + target.take(i as int),
            decreases on - i,
        {
            let row = rest.remove(0);
            proof {
                assert(row == other_view[i as int]);
                assert(rest@ =~= other_view.skip(i as int + 1));
            }
            let mut entries = row.1;
            let ghost raw = entries@;
            let mut shifted: Vec<(L, usize)> = Vec::new();
            let en = entries.len();
            let mut j: usize = 0;
            while j < en
                invariant
                    j <= en,
                    en == raw.len(),
                    entries@ =~= raw.skip(j as int),
                    forall|j2: int|
                        0 <= j2 < raw.len() ==> (#[trigger] raw[j2]).1 + num <= usize::MAX,
                    shifted@.len() == j,
                    forall|j2: int|
                        0 <= j2 < j ==> #[trigger] shifted@[j2] == (
                            raw[j2].0,
                            (raw[j2].1 + num) as usize,
                        ),
                decreases en - j,
            {
                let e = entries.remove(0);
                proof {
                    assert(e == raw[j as int]);
                    assert(entries@ =~= raw.skip(j as int + 1));
                }
                shifted.push((e.0, e.1 + num));
                j += 1;
            }
            proof {
                lemma_entries_map_shift(raw, shifted@, num as int);
            }
            let ghost dpre = dfa@;
            let ghost shifted_view = shifted@;
            dfa.states.push((row.0, shifted));
            proof {
                assert(dfa@ =~= dpre.push((row.0, entries_map(shifted_view))));
                assert(target[i as int] == (row.0, shift_map(entries_map(raw), num as int)));
                assert(target.take(i as int + 1) =~= target.take(i as int).push(
                    target[i as int],
                ));
                assert(dfa@ =~= old(dfa)@ + target.take(i as int + 1));
            }
            i += 1;
        }
        proof {
            assert(target.take(on as int) =~= target);
        }
        self.set_transition(dfa, transition, num);
    }
}

/// Shifting every entry's destination shifts the denoted map.
proof fn lemma_entries_map_shift<L>(raw: Seq<(L, usize)>, shifted: Seq<(L, usize)>, n: int)
    requires
        shifted.len() == raw.len(),
        forall|j: int|
            0 <= j < raw.len() ==> #[trigger] shifted[j] == (raw[j].0, (raw[j].1 + n) as usize),
        forall|j: int| 0 <= j < raw.len() ==> (#[trigger] raw[j]).1 + n <= usize::MAX,
        n >= 0,
    ensures
        entries_map(shifted) == shift_map(entries_map(raw), n),
    decreases raw.len(),
{
    if raw.len() == 0 {
        assert(entries_map(shifted) =~= shift_map(entries_map(raw), n));
    } else {
        assert forall|j: int|
            0 <= j < raw.drop_last().len() implies #[trigger] shifted.drop_last()[j] == (
            raw.drop_last()[j].0,
            (raw.drop_last()[j].1 + n) as usize,
        ) by {
            assert(shifted.drop_last()[j] == shifted[j]);
            assert(raw.drop_last()[j] == raw[j]);
        }
        lemma_entries_map_shift(raw.drop_last(), shifted.drop_last(), n);
        assert(shifted.last() == (raw.last().0, (raw.last().1 + n) as usize));
        assert(entries_map(shifted) =~= shift_map(entries_map(raw), n));
    }
}

} // verus!
