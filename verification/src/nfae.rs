use vstd::prelude::*;

use crate::nfa::{builder_error, builder_valid, NFABuilderError, NFA};
use crate::state::{real_of, State};
use crate::transition::{MaybeEpsilonTransition, RealTransition};

verus! {

pub type NFAeBuilderError = NFABuilderError;

/// The mathematical model of one state of an epsilon machine.
#[verifier::ext_equal]
pub struct StateModel<L, S> where L: Copy {
    pub data: S,
    pub transitions: Seq<MaybeEpsilonTransition<L>>,
    pub finish: bool,
}

/// The mathematical model of an epsilon machine: its states in order and
/// its start index.
#[verifier::ext_equal]
pub struct MachineModel<L, S> where L: Copy {
    pub states: Seq<StateModel<L, S>>,
    pub start: int,
}

pub open spec fn state_model<L: Copy, S>(st: State<S, MaybeEpsilonTransition<L>>) -> StateModel<
    L,
    S,
> {
    StateModel { data: st.data, transitions: st.transitions@, finish: st.finish }
}

pub open spec fn valid_index<L: Copy, S>(m: MachineModel<L, S>, i: int) -> bool {
    0 <= i < m.states.len()
}

/// Every transition destination in the machine is a valid state index.
pub open spec fn dests_valid<L: Copy, S>(m: MachineModel<L, S>) -> bool {
    forall|a: int, j: int|
        0 <= a < m.states.len() && 0 <= j < m.states[a].transitions.len() ==> (
        #[trigger] m.states[a].transitions[j]).dest < m.states.len()
}

/// No transition anywhere in the machine is an epsilon transition.
pub open spec fn machine_no_eps<L: Copy, S>(m: MachineModel<L, S>) -> bool {
    forall|a: int, j: int|
        0 <= a < m.states.len() && 0 <= j < m.states[a].transitions.len() ==> !((
        #[trigger] m.states[a].transitions[j]).kind is Epsilon)
}

/// State `a` has an epsilon transition leading to state `b`.
pub open spec fn eps_step<L: Copy, S>(m: MachineModel<L, S>, a: int, b: int) -> bool {
    &&& valid_index(m, a)
    &&& valid_index(m, b)
    &&& exists|j: int|
        0 <= j < m.states[a].transitions.len() && (#[trigger] m.states[a].transitions[j]).kind
            is Epsilon && m.states[a].transitions[j].dest == b
}

/// `p` is a path of epsilon transitions from `a` to `b` through valid
/// state indices.
pub open spec fn is_eps_path<L: Copy, S>(
    m: MachineModel<L, S>,
    p: Seq<int>,
    a: int,
    b: int,
) -> bool {
    &&& p.len() > 0
    &&& p[0] == a
    &&& p.last() == b
    &&& forall|k: int| 0 <= k < p.len() ==> valid_index(m, #[trigger] p[k])
    &&& forall|k: int| 0 <= k < p.len() - 1 ==> eps_step(m, #[trigger] p[k], p[k + 1])
}

/// State `b` can be reached from state `a` by zero or more epsilon
/// transitions.
pub open spec fn eps_reachable<L: Copy, S>(m: MachineModel<L, S>, a: int, b: int) -> bool {
    exists|p: Seq<int>| is_eps_path(m, p, a, b)
}

/// The epsilon-reachable states below index `k`, in ascending order.
pub open spec fn closure_prefix<L: Copy, S>(m: MachineModel<L, S>, s: int, k: int) -> Seq<usize>
    decreases k,
{
    if k <= 0 {
        Seq::empty()
    } else {
        closure_prefix(m, s, k - 1) + if eps_reachable(m, s, k - 1) {
            seq![(k - 1) as usize]
        } else {
            Seq::empty()
        }
    }
}

/// The epsilon closure of state `s`: every state reachable from `s` by
/// epsilon transitions alone (including `s` itself), in ascending index
/// order.  Empty exactly when `s` is out of bounds.
pub open spec fn closure_seq<L: Copy, S>(m: MachineModel<L, S>, s: int) -> Seq<usize> {
    closure_prefix(m, s, m.states.len() as int)
}

/// Reaching a state means both ends of the path are valid indices.
proof fn lemma_reach_valid<L: Copy, S>(m: MachineModel<L, S>, a: int, b: int)
    requires
        eps_reachable(m, a, b),
    ensures
        valid_index(m, a),
        valid_index(m, b),
{
    let p = choose|p: Seq<int>| is_eps_path(m, p, a, b);
    assert(valid_index(m, p[0]));
    assert(valid_index(m, p[p.len() - 1]));
}

/// Every valid state reaches itself by the empty path.
proof fn lemma_reach_self<L: Copy, S>(m: MachineModel<L, S>, s: int)
    requires
        valid_index(m, s),
    ensures
        eps_reachable(m, s, s),
{
    let p = seq![s];
    assert(is_eps_path(m, p, s, s));
}

/// Reachability extends along one more epsilon transition.
proof fn lemma_reach_extend<L: Copy, S>(m: MachineModel<L, S>, a: int, b: int, c: int)
    requires
        eps_reachable(m, a, b),
        eps_step(m, b, c),
    ensures
        eps_reachable(m, a, c),
{
    let p = choose|p: Seq<int>| is_eps_path(m, p, a, b);
    let q = p.push(c);
    assert forall|k: int| 0 <= k < q.len() - 1 implies eps_step(m, #[trigger] q[k], q[k + 1]) by {
        if k < p.len() - 1 {
            assert(q[k] == p[k]);
            assert(q[k + 1] == p[k + 1]);
            assert(eps_step(m, p[k], p[k + 1]));
        } else {
            assert(q[k] == p.last());
            assert(q[k + 1] == c);
        }
    }
    assert(q.last() == c);
    assert(is_eps_path(m, q, a, c));
}

/// The members of the closure prefix are reachable states with index
/// below `k`.
proof fn lemma_closure_prefix_sound<L: Copy, S>(m: MachineModel<L, S>, s: int, k: int)
    requires
        k <= usize::MAX,
    ensures
        forall|i: int|
            0 <= i < closure_prefix(m, s, k).len() ==> 0 <= #[trigger] closure_prefix(m, s, k)[i]
                < k && eps_reachable(m, s, closure_prefix(m, s, k)[i] as int),
    decreases k,
{
    if k <= 0 {
    } else {
        lemma_closure_prefix_sound(m, s, k - 1);
        let prev = closure_prefix(m, s, k - 1);
        let cur = closure_prefix(m, s, k);
        assert forall|i: int|
            0 <= i < cur.len() implies 0 <= #[trigger] cur[i] < k && eps_reachable(
            m,
            s,
            cur[i] as int,
        ) by {
            if i < prev.len() {
                assert(cur[i] == prev[i]);
            } else {
                assert(cur[i] == (k - 1) as usize);
            }
        }
    }
}

/// A machine with no valid state `s` has an empty closure for `s`.
proof fn lemma_closure_prefix_invalid<L: Copy, S>(m: MachineModel<L, S>, s: int, k: int)
    requires
        !valid_index(m, s),
    ensures
        closure_prefix(m, s, k) == Seq::<usize>::empty(),
    decreases k,
{
    if k <= 0 {
    } else {
        lemma_closure_prefix_invalid(m, s, k - 1);
        if eps_reachable(m, s, k - 1) {
            lemma_reach_valid(m, s, k - 1);
        }
        assert(closure_prefix(m, s, k) =~= Seq::<usize>::empty());
    }
}


/// Accumulates candidate states and a start index for an epsilon machine;
/// `build` validates and freezes them.
#[derive(Default)]
pub struct NFAeBuilder<L, S> where L: Copy {
    pub start: Option<usize>,
    pub states: Vec<State<S, MaybeEpsilonTransition<L>>>,
}

impl<L, S> NFAeBuilder<L, S> where L: Copy {
    /// Records the intended start index; the last write wins.
    pub fn set_start(&mut self, start: usize) -> (r: &mut Self)
        ensures
            (*r).states@ == old(self).states@,
            (*r).start == Some(start),
            *final(self) == *final(r),
    {
        self.start = Some(start);
        self
    }

    /// Appends a state; forward references are permitted until `build`.
    pub fn add_state(&mut self, state: State<S, MaybeEpsilonTransition<L>>) -> (r: &mut Self)
        ensures
            (*r).states@ == old(self).states@.push(state),
            (*r).start == old(self).start,
            *final(self) == *final(r),
    {
        self.states.push(state);
        self
    }

    /// Validates the accumulated states and start index, in order: a start
    /// index was set, at least one state exists, at least one state is a
    /// finish state, the start index is in bounds.  On success the states
    /// are moved unchanged into the machine.
    pub fn build(self) -> (r: Result<NFAe<L, S>, NFAeBuilderError>)
        ensures
            (r is Ok) <==> builder_valid(self.states@, self.start),
            r matches Ok(m) ==> {
                &&& m.states@ == self.states@
                &&& Some(m.start) == self.start
                &&& m.wf()
            },
            r matches Err(e) ==> e == builder_error(self.states@, self.start),
    {
        let start = match self.start {
            Some(start) => start,
            None => {
                return Err(NFABuilderError::MissingStartIndex);
            },
        };

        if self.states.len() == 0 {
            return Err(NFABuilderError::MissingStates);
        }

        let mut has_finish = false;
        let n = self.states.len();
        let mut i: usize = 0;
        while i < n
            invariant
                i <= n,
                n == self.states@.len(),
                has_finish == exists|j: int| 0 <= j < i && self.states@[j].finish,
            decreases n - i,
        {
            if self.states[i].is_finish() {
                has_finish = true;
            }
            i += 1;
        }
        if !has_finish {
            return Err(NFABuilderError::MissingFinish);
        }

        if start >= self.states.len() {
            return Err(NFABuilderError::InvalidStartIndex);
        }

        Ok(NFAe { start, states: self.states })
    }
}

/// A nondeterministic machine whose transitions may be epsilon
/// transitions.  A staging representation: its destiny is conversion into
/// an epsilon-free machine through `into_nfa`.
pub struct NFAe<L, S> where L: Copy {
    pub states: Vec<State<S, MaybeEpsilonTransition<L>>>,
    pub start: usize,
}

impl<L, S> View for NFAe<L, S> where L: Copy {
    type V = MachineModel<L, S>;

    open spec fn view(&self) -> MachineModel<L, S> {
        MachineModel {
            states: self.states@.map_values(
                |st: State<S, MaybeEpsilonTransition<L>>| state_model(st),
            ),
            start: self.start as int,
        }
    }
}

/// The number of `true` entries of a sequence of marks.
pub open spec fn count_true(s: Seq<bool>) -> int
    decreases s.len(),
{
    if s.len() == 0 {
        0
    } else {
        count_true(s.drop_last()) + if s.last() {
            1int
        } else {
            0int
        }
    }
}

proof fn lemma_count_true_bounds(s: Seq<bool>)
    ensures
        0 <= count_true(s) <= s.len(),
    decreases s.len(),
{
    if s.len() > 0 {
        lemma_count_true_bounds(s.drop_last());
    }
}

proof fn lemma_count_true_update(s: Seq<bool>, i: int)
    requires
        0 <= i < s.len(),
        !s[i],
    ensures
        count_true(s.update(i, true)) == count_true(s) + 1,
    decreases s.len(),
{
    let t = s.update(i, true);
    if i == s.len() - 1 {
        assert(t.drop_last() =~= s.drop_last());
    } else {
        assert(t.drop_last() =~= s.drop_last().update(i, true));
        lemma_count_true_update(s.drop_last(), i);
        assert(t.last() == s.last());
    }
}

/// Marks closed under epsilon steps that include `s` include everything
/// epsilon-reachable from `s`.
proof fn lemma_closed_marks_complete<L: Copy, S>(
    m: MachineModel<L, S>,
    marks: Seq<bool>,
    p: Seq<int>,
    a: int,
    b: int,
)
    requires
        marks.len() == m.states.len(),
        is_eps_path(m, p, a, b),
        marks[a],
        forall|j: int, t: int|
            0 <= j < m.states.len() && marks[j] && eps_step(m, j, t) ==> marks[t],
    ensures
        marks[b],
    decreases p.len(),
{
    if p.len() == 1 {
    } else {
        assert(eps_step(m, p[0], p[1]));
        assert(marks[p[1]]);
        let q = p.drop_first();
        assert forall|k: int| 0 <= k < q.len() - 1 implies eps_step(m, #[trigger] q[k], q[k + 1]) by {
            assert(q[k] == p[k + 1]);
            assert(q[k + 1] == p[k + 2]);
            assert(eps_step(m, p[k + 1], p[k + 2]));
        }
        assert(is_eps_path(m, q, p[1], b));
        lemma_closed_marks_complete(m, marks, q, p[1], b);
    }
}

impl<L, S> NFAe<L, S> where L: Copy {
    /// A built machine is non-empty and its start index is in bounds.
    pub open spec fn wf(self) -> bool {
        self.start < self.states@.len()
    }

    /// Bounds-checked state lookup.
    pub fn get_state(&self, state: usize) -> (r: Option<&State<S, MaybeEpsilonTransition<L>>>)
        ensures
            (r is Some) <==> state < self.states@.len(),
            r matches Some(st) ==> *st == self.states@[state as int],
    {
        if state < self.states.len() {
            Some(&self.states[state])
        } else {
            None
        }
    }

    /// All the machine's states, in index order.
    pub fn get_states(&self) -> (r: &Vec<State<S, MaybeEpsilonTransition<L>>>)
        ensures
            r@ == self.states@,
    {
        &self.states
    }

    /// The start state; the start index was validated at build time.
    pub fn get_start(&self) -> (r: &State<S, MaybeEpsilonTransition<L>>)
        requires
            self.wf(),
        ensures
            *r == self.states@[self.start as int],
    {
        &self.states[self.start]
    }

    /// Turns the machine back into a builder seeded with its states and
    /// start index, for incremental extension.
    pub fn into_builder(self) -> (r: NFAeBuilder<L, S>)
        ensures
            r.states@ == self.states@,
            r.start == Some(self.start),
    {
        NFAeBuilder { states: self.states, start: Some(self.start) }
    }

    /// Marks exactly the states epsilon-reachable from `s`, by a worklist
    /// search that visits each state at most once, so an epsilon cycle
    /// terminates once no new state is added.
    fn reach_marks(&self, s: usize) -> (marks: Vec<bool>)
        requires
            s < self.states@.len(),
        ensures
            marks@.len() == self.states@.len(),
            forall|j: int|
                0 <= j < marks@.len() ==> (#[trigger] marks@[j] <==> eps_reachable(
                    self@,
                    s as int,
                    j,
                )),
    {
        let ghost m = self@;
        let n = self.states.len();
        let mut marks: Vec<bool> = Vec::new();
        let mut i: usize = 0;
        while i < n
            invariant
                i <= n,
                marks@.len() == i,
                forall|j: int| 0 <= j < i ==> !(#[trigger] marks@[j]),
            decreases n - i,
        {
            marks.push(false);
            i += 1;
        }

        let mut stack: Vec<usize> = Vec::new();
        stack.push(s);
        let ghost old_marks = marks@;
        marks[s] = true;
        proof {
            assert(marks@ =~= old_marks.update(s as int, true));
            lemma_reach_self(m, s as int);
            lemma_count_true_bounds(marks@);
            assert(stack@[0] == s);
            assert(stack@.contains(s));
            assert forall|j: int, t: int|
                0 <= j < n && marks@[j] && !stack@.contains(j as usize) && eps_step(m, j, t)
                    implies marks@[t] by {
                assert(j == s as int);
                assert(false);
            }
        }

        while stack.len() > 0
            invariant
                marks@.len() == n,
                n == self.states@.len(),
                m == self@,
                marks@[s as int],
                forall|k: int|
                    0 <= k < stack@.len() ==> (#[trigger] stack@[k]) < n && marks@[stack@[k] as int],
                forall|k: int, k2: int|
                    0 <= k < k2 < stack@.len() ==> stack@[k] != stack@[k2],
                forall|j: int| 0 <= j < n && #[trigger] marks@[j] ==> eps_reachable(m, s as int, j),
                forall|j: int, t: int|
                    0 <= j < n && marks@[j] && !stack@.contains(j as usize) && eps_step(m, j, t)
                        ==> marks@[t],
            decreases n - count_true(marks@), stack@.len(),
        {
            let ghost stack_pre = stack@;
            let ghost marks_pre = marks@;
            let cur = stack.pop().unwrap();
            let ghost stack_start = stack@;
            proof {
                assert(stack_pre =~= stack_start.push(cur));
                assert forall|j: int, t: int|
                    0 <= j < n && marks@[j] && !stack_start.contains(j as usize) && j != cur as int
                        && eps_step(m, j, t) implies marks@[t] by {
                    if stack_pre.contains(j as usize) {
                        let k = choose|k: int|
                            0 <= k < stack_pre.len() && stack_pre[k] == j as usize;
                        if k < stack_start.len() {
                            assert(stack_start[k] == j as usize);
                            assert(false);
                        } else {
                            assert(stack_pre[k] == cur);
                            assert(false);
                        }
                    }
                    assert(eps_step(m, j, t));
                }
            }
            let nt = self.states[cur].transitions.len();
            let mut tj: usize = 0;
            while tj < nt
                invariant
                    marks@.len() == n,
                    n == self.states@.len(),
                    m == self@,
                    cur < n,
                    tj <= nt,
                    marks@[s as int],
                    marks@[cur as int],
                    nt == self.states@[cur as int].transitions@.len(),
                    forall|k: int|
                        0 <= k < stack@.len() ==> (#[trigger] stack@[k]) < n
                            && marks@[stack@[k] as int],
                    forall|k: int, k2: int|
                        0 <= k < k2 < stack@.len() ==> stack@[k] != stack@[k2],
                    forall|j: int|
                        0 <= j < n && #[trigger] marks@[j] ==> eps_reachable(m, s as int, j),
                    forall|j: int, t: int|
                        0 <= j < n && marks@[j] && !stack@.contains(j as usize) && j != cur
                            && eps_step(m, j, t) ==> marks@[t],
                    !stack@.contains(cur),
                    forall|t: int|
                        eps_step_within(m, cur as int, t, tj as int) ==> marks@[t],
                    count_true(marks@) >= count_true(marks_pre),
                    count_true(marks@) > count_true(marks_pre) || stack@.len() < stack_pre.len(),
                decreases nt - tj,
            {
                let tr = self.states[cur].transitions[tj];
                if tr.is_epsilon() {
                    let d = tr.dest();
                    if d < n {
                        if !marks[d] {
                            let ghost before = marks@;
                            let ghost stack_mid = stack@;
                            marks[d] = true;
                            stack.push(d);
                            proof {
                                assert(marks@ =~= before.update(d as int, true));
                                lemma_count_true_update(before, d as int);
                                assert(eps_step(m, cur as int, d as int));
                                lemma_reach_extend(m, s as int, cur as int, d as int);
                                assert(stack@.last() == d);
                                assert(stack@.contains(d));
                                assert forall|j: int, t: int|
                                    0 <= j < n && marks@[j] && !stack@.contains(j as usize) && j
                                        != cur as int && eps_step(m, j, t) implies marks@[t] by {
                                    assert(j != d as int);
                                    assert(before[j]);
                                    if stack_mid.contains(j as usize) {
                                        let k = choose|k: int|
                                            0 <= k < stack_mid.len() && stack_mid[k] == j as usize;
                                        assert(stack@[k] == j as usize);
                                        assert(false);
                                    }
                                    assert(eps_step(m, j, t));
                                    assert(before[t]);
                                }
                            }
                        }
                    }
                }
                tj += 1;
                proof {
                    assert forall|t: int|
                        eps_step_within(m, cur as int, t, tj as int) implies marks@[t] by {
                        let j = choose|j: int|
                            0 <= j < tj && 0 <= j < m.states[cur as int].transitions.len() && (
                            #[trigger] m.states[cur as int].transitions[j]).kind is Epsilon
                                && m.states[cur as int].transitions[j].dest == t && 0 <= t
                                < m.states.len();
                        if j < tj - 1 {
                            assert(eps_step_within(m, cur as int, t, tj - 1));
                        }
                    }
                }
            }
            proof {
                lemma_count_true_bounds(marks@);
                assert forall|j: int, t: int|
                    0 <= j < n && marks@[j] && !stack@.contains(j as usize) && eps_step(m, j, t)
                        implies marks@[t] by {
                    if j == cur as int {
                        let tk = choose|tk: int|
                            0 <= tk < m.states[j].transitions.len() && (
                            #[trigger] m.states[j].transitions[tk]).kind is Epsilon
                                && m.states[j].transitions[tk].dest == t;
                        assert(eps_step_within(m, cur as int, t, nt as int));
                    }
                }
            }
        }

        proof {
            assert forall|j: int|
                0 <= j < marks@.len() implies (#[trigger] marks@[j] <==> eps_reachable(
                m,
                s as int,
                j,
            )) by {
                if eps_reachable(m, s as int, j) {
                    let p = choose|p: Seq<int>| is_eps_path(m, p, s as int, j);
                    lemma_closed_marks_complete(m, marks@, p, s as int, j);
                }
            }
        }
        marks
    }
}

/// State `a` has an epsilon transition, among its first `upto` transitions,
/// leading to the valid state `t`.
pub open spec fn eps_step_within<L: Copy, S>(
    m: MachineModel<L, S>,
    a: int,
    t: int,
    upto: int,
) -> bool {
    exists|j: int|
        0 <= j < upto && 0 <= j < m.states[a].transitions.len() && (
        #[trigger] m.states[a].transitions[j]).kind is Epsilon && m.states[a].transitions[j].dest
            == t && 0 <= t < m.states.len()
}


/// The non-epsilon transitions among the first `k` of `trs`, in order.
pub open spec fn non_eps_prefix<L: Copy>(trs: Seq<MaybeEpsilonTransition<L>>, k: int) -> Seq<
    MaybeEpsilonTransition<L>,
>
    decreases k,
{
    if k <= 0 {
        Seq::empty()
    } else {
        non_eps_prefix(trs, k - 1) + if !(trs[k - 1].kind is Epsilon) {
            seq![trs[k - 1]]
        } else {
            Seq::empty()
        }
    }
}

/// The non-epsilon transitions of `trs`, in order.
pub open spec fn non_eps<L: Copy>(trs: Seq<MaybeEpsilonTransition<L>>) -> Seq<
    MaybeEpsilonTransition<L>,
> {
    non_eps_prefix(trs, trs.len() as int)
}

/// The non-epsilon transitions absorbed from the first `k` states listed
/// in `cl`, concatenated in list order.
pub open spec fn absorbed_prefix<L: Copy, S>(
    m: MachineModel<L, S>,
    cl: Seq<usize>,
    k: int,
) -> Seq<MaybeEpsilonTransition<L>>
    decreases k,
{
    if k <= 0 {
        Seq::empty()
    } else {
        absorbed_prefix(m, cl, k - 1) + non_eps(m.states[cl[k - 1] as int].transitions)
    }
}

/// All the non-epsilon transitions found on any state in the epsilon
/// closure of `s`, in closure order.
pub open spec fn absorbed<L: Copy, S>(m: MachineModel<L, S>, s: int) -> Seq<
    MaybeEpsilonTransition<L>,
> {
    absorbed_prefix(m, closure_seq(m, s), closure_seq(m, s).len() as int)
}

/// One simplification step: state `s` absorbs the non-epsilon transitions
/// of every state in its epsilon closure (its own epsilon transitions are
/// dropped), and becomes a finish state exactly when some state in the
/// closure is one.  Out-of-bounds `s` leaves the machine unchanged.
pub open spec fn simplify_state<L: Copy, S>(m: MachineModel<L, S>, s: int) -> MachineModel<L, S> {
    if !valid_index(m, s) {
        m
    } else {
        MachineModel {
            states: m.states.update(
                s,
                StateModel {
                    data: m.states[s].data,
                    transitions: absorbed(m, s),
                    finish: exists|c: int| eps_reachable(m, s, c) && m.states[c].finish,
                },
            ),
            start: m.start,
        }
    }
}

/// Simplification applied to states `0, 1, ..., k - 1` in index order,
/// each step reading the machine left by the previous one.
pub open spec fn simplify_upto<L: Copy, S>(m: MachineModel<L, S>, k: int) -> MachineModel<L, S>
    decreases k,
{
    if k <= 0 {
        m
    } else {
        simplify_state(simplify_upto(m, k - 1), k - 1)
    }
}

/// Simplification never changes the number of states or the start index.
proof fn lemma_simplify_upto_shape<L: Copy, S>(m: MachineModel<L, S>, k: int)
    ensures
        simplify_upto(m, k).states.len() == m.states.len(),
        simplify_upto(m, k).start == m.start,
    decreases k,
{
    if k > 0 {
        lemma_simplify_upto_shape(m, k - 1);
    }
}

/// A list prefix only reads the entries below `k`, so a trailing push
/// leaves the absorbed prefix unchanged.
proof fn lemma_absorbed_prefix_push<L: Copy, S>(
    m: MachineModel<L, S>,
    cl: Seq<usize>,
    x: usize,
    k: int,
)
    requires
        k <= cl.len(),
    ensures
        absorbed_prefix(m, cl.push(x), k) == absorbed_prefix(m, cl, k),
    decreases k,
{
    if k > 0 {
        lemma_absorbed_prefix_push(m, cl, x, k - 1);
        assert(cl.push(x)[k - 1] == cl[k - 1]);
    }
}

impl<L, S> NFAe<L, S> where L: Copy {
    /// The states reachable from the state with index `s` through epsilon
    /// transitions alone, including that state itself, each reported once,
    /// in ascending index order; empty when `s` is out of bounds.  An
    /// epsilon cycle is handled by visiting every state at most once.
    pub fn epsilon_closure(&self, s: usize) -> (r: Vec<&State<S, MaybeEpsilonTransition<L>>>)
        ensures
            r@.len() == closure_seq(self@, s as int).len(),
            forall|i: int|
                0 <= i < r@.len() ==> closure_seq(self@, s as int)[i] < self.states@.len()
                    && *#[trigger] r@[i] == self.states@[closure_seq(self@, s as int)[i] as int],
    {
        let ghost m = self@;
        let n = self.states.len();
        proof {
            lemma_closure_prefix_sound(m, s as int, n as int);
        }
        if s >= n {
            proof {
                lemma_closure_prefix_invalid(m, s as int, n as int);
            }
            return Vec::new();
        }
        let marks = self.reach_marks(s);
        let mut out: Vec<&State<S, MaybeEpsilonTransition<L>>> = Vec::new();
        let mut i: usize = 0;
        while i < n
            invariant
                i <= n,
                n == self.states@.len(),
                m == self@,
                marks@.len() == n,
                forall|j: int|
                    0 <= j < n ==> (#[trigger] marks@[j] <==> eps_reachable(m, s as int, j)),
                out@.len() == closure_prefix(m, s as int, i as int).len(),
                forall|k: int|
                    0 <= k < out@.len() ==> closure_prefix(m, s as int, i as int)[k] < n
                        && *#[trigger] out@[k] == self.states@[closure_prefix(
                        m,
                        s as int,
                        i as int,
                    )[k] as int],
            decreases n - i,
        {
            let ghost prev = closure_prefix(m, s as int, i as int);
            let ghost cur = closure_prefix(m, s as int, i as int + 1);
            proof {
                lemma_closure_prefix_sound(m, s as int, i as int + 1);
            }
            if marks[i] {
                let ghost out_pre = out@;
                out.push(&self.states[i]);
                proof {
                    assert(cur =~= prev + seq![i]);
                    assert(cur[cur.len() - 1] == i);
                    assert forall|k: int|
                        0 <= k < out@.len() implies cur[k] < n && *#[trigger] out@[k]
                        == self.states@[cur[k] as int] by {
                        if k < prev.len() {
                            assert(cur[k] == prev[k]);
                            assert(out@[k] == out_pre[k]);
                        } else {
                            assert(cur[k] == i);
                        }
                    }
                }
            } else {
                proof {
                    assert(cur =~= prev);
                }
            }
            i += 1;
        }
        out
    }

    /// Makes state `s` absorb the non-epsilon transitions of every state in
    /// its epsilon closure, replacing its own transition list, and marks it
    /// as finish if any state in the closure is finish.  Does nothing when
    /// `s` is out of bounds.
    pub fn epsilon_simplify(&mut self, s: usize)
        ensures
            final(self)@ == simplify_state(old(self)@, s as int),
    {
        let ghost m = self@;
        let n = self.states.len();
        if s >= n {
            return;
        }
        let marks = self.reach_marks(s);
        let mut stolen: Vec<MaybeEpsilonTransition<L>> = Vec::new();
        let mut is_finish = false;
        let mut i: usize = 0;
        while i < n
            invariant
                i <= n,
                n == self.states@.len(),
                m == self@,
                s < n,
                marks@.len() == n,
                forall|j: int|
                    0 <= j < n ==> (#[trigger] marks@[j] <==> eps_reachable(m, s as int, j)),
                stolen@ == absorbed_prefix(
                    m,
                    closure_prefix(m, s as int, i as int),
                    closure_prefix(m, s as int, i as int).len() as int,
                ),
                is_finish == exists|c: int|
                    0 <= c < i && eps_reachable(m, s as int, c) && m.states[c].finish,
            decreases n - i,
        {
            let ghost prev = closure_prefix(m, s as int, i as int);
            let ghost cur = closure_prefix(m, s as int, i as int + 1);
            proof {
                lemma_closure_prefix_sound(m, s as int, i as int + 1);
            }
            if marks[i] {
                proof {
                    assert(cur =~= prev.push(i));
                    lemma_absorbed_prefix_push(m, prev, i, prev.len() as int);
                    assert(absorbed_prefix(m, cur, cur.len() as int) == absorbed_prefix(
                        m,
                        cur,
                        prev.len() as int,
                    ) + non_eps(m.states[i as int].transitions));
                    assert(absorbed_prefix(m, cur, prev.len() as int) == absorbed_prefix(
                        m,
                        prev,
                        prev.len() as int,
                    ));
                }
                let trs = &self.states[i].transitions;
                let nt = trs.len();
                let mut tj: usize = 0;
                while tj < nt
                    invariant
                        tj <= nt,
                        i < n,
                        n == self.states@.len(),
                        m == self@,
                        nt == self.states@[i as int].transitions@.len(),
                        stolen@ == absorbed_prefix(m, prev, prev.len() as int) + non_eps_prefix(
                            m.states[i as int].transitions,
                            tj as int,
                        ),
                    decreases nt - tj,
                {
                    let tr = self.states[i].transitions[tj];
                    if !tr.is_epsilon() {
                        stolen.push(tr);
                    }
                    proof {
                        assert(stolen@ =~= absorbed_prefix(m, prev, prev.len() as int)
                            + non_eps_prefix(m.states[i as int].transitions, tj as int + 1));
                    }
                    tj += 1;
                }
                if self.states[i].is_finish() {
                    is_finish = true;
                }
                proof {
                    assert(non_eps_prefix(m.states[i as int].transitions, nt as int) == non_eps(
                        m.states[i as int].transitions,
                    ));
                    assert(stolen@ =~= absorbed_prefix(m, cur, cur.len() as int));
                }
            } else {
                proof {
                    assert(cur =~= prev);
                }
            }
            proof {
                if is_finish {
                } else {
                    assert(forall|c: int|
                        0 <= c < i + 1 && eps_reachable(m, s as int, c) && m.states[c].finish
                            ==> false);
                }
            }
            i += 1;
        }
        proof {
            assert(closure_prefix(m, s as int, n as int) == closure_seq(m, s as int));
            assert(stolen@ == absorbed(m, s as int));
            assert forall|c: int|
                eps_reachable(m, s as int, c) && m.states[c].finish implies 0 <= c < n by {
                lemma_reach_valid(m, s as int, c);
            }
            assert(is_finish == exists|c: int|
                eps_reachable(m, s as int, c) && m.states[c].finish);
        }
        let ghost old_states = self.states@;
        let mut row = self.states.remove(s);
        row.finish = is_finish;
        row.transitions = stolen;
        self.states.insert(s, row);
        proof {
            assert(self.states@ =~= old_states.update(s as int, row));
            assert(self@.states =~~= m.states.update(s as int, state_model(row)));
            assert(state_model(row) =~~= StateModel {
                data: m.states[s as int].data,
                transitions: absorbed(m, s as int),
                finish: exists|c: int| eps_reachable(m, s as int, c) && m.states[c].finish,
            });
            assert(self@ =~~= simplify_state(m, s as int));
        }
    }

    /// Applies `epsilon_simplify` to every state, in index order, once
    /// each.
    pub fn epsilon_simplify_all(&mut self)
        ensures
            final(self)@ == simplify_upto(old(self)@, old(self)@.states.len() as int),
    {
        let ghost m = self@;
        let n = self.states.len();
        let mut i: usize = 0;
        while i < n
            invariant
                i <= n,
                n == m.states.len(),
                self@ == simplify_upto(m, i as int),
                self.states@.len() == n,
            decreases n - i,
        {
            self.epsilon_simplify(i);
            proof {
                lemma_simplify_upto_shape(m, i as int + 1);
            }
            i += 1;
        }
    }
}


/// State index `i` survives pruning: it is the start index or the
/// destination of some transition anywhere in the machine (a deliberately
/// loose over-approximation of reachability from start).
pub open spec fn dest_reached<L: Copy, S>(m: MachineModel<L, S>, i: int) -> bool {
    i == m.start || exists|a: int, j: int|
        0 <= a < m.states.len() && 0 <= j < m.states[a].transitions.len() && (
        #[trigger] m.states[a].transitions[j]).dest == i
}

/// The surviving state indices below `k`, in ascending order.
pub open spec fn kept_prefix<L: Copy, S>(m: MachineModel<L, S>, k: int) -> Seq<usize>
    decreases k,
{
    if k <= 0 {
        Seq::empty()
    } else {
        kept_prefix(m, k - 1) + if dest_reached(m, k - 1) {
            seq![(k - 1) as usize]
        } else {
            Seq::empty()
        }
    }
}

/// The surviving state indices, in ascending order.
pub open spec fn kept<L: Copy, S>(m: MachineModel<L, S>) -> Seq<usize> {
    kept_prefix(m, m.states.len() as int)
}

/// The new, dense index of the old index `d`: the number of surviving
/// states below it.
pub open spec fn renumber<L: Copy, S>(m: MachineModel<L, S>, d: int) -> int {
    kept_prefix(m, d).len() as int
}

pub open spec fn prune_transition<L: Copy, S>(
    m: MachineModel<L, S>,
    t: MaybeEpsilonTransition<L>,
) -> MaybeEpsilonTransition<L> {
    MaybeEpsilonTransition { kind: t.kind, dest: renumber(m, t.dest as int) as usize }
}

pub open spec fn prune_state_model<L: Copy, S>(
    m: MachineModel<L, S>,
    st: StateModel<L, S>,
) -> StateModel<L, S> {
    StateModel {
        data: st.data,
        transitions: st.transitions.map_values(
            |t: MaybeEpsilonTransition<L>| prune_transition(m, t),
        ),
        finish: st.finish,
    }
}

/// The machine after orphan removal: the surviving states, renumbered
/// densely from zero in their old order, every transition destination and
/// the start index rewritten along the old-to-new index mapping.
pub open spec fn prune<L: Copy, S>(m: MachineModel<L, S>) -> MachineModel<L, S> {
    MachineModel {
        states: kept(m).map_values(|oi: usize| prune_state_model(m, m.states[oi as int])),
        start: renumber(m, m.start),
    }
}

proof fn lemma_kept_prefix_sound<L: Copy, S>(m: MachineModel<L, S>, k: int)
    requires
        0 <= k <= usize::MAX,
    ensures
        kept_prefix(m, k).len() <= k,
        forall|i: int|
            0 <= i < kept_prefix(m, k).len() ==> 0 <= #[trigger] kept_prefix(m, k)[i] < k
                && dest_reached(m, kept_prefix(m, k)[i] as int),
    decreases k,
{
    if k <= 0 {
    } else {
        lemma_kept_prefix_sound(m, k - 1);
        let prev = kept_prefix(m, k - 1);
        let cur = kept_prefix(m, k);
        assert forall|i: int|
            0 <= i < cur.len() implies 0 <= #[trigger] cur[i] < k && dest_reached(
            m,
            cur[i] as int,
        ) by {
            if i < prev.len() {
                assert(cur[i] == prev[i]);
            } else {
                assert(cur[i] == (k - 1) as usize);
            }
        }
    }
}

proof fn lemma_kept_prefix_mono<L: Copy, S>(m: MachineModel<L, S>, k1: int, k2: int)
    requires
        k1 <= k2,
    ensures
        kept_prefix(m, k1).len() <= kept_prefix(m, k2).len(),
    decreases k2 - k1,
{
    if k1 < k2 {
        lemma_kept_prefix_mono(m, k1, k2 - 1);
    }
}

/// A surviving old index has a new index within the shrunk state vector,
/// and the surviving list holds it there.
proof fn lemma_renumber_reached<L: Copy, S>(m: MachineModel<L, S>, d: int)
    requires
        0 <= d < m.states.len(),
        dest_reached(m, d),
    ensures
        0 <= renumber(m, d) < kept(m).len(),
        kept(m)[renumber(m, d)] == d as usize,
    decreases m.states.len() as int - d,
{
    lemma_kept_prefix_mono(m, d + 1, m.states.len() as int);
    assert(kept_prefix(m, d + 1) == kept_prefix(m, d) + seq![d as usize]);
    lemma_kept_index_stable(m, d, d + 1, m.states.len() as int);
}

/// Once an index enters the surviving prefix, growing the prefix keeps it
/// in place.
proof fn lemma_kept_index_stable<L: Copy, S>(m: MachineModel<L, S>, d: int, k1: int, k2: int)
    requires
        k1 <= k2,
        0 <= renumber(m, d) < kept_prefix(m, k1).len(),
        kept_prefix(m, k1)[renumber(m, d)] == d as usize,
    ensures
        renumber(m, d) < kept_prefix(m, k2).len(),
        kept_prefix(m, k2)[renumber(m, d)] == d as usize,
    decreases k2 - k1,
{
    if k1 < k2 {
        lemma_kept_index_stable(m, d, k1, k2 - 1);
        let prev = kept_prefix(m, k2 - 1);
        let cur = kept_prefix(m, k2);
        assert(cur[renumber(m, d)] == prev[renumber(m, d)]);
    }
}


/// State index `i` is the destination of a transition that lies
/// lexicographically before position (`ap`, `jp`) in the state/transition
/// scan order.
pub open spec fn dest_reached_before<L: Copy, S>(
    m: MachineModel<L, S>,
    i: int,
    ap: int,
    jp: int,
) -> bool {
    exists|a: int, j: int|
        0 <= a < m.states.len() && 0 <= j < m.states[a].transitions.len() && (a < ap || (a == ap
            && j < jp)) && (#[trigger] m.states[a].transitions[j]).dest == i
}

impl<L, S> NFAe<L, S> where L: Copy {
    /// Removes the states that neither are the start state nor appear as
    /// the destination of any transition, renumbering the survivors
    /// densely from zero and rewriting every transition destination and
    /// the start index accordingly.  Expects an epsilon-free machine whose
    /// transition destinations are all valid.
    pub fn remove_orphan_states(&mut self)
        requires
            machine_no_eps(old(self)@),
            dests_valid(old(self)@),
            old(self).wf(),
        ensures
            final(self)@ == prune(old(self)@),
            machine_no_eps(final(self)@),
            dests_valid(final(self)@),
            final(self).wf(),
    {
        let ghost m = self@;
        let n = self.states.len();

        let mut reached: Vec<bool> = Vec::new();
        let mut i: usize = 0;
        while i < n
            invariant
                i <= n,
                reached@.len() == i,
                forall|j: int| 0 <= j < i ==> !(#[trigger] reached@[j]),
            decreases n - i,
        {
            reached.push(false);
            i += 1;
        }
        let ghost reached_zero = reached@;
        reached[self.start] = true;
        proof {
            assert(reached@ =~= reached_zero.update(self.start as int, true));
            assert forall|j: int|
                0 <= j < n implies (#[trigger] reached@[j] <==> (j == m.start
                || dest_reached_before(m, j, 0, 0))) by {
                if dest_reached_before(m, j, 0, 0) {
                    let (a, jj): (int, int) = choose|a: int, j2: int|
                        0 <= a < m.states.len() && 0 <= j2 < m.states[a].transitions.len() && (a < 0
                            || (a == 0 && j2 < 0)) && (#[trigger] m.states[a].transitions[j2]).dest
                            == j;
                    assert(false);
                }
            }
        }

        let mut a: usize = 0;
        while a < n
            invariant
                a <= n,
                n == self.states@.len(),
                m == self@,
                dests_valid(m),
                reached@.len() == n,
                forall|j: int|
                    0 <= j < n ==> (#[trigger] reached@[j] <==> (j == m.start
                        || dest_reached_before(m, j, a as int, 0))),
            decreases n - a,
        {
            let nt = self.states[a].transitions.len();
            let mut tj: usize = 0;
            proof {
                assert forall|j: int|
                    0 <= j < n implies (#[trigger] reached@[j] <==> (j == m.start
                    || dest_reached_before(m, j, a as int, 0))) by {}
            }
            while tj < nt
                invariant
                    tj <= nt,
                    a < n,
                    n == self.states@.len(),
                    m == self@,
                    dests_valid(m),
                    reached@.len() == n,
                    nt == m.states[a as int].transitions.len(),
                    forall|j: int|
                        0 <= j < n ==> (#[trigger] reached@[j] <==> (j == m.start
                            || dest_reached_before(m, j, a as int, tj as int))),
                decreases nt - tj,
            {
                let tr = self.states[a].transitions[tj];
                let d = tr.dest();
                proof {
                    assert(m.states[a as int].transitions[tj as int] == tr);
                    assert(d < n);
                }
                let ghost reached_pre = reached@;
                if !reached[d] {
                    reached[d] = true;
                    proof {
                        assert(reached@ =~= reached_pre.update(d as int, true));
                    }
                }
                proof {
                    assert forall|j: int|
                        0 <= j < n implies (#[trigger] reached@[j] <==> (j == m.start
                        || dest_reached_before(m, j, a as int, tj as int + 1))) by {
                        assert(m.states[a as int].transitions[tj as int].dest == d as int);
                        if j == d as int {
                            assert(dest_reached_before(m, j, a as int, tj as int + 1));
                            assert(reached@[j]);
                        } else {
                            assert(reached@[j] == reached_pre[j]);
                            if dest_reached_before(m, j, a as int, tj as int + 1) {
                                let (a2, j2): (int, int) = choose|a2: int, j2: int|
                                    0 <= a2 < m.states.len() && 0 <= j2 < m.states[
                                        a2
                                    ].transitions.len() && (a2 < a as int || (a2 == a as int && j2
                                        < tj as int + 1)) && (
                                    #[trigger] m.states[a2].transitions[j2]).dest == j;
                                assert(a2 < a as int || (a2 == a as int && j2 < tj as int));
                                assert(dest_reached_before(m, j, a as int, tj as int));
                            }
                        }
                    }
                }
                tj += 1;
            }
            proof {
                assert forall|j: int|
                    0 <= j < n implies (#[trigger] reached@[j] <==> (j == m.start
                    || dest_reached_before(m, j, a as int + 1, 0))) by {
                    if dest_reached_before(m, j, a as int + 1, 0) {
                        let (a2, j2): (int, int) = choose|a2: int, j2: int|
                            0 <= a2 < m.states.len() && 0 <= j2 < m.states[a2].transitions.len()
                                && (a2 < a as int + 1 || (a2 == a as int + 1 && j2 < 0)) && (
                            #[trigger] m.states[a2].transitions[j2]).dest == j;
                        assert(dest_reached_before(m, j, a as int, j2 + 1));
                        assert(dest_reached_before(m, j, a as int, nt as int));
                    }
                    if dest_reached_before(m, j, a as int, nt as int) {
                        let (a2, j2): (int, int) = choose|a2: int, j2: int|
                            0 <= a2 < m.states.len() && 0 <= j2 < m.states[a2].transitions.len()
                                && (a2 < a as int || (a2 == a as int && j2 < nt as int)) && (
                            #[trigger] m.states[a2].transitions[j2]).dest == j;
                        assert(dest_reached_before(m, j, a as int + 1, 0));
                    }
                }
            }
            a += 1;
        }
        proof {
            assert forall|j: int|
                0 <= j < n implies (#[trigger] reached@[j] <==> dest_reached(m, j)) by {
                if dest_reached(m, j) && j != m.start {
                    let (a2, j2): (int, int) = choose|a2: int, j2: int|
                        0 <= a2 < m.states.len() && 0 <= j2 < m.states[a2].transitions.len() && (
                        #[trigger] m.states[a2].transitions[j2]).dest == j;
                    assert(dest_reached_before(m, j, n as int, 0));
                }
                if dest_reached_before(m, j, n as int, 0) {
                    let (a2, j2): (int, int) = choose|a2: int, j2: int|
                        0 <= a2 < m.states.len() && 0 <= j2 < m.states[a2].transitions.len() && (a2
                            < n as int || (a2 == n as int && j2 < 0)) && (
                        #[trigger] m.states[a2].transitions[j2]).dest == j;
                    assert(dest_reached(m, j));
                }
            }
            lemma_kept_prefix_sound(m, n as int);
        }

        let mut remap: Vec<usize> = Vec::new();
        let mut cnt: usize = 0;
        let mut i2: usize = 0;
        while i2 < n
            invariant
                i2 <= n,
                n == m.states.len(),
                reached@.len() == n,
                forall|j: int| 0 <= j < n ==> (#[trigger] reached@[j] <==> dest_reached(m, j)),
                remap@.len() == i2,
                cnt == kept_prefix(m, i2 as int).len(),
                cnt <= i2,
                forall|j: int| 0 <= j < i2 ==> #[trigger] remap@[j] == renumber(m, j),
            decreases n - i2,
        {
            remap.push(cnt);
            if reached[i2] {
                cnt += 1;
            }
            i2 += 1;
        }

        let ghost orig = self.states@;
        proof {
            assert(kept_prefix(m, n as int) == kept(m));
        }
        let mut final_states: Vec<State<S, MaybeEpsilonTransition<L>>> = Vec::new();
        let mut i3: usize = 0;
        while i3 < n
            invariant
                i3 <= n,
                n == m.states.len(),
                n == orig.len(),
                dests_valid(m),
                reached@.len() == n,
                remap@.len() == n,
                forall|j: int| 0 <= j < n ==> (#[trigger] reached@[j] <==> dest_reached(m, j)),
                forall|j: int| 0 <= j < n ==> #[trigger] remap@[j] == renumber(m, j),
                self.states@ =~= orig.skip(i3 as int),
                m.states == orig.map_values(
                    |st: State<S, MaybeEpsilonTransition<L>>| state_model(st),
                ),
                m.start == old(self).start as int,
                self.start == old(self).start,
                final_states@.len() == kept_prefix(m, i3 as int).len(),
                forall|kk: int|
                    0 <= kk < final_states@.len() ==> state_model(#[trigger] final_states@[kk])
                        == prune(m).states[kk],
            decreases n - i3,
        {
            proof {
                lemma_kept_prefix_sound(m, i3 as int + 1);
            }
            let ghost prev = kept_prefix(m, i3 as int);
            let ghost curk = kept_prefix(m, i3 as int + 1);
            let mut st = self.states.remove(0);
            proof {
                assert(st == orig[i3 as int]);
                assert(self.states@ =~= orig.skip(i3 as int + 1));
                assert(state_model(st) == m.states[i3 as int]);
            }
            if reached[i3] {
                proof {
                    assert(curk =~= prev.push(i3));
                    lemma_renumber_reached(m, i3 as int);
                    assert(kept(m)[renumber(m, i3 as int)] == i3);
                    assert(prune(m).states[prev.len() as int] == prune_state_model(
                        m,
                        m.states[i3 as int],
                    ));
                }
                let mut nt_vec: Vec<MaybeEpsilonTransition<L>> = Vec::new();
                let tn = st.transitions.len();
                let mut tj: usize = 0;
                while tj < tn
                    invariant
                        tj <= tn,
                        n == m.states.len(),
                        remap@.len() == n,
                        forall|j: int| 0 <= j < n ==> #[trigger] remap@[j] == renumber(m, j),
                        0 <= i3 < n,
                        state_model(st) == m.states[i3 as int],
                        tn == st.transitions@.len(),
                        dests_valid(m),
                        nt_vec@ =~= st.transitions@.take(tj as int).map_values(
                            |t: MaybeEpsilonTransition<L>| prune_transition(m, t),
                        ),
                    decreases tn - tj,
                {
                    let t = st.transitions[tj];
                    proof {
                        assert(m.states[i3 as int].transitions[tj as int] == t);
                        assert(t.dest < n);
                    }
                    nt_vec.push(MaybeEpsilonTransition { kind: t.kind, dest: remap[t.dest] });
                    proof {
                        assert(st.transitions@.take(tj as int + 1).map_values(
                            |t: MaybeEpsilonTransition<L>| prune_transition(m, t),
                        ) =~= st.transitions@.take(tj as int).map_values(
                            |t: MaybeEpsilonTransition<L>| prune_transition(m, t),
                        ).push(prune_transition(m, st.transitions@[tj as int])));
                    }
                    tj += 1;
                }
                proof {
                    assert(st.transitions@.take(tn as int) =~= st.transitions@);
                }
                let ghost st_orig_model = state_model(st);
                st.transitions = nt_vec;
                let ghost fs_pre = final_states@;
                final_states.push(st);
                proof {
                    assert(state_model(final_states@[fs_pre.len() as int]) =~~= prune_state_model(
                        m,
                        st_orig_model,
                    ));
                    assert forall|kk: int|
                        0 <= kk < final_states@.len() implies state_model(
                        #[trigger] final_states@[kk],
                    ) == prune(m).states[kk] by {
                        if kk < fs_pre.len() {
                            assert(final_states@[kk] == fs_pre[kk]);
                        }
                    }
                }
            } else {
                proof {
                    assert(curk =~= prev);
                }
            }
            i3 += 1;
        }
        proof {
            lemma_kept_prefix_sound(m, n as int);
        }

        self.states = final_states;
        let new_start = remap[self.start];
        self.start = new_start;
        proof {
            assert(dest_reached(m, m.start));
            lemma_renumber_reached(m, m.start);
            assert(self@.states =~~= prune(m).states);
            assert(self@ =~~= prune(m));
            assert forall|a2: int, j2: int|
                0 <= a2 < prune(m).states.len() && 0 <= j2 < prune(
                    m,
                ).states[a2].transitions.len() implies (#[trigger] prune(
                m,
            ).states[a2].transitions[j2]).dest < prune(m).states.len() && !(prune(
                m,
            ).states[a2].transitions[j2].kind is Epsilon) by {
                let oi = kept(m)[a2];
                assert(prune(m).states[a2] == prune_state_model(m, m.states[oi as int]));
                let ot = m.states[oi as int].transitions[j2];
                assert(prune(m).states[a2].transitions[j2] == prune_transition(m, ot));
                lemma_kept_prefix_sound(m, n as int);
                assert(0 <= oi < n && dest_reached(m, oi as int));
                assert(ot.dest < n);
                assert(dest_reached(m, ot.dest as int));
                lemma_renumber_reached(m, ot.dest as int);
            }
        }
    }
}


/// Every transition that filtering keeps is one of the originals, and none
/// of them is an epsilon transition.
proof fn lemma_non_eps_props<L: Copy>(trs: Seq<MaybeEpsilonTransition<L>>, k: int)
    requires
        0 <= k <= trs.len(),
    ensures
        forall|i: int|
            0 <= i < non_eps_prefix(trs, k).len() ==> !((#[trigger] non_eps_prefix(trs, k)[i]).kind
                is Epsilon) && exists|j: int| 0 <= j < trs.len() && trs[j] == non_eps_prefix(
                trs,
                k,
            )[i],
    decreases k,
{
    if k > 0 {
        lemma_non_eps_props(trs, k - 1);
        let prev = non_eps_prefix(trs, k - 1);
        let cur = non_eps_prefix(trs, k);
        assert forall|i: int|
            0 <= i < cur.len() implies !((#[trigger] cur[i]).kind is Epsilon) && exists|j: int|
            0 <= j < trs.len() && trs[j] == cur[i] by {
            if i < prev.len() {
                assert(cur[i] == prev[i]);
            } else {
                assert(cur[i] == trs[k - 1]);
            }
        }
    }
}

/// Every absorbed transition is a non-epsilon transition of some state of
/// the machine.
proof fn lemma_absorbed_props<L: Copy, S>(m: MachineModel<L, S>, cl: Seq<usize>, k: int)
    requires
        0 <= k <= cl.len(),
        forall|j: int| 0 <= j < cl.len() ==> (#[trigger] cl[j]) < m.states.len(),
    ensures
        forall|i: int|
            0 <= i < absorbed_prefix(m, cl, k).len() ==> !((#[trigger] absorbed_prefix(
                m,
                cl,
                k,
            )[i]).kind is Epsilon) && exists|c: int, j: int|
                0 <= c < m.states.len() && 0 <= j < m.states[c].transitions.len()
                    && m.states[c].transitions[j] == absorbed_prefix(m, cl, k)[i],
    decreases k,
{
    if k > 0 {
        lemma_absorbed_props(m, cl, k - 1);
        let ci = cl[k - 1] as int;
        let trs = m.states[ci].transitions;
        lemma_non_eps_props(trs, trs.len() as int);
        let prev = absorbed_prefix(m, cl, k - 1);
        let cur = absorbed_prefix(m, cl, k);
        assert forall|i: int|
            0 <= i < cur.len() implies !((#[trigger] cur[i]).kind is Epsilon) && exists|c: int, j: int|
            0 <= c < m.states.len() && 0 <= j < m.states[c].transitions.len()
                && m.states[c].transitions[j] == cur[i] by {
            if i < prev.len() {
                assert(cur[i] == prev[i]);
            } else {
                assert(cur[i] == non_eps(trs)[i - prev.len()]);
                let j = choose|j: int| 0 <= j < trs.len() && trs[j] == cur[i];
                assert(m.states[ci].transitions[j] == cur[i]);
            }
        }
    }
}

/// Simplifying states `0 .. k` keeps every destination valid, leaves the
/// shape alone, rewrites only the states below `k`, and leaves those
/// epsilon-free.
proof fn lemma_simplify_upto_props<L: Copy, S>(m: MachineModel<L, S>, k: int)
    requires
        dests_valid(m),
        0 <= k <= m.states.len(),
        m.states.len() <= usize::MAX,
    ensures
        dests_valid(simplify_upto(m, k)),
        simplify_upto(m, k).states.len() == m.states.len(),
        simplify_upto(m, k).start == m.start,
        forall|i: int| k <= i < m.states.len() ==> simplify_upto(m, k).states[i] == m.states[i],
        forall|i: int, j: int|
            0 <= i < k && 0 <= j < simplify_upto(m, k).states[i].transitions.len() ==> !((
            #[trigger] simplify_upto(m, k).states[i].transitions[j]).kind is Epsilon),
    decreases k,
{
    lemma_simplify_upto_shape(m, k);
    if k > 0 {
        lemma_simplify_upto_props(m, k - 1);
        let mp = simplify_upto(m, k - 1);
        let mk = simplify_upto(m, k);
        let s = k - 1;
        lemma_closure_prefix_sound(mp, s, mp.states.len() as int);
        let cl = closure_seq(mp, s);
        lemma_absorbed_props(mp, cl, cl.len() as int);
        assert(mk == simplify_state(mp, s));
        assert(mk.states[s].transitions == absorbed(mp, s));
        assert forall|i: int, j: int|
            0 <= i < mk.states.len() && 0 <= j < mk.states[i].transitions.len() implies (
        #[trigger] mk.states[i].transitions[j]).dest < mk.states.len() by {
            if i == s {
                let t = mk.states[i].transitions[j];
                let (c, j2): (int, int) = choose|c: int, j2: int|
                    0 <= c < mp.states.len() && 0 <= j2 < mp.states[c].transitions.len()
                        && mp.states[c].transitions[j2] == t;
                assert(mp.states[c].transitions[j2].dest < mp.states.len());
            } else {
                assert(mk.states[i] == mp.states[i]);
                assert(mp.states[i].transitions[j].dest < mp.states.len());
            }
        }
        assert forall|i: int, j: int|
            0 <= i < k && 0 <= j < mk.states[i].transitions.len() implies !((
        #[trigger] mk.states[i].transitions[j]).kind is Epsilon) by {
            if i == s {
            } else {
                assert(mk.states[i] == mp.states[i]);
                assert(!(mp.states[i].transitions[j].kind is Epsilon));
            }
        }
    }
}

impl<L, S> NFAe<L, S> where L: Copy {
    /// Bounds-checked mutable state lookup: a borrow that lets the caller
    /// edit the state in place; the machine afterwards holds whatever the
    /// caller left there.
    pub fn get_state_mut(&mut self, state: usize) -> (r: Option<
        &mut State<S, MaybeEpsilonTransition<L>>,
    >)
        ensures
            (r is Some) <==> state < old(self).states@.len(),
            r is None ==> final(self).states@ == old(self).states@ && final(self).start == old(
                self,
            ).start,
            r matches Some(st) ==> *st == old(self).states@[state as int] && final(self).states@
                == old(self).states@.update(state as int, *final(st)) && final(self).start == old(
                self,
            ).start,
    {
        if state < self.states.len() {
            Some(&mut self.states[state])
        } else {
            None
        }
    }

    /// Converts this epsilon machine into an equivalent epsilon-free one:
    /// simplifies every state, prunes the orphan states, and converts the
    /// surviving transitions to symbol-only form, which the simplification
    /// guarantees cannot fail.
    pub fn into_nfa(self) -> (r: NFA<L, S>)
        requires
            dests_valid(self@),
            self.wf(),
        ensures
            ({
                let p = prune(simplify_upto(self@, self@.states.len() as int));
                &&& r.states@.len() == p.states.len()
                &&& forall|i: int|
                    0 <= i < p.states.len() ==> (#[trigger] r.states@[i]).data == p.states[i].data
                        && r.states@[i].finish == p.states[i].finish && r.states@[i].transitions@
                        == p.states[i].transitions.map_values(
                        |t: MaybeEpsilonTransition<L>| real_of(t),
                    )
                &&& r.start as int == p.start
                &&& r.wf()
            }),
    {
        let ghost m0 = self@;
        let mut me = self;
        let n0 = me.states.len();
        proof {
            assert(m0.states.len() == n0);
        }
        me.epsilon_simplify_all();
        proof {
            lemma_simplify_upto_props(m0, m0.states.len() as int);
            assert(machine_no_eps(me@));
            assert(me.wf());
        }
        me.remove_orphan_states();
        let ghost pm = me@;
        proof {
            assert(pm == prune(simplify_upto(m0, m0.states.len() as int)));
            assert(0 <= pm.start < pm.states.len());
        }
        let n2 = me.states.len();
        let mut out: Vec<State<S, RealTransition<L>>> = Vec::new();
        let ghost orig2 = me.states@;
        let mut i: usize = 0;
        while i < n2
            invariant
                i <= n2,
                n2 == pm.states.len(),
                n2 == orig2.len(),
                machine_no_eps(pm),
                me.start as int == pm.start,
                me.states@ =~= orig2.skip(i as int),
                pm.states == orig2.map_values(
                    |st: State<S, MaybeEpsilonTransition<L>>| state_model(st),
                ),
                out@.len() == i,
                forall|k: int|
                    0 <= k < i ==> (#[trigger] out@[k]).data == pm.states[k].data
                        && out@[k].finish == pm.states[k].finish && out@[k].transitions@
                        == pm.states[k].transitions.map_values(
                        |t: MaybeEpsilonTransition<L>| real_of(t),
                    ),
            decreases n2 - i,
        {
            let st = me.states.remove(0);
            proof {
                assert(st == orig2[i as int]);
                assert(state_model(st) == pm.states[i as int]);
                assert(me.states@ =~= orig2.skip(i as int + 1));
                assert forall|j: int|
                    0 <= j < st.transitions@.len() implies !((#[trigger] st.transitions@[j]).kind
                    is Epsilon) by {
                    assert(pm.states[i as int].transitions[j] == st.transitions@[j]);
                }
            }
            match st.try_into_real() {
                Ok(converted) => {
                    out.push(converted);
                },
                Err(_) => {
                    proof {
                        assert(false);
                    }
                },
            }
            i += 1;
        }
        proof {
            assert(me.start < n2);
        }
        NFA { states: out, start: me.start }
    }
}


/// In an epsilon-free machine, epsilon-reachability is the identity on
/// valid states.
proof fn lemma_no_eps_reach<L: Copy, S>(m: MachineModel<L, S>)
    requires
        machine_no_eps(m),
    ensures
        forall|a: int, b: int|
            #[trigger] eps_reachable(m, a, b) <==> (a == b && valid_index(m, a)),
{
    assert forall|a: int, b: int|
        #[trigger] eps_reachable(m, a, b) <==> (a == b && valid_index(m, a)) by {
        if eps_reachable(m, a, b) {
            let p = choose|p: Seq<int>| is_eps_path(m, p, a, b);
            if p.len() >= 2 {
                assert(eps_step(m, p[0], p[1]));
                let j = choose|j: int|
                    0 <= j < m.states[p[0]].transitions.len() && (
                    #[trigger] m.states[p[0]].transitions[j]).kind is Epsilon
                        && m.states[p[0]].transitions[j].dest == p[1];
                assert(false);
            }
            assert(p[0] == p.last());
            assert(valid_index(m, p[0]));
        }
        if a == b && valid_index(m, a) {
            lemma_reach_self(m, a);
        }
    }
}

/// In an epsilon-free machine the closure of a valid state is that state
/// alone.
proof fn lemma_no_eps_closure<L: Copy, S>(m: MachineModel<L, S>, s: int, k: int)
    requires
        machine_no_eps(m),
        0 <= k <= usize::MAX,
    ensures
        closure_prefix(m, s, k) == if valid_index(m, s) && s < k {
            seq![s as usize]
        } else {
            Seq::<usize>::empty()
        },
    decreases k,
{
    lemma_no_eps_reach(m);
    if k <= 0 {
    } else {
        lemma_no_eps_closure(m, s, k - 1);
        if valid_index(m, s) && s < k {
            if s < k - 1 {
                assert(!eps_reachable(m, s, k - 1));
                assert(closure_prefix(m, s, k) =~= seq![s as usize]);
            } else {
                assert(eps_reachable(m, s, k - 1));
                assert(closure_prefix(m, s, k) =~= seq![s as usize]);
            }
        } else {
            if eps_reachable(m, s, k - 1) {
                assert(s == k - 1 && valid_index(m, s));
                assert(false);
            }
            assert(closure_prefix(m, s, k) =~= Seq::<usize>::empty());
        }
    }
}

/// Filtering a transition list without epsilon transitions keeps it
/// unchanged.
proof fn lemma_non_eps_identity<L: Copy>(trs: Seq<MaybeEpsilonTransition<L>>, k: int)
    requires
        0 <= k <= trs.len(),
        forall|j: int| 0 <= j < trs.len() ==> !((#[trigger] trs[j]).kind is Epsilon),
    ensures
        non_eps_prefix(trs, k) == trs.take(k),
    decreases k,
{
    if k > 0 {
        lemma_non_eps_identity(trs, k - 1);
        assert(non_eps_prefix(trs, k) =~= trs.take(k));
    } else {
        assert(non_eps_prefix(trs, k) =~= trs.take(k));
    }
}

/// Simplifying any state of an epsilon-free machine changes nothing.
proof fn lemma_no_eps_simplify_identity<L: Copy, S>(m: MachineModel<L, S>, s: int)
    requires
        machine_no_eps(m),
        m.states.len() <= usize::MAX,
    ensures
        simplify_state(m, s) == m,
{
    lemma_no_eps_reach(m);
    if valid_index(m, s) {
        lemma_no_eps_closure(m, s, m.states.len() as int);
        assert(closure_seq(m, s) == seq![s as usize]);
        let trs = m.states[s].transitions;
        assert forall|j: int| 0 <= j < trs.len() implies !((#[trigger] trs[j]).kind is Epsilon) by {
            assert(m.states[s].transitions[j] == trs[j]);
        }
        lemma_non_eps_identity(trs, trs.len() as int);
        assert(trs.take(trs.len() as int) =~= trs);
        let cl = closure_seq(m, s);
        assert(cl.len() == 1);
        assert(cl[0] == s as usize);
        assert(absorbed_prefix(m, cl, 0) == Seq::<MaybeEpsilonTransition<L>>::empty());
        assert(absorbed_prefix(m, cl, 1) == absorbed_prefix(m, cl, 0) + non_eps(
            m.states[cl[0] as int].transitions,
        ));
        assert(absorbed(m, s) =~= trs);
        assert((exists|c: int| eps_reachable(m, s, c) && m.states[c].finish) <==> m.states[s].finish)
            by {
            if m.states[s].finish {
                lemma_reach_self(m, s);
            }
        }
        assert(StateModel {
            data: m.states[s].data,
            transitions: absorbed(m, s),
            finish: exists|c: int| eps_reachable(m, s, c) && m.states[c].finish,
        } =~~= m.states[s]);
        assert(m.states.update(s, m.states[s]) =~= m.states);
        assert(simplify_state(m, s) =~~= m);
    }
}

proof fn lemma_no_eps_simplify_upto<L: Copy, S>(m: MachineModel<L, S>, k: int)
    requires
        machine_no_eps(m),
        m.states.len() <= usize::MAX,
    ensures
        simplify_upto(m, k) == m,
    decreases k,
{
    if k > 0 {
        lemma_no_eps_simplify_upto(m, k - 1);
        lemma_no_eps_simplify_identity(m, k - 1);
    }
}

/// When every state survives, the surviving list is the identity listing.
proof fn lemma_all_reached_kept_identity<L: Copy, S>(m: MachineModel<L, S>, k: int)
    requires
        0 <= k <= m.states.len(),
        m.states.len() <= usize::MAX,
        forall|i: int| 0 <= i < m.states.len() ==> #[trigger] dest_reached(m, i),
    ensures
        kept_prefix(m, k) == Seq::new(k as nat, |i: int| i as usize),
    decreases k,
{
    if k > 0 {
        lemma_all_reached_kept_identity(m, k - 1);
        assert(dest_reached(m, k - 1));
        assert(kept_prefix(m, k) =~= Seq::new(k as nat, |i: int| i as usize));
    } else {
        assert(kept_prefix(m, k) =~= Seq::new(0nat, |i: int| i as usize));
    }
}

/// When every state survives, pruning changes nothing.
proof fn lemma_all_reached_prune_identity<L: Copy, S>(m: MachineModel<L, S>)
    requires
        dests_valid(m),
        0 <= m.start < m.states.len(),
        m.states.len() <= usize::MAX,
        forall|i: int| 0 <= i < m.states.len() ==> #[trigger] dest_reached(m, i),
    ensures
        prune(m) == m,
{
    let n = m.states.len() as int;
    assert forall|d: int| 0 <= d <= n implies renumber(m, d) == d by {
        lemma_all_reached_kept_identity(m, d);
    }
    lemma_all_reached_kept_identity(m, n);
    assert forall|i: int| 0 <= i < n implies prune(m).states[i] == m.states[i] by {
        assert(kept(m)[i] == i as usize);
        assert(prune(m).states[i] == prune_state_model(m, m.states[i]));
        let st = m.states[i];
        assert forall|j: int|
            0 <= j < st.transitions.len() implies st.transitions.map_values(
            |t: MaybeEpsilonTransition<L>| prune_transition(m, t),
        )[j] == st.transitions[j] by {
            let t = st.transitions[j];
            assert(m.states[i].transitions[j] == t);
            assert(t.dest < n);
            assert(renumber(m, t.dest as int) == t.dest as int);
            assert(prune_transition(m, t) == t);
        }
        assert(st.transitions.map_values(|t: MaybeEpsilonTransition<L>| prune_transition(m, t))
            =~= st.transitions);
        assert(prune_state_model(m, st) =~~= st);
    }
    assert(prune(m).states =~~= m.states);
    assert(renumber(m, m.start) == m.start);
    assert(prune(m) =~~= m);
}

/// Converting a machine that has no epsilon transitions at all, and in
/// which every state survives pruning, preserves the state count, the
/// start index, every finish flag and every transition exactly: the whole
/// simplify-and-prune pipeline is the identity on such a machine.
pub proof fn lemma_no_eps_round_trip<L: Copy, S>(m: MachineModel<L, S>)
    requires
        machine_no_eps(m),
        dests_valid(m),
        0 <= m.start < m.states.len(),
        m.states.len() <= usize::MAX,
        forall|i: int| 0 <= i < m.states.len() ==> #[trigger] dest_reached(m, i),
    ensures
        prune(simplify_upto(m, m.states.len() as int)) == m,
{
    lemma_no_eps_simplify_upto(m, m.states.len() as int);
    lemma_all_reached_prune_identity(m);
}

} // verus!
