//! Thompson's construction: compiles a parsed pattern into a
//! nondeterministic finite automaton. States live in an arena and refer to
//! one another by index, so the graph may hold the backward epsilon edges
//! that the looping quantifiers need.

use vstd::prelude::*;

use crate::parser::{RegexAST, RegexASTModifier};

verus! {

/// One node of the automaton graph: a stable identifier (its own arena
/// index), the character transitions, the epsilon transitions, and whether
/// the state accepts.
pub struct State {
    pub id: usize,
    pub transitions: Vec<(char, usize)>,
    pub e_transitions: Vec<usize>,
    pub is_accepting: bool,
}

/// The mathematical image of a state, with indices as unbounded integers.
#[verifier::ext_equal]
pub struct GState {
    pub id: int,
    pub trans: Seq<(char, int)>,
    pub eps: Seq<int>,
    pub accepting: bool,
}

impl View for State {
    type V = GState;

    open spec fn view(&self) -> GState {
        GState {
            id: self.id as int,
            trans: self.transitions@.map_values(|t: (char, usize)| (t.0, t.1 as int)),
            eps: self.e_transitions@.map_values(|t: usize| t as int),
            accepting: self.is_accepting,
        }
    }
}

/// The image of a whole arena.
pub open spec fn seq_view(s: Seq<State>) -> Seq<GState> {
    s.map_values(|st: State| st@)
}

/// A fragment of the automaton under construction: the arena indices of its
/// single entry and single exit state.
#[derive(Clone, Copy, Debug, PartialEq, Eq, Structural)]
pub struct StateMod {
    pub start: usize,
    pub end: usize,
}

impl StateMod {
    /// The entry state of the fragment.
    pub fn get_start_state(&self) -> (r: usize)
        ensures
            r == self.start,
    {
        self.start
    }
}

/// The mathematical image of a finished automaton.
#[verifier::ext_equal]
pub struct GAut {
    pub states: Seq<GState>,
    pub start: int,
    pub end: int,
}

/// A compiled automaton: the state arena and the top-level fragment, whose
/// exit is the one accepting state.
pub struct Automaton {
    pub states: Vec<State>,
    pub fragment: StateMod,
}

impl View for Automaton {
    type V = GAut;

    open spec fn view(&self) -> GAut {
        GAut {
            states: seq_view(self.states@),
            start: self.fragment.start as int,
            end: self.fragment.end as int,
        }
    }
}

impl State {
    /// The state's identifier: its own index in the arena.
    pub fn get_id(&self) -> (r: usize)
        ensures
            r as int == self@.id,
    {
        self.id
    }

    /// The character transitions, as pairs of consumed character and target.
    pub fn get_transitions(&self) -> (r: &Vec<(char, usize)>)
        ensures
            r@ == self.transitions@,
    {
        &self.transitions
    }

    /// The outgoing epsilon transitions, as target indices.
    pub fn get_e_transitions(&self) -> (r: &Vec<usize>)
        ensures
            r@ == self.e_transitions@,
    {
        &self.e_transitions
    }

    /// Whether the state accepts.
    pub fn is_accepting(&self) -> (r: bool)
        ensures
            r == self@.accepting,
    {
        self.is_accepting
    }
}

/// One state at position `i` is well formed: its identifier is its index and
/// every transition target lies inside the arena.
pub open spec fn wf_state_at(states: Seq<GState>, i: int) -> bool {
    &&& states[i].id == i
    &&& (forall|k: int|
        0 <= k < states[i].trans.len() ==> 0 <= (#[trigger] states[i].trans[k]).1 < states.len())
    &&& (forall|k: int|
        0 <= k < states[i].eps.len() ==> 0 <= #[trigger] states[i].eps[k] < states.len())
}

/// Every state of the arena is well formed.
pub open spec fn wf_states(states: Seq<GState>) -> bool {
    forall|i: int| 0 <= i < states.len() ==> #[trigger] wf_state_at(states, i)
}

/// A well-formed automaton: a well-formed arena with entry and exit inside it.
pub open spec fn wf_aut(a: GAut) -> bool {
    &&& wf_states(a.states)
    &&& 0 <= a.start < a.states.len()
    &&& 0 <= a.end < a.states.len()
}

/// The arena extended by one fresh state: next identifier, no transitions,
/// not accepting.
pub open spec fn sp_fresh(states: Seq<GState>) -> Seq<GState> {
    states.push(
        GState { id: states.len() as int, trans: Seq::empty(), eps: Seq::empty(), accepting: false },
    )
}

/// The arena with one more epsilon edge from `from` to `to`.
pub open spec fn sp_add_eps(states: Seq<GState>, from: int, to: int) -> Seq<GState> {
    states.update(
        from,
        GState {
            id: states[from].id,
            trans: states[from].trans,
            eps: states[from].eps.push(to),
            accepting: states[from].accepting,
        },
    )
}

/// The arena with one more character transition at `at`, consuming `c` into
/// `to`.
pub open spec fn sp_add_trans(states: Seq<GState>, at: int, c: char, to: int) -> Seq<GState> {
    states.update(
        at,
        GState {
            id: states[at].id,
            trans: states[at].trans.push((c, to)),
            eps: states[at].eps,
            accepting: states[at].accepting,
        },
    )
}

/// The arena with the state at `at` flagged accepting.
pub open spec fn sp_accept(states: Seq<GState>, at: int) -> Seq<GState> {
    states.update(
        at,
        GState {
            id: states[at].id,
            trans: states[at].trans,
            eps: states[at].eps,
            accepting: true,
        },
    )
}

/// Thompson's construction at the specification level: compiling `ast`
/// appends its fragment to `states` and returns the new arena together with
/// the fragment's entry and exit indices.
pub open spec fn sp_build(states: Seq<GState>, ast: RegexAST) -> (Seq<GState>, int, int)
    decreases ast,
{
    match ast {
        RegexAST::Const(c) => {
            let entry = states.len() as int;
            let s1 = sp_fresh(sp_fresh(states));
            (sp_add_trans(s1, entry, c, entry + 1), entry, entry + 1)
        },
        RegexAST::Concat(l, r) => {
            let (s1, en1, ex1) = sp_build(states, *l);
            let (s2, en2, ex2) = sp_build(s1, *r);
            (sp_add_eps(s2, ex1, en2), en1, ex2)
        },
        RegexAST::Alternation(l, r) => {
            let (s1, en1, ex1) = sp_build(states, *l);
            let (s2, en2, ex2) = sp_build(s1, *r);
            let entry = s2.len() as int;
            let exit = entry + 1;
            let s3 = sp_add_eps(sp_add_eps(sp_fresh(sp_fresh(s2)), entry, en1), entry, en2);
            (sp_add_eps(sp_add_eps(s3, ex1, exit), ex2, exit), entry, exit)
        },
        RegexAST::Group(inner) => sp_build(states, *inner),
        RegexAST::Modifier(b, m) => {
            let entry = states.len() as int;
            let exit = entry + 1;
            let (s1, en_b, ex_b) = sp_build(sp_fresh(sp_fresh(states)), *b);
            let s2 = sp_add_eps(s1, entry, en_b);
            match m {
                RegexASTModifier::Star => (
                    sp_add_eps(sp_add_eps(sp_add_eps(s2, entry, exit), ex_b, en_b), ex_b, exit),
                    entry,
                    exit,
                ),
                RegexASTModifier::Plus => (
                    sp_add_eps(sp_add_eps(s2, ex_b, en_b), ex_b, exit),
                    entry,
                    exit,
                ),
                RegexASTModifier::Optional => (
                    sp_add_eps(sp_add_eps(s2, entry, exit), ex_b, exit),
                    entry,
                    exit,
                ),
            }
        },
    }
}

/// The finished automaton for `ast`: built from an empty arena, with the
/// outermost exit flagged as the one accepting state.
pub open spec fn sp_nfa(ast: RegexAST) -> GAut {
    let (s, entry, exit) = sp_build(Seq::empty(), ast);
    GAut { states: sp_accept(s, exit), start: entry, end: exit }
}

/// What compiling one node into the arena leaves behind: the arena holds
/// exactly the specification-level construction, the fragment's indices are
/// its entry and exit, and both lie in the freshly built part.
pub open spec fn built_ok(
    old_states: Seq<GState>,
    new_states: Seq<GState>,
    ast: RegexAST,
    frag: StateMod,
) -> bool {
    let (s, en, ex) = sp_build(old_states, ast);
    &&& new_states == s
    &&& frag.start as int == en
    &&& frag.end as int == ex
    &&& old_states.len() <= frag.start < new_states.len()
    &&& old_states.len() <= frag.end < new_states.len()
}

fn new_state(states: &mut Vec<State>) -> (idx: usize)
    ensures
        seq_view(final(states)@) == sp_fresh(seq_view(old(states)@)),
        idx == old(states)@.len(),
        final(states)@.len() == old(states)@.len() + 1,
{
    let id = states.len();
    states.push(
        State { id, transitions: Vec::new(), e_transitions: Vec::new(), is_accepting: false },
    );
    proof {
        assert(seq_view(states@) =~~= sp_fresh(seq_view(old(states)@)));
    }
    id
}

fn add_e_transition(states: &mut Vec<State>, from: usize, to: usize)
    requires
        from < old(states)@.len(),
    ensures
        seq_view(final(states)@) == sp_add_eps(seq_view(old(states)@), from as int, to as int),
        final(states)@.len() == old(states)@.len(),
{
    let st = &mut states[from];
    st.e_transitions.push(to);
    proof {
        assert(seq_view(states@) =~~= sp_add_eps(seq_view(old(states)@), from as int, to as int));
    }
}

fn add_transition(states: &mut Vec<State>, at: usize, c: char, to: usize)
    requires
        at < old(states)@.len(),
    ensures
        seq_view(final(states)@) == sp_add_trans(seq_view(old(states)@), at as int, c, to as int),
        final(states)@.len() == old(states)@.len(),
{
    let st = &mut states[at];
    st.transitions.push((c, to));
    proof {
        assert(seq_view(states@) =~~= sp_add_trans(
            seq_view(old(states)@),
            at as int,
            c,
            to as int,
        ));
    }
}

fn set_accepting(states: &mut Vec<State>, at: usize)
    requires
        at < old(states)@.len(),
    ensures
        seq_view(final(states)@) == sp_accept(seq_view(old(states)@), at as int),
        final(states)@.len() == old(states)@.len(),
{
    let st = &mut states[at];
    st.is_accepting = true;
    proof {
        assert(seq_view(states@) =~~= sp_accept(seq_view(old(states)@), at as int));
    }
}

fn build_const_nfa(states: &mut Vec<State>, ast: &RegexAST) -> (frag: StateMod)
    requires
        *ast is Const,
    ensures
        built_ok(seq_view(old(states)@), seq_view(final(states)@), *ast, frag),
    decreases *ast, 0int,
{
    match ast {
        RegexAST::Const(c) => {
            let start = new_state(states);
            let end = new_state(states);
            add_transition(states, start, *c, end);
            StateMod { start, end }
        },
        _ => vstd::pervasive::unreached(),
    }
}

fn build_concat_nfa(states: &mut Vec<State>, ast: &RegexAST) -> (frag: StateMod)
    requires
        *ast is Concat,
    ensures
        built_ok(seq_view(old(states)@), seq_view(final(states)@), *ast, frag),
    decreases *ast, 0int,
{
    match ast {
        RegexAST::Concat(b1, b2) => {
            let nfa_1 = build_nfa_inner(states, b1);
            let nfa_2 = build_nfa_inner(states, b2);
            add_e_transition(states, nfa_1.end, nfa_2.start);
            StateMod { start: nfa_1.start, end: nfa_2.end }
        },
        _ => vstd::pervasive::unreached(),
    }
}

fn build_alternation_nfa(states: &mut Vec<State>, ast: &RegexAST) -> (frag: StateMod)
    requires
        *ast is Alternation,
    ensures
        built_ok(seq_view(old(states)@), seq_view(final(states)@), *ast, frag),
    decreases *ast, 0int,
{
    match ast {
        RegexAST::Alternation(b1, b2) => {
            let nfa_1 = build_nfa_inner(states, b1);
            let nfa_2 = build_nfa_inner(states, b2);
            let start = new_state(states);
            let end = new_state(states);
            add_e_transition(states, start, nfa_1.start);
            add_e_transition(states, start, nfa_2.start);
            add_e_transition(states, nfa_1.end, end);
            add_e_transition(states, nfa_2.end, end);
            StateMod { start, end }
        },
        _ => vstd::pervasive::unreached(),
    }
}

fn build_modifier_nfa(states: &mut Vec<State>, ast: &RegexAST) -> (frag: StateMod)
    requires
        *ast is Modifier,
    ensures
        built_ok(seq_view(old(states)@), seq_view(final(states)@), *ast, frag),
    decreases *ast, 0int,
{
    match ast {
        RegexAST::Modifier(base, modifier) => {
            let start = new_state(states);
            let end = new_state(states);
            let base_nfa = build_nfa_inner(states, base);
            add_e_transition(states, start, base_nfa.start);
            match modifier {
                RegexASTModifier::Star => {
                    add_e_transition(states, start, end);
                    add_e_transition(states, base_nfa.end, base_nfa.start);
                    add_e_transition(states, base_nfa.end, end);
                },
                RegexASTModifier::Plus => {
                    add_e_transition(states, base_nfa.end, base_nfa.start);
                    add_e_transition(states, base_nfa.end, end);
                },
                RegexASTModifier::Optional => {
                    add_e_transition(states, start, end);
                    add_e_transition(states, base_nfa.end, end);
                },
            }
            StateMod { start, end }
        },
        _ => vstd::pervasive::unreached(),
    }
}

fn build_nfa_inner(states: &mut Vec<State>, ast: &RegexAST) -> (frag: StateMod)
    ensures
        built_ok(seq_view(old(states)@), seq_view(final(states)@), *ast, frag),
    decreases *ast, 1int,
{
    match ast {
        RegexAST::Const(_) => build_const_nfa(states, ast),
        RegexAST::Concat(_, _) => build_concat_nfa(states, ast),
        RegexAST::Alternation(_, _) => build_alternation_nfa(states, ast),
        RegexAST::Modifier(_, _) => build_modifier_nfa(states, ast),
        RegexAST::Group(inner) => build_nfa_inner(states, inner),
    }
}

/// Construction preserves well-formedness of what stood in the arena and
/// makes every state of the new part well formed.
pub proof fn lemma_sp_build_wf(states: Seq<GState>, ast: RegexAST)
    requires
        wf_states(states),
    ensures
        ({
            let (s, en, ex) = sp_build(states, ast);
            &&& wf_states(s)
            &&& states.len() <= en < s.len()
            &&& states.len() <= ex < s.len()
        }),
    decreases ast,
{
    let (s, en, ex) = sp_build(states, ast);
    match ast {
        RegexAST::Const(c) => {
            lemma_fresh_wf(states);
            lemma_fresh_wf(sp_fresh(states));
            lemma_add_trans_wf(sp_fresh(sp_fresh(states)), states.len() as int, c, states.len() as int + 1);
        },
        RegexAST::Concat(l, r) => {
            lemma_sp_build_wf(states, *l);
            let (s1, en1, ex1) = sp_build(states, *l);
            lemma_sp_build_wf(s1, *r);
            let (s2, en2, ex2) = sp_build(s1, *r);
            lemma_add_eps_wf(s2, ex1, en2);
        },
        RegexAST::Alternation(l, r) => {
            lemma_sp_build_wf(states, *l);
            let (s1, en1, ex1) = sp_build(states, *l);
            lemma_sp_build_wf(s1, *r);
            let (s2, en2, ex2) = sp_build(s1, *r);
            let entry = s2.len() as int;
            let exit = entry + 1;
            lemma_fresh_wf(s2);
            lemma_fresh_wf(sp_fresh(s2));
            let f = sp_fresh(sp_fresh(s2));
            lemma_add_eps_wf(f, entry, en1);
            lemma_add_eps_wf(sp_add_eps(f, entry, en1), entry, en2);
            let s3 = sp_add_eps(sp_add_eps(f, entry, en1), entry, en2);
            lemma_add_eps_wf(s3, ex1, exit);
            lemma_add_eps_wf(sp_add_eps(s3, ex1, exit), ex2, exit);
        },
        RegexAST::Group(inner) => {
            lemma_sp_build_wf(states, *inner);
        },
        RegexAST::Modifier(b, m) => {
            let entry = states.len() as int;
            let exit = entry + 1;
            lemma_fresh_wf(states);
            lemma_fresh_wf(sp_fresh(states));
            lemma_sp_build_wf(sp_fresh(sp_fresh(states)), *b);
            let (s1, en_b, ex_b) = sp_build(sp_fresh(sp_fresh(states)), *b);
            lemma_add_eps_wf(s1, entry, en_b);
            let s2 = sp_add_eps(s1, entry, en_b);
            match m {
                RegexASTModifier::Star => {
                    lemma_add_eps_wf(s2, entry, exit);
                    lemma_add_eps_wf(sp_add_eps(s2, entry, exit), ex_b, en_b);
                    lemma_add_eps_wf(sp_add_eps(sp_add_eps(s2, entry, exit), ex_b, en_b), ex_b, exit);
                },
                RegexASTModifier::Plus => {
                    lemma_add_eps_wf(s2, ex_b, en_b);
                    lemma_add_eps_wf(sp_add_eps(s2, ex_b, en_b), ex_b, exit);
                },
                RegexASTModifier::Optional => {
                    lemma_add_eps_wf(s2, entry, exit);
                    lemma_add_eps_wf(sp_add_eps(s2, entry, exit), ex_b, exit);
                },
            }
        },
    }
}

proof fn lemma_fresh_wf(states: Seq<GState>)
    requires
        wf_states(states),
    ensures
        wf_states(sp_fresh(states)),
{
    let s = sp_fresh(states);
    assert forall|i: int| 0 <= i < s.len() implies #[trigger] wf_state_at(s, i) by {
        if i < states.len() {
            assert(wf_state_at(states, i));
            assert(s[i] == states[i]);
        }
    }
}

proof fn lemma_add_eps_wf(states: Seq<GState>, from: int, to: int)
    requires
        wf_states(states),
        0 <= from < states.len(),
        0 <= to < states.len(),
    ensures
        wf_states(sp_add_eps(states, from, to)),
{
    let s = sp_add_eps(states, from, to);
    assert forall|i: int| 0 <= i < s.len() implies #[trigger] wf_state_at(s, i) by {
        assert(wf_state_at(states, i));
        if i == from {
            assert(s[i].eps == states[i].eps.push(to));
            assert forall|k: int| 0 <= k < s[i].eps.len() implies 0 <= #[trigger] s[i].eps[k]
                < s.len() by {
                if k < states[i].eps.len() {
                    assert(s[i].eps[k] == states[i].eps[k]);
                }
            }
        } else {
            assert(s[i] == states[i]);
        }
    }
}

proof fn lemma_add_trans_wf(states: Seq<GState>, at: int, c: char, to: int)
    requires
        wf_states(states),
        0 <= at < states.len(),
        0 <= to < states.len(),
    ensures
        wf_states(sp_add_trans(states, at, c, to)),
{
    let s = sp_add_trans(states, at, c, to);
    assert forall|i: int| 0 <= i < s.len() implies #[trigger] wf_state_at(s, i) by {
        assert(wf_state_at(states, i));
        if i == at {
            assert(s[i].trans == states[i].trans.push((c, to)));
            assert forall|k: int| 0 <= k < s[i].trans.len() implies 0 <= (#[trigger] s[i].trans[k]).1
                < s.len() by {
                if k < states[i].trans.len() {
                    assert(s[i].trans[k] == states[i].trans[k]);
                }
            }
        } else {
            assert(s[i] == states[i]);
        }
    }
}

proof fn lemma_accept_wf(states: Seq<GState>, at: int)
    requires
        wf_states(states),
        0 <= at < states.len(),
    ensures
        wf_states(sp_accept(states, at)),
{
    let s = sp_accept(states, at);
    assert forall|i: int| 0 <= i < s.len() implies #[trigger] wf_state_at(s, i) by {
        assert(wf_state_at(states, i));
        if i == at {
            assert(s[i].trans == states[i].trans);
            assert(s[i].eps == states[i].eps);
        } else {
            assert(s[i] == states[i]);
        }
    }
}

/// Compiles a parsed pattern into its automaton by Thompson's construction
/// and flags the outermost exit state accepting.
pub fn build_nfa(ast: &RegexAST) -> (aut: Automaton)
    ensures
        aut@ == sp_nfa(*ast),
        wf_aut(aut@),
{
    let mut states: Vec<State> = Vec::new();
    proof {
        assert(seq_view(states@) =~~= Seq::<GState>::empty());
    }
    let frag = build_nfa_inner(&mut states, ast);
    set_accepting(&mut states, frag.end);
    proof {
        lemma_sp_build_wf(Seq::empty(), *ast);
        lemma_accept_wf(sp_build(Seq::empty(), *ast).0, frag.end as int);
    }
    Automaton { states, fragment: frag }
}

} // verus!
