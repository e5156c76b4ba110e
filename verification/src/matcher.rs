//! Matching: simulates the automaton against an input by epsilon-closure
//! stepping, without building a deterministic automaton and without
//! backtracking. The meaning of matching is stated through epsilon
//! reachability: paths of epsilon edges through the arena.

use vstd::prelude::*;
use vstd::seq_lib::*;
use vstd::set_lib::*;

use crate::nfa_builder::{
    seq_view, sp_nfa, wf_aut, wf_state_at, wf_states, Automaton, GAut, GState, State,
};
use crate::parser::RegexAST;

verus! {

/// An epsilon path: a nonempty run of state indices, each inside the arena,
/// each next one an epsilon target of the one before.
pub open spec fn is_e_path(sts: Seq<GState>, p: Seq<int>) -> bool {
    &&& p.len() >= 1
    &&& (forall|i: int| 0 <= i < p.len() ==> 0 <= #[trigger] p[i] < sts.len())
    &&& (forall|i: int| #![trigger p[i]] 0 <= i < p.len() - 1 ==> sts[p[i]].eps.contains(p[i + 1]))
}

/// Whether `to` can be reached from `from` by epsilon transitions alone.
pub open spec fn e_reachable(sts: Seq<GState>, from: int, to: int) -> bool {
    exists|p: Seq<int>| is_e_path(sts, p) && p.first() == from && p.last() == to
}

/// The epsilon closure of a set of states: everything reachable from one of
/// its members by epsilon transitions alone.
pub open spec fn e_closure_of(sts: Seq<GState>, roots: Set<int>) -> Set<int> {
    Set::new(|t: int| exists|f: int| #[trigger] roots.contains(f) && e_reachable(sts, f, t))
}

/// The targets that consuming `c` leads to from some state of `cur`.
pub open spec fn char_step(sts: Seq<GState>, cur: Set<int>, c: char) -> Set<int> {
    Set::new(
        |t: int|
            exists|f: int, k: int|
                #![trigger sts[f].trans[k]]
                {
                    &&& cur.contains(f)
                    &&& 0 <= f < sts.len()
                    &&& 0 <= k < sts[f].trans.len()
                    &&& sts[f].trans[k] == (c, t)
                },
    )
}

/// The set of live states once the first `i` characters of `s` have been
/// consumed, starting from the epsilon closure of the start state.
pub open spec fn sp_states_after(a: GAut, s: Seq<char>, i: int) -> Set<int>
    decreases i,
{
    if i <= 0 {
        e_closure_of(a.states, set![a.start])
    } else {
        e_closure_of(a.states, char_step(a.states, sp_states_after(a, s, i - 1), s[i - 1]))
    }
}

/// Whether some live state accepts.
pub open spec fn any_accepting(sts: Seq<GState>, cur: Set<int>) -> bool {
    exists|q: int| #[trigger] cur.contains(q) && 0 <= q < sts.len() && sts[q].accepting
}

/// Whether the automaton accepts the whole input: some state live after the
/// last character is the accepting state.
pub open spec fn spec_matches(a: GAut, s: Seq<char>) -> bool {
    any_accepting(a.states, sp_states_after(a, s, s.len() as int))
}

/// Whether `t` occurs in the worklist `c`.
pub open spec fn in_list(c: Seq<usize>, t: int) -> bool {
    exists|j: int| 0 <= j < c.len() && #[trigger] c[j] as int == t
}

/// The set of states a worklist holds.
pub open spec fn list_set(c: Seq<usize>) -> Set<int> {
    Set::new(|t: int| in_list(c, t))
}

/// Every epsilon target of state `v` occurs in `c`.
pub open spec fn succs_in(sts: Seq<GState>, v: int, c: Seq<usize>) -> bool {
    forall|m: int| 0 <= m < sts[v].eps.len() ==> in_list(c, #[trigger] sts[v].eps[m])
}

/// The worklist is closed under epsilon transitions.
pub open spec fn eps_closed(sts: Seq<GState>, c: Seq<usize>) -> bool {
    forall|j: int| 0 <= j < c.len() ==> succs_in(sts, (#[trigger] c[j]) as int, c)
}

proof fn lemma_reach_self(sts: Seq<GState>, a: int)
    requires
        0 <= a < sts.len(),
    ensures
        e_reachable(sts, a, a),
{
    let p = seq![a];
    assert(is_e_path(sts, p));
    assert(p.first() == a && p.last() == a);
}

proof fn lemma_reach_extend(sts: Seq<GState>, a: int, b: int, c: int)
    requires
        e_reachable(sts, a, b),
        sts[b].eps.contains(c),
        0 <= c < sts.len(),
    ensures
        e_reachable(sts, a, c),
{
    let p = choose|p: Seq<int>| is_e_path(sts, p) && p.first() == a && p.last() == b;
    let q = p.push(c);
    assert forall|i: int| 0 <= i < q.len() - 1 implies sts[q[i]].eps.contains(
        #[trigger] q[i + 1],
    ) by {
        if i < p.len() - 1 {
            assert(q[i] == p[i] && q[i + 1] == p[i + 1]);
        } else {
            assert(q[i] == p.last() && q[i + 1] == c);
        }
    }
    assert(is_e_path(sts, q));
    assert(q.first() == a && q.last() == c);
}

proof fn lemma_reach_trans(sts: Seq<GState>, a: int, b: int, c: int)
    requires
        e_reachable(sts, a, b),
        e_reachable(sts, b, c),
    ensures
        e_reachable(sts, a, c),
{
    let p1 = choose|p: Seq<int>| is_e_path(sts, p) && p.first() == a && p.last() == b;
    let p2 = choose|p: Seq<int>| is_e_path(sts, p) && p.first() == b && p.last() == c;
    if p2.len() == 1 {
        assert(b == c);
    } else {
        let q = p1 + p2.subrange(1, p2.len() as int);
        assert(q.len() == p1.len() + p2.len() - 1);
        assert forall|i: int| 0 <= i < q.len() implies 0 <= #[trigger] q[i] < sts.len() by {
            if i < p1.len() {
                assert(q[i] == p1[i]);
            } else {
                assert(q[i] == p2[i - p1.len() + 1]);
            }
        }
        assert forall|i: int| 0 <= i < q.len() - 1 implies sts[q[i]].eps.contains(
            #[trigger] q[i + 1],
        ) by {
            if i < p1.len() - 1 {
                assert(q[i] == p1[i] && q[i + 1] == p1[i + 1]);
            } else if i == p1.len() - 1 {
                assert(q[i] == p1.last());
                assert(q[i + 1] == p2[1]);
                assert(sts[p2[0]].eps.contains(p2[1]));
            } else {
                assert(q[i] == p2[i - p1.len() + 1] && q[i + 1] == p2[i - p1.len() + 2]);
            }
        }
        assert(is_e_path(sts, q));
        assert(q.first() == a && q.last() == c);
    }
}

/// A worklist that is closed under epsilon transitions holds the last state
/// of every epsilon path that starts inside it.
proof fn lemma_path_stays(sts: Seq<GState>, c: Seq<usize>, p: Seq<int>)
    requires
        eps_closed(sts, c),
        is_e_path(sts, p),
        in_list(c, p.first()),
    ensures
        in_list(c, p.last()),
    decreases p.len(),
{
    if p.len() > 1 {
        let j = choose|j: int| 0 <= j < c.len() && c[j] as int == p.first();
        assert(succs_in(sts, p.first(), c));
        assert(sts[p[0]].eps.contains(p[1]));
        let m = choose|m: int| 0 <= m < sts[p[0]].eps.len() && sts[p[0]].eps[m] == p[1];
        assert(in_list(c, sts[p[0]].eps[m]));
        let rest = p.subrange(1, p.len() as int);
        assert forall|i: int| 0 <= i < rest.len() - 1 implies sts[rest[i]].eps.contains(
            #[trigger] rest[i + 1],
        ) by {
            assert(rest[i] == p[i + 1] && rest[i + 1] == p[i + 2]);
            assert(sts[p[i + 1]].eps.contains(p[i + 2]));
        }
        assert(is_e_path(sts, rest));
        lemma_path_stays(sts, c, rest);
        assert(rest.last() == p.last());
    }
}

/// A worklist of distinct valid indices can hold at most one entry per state.
proof fn lemma_distinct_bounded(c: Seq<usize>, n: nat)
    requires
        c.no_duplicates(),
        forall|j: int| 0 <= j < c.len() ==> (#[trigger] c[j]) < n,
    ensures
        c.len() <= n,
{
    let m = c.map_values(|u: usize| u as int);
    assert(m.no_duplicates());
    m.unique_seq_to_set();
    let rng = set_int_range(0, n as int);
    lemma_int_range(0, n as int);
    assert(m.to_set().subset_of(rng)) by {
        assert forall|t: int| m.to_set().contains(t) implies rng.contains(t) by {
            let j = choose|j: int| 0 <= j < m.len() && m[j] == t;
            assert(c[j] < n);
        }
    }
    lemma_len_subset(m.to_set(), rng);
}

proof fn lemma_in_list_mono(c1: Seq<usize>, c2: Seq<usize>, t: int)
    requires
        c1.is_prefix_of(c2),
        in_list(c1, t),
    ensures
        in_list(c2, t),
{
    let j = choose|j: int| 0 <= j < c1.len() && c1[j] as int == t;
    assert(c2[j] as int == t);
}

proof fn lemma_prefix_trans(a: Seq<usize>, b: Seq<usize>, c: Seq<usize>)
    requires
        a.is_prefix_of(b),
        b.is_prefix_of(c),
    ensures
        a.is_prefix_of(c),
{
    assert(a =~= c.subrange(0, a.len() as int));
}

proof fn lemma_succs_mono(sts: Seq<GState>, v: int, c1: Seq<usize>, c2: Seq<usize>)
    requires
        succs_in(sts, v, c1),
        c1.is_prefix_of(c2),
    ensures
        succs_in(sts, v, c2),
{
    assert forall|m: int| 0 <= m < sts[v].eps.len() implies in_list(
        c2,
        #[trigger] sts[v].eps[m],
    ) by {
        lemma_in_list_mono(c1, c2, sts[v].eps[m]);
    }
}

/// A worklist that holds every root, holds only members of the closure, and
/// is closed under epsilon transitions holds exactly the epsilon closure of
/// the roots.
proof fn lemma_closure_list_exact(sts: Seq<GState>, c: Seq<usize>, roots: Set<int>)
    requires
        eps_closed(sts, c),
        forall|f: int| #[trigger] roots.contains(f) ==> in_list(c, f),
        forall|j: int|
            0 <= j < c.len() ==> e_closure_of(sts, roots).contains((#[trigger] c[j]) as int),
    ensures
        list_set(c) =~= e_closure_of(sts, roots),
{
    assert forall|t: int| list_set(c).contains(t) implies e_closure_of(sts, roots).contains(t) by {
        let j = choose|j: int| 0 <= j < c.len() && #[trigger] c[j] as int == t;
        assert(e_closure_of(sts, roots).contains(c[j] as int));
    }
    assert forall|t: int| e_closure_of(sts, roots).contains(t) implies list_set(c).contains(t) by {
        let f = choose|f: int| #[trigger] roots.contains(f) && e_reachable(sts, f, t);
        let p = choose|p: Seq<int>| is_e_path(sts, p) && p.first() == f && p.last() == t;
        lemma_path_stays(sts, c, p);
    }
}

proof fn lemma_push_fresh(c: Seq<usize>, x: usize)
    requires
        c.no_duplicates(),
        !in_list(c, x as int),
    ensures
        c.push(x).no_duplicates(),
{
    let s = c.push(x);
    assert forall|a: int, b: int|
        0 <= a < s.len() && 0 <= b < s.len() && a != b implies s[a] != s[b] by {
        if a < c.len() && b < c.len() {
            assert(s[a] == c[a] && s[b] == c[b]);
        } else if a < c.len() {
            assert(s[a] == c[a] && s[b] == x);
        } else {
            assert(s[a] == x && s[b] == c[b]);
        }
    }
}

fn list_contains(c: &Vec<usize>, x: usize) -> (r: bool)
    ensures
        r == in_list(c@, x as int),
{
    let mut j: usize = 0;
    while j < c.len()
        invariant
            j <= c@.len(),
            forall|m: int| 0 <= m < j ==> (#[trigger] c@[m]) != x,
        decreases c@.len() - j,
    {
        if c[j] == x {
            return true;
        }
        j += 1;
    }
    false
}

/// Depth-first traversal over epsilon edges: collects into `closure` every
/// state reachable from `idx` by epsilon transitions alone, deduplicated by
/// identity, checking each state before it recurses so that the cycles the
/// looping quantifiers create cannot make it run forever.
fn find_e_closure(states: &Vec<State>, idx: usize, closure: &mut Vec<usize>)
    requires
        wf_states(seq_view(states@)),
        idx < states@.len(),
        old(closure)@.no_duplicates(),
        forall|j: int| 0 <= j < old(closure)@.len() ==> (#[trigger] old(closure)@[j]) < states@.len(),
    ensures
        final(closure)@.no_duplicates(),
        forall|j: int| 0 <= j < final(closure)@.len() ==> (#[trigger] final(closure)@[j])
            < states@.len(),
        old(closure)@.is_prefix_of(final(closure)@),
        in_list(final(closure)@, idx as int),
        forall|j: int|
            old(closure)@.len() <= j < final(closure)@.len() ==> e_reachable(
                seq_view(states@),
                idx as int,
                (#[trigger] final(closure)@[j]) as int,
            ),
        forall|j: int|
            old(closure)@.len() <= j < final(closure)@.len() ==> succs_in(
                seq_view(states@),
                (#[trigger] final(closure)@[j]) as int,
                final(closure)@,
            ),
        succs_in(seq_view(states@), idx as int, final(closure)@),
    decreases states@.len() - old(closure)@.len(),
{
    let ghost sts = seq_view(states@);
    let ghost n0 = old(closure)@.len();
    proof {
        assert(wf_state_at(sts, idx as int));
        lemma_reach_self(sts, idx as int);
    }
    if !list_contains(closure, idx) {
        proof {
            lemma_push_fresh(closure@, idx);
        }
        closure.push(idx);
        proof {
            assert(closure@ =~= old(closure)@.push(idx));
            assert(old(closure)@.is_prefix_of(closure@));
            assert(closure@[closure@.len() - 1] == idx);
        }
    }
    let ghost base = closure@;
    let eps_count = states[idx].e_transitions.len();
    let mut k: usize = 0;
    while k < eps_count
        invariant
            wf_states(sts),
            sts == seq_view(states@),
            idx < states@.len(),
            wf_state_at(sts, idx as int),
            eps_count == sts[idx as int].eps.len(),
            k <= eps_count,
            closure@.no_duplicates(),
            forall|j: int| 0 <= j < closure@.len() ==> (#[trigger] closure@[j]) < states@.len(),
            old(closure)@.is_prefix_of(closure@),
            n0 == old(closure)@.len(),
            in_list(closure@, idx as int),
            forall|j: int|
                n0 <= j < closure@.len() ==> e_reachable(
                    sts,
                    idx as int,
                    (#[trigger] closure@[j]) as int,
                ),
            forall|j: int|
                n0 <= j < closure@.len() ==> ((#[trigger] closure@[j]) as int == idx as int
                    || succs_in(sts, closure@[j] as int, closure@)),
            forall|m: int| 0 <= m < k ==> in_list(closure@, #[trigger] sts[idx as int].eps[m]),
        decreases eps_count - k,
    {
        let e = states[idx].e_transitions[k];
        proof {
            assert(sts[idx as int].eps[k as int] == e as int);
            assert(0 <= sts[idx as int].eps[k as int] < sts.len());
            assert(sts[idx as int].eps.contains(e as int));
        }
        if !list_contains(closure, e) {
            let ghost before = closure@;
            proof {
                lemma_push_fresh(closure@, e);
            }
            closure.push(e);
            proof {
                assert(closure@ =~= before.push(e));
                assert(before.is_prefix_of(closure@));
                assert(closure@[before.len() as int] == e);
                lemma_prefix_trans(old(closure)@, before, closure@);
                lemma_reach_self(sts, idx as int);
                lemma_reach_extend(sts, idx as int, idx as int, e as int);
                lemma_distinct_bounded(closure@, states@.len());
            }
            let ghost mid = closure@;
            find_e_closure(states, e, closure);
            proof {
                lemma_prefix_trans(old(closure)@, mid, closure@);
                lemma_prefix_trans(before, mid, closure@);
                lemma_in_list_mono(mid, closure@, idx as int);
                // everything the recursion added is reachable from `idx`
                assert forall|j: int| n0 <= j < closure@.len() implies e_reachable(
                    sts,
                    idx as int,
                    (#[trigger] closure@[j]) as int,
                ) by {
                    if j < mid.len() {
                        assert(closure@[j] == mid[j]);
                    } else {
                        lemma_reach_trans(sts, idx as int, e as int, closure@[j] as int);
                    }
                }
                // everything new is processed: its successors sit in the list
                assert forall|j: int| n0 <= j < closure@.len() implies ((#[trigger] closure@[j])
                    as int == idx as int || succs_in(sts, closure@[j] as int, closure@)) by {
                    if j < before.len() {
                        assert(closure@[j] == before[j]);
                        if closure@[j] as int != idx as int {
                            assert(succs_in(sts, before[j] as int, before));
                            assert forall|m: int|
                                0 <= m < sts[closure@[j] as int].eps.len() implies in_list(
                                closure@,
                                #[trigger] sts[closure@[j] as int].eps[m],
                            ) by {
                                lemma_prefix_trans(before, mid, closure@);
                                lemma_in_list_mono(
                                    before,
                                    closure@,
                                    sts[closure@[j] as int].eps[m],
                                );
                            }
                        }
                    } else if j == before.len() {
                        assert(mid[j] == e);
                        assert(closure@[j] == mid[j]);
                        assert(succs_in(sts, e as int, closure@));
                    }
                }
                assert forall|m: int| 0 <= m < k + 1 implies in_list(
                    closure@,
                    #[trigger] sts[idx as int].eps[m],
                ) by {
                    if m < k {
                        lemma_in_list_mono(mid, closure@, sts[idx as int].eps[m]);
                    } else {
                        assert(in_list(closure@, e as int));
                    }
                }
            }
        } else {
            proof {
                assert forall|m: int| 0 <= m < k + 1 implies in_list(
                    closure@,
                    #[trigger] sts[idx as int].eps[m],
                ) by {}
            }
        }
        k += 1;
    }
}

/// Runs the automaton against the whole input: the live set starts as the
/// epsilon closure of the start state, each character steps it through the
/// labeled transitions and closes it again, and the verdict is whether an
/// accepting state is live at the end.
pub fn match_regex(aut: &Automaton, input: &str) -> (r: bool)
    requires
        wf_aut(aut@),
    ensures
        r == spec_matches(aut@, input@),
{
    let ghost sts = seq_view(aut.states@);
    let mut current: Vec<usize> = Vec::new();
    find_e_closure(&aut.states, aut.fragment.start, &mut current);
    proof {
        assert forall|j: int| 0 <= j < current@.len() implies succs_in(
            sts,
            (#[trigger] current@[j]) as int,
            current@,
        ) by {}
        assert forall|j: int| 0 <= j < current@.len() implies e_closure_of(
            sts,
            set![aut@.start],
        ).contains((#[trigger] current@[j]) as int) by {
            assert(set![aut@.start].contains(aut@.start));
            assert(e_reachable(sts, aut@.start, current@[j] as int));
        }
        assert forall|f: int| #[trigger] set![aut@.start].contains(f) implies in_list(
            current@,
            f,
        ) by {}
        lemma_closure_list_exact(sts, current@, set![aut@.start]);
        assert(list_set(current@) == sp_states_after(aut@, input@, 0));
    }
    let n = input.unicode_len();
    let mut i: usize = 0;
    while i < n
        invariant
            wf_aut(aut@),
            sts == seq_view(aut.states@),
            n == input@.len(),
            i <= n,
            current@.no_duplicates(),
            forall|j: int| 0 <= j < current@.len() ==> (#[trigger] current@[j]) < sts.len(),
            list_set(current@) == sp_states_after(aut@, input@, i as int),
        decreases n - i,
    {
        let c = input.get_char(i);
        let ghost roots = char_step(sts, list_set(current@), c);
        let mut next: Vec<usize> = Vec::new();
        let mut j: usize = 0;
        while j < current.len()
            invariant
                wf_aut(aut@),
                sts == seq_view(aut.states@),
                j <= current@.len(),
                current@.no_duplicates(),
                forall|m: int| 0 <= m < current@.len() ==> (#[trigger] current@[m]) < sts.len(),
                roots == char_step(sts, list_set(current@), c),
                next@.no_duplicates(),
                forall|m: int| 0 <= m < next@.len() ==> (#[trigger] next@[m]) < sts.len(),
                eps_closed(sts, next@),
                forall|m: int|
                    0 <= m < next@.len() ==> e_closure_of(sts, roots).contains(
                        (#[trigger] next@[m]) as int,
                    ),
                forall|m: int, k2: int|
                    #![trigger sts[current@[m] as int].trans[k2]]
                    0 <= m < j && 0 <= k2 < sts[current@[m] as int].trans.len() && sts[current@[m]
                        as int].trans[k2].0 == c ==> in_list(
                        next@,
                        sts[current@[m] as int].trans[k2].1,
                    ),
            decreases current@.len() - j,
        {
            let st_idx = current[j];
            proof {
                assert(wf_state_at(sts, st_idx as int));
            }
            let t_count = aut.states[st_idx].transitions.len();
            let mut k: usize = 0;
            while k < t_count
                invariant
                    wf_aut(aut@),
                    sts == seq_view(aut.states@),
                    j < current@.len(),
                    st_idx == current@[j as int],
                    st_idx < sts.len(),
                    wf_state_at(sts, st_idx as int),
                    t_count == sts[st_idx as int].trans.len(),
                    k <= t_count,
                    current@.no_duplicates(),
                    forall|m: int| 0 <= m < current@.len() ==> (#[trigger] current@[m]) < sts.len(),
                    roots == char_step(sts, list_set(current@), c),
                    next@.no_duplicates(),
                    forall|m: int| 0 <= m < next@.len() ==> (#[trigger] next@[m]) < sts.len(),
                    eps_closed(sts, next@),
                    forall|m: int|
                        0 <= m < next@.len() ==> e_closure_of(sts, roots).contains(
                            (#[trigger] next@[m]) as int,
                        ),
                    forall|m: int, k2: int|
                        #![trigger sts[current@[m] as int].trans[k2]]
                        0 <= m < j && 0 <= k2 < sts[current@[m] as int].trans.len() && sts[current@[
                            m] as int].trans[k2].0 == c ==> in_list(
                            next@,
                            sts[current@[m] as int].trans[k2].1,
                        ),
                    forall|k2: int|
                        0 <= k2 < k && (#[trigger] sts[st_idx as int].trans[k2]).0 == c ==> in_list(
                            next@,
                            sts[st_idx as int].trans[k2].1,
                        ),
                decreases t_count - k,
            {
                let pair = aut.states[st_idx].transitions[k];
                proof {
                    assert(sts[st_idx as int].trans[k as int] == (pair.0, pair.1 as int));
                }
                if pair.0 == c {
                    let tgt = pair.1;
                    proof {
                        assert(0 <= sts[st_idx as int].trans[k as int].1 < sts.len());
                        assert(list_set(current@).contains(st_idx as int));
                        assert(roots.contains(tgt as int));
                    }
                    let ghost pre = next@;
                    find_e_closure(&aut.states, tgt, &mut next);
                    proof {
                        assert forall|m: int| 0 <= m < next@.len() implies succs_in(
                            sts,
                            (#[trigger] next@[m]) as int,
                            next@,
                        ) by {
                            if m < pre.len() {
                                assert(next@[m] == pre[m]);
                                lemma_succs_mono(sts, pre[m] as int, pre, next@);
                            }
                        }
                        assert forall|m: int| 0 <= m < next@.len() implies e_closure_of(
                            sts,
                            roots,
                        ).contains((#[trigger] next@[m]) as int) by {
                            if m < pre.len() {
                                assert(next@[m] == pre[m]);
                                assert(e_closure_of(sts, roots).contains(pre[m] as int));
                            } else {
                                assert(e_reachable(sts, tgt as int, next@[m] as int));
                            }
                        }
                        assert forall|m: int, k2: int|
                            #![trigger sts[current@[m] as int].trans[k2]]
                            0 <= m < j && 0 <= k2 < sts[current@[m] as int].trans.len() && sts[
                            current@[m] as int].trans[k2].0 == c implies in_list(
                            next@,
                            sts[current@[m] as int].trans[k2].1,
                        ) by {
                            lemma_in_list_mono(pre, next@, sts[current@[m] as int].trans[k2].1);
                        }
                        assert forall|k2: int|
                            0 <= k2 < k + 1 && (#[trigger] sts[st_idx as int].trans[k2]).0
                                == c implies in_list(next@, sts[st_idx as int].trans[k2].1) by {
                            if k2 < k {
                                lemma_in_list_mono(pre, next@, sts[st_idx as int].trans[k2].1);
                            } else {
                                assert(in_list(next@, tgt as int));
                            }
                        }
                    }
                }
                k += 1;
            }
            j += 1;
        }
        proof {
            assert forall|f: int| #[trigger] roots.contains(f) implies in_list(next@, f) by {
                let (ff, kk): (int, int) = choose|ff: int, kk: int|
                    #![trigger sts[ff].trans[kk]]
                    {
                        &&& list_set(current@).contains(ff)
                        &&& 0 <= ff < sts.len()
                        &&& 0 <= kk < sts[ff].trans.len()
                        &&& sts[ff].trans[kk] == (c, f)
                    };
                let m = choose|m: int| 0 <= m < current@.len() && #[trigger] current@[m] as int
                    == ff;
                assert(sts[current@[m] as int].trans[kk].0 == c);
            }
            lemma_closure_list_exact(sts, next@, roots);
            assert(list_set(next@) == sp_states_after(aut@, input@, i as int + 1));
        }
        current = next;
        i += 1;
    }
    let mut found = false;
    let mut j: usize = 0;
    while j < current.len()
        invariant
            wf_aut(aut@),
            sts == seq_view(aut.states@),
            j <= current@.len(),
            forall|m: int| 0 <= m < current@.len() ==> (#[trigger] current@[m]) < sts.len(),
            found == exists|m: int|
                0 <= m < j && sts[(#[trigger] current@[m]) as int].accepting,
        decreases current@.len() - j,
    {
        let idx = current[j];
        if aut.states[idx].is_accepting {
            found = true;
            proof {
                assert(sts[(current@[j as int]) as int].accepting);
            }
        }
        j += 1;
    }
    proof {
        if found {
            let m = choose|m: int| 0 <= m < current@.len() && sts[(#[trigger] current@[m])
                as int].accepting;
            assert(list_set(current@).contains(current@[m] as int));
        } else {
            if any_accepting(sts, list_set(current@)) {
                let q = choose|q: int| #[trigger] list_set(current@).contains(q) && 0 <= q
                    < sts.len() && sts[q].accepting;
                let m = choose|m: int| 0 <= m < current@.len() && #[trigger] current@[m] as int
                    == q;
            }
        }
    }
    found
}

/// Matching is deterministic: with `match_regex` ensuring its result equals
/// `spec_matches`, any two results of matching the same automaton against
/// the same input are the same boolean.
pub proof fn lemma_match_deterministic(a: GAut, s: Seq<char>, r1: bool, r2: bool)
    requires
        r1 == spec_matches(a, s),
        r2 == spec_matches(a, s),
    ensures
        r1 == r2,
{
}

/// A set of states closed under epsilon transitions.
pub open spec fn set_closed(sts: Seq<GState>, s: Set<int>) -> bool {
    forall|v: int, m: int|
        s.contains(v) && 0 <= m < sts[v].eps.len() ==> s.contains(#[trigger] sts[v].eps[m])
}

proof fn lemma_path_stays_set(sts: Seq<GState>, s: Set<int>, p: Seq<int>)
    requires
        set_closed(sts, s),
        is_e_path(sts, p),
        s.contains(p.first()),
    ensures
        s.contains(p.last()),
    decreases p.len(),
{
    if p.len() > 1 {
        assert(sts[p[0]].eps.contains(p[1]));
        let m = choose|m: int| 0 <= m < sts[p[0]].eps.len() && sts[p[0]].eps[m] == p[1];
        assert(s.contains(sts[p[0]].eps[m]));
        let rest = p.subrange(1, p.len() as int);
        assert forall|i: int| #![trigger rest[i]] 0 <= i < rest.len() - 1 implies sts[
        rest[i]].eps.contains(rest[i + 1]) by {
            assert(rest[i] == p[i + 1] && rest[i + 1] == p[i + 2]);
            assert(sts[p[i + 1]].eps.contains(p[i + 2]));
        }
        assert(is_e_path(sts, rest));
        lemma_path_stays_set(sts, s, rest);
        assert(rest.last() == p.last());
    }
}

/// The epsilon closure of `roots` is any set that holds the roots, holds
/// only states some root reaches, and is closed under epsilon transitions.
proof fn lemma_eclosure_is(sts: Seq<GState>, roots: Set<int>, s: Set<int>)
    requires
        set_closed(sts, s),
        forall|f: int| #[trigger] roots.contains(f) ==> s.contains(f),
        forall|v: int| #[trigger] s.contains(v) ==> exists|f: int|
            #[trigger] roots.contains(f) && e_reachable(sts, f, v),
    ensures
        e_closure_of(sts, roots) == s,
{
    assert forall|t: int| e_closure_of(sts, roots).contains(t) implies s.contains(t) by {
        let f = choose|f: int| #[trigger] roots.contains(f) && e_reachable(sts, f, t);
        let p = choose|p: Seq<int>| is_e_path(sts, p) && p.first() == f && p.last() == t;
        lemma_path_stays_set(sts, s, p);
    }
    assert(e_closure_of(sts, roots) =~= s);
}

/// Once no state is live, none ever becomes live again.
proof fn lemma_no_live_stays(a: GAut, s: Seq<char>, k: int, i: int)
    requires
        0 <= k <= i,
        sp_states_after(a, s, k) == Set::<int>::empty(),
    ensures
        sp_states_after(a, s, i) == Set::<int>::empty(),
    decreases i - k,
{
    if i > k {
        lemma_no_live_stays(a, s, k, i - 1);
        assert(char_step(a.states, Set::<int>::empty(), s[i - 1]) =~= Set::<int>::empty());
        assert(e_closure_of(a.states, Set::<int>::empty()) =~= Set::<int>::empty());
    }
}

/// A literal pattern matches only the one-character input that holds its
/// character: the automaton built for `Const(c)` accepts `s` if and only if
/// `s` is exactly the single character `c`.
#[verifier::rlimit(60)]
pub proof fn lemma_literal_matches_exactly(c: char, s: Seq<char>)
    ensures
        spec_matches(sp_nfa(RegexAST::Const(c)), s) <==> s == seq![c],
{
    let a = sp_nfa(RegexAST::Const(c));
    let sts = a.states;
    assert(sts.len() == 2);
    assert(sts[0].trans =~= seq![(c, 1int)]);
    assert(sts[0].eps =~= Seq::<int>::empty());
    assert(!sts[0].accepting);
    assert(sts[1].trans =~= Seq::<(char, int)>::empty());
    assert(sts[1].eps =~= Seq::<int>::empty());
    assert(sts[1].accepting);
    assert(a.start == 0);
    let s0 = set![0int];
    lemma_reach_self(sts, 0);
    lemma_eclosure_is(sts, set![0int], s0);
    assert(sp_states_after(a, s, 0) == s0);
    if s.len() == 0 {
        assert(!any_accepting(sts, s0));
        assert(s != seq![c]);
    } else {
        let step1 = char_step(sts, s0, s[0]);
        if s[0] == c {
            assert(step1 =~= set![1int]) by {
                assert(s0.contains(0int) && sts[0].trans[0] == (s[0], 1int));
            }
            let s1 = set![1int];
            lemma_reach_self(sts, 1);
            lemma_eclosure_is(sts, set![1int], s1);
            assert(sp_states_after(a, s, 1) == s1);
            if s.len() == 1 {
                assert(s1.contains(1int) && sts[1].accepting);
                assert(any_accepting(sts, s1));
                assert(s =~= seq![c]);
            } else {
                assert(char_step(sts, s1, s[1]) =~= Set::<int>::empty());
                assert(e_closure_of(sts, Set::<int>::empty()) =~= Set::<int>::empty());
                assert(sp_states_after(a, s, 2) == Set::<int>::empty());
                lemma_no_live_stays(a, s, 2, s.len() as int);
                assert(!spec_matches(a, s));
                assert(s != seq![c]);
            }
        } else {
            assert(step1 =~= Set::<int>::empty());
            assert(e_closure_of(sts, Set::<int>::empty()) =~= Set::<int>::empty());
            assert(sp_states_after(a, s, 1) == Set::<int>::empty());
            lemma_no_live_stays(a, s, 1, s.len() as int);
            assert(!spec_matches(a, s));
            assert(s != seq![c]) by {
                if s == seq![c] {
                    assert(s[0] == c);
                }
            }
        }
    }
}

/// A two-literal concatenation matches exactly the two-character input that
/// holds its characters in order: the automaton built for
/// `Concat(Const(c1), Const(c2))` accepts `s` if and only if `s` is `c1`
/// followed by `c2`.
#[verifier::rlimit(100)]
pub proof fn lemma_concat_matches_exactly(c1: char, c2: char, s: Seq<char>)
    ensures
        spec_matches(
            sp_nfa(
                RegexAST::Concat(
                    Box::new(RegexAST::Const(c1)),
                    Box::new(RegexAST::Const(c2)),
                ),
            ),
            s,
        ) <==> s == seq![c1, c2],
{
    reveal_with_fuel(crate::nfa_builder::sp_build, 3);
    let a = sp_nfa(
        RegexAST::Concat(Box::new(RegexAST::Const(c1)), Box::new(RegexAST::Const(c2))),
    );
    let sts = a.states;
    assert(sts.len() == 4);
    assert(sts[0].trans =~= seq![(c1, 1int)]);
    assert(sts[0].eps =~= Seq::<int>::empty());
    assert(!sts[0].accepting);
    assert(sts[1].trans =~= Seq::<(char, int)>::empty());
    assert(sts[1].eps =~= seq![2int]);
    assert(!sts[1].accepting);
    assert(sts[2].trans =~= seq![(c2, 3int)]);
    assert(sts[2].eps =~= Seq::<int>::empty());
    assert(!sts[2].accepting);
    assert(sts[3].trans =~= Seq::<(char, int)>::empty());
    assert(sts[3].eps =~= Seq::<int>::empty());
    assert(sts[3].accepting);
    assert(a.start == 0);
    let s0 = set![0int];
    lemma_reach_self(sts, 0);
    lemma_eclosure_is(sts, set![0int], s0);
    assert(sp_states_after(a, s, 0) == s0);
    if s.len() == 0 {
        assert(!any_accepting(sts, s0));
        assert(s != seq![c1, c2]);
    } else if s[0] != c1 {
        assert(char_step(sts, s0, s[0]) =~= Set::<int>::empty());
        assert(e_closure_of(sts, Set::<int>::empty()) =~= Set::<int>::empty());
        assert(sp_states_after(a, s, 1) == Set::<int>::empty());
        lemma_no_live_stays(a, s, 1, s.len() as int);
        assert(!spec_matches(a, s));
        assert(s != seq![c1, c2]) by {
            if s == seq![c1, c2] {
                assert(s[0] == c1);
            }
        }
    } else {
        assert(char_step(sts, s0, s[0]) =~= set![1int]) by {
            assert(s0.contains(0int) && sts[0].trans[0] == (s[0], 1int));
        }
        let s1 = set![1int, 2int];
        assert(set_closed(sts, s1)) by {
            assert(sts[1].eps[0] == 2int);
        }
        lemma_reach_self(sts, 1);
        assert(sts[1].eps.contains(2int)) by {
            assert(sts[1].eps[0] == 2int);
        }
        lemma_reach_extend(sts, 1, 1, 2);
        assert forall|v: int| #[trigger] s1.contains(v) implies exists|f: int|
            #[trigger] set![1int].contains(f) && e_reachable(sts, f, v) by {
            assert(set![1int].contains(1int));
            assert(v == 1 || v == 2);
        }
        lemma_eclosure_is(sts, set![1int], s1);
        assert(sp_states_after(a, s, 1) == s1);
        if s.len() == 1 {
            assert(!any_accepting(sts, s1));
            assert(s != seq![c1, c2]);
        } else if s[1] != c2 {
            assert(char_step(sts, s1, s[1]) =~= Set::<int>::empty());
            assert(e_closure_of(sts, Set::<int>::empty()) =~= Set::<int>::empty());
            assert(sp_states_after(a, s, 2) == Set::<int>::empty());
            lemma_no_live_stays(a, s, 2, s.len() as int);
            assert(!spec_matches(a, s));
            assert(s != seq![c1, c2]) by {
                if s == seq![c1, c2] {
                    assert(s[1] == c2);
                }
            }
        } else {
            assert(char_step(sts, s1, s[1]) =~= set![3int]) by {
                assert(s1.contains(2int) && sts[2].trans[0] == (s[1], 3int));
            }
            let s2 = set![3int];
            lemma_reach_self(sts, 3);
            lemma_eclosure_is(sts, set![3int], s2);
            assert(sp_states_after(a, s, 2) == s2);
            if s.len() == 2 {
                assert(s2.contains(3int) && sts[3].accepting);
                assert(any_accepting(sts, s2));
                assert(s =~= seq![c1, c2]);
            } else {
                assert(char_step(sts, s2, s[2]) =~= Set::<int>::empty());
                assert(e_closure_of(sts, Set::<int>::empty()) =~= Set::<int>::empty());
                assert(sp_states_after(a, s, 3) == Set::<int>::empty());
                lemma_no_live_stays(a, s, 3, s.len() as int);
                assert(!spec_matches(a, s));
                assert(s != seq![c1, c2]);
            }
        }
    }
}

/// An alternation of two literals matches exactly the two one-character
/// inputs holding its branches: the automaton built for
/// `Alternation(Const(c1), Const(c2))` accepts `s` if and only if `s` is the
/// single character `c1` or the single character `c2`.
#[verifier::rlimit(80)]
pub proof fn lemma_alternation_matches_either(c1: char, c2: char, s: Seq<char>)
    ensures
        spec_matches(
            sp_nfa(
                RegexAST::Alternation(
                    Box::new(RegexAST::Const(c1)),
                    Box::new(RegexAST::Const(c2)),
                ),
            ),
            s,
        ) <==> (s == seq![c1] || s == seq![c2]),
{
    reveal_with_fuel(crate::nfa_builder::sp_build, 3);
    let a = sp_nfa(
        RegexAST::Alternation(Box::new(RegexAST::Const(c1)), Box::new(RegexAST::Const(c2))),
    );
    let sts = a.states;
    assert(sts.len() == 6);
    assert(sts[0].trans =~= seq![(c1, 1int)]);
    assert(sts[0].eps =~= Seq::<int>::empty());
    assert(sts[1].trans =~= Seq::<(char, int)>::empty());
    assert(sts[1].eps =~= seq![5int]);
    assert(!sts[1].accepting);
    assert(sts[2].trans =~= seq![(c2, 3int)]);
    assert(sts[2].eps =~= Seq::<int>::empty());
    assert(sts[3].trans =~= Seq::<(char, int)>::empty());
    assert(sts[3].eps =~= seq![5int]);
    assert(!sts[3].accepting);
    assert(sts[4].trans =~= Seq::<(char, int)>::empty());
    assert(sts[4].eps =~= seq![0int, 2int]);
    assert(!sts[4].accepting);
    assert(sts[5].trans =~= Seq::<(char, int)>::empty());
    assert(sts[5].eps =~= Seq::<int>::empty());
    assert(sts[5].accepting);
    assert(a.start == 4);
    let s0 = set![4int, 0int, 2int];
    assert(set_closed(sts, s0)) by {
        assert(sts[4].eps[0] == 0int && sts[4].eps[1] == 2int);
    }
    lemma_reach_self(sts, 4);
    assert(sts[4].eps.contains(0int) && sts[4].eps.contains(2int)) by {
        assert(sts[4].eps[0] == 0int && sts[4].eps[1] == 2int);
    }
    lemma_reach_extend(sts, 4, 4, 0);
    lemma_reach_extend(sts, 4, 4, 2);
    assert forall|v: int| #[trigger] s0.contains(v) implies exists|f: int|
        #[trigger] set![4int].contains(f) && e_reachable(sts, f, v) by {
        assert(set![4int].contains(4int));
        assert(v == 4 || v == 0 || v == 2);
    }
    lemma_eclosure_is(sts, set![4int], s0);
    assert(sp_states_after(a, s, 0) == s0);
    if s.len() == 0 {
        assert(!any_accepting(sts, s0));
        assert(s != seq![c1] && s != seq![c2]);
    } else if s[0] != c1 && s[0] != c2 {
        assert(char_step(sts, s0, s[0]) =~= Set::<int>::empty());
        assert(e_closure_of(sts, Set::<int>::empty()) =~= Set::<int>::empty());
        assert(sp_states_after(a, s, 1) == Set::<int>::empty());
        lemma_no_live_stays(a, s, 1, s.len() as int);
        assert(!spec_matches(a, s));
        assert(s != seq![c1]) by {
            if s == seq![c1] {
                assert(s[0] == c1);
            }
        }
        assert(s != seq![c2]) by {
            if s == seq![c2] {
                assert(s[0] == c2);
            }
        }
    } else {
        // at least one branch consumes the first character; afterwards the
        // live states can only be branch exits and the accepting state
        let hit1 = s[0] == c1;
        let hit2 = s[0] == c2;
        let step1 = char_step(sts, s0, s[0]);
        let live = if hit1 && hit2 {
            set![1int, 3int, 5int]
        } else if hit1 {
            set![1int, 5int]
        } else {
            set![3int, 5int]
        };
        let roots = if hit1 && hit2 {
            set![1int, 3int]
        } else if hit1 {
            set![1int]
        } else {
            set![3int]
        };
        assert(step1 =~= roots) by {
            if hit1 {
                assert(s0.contains(0int) && sts[0].trans[0] == (s[0], 1int));
            }
            if hit2 {
                assert(s0.contains(2int) && sts[2].trans[0] == (s[0], 3int));
            }
        }
        assert(set_closed(sts, live)) by {
            assert(sts[1].eps[0] == 5int && sts[3].eps[0] == 5int);
        }
        lemma_reach_self(sts, 1);
        lemma_reach_self(sts, 3);
        assert(sts[1].eps.contains(5int) && sts[3].eps.contains(5int)) by {
            assert(sts[1].eps[0] == 5int && sts[3].eps[0] == 5int);
        }
        lemma_reach_extend(sts, 1, 1, 5);
        lemma_reach_extend(sts, 3, 3, 5);
        assert forall|v: int| #[trigger] live.contains(v) implies exists|f: int|
            #[trigger] roots.contains(f) && e_reachable(sts, f, v) by {
            if hit1 {
                assert(roots.contains(1int));
            } else {
                assert(roots.contains(3int));
            }
        }
        lemma_eclosure_is(sts, roots, live);
        assert(sp_states_after(a, s, 1) == live);
        if s.len() == 1 {
            assert(live.contains(5int) && sts[5].accepting);
            assert(any_accepting(sts, live));
            assert(spec_matches(a, s));
            if hit1 {
                assert(s =~= seq![c1]);
            } else {
                assert(s =~= seq![c2]);
            }
        } else {
            assert(char_step(sts, live, s[1]) =~= Set::<int>::empty());
            assert(e_closure_of(sts, Set::<int>::empty()) =~= Set::<int>::empty());
            assert(sp_states_after(a, s, 2) == Set::<int>::empty());
            lemma_no_live_stays(a, s, 2, s.len() as int);
            assert(!spec_matches(a, s));
            assert(s != seq![c1] && s != seq![c2]);
        }
    }
}

/// The starred literal pattern for `c`.
spec fn star_of(c: char) -> RegexAST {
    RegexAST::Modifier(Box::new(RegexAST::Const(c)), crate::parser::RegexASTModifier::Star)
}

/// Whether the first `i` characters of `s` are all `c`.
spec fn prefix_all(s: Seq<char>, i: int, c: char) -> bool {
    forall|j: int| 0 <= j < i ==> s[j] == c
}

/// The concrete shape of the automaton built for a starred literal.
proof fn lemma_star_shape(c: char)
    ensures
        ({
            let sts = sp_nfa(star_of(c)).states;
            &&& sp_nfa(star_of(c)).start == 0
            &&& sts.len() == 4
            &&& sts[0].trans =~= Seq::<(char, int)>::empty()
            &&& sts[0].eps =~= seq![2int, 1int]
            &&& !sts[0].accepting
            &&& sts[1].trans =~= Seq::<(char, int)>::empty()
            &&& sts[1].eps =~= Seq::<int>::empty()
            &&& sts[1].accepting
            &&& sts[2].trans =~= seq![(c, 3int)]
            &&& sts[2].eps =~= Seq::<int>::empty()
            &&& !sts[2].accepting
            &&& sts[3].trans =~= Seq::<(char, int)>::empty()
            &&& sts[3].eps =~= seq![2int, 1int]
            &&& !sts[3].accepting
        }),
{
    reveal_with_fuel(crate::nfa_builder::sp_build, 3);
}

/// The live sets of a starred literal: while the input holds only `c`, the
/// entry round or the loop round is live; as soon as another character was
/// read, nothing is.
proof fn lemma_star_live(c: char, s: Seq<char>, i: int)
    requires
        0 <= i <= s.len(),
    ensures
        ({
            let a = sp_nfa(star_of(c));
            sp_states_after(a, s, i) == (if !prefix_all(s, i, c) {
                Set::<int>::empty()
            } else if i == 0 {
                set![0int, 2int, 1int]
            } else {
                set![3int, 2int, 1int]
            })
        }),
    decreases i,
{
    lemma_star_shape(c);
    let a = sp_nfa(star_of(c));
    let sts = a.states;
    if i == 0 {
        let s0 = set![0int, 2int, 1int];
        assert(set_closed(sts, s0)) by {
            assert(sts[0].eps[0] == 2int && sts[0].eps[1] == 1int);
        }
        lemma_reach_self(sts, 0);
        assert(sts[0].eps.contains(2int) && sts[0].eps.contains(1int)) by {
            assert(sts[0].eps[0] == 2int && sts[0].eps[1] == 1int);
        }
        lemma_reach_extend(sts, 0, 0, 2);
        lemma_reach_extend(sts, 0, 0, 1);
        assert forall|v: int| #[trigger] s0.contains(v) implies exists|f: int|
            #[trigger] set![0int].contains(f) && e_reachable(sts, f, v) by {
            assert(set![0int].contains(0int));
        }
        lemma_eclosure_is(sts, set![0int], s0);
    } else {
        lemma_star_live(c, s, i - 1);
        let prev = sp_states_after(a, s, i - 1);
        if !prefix_all(s, i - 1, c) {
            assert(!prefix_all(s, i, c));
            assert(char_step(sts, Set::<int>::empty(), s[i - 1]) =~= Set::<int>::empty());
            assert(e_closure_of(sts, Set::<int>::empty()) =~= Set::<int>::empty());
        } else if s[i - 1] != c {
            assert(!prefix_all(s, i, c));
            assert(char_step(sts, prev, s[i - 1]) =~= Set::<int>::empty());
            assert(e_closure_of(sts, Set::<int>::empty()) =~= Set::<int>::empty());
        } else {
            assert(prefix_all(s, i, c));
            assert(prev.contains(2int));
            assert(char_step(sts, prev, s[i - 1]) =~= set![3int]) by {
                assert(sts[2].trans[0] == (s[i - 1], 3int));
            }
            let live = set![3int, 2int, 1int];
            assert(set_closed(sts, live)) by {
                assert(sts[3].eps[0] == 2int && sts[3].eps[1] == 1int);
            }
            lemma_reach_self(sts, 3);
            assert(sts[3].eps.contains(2int) && sts[3].eps.contains(1int)) by {
                assert(sts[3].eps[0] == 2int && sts[3].eps[1] == 1int);
            }
            lemma_reach_extend(sts, 3, 3, 2);
            lemma_reach_extend(sts, 3, 3, 1);
            assert forall|v: int| #[trigger] live.contains(v) implies exists|f: int|
                #[trigger] set![3int].contains(f) && e_reachable(sts, f, v) by {
                assert(set![3int].contains(3int));
            }
            lemma_eclosure_is(sts, set![3int], live);
        }
    }
}

/// A starred literal matches exactly the inputs made of its character alone,
/// the empty input among them: the automaton built for
/// `Modifier(Const(c), Star)` accepts `s` if and only if every character of
/// `s` is `c`.
pub proof fn lemma_star_matches_repetitions(c: char, s: Seq<char>)
    ensures
        spec_matches(
            sp_nfa(
                RegexAST::Modifier(
                    Box::new(RegexAST::Const(c)),
                    crate::parser::RegexASTModifier::Star,
                ),
            ),
            s,
        ) <==> (forall|j: int| 0 <= j < s.len() ==> s[j] == c),
{
    lemma_star_shape(c);
    let a = sp_nfa(star_of(c));
    let sts = a.states;
    lemma_star_live(c, s, s.len() as int);
    let last = sp_states_after(a, s, s.len() as int);
    if prefix_all(s, s.len() as int, c) {
        assert(last.contains(1int) && sts[1].accepting);
        assert(any_accepting(sts, last));
    } else {
        assert(!any_accepting(sts, Set::<int>::empty()));
    }
}

/// The plussed literal pattern for `c`.
spec fn plus_of(c: char) -> RegexAST {
    RegexAST::Modifier(Box::new(RegexAST::Const(c)), crate::parser::RegexASTModifier::Plus)
}

/// The concrete shape of the automaton built for a plussed literal: as the
/// starred one, but without the bypass edge from the entry to the exit.
proof fn lemma_plus_shape(c: char)
    ensures
        ({
            let sts = sp_nfa(plus_of(c)).states;
            &&& sp_nfa(plus_of(c)).start == 0
            &&& sts.len() == 4
            &&& sts[0].trans =~= Seq::<(char, int)>::empty()
            &&& sts[0].eps =~= seq![2int]
            &&& !sts[0].accepting
            &&& sts[1].trans =~= Seq::<(char, int)>::empty()
            &&& sts[1].eps =~= Seq::<int>::empty()
            &&& sts[1].accepting
            &&& sts[2].trans =~= seq![(c, 3int)]
            &&& sts[2].eps =~= Seq::<int>::empty()
            &&& !sts[2].accepting
            &&& sts[3].trans =~= Seq::<(char, int)>::empty()
            &&& sts[3].eps =~= seq![2int, 1int]
            &&& !sts[3].accepting
        }),
{
    reveal_with_fuel(crate::nfa_builder::sp_build, 3);
}

/// The live sets of a plussed literal: the exit only becomes live once one
/// `c` was read, and dies with any other character.
proof fn lemma_plus_live(c: char, s: Seq<char>, i: int)
    requires
        0 <= i <= s.len(),
    ensures
        ({
            let a = sp_nfa(plus_of(c));
            sp_states_after(a, s, i) == (if !prefix_all(s, i, c) {
                Set::<int>::empty()
            } else if i == 0 {
                set![0int, 2int]
            } else {
                set![3int, 2int, 1int]
            })
        }),
    decreases i,
{
    lemma_plus_shape(c);
    let a = sp_nfa(plus_of(c));
    let sts = a.states;
    if i == 0 {
        let s0 = set![0int, 2int];
        assert(set_closed(sts, s0)) by {
            assert(sts[0].eps[0] == 2int);
        }
        lemma_reach_self(sts, 0);
        assert(sts[0].eps.contains(2int)) by {
            assert(sts[0].eps[0] == 2int);
        }
        lemma_reach_extend(sts, 0, 0, 2);
        assert forall|v: int| #[trigger] s0.contains(v) implies exists|f: int|
            #[trigger] set![0int].contains(f) && e_reachable(sts, f, v) by {
            assert(set![0int].contains(0int));
        }
        lemma_eclosure_is(sts, set![0int], s0);
    } else {
        lemma_plus_live(c, s, i - 1);
        let prev = sp_states_after(a, s, i - 1);
        if !prefix_all(s, i - 1, c) {
            assert(!prefix_all(s, i, c));
            assert(char_step(sts, Set::<int>::empty(), s[i - 1]) =~= Set::<int>::empty());
            assert(e_closure_of(sts, Set::<int>::empty()) =~= Set::<int>::empty());
        } else if s[i - 1] != c {
            assert(!prefix_all(s, i, c));
            assert(char_step(sts, prev, s[i - 1]) =~= Set::<int>::empty());
            assert(e_closure_of(sts, Set::<int>::empty()) =~= Set::<int>::empty());
        } else {
            assert(prefix_all(s, i, c));
            assert(prev.contains(2int));
            assert(char_step(sts, prev, s[i - 1]) =~= set![3int]) by {
                assert(sts[2].trans[0] == (s[i - 1], 3int));
            }
            let live = set![3int, 2int, 1int];
            assert(set_closed(sts, live)) by {
                assert(sts[3].eps[0] == 2int && sts[3].eps[1] == 1int);
            }
            lemma_reach_self(sts, 3);
            assert(sts[3].eps.contains(2int) && sts[3].eps.contains(1int)) by {
                assert(sts[3].eps[0] == 2int && sts[3].eps[1] == 1int);
            }
            lemma_reach_extend(sts, 3, 3, 2);
            lemma_reach_extend(sts, 3, 3, 1);
            assert forall|v: int| #[trigger] live.contains(v) implies exists|f: int|
                #[trigger] set![3int].contains(f) && e_reachable(sts, f, v) by {
                assert(set![3int].contains(3int));
            }
            lemma_eclosure_is(sts, set![3int], live);
        }
    }
}

/// A plussed literal matches exactly the nonempty inputs made of its
/// character alone: the automaton built for `Modifier(Const(c), Plus)`
/// accepts `s` if and only if `s` is nonempty and every character of `s`
/// is `c`.
pub proof fn lemma_plus_matches_repetitions(c: char, s: Seq<char>)
    ensures
        spec_matches(
            sp_nfa(
                RegexAST::Modifier(
                    Box::new(RegexAST::Const(c)),
                    crate::parser::RegexASTModifier::Plus,
                ),
            ),
            s,
        ) <==> (s.len() >= 1 && forall|j: int| 0 <= j < s.len() ==> s[j] == c),
{
    lemma_plus_shape(c);
    let a = sp_nfa(plus_of(c));
    let sts = a.states;
    lemma_plus_live(c, s, s.len() as int);
    let last = sp_states_after(a, s, s.len() as int);
    if prefix_all(s, s.len() as int, c) && s.len() >= 1 {
        assert(last.contains(1int) && sts[1].accepting);
        assert(any_accepting(sts, last));
    } else if s.len() == 0 {
        assert(!any_accepting(sts, set![0int, 2int]));
    } else {
        assert(!any_accepting(sts, Set::<int>::empty()));
    }
}

/// The optional literal pattern for `c`.
spec fn optional_of(c: char) -> RegexAST {
    RegexAST::Modifier(Box::new(RegexAST::Const(c)), crate::parser::RegexASTModifier::Optional)
}

/// An optional literal matches the empty input and its character, nothing
/// else: the automaton built for `Modifier(Const(c), Optional)` accepts `s`
/// if and only if `s` is empty or exactly the single character `c`.
#[verifier::rlimit(60)]
pub proof fn lemma_optional_matches_at_most_once(c: char, s: Seq<char>)
    ensures
        spec_matches(
            sp_nfa(
                RegexAST::Modifier(
                    Box::new(RegexAST::Const(c)),
                    crate::parser::RegexASTModifier::Optional,
                ),
            ),
            s,
        ) <==> (s == Seq::<char>::empty() || s == seq![c]),
{
    reveal_with_fuel(crate::nfa_builder::sp_build, 3);
    let a = sp_nfa(optional_of(c));
    let sts = a.states;
    assert(sts.len() == 4);
    assert(sts[0].trans =~= Seq::<(char, int)>::empty());
    assert(sts[0].eps =~= seq![2int, 1int]);
    assert(!sts[0].accepting);
    assert(sts[1].trans =~= Seq::<(char, int)>::empty());
    assert(sts[1].eps =~= Seq::<int>::empty());
    assert(sts[1].accepting);
    assert(sts[2].trans =~= seq![(c, 3int)]);
    assert(sts[2].eps =~= Seq::<int>::empty());
    assert(!sts[2].accepting);
    assert(sts[3].trans =~= Seq::<(char, int)>::empty());
    assert(sts[3].eps =~= seq![1int]);
    assert(!sts[3].accepting);
    assert(a.start == 0);
    let s0 = set![0int, 2int, 1int];
    assert(set_closed(sts, s0)) by {
        assert(sts[0].eps[0] == 2int && sts[0].eps[1] == 1int);
    }
    lemma_reach_self(sts, 0);
    assert(sts[0].eps.contains(2int) && sts[0].eps.contains(1int)) by {
        assert(sts[0].eps[0] == 2int && sts[0].eps[1] == 1int);
    }
    lemma_reach_extend(sts, 0, 0, 2);
    lemma_reach_extend(sts, 0, 0, 1);
    assert forall|v: int| #[trigger] s0.contains(v) implies exists|f: int|
        #[trigger] set![0int].contains(f) && e_reachable(sts, f, v) by {
        assert(set![0int].contains(0int));
    }
    lemma_eclosure_is(sts, set![0int], s0);
    assert(sp_states_after(a, s, 0) == s0);
    if s.len() == 0 {
        assert(s0.contains(1int) && sts[1].accepting);
        assert(any_accepting(sts, s0));
        assert(s =~= Seq::<char>::empty());
    } else if s[0] != c {
        assert(char_step(sts, s0, s[0]) =~= Set::<int>::empty());
        assert(e_closure_of(sts, Set::<int>::empty()) =~= Set::<int>::empty());
        assert(sp_states_after(a, s, 1) == Set::<int>::empty());
        lemma_no_live_stays(a, s, 1, s.len() as int);
        assert(!spec_matches(a, s));
        assert(s != seq![c]) by {
            if s == seq![c] {
                assert(s[0] == c);
            }
        }
    } else {
        assert(char_step(sts, s0, s[0]) =~= set![3int]) by {
            assert(s0.contains(2int) && sts[2].trans[0] == (s[0], 3int));
        }
        let live = set![3int, 1int];
        assert(set_closed(sts, live)) by {
            assert(sts[3].eps[0] == 1int);
        }
        lemma_reach_self(sts, 3);
        assert(sts[3].eps.contains(1int)) by {
            assert(sts[3].eps[0] == 1int);
        }
        lemma_reach_extend(sts, 3, 3, 1);
        assert forall|v: int| #[trigger] live.contains(v) implies exists|f: int|
            #[trigger] set![3int].contains(f) && e_reachable(sts, f, v) by {
            assert(set![3int].contains(3int));
        }
        lemma_eclosure_is(sts, set![3int], live);
        assert(sp_states_after(a, s, 1) == live);
        if s.len() == 1 {
            assert(live.contains(1int) && sts[1].accepting);
            assert(any_accepting(sts, live));
            assert(s =~= seq![c]);
        } else {
            assert(char_step(sts, live, s[1]) =~= Set::<int>::empty());
            assert(e_closure_of(sts, Set::<int>::empty()) =~= Set::<int>::empty());
            assert(sp_states_after(a, s, 2) == Set::<int>::empty());
            lemma_no_live_stays(a, s, 2, s.len() as int);
            assert(!spec_matches(a, s));
            assert(s != seq![c] && s != Seq::<char>::empty());
        }
    }
}

} // verus!
