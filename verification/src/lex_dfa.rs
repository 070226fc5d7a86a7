//! Subset construction, minimization and priority resolution.
//!
//! A deterministic state is a set of nondeterministic state ids, kept as a
//! strictly sorted vector so that equal sets have equal representations.
//! Construction walks forward from the epsilon-closure of the global start
//! state, so unreachable states are never materialized, and a subset already
//! seen is never registered twice. A state is accepting when its member set
//! holds an accepting state, and its winning rule is the minimum rule index
//! among those members: the earliest-declared rule wins ties. Longest match
//! is the driver's policy, made possible by reporting the winning rule at
//! every state.
//!
//! Minimization merges states with the same winning rule and the same
//! transition behavior onto the merged classes, by iterative partition
//! refinement; `resolve` answers which rule a whole input resolves to.

use vstd::prelude::*;

use crate::lex_nfa::Nfa;
use crate::lex_nfa::NfaState;
use crate::lex_nfa::StateId;
use crate::lex_nfa::Symbol;

verus! {

broadcast use vstd::std_specs::vec::axiom_vec_index_decreases;

/// One deterministic state: the set of nondeterministic states it stands
/// for, its outgoing edges keyed by character, and the winning rule, if any.
#[derive(Debug)]
pub struct DfaState {
    /// The member set, strictly sorted: the canonical subset identity.
    pub nfa_states: Vec<StateId>,
    /// The transition function: one entry per character, keys strictly
    /// increasing; no entry means reject.
    pub transitions: Vec<(char, usize)>,
    /// The minimum rule index among accepting members, or none.
    pub accepting_rule: Option<u32>,
}

/// The deterministic automaton.
#[derive(Debug)]
pub struct Dfa {
    pub states: Vec<DfaState>,
    pub start: usize,
}

/// A strictly increasing id vector: a canonical set representation.
pub open spec fn seq_sorted(v: Seq<usize>) -> bool {
    forall|p: int, q: int| 0 <= p < q < v.len() ==> v[p] < v[q]
}

/// Every id lies inside an automaton of `n` states.
pub open spec fn set_valid(v: Seq<usize>, n: int) -> bool {
    forall|p: int| 0 <= p < v.len() ==> v[p] < n
}

/// The state has an epsilon edge to `t`.
pub open spec fn has_eps_edge(st: NfaState, t: usize) -> bool {
    exists|k: int|
        0 <= k < st.transitions@.len() && #[trigger] st.transitions@[k] == (
            Symbol::Epsilon,
            t as StateId,
        )
}

/// The state has an edge consuming `c` to `t`.
pub open spec fn has_char_edge(st: NfaState, c: char, t: usize) -> bool {
    exists|k: int|
        0 <= k < st.transitions@.len() && #[trigger] st.transitions@[k] == (
            Symbol::Char(c),
            t as StateId,
        )
}

/// The set follows its own epsilon edges nowhere new.
pub open spec fn eps_closed(nfa: Nfa, v: Seq<usize>) -> bool {
    forall|p: int, t: usize|
        0 <= p < v.len() && #[trigger] has_eps_edge(nfa.states@[v[p] as int], t) ==> v.contains(t)
}

/// Some member moves to `t` on `c`.
pub open spec fn moves_to(nfa: Nfa, members: Seq<usize>, c: char, t: usize) -> bool {
    exists|p: int|
        0 <= p < members.len() && #[trigger] has_char_edge(nfa.states@[members[p] as int], c, t)
}

/// `r` is the minimum rule index among the members' accepting tags, or none
/// when no member is tagged.
pub open spec fn min_rule_ok(nfa: Nfa, members: Seq<usize>, r: Option<u32>) -> bool {
    match r {
        None => forall|p: int|
            0 <= p < members.len() ==> nfa.states@[#[trigger] members[p] as int].rule_index
                is None,
        Some(rv) => (exists|p: int|
            0 <= p < members.len() && nfa.states@[#[trigger] members[p] as int].rule_index
                == Some(rv)) && (forall|p: int|
            0 <= p < members.len() ==> match nfa.states@[#[trigger] members[p] as int].rule_index {
                Some(rr) => rv <= rr,
                None => true,
            }),
    }
}

/// The candidate holds every state the member set moves to on `c` and
/// follows epsilon edges nowhere new: the lower-bound side of the
/// transition target's closure.
pub open spec fn covers_move_closure(
    nfa: Nfa,
    members: Seq<usize>,
    c: char,
    other: Seq<usize>,
) -> bool {
    (forall|t: usize| moves_to(nfa, members, c, t) ==> other.contains(t)) && eps_closed(nfa, other)
}

/// The transition list: strictly increasing keys, targets inside the
/// automaton, each target covering the move of the member set and closed,
/// and an entry for every character on which some member moves.
pub open spec fn trans_ok(nfa: Nfa, states: Seq<DfaState>, i: int) -> bool {
    let tr = states[i].transitions@;
    &&& (forall|p: int, q: int|
        0 <= p < q < tr.len() ==> ((#[trigger] tr[p]).0 as u32) < ((#[trigger] tr[q]).0 as u32))
    &&& (forall|k: int|
        0 <= k < tr.len() ==> (#[trigger] tr[k]).1 < states.len() && eps_closed(
            nfa,
            states[tr[k].1 as int].nfa_states@,
        ) && (forall|t: usize|
            moves_to(nfa, states[i].nfa_states@, tr[k].0, t)
                ==> states[tr[k].1 as int].nfa_states@.contains(t)) && (forall|
            other: Seq<usize>,
            q: int,
        |
            #[trigger] covers_move_closure(nfa, states[i].nfa_states@, tr[k].0, other) && 0 <= q
                < states[tr[k].1 as int].nfa_states@.len() ==> other.contains(
                #[trigger] states[tr[k].1 as int].nfa_states@[q],
            )))
    &&& (forall|c: char, t: usize|
        #[trigger] moves_to(nfa, states[i].nfa_states@, c, t) ==> exists|k: int|
            0 <= k < tr.len() && (#[trigger] tr[k]).0 == c)
}

impl Dfa {
    /// Every state holds a sorted valid member set, its winning rule is the
    /// minimum among its members, no two states hold the same member set,
    /// and all transition targets are inside the automaton.
    pub open spec fn wf(self, nfa: Nfa) -> bool {
        &&& (forall|i: int|
            0 <= i < self.states@.len() ==> seq_sorted(
                (#[trigger] self.states@[i]).nfa_states@,
            ) && set_valid(self.states@[i].nfa_states@, nfa.states@.len() as int) && min_rule_ok(
                nfa,
                self.states@[i].nfa_states@,
                self.states@[i].accepting_rule,
            ) && eps_closed(nfa, self.states@[i].nfa_states@))
        &&& (forall|i: int, j: int|
            0 <= i < j < self.states@.len() ==> (#[trigger] self.states@[i]).nfa_states@ != (
            #[trigger] self.states@[j]).nfa_states@)
        &&& (forall|i: int| 0 <= i < self.states@.len() ==> trans_ok(nfa, self.states@, i))
        &&& self.states@.len() > 0
        &&& self.start < self.states@.len()
    }
}

/// Whether a sorted id vector holds `x`.
fn contains_id(v: &Vec<usize>, x: usize) -> (r: bool)
    ensures
        r == v@.contains(x),
{
    let mut k: usize = 0;
    while k < v.len()
        invariant
            k <= v@.len(),
            forall|j: int| 0 <= j < k ==> v@[j] != x,
        decreases v@.len() - k,
    {
        if v[k] == x {
            return true;
        }
        k = k + 1;
    }
    false
}

/// Insert `x` into a strictly sorted id vector, keeping it sorted; inserting
/// a present id changes nothing.
fn insert_id(v: &mut Vec<usize>, x: usize)
    requires
        seq_sorted(old(v)@),
    ensures
        seq_sorted(final(v)@),
        forall|y: usize| final(v)@.contains(y) <==> (old(v)@.contains(y) || y == x),
        final(v)@.len() >= old(v)@.len(),
        final(v)@.len() <= old(v)@.len() + 1,
        !old(v)@.contains(x) ==> final(v)@.len() == old(v)@.len() + 1,
        old(v)@.contains(x) ==> final(v)@ == old(v)@,
{
    let mut k: usize = 0;
    while k < v.len() && v[k] < x
        invariant
            k <= v@.len(),
            forall|j: int| 0 <= j < k ==> v@[j] < x,
            v@ == old(v)@,
        decreases v@.len() - k,
    {
        k = k + 1;
    }
    if k < v.len() && v[k] == x {
        proof {
            assert(v@.contains(x));
        }
        return ;
    }
    v.insert(k, x);
    proof {
        assert forall|y: usize| final(v)@.contains(y) implies (old(v)@.contains(y) || y == x) by {
            let idx = choose|idx: int| 0 <= idx < v@.len() && v@[idx] == y;
            if idx < k {
                assert(old(v)@[idx] == y);
            } else if idx > k {
                assert(old(v)@[idx - 1] == y);
            }
        }
        assert forall|y: usize| (old(v)@.contains(y) || y == x) implies final(v)@.contains(y) by {
            if y == x {
                assert(v@[k as int] == x);
            } else if old(v)@.contains(y) {
                let idx = choose|idx: int| 0 <= idx < old(v)@.len() && old(v)@[idx] == y;
                if idx < k {
                    assert(v@[idx] == y);
                } else {
                    assert(v@[idx + 1] == y);
                }
            }
        }
        assert forall|p: int, q: int| 0 <= p < q < v@.len() implies v@[p] < v@[q] by {
            let ghost ko = k as int;
            if q < ko {
            } else if p < ko && q == ko {
            } else if p < ko && q > ko {
                assert(old(v)@[p] < old(v)@[q - 1] || p == q - 1);
            } else if p == ko {
                assert(v@[q] == old(v)@[q - 1]);
                assert(old(v)@[q - 1] >= x);
                assert(old(v)@[q - 1] != x);
            } else {
                assert(v@[p] == old(v)@[p - 1]);
                assert(v@[q] == old(v)@[q - 1]);
            }
        }
    }
}

/// Whether two id vectors are equal.
fn ids_equal(a: &Vec<usize>, b: &Vec<usize>) -> (r: bool)
    ensures
        r == (a@ == b@),
{
    if a.len() != b.len() {
        proof {
            assert(a@ != b@);
        }
        return false;
    }
    let mut k: usize = 0;
    while k < a.len()
        invariant
            a@.len() == b@.len(),
            k <= a@.len(),
            forall|j: int| 0 <= j < k ==> a@[j] == b@[j],
        decreases a@.len() - k,
    {
        if a[k] != b[k] {
            proof {
                assert(a@[k as int] != b@[k as int]);
            }
            return false;
        }
        k = k + 1;
    }
    proof {
        assert(a@ =~= b@);
    }
    true
}

/// All epsilon edges out of the visited set land back in it or in the
/// waiting work list.
pub open spec fn closed_except(nfa: Nfa, visited: Seq<usize>, work: Seq<usize>) -> bool {
    forall|v: usize, t: usize|
        #[trigger] visited.contains(v) && #[trigger] has_eps_edge(nfa.states@[v as int], t) ==> (
        visited.contains(t) || work.contains(t))
}

/// Appending keeps every held value and adds the new one.
proof fn lemma_push_contains(w: Seq<usize>, x: usize)
    ensures
        forall|y: usize| w.push(x).contains(y) <==> (w.contains(y) || y == x),
{
    assert forall|y: usize| w.push(x).contains(y) implies (w.contains(y) || y == x) by {
        let idx = choose|idx: int| 0 <= idx < w.push(x).len() && w.push(x)[idx] == y;
        if idx < w.len() {
            assert(w[idx] == y);
        }
    }
    assert forall|y: usize| (w.contains(y) || y == x) implies w.push(x).contains(y) by {
        if y == x {
            assert(w.push(x)[w.len() as int] == y);
        } else {
            let idx = choose|idx: int| 0 <= idx < w.len() && w[idx] == y;
            assert(w.push(x)[idx] == y);
        }
    }
}

/// The seed set and the candidate meet the closure's lower-bound side:
/// the candidate holds the seed and follows epsilon edges nowhere new.
pub open spec fn covers_closure(nfa: Nfa, seed: Seq<usize>, other: Seq<usize>) -> bool {
    (forall|s: usize| seed.contains(s) ==> other.contains(s)) && eps_closed(nfa, other)
}

/// The id is held by the visited set or the waiting work list.
pub open spec fn in_wavefront(visited: Seq<usize>, work: Seq<usize>, y: usize) -> bool {
    visited.contains(y) || work.contains(y)
}

/// The epsilon-closure of a seed set, exactly: the least sorted set that
/// holds every seed id and follows epsilon edges nowhere new — it lies
/// inside every other set that does so.
#[verifier::loop_isolation(false)]
fn epsilon_closure(nfa: &Nfa, seed: &Vec<usize>) -> (r: Vec<usize>)
    requires
        nfa.wf(),
        set_valid(seed@, nfa.states@.len() as int),
    ensures
        seq_sorted(r@),
        set_valid(r@, nfa.states@.len() as int),
        forall|s: usize| seed@.contains(s) ==> r@.contains(s),
        eps_closed(*nfa, r@),
        forall|other: Seq<usize>, p: int|
            #[trigger] covers_closure(*nfa, seed@, other) && 0 <= p < r@.len() ==> other.contains(
                #[trigger] r@[p],
            ),
{
    let ghost n = nfa.states@.len() as int;
    let mut visited: Vec<usize> = Vec::new();
    let mut work: Vec<usize> = Vec::new();
    let mut k: usize = 0;
    while k < seed.len()
        invariant
            k <= seed@.len(),
            work@ == seed@.subrange(0, k as int),
        decreases seed@.len() - k,
    {
        work.push(seed[k]);
        proof {
            assert(work@ =~= seed@.subrange(0, k as int + 1));
        }
        k = k + 1;
    }
    proof {
        assert(work@ =~= seed@);
        assert forall|y: usize| work@.contains(y) implies y < n by {
            let idx = choose|idx: int| 0 <= idx < work@.len() && work@[idx] == y;
        }
        assert forall|other: Seq<usize>, y: usize|
            #[trigger] covers_closure(*nfa, seed@, other) && #[trigger] in_wavefront(
                visited@,
                work@,
                y,
            ) implies other.contains(y) by {
            assert(seed@.contains(y));
        }
    }
    while work.len() > 0
        invariant
            seq_sorted(visited@),
            forall|y: usize| visited@.contains(y) ==> y < n,
            forall|y: usize| work@.contains(y) ==> y < n,
            forall|s2: usize| seed@.contains(s2) ==> (visited@.contains(s2) || work@.contains(s2)),
            closed_except(*nfa, visited@, work@),
            forall|other: Seq<usize>, y: usize|
                #[trigger] covers_closure(*nfa, seed@, other) && #[trigger] in_wavefront(
                    visited@,
                    work@,
                    y,
                ) ==> other.contains(y),
        decreases usize::MAX - visited.len(), work.len(),
    {
        let ghost vpre = visited@;
        let ghost wpre = work@;
        let s = match work.pop() {
            Some(v) => v,
            None => {
                return visited;
            },
        };
        proof {
            assert(wpre[wpre.len() - 1] == s);
            assert(wpre.contains(s));
            lemma_drop_last_contains(wpre, s);
        }
        if !contains_id(&visited, s) {
            insert_id(&mut visited, s);
            let ghost vmid = visited@;
            let nst = &nfa.states[s];
            proof {
                assert(nfa.states@[s as int].targets_lt(n));
                assert forall|y: usize| work@.contains(y) implies y < n by {
                    assert(wpre.contains(y));
                }
                assert forall|other: Seq<usize>, y: usize|
                    #[trigger] covers_closure(*nfa, seed@, other) && #[trigger] in_wavefront(
                        visited@,
                        work@,
                        y,
                    ) implies other.contains(y) by {
                    if work@.contains(y) || y == s {
                        assert(wpre.contains(y));
                        assert(in_wavefront(vpre, wpre, y));
                    } else {
                        assert(vpre.contains(y));
                        assert(in_wavefront(vpre, wpre, y));
                    }
                }
            }
            let mut e: usize = 0;
            while e < nst.transitions.len()
                invariant
                    visited@ == vmid,
                    e <= nst.transitions@.len(),
                    s < n,
                    visited@.contains(s),
                    forall|y: usize| work@.contains(y) ==> y < n,
                    forall|s2: usize|
                        seed@.contains(s2) ==> (visited@.contains(s2) || work@.contains(s2)),
                    forall|v: usize, t: usize|
                        #[trigger] visited@.contains(v) && #[trigger] has_eps_edge(
                            nfa.states@[v as int],
                            t,
                        ) && v != s ==> (visited@.contains(t) || work@.contains(t)),
                    forall|t: usize|
                        (exists|j: int|
                            0 <= j < e && #[trigger] nst.transitions@[j] == (
                                Symbol::Epsilon,
                                t as StateId,
                            )) ==> (visited@.contains(t) || work@.contains(t)),
                    forall|other: Seq<usize>, y: usize|
                        #[trigger] covers_closure(*nfa, seed@, other) && #[trigger] in_wavefront(
                            visited@,
                            work@,
                            y,
                        ) ==> other.contains(y),
                decreases nst.transitions@.len() - e,
            {
                let ghost wmid = work@;
                let (sym, t) = nst.transitions[e];
                proof {
                    assert(nst.transitions@[e as int].1 < n);
                }
                match sym {
                    Symbol::Epsilon => {
                        work.push(t);
                        proof {
                            lemma_push_contains(wmid, t);
                            assert(work@[work@.len() - 1] == t);
                            assert(work@.contains(t));
                            assert(t < n);
                            assert forall|y: usize| work@.contains(y) implies y < n by {
                                if y != t {
                                    assert(wmid.contains(y));
                                }
                            }
                            assert(has_eps_edge(nfa.states@[s as int], t)) by {
                                assert(nst.transitions@[e as int] == (Symbol::Epsilon, t));
                            }
                            assert forall|other: Seq<usize>, y: usize|
                                #[trigger] covers_closure(*nfa, seed@, other)
                                    && #[trigger] in_wavefront(visited@, work@, y)
                                    implies other.contains(y) by {
                                if visited@.contains(y) || wmid.contains(y) {
                                    assert(in_wavefront(visited@, wmid, y));
                                } else {
                                    assert(y == t);
                                    assert(in_wavefront(visited@, wmid, s));
                                    assert(other.contains(s));
                                    let idx = choose|idx: int|
                                        0 <= idx < other.len() && other[idx] == s;
                                    assert(has_eps_edge(nfa.states@[other[idx] as int], t));
                                    assert(other.contains(t));
                                }
                            }
                        }
                    },
                    Symbol::Char(_) => {},
                }
                proof {
                    assert(nst.transitions@[e as int] == (sym, t));
                }
                e = e + 1;
            }
            proof {
                assert forall|v: usize, t: usize|
                    #[trigger] visited@.contains(v) && #[trigger] has_eps_edge(
                        nfa.states@[v as int],
                        t,
                    ) implies (visited@.contains(t) || work@.contains(t)) by {
                    if v == s {
                        assert(has_eps_edge(nfa.states@[s as int], t));
                    }
                }
            }
        } else {
            proof {
                assert forall|y: usize| work@.contains(y) implies y < n by {
                    assert(wpre.contains(y));
                }
                assert forall|other: Seq<usize>, y: usize|
                    #[trigger] covers_closure(*nfa, seed@, other) && #[trigger] in_wavefront(
                        visited@,
                        work@,
                        y,
                    ) implies other.contains(y) by {
                    if work@.contains(y) {
                        assert(wpre.contains(y));
                    }
                    assert(in_wavefront(vpre, wpre, y));
                }
            }
        }
    }
    proof {
        assert forall|p: int| 0 <= p < visited@.len() implies visited@[p] < n by {
            assert(visited@.contains(visited@[p]));
        }
        assert forall|p: int, t: usize|
            0 <= p < visited@.len() && #[trigger] has_eps_edge(
                nfa.states@[visited@[p] as int],
                t,
            ) implies visited@.contains(t) by {
            assert(visited@.contains(visited@[p]));
        }
        assert forall|other: Seq<usize>, p: int|
            #[trigger] covers_closure(*nfa, seed@, other) && 0 <= p < visited@.len()
                implies other.contains(#[trigger] visited@[p]) by {
            assert(in_wavefront(visited@, work@, visited@[p]));
        }
    }
    visited
}

/// Dropping the last element of a sequence keeps every other value present.
proof fn lemma_drop_last_contains(w: Seq<usize>, s: usize)
    requires
        w.len() > 0,
        s == w.last(),
    ensures
        forall|y: usize| w.contains(y) ==> (w.drop_last().contains(y) || y == s),
        forall|y: usize| w.drop_last().contains(y) ==> w.contains(y),
{
    assert forall|y: usize| w.contains(y) implies (w.drop_last().contains(y) || y == s) by {
        let idx = choose|idx: int| 0 <= idx < w.len() && w[idx] == y;
        if idx < w.len() - 1 {
            assert(w.drop_last()[idx] == y);
        }
    }
    assert forall|y: usize| w.drop_last().contains(y) implies w.contains(y) by {
        let idx = choose|idx: int| 0 <= idx < w.drop_last().len() && w.drop_last()[idx] == y;
        assert(w[idx] == y);
    }
}


/// Characters strictly increasing by codepoint.
pub open spec fn chars_sorted(v: Seq<char>) -> bool {
    forall|p: int, q: int| 0 <= p < q < v.len() ==> ((v[p] as u32) < (v[q] as u32))
}

/// Some member has an edge consuming `c`.
pub open spec fn set_moves_on(nfa: Nfa, members: Seq<usize>, c: char) -> bool {
    exists|t: usize| moves_to(nfa, members, c, t)
}

/// Insert `x` into a codepoint-sorted character vector; inserting a present
/// character changes nothing.
fn insert_char(v: &mut Vec<char>, x: char)
    requires
        chars_sorted(old(v)@),
    ensures
        chars_sorted(final(v)@),
        forall|y: char| final(v)@.contains(y) <==> (old(v)@.contains(y) || y == x),
{
    let xu = x as u32;
    let mut k: usize = 0;
    while k < v.len() && (v[k] as u32) < xu
        invariant
            k <= v@.len(),
            forall|j: int| 0 <= j < k ==> ((v@[j] as u32) < xu),
            v@ == old(v)@,
        decreases v@.len() - k,
    {
        k = k + 1;
    }
    if k < v.len() && (v[k] as u32) == xu {
        proof {
            assert((v@[k as int] as u32) == (x as u32));
            assert(v@[k as int] == x) by {
                crate::lex_dfa::lemma_char_u32_inj(v@[k as int], x);
            }
            assert(v@.contains(x));
        }
        return ;
    }
    v.insert(k, x);
    proof {
        assert forall|y: char| final(v)@.contains(y) implies (old(v)@.contains(y) || y == x) by {
            let idx = choose|idx: int| 0 <= idx < v@.len() && v@[idx] == y;
            if idx < k {
                assert(old(v)@[idx] == y);
            } else if idx > k {
                assert(old(v)@[idx - 1] == y);
            }
        }
        assert forall|y: char| (old(v)@.contains(y) || y == x) implies final(v)@.contains(y) by {
            if y == x {
                assert(v@[k as int] == x);
            } else if old(v)@.contains(y) {
                let idx = choose|idx: int| 0 <= idx < old(v)@.len() && old(v)@[idx] == y;
                if idx < k {
                    assert(v@[idx] == y);
                } else {
                    assert(v@[idx + 1] == y);
                }
            }
        }
        assert forall|p: int, q: int| 0 <= p < q < v@.len() implies ((v@[p] as u32) < (
        v@[q] as u32)) by {
            let ghost ko = k as int;
            if q < ko {
            } else if p < ko && q == ko {
            } else if p < ko && q > ko {
                assert((old(v)@[p] as u32) < (old(v)@[q - 1] as u32) || p == q - 1);
            } else if p == ko {
                assert(v@[q] == old(v)@[q - 1]);
                assert((old(v)@[q - 1] as u32) >= xu);
                assert((old(v)@[q - 1] as u32) != xu) by {
                    if (old(v)@[q - 1] as u32) == xu {
                        lemma_char_u32_inj(old(v)@[q - 1], x);
                        assert(old(v)@.contains(x));
                    }
                }
            } else {
                assert(v@[p] == old(v)@[p - 1]);
                assert(v@[q] == old(v)@[q - 1]);
            }
        }
    }
}

/// Two characters with one codepoint are one character.
pub proof fn lemma_char_u32_inj(a: char, b: char)
    requires
        a as u32 == b as u32,
    ensures
        a == b,
{
    assert(a as int == b as int);
}

/// The set of ids some member reaches on `c`.
#[verifier::loop_isolation(false)]
fn move_on_char(nfa: &Nfa, members: &Vec<usize>, c: char) -> (r: Vec<usize>)
    requires
        nfa.wf(),
        set_valid(members@, nfa.states@.len() as int),
    ensures
        seq_sorted(r@),
        set_valid(r@, nfa.states@.len() as int),
        forall|t: usize| r@.contains(t) <==> moves_to(*nfa, members@, c, t),
    decreases members@.len(),
{
    let ghost n = nfa.states@.len() as int;
    let mut r: Vec<usize> = Vec::new();
    let mut p: usize = 0;
    while p < members.len()
        invariant
            p <= members@.len(),
            seq_sorted(r@),
            forall|y: usize| r@.contains(y) ==> y < n,
            forall|t: usize|
                r@.contains(t) <==> exists|pp: int|
                    0 <= pp < p && #[trigger] has_char_edge(
                        nfa.states@[members@[pp] as int],
                        c,
                        t,
                    ),
        decreases members@.len() - p,
    {
        let m = members[p];
        let nst = &nfa.states[m];
        proof {
            assert(nfa.states@[m as int].targets_lt(n));
        }
        let mut e: usize = 0;
        while e < nst.transitions.len()
            invariant
                e <= nst.transitions@.len(),
                seq_sorted(r@),
                forall|y: usize| r@.contains(y) ==> y < n,
                forall|t: usize|
                    r@.contains(t) <==> ((exists|pp: int|
                        0 <= pp < p && #[trigger] has_char_edge(
                            nfa.states@[members@[pp] as int],
                            c,
                            t,
                        )) || (exists|j: int|
                        0 <= j < e && #[trigger] nst.transitions@[j] == (
                            Symbol::Char(c),
                            t as StateId,
                        ))),
            decreases nst.transitions@.len() - e,
        {
            let (sym, t) = nst.transitions[e];
            let ghost rpre = r@;
            let hit = match sym {
                Symbol::Char(c2) => c2 == c,
                Symbol::Epsilon => false,
            };
            if hit {
                insert_id(&mut r, t);
                proof {
                    assert(nst.transitions@[e as int] == (Symbol::Char(c), t));
                }
            }
            proof {
                assert(nst.transitions@[e as int] == (sym, t));
            }
            e = e + 1;
        }
        proof {
            assert forall|t: usize|
                r@.contains(t) <==> ((exists|pp: int|
                    0 <= pp < p + 1 && #[trigger] has_char_edge(
                        nfa.states@[members@[pp] as int],
                        c,
                        t,
                    ))) by {
                if r@.contains(t) {
                    if exists|j: int|
                        0 <= j < nst.transitions@.len() && #[trigger] nst.transitions@[j] == (
                            Symbol::Char(c),
                            t as StateId,
                        ) {
                        assert(has_char_edge(nfa.states@[members@[p as int] as int], c, t));
                    }
                }
                if exists|pp: int|
                    0 <= pp < p + 1 && #[trigger] has_char_edge(
                        nfa.states@[members@[pp] as int],
                        c,
                        t,
                    ) {
                    let pp = choose|pp: int|
                        0 <= pp < p + 1 && #[trigger] has_char_edge(
                            nfa.states@[members@[pp] as int],
                            c,
                            t,
                        );
                    if pp == p {
                        assert(has_char_edge(nfa.states@[m as int], c, t));
                    }
                }
            }
        }
        p = p + 1;
    }
    proof {
        assert forall|q: int| 0 <= q < r@.len() implies r@[q] < n by {
            assert(r@.contains(r@[q]));
        }
    }
    r
}

/// The characters on which the member set moves at all.
#[verifier::loop_isolation(false)]
fn chars_of(nfa: &Nfa, members: &Vec<usize>) -> (r: Vec<char>)
    requires
        nfa.wf(),
        set_valid(members@, nfa.states@.len() as int),
    ensures
        chars_sorted(r@),
        forall|c: char| r@.contains(c) <==> set_moves_on(*nfa, members@, c),
{
    let ghost n = nfa.states@.len() as int;
    let mut r: Vec<char> = Vec::new();
    let mut p: usize = 0;
    while p < members.len()
        invariant
            p <= members@.len(),
            chars_sorted(r@),
            forall|c: char|
                r@.contains(c) <==> exists|pp: int, t: usize|
                    0 <= pp < p && #[trigger] has_char_edge(
                        nfa.states@[members@[pp] as int],
                        c,
                        t,
                    ),
        decreases members@.len() - p,
    {
        let m = members[p];
        let nst = &nfa.states[m];
        let mut e: usize = 0;
        while e < nst.transitions.len()
            invariant
                e <= nst.transitions@.len(),
                chars_sorted(r@),
                forall|c: char|
                    r@.contains(c) <==> ((exists|pp: int, t: usize|
                        0 <= pp < p && #[trigger] has_char_edge(
                            nfa.states@[members@[pp] as int],
                            c,
                            t,
                        )) || (exists|j: int|
                        0 <= j < e && (#[trigger] nst.transitions@[j]).0 == Symbol::Char(c))),
            decreases nst.transitions@.len() - e,
        {
            let (sym, t) = nst.transitions[e];
            match sym {
                Symbol::Char(c2) => {
                    insert_char(&mut r, c2);
                    proof {
                        assert(nst.transitions@[e as int] == (Symbol::Char(c2), t));
                    }
                },
                Symbol::Epsilon => {},
            }
            proof {
                assert(nst.transitions@[e as int] == (sym, t));
            }
            e = e + 1;
        }
        proof {
            assert forall|c: char|
                r@.contains(c) <==> ((exists|pp: int, t: usize|
                    0 <= pp < p + 1 && #[trigger] has_char_edge(
                        nfa.states@[members@[pp] as int],
                        c,
                        t,
                    ))) by {
                if r@.contains(c) {
                    if exists|j: int|
                        0 <= j < nst.transitions@.len() && (#[trigger] nst.transitions@[j]).0
                            == Symbol::Char(c) {
                        let j = choose|j: int|
                            0 <= j < nst.transitions@.len() && (#[trigger] nst.transitions@[j]).0
                                == Symbol::Char(c);
                        let t = nst.transitions@[j].1;
                        assert(nst.transitions@[j] == (Symbol::Char(c), t));
                        assert(has_char_edge(nfa.states@[members@[p as int] as int], c, t));
                    }
                }
                if exists|pp: int, t: usize|
                    0 <= pp < p + 1 && #[trigger] has_char_edge(
                        nfa.states@[members@[pp] as int],
                        c,
                        t,
                    ) {
                    let (pp, t) = choose|pp: int, t: usize|
                        0 <= pp < p + 1 && #[trigger] has_char_edge(
                            nfa.states@[members@[pp] as int],
                            c,
                            t,
                        );
                    if pp == p {
                        assert(has_char_edge(nfa.states@[m as int], c, t));
                    }
                }
            }
        }
        p = p + 1;
    }
    proof {
        assert forall|c: char| r@.contains(c) <==> set_moves_on(*nfa, members@, c) by {
            if r@.contains(c) {
                let (pp, t) = choose|pp: int, t: usize|
                    0 <= pp < members@.len() && #[trigger] has_char_edge(
                        nfa.states@[members@[pp] as int],
                        c,
                        t,
                    );
                assert(moves_to(*nfa, members@, c, t));
            }
            if set_moves_on(*nfa, members@, c) {
                let t = choose|t: usize| moves_to(*nfa, members@, c, t);
                let pp = choose|pp: int|
                    0 <= pp < members@.len() && #[trigger] has_char_edge(
                        nfa.states@[members@[pp] as int],
                        c,
                        t,
                    );
                assert(has_char_edge(nfa.states@[members@[pp] as int], c, t));
            }
        }
    }
    r
}

/// The minimum rule index among the members' tags, or none.
#[verifier::loop_isolation(false)]
fn compute_min_rule(nfa: &Nfa, members: &Vec<usize>) -> (r: Option<u32>)
    requires
        nfa.wf(),
        set_valid(members@, nfa.states@.len() as int),
    ensures
        min_rule_ok(*nfa, members@, r),
{
    let mut acc: Option<u32> = None;
    let mut p: usize = 0;
    while p < members.len()
        invariant
            p <= members@.len(),
            min_rule_ok(*nfa, members@.subrange(0, p as int), acc),
        decreases members@.len() - p,
    {
        let ghost pre = members@.subrange(0, p as int);
        let m = members[p];
        match nfa.states[m].rule_index {
            Some(ri) => {
                acc = match acc {
                    None => Some(ri),
                    Some(a) => if ri < a {
                        Some(ri)
                    } else {
                        Some(a)
                    },
                };
            },
            None => {},
        }
        proof {
            let cur = members@.subrange(0, p as int + 1);
            assert(cur.drop_last() =~= pre);
            assert(cur.last() == members@[p as int]);
            assert forall|q: int| 0 <= q < cur.len() implies (cur[q] == pre[q] || q == p) by {}
            match acc {
                Some(rv) => {
                    assert(exists|q: int|
                        0 <= q < cur.len() && nfa.states@[#[trigger] cur[q] as int].rule_index
                            == Some(rv)) by {
                        if nfa.states@[m as int].rule_index == Some(rv) {
                            assert(cur[p as int] == m);
                        } else {
                            let q = choose|q: int|
                                0 <= q < pre.len() && nfa.states@[
                                #[trigger] pre[q] as int].rule_index == Some(rv);
                            assert(cur[q] == pre[q]);
                        }
                    }
                },
                None => {},
            }
        }
        p = p + 1;
    }
    proof {
        assert(members@.subrange(0, members@.len() as int) =~= members@);
    }
    acc
}

/// The state holding exactly this member set, if one exists.
fn find_state(states: &Vec<DfaState>, target: &Vec<usize>) -> (r: Option<usize>)
    ensures
        match r {
            Some(j) => j < states@.len() && states@[j as int].nfa_states@ == target@,
            None => forall|j: int|
                0 <= j < states@.len() ==> (#[trigger] states@[j]).nfa_states@ != target@,
        },
{
    let mut j: usize = 0;
    while j < states.len()
        invariant
            j <= states@.len(),
            forall|q: int| 0 <= q < j ==> (#[trigger] states@[q]).nfa_states@ != target@,
        decreases states@.len() - j,
    {
        if ids_equal(&states[j].nfa_states, target) {
            return Some(j);
        }
        j = j + 1;
    }
    None
}


/// What a state of the deterministic automaton must satisfy on its own:
/// a canonical, valid, closed member set with the right winning rule.
pub open spec fn state_base_ok(nfa: Nfa, ds: DfaState) -> bool {
    &&& seq_sorted(ds.nfa_states@)
    &&& set_valid(ds.nfa_states@, nfa.states@.len() as int)
    &&& min_rule_ok(nfa, ds.nfa_states@, ds.accepting_rule)
    &&& eps_closed(nfa, ds.nfa_states@)
}

impl Dfa {
    /// Enough structure to run the automaton: a start state, transition
    /// targets inside the array, and one entry per character.
    pub open spec fn runnable(self) -> bool {
        &&& self.states@.len() > 0
        &&& self.start < self.states@.len()
        &&& (forall|i: int, k: int|
            0 <= i < self.states@.len() && 0 <= k < (#[trigger] self.states@[i]).transitions@.len()
                ==> (#[trigger] self.states@[i].transitions@[k]).1 < self.states@.len())
        &&& (forall|i: int, k1: int, k2: int|
            0 <= i < self.states@.len() && 0 <= k1 < k2 < (
            #[trigger] self.states@[i]).transitions@.len() ==> (#[trigger] self.states@[
            i].transitions@[k1]).0 != (#[trigger] self.states@[i].transitions@[k2]).0)
    }
}

/// Build the deterministic automaton of the whole shared nondeterministic
/// automaton: forward subset construction from the epsilon-closure of the
/// global start state, with canonical deduplication and the minimum-rule
/// tag on every state.
#[verifier::loop_isolation(false)]
#[verifier::rlimit(60)]
pub fn build_dfa(nfa: &Nfa) -> (dfa: Dfa)
    requires
        nfa.wf(),
        nfa.states@.len() > 0,
    ensures
        dfa.wf(*nfa),
        dfa.runnable(),
        dfa.start == 0,
        dfa.states@[0].nfa_states@.contains(nfa.start),
        forall|other: Seq<usize>, p: int|
            #[trigger] covers_closure(*nfa, seq![nfa.start], other) && 0 <= p
                < dfa.states@[0].nfa_states@.len() ==> other.contains(
                #[trigger] dfa.states@[0].nfa_states@[p],
            ),
{
    let ghost n = nfa.states@.len() as int;
    let mut seed: Vec<usize> = Vec::new();
    seed.push(nfa.start);
    let members0 = epsilon_closure(nfa, &seed);
    let ghost m0 = members0@;
    proof {
        assert(seed@[0] == nfa.start);
        assert(seed@.contains(nfa.start));
        assert(seed@ =~= seq![nfa.start]);
    }
    let rule0 = compute_min_rule(nfa, &members0);
    let mut states: Vec<DfaState> = Vec::new();
    states.push(
        DfaState { nfa_states: members0, transitions: Vec::new(), accepting_rule: rule0 },
    );
    let mut i: usize = 0;
    while i < states.len()
        invariant
            1 <= states@.len(),
            i <= states@.len(),
            states@[0].nfa_states@.contains(nfa.start),
            states@[0].nfa_states@ == m0,
            forall|p: int| 0 <= p < states@.len() ==> state_base_ok(*nfa, #[trigger] states@[p]),
            forall|p: int, q: int|
                0 <= p < q < states@.len() ==> (#[trigger] states@[p]).nfa_states@ != (
                #[trigger] states@[q]).nfa_states@,
            forall|p: int| 0 <= p < i ==> trans_ok(*nfa, states@, p),
            forall|p: int|
                i <= p < states@.len() ==> (#[trigger] states@[p]).transitions@.len() == 0,
        decreases usize::MAX - i,
    {
        let ghost membersi = states@[i as int].nfa_states@;
        let cs = chars_of(nfa, &states[i].nfa_states);
        let mut trans: Vec<(char, usize)> = Vec::new();
        let mut ci: usize = 0;
        while ci < cs.len()
            invariant
                i < states@.len(),
                ci <= cs@.len(),
                trans@.len() == ci,
                membersi == states@[i as int].nfa_states@,
                states@[0].nfa_states@.contains(nfa.start),
                states@[0].nfa_states@ == m0,
                forall|p: int|
                    0 <= p < states@.len() ==> state_base_ok(*nfa, #[trigger] states@[p]),
                forall|p: int, q: int|
                    0 <= p < q < states@.len() ==> (#[trigger] states@[p]).nfa_states@ != (
                    #[trigger] states@[q]).nfa_states@,
                forall|p: int| 0 <= p < i ==> trans_ok(*nfa, states@, p),
                forall|p: int|
                    i <= p < states@.len() ==> (#[trigger] states@[p]).transitions@.len() == 0,
                forall|k: int| 0 <= k < ci ==> (#[trigger] trans@[k]).0 == cs@[k],
                forall|k: int|
                    0 <= k < ci ==> (#[trigger] trans@[k]).1 < states@.len() && (forall|t: usize|
                        moves_to(*nfa, membersi, trans@[k].0, t) ==> states@[trans@[
                        k].1 as int].nfa_states@.contains(t)) && (forall|
                        other: Seq<usize>,
                        q: int,
                    |
                        #[trigger] covers_move_closure(*nfa, membersi, trans@[k].0, other) && 0
                            <= q < states@[trans@[k].1 as int].nfa_states@.len()
                            ==> other.contains(#[trigger] states@[trans@[
                        k].1 as int].nfa_states@[q])),
            decreases cs@.len() - ci,
        {
            let c = cs[ci];
            let mv = move_on_char(nfa, &states[i].nfa_states, c);
            let succ = epsilon_closure(nfa, &mv);
            proof {
                assert forall|other: Seq<usize>, q: int|
                    #[trigger] covers_move_closure(*nfa, membersi, c, other) && 0 <= q
                        < succ@.len() implies other.contains(#[trigger] succ@[q]) by {
                    assert(covers_closure(*nfa, mv@, other)) by {
                        assert forall|t: usize| mv@.contains(t) implies other.contains(t) by {
                            assert(moves_to(*nfa, membersi, c, t));
                        }
                    }
                }
            }
            let ghost spre = states@;
            let j = match find_state(&states, &succ) {
                Some(j) => j,
                None => {
                    let r = compute_min_rule(nfa, &succ);
                    let j = states.len();
                    states.push(
                        DfaState { nfa_states: succ, transitions: Vec::new(), accepting_rule: r },
                    );
                    proof {
                        assert forall|p: int, q: int|
                            0 <= p < q < states@.len() implies (#[trigger] states@[p]).nfa_states@
                            != (#[trigger] states@[q]).nfa_states@ by {
                            if q == states@.len() - 1 {
                                assert(spre[p].nfa_states@ != states@[q].nfa_states@);
                            }
                        }
                        assert forall|p: int| 0 <= p < i implies trans_ok(*nfa, states@, p) by {
                            lemma_trans_ok_grow(*nfa, spre, states@, p);
                        }
                    }
                    j
                },
            };
            trans.push((c, j));
            ci = ci + 1;
        }
        let ghost strans = trans@;
        let ghost spre2 = states@;
        let sref = &mut states[i];
        sref.transitions = trans;
        proof {
            assert(states@[i as int].nfa_states@ == membersi);
            assert forall|p: int, q: int|
                0 <= p < q < states@.len() implies (#[trigger] states@[p]).nfa_states@ != (
            #[trigger] states@[q]).nfa_states@ by {
                assert(states@[p].nfa_states@ == spre2[p].nfa_states@);
                assert(states@[q].nfa_states@ == spre2[q].nfa_states@);
            }
            assert forall|p: int| 0 <= p < states@.len() implies state_base_ok(
                *nfa,
                #[trigger] states@[p],
            ) by {
                if p != i {
                    assert(states@[p] == spre2[p]);
                }
            }
            assert forall|p: int| 0 <= p < i + 1 implies trans_ok(*nfa, states@, p) by {
                if p < i {
                    lemma_trans_ok_same_members(*nfa, spre2, states@, p);
                } else {
                    assert forall|c: char, t: usize|
                        #[trigger] moves_to(*nfa, states@[p].nfa_states@, c, t) implies exists|
                        k: int,
                    |
                        0 <= k < states@[p].transitions@.len() && (#[trigger] states@[
                        p].transitions@[k]).0 == c by {
                        assert(moves_to(*nfa, membersi, c, t));
                        assert(set_moves_on(*nfa, membersi, c));
                        assert(cs@.contains(c));
                        let idx = choose|idx: int| 0 <= idx < cs@.len() && cs@[idx] == c;
                        assert((#[trigger] strans[idx]).0 == c);
                        assert(states@[p].transitions@ == strans);
                        assert(0 <= idx < states@[p].transitions@.len());
                        assert((states@[p].transitions@[idx]).0 == c);
                    }
                    assert forall|k1: int, k2: int|
                        0 <= k1 < k2 < states@[p].transitions@.len() implies ((#[trigger] states@[
                        p].transitions@[k1]).0 as u32) < ((#[trigger] states@[
                        p].transitions@[k2]).0 as u32) by {
                        assert(strans[k1].0 == cs@[k1]);
                        assert(strans[k2].0 == cs@[k2]);
                    }
                }
            }
        }
        i = i + 1;
    }
    let dfa = Dfa { states, start: 0 };
    proof {
        assert forall|ii: int, k1: int, k2: int|
            0 <= ii < dfa.states@.len() && 0 <= k1 < k2 < (
            #[trigger] dfa.states@[ii]).transitions@.len() implies (#[trigger] dfa.states@[
        ii].transitions@[k1]).0 != (#[trigger] dfa.states@[ii].transitions@[k2]).0 by {
            assert(trans_ok(*nfa, dfa.states@, ii));
            if dfa.states@[ii].transitions@[k1].0 == dfa.states@[ii].transitions@[k2].0 {
                lemma_char_u32_inj(
                    dfa.states@[ii].transitions@[k1].0,
                    dfa.states@[ii].transitions@[k2].0,
                );
            }
        }
        assert forall|ii: int, k: int|
            0 <= ii < dfa.states@.len() && 0 <= k < (
            #[trigger] dfa.states@[ii]).transitions@.len() implies (#[trigger] dfa.states@[
        ii].transitions@[k]).1 < dfa.states@.len() by {
            assert(trans_ok(*nfa, dfa.states@, ii));
        }
    }
    dfa
}

/// Appending states keeps an existing state's transition promises.
proof fn lemma_trans_ok_grow(nfa: Nfa, pre: Seq<DfaState>, cur: Seq<DfaState>, p: int)
    requires
        0 <= p < pre.len(),
        cur.len() == pre.len() + 1,
        forall|q: int| 0 <= q < pre.len() ==> cur[q] == pre[q],
        trans_ok(nfa, pre, p),
    ensures
        trans_ok(nfa, cur, p),
{
    assert(cur[p] == pre[p]);
    let tr = cur[p].transitions@;
    assert forall|k: int|
        0 <= k < tr.len() implies (#[trigger] tr[k]).1 < cur.len() && eps_closed(
        nfa,
        cur[tr[k].1 as int].nfa_states@,
    ) && (forall|t: usize|
        moves_to(nfa, cur[p].nfa_states@, tr[k].0, t) ==> cur[tr[
        k].1 as int].nfa_states@.contains(t)) && (forall|other: Seq<usize>, q: int|
        #[trigger] covers_move_closure(nfa, cur[p].nfa_states@, tr[k].0, other) && 0 <= q < cur[tr[
        k].1 as int].nfa_states@.len() ==> other.contains(#[trigger] cur[tr[
        k].1 as int].nfa_states@[q])) by {
        assert(tr[k].1 < pre.len());
        assert(cur[tr[k].1 as int] == pre[tr[k].1 as int]);
    }
}

/// Replacing a transition list elsewhere keeps an existing state's
/// transition promises, as long as every member set stays what it was.
proof fn lemma_trans_ok_same_members(nfa: Nfa, pre: Seq<DfaState>, cur: Seq<DfaState>, p: int)
    requires
        0 <= p < pre.len(),
        cur.len() == pre.len(),
        forall|q: int| 0 <= q < pre.len() ==> (#[trigger] cur[q]).nfa_states@ == pre[q].nfa_states@,
        cur[p].transitions@ == pre[p].transitions@,
        trans_ok(nfa, pre, p),
    ensures
        trans_ok(nfa, cur, p),
{
    let tr = cur[p].transitions@;
    assert forall|k: int|
        0 <= k < tr.len() implies (#[trigger] tr[k]).1 < cur.len() && eps_closed(
        nfa,
        cur[tr[k].1 as int].nfa_states@,
    ) && (forall|t: usize|
        moves_to(nfa, cur[p].nfa_states@, tr[k].0, t) ==> cur[tr[
        k].1 as int].nfa_states@.contains(t)) && (forall|other: Seq<usize>, q: int|
        #[trigger] covers_move_closure(nfa, cur[p].nfa_states@, tr[k].0, other) && 0 <= q < cur[tr[
        k].1 as int].nfa_states@.len() ==> other.contains(#[trigger] cur[tr[
        k].1 as int].nfa_states@[q])) by {
        assert(cur[tr[k].1 as int].nfa_states@ == pre[tr[k].1 as int].nfa_states@);
    }
}


/// The target of the entry keyed `c`, if one exists.
pub open spec fn spec_lookup(tr: Seq<(char, usize)>, c: char) -> Option<usize> {
    if exists|k: int| 0 <= k < tr.len() && (#[trigger] tr[k]).0 == c {
        Some(tr[choose|k: int| 0 <= k < tr.len() && (#[trigger] tr[k]).0 == c].1)
    } else {
        None
    }
}

/// The rule the automaton reports after consuming `input` from state `s`:
/// the state's winning rule at the end, or none when a character has no
/// edge.
pub open spec fn dfa_run(dfa: Dfa, s: int, input: Seq<char>) -> Option<u32>
    decreases input.len(),
{
    if !(0 <= s < dfa.states@.len()) {
        None
    } else if input.len() == 0 {
        dfa.states@[s].accepting_rule
    } else {
        match spec_lookup(dfa.states@[s].transitions@, input[0]) {
            Some(j) => dfa_run(dfa, j as int, input.subrange(1, input.len() as int)),
            None => None,
        }
    }
}

fn lookup_trans(tr: &Vec<(char, usize)>, c: char) -> (r: Option<usize>)
    requires
        forall|k1: int, k2: int| 0 <= k1 < k2 < tr@.len() ==> (#[trigger] tr@[k1]).0 != (
        #[trigger] tr@[k2]).0,
    ensures
        r == spec_lookup(tr@, c),
{
    let mut k: usize = 0;
    while k < tr.len()
        invariant
            k <= tr@.len(),
            forall|j: int| 0 <= j < k ==> (#[trigger] tr@[j]).0 != c,
            forall|k1: int, k2: int| 0 <= k1 < k2 < tr@.len() ==> (#[trigger] tr@[k1]).0 != (
            #[trigger] tr@[k2]).0,
        decreases tr@.len() - k,
    {
        let (c2, j) = tr[k];
        if c2 == c {
            proof {
                assert(tr@[k as int].0 == c);
                let kk = choose|kk: int| 0 <= kk < tr@.len() && (#[trigger] tr@[kk]).0 == c;
                assert(kk == k as int);
            }
            return Some(j);
        }
        k = k + 1;
    }
    None
}

/// Run the automaton over the whole input and report the winning rule of
/// the state it ends in, or none when the input leaves the automaton.
pub fn resolve(dfa: &Dfa, input: &Vec<char>) -> (r: Option<u32>)
    requires
        dfa.runnable(),
    ensures
        r == dfa_run(*dfa, dfa.start as int, input@),
{
    let ghost whole = input@;
    let mut s = dfa.start;
    let mut i: usize = 0;
    proof {
        assert(input@.subrange(0, input@.len() as int) =~= input@);
    }
    while i < input.len()
        invariant
            dfa.runnable(),
            s < dfa.states@.len(),
            i <= input@.len(),
            dfa_run(*dfa, dfa.start as int, input@) == dfa_run(
                *dfa,
                s as int,
                input@.subrange(i as int, input@.len() as int),
            ),
        decreases input@.len() - i,
    {
        let c = input[i];
        let ghost rest = input@.subrange(i as int, input@.len() as int);
        proof {
            assert(rest[0] == input@[i as int]);
            assert(rest.subrange(1, rest.len() as int) =~= input@.subrange(
                i as int + 1,
                input@.len() as int,
            ));
        }
        match lookup_trans(&dfa.states[s].transitions, c) {
            Some(j) => {
                proof {
                    let kk = choose|kk: int|
                        0 <= kk < dfa.states@[s as int].transitions@.len() && (
                        #[trigger] dfa.states@[s as int].transitions@[kk]).0 == c;
                }
                s = j;
                i = i + 1;
            },
            None => {
                return None;
            },
        }
    }
    proof {
        assert(input@.subrange(i as int, input@.len() as int) =~= Seq::<char>::empty());
    }
    dfa.states[s].accepting_rule
}

/// Copy an id vector.
fn copy_ids(v: &Vec<usize>) -> (r: Vec<usize>)
    ensures
        r@ == v@,
{
    let mut r: Vec<usize> = Vec::new();
    let mut k: usize = 0;
    while k < v.len()
        invariant
            k <= v@.len(),
            r@ == v@.subrange(0, k as int),
        decreases v@.len() - k,
    {
        r.push(v[k]);
        proof {
            assert(r@ =~= v@.subrange(0, k as int + 1));
        }
        k = k + 1;
    }
    proof {
        assert(r@ =~= v@);
    }
    r
}

/// Two states behave alike under a class map: the same winning rule, and
/// transition lists of one length whose keys agree position by position and
/// whose targets fall in the same classes.
pub open spec fn state_sig_eq(a: DfaState, b: DfaState, class: Seq<usize>) -> bool {
    &&& a.accepting_rule == b.accepting_rule
    &&& a.transitions@.len() == b.transitions@.len()
    &&& (forall|k: int|
        0 <= k < a.transitions@.len() ==> ((#[trigger] a.transitions@[k]).0 == (
        #[trigger] b.transitions@[k]).0 && class[a.transitions@[k].1 as int] == class[
            b.transitions@[k].1 as int]))
}

/// Likeness to one representative is likeness to each other.
proof fn lemma_sig_eq_trans(a: DfaState, b: DfaState, r0: DfaState, class: Seq<usize>)
    requires
        state_sig_eq(a, r0, class),
        state_sig_eq(b, r0, class),
    ensures
        state_sig_eq(a, b, class),
{
    assert forall|k: int|
        0 <= k < a.transitions@.len() implies ((#[trigger] a.transitions@[k]).0 == (
    #[trigger] b.transitions@[k]).0 && class[a.transitions@[k].1 as int] == class[b.transitions@[
    k].1 as int]) by {
        assert(a.transitions@[k].0 == r0.transitions@[k].0);
        assert(b.transitions@[k].0 == r0.transitions@[k].0);
        assert(class[a.transitions@[k].1 as int] == class[r0.transitions@[k].1 as int]);
        assert(class[b.transitions@[k].1 as int] == class[r0.transitions@[k].1 as int]);
    }
}

/// The class map is a fixed point of refinement: states of one class behave
/// alike under the map itself.
pub open spec fn classes_stable(dfa: Dfa, class: Seq<usize>) -> bool {
    forall|u: int, v: int|
        0 <= u < dfa.states@.len() && 0 <= v < dfa.states@.len() && #[trigger] class[u]
            == #[trigger] class[v] ==> state_sig_eq(dfa.states@[u], dfa.states@[v], class)
}

fn same_signature(a: &DfaState, b: &DfaState, class: &Vec<usize>, n: usize) -> (r: bool)
    requires
        forall|k: int| 0 <= k < a.transitions@.len() ==> (#[trigger] a.transitions@[k]).1 < n,
        forall|k: int| 0 <= k < b.transitions@.len() ==> (#[trigger] b.transitions@[k]).1 < n,
        class@.len() == n,
    ensures
        r == state_sig_eq(*a, *b, class@),
{
    let rules_agree = match (a.accepting_rule, b.accepting_rule) {
        (None, None) => true,
        (Some(x), Some(y)) => x == y,
        _ => false,
    };
    if !rules_agree {
        return false;
    }
    if a.transitions.len() != b.transitions.len() {
        return false;
    }
    let mut k: usize = 0;
    while k < a.transitions.len()
        invariant
            a.transitions@.len() == b.transitions@.len(),
            k <= a.transitions@.len(),
            forall|j: int| 0 <= j < a.transitions@.len() ==> (#[trigger] a.transitions@[j]).1 < n,
            forall|j: int| 0 <= j < b.transitions@.len() ==> (#[trigger] b.transitions@[j]).1 < n,
            class@.len() == n,
            forall|j: int|
                0 <= j < k ==> ((#[trigger] a.transitions@[j]).0 == (
                #[trigger] b.transitions@[j]).0 && class@[a.transitions@[j].1 as int] == class@[
                    b.transitions@[j].1 as int]),
        decreases a.transitions@.len() - k,
    {
        let (ca, ta) = a.transitions[k];
        let (cb, tb) = b.transitions[k];
        if ca != cb {
            proof {
                assert(a.transitions@[k as int].0 != b.transitions@[k as int].0);
            }
            return false;
        }
        if class[ta] != class[tb] {
            proof {
                assert(class@[a.transitions@[k as int].1 as int] != class@[b.transitions@[
                k as int].1 as int]);
            }
            return false;
        }
        k = k + 1;
    }
    true
}

/// Running the merged automaton from the class of `s` answers as running
/// the original from `s`, for every input: the simulation behind
/// minimization.
proof fn lemma_min_run(
    dfa: Dfa,
    m: Dfa,
    class: Seq<usize>,
    newid: Seq<usize>,
    reps: Seq<usize>,
    s: int,
    input: Seq<char>,
)
    requires
        dfa.runnable(),
        classes_stable(dfa, class),
        class.len() == dfa.states@.len(),
        newid.len() == dfa.states@.len(),
        forall|j: int| 0 <= j < dfa.states@.len() ==> #[trigger] class[j] < dfa.states@.len(),
        forall|j: int|
            0 <= j < dfa.states@.len() ==> #[trigger] newid[class[j] as int] < m.states@.len(),
        m.states@.len() == reps.len(),
        forall|j: int| 0 <= j < reps.len() ==> #[trigger] reps[j] < dfa.states@.len(),
        forall|c2: int|
            0 <= c2 < class.len() && #[trigger] newid[c2] < m.states@.len() ==> class[reps[newid[
            c2] as int] as int] == c2,
        forall|j: int|
            0 <= j < m.states@.len() ==> (#[trigger] m.states@[j]).accepting_rule == dfa.states@[
            reps[j] as int].accepting_rule,
        forall|j: int|
            0 <= j < m.states@.len() ==> (#[trigger] m.states@[j]).transitions@.len()
                == dfa.states@[reps[j] as int].transitions@.len(),
        forall|j: int, k: int|
            0 <= j < m.states@.len() && 0 <= k < (#[trigger] m.states@[j]).transitions@.len()
                ==> ((#[trigger] m.states@[j].transitions@[k]).0 == dfa.states@[reps[
            j] as int].transitions@[k].0 && m.states@[j].transitions@[k].1 == newid[class[
                dfa.states@[reps[j] as int].transitions@[k].1 as int] as int]),
        0 <= s < dfa.states@.len(),
    ensures
        dfa_run(m, newid[class[s] as int] as int, input) == dfa_run(dfa, s, input),
    decreases input.len(),
{
    let j = newid[class[s] as int] as int;
    let rep = reps[j] as int;
    assert(class[rep] == class[s]);
    assert(state_sig_eq(dfa.states@[s], dfa.states@[rep], class));
    if input.len() == 0 {
        assert(m.states@[j].accepting_rule == dfa.states@[s].accepting_rule);
    } else {
        let c0 = input[0];
        let mtr = m.states@[j].transitions@;
        let str0 = dfa.states@[s].transitions@;
        let rtr = dfa.states@[rep].transitions@;
        assert(mtr.len() == rtr.len() && str0.len() == rtr.len());
        assert forall|k: int| 0 <= k < mtr.len() implies (#[trigger] mtr[k]).0 == str0[k].0 by {
            assert(mtr[k].0 == rtr[k].0);
            assert(str0[k].0 == rtr[k].0);
        }
        if exists|k: int| 0 <= k < str0.len() && (#[trigger] str0[k]).0 == c0 {
            let k2 = choose|k2: int| 0 <= k2 < str0.len() && (#[trigger] str0[k2]).0 == c0;
            assert(mtr[k2].0 == c0);
            assert(spec_lookup(mtr, c0) is Some && spec_lookup(str0, c0) is Some);
            let km = choose|km: int| 0 <= km < mtr.len() && (#[trigger] mtr[km]).0 == c0;
            let ks = choose|ks: int| 0 <= ks < str0.len() && (#[trigger] str0[ks]).0 == c0;
            assert(str0[km].0 == c0);
            assert(km == ks);
            let ts = str0[ks].1 as int;
            assert(ts < dfa.states@.len());
            assert(class[rtr[ks].1 as int] == class[ts]);
            assert(mtr[ks].1 == newid[class[rtr[ks].1 as int] as int]);
            assert(spec_lookup(mtr, c0) == Some(mtr[km].1));
            assert(spec_lookup(str0, c0) == Some(str0[ks].1));
            lemma_min_run(dfa, m, class, newid, reps, ts, input.subrange(1, input.len() as int));
        } else {
            assert(spec_lookup(str0, c0) is None);
            assert forall|k: int| 0 <= k < mtr.len() implies (#[trigger] mtr[k]).0 != c0 by {
                assert(str0[k].0 == mtr[k].0);
            }
            assert(spec_lookup(mtr, c0) is None);
        }
    }
}

/// Merge behaviorally equivalent states: the same winning rule and the same
/// transition function onto the merged classes, refined iteratively until
/// no further merge is possible. The result keeps one representative per
/// class and maps every edge onto class ids; for every input string it
/// resolves exactly as the original.
#[verifier::loop_isolation(false)]
#[verifier::rlimit(100)]
pub fn minimize(dfa: &Dfa) -> (r: Dfa)
    requires
        dfa.runnable(),
    ensures
        r.runnable(),
        r.states@.len() <= dfa.states@.len(),
        r.states@[r.start as int].accepting_rule == dfa.states@[dfa.start as int].accepting_rule,
        forall|input: Seq<char>|
            #[trigger] dfa_run(r, r.start as int, input) == dfa_run(
                *dfa,
                dfa.start as int,
                input,
            ),
{
    let n = dfa.states.len();
    // one pass groups states whose rule and mapped transitions agree;
    // repeated to its fixed point, detected when a pass changes nothing
    let mut class: Vec<usize> = Vec::new();
    let mut k: usize = 0;
    while k < n
        invariant
            k <= n,
            class@.len() == k,
            forall|j: int| 0 <= j < k ==> #[trigger] class@[j] == 0,
        decreases n - k,
    {
        class.push(0);
        k = k + 1;
    }
    let mut stable_found = false;
    let mut round: usize = 0;
    while round < n && !stable_found
        invariant
            n == dfa.states@.len(),
            class@.len() == n,
            round <= n,
            forall|j: int| 0 <= j < n ==> #[trigger] class@[j] < n,
            stable_found ==> classes_stable(*dfa, class@),
        decreases n - round,
    {
        let mut newclass: Vec<usize> = Vec::new();
        let mut reps: Vec<usize> = Vec::new();
        let mut s: usize = 0;
        while s < n
            invariant
                n == dfa.states@.len(),
                class@.len() == n,
                newclass@.len() == s,
                s <= n,
                reps@.len() <= s,
                forall|j: int| 0 <= j < s ==> #[trigger] newclass@[j] < reps@.len(),
                forall|j: int| 0 <= j < reps@.len() ==> #[trigger] reps@[j] < n,
                forall|c: int|
                    0 <= c < reps@.len() ==> ((#[trigger] reps@[c]) < s && newclass@[reps@[
                    c] as int] == c),
                forall|j: int|
                    0 <= j < s ==> state_sig_eq(
                        dfa.states@[j],
                        dfa.states@[reps@[#[trigger] newclass@[j] as int] as int],
                        class@,
                    ),
            decreases n - s,
        {
            let mut assigned = false;
            let mut cid: usize = 0;
            let mut rj: usize = 0;
            while rj < reps.len()
                invariant
                    n == dfa.states@.len(),
                    class@.len() == n,
                    s < n,
                    rj <= reps@.len(),
                    forall|j: int| 0 <= j < reps@.len() ==> #[trigger] reps@[j] < n,
                    assigned ==> cid < reps@.len(),
                    assigned ==> state_sig_eq(
                        dfa.states@[s as int],
                        dfa.states@[reps@[cid as int] as int],
                        class@,
                    ),
                decreases reps@.len() - rj,
            {
                let rep = reps[rj];
                let cls_match = class[rep] == class[s];
                if cls_match {
                    proof {
                        assert(dfa.runnable());
                    }
                    if same_signature(&dfa.states[s], &dfa.states[rep], &class, n) {
                        assigned = true;
                        cid = rj;
                        break ;
                    }
                }
                rj = rj + 1;
            }
            if assigned {
                newclass.push(cid);
            } else {
                let c2 = reps.len();
                reps.push(s);
                newclass.push(c2);
            }
            s = s + 1;
        }
        proof {
            assert forall|j: int| 0 <= j < n implies #[trigger] newclass@[j] < n by {
                assert(newclass@[j] < reps@.len());
                assert(reps@.len() <= n);
            }
            assert forall|u: int, v: int|
                0 <= u < n && 0 <= v < n && #[trigger] newclass@[u] == #[trigger] newclass@[v]
                    implies state_sig_eq(dfa.states@[u], dfa.states@[v], class@) by {
                let rr = reps@[newclass@[u] as int] as int;
                assert(state_sig_eq(dfa.states@[u], dfa.states@[rr], class@));
                assert(state_sig_eq(dfa.states@[v], dfa.states@[rr], class@));
                lemma_sig_eq_trans(dfa.states@[u], dfa.states@[v], dfa.states@[rr], class@);
            }
        }
        if ids_equal(&newclass, &class) {
            stable_found = true;
            proof {
                assert forall|u: int, v: int|
                    0 <= u < n && 0 <= v < n && #[trigger] class@[u] == #[trigger] class@[v]
                        implies state_sig_eq(dfa.states@[u], dfa.states@[v], class@) by {
                    assert(newclass@[u] == newclass@[v]);
                    let rr = reps@[newclass@[u] as int] as int;
                    assert(state_sig_eq(dfa.states@[u], dfa.states@[rr], class@));
                    assert(state_sig_eq(dfa.states@[v], dfa.states@[rr], class@));
                    lemma_sig_eq_trans(dfa.states@[u], dfa.states@[v], dfa.states@[rr], class@);
                }
            }
        } else {
            class = newclass;
        }
        round = round + 1;
    }
    if !stable_found {
        // refinement always settles within the state count; should it not,
        // the identity partition is a stable map that merges nothing
        let mut ident: Vec<usize> = Vec::new();
        let mut k3: usize = 0;
        while k3 < n
            invariant
                k3 <= n,
                ident@.len() == k3,
                forall|j: int| 0 <= j < k3 ==> #[trigger] ident@[j] == j,
            decreases n - k3,
        {
            ident.push(k3);
            k3 = k3 + 1;
        }
        class = ident;
        proof {
            assert forall|u: int, v: int|
                0 <= u < n && 0 <= v < n && #[trigger] class@[u] == #[trigger] class@[v]
                    implies state_sig_eq(dfa.states@[u], dfa.states@[v], class@) by {
                assert(u == v);
            }
        }
    }
    // here the class map is a stable refinement fixed point
    proof {
        assert(classes_stable(*dfa, class@));
    }
    // rebuild one state per class, numbering classes in order of first
    // appearance
    let mut reps: Vec<usize> = Vec::new();
    let mut newid: Vec<usize> = Vec::new();
    let mut k2: usize = 0;
    while k2 < n
        invariant
            k2 <= n,
            newid@.len() == k2,
            forall|j: int| 0 <= j < k2 ==> #[trigger] newid@[j] == n,
        decreases n - k2,
    {
        newid.push(n);
        k2 = k2 + 1;
    }
    let mut s: usize = 0;
    while s < n
        invariant
            n == dfa.states@.len(),
            class@.len() == n,
            newid@.len() == n,
            forall|j: int| 0 <= j < n ==> #[trigger] class@[j] < n,
            s <= n,
            reps@.len() <= s,
            forall|j: int| 0 <= j < reps@.len() ==> #[trigger] reps@[j] < n,
            forall|j: int| 0 <= j < n ==> #[trigger] newid@[j] <= n,
            forall|j: int| 0 <= j < n ==> (#[trigger] newid@[j] < n ==> newid@[j] < reps@.len()),
            forall|j: int| 0 <= j < s ==> #[trigger] newid@[class@[j] as int] < reps@.len(),
            forall|c: int|
                0 <= c < n ==> ((#[trigger] newid@[c]) < n ==> class@[reps@[newid@[
                c] as int] as int] == c),
        decreases n - s,
    {
        let c = class[s];
        if newid[c] == n {
            let idx = reps.len();
            reps.push(s);
            let e = &mut newid[c];
            *e = idx;
        }
        s = s + 1;
    }
    let nc = reps.len();
    proof {
        assert(newid@[class@[0] as int] < nc);
    }
    let mut out: Vec<DfaState> = Vec::new();
    let mut ci: usize = 0;
    while ci < nc
        invariant
            n == dfa.states@.len(),
            class@.len() == n,
            newid@.len() == n,
            nc == reps@.len(),
            forall|j: int| 0 <= j < n ==> #[trigger] class@[j] < n,
            forall|j: int| 0 <= j < n ==> #[trigger] newid@[class@[j] as int] < nc,
            forall|j: int| 0 <= j < nc ==> #[trigger] reps@[j] < n,
            ci <= nc,
            out@.len() == ci,
            forall|j: int|
                0 <= j < out@.len() ==> (#[trigger] out@[j]).accepting_rule == dfa.states@[reps@[
                j] as int].accepting_rule,
            forall|j: int|
                0 <= j < out@.len() ==> (#[trigger] out@[j]).transitions@.len() == dfa.states@[
                reps@[j] as int].transitions@.len(),
            forall|j: int, kk: int|
                0 <= j < out@.len() && 0 <= kk < (#[trigger] out@[j]).transitions@.len() ==> ((
                #[trigger] out@[j].transitions@[kk]).0 == dfa.states@[reps@[
                j] as int].transitions@[kk].0 && out@[j].transitions@[kk].1 == newid@[class@[
                    dfa.states@[reps@[j] as int].transitions@[kk].1 as int] as int]),
            forall|j: int, kk: int|
                0 <= j < out@.len() && 0 <= kk < (#[trigger] out@[j]).transitions@.len() ==> (
                #[trigger] out@[j].transitions@[kk]).1 < nc,
            forall|j: int, k1: int, k2: int|
                0 <= j < out@.len() && 0 <= k1 < k2 < (#[trigger] out@[j]).transitions@.len()
                    ==> (#[trigger] out@[j].transitions@[k1]).0 != (#[trigger] out@[
                j].transitions@[k2]).0,
        decreases nc - ci,
    {
        let rep = reps[ci];
        let src = &dfa.states[rep];
        let mut tr: Vec<(char, usize)> = Vec::new();
        let mut k: usize = 0;
        while k < src.transitions.len()
            invariant
                n == dfa.states@.len(),
                class@.len() == n,
                newid@.len() == n,
                nc == reps@.len(),
                rep < n,
                forall|j: int| 0 <= j < n ==> #[trigger] class@[j] < n,
                forall|j: int| 0 <= j < n ==> #[trigger] newid@[class@[j] as int] < nc,
                k <= src.transitions@.len(),
                tr@.len() == k,
                forall|j: int|
                    0 <= j < k ==> ((#[trigger] tr@[j]).0 == src.transitions@[j].0 && tr@[j].1
                        == newid@[class@[src.transitions@[j].1 as int] as int] && tr@[j].1 < nc),
            decreases src.transitions@.len() - k,
        {
            let (c, t) = src.transitions[k];
            proof {
                assert(dfa.states@[rep as int].transitions@[k as int].1 < n);
            }
            tr.push((c, newid[class[t]]));
            k = k + 1;
        }
        proof {
            assert forall|k1: int, k2: int| 0 <= k1 < k2 < tr@.len() implies (
            #[trigger] tr@[k1]).0 != (#[trigger] tr@[k2]).0 by {
                assert(dfa.states@[rep as int].transitions@[k1].0 != dfa.states@[
                rep as int].transitions@[k2].0);
            }
        }
        out.push(
            DfaState {
                nfa_states: copy_ids(&src.nfa_states),
                transitions: tr,
                accepting_rule: src.accepting_rule,
            },
        );
        ci = ci + 1;
    }
    let start2 = newid[class[dfa.start]];
    let result = Dfa { states: out, start: start2 };
    proof {
        let c0 = class@[dfa.start as int];
        let rep0 = reps@[newid@[c0 as int] as int];
        assert(class@[rep0 as int] == c0);
        assert(state_sig_eq(
            dfa.states@[dfa.start as int],
            dfa.states@[rep0 as int],
            class@,
        ));
        assert(result.states@[start2 as int].accepting_rule == dfa.states@[
        dfa.start as int].accepting_rule);
        assert forall|input: Seq<char>|
            #[trigger] dfa_run(result, result.start as int, input) == dfa_run(
                *dfa,
                dfa.start as int,
                input,
            ) by {
            lemma_min_run(
                *dfa,
                result,
                class@,
                newid@,
                reps@,
                dfa.start as int,
                input,
            );
        }
    }
    result
}

} // verus!