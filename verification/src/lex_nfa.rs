//! Thompson construction: the shared nondeterministic automaton.
//!
//! Each rule's syntax tree is compiled into a fragment — a sub-automaton
//! with exactly one start state and one accept state — inside one shared
//! automaton, and spliced in by an epsilon edge from the single global start
//! state. The fragment's accept state is then marked accepting and tagged
//! with the rule's index. States live in one dense array addressed by
//! integer id; the array is append-only, so ids are stable once assigned.
//!
//! A bracket expression becomes one edge per denoted codepoint; negation is
//! resolved against the known alphabet, which here is the 128 ASCII
//! codepoints. An unresolved macro reference reaching the builder is a
//! construction error, never silently dropped, as are the locale-dependent
//! class forms, which cannot be compiled without a locale.

use vstd::prelude::*;

use crate::lex_re_parser::BracketItem;
use crate::lex_re_parser::LexRe;
use crate::lex_re_parser::LexRule;
use crate::span::Span;

verus! {

broadcast use vstd::std_specs::vec::axiom_vec_index_decreases;

/// A state id: the index of the state in the automaton's dense array.
pub type StateId = usize;

/// An input symbol on an automaton edge.
#[derive(Debug, Clone, Copy, PartialEq, Eq, Structural)]
pub enum Symbol {
    /// An edge traversable without consuming input.
    Epsilon,
    /// An edge consuming exactly this character.
    Char(char),
}

/// One automaton state: its outgoing edges in insertion order, and, when it
/// terminates a rule's fragment, that rule's index.
#[derive(Debug)]
pub struct NfaState {
    pub transitions: Vec<(Symbol, StateId)>,
    pub is_accepting: bool,
    pub rule_index: Option<u32>,
}

/// The shared automaton of the rules section.
#[derive(Debug)]
pub struct Nfa {
    pub states: Vec<NfaState>,
    /// The single global start state. Meaningful once any state exists;
    /// `add_rule` creates it on first use.
    pub start: StateId,
}

/// A construction error: the tree held a node no automaton edge can stand
/// for. The span points at the offending node.
#[derive(Debug, Clone, Copy, PartialEq, Eq, Structural)]
pub enum BuildError {
    /// A macro reference was never resolved before reaching the builder;
    /// an upstream resolution bug, never a user-facing condition.
    UnresolvedReplacement(Span),
    /// A locale character class, equivalence class or collating element,
    /// which this builder does not compile.
    UnsupportedClass(Span),
}

/// Number of codepoints in the known alphabet: the ASCII range.
pub const ALPHABET_SIZE: u32 = 128;

impl NfaState {
    /// Every edge points inside an automaton of `n` states.
    pub open spec fn targets_lt(self, n: int) -> bool {
        forall|k: int| 0 <= k < self.transitions@.len() ==> (#[trigger] self.transitions@[k]).1 < n
    }

    /// A rule tag stands only on an accepting state.
    pub open spec fn tag_wf(self) -> bool {
        self.rule_index is Some ==> self.is_accepting
    }
}

/// The builder can compile the tree: it holds no unresolved macro
/// reference and no locale-dependent class form, at any depth.
pub open spec fn re_compilable(re: LexRe) -> bool
    decreases re,
{
    match re {
        LexRe::CharacterClass { .. } => false,
        LexRe::EquivalenceClass { .. } => false,
        LexRe::CollatingElement { .. } => false,
        LexRe::Replacement { .. } => false,
        LexRe::BracketExpr { .. } => true,
        LexRe::LiteralChar { .. } => true,
        LexRe::Concat { exprs, .. } => forall|i: int|
            0 <= i < exprs.len() ==> re_compilable(#[trigger] exprs[i]),
        LexRe::Alternation { exprs, .. } => forall|i: int|
            0 <= i < exprs.len() ==> re_compilable(#[trigger] exprs[i]),
        LexRe::Repetition { expr, .. } => re_compilable(*expr),
    }
}

/// Whether the tree can be compiled; on refusal, the error names the first
/// offending node.
#[verifier::loop_isolation(false)]
fn check_compilable(re: &LexRe) -> (r: Result<(), BuildError>)
    ensures
        r is Ok <==> re_compilable(*re),
    decreases *re,
{
    match re {
        LexRe::Replacement { span, .. } => Err(BuildError::UnresolvedReplacement(*span)),
        LexRe::CharacterClass { span, .. } => Err(BuildError::UnsupportedClass(*span)),
        LexRe::EquivalenceClass { span, .. } => Err(BuildError::UnsupportedClass(*span)),
        LexRe::CollatingElement { span, .. } => Err(BuildError::UnsupportedClass(*span)),
        LexRe::LiteralChar { .. } => Ok(()),
        LexRe::BracketExpr { .. } => Ok(()),
        LexRe::Repetition { expr, .. } => check_compilable(&**expr),
        LexRe::Concat { exprs, .. } | LexRe::Alternation { exprs, .. } => {
            let mut i: usize = 0;
            while i < exprs.len()
                invariant
                    i <= exprs@.len(),
                    forall|j: int| 0 <= j < i ==> re_compilable(#[trigger] exprs@[j]),
                decreases exprs@.len() - i,
            {
                match check_compilable(&exprs[i]) {
                    Ok(()) => {},
                    Err(e) => return Err(e),
                }
                i = i + 1;
            }
            Ok(())
        },
    }
}

impl Nfa {
    /// Every state's edges stay inside the array, the start state exists
    /// once any state does, and exactly the accepting states carry a rule
    /// index.
    pub open spec fn wf(self) -> bool {
        &&& (forall|i: int|
            0 <= i < self.states@.len() ==> (#[trigger] self.states@[i]).targets_lt(
                self.states@.len() as int,
            ))
        &&& (forall|i: int| 0 <= i < self.states@.len() ==> (#[trigger] self.states@[i]).tag_wf())
        &&& (self.states@.len() > 0 ==> self.start < self.states@.len())
        &&& (self.states@.len() == 0 ==> self.start == 0)
    }

    /// States from `m` on are plain fragment states: not accepting, untagged.
    pub open spec fn fresh_plain(self, m: int) -> bool {
        forall|i: int|
            m <= i < self.states@.len() ==> !(#[trigger] self.states@[i]).is_accepting && self.states@[i].rule_index is None
    }

    /// The states below `m` keep their accepting flag and tag (their edge
    /// lists may grow).
    pub open spec fn tags_preserved(self, old_nfa: Nfa, m: int) -> bool {
        forall|i: int|
            0 <= i < m <= old_nfa.states@.len() ==> (#[trigger] self.states@[i]).is_accepting
                == old_nfa.states@[i].is_accepting && self.states@[i].rule_index
                == old_nfa.states@[i].rule_index
    }

    pub fn new() -> (nfa: Nfa)
        ensures
            nfa.wf(),
            nfa.states@.len() == 0,
            nfa.start == 0,
    {
        Nfa { states: Vec::new(), start: 0 }
    }

    /// Append one state and return its id.
    pub fn add_state(&mut self, is_accepting: bool) -> (sid: StateId)
        requires
            old(self).wf(),
        ensures
            final(self).wf(),
            sid == old(self).states@.len(),
            final(self).states@.len() == old(self).states@.len() + 1,
            final(self).start == old(self).start,
            forall|i: int|
                0 <= i < old(self).states@.len() ==> final(self).states@[i] == old(
                    self,
                ).states@[i],
            final(self).states@[sid as int].transitions@.len() == 0,
            final(self).states@[sid as int].is_accepting == is_accepting,
            final(self).states@[sid as int].rule_index is None,
    {
        let sid = self.states.len();
        self.states.push(NfaState { transitions: Vec::new(), is_accepting, rule_index: None });
        proof {
            let n = self.states@.len() as int;
            assert forall|i: int| 0 <= i < n implies (#[trigger] self.states@[i]).targets_lt(n) by {
                if i < n - 1 {
                    assert(old(self).states@[i].targets_lt(n - 1));
                }
            }
        }
        sid
    }

    /// Append one edge `from --sym--> to`.
    pub fn add_transition(&mut self, from: StateId, sym: Symbol, to: StateId)
        requires
            old(self).wf(),
            from < old(self).states@.len(),
            to < old(self).states@.len(),
        ensures
            final(self).wf(),
            final(self).states@.len() == old(self).states@.len(),
            final(self).start == old(self).start,
            forall|i: int|
                0 <= i < old(self).states@.len() && i != from ==> final(self).states@[i] == old(
                    self,
                ).states@[i],
            final(self).states@[from as int].transitions@ == old(
                self,
            ).states@[from as int].transitions@.push((sym, to)),
            forall|i: int|
                0 <= i < old(self).states@.len() ==> ((#[trigger] final(self).states@[i]).is_accepting
                    == old(self).states@[i].is_accepting && final(self).states@[i].rule_index
                    == old(self).states@[i].rule_index),
    {
        let ghost n = self.states@.len() as int;
        let st = &mut self.states[from];
        st.transitions.push((sym, to));
        proof {
            assert(self.states@[from as int].targets_lt(n));
        }
    }

    /// Mark `sid` as the accept state of rule `index`.
    fn mark_accepting(&mut self, sid: StateId, index: u32)
        requires
            old(self).wf(),
            sid < old(self).states@.len(),
        ensures
            final(self).wf(),
            final(self).states@.len() == old(self).states@.len(),
            final(self).start == old(self).start,
            forall|i: int|
                0 <= i < old(self).states@.len() && i != sid ==> final(self).states@[i] == old(
                    self,
                ).states@[i],
            final(self).states@[sid as int].is_accepting,
            final(self).states@[sid as int].rule_index == Some(index),
            final(self).states@[sid as int].transitions == old(
                self,
            ).states@[sid as int].transitions,
    {
        let st = &mut self.states[sid];
        st.is_accepting = true;
        st.rule_index = Some(index);
    }

    /// Add one labeled edge `s --c--> a`: afterwards the state carries
    /// exactly its old edges plus that one.
    fn add_char_edge(&mut self, s: StateId, c: char, a: StateId)
        requires
            old(self).wf(),
            s < old(self).states@.len(),
            a < old(self).states@.len(),
        ensures
            final(self).wf(),
            final(self).states@.len() == old(self).states@.len(),
            final(self).start == old(self).start,
            forall|i: int|
                0 <= i < old(self).states@.len() && i != s ==> final(self).states@[i] == old(
                    self,
                ).states@[i],
            forall|i: int|
                0 <= i < old(self).states@.len() ==> ((#[trigger] final(self).states@[i]).is_accepting
                    == old(self).states@[i].is_accepting && final(self).states@[i].rule_index
                    == old(self).states@[i].rule_index),
            final(self).states@[s as int].transitions@.len() == old(self).states@[s as int].transitions@.len() + 1,
            forall|k: int|
                0 <= k < old(self).states@[s as int].transitions@.len() ==> #[trigger] final(self).states@[s as int].transitions@[k] == old(self).states@[s as int].transitions@[k],
            final(self).states@[s as int].transitions@[old(self).states@[s as int].transitions@.len() as int] == (Symbol::Char(c), a),
            forall|cc: char, t: StateId|
                #[trigger] char_edge(final(self).states@[s as int].transitions@, cc, t) <==> (
                char_edge(old(self).states@[s as int].transitions@, cc, t) || (cc == c && t == a)),
    {
        let ghost tpre = self.states@[s as int].transitions@;
        self.add_transition(s, Symbol::Char(c), a);
        proof {
            lemma_char_edge_push(tpre, c, a);
            assert(self.states@[s as int].transitions@ == tpre.push((Symbol::Char(c), a)));
            assert(tpre.push((Symbol::Char(c), a)).len() == tpre.len() + 1);
            assert forall|k: int| 0 <= k < tpre.len() implies #[trigger] self.states@[
            s as int].transitions@[k] == tpre[k] by {
                vstd::seq::axiom_seq_push_index_different(tpre, (Symbol::Char(c), a), k);
            }
            assert(tpre.push((Symbol::Char(c), a))[tpre.len() as int] == (Symbol::Char(c), a));
        }
    }

    /// Compile one rule into the shared automaton: validate the tree, build
    /// its fragment, splice an epsilon edge from the global start into the
    /// fragment's start, and tag the fragment's accept state with the
    /// rule's index. Returns the fragment's `(start, accept)` pair.
    /// Succeeds exactly when the tree is compilable; on failure nothing
    /// changes. Construction is append-only: every pre-existing state is
    /// untouched but the global start, which gains exactly the one new
    /// epsilon edge.
    pub fn add_rule(&mut self, rule: &LexRule) -> (r: Result<(StateId, StateId), BuildError>)
        requires
            old(self).wf(),
            crate::lex_re_parser::re_wf(rule.re),
        ensures
            final(self).wf(),
            final(self).start == old(self).start,
            r is Ok <==> re_compilable(rule.re),
            r is Err ==> *final(self) == *old(self),
            match r {
                Ok((s, a)) => {
                    &&& s < final(self).states@.len()
                    &&& a < final(self).states@.len()
                    &&& s != a
                    &&& old(self).states@.len() <= s
                    &&& old(self).states@.len() <= a
                    &&& final(self).states@[a as int].is_accepting
                    &&& final(self).states@[a as int].rule_index == Some(rule.index)
                    &&& final(self).states@.len() > old(self).states@.len()
                    &&& final(self).tags_preserved(*old(self), old(self).states@.len() as int)
                    &&& (forall|i: int|
                        0 <= i < old(self).states@.len() && i != old(self).start ==> final(self).states@[i] == old(self).states@[i])
                    &&& (old(self).states@.len() > 0 ==> (final(self).states@[old(
                        self,
                    ).start as int].transitions@ == old(self).states@[old(
                        self,
                    ).start as int].transitions@.push((Symbol::Epsilon, s as StateId))
                        && final(self).states@[old(self).start as int].is_accepting == old(
                        self,
                    ).states@[old(self).start as int].is_accepting && final(self).states@[old(
                        self,
                    ).start as int].rule_index == old(self).states@[old(
                        self,
                    ).start as int].rule_index))
                    &&& (old(self).states@.len() == 0 ==> final(self).states@[old(
                        self,
                    ).start as int].transitions@ == Seq::<(Symbol, StateId)>::empty().push(
                        (Symbol::Epsilon, s as StateId),
                    ))
                },
                Err(_) => true,
            },
    {
        match check_compilable(&rule.re) {
            Ok(()) => {},
            Err(e) => return Err(e),
        }
        let ghost m0 = self.states@.len() as int;
        if self.states.len() == 0 {
            let s0 = self.add_state(false);
            self.start = s0;
        }
        let ghost m1 = self.states@.len() as int;
        let (fs, fa) = match self.build_fragment(&rule.re) {
            Ok(v) => v,
            Err(e) => return Err(e),
        };
        let gs = self.start;
        self.add_transition(gs, Symbol::Epsilon, fs);
        self.mark_accepting(fa, rule.index);
        Ok((fs, fa))
    }

    /// Build the fragment of one tree node: a sub-automaton with exactly
    /// one start and one accept state, both freshly created here, neither
    /// marked accepting. Every pre-existing state is left entirely
    /// untouched, and a compilable tree always succeeds.
    #[verifier::loop_isolation(false)]
    #[verifier::rlimit(100)]
    pub fn build_fragment(&mut self, re: &LexRe) -> (r: Result<(StateId, StateId), BuildError>)
        requires
            old(self).wf(),
            crate::lex_re_parser::re_wf(*re),
        ensures
            final(self).wf(),
            final(self).states@.len() >= old(self).states@.len(),
            final(self).start == old(self).start,
            forall|i: int|
                0 <= i < old(self).states@.len() ==> final(self).states@[i] == old(
                    self,
                ).states@[i],
            final(self).tags_preserved(*old(self), old(self).states@.len() as int),
            final(self).fresh_plain(old(self).states@.len() as int),
            re_compilable(*re) ==> r is Ok,
            (*re) is Replacement ==> r is Err,
            (*re) is CharacterClass ==> r is Err,
            (*re) is EquivalenceClass ==> r is Err,
            (*re) is CollatingElement ==> r is Err,
            match r {
                Ok((s, a)) => {
                    &&& old(self).states@.len() <= s < final(self).states@.len()
                    &&& old(self).states@.len() <= a < final(self).states@.len()
                    &&& s != a
                    &&& ((*re) matches LexRe::LiteralChar { span: _, ch } ==> (final(self).states@[s as int].transitions@ == Seq::<(Symbol, StateId)>::empty().push(
                        (Symbol::Char(ch), a),
                    ) && final(self).states@[a as int].transitions@.len() == 0))
                    &&& ((*re) matches LexRe::BracketExpr { span: _, expr } ==> ((forall|k: int|
                        0 <= k < final(self).states@[s as int].transitions@.len() ==> ((
                        #[trigger] final(self).states@[s as int].transitions@[k]).1 == a && final(self).states@[s as int].transitions@[k].0 is Char)) && (forall|c: char|
                        #[trigger] char_edge(final(self).states@[s as int].transitions@, c, a)
                            <==> (if expr.negated {
                            (c as u32) < ALPHABET_SIZE && !spec_bracket_denotes(expr.items@, c)
                        } else {
                            spec_bracket_denotes(expr.items@, c)
                        })) && final(self).states@[a as int].transitions@.len() == 0))
                },
                Err(_) => true,
            },
        decreases *re,
    {
        let ghost m = self.states@.len() as int;
        match re {
            LexRe::LiteralChar { span: _, ch } => {
                let s = self.add_state(false);
                let a = self.add_state(false);
                self.add_transition(s, Symbol::Char(*ch), a);
                proof {
                    assert(self.states@[s as int].transitions@ =~= Seq::<
                        (Symbol, StateId),
                    >::empty().push((Symbol::Char(*ch), a)));
                }
                Ok((s, a))
            },
            LexRe::BracketExpr { span: _, expr } => {
                let s = self.add_state(false);
                let a = self.add_state(false);
                if expr.negated {
                    let mut cp: u32 = 0;
                    while cp < ALPHABET_SIZE
                        invariant
                            forall|ii: int|
                                0 <= ii < old(self).states@.len() ==> self.states@[ii] == old(self).states@[ii],
                            self.wf(),
                            self.states@.len() == old(self).states@.len() + 2,
                            s < self.states@.len(),
                            a < self.states@.len(),
                            self.start == old(self).start,
                            self.tags_preserved(*old(self), m),
                            self.fresh_plain(m),
                            cp <= ALPHABET_SIZE,
                            self.states@[a as int].transitions@.len() == 0,
                            forall|k: int|
                                0 <= k < self.states@[s as int].transitions@.len() ==> ((
                                #[trigger] self.states@[s as int].transitions@[k]).1 == a
                                    && self.states@[s as int].transitions@[k].0 is Char),
                            forall|c: char|
                                #[trigger] char_edge(self.states@[s as int].transitions@, c, a)
                                    <==> ((c as u32) < cp && !spec_bracket_denotes(
                                    expr.items@,
                                    c,
                                )),
                        decreases ALPHABET_SIZE - cp,
                    {
                        let c = (cp as u8) as char;
                        proof {
                            assert(c as u32 == cp);
                        }
                        let ghost tpre = self.states@[s as int].transitions@;
                        if !bracket_denotes(&expr.items, c) {
                            self.add_char_edge(s, c, a);
                        }
                        proof {
                            assert forall|cc: char|
                                #[trigger] char_edge(
                                    self.states@[s as int].transitions@,
                                    cc,
                                    a,
                                ) <==> ((cc as u32) < cp + 1 && !spec_bracket_denotes(
                                expr.items@,
                                cc,
                            )) by {
                                if cc as u32 == cp {
                                    crate::lex_dfa::lemma_char_u32_inj(cc, c);
                                }
                            }
                        }
                        cp = cp + 1;
                    }
                    proof {
                        assert forall|c: char|
                            #[trigger] char_edge(self.states@[s as int].transitions@, c, a)
                                <==> ((c as u32) < ALPHABET_SIZE && !spec_bracket_denotes(
                                expr.items@,
                                c,
                            )) by {}
                    }
                } else {
                    let mut it: usize = 0;
                    while it < expr.items.len()
                        invariant
                            forall|ii: int|
                                0 <= ii < old(self).states@.len() ==> self.states@[ii] == old(self).states@[ii],
                            self.wf(),
                            self.states@.len() == old(self).states@.len() + 2,
                            s < self.states@.len(),
                            a < self.states@.len(),
                            self.start == old(self).start,
                            self.tags_preserved(*old(self), m),
                            self.fresh_plain(m),
                            it <= expr.items@.len(),
                            self.states@[a as int].transitions@.len() == 0,
                            forall|k: int|
                                0 <= k < self.states@[s as int].transitions@.len() ==> ((
                                #[trigger] self.states@[s as int].transitions@[k]).1 == a
                                    && self.states@[s as int].transitions@[k].0 is Char),
                            forall|c: char|
                                #[trigger] char_edge(self.states@[s as int].transitions@, c, a)
                                    <==> (exists|j: int|
                                    0 <= j < it && item_covers(#[trigger] expr.items@[j], c)),
                        decreases expr.items@.len() - it,
                    {
                        match expr.items[it] {
                            BracketItem::Single(c) => {
                                let ghost tpre = self.states@[s as int].transitions@;
                                self.add_char_edge(s, c, a);
                                proof {
                                    let ghost tnew = self.states@[s as int].transitions@;
                                    assert forall|cc: char|
                                        #[trigger] char_edge(tnew, cc, a) implies (exists|j: int|
                                        0 <= j < it + 1 && item_covers(
                                            #[trigger] expr.items@[j],
                                            cc,
                                        )) by {
                                        if char_edge(tpre, cc, a) {
                                            let j = choose|j: int|
                                                0 <= j < it && item_covers(
                                                    #[trigger] expr.items@[j],
                                                    cc,
                                                );
                                            assert(item_covers(expr.items@[j], cc));
                                        } else {
                                            assert(cc == c);
                                            assert(item_covers(expr.items@[it as int], cc));
                                        }
                                    }
                                    assert forall|cc: char|
                                        (exists|j: int|
                                            0 <= j < it + 1 && item_covers(
                                                #[trigger] expr.items@[j],
                                                cc,
                                            )) implies #[trigger] char_edge(tnew, cc, a) by {
                                        let j = choose|j: int|
                                            0 <= j < it + 1 && item_covers(
                                                #[trigger] expr.items@[j],
                                                cc,
                                            );
                                        if j < it {
                                            assert(char_edge(tpre, cc, a));
                                        } else {
                                            assert(cc == c);
                                        }
                                    }
                                }
                            },
                            BracketItem::Range(lo, hi) => {
                                let mut cp = lo as u32;
                                let hi32 = hi as u32;
                                while cp <= hi32
                                    invariant
                                        forall|ii: int|
                                            0 <= ii < old(self).states@.len() ==> self.states@[ii]
                                                == old(self).states@[ii],
                                        self.wf(),
                                        self.states@.len() == old(self).states@.len() + 2,
                                        s < self.states@.len(),
                                        a < self.states@.len(),
                                        self.start == old(self).start,
                                        self.tags_preserved(*old(self), m),
                                        self.fresh_plain(m),
                                        lo as u32 <= cp,
                                        cp == lo as u32 || cp <= hi32 + 1,
                                        cp <= 0x110000,
                                        self.states@[a as int].transitions@.len() == 0,
                                        forall|k: int|
                                            0 <= k < self.states@[s as int].transitions@.len()
                                                ==> ((#[trigger] self.states@[
                                            s as int].transitions@[k]).1 == a && self.states@[
                                            s as int].transitions@[k].0 is Char),
                                        forall|c: char|
                                            #[trigger] char_edge(
                                                self.states@[s as int].transitions@,
                                                c,
                                                a,
                                            ) <==> ((exists|j: int|
                                                0 <= j < it && item_covers(
                                                    #[trigger] expr.items@[j],
                                                    c,
                                                )) || ((lo as u32) <= c as u32 && (c as u32)
                                                < cp)),
                                    decreases hi32 + 1 - cp,
                                {
                                    let ghost tpre = self.states@[s as int].transitions@;
                                    match char_from_u32(cp) {
                                        Some(c) => {
                                            self.add_char_edge(s, c, a);
                                            proof {
                                                let ghost tnew = self.states@[
                                                s as int].transitions@;
                                                assert forall|cc: char|
                                                    #[trigger] char_edge(tnew, cc, a) implies ((
                                                    exists|j: int|
                                                        0 <= j < it && item_covers(
                                                            #[trigger] expr.items@[j],
                                                            cc,
                                                        )) || ((lo as u32) <= cc as u32 && (
                                                    cc as u32) < cp + 1)) by {
                                                    if !char_edge(tpre, cc, a) {
                                                        assert(cc == c);
                                                    }
                                                }
                                                assert forall|cc: char|
                                                    ((exists|j: int|
                                                        0 <= j < it && item_covers(
                                                            #[trigger] expr.items@[j],
                                                            cc,
                                                        )) || ((lo as u32) <= cc as u32 && (
                                                    cc as u32) < cp + 1)) implies #[trigger] char_edge(
                                                    tnew,
                                                    cc,
                                                    a,
                                                ) by {
                                                    if (lo as u32) <= cc as u32 && (cc as u32)
                                                        == cp {
                                                        crate::lex_dfa::lemma_char_u32_inj(cc, c);
                                                        assert(cc == c);
                                                    } else if (lo as u32) <= cc as u32 && (
                                                    cc as u32) < cp {
                                                        assert(char_edge(tpre, cc, a));
                                                    } else {
                                                        let j = choose|j: int|
                                                            0 <= j < it && item_covers(
                                                                #[trigger] expr.items@[j],
                                                                cc,
                                                            );
                                                        assert(item_covers(expr.items@[j], cc));
                                                        assert(char_edge(tpre, cc, a));
                                                    }
                                                }
                                            }
                                        },
                                        None => {
                                            proof {
                                                assert forall|cc: char|
                                                    #[trigger] char_edge(
                                                        self.states@[s as int].transitions@,
                                                        cc,
                                                        a,
                                                    ) <==> ((exists|j: int|
                                                        0 <= j < it && item_covers(
                                                            #[trigger] expr.items@[j],
                                                            cc,
                                                        )) || ((lo as u32) <= cc as u32 && (
                                                    cc as u32) < cp + 1)) by {
                                                    if cc as u32 == cp {
                                                        lemma_no_surrogate_char(cc);
                                                    }
                                                }
                                            }
                                        },
                                    }
                                    cp = cp + 1;
                                }
                                proof {
                                    let ghost tnew = self.states@[s as int].transitions@;
                                    assert forall|cc: char|
                                        #[trigger] char_edge(tnew, cc, a) implies (exists|j: int|
                                        0 <= j < it + 1 && item_covers(
                                            #[trigger] expr.items@[j],
                                            cc,
                                        )) by {
                                        if exists|j: int|
                                            0 <= j < it && item_covers(
                                                #[trigger] expr.items@[j],
                                                cc,
                                            ) {
                                            let j = choose|j: int|
                                                0 <= j < it && item_covers(
                                                    #[trigger] expr.items@[j],
                                                    cc,
                                                );
                                            assert(item_covers(expr.items@[j], cc));
                                        } else {
                                            assert(item_covers(expr.items@[it as int], cc));
                                        }
                                    }
                                    assert forall|cc: char|
                                        (exists|j: int|
                                            0 <= j < it + 1 && item_covers(
                                                #[trigger] expr.items@[j],
                                                cc,
                                            )) implies #[trigger] char_edge(tnew, cc, a) by {
                                        let j = choose|j: int|
                                            0 <= j < it + 1 && item_covers(
                                                #[trigger] expr.items@[j],
                                                cc,
                                            );
                                        if j == it {
                                            assert((lo as u32) <= cc as u32 && cc as u32
                                                <= hi as u32);
                                        }
                                    }
                                }
                            },
                        }
                        it = it + 1;
                    }
                    proof {
                        assert(forall|c: char|
                            #[trigger] char_edge(self.states@[s as int].transitions@, c, a)
                                <==> spec_bracket_denotes(expr.items@, c));
                    }
                }
                proof {
                    assert(forall|k: int|
                        0 <= k < self.states@[s as int].transitions@.len() ==> ((
                        #[trigger] self.states@[s as int].transitions@[k]).1 == a && self.states@[
                        s as int].transitions@[k].0 is Char));
                    assert(self.states@[a as int].transitions@.len() == 0);
                }
                Ok((s, a))
            },
            LexRe::Concat { span: _, exprs } => {
                let s = self.add_state(false);
                let a = self.add_state(false);
                let mut prev = s;
                let mut i: usize = 0;
                while i < exprs.len()
                    invariant
                        forall|ii: int|
                            0 <= ii < old(self).states@.len() ==> self.states@[ii] == old(
                                self,
                            ).states@[ii],
                        self.wf(),
                        self.states@.len() >= old(self).states@.len() + 2,
                        s < self.states@.len(),
                        a < self.states@.len(),
                        old(self).states@.len() <= prev,
                        prev < self.states@.len(),
                        self.start == old(self).start,
                        self.tags_preserved(*old(self), m),
                        self.fresh_plain(m),
                        i <= exprs@.len(),
                    decreases exprs@.len() - i,
                {
                    let (es, ea) = match self.build_fragment(&exprs[i]) {
                        Ok(v) => v,
                        Err(e) => return Err(e),
                    };
                    self.add_transition(prev, Symbol::Epsilon, es);
                    prev = ea;
                    i = i + 1;
                }
                self.add_transition(prev, Symbol::Epsilon, a);
                Ok((s, a))
            },
            LexRe::Alternation { span: _, exprs } => {
                let s = self.add_state(false);
                let a = self.add_state(false);
                let mut i: usize = 0;
                while i < exprs.len()
                    invariant
                        forall|ii: int|
                            0 <= ii < old(self).states@.len() ==> self.states@[ii] == old(
                                self,
                            ).states@[ii],
                        self.wf(),
                        self.states@.len() >= old(self).states@.len() + 2,
                        s < self.states@.len(),
                        a < self.states@.len(),
                        self.start == old(self).start,
                        self.tags_preserved(*old(self), m),
                        self.fresh_plain(m),
                        i <= exprs@.len(),
                    decreases exprs@.len() - i,
                {
                    let (es, ea) = match self.build_fragment(&exprs[i]) {
                        Ok(v) => v,
                        Err(e) => return Err(e),
                    };
                    self.add_transition(s, Symbol::Epsilon, es);
                    self.add_transition(ea, Symbol::Epsilon, a);
                    i = i + 1;
                }
                Ok((s, a))
            },
            LexRe::Repetition { span: _, expr, rep } => {
                let s = self.add_state(false);
                let a = self.add_state(false);
                let mut prev = s;
                // the mandatory copies
                let mut i: u32 = 0;
                while i < rep.min
                    invariant
                        forall|ii: int|
                            0 <= ii < old(self).states@.len() ==> self.states@[ii] == old(
                                self,
                            ).states@[ii],
                        self.wf(),
                        self.states@.len() >= old(self).states@.len() + 2,
                        s < self.states@.len(),
                        a < self.states@.len(),
                        old(self).states@.len() <= prev,
                        prev < self.states@.len(),
                        self.start == old(self).start,
                        self.tags_preserved(*old(self), m),
                        self.fresh_plain(m),
                        i <= rep.min,
                    decreases rep.min - i,
                {
                    let (es, ea) = match self.build_fragment(&**expr) {
                        Ok(v) => v,
                        Err(e) => return Err(e),
                    };
                    self.add_transition(prev, Symbol::Epsilon, es);
                    prev = ea;
                    i = i + 1;
                }
                match rep.max {
                    Some(mx) => {
                        // optional copies, each with an epsilon bypass
                        let extra = mx - rep.min;
                        let mut j: u32 = 0;
                        while j < extra
                            invariant
                                forall|ii: int|
                                    0 <= ii < old(self).states@.len() ==> self.states@[ii] == old(
                                        self,
                                    ).states@[ii],
                                self.wf(),
                                self.states@.len() >= old(self).states@.len() + 2,
                                s < self.states@.len(),
                                a < self.states@.len(),
                                old(self).states@.len() <= prev,
                                prev < self.states@.len(),
                                self.start == old(self).start,
                                self.tags_preserved(*old(self), m),
                                self.fresh_plain(m),
                                j <= extra,
                            decreases extra - j,
                        {
                            let (es, ea) = match self.build_fragment(&**expr) {
                                Ok(v) => v,
                                Err(e) => return Err(e),
                            };
                            self.add_transition(prev, Symbol::Epsilon, es);
                            self.add_transition(es, Symbol::Epsilon, ea);
                            prev = ea;
                            j = j + 1;
                        }
                    },
                    None => {
                        // one looping copy: a back edge for more iterations
                        // and a bypass for zero
                        let (es, ea) = match self.build_fragment(&**expr) {
                            Ok(v) => v,
                            Err(e) => return Err(e),
                        };
                        self.add_transition(prev, Symbol::Epsilon, es);
                        self.add_transition(ea, Symbol::Epsilon, es);
                        self.add_transition(es, Symbol::Epsilon, ea);
                        prev = ea;
                    },
                }
                self.add_transition(prev, Symbol::Epsilon, a);
                Ok((s, a))
            },
            LexRe::Replacement { span, name: _ } => Err(BuildError::UnresolvedReplacement(*span)),
            LexRe::CharacterClass { span, chars: _ } => Err(BuildError::UnsupportedClass(*span)),
            LexRe::EquivalenceClass { span, chars: _ } => Err(BuildError::UnsupportedClass(*span)),
            LexRe::CollatingElement { span, name: _ } => Err(BuildError::UnsupportedClass(*span)),
        }
    }
}

/// Whether one bracket item covers `c`.
pub open spec fn item_covers(item: BracketItem, c: char) -> bool {
    match item {
        BracketItem::Single(x) => x == c,
        BracketItem::Range(lo, hi) => lo as u32 <= c as u32 && c as u32 <= hi as u32,
    }
}

/// Whether a bracket expression's item list covers `c`, before negation.
pub open spec fn spec_bracket_denotes(items: Seq<BracketItem>, c: char) -> bool {
    exists|k: int| 0 <= k < items.len() && item_covers(#[trigger] items[k], c)
}

/// The state carries an edge consuming `c` into `t`.
pub open spec fn char_edge(tr: Seq<(Symbol, StateId)>, c: char, t: StateId) -> bool {
    exists|k: int| 0 <= k < tr.len() && #[trigger] tr[k] == (Symbol::Char(c), t)
}

/// A character's codepoint is never a surrogate.
proof fn lemma_no_surrogate_char(c: char)
    ensures
        (c as u32) < 0xD800 || (c as u32) >= 0xE000,
{
}

/// Appending one labeled edge adds exactly that edge.
proof fn lemma_char_edge_push(tr: Seq<(Symbol, StateId)>, x: char, t0: StateId)
    ensures
        forall|c: char, t: StateId|
            char_edge(tr.push((Symbol::Char(x), t0)), c, t) <==> (char_edge(tr, c, t) || (c == x
                && t == t0)),
{
    assert forall|c: char, t: StateId|
        char_edge(tr.push((Symbol::Char(x), t0)), c, t) implies (char_edge(tr, c, t) || (c == x
            && t == t0)) by {
        let k = choose|k: int|
            0 <= k < tr.push((Symbol::Char(x), t0)).len() && #[trigger] tr.push(
                (Symbol::Char(x), t0),
            )[k] == (Symbol::Char(c), t);
        if k < tr.len() {
            assert(tr[k] == (Symbol::Char(c), t));
        }
    }
    assert forall|c: char, t: StateId|
        (char_edge(tr, c, t) || (c == x && t == t0)) implies char_edge(
            tr.push((Symbol::Char(x), t0)),
            c,
            t,
        ) by {
        if c == x && t == t0 {
            assert(tr.push((Symbol::Char(x), t0))[tr.len() as int] == (Symbol::Char(c), t));
        } else if char_edge(tr, c, t) {
            let k = choose|k: int| 0 <= k < tr.len() && #[trigger] tr[k] == (Symbol::Char(c), t);
            assert(tr.push((Symbol::Char(x), t0))[k] == (Symbol::Char(c), t));
        }
    }
}

/// Whether the item list covers `c`, before negation is applied.
#[verifier::loop_isolation(false)]
pub fn bracket_denotes(items: &Vec<BracketItem>, c: char) -> (r: bool)
    ensures
        r == spec_bracket_denotes(items@, c),
{
    let mut k: usize = 0;
    while k < items.len()
        invariant
            k <= items@.len(),
            !(exists|j: int|
                0 <= j < k && match #[trigger] items@[j] {
                    BracketItem::Single(x) => x == c,
                    BracketItem::Range(lo, hi) => lo as u32 <= c as u32 && c as u32 <= hi as u32,
                }),
        decreases items@.len() - k,
    {
        let hit = match items[k] {
            BracketItem::Single(x) => x == c,
            BracketItem::Range(lo, hi) => lo as u32 <= c as u32 && c as u32 <= hi as u32,
        };
        if hit {
            return true;
        }
        k = k + 1;
    }
    false
}

/// The character of a codepoint, when one exists: surrogates have none.
fn char_from_u32(cp: u32) -> (r: Option<char>)
    ensures
        (r matches Some(c) ==> c as u32 == cp),
        (r is None ==> (0xD800 <= cp < 0xE000 || 0x110000 <= cp)),
{
    if cp < 0xD800 {
        Some(char_from_low(cp))
    } else if 0xE000 <= cp && cp < 0x110000 {
        Some(char_from_high(cp))
    } else {
        None
    }
}

/// Relies on std's `char::from_u32`: every codepoint below the surrogate
/// range has a character, whose codepoint is the argument.
#[verifier::external_body]
fn char_from_low(cp: u32) -> (c: char)
    requires
        cp < 0xD800,
    ensures
        c as u32 == cp,
{
    char::from_u32(cp).unwrap_or(' ')
}

/// Relies on std's `char::from_u32`: every codepoint above the surrogate
/// range and below the Unicode limit has a character, whose codepoint is
/// the argument.
#[verifier::external_body]
fn char_from_high(cp: u32) -> (c: char)
    requires
        0xE000 <= cp < 0x110000,
    ensures
        c as u32 == cp,
{
    char::from_u32(cp).unwrap_or(' ')
}

} // verus!
