//! The worklist behind the canonisation of an interaction term.
//!
//! Canonisation explores, in three successive phases, every term that the
//! rewriting rules of the phase reach from a starting term. Each term reached
//! becomes a node of a graph, numbered from 1 in the order of discovery; a
//! rule that leads to a term already met in the current phase leads back to
//! that term's node instead of a new one. A term to which no rule of the phase
//! applies is final for the phase, and the finals of one phase are where the
//! next phase starts.
//!
//! This module holds the decisions of that exploration: which node to visit
//! next, whether a rewritten term is new or known, which number it gets,
//! whether a visited node is final, and when a phase ends and the next
//! starts. Applying the rules and drawing the graph are left to the caller:
//! it asks `next_step` what to do, reports each rewriting of a visited term
//! with `record_result`, ends the visit with `finish_visit`, and draws what
//! the answers say. Terms are of any type `T` whose `==` is an equality.
//!
//! `lemma_phase_exploration` states what a whole phase achieves: the terms
//! known at its end are exactly those the rules reach from its starting
//! terms, each held by one node and visited once. `lemma_phase_ends` states
//! that a phase whose reached terms are finitely many ends, and
//! `lemma_canonisation_determined` that the whole canonisation is determined
//! by its starting term and its rules.
use vstd::laws_eq::obeys_concrete_eq;
use vstd::prelude::*;

verus! {

/// What the exploration asks for next.
#[derive(PartialEq, Eq, Structural, Clone, Copy, Debug)]
pub enum CanonStep {
    /// Visit this node: rewrite its term by the rules of the phase.
    Visit(u32),
    /// No node waits any more: this phase (1, 2 or 3) is over.
    EndOfPhase(u8),
    /// The three phases are over.
    Done,
}

/// Where the edge for a rewritten term leads.
#[derive(PartialEq, Eq, Structural, Clone, Copy, Debug)]
pub enum TransformationTarget {
    /// The term was already met in this phase, as the node with this number.
    Known(u32),
    /// The term is new: it became the node with this number and waits to be
    /// visited.
    New(u32),
}

/// The state of an exploration, as sequences and numbers.
pub struct WorklistModel<T> {
    /// The term of node `n` is `nodes[n - 1]`; nodes are never changed or
    /// removed once made.
    pub nodes: Seq<T>,
    /// The nodes whose terms are known in the current phase.
    pub known: Seq<u32>,
    /// The nodes waiting to be visited; the last one is visited first.
    pub queue: Seq<u32>,
    /// The nodes found final in the current phase, in the order found.
    pub finals: Seq<u32>,
    /// The node being visited, once taken from the queue and until it is
    /// found final or another node is taken.
    pub current: Option<u32>,
    /// The number the next new node gets.
    pub next_index: u32,
    /// The phase under way, from 1 to 3, or 4 once the three are over.
    pub phase: u8,
}

/// The nodes of a sequence are pairwise different.
pub open spec fn distinct_ids(s: Seq<u32>) -> bool {
    forall|i: int, j: int| 0 <= i < j < s.len() ==> s[i] != s[j]
}

/// Each term of `path` is a rewriting, by `rules`, of the one before.
pub open spec fn is_rewriting_path<T>(rules: spec_fn(T) -> Seq<T>, path: Seq<T>) -> bool {
    forall|i: int| 0 <= i < path.len() - 1 ==> #[trigger] rules(path[i]).contains(path[i + 1])
}

/// `t` is reached, by `rules`, from a term known in `start`.
pub open spec fn reachable<T>(start: WorklistModel<T>, rules: spec_fn(T) -> Seq<T>, t: T) -> bool {
    exists|path: Seq<T>|
        #![trigger is_rewriting_path(rules, path)]
        path.len() > 0 && start.id_of(path[0]) is Some && path.last() == t && is_rewriting_path(
            rules,
            path,
        )
}

/// What a run of the phase that started at `m`, the rules being `rules`,
/// has established by state `s`, `v` being the nodes visited so far: the
/// nodes visited are known, none twice, and are exactly the known nodes that
/// no longer wait; every rewriting of a visited node is known; every known
/// term is reached from the start; the starting nodes keep their terms; and
/// the finals are the visited nodes whose terms have no rewriting.
spec fn explored<T>(m: WorklistModel<T>, rules: spec_fn(T) -> Seq<T>, s: WorklistModel<T>, v: Seq<u32>) -> bool {
    &&& s.wf()
    &&& s.current is None
    &&& distinct_ids(v)
    &&& forall|k: u32| #[trigger] v.contains(k) ==> s.known.contains(k)
    &&& forall|k: u32| #[trigger] s.known.contains(k) ==> (s.queue.contains(k) <==> !v.contains(k))
    &&& forall|k: u32, j: int|
        #![trigger v.contains(k), rules(s.term_of(k))[j]]
        v.contains(k) && 0 <= j < rules(s.term_of(k)).len() ==> s.id_of(rules(s.term_of(k))[j]) is Some
    &&& forall|k: u32| #[trigger] s.known.contains(k) ==> reachable(m, rules, s.term_of(k))
    &&& forall|k: u32|
        #[trigger] m.known.contains(k) ==> s.known.contains(k) && s.term_of(k) == m.term_of(k)
    &&& forall|k: u32|
        #[trigger] s.finals.contains(k) <==> (v.contains(k) && rules(s.term_of(k)).len() == 0)
}


/// The rules of one phase, out of the rules of all three.
pub open spec fn phase_rules<T>(rules: spec_fn(u8, T) -> Seq<T>, phase: u8) -> spec_fn(T) -> Seq<T> {
    |t: T| rules(phase, t)
}

/// The state after the whole canonisation of `init`, each phase being run
/// for at most `fuel` visits, the rules of phase `p` being `rules(p, _)`.
pub open spec fn canonisation<T>(init: T, rules: spec_fn(u8, T) -> Seq<T>, fuel: nat) -> WorklistModel<T> {
    let s1 = WorklistModel::start(init).run(phase_rules(rules, 1), fuel);
    let s2 = WorklistModel { phase: 2, ..s1.next_phase() }.run(phase_rules(rules, 2), fuel);
    let s3 = WorklistModel { phase: 3, ..s2.next_phase() }.run(phase_rules(rules, 3), fuel);
    WorklistModel { phase: 4, current: None, ..s3 }
}

/// What the whole canonisation of `init` decides, phase by phase.
pub open spec fn canonisation_trace<T>(init: T, rules: spec_fn(u8, T) -> Seq<T>, fuel: nat) -> Seq<
    Seq<(u32, Seq<TransformationTarget>)>,
> {
    let s0 = WorklistModel::start(init);
    let s1 = s0.run(phase_rules(rules, 1), fuel);
    let t2 = WorklistModel { phase: 2, ..s1.next_phase() };
    let s2 = t2.run(phase_rules(rules, 2), fuel);
    let t3 = WorklistModel { phase: 3, ..s2.next_phase() };
    seq![
        s0.trace(phase_rules(rules, 1), fuel),
        t2.trace(phase_rules(rules, 2), fuel),
        t3.trace(phase_rules(rules, 3), fuel),
    ]
}

impl<T> WorklistModel<T> {
    /// A number that names a node.
    pub open spec fn is_node(self, id: u32) -> bool {
        1 <= id && id <= self.nodes.len()
    }

    /// The term of a node.
    pub open spec fn term_of(self, id: u32) -> T {
        self.nodes[id - 1]
    }

    /// The invariant of an exploration: numbering follows the nodes made; the
    /// queue, the finals and the node visited name known nodes, none twice;
    /// and no two known nodes hold the same term.
    pub open spec fn wf(self) -> bool {
        &&& self.nodes.len() + 1 == self.next_index
        &&& 1 <= self.phase <= 4
        &&& forall|i: int| 0 <= i < self.known.len() ==> self.is_node(#[trigger] self.known[i])
        &&& distinct_ids(self.known)
        &&& forall|i: int, j: int|
            0 <= i < j < self.known.len() ==> self.term_of(#[trigger] self.known[i]) != self.term_of(
                #[trigger] self.known[j],
            )
        &&& forall|i: int| 0 <= i < self.queue.len() ==> self.known.contains(#[trigger] self.queue[i])
        &&& forall|i: int| 0 <= i < self.finals.len() ==> self.known.contains(#[trigger] self.finals[i])
        &&& distinct_ids(self.queue + self.finals)
        &&& self.current matches Some(c) ==> {
            &&& self.known.contains(c)
            &&& !self.queue.contains(c)
            &&& !self.finals.contains(c)
        }
    }

    /// The node under which `t` is known in the current phase, if any.
    pub open spec fn id_of(self, t: T) -> Option<u32> {
        if exists|i: int| 0 <= i < self.known.len() && self.term_of(self.known[i]) == t {
            let i = choose|i: int| 0 <= i < self.known.len() && self.term_of(self.known[i]) == t;
            Some(self.known[i])
        } else {
            None
        }
    }

    /// The exploration of `init`, before any visit: `init` is node 1, known
    /// and waiting.
    pub open spec fn start(init: T) -> WorklistModel<T> {
        WorklistModel {
            nodes: seq![init],
            known: seq![1u32],
            queue: seq![1u32],
            finals: Seq::empty(),
            current: None,
            next_index: 2,
            phase: 1,
        }
    }

    /// The node taken next from the queue, if any waits.
    pub open spec fn popped(self) -> Option<u32> {
        if self.queue.len() > 0 {
            Some(self.queue.last())
        } else {
            None
        }
    }

    /// The state once the next node is taken from the queue: it becomes the
    /// node visited. With an empty queue nothing changes.
    pub open spec fn pop(self) -> WorklistModel<T> {
        if self.queue.len() > 0 {
            WorklistModel { queue: self.queue.drop_last(), current: Some(self.queue.last()), ..self }
        } else {
            self
        }
    }

    /// Where the edge for the rewritten term `t` leads.
    pub open spec fn target(self, t: T) -> TransformationTarget {
        match self.id_of(t) {
            Some(id) => TransformationTarget::Known(id),
            None => TransformationTarget::New(self.next_index),
        }
    }

    /// The state once the rewritten term `t` is recorded: a known term
    /// changes nothing; a new one becomes the next node, known and waiting.
    pub open spec fn record(self, t: T) -> WorklistModel<T> {
        match self.id_of(t) {
            Some(_) => self,
            None => WorklistModel {
                nodes: self.nodes.push(t),
                known: self.known.push(self.next_index),
                queue: self.queue.push(self.next_index),
                next_index: (self.next_index + 1) as u32,
                ..self
            },
        }
    }

    /// The state once the node visited is found final.
    pub open spec fn finalize(self) -> WorklistModel<T> {
        match self.current {
            Some(c) => WorklistModel { finals: self.finals.push(c), current: None, ..self },
            None => self,
        }
    }

    /// The state once the visit of the current node is over, `n` being the
    /// number of rewritings found for its term: with none, the node is final
    /// for the phase.
    pub open spec fn finish(self, n: nat) -> WorklistModel<T> {
        if n == 0 {
            self.finalize()
        } else {
            WorklistModel { current: None, ..self }
        }
    }

    /// What the exploration asks for next: the last waiting node, or the end
    /// of the phase once none waits, or nothing once the three phases are over.
    pub open spec fn step_outcome(self) -> CanonStep {
        if self.phase >= 4 {
            CanonStep::Done
        } else if self.queue.len() > 0 {
            CanonStep::Visit(self.queue.last())
        } else {
            CanonStep::EndOfPhase(self.phase)
        }
    }

    /// The state once the exploration has said what it asks for next: a
    /// waiting node is taken from the queue; at the end of phase 1 or 2 the
    /// next phase starts from the finals; after phase 3 the exploration ends.
    pub open spec fn step(self) -> WorklistModel<T> {
        if self.phase >= 4 {
            self
        } else if self.queue.len() > 0 {
            self.pop()
        } else if self.phase < 3 {
            WorklistModel { phase: (self.phase + 1) as u8, ..self.next_phase() }
        } else {
            WorklistModel { phase: 4, current: None, ..self }
        }
    }

    /// The state once each term of `s` is recorded, in order.
    pub open spec fn record_all(self, s: Seq<T>) -> WorklistModel<T>
        decreases s.len(),
    {
        if s.len() == 0 {
            self
        } else {
            self.record_all(s.drop_last()).record(s.last())
        }
    }

    /// Recording the terms of `s` in order never runs out of node numbers.
    pub open spec fn records_fit(self, s: Seq<T>) -> bool
        decreases s.len(),
    {
        s.len() == 0 || {
            &&& self.records_fit(s.drop_last())
            &&& self.record_all(s.drop_last()).id_of(s.last()) is None
                ==> self.record_all(s.drop_last()).next_index < u32::MAX
        }
    }

    /// The state after one visit, the rules of the phase being `rules`: the
    /// last waiting node is taken, every rewriting of its term is recorded in
    /// order, and the visit ends.
    pub open spec fn visit(self, rules: spec_fn(T) -> Seq<T>) -> WorklistModel<T> {
        let p = self.pop();
        let rs = rules(p.term_of(self.queue.last()));
        p.record_all(rs).finish(rs.len())
    }

    /// The visit of the last waiting node never runs out of node numbers.
    pub open spec fn visit_fits(self, rules: spec_fn(T) -> Seq<T>) -> bool {
        let p = self.pop();
        p.records_fit(rules(p.term_of(self.queue.last())))
    }

    /// The state after visits go on until no node waits, or `fuel` visits
    /// have been made.
    pub open spec fn run(self, rules: spec_fn(T) -> Seq<T>, fuel: nat) -> WorklistModel<T>
        decreases fuel,
    {
        if fuel == 0 || self.queue.len() == 0 {
            self
        } else {
            self.visit(rules).run(rules, (fuel - 1) as nat)
        }
    }

    /// No visit of the run runs out of node numbers.
    pub open spec fn run_fits(self, rules: spec_fn(T) -> Seq<T>, fuel: nat) -> bool
        decreases fuel,
    {
        fuel == 0 || self.queue.len() == 0 || {
            &&& self.visit_fits(rules)
            &&& self.visit(rules).run_fits(rules, (fuel - 1) as nat)
        }
    }

    /// The nodes visited by the run, in the order visited.
    pub open spec fn visited(self, rules: spec_fn(T) -> Seq<T>, fuel: nat) -> Seq<u32>
        decreases fuel,
    {
        if fuel == 0 || self.queue.len() == 0 {
            Seq::empty()
        } else {
            seq![self.queue.last()] + self.visit(rules).visited(rules, (fuel - 1) as nat)
        }
    }

    /// Where the edges for the terms of `s` lead, when they are recorded in
    /// order.
    pub open spec fn record_targets(self, s: Seq<T>) -> Seq<TransformationTarget>
        decreases s.len(),
    {
        if s.len() == 0 {
            Seq::empty()
        } else {
            self.record_targets(s.drop_last()).push(self.record_all(s.drop_last()).target(s.last()))
        }
    }

    /// What a run decides, visit by visit: the node visited and where the
    /// edge of each rewriting of its term leads.
    pub open spec fn trace(self, rules: spec_fn(T) -> Seq<T>, fuel: nat) -> Seq<
        (u32, Seq<TransformationTarget>),
    >
        decreases fuel,
    {
        if fuel == 0 || self.queue.len() == 0 {
            Seq::empty()
        } else {
            let id = self.queue.last();
            let p = self.pop();
            seq![(id, p.record_targets(rules(p.term_of(id))))] + self.visit(rules).trace(
                rules,
                (fuel - 1) as nat,
            )
        }
    }

    /// The state is where a phase starts: every known node waits, none is
    /// final yet, and none is being visited.
    pub open spec fn is_phase_start(self) -> bool {
        &&& self.known == self.queue
        &&& self.finals.len() == 0
        &&& self.current is None
    }

    /// The state at the start of the next phase: the finals of this phase
    /// are the only known nodes, and all of them wait to be visited.
    pub open spec fn next_phase(self) -> WorklistModel<T> {
        WorklistModel {
            known: self.finals,
            queue: self.finals,
            finals: Seq::empty(),
            current: None,
            ..self
        }
    }
}

/// In a well-formed state, a known node holding `t` is the node under which
/// `t` is known.
proof fn lemma_id_of_is_known_node<T>(m: WorklistModel<T>, t: T, k: u32)
    requires
        m.wf(),
        m.known.contains(k),
        m.term_of(k) == t,
    ensures
        m.id_of(t) == Some(k),
{
    let a = choose|a: int| 0 <= a < m.known.len() && m.known[a] == k;
    assert(m.term_of(m.known[a]) == t);
    let i = choose|i: int| 0 <= i < m.known.len() && m.term_of(m.known[i]) == t;
    if i < a {
        assert(m.term_of(m.known[i]) != m.term_of(m.known[a]));
    } else if a < i {
        assert(m.term_of(m.known[a]) != m.term_of(m.known[i]));
    }
}

/// A term known in a well-formed state is held by the node it is known under.
proof fn lemma_id_of_some<T>(m: WorklistModel<T>, t: T)
    requires
        m.wf(),
        m.id_of(t) is Some,
    ensures
        m.known.contains(m.id_of(t).unwrap()),
        m.term_of(m.id_of(t).unwrap()) == t,
{
}

/// Once recorded, a rewritten term is known under the node its edge leads
/// to, and that node holds it.
pub proof fn lemma_recorded_term_is_known<T>(m: WorklistModel<T>, t: T)
    requires
        m.wf(),
        m.id_of(t) is None ==> m.next_index < u32::MAX,
    ensures
        m.record(t).id_of(t) == Some(
            match m.target(t) {
                TransformationTarget::Known(id) => id,
                TransformationTarget::New(id) => id,
            },
        ),
{
    let r = m.record(t);
    match m.id_of(t) {
        Some(k) => {
            lemma_id_of_some(m, t);
        },
        None => {
            lemma_record_wf(m, t);
            assert(r.known[r.known.len() - 1] == m.next_index);
            assert(r.term_of(m.next_index) == t);
            lemma_id_of_is_known_node(r, t, m.next_index);
        },
    }
}

/// Recording keeps the invariant.
proof fn lemma_record_wf<T>(m: WorklistModel<T>, t: T)
    requires
        m.wf(),
        m.id_of(t) is None ==> m.next_index < u32::MAX,
    ensures
        m.record(t).wf(),
{
    if m.id_of(t) is None {
        let r = m.record(t);
        let id = m.next_index;
        assert forall|k: int| 0 <= k < m.known.len() implies #[trigger] m.known[k] != id by {
            assert(m.is_node(m.known[k]));
        }
        assert forall|x: u32| m.known.contains(x) implies r.known.contains(x) by {
            let a = choose|a: int| 0 <= a < m.known.len() && m.known[a] == x;
            assert(r.known[a] == x);
        }
        assert forall|i: int, j: int|
            0 <= i < j < r.known.len() implies r.term_of(#[trigger] r.known[i]) != r.term_of(
            #[trigger] r.known[j],
        ) by {
            assert(m.is_node(r.known[i]));
            if j < m.known.len() {
                assert(m.is_node(r.known[j]));
            } else {
                assert(r.term_of(r.known[j]) == t);
                if r.term_of(r.known[i]) == t {
                    assert(m.term_of(m.known[i]) == t);
                }
            }
        }
        assert forall|i: int| 0 <= i < r.queue.len() implies r.known.contains(#[trigger] r.queue[i]) by {
            if i == m.queue.len() {
                assert(r.known[m.known.len() as int] == id);
            } else {
                assert(m.known.contains(m.queue[i]));
            }
        }
        assert forall|i: int| 0 <= i < r.finals.len() implies r.known.contains(#[trigger] r.finals[i]) by {
            assert(m.known.contains(m.finals[i]));
        }
        assert forall|i: int, j: int|
            0 <= i < j < (r.queue + r.finals).len() implies (r.queue + r.finals)[i] != (r.queue
            + r.finals)[j] by {
            let pq = m.queue + m.finals;
            let q = r.queue + r.finals;
            let n = m.queue.len() as int;
            if i == n {
                assert(q[j] == pq[j - 1]);
                assert(m.known.contains(pq[j - 1]));
            } else if j == n {
                assert(q[i] == pq[i]);
                assert(m.known.contains(pq[i]));
            } else {
                let k = if i < n { i } else { i - 1 };
                let l = if j < n { j } else { j - 1 };
                assert(q[i] == pq[k]);
                assert(q[j] == pq[l]);
            }
        }
    }
}

/// Recording the same term twice: the second time it is known under the
/// node the first time gave, and nothing changes.
pub proof fn lemma_record_twice<T>(m: WorklistModel<T>, t: T)
    requires
        m.wf(),
        m.id_of(t) is None ==> m.next_index < u32::MAX,
    ensures
        m.record(t).record(t) == m.record(t),
        m.record(t).target(t) == TransformationTarget::Known(
            match m.target(t) {
                TransformationTarget::Known(id) => id,
                TransformationTarget::New(id) => id,
            },
        ),
{
    lemma_recorded_term_is_known(m, t);
}

/// Nodes are numbered in the order they are found: a new term gets the
/// number after every node made so far, and the nodes already made keep
/// their terms.
pub proof fn lemma_new_node_numbering<T>(m: WorklistModel<T>, t: T)
    requires
        m.wf(),
        m.id_of(t) is None ==> m.next_index < u32::MAX,
    ensures
        m.target(t) matches TransformationTarget::New(id) ==> {
            &&& id == m.nodes.len() + 1
            &&& forall|k: u32| m.is_node(k) ==> k < id
            &&& m.record(t).term_of(id) == t
        },
        m.record(t).nodes.subrange(0, m.nodes.len() as int) == m.nodes,
        m.record(t).next_index >= m.next_index,
{
    assert(m.record(t).nodes.subrange(0, m.nodes.len() as int) =~= m.nodes);
}

/// Recording a term changes under which node no other term is known.
pub proof fn lemma_record_keeps_other_terms<T>(m: WorklistModel<T>, t: T, u: T)
    requires
        m.wf(),
        m.id_of(t) is None ==> m.next_index < u32::MAX,
        u != t,
    ensures
        m.record(t).id_of(u) == m.id_of(u),
{
    let r = m.record(t);
    if m.id_of(t) is None {
        lemma_record_wf(m, t);
        if m.id_of(u) is Some {
            let k = m.id_of(u).unwrap();
            let a = choose|a: int| 0 <= a < m.known.len() && m.known[a] == k;
            assert(m.is_node(m.known[a]));
            assert(r.known[a] == k);
            assert(r.term_of(k) == u);
            lemma_id_of_is_known_node(r, u, k);
        } else if r.id_of(u) is Some {
            let k = r.id_of(u).unwrap();
            let a = choose|a: int| 0 <= a < r.known.len() && r.term_of(r.known[a]) == u;
            if a < m.known.len() {
                assert(m.is_node(m.known[a]));
                assert(m.term_of(m.known[a]) == u);
            } else {
                assert(r.term_of(r.known[a]) == t);
            }
        }
    }
}

/// Each final node of a phase starts the next one known under its own
/// number, and waiting to be visited.
pub proof fn lemma_finals_start_next_phase<T>(m: WorklistModel<T>, f: u32)
    requires
        m.wf(),
        m.finals.contains(f),
    ensures
        m.next_phase().id_of(m.term_of(f)) == Some(f),
        m.next_phase().queue.contains(f),
        m.next_phase().finals.len() == 0,
{
    let n = m.next_phase();
    lemma_next_phase_wf(m);
    lemma_id_of_is_known_node(n, m.term_of(f), f);
}

/// Taking a node from the queue keeps the invariant.
proof fn lemma_pop_wf<T>(pre: WorklistModel<T>)
    requires
        pre.wf(),
    ensures
        pre.pop().wf(),
{
    if pre.queue.len() > 0 {
        let id = pre.queue.last();
        let post = pre.pop();
        assert(pre.queue =~= post.queue.push(id));
        assert forall|i: int, j: int|
            0 <= i < j < (post.queue + post.finals).len() implies (post.queue + post.finals)[i]
            != (post.queue + post.finals)[j] by {
            let k = if i < post.queue.len() { i } else { i + 1 };
            let l = if j < post.queue.len() { j } else { j + 1 };
            assert((post.queue + post.finals)[i] == (pre.queue + pre.finals)[k]);
            assert((post.queue + post.finals)[j] == (pre.queue + pre.finals)[l]);
        }
        assert forall|x: u32| post.finals.contains(x) implies x != id by {
            let m = choose|m: int| 0 <= m < post.finals.len() && post.finals[m] == x;
            assert((pre.queue + pre.finals)[pre.queue.len() - 1] == id);
            assert((pre.queue + pre.finals)[pre.queue.len() + m] == x);
        }
        assert forall|m: int| 0 <= m < post.queue.len() implies post.queue[m] != id by {
            assert((pre.queue + pre.finals)[pre.queue.len() - 1] == id);
            assert((pre.queue + pre.finals)[m] == post.queue[m]);
        }
        assert(pre.known.contains(id)) by {
            assert(pre.queue[pre.queue.len() - 1] == id);
        }
    }
}

/// Marking the visited node final keeps the invariant.
proof fn lemma_finalize_wf<T>(pre: WorklistModel<T>)
    requires
        pre.wf(),
    ensures
        pre.finalize().wf(),
{
    if let Some(c) = pre.current {
        let post = pre.finalize();
        assert(post.queue + post.finals =~= (pre.queue + pre.finals).push(c));
        assert forall|x: u32| (pre.queue + pre.finals).contains(x) implies x != c by {
            let m = choose|m: int|
                0 <= m < (pre.queue + pre.finals).len() && (pre.queue + pre.finals)[m] == x;
            if m < pre.queue.len() {
                assert(pre.queue.contains(x));
            } else {
                assert(pre.finals[m - pre.queue.len()] == x);
            }
        }
        assert forall|k: int| 0 <= k < post.finals.len() implies pre.known.contains(
            #[trigger] post.finals[k],
        ) by {
            if k < pre.finals.len() {
                assert(post.finals[k] == pre.finals[k]);
            }
        }
    }
}

/// Starting the next phase keeps the invariant.
proof fn lemma_next_phase_wf<T>(pre: WorklistModel<T>)
    requires
        pre.wf(),
    ensures
        pre.next_phase().wf(),
{
    let post = pre.next_phase();
    assert(post.queue + post.finals =~= pre.finals);
    assert forall|i: int| 0 <= i < pre.finals.len() implies (pre.queue + pre.finals)[pre.queue.len()
        + i] == #[trigger] pre.finals[i] by {}
    assert(distinct_ids(pre.finals));
    assert forall|i: int, j: int|
        0 <= i < j < post.known.len() implies post.term_of(#[trigger] post.known[i]) != post.term_of(
        #[trigger] post.known[j],
    ) by {
        assert(pre.known.contains(post.known[i]));
        assert(pre.known.contains(post.known[j]));
        let a = choose|a: int| 0 <= a < pre.known.len() && pre.known[a] == post.known[i];
        let b = choose|b: int| 0 <= b < pre.known.len() && pre.known[b] == post.known[j];
        if b < a {
            assert(pre.term_of(pre.known[b]) != pre.term_of(pre.known[a]));
        }
    }
    assert forall|k: int| 0 <= k < post.known.len() implies post.is_node(#[trigger] post.known[k]) by {
        assert(pre.known.contains(pre.finals[k]));
    }
}

/// Asking for the next step keeps the invariant.
proof fn lemma_step_wf<T>(pre: WorklistModel<T>)
    requires
        pre.wf(),
    ensures
        pre.step().wf(),
{
    lemma_pop_wf(pre);
    lemma_next_phase_wf(pre);
}

/// The state of an exploration, whichever step it is at.
struct WorklistState<T> {
    nodes: Vec<T>,
    known: Vec<u32>,
    queue: Vec<u32>,
    finals: Vec<u32>,
    current: Option<u32>,
    next_index: u32,
    phase: u8,
}

impl<T> View for WorklistState<T> {
    type V = WorklistModel<T>;

    closed spec fn view(&self) -> WorklistModel<T> {
        WorklistModel {
            nodes: self.nodes@,
            known: self.known@,
            queue: self.queue@,
            finals: self.finals@,
            current: self.current,
            next_index: self.next_index,
            phase: self.phase,
        }
    }
}

impl<T: PartialEq> WorklistState<T> {
    /// A state with no node at all.
    fn empty() -> (st: WorklistState<T>)
        ensures
            st@.wf(),
    {
        WorklistState {
            nodes: Vec::new(),
            known: Vec::new(),
            queue: Vec::new(),
            finals: Vec::new(),
            current: None,
            next_index: 1,
            phase: 1,
        }
    }

    fn pop_next(&mut self) -> (id: Option<u32>)
        requires
            old(self)@.wf(),
        ensures
            id == old(self)@.popped(),
            final(self)@ == old(self)@.pop(),
            final(self)@.wf(),
    {
        let ghost pre = self@;
        proof {
            lemma_pop_wf(pre);
        }
        match self.queue.pop() {
            Some(id) => {
                self.current = Some(id);
                assert(self@ =~= pre.pop());
                Some(id)
            },
            None => None,
        }
    }

    fn known_id(&self, t: &T) -> (id: Option<u32>)
        requires
            self@.wf(),
            obeys_concrete_eq::<T>(),
        ensures
            id == self@.id_of(*t),
    {
        let mut i: usize = 0;
        while i < self.known.len()
            invariant
                self@.wf(),
                obeys_concrete_eq::<T>(),
                0 <= i <= self.known.len(),
                forall|k: int| 0 <= k < i ==> self@.term_of(#[trigger] self@.known[k]) != *t,
            decreases self.known.len() - i,
        {
            let id = self.known[i];
            assert(self@.is_node(self@.known[i as int]));
            let same = self.nodes[(id - 1) as usize].eq(t);
            proof {
                reveal(obeys_concrete_eq);
                assert(same == (self@.term_of(id) == *t));
            }
            if same {
                proof {
                    lemma_id_of_is_known_node(self@, *t, id);
                }
                return Some(id);
            }
            i = i + 1;
        }
        None
    }

    fn record_result(&mut self, result: T) -> (target: TransformationTarget)
        requires
            old(self)@.wf(),
            obeys_concrete_eq::<T>(),
            old(self)@.id_of(result) is None ==> old(self)@.next_index < u32::MAX,
        ensures
            target == old(self)@.target(result),
            final(self)@ == old(self)@.record(result),
            final(self)@.wf(),
    {
        match self.known_id(&result) {
            Some(id) => TransformationTarget::Known(id),
            None => {
                let ghost pre = self@;
                let id = self.next_index;
                self.nodes.push(result);
                self.known.push(id);
                self.queue.push(id);
                self.next_index = id + 1;
                proof {
                    lemma_record_wf(pre, result);
                    assert(self@ =~= pre.record(result));
                }
                TransformationTarget::New(id)
            },
        }
    }

    fn mark_final(&mut self)
        requires
            old(self)@.wf(),
        ensures
            final(self)@ == old(self)@.finalize(),
            final(self)@.wf(),
    {
        let ghost pre = self@;
        proof {
            lemma_finalize_wf(pre);
        }
        if let Some(c) = self.current {
            self.finals.push(c);
            self.current = None;
            assert(self@ =~= pre.finalize());
        }
    }

    fn start_next_phase(&mut self)
        requires
            old(self)@.wf(),
        ensures
            final(self)@ == old(self)@.next_phase(),
            final(self)@.wf(),
    {
        let ghost pre = self@;
        proof {
            lemma_next_phase_wf(pre);
        }
        let mut finals: Vec<u32> = Vec::new();
        std::mem::swap(&mut finals, &mut self.finals);
        let mut known: Vec<u32> = Vec::new();
        let mut i: usize = 0;
        while i < finals.len()
            invariant
                0 <= i <= finals.len(),
                known@ == finals@.take(i as int),
            decreases finals.len() - i,
        {
            known.push(finals[i]);
            i = i + 1;
            assert(known@ =~= finals@.take(i as int));
        }
        assert(finals@.take(finals.len() as int) =~= finals@);
        self.known = known;
        self.queue = finals;
        self.current = None;
        assert(self@ =~= pre.next_phase());
    }
}

/// What recording one term does to a well-formed state.
proof fn lemma_record_facts<T>(s: WorklistModel<T>, t: T)
    requires
        s.wf(),
        s.id_of(t) is None ==> s.next_index < u32::MAX,
    ensures
        s.record(t).wf(),
        s.record(t).id_of(t) is Some,
        s.record(t).current == s.current,
        s.record(t).finals == s.finals,
        forall|k: u32| s.is_node(k) ==> s.record(t).is_node(k) && s.record(t).term_of(k) == s.term_of(k),
        forall|u: T| s.id_of(u) is Some ==> #[trigger] s.record(t).id_of(u) == s.id_of(u),
        forall|k: u32| s.known.contains(k) ==> #[trigger] s.record(t).known.contains(k),
        forall|k: u32|
            #[trigger] s.record(t).known.contains(k) && !s.known.contains(k) ==> s.record(t).term_of(k)
                == t && !s.is_node(k),
        forall|k: u32|
            #[trigger] s.record(t).queue.contains(k) <==> (s.queue.contains(k) || (s.record(t).known.contains(
                k,
            ) && !s.known.contains(k))),
{
    let r = s.record(t);
    lemma_record_wf(s, t);
    lemma_recorded_term_is_known(s, t);
    assert forall|u: T| s.id_of(u) is Some implies #[trigger] r.id_of(u) == s.id_of(u) by {
        if u != t {
            lemma_record_keeps_other_terms(s, t, u);
        }
    }
    if s.id_of(t) is None {
        let id = s.next_index;
        assert forall|k: u32| s.known.contains(k) implies #[trigger] r.known.contains(k) by {
            let a = choose|a: int| 0 <= a < s.known.len() && s.known[a] == k;
            assert(r.known[a] == k);
        }
        assert forall|k: u32| #[trigger] r.known.contains(k) && !s.known.contains(k) implies r.term_of(k) == t
            && !s.is_node(k) by {
            let a = choose|a: int| 0 <= a < r.known.len() && r.known[a] == k;
            if a < s.known.len() {
                assert(s.known[a] == k);
            }
        }
        assert forall|k: u32| #[trigger] r.queue.contains(k) <==> (s.queue.contains(k) || (r.known.contains(k)
            && !s.known.contains(k))) by {
            if r.queue.contains(k) {
                let a = choose|a: int| 0 <= a < r.queue.len() && r.queue[a] == k;
                if a < s.queue.len() {
                    assert(s.queue[a] == k);
                } else {
                    assert(r.known[r.known.len() - 1] == k);
                    assert forall|b: int| 0 <= b < s.known.len() implies s.known[b] != k by {
                        assert(s.is_node(s.known[b]));
                    }
                }
            }
            if s.queue.contains(k) {
                let a = choose|a: int| 0 <= a < s.queue.len() && s.queue[a] == k;
                assert(r.queue[a] == k);
            }
            if r.known.contains(k) && !s.known.contains(k) {
                let a = choose|a: int| 0 <= a < r.known.len() && r.known[a] == k;
                if a < s.known.len() {
                    assert(s.known[a] == k);
                }
                assert(k == id);
                assert(r.queue[r.queue.len() - 1] == k);
            }
        }
    }
}

/// What recording a sequence of terms, in order, does to a well-formed
/// state.
proof fn lemma_record_all_facts<T>(s: WorklistModel<T>, rs: Seq<T>)
    requires
        s.wf(),
        s.records_fit(rs),
    ensures
        s.record_all(rs).wf(),
        forall|i: int| 0 <= i < rs.len() ==> #[trigger] s.record_all(rs).id_of(rs[i]) is Some,
        s.record_all(rs).current == s.current,
        s.record_all(rs).finals == s.finals,
        forall|k: u32|
            s.is_node(k) ==> s.record_all(rs).is_node(k) && s.record_all(rs).term_of(k) == s.term_of(k),
        forall|u: T| s.id_of(u) is Some ==> #[trigger] s.record_all(rs).id_of(u) == s.id_of(u),
        forall|k: u32| s.known.contains(k) ==> #[trigger] s.record_all(rs).known.contains(k),
        forall|k: u32|
            #[trigger] s.record_all(rs).known.contains(k) && !s.known.contains(k) ==> rs.contains(
                s.record_all(rs).term_of(k),
            ) && !s.is_node(k),
        forall|k: u32|
            #[trigger] s.record_all(rs).queue.contains(k) <==> (s.queue.contains(k) || (s.record_all(
                rs,
            ).known.contains(k) && !s.known.contains(k))),
    decreases rs.len(),
{
    if rs.len() > 0 {
        let init = rs.drop_last();
        let t = rs.last();
        let e1 = s.record_all(init);
        lemma_record_all_facts(s, init);
        lemma_record_facts(e1, t);
        let e = s.record_all(rs);
        assert(e == e1.record(t));
        assert forall|i: int| 0 <= i < rs.len() implies #[trigger] e.id_of(rs[i]) is Some by {
            if i < rs.len() - 1 {
                assert(rs[i] == init[i]);
                assert(e1.id_of(init[i]) is Some);
            }
        }
        assert forall|k: u32| #[trigger] e.known.contains(k) && !s.known.contains(k) implies rs.contains(
            e.term_of(k),
        ) && !s.is_node(k) by {
            if e1.known.contains(k) {
                assert(init.contains(e1.term_of(k)));
                let a = choose|a: int| 0 <= a < init.len() && init[a] == e1.term_of(k);
                assert(rs[a] == init[a]);
                assert(e1.is_node(k));
            } else {
                assert(rs[rs.len() - 1] == t);
            }
        }
    }
}

/// Ending a visit keeps the invariant and changes neither the known terms
/// nor the queue.
proof fn lemma_finish_facts<T>(s: WorklistModel<T>, n: nat)
    requires
        s.wf(),
    ensures
        s.finish(n).wf(),
        s.finish(n).known == s.known,
        s.finish(n).queue == s.queue,
        s.finish(n).nodes == s.nodes,
        s.finish(n).current is None || s.current is None,
        forall|u: T| #[trigger] s.finish(n).id_of(u) == s.id_of(u),
{
    lemma_finalize_wf(s);
    let f = s.finish(n);
    assert forall|u: T| #[trigger] f.id_of(u) == s.id_of(u) by {
        assert(f.known == s.known && f.nodes == s.nodes);
    }
}

/// A rewriting of a reached term is reached.
proof fn lemma_reach_step<T>(m: WorklistModel<T>, rules: spec_fn(T) -> Seq<T>, a: T, b: T)
    requires
        reachable(m, rules, a),
        rules(a).contains(b),
    ensures
        reachable(m, rules, b),
{
    let path = choose|path: Seq<T>|
        #![trigger is_rewriting_path(rules, path)]
        path.len() > 0 && m.id_of(path[0]) is Some && path.last() == a && is_rewriting_path(rules, path);
    let longer = path.push(b);
    assert forall|i: int| 0 <= i < longer.len() - 1 implies #[trigger] rules(longer[i]).contains(
        longer[i + 1],
    ) by {
        if i < path.len() - 1 {
            assert(rules(path[i]).contains(path[i + 1]));
        }
    }
    assert(is_rewriting_path(rules, longer));
}

/// The state where a phase starts has explored nothing yet.
proof fn lemma_start_explored<T>(m: WorklistModel<T>, rules: spec_fn(T) -> Seq<T>)
    requires
        m.wf(),
        m.is_phase_start(),
    ensures
        explored(m, rules, m, Seq::empty()),
{
    assert forall|k: u32| #[trigger] m.known.contains(k) implies reachable(m, rules, m.term_of(k)) by {
        let path = seq![m.term_of(k)];
        lemma_id_of_is_known_node(m, m.term_of(k), k);
        assert(is_rewriting_path(rules, path));
    }
    assert forall|k: u32| #![auto] !m.finals.contains(k) by {}
}

/// One visit keeps what the run has established, the node visited joining
/// the visited ones.
proof fn lemma_visit_explored<T>(
    m: WorklistModel<T>,
    rules: spec_fn(T) -> Seq<T>,
    s: WorklistModel<T>,
    v: Seq<u32>,
)
    requires
        explored(m, rules, s, v),
        s.queue.len() > 0,
        s.visit_fits(rules),
    ensures
        explored(m, rules, s.visit(rules), v.push(s.queue.last())),
{
    let id = s.queue.last();
    let p = s.pop();
    lemma_pop_wf(s);
    let rs = rules(p.term_of(id));
    let e = p.record_all(rs);
    lemma_record_all_facts(p, rs);
    let w = e.finish(rs.len());
    lemma_finish_facts(e, rs.len());
    let v2 = v.push(id);
    assert(s.visit(rules) == w);
    // the node visited
    assert(s.known.contains(id)) by {
        assert(s.queue[s.queue.len() - 1] == id);
    }
    assert(s.queue.contains(id)) by {
        assert(s.queue[s.queue.len() - 1] == id);
    }
    assert(!v.contains(id));
    assert(!p.queue.contains(id));
    assert forall|k: u32| k != id implies (#[trigger] p.queue.contains(k) <==> s.queue.contains(k)) by {
        if s.queue.contains(k) {
            let a = choose|a: int| 0 <= a < s.queue.len() && s.queue[a] == k;
            assert(a < s.queue.len() - 1);
            assert(p.queue[a] == k);
        }
        if p.queue.contains(k) {
            let a = choose|a: int| 0 <= a < p.queue.len() && p.queue[a] == k;
            assert(s.queue[a] == k);
        }
    }
    assert forall|u: T| s.id_of(u) is Some implies #[trigger] w.id_of(u) == s.id_of(u) by {
        assert(p.id_of(u) == s.id_of(u)) by {
            assert(p.known == s.known && p.nodes == s.nodes);
        }
    }
    assert(!s.finals.contains(id));
    assert forall|k: u32| #[trigger] v2.contains(k) <==> (v.contains(k) || k == id) by {
        if v2.contains(k) {
            let a = choose|a: int| 0 <= a < v2.len() && v2[a] == k;
            if a < v.len() {
                assert(v[a] == k);
            }
        }
        if v.contains(k) {
            let a = choose|a: int| 0 <= a < v.len() && v[a] == k;
            assert(v2[a] == k);
        }
        if k == id {
            assert(v2[v.len() as int] == k);
        }
    }
    assert(p.known == s.known);
    assert forall|k: u32| #[trigger] v2.contains(k) implies w.known.contains(k) by {
        if k != id {
            assert(v.contains(k));
        }
    }
    assert(distinct_ids(v2)) by {
        assert forall|i: int, j: int| 0 <= i < j < v2.len() implies v2[i] != v2[j] by {
            if j == v.len() {
                assert(v.contains(v2[i]));
            }
        }
    }
    assert forall|k: u32| #[trigger] w.known.contains(k) implies (w.queue.contains(k) <==> !v2.contains(k)) by {
        assert(w.queue.contains(k) <==> e.queue.contains(k));
        assert(e.queue.contains(k) <==> (p.queue.contains(k) || (e.known.contains(k) && !p.known.contains(k))));
        if s.known.contains(k) {
            if k != id {
                assert(v2.contains(k) <==> v.contains(k));
            }
        } else {
            assert(!v.contains(k));
            assert(k != id);
        }
    }
    assert forall|k: u32, j: int|
        #![trigger v2.contains(k), rules(w.term_of(k))[j]]
        v2.contains(k) && 0 <= j < rules(w.term_of(k)).len() implies w.id_of(rules(w.term_of(k))[j]) is Some by {
        assert(s.known.contains(k)) by {
            if k != id {
                assert(v.contains(k));
            }
        }
        assert(s.is_node(k)) by {
            let a = choose|a: int| 0 <= a < s.known.len() && s.known[a] == k;
        }
        assert(w.term_of(k) == s.term_of(k));
        if k == id {
            assert(rs[j] == rules(w.term_of(k))[j]);
        } else {
            assert(v.contains(k));
            assert(s.id_of(rules(s.term_of(k))[j]) is Some);
        }
    }
    assert forall|k: u32| #[trigger] w.known.contains(k) implies reachable(m, rules, w.term_of(k)) by {
        if s.known.contains(k) {
            let a = choose|a: int| 0 <= a < s.known.len() && s.known[a] == k;
            assert(s.is_node(s.known[a]));
        } else {
            assert(rs.contains(e.term_of(k)));
            assert(s.is_node(id)) by {
                let a = choose|a: int| 0 <= a < s.known.len() && s.known[a] == id;
                assert(s.is_node(s.known[a]));
            }
            lemma_reach_step(m, rules, s.term_of(id), w.term_of(k));
        }
    }
    assert forall|k: u32| #[trigger] m.known.contains(k) implies w.known.contains(k) && w.term_of(k)
        == m.term_of(k) by {
        assert(s.known.contains(k));
        let a = choose|a: int| 0 <= a < s.known.len() && s.known[a] == k;
        assert(s.is_node(s.known[a]));
    }
    assert forall|k: u32| #[trigger] w.finals.contains(k) <==> (v2.contains(k) && rules(w.term_of(k)).len()
        == 0) by {
        if k == id {
            assert(s.is_node(id)) by {
                let a = choose|a: int| 0 <= a < s.known.len() && s.known[a] == id;
                assert(s.is_node(s.known[a]));
            }
            if rs.len() == 0 {
                assert(w.finals == e.finals.push(id));
                assert(w.finals[w.finals.len() - 1] == id);
            } else {
                assert(w.finals == s.finals);
            }
        } else {
            assert(v2.contains(k) <==> v.contains(k));
            if rs.len() == 0 {
                assert(w.finals == s.finals.push(id));
                if w.finals.contains(k) {
                    let a = choose|a: int| 0 <= a < w.finals.len() && w.finals[a] == k;
                    assert(s.finals[a] == k);
                }
                if s.finals.contains(k) {
                    let a = choose|a: int| 0 <= a < s.finals.len() && s.finals[a] == k;
                    assert(w.finals[a] == k);
                }
            }
            if v.contains(k) {
                assert(s.known.contains(k));
                let a = choose|a: int| 0 <= a < s.known.len() && s.known[a] == k;
                assert(s.is_node(s.known[a]));
            }
        }
    }
}

/// A run of visits keeps what the run has established, the nodes it visits
/// joining the visited ones.
proof fn lemma_run_explored<T>(
    m: WorklistModel<T>,
    rules: spec_fn(T) -> Seq<T>,
    s: WorklistModel<T>,
    v: Seq<u32>,
    fuel: nat,
)
    requires
        explored(m, rules, s, v),
        s.run_fits(rules, fuel),
    ensures
        explored(m, rules, s.run(rules, fuel), v + s.visited(rules, fuel)),
    decreases fuel,
{
    if fuel == 0 || s.queue.len() == 0 {
        assert(v + s.visited(rules, fuel) =~= v);
    } else {
        let id = s.queue.last();
        lemma_visit_explored(m, rules, s, v);
        lemma_run_explored(m, rules, s.visit(rules), v.push(id), (fuel - 1) as nat);
        assert(v + s.visited(rules, fuel) =~= v.push(id) + s.visit(rules).visited(rules, (fuel - 1) as nat));
    }
}

/// Once no node waits, every term on a rewriting path from the start is
/// known.
proof fn lemma_path_known<T>(
    m: WorklistModel<T>,
    rules: spec_fn(T) -> Seq<T>,
    e: WorklistModel<T>,
    v: Seq<u32>,
    path: Seq<T>,
    i: int,
)
    requires
        m.wf(),
        explored(m, rules, e, v),
        e.queue.len() == 0,
        path.len() > 0,
        m.id_of(path[0]) is Some,
        is_rewriting_path(rules, path),
        0 <= i < path.len(),
    ensures
        e.id_of(path[i]) is Some,
    decreases i,
{
    if i == 0 {
        lemma_id_of_some(m, path[0]);
        let k = m.id_of(path[0]).unwrap();
        assert(m.known.contains(k));
        lemma_id_of_is_known_node(e, path[0], k);
    } else {
        lemma_path_known(m, rules, e, v, path, i - 1);
        lemma_id_of_some(e, path[i - 1]);
        let k = e.id_of(path[i - 1]).unwrap();
        assert(!e.queue.contains(k));
        assert(v.contains(k));
        let q = i - 1;
        assert(0 <= q < path.len() - 1);
        assert(rules(path[q]).contains(path[q + 1]));
        assert(path[q + 1] == path[i]);
        let rs = rules(path[i - 1]);
        let j = choose|j: int| 0 <= j < rs.len() && rs[j] == path[i];
        assert(e.id_of(rules(e.term_of(k))[j]) is Some);
    }
}

/// The exploration of one phase, the rules of the phase being `rules`.
/// Started where a phase starts and run until no node waits, it ends with
/// the known terms exactly the terms reached from the starting terms by the
/// rules, each held by one node; every node visited exactly once; the
/// starting nodes still holding their terms; and the finals exactly the
/// nodes whose terms have no rewriting.
pub proof fn lemma_phase_exploration<T>(m: WorklistModel<T>, rules: spec_fn(T) -> Seq<T>, fuel: nat)
    requires
        m.wf(),
        m.is_phase_start(),
        m.run_fits(rules, fuel),
        m.run(rules, fuel).queue.len() == 0,
    ensures
        m.run(rules, fuel).wf(),
        forall|t: T| #[trigger] m.run(rules, fuel).id_of(t) is Some <==> reachable(m, rules, t),
        distinct_ids(m.visited(rules, fuel)),
        forall|k: u32|
            #[trigger] m.visited(rules, fuel).contains(k) <==> m.run(rules, fuel).known.contains(k),
        forall|k: u32|
            #[trigger] m.known.contains(k) ==> m.run(rules, fuel).term_of(k) == m.term_of(k),
        forall|k: u32|
            #[trigger] m.run(rules, fuel).finals.contains(k) <==> (m.run(rules, fuel).known.contains(k)
                && rules(m.run(rules, fuel).term_of(k)).len() == 0),
{
    let e = m.run(rules, fuel);
    let vis = m.visited(rules, fuel);
    lemma_start_explored(m, rules);
    lemma_run_explored(m, rules, m, Seq::empty(), fuel);
    assert(Seq::<u32>::empty() + vis =~= vis);
    assert forall|t: T| #[trigger] e.id_of(t) is Some <==> reachable(m, rules, t) by {
        if e.id_of(t) is Some {
            lemma_id_of_some(e, t);
        }
        if reachable(m, rules, t) {
            let path = choose|path: Seq<T>|
                #![trigger is_rewriting_path(rules, path)]
                path.len() > 0 && m.id_of(path[0]) is Some && path.last() == t && is_rewriting_path(
                    rules,
                    path,
                );
            lemma_path_known(m, rules, e, vis, path, path.len() - 1);
        }
    }
    assert forall|k: u32| #[trigger] vis.contains(k) <==> e.known.contains(k) by {
        if e.known.contains(k) {
            assert(!e.queue.contains(k));
        }
    }
}

/// A run that has not emptied the queue has made every visit it could.
proof fn lemma_visited_len<T>(s: WorklistModel<T>, rules: spec_fn(T) -> Seq<T>, fuel: nat)
    ensures
        s.visited(rules, fuel).len() <= fuel,
        s.run(rules, fuel).queue.len() > 0 ==> s.visited(rules, fuel).len() == fuel,
    decreases fuel,
{
    if fuel > 0 && s.queue.len() > 0 {
        lemma_visited_len(s.visit(rules), rules, (fuel - 1) as nat);
    }
}

/// Distinct known nodes hold distinct reached terms, so there are no more of
/// them than terms in a set holding every reached term.
proof fn lemma_known_ids_bounded<T>(
    m: WorklistModel<T>,
    rules: spec_fn(T) -> Seq<T>,
    e: WorklistModel<T>,
    v: Seq<u32>,
    ids: Seq<u32>,
    universe: Set<T>,
)
    requires
        explored(m, rules, e, v),
        distinct_ids(ids),
        forall|i: int| 0 <= i < ids.len() ==> e.known.contains(#[trigger] ids[i]),
        universe.finite(),
        forall|t: T| reachable(m, rules, t) ==> #[trigger] universe.contains(t),
    ensures
        ids.len() <= universe.len(),
{
    broadcast use vstd::seq_lib::seq_to_set_is_finite;

    assert(ids.no_duplicates()) by {
        assert forall|i: int, j: int| 0 <= i < ids.len() && 0 <= j < ids.len() && i != j implies ids[i]
            != ids[j] by {
            if j < i {
                assert(ids[j] != ids[i]);
            }
        }
    }
    ids.unique_seq_to_set();
    let set = ids.to_set();
    let f = |k: u32| e.term_of(k);
    assert(vstd::relations::injective_on(f, set)) by {
        assert forall|k1: u32, k2: u32| set.contains(k1) && set.contains(k2) && #[trigger] f(k1) == #[trigger] f(k2)
            implies k1 == k2 by {
            let i1 = choose|i: int| 0 <= i < ids.len() && ids[i] == k1;
            let i2 = choose|i: int| 0 <= i < ids.len() && ids[i] == k2;
            assert(e.known.contains(ids[i1]));
            assert(e.known.contains(ids[i2]));
            let a = choose|a: int| 0 <= a < e.known.len() && e.known[a] == k1;
            let b = choose|b: int| 0 <= b < e.known.len() && e.known[b] == k2;
            if a < b {
                assert(e.term_of(e.known[a]) != e.term_of(e.known[b]));
            } else if b < a {
                assert(e.term_of(e.known[b]) != e.term_of(e.known[a]));
            }
        }
    }
    let image = set.map(f);
    vstd::set_lib::lemma_map_size(set, image, f);
    assert(image.subset_of(universe)) by {
        assert forall|t: T| image.contains(t) implies universe.contains(t) by {
            let k = choose|k: u32| set.contains(k) && f(k) == t;
            let i = choose|i: int| 0 <= i < ids.len() && ids[i] == k;
            assert(e.known.contains(ids[i]));
        }
    }
    vstd::set_lib::lemma_len_subset(image, universe);
}

/// A phase ends: when every term the rules reach from the starting terms
/// lies in a finite set of `n` terms, at most `n` visits empty the queue,
/// and no node is visited twice in the phase.
pub proof fn lemma_phase_ends<T>(m: WorklistModel<T>, rules: spec_fn(T) -> Seq<T>, universe: Set<T>)
    requires
        m.wf(),
        m.is_phase_start(),
        universe.finite(),
        forall|t: T| reachable(m, rules, t) ==> #[trigger] universe.contains(t),
        m.run_fits(rules, universe.len()),
    ensures
        m.run(rules, universe.len()).queue.len() == 0,
        distinct_ids(m.visited(rules, universe.len())),
        m.visited(rules, universe.len()).len() <= universe.len(),
{
    let n = universe.len();
    let e = m.run(rules, n);
    let vis = m.visited(rules, n);
    lemma_start_explored(m, rules);
    lemma_run_explored(m, rules, m, Seq::empty(), n);
    assert(Seq::<u32>::empty() + vis =~= vis);
    lemma_visited_len(m, rules, n);
    if e.queue.len() > 0 {
        let q = e.queue[0];
        assert(e.known.contains(q));
        assert(e.queue.contains(q));
        assert(!vis.contains(q));
        let ids = vis.push(q);
        assert(distinct_ids(ids)) by {
            assert forall|i: int, j: int| 0 <= i < j < ids.len() implies ids[i] != ids[j] by {
                if j == vis.len() {
                    assert(vis.contains(ids[i]));
                }
            }
        }
        assert forall|i: int| 0 <= i < ids.len() implies e.known.contains(#[trigger] ids[i]) by {
            if i < vis.len() {
                assert(vis.contains(vis[i]));
            }
        }
        lemma_known_ids_bounded(m, rules, e, vis, ids, universe);
    }
}

/// The canonisation is determined by its input: two canonisations of the
/// same term under rules that rewrite every term alike make the same
/// decisions in every phase (the same nodes visited in the same order, the
/// same edges, the same numbers) and end in the same state.
pub proof fn lemma_canonisation_determined<T>(
    init1: T,
    init2: T,
    rules1: spec_fn(u8, T) -> Seq<T>,
    rules2: spec_fn(u8, T) -> Seq<T>,
    fuel: nat,
)
    requires
        init1 == init2,
        forall|p: u8, t: T| #[trigger] rules1(p, t) == rules2(p, t),
    ensures
        canonisation(init1, rules1, fuel) == canonisation(init2, rules2, fuel),
        canonisation_trace(init1, rules1, fuel) == canonisation_trace(init2, rules2, fuel),
{
    assert(rules1 =~= rules2);
}

/// What asking for the next step does, field by field: while nodes wait, the
/// last waiting node is taken and becomes the node visited, nothing else
/// changing; when none waits in phase 1 or 2, the phase ends and the next one
/// starts with every final of the phase, and only those, known under its own
/// number and waiting, with no final and no node visited yet; when none waits
/// in phase 3, the exploration is over; after that nothing changes.
pub proof fn lemma_step_laws<T>(m: WorklistModel<T>)
    requires
        m.wf(),
    ensures
        m.phase < 4 && m.queue.len() > 0 ==> {
            &&& m.step_outcome() == CanonStep::Visit(m.queue[m.queue.len() - 1])
            &&& m.step().queue == m.queue.subrange(0, m.queue.len() - 1)
            &&& m.step().current == Some(m.queue[m.queue.len() - 1])
            &&& m.step().known == m.known
            &&& m.step().nodes == m.nodes
            &&& m.step().finals == m.finals
            &&& m.step().next_index == m.next_index
            &&& m.step().phase == m.phase
        },
        m.phase < 3 && m.queue.len() == 0 ==> {
            &&& m.step_outcome() == CanonStep::EndOfPhase(m.phase)
            &&& m.step().phase == m.phase + 1
            &&& m.step().known == m.finals
            &&& m.step().queue == m.finals
            &&& m.step().finals.len() == 0
            &&& m.step().current is None
            &&& m.step().nodes == m.nodes
            &&& m.step().next_index == m.next_index
            &&& forall|k: u32| #[trigger] m.step().known.contains(k) <==> m.finals.contains(k)
            &&& forall|f: u32|
                #[trigger] m.finals.contains(f) ==> m.step().id_of(m.term_of(f)) == Some(f)
                    && m.step().queue.contains(f)
        },
        m.phase == 3 && m.queue.len() == 0 ==> {
            &&& m.step_outcome() == CanonStep::EndOfPhase(3)
            &&& m.step().phase == 4
            &&& m.step().current is None
        },
        m.phase >= 4 ==> m.step_outcome() == CanonStep::Done && m.step() == m,
{
    lemma_step_wf(m);
    if m.phase < 4 && m.queue.len() > 0 {
        assert(m.queue.drop_last() =~= m.queue.subrange(0, m.queue.len() - 1));
    }
    if m.phase < 3 && m.queue.len() == 0 {
        let n = m.step();
        assert forall|f: u32| #[trigger] m.finals.contains(f) implies n.id_of(m.term_of(f)) == Some(f)
            && n.queue.contains(f) by {
            lemma_id_of_is_known_node(n, m.term_of(f), f);
        }
    }
}

/// What recording a term gives, by the known nodes: a term that no known node
/// holds gets a new node, numbered next, that holds it, is known and waits;
/// a term that a known node holds leads to that node and changes nothing; and
/// an edge leads to a known node only if that node holds the term.
pub proof fn lemma_record_laws<T>(m: WorklistModel<T>, t: T)
    requires
        m.wf(),
    ensures
        (forall|i: int| 0 <= i < m.known.len() ==> m.term_of(#[trigger] m.known[i]) != t) ==> {
            &&& m.target(t) == TransformationTarget::New(m.next_index)
            &&& m.record(t).nodes == m.nodes.push(t)
            &&& m.record(t).known == m.known.push(m.next_index)
            &&& m.record(t).queue == m.queue.push(m.next_index)
            &&& m.record(t).finals == m.finals
            &&& m.record(t).current == m.current
            &&& m.record(t).phase == m.phase
            &&& m.next_index < u32::MAX ==> m.record(t).next_index == m.next_index + 1
        },
        forall|k: u32|
            m.known.contains(k) && m.term_of(k) == t ==> m.target(t) == TransformationTarget::Known(k)
                && #[trigger] m.record(t) == m,
        forall|k: u32|
            m.target(t) == TransformationTarget::Known(k) ==> m.known.contains(k) && #[trigger] m.term_of(k)
                == t,
{
    assert forall|k: u32|
        m.known.contains(k) && m.term_of(k) == t implies m.target(t) == TransformationTarget::Known(k)
        && #[trigger] m.record(t) == m by {
        lemma_id_of_is_known_node(m, t, k);
    }
    if m.id_of(t) is Some {
        lemma_id_of_some(m, t);
    }
}

/// What ending a visit does, field by field: the phase, the numbering, the
/// nodes, the known nodes and the queue stay as they were, and no node is
/// visited any more; the node visited joins the finals exactly when its term
/// had no rewriting.
pub proof fn lemma_finish_laws<T>(m: WorklistModel<T>, n: nat)
    requires
        m.current is Some,
    ensures
        m.finish(n).phase == m.phase,
        m.finish(n).next_index == m.next_index,
        m.finish(n).nodes == m.nodes,
        m.finish(n).known == m.known,
        m.finish(n).queue == m.queue,
        m.finish(n).current is None,
        n == 0 ==> m.finish(n).finals == m.finals.push(m.current.unwrap()),
        n > 0 ==> m.finish(n).finals == m.finals,
{
}

/// Under which node a term is known, by the known nodes: exactly the known
/// node that holds it, and none when no known node holds it.
pub proof fn lemma_id_of_laws<T>(m: WorklistModel<T>, t: T)
    requires
        m.wf(),
    ensures
        forall|k: u32| #[trigger] m.id_of(t) == Some(k) <==> (m.known.contains(k) && m.term_of(k) == t),
        (forall|i: int| 0 <= i < m.known.len() ==> m.term_of(#[trigger] m.known[i]) != t) <==> m.id_of(
            t,
        ) is None,
{
    assert forall|k: u32| #[trigger] m.id_of(t) == Some(k) <==> (m.known.contains(k) && m.term_of(k)
        == t) by {
        if m.known.contains(k) && m.term_of(k) == t {
            lemma_id_of_is_known_node(m, t, k);
        }
        if m.id_of(t) == Some(k) {
            lemma_id_of_some(m, t);
        }
    }
    if m.id_of(t) is Some {
        lemma_id_of_some(m, t);
        let k = m.id_of(t).unwrap();
        let a = choose|a: int| 0 <= a < m.known.len() && m.known[a] == k;
        assert(m.term_of(m.known[a]) == t);
    }
}

/// Every phase starts where a phase starts: the first from the starting
/// term, the next ones from the finals of the one before.
pub proof fn lemma_phases_start<T>(init: T, m: WorklistModel<T>)
    requires
        m.wf(),
    ensures
        WorklistModel::start(init).wf(),
        WorklistModel::start(init).is_phase_start(),
        m.next_phase().wf(),
        m.next_phase().is_phase_start(),
{
    lemma_next_phase_wf(m);
}

/// The exploration of the terms reached from a starting term, in three
/// phases.
pub struct CanonWorklist<T> {
    state: WorklistState<T>,
}

impl<T> View for CanonWorklist<T> {
    type V = WorklistModel<T>;

    closed spec fn view(&self) -> WorklistModel<T> {
        self.state@
    }
}

impl<T> CanonWorklist<T> {
    /// Every exploration is in a well-formed state.
    #[verifier::type_invariant]
    spec fn well_formed(self) -> bool {
        self.state@.wf()
    }
}

impl<T: PartialEq> CanonWorklist<T> {
    /// Takes the state out, leaving an empty one in its place.
    fn take_state(&mut self) -> (st: WorklistState<T>)
        ensures
            st@ == old(self)@,
            st@.wf(),
    {
        proof {
            use_type_invariant(&*self);
        }
        let mut taken = CanonWorklist { state: WorklistState::empty() };
        std::mem::swap(self, &mut taken);
        proof {
            use_type_invariant(&taken);
        }
        let CanonWorklist { state } = taken;
        state
    }

    /// Starts the exploration of `init`, which becomes node 1, in phase 1.
    pub fn new(init: T) -> (w: CanonWorklist<T>)
        ensures
            w@ == WorklistModel::start(init),
            w@.wf(),
    {
        let mut nodes = Vec::new();
        nodes.push(init);
        let mut known = Vec::new();
        known.push(1u32);
        let mut queue = Vec::new();
        queue.push(1u32);
        let state = WorklistState {
            nodes,
            known,
            queue,
            finals: Vec::new(),
            current: None,
            next_index: 2,
            phase: 1,
        };
        assert(state@ =~= WorklistModel::start(init));
        CanonWorklist { state }
    }

    /// The number the next new node gets.
    pub fn next_index(&self) -> (n: u32)
        ensures
            n == self@.next_index,
    {
        self.state.next_index
    }

    /// The phase under way, from 1 to 3, or 4 once the three are over.
    pub fn phase(&self) -> (p: u8)
        ensures
            p == self@.phase,
    {
        self.state.phase
    }

    /// The term of a node.
    pub fn term(&self, id: u32) -> (t: &T)
        requires
            self@.is_node(id),
        ensures
            *t == self@.term_of(id),
    {
        &self.state.nodes[(id - 1) as usize]
    }

    /// The node under which `t` is known in the current phase, if any.
    pub fn known_id(&self, t: &T) -> (id: Option<u32>)
        requires
            obeys_concrete_eq::<T>(),
        ensures
            id == self@.id_of(*t),
    {
        proof {
            use_type_invariant(self);
        }
        self.state.known_id(t)
    }

    /// Says what the exploration asks for next, and moves on to it: the
    /// last waiting node is taken and becomes the node visited; once none
    /// waits, the phase ends, and after phase 1 or 2 the next phase starts
    /// from the nodes found final, all waiting again (the last found first
    /// visited); after phase 3 the exploration is done.
    pub fn next_step(&mut self) -> (step: CanonStep)
        ensures
            step == old(self)@.step_outcome(),
            final(self)@ == old(self)@.step(),
            final(self)@.wf(),
    {
        let mut st = self.take_state();
        let ghost pre = st@;
        proof {
            lemma_step_wf(pre);
        }
        let step = if st.phase >= 4 {
            CanonStep::Done
        } else {
            match st.pop_next() {
                Some(id) => CanonStep::Visit(id),
                None => {
                    let p = st.phase;
                    if p < 3 {
                        st.start_next_phase();
                        st.phase = p + 1;
                    } else {
                        st.phase = 4;
                        st.current = None;
                    }
                    CanonStep::EndOfPhase(p)
                },
            }
        };
        assert(st@ =~= pre.step());
        self.state = st;
        step
    }

    /// Records the term that a rule rewrote the visited node into, and says
    /// where its edge leads: to the node of the same term if one is known in
    /// this phase, else to a new node, numbered next, that waits its visit.
    pub fn record_result(&mut self, result: T) -> (target: TransformationTarget)
        requires
            obeys_concrete_eq::<T>(),
            old(self)@.id_of(result) is None ==> old(self)@.next_index < u32::MAX,
        ensures
            target == old(self)@.target(result),
            final(self)@ == old(self)@.record(result),
            final(self)@.wf(),
    {
        let mut st = self.take_state();
        let target = st.record_result(result);
        self.state = st;
        target
    }

    /// Ends the visit of the current node, whose term the rules of the phase
    /// rewrote in `n_rewritings` ways: with none, the node is final for the
    /// phase and will start the next one.
    pub fn finish_visit(&mut self, n_rewritings: usize)
        requires
            old(self)@.current is Some,
        ensures
            final(self)@ == old(self)@.finish(n_rewritings as nat),
            final(self)@.wf(),
    {
        let mut st = self.take_state();
        if n_rewritings == 0 {
            st.mark_final();
        } else {
            st.current = None;
            assert(st@ =~= old(self)@.finish(n_rewritings as nat));
        }
        self.state = st;
    }
}

} // verus!
