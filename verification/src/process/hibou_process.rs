//! The states and the priority queue of an exploration process.
//!
//! The interaction terms, multi-traces and positions that an exploration
//! handles are defined elsewhere in the tool; here they are type parameters
//! (`I`, `M` and `P`), since nothing in this module looks inside them.
use std::collections::HashSet;
use vstd::multiset::Multiset;
use vstd::prelude::*;

verus! {

/// `Clone::clone` of std's `HashSet<u32>`: its documentation promises a copy
/// of the value, so the copy holds the same identifiers as the original.
#[verifier::external_body]
fn clone_id_set(set: &HashSet<u32>) -> (copy: HashSet<u32>)
    ensures
        copy@ == set@,
{
    set.clone()
}

/// A state kept in memory while an exploration goes on: the interaction
/// reached, the multi-trace still to analyse (if any), the identifiers of the
/// children not yet processed, and how many loop instanciations led there.
#[derive(PartialEq, Debug)]
pub struct MemorizedState<I, M> {
    pub interaction: I,
    pub multi_trace: Option<M>,
    pub remaining_ids_to_process: HashSet<u32>,
    pub previous_loop_instanciations: u32,
}

impl<I, M> MemorizedState<I, M> {
    /// Gathers the four parts of a memorised state.
    pub fn new(
        interaction: I,
        multi_trace: Option<M>,
        remaining_ids_to_process: HashSet<u32>,
        previous_loop_instanciations: u32,
    ) -> (state: MemorizedState<I, M>)
        ensures
            state.interaction == interaction,
            state.multi_trace == multi_trace,
            state.remaining_ids_to_process == remaining_ids_to_process,
            state.previous_loop_instanciations == previous_loop_instanciations,
    {
        MemorizedState {
            interaction,
            multi_trace,
            remaining_ids_to_process,
            previous_loop_instanciations,
        }
    }
}

impl<I: Clone, M: Clone> Clone for MemorizedState<I, M> {
    /// Copies each part; the identifiers still to process are the same.
    fn clone(&self) -> (copy: MemorizedState<I, M>)
        ensures
            cloned(self.interaction, copy.interaction),
            copy.multi_trace is Some <==> self.multi_trace is Some,
            self.multi_trace is Some ==> cloned(self.multi_trace.unwrap(), copy.multi_trace.unwrap()),
            copy.remaining_ids_to_process@ == self.remaining_ids_to_process@,
            copy.previous_loop_instanciations == self.previous_loop_instanciations,
    {
        MemorizedState {
            interaction: self.interaction.clone(),
            multi_trace: self.multi_trace.clone(),
            remaining_ids_to_process: clone_id_set(&self.remaining_ids_to_process),
            previous_loop_instanciations: self.previous_loop_instanciations,
        }
    }
}

/// What is to be done with a node: execute the action found at a position.
#[derive(Clone, PartialEq, Debug)]
pub enum NextToProcessKind<P> {
    Execute(P),
}

/// A node waiting in the queue: the identifier of its parent state, its own
/// index among the children of that state, and what is to be done with it.
#[derive(Clone, PartialEq, Debug)]
pub struct NextToProcess<P> {
    pub state_id: Vec<u32>,
    pub id_as_child: u32,
    pub kind: NextToProcessKind<P>,
}

impl<P> NextToProcess<P> {
    /// Gathers the three parts of a queued node.
    pub fn new(state_id: Vec<u32>, id_as_child: u32, kind: NextToProcessKind<P>) -> (node:
        NextToProcess<P>)
        ensures
            node.state_id == state_id,
            node.id_as_child == id_as_child,
            node.kind == kind,
    {
        NextToProcess { state_id, id_as_child, kind }
    }
}

/// The three levels of priority of the queue.
pub enum PriorityLevel {
    High,
    Medium,
    Low,
}

/// The level that a priority selects: any priority of one or more is high,
/// zero is medium. (A `u32` is never below zero, so no priority selects the
/// low level.)
pub open spec fn level_of(priority: u32) -> PriorityLevel {
    if priority >= 1 {
        PriorityLevel::High
    } else {
        PriorityLevel::Medium
    }
}

/// The contents of a queue, one sequence per level, front first.
pub struct QueueLevels<P> {
    pub high: Seq<NextToProcess<P>>,
    pub medium: Seq<NextToProcess<P>>,
    pub low: Seq<NextToProcess<P>>,
}

impl<P> QueueLevels<P> {
    /// The queue with nothing in it.
    pub open spec fn empty() -> QueueLevels<P> {
        QueueLevels { high: Seq::empty(), medium: Seq::empty(), low: Seq::empty() }
    }

    /// How many nodes wait, over the three levels.
    pub open spec fn len(self) -> nat {
        self.high.len() + self.medium.len() + self.low.len()
    }

    /// The nodes that wait, regardless of level and order.
    pub open spec fn items(self) -> Multiset<NextToProcess<P>> {
        self.high.to_multiset().add(self.medium.to_multiset()).add(self.low.to_multiset())
    }

    /// The sequence of a level.
    pub open spec fn level(self, level: PriorityLevel) -> Seq<NextToProcess<P>> {
        match level {
            PriorityLevel::High => self.high,
            PriorityLevel::Medium => self.medium,
            PriorityLevel::Low => self.low,
        }
    }

    /// The queue with the sequence of one level replaced.
    pub open spec fn with_level(self, level: PriorityLevel, s: Seq<NextToProcess<P>>) -> QueueLevels<
        P,
    > {
        match level {
            PriorityLevel::High => QueueLevels { high: s, ..self },
            PriorityLevel::Medium => QueueLevels { medium: s, ..self },
            PriorityLevel::Low => QueueLevels { low: s, ..self },
        }
    }

    /// The queue after a node is put at the front of the level of `priority`.
    pub open spec fn insert_left(self, node: NextToProcess<P>, priority: u32) -> QueueLevels<P> {
        let l = level_of(priority);
        self.with_level(l, self.level(l).insert(0, node))
    }

    /// The queue after a node is put at the back of the level of `priority`.
    pub open spec fn insert_right(self, node: NextToProcess<P>, priority: u32) -> QueueLevels<P> {
        let l = level_of(priority);
        self.with_level(l, self.level(l).push(node))
    }

    /// The waiting nodes in the order they come out: the high level front
    /// first, then the medium level, then the low level.
    pub open spec fn as_seq(self) -> Seq<NextToProcess<P>> {
        self.high + self.medium + self.low
    }

    /// What `k` successive calls of `get_next` give, in order.
    pub open spec fn outputs(self, k: nat) -> Seq<Option<NextToProcess<P>>>
        decreases k,
    {
        if k == 0 {
            Seq::empty()
        } else {
            seq![self.next()] + self.after_next().outputs((k - 1) as nat)
        }
    }

    /// The queue after `k` successive calls of `get_next`.
    pub open spec fn after_calls(self, k: nat) -> QueueLevels<P>
        decreases k,
    {
        if k == 0 {
            self
        } else {
            self.after_next().after_calls((k - 1) as nat)
        }
    }

    /// The highest level that holds a node, if any does.
    pub open spec fn first_level(self) -> Option<PriorityLevel> {
        if self.high.len() > 0 {
            Some(PriorityLevel::High)
        } else if self.medium.len() > 0 {
            Some(PriorityLevel::Medium)
        } else if self.low.len() > 0 {
            Some(PriorityLevel::Low)
        } else {
            None
        }
    }

    /// The node that comes out next: the front of the highest level that
    /// holds a node.
    pub open spec fn next(self) -> Option<NextToProcess<P>> {
        match self.first_level() {
            Some(l) => Some(self.level(l).first()),
            None => None,
        }
    }

    /// The queue once the next node has come out.
    pub open spec fn after_next(self) -> QueueLevels<P> {
        match self.first_level() {
            Some(l) => self.with_level(l, self.level(l).drop_first()),
            None => self,
        }
    }
}

/// Taking the front of a non-empty sequence leaves its other elements.
proof fn lemma_drop_first_items<A>(s: Seq<A>)
    requires
        s.len() > 0,
    ensures
        s.to_multiset() == s.drop_first().to_multiset().insert(s.first()),
{
    broadcast use vstd::seq_lib::group_to_multiset_ensures;

    assert(s.drop_first() =~= s.remove(0));
    assert(s.to_multiset().count(s[0]) > 0);
    assert(s.to_multiset() =~= s.to_multiset().remove(s[0]).insert(s[0]));
}

/// Putting an element at the front of a sequence adds it to its elements.
proof fn lemma_insert_front_items<A>(s: Seq<A>, a: A)
    ensures
        s.insert(0, a).to_multiset() == s.to_multiset().insert(a),
{
    lemma_drop_first_items(s.insert(0, a));
    assert(s.insert(0, a).drop_first() =~= s);
}

/// The queue gives nothing exactly when it is empty.
pub proof fn lemma_next_none_iff_empty<P>(q: QueueLevels<P>)
    ensures
        q.next() is None <==> q.len() == 0,
        q.len() == 0 ==> q.after_next() == q,
{
}

/// Taking out the next node of a non-empty queue removes that one node and
/// keeps every other.
pub proof fn lemma_next_takes_one<P>(q: QueueLevels<P>)
    requires
        q.len() > 0,
    ensures
        q.next() is Some,
        q.after_next().len() + 1 == q.len(),
        q.after_next().items().insert(q.next().unwrap()) == q.items(),
{
    broadcast use vstd::multiset::group_multiset_properties;

    if q.high.len() > 0 {
        lemma_drop_first_items(q.high);
    } else if q.medium.len() > 0 {
        lemma_drop_first_items(q.medium);
    } else {
        lemma_drop_first_items(q.low);
    }
    assert(q.after_next().items() =~= q.items().remove(q.next().unwrap()));
}

/// Putting a node in, at either end of any level, adds that one node and
/// keeps every other.
pub proof fn lemma_insert_adds_one<P>(q: QueueLevels<P>, node: NextToProcess<P>, priority: u32)
    ensures
        q.insert_left(node, priority).len() == q.len() + 1,
        q.insert_right(node, priority).len() == q.len() + 1,
        q.insert_left(node, priority).items() == q.items().insert(node),
        q.insert_right(node, priority).items() == q.items().insert(node),
{
    broadcast use vstd::seq_lib::group_to_multiset_ensures;
    broadcast use vstd::multiset::group_multiset_properties;

    if priority >= 1 {
        lemma_insert_front_items(q.high, node);
    } else {
        lemma_insert_front_items(q.medium, node);
    }
    assert(q.insert_left(node, priority).items() =~= q.items().insert(node));
    assert(q.insert_right(node, priority).items() =~= q.items().insert(node));
}

/// No insertion ever reaches the low level: whatever the priority, the low
/// level is left as it was.
pub proof fn lemma_insert_keeps_low<P>(q: QueueLevels<P>, node: NextToProcess<P>, priority: u32)
    ensures
        q.insert_left(node, priority).low == q.low,
        q.insert_right(node, priority).low == q.low,
{
}

/// A node put at the front of its level, when no higher level holds a node,
/// is the next to come out, and taking it out gives back the queue as it was.
pub proof fn lemma_insert_left_then_next<P>(q: QueueLevels<P>, node: NextToProcess<P>, priority: u32)
    requires
        priority >= 1 || q.high.len() == 0,
    ensures
        q.insert_left(node, priority).next() == Some(node),
        q.insert_left(node, priority).after_next() == q,
{
    let l = level_of(priority);
    assert(q.level(l).insert(0, node).drop_first() =~= q.level(l));
}

/// A node put into an empty queue, at either end, is the next to come out,
/// and taking it out leaves the queue empty again.
pub proof fn lemma_insert_into_empty_then_next<P>(q: QueueLevels<P>, node: NextToProcess<P>, priority: u32)
    requires
        q.len() == 0,
    ensures
        q.insert_right(node, priority).next() == Some(node),
        q.insert_right(node, priority).after_next() == q,
        q.insert_left(node, priority).next() == Some(node),
        q.insert_left(node, priority).after_next() == q,
{
    let l = level_of(priority);
    assert(q.level(l).push(node).drop_first() =~= q.level(l));
    assert(q.level(l).insert(0, node).drop_first() =~= q.level(l));
}

/// First in, first out: when the queue already has a node to give from the
/// level of `priority` or a higher one, putting a node at the back changes
/// neither which node comes out next nor what remains besides the new node.
pub proof fn lemma_insert_right_fifo<P>(q: QueueLevels<P>, node: NextToProcess<P>, priority: u32)
    requires
        priority >= 1 ==> q.high.len() > 0,
        priority == 0 ==> q.high.len() > 0 || q.medium.len() > 0,
    ensures
        q.insert_right(node, priority).next() == q.next(),
        q.insert_right(node, priority).after_next() == q.after_next().insert_right(node, priority),
{
    let l = level_of(priority);
    assert(q.level(l).len() > 0 ==> q.level(l).push(node).drop_first() =~= q.level(l).drop_first().push(node));
    if q.high.len() > 0 {
        assert(q.high.push(node).drop_first() =~= q.high.drop_first().push(node));
    }
    if q.high.len() == 0 && q.medium.len() > 0 {
        assert(q.medium.push(node).drop_first() =~= q.medium.drop_first().push(node));
    }
}

/// The next node is the first of the queue read in serving order, and
/// taking it out drops exactly that first node from the serving order.
pub proof fn lemma_next_is_first_in_order<P>(q: QueueLevels<P>)
    ensures
        q.as_seq().len() == q.len(),
        q.len() > 0 ==> q.next() == Some(q.as_seq()[0]),
        q.len() > 0 ==> q.after_next().as_seq() == q.as_seq().drop_first(),
        q.len() == 0 ==> q.next() is None,
{
    if q.high.len() > 0 {
        assert(q.after_next().as_seq() =~= q.as_seq().drop_first());
    } else if q.medium.len() > 0 {
        assert(q.high =~= Seq::<NextToProcess<P>>::empty());
        assert(q.after_next().as_seq() =~= q.as_seq().drop_first());
    } else if q.low.len() > 0 {
        assert(q.high =~= Seq::<NextToProcess<P>>::empty());
        assert(q.medium =~= Seq::<NextToProcess<P>>::empty());
        assert(q.after_next().as_seq() =~= q.as_seq().drop_first());
    }
}

/// Draining the queue: as many calls of `get_next` as there are waiting
/// nodes give every node once, high level first, then medium, then low,
/// each level front first; one more call gives `None`, and the queue is then
/// empty.
pub proof fn lemma_drain<P>(q: QueueLevels<P>)
    ensures
        q.outputs(q.len() + 1) == q.as_seq().map_values(|x: NextToProcess<P>| Some(x)).push(None),
        q.after_calls(q.len() + 1) == QueueLevels::<P>::empty(),
    decreases q.len(),
{
    lemma_next_is_first_in_order(q);
    if q.len() == 0 {
        assert(q.high =~= Seq::<NextToProcess<P>>::empty());
        assert(q.medium =~= Seq::<NextToProcess<P>>::empty());
        assert(q.low =~= Seq::<NextToProcess<P>>::empty());
        assert(q.after_next().outputs(0) =~= Seq::<Option<NextToProcess<P>>>::empty());
        assert(q.outputs(1) =~= q.as_seq().map_values(|x: NextToProcess<P>| Some(x)).push(None));
        assert(q.after_calls(1) == q.after_next().after_calls(0));
        assert(q == QueueLevels::<P>::empty());
    } else {
        let r = q.after_next();
        lemma_next_takes_one(q);
        lemma_drain(r);
        assert(q.len() + 1 - 1 == r.len() + 1);
        assert(q.outputs(q.len() + 1) == seq![q.next()] + r.outputs(r.len() + 1));
        assert(q.after_calls(q.len() + 1) == r.after_calls(r.len() + 1));
        assert(q.outputs(q.len() + 1) =~= q.as_seq().map_values(|x: NextToProcess<P>| Some(x)).push(
            None,
        ));
    }
}

/// What taking out the next node does, level by level: the front of the
/// high level if it holds a node, else the front of the medium level if it
/// holds one, else the front of the low level; that front alone is removed,
/// every other level staying as it was; an empty queue gives nothing and
/// stays empty.
pub proof fn lemma_next_levels<P>(q: QueueLevels<P>)
    ensures
        q.high.len() > 0 ==> {
            &&& q.next() == Some(q.high[0])
            &&& q.after_next().high == q.high.subrange(1, q.high.len() as int)
            &&& q.after_next().medium == q.medium
            &&& q.after_next().low == q.low
        },
        q.high.len() == 0 && q.medium.len() > 0 ==> {
            &&& q.next() == Some(q.medium[0])
            &&& q.after_next().high == q.high
            &&& q.after_next().medium == q.medium.subrange(1, q.medium.len() as int)
            &&& q.after_next().low == q.low
        },
        q.high.len() == 0 && q.medium.len() == 0 && q.low.len() > 0 ==> {
            &&& q.next() == Some(q.low[0])
            &&& q.after_next().high == q.high
            &&& q.after_next().medium == q.medium
            &&& q.after_next().low == q.low.subrange(1, q.low.len() as int)
        },
        q.high.len() == 0 && q.medium.len() == 0 && q.low.len() == 0 ==> q.next() is None
            && q.after_next() == q,
{
    assert(q.high.drop_first() =~= q.high.subrange(1, q.high.len() as int));
    assert(q.medium.drop_first() =~= q.medium.subrange(1, q.medium.len() as int));
    assert(q.low.drop_first() =~= q.low.subrange(1, q.low.len() as int));
}

/// Where an insertion puts a node, level by level, whatever the queue holds:
/// a priority of one or more puts it at the front (left) or back (right) of
/// the high level, a priority of zero at the front or back of the medium
/// level, and every other level stays as it was.
pub proof fn lemma_insert_levels<P>(q: QueueLevels<P>, node: NextToProcess<P>, priority: u32)
    ensures
        priority >= 1 ==> {
            &&& q.insert_left(node, priority).high == seq![node] + q.high
            &&& q.insert_left(node, priority).medium == q.medium
            &&& q.insert_left(node, priority).low == q.low
            &&& q.insert_right(node, priority).high == q.high + seq![node]
            &&& q.insert_right(node, priority).medium == q.medium
            &&& q.insert_right(node, priority).low == q.low
        },
        priority == 0 ==> {
            &&& q.insert_left(node, priority).high == q.high
            &&& q.insert_left(node, priority).medium == seq![node] + q.medium
            &&& q.insert_left(node, priority).low == q.low
            &&& q.insert_right(node, priority).high == q.high
            &&& q.insert_right(node, priority).medium == q.medium + seq![node]
            &&& q.insert_right(node, priority).low == q.low
        },
{
    assert(q.high.insert(0, node) =~= seq![node] + q.high);
    assert(q.medium.insert(0, node) =~= seq![node] + q.medium);
    assert(q.high.push(node) =~= q.high + seq![node]);
    assert(q.medium.push(node) =~= q.medium + seq![node]);
}

/// Nodes waiting to be processed, in three levels of priority. Within a
/// level the front comes out first; a level is served only once every higher
/// level is empty.
pub struct ProcessQueue<P> {
    pub high_priority: Vec<NextToProcess<P>>,
    pub medium_priority: Vec<NextToProcess<P>>,
    pub low_priority: Vec<NextToProcess<P>>,
}

impl<P> View for ProcessQueue<P> {
    type V = QueueLevels<P>;

    open spec fn view(&self) -> QueueLevels<P> {
        QueueLevels {
            high: self.high_priority@,
            medium: self.medium_priority@,
            low: self.low_priority@,
        }
    }
}

impl<P> ProcessQueue<P> {
    /// A queue with nothing in it.
    pub fn new() -> (queue: ProcessQueue<P>)
        ensures
            queue@ == QueueLevels::<P>::empty(),
    {
        ProcessQueue { high_priority: Vec::new(), medium_priority: Vec::new(), low_priority: Vec::new() }
    }

    /// Puts a node at the front of the level of `priority`.
    pub fn insert_item_left(&mut self, node: NextToProcess<P>, priority: u32)
        ensures
            final(self)@ == old(self)@.insert_left(node, priority),
    {
        if priority >= 1 {
            self.high_priority.insert(0, node);
        } else if priority == 0 {
            self.medium_priority.insert(0, node);
        } else {
            self.low_priority.insert(0, node);
        }
    }

    /// Puts a node at the back of the level of `priority`.
    pub fn insert_item_right(&mut self, node: NextToProcess<P>, priority: u32)
        ensures
            final(self)@ == old(self)@.insert_right(node, priority),
    {
        if priority >= 1 {
            self.high_priority.push(node);
        } else if priority == 0 {
            self.medium_priority.push(node);
        } else {
            self.low_priority.push(node);
        }
    }

    /// Takes out the front node of the highest level that holds one, or
    /// gives `None` when the queue is empty.
    pub fn get_next(&mut self) -> (next: Option<NextToProcess<P>>)
        ensures
            next == old(self)@.next(),
            final(self)@ == old(self)@.after_next(),
    {
        if self.high_priority.len() > 0 {
            return Some(self.high_priority.remove(0));
        } else if self.medium_priority.len() > 0 {
            return Some(self.medium_priority.remove(0));
        } else if self.low_priority.len() > 0 {
            return Some(self.low_priority.remove(0));
        }
        None
    }
}


/// The character of a decimal digit.
pub open spec fn digit_char(d: nat) -> char {
    if d == 0 {
        '0'
    } else if d == 1 {
        '1'
    } else if d == 2 {
        '2'
    } else if d == 3 {
        '3'
    } else if d == 4 {
        '4'
    } else if d == 5 {
        '5'
    } else if d == 6 {
        '6'
    } else if d == 7 {
        '7'
    } else if d == 8 {
        '8'
    } else {
        '9'
    }
}

/// The decimal notation of a number, most significant digit first, with no
/// leading zero (zero itself is written `0`).
pub open spec fn decimal(n: nat) -> Seq<char>
    decreases n,
{
    if n < 10 {
        seq![digit_char(n)]
    } else {
        decimal(n / 10).push(digit_char(n % 10))
    }
}

/// The one-character string of a decimal digit.
fn digit_str(d: u64) -> (s: &'static str)
    requires
        d < 10,
    ensures
        s@ == seq![digit_char(d as nat)],
{
    proof {
        reveal_strlit("0");
        reveal_strlit("1");
        reveal_strlit("2");
        reveal_strlit("3");
        reveal_strlit("4");
        reveal_strlit("5");
        reveal_strlit("6");
        reveal_strlit("7");
        reveal_strlit("8");
        reveal_strlit("9");
    }
    if d == 0 {
        "0"
    } else if d == 1 {
        "1"
    } else if d == 2 {
        "2"
    } else if d == 3 {
        "3"
    } else if d == 4 {
        "4"
    } else if d == 5 {
        "5"
    } else if d == 6 {
        "6"
    } else if d == 7 {
        "7"
    } else if d == 8 {
        "8"
    } else {
        "9"
    }
}

/// Writes the decimal notation of `n` at the end of `s`.
fn append_decimal(s: &mut String, n: u64)
    ensures
        final(s)@ == old(s)@ + decimal(n as nat),
    decreases n,
{
    if n >= 10 {
        append_decimal(s, n / 10);
    }
    s.append(digit_str(n % 10));
    proof {
        if n >= 10 {
            assert(old(s)@ + decimal(n as nat) =~= old(s)@ + decimal((n / 10) as nat) + seq![
                digit_char((n % 10) as nat),
            ]);
        } else {
            assert(n % 10 == n);
        }
    }
}

/// The value of a sequence of decimal digits read as a base-10 numeral, most
/// significant first.
pub open spec fn numeral_value(s: Seq<char>) -> int
    decreases s.len(),
{
    if s.len() == 0 {
        0
    } else {
        numeral_value(s.drop_last()) * 10 + (s.last() as int - '0' as int)
    }
}

/// A character is a decimal digit.
pub open spec fn is_decimal_digit(c: char) -> bool {
    '0' as int <= c as int <= '9' as int
}

/// The decimal notation of a number is a non-empty string of digits whose
/// value read in base 10 is the number, and whose first digit is `0` only
/// when the number is zero (so it is the one plain notation of the number).
pub proof fn lemma_decimal_is_numeral(n: nat)
    ensures
        decimal(n).len() >= 1,
        forall|i: int| 0 <= i < decimal(n).len() ==> is_decimal_digit(#[trigger] decimal(n)[i]),
        numeral_value(decimal(n)) == n,
        n > 0 ==> decimal(n)[0] != '0',
    decreases n,
{
    if n < 10 {
        assert(numeral_value(decimal(n)) == numeral_value(decimal(n).drop_last()) * 10 + (digit_char(n) as int - '0' as int));
        assert(decimal(n).drop_last() =~= Seq::<char>::empty());
    } else {
        lemma_decimal_is_numeral(n / 10);
        let d = decimal(n / 10);
        assert(decimal(n).drop_last() =~= d);
        assert(decimal(n)[0] == d[0]);
        assert forall|i: int| 0 <= i < decimal(n).len() implies is_decimal_digit(#[trigger] decimal(n)[i]) by {
            if i < d.len() {
                assert(decimal(n)[i] == d[i]);
            }
        }
        assert(digit_char((n % 10) as nat) as int - '0' as int == n % 10);
        assert(n == (n / 10) * 10 + n % 10);
    }
}

/// Each pre-filter is named by its kind, `=`, and its limit in plain
/// decimal: the digits after the prefix read in base 10 give the limit, and
/// start with `0` only for a limit of zero.
pub proof fn lemma_pre_filter_names(f: HibouPreFilter)
    ensures
        ({
            let (prefix, limit): (Seq<char>, nat) = match f {
                HibouPreFilter::MaxLoopInstanciation(num) => ("MaxLoop="@, num as nat),
                HibouPreFilter::MaxProcessDepth(num) => ("MaxDepth="@, num as nat),
                HibouPreFilter::MaxNodeNumber(num) => ("MaxNum="@, num as nat),
            };
            let digits = f.description().subrange(prefix.len() as int, f.description().len() as int);
            &&& f.description().subrange(0, prefix.len() as int) == prefix
            &&& digits.len() >= 1
            &&& forall|i: int| 0 <= i < digits.len() ==> is_decimal_digit(#[trigger] digits[i])
            &&& numeral_value(digits) == limit
            &&& limit > 0 ==> digits[0] != '0'
        }),
{
    let (prefix, limit): (Seq<char>, nat) = match f {
        HibouPreFilter::MaxLoopInstanciation(num) => ("MaxLoop="@, num as nat),
        HibouPreFilter::MaxProcessDepth(num) => ("MaxDepth="@, num as nat),
        HibouPreFilter::MaxNodeNumber(num) => ("MaxNum="@, num as nat),
    };
    lemma_decimal_is_numeral(limit);
    assert(f.description() == prefix + decimal(limit));
    assert(f.description().subrange(prefix.len() as int, f.description().len() as int) =~= decimal(limit));
    assert(f.description().subrange(0, prefix.len() as int) =~= prefix);
}

/// A limit that prunes the exploration before a node is processed.
pub enum HibouPreFilter {
    MaxLoopInstanciation(u32),
    MaxProcessDepth(usize),
    MaxNodeNumber(u32),
}

impl HibouPreFilter {
    /// The text that names the filter and its limit.
    pub open spec fn description(self) -> Seq<char> {
        match self {
            HibouPreFilter::MaxLoopInstanciation(num) => "MaxLoop="@ + decimal(num as nat),
            HibouPreFilter::MaxProcessDepth(num) => "MaxDepth="@ + decimal(num as nat),
            HibouPreFilter::MaxNodeNumber(num) => "MaxNum="@ + decimal(num as nat),
        }
    }

    /// Names the filter and its limit, as in `MaxLoop=3`.
    pub fn to_string(&self) -> (text: String)
        ensures
            text@ == self.description(),
    {
        match self {
            HibouPreFilter::MaxLoopInstanciation(num) => {
                let mut text = String::from_str("MaxLoop=");
                append_decimal(&mut text, *num as u64);
                text
            },
            HibouPreFilter::MaxProcessDepth(num) => {
                let mut text = String::from_str("MaxDepth=");
                append_decimal(&mut text, *num as u64);
                text
            },
            HibouPreFilter::MaxNodeNumber(num) => {
                let mut text = String::from_str("MaxNum=");
                append_decimal(&mut text, *num as u64);
                text
            },
        }
    }
}

/// The kind of limit that eliminated a node.
pub enum FilterEliminationKind {
    MaxLoopInstanciation,
    MaxProcessDepth,
    MaxNodeNumber,
}

impl FilterEliminationKind {
    /// The text that names the kind of limit.
    pub open spec fn description(self) -> Seq<char> {
        match self {
            FilterEliminationKind::MaxLoopInstanciation => "MaxLoop"@,
            FilterEliminationKind::MaxProcessDepth => "MaxDepth"@,
            FilterEliminationKind::MaxNodeNumber => "MaxNum"@,
        }
    }

    /// Names the kind of limit, as in `MaxDepth`.
    pub fn to_string(&self) -> (text: String)
        ensures
            text@ == self.description(),
    {
        match self {
            FilterEliminationKind::MaxLoopInstanciation => String::from_str("MaxLoop"),
            FilterEliminationKind::MaxProcessDepth => String::from_str("MaxDepth"),
            FilterEliminationKind::MaxNodeNumber => String::from_str("MaxNum"),
        }
    }
}

/// The order in which an exploration visits its nodes.
pub enum HibouSearchStrategy {
    BFS,
    DFS,
}

impl HibouSearchStrategy {
    /// The full name of the strategy.
    pub open spec fn description(self) -> Seq<char> {
        match self {
            HibouSearchStrategy::BFS => "Breadth First Search"@,
            HibouSearchStrategy::DFS => "Depth First Search"@,
        }
    }

    /// Names the strategy in full.
    pub fn to_string(&self) -> (text: String)
        ensures
            text@ == self.description(),
    {
        match self {
            HibouSearchStrategy::BFS => String::from_str("Breadth First Search"),
            HibouSearchStrategy::DFS => String::from_str("Depth First Search"),
        }
    }
}

/// The semantics against which a multi-trace is analysed: accepted as a
/// whole, or as a prefix of an accepted one.
pub enum SemanticKind {
    Accept,
    Prefix,
}

impl SemanticKind {
    /// The name of the semantics.
    pub open spec fn description(self) -> Seq<char> {
        match self {
            SemanticKind::Accept => "accept"@,
            SemanticKind::Prefix => "prefix"@,
        }
    }

    /// Names the semantics in lower case.
    pub fn to_string(&self) -> (text: String)
        ensures
            text@ == self.description(),
    {
        match self {
            SemanticKind::Accept => String::from_str("accept"),
            SemanticKind::Prefix => String::from_str("prefix"),
        }
    }
}

} // verus!
