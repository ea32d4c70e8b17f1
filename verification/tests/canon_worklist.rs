use lib::canonize::process::{CanonStep, CanonWorklist, TransformationTarget};

#[test]
fn start_term_is_node_one_and_waits() {
    let mut w = CanonWorklist::new("init".to_string());
    assert_eq!(w.next_index(), 2);
    assert_eq!(w.phase(), 1);
    assert_eq!(w.term(1), "init");
    assert_eq!(w.known_id(&"init".to_string()), Some(1));
    assert_eq!(w.next_step(), CanonStep::Visit(1));
    w.finish_visit(0);
    assert_eq!(w.next_step(), CanonStep::EndOfPhase(1));
    assert_eq!(w.phase(), 2);
}

#[test]
fn new_terms_are_numbered_in_order_and_known_ones_reuse_their_node() {
    let mut w = CanonWorklist::new(10u64);
    assert_eq!(w.next_step(), CanonStep::Visit(1));
    assert_eq!(w.record_result(20), TransformationTarget::New(2));
    assert_eq!(w.record_result(30), TransformationTarget::New(3));
    assert_eq!(w.record_result(10), TransformationTarget::Known(1));
    assert_eq!(w.record_result(20), TransformationTarget::Known(2));
    w.finish_visit(4);
    assert_eq!(w.next_index(), 4);
    assert_eq!(*w.term(2), 20);
    assert_eq!(*w.term(3), 30);
    assert_eq!(w.known_id(&30), Some(3));
    assert_eq!(w.known_id(&40), None);
}

#[test]
fn recording_twice_gives_the_same_node() {
    let mut w = CanonWorklist::new(0u64);
    let first = w.record_result(5);
    let second = w.record_result(5);
    assert_eq!(first, TransformationTarget::New(2));
    assert_eq!(second, TransformationTarget::Known(2));
    assert_eq!(w.next_index(), 3);
}

#[test]
fn waiting_nodes_are_visited_last_in_first_out() {
    let mut w = CanonWorklist::new(1u64);
    assert_eq!(w.next_step(), CanonStep::Visit(1));
    w.record_result(2);
    w.record_result(3);
    w.finish_visit(2);
    assert_eq!(w.next_step(), CanonStep::Visit(3));
    w.finish_visit(1);
    assert_eq!(w.next_step(), CanonStep::Visit(2));
    w.finish_visit(1);
    assert_eq!(w.next_step(), CanonStep::EndOfPhase(1));
}

#[test]
fn finals_start_the_next_phase_with_their_numbers() {
    let mut w = CanonWorklist::new(1u64);
    assert_eq!(w.next_step(), CanonStep::Visit(1));
    w.record_result(2);
    w.record_result(3);
    w.finish_visit(2);
    assert_eq!(w.next_step(), CanonStep::Visit(3));
    w.finish_visit(0);
    assert_eq!(w.next_step(), CanonStep::Visit(2));
    w.finish_visit(0);
    assert_eq!(w.next_step(), CanonStep::EndOfPhase(1));
    // only the finals are known now: the start term is new again
    assert_eq!(w.known_id(&1), None);
    assert_eq!(w.known_id(&2), Some(2));
    assert_eq!(w.known_id(&3), Some(3));
    assert_eq!(w.next_step(), CanonStep::Visit(2));
    assert_eq!(w.record_result(1), TransformationTarget::New(4));
    assert_eq!(w.record_result(3), TransformationTarget::Known(3));
    w.finish_visit(2);
    assert_eq!(w.next_step(), CanonStep::Visit(4));
    w.finish_visit(0);
    assert_eq!(w.next_step(), CanonStep::Visit(3));
    w.finish_visit(0);
    assert_eq!(w.next_step(), CanonStep::EndOfPhase(2));
    assert_eq!(w.known_id(&2), None);
    assert_eq!(w.known_id(&1), Some(4));
}

#[test]
fn phases_end_in_order_then_done() {
    let mut w = CanonWorklist::new(7u64);
    assert_eq!(w.next_step(), CanonStep::Visit(1));
    w.finish_visit(0);
    assert_eq!(w.next_step(), CanonStep::EndOfPhase(1));
    assert_eq!(w.next_step(), CanonStep::Visit(1));
    w.finish_visit(0);
    assert_eq!(w.next_step(), CanonStep::EndOfPhase(2));
    assert_eq!(w.next_step(), CanonStep::Visit(1));
    w.finish_visit(0);
    assert_eq!(w.next_step(), CanonStep::EndOfPhase(3));
    assert_eq!(w.phase(), 4);
    assert_eq!(w.next_step(), CanonStep::Done);
    assert_eq!(w.next_step(), CanonStep::Done);
}

#[test]
fn a_phase_with_no_final_leaves_the_next_phases_empty() {
    // 1 -> 2 -> 1: every term has a rewriting, so nothing is final
    let mut w = CanonWorklist::new(1u64);
    assert_eq!(w.next_step(), CanonStep::Visit(1));
    assert_eq!(w.record_result(2), TransformationTarget::New(2));
    w.finish_visit(1);
    assert_eq!(w.next_step(), CanonStep::Visit(2));
    assert_eq!(w.record_result(1), TransformationTarget::Known(1));
    w.finish_visit(1);
    assert_eq!(w.next_step(), CanonStep::EndOfPhase(1));
    assert_eq!(w.next_step(), CanonStep::EndOfPhase(2));
    assert_eq!(w.next_step(), CanonStep::EndOfPhase(3));
    assert_eq!(w.next_step(), CanonStep::Done);
}

/// Runs the three phases the way the canonisation does, on a toy rewriting
/// system over numbers: phase k divides by 2, 3 and 5 in turn, and every
/// term reached gets exactly one node, visited once.
#[test]
fn three_phase_exploration_on_numbers() {
    let rules = |phase: u8, n: u64| -> Vec<u64> {
        let d = [2u64, 3, 5][(phase - 1) as usize];
        if n % d == 0 && n > 1 { vec![n / d] } else { vec![] }
    };
    let mut w = CanonWorklist::new(60u64);
    let mut edges = Vec::new();
    let mut visits = Vec::new();
    let mut ends = Vec::new();
    loop {
        match w.next_step() {
            CanonStep::Visit(id) => {
                visits.push(id);
                let results = rules(w.phase(), *w.term(id));
                let n = results.len();
                for r in results {
                    match w.record_result(r) {
                        TransformationTarget::Known(t) | TransformationTarget::New(t) => edges.push((id, t)),
                    }
                }
                w.finish_visit(n);
            },
            CanonStep::EndOfPhase(p) => ends.push(p),
            CanonStep::Done => break,
        }
    }
    // 60 -> 30 -> 15 (phase 1), 15 -> 5 (phase 2), 5 -> 1 (phase 3)
    assert_eq!(edges, vec![(1, 2), (2, 3), (3, 4), (4, 5)]);
    assert_eq!(visits, vec![1, 2, 3, 3, 4, 4, 5]);
    assert_eq!(ends, vec![1, 2, 3]);
    assert_eq!(*w.term(5), 1);
}

/// A phase whose rules branch and join: every reachable term is known once.
#[test]
fn branching_rules_reach_every_term_once() {
    // n -> n / 2 and n / 3 when divisible; from 12: 6, 4, 3, 2, 1
    let rules = |n: u64| -> Vec<u64> {
        let mut v = Vec::new();
        if n % 2 == 0 { v.push(n / 2); }
        if n % 3 == 0 { v.push(n / 3); }
        v
    };
    let mut w = CanonWorklist::new(12u64);
    let mut visits = Vec::new();
    while let CanonStep::Visit(id) = w.next_step() {
        visits.push(id);
        let results = rules(*w.term(id));
        let n = results.len();
        for r in results {
            w.record_result(r);
        }
        w.finish_visit(n);
    }
    assert_eq!(w.next_index(), 7);
    let mut terms: Vec<u64> = (1..7).map(|id| *w.term(id)).collect();
    terms.sort();
    assert_eq!(terms, vec![1, 2, 3, 4, 6, 12]);
    visits.sort();
    assert_eq!(visits, vec![1, 2, 3, 4, 5, 6]);
    // the only term with no rewriting, 1, is the only final: it alone is
    // known when phase 2 starts
    assert_eq!(w.next_step(), CanonStep::Visit(w.known_id(&1).unwrap()));
    assert_eq!(w.known_id(&12), None);
}

fn full_run(init: u64) -> Vec<(u8, u32, Vec<TransformationTarget>)> {
    let rules = |phase: u8, n: u64| -> Vec<u64> {
        let mut v = Vec::new();
        let d = [2u64, 3, 5][(phase - 1) as usize];
        if n % d == 0 && n > 1 { v.push(n / d); }
        if n > 7 && n % 2 == 1 { v.push(n - 1); }
        v
    };
    let mut w = CanonWorklist::new(init);
    let mut trace = Vec::new();
    loop {
        match w.next_step() {
            CanonStep::Visit(id) => {
                let phase = w.phase();
                let results = rules(phase, *w.term(id));
                let n = results.len();
                let targets: Vec<TransformationTarget> = results.into_iter().map(|r| w.record_result(r)).collect();
                trace.push((phase, id, targets));
                w.finish_visit(n);
            },
            CanonStep::EndOfPhase(_) => {},
            CanonStep::Done => break,
        }
    }
    trace
}

#[test]
fn equal_inputs_give_equal_runs() {
    let a = full_run(360);
    let b = full_run(360);
    assert!(!a.is_empty());
    assert_eq!(a, b);
}

#[test]
fn a_finite_phase_ends_with_each_node_visited_once() {
    let rules = |n: u64| -> Vec<u64> { if n > 0 { vec![n - 1, n / 2] } else { vec![] } };
    let mut w = CanonWorklist::new(20u64);
    let mut visits = Vec::new();
    while let CanonStep::Visit(id) = w.next_step() {
        visits.push(id);
        let results = rules(*w.term(id));
        let n = results.len();
        for r in results {
            w.record_result(r);
        }
        w.finish_visit(n);
    }
    // 0..=20 are the 21 reached terms
    assert_eq!(visits.len(), 21);
    let mut sorted = visits.clone();
    sorted.sort();
    sorted.dedup();
    assert_eq!(sorted.len(), 21);
}
