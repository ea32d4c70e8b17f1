use lib::process::hibou_process::MemorizedState;
use std::collections::HashSet;

#[test]
fn memorized_state_new_keeps_its_parts() {
    let ids: HashSet<u32> = [1, 4, 9].into_iter().collect();
    let s = MemorizedState::new("seq(a,b)".to_string(), Some(vec![1u8, 2]), ids.clone(), 3);
    assert_eq!(s.interaction, "seq(a,b)");
    assert_eq!(s.multi_trace, Some(vec![1u8, 2]));
    assert_eq!(s.remaining_ids_to_process, ids);
    assert_eq!(s.previous_loop_instanciations, 3);
}

#[test]
fn memorized_state_clone_is_equal() {
    let ids: HashSet<u32> = [2, 3].into_iter().collect();
    let s: MemorizedState<String, Vec<u8>> = MemorizedState::new("loop".to_string(), None, ids, 0);
    let c = s.clone();
    assert_eq!(c, s);
    assert!(c.multi_trace.is_none());
    assert_eq!(c.remaining_ids_to_process.len(), 2);
    assert!(c.remaining_ids_to_process.contains(&2));
    assert!(c.remaining_ids_to_process.contains(&3));
}
