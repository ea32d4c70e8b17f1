use lib::process::hibou_process::{
    FilterEliminationKind, HibouPreFilter, HibouSearchStrategy, SemanticKind,
};

#[test]
fn pre_filter_names_show_the_limit() {
    assert_eq!(HibouPreFilter::MaxLoopInstanciation(3).to_string(), "MaxLoop=3");
    assert_eq!(HibouPreFilter::MaxProcessDepth(120).to_string(), "MaxDepth=120");
    assert_eq!(HibouPreFilter::MaxNodeNumber(4096).to_string(), "MaxNum=4096");
}

#[test]
fn pre_filter_limits_match_decimal_formatting() {
    for n in [0u32, 1, 9, 10, 11, 99, 100, 1000, 65535, 1234567890, u32::MAX] {
        assert_eq!(HibouPreFilter::MaxLoopInstanciation(n).to_string(), format!("MaxLoop={}", n));
        assert_eq!(HibouPreFilter::MaxNodeNumber(n).to_string(), format!("MaxNum={}", n));
    }
    for n in [0usize, 7, 10, 305, usize::MAX] {
        assert_eq!(HibouPreFilter::MaxProcessDepth(n).to_string(), format!("MaxDepth={}", n));
    }
}

#[test]
fn elimination_kind_names() {
    assert_eq!(FilterEliminationKind::MaxLoopInstanciation.to_string(), "MaxLoop");
    assert_eq!(FilterEliminationKind::MaxProcessDepth.to_string(), "MaxDepth");
    assert_eq!(FilterEliminationKind::MaxNodeNumber.to_string(), "MaxNum");
}

#[test]
fn search_strategy_names() {
    assert_eq!(HibouSearchStrategy::BFS.to_string(), "Breadth First Search");
    assert_eq!(HibouSearchStrategy::DFS.to_string(), "Depth First Search");
}

#[test]
fn semantic_kind_names() {
    assert_eq!(SemanticKind::Accept.to_string(), "accept");
    assert_eq!(SemanticKind::Prefix.to_string(), "prefix");
}
