use bridge_engine::bidding::{
    Alternative, BidChoice, ChoiceSource, Chosen, Diagnostic, ImplicitPass, NoCandidate, NodeId, Rejected,
    ResolutionKind, Tried,
};
use bridge_engine::call::Call;

#[test]
fn bid_choice_accessors() {
    let one_club: Call = "1C".parse().unwrap();
    let chosen = BidChoice::Chosen(Chosen {
        call: one_club,
        node: Some(NodeId(7)),
        source: ChoiceSource::System,
        explanation: "opening".to_string(),
        alternatives: vec![Alternative { call: one_club, node: Some(NodeId(7)), priority: 10 }],
        diagnostics: vec![Diagnostic::UnsatisfiableNode { node: NodeId(3) }],
    });
    assert_eq!(chosen.call(), Some(one_club));
    assert!(chosen.is_chosen());
    let none = BidChoice::NoCandidate(NoCandidate {
        tried: vec![Tried { node: NodeId(1), call: Call::Pass, reason: Rejected::Unsatisfied }],
        diagnostics: Vec::new(),
    });
    assert_eq!(none.call(), None);
    assert!(!none.is_chosen());
}

#[test]
fn resolution_kinds_are_ordered_by_confidence() {
    assert!(ResolutionKind::Exact < ResolutionKind::Partial { matched_depth: 2 });
    assert!(ResolutionKind::Partial { matched_depth: 9 } < ResolutionKind::Natural);
    assert!(ResolutionKind::Natural < ResolutionKind::Fallback);
    assert_eq!(ImplicitPass::default(), ImplicitPass::Never);
}
