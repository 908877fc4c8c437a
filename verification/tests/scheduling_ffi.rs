use raylet_rs::scheduling_ffi::{
    roundtrip_decision, LabelSelectorOperator, RayletLabelSelectorOp, RayletSchedulingDecision,
    SchedulingDecision,
};

#[test]
fn scheduling_roundtrip_sets_decision() {
    let decision = roundtrip_decision(42, 7);
    assert_eq!(decision.request_id, 42);
    assert_eq!(decision.selected_node_id, 7);
    assert_eq!(decision.is_feasible, 1);
    assert_eq!(decision.is_spillback, 0);
}

#[test]
fn decision_bytes_become_flags() {
    let raw = RayletSchedulingDecision { request_id: 3, selected_node_id: 4, is_feasible: 2, is_spillback: 0 };
    assert_eq!(
        raw.to_rust(),
        SchedulingDecision { request_id: 3, selected_node_id: 4, is_feasible: true, is_spillback: false }
    );
}

#[test]
fn selector_ops_convert() {
    assert_eq!(RayletLabelSelectorOp::Unspecified.to_rust(), LabelSelectorOperator::Unspecified);
    assert_eq!(RayletLabelSelectorOp::In.to_rust(), LabelSelectorOperator::In);
    assert_eq!(RayletLabelSelectorOp::NotIn.to_rust(), LabelSelectorOperator::NotIn);
}
