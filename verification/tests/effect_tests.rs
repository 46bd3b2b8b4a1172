use unholy_force::effect_mechanics::{
    chain_step, AddTagNode, BranchNode, ChainStep, ConfigId, EffectControlFlow, EffectNode,
    EffectNodeId, EffectRegistry, EffectRoot, Holder, JoinNode, ValueSource, WaitTicksNode,
};

#[test]
fn add_tag_node_keeps_its_settings() {
    let holders = [Holder::Global, Holder::Caster, Holder::Target];
    for sign in [false, true] {
        for t in holders {
            for v in holders {
                let node = AddTagNode::new(sign, t, ConfigId::new(5), v, ConfigId::new(6), None);
                assert_eq!(node.sign_flipped(), sign);
                assert_eq!(node.tag_holder(), t);
                assert_eq!(node.value_holder(), v);
            }
        }
    }
}

#[test]
fn join_node_goes_on_or_completes() {
    assert_eq!(JoinNode::new(Some(EffectNodeId::new(3))).tick(), EffectControlFlow::AndThen(EffectNodeId(3)));
    assert_eq!(JoinNode::new(None).tick(), EffectControlFlow::Complete);
}

#[test]
fn value_source_names() {
    assert_eq!(ValueSource::Global.display_name(), "Глобальное");
    assert_eq!(ValueSource::Caster.display_name(), "Источник");
    assert_eq!(ValueSource::Target.display_name(), "Приёмник");
    assert_eq!(ValueSource::default(), ValueSource::Global);
}

#[test]
fn nodes_keep_their_fields() {
    let b = BranchNode::new(Holder::Target, ConfigId::new(1), Some(EffectNodeId::new(2)), None);
    assert_eq!(b.value_holder, Holder::Target);
    assert_eq!(b.then_node, Some(EffectNodeId(2)));
    assert_eq!(b.else_node, None);
    let w = WaitTicksNode::new(Holder::Caster, ConfigId::new(9), None);
    assert_eq!(w.tick_count_parameter_id, ConfigId::new(9));
}

#[test]
fn registry_keeps_the_first_root() {
    let mut registry = EffectRegistry::new();
    let first = EffectRoot::new(vec![EffectNode::JoinNode(JoinNode::new(None))], Some(EffectNodeId::new(0)), None, None);
    let second = EffectRoot::new(vec![], None, None, None);
    let id = ConfigId::new(42);
    assert!(registry.get_or_create_effect_root(ConfigId::new(1), None).is_none());
    let root = registry.get_or_create_effect_root(id, Some(first)).unwrap();
    assert_eq!(root.nodes.len(), 1);
    let root = registry.get_or_create_effect_root(id, Some(second)).unwrap();
    assert_eq!(root.nodes.len(), 1);
    assert_eq!(root.setup, Some(EffectNodeId(0)));
    assert!(registry.get_or_create_effect_root(id, None).is_some());
}

#[test]
fn effect_root_picks_the_node_to_run() {
    let nodes = vec![
        EffectNode::JoinNode(JoinNode::new(None)),
        EffectNode::JoinNode(JoinNode::new(Some(EffectNodeId::new(0)))),
    ];
    let root = EffectRoot::new(nodes, Some(EffectNodeId::new(1)), Some(EffectNodeId::new(0)), None);
    assert_eq!(root.node_to_tick(false, None), Some(0));
    assert_eq!(root.node_to_tick(false, Some(EffectNodeId::new(1))), Some(1));
    assert_eq!(root.node_to_tick(true, Some(EffectNodeId::new(1))), None);
    assert_eq!(root.setup_node(false), Some(1));
    assert_eq!(root.setup_node(true), None);
    assert_eq!(root.on_destroy_node(false), None);
    let idle = EffectRoot::new(vec![], None, None, None);
    assert_eq!(idle.node_to_tick(false, None), None);
}

#[test]
fn branch_node_follows_the_sign_of_its_condition() {
    let b = BranchNode::new(Holder::Target, ConfigId::new(1), Some(EffectNodeId::new(2)), Some(EffectNodeId::new(3)));
    assert_eq!(b.tick_with(Some(true)), EffectControlFlow::AndThen(EffectNodeId(2)));
    assert_eq!(b.tick_with(Some(false)), EffectControlFlow::AndThen(EffectNodeId(3)));
    assert_eq!(b.tick_with(None), EffectControlFlow::Complete);
    let half = BranchNode::new(Holder::Global, ConfigId::new(1), Some(EffectNodeId::new(2)), None);
    assert_eq!(half.tick_with(Some(false)), EffectControlFlow::Complete);
}

#[test]
fn wait_ticks_node_suspends_until_the_count_is_reached() {
    let w = WaitTicksNode::new(Holder::Caster, ConfigId::new(9), Some(EffectNodeId::new(4)));
    assert_eq!(w.tick_with(Some(true)), EffectControlFlow::Suspend);
    assert_eq!(w.tick_with(Some(false)), EffectControlFlow::AndThen(EffectNodeId(4)));
    assert_eq!(w.tick_with(None), EffectControlFlow::Complete);
}

#[test]
fn add_tag_node_goes_on_only_after_adding() {
    let node = AddTagNode::new(false, Holder::Target, ConfigId::new(5), Holder::Caster, ConfigId::new(6), Some(EffectNodeId::new(1)));
    assert_eq!(node.tick_with(true), EffectControlFlow::AndThen(EffectNodeId(1)));
    assert_eq!(node.tick_with(false), EffectControlFlow::Complete);
}

#[test]
fn chain_steps_follow_the_node_results() {
    let current = Some(EffectNodeId::new(7));
    assert_eq!(chain_step(current, EffectControlFlow::Complete), ChainStep::Destroy);
    assert_eq!(chain_step(current, EffectControlFlow::AndThen(EffectNodeId::new(8))), ChainStep::Run(EffectNodeId(8)));
    assert_eq!(chain_step(current, EffectControlFlow::Suspend), ChainStep::Resume(current));
    assert_eq!(chain_step(None, EffectControlFlow::Suspend), ChainStep::Resume(None));
}

#[test]
fn suspended_node_is_run_again_next_tick() {
    let nodes = vec![
        EffectNode::JoinNode(JoinNode::new(None)),
        EffectNode::JoinNode(JoinNode::new(None)),
    ];
    let root = EffectRoot::new(nodes, None, Some(EffectNodeId::new(0)), None);
    let current = Some(EffectNodeId::new(1));
    let ran = root.node_to_tick(false, current);
    let ChainStep::Resume(next) = chain_step(current, EffectControlFlow::Suspend) else {
        panic!("a suspended node stops the tick");
    };
    assert_eq!(root.node_to_tick(false, next), ran);
    assert_eq!(ran, Some(1));
}

#[test]
fn operators_take_their_operand_counts() {
    assert!(unholy_force::effect_mechanics::ParameterOperator::Plus.accepts_operands(1));
    assert!(!unholy_force::effect_mechanics::ParameterOperator::Minus.accepts_operands(0));
    assert!(!unholy_force::effect_mechanics::ParameterOperator::Mul.accepts_operands(1));
    assert!(unholy_force::effect_mechanics::ParameterOperator::Div.accepts_operands(3));
    assert!(unholy_force::effect_mechanics::ParameterOperator::Clamp.accepts_operands(3));
    assert!(!unholy_force::effect_mechanics::ParameterOperator::Clamp.accepts_operands(2));
    assert!(unholy_force::effect_mechanics::ParameterOperator::Min.accepts_operands(2));
    assert!(!unholy_force::effect_mechanics::ParameterOperator::Max.accepts_operands(3));
    assert!(unholy_force::effect_mechanics::ParameterOperator::Round.accepts_operands(1));
    assert!(!unholy_force::effect_mechanics::ParameterOperator::Rand.accepts_operands(1));
}
