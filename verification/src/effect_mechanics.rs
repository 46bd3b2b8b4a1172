use vstd::prelude::*;
use std::collections::HashMap;

verus! {

broadcast use vstd::std_specs::hash::group_hash_axioms;

/// Identifier of a configuration asset.
#[derive(Clone, Copy, Debug, PartialEq, Eq, Structural)]
pub struct ConfigId {
    pub uuid: u128,
}

impl ConfigId {
    pub fn new(uuid: u128) -> (res: Self)
        ensures
            res.uuid == uuid,
    {
        ConfigId { uuid }
    }
}

/// Identifier of a node inside an effect graph: its position in the graph's node list.
#[derive(Clone, Copy, Debug, PartialEq, Eq, Structural)]
pub struct EffectNodeId(pub u32);

impl EffectNodeId {
    pub fn new(id: u32) -> (res: Self)
        ensures
            res.0 == id,
    {
        EffectNodeId(id)
    }
}

/// Whose values an effect node reads or changes.
#[derive(Clone, Copy, Debug, PartialEq, Eq, Structural)]
pub enum Holder {
    Global,
    Caster,
    Target,
}

/// Where the values of an effect come from.
#[derive(Clone, Copy, Debug, PartialEq, Eq, Structural)]
pub enum ValueSource {
    Global,
    Caster,
    Target,
}

impl ValueSource {
    /// The name under which the editor shows the source.
    pub fn display_name(&self) -> (res: &'static str)
        ensures
            res@ == match self {
                ValueSource::Global => "Глобальное"@,
                ValueSource::Caster => "Источник"@,
                ValueSource::Target => "Приёмник"@,
            },
    {
        match self {
            ValueSource::Global => "Глобальное",
            ValueSource::Caster => "Источник",
            ValueSource::Target => "Приёмник",
        }
    }
}

impl Default for ValueSource {
    fn default() -> (res: Self)
        ensures
            res == ValueSource::Global,
    {
        ValueSource::Global
    }
}

/// How an effect ended.
pub enum EffectCompletionCause {
    Finished,
    Failed,
}

/// Builds the control flow values of an effect.
pub trait EffectFlowExt<T>: Sized {
    fn continue_execution(v: T) -> Self;

    fn complete_execution() -> Self;

    fn fail_execution() -> Self;
}

/// What an effect graph does after a node ran.
#[derive(Clone, Copy, Debug, PartialEq, Eq, Structural)]
pub enum EffectControlFlow {
    /// Wait for the next tick, then run the same node again.
    Suspend,
    /// Run the given node right away.
    AndThen(EffectNodeId),
    /// The effect is over.
    Complete,
}

/// The control flow that follows a node whose next node is `then_node`.
pub open spec fn continue_with(then_node: Option<EffectNodeId>) -> EffectControlFlow {
    match then_node {
        Some(id) => EffectControlFlow::AndThen(id),
        None => EffectControlFlow::Complete,
    }
}

/// An operator of a parameter's expression.
#[derive(Clone, Copy, Debug, PartialEq, Eq, Structural)]
pub enum ParameterOperator {
    Plus,
    Minus,
    Mul,
    Div,
    Clamp,
    Min,
    Max,
    Round,
    Rand,
}

/// Whether `op` can be applied to `count` operands.
pub open spec fn operand_count_ok(op: ParameterOperator, count: nat) -> bool {
    match op {
        ParameterOperator::Plus | ParameterOperator::Minus => count >= 1,
        ParameterOperator::Mul | ParameterOperator::Div => count >= 2,
        ParameterOperator::Clamp => count == 3,
        ParameterOperator::Min | ParameterOperator::Max | ParameterOperator::Rand => count == 2,
        ParameterOperator::Round => count == 1,
    }
}

impl ParameterOperator {
    /// Whether the operator can be applied to `count` operands: `+` and `-` to at least
    /// one, `*` and `/` to at least two, clamp to three, min, max and rand to two, round to
    /// one. An expression that breaks this has no value.
    pub fn accepts_operands(&self, count: usize) -> (res: bool)
        ensures
            res == operand_count_ok(*self, count as nat),
    {
        match self {
            ParameterOperator::Plus | ParameterOperator::Minus => count >= 1,
            ParameterOperator::Mul | ParameterOperator::Div => count >= 2,
            ParameterOperator::Clamp => count == 3,
            ParameterOperator::Min | ParameterOperator::Max | ParameterOperator::Rand => count == 2,
            ParameterOperator::Round => count == 1,
        }
    }
}

/// Marks the entity that holds the global values.
pub struct GlobalValuesHolder;

// ---------------------------------------------------------------------------
// Nodes.
// ---------------------------------------------------------------------------

/// Adds tags to a holder, counted by a parameter of another holder.
#[derive(Clone, Copy, Debug)]
pub struct AddTagNode {
    flags: u8,
    tag_config_id: ConfigId,
    value_parameter_id: ConfigId,
    then_node: Option<EffectNodeId>,
}

/// The holder that a two-bit code stands for.
pub open spec fn holder_of_code(code: u8) -> Holder {
    if code == 1 {
        Holder::Caster
    } else if code == 2 {
        Holder::Target
    } else {
        Holder::Global
    }
}

/// The two-bit code of a holder.
pub open spec fn code_of_holder(h: Holder) -> u8 {
    match h {
        Holder::Global => 0,
        Holder::Caster => 1,
        Holder::Target => 2,
    }
}

fn holder_code(h: Holder) -> (code: u8)
    ensures
        code == code_of_holder(h),
{
    match h {
        Holder::Global => 0,
        Holder::Caster => 1,
        Holder::Target => 2,
    }
}

fn holder_from_code(code: u8) -> (h: Holder)
    ensures
        h == holder_of_code(code),
{
    match code {
        1 => Holder::Caster,
        2 => Holder::Target,
        _ => Holder::Global,
    }
}

proof fn lemma_flags_decode(s: u8, t: u8, v: u8)
    requires
        s <= 1,
        t <= 2,
        v <= 2,
    ensures
        ((s | (t << 1u8) | (v << 3u8)) & 1u8 == 1u8) == (s == 1),
        ((s | (t << 1u8) | (v << 3u8)) & 6u8) >> 1u8 == t,
        ((s | (t << 1u8) | (v << 3u8)) & 24u8) >> 3u8 == v,
        (s | (t << 1u8) | (v << 3u8)) < 32,
{
    assert((s | (t << 1u8) | (v << 3u8)) < 32) by (bit_vector)
        requires
            s <= 1,
            t <= 2,
            v <= 2,
    ;
    assert(((s | (t << 1u8) | (v << 3u8)) & 1u8 == 1u8) == (s == 1)) by (bit_vector)
        requires
            s <= 1,
            t <= 2,
            v <= 2,
    ;
    assert(((s | (t << 1u8) | (v << 3u8)) & 6u8) >> 1u8 == t) by (bit_vector)
        requires
            s <= 1,
            t <= 2,
            v <= 2,
    ;
    assert(((s | (t << 1u8) | (v << 3u8)) & 24u8) >> 3u8 == v) by (bit_vector)
        requires
            s <= 1,
            t <= 2,
            v <= 2,
    ;
}

impl AddTagNode {
    /// The stored flags byte: the sign in bit 0, the tag holder's code in bits 1 and 2,
    /// the value holder's code in bits 3 and 4.
    pub closed spec fn spec_flags(&self) -> u8 {
        self.flags
    }

    /// The sign bit of the flags: the added amount is negated.
    pub closed spec fn spec_sign_flipped(&self) -> bool {
        self.flags & 1u8 == 1u8
    }

    /// Bits 1 and 2 of the flags: whose tags change.
    pub closed spec fn spec_tag_holder(&self) -> Holder {
        holder_of_code(((self.flags & 6u8) >> 1u8) as u8)
    }

    /// Bits 3 and 4 of the flags: whose parameter gives the amount.
    pub closed spec fn spec_value_holder(&self) -> Holder {
        holder_of_code(((self.flags & 24u8) >> 3u8) as u8)
    }

    pub closed spec fn spec_tag_config_id(&self) -> ConfigId {
        self.tag_config_id
    }

    pub closed spec fn spec_value_parameter_id(&self) -> ConfigId {
        self.value_parameter_id
    }

    pub closed spec fn spec_then_node(&self) -> Option<EffectNodeId> {
        self.then_node
    }

    /// The added amount is negated.
    pub fn sign_flipped(&self) -> (r: bool)
        ensures
            r == self.spec_sign_flipped(),
    {
        self.flags & 0b0000_0001 == 0b0000_0001
    }

    /// Whose tags change.
    pub fn tag_holder(&self) -> (r: Holder)
        ensures
            r == self.spec_tag_holder(),
    {
        holder_from_code((self.flags & 0b0000_0110) >> 1)
    }

    /// Whose parameter gives the amount of tags.
    pub fn value_holder(&self) -> (r: Holder)
        ensures
            r == self.spec_value_holder(),
    {
        holder_from_code((self.flags & 0b0001_1000) >> 3)
    }

    pub fn new(
        sign_flipped: bool,
        tag_holder: Holder,
        tag_config_id: ConfigId,
        value_holder: Holder,
        value_parameter_id: ConfigId,
        then_node: Option<EffectNodeId>,
    ) -> (res: Self)
        ensures
            res.spec_sign_flipped() == sign_flipped,
            res.spec_tag_holder() == tag_holder,
            res.spec_value_holder() == value_holder,
            res.spec_tag_config_id() == tag_config_id,
            res.spec_value_parameter_id() == value_parameter_id,
            res.spec_then_node() == then_node,
            res.spec_flags() == ((if sign_flipped {
                1u8
            } else {
                0u8
            }) | (code_of_holder(tag_holder) << 1u8) | (code_of_holder(value_holder) << 3u8)),
            res.spec_flags() < 32,
    {
        let sign: u8 = if sign_flipped {
            1
        } else {
            0
        };
        let t = holder_code(tag_holder);
        let v = holder_code(value_holder);
        let flags = sign | (t << 1u8) | (v << 3u8);
        proof {
            lemma_flags_decode(sign, t, v);
        }
        AddTagNode { flags, tag_config_id, value_parameter_id, then_node }
    }

    /// What the node does once the game world was asked to add the tags: it goes on with
    /// its next node where the tags were added, and ends the effect where they were not
    /// (a holder or the amount could not be found, or the target no longer exists).
    pub fn tick_with(&self, tags_added: bool) -> (res: EffectControlFlow)
        ensures
            res == if tags_added {
                continue_with(self.spec_then_node())
            } else {
                EffectControlFlow::Complete
            },
    {
        if !tags_added {
            return EffectControlFlow::Complete;
        }
        match self.then_node {
            Some(id) => EffectControlFlow::AndThen(id),
            None => EffectControlFlow::Complete,
        }
    }
}

/// Goes on with one of two nodes, by whether a parameter is positive.
#[derive(Clone, Copy, Debug)]
pub struct BranchNode {
    pub value_holder: Holder,
    pub condition_parameter_id: ConfigId,
    pub then_node: Option<EffectNodeId>,
    pub else_node: Option<EffectNodeId>,
}

impl BranchNode {
    pub fn new(
        value_holder: Holder,
        condition_parameter_id: ConfigId,
        then_node: Option<EffectNodeId>,
        else_node: Option<EffectNodeId>,
    ) -> (res: Self)
        ensures
            res.value_holder == value_holder,
            res.condition_parameter_id == condition_parameter_id,
            res.then_node == then_node,
            res.else_node == else_node,
    {
        BranchNode { value_holder, condition_parameter_id, then_node, else_node }
    }

    /// Where the branch goes, given whether its condition parameter is positive (`None`
    /// where the value could not be read): the `then` node on a positive value, the `else`
    /// node on zero or a negative one, the end of the effect where the chosen slot is empty
    /// or the value is missing.
    pub fn tick_with(&self, condition_positive: Option<bool>) -> (res: EffectControlFlow)
        ensures
            res == match condition_positive {
                None => EffectControlFlow::Complete,
                Some(true) => continue_with(self.then_node),
                Some(false) => continue_with(self.else_node),
            },
    {
        let next = match condition_positive {
            None => {
                return EffectControlFlow::Complete;
            },
            Some(true) => self.then_node,
            Some(false) => self.else_node,
        };
        match next {
            Some(id) => EffectControlFlow::AndThen(id),
            None => EffectControlFlow::Complete,
        }
    }
}

/// Joins branches of the graph: goes straight on with its next node.
#[derive(Clone, Copy, Debug)]
pub struct JoinNode {
    pub then_node: Option<EffectNodeId>,
}

impl JoinNode {
    pub fn new(then_node: Option<EffectNodeId>) -> (res: Self)
        ensures
            res.then_node == then_node,
    {
        JoinNode { then_node }
    }

    /// A join node always goes on with its next node, or completes the effect.
    pub fn tick(&self) -> (res: EffectControlFlow)
        ensures
            res == continue_with(self.then_node),
    {
        match self.then_node {
            Some(id) => EffectControlFlow::AndThen(id),
            None => EffectControlFlow::Complete,
        }
    }
}

/// Waits for a number of ticks given by a parameter.
#[derive(Clone, Copy, Debug)]
pub struct WaitTicksNode {
    pub value_source: Holder,
    pub tick_count_parameter_id: ConfigId,
    pub then_node: Option<EffectNodeId>,
}

impl WaitTicksNode {
    pub fn new(
        value_source: Holder,
        tick_count_parameter_id: ConfigId,
        then_node: Option<EffectNodeId>,
    ) -> (res: Self)
        ensures
            res.value_source == value_source,
            res.tick_count_parameter_id == tick_count_parameter_id,
            res.then_node == then_node,
    {
        WaitTicksNode { value_source, tick_count_parameter_id, then_node }
    }

    /// What the node does, given whether fewer ticks have passed than it waits for (`None`
    /// where the count or the node's counter could not be read): it waits for the next tick
    /// while the count is not reached, then goes on with its next node.
    pub fn tick_with(&self, still_waiting: Option<bool>) -> (res: EffectControlFlow)
        ensures
            res == match still_waiting {
                None => EffectControlFlow::Complete,
                Some(true) => EffectControlFlow::Suspend,
                Some(false) => continue_with(self.then_node),
            },
    {
        match still_waiting {
            None => EffectControlFlow::Complete,
            Some(true) => EffectControlFlow::Suspend,
            Some(false) => match self.then_node {
                Some(id) => EffectControlFlow::AndThen(id),
                None => EffectControlFlow::Complete,
            },
        }
    }
}

/// A node of an effect graph.
#[derive(Clone, Copy, Debug)]
pub enum EffectNode {
    AddTagNode(AddTagNode),
    BranchNode(BranchNode),
    JoinNode(JoinNode),
    WaitTicksNode(WaitTicksNode),
}

/// An effect graph: its nodes, and the nodes that start its setup, its ticks and its end.
#[derive(Clone, Debug)]
pub struct EffectRoot {
    pub nodes: Vec<EffectNode>,
    pub setup: Option<EffectNodeId>,
    pub tick: Option<EffectNodeId>,
    pub on_destroy: Option<EffectNodeId>,
}

impl EffectRoot {
    pub fn new(
        nodes: Vec<EffectNode>,
        setup: Option<EffectNodeId>,
        tick: Option<EffectNodeId>,
        on_destroy: Option<EffectNodeId>,
    ) -> (res: Self)
        ensures
            res.nodes@ == nodes@,
            res.setup == setup,
            res.tick == tick,
            res.on_destroy == on_destroy,
    {
        EffectRoot { nodes, setup, tick, on_destroy }
    }

    /// The node that a tick of the effect runs: the node that its chain stopped at, or, at
    /// the start of a tick, the node of the tick slot. `None`, where the effect completes
    /// at once: its context has expired, or there is no such node.
    pub fn node_to_tick(&self, context_expired: bool, current: Option<EffectNodeId>) -> (res: Option<usize>)
        requires
            !context_expired ==> match first_node_of_tick(*self, current) {
                Some(id) => id.0 < self.nodes@.len(),
                None => true,
            },
        ensures
            res == if context_expired {
                None
            } else {
                match first_node_of_tick(*self, current) {
                    Some(id) => Some(id.0 as usize),
                    None => None,
                }
            },
    {
        if context_expired {
            return None;
        }
        let start = match current {
            Some(id) => Some(id),
            None => self.tick,
        };
        match start {
            Some(id) => Some(id.0 as usize),
            None => None,
        }
    }

    /// The node that sets the effect up when it is created; `None` where the context has
    /// expired or the setup slot is empty.
    pub fn setup_node(&self, context_expired: bool) -> (res: Option<usize>)
        requires
            !context_expired ==> match self.setup {
                Some(id) => id.0 < self.nodes@.len(),
                None => true,
            },
        ensures
            res == if context_expired {
                None
            } else {
                match self.setup {
                    Some(id) => Some(id.0 as usize),
                    None => None,
                }
            },
    {
        if context_expired {
            return None;
        }
        match self.setup {
            Some(id) => Some(id.0 as usize),
            None => None,
        }
    }

    /// The node that cleans up after the effect when it completes; `None` where the
    /// context has expired or the slot is empty.
    pub fn on_destroy_node(&self, context_expired: bool) -> (res: Option<usize>)
        requires
            !context_expired ==> match self.on_destroy {
                Some(id) => id.0 < self.nodes@.len(),
                None => true,
            },
        ensures
            res == if context_expired {
                None
            } else {
                match self.on_destroy {
                    Some(id) => Some(id.0 as usize),
                    None => None,
                }
            },
    {
        if context_expired {
            return None;
        }
        match self.on_destroy {
            Some(id) => Some(id.0 as usize),
            None => None,
        }
    }
}

/// What the tick of an effect does after one of its nodes ran.
#[derive(Clone, Copy, Debug, PartialEq, Eq, Structural)]
pub enum ChainStep {
    /// Run this node at once, within the same tick.
    Run(EffectNodeId),
    /// Run the end slot of the graph and remove the effect.
    Destroy,
    /// Stop for this tick. The next tick starts at this node, or at the tick slot where
    /// there is none.
    Resume(Option<EffectNodeId>),
}

/// The step that follows a node, run as `current`, whose result was `result`.
pub open spec fn chain_step_spec(current: Option<EffectNodeId>, result: EffectControlFlow) -> ChainStep {
    match result {
        EffectControlFlow::Complete => ChainStep::Destroy,
        EffectControlFlow::AndThen(id) => ChainStep::Run(id),
        EffectControlFlow::Suspend => ChainStep::Resume(current),
    }
}

/// Decides how the tick of an effect goes on after the node `current` (`None` for the
/// node of the tick slot) gave `result`.
pub fn chain_step(current: Option<EffectNodeId>, result: EffectControlFlow) -> (res: ChainStep)
    ensures
        res == chain_step_spec(current, result),
{
    match result {
        EffectControlFlow::Complete => ChainStep::Destroy,
        EffectControlFlow::AndThen(id) => ChainStep::Run(id),
        EffectControlFlow::Suspend => ChainStep::Resume(current),
    }
}

/// Law: whatever node ran, a node that completes the effect destroys it, one that names
/// a next node runs that node at once, and one that suspends stops the tick where it is;
/// only a completed node destroys the effect.
pub proof fn lemma_chain_step_follows_the_result(current: Option<EffectNodeId>, result: EffectControlFlow)
    ensures
        (chain_step_spec(current, result) is Destroy) <==> (result is Complete),
        result matches EffectControlFlow::AndThen(id) ==> chain_step_spec(current, result) == ChainStep::Run(id),
        result is Suspend ==> chain_step_spec(current, result) == ChainStep::Resume(current),
        forall|other: Option<EffectNodeId>|
            !(result is Suspend) ==> #[trigger] chain_step_spec(other, result) == chain_step_spec(current, result),
{
}

/// The node that a tick of `root` runs first: the node the chain stopped at, or the node
/// of the tick slot.
pub open spec fn first_node_of_tick(root: EffectRoot, current: Option<EffectNodeId>) -> Option<EffectNodeId> {
    if current is Some {
        current
    } else {
        root.tick
    }
}

/// A node that asks to wait is run again first on the next tick of its effect, as long
/// as the context of the effect holds.
pub proof fn lemma_suspended_node_runs_again(root: EffectRoot, current: Option<EffectNodeId>)
    ensures
        chain_step_spec(current, EffectControlFlow::Suspend) matches ChainStep::Resume(next)
            && first_node_of_tick(root, next) == first_node_of_tick(root, current),
{
}

/// The effect graphs built so far, by the identifier of their configuration.
pub struct EffectRegistry {
    effect_roots: HashMap<u128, EffectRoot>,
}

impl View for EffectRegistry {
    type V = Map<u128, EffectRoot>;

    closed spec fn view(&self) -> Map<u128, EffectRoot> {
        self.effect_roots@
    }
}

impl EffectRegistry {
    pub fn new() -> (res: Self)
        ensures
            res@ == Map::<u128, EffectRoot>::empty(),
    {
        EffectRegistry { effect_roots: HashMap::new() }
    }

    /// The graph of the effect `effect_config_id`. A graph not built yet is taken from
    /// `configured_root`, what the configuration holds for that effect (`None` when the
    /// configuration has no such effect), and kept for later calls.
    pub fn get_or_create_effect_root(
        &mut self,
        effect_config_id: ConfigId,
        configured_root: Option<EffectRoot>,
    ) -> (res: Option<&EffectRoot>)
        ensures
            old(self)@.contains_key(effect_config_id.uuid) ==> final(self)@ == old(self)@,
            !old(self)@.contains_key(effect_config_id.uuid) ==> final(self)@ == match configured_root {
                Some(root) => old(self)@.insert(effect_config_id.uuid, root),
                None => old(self)@,
            },
            res is Some <==> final(self)@.contains_key(effect_config_id.uuid),
            res is Some ==> *res.unwrap() == final(self)@[effect_config_id.uuid],
    {
        if !self.effect_roots.contains_key(&effect_config_id.uuid) {
            match configured_root {
                None => {},
                Some(root) => {
                    self.effect_roots.insert(effect_config_id.uuid, root);
                },
            }
        }
        self.effect_roots.get(&effect_config_id.uuid)
    }
}

} // verus!
