//! The dungeon and quest grammars of the interactive demo, the format of its
//! configuration, and the bookkeeping of a run taken one step at a time.

use vstd::prelude::*;
use vstd::std_specs::cmp::PartialEqSpecImpl;
use vstd::laws_eq::obeys_concrete_eq;
use crate::node::NodeData;
use crate::edge::EdgeData;
use crate::pattern::{Pattern, LocalId, Match, contains_node};
use crate::rule::{Rule, Replacement, ReplacementNode, ReplacementAction, Reconnection};
use crate::config::{RewriterConfig, SelectionStrategy, ApplicationMode};
use crate::graph::{Graph, GraphView, NodeId, EdgeId};
use crate::rewriter::{Rewriter, RewriteResult, StepResult, rewriting_done, candidates_of};
use crate::constraint::{ReachabilityConstraint, LockKeyConstraint, AcyclicConstraint};
use crate::observer::NoOpRewriteObserver;

verus! {

// ----- demo node and edge types -----

/// Node data of the demo grammars.
#[derive(Clone, PartialEq, Eq, Debug)]
pub enum DemoNode {
    Start,
    Room,
    Corridor,
    Key,
    Lock,
    Boss,
    Exit,
    Treasure,
    // Quest types
    Objective,
    SubObjective,
    Reward,
    Prerequisite,
}

/// The kinds of demo nodes.
#[derive(Clone, Copy, Debug)]
pub enum DemoKind {
    Start,
    Room,
    Corridor,
    Key,
    Lock,
    Boss,
    Exit,
    Treasure,
    Objective,
    SubObjective,
    Reward,
    Prerequisite,
}

impl DemoKind {
    /// A distinct number for each kind.
    pub open spec fn spec_code(self) -> u8 {
        match self {
            DemoKind::Start => 0,
            DemoKind::Room => 1,
            DemoKind::Corridor => 2,
            DemoKind::Key => 3,
            DemoKind::Lock => 4,
            DemoKind::Boss => 5,
            DemoKind::Exit => 6,
            DemoKind::Treasure => 7,
            DemoKind::Objective => 8,
            DemoKind::SubObjective => 9,
            DemoKind::Reward => 10,
            DemoKind::Prerequisite => 11,
        }
    }

    pub fn code(&self) -> (r: u8)
        ensures
            r == self.spec_code(),
    {
        match self {
            DemoKind::Start => 0,
            DemoKind::Room => 1,
            DemoKind::Corridor => 2,
            DemoKind::Key => 3,
            DemoKind::Lock => 4,
            DemoKind::Boss => 5,
            DemoKind::Exit => 6,
            DemoKind::Treasure => 7,
            DemoKind::Objective => 8,
            DemoKind::SubObjective => 9,
            DemoKind::Reward => 10,
            DemoKind::Prerequisite => 11,
        }
    }

    /// Kinds compare by value.
    pub proof fn lemma_eq_by_value()
        ensures
            obeys_concrete_eq::<DemoKind>(),
    {
        reveal(obeys_concrete_eq);
        assert forall|x: DemoKind, y: DemoKind| x.spec_code() == y.spec_code() <==> x == y by {
            match x {
                DemoKind::Start => {},
                DemoKind::Room => {},
                DemoKind::Corridor => {},
                DemoKind::Key => {},
                DemoKind::Lock => {},
                DemoKind::Boss => {},
                DemoKind::Exit => {},
                DemoKind::Treasure => {},
                DemoKind::Objective => {},
                DemoKind::SubObjective => {},
                DemoKind::Reward => {},
                DemoKind::Prerequisite => {},
            }
        }
    }
}

impl PartialEq for DemoKind {
    fn eq(&self, other: &Self) -> (r: bool) {
        self.code() == other.code()
    }
}

impl PartialEqSpecImpl for DemoKind {
    open spec fn obeys_eq_spec() -> bool {
        true
    }

    open spec fn eq_spec(&self, other: &Self) -> bool {
        self.spec_code() == other.spec_code()
    }
}

impl Eq for DemoKind {
}

impl NodeData for DemoNode {
    type Kind = DemoKind;

    /// The kind of each demo node: the variant of the same name.
    open spec fn spec_kind(&self) -> DemoKind {
        match self {
            DemoNode::Start => DemoKind::Start,
            DemoNode::Room => DemoKind::Room,
            DemoNode::Corridor => DemoKind::Corridor,
            DemoNode::Key => DemoKind::Key,
            DemoNode::Lock => DemoKind::Lock,
            DemoNode::Boss => DemoKind::Boss,
            DemoNode::Exit => DemoKind::Exit,
            DemoNode::Treasure => DemoKind::Treasure,
            DemoNode::Objective => DemoKind::Objective,
            DemoNode::SubObjective => DemoKind::SubObjective,
            DemoNode::Reward => DemoKind::Reward,
            DemoNode::Prerequisite => DemoKind::Prerequisite,
        }
    }

    fn kind(&self) -> (r: DemoKind)
        ensures
            r == self.spec_kind(),
    {
        match self {
            DemoNode::Start => DemoKind::Start,
            DemoNode::Room => DemoKind::Room,
            DemoNode::Corridor => DemoKind::Corridor,
            DemoNode::Key => DemoKind::Key,
            DemoNode::Lock => DemoKind::Lock,
            DemoNode::Boss => DemoKind::Boss,
            DemoNode::Exit => DemoKind::Exit,
            DemoNode::Treasure => DemoKind::Treasure,
            DemoNode::Objective => DemoKind::Objective,
            DemoNode::SubObjective => DemoKind::SubObjective,
            DemoNode::Reward => DemoKind::Reward,
            DemoNode::Prerequisite => DemoKind::Prerequisite,
        }
    }
}

impl DemoKind {
    /// The name the demo shows for a kind.
    pub open spec fn spec_label(self) -> &'static str {
        match self {
            DemoKind::Start => "start",
            DemoKind::Room => "room",
            DemoKind::Corridor => "corridor",
            DemoKind::Key => "key",
            DemoKind::Lock => "lock",
            DemoKind::Boss => "boss",
            DemoKind::Exit => "exit",
            DemoKind::Treasure => "treasure",
            DemoKind::Objective => "objective",
            DemoKind::SubObjective => "task",
            DemoKind::Reward => "reward",
            DemoKind::Prerequisite => "prereq",
        }
    }

    /// The name the demo shows for a kind.
    pub fn label(self) -> (r: &'static str)
        ensures
            r == self.spec_label(),
    {
        match self {
            DemoKind::Start => "start",
            DemoKind::Room => "room",
            DemoKind::Corridor => "corridor",
            DemoKind::Key => "key",
            DemoKind::Lock => "lock",
            DemoKind::Boss => "boss",
            DemoKind::Exit => "exit",
            DemoKind::Treasure => "treasure",
            DemoKind::Objective => "objective",
            DemoKind::SubObjective => "task",
            DemoKind::Reward => "reward",
            DemoKind::Prerequisite => "prereq",
        }
    }
}

/// Edge data of the demo grammars: every edge is a plain connection.
#[derive(Clone, PartialEq, Eq, Debug)]
pub struct DemoEdge;

impl EdgeData for DemoEdge {
    type Kind = u8;

    /// Every demo edge has kind 0.
    open spec fn spec_kind(&self) -> u8 {
        0
    }

    /// Every demo edge has kind 0.
    fn kind(&self) -> (r: u8)
        ensures
            r == 0,
    {
        0
    }
}

// ----- the grammars -----

/// The replacement node that keeps the matched node as it is.
pub open spec fn kept_node() -> ReplacementNode<DemoNode> {
    ReplacementNode { from_lhs: Some(LocalId(0)), action: ReplacementAction::Keep, data: None }
}

/// A new replacement node holding `d`.
pub open spec fn new_node(d: DemoNode) -> ReplacementNode<DemoNode> {
    ReplacementNode { from_lhs: None, action: ReplacementAction::Keep, data: Some(d) }
}

/// The replacement node that puts `d` in place of the matched node.
pub open spec fn replaced_by(d: DemoNode) -> ReplacementNode<DemoNode> {
    ReplacementNode { from_lhs: Some(LocalId(0)), action: ReplacementAction::Replace(d), data: None }
}

/// A replacement edge from replacement node `a` to replacement node `b`.
pub open spec fn link(a: usize, b: usize) -> (LocalId, LocalId, DemoEdge) {
    (LocalId(a), LocalId(b), DemoEdge)
}

/// The reconnection that keeps the matched node's edges on it.
pub open spec fn stays() -> Reconnection {
    Reconnection { from: LocalId(0), to: LocalId(0) }
}

/// `rule` is named `name`, has weight `weight`, matches one node of kind
/// `kind` and nothing else, and replaces it by exactly the given replacement
/// nodes, edges and reconnections.
pub open spec fn one_node_rule(
    rule: Rule<DemoNode, DemoEdge>,
    name: &'static str,
    weight: u32,
    kind: DemoKind,
    nodes: Seq<ReplacementNode<DemoNode>>,
    edges: Seq<(LocalId, LocalId, DemoEdge)>,
    recs: Seq<Reconnection>,
) -> bool {
    &&& rule.wf()
    &&& rule.name == name
    &&& rule.weight == weight
    &&& rule.lhs.nodes@.len() == 1
    &&& rule.lhs.nodes@[0].kind == kind
    &&& rule.lhs.edges@.len() == 0
    &&& rule.rhs.nodes@ == nodes
    &&& rule.rhs.edges@ == edges
    &&& rule.rhs.reconnections@ == recs
}

/// The dungeon grammar, rule by rule.
pub open spec fn dungeon_grammar(r: Seq<Rule<DemoNode, DemoEdge>>) -> bool {
    &&& r.len() == 5
    &&& one_node_rule(
        r[0],
        "start_expand",
        3,
        DemoKind::Start,
        seq![kept_node(), new_node(DemoNode::Room)],
        seq![link(0, 1)],
        seq![],
    )
    &&& one_node_rule(
        r[1],
        "expand_room",
        5,
        DemoKind::Room,
        seq![kept_node(), new_node(DemoNode::Room)],
        seq![link(0, 1)],
        seq![stays()],
    )
    &&& one_node_rule(
        r[2],
        "add_lock_key",
        1,
        DemoKind::Room,
        seq![kept_node(), new_node(DemoNode::Key), new_node(DemoNode::Lock), new_node(DemoNode::Room)],
        seq![link(0, 1), link(1, 2), link(2, 3)],
        seq![stays()],
    )
    &&& one_node_rule(
        r[3],
        "room_to_boss",
        1,
        DemoKind::Room,
        seq![replaced_by(DemoNode::Boss)],
        seq![],
        seq![stays()],
    )
    &&& one_node_rule(
        r[4],
        "boss_to_exit",
        2,
        DemoKind::Boss,
        seq![kept_node(), new_node(DemoNode::Exit)],
        seq![link(0, 1)],
        seq![stays()],
    )
}

/// The quest grammar, rule by rule.
pub open spec fn quest_grammar(r: Seq<Rule<DemoNode, DemoEdge>>) -> bool {
    &&& r.len() == 2
    &&& one_node_rule(
        r[0],
        "expand_objective",
        3,
        DemoKind::Objective,
        seq![kept_node(), new_node(DemoNode::SubObjective), new_node(DemoNode::Reward)],
        seq![link(0, 1), link(1, 2)],
        seq![stays()],
    )
    &&& one_node_rule(
        r[1],
        "add_prerequisite",
        2,
        DemoKind::SubObjective,
        seq![kept_node(), new_node(DemoNode::Prerequisite)],
        seq![link(1, 0)],
        seq![stays()],
    )
}

/// A pattern of one node of the given kind.
fn one_node_pattern(kind: DemoKind) -> (p: Pattern<DemoKind, u8>)
    ensures
        p.nodes@.len() == 1,
        p.nodes@[0].kind == kind,
        p.nodes@[0].id == LocalId(0),
        p.edges@.len() == 0,
{
    let mut lhs = Pattern::new();
    lhs.add_node(kind);
    lhs
}

/// The replacement node that keeps the matched node.
fn keep_matched() -> (r: ReplacementNode<DemoNode>)
    ensures
        r == kept_node(),
{
    ReplacementNode { from_lhs: Some(LocalId(0)), action: ReplacementAction::Keep, data: None }
}

/// A new replacement node holding `d`.
fn fresh(d: DemoNode) -> (r: ReplacementNode<DemoNode>)
    ensures
        r == new_node(d),
{
    ReplacementNode { from_lhs: None, action: ReplacementAction::Keep, data: Some(d) }
}

/// The reconnection that keeps the matched node's edges on it.
fn stay() -> (r: Reconnection)
    ensures
        r == stays(),
{
    Reconnection { from: LocalId(0), to: LocalId(0) }
}

/// The dungeon grammar: start expansion, room branching, lock and key,
/// boss, exit.
pub fn dungeon_rules() -> (r: Vec<Rule<DemoNode, DemoEdge>>)
    ensures
        dungeon_grammar(r@),
{
    let mut rules: Vec<Rule<DemoNode, DemoEdge>> = Vec::new();
    // Rule 1: Start -> Start + Room
    rules.push(Rule {
        lhs: one_node_pattern(DemoKind::Start),
        rhs: Replacement {
            nodes: vec![keep_matched(), fresh(DemoNode::Room)],
            edges: vec![(LocalId(0), LocalId(1), DemoEdge)],
            reconnections: vec![],
        },
        weight: 3,
        name: "start_expand",
    });
    // Rule 2: Room -> Room + Room (branch)
    rules.push(Rule {
        lhs: one_node_pattern(DemoKind::Room),
        rhs: Replacement {
            nodes: vec![keep_matched(), fresh(DemoNode::Room)],
            edges: vec![(LocalId(0), LocalId(1), DemoEdge)],
            reconnections: vec![stay()],
        },
        weight: 5,
        name: "expand_room",
    });
    // Rule 3: Room -> Room + Key + Lock + Room (lock-and-key)
    rules.push(Rule {
        lhs: one_node_pattern(DemoKind::Room),
        rhs: Replacement {
            nodes: vec![keep_matched(), fresh(DemoNode::Key), fresh(DemoNode::Lock), fresh(DemoNode::Room)],
            edges: vec![
                (LocalId(0), LocalId(1), DemoEdge),
                (LocalId(1), LocalId(2), DemoEdge),
                (LocalId(2), LocalId(3), DemoEdge),
            ],
            reconnections: vec![stay()],
        },
        weight: 1,
        name: "add_lock_key",
    });
    // Rule 4: Room -> Boss
    rules.push(Rule {
        lhs: one_node_pattern(DemoKind::Room),
        rhs: Replacement {
            nodes: vec![
                ReplacementNode {
                    from_lhs: Some(LocalId(0)),
                    action: ReplacementAction::Replace(DemoNode::Boss),
                    data: None,
                },
            ],
            edges: vec![],
            reconnections: vec![stay()],
        },
        weight: 1,
        name: "room_to_boss",
    });
    // Rule 5: Boss -> Boss + Exit
    rules.push(Rule {
        lhs: one_node_pattern(DemoKind::Boss),
        rhs: Replacement {
            nodes: vec![keep_matched(), fresh(DemoNode::Exit)],
            edges: vec![(LocalId(0), LocalId(1), DemoEdge)],
            reconnections: vec![stay()],
        },
        weight: 2,
        name: "boss_to_exit",
    });
    proof {
        assert(rules@[0].rhs.nodes@ =~= seq![kept_node(), new_node(DemoNode::Room)]);
        assert(rules@[0].rhs.edges@ =~= seq![link(0, 1)]);
        assert(rules@[0].rhs.reconnections@ =~= Seq::<Reconnection>::empty());
        assert(rules@[1].rhs.nodes@ =~= seq![kept_node(), new_node(DemoNode::Room)]);
        assert(rules@[1].rhs.edges@ =~= seq![link(0, 1)]);
        assert(rules@[1].rhs.reconnections@ =~= seq![stays()]);
        assert(rules@[2].rhs.nodes@ =~= seq![
            kept_node(),
            new_node(DemoNode::Key),
            new_node(DemoNode::Lock),
            new_node(DemoNode::Room),
        ]);
        assert(rules@[2].rhs.edges@ =~= seq![link(0, 1), link(1, 2), link(2, 3)]);
        assert(rules@[2].rhs.reconnections@ =~= seq![stays()]);
        assert(rules@[3].rhs.nodes@ =~= seq![replaced_by(DemoNode::Boss)]);
        assert(rules@[3].rhs.edges@ =~= Seq::<(LocalId, LocalId, DemoEdge)>::empty());
        assert(rules@[3].rhs.reconnections@ =~= seq![stays()]);
        assert(rules@[4].rhs.nodes@ =~= seq![kept_node(), new_node(DemoNode::Exit)]);
        assert(rules@[4].rhs.edges@ =~= seq![link(0, 1)]);
        assert(rules@[4].rhs.reconnections@ =~= seq![stays()]);
    }
    rules
}

/// The quest grammar: objectives grow tasks with rewards, tasks grow
/// prerequisites.
pub fn quest_rules() -> (r: Vec<Rule<DemoNode, DemoEdge>>)
    ensures
        quest_grammar(r@),
{
    let mut rules: Vec<Rule<DemoNode, DemoEdge>> = Vec::new();
    // Objective -> Objective + SubObjective + Reward
    rules.push(Rule {
        lhs: one_node_pattern(DemoKind::Objective),
        rhs: Replacement {
            nodes: vec![keep_matched(), fresh(DemoNode::SubObjective), fresh(DemoNode::Reward)],
            edges: vec![(LocalId(0), LocalId(1), DemoEdge), (LocalId(1), LocalId(2), DemoEdge)],
            reconnections: vec![stay()],
        },
        weight: 3,
        name: "expand_objective",
    });
    // SubObjective -> SubObjective + Prerequisite
    rules.push(Rule {
        lhs: one_node_pattern(DemoKind::SubObjective),
        rhs: Replacement {
            nodes: vec![keep_matched(), fresh(DemoNode::Prerequisite)],
            edges: vec![(LocalId(1), LocalId(0), DemoEdge)],
            reconnections: vec![stay()],
        },
        weight: 2,
        name: "add_prerequisite",
    });
    proof {
        assert(rules@[0].rhs.nodes@ =~= seq![
            kept_node(),
            new_node(DemoNode::SubObjective),
            new_node(DemoNode::Reward),
        ]);
        assert(rules@[0].rhs.edges@ =~= seq![link(0, 1), link(1, 2)]);
        assert(rules@[0].rhs.reconnections@ =~= seq![stays()]);
        assert(rules@[1].rhs.nodes@ =~= seq![kept_node(), new_node(DemoNode::Prerequisite)]);
        assert(rules@[1].rhs.edges@ =~= seq![link(1, 0)]);
        assert(rules@[1].rhs.reconnections@ =~= seq![stays()]);
    }
    rules
}

// ----- reading the configuration -----

/// The first position at or after `i` where `pat` occurs in `s`.
pub open spec fn first_from(s: Seq<u8>, pat: Seq<u8>, i: int) -> Option<int>
    decreases s.len() - i,
{
    if i < 0 || i + pat.len() > s.len() {
        None
    } else if pat.len() == 0 || s.subrange(i, i + pat.len()) == pat {
        Some(i)
    } else {
        first_from(s, pat, i + 1)
    }
}

/// Whether `pat` occurs in `s` at position `i`.
fn occurs_at(s: &[u8], pat: &[u8], i: usize) -> (r: bool)
    requires
        i + pat@.len() <= s@.len(),
    ensures
        r == (s@.subrange(i as int, i + pat@.len()) == pat@),
{
    let n = s.len();
    let mut k: usize = 0;
    while k < pat.len()
        invariant
            n == s@.len(),
            i + pat@.len() <= s@.len(),
            0 <= k <= pat@.len(),
            forall|t: int| 0 <= t < k ==> s@[i + t] == pat@[t],
        decreases pat@.len() - k,
    {
        if s[i + k] != pat[k] {
            proof {
                assert(s@.subrange(i as int, i + pat@.len())[k as int] != pat@[k as int]);
            }
            return false;
        }
        k = k + 1;
    }
    proof {
        assert(s@.subrange(i as int, i + pat@.len()) =~= pat@);
    }
    true
}

/// The first position at or after `from` where `pat` occurs in `s`.
pub fn find_from(s: &[u8], pat: &[u8], from: usize) -> (r: Option<usize>)
    ensures
        r is Some <==> first_from(s@, pat@, from as int) is Some,
        r matches Some(k) ==> first_from(s@, pat@, from as int) == Some(k as int),
{
    let mut i: usize = from;
    while i <= s.len() && pat.len() <= s.len() - i
        invariant
            from <= i,
            first_from(s@, pat@, from as int) == first_from(s@, pat@, i as int),
        decreases s@.len() + 1 - i,
    {
        if pat.len() == 0 || occurs_at(s, pat, i) {
            return Some(i);
        }
        i = i + 1;
    }
    None
}

pub open spec fn is_digit(b: u8) -> bool {
    48 <= b <= 57
}

/// The first position at or after `i` holding a digit, or the end.
pub open spec fn first_digit_from(s: Seq<u8>, i: int) -> int
    decreases s.len() - i,
{
    if i >= s.len() || i < 0 || is_digit(s[i]) {
        i
    } else {
        first_digit_from(s, i + 1)
    }
}

/// The first position at or after `i` not holding a digit, or the end.
pub open spec fn digits_end(s: Seq<u8>, i: int) -> int
    decreases s.len() - i,
{
    if i >= s.len() || i < 0 || !is_digit(s[i]) {
        i
    } else {
        digits_end(s, i + 1)
    }
}

/// The number the decimal digits `d` spell.
pub open spec fn digits_value(d: Seq<u8>) -> nat
    decreases d.len(),
{
    if d.len() == 0 {
        0
    } else {
        digits_value(d.drop_last()) * 10 + (d.last() - 48) as nat
    }
}

/// Parsing the digits `d` as a `u64`, zero when there are none or they do
/// not fit.
pub open spec fn parsed_or_zero(d: Seq<u8>) -> u64 {
    if d.len() > 0 && digits_value(d) <= u64::MAX {
        digits_value(d) as u64
    } else {
        0
    }
}

/// Length of the white-space character `s` starts with at `i` (UTF-8),
/// zero when there is none.
pub open spec fn space_len(s: Seq<u8>, i: int) -> nat {
    if i < 0 || i >= s.len() {
        0
    } else if (9 <= s[i] <= 13) || s[i] == 32 {
        1
    } else if i + 1 < s.len() && s[i] == 0xC2 && (s[i + 1] == 0x85 || s[i + 1] == 0xA0) {
        2
    } else if i + 2 < s.len() && ((s[i] == 0xE1 && s[i + 1] == 0x9A && s[i + 2] == 0x80) || (s[i]
        == 0xE2 && s[i + 1] == 0x80 && ((0x80 <= s[i + 2] <= 0x8A) || s[i + 2] == 0xA8 || s[i + 2]
        == 0xA9 || s[i + 2] == 0xAF)) || (s[i] == 0xE2 && s[i + 1] == 0x81 && s[i + 2] == 0x9F) || (s[i]
        == 0xE3 && s[i + 1] == 0x80 && s[i + 2] == 0x80)) {
        3
    } else {
        0
    }
}

/// The first position at or after `i` that does not start a white-space
/// character.
pub open spec fn skip_space(s: Seq<u8>, i: int) -> int
    decreases s.len() - i,
{
    if i < 0 || i >= s.len() || space_len(s, i) == 0 {
        i
    } else {
        skip_space(s, i + space_len(s, i))
    }
}

pub open spec fn quoted(key: Seq<u8>) -> Seq<u8> {
    seq![34u8] + key + seq![34u8]
}

/// Where the value of `key` starts: just after its quoted name and one
/// more character (the colon).
pub open spec fn value_start(json: Seq<u8>, key: Seq<u8>) -> Option<int> {
    match first_from(json, quoted(key), 0) {
        Some(pos) => Some(pos + key.len() + 3),
        None => None,
    }
}

/// A position where a string may be cut: inside it or at its end, and not
/// in the middle of a UTF-8 character.
pub open spec fn cut_ok(s: Seq<u8>, i: int) -> bool {
    0 <= i <= s.len() && (i == s.len() || !(0x80 <= s[i] <= 0xBF))
}

/// The value of `key` can be cut out of `json`.
pub open spec fn key_readable(json: Seq<u8>, key: Seq<u8>) -> bool {
    match value_start(json, key) {
        Some(a) => cut_ok(json, a),
        None => true,
    }
}

/// The text between the first two double quotes after the key, empty when
/// the key or either quote is missing.
pub open spec fn config_str(json: Seq<u8>, key: Seq<u8>) -> Seq<u8> {
    match value_start(json, key) {
        None => Seq::empty(),
        Some(a) => match first_from(json, seq![34u8], a) {
            None => Seq::empty(),
            Some(st) => match first_from(json, seq![34u8], st + 1) {
                None => Seq::empty(),
                Some(end) => json.subrange(st + 1, end),
            },
        },
    }
}

/// The first run of digits after the key as a `u64`; zero when the key is
/// missing, there are no digits, or they do not fit.
pub open spec fn config_num(json: Seq<u8>, key: Seq<u8>) -> u64 {
    match value_start(json, key) {
        None => 0,
        Some(a) => {
            let d = first_digit_from(json, a);
            parsed_or_zero(json.subrange(d, digits_end(json, d)))
        },
    }
}

/// Whether the value after the key, white space skipped, starts with
/// `true`; `true` when the key is missing.
pub open spec fn config_bool(json: Seq<u8>, key: Seq<u8>) -> bool {
    match value_start(json, key) {
        None => true,
        Some(a) => {
            let t = skip_space(json, a);
            t + 4 <= json.len() && json.subrange(t, t + 4) == seq![116u8, 114u8, 117u8, 101u8]
        },
    }
}

// ----- the keys of the configuration -----

/// `seed`, in ASCII.
pub open spec fn key_seed() -> Seq<u8> {
    seq![115u8, 101u8, 101u8, 100u8]
}

/// `mode`, in ASCII.
pub open spec fn key_mode() -> Seq<u8> {
    seq![109u8, 111u8, 100u8, 101u8]
}

/// `max_steps`, in ASCII.
pub open spec fn key_max_steps() -> Seq<u8> {
    seq![109u8, 97u8, 120u8, 95u8, 115u8, 116u8, 101u8, 112u8, 115u8]
}

/// `strategy`, in ASCII.
pub open spec fn key_strategy() -> Seq<u8> {
    seq![115u8, 116u8, 114u8, 97u8, 116u8, 101u8, 103u8, 121u8]
}

/// `lock_key`, in ASCII.
pub open spec fn key_lock_key() -> Seq<u8> {
    seq![108u8, 111u8, 99u8, 107u8, 95u8, 107u8, 101u8, 121u8]
}

/// `reachability`, in ASCII.
pub open spec fn key_reachability() -> Seq<u8> {
    seq![114u8, 101u8, 97u8, 99u8, 104u8, 97u8, 98u8, 105u8, 108u8, 105u8, 116u8, 121u8]
}

/// `acyclic`, in ASCII.
pub open spec fn key_acyclic() -> Seq<u8> {
    seq![97u8, 99u8, 121u8, 99u8, 108u8, 105u8, 99u8]
}

fn seed_key() -> (r: Vec<u8>)
    ensures
        r@ == key_seed(),
{
    let r = vec![115u8, 101u8, 101u8, 100u8];
    assert(r@ =~= key_seed());
    r
}

fn mode_key() -> (r: Vec<u8>)
    ensures
        r@ == key_mode(),
{
    let r = vec![109u8, 111u8, 100u8, 101u8];
    assert(r@ =~= key_mode());
    r
}

fn max_steps_key() -> (r: Vec<u8>)
    ensures
        r@ == key_max_steps(),
{
    let r = vec![109u8, 97u8, 120u8, 95u8, 115u8, 116u8, 101u8, 112u8, 115u8];
    assert(r@ =~= key_max_steps());
    r
}

fn strategy_key() -> (r: Vec<u8>)
    ensures
        r@ == key_strategy(),
{
    let r = vec![115u8, 116u8, 114u8, 97u8, 116u8, 101u8, 103u8, 121u8];
    assert(r@ =~= key_strategy());
    r
}

fn lock_key_key() -> (r: Vec<u8>)
    ensures
        r@ == key_lock_key(),
{
    let r = vec![108u8, 111u8, 99u8, 107u8, 95u8, 107u8, 101u8, 121u8];
    assert(r@ =~= key_lock_key());
    r
}

fn reachability_key() -> (r: Vec<u8>)
    ensures
        r@ == key_reachability(),
{
    let r = vec![114u8, 101u8, 97u8, 99u8, 104u8, 97u8, 98u8, 105u8, 108u8, 105u8, 116u8, 121u8];
    assert(r@ =~= key_reachability());
    r
}

fn acyclic_key() -> (r: Vec<u8>)
    ensures
        r@ == key_acyclic(),
{
    let r = vec![97u8, 99u8, 121u8, 99u8, 108u8, 105u8, 99u8];
    assert(r@ =~= key_acyclic());
    r
}

// ----- reading values -----

fn quoted_key(key: &Vec<u8>) -> (r: Vec<u8>)
    ensures
        r@ == quoted(key@),
{
    let mut r: Vec<u8> = Vec::new();
    r.push(34u8);
    let mut i: usize = 0;
    while i < key.len()
        invariant
            0 <= i <= key@.len(),
            r@ == seq![34u8] + key@.take(i as int),
        decreases key@.len() - i,
    {
        proof {
            assert(key@.take(i + 1) =~= key@.take(i as int).push(key@[i as int]));
        }
        r.push(key[i]);
        proof {
            assert(r@ =~= seq![34u8] + key@.take(i + 1));
        }
        i = i + 1;
    }
    r.push(34u8);
    proof {
        assert(key@.take(key@.len() as int) =~= key@);
        assert(r@ =~= quoted(key@));
    }
    r
}

proof fn lemma_first_from_bounds(s: Seq<u8>, pat: Seq<u8>, i: int)
    ensures
        first_from(s, pat, i) matches Some(k) ==> i <= k && k + pat.len() <= s.len(),
    decreases s.len() - i,
{
    if !(i < 0 || i + pat.len() > s.len()) && !(pat.len() == 0 || s.subrange(i, i + pat.len()) == pat) {
        lemma_first_from_bounds(s, pat, i + 1);
    }
}

/// Where the value of `key` starts in `json`, if the key occurs.
fn value_start_of(json: &[u8], key: &Vec<u8>) -> (r: Option<usize>)
    requires
        json@.len() < usize::MAX,
    ensures
        r is Some <==> value_start(json@, key@) is Some,
        r matches Some(a) ==> value_start(json@, key@) == Some(a as int),
{
    let q = quoted_key(key);
    let found = find_from(json, q.as_slice(), 0);
    proof {
        lemma_first_from_bounds(json@, q@, 0);
    }
    match found {
        Some(pos) => Some(pos + key.len() + 3),
        None => None,
    }
}

/// The text between the first two double quotes after the key.
fn read_str(json: &[u8], key: &Vec<u8>) -> (r: Vec<u8>)
    requires
        json@.len() < usize::MAX,
        key_readable(json@, key@),
    ensures
        r@ == config_str(json@, key@),
{
    let quote = vec![34u8];
    proof {
        assert(quote@ =~= seq![34u8]);
    }
    match value_start_of(json, key) {
        None => Vec::new(),
        Some(a) => match find_from(json, quote.as_slice(), a) {
            None => Vec::new(),
            Some(st) => {
                proof {
                    lemma_first_from_bounds(json@, quote@, a as int);
                }
                match find_from(json, quote.as_slice(), st + 1) {
                    None => Vec::new(),
                    Some(end) => {
                        proof {
                            lemma_first_from_bounds(json@, quote@, st + 1);
                        }
                        let mut r: Vec<u8> = Vec::new();
                        let mut i: usize = st + 1;
                        while i < end
                            invariant
                                st + 1 <= i <= end,
                                end <= json@.len(),
                                r@ == json@.subrange(st + 1, i as int),
                            decreases end - i,
                        {
                            r.push(json[i]);
                            proof {
                                assert(r@ =~= json@.subrange(st + 1, i + 1));
                            }
                            i = i + 1;
                        }
                        r
                    },
                }
            },
        },
    }
}

/// The first run of digits after the key, as a `u64`; zero when there is
/// none or it does not fit.
#[verifier::spinoff_prover]
fn read_num(json: &[u8], key: &Vec<u8>) -> (r: u64)
    requires
        json@.len() < usize::MAX,
        key_readable(json@, key@),
    ensures
        r == config_num(json@, key@),
{
    match value_start_of(json, key) {
        None => 0,
        Some(a) => {
            let mut d: usize = a;
            proof {
                assert(cut_ok(json@, a as int));
            }
            while d < json.len() && !(48 <= json[d] && json[d] <= 57)
                invariant
                    a <= d <= json@.len(),
                    first_digit_from(json@, a as int) == first_digit_from(json@, d as int),
                decreases json@.len() - d,
            {
                d = d + 1;
            }
            let mut e: usize = d;
            let mut value: u64 = 0;
            let mut fits = true;
            proof {
                assert(json@.subrange(d as int, d as int) =~= Seq::<u8>::empty());
            }
            while e < json.len() && 48 <= json[e] && json[e] <= 57
                invariant
                    d <= e <= json@.len(),
                    digits_end(json@, d as int) == digits_end(json@, e as int),
                    fits ==> value == digits_value(json@.subrange(d as int, e as int)),
                    !fits ==> digits_value(json@.subrange(d as int, e as int)) > u64::MAX,
                decreases json@.len() - e,
            {
                let digit: u64 = (json[e] - 48) as u64;
                proof {
                    let sub = json@.subrange(d as int, e + 1);
                    assert(sub.drop_last() =~= json@.subrange(d as int, e as int));
                    assert(sub.last() == json@[e as int]);
                }
                if fits {
                    match value.checked_mul(10) {
                        Some(t) => match t.checked_add(digit) {
                            Some(v) => {
                                value = v;
                            },
                            None => {
                                fits = false;
                            },
                        },
                        None => {
                            fits = false;
                        },
                    }
                }
                e = e + 1;
            }
            if fits && e > d {
                value
            } else {
                0
            }
        },
    }
}

/// The number of bytes of the white-space character at `i`, zero when
/// there is none.
fn space_len_at(s: &[u8], i: usize) -> (r: usize)
    ensures
        r == space_len(s@, i as int),
{
    let n = s.len();
    if i >= n {
        return 0;
    }
    let b = s[i];
    if (9 <= b && b <= 13) || b == 32 {
        return 1;
    }
    if i + 1 < n && b == 0xC2 && (s[i + 1] == 0x85 || s[i + 1] == 0xA0) {
        return 2;
    }
    if n - i > 2 {
        let b1 = s[i + 1];
        let b2 = s[i + 2];
        if (b == 0xE1 && b1 == 0x9A && b2 == 0x80) || (b == 0xE2 && b1 == 0x80 && ((0x80 <= b2
            && b2 <= 0x8A) || b2 == 0xA8 || b2 == 0xA9 || b2 == 0xAF)) || (b == 0xE2 && b1 == 0x81
            && b2 == 0x9F) || (b == 0xE3 && b1 == 0x80 && b2 == 0x80) {
            return 3;
        }
    }
    0
}

/// Whether the value after the key, white space skipped, starts with
/// `true`; `true` when the key is missing.
fn read_bool(json: &[u8], key: &Vec<u8>) -> (r: bool)
    requires
        json@.len() < usize::MAX,
        key_readable(json@, key@),
    ensures
        r == config_bool(json@, key@),
{
    match value_start_of(json, key) {
        None => true,
        Some(a) => {
            let mut t: usize = a;
            proof {
                assert(cut_ok(json@, a as int));
            }
            let mut l = space_len_at(json, t);
            while l > 0
                invariant
                    a <= t <= json@.len(),
                    json@.len() < usize::MAX,
                    l == space_len(json@, t as int),
                    skip_space(json@, a as int) == skip_space(json@, t as int),
                decreases json@.len() - t,
            {
                t = t + l;
                l = space_len_at(json, t);
            }
            if t <= json.len() && 4 <= json.len() - t {
                let ok = json[t] == 116 && json[t + 1] == 114 && json[t + 2] == 117 && json[t + 3] == 101;
                proof {
                    let w = json@.subrange(t as int, t + 4);
                    if ok {
                        assert(w =~= seq![116u8, 114u8, 117u8, 101u8]);
                    } else {
                        if w == seq![116u8, 114u8, 117u8, 101u8] {
                            assert(w[0] == 116u8 && w[1] == 114u8 && w[2] == 117u8 && w[3] == 101u8);
                        }
                    }
                }
                ok
            } else {
                false
            }
        },
    }
}

// ----- the configuration -----

/// Settings of a demo run, as read from its JSON text.
pub struct DemoConfig {
    pub seed: u64,
    pub mode: Vec<u8>,
    pub max_steps: usize,
    pub strategy: Vec<u8>,
    pub lock_key: bool,
    pub reachability: bool,
    pub acyclic: bool,
}

/// Every key's value can be cut out of `json`.
pub open spec fn config_readable(json: Seq<u8>) -> bool {
    &&& json.len() < usize::MAX
    &&& key_readable(json, key_seed())
    &&& key_readable(json, key_mode())
    &&& key_readable(json, key_max_steps())
    &&& key_readable(json, key_strategy())
    &&& key_readable(json, key_lock_key())
    &&& key_readable(json, key_reachability())
    &&& key_readable(json, key_acyclic())
}

fn key_readable_in(json: &[u8], key: &Vec<u8>) -> (r: bool)
    requires
        json@.len() < usize::MAX,
    ensures
        r == key_readable(json@, key@),
{
    match value_start_of(json, key) {
        None => true,
        Some(a) => a <= json.len() && (a == json.len() || !(0x80 <= json[a] && json[a] <= 0xBF)),
    }
}

/// Whether every key's value can be cut out of `json` (reading a value
/// that starts past the end or inside a UTF-8 character is refused).
pub fn is_config_readable(json: &[u8]) -> (r: bool)
    ensures
        r == config_readable(json@),
{
    if json.len() == usize::MAX {
        return false;
    }
    key_readable_in(json, &seed_key()) && key_readable_in(json, &mode_key()) && key_readable_in(
        json,
        &max_steps_key(),
    ) && key_readable_in(json, &strategy_key()) && key_readable_in(json, &lock_key_key())
        && key_readable_in(json, &reachability_key()) && key_readable_in(json, &acyclic_key())
}

/// Read the demo settings out of a JSON text, by plain text search.
#[verifier::spinoff_prover]
pub fn parse_config(json: &[u8]) -> (r: DemoConfig)
    requires
        config_readable(json@),
    ensures
        r.seed == config_num(json@, key_seed()),
        r.mode@ == config_str(json@, key_mode()),
        r.max_steps == config_num(json@, key_max_steps()) as usize,
        r.strategy@ == config_str(json@, key_strategy()),
        r.lock_key == config_bool(json@, key_lock_key()),
        r.reachability == config_bool(json@, key_reachability()),
        r.acyclic == config_bool(json@, key_acyclic()),
{
    let max_steps = read_num(json, &max_steps_key());
    DemoConfig {
        seed: read_num(json, &seed_key()),
        mode: read_str(json, &mode_key()),
        max_steps: max_steps as usize,
        strategy: read_str(json, &strategy_key()),
        lock_key: read_bool(json, &lock_key_key()),
        reachability: read_bool(json, &reachability_key()),
        acyclic: read_bool(json, &acyclic_key()),
    }
}

/// Whether two byte strings are equal.
fn bytes_equal(a: &[u8], b: &[u8]) -> (r: bool)
    ensures
        r == (a@ == b@),
{
    if a.len() != b.len() {
        return false;
    }
    let mut i: usize = 0;
    while i < a.len()
        invariant
            a@.len() == b@.len(),
            0 <= i <= a@.len(),
            forall|t: int| 0 <= t < i ==> a@[t] == b@[t],
        decreases a@.len() - i,
    {
        if a[i] != b[i] {
            return false;
        }
        i = i + 1;
    }
    proof {
        assert(a@ =~= b@);
    }
    true
}

/// `quest`, in ASCII.
pub open spec fn quest_mode() -> Seq<u8> {
    seq![113u8, 117u8, 101u8, 115u8, 116u8]
}

/// `first`, in ASCII.
pub open spec fn first_name() -> Seq<u8> {
    seq![102u8, 105u8, 114u8, 115u8, 116u8]
}

/// `parallel`, in ASCII.
pub open spec fn parallel_name() -> Seq<u8> {
    seq![112u8, 97u8, 114u8, 97u8, 108u8, 108u8, 101u8, 108u8]
}

/// Whether the mode asks for the quest grammar.
pub fn is_quest(mode: &[u8]) -> (r: bool)
    ensures
        r == (mode@ == quest_mode()),
{
    let q = vec![113u8, 117u8, 101u8, 115u8, 116u8];
    proof {
        assert(q@ =~= quest_mode());
    }
    bytes_equal(mode, q.as_slice())
}

/// The selection strategy a name asks for: `first`, `parallel`, or weighted
/// random for anything else.
pub open spec fn strategy_named(s: Seq<u8>) -> SelectionStrategy {
    if s == first_name() {
        SelectionStrategy::FirstMatch
    } else if s == parallel_name() {
        SelectionStrategy::Parallel
    } else {
        SelectionStrategy::WeightedRandom
    }
}

pub fn selection_from_str(s: &[u8]) -> (r: SelectionStrategy)
    ensures
        r == strategy_named(s@),
{
    let first = vec![102u8, 105u8, 114u8, 115u8, 116u8];
    let parallel = vec![112u8, 97u8, 114u8, 97u8, 108u8, 108u8, 101u8, 108u8];
    proof {
        assert(first@ =~= first_name());
        assert(parallel@ =~= parallel_name());
    }
    if bytes_equal(s, first.as_slice()) {
        SelectionStrategy::FirstMatch
    } else if bytes_equal(s, parallel.as_slice()) {
        SelectionStrategy::Parallel
    } else {
        SelectionStrategy::WeightedRandom
    }
}

// ----- running the demo -----

/// The generator `rand::SeedableRng::seed_from_u64` makes from a seed.
pub uninterp spec fn seeded_rng(seed: u64) -> rand::rngs::SmallRng;

/// Calls `rand::SeedableRng::seed_from_u64` to make a `SmallRng`. The
/// generator is a function of the seed alone (the crate fills the state
/// from the seed deterministically); nothing else about it is claimed.
#[verifier::external_body]
fn small_rng_from_seed(seed: u64) -> (r: rand::rngs::SmallRng)
    ensures
        r == seeded_rng(seed),
{
    rand::SeedableRng::seed_from_u64(seed)
}

/// `rules` is the grammar the mode asks for: the quest grammar for `quest`,
/// the dungeon grammar otherwise.
pub open spec fn grammar_of(mode: Seq<u8>, rules: Seq<Rule<DemoNode, DemoEdge>>) -> bool {
    if mode == quest_mode() {
        quest_grammar(rules)
    } else {
        dungeon_grammar(rules)
    }
}

/// The step limit of a demo run: the configured one, or 100 when none is set.
pub open spec fn step_limit(cfg: DemoConfig) -> usize {
    if cfg.max_steps > 0 {
        cfg.max_steps
    } else {
        100
    }
}

/// Whether the settings ask for constraints on a run whose reachability
/// constraint is the one given.
pub open spec fn wants_constraints(cfg: DemoConfig) -> bool {
    (cfg.mode@ != quest_mode() && (cfg.reachability || cfg.lock_key)) || cfg.acyclic
}

/// The graph a demo run starts from: one `Start` node, or one `Objective`
/// in quest mode.
pub open spec fn start_graph(mode: Seq<u8>) -> GraphView<DemoNode, DemoEdge> {
    GraphView {
        nodes: seq![
            Some(
                if mode == quest_mode() {
                    DemoNode::Objective
                } else {
                    DemoNode::Start
                },
            ),
        ],
        edges: seq![],
    }
}

/// `rw` is a fresh rewriter for a demo run with settings `cfg`: no step
/// taken, the start graph, the mode's grammar, the configured step limit and
/// selection with single application, and constraints exactly when the
/// settings ask for some.
pub open spec fn demo_start(cfg: DemoConfig, rw: Rewriter<DemoNode, DemoEdge>) -> bool {
    &&& rw.wf()
    &&& rw.spec_steps() == 0
    &&& rw.spec_graph()@ == start_graph(cfg.mode@)
    &&& grammar_of(cfg.mode@, rw.spec_rules())
    &&& rw.spec_config() == RewriterConfig {
        max_steps: step_limit(cfg),
        selection: strategy_named(cfg.strategy@),
        application: ApplicationMode::Single,
    }
    &&& rw.has_constraints() == wants_constraints(cfg)
}

/// A rewriter for a demo run: a graph of one start node (an objective in
/// quest mode), the mode's grammar, and the constraints the settings ask
/// for. Reachability asks for `reach_kind` to be reachable from the start.
fn demo_rewriter(cfg: &DemoConfig, reach_kind: DemoKind) -> (r: Rewriter<DemoNode, DemoEdge>)
    ensures
        demo_start(*cfg, r),
{
    let max_steps = if cfg.max_steps > 0 {
        cfg.max_steps
    } else {
        100
    };
    let quest = is_quest(cfg.mode.as_slice());
    let mut g: Graph<DemoNode, DemoEdge> = Graph::new();
    let start_node = if quest {
        g.add_node(DemoNode::Objective)
    } else {
        g.add_node(DemoNode::Start)
    };
    proof {
        crate::graph::lemma_count_live_push(Seq::<Option<DemoNode>>::empty(), g@.nodes[0]);
        assert(g@.nodes =~= Seq::<Option<DemoNode>>::empty().push(g@.nodes[0]));
        assert(g@ =~= start_graph(cfg.mode@));
    }
    let config = RewriterConfig::new().max_steps(max_steps).selection(
        selection_from_str(cfg.strategy.as_slice()),
    );
    let mut rewriter = Rewriter::new(g, config);
    let mut rules = if quest {
        quest_rules()
    } else {
        dungeon_rules()
    };
    let ghost all_rules = rules@;
    proof {
        assert(rewriter.spec_rules() + rules@ =~= all_rules);
    }
    while rules.len() > 0
        invariant
            rewriter.wf(),
            rewriter.spec_rules() + rules@ == all_rules,
            forall|i: int| 0 <= i < all_rules.len() ==> (#[trigger] all_rules[i]).wf(),
            rewriter.spec_steps() == 0,
            rewriter.spec_graph()@ == start_graph(cfg.mode@),
            rewriter.spec_config() == config,
            !rewriter.has_constraints(),
        decreases rules@.len(),
    {
        let rule = rules.remove(0);
        proof {
            assert(all_rules[rewriter.spec_rules().len() as int] == rule);
        }
        rewriter.add_rule(rule);
        proof {
            assert(rewriter.spec_rules() + rules@ =~= all_rules);
        }
    }
    proof {
        assert(rewriter.spec_rules() =~= all_rules);
    }
    // Add constraints
    if !quest {
        if cfg.reachability {
            rewriter.add_constraint(ReachabilityConstraint::new(start_node, vec![reach_kind]));
        }
        if cfg.lock_key {
            rewriter.add_constraint(LockKeyConstraint::new(start_node, vec![(DemoKind::Key, DemoKind::Lock)]));
        }
    }
    if cfg.acyclic {
        rewriter.add_constraint(AcyclicConstraint);
    }
    rewriter
}

/// Generate a complete dungeon or quest graph from the settings: rewrite
/// from the start node, with the given seed, until nothing is left to
/// apply or the step limit is reached, by steps that stood or by rule
/// applications. Reachability asks for an exit to be reachable.
pub fn generate_demo_run(cfg: &DemoConfig) -> (r: RewriteResult<DemoNode, DemoEdge>)
    ensures
        r.graph.wf(),
        exists|start: Rewriter<DemoNode, DemoEdge>, states: Seq<Rewriter<DemoNode, DemoEdge>>|
            #[trigger] start.applied_run(states, r.rules_applied@) && demo_start(*cfg, start) && r.graph
                == states.last().spec_graph() && r.steps == states.last().spec_steps() && (r.steps
                >= step_limit(*cfg) || r.rules_applied@.len() >= step_limit(*cfg) || rewriting_done(
                r.graph@,
                start.spec_rules(),
            )),
        r.steps <= step_limit(*cfg),
        r.rules_applied@.len() <= step_limit(*cfg),
{
    let rewriter = demo_rewriter(cfg, DemoKind::Exit);
    let ghost start = rewriter;
    let mut rng = small_rng_from_seed(cfg.seed);
    proof {
        DemoKind::lemma_eq_by_value();
        broadcast use vstd::laws_eq::group_laws_eq;
    }
    let result = rewriter.rewrite(&mut rng);
    match result {
        Ok(res) => {
            proof {
                let states = choose|states: Seq<Rewriter<DemoNode, DemoEdge>>|
                    #[trigger] start.applied_run(states, res.rules_applied@) && res.graph
                        == states.last().spec_graph() && res.steps == states.last().spec_steps();
                assert(start.applied_run(states, res.rules_applied@) && demo_start(*cfg, start));
            }
            res
        },
        Err(_) => {
            proof {
                assert(false);
            }
            RewriteResult { graph: Graph::new(), steps: 0, rules_applied: Vec::new() }
        },
    }
}

// ----- a run taken one step at a time -----

/// What one step of a stepped demo run reports.
pub enum StepEvent {
    /// The run had already finished; the graph's size and the steps taken.
    Complete { nodes: usize, edges: usize, steps: usize },
    /// A rule was applied and a constraint refused the result.
    ConstraintViolated { rule: &'static str },
    /// A rule was applied and stands; the ids of the nodes and edges it added.
    Applied { rule: &'static str, nodes_added: Vec<usize>, edges_added: Vec<usize> },
    /// Nothing was left to apply; the run is finished.
    NoMatch { nodes: usize, edges: usize, steps: usize },
}

/// Counters of a stepped demo run.
pub struct DemoStats {
    pub nodes: usize,
    pub edges: usize,
    pub steps: usize,
    pub rules_applied: usize,
    pub constraint_violations: usize,
}

/// The numbers of the live ids of `after` not live in `before`, in order.
pub open spec fn added_node_ids(before: Seq<NodeId>, after: Seq<NodeId>) -> Seq<usize>
    decreases after.len(),
{
    if after.len() == 0 {
        Seq::empty()
    } else {
        let prev = added_node_ids(before, after.drop_last());
        if before.contains(after.last()) {
            prev
        } else {
            prev.push(after.last().0)
        }
    }
}

/// The numbers of the edge ids of `after` not in `before`, in order.
pub open spec fn added_edge_ids(before: Seq<EdgeId>, after: Seq<EdgeId>) -> Seq<usize>
    decreases after.len(),
{
    if after.len() == 0 {
        Seq::empty()
    } else {
        let prev = added_edge_ids(before, after.drop_last());
        if before.contains(after.last()) {
            prev
        } else {
            prev.push(after.last().0)
        }
    }
}

fn new_node_numbers(before: &Vec<NodeId>, after: &Vec<NodeId>) -> (r: Vec<usize>)
    ensures
        r@ == added_node_ids(before@, after@),
{
    let mut r: Vec<usize> = Vec::new();
    let mut i: usize = 0;
    while i < after.len()
        invariant
            0 <= i <= after@.len(),
            r@ == added_node_ids(before@, after@.take(i as int)),
        decreases after@.len() - i,
    {
        proof {
            assert(after@.take(i + 1).drop_last() =~= after@.take(i as int));
            assert(after@.take(i + 1).last() == after@[i as int]);
        }
        if !contains_node(before, after[i]) {
            r.push(after[i].0);
        }
        i = i + 1;
    }
    proof {
        assert(after@.take(after@.len() as int) =~= after@);
    }
    r
}

fn contains_edge(v: &Vec<EdgeId>, x: EdgeId) -> (r: bool)
    ensures
        r == v@.contains(x),
{
    let mut i: usize = 0;
    while i < v.len()
        invariant
            0 <= i <= v@.len(),
            forall|j: int| 0 <= j < i ==> v@[j] != x,
        decreases v@.len() - i,
    {
        if v[i] == x {
            return true;
        }
        i = i + 1;
    }
    false
}

fn new_edge_numbers(before: &Vec<EdgeId>, after: &Vec<EdgeId>) -> (r: Vec<usize>)
    ensures
        r@ == added_edge_ids(before@, after@),
{
    let mut r: Vec<usize> = Vec::new();
    let mut i: usize = 0;
    while i < after.len()
        invariant
            0 <= i <= after@.len(),
            r@ == added_edge_ids(before@, after@.take(i as int)),
        decreases after@.len() - i,
    {
        proof {
            assert(after@.take(i + 1).drop_last() =~= after@.take(i as int));
            assert(after@.take(i + 1).last() == after@[i as int]);
        }
        if !contains_edge(before, after[i]) {
            r.push(after[i].0);
        }
        i = i + 1;
    }
    proof {
        assert(after@.take(after@.len() as int) =~= after@);
    }
    r
}

/// Step-by-step rewriter for the interactive demo.
pub struct DemoStepper {
    inner: Rewriter<DemoNode, DemoEdge>,
    rng: rand::rngs::SmallRng,
    steps: usize,
    rules_applied: usize,
    constraint_violations: usize,
    done: bool,
}

impl DemoStepper {
    pub closed spec fn spec_inner(&self) -> Rewriter<DemoNode, DemoEdge> {
        self.inner
    }

    /// Steps asked for so far.
    pub closed spec fn spec_steps(&self) -> nat {
        self.steps as nat
    }

    pub closed spec fn spec_rules_applied(&self) -> nat {
        self.rules_applied as nat
    }

    pub closed spec fn spec_violations(&self) -> nat {
        self.constraint_violations as nat
    }

    /// Whether a step found nothing to apply.
    pub closed spec fn spec_done(&self) -> bool {
        self.done
    }

    /// The random generator the steps draw from.
    pub closed spec fn spec_rng(&self) -> rand::rngs::SmallRng {
        self.rng
    }

    /// The rewriter is well formed, every application that stood counts as
    /// applied, and every step asked for counts at most once.
    pub closed spec fn wf(&self) -> bool {
        &&& self.inner.wf()
        &&& self.inner.spec_steps() == self.rules_applied
        &&& self.rules_applied + self.constraint_violations <= self.steps
    }

    /// A stepped run of the settings' grammar. Reachability asks for the
    /// start to be reachable; a seed of zero means 42.
    pub fn new(cfg: &DemoConfig) -> (r: Self)
        ensures
            r.wf(),
            r.spec_steps() == 0,
            r.spec_rules_applied() == 0,
            r.spec_violations() == 0,
            !r.spec_done(),
            demo_start(*cfg, r.spec_inner()),
            r.spec_rng() == seeded_rng(
                if cfg.seed > 0 {
                    cfg.seed
                } else {
                    42
                },
            ),
    {
        let inner = demo_rewriter(cfg, DemoKind::Start);
        let seed = if cfg.seed > 0 {
            cfg.seed
        } else {
            42
        };
        let rng = small_rng_from_seed(seed);
        DemoStepper { inner, rng, steps: 0, rules_applied: 0, constraint_violations: 0, done: false }
    }

    /// Perform one rewrite step (the observed step of the rewriter) and
    /// report it.
    #[verifier::spinoff_prover]
    pub fn step(&mut self) -> (r: StepEvent)
        requires
            old(self).wf(),
            old(self).spec_steps() < usize::MAX,
        ensures
            final(self).wf(),
            old(self).spec_done() ==> {
                &&& *final(self) == *old(self)
                &&& r == StepEvent::Complete {
                    nodes: old(self).spec_inner().spec_graph()@.node_count() as usize,
                    edges: old(self).spec_inner().spec_graph()@.edge_count() as usize,
                    steps: old(self).spec_steps() as usize,
                }
            },
            !old(self).spec_done() ==> {
                &&& final(self).spec_steps() == old(self).spec_steps() + 1
                &&& old(self).spec_inner().same_setup(&final(self).spec_inner())
                &&& exists|sr: StepResult| #[trigger] old(self).reports(final(self), sr, r)
            },
    {
        if self.done {
            let g = self.inner.graph();
            return StepEvent::Complete { nodes: g.node_count(), edges: g.edge_count(), steps: self.steps };
        }
        // Capture node/edge IDs before step
        let nodes_before = self.inner.graph().node_ids();
        let edges_before = self.inner.graph().edge_ids();
        let ghost old_inner = self.inner;
        self.steps = self.steps + 1;
        let before_applied = self.inner.steps();
        let mut obs = NoOpRewriteObserver;
        proof {
            DemoKind::lemma_eq_by_value();
            broadcast use vstd::laws_eq::group_laws_eq;
        }
        let result = self.inner.step_observed(&mut self.rng, &mut obs);
        let ghost sr = result;
        match result {
            StepResult::Applied { rule_name, .. } => {
                if self.inner.steps() == before_applied {
                    // A constraint refused the application.
                    self.constraint_violations = self.constraint_violations + 1;
                    let r = StepEvent::ConstraintViolated { rule: rule_name };
                    proof {
                        assert(old(self).spec_inner() == old_inner);
                        assert(self.spec_inner() == self.inner);
                        assert(old(self).stepped(self, sr));
                        assert(old(self).event_of(self, sr, r));
                        assert(old(self).reports(self, sr, r));
                    }
                    r
                } else {
                    self.rules_applied = self.rules_applied + 1;
                    let g = self.inner.graph();
                    // Compute added node/edge IDs
                    let nodes_added = new_node_numbers(&nodes_before, &g.node_ids());
                    let edges_added = new_edge_numbers(&edges_before, &g.edge_ids());
                    let r = StepEvent::Applied { rule: rule_name, nodes_added, edges_added };
                    proof {
                        assert(old(self).spec_inner() == old_inner);
                        assert(self.spec_inner() == self.inner);
                        assert(old(self).stepped(self, sr));
                        assert(old(self).event_of(self, sr, r));
                        assert(old(self).reports(self, sr, r));
                    }
                    r
                }
            },
            StepResult::NoMatch => {
                self.done = true;
                let g = self.inner.graph();
                let r = StepEvent::NoMatch { nodes: g.node_count(), edges: g.edge_count(), steps: self.steps };
                proof {
                    assert(old(self).spec_inner() == old_inner);
                    assert(self.spec_inner() == self.inner);
                    assert(old(self).stepped(self, sr));
                    assert(old(self).event_of(self, sr, r));
                    assert(old(self).reports(self, sr, r));
                }
                r
            },
        }
    }

    /// `new` and the event `r` follow from `self` by one step whose rewriter
    /// step returned `sr`: the rewriter stepped as `step_outcome` says,
    /// and the event reports what happened.
    pub open spec fn reports(&self, new: &Self, sr: StepResult, r: StepEvent) -> bool {
        self.stepped(new, sr) && self.event_of(new, sr, r)
    }

    /// The rewriter of `new` is that of `self` after an observed step that
    /// returned `sr`.
    pub open spec fn stepped(&self, new: &Self, sr: StepResult) -> bool {
        exists|cands: Seq<(usize, Match, u32)>| #[trigger] candidates_of(self.spec_inner().spec_graph()@, self.spec_inner().spec_rules(), cands) && self.spec_inner().step_outcome(&new.spec_inner(), cands, sr)
    }

    /// The counters of `new` and the event `r` report a rewriter step that
    /// returned `sr`.
    pub open spec fn event_of(&self, new: &Self, sr: StepResult, r: StepEvent) -> bool {
        let (old_g, new_g) = (self.spec_inner().spec_graph()@, new.spec_inner().spec_graph()@);
        &&& match sr {
            StepResult::NoMatch => {
                &&& new.spec_done()
                &&& new.spec_rules_applied() == self.spec_rules_applied()
                &&& new.spec_violations() == self.spec_violations()
                &&& r == StepEvent::NoMatch {
                    nodes: new_g.node_count() as usize,
                    edges: new_g.edge_count() as usize,
                    steps: new.spec_steps() as usize,
                }
            },
            StepResult::Applied { rule_index, rule_name } => {
                &&& !new.spec_done()
                &&& if new.spec_inner().spec_steps() == self.spec_inner().spec_steps() {
                    &&& new.spec_violations() == self.spec_violations() + 1
                    &&& new.spec_rules_applied() == self.spec_rules_applied()
                    &&& r == StepEvent::ConstraintViolated { rule: rule_name }
                } else {
                    &&& new.spec_violations() == self.spec_violations()
                    &&& new.spec_rules_applied() == self.spec_rules_applied() + 1
                    &&& r matches StepEvent::Applied { rule, nodes_added, edges_added }
                    &&& rule == rule_name
                    &&& nodes_added@ == added_node_ids(old_g.node_ids(), new_g.node_ids())
                    &&& edges_added@ == added_edge_ids(old_g.edge_ids(), new_g.edge_ids())
                }
            },
        }
    }

    /// The current graph.
    pub fn graph(&self) -> (r: &Graph<DemoNode, DemoEdge>)
        ensures
            *r == self.spec_inner().spec_graph(),
    {
        self.inner.graph()
    }

    /// The run's counters.
    pub fn stats(&self) -> (r: DemoStats)
        requires
            self.wf(),
        ensures
            r.nodes == self.spec_inner().spec_graph()@.node_count(),
            r.edges == self.spec_inner().spec_graph()@.edge_count(),
            r.steps == self.spec_steps(),
            r.rules_applied == self.spec_rules_applied(),
            r.constraint_violations == self.spec_violations(),
    {
        let g = self.inner.graph();
        DemoStats {
            nodes: g.node_count(),
            edges: g.edge_count(),
            steps: self.steps,
            rules_applied: self.rules_applied,
            constraint_violations: self.constraint_violations,
        }
    }

    /// The number of steps asked for so far.
    pub fn steps(&self) -> (r: usize)
        ensures
            r == self.spec_steps(),
    {
        self.steps
    }
}

// ----- drawing -----

/// The position of `n` in `ids`, or zero when it is not there.
pub open spec fn index_or_zero(ids: Seq<NodeId>, n: NodeId) -> int {
    if ids.contains(n) {
        choose|i: int| 0 <= i < ids.len() && ids[i] == n && forall|j: int| 0 <= j < i ==> ids[j] != n
    } else {
        0
    }
}

fn position_or_zero(ids: &Vec<NodeId>, n: NodeId) -> (r: usize)
    ensures
        r == index_or_zero(ids@, n),
{
    let mut i: usize = 0;
    while i < ids.len()
        invariant
            0 <= i <= ids@.len(),
            forall|j: int| 0 <= j < i ==> ids@[j] != n,
        decreases ids@.len() - i,
    {
        if ids[i] == n {
            proof {
                let k = choose|k: int| 0 <= k < ids@.len() && ids@[k] == n && forall|j: int| 0 <= j < k ==> ids@[j] != n;
                if k < i {
                } else if k > i {
                    assert(ids@[i as int] == n);
                }
            }
            return i;
        }
        i = i + 1;
    }
    0
}

/// For each live edge, in id order, the positions of its source and target
/// among the live nodes listed in id order (zero for an endpoint that is
/// not live).
pub fn edge_index_pairs(graph: &Graph<DemoNode, DemoEdge>) -> (r: Vec<(usize, usize)>)
    requires
        graph.wf(),
    ensures
        r@.len() == graph@.edge_ids().len(),
        forall|k: int|
            0 <= k < r@.len() ==> (#[trigger] r@[k]).0 == index_or_zero(
                graph@.node_ids(),
                graph@.edge_at(graph@.edge_ids()[k].0 as int).source,
            ) && r@[k].1 == index_or_zero(
                graph@.node_ids(),
                graph@.edge_at(graph@.edge_ids()[k].0 as int).target,
            ),
{
    let node_ids = graph.node_ids();
    let edge_ids = graph.edge_ids();
    let mut r: Vec<(usize, usize)> = Vec::new();
    let mut k: usize = 0;
    while k < edge_ids.len()
        invariant
            graph.wf(),
            node_ids@ == graph@.node_ids(),
            edge_ids@ == graph@.edge_ids(),
            0 <= k <= edge_ids@.len(),
            r@.len() == k,
            forall|t: int|
                0 <= t < k ==> (#[trigger] r@[t]).0 == index_or_zero(
                    node_ids@,
                    graph@.edge_at(edge_ids@[t].0 as int).source,
                ) && r@[t].1 == index_or_zero(node_ids@, graph@.edge_at(edge_ids@[t].0 as int).target),
        decreases edge_ids@.len() - k,
    {
        let eid = edge_ids[k];
        proof {
            graph.lemma_wf_len();
            graph@.lemma_edge_ids_contains(graph@.edges.len(), eid);
            assert(edge_ids@.contains(eid));
        }
        match graph.edge_endpoints(eid) {
            Some((src, tgt)) => {
                r.push((position_or_zero(&node_ids, src), position_or_zero(&node_ids, tgt)));
            },
            None => {
                proof {
                    assert(false);
                }
            },
        }
        k = k + 1;
    }
    r
}

} // verus!
