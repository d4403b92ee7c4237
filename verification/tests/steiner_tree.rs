//! The Steiner tree cases: each graph is written in DOT, terminals are the nodes named `t`
//! followed by digits, edge weights come from the `label` attribute (zero when absent).
//!
//! The flow simulation's clock is a float, so the event loop lives here: the library decides
//! what happens at each saturation and hands back the heap updates to apply.

use fxhash::FxBuildHasher;
use petgraph::graph::NodeIndex;
use petgraph::visit::EdgeRef;
use petgraph::Graph;
use priority_queue::PriorityQueue;
use fixedbitset::FixedBitSet;
use query_solver::error::Error;
use query_solver::flac::{FlacControlFlow, Flow, HeapUpdate};
use query_solver::requirements::{
    FreeRequirementByEdge, FreeRequirementByNode, IdRange, RequirementAndWeightUpdater, Requirements, RequirementsByEdge,
};
use query_solver::steiner_tree::SteinerTree;
use std::cmp::Ordering;
use std::collections::HashMap;
use std::ops::ControlFlow;

#[derive(Debug, Clone, Copy, PartialEq)]
struct Priority(f64);

impl Ord for Priority {
    fn cmp(&self, other: &Self) -> Ordering {
        self.0.total_cmp(&other.0).reverse()
    }
}

impl PartialOrd for Priority {
    fn partial_cmp(&self, other: &Self) -> Option<Ordering> {
        Some(self.cmp(other))
    }
}

impl Eq for Priority {}

struct GreedyFlac {
    flow: Flow,
    time: f64,
    heap: PriorityQueue<usize, Priority, FxBuildHasher>,
    breaks: usize,
}

impl GreedyFlac {
    fn new(graph: &Graph<(), u32>) -> Self {
        Self {
            flow: Flow::new(graph),
            time: 0.0,
            heap: PriorityQueue::default(),
            breaks: 0,
        }
    }

    /// Every edge handed to the clock may saturate next: it is neither marked nor saturated and
    /// some terminal feeds its target.
    fn assert_may_saturate(&self, graph: &Graph<(), u32>, edge: usize) {
        let target = graph.edge_endpoints(petgraph::graph::EdgeIndex::new(edge)).unwrap().1.index();
        assert!(!self.flow.marked_or_saturated_edges[edge], "edge {} scheduled though marked", edge);
        assert!(self.flow.node_to_feeding_terminals[target].count_ones(..) > 0, "edge {} into a dry node", edge);
    }

    fn apply(&mut self, update: HeapUpdate) {
        match update {
            HeapUpdate::Push { edge, capacity, flow_rate } => {
                let saturate_time = self.time + (capacity as f64 / flow_rate as f64);
                self.heap.push(edge, Priority(saturate_time));
            }
            HeapUpdate::Rescale { edge, old_flow_rate, new_flow_rate } => {
                let time = self.time;
                self.heap.change_priority_by(&edge, |priority| {
                    let current = priority.0;
                    let next = time + (current - time) * (old_flow_rate as f64 / new_flow_rate as f64);
                    *priority = Priority(next);
                });
            }
            HeapUpdate::PushAfter { edge, weight, saturated_weight, flow_rate } => {
                let saturate_time = self.time + (weight - saturated_weight) as f64 / (flow_rate as f64);
                self.heap.push(edge, Priority(saturate_time));
            }
        }
    }

    fn run_once(&mut self, graph: &Graph<(), u32>, tree: &mut SteinerTree) -> ControlFlow<()> {
        let Some(scheduled) = self.flow.initialize_terminals(graph, tree) else {
            return ControlFlow::Break(());
        };
        self.time = 0.0;
        self.heap.clear();
        for edge in scheduled {
            self.assert_may_saturate(graph, edge.id);
            self.heap.push(edge.id, Priority(self.time + edge.weight as f64));
        }
        let mut found_subtree = false;
        while let Some((edge, priority)) = self.heap.pop() {
            self.time = priority.0;
            let (control, updates) = self.flow.update_flow_rates(graph, tree, edge);
            for update in updates {
                let scheduled = match update {
                    HeapUpdate::Push { edge, .. } | HeapUpdate::Rescale { edge, .. } | HeapUpdate::PushAfter { edge, .. } => edge,
                };
                self.assert_may_saturate(graph, scheduled);
                self.apply(update);
            }
            match control {
                FlacControlFlow::Break => {
                    self.breaks += 1;
                    break;
                }
                FlacControlFlow::Continue => continue,
                FlacControlFlow::FoundSubtree { subtree_root_node_id } => {
                    assert!(
                        self.flow.add_subtree(graph, tree, edge, subtree_root_node_id),
                        "Steiner tree weight overflow"
                    );
                    found_subtree = true;
                    break;
                }
            }
        }
        self.flow.run_outcome(found_subtree)
    }

    fn run(&mut self, graph: &Graph<(), u32>, tree: &mut SteinerTree) {
        while self.run_once(graph, tree).is_continue() {}
    }
}

struct Runner {
    graph: Graph<(), u32>,
    names: Vec<String>,
    nodes: HashMap<String, NodeIndex>,
    greedy_flac: GreedyFlac,
    steiner_tree: SteinerTree,
}

fn is_terminal_name(name: &str) -> bool {
    let mut chars = name.chars();
    chars.next() == Some('t') && chars.all(|c| c.is_ascii_digit())
}

impl Runner {
    fn from_dot_graph(dot: &'static str) -> Self {
        let (graph, names, nodes) = dot_graph(dot, "label");
        let terminals: Vec<&str> = names.iter().map(String::as_str).filter(|n| is_terminal_name(n)).collect();
        let terminals: Vec<String> = terminals.into_iter().map(String::from).collect();
        Self::build(graph, names, nodes, terminals)
    }

    fn with_terminals(dot: &'static str, weight_attr: &str, terminals: &[&str]) -> Self {
        let (graph, names, nodes) = dot_graph(dot, weight_attr);
        Self::build(graph, names, nodes, terminals.iter().map(|t| t.to_string()).collect())
    }

    fn build(graph: Graph<(), u32>, names: Vec<String>, nodes: HashMap<String, NodeIndex>, terminals: Vec<String>) -> Self {
        let terminals = terminals.iter().map(|t| nodes[t.as_str()].index()).collect();
        let steiner_tree = SteinerTree::new(&graph, nodes["root"].index(), terminals);
        let greedy_flac = GreedyFlac::new(&graph);
        Self {
            graph,
            names,
            nodes,
            greedy_flac,
            steiner_tree,
        }
    }

    fn run_once(&mut self) -> ControlFlow<()> {
        self.greedy_flac.run_once(&self.graph, &mut self.steiner_tree)
    }

    fn run(&mut self) -> u32 {
        self.greedy_flac.run(&self.graph, &mut self.steiner_tree);
        self.steiner_tree.total_weight
    }

    fn debug_graph(&self) -> String {
        format!(
            "time {}, saturated {:b}, marked {:b}, connected terminals {:b}\n{}",
            self.greedy_flac.time,
            self.greedy_flac.flow.saturated_edges,
            self.greedy_flac.flow.marked_or_saturated_edges,
            self.greedy_flac.flow.root_feeding_terminals,
            self.steiner_graph()
        )
    }

    fn steiner_graph(&self) -> String {
        let mut out = String::from("digraph {\n");
        let mut edges = Vec::new();
        for edge in self.graph.edge_references() {
            if self.steiner_tree.edges[edge.id().index()] {
                edges.push((&self.names[edge.source().index()], &self.names[edge.target().index()]));
            }
        }
        edges.sort();
        for (source, target) in edges {
            out.push_str(&format!("  {} -> {}\n", source, target));
        }
        out.push('}');
        out
    }

    fn extend_terminals(&mut self, terminal_names: &[&str]) {
        let new_terminals = terminal_names.iter().map(|name| self.nodes[*name].index()).collect();
        let _ = self.steiner_tree.extend_terminals(new_terminals);
    }
}

/// Reads the statements `a -> b;` and `a -> b [name=value, ...];` of a DOT digraph. Nodes are
/// numbered in order of first appearance; an edge's weight is its `weight_attr` attribute, zero
/// when absent.
fn dot_graph(dot: &str, weight_attr: &str) -> (Graph<(), u32>, Vec<String>, HashMap<String, NodeIndex>) {
    let body = &dot[dot.find('{').unwrap() + 1..dot.rfind('}').unwrap()];
    let mut graph = Graph::new();
    let mut names = Vec::new();
    let mut nodes = HashMap::new();
    let mut node = |graph: &mut Graph<(), u32>, names: &mut Vec<String>, name: &str| -> NodeIndex {
        *nodes.entry(name.to_string()).or_insert_with(|| {
            names.push(name.to_string());
            graph.add_node(())
        })
    };
    let mut edges = Vec::new();
    for statement in body.split(';') {
        let statement = statement.trim();
        if statement.is_empty() {
            continue;
        }
        let (link, attrs) = match statement.find('[') {
            Some(i) => (&statement[..i], &statement[i + 1..statement.rfind(']').unwrap()]),
            None => (statement, ""),
        };
        let (source, target) = link.split_once("->").unwrap();
        let source = node(&mut graph, &mut names, source.trim());
        let target = node(&mut graph, &mut names, target.trim());
        let weight = attrs
            .split(',')
            .filter_map(|attr| attr.split_once('='))
            .find(|(name, _)| name.trim() == weight_attr)
            .and_then(|(_, value)| value.trim().trim_matches('"').parse::<u32>().ok())
            .unwrap_or_default();
        edges.push((source, target, weight));
    }
    for (source, target, weight) in edges {
        graph.add_edge(source, target, weight);
    }
    let nodes = names.iter().enumerate().map(|(i, n)| (n.clone(), NodeIndex::new(i))).collect();
    (graph, names, nodes)
}
#[test]
fn cases_step_by_step() {
    let mut runner = Runner::from_dot_graph(
        r#"
        digraph {
            root -> a;
            a -> t1 [label=1];
            a -> t2 [label=2];
        }
        "#,
    );

    let outcome = runner.run_once();
    assert!(outcome.is_continue(), "\n{}", runner.debug_graph());
    assert_eq!(runner.steiner_graph(), "digraph {\n  a -> t1\n  root -> a\n}");

    let outcome = runner.run_once();
    assert!(outcome.is_break(), "\n{}", runner.debug_graph());
    assert_eq!(runner.steiner_graph(), "digraph {\n  a -> t1\n  a -> t2\n  root -> a\n}");
}

#[test]
fn cases_single_terminal_direct_path() {
    let mut runner = Runner::from_dot_graph(
        r#"
        digraph {
            root -> t1 [label=5];
        }
        "#,
    );

    let total_weight = runner.run();
    assert_eq!(total_weight, 5, "\n{}", runner.debug_graph());
    assert_eq!(runner.steiner_graph(), "digraph {\n  root -> t1\n}");
}

#[test]
fn cases_multiple_terminals_shared_edges() {
    let mut runner = Runner::from_dot_graph(
        r#"
        digraph {
            root -> shared [label=10];
            shared -> t1 [label=3];
            shared -> t2 [label=5];
            shared -> t3 [label=2];
        }
        "#,
    );

    let total_weight = runner.run();
    assert_eq!(
        total_weight,
        20, // 10 + 3 + 5 + 2
        "\n{}",
        runner.debug_graph()
    );
    assert_eq!(runner.steiner_graph(), "digraph {\n  root -> shared\n  shared -> t1\n  shared -> t2\n  shared -> t3\n}");
}

#[test]
fn cases_degenerate_flow_detection() {
    // Graph where t1 can reach a through two paths, which would create degenerate flow
    let mut runner = Runner::from_dot_graph(
        r#"
        digraph {
            root -> a [label=10];
            a -> b [label=2];
            a -> c [label=3];
            b -> t1 [label=1];
            c -> t1 [label=1];
        }
        "#,
    );

    let total_weight = runner.run();
    assert_eq!(
        total_weight,
        13, // Should pick one path: root -> a -> b -> t1 (10 + 2 + 1)
        "\n{}",
        runner.debug_graph()
    );
    // The algorithm should mark one edge to avoid degenerate flow
    assert_eq!(runner.steiner_graph(), "digraph {\n  a -> b\n  b -> t1\n  root -> a\n}");
}

#[test]
fn cases_complex_graph_multiple_paths() {
    let mut runner = Runner::from_dot_graph(
        r#"
        digraph {
            root -> a [label=5];
            root -> b [label=8];
            a -> c [label=3];
            b -> c [label=2];
            c -> t1 [label=4];
            c -> t2 [label=6];
            a -> t2 [label=10];
            b -> t3 [label=7];
        }
        "#,
    );

    let total_weight = runner.run();
    assert_eq!(
        total_weight,
        // root -> a -> c -> t1,t2: 5 + 3 + 6 + 4 = 18
        // root -> b -> t3: 8 + 7 = 15
        33,
        "\n{}",
        runner.debug_graph()
    );
    assert_eq!(runner.steiner_graph(), "digraph {\n  a -> c\n  b -> t3\n  c -> t1\n  c -> t2\n  root -> a\n  root -> b\n}");
}

#[test]
fn cases_incremental_terminal_addition() {
    // Start with only t1 terminal by creating custom runner
    let mut runner = Runner::with_terminals(
        r#"
        digraph {
            root -> a [label=4];
            root -> b [label=6];
            a -> t1 [label=2];
            b -> t2 [label=3];
            a -> t3 [label=5];
        }
        "#,
        "label",
        &["t1"],
    );

    // First run with only t1
    let total_weight = runner.run();
    assert_eq!(
        total_weight,
        6, // root -> a -> t1: 4 + 2
        "\n{}",
        runner.debug_graph()
    );

    // Add t2 as a new terminal
    runner.extend_terminals(&["t2"]);
    let total_weight = runner.run();
    assert_eq!(
        total_weight,
        6 + 9, // root -> b -> t2: 6 + 3
        "\n{}",
        runner.debug_graph()
    );

    // Add t3 as another terminal
    runner.extend_terminals(&["t3"]);
    let total_weight = runner.run();
    assert_eq!(
        total_weight,
        6 + 9 + 5, // a -> t3: 5 (root -> a already in tree)
        "\n{}",
        runner.debug_graph()
    );

    assert_eq!(runner.steiner_graph(), "digraph {\n  a -> t1\n  a -> t3\n  b -> t2\n  root -> a\n  root -> b\n}");
}

#[test]
fn weighted_edges_different_weights() {
    let mut runner = Runner::from_dot_graph(
        r#"
        digraph {
            root -> a [label=1];
            root -> b [label=100];
            a -> c [label=50];
            b -> c [label=1];
            c -> t1 [label=1];
            a -> t2 [label=2];
            b -> t3 [label=2];
        }
        "#,
    );

    let total_weight = runner.run();
    assert_eq!(
        total_weight,
        // Optimal: root->a->t2 (3), root->b->c->t1 (102), root->b->t3 (102 already counted + 2 = 2)
        // But GreedyFLAC doesn't take the optimal path.
        156,
        "\n{}",
        runner.debug_graph()
    );

    // The algorithm should prefer the cheaper paths
    assert_eq!(runner.steiner_graph(), "digraph {\n  a -> c\n  a -> t2\n  b -> t3\n  c -> t1\n  root -> a\n  root -> b\n}");
}

#[test]
fn cases_diamond_shaped_graph() {
    let mut runner = Runner::from_dot_graph(
        r#"
        digraph {
            root -> top [label=5];
            top -> left [label=3];
            top -> right [label=4];
            left -> bottom [label=6];
            right -> bottom [label=2];
            bottom -> t1 [label=1];
            left -> t2 [label=8];
            right -> t3 [label=7];
        }
        "#,
    );

    let total_weight = runner.run();
    assert_eq!(
        total_weight,
        30, // root->top->left->t2 (5+3+8=16) + top->right->bottom->t1 (4+2+1=7) + right->t3 (7-already have right)
        "\n{}",
        runner.debug_graph()
    );

    assert_eq!(runner.steiner_graph(), "digraph {\n  bottom -> t1\n  left -> t2\n  right -> bottom\n  right -> t3\n  root -> top\n  top -> left\n  top -> right\n}");
}

#[test]
fn cases_linear_chain_graph() {
    let mut runner = Runner::from_dot_graph(
        r#"
    digraph {
        root -> n1 [label=2];
        n1 -> n2 [label=3];
        n2 -> n3 [label=4];
        n3 -> n4 [label=5];
        n4 -> t1 [label=6];
        n2 -> t2 [label=10];
        n3 -> t3 [label=8];
    }
    "#,
    );

    let total_weight = runner.run();
    assert_eq!(
        total_weight,
        38, // root->n1->n2->n3->n4->t1 (2+3+4+5+6=20) + n2->t2 (10) + n3->t3 (8)
        "\n{}",
        runner.debug_graph()
    );

    assert_eq!(runner.steiner_graph(), "digraph {\n  n1 -> n2\n  n2 -> n3\n  n2 -> t2\n  n3 -> n4\n  n3 -> t3\n  n4 -> t1\n  root -> n1\n}");
}

#[test]
fn properly_decrease_saturating_time() {
    let mut runner = Runner::from_dot_graph(
        r#"
        digraph {
            a -> t1;
            root -> a [label=10];
            b -> t1;
            root -> b [label=10];
            c -> t1;
            root -> c [label=10];
            c -> t2 [label=10];
            b -> t2 [label=10];
            a -> t2 [label=10];
            d -> t3;
            c -> d [label=10];
            a -> d [label=10];
            b -> t3;
        }
        "#,
    );

    let total_weight = runner.run();
    assert_eq!(
        total_weight,
        20, // root -> b (10) + b -> t2 (10)
        "\n{}",
        runner.debug_graph()
    );

    assert_eq!(runner.steiner_graph(), "digraph {\n  b -> t1\n  b -> t2\n  b -> t3\n  root -> b\n}");
}

#[test]
fn star_graph_greedy_trap() {
    // Star graph where greedy picks cheap initial edges but leads to expensive total
    // Optimal: root -> hub -> all terminals (100 + 4*10 = 140)
    // GreedyFLAC might pick: root -> t1 (1) then forced to root -> hub -> t2,t3,t4 (100 + 3*10 = 130)
    // Total: 131 vs optimal 140 - but in this case greedy does better!
    // Let's create a case where greedy is worse
    let mut runner = Runner::from_dot_graph(
        r#"
        digraph {
            root -> cheap_path [label=1];
            cheap_path -> t1 [label=1];
            root -> expensive_hub [label=50];
            expensive_hub -> t1 [label=1];
            expensive_hub -> t2 [label=1];
            expensive_hub -> t3 [label=1];
            expensive_hub -> t4 [label=1];
        }
        "#,
    );

    let total_weight = runner.run();
    // GreedyFLAC will pick cheap_path first (saturates at time 2)
    // Then needs to add expensive_hub for other terminals
    // Total: 1 + 1 + 50 + 1 + 1 + 1 = 55
    // Optimal would be: 50 + 1 + 1 + 1 + 1 = 54
    // This demonstrates a 1-unit suboptimality
    assert_eq!(
        total_weight,
        55, // Suboptimal by 1 unit
        "\n{}",
        runner.debug_graph()
    );

    assert_eq!(runner.steiner_graph(), "digraph {\n  cheap_path -> t1\n  expensive_hub -> t2\n  expensive_hub -> t3\n  expensive_hub -> t4\n  root -> cheap_path\n  root -> expensive_hub\n}");
}

#[test]
fn asymmetric_multi_level() {
    // Multi-level graph where greedy choices at each level compound suboptimality
    // This tests how local greedy decisions accumulate into global suboptimality
    let mut runner = Runner::from_dot_graph(
        r#"
        digraph {
            root -> level1_cheap [label=1];
            root -> level1_expensive [label=20];
            level1_cheap -> level2_trap [label=50];
            level1_expensive -> level2_good [label=2];
            level2_trap -> t1 [label=1];
            level2_trap -> t2 [label=1];
            level2_good -> t1 [label=1];
            level2_good -> t2 [label=1];
            level2_good -> t3 [label=1];
        }
        "#,
    );

    let total_weight = runner.run();
    // GreedyFLAC might pick level1_cheap first (saturates early)
    // Then forced to use level2_trap, and later add expensive path for t3
    // But in this case, the algorithm is smart enough to find optimal: 20 + 2 + 1 + 1 + 1 = 25
    // This shows the algorithm can sometimes avoid the greedy trap
    assert_eq!(total_weight, 25, "\n{}", runner.debug_graph());
    assert_eq!(runner.steiner_graph(), "digraph {\n  level1_expensive -> level2_good\n  level2_good -> t1\n  level2_good -> t2\n  level2_good -> t3\n  root -> level1_expensive\n}");
}

#[test]
fn high_cost_shared_edge() {
    // Graph where a high-cost shared edge seems attractive but should be avoided
    // Tests if algorithm properly evaluates the true cost of shared edges
    let mut runner = Runner::from_dot_graph(
        r#"
        digraph {
            root -> shared_expensive [label=100];
            shared_expensive -> t1 [label=1];
            shared_expensive -> t2 [label=1];
            shared_expensive -> t3 [label=1];
            root -> path1 [label=35];
            path1 -> t1 [label=1];
            root -> path2 [label=35];
            path2 -> t2 [label=1];
            root -> path3 [label=35];
            path3 -> t3 [label=1];
        }
        "#,
    );

    let total_weight = runner.run();
    // Optimal using shared: 100 + 1 + 1 + 1 = 103
    // Optimal using separate: 35 + 1 + 35 + 1 + 35 + 1 = 108
    // GreedyFLAC should pick the shared edge
    assert_eq!(total_weight, 103, "\n{}", runner.debug_graph());
    assert_eq!(runner.steiner_graph(), "digraph {\n  root -> shared_expensive\n  shared_expensive -> t1\n  shared_expensive -> t2\n  shared_expensive -> t3\n}");
}

#[test]
fn longer_cheaper_paths() {
    // Graph where optimal solution uses longer paths with more hops but lower total cost
    // Tests if greedy algorithm misses these due to focusing on immediate saturation
    let mut runner = Runner::from_dot_graph(
        r#"
        digraph {
            root -> direct_expensive [label=100];
            direct_expensive -> t1 [label=1];
            root -> hop1 [label=10];
            hop1 -> hop2 [label=10];
            hop2 -> hop3 [label=10];
            hop3 -> t1 [label=1];
            hop3 -> t2 [label=1];
            direct_expensive -> t2 [label=50];
        }
        "#,
    );

    let total_weight = runner.run();
    // Direct path: 100 + 1 + 50 = 151
    // Longer path: 10 + 10 + 10 + 1 + 1 = 32
    // GreedyFLAC should eventually find the longer cheaper path
    assert_eq!(total_weight, 32, "\n{}", runner.debug_graph());
    assert_eq!(runner.steiner_graph(), "digraph {\n  hop1 -> hop2\n  hop2 -> hop3\n  hop3 -> t1\n  hop3 -> t2\n  root -> hop1\n}");
}

#[test]
fn unoptimal_equal_initial_costs_different_outcomes() {
    // Graph with multiple equally cheap initial paths that lead to vastly different total costs
    // Tests tie-breaking behavior and its impact on final solution quality
    let mut runner = Runner::from_dot_graph(
        r#"
        digraph {
            root -> option_a [label=10];
            root -> option_b [label=10];
            option_a -> hub_a [label=1];
            option_b -> hub_b [label=50];
            hub_a -> t1 [label=50];
            hub_a -> t2 [label=50];
            hub_b -> t1 [label=1];
            hub_b -> t2 [label=1];
            hub_b -> t3 [label=1];
            option_a -> t3 [label=1];
        }
        "#,
    );

    let total_weight = runner.run();
    // Path A focused: 10 + 1 + 50 + 50 + 1 = 112 (for t1, t2, t3)
    // Path B focused: 10 + 50 + 1 + 1 + 1 = 63 (for t1, t2, t3)
    // Mixed paths possible, algorithm behavior depends on flow dynamics
    assert_eq!(total_weight, 73, "\n{}", runner.debug_graph());
    assert_eq!(runner.steiner_graph(), "digraph {\n  hub_b -> t1\n  hub_b -> t2\n  option_a -> t3\n  option_b -> hub_b\n  root -> option_a\n  root -> option_b\n}");
}

#[test]
fn cascading_suboptimal_choices() {
    // Complex graph where early suboptimal choices cascade into worse decisions
    // Each greedy choice constrains future options, compounding suboptimality
    let mut runner = Runner::from_dot_graph(
        r#"
        digraph {
            root -> early_trap [label=1];
            early_trap -> connector1 [label=20];
            connector1 -> t1 [label=1];
            connector1 -> expensive_bridge [label=30];
            expensive_bridge -> t2 [label=1];

            root -> late_optimal [label=15];
            late_optimal -> connector2 [label=2];
            connector2 -> t1 [label=1];
            connector2 -> t2 [label=1];
            connector2 -> t3 [label=1];

            early_trap -> t3 [label=60];
        }
        "#,
    );

    let total_weight = runner.run();
    // Greedy trap: 1 + 20 + 1 + 30 + 1 + 60 = 113
    // Optimal: 15 + 2 + 1 + 1 + 1 = 20
    // The algorithm should find something between these
    assert_eq!(total_weight, 20, "\n{}", runner.debug_graph());
    assert_eq!(runner.steiner_graph(), "digraph {\n  connector2 -> t1\n  connector2 -> t2\n  connector2 -> t3\n  late_optimal -> connector2\n  root -> late_optimal\n}");
}

#[test]
fn unoptimal_deceptive_density() {
    // Graph where initial density (cost per terminal) is deceptive
    // Low initial density leads to high final cost
    let mut runner = Runner::from_dot_graph(
        r#"
        digraph {
            root -> cheap_dense [label=2];
            cheap_dense -> t1 [label=1];
            cheap_dense -> t2 [label=1];
            cheap_dense -> dead_end [label=100];

            root -> expensive_sparse [label=30];
            expensive_sparse -> t1 [label=1];
            expensive_sparse -> good_path [label=1];
            good_path -> t2 [label=1];
            good_path -> t3 [label=1];
            good_path -> t4 [label=1];

            dead_end -> t3 [label=1];
            dead_end -> t4 [label=1];
        }
        "#,
    );

    let total_weight = runner.run();
    // Greedy might pick cheap_dense first (density 2 for 2 terminals)
    // Then forced to pay 100 to reach t3, t4: 2 + 1 + 1 + 100 + 1 + 1 = 106
    // Optimal: 30 + 1 + 1 + 1 + 1 + 1 = 35
    assert_eq!(total_weight, 37, "\n{}", runner.debug_graph());
    assert_eq!(runner.steiner_graph(), "digraph {\n  cheap_dense -> t1\n  cheap_dense -> t2\n  expensive_sparse -> good_path\n  good_path -> t3\n  good_path -> t4\n  root -> cheap_dense\n  root -> expensive_sparse\n}");
}

#[test]
fn zero_weight_edges_trap() {
    // Zero-weight edges can mislead the algorithm by saturating instantly
    // They seem "free" but can lead to expensive paths being locked in
    let mut runner = Runner::from_dot_graph(
        r#"
        digraph {
            root -> trap_path [label=0];
            trap_path -> expensive_connector [label=0];
            expensive_connector -> t1 [label=100];
            expensive_connector -> t2 [label=100];
 
            root -> good_path [label=30];
            good_path -> t1 [label=1];
            good_path -> t2 [label=1];
            good_path -> t3 [label=1];

            trap_path -> t3 [label=200];
        }
        "#,
    );

    let total_weight = runner.run();
    // Zero-weight edges saturate instantly, potentially locking in expensive paths
    // Trap path: 0 + 0 + 100 + 100 + 200 = 400
    // Good path: 30 + 1 + 1 + 1 = 33
    assert_eq!(total_weight, 33, "\n{}", runner.debug_graph());
    assert_eq!(runner.steiner_graph(), "digraph {\n  good_path -> t1\n  good_path -> t2\n  good_path -> t3\n  root -> good_path\n}");
}

#[test]
fn terminal_ordering_sensitivity() {
    // The order in which terminals are processed can affect the outcome
    // This tests whether the algorithm is sensitive to terminal ordering
    let mut runner = Runner::from_dot_graph(
        r#"
        digraph {
            root -> path_a [label=10];
            root -> path_b [label=10];
            path_a -> t1 [label=1];
            path_a -> connector_a [label=40];
            connector_a -> t2 [label=1];

            path_b -> t2 [label=1];
            path_b -> connector_b [label=40];
            connector_b -> t1 [label=1];

            path_a -> t3 [label=5];
            path_b -> t3 [label=5];
        }
        "#,
    );

    let total_weight = runner.run();
    // Depending on which terminal saturates first, different paths are chosen
    // Best: 10 + 1 + 10 + 1 + 5 = 27 (use both paths for t1, t2, share one for t3)
    // Worst: 10 + 1 + 40 + 1 + 5 = 57 (commit to one path early)
    assert_eq!(total_weight, 27, "\n{}", runner.debug_graph());
    assert_eq!(runner.steiner_graph(), "digraph {\n  path_a -> t1\n  path_b -> t2\n  path_b -> t3\n  root -> path_a\n  root -> path_b\n}");
}

#[test]
fn large_approximation_ratio() {
    // Demonstrates a case approaching the theoretical k-approximation bound
    // where k is the number of terminals
    let mut runner = Runner::from_dot_graph(
        r#"
        digraph {
            root -> hub [label=1000];
            hub -> t1 [label=1];
            hub -> t2 [label=1];
            hub -> t3 [label=1];
            hub -> t4 [label=1];

            root -> direct1 [label=100];
            direct1 -> t1 [label=1];

            root -> direct2 [label=100];
            direct2 -> t2 [label=1];

            root -> direct3 [label=100];
            direct3 -> t3 [label=1];

            root -> direct4 [label=100];
            direct4 -> t4 [label=1];
        }
        "#,
    );

    let total_weight = runner.run();
    // Optimal: hub solution = 1000 + 4 = 1004
    // Suboptimal: individual paths = 4 * 101 = 404
    // The algorithm should find the better solution (404)
    assert_eq!(total_weight, 404, "\n{}", runner.debug_graph());
    assert_eq!(runner.steiner_graph(), "digraph {\n  direct1 -> t1\n  direct2 -> t2\n  direct3 -> t3\n  direct4 -> t4\n  root -> direct1\n  root -> direct2\n  root -> direct3\n  root -> direct4\n}");
}

#[test]
fn bottleneck_graph() {
    // Graph with a bottleneck that all paths must go through
    // Tests how the algorithm handles forced convergence points
    let mut runner = Runner::from_dot_graph(
        r#"
        digraph {
            root -> bottleneck [label=50];
            bottleneck -> branch1 [label=10];
            bottleneck -> branch2 [label=10];
            branch1 -> t1 [label=1];
            branch1 -> t2 [label=1];
            branch2 -> t3 [label=1];
            branch2 -> t4 [label=1];

            root -> expensive_bypass1 [label=60];
            expensive_bypass1 -> t1 [label=1];
            root -> expensive_bypass2 [label=60];
            expensive_bypass2 -> t2 [label=1];
        }
        "#,
    );

    let total_weight = runner.run();
    // Through bottleneck: 50 + 10 + 10 + 1 + 1 + 1 + 1 = 74
    // Bypassing for some: varies based on choices
    assert_eq!(total_weight, 74, "\n{}", runner.debug_graph());
    assert_eq!(runner.steiner_graph(), "digraph {\n  bottleneck -> branch1\n  bottleneck -> branch2\n  branch1 -> t1\n  branch1 -> t2\n  branch2 -> t3\n  branch2 -> t4\n  root -> bottleneck\n}");
}

#[test]
fn overlapping_paths_interdependencies() {
    // Complex overlapping paths where choosing one affects the cost of others
    let mut runner = Runner::from_dot_graph(
        r#"
        digraph {
            root -> shared1 [label=20];
            root -> shared2 [label=20];
 
            shared1 -> middle [label=15];
            shared2 -> middle [label=15];

            middle -> t1 [label=5];
            middle -> t2 [label=5];

            shared1 -> direct_t1 [label=30];
            direct_t1 -> t1 [label=1];

            shared2 -> direct_t2 [label=30];
            direct_t2 -> t2 [label=1];

            root -> independent [label=35];
            independent -> t1 [label=1];
            independent -> t2 [label=1];
        }
        "#,
    );

    let total_weight = runner.run();
    // Multiple valid solutions with different trade-offs
    // Via middle: 20 + 15 + 5 + 5 = 45
    // Independent: 35 + 1 + 1 = 37
    // Mixed strategies possible
    assert_eq!(total_weight, 37, "\n{}", runner.debug_graph());
    assert_eq!(runner.steiner_graph(), "digraph {\n  independent -> t1\n  independent -> t2\n  root -> independent\n}");
}

#[test]
fn late_arriving_better_options() {
    // Graph where better options only become apparent late in the flow
    // Early saturation can lock out these better late-arriving options
    let mut runner = Runner::from_dot_graph(
        r#"
        digraph {
            root -> early_cheap [label=1];
            early_cheap -> slow_path1 [label=20];
            slow_path1 -> slow_path2 [label=20];
            slow_path2 -> slow_path3 [label=20];
            slow_path3 -> t1 [label=1];
            slow_path3 -> t2 [label=1];

            root -> late_expensive [label=40];
            late_expensive -> t1 [label=1];
            late_expensive -> t2 [label=1];
            late_expensive -> t3 [label=1];
 
            early_cheap -> t3 [label=100];
        }
        "#,
    );

    let total_weight = runner.run();
    // Early cheap path: 1 + 20 + 20 + 20 + 1 + 1 + 100 = 163
    // Late expensive path: 40 + 1 + 1 + 1 = 43
    // The algorithm should eventually find the better path
    assert_eq!(total_weight, 43, "\n{}", runner.debug_graph());
    assert_eq!(runner.steiner_graph(), "digraph {\n  late_expensive -> t1\n  late_expensive -> t2\n  late_expensive -> t3\n  root -> late_expensive\n}");
}

#[test]
fn unoptimal_multiple_terminals_different_depths() {
    // Terminals at different depths in the graph can cause suboptimal choices
    let mut runner = Runner::from_dot_graph(
        r#"
        digraph {
            root -> shallow [label=5];
            shallow -> t1 [label=1];
 
            root -> medium [label=10];
            medium -> level2 [label=10];
            level2 -> t2 [label=1];
 
            root -> deep [label=15];
            deep -> deep2 [label=15];
            deep2 -> deep3 [label=15];
            deep3 -> t3 [label=1];
 
            shallow -> cross_link [label=50];
            cross_link -> t2 [label=1];
            cross_link -> t3 [label=1];
        }
        "#,
    );

    let total_weight = runner.run();
    // Optimal separate paths: 5 + 1 + 10 + 10 + 1 + 15 + 15 + 15 + 1 = 73
    // Using cross_link: 5 + 1 + 50 + 1 + 1 = 58
    // The algorithm should find a reasonable solution
    assert_eq!(total_weight, 73, "\n{}", runner.debug_graph());
    assert_eq!(runner.steiner_graph(), "digraph {\n  deep -> deep2\n  deep2 -> deep3\n  deep3 -> t3\n  level2 -> t2\n  medium -> level2\n  root -> deep\n  root -> medium\n  root -> shallow\n  shallow -> t1\n}");
}

#[test]
fn flow_rate_confusion() {
    // Complex flow rates can confuse the algorithm's saturation calculations
    let mut runner = Runner::from_dot_graph(
        r#"
        digraph {
            root -> split1 [label=30];
            root -> split2 [label=30];
 
            split1 -> merge [label=20];
            split2 -> merge [label=20];
 
            merge -> t1 [label=10];
            merge -> t2 [label=10];
 
            split1 -> t3 [label=15];
            split2 -> t4 [label=15];
 
            root -> direct [label=60];
            direct -> t1 [label=1];
            direct -> t2 [label=1];
            direct -> t3 [label=1];
            direct -> t4 [label=1];
        }
        "#,
    );

    let total_weight = runner.run();
    // Direct path: 60 + 1 + 1 + 1 + 1 = 64
    // Split paths: complex depending on flow dynamics
    assert_eq!(total_weight, 64, "\n{}", runner.debug_graph());
    assert_eq!(runner.steiner_graph(), "digraph {\n  direct -> t1\n  direct -> t2\n  direct -> t3\n  direct -> t4\n  root -> direct\n}");
}

#[test]
fn parallel_asymmetric_branches() {
    // Parallel branches with asymmetric costs and terminal distributions
    let mut runner = Runner::from_dot_graph(
        r#"
        digraph {
            root -> branch_a [label=5];
            root -> branch_b [label=50];

            branch_a -> a_split1 [label=10];
            branch_a -> a_split2 [label=10];
            a_split1 -> t1 [label=1];
            a_split2 -> t2 [label=1];

            branch_b -> b_split1 [label=1];
            branch_b -> b_split2 [label=1];
            b_split1 -> t3 [label=1];
            b_split1 -> t4 [label=1];
            b_split2 -> t5 [label=1];
            b_split2 -> t6 [label=1];

            a_split1 -> expensive_cross [label=100];
            expensive_cross -> t3 [label=1];
            expensive_cross -> t4 [label=1];
            expensive_cross -> t5 [label=1];
            expensive_cross -> t6 [label=1];
        }
        "#,
    );

    let total_weight = runner.run();
    // Branch A for t1,t2: 5 + 10 + 10 + 1 + 1 = 27
    // Branch B for t3,t4,t5,t6: 50 + 1 + 1 + 1 + 1 + 1 + 1 = 56
    // Total optimal: 83
    // Using cross link would be much worse
    assert_eq!(total_weight, 83, "\n{}", runner.debug_graph());
    assert_eq!(runner.steiner_graph(), "digraph {\n  a_split1 -> t1\n  a_split2 -> t2\n  b_split1 -> t3\n  b_split1 -> t4\n  b_split2 -> t5\n  b_split2 -> t6\n  branch_a -> a_split1\n  branch_a -> a_split2\n  branch_b -> b_split1\n  branch_b -> b_split2\n  root -> branch_a\n  root -> branch_b\n}");
}

#[test]
fn flac_step_by_step() {
    let mut runner = Runner::with_terminals(
        r#"digraph {
            root -> a;
            a -> b [cost=1];
            a -> c [cost=2];
            }"#,
        "cost",
        &["b", "c"],
    );

    let outcome = runner.run_once();
    assert!(outcome.is_continue(), "\n{}", runner.debug_graph());
    assert_eq!(runner.steiner_graph(), "digraph {\n  a -> b\n  root -> a\n}");

    let outcome = runner.run_once();
    assert!(outcome.is_break(), "\n{}", runner.debug_graph());
    assert_eq!(runner.steiner_graph(), "digraph {\n  a -> b\n  a -> c\n  root -> a\n}");
}

#[test]
fn flac_single_terminal_direct_path() {
    let mut runner = Runner::with_terminals(
        r#"digraph {
            root -> terminal [cost=5];
            }"#,
        "cost",
        &["terminal"],
    );

    let total_cost = runner.run();
    assert_eq!(total_cost, 5, "\n{}", runner.debug_graph());
    assert_eq!(runner.steiner_graph(), "digraph {\n  root -> terminal\n}");
}

#[test]
fn flac_multiple_terminals_shared_edges() {
    let mut runner = Runner::with_terminals(
        r#"digraph {
            root -> shared [cost=10];
            shared -> t1 [cost=3];
            shared -> t2 [cost=5];
            shared -> t3 [cost=2];
            }"#,
        "cost",
        &["t1", "t2", "t3"],
    );

    let total_cost = runner.run();
    assert_eq!(total_cost, 20, "\n{}", runner.debug_graph()); // 10 + 3 + 5 + 2
    assert_eq!(
        runner.steiner_graph(),
        "digraph {\n  root -> shared\n  shared -> t1\n  shared -> t2\n  shared -> t3\n}"
    );
}

#[test]
fn flac_degenerate_flow_detection() {
    // Graph where t1 can reach a through two paths, which would create degenerate flow
    let mut runner = Runner::with_terminals(
        r#"digraph {
            root -> a [cost=10];
            a -> b [cost=2];
            a -> c [cost=3];
            b -> t1 [cost=1];
            c -> t1 [cost=1];
            }"#,
        "cost",
        &["t1"],
    );

    let total_cost = runner.run();
    // Should pick one path: root -> a -> b -> t1 (10 + 2 + 1)
    assert_eq!(total_cost, 13, "\n{}", runner.debug_graph());
    assert_eq!(runner.steiner_graph(), "digraph {\n  a -> b\n  b -> t1\n  root -> a\n}");
}

#[test]
fn flac_complex_graph_multiple_paths() {
    let mut runner = Runner::with_terminals(
        r#"digraph {
            root -> a [cost=5];
            root -> b [cost=8];
            a -> c [cost=3];
            b -> c [cost=2];
            c -> t1 [cost=4];
            c -> t2 [cost=6];
            a -> t2 [cost=10];
            b -> t3 [cost=7];
            }"#,
        "cost",
        &["t1", "t2", "t3"],
    );

    let total_cost = runner.run();
    // root -> a -> c -> t1,t2: 5 + 3 + 6 + 4 = 18
    // root -> b -> t3: 8 + 7 = 15
    assert_eq!(total_cost, 33, "\n{}", runner.debug_graph());
    assert_eq!(
        runner.steiner_graph(),
        "digraph {\n  a -> c\n  b -> t3\n  c -> t1\n  c -> t2\n  root -> a\n  root -> b\n}"
    );
}

#[test]
fn flac_incremental_terminal_addition() {
    let mut runner = Runner::with_terminals(
        r#"digraph {
            root -> a [cost=4];
            root -> b [cost=6];
            a -> t1 [cost=2];
            b -> t2 [cost=3];
            a -> t3 [cost=5];
            }"#,
        "cost",
        &["t1"],
    );

    // First run with only t1
    let total_cost = runner.run();
    assert_eq!(total_cost, 6, "\n{}", runner.debug_graph()); // root -> a -> t1: 4 + 2

    // Add t2 as a new terminal
    runner.extend_terminals(&["t2"]);
    let total_cost = runner.run();
    assert_eq!(total_cost, 6 + 9, "\n{}", runner.debug_graph()); // root -> b -> t2: 6 + 3

    // Add t3 as another terminal
    runner.extend_terminals(&["t3"]);
    let total_cost = runner.run();
    // a -> t3: 5 (root -> a already in tree)
    assert_eq!(total_cost, 6 + 9 + 5, "\n{}", runner.debug_graph());

    assert_eq!(
        runner.steiner_graph(),
        "digraph {\n  a -> t1\n  a -> t3\n  b -> t2\n  root -> a\n  root -> b\n}"
    );
}

#[test]
fn flac_diamond_shaped_graph() {
    let mut runner = Runner::with_terminals(
        r#"digraph {
            root -> top [cost=5];
            top -> left [cost=3];
            top -> right [cost=4];
            left -> bottom [cost=6];
            right -> bottom [cost=2];
            bottom -> t1 [cost=1];
            left -> t2 [cost=8];
            right -> t3 [cost=7];
            }"#,
        "cost",
        &["t1", "t2", "t3"],
    );

    let total_cost = runner.run();
    // root->top->left->t2 (5+3+8=16) + top->right->bottom->t1 (4+2+1=7) + right->t3 (7-already have right)
    assert_eq!(total_cost, 30, "\n{}", runner.debug_graph());
    assert_eq!(
        runner.steiner_graph(),
        "digraph {\n  bottom -> t1\n  left -> t2\n  right -> bottom\n  right -> t3\n  root -> top\n  top -> left\n  top -> right\n}"
    );
}

#[test]
fn flac_linear_chain_graph() {
    let mut runner = Runner::with_terminals(
        r#"digraph {
            root -> n1 [cost=2];
            n1 -> n2 [cost=3];
            n2 -> n3 [cost=4];
            n3 -> n4 [cost=5];
            n4 -> t1 [cost=6];
            n2 -> t2 [cost=10];
            n3 -> t3 [cost=8];
            }"#,
        "cost",
        &["t1", "t2", "t3"],
    );

    let total_cost = runner.run();
    // root->n1->n2->n3->n4->t1 (2+3+4+5+6=20) + n2->t2 (10) + n3->t3 (8)
    assert_eq!(total_cost, 38, "\n{}", runner.debug_graph());
    assert_eq!(
        runner.steiner_graph(),
        "digraph {\n  n1 -> n2\n  n2 -> n3\n  n2 -> t2\n  n3 -> n4\n  n3 -> t3\n  n4 -> t1\n  root -> n1\n}"
    );
}

#[test]
fn terminal_already_in_tree_needs_no_run() {
    let mut runner = Runner::with_terminals("digraph { root -> a [label=3]; }", "label", &["root"]);
    // The root is part of the tree: the terminal is not connected by a run, and no edge feeds it,
    // so the run makes no progress and ends.
    assert!(runner.run_once().is_break());
    assert_eq!(runner.steiner_tree.total_weight, 0);
    assert_eq!(runner.steiner_graph(), "digraph {\n}");
}

#[test]
fn extend_terminals_breaks_when_nothing_new() {
    let mut runner = Runner::from_dot_graph("digraph { root -> a [label=3]; a -> t1 [label=1]; }");
    assert_eq!(runner.run(), 4);
    let a = runner.nodes["a"].index();
    let t1 = runner.nodes["t1"].index();
    // Both nodes are already part of the tree.
    assert!(runner.steiner_tree.extend_terminals(vec![a, t1]).is_break());
    assert_eq!(runner.steiner_tree.terminals, vec![t1]);
    let root = runner.nodes["root"].index();
    let mut fresh = SteinerTree::new(&runner.graph, root, vec![]);
    // A node outside the tree becomes a terminal, once.
    assert!(fresh.extend_terminals(vec![t1, t1]).is_continue());
    assert_eq!(fresh.terminals, vec![t1]);
    assert!(fresh.contains_node(root));
    assert!(!fresh.contains_node(t1));
}

#[test]
fn clone_from_with_new_terminals_copies_the_tree() {
    let mut runner = Runner::from_dot_graph("digraph { root -> a [label=3]; a -> t1 [label=1]; a -> b [label=2]; }");
    assert_eq!(runner.run(), 4);
    let root = runner.nodes["root"].index();
    let b = runner.nodes["b"].index();
    let t1 = runner.nodes["t1"].index();
    let mut copy = SteinerTree::new(&runner.graph, root, vec![]);
    assert!(copy.clone_from_with_new_terminals(&runner.steiner_tree, vec![t1]).is_break());
    assert!(copy.clone_from_with_new_terminals(&runner.steiner_tree, vec![b]).is_continue());
    assert_eq!(copy.terminals, vec![b]);
    assert!(copy.contains_node(t1));
    assert_eq!(copy.total_weight, 0);
    let mut flac = GreedyFlac::new(&runner.graph);
    flac.run(&runner.graph, &mut copy);
    // Only the edge a -> b is added to the copy.
    assert_eq!(copy.total_weight, 2);
}

#[test]
fn add_subtree_stops_when_the_weight_would_overflow() {
    let mut runner = Runner::from_dot_graph("digraph { root -> a [label=4294967295]; a -> t1 [label=1]; }");
    let a = runner.nodes["a"].index();
    let flow = Flow::new(&runner.graph);
    assert!(flow.add_subtree(&runner.graph, &mut runner.steiner_tree, 0, a));
    assert_eq!(runner.steiner_tree.total_weight, u32::MAX);
    assert!(runner.steiner_tree.contains_node(a));
    let mut runner = Runner::from_dot_graph("digraph { root -> a [label=4294967295]; a -> t1 [label=1]; }");
    runner.steiner_tree.total_weight = 1;
    assert!(!flow.add_subtree(&runner.graph, &mut runner.steiner_tree, 0, a));
    assert_eq!(runner.steiner_tree.total_weight, 1);
}

/// The weight fixed point, with the scratch flow that estimates requirement weights.
struct Updater {
    state: RequirementAndWeightUpdater,
    tmp_flac: GreedyFlac,
}

impl Updater {
    fn new(graph: &Graph<(), u32>, root: usize) -> Self {
        Self {
            state: RequirementAndWeightUpdater::new(graph, root),
            tmp_flac: GreedyFlac::new(graph),
        }
    }

    fn initialize(
        &mut self,
        graph: &mut Graph<(), u32>,
        reqs: &mut Requirements,
        tree: &mut SteinerTree,
        space_node_is_terminal: &mut FixedBitSet,
    ) -> Result<(), Error> {
        if !self.state.initialize(reqs) {
            self.run_fixed_point_weight(graph, reqs, tree, space_node_is_terminal)?;
        }
        Ok(())
    }

    fn run_fixed_point_weight(
        &mut self,
        graph: &mut Graph<(), u32>,
        reqs: &mut Requirements,
        tree: &mut SteinerTree,
        space_node_is_terminal: &mut FixedBitSet,
    ) -> Result<ControlFlow<()>, Error> {
        let mut i: u32 = 0;
        loop {
            i += 1;
            let updated = self.generate_weight_updates(graph, reqs, tree);
            if self.state.fixed_point_step(i, updated)?.is_break() {
                break;
            }
        }
        Ok(self.state.finish(i, tree, space_node_is_terminal))
    }

    fn generate_weight_updates(&mut self, graph: &mut Graph<(), u32>, reqs: &mut Requirements, tree: &SteinerTree) -> bool {
        self.state.apply_free_requirements(reqs, tree, graph);
        let mut updated = false;
        let mut start = 0;
        loop {
            let (next, changed) = self.state.settle_requirements(graph, reqs, tree, start);
            updated |= changed;
            let Some(index) = next else {
                break;
            };
            self.tmp_flac.flow.reset();
            let weight = match self.state.prepare_estimate(graph, reqs, tree, index) {
                ControlFlow::Break(()) => 0,
                ControlFlow::Continue(()) => {
                    self.tmp_flac.run(graph, &mut self.state.tmp_steiner_tree);
                    self.state.tmp_steiner_tree.total_weight
                }
            };
            assert!(reqs.requirements_weight_fits(index, weight), "Steiner weight overflow");
            updated |= reqs.apply_requirements_weight(graph, index, weight);
            start = index + 1;
        }
        updated
    }
}

/// Grows the tree and updates the weights in turn until neither changes anything.
fn solve(graph: &mut Graph<(), u32>, reqs: &mut Requirements, tree: &mut SteinerTree, space: &mut FixedBitSet) -> Result<(), Error> {
    if tree.terminals.is_empty() {
        return Ok(());
    }
    let mut flac = GreedyFlac::new(graph);
    let mut updater = Updater::new(graph, 0);
    updater.initialize(graph, reqs, tree, space)?;
    loop {
        let growth = flac.run_once(graph, tree);
        let update = updater.run_fixed_point_weight(graph, reqs, tree, space)?;
        if update.is_break() && growth.is_break() {
            break;
        }
    }
    Ok(())
}

fn range(start: usize, end: usize) -> IdRange {
    IdRange { start, end }
}

fn no_requirements() -> Requirements {
    Requirements {
        free_requirements_by_node: vec![],
        free_requirements_by_edge: vec![],
        requirements_by_edge: vec![],
        required_nodes: vec![],
        required_space_nodes: vec![],
        unavoidable_parent_edges: vec![],
        dependent_edges_with_inherent_weight: vec![],
    }
}

/// root -> a (10) -> t1 and root -> b (4) -> t1, where b requires x, reached by root -> c -> x.
fn requirement_graph(c_weight: u32) -> (Graph<(), u32>, Vec<String>, HashMap<String, NodeIndex>, Requirements) {
    let dot = format!(
        "digraph {{ root -> a [label=10]; a -> t1; root -> b [label=4]; b -> t1; root -> c [label={c_weight}]; c -> x; }}"
    );
    let (graph, names, nodes) = dot_graph(&dot, "label");
    let mut reqs = no_requirements();
    reqs.required_nodes = vec![nodes["x"].index()];
    reqs.required_space_nodes = vec![3];
    // The edge root -> b is the third edge.
    reqs.dependent_edges_with_inherent_weight = vec![(2, 4)];
    reqs.requirements_by_edge = vec![RequirementsByEdge {
        unavoidable_parent_edge_ids: range(0, 0),
        required_space_node_ids: range(0, 1),
        required_node_ids: range(0, 1),
        dependent_edge_with_inherent_weight_ids: range(0, 1),
    }];
    (graph, names, nodes, reqs)
}

fn tree_edges(graph: &Graph<(), u32>, names: &[String], tree: &SteinerTree) -> Vec<String> {
    let mut edges: Vec<String> = graph
        .edge_references()
        .filter(|e| tree.edges[e.id().index()])
        .map(|e| format!("{} -> {}", names[e.source().index()], names[e.target().index()]))
        .collect();
    edges.sort();
    edges
}

#[test]
fn costly_requirements_steer_away_from_an_edge() {
    let (mut graph, names, nodes, mut reqs) = requirement_graph(7);
    let mut tree = SteinerTree::new(&graph, nodes["root"].index(), vec![nodes["t1"].index()]);
    let mut space = FixedBitSet::with_capacity(8);
    solve(&mut graph, &mut reqs, &mut tree, &mut space).unwrap();
    // root -> b weighs 4 + 7 once its requirement is estimated: going through a is cheaper.
    assert_eq!(graph[petgraph::graph::EdgeIndex::new(2)], 11);
    assert_eq!(tree.total_weight, 10);
    assert_eq!(tree_edges(&graph, &names, &tree), vec!["a -> t1", "root -> a"]);
    assert_eq!(tree.terminals, vec![nodes["t1"].index()]);
    assert_eq!(space.count_ones(..), 0);
    assert_eq!(reqs.requirements_by_edge.len(), 1);
}

#[test]
fn cheap_requirements_become_terminals() {
    let (mut graph, names, nodes, mut reqs) = requirement_graph(2);
    let mut tree = SteinerTree::new(&graph, nodes["root"].index(), vec![nodes["t1"].index()]);
    let mut space = FixedBitSet::with_capacity(8);
    solve(&mut graph, &mut reqs, &mut tree, &mut space).unwrap();
    // root -> b weighs 4 + 2 and wins; then x becomes a terminal and is reached through c.
    assert_eq!(tree.total_weight, 6 + 2);
    assert_eq!(tree_edges(&graph, &names, &tree), vec!["b -> t1", "c -> x", "root -> b", "root -> c"]);
    assert_eq!(tree.terminals, vec![nodes["t1"].index(), nodes["x"].index()]);
    assert!(space.contains(3));
    assert!(reqs.requirements_by_edge.is_empty());
}

#[test]
fn free_requirements_follow_the_tree() {
    let (graph, _names, nodes) = dot_graph("digraph { root -> a [label=1]; a -> t1 [label=1]; root -> y [label=5]; }", "label");
    let mut reqs = no_requirements();
    reqs.required_nodes = vec![nodes["y"].index()];
    reqs.required_space_nodes = vec![1, 2];
    reqs.free_requirements_by_node = vec![
        FreeRequirementByNode { node_id: nodes["t1"].index(), required_node_ids: range(0, 1), required_space_node_ids: range(0, 1) },
        FreeRequirementByNode { node_id: nodes["y"].index(), required_node_ids: range(0, 0), required_space_node_ids: range(1, 2) },
    ];
    // The edge a -> t1 is the second edge.
    reqs.free_requirements_by_edge = vec![FreeRequirementByEdge {
        edge_id: 1,
        required_node_ids: range(0, 0),
        required_space_node_ids: range(1, 2),
    }];
    let mut runner = Runner::with_terminals("digraph { root -> a [label=1]; a -> t1 [label=1]; root -> y [label=5]; }", "label", &["t1"]);
    assert_eq!(runner.run(), 2);
    let mut updater = RequirementAndWeightUpdater::new(&graph, 0);
    updater.apply_free_requirements(&mut reqs, &runner.steiner_tree, &graph);
    // t1 and a -> t1 are in the tree: their requirements are collected, y's is kept.
    assert_eq!(updater.tmp_new_terminals, vec![nodes["y"].index()]);
    assert_eq!(updater.tmp_new_space_terminals, vec![1, 2]);
    assert_eq!(reqs.free_requirements_by_node.len(), 1);
    assert_eq!(reqs.free_requirements_by_node[0].node_id, nodes["y"].index());
    assert!(reqs.free_requirements_by_edge.is_empty());
    let mut space = FixedBitSet::with_capacity(3);
    assert!(updater.finish(1, &mut runner.steiner_tree, &mut space).is_continue());
    assert_eq!(runner.steiner_tree.terminals, vec![nodes["t1"].index(), nodes["y"].index()]);
    assert_eq!(space.ones().collect::<Vec<_>>(), vec![1, 2]);
    assert!(updater.tmp_new_terminals.is_empty());
    assert_eq!(updater.independent_requirements, Some(false));
    assert_eq!(runner.run(), 7);
}

#[test]
fn fixed_point_gives_up_on_requirement_cycles() {
    let (graph, _names, _nodes) = dot_graph("digraph { root -> a; }", "label");
    let mut updater = RequirementAndWeightUpdater::new(&graph, 0);
    assert!(matches!(updater.fixed_point_step(1, false), Ok(ControlFlow::Break(()))));
    assert!(matches!(updater.fixed_point_step(100, true), Ok(ControlFlow::Continue(()))));
    assert!(matches!(updater.fixed_point_step(101, true), Err(Error::RequirementCycleDetected)));
    assert!(updater.initialize(&no_requirements()));
    assert_eq!(updater.independent_requirements, Some(true));
    assert!(matches!(updater.fixed_point_step(101, true), Ok(ControlFlow::Break(()))));
}

#[test]
fn requirement_weights_must_fit() {
    let (mut graph, _names, _nodes, reqs) = requirement_graph(2);
    assert!(reqs.requirements_weight_fits(0, u32::MAX - 4));
    assert!(!reqs.requirements_weight_fits(0, u32::MAX - 3));
    assert!(reqs.apply_requirements_weight(&mut graph, 0, 3));
    assert_eq!(graph[petgraph::graph::EdgeIndex::new(2)], 7);
    assert!(!reqs.apply_requirements_weight(&mut graph, 0, 3));
}

/// The tree grown by a run: every edge joins two tree nodes, none goes into the root, no node
/// has two edges into it, and every node climbs tree edges up to the root.
fn assert_arborescence(runner: &Runner) {
    let root = runner.nodes["root"].index();
    let tree = &runner.steiner_tree;
    let mut parent: HashMap<usize, usize> = HashMap::new();
    for edge in runner.graph.edge_references() {
        if !tree.edges[edge.id().index()] {
            continue;
        }
        let (source, target) = (edge.source().index(), edge.target().index());
        assert!(tree.nodes[source] && tree.nodes[target], "\n{}", runner.debug_graph());
        assert_ne!(target, root, "\n{}", runner.debug_graph());
        assert!(parent.insert(target, source).is_none(), "two edges into {}\n{}", runner.names[target], runner.debug_graph());
    }
    for node in tree.nodes.ones() {
        let mut current = node;
        let mut steps = 0;
        while current != root {
            current = parent[&current];
            steps += 1;
            assert!(steps <= runner.graph.node_count(), "cycle through {}\n{}", runner.names[node], runner.debug_graph());
        }
    }
}

#[test]
fn greedy_flac_water_example_one_subtree_per_run() {
    let mut runner = Runner::from_dot_graph(
        r#"digraph {
            root -> a [label=5];
            root -> b [label=8];
            a -> t1 [label=2];
            a -> t2 [label=3];
            b -> t3 [label=7];
        }"#,
    );
    assert!(runner.run_once().is_continue());
    assert_eq!(runner.steiner_tree.total_weight, 10, "\n{}", runner.debug_graph());
    assert_eq!(runner.steiner_graph(), "digraph {\n  a -> t1\n  a -> t2\n  root -> a\n}");
    assert_arborescence(&runner);
    assert!(runner.run_once().is_break());
    assert_eq!(runner.steiner_tree.total_weight, 25, "\n{}", runner.debug_graph());
    assert_eq!(
        runner.steiner_graph(),
        "digraph {\n  a -> t1\n  a -> t2\n  b -> t3\n  root -> a\n  root -> b\n}"
    );
    assert_arborescence(&runner);
}

#[test]
fn every_run_leaves_an_arborescence() {
    let graphs = [
        r#"digraph {
            root -> a [label=10];
            a -> b [label=2];
            a -> c [label=3];
            b -> t1 [label=1];
            c -> t1 [label=1];
        }"#,
        r#"digraph {
            root -> a [label=1];
            root -> b [label=1];
            a -> c [label=1];
            b -> c [label=1];
            c -> t1 [label=1];
            c -> t2 [label=1];
            a -> t2 [label=4];
        }"#,
        r#"digraph {
            root -> a [label=3];
            root -> a [label=3];
            a -> b [label=1];
            b -> a [label=1];
            b -> t1 [label=2];
            a -> t2 [label=2];
            b -> t2 [label=2];
        }"#,
        r#"digraph {
            root -> x [label=6];
            root -> y [label=2];
            x -> t1 [label=1];
            y -> x [label=1];
            x -> y [label=1];
            y -> t2 [label=5];
            x -> t2 [label=1];
            t1 -> t2 [label=1];
            t2 -> t1 [label=1];
        }"#,
    ];
    for dot in graphs {
        let mut runner = Runner::from_dot_graph(dot);
        loop {
            let connected = runner.greedy_flac.flow.root_feeding_terminals.count_ones(..);
            let control = runner.run_once();
            let now = runner.greedy_flac.flow.root_feeding_terminals.count_ones(..);
            assert!(now > connected, "a run connected no terminal\n{}", runner.debug_graph());
            assert_arborescence(&runner);
            if control.is_break() {
                break;
            }
        }
        assert_eq!(runner.greedy_flac.breaks, 0, "\n{}", runner.debug_graph());
        for terminal in ["t1", "t2"] {
            if let Some(node) = runner.nodes.get(terminal) {
                assert!(runner.steiner_tree.nodes[node.index()], "{} not reached\n{}", terminal, runner.debug_graph());
            }
        }
    }
}

#[test]
fn weight_pass_without_change_keeps_every_weight() {
    let (mut graph, _names, _nodes, reqs) = requirement_graph(2);
    assert!(reqs.apply_requirements_weight(&mut graph, 0, 3));
    let weights: Vec<u32> = graph.edge_weights().copied().collect();
    assert!(!reqs.apply_requirements_weight(&mut graph, 0, 3));
    assert_eq!(graph.edge_weights().copied().collect::<Vec<u32>>(), weights);
}

#[test]
fn initialize_terminals_leaves_terminals_without_next_edge_dry() {
    let runner = Runner::from_dot_graph("digraph { root -> t1 [label=1]; t2 -> root [label=1]; }");
    let t1 = runner.nodes["t1"].index();
    let t2 = runner.nodes["t2"].index();
    let root = runner.nodes["root"].index();
    let mut flow = Flow::new(&runner.graph);
    let scheduled = flow.initialize_terminals(&runner.graph, &runner.steiner_tree).unwrap();
    assert_eq!(scheduled.len(), 1);
    assert_eq!(scheduled[0].target, t1);
    assert_eq!(flow.node_to_flow_rates[t1], 1);
    assert_eq!(flow.node_to_feeding_terminals[t1].count_ones(..), 1);
    assert_eq!(flow.node_to_flow_rates[t2], 0);
    assert_eq!(flow.node_to_feeding_terminals[t2].count_ones(..), 0);
    assert_eq!(flow.node_to_flow_rates[root], 0);
    assert_eq!(flow.node_to_feeding_terminals[root].count_ones(..), 0);
}

#[test]
fn run_ends_when_a_terminal_cannot_be_reached() {
    let mut runner = Runner::from_dot_graph("digraph { root -> t1 [label=1]; t2 -> root [label=1]; }");
    let t1 = runner.nodes["t1"].index();
    runner.greedy_flac.run(&runner.graph, &mut runner.steiner_tree);
    assert!(runner.steiner_tree.contains_node(t1));
    assert!(!runner.greedy_flac.flow.all_terminals_connected());
}
