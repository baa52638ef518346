use open_hypergraphs::lax::OpenHypergraph as Lax;
use hyperiso::Hyperedge;
use hyperiso::Hypergraph;
use hyperiso::Isomorphism;
use hyperiso::OpenHypergraph;
use hyperiso::Permutation;

#[derive(Clone, PartialEq, Eq, Debug, Hash)]
pub enum NodeType {
    Int,
    Float,
}

#[derive(Clone, PartialEq, Eq, Debug, Hash)]
pub enum EdgeOp {
    Cast,
    Negate,
    Mul,
}

fn node_code(n: &NodeType) -> u64 {
    match n {
        NodeType::Int => 1,
        NodeType::Float => 2,
    }
}

fn edge_code(e: &EdgeOp) -> u64 {
    match e {
        EdgeOp::Cast => 1,
        EdgeOp::Negate => 2,
        EdgeOp::Mul => 3,
    }
}

fn convert(f: &Lax<NodeType, EdgeOp>) -> OpenHypergraph {
    OpenHypergraph {
        sources: f.sources.iter().map(|n| n.0).collect(),
        targets: f.targets.iter().map(|n| n.0).collect(),
        hypergraph: Hypergraph {
            nodes: f.hypergraph.nodes.iter().map(node_code).collect(),
            edges: f.hypergraph.edges.iter().map(edge_code).collect(),
            adjacency: f
                .hypergraph
                .adjacency
                .iter()
                .map(|h| Hyperedge {
                    sources: h.sources.iter().map(|n| n.0).collect(),
                    targets: h.targets.iter().map(|n| n.0).collect(),
                })
                .collect(),
        },
    }
}

fn cast_or_negate_then_mul() -> OpenHypergraph {
    // Create individual operations using singleton
    let cast = Lax::singleton(EdgeOp::Cast, vec![NodeType::Int], vec![NodeType::Float]);
    let negate = Lax::singleton(EdgeOp::Negate, vec![NodeType::Float], vec![NodeType::Float]);
    let mul = Lax::singleton(
        EdgeOp::Mul,
        vec![NodeType::Float, NodeType::Float],
        vec![NodeType::Float],
    );

    // Compose (cast | negate) >> mul
    let cast_or_negate = &cast | &negate;
    let mut circuit = (&cast_or_negate >> &mul).expect("composition should succeed");
    circuit.quotient().expect("quotient should succeed");
    convert(&circuit)
}

#[test]
fn test_identity_isomorphism_validation() {
    let circuit = cast_or_negate_then_mul();

    // Create identity isomorphism
    let num_nodes = circuit.hypergraph.nodes.len();
    let num_edges = circuit.hypergraph.edges.len();
    let identity = Isomorphism::identity(num_nodes, num_edges);

    // Validate that the identity isomorphism is valid for (circuit, circuit)
    assert!(
        identity.validate(&circuit, &circuit),
        "Identity isomorphism should be valid"
    );
}

#[test]
fn test_cyclic_node_permutation_validation() {
    let circuit = cast_or_negate_then_mul();

    let num_nodes = circuit.hypergraph.nodes.len();
    let num_edges = circuit.hypergraph.edges.len();

    // Create cyclic permutation (i+1) % n for nodes
    let cyclic_permutation: Vec<usize> = (0..num_nodes).map(|i| (i + 1) % num_nodes).collect();
    let node_permutation = Permutation::new(cyclic_permutation).expect("valid permutation");

    // Create isomorphism with the cyclic node permutation and identity edge permutation
    let isomorphism = Isomorphism {
        nodes: node_permutation,
        edges: Permutation::identity(num_edges),
    };

    // Apply the isomorphism to get the transformed circuit
    let circuit_copy = isomorphism.apply(&circuit);

    // Validate that the isomorphism correctly maps circuit to circuit_copy
    assert!(
        isomorphism.validate(&circuit, &circuit_copy),
        "Cyclic node permutation should be valid"
    );
}

#[test]
fn test_swapping_unlike_nodes_fails_validation() {
    // A hand-built candidate whose node bijection swaps two nodes with
    // different labels must fail validation, even though both components
    // are perfectly good bijections.
    let circuit = cast_or_negate_then_mul();

    let num_nodes = circuit.hypergraph.nodes.len();
    let num_edges = circuit.hypergraph.edges.len();

    // find one Int-labeled and one Float-labeled node and swap their images
    let int_node = circuit
        .hypergraph
        .nodes
        .iter()
        .position(|&l| l == 1)
        .expect("an Int node exists");
    let float_node = circuit
        .hypergraph
        .nodes
        .iter()
        .position(|&l| l == 2)
        .expect("a Float node exists");
    let mut values: Vec<usize> = (0..num_nodes).collect();
    values.swap(int_node, float_node);
    let swapped = Permutation::new(values).expect("valid permutation");

    let candidate = Isomorphism {
        nodes: swapped,
        edges: Permutation::identity(num_edges),
    };

    assert!(
        !candidate.validate(&circuit, &circuit),
        "Swapping nodes with unlike labels must not validate"
    );
}

#[test]
fn test_apply_moves_labels() {
    // two isolated nodes with distinct labels; moving them along [1, 0]
    // swaps the label positions and rewrites the interfaces
    let f = OpenHypergraph {
        sources: vec![0],
        targets: vec![1],
        hypergraph: Hypergraph {
            nodes: vec![7, 8],
            edges: vec![],
            adjacency: vec![],
        },
    };
    let iso = Isomorphism {
        nodes: Permutation::new(vec![1, 0]).expect("valid permutation"),
        edges: Permutation::identity(0),
    };
    let r = iso.apply(&f);
    assert_eq!(r.hypergraph.nodes, vec![8, 7]);
    assert_eq!(r.sources, vec![1]);
    assert_eq!(r.targets, vec![0]);
}
