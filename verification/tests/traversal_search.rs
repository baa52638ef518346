use open_hypergraphs::lax::OpenHypergraph as Lax;
use hyperiso::Hyperedge;
use hyperiso::Hypergraph;
use hyperiso::Isomorphism;
use hyperiso::OpenHypergraph;
use hyperiso::Permutation;
use hyperiso::traversal::Error;
use hyperiso::traversal::find_isomorphism;

#[derive(Clone, PartialEq, Eq, Debug, Hash)]
pub enum NodeType {
    Int,
    Float,
}

#[derive(Clone, PartialEq, Eq, Debug, Hash)]
pub enum EdgeOp {
    Cast,
    Negate,
    Mul,
}

fn node_code(n: &NodeType) -> u64 {
    match n {
        NodeType::Int => 1,
        NodeType::Float => 2,
    }
}

fn edge_code(e: &EdgeOp) -> u64 {
    match e {
        EdgeOp::Cast => 1,
        EdgeOp::Negate => 2,
        EdgeOp::Mul => 3,
    }
}

fn convert(f: &Lax<NodeType, EdgeOp>) -> OpenHypergraph {
    OpenHypergraph {
        sources: f.sources.iter().map(|n| n.0).collect(),
        targets: f.targets.iter().map(|n| n.0).collect(),
        hypergraph: Hypergraph {
            nodes: f.hypergraph.nodes.iter().map(node_code).collect(),
            edges: f.hypergraph.edges.iter().map(edge_code).collect(),
            adjacency: f
                .hypergraph
                .adjacency
                .iter()
                .map(|h| Hyperedge {
                    sources: h.sources.iter().map(|n| n.0).collect(),
                    targets: h.targets.iter().map(|n| n.0).collect(),
                })
                .collect(),
        },
    }
}

fn cast_and_negate_then_mul() -> OpenHypergraph {
    // Create individual operations using singleton
    let cast = Lax::singleton(EdgeOp::Cast, vec![NodeType::Int], vec![NodeType::Float]);
    let negate = Lax::singleton(EdgeOp::Negate, vec![NodeType::Float], vec![NodeType::Float]);
    let mul = Lax::singleton(
        EdgeOp::Mul,
        vec![NodeType::Float, NodeType::Float],
        vec![NodeType::Float],
    );

    // Compose (cast | negate) >> mul
    let cast_and_negate = &cast | &negate;
    let mut circuit = (&cast_and_negate >> &mul).expect("composition should succeed");
    circuit.quotient().expect("quotient should succeed");
    convert(&circuit)
}

/// open hypergraphs should be isomorphic to themselves
#[test]
fn test_find_identity_isomorphism() {
    let circuits = [
        (
            "id",
            convert(&Lax::<NodeType, EdgeOp>::identity(vec![
                NodeType::Float,
            ])),
        ),
        (
            "singleton",
            convert(&Lax::singleton(
                EdgeOp::Negate,
                vec![NodeType::Float],
                vec![NodeType::Float],
            )),
        ),
        ("cntm", cast_and_negate_then_mul()),
    ];

    for (name, circuit) in circuits {
        println!("testing {name}");
        let num_nodes = circuit.hypergraph.nodes.len();
        let num_edges = circuit.hypergraph.edges.len();

        // Test with identity isomorphism
        let expected_isomorphism = Isomorphism::identity(num_nodes, num_edges);

        // Use find_isomorphism to discover the identity isomorphism
        let found_isomorphism =
            find_isomorphism(&circuit, &circuit).expect("should find identity isomorphism");

        // Verify we found the identity isomorphism
        assert_eq!(
            found_isomorphism.nodes, expected_isomorphism.nodes,
            "Should find identity node permutation"
        );
        assert_eq!(
            found_isomorphism.edges, expected_isomorphism.edges,
            "Should find identity edge permutation"
        );
    }
}

#[test]
fn test_find_cyclic_isomorphism() {
    let circuit = cast_and_negate_then_mul();

    let num_nodes = circuit.hypergraph.nodes.len();
    let num_edges = circuit.hypergraph.edges.len();

    // Create cyclic permutation (i+1) % n for nodes
    let cyclic_permutation: Vec<usize> = (0..num_nodes).map(|i| (i + 1) % num_nodes).collect();
    let node_permutation = Permutation::new(cyclic_permutation).expect("valid permutation");

    // Create isomorphism with the cyclic node permutation and identity edge permutation
    let expected_isomorphism = Isomorphism {
        nodes: node_permutation,
        edges: Permutation::identity(num_edges),
    };

    // Apply the isomorphism to get the transformed circuit
    let circuit_copy = expected_isomorphism.apply(&circuit);

    // Use find_isomorphism to discover the isomorphism
    let found_isomorphism =
        find_isomorphism(&circuit, &circuit_copy).expect("should find isomorphism");

    // Verify we found the correct isomorphism
    assert_eq!(
        found_isomorphism.nodes, expected_isomorphism.nodes,
        "Node permutations should match"
    );
    assert_eq!(
        found_isomorphism.edges, expected_isomorphism.edges,
        "Edge permutations should match"
    );
}

#[test]
fn test_found_isomorphism_validates() {
    let circuit = cast_and_negate_then_mul();
    let num_nodes = circuit.hypergraph.nodes.len();
    let num_edges = circuit.hypergraph.edges.len();

    let cyclic_permutation: Vec<usize> = (0..num_nodes).map(|i| (i + 1) % num_nodes).collect();
    let relabeling = Isomorphism {
        nodes: Permutation::new(cyclic_permutation).expect("valid permutation"),
        edges: Permutation::identity(num_edges),
    };
    let circuit_copy = relabeling.apply(&circuit);

    let found = find_isomorphism(&circuit, &circuit_copy).expect("should find isomorphism");
    assert!(
        found.validate(&circuit, &circuit_copy),
        "The found witness must pass independent validation"
    );
}

#[test]
fn test_nogood_rejects_unlike_label_multisets() {
    // Negate: Float -> Float, against Cast: Int -> Float.  Node and edge
    // label multisets both differ, so the pre-filter proves
    // non-isomorphism before any traversal.
    let negate = convert(&Lax::singleton(
        EdgeOp::Negate,
        vec![NodeType::Float],
        vec![NodeType::Float],
    ));
    let cast = convert(&Lax::singleton(
        EdgeOp::Cast,
        vec![NodeType::Int],
        vec![NodeType::Float],
    ));
    let result = find_isomorphism(&negate, &cast);
    assert!(matches!(result, Err(Error::Nogood)));
}

#[test]
fn test_nogood_rejects_unlike_interfaces() {
    // Two bare wires with swapped interface signatures: equal label
    // multisets, but the input signature differs, which the filter
    // catches.
    let f = OpenHypergraph {
        sources: vec![0],
        targets: vec![1],
        hypergraph: Hypergraph {
            nodes: vec![1, 2],
            edges: vec![],
            adjacency: vec![],
        },
    };
    let g = OpenHypergraph {
        sources: vec![0],
        targets: vec![1],
        hypergraph: Hypergraph {
            nodes: vec![2, 1],
            edges: vec![],
            adjacency: vec![],
        },
    };
    // (f reads label 1 at its input; g reads label 2)
    let result = find_isomorphism(&f, &g);
    assert!(matches!(result, Err(Error::Nogood)));
}

#[test]
fn test_non_monogamous_input_rejected() {
    // The single node is declared an external input but is also produced
    // by the edge: the boundary monogamicity check names it.
    let f = OpenHypergraph {
        sources: vec![0],
        targets: vec![],
        hypergraph: Hypergraph {
            nodes: vec![1],
            edges: vec![5],
            adjacency: vec![Hyperedge {
                sources: vec![],
                targets: vec![0],
            }],
        },
    };
    let result = find_isomorphism(&f, &f);
    assert!(matches!(result, Err(Error::NonMonogamous(0))));
}

#[test]
fn test_unreachable_node_reported() {
    // Node 1 is connected to nothing and not on the interface, so the
    // traversal cannot pair it.
    let f = OpenHypergraph {
        sources: vec![0],
        targets: vec![0],
        hypergraph: Hypergraph {
            nodes: vec![1, 1],
            edges: vec![],
            adjacency: vec![],
        },
    };
    let result = find_isomorphism(&f, &f);
    assert!(matches!(result, Err(Error::UnpairedNode(1))));
}

#[test]
fn test_mismatched_ports_reported() {
    // Mul-shaped edge in both, but g's input interface lists its operands
    // in the opposite order, so a node lands on the wrong port.
    let f = OpenHypergraph {
        sources: vec![0, 1],
        targets: vec![2],
        hypergraph: Hypergraph {
            nodes: vec![2, 2, 2],
            edges: vec![3],
            adjacency: vec![Hyperedge {
                sources: vec![0, 1],
                targets: vec![2],
            }],
        },
    };
    let g = OpenHypergraph {
        sources: vec![1, 0],
        targets: vec![2],
        hypergraph: Hypergraph {
            nodes: vec![2, 2, 2],
            edges: vec![3],
            adjacency: vec![Hyperedge {
                sources: vec![0, 1],
                targets: vec![2],
            }],
        },
    };
    let result = find_isomorphism(&f, &g);
    assert!(matches!(result, Err(Error::InvalidNodeMatch(_, _))));
}

#[test]
fn test_mismatched_edge_labels_reported() {
    // Two wires in each, but the edge labels sit on swapped wires, so two
    // edges with unlike labels are forced into correspondence.
    let f = OpenHypergraph {
        sources: vec![0, 2],
        targets: vec![1, 3],
        hypergraph: Hypergraph {
            nodes: vec![1, 2, 1, 2],
            edges: vec![8, 9],
            adjacency: vec![
                Hyperedge {
                    sources: vec![0],
                    targets: vec![1],
                },
                Hyperedge {
                    sources: vec![2],
                    targets: vec![3],
                },
            ],
        },
    };
    let g = OpenHypergraph {
        sources: vec![0, 2],
        targets: vec![1, 3],
        hypergraph: Hypergraph {
            nodes: vec![1, 2, 1, 2],
            edges: vec![9, 8],
            adjacency: vec![
                Hyperedge {
                    sources: vec![0],
                    targets: vec![1],
                },
                Hyperedge {
                    sources: vec![2],
                    targets: vec![3],
                },
            ],
        },
    };
    let result = find_isomorphism(&f, &g);
    assert!(matches!(result, Err(Error::InvalidEdgeMatch(_, _))));
}

#[test]
fn test_collapsed_mapping_rejected() {
    // g declares the same node twice as its external input, so the
    // traversal maps two distinct f nodes onto one g node; the final
    // bijectivity gate catches the collapse.
    let f = OpenHypergraph {
        sources: vec![0, 2],
        targets: vec![1, 3],
        hypergraph: Hypergraph {
            nodes: vec![4, 4, 4, 4],
            edges: vec![6, 6],
            adjacency: vec![
                Hyperedge {
                    sources: vec![0],
                    targets: vec![1],
                },
                Hyperedge {
                    sources: vec![2],
                    targets: vec![3],
                },
            ],
        },
    };
    let g = OpenHypergraph {
        sources: vec![0, 0],
        targets: vec![1, 1],
        hypergraph: Hypergraph {
            nodes: vec![4, 4, 4, 4],
            edges: vec![6, 6],
            adjacency: vec![
                Hyperedge {
                    sources: vec![0],
                    targets: vec![1],
                },
                Hyperedge {
                    sources: vec![2],
                    targets: vec![3],
                },
            ],
        },
    };
    let result = find_isomorphism(&f, &g);
    assert!(matches!(result, Err(Error::InvalidNodePermutation)));
}
