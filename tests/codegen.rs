use graffy::codegen::{
    EdgeKind, EdgeKindBuilder, EdgeKindsBuilder, GraphBuilder, GraphKind, SubGraph, SubGraphBuilder,
    Attribute, AttributesBuilder, Buildable, Builder, ColorKind, CurveStyleKind, DirectionKind, Edge, EdgeBuilder,
    FormatterSettings, Node, NodeBuilder, NodeKind, RankDirectionKind, ShapeKind, StyleKind, decimal_string,
};

#[test]
fn attributes_builder_collects_in_order() {
    let attrs = AttributesBuilder::default()
        .font_name("Courier, monospace".to_string())
        .label("x".to_string())
        .shape(ShapeKind::Box)
        .color(ColorKind::Blue)
        .build()
        .unwrap();
    assert_eq!(
        attrs,
        vec![
            Attribute::FontName("Courier, monospace".to_string()),
            Attribute::Label("x".to_string()),
            Attribute::Shape(ShapeKind::Box),
            Attribute::Color(ColorKind::Blue),
        ]
    );
}

#[test]
fn node_builder_needs_a_name() {
    assert_eq!(NodeBuilder::default().build(), None);
    let n = Node::builder()
        .kind(NodeKind::Graph)
        .attributes(vec![Attribute::Label("l".to_string())])
        .build()
        .unwrap();
    assert_eq!(n.kind, NodeKind::Graph);
    assert_eq!(n.attributes, Some(vec![Attribute::Label("l".to_string())]));
}

#[test]
fn edge_builder_needs_both_ends() {
    assert_eq!(EdgeBuilder::default().left(NodeKind::custom("A")).build(), None);
    let e = Edge::builder().left(NodeKind::custom("A")).right(NodeKind::custom("B")).build().unwrap();
    assert_eq!(e.left, NodeKind::Custom("A".to_string()));
    assert_eq!(e.right, NodeKind::Custom("B".to_string()));
    assert_eq!(e.attributes, None);
    let e2 = EdgeBuilder::default()
        .attributes(vec![Attribute::Style(StyleKind::Dashed)])
        .right(NodeKind::Node)
        .left(NodeKind::Edge)
        .build()
        .unwrap();
    assert_eq!(e2.attributes, Some(vec![Attribute::Style(StyleKind::Dashed)]));
}

#[test]
fn attributes_render() {
    assert_eq!(Attribute::FontName("Courier".to_string()).to_dot(), "fontname=\"Courier\"");
    assert_eq!(Attribute::Label("duude".to_string()).to_dot(), "label=\"duude\"");
    assert_eq!(Attribute::Shape(ShapeKind::Diamond).to_dot(), "shape=diamond");
    assert_eq!(Attribute::FillColor(ColorKind::Blue).to_dot(), "fillcolor=blue");
    assert_eq!(Attribute::URL("u".to_string()).to_dot(), "URL=\"u\"");
    assert_eq!(Attribute::Tooltip("t".to_string()).to_dot(), "tooltip=\"t\"");
    assert_eq!(Attribute::Style(StyleKind::Dotted).to_dot(), "style=dotted");
    assert_eq!(Attribute::Direction(Some(DirectionKind::Back)).to_dot(), "dir=back");
    assert_eq!(Attribute::Direction(None).to_dot(), "dir=none");
    assert_eq!(Attribute::FontSize(14).to_dot(), "fontsize=\"14\"");
    assert_eq!(Attribute::BgColor(ColorKind::Blue).to_dot(), "bgcolor=blue");
    assert_eq!(Attribute::RankDirection(RankDirectionKind::LeftRight).to_dot(), "rankdir=LR");
    assert_eq!(Attribute::RankDirection(RankDirectionKind::TopBottom).to_dot(), "rankdir=TB");
    assert_eq!(Attribute::CurveStyle(CurveStyleKind::Ortho).to_dot(), "splines=ortho");
    assert_eq!(Attribute::Color(ColorKind::Blue).to_dot(), "color=blue");
}

#[test]
fn node_kinds_render() {
    assert_eq!(NodeKind::Graph.to_dot(), "graph");
    assert_eq!(NodeKind::Node.to_dot(), "node");
    assert_eq!(NodeKind::Edge.to_dot(), "edge");
    assert_eq!(NodeKind::custom("Mir_0_4").to_dot(), "Mir_0_4");
}

#[test]
fn decimal_digits() {
    assert_eq!(decimal_string(0), "0");
    assert_eq!(decimal_string(7), "7");
    assert_eq!(decimal_string(10), "10");
    assert_eq!(decimal_string(1234), "1234");
    assert_eq!(decimal_string(usize::MAX), usize::MAX.to_string());
}

#[test]
fn formatter_settings_default_is_pretty() {
    assert_eq!(FormatterSettings::default(), FormatterSettings::Pretty);
    assert_ne!(FormatterSettings::Minified, FormatterSettings::Pretty);
}

#[test]
fn attributes_builder_into_vec() {
    let b = <Vec<Attribute> as Buildable<AttributesBuilder>>::builder().label("a".to_string());
    assert_eq!(b.attributes().len(), 1);
    assert_eq!(b.into_vec(), vec![Attribute::Label("a".to_string())]);
}

#[test]
fn test_build_edges() {
    let statements = EdgeKindsBuilder::default()
        .digraph(
            GraphBuilder::default()
                .name("Mir_0_4".to_string())
                .edges(
                    EdgeKindsBuilder::default()
                        .node(
                            NodeKind::Graph,
                            AttributesBuilder::default().font_name("Coutier, monospace".to_string()).into_vec(),
                        )
                        .build()
                        .unwrap(),
                )
                .build()
                .unwrap(),
        )
        .build()
        .unwrap();
    assert_eq!(statements.len(), 1);
    match &statements[0] {
        EdgeKind::Graph(GraphKind::Directed(g)) => {
            assert_eq!(g.name, Some("Mir_0_4".to_string()));
            assert!(!g.is_strict);
            assert_eq!(
                g.edges,
                vec![EdgeKind::Node(Node {
                    kind: NodeKind::Graph,
                    attributes: Some(vec![Attribute::FontName("Coutier, monospace".to_string())]),
                })]
            );
        }
        other => panic!("unexpected statement {:?}", other),
    }
}

#[test]
fn graph_builder_sets_direction_and_strictness() {
    let g = GraphBuilder::default().strict().directed().build().unwrap();
    assert!(matches!(g, GraphKind::Directed(_)));
    let inner = g.into_graph();
    assert!(inner.is_strict);
    assert_eq!(inner.name, None);
    let u = GraphBuilder::default().directed().undirected().build().unwrap();
    assert!(matches!(u, GraphKind::Undirected(_)));
    let stmts = EdgeKindsBuilder::default().graph(GraphBuilder::default().directed().build().unwrap()).build().unwrap();
    assert!(matches!(stmts[0], EdgeKind::Graph(GraphKind::Undirected(_))));
}

#[test]
fn subgraph_and_single_statement_builders() {
    assert_eq!(SubGraphBuilder::default().name("G".to_string()).build(), None);
    let sg = SubGraph::builder().name("G".to_string()).body(vec![EdgeKind::Comment("c".to_string())]).build().unwrap();
    assert_eq!(sg.name, Some("G".to_string()));
    assert_eq!(sg.body, vec![EdgeKind::Comment("c".to_string())]);
    assert_eq!(EdgeKindBuilder::default().build(), None);
    let one = EdgeKindBuilder::default()
        .comment("x".to_string())
        .node(NodeKind::Node, None)
        .build()
        .unwrap();
    assert_eq!(one, EdgeKind::Node(Node { kind: NodeKind::Node, attributes: None }));
    let e = EdgeBuilder::default().left(NodeKind::custom("C")).right(NodeKind::custom("D")).build().unwrap();
    let stmts = EdgeKindsBuilder::default()
        .subgraph(sg)
        .edge(e.clone())
        .comment("done".to_string())
        .build()
        .unwrap();
    assert_eq!(stmts.len(), 3);
    assert_eq!(stmts[1], EdgeKind::Edge(Box::new(e)));
}
