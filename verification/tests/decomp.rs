use fossil::decomp::{
    datatype_iri_to_arrow, is_single_valued, local_name, vertex_edge_decomp_from_kind,
    Cardinality, OutputDescriptorKind, ResolvedConstraint, ShapeBinding, ShapeLabel, ValueExpr,
    IRI_COLUMN, PLACEHOLDER_RELATION,
};
use fossil::manifest::{DataType, DEFAULT_CHUNK_SIZE};

const XSD_STRING: &str = "http://www.w3.org/2001/XMLSchema#string";

fn literal(predicate: &str, datatype: &str) -> ResolvedConstraint {
    ResolvedConstraint {
        predicate: predicate.to_string(),
        cardinality: Cardinality::Exact(1),
        value_expr: Some(ValueExpr::NodeConstraint {
            datatype: Some(datatype.to_string()),
            node_kind: None,
        }),
    }
}

#[test]
fn is_single_valued_drives_collapse() {
    assert!(is_single_valued(Cardinality::Exact(1)));
    assert!(is_single_valued(Cardinality::ZeroOrOne));
    assert!(!is_single_valued(Cardinality::OneOrMore));
    assert!(!is_single_valued(Cardinality::ZeroOrMore));
    assert!(is_single_valued(Cardinality::Range { min: 0, max: Some(1) }));
    assert!(!is_single_valued(Cardinality::Range { min: 1, max: Some(5) }));
    assert!(!is_single_valued(Cardinality::Range { min: 1, max: None }));
}

#[test]
fn local_name_extracts_trailing_segment() {
    assert_eq!(local_name("http://example.org/Person"), "Person");
    assert_eq!(local_name("ex:knows"), "knows");
    assert_eq!(local_name("http://example.org/ns#name"), "name");
}

#[test]
fn datatype_iri_maps_to_arrow() {
    assert_eq!(datatype_iri_to_arrow(XSD_STRING), DataType::Utf8);
    assert_eq!(
        datatype_iri_to_arrow("http://www.w3.org/2001/XMLSchema#integer"),
        DataType::Int64
    );
}

#[test]
fn accept_all_falls_back_to_flat_passthrough() {
    let kind = OutputDescriptorKind::AcceptAll;
    let plan = vertex_edge_decomp_from_kind(&kind, PLACEHOLDER_RELATION, DEFAULT_CHUNK_SIZE);
    assert_eq!(plan.vertices.len(), 1);
    assert!(plan.edges.is_empty());
    assert_eq!(plan.vertices[0].vertex_id_col, IRI_COLUMN);
}

/// `ex:Person { ex:name xsd:string }`.
#[test]
fn single_shape_decomposes_to_one_vertex() {
    let kind = OutputDescriptorKind::ShEx(vec![ShapeBinding {
        iri: "http://example.org/Person".to_string(),
        constraints: vec![literal("http://example.org/name", XSD_STRING)],
    }]);
    let plan = vertex_edge_decomp_from_kind(&kind, PLACEHOLDER_RELATION, DEFAULT_CHUNK_SIZE);
    assert_eq!(plan.vertices.len(), 1);
    assert!(plan.edges.is_empty());
    let person = &plan.vertices[0];
    assert_eq!(person.type_label, "Person");
    assert_eq!(person.properties.len(), 1);
    assert_eq!(person.properties[0].name, "name");
    assert_eq!(person.properties[0].data_type, "string");
    assert!(person.properties[0].single_valued, "Exact(1) ⇒ collapse");
}

/// `ex:Person { ex:name xsd:string ; ex:knows @ex:Person + }` and
/// `ex:Company { ex:legalName xsd:string }`.
fn two_shape_kind() -> OutputDescriptorKind {
    OutputDescriptorKind::ShEx(vec![
        ShapeBinding {
            iri: "http://example.org/Person".to_string(),
            constraints: vec![
                literal("http://example.org/name", XSD_STRING),
                ResolvedConstraint {
                    predicate: "http://example.org/knows".to_string(),
                    cardinality: Cardinality::OneOrMore,
                    value_expr: Some(ValueExpr::Ref(ShapeLabel::Iri(
                        "http://example.org/Person".to_string(),
                    ))),
                },
            ],
        },
        ShapeBinding {
            iri: "http://example.org/Company".to_string(),
            constraints: vec![literal("http://example.org/legalName", XSD_STRING)],
        },
    ])
}

#[test]
fn two_shapes_decompose_to_two_vertices_and_one_edge() {
    let kind = two_shape_kind();
    let plan = vertex_edge_decomp_from_kind(&kind, PLACEHOLDER_RELATION, DEFAULT_CHUNK_SIZE);
    assert_eq!(plan.vertices.len(), 2, "{plan:#?}");
    let names: Vec<&str> = plan.vertices.iter().map(|v| v.type_label.as_str()).collect();
    assert!(names.contains(&"Person"), "{names:?}");
    assert!(names.contains(&"Company"), "{names:?}");
    assert_eq!(plan.edges.len(), 1, "{plan:#?}");
    let edge = &plan.edges[0];
    assert_eq!(edge.src_type, "Person");
    assert_eq!(edge.predicate, "knows");
    assert_eq!(edge.dst_type, "Person");
    let person = plan.vertices.iter().find(|v| v.type_label == "Person").expect("Person vertex");
    let company = plan.vertices.iter().find(|v| v.type_label == "Company").expect("Company vertex");
    assert_eq!(person.properties.len(), 1, "knows is an edge, not a prop");
    assert_eq!(person.properties[0].name, "name");
    assert_eq!(person.properties[0].data_type, "string");
    assert_eq!(company.properties.len(), 1);
    assert_eq!(company.properties[0].name, "legalName");
    assert!(!edge.single_valued, "OneOrMore ⇒ keep all rows");
    assert_eq!(edge.src_id_expr, IRI_COLUMN);
    assert_eq!(edge.dst_id_expr, "knows");
}

// ── own checks ──

#[test]
fn shapes_come_out_in_iri_order_whatever_order_they_came_in() {
    let plan = vertex_edge_decomp_from_kind(&two_shape_kind(), "rel", 7);
    let names: Vec<&str> = plan.vertices.iter().map(|v| v.type_label.as_str()).collect();
    assert_eq!(names, ["Company", "Person"]);
    assert_eq!(plan.chunk_size, 7);
    assert_eq!(plan.vertices[0].source_relation, "rel");
}

#[test]
fn constraints_come_out_in_predicate_order() {
    let kind = OutputDescriptorKind::ShEx(vec![ShapeBinding {
        iri: "ex:T".to_string(),
        constraints: vec![
            literal("ex:zeta", XSD_STRING),
            literal("ex:alpha", "http://www.w3.org/2001/XMLSchema#boolean"),
            ResolvedConstraint {
                predicate: "ex:mid".to_string(),
                cardinality: Cardinality::ZeroOrMore,
                value_expr: None,
            },
            ResolvedConstraint {
                predicate: "ex:skipped".to_string(),
                cardinality: Cardinality::ZeroOrOne,
                value_expr: Some(ValueExpr::Other),
            },
        ],
    }]);
    let plan = vertex_edge_decomp_from_kind(&kind, "r", 1);
    let props: Vec<(&str, &str, bool)> = plan.vertices[0]
        .properties
        .iter()
        .map(|p| (p.name.as_str(), p.data_type.as_str(), p.single_valued))
        .collect();
    assert_eq!(
        props,
        [("alpha", "bool", true), ("mid", "string", false), ("zeta", "string", true)]
    );
}

#[test]
fn a_prefixed_reference_names_its_local_part() {
    let kind = OutputDescriptorKind::ShEx(vec![ShapeBinding {
        iri: "ex:A".to_string(),
        constraints: vec![ResolvedConstraint {
            predicate: "ex:to".to_string(),
            cardinality: Cardinality::Exact(1),
            value_expr: Some(ValueExpr::Ref(ShapeLabel::Prefixed {
                prefix: "ex".to_string(),
                local: "B".to_string(),
            })),
        }],
    }]);
    let plan = vertex_edge_decomp_from_kind(&kind, "r", 1);
    assert_eq!(plan.edges[0].dst_type, "B");
    assert!(plan.edges[0].single_valued);
}

#[test]
fn datatypes_map_by_local_name() {
    let x = "http://www.w3.org/2001/XMLSchema#";
    assert_eq!(datatype_iri_to_arrow(&format!("{x}double")), DataType::Float64);
    assert_eq!(datatype_iri_to_arrow(&format!("{x}date")), DataType::Date32);
    assert_eq!(datatype_iri_to_arrow(&format!("{x}dateTime")), DataType::Timestamp);
    assert_eq!(datatype_iri_to_arrow(&format!("{x}anyURI")), DataType::Utf8);
    assert_eq!(local_name("plain"), "plain");
    assert_eq!(local_name("ends/"), "");
}
