use fossil::catalog::{
    build_catalog_sink_plan, encode_uri_component, lit, slug, slug_from_lowered, values_relation, CatalogDataset,
    CatalogDistribution, CatalogField, CatalogInput, DCAT_CATALOG, DCT_TITLE, XSD_STRING,
};

fn sample() -> CatalogInput {
    CatalogInput {
        version: 1,
        job_id: "job-1".to_string(),
        job_name: Some("My Run".to_string()),
        completed_at: "2026-06-02T00:00:00Z".to_string(),
        language: None,
        publisher_name: "Acme Org".to_string(),
        publisher_uri: None,
        catalog_description: Some("desc".to_string()),
        license_uri: Some("https://ex.org/license".to_string()),
        contact_email: Some("a@b.com".to_string()),
        datasets: vec![CatalogDataset {
            type_label: "Person".to_string(),
            source_name: Some("users".to_string()),
            rdf_type: Some("https://example.org/Person".to_string()),
            keywords: vec!["people".to_string()],
            entity_count: Some(5),
            fields: vec![CatalogField {
                name: "name".to_string(),
                rdf_uri: Some("https://example.org/name".to_string()),
                datatype: Some("http://www.w3.org/2001/XMLSchema#string".to_string()),
            }],
            distributions: vec![CatalogDistribution {
                destination: "s3://bucket/job-1/vertex/Person.parquet".to_string(),
                media_type: "application/parquet".to_string(),
            }],
        }],
    }
}

#[test]
fn builds_the_dcat_ap_vertex_and_edge_shape() {
    let (prelude, plan) = build_catalog_sink_plan(&sample());
    assert!(prelude.is_empty(), "inline VALUES → no prelude");
    let vtypes: Vec<&str> = plan.vertices.iter().map(|v| v.type_label.as_str()).collect();
    assert_eq!(vtypes, ["Catalog", "Dataset", "Distribution", "Agent", "Contact", "Field"]);
    let etypes: Vec<(&str, &str, &str)> = plan
        .edges
        .iter()
        .map(|e| (e.src_type.as_str(), e.predicate.as_str(), e.dst_type.as_str()))
        .collect();
    assert_eq!(
        etypes,
        [
            ("Catalog", "dataset", "Dataset"),
            ("Dataset", "distribution", "Distribution"),
            ("Dataset", "field", "Field"),
            ("Catalog", "publisher", "Agent"),
            ("Catalog", "contactPoint", "Contact"),
        ]
    );
}

#[test]
fn catalog_carries_rdf_spec_and_subject_urn() {
    let (_p, plan) = build_catalog_sink_plan(&sample());
    let catalog = &plan.vertices[0];
    assert_eq!(catalog.rdf_type.as_deref(), Some(DCAT_CATALOG));
    let title = catalog.properties.iter().find(|p| p.name == "title").unwrap();
    assert_eq!(title.rdf_uri.as_deref(), Some(DCT_TITLE));
    assert_eq!(title.xsd_datatype.as_deref(), Some(XSD_STRING));
    assert!(catalog.source_relation.contains("urn:keasy:catalog:job-1"), "{}", catalog.source_relation);
    assert!(catalog.source_relation.contains("'My Run'"), "{}", catalog.source_relation);
}

#[test]
fn dataset_entity_count_is_numeric_and_field_edges_resolve() {
    let (_p, plan) = build_catalog_sink_plan(&sample());
    let dataset = plan.vertices.iter().find(|v| v.type_label == "Dataset").unwrap();
    assert!(dataset.source_relation.contains(", 5)"), "{}", dataset.source_relation);
    let ecount = dataset.properties.iter().find(|p| p.name == "entity_count").unwrap();
    assert_eq!(ecount.rdf_uri, None, "entity_count is a data column, not RDF");
    let field_edge = plan.edges.iter().find(|e| e.predicate == "field").unwrap();
    assert!(
        field_edge.source_relation.contains("urn:keasy:field:job-1/Person/name"),
        "{}",
        field_edge.source_relation
    );
    assert_eq!(field_edge.src_id_expr, "src");
    assert_eq!(field_edge.dst_id_expr, "dst");
}

#[test]
fn no_contact_when_email_absent() {
    let mut input = sample();
    input.contact_email = None;
    let (_p, plan) = build_catalog_sink_plan(&input);
    assert!(plan.vertices.iter().all(|v| v.type_label != "Contact"));
    assert!(plan.edges.iter().all(|e| e.predicate != "contactPoint"));
}

// ── own checks ──

#[test]
fn a_literal_doubles_its_quotes() {
    assert_eq!(lit("it's"), "'it''s'");
    assert_eq!(lit(""), "''");
}

#[test]
fn only_space_and_angle_brackets_are_encoded() {
    assert_eq!(encode_uri_component("a b<c>d/é"), "a%20b%3Cc%3Ed/é");
}

#[test]
fn a_slug_drops_unicode_white_space_at_either_end() {
    assert_eq!(slug("\u{3000}\u{2003}Acme\u{a0}Org\u{2029}\t"), "acme-org");
    assert_eq!(slug("\u{85}x.y\u{1680}"), "x.y");
}

#[test]
fn a_slug_is_lowercase_dashed_and_trimmed() {
    assert_eq!(slug("  Acme Org  "), "acme-org");
    assert_eq!(slug("a@b.com"), "a-b.com");
    assert_eq!(slug("--X--"), "x");
}

#[test]
fn a_values_relation_lists_rows_then_columns() {
    let r = values_relation(
        "t",
        &["a".to_string(), "b".to_string()],
        &[vec!["1".to_string(), "2".to_string()], vec!["3".to_string(), "4".to_string()]],
    );
    assert_eq!(r, "(VALUES (1, 2), (3, 4)) AS t(\"a\", \"b\")");
}

#[test]
fn an_empty_catalog_has_only_the_catalog_and_its_agent() {
    let mut input = sample();
    input.datasets.clear();
    input.contact_email = None;
    input.publisher_uri = Some("https://acme.example/".to_string());
    let (_p, plan) = build_catalog_sink_plan(&input);
    let vtypes: Vec<&str> = plan.vertices.iter().map(|v| v.type_label.as_str()).collect();
    assert_eq!(vtypes, ["Catalog", "Agent"]);
    assert_eq!(plan.edges.len(), 1);
    assert!(plan.edges[0].source_relation.contains("'https://acme.example/'"));
    assert_eq!(plan.chunk_size, 4096);
}

#[test]
fn a_lowered_text_is_dashed_and_trimmed_of_dashes() {
    assert_eq!(slug_from_lowered("  acme org  "), "acme-org");
    assert_eq!(slug_from_lowered("--a@b.com--"), "a-b.com");
    assert_eq!(slug_from_lowered("ÀB"), "ÀB", "this step lowercases nothing");
}
