use std::collections::BTreeMap;

use fossil::decomp::{
    EdgeTable, SinkPlan, VertexProperty, VertexTable, IRI_COLUMN, PLACEHOLDER_RELATION,
};
use fossil::manifest::DEFAULT_CHUNK_SIZE;
use fossil::manifest::Privacy;
use fossil::writer::{
    build_vertex_manifest, emit_edge_statement, plan_manifests, plan_manifests_from_sink_plan,
    plan_writes, plan_writes_from_sink_plan, sink_plan_to_specs, vertex_manifest_columns,
    vertex_manifest_rel_path, EdgeSpec, VertexSpec,
    WriteError, WriteOptions,
};

fn spec_person() -> VertexSpec {
    VertexSpec {
        name: "person".to_string(),
        iri: "http://example.org/Person".to_string(),
        source_relation: "SELECT subject, name, age FROM raw_person".to_string(),
        property_columns: vec!["name".to_string(), "age".to_string()],
        dedup_subjects: true,
        column_iris: BTreeMap::new(),
    }
}

#[test]
fn vertex_sql_carries_w0b_column_shape() {
    let plan = plan_writes(&[spec_person()], &[], "s3://bucket/job-42", &WriteOptions::default())
        .expect("plan");
    assert_eq!(plan.vertex_statements.len(), 1);
    assert!(plan.edge_statements.is_empty());
    let s = &plan.vertex_statements[0];
    assert_eq!(s.rel_path, "vertex/person.parquet");
    assert!(s.copy_sql.contains("row_number() OVER () - 1 AS dense_id"));
    assert!(s.copy_sql.contains("subject"));
    assert!(s.copy_sql.contains("\"name\""));
    assert!(s.copy_sql.contains("\"age\""));
    assert!(s.copy_sql.contains("0::REAL AS x"));
    assert!(s.copy_sql.contains("0::REAL AS y"));
    assert!(s.copy_sql.contains("0::UINTEGER AS cluster_id"));
    assert!(s.copy_sql.contains("DISTINCT ON (subject)"));
    assert!(s.copy_sql.contains("s3://bucket/job-42/vertex/person.parquet"));
    assert!(s.copy_sql.contains("ROW_GROUP_SIZE 100000"));
}

#[test]
fn dedup_off_drops_distinct_wrap() {
    let mut spec = spec_person();
    spec.dedup_subjects = false;
    let plan = plan_writes(&[spec], &[], "file:///tmp/g", &WriteOptions::default()).unwrap();
    assert!(!plan.vertex_statements[0].copy_sql.contains("DISTINCT"));
}

#[test]
fn reserved_column_name_rejected() {
    let mut spec = spec_person();
    spec.property_columns.push("dense_id".to_string());
    let err = plan_writes(&[spec], &[], "file:///tmp/g", &WriteOptions::default()).unwrap_err();
    match err {
        WriteError::ReservedColumnName { column, .. } => assert_eq!(column, "dense_id"),
        other => panic!("expected ReservedColumnName, got {other:?}"),
    }
}

#[test]
fn empty_dest_url_rejected() {
    let err = plan_writes(&[spec_person()], &[], "", &WriteOptions::default()).unwrap_err();
    assert!(matches!(err, WriteError::EmptyDestUrl));
}

#[test]
fn edge_refers_missing_vertex_rejected() {
    let edge = EdgeSpec {
        label: "knows".to_string(),
        iri: "http://example.org/knows".to_string(),
        source_type: "person".to_string(),
        target_type: "ghost".to_string(),
        source_relation: "SELECT src_iri, dst_iri FROM raw_edge".to_string(),
    };
    let err = plan_writes(&[spec_person()], &[edge], "file:///tmp/g", &WriteOptions::default())
        .unwrap_err();
    match err {
        WriteError::EdgeRefersMissingVertex { missing, .. } => {
            assert_eq!(missing, "ghost");
        }
        other => panic!("expected EdgeRefersMissingVertex, got {other:?}"),
    }
}

#[test]
fn dest_url_trailing_slash_does_not_double() {
    let plan = plan_writes(&[spec_person()], &[], "file:///tmp/g/", &WriteOptions::default())
        .unwrap();
    assert!(plan.vertex_statements[0]
        .copy_sql
        .contains("file:///tmp/g/vertex/person.parquet"));
    assert!(!plan.vertex_statements[0].copy_sql.contains("file:///tmp/g//vertex"));
}

fn spec_org() -> VertexSpec {
    VertexSpec {
        name: "org".to_string(),
        iri: "http://example.org/Org".to_string(),
        source_relation: "SELECT subject, legal_name FROM raw_org".to_string(),
        property_columns: vec!["legal_name".to_string()],
        dedup_subjects: true,
        column_iris: BTreeMap::new(),
    }
}

fn spec_works_at_edge() -> EdgeSpec {
    EdgeSpec {
        label: "works_at".to_string(),
        iri: "http://example.org/worksAt".to_string(),
        source_type: "person".to_string(),
        target_type: "org".to_string(),
        source_relation: "SELECT subject AS src_iri, employer AS dst_iri FROM raw_person"
            .to_string(),
    }
}

#[test]
fn edge_emits_csr_and_csc_with_canonical_dir() {
    let plan = plan_writes(
        &[spec_person(), spec_org()],
        &[spec_works_at_edge()],
        "s3://bucket/job-42",
        &WriteOptions::default(),
    )
    .unwrap();
    assert_eq!(plan.edge_statements.len(), 1);
    let e = &plan.edge_statements[0];
    assert_eq!(e.edge_dir_name, "person_works_at_org");
    assert_eq!(e.csr_rel_path, "edge/person_works_at_org/by_source.parquet");
    assert_eq!(e.csc_rel_path, "edge/person_works_at_org/by_target.parquet");
}

#[test]
fn edge_csr_orders_by_src_dst_and_csc_by_dst_src() {
    let plan = plan_writes(
        &[spec_person(), spec_org()],
        &[spec_works_at_edge()],
        "s3://bucket/job-42",
        &WriteOptions::default(),
    )
    .unwrap();
    let e = &plan.edge_statements[0];
    assert!(e.copy_csr_sql.contains("ORDER BY src_dense, dst_dense"), "{}", e.copy_csr_sql);
    assert!(e.copy_csc_sql.contains("ORDER BY dst_dense, src_dense"), "{}", e.copy_csc_sql);
}

#[test]
fn edge_joins_against_vertex_parquets_under_dest() {
    let plan = plan_writes(
        &[spec_person(), spec_org()],
        &[spec_works_at_edge()],
        "s3://bucket/job-42",
        &WriteOptions::default(),
    )
    .unwrap();
    let csr = &plan.edge_statements[0].copy_csr_sql;
    assert!(csr.contains("read_parquet('s3://bucket/job-42/vertex/person.parquet') s"), "{csr}");
    assert!(csr.contains("read_parquet('s3://bucket/job-42/vertex/org.parquet') t"), "{csr}");
    assert!(csr.contains("e.src_iri = s.subject"));
    assert!(csr.contains("e.dst_iri = t.subject"));
    assert!(csr.contains("s.dense_id AS src_dense"));
    assert!(csr.contains("t.dense_id AS dst_dense"));
}

#[test]
fn edge_destinations_are_written_under_dest_url() {
    let plan = plan_writes(
        &[spec_person(), spec_org()],
        &[spec_works_at_edge()],
        "file:///tmp/g/",
        &WriteOptions::default(),
    )
    .unwrap();
    let e = &plan.edge_statements[0];
    assert!(e
        .copy_csr_sql
        .contains("TO 'file:///tmp/g/edge/person_works_at_org/by_source.parquet'"));
    assert!(e
        .copy_csc_sql
        .contains("TO 'file:///tmp/g/edge/person_works_at_org/by_target.parquet'"));
    assert!(!e.copy_csr_sql.contains("file:///tmp/g//edge"));
}

#[test]
fn edge_emission_respects_row_group_size_override() {
    let opts = WriteOptions { row_group_size: 50_000, ..WriteOptions::default() };
    let plan = plan_writes(
        &[spec_person(), spec_org()],
        &[spec_works_at_edge()],
        "file:///tmp/g",
        &opts,
    )
    .unwrap();
    let e = &plan.edge_statements[0];
    assert!(e.copy_csr_sql.contains("ROW_GROUP_SIZE 50000"));
    assert!(e.copy_csc_sql.contains("ROW_GROUP_SIZE 50000"));
}

fn person_table() -> VertexTable {
    VertexTable {
        type_label: "person".to_string(),
        rdf_type: None,
        vertex_id_col: IRI_COLUMN.to_string(),
        properties: vec![
            VertexProperty {
                name: "name".to_string(),
                data_type: "string".to_string(),
                rdf_uri: None,
                xsd_datatype: None,
                single_valued: true,
            },
            VertexProperty {
                name: "age".to_string(),
                data_type: "int64".to_string(),
                rdf_uri: None,
                xsd_datatype: None,
                single_valued: true,
            },
        ],
        source_relation: PLACEHOLDER_RELATION.to_string(),
    }
}

fn person_knows_person_edge() -> EdgeTable {
    EdgeTable {
        src_type: "person".to_string(),
        predicate: "knows".to_string(),
        dst_type: "person".to_string(),
        src_id_expr: IRI_COLUMN.to_string(),
        dst_id_expr: "knows".to_string(),
        single_valued: false,
        source_relation: PLACEHOLDER_RELATION.to_string(),
    }
}

#[test]
fn bridge_wraps_vertex_iri_as_subject_and_lists_props() {
    let plan = SinkPlan {
        vertices: vec![person_table()],
        edges: Vec::new(),
        chunk_size: DEFAULT_CHUNK_SIZE,
    };
    let (vs, es) = sink_plan_to_specs(&plan);
    assert!(es.is_empty());
    assert_eq!(vs.len(), 1);
    let v = &vs[0];
    assert_eq!(v.name, "person");
    assert_eq!(v.property_columns, vec!["name", "age"]);
    assert!(
        v.source_relation.contains("SELECT iri AS subject, \"name\", \"age\" FROM "),
        "got: {}",
        v.source_relation
    );
    assert!(v.dedup_subjects, "single_valued ⇒ dedup");
    assert!(v.iri.is_empty());
    assert!(v.column_iris.is_empty());
}

#[test]
fn bridge_dedup_off_when_all_properties_are_multi_valued() {
    let mut vt = person_table();
    for p in &mut vt.properties {
        p.single_valued = false;
    }
    let plan = SinkPlan { vertices: vec![vt], edges: Vec::new(), chunk_size: DEFAULT_CHUNK_SIZE };
    let (vs, _) = sink_plan_to_specs(&plan);
    assert!(!vs[0].dedup_subjects, "all multi-valued ⇒ keep all rows (no dedup)");
}

#[test]
fn bridge_dedup_on_when_vertex_has_no_properties() {
    let vt = VertexTable {
        type_label: "marker".to_string(),
        rdf_type: None,
        vertex_id_col: IRI_COLUMN.to_string(),
        properties: Vec::new(),
        source_relation: PLACEHOLDER_RELATION.to_string(),
    };
    let plan = SinkPlan { vertices: vec![vt], edges: Vec::new(), chunk_size: DEFAULT_CHUNK_SIZE };
    let (vs, _) = sink_plan_to_specs(&plan);
    assert!(vs[0].dedup_subjects);
}

#[test]
fn bridge_edge_projects_iri_aliases_for_writer() {
    let plan = SinkPlan {
        vertices: vec![person_table()],
        edges: vec![person_knows_person_edge()],
        chunk_size: DEFAULT_CHUNK_SIZE,
    };
    let (_, es) = sink_plan_to_specs(&plan);
    assert_eq!(es.len(), 1);
    let e = &es[0];
    assert_eq!(e.label, "knows");
    assert_eq!(e.source_type, "person");
    assert_eq!(e.target_type, "person");
    assert!(
        e.source_relation.contains("AS src_iri") && e.source_relation.contains("AS dst_iri"),
        "got: {}",
        e.source_relation
    );
    assert!(e.iri.is_empty(), "decomp drops predicate IRI — gap documented");
}

#[test]
fn plan_writes_from_sink_plan_round_trips_to_full_sql() {
    let plan = SinkPlan {
        vertices: vec![person_table()],
        edges: vec![person_knows_person_edge()],
        chunk_size: DEFAULT_CHUNK_SIZE,
    };
    let opts = WriteOptions::default();
    let write_plan = plan_writes_from_sink_plan(&plan, "file:///tmp/g", &opts).expect("plan");
    assert_eq!(write_plan.vertex_statements.len(), 1);
    assert_eq!(write_plan.edge_statements.len(), 1);
    let v_sql = &write_plan.vertex_statements[0].copy_sql;
    assert!(v_sql.contains("row_number() OVER () - 1 AS dense_id"));
    assert!(v_sql.contains("iri AS subject"));
    assert!(v_sql.contains("\"name\""));
    assert!(v_sql.contains("0::REAL AS x"));
    assert!(v_sql.contains("DISTINCT ON (subject)"));
    let e_sql = &write_plan.edge_statements[0].copy_csr_sql;
    assert!(e_sql.contains("s.dense_id AS src_dense"));
    assert!(e_sql.contains("AS src_iri"));
}

// ── own checks ──

#[test]
fn the_whole_vertex_statement_is_exact() {
    let mut spec = spec_person();
    spec.dedup_subjects = false;
    spec.property_columns = vec!["n".to_string()];
    spec.source_relation = "t".to_string();
    let opts = WriteOptions { row_group_size: 7, ..WriteOptions::default() };
    let plan = plan_writes(&[spec], &[], "d//", &opts).unwrap();
    assert_eq!(
        plan.vertex_statements[0].copy_sql,
        "COPY (SELECT row_number() OVER () - 1 AS dense_id, subject, \"n\", 0::REAL AS x, 0::REAL AS y, 0::UINTEGER AS cluster_id FROM (t)) TO 'd/vertex/person.parquet' (FORMAT PARQUET, ROW_GROUP_SIZE 7)"
    );
    assert_eq!(plan.vertex_statements[0].type_label, "person");
}

#[test]
fn a_missing_source_type_is_named_before_the_target() {
    let edge = EdgeSpec {
        label: "l".to_string(),
        iri: String::new(),
        source_type: "a".to_string(),
        target_type: "b".to_string(),
        source_relation: String::new(),
    };
    match plan_writes(&[], &[edge], "x", &WriteOptions::default()).unwrap_err() {
        WriteError::EdgeRefersMissingVertex { src, label, dst, missing } => {
            assert_eq!((src.as_str(), label.as_str(), dst.as_str(), missing.as_str()), ("a", "l", "b", "a"));
        }
        other => panic!("{other:?}"),
    }
}

#[test]
fn the_first_reserved_column_is_reported() {
    let mut spec = spec_person();
    spec.property_columns = vec!["ok".to_string(), "x".to_string(), "y".to_string()];
    match plan_writes(&[spec], &[], "x", &WriteOptions::default()).unwrap_err() {
        WriteError::ReservedColumnName { vertex, column, reserved } => {
            assert_eq!(vertex, "person");
            assert_eq!(column, "x");
            assert_eq!(reserved, vec!["dense_id", "subject", "x", "y", "cluster_id"]);
        }
        other => panic!("{other:?}"),
    }
    assert!(plan_writes(&[], &[], "", &WriteOptions::default()).unwrap_err().message().contains("empty"));
}

#[test]
fn a_trailing_slash_plans_the_same_statements() {
    let opts = WriteOptions::default();
    let with = plan_writes(&[spec_person(), spec_org()], &[spec_works_at_edge()], "file:///tmp/g/", &opts)
        .unwrap();
    let without =
        plan_writes(&[spec_person(), spec_org()], &[spec_works_at_edge()], "file:///tmp/g", &opts)
            .unwrap();
    for (a, b) in with.vertex_statements.iter().zip(without.vertex_statements.iter()) {
        assert_eq!(a.copy_sql, b.copy_sql);
        assert_eq!(a.rel_path, b.rel_path);
    }
    for (a, b) in with.edge_statements.iter().zip(without.edge_statements.iter()) {
        assert_eq!(a.copy_csr_sql, b.copy_csr_sql);
        assert_eq!(a.copy_csc_sql, b.copy_csc_sql);
    }
    assert!(plan_writes(&[spec_person()], &[], "/", &opts).is_ok());
    assert!(matches!(plan_writes(&[spec_person()], &[], "", &opts), Err(WriteError::EmptyDestUrl)));
}

#[test]
fn vertex_manifest_declares_w0b_columns() {
    let set = plan_manifests(&[spec_person()], &[], &WriteOptions::default()).unwrap();
    assert_eq!(set.vertices.len(), 1);
    let v = &set.vertices[0];
    assert_eq!(v.rel_path, "vertex/person.vertex.yml");
    assert_eq!(v.vertex_info.vertex_type, "person");
    let pg = &v.vertex_info.projections[0];
    let names: Vec<&str> = pg.properties.iter().map(|p| p.name.as_str()).collect();
    assert_eq!(
        names,
        vec!["dense_id", "subject", "name", "age", "x", "y", "cluster_id"],
        "W0b column order: dense_id + subject + caller props + x,y + cluster_id",
    );
}

#[test]
fn vertex_manifest_marks_dense_id_primary_uint32() {
    let set = plan_manifests(&[spec_person()], &[], &WriteOptions::default()).unwrap();
    let dense_id = set.vertices[0].vertex_info.projections[0]
        .properties
        .iter()
        .find(|p| p.name == "dense_id")
        .expect("dense_id present");
    assert_eq!(dense_id.data_type, "uint32");
    assert!(dense_id.is_primary, "dense_id must be flagged primary");
    assert_eq!(dense_id.is_nullable, Some(false));
}

#[test]
fn a_vertex_manifest_is_placed_and_sized_by_the_options() {
    let options = WriteOptions::default();
    let spec = spec_person();
    assert_eq!(vertex_manifest_rel_path(&spec, &options), "vertex/person.vertex.yml");
    let m = build_vertex_manifest(&spec, &options);
    assert_eq!(m.vertex_info.prefix, "vertex/person/");
    assert_eq!(m.vertex_info.chunk_size, 100_000);
    assert_eq!(m.vertex_info.iri, "http://example.org/Person");
    assert_eq!(m.vertex_info.projections.len(), 1);
    assert_eq!(m.vertex_info.projections[0].path, "");
    assert_eq!(m.vertex_info.projections[0].scale, 1);
    assert_eq!(vertex_manifest_columns(&spec).len(), 7);
}

#[test]
fn graph_manifest_indexes_every_type() {
    let set = plan_manifests(
        &[spec_person(), spec_org()],
        &[spec_works_at_edge()],
        &WriteOptions::default(),
    )
    .unwrap();
    let gi = &set.graph.graph_info;
    assert_eq!(set.graph.rel_path, "graph.graph.yml");
    assert_eq!(gi.vertices, vec!["vertex/person.vertex.yml", "vertex/org.vertex.yml"]);
    assert_eq!(gi.edges, vec![set.edges[0].rel_path.clone()]);
    assert_eq!(gi.version, "gar/v1");
    assert_eq!(gi.privacy, Privacy::Undeclared);
}

#[test]
fn edge_manifest_declares_both_csr_and_csc_adj_lists() {
    let set = plan_manifests(
        &[spec_person(), spec_org()],
        &[spec_works_at_edge()],
        &WriteOptions::default(),
    )
    .unwrap();
    assert_eq!(set.edges.len(), 1);
    let e = &set.edges[0];
    assert_eq!(e.rel_path, "edge/person_works_at_org/person_works_at_org.edge.yml");
    assert_eq!(e.edge_info.src_type, "person");
    assert_eq!(e.edge_info.dst_type, "org");
    assert_eq!(e.edge_info.edge_type, "works_at");
    assert_eq!(
        e.edge_info.projections.len(),
        2,
        "both CSR (aligned_by: src) and CSC (aligned_by: dst) must be declared"
    );
    let aligned: Vec<&str> = e
        .edge_info
        .projections
        .iter()
        .map(|a| a.aligned_by.as_deref().unwrap_or(""))
        .collect();
    assert!(aligned.contains(&"src"));
    assert!(aligned.contains(&"dst"));
    assert_eq!(e.edge_info.projections[0].path, "by_source/");
    assert_eq!(e.edge_info.projections[1].path, "by_target/");
    assert!(e.edge_info.projections.iter().all(|p| p.ordered == Some(true)));
    assert_eq!(e.edge_info.prefix, "edge/person_works_at_org/");
    assert!(e.edge_info.directed);
}

#[test]
fn manifest_validation_rejects_same_errors_as_plan_writes() {
    let mut spec = spec_person();
    spec.property_columns.push("dense_id".to_string());
    let err = plan_manifests(&[spec], &[], &WriteOptions::default()).unwrap_err();
    assert!(matches!(err, WriteError::ReservedColumnName { .. }));
    let err = plan_manifests(&[spec_person()], &[spec_works_at_edge()], &WriteOptions::default())
        .unwrap_err();
    assert!(matches!(err, WriteError::EdgeRefersMissingVertex { .. }));
}

#[test]
fn plan_manifests_from_sink_plan_carries_w0b_columns() {
    let plan = SinkPlan { vertices: vec![person_table()], edges: Vec::new(), chunk_size: DEFAULT_CHUNK_SIZE };
    let set = plan_manifests_from_sink_plan(&plan, &WriteOptions::default()).expect("plan");
    assert_eq!(set.vertices.len(), 1);
    let names: Vec<&str> = set.vertices[0].vertex_info.projections[0]
        .properties
        .iter()
        .map(|p| p.name.as_str())
        .collect();
    assert_eq!(names, vec!["dense_id", "subject", "name", "age", "x", "y", "cluster_id"]);
}

#[test]
fn a_reserved_column_error_lists_the_reserved_names() {
    let mut spec = spec_person();
    spec.property_columns.push("x".to_string());
    match plan_writes(&[spec], &[], "d", &WriteOptions::default()) {
        Err(WriteError::ReservedColumnName { vertex, column, reserved }) => {
            assert_eq!(vertex, "person");
            assert_eq!(column, "x");
            assert_eq!(reserved, vec!["dense_id", "subject", "x", "y", "cluster_id"]);
        }
        other => panic!("expected a reserved column, got {other:?}"),
    }
}

#[test]
fn both_ways_into_the_writer_agree() {
    let plan = SinkPlan { vertices: vec![person_table()], edges: Vec::new(), chunk_size: DEFAULT_CHUNK_SIZE };
    let (vs, es) = sink_plan_to_specs(&plan);
    let a = plan_writes_from_sink_plan(&plan, "d", &WriteOptions::default()).unwrap();
    let b = plan_writes(&vs, &es, "d", &WriteOptions::default()).unwrap();
    assert_eq!(a, b);
}

#[test]
fn caller_columns_are_strings_of_undeclared_nullability() {
    let cols = vertex_manifest_columns(&spec_person());
    let age = cols.iter().find(|p| p.name == "age").expect("age present");
    assert_eq!(age.data_type, "string");
    assert_eq!(age.is_nullable, None);
    let x = cols.iter().find(|p| p.name == "x").expect("x present");
    assert_eq!(x.data_type, "float");
    assert_eq!(x.is_nullable, Some(false));
}

#[test]
fn an_edge_joins_the_vertex_paths_it_is_given() {
    let spec = EdgeSpec {
        label: "l".to_string(),
        iri: String::new(),
        source_type: "a".to_string(),
        target_type: "b".to_string(),
        source_relation: "R".to_string(),
    };
    let paths = vec![
        ("a".to_string(), "va".to_string()),
        ("b".to_string(), "vb".to_string()),
        ("a".to_string(), "shadowed".to_string()),
    ];
    let s = emit_edge_statement(&spec, &paths, "d/", &WriteOptions::default());
    let inner = "SELECT s.dense_id AS src_dense, t.dense_id AS dst_dense FROM (R) e \
                 JOIN read_parquet('d/va') s ON e.src_iri = s.subject \
                 JOIN read_parquet('d/vb') t ON e.dst_iri = t.subject";
    assert_eq!(s.edge_dir_name, "a_l_b");
    assert_eq!(s.csr_rel_path, "edge/a_l_b/by_source.parquet");
    assert_eq!(s.csc_rel_path, "edge/a_l_b/by_target.parquet");
    assert_eq!(
        s.copy_csr_sql,
        format!(
            "COPY ({inner} ORDER BY src_dense, dst_dense) TO 'd/{}' \
             (FORMAT PARQUET, ROW_GROUP_SIZE 100000)",
            s.csr_rel_path
        )
    );
    assert_eq!(
        s.copy_csc_sql,
        format!(
            "COPY ({inner} ORDER BY dst_dense, src_dense) TO 'd/{}' \
             (FORMAT PARQUET, ROW_GROUP_SIZE 100000)",
            s.csc_rel_path
        )
    );
}
