use fossil::manifest::{
    AbsentQuasiIdentifier, KAnonymity, Privacy,
    arrow_type, data_type_name, EdgeInfo, tile_of, Cardinality, Channel, Container,
    CoordinateSystem, DataType, GraphInfo, HolonRung, HolonTree, Projection, Property, Provenance,
    VertexInfo, VertexLevels, DEFAULT_CHUNK_SIZE, DEFAULT_VERTICES_PER_CELL, GRAPHAR_VERSION,
    LEVEL_PREFIX_STEM,
};

#[test]
fn tile_of_border_vectors() {
    for (dense_id, tile) in [
        (0u64, 0u64),
        (4_095, 0),
        (4_096, 1),
        (8_191, 1),
        (2_147_483_647, 524_287),
        (2_147_483_648, 524_288),
        (4_294_967_295, 1_048_575),
        (9_007_199_254_740_992, 2_199_023_255_552),
    ] {
        assert_eq!(tile_of(dense_id), tile, "tile_of({dense_id})");
    }
    assert_eq!(DEFAULT_CHUNK_SIZE, 4_096);
    assert_eq!(tile_of(DEFAULT_CHUNK_SIZE - 1), 0);
    assert_eq!(tile_of(DEFAULT_CHUNK_SIZE), 1);
}

#[test]
fn a_count_implies_a_tile_count() {
    for (count, chunk_size, tiles, last) in [
        (0u64, 4_096u64, 0u64, 0u64),
        (1, 4_096, 1, 1),
        (4_095, 4_096, 1, 4_095),
        (4_096, 4_096, 1, 4_096),
        (4_097, 4_096, 2, 1),
        (300, 64, 5, 44),
        (9_007_199_254_740_993, 4_096, 2_199_023_255_553, 1),
    ] {
        assert_eq!(count.div_ceil(chunk_size), tiles, "tiles of {count}");
        let tail = count - tiles.saturating_sub(1) * chunk_size;
        assert_eq!(if tiles == 0 { 0 } else { tail }, last, "tail of {count}");
    }
}

#[test]
fn a_source_channel_names_no_deriver() {
    let from_source = Channel::categorical("sex", "sex", 2);
    assert_eq!(from_source.derived_by, None);
    let computed = from_source.clone().derived_by("k-anonymity generalisation");
    assert_ne!(from_source, computed);
    assert_eq!(
        computed.domain,
        Some(2),
        "naming a deriver moves no other field"
    );
}

#[test]
fn levels_nest_by_construction() {
    for k in 0..6u32 {
        let coarse: Vec<u64> = (0..4_096u64)
            .filter(|d| d % VertexLevels::stride(k + 1) == 0)
            .collect();
        let fine: Vec<u64> = (0..4_096u64)
            .filter(|d| d % VertexLevels::stride(k) == 0)
            .collect();
        assert!(coarse.iter().all(|d| fine.contains(d)), "level {k}");
        assert!(coarse.len() < fine.len() || fine.len() <= 1);
    }
}

#[test]
fn a_level_prefix_is_the_stem_and_the_number() {
    let plan = VertexLevels::planned(1_000_000, DEFAULT_CHUNK_SIZE).expect("over one tile");
    assert_eq!(plan.level_prefix(3), "l3/");
    assert_eq!(plan.prefix, LEVEL_PREFIX_STEM);
}

#[test]
fn planned_levels_over_a_million_vertices() {
    let plan = VertexLevels::planned(1_000_000, DEFAULT_CHUNK_SIZE).expect("over one tile");
    assert_eq!(plan.levels, vec![1, 2, 3, 4]);
    let rows: Vec<u64> = plan
        .levels
        .iter()
        .map(|&k| VertexLevels::rows_at(1_000_000, k))
        .collect();
    assert_eq!(rows, vec![250_000, 62_500, 15_625, 3_907]);
    assert!(rows[3] <= DEFAULT_CHUNK_SIZE);
    assert!(VertexLevels::rows_at(1_000_000, 3) > DEFAULT_CHUNK_SIZE);
    assert_eq!(rows.iter().sum::<u64>(), 332_032);
}

#[test]
fn the_pyramid_costs_a_third_of_the_type() {
    for &v in &[300_000u64, 1_000_000, 5_000_000, 10_000_000] {
        let plan = VertexLevels::planned(v, DEFAULT_CHUNK_SIZE).expect("over one tile");
        let levels = plan.levels.len() as u64;
        let rows: u64 = plan
            .levels
            .iter()
            .map(|&k| VertexLevels::rows_at(v, k))
            .sum();
        assert!(rows <= v / 3 + levels, "{v}: {rows} rows is over a third");
        assert!(rows * 4 >= v, "{v}: {rows} rows is under a quarter");
    }
}

#[test]
fn a_type_that_fits_one_tile_gets_no_pyramid() {
    assert!(VertexLevels::planned(DEFAULT_CHUNK_SIZE, DEFAULT_CHUNK_SIZE).is_none());
    assert!(VertexLevels::planned(DEFAULT_CHUNK_SIZE + 1, DEFAULT_CHUNK_SIZE).is_some());
    let small = VertexLevels::planned(300, 64).expect("over one tile");
    assert_eq!(small.levels, vec![1, 2]);
    assert!(VertexLevels::planned(5, DEFAULT_CHUNK_SIZE).is_none());
    assert!(VertexLevels::planned(1_000_000, 0).is_none());
}

#[test]
fn a_base_is_a_power_of_four() {
    assert_eq!(HolonTree::base_bits(4), Some(2));
    assert_eq!(HolonTree::base_bits(16), Some(4));
    assert_eq!(HolonTree::base_bits(DEFAULT_VERTICES_PER_CELL), Some(4));
    assert_eq!(HolonTree::base_bits(4_096), Some(12), "the tile, which is 4^6");
    assert_eq!(HolonTree::base_bits(8), None);
    assert_eq!(HolonTree::base_bits(32), None);
    assert_eq!(HolonTree::base_bits(20), None);
    assert_eq!(HolonTree::base_bits(0), None);
    assert_eq!(HolonTree::base_bits(1), Some(0));
}

#[test]
fn a_rungs_count_is_a_quarter_of_the_one_below_it() {
    let base = DEFAULT_VERTICES_PER_CELL;
    let v = 317_080;
    let mut below = HolonTree::holons_at(v, base, 1).expect("a valid base");
    assert_eq!(below, v.div_ceil(base), "the finest rung is V over the base");
    for rung in 2..=12 {
        let here = HolonTree::holons_at(v, base, rung).expect("a valid base");
        assert_eq!(here, below.div_ceil(4), "rung {rung} of {below}");
        below = here;
    }
    assert_eq!(below, 1, "twelve rungs reach a single cell over com-DBLP");
}

#[test]
fn a_planned_tree_runs_to_a_single_cell() {
    let props: Vec<Property> = Vec::new();
    let tree = HolonTree::planned(20_000, DEFAULT_VERTICES_PER_CELL, Vec::new(), &props)
        .expect("twenty thousand is more than one cell");
    let counts: Vec<u64> = tree.rungs.iter().map(|r| r.holon_count).collect();
    assert_eq!(counts, vec![1_250, 313, 79, 20, 5, 2, 1]);
    assert_eq!(
        tree.rungs.iter().map(|r| r.path.clone()).collect::<Vec<_>>(),
        ["r1/", "r2/", "r3/", "r4/", "r5/", "r6/", "r7/"],
    );
    assert_eq!(tree.vertices_per_cell, DEFAULT_VERTICES_PER_CELL);
    assert_eq!(counts.iter().sum::<u64>(), 1_670);
    assert!(HolonTree::planned(16, 16, Vec::new(), &props).is_none());
    assert!(HolonTree::planned(1, 16, Vec::new(), &props).is_none());
    assert!(HolonTree::planned(17, 16, Vec::new(), &props).is_some());
    assert!(HolonTree::planned(20_000, 20, Vec::new(), &props).is_none());
}

#[test]
fn a_perfectly_quartered_tree_clears_the_branching_floor() {
    let props: Vec<Property> = Vec::new();
    let tree = HolonTree::planned(20_000, DEFAULT_VERTICES_PER_CELL, Vec::new(), &props)
        .expect("a tree");
    assert!(tree.contracts_by_at_least(20_000));
    let stalled = HolonTree::new(
        DEFAULT_VERTICES_PER_CELL,
        Vec::new(),
        vec![
            HolonRung::at(1, 690, props.clone()),
            HolonRung::at(2, 595, props.clone()),
        ],
    );
    assert!(!stalled.contracts_by_at_least(317_080));
    let empty = HolonTree::new(
        DEFAULT_VERTICES_PER_CELL,
        Vec::new(),
        vec![HolonRung::at(1, 0, props)],
    );
    assert!(!empty.contracts_by_at_least(317_080));
}

fn person_vertex() -> VertexInfo {
    VertexInfo::new(
        "Person",
        10_000,
        DEFAULT_CHUNK_SIZE,
        "vertex/person/",
        vec![Projection::payload(
            "",
            vec![
                Property {
                    name: "id".to_string(),
                    data_type: data_type_name(&DataType::Int64),
                    is_primary: true,
                    is_nullable: Some(false),
                    cardinality: None,
                },
                Property {
                    name: "name".to_string(),
                    data_type: data_type_name(&DataType::Utf8),
                    is_primary: false,
                    is_nullable: None,
                    cardinality: None,
                },
            ],
        )],
    )
}

#[test]
fn only_a_derived_position_fails_to_be_data() {
    let info = person_vertex().with_coordinates(vec![
        CoordinateSystem::measured("geo", "lon", "lat", Provenance::Geographic),
        CoordinateSystem::measured("umap", "u0", "u1", Provenance::Embedded),
        CoordinateSystem::derived("layout", "x", "y", "louvain+phyllotaxis"),
    ]);
    let measured: Vec<&str> = info
        .measured_coordinates()
        .iter()
        .map(|s| s.name.as_str())
        .collect();
    assert_eq!(measured, ["geo", "umap"]);
}

#[test]
fn a_type_without_levels_is_a_type_with_one_projection() {
    let info = person_vertex();
    assert_eq!(info.projections.len(), 1);
    let with = info.with_levels(&VertexLevels::planned(1_000_000, DEFAULT_CHUNK_SIZE).unwrap());
    assert_eq!(with.projections.len(), 5);
    assert_eq!(with.projections[1].path, "l1/");
    assert_eq!(with.projections[4].scale, 256);
    assert_eq!(with.projections[4].properties.len(), 2);
}

#[test]
fn data_type_name_uses_spec_spellings() {
    assert_eq!(data_type_name(&DataType::Boolean), "bool");
    assert_eq!(data_type_name(&DataType::Int32), "int32");
    assert_eq!(data_type_name(&DataType::UInt32), "uint32");
    assert_eq!(data_type_name(&DataType::Float64), "double");
    assert_eq!(data_type_name(&DataType::LargeUtf8), "string");
    assert_eq!(data_type_name(&DataType::Timestamp), "timestamp");
    assert_eq!(data_type_name(&DataType::Other), "binary");
}

#[test]
fn every_declared_column_type_has_an_arrow_type() {
    for name in ["bool", "int64", "float", "double", "string", "uint32", "uint64"] {
        let dt = arrow_type(name).expect(name);
        assert_eq!(data_type_name(&dt), name);
    }
    assert_eq!(arrow_type("int32"), None);
    assert_eq!(arrow_type("binary"), None);
}

#[test]
fn an_edge_adjacency_is_found_by_its_endpoint() {
    let edge = EdgeInfo {
        src_type: "Person".to_string(),
        edge_type: "knows".to_string(),
        iri: String::new(),
        dst_type: "Person".to_string(),
        cardinality: None,
        edge_count: 19_998,
        chunk_size: DEFAULT_CHUNK_SIZE,
        src_chunk_size: DEFAULT_CHUNK_SIZE,
        dst_chunk_size: DEFAULT_CHUNK_SIZE,
        directed: true,
        prefix: "edge/person_knows_person/".to_string(),
        projections: vec![
            Projection::payload("by_source/", Vec::new()).aligned_by("src", true),
            Projection::payload("by_target/", Vec::new()).aligned_by("dst", true),
        ],
        version: "gar/v1".to_string(),
    };
    assert_eq!(edge.adjacency("dst").unwrap().path, "by_target/");
    assert!(edge.adjacency("mid").is_none());
    let plan = VertexLevels::planned(300, 64).unwrap();
    let with = edge.with_levels(&plan, &[]);
    assert_eq!(with.projections.len(), 4);
    assert_eq!(with.projections[2].aligned_by.as_deref(), Some("src"));
    assert_eq!(with.projections[3].scale, 16);
}

#[test]
fn a_graph_info_starts_at_the_format_version() {
    let g = GraphInfo::new("graph", "", Container::RowGroups, vec!["v.yml".to_string()], Vec::new());
    assert_eq!(g.version, "gar/v1");
    assert_eq!(g.vertices, vec!["v.yml"]);
}

fn knows_edge() -> EdgeInfo {
    EdgeInfo {
        src_type: "Person".to_string(),
        edge_type: "knows".to_string(),
        iri: String::new(),
        dst_type: "Person".to_string(),
        cardinality: Some(Cardinality::Multi),
        edge_count: 19_998,
        chunk_size: DEFAULT_CHUNK_SIZE,
        src_chunk_size: DEFAULT_CHUNK_SIZE,
        dst_chunk_size: DEFAULT_CHUNK_SIZE,
        directed: true,
        prefix: "edge/person_knows_person/".to_string(),
        projections: vec![
            Projection::payload("by_source/", endpoint_columns()).aligned_by("src", true),
            Projection::payload("by_target/", endpoint_columns()).aligned_by("dst", true),
        ],
        version: GRAPHAR_VERSION.to_string(),
    }
}

fn endpoint_columns() -> Vec<Property> {
    ["src_dense", "dst_dense"]
        .into_iter()
        .map(|name| Property {
            name: name.to_string(),
            data_type: "uint32".to_string(),
            is_primary: false,
            is_nullable: Some(false),
            cardinality: Some(Cardinality::Single),
        })
        .collect()
}

fn column(name: &str, data_type: &str) -> Property {
    Property {
        name: name.to_string(),
        data_type: data_type.to_string(),
        is_primary: false,
        is_nullable: Some(false),
        cardinality: Some(Cardinality::Single),
    }
}

fn holon_columns() -> Vec<Property> {
    vec![
        column("holon_id", "uint32"),
        column("x", "float"),
        column("y", "float"),
        column("member_count", "uint32"),
        column("parent", "uint32"),
        column("internal_weight", "int64"),
    ]
}

fn quotient_columns() -> Vec<Property> {
    vec![column("src_holon", "uint32"), column("dst_holon", "uint32"), column("weight", "int64")]
}

fn dblp_tree() -> HolonTree {
    HolonTree::new(
        DEFAULT_CHUNK_SIZE,
        vec!["coauthored".to_string()],
        vec![
            HolonRung::at(1, 55_712, holon_columns()).with_quotient(159_413, quotient_columns()),
            HolonRung::at(2, 9_248, holon_columns()),
            HolonRung::at(3, 1_696, holon_columns()),
        ],
    )
    .with_coordinates(vec![CoordinateSystem::derived(
        "holon",
        "x",
        "y",
        "louvain-cut+member-centroid",
    )])
}

const DBLP_AUTHORS: u64 = 317_080;

#[test]
fn the_payload_is_the_projection_whose_scale_is_one() {
    let plan = VertexLevels::planned(1_000_000, DEFAULT_CHUNK_SIZE).expect("over one tile");
    let vertex = person_vertex().with_levels(&plan);
    let scales: Vec<u64> = vertex.projections.iter().map(|p| p.scale).collect();
    assert_eq!(scales, vec![1, 4, 16, 64, 256]);
    let payload = vertex.payload().expect("a payload");
    assert_eq!(payload.path, "");
    for level in vertex.projections.iter().filter(|p| p.scale > 1) {
        assert_eq!(level.properties, payload.properties, "{}", level.path);
        assert_eq!(level.aligned_by, None);
    }
    let edge = knows_edge().with_levels(&plan, &endpoint_columns());
    assert_eq!(edge.adjacency("src").expect("CSR").path, "by_source/");
    assert_eq!(edge.adjacency("dst").expect("CSC").path, "by_target/");
    assert_eq!(edge.adjacency("nowhere"), None);
    let levelled: Vec<&str> = edge
        .projections
        .iter()
        .filter(|p| p.scale > 1)
        .map(|p| p.path.as_str())
        .collect();
    assert_eq!(levelled, vec!["l1/", "l2/", "l3/", "l4/"]);
    assert!(edge
        .projections
        .iter()
        .filter(|p| p.scale > 1)
        .all(|p| p.aligned_by.as_deref() == Some("src")));
}

#[test]
fn a_projections_scale_is_the_strides_own_number() {
    let plan = VertexLevels::planned(1_000_000, DEFAULT_CHUNK_SIZE).expect("over one tile");
    for (projection, &level) in plan.projections("parquet", &[]).iter().zip(plan.levels.iter()) {
        assert_eq!(projection.scale, VertexLevels::stride(level));
        assert_eq!(projection.path, plan.level_prefix(level));
        assert_eq!(1_000_000u64.div_ceil(projection.scale), VertexLevels::rows_at(1_000_000, level));
        assert_eq!(projection.scale.trailing_zeros(), VertexLevels::stride_bits(level));
    }
}

#[test]
fn a_holon_tree_is_not_a_projection() {
    let plan = VertexLevels::planned(1_000_000, DEFAULT_CHUNK_SIZE).expect("over one tile");
    let bare = person_vertex().with_levels(&plan);
    let with = bare.clone().with_holons(dblp_tree());
    assert_eq!(with.projections, bare.projections);
    assert_eq!(with.payload(), bare.payload());
    let scales: Vec<u64> = with.projections.iter().map(|p| p.scale).collect();
    assert_eq!(scales, vec![1, 4, 16, 64, 256]);
}

#[test]
fn a_rung_declares_a_count_and_clears_the_floor_without_meeting_it() {
    let tree = dblp_tree();
    let counts: Vec<u64> = tree.rungs.iter().map(|r| r.holon_count).collect();
    assert_eq!(counts, vec![55_712, 9_248, 1_696]);
    assert!(tree.contracts_by_at_least(DBLP_AUTHORS));
    let mut below = DBLP_AUTHORS;
    for &count in &counts {
        assert!(count * VertexLevels::stride(1) <= below);
        assert!(count * 5 <= below, "{count} against {below}");
        below = count;
    }
}

#[test]
fn the_declared_floor_rejects_the_levels_the_cut_dropped() {
    let emitted = HolonTree::new(
        DEFAULT_CHUNK_SIZE,
        vec!["coauthored".to_string()],
        [55_712u64, 9_248, 1_696, 690, 595]
            .into_iter()
            .enumerate()
            .map(|(i, groups)| {
                HolonRung::at(u32::try_from(i).expect("five rungs") + 1, groups, Vec::new())
            })
            .collect(),
    );
    assert!(!emitted.contracts_by_at_least(DBLP_AUTHORS));
    let empty = HolonTree::new(
        DEFAULT_CHUNK_SIZE,
        vec!["coauthored".to_string()],
        vec![HolonRung::at(1, 0, Vec::new())],
    );
    assert!(!empty.contracts_by_at_least(DBLP_AUTHORS));
}

#[test]
fn a_holons_position_is_declared_rather_than_derived_in_silence() {
    let declared = dblp_tree().coordinates.expect("a declared system");
    assert_eq!(declared.len(), 1);
    assert_eq!(declared[0].provenance, Provenance::Derived);
    assert_eq!(declared[0].derived_by.as_deref(), Some("louvain-cut+member-centroid"));
    assert!(!declared[0].is_data());
    let silent =
        HolonTree::new(DEFAULT_CHUNK_SIZE, vec!["coauthored".to_string()], Vec::new());
    assert_eq!(silent.coordinates, None);
    assert_ne!(silent, silent.clone().with_coordinates(Vec::new()));
}

fn bounded_graph() -> GraphInfo {
    GraphInfo::new(
        "graph",
        "",
        Container::RowGroups,
        vec!["vertex/Person.vertex.yml".to_string()],
        vec![],
    )
    .with_privacy(Privacy::KAnonymity(KAnonymity {
        k: 5,
        reached: 12,
        absent_quasi_identifier: AbsentQuasiIdentifier::Suppress,
        population: 70_000,
        suppressed: 143,
        suppression_budget_ppm: 20_000,
        quasi_identifiers: "Person.birth_year Person.postcode Person.sex".to_string(),
        generalization: "Person.birth_year@bucket Person.postcode@1-3/4".to_string(),
        policy: "https://example.org/policies/persons-v1".to_string(),
        profile: "https://fossil-lang.org/ns/privacy/v1".to_string(),
    }))
}

#[test]
fn the_suppression_budget_compares_without_a_float() {
    let Privacy::KAnonymity(bound) = bounded_graph().privacy else {
        panic!("a bound");
    };
    assert!(bound.suppressed * 1_000_000 <= bound.population * bound.suppression_budget_ppm);
    let over = KAnonymity { suppressed: 1_401, ..bound };
    assert!(over.suppressed * 1_000_000 > over.population * over.suppression_budget_ppm);
}

#[test]
fn a_new_graph_declares_no_bound_and_a_bound_changes_nothing_else() {
    let plain = GraphInfo::new("graph", "", Container::RowGroups, vec!["vertex/Person.vertex.yml".to_string()], vec![]);
    assert_eq!(plain.privacy, Privacy::Undeclared);
    let bounded = bounded_graph();
    assert_eq!(bounded.name, plain.name);
    assert_eq!(bounded.vertices, plain.vertices);
    assert_eq!(bounded.container, plain.container);
    assert!(matches!(bounded.privacy, Privacy::KAnonymity(KAnonymity { k: 5, reached: 12, .. })));
}
