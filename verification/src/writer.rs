//! The write planner: the `COPY ... TO ... (FORMAT PARQUET)` statements that
//! materialise a batch of vertex and edge types under a destination URL.
//!
//! The planner only plans; executing the SQL against a database belongs to
//! the runtime. Vertex Parquet columns are `dense_id` (the dense index, a
//! streaming `row_number() - 1`), `subject` (the IRI), the caller's property
//! columns, and the layout placeholders `x`, `y`, `cluster_id`. Each edge type
//! gets a directory `{src}_{label}_{dst}` with a `by_source` (CSR) and a
//! `by_target` (CSC) file, both resolving IRIs to dense ids by joining the
//! vertex Parquets just written.

use std::collections::BTreeMap;
use vstd::prelude::*;

use crate::decomp::{EdgeTable, SinkPlan, VertexTable};
use crate::manifest::{
    data_type_name, props_view, Cardinality, Container, DataType, EdgeInfo, GraphInfo, Privacy,
    Projection, Property, PropertyView, VertexInfo, GRAPHAR_VERSION,
};
use crate::strings::{decimal, push_decimal, str_eq, trim_end, trim_end_slashes};

verus! {

// ───────────────────────────── inputs ─────────────────────────────

/// One vertex type's emission.
#[derive(Debug, Clone, PartialEq, Eq)]
pub struct VertexSpec {
    /// Short local name — drives the output path `vertex/<name>.parquet`.
    pub name: String,
    /// Full type IRI; empty for a non-RDF graph.
    pub iri: String,
    /// SQL relation producing a `subject` column and the property columns.
    pub source_relation: String,
    /// Property column names, in the order the relation produces them.
    pub property_columns: Vec<String>,
    /// Whether to keep one row per subject before numbering.
    pub dedup_subjects: bool,
    /// Column name → predicate IRI, carried through to the manifest.
    pub column_iris: BTreeMap<String, String>,
}

/// One edge type's emission.
#[derive(Debug, Clone, PartialEq, Eq)]
pub struct EdgeSpec {
    /// Short edge label — drives the edge directory name.
    pub label: String,
    /// Full predicate IRI.
    pub iri: String,
    /// Source vertex type name; must name a vertex of the same batch.
    pub source_type: String,
    /// Target vertex type name; must name a vertex of the same batch.
    pub target_type: String,
    /// SQL relation producing `src_iri | dst_iri`.
    pub source_relation: String,
}

/// Knobs for the SQL generation.
#[derive(Debug, Clone, PartialEq, Eq)]
pub struct WriteOptions {
    /// `ROW_GROUP_SIZE` of each COPY.
    pub row_group_size: u64,
    /// Vertex Parquet path under the destination; default `"vertex/"`.
    pub vertex_prefix: String,
    /// Edge Parquet path under the destination; default `"edge/"`.
    pub edge_prefix: String,
}

impl Default for WriteOptions {
    fn default() -> (o: Self)
        ensures
            o.row_group_size == 100_000,
            o.vertex_prefix@ == "vertex/"@,
            o.edge_prefix@ == "edge/"@,
    {
        WriteOptions {
            row_group_size: 100_000,
            vertex_prefix: String::from_str("vertex/"),
            edge_prefix: String::from_str("edge/"),
        }
    }
}

/// A column name the writer emits itself on every vertex Parquet.
pub open spec fn is_reserved(c: Seq<char>) -> bool {
    c == "dense_id"@ || c == "subject"@ || c == "x"@ || c == "y"@ || c == "cluster_id"@
}

/// The column names the writer emits itself on every vertex Parquet, in the
/// order `WriteOptions::reserved_column_names` lists them.
pub open spec fn reserved_list() -> Seq<Seq<char>> {
    seq!["dense_id"@, "subject"@, "x"@, "y"@, "cluster_id"@]
}

impl WriteOptions {
    /// Column names the writer reserves on the vertex Parquet shape.
    pub fn reserved_column_names() -> (r: Vec<&'static str>)
        ensures
            r@.map_values(|n: &'static str| n@) == reserved_list(),
            r@.len() == 5,
            r@[0]@ == "dense_id"@,
            r@[1]@ == "subject"@,
            r@[2]@ == "x"@,
            r@[3]@ == "y"@,
            r@[4]@ == "cluster_id"@,
    {
        let mut r: Vec<&'static str> = Vec::new();
        r.push("dense_id");
        r.push("subject");
        r.push("x");
        r.push("y");
        r.push("cluster_id");
        assert(r@.map_values(|n: &'static str| n@) =~= reserved_list());
        r
    }
}

// ───────────────────────────── outputs ─────────────────────────────

/// The SQL statements the runtime executes, in order.
#[derive(Debug, Clone, PartialEq, Eq)]
pub struct WriteSqlPlan {
    /// One per vertex spec, in input order.
    pub vertex_statements: Vec<VertexStatement>,
    /// One per edge spec, in input order.
    pub edge_statements: Vec<EdgeStatement>,
}

/// The plan for one vertex type.
#[derive(Debug, Clone, PartialEq, Eq)]
pub struct VertexStatement {
    pub type_label: String,
    /// Relative path under the destination — `"vertex/<name>.parquet"`.
    pub rel_path: String,
    pub copy_sql: String,
}

/// The plan for one edge type — CSR and CSC.
#[derive(Debug, Clone, PartialEq, Eq)]
pub struct EdgeStatement {
    pub edge_dir_name: String,
    pub csr_rel_path: String,
    pub csc_rel_path: String,
    pub copy_csr_sql: String,
    pub copy_csc_sql: String,
}

/// Why a batch cannot be planned.
#[derive(Debug, Clone, PartialEq, Eq)]
pub enum WriteError {
    /// A property column collides with a column the writer emits itself.
    ReservedColumnName { vertex: String, column: String, reserved: Vec<&'static str> },
    /// An edge names a vertex type that is not in the batch.
    EdgeRefersMissingVertex { src: String, label: String, dst: String, missing: String },
    /// The destination URL is empty.
    EmptyDestUrl,
}

impl WriteError {
    /// The error's message.
    pub fn message(&self) -> (m: String)
        ensures
            m@.len() > 0,
    {
        match self {
            WriteError::ReservedColumnName { vertex, column, .. } => {
                let mut m = String::from_str("vertex `");
                m.append(vertex.as_str());
                m.append("`: column `");
                m.append(column.as_str());
                m.append(
                    "` collides with a reserved writer column ([\"dense_id\", \"subject\", \"x\", \"y\", \"cluster_id\"])",
                );
                proof {
                    reveal_strlit("vertex `");
                }
                m
            },
            WriteError::EdgeRefersMissingVertex { src, label, dst, missing } => {
                let mut m = String::from_str("edge `");
                m.append(src.as_str());
                m.append("_");
                m.append(label.as_str());
                m.append("_");
                m.append(dst.as_str());
                m.append("`: referenced vertex type `");
                m.append(missing.as_str());
                m.append("` is not in the write batch");
                proof {
                    reveal_strlit("edge `");
                }
                m
            },
            WriteError::EmptyDestUrl => {
                proof {
                    reveal_strlit("destination URL must not be empty");
                }
                String::from_str("destination URL must not be empty")
            },
        }
    }
}

// ───────────────────────────── the SQL, as text ─────────────────────────────

/// `, "c0", "c1", ...` for the property columns.
pub open spec fn quoted_columns(cols: Seq<String>) -> Seq<char>
    decreases cols.len(),
{
    if cols.len() == 0 {
        Seq::empty()
    } else {
        quoted_columns(cols.drop_last()) + ", "@ + "\""@ + cols.last()@ + "\""@
    }
}

/// The destination as the statements use it: without its trailing `/`s.
pub open spec fn dest_of(dest_url: Seq<char>) -> Seq<char> {
    trim_end(dest_url, '/')
}

/// The relative path of a vertex type's Parquet.
pub open spec fn vertex_rel_path(options: WriteOptions, name: Seq<char>) -> Seq<char> {
    options.vertex_prefix@ + name + ".parquet"@
}

/// The relation a vertex COPY reads.
pub open spec fn vertex_source(spec: VertexSpec) -> Seq<char> {
    if spec.dedup_subjects {
        "SELECT DISTINCT ON (subject) * FROM ("@ + spec.source_relation@ + ")"@
    } else {
        spec.source_relation@
    }
}

/// The projection a vertex COPY writes.
pub open spec fn vertex_select(spec: VertexSpec) -> Seq<char> {
    "row_number() OVER () - 1 AS dense_id, subject"@ + quoted_columns(spec.property_columns@)
        + ", 0::REAL AS x, 0::REAL AS y, 0::UINTEGER AS cluster_id"@
}

/// The COPY statement of one vertex type.
pub open spec fn vertex_copy_sql(spec: VertexSpec, dest_url: Seq<char>, options: WriteOptions) -> Seq<
    char,
> {
    "COPY (SELECT "@ + vertex_select(spec) + " FROM ("@ + vertex_source(spec) + ")) TO '"@
        + dest_of(dest_url) + "/"@ + vertex_rel_path(options, spec.name@)
        + "' (FORMAT PARQUET, ROW_GROUP_SIZE "@ + decimal(options.row_group_size as nat) + ")"@
}

/// The directory of an edge type — `{src}_{label}_{dst}`.
pub open spec fn edge_dir(spec: EdgeSpec) -> Seq<char> {
    spec.source_type@ + "_"@ + spec.label@ + "_"@ + spec.target_type@
}

/// The join that resolves an edge's IRIs to dense ids.
pub open spec fn edge_inner(
    spec: EdgeSpec,
    dest_url: Seq<char>,
    src_v: Seq<char>,
    dst_v: Seq<char>,
) -> Seq<char> {
    "SELECT s.dense_id AS src_dense, t.dense_id AS dst_dense FROM ("@ + spec.source_relation@
        + ") e JOIN read_parquet('"@ + dest_of(dest_url) + "/"@ + src_v
        + "') s ON e.src_iri = s.subject JOIN read_parquet('"@ + dest_of(dest_url) + "/"@ + dst_v
        + "') t ON e.dst_iri = t.subject"@
}

/// One of an edge type's two COPY statements.
pub open spec fn edge_copy_sql(
    inner: Seq<char>,
    order_by: Seq<char>,
    dest_url: Seq<char>,
    rel: Seq<char>,
    options: WriteOptions,
) -> Seq<char> {
    "COPY ("@ + inner + order_by + ") TO '"@ + dest_of(dest_url) + "/"@ + rel
        + "' (FORMAT PARQUET, ROW_GROUP_SIZE "@ + decimal(options.row_group_size as nat) + ")"@
}

/// The plan of one vertex type, as plain values.
pub open spec fn vertex_statement_is(
    s: VertexStatement,
    spec: VertexSpec,
    dest_url: Seq<char>,
    options: WriteOptions,
) -> bool {
    &&& s.type_label@ == spec.name@
    &&& s.rel_path@ == vertex_rel_path(options, spec.name@)
    &&& s.copy_sql@ == vertex_copy_sql(spec, dest_url, options)
}

/// The plan of one edge type, as plain values.
pub open spec fn edge_statement_with(
    s: EdgeStatement,
    spec: EdgeSpec,
    dest_url: Seq<char>,
    options: WriteOptions,
    src_v: Seq<char>,
    dst_v: Seq<char>,
) -> bool {
    let csr = options.edge_prefix@ + edge_dir(spec) + "/by_source.parquet"@;
    let csc = options.edge_prefix@ + edge_dir(spec) + "/by_target.parquet"@;
    let inner = edge_inner(spec, dest_url, src_v, dst_v);
    &&& s.edge_dir_name@ == edge_dir(spec)
    &&& s.csr_rel_path@ == csr
    &&& s.csc_rel_path@ == csc
    &&& s.copy_csr_sql@ == edge_copy_sql(
        inner,
        " ORDER BY src_dense, dst_dense"@,
        dest_url,
        csr,
        options,
    )
    &&& s.copy_csc_sql@ == edge_copy_sql(
        inner,
        " ORDER BY dst_dense, src_dense"@,
        dest_url,
        csc,
        options,
    )
}

/// The plan of one edge type of a batch, joining against the Parquets the
/// batch's own vertex statements write.
pub open spec fn edge_statement_is(
    s: EdgeStatement,
    spec: EdgeSpec,
    dest_url: Seq<char>,
    options: WriteOptions,
) -> bool {
    edge_statement_with(
        s,
        spec,
        dest_url,
        options,
        vertex_rel_path(options, spec.source_type@),
        vertex_rel_path(options, spec.target_type@),
    )
}

/// The path the first entry named `name` gives, if any.
pub open spec fn path_for(paths: Seq<(String, String)>, name: Seq<char>) -> Option<Seq<char>>
    decreases paths.len(),
{
    if paths.len() == 0 {
        None
    } else if paths[0].0@ == name {
        Some(paths[0].1@)
    } else {
        path_for(paths.drop_first(), name)
    }
}

/// Where every entry's path is `vertex_rel_path` of its name, a name that
/// some entry carries finds that path.
proof fn lemma_path_for(paths: Seq<(String, String)>, options: WriteOptions, name: Seq<char>)
    requires
        forall|k: int|
            0 <= k < paths.len() ==> (#[trigger] paths[k]).1@ == vertex_rel_path(
                options,
                paths[k].0@,
            ),
        exists|k: int| 0 <= k < paths.len() && (#[trigger] paths[k]).0@ == name,
    ensures
        path_for(paths, name) == Some(vertex_rel_path(options, name)),
    decreases paths.len(),
{
    if paths[0].0@ != name {
        let t = paths.drop_first();
        assert forall|k: int| 0 <= k < t.len() implies (#[trigger] t[k]).1@ == vertex_rel_path(
            options,
            t[k].0@,
        ) by {
            assert(t[k] == paths[k + 1]);
        }
        let k = choose|k: int| 0 <= k < paths.len() && (#[trigger] paths[k]).0@ == name;
        assert(t[k - 1] == paths[k]);
        lemma_path_for(t, options, name);
    }
}

/// The index of the first entry named `name`.
fn find_path(paths: &[(String, String)], name: &str) -> (r: Option<usize>)
    ensures
        r matches Some(i) ==> i < paths@.len() && path_for(paths@, name@) == Some(paths@[i as int].1@),
        r is None ==> path_for(paths@, name@) is None,
{
    let mut i: usize = 0;
    assert(paths@.subrange(0, paths@.len() as int) =~= paths@);
    while i < paths.len()
        invariant
            i <= paths@.len(),
            path_for(paths@, name@) == path_for(paths@.subrange(i as int, paths@.len() as int), name@),
        decreases paths@.len() - i,
    {
        proof {
            let t = paths@.subrange(i as int, paths@.len() as int);
            assert(t.drop_first() =~= paths@.subrange(i + 1, paths@.len() as int));
            assert(t[0] == paths@[i as int]);
        }
        if str_eq(paths[i].0.as_str(), name) {
            return Some(i);
        }
        i = i + 1;
    }
    None
}

// ───────────────────────────── validation ─────────────────────────────

/// Some property column of vertex `v` is reserved.
pub open spec fn has_reserved(v: VertexSpec) -> bool {
    exists|c: int| 0 <= c < v.property_columns@.len() && is_reserved(#[trigger] v.property_columns@[c]@)
}

/// The first reserved column of vertex `v` is at `c`.
pub open spec fn first_reserved_at(v: VertexSpec, c: int) -> bool {
    &&& 0 <= c < v.property_columns@.len()
    &&& is_reserved(v.property_columns@[c]@)
    &&& forall|d: int| 0 <= d < c ==> !is_reserved(#[trigger] v.property_columns@[d]@)
}

/// A vertex type of the batch is named `name`.
pub open spec fn names_vertex(vs: Seq<VertexSpec>, name: Seq<char>) -> bool {
    exists|i: int| 0 <= i < vs.len() && #[trigger] vs[i].name@ == name
}

/// Edge `e` names a vertex type missing from the batch.
pub open spec fn edge_is_dangling(vs: Seq<VertexSpec>, e: EdgeSpec) -> bool {
    !names_vertex(vs, e.source_type@) || !names_vertex(vs, e.target_type@)
}

/// The batch is consistent: no reserved column, no dangling edge.
pub open spec fn batch_ok(vs: Seq<VertexSpec>, es: Seq<EdgeSpec>) -> bool {
    &&& forall|i: int| 0 <= i < vs.len() ==> !has_reserved(#[trigger] vs[i])
    &&& forall|j: int| 0 <= j < es.len() ==> !edge_is_dangling(vs, #[trigger] es[j])
}

/// The error validation reports for an inconsistent batch: the first
/// reserved column (vertices in order, columns in order), else the first
/// dangling edge, naming its source type when that is missing and its target
/// type otherwise.
pub open spec fn validation_error(
    vs: Seq<VertexSpec>,
    es: Seq<EdgeSpec>,
    err: WriteError,
) -> bool {
    match err {
        WriteError::ReservedColumnName { vertex, column, reserved } => exists|i: int, c: int|
            #![trigger first_reserved_at(vs[i], c)]
            {
                &&& 0 <= i < vs.len()
                &&& forall|k: int| 0 <= k < i ==> !has_reserved(#[trigger] vs[k])
                &&& first_reserved_at(vs[i], c)
                &&& vertex@ == vs[i].name@
                &&& column@ == vs[i].property_columns@[c]@
                &&& reserved@.len() == 5
                &&& reserved@[0]@ == "dense_id"@
                &&& reserved@[1]@ == "subject"@
                &&& reserved@[2]@ == "x"@
                &&& reserved@[3]@ == "y"@
                &&& reserved@[4]@ == "cluster_id"@
            },
        WriteError::EdgeRefersMissingVertex { src, label, dst, missing } => {
            &&& forall|i: int| 0 <= i < vs.len() ==> !has_reserved(#[trigger] vs[i])
            &&& exists|j: int|
                #![trigger es[j]]
                {
                    &&& 0 <= j < es.len()
                    &&& forall|k: int| 0 <= k < j ==> !edge_is_dangling(vs, #[trigger] es[k])
                    &&& edge_is_dangling(vs, es[j])
                    &&& src@ == es[j].source_type@
                    &&& label@ == es[j].label@
                    &&& dst@ == es[j].target_type@
                    &&& missing@ == if !names_vertex(vs, es[j].source_type@) {
                        es[j].source_type@
                    } else {
                        es[j].target_type@
                    }
                }
        },
        WriteError::EmptyDestUrl => false,
    }
}

/// A column is reserved exactly when it is one of the names
/// `WriteOptions::reserved_column_names` lists.
pub proof fn lemma_reserved_is_listed(c: Seq<char>)
    ensures
        is_reserved(c) <==> reserved_list().contains(c),
{
    let l = reserved_list();
    if is_reserved(c) {
        if c == "dense_id"@ {
            assert(l[0] == c);
        } else if c == "subject"@ {
            assert(l[1] == c);
        } else if c == "x"@ {
            assert(l[2] == c);
        } else if c == "y"@ {
            assert(l[3] == c);
        } else {
            assert(l[4] == c);
        }
    }
    if l.contains(c) {
        let k = choose|k: int| 0 <= k < l.len() && l[k] == c;
        assert(k == 0 || k == 1 || k == 2 || k == 3 || k == 4);
    }
}

/// Whatever `plan_writes` answers for a batch in which some vertex has a
/// property column named like one of the columns
/// `WriteOptions::reserved_column_names` lists is a refusal; with a
/// destination given, it is the reserved-column error, naming a listed
/// column of a vertex of the batch.
pub proof fn lemma_reserved_column_refused(
    vs: Seq<VertexSpec>,
    es: Seq<EdgeSpec>,
    dest_url: Seq<char>,
    options: WriteOptions,
    r: Result<WriteSqlPlan, WriteError>,
    i: int,
    c: int,
)
    requires
        planned_writes(vs, es, dest_url, options, r),
        0 <= i < vs.len(),
        0 <= c < vs[i].property_columns@.len(),
        reserved_list().contains(vs[i].property_columns@[c]@),
    ensures
        r is Err,
        dest_url.len() > 0 ==> (r matches Err(WriteError::ReservedColumnName { vertex, column, reserved })
            && reserved_list().contains(column@) && reserved@.map_values(|n: &'static str| n@)
            == reserved_list() && exists|k: int, cc: int|
            0 <= k < vs.len() && 0 <= cc < vs[k].property_columns@.len() && vs[k].name@ == vertex@
                && #[trigger] vs[k].property_columns@[cc]@ == column@),
{
    lemma_reserved_is_listed(vs[i].property_columns@[c]@);
    assert(has_reserved(vs[i]));
    assert(!batch_ok(vs, es));
    if dest_url.len() > 0 {
        if let Err(e) = r {
            assert(validation_error(vs, es, e));
            match e {
                WriteError::ReservedColumnName { vertex, column, reserved } => {
                    let (k, cc) = choose|k: int, cc: int|
                        #![trigger first_reserved_at(vs[k], cc)]
                        {
                            &&& 0 <= k < vs.len()
                            &&& forall|m: int| 0 <= m < k ==> !has_reserved(#[trigger] vs[m])
                            &&& first_reserved_at(vs[k], cc)
                            &&& vertex@ == vs[k].name@
                            &&& column@ == vs[k].property_columns@[cc]@
                            &&& reserved@.len() == 5
                            &&& reserved@[0]@ == "dense_id"@
                            &&& reserved@[1]@ == "subject"@
                            &&& reserved@[2]@ == "x"@
                            &&& reserved@[3]@ == "y"@
                            &&& reserved@[4]@ == "cluster_id"@
                        };
                    lemma_reserved_is_listed(column@);
                    assert(vs[k].property_columns@[cc]@ == column@);
                    assert(reserved@.map_values(|n: &'static str| n@) =~= reserved_list());
                },
                _ => {},
            }
        }
    }
}

fn is_reserved_name(c: &str) -> (b: bool)
    ensures
        b == is_reserved(c@),
{
    str_eq(c, "dense_id") || str_eq(c, "subject") || str_eq(c, "x") || str_eq(c, "y") || str_eq(
        c,
        "cluster_id",
    )
}

fn has_vertex(vertices: &[VertexSpec], name: &str) -> (b: bool)
    ensures
        b == names_vertex(vertices@, name@),
{
    let mut i: usize = 0;
    while i < vertices.len()
        invariant
            i <= vertices@.len(),
            forall|k: int| 0 <= k < i ==> #[trigger] vertices@[k].name@ != name@,
        decreases vertices@.len() - i,
    {
        if str_eq(vertices[i].name.as_str(), name) {
            return true;
        }
        i = i + 1;
    }
    false
}

/// Check a batch: no property column may be reserved, and every edge must
/// name vertex types of the batch.
pub fn validate_inputs(vertices: &[VertexSpec], edges: &[EdgeSpec]) -> (r: Result<(), WriteError>)
    ensures
        r is Ok <==> batch_ok(vertices@, edges@),
        r matches Err(e) ==> validation_error(vertices@, edges@, e),
{
    let mut i: usize = 0;
    while i < vertices.len()
        invariant
            i <= vertices@.len(),
            forall|k: int| 0 <= k < i ==> !has_reserved(#[trigger] vertices@[k]),
        decreases vertices@.len() - i,
    {
        let v = &vertices[i];
        let mut c: usize = 0;
        while c < v.property_columns.len()
            invariant
                i < vertices@.len(),
                *v == vertices@[i as int],
                forall|k: int| 0 <= k < i ==> !has_reserved(#[trigger] vertices@[k]),
                c <= v.property_columns@.len(),
                forall|d: int| 0 <= d < c ==> !is_reserved(#[trigger] v.property_columns@[d]@),
            decreases v.property_columns@.len() - c,
        {
            if is_reserved_name(v.property_columns[c].as_str()) {
                let e = WriteError::ReservedColumnName {
                    vertex: v.name.clone(),
                    column: v.property_columns[c].clone(),
                    reserved: WriteOptions::reserved_column_names(),
                };
                proof {
                    assert(first_reserved_at(vertices@[i as int], c as int));
                    assert(has_reserved(vertices@[i as int]));
                }
                return Err(e);
            }
            c = c + 1;
        }
        i = i + 1;
    }
    let mut j: usize = 0;
    while j < edges.len()
        invariant
            j <= edges@.len(),
            forall|k: int| 0 <= k < vertices@.len() ==> !has_reserved(#[trigger] vertices@[k]),
            forall|k: int| 0 <= k < j ==> !edge_is_dangling(vertices@, #[trigger] edges@[k]),
        decreases edges@.len() - j,
    {
        let e = &edges[j];
        let has_src = has_vertex(vertices, e.source_type.as_str());
        let has_dst = has_vertex(vertices, e.target_type.as_str());
        if !has_src || !has_dst {
            let missing = if !has_src {
                e.source_type.clone()
            } else {
                e.target_type.clone()
            };
            let err = WriteError::EdgeRefersMissingVertex {
                src: e.source_type.clone(),
                label: e.label.clone(),
                dst: e.target_type.clone(),
                missing,
            };
            proof {
                assert(edge_is_dangling(vertices@, edges@[j as int]));
            }
            return Err(err);
        }
        j = j + 1;
    }
    Ok(())
}

// ───────────────────────────── vertex manifests ─────────────────────────────

/// A declared column: its name, type spelling, whether it is the primary
/// key, and its nullability; no cardinality.
pub open spec fn declared(name: Seq<char>, ty: Seq<char>, primary: bool, nullable: Option<bool>) -> PropertyView {
    (name, ty, primary, nullable, None)
}

/// The columns a vertex manifest declares, in the order its Parquet file
/// holds them: `dense_id` (the primary key), `subject`, the caller's
/// property columns (strings of undeclared nullability), the `x`, `y`
/// layout columns, and `cluster_id`.
pub open spec fn vertex_columns(props: Seq<String>) -> Seq<PropertyView> {
    seq![
        declared("dense_id"@, "uint32"@, true, Some(false)),
        declared("subject"@, "string"@, false, Some(false)),
    ] + props.map_values(|c: String| declared(c@, "string"@, false, None)) + seq![
        declared("x"@, "float"@, false, Some(false)),
        declared("y"@, "float"@, false, Some(false)),
        declared("cluster_id"@, "uint32"@, false, Some(false)),
    ]
}

fn column(name: &str, data_type: String, is_primary: bool, is_nullable: Option<bool>) -> (c: Property)
    ensures
        c@ == declared(name@, data_type@, is_primary, is_nullable),
{
    Property { name: String::from_str(name), data_type, is_primary, is_nullable, cardinality: None }
}

/// The columns a vertex type's manifest declares.
pub fn vertex_manifest_columns(spec: &VertexSpec) -> (cols: Vec<Property>)
    ensures
        props_view(cols@) == vertex_columns(spec.property_columns@),
{
    let mut cols: Vec<Property> = Vec::new();
    cols.push(column("dense_id", String::from_str("uint32"), true, Some(false)));
    cols.push(column("subject", data_type_name(&DataType::Utf8), false, Some(false)));
    let mut i: usize = 0;
    while i < spec.property_columns.len()
        invariant
            i <= spec.property_columns@.len(),
            cols@.len() == 2 + i,
            props_view(cols@) == seq![
                declared("dense_id"@, "uint32"@, true, Some(false)),
                declared("subject"@, "string"@, false, Some(false)),
            ] + spec.property_columns@.take(i as int).map_values(
                |c: String| declared(c@, "string"@, false, None),
            ),
        decreases spec.property_columns@.len() - i,
    {
        let c = Property {
            name: spec.property_columns[i].clone(),
            data_type: data_type_name(&DataType::Utf8),
            is_primary: false,
            is_nullable: None,
            cardinality: None,
        };
        let ghost before = cols@;
        cols.push(c);
        proof {
            assert(spec.property_columns@.take(i + 1) =~= spec.property_columns@.take(i as int).push(
                spec.property_columns@[i as int],
            ));
            assert(props_view(cols@) =~= props_view(before).push(c@));
            assert(spec.property_columns@.take(i + 1).map_values(
                |c: String| declared(c@, "string"@, false, None),
            ) =~= spec.property_columns@.take(i as int).map_values(
                |c: String| declared(c@, "string"@, false, None),
            ).push(declared(spec.property_columns@[i as int]@, "string"@, false, None)));
        }
        i = i + 1;
    }
    let ghost mid = cols@;
    cols.push(column("x", data_type_name(&DataType::Float32), false, Some(false)));
    cols.push(column("y", data_type_name(&DataType::Float32), false, Some(false)));
    cols.push(column("cluster_id", String::from_str("uint32"), false, Some(false)));
    proof {
        assert(spec.property_columns@.take(i as int) =~= spec.property_columns@);
        assert(props_view(cols@) =~= props_view(mid) + seq![
            declared("x"@, "float"@, false, Some(false)),
            declared("y"@, "float"@, false, Some(false)),
            declared("cluster_id"@, "uint32"@, false, Some(false)),
        ]);
    }
    cols
}

/// Where a vertex type's manifest goes under the destination:
/// `<vertex prefix><name>.vertex.yml`.
pub fn vertex_manifest_rel_path(spec: &VertexSpec, options: &WriteOptions) -> (p: String)
    ensures
        p@ == options.vertex_prefix@ + spec.name@ + ".vertex.yml"@,
{
    let mut p = options.vertex_prefix.clone();
    p.append(spec.name.as_str());
    p.append(".vertex.yml");
    p
}

// ───────────────────────────── manifest set ─────────────────────────────

/// One vertex type's manifest and where it goes under the destination. Its
/// YAML is written by the host.
#[derive(Debug, Clone)]
pub struct ManifestForVertex {
    pub vertex_info: VertexInfo,
    pub rel_path: String,
}

/// One edge type's manifest and where it goes under the destination.
#[derive(Debug, Clone)]
pub struct ManifestForEdge {
    pub edge_info: EdgeInfo,
    pub rel_path: String,
}

/// The graph manifest, which indexes every other one, and where it goes.
#[derive(Debug, Clone)]
pub struct ManifestForGraph {
    pub graph_info: GraphInfo,
    pub rel_path: String,
}

/// The manifests of one write batch: the graph index, then one per vertex
/// type and one per edge type, in input order.
#[derive(Debug, Clone)]
pub struct ManifestSet {
    pub graph: ManifestForGraph,
    pub vertices: Vec<ManifestForVertex>,
    pub edges: Vec<ManifestForEdge>,
}

/// A vertex type's manifest: the type, its IRI, a count the write fills in
/// (none yet), tiles of the row-group size under `<vertex prefix><name>/`,
/// and one payload projection declaring the vertex columns.
pub open spec fn vertex_manifest_is(m: ManifestForVertex, spec: VertexSpec, options: WriteOptions) -> bool {
    let v = m.vertex_info;
    &&& m.rel_path@ == options.vertex_prefix@ + spec.name@ + ".vertex.yml"@
    &&& v.vertex_type@ == spec.name@
    &&& v.iri@ == spec.iri@
    &&& v.vertex_count == 0
    &&& v.chunk_size == options.row_group_size
    &&& v.prefix@ == options.vertex_prefix@ + spec.name@ + "/"@
    &&& v.projections@.len() == 1
    &&& v.projections@[0]@ == (
        Seq::<char>::empty(),
        1u64,
        None::<Seq<char>>,
        None::<bool>,
        "parquet"@,
        vertex_columns(spec.property_columns@),
    )
    &&& v.index is None
    &&& v.coordinates is None
    &&& v.channels is None
    &&& v.holons is None
    &&& v.version@ == GRAPHAR_VERSION@
}

/// The two columns every adjacency tile carries: the edge's endpoints.
pub open spec fn endpoint_columns() -> Seq<PropertyView> {
    seq![
        ("src_dense"@, "uint32"@, false, Some(false), Some(Cardinality::Single)),
        ("dst_dense"@, "uint32"@, false, Some(false), Some(Cardinality::Single)),
    ]
}

/// An edge type's manifest: its endpoints and label, a count the write fills
/// in, directed, under `<edge prefix><dir>/`, with the CSR adjacency (by
/// source, ordered) and the CSC one (by target, ordered).
pub open spec fn edge_manifest_is(m: ManifestForEdge, spec: EdgeSpec, options: WriteOptions) -> bool {
    let e = m.edge_info;
    let dir = edge_dir(spec);
    &&& m.rel_path@ == options.edge_prefix@ + dir + "/"@ + dir + ".edge.yml"@
    &&& e.src_type@ == spec.source_type@
    &&& e.edge_type@ == spec.label@
    &&& e.iri@ == spec.iri@
    &&& e.dst_type@ == spec.target_type@
    &&& e.cardinality is None
    &&& e.edge_count == 0
    &&& e.chunk_size == options.row_group_size
    &&& e.src_chunk_size == options.row_group_size
    &&& e.dst_chunk_size == options.row_group_size
    &&& e.directed
    &&& e.prefix@ == options.edge_prefix@ + dir + "/"@
    &&& e.projections@.len() == 2
    &&& e.projections@[0]@ == ("by_source/"@, 1u64, Some("src"@), Some(true), "parquet"@, endpoint_columns())
    &&& e.projections@[1]@ == ("by_target/"@, 1u64, Some("dst"@), Some(true), "parquet"@, endpoint_columns())
    &&& e.version@ == GRAPHAR_VERSION@
}

/// The graph manifest of a batch: named `graph`, at `graph.graph.yml`, with
/// no bound declared, listing every vertex and edge manifest's path in order.
pub open spec fn graph_manifest_is(
    g: ManifestForGraph,
    vms: Seq<ManifestForVertex>,
    ems: Seq<ManifestForEdge>,
) -> bool {
    let gi = g.graph_info;
    &&& g.rel_path@ == "graph.graph.yml"@
    &&& gi.name@ == "graph"@
    &&& gi.prefix@ == Seq::<char>::empty()
    &&& gi.container == Container::Files
    &&& gi.privacy == Privacy::Undeclared
    &&& gi.vertices@.len() == vms.len()
    &&& forall|i: int| 0 <= i < vms.len() ==> #[trigger] gi.vertices@[i]@ == vms[i].rel_path@
    &&& gi.edges@.len() == ems.len()
    &&& forall|j: int| 0 <= j < ems.len() ==> #[trigger] gi.edges@[j]@ == ems[j].rel_path@
    &&& gi.version@ == GRAPHAR_VERSION@
}

/// What [`plan_manifests`] answers for a batch.
pub open spec fn planned_manifests(
    vs: Seq<VertexSpec>,
    es: Seq<EdgeSpec>,
    options: WriteOptions,
    r: Result<ManifestSet, WriteError>,
) -> bool {
    &&& (r is Ok <==> batch_ok(vs, es))
    &&& (r matches Err(e) ==> validation_error(vs, es, e))
    &&& (r matches Ok(set) ==> {
        &&& set.vertices@.len() == vs.len()
        &&& forall|i: int|
            0 <= i < vs.len() ==> vertex_manifest_is(#[trigger] set.vertices@[i], vs[i], options)
        &&& set.edges@.len() == es.len()
        &&& forall|j: int|
            0 <= j < es.len() ==> edge_manifest_is(#[trigger] set.edges@[j], es[j], options)
        &&& graph_manifest_is(set.graph, set.vertices@, set.edges@)
    })
}

/// One vertex type's manifest.
pub fn build_vertex_manifest(spec: &VertexSpec, options: &WriteOptions) -> (m: ManifestForVertex)
    ensures
        vertex_manifest_is(m, *spec, *options),
{
    let cols = vertex_manifest_columns(spec);
    let payload = Projection::payload("", cols);
    let mut projections: Vec<Projection> = Vec::new();
    projections.push(payload);
    let mut prefix = options.vertex_prefix.clone();
    prefix.append(spec.name.as_str());
    prefix.append("/");
    let mut vertex_info = VertexInfo::new(
        spec.name.as_str(),
        0,
        options.row_group_size,
        prefix.as_str(),
        projections,
    );
    vertex_info.iri = spec.iri.clone();
    let rel_path = vertex_manifest_rel_path(spec, options);
    proof {
        reveal_strlit("");
    }
    let m = ManifestForVertex { vertex_info, rel_path };
    assert(m.vertex_info.iri@ == spec.iri@);
    assert(m.vertex_info.projections@.len() == 1);
    assert(m.vertex_info.projections@[0]@.0 == Seq::<char>::empty());
    assert(m.vertex_info.projections@[0]@.5 == vertex_columns(spec.property_columns@));
    assert(m.vertex_info.vertex_type@ == spec.name@);
    m
}

fn endpoint_column(name: &str) -> (c: Property)
    ensures
        c@ == (name@, "uint32"@, false, Some(false), Some(Cardinality::Single)),
{
    Property {
        name: String::from_str(name),
        data_type: String::from_str("uint32"),
        is_primary: false,
        is_nullable: Some(false),
        cardinality: Some(Cardinality::Single),
    }
}

fn endpoint_columns_exec() -> (r: Vec<Property>)
    ensures
        props_view(r@) == endpoint_columns(),
{
    let mut r: Vec<Property> = Vec::new();
    r.push(endpoint_column("src_dense"));
    r.push(endpoint_column("dst_dense"));
    assert(props_view(r@) =~= endpoint_columns());
    r
}

/// One edge type's manifest.
pub fn build_edge_manifest(spec: &EdgeSpec, options: &WriteOptions) -> (m: ManifestForEdge)
    ensures
        edge_manifest_is(m, *spec, *options),
{
    let mut dir = spec.source_type.clone();
    dir.append("_");
    dir.append(spec.label.as_str());
    dir.append("_");
    dir.append(spec.target_type.as_str());
    let mut prefix = options.edge_prefix.clone();
    prefix.append(dir.as_str());
    prefix.append("/");
    let mut rel_path = prefix.clone();
    rel_path.append(dir.as_str());
    rel_path.append(".edge.yml");
    let csr = Projection::payload("by_source/", endpoint_columns_exec()).aligned_by("src", true);
    let csc = Projection::payload("by_target/", endpoint_columns_exec()).aligned_by("dst", true);
    let mut projections: Vec<Projection> = Vec::new();
    projections.push(csr);
    projections.push(csc);
    let edge_info = EdgeInfo {
        src_type: spec.source_type.clone(),
        edge_type: spec.label.clone(),
        iri: spec.iri.clone(),
        dst_type: spec.target_type.clone(),
        cardinality: None,
        edge_count: 0,
        chunk_size: options.row_group_size,
        src_chunk_size: options.row_group_size,
        dst_chunk_size: options.row_group_size,
        directed: true,
        prefix,
        projections,
        version: String::from_str(GRAPHAR_VERSION),
    };
    let m = ManifestForEdge { edge_info, rel_path };
    assert(dir@ =~= edge_dir(*spec));
    assert(m.rel_path@ =~= options.edge_prefix@ + edge_dir(*spec) + "/"@ + edge_dir(*spec) + ".edge.yml"@);
    m
}

/// The graph manifest indexing the given vertex and edge manifests.
pub fn build_graph_manifest(
    vertices: &[ManifestForVertex],
    edges: &[ManifestForEdge],
) -> (g: ManifestForGraph)
    ensures
        graph_manifest_is(g, vertices@, edges@),
{
    let mut vs: Vec<String> = Vec::new();
    let mut i: usize = 0;
    while i < vertices.len()
        invariant
            i <= vertices@.len(),
            vs@.len() == i,
            forall|k: int| 0 <= k < i ==> #[trigger] vs@[k]@ == vertices@[k].rel_path@,
        decreases vertices@.len() - i,
    {
        vs.push(vertices[i].rel_path.clone());
        i = i + 1;
    }
    let mut es: Vec<String> = Vec::new();
    let mut j: usize = 0;
    while j < edges.len()
        invariant
            j <= edges@.len(),
            es@.len() == j,
            forall|k: int| 0 <= k < j ==> #[trigger] es@[k]@ == edges@[k].rel_path@,
        decreases edges@.len() - j,
    {
        es.push(edges[j].rel_path.clone());
        j = j + 1;
    }
    let graph_info = GraphInfo::new("graph", "", Container::Files, vs, es);
    proof {
        reveal_strlit("");
    }
    let g = ManifestForGraph { graph_info, rel_path: String::from_str("graph.graph.yml") };
    assert(g.graph_info.prefix@ == Seq::<char>::empty());
    assert(g.graph_info.vertices@.len() == vertices@.len());
    assert(g.graph_info.edges@.len() == edges@.len());
    g
}

/// The manifests of a write batch, under the same validation as
/// [`plan_writes`]: a reserved column or an edge naming a missing vertex type
/// is refused the same way.
pub fn plan_manifests(vertices: &[VertexSpec], edges: &[EdgeSpec], options: &WriteOptions) -> (r:
    Result<ManifestSet, WriteError>)
    ensures
        planned_manifests(vertices@, edges@, *options, r),
{
    match validate_inputs(vertices, edges) {
        Err(e) => {
            return Err(e);
        },
        Ok(()) => {},
    }
    let mut vms: Vec<ManifestForVertex> = Vec::new();
    let mut i: usize = 0;
    while i < vertices.len()
        invariant
            i <= vertices@.len(),
            vms@.len() == i,
            forall|k: int|
                0 <= k < i ==> vertex_manifest_is(#[trigger] vms@[k], vertices@[k], *options),
        decreases vertices@.len() - i,
    {
        vms.push(build_vertex_manifest(&vertices[i], options));
        i = i + 1;
    }
    let mut ems: Vec<ManifestForEdge> = Vec::new();
    let mut j: usize = 0;
    while j < edges.len()
        invariant
            j <= edges@.len(),
            ems@.len() == j,
            forall|k: int| 0 <= k < j ==> edge_manifest_is(#[trigger] ems@[k], edges@[k], *options),
        decreases edges@.len() - j,
    {
        ems.push(build_edge_manifest(&edges[j], options));
        j = j + 1;
    }
    let graph = build_graph_manifest(vms.as_slice(), ems.as_slice());
    Ok(ManifestSet { graph, vertices: vms, edges: ems })
}

// ───────────────────────────── emitters ─────────────────────────────

fn vertex_rel_path_exec(options: &WriteOptions, name: &str) -> (p: String)
    ensures
        p@ == vertex_rel_path(*options, name@),
{
    let mut p = options.vertex_prefix.clone();
    p.append(name);
    p.append(".parquet");
    p
}

/// The COPY statement for one vertex type.
pub fn emit_vertex_statement(spec: &VertexSpec, dest_url: &str, options: &WriteOptions) -> (s:
    VertexStatement)
    ensures
        vertex_statement_is(s, *spec, dest_url@, *options),
{
    let mut select_cols = String::from_str("row_number() OVER () - 1 AS dense_id, subject");
    let mut i: usize = 0;
    while i < spec.property_columns.len()
        invariant
            i <= spec.property_columns@.len(),
            select_cols@ == "row_number() OVER () - 1 AS dense_id, subject"@ + quoted_columns(
                spec.property_columns@.take(i as int),
            ),
        decreases spec.property_columns@.len() - i,
    {
        proof {
            assert(spec.property_columns@.take(i + 1).drop_last() =~= spec.property_columns@.take(
                i as int,
            ));
        }
        select_cols.append(", ");
        select_cols.append("\"");
        select_cols.append(spec.property_columns[i].as_str());
        select_cols.append("\"");
        i = i + 1;
    }
    proof {
        assert(spec.property_columns@.take(i as int) =~= spec.property_columns@);
    }
    select_cols.append(", 0::REAL AS x, 0::REAL AS y, 0::UINTEGER AS cluster_id");
    let source = if spec.dedup_subjects {
        let mut s = String::from_str("SELECT DISTINCT ON (subject) * FROM (");
        s.append(spec.source_relation.as_str());
        s.append(")");
        s
    } else {
        spec.source_relation.clone()
    };
    let rel_path = vertex_rel_path_exec(options, spec.name.as_str());
    let mut copy_sql = String::from_str("COPY (SELECT ");
    copy_sql.append(select_cols.as_str());
    copy_sql.append(" FROM (");
    copy_sql.append(source.as_str());
    copy_sql.append(")) TO '");
    copy_sql.append(trim_end_slashes(dest_url));
    copy_sql.append("/");
    copy_sql.append(rel_path.as_str());
    copy_sql.append("' (FORMAT PARQUET, ROW_GROUP_SIZE ");
    push_decimal(&mut copy_sql, options.row_group_size);
    copy_sql.append(")");
    let s = VertexStatement { type_label: spec.name.clone(), rel_path, copy_sql };
    assert(s.copy_sql@ =~= vertex_copy_sql(*spec, dest_url@, *options));
    s
}

fn edge_copy_sql_exec(
    inner: &str,
    order_by: &str,
    dest: &str,
    rel: &str,
    options: &WriteOptions,
) -> (s: String)
    ensures
        s@ == "COPY ("@ + inner@ + order_by@ + ") TO '"@ + dest@ + "/"@ + rel@
            + "' (FORMAT PARQUET, ROW_GROUP_SIZE "@ + decimal(options.row_group_size as nat) + ")"@,
{
    let mut s = String::from_str("COPY (");
    s.append(inner);
    s.append(order_by);
    s.append(") TO '");
    s.append(dest);
    s.append("/");
    s.append(rel);
    s.append("' (FORMAT PARQUET, ROW_GROUP_SIZE ");
    push_decimal(&mut s, options.row_group_size);
    s.append(")");
    s
}

/// The CSR and CSC COPY statements for one edge type, each resolving the
/// edge's IRIs to dense ids by joining the Parquets that `vertex_paths`
/// gives for its source and target types (the first entry of each name).
/// Both types must have an entry.
pub fn emit_edge_statement(
    spec: &EdgeSpec,
    vertex_paths: &[(String, String)],
    dest_url: &str,
    options: &WriteOptions,
) -> (s: EdgeStatement)
    requires
        path_for(vertex_paths@, spec.source_type@) is Some,
        path_for(vertex_paths@, spec.target_type@) is Some,
    ensures
        edge_statement_with(
            s,
            *spec,
            dest_url@,
            *options,
            path_for(vertex_paths@, spec.source_type@)->0,
            path_for(vertex_paths@, spec.target_type@)->0,
        ),
{
    let dest = trim_end_slashes(dest_url);
    let src_at = find_path(vertex_paths, spec.source_type.as_str());
    let dst_at = find_path(vertex_paths, spec.target_type.as_str());
    let (si, di) = match (src_at, dst_at) {
        (Some(si), Some(di)) => (si, di),
        _ => {
            proof {
                assert(false);
            }
            (0, 0)
        },
    };
    let src_vertex_rel = vertex_paths[si].1.as_str();
    let dst_vertex_rel = vertex_paths[di].1.as_str();
    let mut edge_dir_name = spec.source_type.clone();
    edge_dir_name.append("_");
    edge_dir_name.append(spec.label.as_str());
    edge_dir_name.append("_");
    edge_dir_name.append(spec.target_type.as_str());
    let mut csr_rel_path = options.edge_prefix.clone();
    csr_rel_path.append(edge_dir_name.as_str());
    csr_rel_path.append("/by_source.parquet");
    let mut csc_rel_path = options.edge_prefix.clone();
    csc_rel_path.append(edge_dir_name.as_str());
    csc_rel_path.append("/by_target.parquet");
    let mut inner = String::from_str("SELECT s.dense_id AS src_dense, t.dense_id AS dst_dense FROM (");
    inner.append(spec.source_relation.as_str());
    inner.append(") e JOIN read_parquet('");
    inner.append(dest);
    inner.append("/");
    inner.append(src_vertex_rel);
    inner.append("') s ON e.src_iri = s.subject JOIN read_parquet('");
    inner.append(dest);
    inner.append("/");
    inner.append(dst_vertex_rel);
    inner.append("') t ON e.dst_iri = t.subject");
    let copy_csr_sql = edge_copy_sql_exec(
        inner.as_str(),
        " ORDER BY src_dense, dst_dense",
        dest,
        csr_rel_path.as_str(),
        options,
    );
    let copy_csc_sql = edge_copy_sql_exec(
        inner.as_str(),
        " ORDER BY dst_dense, src_dense",
        dest,
        csc_rel_path.as_str(),
        options,
    );
    let s = EdgeStatement { edge_dir_name, csr_rel_path, csc_rel_path, copy_csr_sql, copy_csc_sql };
    assert(s.edge_dir_name@ =~= edge_dir(*spec));
    assert(inner@ =~= edge_inner(*spec, dest_url@, src_vertex_rel@, dst_vertex_rel@));
    assert(s.copy_csr_sql@ =~= edge_copy_sql(
        inner@,
        " ORDER BY src_dense, dst_dense"@,
        dest_url@,
        s.csr_rel_path@,
        *options,
    ));
    assert(s.copy_csc_sql@ =~= edge_copy_sql(
        inner@,
        " ORDER BY dst_dense, src_dense"@,
        dest_url@,
        s.csc_rel_path@,
        *options,
    ));
    s
}

/// Build the SQL plan for a vertex + edge batch under `dest_url`: an empty
/// destination and an inconsistent batch are refused; otherwise one
/// statement per vertex spec and one per edge spec, in input order.
pub fn plan_writes(
    vertices: &[VertexSpec],
    edges: &[EdgeSpec],
    dest_url: &str,
    options: &WriteOptions,
) -> (r: Result<WriteSqlPlan, WriteError>)
    ensures
        r matches Err(WriteError::EmptyDestUrl) <==> dest_url@.len() == 0,
        r is Ok <==> dest_url@.len() > 0 && batch_ok(vertices@, edges@),
        dest_url@.len() > 0 ==> (r matches Err(e) ==> validation_error(vertices@, edges@, e)),
        r matches Ok(plan) ==> {
            &&& plan.vertex_statements@.len() == vertices@.len()
            &&& forall|i: int|
                0 <= i < vertices@.len() ==> vertex_statement_is(
                    #[trigger] plan.vertex_statements@[i],
                    vertices@[i],
                    dest_url@,
                    *options,
                )
            &&& plan.edge_statements@.len() == edges@.len()
            &&& forall|j: int|
                0 <= j < edges@.len() ==> edge_statement_is(
                    #[trigger] plan.edge_statements@[j],
                    edges@[j],
                    dest_url@,
                    *options,
                )
        },
{
    if dest_url.is_empty() {
        return Err(WriteError::EmptyDestUrl);
    }
    match validate_inputs(vertices, edges) {
        Err(e) => {
            return Err(e);
        },
        Ok(()) => {},
    }
    let mut vertex_statements: Vec<VertexStatement> = Vec::new();
    let mut vertex_paths: Vec<(String, String)> = Vec::new();
    let mut i: usize = 0;
    while i < vertices.len()
        invariant
            i <= vertices@.len(),
            vertex_statements@.len() == i,
            vertex_paths@.len() == i,
            forall|k: int|
                0 <= k < i ==> vertex_statement_is(
                    #[trigger] vertex_statements@[k],
                    vertices@[k],
                    dest_url@,
                    *options,
                ),
            forall|k: int|
                0 <= k < i ==> (#[trigger] vertex_paths@[k]).0@ == vertices@[k].name@
                    && vertex_paths@[k].1@ == vertex_rel_path(*options, vertices@[k].name@),
        decreases vertices@.len() - i,
    {
        let st = emit_vertex_statement(&vertices[i], dest_url, options);
        vertex_paths.push((st.type_label.clone(), st.rel_path.clone()));
        vertex_statements.push(st);
        i = i + 1;
    }
    proof {
        assert forall|k: int| 0 <= k < vertex_paths@.len() implies (#[trigger] vertex_paths@[k]).1@
            == vertex_rel_path(*options, vertex_paths@[k].0@) by {}
    }
    let mut edge_statements: Vec<EdgeStatement> = Vec::new();
    let mut j: usize = 0;
    while j < edges.len()
        invariant
            j <= edges@.len(),
            edge_statements@.len() == j,
            batch_ok(vertices@, edges@),
            vertex_paths@.len() == vertices@.len(),
            forall|k: int|
                0 <= k < vertex_paths@.len() ==> (#[trigger] vertex_paths@[k]).0@ == vertices@[k].name@
                    && vertex_paths@[k].1@ == vertex_rel_path(*options, vertices@[k].name@),
            forall|k: int|
                0 <= k < j ==> edge_statement_is(
                    #[trigger] edge_statements@[k],
                    edges@[k],
                    dest_url@,
                    *options,
                ),
        decreases edges@.len() - j,
    {
        proof {
            let e = edges@[j as int];
            assert(!edge_is_dangling(vertices@, e));
            let a = choose|k: int| 0 <= k < vertices@.len() && #[trigger] vertices@[k].name@ == e.source_type@;
            let b = choose|k: int| 0 <= k < vertices@.len() && #[trigger] vertices@[k].name@ == e.target_type@;
            assert(vertex_paths@[a].0@ == e.source_type@);
            assert(vertex_paths@[b].0@ == e.target_type@);
            assert forall|k: int| 0 <= k < vertex_paths@.len() implies (#[trigger] vertex_paths@[k]).1@
                == vertex_rel_path(*options, vertex_paths@[k].0@) by {}
            lemma_path_for(vertex_paths@, *options, e.source_type@);
            lemma_path_for(vertex_paths@, *options, e.target_type@);
        }
        edge_statements.push(emit_edge_statement(&edges[j], vertex_paths.as_slice(), dest_url, options));
        j = j + 1;
    }
    Ok(WriteSqlPlan { vertex_statements, edge_statements })
}

// ───────────────────────────── the sink-plan bridge ─────────────────────────────

/// `iri AS subject, "p0", "p1", ...` for a vertex table's properties.
pub open spec fn subject_projection(props: Seq<crate::decomp::VertexProperty>) -> Seq<char>
    decreases props.len(),
{
    if props.len() == 0 {
        "iri AS subject"@
    } else {
        subject_projection(props.drop_last()) + ", \""@ + props.last().name@ + "\""@
    }
}

/// Some property of the table is single-valued.
pub open spec fn any_single(props: Seq<crate::decomp::VertexProperty>) -> bool {
    exists|k: int| 0 <= k < props.len() && #[trigger] props[k].single_valued
}

/// The vertex spec a vertex table becomes: its source wrapped to expose
/// `subject`, its properties listed by name, and subjects deduplicated when a
/// property is single-valued or there are none.
pub open spec fn vertex_spec_is(s: VertexSpec, vt: VertexTable) -> bool {
    &&& s.name@ == vt.type_label@
    &&& s.iri@ == Seq::<char>::empty()
    &&& s.source_relation@ == "SELECT "@ + subject_projection(vt.properties@) + " FROM "@
        + vt.source_relation@
    &&& s.property_columns@.len() == vt.properties@.len()
    &&& forall|k: int|
        0 <= k < vt.properties@.len() ==> #[trigger] s.property_columns@[k]@
            == vt.properties@[k].name@
    &&& s.dedup_subjects == (any_single(vt.properties@) || vt.properties@.len() == 0)
    &&& s.column_iris@ == Map::<String, String>::empty()
}

/// The edge spec an edge table becomes: its source wrapped to expose
/// `src_iri` and `dst_iri`.
pub open spec fn edge_spec_is(s: EdgeSpec, et: EdgeTable) -> bool {
    &&& s.label@ == et.predicate@
    &&& s.iri@ == Seq::<char>::empty()
    &&& s.source_type@ == et.src_type@
    &&& s.target_type@ == et.dst_type@
    &&& s.source_relation@ == "SELECT "@ + et.src_id_expr@ + " AS src_iri, "@ + et.dst_id_expr@
        + " AS dst_iri FROM "@ + et.source_relation@
}

/// Lift a vertex table into a vertex spec.
pub fn vertex_table_to_spec(vt: &VertexTable) -> (s: VertexSpec)
    ensures
        vertex_spec_is(s, *vt),
{
    let mut projection = String::from_str("iri AS subject");
    let mut columns: Vec<String> = Vec::new();
    let mut dedup = false;
    let mut i: usize = 0;
    while i < vt.properties.len()
        invariant
            i <= vt.properties@.len(),
            projection@ == subject_projection(vt.properties@.take(i as int)),
            columns@.len() == i,
            forall|k: int| 0 <= k < i ==> #[trigger] columns@[k]@ == vt.properties@[k].name@,
            dedup == exists|k: int| 0 <= k < i && #[trigger] vt.properties@[k].single_valued,
        decreases vt.properties@.len() - i,
    {
        let p = &vt.properties[i];
        proof {
            assert(vt.properties@.take(i + 1).drop_last() =~= vt.properties@.take(i as int));
        }
        projection.append(", \"");
        projection.append(p.name.as_str());
        projection.append("\"");
        columns.push(p.name.clone());
        dedup = dedup || p.single_valued;
        i = i + 1;
    }
    proof {
        assert(vt.properties@.take(i as int) =~= vt.properties@);
    }
    let mut source_relation = String::from_str("SELECT ");
    source_relation.append(projection.as_str());
    source_relation.append(" FROM ");
    source_relation.append(vt.source_relation.as_str());
    let dedup_subjects = dedup || vt.properties.len() == 0;
    VertexSpec {
        name: vt.type_label.clone(),
        iri: String::new(),
        source_relation,
        property_columns: columns,
        dedup_subjects,
        column_iris: BTreeMap::new(),
    }
}

/// Lift an edge table into an edge spec.
pub fn edge_table_to_spec(et: &EdgeTable) -> (s: EdgeSpec)
    ensures
        edge_spec_is(s, *et),
{
    let mut source_relation = String::from_str("SELECT ");
    source_relation.append(et.src_id_expr.as_str());
    source_relation.append(" AS src_iri, ");
    source_relation.append(et.dst_id_expr.as_str());
    source_relation.append(" AS dst_iri FROM ");
    source_relation.append(et.source_relation.as_str());
    EdgeSpec {
        label: et.predicate.clone(),
        iri: String::new(),
        source_type: et.src_type.clone(),
        target_type: et.dst_type.clone(),
        source_relation,
    }
}

/// Lift a sink plan into the vertex / edge spec pair, table for table.
pub fn sink_plan_to_specs(sink_plan: &SinkPlan) -> (r: (Vec<VertexSpec>, Vec<EdgeSpec>))
    ensures
        r.0@.len() == sink_plan.vertices@.len(),
        forall|i: int|
            0 <= i < r.0@.len() ==> vertex_spec_is(#[trigger] r.0@[i], sink_plan.vertices@[i]),
        r.1@.len() == sink_plan.edges@.len(),
        forall|j: int|
            0 <= j < r.1@.len() ==> edge_spec_is(#[trigger] r.1@[j], sink_plan.edges@[j]),
{
    let mut vertices: Vec<VertexSpec> = Vec::new();
    let mut i: usize = 0;
    while i < sink_plan.vertices.len()
        invariant
            i <= sink_plan.vertices@.len(),
            vertices@.len() == i,
            forall|k: int|
                0 <= k < i ==> vertex_spec_is(#[trigger] vertices@[k], sink_plan.vertices@[k]),
        decreases sink_plan.vertices@.len() - i,
    {
        vertices.push(vertex_table_to_spec(&sink_plan.vertices[i]));
        i = i + 1;
    }
    let mut edges: Vec<EdgeSpec> = Vec::new();
    let mut j: usize = 0;
    while j < sink_plan.edges.len()
        invariant
            j <= sink_plan.edges@.len(),
            edges@.len() == j,
            forall|k: int| 0 <= k < j ==> edge_spec_is(#[trigger] edges@[k], sink_plan.edges@[k]),
        decreases sink_plan.edges@.len() - j,
    {
        edges.push(edge_table_to_spec(&sink_plan.edges[j]));
        j = j + 1;
    }
    (vertices, edges)
}

/// `vs` and `es` are a sink plan's tables lifted, table for table.
pub open spec fn lifted(sink_plan: SinkPlan, vs: Seq<VertexSpec>, es: Seq<EdgeSpec>) -> bool {
    &&& vs.len() == sink_plan.vertices@.len()
    &&& forall|i: int| 0 <= i < vs.len() ==> vertex_spec_is(#[trigger] vs[i], sink_plan.vertices@[i])
    &&& es.len() == sink_plan.edges@.len()
    &&& forall|j: int| 0 <= j < es.len() ==> edge_spec_is(#[trigger] es[j], sink_plan.edges@[j])
}

/// What [`plan_writes`] answers for a batch.
pub open spec fn planned_writes(
    vs: Seq<VertexSpec>,
    es: Seq<EdgeSpec>,
    dest_url: Seq<char>,
    options: WriteOptions,
    r: Result<WriteSqlPlan, WriteError>,
) -> bool {
    &&& (r matches Err(WriteError::EmptyDestUrl) <==> dest_url.len() == 0)
    &&& (r is Ok <==> dest_url.len() > 0 && batch_ok(vs, es))
    &&& (dest_url.len() > 0 ==> (r matches Err(e) ==> validation_error(vs, es, e)))
    &&& (r matches Ok(plan) ==> {
        &&& plan.vertex_statements@.len() == vs.len()
        &&& forall|i: int|
            0 <= i < vs.len() ==> vertex_statement_is(
                #[trigger] plan.vertex_statements@[i],
                vs[i],
                dest_url,
                options,
            )
        &&& plan.edge_statements@.len() == es.len()
        &&& forall|j: int|
            0 <= j < es.len() ==> edge_statement_is(
                #[trigger] plan.edge_statements@[j],
                es[j],
                dest_url,
                options,
            )
    })
}

/// A trailing `/` on a non-empty destination changes no plan: what is
/// planned for `dest/` is what is planned for `dest`.
pub proof fn lemma_trailing_slash_changes_nothing(
    vs: Seq<VertexSpec>,
    es: Seq<EdgeSpec>,
    d: Seq<char>,
    o: WriteOptions,
    r: Result<WriteSqlPlan, WriteError>,
)
    requires
        d.len() > 0,
    ensures
        planned_writes(vs, es, d.push('/'), o, r) == planned_writes(vs, es, d, o, r),
{
    assert(d.push('/').drop_last() =~= d);
    assert(dest_of(d.push('/')) == dest_of(d));
    assert forall|s: VertexStatement, v: VertexSpec|
        #![trigger vertex_statement_is(s, v, d, o)]
        vertex_statement_is(s, v, d.push('/'), o) == vertex_statement_is(s, v, d, o) by {
        assert(vertex_copy_sql(v, d.push('/'), o) == vertex_copy_sql(v, d, o));
    }
    assert forall|t: EdgeStatement, e: EdgeSpec|
        #![trigger edge_statement_is(t, e, d, o)]
        edge_statement_is(t, e, d.push('/'), o) == edge_statement_is(t, e, d, o) by {
        let sv = vertex_rel_path(o, e.source_type@);
        let dv = vertex_rel_path(o, e.target_type@);
        assert(edge_inner(e, d.push('/'), sv, dv) == edge_inner(e, d, sv, dv));
    }
    let a = planned_writes(vs, es, d.push('/'), o, r);
    let b = planned_writes(vs, es, d, o, r);
    if let Ok(plan) = r {
        assert((forall|i: int|
            0 <= i < vs.len() ==> vertex_statement_is(
                #[trigger] plan.vertex_statements@[i],
                vs[i],
                d.push('/'),
                o,
            )) == (forall|i: int|
            0 <= i < vs.len() ==> vertex_statement_is(
                #[trigger] plan.vertex_statements@[i],
                vs[i],
                d,
                o,
            )));
        assert((forall|j: int|
            0 <= j < es.len() ==> edge_statement_is(
                #[trigger] plan.edge_statements@[j],
                es[j],
                d.push('/'),
                o,
            )) == (forall|j: int|
            0 <= j < es.len() ==> edge_statement_is(
                #[trigger] plan.edge_statements@[j],
                es[j],
                d,
                o,
            )));
    }
}

/// [`plan_writes`] for the tables of a sink plan.
pub fn plan_writes_from_sink_plan(sink_plan: &SinkPlan, dest_url: &str, options: &WriteOptions) -> (r:
    Result<WriteSqlPlan, WriteError>)
    ensures
        exists|vs: Seq<VertexSpec>, es: Seq<EdgeSpec>|
            #![trigger lifted(*sink_plan, vs, es)]
            lifted(*sink_plan, vs, es) && planned_writes(vs, es, dest_url@, *options, r),
{
    let (vertices, edges) = sink_plan_to_specs(sink_plan);
    let r = plan_writes(vertices.as_slice(), edges.as_slice(), dest_url, options);
    assert(lifted(*sink_plan, vertices@, edges@));
    assert(planned_writes(vertices@, edges@, dest_url@, *options, r));
    r
}

/// The manifests of a sink plan: [`plan_manifests`] over the specs it lifts to.
pub fn plan_manifests_from_sink_plan(sink_plan: &SinkPlan, options: &WriteOptions) -> (r: Result<
    ManifestSet,
    WriteError,
>)
    ensures
        exists|vs: Seq<VertexSpec>, es: Seq<EdgeSpec>|
            #![trigger lifted(*sink_plan, vs, es)]
            lifted(*sink_plan, vs, es) && planned_manifests(vs, es, *options, r),
{
    let (vertices, edges) = sink_plan_to_specs(sink_plan);
    let r = plan_manifests(vertices.as_slice(), edges.as_slice(), options);
    assert(lifted(*sink_plan, vertices@, edges@));
    r
}


/// What a vertex statement says, as text.
pub open spec fn vertex_statement_view(s: VertexStatement) -> (Seq<char>, Seq<char>, Seq<char>) {
    (s.type_label@, s.rel_path@, s.copy_sql@)
}

/// What an edge statement says, as text.
pub open spec fn edge_statement_view(s: EdgeStatement) -> (
    Seq<char>,
    Seq<char>,
    Seq<char>,
    Seq<char>,
    Seq<char>,
) {
    (s.edge_dir_name@, s.csr_rel_path@, s.csc_rel_path@, s.copy_csr_sql@, s.copy_csc_sql@)
}

/// What a plan says, as text: its vertex statements, then its edge
/// statements, in order.
pub open spec fn plan_view(p: WriteSqlPlan) -> (
    Seq<(Seq<char>, Seq<char>, Seq<char>)>,
    Seq<(Seq<char>, Seq<char>, Seq<char>, Seq<char>, Seq<char>)>,
) {
    (
        p.vertex_statements@.map_values(|s: VertexStatement| vertex_statement_view(s)),
        p.edge_statements@.map_values(|s: EdgeStatement| edge_statement_view(s)),
    )
}

/// Two errors fail a plan the same way.
pub open spec fn same_failure(a: WriteError, b: WriteError) -> bool {
    ||| a is ReservedColumnName && b is ReservedColumnName
    ||| a is EdgeRefersMissingVertex && b is EdgeRefersMissingVertex
    ||| a is EmptyDestUrl && b is EmptyDestUrl
}

proof fn lemma_quoted_same(a: Seq<String>, b: Seq<String>)
    requires
        a.len() == b.len(),
        forall|k: int| 0 <= k < a.len() ==> #[trigger] a[k]@ == b[k]@,
    ensures
        quoted_columns(a) == quoted_columns(b),
    decreases a.len(),
{
    if a.len() > 0 {
        assert forall|k: int| 0 <= k < a.drop_last().len() implies #[trigger] a.drop_last()[k]@
            == b.drop_last()[k]@ by {
            assert(a.drop_last()[k] == a[k] && b.drop_last()[k] == b[k]);
        }
        lemma_quoted_same(a.drop_last(), b.drop_last());
        assert(a.last()@ == b[b.len() - 1]@);
    }
}

/// The two ways into the writer agree: planning from a sink plan, and
/// planning the vertex and edge specs that sink plan lifts to, both succeed
/// or both fail; where they succeed their plans say the same text, and where
/// they fail they fail the same way.
pub proof fn lemma_sink_paths_agree(
    sink_plan: SinkPlan,
    vs1: Seq<VertexSpec>,
    es1: Seq<EdgeSpec>,
    vs2: Seq<VertexSpec>,
    es2: Seq<EdgeSpec>,
    dest_url: Seq<char>,
    options: WriteOptions,
    r1: Result<WriteSqlPlan, WriteError>,
    r2: Result<WriteSqlPlan, WriteError>,
)
    requires
        lifted(sink_plan, vs1, es1),
        lifted(sink_plan, vs2, es2),
        planned_writes(vs1, es1, dest_url, options, r1),
        planned_writes(vs2, es2, dest_url, options, r2),
    ensures
        r1 is Ok <==> r2 is Ok,
        r1 matches Ok(p1) ==> (r2 matches Ok(p2) && plan_view(p1) == plan_view(p2)),
        r1 matches Err(e1) ==> (r2 matches Err(e2) && same_failure(e1, e2)),
{
    assert forall|i: int| 0 <= i < vs1.len() implies #[trigger] has_reserved(vs1[i]) == has_reserved(
        vs2[i],
    ) && vs1[i].name@ == vs2[i].name@ && vertex_copy_sql(vs1[i], dest_url, options)
        == vertex_copy_sql(vs2[i], dest_url, options) by {
        let vt = sink_plan.vertices@[i];
        assert(vertex_spec_is(vs1[i], vt) && vertex_spec_is(vs2[i], vt));
        let c1 = vs1[i].property_columns@;
        let c2 = vs2[i].property_columns@;
        assert forall|k: int| 0 <= k < c1.len() implies #[trigger] c1[k]@ == c2[k]@ by {
            assert(c1[k]@ == vt.properties@[k].name@);
            assert(c2[k]@ == vt.properties@[k].name@);
        }
        if has_reserved(vs1[i]) {
            let c = choose|c: int| 0 <= c < c1.len() && is_reserved(#[trigger] c1[c]@);
            assert(is_reserved(c2[c]@));
        }
        if has_reserved(vs2[i]) {
            let c = choose|c: int| 0 <= c < c2.len() && is_reserved(#[trigger] c2[c]@);
            assert(is_reserved(c1[c]@));
        }
        lemma_quoted_same(c1, c2);
    }
    assert forall|n: Seq<char>| #[trigger] names_vertex(vs1, n) == names_vertex(vs2, n) by {
        if names_vertex(vs1, n) {
            let i = choose|i: int| 0 <= i < vs1.len() && #[trigger] vs1[i].name@ == n;
            assert(has_reserved(vs1[i]) == has_reserved(vs2[i]));
        }
        if names_vertex(vs2, n) {
            let i = choose|i: int| 0 <= i < vs2.len() && #[trigger] vs2[i].name@ == n;
            assert(has_reserved(vs1[i]) == has_reserved(vs2[i]));
        }
    }
    assert forall|j: int| 0 <= j < es1.len() implies #[trigger] edge_is_dangling(vs1, es1[j])
        == edge_is_dangling(vs2, es2[j]) && edge_dir(es1[j]) == edge_dir(es2[j])
        && es1[j].source_type@ == es2[j].source_type@ && es1[j].target_type@ == es2[j].target_type@
        && es1[j].source_relation@ == es2[j].source_relation@ by {
        let et = sink_plan.edges@[j];
        assert(edge_spec_is(es1[j], et) && edge_spec_is(es2[j], et));
        assert(names_vertex(vs1, es1[j].source_type@) == names_vertex(vs2, es1[j].source_type@));
        assert(names_vertex(vs1, es1[j].target_type@) == names_vertex(vs2, es1[j].target_type@));
    }
    assert(batch_ok(vs1, es1) == batch_ok(vs2, es2)) by {
        if batch_ok(vs1, es1) {
            assert forall|i: int| 0 <= i < vs2.len() implies !has_reserved(#[trigger] vs2[i]) by {
                assert(has_reserved(vs1[i]) == has_reserved(vs2[i]));
            }
            assert forall|j: int| 0 <= j < es2.len() implies !edge_is_dangling(vs2, #[trigger] es2[j]) by {
                assert(edge_is_dangling(vs1, es1[j]) == edge_is_dangling(vs2, es2[j]));
            }
        }
        if batch_ok(vs2, es2) {
            assert forall|i: int| 0 <= i < vs1.len() implies !has_reserved(#[trigger] vs1[i]) by {
                assert(has_reserved(vs1[i]) == has_reserved(vs2[i]));
            }
            assert forall|j: int| 0 <= j < es1.len() implies !edge_is_dangling(vs1, #[trigger] es1[j]) by {
                assert(edge_is_dangling(vs1, es1[j]) == edge_is_dangling(vs2, es2[j]));
            }
        }
    }
    if let Ok(p1) = r1 {
        if let Ok(p2) = r2 {
            let a = plan_view(p1);
            let b = plan_view(p2);
            assert forall|i: int| 0 <= i < a.0.len() implies a.0[i] == b.0[i] by {
                assert(has_reserved(vs1[i]) == has_reserved(vs2[i]));
                assert(vertex_statement_is(p1.vertex_statements@[i], vs1[i], dest_url, options));
                assert(vertex_statement_is(p2.vertex_statements@[i], vs2[i], dest_url, options));
            }
            assert forall|j: int| 0 <= j < a.1.len() implies a.1[j] == b.1[j] by {
                assert(edge_is_dangling(vs1, es1[j]) == edge_is_dangling(vs2, es2[j]));
                assert(edge_statement_is(p1.edge_statements@[j], es1[j], dest_url, options));
                assert(edge_statement_is(p2.edge_statements@[j], es2[j], dest_url, options));
            }
            assert(a.0 =~= b.0);
            assert(a.1 =~= b.1);
        }
    }
    if let Err(e1) = r1 {
        if let Err(e2) = r2 {
            if dest_url.len() > 0 {
                if e1 is ReservedColumnName {
                    let (i, c) = choose|i: int, c: int| #![trigger first_reserved_at(vs1[i], c)]
                        0 <= i < vs1.len() && first_reserved_at(vs1[i], c);
                    assert(has_reserved(vs1[i]));
                    assert(has_reserved(vs1[i]) == has_reserved(vs2[i]));
                }
                if e2 is ReservedColumnName {
                    let (i, c) = choose|i: int, c: int| #![trigger first_reserved_at(vs2[i], c)]
                        0 <= i < vs2.len() && first_reserved_at(vs2[i], c);
                    assert(has_reserved(vs2[i]));
                    assert(has_reserved(vs1[i]) == has_reserved(vs2[i]));
                }
            }
        }
    }
}

/// What `plan_writes_from_sink_plan` answers for a sink plan agrees with what
/// `plan_writes` answers for the specs `sink_plan_to_specs` lifts it to: the
/// premises are those functions' own guarantees, and the two answers both
/// succeed or both fail, with plans that say the same text or the same
/// failure.
pub proof fn lemma_sink_plan_entry_agrees(
    sink_plan: SinkPlan,
    vs: Seq<VertexSpec>,
    es: Seq<EdgeSpec>,
    dest_url: Seq<char>,
    options: WriteOptions,
    from_sink: Result<WriteSqlPlan, WriteError>,
    from_specs: Result<WriteSqlPlan, WriteError>,
)
    requires
        vs.len() == sink_plan.vertices@.len(),
        forall|i: int| 0 <= i < vs.len() ==> vertex_spec_is(#[trigger] vs[i], sink_plan.vertices@[i]),
        es.len() == sink_plan.edges@.len(),
        forall|j: int| 0 <= j < es.len() ==> edge_spec_is(#[trigger] es[j], sink_plan.edges@[j]),
        planned_writes(vs, es, dest_url, options, from_specs),
        exists|vs1: Seq<VertexSpec>, es1: Seq<EdgeSpec>|
            #![trigger lifted(sink_plan, vs1, es1)]
            lifted(sink_plan, vs1, es1) && planned_writes(vs1, es1, dest_url, options, from_sink),
    ensures
        from_sink is Ok <==> from_specs is Ok,
        from_sink matches Ok(p1) ==> (from_specs matches Ok(p2) && plan_view(p1) == plan_view(p2)),
        from_sink matches Err(e1) ==> (from_specs matches Err(e2) && same_failure(e1, e2)),
{
    let (vs1, es1) = choose|vs1: Seq<VertexSpec>, es1: Seq<EdgeSpec>|
        #![trigger lifted(sink_plan, vs1, es1)]
        lifted(sink_plan, vs1, es1) && planned_writes(vs1, es1, dest_url, options, from_sink);
    assert(lifted(sink_plan, vs, es));
    lemma_sink_paths_agree(sink_plan, vs1, es1, vs, es, dest_url, options, from_sink, from_specs);
}

} // verus!
