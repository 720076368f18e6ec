//! Shape-driven vertex / edge decomposition.
//!
//! A target shape table becomes a [`SinkPlan`]: one vertex table per shape,
//! whose literal-object predicates are its properties, and one edge table per
//! predicate whose object is another shape. Cardinality decides collapsing:
//! `Exact(_)`, `ZeroOrOne` and `Range { max <= 1 }` are single-valued.
//! Without a shape target (`AcceptAll`) the plan is the flat passthrough: a
//! single pseudo-vertex with no decomposition.
//!
//! Shapes are taken in the byte order of their IRIs and each shape's
//! constraints in the byte order of their predicates, so the plan does not
//! depend on the order the shapes were handed in.

use vstd::prelude::*;
use vstd::string::StringSliceAdditionalSpecFns;
use vstd::utf8::{encode_utf8, encode_utf8_decode_utf8};

use crate::manifest::{data_type_name, opt_view, spelling, DataType};
use crate::order::{
    before, bytes_lt, lemma_bytes_lt_asymmetric, lemma_order_exists, sort_order, sorted_order,
};
use crate::strings::str_eq;

verus! {

/// The column that holds the resolved subject IRI, used verbatim as
/// `vertex_id`, `src_id` and `dst_id`.
pub const IRI_COLUMN: &'static str = "iri";

/// The relation name used where the caller has wired no real relation yet.
pub const PLACEHOLDER_RELATION: &'static str = "relation";

// ───────────────────────────── the shape table ─────────────────────────────

/// How many values a shape lets a predicate carry.
#[derive(Debug, Clone, Copy, PartialEq, Eq, Structural)]
pub enum Cardinality {
    Exact(u64),
    ZeroOrOne,
    OneOrMore,
    ZeroOrMore,
    Range { min: u64, max: Option<u64> },
}

/// The kind of node a node constraint admits.
#[derive(Debug, Clone, Copy, PartialEq, Eq, Structural)]
pub enum NodeKind {
    Iri,
    BNode,
    NonLiteral,
    Literal,
}

/// A reference to a shape.
#[derive(Debug, Clone, PartialEq, Eq)]
pub enum ShapeLabel {
    /// An absolute IRI.
    Iri(String),
    /// A prefixed name `prefix:local`.
    Prefixed { prefix: String, local: String },
    /// A blank node, by its label.
    BNode(String),
    /// The schema's start shape.
    Start,
}

/// What a triple constraint says its object is.
#[derive(Debug, Clone, PartialEq, Eq)]
pub enum ValueExpr {
    /// The object conforms to another shape.
    Ref(ShapeLabel),
    /// A node constraint, with its datatype IRI and node kind where it has them.
    NodeConstraint { datatype: Option<String>, node_kind: Option<NodeKind> },
    /// Any other value expression (`and`, `or`, `not`, an inline shape, ...).
    Other,
}

/// One triple constraint of a shape, resolved.
#[derive(Debug, Clone, PartialEq, Eq)]
pub struct ResolvedConstraint {
    /// The predicate IRI.
    pub predicate: String,
    pub cardinality: Cardinality,
    /// The object's value expression; `None` for a bare `.`.
    pub value_expr: Option<ValueExpr>,
}

/// One shape of the target table.
#[derive(Debug, Clone, PartialEq, Eq)]
pub struct ShapeBinding {
    /// The shape's IRI.
    pub iri: String,
    pub constraints: Vec<ResolvedConstraint>,
}

/// The output target of a mapping.
#[derive(Debug, Clone, PartialEq, Eq)]
pub enum OutputDescriptorKind {
    /// No shape target.
    AcceptAll,
    /// A shape table.
    ShEx(Vec<ShapeBinding>),
}

// ───────────────────────────── the sink plan ─────────────────────────────

/// A decomposed sink plan: the vertex and edge tables a mapping produces.
#[derive(Debug, Clone, PartialEq, Eq)]
pub struct SinkPlan {
    /// One vertex table per shape.
    pub vertices: Vec<VertexTable>,
    /// One edge table per inter-shape predicate.
    pub edges: Vec<EdgeTable>,
    /// Rows per Parquet chunk.
    pub chunk_size: u64,
}

/// One vertex table — a shape projected to its `vertex_id` and literal
/// properties.
#[derive(Debug, Clone, PartialEq, Eq)]
pub struct VertexTable {
    /// The shape's local name, used as the vertex type.
    pub type_label: String,
    /// The type IRI the rows are instances of, where the builder knows it.
    pub rdf_type: Option<String>,
    /// The column used verbatim as the `vertex_id` — [`IRI_COLUMN`].
    pub vertex_id_col: String,
    /// Literal-object properties.
    pub properties: Vec<VertexProperty>,
    /// The relation the vertex SELECT reads `FROM`.
    pub source_relation: String,
}

/// One literal-object property column of a [`VertexTable`].
#[derive(Debug, Clone, PartialEq, Eq)]
pub struct VertexProperty {
    /// Column name — the predicate's local part.
    pub name: String,
    /// Manifest data-type spelling.
    pub data_type: String,
    /// The predicate IRI the column carries, where the builder knows it.
    pub rdf_uri: Option<String>,
    /// The XSD datatype IRI of the column's literals, where the builder knows it.
    pub xsd_datatype: Option<String>,
    /// `true` ⇒ single-valued ⇒ collapse duplicate subjects.
    pub single_valued: bool,
}

/// One edge table — an inter-shape predicate `src --predicate--> dst`.
#[derive(Debug, Clone, PartialEq, Eq)]
pub struct EdgeTable {
    pub src_type: String,
    /// Edge label — the predicate's local part.
    pub predicate: String,
    pub dst_type: String,
    /// SQL expression yielding the source `vertex_id`.
    pub src_id_expr: String,
    /// SQL expression yielding the destination `vertex_id`.
    pub dst_id_expr: String,
    /// `true` ⇒ at most one edge per subject.
    pub single_valued: bool,
    /// The relation the edge SELECT reads `FROM`.
    pub source_relation: String,
}

pub type PropView = (Seq<char>, Seq<char>, Option<Seq<char>>, Option<Seq<char>>, bool);

pub type VertexView = (Seq<char>, Option<Seq<char>>, Seq<char>, Seq<PropView>, Seq<char>);

pub type EdgeView = (Seq<char>, Seq<char>, Seq<char>, Seq<char>, Seq<char>, bool, Seq<char>);

impl View for VertexProperty {
    type V = PropView;

    open spec fn view(&self) -> PropView {
        (self.name@, self.data_type@, opt_view(self.rdf_uri), opt_view(self.xsd_datatype), self.single_valued)
    }
}

impl View for VertexTable {
    type V = VertexView;

    open spec fn view(&self) -> VertexView {
        (
            self.type_label@,
            opt_view(self.rdf_type),
            self.vertex_id_col@,
            self.properties@.map_values(|p: VertexProperty| p@),
            self.source_relation@,
        )
    }
}

impl View for EdgeTable {
    type V = EdgeView;

    open spec fn view(&self) -> EdgeView {
        (
            self.src_type@,
            self.predicate@,
            self.dst_type@,
            self.src_id_expr@,
            self.dst_id_expr@,
            self.single_valued,
            self.source_relation@,
        )
    }
}

pub open spec fn vertices_view(v: Seq<VertexTable>) -> Seq<VertexView> {
    v.map_values(|t: VertexTable| t@)
}

pub open spec fn edges_view(v: Seq<EdgeTable>) -> Seq<EdgeView> {
    v.map_values(|t: EdgeTable| t@)
}

// ───────────────────────────── names ─────────────────────────────

pub open spec fn is_name_sep(c: char) -> bool {
    c == '/' || c == '#' || c == ':'
}

fn name_sep(c: char) -> (b: bool)
    ensures
        b == is_name_sep(c),
{
    c == '/' || c == '#' || c == ':'
}

/// Where the local part of `s[..k]` starts: just past its last `/`, `#` or
/// `:`, or `0` where there is none.
pub open spec fn local_start(s: Seq<char>, k: int) -> int
    decreases k,
{
    if k <= 0 {
        0
    } else if is_name_sep(s[k - 1]) {
        k
    } else {
        local_start(s, k - 1)
    }
}

/// The local name of an IRI: the segment after the last `/`, `#` or `:`, or
/// the whole IRI where there is none.
pub open spec fn local_name_of(s: Seq<char>) -> Seq<char> {
    s.subrange(local_start(s, s.len() as int), s.len() as int)
}

proof fn lemma_local_start(s: Seq<char>, k: int)
    requires
        0 <= k <= s.len(),
    ensures
        0 <= local_start(s, k) <= k,
    decreases k,
{
    if k > 0 && !is_name_sep(s[k - 1]) {
        lemma_local_start(s, k - 1);
    }
}

/// Extract the local name from an IRI (the segment after the last `/`, `#`
/// or `:`): `"http://example.org/Person"` ⇒ `"Person"`, `"ex:knows"` ⇒
/// `"knows"`.
pub fn local_name(iri: &str) -> (r: String)
    ensures
        r@ == local_name_of(iri@),
{
    let n = iri.unicode_len();
    let mut k = n;
    while k > 0 && !name_sep(iri.get_char(k - 1))
        invariant
            n == iri@.len(),
            k <= n,
            local_start(iri@, k as int) == local_start(iri@, n as int),
        decreases k,
    {
        k = k - 1;
    }
    proof {
        lemma_local_start(iri@, n as int);
    }
    String::from_str(iri.substring_char(k, n))
}

/// The IRI a shape label names.
pub open spec fn label_iri(l: ShapeLabel) -> Seq<char> {
    match l {
        ShapeLabel::Iri(s) => s@,
        ShapeLabel::Prefixed { prefix, local } => prefix@ + ":"@ + local@,
        ShapeLabel::BNode(s) => s@,
        ShapeLabel::Start => "Start"@,
    }
}

/// Resolve a shape label to its IRI string (an edge's destination shape).
pub fn shape_label_iri(label: &ShapeLabel) -> (r: String)
    ensures
        r@ == label_iri(*label),
{
    match label {
        ShapeLabel::Iri(s) => s.clone(),
        ShapeLabel::Prefixed { prefix, local } => {
            let mut r = prefix.clone();
            r.append(":");
            r.append(local.as_str());
            r
        },
        ShapeLabel::BNode(s) => s.clone(),
        ShapeLabel::Start => String::from_str("Start"),
    }
}

// ───────────────────────────── classification ─────────────────────────────

/// Whether a cardinality lets a predicate carry at most one value.
pub open spec fn single_of(card: Cardinality) -> bool {
    match card {
        Cardinality::Exact(_) | Cardinality::ZeroOrOne => true,
        Cardinality::OneOrMore | Cardinality::ZeroOrMore => false,
        Cardinality::Range { max, .. } => match max {
            Some(m) => m <= 1,
            None => false,
        },
    }
}

/// `true` iff a cardinality is single-valued — `Exact(_)`, `ZeroOrOne`, or a
/// `Range` whose maximum is at most one.
pub fn is_single_valued(card: Cardinality) -> (b: bool)
    ensures
        b == single_of(card),
{
    match card {
        Cardinality::Exact(_) | Cardinality::ZeroOrOne => true,
        Cardinality::OneOrMore | Cardinality::ZeroOrMore => false,
        Cardinality::Range { max, .. } => match max {
            Some(m) => m <= 1,
            None => false,
        },
    }
}

/// The column type an XSD datatype IRI maps to, by its local name.
pub open spec fn datatype_of(iri: Seq<char>) -> DataType {
    let l = local_name_of(iri);
    if l == "integer"@ || l == "int"@ || l == "long"@ {
        DataType::Int64
    } else if l == "decimal"@ || l == "double"@ || l == "float"@ {
        DataType::Float64
    } else if l == "boolean"@ {
        DataType::Boolean
    } else if l == "date"@ {
        DataType::Date32
    } else if l == "dateTime"@ {
        DataType::Timestamp
    } else {
        DataType::Utf8
    }
}

/// Map an XSD datatype IRI to the column type the writer emits; anything
/// unrecognised is a string.
pub fn datatype_iri_to_arrow(iri: &str) -> (dt: DataType)
    ensures
        dt == datatype_of(iri@),
        xsd_column(local_name_of(iri@), spelling(dt)),
{
    proof {
        lemma_xsd_column_table(iri@);
    }
    let local = local_name(iri);
    let l = local.as_str();
    if str_eq(l, "integer") || str_eq(l, "int") || str_eq(l, "long") {
        DataType::Int64
    } else if str_eq(l, "decimal") || str_eq(l, "double") || str_eq(l, "float") {
        DataType::Float64
    } else if str_eq(l, "boolean") {
        DataType::Boolean
    } else if str_eq(l, "date") {
        DataType::Date32
    } else if str_eq(l, "dateTime") {
        DataType::Timestamp
    } else {
        DataType::Utf8
    }
}

/// The XSD column table, by the datatype IRI's local name: `integer`, `int`
/// and `long` are `int64` columns; `decimal`, `double` and `float` are
/// `double` columns; `boolean` is `bool`, `date` is `date`, `dateTime` is
/// `timestamp`; any other local name is a `string` column.
pub open spec fn xsd_column(local: Seq<char>, column: Seq<char>) -> bool {
    &&& (local == "integer"@ || local == "int"@ || local == "long"@) ==> column == "int64"@
    &&& (local == "decimal"@ || local == "double"@ || local == "float"@) ==> column == "double"@
    &&& local == "boolean"@ ==> column == "bool"@
    &&& local == "date"@ ==> column == "date"@
    &&& local == "dateTime"@ ==> column == "timestamp"@
    &&& !(local == "integer"@ || local == "int"@ || local == "long"@ || local == "decimal"@ || local
        == "double"@ || local == "float"@ || local == "boolean"@ || local == "date"@ || local
        == "dateTime"@) ==> column == "string"@
}

/// A node constraint's datatype IRI decides its property column's type by
/// the XSD column table: an `xsd:decimal` literal is a `double` column, an
/// `xsd:long` an `int64` one, an unknown datatype a `string` one.
pub proof fn lemma_xsd_column_table(iri: Seq<char>)
    ensures
        xsd_column(local_name_of(iri), spelling(datatype_of(iri))),
{
    reveal_strlit("integer");
    reveal_strlit("int");
    reveal_strlit("long");
    reveal_strlit("decimal");
    reveal_strlit("double");
    reveal_strlit("float");
    reveal_strlit("boolean");
    reveal_strlit("bool");
    reveal_strlit("date");
    reveal_strlit("dateTime");
    reveal_strlit("timestamp");
    reveal_strlit("int64");
    reveal_strlit("string");
    let l = local_name_of(iri);
    let lits: Seq<Seq<char>> = seq![
        "integer"@, "int"@, "long"@, "decimal"@, "double"@, "float"@, "boolean"@, "date"@,
        "dateTime"@,
    ];
    assert forall|a: int, b: int| 0 <= a < b < 9 implies lits[a] != lits[b] by {
        if lits[a] == lits[b] {
            assert(lits[a].len() == lits[b].len());
            assert(lits[a][0] == lits[b][0]);
            assert(lits[a][lits[a].len() - 1] == lits[b][lits[b].len() - 1]);
        }
    }
    assert(lits[0] == "integer"@);
    assert(lits[1] == "int"@);
    assert(lits[2] == "long"@);
    assert(lits[3] == "decimal"@);
    assert(lits[4] == "double"@);
    assert(lits[5] == "float"@);
    assert(lits[6] == "boolean"@);
    assert(lits[7] == "date"@);
    assert(lits[8] == "dateTime"@);
}

/// The column a constraint's literal object becomes follows the XSD column
/// table: a node constraint with a datatype gives the column its local name
/// names there, and a bare `.` or an IRI node constraint a `string` column.
pub proof fn lemma_literal_columns(c: ResolvedConstraint)
    ensures
        c.value_expr matches Some(ValueExpr::NodeConstraint { datatype: Some(dt), .. }) ==> literal_of(
            c.value_expr,
        ) is Some && xsd_column(local_name_of(dt@), spelling(literal_of(c.value_expr).unwrap())),
        c.value_expr is None ==> literal_of(c.value_expr) is Some && spelling(
            literal_of(c.value_expr).unwrap(),
        ) == "string"@,
{
    reveal_strlit("string");
    if let Some(ValueExpr::NodeConstraint { datatype: Some(dt), .. }) = c.value_expr {
        lemma_xsd_column_table(dt@);
    }
}

/// What a constraint's object becomes.
#[derive(Debug)]
pub enum ObjectKind {
    /// A literal object — a vertex property of this type.
    Literal(DataType),
    /// An object that is another shape — an edge to the shape with this IRI.
    Edge(String),
    /// Unsupported in this version — skipped.
    Skip,
}

/// The column type of a constraint whose object is a literal.
pub open spec fn literal_of(v: Option<ValueExpr>) -> Option<DataType> {
    match v {
        None => Some(DataType::Utf8),
        Some(ValueExpr::NodeConstraint { datatype, node_kind }) => match datatype {
            Some(dt) => Some(datatype_of(dt@)),
            None => if node_kind == Some(NodeKind::Iri) {
                Some(DataType::Utf8)
            } else {
                None
            },
        },
        _ => None,
    }
}

/// The destination shape IRI of a constraint whose object is another shape.
pub open spec fn edge_of(v: Option<ValueExpr>) -> Option<Seq<char>> {
    match v {
        Some(ValueExpr::Ref(label)) => Some(label_iri(label)),
        _ => None,
    }
}

/// Classify a constraint's object: a reference to a shape is an edge; a node
/// constraint with a datatype is a literal of that type; an IRI node
/// constraint, or a bare `.`, is a string literal; anything else is skipped.
pub fn classify_object(c: &ResolvedConstraint) -> (k: ObjectKind)
    ensures
        match k {
            ObjectKind::Literal(dt) => literal_of(c.value_expr) == Some(dt) && edge_of(c.value_expr)
                is None,
            ObjectKind::Edge(s) => edge_of(c.value_expr) == Some(s@) && literal_of(c.value_expr)
                is None,
            ObjectKind::Skip => literal_of(c.value_expr) is None && edge_of(c.value_expr) is None,
        },
{
    match &c.value_expr {
        Some(ValueExpr::Ref(label)) => ObjectKind::Edge(shape_label_iri(label)),
        Some(ValueExpr::NodeConstraint { datatype, node_kind }) => match datatype {
            Some(dt) => ObjectKind::Literal(datatype_iri_to_arrow(dt.as_str())),
            None => match node_kind {
                Some(NodeKind::Iri) => ObjectKind::Literal(DataType::Utf8),
                _ => ObjectKind::Skip,
            },
        },
        None => ObjectKind::Literal(DataType::Utf8),
        Some(ValueExpr::Other) => ObjectKind::Skip,
    }
}

// ───────────────────────────── decomposition ─────────────────────────────

pub open spec fn iri_keys(bs: Seq<ShapeBinding>) -> Seq<Seq<u8>> {
    bs.map_values(|b: ShapeBinding| encode_utf8(b.iri@))
}

pub open spec fn predicate_keys(cs: Seq<ResolvedConstraint>) -> Seq<Seq<u8>> {
    cs.map_values(|c: ResolvedConstraint| encode_utf8(c.predicate@))
}

/// The shapes in the byte order of their IRIs (stable).
pub open spec fn shapes_in_order(bs: Seq<ShapeBinding>) -> Seq<ShapeBinding> {
    sorted_order(iri_keys(bs)).map_values(|i: int| bs[i])
}

/// No two shapes of `bs` share an IRI.
pub open spec fn distinct_iris(bs: Seq<ShapeBinding>) -> bool {
    forall|i: int, j: int| 0 <= i < j < bs.len() ==> bs[i].iri@ != bs[j].iri@
}

/// `s` goes strictly up in the byte order of its IRIs.
pub open spec fn ascending(s: Seq<ShapeBinding>) -> bool {
    forall|i: int, j: int|
        0 <= i < j < s.len() ==> bytes_lt(encode_utf8(#[trigger] s[i].iri@), encode_utf8(#[trigger] s[j].iri@))
}

/// The ordered shapes of a table with no IRI twice go strictly up and hold
/// exactly the table's shapes.
proof fn lemma_shapes_in_order(bs: Seq<ShapeBinding>)
    requires
        distinct_iris(bs),
    ensures
        ascending(shapes_in_order(bs)),
        forall|x: ShapeBinding| shapes_in_order(bs).contains(x) <==> bs.contains(x),
{
    let keys = iri_keys(bs);
    let p = sorted_order(keys);
    let s = shapes_in_order(bs);
    lemma_order_exists(keys);
    assert forall|i: int, j: int| 0 <= i < j < s.len() implies bytes_lt(
        encode_utf8(#[trigger] s[i].iri@),
        encode_utf8(#[trigger] s[j].iri@),
    ) by {
        assert(before(keys, p[i], p[j]));
        if !bytes_lt(keys[p[i]], keys[p[j]]) {
            assert(keys[p[i]] == keys[p[j]] && p[i] < p[j]);
            encode_utf8_decode_utf8(bs[p[i]].iri@);
            encode_utf8_decode_utf8(bs[p[j]].iri@);
        }
    }
    assert forall|x: ShapeBinding| s.contains(x) <==> bs.contains(x) by {
        if s.contains(x) {
            let k = choose|k: int| 0 <= k < s.len() && s[k] == x;
            assert(bs[p[k]] == x);
        }
        if bs.contains(x) {
            let i = choose|i: int| 0 <= i < bs.len() && bs[i] == x;
            assert(p.contains(i));
            let k = choose|k: int| 0 <= k < p.len() && p[k] == i;
            assert(s[k] == x);
        }
    }
}

/// Two runs of shapes that go strictly up by IRI and hold the same shapes
/// are the same run.
proof fn lemma_ascending_unique(s1: Seq<ShapeBinding>, s2: Seq<ShapeBinding>)
    requires
        ascending(s1),
        ascending(s2),
        forall|x: ShapeBinding| s1.contains(x) <==> s2.contains(x),
    ensures
        s1 == s2,
    decreases s1.len(),
{
    if s1.len() == 0 {
        if s2.len() > 0 {
            assert(s2.contains(s2[0]));
        }
        assert(s1 =~= s2);
    } else {
        assert(s1.contains(s1[0]));
        assert(s2.len() > 0);
        let x = s1[0];
        let y = s2[0];
        assert(s2.contains(y));
        let i = choose|i: int| 0 <= i < s1.len() && s1[i] == y;
        let j = choose|j: int| 0 <= j < s2.len() && s2[j] == x;
        if i > 0 && j > 0 {
            lemma_bytes_lt_asymmetric(encode_utf8(s1[0].iri@), encode_utf8(s1[i].iri@));
        }
        assert(x == y);
        let t1 = s1.drop_first();
        let t2 = s2.drop_first();
        assert forall|z: ShapeBinding| t1.contains(z) <==> t2.contains(z) by {
            if t1.contains(z) {
                let k = choose|k: int| 0 <= k < t1.len() && t1[k] == z;
                assert(s1[k + 1] == z);
                lemma_bytes_lt_asymmetric(encode_utf8(s1[0].iri@), encode_utf8(s1[k + 1].iri@));
                assert(s2.contains(z));
                let m = choose|m: int| 0 <= m < s2.len() && s2[m] == z;
                assert(m != 0);
                assert(t2[m - 1] == z);
            }
            if t2.contains(z) {
                let k = choose|k: int| 0 <= k < t2.len() && t2[k] == z;
                assert(s2[k + 1] == z);
                lemma_bytes_lt_asymmetric(encode_utf8(s2[0].iri@), encode_utf8(s2[k + 1].iri@));
                assert(s1.contains(z));
                let m = choose|m: int| 0 <= m < s1.len() && s1[m] == z;
                assert(m != 0);
                assert(t1[m - 1] == z);
            }
        }
        assert forall|i: int, j: int| 0 <= i < j < t1.len() implies bytes_lt(
            encode_utf8(#[trigger] t1[i].iri@),
            encode_utf8(#[trigger] t1[j].iri@),
        ) by {
            assert(t1[i] == s1[i + 1] && t1[j] == s1[j + 1]);
        }
        assert forall|i: int, j: int| 0 <= i < j < t2.len() implies bytes_lt(
            encode_utf8(#[trigger] t2[i].iri@),
            encode_utf8(#[trigger] t2[j].iri@),
        ) by {
            assert(t2[i] == s2[i + 1] && t2[j] == s2[j + 1]);
        }
        lemma_ascending_unique(t1, t2);
        assert(s1 =~= seq![x] + t1);
        assert(s2 =~= seq![y] + t2);
    }
}

/// The plan of a shape table does not depend on the order its shapes come
/// in: two tables holding the same shapes, neither with an IRI twice,
/// decompose into the same vertex and edge tables.
pub proof fn lemma_decomp_ignores_shape_order(
    a: Vec<ShapeBinding>,
    b: Vec<ShapeBinding>,
    source: Seq<char>,
)
    requires
        distinct_iris(a@),
        distinct_iris(b@),
        forall|x: ShapeBinding| a@.contains(x) <==> b@.contains(x),
    ensures
        decomp_vertices(OutputDescriptorKind::ShEx(a), source) == decomp_vertices(
            OutputDescriptorKind::ShEx(b),
            source,
        ),
        decomp_edges(OutputDescriptorKind::ShEx(a), source) == decomp_edges(
            OutputDescriptorKind::ShEx(b),
            source,
        ),
{
    lemma_shapes_in_order(a@);
    lemma_shapes_in_order(b@);
    assert forall|x: ShapeBinding| shapes_in_order(a@).contains(x) <==> shapes_in_order(
        b@,
    ).contains(x) by {
        assert(shapes_in_order(a@).contains(x) <==> a@.contains(x));
        assert(shapes_in_order(b@).contains(x) <==> b@.contains(x));
    }
    lemma_ascending_unique(shapes_in_order(a@), shapes_in_order(b@));
}

/// A shape's constraints in the byte order of their predicates (stable).
pub open spec fn constraints_in_order(cs: Seq<ResolvedConstraint>) -> Seq<ResolvedConstraint> {
    sorted_order(predicate_keys(cs)).map_values(|i: int| cs[i])
}

/// The property columns of a run of constraints: one per literal object, in order.
pub open spec fn props_from(cs: Seq<ResolvedConstraint>) -> Seq<PropView>
    decreases cs.len(),
{
    if cs.len() == 0 {
        Seq::empty()
    } else {
        let c = cs.last();
        let rest = props_from(cs.drop_last());
        match literal_of(c.value_expr) {
            Some(dt) => rest.push(
                (local_name_of(c.predicate@), spelling(dt), None, None, single_of(c.cardinality)),
            ),
            None => rest,
        }
    }
}

/// The edge tables of a run of constraints of the shape named `src`: one per
/// object that is another shape, in order.
pub open spec fn edges_from(src: Seq<char>, cs: Seq<ResolvedConstraint>, source: Seq<char>) -> Seq<
    EdgeView,
>
    decreases cs.len(),
{
    if cs.len() == 0 {
        Seq::empty()
    } else {
        let c = cs.last();
        let rest = edges_from(src, cs.drop_last(), source);
        match edge_of(c.value_expr) {
            Some(dst) => rest.push(
                (
                    src,
                    local_name_of(c.predicate@),
                    local_name_of(dst),
                    IRI_COLUMN@,
                    local_name_of(c.predicate@),
                    single_of(c.cardinality),
                    source,
                ),
            ),
            None => rest,
        }
    }
}

/// The vertex table of one shape.
pub open spec fn shape_vertex(b: ShapeBinding, source: Seq<char>) -> VertexView {
    (
        local_name_of(b.iri@),
        None,
        IRI_COLUMN@,
        props_from(constraints_in_order(b.constraints@)),
        source,
    )
}

/// The edge tables of one shape.
pub open spec fn shape_edges(b: ShapeBinding, source: Seq<char>) -> Seq<EdgeView> {
    edges_from(local_name_of(b.iri@), constraints_in_order(b.constraints@), source)
}

/// Every constraint whose object is a node constraint with a datatype gives
/// the run of constraints a property column named by its predicate's local
/// name, typed by the XSD column table.
pub proof fn lemma_props_follow_table(cs: Seq<ResolvedConstraint>)
    ensures
        forall|k: int|
            #![trigger cs[k]]
            0 <= k < cs.len() ==> (cs[k].value_expr matches Some(
                ValueExpr::NodeConstraint { datatype: Some(dt), .. },
            ) ==> exists|m: int|
                0 <= m < props_from(cs).len() && (#[trigger] props_from(cs)[m]).0 == local_name_of(
                    cs[k].predicate@,
                ) && xsd_column(local_name_of(dt@), props_from(cs)[m].1)),
    decreases cs.len(),
{
    if cs.len() > 0 {
        let init = cs.drop_last();
        lemma_props_follow_table(init);
        let ps = props_from(cs);
        let pi = props_from(init);
        lemma_literal_columns(cs.last());
        assert forall|k: int|
            #![trigger cs[k]]
            0 <= k < cs.len() implies (cs[k].value_expr matches Some(
                ValueExpr::NodeConstraint { datatype: Some(dt), .. },
            ) ==> exists|m: int|
                0 <= m < ps.len() && (#[trigger] ps[m]).0 == local_name_of(cs[k].predicate@)
                    && xsd_column(local_name_of(dt@), ps[m].1)) by {
            if let Some(ValueExpr::NodeConstraint { datatype: Some(dt), .. }) = cs[k].value_expr {
                if k < cs.len() - 1 {
                    assert(cs[k] == init[k]);
                    let m = choose|m: int|
                        0 <= m < pi.len() && (#[trigger] pi[m]).0 == local_name_of(init[k].predicate@)
                            && xsd_column(local_name_of(dt@), pi[m].1);
                    assert(ps[m] == pi[m]);
                } else {
                    assert(ps[ps.len() - 1].0 == local_name_of(cs[k].predicate@));
                }
            }
        }
    }
}

/// The vertex table of a shape carries, for each of its constraints whose
/// object is a node constraint with a datatype, a property column named by
/// the predicate's local name and typed by the XSD column table: an
/// `xsd:decimal` price is a `double` column.
pub proof fn lemma_vertex_columns_follow_table(b: ShapeBinding, source: Seq<char>, k: int)
    requires
        0 <= k < b.constraints@.len(),
        b.constraints@[k].value_expr matches Some(ValueExpr::NodeConstraint { datatype: Some(_), .. }),
    ensures
        ({
            let dt = b.constraints@[k].value_expr->Some_0->datatype->Some_0;
            let props = shape_vertex(b, source).3;
            exists|m: int|
                0 <= m < props.len() && (#[trigger] props[m]).0 == local_name_of(
                    b.constraints@[k].predicate@,
                ) && xsd_column(local_name_of(dt@), props[m].1)
        }),
{
    let cs = b.constraints@;
    let keys = predicate_keys(cs);
    let p = sorted_order(keys);
    lemma_order_exists(keys);
    assert(p.contains(k));
    let m = choose|m: int| 0 <= m < p.len() && p[m] == k;
    let ordered = constraints_in_order(cs);
    assert(ordered[m] == cs[k]);
    lemma_props_follow_table(ordered);
    assert(ordered[m] == cs[k]);
    let dt = cs[k].value_expr->Some_0->datatype->Some_0;
    let props = props_from(ordered);
    assert(shape_vertex(b, source).3 == props);
    assert(ordered[m].value_expr matches Some(ValueExpr::NodeConstraint { datatype: Some(d), .. }) && d == dt);
    let m2 = choose|m2: int|
        0 <= m2 < props.len() && (#[trigger] props[m2]).0 == local_name_of(ordered[m].predicate@)
            && xsd_column(local_name_of(dt@), props[m2].1);
    assert(props[m2].0 == local_name_of(cs[k].predicate@));
}

/// The edge tables of a run of shapes, shape after shape.
pub open spec fn all_edges(bs: Seq<ShapeBinding>, source: Seq<char>) -> Seq<EdgeView>
    decreases bs.len(),
{
    if bs.len() == 0 {
        Seq::empty()
    } else {
        all_edges(bs.drop_last(), source) + shape_edges(bs.last(), source)
    }
}

/// The vertex tables a target decomposes into.
pub open spec fn decomp_vertices(kind: OutputDescriptorKind, source: Seq<char>) -> Seq<VertexView> {
    match kind {
        OutputDescriptorKind::AcceptAll => seq![("_triples"@, None, IRI_COLUMN@, Seq::empty(), source)],
        OutputDescriptorKind::ShEx(bs) => shapes_in_order(bs@).map_values(
            |b: ShapeBinding| shape_vertex(b, source),
        ),
    }
}

/// The edge tables a target decomposes into.
pub open spec fn decomp_edges(kind: OutputDescriptorKind, source: Seq<char>) -> Seq<EdgeView> {
    match kind {
        OutputDescriptorKind::AcceptAll => Seq::empty(),
        OutputDescriptorKind::ShEx(bs) => all_edges(shapes_in_order(bs@), source),
    }
}

/// The vertex table of one shape, appending its edge tables to `edges`.
fn decompose_shape(b: &ShapeBinding, source_relation: &str, edges: &mut Vec<EdgeTable>) -> (v:
    VertexTable)
    ensures
        v@ == shape_vertex(*b, source_relation@),
        edges_view(final(edges)@) == edges_view(old(edges)@) + shape_edges(*b, source_relation@),
{
    let src_type = local_name(b.iri.as_str());
    let mut keys: Vec<&str> = Vec::new();
    let mut i: usize = 0;
    while i < b.constraints.len()
        invariant
            i <= b.constraints@.len(),
            keys@.len() == i,
            forall|k: int| 0 <= k < i ==> #[trigger] keys@[k]@ == b.constraints@[k].predicate@,
        decreases b.constraints@.len() - i,
    {
        keys.push(b.constraints[i].predicate.as_str());
        i = i + 1;
    }
    let ghost cs = b.constraints@;
    assert(keys@.map_values(|s: &str| s.spec_bytes()) =~= predicate_keys(cs));
    let order = sort_order(&keys);
    let ghost ordered = constraints_in_order(cs);
    assert forall|k: int| 0 <= k < order@.len() implies 0 <= #[trigger] order@[k] < cs.len() by {
        assert(crate::order::as_ints(order@)[k] == order@[k] as int);
    }
    let mut properties: Vec<VertexProperty> = Vec::new();
    let ghost edges0 = edges_view(edges@);
    let mut j: usize = 0;
    while j < order.len()
        invariant
            cs == b.constraints@,
            ordered == constraints_in_order(cs),
            crate::order::as_ints(order@) == sorted_order(predicate_keys(cs)),
            order@.len() == cs.len(),
            forall|k: int| 0 <= k < order@.len() ==> 0 <= #[trigger] order@[k] < cs.len(),
            src_type@ == local_name_of(b.iri@),
            j <= order@.len(),
            properties@.map_values(|p: VertexProperty| p@) == props_from(ordered.take(j as int)),
            edges_view(edges@) == edges0 + edges_from(
                src_type@,
                ordered.take(j as int),
                source_relation@,
            ),
        decreases order@.len() - j,
    {
        let c = &b.constraints[order[j]];
        proof {
            assert(ordered[j as int] == *c);
            assert(ordered.take(j + 1).drop_last() =~= ordered.take(j as int));
            assert(ordered.take(j + 1).last() == *c);
        }
        let ghost props_before = properties@;
        let ghost edges_before = edges@;
        let single = is_single_valued(c.cardinality);
        match classify_object(c) {
            ObjectKind::Literal(dt) => {
                properties.push(
                    VertexProperty {
                        name: local_name(c.predicate.as_str()),
                        data_type: data_type_name(&dt),
                        rdf_uri: None,
                        xsd_datatype: None,
                        single_valued: single,
                    },
                );
                proof {
                    assert(properties@.map_values(|p: VertexProperty| p@) =~= props_before.map_values(
                        |p: VertexProperty| p@,
                    ).push(properties@.last()@));
                }
            },
            ObjectKind::Edge(dst) => {
                let pred_local = local_name(c.predicate.as_str());
                edges.push(
                    EdgeTable {
                        src_type: src_type.clone(),
                        predicate: pred_local.clone(),
                        dst_type: local_name(dst.as_str()),
                        src_id_expr: String::from_str(IRI_COLUMN),
                        dst_id_expr: pred_local,
                        single_valued: single,
                        source_relation: String::from_str(source_relation),
                    },
                );
                proof {
                    assert(edges_view(edges@) =~= edges_view(edges_before).push(edges@.last()@));
                }
            },
            ObjectKind::Skip => {},
        }
        j = j + 1;
    }
    proof {
        assert(ordered.take(order@.len() as int) =~= ordered);
    }
    VertexTable {
        type_label: src_type,
        rdf_type: None,
        vertex_id_col: String::from_str(IRI_COLUMN),
        properties,
        source_relation: String::from_str(source_relation),
    }
}

/// Decompose under a target: `AcceptAll` gives the flat passthrough
/// pseudo-vertex `_triples`; a shape table gives one vertex table per shape
/// and one edge table per inter-shape predicate, shapes by IRI and
/// constraints by predicate.
pub fn vertex_edge_decomp_from_kind(
    kind: &OutputDescriptorKind,
    source_relation: &str,
    chunk_size: u64,
) -> (plan: SinkPlan)
    ensures
        vertices_view(plan.vertices@) == decomp_vertices(*kind, source_relation@),
        edges_view(plan.edges@) == decomp_edges(*kind, source_relation@),
        plan.chunk_size == chunk_size,
{
    match kind {
        OutputDescriptorKind::AcceptAll => {
            let mut vertices: Vec<VertexTable> = Vec::new();
            vertices.push(
                VertexTable {
                    type_label: String::from_str("_triples"),
                    rdf_type: None,
                    vertex_id_col: String::from_str(IRI_COLUMN),
                    properties: Vec::new(),
                    source_relation: String::from_str(source_relation),
                },
            );
            let plan = SinkPlan { vertices, edges: Vec::new(), chunk_size };
            assert(plan.vertices@[0].properties@.map_values(|p: VertexProperty| p@) =~= Seq::<
                PropView,
            >::empty());
            assert(vertices_view(plan.vertices@) =~= decomp_vertices(*kind, source_relation@));
            assert(edges_view(plan.edges@) =~= decomp_edges(*kind, source_relation@));
            plan
        },
        OutputDescriptorKind::ShEx(bindings) => {
            let mut keys: Vec<&str> = Vec::new();
            let mut i: usize = 0;
            while i < bindings.len()
                invariant
                    i <= bindings@.len(),
                    keys@.len() == i,
                    forall|k: int| 0 <= k < i ==> #[trigger] keys@[k]@ == bindings@[k].iri@,
                decreases bindings@.len() - i,
            {
                keys.push(bindings[i].iri.as_str());
                i = i + 1;
            }
            let ghost bs = bindings@;
            assert(keys@.map_values(|s: &str| s.spec_bytes()) =~= iri_keys(bs));
            let order = sort_order(&keys);
            let ghost ordered = shapes_in_order(bs);
            assert forall|m: int| 0 <= m < order@.len() implies 0 <= #[trigger] order@[m] < bs.len() by {
                assert(crate::order::as_ints(order@)[m] == order@[m] as int);
            }
            let mut vertices: Vec<VertexTable> = Vec::new();
            let mut edges: Vec<EdgeTable> = Vec::new();
            let mut k: usize = 0;
            while k < order.len()
                invariant
                    bs == bindings@,
                    ordered == shapes_in_order(bs),
                    crate::order::as_ints(order@) == sorted_order(iri_keys(bs)),
                    order@.len() == bs.len(),
                    forall|m: int| 0 <= m < order@.len() ==> 0 <= #[trigger] order@[m] < bs.len(),
                    k <= order@.len(),
                    vertices_view(vertices@) == ordered.take(k as int).map_values(
                        |b: ShapeBinding| shape_vertex(b, source_relation@),
                    ),
                    edges_view(edges@) == all_edges(ordered.take(k as int), source_relation@),
                decreases order@.len() - k,
            {
                let b = &bindings[order[k]];
                proof {
                    assert(ordered[k as int] == *b);
                    assert(ordered.take(k + 1).drop_last() =~= ordered.take(k as int));
                    assert(ordered.take(k + 1).last() == *b);
                }
                let ghost before = vertices@;
                let v = decompose_shape(b, source_relation, &mut edges);
                let ghost vv = v@;
                vertices.push(v);
                proof {
                    assert(vertices_view(vertices@) =~= vertices_view(before).push(vv));
                    assert(ordered.take(k + 1).map_values(
                        |b: ShapeBinding| shape_vertex(b, source_relation@),
                    ) =~= ordered.take(k as int).map_values(
                        |b: ShapeBinding| shape_vertex(b, source_relation@),
                    ).push(shape_vertex(*b, source_relation@)));
                }
                k = k + 1;
            }
            proof {
                assert(ordered.take(order@.len() as int) =~= ordered);
            }
            SinkPlan { vertices, edges, chunk_size }
        },
    }
}

} // verus!
