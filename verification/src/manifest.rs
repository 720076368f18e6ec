//! The corpus manifest model: tiles, level pyramids, projections, and the
//! vertex / edge / graph infos a writer declares.
//!
//! A corpus is a sequence (Morton order, `dense_id` is the rank in it), a cut
//! (fixed runs of `chunk_size` rows, each a tile) and some projections of that
//! sequence, each a [`Projection`]: a `scale` and the columns it carries. The
//! payload is the projection at `scale: 1`.

use vstd::prelude::*;

use crate::strings::{decimal, push_decimal, str_eq};

verus! {

/// The manifest format version string, emitted as `version: gar/v1`.
pub const GRAPHAR_VERSION: &'static str = "gar/v1";

/// The payload file of a row-group container.
pub const TILES_FILE: &'static str = "tiles.parquet";

/// The filename stem of a level set: level `k` lives under `l{k}/`.
pub const LEVEL_PREFIX_STEM: &'static str = "l";

/// How many bits a `dense_id` is shifted right by to name its tile.
pub const TILE_SHIFT: u32 = 12;

/// Rows per tile when a mapping does not override it — `1 << TILE_SHIFT`.
pub const DEFAULT_CHUNK_SIZE: u64 = 4096;

/// Tile `i` is exactly the `dense_id` range `[i·4096, (i+1)·4096)`: an id
/// lives in tile `i` if and only if it lies in that range.
pub proof fn lemma_tile_is_its_range(dense_id: u64, i: u64)
    ensures
        (dense_id / 4096 == i) <==> (i * 4096 <= dense_id < (i + 1) * 4096),
{
    assert((dense_id / 4096 == i) <==> (i * 4096 <= dense_id < (i + 1) * 4096)) by (nonlinear_arith);
}

/// The tile a `dense_id` lives in: tile `i` is the range `[i·4096, (i+1)·4096)`.
pub fn tile_of(dense_id: u64) -> (t: u64)
    ensures
        t == dense_id / 4096,
{
    let t = dense_id >> 12u32;
    assert(t == dense_id / 4096) by (bit_vector)
        requires
            t == dense_id >> 12u32,
    ;
    t
}

// ───────────────────────────── column types ─────────────────────────────

/// The column types a manifest can declare, by the Arrow type the writer
/// emits (the Arrow types the spelling table distinguishes; every other Arrow
/// type is [`DataType::Other`]).
#[derive(Debug, Clone, Copy, PartialEq, Eq, Structural)]
pub enum DataType {
    Boolean,
    Int8,
    Int16,
    Int32,
    Int64,
    UInt8,
    UInt16,
    UInt32,
    UInt64,
    Float16,
    Float32,
    Float64,
    Utf8,
    LargeUtf8,
    Date32,
    Date64,
    Timestamp,
    Time32,
    Time64,
    Other,
}

/// The manifest spelling of a column type. `uint32` / `uint64` are the
/// corpus's own; an unhandled type falls back to `binary`.
pub open spec fn spelling(dt: DataType) -> Seq<char> {
    match dt {
        DataType::Boolean => "bool"@,
        DataType::Int8 | DataType::Int16 | DataType::Int32 => "int32"@,
        DataType::Int64 => "int64"@,
        DataType::UInt8 | DataType::UInt16 | DataType::UInt32 => "uint32"@,
        DataType::UInt64 => "uint64"@,
        DataType::Float16 | DataType::Float32 => "float"@,
        DataType::Float64 => "double"@,
        DataType::Utf8 | DataType::LargeUtf8 => "string"@,
        DataType::Date32 | DataType::Date64 => "date"@,
        DataType::Timestamp => "timestamp"@,
        DataType::Time32 | DataType::Time64 => "time"@,
        DataType::Other => "binary"@,
    }
}

/// Map a column type to its manifest `data_type` spelling.
pub fn data_type_name(dt: &DataType) -> (s: String)
    ensures
        s@ == spelling(*dt),
{
    let lit = match dt {
        DataType::Boolean => "bool",
        DataType::Int8 | DataType::Int16 | DataType::Int32 => "int32",
        DataType::Int64 => "int64",
        DataType::UInt8 | DataType::UInt16 | DataType::UInt32 => "uint32",
        DataType::UInt64 => "uint64",
        DataType::Float16 | DataType::Float32 => "float",
        DataType::Float64 => "double",
        DataType::Utf8 | DataType::LargeUtf8 => "string",
        DataType::Date32 | DataType::Date64 => "date",
        DataType::Timestamp => "timestamp",
        DataType::Time32 | DataType::Time64 => "time",
        DataType::Other => "binary",
    };
    String::from_str(lit)
}

/// The column type a spelling stands for, where it stands for exactly one.
pub open spec fn arrow_type_of(name: Seq<char>) -> Option<DataType> {
    if name == "bool"@ {
        Some(DataType::Boolean)
    } else if name == "int64"@ {
        Some(DataType::Int64)
    } else if name == "float"@ {
        Some(DataType::Float32)
    } else if name == "double"@ {
        Some(DataType::Float64)
    } else if name == "string"@ {
        Some(DataType::Utf8)
    } else if name == "uint32"@ {
        Some(DataType::UInt32)
    } else if name == "uint64"@ {
        Some(DataType::UInt64)
    } else {
        None
    }
}

/// The partial inverse of [`data_type_name`]: `int32`, `date`, `timestamp`,
/// `time` and `binary` have no single answer and give `None`.
pub fn arrow_type(name: &str) -> (r: Option<DataType>)
    ensures
        r == arrow_type_of(name@),
{
    if str_eq(name, "bool") {
        Some(DataType::Boolean)
    } else if str_eq(name, "int64") {
        Some(DataType::Int64)
    } else if str_eq(name, "float") {
        Some(DataType::Float32)
    } else if str_eq(name, "double") {
        Some(DataType::Float64)
    } else if str_eq(name, "string") {
        Some(DataType::Utf8)
    } else if str_eq(name, "uint32") {
        Some(DataType::UInt32)
    } else if str_eq(name, "uint64") {
        Some(DataType::UInt64)
    } else {
        None
    }
}

/// A spelling [`arrow_type`] answers maps back to itself.
pub proof fn lemma_arrow_type_round_trips(name: Seq<char>)
    requires
        arrow_type_of(name) is Some,
    ensures
        spelling(arrow_type_of(name).unwrap()) == name,
{
}

// ───────────────────────────── properties and projections ─────────────────────────────

/// How many values a shape declared a predicate may carry.
#[derive(Debug, Clone, Copy, PartialEq, Eq, Structural)]
pub enum Cardinality {
    Single,
    Multi,
}

/// A single property (column) of a vertex or edge.
#[derive(Debug, PartialEq, Eq)]
pub struct Property {
    /// Property (column) name.
    pub name: String,
    /// Manifest data-type spelling (`int64`, `string`, `double`, `bool`, ...).
    pub data_type: String,
    /// Whether this property is (part of) the primary key.
    pub is_primary: bool,
    /// Nullability; `None` where nothing was declared.
    pub is_nullable: Option<bool>,
    /// How many values the shape declared this predicate may carry; `None`
    /// where nothing declared it.
    pub cardinality: Option<Cardinality>,
}

/// A property as plain values.
pub type PropertyView = (Seq<char>, Seq<char>, bool, Option<bool>, Option<Cardinality>);

impl View for Property {
    type V = PropertyView;

    open spec fn view(&self) -> PropertyView {
        (self.name@, self.data_type@, self.is_primary, self.is_nullable, self.cardinality)
    }
}

impl Clone for Property {
    fn clone(&self) -> (c: Self)
        ensures
            c@ == self@,
    {
        Property {
            name: self.name.clone(),
            data_type: self.data_type.clone(),
            is_primary: self.is_primary,
            is_nullable: self.is_nullable,
            cardinality: self.cardinality,
        }
    }
}

/// The views of a list of properties.
pub open spec fn props_view(v: Seq<Property>) -> Seq<PropertyView> {
    v.map_values(|p: Property| p@)
}

/// A copy of a list of properties.
pub fn clone_properties(v: &[Property]) -> (r: Vec<Property>)
    ensures
        props_view(r@) == props_view(v@),
{
    let mut r: Vec<Property> = Vec::new();
    let mut i: usize = 0;
    while i < v.len()
        invariant
            i <= v.len(),
            r@.len() == i,
            forall|k: int| 0 <= k < i ==> #[trigger] r@[k]@ == v@[k]@,
        decreases v.len() - i,
    {
        r.push(v[i].clone());
        i = i + 1;
    }
    assert(props_view(r@) =~= props_view(v@));
    r
}

/// One projection of a type's sequence: where its tiles are, how many
/// `dense_id`s one row stands for, and the columns it carries.
#[derive(Debug, Clone, PartialEq, Eq)]
pub struct Projection {
    /// Where the tiles are, relative to the type's own prefix, with the
    /// trailing separator — `""` for the payload, `"l1/"` for a level.
    pub path: String,
    /// How many `dense_id`s one row stands for — `1` for the payload and the
    /// adjacency, `4^k` for level `k`.
    pub scale: u64,
    /// Which endpoint column addresses the tiles (`"src"` / `"dst"`) on an
    /// edge projection; `None` on a vertex one.
    pub aligned_by: Option<String>,
    /// Whether the rows are sorted by the `aligned_by` column.
    pub ordered: Option<bool>,
    /// Storage file type, e.g. `"parquet"`.
    pub file_type: String,
    /// The columns this projection carries.
    pub properties: Vec<Property>,
}

/// A projection as plain values.
pub type ProjectionView = (Seq<char>, u64, Option<Seq<char>>, Option<bool>, Seq<char>, Seq<PropertyView>);

pub open spec fn opt_view(o: Option<String>) -> Option<Seq<char>> {
    match o {
        Some(s) => Some(s@),
        None => None,
    }
}

impl View for Projection {
    type V = ProjectionView;

    open spec fn view(&self) -> ProjectionView {
        (
            self.path@,
            self.scale,
            opt_view(self.aligned_by),
            self.ordered,
            self.file_type@,
            props_view(self.properties@),
        )
    }
}

impl Projection {
    /// A projection at `scale: 1` — a payload, or one orientation's adjacency.
    pub fn payload(path: &str, properties: Vec<Property>) -> (p: Self)
        ensures
            p@ == (path@, 1u64, None::<Seq<char>>, None::<bool>, "parquet"@, props_view(properties@)),
    {
        Projection {
            path: String::from_str(path),
            scale: 1,
            aligned_by: None,
            ordered: None,
            file_type: String::from_str("parquet"),
            properties,
        }
    }

    /// Declare which endpoint addresses this projection, and whether its rows
    /// are sorted by that column.
    pub fn aligned_by(self, endpoint: &str, ordered: bool) -> (p: Self)
        ensures
            p@ == (self@.0, self@.1, Some(endpoint@), Some(ordered), self@.4, self@.5),
    {
        let mut p = self;
        p.aligned_by = Some(String::from_str(endpoint));
        p.ordered = Some(ordered);
        p
    }
}

// ───────────────────────────── level pyramid ─────────────────────────────

/// `4^k`.
pub open spec fn pow4(k: nat) -> nat
    decreases k,
{
    if k == 0 {
        1
    } else {
        4 * pow4((k - 1) as nat)
    }
}

/// How many bits of `dense_id` level `k` drops — `2k`, saturating.
pub open spec fn stride_bits_of(level: u32) -> u32 {
    if level <= 0x7fff_ffff {
        (2 * level) as u32
    } else {
        u32::MAX
    }
}

/// How many `dense_id`s one row of level `k` stands for — `4^k`, saturating
/// at `u64::MAX` where `4^k` does not fit.
pub open spec fn stride_of(level: u32) -> u64 {
    if level < 32 {
        pow4(level as nat) as u64
    } else {
        u64::MAX
    }
}

/// `ceil(a / b)`.
pub open spec fn ceil_div(a: nat, b: nat) -> nat {
    if b == 0 {
        0
    } else if a % b == 0 {
        a / b
    } else {
        a / b + 1
    }
}

/// How many rows level `k` of a type of `vertex_count` rows holds.
pub open spec fn rows_at_of(vertex_count: u64, level: u32) -> nat {
    ceil_div(vertex_count as nat, stride_of(level) as nat)
}

pub proof fn lemma_pow4_monotone(a: nat, b: nat)
    requires
        a <= b,
    ensures
        1 <= pow4(a) <= pow4(b),
    decreases b,
{
    if a < b {
        lemma_pow4_monotone(a, (b - 1) as nat);
    } else if a > 0 {
        lemma_pow4_monotone((a - 1) as nat, (b - 1) as nat);
    }
}

proof fn lemma_stride_fits(level: u32)
    requires
        level < 32,
    ensures
        1 <= pow4(level as nat) <= 0x4000_0000_0000_0000,
{
    lemma_pow4_monotone(level as nat, 31);
    lemma_pow2_even(31);
    vstd::arithmetic::power2::lemma2_to64_rest();
}

/// The pyramid a type gets: levels `1..=coarsest`, finest first, each a
/// quarter of the one below it.
#[derive(Debug, Clone, PartialEq, Eq)]
pub struct VertexLevels {
    /// Filename stem of a level's path — [`LEVEL_PREFIX_STEM`].
    pub prefix: String,
    /// The levels planned, finest first, and complete: `1..=coarsest`.
    pub levels: Vec<u32>,
    /// Rows per tile — the type's own chunk size.
    pub chunk_size: u64,
}

/// The levels are exactly `1..=c`.
pub open spec fn levels_up_to(levels: Seq<u32>, c: int) -> bool {
    &&& levels.len() == c
    &&& forall|i: int| 0 <= i < levels.len() ==> #[trigger] levels[i] == i + 1
}

/// The coarsest level a type gets: the smallest `c >= 1` whose level fits one
/// tile.
pub open spec fn is_coarsest(vertex_count: u64, chunk_size: u64, c: int) -> bool {
    &&& 1 <= c
    &&& rows_at_of(vertex_count, c as u32) <= chunk_size
    &&& forall|k: u32| 1 <= k < c ==> #[trigger] rows_at_of(vertex_count, k) > chunk_size
}

impl VertexLevels {
    /// How many `dense_id`s one row of level `k` stands for — `4^k`, saturating.
    pub fn stride(level: u32) -> (s: u64)
        ensures
            s == stride_of(level),
    {
        if level >= 32 {
            return u64::MAX;
        }
        let mut s: u64 = 1;
        let mut i: u32 = 0;
        while i < level
            invariant
                i <= level < 32,
                s == pow4(i as nat),
            decreases level - i,
        {
            proof {
                lemma_stride_fits((i + 1) as u32);
            }
            s = s * 4;
            i = i + 1;
        }
        s
    }

    /// How many bits of `dense_id` level `k` drops — `2k`, saturating.
    pub fn stride_bits(level: u32) -> (b: u32)
        ensures
            b == stride_bits_of(level),
    {
        if level <= 0x7fff_ffff {
            level * 2
        } else {
            u32::MAX
        }
    }

    /// How many rows level `k` of a type of `vertex_count` rows holds.
    pub fn rows_at(vertex_count: u64, level: u32) -> (r: u64)
        ensures
            r == rows_at_of(vertex_count, level),
    {
        let s = Self::stride(level);
        proof {
            if level < 32 {
                lemma_stride_fits(level);
            }
        }
        let q = vertex_count / s;
        if vertex_count % s == 0 {
            q
        } else {
            assert(q < vertex_count) by (nonlinear_arith)
                requires
                    q == vertex_count / s,
                    s >= 1,
                    vertex_count % s != 0,
            ;
            q + 1
        }
    }

    /// The pyramid a type of `vertex_count` rows at `chunk_size` rows per tile
    /// gets, or `None` where one tile already holds the whole type.
    pub fn planned(vertex_count: u64, chunk_size: u64) -> (r: Option<Self>)
        ensures
            r is None <==> (chunk_size == 0 || vertex_count <= chunk_size),
            r matches Some(l) ==> {
                &&& l.prefix@ == LEVEL_PREFIX_STEM@
                &&& l.chunk_size == chunk_size
                &&& is_coarsest(vertex_count, chunk_size, l.levels@.len() as int)
                &&& levels_up_to(l.levels@, l.levels@.len() as int)
            },
    {
        if chunk_size == 0 || vertex_count <= chunk_size {
            return None;
        }
        let mut coarsest: u32 = 1;
        let mut levels: Vec<u32> = Vec::new();
        levels.push(1);
        proof {
            lemma_rows_at_small(vertex_count, chunk_size, 32);
        }
        while Self::rows_at(vertex_count, coarsest) > chunk_size
            invariant
                0 < chunk_size < vertex_count,
                1 <= coarsest <= 32,
                rows_at_of(vertex_count, 32) <= chunk_size,
                levels_up_to(levels@, coarsest as int),
                forall|k: u32| 1 <= k < coarsest ==> #[trigger] rows_at_of(vertex_count, k) > chunk_size,
            decreases 32 - coarsest,
        {
            coarsest = coarsest + 1;
            levels.push(coarsest);
        }
        Some(VertexLevels { prefix: String::from_str(LEVEL_PREFIX_STEM), levels, chunk_size })
    }

    /// The prefix level `k`'s tiles live under — `<stem>{k}/`.
    pub fn level_prefix(&self, level: u32) -> (p: String)
        ensures
            p@ == self.prefix@ + decimal(level as nat) + "/"@,
    {
        let mut p = self.prefix.clone();
        push_decimal(&mut p, level as u64);
        p.append("/");
        p
    }

    /// This plan as the projections a manifest carries — one per level, finest
    /// first, each at `path: <stem>{k}/` and `scale: 4^k`.
    pub fn projections(&self, file_type: &str, properties: &[Property]) -> (r: Vec<Projection>)
        ensures
            r@.len() == self.levels@.len(),
            forall|i: int|
                0 <= i < r@.len() ==> #[trigger] r@[i]@ == (
                    self.prefix@ + decimal(self.levels@[i] as nat) + "/"@,
                    stride_of(self.levels@[i]),
                    None::<Seq<char>>,
                    None::<bool>,
                    file_type@,
                    props_view(properties@),
                ),
    {
        let mut r: Vec<Projection> = Vec::new();
        let mut i: usize = 0;
        while i < self.levels.len()
            invariant
                i <= self.levels@.len(),
                r@.len() == i,
                forall|j: int|
                    0 <= j < i ==> #[trigger] r@[j]@ == (
                        self.prefix@ + decimal(self.levels@[j] as nat) + "/"@,
                        stride_of(self.levels@[j]),
                        None::<Seq<char>>,
                        None::<bool>,
                        file_type@,
                        props_view(properties@),
                    ),
            decreases self.levels@.len() - i,
        {
            let level = self.levels[i];
            r.push(
                Projection {
                    path: self.level_prefix(level),
                    scale: Self::stride(level),
                    aligned_by: None,
                    ordered: None,
                    file_type: String::from_str(file_type),
                    properties: clone_properties(properties),
                },
            );
            i = i + 1;
        }
        r
    }
}

/// Past level 31 a level's stride saturates, so it holds at most one row.
proof fn lemma_rows_at_small(vertex_count: u64, chunk_size: u64, level: u32)
    requires
        level >= 32,
        chunk_size >= 1,
    ensures
        rows_at_of(vertex_count, level) <= chunk_size,
{
    let s = u64::MAX as nat;
    let a = vertex_count as nat;
    assert(a / s <= 1 && (a / s == 1 ==> a % s == 0)) by (nonlinear_arith)
        requires
            a <= s,
            s > 0,
    ;
}

/// Levels nest: every `dense_id` on level `k + 1` is on level `k`, since a
/// multiple of `4^(k+1)` is a multiple of `4^k`; zooming in only adds rows.
pub proof fn lemma_levels_nest(dense_id: u64, level: u32)
    requires
        level < 31,
        dense_id % stride_of((level + 1) as u32) == 0,
    ensures
        dense_id % stride_of(level) == 0,
{
    lemma_stride_fits(level);
    lemma_stride_fits((level + 1) as u32);
    lemma_pow4_divides(dense_id as nat, level as nat);
}

proof fn lemma_pow4_divides(dense_id: nat, level: nat)
    requires
        dense_id % pow4(level + 1) == 0,
    ensures
        dense_id % pow4(level) == 0,
{
    lemma_pow4_monotone(0, level);
    let p = pow4(level);
    assert(pow4(level + 1) == 4 * p);
    let q = dense_id / (4 * p);
    assert(dense_id == (4 * p) * q) by (nonlinear_arith)
        requires
            dense_id % (4 * p) == 0,
            p >= 1,
            q == dense_id / (4 * p),
    ;
    assert(dense_id == (4 * q) * p) by (nonlinear_arith)
        requires
            dense_id == (4 * p) * q,
    ;
    vstd::arithmetic::div_mod::lemma_mod_multiples_basic(4 * q as int, p as int);
}

// ───────────────────────────── coordinates and channels ─────────────────────────────

/// Where a coordinate system's values come from.
#[derive(Debug, Clone, Copy, PartialEq, Eq, Structural)]
pub enum Provenance {
    /// Positions measured on the earth.
    Geographic,
    /// Positions a model embedded the rows at.
    Embedded,
    /// Positions a layout pass computed.
    Derived,
}

/// A pair of columns a type declares as a position, and where it came from.
#[derive(Debug, Clone, PartialEq, Eq)]
pub struct CoordinateSystem {
    pub name: String,
    pub x: String,
    pub y: String,
    pub provenance: Provenance,
    /// What computed the position; set exactly when the provenance is
    /// [`Provenance::Derived`].
    pub derived_by: Option<String>,
}

impl CoordinateSystem {
    /// A position the writer computed, naming what computed it.
    pub fn derived(name: &str, x: &str, y: &str, derived_by: &str) -> (c: Self)
        ensures
            c.name@ == name@,
            c.x@ == x@,
            c.y@ == y@,
            c.provenance == Provenance::Derived,
            opt_view(c.derived_by) == Some(derived_by@),
    {
        CoordinateSystem {
            name: String::from_str(name),
            x: String::from_str(x),
            y: String::from_str(y),
            provenance: Provenance::Derived,
            derived_by: Some(String::from_str(derived_by)),
        }
    }

    /// A position that came with the data, which names no deriver.
    pub fn measured(name: &str, x: &str, y: &str, provenance: Provenance) -> (c: Self)
        ensures
            c.name@ == name@,
            c.x@ == x@,
            c.y@ == y@,
            c.provenance == provenance,
            c.derived_by is None,
    {
        CoordinateSystem {
            name: String::from_str(name),
            x: String::from_str(x),
            y: String::from_str(y),
            provenance,
            derived_by: None,
        }
    }

    /// Whether the position is data — measured or embedded — rather than a
    /// layout's output.
    pub fn is_data(&self) -> (b: bool)
        ensures
            b <==> (self.provenance == Provenance::Geographic || self.provenance
                == Provenance::Embedded),
    {
        match self.provenance {
            Provenance::Geographic | Provenance::Embedded => true,
            Provenance::Derived => false,
        }
    }
}

/// How a channel's values are read.
#[derive(Debug, Clone, Copy, PartialEq, Eq, Structural)]
pub enum Scale {
    Categorical,
    Quantitative,
}

/// A column a type declares as a visual channel.
#[derive(Debug, Clone, PartialEq, Eq)]
pub struct Channel {
    pub name: String,
    pub column: String,
    pub scale: Scale,
    /// How many categories a categorical channel has; `None` on a
    /// quantitative one.
    pub domain: Option<u64>,
    /// What computed the column, where the writer computed it.
    pub derived_by: Option<String>,
}

impl Channel {
    /// A categorical channel over `domain` categories, straight off the source.
    pub fn categorical(name: &str, column: &str, domain: u64) -> (c: Self)
        ensures
            c.name@ == name@,
            c.column@ == column@,
            c.scale == Scale::Categorical,
            c.domain == Some(domain),
            c.derived_by is None,
    {
        Channel {
            name: String::from_str(name),
            column: String::from_str(column),
            scale: Scale::Categorical,
            domain: Some(domain),
            derived_by: None,
        }
    }

    /// A quantitative channel, straight off the source.
    pub fn quantitative(name: &str, column: &str) -> (c: Self)
        ensures
            c.name@ == name@,
            c.column@ == column@,
            c.scale == Scale::Quantitative,
            c.domain is None,
            c.derived_by is None,
    {
        Channel {
            name: String::from_str(name),
            column: String::from_str(column),
            scale: Scale::Quantitative,
            domain: None,
            derived_by: None,
        }
    }

    /// Name what computed this channel's column; no other field moves.
    pub fn derived_by(self, what: &str) -> (c: Self)
        ensures
            c.name@ == self.name@,
            c.column@ == self.column@,
            c.scale == self.scale,
            c.domain == self.domain,
            opt_view(c.derived_by) == Some(what@),
    {
        let mut c = self;
        c.derived_by = Some(String::from_str(what));
        c
    }
}

// ───────────────────────────── holon trees ─────────────────────────────

/// The prefix a holon tree lives under, relative to the vertex type's prefix.
pub const HOLON_PREFIX: &'static str = "holon/";

/// How many vertices one finest cell holds when a mapping does not say — a
/// power of four.
pub const DEFAULT_VERTICES_PER_CELL: u64 = 16;

/// The filename stem of a rung: rung `k` lives under `r{k}/`.
pub const RUNG_PREFIX_STEM: &'static str = "r";

/// Where a rung's quotient graph lives, relative to the rung's own path.
pub const QUOTIENT_PREFIX: &'static str = "quotient/";

/// The graph between one rung's holons.
#[derive(Debug, Clone, PartialEq, Eq)]
pub struct HolonQuotient {
    pub path: String,
    pub edge_count: u64,
    pub properties: Vec<Property>,
}

/// One rung of a holon tree: a partition of the type into `holon_count`
/// synthetic rows.
#[derive(Debug, Clone, PartialEq, Eq)]
pub struct HolonRung {
    /// `r{k}/`, relative to the tree's prefix.
    pub path: String,
    pub holon_count: u64,
    pub properties: Vec<Property>,
    pub quotient: Option<HolonQuotient>,
}

/// A tree of synthetic rows over a vertex type, finest rung first.
#[derive(Debug, Clone, PartialEq, Eq)]
pub struct HolonTree {
    /// [`HOLON_PREFIX`].
    pub prefix: String,
    /// How many vertices one finest cell holds — a power of four.
    pub vertices_per_cell: u64,
    /// The relations the holons were cut along.
    pub relations: Vec<String>,
    /// Where the holons are placed; `None` where nothing was declared.
    pub coordinates: Option<Vec<CoordinateSystem>>,
    pub rungs: Vec<HolonRung>,
}

/// `k` with `v == 4^k`, where `v` is a power of four.
pub open spec fn quarter_exp(v: nat) -> Option<nat>
    decreases v,
{
    if v == 0 {
        None
    } else if v == 1 {
        Some(0)
    } else if v % 4 == 0 {
        match quarter_exp(v / 4) {
            Some(k) => Some(k + 1),
            None => None,
        }
    } else {
        None
    }
}

/// The bits a finest cell spans: `2k` for a base of `4^k`, `None` for any
/// other base.
pub open spec fn base_bits_of(vertices_per_cell: u64) -> Option<u32> {
    match quarter_exp(vertices_per_cell as nat) {
        Some(k) => Some((2 * k) as u32),
        None => None,
    }
}

/// `a + b`, saturating at `u32::MAX`.
pub open spec fn sat_add_u32(a: u32, b: u32) -> u32 {
    if a + b <= u32::MAX {
        (a + b) as u32
    } else {
        u32::MAX
    }
}

/// The bits a cell of rung `k` spans: the base's, plus `2(k - 1)`.
pub open spec fn shift_of(vertices_per_cell: u64, rung: u32) -> Option<u32> {
    match base_bits_of(vertices_per_cell) {
        Some(base) => Some(
            sat_add_u32(base, stride_bits_of(if rung >= 1 { (rung - 1) as u32 } else { 0 })),
        ),
        None => None,
    }
}

/// `2^shift`, saturating at `u64::MAX`.
pub open spec fn cells_of(shift: u32) -> nat {
    if shift < 64 {
        vstd::arithmetic::power2::pow2(shift as nat)
    } else {
        u64::MAX as nat
    }
}

/// How many holons rung `k` of a type of `vertex_count` rows has — at least
/// one.
pub open spec fn holons_of(vertex_count: u64, vertices_per_cell: u64, rung: u32) -> Option<u64> {
    match shift_of(vertices_per_cell, rung) {
        Some(shift) => {
            let c = ceil_div(vertex_count as nat, cells_of(shift));
            Some(if c >= 1 { c as u64 } else { 1u64 })
        },
        None => None,
    }
}

pub proof fn lemma_quarter_exp(v: nat)
    ensures
        quarter_exp(v) matches Some(k) ==> pow4(k) == v,
    decreases v,
{
    if v > 1 && v % 4 == 0 {
        lemma_quarter_exp(v / 4);
    }
}

pub proof fn lemma_quarter_exp_of_pow4(k: nat)
    ensures
        quarter_exp(pow4(k)) == Some(k),
    decreases k,
{
    if k > 0 {
        lemma_quarter_exp_of_pow4((k - 1) as nat);
        lemma_pow4_monotone(0, (k - 1) as nat);
        assert(pow4(k) == 4 * pow4((k - 1) as nat));
        assert(pow4(k) % 4 == 0 && pow4(k) / 4 == pow4((k - 1) as nat)) by (nonlinear_arith)
            requires
                pow4(k) == 4 * pow4((k - 1) as nat),
        ;
    }
}

/// A base is a power of four and nothing else: `4^k` gives `2k` bits, and
/// any other base gives none.
pub proof fn lemma_base_is_a_power_of_four(vertices_per_cell: u64)
    ensures
        base_bits_of(vertices_per_cell) matches Some(b) ==> b % 2 == 0 && pow4((b / 2) as nat)
            == vertices_per_cell,
        (exists|k: nat| pow4(k) == vertices_per_cell) ==> base_bits_of(vertices_per_cell) is Some,
{
    lemma_quarter_exp(vertices_per_cell as nat);
    if let Some(k) = quarter_exp(vertices_per_cell as nat) {
        lemma_pow4_fits(k, vertices_per_cell);
    }
    if exists|k: nat| pow4(k) == vertices_per_cell {
        let k = choose|k: nat| pow4(k) == vertices_per_cell;
        lemma_quarter_exp_of_pow4(k);
    }
}

/// A power of four that fits a `u64` has an exponent below 32.
proof fn lemma_pow4_fits(k: nat, v: u64)
    requires
        pow4(k) == v,
    ensures
        k < 32,
{
    lemma_pow4_below_fits(k);
}

proof fn lemma_pow4_below_fits(k: nat)
    requires
        pow4(k) <= u64::MAX,
    ensures
        k < 32,
{
    if k >= 32 {
        lemma_pow4_monotone(32, k);
        lemma_pow2_even(32);
        vstd::arithmetic::power2::lemma2_to64();
    }
}

proof fn lemma_pow2_even(k: nat)
    ensures
        vstd::arithmetic::power2::pow2(2 * k) == pow4(k),
    decreases k,
{
    if k == 0 {
        vstd::arithmetic::power2::lemma2_to64();
    } else {
        lemma_pow2_even((k - 1) as nat);
        vstd::arithmetic::power2::lemma_pow2_unfold(2 * k);
        vstd::arithmetic::power2::lemma_pow2_unfold((2 * k - 1) as nat);
    }
}

/// A level's stride is the power of two whose exponent is its stride bits:
/// written in binary, the stride of level `k` (for `k` up to 31) ends in
/// exactly `stride_bits(k)` zeros after its one set bit.
pub proof fn lemma_stride_is_its_bits(level: u32)
    requires
        level < 32,
    ensures
        stride_bits_of(level) == 2 * level,
        stride_of(level) as nat == vstd::arithmetic::power2::pow2(stride_bits_of(level) as nat),
{
    lemma_pow2_even(level as nat);
    lemma_stride_fits(level);
}

/// A level's stride written in binary ends in exactly its stride bits of
/// zeros: `stride(k).trailing_zeros() == stride_bits(k)` for `k` up to 31.
pub proof fn lemma_stride_trailing_zeros(level: u32)
    requires
        level < 32,
    ensures
        vstd::std_specs::bits::u64_trailing_zeros(stride_of(level)) == stride_bits_of(level),
{
    lemma_stride_is_its_bits(level);
    let x = stride_of(level);
    let s = (2 * level) as u64;
    vstd::arithmetic::power2::lemma_pow2_pos(s as nat);
    vstd::bits::lemma_u64_shl_is_mul(1u64, s);
    assert(x == 1u64 << s);
    vstd::std_specs::bits::axiom_u64_trailing_zeros(x);
    let t = vstd::std_specs::bits::u64_trailing_zeros(x) as u64;
    assert(x != 0) by (bit_vector)
        requires
            x == 1u64 << s,
            s < 64,
    ;
    assert((x >> t) & 1u64 == 1u64);
    if t < s {
        assert((x >> t) & 1u64 == 0u64) by (bit_vector)
            requires
                x == 1u64 << s,
                s < 64,
                t < s,
        ;
    }
    if t > s {
        assert((x >> s) & 1u64 == 0u64);
        assert((x >> s) & 1u64 == 1u64) by (bit_vector)
            requires
                x == 1u64 << s,
                s < 64,
        ;
    }
}

/// How many rows the levels hold together.
pub open spec fn level_rows(vertex_count: u64, levels: Seq<u32>) -> nat
    decreases levels.len(),
{
    if levels.len() == 0 {
        0
    } else {
        level_rows(vertex_count, levels.drop_last()) + rows_at_of(vertex_count, levels.last())
    }
}

/// `v / 4 + v / 16 + … + v / 4^n`, each quotient rounded down.
spec fn floor_sum(v: nat, n: nat) -> nat
    decreases n,
{
    if n == 0 {
        0
    } else {
        floor_sum(v, (n - 1) as nat) + v / pow4(n)
    }
}

proof fn lemma_floor_sum(v: nat, n: nat)
    requires
        1 <= n,
    ensures
        3 * floor_sum(v, n) + v / pow4(n) <= v,
    decreases n,
{
    if n == 1 {
        assert(pow4(1) == 4 * pow4(0));
        assert(floor_sum(v, 1) == floor_sum(v, 0) + v / pow4(1));
        assert(4 * (v / 4) <= v) by (nonlinear_arith);
    } else {
        lemma_floor_sum(v, (n - 1) as nat);
        let a = pow4((n - 1) as nat);
        lemma_pow4_monotone(0, (n - 1) as nat);
        assert(pow4(n) == 4 * a);
        vstd::arithmetic::div_mod::lemma_div_denominator(v as int, a as int, 4);
        assert(a * 4 == 4 * a);
        let q = v / a;
        assert(4 * (q / 4) <= q) by (nonlinear_arith);
    }
}

proof fn lemma_rows_le(v: u64, level: u32)
    requires
        1 <= level <= 32,
    ensures
        rows_at_of(v, level) <= (v as nat) / pow4(level as nat) + 1,
{
    lemma_pow4_monotone(0, level as nat);
    if level < 32 {
        lemma_stride_fits(level);
        let s = pow4(level as nat);
        assert(stride_of(level) as nat == s);
        let a = v as nat;
        assert(ceil_div(a, s) <= a / s + 1);
    } else {
        lemma_rows_at_small(v, 1, 32);
    }
}

proof fn lemma_level_rows(v: u64, levels: Seq<u32>)
    requires
        1 <= levels.len() <= 32,
        levels_up_to(levels, levels.len() as int),
    ensures
        level_rows(v, levels) <= floor_sum(v as nat, levels.len()) + levels.len(),
        level_rows(v, levels) >= rows_at_of(v, 1),
    decreases levels.len(),
{
    let n = levels.len();
    let d = levels.drop_last();
    assert(levels.last() == n);
    lemma_rows_le(v, n as u32);
    assert(level_rows(v, levels) == level_rows(v, d) + rows_at_of(v, n as u32));
    assert(floor_sum(v as nat, n) == floor_sum(v as nat, (n - 1) as nat) + (v as nat) / pow4(n));
    assert((n as u32) as nat == n);
    assert(rows_at_of(v, n as u32) <= (v as nat) / pow4(n) + 1);
    if n > 1 {
        assert(levels_up_to(d, d.len() as int)) by {
            assert forall|i: int| 0 <= i < d.len() implies #[trigger] d[i] == i + 1 by {
                assert(d[i] == levels[i]);
            }
        }
        lemma_level_rows(v, d);
        let lr = level_rows(v, d);
        let fs = floor_sum(v as nat, (n - 1) as nat);
        let q = (v as nat) / pow4(n);
        let r = rows_at_of(v, n as u32);
        assert(lr + r <= fs + q + n) by (nonlinear_arith)
            requires
                lr <= fs + (n - 1),
                r <= q + 1,
        ;
        assert(level_rows(v, levels) <= floor_sum(v as nat, n) + n);
    } else {
        assert(level_rows(v, d) == 0);
        assert(floor_sum(v as nat, 0) == 0);
    }
}

/// The complete pyramid costs about a third of the type, and never less than
/// a quarter: the rows of all its levels together are at most a third of the
/// type's rows plus one per level, and at least a quarter of them.
pub proof fn lemma_pyramid_cost(vertex_count: u64, chunk_size: u64, levels: Seq<u32>)
    requires
        chunk_size >= 1,
        is_coarsest(vertex_count, chunk_size, levels.len() as int),
        levels_up_to(levels, levels.len() as int),
    ensures
        level_rows(vertex_count, levels) <= vertex_count / 3 + levels.len(),
        4 * level_rows(vertex_count, levels) >= vertex_count,
{
    let n = levels.len();
    if n > 32 {
        lemma_rows_at_small(vertex_count, chunk_size, 32);
        assert(rows_at_of(vertex_count, 32) > chunk_size);
    }
    lemma_level_rows(vertex_count, levels);
    let v = vertex_count as nat;
    let g = floor_sum(v, n);
    lemma_floor_sum(v, n);
    lemma_pow4_monotone(0, n);
    assert(g <= v / 3) by (nonlinear_arith)
        requires
            3 * g <= v,
    ;
    assert(stride_of(1) == 4) by {
        assert(pow4(1) == 4 * pow4(0));
    }
    let r1 = rows_at_of(vertex_count, 1);
    assert(r1 == ceil_div(v, 4));
    assert(4 * ceil_div(v, 4) >= v) by (nonlinear_arith);
}

impl HolonRung {
    /// Rung `k` with `holon_count` holons, at `r{k}/`, with no quotient.
    pub fn at(rung: u32, holon_count: u64, properties: Vec<Property>) -> (r: Self)
        ensures
            r.path@ == RUNG_PREFIX_STEM@ + decimal(rung as nat) + "/"@,
            r.holon_count == holon_count,
            props_view(r.properties@) == props_view(properties@),
            r.quotient is None,
    {
        HolonRung { path: HolonTree::rung_prefix(rung), holon_count, properties, quotient: None }
    }

    /// Declare the rung's quotient graph.
    pub fn with_quotient(self, edge_count: u64, properties: Vec<Property>) -> (r: Self)
        ensures
            r.path@ == self.path@,
            r.holon_count == self.holon_count,
            props_view(r.properties@) == props_view(self.properties@),
            r.quotient matches Some(q) && q.path@ == QUOTIENT_PREFIX@ && q.edge_count == edge_count
                && props_view(q.properties@) == props_view(properties@),
    {
        let mut r = self;
        r.quotient = Some(
            HolonQuotient { path: String::from_str(QUOTIENT_PREFIX), edge_count, properties },
        );
        r
    }
}

impl HolonTree {
    /// A tree over `vertices_per_cell`-vertex cells, with no coordinates
    /// declared.
    pub fn new(vertices_per_cell: u64, relations: Vec<String>, rungs: Vec<HolonRung>) -> (t: Self)
        ensures
            t.prefix@ == HOLON_PREFIX@,
            t.vertices_per_cell == vertices_per_cell,
            t.relations@ == relations@,
            t.coordinates is None,
            t.rungs@ == rungs@,
    {
        HolonTree {
            prefix: String::from_str(HOLON_PREFIX),
            vertices_per_cell,
            relations,
            coordinates: None,
            rungs,
        }
    }

    /// The bits a finest cell spans, or `None` for a base that is not a
    /// power of four.
    pub fn base_bits(vertices_per_cell: u64) -> (b: Option<u32>)
        ensures
            b == base_bits_of(vertices_per_cell),
    {
        if vertices_per_cell == 0 {
            return None;
        }
        let mut x = vertices_per_cell;
        let mut k: u32 = 0;
        assert(pow4(0) == 1);
        while x % 4 == 0
            invariant
                x > 0,
                k < 32,
                x as nat * pow4(k as nat) == vertices_per_cell as nat,
                quarter_exp(vertices_per_cell as nat) == match quarter_exp(x as nat) {
                    Some(j) => Some((j + k) as nat),
                    None => None::<nat>,
                },
            decreases x,
        {
            proof {
                lemma_pow4_monotone(0, k as nat);
                assert(pow4((k + 1) as nat) == 4 * pow4(k as nat));
                assert((x / 4) as nat * pow4((k + 1) as nat) == vertices_per_cell as nat
                    && pow4((k + 1) as nat) <= vertices_per_cell as nat) by (nonlinear_arith)
                    requires
                        x as nat * pow4(k as nat) == vertices_per_cell as nat,
                        x % 4 == 0,
                        x > 0,
                        pow4((k + 1) as nat) == 4 * pow4(k as nat),
                ;
                lemma_pow4_below_fits((k + 1) as nat);
                assert(x != 1);
            }
            x = x / 4;
            k = k + 1;
        }
        if x == 1 {
            Some(2 * k)
        } else {
            None
        }
    }

    /// The bits a cell of rung `k` spans, saturating; `None` for a base that
    /// is not a power of four.
    pub fn shift_at(vertices_per_cell: u64, rung: u32) -> (s: Option<u32>)
        ensures
            s == shift_of(vertices_per_cell, rung),
    {
        match Self::base_bits(vertices_per_cell) {
            Some(base) => {
                let below = if rung >= 1 {
                    rung - 1
                } else {
                    0
                };
                let extra = VertexLevels::stride_bits(below);
                Some(
                    if base as u64 + extra as u64 <= u32::MAX as u64 {
                        base + extra
                    } else {
                        u32::MAX
                    },
                )
            },
            None => None,
        }
    }

    /// How many holons rung `k` of a type of `vertex_count` rows has — the
    /// type over the rung's cell size, rounded up, and at least one.
    pub fn holons_at(vertex_count: u64, vertices_per_cell: u64, rung: u32) -> (h: Option<u64>)
        ensures
            h == holons_of(vertex_count, vertices_per_cell, rung),
    {
        let shift = match Self::shift_at(vertices_per_cell, rung) {
            Some(s) => s,
            None => {
                return None;
            },
        };
        let cells: u64 = if shift < 64 {
            let sh = shift as u64;
            proof {
                vstd::bits::lemma_u64_pow2_no_overflow(sh as nat);
                vstd::bits::lemma_u64_shl_is_mul(1, sh);
                vstd::arithmetic::power2::lemma_pow2_pos(sh as nat);
            }
            1u64 << sh
        } else {
            u64::MAX
        };
        assert(cells as nat == cells_of(shift) && cells > 0);
        let q = vertex_count / cells;
        let c = if vertex_count % cells == 0 {
            q
        } else {
            assert(q < vertex_count) by (nonlinear_arith)
                requires
                    q == vertex_count / cells,
                    cells >= 1,
                    vertex_count % cells != 0,
            ;
            q + 1
        };
        Some(
            if c >= 1 {
                c
            } else {
                1
            },
        )
    }

    /// The prefix rung `k`'s holons live under — `r{k}/`.
    pub fn rung_prefix(rung: u32) -> (p: String)
        ensures
            p@ == RUNG_PREFIX_STEM@ + decimal(rung as nat) + "/"@,
    {
        let mut p = String::from_str(RUNG_PREFIX_STEM);
        push_decimal(&mut p, rung as u64);
        p.append("/");
        p
    }

    /// Declare where the holons are placed.
    pub fn with_coordinates(self, systems: Vec<CoordinateSystem>) -> (t: Self)
        ensures
            t.prefix@ == self.prefix@,
            t.vertices_per_cell == self.vertices_per_cell,
            t.relations@ == self.relations@,
            t.coordinates == Some(systems),
            t.rungs@ == self.rungs@,
    {
        let mut t = self;
        t.coordinates = Some(systems);
        t
    }
}

/// The counts of a run of rungs.
pub open spec fn rung_counts(rungs: Seq<HolonRung>) -> Seq<u64> {
    rungs.map_values(|r: HolonRung| r.holon_count)
}

/// Every rung holds at least one holon and at most a quarter (rounded up) of
/// the rung below it, the first measured against `below`.
pub open spec fn contracts(counts: Seq<u64>, below: nat) -> bool
    decreases counts.len(),
{
    if counts.len() == 0 {
        true
    } else {
        &&& counts[0] > 0
        &&& counts[0] <= ceil_div(below, 4)
        &&& contracts(counts.drop_first(), counts[0] as nat)
    }
}

/// The rungs of a planned tree: rung `k` (from 1) holds `holons_of(k)`
/// holons, and the tree stops at the first rung with a single holon.
pub open spec fn planned_rungs(
    rungs: Seq<HolonRung>,
    vertex_count: u64,
    vertices_per_cell: u64,
    properties: Seq<PropertyView>,
) -> bool {
    &&& rungs.len() >= 1
    &&& forall|i: int|
        0 <= i < rungs.len() ==> {
            &&& holons_of(vertex_count, vertices_per_cell, (i + 1) as u32) == Some(
                (#[trigger] rungs[i]).holon_count,
            )
            &&& rungs[i].path@ == RUNG_PREFIX_STEM@ + decimal((i + 1) as nat) + "/"@
            &&& props_view(rungs[i].properties@) == properties
            &&& rungs[i].quotient is None
        }
    &&& rungs.last().holon_count <= 1
    &&& forall|i: int| 0 <= i < rungs.len() - 1 ==> (#[trigger] rungs[i]).holon_count > 1
}

/// From rung 33 on a cell spans at least 64 bits, so the rung is one holon.
proof fn lemma_holons_top(vertex_count: u64, vertices_per_cell: u64, rung: u32)
    requires
        base_bits_of(vertices_per_cell) is Some,
        rung >= 33,
    ensures
        holons_of(vertex_count, vertices_per_cell, rung) == Some(1u64),
{
    let shift = shift_of(vertices_per_cell, rung).unwrap();
    assert(shift >= 64);
    let m = u64::MAX as nat;
    let v = vertex_count as nat;
    assert(ceil_div(v, m) <= 1) by (nonlinear_arith)
        requires
            v <= m,
            m > 0,
            ceil_div(v, m) == if v % m == 0 {
                v / m
            } else {
                v / m + 1
            },
    ;
}

impl HolonTree {
    /// The tree a type of `vertex_count` rows gets over `vertices_per_cell`
    /// cells: every rung from 1 to the first that is a single holon. `None`
    /// for a base that is not a power of four, and for a type that is one
    /// cell already.
    pub fn planned(
        vertex_count: u64,
        vertices_per_cell: u64,
        relations: Vec<String>,
        properties: &[Property],
    ) -> (t: Option<Self>)
        ensures
            t is None <==> (base_bits_of(vertices_per_cell) is None || vertex_count
                <= vertices_per_cell),
            t matches Some(tree) ==> {
                &&& tree.prefix@ == HOLON_PREFIX@
                &&& tree.vertices_per_cell == vertices_per_cell
                &&& tree.relations@ == relations@
                &&& tree.coordinates is None
                &&& planned_rungs(tree.rungs@, vertex_count, vertices_per_cell, props_view(properties@))
            },
    {
        if Self::base_bits(vertices_per_cell).is_none() {
            return None;
        }
        if vertex_count <= vertices_per_cell {
            return None;
        }
        let mut rungs: Vec<HolonRung> = Vec::new();
        let mut rung: u32 = 1;
        loop
            invariant_except_break
                base_bits_of(vertices_per_cell) is Some,
                1 <= rung <= 33,
                rungs@.len() == rung - 1,
                forall|i: int|
                    0 <= i < rungs@.len() ==> {
                        &&& holons_of(vertex_count, vertices_per_cell, (i + 1) as u32) == Some(
                            (#[trigger] rungs@[i]).holon_count,
                        )
                        &&& rungs@[i].path@ == RUNG_PREFIX_STEM@ + decimal((i + 1) as nat) + "/"@
                        &&& props_view(rungs@[i].properties@) == props_view(properties@)
                        &&& rungs@[i].quotient is None
                        &&& rungs@[i].holon_count > 1
                    },
            ensures
                planned_rungs(rungs@, vertex_count, vertices_per_cell, props_view(properties@)),
            decreases 34 - rung,
        {
            let h = match Self::holons_at(vertex_count, vertices_per_cell, rung) {
                Some(h) => h,
                None => {
                    return None;
                },
            };
            proof {
                if rung == 33 {
                    lemma_holons_top(vertex_count, vertices_per_cell, rung);
                }
            }
            rungs.push(HolonRung::at(rung, h, clone_properties(properties)));
            if h <= 1 {
                break;
            }
            rung = rung + 1;
        }
        Some(Self::new(vertices_per_cell, relations, rungs))
    }

    /// Whether every rung contracts the one below it by a factor of at least
    /// four (rounded up) and holds at least one holon, the first rung
    /// measured against `leaves`.
    pub fn contracts_by_at_least(&self, leaves: u64) -> (b: bool)
        ensures
            b == contracts(rung_counts(self.rungs@), leaves as nat),
    {
        let factor = VertexLevels::stride(1);
        assert(factor == 4) by {
            reveal_with_fuel(pow4, 2);
        }
        let ghost counts = rung_counts(self.rungs@);
        let mut below = leaves;
        let mut i: usize = 0;
        assert(counts.skip(0) =~= counts);
        while i < self.rungs.len()
            invariant
                factor == 4,
                counts == rung_counts(self.rungs@),
                i <= self.rungs@.len(),
                contracts(counts, leaves as nat) == contracts(counts.skip(i as int), below as nat),
            decreases self.rungs@.len() - i,
        {
            let count = self.rungs[i].holon_count;
            let q = below / factor;
            let limit = if below % factor == 0 {
                q
            } else {
                q + 1
            };
            proof {
                assert(counts.skip(i as int)[0] == count);
                assert(counts.skip(i as int).drop_first() =~= counts.skip(i + 1));
            }
            if !(count > 0 && count <= limit) {
                return false;
            }
            below = count;
            i = i + 1;
        }
        true
    }
}

/// `ceil(x / c)` is `(x + c - 1) / c`.
proof fn lemma_ceil_floor(x: nat, c: nat)
    requires
        c > 0,
    ensures
        ceil_div(x, c) == (x + c - 1) / (c as int),
{
    let q = (x / c) as int;
    let r = (x % c) as int;
    vstd::arithmetic::div_mod::lemma_fundamental_div_mod(x as int, c as int);
    vstd::arithmetic::div_mod::lemma_mod_bound(x as int, c as int);
    assert(x + c - 1 == (q + 1) * c + (r - 1)) by (nonlinear_arith)
        requires
            x == c * q + r,
    ;
    if r == 0 {
        vstd::arithmetic::div_mod::lemma_fundamental_div_mod_converse(
            x + c - 1,
            c as int,
            q,
            c - 1,
        );
    } else {
        vstd::arithmetic::div_mod::lemma_fundamental_div_mod_converse(
            x + c - 1,
            c as int,
            q + 1,
            r - 1,
        );
    }
}

/// Rounding up twice is rounding up once: `ceil(ceil(x / c) / d) ==
/// ceil(x / (c·d))`.
pub proof fn lemma_ceil_nested(x: nat, c: nat, d: nat)
    requires
        c > 0,
        d > 0,
    ensures
        ceil_div(ceil_div(x, c), d) == ceil_div(x, c * d),
{
    lemma_ceil_floor(x, c);
    vstd::arithmetic::mul::lemma_mul_strictly_positive(c as int, d as int);
    lemma_ceil_floor(ceil_div(x, c), d);
    lemma_ceil_floor(x, c * d);
    vstd::arithmetic::div_mod::lemma_hoist_over_denominator((x + c - 1) as int, (d - 1) as int, c);
    assert((x + c - 1) + (d - 1) * c == x + c * d - 1) by (nonlinear_arith);
    vstd::arithmetic::div_mod::lemma_div_denominator((x + c * d - 1) as int, c as int, d as int);
}

#[verifier::spinoff_prover]
/// A rung holds a quarter of the holons of the rung below it, rounded up:
/// the count of rung `k + 1` is `ceil(count of rung k / 4)`.
pub proof fn lemma_rung_is_a_quarter_of_the_one_below(
    vertex_count: u64,
    vertices_per_cell: u64,
    rung: u32,
)
    requires
        base_bits_of(vertices_per_cell) is Some,
        1 <= rung < u32::MAX,
    ensures
        holons_of(vertex_count, vertices_per_cell, (rung + 1) as u32) matches Some(h2)
            && holons_of(vertex_count, vertices_per_cell, rung) matches Some(h1) && h2 as nat
            == ceil_div(h1 as nat, 4),
{
    let base = base_bits_of(vertices_per_cell).unwrap();
    lemma_base_is_a_power_of_four(vertices_per_cell);
    lemma_holons_positive(vertex_count, vertices_per_cell, rung);
    lemma_holons_positive(vertex_count, vertices_per_cell, (rung + 1) as u32);
    let s1 = shift_of(vertices_per_cell, rung).unwrap();
    let s2 = shift_of(vertices_per_cell, (rung + 1) as u32).unwrap();
    let v = vertex_count as nat;
    let m = u64::MAX as nat;
    vstd::arithmetic::power2::lemma2_to64();
    if s2 < 64 {
        // no saturation: the cell grows by exactly four
        assert(s2 == s1 + 2);
        let c1 = vstd::arithmetic::power2::pow2(s1 as nat);
        vstd::arithmetic::power2::lemma_pow2_pos(s1 as nat);
        vstd::arithmetic::power2::lemma_pow2_adds(s1 as nat, 2);
        assert(cells_of(s2) == c1 * 4);
        lemma_ceil_nested(v, c1, 4);
        let a = ceil_div(v, c1);
        if a == 0 {
            assert(ceil_div(1, 4) == 1);
        } else {
            assert(ceil_div(a, 4) >= 1);
        }
    } else if s1 < 64 {
        // the rung below spans 62 bits, so it holds at most four holons
        assert(s1 == 62);
        vstd::arithmetic::power2::lemma2_to64_rest();
        let c1 = vstd::arithmetic::power2::pow2(62);
        assert(ceil_div(v, c1) <= 4) by (nonlinear_arith)
            requires
                v <= m,
                c1 == 0x4000_0000_0000_0000,
                m == 0xffff_ffff_ffff_ffff,
                ceil_div(v, c1) == if v % c1 == 0 {
                    v / c1
                } else {
                    v / c1 + 1
                },
        ;
        assert(ceil_div(v, m) <= 1) by (nonlinear_arith)
            requires
                v <= m,
                m > 0,
                ceil_div(v, m) == if v % m == 0 {
                    v / m
                } else {
                    v / m + 1
                },
        ;
    } else {
        assert(ceil_div(v, m) <= 1) by (nonlinear_arith)
            requires
                v <= m,
                m > 0,
                ceil_div(v, m) == if v % m == 0 {
                    v / m
                } else {
                    v / m + 1
                },
        ;
    }
}

/// `ceil(v / a)` rounds up: it is at least `v / a`, and no more than any `k`
/// with `k·a >= v`.
proof fn lemma_ceil_bounds(v: nat, a: nat, k: nat)
    requires
        a > 0,
    ensures
        ceil_div(v, a) * a >= v,
        v <= k * a ==> ceil_div(v, a) <= k,
{
    let q = v / a;
    let r = v % a;
    vstd::arithmetic::div_mod::lemma_fundamental_div_mod(v as int, a as int);
    vstd::arithmetic::div_mod::lemma_mod_bound(v as int, a as int);
    assert(ceil_div(v, a) * a >= v) by (nonlinear_arith)
        requires
            v == a * q + r,
            0 <= r < a,
            ceil_div(v, a) == if r == 0 {
                q
            } else {
                q + 1
            },
    ;
    if v <= k * a {
        assert(ceil_div(v, a) <= k) by (nonlinear_arith)
            requires
                v == a * q + r,
                0 <= r < a,
                v <= k * a,
                ceil_div(v, a) == if r == 0 {
                    q
                } else {
                    q + 1
                },
        ;
    }
}

proof fn lemma_contracts_from(
    counts: Seq<u64>,
    vertex_count: u64,
    vertices_per_cell: u64,
    i: int,
)
    requires
        vertices_per_cell >= 4,
        vertex_count > vertices_per_cell,
        base_bits_of(vertices_per_cell) is Some,
        0 <= i <= counts.len() <= 33,
        forall|j: int|
            0 <= j < counts.len() ==> holons_of(vertex_count, vertices_per_cell, (j + 1) as u32)
                == Some(#[trigger] counts[j]),
    ensures
        contracts(
            counts.skip(i),
            if i == 0 {
                vertex_count as nat
            } else {
                counts[i - 1] as nat
            },
        ),
    decreases counts.len() - i,
{
    if i < counts.len() {
        lemma_contracts_from(counts, vertex_count, vertices_per_cell, i + 1);
        assert(counts.skip(i).drop_first() =~= counts.skip(i + 1));
        assert(counts.skip(i)[0] == counts[i]);
        let here = counts[i] as nat;
        assert(holons_of(vertex_count, vertices_per_cell, (i + 1) as u32) == Some(counts[i]));
        lemma_holons_positive(vertex_count, vertices_per_cell, (i + 1) as u32);
        if i == 0 {
            let base = base_bits_of(vertices_per_cell).unwrap();
            lemma_base_is_a_power_of_four(vertices_per_cell);
            lemma_pow2_even((base / 2) as nat);
            assert(base < 64) by {
                lemma_pow4_fits((base / 2) as nat, vertices_per_cell);
            }
            assert(shift_of(vertices_per_cell, 1) == Some(base));
            assert(cells_of(base) == vertices_per_cell as nat);
            let v = vertex_count as nat;
            let k4 = ceil_div(v, 4);
            lemma_ceil_bounds(v, 4, k4);
            lemma_ceil_bounds(v, vertices_per_cell as nat, k4);
            assert(v <= k4 * vertices_per_cell) by (nonlinear_arith)
                requires
                    k4 * 4 >= v,
                    vertices_per_cell >= 4,
            ;
            assert(k4 >= 1);
        } else {
            lemma_rung_is_a_quarter_of_the_one_below(
                vertex_count,
                vertices_per_cell,
                i as u32,
            );
        }
    } else {
        assert(counts.skip(i).len() == 0);
    }
}

/// A planned tree contracts: every rung holds at least one holon and at most
/// a quarter (rounded up) of the rung below it, the first rung measured
/// against the type's vertex count. Holds for a finest cell of four or more
/// vertices.
pub proof fn lemma_planned_tree_contracts(
    rungs: Seq<HolonRung>,
    vertex_count: u64,
    vertices_per_cell: u64,
    properties: Seq<PropertyView>,
)
    requires
        vertices_per_cell >= 4,
        vertex_count > vertices_per_cell,
        base_bits_of(vertices_per_cell) is Some,
        planned_rungs(rungs, vertex_count, vertices_per_cell, properties),
    ensures
        contracts(rung_counts(rungs), vertex_count as nat),
{
    let counts = rung_counts(rungs);
    assert forall|j: int| 0 <= j < counts.len() implies holons_of(
        vertex_count,
        vertices_per_cell,
        (j + 1) as u32,
    ) == Some(#[trigger] counts[j]) by {
        assert(counts[j] == rungs[j].holon_count);
    }
    // a tree stops at its first single-holon rung, which is rung 33 at the latest
    assert(counts.len() <= 33) by {
        if counts.len() > 33 {
            lemma_holons_top(vertex_count, vertices_per_cell, 33);
            assert(rungs[32].holon_count > 1);
        }
    }
    lemma_contracts_from(counts, vertex_count, vertices_per_cell, 0);
    assert(counts.skip(0) =~= counts);
}

/// Every rung of a valid base holds at least one holon.
proof fn lemma_holons_positive(vertex_count: u64, vertices_per_cell: u64, rung: u32)
    requires
        base_bits_of(vertices_per_cell) is Some,
    ensures
        holons_of(vertex_count, vertices_per_cell, rung) matches Some(h) && h >= 1 && h as nat == {
            let c = ceil_div(
                vertex_count as nat,
                cells_of(shift_of(vertices_per_cell, rung).unwrap()),
            );
            if c >= 1 {
                c
            } else {
                1
            }
        },
{
    let shift = shift_of(vertices_per_cell, rung).unwrap();
    let cells = cells_of(shift);
    if shift < 64 {
        vstd::arithmetic::power2::lemma_pow2_pos(shift as nat);
    }
    assert(cells >= 1);
    let v = vertex_count as nat;
    lemma_ceil_bounds(v, cells, v);
    assert(v <= v * cells) by (nonlinear_arith)
        requires
            cells >= 1,
    ;
}

// ───────────────────────────── vertex, edge and graph infos ─────────────────────────────

/// A second order over a type's rows — a lookup index, tiled like the payload.
#[derive(Debug, Clone, PartialEq, Eq)]
pub struct VertexIndex {
    /// Path prefix of the index tiles, relative to the type's prefix.
    pub prefix: String,
    /// The column the tiles are sorted by.
    pub ordered_by: String,
    /// Rows per index tile.
    pub chunk_size: u64,
}

/// Which container carries a corpus's tiles.
#[derive(Debug, Clone, Copy, PartialEq, Eq, Structural)]
pub enum Container {
    /// One Parquet per tile, the address in the filename.
    Files,
    /// One Parquet per payload set, the address the row-group ordinal.
    RowGroups,
}

/// How a `NULL` in a quasi-identifier column is read when a bound is checked.
#[derive(Debug, Clone, Copy, PartialEq, Eq, Structural)]
pub enum AbsentQuasiIdentifier {
    /// The absence is a value of its own, one class like any other.
    Value,
    /// The absence matches every value of the column.
    Wildcard,
    /// The record is left out of the bound and charged to the budget.
    Suppress,
}

/// What a verified k-anonymity bound records: the bound asked for, what was
/// measured, and what a third party needs to measure it again.
#[derive(Debug, Clone, PartialEq, Eq)]
pub struct KAnonymity {
    /// The bound the policy asked for; the claim is `reached >= k`.
    pub k: u64,
    /// The smallest equivalence class measured over the released population.
    pub reached: u64,
    /// How an absent quasi-identifier is read.
    pub absent_quasi_identifier: AbsentQuasiIdentifier,
    /// The records the bound was measured over.
    pub population: u64,
    /// Records left out of the bound and charged to the budget.
    pub suppressed: u64,
    /// The suppression allowance, in parts per million of the population.
    pub suppression_budget_ppm: u64,
    /// The quasi-identifiers, as `<Type>.<column>` names split by spaces.
    pub quasi_identifiers: String,
    /// What was generalised to reach `k`, per column, in the same spelling.
    pub generalization: String,
    /// The identifier of the policy document the bound was checked against.
    pub policy: String,
    /// The profile IRI that policy declared.
    pub profile: String,
}

/// The privacy bound a corpus declares. `Undeclared` is written down: it
/// says the corpus carries no bound, and is never read as "public".
#[derive(Debug, Clone, PartialEq, Eq)]
pub enum Privacy {
    /// No bound.
    Undeclared,
    /// Every class over the quasi-identifiers holds at least `k` records.
    KAnonymity(KAnonymity),
}

/// One vertex type's manifest.
#[derive(Debug, Clone, PartialEq, Eq)]
pub struct VertexInfo {
    pub vertex_type: String,
    pub iri: String,
    pub vertex_count: u64,
    pub chunk_size: u64,
    pub prefix: String,
    pub projections: Vec<Projection>,
    pub index: Option<VertexIndex>,
    pub coordinates: Option<Vec<CoordinateSystem>>,
    pub channels: Option<Vec<Channel>>,
    pub holons: Option<HolonTree>,
    pub version: String,
}

/// Where the first projection at `scale: 1` is, searching from `k`.
pub open spec fn first_payload_from(ps: Seq<Projection>, k: int) -> Option<int>
    decreases ps.len() - k,
{
    if !(0 <= k < ps.len()) {
        None
    } else if ps[k].scale == 1 {
        Some(k)
    } else {
        first_payload_from(ps, k + 1)
    }
}

proof fn lemma_first_payload_from(ps: Seq<Projection>, k: int)
    requires
        0 <= k,
    ensures
        first_payload_from(ps, k) matches Some(i) ==> k <= i < ps.len() && ps[i].scale == 1,
    decreases ps.len() - k,
{
    if 0 <= k < ps.len() && ps[k].scale != 1 {
        lemma_first_payload_from(ps, k + 1);
    }
}

fn find_payload(ps: &Vec<Projection>) -> (r: Option<usize>)
    ensures
        match r {
            Some(i) => first_payload_from(ps@, 0) == Some(i as int) && i < ps@.len(),
            None => first_payload_from(ps@, 0) is None,
        },
{
    let mut i: usize = 0;
    while i < ps.len()
        invariant
            i <= ps@.len(),
            first_payload_from(ps@, 0) == first_payload_from(ps@, i as int),
        decreases ps@.len() - i,
    {
        if ps[i].scale == 1 {
            return Some(i);
        }
        i = i + 1;
    }
    None
}

impl VertexInfo {
    /// A vertex type's manifest at the current format version, with nothing
    /// else declared.
    pub fn new(
        vertex_type: &str,
        vertex_count: u64,
        chunk_size: u64,
        prefix: &str,
        projections: Vec<Projection>,
    ) -> (v: Self)
        ensures
            v.vertex_type@ == vertex_type@,
            v.iri@ == Seq::<char>::empty(),
            v.vertex_count == vertex_count,
            v.chunk_size == chunk_size,
            v.prefix@ == prefix@,
            v.projections@ == projections@,
            v.index is None,
            v.coordinates is None,
            v.channels is None,
            v.holons is None,
            v.version@ == GRAPHAR_VERSION@,
    {
        VertexInfo {
            vertex_type: String::from_str(vertex_type),
            iri: String::new(),
            vertex_count,
            chunk_size,
            prefix: String::from_str(prefix),
            projections,
            index: None,
            coordinates: None,
            channels: None,
            holons: None,
            version: String::from_str(GRAPHAR_VERSION),
        }
    }

    /// Declare the type's lookup index.
    pub fn with_index(self, index: VertexIndex) -> (v: Self)
        ensures
            v.index == Some(index),
            v.projections@ == self.projections@,
            v.coordinates == self.coordinates,
            v.channels == self.channels,
    {
        let mut v = self;
        v.index = Some(index);
        v
    }

    /// Declare the type's coordinate systems; an empty list is an answer.
    pub fn with_coordinates(self, systems: Vec<CoordinateSystem>) -> (v: Self)
        ensures
            v.coordinates == Some(systems),
            v.projections@ == self.projections@,
            v.index == self.index,
            v.channels == self.channels,
    {
        let mut v = self;
        v.coordinates = Some(systems);
        v
    }

    /// Declare the type's channels; an empty list is an answer.
    pub fn with_channels(self, channels: Vec<Channel>) -> (v: Self)
        ensures
            v.channels == Some(channels),
            v.projections@ == self.projections@,
            v.index == self.index,
            v.coordinates == self.coordinates,
    {
        let mut v = self;
        v.channels = Some(channels);
        v
    }

    /// Declare the type's holon tree.
    pub fn with_holons(self, holons: HolonTree) -> (v: Self)
        ensures
            v.holons == Some(holons),
            v.projections@ == self.projections@,
            v.index == self.index,
            v.coordinates == self.coordinates,
            v.channels == self.channels,
    {
        let mut v = self;
        v.holons = Some(holons);
        v
    }

    /// The declared coordinate systems that are data rather than a layout's
    /// output, in order.
    pub fn measured_coordinates(&self) -> (r: Vec<&CoordinateSystem>)
        ensures
            r@.len() <= match self.coordinates {
                Some(s) => s@.len(),
                None => 0,
            },
            forall|k: int| 0 <= k < r@.len() ==> (#[trigger] r@[k]).provenance != Provenance::Derived,
            self.coordinates matches Some(s) ==> r@ == s@.filter(
                |c: CoordinateSystem| c.provenance != Provenance::Derived,
            ).map_values(|c: CoordinateSystem| &c),
            self.coordinates is None ==> r@.len() == 0,
    {
        let mut r: Vec<&CoordinateSystem> = Vec::new();
        match &self.coordinates {
            Some(systems) => {
                let ghost s = systems@;
                let mut i: usize = 0;
                while i < systems.len()
                    invariant
                        s == systems@,
                        i <= s.len(),
                        r@ == s.take(i as int).filter(
                            |c: CoordinateSystem| c.provenance != Provenance::Derived,
                        ).map_values(|c: CoordinateSystem| &c),
                    decreases s.len() - i,
                {
                    let c = &systems[i];
                    proof {
                        assert(s.take(i + 1).drop_last() =~= s.take(i as int));
                        assert(s.take(i + 1).last() == *c);
                        s.take(i + 1).lemma_filter_push(
                            s.take(i + 1).last(),
                            |c: CoordinateSystem| c.provenance != Provenance::Derived,
                        );
                    }
                    let ghost before = r@;
                    if c.is_data() {
                        r.push(c);
                    }
                    proof {
                        let f = |c: CoordinateSystem| c.provenance != Provenance::Derived;
                        assert(s.take(i as int).push(*c) =~= s.take(i + 1));
                        s.take(i as int).lemma_filter_push(*c, f);
                        assert(r@ =~= s.take(i + 1).filter(f).map_values(|c: CoordinateSystem| &c));
                    }
                    i = i + 1;
                }
                proof {
                    assert(s.take(i as int) =~= s);
                    s.filter_lemma(|c: CoordinateSystem| c.provenance != Provenance::Derived);
                    assert forall|k: int| 0 <= k < r@.len() implies (#[trigger] r@[k]).provenance
                        != Provenance::Derived by {
                        assert(s.filter(|c: CoordinateSystem| c.provenance != Provenance::Derived).contains(
                            *r@[k],
                        ));
                    }
                }
            },
            None => {},
        }
        r
    }

    /// The type's payload: its first projection at `scale: 1`.
    pub fn payload(&self) -> (p: Option<&Projection>)
        ensures
            match p {
                Some(pr) => first_payload_from(self.projections@, 0) matches Some(i)
                    && self.projections@[i] == *pr,
                None => first_payload_from(self.projections@, 0) is None,
            },
    {
        match find_payload(&self.projections) {
            Some(i) => Some(&self.projections[i]),
            None => None,
        }
    }

    /// The payload's columns; none where there is no payload.
    pub fn properties(&self) -> (r: &[Property])
        ensures
            r@ == match first_payload_from(self.projections@, 0) {
                Some(i) => self.projections@[i].properties@,
                None => Seq::<Property>::empty(),
            },
    {
        match find_payload(&self.projections) {
            Some(i) => self.projections[i].properties.as_slice(),
            None => {
                let r: &[Property] = &[];
                assert(r@ =~= Seq::<Property>::empty());
                r
            },
        }
    }

    /// Add this plan's levels as projections, carrying the payload's file type
    /// and columns (`parquet` and none where there is no payload).
    pub fn with_levels(self, plan: &VertexLevels) -> (v: Self)
        ensures
            v.projections@.len() == self.projections@.len() + plan.levels@.len(),
            forall|k: int|
                0 <= k < self.projections@.len() ==> #[trigger] v.projections@[k]
                    == self.projections@[k],
            forall|k: int|
                0 <= k < plan.levels@.len() ==> #[trigger] v.projections@[self.projections@.len()
                    + k]@ == (
                    plan.prefix@ + decimal(plan.levels@[k] as nat) + "/"@,
                    stride_of(plan.levels@[k]),
                    None::<Seq<char>>,
                    None::<bool>,
                    match first_payload_from(self.projections@, 0) {
                        Some(i) => self.projections@[i].file_type@,
                        None => "parquet"@,
                    },
                    match first_payload_from(self.projections@, 0) {
                        Some(i) => props_view(self.projections@[i].properties@),
                        None => Seq::<PropertyView>::empty(),
                    },
                ),
            v.index == self.index,
            v.coordinates == self.coordinates,
            v.channels == self.channels,
    {
        let mut v = self;
        let (file_type, properties) = match find_payload(&v.projections) {
            Some(i) => (v.projections[i].file_type.clone(), clone_properties(&v.projections[i].properties)),
            None => (String::from_str("parquet"), Vec::new()),
        };
        proof {
            assert(props_view(Seq::<Property>::empty()) =~= Seq::<PropertyView>::empty());
        }
        let mut levels = plan.projections(file_type.as_str(), properties.as_slice());
        let ghost old_proj = v.projections@;
        let ghost lv = levels@;
        v.projections.append(&mut levels);
        assert(v.projections@ =~= old_proj + lv);
        v
    }
}

/// One edge type's manifest.
#[derive(Debug, Clone, PartialEq, Eq)]
pub struct EdgeInfo {
    pub src_type: String,
    pub edge_type: String,
    pub iri: String,
    pub dst_type: String,
    pub cardinality: Option<Cardinality>,
    pub edge_count: u64,
    pub chunk_size: u64,
    pub src_chunk_size: u64,
    pub dst_chunk_size: u64,
    pub directed: bool,
    pub prefix: String,
    pub projections: Vec<Projection>,
    pub version: String,
}

impl EdgeInfo {
    /// Add the source type's level plan as projections of this relation,
    /// each aligned by `src` and ordered.
    pub fn with_levels(self, plan: &VertexLevels, properties: &[Property]) -> (e: Self)
        ensures
            e.projections@.len() == self.projections@.len() + plan.levels@.len(),
            forall|k: int|
                0 <= k < self.projections@.len() ==> #[trigger] e.projections@[k]
                    == self.projections@[k],
            forall|k: int|
                0 <= k < plan.levels@.len() ==> #[trigger] e.projections@[self.projections@.len()
                    + k]@ == (
                    plan.prefix@ + decimal(plan.levels@[k] as nat) + "/"@,
                    stride_of(plan.levels@[k]),
                    Some("src"@),
                    Some(true),
                    "parquet"@,
                    props_view(properties@),
                ),
    {
        let mut e = self;
        let levels = plan.projections("parquet", properties);
        let mut aligned: Vec<Projection> = Vec::new();
        let ghost lv = levels@;
        let mut rest = levels;
        let mut i: usize = 0;
        let n = rest.len();
        let mut taken: Vec<Projection> = Vec::new();
        while rest.len() > 0
            invariant
                rest@.len() + taken@.len() == n,
                n == lv.len(),
                rest@ == lv.subrange(0, rest@.len() as int),
                taken@.len() == n - rest@.len(),
                forall|k: int|
                    0 <= k < taken@.len() ==> #[trigger] taken@[k]@ == (
                        lv[n - 1 - k]@.0,
                        lv[n - 1 - k]@.1,
                        Some("src"@),
                        Some(true),
                        lv[n - 1 - k]@.4,
                        lv[n - 1 - k]@.5,
                    ),
            decreases rest@.len(),
        {
            let p = rest.pop().unwrap();
            let ghost k = taken@.len();
            taken.push(p.aligned_by("src", true));
            assert(rest@ =~= lv.subrange(0, rest@.len() as int));
        }
        // `taken` holds the projections last first; put them back in order
        while taken.len() > 0
            invariant
                taken@.len() + aligned@.len() == n,
                n == lv.len(),
                forall|k: int|
                    0 <= k < taken@.len() ==> #[trigger] taken@[k]@ == (
                        lv[n - 1 - k]@.0,
                        lv[n - 1 - k]@.1,
                        Some("src"@),
                        Some(true),
                        lv[n - 1 - k]@.4,
                        lv[n - 1 - k]@.5,
                    ),
                forall|k: int|
                    0 <= k < aligned@.len() ==> #[trigger] aligned@[k]@ == (
                        lv[k]@.0,
                        lv[k]@.1,
                        Some("src"@),
                        Some(true),
                        lv[k]@.4,
                        lv[k]@.5,
                    ),
            decreases taken@.len(),
        {
            let p = taken.pop().unwrap();
            aligned.push(p);
        }
        let ghost old_proj = e.projections@;
        let ghost al = aligned@;
        e.projections.append(&mut aligned);
        assert(e.projections@ =~= old_proj + al);
        e
    }

    /// The adjacency aligned by `endpoint`: the first projection at
    /// `scale: 1` aligned by that column.
    pub fn adjacency(&self, endpoint: &str) -> (p: Option<&Projection>)
        ensures
            match p {
                Some(pr) => pr.scale == 1 && opt_view(pr.aligned_by) == Some(endpoint@)
                    && exists|i: int|
                    0 <= i < self.projections@.len() && self.projections@[i] == *pr && forall|
                        j: int,
                    |
                        0 <= j < i ==> !(#[trigger] self.projections@[j].scale == 1 && opt_view(
                            self.projections@[j].aligned_by,
                        ) == Some(endpoint@)),
                None => forall|j: int|
                    0 <= j < self.projections@.len() ==> !(#[trigger] self.projections@[j].scale
                        == 1 && opt_view(self.projections@[j].aligned_by) == Some(endpoint@)),
            },
    {
        let mut i: usize = 0;
        while i < self.projections.len()
            invariant
                i <= self.projections@.len(),
                forall|j: int|
                    0 <= j < i ==> !(#[trigger] self.projections@[j].scale == 1 && opt_view(
                        self.projections@[j].aligned_by,
                    ) == Some(endpoint@)),
            decreases self.projections@.len() - i,
        {
            let p = &self.projections[i];
            if p.scale == 1 {
                match &p.aligned_by {
                    Some(a) => {
                        if crate::strings::str_eq(a.as_str(), endpoint) {
                            return Some(p);
                        }
                    },
                    None => {},
                }
            }
            i = i + 1;
        }
        None
    }
}

/// The corpus's top-level manifest: every type's manifest, by path.
#[derive(Debug, Clone, PartialEq, Eq)]
pub struct GraphInfo {
    pub name: String,
    pub prefix: String,
    pub container: Container,
    /// The privacy bound the corpus declares, for the whole release.
    pub privacy: Privacy,
    pub vertices: Vec<String>,
    pub edges: Vec<String>,
    pub version: String,
}

impl GraphInfo {
    /// The graph manifest at the current format version.
    pub fn new(name: &str, prefix: &str, container: Container, vertices: Vec<String>, edges: Vec<String>) -> (g: Self)
        ensures
            g.name@ == name@,
            g.prefix@ == prefix@,
            g.container == container,
            g.privacy == Privacy::Undeclared,
            g.vertices@ == vertices@,
            g.edges@ == edges@,
            g.version@ == GRAPHAR_VERSION@,
    {
        GraphInfo {
            name: String::from_str(name),
            prefix: String::from_str(prefix),
            container,
            privacy: Privacy::Undeclared,
            vertices,
            edges,
            version: String::from_str(GRAPHAR_VERSION),
        }
    }

    /// Attach a verified privacy bound; nothing else changes.
    pub fn with_privacy(self, privacy: Privacy) -> (g: Self)
        ensures
            g.privacy == privacy,
            g.name == self.name,
            g.prefix == self.prefix,
            g.container == self.container,
            g.vertices == self.vertices,
            g.edges == self.edges,
            g.version == self.version,
    {
        let mut g = self;
        g.privacy = privacy;
        g
    }
}

} // verus!
