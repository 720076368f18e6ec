//! The DCAT-AP catalog as a sink plan.
//!
//! The catalog is just another output graph: from a run's governance values
//! and dataset structure ([`CatalogInput`]) this builds the DCAT-AP vertex and
//! edge tables the same writer materialises. Source relations are inline
//! `(VALUES …) AS t(col, …)`; subjects are URNs in the `urn:keasy:*`
//! namespace; literal columns carry their predicate IRI and XSD datatype.

use vstd::prelude::*;

use crate::decomp::{
    edges_view, vertices_view, EdgeTable, EdgeView, PropView, SinkPlan, VertexProperty, VertexTable,
    VertexView, IRI_COLUMN,
};
use crate::manifest::DEFAULT_CHUNK_SIZE;
use crate::strings::{decimal, decimal_string};

verus! {

// ───────────────────────────── vocabulary ─────────────────────────────

pub const DCAT_CATALOG: &'static str = "http://www.w3.org/ns/dcat#Catalog";
pub const DCAT_DATASET: &'static str = "http://www.w3.org/ns/dcat#Dataset";
pub const DCAT_DISTRIBUTION: &'static str = "http://www.w3.org/ns/dcat#Distribution";
pub const DCAT_ACCESS_URL: &'static str = "http://www.w3.org/ns/dcat#accessURL";
pub const DCAT_MEDIA_TYPE: &'static str = "http://www.w3.org/ns/dcat#mediaType";
pub const DCAT_KEYWORD: &'static str = "http://www.w3.org/ns/dcat#keyword";
pub const DCT_TITLE: &'static str = "http://purl.org/dc/terms/title";
pub const DCT_DESCRIPTION: &'static str = "http://purl.org/dc/terms/description";
pub const DCT_ISSUED: &'static str = "http://purl.org/dc/terms/issued";
pub const DCT_LICENSE: &'static str = "http://purl.org/dc/terms/license";
pub const DCT_SOURCE: &'static str = "http://purl.org/dc/terms/source";
pub const DCT_CONFORMS_TO: &'static str = "http://purl.org/dc/terms/conformsTo";
pub const DCT_LANGUAGE: &'static str = "http://purl.org/dc/terms/language";
pub const FOAF_AGENT: &'static str = "http://xmlns.com/foaf/0.1/Agent";
pub const FOAF_NAME: &'static str = "http://xmlns.com/foaf/0.1/name";
pub const FOAF_HOMEPAGE: &'static str = "http://xmlns.com/foaf/0.1/homepage";
pub const VCARD_KIND: &'static str = "http://www.w3.org/2006/vcard/ns#Kind";
pub const VCARD_HAS_EMAIL: &'static str = "http://www.w3.org/2006/vcard/ns#hasEmail";
pub const KEASY_FIELD: &'static str = "urn:keasy:vocab#Field";
pub const XSD_STRING: &'static str = "http://www.w3.org/2001/XMLSchema#string";
pub const XSD_DATETIME: &'static str = "http://www.w3.org/2001/XMLSchema#dateTime";

pub const EDGE_DATASET: &'static str = "dataset";
pub const EDGE_DISTRIBUTION: &'static str = "distribution";
pub const EDGE_FIELD: &'static str = "field";
pub const EDGE_PUBLISHER: &'static str = "publisher";
pub const EDGE_CONTACT_POINT: &'static str = "contactPoint";

// ───────────────────────────── input ─────────────────────────────

/// One field of a dataset's schema.
#[derive(Debug, Clone, PartialEq, Eq)]
pub struct CatalogField {
    pub name: String,
    pub rdf_uri: Option<String>,
    pub datatype: Option<String>,
}

/// One file a dataset was written to.
#[derive(Debug, Clone, PartialEq, Eq)]
pub struct CatalogDistribution {
    pub destination: String,
    pub media_type: String,
}

/// One dataset (vertex type) of a run.
#[derive(Debug, Clone, PartialEq, Eq)]
pub struct CatalogDataset {
    pub type_label: String,
    pub source_name: Option<String>,
    pub rdf_type: Option<String>,
    pub keywords: Vec<String>,
    pub entity_count: Option<u64>,
    pub fields: Vec<CatalogField>,
    pub distributions: Vec<CatalogDistribution>,
}

/// A run's governance values and dataset structure.
#[derive(Debug, Clone, PartialEq, Eq)]
pub struct CatalogInput {
    pub version: u32,
    pub job_id: String,
    pub job_name: Option<String>,
    pub completed_at: String,
    pub language: Option<String>,
    pub publisher_name: String,
    pub publisher_uri: Option<String>,
    pub catalog_description: Option<String>,
    pub license_uri: Option<String>,
    pub contact_email: Option<String>,
    pub datasets: Vec<CatalogDataset>,
}

// ───────────────────────────── text ─────────────────────────────

/// `s` with each `'` doubled.
pub open spec fn escape_quotes(s: Seq<char>) -> Seq<char>
    decreases s.len(),
{
    if s.len() == 0 {
        Seq::empty()
    } else if s.last() == '\'' {
        escape_quotes(s.drop_last()) + "''"@
    } else {
        escape_quotes(s.drop_last()).push(s.last())
    }
}

/// A single-quoted, escaped SQL string literal.
pub open spec fn quoted(s: Seq<char>) -> Seq<char> {
    "'"@ + escape_quotes(s) + "'"@
}

/// `s` with ` `, `<` and `>` percent-encoded.
pub open spec fn uri_encoded(s: Seq<char>) -> Seq<char>
    decreases s.len(),
{
    if s.len() == 0 {
        Seq::empty()
    } else if s.last() == ' ' {
        uri_encoded(s.drop_last()) + "%20"@
    } else if s.last() == '<' {
        uri_encoded(s.drop_last()) + "%3C"@
    } else if s.last() == '>' {
        uri_encoded(s.drop_last()) + "%3E"@
    } else {
        uri_encoded(s.drop_last()).push(s.last())
    }
}

/// The character at `i` of `s`, as a string of its own.
fn char_at(s: &str, i: usize) -> (r: &str)
    requires
        i < s@.len() <= usize::MAX,
    ensures
        r@ == seq![s@[i as int]],
{
    let r = s.substring_char(i, i + 1);
    assert(r@ =~= seq![s@[i as int]]);
    r
}

/// A single-quoted, escaped SQL string literal.
pub fn lit(s: &str) -> (r: String)
    ensures
        r@ == quoted(s@),
{
    let n = s.unicode_len();
    let mut r = String::from_str("'");
    let mut i: usize = 0;
    while i < n
        invariant
            n == s@.len(),
            i <= n,
            r@ == "'"@ + escape_quotes(s@.take(i as int)),
        decreases n - i,
    {
        proof {
            assert(s@.take(i + 1).drop_last() =~= s@.take(i as int));
        }
        if s.get_char(i) == '\'' {
            r.append("''");
        } else {
            r.append(char_at(s, i));
        }
        i = i + 1;
        proof {
            assert(r@ =~= "'"@ + escape_quotes(s@.take(i as int)));
        }
    }
    proof {
        assert(s@.take(n as int) =~= s@);
    }
    r.append("'");
    r
}

/// Percent-encode ` `, `<` and `>`.
pub fn encode_uri_component(s: &str) -> (r: String)
    ensures
        r@ == uri_encoded(s@),
{
    let n = s.unicode_len();
    let mut r = String::new();
    let mut i: usize = 0;
    while i < n
        invariant
            n == s@.len(),
            i <= n,
            r@ == uri_encoded(s@.take(i as int)),
        decreases n - i,
    {
        proof {
            assert(s@.take(i + 1).drop_last() =~= s@.take(i as int));
        }
        let c = s.get_char(i);
        if c == ' ' {
            r.append("%20");
        } else if c == '<' {
            r.append("%3C");
        } else if c == '>' {
            r.append("%3E");
        } else {
            r.append(char_at(s, i));
        }
        i = i + 1;
        proof {
            assert(r@ =~= uri_encoded(s@.take(i as int)));
        }
    }
    proof {
        assert(s@.take(n as int) =~= s@);
    }
    r
}

// ── slugs ──

/// Unicode's `White_Space` property, the white space `str::trim` removes:
/// tab to carriage return, space, next line, no-break space, ogham space
/// mark, the spaces from en quad to hair space, line and paragraph
/// separators, narrow no-break space, medium mathematical space and
/// ideographic space.
pub open spec fn white_space(c: char) -> bool {
    let u = c as u32;
    ||| 0x9 <= u <= 0xd
    ||| u == 0x20
    ||| u == 0x85
    ||| u == 0xa0
    ||| u == 0x1680
    ||| 0x2000 <= u <= 0x200a
    ||| u == 0x2028
    ||| u == 0x2029
    ||| u == 0x202f
    ||| u == 0x205f
    ||| u == 0x3000
}

/// The text without its leading white space.
pub open spec fn without_leading_space(s: Seq<char>) -> Seq<char>
    decreases s.len(),
{
    if s.len() > 0 && white_space(s[0]) {
        without_leading_space(s.drop_first())
    } else {
        s
    }
}

/// The text without its trailing white space.
pub open spec fn without_trailing_space(s: Seq<char>) -> Seq<char>
    decreases s.len(),
{
    if s.len() > 0 && white_space(s.last()) {
        without_trailing_space(s.drop_last())
    } else {
        s
    }
}

/// What `str::trim` leaves of a text: the text without its leading and
/// trailing white space.
pub open spec fn trimmed(s: Seq<char>) -> Seq<char> {
    without_trailing_space(without_leading_space(s))
}

/// What `str::to_lowercase` makes of a text: its Unicode lowercase mapping.
pub uninterp spec fn lowercased(s: Seq<char>) -> Seq<char>;

/// What `char::is_alphanumeric` says of a character: alphabetic or numeric
/// in Unicode's sense.
pub uninterp spec fn alphanumeric(c: char) -> bool;

/// Whether `c` is Unicode white space.
fn is_white_space(c: char) -> (b: bool)
    ensures
        b == white_space(c),
{
    let u = c as u32;
    (0x9 <= u && u <= 0xd) || u == 0x20 || u == 0x85 || u == 0xa0 || u == 0x1680 || (0x2000 <= u
        && u <= 0x200a) || u == 0x2028 || u == 0x2029 || u == 0x202f || u == 0x205f || u == 0x3000
}

/// The text without leading and trailing white space, as `str::trim` gives it.
fn trim_ws(s: &str) -> (r: &str)
    ensures
        r@ == trimmed(s@),
{
    let n = s.unicode_len();
    let mut a: usize = 0;
    assert(s@.subrange(0, n as int) =~= s@);
    while a < n && is_white_space(s.get_char(a))
        invariant
            n == s@.len(),
            a <= n,
            without_leading_space(s@) == without_leading_space(s@.subrange(a as int, n as int)),
        decreases n - a,
    {
        assert(s@.subrange(a as int, n as int).drop_first() =~= s@.subrange(a + 1, n as int));
        a = a + 1;
    }
    proof {
        if a < n {
            assert(s@.subrange(a as int, n as int)[0] == s@[a as int]);
        }
    }
    let ghost front = s@.subrange(a as int, n as int);
    let mut b: usize = n;
    assert(s@.subrange(a as int, b as int) =~= front);
    while b > a && is_white_space(s.get_char(b - 1))
        invariant
            n == s@.len(),
            a <= b <= n,
            front == s@.subrange(a as int, n as int),
            without_trailing_space(front) == without_trailing_space(s@.subrange(a as int, b as int)),
        decreases b - a,
    {
        assert(s@.subrange(a as int, b as int).drop_last() =~= s@.subrange(a as int, b - 1));
        assert(s@.subrange(a as int, b as int).last() == s@[b - 1]);
        b = b - 1;
    }
    proof {
        if b > a {
            assert(s@.subrange(a as int, b as int).last() == s@[b - 1]);
        }
    }
    s.substring_char(a, b)
}

/// `str::to_lowercase`: the text's Unicode lowercase mapping.
#[verifier::external_body]
fn to_lower(s: &str) -> (r: String)
    ensures
        r@ == lowercased(s@),
{
    s.to_lowercase()
}

/// `char::is_alphanumeric`; on ASCII it is exactly the letters and digits.
#[verifier::external_body]
fn is_alnum(c: char) -> (b: bool)
    ensures
        b == alphanumeric(c),
        (c as u32) < 128 ==> (b <==> (('a' <= c && c <= 'z') || ('A' <= c && c <= 'Z') || ('0' <= c
            && c <= '9'))),
{
    c.is_alphanumeric()
}

/// Every character that is not alphanumeric, `-` or `.` becomes `-`.
pub open spec fn dashed(s: Seq<char>) -> Seq<char> {
    s.map_values(|c: char| if !alphanumeric(c) && c != '-' && c != '.' { '-' } else { c })
}

/// `s` without its leading `-`s.
pub open spec fn trim_start_dashes(s: Seq<char>) -> Seq<char>
    decreases s.len(),
{
    if s.len() > 0 && s[0] == '-' {
        trim_start_dashes(s.drop_first())
    } else {
        s
    }
}

/// A slug: trimmed, lowercased, every other character than an alphanumeric,
/// `-` or `.` made a `-`, and no `-` at either end.
pub open spec fn slug_of(s: Seq<char>) -> Seq<char> {
    crate::strings::trim_end(trim_start_dashes(dashed(lowercased(trimmed(s)))), '-')
}

/// A slug of `s`, for a URN.
pub fn slug(s: &str) -> (r: String)
    ensures
        r@ == slug_of(s@),
{
    let low = to_lower(trim_ws(s));
    slug_from_lowered(low.as_str())
}

/// The slug of a text already trimmed and lowercased: every character other
/// than an alphanumeric, `-` or `.` made a `-`, and no `-` at either end.
pub fn slug_from_lowered(low: &str) -> (r: String)
    ensures
        r@ == crate::strings::trim_end(trim_start_dashes(dashed(low@)), '-'),
{
    let t = low;
    let n = t.unicode_len();
    let mut d = String::new();
    let mut i: usize = 0;
    while i < n
        invariant
            n == t@.len(),
            i <= n,
            d@ == dashed(t@.take(i as int)),
        decreases n - i,
    {
        let c = t.get_char(i);
        if !is_alnum(c) && c != '-' && c != '.' {
            d.append("-");
            proof {
                reveal_strlit("-");
            }
        } else {
            d.append(char_at(t, i));
        }
        i = i + 1;
        proof {
            assert(d@ =~= dashed(t@.take(i as int)));
        }
    }
    proof {
        assert(t@.take(n as int) =~= t@);
    }
    let ds = d.as_str();
    let m = ds.unicode_len();
    let mut a: usize = 0;
    assert(ds@.subrange(0, m as int) =~= ds@);
    while a < m && ds.get_char(a) == '-'
        invariant
            m == ds@.len(),
            a <= m,
            trim_start_dashes(ds@.subrange(a as int, m as int)) == trim_start_dashes(ds@),
        decreases m - a,
    {
        assert(ds@.subrange(a as int, m as int).drop_first() =~= ds@.subrange(a + 1, m as int));
        a = a + 1;
    }
    let mut b: usize = m;
    proof {
        if a < m {
            assert(ds@.subrange(a as int, m as int)[0] == ds@[a as int]);
        }
    }
    let ghost front = ds@.subrange(a as int, m as int);
    assert(ds@.subrange(a as int, b as int) =~= front);
    while b > a && ds.get_char(b - 1) == '-'
        invariant
            m == ds@.len(),
            a <= b <= m,
            front == trim_start_dashes(ds@),
            crate::strings::trim_end(ds@.subrange(a as int, b as int), '-')
                == crate::strings::trim_end(front, '-'),
        decreases b - a,
    {
        assert(ds@.subrange(a as int, b as int).drop_last() =~= ds@.subrange(a as int, b - 1));
        b = b - 1;
    }
    proof {
        if b > a {
            assert(ds@.subrange(a as int, b as int).last() == ds@[b - 1]);
        }
    }
    String::from_str(ds.substring_char(a, b))
}

// ───────────────────────────── URNs ─────────────────────────────

pub open spec fn catalog_urn_of(job_id: Seq<char>) -> Seq<char> {
    "urn:keasy:catalog:"@ + job_id
}

pub open spec fn dataset_urn_of(job_id: Seq<char>, type_label: Seq<char>) -> Seq<char> {
    "urn:keasy:dataset:"@ + job_id + "/"@ + uri_encoded(type_label)
}

pub open spec fn distribution_urn_of(job_id: Seq<char>, filename: Seq<char>) -> Seq<char> {
    "urn:keasy:dist:"@ + job_id + "/"@ + uri_encoded(filename)
}

pub open spec fn publisher_urn_of(name: Seq<char>) -> Seq<char> {
    "urn:keasy:publisher:"@ + slug_of(name)
}

pub open spec fn contact_urn_of(email: Seq<char>) -> Seq<char> {
    "urn:keasy:contact:"@ + slug_of(email)
}

pub open spec fn field_urn_of(job_id: Seq<char>, type_label: Seq<char>, field: Seq<char>) -> Seq<
    char,
> {
    "urn:keasy:field:"@ + job_id + "/"@ + uri_encoded(type_label) + "/"@ + uri_encoded(field)
}

pub fn catalog_urn(job_id: &str) -> (r: String)
    ensures
        r@ == catalog_urn_of(job_id@),
{
    let mut r = String::from_str("urn:keasy:catalog:");
    r.append(job_id);
    r
}

pub fn dataset_urn(job_id: &str, type_label: &str) -> (r: String)
    ensures
        r@ == dataset_urn_of(job_id@, type_label@),
{
    let mut r = String::from_str("urn:keasy:dataset:");
    r.append(job_id);
    r.append("/");
    r.append(encode_uri_component(type_label).as_str());
    r
}

pub fn distribution_urn(job_id: &str, filename: &str) -> (r: String)
    ensures
        r@ == distribution_urn_of(job_id@, filename@),
{
    let mut r = String::from_str("urn:keasy:dist:");
    r.append(job_id);
    r.append("/");
    r.append(encode_uri_component(filename).as_str());
    r
}

pub fn publisher_urn(name: &str) -> (r: String)
    ensures
        r@ == publisher_urn_of(name@),
{
    let mut r = String::from_str("urn:keasy:publisher:");
    r.append(slug(name).as_str());
    r
}

pub fn contact_urn(email: &str) -> (r: String)
    ensures
        r@ == contact_urn_of(email@),
{
    let mut r = String::from_str("urn:keasy:contact:");
    r.append(slug(email).as_str());
    r
}

pub fn field_urn(job_id: &str, type_label: &str, field_name: &str) -> (r: String)
    ensures
        r@ == field_urn_of(job_id@, type_label@, field_name@),
{
    let mut r = String::from_str("urn:keasy:field:");
    r.append(job_id);
    r.append("/");
    r.append(encode_uri_component(type_label).as_str());
    r.append("/");
    r.append(encode_uri_component(field_name).as_str());
    r
}

// ───────────────────────────── relations ─────────────────────────────

/// `items` joined by `", "`.
pub open spec fn comma_joined(items: Seq<Seq<char>>) -> Seq<char>
    decreases items.len(),
{
    if items.len() == 0 {
        Seq::empty()
    } else if items.len() == 1 {
        items[0]
    } else {
        comma_joined(items.drop_last()) + ", "@ + items.last()
    }
}

pub open spec fn strings_view(v: Seq<String>) -> Seq<Seq<char>> {
    v.map_values(|s: String| s@)
}

/// Rows of ready SQL literals, as text.
pub open spec fn rows_view(rows: Seq<Vec<String>>) -> Seq<Seq<Seq<char>>> {
    rows.map_values(|r: Vec<String>| strings_view(r@))
}

/// `(VALUES (r0…), (r1…), …) AS alias("c0", "c1", …)`.
pub open spec fn values_sql(alias: Seq<char>, columns: Seq<Seq<char>>, rows: Seq<Seq<Seq<char>>>) -> Seq<
    char,
> {
    "(VALUES "@ + comma_joined(rows.map_values(|r: Seq<Seq<char>>| "("@ + comma_joined(r) + ")"@))
        + ") AS "@ + alias + "("@ + comma_joined(
        columns.map_values(|c: Seq<char>| "\""@ + c + "\""@),
    ) + ")"@
}

/// Append `items` joined by `", "`, each wrapped as `open item close`.
fn push_joined(out: &mut String, items: &[String], open: &str, close: &str)
    ensures
        final(out)@ == old(out)@ + comma_joined(
            strings_view(items@).map_values(|c: Seq<char>| open@ + c + close@),
        ),
{
    let ghost start = out@;
    let ghost wrapped = strings_view(items@).map_values(|c: Seq<char>| open@ + c + close@);
    let mut i: usize = 0;
    while i < items.len()
        invariant
            i <= items@.len(),
            wrapped == strings_view(items@).map_values(|c: Seq<char>| open@ + c + close@),
            out@ == start + comma_joined(wrapped.take(i as int)),
        decreases items@.len() - i,
    {
        proof {
            assert(wrapped.take(i + 1).drop_last() =~= wrapped.take(i as int));
            assert(wrapped[i as int] == open@ + items@[i as int]@ + close@);
        }
        if i > 0 {
            out.append(", ");
        }
        out.append(open);
        out.append(items[i].as_str());
        out.append(close);
        i = i + 1;
        proof {
            if i == 1 {
                assert(wrapped.take(1) =~= seq![wrapped[0]]);
                assert(out@ =~= start + comma_joined(wrapped.take(i as int)));
            } else {
                assert(out@ =~= start + comma_joined(wrapped.take(i as int)));
            }
        }
    }
    proof {
        assert(wrapped.take(i as int) =~= wrapped);
    }
}

proof fn lemma_wrap_nothing(v: Seq<Seq<char>>)
    ensures
        v.map_values(|c: Seq<char>| ""@ + c + ""@) == v,
{
    reveal_strlit("");
    assert(v.map_values(|c: Seq<char>| ""@ + c + ""@) =~= v);
}

/// Render `(VALUES (…), …) AS alias("c0", "c1", …)`; each row holds one
/// ready SQL literal per column.
pub fn values_relation(alias: &str, columns: &[String], rows: &[Vec<String>]) -> (r: String)
    ensures
        r@ == values_sql(alias@, strings_view(columns@), rows_view(rows@)),
{
    let mut r = String::from_str("(VALUES ");
    let ghost start = r@;
    let ghost rendered = rows_view(rows@).map_values(
        |row: Seq<Seq<char>>| "("@ + comma_joined(row) + ")"@,
    );
    let mut i: usize = 0;
    while i < rows.len()
        invariant
            i <= rows@.len(),
            rendered == rows_view(rows@).map_values(
                |row: Seq<Seq<char>>| "("@ + comma_joined(row) + ")"@,
            ),
            r@ == start + comma_joined(rendered.take(i as int)),
        decreases rows@.len() - i,
    {
        proof {
            assert(rendered.take(i + 1).drop_last() =~= rendered.take(i as int));
        }
        if i > 0 {
            r.append(", ");
        }
        r.append("(");
        push_joined(&mut r, rows[i].as_slice(), "", "");
        proof {
            lemma_wrap_nothing(strings_view(rows@[i as int]@));
        }
        r.append(")");
        i = i + 1;
        proof {
            if i == 1 {
                assert(rendered.take(1) =~= seq![rendered[0]]);
            }
            assert(r@ =~= start + comma_joined(rendered.take(i as int)));
        }
    }
    proof {
        assert(rendered.take(i as int) =~= rendered);
    }
    r.append(") AS ");
    r.append(alias);
    r.append("(");
    push_joined(&mut r, columns, "\"", "\"");
    r.append(")");
    assert(r@ =~= values_sql(alias@, strings_view(columns@), rows_view(rows@)));
    r
}

// ───────────────────────────── tables ─────────────────────────────

/// A literal-object property column, carrying its predicate and XSD datatype.
pub open spec fn prop_of(name: Seq<char>, rdf_uri: Seq<char>, xsd: Seq<char>) -> PropView {
    (name, "string"@, Some(rdf_uri), Some(xsd), true)
}

/// A data column with no predicate or datatype IRI.
pub open spec fn data_col_of(name: Seq<char>, graphar: Seq<char>) -> PropView {
    (name, graphar, None, None, true)
}

pub fn prop(name: &str, rdf_uri: &str, xsd: &str) -> (p: VertexProperty)
    ensures
        p@ == prop_of(name@, rdf_uri@, xsd@),
{
    VertexProperty {
        name: String::from_str(name),
        data_type: String::from_str("string"),
        rdf_uri: Some(String::from_str(rdf_uri)),
        xsd_datatype: Some(String::from_str(xsd)),
        single_valued: true,
    }
}

pub fn data_col(name: &str, graphar: &str) -> (p: VertexProperty)
    ensures
        p@ == data_col_of(name@, graphar@),
{
    VertexProperty {
        name: String::from_str(name),
        data_type: String::from_str(graphar),
        rdf_uri: None,
        xsd_datatype: None,
        single_valued: true,
    }
}

pub open spec fn props_view(v: Seq<VertexProperty>) -> Seq<PropView> {
    v.map_values(|p: VertexProperty| p@)
}

/// The vertex table of one catalog type: its rows under the columns `iri`
/// and the properties, aliased `cat_<lowercased type>`.
pub open spec fn vertex_of(
    type_label: Seq<char>,
    rdf_type: Seq<char>,
    props: Seq<PropView>,
    rows: Seq<Seq<Seq<char>>>,
) -> VertexView {
    (
        type_label,
        Some(rdf_type),
        IRI_COLUMN@,
        props,
        values_sql(
            "cat_"@ + lowercased(type_label),
            seq![IRI_COLUMN@] + props.map_values(|p: PropView| p.0),
            rows,
        ),
    )
}

pub fn vertex(type_label: &str, rdf_type: &str, props: Vec<VertexProperty>, rows: &[Vec<String>]) -> (v:
    VertexTable)
    ensures
        v@ == vertex_of(type_label@, rdf_type@, props_view(props@), rows_view(rows@)),
{
    let mut columns: Vec<String> = Vec::new();
    columns.push(String::from_str(IRI_COLUMN));
    let mut i: usize = 0;
    while i < props.len()
        invariant
            i <= props@.len(),
            columns@.len() == i + 1,
            columns@[0]@ == IRI_COLUMN@,
            forall|k: int| 0 <= k < i ==> #[trigger] columns@[k + 1]@ == props@[k].name@,
        decreases props@.len() - i,
    {
        columns.push(props[i].name.clone());
        i = i + 1;
    }
    let mut alias = String::from_str("cat_");
    alias.append(to_lower(type_label).as_str());
    let source_relation = values_relation(alias.as_str(), columns.as_slice(), rows);
    let ghost names = seq![IRI_COLUMN@] + props_view(props@).map_values(|p: PropView| p.0);
    assert forall|k: int| 0 <= k < columns@.len() implies #[trigger] strings_view(columns@)[k]
        == names[k] by {
        if k > 0 {
            assert(columns@[(k - 1) + 1]@ == props@[k - 1].name@);
        }
    }
    assert(strings_view(columns@) =~= names);
    let v = VertexTable {
        type_label: String::from_str(type_label),
        rdf_type: Some(String::from_str(rdf_type)),
        vertex_id_col: String::from_str(IRI_COLUMN),
        properties: props,
        source_relation,
    };
    assert(v@.3 =~= props_view(props@));
    v
}

/// The `(src, dst)` literal rows of an edge's pairs.
pub open spec fn pair_rows(pairs: Seq<(Seq<char>, Seq<char>)>) -> Seq<Seq<Seq<char>>> {
    pairs.map_values(|p: (Seq<char>, Seq<char>)| seq![quoted(p.0), quoted(p.1)])
}

/// The edge table of one catalog relation, or `None` when it has no pairs.
pub open spec fn edge_of_pairs(
    label: Seq<char>,
    src_type: Seq<char>,
    dst_type: Seq<char>,
    pairs: Seq<(Seq<char>, Seq<char>)>,
) -> Option<EdgeView> {
    if pairs.len() == 0 {
        None
    } else {
        Some(
            (
                src_type,
                label,
                dst_type,
                "src"@,
                "dst"@,
                false,
                values_sql("e"@, seq!["src"@, "dst"@], pair_rows(pairs)),
            ),
        )
    }
}

pub open spec fn pairs_view(v: Seq<(String, String)>) -> Seq<(Seq<char>, Seq<char>)> {
    v.map_values(|p: (String, String)| (p.0@, p.1@))
}

pub fn edge(label: &str, src_type: &str, dst_type: &str, pairs: Vec<(String, String)>) -> (e: Option<
    EdgeTable,
>)
    ensures
        match e {
            Some(t) => edge_of_pairs(label@, src_type@, dst_type@, pairs_view(pairs@)) == Some(t@),
            None => edge_of_pairs(label@, src_type@, dst_type@, pairs_view(pairs@)) is None,
        },
{
    if pairs.len() == 0 {
        return None;
    }
    let mut rows: Vec<Vec<String>> = Vec::new();
    let mut i: usize = 0;
    while i < pairs.len()
        invariant
            i <= pairs@.len(),
            rows@.len() == i,
            forall|k: int|
                0 <= k < i ==> #[trigger] strings_view(rows@[k]@) == seq![
                    quoted(pairs@[k].0@),
                    quoted(pairs@[k].1@),
                ],
        decreases pairs@.len() - i,
    {
        let mut row: Vec<String> = Vec::new();
        row.push(lit(pairs[i].0.as_str()));
        row.push(lit(pairs[i].1.as_str()));
        assert(strings_view(row@) =~= seq![quoted(pairs@[i as int].0@), quoted(pairs@[i as int].1@)]);
        rows.push(row);
        i = i + 1;
    }
    assert(rows_view(rows@) =~= pair_rows(pairs_view(pairs@)));
    let mut columns: Vec<String> = Vec::new();
    columns.push(String::from_str("src"));
    columns.push(String::from_str("dst"));
    assert(strings_view(columns@) =~= seq!["src"@, "dst"@]);
    Some(
        EdgeTable {
            src_type: String::from_str(src_type),
            predicate: String::from_str(label),
            dst_type: String::from_str(dst_type),
            src_id_expr: String::from_str("src"),
            dst_id_expr: String::from_str("dst"),
            single_valued: false,
            source_relation: values_relation("e", columns.as_slice(), rows.as_slice()),
        },
    )
}

// ───────────────────────────── the catalog ─────────────────────────────

pub open spec fn or_default(o: Option<String>, d: Seq<char>) -> Seq<char> {
    match o {
        Some(s) => s@,
        None => d,
    }
}

fn opt_or(o: &Option<String>, d: &str) -> (r: String)
    ensures
        r@ == or_default(*o, d@),
{
    match o {
        Some(s) => s.clone(),
        None => String::from_str(d),
    }
}

/// Where the last `/`-separated segment of `s[..k]` starts.
pub open spec fn segment_start(s: Seq<char>, k: int) -> int
    decreases k,
{
    if k <= 0 {
        0
    } else if s[k - 1] == '/' {
        k
    } else {
        segment_start(s, k - 1)
    }
}

/// The file name of a destination: its last `/`-separated segment.
pub open spec fn filename_of(s: Seq<char>) -> Seq<char> {
    s.subrange(segment_start(s, s.len() as int), s.len() as int)
}

proof fn lemma_segment_start(s: Seq<char>, k: int)
    requires
        0 <= k <= s.len(),
    ensures
        0 <= segment_start(s, k) <= k,
    decreases k,
{
    if k > 0 && s[k - 1] != '/' {
        lemma_segment_start(s, k - 1);
    }
}

fn filename(s: &str) -> (r: &str)
    ensures
        r@ == filename_of(s@),
{
    let n = s.unicode_len();
    let mut k = n;
    while k > 0 && s.get_char(k - 1) != '/'
        invariant
            n == s@.len(),
            k <= n,
            segment_start(s@, k as int) == segment_start(s@, n as int),
        decreases k,
    {
        k = k - 1;
    }
    proof {
        lemma_segment_start(s@, n as int);
    }
    s.substring_char(k, n)
}

pub open spec fn catalog_iri_of(input: CatalogInput) -> Seq<char> {
    catalog_urn_of(input.job_id@)
}

pub open spec fn agent_iri_of(input: CatalogInput) -> Seq<char> {
    match input.publisher_uri {
        Some(u) => u@,
        None => publisher_urn_of(input.publisher_name@),
    }
}

pub open spec fn catalog_props() -> Seq<PropView> {
    seq![
        prop_of("title"@, DCT_TITLE@, XSD_STRING@),
        prop_of("description"@, DCT_DESCRIPTION@, XSD_STRING@),
        prop_of("issued"@, DCT_ISSUED@, XSD_DATETIME@),
        prop_of("language"@, DCT_LANGUAGE@, XSD_STRING@),
        prop_of("license"@, DCT_LICENSE@, XSD_STRING@),
    ]
}

pub open spec fn catalog_row(input: CatalogInput) -> Seq<Seq<char>> {
    seq![
        quoted(catalog_iri_of(input)),
        quoted(or_default(input.job_name, "Keasy Pipeline Output"@)),
        quoted(or_default(input.catalog_description, ""@)),
        quoted(input.completed_at@),
        quoted(or_default(input.language, "en"@)),
        quoted(or_default(input.license_uri, ""@)),
    ]
}

pub open spec fn dataset_props() -> Seq<PropView> {
    seq![
        prop_of("title"@, DCT_TITLE@, XSD_STRING@),
        prop_of("source"@, DCT_SOURCE@, XSD_STRING@),
        prop_of("conforms_to"@, DCT_CONFORMS_TO@, XSD_STRING@),
        prop_of("keywords"@, DCAT_KEYWORD@, XSD_STRING@),
        data_col_of("entity_count"@, "int64"@),
    ]
}

pub open spec fn count_of(c: Option<u64>) -> nat {
    match c {
        Some(n) => n as nat,
        None => 0,
    }
}

pub open spec fn dataset_row(job_id: Seq<char>, ds: CatalogDataset) -> Seq<Seq<char>> {
    seq![
        quoted(dataset_urn_of(job_id, ds.type_label@)),
        quoted(ds.type_label@),
        quoted(or_default(ds.source_name, ""@)),
        quoted(or_default(ds.rdf_type, ""@)),
        quoted(comma_joined(strings_view(ds.keywords@))),
        decimal(count_of(ds.entity_count)),
    ]
}

/// `x` stands somewhere in `s`.
#[verifier::opaque]
pub open spec fn occurs_in(x: Seq<char>, s: Seq<char>) -> bool {
    exists|p: int| 0 <= p && p + x.len() <= s.len() && #[trigger] s.subrange(p, p + x.len()) == x
}

/// Every item stands in the items joined by `", "`.
proof fn lemma_items_in_join(items: Seq<Seq<char>>)
    ensures
        forall|i: int| 0 <= i < items.len() ==> occurs_in(#[trigger] items[i], comma_joined(items)),
    decreases items.len(),
{
    reveal(occurs_in);
    if items.len() == 1 {
        let j = comma_joined(items);
        assert(j.subrange(0, items[0].len() as int) =~= items[0]);
        assert forall|i: int| 0 <= i < items.len() implies occurs_in(#[trigger] items[i], j) by {
            assert(j.subrange(0int, 0int + items[i].len()) =~= items[i]);
        }
    } else if items.len() > 1 {
        let init = items.drop_last();
        lemma_items_in_join(init);
        let ji = comma_joined(init);
        let j = comma_joined(items);
        assert(j == ji + ", "@ + items.last());
        assert forall|i: int| 0 <= i < items.len() implies occurs_in(#[trigger] items[i], j) by {
            if i < items.len() - 1 {
                assert(items[i] == init[i]);
                assert(occurs_in(init[i], ji));
                let p = choose|p: int| 0 <= p && p + init[i].len() <= ji.len() && #[trigger] ji.subrange(
                    p,
                    p + init[i].len(),
                ) == init[i];
                assert(j.subrange(p, p + items[i].len()) =~= ji.subrange(p, p + init[i].len()));
            } else {
                let p = j.len() - items.last().len();
                assert(j.subrange(p, p + items[i].len()) =~= items.last());
            }
        }
    }
}

/// Where item `i` starts when the items are written one after another with
/// two characters between each pair.
pub open spec fn offset_of(items: Seq<Seq<char>>, i: int) -> int
    decreases i,
{
    if i <= 0 {
        0
    } else {
        offset_of(items, i - 1) + items[i - 1].len() + 2
    }
}

/// `c` is the items written in order, each followed by `", "` but the last:
/// item `i` at `offset_of(items, i)`, a `", "` after it, and nothing after
/// the last one.
pub open spec fn laid_out(items: Seq<Seq<char>>, c: Seq<char>) -> bool {
    &&& items.len() == 0 ==> c.len() == 0
    &&& items.len() > 0 ==> c.len() == offset_of(items, items.len() - 1) + items.last().len()
    &&& forall|i: int|
        0 <= i < items.len() ==> c.subrange(offset_of(items, i), offset_of(items, i) + items[i].len())
            == #[trigger] items[i]
    &&& forall|i: int|
        0 <= i < items.len() - 1 ==> c.subrange(
            offset_of(items, i) + items[i].len(),
            #[trigger] offset_of(items, i + 1),
        ) == ", "@
}

proof fn lemma_offset_prefix(items: Seq<Seq<char>>, n: int, i: int)
    requires
        0 <= i <= n <= items.len(),
    ensures
        offset_of(items.take(n), i) == offset_of(items, i),
        offset_of(items, i) >= 0,
    decreases i,
{
    if i > 0 {
        lemma_offset_prefix(items, n, i - 1);
        assert(items.take(n)[i - 1] == items[i - 1]);
    }
}

/// Items joined by `", "` are laid out one after another.
proof fn lemma_join_layout(items: Seq<Seq<char>>)
    ensures
        laid_out(items, comma_joined(items)),
    decreases items.len(),
{
    let c = comma_joined(items);
    let n = items.len() as int;
    if n == 1 {
        assert(c == items[0]);
        assert(offset_of(items, 0) == 0);
        assert(c.subrange(0, items[0].len() as int) =~= items[0]);
    } else if n > 1 {
        let init = items.drop_last();
        lemma_join_layout(init);
        let ji = comma_joined(init);
        assert(c == ji + ", "@ + items.last());
        reveal_strlit(", ");
        assert(init =~= items.take(n - 1));
        assert forall|i: int| 0 <= i <= n - 1 implies offset_of(init, i) == offset_of(items, i) && offset_of(items, i) >= 0 by {
            lemma_offset_prefix(items, n - 1, i);
        }
        lemma_offset_prefix(items, n - 1, n - 2);
        assert(init[n - 2] == items[n - 2]);
        assert(ji.len() == offset_of(items, n - 2) + items[n - 2].len());
        assert(offset_of(items, n - 1) == ji.len() + 2);
        assert forall|i: int| 0 <= i < n implies c.subrange(
            offset_of(items, i),
            offset_of(items, i) + items[i].len(),
        ) == #[trigger] items[i] by {
            if i < n - 1 {
                lemma_offset_prefix(items, n - 1, i);
                assert(init[i] == items[i]);
                assert(ji.subrange(offset_of(init, i), offset_of(init, i) + init[i].len()) == init[i]);
                assert(offset_of(items, i) + items[i].len() <= ji.len()) by {
                    if i < n - 2 {
                        lemma_offset_prefix(items, n - 1, i + 1);
                        assert(ji.subrange(
                            offset_of(init, i) + init[i].len(),
                            offset_of(init, i + 1),
                        ) == ", "@);
                        lemma_offset_mono(items, i + 1, n - 2);
                    }
                }
                assert(c.subrange(offset_of(items, i), offset_of(items, i) + items[i].len())
                    =~= ji.subrange(offset_of(items, i), offset_of(items, i) + items[i].len()));
            } else {
                assert(c.subrange(offset_of(items, i), offset_of(items, i) + items[i].len())
                    =~= items.last());
            }
        }
        assert forall|i: int| 0 <= i < n - 1 implies c.subrange(
            offset_of(items, i) + items[i].len(),
            #[trigger] offset_of(items, i + 1),
        ) == ", "@ by {
            if i < n - 2 {
                lemma_offset_prefix(items, n - 1, i);
                lemma_offset_prefix(items, n - 1, i + 1);
                assert(init[i] == items[i]);
                assert(ji.subrange(offset_of(init, i) + init[i].len(), offset_of(init, i + 1))
                    == ", "@);
                lemma_offset_mono(items, i + 1, n - 2);
                assert(c.subrange(offset_of(items, i) + items[i].len(), offset_of(items, i + 1))
                    =~= ji.subrange(offset_of(items, i) + items[i].len(), offset_of(items, i + 1)));
            } else {
                assert(c.subrange(offset_of(items, i) + items[i].len(), offset_of(items, i + 1))
                    =~= ", "@);
            }
        }
    }
}

proof fn lemma_offset_mono(items: Seq<Seq<char>>, i: int, j: int)
    requires
        0 <= i <= j <= items.len(),
    ensures
        offset_of(items, i) <= offset_of(items, j),
    decreases j - i,
{
    if i < j {
        lemma_offset_mono(items, i, j - 1);
    }
}

/// A dataset's keywords cell is the SQL literal of a text in which every one
/// of its keywords stands: no keyword is dropped from the `Dataset` row. The
/// text is the keywords in order, each but the last followed by `", "`.
pub proof fn lemma_dataset_keywords_kept(job_id: Seq<char>, ds: CatalogDataset)
    ensures
        exists|c: Seq<char>|
            #![trigger quoted(c)]
            dataset_row(job_id, ds)[4] == quoted(c) && laid_out(strings_view(ds.keywords@), c)
                && forall|i: int|
                0 <= i < ds.keywords@.len() ==> occurs_in(#[trigger] ds.keywords@[i]@, c),
{
    let items = strings_view(ds.keywords@);
    lemma_items_in_join(items);
    lemma_join_layout(items);
    let c = comma_joined(items);
    assert forall|i: int| 0 <= i < ds.keywords@.len() implies occurs_in(#[trigger] ds.keywords@[i]@, c) by {
        assert(items[i] == ds.keywords@[i]@);
    }
    assert(dataset_row(job_id, ds)[4] == quoted(c));
}

pub open spec fn distribution_props() -> Seq<PropView> {
    seq![
        prop_of("access_url"@, DCAT_ACCESS_URL@, XSD_STRING@),
        prop_of("media_type"@, DCAT_MEDIA_TYPE@, XSD_STRING@),
    ]
}

pub open spec fn distribution_row(job_id: Seq<char>, d: CatalogDistribution) -> Seq<Seq<char>> {
    seq![
        quoted(distribution_urn_of(job_id, filename_of(d.destination@))),
        quoted(d.destination@),
        quoted(d.media_type@),
    ]
}

/// The distribution rows of every dataset, dataset after dataset.
pub open spec fn distribution_rows(job_id: Seq<char>, dss: Seq<CatalogDataset>) -> Seq<Seq<Seq<char>>>
    decreases dss.len(),
{
    if dss.len() == 0 {
        Seq::empty()
    } else {
        distribution_rows(job_id, dss.drop_last()) + dss.last().distributions@.map_values(
            |d: CatalogDistribution| distribution_row(job_id, d),
        )
    }
}

pub open spec fn agent_props() -> Seq<PropView> {
    seq![prop_of("name"@, FOAF_NAME@, XSD_STRING@), prop_of("homepage"@, FOAF_HOMEPAGE@, XSD_STRING@)]
}

pub open spec fn agent_row(input: CatalogInput) -> Seq<Seq<char>> {
    seq![
        quoted(agent_iri_of(input)),
        quoted(input.publisher_name@),
        quoted(or_default(input.publisher_uri, ""@)),
    ]
}

pub open spec fn contact_row(email: Seq<char>) -> Seq<Seq<char>> {
    seq![quoted(contact_urn_of(email)), quoted("mailto:"@ + email)]
}

pub open spec fn field_props() -> Seq<PropView> {
    seq![
        data_col_of("name"@, "string"@),
        data_col_of("rdf_uri"@, "string"@),
        data_col_of("datatype"@, "string"@),
    ]
}

pub open spec fn field_row(job_id: Seq<char>, ds: CatalogDataset, f: CatalogField) -> Seq<Seq<char>> {
    seq![
        quoted(field_urn_of(job_id, ds.type_label@, f.name@)),
        quoted(f.name@),
        quoted(or_default(f.rdf_uri, ""@)),
        quoted(or_default(f.datatype, "string"@)),
    ]
}

/// The field rows of every dataset, dataset after dataset.
pub open spec fn field_rows(job_id: Seq<char>, dss: Seq<CatalogDataset>) -> Seq<Seq<Seq<char>>>
    decreases dss.len(),
{
    if dss.len() == 0 {
        Seq::empty()
    } else {
        field_rows(job_id, dss.drop_last()) + dss.last().fields@.map_values(
            |f: CatalogField| field_row(job_id, dss.last(), f),
        )
    }
}

pub open spec fn dataset_pairs(input: CatalogInput) -> Seq<(Seq<char>, Seq<char>)> {
    input.datasets@.map_values(
        |ds: CatalogDataset| (catalog_iri_of(input), dataset_urn_of(input.job_id@, ds.type_label@)),
    )
}

pub open spec fn distribution_pairs(job_id: Seq<char>, dss: Seq<CatalogDataset>) -> Seq<
    (Seq<char>, Seq<char>),
>
    decreases dss.len(),
{
    if dss.len() == 0 {
        Seq::empty()
    } else {
        distribution_pairs(job_id, dss.drop_last()) + dss.last().distributions@.map_values(
            |d: CatalogDistribution|
                (
                    dataset_urn_of(job_id, dss.last().type_label@),
                    distribution_urn_of(job_id, filename_of(d.destination@)),
                ),
        )
    }
}

pub open spec fn field_pairs(job_id: Seq<char>, dss: Seq<CatalogDataset>) -> Seq<
    (Seq<char>, Seq<char>),
>
    decreases dss.len(),
{
    if dss.len() == 0 {
        Seq::empty()
    } else {
        field_pairs(job_id, dss.drop_last()) + dss.last().fields@.map_values(
            |f: CatalogField|
                (
                    dataset_urn_of(job_id, dss.last().type_label@),
                    field_urn_of(job_id, dss.last().type_label@, f.name@),
                ),
        )
    }
}

pub open spec fn present<T>(o: Option<T>) -> Seq<T> {
    match o {
        Some(t) => seq![t],
        None => Seq::empty(),
    }
}

/// The catalog's vertex tables: Catalog; Dataset when there are datasets;
/// Distribution when there are distributions; Agent; Contact when there is
/// a contact e-mail; Field when there are fields.
pub open spec fn catalog_vertices(input: CatalogInput) -> Seq<VertexView> {
    let job = input.job_id@;
    let dss = input.datasets@;
    seq![vertex_of("Catalog"@, DCAT_CATALOG@, catalog_props(), seq![catalog_row(input)])] + (if dss.len()
        > 0 {
        seq![
            vertex_of(
                "Dataset"@,
                DCAT_DATASET@,
                dataset_props(),
                dss.map_values(|ds: CatalogDataset| dataset_row(job, ds)),
            ),
        ]
    } else {
        Seq::empty()
    }) + (if distribution_rows(job, dss).len() > 0 {
        seq![
            vertex_of(
                "Distribution"@,
                DCAT_DISTRIBUTION@,
                distribution_props(),
                distribution_rows(job, dss),
            ),
        ]
    } else {
        Seq::empty()
    }) + seq![vertex_of("Agent"@, FOAF_AGENT@, agent_props(), seq![agent_row(input)])] + (
    match input.contact_email {
        Some(e) => seq![
            vertex_of(
                "Contact"@,
                VCARD_KIND@,
                seq![prop_of("email"@, VCARD_HAS_EMAIL@, XSD_STRING@)],
                seq![contact_row(e@)],
            ),
        ],
        None => Seq::empty(),
    }) + (if field_rows(job, dss).len() > 0 {
        seq![vertex_of("Field"@, KEASY_FIELD@, field_props(), field_rows(job, dss))]
    } else {
        Seq::empty()
    })
}

/// The catalog's edge tables: Catalog→Dataset, Dataset→Distribution,
/// Dataset→Field, Catalog→Agent and Catalog→Contact, each where it has pairs.
pub open spec fn catalog_edges(input: CatalogInput) -> Seq<EdgeView> {
    let job = input.job_id@;
    let dss = input.datasets@;
    present(edge_of_pairs(EDGE_DATASET@, "Catalog"@, "Dataset"@, dataset_pairs(input))) + present(
        edge_of_pairs(EDGE_DISTRIBUTION@, "Dataset"@, "Distribution"@, distribution_pairs(job, dss)),
    ) + present(edge_of_pairs(EDGE_FIELD@, "Dataset"@, "Field"@, field_pairs(job, dss))) + present(
        edge_of_pairs(
            EDGE_PUBLISHER@,
            "Catalog"@,
            "Agent"@,
            seq![(catalog_iri_of(input), agent_iri_of(input))],
        ),
    ) + match input.contact_email {
        Some(e) => present(
            edge_of_pairs(
                EDGE_CONTACT_POINT@,
                "Catalog"@,
                "Contact"@,
                seq![(catalog_iri_of(input), contact_urn_of(e@))],
            ),
        ),
        None => Seq::empty(),
    }
}

fn joined_plain(items: &[String]) -> (r: String)
    ensures
        r@ == comma_joined(strings_view(items@)),
{
    let mut r = String::new();
    push_joined(&mut r, items, "", "");
    proof {
        lemma_wrap_nothing(strings_view(items@));
        assert(r@ =~= comma_joined(strings_view(items@)));
    }
    r
}

fn dataset_rows_exec(input: &CatalogInput) -> (rows: Vec<Vec<String>>)
    ensures
        rows_view(rows@) == input.datasets@.map_values(
            |ds: CatalogDataset| dataset_row(input.job_id@, ds),
        ),
{
    let mut rows: Vec<Vec<String>> = Vec::new();
    let mut i: usize = 0;
    while i < input.datasets.len()
        invariant
            i <= input.datasets@.len(),
            rows@.len() == i,
            forall|k: int|
                0 <= k < i ==> #[trigger] strings_view(rows@[k]@) == dataset_row(
                    input.job_id@,
                    input.datasets@[k],
                ),
        decreases input.datasets@.len() - i,
    {
        let ds = &input.datasets[i];
        let mut row: Vec<String> = Vec::new();
        row.push(lit(dataset_urn(input.job_id.as_str(), ds.type_label.as_str()).as_str()));
        row.push(lit(ds.type_label.as_str()));
        row.push(lit(opt_or(&ds.source_name, "").as_str()));
        row.push(lit(opt_or(&ds.rdf_type, "").as_str()));
        row.push(lit(joined_plain(ds.keywords.as_slice()).as_str()));
        let count = match ds.entity_count {
            Some(n) => n,
            None => 0,
        };
        row.push(decimal_string(count));
        assert(strings_view(row@) =~= dataset_row(input.job_id@, input.datasets@[i as int]));
        rows.push(row);
        i = i + 1;
    }
    assert(rows_view(rows@) =~= input.datasets@.map_values(
        |ds: CatalogDataset| dataset_row(input.job_id@, ds),
    ));
    rows
}

fn distribution_rows_exec(input: &CatalogInput) -> (rows: Vec<Vec<String>>)
    ensures
        rows_view(rows@) == distribution_rows(input.job_id@, input.datasets@),
{
    let ghost job = input.job_id@;
    let ghost dss = input.datasets@;
    let mut rows: Vec<Vec<String>> = Vec::new();
    let mut i: usize = 0;
    while i < input.datasets.len()
        invariant
            job == input.job_id@,
            dss == input.datasets@,
            i <= dss.len(),
            rows_view(rows@) == distribution_rows(job, dss.take(i as int)),
        decreases dss.len() - i,
    {
        let ds = &input.datasets[i];
        proof {
            assert(dss.take(i + 1).drop_last() =~= dss.take(i as int));
            assert(dss.take(i + 1).last() == *ds);
        }
        let ghost before = rows_view(rows@);
        let mut j: usize = 0;
        while j < ds.distributions.len()
            invariant
                job == input.job_id@,
                *ds == dss[i as int],
                i < dss.len(),
                j <= ds.distributions@.len(),
                rows_view(rows@) == before + ds.distributions@.take(j as int).map_values(
                    |d: CatalogDistribution| distribution_row(job, d),
                ),
            decreases ds.distributions@.len() - j,
        {
            let d = &ds.distributions[j];
            let mut row: Vec<String> = Vec::new();
            row.push(
                lit(
                    distribution_urn(input.job_id.as_str(), filename(d.destination.as_str())).as_str(),
                ),
            );
            row.push(lit(d.destination.as_str()));
            row.push(lit(d.media_type.as_str()));
            assert(strings_view(row@) =~= distribution_row(job, *d));
            let ghost rv = strings_view(row@);
            let ghost old_rows = rows@;
            rows.push(row);
            proof {
                assert(rows_view(rows@) =~= rows_view(old_rows).push(rv));
                assert(ds.distributions@.take(j + 1).map_values(
                    |d: CatalogDistribution| distribution_row(job, d),
                ) =~= ds.distributions@.take(j as int).map_values(
                    |d: CatalogDistribution| distribution_row(job, d),
                ).push(distribution_row(job, *d)));
            }
            j = j + 1;
        }
        proof {
            assert(ds.distributions@.take(j as int) =~= ds.distributions@);
        }
        i = i + 1;
    }
    proof {
        assert(dss.take(i as int) =~= dss);
    }
    rows
}

fn field_rows_exec(input: &CatalogInput) -> (rows: Vec<Vec<String>>)
    ensures
        rows_view(rows@) == field_rows(input.job_id@, input.datasets@),
{
    let ghost job = input.job_id@;
    let ghost dss = input.datasets@;
    let mut rows: Vec<Vec<String>> = Vec::new();
    let mut i: usize = 0;
    while i < input.datasets.len()
        invariant
            job == input.job_id@,
            dss == input.datasets@,
            i <= dss.len(),
            rows_view(rows@) == field_rows(job, dss.take(i as int)),
        decreases dss.len() - i,
    {
        let ds = &input.datasets[i];
        proof {
            assert(dss.take(i + 1).drop_last() =~= dss.take(i as int));
            assert(dss.take(i + 1).last() == *ds);
        }
        let ghost before = rows_view(rows@);
        let mut j: usize = 0;
        while j < ds.fields.len()
            invariant
                job == input.job_id@,
                *ds == dss[i as int],
                i < dss.len(),
                j <= ds.fields@.len(),
                rows_view(rows@) == before + ds.fields@.take(j as int).map_values(
                    |f: CatalogField| field_row(job, *ds, f),
                ),
            decreases ds.fields@.len() - j,
        {
            let f = &ds.fields[j];
            let mut row: Vec<String> = Vec::new();
            row.push(
                lit(
                    field_urn(input.job_id.as_str(), ds.type_label.as_str(), f.name.as_str()).as_str(),
                ),
            );
            row.push(lit(f.name.as_str()));
            row.push(lit(opt_or(&f.rdf_uri, "").as_str()));
            row.push(lit(opt_or(&f.datatype, "string").as_str()));
            assert(strings_view(row@) =~= field_row(job, *ds, *f));
            let ghost rv = strings_view(row@);
            let ghost old_rows = rows@;
            rows.push(row);
            proof {
                assert(rows_view(rows@) =~= rows_view(old_rows).push(rv));
                assert(ds.fields@.take(j + 1).map_values(|f: CatalogField| field_row(job, *ds, f))
                    =~= ds.fields@.take(j as int).map_values(
                    |f: CatalogField| field_row(job, *ds, f),
                ).push(field_row(job, *ds, *f)));
            }
            j = j + 1;
        }
        proof {
            assert(ds.fields@.take(j as int) =~= ds.fields@);
        }
        i = i + 1;
    }
    proof {
        assert(dss.take(i as int) =~= dss);
    }
    rows
}

fn dataset_pairs_exec(input: &CatalogInput, catalog_iri: &str) -> (pairs: Vec<(String, String)>)
    requires
        catalog_iri@ == catalog_iri_of(*input),
    ensures
        pairs_view(pairs@) == dataset_pairs(*input),
{
    let mut pairs: Vec<(String, String)> = Vec::new();
    let mut i: usize = 0;
    while i < input.datasets.len()
        invariant
            catalog_iri@ == catalog_iri_of(*input),
            i <= input.datasets@.len(),
            pairs@.len() == i,
            forall|k: int|
                0 <= k < i ==> (#[trigger] pairs@[k]).0@ == catalog_iri_of(*input) && pairs@[k].1@
                    == dataset_urn_of(input.job_id@, input.datasets@[k].type_label@),
        decreases input.datasets@.len() - i,
    {
        pairs.push(
            (
                String::from_str(catalog_iri),
                dataset_urn(input.job_id.as_str(), input.datasets[i].type_label.as_str()),
            ),
        );
        i = i + 1;
    }
    assert(pairs_view(pairs@) =~= dataset_pairs(*input));
    pairs
}

fn distribution_pairs_exec(input: &CatalogInput) -> (pairs: Vec<(String, String)>)
    ensures
        pairs_view(pairs@) == distribution_pairs(input.job_id@, input.datasets@),
{
    let ghost job = input.job_id@;
    let ghost dss = input.datasets@;
    let mut pairs: Vec<(String, String)> = Vec::new();
    let mut i: usize = 0;
    while i < input.datasets.len()
        invariant
            job == input.job_id@,
            dss == input.datasets@,
            i <= dss.len(),
            pairs_view(pairs@) == distribution_pairs(job, dss.take(i as int)),
        decreases dss.len() - i,
    {
        let ds = &input.datasets[i];
        proof {
            assert(dss.take(i + 1).drop_last() =~= dss.take(i as int));
            assert(dss.take(i + 1).last() == *ds);
        }
        let ghost before = pairs_view(pairs@);
        let src = dataset_urn(input.job_id.as_str(), ds.type_label.as_str());
        let mut j: usize = 0;
        while j < ds.distributions.len()
            invariant
                job == input.job_id@,
                *ds == dss[i as int],
                i < dss.len(),
                src@ == dataset_urn_of(job, ds.type_label@),
                j <= ds.distributions@.len(),
                pairs_view(pairs@) == before + ds.distributions@.take(j as int).map_values(
                    |d: CatalogDistribution|
                        (
                            dataset_urn_of(job, ds.type_label@),
                            distribution_urn_of(job, filename_of(d.destination@)),
                        ),
                ),
            decreases ds.distributions@.len() - j,
        {
            let d = &ds.distributions[j];
            let dst = distribution_urn(input.job_id.as_str(), filename(d.destination.as_str()));
            let ghost pv = (src@, dst@);
            let ghost old_pairs = pairs@;
            pairs.push((src.clone(), dst));
            proof {
                assert(pairs_view(pairs@) =~= pairs_view(old_pairs).push(pv));
                assert(ds.distributions@.take(j + 1).map_values(
                    |d: CatalogDistribution|
                        (
                            dataset_urn_of(job, ds.type_label@),
                            distribution_urn_of(job, filename_of(d.destination@)),
                        ),
                ) =~= ds.distributions@.take(j as int).map_values(
                    |d: CatalogDistribution|
                        (
                            dataset_urn_of(job, ds.type_label@),
                            distribution_urn_of(job, filename_of(d.destination@)),
                        ),
                ).push(pv));
            }
            j = j + 1;
        }
        proof {
            assert(ds.distributions@.take(j as int) =~= ds.distributions@);
        }
        i = i + 1;
    }
    proof {
        assert(dss.take(i as int) =~= dss);
    }
    pairs
}

fn field_pairs_exec(input: &CatalogInput) -> (pairs: Vec<(String, String)>)
    ensures
        pairs_view(pairs@) == field_pairs(input.job_id@, input.datasets@),
{
    let ghost job = input.job_id@;
    let ghost dss = input.datasets@;
    let mut pairs: Vec<(String, String)> = Vec::new();
    let mut i: usize = 0;
    while i < input.datasets.len()
        invariant
            job == input.job_id@,
            dss == input.datasets@,
            i <= dss.len(),
            pairs_view(pairs@) == field_pairs(job, dss.take(i as int)),
        decreases dss.len() - i,
    {
        let ds = &input.datasets[i];
        proof {
            assert(dss.take(i + 1).drop_last() =~= dss.take(i as int));
            assert(dss.take(i + 1).last() == *ds);
        }
        let ghost before = pairs_view(pairs@);
        let src = dataset_urn(input.job_id.as_str(), ds.type_label.as_str());
        let mut j: usize = 0;
        while j < ds.fields.len()
            invariant
                job == input.job_id@,
                *ds == dss[i as int],
                i < dss.len(),
                src@ == dataset_urn_of(job, ds.type_label@),
                j <= ds.fields@.len(),
                pairs_view(pairs@) == before + ds.fields@.take(j as int).map_values(
                    |f: CatalogField|
                        (
                            dataset_urn_of(job, ds.type_label@),
                            field_urn_of(job, ds.type_label@, f.name@),
                        ),
                ),
            decreases ds.fields@.len() - j,
        {
            let f = &ds.fields[j];
            let dst = field_urn(input.job_id.as_str(), ds.type_label.as_str(), f.name.as_str());
            let ghost pv = (src@, dst@);
            let ghost old_pairs = pairs@;
            pairs.push((src.clone(), dst));
            proof {
                assert(pairs_view(pairs@) =~= pairs_view(old_pairs).push(pv));
                assert(ds.fields@.take(j + 1).map_values(
                    |f: CatalogField|
                        (
                            dataset_urn_of(job, ds.type_label@),
                            field_urn_of(job, ds.type_label@, f.name@),
                        ),
                ) =~= ds.fields@.take(j as int).map_values(
                    |f: CatalogField|
                        (
                            dataset_urn_of(job, ds.type_label@),
                            field_urn_of(job, ds.type_label@, f.name@),
                        ),
                ).push(pv));
            }
            j = j + 1;
        }
        proof {
            assert(ds.fields@.take(j as int) =~= ds.fields@);
        }
        i = i + 1;
    }
    proof {
        assert(dss.take(i as int) =~= dss);
    }
    pairs
}

fn push_edge(edges: &mut Vec<EdgeTable>, e: Option<EdgeTable>)
    ensures
        edges_view(final(edges)@) == edges_view(old(edges)@) + present(
            match e {
                Some(t) => Some(t@),
                None => None,
            },
        ),
{
    let ghost before = edges@;
    match e {
        Some(t) => {
            let ghost tv = t@;
            edges.push(t);
            assert(edges_view(edges@) =~= edges_view(before) + seq![tv]);
        },
        None => {
            assert(edges_view(edges@) =~= edges_view(before) + Seq::<EdgeView>::empty());
        },
    }
}

fn push_vertex(vertices: &mut Vec<VertexTable>, v: VertexTable)
    ensures
        vertices_view(final(vertices)@) == vertices_view(old(vertices)@) + seq![v@],
{
    let ghost before = vertices@;
    let ghost vv = v@;
    vertices.push(v);
    assert(vertices_view(vertices@) =~= vertices_view(before) + seq![vv]);
}

/// Build the DCAT-AP catalog `(prelude, SinkPlan)` from a run's catalog
/// input. The prelude is empty, every source being an inline `VALUES`.
#[verifier::spinoff_prover]
pub fn build_catalog_sink_plan(input: &CatalogInput) -> (r: (String, SinkPlan))
    ensures
        r.0@ == Seq::<char>::empty(),
        vertices_view(r.1.vertices@) == catalog_vertices(*input),
        edges_view(r.1.edges@) == catalog_edges(*input),
        r.1.chunk_size == DEFAULT_CHUNK_SIZE,
{
    let ghost job = input.job_id@;
    let ghost dss = input.datasets@;
    let mut vertices: Vec<VertexTable> = Vec::new();
    let mut edges: Vec<EdgeTable> = Vec::new();
    let catalog_iri = catalog_urn(input.job_id.as_str());
    let title = opt_or(&input.job_name, "Keasy Pipeline Output");
    let lang = opt_or(&input.language, "en");

    // Catalog (1)
    let mut catalog_props_v: Vec<VertexProperty> = Vec::new();
    catalog_props_v.push(prop("title", DCT_TITLE, XSD_STRING));
    catalog_props_v.push(prop("description", DCT_DESCRIPTION, XSD_STRING));
    catalog_props_v.push(prop("issued", DCT_ISSUED, XSD_DATETIME));
    catalog_props_v.push(prop("language", DCT_LANGUAGE, XSD_STRING));
    catalog_props_v.push(prop("license", DCT_LICENSE, XSD_STRING));
    assert(props_view(catalog_props_v@) =~= catalog_props());
    let mut row: Vec<String> = Vec::new();
    row.push(lit(catalog_iri.as_str()));
    row.push(lit(title.as_str()));
    row.push(lit(opt_or(&input.catalog_description, "").as_str()));
    row.push(lit(input.completed_at.as_str()));
    row.push(lit(lang.as_str()));
    row.push(lit(opt_or(&input.license_uri, "").as_str()));
    assert(strings_view(row@) =~= catalog_row(*input));
    let mut rows: Vec<Vec<String>> = Vec::new();
    rows.push(row);
    assert(rows_view(rows@) =~= seq![catalog_row(*input)]);
    push_vertex(&mut vertices, vertex("Catalog", DCAT_CATALOG, catalog_props_v, rows.as_slice()));
    let ghost v1 = vertices_view(vertices@);

    // Dataset (N)
    if input.datasets.len() > 0 {
        let rows = dataset_rows_exec(input);
        let mut props: Vec<VertexProperty> = Vec::new();
        props.push(prop("title", DCT_TITLE, XSD_STRING));
        props.push(prop("source", DCT_SOURCE, XSD_STRING));
        props.push(prop("conforms_to", DCT_CONFORMS_TO, XSD_STRING));
        props.push(prop("keywords", DCAT_KEYWORD, XSD_STRING));
        props.push(data_col("entity_count", "int64"));
        assert(props_view(props@) =~= dataset_props());
        push_vertex(&mut vertices, vertex("Dataset", DCAT_DATASET, props, rows.as_slice()));
    }
    let ghost v2 = vertices_view(vertices@);

    // Distribution (M)
    let dist_rows = distribution_rows_exec(input);
    if dist_rows.len() > 0 {
        let mut props: Vec<VertexProperty> = Vec::new();
        props.push(prop("access_url", DCAT_ACCESS_URL, XSD_STRING));
        props.push(prop("media_type", DCAT_MEDIA_TYPE, XSD_STRING));
        assert(props_view(props@) =~= distribution_props());
        push_vertex(
            &mut vertices,
            vertex("Distribution", DCAT_DISTRIBUTION, props, dist_rows.as_slice()),
        );
    }
    let ghost v3 = vertices_view(vertices@);

    // Agent (1)
    let agent_iri = match &input.publisher_uri {
        Some(u) => u.clone(),
        None => publisher_urn(input.publisher_name.as_str()),
    };
    let mut props: Vec<VertexProperty> = Vec::new();
    props.push(prop("name", FOAF_NAME, XSD_STRING));
    props.push(prop("homepage", FOAF_HOMEPAGE, XSD_STRING));
    assert(props_view(props@) =~= agent_props());
    let mut row: Vec<String> = Vec::new();
    row.push(lit(agent_iri.as_str()));
    row.push(lit(input.publisher_name.as_str()));
    row.push(lit(opt_or(&input.publisher_uri, "").as_str()));
    assert(strings_view(row@) =~= agent_row(*input));
    let mut rows: Vec<Vec<String>> = Vec::new();
    rows.push(row);
    assert(rows_view(rows@) =~= seq![agent_row(*input)]);
    push_vertex(&mut vertices, vertex("Agent", FOAF_AGENT, props, rows.as_slice()));
    let ghost v4 = vertices_view(vertices@);

    // Contact (0/1)
    let contact_iri: Option<String> = match &input.contact_email {
        Some(email) => {
            let iri = contact_urn(email.as_str());
            let mut props: Vec<VertexProperty> = Vec::new();
            props.push(prop("email", VCARD_HAS_EMAIL, XSD_STRING));
            assert(props_view(props@) =~= seq![prop_of("email"@, VCARD_HAS_EMAIL@, XSD_STRING@)]);
            let mut mailto = String::from_str("mailto:");
            mailto.append(email.as_str());
            let mut row: Vec<String> = Vec::new();
            row.push(lit(iri.as_str()));
            row.push(lit(mailto.as_str()));
            assert(strings_view(row@) =~= contact_row(email@));
            let mut rows: Vec<Vec<String>> = Vec::new();
            rows.push(row);
            assert(rows_view(rows@) =~= seq![contact_row(email@)]);
            push_vertex(&mut vertices, vertex("Contact", VCARD_KIND, props, rows.as_slice()));
            Some(iri)
        },
        None => None,
    };
    let ghost v5 = vertices_view(vertices@);

    // Field (K)
    let field_rows_v = field_rows_exec(input);
    if field_rows_v.len() > 0 {
        let mut props: Vec<VertexProperty> = Vec::new();
        props.push(data_col("name", "string"));
        props.push(data_col("rdf_uri", "string"));
        props.push(data_col("datatype", "string"));
        assert(props_view(props@) =~= field_props());
        push_vertex(&mut vertices, vertex("Field", KEASY_FIELD, props, field_rows_v.as_slice()));
    }
    assert(vertices_view(vertices@) =~= catalog_vertices(*input));

    // Edges
    push_edge(
        &mut edges,
        edge(EDGE_DATASET, "Catalog", "Dataset", dataset_pairs_exec(input, catalog_iri.as_str())),
    );
    push_edge(&mut edges, edge(EDGE_DISTRIBUTION, "Dataset", "Distribution", distribution_pairs_exec(input)));
    push_edge(&mut edges, edge(EDGE_FIELD, "Dataset", "Field", field_pairs_exec(input)));
    let mut publisher: Vec<(String, String)> = Vec::new();
    publisher.push((catalog_iri.clone(), agent_iri));
    assert(pairs_view(publisher@) =~= seq![(catalog_iri_of(*input), agent_iri_of(*input))]);
    push_edge(&mut edges, edge(EDGE_PUBLISHER, "Catalog", "Agent", publisher));
    let ghost e4 = edges_view(edges@);
    match contact_iri {
        Some(ci) => {
            let mut contact: Vec<(String, String)> = Vec::new();
            let ghost civ = ci@;
            contact.push((catalog_iri, ci));
            assert(pairs_view(contact@) =~= seq![(catalog_iri_of(*input), civ)]);
            push_edge(&mut edges, edge(EDGE_CONTACT_POINT, "Catalog", "Contact", contact));
        },
        None => {
            assert(edges_view(edges@) =~= e4 + Seq::<EdgeView>::empty());
        },
    }
    assert(edges_view(edges@) =~= catalog_edges(*input));
    (String::new(), SinkPlan { vertices, edges, chunk_size: DEFAULT_CHUNK_SIZE })
}

} // verus!
