use fossil::diag::ParseDiagnostic;
use fossil::expr::parse_expression;
use fossil::indent::lex_with_indents;
use fossil::kind::SyntaxKind;
use fossil::parser::{expect_or_recover, recover_to, Parser};
use fossil::syntax::{parse_text, Parse};
use fossil::tree::{green_tree, parse};
use rowan::{GreenNode, GreenNodeData, NodeOrToken};
use std::time::{Duration, Instant};

fn parse_str(src: &str) -> GreenNode {
    let p = parse_text(src);
    green_tree(&p)
}

fn messages(src: &str) -> Vec<String> {
    parse_text(src)
        .diagnostics
        .into_iter()
        .map(|d| d.to_diagnostic().message)
        .collect()
}

fn span_of(src: &str, needle: &str) -> (usize, usize) {
    let hits: Vec<_> = parse_text(src)
        .diagnostics
        .into_iter()
        .map(|d| d.to_diagnostic())
        .filter(|d| d.message.contains(needle))
        .collect();
    assert_eq!(
        hits.len(),
        1,
        "expected exactly one diagnostic containing {needle:?} for {src:?}"
    );
    (hits[0].span.start, hits[0].span.end)
}

fn underlined(src: &str, span: (usize, usize)) -> &str {
    &src[span.0..span.1]
}

fn is(n: &GreenNodeData, k: SyntaxKind) -> bool {
    n.kind().0 == k.to_raw()
}

fn raw(k: SyntaxKind) -> u16 {
    k.to_raw()
}

fn find_first_kind(root: &GreenNodeData, want: SyntaxKind) -> Option<GreenNode> {
    if is(root, want) {
        return Some(root.to_owned());
    }
    for c in root.children() {
        if let NodeOrToken::Node(n) = c {
            if let Some(f) = find_first_kind(n, want) {
                return Some(f);
            }
        }
    }
    None
}

fn descendant_kind_exists(root: &GreenNodeData, want: SyntaxKind) -> bool {
    find_first_kind(root, want).is_some()
}

fn child_nodes(n: &GreenNodeData) -> Vec<GreenNode> {
    n.children()
        .filter_map(|c| match c {
            NodeOrToken::Node(n) => Some(n.to_owned()),
            NodeOrToken::Token(_) => None,
        })
        .collect()
}

fn child_kinds(n: &GreenNodeData) -> Vec<u16> {
    child_nodes(n).iter().map(|c| c.kind().0).collect()
}

fn token_kinds(n: &GreenNodeData) -> Vec<u16> {
    n.children()
        .filter_map(|c| match c {
            NodeOrToken::Token(t) => Some(t.kind().0),
            NodeOrToken::Node(_) => None,
        })
        .collect()
}

fn token_texts_of(n: &GreenNodeData, k: SyntaxKind) -> Vec<String> {
    n.children()
        .filter_map(|c| match c {
            NodeOrToken::Token(t) if t.kind().0 == k.to_raw() => Some(t.text().to_string()),
            _ => None,
        })
        .collect()
}

/// One expression under an `EXPR` node, with no item around it.
fn parse_expr_node(src: &str) -> GreenNode {
    let mut p = Parser::new(lex_with_indents(src));
    p.start(SyntaxKind::EXPR);
    parse_expression(&mut p, 0);
    p.finish();
    let parse = Parse { tokens: p.tokens, events: p.events, diagnostics: p.diagnostics };
    green_tree(&parse)
}

// ── the parser's own module ──────────────────────────────────────────

#[test]
fn a_prefix_declaration_is_refused_by_name() {
    let msgs = messages("prefix ex: <https://example.org/>\n");
    assert_eq!(msgs.len(), 1, "one refusal for one retired line: {msgs:?}");
    assert!(msgs[0].contains("no vocabulary"), "{}", msgs[0]);
}

#[test]
fn prefix_is_still_a_usable_binding_name() {
    let root = parse_str("prefix := io.csv(\"p.csv\")\n");
    assert_eq!(child_kinds(&root), vec![raw(SyntaxKind::SOURCE_DEF)]);
    assert!(messages("prefix := io.csv(\"p.csv\")\n").is_empty());
}

#[test]
fn mod_parses_source_def_with_dotted_callee() {
    let root = parse_str("users := io.csv(\"users.csv\")\n");
    assert_eq!(child_kinds(&root), vec![raw(SyntaxKind::SOURCE_DEF)]);
}

#[test]
fn parser_parses_source_def_with_dotted_callee() {
    let root = parse_str("users := io.csv(\"users.csv\")\n");
    assert_eq!(child_kinds(&root), vec![raw(SyntaxKind::SOURCE_DEF)]);
}

#[test]
fn mod_parses_mapping_with_two_properties() {
    let input = "Users : Person from User\n    @subject = \"u/{User.id}\"\n    name = User.name\n";
    let root = parse_str(input);
    let mapping = child_nodes(&root)
        .into_iter()
        .find(|n| is(n, SyntaxKind::MAPPING))
        .expect("expected a MAPPING child");
    let body = child_nodes(&mapping)
        .into_iter()
        .find(|n| is(n, SyntaxKind::MAPPING_BODY))
        .expect("expected a MAPPING_BODY child");
    let props: Vec<_> = child_nodes(&body)
        .into_iter()
        .filter(|n| is(n, SyntaxKind::PROPERTY))
        .collect();
    assert_eq!(props.len(), 2);
}

// ── recovery ─────────────────────────────────────────────────────────

#[test]
fn expect_or_recover_does_not_consume_on_mismatch() {
    let mut p = Parser::new(lex_with_indents("Foo"));
    p.start(SyntaxKind::PROGRAM);
    expect_or_recover(&mut p, SyntaxKind::KW_FROM, &[SyntaxKind::IDENT]);
    assert_eq!(
        p.current(),
        Some(SyntaxKind::IDENT),
        "offending token must NOT be consumed by expect_or_recover",
    );
    assert_eq!(p.diagnostics.len(), 1);
    assert!(matches!(p.diagnostics[0], ParseDiagnostic::ExpectedToken { .. }));
    p.finish();
}

#[test]
fn expect_or_recover_consumes_on_match() {
    let mut p = Parser::new(lex_with_indents("Foo"));
    p.start(SyntaxKind::PROGRAM);
    expect_or_recover(&mut p, SyntaxKind::IDENT, &[]);
    assert_eq!(p.current(), None, "matching token consumed; stream at EOF");
    assert_eq!(p.diagnostics.len(), 0, "no diagnostic on match");
    p.finish();
}

// ── expressions ──────────────────────────────────────────────────────

#[test]
fn pipe_is_retired_with_a_message_naming_the_member_call() {
    let mut p = Parser::new(lex_with_indents("a |> f()"));
    p.start(SyntaxKind::EXPR);
    parse_expression(&mut p, 0);
    p.finish();
    let retired: Vec<_> = p
        .diagnostics
        .iter()
        .filter_map(|d| match d {
            ParseDiagnostic::RetiredSpelling { message, span } => Some((message.clone(), *span)),
            _ => None,
        })
        .collect();
    assert_eq!(retired.len(), 1, "exactly one refusal, got {retired:?}");
    let (message, span) = &retired[0];
    assert!(message.contains("a.f("), "the message must name what replaces `|>`: {message}");
    assert_eq!((span.start, span.end), (2, 4), "span over `|>`");
}

#[test]
fn pratt_ternary_is_right_assoc() {
    let node = parse_expr_node("c1 ? a : c2 ? b : d");
    let outer = child_nodes(&node).into_iter().next().expect("an expression child");
    assert_eq!(outer.kind().0, raw(SyntaxKind::TERNARY_EXPR));
    let inner_else = child_nodes(&outer).into_iter().nth(2).expect("an else-branch child node");
    assert_eq!(inner_else.kind().0, raw(SyntaxKind::TERNARY_EXPR));
}

#[test]
fn pratt_precedence_walk() {
    let node = parse_expr_node("a or b and c == d + e * f");
    let outer = child_nodes(&node).into_iter().next().expect("an expression child");
    assert_eq!(outer.kind().0, raw(SyntaxKind::BINARY_EXPR));
    let mut here = outer;
    for _ in 0..4 {
        here = child_nodes(&here).into_iter().nth(1).expect("a right child");
        assert_eq!(here.kind().0, raw(SyntaxKind::BINARY_EXPR));
    }
    assert_eq!(
        child_kinds(&here),
        vec![raw(SyntaxKind::LITERAL_EXPR), raw(SyntaxKind::LITERAL_EXPR)]
    );
}

#[test]
fn a_boolean_literal_is_a_literal_and_not_a_name() {
    for src in ["true", "false"] {
        let node = parse_expr_node(src);
        let lit = child_nodes(&node).into_iter().next().expect("an expression child");
        assert_eq!(lit.kind().0, raw(SyntaxKind::LITERAL_EXPR), "{src}");
        let tok = lit
            .children()
            .filter_map(|c| match c {
                NodeOrToken::Token(t) => Some(t.to_owned()),
                NodeOrToken::Node(_) => None,
            })
            .find(|t| t.kind().0 != raw(SyntaxKind::WHITESPACE))
            .expect("one token");
        assert_eq!(tok.kind().0, raw(SyntaxKind::BOOL), "`{src}` must be a BOOL token");
        assert_eq!(tok.text(), src);
    }
}

#[test]
fn pratt_unary_minus_right_assoc() {
    let node = parse_expr_node("- - x");
    let outer = child_nodes(&node).into_iter().next().expect("an expression child");
    assert_eq!(outer.kind().0, raw(SyntaxKind::UNARY_EXPR));
    let inner = child_nodes(&outer).into_iter().next().expect("inner unary expression child");
    assert_eq!(inner.kind().0, raw(SyntaxKind::UNARY_EXPR));
}

#[test]
fn pratt_postfix_chain() {
    let node = parse_expr_node("f(x).y(z)");
    let outer = child_nodes(&node).into_iter().next().expect("an expression child");
    assert_eq!(outer.kind().0, raw(SyntaxKind::POSTFIX_EXPR));
    let z_call_inner = child_nodes(&outer).into_iter().next().expect("inner POSTFIX child");
    assert_eq!(z_call_inner.kind().0, raw(SyntaxKind::POSTFIX_EXPR));
    let y_access_inner = child_nodes(&z_call_inner).into_iter().next().expect("inner POSTFIX child");
    assert_eq!(y_access_inner.kind().0, raw(SyntaxKind::POSTFIX_EXPR));
    let f_ident = child_nodes(&y_access_inner).into_iter().next().expect("primary at base");
    assert_eq!(f_ident.kind().0, raw(SyntaxKind::LITERAL_EXPR));
}

#[test]
fn pratt_comp_non_assoc_chain_does_not_nest() {
    let node = parse_expr_node("a < b < c");
    let outer = child_nodes(&node).into_iter().next().expect("first expression child");
    assert_eq!(outer.kind().0, raw(SyntaxKind::BINARY_EXPR));
    assert_eq!(
        child_kinds(&outer),
        vec![raw(SyntaxKind::LITERAL_EXPR), raw(SyntaxKind::LITERAL_EXPR)],
        "non-assoc comparison must not chain"
    );
}

// ── items: a brace opens nothing in a property ───────────────────────

#[test]
fn brace_after_assign_is_an_error() {
    let src = "Users : Person from User\n    rec = { name = User.n }\n";
    let root = parse_str(src);
    assert!(
        descendant_kind_exists(&root, SyntaxKind::ERROR),
        "`= {{ … }}` must be an error: nothing opens a brace in value position",
    );
}

#[test]
fn brace_after_an_expression_is_an_error() {
    let src = "Users : Person from User\n    name = User.name { lang = \"en\" }\n";
    let root = parse_str(src);
    let property = find_first_kind(&root, SyntaxKind::PROPERTY).expect("expected a PROPERTY");
    assert!(
        descendant_kind_exists(&property, SyntaxKind::POSTFIX_EXPR),
        "expected the property's value `User.name` to parse as a POSTFIX_EXPR",
    );
    assert!(
        descendant_kind_exists(&root, SyntaxKind::ERROR),
        "`User.name {{ … }}` must be an error: the annotation block is gone",
    );
}

#[test]
fn a_leading_dot_is_refused_and_names_the_qualified_form() {
    let src = "Users : Person from User\n    x = .name\n";
    assert!(
        messages(src).iter().any(|m| m.contains("qualified")),
        "a leading `.` must be refused by name, got {:?}",
        messages(src),
    );
    assert_eq!(underlined(src, span_of(src, "qualified")), ".name");
}

#[test]
fn rule2_dot_after_ident_is_postfix_method_access() {
    let src = "Users : Person from User\n    x = obj.method()\n";
    let root = parse_str(src);
    let property = find_first_kind(&root, SyntaxKind::PROPERTY).expect("expected a PROPERTY");
    assert!(
        descendant_kind_exists(&property, SyntaxKind::POSTFIX_EXPR),
        "expected POSTFIX_EXPR for `obj.method()`",
    );
}

// ── the retired spellings, each refused by name ──────────────────────

#[test]
fn the_vocabulary_declaration_is_refused_over_its_whole_line() {
    let src = "prefix ex: <https://example.org/>\n";
    assert_eq!(
        underlined(src, span_of(src, "no vocabulary")),
        "prefix ex: <https://example.org/>",
    );
}

#[test]
fn a_curie_in_a_shape_is_refused_over_all_three_tokens() {
    let src = "Users : ex:Person from User\n    name = User.name\n";
    assert_eq!(underlined(src, span_of(src, "bare")), "ex:Person");
}

#[test]
fn a_curie_in_a_property_key_is_refused_over_all_three_tokens() {
    let src = "Users : Person from User\n    ex:name = User.name\n";
    assert_eq!(underlined(src, span_of(src, "bare")), "ex:name");
}

#[test]
fn an_absolute_iri_property_key_is_refused_over_its_whole_line() {
    let src = "Users : Person from User\n    <http://xmlns.com/foaf/0.1/name> = User.name\n";
    assert_eq!(
        underlined(src, span_of(src, "absolute IRI")),
        "<http://xmlns.com/foaf/0.1/name> = User.name",
    );
}

#[test]
fn an_absolute_iri_shape_is_refused_over_its_whole_line() {
    let src = "Users : <https://example.org/Person> from User\n    name = User.name\n";
    assert_eq!(
        underlined(src, span_of(src, "absolute IRI")),
        "<https://example.org/Person> from User",
    );
}

#[test]
fn an_absolute_iri_with_no_scheme_slashes_also_takes_its_line() {
    let src = "Users : Person from User\n    <name> = User.name\n";
    assert_eq!(underlined(src, span_of(src, "absolute IRI")), "<name> = User.name");
}

#[test]
fn a_backtick_is_refused_and_names_the_quoted_string() {
    let src = "Users : Person from User\n    @subject = `u/${User.id}`\n";
    let msgs = messages(src);
    assert!(msgs.iter().any(|m| m.contains("backtick opens nothing")), "got {msgs:?}");
    assert_eq!(underlined(src, span_of(src, "backtick opens nothing")), "`");
}

#[test]
fn an_unterminated_absolute_iri_stops_at_the_line_break() {
    let src = "Users : <https://example.org/Person from User\n    name = User.name\n";
    assert_eq!(
        underlined(src, span_of(src, "absolute IRI")),
        "<https://example.org/Person from User",
    );
    let root = parse_str(src);
    assert!(
        find_first_kind(&root, SyntaxKind::PROPERTY).is_some(),
        "the next line must still parse as a property",
    );
}

// ── rule 3: the colon of a header and of a ternary ───────────────────

#[test]
fn rule3_colon_in_mapping_header_is_shape_sep() {
    let src = "Users : Person from User\n    @subject = \"u/{User.id}\"\n";
    let root = parse_str(src);
    let header = find_first_kind(&root, SyntaxKind::MAPPING_HEADER).expect("expected a MAPPING_HEADER");
    assert!(
        token_kinds(&header).contains(&raw(SyntaxKind::SHAPE_SEP)),
        "expected SHAPE_SEP token in MAPPING_HEADER",
    );
}

#[test]
fn rule3_a_tight_ternary_colon_is_still_a_ternary() {
    let src = "Users : Person from User\n    x = cond ? a:b\n";
    let root = parse_str(src);
    assert!(
        find_first_kind(&root, SyntaxKind::TERNARY_EXPR).is_some(),
        "`cond ? a:b` must be a ternary: nothing else claims the colon",
    );
    assert!(messages(src).is_empty(), "and it must parse clean, got {:?}", messages(src));
}

#[test]
fn rule3_colon_in_ternary_is_t_colon() {
    let src = "Users : Person from User\n    x = cond ? a : b\n";
    let root = parse_str(src);
    let ternary = find_first_kind(&root, SyntaxKind::TERNARY_EXPR).expect("expected TERNARY_EXPR");
    let kinds = token_kinds(&ternary);
    assert!(
        kinds.contains(&raw(SyntaxKind::T_QUESTION)),
        "expected T_QUESTION token in TERNARY_EXPR, got {kinds:?}",
    );
}

#[test]
fn rule4_single_lt_is_comparison_operator() {
    let src = "Users : Person from User\n    x = a < b\n";
    let root = parse_str(src);
    let property = find_first_kind(&root, SyntaxKind::PROPERTY).expect("expected a PROPERTY");
    let binary = find_first_kind(&property, SyntaxKind::BINARY_EXPR).expect("expected BINARY_EXPR");
    let kinds = token_kinds(&binary);
    assert!(
        kinds.contains(&raw(SyntaxKind::LT)),
        "expected LT token in BINARY_EXPR, got {kinds:?}",
    );
}

// ── rule 6: `@rename` and `@subject`, by position ────────────────────

#[test]
fn rule6_rename_above_a_type_binding_parses() {
    let src = "@rename(Person, \"http://xmlns.com/foaf/0.1/name\" as foaf_name)\n\
               type { Person } := io.shex(\"mixed.shex\")\n";
    let root = parse_str(src);
    let type_def = find_first_kind(&root, SyntaxKind::TYPE_DEF).expect("a TYPE_DEF");
    assert!(
        descendant_kind_exists(&type_def, SyntaxKind::RENAME_ATTR),
        "`RenameAttr*` is part of `TypeDef`, so the attribute is a CHILD of the binding",
    );
    assert!(
        descendant_kind_exists(&type_def, SyntaxKind::RENAME),
        "and each `\"…\" as name` is its own node",
    );
    assert!(messages(src).is_empty(), "got {:?}", messages(src));
}

#[test]
fn rule6_two_renames_and_two_attributes_both_parse() {
    let src = "@rename(Person, \"http://a/name\" as a_name, \"http://b/name\" as b_name)\n\
               @rename(City, \"http://a/label\" as a_label)\n\
               type { Person, City } := io.shex(\"m.shex\")\n";
    let root = parse_str(src);
    let type_def = find_first_kind(&root, SyntaxKind::TYPE_DEF).expect("a TYPE_DEF");
    let attrs: Vec<GreenNode> = child_nodes(&type_def)
        .into_iter()
        .filter(|c| is(c, SyntaxKind::RENAME_ATTR))
        .collect();
    let renames = attrs
        .iter()
        .flat_map(|a| child_nodes(a))
        .filter(|c| is(c, SyntaxKind::RENAME))
        .count();
    assert_eq!((attrs.len(), renames), (2, 3));
    assert!(messages(src).is_empty(), "got {:?}", messages(src));
}

#[test]
fn rule6_subject_at_top_level_names_the_position_it_belongs_in() {
    let src = "@subject = \"x\"\ntype { Person } := io.shex(\"m.shex\")\n";
    let msgs = messages(src);
    assert!(
        msgs.iter().any(|m| m.contains("@rename") && m.contains("MAPPING BODY")),
        "expected a message naming both positions, got {msgs:?}",
    );
}

#[test]
fn rule6_a_rename_with_no_type_binding_under_it_is_refused() {
    let src = "@rename(Person, \"http://a/name\" as a_name)\nUser := io.csv(\"u.csv\")\n";
    let msgs = messages(src);
    assert!(
        msgs.iter().any(|m| m.contains("has to follow it")),
        "expected the missing-binding message, got {msgs:?}",
    );
}

// ── rule 7: `as` is contextual ───────────────────────────────────────

#[test]
fn rule7_the_self_join_alias_is_an_alias_arg() {
    let src = "type { Category } := io.shex(\"c.shex\")\n\
               Node := io.csv(\"c.csv\")\n\
               Pairs := Node.join(Node as Other, on = Node.parent == Other.id)\n";
    let root = parse_str(src);
    let alias = find_first_kind(&root, SyntaxKind::ALIAS_ARG).expect("an ALIAS_ARG");
    assert_eq!(token_texts_of(&alias, SyntaxKind::IDENT), vec!["Node", "as", "Other"]);
    assert!(messages(src).is_empty(), "got {:?}", messages(src));
}

#[test]
fn rule7_as_is_an_ordinary_identifier_everywhere_else() {
    let src = "type { Person } := io.shex(\"m.shex\")\n\
               as := io.csv(\"as.csv\")\n\
               Users : Person from as\n    \
               as = as.as\n";
    assert!(messages(src).is_empty(), "got {:?}", messages(src));
    let root = parse_str(src);
    assert!(
        !descendant_kind_exists(&root, SyntaxKind::ALIAS_ARG),
        "nothing here is an alias: no argument position, no two-IDENT run",
    );
}

#[test]
fn rule7_a_named_argument_is_not_an_alias() {
    let src = "type { Person } := io.shex(\"m.shex\")\n\
               Node := io.csv(\"c.csv\")\n\
               Pairs := Node.join(Node as Other, on = Node.parent)\n";
    let root = parse_str(src);
    assert!(descendant_kind_exists(&root, SyntaxKind::ALIAS_ARG));
    assert!(
        descendant_kind_exists(&root, SyntaxKind::NAMED_ARG),
        "`on = …` is still a named argument",
    );
}

// ── rule 8: `policy` at top level ────────────────────────────────────

#[test]
fn rule8_a_policy_binding_is_a_policy_def() {
    let src = "policy := \"people.jsonld\"\n\
               type { Person } := io.shex(\"p.shex\")\n";
    let root = parse_str(src);
    let policy = find_first_kind(&root, SyntaxKind::POLICY_DEF).expect("a POLICY_DEF");
    assert_eq!(token_texts_of(&policy, SyntaxKind::STRING), vec!["\"people.jsonld\""]);
    assert!(messages(src).is_empty(), "got {:?}", messages(src));
}

#[test]
fn rule8_policy_is_an_ordinary_identifier_everywhere_else() {
    let src = "type { Person } := io.shex(\"p.shex\")\n\
               policy := io.csv(\"policy.csv\")\n\
               Users : Person from policy\n    \
               policy = policy.policy\n";
    let root = parse_str(src);
    assert!(
        !descendant_kind_exists(&root, SyntaxKind::POLICY_DEF),
        "`policy := io.csv(…)` is a SOURCE_DEF; only a STRING selects the policy binding",
    );
    assert!(
        descendant_kind_exists(&root, SyntaxKind::SOURCE_DEF),
        "and it is still a source binding",
    );
    assert!(messages(src).is_empty(), "got {:?}", messages(src));
}

#[test]
fn rule8_an_interpolated_reference_is_not_a_policy_binding() {
    let src = "policy := \"p-{users.id}.jsonld\"\n";
    let root = parse_str(src);
    assert!(!descendant_kind_exists(&root, SyntaxKind::POLICY_DEF));
}

#[test]
fn rule8_a_mapping_called_policy_is_a_mapping() {
    let src = "type { Person } := io.shex(\"p.shex\")\n\
               users := io.csv(\"u.csv\")\n\
               policy : Person from users\n    \
               name = users.name\n";
    let root = parse_str(src);
    assert!(descendant_kind_exists(&root, SyntaxKind::MAPPING));
    assert!(!descendant_kind_exists(&root, SyntaxKind::POLICY_DEF));
    assert!(messages(src).is_empty(), "got {:?}", messages(src));
}

#[test]
fn rule8_the_policy_binding_is_lossless() {
    let src = "policy   :=   \"a/b/people.jsonld\"\n";
    let root = parse_str(src);
    let policy = find_first_kind(&root, SyntaxKind::POLICY_DEF).expect("a POLICY_DEF");
    assert_eq!(policy.to_string(), "policy   :=   \"a/b/people.jsonld\"");
}

// ── the whole program ────────────────────────────────────────────────

const HELLO_FOSSIL: &str = "\
type { Person } := io.shex(\"personas.shex\")

User := io.csv(\"examples/users.csv\")

Users : Person from User
    @subject = \"https://example.org/user/{User.id}\"
    name = User.name
";

#[test]
fn parse_hello_produces_three_top_level_items() {
    let (_, root) = parse(HELLO_FOSSIL);
    let green = root.green();
    assert!(is(green, SyntaxKind::PROGRAM));
    let item_kinds: Vec<u16> = child_kinds(green)
        .into_iter()
        .filter(|k| *k != raw(SyntaxKind::ERROR))
        .collect();
    assert_eq!(
        item_kinds,
        vec![raw(SyntaxKind::TYPE_DEF), raw(SyntaxKind::SOURCE_DEF), raw(SyntaxKind::MAPPING)]
    );
}

#[test]
fn parse_hello_mapping_body_has_two_properties() {
    let (_, root) = parse(HELLO_FOSSIL);
    let mapping = child_nodes(root.green())
        .into_iter()
        .find(|c| is(c, SyntaxKind::MAPPING))
        .expect("expected a MAPPING child");
    assert!(
        child_nodes(&mapping).iter().any(|c| is(c, SyntaxKind::MAPPING_HEADER)),
        "MAPPING must contain a MAPPING_HEADER"
    );
    let body = child_nodes(&mapping)
        .into_iter()
        .find(|c| is(c, SyntaxKind::MAPPING_BODY))
        .expect("MAPPING must contain a MAPPING_BODY");
    let props = child_nodes(&body).into_iter().filter(|c| is(c, SyntaxKind::PROPERTY)).count();
    assert_eq!(props, 2, "MAPPING_BODY must have 2 PROPERTY children");
}

#[test]
fn parse_hello_round_trips_text() {
    let (_, root) = parse(HELLO_FOSSIL);
    assert_eq!(root.green().to_string(), HELLO_FOSSIL);
    assert!(messages(HELLO_FOSSIL).is_empty());
}

#[test]
fn the_retired_spellings_each_report() {
    const RETIRED: &str = "\
prefix ex: <https://example.org/>

User := io.csv(\"u.csv\")

Users : ex:Person from User
    <http://xmlns.com/foaf/0.1/name> = User.name
    email = .email
    slug = `u/${User.id}`
";
    let msgs = messages(RETIRED);
    for needle in ["no vocabulary", "bare", "absolute IRI", "qualified", "backtick opens nothing"] {
        assert!(
            msgs.iter().any(|m| m.contains(needle)),
            "no diagnostic mentioning {needle:?}; got {msgs:#?}",
        );
    }
}

// ── recovery on bytes no rule matches ────────────────────────────────

const HAPPY_PATH_BUDGET: Duration = Duration::from_millis(100);

fn timed_messages(input: &str) -> (Duration, Vec<String>) {
    let start = Instant::now();
    let msgs = messages(input);
    (start.elapsed(), msgs)
}

#[test]
fn parse_reports_the_bare_unlexable_byte() {
    let (elapsed, diags) = timed_messages("#");
    assert_eq!(
        diags,
        vec!["unexpected character `#` — no token starts with it"],
        "parse(\"#\") must produce exactly one diagnostic, naming the byte",
    );
    assert!(elapsed < HAPPY_PATH_BUDGET, "parse(\"#\") took {elapsed:?}");
}

#[test]
fn parse_terminates_on_unlexable_then_valid_item() {
    let input = "# stray comment\nusers := io.csv(\"users.csv\")\n";
    let (elapsed, diags) = timed_messages(input);
    assert!(
        diags.iter().any(|m| m.contains('#')),
        "expected a diagnostic naming the stray `#`; got {diags:?}",
    );
    assert!(elapsed < HAPPY_PATH_BUDGET, "took {elapsed:?}; expected < {HAPPY_PATH_BUDGET:?}");
}

#[test]
fn parse_reports_every_unlexable_byte() {
    let cases: &[(&str, usize)] = &[("$", 1), ("#", 1), ("##", 2), ("#$#", 3), ("\\", 1)];
    for (input, want) in cases {
        let (elapsed, diags) = timed_messages(input);
        assert_eq!(diags.len(), *want, "input {input:?}: expected {want} diagnostic(s), got {diags:?}");
        assert!(
            diags.iter().all(|m| m.starts_with("unexpected character")),
            "input {input:?}: every diagnostic must name its character; got {diags:?}",
        );
        assert!(elapsed < HAPPY_PATH_BUDGET, "input {input:?}: took {elapsed:?}");
    }
}

#[test]
fn parse_reports_an_unlexable_byte_between_two_good_items() {
    let input = "a := io.csv(\"a.csv\")\n#\nb := io.csv(\"b.csv\")\n";
    let (elapsed, diags) = timed_messages(input);
    assert_eq!(
        diags,
        vec!["unexpected character `#` — no token starts with it"],
        "the byte between two good items must be reported, and only it",
    );
    assert!(elapsed < HAPPY_PATH_BUDGET, "took {elapsed:?}; expected < {HAPPY_PATH_BUDGET:?}");
    let root = parse_str(input);
    let defs = child_kinds(&root).into_iter().filter(|k| *k == raw(SyntaxKind::SOURCE_DEF)).count();
    assert_eq!(defs, 2);
}

// ── laws on concrete values ──────────────────────────────────────────
#[test]
fn an_unlexable_byte_is_underlined_where_it_stands() {
    let src = "a := io.csv(\"a.csv\")\n$\n";
    assert_eq!(underlined(src, span_of(src, "unexpected character")), "$");
    let reports: Vec<_> = parse_text(src)
        .diagnostics
        .into_iter()
        .filter(|d| matches!(d, ParseDiagnostic::UnlexableCharacter { .. }))
        .collect();
    assert_eq!(reports.len(), 1);
    match &reports[0] {
        ParseDiagnostic::UnlexableCharacter { text, span } => {
            assert_eq!(text, "$");
            assert_eq!((span.start, span.end), (21, 22));
        }
        _ => unreachable!(),
    }
}

#[test]
fn the_tree_of_an_unlexable_text_still_holds_it() {
    for src in ["#", "#$#", "a := b\n  #\n", ""] {
        let (_, root) = parse(src);
        assert_eq!(root.green().to_string(), src);
    }
}


#[test]
fn every_tree_holds_its_text() {
    for src in [
        HELLO_FOSSIL,
        "",
        "#$#",
        "Users : <https://example.org/Person from User\n    name = User.name\n",
        "x := (a ? b\n  c\n",
        "@rename(\n",
        "\"open {hole\n",
    ] {
        let (parsed, root) = parse(src);
        assert_eq!(root.green().to_string(), src);
        let mut bytes = Vec::new();
        for e in parsed.events.iter() {
            if let fossil::parser::Event::Token(i) = e {
                let t = &parsed.tokens[*i];
                bytes.extend_from_slice(&src.as_bytes()[t.range.start..t.range.end]);
            }
        }
        assert_eq!(bytes, src.as_bytes());
    }
}

#[test]
fn a_tight_parse_of_a_policy_is_one_node_per_item() {
    let (parsed, _) = parse("policy := \"p.jsonld\"\n");
    assert_eq!(parsed.events[0], fossil::parser::Event::Start(SyntaxKind::PROGRAM));
    assert_eq!(parsed.events[1], fossil::parser::Event::Start(SyntaxKind::POLICY_DEF));
    assert_eq!(*parsed.events.last().unwrap(), fossil::parser::Event::Finish);
}

const ITEM_KINDS: [SyntaxKind; 6] = [
    SyntaxKind::SOURCE_DEF,
    SyntaxKind::POLICY_DEF,
    SyntaxKind::MULTI_SOURCE_DEF,
    SyntaxKind::TYPE_DEF,
    SyntaxKind::MAPPING,
    SyntaxKind::ERROR,
];

#[test]
fn only_items_and_errors_stand_under_the_program() {
    for src in [
        HELLO_FOSSIL,
        "#$# x := 1\n",
        "prefix ex: <http://e/>\nx := 1\n",
        ") ( x := 1\n",
        "@subject = x\n",
    ] {
        let (_, root) = parse(src);
        let raws: Vec<u16> = ITEM_KINDS.iter().map(|k| raw(*k)).collect();
        for k in child_kinds(&root.green()) {
            assert!(raws.contains(&k), "{src:?}: kind {k} under the program");
        }
    }
}

#[test]
fn only_properties_and_errors_stand_in_a_mapping_body() {
    let src = "Users : Person from User\n    name = User.name\n    ) junk\n    @subject = User.id\n";
    let (_, root) = parse(src);
    let body = find_first_kind(&root.green(), SyntaxKind::MAPPING_BODY).expect("a body");
    let kinds = child_kinds(&body);
    assert!(kinds.contains(&raw(SyntaxKind::ERROR)));
    for k in kinds {
        assert!(k == raw(SyntaxKind::PROPERTY) || k == raw(SyntaxKind::ERROR), "kind {k}");
    }
}

#[test]
fn an_expression_is_one_node() {
    for src in ["1 + 2 * 3", "-a.b(c)", "a ? b : c", "x < y", "(a or b) and c"] {
        let node = parse_expr_node(src);
        assert_eq!(child_nodes(&node).len(), 1, "{src:?}");
    }
}

#[test]
fn a_refused_pipeline_follows_its_expression_as_an_error() {
    let node = parse_expr_node("a |> f");
    assert_eq!(child_kinds(&node), vec![raw(SyntaxKind::LITERAL_EXPR), raw(SyntaxKind::ERROR)]);
}

#[test]
fn the_green_tree_reads_back_as_the_events() {
    let (parsed, root) = parse(HELLO_FOSSIL);
    let mut steps: Vec<(u8, u16, String)> = Vec::new();
    fn walk(n: &GreenNodeData, out: &mut Vec<(u8, u16, String)>) {
        out.push((0, n.kind().0, String::new()));
        for c in n.children() {
            match c {
                NodeOrToken::Node(m) => walk(m, out),
                NodeOrToken::Token(t) => out.push((1, t.kind().0, t.text().to_string())),
            }
        }
        out.push((2, 0, String::new()));
    }
    walk(&root.green(), &mut steps);
    let want: Vec<(u8, u16, String)> = parsed
        .events
        .iter()
        .map(|e| match e {
            fossil::parser::Event::Start(k) => (0, k.to_raw(), String::new()),
            fossil::parser::Event::Token(i) => {
                (1, parsed.tokens[*i].kind.to_raw(), parsed.tokens[*i].text.clone())
            }
            fossil::parser::Event::Finish => (2, 0, String::new()),
        })
        .collect();
    assert_eq!(steps, want);
}

#[test]
fn each_binding_ends_with_its_expression() {
    let (_, root) = parse(HELLO_FOSSIL);
    for k in [SyntaxKind::SOURCE_DEF, SyntaxKind::TYPE_DEF] {
        let node = find_first_kind(&root.green(), k).expect("the binding");
        assert_eq!(*child_kinds(&node).last().unwrap(), raw(SyntaxKind::EXPR));
    }
    let mapping = find_first_kind(&root.green(), SyntaxKind::MAPPING).expect("a mapping");
    assert_eq!(child_kinds(&mapping)[0], raw(SyntaxKind::MAPPING_HEADER));
    let body = find_first_kind(&mapping, SyntaxKind::MAPPING_BODY).expect("a body");
    for prop in child_nodes(&body) {
        let kinds = child_kinds(&prop);
        assert_eq!(kinds[0], raw(SyntaxKind::PROPERTY_LHS));
        assert_eq!(*kinds.last().unwrap(), raw(SyntaxKind::EXPR));
    }
}

#[test]
fn a_policy_binding_is_its_three_tokens() {
    let (_, root) = parse("policy := \"p.jsonld\"\n");
    let node = find_first_kind(&root.green(), SyntaxKind::POLICY_DEF).expect("a policy");
    assert!(child_nodes(&node).is_empty());
    assert_eq!(
        token_kinds(&node),
        vec![
            raw(SyntaxKind::IDENT),
            raw(SyntaxKind::WHITESPACE),
            raw(SyntaxKind::DEFINE),
            raw(SyntaxKind::WHITESPACE),
            raw(SyntaxKind::STRING)
        ]
    );
}

#[test]
fn a_comparison_refused_inside_an_operand_is_taken_by_the_level_above() {
    // The inner level stops at the second `<` (comparisons do not chain);
    // the outer level, which has consumed no comparison, takes it, so the
    // `and` ends up under the second comparison.
    let node = parse_expr_node("a and b < c < d");
    let outer = child_nodes(&node).into_iter().next().expect("an expression child");
    assert_eq!(outer.kind().0, raw(SyntaxKind::BINARY_EXPR));
    assert!(token_kinds(&outer).contains(&raw(SyntaxKind::LT)));
    let left = child_nodes(&outer).into_iter().next().expect("a left operand");
    assert_eq!(left.kind().0, raw(SyntaxKind::BINARY_EXPR));
    assert!(token_kinds(&left).contains(&raw(SyntaxKind::KW_AND)));
}

#[test]
fn only_arguments_stand_in_an_argument_list() {
    let node = parse_expr_node("io.csv(a, b = 1, Users as U, )");
    let list = find_first_kind(&node, SyntaxKind::ARG_LIST).expect("an argument list");
    assert_eq!(
        child_kinds(&list),
        vec![raw(SyntaxKind::ARG), raw(SyntaxKind::NAMED_ARG), raw(SyntaxKind::ALIAS_ARG)]
    );
}

#[test]
fn recover_to_stops_at_anchor() {
    // `prefix` lexes as an identifier; the anchor is the `:` after it.
    let mut p = Parser::new(lex_with_indents("garbage prefix ex: <x>"));
    p.start(SyntaxKind::PROGRAM);
    recover_to(&mut p, &[SyntaxKind::SHAPE_SEP]);
    assert_eq!(p.current(), Some(SyntaxKind::SHAPE_SEP));
    p.finish();
}

#[test]
fn recover_to_emits_one_diagnostic_per_call() {
    let mut p = Parser::new(lex_with_indents("garbage prefix ex: <x>"));
    p.start(SyntaxKind::PROGRAM);
    recover_to(&mut p, &[SyntaxKind::SHAPE_SEP]);
    assert_eq!(
        p.diagnostics.len(),
        1,
        "expected exactly one UnexpectedToken diagnostic for a single recover_to call",
    );
    assert!(matches!(p.diagnostics[0], ParseDiagnostic::UnexpectedToken { .. }));
    p.finish();
}

#[test]
fn recover_to_noop_when_already_at_anchor() {
    let mut p = Parser::new(lex_with_indents("prefix ex: <x>"));
    p.start(SyntaxKind::PROGRAM);
    let before = p.events.len();
    recover_to(&mut p, &[SyntaxKind::IDENT]);
    assert_eq!(p.diagnostics.len(), 0, "no diagnostic when already at anchor");
    assert_eq!(p.current(), Some(SyntaxKind::IDENT));
    assert_eq!(p.events.len(), before);
    p.finish();
}

#[test]
fn each_item_is_the_one_its_first_tokens_decide() {
    let src = "policy := 1\npolicy := \"p\"\ntype { A } := f()\n{ a, b } := f()\n) x := 1\nm : S from y\n";
    let (_, root) = parse(src);
    assert_eq!(
        child_kinds(&root.green()),
        vec![
            raw(SyntaxKind::SOURCE_DEF),
            raw(SyntaxKind::POLICY_DEF),
            raw(SyntaxKind::TYPE_DEF),
            raw(SyntaxKind::MULTI_SOURCE_DEF),
            raw(SyntaxKind::ERROR),
            raw(SyntaxKind::SOURCE_DEF),
            raw(SyntaxKind::MAPPING),
        ]
    );
}

#[test]
fn a_type_binding_reports_each_missing_brace_and_name() {
    let msgs = messages("@rename(A, \"http://example.org/a\" as b)\ntype A } := io.shex(\"m.shex\")\n");
    assert!(msgs.iter().any(|m| m.starts_with("expected LBRACE")), "{msgs:?}");
    let msgs = messages("type { A := io.shex(\"m.shex\")\n");
    assert!(msgs.iter().any(|m| m.starts_with("expected RBRACE")), "{msgs:?}");
    let msgs = messages("type { A, , B } := io.shex(\"m.shex\")\n");
    assert!(msgs.iter().any(|m| m.starts_with("expected IDENT")), "{msgs:?}");
    assert!(messages("type { A, B, } := io.shex(\"m.shex\")\n").is_empty());
    let root = parse_str("type { A, B } := io.shex(\"m.shex\")\n");
    let def = find_first_kind(&root, SyntaxKind::TYPE_DEF).expect("a type binding");
    let toks = token_kinds(&def);
    let want = [raw(SyntaxKind::LBRACE), raw(SyntaxKind::IDENT), raw(SyntaxKind::COMMA), raw(SyntaxKind::IDENT), raw(SyntaxKind::RBRACE), raw(SyntaxKind::DEFINE)];
    let real: Vec<u16> = toks
        .into_iter()
        .filter(|k| *k != raw(SyntaxKind::WHITESPACE) && *k != raw(SyntaxKind::NEWLINE))
        .collect();
    assert_eq!(&real[1..7], &want);
}

fn real_kinds_under(p: &Parse, at: usize) -> Vec<(SyntaxKind, String)> {
    // The real tokens and child nodes directly under the node opened at `at`.
    let mut out = Vec::new();
    let mut depth = 0usize;
    for e in &p.events[at + 1..] {
        match e {
            fossil::parser::Event::Start(k) => {
                if depth == 0 {
                    out.push((*k, String::new()));
                }
                depth += 1;
            }
            fossil::parser::Event::Finish => {
                if depth == 0 {
                    break;
                }
                depth -= 1;
            }
            fossil::parser::Event::Token(i) => {
                let t = &p.tokens[*i];
                let trivia = matches!(t.kind, SyntaxKind::WHITESPACE | SyntaxKind::NEWLINE | SyntaxKind::COMMENT);
                if depth == 0 && !trivia {
                    out.push((t.kind, t.text.clone()));
                }
            }
        }
    }
    out
}

#[test]
fn a_mapping_holds_its_header_parts_and_its_body() {
    let src = "Users : Person from User\n    name = User.name\n";
    let p = parse_text(src);
    let m = p
        .events
        .iter()
        .position(|e| *e == fossil::parser::Event::Start(SyntaxKind::MAPPING))
        .expect("a MAPPING");
    assert_eq!(p.events[m + 1], fossil::parser::Event::Start(SyntaxKind::MAPPING_HEADER));
    let header = real_kinds_under(&p, m + 1);
    assert_eq!(
        header.iter().map(|(k, _)| *k).collect::<Vec<_>>(),
        vec![SyntaxKind::IDENT, SyntaxKind::SHAPE_SEP, SyntaxKind::SHAPE_EXPR, SyntaxKind::KW_FROM, SyntaxKind::EXPR]
    );
    assert_eq!(header[0].1, "Users");
    let mapping = real_kinds_under(&p, m);
    assert_eq!(
        mapping.iter().map(|(k, _)| *k).collect::<Vec<_>>(),
        vec![SyntaxKind::MAPPING_HEADER, SyntaxKind::INDENT, SyntaxKind::MAPPING_BODY, SyntaxKind::DEDENT]
    );
}

#[test]
fn a_clean_program_has_no_error_node_and_no_report() {
    let p = parse_text("User := io.csv(\"u.csv\")\n\nUsers : Person from User\n    name = User.name\n");
    assert!(!p.events.contains(&fossil::parser::Event::Start(SyntaxKind::ERROR)));
    assert!(p.diagnostics.is_empty());
}

#[test]
fn a_refused_token_is_answered_by_an_error_node() {
    let p = parse_text("User := io.csv(\"u.csv\")\n)\n");
    assert!(!p.diagnostics.is_empty());
    assert!(p.events.contains(&fossil::parser::Event::Start(SyntaxKind::ERROR)));
}

fn error_nodes(p: &Parse) -> usize {
    p.events.iter().filter(|e| **e == fossil::parser::Event::Start(SyntaxKind::ERROR)).count()
}

fn node_reports(p: &Parse) -> usize {
    p.diagnostics.iter().filter(|d| !matches!(d, ParseDiagnostic::Malformed { .. })).count()
}

#[test]
fn each_report_but_a_malformed_form_has_its_error_node() {
    for src in [
        "User := io.csv(\"u.csv\")\n)\n",
        "Users : Person User\n    name = User.name\n",
        "type Person := io.shex(\"p.shex\")\n",
        "{ A, , B } := x\n@\n",
        "x := a |> f()\n",
    ] {
        let p = parse_text(src);
        assert!(node_reports(&p) <= error_nodes(&p), "{src:?}");
        if error_nodes(&p) == 0 {
            assert!(p.diagnostics.iter().all(|d| matches!(d, ParseDiagnostic::Malformed { .. })));
        }
    }
}

#[test]
fn a_ternary_without_its_colon_holds_an_unreported_error_node() {
    let p = parse_text("x := a ? b c\n");
    assert_eq!(error_nodes(&p), 1);
    assert!(p.diagnostics.is_empty());
}
