use fossil::ast::{children, Mapping, MappingHeader, ShapeExpr, SourceDef};
use fossil::kind::SyntaxKind;
use fossil::parser::Event;
use fossil::syntax::parse_text;

const HELLO_FOSSIL: &str = "\
type { Person } := io.shex(\"personas.shex\")

User := io.csv(\"examples/users.csv\")

Users : Person from User
    @subject = \"https://example.org/user/{User.id}\"
    name = User.name
";

#[test]
fn ast_view_extracts_the_shape_name() {
    let parse = parse_text(HELLO_FOSSIL);
    let mapping = children(&parse.events, 0)
        .into_iter()
        .find_map(|at| Mapping::cast(&parse, at))
        .expect("expected a MAPPING");
    let header: MappingHeader = mapping.header(&parse).expect("expected a MAPPING_HEADER");
    assert_eq!(header.name(&parse).as_deref(), Some("Users"));
    let shape = header.shape_expr(&parse).expect("expected a SHAPE_EXPR");
    assert_eq!(shape.name(&parse).as_deref(), Some("Person"));
}

#[test]
fn the_program_has_three_items_in_order() {
    let parse = parse_text(HELLO_FOSSIL);
    let kinds: Vec<Event> = children(&parse.events, 0).into_iter().map(|at| parse.events[at]).collect();
    assert_eq!(
        kinds,
        vec![
            Event::Start(SyntaxKind::TYPE_DEF),
            Event::Start(SyntaxKind::SOURCE_DEF),
            Event::Start(SyntaxKind::MAPPING),
        ]
    );
}

#[test]
fn a_source_definition_names_its_binding() {
    let parse = parse_text(HELLO_FOSSIL);
    let def = children(&parse.events, 0)
        .into_iter()
        .find_map(|at| SourceDef::cast(&parse, at))
        .expect("a SOURCE_DEF");
    assert_eq!(def.name(&parse).as_deref(), Some("User"));
}

#[test]
fn a_body_lists_its_properties_and_the_header_its_source() {
    let parse = parse_text(HELLO_FOSSIL);
    let mapping = children(&parse.events, 0)
        .into_iter()
        .find_map(|at| Mapping::cast(&parse, at))
        .expect("a MAPPING");
    let body = mapping.body(&parse).expect("a MAPPING_BODY");
    assert_eq!(body.properties(&parse).len(), 2);
    let header = mapping.header(&parse).expect("a MAPPING_HEADER");
    let source = header.source_expr(&parse).expect("an EXPR after `from`");
    assert_eq!(parse.events[source], Event::Start(SyntaxKind::EXPR));
    assert!(header.in_clause(&parse).is_none());
}

#[test]
fn a_cast_checks_the_kind() {
    let parse = parse_text(HELLO_FOSSIL);
    assert!(Mapping::cast(&parse, 0).is_none());
    assert!(ShapeExpr::cast(&parse, parse.events.len()).is_none());
    let mapping = children(&parse.events, 0)
        .into_iter()
        .find(|at| Mapping::cast(&parse, *at).is_some())
        .expect("a MAPPING");
    assert!(SourceDef::cast(&parse, mapping).is_none());
}

#[test]
fn a_refused_shape_has_no_name() {
    let parse = parse_text("Users : <https://example.org/Person> from User\n    name = User.name\n");
    let mapping = children(&parse.events, 0)
        .into_iter()
        .find_map(|at| Mapping::cast(&parse, at))
        .expect("a MAPPING");
    let header = mapping.header(&parse).expect("a MAPPING_HEADER");
    let shape = header.shape_expr(&parse).expect("a SHAPE_EXPR");
    assert_eq!(shape.name(&parse), None);
}
