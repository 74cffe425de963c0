//! Engine-level cases: query-string resolution, the percent codecs,
//! grammar errors, declaration errors, tie-breaking and localized
//! parsing/generation scenarios.

use chemin::locales::RouteLocales;
use chemin::pattern::Path;
use chemin::pattern::PathComponent;
use chemin::percent::decode_param;
use chemin::percent::decode_query_value;
use chemin::percent::encode_param;
use chemin::percent::encode_query_value;
use chemin::query::parse_query;
use chemin::query::emit_params;
use chemin::query::resolve_params;
use chemin::query::QueryArg;
use chemin::query::QueryPair;
use chemin::query::QueryParam;
use chemin::router::FieldShape;
use chemin::router::LocalizedDef;
use chemin::router::RouteArg;
use chemin::router::RouteDef;
use chemin::router::RouteError;
use chemin::router::RouteValue;
use chemin::router::Router;
use chemin::text::unnamed_param_name;

fn s(x: &str) -> String {
    x.to_string()
}

fn ss(xs: &[&str]) -> Vec<String> {
    xs.iter().map(|x| x.to_string()).collect()
}

fn def(locales: RouteLocales, path_spec: &str) -> LocalizedDef {
    LocalizedDef { locales, path_spec: s(path_spec) }
}

fn case(name: &str, shape: FieldShape, routes: Vec<LocalizedDef>) -> RouteDef {
    RouteDef { name: s(name), shape, routes, query_params: vec![], sub_target: None }
}

#[test]
fn query_last_occurrence_wins() {
    let pairs = parse_query("a=1&a=2").unwrap();
    assert_eq!(
        pairs,
        vec![
            QueryPair { key: s("a"), value: s("1") },
            QueryPair { key: s("a"), value: s("2") },
        ]
    );
    let args = resolve_params(&pairs, &vec![QueryParam::Mandatory(s("a"))]).unwrap();
    assert_eq!(args, vec![QueryArg { name: s("a"), value: Some(s("2")) }]);
}

#[test]
fn query_plus_decodes_to_space() {
    let pairs = parse_query("x=a+b").unwrap();
    assert_eq!(pairs, vec![QueryPair { key: s("x"), value: s("a b") }]);
}

#[test]
fn query_absent_optional_emits_nothing() {
    let emitted = emit_params(
        &vec![QueryParam::Optional(s("x"))],
        &vec![QueryArg { name: s("x"), value: None }],
    )
    .unwrap();
    assert_eq!(emitted, vec![]);
}

#[test]
fn query_missing_mandatory_fails() {
    let pairs = parse_query("other=1").unwrap();
    assert_eq!(resolve_params(&pairs, &vec![QueryParam::Mandatory(s("a"))]), None);
    assert_eq!(
        emit_params(&vec![QueryParam::Mandatory(s("a"))], &vec![]),
        None,
    );
}

#[test]
fn query_default_resolution_and_emission() {
    let pairs = parse_query("").unwrap();
    assert_eq!(pairs, vec![]);
    let qps = vec![QueryParam::WithDefaultValue(s("d"), s("ten"))];
    let args = resolve_params(&pairs, &qps).unwrap();
    assert_eq!(args, vec![QueryArg { name: s("d"), value: Some(s("ten")) }]);
    // A value equal to the default is not emitted; a differing one is.
    assert_eq!(
        emit_params(&qps, &vec![QueryArg { name: s("d"), value: Some(s("ten")) }]).unwrap(),
        vec![],
    );
    assert_eq!(
        emit_params(&qps, &vec![QueryArg { name: s("d"), value: Some(s("eleven")) }]).unwrap(),
        vec![QueryPair { key: s("d"), value: s("eleven") }],
    );
}

#[test]
fn query_empty_value_and_missing_equals() {
    let pairs = parse_query("a=&b").unwrap();
    assert_eq!(
        pairs,
        vec![
            QueryPair { key: s("a"), value: s("") },
            QueryPair { key: s("b"), value: s("") },
        ]
    );
}

#[test]
fn percent_codec_round_trips() {
    assert_eq!(encode_param("John Doe."), s("John%20Doe."));
    assert_eq!(decode_param("John%20Doe."), Some(s("John Doe.")));
    assert_eq!(encode_param("a/b?c"), s("a%2Fb%3Fc"));
    assert_eq!(decode_param(&encode_param("été/à+b c")), Some(s("été/à+b c")));
    // Malformed escapes pass through; invalid UTF-8 fails.
    assert_eq!(decode_param("100%"), Some(s("100%")));
    assert_eq!(decode_param("%2G"), Some(s("%2G")));
    assert_eq!(decode_param("%FF"), None);
}

#[test]
fn query_value_codec_round_trips() {
    assert_eq!(encode_query_value("a b+c"), s("a+b%2Bc"));
    assert_eq!(decode_query_value("a+b%2Bc"), Some(s("a b+c")));
    assert_eq!(decode_query_value(&encode_query_value("x= &y?")), Some(s("x= &y?")));
}

#[test]
fn unnamed_param_names_are_positional() {
    assert_eq!(unnamed_param_name(0), s("p0"));
    assert_eq!(unnamed_param_name(9), s("p9"));
    assert_eq!(unnamed_param_name(12), s("p12"));
    assert_eq!(unnamed_param_name(305), s("p305"));
}

#[test]
fn pattern_introspection() {
    let p = Path::parse_str("/hello/:name/:/aaa/..rest").unwrap();
    assert!(p.contains_unnamed_params_and_sub_routes());
    assert!(p.contains_named_params_and_sub_routes());
    assert_eq!(
        p.params(),
        vec![Some(s("name")), None],
    );
    assert!(p.has_named_param("name"));
    assert!(!p.has_named_param("rest"));
    assert!(!p.has_named_param("aaa"));

    let q = Path::parse_str("/a/:x/..").unwrap();
    assert!(q.contains_unnamed_params_and_sub_routes());
    assert!(q.contains_named_params_and_sub_routes());
    let r = Path::parse_str("/a/b").unwrap();
    assert!(!r.contains_unnamed_params_and_sub_routes());
    assert!(!r.contains_named_params_and_sub_routes());
}

#[test]
fn pattern_syntax_errors() {
    assert!(Path::parse_str("").is_err());
    assert!(Path::parse_str("no-slash").is_err());
    assert!(Path::parse_str("/x//y").is_err());
    assert!(Path::parse_str("/x/../y").is_err());
    assert!(Path::parse_str("/x/../").is_err());
    assert!(Path::parse_str("/x/..bad-name").is_err());
    assert!(Path::parse_str("/x/:9name").is_err());
    assert!(Path::parse_str("/x/:bad-name").is_err());
    assert!(Path::parse_str("/").is_ok());
    assert!(Path::parse_str("/..").is_ok());
    assert!(Path::parse_str("/x/:_ok9").is_ok());
}

#[test]
fn declaration_errors() {
    // A case must have at least one route.
    let r = Router::parse(&vec![vec![case("A", FieldShape::NoFields, vec![])]]);
    assert!(matches!(r, Err(RouteError::EmptyCase { .. })));

    // An explicit locale set must be non-empty.
    let r = Router::parse(&vec![vec![case(
        "A",
        FieldShape::NoFields,
        vec![def(RouteLocales::Explicit(vec![]), "/")],
    )]]);
    assert!(matches!(r, Err(RouteError::EmptyLocales { .. })));

    // Two routes of one case must not declare overlapping locale sets.
    let r = Router::parse(&vec![vec![case(
        "A",
        FieldShape::NoFields,
        vec![
            def(RouteLocales::Explicit(ss(&["en", "fr"])), "/a"),
            def(RouteLocales::Explicit(ss(&["fr"])), "/b"),
        ],
    )]]);
    assert!(matches!(r, Err(RouteError::LocaleOverlap { .. })));

    // The pattern must fit the field shape.
    let r = Router::parse(&vec![vec![case(
        "A",
        FieldShape::NoFields,
        vec![def(RouteLocales::Any, "/x/:")],
    )]]);
    assert!(matches!(r, Err(RouteError::ShapeMismatch { .. })));
    let r = Router::parse(&vec![vec![case(
        "A",
        FieldShape::PositionalFields(2),
        vec![def(RouteLocales::Any, "/x/:")],
    )]]);
    assert!(matches!(r, Err(RouteError::ShapeMismatch { .. })));
    let r = Router::parse(&vec![vec![case(
        "A",
        FieldShape::NamedFields(ss(&["a"])),
        vec![def(RouteLocales::Any, "/x/:b")],
    )]]);
    assert!(matches!(r, Err(RouteError::ShapeMismatch { .. })));

    // Query parameters only attach to named-field cases, naming fields.
    let mut d = case("A", FieldShape::NoFields, vec![def(RouteLocales::Any, "/")]);
    d.query_params = vec![QueryParam::Mandatory(s("q"))];
    let r = Router::parse(&vec![vec![d]]);
    assert!(matches!(r, Err(RouteError::QueryParamShape { .. })));
    let mut d = case(
        "A",
        FieldShape::NamedFields(ss(&["a"])),
        vec![def(RouteLocales::Any, "/:a")],
    );
    d.query_params = vec![QueryParam::Mandatory(s("q"))];
    let r = Router::parse(&vec![vec![d]]);
    assert!(matches!(r, Err(RouteError::QueryParamShape { .. })));

    // A sub-route pattern needs a sub-route target, and the other way round.
    let r = Router::parse(&vec![vec![case(
        "A",
        FieldShape::PositionalFields(1),
        vec![def(RouteLocales::Any, "/x/..")],
    )]]);
    assert!(matches!(r, Err(RouteError::SubRouteMismatch { .. })));

    // A sub-route target must lie strictly beyond its own table.
    let mut d = case(
        "A",
        FieldShape::PositionalFields(1),
        vec![def(RouteLocales::Any, "/x/..")],
    );
    d.sub_target = Some(0);
    let r = Router::parse(&vec![vec![d]]);
    assert!(matches!(r, Err(RouteError::BadSubTarget { .. })));

    // A bad path specification is reported with its place.
    let r = Router::parse(&vec![vec![case(
        "A",
        FieldShape::NoFields,
        vec![def(RouteLocales::Any, "bad")],
    )]]);
    assert!(matches!(r, Err(RouteError::PathSyntax { .. })));
}

#[test]
fn literal_segments_beat_parameters() {
    let router = Router::parse(&vec![vec![
        case(
            "Param",
            FieldShape::PositionalFields(1),
            vec![def(RouteLocales::Any, "/x/:")],
        ),
        case("Literal", FieldShape::NoFields, vec![def(RouteLocales::Any, "/x/y")]),
    ]])
    .unwrap();
    // The literal pattern wins although it is declared later.
    let (v, _) = router.parse_url("/x/y", false).unwrap();
    assert_eq!(v.case, 1);
    // Among equally specific patterns the earliest declared wins.
    let (v, _) = router.parse_url("/x/z", false).unwrap();
    assert_eq!(v.case, 0);
    assert_eq!(v.args, vec![RouteArg { name: s("p0"), value: s("z") }]);
}

#[test]
fn trailing_slash_distinguishes_routes() {
    let router = Router::parse(&vec![vec![
        case("About", FieldShape::NoFields, vec![def(RouteLocales::Any, "/about")]),
        case("AboutDir", FieldShape::NoFields, vec![def(RouteLocales::Any, "/about/")]),
    ]])
    .unwrap();
    assert_eq!(router.parse_url("/about", false).unwrap().0.case, 0);
    assert_eq!(router.parse_url("/about/", false).unwrap().0.case, 1);
}

#[test]
fn root_pattern_accepts_empty_url() {
    let router = Router::parse(&vec![vec![case(
        "Home",
        FieldShape::NoFields,
        vec![def(RouteLocales::Any, "/")],
    )]])
    .unwrap();
    assert_eq!(router.parse_url("/", false).unwrap().0.case, 0);
    assert_eq!(router.parse_url("", false).unwrap().0.case, 0);
    assert_eq!(router.parse_url("/x", false), None);
}

#[test]
fn localized_hello_scenario() {
    let router = Router::parse(&vec![vec![case(
        "Hello",
        FieldShape::PositionalFields(1),
        vec![
            def(RouteLocales::Explicit(ss(&["en"])), "/hello/:"),
            def(RouteLocales::Explicit(ss(&["fr"])), "/bonjour/:"),
        ],
    )]])
    .unwrap();
    let (v, locales) = router.parse_url("/hello/John", false).unwrap();
    assert_eq!(v.args, vec![RouteArg { name: s("p0"), value: s("John") }]);
    assert_eq!(locales, ss(&["en"]));
    let (v, locales) = router.parse_url("/bonjour/John", false).unwrap();
    assert_eq!(v.args, vec![RouteArg { name: s("p0"), value: s("John") }]);
    assert_eq!(locales, ss(&["fr"]));
    let john = RouteValue {
        case: 0,
        args: vec![RouteArg { name: s("p0"), value: s("John") }],
        sub: None,
        query: vec![],
    };
    assert_eq!(router.generate_url(&john, Some("fr"), false), Some(s("/bonjour/John")));
    assert_eq!(router.generate_url(&john, Some("es"), false), None);
}

#[test]
fn named_sub_route_with_mandatory_query() {
    let mut outer = case(
        "Outer",
        FieldShape::NamedFields(ss(&["rest", "q"])),
        vec![def(RouteLocales::Any, "/x/..rest")],
    );
    outer.query_params = vec![QueryParam::Mandatory(s("q"))];
    outer.sub_target = Some(1);
    let router = Router::parse(&vec![
        vec![outer],
        vec![case(
            "Pair",
            FieldShape::PositionalFields(2),
            vec![def(RouteLocales::Any, "/:/:")],
        )],
    ])
    .unwrap();
    // The sub-route parses "a/b", the outer consumes "x", and `q` binds.
    let (v, _) = router.parse_url("/x/a/b?q=1", false).unwrap();
    assert_eq!(v.case, 0);
    assert_eq!(v.query, vec![QueryArg { name: s("q"), value: Some(s("1")) }]);
    let sub = v.sub.as_deref().unwrap();
    assert_eq!(
        sub.args,
        vec![
            RouteArg { name: s("p0"), value: s("a") },
            RouteArg { name: s("p1"), value: s("b") },
        ]
    );
    // Without `q` the whole parse fails although the sub-route matches.
    assert_eq!(router.parse_url("/x/a/b", false), None);
    // A failing sub-route fails the whole parse although `q` is present.
    assert_eq!(router.parse_url("/x/a?q=1", false), None);
}

#[test]
fn generate_then_parse_round_trip() {
    let router = test_round_trip_router();
    let value = RouteValue {
        case: 0,
        args: vec![RouteArg { name: s("name"), value: s("John Doe/?&") }],
        sub: None,
        query: vec![QueryArg { name: s("q"), value: Some(s("a b&c=d")) }],
    };
    let url = router.generate_url(&value, Some("en"), true).unwrap();
    assert_eq!(url, s("/greet/John%20Doe%2F%3F%26?q=a+b%26c%3Dd"));
    let (back, locales) = router.parse_url(&url, true).unwrap();
    assert_eq!(back, value);
    assert_eq!(locales, ss(&["en", "fr"]));
}

fn test_round_trip_router() -> Router {
    let mut greet = case(
        "Greet",
        FieldShape::NamedFields(ss(&["name", "q"])),
        vec![def(RouteLocales::Explicit(ss(&["en", "fr"])), "/greet/:name")],
    );
    greet.query_params = vec![QueryParam::Mandatory(s("q"))];
    Router::parse(&vec![vec![greet]]).unwrap()
}
