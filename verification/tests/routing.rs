//! Behavioural suite for the data-driven engine: locale negotiation,
//! pattern compilation, and the full parse/generate behaviour of a
//! two-level route space with localized patterns, sub-routes and query
//! parameters.

use chemin::locales::AcceptedLocales;
use chemin::locales::RouteLocales;
use chemin::pattern::LocalizedRoute;
use chemin::pattern::Path;
use chemin::pattern::PathComponent;
use chemin::pattern::SubRoute;
use chemin::query::QueryArg;
use chemin::query::QueryParam;
use chemin::router::FieldShape;
use chemin::router::LocalizedDef;
use chemin::router::RouteArg;
use chemin::router::RouteDef;
use chemin::router::RouteValue;
use chemin::router::Router;

fn s(x: &str) -> String {
    x.to_string()
}

fn ss(xs: &[&str]) -> Vec<String> {
    xs.iter().map(|x| x.to_string()).collect()
}

#[test]
fn test_accepted_locales_accept() {
    assert!(AcceptedLocales::Any.accept(&RouteLocales::Any));
    assert!(AcceptedLocales::Any.accept(&RouteLocales::Explicit(ss(&["en", "fr"]))));
    assert!(AcceptedLocales::Explicit(ss(&["en", "fr"])).accept(&RouteLocales::Any));
    assert!(AcceptedLocales::Explicit(ss(&["en", "fr"]))
        .accept(&RouteLocales::Explicit(ss(&["en", "fr"]))));
    assert!(AcceptedLocales::Explicit(ss(&["en", "fr"]))
        .accept(&RouteLocales::Explicit(ss(&["en"]))));
    assert!(AcceptedLocales::Explicit(ss(&["en", "fr"]))
        .accept(&RouteLocales::Explicit(ss(&["fr", "es"]))));
    assert!(!AcceptedLocales::Explicit(ss(&["en", "fr"]))
        .accept(&RouteLocales::Explicit(ss(&["es"]))));
}

#[test]
fn test_accepted_locales_accepted_locales_for_sub_route() {
    assert_eq!(
        AcceptedLocales::Any.accepted_locales_for_sub_route(&RouteLocales::Any),
        AcceptedLocales::Any,
    );
    assert_eq!(
        AcceptedLocales::Any.accepted_locales_for_sub_route(&RouteLocales::Explicit(ss(&[
            "en", "fr"
        ]))),
        AcceptedLocales::Explicit(ss(&["en", "fr"])),
    );
    assert_eq!(
        AcceptedLocales::Explicit(ss(&["en", "fr"]))
            .accepted_locales_for_sub_route(&RouteLocales::Any),
        AcceptedLocales::Explicit(ss(&["en", "fr"])),
    );
    assert_eq!(
        AcceptedLocales::Explicit(ss(&["en", "fr"]))
            .accepted_locales_for_sub_route(&RouteLocales::Explicit(ss(&["en", "fr"]))),
        AcceptedLocales::Explicit(ss(&["en", "fr"])),
    );
    assert_eq!(
        AcceptedLocales::Explicit(ss(&["en", "fr"]))
            .accepted_locales_for_sub_route(&RouteLocales::Explicit(ss(&["en", "es"]))),
        AcceptedLocales::Explicit(ss(&["en"])),
    );
}

#[test]
fn test_accepted_locales_resulting_locales() {
    assert_eq!(
        AcceptedLocales::Any.resulting_locales(&RouteLocales::Any),
        Vec::<String>::new(),
    );
    assert_eq!(
        AcceptedLocales::Any.resulting_locales(&RouteLocales::Explicit(ss(&["en", "fr"]))),
        ss(&["en", "fr"]),
    );
    assert_eq!(
        AcceptedLocales::Explicit(ss(&["en", "fr"])).resulting_locales(&RouteLocales::Any),
        ss(&["en", "fr"]),
    );
    assert_eq!(
        AcceptedLocales::Explicit(ss(&["en", "fr"]))
            .resulting_locales(&RouteLocales::Explicit(ss(&["en", "es"]))),
        ss(&["en"]),
    );
}

#[test]
fn test_path_parsing() {
    assert_eq!(
        Path::parse_str("/home"),
        Ok(Path {
            components: vec![PathComponent::Static(s("home"))],
            sub_route: None,
            trailing_slash: false,
        })
    );
    assert_eq!(
        Path::parse_str("/home/"),
        Ok(Path {
            components: vec![PathComponent::Static(s("home"))],
            sub_route: None,
            trailing_slash: true,
        })
    );
    assert_eq!(
        Path::parse_str("/hello/:"),
        Ok(Path {
            components: vec![PathComponent::Static(s("hello")), PathComponent::Param(None)],
            sub_route: None,
            trailing_slash: false,
        })
    );
    assert_eq!(
        Path::parse_str("/hello/:name/:age/aaa/..rest"),
        Ok(Path {
            components: vec![
                PathComponent::Static(s("hello")),
                PathComponent::Param(Some(s("name"))),
                PathComponent::Param(Some(s("age"))),
                PathComponent::Static(s("aaa")),
            ],
            sub_route: Some(SubRoute::Named(s("rest"))),
            trailing_slash: false,
        })
    );
    assert_eq!(
        Path::parse_str("/hello/:/.."),
        Ok(Path {
            components: vec![PathComponent::Static(s("hello")), PathComponent::Param(None)],
            sub_route: Some(SubRoute::Unnamed),
            trailing_slash: false,
        })
    );
}

fn def(locales: RouteLocales, path_spec: &str) -> LocalizedDef {
    LocalizedDef { locales, path_spec: s(path_spec) }
}

#[test]
fn test_parsing() {
    let defs = vec![vec![
        RouteDef {
            name: s("Home"),
            shape: FieldShape::NoFields,
            routes: vec![def(RouteLocales::Any, "/")],
            query_params: vec![],
            sub_target: None,
        },
        RouteDef {
            name: s("Hello"),
            shape: FieldShape::PositionalFields(1),
            routes: vec![
                def(RouteLocales::Explicit(ss(&["en"])), "/hello/:"),
                def(RouteLocales::Explicit(ss(&["fr"])), "/bonjour/:"),
                def(
                    RouteLocales::Explicit(ss(&["another-one", "yet-another-one"])),
                    "/hello/:",
                ),
                def(RouteLocales::Explicit(ss(&["en-US"])), "/hello/:/"),
            ],
            query_params: vec![],
            sub_target: None,
        },
        RouteDef {
            name: s("HelloWithNamedFields"),
            shape: FieldShape::NamedFields(ss(&["name", "age", "param"])),
            routes: vec![def(RouteLocales::Any, "/hello/:name/:age")],
            query_params: vec![QueryParam::Mandatory(s("param"))],
            sub_target: None,
        },
        RouteDef {
            name: s("HelloSubRoute"),
            shape: FieldShape::PositionalFields(2),
            routes: vec![def(RouteLocales::Any, "/hello/:/..")],
            query_params: vec![],
            sub_target: Some(1),
        },
        RouteDef {
            name: s("HelloSubRouteWithNamedFields"),
            shape: FieldShape::NamedFields(ss(&["name", "sub_route", "param"])),
            routes: vec![def(RouteLocales::Any, "/hello/:name/..sub_route")],
            query_params: vec![
                QueryParam::WithDefaultValue(s("name"), s("default")),
                QueryParam::Optional(s("param")),
            ],
            sub_target: Some(1),
        },
    ],
    vec![RouteDef {
        name: s("SubHome"),
        shape: FieldShape::NoFields,
        routes: vec![def(RouteLocales::Any, "/home")],
        query_params: vec![],
        sub_target: None,
    }]];
    let router = Router::parse(&defs).unwrap();
    let table = &router.tables[0];
    assert_eq!(table.len(), 5);
    assert_eq!(
        table[0].localized_routes,
        vec![LocalizedRoute {
            path: Path { components: vec![], sub_route: None, trailing_slash: true },
            locales: RouteLocales::Any,
        }]
    );
    assert_eq!(
        table[1].localized_routes,
        vec![
            LocalizedRoute {
                path: Path {
                    components: vec![
                        PathComponent::Static(s("hello")),
                        PathComponent::Param(None),
                    ],
                    sub_route: None,
                    trailing_slash: false,
                },
                locales: RouteLocales::Explicit(ss(&["en"])),
            },
            LocalizedRoute {
                path: Path {
                    components: vec![
                        PathComponent::Static(s("bonjour")),
                        PathComponent::Param(None),
                    ],
                    sub_route: None,
                    trailing_slash: false,
                },
                locales: RouteLocales::Explicit(ss(&["fr"])),
            },
            LocalizedRoute {
                path: Path {
                    components: vec![
                        PathComponent::Static(s("hello")),
                        PathComponent::Param(None),
                    ],
                    sub_route: None,
                    trailing_slash: false,
                },
                locales: RouteLocales::Explicit(ss(&["another-one", "yet-another-one"])),
            },
            LocalizedRoute {
                path: Path {
                    components: vec![
                        PathComponent::Static(s("hello")),
                        PathComponent::Param(None),
                    ],
                    sub_route: None,
                    trailing_slash: true,
                },
                locales: RouteLocales::Explicit(ss(&["en-US"])),
            },
        ]
    );
    assert_eq!(
        table[2].localized_routes,
        vec![LocalizedRoute {
            path: Path {
                components: vec![
                    PathComponent::Static(s("hello")),
                    PathComponent::Param(Some(s("name"))),
                    PathComponent::Param(Some(s("age"))),
                ],
                sub_route: None,
                trailing_slash: false,
            },
            locales: RouteLocales::Any,
        }]
    );
    assert_eq!(table[2].query_params, vec![QueryParam::Mandatory(s("param"))]);
    assert_eq!(
        table[3].localized_routes,
        vec![LocalizedRoute {
            path: Path {
                components: vec![PathComponent::Static(s("hello")), PathComponent::Param(None)],
                sub_route: Some(SubRoute::Unnamed),
                trailing_slash: false,
            },
            locales: RouteLocales::Any,
        }]
    );
    assert_eq!(
        table[4].localized_routes,
        vec![LocalizedRoute {
            path: Path {
                components: vec![
                    PathComponent::Static(s("hello")),
                    PathComponent::Param(Some(s("name"))),
                ],
                sub_route: Some(SubRoute::Named(s("sub_route"))),
                trailing_slash: false,
            },
            locales: RouteLocales::Any,
        }]
    );
    assert_eq!(
        table[4].query_params,
        vec![
            QueryParam::WithDefaultValue(s("name"), s("default")),
            QueryParam::Optional(s("param")),
        ]
    );
}

/// The route space of the behavioural test, as the integrator's own
/// strongly-typed values.
#[derive(PartialEq, Eq, Debug)]
enum TestRoute {
    Home,
    Hello,
    HelloWithName(String),
    HelloWithNameAndAge { name: String, age: u8 },
    WithSubRoute(TestSubRoute),
    WithNamedSubRoute { sub_route: TestSubRoute, mandatory_param: String },
}

#[derive(PartialEq, Eq, Debug)]
enum TestSubRoute {
    Home,
    Hello,
    WithParams { optional_param: Option<String>, param_with_default_value: String },
}

fn test_router() -> Router {
    let defs = vec![
        vec![
            RouteDef {
                name: s("Home"),
                shape: FieldShape::NoFields,
                routes: vec![def(RouteLocales::Any, "/")],
                query_params: vec![],
                sub_target: None,
            },
            RouteDef {
                name: s("Hello"),
                shape: FieldShape::NoFields,
                routes: vec![def(RouteLocales::Any, "/hello")],
                query_params: vec![],
                sub_target: None,
            },
            RouteDef {
                name: s("HelloWithName"),
                shape: FieldShape::PositionalFields(1),
                routes: vec![
                    def(RouteLocales::Explicit(ss(&["en-US", "en-UK"])), "/hello/:/"),
                    def(RouteLocales::Explicit(ss(&["fr"])), "/bonjour/:/"),
                ],
                query_params: vec![],
                sub_target: None,
            },
            RouteDef {
                name: s("HelloWithNameAndAge"),
                shape: FieldShape::NamedFields(ss(&["name", "age"])),
                routes: vec![def(RouteLocales::Any, "/hello/:name/:age")],
                query_params: vec![],
                sub_target: None,
            },
            RouteDef {
                name: s("WithSubRoute"),
                shape: FieldShape::PositionalFields(1),
                routes: vec![def(RouteLocales::Explicit(ss(&["en", "fr"])), "/with-sub-route/..")],
                query_params: vec![],
                sub_target: Some(1),
            },
            RouteDef {
                name: s("WithNamedSubRoute"),
                shape: FieldShape::NamedFields(ss(&["sub_route", "mandatory_param"])),
                routes: vec![def(RouteLocales::Any, "/with-named-sub-route/..sub_route")],
                query_params: vec![QueryParam::Mandatory(s("mandatory_param"))],
                sub_target: Some(1),
            },
        ],
        vec![
            RouteDef {
                name: s("Home"),
                shape: FieldShape::NoFields,
                routes: vec![def(RouteLocales::Any, "/home")],
                query_params: vec![],
                sub_target: None,
            },
            RouteDef {
                name: s("Hello"),
                shape: FieldShape::NoFields,
                routes: vec![def(RouteLocales::Explicit(ss(&["fr-FR", "fr"])), "/bonjour")],
                query_params: vec![],
                sub_target: None,
            },
            RouteDef {
                name: s("WithParams"),
                shape: FieldShape::NamedFields(ss(&[
                    "optional_param",
                    "param_with_default_value",
                ])),
                routes: vec![def(RouteLocales::Any, "/with-params")],
                query_params: vec![
                    QueryParam::Optional(s("optional_param")),
                    QueryParam::WithDefaultValue(s("param_with_default_value"), s("default")),
                ],
                sub_target: None,
            },
        ],
    ];
    Router::parse(&defs).unwrap()
}

fn arg(value: &RouteValue, name: &str) -> Option<String> {
    value
        .args
        .iter()
        .find(|a| a.name == name)
        .map(|a| a.value.clone())
}

fn query_arg(value: &RouteValue, name: &str) -> Option<Option<String>> {
    value
        .query
        .iter()
        .find(|a| a.name == name)
        .map(|a| a.value.clone())
}

/// The integrator's builder layer: turn a structural route value into the
/// typed route, applying each field's own textual parsing.
fn build_sub(value: &RouteValue) -> Option<TestSubRoute> {
    match value.case {
        0 => Some(TestSubRoute::Home),
        1 => Some(TestSubRoute::Hello),
        2 => Some(TestSubRoute::WithParams {
            optional_param: query_arg(value, "optional_param")?,
            param_with_default_value: query_arg(value, "param_with_default_value")??,
        }),
        _ => None,
    }
}

fn build(value: &RouteValue) -> Option<TestRoute> {
    match value.case {
        0 => Some(TestRoute::Home),
        1 => Some(TestRoute::Hello),
        2 => Some(TestRoute::HelloWithName(arg(value, "p0")?)),
        3 => Some(TestRoute::HelloWithNameAndAge {
            name: arg(value, "name")?,
            age: arg(value, "age")?.parse().ok()?,
        }),
        4 => Some(TestRoute::WithSubRoute(build_sub(value.sub.as_deref()?)?)),
        5 => Some(TestRoute::WithNamedSubRoute {
            sub_route: build_sub(value.sub.as_deref()?)?,
            mandatory_param: query_arg(value, "mandatory_param")??,
        }),
        _ => None,
    }
}

/// The integrator's destructuring layer: turn the typed route back into a
/// structural route value.
fn to_value_sub(route: &TestSubRoute) -> RouteValue {
    match route {
        TestSubRoute::Home => RouteValue { case: 0, args: vec![], sub: None, query: vec![] },
        TestSubRoute::Hello => RouteValue { case: 1, args: vec![], sub: None, query: vec![] },
        TestSubRoute::WithParams { optional_param, param_with_default_value } => RouteValue {
            case: 2,
            args: vec![],
            sub: None,
            query: vec![
                QueryArg { name: s("optional_param"), value: optional_param.clone() },
                QueryArg {
                    name: s("param_with_default_value"),
                    value: Some(param_with_default_value.clone()),
                },
            ],
        },
    }
}

fn to_value(route: &TestRoute) -> RouteValue {
    match route {
        TestRoute::Home => RouteValue { case: 0, args: vec![], sub: None, query: vec![] },
        TestRoute::Hello => RouteValue { case: 1, args: vec![], sub: None, query: vec![] },
        TestRoute::HelloWithName(name) => RouteValue {
            case: 2,
            args: vec![RouteArg { name: s("p0"), value: name.clone() }],
            sub: None,
            query: vec![],
        },
        TestRoute::HelloWithNameAndAge { name, age } => RouteValue {
            case: 3,
            args: vec![
                RouteArg { name: s("name"), value: name.clone() },
                RouteArg { name: s("age"), value: age.to_string() },
            ],
            sub: None,
            query: vec![],
        },
        TestRoute::WithSubRoute(sub) => RouteValue {
            case: 4,
            args: vec![],
            sub: Some(Box::new(to_value_sub(sub))),
            query: vec![],
        },
        TestRoute::WithNamedSubRoute { sub_route, mandatory_param } => RouteValue {
            case: 5,
            args: vec![],
            sub: Some(Box::new(to_value_sub(sub_route))),
            query: vec![QueryArg { name: s("mandatory_param"), value: Some(mandatory_param.clone()) }],
        },
    }
}

fn parse(router: &Router, url: &str, decode: bool) -> Option<(TestRoute, Vec<String>)> {
    let (value, locales) = router.parse_url(url, decode)?;
    Some((build(&value)?, locales))
}

fn generate(router: &Router, route: &TestRoute, locale: Option<&str>, encode: bool) -> Option<String> {
    router.generate_url(&to_value(route), locale, encode)
}

#[test]
fn test_derive() {
    let router = test_router();

    // Parsing.
    assert_eq!(parse(&router, "", false), Some((TestRoute::Home, vec![])));
    assert_eq!(parse(&router, "/", false), Some((TestRoute::Home, vec![])));

    assert_eq!(parse(&router, "/hello", false), Some((TestRoute::Hello, vec![])));
    assert_eq!(parse(&router, "/hello/", false), None);

    assert_eq!(parse(&router, "/hello/john", false), None);
    assert_eq!(
        parse(&router, "/hello/john/", false),
        Some((
            TestRoute::HelloWithName(s("john")),
            ss(&["en-US", "en-UK"]),
        ))
    );
    assert_eq!(parse(&router, "/bonjour/john", false), None);
    assert_eq!(
        parse(&router, "/bonjour/john%20doe/", false),
        Some((TestRoute::HelloWithName(s("john%20doe")), ss(&["fr"]))),
    );
    assert_eq!(
        parse(&router, "/bonjour/john%20doe/", true),
        Some((TestRoute::HelloWithName(s("john doe")), ss(&["fr"]))),
    );

    assert_eq!(parse(&router, "/hello/john/invalid_age", false), None);
    assert_eq!(
        parse(&router, "/hello/john/30", false),
        Some((
            TestRoute::HelloWithNameAndAge { name: s("john"), age: 30 },
            vec![],
        )),
    );

    assert_eq!(
        parse(&router, "/with-sub-route/home", false),
        Some((TestRoute::WithSubRoute(TestSubRoute::Home), ss(&["en", "fr"]))),
    );
    assert_eq!(parse(&router, "/with-sub-route/bonjour/", false), None);
    assert_eq!(
        parse(&router, "/with-sub-route/bonjour", false),
        Some((TestRoute::WithSubRoute(TestSubRoute::Hello), ss(&["fr"]))),
    );

    assert_eq!(parse(&router, "/with-named-sub-route/with-params", false), None);
    assert_eq!(
        parse(
            &router,
            "/with-named-sub-route/with-params?mandatory_param=value%20value+value",
            false,
        ),
        Some((
            TestRoute::WithNamedSubRoute {
                sub_route: TestSubRoute::WithParams {
                    optional_param: None,
                    param_with_default_value: s("default"),
                },
                mandatory_param: s("value value value"),
            },
            vec![],
        )),
    );
    assert_eq!(
        parse(
            &router,
            "/with-named-sub-route/with-params?optional_param=optional%2Bvalue&mandatory_param=value&param_with_default_value=default+value",
            false,
        ),
        Some((
            TestRoute::WithNamedSubRoute {
                sub_route: TestSubRoute::WithParams {
                    optional_param: Some(s("optional+value")),
                    param_with_default_value: s("default value"),
                },
                mandatory_param: s("value"),
            },
            vec![],
        )),
    );

    // Url generation.
    assert_eq!(generate(&router, &TestRoute::Home, None, false), Some(s("/")));
    assert_eq!(generate(&router, &TestRoute::Home, Some("es"), false), Some(s("/")));

    assert_eq!(generate(&router, &TestRoute::Hello, None, false), Some(s("/hello")));

    assert_eq!(
        generate(&router, &TestRoute::HelloWithName(s("John")), Some("en-US"), false),
        Some(s("/hello/John/")),
    );
    assert_eq!(
        generate(&router, &TestRoute::HelloWithName(s("John")), Some("en-UK"), false),
        Some(s("/hello/John/")),
    );
    assert_eq!(
        generate(&router, &TestRoute::HelloWithName(s("John Doe")), Some("fr"), false),
        Some(s("/bonjour/John Doe/")),
    );
    assert_eq!(
        generate(&router, &TestRoute::HelloWithName(s("John Doe.")), Some("fr"), true),
        Some(s("/bonjour/John%20Doe./")),
    );
    assert_eq!(
        generate(&router, &TestRoute::HelloWithName(s("John")), Some("en"), false),
        None,
    );
    assert_eq!(generate(&router, &TestRoute::HelloWithName(s("John")), None, false), None);

    assert_eq!(
        generate(
            &router,
            &TestRoute::HelloWithNameAndAge { name: s("John"), age: 30 },
            None,
            false,
        ),
        Some(s("/hello/John/30")),
    );

    assert_eq!(
        generate(&router, &TestRoute::WithSubRoute(TestSubRoute::Home), None, false),
        None,
    );
    assert_eq!(
        generate(&router, &TestRoute::WithSubRoute(TestSubRoute::Home), Some("en"), false),
        Some(s("/with-sub-route/home")),
    );
    assert_eq!(
        generate(&router, &TestRoute::WithSubRoute(TestSubRoute::Hello), Some("fr-FR"), false),
        None,
    );
    assert_eq!(
        generate(&router, &TestRoute::WithSubRoute(TestSubRoute::Hello), Some("fr"), false),
        Some(s("/with-sub-route/bonjour")),
    );
    assert_eq!(
        generate(&router, &TestRoute::WithSubRoute(TestSubRoute::Hello), Some("en"), false),
        None,
    );
    assert_eq!(
        generate(&router, &TestRoute::WithSubRoute(TestSubRoute::Hello), None, false),
        None,
    );

    assert_eq!(
        generate(
            &router,
            &TestRoute::WithNamedSubRoute {
                sub_route: TestSubRoute::WithParams {
                    optional_param: None,
                    param_with_default_value: s("default"),
                },
                mandatory_param: s("mandatory param"),
            },
            Some("en"),
            false,
        ),
        Some(s("/with-named-sub-route/with-params?mandatory_param=mandatory+param")),
    );
    assert_eq!(
        generate(
            &router,
            &TestRoute::WithNamedSubRoute {
                sub_route: TestSubRoute::WithParams {
                    optional_param: Some(s("optional+param")),
                    param_with_default_value: s("default&value"),
                },
                mandatory_param: s("mandatory param"),
            },
            Some("en"),
            false,
        ),
        Some(s(
            "/with-named-sub-route/with-params?mandatory_param=mandatory+param&optional_param=optional%2Bparam&param_with_default_value=default%26value"
        )),
    );
}
