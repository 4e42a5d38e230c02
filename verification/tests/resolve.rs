use oagen::ast::{Method, Type, TypeRef};
use oagen::dict::Dict;
use oagen::emit::{Buffer, Emit};
use oagen::oapi::error::ErrorKind;
use oagen::oapi::{
    ArraySchema, Components, Context, Document, MaybeRef, MediaTypeSrc, ObjectSchema, Operation,
    ParamLocation, ParameterSrc, RequestBodySrc, ResponseSrc, ResponsesSrc, Schema, SchemaKind,
    SchemaOrContent, SchemaOrRef, SecurityRequirement, SecuritySchemeSrc, ApiKeyLocation,
    PathItemSrc, StatusCodeSrc, StringSchema, op_parse_responses, parse_security,
};
use oagen::oapi::AsAst;

fn inline(kind: SchemaKind) -> SchemaOrRef {
    SchemaOrRef::Item(Schema { kind })
}

fn string_schema() -> SchemaOrRef {
    inline(SchemaKind::String(StringSchema {
        enumeration: Vec::new(),
    }))
}

fn widget_object() -> SchemaOrRef {
    inline(SchemaKind::Object(ObjectSchema {
        properties: vec![
            ("a".to_string(), string_schema()),
            ("b".to_string(), inline(SchemaKind::Number)),
        ],
        required: vec!["a".to_string()],
    }))
}

fn bare_operation(id: &str) -> Operation {
    Operation {
        operation_id: Some(id.to_string()),
        summary: None,
        description: None,
        parameters: Vec::new(),
        request_body: None,
        responses: ResponsesSrc {
            default: None,
            responses: Vec::new(),
        },
        security: None,
    }
}

fn widget_param(name: &str) -> MaybeRef<ParameterSrc> {
    MaybeRef::Item(ParameterSrc {
        location: ParamLocation::Query,
        name: name.to_string(),
        description: None,
        required: true,
        format: SchemaOrContent::Schema(SchemaOrRef::Reference(
            "#/components/schemas/Widget".to_string(),
        )),
    })
}

#[test]
fn registry_idempotence() {
    let mut op = bare_operation("listWidgets");
    op.parameters.push(widget_param("first"));
    op.parameters.push(widget_param("second"));
    let doc = Document {
        paths: vec![(
            "/widgets".to_string(),
            MaybeRef::Item(PathItemSrc {
                operations: vec![(Method::Get, op)],
            }),
        )],
        components: Some(Components {
            schemas: vec![("Widget".to_string(), widget_object())],
            security_schemes: Vec::new(),
        }),
        security: None,
    };
    let ast = doc.as_ast().expect("no diagnostics expected");
    assert_eq!(ast.types.len(), 1);
    assert_eq!(ast.types.entry_at(0).0, "Widget");
    let route = &ast.routes[0];
    let first = route.parameters.get(&"first".to_string()).unwrap();
    let second = route.parameters.get(&"second".to_string()).unwrap();
    assert_eq!(first.ty, TypeRef::Ref("Widget".to_string()));
    assert_eq!(second.ty, TypeRef::Ref("Widget".to_string()));
}

#[test]
fn object_with_optional_field() {
    let doc = Document {
        paths: Vec::new(),
        components: Some(Components {
            schemas: vec![("Thing".to_string(), widget_object())],
            security_schemes: Vec::new(),
        }),
        security: None,
    };
    let ast = doc.as_ast().expect("no diagnostics expected");
    let thing = ast.types.get(&"Thing".to_string()).unwrap();
    assert_eq!(
        *thing,
        Type::Object(vec![
            ("a".to_string(), TypeRef::Type(Type::String)),
            (
                "b".to_string(),
                TypeRef::Type(Type::Optional(Box::new(TypeRef::Type(Type::Number))))
            ),
        ])
    );
    let mut buffer = Buffer::new();
    TypeRef::Type(Type::Object(vec![
        ("a".to_string(), TypeRef::Type(Type::String)),
        (
            "b".to_string(),
            TypeRef::Type(Type::Optional(Box::new(TypeRef::Type(Type::Number)))),
        ),
    ]))
    .emit(&mut buffer);
    let text = buffer.render();
    assert!(text.contains("'b' ? :"));
    assert_eq!(
        text.trim(),
        "( { 'a' : string , 'b' ? : ( number | undefined ) , } )"
    );
}

#[test]
fn array_of_object_round_trip() {
    let doc = Document {
        paths: Vec::new(),
        components: Some(Components {
            schemas: vec![(
                "Things".to_string(),
                inline(SchemaKind::Array(ArraySchema {
                    items: Some(Box::new(widget_object())),
                })),
            )],
            security_schemes: Vec::new(),
        }),
        security: None,
    };
    let ast = doc.as_ast().expect("no diagnostics expected");
    let things = ast.types.get(&"Things".to_string()).unwrap();
    let mut buffer = Buffer::new();
    things.emit(&mut buffer);
    assert_eq!(
        buffer.render().trim(),
        "( ( { 'a' : string , 'b' ? : ( number | undefined ) , } ) ) [ ]"
    );
}

fn requirement(name: &str) -> SecurityRequirement {
    vec![(name.to_string(), Vec::new())]
}

#[test]
fn first_existing_scheme_wins() {
    let mut ctx = Context::new(None);
    ctx.security.insert(
        "second".to_string(),
        oagen::ast::Security {
            name: "second".to_string(),
            key: "X-Second".to_string(),
        },
    );
    let security = vec![requirement("first"), requirement("second")];
    let resolved = parse_security(&mut ctx, &security).expect("second scheme must resolve");
    assert_eq!(resolved.name, "second");
    assert_eq!(resolved.key, "X-Second");
    assert_eq!(ctx.errors.len(), 1);
    assert_eq!(
        ctx.errors[0].kind,
        ErrorKind::Generic("unknown security schema first".to_string())
    );
}

fn json_response() -> MaybeRef<ResponseSrc> {
    MaybeRef::Item(ResponseSrc {
        content: vec![(
            "application/json".to_string(),
            MediaTypeSrc {
                schema: Some(string_schema()),
            },
        )],
    })
}

#[test]
fn status_code_range_is_dropped() {
    let mut op = bare_operation("getThing");
    op.responses.responses = vec![
        (StatusCodeSrc::Code(200), json_response()),
        (StatusCodeSrc::Range(2), json_response()),
        (StatusCodeSrc::Code(404), json_response()),
    ];
    let mut ctx = Context::new(None);
    let responses = op_parse_responses(&mut ctx, &op);
    let codes: Vec<u64> = responses.specific.iter().map(|p| p.0 .0).collect();
    assert_eq!(codes, vec![200, 404]);
    assert_eq!(ctx.errors.len(), 1);
    assert_eq!(
        ctx.errors[0].kind,
        ErrorKind::Unsupported("status code range".to_string())
    );
}

#[test]
fn unresolved_reference_is_reported() {
    let doc = Document {
        paths: Vec::new(),
        components: Some(Components {
            schemas: vec![(
                "Broken".to_string(),
                SchemaOrRef::Reference("#/components/schemas/Missing".to_string()),
            )],
            security_schemes: Vec::new(),
        }),
        security: None,
    };
    let (_, errors) = doc.as_ast().expect_err("missing reference must be reported");
    assert!(errors
        .iter()
        .any(|e| e.kind == ErrorKind::UnresolvedReference("Missing".to_string())));
}

#[test]
fn cyclic_reference_fails_fast() {
    let doc = Document {
        paths: Vec::new(),
        components: Some(Components {
            schemas: vec![(
                "Loop".to_string(),
                inline(SchemaKind::Object(ObjectSchema {
                    properties: vec![(
                        "next".to_string(),
                        SchemaOrRef::Reference("#/components/schemas/Loop".to_string()),
                    )],
                    required: Vec::new(),
                })),
            )],
            security_schemes: Vec::new(),
        }),
        security: None,
    };
    let (_, errors) = doc.as_ast().expect_err("the cycle must be reported");
    assert!(errors
        .iter()
        .any(|e| e.kind == ErrorKind::Unsupported("cyclic reference".to_string())));
}

#[test]
fn merged_fragments_refuse_duplicate_keys() {
    let fragment = || {
        inline(SchemaKind::Object(ObjectSchema {
            properties: vec![("id".to_string(), inline(SchemaKind::Number))],
            required: vec!["id".to_string()],
        }))
    };
    let doc = Document {
        paths: Vec::new(),
        components: Some(Components {
            schemas: vec![(
                "Merged".to_string(),
                inline(SchemaKind::AllOf(vec![fragment(), fragment()])),
            )],
            security_schemes: Vec::new(),
        }),
        security: None,
    };
    let (_, errors) = doc.as_ast().expect_err("the duplicate must be reported");
    assert!(errors
        .iter()
        .any(|e| e.kind == ErrorKind::DuplicateKeys(vec!["id".to_string()])));
}

#[test]
fn unknown_mime_type_is_reported() {
    let mut op = bare_operation("send");
    op.request_body = Some(MaybeRef::Item(RequestBodySrc {
        content: vec![(
            "text/csv".to_string(),
            MediaTypeSrc {
                schema: Some(string_schema()),
            },
        )],
    }));
    let doc = Document {
        paths: vec![(
            "/send".to_string(),
            MaybeRef::Item(PathItemSrc {
                operations: vec![(Method::Post, op)],
            }),
        )],
        components: None,
        security: None,
    };
    let (ast, errors) = doc.as_ast().expect_err("the mime type must be reported");
    assert!(errors
        .iter()
        .any(|e| e.kind == ErrorKind::InvalidValue("mime type".to_string(), "text/csv".to_string())));
    assert!(ast.routes[0].request_body.is_empty());
}

#[test]
fn cookie_parameter_drops_route() {
    let mut op = bare_operation("withCookie");
    op.parameters.push(MaybeRef::Item(ParameterSrc {
        location: ParamLocation::Cookie,
        name: "session".to_string(),
        description: None,
        required: true,
        format: SchemaOrContent::Schema(string_schema()),
    }));
    let doc = Document {
        paths: vec![(
            "/c".to_string(),
            MaybeRef::Item(PathItemSrc {
                operations: vec![(Method::Get, op)],
            }),
        )],
        components: None,
        security: None,
    };
    let ast = doc.as_ast().expect("a dropped route is not a diagnostic");
    assert!(ast.routes.is_empty());
}

#[test]
fn operation_named_from_summary() {
    let mut op = bare_operation("ignored");
    op.operation_id = None;
    op.summary = Some("get all widgets".to_string());
    let doc = Document {
        paths: vec![(
            "/w".to_string(),
            MaybeRef::Item(PathItemSrc {
                operations: vec![(Method::Get, op)],
            }),
        )],
        components: None,
        security: None,
    };
    let ast = doc.as_ast().expect("no diagnostics expected");
    assert_eq!(ast.routes[0].name, "getAllWidgets");
}

#[test]
fn nameless_operation_is_dropped() {
    let mut op = bare_operation("ignored");
    op.operation_id = None;
    op.summary = None;
    let doc = Document {
        paths: vec![(
            "/w".to_string(),
            MaybeRef::Item(PathItemSrc {
                operations: vec![(Method::Get, op)],
            }),
        )],
        components: None,
        security: None,
    };
    let (ast, errors) = doc.as_ast().expect_err("the missing name must be reported");
    assert!(ast.routes.is_empty());
    assert!(errors.iter().any(
        |e| e.kind == ErrorKind::RequiredFieldOr("summary".to_string(), "operation_id".to_string())
    ));
}

#[test]
fn only_header_api_keys_register() {
    let doc = Document {
        paths: Vec::new(),
        components: Some(Components {
            schemas: Vec::new(),
            security_schemes: vec![
                (
                    "good".to_string(),
                    MaybeRef::Item(SecuritySchemeSrc::ApiKey {
                        location: ApiKeyLocation::Header,
                        name: "X-Token".to_string(),
                    }),
                ),
                (
                    "bad".to_string(),
                    MaybeRef::Item(SecuritySchemeSrc::Http),
                ),
            ],
        }),
        security: None,
    };
    let (ast, errors) = doc.as_ast().expect_err("the HTTP scheme must be reported");
    assert_eq!(ast.schemes.len(), 1);
    let good = ast.schemes.get(&"good".to_string()).unwrap();
    assert_eq!(good.key, "X-Token");
    assert!(errors
        .iter()
        .any(|e| e.kind == ErrorKind::Unsupported("HTTP authentication".to_string())));
}

#[test]
fn string_enumeration_collapses_when_empty() {
    let doc = Document {
        paths: Vec::new(),
        components: Some(Components {
            schemas: vec![
                (
                    "Plain".to_string(),
                    inline(SchemaKind::String(StringSchema {
                        enumeration: vec![None],
                    })),
                ),
                (
                    "Kinds".to_string(),
                    inline(SchemaKind::String(StringSchema {
                        enumeration: vec![Some("a".to_string()), None, Some("b".to_string())],
                    })),
                ),
            ],
            security_schemes: Vec::new(),
        }),
        security: None,
    };
    let ast = doc.as_ast().expect("no diagnostics expected");
    assert_eq!(*ast.types.get(&"Plain".to_string()).unwrap(), Type::String);
    assert_eq!(
        *ast.types.get(&"Kinds".to_string()).unwrap(),
        Type::Enum(vec!["a".to_string(), "b".to_string()])
    );
}

#[test]
fn code_success_range() {
    assert!(!oagen::ast::Code(199).is_ok());
    assert!(oagen::ast::Code(200).is_ok());
    assert!(oagen::ast::Code(298).is_ok());
    assert!(!oagen::ast::Code(299).is_ok());
}

#[test]
fn method_names_round_trip() {
    let all = [
        Method::Get,
        Method::Post,
        Method::Put,
        Method::Delete,
        Method::Patch,
        Method::Head,
        Method::Options,
        Method::Trace,
        Method::Connect,
    ];
    for m in all {
        assert_eq!(Method::from_name(m.as_str()), Some(m));
    }
    assert_eq!(Method::from_name("fetch"), None);
}

#[test]
fn dict_keeps_insertion_order() {
    let mut d: Dict<u64> = Dict::new();
    d.insert("b".to_string(), 1);
    d.insert("a".to_string(), 2);
    d.insert("b".to_string(), 3);
    assert_eq!(d.len(), 2);
    assert_eq!(d.entry_at(0).0, "b");
    assert_eq!(d.entry_at(0).1, 3);
    assert_eq!(d.entry_at(1).0, "a");
    assert_eq!(*d.get(&"a".to_string()).unwrap(), 2);
    assert!(!d.contains_key(&"c".to_string()));
}

#[test]
fn one_request_body_per_content_type() {
    let mut op = bare_operation("send");
    op.request_body = Some(MaybeRef::Item(RequestBodySrc {
        content: vec![
            (
                "application/json".to_string(),
                MediaTypeSrc {
                    schema: Some(string_schema()),
                },
            ),
            (
                "text/csv".to_string(),
                MediaTypeSrc {
                    schema: Some(string_schema()),
                },
            ),
            (
                "text/plain".to_string(),
                MediaTypeSrc {
                    schema: Some(string_schema()),
                },
            ),
        ],
    }));
    let doc = Document {
        paths: vec![(
            "/send".to_string(),
            MaybeRef::Item(PathItemSrc {
                operations: vec![(Method::Post, op)],
            }),
        )],
        components: None,
        security: None,
    };
    let (ast, errors) = doc.as_ast().expect_err("the csv entry must be reported");
    let bodies = &ast.routes[0].request_body;
    assert_eq!(bodies.len(), 2);
    assert_eq!(bodies[0].mime_type, oagen::ast::MimeType::Application_Json);
    assert_eq!(bodies[1].mime_type, oagen::ast::MimeType::Text_Plain);
    assert!(errors
        .iter()
        .any(|e| e.kind == ErrorKind::InvalidValue("mime type".to_string(), "text/csv".to_string())));
}

#[test]
fn referenced_request_body_is_reported() {
    let mut op = bare_operation("send");
    op.request_body = Some(MaybeRef::Reference(
        "#/components/requestBodies/Common".to_string(),
    ));
    let doc = Document {
        paths: vec![(
            "/send".to_string(),
            MaybeRef::Item(PathItemSrc {
                operations: vec![(Method::Post, op)],
            }),
        )],
        components: None,
        security: None,
    };
    let (ast, errors) = doc.as_ast().expect_err("the reference must be reported");
    assert!(ast.routes[0].request_body.is_empty());
    assert!(errors
        .iter()
        .any(|e| e.kind == ErrorKind::UnsupportedReference("request_body".to_string())));
}

#[test]
fn non_json_response_survives_without_typed_body() {
    let mut op = bare_operation("fetchPlain");
    op.responses.responses = vec![(
        StatusCodeSrc::Code(200),
        MaybeRef::Item(ResponseSrc {
            content: vec![(
                "text/plain".to_string(),
                MediaTypeSrc {
                    schema: Some(string_schema()),
                },
            )],
        }),
    )];
    let mut ctx = Context::new(None);
    let responses = op_parse_responses(&mut ctx, &op);
    assert_eq!(responses.specific.len(), 1);
    assert_eq!(responses.specific[0].0 .0, 200);
    assert_eq!(responses.specific[0].1.body, None);
    assert_eq!(ctx.errors.len(), 1);
    assert_eq!(
        ctx.errors[0].kind,
        ErrorKind::Generic("only `application/json` mime-type is supported".to_string())
    );
}

#[test]
fn contentless_response_is_dropped_silently() {
    let mut op = bare_operation("fetchNothing");
    op.responses.responses = vec![(
        StatusCodeSrc::Code(204),
        MaybeRef::Item(ResponseSrc {
            content: Vec::new(),
        }),
    )];
    let mut ctx = Context::new(None);
    let responses = op_parse_responses(&mut ctx, &op);
    assert!(responses.specific.is_empty());
    assert!(ctx.errors.is_empty());
}

#[test]
fn default_response_is_kept() {
    let mut op = bare_operation("withDefault");
    op.responses.default = Some(json_response());
    let mut ctx = Context::new(None);
    let responses = op_parse_responses(&mut ctx, &op);
    let default = responses.default.expect("the default response must survive");
    assert_eq!(default.body, Some(TypeRef::Type(Type::String)));
    assert!(ctx.errors.is_empty());
}

#[test]
fn non_object_fragment_abandons_merge() {
    let doc = Document {
        paths: Vec::new(),
        components: Some(Components {
            schemas: vec![(
                "Mixed".to_string(),
                inline(SchemaKind::AllOf(vec![
                    inline(SchemaKind::Object(ObjectSchema {
                        properties: vec![("id".to_string(), inline(SchemaKind::Number))],
                        required: vec!["id".to_string()],
                    })),
                    string_schema(),
                ])),
            )],
            security_schemes: Vec::new(),
        }),
        security: None,
    };
    let (ast, errors) = doc.as_ast().expect_err("the incompatible fragment must be reported");
    assert!(!ast.types.contains_key(&"Mixed".to_string()));
    assert!(errors
        .iter()
        .any(|e| e.kind == ErrorKind::Generic("all-of fragments must merge as objects".to_string())));
}

#[test]
fn alias_declaration_yields_the_aliased_name() {
    let doc = Document {
        paths: Vec::new(),
        components: Some(Components {
            schemas: vec![
                (
                    "Holder".to_string(),
                    inline(SchemaKind::Object(ObjectSchema {
                        properties: vec![(
                            "x".to_string(),
                            SchemaOrRef::Reference("#/components/schemas/AliasW".to_string()),
                        )],
                        required: vec!["x".to_string()],
                    })),
                ),
                (
                    "AliasW".to_string(),
                    SchemaOrRef::Reference("#/components/schemas/Widget".to_string()),
                ),
                ("Widget".to_string(), string_schema()),
            ],
            security_schemes: Vec::new(),
        }),
        security: None,
    };
    let ast = doc.as_ast().expect("no diagnostics expected");
    let holder = ast.types.get(&"Holder".to_string()).unwrap();
    assert_eq!(
        *holder,
        Type::Object(vec![("x".to_string(), TypeRef::Ref("Widget".to_string()))])
    );
    assert!(ast.types.contains_key(&"Widget".to_string()));
    assert!(!ast.types.contains_key(&"AliasW".to_string()));
}

#[test]
fn unresolvable_parameter_drops_route() {
    let mut op = bare_operation("broken");
    op.parameters.push(MaybeRef::Item(ParameterSrc {
        location: ParamLocation::Query,
        name: "widget".to_string(),
        description: None,
        required: true,
        format: SchemaOrContent::Schema(SchemaOrRef::Reference(
            "#/components/schemas/Missing".to_string(),
        )),
    }));
    let doc = Document {
        paths: vec![(
            "/w".to_string(),
            MaybeRef::Item(PathItemSrc {
                operations: vec![(Method::Get, op)],
            }),
        )],
        components: None,
        security: None,
    };
    let (ast, errors) = doc.as_ast().expect_err("the missing reference must be reported");
    assert!(ast.routes.is_empty());
    assert!(errors
        .iter()
        .any(|e| e.kind == ErrorKind::UnresolvedReference("Missing".to_string())));
}
