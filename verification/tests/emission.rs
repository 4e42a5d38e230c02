use oagen::ast::{
    Code, Method, MimeType, Parameter, ParameterKind, Parameters, RequestBody, Response, Responses,
    Route, Security, SecuritySchemes, Type, TypeRef,
};
use oagen::dict::Dict;
use oagen::emit::{emit, Buffer, Emit, Token};

fn ty(inner: Type) -> TypeRef {
    TypeRef::Type(inner)
}

fn name(n: &str) -> TypeRef {
    TypeRef::Ref(n.to_string())
}

fn rendered(t: Type) -> String {
    let mut buffer = Buffer::new();
    ty(t).emit(&mut buffer);
    buffer.render().trim().to_string()
}

#[test]
fn any_type() {
    assert_eq!(rendered(Type::Any), "any");
}

#[test]
fn number_type() {
    assert_eq!(rendered(Type::Number), "number");
}

#[test]
fn string_type() {
    assert_eq!(rendered(Type::String), "string");
}

#[test]
fn boolean_type() {
    assert_eq!(rendered(Type::Boolean), "boolean");
}

#[test]
fn enum_abc_type() {
    assert_eq!(
        rendered(Type::Enum(vec![
            "a".to_string(),
            "b".to_string(),
            "c".to_string()
        ])),
        "( 'a' | 'b' | 'c' )"
    );
}

#[test]
fn array_simple_type() {
    assert_eq!(rendered(Type::Array(Box::new(ty(Type::Any)))), "( any ) [ ]");
}

#[test]
fn array_nested_type() {
    assert_eq!(
        rendered(Type::Array(Box::new(ty(Type::Array(Box::new(ty(
            Type::Any
        ))))))),
        "( ( any ) [ ] ) [ ]"
    );
}

fn abcd_object() -> Type {
    Type::Object(vec![
        ("a".to_string(), ty(Type::Any)),
        ("b".to_string(), ty(Type::String)),
        ("c".to_string(), ty(Type::Number)),
        ("d".to_string(), name("Test")),
    ])
}

#[test]
fn object_type() {
    assert_eq!(
        rendered(abcd_object()),
        "( { 'a' : any , 'b' : string , 'c' : number , 'd' : Test , } )"
    );
}

#[test]
fn array_object_type() {
    assert_eq!(
        rendered(Type::Array(Box::new(ty(abcd_object())))),
        "( ( { 'a' : any , 'b' : string , 'c' : number , 'd' : Test , } ) ) [ ]"
    );
}

#[test]
fn union_type() {
    assert_eq!(
        rendered(Type::Union(vec![
            ty(Type::Number),
            ty(Type::String),
            ty(Type::Boolean),
            name("Test"),
        ])),
        "( number | string | boolean | Test )"
    );
}

#[test]
fn optional_type() {
    assert_eq!(
        rendered(Type::Optional(Box::new(ty(Type::String)))),
        "( string | undefined )"
    );
}

#[test]
fn optional_ref() {
    assert_eq!(
        rendered(Type::Optional(Box::new(name("Test")))),
        "( Test | undefined )"
    );
}

#[test]
fn emit_type_decl() {
    let mut buffer = Buffer::new();
    ("Test".to_string(), Type::Any).emit(&mut buffer);
    assert_eq!(buffer.render().trim(), "export type Test = any ;");
}

fn scheme(name: &str, key: &str) -> Security {
    Security {
        name: name.to_string(),
        key: key.to_string(),
    }
}

#[test]
fn emit_security_schemes_init() {
    let mut buffer = Buffer::new();
    let mut schemes: SecuritySchemes = Dict::new();
    schemes.insert("name0".to_string(), scheme("name0", "header-key-0"));
    schemes.insert("name1".to_string(), scheme("name1", "header-key-1"));
    schemes.emit(&mut buffer);
    assert_eq!(
        buffer.render().trim(),
        [
            "let _baseUrl : string = \"\" ;",
            "let _authHeaders : Record < string , string > = { } ;",
            "export function init ( baseUrl : string , name0 : string , name1 : string , ) {",
            "_baseUrl = baseUrl ;",
            "_authHeaders = {",
            "'header-key-0' : name0 ,",
            "'header-key-1' : name1 ,",
            "} ;",
            "}"
        ]
        .join(" ")
    );
}

fn param(n: &str, kind: ParameterKind, t: TypeRef) -> Parameter {
    Parameter {
        name: n.to_string(),
        description: None,
        kind,
        ty: t,
    }
}

#[test]
fn emit_url() {
    let mut buffer = Buffer::new();
    let mut params: Parameters = Dict::new();
    params.insert(
        "a".to_string(),
        param("a", ParameterKind::Path, TypeRef::Ref(String::new())),
    );
    params.insert(
        "b".to_string(),
        param("b", ParameterKind::Path, TypeRef::Ref(String::new())),
    );
    params.insert(
        "c".to_string(),
        param("c", ParameterKind::Query, ty(Type::String)),
    );
    params.insert(
        "d".to_string(),
        param(
            "d",
            ParameterKind::Query,
            ty(Type::Optional(Box::new(ty(Type::String)))),
        ),
    );
    params.insert(
        "e".to_string(),
        param(
            "e",
            ParameterKind::Query,
            ty(Type::Array(Box::new(ty(Type::String)))),
        ),
    );
    params.insert(
        "f".to_string(),
        param(
            "f",
            ParameterKind::Query,
            ty(Type::Optional(Box::new(ty(Type::Array(Box::new(ty(
                Type::String,
            ))))))),
        ),
    );
    oagen::emit::emit_url(&"/endpoint/{a}/test/{b}".to_string(), &params, &mut buffer);
    assert_eq!(
        buffer.render().trim(),
        [
            "const url = new URL ( _baseUrl ) ;",
            "url . pathname = '/endpoint/{a}/test/{b}'",
            ". replace ( '{a}' , params [ 'a' ] )",
            ". replace ( '{b}' , params [ 'b' ] )",
            ";",
            "url . search = new URLSearchParams ( {",
            "... ( params [ 'c' ] && ( { 'c' : params [ 'c' ] . toString ( ) } ) ) ,",
            "... ( params [ 'd' ] && ( { 'd' : params [ 'd' ] . toString ( ) } ) ) ,",
            "... ( params [ 'e' ] && ( Object . fromEntries ( params [ 'e' ] . map ( ( v , i ) => [ `e[${i}]` , v . toString ( ) ] ) ) ) ) ,",
            "... ( params [ 'f' ] && ( Object . fromEntries ( params [ 'f' ] . map ( ( v , i ) => [ `f[${i}]` , v . toString ( ) ] ) ) ) ) ,",
            "} ) . toString ( ) ;"
        ]
        .join(" ")
    );
}

#[test]
fn tags_query_parameter_spread() {
    let mut buffer = Buffer::new();
    let mut params: Parameters = Dict::new();
    params.insert(
        "tags".to_string(),
        param(
            "tags",
            ParameterKind::Query,
            ty(Type::Optional(Box::new(ty(Type::Array(Box::new(ty(
                Type::String,
            ))))))),
        ),
    );
    oagen::emit::emit_url(&"/items".to_string(), &params, &mut buffer);
    let text = buffer.render();
    assert!(text.contains("... ( params [ 'tags' ] && ( Object . fromEntries ( params [ 'tags' ] . map ( ( v , i ) => [ `tags[${i}]` , v . toString ( ) ] ) ) ) ) ,"));
}

#[test]
fn multipart_body_is_opaque_form_data() {
    let route = Route {
        name: "uploadFile".to_string(),
        endpoint: "/files".to_string(),
        method: Method::Post,
        description: Some("Upload a file".to_string()),
        parameters: Dict::new(),
        request_body: vec![RequestBody {
            mime_type: MimeType::Multipart_FormData,
            headers: Vec::new(),
            ty: ty(Type::Object(vec![("file".to_string(), ty(Type::String))])),
        }],
        responses: Responses {
            default: None,
            specific: vec![(Code(200), Response { body: None })],
        },
        security: None,
    };
    let mut buffer = Buffer::new();
    oagen::emit::emit_route(&route, &mut buffer);
    let text = buffer.render();
    assert!(text.contains("body : FormData ,"));
    assert!(!text.contains("body : ( {"));
    assert!(text.contains("Form data:"));
    assert!(text.contains("- file (string)"));
}

#[test]
fn whole_program_layout() {
    let mut types: Dict<Type> = Dict::new();
    types.insert("Test".to_string(), Type::Any);
    let a = oagen::ast::Ast {
        routes: Vec::new(),
        types,
        schemes: Dict::new(),
        security: None,
    };
    let text = emit(&a);
    assert!(text.starts_with("let _baseUrl : string = \"\" ;"));
    assert!(text.contains("export type Test = any ;"));
    assert!(!text.ends_with(' '));
}

#[test]
fn reference_projections() {
    assert_eq!(ty(Type::Number).into_type(), Some(Type::Number));
    assert_eq!(name("Test").into_type(), None);
    assert_eq!(name("Test").into_name(), Some("Test".to_string()));
    assert_eq!(ty(Type::Number).into_name(), None);
}

#[test]
fn extend_appends_in_order() {
    let mut buffer = Buffer::new();
    buffer.extend(vec![
        Token::Identifier("a".to_string()),
        Token::Colon,
        Token::String("b".to_string()),
        Token::Semicolon,
    ]);
    assert_eq!(buffer.render().trim(), "a : 'b' ;");
}
