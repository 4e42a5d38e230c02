//! The intermediate representation: type nodes, routes, parameters,
//! responses and security schemes, together with their mathematical models.

use vstd::prelude::*;

verus! {

broadcast use vstd::std_specs::vec::group_vec_axioms, vstd::seq::group_seq_axioms;

// ---------------------------------------------------------------------------
// Mathematical model of type nodes
// ---------------------------------------------------------------------------

/// The model of a type node: as `Type`, with strings abstracted to
/// character sequences.
pub enum Shape {
    Any,
    Number,
    String,
    Boolean,
    Enum(Seq<Seq<char>>),
    Array(Box<ShapeRef>),
    Object(Seq<(Seq<char>, ShapeRef)>),
    Union(Seq<ShapeRef>),
    Optional(Box<ShapeRef>),
}

/// The model of a type reference: an inline shape or a symbolic name.
pub enum ShapeRef {
    Type(Box<Shape>),
    Ref(Seq<char>),
}

// ---------------------------------------------------------------------------
// Type nodes
// ---------------------------------------------------------------------------

/// A canonical type node. `Optional` never wraps another `Optional`
/// directly; an `Enum` with no variants is never built (it collapses to
/// `String` at resolution).
#[derive(PartialEq, Debug)]
pub enum Type {
    Any,
    Number,
    String,
    Boolean,
    Enum(Vec<String>),
    Array(Box<TypeRef>),
    Object(Vec<(String, TypeRef)>),
    Union(Vec<TypeRef>),
    Optional(Box<TypeRef>),
}

/// Either an inline type node or a symbolic name pointing into the type
/// registry.
#[derive(PartialEq, Debug)]
pub enum TypeRef {
    Type(Type),
    Ref(String),
}

pub open spec fn strings_shape(v: Seq<String>) -> Seq<Seq<char>> {
    v.map_values(|s: String| s@)
}

pub open spec fn ty_shape(t: Type) -> Shape
    decreases t,
{
    match t {
        Type::Any => Shape::Any,
        Type::Number => Shape::Number,
        Type::String => Shape::String,
        Type::Boolean => Shape::Boolean,
        Type::Enum(vs) => Shape::Enum(strings_shape(vs@)),
        Type::Array(b) => Shape::Array(Box::new(ref_shape(*b))),
        Type::Object(fields) => Shape::Object(fields_shape(fields@)),
        Type::Union(parts) => Shape::Union(refs_shape(parts@)),
        Type::Optional(b) => Shape::Optional(Box::new(ref_shape(*b))),
    }
}

pub open spec fn ref_shape(r: TypeRef) -> ShapeRef
    decreases r,
{
    match r {
        TypeRef::Type(t) => ShapeRef::Type(Box::new(ty_shape(t))),
        TypeRef::Ref(name) => ShapeRef::Ref(name@),
    }
}

pub open spec fn refs_shape(s: Seq<TypeRef>) -> Seq<ShapeRef>
    decreases s,
{
    if s.len() == 0 {
        Seq::empty()
    } else {
        refs_shape(s.drop_last()).push(ref_shape(s.last()))
    }
}

pub open spec fn fields_shape(s: Seq<(String, TypeRef)>) -> Seq<(Seq<char>, ShapeRef)>
    decreases s,
{
    if s.len() == 0 {
        Seq::empty()
    } else {
        fields_shape(s.drop_last()).push((s.last().0@, ref_shape(s.last().1)))
    }
}

impl View for Type {
    type V = Shape;

    open spec fn view(&self) -> Shape {
        ty_shape(*self)
    }
}

impl View for TypeRef {
    type V = ShapeRef;

    open spec fn view(&self) -> ShapeRef {
        ref_shape(*self)
    }
}

/// The length of `refs_shape` matches its input, entry by entry.
pub proof fn lemma_refs_shape(s: Seq<TypeRef>)
    ensures
        refs_shape(s).len() == s.len(),
        forall|i: int| 0 <= i < s.len() ==> refs_shape(s)[i] == ref_shape(s[i]),
    decreases s.len(),
{
    if s.len() > 0 {
        lemma_refs_shape(s.drop_last());
    }
}

/// The length of `fields_shape` matches its input, entry by entry.
pub proof fn lemma_fields_shape(s: Seq<(String, TypeRef)>)
    ensures
        fields_shape(s).len() == s.len(),
        forall|i: int|
            0 <= i < s.len() ==> fields_shape(s)[i] == (s[i].0@, ref_shape(s[i].1)),
    decreases s.len(),
{
    if s.len() > 0 {
        lemma_fields_shape(s.drop_last());
    }
}

impl TypeRef {
    /// The inline type node, if this reference is not symbolic.
    pub fn into_type(self) -> (r: Option<Type>)
        ensures
            match self@ {
                ShapeRef::Type(s) => r is Some && r->0@ == *s,
                ShapeRef::Ref(_) => r is None,
            },
    {
        match self {
            TypeRef::Type(ty) => Some(ty),
            TypeRef::Ref(_) => None,
        }
    }

    /// The symbolic name, if this reference is not an inline type node.
    pub fn into_name(self) -> (r: Option<String>)
        ensures
            match self@ {
                ShapeRef::Type(_) => r is None,
                ShapeRef::Ref(name) => r is Some && r->0@ == name,
            },
    {
        match self {
            TypeRef::Type(_) => None,
            TypeRef::Ref(name) => Some(name),
        }
    }
}

/// A copy of the type node, shape for shape.
#[verifier::loop_isolation(false)]
pub fn clone_type(t: &Type) -> (r: Type)
    ensures
        r@ == t@,
    decreases *t,
{
    match t {
        Type::Any => Type::Any,
        Type::Number => Type::Number,
        Type::String => Type::String,
        Type::Boolean => Type::Boolean,
        Type::Enum(vs) => {
            let mut out: Vec<String> = Vec::new();
            let n = vs.len();
            let mut i: usize = 0;
            while i < n
                invariant
                    n == vs@.len(),
                    i <= n,
                    out@.len() == i,
                    forall|j: int| 0 <= j < i ==> out@[j] == vs@[j],
                decreases n - i,
            {
                out.push(vs[i].clone());
                i = i + 1;
            }
            proof {
                assert(out@ =~= vs@);
            }
            Type::Enum(out)
        },
        Type::Array(b) => Type::Array(Box::new(clone_type_ref(&**b))),
        Type::Object(fields) => {
            let mut out: Vec<(String, TypeRef)> = Vec::new();
            let n = fields.len();
            let mut i: usize = 0;
            while i < n
                invariant
                    n == fields@.len(),
                    i <= n,
                    out@.len() == i,
                    forall|j: int|
                        0 <= j < i ==> out@[j].0 == fields@[j].0 && ref_shape(out@[j].1)
                            == ref_shape(fields@[j].1),
                decreases n - i,
            {
                let entry = (fields[i].0.clone(), clone_type_ref(&fields[i].1));
                out.push(entry);
                i = i + 1;
            }
            proof {
                lemma_fields_shape(out@);
                lemma_fields_shape(fields@);
                assert(fields_shape(out@) =~= fields_shape(fields@));
            }
            Type::Object(out)
        },
        Type::Union(parts) => {
            let mut out: Vec<TypeRef> = Vec::new();
            let n = parts.len();
            let mut i: usize = 0;
            while i < n
                invariant
                    n == parts@.len(),
                    i <= n,
                    out@.len() == i,
                    forall|j: int| 0 <= j < i ==> ref_shape(out@[j]) == ref_shape(parts@[j]),
                decreases n - i,
            {
                let entry = clone_type_ref(&parts[i]);
                out.push(entry);
                i = i + 1;
            }
            proof {
                lemma_refs_shape(out@);
                lemma_refs_shape(parts@);
                assert(refs_shape(out@) =~= refs_shape(parts@));
            }
            Type::Union(out)
        },
        Type::Optional(b) => Type::Optional(Box::new(clone_type_ref(&**b))),
    }
}

/// A copy of the type reference, shape for shape.
pub fn clone_type_ref(r: &TypeRef) -> (out: TypeRef)
    ensures
        out@ == r@,
    decreases *r,
{
    match r {
        TypeRef::Type(t) => TypeRef::Type(clone_type(t)),
        TypeRef::Ref(name) => TypeRef::Ref(name.clone()),
    }
}

// ---------------------------------------------------------------------------
// Status codes
// ---------------------------------------------------------------------------

/// A literal HTTP status code.
#[derive(Clone, Copy, PartialEq, Eq, PartialOrd, Ord, Hash, Debug, Structural)]
pub struct Code(pub u64);

impl Code {
    /// Whether the code lies in the success range 200..299.
    pub fn is_ok(&self) -> (r: bool)
        ensures
            r == (200 <= self.0 < 299),
    {
        200 <= self.0 && self.0 < 299
    }
}

// ---------------------------------------------------------------------------
// Methods and content types
// ---------------------------------------------------------------------------

/// An HTTP request method.
#[derive(Clone, Copy, PartialEq, Eq, Debug, Structural)]
pub enum Method {
    Get,
    Post,
    Put,
    Delete,
    Patch,
    Head,
    Options,
    Trace,
    Connect,
}

/// The lower-case name of a method.
pub open spec fn method_name(m: Method) -> Seq<char> {
    match m {
        Method::Get => "get"@,
        Method::Post => "post"@,
        Method::Put => "put"@,
        Method::Delete => "delete"@,
        Method::Patch => "patch"@,
        Method::Head => "head"@,
        Method::Options => "options"@,
        Method::Trace => "trace"@,
        Method::Connect => "connect"@,
    }
}

impl Method {
    /// The lower-case name of the method.
    pub fn as_str(&self) -> (r: &'static str)
        ensures
            r@ == method_name(*self),
    {
        match self {
            Method::Get => "get",
            Method::Post => "post",
            Method::Put => "put",
            Method::Delete => "delete",
            Method::Patch => "patch",
            Method::Head => "head",
            Method::Options => "options",
            Method::Trace => "trace",
            Method::Connect => "connect",
        }
    }

    /// The method with the given lower-case name, if there is one.
    pub fn from_name(s: &str) -> (r: Option<Method>)
        ensures
            match r {
                Some(m) => s@ == method_name(m),
                None => forall|m: Method| s@ != method_name(m),
            },
    {
        if crate::util::str_eq(s, "get") {
            Some(Method::Get)
        } else if crate::util::str_eq(s, "post") {
            Some(Method::Post)
        } else if crate::util::str_eq(s, "put") {
            Some(Method::Put)
        } else if crate::util::str_eq(s, "delete") {
            Some(Method::Delete)
        } else if crate::util::str_eq(s, "patch") {
            Some(Method::Patch)
        } else if crate::util::str_eq(s, "head") {
            Some(Method::Head)
        } else if crate::util::str_eq(s, "options") {
            Some(Method::Options)
        } else if crate::util::str_eq(s, "trace") {
            Some(Method::Trace)
        } else if crate::util::str_eq(s, "connect") {
            Some(Method::Connect)
        } else {
            proof {
                assert forall|m: Method| s@ != method_name(m) by {
                    match m {
                        Method::Get => assert(s@ != "get"@),
                        Method::Post => assert(s@ != "post"@),
                        Method::Put => assert(s@ != "put"@),
                        Method::Delete => assert(s@ != "delete"@),
                        Method::Patch => assert(s@ != "patch"@),
                        Method::Head => assert(s@ != "head"@),
                        Method::Options => assert(s@ != "options"@),
                        Method::Trace => assert(s@ != "trace"@),
                        Method::Connect => assert(s@ != "connect"@),
                    }
                }
            }
            None
        }
    }
}

/// A supported request content type.
#[allow(non_camel_case_types)]
#[derive(Clone, Copy, PartialEq, Eq, Debug, Structural)]
pub enum MimeType {
    Multipart_FormData,
    Application_FormUrlEncoded,
    Application_Json,
    Text_Plain,
}

/// The full name of a content type.
pub open spec fn mime_name(m: MimeType) -> Seq<char> {
    match m {
        MimeType::Multipart_FormData => "multipart/form-data"@,
        MimeType::Application_FormUrlEncoded => "application/x-www-form-urlencoded"@,
        MimeType::Application_Json => "application/json"@,
        MimeType::Text_Plain => "text/plain"@,
    }
}

impl MimeType {
    /// The full name of the content type.
    pub fn as_str(&self) -> (r: &'static str)
        ensures
            r@ == mime_name(*self),
    {
        match self {
            MimeType::Multipart_FormData => "multipart/form-data",
            MimeType::Application_FormUrlEncoded => "application/x-www-form-urlencoded",
            MimeType::Application_Json => "application/json",
            MimeType::Text_Plain => "text/plain",
        }
    }

    /// The content type with the given name, if it is a supported one.
    pub fn from_name(s: &str) -> (r: Option<MimeType>)
        ensures
            match r {
                Some(m) => s@ == mime_name(m),
                None => forall|m: MimeType| s@ != mime_name(m),
            },
    {
        if crate::util::str_eq(s, "multipart/form-data") {
            Some(MimeType::Multipart_FormData)
        } else if crate::util::str_eq(s, "application/x-www-form-urlencoded") {
            Some(MimeType::Application_FormUrlEncoded)
        } else if crate::util::str_eq(s, "application/json") {
            Some(MimeType::Application_Json)
        } else if crate::util::str_eq(s, "text/plain") {
            Some(MimeType::Text_Plain)
        } else {
            proof {
                assert forall|m: MimeType| s@ != mime_name(m) by {
                    match m {
                        MimeType::Multipart_FormData => assert(s@ != "multipart/form-data"@),
                        MimeType::Application_FormUrlEncoded => {
                            assert(s@ != "application/x-www-form-urlencoded"@)
                        },
                        MimeType::Application_Json => assert(s@ != "application/json"@),
                        MimeType::Text_Plain => assert(s@ != "text/plain"@),
                    }
                }
            }
            None
        }
    }
}

// ---------------------------------------------------------------------------
// Routes and their parts
// ---------------------------------------------------------------------------

/// Where a parameter is carried.
#[derive(Clone, Copy, PartialEq, Eq, Debug, Structural)]
pub enum ParameterKind {
    Path,
    Query,
    Header,
}

/// A named security scheme: the name becomes an initialization parameter of
/// the generated code, the key is the wire-level header it populates.
#[derive(PartialEq, Eq, Debug)]
pub struct Security {
    pub name: String,
    pub key: String,
}

impl Clone for Security {
    fn clone(&self) -> (r: Self)
        ensures
            r.name@ == self.name@,
            r.key@ == self.key@,
    {
        Security { name: self.name.clone(), key: self.key.clone() }
    }
}

/// A declared operation parameter.
#[derive(PartialEq, Debug)]
pub struct Parameter {
    pub name: String,
    pub description: Option<String>,
    pub kind: ParameterKind,
    pub ty: TypeRef,
}

/// One request body entry; a route carries one per accepted content type.
#[derive(PartialEq, Debug)]
pub struct RequestBody {
    pub mime_type: MimeType,
    pub headers: Vec<String>,
    pub ty: TypeRef,
}

/// A response: an optional typed body.
#[derive(PartialEq, Debug)]
pub struct Response {
    pub body: Option<TypeRef>,
}

/// The responses of one operation: an optional default and the literal
/// status codes, in declaration order.
#[derive(PartialEq, Debug)]
pub struct Responses {
    pub default: Option<Response>,
    pub specific: Vec<(Code, Response)>,
}

/// The insertion-ordered type registry.
pub type Types = crate::dict::Dict<Type>;

/// The insertion-ordered security-scheme registry.
pub type SecuritySchemes = crate::dict::Dict<Security>;

/// The ordered parameter mapping of one route.
pub type Parameters = crate::dict::Dict<Parameter>;

/// One extracted route.
#[derive(Debug)]
pub struct Route {
    pub name: String,
    pub endpoint: String,
    pub method: Method,
    pub description: Option<String>,
    pub parameters: Parameters,
    pub request_body: Vec<RequestBody>,
    pub responses: Responses,
    pub security: Option<Security>,
}

pub type Routes = Vec<Route>;

/// The whole intermediate representation: routes, the two registries, and
/// the top-level default security scheme.
#[derive(Debug)]
pub struct Ast {
    pub routes: Routes,
    pub types: Types,
    pub schemes: SecuritySchemes,
    pub security: Option<Security>,
}

} // verus!
