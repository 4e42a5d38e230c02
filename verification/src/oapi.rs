//! Resolution of an already-parsed API description into the intermediate
//! representation: the type registry, the security-scheme registry, and one
//! route per operation.
//!
//! The input is the source-document model below: a plain-value mirror of
//! the description's object tree, holding exactly what resolution reads.
//! The conversion from the parsing library's types is a mechanical walk
//! that lives outside this crate.

pub mod error;

use vstd::prelude::*;

verus! {

broadcast use vstd::std_specs::vec::group_vec_axioms, vstd::seq::group_seq_axioms;

use crate::ast;
use crate::dict::Dict;
use self::error::{Error, ErrorKind, ErrorKindShape, Scope};

// ---------------------------------------------------------------------------
// The source-document model
// ---------------------------------------------------------------------------

/// An inline item, or a reference to a reusable declaration.
#[derive(PartialEq, Debug)]
pub enum MaybeRef<T> {
    Item(T),
    Reference(String),
}

/// A schema fragment: an inline schema or a named reference.
#[derive(PartialEq, Debug)]
pub enum SchemaOrRef {
    Item(Schema),
    Reference(String),
}

/// An inline schema.
#[derive(PartialEq, Debug)]
pub struct Schema {
    pub kind: SchemaKind,
}

/// The declared kind of an inline schema.
#[derive(PartialEq, Debug)]
pub enum SchemaKind {
    String(StringSchema),
    Number,
    Integer,
    Boolean,
    Object(ObjectSchema),
    Array(ArraySchema),
    OneOf(Vec<SchemaOrRef>),
    AllOf(Vec<SchemaOrRef>),
    AnyOf,
    Not,
    Any,
}

/// A string schema: its enumeration, where a declared variant may be
/// absent.
#[derive(PartialEq, Debug)]
pub struct StringSchema {
    pub enumeration: Vec<Option<String>>,
}

/// An object schema: its properties in declaration order, and the names of
/// the required ones.
#[derive(PartialEq, Debug)]
pub struct ObjectSchema {
    pub properties: Vec<(String, SchemaOrRef)>,
    pub required: Vec<String>,
}

/// An array schema: its element schema, when one is declared.
#[derive(PartialEq, Debug)]
pub struct ArraySchema {
    pub items: Option<Box<SchemaOrRef>>,
}

/// Where a declared parameter is carried.
#[derive(Clone, Copy, PartialEq, Eq, Debug, Structural)]
pub enum ParamLocation {
    Query,
    Path,
    Header,
    Cookie,
}

/// A parameter's type: a schema, or a content map (unsupported).
#[derive(PartialEq, Debug)]
pub enum SchemaOrContent {
    Schema(SchemaOrRef),
    Content,
}

/// One declared operation parameter.
#[derive(PartialEq, Debug)]
pub struct ParameterSrc {
    pub location: ParamLocation,
    pub name: String,
    pub description: Option<String>,
    pub required: bool,
    pub format: SchemaOrContent,
}

/// One content entry: its optional schema.
#[derive(PartialEq, Debug)]
pub struct MediaTypeSrc {
    pub schema: Option<SchemaOrRef>,
}

/// A declared request body: one entry per content type, in declaration
/// order.
#[derive(PartialEq, Debug)]
pub struct RequestBodySrc {
    pub content: Vec<(String, MediaTypeSrc)>,
}

/// A literal status code, or a code range such as `2XX`.
#[derive(PartialEq, Debug)]
pub enum StatusCodeSrc {
    Code(u16),
    Range(u16),
}

/// A declared response: one entry per content type.
#[derive(PartialEq, Debug)]
pub struct ResponseSrc {
    pub content: Vec<(String, MediaTypeSrc)>,
}

/// The responses of one operation.
#[derive(PartialEq, Debug)]
pub struct ResponsesSrc {
    pub default: Option<MaybeRef<ResponseSrc>>,
    pub responses: Vec<(StatusCodeSrc, MaybeRef<ResponseSrc>)>,
}

/// One alternative requirement set: scheme names with their scopes.
pub type SecurityRequirement = Vec<(String, Vec<String>)>;

/// One declared operation.
#[derive(PartialEq, Debug)]
pub struct Operation {
    pub operation_id: Option<String>,
    pub summary: Option<String>,
    pub description: Option<String>,
    pub parameters: Vec<MaybeRef<ParameterSrc>>,
    pub request_body: Option<MaybeRef<RequestBodySrc>>,
    pub responses: ResponsesSrc,
    pub security: Option<Vec<SecurityRequirement>>,
}

/// Where an API key is carried.
#[derive(Clone, Copy, PartialEq, Eq, Debug, Structural)]
pub enum ApiKeyLocation {
    Query,
    Header,
    Cookie,
}

/// A declared security scheme.
#[derive(PartialEq, Debug)]
pub enum SecuritySchemeSrc {
    ApiKey { location: ApiKeyLocation, name: String },
    Http,
    OAuth2,
    OpenIdConnect,
}

/// The reusable component declarations: schemas and security schemes, in
/// declaration order.
#[derive(PartialEq, Debug)]
pub struct Components {
    pub schemas: Vec<(String, SchemaOrRef)>,
    pub security_schemes: Vec<(String, MaybeRef<SecuritySchemeSrc>)>,
}

/// The operations declared under one path.
#[derive(PartialEq, Debug)]
pub struct PathItemSrc {
    pub operations: Vec<(ast::Method, Operation)>,
}

/// A whole source document.
#[derive(PartialEq, Debug)]
pub struct Document {
    pub paths: Vec<(String, MaybeRef<PathItemSrc>)>,
    pub components: Option<Components>,
    pub security: Option<Vec<SecurityRequirement>>,
}

// ---------------------------------------------------------------------------
// Structural heights, for termination of reference resolution
// ---------------------------------------------------------------------------

pub open spec fn sor_height(s: SchemaOrRef) -> nat
    decreases s,
{
    match s {
        SchemaOrRef::Reference(_) => 1,
        SchemaOrRef::Item(sch) => 1 + kind_height(sch.kind),
    }
}

pub open spec fn kind_height(k: SchemaKind) -> nat
    decreases k,
{
    match k {
        SchemaKind::Object(obj) => 1 + props_height(obj.properties@),
        SchemaKind::Array(arr) => 1 + (match arr.items {
            Option::Some(b) => sor_height(*b),
            Option::None => 0,
        }),
        SchemaKind::OneOf(v) => 1 + list_height(v@),
        SchemaKind::AllOf(v) => 1 + list_height(v@),
        _ => 1,
    }
}

pub open spec fn list_height(v: Seq<SchemaOrRef>) -> nat
    decreases v,
{
    if v.len() == 0 {
        0
    } else {
        let a = sor_height(v.last());
        let b = list_height(v.drop_last());
        if a > b {
            a
        } else {
            b
        }
    }
}

pub open spec fn props_height(v: Seq<(String, SchemaOrRef)>) -> nat
    decreases v,
{
    if v.len() == 0 {
        0
    } else {
        let a = sor_height(v.last().1);
        let b = props_height(v.drop_last());
        if a > b {
            a
        } else {
            b
        }
    }
}

/// No element of a fragment list stands higher than the list.
pub proof fn lemma_list_height(v: Seq<SchemaOrRef>)
    ensures
        forall|i: int| 0 <= i < v.len() ==> sor_height(v[i]) <= list_height(v),
    decreases v.len(),
{
    if v.len() > 0 {
        lemma_list_height(v.drop_last());
        assert forall|i: int| 0 <= i < v.len() implies sor_height(v[i]) <= list_height(v) by {
            if i < v.len() - 1 {
                assert(v.drop_last()[i] == v[i]);
            }
        }
    }
}

/// No property of an object schema stands higher than the property list.
pub proof fn lemma_props_height(v: Seq<(String, SchemaOrRef)>)
    ensures
        forall|i: int| 0 <= i < v.len() ==> sor_height(v[i].1) <= props_height(v),
    decreases v.len(),
{
    if v.len() > 0 {
        lemma_props_height(v.drop_last());
        assert forall|i: int| 0 <= i < v.len() implies sor_height(v[i].1) <= props_height(v) by {
            if i < v.len() - 1 {
                assert(v.drop_last()[i] == v[i]);
            }
        }
    }
}

// ---------------------------------------------------------------------------
// Reference tails
// ---------------------------------------------------------------------------

/// The position of the last `/` in `s`, or `-1` when there is none.
pub open spec fn last_slash(s: Seq<char>) -> int
    decreases s.len(),
{
    if s.len() == 0 {
        -1
    } else if s.last() == '/' {
        s.len() - 1
    } else {
        last_slash(s.drop_last())
    }
}

/// The trailing segment of a reference path: what follows its last `/`.
pub open spec fn tail_of(s: Seq<char>) -> Seq<char> {
    s.skip(last_slash(s) + 1)
}

/// `last_slash` is pinned by its characterization.
pub proof fn lemma_last_slash_at(s: Seq<char>, k: int)
    requires
        -1 <= k < s.len(),
        forall|j: int| k < j < s.len() ==> s[j] != '/',
        k >= 0 ==> s[k] == '/',
    ensures
        last_slash(s) == k,
    decreases s.len(),
{
    if s.len() > 0 && s.last() != '/' {
        lemma_last_slash_at(s.drop_last(), k);
    }
}

/// Strips any path prefix from a reference: the segment after the last
/// `/`, or the whole string without one.
pub fn ref_tail(name: &str) -> (r: String)
    ensures
        r@ == tail_of(name@),
{
    let n = name.unicode_len();
    let mut cut: usize = 0;
    let mut i: usize = 0;
    while i < n
        invariant
            n == name@.len(),
            i <= n,
            cut <= i,
            cut > 0 ==> name@[cut - 1] == '/',
            forall|j: int| cut <= j < i ==> name@[j] != '/',
        decreases n - i,
    {
        if name.get_char(i) == '/' {
            cut = i + 1;
        }
        i = i + 1;
    }
    proof {
        lemma_last_slash_at(name@, cut - 1);
        assert(name@.subrange(cut as int, n as int) =~= tail_of(name@));
    }
    name.substring_char(cut, n).to_owned()
}

// ---------------------------------------------------------------------------
// String schemas
// ---------------------------------------------------------------------------

/// The declared enumeration variants that are present, in order.
pub open spec fn enum_values(e: Seq<Option<String>>) -> Seq<Seq<char>>
    decreases e.len(),
{
    if e.len() == 0 {
        Seq::empty()
    } else {
        enum_values(e.drop_last()) + (match e.last() {
            Option::Some(s) => seq![s@],
            Option::None => Seq::empty(),
        })
    }
}

/// The type of a string schema: an enumeration when variants are present,
/// plain `String` otherwise.
pub open spec fn string_type_shape(ss: &StringSchema) -> ast::Shape {
    if enum_values(ss.enumeration@).len() == 0 {
        ast::Shape::String
    } else {
        ast::Shape::Enum(enum_values(ss.enumeration@))
    }
}

/// Resolves a string schema: a non-empty enumeration becomes `Enum`,
/// anything else plain `String`.
pub fn string_type(ss: &StringSchema) -> (r: ast::Type)
    ensures
        r@ == string_type_shape(ss),
{
    let ghost all = enum_values(ss.enumeration@);
    let mut variants: Vec<String> = Vec::new();
    let n = ss.enumeration.len();
    let mut i: usize = 0;
    proof {
        assert(enum_values(ss.enumeration@.take(0)) =~= Seq::<Seq<char>>::empty());
        assert(ast::strings_shape(variants@) =~= Seq::<Seq<char>>::empty());
    }
    while i < n
        invariant
            n == ss.enumeration@.len(),
            i <= n,
            ast::strings_shape(variants@) == enum_values(ss.enumeration@.take(i as int)),
        decreases n - i,
    {
        match &ss.enumeration[i] {
            Option::Some(s) => {
                variants.push(s.clone());
            },
            Option::None => {},
        }
        i = i + 1;
        proof {
            assert(ss.enumeration@.take(i as int).drop_last() =~= ss.enumeration@.take(i - 1));
            assert(ss.enumeration@.take(i as int).last() == ss.enumeration@[i - 1]);
            assert(ast::strings_shape(variants@) =~= enum_values(
                ss.enumeration@.take(i as int),
            ));
        }
    }
    proof {
        assert(ss.enumeration@.take(n as int) =~= ss.enumeration@);
    }
    if variants.len() == 0 {
        proof {
            assert(ast::strings_shape(variants@).len() == 0);
        }
        ast::Type::String
    } else {
        proof {
            assert(ast::strings_shape(variants@).len() > 0);
        }
        ast::Type::Enum(variants)
    }
}

// ---------------------------------------------------------------------------
// The resolution model
// ---------------------------------------------------------------------------
//
// Against a fixed set of registered names, resolution is a pure function of
// the schema: the functions below state it. The executable resolver is held
// to this model wherever it is such a function — during route extraction,
// when the registries are frozen, and on any fragment without references.

/// The registered names of a type registry, in order.
pub open spec fn reg_keys(types: Seq<(Seq<char>, ast::Type)>) -> Seq<Seq<char>> {
    types.map_values(|p: (Seq<char>, ast::Type)| p.0)
}

/// Whether a schema fragment holds no named reference.
pub open spec fn ref_free_sor(s: SchemaOrRef) -> bool
    decreases s,
{
    match s {
        SchemaOrRef::Reference(_) => false,
        SchemaOrRef::Item(sch) => ref_free_kind(sch.kind),
    }
}

pub open spec fn ref_free_kind(k: SchemaKind) -> bool
    decreases k,
{
    match k {
        SchemaKind::Object(obj) => ref_free_props(obj.properties@),
        SchemaKind::Array(arr) => match arr.items {
            Option::Some(b) => ref_free_sor(*b),
            Option::None => true,
        },
        SchemaKind::OneOf(v) => ref_free_list(v@),
        SchemaKind::AllOf(v) => ref_free_list(v@),
        _ => true,
    }
}

pub open spec fn ref_free_props(ps: Seq<(String, SchemaOrRef)>) -> bool
    decreases ps,
{
    if ps.len() == 0 {
        true
    } else {
        ref_free_props(ps.drop_last()) && ref_free_sor(ps.last().1)
    }
}

pub open spec fn ref_free_list(v: Seq<SchemaOrRef>) -> bool
    decreases v,
{
    if v.len() == 0 {
        true
    } else {
        ref_free_list(v.drop_last()) && ref_free_sor(v.last())
    }
}

/// What a schema fragment resolves to against the registered names: a
/// registered reference becomes its symbolic name, an inline schema is
/// resolved by kind; anything else fails.
pub open spec fn resolve_shape(keys: Seq<Seq<char>>, s: SchemaOrRef) -> Option<ast::ShapeRef>
    decreases s,
{
    match s {
        SchemaOrRef::Reference(path) => {
            if keys.contains(tail_of(path@)) {
                Option::Some(ast::ShapeRef::Ref(tail_of(path@)))
            } else {
                Option::None
            }
        },
        SchemaOrRef::Item(sch) => match resolve_kind(keys, sch.kind) {
            Option::Some(shape) => Option::Some(ast::ShapeRef::Type(Box::new(shape))),
            Option::None => Option::None,
        },
    }
}

/// What an inline schema resolves to, by declared kind.
pub open spec fn resolve_kind(keys: Seq<Seq<char>>, k: SchemaKind) -> Option<ast::Shape>
    decreases k,
{
    match k {
        SchemaKind::String(ss) => Option::Some(string_type_shape(&ss)),
        SchemaKind::Number => Option::Some(ast::Shape::Number),
        SchemaKind::Integer => Option::Some(ast::Shape::Number),
        SchemaKind::Boolean => Option::Some(ast::Shape::Boolean),
        SchemaKind::AnyOf => Option::Some(ast::Shape::Any),
        SchemaKind::Not => Option::Some(ast::Shape::Any),
        SchemaKind::Any => Option::Some(ast::Shape::Any),
        SchemaKind::Object(obj) => match resolve_fields(keys, obj.properties@, obj.required@) {
            Option::Some(fs) => {
                if fs.len() == 0 {
                    Option::Some(ast::Shape::Any)
                } else {
                    Option::Some(ast::Shape::Object(fs))
                }
            },
            Option::None => Option::None,
        },
        SchemaKind::Array(arr) => match arr.items {
            Option::Some(b) => match resolve_shape(keys, *b) {
                Option::Some(r) => Option::Some(ast::Shape::Array(Box::new(r))),
                Option::None => Option::None,
            },
            Option::None => Option::None,
        },
        SchemaKind::OneOf(v) => match resolve_list(keys, v@) {
            Option::Some(ps) => Option::Some(ast::Shape::Union(ps)),
            Option::None => Option::None,
        },
        SchemaKind::AllOf(v) => match merge_frags(keys, Seq::empty(), false, v@) {
            Option::Some((fs, clash)) => {
                if clash {
                    Option::None
                } else {
                    Option::Some(ast::Shape::Object(fs))
                }
            },
            Option::None => Option::None,
        },
    }
}

/// The fields an object schema resolves to: one per property, in order,
/// wrapped in `Optional` when not required; one failed property fails them
/// all.
pub open spec fn resolve_fields(
    keys: Seq<Seq<char>>,
    props: Seq<(String, SchemaOrRef)>,
    req: Seq<String>,
) -> Option<Seq<(Seq<char>, ast::ShapeRef)>>
    decreases props,
{
    if props.len() == 0 {
        Option::Some(Seq::empty())
    } else {
        match (resolve_fields(keys, props.drop_last(), req), resolve_shape(
            keys,
            props.last().1,
        )) {
            (Option::Some(fs), Option::Some(r)) => Option::Some(
                fs.push(
                    (
                        props.last().0@,
                        if required_has(req, props.last().0@) {
                            r
                        } else {
                            ast::ShapeRef::Type(Box::new(ast::Shape::Optional(Box::new(r))))
                        },
                    ),
                ),
            ),
            _ => Option::None,
        }
    }
}

/// The members a union resolves to, one per alternative in order; one
/// failed alternative fails them all.
pub open spec fn resolve_list(keys: Seq<Seq<char>>, v: Seq<SchemaOrRef>) -> Option<
    Seq<ast::ShapeRef>,
>
    decreases v,
{
    if v.len() == 0 {
        Option::Some(Seq::empty())
    } else {
        match (resolve_list(keys, v.drop_last()), resolve_shape(keys, v.last())) {
            (Option::Some(ps), Option::Some(r)) => Option::Some(ps.push(r)),
            _ => Option::None,
        }
    }
}

/// Fields merged into an accumulator left to right, a later arrival of a
/// present key skipped.
pub open spec fn fields_union(
    acc: Seq<(Seq<char>, ast::ShapeRef)>,
    fs: Seq<(Seq<char>, ast::ShapeRef)>,
) -> Seq<(Seq<char>, ast::ShapeRef)>
    decreases fs.len(),
{
    if fs.len() == 0 {
        acc
    } else {
        let u = fields_union(acc, fs.drop_last());
        if fields_key_in(u, fs.last().0) {
            u
        } else {
            u.push(fs.last())
        }
    }
}

/// Whether merging `fs` into the accumulator meets a key already present.
pub open spec fn fields_clash(
    acc: Seq<(Seq<char>, ast::ShapeRef)>,
    fs: Seq<(Seq<char>, ast::ShapeRef)>,
) -> bool
    decreases fs.len(),
{
    if fs.len() == 0 {
        false
    } else {
        fields_clash(acc, fs.drop_last()) || fields_key_in(
            fields_union(acc, fs.drop_last()),
            fs.last().0,
        )
    }
}

pub open spec fn fields_key_in(fs: Seq<(Seq<char>, ast::ShapeRef)>, k: Seq<char>) -> bool {
    exists|i: int| 0 <= i < fs.len() && fs[i].0 == k
}

/// The left-to-right merge of intersection fragments: each must resolve to
/// an object, its fields joining the accumulator; whether any field name
/// arrived twice is carried beside the merged fields.
pub open spec fn merge_frags(
    keys: Seq<Seq<char>>,
    acc: Seq<(Seq<char>, ast::ShapeRef)>,
    clash: bool,
    v: Seq<SchemaOrRef>,
) -> Option<(Seq<(Seq<char>, ast::ShapeRef)>, bool)>
    decreases v,
{
    if v.len() == 0 {
        Option::Some((acc, clash))
    } else {
        match resolve_shape(keys, v[0]) {
            Option::Some(r) => match r {
                ast::ShapeRef::Type(s) => match *s {
                    ast::Shape::Object(fs) => merge_frags(
                        keys,
                        fields_union(acc, fs),
                        clash || fields_clash(acc, fs),
                        v.drop_first(),
                    ),
                    _ => Option::None,
                },
                ast::ShapeRef::Ref(_) => Option::None,
            },
            Option::None => Option::None,
        }
    }
}

/// The shape of an optional resolved reference.
pub open spec fn shape_of_ref(r: Option<ast::TypeRef>) -> Option<ast::ShapeRef> {
    match r {
        Option::Some(tr) => Option::Some(tr@),
        Option::None => Option::None,
    }
}

/// The shape of an optional resolved type node.
pub open spec fn shape_of_ty(r: Option<ast::Type>) -> Option<ast::Shape> {
    match r {
        Option::Some(t) => Option::Some(t@),
        Option::None => Option::None,
    }
}

/// A registry holds a key exactly when its key model does.
pub proof fn lemma_reg_keys_contains(types: Seq<(Seq<char>, ast::Type)>, k: Seq<char>)
    ensures
        reg_keys(types).contains(k) <==> exists|i: int| 0 <= i < types.len() && types[i].0 == k,
{
    if exists|i: int| 0 <= i < types.len() && types[i].0 == k {
        let i = choose|i: int| 0 <= i < types.len() && types[i].0 == k;
        assert(reg_keys(types)[i] == k);
    }
    if reg_keys(types).contains(k) {
        let i = choose|i: int| 0 <= i < reg_keys(types).len() && reg_keys(types)[i] == k;
        assert(types[i].0 == k);
    }
}

/// Resolution failures propagate: one failed property fails the fields.
pub proof fn lemma_resolve_fields_none(
    keys: Seq<Seq<char>>,
    props: Seq<(String, SchemaOrRef)>,
    req: Seq<String>,
    i: int,
)
    requires
        0 <= i < props.len(),
        resolve_shape(keys, props[i].1) is None,
    ensures
        resolve_fields(keys, props, req) is None,
    decreases props.len(),
{
    if i < props.len() - 1 {
        assert(props.drop_last()[i] == props[i]);
        lemma_resolve_fields_none(keys, props.drop_last(), req, i);
    }
}

/// Resolution failures propagate: one failed alternative fails the list.
pub proof fn lemma_resolve_list_none(keys: Seq<Seq<char>>, v: Seq<SchemaOrRef>, i: int)
    requires
        0 <= i < v.len(),
        resolve_shape(keys, v[i]) is None,
    ensures
        resolve_list(keys, v) is None,
    decreases v.len(),
{
    if i < v.len() - 1 {
        assert(v.drop_last()[i] == v[i]);
        lemma_resolve_list_none(keys, v.drop_last(), i);
    }
}

/// Resolved fields and members are as many as their sources.
pub proof fn lemma_resolve_fields_len(
    keys: Seq<Seq<char>>,
    props: Seq<(String, SchemaOrRef)>,
    req: Seq<String>,
)
    ensures
        match resolve_fields(keys, props, req) {
            Option::Some(fs) => fs.len() == props.len(),
            Option::None => true,
        },
    decreases props.len(),
{
    if props.len() > 0 {
        lemma_resolve_fields_len(keys, props.drop_last(), req);
    }
}

pub proof fn lemma_resolve_list_len(keys: Seq<Seq<char>>, v: Seq<SchemaOrRef>)
    ensures
        match resolve_list(keys, v) {
            Option::Some(ps) => ps.len() == v.len(),
            Option::None => true,
        },
    decreases v.len(),
{
    if v.len() > 0 {
        lemma_resolve_list_len(keys, v.drop_last());
    }
}

/// A fragment list without references is reference-free entry by entry.
pub proof fn lemma_ref_free_list(v: Seq<SchemaOrRef>)
    ensures
        ref_free_list(v) ==> forall|i: int| 0 <= i < v.len() ==> ref_free_sor(#[trigger] v[i]),
    decreases v.len(),
{
    if v.len() > 0 {
        lemma_ref_free_list(v.drop_last());
        if ref_free_list(v) {
            assert forall|i: int| 0 <= i < v.len() implies ref_free_sor(#[trigger] v[i]) by {
                if i < v.len() - 1 {
                    assert(v.drop_last()[i] == v[i]);
                }
            }
        }
    }
}

/// An object without references is reference-free property by property.
pub proof fn lemma_ref_free_props(ps: Seq<(String, SchemaOrRef)>)
    ensures
        ref_free_props(ps) ==> forall|i: int|
            0 <= i < ps.len() ==> ref_free_sor((#[trigger] ps[i]).1),
    decreases ps.len(),
{
    if ps.len() > 0 {
        lemma_ref_free_props(ps.drop_last());
        if ref_free_props(ps) {
            assert forall|i: int| 0 <= i < ps.len() implies ref_free_sor((#[trigger] ps[i]).1) by {
                if i < ps.len() - 1 {
                    assert(ps.drop_last()[i] == ps[i]);
                }
            }
        }
    }
}

// ---------------------------------------------------------------------------
// The resolution context
// ---------------------------------------------------------------------------

/// The state threaded through resolution: the scope of the place being
/// walked, the diagnostics so far, the two registries, the reusable
/// declarations, and the names whose resolution is under way.
pub struct Context<'a> {
    pub scope: Scope,
    pub errors: Vec<Error>,
    pub can_insert: bool,
    pub types: ast::Types,
    pub security: ast::SecuritySchemes,
    pub components: Option<&'a Components>,
    pub in_progress: Vec<String>,
}

/// The names of the reusable schema declarations, in order.
pub open spec fn schema_keys(c: Option<&Components>) -> Seq<Seq<char>> {
    match c {
        Option::Some(c) => c.schemas@.map_values(|p: (String, SchemaOrRef)| p.0@),
        Option::None => Seq::empty(),
    }
}

/// A reusable-component section is well formed when its declaration names
/// are pairwise distinct, as the source format's maps guarantee.
pub open spec fn components_wf(c: Option<&Components>) -> bool {
    schema_keys(c).no_duplicates() && (match c {
        Option::Some(c) => c.security_schemes@.map_values(
            |p: (String, MaybeRef<SecuritySchemeSrc>)| p.0@,
        ).no_duplicates(),
        Option::None => true,
    })
}

impl<'a> Context<'a> {
    /// The names under resolution.
    pub open spec fn marked(&self) -> Seq<Seq<char>> {
        self.in_progress@.map_values(|s: String| s@)
    }

    /// Validity: both registries have distinct keys, the component names
    /// are distinct, and every name under resolution is a component name,
    /// no name twice.
    pub open spec fn wf(&self) -> bool {
        &&& self.types.wf()
        &&& self.security.wf()
        &&& components_wf(self.components)
        &&& self.marked().no_duplicates()
        &&& forall|i: int|
            0 <= i < self.marked().len() ==> schema_keys(self.components).contains(self.marked()[i])
    }

    /// How many component names resolution may still descend into.
    pub open spec fn measure(&self) -> int {
        schema_keys(self.components).len() - self.marked().len()
    }

    pub fn new(components: Option<&'a Components>) -> (ctx: Context<'a>)
        requires
            components_wf(components),
        ensures
            ctx.scope@ == Seq::<Option<Seq<char>>>::empty(),
            ctx.errors@ == Seq::<Error>::empty(),
            ctx.can_insert == false,
            ctx.types@ == Seq::<(Seq<char>, ast::Type)>::empty(),
            ctx.security@ == Seq::<(Seq<char>, ast::Security)>::empty(),
            ctx.components == components,
            ctx.marked() == Seq::<Seq<char>>::empty(),
            ctx.wf(),
    {
        let ctx = Context {
            scope: Scope::new(),
            errors: Vec::new(),
            can_insert: false,
            types: Dict::new(),
            security: Dict::new(),
            components,
            in_progress: Vec::new(),
        };
        proof {
            assert(ctx.marked() =~= Seq::<Seq<char>>::empty());
        }
        ctx
    }

    /// Records a diagnostic at the current scope.
    pub fn error(&mut self, e: ErrorKind)
        ensures
            *final(self) == (Context {
                errors: final(self).errors,
                ..*old(self)
            }),
            final(self).errors@.len() == old(self).errors@.len() + 1,
            old(self).errors@.is_prefix_of(final(self).errors@),
            final(self).errors@.last().scope@ == old(self).scope@,
            final(self).errors@.last().kind@ == e@,
    {
        let scope = self.scope.duplicate();
        self.errors.push(Error::new(scope, e));
        proof {
            assert(old(self).errors@.is_prefix_of(self.errors@));
        }
    }

    /// Enters a named scope segment.
    pub fn scope(&mut self, name: String)
        ensures
            *final(self) == (Context {
                scope: final(self).scope,
                ..*old(self)
            }),
            final(self).scope@ == old(self).scope@.push(Option::Some(name@)),
    {
        self.scope.named(name);
    }

    /// Enters a scope segment that may be anonymous.
    pub fn scope_opt(&mut self, name: Option<String>)
        ensures
            *final(self) == (Context {
                scope: final(self).scope,
                ..*old(self)
            }),
            final(self).scope@ == old(self).scope@.push(
                match name {
                    Option::Some(n) => Option::Some(n@),
                    Option::None => Option::None,
                },
            ),
    {
        self.scope.named_opt(name);
    }

    /// Leaves the innermost scope segment.
    pub fn scope_end(&mut self)
        ensures
            *final(self) == (Context {
                scope: final(self).scope,
                ..*old(self)
            }),
            old(self).scope@.len() > 0 ==> final(self).scope@ == old(self).scope@.drop_last(),
            old(self).scope@.len() == 0 ==> final(self).scope@ == old(self).scope@,
    {
        self.scope.pop();
    }
}

/// What every resolution step preserves of the context: the components,
/// the phase, the scope and the markers come back as they were; both
/// registries only grow at the end (an entry, once made, never changes);
/// outside the component-walking phase the type registry is frozen;
/// diagnostics are only appended; validity is kept.
pub open spec fn ctx_preserved(a: &Context, b: &Context) -> bool {
    &&& b.components == a.components
    &&& b.can_insert == a.can_insert
    &&& b.scope@ == a.scope@
    &&& b.in_progress@ == a.in_progress@
    &&& b.security == a.security
    &&& a.types@.is_prefix_of(b.types@)
    &&& (!a.can_insert ==> b.types@ == a.types@)
    &&& a.errors@.is_prefix_of(b.errors@)
    &&& b.wf()
}

/// Every sequence is a prefix of itself.
pub proof fn lemma_prefix_refl<T>(a: Seq<T>)
    ensures
        a.is_prefix_of(a),
{
    assert(a =~= a.subrange(0, a.len() as int));
}

/// Prefixes chain.
pub proof fn lemma_prefix_trans<T>(a: Seq<T>, b: Seq<T>, c: Seq<T>)
    requires
        a.is_prefix_of(b),
        b.is_prefix_of(c),
    ensures
        a.is_prefix_of(c),
{
    assert(a =~= c.subrange(0, a.len() as int));
}

/// Context preservation chains.
pub proof fn lemma_preserved_trans(a: &Context, b: &Context, c: &Context)
    requires
        ctx_preserved(a, b),
        ctx_preserved(b, c),
    ensures
        ctx_preserved(a, c),
{
    lemma_prefix_trans(a.types@, b.types@, c.types@);
    lemma_prefix_trans(a.errors@, b.errors@, c.errors@);
}

/// A valid context can still descend into at least as many component names
/// as it has marked: the measure never goes negative.
pub proof fn lemma_measure_nonneg(ctx: &Context)
    requires
        ctx.wf(),
    ensures
        ctx.measure() >= 0,
{
    broadcast use vstd::set::group_set_axioms, vstd::seq_lib::group_seq_lib_default;

    let keys = schema_keys(ctx.components);
    let marked = ctx.marked();
    marked.unique_seq_to_set();
    keys.unique_seq_to_set();
    assert forall|x: Seq<char>| marked.to_set().contains(x) implies keys.to_set().contains(x) by {
        assert(marked.contains(x));
        let i = choose|i: int| 0 <= i < marked.len() && marked[i] == x;
        assert(keys.contains(marked[i]));
    }
    vstd::seq_lib::seq_to_set_is_finite(keys);
    vstd::set_lib::lemma_len_subset(marked.to_set(), keys.to_set());
}

// ---------------------------------------------------------------------------
// Small lookups
// ---------------------------------------------------------------------------

/// Whether one of the names is `key`.
fn names_contain(v: &Vec<String>, key: &String) -> (r: bool)
    ensures
        r == v@.map_values(|s: String| s@).contains(key@),
{
    let ghost names = v@.map_values(|s: String| s@);
    let n = v.len();
    let mut i: usize = 0;
    while i < n
        invariant
            n == v@.len(),
            i <= n,
            names == v@.map_values(|s: String| s@),
            forall|j: int| 0 <= j < i ==> names[j] != key@,
        decreases n - i,
    {
        if crate::util::str_eq(v[i].as_str(), key.as_str()) {
            proof {
                assert(names[i as int] == key@);
            }
            return true;
        }
        i = i + 1;
    }
    false
}

/// Whether a merged field set already holds `key`.
pub open spec fn fields_have_key(fs: Seq<(String, ast::TypeRef)>, key: Seq<char>) -> bool {
    exists|i: int| 0 <= i < fs.len() && fs[i].0@ == key
}

fn fields_contain_key(v: &Vec<(String, ast::TypeRef)>, key: &String) -> (r: bool)
    ensures
        r == fields_have_key(v@, key@),
{
    let n = v.len();
    let mut i: usize = 0;
    while i < n
        invariant
            n == v@.len(),
            i <= n,
            forall|j: int| 0 <= j < i ==> v@[j].0@ != key@,
        decreases n - i,
    {
        if crate::util::str_eq(v[i].0.as_str(), key.as_str()) {
            return true;
        }
        i = i + 1;
    }
    false
}

/// The reusable schema declared under `k`, when there is one: the first
/// entry with that name.
pub open spec fn comp_schema(c: Option<&Components>, k: Seq<char>) -> Option<SchemaOrRef> {
    match c {
        Option::Some(c) => comp_schema_in(c.schemas@, k),
        Option::None => Option::None,
    }
}

pub open spec fn comp_schema_in(
    schemas: Seq<(String, SchemaOrRef)>,
    k: Seq<char>,
) -> Option<SchemaOrRef>
    decreases schemas.len(),
{
    if schemas.len() == 0 {
        Option::None
    } else if schemas[0].0@ == k {
        Option::Some(schemas[0].1)
    } else {
        comp_schema_in(schemas.drop_first(), k)
    }
}

/// A declaration found by name lies among the declared keys.
pub proof fn lemma_comp_schema_some(schemas: Seq<(String, SchemaOrRef)>, k: Seq<char>)
    ensures
        comp_schema_in(schemas, k) is Some ==> exists|i: int|
            0 <= i < schemas.len() && (#[trigger] schemas[i]).0@ == k,
    decreases schemas.len(),
{
    if schemas.len() > 0 && schemas[0].0@ != k {
        lemma_comp_schema_some(schemas.drop_first(), k);
        if comp_schema_in(schemas, k) is Some {
            let i = choose|i: int|
                0 <= i < schemas.drop_first().len() && (#[trigger] schemas.drop_first()[i]).0@
                    == k;
            assert(schemas[i + 1].0@ == k);
        }
    }
}

/// The reusable schema declared under `key`, when there is one.
fn find_component<'x>(c: &'x Components, key: &String) -> (r: Option<&'x SchemaOrRef>)
    ensures
        match r {
            Option::Some(s) => schema_keys(Option::Some(c)).contains(key@) && comp_schema_in(
                c.schemas@,
                key@,
            ) == Option::Some(*s),
            Option::None => !schema_keys(Option::Some(c)).contains(key@),
        },
{
    let ghost keys = schema_keys(Option::Some(c));
    let n = c.schemas.len();
    let mut i: usize = 0;
    proof {
        assert(c.schemas@.skip(0) =~= c.schemas@);
    }
    while i < n
        invariant
            n == c.schemas@.len(),
            i <= n,
            keys == schema_keys(Option::Some(c)),
            keys.len() == n,
            forall|j: int| 0 <= j < i ==> keys[j] != key@,
            comp_schema_in(c.schemas@, key@) == comp_schema_in(
                c.schemas@.skip(i as int),
                key@,
            ),
        decreases n - i,
    {
        proof {
            assert(c.schemas@.skip(i as int)[0] == c.schemas@[i as int]);
            assert(c.schemas@.skip(i as int).drop_first() =~= c.schemas@.skip(i + 1));
        }
        if crate::util::str_eq(c.schemas[i].0.as_str(), key.as_str()) {
            proof {
                assert(keys[i as int] == key@);
            }
            return Option::Some(&c.schemas[i].1);
        }
        i = i + 1;
    }
    proof {
        assert(c.schemas@.skip(n as int) =~= Seq::<(String, SchemaOrRef)>::empty());
        assert forall|m: int| 0 <= m < keys.len() implies keys[m] != key@ by {}
    }
    Option::None
}

// ---------------------------------------------------------------------------
// The type resolver
// ---------------------------------------------------------------------------

/// The type of a leaf schema kind: one that resolves without descending
/// into other schemas.
pub open spec fn leaf_shape(k: &SchemaKind) -> Option<ast::Shape> {
    match k {
        SchemaKind::String(ss) => Option::Some(string_type_shape(ss)),
        SchemaKind::Number => Option::Some(ast::Shape::Number),
        SchemaKind::Integer => Option::Some(ast::Shape::Number),
        SchemaKind::Boolean => Option::Some(ast::Shape::Boolean),
        SchemaKind::AnyOf => Option::Some(ast::Shape::Any),
        SchemaKind::Not => Option::Some(ast::Shape::Any),
        SchemaKind::Any => Option::Some(ast::Shape::Any),
        _ => Option::None,
    }
}

/// Whether `name` is in the object schema's required-field list.
pub open spec fn required_has(req: Seq<String>, name: Seq<char>) -> bool {
    req.map_values(|s: String| s@).contains(name)
}

/// What resolving an object schema yields when it succeeds: `Any` without
/// properties; otherwise an object whose fields carry the property names
/// in order, each wrapped in `Optional` exactly when the source does not
/// require it, and each leaf-typed property carrying exactly its
/// declared type.
pub open spec fn object_result(obj: &ObjectSchema, t: ast::Type) -> bool {
    if obj.properties@.len() == 0 {
        t@ == ast::Shape::Any
    } else {
        t@ is Object && {
            let fs = t@->Object_0;
            &&& fs.len() == obj.properties@.len()
            &&& forall|i: int|
                #![trigger fs[i]]
                0 <= i < fs.len() ==> fs[i].0 == obj.properties@[i].0@ && (required_has(
                    obj.required@,
                    obj.properties@[i].0@,
                ) <==> !optional_shape_ref(fs[i].1))
            &&& forall|i: int|
                #![trigger fs[i]]
                0 <= i < fs.len() ==> match obj.properties@[i].1 {
                    SchemaOrRef::Item(s) => match leaf_shape(&s.kind) {
                        Option::Some(shape) => fs[i].1 == (if required_has(
                            obj.required@,
                            obj.properties@[i].0@,
                        ) {
                            ast::ShapeRef::Type(Box::new(shape))
                        } else {
                            ast::ShapeRef::Type(
                                Box::new(
                                    ast::Shape::Optional(
                                        Box::new(ast::ShapeRef::Type(Box::new(shape))),
                                    ),
                                ),
                            )
                        }),
                        Option::None => true,
                    },
                    SchemaOrRef::Reference(_) => true,
                }
        }
    }
}

/// Whether a field's reference is an inline `Optional`.
pub open spec fn optional_shape_ref(r: ast::ShapeRef) -> bool {
    match r {
        ast::ShapeRef::Type(b) => *b is Optional,
        ast::ShapeRef::Ref(_) => false,
    }
}

/// Converts a schema fragment into a type reference: an inline schema is
/// resolved by kind, a named reference through the registry. A resolved
/// reference always names a registered entry; one whose name is already
/// registered changes nothing. The result is never a top-level `Optional`.
pub fn resolve_type<'a>(
    ctx: &mut Context<'a>,
    name: Option<&String>,
    schema: &SchemaOrRef,
) -> (r: Option<ast::TypeRef>)
    requires
        old(ctx).wf(),
    ensures
        ctx_preserved(old(ctx), final(ctx)),
        match r {
            Option::Some(tr) => !optional_shape_ref(tr@) && (tr@ is Ref
                ==> final(ctx).types.spec_contains_key(tr@->Ref_0)),
            Option::None => true,
        },
        match schema {
            SchemaOrRef::Reference(path) => {
                &&& (old(ctx).types.spec_contains_key(tail_of(path@)) ==> (r matches Option::Some(
                    tr,
                ) && tr@ == ast::ShapeRef::Ref(tail_of(path@))) && final(ctx).types@ == old(
                    ctx).types@ && final(ctx).errors@ == old(ctx).errors@)
                &&& (r matches Option::Some(tr) ==> tr@ is Ref)
            },
            SchemaOrRef::Item(s) => {
                &&& (match leaf_shape(&s.kind) {
                    Option::Some(shape) => r matches Option::Some(tr) && tr@ == ast::ShapeRef::Type(
                        Box::new(shape),
                    ),
                    Option::None => true,
                })
                &&& (r matches Option::Some(tr) ==> tr@ is Type)
                &&& (r is Some && old(ctx).can_insert && name is Some ==> final(ctx).types.spec_contains_key(name->0@))
                &&& (match leaf_shape(&s.kind) {
                    Option::Some(shape) => {
                        &&& (name matches Option::Some(n) ==> ((old(ctx).can_insert && old(ctx).types.spec_contains_key(n@)) ==> final(ctx).types@ == old(ctx).types@))
                        &&& (name matches Option::Some(n) ==> ((old(ctx).can_insert && !old(ctx).types.spec_contains_key(n@)) ==> final(ctx).types@.len() == old(ctx).types@.len() + 1 && final(ctx).types@.drop_last() == old(ctx).types@
                            && final(ctx).types@.last().0 == n@ && ast::ty_shape(
                            final(ctx).types@.last().1,
                        ) == shape))
                        &&& (!old(ctx).can_insert || name is None ==> final(ctx).types@ == old(ctx).types@)
                    },
                    Option::None => true,
                })
            },
        },
        !old(ctx).can_insert || ref_free_sor(*schema) ==> shape_of_ref(r) == resolve_shape(
            reg_keys(old(ctx).types@),
            *schema,
        ),
        name is None && ref_free_sor(*schema) ==> final(ctx).types@ == old(ctx).types@,
    decreases ctx.measure(), sor_height(*schema) as int, 3int,
{
    proof {
        lemma_measure_nonneg(old(ctx));
    }
    match schema {
        SchemaOrRef::Item(s) => match resolve_item(ctx, name, s) {
            Option::Some(t) => Option::Some(ast::TypeRef::Type(t)),
            Option::None => Option::None,
        },
        SchemaOrRef::Reference(path) => {
            proof {
                lemma_reg_keys_contains(old(ctx).types@, tail_of(path@));
            }
            resolve_reference(ctx, path)
        },
    }
}

/// Resolves an inline schema by kind and, while the reusable components
/// are being walked, registers a named result exactly once: the first
/// resolution of a name wins, later ones leave its entry untouched.
fn resolve_item<'a>(ctx: &mut Context<'a>, name: Option<&String>, schema: &Schema) -> (r: Option<
    ast::Type,
>)
    requires
        old(ctx).wf(),
    ensures
        ctx_preserved(old(ctx), final(ctx)),
        match r {
            Option::Some(t) => {
                &&& !(t@ is Optional)
                &&& (match leaf_shape(&schema.kind) {
                    Option::Some(shape) => t@ == shape,
                    Option::None => true,
                })
                &&& (final(ctx).can_insert && name is Some ==> final(ctx).types.spec_contains_key(
                    name->0@,
                ))
            },
            Option::None => true,
        },
        leaf_shape(&schema.kind) is Some ==> r is Some,
        !old(ctx).can_insert || ref_free_kind(schema.kind) ==> shape_of_ty(r) == resolve_kind(
            reg_keys(old(ctx).types@),
            schema.kind,
        ),
        name is None && ref_free_kind(schema.kind) ==> final(ctx).types@ == old(ctx).types@,
        match leaf_shape(&schema.kind) {
            Option::Some(shape) => {
                &&& (name matches Option::Some(n) ==> ((old(ctx).can_insert && old(ctx).types.spec_contains_key(n@)) ==> final(ctx).types@ == old(ctx).types@))
                &&& (name matches Option::Some(n) ==> ((old(ctx).can_insert && !old(ctx).types.spec_contains_key(n@)) ==> final(ctx).types@.len() == old(ctx).types@.len() + 1 && final(ctx).types@.drop_last() == old(ctx).types@ && final(ctx).types@.last().0 == n@ && ast::ty_shape(final(ctx).types@.last().1) == shape))
                &&& (!old(ctx).can_insert || name is None ==> final(ctx).types@ == old(ctx).types@)
                &&& (!(schema.kind is AnyOf) && !(schema.kind is Not) ==> final(ctx).errors@
                    == old(ctx).errors@)
            },
            Option::None => true,
        },
    decreases ctx.measure(), kind_height(schema.kind) as int, 9int,
{
    proof {
        lemma_measure_nonneg(old(ctx));
    }
    let ty = match schema_to_type(ctx, name, schema) {
        Option::Some(t) => t,
        Option::None => {
            return Option::None;
        },
    };
    let ghost mid = *ctx;
    proof {
        if leaf_shape(&schema.kind) is Some {
            assert(mid.types@ == old(ctx).types@);
            match name {
                Option::Some(n) => {
                    assert(mid.types.spec_contains_key(n@) == old(ctx).types.spec_contains_key(
                        n@,
                    ));
                },
                Option::None => {},
            }
        }
    }
    if ctx.can_insert {
        match name {
            Option::Some(key) => {
                if !ctx.types.contains_key(key) {
                    let ghost before = ctx.types@;
                    let copy = ast::clone_type(&ty);
                    ctx.types.insert(key.clone(), copy);
                    proof {
                        assert(ctx.types@ == before.push((key@, copy)));
                        assert(ctx.types@[before.len() as int].0 == key@);
                        assert(ctx.types.spec_contains_key(key@));
                        assert(ctx.types@.drop_last() =~= before);
                        assert(before.is_prefix_of(ctx.types@)) by {
                            assert(before =~= ctx.types@.subrange(0, before.len() as int));
                        }
                        lemma_prefix_trans(old(ctx).types@, before, ctx.types@);
                    }
                } else {
                }
            },
            Option::None => {},
        }
    }
    Option::Some(ty)
}

/// Dispatches an inline schema on its declared kind, inside a scope
/// segment named after the schema when it has a name. Free-form and
/// negation declarations degrade to `Any` with an `unsupported`
/// diagnostic.
fn schema_to_type<'a>(ctx: &mut Context<'a>, name: Option<&String>, schema: &Schema) -> (r: Option<
    ast::Type,
>)
    requires
        old(ctx).wf(),
    ensures
        ctx_preserved(old(ctx), final(ctx)),
        match r {
            Option::Some(t) => {
                &&& !(t@ is Optional)
                &&& (match leaf_shape(&schema.kind) {
                    Option::Some(shape) => t@ == shape,
                    Option::None => true,
                })
            },
            Option::None => true,
        },
        leaf_shape(&schema.kind) is Some ==> r is Some,
        !old(ctx).can_insert || ref_free_kind(schema.kind) ==> shape_of_ty(r) == resolve_kind(
            reg_keys(old(ctx).types@),
            schema.kind,
        ),
        ref_free_kind(schema.kind) ==> final(ctx).types@ == old(ctx).types@,
        schema.kind is AnyOf || schema.kind is Not ==> final(ctx).errors@.len() == old(ctx).errors@.len() + 1 && final(ctx).errors@.last().kind@ == ErrorKindShape::Unsupported(
            if schema.kind is AnyOf {
                "any_of"@
            } else {
                "not"@
            },
        ) && final(ctx).errors@.last().scope@ == old(ctx).scope@.push(
            match name {
                Option::Some(n) => Option::Some(n@),
                Option::None => Option::None,
            },
        ),
        leaf_shape(&schema.kind) is Some ==> final(ctx).types@ == old(ctx).types@,
        leaf_shape(&schema.kind) is Some && !(schema.kind is AnyOf) && !(schema.kind is Not)
            ==> final(ctx).errors@ == old(ctx).errors@,
    decreases ctx.measure(), kind_height(schema.kind) as int, 8int,
{
    proof {
        lemma_measure_nonneg(old(ctx));
    }
    let scope_name = match name {
        Option::Some(n) => Option::Some(n.clone()),
        Option::None => Option::None,
    };
    ctx.scope_opt(scope_name);
    let ghost entered = *ctx;
    let r = match &schema.kind {
        SchemaKind::String(ss) => Option::Some(string_type(ss)),
        SchemaKind::Number => Option::Some(ast::Type::Number),
        SchemaKind::Integer => Option::Some(ast::Type::Number),
        SchemaKind::Boolean => Option::Some(ast::Type::Boolean),
        SchemaKind::Object(obj) => object_type(ctx, obj),
        SchemaKind::Array(arr) => array_type(ctx, arr),
        SchemaKind::OneOf(v) => one_of(ctx, v),
        SchemaKind::AllOf(v) => all_of(ctx, v),
        SchemaKind::AnyOf => {
            ctx.error(Error::unsupported("any_of"));
            Option::Some(ast::Type::Any)
        },
        SchemaKind::Not => {
            ctx.error(Error::unsupported("not"));
            Option::Some(ast::Type::Any)
        },
        SchemaKind::Any => Option::Some(ast::Type::Any),
    };
    ctx.scope_end();
    proof {
        lemma_prefix_refl(entered.types@);
        lemma_prefix_refl(entered.errors@);
        lemma_prefix_trans(old(ctx).errors@, entered.errors@, ctx.errors@);
        lemma_prefix_trans(old(ctx).types@, entered.types@, ctx.types@);
        assert(ctx.scope@ =~= old(ctx).scope@);
    }
    r
}

/// Resolves each property of an object schema, wrapping the type of a
/// property that is not required in `Optional`. One failed property fails
/// the whole object; an object without properties degenerates to `Any`.
#[verifier::loop_isolation(false)]
#[verifier::rlimit(100)]
fn object_type<'a>(ctx: &mut Context<'a>, obj: &ObjectSchema) -> (r: Option<ast::Type>)
    requires
        old(ctx).wf(),
    ensures
        ctx_preserved(old(ctx), final(ctx)),
        match r {
            Option::Some(t) => object_result(obj, t),
            Option::None => true,
        },
        !old(ctx).can_insert || ref_free_props(obj.properties@) ==> shape_of_ty(r)
            == resolve_kind(reg_keys(old(ctx).types@), SchemaKind::Object(*obj)),
        ref_free_props(obj.properties@) ==> final(ctx).types@ == old(ctx).types@,
    decreases ctx.measure(), props_height(obj.properties@) as int, 9int,
{
    proof {
        lemma_measure_nonneg(old(ctx));
        lemma_props_height(obj.properties@);
        lemma_ref_free_props(obj.properties@);
        lemma_prefix_refl(old(ctx).types@);
        lemma_prefix_refl(old(ctx).errors@);
    }
    let ghost keys = reg_keys(old(ctx).types@);
    let ghost mirrored = !old(ctx).can_insert || ref_free_props(obj.properties@);
    let mut props: Vec<(String, ast::TypeRef)> = Vec::new();
    let n = obj.properties.len();
    let mut i: usize = 0;
    while i < n
        invariant
            i <= n,
            ctx_preserved(old(ctx), ctx),
            props@.len() == i,
            forall|j: int|
                #![trigger props@[j]]
                0 <= j < i ==> props@[j].0 == obj.properties@[j].0 && (required_has(
                    obj.required@,
                    obj.properties@[j].0@,
                ) <==> !optional_shape_ref(props@[j].1@)),
            forall|j: int|
                #![trigger props@[j]]
                0 <= j < i ==> match obj.properties@[j].1 {
                    SchemaOrRef::Item(s) => match leaf_shape(&s.kind) {
                        Option::Some(shape) => props@[j].1@ == (if required_has(
                            obj.required@,
                            obj.properties@[j].0@,
                        ) {
                            ast::ShapeRef::Type(Box::new(shape))
                        } else {
                            ast::ShapeRef::Type(
                                Box::new(
                                    ast::Shape::Optional(
                                        Box::new(ast::ShapeRef::Type(Box::new(shape))),
                                    ),
                                ),
                            )
                        }),
                        Option::None => true,
                    },
                    SchemaOrRef::Reference(_) => true,
                },
            mirrored ==> ctx.types@ == old(ctx).types@,
            mirrored ==> resolve_fields(keys, obj.properties@.take(i as int), obj.required@)
                == Option::Some(ast::fields_shape(props@)),
        decreases n - i,
    {
        let key = &obj.properties[i].0;
        let resolved = match resolve_type(ctx, Option::None, &obj.properties[i].1) {
            Option::Some(t) => t,
            Option::None => {
                proof {
                    if mirrored {
                        lemma_resolve_fields_none(keys, obj.properties@, obj.required@, i as int);
                    }
                }
                return Option::None;
            },
        };
        let entry = if names_contain(&obj.required, key) {
            proof {
                assert(required_has(obj.required@, key@));
                assert(!optional_shape_ref(resolved@));
            }
            (key.clone(), resolved)
        } else {
            proof {
                assert(!required_has(obj.required@, key@));
                assert(ast::ref_shape(
                    ast::TypeRef::Type(ast::Type::Optional(Box::new(resolved))),
                ) is Type);
                assert(optional_shape_ref(
                    ast::ref_shape(ast::TypeRef::Type(ast::Type::Optional(Box::new(resolved)))),
                ));
            }
            (key.clone(), ast::TypeRef::Type(ast::Type::Optional(Box::new(resolved))))
        };
        let ghost snapshot = entry;
        proof {
            assert(snapshot.0 == obj.properties@[i as int].0);
            assert(required_has(obj.required@, obj.properties@[i as int].0@)
                <==> !optional_shape_ref(snapshot.1@));
            match obj.properties@[i as int].1 {
                SchemaOrRef::Item(s) => match leaf_shape(&s.kind) {
                    Option::Some(shape) => {
                        assert(resolved@ == ast::ShapeRef::Type(Box::new(shape)));
                        if !required_has(obj.required@, obj.properties@[i as int].0@) {
                            assert(snapshot.1@ == ast::ShapeRef::Type(
                                Box::new(
                                    ast::Shape::Optional(
                                        Box::new(ast::ShapeRef::Type(Box::new(shape))),
                                    ),
                                ),
                            ));
                        }
                    },
                    Option::None => {},
                },
                SchemaOrRef::Reference(_) => {},
            }
        }
        let ghost pprev = props@;
        props.push(entry);
        i = i + 1;
        proof {
            assert(props@[i - 1] == snapshot);
            assert forall|j: int|
                #![trigger props@[j]]
                0 <= j < i implies props@[j].0 == obj.properties@[j].0 && (required_has(
                obj.required@,
                obj.properties@[j].0@,
            ) <==> !optional_shape_ref(props@[j].1@)) by {
                if j < i - 1 {
                    assert(props@[j] == pprev[j]);
                }
            }
            assert forall|j: int|
                #![trigger props@[j]]
                0 <= j < i implies match obj.properties@[j].1 {
                SchemaOrRef::Item(s) => match leaf_shape(&s.kind) {
                    Option::Some(shape) => props@[j].1@ == (if required_has(
                        obj.required@,
                        obj.properties@[j].0@,
                    ) {
                        ast::ShapeRef::Type(Box::new(shape))
                    } else {
                        ast::ShapeRef::Type(
                            Box::new(
                                ast::Shape::Optional(
                                    Box::new(ast::ShapeRef::Type(Box::new(shape))),
                                ),
                            ),
                        )
                    }),
                    Option::None => true,
                },
                SchemaOrRef::Reference(_) => true,
            } by {
                if j < i - 1 {
                    assert(props@[j] == pprev[j]);
                }
            }
            if mirrored {
                let cur = obj.properties@.take(i as int);
                assert(cur.drop_last() =~= obj.properties@.take(i - 1));
                assert(cur.last() == obj.properties@[i - 1]);
                assert(props@.drop_last() =~= pprev);
                assert(props@.last() == snapshot);
                assert(ast::fields_shape(props@) == ast::fields_shape(pprev).push(
                    (snapshot.0@, ast::ref_shape(snapshot.1)),
                ));
                assert(resolve_fields(keys, cur, obj.required@) == Option::Some(
                    ast::fields_shape(props@),
                ));
            }
        }
    }
    proof {
        if mirrored {
            assert(obj.properties@.take(n as int) =~= obj.properties@);
            ast::lemma_fields_shape(props@);
        }
    }
    if props.len() > 0 {
        let t = ast::Type::Object(props);
        proof {
            ast::lemma_fields_shape(t->Object_0@);
            assert(object_result(obj, t));
        }
        Option::Some(t)
    } else {
        Option::Some(ast::Type::Any)
    }
}

/// Resolves the element schema of an array; an array without a declared
/// element, or one whose element fails, fails as a whole.
fn array_type<'a>(ctx: &mut Context<'a>, arr: &ArraySchema) -> (r: Option<ast::Type>)
    requires
        old(ctx).wf(),
    ensures
        ctx_preserved(old(ctx), final(ctx)),
        match r {
            Option::Some(t) => t@ is Array,
            Option::None => true,
        },
        !old(ctx).can_insert || ref_free_kind(SchemaKind::Array(*arr)) ==> shape_of_ty(r)
            == resolve_kind(reg_keys(old(ctx).types@), SchemaKind::Array(*arr)),
        ref_free_kind(SchemaKind::Array(*arr)) ==> final(ctx).types@ == old(ctx).types@,
    decreases ctx.measure(), (match arr.items {
        Option::Some(b) => sor_height(*b),
        Option::None => 0,
    }) as int, 9int,
{
    proof {
        lemma_measure_nonneg(old(ctx));
    }
    let items = match &arr.items {
        Option::Some(b) => &**b,
        Option::None => {
            return Option::None;
        },
    };
    let ty = match resolve_type(ctx, Option::None, items) {
        Option::Some(t) => t,
        Option::None => {
            return Option::None;
        },
    };
    Option::Some(ast::Type::Array(Box::new(ty)))
}

/// Resolves every alternative of a union declaration; one failure fails
/// the whole union. A leaf alternative becomes exactly its declared type,
/// at its declared position.
#[verifier::loop_isolation(false)]
fn one_of<'a>(ctx: &mut Context<'a>, list: &Vec<SchemaOrRef>) -> (r: Option<ast::Type>)
    requires
        old(ctx).wf(),
    ensures
        ctx_preserved(old(ctx), final(ctx)),
        match r {
            Option::Some(t) => t@ is Union && t@->Union_0.len() == list@.len() && (forall|i: int|
                #![trigger t@->Union_0[i]]
                0 <= i < list@.len() ==> match list@[i] {
                    SchemaOrRef::Item(s) => match leaf_shape(&s.kind) {
                        Option::Some(shape) => t@->Union_0[i] == ast::ShapeRef::Type(
                            Box::new(shape),
                        ),
                        Option::None => true,
                    },
                    SchemaOrRef::Reference(_) => true,
                }),
            Option::None => true,
        },
        !old(ctx).can_insert || ref_free_list(list@) ==> shape_of_ty(r) == resolve_kind(
            reg_keys(old(ctx).types@),
            SchemaKind::OneOf(*list),
        ),
        ref_free_list(list@) ==> final(ctx).types@ == old(ctx).types@,
    decreases ctx.measure(), list_height(list@) as int, 9int,
{
    proof {
        lemma_measure_nonneg(old(ctx));
        lemma_list_height(list@);
        lemma_ref_free_list(list@);
        lemma_prefix_refl(old(ctx).types@);
        lemma_prefix_refl(old(ctx).errors@);
    }
    let ghost keys = reg_keys(old(ctx).types@);
    let ghost mirrored = !old(ctx).can_insert || ref_free_list(list@);
    let mut parts: Vec<ast::TypeRef> = Vec::new();
    let n = list.len();
    let mut i: usize = 0;
    while i < n
        invariant
            i <= n,
            ctx_preserved(old(ctx), ctx),
            parts@.len() == i,
            forall|j: int|
                #![trigger parts@[j]]
                0 <= j < i ==> match list@[j] {
                    SchemaOrRef::Item(s) => match leaf_shape(&s.kind) {
                        Option::Some(shape) => parts@[j]@ == ast::ShapeRef::Type(Box::new(shape)),
                        Option::None => true,
                    },
                    SchemaOrRef::Reference(_) => true,
                },
            mirrored ==> ctx.types@ == old(ctx).types@,
            mirrored ==> resolve_list(keys, list@.take(i as int)) == Option::Some(
                ast::refs_shape(parts@),
            ),
        decreases n - i,
    {
        let t = match resolve_type(ctx, Option::None, &list[i]) {
            Option::Some(t) => t,
            Option::None => {
                proof {
                    if mirrored {
                        lemma_resolve_list_none(keys, list@, i as int);
                    }
                }
                return Option::None;
            },
        };
        let ghost snapshot = t;
        let ghost pprev = parts@;
        parts.push(t);
        i = i + 1;
        proof {
            assert(parts@[i - 1] == snapshot);
            assert forall|j: int|
                #![trigger parts@[j]]
                0 <= j < i implies match list@[j] {
                SchemaOrRef::Item(s) => match leaf_shape(&s.kind) {
                    Option::Some(shape) => parts@[j]@ == ast::ShapeRef::Type(Box::new(shape)),
                    Option::None => true,
                },
                SchemaOrRef::Reference(_) => true,
            } by {
                if j < i - 1 {
                    assert(parts@[j] == pprev[j]);
                }
            }
            if mirrored {
                let cur = list@.take(i as int);
                assert(cur.drop_last() =~= list@.take(i - 1));
                assert(cur.last() == list@[i - 1]);
                assert(parts@.drop_last() =~= pprev);
                assert(parts@.last() == snapshot);
                assert(ast::refs_shape(parts@) == ast::refs_shape(pprev).push(
                    ast::ref_shape(snapshot),
                ));
                assert(resolve_list(keys, cur) == Option::Some(ast::refs_shape(parts@)));
            }
        }
    }
    let t = ast::Type::Union(parts);
    proof {
        ast::lemma_refs_shape(t->Union_0@);
        if mirrored {
            assert(list@.take(n as int) =~= list@);
        }
    }
    Option::Some(t)
}

/// Merges the fields of intersection fragments left to right. A fragment
/// that fails to resolve, or resolves to anything but an object, abandons
/// the merge as a failure under one `incompatible` diagnostic; a field
/// name arriving twice records a `duplicate keys` diagnostic and fails the
/// merge. A successful merge never holds the same field name twice.
#[verifier::rlimit(100)]
fn all_of<'a>(ctx: &mut Context<'a>, list: &Vec<SchemaOrRef>) -> (r: Option<ast::Type>)
    requires
        old(ctx).wf(),
    ensures
        ctx_preserved(old(ctx), final(ctx)),
        match r {
            Option::Some(t) => t@ is Object && (forall|a: int, b: int|
                0 <= a < b < t@->Object_0.len() ==> t@->Object_0[a].0 != t@->Object_0[b].0),
            Option::None => final(ctx).errors@.len() > old(ctx).errors@.len() && final(ctx).errors@.last().scope@ == old(ctx).scope@ && (match final(ctx).errors@.last().kind@ {
                ErrorKindShape::DuplicateKeys(ks) => ks.len() >= 1,
                ErrorKindShape::Generic(msg) => msg
                    == "all-of fragments must merge as objects"@,
                _ => false,
            }),
        },
        !old(ctx).can_insert || ref_free_list(list@) ==> shape_of_ty(r) == resolve_kind(
            reg_keys(old(ctx).types@),
            SchemaKind::AllOf(*list),
        ),
        ref_free_list(list@) ==> final(ctx).types@ == old(ctx).types@,
    decreases ctx.measure(), list_height(list@) as int, 9int,
{
    proof {
        lemma_measure_nonneg(old(ctx));
        lemma_list_height(list@);
        lemma_prefix_refl(old(ctx).types@);
        lemma_prefix_refl(old(ctx).errors@);
    }
    let ghost keys = reg_keys(old(ctx).types@);
    let ghost mirrored = !old(ctx).can_insert || ref_free_list(list@);
    let mut result: Vec<(String, ast::TypeRef)> = Vec::new();
    let mut duplicates: Vec<String> = Vec::new();
    let n = list.len();
    let mut i: usize = 0;
    proof {
        assert(list@.skip(0) =~= list@);
        assert(ast::fields_shape(result@) =~= Seq::<(Seq<char>, ast::ShapeRef)>::empty());
    }
    while i < n
        invariant
            i <= n,
            n == list@.len(),
            old(ctx).wf(),
            ctx_preserved(old(ctx), ctx),
            mirrored == (!old(ctx).can_insert || ref_free_list(list@)),
            keys == reg_keys(old(ctx).types@),
            forall|a: int, b: int| 0 <= a < b < result@.len() ==> result@[a].0@ != result@[b].0@,
            mirrored ==> ctx.types@ == old(ctx).types@,
            mirrored ==> merge_frags(keys, Seq::empty(), false, list@) == merge_frags(
                keys,
                ast::fields_shape(result@),
                duplicates@.len() > 0,
                list@.skip(i as int),
            ),
        decreases n - i,
    {
        proof {
            lemma_list_height(list@);
            lemma_measure_nonneg(ctx);
            lemma_ref_free_list(list@);
        }
        let resolved = resolve_type(ctx, Option::None, &list[i]);
        proof {
            if mirrored {
                assert(shape_of_ref(resolved) == resolve_shape(keys, list@[i as int]));
                assert(list@.skip(i as int)[0] == list@[i as int]);
                assert(list@.skip(i as int).drop_first() =~= list@.skip(i + 1));
            }
        }
        let fields = match resolved {
            Option::Some(ast::TypeRef::Type(ast::Type::Object(fields))) => fields,
            other => {
                proof {
                    if mirrored {
                        assert(merge_frags(
                            keys,
                            ast::fields_shape(result@),
                            duplicates@.len() > 0,
                            list@.skip(i as int),
                        ) is None) by {
                            match other {
                                Option::Some(tr) => {
                                    match tr {
                                        ast::TypeRef::Type(t) => {
                                            assert(!(ast::ty_shape(t) is Object));
                                        },
                                        ast::TypeRef::Ref(_) => {},
                                    }
                                },
                                Option::None => {},
                            }
                        }
                    }
                }
                let ghost pre_err = *ctx;
                ctx.error(Error::generic("all-of fragments must merge as objects"));
                proof {
                    lemma_preserved_trans(
                        old(ctx),
                        &pre_err,
                        &Context { errors: pre_err.errors, ..*ctx },
                    );
                    lemma_prefix_trans(old(ctx).errors@, pre_err.errors@, ctx.errors@);
                    lemma_prefix_trans(old(ctx).types@, pre_err.types@, ctx.types@);
                }
                return Option::None;
            },
        };
        let ghost acc_frag = ast::fields_shape(result@);
        let ghost clash0 = duplicates@.len() > 0;
        let ghost ffs = ast::fields_shape(fields@);
        proof {
            ast::lemma_fields_shape(fields@);
            assert(ffs.take(0) =~= Seq::<(Seq<char>, ast::ShapeRef)>::empty());
        }
        let m = fields.len();
        let mut j: usize = 0;
        while j < m
            invariant
                j <= m,
                m == fields@.len(),
                ffs == ast::fields_shape(fields@),
                ffs.len() == m,
                ctx_preserved(old(ctx), ctx),
                forall|a: int, b: int|
                    0 <= a < b < result@.len() ==> result@[a].0@ != result@[b].0@,
                mirrored ==> ast::fields_shape(result@) == fields_union(
                    acc_frag,
                    ffs.take(j as int),
                ),
                mirrored ==> ((duplicates@.len() > 0) <==> (clash0 || fields_clash(
                    acc_frag,
                    ffs.take(j as int),
                ))),
            decreases m - j,
        {
            let key = &fields[j].0;
            proof {
                ast::lemma_fields_shape(fields@);
                ast::lemma_fields_shape(result@);
                assert(ffs[j as int] == (fields@[j as int].0@, ast::ref_shape(
                    fields@[j as int].1,
                )));
                assert(fields_have_key(result@, key@) == fields_key_in(
                    ast::fields_shape(result@),
                    key@,
                )) by {
                    if fields_have_key(result@, key@) {
                        let e = choose|e: int|
                            0 <= e < result@.len() && result@[e].0@ == key@;
                        assert(ast::fields_shape(result@)[e].0 == key@);
                    }
                    if fields_key_in(ast::fields_shape(result@), key@) {
                        let e = choose|e: int|
                            0 <= e < ast::fields_shape(result@).len() && ast::fields_shape(
                                result@,
                            )[e].0 == key@;
                        assert(result@[e].0@ == key@);
                    }
                }
                if mirrored {
                    assert(ffs.take(j + 1).drop_last() =~= ffs.take(j as int));
                    assert(ffs.take(j + 1).last() == ffs[j as int]);
                }
            }
            if fields_contain_key(&result, key) {
                duplicates.push(key.clone());
                proof {
                    if mirrored {
                        assert(fields_union(acc_frag, ffs.take(j + 1)) == fields_union(
                            acc_frag,
                            ffs.take(j as int),
                        ));
                        assert(clash0 || fields_clash(acc_frag, ffs.take(j + 1)));
                    }
                }
            } else {
                let entry = (key.clone(), ast::clone_type_ref(&fields[j].1));
                let ghost snapshot = entry;
                let ghost pprev = result@;
                result.push(entry);
                proof {
                    assert(result@.drop_last() =~= pprev);
                    assert(result@.last() == snapshot);
                    if mirrored {
                        assert(ast::fields_shape(result@) == ast::fields_shape(pprev).push(
                            (snapshot.0@, ast::ref_shape(snapshot.1)),
                        ));
                        assert((snapshot.0@, ast::ref_shape(snapshot.1)) == ffs[j as int]);
                        assert(ast::fields_shape(result@) == fields_union(
                            acc_frag,
                            ffs.take(j + 1),
                        ));
                    }
                }
            }
            j = j + 1;
        }
        i = i + 1;
        proof {
            if mirrored {
                assert(ffs.take(m as int) =~= ffs);
                assert(merge_frags(keys, acc_frag, clash0, list@.skip(i - 1)) == merge_frags(
                    keys,
                    fields_union(acc_frag, ffs),
                    clash0 || fields_clash(acc_frag, ffs),
                    list@.skip(i as int),
                ));
            }
        }
    }
    proof {
        if mirrored {
            assert(list@.skip(n as int) =~= Seq::<SchemaOrRef>::empty());
        }
    }
    if duplicates.len() == 0 {
        let t = ast::Type::Object(result);
        proof {
            ast::lemma_fields_shape(t->Object_0@);
            assert(t@ is Object);
        }
        Option::Some(t)
    } else {
        ctx.error(Error::duplicate_keys(duplicates));
        proof {
            lemma_preserved_trans(old(ctx), &Context { errors: old(ctx).errors, ..*ctx }, ctx);
        }
        Option::None
    }
}

/// Follows a named reference: the trailing path segment is looked up in
/// the registry and answered with its symbolic name. While the reusable
/// components are walked, a name not yet registered is resolved from its
/// declaration first — unless that resolution is already under way, which
/// is reported as a cyclic reference. A name declared nowhere is an
/// unresolved reference; a declaration that fails to resolve fails this
/// reference too, on the diagnostics it recorded itself.
#[verifier::rlimit(100)]
fn resolve_reference<'a>(ctx: &mut Context<'a>, name: &String) -> (r: Option<ast::TypeRef>)
    requires
        old(ctx).wf(),
    ensures
        ctx_preserved(old(ctx), final(ctx)),
        match r {
            Option::Some(tr) => tr@ is Ref && final(ctx).types.spec_contains_key(tr@->Ref_0),
            Option::None => true,
        },
        old(ctx).types.spec_contains_key(tail_of(name@)) ==> (r matches Option::Some(tr) && tr@
            == ast::ShapeRef::Ref(tail_of(name@))) && final(ctx).types@ == old(ctx).types@
            && final(ctx).errors@ == old(ctx).errors@,
        !old(ctx).types.spec_contains_key(tail_of(name@)) && (!old(ctx).can_insert
            || !schema_keys(old(ctx).components).contains(tail_of(name@))) ==> r is None && final(
            ctx
        ).types@ == old(ctx).types@ && final(ctx).errors@.len() == old(ctx).errors@.len() + 1
            && final(ctx).errors@.last().kind@ == ErrorKindShape::UnresolvedReference(
            tail_of(name@),
        ) && final(ctx).errors@.last().scope@ == old(ctx).scope@,
        (!old(ctx).types.spec_contains_key(tail_of(name@)) && old(ctx).can_insert && !old(ctx).marked().contains(tail_of(name@)) && (match comp_schema(
            old(ctx).components,
            tail_of(name@),
        ) {
            Option::Some(decl) => ref_free_sor(decl) && resolve_shape(
                reg_keys(old(ctx).types@),
                decl,
            ) is Some,
            Option::None => false,
        })) ==> r is Some,
        !old(ctx).types.spec_contains_key(tail_of(name@)) && old(ctx).can_insert && schema_keys(
            old(ctx).components,
        ).contains(tail_of(name@)) && old(ctx).marked().contains(tail_of(name@)) ==> r is None
            && final(ctx).types@ == old(ctx).types@ && final(ctx).errors@.len() == old(
            ctx
        ).errors@.len() + 1 && final(ctx).errors@.last().kind@ == ErrorKindShape::Unsupported(
            "cyclic reference"@,
        ) && final(ctx).errors@.last().scope@ == old(ctx).scope@,
    decreases ctx.measure(), 0int, 9int,
{
    proof {
        lemma_measure_nonneg(old(ctx));
        lemma_prefix_refl(old(ctx).types@);
        lemma_prefix_refl(old(ctx).errors@);
    }
    let tail = ref_tail(name.as_str());
    if ctx.types.contains_key(&tail) {
        return Option::Some(ast::TypeRef::Ref(tail));
    }
    if ctx.can_insert {
        let components = ctx.components;
        match components {
            Option::Some(components) => {
                match find_component(components, &tail) {
                    Option::Some(schema) => {
                        if !names_contain(&ctx.in_progress, &tail) {
                            let ghost entry_marked = ctx.marked();
                            ctx.in_progress.push(tail.clone());
                            proof {
                                assert(ctx.marked() =~= entry_marked.push(tail@));
                                assert(forall|j: int|
                                    0 <= j < entry_marked.len() ==> entry_marked[j] != tail@);
                                assert(schema_keys(ctx.components).contains(tail@));
                                assert(ctx.wf());
                                lemma_measure_nonneg(ctx);
                            }
                            let ghost pushed = *ctx;
                            proof {
                                assert(pushed.types@ == old(ctx).types@);
                            }
                            let resolved = resolve_type(ctx, Option::Some(&tail), schema);
                            proof {
                                if ref_free_sor(*schema) {
                                    assert(shape_of_ref(resolved) == resolve_shape(
                                        reg_keys(old(ctx).types@),
                                        *schema,
                                    ));
                                }
                            }
                            let ghost returned = *ctx;
                            let _popped = ctx.in_progress.pop();
                            proof {
                                assert(ctx.in_progress@ =~= old(ctx).in_progress@);
                                assert(ctx.marked() =~= entry_marked);
                                assert(ctx.wf());
                                lemma_prefix_trans(old(ctx).types@, pushed.types@, ctx.types@);
                                lemma_prefix_trans(old(ctx).errors@, pushed.errors@, ctx.errors@);
                            }
                            match resolved {
                                Option::Some(tr) => {
                                    if ctx.types.contains_key(&tail) {
                                        return Option::Some(ast::TypeRef::Ref(tail));
                                    }
                                    proof {
                                        assert(ctx.types@ == returned.types@);
                                        match *schema {
                                            SchemaOrRef::Item(_) => {
                                                assert(returned.types.spec_contains_key(tail@));
                                                assert(false);
                                            },
                                            SchemaOrRef::Reference(_) => {},
                                        }
                                    }
                                    return Option::Some(tr);
                                },
                                Option::None => {},
                            }
                            proof {
                                if !old(ctx).types.spec_contains_key(tail_of(name@)) && old(ctx).can_insert && !old(ctx).marked().contains(tail_of(name@)) && (
                                match comp_schema(old(ctx).components, tail_of(name@)) {
                                    Option::Some(decl) => ref_free_sor(decl) && resolve_shape(
                                        reg_keys(old(ctx).types@),
                                        decl,
                                    ) is Some,
                                    Option::None => false,
                                }) {
                                    assert(comp_schema(old(ctx).components, tail_of(name@))
                                        == Option::Some(*schema));
                                    assert(ref_free_sor(*schema));
                                    assert(resolved is Some);
                                    assert(false);
                                }
                            }
                            return Option::None;
                        } else {
                            proof {
                                assert(old(ctx).marked().contains(tail@));
                            }
                            ctx.error(Error::unsupported("cyclic reference"));
                            proof {
                                lemma_prefix_refl(ctx.types@);
                            }
                            return Option::None;
                        }
                    },
                    Option::None => {},
                }
            },
            Option::None => {},
        }
    }
    let ghost before_err = *ctx;
    proof {
        match ctx.components {
            Option::Some(c) => {
                if !schema_keys(ctx.components).contains(tail@) {
                    lemma_comp_schema_some(c.schemas@, tail@);
                    if comp_schema_in(c.schemas@, tail@) is Some {
                        let i = choose|i: int|
                            0 <= i < c.schemas@.len() && (#[trigger] c.schemas@[i]).0@ == tail@;
                        assert(schema_keys(ctx.components)[i] == tail@);
                    }
                }
            },
            Option::None => {},
        }
    }
    ctx.error(Error::unresolved_ref(tail));
    proof {
        lemma_prefix_trans(old(ctx).errors@, before_err.errors@, ctx.errors@);
        lemma_prefix_trans(old(ctx).types@, before_err.types@, ctx.types@);
    }
    Option::None
}

// ---------------------------------------------------------------------------
// The route extractor
// ---------------------------------------------------------------------------

/// The operation's explicit identifier when present, else the camel-cased
/// form of its summary; without either the route cannot be named and a
/// `required-field-or` diagnostic is recorded.
pub fn op_parse_name<'a>(ctx: &mut Context<'a>, op: &Operation) -> (r: Option<String>)
    requires
        old(ctx).wf(),
    ensures
        ctx_preserved(old(ctx), final(ctx)),
        match op.operation_id {
            Option::Some(id) => r matches Option::Some(n) && n@ == id@ && final(ctx).errors@ == old(ctx).errors@,
            Option::None => match op.summary {
                Option::Some(s) => r matches Option::Some(n) && n@ == crate::util::camel_of(s@)
                    && final(ctx).errors@ == old(ctx).errors@,
                Option::None => r is None && final(ctx).errors@.len() == old(ctx).errors@.len() + 1
                    && final(ctx).errors@.last().kind@ == ErrorKindShape::RequiredFieldOr(
                    "summary"@,
                    "operation_id"@,
                ),
            },
        },
        final(ctx).types@ == old(ctx).types@,
{
    ctx.scope("name".to_owned());
    let r = match &op.operation_id {
        Option::Some(id) => Option::Some(id.clone()),
        Option::None => match &op.summary {
            Option::Some(s) => Option::Some(crate::util::to_camel_case(s.as_str())),
            Option::None => {
                ctx.error(Error::required_field_or("summary", "operation_id"));
                Option::None
            },
        },
    };
    ctx.scope_end();
    proof {
        assert(ctx.scope@ =~= old(ctx).scope@);
        lemma_prefix_refl(ctx.types@);
        if r is None {
            assert(old(ctx).errors@.is_prefix_of(ctx.errors@));
        } else {
            lemma_prefix_refl(ctx.errors@);
        }
    }
    r
}

/// The operation's description, trimmed, when it has one.
pub fn op_parse_desc(op: &Operation) -> (r: Option<String>)
    ensures
        match op.description {
            Option::Some(d) => r matches Option::Some(t) && t@ == crate::util::trim_of(d@),
            Option::None => r is None,
        },
{
    match &op.description {
        Option::Some(d) => Option::Some(crate::util::trim_in_place(d.clone())),
        Option::None => Option::None,
    }
}

/// Whether a declared parameter can be extracted at all: it must be
/// inline, must not live in a cookie, and must carry a schema rather than
/// a content map.
pub open spec fn param_supported(p: &MaybeRef<ParameterSrc>) -> bool {
    match p {
        MaybeRef::Item(param) => !(param.location is Cookie) && param.format is Schema,
        MaybeRef::Reference(_) => false,
    }
}

/// Whether the declared parameters carry pairwise distinct names.
pub open spec fn params_distinct(ps: Seq<MaybeRef<ParameterSrc>>) -> bool {
    forall|a: int, b: int|
        0 <= a < b < ps.len() ==> match (#[trigger] ps[a], #[trigger] ps[b]) {
            (MaybeRef::Item(x), MaybeRef::Item(y)) => x.name@ != y.name@,
            _ => true,
        }
}

/// The parameter kind a location is carried as; a cookie parameter never
/// yields an entry, so its image is immaterial.
pub open spec fn location_kind(l: ParamLocation) -> ast::ParameterKind {
    match l {
        ParamLocation::Query => ast::ParameterKind::Query,
        ParamLocation::Path => ast::ParameterKind::Path,
        ParamLocation::Header => ast::ParameterKind::Header,
        ParamLocation::Cookie => ast::ParameterKind::Header,
    }
}

/// What one extracted parameter entry carries for its declared source:
/// the declared name as its key and name, the kind of its location, the
/// declared description, the `Optional` wrap exactly when not required,
/// and, for an inline leaf schema, exactly the declared type.
pub open spec fn param_entry_result(d: ParameterSrc, entry: (Seq<char>, ast::Parameter)) -> bool {
    &&& entry.0 == d.name@
    &&& entry.1.name@ == d.name@
    &&& entry.1.description == d.description
    &&& entry.1.kind == location_kind(d.location)
    &&& (d.required <==> !optional_shape_ref(entry.1.ty@))
    &&& (match d.format {
        SchemaOrContent::Schema(SchemaOrRef::Item(sch)) => match leaf_shape(&sch.kind) {
            Option::Some(shape) => entry.1.ty@ == (if d.required {
                ast::ShapeRef::Type(Box::new(shape))
            } else {
                ast::ShapeRef::Type(
                    Box::new(
                        ast::Shape::Optional(Box::new(ast::ShapeRef::Type(Box::new(shape)))),
                    ),
                )
            }),
            Option::None => true,
        },
        _ => true,
    })
}

/// Whether a parameter-registry model already holds key `k`.
pub open spec fn entries_contain_key(
    entries: Seq<(Seq<char>, ast::Parameter)>,
    k: Seq<char>,
) -> bool {
    exists|e: int| 0 <= e < entries.len() && entries[e].0 == k
}

/// Whether every declared parameter extracts against the registered
/// names: each must be an inline path, query or header item whose schema
/// resolves.
pub open spec fn params_extract(keys: Seq<Seq<char>>, ps: Seq<MaybeRef<ParameterSrc>>) -> bool {
    forall|i: int|
        0 <= i < ps.len() ==> match #[trigger] ps[i] {
            MaybeRef::Item(d) => !(d.location is Cookie) && (match d.format {
                SchemaOrContent::Schema(s) => resolve_shape(keys, s) is Some,
                SchemaOrContent::Content => false,
            }),
            MaybeRef::Reference(_) => false,
        }
}

/// Whether an extracted parameter's type is exactly its schema's
/// resolution against the registered names, wrapped when not required.
pub open spec fn param_ty_mirrors(keys: Seq<Seq<char>>, d: ParameterSrc, p: ast::Parameter) -> bool {
    match d.format {
        SchemaOrContent::Schema(sch) => match resolve_shape(keys, sch) {
            Option::Some(sh) => p.ty@ == (if d.required {
                sh
            } else {
                ast::ShapeRef::Type(Box::new(ast::Shape::Optional(Box::new(sh))))
            }),
            Option::None => true,
        },
        SchemaOrContent::Content => true,
    }
}

/// A parameter that extraction can never refuse: an inline path, query or
/// header parameter whose declared schema is an inline leaf.
pub open spec fn param_leaf(p: &MaybeRef<ParameterSrc>) -> bool {
    match p {
        MaybeRef::Item(param) => !(param.location is Cookie) && (match param.format {
            SchemaOrContent::Schema(s) => match s {
                SchemaOrRef::Item(sch) => leaf_shape(&sch.kind) is Some,
                SchemaOrRef::Reference(_) => false,
            },
            SchemaOrContent::Content => false,
        }),
        MaybeRef::Reference(_) => false,
    }
}

/// Extracts the declared parameters of one operation. Any parameter that
/// cannot be extracted — a reference, a cookie parameter, a content-map
/// type, or one whose type does not resolve — drops the whole parameter
/// list, and with it the route. A list of inline leaf-typed parameters
/// always extracts.
#[verifier::loop_isolation(false)]
#[verifier::rlimit(100)]
/// Extracts one declared parameter: an inline path, query or header item
/// whose schema resolves, the type wrapped in `Optional` when not
/// required. A reference, a cookie location, a content-map form or a
/// failed resolution yields nothing.
fn parse_one_param<'a>(ctx: &mut Context<'a>, p: &MaybeRef<ParameterSrc>) -> (r: Option<
    ast::Parameter,
>)
    requires
        old(ctx).wf(),
    ensures
        ctx_preserved(old(ctx), final(ctx)),
        r is Some ==> param_supported(p),
        param_leaf(p) ==> r is Some,
        !old(ctx).can_insert ==> (r is Some <==> (match p {
            MaybeRef::Item(d) => !(d.location is Cookie) && (match d.format {
                SchemaOrContent::Schema(s) => resolve_shape(reg_keys(old(ctx).types@), s) is Some,
                SchemaOrContent::Content => false,
            }),
            MaybeRef::Reference(_) => false,
        })),
        match r {
            Option::Some(entry) => match p {
                MaybeRef::Item(d) => {
                    &&& param_entry_result(*d, (d.name@, entry))
                    &&& (!old(ctx).can_insert ==> param_ty_mirrors(reg_keys(old(ctx).types@), *d, entry))
                },
                MaybeRef::Reference(_) => false,
            },
            Option::None => true,
        },
{
    proof {
        lemma_prefix_refl(old(ctx).types@);
        lemma_prefix_refl(old(ctx).errors@);
    }
    let param = match p {
        MaybeRef::Item(param) => param,
        MaybeRef::Reference(_) => {
            return Option::None;
        },
    };
    let kind = match param.location {
        ParamLocation::Query => ast::ParameterKind::Query,
        ParamLocation::Path => ast::ParameterKind::Path,
        ParamLocation::Header => ast::ParameterKind::Header,
        ParamLocation::Cookie => {
            return Option::None;
        },
    };
    let schema = match &param.format {
        SchemaOrContent::Schema(s) => s,
        SchemaOrContent::Content => {
            return Option::None;
        },
    };
    let ty = match resolve_type(ctx, Option::Some(&param.name), schema) {
        Option::Some(t) => t,
        Option::None => {
            return Option::None;
        },
    };
    Option::Some(
        ast::Parameter {
            name: param.name.clone(),
            description: match &param.description {
                Option::Some(d) => Option::Some(d.clone()),
                Option::None => Option::None,
            },
            kind,
            ty: if param.required {
                ty
            } else {
                ast::TypeRef::Type(ast::Type::Optional(Box::new(ty)))
            },
        },
    )
}

/// Extracts the declared parameters of one operation. Any parameter that
/// cannot be extracted drops the whole parameter list, and with it the
/// route; outside the component-walking phase the list extracts exactly
/// when every parameter does.
#[verifier::rlimit(100)]
pub fn op_parse_params<'a>(ctx: &mut Context<'a>, op: &Operation) -> (r: Option<ast::Parameters>)
    requires
        old(ctx).wf(),
    ensures
        ctx_preserved(old(ctx), final(ctx)),
        match r {
            Option::Some(params) => {
                &&& params.wf()
                &&& forall|i: int|
                    0 <= i < op.parameters@.len() ==> param_supported(&op.parameters@[i])
                &&& forall|i: int|
                    0 <= i < op.parameters@.len() ==> match #[trigger] op.parameters@[i] {
                        MaybeRef::Item(p) => params.spec_contains_key(p.name@),
                        MaybeRef::Reference(_) => false,
                    }
            },
            Option::None => true,
        },
        (forall|i: int| 0 <= i < op.parameters@.len() ==> param_leaf(&op.parameters@[i]))
            ==> r is Some,
        !old(ctx).can_insert ==> (r is Some <==> params_extract(
            reg_keys(old(ctx).types@),
            op.parameters@,
        )),
        match r {
            Option::Some(params) => params_distinct(op.parameters@) ==> params@.len()
                == op.parameters@.len() && (forall|e: int|
                0 <= e < op.parameters@.len() ==> match #[trigger] op.parameters@[e] {
                    MaybeRef::Item(d) => param_entry_result(d, params@[e]) && (!old(ctx).can_insert ==> param_ty_mirrors(reg_keys(old(ctx).types@), d, params@[e].1)),
                    MaybeRef::Reference(_) => false,
                }),
            Option::None => true,
        },
{
    ctx.scope("parameters".to_owned());
    let ghost entered = *ctx;
    let mut params: ast::Parameters = Dict::new();
    let n = op.parameters.len();
    let mut i: usize = 0;
    while i < n
        invariant
            i <= n,
            n == op.parameters@.len(),
            entered.scope@ == old(ctx).scope@.push(Option::Some("parameters"@)),
            entered.components == old(ctx).components,
            entered.can_insert == old(ctx).can_insert,
            entered.types@ == old(ctx).types@,
            entered.errors@ == old(ctx).errors@,
            entered.in_progress@ == old(ctx).in_progress@,
            entered.security == old(ctx).security,
            ctx_preserved(&entered, ctx),
            params.wf(),
            forall|j: int| 0 <= j < i ==> param_supported(&op.parameters@[j]),
            !old(ctx).can_insert ==> forall|j: int|
                0 <= j < i ==> match #[trigger] op.parameters@[j] {
                    MaybeRef::Item(d) => !(d.location is Cookie) && (match d.format {
                        SchemaOrContent::Schema(s) => resolve_shape(
                            reg_keys(old(ctx).types@),
                            s,
                        ) is Some,
                        SchemaOrContent::Content => false,
                    }),
                    MaybeRef::Reference(_) => false,
                },
            forall|j: int|
                0 <= j < i ==> match #[trigger] op.parameters@[j] {
                    MaybeRef::Item(p) => params.spec_contains_key(p.name@),
                    MaybeRef::Reference(_) => false,
                },
            forall|e: int|
                0 <= e < params@.len() ==> exists|j: int|
                    0 <= j < i && (match #[trigger] op.parameters@[j] {
                        MaybeRef::Item(d) => d.name@ == (#[trigger] params@[e]).0,
                        MaybeRef::Reference(_) => false,
                    }),
            params_distinct(op.parameters@) ==> params@.len() == i && (forall|e: int|
                0 <= e < i ==> match #[trigger] op.parameters@[e] {
                    MaybeRef::Item(d) => param_entry_result(d, params@[e]) && (!old(ctx).can_insert ==> param_ty_mirrors(reg_keys(old(ctx).types@), d, params@[e].1)),
                    MaybeRef::Reference(_) => false,
                }),
        decreases n - i,
    {
        let ghost before = *ctx;
        let entry = match parse_one_param(ctx, &op.parameters[i]) {
            Option::Some(entry) => entry,
            Option::None => {
                proof {
                    lemma_preserved_trans(&entered, &before, ctx);
                }
                ctx.scope_end();
                proof {
                    assert(ctx.scope@ =~= old(ctx).scope@);
                    lemma_prefix_trans(old(ctx).types@, entered.types@, ctx.types@);
                    lemma_prefix_trans(old(ctx).errors@, entered.errors@, ctx.errors@);
                }
                return Option::None;
            },
        };
        proof {
            lemma_preserved_trans(&entered, &before, ctx);
        }
        let key = entry.name.clone();
        let ghost src_param = match op.parameters@[i as int] {
            MaybeRef::Item(d) => d,
            MaybeRef::Reference(_) => arbitrary(),
        };
        let ghost before_ins = params@;
        let ghost snapshot = entry;
        params.insert(key, entry);
        i = i + 1;
        proof {
            assert(snapshot.name@ == src_param.name@);
            assert(params.spec_contains_key(src_param.name@)) by {
                if before_ins.len() < params@.len() {
                    assert(params@[params@.len() - 1].0 == src_param.name@);
                } else {
                    let ki = choose|ki: int|
                        0 <= ki < before_ins.len() && before_ins[ki].0 == src_param.name@;
                    assert(params@[ki].0 == src_param.name@);
                }
            }
            assert forall|j: int|
                0 <= j < i implies match #[trigger] op.parameters@[j] {
                MaybeRef::Item(p) => params.spec_contains_key(p.name@),
                MaybeRef::Reference(_) => false,
            } by {
                if j < i - 1 {
                    match op.parameters@[j] {
                        MaybeRef::Item(p) => {
                            let ki = choose|ki: int|
                                0 <= ki < before_ins.len() && before_ins[ki].0 == p.name@;
                            assert(params@[ki].0 == p.name@);
                        },
                        MaybeRef::Reference(_) => {},
                    }
                }
            }
            assert forall|e: int|
                0 <= e < params@.len() implies exists|j: int|
                0 <= j < i && (match #[trigger] op.parameters@[j] {
                    MaybeRef::Item(d) => d.name@ == (#[trigger] params@[e]).0,
                    MaybeRef::Reference(_) => false,
                }) by {
                if e < before_ins.len() && params@[e].0 == before_ins[e].0 {
                    let j = choose|j: int|
                        0 <= j < i - 1 && (match #[trigger] op.parameters@[j] {
                            MaybeRef::Item(d) => d.name@ == before_ins[e].0,
                            MaybeRef::Reference(_) => false,
                        });
                    assert(match op.parameters@[j] {
                        MaybeRef::Item(d) => d.name@ == params@[e].0,
                        MaybeRef::Reference(_) => false,
                    });
                } else {
                    assert(params@[e].0 == src_param.name@);
                    assert(match op.parameters@[i - 1] {
                        MaybeRef::Item(d) => d.name@ == params@[e].0,
                        MaybeRef::Reference(_) => false,
                    });
                }
            }
            if params_distinct(op.parameters@) {
                assert(!entries_contain_key(before_ins, src_param.name@)) by {
                    if entries_contain_key(before_ins, src_param.name@) {
                        let e = choose|e: int|
                            0 <= e < before_ins.len() && before_ins[e].0 == src_param.name@;
                        let j = choose|j: int|
                            0 <= j < i - 1 && (match #[trigger] op.parameters@[j] {
                                MaybeRef::Item(d) => d.name@ == before_ins[e].0,
                                MaybeRef::Reference(_) => false,
                            });
                        assert(match (op.parameters@[j], op.parameters@[i - 1]) {
                            (MaybeRef::Item(x), MaybeRef::Item(y)) => x.name@ != y.name@,
                            _ => true,
                        });
                        assert(false);
                    }
                }
                assert(params@ == before_ins.push((src_param.name@, snapshot)));
                assert forall|e: int|
                    0 <= e < i implies match #[trigger] op.parameters@[e] {
                    MaybeRef::Item(d) => param_entry_result(d, params@[e]) && (!old(ctx).can_insert ==> param_ty_mirrors(reg_keys(old(ctx).types@), d, params@[e].1)),
                    MaybeRef::Reference(_) => false,
                } by {
                    if e < i - 1 {
                        assert(params@[e] == before_ins[e]);
                    }
                }
            }
        }
    }
    ctx.scope_end();
    proof {
        assert(ctx.scope@ =~= old(ctx).scope@);
        lemma_prefix_trans(old(ctx).types@, entered.types@, ctx.types@);
        lemma_prefix_trans(old(ctx).errors@, entered.errors@, ctx.errors@);
    }
    Option::Some(params)
}

/// The first `application/json` entry of a content map, when one is
/// there.
pub open spec fn json_media(content: Seq<(String, MediaTypeSrc)>) -> Option<MediaTypeSrc>
    decreases content.len(),
{
    if content.len() == 0 {
        Option::None
    } else if content[0].0@ == "application/json"@ {
        Option::Some(content[0].1)
    } else {
        json_media(content.drop_first())
    }
}

/// Looks up the first `application/json` entry of a content map.
fn json_content<'x>(content: &'x Vec<(String, MediaTypeSrc)>) -> (r: Option<&'x MediaTypeSrc>)
    ensures
        match r {
            Option::Some(m) => json_media(content@) == Option::Some(*m),
            Option::None => json_media(content@) is None,
        },
{
    let n = content.len();
    let mut i: usize = 0;
    proof {
        assert(content@.skip(0) =~= content@);
    }
    while i < n
        invariant
            n == content@.len(),
            i <= n,
            json_media(content@) == json_media(content@.skip(i as int)),
        decreases n - i,
    {
        proof {
            assert(content@.skip(i as int)[0] == content@[i as int]);
            assert(content@.skip(i as int).drop_first() =~= content@.skip(i + 1));
        }
        if crate::util::str_eq(content[i].0.as_str(), "application/json") {
            return Option::Some(&content[i].1);
        }
        i = i + 1;
    }
    proof {
        assert(content@.skip(n as int) =~= Seq::<(String, MediaTypeSrc)>::empty());
    }
    Option::None
}

/// A content entry that request extraction can never refuse: a recognized
/// content type carrying an inline leaf schema.
pub open spec fn media_leaf(entry: (String, MediaTypeSrc)) -> bool {
    (exists|m: ast::MimeType| entry.0@ == ast::mime_name(m)) && (match entry.1.schema {
        Option::Some(SchemaOrRef::Item(s)) => leaf_shape(&s.kind) is Some,
        _ => false,
    })
}

/// Extracts the request bodies of one operation: one entry per declared
/// content type, in declaration order. An unrecognized content-type
/// string is recorded and that single entry skipped, the others
/// unaffected; an entry without a schema, or whose schema fails to
/// resolve, is skipped on its own diagnostics. A referenced body is
/// recorded and yields nothing. Recognized leaf-typed entries always
/// extract, each with exactly its declared type.
#[verifier::loop_isolation(false)]
#[verifier::rlimit(100)]
pub fn op_parse_request<'a>(ctx: &mut Context<'a>, op: &Operation) -> (r: Vec<ast::RequestBody>)
    requires
        old(ctx).wf(),
    ensures
        ctx_preserved(old(ctx), final(ctx)),
        op.request_body is None ==> r@.len() == 0 && final(ctx).errors@ == old(ctx).errors@,
        op.request_body matches Option::Some(MaybeRef::Reference(_)) ==> r@.len() == 0 && final(ctx).errors@.len() == old(ctx).errors@.len() + 1 && final(ctx).errors@.last().kind@
            == ErrorKindShape::UnsupportedReference("request_body"@) && final(ctx).errors@.last().scope@ == old(ctx).scope@.push(Option::Some("requests"@)),
        match op.request_body {
            Option::Some(MaybeRef::Item(src)) => {
                &&& r@.len() <= src.content@.len()
                &&& (src.content@.len() == 0 ==> final(ctx).errors@ == old(ctx).errors@)
                &&& forall|k: int|
                    0 <= k < r@.len() ==> (#[trigger] r@[k]).headers@.len() == 0 && exists|e: int|
                        0 <= e < src.content@.len() && ast::mime_name(r@[k].mime_type)
                            == src.content@[e].0@
                &&& ((forall|e: int|
                    0 <= e < src.content@.len() ==> media_leaf(#[trigger] src.content@[e])) ==> (
                r@.len() == src.content@.len() && (forall|k: int|
                    0 <= k < r@.len() ==> ast::mime_name((#[trigger] r@[k]).mime_type)
                        == src.content@[k].0@ && (match src.content@[k].1.schema {
                        Option::Some(SchemaOrRef::Item(sch)) => match leaf_shape(&sch.kind) {
                            Option::Some(shape) => r@[k].ty@ == ast::ShapeRef::Type(
                                Box::new(shape),
                            ),
                            Option::None => true,
                        },
                        _ => true,
                    }))))
                &&& (forall|e: int|
                    #![trigger src.content@[e]]
                    0 <= e < src.content@.len() && (forall|m: ast::MimeType|
                        src.content@[e].0@ != ast::mime_name(m)) ==> exists|x: int|
                        old(ctx).errors@.len() <= x < final(ctx).errors@.len() && (
                        #[trigger] final(ctx).errors@[x]).kind@ == ErrorKindShape::InvalidValue(
                            "mime type"@,
                            src.content@[e].0@,
                        ) && final(ctx).errors@[x].scope@ == old(ctx).scope@.push(
                            Option::Some("requests"@),
                        ))
            },
            _ => true,
        },
{
    ctx.scope("requests".to_owned());
    let ghost entered = *ctx;
    proof {
        lemma_prefix_refl(entered.types@);
        lemma_prefix_refl(entered.errors@);
    }
    let body = match &op.request_body {
        Option::Some(body) => body,
        Option::None => {
            ctx.scope_end();
            proof {
                assert(ctx.scope@ =~= old(ctx).scope@);
                lemma_prefix_refl(ctx.types@);
                lemma_prefix_refl(ctx.errors@);
            }
            return Vec::new();
        },
    };
    let body = match body {
        MaybeRef::Item(body) => body,
        MaybeRef::Reference(_) => {
            ctx.error(Error::unsupported_ref("request_body"));
            ctx.scope_end();
            proof {
                assert(ctx.scope@ =~= old(ctx).scope@);
                lemma_prefix_refl(ctx.types@);
                lemma_prefix_trans(old(ctx).errors@, entered.errors@, ctx.errors@);
            }
            return Vec::new();
        },
    };
    let mut bodies: Vec<ast::RequestBody> = Vec::new();
    let n = body.content.len();
    let mut i: usize = 0;
    while i < n
        invariant
            i <= n,
            ctx_preserved(&entered, ctx),
            bodies@.len() <= i,
            i == 0 ==> ctx.errors@ == entered.errors@,
            forall|k: int|
                0 <= k < bodies@.len() ==> (#[trigger] bodies@[k]).headers@.len() == 0 && exists|
                    e: int,
                |
                    0 <= e < i && ast::mime_name(bodies@[k].mime_type) == body.content@[e].0@,
            (forall|e: int| 0 <= e < n ==> media_leaf(#[trigger] body.content@[e])) ==> (
            bodies@.len() == i && (forall|k: int|
                0 <= k < bodies@.len() ==> ast::mime_name((#[trigger] bodies@[k]).mime_type)
                    == body.content@[k].0@ && (match body.content@[k].1.schema {
                    Option::Some(SchemaOrRef::Item(sch)) => match leaf_shape(&sch.kind) {
                        Option::Some(shape) => bodies@[k].ty@ == ast::ShapeRef::Type(
                            Box::new(shape),
                        ),
                        Option::None => true,
                    },
                    _ => true,
                }))),
            forall|e: int|
                #![trigger body.content@[e]]
                0 <= e < i && (forall|m: ast::MimeType| body.content@[e].0@ != ast::mime_name(m))
                    ==> exists|x: int|
                    old(ctx).errors@.len() <= x < ctx.errors@.len() && (#[trigger] ctx.errors@[x]).kind@
                        == ErrorKindShape::InvalidValue("mime type"@, body.content@[e].0@)
                        && ctx.errors@[x].scope@ == old(ctx).scope@.push(
                        Option::Some("requests"@),
                    ),
        decreases n - i,
    {
        let mime_str = &body.content[i].0;
        match ast::MimeType::from_name(mime_str.as_str()) {
            Option::Some(mime) => {
                match &body.content[i].1.schema {
                    Option::Some(schema) => {
                        match resolve_type(ctx, Option::None, schema) {
                            Option::Some(ty) => {
                                let entry = ast::RequestBody {
                                    mime_type: mime,
                                    headers: Vec::new(),
                                    ty,
                                };
                                let ghost snapshot = entry;
                                let ghost pprev = bodies@;
                                bodies.push(entry);
                                proof {
                                    assert(bodies@.last() == snapshot);
                                    assert(forall|k: int|
                                        0 <= k < pprev.len() ==> bodies@[k] == pprev[k]);
                                }
                            },
                            Option::None => {
                                proof {
                                    if media_leaf(body.content@[i as int]) {
                                        assert(false);
                                    }
                                }
                            },
                        }
                    },
                    Option::None => {
                        proof {
                            if media_leaf(body.content@[i as int]) {
                                assert(false);
                            }
                        }
                    },
                }
            },
            Option::None => {
                let ghost pre_err = *ctx;
                ctx.error(Error::invalid_value("mime type", mime_str.clone()));
                proof {
                    if media_leaf(body.content@[i as int]) {
                        assert(false);
                    }
                    assert(pre_err.errors@ =~= ctx.errors@.subrange(
                        0,
                        pre_err.errors@.len() as int,
                    ));
                    assert(ctx.errors@.last().kind@ == ErrorKindShape::InvalidValue(
                        "mime type"@,
                        body.content@[i as int].0@,
                    ));
                }
            },
        }
        i = i + 1;
        proof {
            assert forall|e: int|
                #![trigger body.content@[e]]
                0 <= e < i && (forall|m: ast::MimeType| body.content@[e].0@ != ast::mime_name(m))
                    implies exists|x: int|
                old(ctx).errors@.len() <= x < ctx.errors@.len() && (#[trigger] ctx.errors@[x]).kind@
                    == ErrorKindShape::InvalidValue("mime type"@, body.content@[e].0@)
                    && ctx.errors@[x].scope@ == old(ctx).scope@.push(Option::Some("requests"@)) by {
                if e == i - 1 {
                    assert(ctx.errors@[ctx.errors@.len() - 1].kind@
                        == ErrorKindShape::InvalidValue("mime type"@, body.content@[e].0@));
                }
            }
        }
    }
    ctx.scope_end();
    proof {
        assert(ctx.scope@ =~= old(ctx).scope@);
        lemma_prefix_trans(old(ctx).types@, entered.types@, ctx.types@);
        lemma_prefix_trans(old(ctx).errors@, entered.errors@, ctx.errors@);
    }
    bodies
}

/// Extracts a literal status code; a code range is unsupported and
/// recorded, discarding only that entry.
pub fn parse_code<'a>(ctx: &mut Context<'a>, code: &StatusCodeSrc) -> (r: Option<ast::Code>)
    requires
        old(ctx).wf(),
    ensures
        ctx_preserved(old(ctx), final(ctx)),
        final(ctx).types@ == old(ctx).types@,
        match code {
            StatusCodeSrc::Code(v) => r matches Option::Some(c) && c == ast::Code(*v as u64)
                && final(ctx).errors@ == old(ctx).errors@,
            StatusCodeSrc::Range(_) => r is None && final(ctx).errors@.len() == old(ctx).errors@.len() + 1 && final(ctx).errors@.last().kind@ == ErrorKindShape::Unsupported(
                "status code range"@,
            ) && final(ctx).errors@.last().scope@ == old(ctx).scope@,
        },
{
    proof {
        lemma_prefix_refl(ctx.types@);
        lemma_prefix_refl(ctx.errors@);
    }
    match code {
        StatusCodeSrc::Code(v) => Option::Some(ast::Code(*v as u64)),
        StatusCodeSrc::Range(_) => {
            ctx.error(Error::unsupported("status code range"));
            Option::None
        },
    }
}

/// What one surviving response carries for its source: its body comes
/// from the first `application/json` entry — absent without one or
/// without a schema there, and exactly the declared type for an inline
/// leaf schema.
pub open spec fn response_result(src: ResponseSrc, resp: ast::Response) -> bool {
    match json_media(src.content@) {
        Option::Some(m) => {
            &&& (m.schema is None ==> resp.body is None)
            &&& (match m.schema {
                Option::Some(SchemaOrRef::Item(s)) => match leaf_shape(&s.kind) {
                    Option::Some(shape) => resp.body matches Option::Some(tr) && tr@
                        == ast::ShapeRef::Type(Box::new(shape)),
                    Option::None => true,
                },
                _ => true,
            })
        },
        Option::None => resp.body is None,
    }
}

/// What one surviving response carries against the registered names: its
/// body is exactly the resolution of the first `application/json` entry's
/// schema — absent when there is no such entry or schema, or when that
/// resolution fails.
pub open spec fn response_result_in(
    keys: Seq<Seq<char>>,
    src: ResponseSrc,
    resp: ast::Response,
) -> bool {
    match json_media(src.content@) {
        Option::Some(m) => match m.schema {
            Option::Some(s) => match resolve_shape(keys, s) {
                Option::Some(sh) => resp.body matches Option::Some(tr) && tr@ == sh,
                Option::None => resp.body is None,
            },
            Option::None => resp.body is None,
        },
        Option::None => resp.body is None,
    }
}

/// Extracts one response. Its body is taken only from its first
/// `application/json` content entry; a response whose non-empty content
/// map has no such entry still exists, without a typed body, beside one
/// generic diagnostic. A response without content yields nothing.
pub fn parse_response<'a>(ctx: &mut Context<'a>, res: &ResponseSrc) -> (r: Option<ast::Response>)
    requires
        old(ctx).wf(),
    ensures
        ctx_preserved(old(ctx), final(ctx)),
        r is Some <==> res.content@.len() > 0,
        r matches Option::Some(resp) ==> response_result(*res, resp),
        !old(ctx).can_insert ==> (r matches Option::Some(resp) ==> response_result_in(
            reg_keys(old(ctx).types@),
            *res,
            resp,
        )),
        match json_media(res.content@) {
            Option::Some(m) => m.schema is None ==> final(ctx).errors@ == old(ctx).errors@,
            Option::None => {
                &&& (res.content@.len() > 0 ==> final(ctx).errors@.len() == old(ctx).errors@.len()
                    + 1 && final(ctx).errors@.last().kind@ == ErrorKindShape::Generic(
                    "only `application/json` mime-type is supported"@,
                ) && final(ctx).errors@.last().scope@ == old(ctx).scope@)
                &&& (res.content@.len() == 0 ==> final(ctx).errors@ == old(ctx).errors@)
            },
        },
{
    proof {
        lemma_prefix_refl(ctx.types@);
        lemma_prefix_refl(ctx.errors@);
    }
    let entry = match json_content(&res.content) {
        Option::Some(entry) => entry,
        Option::None => {
            if res.content.len() > 0 {
                ctx.error(Error::generic("only `application/json` mime-type is supported"));
                return Option::Some(ast::Response { body: Option::None });
            }
            return Option::None;
        },
    };
    let body = match &entry.schema {
        Option::Some(schema) => resolve_type(ctx, Option::None, schema),
        Option::None => Option::None,
    };
    Option::Some(ast::Response { body })
}

/// The literal status codes of the response entries that survive
/// extraction: inline entries with a literal code and any declared
/// content, in declaration order.
pub open spec fn kept_codes(rs: Seq<(StatusCodeSrc, MaybeRef<ResponseSrc>)>) -> Seq<u64>
    decreases rs.len(),
{
    if rs.len() == 0 {
        Seq::empty()
    } else {
        kept_codes(rs.drop_last()) + (match rs.last() {
            (StatusCodeSrc::Code(v), MaybeRef::Item(res)) => {
                if res.content@.len() > 0 {
                    seq![v as u64]
                } else {
                    Seq::empty()
                }
            },
            _ => Seq::empty(),
        })
    }
}

/// The status codes of extracted responses, in order.
pub open spec fn codes_of(specific: Seq<(ast::Code, ast::Response)>) -> Seq<u64> {
    specific.map_values(|p: (ast::Code, ast::Response)| p.0.0)
}

/// The source responses of the surviving entries, in declaration order.
pub open spec fn kept_sources(rs: Seq<(StatusCodeSrc, MaybeRef<ResponseSrc>)>) -> Seq<ResponseSrc>
    decreases rs.len(),
{
    if rs.len() == 0 {
        Seq::empty()
    } else {
        kept_sources(rs.drop_last()) + (match rs.last() {
            (StatusCodeSrc::Code(v), MaybeRef::Item(res)) => {
                if res.content@.len() > 0 {
                    seq![res]
                } else {
                    Seq::empty()
                }
            },
            _ => Seq::empty(),
        })
    }
}

/// Extracts one (status code, response) pair: an inline response with a
/// literal code and any declared content survives; a code range is
/// dropped with one `unsupported` diagnostic, a response without content
/// silently.
fn parse_coded_response<'a>(ctx: &mut Context<'a>, code: &StatusCodeSrc, res: &ResponseSrc) -> (r:
    Option<(ast::Code, ast::Response)>)
    requires
        old(ctx).wf(),
    ensures
        ctx_preserved(old(ctx), final(ctx)),
        match code {
            StatusCodeSrc::Code(v) => {
                &&& (r is Some <==> res.content@.len() > 0)
                &&& (r matches Option::Some(p) ==> p.0 == ast::Code(*v as u64)
                    && response_result(*res, p.1))
                &&& (!old(ctx).can_insert ==> (r matches Option::Some(p) ==> response_result_in(
                    reg_keys(old(ctx).types@),
                    *res,
                    p.1,
                )))
            },
            StatusCodeSrc::Range(_) => r is None && final(ctx).errors@.len() == old(ctx).errors@.len() + 1 && final(ctx).errors@.last().kind@ == ErrorKindShape::Unsupported(
                "status code range"@,
            ) && final(ctx).errors@.last().scope@ == old(ctx).scope@,
        },
{
    let ghost s0 = *ctx;
    let c = match parse_code(ctx, code) {
        Option::Some(c) => c,
        Option::None => {
            return Option::None;
        },
    };
    let ghost s1 = *ctx;
    let mut segment = "Code(".to_owned();
    let num = crate::util::u64_string(c.0);
    segment.append(num.as_str());
    segment.append(")");
    ctx.scope(segment);
    let ghost s2 = *ctx;
    let parsed = parse_response(ctx, res);
    ctx.scope_end();
    proof {
        assert(ctx.scope@ =~= s1.scope@);
        lemma_prefix_trans(s0.types@, s2.types@, ctx.types@);
        lemma_prefix_trans(s0.errors@, s2.errors@, ctx.errors@);
    }
    match parsed {
        Option::Some(resp) => Option::Some((c, resp)),
        Option::None => Option::None,
    }
}

/// Extracts the responses of one operation: the default when it is inline
/// and typed, and one entry per surviving literal status code. A range
/// entry is dropped with an `unsupported` diagnostic while its literal
/// siblings are still extracted.
#[verifier::loop_isolation(false)]
#[verifier::rlimit(100)]
pub fn op_parse_responses<'a>(ctx: &mut Context<'a>, op: &Operation) -> (r: ast::Responses)
    requires
        old(ctx).wf(),
    ensures
        ctx_preserved(old(ctx), final(ctx)),
        codes_of(r.specific@) == kept_codes(op.responses.responses@),
        r.specific@.len() == kept_sources(op.responses.responses@).len(),
        forall|k: int|
            0 <= k < r.specific@.len() ==> response_result(
                kept_sources(op.responses.responses@)[k],
                (#[trigger] r.specific@[k]).1,
            ),
        !old(ctx).can_insert ==> forall|k: int|
            0 <= k < r.specific@.len() ==> response_result_in(
                reg_keys(old(ctx).types@),
                kept_sources(op.responses.responses@)[k],
                (#[trigger] r.specific@[k]).1,
            ),
        !old(ctx).can_insert ==> (r.default matches Option::Some(resp) ==> (match
            op.responses.default {
            Option::Some(MaybeRef::Item(res)) => response_result_in(
                reg_keys(old(ctx).types@),
                res,
                resp,
            ),
            _ => true,
        })),
        r.default is Some <==> (match op.responses.default {
            Option::Some(MaybeRef::Item(res)) => res.content@.len() > 0,
            _ => false,
        }),
        op.responses.default matches Option::Some(MaybeRef::Reference(_)) ==> final(ctx).errors@.len() > old(ctx).errors@.len() && final(ctx).errors@[old(ctx).errors@.len() as int].kind@ == ErrorKindShape::UnsupportedReference("default"@) && final(ctx).errors@[old(ctx).errors@.len() as int].scope@ == old(ctx).scope@.push(
            Option::Some("responses"@),
        ),
        forall|e: int|
            #![trigger op.responses.responses@[e]]
            0 <= e < op.responses.responses@.len() && (match op.responses.responses@[e] {
                (StatusCodeSrc::Range(_), MaybeRef::Item(_)) => true,
                _ => false,
            }) ==> exists|x: int|
                old(ctx).errors@.len() <= x < final(ctx).errors@.len() && (#[trigger] final(ctx).errors@[x]).kind@ == ErrorKindShape::Unsupported("status code range"@) && final(ctx).errors@[x].scope@ == old(ctx).scope@.push(Option::Some("responses"@)),
        forall|e: int|
            #![trigger op.responses.responses@[e]]
            0 <= e < op.responses.responses@.len() && (match op.responses.responses@[e] {
                (_, MaybeRef::Reference(_)) => true,
                _ => false,
            }) ==> exists|x: int|
                old(ctx).errors@.len() <= x < final(ctx).errors@.len() && (#[trigger] final(ctx).errors@[x]).kind@ == ErrorKindShape::UnsupportedReference("by_code"@) && final(ctx).errors@[x].scope@ == old(ctx).scope@.push(Option::Some("responses"@)),
{
    ctx.scope("responses".to_owned());
    let ghost entered = *ctx;
    proof {
        lemma_prefix_refl(entered.types@);
        lemma_prefix_refl(entered.errors@);
    }
    let default = match &op.responses.default {
        Option::Some(MaybeRef::Item(res)) => parse_response(ctx, res),
        Option::Some(MaybeRef::Reference(_)) => {
            ctx.error(Error::unsupported_ref("default"));
            Option::None
        },
        Option::None => Option::None,
    };
    let ghost post_default = *ctx;
    proof {
        assert(ctx_preserved(&entered, &post_default));
        if op.responses.default matches Option::Some(MaybeRef::Reference(_)) {
            assert(post_default.errors@.len() == old(ctx).errors@.len() + 1);
            assert(post_default.errors@.last().kind@ == ErrorKindShape::UnsupportedReference(
                "default"@,
            ));
        }
    }
    let mut specific: Vec<(ast::Code, ast::Response)> = Vec::new();
    let n = op.responses.responses.len();
    let mut i: usize = 0;
    proof {
        assert(codes_of(specific@) =~= kept_codes(op.responses.responses@.take(0)));
    }
    while i < n
        invariant
            i <= n,
            ctx_preserved(&post_default, ctx),
            old(ctx).errors@.len() <= post_default.errors@.len(),
            post_default.scope@ == old(ctx).scope@.push(Option::Some("responses"@)),
            codes_of(specific@) == kept_codes(op.responses.responses@.take(i as int)),
            specific@.len() == kept_sources(op.responses.responses@.take(i as int)).len(),
            forall|k: int|
                0 <= k < specific@.len() ==> response_result(
                    kept_sources(op.responses.responses@.take(i as int))[k],
                    (#[trigger] specific@[k]).1,
                ),
            !old(ctx).can_insert ==> forall|k: int|
                0 <= k < specific@.len() ==> response_result_in(
                    reg_keys(old(ctx).types@),
                    kept_sources(op.responses.responses@.take(i as int))[k],
                    (#[trigger] specific@[k]).1,
                ),
            forall|e: int|
                #![trigger op.responses.responses@[e]]
                0 <= e < i && (match op.responses.responses@[e] {
                    (StatusCodeSrc::Range(_), MaybeRef::Item(_)) => true,
                    _ => false,
                }) ==> exists|x: int|
                    old(ctx).errors@.len() <= x < ctx.errors@.len() && (#[trigger] ctx.errors@[x]).kind@
                        == ErrorKindShape::Unsupported("status code range"@) && ctx.errors@[x].scope@
                        == post_default.scope@,
            forall|e: int|
                #![trigger op.responses.responses@[e]]
                0 <= e < i && (match op.responses.responses@[e] {
                    (_, MaybeRef::Reference(_)) => true,
                    _ => false,
                }) ==> exists|x: int|
                    old(ctx).errors@.len() <= x < ctx.errors@.len() && (#[trigger] ctx.errors@[x]).kind@
                        == ErrorKindShape::UnsupportedReference("by_code"@) && ctx.errors@[x].scope@
                        == post_default.scope@,
        decreases n - i,
    {
        let ghost pre = op.responses.responses@.take(i as int);
        let ghost it0 = *ctx;
        match &op.responses.responses[i] {
            (code, MaybeRef::Item(res)) => {
                match parse_coded_response(ctx, code, res) {
                    Option::Some(entry) => {
                        specific.push(entry);
                    },
                    Option::None => {},
                }
            },
            (_, MaybeRef::Reference(_)) => {
                ctx.error(Error::unsupported_ref("by_code"));
            },
        }
        i = i + 1;
        proof {
            lemma_preserved_trans(&post_default, &it0, ctx);
            let cur = op.responses.responses@.take(i as int);
            assert(cur.drop_last() =~= pre);
            assert(cur.last() == op.responses.responses@[i - 1]);
            assert(codes_of(specific@) =~= kept_codes(cur));
            assert(kept_sources(cur).drop_last() =~= kept_sources(pre) || kept_sources(cur)
                =~= kept_sources(pre));
            assert(it0.errors@ =~= ctx.errors@.subrange(0, it0.errors@.len() as int));
            assert forall|e: int|
                #![trigger op.responses.responses@[e]]
                0 <= e < i && (match op.responses.responses@[e] {
                (StatusCodeSrc::Range(_), MaybeRef::Item(_)) => true,
                _ => false,
            }) implies exists|x: int|
                old(ctx).errors@.len() <= x < ctx.errors@.len() && (#[trigger] ctx.errors@[x]).kind@
                    == ErrorKindShape::Unsupported("status code range"@) && ctx.errors@[x].scope@
                    == post_default.scope@ by {
                if e < i - 1 {
                    let x = choose|x: int|
                        old(ctx).errors@.len() <= x < it0.errors@.len() && (#[trigger] it0.errors@[x]).kind@
                            == ErrorKindShape::Unsupported("status code range"@)
                            && it0.errors@[x].scope@ == post_default.scope@;
                    assert(ctx.errors@[x] == it0.errors@[x]);
                } else {
                    assert(ctx.errors@[ctx.errors@.len() - 1].kind@
                        == ErrorKindShape::Unsupported("status code range"@));
                }
            }
            assert forall|e: int|
                #![trigger op.responses.responses@[e]]
                0 <= e < i && (match op.responses.responses@[e] {
                (_, MaybeRef::Reference(_)) => true,
                _ => false,
            }) implies exists|x: int|
                old(ctx).errors@.len() <= x < ctx.errors@.len() && (#[trigger] ctx.errors@[x]).kind@
                    == ErrorKindShape::UnsupportedReference("by_code"@) && ctx.errors@[x].scope@
                    == post_default.scope@ by {
                if e < i - 1 {
                    let x = choose|x: int|
                        old(ctx).errors@.len() <= x < it0.errors@.len() && (#[trigger] it0.errors@[x]).kind@
                            == ErrorKindShape::UnsupportedReference("by_code"@)
                            && it0.errors@[x].scope@ == post_default.scope@;
                    assert(ctx.errors@[x] == it0.errors@[x]);
                } else {
                    assert(ctx.errors@[ctx.errors@.len() - 1].kind@
                        == ErrorKindShape::UnsupportedReference("by_code"@));
                }
            }
        }
    }
    proof {
        assert(op.responses.responses@.take(n as int) =~= op.responses.responses@);
        lemma_preserved_trans(&entered, &post_default, ctx);
        if op.responses.default matches Option::Some(MaybeRef::Reference(_)) {
            let idx = old(ctx).errors@.len() as int;
            assert(post_default.errors@ =~= ctx.errors@.subrange(
                0,
                post_default.errors@.len() as int,
            ));
            assert(ctx.errors@[idx] == post_default.errors@[idx]);
        }
    }
    ctx.scope_end();
    proof {
        assert(ctx.scope@ =~= old(ctx).scope@);
        lemma_prefix_trans(old(ctx).types@, entered.types@, ctx.types@);
        lemma_prefix_trans(old(ctx).errors@, entered.errors@, ctx.errors@);
    }
    ast::Responses { default, specific }
}

// ---------------------------------------------------------------------------
// The security resolver
// ---------------------------------------------------------------------------

/// The first scheme name of one requirement set that the registry knows.
pub open spec fn req_first(reg: ast::SecuritySchemes, names: Seq<(String, Vec<String>)>) -> Option<
    Seq<char>,
>
    decreases names.len(),
{
    if names.len() == 0 {
        Option::None
    } else if reg.spec_contains_key(names[0].0@) {
        Option::Some(names[0].0@)
    } else {
        req_first(reg, names.drop_first())
    }
}

/// The first scheme name that exists in the registry, scanning the
/// alternative requirement sets in declaration order.
pub open spec fn reqs_first(reg: ast::SecuritySchemes, reqs: Seq<SecurityRequirement>) -> Option<
    Seq<char>,
>
    decreases reqs.len(),
{
    if reqs.len() == 0 {
        Option::None
    } else {
        match req_first(reg, reqs[0]@) {
            Option::Some(n) => Option::Some(n),
            Option::None => reqs_first(reg, reqs.drop_first()),
        }
    }
}

/// Whether a scheme-registry model holds an entry keyed `n`.
pub open spec fn entries_have(entries: Seq<(Seq<char>, Seq<char>, Seq<char>)>, n: Seq<char>) -> bool {
    exists|i: int| 0 <= i < entries.len() && entries[i].0 == n
}

/// The (name, header key) of the registry-model entry keyed `n`.
pub open spec fn entry_scheme(entries: Seq<(Seq<char>, Seq<char>, Seq<char>)>, n: Seq<char>) -> (
    Seq<char>,
    Seq<char>,
) {
    let i = choose|i: int| 0 <= i < entries.len() && entries[i].0 == n;
    (entries[i].1, entries[i].2)
}

/// The first scheme name of one requirement set that the registry model
/// knows.
pub open spec fn req_first_in(
    entries: Seq<(Seq<char>, Seq<char>, Seq<char>)>,
    names: Seq<(String, Vec<String>)>,
) -> Option<Seq<char>>
    decreases names.len(),
{
    if names.len() == 0 {
        Option::None
    } else if entries_have(entries, names[0].0@) {
        Option::Some(names[0].0@)
    } else {
        req_first_in(entries, names.drop_first())
    }
}

/// The first scheme name that exists in the registry model, scanning the
/// alternative requirement sets in declaration order.
pub open spec fn reqs_first_in(
    entries: Seq<(Seq<char>, Seq<char>, Seq<char>)>,
    reqs: Seq<SecurityRequirement>,
) -> Option<Seq<char>>
    decreases reqs.len(),
{
    if reqs.len() == 0 {
        Option::None
    } else {
        match req_first_in(entries, reqs[0]@) {
            Option::Some(n) => Option::Some(n),
            Option::None => reqs_first_in(entries, reqs.drop_first()),
        }
    }
}

/// A registry and its entry model agree on membership, and on the looked-up
/// scheme when the keys are distinct.
pub proof fn lemma_entries_lookup(reg: &ast::SecuritySchemes, n: Seq<char>)
    requires
        reg.wf(),
    ensures
        reg.spec_contains_key(n) == entries_have(sec_entries(reg@), n),
        reg.spec_contains_key(n) ==> entry_scheme(sec_entries(reg@), n) == (
            reg.spec_get(n).name@,
            reg.spec_get(n).key@,
        ),
{
    let entries = sec_entries(reg@);
    if reg.spec_contains_key(n) {
        let i = reg.key_index(n);
        assert(entries[i].0 == n);
        assert(entries_have(entries, n));
        let j = choose|j: int| 0 <= j < entries.len() && entries[j].0 == n;
        assert(reg@[j].0 == n);
        reg.lemma_key_unique(n, i, j);
    }
    if entries_have(entries, n) {
        let j = choose|j: int| 0 <= j < entries.len() && entries[j].0 == n;
        assert(reg@[j].0 == n);
    }
}

/// The registry-level and model-level scans of one requirement set agree.
pub proof fn lemma_req_first_in(reg: &ast::SecuritySchemes, names: Seq<(String, Vec<String>)>)
    requires
        reg.wf(),
    ensures
        req_first(*reg, names) == req_first_in(sec_entries(reg@), names),
    decreases names.len(),
{
    if names.len() > 0 {
        lemma_entries_lookup(reg, names[0].0@);
        lemma_req_first_in(reg, names.drop_first());
    }
}

/// The registry-level and model-level scans of a requirement list agree.
pub proof fn lemma_reqs_first_in(reg: &ast::SecuritySchemes, reqs: Seq<SecurityRequirement>)
    requires
        reg.wf(),
    ensures
        reqs_first(*reg, reqs) == reqs_first_in(sec_entries(reg@), reqs),
    decreases reqs.len(),
{
    if reqs.len() > 0 {
        lemma_req_first_in(reg, reqs[0]@);
        lemma_reqs_first_in(reg, reqs.drop_first());
    }
}

/// The scheme names one requirement set scans past before a registered
/// one: all of them when none is registered.
pub open spec fn missed_in_req(reg: ast::SecuritySchemes, names: Seq<(String, Vec<String>)>) -> Seq<
    Seq<char>,
>
    decreases names.len(),
{
    if names.len() == 0 {
        Seq::empty()
    } else if reg.spec_contains_key(names[0].0@) {
        Seq::empty()
    } else {
        seq![names[0].0@] + missed_in_req(reg, names.drop_first())
    }
}

/// The unknown scheme names a whole scan records: those walked past before
/// the first registered one.
pub open spec fn missed_in_reqs(reg: ast::SecuritySchemes, reqs: Seq<SecurityRequirement>) -> Seq<
    Seq<char>,
>
    decreases reqs.len(),
{
    if reqs.len() == 0 {
        Seq::empty()
    } else {
        match req_first(reg, reqs[0]@) {
            Option::Some(_) => missed_in_req(reg, reqs[0]@),
            Option::None => missed_in_req(reg, reqs[0]@) + missed_in_reqs(reg, reqs.drop_first()),
        }
    }
}

/// Resolves a requirement list to a single effective scheme: the first
/// scheme name that exists in the registry wins, scanning alternatives in
/// declaration order; every unknown name met on the way is recorded.
#[verifier::loop_isolation(false)]
#[verifier::rlimit(100)]
pub fn parse_security<'a>(ctx: &mut Context<'a>, security: &Vec<SecurityRequirement>) -> (r:
    Option<ast::Security>)
    requires
        old(ctx).wf(),
    ensures
        ctx_preserved(old(ctx), final(ctx)),
        final(ctx).types@ == old(ctx).types@,
        match reqs_first(old(ctx).security, security@) {
            Option::Some(n) => r matches Option::Some(s) && old(ctx).security.spec_contains_key(n)
                && s.name@ == old(ctx).security.spec_get(n).name@ && s.key@ == old(ctx).security.spec_get(n).key@,
            Option::None => r is None,
        },
        final(ctx).errors@.len() == old(ctx).errors@.len() + missed_in_reqs(
            old(ctx).security,
            security@,
        ).len(),
        forall|x: int|
            0 <= x < missed_in_reqs(old(ctx).security, security@).len() ==> (#[trigger] final(ctx).errors@[old(ctx).errors@.len() + x]).kind@ == ErrorKindShape::Generic(
                "unknown security schema "@ + missed_in_reqs(old(ctx).security, security@)[x],
            ) && final(ctx).errors@[old(ctx).errors@.len() + x].scope@ == old(ctx).scope@,
{
    proof {
        lemma_prefix_refl(old(ctx).types@);
        lemma_prefix_refl(old(ctx).errors@);
        assert(security@.skip(0) =~= security@);
    }
    let ghost reg = old(ctx).security;
    let ghost mut done: Seq<Seq<char>> = Seq::empty();
    let n = security.len();
    let mut i: usize = 0;
    proof {
        assert(done + missed_in_reqs(reg, security@.skip(0)) =~= missed_in_reqs(reg, security@));
    }
    while i < n
        invariant
            i <= n,
            ctx_preserved(old(ctx), ctx),
            ctx.types@ == old(ctx).types@,
            reqs_first(old(ctx).security, security@) == reqs_first(
                old(ctx).security,
                security@.skip(i as int),
            ),
            missed_in_reqs(reg, security@) == done + missed_in_reqs(
                reg,
                security@.skip(i as int),
            ),
            ctx.errors@.len() == old(ctx).errors@.len() + done.len(),
            forall|x: int|
                0 <= x < done.len() ==> (#[trigger] ctx.errors@[old(ctx).errors@.len() + x]).kind@
                    == ErrorKindShape::Generic("unknown security schema "@ + done[x])
                    && ctx.errors@[old(ctx).errors@.len() + x].scope@ == old(ctx).scope@,
        decreases n - i,
    {
        let names = &security[i];
        let m = names.len();
        let mut j: usize = 0;
        proof {
            assert(names@.skip(0) =~= names@);
            assert(security@.skip(i as int)[0] == security@[i as int]);
            assert(security@.skip(i as int).drop_first() =~= security@.skip(i + 1));
        }
        while j < m
            invariant
                j <= m,
                m == names@.len(),
                ctx_preserved(old(ctx), ctx),
                ctx.types@ == old(ctx).types@,
                req_first(old(ctx).security, names@) == req_first(
                    old(ctx).security,
                    names@.skip(j as int),
                ),
                match req_first(reg, names@) {
                    Option::Some(_) => missed_in_reqs(reg, security@) == done + missed_in_req(
                        reg,
                        names@.skip(j as int),
                    ),
                    Option::None => missed_in_reqs(reg, security@) == done + (missed_in_req(
                        reg,
                        names@.skip(j as int),
                    ) + missed_in_reqs(reg, security@.skip(i + 1))),
                },
                ctx.errors@.len() == old(ctx).errors@.len() + done.len(),
                forall|x: int|
                    0 <= x < done.len() ==> (#[trigger] ctx.errors@[old(ctx).errors@.len()
                        + x]).kind@ == ErrorKindShape::Generic(
                        "unknown security schema "@ + done[x],
                    ) && ctx.errors@[old(ctx).errors@.len() + x].scope@ == old(ctx).scope@,
            decreases m - j,
        {
            let name = &names[j].0;
            proof {
                assert(names@.skip(j as int)[0] == names@[j as int]);
                assert(names@.skip(j as int).drop_first() =~= names@.skip(j + 1));
            }
            match ctx.security.get(name) {
                Option::Some(scheme) => {
                    let found = scheme.clone();
                    proof {
                        assert(req_first(old(ctx).security, names@) == Option::Some(name@));
                        assert(reqs_first(old(ctx).security, security@) == Option::Some(name@));
                        assert(missed_in_req(reg, names@.skip(j as int)) =~= Seq::<
                            Seq<char>,
                        >::empty());
                        assert(missed_in_reqs(reg, security@) =~= done);
                    }
                    return Option::Some(found);
                },
                Option::None => {
                    let mut msg = "unknown security schema ".to_owned();
                    msg.append(name.as_str());
                    proof {
                        assert(msg@ =~= "unknown security schema "@ + name@);
                    }
                    let ghost pre_err = *ctx;
                    ctx.error(ErrorKind::Generic(msg));
                    proof {
                        let ghost prev_done = done;
                        done = done.push(name@);
                        assert(pre_err.errors@ =~= ctx.errors@.subrange(
                            0,
                            pre_err.errors@.len() as int,
                        ));
                        assert forall|x: int|
                            0 <= x < done.len() implies (#[trigger] ctx.errors@[old(ctx).errors@.len() + x]).kind@ == ErrorKindShape::Generic(
                            "unknown security schema "@ + done[x],
                        ) && ctx.errors@[old(ctx).errors@.len() + x].scope@ == old(ctx).scope@ by {
                            if x < done.len() - 1 {
                                assert(ctx.errors@[old(ctx).errors@.len() + x] == pre_err.errors@[old(ctx).errors@.len() + x]);
                            } else {
                                assert(ctx.errors@[old(ctx).errors@.len() + x]
                                    == ctx.errors@.last());
                            }
                        }
                        assert(missed_in_req(reg, names@.skip(j as int)) =~= seq![name@]
                            + missed_in_req(reg, names@.skip(j + 1)));
                        assert(done + missed_in_req(reg, names@.skip(j + 1)) =~= prev_done
                            + missed_in_req(reg, names@.skip(j as int)));
                        assert(done + (missed_in_req(reg, names@.skip(j + 1)) + missed_in_reqs(
                            reg,
                            security@.skip(i + 1),
                        )) =~= prev_done + (missed_in_req(reg, names@.skip(j as int))
                            + missed_in_reqs(reg, security@.skip(i + 1))));
                    }
                },
            }
            j = j + 1;
        }
        proof {
            assert(names@.skip(m as int) =~= Seq::<(String, Vec<String>)>::empty());
            assert(missed_in_req(reg, names@.skip(m as int)) =~= Seq::<Seq<char>>::empty());
            assert(done + missed_in_reqs(reg, security@.skip(i + 1)) =~= missed_in_reqs(
                reg,
                security@,
            ));
        }
        i = i + 1;
    }
    proof {
        assert(security@.skip(n as int) =~= Seq::<SecurityRequirement>::empty());
        assert(missed_in_reqs(reg, security@) =~= done);
    }
    Option::None
}

/// The operation's own requirement list resolved to a scheme, when it has
/// one.
pub fn op_parse_security<'a>(ctx: &mut Context<'a>, op: &Operation) -> (r: Option<ast::Security>)
    requires
        old(ctx).wf(),
    ensures
        ctx_preserved(old(ctx), final(ctx)),
        final(ctx).types@ == old(ctx).types@,
        match op.security {
            Option::Some(security) => match reqs_first(old(ctx).security, security@) {
                Option::Some(n) => r matches Option::Some(s) && s.name@ == old(ctx).security.spec_get(n).name@ && s.key@ == old(ctx).security.spec_get(n).key@,
                Option::None => r is None,
            },
            Option::None => r is None,
        },
        match op.security {
            Option::Some(security) => final(ctx).errors@.len() == old(ctx).errors@.len()
                + missed_in_reqs(old(ctx).security, security@).len() && (forall|x: int|
                0 <= x < missed_in_reqs(old(ctx).security, security@).len() ==> (#[trigger] final(ctx).errors@[old(ctx).errors@.len() + x]).kind@ == ErrorKindShape::Generic(
                    "unknown security schema "@ + missed_in_reqs(old(ctx).security, security@)[x],
                ) && final(ctx).errors@[old(ctx).errors@.len() + x].scope@ == old(ctx).scope@.push(Option::Some("security"@))),
            Option::None => final(ctx).errors@ == old(ctx).errors@,
        },
{
    ctx.scope("security".to_owned());
    let ghost entered = *ctx;
    let r = match &op.security {
        Option::Some(security) => parse_security(ctx, security),
        Option::None => Option::None,
    };
    ctx.scope_end();
    proof {
        assert(ctx.scope@ =~= old(ctx).scope@);
        lemma_prefix_refl(entered.types@);
        lemma_prefix_refl(entered.errors@);
        lemma_prefix_trans(old(ctx).types@, entered.types@, ctx.types@);
        lemma_prefix_trans(old(ctx).errors@, entered.errors@, ctx.errors@);
    }
    r
}

// ---------------------------------------------------------------------------
// Routes
// ---------------------------------------------------------------------------

/// Assembles one route from an operation: name, endpoint, description,
/// parameters, request body, responses and attached security. A route that
/// cannot be named, or any parameter that cannot be extracted, drops the
/// whole route.
#[verifier::rlimit(100)]
pub fn parse_route<'a>(
    ctx: &mut Context<'a>,
    uri: &String,
    method: ast::Method,
    op: &Operation,
) -> (r: Option<ast::Route>)
    requires
        old(ctx).wf(),
    ensures
        ctx_preserved(old(ctx), final(ctx)),
        op.operation_id is None && op.summary is None ==> r is None,
        (exists|i: int| 0 <= i < op.parameters@.len() && !param_supported(&op.parameters@[i]))
            ==> r is None,
        (op.operation_id is Some || op.summary is Some) && (forall|i: int|
            0 <= i < op.parameters@.len() ==> param_leaf(&op.parameters@[i])) ==> r is Some,
        !old(ctx).can_insert ==> (r is Some <==> ((op.operation_id is Some || op.summary is Some)
            && params_extract(reg_keys(old(ctx).types@), op.parameters@))),
        match r {
            Option::Some(route) => {
                &&& route.endpoint@ == uri@
                &&& route.method == method
                &&& route.parameters.wf()
                &&& (match op.operation_id {
                    Option::Some(id) => route.name@ == id@,
                    Option::None => match op.summary {
                        Option::Some(s) => route.name@ == crate::util::camel_of(s@),
                        Option::None => false,
                    },
                })
                &&& (match op.description {
                    Option::Some(d) => route.description matches Option::Some(t) && t@
                        == crate::util::trim_of(d@),
                    Option::None => route.description is None,
                })
                &&& codes_of(route.responses.specific@) == kept_codes(op.responses.responses@)
                &&& route.responses.specific@.len() == kept_sources(
                    op.responses.responses@,
                ).len()
                &&& (forall|k: int|
                    0 <= k < route.responses.specific@.len() ==> response_result(
                        kept_sources(op.responses.responses@)[k],
                        (#[trigger] route.responses.specific@[k]).1,
                    ))
                &&& (match op.request_body {
                    Option::Some(MaybeRef::Item(src)) => route.request_body@.len()
                        <= src.content@.len(),
                    Option::Some(MaybeRef::Reference(_)) => route.request_body@.len() == 0,
                    Option::None => route.request_body@.len() == 0,
                })
                &&& (match op.security {
                    Option::Some(security) => match reqs_first(old(ctx).security, security@) {
                        Option::Some(sn) => route.security matches Option::Some(s) && s.name@
                            == old(ctx).security.spec_get(sn).name@ && s.key@ == old(ctx).security.spec_get(sn).key@,
                        Option::None => route.security is None,
                    },
                    Option::None => route.security is None,
                })
                &&& (!old(ctx).can_insert ==> (forall|e: int|
                    0 <= e < op.parameters@.len() ==> match #[trigger] op.parameters@[e] {
                        MaybeRef::Item(d) => route.parameters.spec_contains_key(d.name@),
                        MaybeRef::Reference(_) => false,
                    }))
            },
            Option::None => true,
        },
{
    let mut segment = method.as_str().to_owned();
    segment.append(" ");
    segment.append(uri.as_str());
    ctx.scope(segment);
    let ghost s0 = *ctx;
    let name = op_parse_name(ctx, op);
    let ghost s1 = *ctx;
    let endpoint = uri.clone();
    let description = op_parse_desc(op);
    let parameters = op_parse_params(ctx, op);
    let ghost s2 = *ctx;
    let request_body = op_parse_request(ctx, op);
    let ghost s3 = *ctx;
    let responses = op_parse_responses(ctx, op);
    let ghost s4 = *ctx;
    let security = op_parse_security(ctx, op);
    ctx.scope_end();
    proof {
        assert(ctx.scope@ =~= old(ctx).scope@);
        lemma_preserved_trans(&s0, &s1, &s2);
        lemma_preserved_trans(&s0, &s2, &s3);
        lemma_preserved_trans(&s0, &s3, &s4);
        lemma_prefix_trans(old(ctx).types@, s0.types@, ctx.types@);
        lemma_prefix_trans(old(ctx).errors@, s0.errors@, ctx.errors@);
    }
    let name = match name {
        Option::Some(n) => n,
        Option::None => {
            return Option::None;
        },
    };
    let parameters = match parameters {
        Option::Some(p) => p,
        Option::None => {
            return Option::None;
        },
    };
    Option::Some(
        ast::Route { name, endpoint, method, description, parameters, request_body, responses, security },
    )
}

// ---------------------------------------------------------------------------
// The two registry-building passes, and the whole document
// ---------------------------------------------------------------------------

/// Resolves every reusable schema declaration once, in declaration order,
/// filling the type registry.
fn parse_types<'a>(ctx: &mut Context<'a>)
    requires
        old(ctx).wf(),
    ensures
        ctx_preserved(old(ctx), final(ctx)),
        old(ctx).components is None ==> final(ctx).types@ == old(ctx).types@,
{
    proof {
        lemma_prefix_refl(old(ctx).types@);
        lemma_prefix_refl(old(ctx).errors@);
    }
    let components = match ctx.components {
        Option::Some(c) => c,
        Option::None => {
            return ;
        },
    };
    ctx.scope("components".to_owned());
    let ghost entered = *ctx;
    let n = components.schemas.len();
    let mut i: usize = 0;
    while i < n
        invariant
            i <= n,
            n == components.schemas@.len(),
            ctx.components == old(ctx).components,
            Option::Some(components) == old(ctx).components,
            ctx_preserved(&entered, ctx),
        decreases n - i,
    {
        let ghost it0 = *ctx;
        let _resolved = resolve_type(
            ctx,
            Option::Some(&components.schemas[i].0),
            &components.schemas[i].1,
        );
        i = i + 1;
        proof {
            lemma_preserved_trans(&entered, &it0, ctx);
        }
    }
    ctx.scope_end();
    proof {
        assert(ctx.scope@ =~= old(ctx).scope@);
        lemma_prefix_trans(old(ctx).types@, entered.types@, ctx.types@);
        lemma_prefix_trans(old(ctx).errors@, entered.errors@, ctx.errors@);
    }
}

/// The model of a security-scheme registry: each entry's key, scheme name
/// and wire header key.
pub open spec fn sec_entries(s: Seq<(Seq<char>, ast::Security)>) -> Seq<
    (Seq<char>, Seq<char>, Seq<char>),
> {
    s.map_values(|p: (Seq<char>, ast::Security)| (p.0, p.1.name@, p.1.key@))
}

/// The registry entries that the declared security schemes produce: one
/// per header-located API key, keyed and named by its declared name and
/// carrying its wire header, in declaration order.
pub open spec fn header_schemes(src: Seq<(String, MaybeRef<SecuritySchemeSrc>)>) -> Seq<
    (Seq<char>, Seq<char>, Seq<char>),
>
    decreases src.len(),
{
    if src.len() == 0 {
        Seq::empty()
    } else {
        header_schemes(src.drop_last()) + (match src.last().1 {
            MaybeRef::Item(scheme) => match scheme {
                SecuritySchemeSrc::ApiKey { location, name } => {
                    if location is Header {
                        seq![(src.last().0@, src.last().0@, name@)]
                    } else {
                        Seq::empty()
                    }
                },
                _ => Seq::empty(),
            },
            MaybeRef::Reference(_) => Seq::empty(),
        })
    }
}

/// The scheme-registry entries a document declares.
pub open spec fn doc_header_schemes(doc: &Document) -> Seq<(Seq<char>, Seq<char>, Seq<char>)> {
    match doc.components {
        Option::Some(c) => header_schemes(c.security_schemes@),
        Option::None => Seq::empty(),
    }
}

/// The diagnostic one scheme declaration records: none for a header API
/// key, the matching unsupported kind for everything else.
pub open spec fn scheme_err(entry: (String, MaybeRef<SecuritySchemeSrc>)) -> Option<
    ErrorKindShape,
> {
    match entry.1 {
        MaybeRef::Reference(_) => Option::Some(
            ErrorKindShape::UnsupportedReference("securitySchemes"@),
        ),
        MaybeRef::Item(scheme) => match scheme {
            SecuritySchemeSrc::ApiKey { location, name: _ } => match location {
                ApiKeyLocation::Header => Option::None,
                ApiKeyLocation::Query => Option::Some(
                    ErrorKindShape::Unsupported("Query API key authentication"@),
                ),
                ApiKeyLocation::Cookie => Option::Some(
                    ErrorKindShape::Unsupported("Cookie API key authentication"@),
                ),
            },
            SecuritySchemeSrc::Http => Option::Some(
                ErrorKindShape::Unsupported("HTTP authentication"@),
            ),
            SecuritySchemeSrc::OAuth2 => Option::Some(
                ErrorKindShape::Unsupported("OAuth2 authentication"@),
            ),
            SecuritySchemeSrc::OpenIdConnect => Option::Some(
                ErrorKindShape::Unsupported("OpenID authentication"@),
            ),
        },
    }
}

/// The diagnostics the scheme declarations record, in declaration order.
pub open spec fn scheme_errs(src: Seq<(String, MaybeRef<SecuritySchemeSrc>)>) -> Seq<
    ErrorKindShape,
>
    decreases src.len(),
{
    if src.len() == 0 {
        Seq::empty()
    } else {
        scheme_errs(src.drop_last()) + (match scheme_err(src.last()) {
            Option::Some(k) => seq![k],
            Option::None => Seq::empty(),
        })
    }
}

/// Registers the declared security schemes: only header-located API keys
/// are supported; every other declaration is recorded as unsupported and
/// not registered, in declaration order.
#[verifier::loop_isolation(false)]
#[verifier::rlimit(100)]
fn parse_security_schemes<'a>(ctx: &mut Context<'a>)
    requires
        old(ctx).wf(),
        old(ctx).security@.len() == 0,
    ensures
        final(ctx).components == old(ctx).components,
        final(ctx).can_insert == old(ctx).can_insert,
        final(ctx).scope@ == old(ctx).scope@,
        final(ctx).in_progress@ == old(ctx).in_progress@,
        final(ctx).types@ == old(ctx).types@,
        old(ctx).errors@.is_prefix_of(final(ctx).errors@),
        final(ctx).wf(),
        sec_entries(final(ctx).security@) == (match old(ctx).components {
            Option::Some(c) => header_schemes(c.security_schemes@),
            Option::None => Seq::<(Seq<char>, Seq<char>, Seq<char>)>::empty(),
        }),
        final(ctx).errors@.len() == old(ctx).errors@.len() + (match old(ctx).components {
            Option::Some(c) => scheme_errs(c.security_schemes@),
            Option::None => Seq::<ErrorKindShape>::empty(),
        }).len(),
        forall|x: int|
            0 <= x < (match old(ctx).components {
                Option::Some(c) => scheme_errs(c.security_schemes@),
                Option::None => Seq::<ErrorKindShape>::empty(),
            }).len() ==> (#[trigger] final(ctx).errors@[old(ctx).errors@.len() + x]).kind@ == (
            match old(ctx).components {
                Option::Some(c) => scheme_errs(c.security_schemes@),
                Option::None => Seq::<ErrorKindShape>::empty(),
            })[x] && final(ctx).errors@[old(ctx).errors@.len() + x].scope@ == old(ctx).scope@.push(Option::Some("components"@)),
{
    proof {
        lemma_prefix_refl(old(ctx).errors@);
    }
    let components = match ctx.components {
        Option::Some(c) => c,
        Option::None => {
            proof {
                assert(sec_entries(ctx.security@) =~= Seq::<
                    (Seq<char>, Seq<char>, Seq<char>),
                >::empty());
            }
            return ;
        },
    };
    ctx.scope("components".to_owned());
    let ghost entered = *ctx;
    let ghost src = components.security_schemes@;
    let ghost keys = src.map_values(|p: (String, MaybeRef<SecuritySchemeSrc>)| p.0@);
    let n = components.security_schemes.len();
    let mut i: usize = 0;
    proof {
        assert(sec_entries(ctx.security@) =~= header_schemes(src.take(0)));
    }
    while i < n
        invariant
            i <= n,
            ctx.components == old(ctx).components,
            ctx.can_insert == old(ctx).can_insert,
            ctx.scope@ == entered.scope@,
            ctx.in_progress@ == old(ctx).in_progress@,
            ctx.types@ == old(ctx).types@,
            old(ctx).errors@.is_prefix_of(ctx.errors@),
            ctx.wf(),
            sec_entries(ctx.security@) == header_schemes(src.take(i as int)),
            ctx.errors@.len() == old(ctx).errors@.len() + scheme_errs(src.take(i as int)).len(),
            forall|x: int|
                0 <= x < scheme_errs(src.take(i as int)).len() ==> (#[trigger] ctx.errors@[old(ctx).errors@.len() + x]).kind@ == scheme_errs(src.take(i as int))[x]
                    && ctx.errors@[old(ctx).errors@.len() + x].scope@ == entered.scope@,
            forall|e: int|
                0 <= e < ctx.security@.len() ==> exists|j: int|
                    0 <= j < i && src[j].0@ == #[trigger] ctx.security@[e].0,
        decreases n - i,
    {
        let entry_name = &components.security_schemes[i].0;
        let ghost pre = ctx.security@;
        let ghost pre_errs = ctx.errors@;
        match &components.security_schemes[i].1 {
            MaybeRef::Reference(_) => {
                ctx.error(Error::unsupported_ref("securitySchemes"));
            },
            MaybeRef::Item(scheme) => match scheme {
                SecuritySchemeSrc::ApiKey { location, name: key } => match location {
                    ApiKeyLocation::Header => {
                        proof {
                            assert(!ctx.security.spec_contains_key(entry_name@)) by {
                                if ctx.security.spec_contains_key(entry_name@) {
                                    let e = choose|e: int|
                                        0 <= e < ctx.security@.len() && ctx.security@[e].0
                                            == entry_name@;
                                    let j = choose|j: int|
                                        0 <= j < i && src[j].0@ == ctx.security@[e].0;
                                    assert(keys[j] == src[j].0@);
                                    assert(keys[i as int] == src[i as int].0@);
                                    assert(keys[j] == keys[i as int]);
                                }
                            }
                        }
                        let scheme = ast::Security {
                            name: entry_name.clone(),
                            key: key.clone(),
                        };
                        ctx.security.insert(entry_name.clone(), scheme);
                        proof {
                            assert(ctx.security@ == pre.push(
                                (entry_name@, ctx.security@.last().1),
                            ));
                            assert forall|e: int|
                                0 <= e < ctx.security@.len() implies exists|j: int|
                                0 <= j < i + 1 && src[j].0@ == #[trigger] ctx.security@[e].0 by {
                                if e < pre.len() {
                                    assert(ctx.security@[e] == pre[e]);
                                } else {
                                    assert(ctx.security@[e].0 == entry_name@);
                                    assert(src[i as int].0@ == entry_name@);
                                }
                            }
                        }
                    },
                    ApiKeyLocation::Query => {
                        ctx.error(Error::unsupported("Query API key authentication"));
                    },
                    ApiKeyLocation::Cookie => {
                        ctx.error(Error::unsupported("Cookie API key authentication"));
                    },
                },
                SecuritySchemeSrc::Http => {
                    ctx.error(Error::unsupported("HTTP authentication"));
                },
                SecuritySchemeSrc::OAuth2 => {
                    ctx.error(Error::unsupported("OAuth2 authentication"));
                },
                SecuritySchemeSrc::OpenIdConnect => {
                    ctx.error(Error::unsupported("OpenID authentication"));
                },
            },
        }
        i = i + 1;
        proof {
            assert(src.take(i as int).drop_last() =~= src.take(i - 1));
            assert(src.take(i as int).last() == src[i - 1]);
            assert(sec_entries(ctx.security@) =~= header_schemes(src.take(i as int)));
            let prev = scheme_errs(src.take(i - 1));
            let cur = scheme_errs(src.take(i as int));
            match scheme_err(src[i - 1]) {
                Option::Some(k) => {
                    assert(cur =~= prev.push(k));
                    assert(pre_errs =~= ctx.errors@.subrange(0, pre_errs.len() as int));
                    assert forall|x: int|
                        0 <= x < cur.len() implies (#[trigger] ctx.errors@[old(ctx).errors@.len()
                        + x]).kind@ == cur[x] && ctx.errors@[old(ctx).errors@.len() + x].scope@
                        == entered.scope@ by {
                        if x < cur.len() - 1 {
                            assert(ctx.errors@[old(ctx).errors@.len() + x] == pre_errs[old(ctx).errors@.len() + x]);
                        } else {
                            assert(ctx.errors@[old(ctx).errors@.len() + x] == ctx.errors@.last());
                        }
                    }
                },
                Option::None => {
                    assert(cur =~= prev);
                },
            }
        }
    }
    proof {
        assert(src.take(n as int) =~= src);
    }
    ctx.scope_end();
    proof {
        assert(ctx.scope@ =~= old(ctx).scope@);
        assert(entered.scope@ =~= old(ctx).scope@.push(Option::Some("components"@)));
    }
}

/// Whether the keys of an association list are pairwise distinct.
fn keys_distinct<T>(v: &Vec<(String, T)>) -> (r: bool)
    ensures
        r == v@.map_values(|p: (String, T)| p.0@).no_duplicates(),
{
    let ghost keys = v@.map_values(|p: (String, T)| p.0@);
    let n = v.len();
    let mut i: usize = 0;
    while i < n
        invariant
            i <= n,
            n == v@.len(),
            keys == v@.map_values(|p: (String, T)| p.0@),
            keys.len() == n,
            forall|a: int, b: int| 0 <= a < b < i ==> keys[a] != keys[b],
        decreases n - i,
    {
        let mut j: usize = 0;
        while j < i
            invariant
                j <= i < n,
                n == v@.len(),
                keys == v@.map_values(|p: (String, T)| p.0@),
                keys.len() == n,
                forall|b: int| 0 <= b < j ==> keys[b] != keys[i as int],
            decreases i - j,
        {
            if crate::util::str_eq(v[j].0.as_str(), v[i].0.as_str()) {
                proof {
                    assert(keys[j as int] == keys[i as int]);
                }
                return false;
            }
            j = j + 1;
        }
        i = i + 1;
    }
    proof {
        assert(keys.no_duplicates()) by {
            assert forall|a: int, b: int|
                0 <= a < keys.len() && 0 <= b < keys.len() && a != b implies keys[a] != keys[b] by {
                if a < b {
                } else {
                }
            }
        }
    }
    true
}

/// A source document is well formed when its reusable declarations carry
/// pairwise distinct names, as the source format's maps guarantee.
impl Document {
    pub open spec fn wf(&self) -> bool {
        components_wf(match self.components {
            Option::Some(ref c) => Option::Some(c),
            Option::None => Option::None,
        })
    }

    /// Whether the reusable declarations carry pairwise distinct names.
    pub fn check_wf(&self) -> (r: bool)
        ensures
            r == self.wf(),
    {
        match &self.components {
            Option::None => true,
            Option::Some(c) => keys_distinct(&c.schemas) && keys_distinct(&c.security_schemes),
        }
    }
}

/// Whether an operation yields a route against the registered names: it
/// can be named, and its parameters extract.
pub open spec fn route_kept(keys: Seq<Seq<char>>, op: Operation) -> bool {
    (op.operation_id is Some || op.summary is Some) && params_extract(keys, op.parameters@)
}

/// The operations declared under one path, in declaration order.
pub open spec fn item_ops(uri: String, ops: Seq<(ast::Method, Operation)>) -> Seq<
    (String, ast::Method, Operation),
>
    decreases ops.len(),
{
    if ops.len() == 0 {
        Seq::empty()
    } else {
        item_ops(uri, ops.drop_last()).push((uri, ops.last().0, ops.last().1))
    }
}

/// The operations a document declares, flattened in (path, method) order;
/// a referenced path item contributes nothing.
pub open spec fn doc_ops(paths: Seq<(String, MaybeRef<PathItemSrc>)>) -> Seq<
    (String, ast::Method, Operation),
>
    decreases paths.len(),
{
    if paths.len() == 0 {
        Seq::empty()
    } else {
        doc_ops(paths.drop_last()) + (match paths.last().1 {
            MaybeRef::Item(info) => item_ops(paths.last().0, info.operations@),
            MaybeRef::Reference(_) => Seq::empty(),
        })
    }
}

/// The operations whose routes survive extraction, in order.
pub open spec fn kept_ops(
    keys: Seq<Seq<char>>,
    ops: Seq<(String, ast::Method, Operation)>,
) -> Seq<(String, ast::Method, Operation)>
    decreases ops.len(),
{
    if ops.len() == 0 {
        Seq::empty()
    } else {
        kept_ops(keys, ops.drop_last()) + (if route_kept(keys, ops.last().2) {
            seq![ops.last()]
        } else {
            Seq::empty()
        })
    }
}

/// Kept operations distribute over concatenation.
pub proof fn lemma_kept_ops_add(
    keys: Seq<Seq<char>>,
    a: Seq<(String, ast::Method, Operation)>,
    b: Seq<(String, ast::Method, Operation)>,
)
    ensures
        kept_ops(keys, a + b) == kept_ops(keys, a) + kept_ops(keys, b),
    decreases b.len(),
{
    if b.len() == 0 {
        assert(a + b =~= a);
        assert(kept_ops(keys, a) + kept_ops(keys, b) =~= kept_ops(keys, a));
    } else {
        assert((a + b).drop_last() =~= a + b.drop_last());
        lemma_kept_ops_add(keys, a, b.drop_last());
        assert(kept_ops(keys, a + b) =~= kept_ops(keys, a) + kept_ops(keys, b));
    }
}

/// What an extracted route carries for its source operation: the endpoint
/// and method of its place, the declared or camel-cased name, the trimmed
/// description, and the surviving literal status codes.
pub open spec fn route_matches(src: (String, ast::Method, Operation), route: ast::Route) -> bool {
    &&& route.endpoint@ == src.0@
    &&& route.method == src.1
    &&& (match src.2.operation_id {
        Option::Some(id) => route.name@ == id@,
        Option::None => match src.2.summary {
            Option::Some(su) => route.name@ == crate::util::camel_of(su@),
            Option::None => false,
        },
    })
    &&& (match src.2.description {
        Option::Some(d) => route.description matches Option::Some(t) && t@
            == crate::util::trim_of(d@),
        Option::None => route.description is None,
    })
    &&& codes_of(route.responses.specific@) == kept_codes(src.2.responses.responses@)
    &&& route.parameters.wf()
}

/// The effective top-level default security of a document: the first
/// scheme name of its requirement list that the document's own declared
/// header API keys know, with that scheme's name and header key.
pub open spec fn doc_security(doc: &Document, s: Option<ast::Security>) -> bool {
    match doc.security {
        Option::None => s is None,
        Option::Some(reqs) => match reqs_first_in(doc_header_schemes(doc), reqs@) {
            Option::Some(n) => s matches Option::Some(sch) && (sch.name@, sch.key@)
                == entry_scheme(doc_header_schemes(doc), n),
            Option::None => s is None,
        },
    }
}

/// What the produced intermediate representation satisfies, whether or not
/// diagnostics were recorded: both registries are well formed, the scheme
/// registry holds exactly the declared header API keys, the default
/// security is the first-existing scan of the document's requirement list,
/// and a document without reusable components yields an empty type
/// registry. An error result carries at least one diagnostic.
pub open spec fn resolved_doc(doc: &Document, r: Result<ast::Ast, (ast::Ast, Vec<Error>)>) -> bool {
    match r {
        Result::Ok(a) => resolved_ir(doc, a),
        Result::Err((a, errs)) => resolved_ir(doc, a) && errs@.len() > 0,
    }
}

/// What the intermediate representation satisfies: well-formed registries,
/// the scheme registry exactly the declared header API keys, the default
/// security resolved by the first-existing scan, an empty type registry
/// without components, and one route per surviving operation, in (path,
/// method) order, each matching its source.
pub open spec fn resolved_ir(doc: &Document, a: ast::Ast) -> bool {
    &&& a.types.wf()
    &&& a.schemes.wf()
    &&& sec_entries(a.schemes@) == doc_header_schemes(doc)
    &&& doc_security(doc, a.security)
    &&& (doc.components is None ==> a.types@.len() == 0)
    &&& a.routes@.len() == kept_ops(reg_keys(a.types@), doc_ops(doc.paths@)).len()
    &&& forall|k: int|
        0 <= k < a.routes@.len() ==> route_matches(
            kept_ops(reg_keys(a.types@), doc_ops(doc.paths@))[k],
            #[trigger] a.routes@[k],
        )
}

/// Conversion of a whole source document into the intermediate
/// representation.
pub trait AsAst {
    /// What the conversion promises of its result.
    spec fn ast_contract(&self, r: Result<ast::Ast, (ast::Ast, Vec<Error>)>) -> bool;

    /// Builds the intermediate representation, together with every
    /// diagnostic the walk recorded; the result is an error exactly when
    /// at least one diagnostic was recorded.
    fn as_ast(&self) -> (r: Result<ast::Ast, (ast::Ast, Vec<Error>)>)
        ensures
            self.ast_contract(r),
    ;
}

impl Document {
    /// Resolves the whole document: the security schemes and the reusable
    /// types are registered once, in declaration order, then every
    /// operation is extracted as a route. The intermediate representation
    /// is produced even when diagnostics were recorded; it is `Ok` exactly
    /// when none were.
    pub fn to_ast(&self) -> (r: Result<ast::Ast, (ast::Ast, Vec<Error>)>)
        requires
            self.wf(),
        ensures
            resolved_doc(self, r),
    {
        let components = match &self.components {
            Option::Some(c) => Option::Some(c),
            Option::None => Option::None,
        };
        let mut ctx = Context::new(components);
        parse_security_schemes(&mut ctx);
        let ghost after_schemes = ctx;
        proof {
            assert(sec_entries(after_schemes.security@) =~= doc_header_schemes(self));
        }
        let security = match &self.security {
            Option::Some(v) => {
                let ghost reg = after_schemes.security;
                let found = parse_security(&mut ctx, v);
                proof {
                    lemma_reqs_first_in(&reg, v@);
                    match reqs_first(reg, v@) {
                        Option::Some(n) => {
                            lemma_entries_lookup(&reg, n);
                        },
                        Option::None => {},
                    }
                    assert(doc_security(self, found));
                }
                found
            },
            Option::None => Option::None,
        };
        ctx.can_insert = true;
        proof {
            assert(ctx.wf());
        }
        parse_types(&mut ctx);
        ctx.can_insert = false;
        proof {
            assert(ctx.wf());
        }
        let ghost typs = ctx.types@;
        let ghost keys = reg_keys(ctx.types@);
        let mut routes: Vec<ast::Route> = Vec::new();
        let np = self.paths.len();
        let mut i: usize = 0;
        proof {
            assert(doc_ops(self.paths@.take(0)) =~= Seq::<(String, ast::Method, Operation)>::empty());
            assert(kept_ops(keys, doc_ops(self.paths@.take(0))) =~= Seq::<
                (String, ast::Method, Operation),
            >::empty());
        }
        while i < np
            invariant
                i <= np,
                np == self.paths@.len(),
                ctx.wf(),
                ctx.can_insert == false,
                ctx.types@ == typs,
                keys == reg_keys(typs),
                ctx.components == (match self.components {
                    Option::Some(ref c) => Option::Some(c),
                    Option::None => Option::None,
                }),
                sec_entries(ctx.security@) == doc_header_schemes(self),
                self.components is None ==> ctx.types@.len() == 0,
                ctx.types.wf(),
                ctx.security.wf(),
                routes@.len() == kept_ops(keys, doc_ops(self.paths@.take(i as int))).len(),
                forall|k: int|
                    0 <= k < routes@.len() ==> route_matches(
                        kept_ops(keys, doc_ops(self.paths@.take(i as int)))[k],
                        #[trigger] routes@[k],
                    ),
            decreases np - i,
        {
            let ghost ops_before = doc_ops(self.paths@.take(i as int));
            match &self.paths[i].1 {
                MaybeRef::Item(info) => {
                    let uri = &self.paths[i].0;
                    let m = info.operations.len();
                    let mut j: usize = 0;
                    proof {
                        assert(item_ops(*uri, info.operations@.take(0)) =~= Seq::<
                            (String, ast::Method, Operation),
                        >::empty());
                        assert(ops_before + item_ops(*uri, info.operations@.take(0))
                            =~= ops_before);
                        lemma_kept_ops_add(keys, ops_before, item_ops(
                            *uri,
                            info.operations@.take(0),
                        ));
                    }
                    while j < m
                        invariant
                            j <= m,
                            m == info.operations@.len(),
                            ctx.wf(),
                            ctx.can_insert == false,
                            ctx.types@ == typs,
                            keys == reg_keys(typs),
                            ctx.components == (match self.components {
                                Option::Some(ref c) => Option::Some(c),
                                Option::None => Option::None,
                            }),
                            sec_entries(ctx.security@) == doc_header_schemes(self),
                            self.components is None ==> ctx.types@.len() == 0,
                            ops_before == doc_ops(self.paths@.take(i as int)),
                            routes@.len() == kept_ops(
                                keys,
                                ops_before + item_ops(*uri, info.operations@.take(j as int)),
                            ).len(),
                            forall|k: int|
                                0 <= k < routes@.len() ==> route_matches(
                                    kept_ops(
                                        keys,
                                        ops_before + item_ops(
                                            *uri,
                                            info.operations@.take(j as int),
                                        ),
                                    )[k],
                                    #[trigger] routes@[k],
                                ),
                        decreases m - j,
                    {
                        let method = info.operations[j].0;
                        let ghost flat_before = ops_before + item_ops(
                            *uri,
                            info.operations@.take(j as int),
                        );
                        let parsed = parse_route(&mut ctx, uri, method, &info.operations[j].1);
                        proof {
                            assert(info.operations@.take(j + 1).drop_last() =~= info.operations@.take(
                                j as int,
                            ));
                            assert(info.operations@.take(j + 1).last() == info.operations@[j as int]);
                            let flat_now = ops_before + item_ops(
                                *uri,
                                info.operations@.take(j + 1),
                            );
                            assert(item_ops(*uri, info.operations@.take(j + 1)) == item_ops(
                                *uri,
                                info.operations@.take(j as int),
                            ).push((*uri, method, info.operations@[j as int].1)));
                            assert(flat_now.drop_last() =~= flat_before);
                            assert(flat_now.last() == (*uri, method, info.operations@[j as int].1));
                        }
                        let ghost pprev = routes@;
                        match parsed {
                            Option::Some(route) => {
                                routes.push(route);
                            },
                            Option::None => {},
                        }
                        j = j + 1;
                        proof {
                            let flat_now = ops_before + item_ops(
                                *uri,
                                info.operations@.take(j as int),
                            );
                            assert(kept_ops(keys, flat_now) == kept_ops(keys, flat_before) + (
                            if route_kept(keys, info.operations@[j - 1].1) {
                                seq![(*uri, method, info.operations@[j - 1].1)]
                            } else {
                                Seq::<(String, ast::Method, Operation)>::empty()
                            }));
                            assert forall|k: int|
                                0 <= k < routes@.len() implies route_matches(
                                kept_ops(keys, flat_now)[k],
                                #[trigger] routes@[k],
                            ) by {
                                if k < pprev.len() {
                                    assert(routes@[k] == pprev[k]);
                                    assert(kept_ops(keys, flat_now)[k] == kept_ops(
                                        keys,
                                        flat_before,
                                    )[k]);
                                }
                            }
                        }
                    }
                    proof {
                        assert(info.operations@.take(m as int) =~= info.operations@);
                        assert(self.paths@.take(i + 1).drop_last() =~= self.paths@.take(i as int));
                        assert(self.paths@.take(i + 1).last() == self.paths@[i as int]);
                        assert(doc_ops(self.paths@.take(i + 1)) == ops_before + item_ops(
                            *uri,
                            info.operations@,
                        ));
                    }
                },
                MaybeRef::Reference(_) => {
                    proof {
                        assert(self.paths@.take(i + 1).drop_last() =~= self.paths@.take(i as int));
                        assert(self.paths@.take(i + 1).last() == self.paths@[i as int]);
                        assert(doc_ops(self.paths@.take(i + 1)) =~= ops_before);
                    }
                },
            }
            i = i + 1;
        }
        proof {
            assert(self.paths@.take(np as int) =~= self.paths@);
        }
        let Context { scope: _, errors, can_insert: _, types, security: schemes, components: _, in_progress: _ } = ctx;
        let a = ast::Ast { routes, types, schemes, security };
        if errors.len() == 0 {
            Result::Ok(a)
        } else {
            Result::Err((a, errors))
        }
    }
}

impl AsAst for Document {
    /// With distinct declaration names the full document contract holds;
    /// a repeated name yields one generic diagnostic beside an empty
    /// representation.
    open spec fn ast_contract(&self, r: Result<ast::Ast, (ast::Ast, Vec<Error>)>) -> bool {
        if self.wf() {
            resolved_doc(self, r)
        } else {
            r matches Result::Err((a, errs)) && errs@.len() == 1 && errs@[0].kind@
                == ErrorKindShape::Generic("component declarations repeat a name"@)
                && a.routes@.len() == 0 && a.types@.len() == 0 && a.schemes@.len() == 0
                && a.security is None
        }
    }

    fn as_ast(&self) -> (r: Result<ast::Ast, (ast::Ast, Vec<Error>)>) {
        if !self.check_wf() {
            return Result::Err(
                (
                    ast::Ast {
                        routes: Vec::new(),
                        types: Dict::new(),
                        schemes: Dict::new(),
                        security: Option::None,
                    },
                    vec![
                        Error::new(
                            Scope::new(),
                            Error::generic("component declarations repeat a name"),
                        ),
                    ],
                ),
            );
        }
        self.to_ast()
    }
}

} // verus!
