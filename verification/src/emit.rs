//! The token-buffer emitter: a flat token sequence is produced by one
//! depth-first pass over the intermediate representation and rendered as
//! source text, every token followed by a single space and the whole
//! trimmed at the ends.

use vstd::prelude::*;

verus! {

broadcast use vstd::std_specs::vec::group_vec_axioms, vstd::seq::group_seq_axioms;

use vstd::string::StrSliceExecFns;
use vstd::string::StringExecFns;
use crate::util::{trim_of, trim_in_place};

// ---------------------------------------------------------------------------
// Tokens
// ---------------------------------------------------------------------------

/// One output token.
#[derive(PartialEq, Eq, Debug)]
pub enum Token {
    /// `|`
    Or,
    /// `:`
    Colon,
    /// `=`
    Equals,
    /// `?`
    Question,
    /// `,`
    Comma,
    /// `.`
    Dot,
    /// `...`
    TripleDot,
    /// `&&`
    AndAnd,
    /// `;`
    Semicolon,
    /// `{`
    LeftBrace,
    /// `}`
    RightBrace,
    /// `[`
    LeftBracket,
    /// `]`
    RightBracket,
    /// `(`
    LeftParen,
    /// `)`
    RightParen,
    /// `<`
    LowerThan,
    /// `>`
    GreaterThan,
    /// an identifier
    Identifier(String),
    /// a quoted string literal
    String(String),
    /// a documentation block
    Doc(String),
    /// raw text
    Raw(String),
}

/// The model of a token, with strings abstracted to character sequences.
pub enum TokenShape {
    Or,
    Colon,
    Equals,
    Question,
    Comma,
    Dot,
    TripleDot,
    AndAnd,
    Semicolon,
    LeftBrace,
    RightBrace,
    LeftBracket,
    RightBracket,
    LeftParen,
    RightParen,
    LowerThan,
    GreaterThan,
    Identifier(Seq<char>),
    String(Seq<char>),
    Doc(Seq<char>),
    Raw(Seq<char>),
}

impl View for Token {
    type V = TokenShape;

    open spec fn view(&self) -> TokenShape {
        match self {
            Token::Or => TokenShape::Or,
            Token::Colon => TokenShape::Colon,
            Token::Equals => TokenShape::Equals,
            Token::Question => TokenShape::Question,
            Token::Comma => TokenShape::Comma,
            Token::Dot => TokenShape::Dot,
            Token::TripleDot => TokenShape::TripleDot,
            Token::AndAnd => TokenShape::AndAnd,
            Token::Semicolon => TokenShape::Semicolon,
            Token::LeftBrace => TokenShape::LeftBrace,
            Token::RightBrace => TokenShape::RightBrace,
            Token::LeftBracket => TokenShape::LeftBracket,
            Token::RightBracket => TokenShape::RightBracket,
            Token::LeftParen => TokenShape::LeftParen,
            Token::RightParen => TokenShape::RightParen,
            Token::LowerThan => TokenShape::LowerThan,
            Token::GreaterThan => TokenShape::GreaterThan,
            Token::Identifier(s) => TokenShape::Identifier(s@),
            Token::String(s) => TokenShape::String(s@),
            Token::Doc(s) => TokenShape::Doc(s@),
            Token::Raw(s) => TokenShape::Raw(s@),
        }
    }
}

/// The position of the first line break in `d`, or its length when there
/// is none.
pub open spec fn nl_index(d: Seq<char>) -> int
    decreases d.len(),
{
    if d.len() == 0 {
        0
    } else if d[0] == '\n' {
        0
    } else {
        1 + nl_index(d.drop_first())
    }
}

/// `nl_index` points at the first line break, or past the end.
pub proof fn lemma_nl_index(d: Seq<char>)
    ensures
        0 <= nl_index(d) <= d.len(),
        nl_index(d) < d.len() ==> d[nl_index(d)] == '\n',
        forall|j: int| 0 <= j < nl_index(d) ==> d[j] != '\n',
    decreases d.len(),
{
    if d.len() > 0 && d[0] != '\n' {
        lemma_nl_index(d.drop_first());
        assert forall|j: int| 0 <= j < nl_index(d) implies d[j] != '\n' by {
            if j > 0 {
                assert(d.drop_first()[j - 1] != '\n');
            }
        }
    }
}

/// `nl_index` is pinned by its characterization.
pub proof fn lemma_nl_index_at(d: Seq<char>, k: int)
    requires
        0 <= k <= d.len(),
        forall|j: int| 0 <= j < k ==> d[j] != '\n',
        k < d.len() ==> d[k] == '\n',
    ensures
        nl_index(d) == k,
    decreases d.len(),
{
    if d.len() > 0 && d[0] != '\n' {
        lemma_nl_index_at(d.drop_first(), k - 1);
    }
}

/// The text of a documentation body: each line of `d` on a line of its
/// own, prefixed by ` * `.
pub open spec fn doc_lines(d: Seq<char>) -> Seq<char>
    decreases d.len(),
    via doc_lines_decreases
{
    let i = nl_index(d);
    if i >= d.len() {
        " * "@ + d + "\n"@
    } else {
        " * "@ + d.take(i) + "\n"@ + doc_lines(d.skip(i + 1))
    }
}

#[via_fn]
proof fn doc_lines_decreases(d: Seq<char>) {
    lemma_nl_index(d);
}

/// The text of one token.
pub open spec fn token_text(t: TokenShape) -> Seq<char> {
    match t {
        TokenShape::Or => "|"@,
        TokenShape::Colon => ":"@,
        TokenShape::Equals => "="@,
        TokenShape::Question => "?"@,
        TokenShape::Comma => ","@,
        TokenShape::Dot => "."@,
        TokenShape::TripleDot => "..."@,
        TokenShape::AndAnd => "&&"@,
        TokenShape::Semicolon => ";"@,
        TokenShape::LeftBrace => "{"@,
        TokenShape::RightBrace => "}"@,
        TokenShape::LeftBracket => "["@,
        TokenShape::RightBracket => "]"@,
        TokenShape::LeftParen => "("@,
        TokenShape::RightParen => ")"@,
        TokenShape::LowerThan => "<"@,
        TokenShape::GreaterThan => ">"@,
        TokenShape::Identifier(s) => s,
        TokenShape::String(s) => "'"@ + s + "'"@,
        TokenShape::Doc(d) => "\n/**"@ + "\n"@ + doc_lines(d) + "*/"@ + "\n"@,
        TokenShape::Raw(s) => s,
    }
}

/// The text of a token sequence: each token followed by one space.
pub open spec fn tokens_text(s: Seq<TokenShape>) -> Seq<char>
    decreases s.len(),
{
    if s.len() == 0 {
        Seq::empty()
    } else {
        tokens_text(s.drop_last()) + token_text(s.last()) + " "@
    }
}

// ---------------------------------------------------------------------------
// Token sequences of type expressions
// ---------------------------------------------------------------------------

use crate::ast::{Shape, ShapeRef, Type, TypeRef, fields_shape, lemma_fields_shape, lemma_refs_shape, refs_shape, strings_shape};

/// The variants of an enumeration, `|`-separated.
pub open spec fn enum_variant_tokens(vs: Seq<Seq<char>>) -> Seq<TokenShape>
    decreases vs.len(),
{
    if vs.len() == 0 {
        Seq::empty()
    } else if vs.len() == 1 {
        seq![TokenShape::String(vs[0])]
    } else {
        enum_variant_tokens(vs.drop_last()) + seq![TokenShape::Or, TokenShape::String(vs.last())]
    }
}

/// The members of a union, `|`-separated.
pub open spec fn union_tokens(ps: Seq<ShapeRef>) -> Seq<TokenShape>
    decreases ps,
{
    if ps.len() == 0 {
        Seq::empty()
    } else if ps.len() == 1 {
        shape_ref_tokens(ps[0])
    } else {
        union_tokens(ps.drop_last()) + seq![TokenShape::Or] + shape_ref_tokens(ps.last())
    }
}

/// The fields of an object literal: `'name'` (with `?` when the field's
/// type is `Optional`) `:` type `,`.
pub open spec fn obj_fields_tokens(fs: Seq<(Seq<char>, ShapeRef)>) -> Seq<TokenShape>
    decreases fs,
{
    if fs.len() == 0 {
        Seq::empty()
    } else {
        let f = fs.last();
        obj_fields_tokens(fs.drop_last()) + seq![TokenShape::String(f.0)] + (if is_optional_shape(
            f.1,
        ) {
            seq![TokenShape::Question]
        } else {
            Seq::empty()
        }) + seq![TokenShape::Colon] + shape_ref_tokens(f.1) + seq![TokenShape::Comma]
    }
}

/// Whether a reference is an inline `Optional` type node.
pub open spec fn is_optional_shape(r: ShapeRef) -> bool {
    match r {
        ShapeRef::Type(s) => *s is Optional,
        ShapeRef::Ref(_) => false,
    }
}

/// The token sequence of one type expression. Every compound type is
/// wrapped in exactly one parenthesis pair.
pub open spec fn shape_tokens(s: Shape) -> Seq<TokenShape>
    decreases s,
{
    match s {
        Shape::Any => seq![TokenShape::Identifier("any"@)],
        Shape::Number => seq![TokenShape::Identifier("number"@)],
        Shape::String => seq![TokenShape::Identifier("string"@)],
        Shape::Boolean => seq![TokenShape::Identifier("boolean"@)],
        Shape::Enum(vs) => seq![TokenShape::LeftParen] + enum_variant_tokens(vs) + seq![
            TokenShape::RightParen,
        ],
        Shape::Array(b) => seq![TokenShape::LeftParen] + shape_ref_tokens(*b) + seq![
            TokenShape::RightParen,
            TokenShape::LeftBracket,
            TokenShape::RightBracket,
        ],
        Shape::Object(fs) => seq![TokenShape::LeftParen, TokenShape::LeftBrace]
            + obj_fields_tokens(fs) + seq![TokenShape::RightBrace, TokenShape::RightParen],
        Shape::Union(ps) => seq![TokenShape::LeftParen] + union_tokens(ps) + seq![
            TokenShape::RightParen,
        ],
        Shape::Optional(b) => seq![TokenShape::LeftParen] + shape_ref_tokens(*b) + seq![
            TokenShape::Or,
            TokenShape::Identifier("undefined"@),
            TokenShape::RightParen,
        ],
    }
}

/// The token sequence of a type reference: the inline expression, or the
/// symbolic name.
pub open spec fn shape_ref_tokens(r: ShapeRef) -> Seq<TokenShape>
    decreases r,
{
    match r {
        ShapeRef::Type(s) => shape_tokens(*s),
        ShapeRef::Ref(name) => seq![TokenShape::Identifier(name)],
    }
}

/// One type declaration of the registry: `export type <Name> = <expr> ;`.
pub open spec fn decl_tokens(name: Seq<char>, s: Shape) -> Seq<TokenShape> {
    seq![
        TokenShape::Identifier("export"@),
        TokenShape::Identifier("type"@),
        TokenShape::Identifier(name),
        TokenShape::Equals,
    ] + shape_tokens(s) + seq![TokenShape::Semicolon]
}

/// The declarations of the whole type registry, in insertion order.
pub open spec fn types_tokens(entries: Seq<(Seq<char>, Type)>) -> Seq<TokenShape>
    decreases entries.len(),
{
    if entries.len() == 0 {
        Seq::empty()
    } else {
        types_tokens(entries.drop_last()) + decl_tokens(
            entries.last().0,
            entries.last().1@,
        )
    }
}

// ---------------------------------------------------------------------------
// The parenthesization-depth invariant
// ---------------------------------------------------------------------------

/// How many opening parentheses a token sequence holds.
pub open spec fn lefts(toks: Seq<TokenShape>) -> int
    decreases toks.len(),
{
    if toks.len() == 0 {
        0
    } else {
        lefts(toks.drop_last()) + if toks.last() is LeftParen {
            1int
        } else {
            0int
        }
    }
}

/// How many closing parentheses a token sequence holds.
pub open spec fn rights(toks: Seq<TokenShape>) -> int
    decreases toks.len(),
{
    if toks.len() == 0 {
        0
    } else {
        rights(toks.drop_last()) + if toks.last() is RightParen {
            1int
        } else {
            0int
        }
    }
}

/// Whether a type expression is compound: anything but the four plain
/// keywords.
pub open spec fn compound_shape(s: Shape) -> bool {
    match s {
        Shape::Any => false,
        Shape::Number => false,
        Shape::String => false,
        Shape::Boolean => false,
        _ => true,
    }
}

/// How many compound nodes a type expression holds.
pub open spec fn compounds(s: Shape) -> int
    decreases s,
{
    match s {
        Shape::Enum(_) => 1,
        Shape::Array(b) => 1 + ref_compounds(*b),
        Shape::Object(fs) => 1 + fields_compounds(fs),
        Shape::Union(ps) => 1 + list_compounds(ps),
        Shape::Optional(b) => 1 + ref_compounds(*b),
        _ => 0,
    }
}

pub open spec fn ref_compounds(r: ShapeRef) -> int
    decreases r,
{
    match r {
        ShapeRef::Type(s) => compounds(*s),
        ShapeRef::Ref(_) => 0,
    }
}

pub open spec fn fields_compounds(fs: Seq<(Seq<char>, ShapeRef)>) -> int
    decreases fs,
{
    if fs.len() == 0 {
        0
    } else {
        fields_compounds(fs.drop_last()) + ref_compounds(fs.last().1)
    }
}

pub open spec fn list_compounds(ps: Seq<ShapeRef>) -> int
    decreases ps,
{
    if ps.len() == 0 {
        0
    } else {
        list_compounds(ps.drop_last()) + ref_compounds(ps.last())
    }
}

/// Parenthesis counts distribute over concatenation.
pub proof fn lemma_counts_add(a: Seq<TokenShape>, b: Seq<TokenShape>)
    ensures
        lefts(a + b) == lefts(a) + lefts(b),
        rights(a + b) == rights(a) + rights(b),
    decreases b.len(),
{
    if b.len() == 0 {
        assert(a + b =~= a);
    } else {
        assert((a + b).drop_last() =~= a + b.drop_last());
        lemma_counts_add(a, b.drop_last());
    }
}

/// The variants of an enumeration carry no parentheses of their own.
pub proof fn lemma_paren_enum(vs: Seq<Seq<char>>)
    ensures
        lefts(enum_variant_tokens(vs)) == 0,
        rights(enum_variant_tokens(vs)) == 0,
    decreases vs.len(),
{
    reveal_with_fuel(lefts, 4);
    reveal_with_fuel(rights, 4);
    if vs.len() > 1 {
        lemma_paren_enum(vs.drop_last());
        lemma_counts_add(
            enum_variant_tokens(vs.drop_last()),
            seq![TokenShape::Or, TokenShape::String(vs.last())],
        );
    }
}

/// The parenthesization-depth invariant: a rendered type expression holds
/// exactly one parenthesis pair per compound node, and a compound type's
/// expression opens with `(`. A plain keyword carries none.
#[verifier::rlimit(100)]
pub proof fn lemma_paren_shape(s: Shape)
    ensures
        lefts(shape_tokens(s)) == compounds(s),
        rights(shape_tokens(s)) == compounds(s),
        compound_shape(s) ==> shape_tokens(s).len() > 0 && shape_tokens(s)[0]
            == TokenShape::LeftParen,
    decreases s,
{
    reveal_with_fuel(lefts, 5);
    reveal_with_fuel(rights, 5);
    match s {
        Shape::Enum(vs) => {
            lemma_paren_enum(vs);
            lemma_counts_add(seq![TokenShape::LeftParen], enum_variant_tokens(vs));
            lemma_counts_add(
                seq![TokenShape::LeftParen] + enum_variant_tokens(vs),
                seq![TokenShape::RightParen],
            );
        },
        Shape::Array(b) => {
            lemma_paren_ref(*b);
            lemma_counts_add(seq![TokenShape::LeftParen], shape_ref_tokens(*b));
            lemma_counts_add(
                seq![TokenShape::LeftParen] + shape_ref_tokens(*b),
                seq![TokenShape::RightParen, TokenShape::LeftBracket, TokenShape::RightBracket],
            );
        },
        Shape::Object(fs) => {
            lemma_paren_fields(fs);
            lemma_counts_add(
                seq![TokenShape::LeftParen, TokenShape::LeftBrace],
                obj_fields_tokens(fs),
            );
            lemma_counts_add(
                seq![TokenShape::LeftParen, TokenShape::LeftBrace] + obj_fields_tokens(fs),
                seq![TokenShape::RightBrace, TokenShape::RightParen],
            );
        },
        Shape::Union(ps) => {
            lemma_paren_union(ps);
            lemma_counts_add(seq![TokenShape::LeftParen], union_tokens(ps));
            lemma_counts_add(
                seq![TokenShape::LeftParen] + union_tokens(ps),
                seq![TokenShape::RightParen],
            );
        },
        Shape::Optional(b) => {
            lemma_paren_ref(*b);
            lemma_counts_add(seq![TokenShape::LeftParen], shape_ref_tokens(*b));
            lemma_counts_add(
                seq![TokenShape::LeftParen] + shape_ref_tokens(*b),
                seq![
                    TokenShape::Or,
                    TokenShape::Identifier("undefined"@),
                    TokenShape::RightParen,
                ],
            );
        },
        _ => {},
    }
}

/// The invariant carried to type references: a symbolic name renders
/// without parentheses.
pub proof fn lemma_paren_ref(r: ShapeRef)
    ensures
        lefts(shape_ref_tokens(r)) == ref_compounds(r),
        rights(shape_ref_tokens(r)) == ref_compounds(r),
    decreases r,
{
    reveal_with_fuel(lefts, 3);
    reveal_with_fuel(rights, 3);
    match r {
        ShapeRef::Type(s) => {
            lemma_paren_shape(*s);
        },
        ShapeRef::Ref(_) => {},
    }
}

/// The invariant carried to object fields.
pub proof fn lemma_paren_fields(fs: Seq<(Seq<char>, ShapeRef)>)
    ensures
        lefts(obj_fields_tokens(fs)) == fields_compounds(fs),
        rights(obj_fields_tokens(fs)) == fields_compounds(fs),
    decreases fs,
{
    reveal_with_fuel(lefts, 4);
    reveal_with_fuel(rights, 4);
    if fs.len() > 0 {
        let f = fs.last();
        lemma_paren_fields(fs.drop_last());
        lemma_paren_ref(f.1);
        let head = obj_fields_tokens(fs.drop_last());
        let q: Seq<TokenShape> = if is_optional_shape(f.1) {
            seq![TokenShape::Question]
        } else {
            Seq::empty()
        };
        assert(lefts(q) == 0 && rights(q) == 0);
        lemma_counts_add(head, seq![TokenShape::String(f.0)]);
        lemma_counts_add(head + seq![TokenShape::String(f.0)], q);
        lemma_counts_add(head + seq![TokenShape::String(f.0)] + q, seq![TokenShape::Colon]);
        lemma_counts_add(
            head + seq![TokenShape::String(f.0)] + q + seq![TokenShape::Colon],
            shape_ref_tokens(f.1),
        );
        lemma_counts_add(
            head + seq![TokenShape::String(f.0)] + q + seq![TokenShape::Colon] + shape_ref_tokens(
                f.1,
            ),
            seq![TokenShape::Comma],
        );
    }
}

/// The invariant carried to union members.
pub proof fn lemma_paren_union(ps: Seq<ShapeRef>)
    ensures
        lefts(union_tokens(ps)) == list_compounds(ps),
        rights(union_tokens(ps)) == list_compounds(ps),
    decreases ps,
{
    reveal_with_fuel(lefts, 3);
    reveal_with_fuel(rights, 3);
    if ps.len() == 1 {
        lemma_paren_ref(ps[0]);
        assert(ps.last() == ps[0]);
        assert(ps.drop_last().len() == 0);
        assert(list_compounds(ps.drop_last()) == 0);
    } else if ps.len() > 1 {
        lemma_paren_union(ps.drop_last());
        lemma_paren_ref(ps.last());
        lemma_counts_add(union_tokens(ps.drop_last()), seq![TokenShape::Or]);
        lemma_counts_add(
            union_tokens(ps.drop_last()) + seq![TokenShape::Or],
            shape_ref_tokens(ps.last()),
        );
    }
}

// ---------------------------------------------------------------------------
// Token sequences of the runtime-initialization function
// ---------------------------------------------------------------------------

use crate::ast::{Parameter, ParameterKind, RequestBody, Route, Security, method_name};

/// One `init` parameter per registered scheme, in registry order.
pub open spec fn init_params_tokens(entries: Seq<(Seq<char>, Security)>) -> Seq<TokenShape>
    decreases entries.len(),
{
    if entries.len() == 0 {
        Seq::empty()
    } else {
        init_params_tokens(entries.drop_last()) + seq![
            TokenShape::Identifier(entries.last().1.name@),
            TokenShape::Raw(": string ,"@),
        ]
    }
}

/// One header-map entry per registered scheme, in registry order.
pub open spec fn init_headers_tokens(entries: Seq<(Seq<char>, Security)>) -> Seq<TokenShape>
    decreases entries.len(),
{
    if entries.len() == 0 {
        Seq::empty()
    } else {
        init_headers_tokens(entries.drop_last()) + seq![
            TokenShape::String(entries.last().1.key@),
            TokenShape::Colon,
            TokenShape::Identifier(entries.last().1.name@),
            TokenShape::Comma,
        ]
    }
}

/// The two process-wide bindings and the `init` function.
pub open spec fn schemes_tokens(entries: Seq<(Seq<char>, Security)>) -> Seq<TokenShape> {
    seq![
        TokenShape::Raw("let _baseUrl : string = \"\" ;"@),
        TokenShape::Raw("let _authHeaders : Record < string , string > = { } ;"@),
        TokenShape::Raw("export function init"@),
        TokenShape::LeftParen,
        TokenShape::Raw("baseUrl : string ,"@),
    ] + init_params_tokens(entries) + seq![
        TokenShape::RightParen,
        TokenShape::LeftBrace,
        TokenShape::Raw("_baseUrl = baseUrl ;"@),
        TokenShape::Raw("_authHeaders ="@),
        TokenShape::LeftBrace,
    ] + init_headers_tokens(entries) + seq![
        TokenShape::RightBrace,
        TokenShape::Semicolon,
        TokenShape::RightBrace,
    ]
}

// ---------------------------------------------------------------------------
// Token sequences of one route
// ---------------------------------------------------------------------------

/// `{name}`: a path placeholder.
pub open spec fn braced(name: Seq<char>) -> Seq<char> {
    "{"@ + name + "}"@
}

/// The replacement text of an indexed-bracket query entry for an
/// array-typed parameter.
pub open spec fn query_array_text(name: Seq<char>) -> Seq<char> {
    "Object . fromEntries ( params [ '"@ + name + "' ] . map ( ( v , i ) => [ `"@ + name
        + "[${i}]` , v . toString ( ) ] ) )"@
}

/// The replacement text of a single key/value query entry.
pub open spec fn query_plain_text(name: Seq<char>) -> Seq<char> {
    "{ '"@ + name + "' : params [ '"@ + name + "' ] . toString ( ) }"@
}

/// Whether a parameter type renders its query entry with indexed bracket
/// keys: an array, or an optional array.
pub open spec fn array_query_shape(r: ShapeRef) -> bool {
    match r {
        ShapeRef::Type(s) => match *s {
            Shape::Array(_) => true,
            Shape::Optional(b) => match *b {
                ShapeRef::Type(s2) => *s2 is Array,
                ShapeRef::Ref(_) => false,
            },
            _ => false,
        },
        ShapeRef::Ref(_) => false,
    }
}

/// One `. replace` call per path parameter, in declaration order.
pub open spec fn path_replace_tokens(params: Seq<(Seq<char>, Parameter)>) -> Seq<TokenShape>
    decreases params.len(),
{
    if params.len() == 0 {
        Seq::empty()
    } else {
        let p = params.last().1;
        path_replace_tokens(params.drop_last()) + (if p.kind is Path {
            seq![
                TokenShape::Raw(". replace"@),
                TokenShape::LeftParen,
                TokenShape::String(braced(p.name@)),
                TokenShape::Comma,
                TokenShape::Identifier("params"@),
                TokenShape::LeftBracket,
                TokenShape::String(p.name@),
                TokenShape::RightBracket,
                TokenShape::RightParen,
            ]
        } else {
            Seq::empty()
        })
    }
}

/// Whether some parameter is carried in the query string.
pub open spec fn has_query_param(params: Seq<(Seq<char>, Parameter)>) -> bool {
    exists|i: int| 0 <= i < params.len() && params[i].1.kind is Query
}

/// One conditionally spread query-string entry per query parameter, in
/// declaration order.
pub open spec fn query_entries_tokens(params: Seq<(Seq<char>, Parameter)>) -> Seq<TokenShape>
    decreases params.len(),
{
    if params.len() == 0 {
        Seq::empty()
    } else {
        let p = params.last().1;
        query_entries_tokens(params.drop_last()) + (if p.kind is Query {
            seq![
                TokenShape::TripleDot,
                TokenShape::LeftParen,
                TokenShape::Identifier("params"@),
                TokenShape::LeftBracket,
                TokenShape::String(p.name@),
                TokenShape::RightBracket,
                TokenShape::AndAnd,
                TokenShape::LeftParen,
                TokenShape::Raw(
                    if array_query_shape(p.ty@) {
                        query_array_text(p.name@)
                    } else {
                        query_plain_text(p.name@)
                    },
                ),
                TokenShape::RightParen,
                TokenShape::RightParen,
                TokenShape::Comma,
            ]
        } else {
            Seq::empty()
        })
    }
}

/// The request-URL construction: the base URL, the path with its
/// placeholders replaced, and the query string when query parameters
/// exist.
pub open spec fn url_tokens(endpoint: Seq<char>, params: Seq<(Seq<char>, Parameter)>) -> Seq<
    TokenShape,
> {
    seq![
        TokenShape::Raw("const url = new URL"@),
        TokenShape::LeftParen,
        TokenShape::Identifier("_baseUrl"@),
        TokenShape::RightParen,
        TokenShape::Semicolon,
        TokenShape::Raw("url . pathname ="@),
        TokenShape::String(endpoint),
    ] + path_replace_tokens(params) + seq![TokenShape::Semicolon] + (if has_query_param(params) {
        seq![
            TokenShape::Raw("url . search = new URLSearchParams"@),
            TokenShape::LeftParen,
            TokenShape::LeftBrace,
        ] + query_entries_tokens(params) + seq![
            TokenShape::RightBrace,
            TokenShape::RightParen,
            TokenShape::Dot,
            TokenShape::Identifier("toString"@),
            TokenShape::LeftParen,
            TokenShape::RightParen,
            TokenShape::Semicolon,
        ]
    } else {
        Seq::empty()
    })
}

/// The itemized field list appended to a documentation block for a
/// multipart form body: one `- name (type)` line per field.
pub open spec fn form_lines(fs: Seq<(Seq<char>, ShapeRef)>) -> Seq<char>
    decreases fs.len(),
{
    if fs.len() == 0 {
        Seq::empty()
    } else {
        form_lines(fs.drop_last()) + "- "@ + fs.last().0 + " ("@ + trim_of(
            tokens_text(shape_ref_tokens(fs.last().1)),
        ) + ")"@ + "\n"@
    }
}

/// The field list of a multipart body type: present only for an inline
/// object type.
pub open spec fn form_fields_text(r: ShapeRef) -> Seq<char> {
    match r {
        ShapeRef::Type(s) => match *s {
            Shape::Object(fs) => form_lines(fs),
            _ => Seq::empty(),
        },
        ShapeRef::Ref(_) => Seq::empty(),
    }
}

/// The request-body pair the generated function is driven by: the first
/// one the route accepts.
pub open spec fn first_body(bodies: Seq<RequestBody>) -> Option<RequestBody> {
    if bodies.len() == 0 {
        Option::None
    } else {
        Option::Some(bodies[0])
    }
}

/// The documentation block of a route: its description, extended by the
/// form-data field list when the request body is a multipart form.
pub open spec fn doc_block_tokens(r: &Route) -> Seq<TokenShape> {
    match r.description {
        Option::None => Seq::empty(),
        Option::Some(desc) => match first_body(r.request_body@) {
            Option::Some(b) => {
                if b.mime_type is Multipart_FormData {
                    seq![
                        TokenShape::Doc(desc@ + "\n\nForm data:\n"@ + form_fields_text(b.ty@)),
                    ]
                } else {
                    seq![TokenShape::Doc(desc@)]
                }
            },
            Option::None => seq![TokenShape::Doc(desc@)],
        },
    }
}

/// The declared parameters of the `params` object argument, in order.
pub open spec fn params_sig_tokens(params: Seq<(Seq<char>, Parameter)>) -> Seq<TokenShape>
    decreases params.len(),
{
    if params.len() == 0 {
        Seq::empty()
    } else {
        let p = params.last().1;
        params_sig_tokens(params.drop_last()) + seq![
            TokenShape::String(p.name@),
            TokenShape::Colon,
        ] + shape_ref_tokens(p.ty@) + seq![TokenShape::Comma]
    }
}

/// The `params` argument of the generated function, absent without
/// declared parameters.
pub open spec fn sig_params_block(params: Seq<(Seq<char>, Parameter)>) -> Seq<TokenShape> {
    if params.len() == 0 {
        Seq::empty()
    } else {
        seq![TokenShape::Raw("params :"@), TokenShape::LeftBrace] + params_sig_tokens(params)
            + seq![TokenShape::RightBrace, TokenShape::Comma]
    }
}

/// The `body` argument: a form-data handle, the resolved JSON type, or a
/// plain string, by content type.
pub open spec fn body_sig_tokens(b: RequestBody) -> Seq<TokenShape> {
    seq![TokenShape::Identifier("body"@), TokenShape::Colon] + (match b.mime_type {
        crate::ast::MimeType::Multipart_FormData => seq![TokenShape::Identifier("FormData"@)],
        crate::ast::MimeType::Application_Json => shape_ref_tokens(b.ty@),
        crate::ast::MimeType::Text_Plain => seq![TokenShape::Identifier("string"@)],
        crate::ast::MimeType::Application_FormUrlEncoded => Seq::empty(),
    }) + seq![TokenShape::Comma]
}

/// The conditional `Content-Type` header: set for JSON and plain-text
/// bodies only.
pub open spec fn content_type_tokens(rb: Option<RequestBody>) -> Seq<TokenShape> {
    match rb {
        Option::None => Seq::empty(),
        Option::Some(b) => match b.mime_type {
            crate::ast::MimeType::Application_Json => seq![
                TokenShape::Raw("'Content-Type' : 'application/json' ,"@),
            ],
            crate::ast::MimeType::Text_Plain => seq![
                TokenShape::Raw("'Content-Type' : 'text/plain' ,"@),
            ],
            _ => Seq::empty(),
        },
    }
}

/// One header-map entry per header-kind parameter, in declaration order.
pub open spec fn header_params_tokens(params: Seq<(Seq<char>, Parameter)>) -> Seq<TokenShape>
    decreases params.len(),
{
    if params.len() == 0 {
        Seq::empty()
    } else {
        let p = params.last().1;
        header_params_tokens(params.drop_last()) + (if p.kind is Header {
            seq![
                TokenShape::String(p.name@),
                TokenShape::Colon,
                TokenShape::Identifier("params"@),
                TokenShape::LeftBracket,
                TokenShape::String(p.name@),
                TokenShape::RightBracket,
                TokenShape::Comma,
            ]
        } else {
            Seq::empty()
        })
    }
}

/// The request body handed to the fetch call: serialized JSON, the raw
/// handle or raw string; URL-encoded bodies are folded into the query
/// string instead.
pub open spec fn fetch_body_tokens(rb: Option<RequestBody>) -> Seq<TokenShape> {
    match rb {
        Option::None => Seq::empty(),
        Option::Some(b) => seq![TokenShape::Identifier("body"@), TokenShape::Colon] + (
        match b.mime_type {
            crate::ast::MimeType::Application_Json => seq![
                TokenShape::Raw("JSON . stringify ( body )"@),
            ],
            crate::ast::MimeType::Multipart_FormData => seq![TokenShape::Identifier("body"@)],
            crate::ast::MimeType::Text_Plain => seq![TokenShape::Identifier("body"@)],
            crate::ast::MimeType::Application_FormUrlEncoded => Seq::empty(),
        }) + seq![TokenShape::Comma],
    }
}

/// The fetch call of one route: the URL, the method, the merged header
/// map, and the body when one exists.
pub open spec fn fetch_tokens(r: &Route) -> Seq<TokenShape> {
    seq![
        TokenShape::Raw("return await fetch"@),
        TokenShape::LeftParen,
        TokenShape::Raw("url . toString ( )"@),
        TokenShape::Comma,
        TokenShape::LeftBrace,
        TokenShape::Identifier("method"@),
        TokenShape::Colon,
        TokenShape::String(method_name(r.method)),
        TokenShape::Comma,
        TokenShape::Identifier("headers"@),
        TokenShape::Colon,
        TokenShape::LeftBrace,
        TokenShape::Raw("... _authHeaders ,"@),
    ] + content_type_tokens(first_body(r.request_body@)) + header_params_tokens(r.parameters@)
        + seq![
        TokenShape::RightBrace,
        TokenShape::Comma,
    ] + fetch_body_tokens(first_body(r.request_body@)) + seq![
        TokenShape::RightBrace,
        TokenShape::RightParen,
    ]
}

/// The head of the generated function: documentation, name and arguments.
pub open spec fn route_head_tokens(r: &Route) -> Seq<TokenShape> {
    doc_block_tokens(r) + seq![
        TokenShape::Raw("export async function"@),
        TokenShape::Identifier(r.name@),
        TokenShape::LeftParen,
    ] + sig_params_block(r.parameters@) + (match first_body(r.request_body@) {
        Option::Some(b) => body_sig_tokens(b),
        Option::None => Seq::empty(),
    }) + seq![
        TokenShape::RightParen,
        TokenShape::Colon,
        TokenShape::Identifier("Promise"@),
        TokenShape::LowerThan,
        TokenShape::Identifier("Response"@),
        TokenShape::GreaterThan,
        TokenShape::LeftBrace,
    ]
}

/// The whole generated function of one route.
pub open spec fn route_tokens(r: &Route) -> Seq<TokenShape> {
    route_head_tokens(r) + url_tokens(r.endpoint@, r.parameters@) + fetch_tokens(r) + seq![
        TokenShape::RightBrace,
    ]
}

/// A request body declared for a multipart form is emitted as an opaque
/// form-data handle: the generated function's `body` argument is typed
/// `FormData`, never the underlying object type.
pub proof fn lemma_multipart_form_body(r: &Route)
    requires
        r.request_body@.len() > 0,
        r.request_body@[0].mime_type is Multipart_FormData,
    ensures
        ({
            let p = (doc_block_tokens(r).len() + 3 + sig_params_block(r.parameters@).len()) as int;
            &&& p + 4 <= route_tokens(r).len()
            &&& route_tokens(r).subrange(p, p + 4) == seq![
                TokenShape::Identifier("body"@),
                TokenShape::Colon,
                TokenShape::Identifier("FormData"@),
                TokenShape::Comma,
            ]
        }),
{
    let b = r.request_body@[0];
    let p = (doc_block_tokens(r).len() + 3 + sig_params_block(r.parameters@).len()) as int;
    assert(body_sig_tokens(b) =~= seq![
        TokenShape::Identifier("body"@),
        TokenShape::Colon,
        TokenShape::Identifier("FormData"@),
        TokenShape::Comma,
    ]);
    assert(route_tokens(r).subrange(p, p + 4) =~= body_sig_tokens(b));
}

/// A query parameter of array type is rendered as a conditional spread
/// keyed by indexed bracket names, guarded by the parameter's presence.
pub proof fn lemma_query_array_entry(params: Seq<(Seq<char>, Parameter)>, i: int)
    requires
        0 <= i < params.len(),
        params[i].1.kind is Query,
        array_query_shape(params[i].1.ty@),
    ensures
        exists|k: int|
            0 <= k && k + 12 <= query_entries_tokens(params).len() && #[trigger] query_entries_tokens(
                params,
            ).subrange(k, k + 12) == query_array_entry_tokens(params[i].1.name@),
    decreases params.len(),
{
    if i == params.len() - 1 {
        let head = query_entries_tokens(params.drop_last());
        let k = head.len() as int;
        assert(params.last() == params[i]);
        assert(query_entries_tokens(params).subrange(k, k + 12) =~= query_array_entry_tokens(
            params[i].1.name@,
        ));
    } else {
        assert(params.drop_last()[i] == params[i]);
        lemma_query_array_entry(params.drop_last(), i);
        let k = choose|k: int|
            0 <= k && k + 12 <= query_entries_tokens(params.drop_last()).len()
                && #[trigger] query_entries_tokens(params.drop_last()).subrange(k, k + 12)
                == query_array_entry_tokens(params[i].1.name@);
        assert(query_entries_tokens(params).subrange(k, k + 12) =~= query_entries_tokens(
            params.drop_last(),
        ).subrange(k, k + 12));
    }
}

/// The twelve tokens of one array-typed query entry.
pub open spec fn query_array_entry_tokens(name: Seq<char>) -> Seq<TokenShape> {
    seq![
        TokenShape::TripleDot,
        TokenShape::LeftParen,
        TokenShape::Identifier("params"@),
        TokenShape::LeftBracket,
        TokenShape::String(name),
        TokenShape::RightBracket,
        TokenShape::AndAnd,
        TokenShape::LeftParen,
        TokenShape::Raw(query_array_text(name)),
        TokenShape::RightParen,
        TokenShape::RightParen,
        TokenShape::Comma,
    ]
}

/// All routes, in extraction order.
pub open spec fn routes_tokens(rs: Seq<Route>) -> Seq<TokenShape>
    decreases rs.len(),
{
    if rs.len() == 0 {
        Seq::empty()
    } else {
        routes_tokens(rs.drop_last()) + route_tokens(&rs.last())
    }
}

/// The whole rendered program: the initialization function, the type
/// declarations, then one function per route.
pub open spec fn ast_tokens(a: &crate::ast::Ast) -> Seq<TokenShape> {
    schemes_tokens(a.schemes@) + types_tokens(a.types@) + routes_tokens(a.routes@)
}

// ---------------------------------------------------------------------------
// The token buffer
// ---------------------------------------------------------------------------

/// A flat sequence of output tokens.
pub struct Buffer {
    tokens: Vec<Token>,
}

impl View for Buffer {
    type V = Seq<TokenShape>;

    closed spec fn view(&self) -> Seq<TokenShape> {
        Seq::new(self.tokens@.len(), |i: int| self.tokens@[i]@)
    }
}

impl Buffer {
    pub fn new() -> (b: Buffer)
        ensures
            b@ == Seq::<TokenShape>::empty(),
    {
        let b = Buffer { tokens: Vec::new() };
        proof {
            assert(b@ =~= Seq::<TokenShape>::empty());
        }
        b
    }

    fn push(&mut self, t: Token)
        ensures
            final(self)@ == old(self)@.push(t@),
    {
        let ghost prev = self@;
        let ghost shape = t@;
        self.tokens.push(t);
        proof {
            assert(self@ =~= prev.push(shape));
        }
    }

    /// Appends every token of `tokens`, in order.
    pub fn extend(&mut self, tokens: Vec<Token>)
        ensures
            final(self)@ == old(self)@ + Seq::new(tokens@.len(), |i: int| tokens@[i]@),
    {
        let ghost all = Seq::new(tokens@.len(), |i: int| tokens@[i]@);
        let mut rest = tokens;
        let ghost mut i: int = 0;
        proof {
            assert(self@ =~= old(self)@ + all.take(0));
        }
        while rest.len() > 0
            invariant
                0 <= i,
                i + rest@.len() == all.len(),
                forall|j: int| 0 <= j < rest@.len() ==> rest@[j]@ == all[i + j],
                self@ == old(self)@ + all.take(i),
            decreases rest@.len(),
        {
            let t = rest.remove(0);
            let ghost shape = t@;
            self.push(t);
            proof {
                i = i + 1;
                assert(all.take(i) =~= all.take(i - 1).push(all[i - 1]));
                assert(self@ =~= old(self)@ + all.take(i));
            }
        }
        proof {
            assert(all.take(i) =~= all);
        }
    }

    pub fn or(&mut self)
        ensures
            final(self)@ == old(self)@.push(TokenShape::Or),
    {
        self.push(Token::Or);
    }

    pub fn colon(&mut self)
        ensures
            final(self)@ == old(self)@.push(TokenShape::Colon),
    {
        self.push(Token::Colon);
    }

    pub fn equals(&mut self)
        ensures
            final(self)@ == old(self)@.push(TokenShape::Equals),
    {
        self.push(Token::Equals);
    }

    pub fn question(&mut self)
        ensures
            final(self)@ == old(self)@.push(TokenShape::Question),
    {
        self.push(Token::Question);
    }

    pub fn comma(&mut self)
        ensures
            final(self)@ == old(self)@.push(TokenShape::Comma),
    {
        self.push(Token::Comma);
    }

    pub fn dot(&mut self)
        ensures
            final(self)@ == old(self)@.push(TokenShape::Dot),
    {
        self.push(Token::Dot);
    }

    pub fn triple_dot(&mut self)
        ensures
            final(self)@ == old(self)@.push(TokenShape::TripleDot),
    {
        self.push(Token::TripleDot);
    }

    pub fn and_and(&mut self)
        ensures
            final(self)@ == old(self)@.push(TokenShape::AndAnd),
    {
        self.push(Token::AndAnd);
    }

    pub fn semicolon(&mut self)
        ensures
            final(self)@ == old(self)@.push(TokenShape::Semicolon),
    {
        self.push(Token::Semicolon);
    }

    pub fn left_brace(&mut self)
        ensures
            final(self)@ == old(self)@.push(TokenShape::LeftBrace),
    {
        self.push(Token::LeftBrace);
    }

    pub fn right_brace(&mut self)
        ensures
            final(self)@ == old(self)@.push(TokenShape::RightBrace),
    {
        self.push(Token::RightBrace);
    }

    /// `{}`
    pub fn braces0(&mut self)
        ensures
            final(self)@ == old(self)@.push(TokenShape::LeftBrace).push(TokenShape::RightBrace),
    {
        self.push(Token::LeftBrace);
        self.push(Token::RightBrace);
    }

    pub fn left_bracket(&mut self)
        ensures
            final(self)@ == old(self)@.push(TokenShape::LeftBracket),
    {
        self.push(Token::LeftBracket);
    }

    pub fn right_bracket(&mut self)
        ensures
            final(self)@ == old(self)@.push(TokenShape::RightBracket),
    {
        self.push(Token::RightBracket);
    }

    /// `[]`
    pub fn brackets0(&mut self)
        ensures
            final(self)@ == old(self)@.push(TokenShape::LeftBracket).push(
                TokenShape::RightBracket,
            ),
    {
        self.push(Token::LeftBracket);
        self.push(Token::RightBracket);
    }

    pub fn left_paren(&mut self)
        ensures
            final(self)@ == old(self)@.push(TokenShape::LeftParen),
    {
        self.push(Token::LeftParen);
    }

    pub fn right_paren(&mut self)
        ensures
            final(self)@ == old(self)@.push(TokenShape::RightParen),
    {
        self.push(Token::RightParen);
    }

    /// `()`
    pub fn parens0(&mut self)
        ensures
            final(self)@ == old(self)@.push(TokenShape::LeftParen).push(TokenShape::RightParen),
    {
        self.push(Token::LeftParen);
        self.push(Token::RightParen);
    }

    /// `<`
    pub fn lower_than(&mut self)
        ensures
            final(self)@ == old(self)@.push(TokenShape::LowerThan),
    {
        self.push(Token::LowerThan);
    }

    /// `>`
    pub fn greater_than(&mut self)
        ensures
            final(self)@ == old(self)@.push(TokenShape::GreaterThan),
    {
        self.push(Token::GreaterThan);
    }

    pub fn identifier(&mut self, v: &str)
        ensures
            final(self)@ == old(self)@.push(TokenShape::Identifier(v@)),
    {
        self.push(Token::Identifier(v.to_owned()));
    }

    pub fn string(&mut self, v: &str)
        ensures
            final(self)@ == old(self)@.push(TokenShape::String(v@)),
    {
        self.push(Token::String(v.to_owned()));
    }

    pub fn doc(&mut self, v: &str)
        ensures
            final(self)@ == old(self)@.push(TokenShape::Doc(v@)),
    {
        self.push(Token::Doc(v.to_owned()));
    }

    pub fn raw(&mut self, v: &str)
        ensures
            final(self)@ == old(self)@.push(TokenShape::Raw(v@)),
    {
        self.push(Token::Raw(v.to_owned()));
    }

    /// The rendered text of the whole buffer: every token followed by one
    /// space.
    pub fn render(&self) -> (r: String)
        ensures
            r@ == tokens_text(self@),
    {
        let n = self.tokens.len();
        let mut out = String::new();
        let mut i: usize = 0;
        proof {
            assert(tokens_text(self@.take(0)) =~= Seq::<char>::empty());
        }
        while i < n
            invariant
                n == self.tokens@.len(),
                n == self@.len(),
                i <= n,
                out@ == tokens_text(self@.take(i as int)),
            decreases n - i,
        {
            push_token_text(&mut out, &self.tokens[i]);
            out.append(" ");
            i = i + 1;
            proof {
                let pre = self@.take(i as int);
                assert(pre.drop_last() =~= self@.take(i - 1));
                assert(pre.last() == self@[i - 1]);
                assert(self@[i - 1] == self.tokens@[i - 1]@);
                assert(out@ =~= tokens_text(pre));
            }
        }
        proof {
            assert(self@.take(n as int) =~= self@);
        }
        out
    }
}

/// Appends the text of one token to `out`.
fn push_token_text(out: &mut String, t: &Token)
    ensures
        final(out)@ == old(out)@ + token_text(t@),
{
    match t {
        Token::Or => out.append("|"),
        Token::Colon => out.append(":"),
        Token::Equals => out.append("="),
        Token::Question => out.append("?"),
        Token::Comma => out.append(","),
        Token::Dot => out.append("."),
        Token::TripleDot => out.append("..."),
        Token::AndAnd => out.append("&&"),
        Token::Semicolon => out.append(";"),
        Token::LeftBrace => out.append("{"),
        Token::RightBrace => out.append("}"),
        Token::LeftBracket => out.append("["),
        Token::RightBracket => out.append("]"),
        Token::LeftParen => out.append("("),
        Token::RightParen => out.append(")"),
        Token::LowerThan => out.append("<"),
        Token::GreaterThan => out.append(">"),
        Token::Identifier(s) => out.append(s.as_str()),
        Token::String(s) => {
            out.append("'");
            out.append(s.as_str());
            out.append("'");
        },
        Token::Doc(d) => {
            out.append("\n/**");
            out.append("\n");
            push_doc_lines(out, d.as_str());
            out.append("*/");
            out.append("\n");
        },
        Token::Raw(s) => out.append(s.as_str()),
    }
}

// ---------------------------------------------------------------------------
// Emission
// ---------------------------------------------------------------------------

/// A part of the intermediate representation that renders to tokens.
pub trait Emit {
    /// The tokens this value renders to.
    spec fn tokens(&self) -> Seq<TokenShape>;

    /// Appends the rendered tokens to the buffer.
    fn emit(&self, buffer: &mut Buffer)
        ensures
            final(buffer)@ == old(buffer)@ + self.tokens(),
    ;
}

/// Renders one value as source text: its tokens, space-separated and
/// trimmed at the ends.
pub fn emit<E: Emit>(input: &E) -> (r: String)
    ensures
        r@ == trim_of(tokens_text(input.tokens())),
{
    let mut buffer = Buffer::new();
    input.emit(&mut buffer);
    trim_in_place(buffer.render())
}

/// Appends the token sequence of one type expression.
#[verifier::loop_isolation(false)]
#[verifier::rlimit(100)]
pub fn emit_type(t: &Type, buffer: &mut Buffer)
    ensures
        final(buffer)@ == old(buffer)@ + shape_tokens(t@),
    decreases *t,
{
    match t {
        Type::Any => buffer.identifier("any"),
        Type::Number => buffer.identifier("number"),
        Type::String => buffer.identifier("string"),
        Type::Boolean => buffer.identifier("boolean"),
        Type::Enum(vs) => {
            buffer.left_paren();
            let ghost mvs = strings_shape(vs@);
            let n = vs.len();
            let mut i: usize = 0;
            while i < n
                invariant
                    i <= n,
                    buffer@ == old(buffer)@.push(TokenShape::LeftParen) + enum_variant_tokens(
                        mvs.take(i as int),
                    ),
                decreases n - i,
            {
                if i > 0 {
                    buffer.or();
                }
                buffer.string(vs[i].as_str());
                i = i + 1;
                proof {
                    assert(mvs.take(i as int).drop_last() =~= mvs.take(i - 1));
                    assert(mvs.take(i as int).last() == vs@[i - 1]@);
                    assert(buffer@ =~= old(buffer)@.push(TokenShape::LeftParen)
                        + enum_variant_tokens(mvs.take(i as int)));
                }
            }
            proof {
                assert(mvs.take(n as int) =~= mvs);
            }
            buffer.right_paren();
            proof {
                assert(buffer@ =~= old(buffer)@ + shape_tokens(t@));
            }
        },
        Type::Array(b) => {
            buffer.left_paren();
            emit_type_ref(&**b, buffer);
            buffer.right_paren();
            buffer.brackets0();
            proof {
                assert(buffer@ =~= old(buffer)@ + shape_tokens(t@));
            }
        },
        Type::Object(fields) => {
            buffer.left_paren();
            buffer.left_brace();
            let ghost fs = fields_shape(fields@);
            proof {
                lemma_fields_shape(fields@);
            }
            let n = fields.len();
            let mut i: usize = 0;
            while i < n
                invariant
                    i <= n,
                    buffer@ == old(buffer)@ + seq![TokenShape::LeftParen, TokenShape::LeftBrace]
                        + obj_fields_tokens(fs.take(i as int)),
                decreases n - i,
            {
                buffer.string(fields[i].0.as_str());
                if matches!(&fields[i].1, TypeRef::Type(Type::Optional(..))) {
                    buffer.question();
                }
                buffer.colon();
                emit_type_ref(&fields[i].1, buffer);
                buffer.comma();
                i = i + 1;
                proof {
                    assert(fs.take(i as int).drop_last() =~= fs.take(i - 1));
                    assert(fs.take(i as int).last() == fs[i - 1]);
                    assert(buffer@ =~= old(buffer)@ + seq![
                        TokenShape::LeftParen,
                        TokenShape::LeftBrace,
                    ] + obj_fields_tokens(fs.take(i as int)));
                }
            }
            proof {
                assert(fs.take(n as int) =~= fs);
            }
            buffer.right_brace();
            buffer.right_paren();
            proof {
                assert(buffer@ =~= old(buffer)@ + shape_tokens(t@));
            }
        },
        Type::Union(parts) => {
            buffer.left_paren();
            let ghost ps = refs_shape(parts@);
            proof {
                lemma_refs_shape(parts@);
            }
            let n = parts.len();
            let mut i: usize = 0;
            while i < n
                invariant
                    i <= n,
                    buffer@ == old(buffer)@.push(TokenShape::LeftParen) + union_tokens(
                        ps.take(i as int),
                    ),
                decreases n - i,
            {
                if i > 0 {
                    buffer.or();
                }
                emit_type_ref(&parts[i], buffer);
                i = i + 1;
                proof {
                    assert(ps.take(i as int).drop_last() =~= ps.take(i - 1));
                    assert(ps.take(i as int).last() == ps[i - 1]);
                    assert(buffer@ =~= old(buffer)@.push(TokenShape::LeftParen) + union_tokens(
                        ps.take(i as int),
                    ));
                }
            }
            proof {
                assert(ps.take(n as int) =~= ps);
            }
            buffer.right_paren();
            proof {
                assert(buffer@ =~= old(buffer)@ + shape_tokens(t@));
            }
        },
        Type::Optional(b) => {
            buffer.left_paren();
            emit_type_ref(&**b, buffer);
            buffer.or();
            buffer.identifier("undefined");
            buffer.right_paren();
            proof {
                assert(buffer@ =~= old(buffer)@ + shape_tokens(t@));
            }
        },
    }
}

/// Appends the token sequence of a type reference.
pub fn emit_type_ref(r: &TypeRef, buffer: &mut Buffer)
    ensures
        final(buffer)@ == old(buffer)@ + shape_ref_tokens(r@),
    decreases *r,
{
    match r {
        TypeRef::Type(t) => {
            emit_type(t, buffer);
        },
        TypeRef::Ref(name) => {
            buffer.identifier(name.as_str());
            proof {
                assert(buffer@ =~= old(buffer)@ + shape_ref_tokens(r@));
            }
        },
    }
}

impl Emit for Type {
    open spec fn tokens(&self) -> Seq<TokenShape> {
        shape_tokens(self@)
    }

    fn emit(&self, buffer: &mut Buffer) {
        emit_type(self, buffer);
    }
}

impl Emit for TypeRef {
    open spec fn tokens(&self) -> Seq<TokenShape> {
        shape_ref_tokens(self@)
    }

    fn emit(&self, buffer: &mut Buffer) {
        emit_type_ref(self, buffer);
    }
}

impl Emit for (String, Type) {
    /// One registry entry as a declaration.
    open spec fn tokens(&self) -> Seq<TokenShape> {
        decl_tokens(self.0@, self.1@)
    }

    fn emit(&self, buffer: &mut Buffer) {
        buffer.identifier("export");
        buffer.identifier("type");
        buffer.identifier(self.0.as_str());
        buffer.equals();
        emit_type(&self.1, buffer);
        buffer.semicolon();
        proof {
            assert(buffer@ =~= old(buffer)@ + self.tokens());
        }
    }
}

impl Emit for crate::ast::Types {
    /// The whole type registry, one declaration per entry.
    open spec fn tokens(&self) -> Seq<TokenShape> {
        types_tokens(self@)
    }

    fn emit(&self, buffer: &mut Buffer) {
        let n = self.len();
        let mut i: usize = 0;
        proof {
            assert(buffer@ =~= old(buffer)@ + types_tokens(self@.take(0)));
        }
        while i < n
            invariant
                i <= n,
                n == self@.len(),
                buffer@ == old(buffer)@ + types_tokens(self@.take(i as int)),
            decreases n - i,
        {
            let entry = self.entry_at(i);
            buffer.identifier("export");
            buffer.identifier("type");
            buffer.identifier(entry.0.as_str());
            buffer.equals();
            emit_type(&entry.1, buffer);
            buffer.semicolon();
            i = i + 1;
            proof {
                assert(self@.take(i as int).drop_last() =~= self@.take(i - 1));
                assert(self@.take(i as int).last() == self@[i - 1]);
                assert(buffer@ =~= old(buffer)@ + types_tokens(self@.take(i as int)));
            }
        }
        proof {
            assert(self@.take(n as int) =~= self@);
        }
    }
}

impl Emit for crate::ast::SecuritySchemes {
    /// The two process-wide bindings and the `init` function.
    open spec fn tokens(&self) -> Seq<TokenShape> {
        schemes_tokens(self@)
    }

    #[verifier::loop_isolation(false)]
    fn emit(&self, buffer: &mut Buffer) {
        buffer.raw("let _baseUrl : string = \"\" ;");
        buffer.raw("let _authHeaders : Record < string , string > = { } ;");
        buffer.raw("export function init");
        buffer.left_paren();
        buffer.raw("baseUrl : string ,");
        let ghost base = buffer@;
        let n = self.len();
        let mut i: usize = 0;
        proof {
            assert(base + init_params_tokens(self@.take(0)) =~= base);
        }
        while i < n
            invariant
                i <= n,
                buffer@ == base + init_params_tokens(self@.take(i as int)),
            decreases n - i,
        {
            let entry = self.entry_at(i);
            buffer.identifier(entry.1.name.as_str());
            buffer.raw(": string ,");
            i = i + 1;
            proof {
                assert(self@.take(i as int).drop_last() =~= self@.take(i - 1));
                assert(self@.take(i as int).last() == self@[i - 1]);
                assert(buffer@ =~= base + init_params_tokens(self@.take(i as int)));
            }
        }
        proof {
            assert(self@.take(n as int) =~= self@);
        }
        buffer.right_paren();
        buffer.left_brace();
        buffer.raw("_baseUrl = baseUrl ;");
        buffer.raw("_authHeaders =");
        buffer.left_brace();
        let ghost base2 = buffer@;
        let mut i: usize = 0;
        proof {
            assert(base2 + init_headers_tokens(self@.take(0)) =~= base2);
        }
        while i < n
            invariant
                i <= n,
                buffer@ == base2 + init_headers_tokens(self@.take(i as int)),
            decreases n - i,
        {
            let entry = self.entry_at(i);
            buffer.string(entry.1.key.as_str());
            buffer.colon();
            buffer.identifier(entry.1.name.as_str());
            buffer.comma();
            i = i + 1;
            proof {
                assert(self@.take(i as int).drop_last() =~= self@.take(i - 1));
                assert(self@.take(i as int).last() == self@[i - 1]);
                assert(buffer@ =~= base2 + init_headers_tokens(self@.take(i as int)));
            }
        }
        proof {
            assert(self@.take(n as int) =~= self@);
        }
        buffer.right_brace();
        buffer.semicolon();
        buffer.right_brace();
        proof {
            assert(buffer@ =~= old(buffer)@ + schemes_tokens(self@));
        }
    }
}

/// Whether a parameter type renders with indexed bracket keys.
#[verifier::rlimit(100)]
fn is_array_query(ty: &TypeRef) -> (r: bool)
    ensures
        r == array_query_shape(ty@),
{
    proof {
        reveal_with_fuel(crate::ast::ref_shape, 3);
        reveal_with_fuel(crate::ast::ty_shape, 3);
    }
    match ty {
        TypeRef::Type(t) => match t {
            Type::Array(..) => true,
            Type::Optional(b) => match &**b {
                TypeRef::Type(t2) => matches!(t2, Type::Array(..)),
                TypeRef::Ref(..) => false,
            },
            _ => false,
        },
        TypeRef::Ref(..) => false,
    }
}

/// Appends the request-URL construction of one route.
#[verifier::loop_isolation(false)]
#[verifier::rlimit(100)]
pub fn emit_url(endpoint: &String, params: &crate::ast::Parameters, buffer: &mut Buffer)
    ensures
        final(buffer)@ == old(buffer)@ + url_tokens(endpoint@, params@),
{
    buffer.raw("const url = new URL");
    buffer.left_paren();
    buffer.identifier("_baseUrl");
    buffer.right_paren();
    buffer.semicolon();
    buffer.raw("url . pathname =");
    buffer.string(endpoint.as_str());
    let ghost base = buffer@;
    let n = params.len();
    let mut i: usize = 0;
    proof {
        assert(base + path_replace_tokens(params@.take(0)) =~= base);
    }
    while i < n
        invariant
            i <= n,
            buffer@ == base + path_replace_tokens(params@.take(i as int)),
        decreases n - i,
    {
        let entry = params.entry_at(i);
        if matches!(entry.1.kind, ParameterKind::Path) {
            buffer.raw(". replace");
            buffer.left_paren();
            let mut br = String::new();
            br.append("{");
            br.append(entry.1.name.as_str());
            br.append("}");
            proof {
                assert(br@ =~= braced(entry.1.name@));
            }
            buffer.string(br.as_str());
            buffer.comma();
            buffer.identifier("params");
            buffer.left_bracket();
            buffer.string(entry.1.name.as_str());
            buffer.right_bracket();
            buffer.right_paren();
        }
        i = i + 1;
        proof {
            assert(params@.take(i as int).drop_last() =~= params@.take(i - 1));
            assert(params@.take(i as int).last() == params@[i - 1]);
            assert(buffer@ =~= base + path_replace_tokens(params@.take(i as int)));
        }
    }
    proof {
        assert(params@.take(n as int) =~= params@);
    }
    buffer.semicolon();
    let mut hasq = false;
    let mut j: usize = 0;
    while j < n
        invariant
            j <= n,
            hasq == exists|m: int| 0 <= m < j && params@[m].1.kind is Query,
        decreases n - j,
    {
        if matches!(params.entry_at(j).1.kind, ParameterKind::Query) {
            hasq = true;
        }
        j = j + 1;
    }
    proof {
        assert(hasq == has_query_param(params@));
    }
    if hasq {
        buffer.raw("url . search = new URLSearchParams");
        buffer.left_paren();
        buffer.left_brace();
        let ghost base2 = buffer@;
        let mut i: usize = 0;
        proof {
            assert(base2 + query_entries_tokens(params@.take(0)) =~= base2);
        }
        while i < n
            invariant
                i <= n,
                buffer@ == base2 + query_entries_tokens(params@.take(i as int)),
            decreases n - i,
        {
            let entry = params.entry_at(i);
            if matches!(entry.1.kind, ParameterKind::Query) {
                buffer.triple_dot();
                buffer.left_paren();
                buffer.identifier("params");
                buffer.left_bracket();
                buffer.string(entry.1.name.as_str());
                buffer.right_bracket();
                buffer.and_and();
                buffer.left_paren();
                let name = entry.1.name.as_str();
                if is_array_query(&entry.1.ty) {
                    let mut t = String::new();
                    t.append("Object . fromEntries ( params [ '");
                    t.append(name);
                    t.append("' ] . map ( ( v , i ) => [ `");
                    t.append(name);
                    t.append("[${i}]` , v . toString ( ) ] ) )");
                    proof {
                        assert(t@ =~= query_array_text(entry.1.name@));
                    }
                    buffer.raw(t.as_str());
                } else {
                    let mut t = String::new();
                    t.append("{ '");
                    t.append(name);
                    t.append("' : params [ '");
                    t.append(name);
                    t.append("' ] . toString ( ) }");
                    proof {
                        assert(t@ =~= query_plain_text(entry.1.name@));
                    }
                    buffer.raw(t.as_str());
                }
                buffer.right_paren();
                buffer.right_paren();
                buffer.comma();
            }
            i = i + 1;
            proof {
                assert(params@.take(i as int).drop_last() =~= params@.take(i - 1));
                assert(params@.take(i as int).last() == params@[i - 1]);
                assert(buffer@ =~= base2 + query_entries_tokens(params@.take(i as int)));
            }
        }
        proof {
            assert(params@.take(n as int) =~= params@);
        }
        buffer.right_brace();
        buffer.right_paren();
        buffer.dot();
        buffer.identifier("toString");
        buffer.parens0();
        buffer.semicolon();
        proof {
            assert(buffer@ =~= old(buffer)@ + url_tokens(endpoint@, params@));
        }
    } else {
        proof {
            assert(buffer@ =~= old(buffer)@ + url_tokens(endpoint@, params@));
        }
    }
}

/// Appends the documentation block of one route.
#[verifier::loop_isolation(false)]
fn emit_doc_block(r: &Route, buffer: &mut Buffer)
    ensures
        final(buffer)@ == old(buffer)@ + doc_block_tokens(r),
{
    let desc = match &r.description {
        Option::Some(desc) => desc,
        Option::None => {
            return ;
        },
    };
    if r.request_body.len() == 0 {
        buffer.doc(desc.as_str());
        return ;
    }
    let body = &r.request_body[0];
    if !matches!(body.mime_type, crate::ast::MimeType::Multipart_FormData) {
        buffer.doc(desc.as_str());
        return ;
    }
    let mut doc = desc.clone();
    doc.append("\n\nForm data:\n");
    match &body.ty {
        TypeRef::Type(Type::Object(fields)) => {
            let ghost fs = fields_shape(fields@);
            proof {
                lemma_fields_shape(fields@);
                assert(doc@ + form_lines(fs.take(0)) =~= doc@);
            }
            let ghost head = doc@;
            let n = fields.len();
            let mut i: usize = 0;
            while i < n
                invariant
                    i <= n,
                    doc@ == head + form_lines(fs.take(i as int)),
                decreases n - i,
            {
                doc.append("- ");
                doc.append(fields[i].0.as_str());
                doc.append(" (");
                let mut inner = Buffer::new();
                emit_type_ref(&fields[i].1, &mut inner);
                let rendered = trim_in_place(inner.render());
                doc.append(rendered.as_str());
                doc.append(")");
                doc.append("\n");
                i = i + 1;
                proof {
                    assert(fs.take(i as int).drop_last() =~= fs.take(i - 1));
                    assert(fs.take(i as int).last() == fs[i - 1]);
                    assert(doc@ =~= head + form_lines(fs.take(i as int)));
                }
            }
            proof {
                assert(fs.take(n as int) =~= fs);
            }
        },
        _ => {
            proof {
                assert(doc@ =~= desc@ + "\n\nForm data:\n"@ + form_fields_text(body.ty@));
            }
        },
    }
    buffer.doc(doc.as_str());
    proof {
        assert(buffer@ =~= old(buffer)@ + doc_block_tokens(r));
    }
}

/// Appends the `params` object argument of the generated function.
#[verifier::loop_isolation(false)]
fn emit_sig_params(params: &crate::ast::Parameters, buffer: &mut Buffer)
    ensures
        final(buffer)@ == old(buffer)@ + sig_params_block(params@),
{
    if params.is_empty() {
        proof {
            assert(buffer@ =~= old(buffer)@ + sig_params_block(params@));
        }
        return ;
    }
    let n = params.len();
    buffer.raw("params :");
    buffer.left_brace();
    let ghost base = buffer@;
    let mut i: usize = 0;
    proof {
        assert(base + params_sig_tokens(params@.take(0)) =~= base);
    }
    while i < n
        invariant
            i <= n,
            buffer@ == base + params_sig_tokens(params@.take(i as int)),
        decreases n - i,
    {
        let entry = params.entry_at(i);
        buffer.string(entry.1.name.as_str());
        buffer.colon();
        emit_type_ref(&entry.1.ty, buffer);
        buffer.comma();
        i = i + 1;
        proof {
            assert(params@.take(i as int).drop_last() =~= params@.take(i - 1));
            assert(params@.take(i as int).last() == params@[i - 1]);
            assert(buffer@ =~= base + params_sig_tokens(params@.take(i as int)));
        }
    }
    proof {
        assert(params@.take(n as int) =~= params@);
    }
    buffer.right_brace();
    buffer.comma();
    proof {
        assert(buffer@ =~= old(buffer)@ + sig_params_block(params@));
    }
}

/// Appends the header-map entries of the header-kind parameters.
#[verifier::loop_isolation(false)]
fn emit_header_params(params: &crate::ast::Parameters, buffer: &mut Buffer)
    ensures
        final(buffer)@ == old(buffer)@ + header_params_tokens(params@),
{
    let n = params.len();
    let mut i: usize = 0;
    proof {
        assert(old(buffer)@ + header_params_tokens(params@.take(0)) =~= old(buffer)@);
    }
    while i < n
        invariant
            i <= n,
            buffer@ == old(buffer)@ + header_params_tokens(params@.take(i as int)),
        decreases n - i,
    {
        let entry = params.entry_at(i);
        if matches!(entry.1.kind, ParameterKind::Header) {
            buffer.string(entry.1.name.as_str());
            buffer.colon();
            buffer.identifier("params");
            buffer.left_bracket();
            buffer.string(entry.1.name.as_str());
            buffer.right_bracket();
            buffer.comma();
        }
        i = i + 1;
        proof {
            assert(params@.take(i as int).drop_last() =~= params@.take(i - 1));
            assert(params@.take(i as int).last() == params@[i - 1]);
            assert(buffer@ =~= old(buffer)@ + header_params_tokens(params@.take(i as int)));
        }
    }
    proof {
        assert(params@.take(n as int) =~= params@);
    }
}

/// Appends the head of the generated function: documentation, name and
/// arguments.
#[verifier::rlimit(100)]
fn emit_route_head(r: &Route, buffer: &mut Buffer)
    ensures
        final(buffer)@ == old(buffer)@ + route_head_tokens(r),
{
    emit_doc_block(r, buffer);
    buffer.raw("export async function");
    buffer.identifier(r.name.as_str());
    buffer.left_paren();
    emit_sig_params(&r.parameters, buffer);
    if r.request_body.len() > 0 {
        let b = &r.request_body[0];
        buffer.identifier("body");
        buffer.colon();
        match b.mime_type {
            crate::ast::MimeType::Multipart_FormData => buffer.identifier("FormData"),
            crate::ast::MimeType::Application_Json => emit_type_ref(&b.ty, buffer),
            crate::ast::MimeType::Text_Plain => buffer.identifier("string"),
            crate::ast::MimeType::Application_FormUrlEncoded => {},
        }
        buffer.comma();
    }
    buffer.right_paren();
    buffer.colon();
    buffer.identifier("Promise");
    buffer.lower_than();
    buffer.identifier("Response");
    buffer.greater_than();
    buffer.left_brace();
    proof {
        assert(buffer@ =~= old(buffer)@ + route_head_tokens(r));
    }
}

/// Appends the fetch call of one route.
#[verifier::rlimit(100)]
fn emit_fetch(r: &Route, buffer: &mut Buffer)
    ensures
        final(buffer)@ == old(buffer)@ + fetch_tokens(r),
{
    buffer.raw("return await fetch");
    buffer.left_paren();
    buffer.raw("url . toString ( )");
    buffer.comma();
    buffer.left_brace();
    buffer.identifier("method");
    buffer.colon();
    buffer.string(r.method.as_str());
    buffer.comma();
    buffer.identifier("headers");
    buffer.colon();
    buffer.left_brace();
    buffer.raw("... _authHeaders ,");
    if r.request_body.len() > 0 {
        match r.request_body[0].mime_type {
            crate::ast::MimeType::Application_Json => {
                buffer.raw("'Content-Type' : 'application/json' ,");
            },
            crate::ast::MimeType::Text_Plain => {
                buffer.raw("'Content-Type' : 'text/plain' ,");
            },
            _ => {},
        }
    }
    emit_header_params(&r.parameters, buffer);
    buffer.right_brace();
    buffer.comma();
    if r.request_body.len() > 0 {
        buffer.identifier("body");
        buffer.colon();
        match r.request_body[0].mime_type {
            crate::ast::MimeType::Application_Json => buffer.raw("JSON . stringify ( body )"),
            crate::ast::MimeType::Multipart_FormData => buffer.identifier("body"),
            crate::ast::MimeType::Text_Plain => buffer.identifier("body"),
            crate::ast::MimeType::Application_FormUrlEncoded => {},
        }
        buffer.comma();
    }
    buffer.right_brace();
    buffer.right_paren();
    proof {
        assert(buffer@ =~= old(buffer)@ + fetch_tokens(r));
    }
}

/// Appends the whole generated function of one route.
pub fn emit_route(r: &Route, buffer: &mut Buffer)
    ensures
        final(buffer)@ == old(buffer)@ + route_tokens(r),
{
    emit_route_head(r, buffer);
    emit_url(&r.endpoint, &r.parameters, buffer);
    emit_fetch(r, buffer);
    buffer.right_brace();
    proof {
        assert(buffer@ =~= old(buffer)@ + route_tokens(r));
    }
}

impl Emit for Route {
    /// The generated client function of this route.
    open spec fn tokens(&self) -> Seq<TokenShape> {
        route_tokens(self)
    }

    fn emit(&self, buffer: &mut Buffer) {
        emit_route(self, buffer);
    }
}

impl Emit for crate::ast::Routes {
    /// Every route's generated function, in extraction order.
    open spec fn tokens(&self) -> Seq<TokenShape> {
        routes_tokens(self@)
    }

    #[verifier::loop_isolation(false)]
    fn emit(&self, buffer: &mut Buffer) {
        let n = self.len();
        let mut i: usize = 0;
        proof {
            assert(buffer@ =~= old(buffer)@ + routes_tokens(self@.take(0)));
        }
        while i < n
            invariant
                i <= n,
                buffer@ == old(buffer)@ + routes_tokens(self@.take(i as int)),
            decreases n - i,
        {
            emit_route(&self[i], buffer);
            i = i + 1;
            proof {
                assert(self@.take(i as int).drop_last() =~= self@.take(i - 1));
                assert(self@.take(i as int).last() == self@[i - 1]);
                assert(buffer@ =~= old(buffer)@ + routes_tokens(self@.take(i as int)));
            }
        }
        proof {
            assert(self@.take(n as int) =~= self@);
        }
    }
}

impl Emit for crate::ast::Ast {
    /// The whole program: initialization, type declarations, routes.
    open spec fn tokens(&self) -> Seq<TokenShape> {
        ast_tokens(self)
    }

    fn emit(&self, buffer: &mut Buffer) {
        self.schemes.emit(buffer);
        self.types.emit(buffer);
        self.routes.emit(buffer);
        proof {
            assert(buffer@ =~= old(buffer)@ + ast_tokens(self));
        }
    }
}

/// Appends the ` * `-prefixed lines of a documentation body to `out`.
fn push_doc_lines(out: &mut String, d: &str)
    ensures
        final(out)@ == old(out)@ + doc_lines(d@),
{
    let n = d.unicode_len();
    let mut p: usize = 0;
    proof {
        assert(d@.skip(0) =~= d@);
    }
    loop
        invariant_except_break
            n == d@.len(),
            p <= n,
            old(out)@ + doc_lines(d@) == out@ + doc_lines(d@.skip(p as int)),
        ensures
            out@ == old(out)@ + doc_lines(d@),
        decreases n - p,
    {
        let mut j: usize = p;
        while j < n && d.get_char(j) != '\n'
            invariant
                n == d@.len(),
                p <= j <= n,
                forall|m: int| p <= m < j ==> d@[m] != '\n',
            decreases n - j,
        {
            j = j + 1;
        }
        proof {
            let rest = d@.skip(p as int);
            assert(forall|m: int| 0 <= m < j - p ==> rest[m] == d@[m + p] && rest[m] != '\n');
            if j < n {
                assert(rest[j - p] == d@[j as int]);
            }
            lemma_nl_index_at(rest, j - p);
        }
        out.append(" * ");
        out.append(d.substring_char(p, j));
        out.append("\n");
        if j >= n {
            proof {
                let rest = d@.skip(p as int);
                assert(d@.subrange(p as int, j as int) =~= rest);
                assert(doc_lines(rest) == " * "@ + rest + "\n"@);
                assert(out@ =~= old(out)@ + doc_lines(d@));
            }
            break ;
        }
        proof {
            let rest = d@.skip(p as int);
            assert(d@.subrange(p as int, j as int) =~= rest.take(j - p));
            assert(rest.skip(j - p + 1) =~= d@.skip(j + 1));
            assert(doc_lines(rest) == " * "@ + rest.take(j - p) + "\n"@ + doc_lines(
                rest.skip(j - p + 1),
            ));
            assert(out@ + doc_lines(d@.skip(j + 1)) =~= old(out)@ + doc_lines(d@));
        }
        p = j + 1;
    }
}

} // verus!
