//! Diagnostics: a dotted scope path built while the source tree is walked,
//! and the diagnostic kinds that resolution can record.

use vstd::prelude::*;

verus! {

broadcast use vstd::std_specs::vec::group_vec_axioms, vstd::seq::group_seq_axioms;

use vstd::string::StringExecFns;

// ---------------------------------------------------------------------------
// Scopes
// ---------------------------------------------------------------------------

/// The stack of named scope segments leading to the place a diagnostic
/// originated. A segment may be anonymous.
#[derive(PartialEq, Eq, Debug)]
pub struct Scope {
    segments: Vec<Option<String>>,
}

impl View for Scope {
    type V = Seq<Option<Seq<char>>>;

    closed spec fn view(&self) -> Seq<Option<Seq<char>>> {
        Seq::new(
            self.segments@.len(),
            |i: int|
                match self.segments@[i] {
                    Option::Some(s) => Option::Some(s@),
                    Option::None => Option::None,
                },
        )
    }
}

/// The named segments of a scope, in order.
pub open spec fn scope_names(segs: Seq<Option<Seq<char>>>) -> Seq<Seq<char>>
    decreases segs.len(),
{
    if segs.len() == 0 {
        Seq::empty()
    } else {
        scope_names(segs.drop_last()) + (match segs.last() {
            Option::Some(n) => seq![n],
            Option::None => Seq::empty(),
        })
    }
}

/// Names joined with `.`.
pub open spec fn joined_names(names: Seq<Seq<char>>) -> Seq<char>
    decreases names.len(),
{
    if names.len() == 0 {
        Seq::empty()
    } else if names.len() == 1 {
        names[0]
    } else {
        joined_names(names.drop_last()) + "."@ + names.last()
    }
}

/// The rendered text of a scope: its named segments joined with `.`, or
/// `(unscoped)` when none are named.
pub open spec fn scope_text(segs: Seq<Option<Seq<char>>>) -> Seq<char> {
    if scope_names(segs).len() == 0 {
        "(unscoped)"@
    } else {
        joined_names(scope_names(segs))
    }
}

impl Scope {
    /// An empty scope.
    pub fn new() -> (s: Scope)
        ensures
            s@ == Seq::<Option<Seq<char>>>::empty(),
    {
        let s = Scope { segments: Vec::new() };
        proof {
            assert(s@ =~= Seq::<Option<Seq<char>>>::empty());
        }
        s
    }

    /// A copy of the scope, segment for segment.
    pub fn duplicate(&self) -> (s: Scope)
        ensures
            s@ == self@,
    {
        let n = self.segments.len();
        let mut out: Vec<Option<String>> = Vec::new();
        let mut i: usize = 0;
        while i < n
            invariant
                n == self.segments@.len(),
                i <= n,
                out@.len() == i,
                forall|j: int| 0 <= j < i ==> out@[j] == self.segments@[j],
            decreases n - i,
        {
            let seg = match &self.segments[i] {
                Option::Some(s) => Option::Some(s.clone()),
                Option::None => Option::None,
            };
            out.push(seg);
            i = i + 1;
        }
        let s = Scope { segments: out };
        proof {
            assert(s@ =~= self@);
        }
        s
    }

    /// Pushes a named segment.
    pub fn named(&mut self, name: String)
        ensures
            final(self)@ == old(self)@.push(Option::Some(name@)),
    {
        let ghost prev = self@;
        self.segments.push(Option::Some(name));
        proof {
            assert(self@ =~= prev.push(Option::Some(name@)));
        }
    }

    /// Pushes a segment that may be anonymous.
    pub fn named_opt(&mut self, name: Option<String>)
        ensures
            final(self)@ == old(self)@.push(
                match name {
                    Option::Some(n) => Option::Some(n@),
                    Option::None => Option::None,
                },
            ),
    {
        let ghost prev = self@;
        let ghost entry = match &name {
            Option::Some(n) => Option::Some(n@),
            Option::None => Option::<Seq<char>>::None,
        };
        self.segments.push(name);
        proof {
            assert(self@ =~= prev.push(entry));
        }
    }

    /// Pops the innermost segment; an empty scope stays empty.
    pub fn pop(&mut self)
        ensures
            old(self)@.len() > 0 ==> final(self)@ == old(self)@.drop_last(),
            old(self)@.len() == 0 ==> final(self)@ == old(self)@,
    {
        let ghost prev = self@;
        if self.segments.len() > 0 {
            let n = self.segments.len();
            self.segments.truncate(n - 1);
            proof {
                assert(self@ =~= prev.drop_last());
            }
        }
    }

    /// The rendered text of the scope.
    pub fn render(&self) -> (r: String)
        ensures
            r@ == scope_text(self@),
    {
        let n = self.segments.len();
        let mut out = String::new();
        let mut first = true;
        let mut i: usize = 0;
        proof {
            assert(scope_names(self@.take(0)) =~= Seq::<Seq<char>>::empty());
        }
        while i < n
            invariant
                n == self.segments@.len(),
                n == self@.len(),
                i <= n,
                first == (scope_names(self@.take(i as int)).len() == 0),
                !first ==> out@ == joined_names(scope_names(self@.take(i as int))),
                first ==> out@ == Seq::<char>::empty(),
            decreases n - i,
        {
            let ghost prefix = scope_names(self@.take(i as int));
            match &self.segments[i] {
                Option::Some(name) => {
                    if !first {
                        out.append(".");
                    }
                    out.append(name.as_str());
                    first = false;
                },
                Option::None => {},
            }
            i = i + 1;
            proof {
                assert(self@.take(i as int).drop_last() =~= self@.take(i - 1));
                assert(self@.take(i as int).last() == self@[i - 1]);
                let names = scope_names(self@.take(i as int));
                match self@[i - 1] {
                    Option::Some(nm) => {
                        assert(names =~= prefix.push(nm));
                        if prefix.len() == 0 {
                            assert(out@ =~= joined_names(names));
                        } else {
                            assert(names.drop_last() =~= prefix);
                            assert(out@ =~= joined_names(names));
                        }
                    },
                    Option::None => {
                        assert(names =~= prefix);
                    },
                }
            }
        }
        proof {
            assert(self@.take(n as int) =~= self@);
        }
        if first {
            let r = "(unscoped)".to_owned();
            return r;
        }
        out
    }
}

impl Default for Scope {
    /// An empty scope.
    fn default() -> (s: Scope)
        ensures
            s@ == Seq::<Option<Seq<char>>>::empty(),
    {
        Scope::new()
    }
}

// ---------------------------------------------------------------------------
// Diagnostic kinds
// ---------------------------------------------------------------------------

/// What went wrong at one place of the source tree.
#[derive(PartialEq, Eq, Debug)]
pub enum ErrorKind {
    /// A reference stood where only an inline item is supported.
    UnsupportedReference(String),
    /// A reference whose name is declared nowhere.
    UnresolvedReference(String),
    /// A required field is missing.
    RequiredField(String),
    /// A required field is missing, though another could stand in for it.
    RequiredFieldOr(String, String),
    /// A field holds a value outside the supported ones.
    InvalidValue(String, String),
    /// The same field name arrived from two merged fragments.
    DuplicateKeys(Vec<String>),
    /// A construct this system does not support.
    Unsupported(String),
    /// Anything else.
    Generic(String),
}

/// The model of a diagnostic kind.
pub enum ErrorKindShape {
    UnsupportedReference(Seq<char>),
    UnresolvedReference(Seq<char>),
    RequiredField(Seq<char>),
    RequiredFieldOr(Seq<char>, Seq<char>),
    InvalidValue(Seq<char>, Seq<char>),
    DuplicateKeys(Seq<Seq<char>>),
    Unsupported(Seq<char>),
    Generic(Seq<char>),
}

impl View for ErrorKind {
    type V = ErrorKindShape;

    open spec fn view(&self) -> ErrorKindShape {
        match self {
            ErrorKind::UnsupportedReference(s) => ErrorKindShape::UnsupportedReference(s@),
            ErrorKind::UnresolvedReference(s) => ErrorKindShape::UnresolvedReference(s@),
            ErrorKind::RequiredField(s) => ErrorKindShape::RequiredField(s@),
            ErrorKind::RequiredFieldOr(a, b) => ErrorKindShape::RequiredFieldOr(a@, b@),
            ErrorKind::InvalidValue(a, b) => ErrorKindShape::InvalidValue(a@, b@),
            ErrorKind::DuplicateKeys(ks) => ErrorKindShape::DuplicateKeys(
                crate::ast::strings_shape(ks@),
            ),
            ErrorKind::Unsupported(s) => ErrorKindShape::Unsupported(s@),
            ErrorKind::Generic(s) => ErrorKindShape::Generic(s@),
        }
    }
}

/// Keys quoted and joined as a list, the way a duplicate-key diagnostic
/// shows them.
pub open spec fn keys_list_text(ks: Seq<Seq<char>>) -> Seq<char>
    decreases ks.len(),
{
    if ks.len() == 0 {
        Seq::empty()
    } else if ks.len() == 1 {
        "\""@ + ks[0] + "\""@
    } else {
        keys_list_text(ks.drop_last()) + ", "@ + "\""@ + ks.last() + "\""@
    }
}

/// The message of a diagnostic kind.
pub open spec fn kind_text(k: ErrorKindShape) -> Seq<char> {
    match k {
        ErrorKindShape::UnsupportedReference(s) => "references may not appear in `"@ + s + "`"@,
        ErrorKindShape::UnresolvedReference(s) => "could not resolve reference to `"@ + s + "`"@,
        ErrorKindShape::RequiredField(s) => "field `"@ + s + "` is required"@,
        ErrorKindShape::RequiredFieldOr(a, b) => "field `"@ + a
            + "` is required, but may be substituted with `"@ + b + "`"@,
        ErrorKindShape::InvalidValue(a, b) => "field `"@ + a + "` has invalid value `"@ + b
            + "`"@,
        ErrorKindShape::DuplicateKeys(ks) => "found duplicate keys: `["@ + keys_list_text(ks)
            + "]`"@,
        ErrorKindShape::Unsupported(s) => s + " is unsupported"@,
        ErrorKindShape::Generic(s) => s,
    }
}

impl ErrorKind {
    /// The rendered message of this kind.
    pub fn render(&self) -> (r: String)
        ensures
            r@ == kind_text(self@),
    {
        match self {
            ErrorKind::UnsupportedReference(s) => {
                let mut out = "references may not appear in `".to_owned();
                out.append(s.as_str());
                out.append("`");
                proof {
                    assert(out@ =~= kind_text(self@));
                }
                out
            },
            ErrorKind::UnresolvedReference(s) => {
                let mut out = "could not resolve reference to `".to_owned();
                out.append(s.as_str());
                out.append("`");
                proof {
                    assert(out@ =~= kind_text(self@));
                }
                out
            },
            ErrorKind::RequiredField(s) => {
                let mut out = "field `".to_owned();
                out.append(s.as_str());
                out.append("` is required");
                proof {
                    assert(out@ =~= kind_text(self@));
                }
                out
            },
            ErrorKind::RequiredFieldOr(a, b) => {
                let mut out = "field `".to_owned();
                out.append(a.as_str());
                out.append("` is required, but may be substituted with `");
                out.append(b.as_str());
                out.append("`");
                proof {
                    assert(out@ =~= kind_text(self@));
                }
                out
            },
            ErrorKind::InvalidValue(a, b) => {
                let mut out = "field `".to_owned();
                out.append(a.as_str());
                out.append("` has invalid value `");
                out.append(b.as_str());
                out.append("`");
                proof {
                    assert(out@ =~= kind_text(self@));
                }
                out
            },
            ErrorKind::DuplicateKeys(ks) => {
                let mut out = "found duplicate keys: `[".to_owned();
                let ghost all = crate::ast::strings_shape(ks@);
                let n = ks.len();
                let mut i: usize = 0;
                proof {
                    assert(keys_list_text(all.take(0)) =~= Seq::<char>::empty());
                }
                while i < n
                    invariant
                        n == ks@.len(),
                        i <= n,
                        all == crate::ast::strings_shape(ks@),
                        all.len() == n,
                        out@ == "found duplicate keys: `["@ + keys_list_text(
                            all.take(i as int),
                        ),
                    decreases n - i,
                {
                    if i > 0 {
                        out.append(", ");
                    }
                    out.append("\"");
                    out.append(ks[i].as_str());
                    out.append("\"");
                    i = i + 1;
                    proof {
                        assert(all.take(i as int).drop_last() =~= all.take(i - 1));
                        assert(all.take(i as int).last() == ks@[i - 1]@);
                        assert(out@ =~= "found duplicate keys: `["@ + keys_list_text(
                            all.take(i as int),
                        ));
                    }
                }
                proof {
                    assert(all.take(n as int) =~= all);
                }
                out.append("]`");
                proof {
                    assert(out@ =~= kind_text(self@));
                }
                out
            },
            ErrorKind::Unsupported(s) => {
                let mut out = s.clone();
                out.append(" is unsupported");
                out
            },
            ErrorKind::Generic(s) => s.clone(),
        }
    }
}

// ---------------------------------------------------------------------------
// Errors
// ---------------------------------------------------------------------------

/// One diagnostic: where it originated, and what went wrong.
#[derive(PartialEq, Eq, Debug)]
pub struct Error {
    pub scope: Scope,
    pub kind: ErrorKind,
}

/// The rendered text of one diagnostic.
pub open spec fn error_text(scope: Seq<Option<Seq<char>>>, kind: ErrorKindShape) -> Seq<char> {
    "Error in "@ + scope_text(scope) + ": "@ + kind_text(kind)
}

impl Error {
    pub fn new(scope: Scope, kind: ErrorKind) -> (e: Error)
        ensures
            e.scope@ == scope@,
            e.kind@ == kind@,
    {
        Error { scope, kind }
    }

    pub fn unsupported_ref(field: &str) -> (k: ErrorKind)
        ensures
            k@ == ErrorKindShape::UnsupportedReference(field@),
    {
        ErrorKind::UnsupportedReference(field.to_owned())
    }

    pub fn unresolved_ref(name: String) -> (k: ErrorKind)
        ensures
            k@ == ErrorKindShape::UnresolvedReference(name@),
    {
        ErrorKind::UnresolvedReference(name)
    }

    pub fn required_field(field: &str) -> (k: ErrorKind)
        ensures
            k@ == ErrorKindShape::RequiredField(field@),
    {
        ErrorKind::RequiredField(field.to_owned())
    }

    pub fn required_field_or(a: &str, b: &str) -> (k: ErrorKind)
        ensures
            k@ == ErrorKindShape::RequiredFieldOr(a@, b@),
    {
        ErrorKind::RequiredFieldOr(a.to_owned(), b.to_owned())
    }

    pub fn invalid_value(field: &str, value: String) -> (k: ErrorKind)
        ensures
            k@ == ErrorKindShape::InvalidValue(field@, value@),
    {
        ErrorKind::InvalidValue(field.to_owned(), value)
    }

    pub fn duplicate_keys(keys: Vec<String>) -> (k: ErrorKind)
        ensures
            k@ == ErrorKindShape::DuplicateKeys(crate::ast::strings_shape(keys@)),
    {
        ErrorKind::DuplicateKeys(keys)
    }

    pub fn unsupported(what: &str) -> (k: ErrorKind)
        ensures
            k@ == ErrorKindShape::Unsupported(what@),
    {
        ErrorKind::Unsupported(what.to_owned())
    }

    pub fn generic(error: &str) -> (k: ErrorKind)
        ensures
            k@ == ErrorKindShape::Generic(error@),
    {
        ErrorKind::Generic(error.to_owned())
    }

    /// The rendered text of this diagnostic.
    pub fn render(&self) -> (r: String)
        ensures
            r@ == error_text(self.scope@, self.kind@),
    {
        let mut out = "Error in ".to_owned();
        let scope = self.scope.render();
        out.append(scope.as_str());
        out.append(": ");
        let kind = self.kind.render();
        out.append(kind.as_str());
        proof {
            assert(out@ =~= error_text(self.scope@, self.kind@));
        }
        out
    }
}

} // verus!
