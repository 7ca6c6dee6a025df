//! Splits an annotation file into `Query` records. A file is a sequence
//! of query units: each unit holds one name declaration, at most one doc
//! declaration in either position, and the SQL text that follows up to
//! the next declaration. Malformed units are collected as errors; the
//! remaining units of the file still parse.

use vstd::prelude::*;

use crate::chars::chars_of;
use crate::chars::find_newline;
use crate::chars::find_space;
use crate::chars::is_space;
use crate::chars::is_space_char;
use crate::chars::lemma_find_newline_is;
use crate::chars::lemma_find_space_is;
use crate::chars::lemma_trim_empty_all_space;
use crate::chars::lemma_trim_space_prefix;
use crate::chars::string_of;
use crate::chars::trim_spec;
use crate::condblock::trim_slice;

verus! {

/// How the rows that a query returns are handed to the caller: decoded
/// into a caller-supplied type, passed through as raw rows, or mapped by
/// a caller-supplied transform. When a name declaration carries no kind
/// token the kind is `Untyped`.
#[derive(Clone, Debug, PartialEq, Eq, Structural)]
pub enum Kind {
    Typed,
    Untyped,
    Mapped,
}

/// The result shape of a query: all rows eagerly, exactly one, zero or
/// one, a streamed sequence, or no rows at all. When a name declaration
/// carries no method token the method is `Execute`.
#[derive(Clone, Debug, PartialEq, Eq, Structural)]
pub enum Method {
    FetchAll,
    FetchOne,
    FetchOptional,
    FetchMany,
    Execute,
}

/// Why a query unit was rejected.
#[derive(Clone, Debug, PartialEq, Eq, Structural)]
pub enum AnnotationErrorKind {
    /// The unit holds no name declaration at all.
    MissingName,
    /// The name declaration carries no identifier, or one that is not
    /// letters, digits and underscores starting with a non-digit.
    InvalidName,
    /// A token after the identifier is not a kind or method token, or
    /// repeats one already given.
    MalformedToken,
    /// A doc declaration stands on the last line of the input, which no
    /// newline ends.
    UnterminatedDoc,
}

/// The spec-level image of a `Query`.
#[verifier::ext_equal]
pub struct SpecQuery {
    pub name: Seq<char>,
    pub kind: Kind,
    pub method: Method,
    pub doc: Option<Seq<char>>,
    pub sql: Seq<char>,
}

/// The spec-level image of an `AnnotationError`.
#[verifier::ext_equal]
pub struct SpecAnnotationError {
    pub kind: AnnotationErrorKind,
    pub sql: Seq<char>,
}

/// One parsed query unit: its name, how its rows are handed back, its
/// result shape, its optional documentation, and its raw trimmed SQL
/// body.
#[derive(Clone, Debug)]
pub struct Query {
    pub name: String,
    pub kind: Kind,
    pub method: Method,
    pub doc: Option<String>,
    pub sql: String,
}

impl View for Query {
    type V = SpecQuery;

    open spec fn view(&self) -> SpecQuery {
        SpecQuery {
            name: self.name@,
            kind: self.kind,
            method: self.method,
            doc: match self.doc {
                Some(d) => Some(d@),
                None => None,
            },
            sql: self.sql@,
        }
    }
}

impl PartialEq for Query {
    fn eq(&self, other: &Query) -> (r: bool) {
        self.name == other.name && self.kind == other.kind && self.method == other.method && (
        match (&self.doc, &other.doc) {
            (Some(a), Some(b)) => *a == *b,
            (None, None) => true,
            _ => false,
        }) && self.sql == other.sql
    }
}

impl vstd::std_specs::cmp::PartialEqSpecImpl for Query {
    open spec fn obeys_eq_spec() -> bool {
        true
    }

    open spec fn eq_spec(&self, other: &Query) -> bool {
        self@ == other@
    }
}

/// One rejected query unit: why it failed and the trimmed SQL text of the
/// unit, kept for diagnostics.
#[derive(Clone, Debug)]
pub struct AnnotationError {
    pub kind: AnnotationErrorKind,
    pub sql: String,
}

impl View for AnnotationError {
    type V = SpecAnnotationError;

    open spec fn view(&self) -> SpecAnnotationError {
        SpecAnnotationError { kind: self.kind, sql: self.sql@ }
    }
}

impl PartialEq for AnnotationError {
    fn eq(&self, other: &AnnotationError) -> (r: bool) {
        self.kind == other.kind && self.sql == other.sql
    }
}

impl vstd::std_specs::cmp::PartialEqSpecImpl for AnnotationError {
    open spec fn obeys_eq_spec() -> bool {
        true
    }

    open spec fn eq_spec(&self, other: &AnnotationError) -> bool {
        self@ == other@
    }
}

/// The wording for each failure reason.
pub open spec fn kind_text(k: AnnotationErrorKind) -> Seq<char> {
    match k {
        AnnotationErrorKind::MissingName => ":name attribute is missing."@,
        AnnotationErrorKind::InvalidName => ":name attribute is not a valid identifier."@,
        AnnotationErrorKind::MalformedToken => "unknown kind or method token after :name."@,
        AnnotationErrorKind::UnterminatedDoc => ":doc attribute reaches the end of the input."@,
    }
}

/// The full diagnostic for an error: its reason, then the SQL text of
/// the unit it cites.
pub open spec fn spec_message(e: SpecAnnotationError) -> Seq<char> {
    kind_text(e.kind) + " Query: \""@ + e.sql + "\""@
}

impl AnnotationError {
    /// A readable account of the failure, citing the unit's SQL text.
    pub fn message(&self) -> (r: String)
        ensures
            r@ == spec_message(self@),
    {
        let mut r = String::new();
        match self.kind {
            AnnotationErrorKind::MissingName => r.append(":name attribute is missing."),
            AnnotationErrorKind::InvalidName => r.append(
                ":name attribute is not a valid identifier.",
            ),
            AnnotationErrorKind::MalformedToken => r.append(
                "unknown kind or method token after :name.",
            ),
            AnnotationErrorKind::UnterminatedDoc => r.append(
                ":doc attribute reaches the end of the input.",
            ),
        }
        r.append(" Query: \"");
        r.append(self.sql.as_str());
        r.append("\"");
        proof {
            assert(r@ =~= spec_message(self@));
        }
        r
    }
}

/// The views of a sequence of queries, in order.
pub open spec fn query_views(qs: Seq<Query>) -> Seq<SpecQuery> {
    qs.map_values(|q: Query| q@)
}

/// The views of a sequence of errors, in order.
pub open spec fn error_views(es: Seq<AnnotationError>) -> Seq<SpecAnnotationError> {
    es.map_values(|e: AnnotationError| e@)
}

/// An ASCII letter or underscore: what an identifier may start with.
pub open spec fn is_ident_start(c: char) -> bool {
    ||| ('a' as u32 <= c as u32 && c as u32 <= 'z' as u32)
    ||| ('A' as u32 <= c as u32 && c as u32 <= 'Z' as u32)
    ||| c == '_'
}

/// An ASCII letter, digit or underscore: what an identifier may go on
/// with.
pub open spec fn is_ident_char(c: char) -> bool {
    is_ident_start(c) || ('0' as u32 <= c as u32 && c as u32 <= '9' as u32)
}

/// A non-empty identifier: letters, digits and underscores, the first
/// character not a digit.
pub open spec fn is_ident(s: Seq<char>) -> bool {
    &&& s.len() > 0
    &&& is_ident_start(s[0])
    &&& forall|j: int| 0 < j < s.len() ==> is_ident_char(s[j])
}

/// The kind a kind token names, or `None` when the token is no kind
/// token: `:<>` and `:typed` name `Typed`, `:||` and `:mapped` name
/// `Mapped`, `:untyped` names `Untyped`.
pub open spec fn marker_kind(t: Seq<char>) -> Option<Kind> {
    if t.len() == 3 && t[0] == ':' && t[1] == '<' && t[2] == '>' {
        Some(Kind::Typed)
    } else if t.len() == 3 && t[0] == ':' && t[1] == '|' && t[2] == '|' {
        Some(Kind::Mapped)
    } else if t =~= seq![':', 't', 'y', 'p', 'e', 'd'] {
        Some(Kind::Typed)
    } else if t =~= seq![':', 'm', 'a', 'p', 'p', 'e', 'd'] {
        Some(Kind::Mapped)
    } else if t =~= seq![':', 'u', 'n', 't', 'y', 'p', 'e', 'd'] {
        Some(Kind::Untyped)
    } else {
        None
    }
}

/// The method a method token names, or `None` when the token is no
/// method token: a colon followed by one of `!`, `1`, `?`, `*`, `^`.
pub open spec fn marker_method(t: Seq<char>) -> Option<Method> {
    if t.len() == 2 && t[0] == ':' {
        if t[1] == '!' {
            Some(Method::Execute)
        } else if t[1] == '1' {
            Some(Method::FetchOne)
        } else if t[1] == '?' {
            Some(Method::FetchOptional)
        } else if t[1] == '*' {
            Some(Method::FetchAll)
        } else if t[1] == '^' {
            Some(Method::FetchMany)
        } else {
            None
        }
    } else {
        None
    }
}

/// The white-space-separated tokens of `s` from position `i` on.
pub open spec fn spec_tokens_from(s: Seq<char>, i: int) -> Seq<Seq<char>>
    decreases s.len() - i,
{
    if i >= s.len() {
        Seq::empty()
    } else if is_space(s[i]) {
        spec_tokens_from(s, i + 1)
    } else {
        let e = find_space(s, i);
        let e2 = if e < i + 1 {
            i + 1
        } else if e > s.len() {
            s.len() as int
        } else {
            e
        };
        seq![s.subrange(i, e2)] + spec_tokens_from(s, e2)
    }
}

/// The white-space-separated tokens of `s`, in order.
pub open spec fn spec_tokens(s: Seq<char>) -> Seq<Seq<char>> {
    spec_tokens_from(s, 0)
}

/// What the text after `:name` on a name declaration line yields: the
/// identifier with its kind and method (defaults `Untyped` and `Execute`,
/// the two tokens optional and accepted in either order), or the reason
/// the declaration is malformed.
pub open spec fn spec_parse_sig(rest: Seq<char>) -> Result<
    (Seq<char>, Kind, Method),
    AnnotationErrorKind,
> {
    let toks = spec_tokens(rest);
    if toks.len() == 0 || !is_ident(toks[0]) {
        Err(AnnotationErrorKind::InvalidName)
    } else if toks.len() == 1 {
        Ok((toks[0], Kind::Untyped, Method::Execute))
    } else if toks.len() == 2 {
        match (marker_kind(toks[1]), marker_method(toks[1])) {
            (Some(k), _) => Ok((toks[0], k, Method::Execute)),
            (None, Some(m)) => Ok((toks[0], Kind::Untyped, m)),
            (None, None) => Err(AnnotationErrorKind::MalformedToken),
        }
    } else if toks.len() == 3 {
        match (marker_kind(toks[1]), marker_method(toks[2])) {
            (Some(k), Some(m)) => Ok((toks[0], k, m)),
            _ => match (marker_method(toks[1]), marker_kind(toks[2])) {
                (Some(m), Some(k)) => Ok((toks[0], k, m)),
                _ => Err(AnnotationErrorKind::MalformedToken),
            },
        }
    } else {
        Err(AnnotationErrorKind::MalformedToken)
    }
}

/// The spec-level image of a classified line.
pub enum SpecLineClass {
    /// White space only.
    Blank,
    /// Ordinary text: part of an SQL body.
    Text,
    /// A comment line that declares nothing; the payload is the trimmed
    /// text after the `--` marker.
    Comment(Seq<char>),
    /// A name declaration, well formed or not.
    NameDecl(Result<(Seq<char>, Kind, Method), AnnotationErrorKind>),
    /// A doc declaration; the payload is the trimmed text after `:doc`.
    DocDecl(Seq<char>),
}

/// A classified line of the input.
pub enum LineClass {
    Blank,
    Text,
    Comment(String),
    NameDecl(Result<(String, Kind, Method), AnnotationErrorKind>),
    DocDecl(String),
}

impl View for LineClass {
    type V = SpecLineClass;

    open spec fn view(&self) -> SpecLineClass {
        match self {
            LineClass::Blank => SpecLineClass::Blank,
            LineClass::Text => SpecLineClass::Text,
            LineClass::Comment(p) => SpecLineClass::Comment(p@),
            LineClass::NameDecl(r) => SpecLineClass::NameDecl(
                match r {
                    Ok((n, k, m)) => Ok((n@, *k, *m)),
                    Err(e) => Err(*e),
                },
            ),
            LineClass::DocDecl(p) => SpecLineClass::DocDecl(p@),
        }
    }
}

/// Whether the trimmed comment content `c` opens a name declaration:
/// it starts with `:name` followed by white space or the end of the line.
pub open spec fn is_name_head(c: Seq<char>) -> bool {
    &&& c.len() >= 5
    &&& c[0] == ':'
    &&& c[1] == 'n'
    &&& c[2] == 'a'
    &&& c[3] == 'm'
    &&& c[4] == 'e'
    &&& (c.len() == 5 || is_space(c[5]))
}

/// Whether the trimmed comment content `c` opens a doc declaration: it
/// starts with `:doc` followed by white space or the end of the line.
pub open spec fn is_doc_head(c: Seq<char>) -> bool {
    &&& c.len() >= 4
    &&& c[0] == ':'
    &&& c[1] == 'd'
    &&& c[2] == 'o'
    &&& c[3] == 'c'
    &&& (c.len() == 4 || is_space(c[4]))
}

/// Classifies one line. A comment line is one whose trimmed content
/// starts with `--`; its content after the marker, trimmed again, decides
/// between a name declaration, a doc declaration and a plain comment.
pub open spec fn spec_classify(l: Seq<char>) -> SpecLineClass {
    let t = trim_spec(l);
    if t.len() == 0 {
        SpecLineClass::Blank
    } else if !(t.len() >= 2 && t[0] == '-' && t[1] == '-') {
        SpecLineClass::Text
    } else {
        let c = trim_spec(t.subrange(2, t.len() as int));
        if is_name_head(c) {
            SpecLineClass::NameDecl(spec_parse_sig(c.subrange(5, c.len() as int)))
        } else if is_doc_head(c) {
            SpecLineClass::DocDecl(trim_spec(c.subrange(4, c.len() as int)))
        } else {
            SpecLineClass::Comment(c)
        }
    }
}

/// The lines of `s` from position `i` on, split at newlines; the
/// separators are consumed, and the text after the last newline is the
/// last line even when empty.
pub open spec fn spec_lines_from(s: Seq<char>, i: int) -> Seq<Seq<char>>
    decreases s.len() - i,
{
    let j = find_newline(s, i);
    if j >= s.len() {
        seq![s.subrange(i, s.len() as int)]
    } else {
        let j2 = if j < i {
            i
        } else {
            j
        };
        seq![s.subrange(i, j2)] + spec_lines_from(s, j2 + 1)
    }
}

/// The lines of `s`, split at newlines.
pub open spec fn spec_lines(s: Seq<char>) -> Seq<Seq<char>> {
    spec_lines_from(s, 0)
}

/// The unit being assembled while lines are read, at the spec level.
#[verifier::ext_equal]
pub struct SpecUnit {
    /// Whether any line of the current unit has been seen.
    pub active: bool,
    /// Whether the unit holds a name declaration, well formed or not.
    pub has_name: bool,
    /// Whether the unit holds a doc declaration.
    pub has_doc: bool,
    /// The unit's name, kind and method, when its name declaration was
    /// well formed.
    pub sig: Option<(Seq<char>, Kind, Method)>,
    /// The first error of the unit, if any.
    pub err: Option<AnnotationErrorKind>,
    /// The unit's documentation, with continuation lines joined.
    pub doc: Option<Seq<char>>,
    /// Whether a comment line would still continue the documentation.
    pub doc_open: bool,
    /// The unit's body lines, joined with newlines.
    pub body: Seq<char>,
    /// Whether a body line other than white space has been seen.
    pub body_started: bool,
}

/// Everything the line fold carries, at the spec level.
#[verifier::ext_equal]
pub struct SpecState {
    pub queries: Seq<SpecQuery>,
    pub errors: Seq<SpecAnnotationError>,
    pub unit: SpecUnit,
}

/// The unit state before any line of a unit has been seen.
pub open spec fn spec_empty_unit() -> SpecUnit {
    SpecUnit {
        active: false,
        has_name: false,
        has_doc: false,
        sig: None,
        err: None,
        doc: None,
        doc_open: false,
        body: Seq::empty(),
        body_started: false,
    }
}

/// The fold state before any line has been read.
pub open spec fn spec_init() -> SpecState {
    SpecState { queries: Seq::empty(), errors: Seq::empty(), unit: spec_empty_unit() }
}

/// A further raw line joined onto a unit's body.
pub open spec fn spec_append_body(body: Seq<char>, l: Seq<char>) -> Seq<char> {
    if body.len() == 0 {
        l
    } else {
        body + seq!['\n'] + l
    }
}

/// Closes the pending unit, if one is active: a unit with an error, or
/// without a name declaration, joins the errors; any other joins the
/// queries. Either way it carries the unit's trimmed body as its SQL
/// text.
pub open spec fn spec_finish(st: SpecState) -> SpecState {
    if !st.unit.active {
        st
    } else {
        let sql = trim_spec(st.unit.body);
        if st.unit.err is Some {
            SpecState {
                queries: st.queries,
                errors: st.errors.push(SpecAnnotationError { kind: st.unit.err->0, sql }),
                unit: spec_empty_unit(),
            }
        } else if st.unit.sig is Some {
            let (n, k, m) = st.unit.sig->0;
            SpecState {
                queries: st.queries.push(
                    SpecQuery { name: n, kind: k, method: m, doc: st.unit.doc, sql },
                ),
                errors: st.errors,
                unit: spec_empty_unit(),
            }
        } else {
            SpecState {
                queries: st.queries,
                errors: st.errors.push(
                    SpecAnnotationError { kind: AnnotationErrorKind::MissingName, sql },
                ),
                unit: spec_empty_unit(),
            }
        }
    }
}

/// Reads one line into the fold state. A declaration that the pending
/// unit cannot take (a second name, a second doc, or one after the body
/// has begun) closes that unit and opens the next one; ordinary lines
/// join the body; comment lines right after a doc declaration continue
/// the documentation; a doc declaration on the input's unterminated last
/// line marks the unit in error.
pub open spec fn spec_step(st: SpecState, l: Seq<char>, is_last: bool) -> SpecState {
    match spec_classify(l) {
        SpecLineClass::Blank => {
            if st.unit.active {
                SpecState {
                    unit: SpecUnit {
                        doc_open: false,
                        body: spec_append_body(st.unit.body, l),
                        ..st.unit
                    },
                    ..st
                }
            } else {
                st
            }
        },
        SpecLineClass::Text => {
            if st.unit.active {
                SpecState {
                    unit: SpecUnit {
                        doc_open: false,
                        body: spec_append_body(st.unit.body, l),
                        body_started: true,
                        ..st.unit
                    },
                    ..st
                }
            } else {
                SpecState {
                    unit: SpecUnit {
                        active: true,
                        body: l,
                        body_started: true,
                        ..spec_empty_unit()
                    },
                    ..st
                }
            }
        },
        SpecLineClass::Comment(payload) => {
            if st.unit.active && st.unit.doc_open {
                SpecState {
                    unit: SpecUnit {
                        doc: Some(st.unit.doc->0 + seq!['\n'] + payload),
                        ..st.unit
                    },
                    ..st
                }
            } else if st.unit.active {
                SpecState {
                    unit: SpecUnit {
                        body: spec_append_body(st.unit.body, l),
                        body_started: true,
                        ..st.unit
                    },
                    ..st
                }
            } else {
                SpecState {
                    unit: SpecUnit {
                        active: true,
                        body: l,
                        body_started: true,
                        ..spec_empty_unit()
                    },
                    ..st
                }
            }
        },
        SpecLineClass::NameDecl(res) => {
            let base = if st.unit.active && (st.unit.has_name || st.unit.body_started) {
                spec_finish(st)
            } else {
                st
            };
            SpecState {
                unit: SpecUnit {
                    active: true,
                    has_name: true,
                    doc_open: false,
                    sig: if res is Ok {
                        Some(res->Ok_0)
                    } else {
                        base.unit.sig
                    },
                    err: if res is Err && base.unit.err is None {
                        Some(res->Err_0)
                    } else {
                        base.unit.err
                    },
                    ..base.unit
                },
                ..base
            }
        },
        SpecLineClass::DocDecl(text) => {
            let base = if st.unit.active && (st.unit.has_doc || st.unit.body_started) {
                spec_finish(st)
            } else {
                st
            };
            SpecState {
                unit: SpecUnit {
                    active: true,
                    has_doc: true,
                    doc: Some(text),
                    doc_open: true,
                    err: if is_last && base.unit.err is None {
                        Some(AnnotationErrorKind::UnterminatedDoc)
                    } else {
                        base.unit.err
                    },
                    ..base.unit
                },
                ..base
            }
        },
    }
}

/// Folds the lines from index `k` on into the state, then closes the
/// pending unit.
pub open spec fn spec_run(lines: Seq<Seq<char>>, k: int, st: SpecState) -> SpecState
    decreases lines.len() - k,
{
    if k >= lines.len() {
        spec_finish(st)
    } else {
        spec_run(lines, k + 1, spec_step(st, lines[k], k == lines.len() - 1))
    }
}

/// What parsing an annotation file yields: its well-formed query units in
/// order, and its malformed units in order.
pub open spec fn spec_parse(s: Seq<char>) -> (Seq<SpecQuery>, Seq<SpecAnnotationError>) {
    let fin = spec_run(spec_lines(s), 0, spec_init());
    (fin.queries, fin.errors)
}

/// How many of the lines from index `k` on are name declarations, well
/// formed or not.
pub open spec fn count_name_decls(lines: Seq<Seq<char>>, k: int) -> int
    decreases lines.len() - k,
{
    if k >= lines.len() {
        0
    } else {
        (if spec_classify(lines[k]) is NameDecl {
            1int
        } else {
            0int
        }) + count_name_decls(lines, k + 1)
    }
}

/// The internal consistency of a unit state: a well-formed signature is
/// only recorded on a unit that holds a name declaration, a named unit
/// without an error holds a well-formed signature, and only an active
/// unit holds anything.
pub open spec fn wf_unit(u: SpecUnit) -> bool {
    &&& (u.has_name && u.err is None ==> u.sig is Some)
    &&& (u.sig is Some ==> u.has_name)
    &&& (u.has_name ==> u.active)
}

/// The name declaration still pending in the unit under assembly.
pub open spec fn pending_names(st: SpecState) -> int {
    if st.unit.active && st.unit.has_name {
        1
    } else {
        0
    }
}

proof fn lemma_run_errors_monotone(lines: Seq<Seq<char>>, k: int, st: SpecState)
    ensures
        spec_run(lines, k, st).errors.len() >= st.errors.len(),
    decreases lines.len() - k,
{
    if k < lines.len() {
        lemma_run_errors_monotone(lines, k + 1, spec_step(st, lines[k], k == lines.len() - 1));
    }
}

proof fn lemma_run_query_count(lines: Seq<Seq<char>>, k: int, st: SpecState)
    requires
        wf_unit(st.unit),
    ensures
        spec_run(lines, k, st).errors.len() == 0 ==> st.errors.len() == 0 && spec_run(
            lines,
            k,
            st,
        ).queries.len() == st.queries.len() + pending_names(st) + count_name_decls(lines, k),
    decreases lines.len() - k,
{
    if k >= lines.len() {
    } else {
        let st2 = spec_step(st, lines[k], k == lines.len() - 1);
        assert(wf_unit(st2.unit));
        lemma_run_query_count(lines, k + 1, st2);
        lemma_run_errors_monotone(lines, k + 1, st2);
    }
}

/// The shape the data model promises of every parsed record: a name
/// with identifier syntax, and an SQL body that is already trimmed.
pub open spec fn query_wf(q: SpecQuery) -> bool {
    &&& is_ident(q.name)
    &&& trim_spec(q.sql) == q.sql
}

/// Whether every query of a sequence has the parsed shape.
pub open spec fn queries_wf(qs: Seq<SpecQuery>) -> bool {
    forall|k: int| 0 <= k < qs.len() ==> query_wf(#[trigger] qs[k])
}

proof fn lemma_run_queries_wf(lines: Seq<Seq<char>>, k: int, st: SpecState)
    requires
        queries_wf(st.queries),
        st.unit.sig is Some ==> is_ident((st.unit.sig->0).0),
    ensures
        queries_wf(spec_run(lines, k, st).queries),
    decreases lines.len() - k,
{
    crate::chars::lemma_trim_idempotent(st.unit.body);
    if k < lines.len() {
        let st2 = spec_step(st, lines[k], k == lines.len() - 1);
        assert(queries_wf(st2.queries));
        assert(st2.unit.sig is Some ==> is_ident((st2.unit.sig->0).0));
        lemma_run_queries_wf(lines, k + 1, st2);
    }
}

/// Every record the parser yields satisfies the data model's invariant:
/// its name is a non-empty identifier, and its SQL body is trimmed.
pub proof fn lemma_parsed_queries_well_formed(s: Seq<char>)
    ensures
        queries_wf(spec_parse(s).0),
{
    lemma_run_queries_wf(spec_lines(s), 0, spec_init());
}

/// For a file whose parse reports no error, the number of `Query`
/// records equals the number of name declaration lines in the file.
pub proof fn lemma_query_count_matches_name_decls(s: Seq<char>)
    ensures
        spec_parse(s).1.len() == 0 ==> spec_parse(s).0.len() == count_name_decls(spec_lines(s), 0),
{
    lemma_run_query_count(spec_lines(s), 0, spec_init());
}

/// The text of lines `a` to `b` (exclusive), joined with newlines.
pub open spec fn join_lines(lines: Seq<Seq<char>>, a: int, b: int) -> Seq<char>
    decreases b - a,
{
    if a >= b {
        Seq::empty()
    } else if a + 1 == b {
        lines[a]
    } else {
        lines[a] + seq!['\n'] + join_lines(lines, a + 1, b)
    }
}

proof fn lemma_finish_accumulates(qs: Seq<SpecQuery>, es: Seq<SpecAnnotationError>, u: SpecUnit)
    ensures
        ({
            let a = spec_finish(
                SpecState { queries: Seq::empty(), errors: Seq::empty(), unit: u },
            );
            let g = spec_finish(SpecState { queries: qs, errors: es, unit: u });
            g.queries == qs + a.queries && g.errors == es + a.errors && g.unit == a.unit
        }),
{
    let a = spec_finish(SpecState { queries: Seq::empty(), errors: Seq::empty(), unit: u });
    let g = spec_finish(SpecState { queries: qs, errors: es, unit: u });
    assert(g.queries =~= qs + a.queries);
    assert(g.errors =~= es + a.errors);
}

proof fn lemma_step_accumulates(
    qs: Seq<SpecQuery>,
    es: Seq<SpecAnnotationError>,
    u: SpecUnit,
    l: Seq<char>,
    last: bool,
)
    ensures
        ({
            let a = spec_step(
                SpecState { queries: Seq::empty(), errors: Seq::empty(), unit: u },
                l,
                last,
            );
            let g = spec_step(SpecState { queries: qs, errors: es, unit: u }, l, last);
            g.queries == qs + a.queries && g.errors == es + a.errors && g.unit == a.unit
        }),
{
    lemma_finish_accumulates(qs, es, u);
    let a = spec_step(SpecState { queries: Seq::empty(), errors: Seq::empty(), unit: u }, l, last);
    let g = spec_step(SpecState { queries: qs, errors: es, unit: u }, l, last);
    assert(g.queries =~= qs + a.queries);
    assert(g.errors =~= es + a.errors);
}

proof fn lemma_run_accumulates(
    lines: Seq<Seq<char>>,
    k: int,
    qs: Seq<SpecQuery>,
    es: Seq<SpecAnnotationError>,
    u: SpecUnit,
)
    ensures
        ({
            let a = spec_run(
                lines,
                k,
                SpecState { queries: Seq::empty(), errors: Seq::empty(), unit: u },
            );
            let g = spec_run(lines, k, SpecState { queries: qs, errors: es, unit: u });
            g.queries == qs + a.queries && g.errors == es + a.errors && g.unit == a.unit
        }),
    decreases lines.len() - k,
{
    if k >= lines.len() {
        lemma_finish_accumulates(qs, es, u);
    } else {
        let l = lines[k];
        let last = k == lines.len() - 1;
        lemma_step_accumulates(qs, es, u, l, last);
        let a1 = spec_step(
            SpecState { queries: Seq::empty(), errors: Seq::empty(), unit: u },
            l,
            last,
        );
        let g1 = spec_step(SpecState { queries: qs, errors: es, unit: u }, l, last);
        assert(g1 =~= SpecState {
            queries: qs + a1.queries,
            errors: es + a1.errors,
            unit: a1.unit,
        });
        lemma_run_accumulates(lines, k + 1, qs + a1.queries, es + a1.errors, a1.unit);
        lemma_run_accumulates(lines, k + 1, a1.queries, a1.errors, a1.unit);
        assert(a1 =~= SpecState { queries: a1.queries, errors: a1.errors, unit: a1.unit });
        let f2 = spec_run(
            lines,
            k + 1,
            SpecState { queries: Seq::empty(), errors: Seq::empty(), unit: a1.unit },
        );
        assert((qs + a1.queries) + f2.queries =~= qs + (a1.queries + f2.queries));
        assert((es + a1.errors) + f2.errors =~= es + (a1.errors + f2.errors));
    }
}

proof fn lemma_chunk_run(lines: Seq<Seq<char>>, n: int, j: int, u: SpecUnit)
    requires
        0 <= j <= n <= lines.len(),
        forall|i: int|
            j <= i < n ==> !((#[trigger] spec_classify(lines[i])) is NameDecl || spec_classify(
                lines[i],
            ) is DocDecl),
        n < lines.len() ==> (spec_classify(lines[n]) is NameDecl || spec_classify(
            lines[n],
        ) is DocDecl),
        u.active && u.body_started && u.body.len() > 0,
        u.sig is None && u.err is None && u.doc is None,
        !u.has_name && !u.has_doc && !u.doc_open,
    ensures
        ({
            let g = spec_run(
                lines,
                j,
                SpecState { queries: Seq::empty(), errors: Seq::empty(), unit: u },
            );
            let f = spec_run(lines, n, spec_init());
            let sql = trim_spec(
                if j < n {
                    u.body + seq!['\n'] + join_lines(lines, j, n)
                } else {
                    u.body
                },
            );
            g.queries == f.queries && g.errors == seq![
                SpecAnnotationError { kind: AnnotationErrorKind::MissingName, sql },
            ] + f.errors
        }),
    decreases n - j,
{
    let stu = SpecState { queries: Seq::empty(), errors: Seq::empty(), unit: u };
    if j == n {
        let err = SpecAnnotationError {
            kind: AnnotationErrorKind::MissingName,
            sql: trim_spec(u.body),
        };
        if n == lines.len() {
            assert(Seq::<SpecAnnotationError>::empty().push(err) =~= seq![err]
                + Seq::<SpecAnnotationError>::empty());
        } else {
            let l = lines[n];
            let last = n == lines.len() - 1;
            let a1 = spec_step(stu, l, last);
            let b1 = spec_step(spec_init(), l, last);
            assert(a1.unit == b1.unit);
            assert(a1.queries == Seq::<SpecQuery>::empty());
            assert(a1.errors =~= seq![err]);
            assert(b1.queries == Seq::<SpecQuery>::empty() && b1.errors
                == Seq::<SpecAnnotationError>::empty());
            lemma_run_accumulates(lines, n + 1, a1.queries, a1.errors, a1.unit);
            assert(a1 =~= SpecState { queries: a1.queries, errors: a1.errors, unit: a1.unit });
            assert(b1 =~= SpecState {
                queries: Seq::empty(),
                errors: Seq::empty(),
                unit: a1.unit,
            });
            let f2 = spec_run(
                lines,
                n + 1,
                SpecState { queries: Seq::empty(), errors: Seq::empty(), unit: a1.unit },
            );
            assert(seq![err] + f2.errors =~= a1.errors + f2.errors);
            assert(Seq::<SpecQuery>::empty() + f2.queries =~= f2.queries);
            assert(Seq::<SpecAnnotationError>::empty() + f2.errors =~= f2.errors);
        }
    } else {
        let l = lines[j];
        let last = j == lines.len() - 1;
        let a1 = spec_step(stu, l, last);
        assert(a1.queries == Seq::<SpecQuery>::empty() && a1.errors
            == Seq::<SpecAnnotationError>::empty());
        assert(a1.unit.body == spec_append_body(u.body, l));
        assert(a1.unit.body == u.body + seq!['\n'] + l);
        lemma_chunk_run(lines, n, j + 1, a1.unit);
        assert(a1 =~= SpecState { queries: Seq::empty(), errors: Seq::empty(), unit: a1.unit });
        if j + 1 < n {
            assert(join_lines(lines, j, n) == l + seq!['\n'] + join_lines(lines, j + 1, n));
            assert(a1.unit.body + seq!['\n'] + join_lines(lines, j + 1, n) =~= u.body + seq!['\n']
                + join_lines(lines, j, n));
        } else {
            assert(join_lines(lines, j, n) == l);
            assert(a1.unit.body =~= u.body + seq!['\n'] + join_lines(lines, j, n));
        }
    }
}

proof fn lemma_p9_run(lines: Seq<Seq<char>>, n: int, j: int)
    requires
        0 <= j <= n <= lines.len(),
        forall|i: int|
            j <= i < n ==> !((#[trigger] spec_classify(lines[i])) is NameDecl || spec_classify(
                lines[i],
            ) is DocDecl),
        n < lines.len() ==> (spec_classify(lines[n]) is NameDecl || spec_classify(
            lines[n],
        ) is DocDecl),
        exists|i: int| j <= i < n && !((#[trigger] spec_classify(lines[i])) is Blank),
    ensures
        ({
            let g = spec_run(lines, j, spec_init());
            let f = spec_run(lines, n, spec_init());
            let sql = trim_spec(join_lines(lines, j, n));
            g.queries == f.queries && g.errors == seq![
                SpecAnnotationError { kind: AnnotationErrorKind::MissingName, sql },
            ] + f.errors
        }),
    decreases n - j,
{
    let l = lines[j];
    let last = j == lines.len() - 1;
    let a1 = spec_step(spec_init(), l, last);
    if spec_classify(l) is Blank {
        assert(a1 == spec_init());
        let i0 = choose|i: int|
            j <= i < n && !((#[trigger] spec_classify(lines[i])) is Blank);
        assert(i0 > j);
        lemma_p9_run(lines, n, j + 1);
        assert(spec_classify(l) is Blank ==> trim_spec(l).len() == 0);
        lemma_trim_empty_all_space(l);
        assert forall|q: int|
            0 <= q < (l + seq!['\n']).len() implies crate::chars::is_space(
            (l + seq!['\n'])[q],
        ) by {
            if q < l.len() {
                assert((l + seq!['\n'])[q] == l[q]);
            } else {
                assert((l + seq!['\n'])[q] == '\n');
            }
        }
        lemma_trim_space_prefix(l + seq!['\n'], join_lines(lines, j + 1, n));
        assert(join_lines(lines, j, n) =~= (l + seq!['\n']) + join_lines(lines, j + 1, n));
    } else {
        assert(a1.queries == Seq::<SpecQuery>::empty() && a1.errors
            == Seq::<SpecAnnotationError>::empty());
        assert(a1.unit.active && a1.unit.body_started);
        assert(a1.unit.body == l);
        assert(trim_spec(l).len() > 0);
        if l.len() == 0 {
            assert(trim_spec(l) =~= Seq::<char>::empty());
        }
        lemma_chunk_run(lines, n, j + 1, a1.unit);
        assert(a1 =~= SpecState { queries: Seq::empty(), errors: Seq::empty(), unit: a1.unit });
        if j + 1 < n {
            assert(join_lines(lines, j, n) == l + seq!['\n'] + join_lines(lines, j + 1, n));
            assert(a1.unit.body + seq!['\n'] + join_lines(lines, j + 1, n) =~= join_lines(
                lines,
                j,
                n,
            ));
        } else {
            assert(join_lines(lines, j, n) == l);
        }
    }
}

/// A leading query unit with no name declaration — lines of SQL text
/// with no declaration among them, up to the next declaration or the end
/// of the input — yields exactly one error: `MissingName`, citing the
/// unit's trimmed text. It contributes no `Query`, and the lines from
/// the next declaration on parse exactly as they would on their own.
pub proof fn lemma_missing_name_unit(s: Seq<char>, n: int)
    requires
        0 <= n <= spec_lines(s).len(),
        forall|i: int|
            0 <= i < n ==> !((#[trigger] spec_classify(spec_lines(s)[i])) is NameDecl
                || spec_classify(spec_lines(s)[i]) is DocDecl),
        n < spec_lines(s).len() ==> (spec_classify(spec_lines(s)[n]) is NameDecl || spec_classify(
            spec_lines(s)[n],
        ) is DocDecl),
        exists|i: int| 0 <= i < n && !((#[trigger] spec_classify(spec_lines(s)[i])) is Blank),
    ensures
        spec_parse(s).0 == spec_run(spec_lines(s), n, spec_init()).queries,
        spec_parse(s).1 == seq![
            SpecAnnotationError {
                kind: AnnotationErrorKind::MissingName,
                sql: trim_spec(join_lines(spec_lines(s), 0, n)),
            },
        ] + spec_run(spec_lines(s), n, spec_init()).errors,
{
    lemma_p9_run(spec_lines(s), n, 0);
}

/// Decides `is_ident` for a slice of characters.
fn is_ident_slice(s: &[char]) -> (r: bool)
    ensures
        r == is_ident(s@),
{
    if s.len() == 0 {
        return false;
    }
    let c0 = s[0];
    let u0 = c0 as u32;
    if !(('a' as u32 <= u0 && u0 <= 'z' as u32) || ('A' as u32 <= u0 && u0 <= 'Z' as u32) || c0
        == '_') {
        return false;
    }
    let mut j: usize = 1;
    while j < s.len()
        invariant
            1 <= j <= s@.len(),
            forall|k: int| 0 < k < j ==> is_ident_char(s@[k]),
        decreases s@.len() - j,
    {
        let c = s[j];
        let u = c as u32;
        if !(('a' as u32 <= u && u <= 'z' as u32) || ('A' as u32 <= u && u <= 'Z' as u32) || ('0'
            as u32 <= u && u <= '9' as u32) || c == '_') {
            return false;
        }
        j = j + 1;
    }
    true
}

/// Decides `marker_kind` for a slice of characters.
fn marker_kind_of(t: &[char]) -> (r: Option<Kind>)
    ensures
        r == marker_kind(t@),
{
    if t.len() == 3 && t[0] == ':' && t[1] == '<' && t[2] == '>' {
        Some(Kind::Typed)
    } else if t.len() == 3 && t[0] == ':' && t[1] == '|' && t[2] == '|' {
        Some(Kind::Mapped)
    } else if t.len() == 6 && t[0] == ':' && t[1] == 't' && t[2] == 'y' && t[3] == 'p' && t[4]
        == 'e' && t[5] == 'd' {
        proof {
            assert(t@ =~= seq![':', 't', 'y', 'p', 'e', 'd']);
        }
        Some(Kind::Typed)
    } else if t.len() == 7 && t[0] == ':' && t[1] == 'm' && t[2] == 'a' && t[3] == 'p' && t[4]
        == 'p' && t[5] == 'e' && t[6] == 'd' {
        proof {
            assert(t@ =~= seq![':', 'm', 'a', 'p', 'p', 'e', 'd']);
        }
        Some(Kind::Mapped)
    } else if t.len() == 8 && t[0] == ':' && t[1] == 'u' && t[2] == 'n' && t[3] == 't' && t[4]
        == 'y' && t[5] == 'p' && t[6] == 'e' && t[7] == 'd' {
        proof {
            assert(t@ =~= seq![':', 'u', 'n', 't', 'y', 'p', 'e', 'd']);
        }
        Some(Kind::Untyped)
    } else {
        proof {
            if t@.len() == 6 {
                assert(!(t@ =~= seq![':', 't', 'y', 'p', 'e', 'd']) ==> marker_kind(t@) is None);
            }
        }
        None
    }
}

/// Decides `marker_method` for a slice of characters.
fn marker_method_of(t: &[char]) -> (r: Option<Method>)
    ensures
        r == marker_method(t@),
{
    if t.len() == 2 && t[0] == ':' {
        let c = t[1];
        if c == '!' {
            Some(Method::Execute)
        } else if c == '1' {
            Some(Method::FetchOne)
        } else if c == '?' {
            Some(Method::FetchOptional)
        } else if c == '*' {
            Some(Method::FetchAll)
        } else if c == '^' {
            Some(Method::FetchMany)
        } else {
            None
        }
    } else {
        None
    }
}

/// The tokens of a sequence of token index ranges, as character
/// sequences.
pub open spec fn token_views(cs: Seq<char>, toks: Seq<(usize, usize)>) -> Seq<Seq<char>> {
    toks.map_values(|p: (usize, usize)| cs.subrange(p.0 as int, p.1 as int))
}

/// Splits `cs` into its white-space-separated tokens, each given as a
/// start-end index pair.
fn split_tokens(cs: &[char]) -> (toks: Vec<(usize, usize)>)
    ensures
        token_views(cs@, toks@) == spec_tokens(cs@),
        forall|k: int| 0 <= k < toks@.len() ==> ((#[trigger] toks@[k]).0 < toks@[k].1 <= cs@.len()),
{
    let n = cs.len();
    let mut toks: Vec<(usize, usize)> = Vec::new();
    let mut i: usize = 0;
    proof {
        assert(token_views(cs@, toks@) + spec_tokens_from(cs@, 0) =~= spec_tokens_from(cs@, 0));
    }
    while i < n
        invariant
            i <= n,
            n == cs@.len(),
            spec_tokens(cs@) == token_views(cs@, toks@) + spec_tokens_from(cs@, i as int),
            forall|k: int| 0 <= k < toks@.len() ==> ((#[trigger] toks@[k]).0 < toks@[k].1 <= cs@.len()),
        decreases n - i,
    {
        if is_space_char(cs[i]) {
            i = i + 1;
        } else {
            let start = i;
            let mut e: usize = i;
            while e < n && !is_space_char(cs[e])
                invariant
                    start <= e <= n,
                    n == cs@.len(),
                    forall|k: int| start <= k < e ==> !is_space(cs@[k]),
                decreases n - e,
            {
                e = e + 1;
            }
            proof {
                lemma_find_space_is(cs@, start as int, e as int);
            }
            let ghost toks_in = toks@;
            toks.push((start, e));
            proof {
                assert(token_views(cs@, toks@) =~= token_views(cs@, toks_in) + seq![
                    cs@.subrange(start as int, e as int)
                ]);
                assert(token_views(cs@, toks_in) + (seq![cs@.subrange(start as int, e as int)]
                    + spec_tokens_from(cs@, e as int)) =~= token_views(cs@, toks@)
                    + spec_tokens_from(cs@, e as int));
            }
            i = e;
        }
    }
    proof {
        assert(token_views(cs@, toks@) + Seq::<Seq<char>>::empty() =~= token_views(cs@, toks@));
    }
    toks
}

/// Reads the identifier and the optional kind and method tokens after
/// `:name`.
fn parse_sig(rest: &[char]) -> (r: Result<(String, Kind, Method), AnnotationErrorKind>)
    ensures
        r is Ok <==> spec_parse_sig(rest@) is Ok,
        r is Ok ==> ({
            let (n, k, m) = r->Ok_0;
            let (sn, sk, sm) = spec_parse_sig(rest@)->Ok_0;
            n@ == sn && k == sk && m == sm
        }),
        r is Err ==> r->Err_0 == spec_parse_sig(rest@)->Err_0,
{
    let toks = split_tokens(rest);
    proof {
        assert forall|k: int| 0 <= k < toks@.len() implies #[trigger] spec_tokens(rest@)[k]
            == rest@.subrange(toks@[k].0 as int, toks@[k].1 as int) by {
            assert(token_views(rest@, toks@)[k] == rest@.subrange(
                toks@[k].0 as int,
                toks@[k].1 as int,
            ));
        }
    }
    if toks.len() == 0 {
        return Err(AnnotationErrorKind::InvalidName);
    }
    let (n0, n1) = (toks[0].0, toks[0].1);
    if !is_ident_slice(&rest[n0..n1]) {
        return Err(AnnotationErrorKind::InvalidName);
    }
    let name = string_of(&rest[n0..n1]);
    if toks.len() == 1 {
        Ok((name, Kind::Untyped, Method::Execute))
    } else if toks.len() == 2 {
        let (a0, a1) = (toks[1].0, toks[1].1);
        match marker_kind_of(&rest[a0..a1]) {
            Some(k) => Ok((name, k, Method::Execute)),
            None => match marker_method_of(&rest[a0..a1]) {
                Some(m) => Ok((name, Kind::Untyped, m)),
                None => Err(AnnotationErrorKind::MalformedToken),
            },
        }
    } else if toks.len() == 3 {
        let (a0, a1) = (toks[1].0, toks[1].1);
        let (b0, b1) = (toks[2].0, toks[2].1);
        match (marker_kind_of(&rest[a0..a1]), marker_method_of(&rest[b0..b1])) {
            (Some(k), Some(m)) => Ok((name, k, m)),
            _ => match (marker_method_of(&rest[a0..a1]), marker_kind_of(&rest[b0..b1])) {
                (Some(m), Some(k)) => Ok((name, k, m)),
                _ => Err(AnnotationErrorKind::MalformedToken),
            },
        }
    } else {
        Err(AnnotationErrorKind::MalformedToken)
    }
}

/// Classifies one line of the input.
fn classify_line(line: &[char]) -> (c: LineClass)
    ensures
        c@ == spec_classify(line@),
{
    let t = trim_slice(line);
    if t.len() == 0 {
        LineClass::Blank
    } else if !(t.len() >= 2 && t[0] == '-' && t[1] == '-') {
        LineClass::Text
    } else {
        let c = trim_slice(&t[2..t.len()]);
        let name_head = c.len() >= 5 && c[0] == ':' && c[1] == 'n' && c[2] == 'a' && c[3] == 'm'
            && c[4] == 'e' && (c.len() == 5 || is_space_char(c[5]));
        if name_head {
            LineClass::NameDecl(parse_sig(&c[5..c.len()]))
        } else {
            let doc_head = c.len() >= 4 && c[0] == ':' && c[1] == 'd' && c[2] == 'o' && c[3] == 'c'
                && (c.len() == 4 || is_space_char(c[4]));
            if doc_head {
                LineClass::DocDecl(string_of(trim_slice(&c[4..c.len()])))
            } else {
                LineClass::Comment(string_of(c))
            }
        }
    }
}

/// The lines of a sequence of line index ranges, as character sequences.
pub open spec fn line_views(cs: Seq<char>, lines: Seq<(usize, usize)>) -> Seq<Seq<char>> {
    lines.map_values(|p: (usize, usize)| cs.subrange(p.0 as int, p.1 as int))
}

/// Splits `cs` into its lines, each given as a start-end index pair; the
/// newline separators belong to no line.
fn split_lines(cs: &[char]) -> (lines: Vec<(usize, usize)>)
    ensures
        line_views(cs@, lines@) == spec_lines(cs@),
        lines@.len() >= 1,
        forall|k: int| 0 <= k < lines@.len() ==> ((#[trigger] lines@[k]).0 <= lines@[k].1 <= cs@.len()),
{
    let n = cs.len();
    let mut lines: Vec<(usize, usize)> = Vec::new();
    let mut i: usize = 0;
    proof {
        assert(line_views(cs@, lines@) + spec_lines_from(cs@, 0) =~= spec_lines_from(cs@, 0));
    }
    loop
        invariant_except_break
            spec_lines(cs@) == line_views(cs@, lines@) + spec_lines_from(cs@, i as int),
        invariant
            i <= n,
            n == cs@.len(),
            forall|k: int| 0 <= k < lines@.len() ==> ((#[trigger] lines@[k]).0 <= lines@[k].1 <= cs@.len()),
        ensures
            i <= n,
            n == cs@.len(),
            line_views(cs@, lines@) == spec_lines(cs@),
            lines@.len() >= 1,
            forall|k: int| 0 <= k < lines@.len() ==> ((#[trigger] lines@[k]).0 <= lines@[k].1 <= cs@.len()),
        decreases n - i,
    {
        let start = i;
        let mut j: usize = i;
        while j < n && cs[j] != '\n'
            invariant
                start <= j <= n,
                n == cs@.len(),
                forall|k: int| start <= k < j ==> cs@[k] != '\n',
            decreases n - j,
        {
            j = j + 1;
        }
        proof {
            lemma_find_newline_is(cs@, start as int, j as int);
        }
        let ghost lines_in = lines@;
        lines.push((start, j));
        proof {
            assert(line_views(cs@, lines@) =~= line_views(cs@, lines_in) + seq![
                cs@.subrange(start as int, j as int)
            ]);
        }
        if j < n {
            proof {
                assert(line_views(cs@, lines_in) + (seq![cs@.subrange(start as int, j as int)]
                    + spec_lines_from(cs@, j + 1)) =~= line_views(cs@, lines@)
                    + spec_lines_from(cs@, j + 1));
            }
            i = j + 1;
        } else {
            proof {
                assert(line_views(cs@, lines_in) + seq![cs@.subrange(start as int, j as int)]
                    =~= line_views(cs@, lines@));
            }
            break ;
        }
    }
    lines
}

/// The unit being assembled while lines are read.
struct UnitState {
    active: bool,
    has_name: bool,
    has_doc: bool,
    sig: Option<(String, Kind, Method)>,
    err: Option<AnnotationErrorKind>,
    doc: Option<String>,
    doc_open: bool,
    body: Vec<char>,
    body_started: bool,
}

impl View for UnitState {
    type V = SpecUnit;

    closed spec fn view(&self) -> SpecUnit {
        SpecUnit {
            active: self.active,
            has_name: self.has_name,
            has_doc: self.has_doc,
            sig: match self.sig {
                Some((n, k, m)) => Some((n@, k, m)),
                None => None,
            },
            err: self.err,
            doc: match self.doc {
                Some(d) => Some(d@),
                None => None,
            },
            body: self.body@,
            doc_open: self.doc_open,
            body_started: self.body_started,
        }
    }
}

fn empty_unit() -> (u: UnitState)
    ensures
        u@ =~= spec_empty_unit(),
{
    UnitState {
        active: false,
        has_name: false,
        has_doc: false,
        sig: None,
        err: None,
        doc: None,
        doc_open: false,
        body: Vec::new(),
        body_started: false,
    }
}

/// Joins the raw line `cs[lo..hi]` onto a unit's body.
fn append_body(body: &mut Vec<char>, cs: &[char], lo: usize, hi: usize)
    requires
        lo <= hi <= cs@.len(),
    ensures
        final(body)@ == spec_append_body(old(body)@, cs@.subrange(lo as int, hi as int)),
{
    if body.len() > 0 {
        body.push('\n');
    }
    let ghost base = body@;
    let mut i: usize = lo;
    proof {
        assert(base + cs@.subrange(lo as int, lo as int) =~= base);
    }
    while i < hi
        invariant
            lo <= i <= hi <= cs@.len(),
            body@ == base + cs@.subrange(lo as int, i as int),
        decreases hi - i,
    {
        body.push(cs[i]);
        proof {
            assert(base + cs@.subrange(lo as int, i as int) + seq![cs@[i as int]] =~= base
                + cs@.subrange(lo as int, i + 1));
        }
        i = i + 1;
    }
    proof {
        if old(body)@.len() > 0 {
            assert(old(body)@ + seq!['\n'] + cs@.subrange(lo as int, hi as int) =~= body@);
        } else {
            assert(cs@.subrange(lo as int, hi as int) =~= body@);
        }
    }
}

/// Closes the pending unit, moving it into the queries or the errors.
fn finish_unit(queries: &mut Vec<Query>, errors: &mut Vec<AnnotationError>, unit: UnitState) -> (u2:
    UnitState)
    ensures
        (SpecState {
            queries: query_views(final(queries)@),
            errors: error_views(final(errors)@),
            unit: u2@,
        }) =~= spec_finish(
            SpecState {
                queries: query_views(old(queries)@),
                errors: error_views(old(errors)@),
                unit: unit@,
            },
        ),
{
    if !unit.active {
        return unit;
    }
    let sql = string_of(trim_slice(unit.body.as_slice()));
    match unit.err {
        Some(k) => {
            errors.push(AnnotationError { kind: k, sql });
        },
        None => match unit.sig {
            Some((n, k, m)) => {
                queries.push(Query { name: n, kind: k, method: m, doc: unit.doc, sql });
            },
            None => {
                errors.push(AnnotationError { kind: AnnotationErrorKind::MissingName, sql });
            },
        },
    }
    empty_unit()
}

/// Parses an annotation file: its well-formed query units in order, and
/// its malformed units in order. A unit fails on a missing or invalid
/// name declaration, a malformed kind or method token, or an unterminated
/// doc declaration; a failed unit never yields a partial query, and the
/// units after it still parse.
pub fn parse_annotation_file(input: &str) -> (r: (Vec<Query>, Vec<AnnotationError>))
    ensures
        query_views(r.0@) == spec_parse(input@).0,
        error_views(r.1@) == spec_parse(input@).1,
{
    let cs = chars_of(input);
    let csl = cs.as_slice();
    let lines = split_lines(csl);
    let mut queries: Vec<Query> = Vec::new();
    let mut errors: Vec<AnnotationError> = Vec::new();
    let mut unit = empty_unit();
    let nlines = lines.len();
    let ghost lspec = spec_lines(input@);
    proof {
        assert(query_views(queries@) =~= Seq::<SpecQuery>::empty());
        assert(error_views(errors@) =~= Seq::<SpecAnnotationError>::empty());
        assert((SpecState {
            queries: query_views(queries@),
            errors: error_views(errors@),
            unit: unit@,
        }) =~= spec_init());
    }
    let mut k: usize = 0;
    while k < nlines
        invariant
            k <= nlines,
            nlines == lines@.len(),
            csl@ == input@,
            lspec == spec_lines(input@),
            line_views(csl@, lines@) == lspec,
            forall|j: int|
                0 <= j < lines@.len() ==> ((#[trigger] lines@[j]).0 <= lines@[j].1 <= csl@.len()),
            unit@.doc_open ==> unit@.doc is Some,
            !unit@.active ==> unit@ =~= spec_empty_unit(),
            spec_run(lspec, 0, spec_init()) == spec_run(
                lspec,
                k as int,
                SpecState {
                    queries: query_views(queries@),
                    errors: error_views(errors@),
                    unit: unit@,
                },
            ),
        decreases nlines - k,
    {
        let lo = lines[k].0;
        let hi = lines[k].1;
        let is_last = k == nlines - 1;
        let ghost st0 = SpecState {
            queries: query_views(queries@),
            errors: error_views(errors@),
            unit: unit@,
        };
        let ghost l = csl@.subrange(lo as int, hi as int);
        proof {
            assert(line_views(csl@, lines@)[k as int] == l);
            assert(lspec[k as int] == l);
        }
        let cls = classify_line(&csl[lo..hi]);
        match cls {
            LineClass::Blank => {
                if unit.active {
                    unit.doc_open = false;
                    append_body(&mut unit.body, csl, lo, hi);
                }
            },
            LineClass::Text => {
                if !unit.active {
                    unit.active = true;
                }
                unit.doc_open = false;
                unit.body_started = true;
                append_body(&mut unit.body, csl, lo, hi);
            },
            LineClass::Comment(payload) => {
                let ghost pv = payload@;
                if unit.active && unit.doc_open {
                    unit.doc = match unit.doc {
                        Some(mut d) => {
                            crate::chars::push_char(&mut d, '\n');
                            d.append(payload.as_str());
                            proof {
                                assert(d@ =~= st0.unit.doc->0 + seq!['\n'] + pv);
                            }
                            Some(d)
                        },
                        None => {
                            proof {
                                assert(false);
                            }
                            None
                        },
                    };
                } else {
                    if !unit.active {
                        unit.active = true;
                    }
                    unit.body_started = true;
                    append_body(&mut unit.body, csl, lo, hi);
                }
            },
            LineClass::NameDecl(res) => {
                if unit.active && (unit.has_name || unit.body_started) {
                    unit = finish_unit(&mut queries, &mut errors, unit);
                }
                unit.active = true;
                unit.has_name = true;
                unit.doc_open = false;
                match res {
                    Ok((n, kk, m)) => {
                        unit.sig = Some((n, kk, m));
                    },
                    Err(e) => {
                        if unit.err.is_none() {
                            unit.err = Some(e);
                        }
                    },
                }
            },
            LineClass::DocDecl(text) => {
                if unit.active && (unit.has_doc || unit.body_started) {
                    unit = finish_unit(&mut queries, &mut errors, unit);
                }
                unit.active = true;
                unit.has_doc = true;
                unit.doc = Some(text);
                unit.doc_open = true;
                if is_last && unit.err.is_none() {
                    unit.err = Some(AnnotationErrorKind::UnterminatedDoc);
                }
            },
        }
        proof {
            assert((SpecState {
                queries: query_views(queries@),
                errors: error_views(errors@),
                unit: unit@,
            }) =~= spec_step(st0, l, is_last));
        }
        k = k + 1;
    }
    let ghost st_last = SpecState {
        queries: query_views(queries@),
        errors: error_views(errors@),
        unit: unit@,
    };
    unit = finish_unit(&mut queries, &mut errors, unit);
    proof {
        assert(spec_run(lspec, nlines as int, st_last) == spec_finish(st_last));
    }
    (queries, errors)
}

/// Parses an annotation file into its `Query` records: `Ok` with every
/// unit's record when the whole file is well formed, `Err` with every
/// malformed unit's error otherwise.
pub fn parse_queries(input: String) -> (r: Result<Vec<Query>, Vec<AnnotationError>>)
    ensures
        r is Ok <==> spec_parse(input@).1.len() == 0,
        r is Ok ==> query_views(r->Ok_0@) == spec_parse(input@).0,
        r is Err ==> error_views(r->Err_0@) == spec_parse(input@).1,
{
    let (queries, errors) = parse_annotation_file(input.as_str());
    if errors.len() == 0 {
        proof {
            assert(error_views(errors@).len() == 0);
        }
        Ok(queries)
    } else {
        proof {
            assert(error_views(errors@).len() > 0);
        }
        Err(errors)
    }
}

} // verus!
