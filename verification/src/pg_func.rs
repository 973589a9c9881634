//! Routine signatures and the naming-convention grammar.
//!
//! A routine's declared name encodes its HTTP binding:
//! `"<verb> /<segment>/...[?name[&name...]]"`, where a segment starting
//! with `:` marks a path parameter and the verb is one of
//! `get|put|post|patch|delete`, matched without regard to ASCII case.
//! `parse_name` maps such a name to `(method, path segments, query names)`;
//! `from_rows` turns raw catalog rows into structured `PgFunc` signatures.
use crate::modes::{spec_decode_mode, ArgMode};
use crate::strutil::{
    drop_empty, filter_nonempty, join_char, lemma_concat_nocontain, lemma_filter_nonempty_props,
    lemma_join_first, lemma_join_last, lemma_join_nocontain, lemma_split_append, lemma_split_join,
    lemma_split_len, lemma_split_nocontain, lemma_split_tokens_free, lemma_split_whole,
    lemma_trim_end_free, lemma_trim_end_props, lemma_trim_start_free, lemma_trim_start_props,
    lower_seq, split_char, split_str, str_eq_ignore_case, strs_view, trim_char, trim_end_char,
    trim_start_char, trim_str,
};
use vstd::prelude::*;

verus! {

/// One declared routine argument: its name, mode and type identifier,
/// in catalog declaration order.
#[derive(Debug)]
pub struct PgArg {
    pub name: String,
    pub mode: ArgMode,
    pub ty: String,
}

/// The mathematical value of a `PgArg`.
pub ghost struct SpecArg {
    pub name: Seq<char>,
    pub mode: ArgMode,
    pub ty: Seq<char>,
}

impl View for PgArg {
    type V = SpecArg;

    open spec fn view(&self) -> SpecArg {
        SpecArg { name: self.name@, mode: self.mode, ty: self.ty@ }
    }
}

/// The views of a sequence of arguments.
pub open spec fn args_view(v: Seq<PgArg>) -> Seq<SpecArg> {
    v.map_values(|a: PgArg| a@)
}

/// One introspected routine signature: the raw declared name (the source of
/// truth), its parsed method/path/query, and the return and argument shape.
#[derive(Debug)]
pub struct PgFunc {
    pub name: String,
    pub method: String,
    pub path: Vec<String>,
    pub query: Vec<String>,
    pub retset: bool,
    pub rettype: String,
    pub args: Vec<PgArg>,
}

/// The mathematical value of a `PgFunc`.
pub ghost struct SpecFunc {
    pub name: Seq<char>,
    pub method: Seq<char>,
    pub path: Seq<Seq<char>>,
    pub query: Seq<Seq<char>>,
    pub retset: bool,
    pub rettype: Seq<char>,
    pub args: Seq<SpecArg>,
}

impl View for PgFunc {
    type V = SpecFunc;

    open spec fn view(&self) -> SpecFunc {
        SpecFunc {
            name: self.name@,
            method: self.method@,
            path: strs_view(self.path@),
            query: strs_view(self.query@),
            retset: self.retset,
            rettype: self.rettype@,
            args: args_view(self.args@),
        }
    }
}

/// The views of a sequence of signatures.
pub open spec fn funcs_view(v: Seq<PgFunc>) -> Seq<SpecFunc> {
    v.map_values(|f: PgFunc| f@)
}

/// A routine name that does not follow the grammar.
#[derive(Clone, Copy, Debug, PartialEq, Eq, Structural)]
pub enum NameError {
    Invalid,
}

/// The verb alphabet, matched without regard to ASCII case.
pub open spec fn is_verb(m: Seq<char>) -> bool {
    ||| lower_seq(m) == "get"@
    ||| lower_seq(m) == "put"@
    ||| lower_seq(m) == "post"@
    ||| lower_seq(m) == "patch"@
    ||| lower_seq(m) == "delete"@
}

/// A path is trimmed of spaces and of leading/trailing `/`, then split on
/// `/`; an entirely empty path yields a single empty root segment.
pub open spec fn spec_parse_path(p: Seq<char>) -> Seq<Seq<char>> {
    split_char(trim_char(trim_char(p, ' '), '/'), '/')
}

/// The parsed path segments are admissible: every segment is non-empty,
/// except that the single empty segment stands for the bare root path.
pub open spec fn valid_segments(p: Seq<Seq<char>>) -> bool {
    ||| (p.len() == 1 && p[0].len() == 0)
    ||| (forall|i: int| 0 <= i < p.len() ==> (#[trigger] p[i]).len() > 0)
}

/// The name grammar: exactly two space-separated tokens (verb and url); the
/// url holds at most one `?`; the query part splits on `&`. An absent query
/// is the empty sequence. An empty path segment is outside the grammar —
/// a segment is a literal or `:` and a literal — except the bare root path,
/// which is the single empty segment.
pub open spec fn spec_parse_name(s: Seq<char>) -> Option<
    (Seq<char>, Seq<Seq<char>>, Seq<Seq<char>>),
> {
    let toks = filter_nonempty(split_char(s, ' '));
    if toks.len() != 2 {
        None
    } else if !is_verb(toks[0]) {
        None
    } else {
        let parts = split_char(toks[1], '?');
        if parts.len() == 1 {
            let p = spec_parse_path(parts[0]);
            if valid_segments(p) {
                Some((toks[0], p, Seq::<Seq<char>>::empty()))
            } else {
                None
            }
        } else if parts.len() == 2 {
            let p = spec_parse_path(parts[0]);
            if valid_segments(p) {
                Some((toks[0], p, split_char(parts[1], '&')))
            } else {
                None
            }
        } else {
            None
        }
    }
}

/// Decides whether parsed path segments are admissible.
pub fn segments_ok(path: &Vec<String>) -> (r: bool)
    ensures
        r == valid_segments(strs_view(path@)),
{
    if path.len() == 1 {
        // a single segment is either the bare root or plainly non-empty
        proof {
            if strs_view(path@)[0].len() > 0 {
                assert(forall|i: int|
                    0 <= i < strs_view(path@).len() ==> (#[trigger] strs_view(path@)[i]).len() > 0);
            }
        }
        return true;
    }
    let mut i: usize = 0;
    while i < path.len()
        invariant
            0 <= i <= path@.len(),
            path@.len() != 1,
            forall|j: int| 0 <= j < i ==> (#[trigger] strs_view(path@)[j]).len() > 0,
        decreases path@.len() - i,
    {
        if path[i].as_str().unicode_len() == 0 {
            assert(strs_view(path@)[i as int].len() == 0);
            return false;
        }
        i += 1;
    }
    true
}

/// ASCII case folding leaves the five lower-case verb literals unchanged.
pub proof fn lemma_verbs_lower()
    ensures
        lower_seq("get"@) == "get"@,
        lower_seq("put"@) == "put"@,
        lower_seq("post"@) == "post"@,
        lower_seq("patch"@) == "patch"@,
        lower_seq("delete"@) == "delete"@,
{
    reveal_strlit("get");
    reveal_strlit("put");
    reveal_strlit("post");
    reveal_strlit("patch");
    reveal_strlit("delete");
    assert(lower_seq("get"@) =~= "get"@);
    assert(lower_seq("put"@) =~= "put"@);
    assert(lower_seq("post"@) =~= "post"@);
    assert(lower_seq("patch"@) =~= "patch"@);
    assert(lower_seq("delete"@) =~= "delete"@);
}

impl PgFunc {
    /// Parses a declared routine name into `(method, path segments, query
    /// names)`. The method is returned as written; it must be one of the
    /// five verbs up to ASCII case, and no path segment may be empty except
    /// the single segment of the bare root path. Every failure is
    /// `NameError::Invalid`.
    pub fn parse_name(name: &str) -> (r: Result<(String, Vec<String>, Vec<String>), NameError>)
        ensures
            r is Ok <==> spec_parse_name(name@) is Some,
            r matches Ok(v) ==> spec_parse_name(name@) == Some(
                (v.0@, strs_view(v.1@), strs_view(v.2@)),
            ),
    {
        proof {
            lemma_verbs_lower();
        }
        let toks0 = split_str(name, ' ');
        let toks = drop_empty(&toks0);
        if toks.len() != 2 {
            return Err(NameError::Invalid);
        }
        let method = toks[0].clone();
        let m = method.as_str();
        if !(str_eq_ignore_case(m, "get") || str_eq_ignore_case(m, "put") || str_eq_ignore_case(
            m,
            "post",
        ) || str_eq_ignore_case(m, "patch") || str_eq_ignore_case(m, "delete")) {
            return Err(NameError::Invalid);
        }
        let parts = split_str(toks[1].as_str(), '?');
        if parts.len() == 1 {
            let path = Self::parse_path(parts[0].as_str());
            if !segments_ok(&path) {
                return Err(NameError::Invalid);
            }
            let query: Vec<String> = Vec::new();
            proof {
                assert(strs_view(query@) =~= Seq::<Seq<char>>::empty());
            }
            Ok((method, path, query))
        } else if parts.len() == 2 {
            let path = Self::parse_path(parts[0].as_str());
            if !segments_ok(&path) {
                return Err(NameError::Invalid);
            }
            let query = split_str(parts[1].as_str(), '&');
            Ok((method, path, query))
        } else {
            Err(NameError::Invalid)
        }
    }

    /// Splits a path on `/` after trimming spaces and outer slashes; an
    /// entirely empty path yields a single empty root segment.
    pub fn parse_path(path: &str) -> (r: Vec<String>)
        ensures
            strs_view(r@) == spec_parse_path(path@),
    {
        let t = trim_str(trim_str(path, ' '), '/');
        split_str(t, '/')
    }
}

/// One raw catalog row: the declared name, the return-set flag and type,
/// and the three parallel per-argument sequences.
#[derive(Debug)]
pub struct CatalogRow {
    pub name: String,
    pub retset: bool,
    pub rettype: String,
    pub argnames: Vec<String>,
    pub argmodes: Vec<String>,
    pub argtypes: Vec<String>,
}

/// The mathematical value of a `CatalogRow`.
pub ghost struct SpecRow {
    pub name: Seq<char>,
    pub retset: bool,
    pub rettype: Seq<char>,
    pub argnames: Seq<Seq<char>>,
    pub argmodes: Seq<Seq<char>>,
    pub argtypes: Seq<Seq<char>>,
}

impl View for CatalogRow {
    type V = SpecRow;

    open spec fn view(&self) -> SpecRow {
        SpecRow {
            name: self.name@,
            retset: self.retset,
            rettype: self.rettype@,
            argnames: strs_view(self.argnames@),
            argmodes: strs_view(self.argmodes@),
            argtypes: strs_view(self.argtypes@),
        }
    }
}

/// The views of a sequence of catalog rows.
pub open spec fn rows_view(v: Seq<CatalogRow>) -> Seq<SpecRow> {
    v.map_values(|r: CatalogRow| r@)
}

/// A catalog whose format this library does not understand. Fatal: the
/// whole introspection pass is abandoned, never silently coerced.
#[derive(Clone, Copy, Debug, PartialEq, Eq, Structural)]
pub enum CatalogError {
    /// An argument mode code outside the closed alphabet.
    UnknownMode,
    /// The per-argument name/mode/type sequences do not line up.
    ArityMismatch,
}

/// Why a routine was skipped during introspection or route compilation.
#[derive(Clone, Copy, Debug, PartialEq, Eq, Structural)]
pub enum DiagKind {
    /// The declared name does not follow the grammar.
    BadName,
    /// An argument has mode `variadic` or `table`, which has no HTTP binding.
    UnsupportedMode,
    /// A path parameter has no `in`/`inout` argument left to bind to.
    UnboundPathParam,
    /// A declared query name matches no unconsumed `in`/`inout` argument.
    UnboundQueryName,
    /// More than one argument is left for the single body slot.
    AmbiguousBody,
    /// Another compiled route already has the same method and path shape.
    DuplicateRoute,
}

/// A per-routine, non-fatal skip record.
#[derive(Debug)]
pub struct Diagnostic {
    pub routine: String,
    pub kind: DiagKind,
}

/// The mathematical value of a `Diagnostic`.
pub ghost struct SpecDiag {
    pub routine: Seq<char>,
    pub kind: DiagKind,
}

impl View for Diagnostic {
    type V = SpecDiag;

    open spec fn view(&self) -> SpecDiag {
        SpecDiag { routine: self.routine@, kind: self.kind }
    }
}

/// The views of a sequence of diagnostics.
pub open spec fn diags_view(v: Seq<Diagnostic>) -> Seq<SpecDiag> {
    v.map_values(|d: Diagnostic| d@)
}

/// The row's parallel argument sequences line up: names and types have the
/// same length, and modes are either absent or one per argument.
pub open spec fn row_arity_ok(row: SpecRow) -> bool {
    &&& row.argnames.len() == row.argtypes.len()
    &&& (row.argmodes.len() == 0 || row.argmodes.len() == row.argtypes.len())
}

/// The signature a well-formed row introspects to, given its parsed name.
pub open spec fn row_func(row: SpecRow, m: Seq<char>, p: Seq<Seq<char>>, q: Seq<Seq<char>>) -> SpecFunc {
    SpecFunc {
        name: row.name,
        method: m,
        path: p,
        query: q,
        retset: row.retset,
        rettype: row.rettype,
        args: Seq::new(
            row.argtypes.len(),
            |i: int|
                SpecArg {
                    name: row.argnames[i],
                    mode: spec_decode_mode(row.argmodes, i).unwrap(),
                    ty: row.argtypes[i],
                },
        ),
    }
}

/// Introspection of one catalog row: a name outside the grammar skips the
/// row (`Ok(None)`, recorded as a diagnostic by the caller); a malformed
/// argument shape or an unknown mode code is fatal.
pub open spec fn spec_introspect_row(row: SpecRow) -> Result<Option<SpecFunc>, CatalogError> {
    match spec_parse_name(row.name) {
        None => Ok(None),
        Some((m, p, q)) => {
            if !row_arity_ok(row) {
                Err(CatalogError::ArityMismatch)
            } else if exists|i: int|
                0 <= i < row.argtypes.len() && spec_decode_mode(row.argmodes, i) is None {
                Err(CatalogError::UnknownMode)
            } else {
                Ok(Some(row_func(row, m, p, q)))
            }
        },
    }
}

/// Introspection of a whole catalog snapshot, row by row, in order: one
/// signature per well-formed row, one diagnostic per skipped row, and the
/// first fatal format violation aborts the pass.
pub open spec fn spec_introspect(rows: Seq<SpecRow>) -> Result<
    (Seq<SpecFunc>, Seq<SpecDiag>),
    CatalogError,
>
    decreases rows.len(),
{
    if rows.len() == 0 {
        Ok((Seq::<SpecFunc>::empty(), Seq::<SpecDiag>::empty()))
    } else {
        match spec_introspect(rows.drop_last()) {
            Err(e) => Err(e),
            Ok((fs, ds)) => match spec_introspect_row(rows.last()) {
                Err(e) => Err(e),
                Ok(None) => Ok(
                    (fs, ds.push(SpecDiag { routine: rows.last().name, kind: DiagKind::BadName })),
                ),
                Ok(Some(f)) => Ok((fs.push(f), ds)),
            },
        }
    }
}

impl PgFunc {
    /// Turns raw catalog rows into structured signatures. Rows whose names
    /// fail the grammar are skipped with a diagnostic; a row whose argument
    /// sequences do not line up, or that carries an unknown mode code, is a
    /// fatal catalog-format error.
    pub fn from_rows(rows: &Vec<CatalogRow>) -> (r: Result<
        (Vec<PgFunc>, Vec<Diagnostic>),
        CatalogError,
    >)
        ensures
            r is Ok <==> spec_introspect(rows_view(rows@)) is Ok,
            r matches Ok(v) ==> spec_introspect(rows_view(rows@)) == Ok::<_, CatalogError>(
                (funcs_view(v.0@), diags_view(v.1@)),
            ),
            r matches Err(e) ==> spec_introspect(rows_view(rows@)) == Err::<
                (Seq<SpecFunc>, Seq<SpecDiag>),
                _,
            >(e),
    {
        let mut funcs: Vec<PgFunc> = Vec::new();
        let mut diags: Vec<Diagnostic> = Vec::new();
        let mut i: usize = 0;
        proof {
            assert(rows_view(rows@).take(0) =~= Seq::<SpecRow>::empty());
            assert(spec_introspect(rows_view(rows@).take(0)) == Ok::<_, CatalogError>((
                funcs_view(funcs@),
                diags_view(diags@),
            ))) by {
                assert(funcs_view(funcs@) =~= Seq::<SpecFunc>::empty());
                assert(diags_view(diags@) =~= Seq::<SpecDiag>::empty());
            }
        }
        while i < rows.len()
            invariant
                0 <= i <= rows@.len(),
                spec_introspect(rows_view(rows@).take(i as int)) == Ok::<_, CatalogError>((
                    funcs_view(funcs@),
                    diags_view(diags@),
                )),
            decreases rows@.len() - i,
        {
            let ghost pre_funcs = funcs@;
            let ghost pre_diags = diags@;
            let ghost rv = rows_view(rows@);
            proof {
                assert(rv.take(i + 1).drop_last() =~= rv.take(i as int));
                assert(rv.take(i + 1).last() == rows@[i as int]@);
            }
            let row = &rows[i];
            match Self::parse_name(row.name.as_str()) {
                Err(_) => {
                    diags.push(Diagnostic { routine: row.name.clone(), kind: DiagKind::BadName });
                    proof {
                        assert(diags_view(diags@) =~= diags_view(pre_diags).push(
                            SpecDiag { routine: rows@[i as int]@.name, kind: DiagKind::BadName },
                        ));
                    }
                },
                Ok((method, path, query)) => {
                    let nargs = row.argtypes.len();
                    if row.argnames.len() != nargs || !(row.argmodes.len() == 0
                        || row.argmodes.len() == nargs) {
                        proof {
                            lemma_introspect_err_persists(rv, i + 1);
                        }
                        return Err(CatalogError::ArityMismatch);
                    }
                    let mut args: Vec<PgArg> = Vec::new();
                    let mut j: usize = 0;
                    let ghost full_args = row_func(rows@[i as int]@, method@, strs_view(path@),
                        strs_view(query@)).args;
                    proof {
                        assert(args_view(args@) =~= full_args.take(0));
                    }
                    while j < nargs
                        invariant
                            0 <= i < rows@.len(),
                            rv == rows_view(rows@),
                            0 <= j <= nargs,
                            nargs == rows@[i as int]@.argtypes.len(),
                            row == rows@[i as int],
                            row_arity_ok(rows@[i as int]@),
                            spec_parse_name(rows@[i as int]@.name) == Some(
                                (method@, strs_view(path@), strs_view(query@)),
                            ),
                            full_args == row_func(rows@[i as int]@, method@, strs_view(path@),
                                strs_view(query@)).args,
                            full_args.len() == nargs,
                            args_view(args@) == full_args.take(j as int),
                            forall|k: int|
                                0 <= k < j ==> spec_decode_mode(
                                    rows@[i as int]@.argmodes,
                                    k,
                                ) is Some,
                            spec_introspect(rows_view(rows@).take(i as int)) == Ok::<
                                _,
                                CatalogError,
                            >((funcs_view(pre_funcs), diags_view(pre_diags))),
                            funcs@ == pre_funcs,
                            diags@ == pre_diags,
                        decreases nargs - j,
                    {
                        let ghost pre_args = args@;
                        match ArgMode::decode(&row.argmodes, j) {
                            None => {
                                proof {
                                    assert(rv.take(i + 1).drop_last() =~= rv.take(i as int));
                                    assert(rv.take(i + 1).last() == rows@[i as int]@);
                                    assert(spec_decode_mode(rows@[i as int]@.argmodes, j as int)
                                        is None);
                                    assert(exists|k: int|
                                        0 <= k < rows@[i as int]@.argtypes.len()
                                            && spec_decode_mode(
                                            rows@[i as int]@.argmodes,
                                            k,
                                        ) is None) by {
                                        assert(0 <= j < rows@[i as int]@.argtypes.len()
                                            && spec_decode_mode(
                                            rows@[i as int]@.argmodes,
                                            j as int,
                                        ) is None);
                                    }
                                    assert(spec_introspect_row(rows@[i as int]@) == Err::<
                                        Option<SpecFunc>,
                                        CatalogError,
                                    >(CatalogError::UnknownMode));
                                    lemma_introspect_err_persists(rv, i + 1);
                                }
                                return Err(CatalogError::UnknownMode);
                            },
                            Some(mode) => {
                                args.push(
                                    PgArg {
                                        name: row.argnames[j].clone(),
                                        mode,
                                        ty: row.argtypes[j].clone(),
                                    },
                                );
                                proof {
                                    assert(args_view(args@) =~= args_view(pre_args).push(
                                        full_args[j as int],
                                    ));
                                    assert(args_view(args@) =~= full_args.take(j + 1));
                                }
                            },
                        }
                        j += 1;
                    }
                    let func = PgFunc {
                        name: row.name.clone(),
                        method,
                        path,
                        query,
                        retset: row.retset,
                        rettype: row.rettype.clone(),
                        args,
                    };
                    funcs.push(func);
                    proof {
                        assert(full_args.take(nargs as int) =~= full_args);
                        assert(spec_introspect_row(rows@[i as int]@) == Ok::<_, CatalogError>(
                            Some(funcs@.last()@),
                        ));
                        assert(funcs_view(funcs@) =~= funcs_view(pre_funcs).push(funcs@.last()@));
                    }
                },
            }
            i += 1;
        }
        proof {
            assert(rows_view(rows@).take(rows@.len() as int) =~= rows_view(rows@));
        }
        Ok((funcs, diags))
    }
}

/// Law: for any row whose name follows the grammar and whose argument
/// sequences line up, one unknown mode code makes introspection of the row
/// fatal — it is never silently coerced. A row whose name fails the grammar
/// is skipped before its modes are read, as skip-and-continue asks, so name
/// admissibility is the premise.
pub proof fn lemma_unknown_mode_fatal(row: SpecRow)
    requires
        spec_parse_name(row.name) is Some,
        row_arity_ok(row),
        exists|i: int| 0 <= i < row.argtypes.len() && spec_decode_mode(row.argmodes, i) is None,
    ensures
        spec_introspect_row(row) == Err::<Option<SpecFunc>, CatalogError>(CatalogError::UnknownMode),
{
}

/// Once a prefix of the catalog introspects to a fatal error, the whole
/// catalog introspects to that same error.
pub proof fn lemma_introspect_err_persists(rows: Seq<SpecRow>, m: int)
    requires
        0 <= m <= rows.len(),
        spec_introspect(rows.take(m)) is Err,
    ensures
        spec_introspect(rows) == spec_introspect(rows.take(m)),
    decreases rows.len() - m,
{
    if m == rows.len() {
        assert(rows.take(m) =~= rows);
    } else {
        assert(rows.take(m + 1).drop_last() =~= rows.take(m));
        lemma_introspect_err_persists(rows, m + 1);
    }
}


/// The canonical serialization of parsed components: the verb, a space, a
/// slash-led path, and — when any query name exists — `?` and the names
/// joined with `&`.
pub open spec fn spec_serialize_name(m: Seq<char>, p: Seq<Seq<char>>, q: Seq<Seq<char>>) -> Seq<
    char,
> {
    m + seq![' '] + seq!['/'] + join_char(p, '/') + (if q.len() == 0 {
        Seq::<char>::empty()
    } else {
        seq!['?'] + join_char(q, '&')
    })
}

/// Components the grammar can express: a verb without spaces; at least one
/// path segment, none holding a slash, space or question mark, all
/// non-empty unless the path is the bare root; query names without
/// ampersands, spaces or question marks.
pub open spec fn valid_parsed(m: Seq<char>, p: Seq<Seq<char>>, q: Seq<Seq<char>>) -> bool {
    &&& is_verb(m)
    &&& !m.contains(' ')
    &&& p.len() >= 1
    &&& forall|i: int|
        0 <= i < p.len() ==> !(#[trigger] p[i]).contains('/') && !p[i].contains(' ')
            && !p[i].contains('?')
    &&& valid_segments(p)
    &&& forall|i: int|
        0 <= i < q.len() ==> !(#[trigger] q[i]).contains('&') && !q[i].contains(' ')
            && !q[i].contains('?')
}

/// Law: whatever parses, parses to components the grammar can express.
pub proof fn lemma_parse_components_valid(s: Seq<char>)
    requires
        spec_parse_name(s) is Some,
    ensures
        ({
            let (m, p, q) = spec_parse_name(s).unwrap();
            valid_parsed(m, p, q)
        }),
{
    let sp = split_char(s, ' ');
    let toks = filter_nonempty(sp);
    lemma_split_tokens_free(s, ' ');
    lemma_filter_nonempty_props(sp);
    let m = toks[0];
    let url = toks[1];
    assert(!m.contains(' ') && !url.contains(' ') && url.len() > 0) by {
        let i0 = choose|i: int| 0 <= i < sp.len() && sp[i] == toks[0];
        let i1 = choose|i: int| 0 <= i < sp.len() && sp[i] == toks[1];
        assert(!sp[i0].contains(' '));
        assert(!sp[i1].contains(' '));
    }
    let parts = split_char(url, '?');
    let pp = parts[0];
    lemma_split_tokens_free(url, '?');
    lemma_split_nocontain(url, '?', ' ');
    assert(!pp.contains('?') && !pp.contains(' '));
    // the path: trims keep the absences, then the split keeps them per token
    let ts = trim_start_char(pp, ' ');
    lemma_trim_start_props(pp, ' ', '?');
    lemma_trim_start_props(pp, ' ', ' ');
    let u = trim_end_char(ts, ' ');
    lemma_trim_end_props(ts, ' ', '?');
    lemma_trim_end_props(ts, ' ', ' ');
    let v = trim_start_char(u, '/');
    lemma_trim_start_props(u, '/', '?');
    lemma_trim_start_props(u, '/', ' ');
    let t = trim_end_char(v, '/');
    lemma_trim_end_props(v, '/', '?');
    lemma_trim_end_props(v, '/', ' ');
    assert(t == trim_char(trim_char(pp, ' '), '/'));
    let p = split_char(t, '/');
    lemma_split_len(t, '/');
    lemma_split_tokens_free(t, '/');
    lemma_split_nocontain(t, '/', '?');
    lemma_split_nocontain(t, '/', ' ');
    // the segments are admissible by the grammar's own guard
    if parts.len() == 2 {
        let qp = parts[1];
        assert(!qp.contains('?') && !qp.contains(' '));
        lemma_split_tokens_free(qp, '&');
        lemma_split_nocontain(qp, '&', '?');
        lemma_split_nocontain(qp, '&', ' ');
    }
}

/// Law: serializing components the grammar can express and parsing the
/// result yields exactly those components back.
pub proof fn lemma_parse_serialized(m: Seq<char>, p: Seq<Seq<char>>, q: Seq<Seq<char>>)
    requires
        valid_parsed(m, p, q),
    ensures
        spec_parse_name(spec_serialize_name(m, p, q)) == Some((m, p, q)),
{
    let jp = join_char(p, '/');
    let qtail: Seq<char> = if q.len() == 0 {
        Seq::<char>::empty()
    } else {
        seq!['?'] + join_char(q, '&')
    };
    let pathpart = seq!['/'] + jp;
    let url = pathpart + qtail;
    let ser = spec_serialize_name(m, p, q);
    assert(ser =~= m + seq![' '] + url);
    // the single space separates exactly the verb and the url
    assert(!seq!['/'].contains(' ') && !seq!['/'].contains('?')) by {
        assert(forall|i: int| 0 <= i < 1 ==> seq!['/'][i] == '/');
    }
    assert(!seq!['?'].contains(' ')) by {
        assert(forall|i: int| 0 <= i < 1 ==> seq!['?'][i] == '?');
    }
    lemma_join_nocontain(p, '/', ' ');
    lemma_join_nocontain(p, '/', '?');
    lemma_concat_nocontain(seq!['/'], jp, ' ');
    lemma_concat_nocontain(seq!['/'], jp, '?');
    if q.len() > 0 {
        lemma_join_nocontain(q, '&', ' ');
        lemma_concat_nocontain(seq!['?'], join_char(q, '&'), ' ');
    }
    lemma_concat_nocontain(pathpart, qtail, ' ');
    lemma_split_append(m, url, ' ');
    lemma_split_whole(m, ' ');
    assert(split_char(ser, ' ') =~= seq![m, url]) by {
        assert(split_char(m + seq![' '] + url, ' ') == split_char(m, ' ').push(url));
        assert(seq![m].push(url) =~= seq![m, url]);
    }
    // the verb literals are non-empty, so both tokens survive the filter
    assert(m.len() > 0) by {
        reveal_strlit("get");
        reveal_strlit("put");
        reveal_strlit("post");
        reveal_strlit("patch");
        reveal_strlit("delete");
        assert(lower_seq(m).len() == m.len());
    }
    let two = seq![m, url];
    let toks = filter_nonempty(two);
    assert(toks =~= two) by {
        assert(two.drop_last() =~= seq![m]);
        assert(seq![m].drop_last() =~= Seq::<Seq<char>>::empty());
        assert(filter_nonempty(Seq::<Seq<char>>::empty()) == Seq::<Seq<char>>::empty());
        assert(filter_nonempty(seq![m]) =~= seq![m]);
        assert(url.len() > 0);
    }
    assert(toks.len() == 2 && toks[0] == m && toks[1] == url);
    // the url splits into the path part and, when present, the query part
    let parts = split_char(url, '?');
    if q.len() == 0 {
        assert(url =~= pathpart);
        lemma_split_whole(pathpart, '?');
        assert(parts =~= seq![pathpart]);
    } else {
        let jq = join_char(q, '&');
        lemma_join_nocontain(q, '&', '?');
        assert(url =~= pathpart + seq!['?'] + jq);
        lemma_split_append(pathpart, jq, '?');
        lemma_split_whole(pathpart, '?');
        assert(parts =~= seq![pathpart, jq]);
        lemma_split_join(q, '&');
        assert(split_char(parts[1], '&') == q);
    }
    // the path part trims back to the join and splits back to the segments
    assert(spec_parse_path(pathpart) == p) by {
        lemma_trim_start_free(pathpart, ' ');
        lemma_trim_end_free(pathpart, ' ');
        assert(trim_char(pathpart, ' ') == pathpart);
        assert(pathpart[0] == '/');
        assert(pathpart.first() == '/');
        assert(pathpart.drop_first() =~= jp);
        assert(trim_start_char(pathpart, '/') == trim_start_char(jp, '/'));
        if p.len() == 1 && p[0].len() == 0 {
            assert(jp == p[0]);
            assert(jp.len() == 0);
            assert(trim_start_char(jp, '/') == jp);
            assert(trim_end_char(jp, '/') == jp);
            assert(split_char(jp, '/') == seq![Seq::<char>::empty()]);
            assert(p[0] =~= Seq::<char>::empty());
            assert(p =~= seq![Seq::<char>::empty()]);
        } else {
            assert(p[0].len() > 0);
            assert(p.last().len() > 0) by {
                if p.len() == 1 {
                    assert(p.last() == p[0]);
                }
            }
            lemma_join_first(p, '/');
            assert(jp[0] != '/') by {
                if jp[0] == '/' {
                    assert(p[0][0] == '/');
                    assert(p[0].contains('/'));
                }
            }
            assert(trim_start_char(jp, '/') == jp);
            lemma_join_last(p, '/');
            assert(jp.last() != '/') by {
                if jp.last() == '/' {
                    assert(p.last().last() == '/');
                    assert(p.last().contains('/'));
                }
            }
            assert(trim_end_char(jp, '/') == jp);
            lemma_split_join(p, '/');
        }
    }
}

/// Law: re-serializing what a name parsed to and re-parsing gives the very
/// same parse — the grammar's round trip is idempotent.
pub proof fn lemma_serialize_round_trip(s: Seq<char>)
    requires
        spec_parse_name(s) is Some,
    ensures
        ({
            let (m, p, q) = spec_parse_name(s).unwrap();
            spec_parse_name(spec_serialize_name(m, p, q)) == spec_parse_name(s)
        }),
{
    let (m, p, q) = spec_parse_name(s).unwrap();
    lemma_parse_components_valid(s);
    lemma_parse_serialized(m, p, q);
}

} // verus!
