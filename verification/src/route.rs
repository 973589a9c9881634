//! The route compiler: combines each routine's parsed name with its
//! signature to build an immutable route table.
//!
//! Binding precedence: path parameters consume `in`/`inout` arguments
//! positionally in declaration order; each query name then binds to an
//! unconsumed `in`/`inout` argument of exactly that name; at most one
//! unconsumed `in`/`inout` argument may remain, as the single body binding.
//! Routines with `variadic` or `table` arguments, unbound query names, an
//! ambiguous body, or a route key (method plus path shape) already taken are
//! skipped with a diagnostic; compilation of the others continues.
use crate::modes::ArgMode;
use crate::pg_func::{
    args_view, diags_view, funcs_view, is_verb, spec_parse_name, DiagKind, Diagnostic, PgArg,
    PgFunc, SpecArg, SpecDiag, SpecFunc,
};
use crate::strutil::{lower_seq, str_eq, str_eq_ignore_case, strs_view};
use vstd::prelude::*;

verus! {

/// The integer values of a sequence of indices.
pub open spec fn usizes(v: Seq<usize>) -> Seq<int> {
    v.map_values(|x: usize| x as int)
}

/// One compiled path-pattern segment: literal text to match exactly, or a
/// parameter slot bound to the argument with the given index.
#[derive(Debug)]
pub enum PatternSeg {
    Lit(String),
    Param(usize),
}

/// The mathematical value of a `PatternSeg`.
pub ghost enum SpecSeg {
    Lit(Seq<char>),
    Param(int),
}

impl View for PatternSeg {
    type V = SpecSeg;

    open spec fn view(&self) -> SpecSeg {
        match self {
            PatternSeg::Lit(s) => SpecSeg::Lit(s@),
            PatternSeg::Param(i) => SpecSeg::Param(*i as int),
        }
    }
}

/// The views of a sequence of pattern segments.
pub open spec fn segs_view(v: Seq<PatternSeg>) -> Seq<SpecSeg> {
    v.map_values(|s: PatternSeg| s@)
}

/// How a routine's result is shaped into a response payload.
#[derive(Debug)]
pub enum OutputSpec {
    /// A single value, encoded per its type.
    Scalar,
    /// A single composite row, as a field-to-value mapping.
    Row,
    /// An ordered sequence of rows; empty is valid.
    RowSet,
    /// A mapping built only from the `out` arguments (their indices, in
    /// declaration order), regardless of the declared return type.
    OutComposite(Vec<usize>),
}

/// The mathematical value of an `OutputSpec`.
pub ghost enum SpecOutput {
    Scalar,
    Row,
    RowSet,
    OutComposite(Seq<int>),
}

impl View for OutputSpec {
    type V = SpecOutput;

    open spec fn view(&self) -> SpecOutput {
        match self {
            OutputSpec::Scalar => SpecOutput::Scalar,
            OutputSpec::Row => SpecOutput::Row,
            OutputSpec::RowSet => SpecOutput::RowSet,
            OutputSpec::OutComposite(v) => SpecOutput::OutComposite(usizes(v@)),
        }
    }
}

/// The views of the query bindings.
pub open spec fn qb_view(v: Seq<(String, usize)>) -> Seq<(Seq<char>, int)> {
    v.map_values(|p: (String, usize)| (p.0@, p.1 as int))
}

/// One compiled route: everything the dispatcher needs to match a request,
/// bind its values and shape the result, resolved entirely at compile time.
#[derive(Debug)]
pub struct CompiledRoute {
    /// The routine's raw declared name: the invocation target.
    pub routine: String,
    /// The verb, folded to lower case.
    pub method: String,
    /// The path pattern, one segment per request path segment.
    pub pattern: Vec<PatternSeg>,
    /// Query name to argument index, in declared query order.
    pub query_bindings: Vec<(String, usize)>,
    /// The argument fed from the request body, if one remained.
    pub body_binding: Option<usize>,
    /// Response shaping.
    pub output: OutputSpec,
    /// The full argument list, in declaration order.
    pub args: Vec<PgArg>,
}

/// The mathematical value of a `CompiledRoute`.
pub ghost struct SpecRoute {
    pub routine: Seq<char>,
    pub method: Seq<char>,
    pub pattern: Seq<SpecSeg>,
    pub query_bindings: Seq<(Seq<char>, int)>,
    pub body_binding: Option<int>,
    pub output: SpecOutput,
    pub args: Seq<SpecArg>,
}

impl View for CompiledRoute {
    type V = SpecRoute;

    open spec fn view(&self) -> SpecRoute {
        SpecRoute {
            routine: self.routine@,
            method: self.method@,
            pattern: segs_view(self.pattern@),
            query_bindings: qb_view(self.query_bindings@),
            body_binding: match self.body_binding {
                Some(i) => Some(i as int),
                None => None,
            },
            output: self.output@,
            args: args_view(self.args@),
        }
    }
}

/// The views of a sequence of routes.
pub open spec fn routes_view(v: Seq<CompiledRoute>) -> Seq<SpecRoute> {
    v.map_values(|r: CompiledRoute| r@)
}

/// The indices of the `in`/`inout` arguments, in declaration order.
pub open spec fn input_indices(args: Seq<SpecArg>) -> Seq<int>
    decreases args.len(),
{
    if args.len() == 0 {
        Seq::<int>::empty()
    } else {
        let r = input_indices(args.drop_last());
        if args.last().mode.is_input() {
            r.push(args.len() - 1)
        } else {
            r
        }
    }
}

/// The indices of the `out` arguments, in declaration order.
pub open spec fn out_indices(args: Seq<SpecArg>) -> Seq<int>
    decreases args.len(),
{
    if args.len() == 0 {
        Seq::<int>::empty()
    } else {
        let r = out_indices(args.drop_last());
        if args.last().mode == ArgMode::Out {
            r.push(args.len() - 1)
        } else {
            r
        }
    }
}

/// A path segment starting with `:` is a parameter marker.
pub open spec fn is_param(seg: Seq<char>) -> bool {
    seg.len() > 0 && seg[0] == ':'
}

/// The number of parameter markers in a path.
pub open spec fn count_params(p: Seq<Seq<char>>) -> int
    decreases p.len(),
{
    if p.len() == 0 {
        0
    } else {
        count_params(p.drop_last()) + if is_param(p.last()) {
            1int
        } else {
            0int
        }
    }
}

pub proof fn lemma_count_params_step(p: Seq<Seq<char>>, i: int)
    requires
        0 <= i < p.len(),
    ensures
        count_params(p.take(i + 1)) == count_params(p.take(i)) + if is_param(p[i]) {
            1int
        } else {
            0int
        },
{
    assert(p.take(i + 1).drop_last() =~= p.take(i));
    assert(p.take(i + 1).last() == p[i]);
}

pub proof fn lemma_count_params_bounds(p: Seq<Seq<char>>, i: int)
    requires
        0 <= i <= p.len(),
    ensures
        count_params(p.take(i)) <= count_params(p),
        count_params(p.take(i)) >= 0,
    decreases p.len() - i,
{
    lemma_count_params_nonneg(p.take(i));
    if i == p.len() {
        assert(p.take(i) =~= p);
    } else {
        lemma_count_params_step(p, i);
        lemma_count_params_bounds(p, i + 1);
    }
}

pub proof fn lemma_count_params_nonneg(p: Seq<Seq<char>>)
    ensures
        count_params(p) >= 0,
    decreases p.len(),
{
    if p.len() > 0 {
        lemma_count_params_nonneg(p.drop_last());
    }
}

/// The compiled pattern: literals stay; the `k`-th parameter marker becomes
/// a slot for the `k`-th available input argument.
pub open spec fn pattern_of(p: Seq<Seq<char>>, inputs: Seq<int>) -> Seq<SpecSeg> {
    Seq::new(
        p.len(),
        |i: int|
            if is_param(p[i]) {
                SpecSeg::Param(inputs[count_params(p.take(i))])
            } else {
                SpecSeg::Lit(p[i])
            },
    )
}

/// The position in `avail` of the first argument named `name`, or -1.
pub open spec fn find_avail(avail: Seq<int>, args: Seq<SpecArg>, name: Seq<char>) -> int
    decreases avail.len(),
{
    if avail.len() == 0 {
        -1
    } else if args[avail[0]].name == name {
        0
    } else {
        let r = find_avail(avail.drop_first(), args, name);
        if r == -1 {
            -1
        } else {
            r + 1
        }
    }
}

/// `find_avail` returns -1 exactly when no available argument has the name,
/// and otherwise the position of the first one that does.
pub proof fn lemma_find_avail_char(avail: Seq<int>, args: Seq<SpecArg>, name: Seq<char>)
    ensures
        find_avail(avail, args, name) == -1 ==> forall|j: int|
            0 <= j < avail.len() ==> args[#[trigger] avail[j]].name != name,
        find_avail(avail, args, name) != -1 ==> {
            let f = find_avail(avail, args, name);
            &&& 0 <= f < avail.len()
            &&& args[avail[f]].name == name
            &&& forall|j: int| 0 <= j < f ==> args[#[trigger] avail[j]].name != name
        },
    decreases avail.len(),
{
    if avail.len() > 0 && args[avail[0]].name != name {
        lemma_find_avail_char(avail.drop_first(), args, name);
        let f0 = find_avail(avail.drop_first(), args, name);
        assert(forall|j: int| 0 <= j < avail.drop_first().len() ==> avail.drop_first()[j] == avail[j
            + 1]);
        if f0 == -1 {
            assert forall|j: int| 0 <= j < avail.len() implies args[#[trigger] avail[j]].name
                != name by {
                if j > 0 {
                    assert(avail[j] == avail.drop_first()[j - 1]);
                }
            }
        } else {
            let f = f0 + 1;
            assert(args[avail[f]].name == name);
            assert forall|j: int| 0 <= j < f implies args[#[trigger] avail[j]].name != name by {
                if j > 0 {
                    assert(avail[j] == avail.drop_first()[j - 1]);
                }
            }
        }
    }
}

/// Query binding: each declared query name consumes the first available
/// argument with that exact name; a name with no match fails the binding.
/// Returns the bindings in query order and the arguments still available.
pub open spec fn bind_queries(
    qnames: Seq<Seq<char>>,
    avail: Seq<int>,
    args: Seq<SpecArg>,
) -> Option<(Seq<(Seq<char>, int)>, Seq<int>)>
    decreases qnames.len(),
{
    if qnames.len() == 0 {
        Some((Seq::<(Seq<char>, int)>::empty(), avail))
    } else {
        let j = find_avail(avail, args, qnames.first());
        if j == -1 {
            None
        } else {
            match bind_queries(qnames.drop_first(), avail.remove(j), args) {
                None => None,
                Some((bs, rest)) => Some(
                    (seq![(qnames.first(), avail[j])] + bs, rest),
                ),
            }
        }
    }
}

/// Prepends finished bindings onto the result of binding the remaining names.
pub open spec fn prepend_bindings(
    done: Seq<(Seq<char>, int)>,
    o: Option<(Seq<(Seq<char>, int)>, Seq<int>)>,
) -> Option<(Seq<(Seq<char>, int)>, Seq<int>)> {
    match o {
        None => None,
        Some((bs, rest)) => Some((done + bs, rest)),
    }
}

/// A composite (row-like) type: schema-qualified, or the `record` type.
pub open spec fn is_composite(ty: Seq<char>) -> bool {
    ty.contains('.') || ty == "record"@
}

/// The response shape of a signature: `out` arguments win over the declared
/// return type; otherwise the return-set flag and return type decide.
pub open spec fn spec_output_of(f: SpecFunc) -> SpecOutput {
    if out_indices(f.args).len() > 0 {
        SpecOutput::OutComposite(out_indices(f.args))
    } else if f.retset && is_composite(f.rettype) {
        SpecOutput::RowSet
    } else if !f.retset && is_composite(f.rettype) {
        SpecOutput::Row
    } else {
        SpecOutput::Scalar
    }
}

/// Compilation of one signature into a route, or the reason it is skipped.
pub open spec fn spec_compile_one(f: SpecFunc) -> Result<SpecRoute, DiagKind> {
    match spec_parse_name(f.name) {
        None => Err(DiagKind::BadName),
        Some((m, p, q)) => {
            if exists|i: int| 0 <= i < f.args.len() && (#[trigger] f.args[i].mode).is_unsupported() {
                Err(DiagKind::UnsupportedMode)
            } else {
                let inputs = input_indices(f.args);
                let np = count_params(p);
                if np > inputs.len() {
                    Err(DiagKind::UnboundPathParam)
                } else {
                    match bind_queries(q, inputs.skip(np), f.args) {
                        None => Err(DiagKind::UnboundQueryName),
                        Some((bs, rest)) => {
                            if rest.len() > 1 {
                                Err(DiagKind::AmbiguousBody)
                            } else {
                                Ok(
                                    SpecRoute {
                                        routine: f.name,
                                        method: lower_seq(m),
                                        pattern: pattern_of(p, inputs),
                                        query_bindings: bs,
                                        body_binding: if rest.len() == 1 {
                                            Some(rest[0])
                                        } else {
                                            None
                                        },
                                        output: spec_output_of(f),
                                        args: f.args,
                                    },
                                )
                            }
                        },
                    }
                }
            }
        },
    }
}

/// Two pattern segments have the same shape: equal literals, or both
/// parameter slots, whatever arguments the slots bind.
pub open spec fn seg_shape_eq(a: SpecSeg, b: SpecSeg) -> bool {
    match (a, b) {
        (SpecSeg::Lit(x), SpecSeg::Lit(y)) => x == y,
        (SpecSeg::Param(_), SpecSeg::Param(_)) => true,
        _ => false,
    }
}

/// Two patterns have the same shape.
pub open spec fn shape_eq(a: Seq<SpecSeg>, b: Seq<SpecSeg>) -> bool {
    a.len() == b.len() && forall|i: int| 0 <= i < a.len() ==> seg_shape_eq(a[i], b[i])
}

/// Two routes collide: same method and same path shape.
pub open spec fn key_conflict(a: SpecRoute, b: SpecRoute) -> bool {
    a.method == b.method && shape_eq(a.pattern, b.pattern)
}

/// Some existing route already holds the new route's key.
pub open spec fn table_conflicts(rs: Seq<SpecRoute>, r: SpecRoute) -> bool {
    exists|i: int| 0 <= i < rs.len() && key_conflict(#[trigger] rs[i], r)
}

/// Compilation of a catalog snapshot, signature by signature, in order:
/// each either becomes a route or leaves one diagnostic; on a key collision
/// the first route wins and the later signature is rejected.
pub open spec fn spec_compile(fs: Seq<SpecFunc>) -> (Seq<SpecRoute>, Seq<SpecDiag>)
    decreases fs.len(),
{
    if fs.len() == 0 {
        (Seq::<SpecRoute>::empty(), Seq::<SpecDiag>::empty())
    } else {
        let (rs, ds) = spec_compile(fs.drop_last());
        match spec_compile_one(fs.last()) {
            Err(k) => (rs, ds.push(SpecDiag { routine: fs.last().name, kind: k })),
            Ok(r) => {
                if table_conflicts(rs, r) {
                    (rs, ds.push(SpecDiag { routine: fs.last().name, kind: DiagKind::DuplicateRoute }))
                } else {
                    (rs.push(r), ds)
                }
            },
        }
    }
}

/// The compiled route table: an immutable snapshot, rebuilt wholesale.
#[derive(Debug)]
pub struct RouteTable {
    pub routes: Vec<CompiledRoute>,
}

/// Every input index points at an `in`/`inout` argument, and the indices
/// are strictly increasing.
pub proof fn lemma_input_indices_props(args: Seq<SpecArg>)
    ensures
        forall|k: int|
            0 <= k < input_indices(args).len() ==> 0 <= #[trigger] input_indices(args)[k]
                < args.len() && args[input_indices(args)[k]].mode.is_input(),
        forall|k1: int, k2: int|
            0 <= k1 < k2 < input_indices(args).len() ==> input_indices(args)[k1] < input_indices(
                args,
            )[k2],
    decreases args.len(),
{
    if args.len() > 0 {
        lemma_input_indices_props(args.drop_last());
        assert(forall|i: int|
            0 <= i < args.drop_last().len() ==> args.drop_last()[i] == args[i]);
    }
}

/// Every out index points at an `out` argument, every `out` argument is
/// listed, and the indices are strictly increasing.
pub proof fn lemma_out_indices_props(args: Seq<SpecArg>)
    ensures
        forall|k: int|
            0 <= k < out_indices(args).len() ==> 0 <= #[trigger] out_indices(args)[k] < args.len()
                && args[out_indices(args)[k]].mode == ArgMode::Out,
        forall|i: int|
            0 <= i < args.len() && args[i].mode == ArgMode::Out ==> out_indices(args).contains(i),
        forall|k1: int, k2: int|
            0 <= k1 < k2 < out_indices(args).len() ==> out_indices(args)[k1] < out_indices(
                args,
            )[k2],
    decreases args.len(),
{
    if args.len() > 0 {
        lemma_out_indices_props(args.drop_last());
        assert(forall|i: int|
            0 <= i < args.drop_last().len() ==> args.drop_last()[i] == args[i]);
        assert forall|i: int|
            0 <= i < args.len() && args[i].mode == ArgMode::Out implies out_indices(
            args,
        ).contains(i) by {
            if i < args.len() - 1 {
                assert(out_indices(args.drop_last()).contains(i));
                let k = choose|k: int|
                    0 <= k < out_indices(args.drop_last()).len() && out_indices(args.drop_last())[k]
                        == i;
                if args.last().mode == ArgMode::Out {
                    assert(out_indices(args)[k] == i);
                } else {
                    assert(out_indices(args)[k] == i);
                }
            } else {
                assert(out_indices(args).last() == i);
            }
        }
    }
}

fn has_unsupported(args: &Vec<PgArg>) -> (r: bool)
    ensures
        r == exists|i: int|
            0 <= i < args_view(args@).len() && (#[trigger] args_view(args@)[i].mode)
                .is_unsupported(),
{
    let mut i: usize = 0;
    while i < args.len()
        invariant
            0 <= i <= args@.len(),
            forall|j: int|
                0 <= j < i ==> !(#[trigger] args_view(args@)[j].mode).is_unsupported(),
        decreases args@.len() - i,
    {
        match args[i].mode {
            ArgMode::Variadic => {
                assert(args_view(args@)[i as int].mode.is_unsupported());
                return true;
            },
            ArgMode::Table => {
                assert(args_view(args@)[i as int].mode.is_unsupported());
                return true;
            },
            _ => {},
        }
        i += 1;
    }
    false
}

fn input_idx(args: &Vec<PgArg>) -> (r: Vec<usize>)
    ensures
        usizes(r@) == input_indices(args_view(args@)),
        forall|k: int| 0 <= k < r@.len() ==> (#[trigger] r@[k]) < args@.len(),
{
    let ghost ga = args_view(args@);
    let mut r: Vec<usize> = Vec::new();
    let mut i: usize = 0;
    proof {
        assert(usizes(r@) =~= input_indices(ga.take(0))) by {
            assert(ga.take(0) =~= Seq::<SpecArg>::empty());
        }
    }
    while i < args.len()
        invariant
            0 <= i <= args@.len(),
            ga == args_view(args@),
            usizes(r@) == input_indices(ga.take(i as int)),
            forall|k: int| 0 <= k < r@.len() ==> (#[trigger] r@[k]) < i,
        decreases args@.len() - i,
    {
        let ghost pre = r@;
        proof {
            assert(ga.take(i + 1).drop_last() =~= ga.take(i as int));
            assert(ga.take(i + 1).last() == ga[i as int]);
        }
        let keep = match args[i].mode {
            ArgMode::In => true,
            ArgMode::Inout => true,
            _ => false,
        };
        if keep {
            r.push(i);
            proof {
                assert(usizes(r@) =~= usizes(pre).push(i as int));
            }
        }
        proof {
            assert(usizes(r@) =~= input_indices(ga.take(i + 1)));
        }
        i += 1;
    }
    proof {
        assert(ga.take(args@.len() as int) =~= ga);
    }
    r
}

fn out_idx(args: &Vec<PgArg>) -> (r: Vec<usize>)
    ensures
        usizes(r@) == out_indices(args_view(args@)),
{
    let ghost ga = args_view(args@);
    let mut r: Vec<usize> = Vec::new();
    let mut i: usize = 0;
    proof {
        assert(usizes(r@) =~= out_indices(ga.take(0))) by {
            assert(ga.take(0) =~= Seq::<SpecArg>::empty());
        }
    }
    while i < args.len()
        invariant
            0 <= i <= args@.len(),
            ga == args_view(args@),
            usizes(r@) == out_indices(ga.take(i as int)),
        decreases args@.len() - i,
    {
        let ghost pre = r@;
        proof {
            assert(ga.take(i + 1).drop_last() =~= ga.take(i as int));
            assert(ga.take(i + 1).last() == ga[i as int]);
        }
        let keep = match args[i].mode {
            ArgMode::Out => true,
            _ => false,
        };
        if keep {
            r.push(i);
            proof {
                assert(usizes(r@) =~= usizes(pre).push(i as int));
            }
        }
        proof {
            assert(usizes(r@) =~= out_indices(ga.take(i + 1)));
        }
        i += 1;
    }
    proof {
        assert(ga.take(args@.len() as int) =~= ga);
    }
    r
}

/// Whether a type identifier names a composite (row-like) type.
pub fn is_composite_str(ty: &str) -> (r: bool)
    ensures
        r == is_composite(ty@),
{
    if str_eq(ty, "record") {
        return true;
    }
    let n = ty.unicode_len();
    let mut i: usize = 0;
    while i < n
        invariant
            n == ty@.len(),
            0 <= i <= n,
            forall|j: int| 0 <= j < i ==> ty@[j] != '.',
        decreases n - i,
    {
        if ty.get_char(i) == '.' {
            assert(ty@.contains('.'));
            return true;
        }
        i += 1;
    }
    assert(!ty@.contains('.'));
    false
}

/// The lower-case form of a verb.
fn lower_verb(m: &str) -> (r: String)
    requires
        is_verb(m@),
    ensures
        r@ == lower_seq(m@),
{
    proof {
        crate::pg_func::lemma_verbs_lower();
    }
    if str_eq_ignore_case(m, "get") {
        String::from_str("get")
    } else if str_eq_ignore_case(m, "put") {
        String::from_str("put")
    } else if str_eq_ignore_case(m, "post") {
        String::from_str("post")
    } else if str_eq_ignore_case(m, "patch") {
        String::from_str("patch")
    } else {
        String::from_str("delete")
    }
}

fn clone_args(v: &Vec<PgArg>) -> (r: Vec<PgArg>)
    ensures
        args_view(r@) == args_view(v@),
{
    let mut r: Vec<PgArg> = Vec::new();
    let mut i: usize = 0;
    proof {
        assert(args_view(r@) =~= args_view(v@).take(0));
    }
    while i < v.len()
        invariant
            0 <= i <= v@.len(),
            args_view(r@) == args_view(v@).take(i as int),
        decreases v@.len() - i,
    {
        let ghost pre = r@;
        r.push(PgArg { name: v[i].name.clone(), mode: v[i].mode, ty: v[i].ty.clone() });
        proof {
            assert(args_view(r@) =~= args_view(pre).push(v@[i as int]@));
            assert(args_view(r@) =~= args_view(v@).take(i + 1));
        }
        i += 1;
    }
    proof {
        assert(args_view(v@).take(v@.len() as int) =~= args_view(v@));
    }
    r
}

fn find_in_avail(avail: &Vec<usize>, args: &Vec<PgArg>, name: &str) -> (r: Option<usize>)
    requires
        forall|j: int| 0 <= j < avail@.len() ==> (#[trigger] avail@[j]) < args@.len(),
    ensures
        r matches Some(j) ==> j < avail@.len() && find_avail(
            usizes(avail@),
            args_view(args@),
            name@,
        ) == j as int,
        r is None ==> find_avail(usizes(avail@), args_view(args@), name@) == -1,
{
    let ghost ga = usizes(avail@);
    let ghost gargs = args_view(args@);
    let mut j: usize = 0;
    while j < avail.len()
        invariant
            0 <= j <= avail@.len(),
            ga == usizes(avail@),
            gargs == args_view(args@),
            forall|j2: int| 0 <= j2 < avail@.len() ==> (#[trigger] avail@[j2]) < args@.len(),
            forall|jj: int| 0 <= jj < j ==> gargs[ga[jj]].name != name@,
        decreases avail@.len() - j,
    {
        if str_eq(args[avail[j]].name.as_str(), name) {
            proof {
                lemma_find_avail_char(ga, gargs, name@);
                let f = find_avail(ga, gargs, name@);
                assert(gargs[ga[j as int]].name == name@);
                if f == -1 {
                    assert(false);
                }
                if f < j {
                    assert(gargs[ga[f]].name != name@);
                    assert(false);
                }
                if f > j {
                    assert(gargs[ga[j as int]].name != name@);
                    assert(false);
                }
            }
            return Some(j);
        }
        j += 1;
    }
    proof {
        lemma_find_avail_char(ga, gargs, name@);
        let f = find_avail(ga, gargs, name@);
        if f != -1 {
            assert(gargs[ga[f]].name == name@);
            assert(false);
        }
    }
    None
}

impl CompiledRoute {
    /// Compiles one signature into a route, or reports why it is skipped.
    #[verifier::loop_isolation(false)]
    pub fn compile_one(f: &PgFunc) -> (r: Result<CompiledRoute, DiagKind>)
        ensures
            r matches Ok(v) ==> spec_compile_one(f@) == Ok::<SpecRoute, DiagKind>(v@),
            r matches Err(k) ==> spec_compile_one(f@) == Err::<SpecRoute, DiagKind>(k),
    {
        let ghost gf = f@;
        let (m, p, q) = match PgFunc::parse_name(f.name.as_str()) {
            Err(_) => {
                return Err(DiagKind::BadName);
            },
            Ok(t) => t,
        };
        let ghost gm = m@;
        let ghost gp = strs_view(p@);
        let ghost gq = strs_view(q@);
        if has_unsupported(&f.args) {
            return Err(DiagKind::UnsupportedMode);
        }
        let inputs = input_idx(&f.args);
        let ghost ginputs = input_indices(gf.args);
        // Build the pattern, consuming input arguments positionally.
        let mut pattern: Vec<PatternSeg> = Vec::new();
        let mut np: usize = 0;
        let mut i: usize = 0;
        proof {
            assert(gp.take(0) =~= Seq::<Seq<char>>::empty());
            assert(segs_view(pattern@) =~= pattern_of(gp, ginputs).take(0));
        }
        while i < p.len()
            invariant
                0 <= i <= p@.len(),
                gp == strs_view(p@),
                ginputs == input_indices(gf.args),
                usizes(inputs@) == ginputs,
                forall|k: int| 0 <= k < inputs@.len() ==> (#[trigger] inputs@[k]) < gf.args.len(),
                np == count_params(gp.take(i as int)),
                np <= inputs@.len(),
                segs_view(pattern@) == pattern_of(gp, ginputs).take(i as int),
            decreases p@.len() - i,
        {
            let ghost pre = pattern@;
            proof {
                lemma_count_params_step(gp, i as int);
            }
            let seg = &p[i];
            let is_p = seg.as_str().unicode_len() > 0 && seg.as_str().get_char(0) == ':';
            assert(is_p == is_param(gp[i as int]));
            if is_p {
                if np >= inputs.len() {
                    proof {
                        lemma_count_params_bounds(gp, i + 1);
                        assert(count_params(gp) > ginputs.len());
                    }
                    return Err(DiagKind::UnboundPathParam);
                }
                pattern.push(PatternSeg::Param(inputs[np]));
                np += 1;
            } else {
                pattern.push(PatternSeg::Lit(seg.clone()));
            }
            proof {
                assert(segs_view(pattern@) =~= segs_view(pre).push(pattern@.last()@));
                assert(pattern@.last()@ == pattern_of(gp, ginputs)[i as int]);
                assert(segs_view(pattern@) =~= pattern_of(gp, ginputs).take(i + 1));
            }
            i += 1;
        }
        proof {
            assert(gp.take(gp.len() as int) =~= gp);
            assert(segs_view(pattern@) =~= pattern_of(gp, ginputs));
        }
        // The arguments still available for query and body binding.
        let mut avail: Vec<usize> = Vec::new();
        let mut k: usize = np;
        proof {
            assert(usizes(avail@) =~= ginputs.skip(np as int).take(0));
        }
        while k < inputs.len()
            invariant
                np <= k <= inputs@.len(),
                usizes(inputs@) == ginputs,
                forall|k2: int| 0 <= k2 < inputs@.len() ==> (#[trigger] inputs@[k2]) < gf.args.len(),
                usizes(avail@) == ginputs.skip(np as int).take(k - np),
                forall|k2: int| 0 <= k2 < avail@.len() ==> (#[trigger] avail@[k2]) < gf.args.len(),
            decreases inputs@.len() - k,
        {
            let ghost pre = avail@;
            avail.push(inputs[k]);
            proof {
                assert(usizes(avail@) =~= usizes(pre).push(ginputs[k as int]));
                assert(ginputs.skip(np as int).take(k - np).push(ginputs[k as int]) =~= ginputs.skip(
                    np as int,
                ).take(k + 1 - np));
            }
            k += 1;
        }
        proof {
            assert(ginputs.skip(np as int).take(inputs@.len() - np) =~= ginputs.skip(np as int));
        }
        // Bind each declared query name to an available argument.
        let mut qb: Vec<(String, usize)> = Vec::new();
        let mut t: usize = 0;
        let ghost gavail0 = ginputs.skip(np as int);
        proof {
            assert(gq.skip(0) =~= gq);
            assert(qb_view(qb@) =~= Seq::<(Seq<char>, int)>::empty());
            assert(prepend_bindings(qb_view(qb@), bind_queries(gq.skip(0), usizes(avail@), gf.args))
                =~~= bind_queries(gq, gavail0, gf.args));
        }
        while t < q.len()
            invariant
                0 <= t <= q@.len(),
                gq == strs_view(q@),
                gf == f@,
                prepend_bindings(qb_view(qb@), bind_queries(gq.skip(t as int), usizes(avail@), gf.args))
                    == bind_queries(gq, gavail0, gf.args),
                forall|k2: int| 0 <= k2 < avail@.len() ==> (#[trigger] avail@[k2]) < f.args@.len(),
            decreases q@.len() - t,
        {
            let name = q[t].as_str();
            assert(name@ == gq.skip(t as int).first());
            match find_in_avail(&avail, &f.args, name) {
                None => {
                    proof {
                        assert(bind_queries(gq.skip(t as int), usizes(avail@), gf.args) is None);
                        assert(bind_queries(gq, gavail0, gf.args) is None);
                    }
                    return Err(DiagKind::UnboundQueryName);
                },
                Some(j) => {
                    let ghost pre_qb = qb@;
                    let ghost pre_avail = avail@;
                    let argi = avail[j];
                    qb.push((q[t].clone(), argi));
                    avail.remove(j);
                    proof {
                        assert(usizes(avail@) =~= usizes(pre_avail).remove(j as int));
                        assert(qb_view(qb@) =~= qb_view(pre_qb).push((gq.skip(t as int).first(), argi as int)));
                        assert(gq.skip(t as int).drop_first() =~= gq.skip(t + 1));
                        let inner = bind_queries(gq.skip(t + 1), usizes(avail@), gf.args);
                        if inner is Some {
                            let (bs, rest) = inner.unwrap();
                            assert(bind_queries(gq.skip(t as int), usizes(pre_avail), gf.args)
                                == Some((seq![(gq.skip(t as int).first(), usizes(pre_avail)[j as int])] + bs, rest)));
                            assert(qb_view(pre_qb) + (seq![(gq.skip(t as int).first(), argi as int)] + bs)
                                =~= qb_view(qb@) + bs);
                        }
                        assert(prepend_bindings(qb_view(qb@), bind_queries(gq.skip(t + 1), usizes(avail@), gf.args))
                            == bind_queries(gq, gavail0, gf.args));
                    }
                },
            }
            t += 1;
        }
        proof {
            assert(gq.skip(gq.len() as int) =~= Seq::<Seq<char>>::empty());
            assert(bind_queries(gq.skip(gq.len() as int), usizes(avail@), gf.args)
                == Some::<(Seq<(Seq<char>, int)>, Seq<int>)>((Seq::empty(), usizes(avail@))));
            assert(qb_view(qb@) + Seq::<(Seq<char>, int)>::empty() =~= qb_view(qb@));
            assert(bind_queries(gq, gavail0, gf.args) == Some::<(Seq<(Seq<char>, int)>, Seq<int>)>((
                qb_view(qb@),
                usizes(avail@),
            )));
        }
        // At most one argument may remain, as the single body binding.
        if avail.len() > 1 {
            return Err(DiagKind::AmbiguousBody);
        }
        let body_binding = if avail.len() == 1 {
            Some(avail[0])
        } else {
            None
        };
        // Output shaping: out arguments win over the declared return type.
        let out = out_idx(&f.args);
        let output = if out.len() > 0 {
            OutputSpec::OutComposite(out)
        } else if f.retset && is_composite_str(f.rettype.as_str()) {
            OutputSpec::RowSet
        } else if !f.retset && is_composite_str(f.rettype.as_str()) {
            OutputSpec::Row
        } else {
            OutputSpec::Scalar
        };
        let route = CompiledRoute {
            routine: f.name.clone(),
            method: lower_verb(m.as_str()),
            pattern,
            query_bindings: qb,
            body_binding,
            output,
            args: clone_args(&f.args),
        };
        proof {
            let spec_r = spec_compile_one(gf).unwrap();
            assert(route@.pattern =~= spec_r.pattern);
            assert(route@.query_bindings =~= spec_r.query_bindings);
            assert(route@.output =~= spec_r.output);
            assert(route@ =~= spec_r);
        }
        Ok(route)
    }
}

fn routes_conflict(a: &CompiledRoute, b: &CompiledRoute) -> (r: bool)
    ensures
        r == key_conflict(a@, b@),
{
    if !str_eq(a.method.as_str(), b.method.as_str()) {
        return false;
    }
    if a.pattern.len() != b.pattern.len() {
        return false;
    }
    let n = a.pattern.len();
    let mut i: usize = 0;
    while i < n
        invariant
            n == a.pattern@.len() == b.pattern@.len(),
            0 <= i <= n,
            a@.method == b@.method,
            forall|j: int|
                0 <= j < i ==> seg_shape_eq(segs_view(a.pattern@)[j], segs_view(b.pattern@)[j]),
        decreases n - i,
    {
        let ok = match (&a.pattern[i], &b.pattern[i]) {
            (PatternSeg::Lit(x), PatternSeg::Lit(y)) => str_eq(x.as_str(), y.as_str()),
            (PatternSeg::Param(_), PatternSeg::Param(_)) => true,
            _ => false,
        };
        if !ok {
            assert(!seg_shape_eq(segs_view(a.pattern@)[i as int], segs_view(b.pattern@)[i as int]));
            return false;
        }
        assert(seg_shape_eq(segs_view(a.pattern@)[i as int], segs_view(b.pattern@)[i as int]));
        i += 1;
    }
    true
}

fn table_has_conflict(routes: &Vec<CompiledRoute>, r: &CompiledRoute) -> (b: bool)
    ensures
        b == table_conflicts(routes_view(routes@), r@),
{
    let mut i: usize = 0;
    while i < routes.len()
        invariant
            0 <= i <= routes@.len(),
            forall|j: int|
                0 <= j < i ==> !key_conflict(#[trigger] routes_view(routes@)[j], r@),
        decreases routes@.len() - i,
    {
        if routes_conflict(&routes[i], r) {
            assert(key_conflict(routes_view(routes@)[i as int], r@));
            return true;
        }
        i += 1;
    }
    false
}

impl RouteTable {
    /// Compiles a catalog snapshot into a route table plus the diagnostics
    /// for every skipped routine: per-routine failures never abort the batch.
    pub fn compile(funcs: &Vec<PgFunc>) -> (r: (RouteTable, Vec<Diagnostic>))
        ensures
            routes_view(r.0.routes@) == spec_compile(funcs_view(funcs@)).0,
            diags_view(r.1@) == spec_compile(funcs_view(funcs@)).1,
            forall|i: int, j: int|
                0 <= i < r.0.routes@.len() && 0 <= j < r.0.routes@.len() && i != j
                    ==> !key_conflict(routes_view(r.0.routes@)[i], routes_view(r.0.routes@)[j]),
    {
        proof {
            assert forall|i: int, j: int|
                0 <= i < spec_compile(funcs_view(funcs@)).0.len() && 0 <= j < spec_compile(
                    funcs_view(funcs@),
                ).0.len() && i != j implies !key_conflict(
                spec_compile(funcs_view(funcs@)).0[i],
                spec_compile(funcs_view(funcs@)).0[j],
            ) by {
                lemma_compile_keys_unique(funcs_view(funcs@), i, j);
            }
        }
        let ghost gfs = funcs_view(funcs@);
        let mut routes: Vec<CompiledRoute> = Vec::new();
        let mut diags: Vec<Diagnostic> = Vec::new();
        let mut i: usize = 0;
        proof {
            assert(gfs.take(0) =~= Seq::<SpecFunc>::empty());
            assert(routes_view(routes@) =~= spec_compile(gfs.take(0)).0);
            assert(diags_view(diags@) =~= spec_compile(gfs.take(0)).1);
        }
        while i < funcs.len()
            invariant
                0 <= i <= funcs@.len(),
                gfs == funcs_view(funcs@),
                routes_view(routes@) == spec_compile(gfs.take(i as int)).0,
                diags_view(diags@) == spec_compile(gfs.take(i as int)).1,
            decreases funcs@.len() - i,
        {
            let ghost pre_routes = routes@;
            let ghost pre_diags = diags@;
            proof {
                assert(gfs.take(i + 1).drop_last() =~= gfs.take(i as int));
                assert(gfs.take(i + 1).last() == funcs@[i as int]@);
            }
            match CompiledRoute::compile_one(&funcs[i]) {
                Err(kind) => {
                    diags.push(Diagnostic { routine: funcs[i].name.clone(), kind });
                    proof {
                        assert(diags_view(diags@) =~= diags_view(pre_diags).push(
                            SpecDiag { routine: funcs@[i as int]@.name, kind },
                        ));
                    }
                },
                Ok(route) => {
                    if table_has_conflict(&routes, &route) {
                        diags.push(
                            Diagnostic {
                                routine: funcs[i].name.clone(),
                                kind: DiagKind::DuplicateRoute,
                            },
                        );
                        proof {
                            assert(diags_view(diags@) =~= diags_view(pre_diags).push(
                                SpecDiag {
                                    routine: funcs@[i as int]@.name,
                                    kind: DiagKind::DuplicateRoute,
                                },
                            ));
                        }
                    } else {
                        let ghost gr = route@;
                        routes.push(route);
                        proof {
                            assert(routes_view(routes@) =~= routes_view(pre_routes).push(gr));
                        }
                    }
                },
            }
            i += 1;
        }
        proof {
            assert(gfs.take(funcs@.len() as int) =~= gfs);
        }
        (RouteTable { routes }, diags)
    }
}

/// A key conflict is mutual.
pub proof fn lemma_key_conflict_sym(a: SpecRoute, b: SpecRoute)
    ensures
        key_conflict(a, b) == key_conflict(b, a),
{
    if shape_eq(a.pattern, b.pattern) {
        assert forall|i: int| 0 <= i < b.pattern.len() implies seg_shape_eq(
            b.pattern[i],
            a.pattern[i],
        ) by {
            assert(seg_shape_eq(a.pattern[i], b.pattern[i]));
        }
    }
    if shape_eq(b.pattern, a.pattern) {
        assert forall|i: int| 0 <= i < a.pattern.len() implies seg_shape_eq(
            a.pattern[i],
            b.pattern[i],
        ) by {
            assert(seg_shape_eq(b.pattern[i], a.pattern[i]));
        }
    }
}

/// Law: a compiled table never holds two routes with the same key — the
/// same method and the same path shape.
pub proof fn lemma_compile_keys_unique(fs: Seq<SpecFunc>, i: int, j: int)
    requires
        0 <= i < spec_compile(fs).0.len(),
        0 <= j < spec_compile(fs).0.len(),
        i != j,
    ensures
        !key_conflict(spec_compile(fs).0[i], spec_compile(fs).0[j]),
    decreases fs.len(),
{
    if fs.len() > 0 {
        let rs = spec_compile(fs.drop_last()).0;
        let full = spec_compile(fs).0;
        if full.len() == rs.len() {
            assert(full == rs);
            lemma_compile_keys_unique(fs.drop_last(), i, j);
        } else {
            let r = spec_compile_one(fs.last()).unwrap();
            assert(full == rs.push(r));
            assert(!table_conflicts(rs, r));
            if i < rs.len() && j < rs.len() {
                lemma_compile_keys_unique(fs.drop_last(), i, j);
            } else if i < rs.len() {
                assert(full[j] == r);
                assert(!key_conflict(rs[i], r));
            } else {
                assert(full[i] == r);
                assert(!key_conflict(rs[j], r));
                lemma_key_conflict_sym(r, rs[j]);
            }
        }
    }
}

/// Law: every route in a compiled table is the successful compilation of
/// one of the given signatures; nothing else ever enters the table.
pub proof fn lemma_route_provenance(fs: Seq<SpecFunc>, k: int)
    requires
        0 <= k < spec_compile(fs).0.len(),
    ensures
        exists|i: int|
            0 <= i < fs.len() && spec_compile_one(#[trigger] fs[i]) == Ok::<SpecRoute, DiagKind>(
                spec_compile(fs).0[k],
            ),
    decreases fs.len(),
{
    let full = spec_compile(fs).0;
    let rs = spec_compile(fs.drop_last()).0;
    if k < rs.len() {
        lemma_route_provenance(fs.drop_last(), k);
        let i = choose|i: int|
            0 <= i < fs.drop_last().len() && spec_compile_one(#[trigger] fs.drop_last()[i]) == Ok::<
                SpecRoute,
                DiagKind,
            >(rs[k]);
        assert(fs.drop_last()[i] == fs[i]);
        assert(full[k] == rs[k]);
        assert(spec_compile_one(fs[i]) == Ok::<SpecRoute, DiagKind>(full[k]));
    } else {
        let i = fs.len() - 1;
        assert(full[k] == spec_compile_one(fs[i]).unwrap());
        assert(spec_compile_one(fs[i]) == Ok::<SpecRoute, DiagKind>(full[k]));
    }
}

/// Law: a routine with a `variadic` or `table` argument never compiles, so
/// it never appears in a compiled table.
pub proof fn lemma_unsupported_mode_rejected(f: SpecFunc, k: int)
    requires
        0 <= k < f.args.len(),
        f.args[k].mode.is_unsupported(),
    ensures
        spec_compile_one(f) is Err,
{
    if spec_parse_name(f.name) is Some {
        assert(0 <= k < f.args.len() && (#[trigger] f.args[k].mode).is_unsupported());
    }
}

/// Law: when `out` arguments exist, the output shape is the composite of
/// exactly those arguments, whatever the declared return type and set flag.
pub proof fn lemma_out_composite(f: SpecFunc, r: SpecRoute)
    requires
        spec_compile_one(f) == Ok::<SpecRoute, DiagKind>(r),
        out_indices(f.args).len() > 0,
    ensures
        r.output == SpecOutput::OutComposite(out_indices(f.args)),
{
}

/// Law: a catalog that lists the same compilable signature twice yields
/// exactly one route — the first — and one duplicate diagnostic. The one
/// premise, that the signature compiles at all, is inherent: a duplicated
/// routine that compiles to nothing leaves two skip diagnostics instead.
pub proof fn lemma_duplicate_signature(f: SpecFunc, r: SpecRoute)
    requires
        spec_compile_one(f) == Ok::<SpecRoute, DiagKind>(r),
    ensures
        spec_compile(seq![f, f]).0 == seq![r],
        spec_compile(seq![f, f]).1 == seq![
            SpecDiag { routine: f.name, kind: DiagKind::DuplicateRoute },
        ],
{
    lemma_duplicate_name(f, f, r, r);
}

/// Law: compiling two signatures that both carry the same declared name
/// yields exactly one route — the first — and one duplicate diagnostic.
pub proof fn lemma_duplicate_name(f0: SpecFunc, f1: SpecFunc, r0: SpecRoute, r1: SpecRoute)
    requires
        spec_compile_one(f0) == Ok::<SpecRoute, DiagKind>(r0),
        spec_compile_one(f1) == Ok::<SpecRoute, DiagKind>(r1),
        f0.name == f1.name,
    ensures
        spec_compile(seq![f0, f1]).0 == seq![r0],
        spec_compile(seq![f0, f1]).1 == seq![
            SpecDiag { routine: f1.name, kind: DiagKind::DuplicateRoute },
        ],
{
    let fs = seq![f0, f1];
    assert(fs.drop_last() =~= seq![f0]);
    assert(seq![f0].drop_last() =~= Seq::<SpecFunc>::empty());
    assert(spec_compile(Seq::<SpecFunc>::empty()).0 == Seq::<SpecRoute>::empty());
    assert(spec_compile(Seq::<SpecFunc>::empty()).1 == Seq::<SpecDiag>::empty());
    assert(spec_compile(seq![f0]).0 =~= seq![r0]) by {
        assert(seq![f0].last() == f0);
        assert(!table_conflicts(Seq::<SpecRoute>::empty(), r0));
        assert(Seq::<SpecRoute>::empty().push(r0) =~= seq![r0]);
    }
    assert(spec_compile(seq![f0]).1 =~= Seq::<SpecDiag>::empty());
    // the same name parses the same way, so the patterns share a shape
    let (m, p, q) = spec_parse_name(f0.name).unwrap();
    let pat0 = pattern_of(p, input_indices(f0.args));
    let pat1 = pattern_of(p, input_indices(f1.args));
    assert(r0.pattern == pat0);
    assert(r1.pattern == pat1);
    assert forall|i: int| 0 <= i < pat1.len() implies seg_shape_eq(pat1[i], pat0[i]) by {
        if is_param(p[i]) {
            assert(pat1[i] is Param && pat0[i] is Param);
        } else {
            assert(pat1[i] == SpecSeg::Lit(p[i]) && pat0[i] == SpecSeg::Lit(p[i]));
        }
    }
    assert(key_conflict(r1, r0));
    assert(table_conflicts(seq![r0], r1)) by {
        lemma_key_conflict_sym(r1, r0);
        assert(key_conflict(seq![r0][0], r1));
    }
    assert(spec_compile(fs).0 =~= seq![r0]);
    assert(spec_compile(fs).1 =~= seq![
        SpecDiag { routine: f1.name, kind: DiagKind::DuplicateRoute },
    ]);
}

} // verus!
