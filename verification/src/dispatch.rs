//! The request binder and dispatcher.
//!
//! A request's method and path are matched against the compiled table:
//! literal segments must match exactly, parameter slots match any non-empty
//! segment, and methods compare without regard to ASCII case. No match is a
//! not-found outcome. For the first matching route, path, query and body
//! values are extracted, coerced per the bound argument's declared type, and
//! assembled into an invocation plan in argument declaration order; a value
//! that fails coercion or a missing required value names the offending
//! argument. The database call itself happens outside: the caller performs
//! the plan and feeds the result to the response encoder.
use crate::pg_func::{spec_parse_path, PgFunc};
use crate::route::{RouteTable, SpecRoute, SpecSeg, routes_view};
use crate::strutil::{lower_seq, split_char, split_str, str_eq, str_eq_ignore_case, strs_view};
use crate::value::{coerce, spec_coerce, PgValue, SpecValue};
use vstd::prelude::*;

verus! {

/// The views of request query pairs.
pub open spec fn qpairs_view(v: Seq<(String, String)>) -> Seq<(Seq<char>, Seq<char>)> {
    v.map_values(|p: (String, String)| (p.0@, p.1@))
}

/// A pattern segment accepts a request path segment: a literal must match
/// exactly; a parameter slot takes any non-empty segment.
pub open spec fn seg_matches(ps: SpecSeg, s: Seq<char>) -> bool {
    match ps {
        SpecSeg::Lit(t) => s == t,
        SpecSeg::Param(_) => s.len() > 0,
    }
}

/// A route matches a request: same method up to ASCII case, same segment
/// count, and every segment accepted.
pub open spec fn route_matches(r: SpecRoute, m: Seq<char>, segs: Seq<Seq<char>>) -> bool {
    &&& lower_seq(m) == lower_seq(r.method)
    &&& segs.len() == r.pattern.len()
    &&& forall|i: int| 0 <= i < segs.len() ==> seg_matches(#[trigger] r.pattern[i], segs[i])
}

/// The index of the first matching route, or -1.
pub open spec fn first_match(rs: Seq<SpecRoute>, m: Seq<char>, segs: Seq<Seq<char>>) -> int
    decreases rs.len(),
{
    if rs.len() == 0 {
        -1
    } else if route_matches(rs.first(), m, segs) {
        0
    } else {
        let r = first_match(rs.drop_first(), m, segs);
        if r == -1 {
            -1
        } else {
            r + 1
        }
    }
}

/// `first_match` returns -1 exactly when no route matches, and otherwise
/// the index of the first route that does.
pub proof fn lemma_first_match_char(rs: Seq<SpecRoute>, m: Seq<char>, segs: Seq<Seq<char>>)
    ensures
        first_match(rs, m, segs) == -1 ==> forall|j: int|
            0 <= j < rs.len() ==> !route_matches(#[trigger] rs[j], m, segs),
        first_match(rs, m, segs) != -1 ==> {
            let f = first_match(rs, m, segs);
            &&& 0 <= f < rs.len()
            &&& route_matches(rs[f], m, segs)
            &&& forall|j: int| 0 <= j < f ==> !route_matches(#[trigger] rs[j], m, segs)
        },
    decreases rs.len(),
{
    if rs.len() > 0 && !route_matches(rs.first(), m, segs) {
        lemma_first_match_char(rs.drop_first(), m, segs);
        assert(forall|j: int| 0 <= j < rs.drop_first().len() ==> rs.drop_first()[j] == rs[j + 1]);
        let f0 = first_match(rs.drop_first(), m, segs);
        if f0 == -1 {
            assert forall|j: int| 0 <= j < rs.len() implies !route_matches(
                #[trigger] rs[j],
                m,
                segs,
            ) by {
                if j > 0 {
                    assert(rs[j] == rs.drop_first()[j - 1]);
                }
            }
        } else {
            assert forall|j: int| 0 <= j < f0 + 1 implies !route_matches(
                #[trigger] rs[j],
                m,
                segs,
            ) by {
                if j > 0 {
                    assert(rs[j] == rs.drop_first()[j - 1]);
                }
            }
        }
    }
}

/// The index of the first pattern slot bound to argument `a`, or -1.
pub open spec fn path_slot_of(pattern: Seq<SpecSeg>, a: int) -> int
    decreases pattern.len(),
{
    if pattern.len() == 0 {
        -1
    } else if pattern.first() == SpecSeg::Param(a) {
        0
    } else {
        let r = path_slot_of(pattern.drop_first(), a);
        if r == -1 {
            -1
        } else {
            r + 1
        }
    }
}

pub proof fn lemma_path_slot_char(pattern: Seq<SpecSeg>, a: int)
    ensures
        path_slot_of(pattern, a) == -1 ==> forall|j: int|
            0 <= j < pattern.len() ==> #[trigger] pattern[j] != SpecSeg::Param(a),
        path_slot_of(pattern, a) != -1 ==> {
            let f = path_slot_of(pattern, a);
            &&& 0 <= f < pattern.len()
            &&& pattern[f] == SpecSeg::Param(a)
            &&& forall|j: int| 0 <= j < f ==> #[trigger] pattern[j] != SpecSeg::Param(a)
        },
    decreases pattern.len(),
{
    if pattern.len() > 0 && pattern.first() != SpecSeg::Param(a) {
        lemma_path_slot_char(pattern.drop_first(), a);
        assert(forall|j: int|
            0 <= j < pattern.drop_first().len() ==> pattern.drop_first()[j] == pattern[j + 1]);
        let f0 = path_slot_of(pattern.drop_first(), a);
        if f0 == -1 {
            assert forall|j: int| 0 <= j < pattern.len() implies #[trigger] pattern[j]
                != SpecSeg::Param(a) by {
                if j > 0 {
                    assert(pattern[j] == pattern.drop_first()[j - 1]);
                }
            }
        } else {
            assert forall|j: int| 0 <= j < f0 + 1 implies #[trigger] pattern[j] != SpecSeg::Param(
                a,
            ) by {
                if j > 0 {
                    assert(pattern[j] == pattern.drop_first()[j - 1]);
                }
            }
        }
    }
}

/// The index of the first query binding for argument `a`, or -1.
pub open spec fn qb_slot_of(qbs: Seq<(Seq<char>, int)>, a: int) -> int
    decreases qbs.len(),
{
    if qbs.len() == 0 {
        -1
    } else if qbs.first().1 == a {
        0
    } else {
        let r = qb_slot_of(qbs.drop_first(), a);
        if r == -1 {
            -1
        } else {
            r + 1
        }
    }
}

pub proof fn lemma_qb_slot_char(qbs: Seq<(Seq<char>, int)>, a: int)
    ensures
        qb_slot_of(qbs, a) == -1 ==> forall|j: int|
            0 <= j < qbs.len() ==> (#[trigger] qbs[j]).1 != a,
        qb_slot_of(qbs, a) != -1 ==> {
            let f = qb_slot_of(qbs, a);
            &&& 0 <= f < qbs.len()
            &&& qbs[f].1 == a
            &&& forall|j: int| 0 <= j < f ==> (#[trigger] qbs[j]).1 != a
        },
    decreases qbs.len(),
{
    if qbs.len() > 0 && qbs.first().1 != a {
        lemma_qb_slot_char(qbs.drop_first(), a);
        assert(forall|j: int| 0 <= j < qbs.drop_first().len() ==> qbs.drop_first()[j] == qbs[j + 1]);
        let f0 = qb_slot_of(qbs.drop_first(), a);
        if f0 == -1 {
            assert forall|j: int| 0 <= j < qbs.len() implies (#[trigger] qbs[j]).1 != a by {
                if j > 0 {
                    assert(qbs[j] == qbs.drop_first()[j - 1]);
                }
            }
        } else {
            assert forall|j: int| 0 <= j < f0 + 1 implies (#[trigger] qbs[j]).1 != a by {
                if j > 0 {
                    assert(qbs[j] == qbs.drop_first()[j - 1]);
                }
            }
        }
    }
}

/// The index of the first query pair with the given name, or -1.
pub open spec fn query_index_of(q: Seq<(Seq<char>, Seq<char>)>, name: Seq<char>) -> int
    decreases q.len(),
{
    if q.len() == 0 {
        -1
    } else if q.first().0 == name {
        0
    } else {
        let r = query_index_of(q.drop_first(), name);
        if r == -1 {
            -1
        } else {
            r + 1
        }
    }
}

pub proof fn lemma_query_index_char(q: Seq<(Seq<char>, Seq<char>)>, name: Seq<char>)
    ensures
        query_index_of(q, name) == -1 ==> forall|j: int|
            0 <= j < q.len() ==> (#[trigger] q[j]).0 != name,
        query_index_of(q, name) != -1 ==> {
            let f = query_index_of(q, name);
            &&& 0 <= f < q.len()
            &&& q[f].0 == name
            &&& forall|j: int| 0 <= j < f ==> (#[trigger] q[j]).0 != name
        },
    decreases q.len(),
{
    if q.len() > 0 && q.first().0 != name {
        lemma_query_index_char(q.drop_first(), name);
        assert(forall|j: int| 0 <= j < q.drop_first().len() ==> q.drop_first()[j] == q[j + 1]);
        let f0 = query_index_of(q.drop_first(), name);
        if f0 == -1 {
            assert forall|j: int| 0 <= j < q.len() implies (#[trigger] q[j]).0 != name by {
                if j > 0 {
                    assert(q[j] == q.drop_first()[j - 1]);
                }
            }
        } else {
            assert forall|j: int| 0 <= j < f0 + 1 implies (#[trigger] q[j]).0 != name by {
                if j > 0 {
                    assert(q[j] == q.drop_first()[j - 1]);
                }
            }
        }
    }
}

/// One invocation argument, in declaration order: an input value, or an
/// `out` placeholder for the call convention to mark.
#[derive(Debug)]
pub enum BoundArg {
    Input(PgValue),
    Output,
}

/// The mathematical value of a `BoundArg`.
pub ghost enum SpecBound {
    Input(SpecValue),
    Output,
}

impl View for BoundArg {
    type V = SpecBound;

    open spec fn view(&self) -> SpecBound {
        match self {
            BoundArg::Input(v) => SpecBound::Input(v@),
            BoundArg::Output => SpecBound::Output,
        }
    }
}

/// The views of a sequence of bound arguments.
pub open spec fn bounds_view(v: Seq<BoundArg>) -> Seq<SpecBound> {
    v.map_values(|b: BoundArg| b@)
}

/// Why binding one argument failed, with the argument's name.
pub ghost enum SpecFail {
    Bad(Seq<char>),
    Missing(Seq<char>),
}

/// Binding of the argument at index `a` of a matched route: an `out`
/// argument is a placeholder; a path-slot argument takes its path segment;
/// a query-bound argument takes the request's value for that name, which
/// must be present; the body argument takes the body, which must be present;
/// each input is coerced per the argument's declared type.
pub open spec fn spec_bind_arg(
    r: SpecRoute,
    segs: Seq<Seq<char>>,
    q: Seq<(Seq<char>, Seq<char>)>,
    body: Option<Seq<char>>,
    a: int,
) -> Result<SpecBound, SpecFail> {
    let name = r.args[a].name;
    if r.args[a].mode == crate::modes::ArgMode::Out {
        Ok(SpecBound::Output)
    } else {
        let ps = path_slot_of(r.pattern, a);
        if ps != -1 {
            match spec_coerce(r.args[a].ty, segs[ps]) {
                Some(v) => Ok(SpecBound::Input(v)),
                None => Err(SpecFail::Bad(name)),
            }
        } else {
            let qs = qb_slot_of(r.query_bindings, a);
            if qs != -1 {
                let qi = query_index_of(q, r.query_bindings[qs].0);
                if qi == -1 {
                    Err(SpecFail::Missing(name))
                } else {
                    match spec_coerce(r.args[a].ty, q[qi].1) {
                        Some(v) => Ok(SpecBound::Input(v)),
                        None => Err(SpecFail::Bad(name)),
                    }
                }
            } else if r.body_binding == Some(a) {
                match body {
                    None => Err(SpecFail::Missing(name)),
                    Some(b) => match spec_coerce(r.args[a].ty, b) {
                        Some(v) => Ok(SpecBound::Input(v)),
                        None => Err(SpecFail::Bad(name)),
                    },
                }
            } else {
                Err(SpecFail::Missing(name))
            }
        }
    }
}

/// Binding of the arguments from index `a` on, in declaration order; the
/// first failure wins.
pub open spec fn spec_bind_from(
    r: SpecRoute,
    segs: Seq<Seq<char>>,
    q: Seq<(Seq<char>, Seq<char>)>,
    body: Option<Seq<char>>,
    a: int,
) -> Result<Seq<SpecBound>, SpecFail>
    decreases r.args.len() - a,
    when a <= r.args.len()
{
    if a >= r.args.len() {
        Ok(Seq::<SpecBound>::empty())
    } else {
        match spec_bind_arg(r, segs, q, body, a) {
            Err(f) => Err(f),
            Ok(b) => match spec_bind_from(r, segs, q, body, a + 1) {
                Err(f) => Err(f),
                Ok(bs) => Ok(seq![b] + bs),
            },
        }
    }
}

/// Prepends finished bindings onto the binding of the remaining arguments.
pub open spec fn prepend_bound(
    done: Seq<SpecBound>,
    o: Result<Seq<SpecBound>, SpecFail>,
) -> Result<Seq<SpecBound>, SpecFail> {
    match o {
        Err(f) => Err(f),
        Ok(bs) => Ok(done + bs),
    }
}

/// A ready invocation: the routine's declared name and its arguments in
/// declaration order, plus the index of the matched route in the table.
#[derive(Debug)]
pub struct InvocationPlan {
    pub route: usize,
    pub routine: String,
    pub args: Vec<BoundArg>,
}

/// The outcome of binding a request against the table.
#[derive(Debug)]
pub enum Dispatch {
    /// No route matches the method and path shape.
    NotFound,
    /// A value failed coercion to the named argument's type.
    BadArgument(String),
    /// A required query value or body is absent for the named argument.
    MissingArgument(String),
    /// Every argument bound: the caller can invoke the routine.
    Invoke(InvocationPlan),
}

/// The mathematical value of a `Dispatch`.
pub ghost enum SpecDispatch {
    NotFound,
    BadArgument(Seq<char>),
    MissingArgument(Seq<char>),
    Invoke(int, Seq<char>, Seq<SpecBound>),
}

impl View for Dispatch {
    type V = SpecDispatch;

    open spec fn view(&self) -> SpecDispatch {
        match self {
            Dispatch::NotFound => SpecDispatch::NotFound,
            Dispatch::BadArgument(n) => SpecDispatch::BadArgument(n@),
            Dispatch::MissingArgument(n) => SpecDispatch::MissingArgument(n@),
            Dispatch::Invoke(p) => SpecDispatch::Invoke(
                p.route as int,
                p.routine@,
                bounds_view(p.args@),
            ),
        }
    }
}

/// Dispatch of one request against a table: the first route matching the
/// method and path is bound; no match is `NotFound`, whatever the method.
pub open spec fn spec_dispatch(
    rs: Seq<SpecRoute>,
    m: Seq<char>,
    path: Seq<char>,
    q: Seq<(Seq<char>, Seq<char>)>,
    body: Option<Seq<char>>,
) -> SpecDispatch {
    let segs = spec_parse_path(path);
    let k = first_match(rs, m, segs);
    if k == -1 {
        SpecDispatch::NotFound
    } else {
        match spec_bind_from(rs[k], segs, q, body, 0) {
            Err(SpecFail::Bad(n)) => SpecDispatch::BadArgument(n),
            Err(SpecFail::Missing(n)) => SpecDispatch::MissingArgument(n),
            Ok(bs) => SpecDispatch::Invoke(k, rs[k].routine, bs),
        }
    }
}

/// Law: a request whose method and path shape no route matches — including
/// a path that matches some route's shape under a different method — binds
/// to `NotFound`, and a request some route matches never does.
pub proof fn lemma_dispatch_not_found(
    rs: Seq<SpecRoute>,
    m: Seq<char>,
    path: Seq<char>,
    q: Seq<(Seq<char>, Seq<char>)>,
    body: Option<Seq<char>>,
)
    ensures
        spec_dispatch(rs, m, path, q, body) == SpecDispatch::NotFound <==> forall|j: int|
            0 <= j < rs.len() ==> !route_matches(#[trigger] rs[j], m, spec_parse_path(path)),
{
    lemma_first_match_char(rs, m, spec_parse_path(path));
}

/// The view of an optional body.
pub open spec fn body_view(b: Option<&str>) -> Option<Seq<char>> {
    match b {
        None => None,
        Some(s) => Some(s@),
    }
}

fn match_route(r: &crate::route::CompiledRoute, method: &str, segs: &Vec<String>) -> (b: bool)
    ensures
        b == route_matches(r@, method@, strs_view(segs@)),
{
    if !str_eq_ignore_case(method, r.method.as_str()) {
        return false;
    }
    if segs.len() != r.pattern.len() {
        return false;
    }
    let ghost gp = r@.pattern;
    let ghost gs = strs_view(segs@);
    let n = segs.len();
    let mut i: usize = 0;
    while i < n
        invariant
            n == segs@.len() == r.pattern@.len(),
            gp == r@.pattern,
            gs == strs_view(segs@),
            0 <= i <= n,
            forall|j: int| 0 <= j < i ==> seg_matches(#[trigger] gp[j], gs[j]),
        decreases n - i,
    {
        let ok = match &r.pattern[i] {
            crate::route::PatternSeg::Lit(t) => str_eq(t.as_str(), segs[i].as_str()),
            crate::route::PatternSeg::Param(_) => segs[i].as_str().unicode_len() > 0,
        };
        if !ok {
            assert(!seg_matches(gp[i as int], gs[i as int]));
            return false;
        }
        assert(seg_matches(gp[i as int], gs[i as int]));
        i += 1;
    }
    true
}

impl RouteTable {
    /// Binds one request against the table: matches method and path against
    /// the compiled routes, extracts and coerces the bound values, and
    /// returns the invocation plan or the failing outcome.
    #[verifier::loop_isolation(false)]
    pub fn dispatch(
        &self,
        method: &str,
        path: &str,
        query: &Vec<(String, String)>,
        body: Option<&str>,
    ) -> (d: Dispatch)
        ensures
            d@ == spec_dispatch(
                routes_view(self.routes@),
                method@,
                path@,
                qpairs_view(query@),
                body_view(body),
            ),
    {
        let ghost grs = routes_view(self.routes@);
        let ghost gq = qpairs_view(query@);
        let ghost gb = body_view(body);
        let segs = PgFunc::parse_path(path);
        let ghost gsegs = strs_view(segs@);
        // find the first matching route
        let mut k: usize = 0;
        let mut found: bool = false;
        #[verifier::loop_isolation(true)]
        loop
            invariant_except_break
                !found,
                grs == routes_view(self.routes@),
                gsegs == strs_view(segs@),
                0 <= k <= self.routes@.len(),
                forall|j: int| 0 <= j < k ==> !route_matches(#[trigger] grs[j], method@, gsegs),
            ensures
                (found ==> k < self.routes@.len() && first_match(grs, method@, gsegs) == k as int)
                    && (!found ==> first_match(grs, method@, gsegs) == -1),
            decreases self.routes@.len() - k,
        {
            if k == self.routes.len() {
                proof {
                    lemma_first_match_char(grs, method@, gsegs);
                    let f = first_match(grs, method@, gsegs);
                    if f != -1 {
                        assert(route_matches(grs[f], method@, gsegs));
                        assert(false);
                    }
                }
                break ;
            }
            if match_route(&self.routes[k], method, &segs) {
                proof {
                    lemma_first_match_char(grs, method@, gsegs);
                    let f = first_match(grs, method@, gsegs);
                    if f == -1 {
                        assert(!route_matches(grs[k as int], method@, gsegs));
                        assert(false);
                    }
                    if f < k {
                        assert(!route_matches(grs[f], method@, gsegs));
                        assert(false);
                    }
                    if f > k {
                        assert(!route_matches(grs[k as int], method@, gsegs));
                        assert(false);
                    }
                }
                found = true;
                break ;
            }
            k += 1;
        }
        if !found {
            return Dispatch::NotFound;
        }
        let route = &self.routes[k];
        let ghost gr = grs[k as int];
        // bind every argument in declaration order
        let mut out: Vec<BoundArg> = Vec::new();
        let mut a: usize = 0;
        proof {
            assert(bounds_view(out@) =~= Seq::<SpecBound>::empty());
            assert(prepend_bound(bounds_view(out@), spec_bind_from(gr, gsegs, gq, gb, 0))
                =~~= spec_bind_from(gr, gsegs, gq, gb, 0));
        }
        while a < route.args.len()
            invariant
                0 <= a <= route.args@.len(),
                gr.args.len() == route.args@.len(),
                prepend_bound(bounds_view(out@), spec_bind_from(gr, gsegs, gq, gb, a as int))
                    == spec_bind_from(gr, gsegs, gq, gb, 0),
            decreases route.args@.len() - a,
        {
            let ghost pre = out@;
            let arg = &route.args[a];
            let is_out = match arg.mode {
                crate::modes::ArgMode::Out => true,
                _ => false,
            };
            if is_out {
                out.push(BoundArg::Output);
                proof {
                    assert(spec_bind_arg(gr, gsegs, gq, gb, a as int) == Ok::<SpecBound, SpecFail>(
                        SpecBound::Output,
                    ));
                    assert(bounds_view(out@) =~= bounds_view(pre).push(SpecBound::Output));
                }
            } else {
                // locate the raw text for this argument
                let mut raw: Option<String> = None;
                let mut missing = false;
                // path slot?
                let mut ps: usize = 0;
                let psn = route.pattern.len();
                let mut found_ps: bool = false;
                #[verifier::loop_isolation(true)]
                loop
                    invariant_except_break
                        !found_ps,
                        gr == route@,
                        0 <= ps <= psn,
                        psn == route.pattern@.len(),
                        forall|j: int| 0 <= j < ps ==> #[trigger] gr.pattern[j] != SpecSeg::Param(a as int),
                    ensures
                        (found_ps ==> ps < psn && path_slot_of(gr.pattern, a as int) == ps as int)
                            && (!found_ps ==> path_slot_of(gr.pattern, a as int) == -1),
                    decreases psn - ps,
                {
                    if ps == psn {
                        proof {
                            lemma_path_slot_char(gr.pattern, a as int);
                            let f = path_slot_of(gr.pattern, a as int);
                            if f != -1 {
                                assert(gr.pattern[f] == SpecSeg::Param(a as int));
                                assert(false);
                            }
                        }
                        break ;
                    }
                    let hit = match &route.pattern[ps] {
                        crate::route::PatternSeg::Param(x) => *x == a,
                        _ => false,
                    };
                    if hit {
                        proof {
                            lemma_path_slot_char(gr.pattern, a as int);
                            let f = path_slot_of(gr.pattern, a as int);
                            assert(gr.pattern[ps as int] == SpecSeg::Param(a as int));
                            if f == -1 {
                                assert(false);
                            }
                            if f < ps {
                                assert(gr.pattern[f] != SpecSeg::Param(a as int));
                                assert(false);
                            }
                            if f > ps {
                                assert(false);
                            }
                        }
                        found_ps = true;
                        break ;
                    }
                    ps += 1;
                }
                if found_ps {
                    // the route matched, so the slot's segment exists
                    assert(route_matches(gr, method@, gsegs)) by {
                        lemma_first_match_char(grs, method@, gsegs);
                    }
                    raw = Some(segs[ps].clone());
                } else {
                    // query binding?
                    let mut qs: usize = 0;
                    let qsn = route.query_bindings.len();
                    let mut found_qs: bool = false;
                    #[verifier::loop_isolation(true)]
                    loop
                        invariant_except_break
                            !found_qs,
                            gr == route@,
                            0 <= qs <= qsn,
                            qsn == route.query_bindings@.len(),
                            forall|j: int|
                                0 <= j < qs ==> (#[trigger] gr.query_bindings[j]).1 != a as int,
                        ensures
                            (found_qs ==> qs < qsn && qb_slot_of(gr.query_bindings, a as int)
                                == qs as int) && (!found_qs ==> qb_slot_of(
                                gr.query_bindings,
                                a as int,
                            ) == -1),
                        decreases qsn - qs,
                    {
                        if qs == qsn {
                            proof {
                                lemma_qb_slot_char(gr.query_bindings, a as int);
                                let f = qb_slot_of(gr.query_bindings, a as int);
                                if f != -1 {
                                    assert(gr.query_bindings[f].1 == a as int);
                                    assert(false);
                                }
                            }
                            break ;
                        }
                        if route.query_bindings[qs].1 == a {
                            proof {
                                lemma_qb_slot_char(gr.query_bindings, a as int);
                                let f = qb_slot_of(gr.query_bindings, a as int);
                                assert(gr.query_bindings[qs as int].1 == a as int);
                                if f == -1 {
                                    assert(false);
                                }
                                if f < qs {
                                    assert(gr.query_bindings[f].1 != a as int);
                                    assert(false);
                                }
                                if f > qs {
                                    assert(false);
                                }
                            }
                            found_qs = true;
                            break ;
                        }
                        qs += 1;
                    }
                    if found_qs {
                        let qname = &route.query_bindings[qs].0;
                        // look the name up among the request's query pairs
                        let mut qi: usize = 0;
                        let qin = query.len();
                        let mut found_qi: bool = false;
                        #[verifier::loop_isolation(true)]
                        loop
                            invariant_except_break
                                !found_qi,
                                gq == qpairs_view(query@),
                                0 <= qi <= qin,
                                qin == query@.len(),
                                forall|j: int|
                                    0 <= j < qi ==> (#[trigger] gq[j]).0 != qname@,
                            ensures
                                (found_qi ==> qi < qin && query_index_of(gq, qname@) == qi as int)
                                    && (!found_qi ==> query_index_of(gq, qname@) == -1),
                            decreases qin - qi,
                        {
                            if qi == qin {
                                proof {
                                    lemma_query_index_char(gq, qname@);
                                    let f = query_index_of(gq, qname@);
                                    if f != -1 {
                                        assert(gq[f].0 == qname@);
                                        assert(false);
                                    }
                                }
                                break ;
                            }
                            if str_eq(query[qi].0.as_str(), qname.as_str()) {
                                proof {
                                    lemma_query_index_char(gq, qname@);
                                    let f = query_index_of(gq, qname@);
                                    assert(gq[qi as int].0 == qname@);
                                    if f == -1 {
                                        assert(false);
                                    }
                                    if f < qi {
                                        assert(gq[f].0 != qname@);
                                        assert(false);
                                    }
                                    if f > qi {
                                        assert(false);
                                    }
                                }
                                found_qi = true;
                                break ;
                            }
                            qi += 1;
                        }
                        if found_qi {
                            raw = Some(query[qi].1.clone());
                        } else {
                            missing = true;
                        }
                    } else {
                        let is_body = match route.body_binding {
                            Some(b) => b == a,
                            None => false,
                        };
                        if is_body {
                            match body {
                                Some(b) => {
                                    raw = Some(String::from_str(b));
                                },
                                None => {
                                    missing = true;
                                },
                            }
                        } else {
                            missing = true;
                        }
                    }
                }
                if missing {
                    proof {
                        assert(spec_bind_arg(gr, gsegs, gq, gb, a as int) == Err::<
                            SpecBound,
                            SpecFail,
                        >(SpecFail::Missing(gr.args[a as int].name)));
                    }
                    return Dispatch::MissingArgument(arg.name.clone());
                }
                // a value was found on some zone, or the binding returned above
                let raw_s = match &raw {
                    Some(s) => s.as_str(),
                    None => {
                        proof {
                            assert(false);
                        }
                        ""
                    },
                };
                match coerce(arg.ty.as_str(), raw_s) {
                    None => {
                        proof {
                            assert(spec_bind_arg(gr, gsegs, gq, gb, a as int) == Err::<
                                SpecBound,
                                SpecFail,
                            >(SpecFail::Bad(gr.args[a as int].name)));
                        }
                        return Dispatch::BadArgument(arg.name.clone());
                    },
                    Some(v) => {
                        let ghost gv = v@;
                        out.push(BoundArg::Input(v));
                        proof {
                            assert(spec_bind_arg(gr, gsegs, gq, gb, a as int) == Ok::<
                                SpecBound,
                                SpecFail,
                            >(SpecBound::Input(gv)));
                            assert(bounds_view(out@) =~= bounds_view(pre).push(
                                SpecBound::Input(gv),
                            ));
                        }
                    },
                }
            }
            proof {
                let inner = spec_bind_from(gr, gsegs, gq, gb, a + 1);
                if inner is Ok {
                    let bs = inner->Ok_0;
                    assert(bounds_view(pre) + (seq![out@.last()@] + bs) =~= bounds_view(out@) + bs);
                }
            }
            a += 1;
        }
        proof {
            assert(spec_bind_from(gr, gsegs, gq, gb, route.args@.len() as int) == Ok::<
                Seq<SpecBound>,
                SpecFail,
            >(Seq::<SpecBound>::empty()));
            assert(bounds_view(out@) + Seq::<SpecBound>::empty() =~= bounds_view(out@));
            assert(spec_bind_from(gr, gsegs, gq, gb, 0) == Ok::<Seq<SpecBound>, SpecFail>(
                bounds_view(out@),
            ));
        }
        Dispatch::Invoke(
            InvocationPlan { route: k, routine: route.routine.clone(), args: out },
        )
    }
}

impl Dispatch {
    /// The HTTP status a binding outcome maps to: not-found is 404, a bad
    /// or missing argument is 400, a ready invocation is 200.
    pub fn status(&self) -> (s: u16)
        ensures
            self is NotFound ==> s == 404,
            self is BadArgument || self is MissingArgument ==> s == 400,
            self is Invoke ==> s == 200,
    {
        match self {
            Dispatch::NotFound => 404,
            Dispatch::BadArgument(_) => 400,
            Dispatch::MissingArgument(_) => 400,
            Dispatch::Invoke(_) => 200,
        }
    }
}

/// The position of the first `=` in a token, or -1.
pub open spec fn eq_index_of(t: Seq<char>) -> int
    decreases t.len(),
{
    if t.len() == 0 {
        -1
    } else if t.first() == '=' {
        0
    } else {
        let r = eq_index_of(t.drop_first());
        if r == -1 {
            -1
        } else {
            r + 1
        }
    }
}

pub proof fn lemma_eq_index_char(t: Seq<char>)
    ensures
        eq_index_of(t) == -1 ==> forall|j: int| 0 <= j < t.len() ==> t[j] != '=',
        eq_index_of(t) != -1 ==> {
            let f = eq_index_of(t);
            &&& 0 <= f < t.len()
            &&& t[f] == '='
            &&& forall|j: int| 0 <= j < f ==> t[j] != '='
        },
    decreases t.len(),
{
    if t.len() > 0 && t.first() != '=' {
        lemma_eq_index_char(t.drop_first());
        assert(forall|j: int| 0 <= j < t.drop_first().len() ==> t.drop_first()[j] == t[j + 1]);
        let f0 = eq_index_of(t.drop_first());
        if f0 == -1 {
            assert forall|j: int| 0 <= j < t.len() implies t[j] != '=' by {
                if j > 0 {
                    assert(t[j] == t.drop_first()[j - 1]);
                }
            }
        } else {
            assert forall|j: int| 0 <= j < f0 + 1 implies t[j] != '=' by {
                if j > 0 {
                    assert(t[j] == t.drop_first()[j - 1]);
                }
            }
        }
    }
}

/// One `name=value` token; without `=` the value is empty.
pub open spec fn kv_of(t: Seq<char>) -> (Seq<char>, Seq<char>) {
    let i = eq_index_of(t);
    if i == -1 {
        (t, Seq::<char>::empty())
    } else {
        (t.take(i), t.skip(i + 1))
    }
}

/// A query string: empty means no pairs; otherwise `&`-separated
/// `name=value` tokens, in order.
pub open spec fn spec_parse_query(s: Seq<char>) -> Seq<(Seq<char>, Seq<char>)> {
    if s.len() == 0 {
        Seq::<(Seq<char>, Seq<char>)>::empty()
    } else {
        split_char(s, '&').map_values(|t: Seq<char>| kv_of(t))
    }
}

/// Parses a raw query string into name/value pairs.
#[verifier::loop_isolation(false)]
pub fn parse_query(s: &str) -> (r: Vec<(String, String)>)
    ensures
        qpairs_view(r@) == spec_parse_query(s@),
{
    let mut r: Vec<(String, String)> = Vec::new();
    if s.unicode_len() == 0 {
        proof {
            assert(qpairs_view(r@) =~= spec_parse_query(s@));
        }
        return r;
    }
    let toks = split_str(s, '&');
    let ghost gts = strs_view(toks@);
    let mut i: usize = 0;
    proof {
        assert(qpairs_view(r@) =~= gts.map_values(|t: Seq<char>| kv_of(t)).take(0));
    }
    while i < toks.len()
        invariant
            0 <= i <= toks@.len(),
            qpairs_view(r@) == gts.map_values(|t: Seq<char>| kv_of(t)).take(i as int),
        decreases toks@.len() - i,
    {
        let ghost pre = r@;
        let t = toks[i].as_str();
        let n = t.unicode_len();
        let mut j: usize = 0;
        let mut found: bool = false;
        #[verifier::loop_isolation(true)]
        loop
            invariant_except_break
                !found,
                0 <= j <= n,
                n == t@.len(),
                forall|k: int| 0 <= k < j ==> t@[k] != '=',
            ensures
                (found ==> j < n && eq_index_of(t@) == j as int) && (!found ==> eq_index_of(t@)
                    == -1),
            decreases n - j,
        {
            if j == n {
                proof {
                    lemma_eq_index_char(t@);
                    let f = eq_index_of(t@);
                    if f != -1 {
                        assert(t@[f] == '=');
                        assert(false);
                    }
                }
                break ;
            }
            if t.get_char(j) == '=' {
                proof {
                    lemma_eq_index_char(t@);
                    let f = eq_index_of(t@);
                    if f == -1 || f < j || f > j {
                        assert(false);
                    }
                }
                found = true;
                break ;
            }
            j += 1;
        }
        if found {
            let name = String::from_str(t.substring_char(0, j));
            let value = String::from_str(t.substring_char(j + 1, n));
            r.push((name, value));
            proof {
                assert((t@.take(j as int), t@.skip(j + 1)) == kv_of(t@));
                assert(t@.subrange(0, j as int) =~= t@.take(j as int));
                assert(t@.subrange(j + 1, n as int) =~= t@.skip(j + 1));
            }
        } else {
            let name = toks[i].clone();
            r.push((name, String::new()));
            proof {
                assert((t@, Seq::<char>::empty()) == kv_of(t@));
            }
        }
        proof {
            let f = gts.map_values(|t2: Seq<char>| kv_of(t2));
            assert(qpairs_view(r@) =~= qpairs_view(pre).push(kv_of(t@)));
            assert(f[i as int] == kv_of(gts[i as int]));
            assert(f.take(i as int).push(f[i as int]) =~= f.take(i + 1));
        }
        i += 1;
    }
    proof {
        let f = gts.map_values(|t2: Seq<char>| kv_of(t2));
        assert(f.take(toks@.len() as int) =~= f);
        assert(qpairs_view(r@) =~= spec_parse_query(s@));
    }
    r
}

} // verus!
