//! Exposes stored database routines as HTTP endpoints, without hand-written
//! route tables: a routine's declared name encodes an HTTP method, URL path
//! template and accepted query-parameter names (`"get /user/:id?name&age"`).
//! The library parses those names, compiles a route table from the catalog,
//! and decides how an incoming request binds to a routine invocation and how
//! the routine's result is shaped into a response. All I/O — the database
//! session and the HTTP transport — stays outside, handing in plain values.
use vstd::prelude::*;

pub mod dispatch;
pub mod encode;
pub mod modes;
pub mod pg_func;
pub mod route;
pub mod strutil;
pub mod value;

pub use dispatch::{BoundArg, Dispatch, InvocationPlan};
pub use encode::{EncodeError, Payload};
pub use modes::ArgMode;
pub use pg_func::{CatalogRow, DiagKind, Diagnostic, NameError, PgArg, PgFunc};
pub use route::{CompiledRoute, OutputSpec, PatternSeg, RouteTable};
pub use value::PgValue;

verus! {

/// The library's verified pipeline in one call chain: introspect catalog
/// rows into signatures, compile them into a route table, and the table is
/// ready for `dispatch`. Kept as a convenience for hosts that rebuild the
/// table wholesale on reload.
pub fn build_table(rows: &Vec<CatalogRow>) -> (r: Result<
    (RouteTable, Vec<Diagnostic>),
    pg_func::CatalogError,
>)
    ensures
        r is Ok <==> pg_func::spec_introspect(pg_func::rows_view(rows@)) is Ok,
        r matches Ok(v) ==> {
            let (fs, ds) = pg_func::spec_introspect(pg_func::rows_view(rows@)).unwrap();
            let (rts, cds) = route::spec_compile(fs);
            &&& route::routes_view(v.0.routes@) == rts
            &&& pg_func::diags_view(v.1@) == ds + cds
        },
{
    let (funcs, mut diags) = match PgFunc::from_rows(rows) {
        Err(e) => {
            return Err(e);
        },
        Ok(v) => v,
    };
    let ghost ds = pg_func::diags_view(diags@);
    let (table, mut more) = RouteTable::compile(&funcs);
    let ghost cds = pg_func::diags_view(more@);
    diags.append(&mut more);
    proof {
        assert(pg_func::diags_view(diags@) =~= ds + cds);
    }
    Ok((table, diags))
}

} // verus!
