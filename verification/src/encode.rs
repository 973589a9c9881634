//! Response encoding: shapes a routine's raw result rows into a payload.
//!
//! A row is a sequence of named, typed fields as the database capability
//! returned them. `scalar` takes the single value of the single row; `row`
//! takes the first row as a field mapping; `rowset` keeps every row, and an
//! empty set is valid and distinct from not-found; `outComposite` builds a
//! mapping from the `out` arguments' names, in declaration order, paired
//! positionally with the columns of the single result row — whatever the
//! routine's declared return type says.
use crate::pg_func::{args_view, PgArg, SpecArg};
use crate::route::{usizes, OutputSpec, SpecOutput};
use crate::value::{PgValue, SpecValue};
use vstd::prelude::*;

verus! {

/// The view of one result row.
pub open spec fn row_view(r: Seq<(String, PgValue)>) -> Seq<(Seq<char>, SpecValue)> {
    r.map_values(|f: (String, PgValue)| (f.0@, f.1@))
}

/// The views of a sequence of result rows.
pub open spec fn resrows_view(rs: Seq<Vec<(String, PgValue)>>) -> Seq<Seq<(Seq<char>, SpecValue)>> {
    rs.map_values(|r: Vec<(String, PgValue)>| row_view(r@))
}

/// An encoded response payload.
#[derive(Debug)]
pub enum Payload {
    /// One bare value.
    Scalar(PgValue),
    /// One field-to-value mapping, in field order.
    Row(Vec<(String, PgValue)>),
    /// An ordered sequence of such mappings; empty is valid.
    RowSet(Vec<Vec<(String, PgValue)>>),
}

/// The mathematical value of a `Payload`.
pub ghost enum SpecPayload {
    Scalar(SpecValue),
    Row(Seq<(Seq<char>, SpecValue)>),
    RowSet(Seq<Seq<(Seq<char>, SpecValue)>>),
}

impl View for Payload {
    type V = SpecPayload;

    open spec fn view(&self) -> SpecPayload {
        match self {
            Payload::Scalar(v) => SpecPayload::Scalar(v@),
            Payload::Row(r) => SpecPayload::Row(row_view(r@)),
            Payload::RowSet(rs) => SpecPayload::RowSet(resrows_view(rs@)),
        }
    }
}

/// A result that cannot be shaped as the output spec demands.
#[derive(Clone, Copy, Debug, PartialEq, Eq, Structural)]
pub enum EncodeError {
    /// A scalar, row or out-composite shape needs at least one row (and,
    /// for a scalar, at least one column).
    EmptyResult,
    /// The single result row does not line up with the `out` arguments.
    ShapeMismatch,
}

/// Encoding of a result under an output spec.
pub open spec fn spec_encode(
    output: SpecOutput,
    args: Seq<SpecArg>,
    rows: Seq<Seq<(Seq<char>, SpecValue)>>,
) -> Result<SpecPayload, EncodeError> {
    match output {
        SpecOutput::Scalar => {
            if rows.len() >= 1 && rows[0].len() >= 1 {
                Ok(SpecPayload::Scalar(rows[0][0].1))
            } else {
                Err(EncodeError::EmptyResult)
            }
        },
        SpecOutput::Row => {
            if rows.len() >= 1 {
                Ok(SpecPayload::Row(rows[0]))
            } else {
                Err(EncodeError::EmptyResult)
            }
        },
        SpecOutput::RowSet => Ok(SpecPayload::RowSet(rows)),
        SpecOutput::OutComposite(idxs) => {
            if rows.len() == 0 {
                Err(EncodeError::EmptyResult)
            } else if rows[0].len() != idxs.len() || exists|j: int|
                0 <= j < idxs.len() && !(0 <= #[trigger] idxs[j] < args.len()) {
                Err(EncodeError::ShapeMismatch)
            } else {
                Ok(
                    SpecPayload::Row(
                        Seq::new(idxs.len(), |j: int| (args[idxs[j]].name, rows[0][j].1)),
                    ),
                )
            }
        },
    }
}

fn clone_row(r: &Vec<(String, PgValue)>) -> (c: Vec<(String, PgValue)>)
    ensures
        row_view(c@) == row_view(r@),
{
    let mut c: Vec<(String, PgValue)> = Vec::new();
    let mut i: usize = 0;
    proof {
        assert(row_view(c@) =~= row_view(r@).take(0));
    }
    while i < r.len()
        invariant
            0 <= i <= r@.len(),
            row_view(c@) == row_view(r@).take(i as int),
        decreases r@.len() - i,
    {
        let ghost pre = c@;
        c.push((r[i].0.clone(), r[i].1.duplicate()));
        proof {
            assert(row_view(c@) =~= row_view(pre).push(row_view(r@)[i as int]));
            assert(row_view(c@) =~= row_view(r@).take(i + 1));
        }
        i += 1;
    }
    proof {
        assert(row_view(r@).take(r@.len() as int) =~= row_view(r@));
    }
    c
}

/// Shapes raw result rows into a payload under the output spec, with the
/// routine's arguments supplying the `out` composite's field names.
pub fn encode(output: &OutputSpec, args: &Vec<PgArg>, rows: &Vec<Vec<(String, PgValue)>>) -> (r:
    Result<Payload, EncodeError>)
    ensures
        r matches Ok(p) ==> spec_encode(output@, args_view(args@), resrows_view(rows@)) == Ok::<
            SpecPayload,
            EncodeError,
        >(p@),
        r matches Err(e) ==> spec_encode(output@, args_view(args@), resrows_view(rows@)) == Err::<
            SpecPayload,
            EncodeError,
        >(e),
{
    let ghost grows = resrows_view(rows@);
    match output {
        OutputSpec::Scalar => {
            if rows.len() >= 1 && rows[0].len() >= 1 {
                Ok(Payload::Scalar(rows[0][0].1.duplicate()))
            } else {
                Err(EncodeError::EmptyResult)
            }
        },
        OutputSpec::Row => {
            if rows.len() >= 1 {
                Ok(Payload::Row(clone_row(&rows[0])))
            } else {
                Err(EncodeError::EmptyResult)
            }
        },
        OutputSpec::RowSet => {
            let mut c: Vec<Vec<(String, PgValue)>> = Vec::new();
            let mut i: usize = 0;
            proof {
                assert(resrows_view(c@) =~= grows.take(0));
            }
            while i < rows.len()
                invariant
                    0 <= i <= rows@.len(),
                    grows == resrows_view(rows@),
                    resrows_view(c@) == grows.take(i as int),
                decreases rows@.len() - i,
            {
                let ghost pre = c@;
                c.push(clone_row(&rows[i]));
                proof {
                    assert(resrows_view(c@) =~= resrows_view(pre).push(grows[i as int]));
                    assert(resrows_view(c@) =~= grows.take(i + 1));
                }
                i += 1;
            }
            proof {
                assert(grows.take(rows@.len() as int) =~= grows);
            }
            Ok(Payload::RowSet(c))
        },
        OutputSpec::OutComposite(idxs) => {
            let ghost gidx = usizes(idxs@);
            let ghost gargs = args_view(args@);
            if rows.len() == 0 {
                return Err(EncodeError::EmptyResult);
            }
            let row = &rows[0];
            if row.len() != idxs.len() {
                return Err(EncodeError::ShapeMismatch);
            }
            let ghost target = Seq::new(
                gidx.len(),
                |j: int| (gargs[gidx[j]].name, grows[0][j].1),
            );
            let mut c: Vec<(String, PgValue)> = Vec::new();
            let mut j: usize = 0;
            proof {
                assert(row_view(c@) =~= target.take(0));
            }
            while j < idxs.len()
                invariant
                    0 <= j <= idxs@.len(),
                    output@ == SpecOutput::OutComposite(gidx),
                    gidx == usizes(idxs@),
                    gargs == args_view(args@),
                    grows == resrows_view(rows@),
                    rows@.len() > 0,
                    row == rows@[0],
                    row@.len() == idxs@.len(),
                    target == Seq::new(
                        gidx.len(),
                        |j2: int| (gargs[gidx[j2]].name, grows[0][j2].1),
                    ),
                    forall|k: int| 0 <= k < j ==> 0 <= #[trigger] gidx[k] < gargs.len(),
                    row_view(c@) == target.take(j as int),
                decreases idxs@.len() - j,
            {
                let ghost pre = c@;
                let ai = idxs[j];
                if ai >= args.len() {
                    proof {
                        assert(!(0 <= gidx[j as int] < gargs.len()));
                    }
                    return Err(EncodeError::ShapeMismatch);
                }
                c.push((args[ai].name.clone(), row[j].1.duplicate()));
                proof {
                    assert(grows[0] == row_view(rows@[0]@));
                    assert(grows[0][j as int] == (rows@[0]@[j as int].0@, rows@[0]@[j as int].1@));
                    assert(row_view(c@) =~= row_view(pre).push(target[j as int]));
                    assert(row_view(c@) =~= target.take(j + 1));
                }
                j += 1;
            }
            proof {
                assert(target.take(idxs@.len() as int) =~= target);
                assert(!(exists|k: int| 0 <= k < gidx.len() && !(0 <= #[trigger] gidx[k]
                    < gargs.len())));
            }
            Ok(Payload::Row(c))
        },
    }
}

} // verus!
