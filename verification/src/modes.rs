//! Argument-mode decoding: maps catalog-level mode codes to a closed set.
//!
//! The catalog hands over one mode code per argument, or no codes at all,
//! which means every argument is an `in` argument. An unrecognized code is a
//! fatal schema inconsistency: the catalog format is not the one this
//! library understands, and it is never silently coerced.
use crate::strutil::str_eq;
use vstd::prelude::*;

verus! {

/// How a routine argument is passed: supplied by the caller (`In`),
/// produced by the routine (`Out`), both (`Inout`), or one of the
/// variable-arity forms that have no HTTP binding (`Variadic`, `Table`).
#[derive(Clone, Copy, Debug, PartialEq, Eq, Structural)]
pub enum ArgMode {
    In,
    Out,
    Inout,
    Variadic,
    Table,
}

impl ArgMode {
    /// The argument supplies input to the routine.
    pub open spec fn is_input(self) -> bool {
        self == ArgMode::In || self == ArgMode::Inout
    }

    /// The argument has no defined HTTP binding.
    pub open spec fn is_unsupported(self) -> bool {
        self == ArgMode::Variadic || self == ArgMode::Table
    }
}

/// The closed code alphabet: which mode a single catalog code denotes.
pub open spec fn mode_of_code(code: Seq<char>) -> Option<ArgMode> {
    if code == "in"@ {
        Some(ArgMode::In)
    } else if code == "out"@ {
        Some(ArgMode::Out)
    } else if code == "inout"@ {
        Some(ArgMode::Inout)
    } else if code == "variadic"@ {
        Some(ArgMode::Variadic)
    } else if code == "table"@ {
        Some(ArgMode::Table)
    } else {
        None
    }
}

/// Decoding of the mode of argument `i` from the catalog's code sequence:
/// an empty sequence means every argument is `in`; otherwise the code at
/// `i` decides, and an unknown code decodes to `None`.
pub open spec fn spec_decode_mode(codes: Seq<Seq<char>>, i: int) -> Option<ArgMode> {
    if codes.len() == 0 {
        Some(ArgMode::In)
    } else if 0 <= i < codes.len() {
        mode_of_code(codes[i])
    } else {
        None
    }
}

impl ArgMode {
    /// Decodes the mode of argument `i` from the catalog's raw code
    /// sequence. `None` reports an unknown code: a fatal schema
    /// inconsistency for the caller to surface.
    pub fn decode(codes: &Vec<String>, i: usize) -> (r: Option<ArgMode>)
        requires
            codes@.len() == 0 || i < codes@.len(),
        ensures
            r == spec_decode_mode(crate::strutil::strs_view(codes@), i as int),
    {
        if codes.len() == 0 {
            return Some(ArgMode::In);
        }
        let code = codes[i].as_str();
        if str_eq(code, "in") {
            Some(ArgMode::In)
        } else if str_eq(code, "out") {
            Some(ArgMode::Out)
        } else if str_eq(code, "inout") {
            Some(ArgMode::Inout)
        } else if str_eq(code, "variadic") {
            Some(ArgMode::Variadic)
        } else if str_eq(code, "table") {
            Some(ArgMode::Table)
        } else {
            None
        }
    }
}

} // verus!
