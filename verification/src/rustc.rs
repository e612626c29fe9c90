//! The rustc-based Rust backend.  It needs the compiler's internal crates,
//! which a stable toolchain does not offer; built without them, as here, it
//! reports no facts.

use vstd::prelude::*;
use crate::common::IcbError;
use crate::facts::RawNode;

verus! {

/// Analyse the crate rooted at `crate_root`.  Without the compiler's
/// internal crates there is nothing to run, and the result is empty.
pub fn parse_rust_crate(crate_root: &str, args: &[String]) -> (r: Result<Vec<RawNode>, IcbError>)
    ensures
        r matches Ok(facts) && facts@.len() == 0,
{
    run_analysis(crate_root, args)
}

/// Run the compiler session on a crate and collect its facts; without the
/// compiler's internal crates, no facts.
pub fn run_analysis(crate_root: &str, args: &[String]) -> (r: Result<Vec<RawNode>, IcbError>)
    ensures
        r matches Ok(facts) && facts@.len() == 0,
{
    collect_facts((), (), ())
}

/// Collect the facts of the compiler's HIR; without the compiler's internal
/// crates there is no HIR, and no facts.
pub fn collect_facts(tcx: (), hir_map: (), source_map: ()) -> (r: Result<Vec<RawNode>, IcbError>)
    ensures
        r matches Ok(facts) && facts@.len() == 0,
{
    Ok(Vec::new())
}

} // verus!
