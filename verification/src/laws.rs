//! What holds of compiling and matching taken together.

use vstd::prelude::*;
use crate::compiler::is_compilation_of;
use crate::token::{CompileError, CompiledPattern};

verus! {

/// Compiling and matching are deterministic. Two compilations of one
/// pattern text end alike: both fail, with the same error, or both give a
/// compiled pattern, and the two have the same model and so match exactly
/// the same subjects.
pub proof fn lemma_compile_and_match_deterministic(
    pattern: Seq<char>,
    subject: Seq<char>,
    first: Result<CompiledPattern, CompileError>,
    second: Result<CompiledPattern, CompileError>,
)
    requires
        is_compilation_of(first, pattern),
        is_compilation_of(second, pattern),
    ensures
        first is Ok <==> second is Ok,
        first is Err ==> first->Err_0 == second->Err_0,
        first is Ok ==> first->Ok_0@ == second->Ok_0@,
        first is Ok ==> first->Ok_0@.matches(subject) == second->Ok_0@.matches(subject),
{
}

} // verus!
