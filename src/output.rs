use vstd::prelude::*;
use crate::lowering::{Lowered, lower, lower_fails, lowered};
use crate::render::{image_text, image_text_of, program_text, program_text_spec, value_line};
use crate::field::Felt;
use crate::types::{LowerError, Tables, layout_ok};
use crate::constants::ambiguous;

verus! {

/// The two texts that a lowering produces.
pub struct Output {
    /// The instructions, one per line.
    pub program: String,
    /// The memory snapshot.
    pub memory: String,
}

/// Lowers the tables and writes the program and the memory snapshot; fails,
/// producing neither, exactly where the lowering fails.
pub fn generate(t: &Tables) -> (r: Result<Output, LowerError>)
    ensures
        r matches Err(e) ==> lower_fails(t, e),
        r matches Ok(o) ==> exists|out: Lowered| {
            &&& lowered(t, &out)
            &&& o.program@ == program_text_spec(out.program@)
            &&& o.memory@ == image_text(out.memory@.map_values(|f: Felt| value_line(f)))
        },
{
    let out = lower(t)?;
    let program = program_text(&out.program);
    let memory = image_text_of(&out.memory);
    Ok(Output { program, memory })
}

} // verus!
