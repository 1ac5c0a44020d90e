use vstd::prelude::*;

use crate::compiler::CompileError;

verus! {

/// A call argument as written: its name when it is passed by name.
#[derive(Debug, PartialEq, Eq)]
pub struct SyntaxCallArgument {
    pub name: Option<String>,
}

/// Whether some argument is passed by name.
pub fn syntax_call_args_have_names(args: &[SyntaxCallArgument]) -> (r: bool)
    ensures
        r == exists|i: int| 0 <= i < args@.len() && (#[trigger] args@[i]).name is Some,
{
    let mut i: usize = 0;
    while i < args.len()
        invariant
            i <= args@.len(),
            forall|k: int| 0 <= k < i ==> (#[trigger] args@[k]).name is None,
        decreases args.len() - i,
    {
        if args[i].name.is_some() {
            return true;
        }
        i = i + 1;
    }
    false
}

/// Refuses named arguments where `context` takes none.
pub fn reject_named_syntax_call_args(args: &[SyntaxCallArgument], context: &'static str) -> (r: Result<(), CompileError>)
    ensures
        r is Ok <==> !exists|i: int| 0 <= i < args@.len() && (#[trigger] args@[i]).name is Some,
        r is Err ==> r == Err::<(), CompileError>(CompileError::UnsupportedSyntax(context)),
{
    if syntax_call_args_have_names(args) {
        return Err(CompileError::UnsupportedSyntax(context));
    }
    Ok(())
}

/// The payload of the interpolated expression at `index`: none when there
/// are no payloads; an error when there are payloads but not that many.
pub fn interpolated_expression_payload_at<T>(payloads: Option<&[T]>, index: usize) -> (r: Result<Option<&T>, CompileError>)
    ensures
        match payloads {
            None => r == Ok::<Option<&T>, CompileError>(None),
            Some(p) => if index < p@.len() {
                r == Ok::<Option<&T>, CompileError>(Some(&p@[index as int]))
            } else {
                r == Err::<Option<&T>, CompileError>(CompileError::UnsupportedSyntax("missing CST interpolation expression"))
            },
        },
{
    match payloads {
        None => Ok(None),
        Some(p) => {
            if index < p.len() {
                Ok(Some(&p[index]))
            } else {
                Err(CompileError::UnsupportedSyntax("missing CST interpolation expression"))
            }
        },
    }
}

} // verus!
