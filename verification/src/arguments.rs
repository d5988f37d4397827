//! The rules on what the program is started with.
use vstd::prelude::*;

verus! {

/// What is wrong with the arguments, if anything.
pub open spec fn argument_fault(
    model: Seq<char>,
    model_is_file: bool,
    input: Seq<char>,
    input_is_file: bool,
    iterations: u32,
    threads: i32,
) -> Option<Seq<char>> {
    if !model_is_file {
        Some("model does not exist: "@ + model)
    } else if !input_is_file {
        Some("input image does not exist: "@ + input)
    } else if iterations == 0 {
        Some("--iterations must be at least 1"@)
    } else if threads < 0 {
        Some("--threads cannot be negative"@)
    } else {
        None
    }
}

/// Refuses arguments with which the program cannot run. Whether the two paths
/// lead to files is for the caller to find out.
pub fn validate_args(
    model: &str,
    model_is_file: bool,
    input: &str,
    input_is_file: bool,
    iterations: u32,
    threads: i32,
) -> (result: Result<(), String>)
    ensures
        match argument_fault(model@, model_is_file, input@, input_is_file, iterations, threads) {
            None => result is Ok,
            Some(fault) => result matches Err(message) && message@ == fault,
        },
        result is Ok <==> model_is_file && input_is_file && iterations >= 1 && threads >= 0,
        !model_is_file ==> (result matches Err(message) && message@ == "model does not exist: "@
            + model@),
        model_is_file && !input_is_file ==> (result matches Err(message) && message@
            == "input image does not exist: "@ + input@),
        model_is_file && input_is_file && iterations == 0 ==> (result matches Err(message)
            && message@ == "--iterations must be at least 1"@),
        model_is_file && input_is_file && iterations >= 1 && threads < 0 ==> (result matches Err(
            message,
        ) && message@ == "--threads cannot be negative"@),
{
    if !model_is_file {
        return Err("model does not exist: ".to_string().concat(model));
    }
    if !input_is_file {
        return Err("input image does not exist: ".to_string().concat(input));
    }
    if iterations == 0 {
        return Err("--iterations must be at least 1".to_string());
    }
    if threads < 0 {
        return Err("--threads cannot be negative".to_string());
    }
    Ok(())
}

/// Whether the directory of a path has to be made before a file is written
/// there: a bare file name has none.
pub fn needs_directory(parent: Option<&str>) -> (needed: bool)
    ensures
        needed == (parent matches Some(parent) && parent@.len() > 0),
{
    match parent {
        None => false,
        Some(parent) => parent.unicode_len() > 0,
    }
}

/// Arguments are accepted exactly where both paths lead to files, at least one
/// iteration is asked for, and the number of threads is not negative.
pub proof fn law_arguments_accepted(
    model: Seq<char>,
    model_is_file: bool,
    input: Seq<char>,
    input_is_file: bool,
    iterations: u32,
    threads: i32,
)
    ensures
        argument_fault(model, model_is_file, input, input_is_file, iterations, threads) is None
            <==> model_is_file && input_is_file && iterations >= 1 && threads >= 0,
{
}

} // verus!
