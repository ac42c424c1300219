use vstd::prelude::*;

verus! {

/// Where the input comes from and where the output goes.
pub struct InputOutput {
    input: String,
    output: String,
}

/// A missing command-line argument.
#[derive(PartialEq, Eq, Structural, Debug, Clone, Copy)]
pub enum ArgsError {
    MissingInput,
    MissingOutput,
}

impl ArgsError {
    /// The message shown for the error.
    pub fn message(&self) -> (r: &'static str)
        ensures
            *self == ArgsError::MissingInput ==> r@ == "input file required"@,
            *self == ArgsError::MissingOutput ==> r@ == "output file required"@,
    {
        match self {
            ArgsError::MissingInput => "input file required",
            ArgsError::MissingOutput => "output file required",
        }
    }
}

impl InputOutput {
    /// The input path, as text.
    pub closed spec fn input_spec(&self) -> Seq<char> {
        self.input@
    }

    /// The output path, as text.
    pub closed spec fn output_spec(&self) -> Seq<char> {
        self.output@
    }

    /// The input path.
    pub fn input(&self) -> (r: &String)
        ensures
            r@ == self.input_spec(),
    {
        &self.input
    }

    /// The output path.
    pub fn output(&self) -> (r: &String)
        ensures
            r@ == self.output_spec(),
    {
        &self.output
    }
}

/// Reads the input and output paths from the command line, whose first item
/// is the program's name.
pub fn parse_input_ouput_args(args: &Vec<String>) -> (r: Result<InputOutput, ArgsError>)
    ensures
        args@.len() < 2 <==> r == Err::<InputOutput, ArgsError>(ArgsError::MissingInput),
        args@.len() == 2 <==> r == Err::<InputOutput, ArgsError>(ArgsError::MissingOutput),
        r matches Ok(io) ==> io.input_spec() == args@[1]@ && io.output_spec() == args@[2]@,
{
    if args.len() < 2 {
        return Err(ArgsError::MissingInput);
    }
    if args.len() < 3 {
        return Err(ArgsError::MissingOutput);
    }
    Ok(InputOutput { input: args[1].clone(), output: args[2].clone() })
}

} // verus!
