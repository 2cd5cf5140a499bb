//! Command-line arguments of the log parser and of the log generator.

use vstd::prelude::*;
use vstd::string::*;
use vstd::utf8::*;
use crate::text::{owned, parse_unsigned, parse_unsigned_spec, IntParseError};

verus! {

broadcast use vstd::string::group_string_axioms;

/// The usage line of the parser.
pub open spec fn parser_usage_text() -> Seq<char> {
    "usage: zero-copy-log-parser <log-file>"@
}

/// The usage line of the generator.
pub open spec fn generator_usage_text() -> Seq<char> {
    "usage: generate <sample-log> <output-log> [count]"@
}

/// The usage line of the parser.
pub fn parser_usage() -> (r: String)
    ensures
        r@ == parser_usage_text(),
{
    owned("usage: zero-copy-log-parser <log-file>")
}

/// The usage line of the generator.
pub fn generator_usage() -> (r: String)
    ensures
        r@ == generator_usage_text(),
{
    owned("usage: generate <sample-log> <output-log> [count]")
}

/// The texts of a list of arguments.
pub open spec fn arg_texts(args: Seq<String>) -> Seq<Seq<char>> {
    args.map_values(|a: String| a@)
}

/// The parser takes exactly one argument: the path of the log file.
pub fn parser_args(args: &[String]) -> (r: Result<String, String>)
    ensures
        match r {
            Ok(path) => args@.len() == 1 && path@ == args@[0]@,
            Err(e) => args@.len() != 1 && e@ == parser_usage_text(),
        },
{
    if args.len() != 1 {
        return Err(parser_usage());
    }
    Ok(args[0].clone())
}

/// The generator's arguments: sample path, output path and line count.
pub struct GeneratorArgs {
    pub sample_path: String,
    pub output_path: String,
    pub count: usize,
}

/// How many lines are generated when no count is given.
pub const DEFAULT_COUNT: usize = 500;

/// The generator takes a sample path, an output path and an optional count
/// (500 when absent); a count that is not a number is reported before
/// surplus arguments are.
pub open spec fn generator_args_spec(args: Seq<Seq<char>>) -> Result<
    (Seq<char>, Seq<char>, nat),
    Seq<char>,
> {
    if args.len() < 2 {
        Err(generator_usage_text())
    } else if args.len() == 2 {
        Ok((args[0], args[1], 500))
    } else {
        match parse_unsigned_spec(encode_utf8(args[2]), usize::MAX as nat) {
            Err(e) => Err("invalid count `"@ + args[2] + "`: "@ + e.spec_message()),
            Ok(n) => if args.len() > 3 {
                Err(generator_usage_text())
            } else {
                Ok((args[0], args[1], n))
            },
        }
    }
}

/// The sample path is always the first argument and the output path the
/// second: two arguments are accepted with the count 500, and a third one
/// only sets the count, to the number it reads (and is refused when it does
/// not read as one); more than three are refused.
pub proof fn lemma_generator_argument_roles(a: Seq<char>, b: Seq<char>, n: Seq<char>)
    ensures
        generator_args_spec(seq![a, b]) == Ok::<(Seq<char>, Seq<char>, nat), Seq<char>>(
            (a, b, 500),
        ),
        generator_args_spec(seq![a, b, n]) is Ok <==> parse_unsigned_spec(
            encode_utf8(n),
            usize::MAX as nat,
        ) is Ok,
        generator_args_spec(seq![a, b, n]) matches Ok((s, o, c)) ==> s == a && o == b && Ok::<
            nat,
            IntParseError,
        >(c) == parse_unsigned_spec(encode_utf8(n), usize::MAX as nat),
{
}

/// Whatever arguments are given, an accepted list has its sample path first
/// and its output path second.
pub proof fn lemma_generator_paths(args: Seq<Seq<char>>)
    ensures
        generator_args_spec(args) matches Ok((s, o, _c)) ==> 2 <= args.len() <= 3 && s == args[0]
            && o == args[1],
        args.len() < 2 || args.len() > 3 ==> generator_args_spec(args) is Err,
{
}

/// Reads the generator's arguments.
pub fn generator_args(args: &[String]) -> (r: Result<GeneratorArgs, String>)
    ensures
        match r {
            Ok(g) => generator_args_spec(arg_texts(args@)) == Ok::<
                (Seq<char>, Seq<char>, nat),
                Seq<char>,
            >((g.sample_path@, g.output_path@, g.count as nat)),
            Err(e) => generator_args_spec(arg_texts(args@)) == Err::<
                (Seq<char>, Seq<char>, nat),
                Seq<char>,
            >(e@),
        },
        r matches Ok(g) ==> g.sample_path@ == args@[0]@ && g.output_path@ == args@[1]@,
        args@.len() == 2 ==> (r matches Ok(g) && g.count == 500),
{
    let ghost texts = arg_texts(args@);
    if args.len() < 2 {
        return Err(generator_usage());
    }
    assert(texts[0] == args@[0]@ && texts[1] == args@[1]@);
    let count: usize = if args.len() == 2 {
        DEFAULT_COUNT
    } else {
        assert(texts[2] == args@[2]@);
        let value = args[2].as_str();
        match parse_unsigned(value.as_bytes(), usize::MAX as u64) {
            Ok(n) => n as usize,
            Err(e) => {
                let mut message = owned("invalid count `");
                message.append(value);
                message.append("`: ");
                let description = e.message();
                message.append(description.as_str());
                return Err(message);
            },
        }
    };
    if args.len() > 3 {
        return Err(generator_usage());
    }
    Ok(GeneratorArgs { sample_path: args[0].clone(), output_path: args[1].clone(), count })
}

} // verus!
