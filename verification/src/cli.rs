//! The command line of the detector:
//! `program model_path (-p image_in image_out | -d dir_in dir_out) [-C confidence] [-T threshold]`.

use vstd::prelude::*;

verus! {

/// Whether the input is one image or a directory of images.
#[derive(Clone, Copy, Debug, PartialEq, Eq, Structural)]
pub enum ArgState {
    FileInput,
    DirInput,
}

/// The parsed command line. The confidence and the threshold stay text:
/// they are decimal numbers that the caller reads.
#[derive(Debug)]
pub struct CliArgs {
    pub state: ArgState,
    pub model_path: String,
    pub input: String,
    pub output: String,
    pub confidence: Option<String>,
    pub threshold: Option<String>,
}

pub open spec fn opt_view(o: Option<String>) -> Option<Seq<char>> {
    match o {
        Some(s) => Some(s@),
        None => None,
    }
}

/// The parsed command line as plain values.
pub struct CliSpec {
    pub state: ArgState,
    pub model_path: Seq<char>,
    pub input: Seq<char>,
    pub output: Seq<char>,
    pub confidence: Option<Seq<char>>,
    pub threshold: Option<Seq<char>>,
}

pub open spec fn cli_view(c: CliArgs) -> CliSpec {
    CliSpec {
        state: c.state,
        model_path: c.model_path@,
        input: c.input@,
        output: c.output@,
        confidence: opt_view(c.confidence),
        threshold: opt_view(c.threshold),
    }
}

pub open spec fn usage_message(program: Seq<char>) -> Seq<char> {
    "Usage: "@ + program
        + " [model_path] [-p input_image_path output_image_path | -d input_dir_path output_dir_path] < [-C confidence] [-T threshold] >"@
}

/// The options from position `i` on, given the confidence and threshold
/// read so far: `-C value` and `-T value` pairs, a later one overriding an
/// earlier one.
pub open spec fn parse_options(
    args: Seq<Seq<char>>,
    i: int,
    confidence: Option<Seq<char>>,
    threshold: Option<Seq<char>>,
) -> Result<(Option<Seq<char>>, Option<Seq<char>>), Seq<char>>
    decreases args.len() - i,
{
    if i < 0 || i >= args.len() {
        Ok((confidence, threshold))
    } else if args[i] == "-C"@ {
        if i + 1 < args.len() {
            parse_options(args, i + 2, Some(args[i + 1]), threshold)
        } else {
            Err("Missing value for -C"@)
        }
    } else if args[i] == "-T"@ {
        if i + 1 < args.len() {
            parse_options(args, i + 2, confidence, Some(args[i + 1]))
        } else {
            Err("Missing value for -T"@)
        }
    } else {
        Err("Unknown argument: "@ + args[i])
    }
}

/// What the command line comes to.
pub open spec fn parse_command_line(args: Seq<Seq<char>>) -> Result<CliSpec, Seq<char>> {
    if args.len() < 5 || args.len() > 9 {
        Err(usage_message(args[0]))
    } else {
        match parse_options(args, 5, None, None) {
            Err(e) => Err(e),
            Ok((c, t)) => if args[2] == "-p"@ || args[2] == "-d"@ {
                Ok(
                    CliSpec {
                        state: if args[2] == "-p"@ {
                            ArgState::FileInput
                        } else {
                            ArgState::DirInput
                        },
                        model_path: args[1],
                        input: args[3],
                        output: args[4],
                        confidence: c,
                        threshold: t,
                    },
                )
            } else {
                Err("Invalid option. Use -p for image paths or -d for directory paths."@)
            },
        }
    }
}

pub open spec fn args_view(args: Seq<String>) -> Seq<Seq<char>> {
    args.map_values(|s: String| s@)
}

fn literal(s: &str) -> (r: String)
    ensures
        r@ == s@,
{
    String::from_str(s)
}

fn concat(a: &str, b: &str) -> (r: String)
    ensures
        r@ == a@ + b@,
{
    let mut r = String::from_str(a);
    r.append(b);
    r
}

fn arg_prase(args: &Vec<String>) -> (r: Result<CliArgs, String>)
    requires
        args.len() >= 1,
    ensures
        match r {
            Ok(c) => parse_command_line(args_view(args@)) == Ok::<CliSpec, Seq<char>>(cli_view(c)),
            Err(e) => parse_command_line(args_view(args@)) == Err::<CliSpec, Seq<char>>(e@),
        },
{
    let ghost a = args_view(args@);
    let n = args.len();
    if n < 5 || n > 9 {
        let mut msg = concat("Usage: ", args[0].as_str());
        msg.append(
            " [model_path] [-p input_image_path output_image_path | -d input_dir_path output_dir_path] < [-C confidence] [-T threshold] >",
        );
        return Err(msg);
    }
    let flag_c = literal("-C");
    let flag_t = literal("-T");
    let mut confidence: Option<String> = None;
    let mut threshold: Option<String> = None;
    let mut i: usize = 5;
    while i < n
        invariant
            n == args.len(),
            5 <= n <= 9,
            5 <= i <= n + 1,
            a == args_view(args@),
            flag_c@ == "-C"@,
            flag_t@ == "-T"@,
            parse_options(a, 5, None, None) == parse_options(
                a,
                i as int,
                opt_view(confidence),
                opt_view(threshold),
            ),
        decreases n + 1 - i,
    {
        assert(a[i as int] == args@[i as int]@);
        if args[i] == flag_c {
            if i + 1 < n {
                confidence = Some(args[i + 1].clone());
                i = i + 2;
            } else {
                return Err(literal("Missing value for -C"));
            }
        } else if args[i] == flag_t {
            if i + 1 < n {
                threshold = Some(args[i + 1].clone());
                i = i + 2;
            } else {
                return Err(literal("Missing value for -T"));
            }
        } else {
            return Err(concat("Unknown argument: ", args[i].as_str()));
        }
    }
    assert(a[2] == args@[2]@);
    assert(a[1] == args@[1]@);
    assert(a[3] == args@[3]@);
    assert(a[4] == args@[4]@);
    let state = if args[2] == literal("-p") {
        ArgState::FileInput
    } else if args[2] == literal("-d") {
        ArgState::DirInput
    } else {
        return Err(literal("Invalid option. Use -p for image paths or -d for directory paths."));
    };
    Ok(
        CliArgs {
            state,
            model_path: args[1].clone(),
            input: args[3].clone(),
            output: args[4].clone(),
            confidence,
            threshold,
        },
    )
}

/// Reads the command line (the program's name first), as the detector does
/// before it loads the model: the usage message where there are fewer than
/// five or more than nine words, an error for an option without its value or
/// an unknown option, and an error where the mode is neither `-p` nor `-d`.
pub fn run(args: &Vec<String>) -> (r: Result<CliArgs, String>)
    requires
        args.len() >= 1,
    ensures
        match r {
            Ok(c) => parse_command_line(args_view(args@)) == Ok::<CliSpec, Seq<char>>(cli_view(c)),
            Err(e) => parse_command_line(args_view(args@)) == Err::<CliSpec, Seq<char>>(e@),
        },
{
    arg_prase(args)
}

/// A command line that parses gives the model path, input and output in the
/// second, fourth and fifth words whatever the mode, and the mode is one image
/// exactly for `-p`; it has five to nine words and the third is `-p` or `-d`.
pub proof fn lemma_command_line_words(args: Seq<Seq<char>>)
    requires
        parse_command_line(args) is Ok,
    ensures
        5 <= args.len() <= 9,
        args[2] == "-p"@ || args[2] == "-d"@,
        parse_command_line(args)->Ok_0.model_path == args[1],
        parse_command_line(args)->Ok_0.input == args[3],
        parse_command_line(args)->Ok_0.output == args[4],
        (parse_command_line(args)->Ok_0.state == ArgState::FileInput) == (args[2] == "-p"@),
{
}

} // verus!
