//! The command line of the `neomark` program: which file to read, where to write,
//! the page title, and whether to write a fragment only.

use vstd::prelude::*;
use crate::text::{chars_to_string, extend_chars, str_chars, str_eq};

verus! {

/// The command-line options.
#[derive(Debug, Clone, Default, PartialEq, Eq)]
pub struct Args {
    /// The input file; `None` or `-` is standard input.
    pub input: Option<String>,
    /// The output path; by default the input with `.html`, or standard output.
    pub output: Option<String>,
    /// The page title; by default the input file's name.
    pub title: Option<String>,
    /// Write the HTML fragment only, without the page and the default CSS.
    pub fragment: bool,
}

/// The value of the options.
pub struct ArgsV {
    pub input: Option<Seq<char>>,
    pub output: Option<Seq<char>>,
    pub title: Option<Seq<char>>,
    pub fragment: bool,
}

/// An optional string as an optional character sequence.
pub open spec fn opt_view(o: Option<String>) -> Option<Seq<char>> {
    match o {
        Some(s) => Some(s@),
        None => None,
    }
}

/// The value of some options.
pub open spec fn args_view(a: Args) -> ArgsV {
    ArgsV {
        input: opt_view(a.input),
        output: opt_view(a.output),
        title: opt_view(a.title),
        fragment: a.fragment,
    }
}

/// No option given.
pub open spec fn args_empty() -> ArgsV {
    ArgsV { input: None, output: None, title: None, fragment: false }
}

/// Takes an input file: only one may be given.
pub open spec fn spec_set_input(a: ArgsV, value: Seq<char>) -> Result<ArgsV, Seq<char>> {
    if a.input is Some {
        Err("只能指定一个输入文件"@)
    } else {
        Ok(ArgsV { input: Some(value), ..a })
    }
}

/// Everything after `--` is an input file.
pub open spec fn spec_rest(raw: Seq<Seq<char>>, i: int, a: ArgsV) -> Result<Option<ArgsV>, Seq<char>>
    decreases raw.len() - i,
{
    if i >= raw.len() || i < 0 {
        Ok(Some(a))
    } else {
        match spec_set_input(a, raw[i]) {
            Ok(b) => spec_rest(raw, i + 1, b),
            Err(e) => Err(e),
        }
    }
}

/// The arguments from position `i` on, read into the options so far. `Ok(None)`
/// is a request for help.
pub open spec fn spec_parse_from(raw: Seq<Seq<char>>, i: int, a: ArgsV) -> Result<
    Option<ArgsV>,
    Seq<char>,
>
    decreases raw.len() - i,
{
    if i >= raw.len() || i < 0 {
        Ok(Some(a))
    } else {
        let arg = raw[i];
        if arg == "-h"@ || arg == "--help"@ {
            Ok(None)
        } else if arg == "-o"@ || arg == "--output"@ {
            if i + 1 < raw.len() {
                spec_parse_from(raw, i + 2, ArgsV { output: Some(raw[i + 1]), ..a })
            } else {
                Err("--output 需要一个参数"@)
            }
        } else if arg == "-t"@ || arg == "--title"@ {
            if i + 1 < raw.len() {
                spec_parse_from(raw, i + 2, ArgsV { title: Some(raw[i + 1]), ..a })
            } else {
                Err("--title 需要一个参数"@)
            }
        } else if arg == "--fragment"@ {
            spec_parse_from(raw, i + 1, ArgsV { fragment: true, ..a })
        } else if arg == "--"@ {
            spec_rest(raw, i + 1, a)
        } else if arg.len() > 0 && arg[0] == '-' && arg != "-"@ {
            Err("未知选项："@ + arg)
        } else {
            match spec_set_input(a, arg) {
                Ok(b) => spec_parse_from(raw, i + 1, b),
                Err(e) => Err(e),
            }
        }
    }
}

/// The options of a command line (the program name left out).
pub open spec fn spec_parse_args(raw: Seq<Seq<char>>) -> Result<Option<ArgsV>, Seq<char>> {
    spec_parse_from(raw, 0, args_empty())
}

/// Everything after `--` depends only on the arguments from there on.
proof fn lemma_rest_reads_on(r1: Seq<Seq<char>>, r2: Seq<Seq<char>>, j: int, a: ArgsV)
    requires
        r1.len() == r2.len(),
        forall|k: int| j <= k < r1.len() ==> r1[k] == r2[k],
    ensures
        spec_rest(r1, j, a) == spec_rest(r2, j, a),
    decreases r1.len() - j,
{
    if 0 <= j < r1.len() {
        match spec_set_input(a, r1[j]) {
            Ok(b) => lemma_rest_reads_on(r1, r2, j + 1, b),
            Err(_) => {},
        }
    }
}

/// Reading from position `j` on depends only on the arguments from there on.
proof fn lemma_reads_on(r1: Seq<Seq<char>>, r2: Seq<Seq<char>>, j: int, a: ArgsV)
    requires
        r1.len() == r2.len(),
        forall|k: int| j <= k < r1.len() ==> r1[k] == r2[k],
    ensures
        spec_parse_from(r1, j, a) == spec_parse_from(r2, j, a),
    decreases r1.len() - j,
{
    if 0 <= j < r1.len() {
        let arg = r1[j];
        assert(r2[j] == arg);
        if j + 1 < r1.len() {
            assert(r2[j + 1] == r1[j + 1]);
        }
        lemma_reads_on(r1, r2, j + 1, a);
        lemma_reads_on(r1, r2, j + 1, ArgsV { fragment: true, ..a });
        if j + 1 < r1.len() {
            lemma_reads_on(r1, r2, j + 2, ArgsV { output: Some(r1[j + 1]), ..a });
            lemma_reads_on(r1, r2, j + 2, ArgsV { title: Some(r1[j + 1]), ..a });
        }
        lemma_rest_reads_on(r1, r2, j + 1, a);
        match spec_set_input(a, arg) {
            Ok(b) => lemma_reads_on(r1, r2, j + 1, b),
            Err(_) => {},
        }
    }
}

/// The option names, told apart.
proof fn lemma_option_names()
    ensures
        "-h"@ != "-o"@ && "-h"@ != "-t"@ && "-o"@ != "-t"@,
        "-h"@.len() == 2 && "-o"@.len() == 2 && "-t"@.len() == 2 && "--help"@.len() == 6 && "--output"@.len()
            == 8 && "--title"@.len() == 7 && "--fragment"@.len() == 10 && "--"@.len() == 2,
        "-h"@[0] == '-' && "-o"@[0] == '-' && "-t"@[0] == '-' && "--help"@[0] == '-' && "--output"@[0]
            == '-' && "--title"@[0] == '-' && "--fragment"@[0] == '-' && "--"@[0] == '-',
        "--"@ != "-h"@ && "--"@ != "-o"@ && "--"@ != "-t"@,
{
    reveal_strlit("-h");
    reveal_strlit("--help");
    reveal_strlit("-o");
    reveal_strlit("--output");
    reveal_strlit("-t");
    reveal_strlit("--title");
    reveal_strlit("--fragment");
    reveal_strlit("--");
    assert("-h"@[1] != "-o"@[1]);
    assert("-h"@[1] != "-t"@[1]);
    assert("-o"@[1] != "-t"@[1]);
    assert("--"@[1] != "-h"@[1]);
    assert("--"@[1] != "-o"@[1]);
    assert("--"@[1] != "-t"@[1]);
}

/// Reading `-t` or `--title` at `i`.
proof fn lemma_title_at(raw: Seq<Seq<char>>, i: int, a: ArgsV, x: Seq<char>)
    requires
        0 <= i < raw.len(),
        x == "-t"@ || x == "--title"@,
    ensures
        spec_parse_from(raw.update(i, x), i, a) == (if i + 1 < raw.len() {
            spec_parse_from(raw, i + 2, ArgsV { title: Some(raw[i + 1]), ..a })
        } else {
            Err("--title 需要一个参数"@)
        }),
{
    lemma_option_names();
    let r = raw.update(i, x);
    assert(r[i] == x);
    if i + 1 < raw.len() {
        assert(r[i + 1] == raw[i + 1]);
        lemma_reads_on(r, raw, i + 2, ArgsV { title: Some(raw[i + 1]), ..a });
    }
}

/// Reading `-o` or `--output` at `i`.
proof fn lemma_output_at(raw: Seq<Seq<char>>, i: int, a: ArgsV, x: Seq<char>)
    requires
        0 <= i < raw.len(),
        x == "-o"@ || x == "--output"@,
    ensures
        spec_parse_from(raw.update(i, x), i, a) == (if i + 1 < raw.len() {
            spec_parse_from(raw, i + 2, ArgsV { output: Some(raw[i + 1]), ..a })
        } else {
            Err("--output 需要一个参数"@)
        }),
{
    lemma_option_names();
    let r = raw.update(i, x);
    assert(r[i] == x);
    if i + 1 < raw.len() {
        assert(r[i + 1] == raw[i + 1]);
        lemma_reads_on(r, raw, i + 2, ArgsV { output: Some(raw[i + 1]), ..a });
    }
}

/// The short and the long form of an option are the same option: wherever an
/// option is read, `-t` and `--title`, `-o` and `--output`, `-h` and `--help` give
/// the same result.
pub proof fn short_and_long_options_agree(raw: Seq<Seq<char>>, i: int, a: ArgsV)
    requires
        0 <= i < raw.len(),
    ensures
        spec_parse_from(raw.update(i, "-t"@), i, a) == spec_parse_from(raw.update(i, "--title"@), i, a),
        spec_parse_from(raw.update(i, "-o"@), i, a) == spec_parse_from(raw.update(i, "--output"@), i, a),
        spec_parse_from(raw.update(i, "-h"@), i, a) == spec_parse_from(raw.update(i, "--help"@), i, a),
{
    lemma_title_at(raw, i, a, "-t"@);
    lemma_title_at(raw, i, a, "--title"@);
    lemma_output_at(raw, i, a, "-o"@);
    lemma_output_at(raw, i, a, "--output"@);
    assert(raw.update(i, "-h"@)[i] == "-h"@);
    assert(raw.update(i, "--help"@)[i] == "--help"@);
}

/// `--title` takes the next argument as the title, and `--output` as the output
/// path, whatever it is; an argument that does not start with `-` is the input.
pub proof fn title_and_output_take_their_values(v: Seq<char>, f: Seq<char>)
    requires
        f.len() > 0,
        f[0] != '-',
    ensures
        spec_parse_args(seq!["--title"@, v, f]) == Ok::<Option<ArgsV>, Seq<char>>(
            Some(ArgsV { input: Some(f), output: None, title: Some(v), fragment: false }),
        ),
        spec_parse_args(seq!["-t"@, v, f]) == Ok::<Option<ArgsV>, Seq<char>>(
            Some(ArgsV { input: Some(f), output: None, title: Some(v), fragment: false }),
        ),
        spec_parse_args(seq!["--output"@, v, f]) == Ok::<Option<ArgsV>, Seq<char>>(
            Some(ArgsV { input: Some(f), output: Some(v), title: None, fragment: false }),
        ),
        spec_parse_args(seq!["-o"@, v, f]) == Ok::<Option<ArgsV>, Seq<char>>(
            Some(ArgsV { input: Some(f), output: Some(v), title: None, fragment: false }),
        ),
{
    lemma_option_names();
    let raw = seq![Seq::<char>::empty(), v, f];
    assert(f != "-h"@ && f != "--help"@ && f != "-o"@ && f != "--output"@ && f != "-t"@ && f
        != "--title"@ && f != "--fragment"@ && f != "--"@);
    let at = ArgsV { input: None, output: None, title: Some(v), fragment: false };
    let ao = ArgsV { input: None, output: Some(v), title: None, fragment: false };
    assert(raw[2] == f);
    assert(spec_parse_from(raw, 3, ArgsV { input: Some(f), ..at }) == Ok::<Option<ArgsV>, Seq<char>>(
        Some(ArgsV { input: Some(f), ..at }),
    ));
    assert(spec_parse_from(raw, 2, at) == spec_parse_from(raw, 3, ArgsV { input: Some(f), ..at }));
    assert(spec_parse_from(raw, 2, ao) == spec_parse_from(raw, 3, ArgsV { input: Some(f), ..ao }));
    lemma_title_at(raw, 0, args_empty(), "-t"@);
    lemma_title_at(raw, 0, args_empty(), "--title"@);
    lemma_output_at(raw, 0, args_empty(), "-o"@);
    lemma_output_at(raw, 0, args_empty(), "--output"@);
    assert(raw.update(0, "-t"@) =~= seq!["-t"@, v, f]);
    assert(raw.update(0, "--title"@) =~= seq!["--title"@, v, f]);
    assert(raw.update(0, "-o"@) =~= seq!["-o"@, v, f]);
    assert(raw.update(0, "--output"@) =~= seq!["--output"@, v, f]);
}

/// A request for help stops reading: what follows it is not looked at.
pub proof fn help_short_circuits(rest: Seq<Seq<char>>)
    ensures
        spec_parse_args(seq!["-h"@] + rest) == Ok::<Option<ArgsV>, Seq<char>>(None),
        spec_parse_args(seq!["--help"@] + rest) == Ok::<Option<ArgsV>, Seq<char>>(None),
{
    assert((seq!["-h"@] + rest)[0] == "-h"@);
    assert((seq!["--help"@] + rest)[0] == "--help"@);
}

/// Only one input file is taken: a second one is refused, whatever came before.
pub proof fn a_second_input_is_refused(a: ArgsV, value: Seq<char>)
    requires
        a.input is Some,
    ensures
        spec_set_input(a, value) is Err,
{
}

/// The values of some arguments.
pub open spec fn strings_view(raw: Seq<String>) -> Seq<Seq<char>> {
    raw.map_values(|s: String| s@)
}

/// The result of reading a command line, as a value.
pub open spec fn parsed_view(r: Result<Option<Args>, String>) -> Result<Option<ArgsV>, Seq<char>> {
    match r {
        Ok(Some(a)) => Ok(Some(args_view(a))),
        Ok(None) => Ok(None),
        Err(e) => Err(e@),
    }
}

/// Takes an input file; only one may be given.
pub fn set_input(args: &mut Args, value: &str) -> (r: Result<(), String>)
    ensures
        match spec_set_input(args_view(*old(args)), value@) {
            Ok(b) => r is Ok && args_view(*final(args)) == b,
            Err(e) => r matches Err(m) && m@ == e && *final(args) == *old(args),
        },
{
    if args.input.is_some() {
        return Err("只能指定一个输入文件".to_owned());
    }
    args.input = Some(value.to_owned());
    Ok(())
}

/// Reads a command line (the program name left out): `Ok(None)` when help is asked
/// for, the options otherwise, or what is wrong with the command line.
pub fn parse_args(raw: &[String]) -> (r: Result<Option<Args>, String>)
    ensures
        parsed_view(r) == spec_parse_args(strings_view(raw@)),
{
    let ghost rv = strings_view(raw@);
    let mut args = Args { input: None, output: None, title: None, fragment: false };
    let mut i: usize = 0;
    while i < raw.len()
        invariant
            rv == strings_view(raw@),
            rv.len() == raw@.len(),
            i <= raw.len(),
            spec_parse_from(rv, i as int, args_view(args)) == spec_parse_args(rv),
        decreases raw.len() - i,
    {
        let arg = raw[i].as_str();
        assert(rv[i as int] == arg@);
        if str_eq(arg, "-h") || str_eq(arg, "--help") {
            return Ok(None);
        } else if str_eq(arg, "-o") || str_eq(arg, "--output") {
            if i + 1 < raw.len() {
                assert(rv[i + 1] == raw@[i + 1]@);
                args.output = Some(raw[i + 1].clone());
                i += 2;
            } else {
                return Err("--output 需要一个参数".to_owned());
            }
        } else if str_eq(arg, "-t") || str_eq(arg, "--title") {
            if i + 1 < raw.len() {
                assert(rv[i + 1] == raw@[i + 1]@);
                args.title = Some(raw[i + 1].clone());
                i += 2;
            } else {
                return Err("--title 需要一个参数".to_owned());
            }
        } else if str_eq(arg, "--fragment") {
            args.fragment = true;
            i += 1;
        } else if str_eq(arg, "--") {
            let mut j: usize = i + 1;
            while j < raw.len()
                invariant
                    rv == strings_view(raw@),
                    rv.len() == raw@.len(),
                    i < j <= raw.len(),
                    spec_rest(rv, j as int, args_view(args)) == spec_parse_args(rv),
                decreases raw.len() - j,
            {
                assert(rv[j as int] == raw@[j as int]@);
                match set_input(&mut args, raw[j].as_str()) {
                    Ok(()) => {},
                    Err(e) => {
                        return Err(e);
                    },
                }
                j += 1;
            }
            return Ok(Some(args));
        } else if starts_with_dash(arg) && !str_eq(arg, "-") {
            let mut message = str_chars("未知选项：");
            let chars = str_chars(arg);
            extend_chars(&mut message, &chars);
            return Err(chars_to_string(&message));
        } else {
            match set_input(&mut args, arg) {
                Ok(()) => {},
                Err(e) => {
                    return Err(e);
                },
            }
            i += 1;
        }
    }
    Ok(Some(args))
}

/// Whether a string starts with `-`.
fn starts_with_dash(s: &str) -> (r: bool)
    ensures
        r == (s@.len() > 0 && s@[0] == '-'),
{
    let chars = str_chars(s);
    chars.len() > 0 && chars[0] == '-'
}

} // verus!
