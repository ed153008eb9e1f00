//! The run of an external formatter, as far as it is decided and not done: the
//! arguments the command gets, and what is made of what it gave back.
use crate::config::FormatterSpec;
use crate::strings::{from_chars, to_chars};
use vstd::prelude::*;
use vstd::string::StringExecFns;

verus! {

/// The decimal digits of `n`, the highest first.
pub open spec fn decimal_of(n: nat) -> Seq<char>
    decreases n,
{
    if n < 10 {
        seq![digit_of(n)]
    } else {
        decimal_of(n / 10).push(digit_of(n % 10))
    }
}

/// The character of the digit `d`.
pub open spec fn digit_of(d: nat) -> char {
    if d == 0 {
        '0'
    } else if d == 1 {
        '1'
    } else if d == 2 {
        '2'
    } else if d == 3 {
        '3'
    } else if d == 4 {
        '4'
    } else if d == 5 {
        '5'
    } else if d == 6 {
        '6'
    } else if d == 7 {
        '7'
    } else if d == 8 {
        '8'
    } else {
        '9'
    }
}

/// The character of a digit.
fn digit(d: u32) -> (c: char)
    requires
        d < 10,
    ensures
        c == digit_of(d as nat),
{
    if d == 0 {
        '0'
    } else if d == 1 {
        '1'
    } else if d == 2 {
        '2'
    } else if d == 3 {
        '3'
    } else if d == 4 {
        '4'
    } else if d == 5 {
        '5'
    } else if d == 6 {
        '6'
    } else if d == 7 {
        '7'
    } else if d == 8 {
        '8'
    } else {
        '9'
    }
}

/// Writes `n` in decimal digits.
pub fn decimal(n: u32) -> (text: String)
    ensures
        text@ == decimal_of(n as nat),
{
    let mut low: Vec<char> = Vec::new();
    let mut rest = n;
    while rest >= 10
        invariant
            rest <= n,
            decimal_of(n as nat) == decimal_of(rest as nat) + low@.reverse(),
        decreases rest,
    {
        let ghost before = low@;
        low.push(digit(rest % 10));
        proof {
            let d = digit_of((rest % 10) as nat);
            assert(low@.reverse() =~= seq![d] + before.reverse());
            assert(decimal_of(rest as nat) == decimal_of((rest / 10) as nat).push(d));
            assert(decimal_of((rest / 10) as nat).push(d) + before.reverse() =~= decimal_of(
                (rest / 10) as nat,
            ) + (seq![d] + before.reverse()));
        }
        rest = rest / 10;
    }
    let mut out: Vec<char> = Vec::new();
    out.push(digit(rest));
    let mut i = low.len();
    proof {
        assert(low@.reverse().take(0) =~= Seq::<char>::empty());
        assert(out@ =~= decimal_of(rest as nat) + low@.reverse().take(0));
    }
    while i > 0
        invariant
            i <= low.len(),
            out@ == decimal_of(rest as nat) + low@.reverse().take(low.len() - i),
        decreases i,
    {
        i -= 1;
        out.push(low[i]);
        proof {
            let turned = low@.reverse();
            let done = low.len() - i - 1;
            assert(turned[done] == low@[i as int]);
            assert(turned.take(done + 1) =~= turned.take(done).push(turned[done]));
            assert(out@ =~= decimal_of(rest as nat) + turned.take(done + 1));
        }
    }
    proof {
        assert(low@.reverse().take(low.len() as int) =~= low@.reverse());
    }
    from_chars(out.as_slice())
}

/// `text` with every occurrence of `from` replaced by `to`, found from left to right
/// without overlap. `from` is not empty.
pub open spec fn replaced_of(text: Seq<char>, from: Seq<char>, to: Seq<char>) -> Seq<char>
    decreases text.len(),
{
    if text.len() == 0 || from.len() == 0 {
        text
    } else if from.is_prefix_of(text) {
        to + replaced_of(text.skip(from.len() as int), from, to)
    } else {
        seq![text[0]] + replaced_of(text.skip(1), from, to)
    }
}

/// Replaces every occurrence of `from` in `text` by `to`. An empty `from` occurs
/// nowhere.
pub fn replace_all(text: &str, from: &str, to: &str) -> (out: String)
    ensures
        out@ == replaced_of(text@, from@, to@),
{
    let chars = to_chars(text);
    let pattern = to_chars(from);
    let with = to_chars(to);
    if pattern.len() == 0 {
        return text.to_owned();
    }
    let mut out: Vec<char> = Vec::new();
    let mut at: usize = 0;
    proof {
        assert(chars@.skip(0) == chars@);
    }
    while at < chars.len()
        invariant
            at <= chars.len(),
            pattern.len() > 0,
            pattern@ == from@,
            with@ == to@,
            out@ + replaced_of(chars@.skip(at as int), from@, to@) == replaced_of(
                chars@,
                from@,
                to@,
            ),
        decreases chars.len() - at,
    {
        let ghost rest = chars@.skip(at as int);
        let ghost before = out@;
        let mut matched = pattern.len() <= chars.len() - at;
        let mut i: usize = 0;
        while matched && i < pattern.len()
            invariant
                at <= chars.len(),
                i <= pattern.len(),
                matched ==> pattern.len() <= chars.len() - at,
                matched ==> forall|k: int| 0 <= k < i ==> pattern@[k] == chars@[at + k],
                !matched ==> !pattern@.is_prefix_of(chars@.skip(at as int)),
            decreases
                    pattern.len() - i + if matched {
                        1int
                    } else {
                        0int
                    },
        {
            if pattern[i] != chars[at + i] {
                proof {
                    assert(chars@.skip(at as int)[i as int] == chars@[at + i]);
                }
                matched = false;
            } else {
                i += 1;
            }
        }
        if matched {
            proof {
                assert(rest.subrange(0, pattern.len() as int) =~= pattern@);
                assert(rest.skip(pattern.len() as int) == chars@.skip(at + pattern.len()));
                let tail = replaced_of(rest.skip(pattern.len() as int), from@, to@);
                assert((before + with@) + tail == before + (with@ + tail));
            }
            let mut j: usize = 0;
            proof {
                assert(out@ == before + with@.take(0));
            }
            while j < with.len()
                invariant
                    j <= with.len(),
                    out@ == before + with@.take(j as int),
                decreases with.len() - j,
            {
                out.push(with[j]);
                proof {
                    assert(with@.take(j as int + 1) == with@.take(j as int).push(with@[j as int]));
                    assert(out@ == before + with@.take(j as int + 1));
                }
                j += 1;
            }
            proof {
                assert(with@.take(with.len() as int) == with@);
            }
            at += pattern.len();
        } else {
            proof {
                assert(rest[0] == chars@[at as int]);
                assert(rest.skip(1) == chars@.skip(at as int + 1));
                let tail = replaced_of(rest.skip(1), from@, to@);
                assert(before.push(rest[0]) + tail == before + (seq![rest[0]] + tail));
            }
            out.push(chars[at]);
            at += 1;
        }
    }
    proof {
        assert(out@ + Seq::<char>::empty() == out@);
    }
    from_chars(out.as_slice())
}

/// An argument of a formatter with its placeholders filled in: `$textwidth` by the
/// print width, then `$language` by the language, then `$file` by the path of the file
/// that holds the text, which is empty where the formatter reads its input.
pub open spec fn expanded_arg(
    arg: Seq<char>,
    printwidth: u32,
    language: Seq<char>,
    file: Seq<char>,
) -> Seq<char> {
    replaced_of(
        replaced_of(
            replaced_of(arg, "$textwidth"@, decimal_of(printwidth as nat)),
            "$language"@,
            language,
        ),
        "$file"@,
        file,
    )
}

/// The arguments of a formatter with their placeholders filled in.
pub fn expand_args(args: &[String], printwidth: u32, language: &str, file: &str) -> (expanded: Vec<
    String,
>)
    ensures
        expanded.len() == args.len(),
        forall|i: int|
            0 <= i < args.len() ==> (#[trigger] expanded@[i])@ == expanded_arg(
                args@[i]@,
                printwidth,
                language@,
                file@,
            ),
{
    let width = decimal(printwidth);
    let mut expanded: Vec<String> = Vec::new();
    let mut i: usize = 0;
    while i < args.len()
        invariant
            i <= args.len(),
            expanded.len() == i,
            width@ == decimal_of(printwidth as nat),
            forall|k: int|
                0 <= k < i ==> (#[trigger] expanded@[k])@ == expanded_arg(
                    args@[k]@,
                    printwidth,
                    language@,
                    file@,
                ),
        decreases args.len() - i,
    {
        let with_width = replace_all(args[i].as_str(), "$textwidth", width.as_str());
        let with_language = replace_all(with_width.as_str(), "$language", language);
        expanded.push(replace_all(with_language.as_str(), "$file", file));
        i += 1;
    }
    expanded
}

/// Whether the formatter reads the text on its standard input. It does unless its
/// configuration says otherwise.
pub fn uses_stdin(spec: &FormatterSpec) -> (stdin: bool)
    ensures
        stdin == match spec.stdin {
            Some(flag) => flag,
            None => true,
        },
{
    match spec.stdin {
        Some(flag) => flag,
        None => true,
    }
}

/// The words in front of the command of a formatter that failed.
pub open spec fn failure_words() -> Seq<char> {
    "Failed to run formatter "@
}

/// What a run of a formatter comes to. A run that did not end well is a failure, and
/// so is one that wrote to its standard error where the configuration asks for that;
/// the failure names the command and holds what was written to the standard error. Any
/// other run gives its output.
pub open spec fn run_outcome_of(
    spec: FormatterSpec,
    success: bool,
    output: Seq<u8>,
    errors: Seq<char>,
) -> Result<Seq<u8>, Seq<char>> {
    if !success || (spec.fail_on_stderr == Some(true) && errors.len() > 0) {
        Err(failure_words() + spec.cmd@ + ": "@ + errors)
    } else {
        Ok(output)
    }
}

/// Decides what a run of a formatter comes to, from whether it ended well, its output,
/// and what it wrote to its standard error.
pub fn run_outcome(spec: &FormatterSpec, success: bool, output: Vec<u8>, errors: &str) -> (outcome:
    Result<Vec<u8>, String>)
    ensures
        match outcome {
            Ok(bytes) => run_outcome_of(*spec, success, output@, errors@) == Ok::<
                Seq<u8>,
                Seq<char>,
            >(bytes@),
            Err(message) => run_outcome_of(*spec, success, output@, errors@) == Err::<
                Seq<u8>,
                Seq<char>,
            >(message@),
        },
{
    let strict = match spec.fail_on_stderr {
        Some(flag) => flag,
        None => false,
    };
    if !success || (strict && to_chars(errors).len() > 0) {
        let mut message = "Failed to run formatter ".to_owned();
        message.append(spec.cmd.as_str());
        message.append(": ");
        message.append(errors);
        Err(message)
    } else {
        Ok(output)
    }
}

} // verus!
