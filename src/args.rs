//! Finding parameters and their values on a command line, and reading a
//! command line as the options of a request.

use vstd::prelude::*;

use crate::number::{parse_i32, parse_i32_spec, IntErrorKind};

verus! {

/// `i` is the first position of `args` that holds `param`.
pub open spec fn is_first_position(args: Seq<String>, param: Seq<char>, i: int) -> bool {
    &&& 0 <= i < args.len()
    &&& args[i]@ == param
    &&& forall|j: int| 0 <= j < i ==> args[j]@ != param
}

/// Some argument equals `param`.
pub open spec fn is_present(args: Seq<String>, param: Seq<char>) -> bool {
    exists|i: int| 0 <= i < args.len() && args[i]@ == param
}

/// `param` occurs, and its first occurrence is the last argument, so the value
/// it expects is missing.
pub open spec fn lacks_value(args: Seq<String>, param: Seq<char>) -> bool {
    exists|i: int| is_first_position(args, param, i) && i + 1 == args.len()
}

/// The text given to `param`: the argument after its first occurrence, or
/// the empty text when it does not occur or occurs last.
pub open spec fn arg_text(args: Seq<String>, param: Seq<char>) -> Seq<char> {
    if is_present(args, param) {
        let i = choose|i: int| is_first_position(args, param, i);
        if i + 1 < args.len() {
            args[i + 1]@
        } else {
            Seq::empty()
        }
    } else {
        Seq::empty()
    }
}

/// A parameter has at most one first position, and it has one when it occurs.
pub proof fn lemma_first_position_unique(args: Seq<String>, param: Seq<char>)
    ensures
        forall|i: int, k: int|
            is_first_position(args, param, i) && is_first_position(args, param, k) ==> i == k,
        is_present(args, param) ==> exists|i: int| is_first_position(args, param, i),
{
    assert forall|i: int, k: int|
        is_first_position(args, param, i) && is_first_position(args, param, k) implies i == k by {
        if k < i {
            assert(args[k]@ != param);
        } else if i < k {
            assert(args[i]@ != param);
        }
    }
    if is_present(args, param) {
        let j = choose|j: int| 0 <= j < args.len() && args[j]@ == param;
        lemma_earliest_occurrence(args, param, j);
    }
}

/// Below an occurrence at `j` lies a first position.
proof fn lemma_earliest_occurrence(args: Seq<String>, param: Seq<char>, j: int)
    requires
        0 <= j < args.len(),
        args[j]@ == param,
    ensures
        exists|i: int| is_first_position(args, param, i),
    decreases j,
{
    if forall|k: int| 0 <= k < j ==> args[k]@ != param {
        assert(is_first_position(args, param, j));
    } else {
        let k = choose|k: int| 0 <= k < j && args[k]@ == param;
        lemma_earliest_occurrence(args, param, k);
    }
}

/// What the command line holds for a parameter that expects a value.
#[derive(Debug, PartialEq, Eq)]
pub enum ArgValue {
    /// The parameter does not occur.
    Absent,
    /// The parameter occurs as the last argument, with nothing after it.
    MissingValue,
    /// The argument that follows the parameter's first occurrence.
    Value(String),
}

/// The first position of `args` that holds `param`, if any.
pub fn position_of(param: &str, args: &Vec<String>) -> (r: Option<usize>)
    ensures
        match r {
            Some(i) => is_first_position(args@, param@, i as int),
            None => !is_present(args@, param@),
        },
{
    let wanted = String::from_str(param);
    let mut i: usize = 0;
    while i < args.len()
        invariant
            i <= args@.len(),
            wanted@ == param@,
            forall|j: int| 0 <= j < i ==> args@[j]@ != param@,
        decreases args.len() - i,
    {
        if args[i].eq(&wanted) {
            return Some(i);
        }
        i = i + 1;
    }
    None
}

/// Whether `param` occurs among `args`.
pub fn extract_arg_present(param: &str, args: &Vec<String>) -> (r: bool)
    ensures
        r == is_present(args@, param@),
{
    position_of(param, args).is_some()
}

/// Looks up the value given to `param`: the argument that follows its first
/// occurrence.
pub fn find_arg(param: &str, args: &Vec<String>) -> (r: ArgValue)
    ensures
        !is_present(args@, param@) <==> r == ArgValue::Absent,
        lacks_value(args@, param@) <==> r == ArgValue::MissingValue,
        forall|i: int|
            is_first_position(args@, param@, i) && i + 1 < args@.len() ==> r == ArgValue::Value(
                args@[i + 1],
            ),
{
    match position_of(param, args) {
        None => ArgValue::Absent,
        Some(i) => {
            proof {
                assert forall|k: int| is_first_position(args@, param@, k) implies k == i by {
                    if k < i {
                        assert(args@[k]@ != param@);
                    } else if k > i {
                        assert(args@[i as int]@ != param@);
                    }
                }
            }
            if i == args.len() - 1 {
                ArgValue::MissingValue
            } else {
                ArgValue::Value(args[i + 1].clone())
            }
        },
    }
}

/// The value given to `param`, or the empty string when `param` does not
/// occur. A parameter that occurs last, without its value, is left to
/// `find_arg`.
pub fn extract_arg(param: &str, args: &Vec<String>) -> (r: String)
    requires
        !lacks_value(args@, param@),
    ensures
        !is_present(args@, param@) ==> r@ == Seq::<char>::empty(),
        forall|i: int| is_first_position(args@, param@, i) ==> r@ == args@[i + 1]@,
{
    match find_arg(param, args) {
        ArgValue::Value(v) => v,
        _ => String::new(),
    }
}

/// What a command line asks for.
#[derive(Debug, PartialEq, Eq)]
pub struct Options {
    /// Characters per password (`-l`).
    pub length: i32,
    /// Passwords to print (`-n`); 1 where none that reads as a number is given.
    pub count: i32,
    /// The alphabet given with `-chars`; empty for the default one.
    pub custom_set: String,
    /// Whether `-s` asks for symbols in the default alphabet.
    pub with_special_chars: bool,
}

/// Why a command line asks for no passwords.
#[derive(Debug, PartialEq, Eq)]
pub enum CliError {
    /// Nothing follows the program's name.
    NoArguments,
    /// The named parameter is the last argument, without the value it expects.
    MissingValue(String),
    /// The text given to `-l` is no `i32`.
    InvalidLength(IntErrorKind),
}

/// How many passwords a `-n` text asks for: the number it spells, or 1.
pub open spec fn count_of(text: Seq<char>) -> i32 {
    match parse_i32_spec(text) {
        Ok(n) => n,
        Err(_) => 1,
    }
}

/// Reads a command line (program name first) as the options it gives. The
/// checks come in this order: no arguments; `-l` without value; `-l` not an
/// integer; `-n` without value; `-chars` without value.
pub fn parse_options(args: &Vec<String>) -> (r: Result<Options, CliError>)
    ensures
        args@.len() == 1 <==> r == Err::<Options, CliError>(CliError::NoArguments),
        args@.len() != 1 ==> {
            if lacks_value(args@, "-l"@) {
                r matches Err(CliError::MissingValue(p)) && p@ == "-l"@
            } else if parse_i32_spec(arg_text(args@, "-l"@)) is Err {
                r == Err::<Options, CliError>(
                    CliError::InvalidLength(parse_i32_spec(arg_text(args@, "-l"@))->Err_0),
                )
            } else if lacks_value(args@, "-n"@) {
                r matches Err(CliError::MissingValue(p)) && p@ == "-n"@
            } else if lacks_value(args@, "-chars"@) {
                r matches Err(CliError::MissingValue(p)) && p@ == "-chars"@
            } else {
                r matches Ok(o) && {
                    &&& Ok::<i32, IntErrorKind>(o.length) == parse_i32_spec(arg_text(args@, "-l"@))
                    &&& o.count == count_of(arg_text(args@, "-n"@))
                    &&& o.custom_set@ == arg_text(args@, "-chars"@)
                    &&& o.with_special_chars == is_present(args@, "-s"@)
                }
            }
        },
{
    if args.len() == 1 {
        return Err(CliError::NoArguments);
    }
    let length_text = match read_arg("-l", args) {
        Ok(text) => text,
        Err(e) => return Err(e),
    };
    let length = match parse_i32(length_text.as_str()) {
        Ok(n) => n,
        Err(e) => return Err(CliError::InvalidLength(e)),
    };
    let count_text = match read_arg("-n", args) {
        Ok(text) => text,
        Err(e) => return Err(e),
    };
    let count = match parse_i32(count_text.as_str()) {
        Ok(n) => n,
        Err(_) => 1,
    };
    let custom_set = match read_arg("-chars", args) {
        Ok(text) => text,
        Err(e) => return Err(e),
    };
    let with_special_chars = extract_arg_present("-s", args);
    Ok(Options { length, count, custom_set, with_special_chars })
}

/// The text given to `param`, or `MissingValue` when it occurs last.
fn read_arg(param: &str, args: &Vec<String>) -> (r: Result<String, CliError>)
    ensures
        lacks_value(args@, param@) ==> (r matches Err(CliError::MissingValue(p)) && p@ == param@),
        !lacks_value(args@, param@) ==> (r matches Ok(t) && t@ == arg_text(args@, param@)),
{
    proof {
        lemma_first_position_unique(args@, param@);
    }
    match find_arg(param, args) {
        ArgValue::Absent => Ok(String::new()),
        ArgValue::MissingValue => Err(CliError::MissingValue(String::from_str(param))),
        ArgValue::Value(v) => Ok(v),
    }
}

} // verus!
