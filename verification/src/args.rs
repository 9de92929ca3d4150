//! Classification of the command line that starts a scan.
//!
//! The caller reads the process arguments and, since only it can resolve
//! text into a network address, reports as two booleans whether the
//! candidate positions parse as one. Everything else — which form the
//! command line takes, which diagnostic it earns, which worker count
//! applies — is decided and proved here.

use crate::text::contains_seq;
use crate::text::contains_substr;
use crate::text::parse_u16;
use crate::text::parse_u16_spec;
use vstd::prelude::*;

verus! {

/// The worker count used when the target address stands alone.
pub const DEFAULT_THREADS: u16 = 4;

/// What the collector needs from the command line: the flag that was given
/// (empty when the target address stood alone), the target address text,
/// and the worker count.
#[derive(Debug)]
pub struct Arguments {
    pub flag: String,
    pub ipaddr: String,
    pub threads: u16,
}

/// Why a command line was rejected. A help request is not a fault, but it
/// also yields no `Arguments`: the caller prints the usage text and stops.
#[derive(Clone, Copy, Debug, PartialEq, Eq, Structural)]
pub enum ArgsError {
    NotEnoughArguments,
    TooManyArguments,
    HelpRequested,
    InvalidAddress,
    InvalidThreadCount,
    InvalidSyntax,
}

/// The argument asks for help: it holds `-h` (and thereby any spelling of
/// `-help`) anywhere in its text. The match is deliberately loose, by
/// substring, so `-help` and longer spellings all count.
pub open spec fn is_help_flag(s: Seq<char>) -> bool {
    contains_seq(s, "-h"@) || contains_seq(s, "-help"@)
}

/// The argument selects a worker count: it holds `-j` anywhere in its text.
pub open spec fn is_thread_flag(s: Seq<char>) -> bool {
    contains_seq(s, "-j"@)
}

/// Decides what a command line asks for.
///
/// `args` are the process arguments, the program name first. The caller
/// alone can tell whether a piece of text names a network address, so it
/// passes that verdict in: `first_is_address` says whether `args[1]` parses
/// as one, and `target_is_address` whether `args[3]` does (it is ignored
/// unless a four-argument `-j` form is being decided).
///
/// The forms, tried in this order:
/// - fewer than two or more than four arguments: rejected outright;
/// - `args[1]` is an address: scan it with the default worker count;
/// - `args[1]` asks for help: a lone help flag is a help request, a help
///   flag with anything after it is too many arguments;
/// - `args[1]` selects a worker count: `args[2]` must be the count and
///   `args[3]` the address, and both must parse;
/// - anything else is invalid syntax.
pub fn parse_arguments(args: &Vec<String>, first_is_address: bool, target_is_address: bool) -> (r:
    Result<Arguments, ArgsError>)
    ensures
        args@.len() < 2 ==> r == Err::<Arguments, ArgsError>(ArgsError::NotEnoughArguments),
        args@.len() > 4 ==> r == Err::<Arguments, ArgsError>(ArgsError::TooManyArguments),
        2 <= args@.len() <= 4 && first_is_address ==> (r matches Ok(a) && a.flag@
            == Seq::<char>::empty() && a.ipaddr@ == args@[1]@ && a.threads == DEFAULT_THREADS),
        2 <= args@.len() <= 4 && !first_is_address && is_help_flag(args@[1]@) && args@.len() == 2
            ==> r == Err::<Arguments, ArgsError>(ArgsError::HelpRequested),
        2 <= args@.len() <= 4 && !first_is_address && is_help_flag(args@[1]@) && args@.len() != 2
            ==> r == Err::<Arguments, ArgsError>(ArgsError::TooManyArguments),
        2 <= args@.len() < 4 && !first_is_address && !is_help_flag(args@[1]@) && is_thread_flag(
            args@[1]@,
        ) ==> r == Err::<Arguments, ArgsError>(ArgsError::NotEnoughArguments),
        args@.len() == 4 && !first_is_address && !is_help_flag(args@[1]@) && is_thread_flag(
            args@[1]@,
        ) && !target_is_address ==> r == Err::<Arguments, ArgsError>(ArgsError::InvalidAddress),
        args@.len() == 4 && !first_is_address && !is_help_flag(args@[1]@) && is_thread_flag(
            args@[1]@,
        ) && target_is_address && parse_u16_spec(args@[2]@) is None ==> r == Err::<
            Arguments,
            ArgsError,
        >(ArgsError::InvalidThreadCount),
        args@.len() == 4 && !first_is_address && !is_help_flag(args@[1]@) && is_thread_flag(
            args@[1]@,
        ) && target_is_address ==> (parse_u16_spec(args@[2]@) matches Some(t) ==> (r matches Ok(a)
            && a.flag@ == args@[1]@ && a.ipaddr@ == args@[3]@ && a.threads == t)),
        2 <= args@.len() <= 4 && !first_is_address && !is_help_flag(args@[1]@) && !is_thread_flag(
            args@[1]@,
        ) ==> r == Err::<Arguments, ArgsError>(ArgsError::InvalidSyntax),
{
    if args.len() < 2 {
        return Err(ArgsError::NotEnoughArguments);
    }
    if args.len() > 4 {
        return Err(ArgsError::TooManyArguments);
    }
    let f = args[1].clone();
    if first_is_address {
        return Ok(Arguments { flag: String::new(), ipaddr: f, threads: DEFAULT_THREADS });
    }
    if contains_substr(f.as_str(), "-h") || contains_substr(f.as_str(), "-help") {
        if args.len() == 2 {
            return Err(ArgsError::HelpRequested);
        }
        return Err(ArgsError::TooManyArguments);
    }
    if contains_substr(f.as_str(), "-j") {
        if args.len() < 4 {
            return Err(ArgsError::NotEnoughArguments);
        }
        if !target_is_address {
            return Err(ArgsError::InvalidAddress);
        }
        match parse_u16(args[2].as_str()) {
            Some(threads) => Ok(Arguments { flag: f, ipaddr: args[3].clone(), threads }),
            None => Err(ArgsError::InvalidThreadCount),
        }
    } else {
        Err(ArgsError::InvalidSyntax)
    }
}

impl ArgsError {
    /// The diagnostic the scanner reports for this rejection.
    pub fn message(&self) -> (r: &'static str)
        ensures
            *self == ArgsError::NotEnoughArguments ==> r@ == "not enough arguments"@,
            *self == ArgsError::TooManyArguments ==> r@ == "too many arguments"@,
            *self == ArgsError::HelpRequested ==> r@ == "help"@,
            *self == ArgsError::InvalidAddress ==> r@ == "not a valid IPADDR; must be IPv4 or IPv6"@,
            *self == ArgsError::InvalidThreadCount ==> r@ == "failed to parse thread number"@,
            *self == ArgsError::InvalidSyntax ==> r@ == "invalid syntax"@,
    {
        match self {
            ArgsError::NotEnoughArguments => "not enough arguments",
            ArgsError::TooManyArguments => "too many arguments",
            ArgsError::HelpRequested => "help",
            ArgsError::InvalidAddress => "not a valid IPADDR; must be IPv4 or IPv6",
            ArgsError::InvalidThreadCount => "failed to parse thread number",
            ArgsError::InvalidSyntax => "invalid syntax",
        }
    }
}

} // verus!
