//! The command-line grammar.
//!
//! Arguments are scanned left to right.  `--do-it` switches from preview to
//! apply mode, `-v`/`--verbose` prints mappings even when applying,
//! `-s`/`--start` takes the next argument as the first index, and
//! `-H`/`--help` asks for usage.  Every other argument starting with `-`
//! (other than a bare `-`) is a usage error, everything else is an input
//! file; at least one file is required.

use crate::order::views_of;
use vstd::prelude::*;

verus! {

/// `--do-it`.
pub open spec fn is_do_it_flag(a: Seq<u8>) -> bool {
    a == seq![45u8, 45u8, 100u8, 111u8, 45u8, 105u8, 116u8]
}

/// `-v` or `--verbose`.
pub open spec fn is_verbose_flag(a: Seq<u8>) -> bool {
    a == seq![45u8, 118u8] || a == seq![
        45u8,
        45u8,
        118u8,
        101u8,
        114u8,
        98u8,
        111u8,
        115u8,
        101u8,
    ]
}

/// `-s` or `--start`.
pub open spec fn is_start_flag(a: Seq<u8>) -> bool {
    a == seq![45u8, 115u8] || a == seq![45u8, 45u8, 115u8, 116u8, 97u8, 114u8, 116u8]
}

/// `-H` or `--help`.
pub open spec fn is_help_flag(a: Seq<u8>) -> bool {
    a == seq![45u8, 72u8] || a == seq![45u8, 45u8, 104u8, 101u8, 108u8, 112u8]
}

/// The result of parsing an argument list, in specification form.
pub enum SpecOutcome {
    Run { do_it: bool, verbose: bool, start: Option<Seq<u8>>, files: Seq<Seq<u8>> },
    Help,
    Usage,
}

/// Left-to-right parse of the remaining arguments, with what the already
/// consumed ones decided.
pub open spec fn parse_rest(
    args: Seq<Seq<u8>>,
    do_it: bool,
    verbose: bool,
    start: Option<Seq<u8>>,
    files: Seq<Seq<u8>>,
) -> SpecOutcome
    decreases args.len(),
{
    if args.len() == 0 {
        if files.len() == 0 {
            SpecOutcome::Usage
        } else {
            SpecOutcome::Run { do_it, verbose, start, files }
        }
    } else {
        let a = args.first();
        if is_help_flag(a) {
            SpecOutcome::Help
        } else if is_do_it_flag(a) {
            parse_rest(args.drop_first(), true, verbose, start, files)
        } else if is_verbose_flag(a) {
            parse_rest(args.drop_first(), do_it, true, start, files)
        } else if is_start_flag(a) {
            if args.len() >= 2 {
                parse_rest(args.skip(2), do_it, verbose, Some(args[1]), files)
            } else {
                SpecOutcome::Usage
            }
        } else if a.len() >= 2 && a[0] == 45 {
            SpecOutcome::Usage
        } else {
            parse_rest(args.drop_first(), do_it, verbose, start, files.push(a))
        }
    }
}

/// What an argument list parses to.
pub open spec fn spec_parse_args(args: Seq<Seq<u8>>) -> SpecOutcome {
    parse_rest(args, false, false, None, Seq::empty())
}

/// The options a run was invoked with: mode switches, the raw starting
/// index (still unparsed, as the command line gave it), and the input
/// files.
pub struct Config {
    pub do_it: bool,
    pub verbose: bool,
    pub start_arg: Option<Vec<u8>>,
    pub files: Vec<Vec<u8>>,
}

/// The result of parsing an argument list: a runnable configuration, a
/// request for usage text, or a usage error.
pub enum Parsed {
    Run(Config),
    Help,
    Usage,
}

/// The byte string of an optional byte vector.
pub open spec fn start_view(o: Option<Vec<u8>>) -> Option<Seq<u8>> {
    match o {
        Some(v) => Some(v@),
        None => None,
    }
}

/// The specification form of a parse result.
pub open spec fn outcome_of(r: Parsed) -> SpecOutcome {
    match r {
        Parsed::Run(c) => SpecOutcome::Run {
            do_it: c.do_it,
            verbose: c.verbose,
            start: start_view(c.start_arg),
            files: views_of(c.files@),
        },
        Parsed::Help => SpecOutcome::Help,
        Parsed::Usage => SpecOutcome::Usage,
    }
}

fn is_do_it_arg(a: &Vec<u8>) -> (r: bool)
    ensures
        r == is_do_it_flag(a@),
{
    let r = a.len() == 7 && a[0] == 45 && a[1] == 45 && a[2] == 100 && a[3] == 111 && a[4] == 45
        && a[5] == 105 && a[6] == 116;
    proof {
        if r {
            assert(a@ =~= seq![45u8, 45u8, 100u8, 111u8, 45u8, 105u8, 116u8]);
        }
    }
    r
}

fn is_verbose_arg(a: &Vec<u8>) -> (r: bool)
    ensures
        r == is_verbose_flag(a@),
{
    let short = a.len() == 2 && a[0] == 45 && a[1] == 118;
    let long = a.len() == 9 && a[0] == 45 && a[1] == 45 && a[2] == 118 && a[3] == 101 && a[4]
        == 114 && a[5] == 98 && a[6] == 111 && a[7] == 115 && a[8] == 101;
    proof {
        if short {
            assert(a@ =~= seq![45u8, 118u8]);
        }
        if long {
            assert(a@ =~= seq![45u8, 45u8, 118u8, 101u8, 114u8, 98u8, 111u8, 115u8, 101u8]);
        }
    }
    short || long
}

fn is_start_arg(a: &Vec<u8>) -> (r: bool)
    ensures
        r == is_start_flag(a@),
{
    let short = a.len() == 2 && a[0] == 45 && a[1] == 115;
    let long = a.len() == 7 && a[0] == 45 && a[1] == 45 && a[2] == 115 && a[3] == 116 && a[4]
        == 97 && a[5] == 114 && a[6] == 116;
    proof {
        if short {
            assert(a@ =~= seq![45u8, 115u8]);
        }
        if long {
            assert(a@ =~= seq![45u8, 45u8, 115u8, 116u8, 97u8, 114u8, 116u8]);
        }
    }
    short || long
}

fn is_help_arg(a: &Vec<u8>) -> (r: bool)
    ensures
        r == is_help_flag(a@),
{
    let short = a.len() == 2 && a[0] == 45 && a[1] == 72;
    let long = a.len() == 6 && a[0] == 45 && a[1] == 45 && a[2] == 104 && a[3] == 101 && a[4]
        == 108 && a[5] == 112;
    proof {
        if short {
            assert(a@ =~= seq![45u8, 72u8]);
        }
        if long {
            assert(a@ =~= seq![45u8, 45u8, 104u8, 101u8, 108u8, 112u8]);
        }
    }
    short || long
}

/// An owned copy of a byte vector.
fn copy_bytes(a: &Vec<u8>) -> (r: Vec<u8>)
    ensures
        r@ == a@,
{
    let mut out: Vec<u8> = Vec::new();
    let mut i: usize = 0;
    while i < a.len()
        invariant
            i <= a@.len(),
            out@ =~= a@.subrange(0, i as int),
        decreases a@.len() - i,
    {
        out.push(a[i]);
        i = i + 1;
    }
    proof {
        assert(out@ =~= a@);
    }
    out
}

/// Parse an argument list (the arguments after the program name, as byte
/// strings).  The result is exactly what the grammar in `spec_parse_args`
/// assigns to the list.
pub fn clap(args: &Vec<Vec<u8>>) -> (r: Parsed)
    ensures
        outcome_of(r) == spec_parse_args(views_of(args@)),
{
    let ghost all = views_of(args@);
    let mut do_it = false;
    let mut verbose = false;
    let mut start_arg: Option<Vec<u8>> = None;
    let mut files: Vec<Vec<u8>> = Vec::new();
    let mut i: usize = 0;
    proof {
        assert(all.skip(0) =~= all);
        assert(views_of(files@) =~= Seq::<Seq<u8>>::empty());
    }
    while i < args.len()
        invariant
            i <= args@.len(),
            all == views_of(args@),
            parse_rest(all.skip(i as int), do_it, verbose, start_view(start_arg), views_of(files@))
                == spec_parse_args(all),
        decreases args@.len() - i,
    {
        proof {
            assert(all.skip(i as int).first() == args@[i as int]@);
            assert(all.skip(i as int).drop_first() =~= all.skip(i + 1));
        }
        let a = &args[i];
        if is_help_arg(a) {
            return Parsed::Help;
        } else if is_do_it_arg(a) {
            do_it = true;
        } else if is_verbose_arg(a) {
            verbose = true;
        } else if is_start_arg(a) {
            if i + 1 < args.len() {
                proof {
                    assert(all.skip(i as int)[1] == args@[i + 1]@);
                    assert(all.skip(i as int).skip(2) =~= all.skip(i + 2));
                }
                start_arg = Some(copy_bytes(&args[i + 1]));
                i = i + 1;
            } else {
                return Parsed::Usage;
            }
        } else if a.len() >= 2 && a[0] == 45 {
            return Parsed::Usage;
        } else {
            let ghost old_files = files@;
            files.push(copy_bytes(a));
            proof {
                assert(views_of(files@) =~= views_of(old_files).push(args@[i as int]@));
            }
        }
        i = i + 1;
    }
    proof {
        assert(all.skip(i as int) =~= Seq::<Seq<u8>>::empty());
    }
    if files.len() == 0 {
        Parsed::Usage
    } else {
        Parsed::Run(Config { do_it, verbose, start_arg, files })
    }
}

/// The starting index of a run: an absent `-s`/`--start` means `0`; a
/// present one must parse as a decimal `usize`, and a value that does not
/// is reported as `None` (a fatal input error for the caller).
pub fn resolve_start(start_arg: &Option<Vec<u8>>) -> (r: Option<usize>)
    ensures
        match start_arg {
            None => r == Some(0usize),
            Some(s) => match r {
                Some(v) => crate::digits::spec_parse(s@) == Some(v as int),
                None => !(crate::digits::spec_parse(s@) matches Some(x) && x <= usize::MAX),
            },
        },
{
    match start_arg {
        None => Some(0),
        Some(s) => crate::digits::parse_usize(s),
    }
}

} // verus!
