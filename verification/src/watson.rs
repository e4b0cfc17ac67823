//! The external time-tracking collaborator, as the core sees it: the version
//! banner its command prints, and the query arguments the core builds for it.
//!
//! Running the program and capturing its output is the caller's part; parsing
//! the version banner and assembling command-line arguments are pure and
//! verified here.

use vstd::prelude::*;

use crate::codec::{
    dec_val, digit_run_end, pow10, spec_parse_lit, spec_print_date, value_of_digits,
};
use crate::date::Date;

verus! {

/// How talking to the external time tracker fails.
#[derive(Debug)]
pub enum WatsonError {
    /// The command is not installed or not on the search path.
    CommandNotFound,
    /// The command ran but failed; carries what it printed.
    CommandFailed(String),
    /// The version banner does not have the expected shape.
    VersionParseError(String),
}

/// A semantic version of the external tracker.
#[derive(Clone, Copy, PartialEq, Eq, Structural, Debug)]
pub struct WatsonVersion {
    pub major: u32,
    pub minor: u32,
    pub patch: u32,
}

/// Parse one version component as the standard unsigned parse does: an
/// optional leading plus sign, then one or more digits with any number of
/// leading zeros, accepted exactly when the value fits 32 bits.
pub open spec fn spec_parse_version_part(s: Seq<char>, i: int) -> Option<(u32, int)> {
    let a = if 0 <= i < s.len() && s[i] == '+' {
        i + 1
    } else {
        i
    };
    let e = digit_run_end(s, a);
    if e > a && value_of_digits(s.subrange(a, e)) <= 0xffff_ffff {
        Some((value_of_digits(s.subrange(a, e)) as u32, e))
    } else {
        None
    }
}

/// What parsing a version banner yields: `Watson, version X.Y.Z`, each
/// component a 32-bit unsigned decimal, and nothing after the third
/// component.
pub open spec fn spec_parse_version(s: Seq<char>) -> Option<WatsonVersion> {
    match spec_parse_lit(s, 0, "Watson, version "@) {
        None => None,
        Some(a) => match spec_parse_version_part(s, a) {
            None => None,
            Some((v1, e1)) => if e1 < s.len() && s[e1] == '.' {
                match spec_parse_version_part(s, e1 + 1) {
                    None => None,
                    Some((v2, e2)) => if e2 < s.len() && s[e2] == '.' {
                        match spec_parse_version_part(s, e2 + 1) {
                            None => None,
                            Some((v3, e3)) => if e3 == s.len() {
                                Some(WatsonVersion { major: v1, minor: v2, patch: v3 })
                            } else {
                                None
                            },
                        }
                    } else {
                        None
                    },
                }
            } else {
                None
            },
        },
    }
}

/// Parse one version component.
fn scan_version_part(s: &Vec<char>, i: usize) -> (r: Option<(u32, usize)>)
    requires
        i <= s@.len(),
    ensures
        match r {
            Some((v, e)) => spec_parse_version_part(s@, i as int) == Some((v, e as int)) && i < e
                <= s@.len(),
            None => spec_parse_version_part(s@, i as int) is None,
        },
{
    let a: usize = if i < s.len() && s[i] == '+' {
        i + 1
    } else {
        i
    };
    // skip leading zeros, which carry no value
    let mut z: usize = a;
    while z < s.len() && s[z] == '0'
        invariant
            a <= z <= s@.len(),
            forall|k: int| a <= k < z ==> s@[k] == '0',
            digit_run_end(s@, a as int) == digit_run_end(s@, z as int),
        decreases s@.len() - z,
    {
        z += 1;
    }
    // find the end of the digit run
    let mut e: usize = z;
    while e < s.len() && crate::codec::dec_val_of(s[e]) < 10
        invariant
            z <= e <= s@.len(),
            forall|k: int| z <= k < e ==> dec_val(s@[k]) < 10,
            digit_run_end(s@, z as int) == digit_run_end(s@, e as int),
        decreases s@.len() - e,
    {
        e += 1;
    }
    proof {
        assert(digit_run_end(s@, e as int) == e);
        assert(digit_run_end(s@, a as int) == e);
    }
    if e == a {
        return None;
    }
    proof {
        let run = s@.subrange(a as int, e as int);
        assert(forall|k: int| 0 <= k < z - a ==> run[k] == '0');
        crate::codec::lemma_leading_zeros_value(run, z - a);
        assert(run.subrange(z - a, run.len() as int) =~= s@.subrange(z as int, e as int));
        assert(value_of_digits(run) == value_of_digits(s@.subrange(z as int, e as int)));
    }
    if e - z > 10 {
        proof {
            // at least eleven digits with a nonzero lead: beyond 32 bits
            let sig = s@.subrange(z as int, e as int);
            assert(dec_val(sig[0]) >= 1);
            assert(crate::codec::all_digits(sig));
            crate::codec::lemma_nonzero_lead_value(sig);
            crate::codec::lemma_pow10_15();
            crate::codec::lemma_pow10_monotone(10, (e - z - 1) as nat);
        }
        return None;
    }
    match crate::codec::scan_fixed(s, z, e - z) {
        None => {
            proof {
                assert(crate::codec::all_digits(s@.subrange(z as int, e as int)));
                assert(false);
            }
            None
        },
        Some((v, _e2)) => {
            if v > 0xffff_ffff {
                return None;
            }
            Some((v as u32, e))
        },
    }
}

impl WatsonVersion {
    /// Parse a version banner. Exactly the banners `spec_parse_version`
    /// accepts parse; every malformed banner is a `VersionParseError`.
    pub fn parse(version_string: &str) -> (r: Result<WatsonVersion, WatsonError>)
        ensures
            r is Ok <==> spec_parse_version(version_string@) is Some,
            match r {
                Ok(v) => spec_parse_version(version_string@) == Some(v),
                Err(e) => e is VersionParseError,
            },
    {
        let s = crate::text::str_to_chars(version_string);
        let a = match crate::codec::scan_lit(&s, 0, "Watson, version ") {
            Some(a) => a,
            None => {
                return Err(
                    WatsonError::VersionParseError(
                        String::from_str("the banner does not name the program"),
                    ),
                );
            },
        };
        let (v1, e1) = match scan_version_part(&s, a) {
            Some(p) => p,
            None => {
                return Err(WatsonError::VersionParseError(String::from_str("no major version")));
            },
        };
        if !(e1 < s.len() && s[e1] == '.') {
            return Err(WatsonError::VersionParseError(String::from_str("expected a dot")));
        }
        let (v2, e2) = match scan_version_part(&s, e1 + 1) {
            Some(p) => p,
            None => {
                return Err(WatsonError::VersionParseError(String::from_str("no minor version")));
            },
        };
        if !(e2 < s.len() && s[e2] == '.') {
            return Err(WatsonError::VersionParseError(String::from_str("expected a dot")));
        }
        let (v3, e3) = match scan_version_part(&s, e2 + 1) {
            Some(p) => p,
            None => {
                return Err(WatsonError::VersionParseError(String::from_str("no patch version")));
            },
        };
        if e3 != s.len() {
            return Err(WatsonError::VersionParseError(String::from_str("text after the version")));
        }
        Ok(WatsonVersion { major: v1, minor: v2, patch: v3 })
    }
}

/// A handle for the external tracker's command-line interface. The methods
/// that run the command live with the caller; the handle only marks that the
/// collaborator is addressed.
pub struct WatsonClient;

impl WatsonClient {
    /// A fresh handle.
    pub fn new() -> WatsonClient {
        WatsonClient
    }
}

/// Parameters of a work-log query: a closed date range, and whether the
/// still-running interval is included.
pub struct LogQuery {
    pub from: Date,
    pub to: Date,
    pub include_current: bool,
}

impl LogQuery {
    /// A query over a date range, excluding the running interval.
    pub fn new(from: Date, to: Date) -> (q: LogQuery)
        ensures
            q.from == from,
            q.to == to,
            !q.include_current,
    {
        LogQuery { from, to, include_current: false }
    }

    /// The same query with the running interval included.
    pub fn with_current(self) -> (q: LogQuery)
        ensures
            q.from == self.from,
            q.to == self.to,
            q.include_current,
    {
        LogQuery { from: self.from, to: self.to, include_current: true }
    }

    /// The tracker's command-line arguments for this query.
    pub fn to_args(&self) -> (args: Vec<String>)
        ensures
            args.deep_view() == seq!["log"@, "--from"@, spec_print_date(self.from), "--to"@, spec_print_date(self.to), "--json"@] + (if self.include_current {
                seq!["--current"@]
            } else {
                Seq::<Seq<char>>::empty()
            }),
    {
        let mut args: Vec<String> = Vec::new();
        args.push(String::from_str("log"));
        args.push(String::from_str("--from"));
        let mut from_chars: Vec<char> = Vec::new();
        crate::codec::emit_date(&mut from_chars, self.from);
        args.push(crate::text::chars_to_string(&from_chars));
        args.push(String::from_str("--to"));
        let mut to_chars: Vec<char> = Vec::new();
        crate::codec::emit_date(&mut to_chars, self.to);
        args.push(crate::text::chars_to_string(&to_chars));
        args.push(String::from_str("--json"));
        if self.include_current {
            args.push(String::from_str("--current"));
            proof {
                assert(args.deep_view() =~= seq![
                    "log"@,
                    "--from"@,
                    spec_print_date(self.from),
                    "--to"@,
                    spec_print_date(self.to),
                    "--json"@,
                ] + seq!["--current"@]);
            }
        } else {
            proof {
                assert(args.deep_view() =~= seq![
                    "log"@,
                    "--from"@,
                    spec_print_date(self.from),
                    "--to"@,
                    spec_print_date(self.to),
                    "--json"@,
                ] + Seq::<Seq<char>>::empty());
            }
        }
        args
    }
}

} // verus!
