//! The configuration of one invocation: the ordered source list and the
//! bound on what is printed. A bound is a count of lines or a count of
//! bytes, never both: the `Limit` sum type makes the exclusion structural.

use crate::limit::{is_numeric_token, parse_positive_int, token_value};
use vstd::prelude::*;
use vstd::string::StringExecFns;

verus! {

/// The bound on one invocation's output: a count of complete lines or a
/// count of raw bytes. Holding one rules the other out.
#[derive(Clone, Copy, Debug, PartialEq, Eq, Structural)]
pub enum Limit {
    Lines(usize),
    Bytes(usize),
}

impl Limit {
    /// A limit is strictly positive: the parser rejects zero before a
    /// configuration exists.
    pub open spec fn wf(&self) -> bool {
        match *self {
            Limit::Lines(n) => n >= 1,
            Limit::Bytes(b) => b >= 1,
        }
    }
}

/// Why a configuration could not be built. All of these are fatal: no
/// source is touched once one arises.
#[derive(Debug)]
pub enum ConfigError {
    /// The line-count option did not hold a positive integer; the payload is
    /// the offending token, verbatim.
    IllegalLineCount(String),
    /// The byte-count option did not hold a positive integer; the payload is
    /// the offending token, verbatim.
    IllegalByteCount(String),
    /// Both a line count and a byte count were supplied.
    ConflictingOptions,
}

impl ConfigError {
    /// The single-line message shown to the user; it quotes the offending
    /// token verbatim.
    pub fn message(&self) -> (r: String)
        ensures
            r@ == match *self {
                ConfigError::IllegalLineCount(t) => "illegal line count -- "@ + t@,
                ConfigError::IllegalByteCount(t) => "illegal byte count -- "@ + t@,
                ConfigError::ConflictingOptions => "the byte count option cannot be used with the line count option"@,
            },
    {
        match self {
            ConfigError::IllegalLineCount(t) => {
                let mut s = String::from_str("illegal line count -- ");
                s.append(t.as_str());
                s
            },
            ConfigError::IllegalByteCount(t) => {
                let mut s = String::from_str("illegal byte count -- ");
                s.append(t.as_str());
                s
            },
            ConfigError::ConflictingOptions => {
                String::from_str("the byte count option cannot be used with the line count option")
            },
        }
    }
}

/// A validated invocation: the sources in order, and the single active
/// limit. Immutable once built.
#[derive(Debug)]
pub struct Config {
    files: Vec<String>,
    limit: Limit,
}

impl Config {
    /// The source identifiers, in the order they will be processed.
    pub closed spec fn spec_files(&self) -> Seq<String> {
        self.files@
    }

    /// The single active limit.
    pub closed spec fn spec_limit(&self) -> Limit {
        self.limit
    }

    /// Every configuration carries a positive limit and at least one source.
    pub open spec fn wf(&self) -> bool {
        self.spec_limit().wf() && self.spec_files().len() >= 1
    }

    pub fn files(&self) -> (r: &Vec<String>)
        ensures
            r@ == self.spec_files(),
    {
        &self.files
    }

    pub fn limit(&self) -> (r: &Limit)
        ensures
            *r == self.spec_limit(),
    {
        &self.limit
    }

    /// Builds the configuration from the raw option tokens.
    ///
    /// `lines` and `bytes` are the user-supplied option values, absent when
    /// the user did not give them; the line count defaults to 10, and an
    /// empty source list defaults to the single standard-input sentinel `-`.
    /// Supplying both options is rejected before either token is parsed.
    pub fn new(files: Vec<String>, lines: Option<&str>, bytes: Option<&str>) -> (r: Result<
        Config,
        ConfigError,
    >)
        ensures
            (lines is Some && bytes is Some) <==> (r matches Err(
                ConfigError::ConflictingOptions,
            )),
            r matches Ok(c) ==> {
                &&& c.wf()
                &&& (files@.len() > 0 ==> c.spec_files() == files@)
                &&& (files@.len() == 0 ==> c.spec_files().len() == 1 && c.spec_files()[0]@
                    == "-"@)
            },
            (match bytes {
                Some(b) => lines is None ==> (match r {
                    Ok(c) => is_numeric_token(b@) && 1 <= token_value(b@) <= usize::MAX
                        && c.spec_limit() == Limit::Bytes(token_value(b@) as usize),
                    Err(e) => (match e {
                        ConfigError::IllegalByteCount(t) => !(is_numeric_token(b@) && 1
                            <= token_value(b@) <= usize::MAX) && t@ == b@,
                        _ => false,
                    }),
                }),
                None => true,
            }),
            (match lines {
                Some(l) => bytes is None ==> (match r {
                    Ok(c) => is_numeric_token(l@) && 1 <= token_value(l@) <= usize::MAX
                        && c.spec_limit() == Limit::Lines(token_value(l@) as usize),
                    Err(e) => (match e {
                        ConfigError::IllegalLineCount(t) => !(is_numeric_token(l@) && 1
                            <= token_value(l@) <= usize::MAX) && t@ == l@,
                        _ => false,
                    }),
                }),
                None => true,
            }),
            lines is None && bytes is None ==> (match r {
                Ok(c) => c.spec_limit() == Limit::Lines(10),
                Err(_) => false,
            }),
    {
        if lines.is_some() && bytes.is_some() {
            return Err(ConfigError::ConflictingOptions);
        }
        let limit = match bytes {
            Some(b) => {
                match parse_positive_int(b) {
                    Ok(n) => Limit::Bytes(n),
                    Err(t) => {
                        return Err(ConfigError::IllegalByteCount(t));
                    },
                }
            },
            None => {
                match lines {
                    Some(l) => {
                        match parse_positive_int(l) {
                            Ok(n) => Limit::Lines(n),
                            Err(t) => {
                                return Err(ConfigError::IllegalLineCount(t));
                            },
                        }
                    },
                    // The documented default of 10 lines when neither option is given.
                    None => Limit::Lines(10),
                }
            },
        };
        let files = if files.len() == 0 {
            let mut v: Vec<String> = Vec::new();
            v.push(String::from_str("-"));
            v
        } else {
            files
        };
        Ok(Config { files, limit })
    }
}

} // verus!
