use crate::numeric::{
    all_parse, dec_str_i64, parse_i64_spec, parsed_vals, sum_lines, sum_wrapped,
};
use crate::text::{
    dedup_first, eq_str, join_nl, join_nl_str, lower_of, split_lines, split_lines_str, to_lower,
    to_upper, trim_end_spec, trim_end_str, trim_spec, trim_start_spec, trim_start_str, trim_str,
    unique_strings, upper_of,
};
use vstd::prelude::*;

verus! {

/// The transformations the tool offers, one active per invocation.
#[derive(Clone, Copy, Debug, PartialEq, Eq, Structural)]
pub enum IterTool {
    Trim,
    TrimStart,
    TrimEnd,
    ToUppercase,
    ToLowercase,
    Unique,
    Sum,
}

/// A line that the sum transformation could not parse as a signed
/// 64-bit integer; fatal to the whole run.
#[derive(Debug)]
pub struct ContentError {
    pub line: String,
}

/// A transformation name that resolves to no variant.
#[derive(Debug)]
pub struct ResolveError {
    pub attempted: String,
}

/// Whether the transformation is applied one line at a time; the others
/// need the whole content of a source at once.
pub open spec fn spec_by_lines(t: IterTool) -> bool {
    t is Trim || t is TrimStart || t is TrimEnd || t is ToUppercase || t is ToLowercase
}

/// Whether the transformation strips a line's trailing newline, so that
/// the applicator must write one itself.
pub open spec fn spec_removes_newline(t: IterTool) -> bool {
    t is Trim || t is TrimEnd
}

/// Index of a line that does not parse as a signed 64-bit integer while
/// every earlier line does.
pub open spec fn first_bad_line(lines: Seq<Seq<char>>, i: int) -> bool {
    &&& 0 <= i < lines.len()
    &&& parse_i64_spec(lines[i]) is None
    &&& forall|k: int| 0 <= k < i ==> parse_i64_spec(lines[k]) is Some
}

/// What applying the transformation to a text yields: `None` only for the
/// sum of a text with a line that is no valid signed 64-bit integer.
pub open spec fn apply_spec(t: IterTool, s: Seq<char>) -> Option<Seq<char>> {
    match t {
        IterTool::Trim => Some(trim_spec(s)),
        IterTool::TrimStart => Some(trim_start_spec(s)),
        IterTool::TrimEnd => Some(trim_end_spec(s)),
        IterTool::ToUppercase => Some(upper_of(s)),
        IterTool::ToLowercase => Some(lower_of(s)),
        IterTool::Unique => Some(join_nl(dedup_first(split_lines(s)))),
        IterTool::Sum => if all_parse(split_lines(s)) {
            Some(dec_str_i64(sum_wrapped(parsed_vals(split_lines(s))) as int))
        } else {
            None
        },
    }
}

/// The transformation the name denotes, canonical names and aliases both.
pub open spec fn name_resolves(s: Seq<char>) -> Option<IterTool> {
    if s == "trim"@ {
        Some(IterTool::Trim)
    } else if s == "trim_start"@ || s == "trim_left"@ || s == "triml"@ {
        Some(IterTool::TrimStart)
    } else if s == "trim_end"@ || s == "trim_right"@ || s == "trimr"@ {
        Some(IterTool::TrimEnd)
    } else if s == "to_uppercase"@ || s == "upper"@ || s == "uppercase"@ {
        Some(IterTool::ToUppercase)
    } else if s == "to_lowercase"@ || s == "lower"@ || s == "lowercase"@ {
        Some(IterTool::ToLowercase)
    } else if s == "unique"@ || s == "uniq"@ {
        Some(IterTool::Unique)
    } else if s == "sum"@ {
        Some(IterTool::Sum)
    } else {
        None
    }
}

impl IterTool {
    /// Apply the transformation to the text: trimming and case mapping act
    /// on the text as given; unique and sum read it as lines.
    pub fn apply_to(&self, buf: &str) -> (r: Result<String, ContentError>)
        ensures
            match r {
                Ok(out) => apply_spec(*self, buf@) == Some(out@),
                Err(e) => {
                    &&& apply_spec(*self, buf@) is None
                    &&& *self is Sum
                    &&& exists|i: int|
                        first_bad_line(split_lines(buf@), i) && e.line@ == split_lines(buf@)[i]
                },
            },
    {
        match self {
            IterTool::Trim => Ok(trim_str(buf)),
            IterTool::TrimStart => Ok(trim_start_str(buf)),
            IterTool::TrimEnd => Ok(trim_end_str(buf)),
            IterTool::ToUppercase => Ok(to_upper(buf)),
            IterTool::ToLowercase => Ok(to_lower(buf)),
            IterTool::Unique => {
                let lines = split_lines_str(buf);
                let kept = unique_strings(lines);
                Ok(join_nl_str(&kept))
            },
            IterTool::Sum => {
                let lines = split_lines_str(buf);
                match sum_lines(&lines) {
                    Ok(v) => Ok(crate::numeric::i64_to_string(v)),
                    Err(i) => {
                        proof {
                            assert(first_bad_line(split_lines(buf@), i as int));
                        }
                        Err(ContentError { line: lines[i].clone() })
                    },
                }
            },
        }
    }

    /// Whether this transformation is applied one line at a time.
    pub fn is_by_lines(&self) -> (r: bool)
        ensures
            r == spec_by_lines(*self),
    {
        matches!(
            self,
            IterTool::Trim
                | IterTool::TrimStart
                | IterTool::TrimEnd
                | IterTool::ToUppercase
                | IterTool::ToLowercase,
        )
    }

    /// Whether this transformation strips the trailing newline of a line.
    pub fn removes_newline(&self) -> (r: bool)
        ensures
            r == spec_removes_newline(*self),
    {
        matches!(self, IterTool::Trim | IterTool::TrimEnd)
    }

    /// Resolve a transformation name, canonical or alias, case-sensitively;
    /// an unknown name is returned in the error.
    pub fn from_name(s: &str) -> (r: Result<IterTool, ResolveError>)
        ensures
            match r {
                Ok(t) => name_resolves(s@) == Some(t),
                Err(e) => name_resolves(s@) is None && e.attempted@ == s@,
            },
    {
        if eq_str(s, "trim") {
            Ok(IterTool::Trim)
        } else if eq_str(s, "trim_start") || eq_str(s, "trim_left") || eq_str(s, "triml") {
            Ok(IterTool::TrimStart)
        } else if eq_str(s, "trim_end") || eq_str(s, "trim_right") || eq_str(s, "trimr") {
            Ok(IterTool::TrimEnd)
        } else if eq_str(s, "to_uppercase") || eq_str(s, "upper") || eq_str(s, "uppercase") {
            Ok(IterTool::ToUppercase)
        } else if eq_str(s, "to_lowercase") || eq_str(s, "lower") || eq_str(s, "lowercase") {
            Ok(IterTool::ToLowercase)
        } else if eq_str(s, "unique") || eq_str(s, "uniq") {
            Ok(IterTool::Unique)
        } else if eq_str(s, "sum") {
            Ok(IterTool::Sum)
        } else {
            Err(ResolveError { attempted: String::from_str(s) })
        }
    }
}

/// One invocation's inputs: the sources to read, in order, and the
/// transformation to apply to them.
pub struct Config {
    pub files: Vec<String>,
    pub command: IterTool,
}

} // verus!
