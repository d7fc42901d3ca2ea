//! Deciding whether a probe outcome is reported, under a rule set.
use vstd::prelude::*;

use crate::filters::{ResponseFilters, RuleSet};
use crate::fuzz::FuzzResponse;
use crate::text::{line_count, line_count_exec};

verus! {

/// `v` lies in one of the closed ranges `rs`.
pub open spec fn in_ranges(v: int, rs: Seq<(usize, usize)>) -> bool {
    exists|i: int| 0 <= i < rs.len() && (#[trigger] rs[i]).0 <= v <= rs[i].1
}

/// A match group passes when absent, or when the measured value is known
/// and lies in one of its ranges.
pub open spec fn range_match_passes(v: Option<int>, rule: Option<Seq<(usize, usize)>>) -> bool {
    match rule {
        None => true,
        Some(rs) => match v {
            Some(x) => in_ranges(x, rs),
            None => false,
        },
    }
}

/// A filter group passes when absent, or when the measured value is known
/// and lies in none of its ranges.
pub open spec fn range_filter_passes(v: Option<int>, rule: Option<Seq<(usize, usize)>>) -> bool {
    match rule {
        None => true,
        Some(rs) => match v {
            Some(x) => !in_ranges(x, rs),
            None => false,
        },
    }
}

/// A status match group passes when absent, or when the status is listed.
pub open spec fn status_match_passes(code: Option<u16>, rule: Option<Seq<u16>>) -> bool {
    match rule {
        None => true,
        Some(cs) => match code {
            Some(c) => cs.contains(c),
            None => false,
        },
    }
}

/// A status filter group passes when absent, or when the status is not
/// listed.
pub open spec fn status_filter_passes(code: Option<u16>, rule: Option<Seq<u16>>) -> bool {
    match rule {
        None => true,
        Some(cs) => match code {
            Some(c) => !cs.contains(c),
            None => false,
        },
    }
}

/// The declared content length, where known.
pub open spec fn length_of(o: FuzzResponse) -> Option<int> {
    match o.content_length {
        Some(n) => Some(n as int),
        None => None,
    }
}

/// The line count of the body, where it was kept.
pub open spec fn lines_of(o: FuzzResponse) -> Option<int> {
    match o.body {
        Some(b) => Some(line_count(b@) as int),
        None => None,
    }
}

/// Whether an outcome is reported under `rules`: it is no transport
/// failure, and it passes the status, size and line groups, matches before
/// filters.
pub open spec fn accepted(o: FuzzResponse, rules: RuleSet) -> bool {
    &&& !o.request_error
    &&& status_match_passes(o.status_code, rules.status_matches)
    &&& status_filter_passes(o.status_code, rules.status_filters)
    &&& range_match_passes(length_of(o), rules.size_matches)
    &&& range_filter_passes(length_of(o), rules.size_filters)
    &&& range_match_passes(lines_of(o), rules.line_matches)
    &&& range_filter_passes(lines_of(o), rules.line_filters)
}

fn in_ranges_exec(v: u128, rs: &Vec<(usize, usize)>) -> (r: bool)
    ensures
        r == in_ranges(v as int, rs@),
{
    let mut i: usize = 0;
    while i < rs.len()
        invariant
            0 <= i <= rs@.len(),
            forall|k: int| 0 <= k < i ==> !((#[trigger] rs@[k]).0 <= v <= rs@[k].1),
        decreases rs.len() - i,
    {
        let (low, high) = rs[i];
        if low as u128 <= v && v <= high as u128 {
            return true;
        }
        i = i + 1;
    }
    false
}

fn contains_code(cs: &Vec<u16>, c: u16) -> (r: bool)
    ensures
        r == cs@.contains(c),
{
    let mut i: usize = 0;
    while i < cs.len()
        invariant
            0 <= i <= cs@.len(),
            forall|k: int| 0 <= k < i ==> cs@[k] != c,
        decreases cs.len() - i,
    {
        if cs[i] == c {
            return true;
        }
        i = i + 1;
    }
    false
}

fn range_match_exec(v: Option<u128>, rule: &Option<Vec<(usize, usize)>>) -> (r: bool)
    ensures
        r == range_match_passes(
            match v {
                Some(x) => Some(x as int),
                None => None,
            },
            crate::filters::opt_vec(*rule),
        ),
{
    match rule {
        None => true,
        Some(rs) => match v {
            Some(x) => in_ranges_exec(x, rs),
            None => false,
        },
    }
}

fn range_filter_exec(v: Option<u128>, rule: &Option<Vec<(usize, usize)>>) -> (r: bool)
    ensures
        r == range_filter_passes(
            match v {
                Some(x) => Some(x as int),
                None => None,
            },
            crate::filters::opt_vec(*rule),
        ),
{
    match rule {
        None => true,
        Some(rs) => match v {
            Some(x) => !in_ranges_exec(x, rs),
            None => false,
        },
    }
}

/// Whether `outcome` is reported under `rules`. The groups are tried in
/// order: transport failure, status match, status filter, size match, size
/// filter, line match, line filter; the first that fails rejects.
pub fn accept(outcome: &FuzzResponse, rules: &ResponseFilters) -> (r: bool)
    ensures
        r == accepted(*outcome, rules@),
{
    if outcome.request_error {
        return false;
    }
    match &rules.status_matches {
        None => {},
        Some(cs) => match outcome.status_code {
            Some(c) => {
                if !contains_code(cs, c) {
                    return false;
                }
            },
            None => {
                return false;
            },
        },
    }
    match &rules.status_filters {
        None => {},
        Some(cs) => match outcome.status_code {
            Some(c) => {
                if contains_code(cs, c) {
                    return false;
                }
            },
            None => {
                return false;
            },
        },
    }
    let length: Option<u128> = match outcome.content_length {
        Some(n) => Some(n as u128),
        None => None,
    };
    if !range_match_exec(length, &rules.size_matches) {
        return false;
    }
    if !range_filter_exec(length, &rules.size_filters) {
        return false;
    }
    if rules.line_matches.is_none() && rules.line_filters.is_none() {
        return true;
    }
    let lines: Option<u128> = match &outcome.body {
        Some(b) => Some(line_count_exec(b.as_str()) as u128),
        None => None,
    };
    range_match_exec(lines, &rules.line_matches) && range_filter_exec(lines, &rules.line_filters)
}

impl ResponseFilters {
    /// Whether classification reads the body: only the line groups do.
    pub fn needs_body(&self) -> (r: bool)
        ensures
            r == (self.line_matches is Some || self.line_filters is Some),
    {
        self.line_matches.is_some() || self.line_filters.is_some()
    }
}

/// An outcome that failed in transport is rejected whatever the rules,
/// the empty rule set included.
pub proof fn lemma_transport_error_rejected(o: FuzzResponse, rules: RuleSet)
    requires
        o.request_error,
    ensures
        !accepted(o, rules),
{
}

/// For a received response and a rule set without status groups, adding
/// the status match `{s}` keeps the response exactly when its status is
/// `s`, and adding the status filter `{s}` keeps it exactly when its status
/// is not `s`: on a response the rest of the rules accept, the two are
/// complements.
pub proof fn lemma_status_match_filter_complement(o: FuzzResponse, rules: RuleSet, s: u16)
    requires
        !o.request_error,
        o.status_code is Some,
        rules.status_matches is None,
        rules.status_filters is None,
    ensures
        accepted(o, RuleSet { status_matches: Some(seq![s]), ..rules }) == (o.status_code == Some(
            s,
        ) && accepted(o, rules)),
        accepted(o, RuleSet { status_filters: Some(seq![s]), ..rules }) == (o.status_code != Some(
            s,
        ) && accepted(o, rules)),
        accepted(o, rules) ==> (accepted(o, RuleSet { status_matches: Some(seq![s]), ..rules })
            <==> !accepted(o, RuleSet { status_filters: Some(seq![s]), ..rules })),
{
    let c = o.status_code->0;
    assert(seq![s].contains(c) <==> c == s) by {
        if c == s {
            assert(seq![s][0] == c);
        }
    }
}

} // verus!
