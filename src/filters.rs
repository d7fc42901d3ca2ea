//! Match and filter rules: parsing comma-separated status lists and
//! byte/line ranges into a rule set.
use vstd::prelude::*;

use crate::text::{
    chars_of, is_digit, lemma_split_extend_last, lemma_split_without_sep, lemma_trim_number,
    parse_usize, parse_usize_at, piece, split, split_bounds, trim, trim_bounds,
};

verus! {

/// Why a rule string was refused; each variant carries the offending token
/// (or value).
#[derive(Debug)]
pub enum TokenError {
    /// A token of a number list that is not a number.
    InvalidNumber(String),
    /// The low end of a `low-high` range is not a number.
    InvalidRangeStart(String),
    /// The high end of a `low-high` range is not a number.
    InvalidRangeEnd(String),
    /// A single-number range token that is not a number.
    InvalidSingleNumber(String),
    /// A range token with more than one dash.
    InvalidRangeFormat(String),
    /// A status-code bound above 65535.
    StatusTooLarge(usize),
}

/// The mathematical model of a [`TokenError`].
pub enum TokenFault {
    InvalidNumber(Seq<char>),
    InvalidRangeStart(Seq<char>),
    InvalidRangeEnd(Seq<char>),
    InvalidSingleNumber(Seq<char>),
    InvalidRangeFormat(Seq<char>),
    StatusTooLarge(usize),
}

impl View for TokenError {
    type V = TokenFault;

    open spec fn view(&self) -> TokenFault {
        match self {
            TokenError::InvalidNumber(t) => TokenFault::InvalidNumber(t@),
            TokenError::InvalidRangeStart(t) => TokenFault::InvalidRangeStart(t@),
            TokenError::InvalidRangeEnd(t) => TokenFault::InvalidRangeEnd(t@),
            TokenError::InvalidSingleNumber(t) => TokenFault::InvalidSingleNumber(t@),
            TokenError::InvalidRangeFormat(t) => TokenFault::InvalidRangeFormat(t@),
            TokenError::StatusTooLarge(v) => TokenFault::StatusTooLarge(*v),
        }
    }
}

/// The values of a list of number tokens; the first token that is not a
/// number (after trimming) is the error.
pub open spec fn list_values(toks: Seq<Seq<char>>) -> Result<Seq<usize>, TokenFault>
    decreases toks.len(),
{
    if toks.len() == 0 {
        Ok(Seq::empty())
    } else {
        match list_values(toks.drop_last()) {
            Err(e) => Err(e),
            Ok(vs) => match parse_usize(trim(toks.last())) {
                Some(v) => Ok(vs.push(v)),
                None => Err(TokenFault::InvalidNumber(toks.last())),
            },
        }
    }
}

/// A comma-separated list of numbers.
pub open spec fn number_list(f: Seq<char>) -> Result<Seq<usize>, TokenFault> {
    list_values(split(f, ','))
}

/// The list rule of an optional option string.
pub open spec fn list_rule(filter: Option<Seq<char>>) -> Result<Option<Seq<usize>>, TokenFault> {
    match filter {
        None => Ok(None),
        Some(f) => match number_list(f) {
            Ok(vs) => Ok(Some(vs)),
            Err(e) => Err(e),
        },
    }
}

/// The text of an optional string.
pub open spec fn opt_str(o: Option<String>) -> Option<Seq<char>> {
    match o {
        Some(s) => Some(s@),
        None => None,
    }
}

/// The contents of an optional vector.
pub open spec fn opt_vec<T>(o: Option<Vec<T>>) -> Option<Seq<T>> {
    match o {
        Some(v) => Some(v@),
        None => None,
    }
}

/// The model of a parsed optional list.
pub open spec fn result_view<T>(r: Result<Option<Vec<T>>, TokenError>) -> Result<
    Option<Seq<T>>,
    TokenFault,
> {
    match r {
        Ok(o) => Ok(opt_vec(o)),
        Err(e) => Err(e@),
    }
}

/// Parses a comma-separated list of numbers, such as `"200,301"`.
pub fn parse_filter_list(filter: Option<String>) -> (r: Result<Option<Vec<usize>>, TokenError>)
    ensures
        result_view(r) == list_rule(opt_str(filter)),
{
    let ghost fv = opt_str(filter);
    match filter {
        None => Ok(None),
        Some(f) => {
            let cs = chars_of(f.as_str());
            let bounds = split_bounds(&cs, 0, cs.len(), ',');
            let ghost toks = split(f@, ',');
            assert(cs@.subrange(0, cs@.len() as int) =~= f@);
            let mut out: Vec<usize> = Vec::new();
            let mut k: usize = 0;
            while k < bounds.len()
                invariant
                    cs@ == f@,
                    fv == Some(f@),
                    fv == opt_str(filter),
                    toks == split(f@, ','),
                    bounds@.len() == toks.len(),
                    forall|j: int|
                        0 <= j < bounds@.len() ==> 0 <= (#[trigger] bounds@[j]).0 <= bounds@[j].1
                            <= cs@.len(),
                    forall|j: int|
                        0 <= j < bounds@.len() ==> #[trigger] cs@.subrange(
                            bounds@[j].0 as int,
                            bounds@[j].1 as int,
                        ) == toks[j],
                    0 <= k <= bounds@.len(),
                    list_values(toks.take(k as int)) == Ok::<Seq<usize>, TokenFault>(out@),
                decreases bounds.len() - k,
            {
                let (lo, hi) = bounds[k];
                assert(cs@.subrange(lo as int, hi as int) == toks[k as int]);
                assert(toks.take(k + 1).drop_last() =~= toks.take(k as int));
                let (a, b) = trim_bounds(&cs, lo, hi);
                match parse_usize_at(&cs, a, b) {
                    Some(v) => {
                        out.push(v);
                    },
                    None => {
                        let t = piece(f.as_str(), lo, hi);
                        assert(toks.take(k + 1).last() == toks[k as int]);
                        proof {
                            lemma_list_values_err(toks, k + 1);
                        }
                        return Err(TokenError::InvalidNumber(t));
                    },
                }
                k = k + 1;
            }
            assert(toks.take(k as int) =~= toks);
            Ok(Some(out))
        },
    }
}

/// An error in a prefix of the tokens is the error of the whole list.
proof fn lemma_list_values_err(toks: Seq<Seq<char>>, k: int)
    requires
        0 <= k <= toks.len(),
        list_values(toks.take(k)) is Err,
    ensures
        list_values(toks) == list_values(toks.take(k)),
    decreases toks.len() - k,
{
    if k < toks.len() {
        assert(toks.take(k + 1).drop_last() =~= toks.take(k));
        lemma_list_values_err(toks, k + 1);
    } else {
        assert(toks.take(k) =~= toks);
    }
}

/// One range token: `low-high`, or a single number `n` standing for `n-n`.
pub open spec fn range_of(tok: Seq<char>) -> Result<(usize, usize), TokenFault> {
    let parts = split(tok, '-');
    if parts.len() == 2 {
        match parse_usize(trim(parts[0])) {
            None => Err(TokenFault::InvalidRangeStart(trim(parts[0]))),
            Some(low) => match parse_usize(trim(parts[1])) {
                None => Err(TokenFault::InvalidRangeEnd(trim(parts[1]))),
                Some(high) => Ok((low, high)),
            },
        }
    } else if parts.len() == 1 {
        match parse_usize(trim(parts[0])) {
            None => Err(TokenFault::InvalidSingleNumber(trim(parts[0]))),
            Some(n) => Ok((n, n)),
        }
    } else {
        Err(TokenFault::InvalidRangeFormat(tok))
    }
}

/// The ranges of a list of range tokens; the first bad token is the error.
pub open spec fn range_values(toks: Seq<Seq<char>>) -> Result<Seq<(usize, usize)>, TokenFault>
    decreases toks.len(),
{
    if toks.len() == 0 {
        Ok(Seq::empty())
    } else {
        match range_values(toks.drop_last()) {
            Err(e) => Err(e),
            Ok(rs) => match range_of(toks.last()) {
                Ok(r) => Ok(rs.push(r)),
                Err(e) => Err(e),
            },
        }
    }
}

/// A comma-separated list of ranges.
pub open spec fn range_list(f: Seq<char>) -> Result<Seq<(usize, usize)>, TokenFault> {
    range_values(split(f, ','))
}

/// The range rule of an optional option string.
pub open spec fn range_rule(filter: Option<Seq<char>>) -> Result<
    Option<Seq<(usize, usize)>>,
    TokenFault,
> {
    match filter {
        None => Ok(None),
        Some(f) => match range_list(f) {
            Ok(rs) => Ok(Some(rs)),
            Err(e) => Err(e),
        },
    }
}

proof fn lemma_range_values_err(toks: Seq<Seq<char>>, k: int)
    requires
        0 <= k <= toks.len(),
        range_values(toks.take(k)) is Err,
    ensures
        range_values(toks) == range_values(toks.take(k)),
    decreases toks.len() - k,
{
    if k < toks.len() {
        assert(toks.take(k + 1).drop_last() =~= toks.take(k));
        lemma_range_values_err(toks, k + 1);
    } else {
        assert(toks.take(k) =~= toks);
    }
}

/// The model of a parsed range token.
pub open spec fn range_view(r: Result<(usize, usize), TokenError>) -> Result<(usize, usize), TokenFault> {
    match r {
        Ok(p) => Ok(p),
        Err(e) => Err(e@),
    }
}

/// Parses the range token `cs[lo..hi]`, whose text is also `f[lo..hi]`.
fn parse_range_token(f: &str, cs: &Vec<char>, lo: usize, hi: usize) -> (r: Result<(usize, usize), TokenError>)
    requires
        cs@ == f@,
        lo <= hi <= cs@.len(),
    ensures
        range_view(r) == range_of(cs@.subrange(lo as int, hi as int)),
{
    let ghost tok = cs@.subrange(lo as int, hi as int);
    let parts = split_bounds(cs, lo, hi, '-');
    if parts.len() == 2 {
        let (s0, e0) = parts[0];
        let (s1, e1) = parts[1];
        assert(cs@.subrange(s0 as int, e0 as int) == split(tok, '-')[0]);
        assert(cs@.subrange(s1 as int, e1 as int) == split(tok, '-')[1]);
        let (a0, b0) = trim_bounds(cs, s0, e0);
        let (a1, b1) = trim_bounds(cs, s1, e1);
        match parse_usize_at(cs, a0, b0) {
            None => Err(TokenError::InvalidRangeStart(piece(f, a0, b0))),
            Some(low) => match parse_usize_at(cs, a1, b1) {
                None => Err(TokenError::InvalidRangeEnd(piece(f, a1, b1))),
                Some(high) => Ok((low, high)),
            },
        }
    } else if parts.len() == 1 {
        let (s0, e0) = parts[0];
        assert(cs@.subrange(s0 as int, e0 as int) == split(tok, '-')[0]);
        let (a0, b0) = trim_bounds(cs, s0, e0);
        match parse_usize_at(cs, a0, b0) {
            None => Err(TokenError::InvalidSingleNumber(piece(f, a0, b0))),
            Some(n) => Ok((n, n)),
        }
    } else {
        Err(TokenError::InvalidRangeFormat(piece(f, lo, hi)))
    }
}

/// Parses a comma-separated list of ranges, such as `"100-200,300"`; a
/// single number `n` is the range `n-n`.
pub fn parse_range_filter(filter: Option<String>) -> (r: Result<Option<Vec<(usize, usize)>>, TokenError>)
    ensures
        result_view(r) == range_rule(opt_str(filter)),
{
    let ghost fv = opt_str(filter);
    match filter {
        None => Ok(None),
        Some(f) => {
            let cs = chars_of(f.as_str());
            let bounds = split_bounds(&cs, 0, cs.len(), ',');
            let ghost toks = split(f@, ',');
            assert(cs@.subrange(0, cs@.len() as int) =~= f@);
            let mut out: Vec<(usize, usize)> = Vec::new();
            let mut k: usize = 0;
            while k < bounds.len()
                invariant
                    cs@ == f@,
                    fv == Some(f@),
                    fv == opt_str(filter),
                    toks == split(f@, ','),
                    bounds@.len() == toks.len(),
                    forall|j: int|
                        0 <= j < bounds@.len() ==> 0 <= (#[trigger] bounds@[j]).0 <= bounds@[j].1
                            <= cs@.len(),
                    forall|j: int|
                        0 <= j < bounds@.len() ==> #[trigger] cs@.subrange(
                            bounds@[j].0 as int,
                            bounds@[j].1 as int,
                        ) == toks[j],
                    0 <= k <= bounds@.len(),
                    range_values(toks.take(k as int)) == Ok::<Seq<(usize, usize)>, TokenFault>(
                        out@,
                    ),
                decreases bounds.len() - k,
            {
                let (lo, hi) = bounds[k];
                assert(cs@.subrange(lo as int, hi as int) == toks[k as int]);
                assert(toks.take(k + 1).drop_last() =~= toks.take(k as int));
                assert(toks.take(k + 1).last() == toks[k as int]);
                match parse_range_token(f.as_str(), &cs, lo, hi) {
                    Ok(p) => {
                        out.push(p);
                    },
                    Err(e) => {
                        proof {
                            lemma_range_values_err(toks, k + 1);
                        }
                        return Err(e);
                    },
                }
                k = k + 1;
            }
            assert(toks.take(k as int) =~= toks);
            Ok(Some(out))
        },
    }
}

/// The codes from `low` to `high`, both included; none where `low > high`.
pub open spec fn codes_between(low: u16, high: u16) -> Seq<u16> {
    Seq::new(
        if low <= high {
            (high - low + 1) as nat
        } else {
            0
        },
        |i: int| (low + i) as u16,
    )
}

/// The status codes of a list of ranges, in order; the first bound above
/// 65535 is the error.
pub open spec fn status_codes(rs: Seq<(usize, usize)>) -> Result<Seq<u16>, TokenFault>
    decreases rs.len(),
{
    if rs.len() == 0 {
        Ok(Seq::empty())
    } else {
        match status_codes(rs.drop_last()) {
            Err(e) => Err(e),
            Ok(cs) => if rs.last().0 > u16::MAX {
                Err(TokenFault::StatusTooLarge(rs.last().0))
            } else if rs.last().1 > u16::MAX {
                Err(TokenFault::StatusTooLarge(rs.last().1))
            } else {
                Ok(cs + codes_between(rs.last().0 as u16, rs.last().1 as u16))
            },
        }
    }
}

/// Status codes of an optional list of ranges.
pub open spec fn status_conversion(o: Option<Seq<(usize, usize)>>) -> Result<
    Option<Seq<u16>>,
    TokenFault,
> {
    match o {
        None => Ok(None),
        Some(rs) => match status_codes(rs) {
            Ok(cs) => Ok(Some(cs)),
            Err(e) => Err(e),
        },
    }
}

proof fn lemma_status_codes_err(rs: Seq<(usize, usize)>, k: int)
    requires
        0 <= k <= rs.len(),
        status_codes(rs.take(k)) is Err,
    ensures
        status_codes(rs) == status_codes(rs.take(k)),
    decreases rs.len() - k,
{
    if k < rs.len() {
        assert(rs.take(k + 1).drop_last() =~= rs.take(k));
        lemma_status_codes_err(rs, k + 1);
    } else {
        assert(rs.take(k) =~= rs);
    }
}

/// Narrows parsed ranges to the status codes they cover, refusing any
/// bound above 65535.
pub fn convert_usize_to_u16(ranges: Option<Vec<(usize, usize)>>) -> (r: Result<
    Option<Vec<u16>>,
    TokenError,
>)
    ensures
        result_view(r) == status_conversion(opt_vec(ranges)),
{
    let ghost rv = opt_vec(ranges);
    match ranges {
        None => Ok(None),
        Some(rs) => {
            let mut out: Vec<u16> = Vec::new();
            let mut k: usize = 0;
            while k < rs.len()
                invariant
                    rv == Some(rs@),
                    rv == opt_vec(ranges),
                    0 <= k <= rs@.len(),
                    status_codes(rs@.take(k as int)) == Ok::<Seq<u16>, TokenFault>(out@),
                decreases rs.len() - k,
            {
                let (low, high) = rs[k];
                assert(rs@.take(k + 1).drop_last() =~= rs@.take(k as int));
                assert(rs@.take(k + 1).last() == (low, high));
                if low > 65535 {
                    proof {
                        lemma_status_codes_err(rs@, k + 1);
                    }
                    return Err(TokenError::StatusTooLarge(low));
                }
                if high > 65535 {
                    proof {
                        lemma_status_codes_err(rs@, k + 1);
                    }
                    return Err(TokenError::StatusTooLarge(high));
                }
                let ghost base = out@;
                let mut c: u32 = low as u32;
                while c <= high as u32
                    invariant
                        low <= 65535,
                        high <= 65535,
                        low <= c <= high + 1 || (c == low && low > high),
                        out@ == base + codes_between(low as u16, high as u16).take(c - low),
                        low > high ==> c == low,
                    decreases high + 1 - c,
                {
                    let ghost before = out@;
                    out.push(c as u16);
                    assert(codes_between(low as u16, high as u16).take(c + 1 - low) =~= codes_between(
                        low as u16,
                        high as u16,
                    ).take(c - low).push(c as u16));
                    assert(out@ =~= before.push(c as u16));
                    c = c + 1;
                }
                assert(codes_between(low as u16, high as u16).take(c - low) =~= codes_between(
                    low as u16,
                    high as u16,
                ));
                k = k + 1;
            }
            assert(rs@.take(k as int) =~= rs@);
            Ok(Some(out))
        },
    }
}

/// The status rule of an optional option string: the codes that its
/// numbers and ranges cover.
pub open spec fn status_rule(filter: Option<Seq<char>>) -> Result<Option<Seq<u16>>, TokenFault> {
    match range_rule(filter) {
        Err(e) => Err(e),
        Ok(o) => status_conversion(o),
    }
}

/// Compiled match and filter rules; an absent group places no constraint.
#[derive(Debug)]
pub struct ResponseFilters {
    /// Every code that the option's numbers and ranges cover.
    pub status_matches: Option<Vec<u16>>,
    pub size_matches: Option<Vec<(usize, usize)>>,
    pub line_matches: Option<Vec<(usize, usize)>>,
    pub status_filters: Option<Vec<u16>>,
    pub size_filters: Option<Vec<(usize, usize)>>,
    pub line_filters: Option<Vec<(usize, usize)>>,
}

/// The mathematical model of [`ResponseFilters`].
pub struct RuleSet {
    pub status_matches: Option<Seq<u16>>,
    pub size_matches: Option<Seq<(usize, usize)>>,
    pub line_matches: Option<Seq<(usize, usize)>>,
    pub status_filters: Option<Seq<u16>>,
    pub size_filters: Option<Seq<(usize, usize)>>,
    pub line_filters: Option<Seq<(usize, usize)>>,
}

impl View for ResponseFilters {
    type V = RuleSet;

    open spec fn view(&self) -> RuleSet {
        RuleSet {
            status_matches: opt_vec(self.status_matches),
            size_matches: opt_vec(self.size_matches),
            line_matches: opt_vec(self.line_matches),
            status_filters: opt_vec(self.status_filters),
            size_filters: opt_vec(self.size_filters),
            line_filters: opt_vec(self.line_filters),
        }
    }
}

/// The option a rule string came from.
#[derive(Debug, Clone, Copy, PartialEq, Eq, Structural)]
pub enum FilterOption {
    MatchStatus,
    MatchSize,
    MatchLines,
    FilterStatus,
    FilterSize,
    FilterLines,
}

/// A refused rule string: which option, and why.
#[derive(Debug)]
pub struct FilterError {
    pub option: FilterOption,
    pub error: TokenError,
}

/// The rule set of the six option strings, read in the order of the
/// parameters; the first refused string is the error.
pub open spec fn rules_of(
    match_status: Option<Seq<char>>,
    match_size: Option<Seq<char>>,
    match_lines: Option<Seq<char>>,
    filter_status: Option<Seq<char>>,
    filter_size: Option<Seq<char>>,
    filter_lines: Option<Seq<char>>,
) -> Result<RuleSet, (FilterOption, TokenFault)> {
    match status_rule(match_status) {
        Err(e) => Err((FilterOption::MatchStatus, e)),
        Ok(sm) => match range_rule(match_size) {
            Err(e) => Err((FilterOption::MatchSize, e)),
            Ok(zm) => match range_rule(match_lines) {
                Err(e) => Err((FilterOption::MatchLines, e)),
                Ok(lm) => match status_rule(filter_status) {
                    Err(e) => Err((FilterOption::FilterStatus, e)),
                    Ok(sf) => match range_rule(filter_size) {
                        Err(e) => Err((FilterOption::FilterSize, e)),
                        Ok(zf) => match range_rule(filter_lines) {
                            Err(e) => Err((FilterOption::FilterLines, e)),
                            Ok(lf) => Ok(
                                RuleSet {
                                    status_matches: sm,
                                    size_matches: zm,
                                    line_matches: lm,
                                    status_filters: sf,
                                    size_filters: zf,
                                    line_filters: lf,
                                },
                            ),
                        },
                    },
                },
            },
        },
    }
}

/// The model of a compiled rule set, or of the refusal.
pub open spec fn rules_view(r: Result<ResponseFilters, FilterError>) -> Result<
    RuleSet,
    (FilterOption, TokenFault),
> {
    match r {
        Ok(f) => Ok(f@),
        Err(e) => Err((e.option, e.error@)),
    }
}

fn parse_status_option(filter: Option<String>) -> (r: Result<Option<Vec<u16>>, TokenError>)
    ensures
        result_view(r) == status_rule(opt_str(filter)),
{
    match parse_range_filter(filter) {
        Err(e) => Err(e),
        Ok(o) => convert_usize_to_u16(o),
    }
}

/// Compiles the six optional rule strings into a rule set.
pub fn parse_response_filters(
    match_status: Option<String>,
    match_size: Option<String>,
    match_lines: Option<String>,
    filter_status: Option<String>,
    filter_size: Option<String>,
    filter_lines: Option<String>,
) -> (r: Result<ResponseFilters, FilterError>)
    ensures
        rules_view(r) == rules_of(
            opt_str(match_status),
            opt_str(match_size),
            opt_str(match_lines),
            opt_str(filter_status),
            opt_str(filter_size),
            opt_str(filter_lines),
        ),
{
    let status_matches = match parse_status_option(match_status) {
        Ok(v) => v,
        Err(error) => {
            return Err(FilterError { option: FilterOption::MatchStatus, error });
        },
    };
    let size_matches = match parse_range_filter(match_size) {
        Ok(v) => v,
        Err(error) => {
            return Err(FilterError { option: FilterOption::MatchSize, error });
        },
    };
    let line_matches = match parse_range_filter(match_lines) {
        Ok(v) => v,
        Err(error) => {
            return Err(FilterError { option: FilterOption::MatchLines, error });
        },
    };
    let status_filters = match parse_status_option(filter_status) {
        Ok(v) => v,
        Err(error) => {
            return Err(FilterError { option: FilterOption::FilterStatus, error });
        },
    };
    let size_filters = match parse_range_filter(filter_size) {
        Ok(v) => v,
        Err(error) => {
            return Err(FilterError { option: FilterOption::FilterSize, error });
        },
    };
    let line_filters = match parse_range_filter(filter_lines) {
        Ok(v) => v,
        Err(error) => {
            return Err(FilterError { option: FilterOption::FilterLines, error });
        },
    };
    Ok(
        ResponseFilters {
            status_matches,
            size_matches,
            line_matches,
            status_filters,
            size_filters,
            line_filters,
        },
    )
}

/// In any rule option, a single number `n` is the same rule as the range
/// `n-n`: both compile to the one range from `n` to `n`, and, for a status
/// option, to the same set of codes.
pub proof fn lemma_single_number_is_degenerate_range(n: Seq<char>)
    requires
        parse_usize(n) is Some,
    ensures
        range_rule(Some(n)) == range_rule(Some(n + seq!['-'] + n)),
        range_rule(Some(n)) == Ok::<Option<Seq<(usize, usize)>>, TokenFault>(
            Some(seq![(parse_usize(n)->0, parse_usize(n)->0)]),
        ),
        status_rule(Some(n)) == status_rule(Some(n + seq!['-'] + n)),
{
    let v = parse_usize(n)->0;
    let r = n + seq!['-'] + n;
    lemma_trim_number(n);
    assert forall|i: int| 0 <= i < n.len() implies n[i] != '-' && n[i] != ',' by {
        if n[0] == '+' {
            if i > 0 {
                assert(is_digit(n.drop_first()[i - 1]));
            }
        } else {
            assert(is_digit(n[i]));
        }
    }
    // the single number
    lemma_split_without_sep(n, '-');
    assert(range_of(n) == Ok::<(usize, usize), TokenFault>((v, v)));
    lemma_split_without_sep(n, ',');
    assert(seq![n].drop_last() =~= Seq::<Seq<char>>::empty());
    assert(range_values(seq![n]) =~= Ok::<Seq<(usize, usize)>, TokenFault>(seq![(v, v)])) by {
        reveal_with_fuel(range_values, 2);
    }
    // the degenerate range
    let p = n + seq!['-'];
    assert(p.drop_last() =~= n);
    assert(split(p, '-') == split(n, '-').push(Seq::<char>::empty()));
    lemma_split_extend_last(p, n, '-');
    assert(Seq::<char>::empty() + n =~= n);
    assert(split(r, '-') =~= seq![n, n]);
    assert(range_of(r) == Ok::<(usize, usize), TokenFault>((v, v)));
    assert forall|i: int| 0 <= i < r.len() implies r[i] != ',' by {
        if i < n.len() {
            assert(r[i] == n[i]);
        } else if i > n.len() {
            assert(r[i] == n[i - n.len() - 1]);
        }
    }
    lemma_split_without_sep(r, ',');
    assert(seq![r].drop_last() =~= Seq::<Seq<char>>::empty());
    assert(range_values(seq![r]) =~= Ok::<Seq<(usize, usize)>, TokenFault>(seq![(v, v)])) by {
        reveal_with_fuel(range_values, 2);
    }
}

} // verus!
