//! Parsing of one-based position specifications (`"1"`, `"3-5"`, `"1,7,3-5"`)
//! into zero-based, end-exclusive ranges, kept in specification order.

use core::ops::Range;
use vstd::prelude::*;
use vstd::string::StrSliceExecFns;
use vstd::string::StringExecFns;

use crate::digits::digits_to_value;
use crate::digits::all_digits;
use crate::digits::dec_chars;
use crate::digits::digits_value;
use crate::digits::is_digit;
use crate::digits::is_digit_seq;
use crate::digits::lemma_dec_chars_value;
use crate::digits::lemma_digits_value_leading_zero;
use crate::digits::to_decimal;

verus! {

/// An ordered list of zero-based, end-exclusive position ranges, kept exactly
/// in the order the specification string gave them: no sorting, no merging,
/// no de-duplication.
pub type PositionList = Vec<Range<usize>>;

/// A well-formed position range: non-empty and not inverted.
pub open spec fn span_wf(r: Range<usize>) -> bool {
    r.start < r.end
}

/// Why a position specification was rejected.
#[derive(Debug)]
pub enum ParseError {
    /// A token that matches neither `DIGITS` nor `DIGITS-DIGITS`, or whose
    /// numeric value is not a positive representable number; carries the
    /// offending token verbatim.
    IllegalValue(String),
    /// A hyphenated range whose lower bound is not strictly below its upper
    /// bound; carries both bounds in one-based form.
    RangeOrder(usize, usize),
}

/// The message that reports an illegal token, quoting it verbatim.
pub open spec fn illegal_value_message(token: Seq<char>) -> Seq<char> {
    "illegal list value: \""@ + token + "\""@
}

/// The message that reports an inverted or empty range, with one-based bounds.
pub open spec fn range_order_message(low: nat, high: nat) -> Seq<char> {
    "First number in range ("@ + dec_chars(low) + ") must be lower than second number ("@
        + dec_chars(high) + ")"@
}

impl ParseError {
    /// Renders the error as the user-facing message.
    pub fn message(&self) -> (m: String)
        ensures
            match self {
                ParseError::IllegalValue(token) => m@ == illegal_value_message(token@),
                ParseError::RangeOrder(low, high) => m@ == range_order_message(
                    *low as nat,
                    *high as nat,
                ),
            },
    {
        match self {
            ParseError::IllegalValue(token) => {
                let mut m = String::new();
                m.append("illegal list value: \"");
                m.append(token.as_str());
                m.append("\"");
                proof {
                    assert(m@ =~= illegal_value_message(token@));
                }
                m
            },
            ParseError::RangeOrder(low, high) => {
                let low_digits = to_decimal(*low);
                let high_digits = to_decimal(*high);
                let mut m = String::new();
                m.append("First number in range (");
                m.append(low_digits.as_str());
                m.append(") must be lower than second number (");
                m.append(high_digits.as_str());
                m.append(")");
                proof {
                    assert(m@ =~= range_order_message(*low as nat, *high as nat));
                }
                m
            },
        }
    }
}

/// The index of the first occurrence of `c` in `s`, or `-1` when absent.
pub open spec fn find_char(s: Seq<char>, c: char) -> int
    decreases s.len(),
{
    if s.len() == 0 {
        -1
    } else if s[0] == c {
        0
    } else {
        let rest = find_char(s.drop_first(), c);
        if rest < 0 {
            -1
        } else {
            rest + 1
        }
    }
}

/// `find_char` names the first occurrence: nothing before it matches, and a
/// result of `-1` means no occurrence at all.
pub proof fn lemma_find_char_spec(s: Seq<char>, c: char)
    ensures
        find_char(s, c) == -1 ==> forall|i: int| 0 <= i < s.len() ==> s[i] != c,
        find_char(s, c) != -1 ==> 0 <= find_char(s, c) < s.len() && s[find_char(s, c)] == c
            && forall|i: int| 0 <= i < find_char(s, c) ==> s[i] != c,
    decreases s.len(),
{
    if s.len() > 0 && s[0] != c {
        lemma_find_char_spec(s.drop_first(), c);
        let rest = find_char(s.drop_first(), c);
        if rest == -1 {
            assert(forall|i: int| 1 <= i < s.len() ==> s[i] == s.drop_first()[i - 1]);
        } else {
            assert(forall|i: int| 1 <= i < rest + 1 ==> s[i] == s.drop_first()[i - 1]);
        }
    }
}

/// Conversely, the first occurrence determines `find_char`.
pub proof fn lemma_find_char_at(s: Seq<char>, c: char, j: int)
    requires
        0 <= j < s.len(),
        s[j] == c,
        forall|i: int| 0 <= i < j ==> s[i] != c,
    ensures
        find_char(s, c) == j,
{
    lemma_find_char_spec(s, c);
}

/// And absence determines a `find_char` of `-1`.
pub proof fn lemma_find_char_none(s: Seq<char>, c: char)
    requires
        forall|i: int| 0 <= i < s.len() ==> s[i] != c,
    ensures
        find_char(s, c) == -1,
{
    lemma_find_char_spec(s, c);
}

/// The comma-separated tokens of a specification string. Splitting is total:
/// an empty string yields one empty token, and `n` commas always yield
/// `n + 1` tokens.
pub open spec fn split_commas(s: Seq<char>) -> Seq<Seq<char>>
    decreases s.len(),
{
    if s.len() == 0 {
        seq![Seq::<char>::empty()]
    } else if s[0] == ',' {
        seq![Seq::<char>::empty()] + split_commas(s.drop_first())
    } else {
        let rest = split_commas(s.drop_first());
        seq![seq![s[0]] + rest[0]] + rest.drop_first()
    }
}

/// Splitting yields at least one token.
pub proof fn lemma_split_commas_nonempty(s: Seq<char>)
    ensures
        split_commas(s).len() >= 1,
    decreases s.len(),
{
    if s.len() > 0 {
        lemma_split_commas_nonempty(s.drop_first());
    }
}

/// A comma-free string is a single token.
pub proof fn lemma_split_commas_whole(s: Seq<char>)
    requires
        forall|i: int| 0 <= i < s.len() ==> s[i] != ',',
    ensures
        split_commas(s) == seq![s],
    decreases s.len(),
{
    if s.len() == 0 {
        assert(split_commas(s) =~~= seq![s]);
    } else {
        assert(forall|i: int| 0 <= i < s.drop_first().len() ==> s.drop_first()[i] != ',');
        lemma_split_commas_whole(s.drop_first());
        lemma_split_commas_nonempty(s.drop_first());
        assert(seq![s[0]] + s.drop_first() =~= s);
        assert(split_commas(s) =~~= seq![s]);
    }
}

/// Splitting distributes over a comma: the tokens of `a,b` are the tokens of
/// `a` followed by the tokens of `b`.
pub proof fn lemma_split_commas_append(a: Seq<char>, b: Seq<char>)
    ensures
        split_commas(a + seq![','] + b) == split_commas(a) + split_commas(b),
    decreases a.len(),
{
    let s = a + seq![','] + b;
    lemma_split_commas_nonempty(b);
    if a.len() == 0 {
        assert(s =~= seq![','] + b);
        assert(s[0] == ',');
        assert(s.drop_first() =~= b);
        assert(split_commas(a) =~= seq![Seq::<char>::empty()]);
        assert(split_commas(s) =~= split_commas(a) + split_commas(b));
    } else {
        assert(s[0] == a[0]);
        assert(s.drop_first() =~= a.drop_first() + seq![','] + b);
        lemma_split_commas_append(a.drop_first(), b);
        lemma_split_commas_nonempty(a.drop_first());
        if a[0] == ',' {
            assert(split_commas(s) =~= split_commas(a) + split_commas(b));
        } else {
            let rest = split_commas(a.drop_first());
            assert((rest + split_commas(b))[0] == rest[0]);
            assert((rest + split_commas(b)).drop_first() =~= rest.drop_first() + split_commas(b));
            assert(split_commas(s) =~= split_commas(a) + split_commas(b));
        }
    }
}

/// Splitting at the first comma: the leading comma-free part is the first
/// token, and the rest splits on its own.
pub proof fn lemma_split_commas_first(s: Seq<char>, j: int)
    requires
        0 <= j < s.len(),
        s[j] == ',',
        forall|i: int| 0 <= i < j ==> s[i] != ',',
    ensures
        split_commas(s) == seq![s.subrange(0, j)] + split_commas(
            s.subrange(j + 1, s.len() as int),
        ),
{
    let a = s.subrange(0, j);
    let b = s.subrange(j + 1, s.len() as int);
    assert(s =~= a + seq![','] + b);
    lemma_split_commas_append(a, b);
    lemma_split_commas_whole(a);
}

/// The outcome of one specification token.
pub enum TokenOutcome {
    /// The token denotes this zero-based, end-exclusive range.
    Span(Range<usize>),
    /// The token is rejected; the echoed text, verbatim.
    Illegal(Seq<char>),
    /// The token is a hyphenated range with these one-based bounds out of
    /// order.
    Order(nat, nat),
}

/// The outcome of a token read with the single-index grammar `DIGITS`:
/// a one-based index `n` becomes the range `[n-1, n)`.
pub open spec fn single_outcome(t: Seq<char>) -> TokenOutcome {
    if is_digit_seq(t) && 1 <= digits_value(t) <= usize::MAX {
        TokenOutcome::Span(
            (Range { start: (digits_value(t) - 1) as usize, end: digits_value(t) as usize }),
        )
    } else {
        TokenOutcome::Illegal(t)
    }
}

/// Whether a token has the shape `DIGITS-DIGITS`.
pub open spec fn hyphen_form(t: Seq<char>) -> bool {
    let k = find_char(t, '-');
    1 <= k && k + 1 < t.len() && is_digit_seq(t.subrange(0, k)) && is_digit_seq(
        t.subrange(k + 1, t.len() as int),
    )
}

/// The outcome of a token read with the hyphenated grammar `DIGITS-DIGITS`:
/// one-based bounds `n1 < n2` become the range `[n1-1, n2)`; bounds out of
/// order are reported as such; a numeral that is zero or too large is
/// rejected with that numeral echoed.
pub open spec fn hyphen_outcome(t: Seq<char>) -> TokenOutcome {
    let k = find_char(t, '-');
    let left = t.subrange(0, k);
    let right = t.subrange(k + 1, t.len() as int);
    if !hyphen_form(t) {
        TokenOutcome::Illegal(t)
    } else if !(1 <= digits_value(left) <= usize::MAX) {
        TokenOutcome::Illegal(left)
    } else if !(1 <= digits_value(right) <= usize::MAX) {
        TokenOutcome::Illegal(right)
    } else if digits_value(left) >= digits_value(right) {
        TokenOutcome::Order(digits_value(left), digits_value(right))
    } else {
        TokenOutcome::Span(
            (Range { start: (digits_value(left) - 1) as usize, end: digits_value(right) as usize }),
        )
    }
}

/// The outcome of one token: the single-index grammar is tried first, the
/// hyphenated grammar second.
pub open spec fn token_outcome(t: Seq<char>) -> TokenOutcome {
    if is_digit_seq(t) {
        single_outcome(t)
    } else {
        hyphen_outcome(t)
    }
}

/// Whether an executable token result reports exactly the given outcome.
pub open spec fn token_result_matches(r: Result<Range<usize>, ParseError>, o: TokenOutcome) -> bool {
    match r {
        Ok(rg) => o == TokenOutcome::Span(rg),
        Err(ParseError::IllegalValue(t)) => o == TokenOutcome::Illegal(t@),
        Err(ParseError::RangeOrder(low, high)) => o == TokenOutcome::Order(low as nat, high as nat),
    }
}

/// The outcome of a whole specification string.
pub enum ParseOutcome {
    /// Every token parsed; its ranges, in specification order.
    Ranges(Seq<Range<usize>>),
    /// The first failing token was rejected; the echoed text, verbatim.
    Illegal(Seq<char>),
    /// The first failing token was a hyphenated range with these one-based
    /// bounds out of order.
    Order(nat, nat),
}

/// Prepends already-parsed ranges to the outcome of the remaining tokens.
pub open spec fn prepend_ranges(rs: Seq<Range<usize>>, o: ParseOutcome) -> ParseOutcome {
    match o {
        ParseOutcome::Ranges(rest) => ParseOutcome::Ranges(rs + rest),
        _ => o,
    }
}

/// The combined outcome of a token list: the ranges of all tokens in their
/// given order, or the error of the first failing token.
pub open spec fn tokens_outcome(ts: Seq<Seq<char>>) -> ParseOutcome
    decreases ts.len(),
{
    if ts.len() == 0 {
        ParseOutcome::Ranges(Seq::empty())
    } else {
        match token_outcome(ts[0]) {
            TokenOutcome::Span(rg) => prepend_ranges(seq![rg], tokens_outcome(ts.drop_first())),
            TokenOutcome::Illegal(t) => ParseOutcome::Illegal(t),
            TokenOutcome::Order(low, high) => ParseOutcome::Order(low, high),
        }
    }
}

/// What parsing a whole specification string yields.
pub open spec fn parse_outcome(s: Seq<char>) -> ParseOutcome {
    tokens_outcome(split_commas(s))
}

/// Whether an executable parse result reports exactly the given outcome.
pub open spec fn parse_result_matches(
    r: Result<Vec<Range<usize>>, ParseError>,
    o: ParseOutcome,
) -> bool {
    match r {
        Ok(pl) => o == ParseOutcome::Ranges(pl@),
        Err(ParseError::IllegalValue(t)) => o == ParseOutcome::Illegal(t@),
        Err(ParseError::RangeOrder(low, high)) => o == ParseOutcome::Order(low as nat, high as nat),
    }
}

/// An all-digits token has no hyphen, so the hyphenated grammar rejects it
/// whole.
proof fn lemma_digit_token_not_hyphen(t: Seq<char>)
    requires
        is_digit_seq(t),
    ensures
        hyphen_outcome(t) == TokenOutcome::Illegal(t),
{
    assert forall|i: int| 0 <= i < t.len() implies t[i] != '-' by {
        assert(is_digit(t[i]));
    }
    lemma_find_char_none(t, '-');
}

/// Parses a one-based index into its zero-based form.
///
/// Accepts exactly the non-empty all-digits tokens whose value is a positive
/// number no greater than `usize::MAX`; everything else is rejected with the
/// token echoed verbatim. A leading `+` is rejected like any other non-digit.
pub fn parse_index(index_text: &str) -> (r: Result<usize, ParseError>)
    ensures
        match r {
            Ok(v) => is_digit_seq(index_text@) && 1 <= digits_value(index_text@) <= usize::MAX
                && v as nat == digits_value(index_text@) - 1,
            Err(e) => !(is_digit_seq(index_text@) && 1 <= digits_value(index_text@) <= usize::MAX)
                && match e {
                ParseError::IllegalValue(t) => t@ == index_text@,
                ParseError::RangeOrder(_, _) => false,
            },
        },
{
    if index_text.unicode_len() == 0 || !all_digits(index_text) {
        return Err(ParseError::IllegalValue(index_text.to_owned()));
    }
    match digits_to_value(index_text) {
        None => Err(ParseError::IllegalValue(index_text.to_owned())),
        Some(v) => {
            if v == 0 {
                Err(ParseError::IllegalValue(index_text.to_owned()))
            } else {
                Ok(v - 1)
            }
        },
    }
}

/// Parses a token of the single-index grammar `DIGITS`.
pub fn parse_single_digit_position(value: &str) -> (r: Result<Range<usize>, ParseError>)
    ensures
        token_result_matches(r, single_outcome(value@)),
{
    match parse_index(value) {
        Err(e) => Err(e),
        Ok(n) => Ok(Range { start: n, end: n + 1 }),
    }
}

/// Finds the first hyphen of the token, matching `find_char`.
fn find_dash(s: &str) -> (r: Option<usize>)
    ensures
        match r {
            Some(k) => find_char(s@, '-') == k as int,
            None => find_char(s@, '-') == -1,
        },
{
    let n = s.unicode_len();
    let mut i: usize = 0;
    while i < n
        invariant
            i <= n,
            n == s@.len(),
            forall|j: int| 0 <= j < i ==> s@[j] != '-',
        decreases n - i,
    {
        let c = s.get_char(i);
        if c == '-' {
            proof {
                lemma_find_char_at(s@, '-', i as int);
            }
            return Some(i);
        }
        i = i + 1;
    }
    proof {
        lemma_find_char_none(s@, '-');
    }
    None
}

/// Parses a token of the hyphenated grammar `DIGITS-DIGITS`.
pub fn parse_hyphenated_position(value: &str) -> (r: Result<Range<usize>, ParseError>)
    ensures
        token_result_matches(r, hyphen_outcome(value@)),
{
    let n = value.unicode_len();
    let k = match find_dash(value) {
        None => {
            return Err(ParseError::IllegalValue(value.to_owned()));
        },
        Some(k) => k,
    };
    proof {
        lemma_find_char_spec(value@, '-');
    }
    if k < 1 || k + 1 >= n {
        return Err(ParseError::IllegalValue(value.to_owned()));
    }
    let left = value.substring_char(0, k);
    let right = value.substring_char(k + 1, n);
    if !all_digits(left) || !all_digits(right) {
        return Err(ParseError::IllegalValue(value.to_owned()));
    }
    let v1 = match digits_to_value(left) {
        None => {
            return Err(ParseError::IllegalValue(left.to_owned()));
        },
        Some(v) => v,
    };
    if v1 == 0 {
        return Err(ParseError::IllegalValue(left.to_owned()));
    }
    let v2 = match digits_to_value(right) {
        None => {
            return Err(ParseError::IllegalValue(right.to_owned()));
        },
        Some(v) => v,
    };
    if v2 == 0 {
        return Err(ParseError::IllegalValue(right.to_owned()));
    }
    if v1 >= v2 {
        return Err(ParseError::RangeOrder(v1, v2));
    }
    Ok(Range { start: v1 - 1, end: v2 })
}

/// Splits the specification string at commas, matching `split_commas`.
fn comma_tokens(s: &str) -> (tokens: Vec<String>)
    ensures
        tokens.deep_view() == split_commas(s@),
{
    let n = s.unicode_len();
    let mut tokens: Vec<String> = Vec::new();
    let mut start: usize = 0;
    let mut i: usize = 0;
    proof {
        assert(tokens.deep_view() =~= Seq::<Seq<char>>::empty());
        assert(s@.subrange(0, n as int) =~= s@);
        assert(tokens.deep_view() + split_commas(s@) =~= split_commas(s@));
    }
    while i < n
        invariant
            start <= i <= n,
            n == s@.len(),
            forall|j: int| start <= j < i ==> s@[j] != ',',
            split_commas(s@) == tokens.deep_view() + split_commas(
                s@.subrange(start as int, n as int),
            ),
        decreases n - i,
    {
        let c = s.get_char(i);
        if c == ',' {
            let tok = s.substring_char(start, i).to_owned();
            let ghost prev = tokens.deep_view();
            tokens.push(tok);
            proof {
                let suffix = s@.subrange(start as int, n as int);
                assert(suffix[i - start] == ',');
                assert(forall|j: int| 0 <= j < i - start ==> suffix[j] != ',');
                lemma_split_commas_first(suffix, i - start);
                assert(suffix.subrange(0, i - start) =~= s@.subrange(start as int, i as int));
                assert(suffix.subrange(i - start + 1, suffix.len() as int) =~= s@.subrange(
                    i as int + 1,
                    n as int,
                ));
                assert(tokens.deep_view() =~= prev.push(tok@));
                assert(tokens.deep_view() + split_commas(s@.subrange(i as int + 1, n as int)) =~=
                    split_commas(s@));
            }
            start = i + 1;
        }
        i = i + 1;
    }
    let tok = s.substring_char(start, n).to_owned();
    let ghost prev = tokens.deep_view();
    tokens.push(tok);
    proof {
        lemma_split_commas_whole(s@.subrange(start as int, n as int));
        assert(tokens.deep_view() =~= prev.push(tok@));
        assert(tokens.deep_view() =~= split_commas(s@));
    }
    tokens
}

/// Parses a comma-separated position specification into an ordered list of
/// zero-based, end-exclusive ranges.
///
/// Each token is read with the single-index grammar first and the hyphenated
/// grammar second; the first failing token aborts the whole parse with that
/// token's error, and no partial list is returned.
pub fn parse_position(position_text: String) -> (r: Result<PositionList, ParseError>)
    ensures
        parse_result_matches(r, parse_outcome(position_text@)),
{
    let tokens = comma_tokens(position_text.as_str());
    let ghost all = split_commas(position_text@);
    let mut ranges: Vec<Range<usize>> = Vec::new();
    let mut i: usize = 0;
    proof {
        assert(all.skip(0) =~= all);
        match tokens_outcome(all) {
            ParseOutcome::Ranges(x) => {
                assert(ranges@ + x =~= x);
            },
            _ => {},
        }
    }
    while i < tokens.len()
        invariant
            i <= tokens.len(),
            all == split_commas(position_text@),
            tokens.deep_view() == all,
            tokens_outcome(all) == prepend_ranges(ranges@, tokens_outcome(all.skip(i as int))),
        decreases tokens.len() - i,
    {
        let token = &tokens[i];
        let parsed = match parse_single_digit_position(token.as_str()) {
            Ok(rg) => Ok(rg),
            Err(_) => parse_hyphenated_position(token.as_str()),
        };
        proof {
            assert(all[i as int] == token@);
            if is_digit_seq(token@) {
                lemma_digit_token_not_hyphen(token@);
            }
            assert(token_result_matches(parsed, token_outcome(token@)));
            let rest = all.skip(i as int);
            assert(rest.len() > 0);
            assert(rest[0] == all[i as int]);
            assert(rest.drop_first() =~= all.skip(i as int + 1));
        }
        match parsed {
            Ok(rg) => {
                let ghost prev = ranges@;
                ranges.push(rg);
                proof {
                    match tokens_outcome(all.skip(i as int + 1)) {
                        ParseOutcome::Ranges(x) => {
                            assert(prev + (seq![rg] + x) =~= ranges@ + x);
                        },
                        _ => {},
                    }
                }
            },
            Err(e) => {
                proof {
                    let rest = all.skip(i as int);
                    match &e {
                        ParseError::IllegalValue(t) => {
                            assert(tokens_outcome(rest) == ParseOutcome::Illegal(t@));
                        },
                        ParseError::RangeOrder(low, high) => {
                            assert(tokens_outcome(rest) == ParseOutcome::Order(
                                low as nat,
                                high as nat,
                            ));
                        },
                    }
                }
                return Err(e);
            },
        }
        i = i + 1;
    }
    proof {
        assert(all.skip(tokens.len() as int) =~= Seq::<Seq<char>>::empty());
        assert(ranges@ + Seq::<Range<usize>>::empty() =~= ranges@);
    }
    Ok(ranges)
}

/// A comma-free token that parses alone parses the same as a whole
/// specification.
proof fn lemma_one_token(t: Seq<char>, rg: Range<usize>)
    requires
        forall|i: int| 0 <= i < t.len() ==> t[i] != ',',
        token_outcome(t) == TokenOutcome::Span(rg),
    ensures
        parse_outcome(t) == ParseOutcome::Ranges(seq![rg]),
{
    lemma_split_commas_whole(t);
    assert(seq![t].drop_first() =~= Seq::<Seq<char>>::empty());
    assert(tokens_outcome(Seq::<Seq<char>>::empty()) == ParseOutcome::Ranges(
        Seq::<Range<usize>>::empty(),
    ));
    assert(seq![t][0] == t);
    assert(seq![rg] + Seq::<Range<usize>>::empty() =~= seq![rg]);
}

/// Law: for every valid single-index token, the numeral `n` (with `n >= 1`)
/// parses to exactly the one range `[n-1, n)`.
pub proof fn lemma_parse_single_index(t: Seq<char>)
    requires
        is_digit_seq(t),
        1 <= digits_value(t) <= usize::MAX,
    ensures
        parse_outcome(t) == ParseOutcome::Ranges(
            seq![
                (Range { start: (digits_value(t) - 1) as usize, end: digits_value(t) as usize }),
            ],
        ),
{
    assert forall|i: int| 0 <= i < t.len() implies t[i] != ',' by {
        assert(is_digit(t[i]));
    }
    lemma_one_token(
        t,
        Range { start: (digits_value(t) - 1) as usize, end: digits_value(t) as usize },
    );
}

/// Law: for every valid range token `n1-n2` with `1 <= n1 < n2`, the token
/// parses to exactly the one range `[n1-1, n2)`.
pub proof fn lemma_parse_range_token(d1: Seq<char>, d2: Seq<char>)
    requires
        is_digit_seq(d1),
        is_digit_seq(d2),
        1 <= digits_value(d1) <= usize::MAX,
        digits_value(d2) <= usize::MAX,
        digits_value(d1) < digits_value(d2),
    ensures
        parse_outcome(d1 + seq!['-'] + d2) == ParseOutcome::Ranges(
            seq![
                (Range {
                    start: (digits_value(d1) - 1) as usize,
                    end: digits_value(d2) as usize,
                }),
            ],
        ),
{
    let t = d1 + seq!['-'] + d2;
    assert forall|i: int| 0 <= i < t.len() implies t[i] != ',' by {
        if i < d1.len() {
            assert(is_digit(d1[i]));
        } else if i == d1.len() {
            assert(t[i] == '-');
        } else {
            assert(is_digit(d2[i - d1.len() - 1]));
        }
    }
    assert(t[d1.len() as int] == '-');
    assert(!is_digit(t[d1.len() as int]));
    assert(!is_digit_seq(t));
    assert forall|i: int| 0 <= i < d1.len() implies t[i] != '-' by {
        assert(t[i] == d1[i] && is_digit(d1[i]));
    }
    lemma_find_char_at(t, '-', d1.len() as int);
    assert(t.subrange(0, d1.len() as int) =~= d1);
    assert(t.subrange(d1.len() as int + 1, t.len() as int) =~= d2);
    assert(hyphen_form(t));
    lemma_one_token(
        t,
        Range { start: (digits_value(d1) - 1) as usize, end: digits_value(d2) as usize },
    );
}

/// Law: leading zeros are insignificant for a valid single-index token;
/// `0n` parses exactly as `n` does.
pub proof fn lemma_leading_zero_single(t: Seq<char>)
    requires
        is_digit_seq(t),
        1 <= digits_value(t) <= usize::MAX,
    ensures
        parse_outcome(seq!['0'] + t) == parse_outcome(t),
{
    lemma_digits_value_leading_zero(t);
    assert(is_digit('0'));
    assert(forall|i: int| 0 <= i < t.len() ==> is_digit(t[i]));
    assert forall|i: int| 0 <= i < (seq!['0'] + t).len() implies is_digit((seq!['0'] + t)[i]) by {
        if i > 0 {
            assert((seq!['0'] + t)[i] == t[i - 1]);
        }
    }
    lemma_parse_single_index(t);
    lemma_parse_single_index(seq!['0'] + t);
}

/// Law: leading zeros are insignificant for a valid range token; padding
/// either numeral with `'0'` leaves the parsed range unchanged.
pub proof fn lemma_leading_zero_range(d1: Seq<char>, d2: Seq<char>)
    requires
        is_digit_seq(d1),
        is_digit_seq(d2),
        1 <= digits_value(d1) <= usize::MAX,
        digits_value(d2) <= usize::MAX,
        digits_value(d1) < digits_value(d2),
    ensures
        parse_outcome((seq!['0'] + d1) + seq!['-'] + d2) == parse_outcome(d1 + seq!['-'] + d2),
        parse_outcome(d1 + seq!['-'] + (seq!['0'] + d2)) == parse_outcome(d1 + seq!['-'] + d2),
{
    lemma_digits_value_leading_zero(d1);
    lemma_digits_value_leading_zero(d2);
    assert(is_digit('0'));
    assert forall|i: int| 0 <= i < (seq!['0'] + d1).len() implies is_digit((seq!['0'] + d1)[i]) by {
        if i > 0 {
            assert((seq!['0'] + d1)[i] == d1[i - 1]);
        }
    }
    assert forall|i: int| 0 <= i < (seq!['0'] + d2).len() implies is_digit((seq!['0'] + d2)[i]) by {
        if i > 0 {
            assert((seq!['0'] + d2)[i] == d2[i - 1]);
        }
    }
    lemma_parse_range_token(d1, d2);
    lemma_parse_range_token(seq!['0'] + d1, d2);
    lemma_parse_range_token(d1, seq!['0'] + d2);
}

/// Token lists that both succeed combine in order.
proof fn lemma_tokens_outcome_append(
    ta: Seq<Seq<char>>,
    tb: Seq<Seq<char>>,
    ra: Seq<Range<usize>>,
    rb: Seq<Range<usize>>,
)
    requires
        tokens_outcome(ta) == ParseOutcome::Ranges(ra),
        tokens_outcome(tb) == ParseOutcome::Ranges(rb),
    ensures
        tokens_outcome(ta + tb) == ParseOutcome::Ranges(ra + rb),
    decreases ta.len(),
{
    if ta.len() == 0 {
        assert(ta + tb =~= tb);
        assert(ra =~= Seq::<Range<usize>>::empty());
        assert(ra + rb =~= rb);
    } else {
        match token_outcome(ta[0]) {
            TokenOutcome::Span(rg) => {
                match tokens_outcome(ta.drop_first()) {
                    ParseOutcome::Ranges(ra2) => {
                        lemma_tokens_outcome_append(ta.drop_first(), tb, ra2, rb);
                        assert((ta + tb).drop_first() =~= ta.drop_first() + tb);
                        assert((ta + tb)[0] == ta[0]);
                        assert(seq![rg] + (ra2 + rb) =~= (seq![rg] + ra2) + rb);
                        assert(ra =~= seq![rg] + ra2);
                    },
                    _ => {
                        assert(false);
                    },
                }
            },
            _ => {
                assert(false);
            },
        }
    }
}

/// Law: list order is preserved and tokens are independent. When two
/// specifications both parse, their comma-joined concatenation parses to the
/// two range lists concatenated in that same order.
pub proof fn lemma_parse_append(
    a: Seq<char>,
    b: Seq<char>,
    ra: Seq<Range<usize>>,
    rb: Seq<Range<usize>>,
)
    requires
        parse_outcome(a) == ParseOutcome::Ranges(ra),
        parse_outcome(b) == ParseOutcome::Ranges(rb),
    ensures
        parse_outcome(a + seq![','] + b) == ParseOutcome::Ranges(ra + rb),
{
    lemma_split_commas_append(a, b);
    lemma_tokens_outcome_append(split_commas(a), split_commas(b), ra, rb);
}

/// Token lists yield only well-formed spans.
proof fn lemma_tokens_outcome_spans_wf(ts: Seq<Seq<char>>, rs: Seq<Range<usize>>)
    requires
        tokens_outcome(ts) == ParseOutcome::Ranges(rs),
    ensures
        forall|i: int| 0 <= i < rs.len() ==> span_wf(#[trigger] rs[i]),
    decreases ts.len(),
{
    if ts.len() > 0 {
        match token_outcome(ts[0]) {
            TokenOutcome::Span(rg) => {
                assert(span_wf(rg));
                match tokens_outcome(ts.drop_first()) {
                    ParseOutcome::Ranges(rest) => {
                        lemma_tokens_outcome_spans_wf(ts.drop_first(), rest);
                        assert(rs =~= seq![rg] + rest);
                        assert(forall|i: int| 1 <= i < rs.len() ==> rs[i] == rest[i - 1]);
                    },
                    _ => {
                        assert(false);
                    },
                }
            },
            _ => {
                assert(false);
            },
        }
    }
}

/// Law: validation happens at parse time, never later. Every range of a
/// successful parse is well-formed: no empty or inverted range enters a
/// `PositionList`.
pub proof fn lemma_parse_spans_wf(s: Seq<char>, rs: Seq<Range<usize>>)
    requires
        parse_outcome(s) == ParseOutcome::Ranges(rs),
    ensures
        forall|i: int| 0 <= i < rs.len() ==> span_wf(#[trigger] rs[i]),
{
    lemma_tokens_outcome_spans_wf(split_commas(s), rs);
}

/// The canonical one-based rendering of one range: the single numeral
/// `start+1` when the range holds one position, `start+1`-`end` otherwise.
pub open spec fn render_span(r: Range<usize>) -> Seq<char> {
    if r.end == r.start + 1 {
        dec_chars((r.start + 1) as nat)
    } else {
        dec_chars((r.start + 1) as nat) + seq!['-'] + dec_chars(r.end as nat)
    }
}

/// The canonical rendering of a position list: its ranges, comma-separated,
/// in list order.
pub open spec fn render_list(rs: Seq<Range<usize>>) -> Seq<char>
    decreases rs.len(),
{
    if rs.len() == 0 {
        Seq::empty()
    } else if rs.len() == 1 {
        render_span(rs[0])
    } else {
        render_span(rs[0]) + seq![','] + render_list(rs.drop_first())
    }
}

/// One numeral of the rendering, parsed back, gives its value.
proof fn lemma_span_roundtrip(r: Range<usize>)
    requires
        span_wf(r),
    ensures
        parse_outcome(render_span(r)) == ParseOutcome::Ranges(seq![r]),
{
    let v1 = (r.start + 1) as nat;
    lemma_dec_chars_value(v1);
    if r.end == r.start + 1 {
        lemma_parse_single_index(dec_chars(v1));
        assert(Range { start: (v1 - 1) as usize, end: v1 as usize } == r);
    } else {
        let v2 = r.end as nat;
        lemma_dec_chars_value(v2);
        lemma_parse_range_token(dec_chars(v1), dec_chars(v2));
        assert(Range { start: (v1 - 1) as usize, end: v2 as usize } == r);
    }
}

/// Law: idempotence of the canonical rendering. Re-parsing the one-based
/// rendering of a non-empty list of well-formed ranges reproduces exactly
/// the same ranges.
pub proof fn lemma_render_roundtrip(rs: Seq<Range<usize>>)
    requires
        rs.len() >= 1,
        forall|i: int| 0 <= i < rs.len() ==> span_wf(#[trigger] rs[i]),
    ensures
        parse_outcome(render_list(rs)) == ParseOutcome::Ranges(rs),
    decreases rs.len(),
{
    lemma_span_roundtrip(rs[0]);
    if rs.len() == 1 {
        assert(seq![rs[0]] =~= rs);
    } else {
        lemma_render_roundtrip(rs.drop_first());
        lemma_parse_append(
            render_span(rs[0]),
            render_list(rs.drop_first()),
            seq![rs[0]],
            rs.drop_first(),
        );
        assert(seq![rs[0]] + rs.drop_first() =~= rs);
    }
}

/// Renders a position list canonically: one-based, comma-separated, in list
/// order, so that `parse_position` accepts it back unchanged.
pub fn render_position_list(position_list: &[Range<usize>]) -> (s: String)
    requires
        forall|i: int| 0 <= i < position_list@.len() ==> span_wf(#[trigger] position_list@[i]),
    ensures
        s@ == render_list(position_list@),
{
    let n = position_list.len();
    let mut out = String::new();
    let mut i: usize = 0;
    proof {
        assert(position_list@.skip(0) =~= position_list@);
    }
    while i < n
        invariant
            i <= n,
            n == position_list@.len(),
            forall|j: int| 0 <= j < position_list@.len() ==> span_wf(#[trigger] position_list@[j]),
            render_list(position_list@) == out@ + render_list(position_list@.skip(i as int)),
        decreases n - i,
    {
        let ghost before = out@;
        let ghost rest = position_list@.skip(i as int);
        proof {
            assert(rest.len() == n - i);
            assert(rest[0] == position_list@[i as int]);
            assert(rest.drop_first() =~= position_list@.skip(i as int + 1));
        }
        let r = &position_list[i];
        let start_digits = to_decimal(r.start + 1);
        out.append(start_digits.as_str());
        if r.end != r.start + 1 {
            out.append("-");
            let end_digits = to_decimal(r.end);
            out.append(end_digits.as_str());
            proof {
                reveal_strlit("-");
                assert("-"@ =~= seq!['-']);
                assert(out@ =~= before + render_span(position_list@[i as int]));
            }
        } else {
            proof {
                assert(out@ =~= before + render_span(position_list@[i as int]));
            }
        }
        if i + 1 < n {
            out.append(",");
            proof {
                reveal_strlit(",");
                assert(","@ =~= seq![',']);
                assert(render_list(rest) == render_span(rest[0]) + seq![','] + render_list(
                    rest.drop_first(),
                ));
                assert(out@ + render_list(position_list@.skip(i as int + 1)) =~= before
                    + render_list(rest));
            }
        } else {
            proof {
                assert(render_list(rest) == render_span(rest[0]));
                assert(position_list@.skip(i as int + 1) =~= Seq::<Range<usize>>::empty());
                assert(out@ + render_list(position_list@.skip(i as int + 1)) =~= before
                    + render_list(rest));
            }
        }
        i = i + 1;
    }
    proof {
        assert(position_list@.skip(n as int) =~= Seq::<Range<usize>>::empty());
        assert(out@ + render_list(Seq::<Range<usize>>::empty()) =~= out@);
    }
    out
}

} // verus!
