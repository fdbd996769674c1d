//! Reducing a list of candidate article titles to exactly one.
//!
//! An empty list means there is nothing to select; a singleton is taken as
//! is; a longer list needs one operator choice: a line of input naming a
//! 1-based position.  [`parse_selection`] validates such a line — ASCII
//! whitespace is trimmed, an optional leading `+` is accepted, and the
//! numeral must fall in `[1, len]` — and [`submit_choice`] turns a valid
//! line into the chosen title.  Invalid lines are reported as `None` so the
//! caller can prompt again, as often as it takes.

use vstd::prelude::*;

use crate::ascii::check_digit;
use crate::ascii::check_space;
use crate::ascii::is_digit;
use crate::ascii::is_space;

verus! {

/// The failure of a resolution: the search (or random pick) yielded nothing.
#[derive(Clone, Copy, Debug, PartialEq, Eq, Structural)]
pub enum SelectorError {
    /// No candidate was available to select.
    NoResults,
}

/// What a candidate list determines without operator input.
pub enum Resolution {
    /// The list was empty: nothing to select.
    NoResults,
    /// The list determined the title by itself (exactly one candidate).
    Resolved(String),
    /// More than one candidate: an operator choice is needed.
    NeedsChoice,
}

/// `s` without its leading ASCII whitespace.
pub open spec fn trim_front(s: Seq<u8>) -> Seq<u8>
    decreases s.len(),
{
    if s.len() > 0 && is_space(s[0]) {
        trim_front(s.drop_first())
    } else {
        s
    }
}

/// `s` without its trailing ASCII whitespace.
pub open spec fn trim_back(s: Seq<u8>) -> Seq<u8>
    decreases s.len(),
{
    if s.len() > 0 && is_space(s.last()) {
        trim_back(s.drop_last())
    } else {
        s
    }
}

/// `s` without leading and trailing ASCII whitespace.
pub open spec fn trimmed(s: Seq<u8>) -> Seq<u8> {
    trim_back(trim_front(s))
}

/// Every byte of `s` is a decimal digit.
pub open spec fn all_digits(s: Seq<u8>) -> bool {
    forall|i: int| 0 <= i < s.len() ==> is_digit(#[trigger] s[i])
}

/// The numeral after an optional leading `+` sign.
pub open spec fn numeral_body(s: Seq<u8>) -> Seq<u8> {
    if s.len() > 0 && s[0] == 43 {
        s.drop_first()
    } else {
        s
    }
}

/// Is `s` a well-formed unsigned numeral (after the optional `+`, one or
/// more digits and nothing else)?
pub open spec fn is_numeral(s: Seq<u8>) -> bool {
    numeral_body(s).len() > 0 && all_digits(numeral_body(s))
}

/// The value of a digit string, most significant digit first.
pub open spec fn digits_value(s: Seq<u8>) -> int
    decreases s.len(),
{
    if s.len() == 0 {
        0
    } else {
        digits_value(s.drop_last()) * 10 + (s.last() - 48)
    }
}

/// The selection a line of operator input makes from a list of `k`
/// candidates: `Some` of the 0-based index exactly when the trimmed line is
/// a numeral whose value `n` satisfies `1 <= n <= k`; `None` for anything
/// else (non-numeric text, zero, out of range, signs other than `+`).
pub open spec fn selection_of(line: Seq<u8>, k: int) -> Option<int> {
    let t = trimmed(line);
    if is_numeral(t) {
        let n = digits_value(numeral_body(t));
        if 1 <= n <= k {
            Option::Some(n - 1)
        } else {
            Option::None
        }
    } else {
        Option::None
    }
}

/// A digit string has a non-negative value.
proof fn lemma_digits_value_nonneg(s: Seq<u8>)
    requires
        all_digits(s),
    ensures
        digits_value(s) >= 0,
    decreases s.len(),
{
    if s.len() > 0 {
        assert(all_digits(s.drop_last())) by {
            assert(forall|i: int| 0 <= i < s.len() - 1 ==> is_digit(#[trigger] s[i]));
        }
        lemma_digits_value_nonneg(s.drop_last());
    }
}

/// Where the leading whitespace of `s` ends at `lo`, trimming the front
/// yields the tail from `lo`.
proof fn lemma_trim_front_skip(s: Seq<u8>, lo: int)
    requires
        0 <= lo <= s.len(),
        forall|i: int| 0 <= i < lo ==> is_space(#[trigger] s[i]),
        lo == s.len() || !is_space(s[lo]),
    ensures
        trim_front(s) == s.skip(lo),
    decreases lo,
{
    if lo == 0 {
        assert(s.skip(0) =~= s);
    } else {
        let d = s.drop_first();
        assert forall|i: int| 0 <= i < lo - 1 implies is_space(#[trigger] d[i]) by {
            assert(d[i] == s[i + 1]);
        }
        lemma_trim_front_skip(d, lo - 1);
        assert(d.skip(lo - 1) =~= s.skip(lo));
    }
}

/// Where the trailing whitespace of `s` starts at `hi`, trimming the back
/// yields the front up to `hi`.
proof fn lemma_trim_back_take(s: Seq<u8>, hi: int)
    requires
        0 <= hi <= s.len(),
        forall|i: int| hi <= i < s.len() ==> is_space(#[trigger] s[i]),
        hi == 0 || !is_space(s[hi - 1]),
    ensures
        trim_back(s) == s.take(hi),
    decreases s.len() - hi,
{
    if hi == s.len() {
        assert(s.take(hi) =~= s);
    } else {
        let d = s.drop_last();
        assert(is_space(s.last()));
        assert forall|i: int| hi <= i < d.len() implies is_space(#[trigger] d[i]) by {
            assert(d[i] == s[i]);
        }
        lemma_trim_back_take(d, hi);
        assert(d.take(hi) =~= s.take(hi));
    }
}

/// Validates one line of operator input against a list of `k` candidates:
/// `Some` of the chosen 0-based index exactly when the line selects one.
pub fn parse_selection(line: &[u8], k: usize) -> (r: Option<usize>)
    ensures
        match selection_of(line@, k as int) {
            Option::Some(i) => r matches Some(u) && u as int == i,
            Option::None => r is None,
        },
{
    let n: usize = line.len();
    let mut lo: usize = 0;
    while lo < n && check_space(line[lo])
        invariant
            0 <= lo <= n,
            n == line@.len(),
            forall|i: int| 0 <= i < lo ==> is_space(#[trigger] line@[i]),
        decreases n - lo,
    {
        lo = lo + 1;
    }
    let mut hi: usize = n;
    while hi > lo && check_space(line[hi - 1])
        invariant
            lo <= hi <= n,
            n == line@.len(),
            forall|i: int| 0 <= i < lo ==> is_space(#[trigger] line@[i]),
            lo == n || !is_space(line@[lo as int]),
            forall|i: int| hi <= i < n ==> is_space(#[trigger] line@[i]),
        decreases hi,
    {
        hi = hi - 1;
    }
    let ghost t = trimmed(line@);
    proof {
        lemma_trim_front_skip(line@, lo as int);
        let f = line@.skip(lo as int);
        assert forall|i: int| hi - lo <= i < f.len() implies is_space(#[trigger] f[i]) by {
            assert(f[i] == line@[i + lo]);
        }
        if hi > lo {
            assert(f[hi - lo - 1] == line@[hi - 1]);
        }
        lemma_trim_back_take(f, hi - lo);
        assert(t =~= line@.subrange(lo as int, hi as int));
    }
    // Optional leading '+' sign.
    let mut p: usize = lo;
    if p < hi && line[p] == 43u8 {
        p = p + 1;
    }
    let ghost body = line@.subrange(p as int, hi as int);
    proof {
        assert(body =~= numeral_body(t));
    }
    if p == hi {
        // Empty numeral: not a selection.
        assert(numeral_body(t).len() == 0);
        return None;
    }
    // Scan the digits, accumulating the value; `over` records that the true
    // value no longer fits a usize (and so exceeds any list length).
    let mut val: usize = 0;
    let mut over: bool = false;
    let mut i: usize = p;
    proof {
        assert(body.take(0) =~= Seq::<u8>::empty());
    }
    while i < hi
        invariant
            p <= i <= hi <= line@.len(),
            body == line@.subrange(p as int, hi as int),
            body == numeral_body(trimmed(line@)),
            forall|j: int| 0 <= j < i - p ==> is_digit(#[trigger] body[j]),
            !over ==> val == digits_value(body.take(i - p)),
            over ==> digits_value(body.take(i - p)) > usize::MAX,
        decreases hi - i,
    {
        proof {
            assert(body[i - p] == line@[i as int]);
            assert(body.take(i - p + 1).drop_last() =~= body.take(i - p));
            assert(body.take(i - p + 1).last() == body[i - p]);
        }
        let b: u8 = line[i];
        if !check_digit(b) {
            assert(!is_digit(body[i - p]));
            assert(!all_digits(numeral_body(trimmed(line@))));
            return None;
        }
        let d: usize = (b - 48) as usize;
        proof {
            assert(forall|j: int| 0 <= j < i - p + 1 ==> is_digit(#[trigger] body[j]));
            assert(all_digits(body.take(i - p)));
            lemma_digits_value_nonneg(body.take(i - p));
        }
        if over {
            // The value can only grow further.
        } else {
            match val.checked_mul(10) {
                Option::Some(v10) => {
                    match v10.checked_add(d) {
                        Option::Some(v) => {
                            val = v;
                        },
                        Option::None => {
                            over = true;
                        },
                    }
                },
                Option::None => {
                    over = true;
                },
            }
        }
        i = i + 1;
    }
    proof {
        assert(body.take(hi - p) =~= body);
        assert(all_digits(body));
        assert(is_numeral(t));
    }
    if over {
        // The numeral's value exceeds usize::MAX, hence any list length.
        return None;
    }
    if val >= 1 && val <= k {
        Some(val - 1)
    } else {
        None
    }
}

/// Passes through a title the caller already knows exactly (no search was
/// performed, so there is nothing to disambiguate).
pub fn resolve_direct(title: String) -> (r: String)
    ensures
        r@ == title@,
{
    title
}

/// Accepts a title obtained from a random pick, treating an empty title as
/// "nothing to select".
pub fn resolve_random(title: String) -> (r: Result<String, SelectorError>)
    ensures
        title@.len() == 0 ==> r == Result::<String, SelectorError>::Err(SelectorError::NoResults),
        title@.len() > 0 ==> (r matches Ok(t) && t@ == title@),
{
    if title.as_str().is_empty() {
        Err(SelectorError::NoResults)
    } else {
        Ok(title)
    }
}

/// What a candidate list determines by itself: an empty list yields
/// [`Resolution::NoResults`], a singleton resolves to its only entry, and a
/// longer list asks for an operator choice — in no case is a prompt needed
/// for zero or one candidate.
pub fn resolve_from_candidates(list: &Vec<String>) -> (r: Resolution)
    ensures
        list@.len() == 0 ==> r is NoResults,
        list@.len() == 1 ==> (r matches Resolution::Resolved(t) && t@ == list@[0]@),
        list@.len() > 1 ==> r is NeedsChoice,
{
    if list.len() == 0 {
        Resolution::NoResults
    } else if list.len() == 1 {
        Resolution::Resolved(list[0].clone())
    } else {
        Resolution::NeedsChoice
    }
}

/// One round of the disambiguation loop: validates the operator's line
/// against the list and returns the chosen title, or `None` to re-prompt.
pub fn submit_choice(list: &Vec<String>, line: &[u8]) -> (r: Option<String>)
    ensures
        match selection_of(line@, list@.len() as int) {
            Option::Some(i) => r matches Some(t) && t@ == list@[i]@,
            Option::None => r is None,
        },
{
    match parse_selection(line, list.len()) {
        Option::Some(idx) => Option::Some(list[idx].clone()),
        Option::None => Option::None,
    }
}

} // verus!
