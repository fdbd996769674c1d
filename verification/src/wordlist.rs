//! The wordlist pipeline: tokenize article text on whitespace, keep the
//! tokens the filter policy admits, strip every non-alphanumeric byte, sort
//! byte-wise ascending, collapse runs of ASCII case-insensitive duplicates
//! (keeping the first of each run), and optionally truncate to a maximum
//! count.  [`build`] returns the word sequence, [`build_output`] the rendered
//! file body with one word per `\n`-terminated line.

use vstd::prelude::*;

use crate::ascii::check_alnum;
use crate::ascii::check_space;
use crate::ascii::is_alnum;
use crate::ascii::is_space;
use crate::order::bytes_ci_eq;
use crate::order::bytes_le;
use crate::order::ci_eq;
use crate::order::lex_le;
use crate::order::lemma_lex_le_total;
use crate::order::lemma_lex_le_trans;

verus! {

/// Which whitespace-delimited tokens enter the wordlist.  The inherited rule
/// is [`FilterPolicy::RequireSymbol`]: a token qualifies only if it is at
/// least five bytes long *and* carries at least one non-alphanumeric byte
/// (something for normalization to strip).  [`FilterPolicy::LengthOnly`] is
/// the documented relaxation: any token of at least five bytes qualifies,
/// whether or not it carries a symbol.
#[derive(Clone, Copy, Debug, PartialEq, Eq, Structural)]
pub enum FilterPolicy {
    /// Keep a token only if it is >= 5 bytes long and contains a
    /// non-alphanumeric byte.
    RequireSymbol,
    /// Keep every token that is >= 5 bytes long.
    LengthOnly,
}

/// Does token `t` pass the filter under `policy`?
pub open spec fn qualifies(t: Seq<u8>, policy: FilterPolicy) -> bool {
    t.len() >= 5 && (policy is LengthOnly || exists|i: int| 0 <= i < t.len() && !is_alnum(t[i]))
}

/// A token with every byte outside `0-9A-Za-z` removed.
pub open spec fn normalize(t: Seq<u8>) -> Seq<u8> {
    t.filter(|b: u8| is_alnum(b))
}

/// Helper for [`tokens_of`]: splits `s` on whitespace runs, `cur` being the
/// (possibly empty) token in progress.
pub open spec fn tokens_go(s: Seq<u8>, cur: Seq<u8>) -> Seq<Seq<u8>>
    decreases s.len(),
{
    if s.len() == 0 {
        if cur.len() == 0 {
            Seq::empty()
        } else {
            seq![cur]
        }
    } else if is_space(s[0]) {
        if cur.len() == 0 {
            tokens_go(s.drop_first(), Seq::empty())
        } else {
            seq![cur] + tokens_go(s.drop_first(), Seq::empty())
        }
    } else {
        tokens_go(s.drop_first(), cur.push(s[0]))
    }
}

/// The whitespace-delimited tokens of `s`, in order of appearance.
pub open spec fn tokens_of(s: Seq<u8>) -> Seq<Seq<u8>> {
    tokens_go(s, Seq::empty())
}

/// Helper for [`selected_words`]: of a token list, the normalizations of the
/// qualifying tokens, skipping those that normalize to nothing.
pub open spec fn select_go(ts: Seq<Seq<u8>>, policy: FilterPolicy) -> Seq<Seq<u8>>
    decreases ts.len(),
{
    if ts.len() == 0 {
        Seq::empty()
    } else if qualifies(ts[0], policy) && normalize(ts[0]).len() > 0 {
        seq![normalize(ts[0])] + select_go(ts.drop_first(), policy)
    } else {
        select_go(ts.drop_first(), policy)
    }
}

/// The normalized qualifying words of `content`, in order of appearance,
/// before sorting and deduplication.
pub open spec fn selected_words(content: Seq<u8>, policy: FilterPolicy) -> Seq<Seq<u8>> {
    select_go(tokens_of(content), policy)
}

/// Insertion of `x` into `s` directly before the first element that `x`
/// precedes or equals; on a sorted `s` this keeps it sorted.
pub open spec fn insert_lex(x: Seq<u8>, s: Seq<Seq<u8>>) -> Seq<Seq<u8>>
    decreases s.len(),
{
    if s.len() == 0 {
        seq![x]
    } else if lex_le(x, s[0]) {
        seq![x] + s
    } else {
        seq![s[0]] + insert_lex(x, s.drop_first())
    }
}

/// Helper for [`sort_lex`]: inserts the elements of `s` one by one into the
/// already-sorted `acc`.
pub open spec fn sort_go(s: Seq<Seq<u8>>, acc: Seq<Seq<u8>>) -> Seq<Seq<u8>>
    decreases s.len(),
{
    if s.len() == 0 {
        acc
    } else {
        sort_go(s.drop_first(), insert_lex(s[0], acc))
    }
}

/// The elements of `s` rearranged into byte-wise lexicographic ascending
/// order (insertion sort; duplicates are kept).
pub open spec fn sort_lex(s: Seq<Seq<u8>>) -> Seq<Seq<u8>> {
    sort_go(s, Seq::empty())
}

/// Non-decreasing byte-wise lexicographic order, every pair.
pub open spec fn sorted_lex(s: Seq<Seq<u8>>) -> bool {
    forall|i: int, j: int| 0 <= i < j < s.len() ==> #[trigger] lex_le(s[i], s[j])
}

/// Helper for [`dedup_ci`]: drops elements while they compare
/// case-insensitively equal to the last kept element `rep`.
pub open spec fn dedup_go(s: Seq<Seq<u8>>, rep: Seq<u8>) -> Seq<Seq<u8>>
    decreases s.len(),
{
    if s.len() == 0 {
        Seq::empty()
    } else if ci_eq(s[0], rep) {
        dedup_go(s.drop_first(), rep)
    } else {
        seq![s[0]] + dedup_go(s.drop_first(), s[0])
    }
}

/// Collapses each run of ASCII case-insensitively equal adjacent elements to
/// its first element.  This is run-collapsing, not set-based deduplication:
/// equal-under-folding elements that are not adjacent both survive.
pub open spec fn dedup_ci(s: Seq<Seq<u8>>) -> Seq<Seq<u8>> {
    if s.len() == 0 {
        Seq::empty()
    } else {
        seq![s[0]] + dedup_go(s.drop_first(), s[0])
    }
}

/// The deduplicated sorted wordlist of `content`, before any truncation.
pub open spec fn distinct_words(content: Seq<u8>, policy: FilterPolicy) -> Seq<Seq<u8>> {
    dedup_ci(sort_lex(selected_words(content, policy)))
}

/// The final wordlist: [`distinct_words`], truncated to the first
/// `max_count` entries when a bound is given.
pub open spec fn final_words(
    content: Seq<u8>,
    policy: FilterPolicy,
    max_count: Option<usize>,
) -> Seq<Seq<u8>> {
    let d = distinct_words(content, policy);
    match max_count {
        Option::Some(n) => if d.len() <= n {
            d
        } else {
            d.take(n as int)
        },
        Option::None => d,
    }
}

/// The file body for a wordlist: each word followed by one line feed.
pub open spec fn rendered(ws: Seq<Seq<u8>>) -> Seq<u8>
    decreases ws.len(),
{
    if ws.len() == 0 {
        Seq::empty()
    } else {
        ws[0] + seq![10u8] + rendered(ws.drop_first())
    }
}

/// Splits `content` into whitespace-delimited tokens.
pub fn tokenize(content: &[u8]) -> (r: Vec<Vec<u8>>)
    ensures
        r.deep_view() == tokens_of(content@),
{
    let n: usize = content.len();
    let mut out: Vec<Vec<u8>> = Vec::new();
    let mut cur: Vec<u8> = Vec::new();
    let mut i: usize = 0;
    proof {
        assert(content@.skip(0) =~= content@);
        assert(out.deep_view() =~~= Seq::<Seq<u8>>::empty());
        assert(cur@ =~= Seq::<u8>::empty());
    }
    while i < n
        invariant
            0 <= i <= n,
            n == content@.len(),
            tokens_of(content@) == out.deep_view() + tokens_go(content@.skip(i as int), cur@),
        decreases n - i,
    {
        let ghost rest = content@.skip(i as int);
        proof {
            assert(rest.drop_first() =~= content@.skip(i as int + 1));
            assert(rest[0] == content@[i as int]);
        }
        let b: u8 = content[i];
        if check_space(b) {
            if cur.len() > 0 {
                let ghost old_out = out.deep_view();
                let ghost old_cur = cur@;
                let finished = cur;
                cur = Vec::new();
                out.push(finished);
                proof {
                    assert(cur@ =~= Seq::<u8>::empty());
                    assert(out.deep_view() =~~= old_out.push(old_cur));
                    assert(out.deep_view() + tokens_go(content@.skip(i as int + 1), cur@)
                        =~= old_out + (seq![old_cur] + tokens_go(rest.drop_first(), Seq::empty())));
                }
            } else {
                proof {
                    assert(cur@ =~= Seq::<u8>::empty());
                }
            }
        } else {
            let ghost old_cur = cur@;
            cur.push(b);
            proof {
                assert(cur@ == old_cur.push(content@[i as int]));
            }
        }
        i = i + 1;
    }
    proof {
        assert(content@.skip(n as int) =~= Seq::<u8>::empty());
    }
    if cur.len() > 0 {
        let ghost old_out = out.deep_view();
        let ghost old_cur = cur@;
        out.push(cur);
        proof {
            assert(out.deep_view() =~~= old_out.push(old_cur));
            assert(out.deep_view() =~~= old_out + seq![old_cur]);
        }
    } else {
        proof {
            assert(out.deep_view() + Seq::<Seq<u8>>::empty() =~= out.deep_view());
        }
    }
    out
}

/// Runtime test for [`qualifies`].
pub fn token_qualifies(t: &[u8], policy: FilterPolicy) -> (r: bool)
    ensures
        r == qualifies(t@, policy),
{
    if t.len() < 5 {
        return false;
    }
    match policy {
        FilterPolicy::LengthOnly => true,
        FilterPolicy::RequireSymbol => {
            let n: usize = t.len();
            let mut i: usize = 0;
            while i < n
                invariant
                    0 <= i <= n,
                    n == t@.len(),
                    n >= 5,
                    policy == FilterPolicy::RequireSymbol,
                    forall|k: int| 0 <= k < i ==> is_alnum(t@[k]),
                decreases n - i,
            {
                if !check_alnum(t[i]) {
                    assert(!is_alnum(t@[i as int]));
                    assert(exists|k: int| 0 <= k < t@.len() && !is_alnum(t@[k]));
                    return true;
                }
                i = i + 1;
            }
            false
        },
    }
}

/// One step of [`normalize`]: appending a byte keeps it exactly when it is
/// alphanumeric.
proof fn lemma_normalize_step(s: Seq<u8>, b: u8)
    ensures
        normalize(s.push(b)) == if is_alnum(b) {
            normalize(s).push(b)
        } else {
            normalize(s)
        },
{
    reveal(Seq::filter);
    assert(s.push(b).drop_last() =~= s);
    assert(s.push(b).last() == b);
}

/// Normalizing the empty token yields the empty word.
proof fn lemma_normalize_empty()
    ensures
        normalize(Seq::<u8>::empty()) == Seq::<u8>::empty(),
{
    reveal(Seq::filter);
}

/// Strips every non-alphanumeric byte from a token.
pub fn normalize_token(t: &[u8]) -> (r: Vec<u8>)
    ensures
        r@ == normalize(t@),
{
    let n: usize = t.len();
    let mut out: Vec<u8> = Vec::new();
    let mut i: usize = 0;
    proof {
        assert(t@.take(0) =~= Seq::<u8>::empty());
        lemma_normalize_empty();
    }
    while i < n
        invariant
            0 <= i <= n,
            n == t@.len(),
            out@ == normalize(t@.take(i as int)),
        decreases n - i,
    {
        proof {
            assert(t@.take(i as int + 1) =~= t@.take(i as int).push(t@[i as int]));
            lemma_normalize_step(t@.take(i as int), t@[i as int]);
        }
        if check_alnum(t[i]) {
            out.push(t[i]);
        }
        i = i + 1;
    }
    proof {
        assert(t@.take(n as int) =~= t@);
    }
    out
}

/// Applies the filter and normalization to every token, in order.
pub fn select_words(tokens: &Vec<Vec<u8>>, policy: FilterPolicy) -> (r: Vec<Vec<u8>>)
    ensures
        r.deep_view() == select_go(tokens.deep_view(), policy),
{
    let m: usize = tokens.len();
    let mut out: Vec<Vec<u8>> = Vec::new();
    let mut i: usize = 0;
    proof {
        assert(tokens.deep_view().skip(0) =~~= tokens.deep_view());
        assert(out.deep_view() =~~= Seq::<Seq<u8>>::empty());
    }
    while i < m
        invariant
            0 <= i <= m,
            m == tokens@.len(),
            select_go(tokens.deep_view(), policy) == out.deep_view() + select_go(
                tokens.deep_view().skip(i as int),
                policy,
            ),
        decreases m - i,
    {
        let ghost ts = tokens.deep_view().skip(i as int);
        proof {
            assert(ts.drop_first() =~~= tokens.deep_view().skip(i as int + 1));
            assert(ts[0] =~= tokens@[i as int]@);
        }
        let q = token_qualifies(tokens[i].as_slice(), policy);
        if q {
            let w = normalize_token(tokens[i].as_slice());
            if w.len() > 0 {
                let ghost old_out = out.deep_view();
                let ghost wv = w@;
                out.push(w);
                proof {
                    assert(out.deep_view() =~~= old_out.push(wv));
                    assert(old_out.push(wv) =~= old_out + seq![normalize(ts[0])]);
                    assert(out.deep_view() + select_go(ts.drop_first(), policy) =~= old_out + (
                    seq![normalize(ts[0])] + select_go(ts.drop_first(), policy)));
                }
            }
        }
        i = i + 1;
    }
    proof {
        assert(tokens.deep_view().skip(m as int) =~~= Seq::<Seq<u8>>::empty());
        assert(out.deep_view() + Seq::<Seq<u8>>::empty() =~= out.deep_view());
    }
    out
}

/// [`insert_lex`] adds exactly one element.
proof fn lemma_insert_lex_len(x: Seq<u8>, s: Seq<Seq<u8>>)
    ensures
        insert_lex(x, s).len() == s.len() + 1,
    decreases s.len(),
{
    if s.len() != 0 && !lex_le(x, s[0]) {
        lemma_insert_lex_len(x, s.drop_first());
    }
}

/// Every element of [`insert_lex`]'s result is `x` or an element of `s`.
pub(crate) proof fn lemma_insert_lex_elems(x: Seq<u8>, s: Seq<Seq<u8>>)
    ensures
        forall|k: int|
            0 <= k < insert_lex(x, s).len() ==> (#[trigger] insert_lex(x, s)[k] == x || s.contains(
                insert_lex(x, s)[k],
            )),
    decreases s.len(),
{
    if s.len() != 0 && !lex_le(x, s[0]) {
        lemma_insert_lex_elems(x, s.drop_first());
        let r = insert_lex(x, s);
        let ri = insert_lex(x, s.drop_first());
        assert forall|k: int| 0 <= k < r.len() implies (#[trigger] r[k] == x || s.contains(
            r[k],
        )) by {
            if k == 0 {
                assert(s[0] == r[0]);
                assert(s.contains(s[0]));
            } else {
                assert(r[k] == ri[k - 1]);
                if ri[k - 1] != x {
                    let m = choose|m: int|
                        0 <= m < s.drop_first().len() && s.drop_first()[m] == ri[k - 1];
                    assert(s[m + 1] == ri[k - 1]);
                }
            }
        }
    }
}

/// Dropping the first element of a sorted sequence keeps it sorted.
pub proof fn lemma_sorted_drop_first(s: Seq<Seq<u8>>)
    requires
        sorted_lex(s),
        s.len() > 0,
    ensures
        sorted_lex(s.drop_first()),
{
    assert forall|i: int, j: int|
        0 <= i < j < s.drop_first().len() implies #[trigger] lex_le(
        s.drop_first()[i],
        s.drop_first()[j],
    ) by {
        assert(lex_le(s[i + 1], s[j + 1]));
    }
}

/// [`insert_lex`] keeps a sorted sequence sorted.
proof fn lemma_insert_lex_sorted(x: Seq<u8>, s: Seq<Seq<u8>>)
    requires
        sorted_lex(s),
    ensures
        sorted_lex(insert_lex(x, s)),
    decreases s.len(),
{
    let r = insert_lex(x, s);
    if s.len() == 0 {
    } else if lex_le(x, s[0]) {
        assert forall|i: int, j: int| 0 <= i < j < r.len() implies #[trigger] lex_le(
            r[i],
            r[j],
        ) by {
            if i == 0 {
                if j == 1 {
                } else {
                    assert(lex_le(s[0], s[j - 1]));
                    lemma_lex_le_trans(x, s[0], s[j - 1]);
                }
            } else {
                assert(lex_le(s[i - 1], s[j - 1]));
            }
        }
    } else {
        lemma_sorted_drop_first(s);
        lemma_insert_lex_sorted(x, s.drop_first());
        lemma_insert_lex_len(x, s.drop_first());
        lemma_insert_lex_elems(x, s.drop_first());
        let ri = insert_lex(x, s.drop_first());
        lemma_lex_le_total(x, s[0]);
        assert forall|i: int, j: int| 0 <= i < j < r.len() implies #[trigger] lex_le(
            r[i],
            r[j],
        ) by {
            if i == 0 {
                let e = ri[j - 1];
                assert(r[j] == e);
                if e == x {
                    assert(lex_le(s[0], x));
                } else {
                    let m = choose|m: int|
                        0 <= m < s.drop_first().len() && s.drop_first()[m] == e;
                    assert(lex_le(s[0], s[m + 1]));
                }
            } else {
                assert(lex_le(ri[i - 1], ri[j - 1]));
            }
        }
    }
}

/// [`sort_go`] of a sorted accumulator is sorted.
proof fn lemma_sort_go_sorted(s: Seq<Seq<u8>>, acc: Seq<Seq<u8>>)
    requires
        sorted_lex(acc),
    ensures
        sorted_lex(sort_go(s, acc)),
    decreases s.len(),
{
    if s.len() != 0 {
        lemma_insert_lex_sorted(s[0], acc);
        lemma_sort_go_sorted(s.drop_first(), insert_lex(s[0], acc));
    }
}

/// The result of [`sort_lex`] is in non-decreasing lexicographic order.
pub proof fn lemma_sort_lex_sorted(s: Seq<Seq<u8>>)
    ensures
        sorted_lex(sort_lex(s)),
{
    lemma_sort_go_sorted(s, Seq::empty());
}

/// Where the position of the first element not below `x` is `j`,
/// [`insert_lex`] puts `x` exactly at `j`.
proof fn lemma_insert_lex_at(x: Seq<u8>, s: Seq<Seq<u8>>, j: int)
    requires
        0 <= j <= s.len(),
        forall|k: int| 0 <= k < j ==> !lex_le(x, #[trigger] s[k]),
        j == s.len() || lex_le(x, s[j]),
    ensures
        insert_lex(x, s) == s.take(j) + seq![x] + s.skip(j),
    decreases j,
{
    if j == 0 {
        if s.len() == 0 {
            assert(insert_lex(x, s) =~= s.take(0) + seq![x] + s.skip(0));
        } else {
            assert(lex_le(x, s[0]));
            assert(insert_lex(x, s) =~= s.take(0) + seq![x] + s.skip(0));
        }
    } else {
        assert(!lex_le(x, s[0]));
        let d = s.drop_first();
        assert forall|k: int| 0 <= k < j - 1 implies !lex_le(x, #[trigger] d[k]) by {
            assert(d[k] == s[k + 1]);
        }
        assert(j - 1 == d.len() || lex_le(x, d[j - 1]));
        lemma_insert_lex_at(x, d, j - 1);
        assert(seq![s[0]] + (d.take(j - 1) + seq![x] + d.skip(j - 1)) =~= s.take(j) + seq![x]
            + s.skip(j));
    }
}

/// Position directly before the first element of `list` that `w` precedes or
/// equals (the list length when there is none).
fn find_insert_pos(list: &Vec<Vec<u8>>, w: &[u8]) -> (j: usize)
    ensures
        j <= list@.len(),
        forall|k: int| 0 <= k < j ==> !lex_le(w@, #[trigger] list.deep_view()[k]),
        j < list@.len() ==> lex_le(w@, list.deep_view()[j as int]),
{
    let n: usize = list.len();
    let mut j: usize = 0;
    while j < n
        invariant
            0 <= j <= n,
            n == list@.len(),
            forall|k: int| 0 <= k < j ==> !lex_le(w@, #[trigger] list.deep_view()[k]),
        decreases n - j,
    {
        if bytes_le(w, list[j].as_slice()) {
            proof {
                assert(list.deep_view()[j as int] =~= list@[j as int]@);
            }
            return j;
        }
        proof {
            assert(list.deep_view()[j as int] =~= list@[j as int]@);
        }
        j = j + 1;
    }
    j
}

/// Inserts `w` at its sorted position in `list`.
fn insert_word(list: &mut Vec<Vec<u8>>, w: Vec<u8>)
    ensures
        final (list).deep_view() == insert_lex(w@, old(list).deep_view()),
{
    let ghost pre = list.deep_view();
    let j = find_insert_pos(list, w.as_slice());
    let ghost wv = w@;
    list.insert(j, w);
    proof {
        lemma_insert_lex_at(wv, pre, j as int);
        assert(list.deep_view() =~~= pre.take(j as int) + seq![wv] + pre.skip(j as int));
    }
}

/// Sorts the words into byte-wise lexicographic ascending order.
pub fn sort_words(words: Vec<Vec<u8>>) -> (r: Vec<Vec<u8>>)
    ensures
        r.deep_view() == sort_lex(words.deep_view()),
{
    let ghost orig = words.deep_view();
    let mut ws = words;
    let mut out: Vec<Vec<u8>> = Vec::new();
    proof {
        assert(out.deep_view() =~~= Seq::<Seq<u8>>::empty());
    }
    while ws.len() > 0
        invariant
            sort_lex(orig) == sort_go(ws.deep_view(), out.deep_view()),
        decreases ws@.len(),
    {
        let ghost pre = ws.deep_view();
        let w = ws.remove(0);
        proof {
            assert(ws.deep_view() =~~= pre.drop_first());
            assert(w@ =~= pre[0]);
        }
        insert_word(&mut out, w);
    }
    proof {
        assert(ws.deep_view() =~~= Seq::<Seq<u8>>::empty());
    }
    out
}

/// Collapses runs of case-insensitively equal adjacent words, keeping the
/// first word of each run.
pub fn dedup_words(sorted: Vec<Vec<u8>>) -> (r: Vec<Vec<u8>>)
    ensures
        r.deep_view() == dedup_ci(sorted.deep_view()),
{
    let ghost orig = sorted.deep_view();
    let mut ws = sorted;
    let mut out: Vec<Vec<u8>> = Vec::new();
    if ws.len() == 0 {
        proof {
            assert(orig.len() == 0);
            assert(out.deep_view() =~~= dedup_ci(orig));
        }
        return out;
    }
    let ghost pre0 = ws.deep_view();
    let first = ws.remove(0);
    proof {
        assert(ws.deep_view() =~~= pre0.drop_first());
        assert(first@ =~= pre0[0]);
    }
    out.push(first);
    proof {
        assert(out.deep_view() =~~= seq![pre0[0]]);
        assert(out.deep_view().last() == pre0[0]);
    }
    while ws.len() > 0
        invariant
            out@.len() > 0,
            dedup_ci(orig) == out.deep_view() + dedup_go(
                ws.deep_view(),
                out.deep_view().last(),
            ),
        decreases ws@.len(),
    {
        let ghost pre = ws.deep_view();
        let ghost rep = out.deep_view().last();
        let w = ws.remove(0);
        proof {
            assert(ws.deep_view() =~~= pre.drop_first());
            assert(w@ =~= pre[0]);
        }
        let keep = !bytes_ci_eq(w.as_slice(), out[out.len() - 1].as_slice());
        proof {
            assert(out@[out@.len() - 1]@ =~= out.deep_view().last());
        }
        if keep {
            let ghost old_out = out.deep_view();
            let ghost wv = w@;
            out.push(w);
            proof {
                assert(out.deep_view() =~~= old_out.push(wv));
                assert(out.deep_view().last() == wv);
                assert(old_out.push(wv) =~= old_out + seq![wv]);
                assert(out.deep_view() + dedup_go(pre.drop_first(), wv) =~= old_out + (seq![wv]
                    + dedup_go(pre.drop_first(), wv)));
            }
        }
    }
    proof {
        assert(ws.deep_view() =~~= Seq::<Seq<u8>>::empty());
        assert(out.deep_view() + Seq::<Seq<u8>>::empty() =~= out.deep_view());
    }
    out
}

/// Builds the wordlist of `content`: tokenize, filter under `policy`,
/// normalize, sort ascending, collapse case-insensitive duplicate runs, and
/// keep at most `max_count` words when a bound is given.
pub fn build(content: &[u8], policy: FilterPolicy, max_count: Option<usize>) -> (r: Vec<Vec<u8>>)
    ensures
        r.deep_view() == final_words(content@, policy, max_count),
        max_count matches Some(n) ==> r@.len() <= n,
        max_count is None ==> r@.len() == distinct_words(content@, policy).len(),
{
    let tokens = tokenize(content);
    let words = select_words(&tokens, policy);
    let sorted = sort_words(words);
    let mut deduped = dedup_words(sorted);
    let ghost d = distinct_words(content@, policy);
    match max_count {
        Option::Some(c) => {
            if deduped.len() > c {
                let ghost pre = deduped.deep_view();
                deduped.truncate(c);
                proof {
                    assert(deduped.deep_view() =~~= pre.take(c as int));
                }
            }
        },
        Option::None => {},
    }
    deduped
}

/// Renders a wordlist as a file body: each word followed by one line feed.
pub fn render(words: &Vec<Vec<u8>>) -> (r: Vec<u8>)
    ensures
        r@ == rendered(words.deep_view()),
{
    let m: usize = words.len();
    let mut out: Vec<u8> = Vec::new();
    let mut i: usize = 0;
    proof {
        assert(words.deep_view().skip(0) =~~= words.deep_view());
        assert(out@ =~= Seq::<u8>::empty());
    }
    while i < m
        invariant
            0 <= i <= m,
            m == words@.len(),
            rendered(words.deep_view()) == out@ + rendered(words.deep_view().skip(i as int)),
        decreases m - i,
    {
        let ghost rest = words.deep_view().skip(i as int);
        let ghost out_start = out@;
        proof {
            assert(rest.drop_first() =~~= words.deep_view().skip(i as int + 1));
            assert(rest[0] =~= words@[i as int]@);
        }
        let word = &words[i];
        let wn: usize = word.len();
        let mut k: usize = 0;
        while k < wn
            invariant
                0 <= k <= wn,
                wn == word@.len(),
                out@ == out_start + word@.take(k as int),
            decreases wn - k,
        {
            proof {
                assert(word@.take(k as int + 1) =~= word@.take(k as int).push(word@[k as int]));
            }
            out.push(word[k]);
            k = k + 1;
        }
        proof {
            assert(word@.take(wn as int) =~= word@);
        }
        out.push(10u8);
        proof {
            assert(out@ =~= out_start + (rest[0] + seq![10u8]));
            assert(out_start + (rest[0] + seq![10u8]) + rendered(rest.drop_first()) =~= out_start
                + (rest[0] + seq![10u8] + rendered(rest.drop_first())));
        }
        i = i + 1;
    }
    proof {
        assert(words.deep_view().skip(m as int) =~~= Seq::<Seq<u8>>::empty());
        assert(out@ + Seq::<u8>::empty() =~= out@);
    }
    out
}

/// The whole pipeline in one call: the rendered file body of the wordlist of
/// `content`.
pub fn build_output(content: &[u8], policy: FilterPolicy, max_count: Option<usize>) -> (r: Vec<u8>)
    ensures
        r@ == rendered(final_words(content@, policy, max_count)),
{
    let words = build(content, policy, max_count);
    render(&words)
}

} // verus!
