//! The guarantees of the wordlist pipeline, stated and proved over its
//! specification: the output is a function of the input alone, it is sorted,
//! adjacent entries are never case-insensitively equal, and — whenever the
//! case-insensitive classes of the sorted words are contiguous — no two
//! entries anywhere are case-insensitively equal.

use vstd::prelude::*;

use crate::order::ci_eq;
use crate::order::lex_le;
use crate::order::lemma_lex_le_trans;
use crate::wordlist::FilterPolicy;
use crate::wordlist::dedup_ci;
use crate::wordlist::dedup_go;
use crate::wordlist::distinct_words;
use crate::wordlist::final_words;
use crate::wordlist::lemma_sort_lex_sorted;
use crate::wordlist::lemma_sorted_drop_first;
use crate::wordlist::rendered;
use crate::wordlist::selected_words;
use crate::wordlist::sort_go;
use crate::wordlist::sort_lex;
use crate::wordlist::sorted_lex;

verus! {

/// No two elements of `s` are ASCII case-insensitively equal.
pub open spec fn ci_distinct(s: Seq<Seq<u8>>) -> bool {
    forall|i: int, j: int| 0 <= i < j < s.len() ==> !#[trigger] ci_eq(s[i], s[j])
}

/// Case-insensitive classes appear contiguously in `s`: whatever lies
/// between two case-insensitively equal elements belongs to their class.
pub open spec fn ci_runs_contiguous(s: Seq<Seq<u8>>) -> bool {
    forall|i: int, j: int, k: int|
        0 <= i < j < k < s.len() && #[trigger] ci_eq(s[i], s[k]) ==> ci_eq(s[i], #[trigger] s[j])
}

/// The wordlist is a function of the article text, the filter policy and
/// the bound alone: two runs on the same input give the same output bytes.
pub proof fn lemma_build_deterministic(
    content: Seq<u8>,
    policy: FilterPolicy,
    max_count: Option<usize>,
    r1: Seq<u8>,
    r2: Seq<u8>,
)
    requires
        r1 == rendered(final_words(content, policy, max_count)),
        r2 == rendered(final_words(content, policy, max_count)),
    ensures
        r1 == r2,
{
}

/// [`dedup_go`] of a sorted sequence is sorted, comes from that sequence
/// element-wise, and starts no earlier than the sequence does.
proof fn lemma_dedup_go_sorted(s: Seq<Seq<u8>>, rep: Seq<u8>)
    requires
        sorted_lex(s),
    ensures
        sorted_lex(dedup_go(s, rep)),
        dedup_go(s, rep).len() > 0 ==> s.len() > 0 && lex_le(s[0], dedup_go(s, rep)[0]),
    decreases s.len(),
{
    let out = dedup_go(s, rep);
    if s.len() == 0 {
    } else {
        let d = s.drop_first();
        lemma_sorted_drop_first(s);
        if ci_eq(s[0], rep) {
            lemma_dedup_go_sorted(d, rep);
            if out.len() > 0 {
                assert(lex_le(s[0], s[1]));
                lemma_lex_le_trans(s[0], d[0], out[0]);
            }
        } else {
            lemma_dedup_go_sorted(d, s[0]);
            crate::order::lemma_lex_le_refl(s[0]);
            let rest = dedup_go(d, s[0]);
            assert forall|i: int, j: int| 0 <= i < j < out.len() implies #[trigger] lex_le(
                out[i],
                out[j],
            ) by {
                if i == 0 {
                    assert(out[j] == rest[j - 1]);
                    assert(lex_le(s[0], s[1]));
                    if j == 1 {
                        lemma_lex_le_trans(s[0], d[0], rest[0]);
                    } else {
                        lemma_lex_le_trans(s[0], d[0], rest[0]);
                        assert(lex_le(rest[0], rest[j - 1]));
                        lemma_lex_le_trans(s[0], rest[0], rest[j - 1]);
                    }
                } else {
                    assert(lex_le(rest[i - 1], rest[j - 1]));
                }
            }
        }
    }
}

/// Each element of [`dedup_go`]'s result occurs in its input.
proof fn lemma_dedup_go_elems(s: Seq<Seq<u8>>, rep: Seq<u8>)
    ensures
        forall|m: int|
            0 <= m < dedup_go(s, rep).len() ==> s.contains(#[trigger] dedup_go(s, rep)[m]),
    decreases s.len(),
{
    let out = dedup_go(s, rep);
    if s.len() > 0 {
        let d = s.drop_first();
        if ci_eq(s[0], rep) {
            lemma_dedup_go_elems(d, rep);
            assert forall|m: int| 0 <= m < out.len() implies s.contains(#[trigger] out[m]) by {
                assert(out[m] == dedup_go(d, rep)[m]);
                assert(d.contains(dedup_go(d, rep)[m]));
                let w = choose|w: int| 0 <= w < d.len() && d[w] == out[m];
                assert(s[w + 1] == out[m]);
            }
        } else {
            lemma_dedup_go_elems(d, s[0]);
            let rest = dedup_go(d, s[0]);
            assert forall|m: int| 0 <= m < out.len() implies s.contains(#[trigger] out[m]) by {
                if m == 0 {
                    assert(s[0] == out[0]);
                } else {
                    assert(out[m] == rest[m - 1]);
                    assert(d.contains(dedup_go(d, s[0])[m - 1]));
                    let w = choose|w: int| 0 <= w < d.len() && d[w] == rest[m - 1];
                    assert(s[w + 1] == out[m]);
                }
            }
        }
    }
}

/// [`dedup_go`] never keeps two adjacent case-insensitively equal elements,
/// and never starts with the representative's class.
proof fn lemma_dedup_go_adjacent(s: Seq<Seq<u8>>, rep: Seq<u8>)
    ensures
        dedup_go(s, rep).len() > 0 ==> !ci_eq(dedup_go(s, rep)[0], rep),
        forall|i: int|
            0 <= i && i + 1 < dedup_go(s, rep).len() ==> !ci_eq(
                #[trigger] dedup_go(s, rep)[i],
                dedup_go(s, rep)[i + 1],
            ),
    decreases s.len(),
{
    let out = dedup_go(s, rep);
    if s.len() > 0 {
        let d = s.drop_first();
        if ci_eq(s[0], rep) {
            lemma_dedup_go_adjacent(d, rep);
        } else {
            lemma_dedup_go_adjacent(d, s[0]);
            let rest = dedup_go(d, s[0]);
            assert forall|i: int| 0 <= i && i + 1 < out.len() implies !ci_eq(
                #[trigger] out[i],
                out[i + 1],
            ) by {
                if i == 0 {
                    assert(out[1] == rest[0]);
                } else {
                    assert(out[i] == rest[i - 1] && out[i + 1] == rest[i]);
                }
            }
        }
    }
}

/// Under contiguous case-insensitive runs, [`dedup_go`] keeps at most one
/// element per class, and none from the representative's own class,
/// provided that class sits at the front of `s`.
proof fn lemma_dedup_go_ci_distinct(s: Seq<Seq<u8>>, rep: Seq<u8>)
    requires
        ci_runs_contiguous(s),
        forall|i: int, j: int|
            0 <= i < j < s.len() && ci_eq(#[trigger] s[j], rep) ==> ci_eq(#[trigger] s[i], rep),
    ensures
        forall|m: int| 0 <= m < dedup_go(s, rep).len() ==> !ci_eq(#[trigger] dedup_go(s, rep)[m], rep),
        ci_distinct(dedup_go(s, rep)),
    decreases s.len(),
{
    let out = dedup_go(s, rep);
    lemma_dedup_go_elems(s, rep);
    if s.len() > 0 {
        let d = s.drop_first();
        assert forall|i: int, j: int, k: int|
            0 <= i < j < k < d.len() && #[trigger] ci_eq(d[i], d[k]) implies ci_eq(
            d[i],
            #[trigger] d[j],
        ) by {
            assert(ci_eq(s[i + 1], s[k + 1]));
            assert(ci_eq(s[i + 1], s[j + 1]));
        }
        if ci_eq(s[0], rep) {
            assert forall|i: int, j: int|
                0 <= i < j < d.len() && ci_eq(#[trigger] d[j], rep) implies ci_eq(
                #[trigger] d[i],
                rep,
            ) by {
                assert(ci_eq(s[j + 1], rep));
                assert(ci_eq(s[i + 1], rep));
            }
            lemma_dedup_go_ci_distinct(d, rep);
        } else {
            // Elements of `d` in the class of `s[0]` form a prefix of `d`,
            // by contiguity of `s` around position 0.
            assert forall|i: int, j: int|
                0 <= i < j < d.len() && ci_eq(#[trigger] d[j], s[0]) implies ci_eq(
                #[trigger] d[i],
                s[0],
            ) by {
                assert(ci_eq(s[0], s[j + 1]));
                assert(ci_eq(s[0], s[i + 1]));
            }
            lemma_dedup_go_ci_distinct(d, s[0]);
            let rest = dedup_go(d, s[0]);
            lemma_dedup_go_elems(d, s[0]);
            // Nothing in `s` matches `rep`: its class is a prefix, and the
            // very first element already fails to match.
            assert forall|m: int| 0 <= m < out.len() implies !ci_eq(#[trigger] out[m], rep) by {
                if m > 0 {
                    if ci_eq(out[m], rep) {
                        let w = choose|w: int| 0 <= w < d.len() && d[w] == rest[m - 1];
                        assert(ci_eq(s[w + 1], rep));
                        assert(ci_eq(s[0], rep));
                    }
                }
            }
            assert forall|i: int, j: int| 0 <= i < j < out.len() implies !#[trigger] ci_eq(
                out[i],
                out[j],
            ) by {
                if i == 0 {
                    assert(out[j] == rest[j - 1]);
                } else {
                    assert(out[i] == rest[i - 1] && out[j] == rest[j - 1]);
                }
            }
        }
    }
}

/// Under contiguous case-insensitive runs, [`dedup_ci`] keeps exactly one
/// element per class: its result is pairwise case-insensitively distinct.
pub proof fn lemma_dedup_ci_ci_distinct(s: Seq<Seq<u8>>)
    requires
        ci_runs_contiguous(s),
    ensures
        ci_distinct(dedup_ci(s)),
{
    let out = dedup_ci(s);
    if s.len() > 0 {
        let d = s.drop_first();
        assert forall|i: int, j: int, k: int|
            0 <= i < j < k < d.len() && #[trigger] ci_eq(d[i], d[k]) implies ci_eq(
            d[i],
            #[trigger] d[j],
        ) by {
            assert(ci_eq(s[i + 1], s[k + 1]));
            assert(ci_eq(s[i + 1], s[j + 1]));
        }
        assert forall|i: int, j: int|
            0 <= i < j < d.len() && ci_eq(#[trigger] d[j], s[0]) implies ci_eq(
            #[trigger] d[i],
            s[0],
        ) by {
            assert(ci_eq(s[0], s[j + 1]));
            assert(ci_eq(s[0], s[i + 1]));
        }
        lemma_dedup_go_ci_distinct(d, s[0]);
        let rest = dedup_go(d, s[0]);
        assert forall|i: int, j: int| 0 <= i < j < out.len() implies !#[trigger] ci_eq(
            out[i],
            out[j],
        ) by {
            if i == 0 {
                assert(out[j] == rest[j - 1]);
            } else {
                assert(out[i] == rest[i - 1] && out[j] == rest[j - 1]);
            }
        }
    }
}

/// Every element of [`sort_go`]'s result comes from `s` or from `acc`.
proof fn lemma_sort_go_elems(s: Seq<Seq<u8>>, acc: Seq<Seq<u8>>)
    ensures
        forall|m: int|
            0 <= m < sort_go(s, acc).len() ==> s.contains(#[trigger] sort_go(s, acc)[m])
                || acc.contains(sort_go(s, acc)[m]),
    decreases s.len(),
{
    if s.len() > 0 {
        let d = s.drop_first();
        let acc2 = crate::wordlist::insert_lex(s[0], acc);
        crate::wordlist::lemma_insert_lex_elems(s[0], acc);
        lemma_sort_go_elems(d, acc2);
        let out = sort_go(s, acc);
        assert forall|m: int| 0 <= m < out.len() implies s.contains(#[trigger] out[m])
            || acc.contains(out[m]) by {
            assert(out[m] == sort_go(d, acc2)[m]);
            let e = out[m];
            if d.contains(e) {
                let w = choose|w: int| 0 <= w < d.len() && d[w] == e;
                assert(s[w + 1] == e);
            } else {
                assert(acc2.contains(e));
                let k = choose|k: int| 0 <= k < acc2.len() && acc2[k] == e;
                assert(acc2[k] == s[0] || acc.contains(acc2[k]));
                if acc2[k] == s[0] {
                    assert(s[0] == e);
                }
            }
        }
    }
}

/// Every line of the final wordlist is one of the normalized qualifying
/// words of the content: the pipeline invents nothing.
pub proof fn lemma_final_words_come_from_content(
    content: Seq<u8>,
    policy: FilterPolicy,
    max_count: Option<usize>,
)
    ensures
        forall|m: int|
            0 <= m < final_words(content, policy, max_count).len() ==> selected_words(
                content,
                policy,
            ).contains(#[trigger] final_words(content, policy, max_count)[m]),
{
    let sel = selected_words(content, policy);
    let sw = sort_lex(sel);
    let d = distinct_words(content, policy);
    let out = final_words(content, policy, max_count);
    lemma_sort_go_elems(sel, Seq::empty());
    if sw.len() > 0 {
        lemma_dedup_go_elems(sw.drop_first(), sw[0]);
        let rest = dedup_go(sw.drop_first(), sw[0]);
        assert forall|m: int| 0 <= m < out.len() implies sel.contains(#[trigger] out[m]) by {
            assert(out[m] == d[m]);
            let e = d[m];
            // First to an element of the sorted words:
            let w: int = if m == 0 {
                0
            } else {
                assert(d[m] == rest[m - 1]);
                assert(sw.drop_first().contains(rest[m - 1]));
                let v = choose|v: int| 0 <= v < sw.drop_first().len() && sw.drop_first()[v] == e;
                v + 1
            };
            assert(sw[w] == e);
            // Then back through the sort to the selected words:
            assert(sw[w] == sort_go(sel, Seq::empty())[w]);
            assert(sel.contains(sort_go(sel, Seq::<Seq<u8>>::empty())[w]) || Seq::<
                Seq<u8>,
            >::empty().contains(sort_go(sel, Seq::empty())[w]));
        }
    }
}

/// The final wordlist is in non-decreasing lexicographic order.
pub proof fn lemma_final_words_sorted(
    content: Seq<u8>,
    policy: FilterPolicy,
    max_count: Option<usize>,
)
    ensures
        sorted_lex(final_words(content, policy, max_count)),
{
    let sw = sort_lex(selected_words(content, policy));
    lemma_sort_lex_sorted(selected_words(content, policy));
    let d = distinct_words(content, policy);
    assert(sorted_lex(d)) by {
        if sw.len() > 0 {
            lemma_sorted_drop_first(sw);
            lemma_dedup_go_sorted(sw.drop_first(), sw[0]);
            let rest = dedup_go(sw.drop_first(), sw[0]);
            assert forall|i: int, j: int| 0 <= i < j < d.len() implies #[trigger] lex_le(
                d[i],
                d[j],
            ) by {
                if i == 0 {
                    assert(d[j] == rest[j - 1]);
                    assert(lex_le(sw[0], sw[1]));
                    lemma_lex_le_trans(sw[0], sw.drop_first()[0], rest[0]);
                    if j > 1 {
                        assert(lex_le(rest[0], rest[j - 1]));
                        lemma_lex_le_trans(sw[0], rest[0], rest[j - 1]);
                    }
                } else {
                    assert(lex_le(rest[i - 1], rest[j - 1]));
                }
            }
        }
    }
    let out = final_words(content, policy, max_count);
    assert forall|i: int, j: int| 0 <= i < j < out.len() implies #[trigger] lex_le(
        out[i],
        out[j],
    ) by {
        assert(out[i] == d[i] && out[j] == d[j]);
        assert(lex_le(d[i], d[j]));
    }
}

/// No two adjacent entries of the final wordlist are case-insensitively
/// equal (adjacent runs of case variants always collapse to one entry).
pub proof fn lemma_no_adjacent_ci_duplicates(
    content: Seq<u8>,
    policy: FilterPolicy,
    max_count: Option<usize>,
)
    ensures
        forall|i: int|
            0 <= i && i + 1 < final_words(content, policy, max_count).len() ==> !ci_eq(
                #[trigger] final_words(content, policy, max_count)[i],
                final_words(content, policy, max_count)[i + 1],
            ),
{
    let sw = sort_lex(selected_words(content, policy));
    let d = distinct_words(content, policy);
    let out = final_words(content, policy, max_count);
    if sw.len() > 0 {
        lemma_dedup_go_adjacent(sw.drop_first(), sw[0]);
        let rest = dedup_go(sw.drop_first(), sw[0]);
        assert forall|i: int| 0 <= i && i + 1 < out.len() implies !ci_eq(
            #[trigger] out[i],
            out[i + 1],
        ) by {
            assert(out[i] == d[i] && out[i + 1] == d[i + 1]);
            if i == 0 {
                assert(d[1] == rest[0]);
            } else {
                assert(d[i] == rest[i - 1] && d[i + 1] == rest[i]);
            }
        }
    }
}

/// When the case-insensitive classes of the sorted words are contiguous —
/// in particular whenever case variants of a word are not separated by an
/// unrelated word in sort order — the final wordlist has no two entries
/// that are case-insensitively equal, adjacent or not.
pub proof fn lemma_no_ci_duplicates(
    content: Seq<u8>,
    policy: FilterPolicy,
    max_count: Option<usize>,
)
    requires
        ci_runs_contiguous(sort_lex(selected_words(content, policy))),
    ensures
        ci_distinct(final_words(content, policy, max_count)),
{
    lemma_dedup_ci_ci_distinct(sort_lex(selected_words(content, policy)));
    let d = distinct_words(content, policy);
    let out = final_words(content, policy, max_count);
    assert forall|i: int, j: int| 0 <= i < j < out.len() implies !#[trigger] ci_eq(
        out[i],
        out[j],
    ) by {
        assert(out[i] == d[i] && out[j] == d[j]);
        assert(!ci_eq(d[i], d[j]));
    }
}

} // verus!
