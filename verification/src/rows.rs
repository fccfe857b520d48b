//! Ordering and trimming the rows of a report: `--by-ext`, `--sort`,
//! `--reverse` and `--top`.

use vstd::prelude::*;
use crate::cli::{CountArgs, Sort};
use crate::count::{
    FileStat, Measure, Report, by_extension, group_keys, group_view, lemma_total_reverse, sums_fit,
    token_total,
};
use crate::text::chars_of;
use vstd::set_lib::{lemma_int_range, lemma_len_subset, lemma_subset_equality, set_int_range};

verus! {

/// Strict lexicographic order on character sequences, by code point; this is
/// the order of `String`'s `Ord` (UTF-8 preserves code point order).
pub open spec fn lex_lt(a: Seq<char>, b: Seq<char>) -> bool
    decreases a.len(),
{
    if a.len() == 0 {
        b.len() > 0
    } else if b.len() == 0 {
        false
    } else if a[0] != b[0] {
        a[0] < b[0]
    } else {
        lex_lt(a.drop_first(), b.drop_first())
    }
}

proof fn lemma_lex_irreflexive(a: Seq<char>)
    ensures
        !lex_lt(a, a),
    decreases a.len(),
{
    if a.len() > 0 {
        lemma_lex_irreflexive(a.drop_first());
    }
}

proof fn lemma_lex_asymmetric(a: Seq<char>, b: Seq<char>)
    ensures
        !(lex_lt(a, b) && lex_lt(b, a)),
    decreases a.len(),
{
    if a.len() > 0 && b.len() > 0 && a[0] == b[0] {
        lemma_lex_asymmetric(a.drop_first(), b.drop_first());
    }
}

proof fn lemma_lex_transitive(a: Seq<char>, b: Seq<char>, c: Seq<char>)
    requires
        lex_lt(a, b),
        lex_lt(b, c),
    ensures
        lex_lt(a, c),
    decreases a.len(),
{
    if a.len() > 0 && b.len() > 0 && c.len() > 0 && a[0] == b[0] && b[0] == c[0] {
        lemma_lex_transitive(a.drop_first(), b.drop_first(), c.drop_first());
    }
}

proof fn lemma_lex_total(a: Seq<char>, b: Seq<char>)
    ensures
        a == b || lex_lt(a, b) || lex_lt(b, a),
    decreases a.len(),
{
    if a.len() > 0 && b.len() > 0 {
        if a[0] == b[0] {
            lemma_lex_total(a.drop_first(), b.drop_first());
            if a.drop_first() == b.drop_first() {
                assert(a =~= seq![a[0]] + a.drop_first());
                assert(b =~= seq![b[0]] + b.drop_first());
            }
        } else {
        }
    } else if a.len() == 0 && b.len() == 0 {
        assert(a =~= b);
    }
}

/// `a` is a proper prefix of `b`.
pub open spec fn proper_prefix(a: Seq<char>, b: Seq<char>) -> bool {
    a.len() < b.len() && forall|i: int| 0 <= i < a.len() ==> a[i] == b[i]
}

/// At index `k`, `a` and `b` differ for the first time, and `a` has the
/// smaller character there.
pub open spec fn first_difference_below(a: Seq<char>, b: Seq<char>, k: int) -> bool {
    &&& 0 <= k < a.len()
    &&& k < b.len()
    &&& forall|i: int| 0 <= i < k ==> a[i] == b[i]
    &&& a[k] < b[k]
}

/// The path order is `String`'s order: `a` comes before `b` exactly when `a`
/// is a proper prefix of `b`, or at the first position where they differ `a`
/// has the smaller character. In particular a name sorts before any longer
/// name it begins (`a.js` before `a.json`).
pub proof fn lemma_lex_lt_is_string_order(a: Seq<char>, b: Seq<char>)
    ensures
        lex_lt(a, b) <==> (proper_prefix(a, b) || exists|k: int| first_difference_below(a, b, k)),
    decreases a.len(),
{
    if a.len() == 0 {
    } else if b.len() == 0 {
        assert(!proper_prefix(a, b));
        assert(forall|k: int| !first_difference_below(a, b, k));
    } else if a[0] != b[0] {
        assert(!proper_prefix(a, b));
        assert forall|k: int| first_difference_below(a, b, k) implies k == 0 by {
            if k > 0 {
                assert(a[0] == b[0]);
            }
        }
        if a[0] < b[0] {
            assert(first_difference_below(a, b, 0));
        }
    } else {
        let a1 = a.drop_first();
        let b1 = b.drop_first();
        lemma_lex_lt_is_string_order(a1, b1);
        if proper_prefix(a1, b1) {
            assert forall|i: int| 0 <= i < a.len() implies a[i] == b[i] by {
                if i > 0 {
                    assert(a[i] == a1[i - 1] && b[i] == b1[i - 1]);
                }
            }
            assert(proper_prefix(a, b));
        }
        if proper_prefix(a, b) {
            assert forall|i: int| 0 <= i < a1.len() implies a1[i] == b1[i] by {
                assert(a[i + 1] == b[i + 1]);
            }
            assert(proper_prefix(a1, b1));
        }
        if exists|k: int| first_difference_below(a1, b1, k) {
            let k = choose|k: int| first_difference_below(a1, b1, k);
            assert forall|i: int| 0 <= i < k + 1 implies a[i] == b[i] by {
                if i > 0 {
                    assert(a[i] == a1[i - 1] && b[i] == b1[i - 1]);
                }
            }
            assert(first_difference_below(a, b, k + 1));
        }
        if exists|k: int| first_difference_below(a, b, k) {
            let k = choose|k: int| first_difference_below(a, b, k);
            assert(k != 0);
            assert forall|i: int| 0 <= i < k - 1 implies a1[i] == b1[i] by {
                assert(a[i + 1] == b[i + 1]);
            }
            assert(first_difference_below(a1, b1, k - 1));
        }
    }
}

/// `a` sorts strictly before `b` under `sort`: more tokens (or bytes) first,
/// ties and `Path` by label; `Discovery` keeps the input order.
pub open spec fn sorts_before(a: FileStat, b: FileStat, sort: Sort) -> bool {
    match sort {
        Sort::Tokens => a.tokens > b.tokens || (a.tokens == b.tokens && lex_lt(a.label@, b.label@)),
        Sort::Size => a.bytes > b.bytes || (a.bytes == b.bytes && lex_lt(a.label@, b.label@)),
        Sort::Path => lex_lt(a.label@, b.label@),
        Sort::Discovery => false,
    }
}

proof fn lemma_sorts_before_order(a: FileStat, b: FileStat, c: FileStat, sort: Sort)
    ensures
        !sorts_before(a, a, sort),
        sorts_before(a, b, sort) ==> !sorts_before(b, a, sort),
        sorts_before(a, b, sort) && sorts_before(b, c, sort) ==> sorts_before(a, c, sort),
        !sorts_before(b, a, sort) && !sorts_before(c, b, sort) ==> !sorts_before(c, a, sort),
        sorts_before(a, b, sort) && !sorts_before(c, b, sort) ==> sorts_before(a, c, sort),
        !sorts_before(b, a, sort) && sorts_before(b, c, sort) ==> sorts_before(a, c, sort),
{
    lemma_lex_irreflexive(a.label@);
    lemma_lex_asymmetric(a.label@, b.label@);
    lemma_lex_asymmetric(b.label@, c.label@);
    lemma_lex_asymmetric(a.label@, c.label@);
    lemma_lex_total(a.label@, b.label@);
    lemma_lex_total(b.label@, c.label@);
    lemma_lex_total(a.label@, c.label@);
    if lex_lt(a.label@, b.label@) && lex_lt(b.label@, c.label@) {
        lemma_lex_transitive(a.label@, b.label@, c.label@);
    }
    if lex_lt(c.label@, b.label@) && lex_lt(b.label@, a.label@) {
        lemma_lex_transitive(c.label@, b.label@, a.label@);
    }
}

/// Position order of a stable sort: by `sorts_before`, ties by original index.
pub open spec fn index_before(s: Seq<FileStat>, i: int, j: int, sort: Sort) -> bool {
    sorts_before(s[i], s[j], sort) || (!sorts_before(s[j], s[i], sort) && i < j)
}

/// `p` lists the indices of `s` in the order a stable sort by `sort` puts them.
pub open spec fn is_sort_order(s: Seq<FileStat>, p: Seq<int>, sort: Sort) -> bool {
    &&& p.len() == s.len()
    &&& p.no_duplicates()
    &&& forall|k: int| 0 <= k < p.len() ==> 0 <= #[trigger] p[k] < s.len()
    &&& forall|a: int, b: int|
        0 <= a < b < p.len() ==> index_before(s, #[trigger] p[a], #[trigger] p[b], sort)
}

/// A sort order lists every index of `s`.
proof fn lemma_sort_order_covers(s: Seq<FileStat>, p: Seq<int>, sort: Sort, x: int)
    requires
        is_sort_order(s, p, sort),
        0 <= x < s.len(),
    ensures
        p.contains(x),
{
    let range = set_int_range(0, s.len() as int);
    p.unique_seq_to_set();
    lemma_int_range(0, s.len() as int);
    assert(p.to_set().subset_of(range)) by {
        assert forall|y: int| p.to_set().contains(y) implies range.contains(y) by {
            let m = choose|m: int| 0 <= m < p.len() && p[m] == y;
            assert(0 <= p[m] < s.len());
        }
    }
    lemma_len_subset(p.to_set(), range);
    lemma_subset_equality(p.to_set(), range);
    assert(range.contains(x));
    assert(p.to_set().contains(x));
}

/// Two sort orders of the same rows agree on their first `k` positions.
proof fn lemma_sort_orders_agree(s: Seq<FileStat>, p1: Seq<int>, p2: Seq<int>, sort: Sort, k: int)
    requires
        is_sort_order(s, p1, sort),
        is_sort_order(s, p2, sort),
        0 <= k <= s.len(),
    ensures
        forall|j: int| 0 <= j < k ==> p1[j] == p2[j],
    decreases k,
{
    if k > 0 {
        lemma_sort_orders_agree(s, p1, p2, sort, k - 1);
        let i = k - 1;
        let x = p1[i];
        let y = p2[i];
        if x != y {
            lemma_sort_order_covers(s, p2, sort, x);
            lemma_sort_order_covers(s, p1, sort, y);
            let m = choose|m: int| 0 <= m < p2.len() && p2[m] == x;
            let n = choose|n: int| 0 <= n < p1.len() && p1[n] == y;
            if m < i {
                assert(p1[m] == p2[m]);
            }
            if n < i {
                assert(p1[n] == p2[n]);
            }
            assert(m > i && n > i);
            assert(index_before(s, p2[i], p2[m], sort));
            assert(index_before(s, p1[i], p1[n], sort));
            lemma_sorts_before_order(s[x], s[y], s[x], sort);
        }
    }
}

/// A stable sort has one outcome: any two index orders that both satisfy
/// `is_sort_order` for the same rows and key are the same order.
pub proof fn lemma_sort_order_unique(s: Seq<FileStat>, p1: Seq<int>, p2: Seq<int>, sort: Sort)
    requires
        is_sort_order(s, p1, sort),
        is_sort_order(s, p2, sort),
    ensures
        p1 == p2,
{
    lemma_sort_orders_agree(s, p1, p2, sort, s.len() as int);
    assert(p1 =~= p2);
}

pub open spec fn pick(s: Seq<FileStat>, p: Seq<int>) -> Seq<FileStat> {
    p.map_values(|k: int| s[k])
}

fn lex_less(a: &Vec<char>, b: &Vec<char>) -> (res: bool)
    ensures
        res == lex_lt(a@, b@),
{
    let mut i: usize = 0;
    assert(a@.skip(0) =~= a@);
    assert(b@.skip(0) =~= b@);
    while i < a.len() && i < b.len()
        invariant
            i <= a@.len(),
            i <= b@.len(),
            lex_lt(a@, b@) == lex_lt(a@.skip(i as int), b@.skip(i as int)),
        decreases a@.len() - i,
    {
        assert(a@.skip(i as int)[0] == a@[i as int]);
        assert(b@.skip(i as int)[0] == b@[i as int]);
        if a[i] != b[i] {
            return a[i] < b[i];
        }
        assert(a@.skip(i as int).drop_first() =~= a@.skip(i + 1));
        assert(b@.skip(i as int).drop_first() =~= b@.skip(i + 1));
        i = i + 1;
    }
    i < b.len()
}

fn before(a: &FileStat, la: &Vec<char>, b: &FileStat, lb: &Vec<char>, sort: Sort) -> (res: bool)
    requires
        la@ == a.label@,
        lb@ == b.label@,
    ensures
        res == sorts_before(*a, *b, sort),
{
    match sort {
        Sort::Tokens => a.tokens > b.tokens || (a.tokens == b.tokens && lex_less(la, lb)),
        Sort::Size => a.bytes > b.bytes || (a.bytes == b.bytes && lex_less(la, lb)),
        Sort::Path => lex_less(la, lb),
        Sort::Discovery => false,
    }
}

/// The index order of a stable sort of `rows` by `sort`.
fn sort_order(rows: &Vec<FileStat>, sort: Sort) -> (res: Vec<usize>)
    ensures
        is_sort_order(rows@, res@.map_values(|k: usize| k as int), sort),
        token_total(pick(rows@, res@.map_values(|k: usize| k as int))) == token_total(rows@),
{
    let mut labels: Vec<Vec<char>> = Vec::new();
    let mut i: usize = 0;
    while i < rows.len()
        invariant
            i <= rows@.len(),
            labels@.len() == i,
            forall|k: int| 0 <= k < i ==> (#[trigger] labels@[k])@ == rows@[k].label@,
        decreases rows@.len() - i,
    {
        labels.push(chars_of(rows[i].label.as_str()));
        i = i + 1;
    }
    let ghost s = rows@;
    let mut order: Vec<usize> = Vec::new();
    let mut n: usize = 0;
    while n < rows.len()
        invariant
            n <= rows@.len(),
            s == rows@,
            labels@.len() == rows@.len(),
            forall|k: int| 0 <= k < rows@.len() ==> (#[trigger] labels@[k])@ == rows@[k].label@,
            is_sort_order(s.take(n as int), order@.map_values(|k: usize| k as int), sort),
            token_total(pick(s.take(n as int), order@.map_values(|k: usize| k as int)))
                == token_total(s.take(n as int)),
        decreases rows@.len() - n,
    {
        let ghost p = order@.map_values(|k: usize| k as int);
        let ghost t = s.take(n as int);
        let ghost t2 = s.take(n + 1);
        assert forall|k: int| 0 <= k < p.len() implies p[k] < n by {
            assert(0 <= p[k] < t.len());
        }
        assert forall|k: int| 0 <= k < order@.len() implies #[trigger] order@[k] < n by {
            assert(p[k] == order@[k] as int);
        }
        let mut q = order.len();
        while q > 0 && before(&rows[n], &labels[n], &rows[order[q - 1]], &labels[order[q - 1]], sort)
            invariant
                q <= order@.len(),
                s == rows@,
                p == order@.map_values(|k: usize| k as int),
                p.len() == order@.len(),
                forall|k: int| 0 <= k < order@.len() ==> #[trigger] order@[k] < n,
                n < rows@.len(),
                labels@.len() == rows@.len(),
                forall|k: int| 0 <= k < rows@.len() ==> (#[trigger] labels@[k])@ == rows@[k].label@,
                forall|k: int| 0 <= k < p.len() ==> 0 <= #[trigger] p[k] < n,
                forall|k: int| q <= k < p.len() ==> sorts_before(s[n as int], s[#[trigger] p[k]], sort),
            decreases q,
        {
            q = q - 1;
        }
        order.insert(q, n);
        proof {
            let p2 = order@.map_values(|k: usize| k as int);
            assert(p2 =~= p.insert(q as int, n as int));
            assert(pick(t2, p2) =~= pick(t, p).insert(q as int, s[n as int])) by {
                assert forall|k: int| 0 <= k < p.len() implies t2[#[trigger] p[k]] == t[p[k]] by {}
            }
            crate::count::lemma_total_insert(pick(t, p), q as int, s[n as int], Measure::Tokens);
            assert(t2.drop_last() =~= t);
            assert forall|k: int| 0 <= k < p2.len() implies 0 <= #[trigger] p2[k] < t2.len() by {
                if k < q {
                    assert(p2[k] == p[k]);
                } else if k > q {
                    assert(p2[k] == p[k - 1]);
                }
            }
            assert forall|k: int| 0 <= k < p.len() implies t2[#[trigger] p[k]] == t[p[k]] by {}
            assert(t2[n as int] == s[n as int]);
            assert(p2.no_duplicates()) by {
                assert forall|a: int, b: int| 0 <= a < b < p2.len() implies p2[a] != p2[b] by {
                    if a < q && b < q {
                        assert(p2[a] == p[a] && p2[b] == p[b]);
                    } else if a < q && b == q {
                        assert(p2[a] == p[a]);
                    } else if a < q {
                        assert(p2[a] == p[a] && p2[b] == p[b - 1]);
                    } else if a == q {
                        assert(p2[b] == p[b - 1]);
                    } else {
                        assert(p2[a] == p[a - 1] && p2[b] == p[b - 1]);
                    }
                }
            }
            assert forall|a: int, b: int| 0 <= a < b < p2.len() implies index_before(
                t2,
                #[trigger] p2[a],
                #[trigger] p2[b],
                sort,
            ) by {
                // Elements below the insertion point come before `n`.
                if q > 0 {
                    let last = p[q - 1];
                    assert(!sorts_before(s[n as int], s[last], sort));
                    assert(index_before(t2, last, n as int, sort));
                }
                if a < q && b < q {
                    assert(p2[a] == p[a] && p2[b] == p[b]);
                    assert(index_before(t, p[a], p[b], sort));
                } else if a < q && b == q {
                    assert(p2[a] == p[a]);
                    if a < q - 1 {
                        let last = p[q - 1];
                        assert(index_before(t, p[a], last, sort));
                        lemma_sorts_before_order(s[p[a]], s[last], s[n as int], sort);
                        lemma_sorts_before_order(s[n as int], s[last], s[p[a]], sort);
                        lemma_sorts_before_order(s[last], s[n as int], s[p[a]], sort);
                        lemma_sorts_before_order(s[p[a]], s[n as int], s[last], sort);
                    }
                } else if a < q {
                    assert(p2[a] == p[a] && p2[b] == p[b - 1]);
                    assert(index_before(t, p[a], p[b - 1], sort));
                } else if a == q {
                    assert(p2[b] == p[b - 1]);
                    assert(sorts_before(s[n as int], s[p[b - 1]], sort));
                } else {
                    assert(p2[a] == p[a - 1] && p2[b] == p[b - 1]);
                    assert(index_before(t, p[a - 1], p[b - 1], sort));
                }
            }
        }
        n = n + 1;
    }
    assert(s.take(rows@.len() as int) =~= s);
    order
}

/// Rows in the chosen direction.
pub open spec fn oriented(s: Seq<FileStat>, reverse: bool) -> Seq<FileStat> {
    if reverse {
        s.reverse()
    } else {
        s
    }
}

/// How many rows `--top` leaves visible.
pub open spec fn shown_count(len: nat, top: Option<usize>) -> nat {
    match top {
        Some(t) => if t < len {
            t as nat
        } else {
            len
        },
        None => len,
    }
}

/// The key `--top` ranks rows by: bytes under `--sort size`, tokens otherwise.
pub open spec fn top_key(sort: Sort) -> Sort {
    if sort == Sort::Size {
        Sort::Size
    } else {
        Sort::Tokens
    }
}

/// The rows of `base` whose index is in `keep` (`inside`) or not in it
/// (`!inside`), in their order in `base`.
pub open spec fn select(base: Seq<FileStat>, keep: Set<int>, inside: bool) -> Seq<FileStat>
    decreases base.len(),
{
    if base.len() == 0 {
        Seq::empty()
    } else {
        let init = select(base.drop_last(), keep, inside);
        if keep.contains(base.len() - 1) == inside {
            init.push(base.last())
        } else {
            init
        }
    }
}

/// `keep` holds the indices of the `shown` largest rows of `base` (by tokens,
/// or by bytes under `--sort size`; ties go to the smaller label, then to the
/// earlier row).
pub open spec fn is_top_set(base: Seq<FileStat>, sort: Sort, shown: nat, keep: Set<int>) -> bool {
    exists|sel: Seq<int>|
        #![trigger is_sort_order(base, sel, top_key(sort))]
        is_sort_order(base, sel, top_key(sort)) && keep == sel.take(shown as int).to_set()
}

/// `rows`, `hidden_count` and `hidden_tokens` are what `--top` and `--sort`
/// make of `base`: the `top` largest rows (all of them without `--top`),
/// ordered stably by `sort` and reversed when asked; the number of the
/// other rows and the sum of their tokens.
pub open spec fn is_arrangement(
    base: Seq<FileStat>,
    sort: Sort,
    reverse: bool,
    top: Option<usize>,
    rows: Seq<FileStat>,
    hidden_count: nat,
    hidden_tokens: nat,
) -> bool {
    let shown = shown_count(base.len(), top);
    exists|keep: Set<int>|
        #![trigger is_top_set(base, sort, shown, keep)]
        is_top_set(base, sort, shown, keep) && arranged_by(
            base,
            keep,
            sort,
            reverse,
            rows,
        ) && hidden_count == base.len() - shown && hidden_tokens == token_total(
            select(base, keep, false),
        )
}

/// `rows` are the rows of `base` kept by `keep`, ordered stably by `sort` and
/// reversed when asked.
pub open spec fn arranged_by(
    base: Seq<FileStat>,
    keep: Set<int>,
    sort: Sort,
    reverse: bool,
    rows: Seq<FileStat>,
) -> bool {
    let kept = select(base, keep, true);
    exists|q: Seq<int>|
        #![trigger is_sort_order(kept, q, sort)]
        is_sort_order(kept, q, sort) && rows == oriented(pick(kept, q), reverse)
}

/// The rows kept and the rows left out share the sum of all rows.
proof fn lemma_select_split(base: Seq<FileStat>, keep: Set<int>)
    ensures
        token_total(select(base, keep, true)) + token_total(select(base, keep, false))
            == token_total(base),
    decreases base.len(),
{
    if base.len() > 0 {
        let p = base.drop_last();
        lemma_select_split(p, keep);
        lemma_token_total_push(select(p, keep, true), base.last());
        lemma_token_total_push(select(p, keep, false), base.last());
        lemma_token_total_push(p, base.last());
        assert(p.push(base.last()) =~= base);
    }
}

proof fn lemma_token_total_push(s: Seq<FileStat>, x: FileStat)
    ensures
        token_total(s.push(x)) == token_total(s) + x.tokens,
{
    assert(s.push(x).drop_last() =~= s);
}

/// The kept rows and the others, taken over a prefix, extend by the next row.
proof fn lemma_select_take(base: Seq<FileStat>, keep: Set<int>, inside: bool, i: int)
    requires
        0 <= i < base.len(),
    ensures
        select(base.take(i + 1), keep, inside) == if keep.contains(i) == inside {
            select(base.take(i), keep, inside).push(base[i])
        } else {
            select(base.take(i), keep, inside)
        },
{
    assert(base.take(i + 1).drop_last() =~= base.take(i));
}

/// The top set behind an arrangement, and the index order of the kept rows.
proof fn arrangement_witness(
    base: Seq<FileStat>,
    sort: Sort,
    reverse: bool,
    top: Option<usize>,
    rows: Seq<FileStat>,
    hidden_count: nat,
    hidden_tokens: nat,
) -> (w: (Set<int>, Seq<int>, Seq<int>))
    requires
        is_arrangement(base, sort, reverse, top, rows, hidden_count, hidden_tokens),
    ensures
        is_sort_order(base, w.1, top_key(sort)),
        w.0 == w.1.take(shown_count(base.len(), top) as int).to_set(),
        is_sort_order(select(base, w.0, true), w.2, sort),
        rows == oriented(pick(select(base, w.0, true), w.2), reverse),
        hidden_count == base.len() - shown_count(base.len(), top),
        hidden_tokens == token_total(select(base, w.0, false)),
{
    let shown = shown_count(base.len(), top);
    let keep = choose|keep: Set<int>|
        #![trigger is_top_set(base, sort, shown, keep)]
        is_top_set(base, sort, shown, keep) && arranged_by(base, keep, sort, reverse, rows)
            && hidden_count == base.len() - shown && hidden_tokens == token_total(
            select(base, keep, false),
        );
    let sel = choose|sel: Seq<int>|
        #![trigger is_sort_order(base, sel, top_key(sort))]
        is_sort_order(base, sel, top_key(sort)) && keep == sel.take(shown as int).to_set();
    let kept = select(base, keep, true);
    let q = choose|q: Seq<int>|
        #![trigger is_sort_order(kept, q, sort)]
        is_sort_order(kept, q, sort) && rows == oriented(pick(kept, q), reverse);
    (keep, sel, q)
}

/// Ordering and trimming is a function of its inputs: two arrangements of the
/// same rows under the same options keep the same rows and cut the same
/// number of rows and tokens.
pub proof fn lemma_arrangement_unique(
    base: Seq<FileStat>,
    sort: Sort,
    reverse: bool,
    top: Option<usize>,
    rows1: Seq<FileStat>,
    hidden_count1: nat,
    hidden_tokens1: nat,
    rows2: Seq<FileStat>,
    hidden_count2: nat,
    hidden_tokens2: nat,
)
    requires
        is_arrangement(base, sort, reverse, top, rows1, hidden_count1, hidden_tokens1),
        is_arrangement(base, sort, reverse, top, rows2, hidden_count2, hidden_tokens2),
    ensures
        rows1 == rows2,
        hidden_count1 == hidden_count2,
        hidden_tokens1 == hidden_tokens2,
{
    let w1 = arrangement_witness(base, sort, reverse, top, rows1, hidden_count1, hidden_tokens1);
    let w2 = arrangement_witness(base, sort, reverse, top, rows2, hidden_count2, hidden_tokens2);
    lemma_sort_order_unique(base, w1.1, w2.1, top_key(sort));
    lemma_sort_order_unique(select(base, w1.0, true), w1.2, w2.2, sort);
}

/// `--top` keeps the largest rows: every kept row has at least as many tokens
/// (bytes, under `--sort size`) as every row left out.
pub proof fn lemma_top_keeps_the_largest(base: Seq<FileStat>, sort: Sort, shown: nat, keep: Set<int>)
    requires
        is_top_set(base, sort, shown, keep),
        shown <= base.len(),
    ensures
        forall|i: int| #[trigger] keep.contains(i) ==> 0 <= i < base.len(),
        forall|i: int, j: int|
            0 <= i < base.len() && 0 <= j < base.len() && #[trigger] keep.contains(i)
                && !#[trigger] keep.contains(j) ==> if sort == Sort::Size {
                base[i].bytes >= base[j].bytes
            } else {
                base[i].tokens >= base[j].tokens
            },
{
    let key = top_key(sort);
    let sel = choose|sel: Seq<int>|
        #![trigger is_sort_order(base, sel, top_key(sort))]
        is_sort_order(base, sel, top_key(sort)) && keep == sel.take(shown as int).to_set();
    let t = sel.take(shown as int);
    assert forall|i: int| #[trigger] keep.contains(i) implies 0 <= i < base.len() by {
        let a = choose|a: int| 0 <= a < t.len() && #[trigger] t[a] == i;
        assert(sel[a] == i);
    }
    assert forall|i: int, j: int|
        0 <= i < base.len() && 0 <= j < base.len() && #[trigger] keep.contains(i)
            && !#[trigger] keep.contains(j) implies if sort == Sort::Size {
        base[i].bytes >= base[j].bytes
    } else {
        base[i].tokens >= base[j].tokens
    } by {
        let a = choose|a: int| 0 <= a < t.len() && #[trigger] t[a] == i;
        lemma_sort_order_covers(base, sel, key, j);
        let b = choose|b: int| 0 <= b < sel.len() && #[trigger] sel[b] == j;
        if b < shown {
            assert(t[b] == j);
        }
        assert(sel[a] == i);
        assert(index_before(base, sel[a], sel[b], key));
        lemma_sorts_before_order(base[i], base[j], base[i], key);
    }
}

/// Consecutive picks of a sort order never go against the sort.
proof fn lemma_pick_in_order(s: Seq<FileStat>, p: Seq<int>, sort: Sort, a: int, b: int)
    requires
        is_sort_order(s, p, sort),
        0 <= a < b < p.len(),
    ensures
        !sorts_before(pick(s, p)[b], pick(s, p)[a], sort),
{
    assert(index_before(s, p[a], p[b], sort));
    lemma_sorts_before_order(s[p[a]], s[p[b]], s[p[a]], sort);
}

/// The shown rows follow the chosen order: with `--sort tokens` (or `size`)
/// from the most tokens (bytes) to the fewest, with `--sort path` in
/// alphabetical order, and the other way round with `--reverse`; no row
/// ever sorts strictly before one shown above it.
pub proof fn lemma_rows_follow_the_sort(
    base: Seq<FileStat>,
    sort: Sort,
    reverse: bool,
    top: Option<usize>,
    rows: Seq<FileStat>,
    hidden_count: nat,
    hidden_tokens: nat,
)
    requires
        is_arrangement(base, sort, reverse, top, rows, hidden_count, hidden_tokens),
    ensures
        forall|i: int, j: int|
            0 <= i < j < rows.len() ==> if reverse {
                !sorts_before(#[trigger] rows[i], #[trigger] rows[j], sort)
            } else {
                !sorts_before(rows[j], rows[i], sort)
            },
        sort == Sort::Tokens ==> forall|i: int, j: int|
            0 <= i < j < rows.len() ==> if reverse {
                #[trigger] rows[i].tokens <= #[trigger] rows[j].tokens
            } else {
                rows[i].tokens >= rows[j].tokens
            },
        sort == Sort::Size ==> forall|i: int, j: int|
            0 <= i < j < rows.len() ==> if reverse {
                #[trigger] rows[i].bytes <= #[trigger] rows[j].bytes
            } else {
                rows[i].bytes >= rows[j].bytes
            },
        sort == Sort::Path ==> forall|i: int, j: int|
            0 <= i < j < rows.len() ==> if reverse {
                !lex_lt((#[trigger] rows[i]).label@, (#[trigger] rows[j]).label@)
            } else {
                !lex_lt(rows[j].label@, rows[i].label@)
            },
{
    let w = arrangement_witness(base, sort, reverse, top, rows, hidden_count, hidden_tokens);
    let kept = select(base, w.0, true);
    let p = w.2;
    let picked = pick(kept, p);
    let n = picked.len();
    assert forall|i: int, j: int| 0 <= i < j < rows.len() implies if reverse {
        !sorts_before(#[trigger] rows[i], #[trigger] rows[j], sort)
    } else {
        !sorts_before(rows[j], rows[i], sort)
    } by {
        if reverse {
            assert(rows[i] == picked[n - 1 - i]);
            assert(rows[j] == picked[n - 1 - j]);
            lemma_pick_in_order(kept, p, sort, n - 1 - j, n - 1 - i);
        } else {
            assert(rows[i] == picked[i]);
            assert(rows[j] == picked[j]);
            lemma_pick_in_order(kept, p, sort, i, j);
        }
    }
}

/// An index order under which nothing sorts before anything else lists the
/// indices as they come.
proof fn lemma_discovery_order_is_identity(s: Seq<FileStat>, p: Seq<int>)
    requires
        is_sort_order(s, p, Sort::Discovery),
    ensures
        forall|k: int| 0 <= k < p.len() ==> #[trigger] p[k] == k,
{
    assert forall|a: int, b: int| 0 <= a < b < p.len() implies #[trigger] p[a] < #[trigger] p[b] by {
        assert(index_before(s, p[a], p[b], Sort::Discovery));
    }
    assert forall|k: int| 0 <= k < p.len() implies #[trigger] p[k] == k by {
        lemma_increasing_lower(p, k, s.len() as int);
        lemma_increasing_upper(p, k, s.len() as int);
    }
}

proof fn lemma_increasing_lower(p: Seq<int>, k: int, n: int)
    requires
        0 <= k < p.len(),
        forall|a: int| 0 <= a < p.len() ==> 0 <= #[trigger] p[a] < n,
        forall|a: int, b: int| 0 <= a < b < p.len() ==> #[trigger] p[a] < #[trigger] p[b],
    ensures
        p[k] >= k,
    decreases k,
{
    if k > 0 {
        lemma_increasing_lower(p, k - 1, n);
        assert(p[k - 1] < p[k]);
    }
}

proof fn lemma_increasing_upper(p: Seq<int>, k: int, n: int)
    requires
        0 <= k < p.len(),
        p.len() == n,
        forall|a: int| 0 <= a < p.len() ==> 0 <= #[trigger] p[a] < n,
        forall|a: int, b: int| 0 <= a < b < p.len() ==> #[trigger] p[a] < #[trigger] p[b],
    ensures
        p[k] <= k,
    decreases p.len() - k,
{
    if k < p.len() - 1 {
        lemma_increasing_upper(p, k + 1, n);
        assert(p[k] < p[k + 1]);
    }
}

/// With every index kept, the kept rows are all rows and none is left out.
proof fn lemma_select_all(base: Seq<FileStat>, keep: Set<int>)
    requires
        forall|i: int| 0 <= i < base.len() ==> #[trigger] keep.contains(i),
    ensures
        select(base, keep, true) == base,
        select(base, keep, false) == Seq::<FileStat>::empty(),
    decreases base.len(),
{
    if base.len() > 0 {
        lemma_select_all(base.drop_last(), keep);
        assert(keep.contains(base.len() - 1));
        assert(base.drop_last().push(base.last()) =~= base);
    }
}

/// Without `--top` (or with one at least as large as the rows) nothing is
/// left out: the rows are all of `base`, ordered stably by `sort` and
/// reversed when asked; with `--sort none` they are `base` itself (reversed
/// when asked).
pub proof fn lemma_no_top_shows_everything(
    base: Seq<FileStat>,
    sort: Sort,
    reverse: bool,
    top: Option<usize>,
    rows: Seq<FileStat>,
    hidden_count: nat,
    hidden_tokens: nat,
)
    requires
        is_arrangement(base, sort, reverse, top, rows, hidden_count, hidden_tokens),
        shown_count(base.len(), top) == base.len(),
    ensures
        hidden_count == 0,
        hidden_tokens == 0,
        exists|q: Seq<int>|
            #![trigger is_sort_order(base, q, sort)]
            is_sort_order(base, q, sort) && rows == oriented(pick(base, q), reverse),
        sort == Sort::Discovery ==> rows == oriented(base, reverse),
{
    let w = arrangement_witness(base, sort, reverse, top, rows, hidden_count, hidden_tokens);
    let sel = w.1;
    assert(sel.take(base.len() as int) =~= sel);
    assert forall|i: int| 0 <= i < base.len() implies #[trigger] w.0.contains(i) by {
        lemma_sort_order_covers(base, sel, top_key(sort), i);
    }
    lemma_select_all(base, w.0);
    assert(is_sort_order(base, w.2, sort));
    if sort == Sort::Discovery {
        lemma_discovery_order_is_identity(base, w.2);
        assert(pick(base, w.2) =~= base);
    }
}

/// `--sort none` keeps the order in which the inputs were found (reversed
/// with `--reverse`): the shown rows are the kept rows in their input order.
pub proof fn lemma_discovery_keeps_order(
    base: Seq<FileStat>,
    reverse: bool,
    top: Option<usize>,
    rows: Seq<FileStat>,
    hidden_count: nat,
    hidden_tokens: nat,
)
    requires
        is_arrangement(base, Sort::Discovery, reverse, top, rows, hidden_count, hidden_tokens),
    ensures
        exists|keep: Set<int>|
            #![trigger is_top_set(base, Sort::Discovery, shown_count(base.len(), top), keep)]
            is_top_set(base, Sort::Discovery, shown_count(base.len(), top), keep) && rows
                == oriented(select(base, keep, true), reverse),
{
    let w = arrangement_witness(base, Sort::Discovery, reverse, top, rows, hidden_count, hidden_tokens);
    let kept = select(base, w.0, true);
    lemma_discovery_order_is_identity(kept, w.2);
    assert(pick(kept, w.2) =~= kept);
    assert(is_sort_order(base, w.1, top_key(Sort::Discovery)));
    assert(is_top_set(base, Sort::Discovery, shown_count(base.len(), top), w.0));
}

/// The kept rows are as many as the kept indices below the length.
proof fn lemma_select_len(base: Seq<FileStat>, keep: Set<int>)
    ensures
        select(base, keep, true).len() == keep.intersect(set_int_range(0, base.len() as int)).len(),
    decreases base.len(),
{
    if base.len() == 0 {
        assert(keep.intersect(set_int_range(0, 0)) =~= Set::<int>::empty());
    } else {
        let m = base.len() - 1;
        lemma_select_len(base.drop_last(), keep);
        lemma_int_range(0, m);
        let below = keep.intersect(set_int_range(0, m));
        lemma_len_subset(below, set_int_range(0, m));
        if keep.contains(m) {
            assert(keep.intersect(set_int_range(0, m + 1)) =~= below.insert(m));
            assert(!below.contains(m));
        } else {
            assert(keep.intersect(set_int_range(0, m + 1)) =~= below);
        }
    }
}

/// `--top N` shows `N` rows when there are that many, all rows otherwise.
pub proof fn lemma_shown_rows_count(
    base: Seq<FileStat>,
    sort: Sort,
    reverse: bool,
    top: Option<usize>,
    rows: Seq<FileStat>,
    hidden_count: nat,
    hidden_tokens: nat,
)
    requires
        is_arrangement(base, sort, reverse, top, rows, hidden_count, hidden_tokens),
    ensures
        rows.len() == shown_count(base.len(), top),
        rows.len() + hidden_count == base.len(),
{
    let w = arrangement_witness(base, sort, reverse, top, rows, hidden_count, hidden_tokens);
    let shown = shown_count(base.len(), top);
    let t = w.1.take(shown as int);
    assert(t.no_duplicates()) by {
        assert forall|a: int, b: int| 0 <= a < b < t.len() implies t[a] != t[b] by {
            assert(t[a] == w.1[a] && t[b] == w.1[b]);
        }
    }
    t.unique_seq_to_set();
    lemma_select_len(base, w.0);
    assert(w.0.intersect(set_int_range(0, base.len() as int)) =~= w.0) by {
        assert forall|i: int| #[trigger] w.0.contains(i) implies 0 <= i < base.len() by {
            let a = choose|a: int| 0 <= a < t.len() && #[trigger] t[a] == i;
            assert(w.1[a] == i);
        }
    }
}

/// Order, keep the largest `top` and orient rows; returns the kept rows, the
/// number of rows cut and their tokens.
pub fn arrange(base: &Vec<FileStat>, sort: Sort, reverse: bool, top: Option<usize>) -> (res: (
    Vec<FileStat>,
    usize,
    usize,
))
    requires
        token_total(base@) <= usize::MAX,
    ensures
        is_arrangement(base@, sort, reverse, top, res.0@, res.1 as nat, res.2 as nat),
        token_total(res.0@) + res.2 == token_total(base@),
{
    let key = if sort == Sort::Size {
        Sort::Size
    } else {
        Sort::Tokens
    };
    let sel = sort_order(base, key);
    let ghost selp = sel@.map_values(|k: usize| k as int);
    let n = base.len();
    assert forall|k: int| 0 <= k < sel@.len() implies #[trigger] sel@[k] < n by {
        assert(selp[k] == sel@[k] as int);
    }
    let shown: usize = match top {
        Some(t) => if t < n {
            t
        } else {
            n
        },
        None => n,
    };
    let ghost keep = selp.take(shown as int).to_set();
    // Mark the first `shown` indices of the ranking.
    let mut marks: Vec<bool> = Vec::new();
    let mut i: usize = 0;
    while i < n
        invariant
            i <= n,
            n == base@.len(),
            marks@.len() == i,
            forall|j: int| 0 <= j < i ==> !#[trigger] marks@[j],
        decreases n - i,
    {
        marks.push(false);
        i = i + 1;
    }
    let mut k: usize = 0;
    while k < shown
        invariant
            k <= shown <= n,
            n == base@.len(),
            sel@.len() == n,
            selp == sel@.map_values(|k: usize| k as int),
            forall|j: int| 0 <= j < sel@.len() ==> #[trigger] sel@[j] < n,
            marks@.len() == n,
            forall|j: int| 0 <= j < n ==> #[trigger] marks@[j] == selp.take(k as int).contains(j),
        decreases shown - k,
    {
        let idx = sel[k];
        marks.set(idx, true);
        proof {
            let t0 = selp.take(k as int);
            let t1 = selp.take(k + 1);
            assert(t1 =~= t0.push(idx as int));
            assert forall|j: int| 0 <= j < n implies #[trigger] marks@[j] == t1.contains(j) by {
                if j == idx {
                    assert(t1[k as int] == j);
                } else {
                    if t1.contains(j) {
                        let w = choose|w: int| 0 <= w < t1.len() && #[trigger] t1[w] == j;
                        assert(t0[w] == j);
                    }
                    if t0.contains(j) {
                        let w = choose|w: int| 0 <= w < t0.len() && #[trigger] t0[w] == j;
                        assert(t1[w] == j);
                    }
                }
            }
        }
        k = k + 1;
    }
    // Split the rows into the kept ones and the rest.
    let mut kept: Vec<FileStat> = Vec::new();
    let mut hidden_tokens: usize = 0;
    let mut i: usize = 0;
    assert(base@.take(0) =~= Seq::<FileStat>::empty());
    while i < n
        invariant
            i <= n,
            n == base@.len(),
            marks@.len() == n,
            forall|j: int| 0 <= j < n ==> #[trigger] marks@[j] == keep.contains(j),
            kept@ == select(base@.take(i as int), keep, true),
            hidden_tokens == token_total(select(base@.take(i as int), keep, false)),
            token_total(base@) <= usize::MAX,
        decreases n - i,
    {
        proof {
            lemma_select_take(base@, keep, true, i as int);
            lemma_select_take(base@, keep, false, i as int);
            lemma_select_split(base@.take(i + 1), keep);
            crate::count::lemma_totals_prefix(base@, i + 1);
            lemma_token_total_push(select(base@.take(i as int), keep, false), base@[i as int]);
        }
        if marks[i] {
            kept.push(base[i].duplicate());
        } else {
            hidden_tokens = hidden_tokens + base[i].tokens;
        }
        i = i + 1;
    }
    assert(base@.take(n as int) =~= base@);
    proof {
        lemma_select_split(base@, keep);
    }
    // Order the kept rows.
    let order = sort_order(&kept, sort);
    let ghost q = order@.map_values(|k: usize| k as int);
    let ghost ordered = oriented(pick(kept@, q), reverse);
    let len = order.len();
    assert forall|k: int| 0 <= k < order@.len() implies #[trigger] order@[k] < kept@.len() by {
        assert(q[k] == order@[k] as int);
    }
    let mut rows: Vec<FileStat> = Vec::new();
    let mut k: usize = 0;
    while k < len
        invariant
            k <= len,
            len == order@.len(),
            len == kept@.len(),
            q == order@.map_values(|k: usize| k as int),
            ordered == oriented(pick(kept@, q), reverse),
            forall|j: int| 0 <= j < order@.len() ==> #[trigger] order@[j] < kept@.len(),
            rows@ == ordered.take(k as int),
        decreases len - k,
    {
        let idx = if reverse {
            order[len - 1 - k]
        } else {
            order[k]
        };
        assert(kept@[idx as int] == ordered[k as int]);
        rows.push(kept[idx].duplicate());
        assert(ordered.take(k + 1) =~= ordered.take(k as int).push(ordered[k as int]));
        k = k + 1;
    }
    proof {
        assert(ordered.take(len as int) =~= ordered);
        lemma_total_reverse(pick(kept@, q), Measure::Tokens);
        assert(is_sort_order(kept@, q, sort));
        assert(arranged_by(base@, keep, sort, reverse, rows@));
        assert(is_sort_order(base@, selp, top_key(sort)));
        assert(shown as nat == shown_count(base@.len(), top));
        assert(is_top_set(base@, sort, shown_count(base@.len(), top), keep));
    }
    (rows, n - shown, hidden_tokens)
}

/// The rows a report is shown with under some options: its stats (or, with
/// `--by-ext`, their per-extension groups) arranged by `--top`, `--sort` and
/// `--reverse`, with the number and tokens of the rows left out.
pub open spec fn is_prepared(
    stats: Seq<FileStat>,
    args: CountArgs,
    rows: Seq<FileStat>,
    hidden_count: nat,
    hidden_tokens: nat,
) -> bool {
    exists|base: Seq<FileStat>|
        {
            &&& (if args.by_ext {
                base.len() == group_keys(stats).len() && forall|j: int|
                    0 <= j < base.len() ==> group_view(#[trigger] base[j], stats, group_keys(stats)[j])
            } else {
                base == stats
            })
            &&& is_arrangement(
                base,
                args.sort,
                args.reverse,
                args.top,
                rows,
                hidden_count,
                hidden_tokens,
            )
        }
}

/// Order and trim the rows according to `--by-ext`, `--sort`, `--reverse` and
/// `--top`: the rows are the report's stats (or their per-extension groups),
/// and the kept rows' tokens plus the cut tokens are the report's total.
pub fn prepare_rows(report: &Report, args: &CountArgs) -> (res: (Vec<FileStat>, usize, usize))
    requires
        sums_fit(report.stats@),
    ensures
        is_prepared(report.stats@, *args, res.0@, res.1 as nat, res.2 as nat),
        token_total(res.0@) + res.2 == token_total(report.stats@),
{
    let base: Vec<FileStat> = if args.by_ext {
        by_extension(report.stats.as_slice())
    } else {
        let mut copy: Vec<FileStat> = Vec::new();
        let mut i: usize = 0;
        while i < report.stats.len()
            invariant
                i <= report.stats@.len(),
                copy@ == report.stats@.take(i as int),
            decreases report.stats@.len() - i,
        {
            copy.push(report.stats[i].duplicate());
            assert(report.stats@.take(i + 1) =~= report.stats@.take(i as int).push(
                report.stats@[i as int],
            ));
            i = i + 1;
        }
        assert(report.stats@.take(report.stats@.len() as int) =~= report.stats@);
        copy
    };
    arrange(&base, args.sort, args.reverse, args.top)
}

} // verus!
