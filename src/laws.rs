//! General properties of training, scoring and pruning, proved over the model.
use vstd::prelude::*;
use crate::lookup::{index_of, lemma_index_of_at, lemma_index_of_range};
use crate::model::{keeps, kept_entry, occurrences, power, smoothed_product, Model};
use crate::sums::{column_sum, lemma_sum_nonneg_bound, max_of, sum};

verus! {

/// Sum over the tokens `ts` of their counts under class `c`.
pub open spec fn count_sum(m: Model, ts: Seq<Seq<char>>, c: Seq<char>) -> int
    decreases ts.len(),
{
    if ts.len() == 0 {
        0
    } else {
        count_sum(m, ts.drop_last(), c) + m.count(ts.last(), c)
    }
}

/// One training call or one pruning call leads from `m` to `next`.
pub open spec fn step(m: Model, next: Model) -> bool {
    ||| exists|class: Seq<char>, tokens: Seq<Seq<char>>| #[trigger] m.trains_to(next, class, tokens)
    ||| exists|num: u64, den: u64| den > 0 && #[trigger] m.prunes_to(next, num, den)
}

proof fn lemma_count_sum_prefix(m: Model, c: Seq<char>, k: int)
    requires
        m.wf(),
        m.classes.contains(c),
        0 <= k <= m.vocabulary.len(),
    ensures
        count_sum(m, m.vocabulary.subrange(0, k), c) == column_sum(m.counts.subrange(0, k), index_of(m.classes, c)),
    decreases k,
{
    if k > 0 {
        let vs = m.vocabulary.subrange(0, k);
        let rs = m.counts.subrange(0, k);
        assert(vs.drop_last() =~= m.vocabulary.subrange(0, k - 1));
        assert(rs.drop_last() =~= m.counts.subrange(0, k - 1));
        lemma_count_sum_prefix(m, c, k - 1);
        lemma_index_of_at(m.vocabulary, k - 1);
        lemma_index_of_range(m.classes, c);
        assert(m.counts[k - 1].len() == m.classes.len());
    }
}

/// Every class's total is the sum over the vocabulary of the token's counts
/// under that class, after any run of training and pruning calls from a
/// well-formed model.
pub proof fn lemma_class_totals_match_counts(run: Seq<Model>)
    requires
        run.len() > 0,
        run[0].wf(),
        forall|i: int| 0 <= i < run.len() - 1 ==> step(#[trigger] run[i], run[i + 1]),
    ensures
        forall|i: int, c: Seq<char>| 0 <= i < run.len() && #[trigger] run[i].classes.contains(c)
            ==> run[i].class_total(c) == count_sum(run[i], run[i].vocabulary, c),
{
    assert forall|i: int, c: Seq<char>| 0 <= i < run.len() && #[trigger] run[i].classes.contains(c)
        implies run[i].class_total(c) == count_sum(run[i], run[i].vocabulary, c) by {
        let m = run[i];
        if i > 0 {
            assert(step(run[i - 1], run[i]));
        }
        assert(m.wf());
        lemma_count_sum_prefix(m, c, m.vocabulary.len() as int);
        assert(m.vocabulary.subrange(0, m.vocabulary.len() as int) =~= m.vocabulary);
        assert(m.counts.subrange(0, m.counts.len() as int) =~= m.counts);
        lemma_index_of_range(m.classes, c);
    }
}

/// Training the same example `n` times adds exactly `n` times what one
/// training call adds: to the token counts, the class total and the number
/// of examples of the class.
pub proof fn lemma_repeated_training(run: Seq<Model>, class: Seq<char>, tokens: Seq<Seq<char>>)
    requires
        run.len() > 0,
        forall|i: int| 0 <= i < run.len() - 1 ==> (#[trigger] run[i]).trains_to(run[i + 1], class, tokens),
    ensures
        forall|t: Seq<char>| #[trigger] run.last().count(t, class) == run[0].count(t, class) + (run.len() - 1) * occurrences(tokens, t),
        run.last().class_total(class) == run[0].class_total(class) + (run.len() - 1) * tokens.len(),
        run.last().doc_count(class) == run[0].doc_count(class) + (run.len() - 1),
    decreases run.len(),
{
    if run.len() > 1 {
        let p = run.drop_last();
        assert forall|i: int| 0 <= i < p.len() - 1 implies (#[trigger] p[i]).trains_to(p[i + 1], class, tokens) by {
            assert(run[i].trains_to(run[i + 1], class, tokens));
        }
        lemma_repeated_training(p, class, tokens);
        let n = run.len() - 1;
        assert(run[n - 1].trains_to(run[n], class, tokens));
        assert(p.last() == run[n - 1]);
        assert forall|t: Seq<char>| #[trigger] run.last().count(t, class) == run[0].count(t, class) + (run.len() - 1) * occurrences(tokens, t) by {
            assert(run[n].count(t, class) == run[n - 1].count(t, class) + occurrences(tokens, t));
            assert(p.last().count(t, class) == p[0].count(t, class) + (p.len() - 1) * occurrences(tokens, t));
            assert((n - 1) * occurrences(tokens, t) + occurrences(tokens, t) == n * occurrences(tokens, t)) by (nonlinear_arith);
        }
        assert(run[n].class_total(class) == run[n - 1].class_total(class) + tokens.len());
        assert((n - 1) * tokens.len() + tokens.len() == n * tokens.len()) by (nonlinear_arith);
        assert(run[n].doc_count(class) == run[n - 1].doc_count(class) + 1);
    }
}

/// Training on an example without tokens adds one example to its class and
/// changes no token count and no class total.
pub proof fn lemma_empty_example(m: Model, next: Model, class: Seq<char>)
    requires
        m.trains_to(next, class, Seq::<Seq<char>>::empty()),
    ensures
        next.doc_count(class) == m.doc_count(class) + 1,
        forall|c: Seq<char>| c != class ==> #[trigger] next.doc_count(c) == m.doc_count(c),
        forall|t: Seq<char>, c: Seq<char>| #[trigger] next.count(t, c) == m.count(t, c),
        forall|c: Seq<char>| #[trigger] next.class_total(c) == m.class_total(c),
        next.vocabulary.to_set() == m.vocabulary.to_set(),
{
    assert(next.doc_count(class) == m.doc_count(class) + 1);
    assert forall|t: Seq<char>, c: Seq<char>| #[trigger] next.count(t, c) == m.count(t, c) by {
        assert(next.count(t, c) == m.count(t, c) + if c == class { occurrences(Seq::<Seq<char>>::empty(), t) } else { 0nat });
    }
    assert forall|c: Seq<char>| #[trigger] next.class_total(c) == m.class_total(c) by {
        assert(next.class_total(c) == m.class_total(c) + if c == class { 0nat } else { 0nat });
    }
    assert(next.vocabulary.to_set() =~= m.vocabulary.to_set()) by {
        assert forall|t: Seq<char>| next.vocabulary.contains(t) <==> m.vocabulary.contains(t) by {
            assert(next.vocabulary.contains(t) <==> (m.vocabulary.contains(t) || Seq::<Seq<char>>::empty().contains(t)));
        }
    }
}

/// On an empty input, scores rank classes by their number of training
/// examples alone.
pub proof fn lemma_empty_input_ranks_by_prior(m: Model, c: Seq<char>, d: Seq<char>)
    requires
        m.wf(),
        m.classes.contains(c),
        m.classes.contains(d),
    ensures
        m.ranks_above(c, d, Seq::empty()) <==> m.doc_count(c) > m.doc_count(d),
        m.ties(c, d, Seq::empty()) <==> m.doc_count(c) == m.doc_count(d),
{
    let e = Seq::<Seq<char>>::empty();
    assert(m.token_counts(c, e) =~= Seq::<u64>::empty());
    assert(m.token_counts(d, e) =~= Seq::<u64>::empty());
    assert(smoothed_product(Seq::<u64>::empty()) == 1);
    lemma_index_of_range(m.classes, c);
    let ci = index_of(m.classes, c);
    lemma_sum_nonneg_bound(m.docs, ci);
    let n = m.doc_sum as int;
    let a = m.doc_count(c) as int;
    let b = m.doc_count(d) as int;
    assert(n > 0);
    assert(m.score_num(c, e) == a);
    assert(m.score_num(d, e) == b);
    assert(power((m.class_total(c) + m.vocabulary.len()) as nat, 0) == 1);
    assert(power((m.class_total(d) + m.vocabulary.len()) as nat, 0) == 1);
    assert(m.score_den(c, e) == n);
    assert(m.score_den(d, e) == n);
    assert(a * n > b * n <==> a > b) by (nonlinear_arith)
        requires
            n > 0,
    ;
    assert(a * n == b * n <==> a == b) by (nonlinear_arith)
        requires
            n > 0,
    ;
}

/// A token outside the vocabulary multiplies the score of every class with
/// a given class total by the same factor, so it keeps the order of two
/// such classes, ties included.
pub proof fn lemma_unseen_token_keeps_order(m: Model, c: Seq<char>, d: Seq<char>, ts: Seq<Seq<char>>, u: Seq<char>)
    requires
        m.wf(),
        m.vocabulary.len() > 0,
        !m.vocabulary.contains(u),
        m.class_total(c) == m.class_total(d),
    ensures
        m.ranks_above(c, d, ts.push(u)) <==> m.ranks_above(c, d, ts),
        m.ties(c, d, ts.push(u)) <==> m.ties(c, d, ts),
{
    let us = ts.push(u);
    lemma_index_of_range(m.vocabulary, u);
    assert(m.token_counts(c, us) =~= m.token_counts(c, ts).push(0));
    assert(m.token_counts(d, us) =~= m.token_counts(d, ts).push(0));
    assert(m.token_counts(c, ts).push(0).drop_last() =~= m.token_counts(c, ts));
    assert(m.token_counts(d, ts).push(0).drop_last() =~= m.token_counts(d, ts));
    let k = m.class_total(c) + m.vocabulary.len();
    let nc = m.score_num(c, ts) as int;
    let nd = m.score_num(d, ts) as int;
    let dc = m.score_den(c, ts) as int;
    let dd = m.score_den(d, ts) as int;
    let tc = m.token_counts(c, ts);
    let td = m.token_counts(d, ts);
    assert(tc.push(0).last() == 0);
    assert(td.push(0).last() == 0);
    assert(smoothed_product(tc.push(0)) == smoothed_product(tc) * 1);
    assert(smoothed_product(td.push(0)) == smoothed_product(td) * 1);
    assert(m.score_num(c, us) == nc);
    assert(m.score_num(d, us) == nd);
    assert(m.score_den(c, us) == dc * k) by {
        assert(power(k, us.len()) == power(k, ts.len()) * k);
        assert(m.doc_sum as nat * (power(k, ts.len()) * k) == (m.doc_sum as nat * power(k, ts.len())) * k) by (nonlinear_arith);
    }
    assert(m.score_den(d, us) == dd * k) by {
        assert(power(k, us.len()) == power(k, ts.len()) * k);
        assert(m.doc_sum as nat * (power(k, ts.len()) * k) == (m.doc_sum as nat * power(k, ts.len())) * k) by (nonlinear_arith);
    }
    assert(nc * (dd * k) > nd * (dc * k) <==> nc * dd > nd * dc) by (nonlinear_arith)
        requires
            k > 0,
    ;
    assert(nc * (dd * k) == nd * (dc * k) <==> nc * dd == nd * dc) by (nonlinear_arith)
        requires
            k > 0,
    ;
}

/// Token `t` has a positive count under two different classes.
pub open spec fn in_several_classes(m: Model, t: Seq<char>) -> bool {
    exists|c1: Seq<char>, c2: Seq<char>| c1 != c2 && #[trigger] m.count(t, c1) > 0 && #[trigger] m.count(t, c2) > 0
}

/// At most one entry of `row` is positive.
pub open spec fn at_most_one_positive(row: Seq<u64>) -> bool {
    forall|i: int, j: int| 0 <= i < row.len() && 0 <= j < row.len() && i != j ==> !(row[i] > 0 && row[j] > 0)
}

proof fn lemma_sum_zero(s: Seq<u64>)
    ensures
        sum(s) == 0 <==> forall|i: int| 0 <= i < s.len() ==> s[i] == 0,
    decreases s.len(),
{
    if s.len() > 0 {
        let p = s.drop_last();
        lemma_sum_zero(p);
        crate::sums::lemma_sum_nonneg(p);
        if sum(s) == 0 {
            assert forall|i: int| 0 <= i < s.len() implies s[i] == 0 by {
                if i < p.len() {
                    assert(s[i] == p[i]);
                }
            }
        }
        if forall|i: int| 0 <= i < s.len() ==> s[i] == 0 {
            assert forall|i: int| 0 <= i < p.len() implies p[i] == 0 by {
                assert(s[i] == p[i]);
            }
            assert(s[s.len() - 1] == 0);
        }
    }
}

proof fn lemma_max_covers_sum(row: Seq<u64>)
    ensures
        max_of(row) >= sum(row) <==> at_most_one_positive(row),
    decreases row.len(),
{
    crate::sums::lemma_max_of(row);
    if row.len() > 0 {
        let p = row.drop_last();
        let x = row.last();
        let n = p.len() as int;
        assert(row[n] == x);
        lemma_max_covers_sum(p);
        crate::sums::lemma_max_of(p);
        lemma_sum_zero(p);
        if x == 0 {
            if at_most_one_positive(p) {
                assert forall|i: int, j: int| 0 <= i < row.len() && 0 <= j < row.len() && i != j implies !(row[i] > 0 && row[j] > 0) by {
                    if i < n && j < n {
                        assert(row[i] == p[i] && row[j] == p[j]);
                    }
                }
            }
            if at_most_one_positive(row) {
                assert forall|i: int, j: int| 0 <= i < p.len() && 0 <= j < p.len() && i != j implies !(p[i] > 0 && p[j] > 0) by {
                    assert(row[i] == p[i] && row[j] == p[j]);
                }
            }
        } else if sum(p) == 0 {
            assert forall|i: int, j: int| 0 <= i < row.len() && 0 <= j < row.len() && i != j implies !(row[i] > 0 && row[j] > 0) by {
                if i < n {
                    assert(row[i] == p[i]);
                }
                if j < n {
                    assert(row[j] == p[j]);
                }
            }
        } else {
            let k = choose|k: int| 0 <= k < p.len() && p[k] != 0;
            assert(row[k] == p[k]);
            assert(!(row[k] > 0 && row[n] > 0) ==> !at_most_one_positive(row));
        }
    }
}

/// Pruning at threshold `num / den` keeps exactly the tokens whose rows of
/// counts it keeps, each with all its counts; a removed token counts zero
/// under every class.
pub proof fn lemma_prune_vocabulary(m: Model, next: Model, num: u64, den: u64)
    requires
        m.wf(),
        m.prunes_to(next, num, den),
    ensures
        forall|t: Seq<char>| #[trigger] next.vocabulary.contains(t)
            <==> (m.vocabulary.contains(t) && keeps(m.counts[index_of(m.vocabulary, t)], num, den)),
        forall|t: Seq<char>, c: Seq<char>| #[trigger] next.count(t, c)
            == if next.vocabulary.contains(t) { m.count(t, c) } else { 0nat },
{
    let p = kept_entry(num, den);
    let es = m.entries();
    assert forall|t: Seq<char>| #[trigger] next.vocabulary.contains(t) implies m.vocabulary.contains(t)
        && keeps(m.counts[index_of(m.vocabulary, t)], num, den)
        && next.counts[index_of(next.vocabulary, t)] == m.counts[index_of(m.vocabulary, t)] by {
        lemma_index_of_range(next.vocabulary, t);
        let r = index_of(next.vocabulary, t);
        let e = next.entries()[r];
        assert(es.filter(p)[r] == e);
        es.lemma_filter_pred(p, r);
        assert(es.filter(p).contains(e));
        es.lemma_filter_contains_rev(p, e);
        let q = choose|q: int| 0 <= q < es.len() && es[q] == e;
        assert(m.vocabulary[q] == t);
        lemma_index_of_at(m.vocabulary, q);
    }
    assert forall|t: Seq<char>| m.vocabulary.contains(t) && keeps(m.counts[index_of(m.vocabulary, t)], num, den)
        implies #[trigger] next.vocabulary.contains(t) by {
        lemma_index_of_range(m.vocabulary, t);
        let q = index_of(m.vocabulary, t);
        assert(p(es[q]));
        es.lemma_filter_contains(p, q);
        let r = choose|r: int| 0 <= r < next.entries().len() && next.entries()[r] == es[q];
        assert(next.vocabulary[r] == t);
    }
    assert forall|t: Seq<char>, c: Seq<char>| #[trigger] next.count(t, c)
        == if next.vocabulary.contains(t) { m.count(t, c) } else { 0nat } by {
        lemma_index_of_range(next.vocabulary, t);
        if next.vocabulary.contains(t) {
            assert(next.counts[index_of(next.vocabulary, t)] == m.counts[index_of(m.vocabulary, t)]);
            lemma_index_of_range(m.vocabulary, t);
        }
    }
}

proof fn lemma_sum_at_most_len_times_max(row: Seq<u64>)
    ensures
        sum(row) <= row.len() * max_of(row),
    decreases row.len(),
{
    if row.len() > 0 {
        let p = row.drop_last();
        lemma_sum_at_most_len_times_max(p);
        crate::sums::lemma_max_of(p);
        let (a, b, n) = (max_of(p), max_of(row), p.len() as int);
        assert(a <= b && row.last() <= b);
        assert(n * a <= n * b) by (nonlinear_arith)
            requires
                a <= b,
                n >= 0,
        ;
        assert(n * b + b == (n + 1) * b) by (nonlinear_arith);
    }
}

/// Pruning at a threshold `num / den` at or below the uniform share
/// `1 / |classes|` removes nothing: vocabulary, counts and totals stay as
/// they are. In particular this holds at threshold 0.
pub proof fn lemma_prune_at_or_below_floor(m: Model, next: Model, num: u64, den: u64)
    requires
        m.wf(),
        num * m.classes.len() <= den,
        m.prunes_to(next, num, den),
    ensures
        next.vocabulary == m.vocabulary,
        next.counts == m.counts,
        next.totals == m.totals,
{
    let p = kept_entry(num, den);
    let es = m.entries();
    assert forall|i: int| 0 <= i < es.len() implies p(#[trigger] es[i]) by {
        let row = m.counts[i];
        assert(row.len() == m.classes.len());
        lemma_sum_at_most_len_times_max(row);
        crate::sums::lemma_max_of(row);
        let (mx, sm, l) = (max_of(row), sum(row), row.len() as int);
        assert(!(mx * den < num * sm)) by (nonlinear_arith)
            requires
                sm <= l * mx,
                num * l <= den,
                mx >= 0,
                num >= 0,
        ;
    }
    assert forall|k: int| 0 <= k <= es.len() implies #[trigger] es.subrange(0, k).filter(p) == es.subrange(0, k) by {
        lemma_filter_all(es, p, k);
    }
    assert(es.subrange(0, es.len() as int) =~= es);
    assert(next.entries() == es);
    assert(next.vocabulary.len() == m.vocabulary.len());
    assert(next.vocabulary =~= m.vocabulary) by {
        assert forall|r: int| 0 <= r < m.vocabulary.len() implies next.vocabulary[r] == m.vocabulary[r] by {
            assert(next.entries()[r] == es[r]);
        }
    }
    assert(next.counts =~= m.counts) by {
        assert forall|r: int| 0 <= r < m.counts.len() implies next.counts[r] == m.counts[r] by {
            assert(next.entries()[r] == es[r]);
        }
    }
    assert(next.totals =~= m.totals) by {
        assert forall|c: int| 0 <= c < m.totals.len() implies next.totals[c] == m.totals[c] by {
            assert(next.totals[c] == column_sum(next.counts, c));
        }
    }
}

proof fn lemma_filter_all(es: Seq<(Seq<char>, Seq<u64>)>, p: spec_fn((Seq<char>, Seq<u64>)) -> bool, k: int)
    requires
        0 <= k <= es.len(),
        forall|i: int| 0 <= i < es.len() ==> p(#[trigger] es[i]),
    ensures
        es.subrange(0, k).filter(p) == es.subrange(0, k),
    decreases k,
{
    if k == 0 {
        assert(es.subrange(0, 0).filter(p) =~= es.subrange(0, 0)) by {
            reveal(Seq::filter);
        }
    } else {
        lemma_filter_all(es, p, k - 1);
        assert(es.subrange(0, k) =~= es.subrange(0, k - 1).push(es[k - 1]));
        es.subrange(0, k - 1).lemma_filter_push(es[k - 1], p);
    }
}

/// Pruning at threshold 1 (`num == den`) removes exactly the tokens counted
/// under more than one class.
pub proof fn lemma_prune_at_one(m: Model, next: Model, den: u64)
    requires
        m.wf(),
        den > 0,
        m.prunes_to(next, den, den),
    ensures
        forall|t: Seq<char>| #[trigger] next.vocabulary.contains(t)
            <==> (m.vocabulary.contains(t) && !in_several_classes(m, t)),
{
    lemma_prune_vocabulary(m, next, den, den);
    assert forall|t: Seq<char>| m.vocabulary.contains(t) implies
        keeps(m.counts[index_of(m.vocabulary, t)], den, den) <==> !in_several_classes(m, t) by {
        lemma_index_of_range(m.vocabulary, t);
        let ti = index_of(m.vocabulary, t);
        let row = m.counts[ti];
        assert(row.len() == m.classes.len());
        lemma_max_covers_sum(row);
        let a = max_of(row);
        let b = sum(row);
        assert(!(a * den < den * b) <==> a >= b) by (nonlinear_arith)
            requires
                den > 0,
        ;
        if in_several_classes(m, t) {
            let (c1, c2) = choose|c1: Seq<char>, c2: Seq<char>| c1 != c2 && #[trigger] m.count(t, c1) > 0 && #[trigger] m.count(t, c2) > 0;
            lemma_index_of_range(m.classes, c1);
            lemma_index_of_range(m.classes, c2);
            let i = index_of(m.classes, c1);
            let j = index_of(m.classes, c2);
            assert(row[i] > 0 && row[j] > 0);
        }
        if !at_most_one_positive(row) {
            let (i, j) = choose|i: int, j: int| 0 <= i < row.len() && 0 <= j < row.len() && i != j && row[i] > 0 && row[j] > 0;
            lemma_index_of_at(m.classes, i);
            lemma_index_of_at(m.classes, j);
            assert(m.count(t, m.classes[i]) > 0);
            assert(m.count(t, m.classes[j]) > 0);
        }
    }
}

} // verus!
