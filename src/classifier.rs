//! The classifier: counter tables that training fills, pruning thins out
//! and scoring reads.
use vstd::prelude::*;
use crate::lookup::{distinct, find, index_of, lemma_index_of_at, lemma_index_of_push, lemma_index_of_range, names};
use crate::model::{keeps, kept_entry, occurrences, power, smoothed_product, Model};
use crate::sums::{column_sum, lemma_column_sum_widen, lemma_sum_update, max_of, sum};

verus! {

/// The exact score of one class for one input. As a number it is
/// `ln(docs / doc_sum) + Σ_j ln((token_counts[j] + 1) / (class_total + vocabulary_size))`:
/// the log prior plus the log of each token's add-one smoothed likelihood.
pub struct ClassScore {
    pub class: String,
    pub docs: u64,
    pub doc_sum: u64,
    pub class_total: u64,
    pub vocabulary_size: u64,
    pub token_counts: Vec<u64>,
}

impl ClassScore {
    /// `exp(score) == exact_num() / exact_den()`: the numerator.
    pub open spec fn exact_num(&self) -> nat {
        self.docs as nat * smoothed_product(self.token_counts@)
    }

    /// `exp(score) == exact_num() / exact_den()`: the denominator.
    pub open spec fn exact_den(&self) -> nat {
        self.doc_sum as nat * power((self.class_total + self.vocabulary_size) as nat, self.token_counts@.len())
    }
}

/// A multinomial Naive Bayes classifier over string tokens and string classes.
pub struct Classifier {
    classes: Vec<String>,
    docs: Vec<u64>,
    totals: Vec<u64>,
    vocabulary: Vec<String>,
    counts: Vec<Vec<u64>>,
    doc_sum: u64,
}

impl View for Classifier {
    type V = Model;

    closed spec fn view(&self) -> Model {
        Model {
            classes: names(self.classes@),
            docs: self.docs@,
            totals: self.totals@,
            vocabulary: names(self.vocabulary@),
            counts: self.counts@.map_values(|row: Vec<u64>| row@),
            doc_sum: self.doc_sum,
        }
    }
}

/// Whether pruning at threshold `num / den` keeps a token with this row of
/// per-class counts.
fn row_kept(row: &Vec<u64>, num: u64, den: u64) -> (r: bool)
    ensures
        r == keeps(row@, num, den),
{
    let mut largest: u64 = 0;
    let mut total: u128 = 0;
    let mut i: usize = 0;
    while i < row.len()
        invariant
            i <= row@.len(),
            largest == max_of(row@.subrange(0, i as int)),
            total == sum(row@.subrange(0, i as int)),
            total <= i * (u64::MAX as int),
        decreases row@.len() - i,
    {
        proof {
            let s = row@.subrange(0, i + 1);
            assert(s.drop_last() =~= row@.subrange(0, i as int));
            assert(s.last() == row@[i as int]);
            assert((i + 1) * (u64::MAX as int) <= u128::MAX) by (nonlinear_arith)
                requires
                    i < usize::MAX,
                    usize::MAX <= u64::MAX,
            ;
            assert((i + 1) * (u64::MAX as int) == i * (u64::MAX as int) + u64::MAX) by (nonlinear_arith);
        }
        let x = row[i];
        if x > largest {
            largest = x;
        }
        total = total + x as u128;
        i = i + 1;
    }
    proof {
        assert(row@.subrange(0, row@.len() as int) =~= row@);
    }
    proof {
        assert(largest as u128 * den as u128 <= u64::MAX * u64::MAX) by (nonlinear_arith);
    }
    let lhs: u128 = largest as u128 * den as u128;
    match (num as u128).checked_mul(total) {
        Some(rhs) => !(lhs < rhs),
        None => false,
    }
}

/// Subtracts a removed token's row of counts from the class totals.
fn discount(totals: &mut Vec<u64>, row: &Vec<u64>)
    requires
        old(totals)@.len() == row@.len(),
        forall|c: int| 0 <= c < row@.len() ==> #[trigger] row@[c] <= old(totals)@[c],
    ensures
        final(totals)@.len() == row@.len(),
        forall|c: int| 0 <= c < row@.len() ==> #[trigger] final(totals)@[c] == old(totals)@[c] - row@[c],
{
    let mut c: usize = 0;
    while c < row.len()
        invariant
            c <= row@.len(),
            totals@.len() == row@.len(),
            old(totals)@.len() == row@.len(),
            forall|k: int| 0 <= k < row@.len() ==> #[trigger] row@[k] <= old(totals)@[k],
            forall|k: int| 0 <= k < c ==> #[trigger] totals@[k] == old(totals)@[k] - row@[k],
            forall|k: int| c <= k < row@.len() ==> #[trigger] totals@[k] == old(totals)@[k],
        decreases row@.len() - c,
    {
        let t = totals[c];
        totals.set(c, t - row[c]);
        c = c + 1;
    }
}

impl Classifier {
    /// An empty classifier: no classes, no vocabulary.
    pub fn new() -> (r: Classifier)
        ensures
            r@.wf(),
            r@.classes.len() == 0,
            r@.vocabulary.len() == 0,
            r@.doc_sum == 0,
    {
        let r = Classifier {
            classes: Vec::new(),
            docs: Vec::new(),
            totals: Vec::new(),
            vocabulary: Vec::new(),
            counts: Vec::new(),
            doc_sum: 0,
        };
        assert(r@.docs =~= Seq::<u64>::empty());
        r
    }

    /// Records one training example of `class`: finds or adds the class
    /// and counts the example towards its prior.
    fn enter_document(&mut self, class: &String) -> (ci: usize)
        requires
            old(self)@.wf(),
            old(self)@.doc_sum < u64::MAX,
        ensures
            final(self)@.wf(),
            final(self)@.classes == if old(self)@.classes.contains(class@) {
                old(self)@.classes
            } else {
                old(self)@.classes.push(class@)
            },
            ci < final(self)@.classes.len(),
            ci as int == index_of(final(self)@.classes, class@),
            final(self)@.vocabulary == old(self)@.vocabulary,
            forall|t: Seq<char>, c: Seq<char>| #[trigger] final(self)@.count(t, c) == old(self)@.count(t, c),
            forall|c: Seq<char>| #[trigger] final(self)@.class_total(c) == old(self)@.class_total(c),
            forall|c: Seq<char>| #[trigger] final(self)@.doc_count(c) == old(self)@.doc_count(c) + if c == class@ { 1nat } else { 0nat },
            final(self)@.doc_sum == old(self)@.doc_sum + 1,
    {
        let ghost m0 = self@;
        let ci = match find(&self.classes, class) {
            Some(i) => i,
            None => {
                let n = self.classes.len();
                let mut r: usize = 0;
                while r < self.counts.len()
                    invariant
                        n == self.classes@.len(),
                        self.counts@.len() == m0.counts.len(),
                        0 <= r <= self.counts@.len(),
                        self.classes == old(self).classes,
                        self.vocabulary == old(self).vocabulary,
                        self.docs == old(self).docs,
                        self.totals == old(self).totals,
                        self.doc_sum == old(self).doc_sum,
                        m0 == old(self)@,
                        m0.wf(),
                        forall|k: int| 0 <= k < r ==> #[trigger] self.counts@[k]@ == m0.counts[k].push(0),
                        forall|k: int| r <= k < self.counts@.len() ==> #[trigger] self.counts@[k]@ == m0.counts[k],
                    decreases self.counts@.len() - r,
                {
                    proof {
                        assert(self.counts@[r as int]@ == m0.counts[r as int]);
                    }
                    self.counts[r].push(0);
                    r = r + 1;
                }
                let ghost wide = self.counts@.map_values(|row: Vec<u64>| row@);
                proof {
                    assert forall|k: int| 0 <= k < m0.counts.len() implies #[trigger] wide[k] == m0.counts[k].push(0) && m0.counts[k].len() == n by {
                        assert(self.counts@[k]@ == m0.counts[k].push(0));
                    }
                    lemma_column_sum_widen(m0.counts, wide, n as int);
                }
                self.classes.push(class.clone());
                self.docs.push(0);
                self.totals.push(0);
                proof {
                    assert(names(self.classes@) =~= m0.classes.push(class@));
                    assert(sum(self.docs@) == sum(m0.docs)) by {
                        assert(self.docs@.drop_last() =~= m0.docs);
                    }
                    assert forall|t: Seq<char>, c: Seq<char>| #[trigger] self@.count(t, c) == m0.count(t, c) by {
                        lemma_index_of_push(m0.classes, class@, c);
                        lemma_index_of_range(m0.classes, c);
                        lemma_index_of_range(m0.vocabulary, t);
                        let tr = index_of(m0.vocabulary, t);
                        if tr >= 0 && c != class@ && index_of(m0.classes, c) >= 0 {
                            assert(wide[tr] == m0.counts[tr].push(0));
                        }
                    }
                    assert forall|c: Seq<char>| #[trigger] self@.class_total(c) == m0.class_total(c) by {
                        lemma_index_of_push(m0.classes, class@, c);
                        lemma_index_of_range(m0.classes, c);
                    }
                }
                n
            }
        };
        let ghost m1 = self@;
        proof {
            lemma_index_of_range(self@.classes, class@);
            lemma_index_of_at(self@.classes, ci as int);
            crate::sums::lemma_sum_nonneg_bound(self.docs@, ci as int);
            lemma_sum_update(self.docs@, ci as int, (self.docs@[ci as int] + 1) as u64);
        }
        let d = self.docs[ci];
        self.docs.set(ci, d + 1);
        self.doc_sum = self.doc_sum + 1;
        proof {
            assert forall|t: Seq<char>, c: Seq<char>| #[trigger] self@.count(t, c) == m0.count(t, c) by {
                assert(m1.count(t, c) == m0.count(t, c));
            }
            assert forall|c: Seq<char>| #[trigger] self@.class_total(c) == m0.class_total(c) by {
                assert(m1.class_total(c) == m0.class_total(c));
            }
            assert forall|c: Seq<char>| #[trigger] self@.doc_count(c) == m0.doc_count(c) + if c == class@ { 1nat } else { 0nat } by {
                lemma_index_of_range(m0.classes, c);
                if !m0.classes.contains(class@) {
                    lemma_index_of_push(m0.classes, class@, c);
                }
            }
        }
        ci
    }

    /// Counts one occurrence of `token` under the class at position `ci`,
    /// adding the token to the vocabulary when it is new.
    fn add_occurrence(&mut self, ci: usize, token: &String)
        requires
            old(self)@.wf(),
            ci < old(self)@.classes.len(),
            old(self)@.totals[ci as int] < u64::MAX,
        ensures
            final(self)@.wf(),
            final(self)@.classes == old(self)@.classes,
            final(self)@.docs == old(self)@.docs,
            final(self)@.doc_sum == old(self)@.doc_sum,
            forall|t: Seq<char>| #[trigger] final(self)@.vocabulary.contains(t) <==> (old(self)@.vocabulary.contains(t) || t == token@),
            forall|c: Seq<char>| #[trigger] final(self)@.class_total(c) == old(self)@.class_total(c) + if c == old(self)@.classes[ci as int] { 1nat } else { 0nat },
            forall|t: Seq<char>, c: Seq<char>| #[trigger] final(self)@.count(t, c) == old(self)@.count(t, c) + if t == token@ && c == old(self)@.classes[ci as int] { 1nat } else { 0nat },
    {
        let ghost m0 = self@;
        let n = self.classes.len();
        let ti = match find(&self.vocabulary, token) {
            Some(i) => i,
            None => {
                let mut row: Vec<u64> = Vec::new();
                while row.len() < n
                    invariant
                        row@.len() <= n,
                        forall|k: int| 0 <= k < row@.len() ==> row@[k] == 0,
                    decreases n - row@.len(),
                {
                    row.push(0);
                }
                let ghost zero = row@;
                let ghost old_rows = self.counts@.map_values(|r: Vec<u64>| r@);
                self.vocabulary.push(token.clone());
                self.counts.push(row);
                proof {
                    let rows = self@.counts;
                    assert(self@.vocabulary =~= m0.vocabulary.push(token@));
                    assert(rows =~= m0.counts.push(zero));
                    assert(rows.drop_last() =~= m0.counts);
                    assert forall|c: int| 0 <= c < n implies #[trigger] self@.totals[c] == column_sum(self@.counts, c) by {
                        assert(zero[c] == 0);
                    }
                    assert forall|t: Seq<char>, c: Seq<char>| #[trigger] self@.count(t, c) == m0.count(t, c) by {
                        lemma_index_of_push(m0.vocabulary, token@, t);
                        lemma_index_of_range(m0.classes, c);
                        if t == token@ && index_of(m0.classes, c) >= 0 {
                            assert(zero[index_of(m0.classes, c)] == 0);
                            lemma_index_of_range(m0.vocabulary, t);
                        }
                    }
                }
                self.vocabulary.len() - 1
            }
        };
        let ghost m1 = self@;
        proof {
            lemma_index_of_range(m1.vocabulary, token@);
            lemma_index_of_at(m1.vocabulary, ti as int);
            lemma_index_of_at(m1.classes, ci as int);
            crate::sums::lemma_column_sum_bound(m1.counts, ti as int, ci as int);
        }
        let v = self.counts[ti][ci];
        self.counts[ti].set(ci, v + 1);
        let tot = self.totals[ci];
        self.totals.set(ci, tot + 1);
        proof {
            let row1 = m1.counts[ti as int].update(ci as int, (v + 1) as u64);
            assert(self@.counts =~= m1.counts.update(ti as int, row1));
            assert forall|c: int| 0 <= c < n implies #[trigger] self@.totals[c] == column_sum(self@.counts, c) by {
                crate::sums::lemma_column_sum_update(m1.counts, ti as int, row1, c);
            }
            assert forall|r: int| 0 <= r < self@.counts.len() implies #[trigger] self@.counts[r].len() == n by {
                assert(m1.counts[r].len() == n);
            }
            assert forall|c: Seq<char>| #[trigger] self@.class_total(c) == m0.class_total(c) + if c == m0.classes[ci as int] { 1nat } else { 0nat } by {
                lemma_index_of_range(m0.classes, c);
                assert(m1.class_total(c) == m0.class_total(c));
            }
            assert forall|t: Seq<char>, c: Seq<char>| #[trigger] self@.count(t, c) == m0.count(t, c) + if t == token@ && c == m0.classes[ci as int] { 1nat } else { 0nat } by {
                lemma_index_of_range(m1.classes, c);
                lemma_index_of_range(m1.vocabulary, t);
                assert(m1.count(t, c) == m0.count(t, c));
            }
            assert forall|t: Seq<char>| #[trigger] self@.vocabulary.contains(t) <==> (m0.vocabulary.contains(t) || t == token@) by {
                if t == token@ && !m0.vocabulary.contains(t) {
                    assert(m1.vocabulary[m1.vocabulary.len() - 1] == t);
                }
                if m1.vocabulary.contains(t) && t != token@ {
                    let k = choose|k: int| 0 <= k < m1.vocabulary.len() && m1.vocabulary[k] == t;
                    if !m0.vocabulary.contains(token@) {
                        assert(m1.vocabulary =~= m0.vocabulary.push(token@));
                        assert(m0.vocabulary[k] == t);
                    }
                }
                if m0.vocabulary.contains(t) {
                    let k = choose|k: int| 0 <= k < m0.vocabulary.len() && m0.vocabulary[k] == t;
                    if !m0.vocabulary.contains(token@) {
                        assert(m1.vocabulary =~= m0.vocabulary.push(token@));
                        assert(m1.vocabulary[k] == t);
                    }
                }
            }
        }
    }

    /// Whether one more example of `class` with `n_tokens` tokens fits the
    /// 64-bit counters.
    pub fn has_room(&self, class: &String, n_tokens: usize) -> (r: bool)
        requires
            self@.wf(),
        ensures
            r == (self@.doc_sum < u64::MAX && self@.class_total(class@) + n_tokens <= u64::MAX),
    {
        if self.doc_sum == u64::MAX {
            return false;
        }
        match find(&self.classes, class) {
            Some(ci) => self.totals[ci] as u128 + n_tokens as u128 <= u64::MAX as u128,
            None => {
                proof {
                    lemma_index_of_range(self@.classes, class@);
                }
                n_tokens as u128 <= u64::MAX as u128
            },
        }
    }

    /// Trains on one example: `tokens` labelled with `class`. Every token
    /// occurrence is counted under the class, and the example counts once
    /// towards the class prior, also when `tokens` is empty.
    pub fn train(&mut self, class: String, tokens: Vec<String>)
        requires
            old(self)@.wf(),
            old(self)@.doc_sum < u64::MAX,
            old(self)@.class_total(class@) + tokens@.len() <= u64::MAX,
        ensures
            old(self)@.trains_to(final(self)@, class@, names(tokens@)),
    {
        let ghost m0 = self@;
        let ghost ts = names(tokens@);
        let ci = self.enter_document(&class);
        let mut i: usize = 0;
        while i < tokens.len()
            invariant
                0 <= i <= tokens@.len(),
                ts == names(tokens@),
                m0 == old(self)@,
                self@.wf(),
                ci < self@.classes.len(),
                ci as int == index_of(self@.classes, class@),
                self@.classes == if m0.classes.contains(class@) { m0.classes } else { m0.classes.push(class@) },
                self@.doc_sum == m0.doc_sum + 1,
                m0.class_total(class@) + tokens@.len() <= u64::MAX,
                forall|t: Seq<char>| #[trigger] self@.vocabulary.contains(t) <==> (m0.vocabulary.contains(t) || ts.subrange(0, i as int).contains(t)),
                forall|c: Seq<char>| #[trigger] self@.doc_count(c) == m0.doc_count(c) + if c == class@ { 1nat } else { 0nat },
                forall|c: Seq<char>| #[trigger] self@.class_total(c) == m0.class_total(c) + if c == class@ { i as nat } else { 0nat },
                forall|t: Seq<char>, c: Seq<char>| #[trigger] self@.count(t, c) == m0.count(t, c) + if c == class@ { occurrences(ts.subrange(0, i as int), t) } else { 0nat },
            decreases tokens@.len() - i,
        {
            let ghost m1 = self@;
            proof {
                lemma_index_of_range(m1.classes, class@);
                assert(m1.class_total(class@) == m1.totals[ci as int]);
            }
            self.add_occurrence(ci, &tokens[i]);
            proof {
                let pre = ts.subrange(0, i as int);
                let post = ts.subrange(0, i + 1);
                assert(post.drop_last() =~= pre);
                assert(post.last() == tokens@[i as int]@);
                assert forall|t: Seq<char>| #[trigger] post.contains(t) <==> (pre.contains(t) || t == tokens@[i as int]@) by {
                    if pre.contains(t) {
                        let k = choose|k: int| 0 <= k < pre.len() && pre[k] == t;
                        assert(post[k] == t);
                    }
                    if post.contains(t) && t != tokens@[i as int]@ {
                        let k = choose|k: int| 0 <= k < post.len() && post[k] == t;
                        assert(pre[k] == t);
                    }
                    if t == tokens@[i as int]@ {
                        assert(post[i as int] == t);
                    }
                }
                assert forall|c: Seq<char>| #[trigger] self@.doc_count(c) == m0.doc_count(c) + if c == class@ { 1nat } else { 0nat } by {
                    assert(self@.doc_count(c) == m1.doc_count(c));
                }
                assert forall|t: Seq<char>, c: Seq<char>| #[trigger] self@.count(t, c) == m0.count(t, c) + if c == class@ { occurrences(post, t) } else { 0nat } by {
                    assert(m1.count(t, c) == m0.count(t, c) + if c == class@ { occurrences(pre, t) } else { 0nat });
                }
                assert forall|c: Seq<char>| #[trigger] self@.class_total(c) == m0.class_total(c) + if c == class@ { (i + 1) as nat } else { 0nat } by {
                    assert(m1.class_total(c) == m0.class_total(c) + if c == class@ { i as nat } else { 0nat });
                }
            }
            i = i + 1;
        }
        proof {
            assert(ts.subrange(0, tokens@.len() as int) =~= ts);
        }
    }

    /// Prunes the vocabulary at threshold `num / den`: removes every token
    /// whose largest per-class share of its occurrences lies strictly below
    /// the threshold, with all its counts, and lowers the class totals by
    /// what it had contributed.
    pub fn prune(&mut self, num: u64, den: u64)
        requires
            old(self)@.wf(),
            den > 0,
        ensures
            old(self)@.prunes_to(final(self)@, num, den),
    {
        let ghost m0 = self@;
        let ghost p = kept_entry(num, den);
        let ghost nc = m0.classes.len();
        let mut old_vocab: Vec<String> = Vec::new();
        let mut old_counts: Vec<Vec<u64>> = Vec::new();
        std::mem::swap(&mut self.vocabulary, &mut old_vocab);
        std::mem::swap(&mut self.counts, &mut old_counts);
        let n = old_vocab.len();
        proof {
            assert(old_vocab@.len() == m0.vocabulary.len());
            assert(old_counts@.len() == m0.counts.len());
            assert(m0.entries().subrange(0, 0) =~= Seq::<(Seq<char>, Seq<u64>)>::empty());
            assert(self@.entries() =~= Seq::<(Seq<char>, Seq<u64>)>::empty());
            assert(Seq::<(Seq<char>, Seq<u64>)>::empty().filter(p) =~= Seq::<(Seq<char>, Seq<u64>)>::empty()) by {
                reveal(Seq::filter);
            }
            assert forall|c: int| 0 <= c < nc implies #[trigger] self@.totals[c] == column_sum(self@.counts, c) + column_sum(m0.counts.subrange(0, n as int), c) by {
                assert(m0.counts.subrange(0, n as int) =~= m0.counts);
            }
        }
        let mut i: usize = 0;
        while i < n
            invariant
                i <= n,
                n == m0.vocabulary.len(),
                m0 == old(self)@,
                m0.wf(),
                nc == m0.classes.len(),
                p == kept_entry(num, den),
                old_vocab@.len() == n,
                old_counts@.len() == n,
                forall|k: int| i <= k < n ==> #[trigger] old_vocab@[k]@ == m0.vocabulary[k],
                forall|k: int| i <= k < n ==> #[trigger] old_counts@[k]@ == m0.counts[k],
                self.classes == old(self).classes,
                self.docs == old(self).docs,
                self.doc_sum == old(self).doc_sum,
                self@.totals.len() == nc,
                self@.vocabulary.len() == self@.counts.len(),
                self@.entries() == m0.entries().subrange(0, i as int).filter(p),
                forall|c: int| 0 <= c < nc ==> #[trigger] self@.totals[c] == column_sum(self@.counts, c) + column_sum(m0.counts.subrange(i as int, n as int), c),
                forall|r: int| 0 <= r < self@.counts.len() ==> #[trigger] self@.counts[r].len() == nc,
                forall|k: int| 0 <= k < self@.vocabulary.len() ==> exists|j: int| 0 <= j < i && #[trigger] m0.vocabulary[j] == #[trigger] self@.vocabulary[k],
                distinct(self@.vocabulary),
            decreases n - i,
        {
            let ghost m1 = self@;
            let ghost e = m0.entries()[i as int];
            let ghost rest = m0.counts.subrange(i as int, n as int);
            proof {
                assert(m0.entries().subrange(0, i + 1) =~= m0.entries().subrange(0, i as int).push(e));
                m0.entries().subrange(0, i as int).lemma_filter_push(e, p);
                assert(rest.subrange(1, rest.len() as int) =~= m0.counts.subrange(i + 1, n as int));
                assert(rest[0] == m0.counts[i as int]);
                assert forall|c: int| 0 <= c < nc implies #[trigger] m1.totals[c] == column_sum(m1.counts, c) + m0.counts[i as int][c] + column_sum(m0.counts.subrange(i + 1, n as int), c) by {
                    crate::sums::lemma_column_sum_first(rest, c);
                }
            }
            let mut row: Vec<u64> = Vec::new();
            std::mem::swap(&mut old_counts[i], &mut row);
            proof {
                assert(row@ == m0.counts[i as int]);
                assert(row@.len() == nc);
            }
            if row_kept(&row, num, den) {
                let mut token = String::new();
                std::mem::swap(&mut old_vocab[i], &mut token);
                self.vocabulary.push(token);
                self.counts.push(row);
                proof {
                    assert(self@.vocabulary =~= m1.vocabulary.push(m0.vocabulary[i as int]));
                    assert(self@.counts =~= m1.counts.push(m0.counts[i as int]));
                    assert(self@.entries() =~= m1.entries().push(e));
                    assert(self@.counts.drop_last() =~= m1.counts);
                    assert forall|k: int| 0 <= k < self@.vocabulary.len() implies exists|j: int| 0 <= j < i + 1 && #[trigger] m0.vocabulary[j] == #[trigger] self@.vocabulary[k] by {
                        if k < m1.vocabulary.len() {
                            assert(self@.vocabulary[k] == m1.vocabulary[k]);
                        } else {
                            assert(m0.vocabulary[i as int] == self@.vocabulary[k]);
                        }
                    }
                    assert forall|a: int, b: int| 0 <= a < self@.vocabulary.len() && 0 <= b < self@.vocabulary.len() && a != b implies self@.vocabulary[a] != self@.vocabulary[b] by {
                        if a == m1.vocabulary.len() || b == m1.vocabulary.len() {
                            let k = if a == m1.vocabulary.len() { b } else { a };
                            assert(self@.vocabulary[k] == m1.vocabulary[k]);
                            let j = choose|j: int| 0 <= j < i && #[trigger] m0.vocabulary[j] == m1.vocabulary[k];
                            assert(j != i);
                        } else {
                            assert(self@.vocabulary[a] == m1.vocabulary[a]);
                            assert(self@.vocabulary[b] == m1.vocabulary[b]);
                        }
                    }
                }
            } else {
                proof {
                    assert forall|c: int| 0 <= c < row@.len() implies #[trigger] row@[c] <= self.totals@[c] by {
                        crate::sums::lemma_column_sum_nonneg(m1.counts, c);
                        crate::sums::lemma_column_sum_nonneg(m0.counts.subrange(i + 1, n as int), c);
                    }
                }
                discount(&mut self.totals, &row);
                proof {
                    assert(self@.entries() =~= m1.entries());
                    assert forall|k: int| 0 <= k < self@.vocabulary.len() implies exists|j: int| 0 <= j < i + 1 && #[trigger] m0.vocabulary[j] == #[trigger] self@.vocabulary[k] by {
                        let j = choose|j: int| 0 <= j < i && #[trigger] m0.vocabulary[j] == m1.vocabulary[k];
                        assert(m0.vocabulary[j] == self@.vocabulary[k]);
                    }
                }
            }
            i = i + 1;
        }
        proof {
            assert(m0.entries().subrange(0, n as int) =~= m0.entries());
            assert forall|c: int| 0 <= c < nc implies #[trigger] self@.totals[c] == column_sum(self@.counts, c) by {
                assert(m0.counts.subrange(n as int, n as int) =~= Seq::<Seq<u64>>::empty());
            }
        }
    }

    /// Scores `tokens` against every known class, in the order in which the
    /// classes were first trained. Tokens outside the vocabulary count as
    /// zero for every class. With no classes the result is empty.
    pub fn classify(&self, tokens: Vec<String>) -> (r: Vec<ClassScore>)
        requires
            self@.wf(),
        ensures
            r@.len() == self@.classes.len(),
            forall|i: int| 0 <= i < r@.len() ==> {
                let c = self@.classes[i];
                &&& (#[trigger] r@[i]).class@ == c
                &&& r@[i].docs as nat == self@.doc_count(c)
                &&& r@[i].doc_sum == self@.doc_sum
                &&& r@[i].class_total as nat == self@.class_total(c)
                &&& r@[i].vocabulary_size == self@.vocabulary.len()
                &&& r@[i].token_counts@ == self@.token_counts(c, names(tokens@))
                &&& r@[i].exact_num() == self@.score_num(c, names(tokens@))
                &&& r@[i].exact_den() == self@.score_den(c, names(tokens@))
            },
    {
        let ghost m = self@;
        let ghost ts = names(tokens@);
        let mut rows: Vec<Option<usize>> = Vec::new();
        let mut j: usize = 0;
        while j < tokens.len()
            invariant
                j <= tokens@.len(),
                rows@.len() == j,
                m == self@,
                m.wf(),
                ts == names(tokens@),
                forall|k: int| 0 <= k < j ==> match #[trigger] rows@[k] {
                    Some(t) => t < m.vocabulary.len() && t as int == index_of(m.vocabulary, ts[k]),
                    None => index_of(m.vocabulary, ts[k]) == -1,
                },
            decreases tokens@.len() - j,
        {
            let found = find(&self.vocabulary, &tokens[j]);
            proof {
                lemma_index_of_range(m.vocabulary, ts[j as int]);
            }
            rows.push(found);
            j = j + 1;
        }
        proof {
            assert(self.vocabulary@.len() == m.vocabulary.len());
        }
        let vocabulary_size = self.vocabulary.len() as u64;
        let mut r: Vec<ClassScore> = Vec::new();
        let mut ci: usize = 0;
        while ci < self.classes.len()
            invariant
                ci <= self.classes@.len(),
                m == self@,
                m.wf(),
                ts == names(tokens@),
                vocabulary_size == m.vocabulary.len(),
                rows@.len() == tokens@.len(),
                forall|k: int| 0 <= k < tokens@.len() ==> match #[trigger] rows@[k] {
                    Some(t) => t < m.vocabulary.len() && t as int == index_of(m.vocabulary, ts[k]),
                    None => index_of(m.vocabulary, ts[k]) == -1,
                },
                r@.len() == ci,
                forall|i: int| 0 <= i < ci ==> {
                    let c = m.classes[i];
                    &&& (#[trigger] r@[i]).class@ == c
                    &&& r@[i].docs as nat == m.doc_count(c)
                    &&& r@[i].doc_sum == m.doc_sum
                    &&& r@[i].class_total as nat == m.class_total(c)
                    &&& r@[i].vocabulary_size == m.vocabulary.len()
                    &&& r@[i].token_counts@ == m.token_counts(c, ts)
                },
            decreases self.classes@.len() - ci,
        {
            let ghost c = m.classes[ci as int];
            proof {
                lemma_index_of_at(m.classes, ci as int);
            }
            let mut token_counts: Vec<u64> = Vec::new();
            let mut k: usize = 0;
            while k < rows.len()
                invariant
                    k <= rows@.len(),
                    ci < m.classes.len(),
                    c == m.classes[ci as int],
                    index_of(m.classes, c) == ci as int,
                    m == self@,
                    m.wf(),
                    rows@.len() == tokens@.len(),
                    forall|q: int| 0 <= q < tokens@.len() ==> match #[trigger] rows@[q] {
                        Some(t) => t < m.vocabulary.len() && t as int == index_of(m.vocabulary, ts[q]),
                        None => index_of(m.vocabulary, ts[q]) == -1,
                    },
                    token_counts@.len() == k,
                    forall|q: int| 0 <= q < k ==> #[trigger] token_counts@[q] == m.count(ts[q], c),
                decreases rows@.len() - k,
            {
                let n = match rows[k] {
                    Some(t) => {
                        proof {
                            assert(m.counts[t as int].len() == m.classes.len());
                        }
                        self.counts[t][ci]
                    },
                    None => 0,
                };
                token_counts.push(n);
                k = k + 1;
            }
            proof {
                assert(token_counts@ =~= m.token_counts(c, ts));
            }
            r.push(ClassScore {
                class: self.classes[ci].clone(),
                docs: self.docs[ci],
                doc_sum: self.doc_sum,
                class_total: self.totals[ci],
                vocabulary_size,
                token_counts,
            });
            ci = ci + 1;
        }
        r
    }
}

} // verus!
