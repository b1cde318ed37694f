//! The mathematical model of a classifier: its counter tables, their
//! invariant, and what training, pruning and scoring mean on them.
use vstd::prelude::*;
use crate::lookup::{distinct, index_of};
use crate::sums::{column_sum, max_of, sum};

verus! {

/// Counter tables. Class `classes[c]` has `docs[c]` training examples and
/// `totals[c]` token occurrences; token `vocabulary[t]` occurred
/// `counts[t][c]` times under class `classes[c]`.
pub struct Model {
    pub classes: Seq<Seq<char>>,
    pub docs: Seq<u64>,
    pub totals: Seq<u64>,
    pub vocabulary: Seq<Seq<char>>,
    pub counts: Seq<Seq<u64>>,
    pub doc_sum: u64,
}

/// Number of times `x` occurs in `s`.
pub open spec fn occurrences(s: Seq<Seq<char>>, x: Seq<char>) -> nat
    decreases s.len(),
{
    if s.len() == 0 {
        0
    } else {
        occurrences(s.drop_last(), x) + if s.last() == x { 1nat } else { 0nat }
    }
}

/// A row of counts is kept by pruning at threshold `num / den` unless its
/// largest share `max / sum` lies strictly below the threshold.
pub open spec fn keeps(row: Seq<u64>, num: u64, den: u64) -> bool {
    !(max_of(row) * den < num * sum(row))
}

/// The entries that pruning at threshold `num / den` keeps.
pub open spec fn kept_entry(num: u64, den: u64) -> spec_fn((Seq<char>, Seq<u64>)) -> bool {
    |e: (Seq<char>, Seq<u64>)| keeps(e.1, num, den)
}

/// `b` to the power `e`.
pub open spec fn power(b: nat, e: nat) -> nat
    decreases e,
{
    if e == 0 {
        1
    } else {
        power(b, (e - 1) as nat) * b
    }
}

/// Product of the smoothed counts `k + 1` of a sequence of token counts.
pub open spec fn smoothed_product(ks: Seq<u64>) -> nat
    decreases ks.len(),
{
    if ks.len() == 0 {
        1
    } else {
        smoothed_product(ks.drop_last()) * (ks.last() + 1) as nat
    }
}

impl Model {
    /// The tables agree in shape, names are distinct, every class total is
    /// the sum of its column of token counts, every class has at least one
    /// example, and `doc_sum` is the number of all examples.
    pub open spec fn wf(self) -> bool {
        &&& self.docs.len() == self.classes.len()
        &&& self.totals.len() == self.classes.len()
        &&& self.counts.len() == self.vocabulary.len()
        &&& distinct(self.classes)
        &&& distinct(self.vocabulary)
        &&& forall|r: int| 0 <= r < self.counts.len() ==> #[trigger] self.counts[r].len() == self.classes.len()
        &&& forall|c: int| 0 <= c < self.classes.len() ==> #[trigger] self.totals[c] == column_sum(self.counts, c)
        &&& forall|c: int| 0 <= c < self.classes.len() ==> #[trigger] self.docs[c] >= 1
        &&& self.doc_sum == sum(self.docs)
    }

    /// Number of training examples given for class `c`.
    pub open spec fn doc_count(self, c: Seq<char>) -> nat {
        let i = index_of(self.classes, c);
        if i >= 0 { self.docs[i] as nat } else { 0 }
    }

    /// Number of token occurrences recorded under class `c`.
    pub open spec fn class_total(self, c: Seq<char>) -> nat {
        let i = index_of(self.classes, c);
        if i >= 0 { self.totals[i] as nat } else { 0 }
    }

    /// Number of occurrences of token `t` recorded under class `c`.
    pub open spec fn count(self, t: Seq<char>, c: Seq<char>) -> nat {
        let r = index_of(self.vocabulary, t);
        let i = index_of(self.classes, c);
        if r >= 0 && i >= 0 { self.counts[r][i] as nat } else { 0 }
    }

    /// The vocabulary paired with each token's row of per-class counts.
    pub open spec fn entries(self) -> Seq<(Seq<char>, Seq<u64>)> {
        Seq::new(self.vocabulary.len(), |r: int| (self.vocabulary[r], self.counts[r]))
    }

    /// Counts of each token of `ts` under class `c`.
    pub open spec fn token_counts(self, c: Seq<char>, ts: Seq<Seq<char>>) -> Seq<u64> {
        Seq::new(ts.len(), |j: int| self.count(ts[j], c) as u64)
    }

    /// Numerator of the exact score of class `c` for input `ts`: the prior
    /// numerator times, for each token, its add-one smoothed count.
    pub open spec fn score_num(self, c: Seq<char>, ts: Seq<Seq<char>>) -> nat {
        self.doc_count(c) * smoothed_product(self.token_counts(c, ts))
    }

    /// Denominator of the exact score of class `c` for input `ts`: the
    /// number of examples times, for each token, the class total plus the
    /// vocabulary size.
    pub open spec fn score_den(self, c: Seq<char>, ts: Seq<Seq<char>>) -> nat {
        self.doc_sum as nat * power(self.class_total(c) + self.vocabulary.len(), ts.len())
    }

    /// Class `c` scores strictly higher than class `d` on input `ts`.
    pub open spec fn ranks_above(self, c: Seq<char>, d: Seq<char>, ts: Seq<Seq<char>>) -> bool {
        self.score_num(c, ts) * self.score_den(d, ts) > self.score_num(d, ts) * self.score_den(c, ts)
    }

    /// Classes `c` and `d` score the same on input `ts`.
    pub open spec fn ties(self, c: Seq<char>, d: Seq<char>, ts: Seq<Seq<char>>) -> bool {
        self.score_num(c, ts) * self.score_den(d, ts) == self.score_num(d, ts) * self.score_den(c, ts)
    }

    /// `next` is `self` after one training example of class `class` with
    /// the token sequence `tokens`.
    pub open spec fn trains_to(self, next: Model, class: Seq<char>, tokens: Seq<Seq<char>>) -> bool {
        &&& next.wf()
        &&& next.classes == if self.classes.contains(class) {
            self.classes
        } else {
            self.classes.push(class)
        }
        &&& forall|t: Seq<char>| #[trigger] next.vocabulary.contains(t) <==> (self.vocabulary.contains(t) || tokens.contains(t))
        &&& forall|c: Seq<char>| #[trigger] next.doc_count(c) == self.doc_count(c) + if c == class { 1nat } else { 0nat }
        &&& forall|c: Seq<char>| #[trigger] next.class_total(c) == self.class_total(c) + if c == class { tokens.len() } else { 0nat }
        &&& forall|t: Seq<char>, c: Seq<char>| #[trigger] next.count(t, c) == self.count(t, c) + if c == class { occurrences(tokens, t) } else { 0nat }
        &&& next.doc_sum == self.doc_sum + 1
    }

    /// `next` is `self` after pruning at threshold `num / den`: the classes
    /// and their example counts stay, and exactly the tokens whose rows are
    /// kept remain, in their order and with their counts.
    pub open spec fn prunes_to(self, next: Model, num: u64, den: u64) -> bool {
        &&& next.wf()
        &&& next.classes == self.classes
        &&& next.docs == self.docs
        &&& next.doc_sum == self.doc_sum
        &&& next.entries() == self.entries().filter(kept_entry(num, den))
    }
}

} // verus!
