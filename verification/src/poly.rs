//! The polynomial value type: validated construction with stable sorting by
//! degree, differentiation, and evaluation by folding over the stored terms.
//!
//! A coefficient is carried as an opaque 64-bit payload; the arithmetic on
//! payloads (the product with a degree, the per-term accumulation) is supplied
//! by the caller as a closure, and the contracts relate every stored payload
//! to the closure's postcondition.

use vstd::prelude::*;

use crate::sorting::{
    Term, insert_term, lemma_insert_term_sorted, lemma_sort_terms_multiset, sort_terms,
    sorted_by_degree,
};
use crate::text::{lemma_terms_chars_step, push_degree, string_from_chars, terms_chars};

verus! {

/// Marker for a construction whose coefficient and degree sequences differ in
/// length. Carries no further context.
#[derive(Clone, Copy, Debug, PartialEq, Eq, Structural)]
pub struct MismatchError;

impl MismatchError {
    pub fn message(&self) -> (r: &'static str)
        ensures
            r@ == "Coefficient and degree vectors are not of equal length"@,
    {
        "Coefficient and degree vectors are not of equal length"
    }
}

/// Pairs two index-aligned sequences into the term sequence they describe.
pub open spec fn term_seq(ds: Seq<i32>, cs: Seq<u64>) -> Seq<Term> {
    Seq::new(ds.len(), |i: int| (ds[i], cs[i]))
}

/// The indices of the terms that survive differentiation (degree not zero),
/// in ascending order.
pub open spec fn survivors(ds: Seq<i32>) -> Seq<int>
    decreases ds.len(),
{
    if ds.len() == 0 {
        Seq::empty()
    } else if ds.last() == 0 {
        survivors(ds.drop_last())
    } else {
        survivors(ds.drop_last()).push(ds.len() - 1)
    }
}

/// `chain` records the accumulator before and after each step of a fold of
/// `accumulate` over the aligned coefficient and degree sequences.
pub open spec fn fold_chain<F: Fn(u64, u64, i32) -> u64>(
    accumulate: F,
    cs: Seq<u64>,
    ds: Seq<i32>,
    init: u64,
    chain: Seq<u64>,
) -> bool {
    &&& chain.len() == ds.len() + 1
    &&& chain[0] == init
    &&& forall|j: int|
        0 <= j < ds.len() ==> call_ensures(accumulate, (chain[j], cs[j], ds[j]), #[trigger] chain[j + 1])
}

/// A univariate polynomial: degrees in ascending order, each paired with the
/// coefficient payload at the same index. Values are immutable once built.
#[derive(Debug)]
pub struct Polynomial {
    coefficients: Vec<u64>,
    degrees: Vec<i32>,
}

impl Polynomial {
    pub closed spec fn coeffs(self) -> Seq<u64> {
        self.coefficients@
    }

    pub closed spec fn degs(self) -> Seq<i32> {
        self.degrees@
    }

    pub open spec fn terms(self) -> Seq<Term> {
        term_seq(self.degs(), self.coeffs())
    }

    /// The invariant every constructed polynomial satisfies: the sequences
    /// are index-aligned and the degrees ascend.
    pub open spec fn wf(self) -> bool {
        &&& self.coeffs().len() == self.degs().len()
        &&& sorted_by_degree(self.terms())
    }

    pub fn term_count(&self) -> (n: usize)
        ensures
            n == self.degs().len(),
    {
        self.degrees.len()
    }

    pub fn degree_at(&self, i: usize) -> (d: i32)
        requires
            i < self.degs().len(),
        ensures
            d == self.degs()[i as int],
    {
        self.degrees[i]
    }

    pub fn coefficient_at(&self, i: usize) -> (c: u64)
        requires
            i < self.coeffs().len(),
        ensures
            c == self.coeffs()[i as int],
    {
        self.coefficients[i]
    }

    /// Validated construction: fails exactly when the two sequences differ in
    /// length; otherwise pairs the inputs positionally and stable-sorts the
    /// pairs by ascending degree.
    pub fn new(coefficients: Vec<u64>, degrees: Vec<i32>) -> (r: Result<Polynomial, MismatchError>)
        ensures
            r is Err <==> coefficients@.len() != degrees@.len(),
            r matches Ok(p) ==> p.wf() && p.degs().len() == degrees@.len() && p.terms()
                == sort_terms(term_seq(degrees@, coefficients@)),
    {
        if coefficients.len() != degrees.len() {
            return Err(MismatchError);
        }
        let n = degrees.len();
        let ghost input = term_seq(degrees@, coefficients@);
        let mut rd: Vec<i32> = Vec::new();
        let mut rc: Vec<u64> = Vec::new();
        let mut i: usize = 0;
        while i < n
            invariant
                n == degrees@.len(),
                coefficients@.len() == n,
                input == term_seq(degrees@, coefficients@),
                i <= n,
                rd@.len() == i,
                rc@.len() == i,
                term_seq(rd@, rc@) == sort_terms(input.take(i as int)),
                sorted_by_degree(term_seq(rd@, rc@)),
            decreases n - i,
        {
            let d = degrees[i];
            let c = coefficients[i];
            let mut j: usize = rd.len();
            while j > 0 && rd[j - 1] > d
                invariant
                    j <= rd@.len(),
                    rd@.len() == i,
                    forall|k: int| j <= k < rd@.len() ==> rd@[k] > d,
                decreases j,
            {
                j -= 1;
            }
            proof {
                let cur = term_seq(rd@, rc@);
                assert forall|k: int| 0 <= k < j implies cur[k].0 <= d by {
                    assert(cur[k].0 == rd@[k]);
                    assert(rd@[j - 1] <= d);
                    assert(cur[k].0 <= cur[j - 1].0);
                }
                lemma_insert_term_at((d, c), cur, j as int);
                lemma_sort_terms_step(input, i as int);
                assert(input[i as int] == (d, c));
            }
            rd.insert(j, d);
            rc.insert(j, c);
            proof {
                let prev = sort_terms(input.take(i as int));
                assert(term_seq(rd@, rc@) =~= prev.take(j as int).push((d, c)) + prev.skip(
                    j as int,
                ));
                lemma_insert_term_sorted((d, c), prev);
            }
            i += 1;
        }
        proof {
            assert(input.take(n as int) =~= input);
        }
        Ok(Polynomial { coefficients: rc, degrees: rd })
    }

    /// Differentiation: drops every degree-zero term and turns each remaining
    /// term `(d, c)` into `(d - 1, times(c, d))`, keeping the stored order. The
    /// result stays sorted, so it satisfies the invariant without re-sorting.
    ///
    /// `times` supplies the product of a coefficient payload with its degree;
    /// every payload of the result is related to its source term through
    /// `times`'s postcondition.
    pub fn differentiate<F: Fn(u64, i32) -> u64>(&self, times: F) -> (r: Polynomial)
        requires
            self.wf(),
            forall|i: int| 0 <= i < self.degs().len() ==> self.degs()[i] != i32::MIN,
            forall|c: u64, d: i32| call_requires(times, (c, d)),
        ensures
            r.wf(),
            r.degs().len() == survivors(self.degs()).len(),
            r.coeffs().len() == r.degs().len(),
            forall|j: int|
                0 <= j < r.degs().len() ==> #[trigger] r.degs()[j] == self.degs()[survivors(
                    self.degs(),
                )[j]] - 1,
            forall|j: int|
                0 <= j < r.degs().len() ==> call_ensures(
                    times,
                    (self.coeffs()[survivors(self.degs())[j]], self.degs()[survivors(self.degs())[j]]),
                    #[trigger] r.coeffs()[j],
                ),
    {
        let n = self.degrees.len();
        let mut rd: Vec<i32> = Vec::new();
        let mut rc: Vec<u64> = Vec::new();
        let mut i: usize = 0;
        while i < n
            invariant
                self.wf(),
                n == self.degs().len(),
                forall|k: int| 0 <= k < self.degs().len() ==> self.degs()[k] != i32::MIN,
                forall|c: u64, d: i32| call_requires(times, (c, d)),
                i <= n,
                rd@.len() == survivors(self.degs().take(i as int)).len(),
                rc@.len() == rd@.len(),
                forall|j: int|
                    0 <= j < rd@.len() ==> #[trigger] rd@[j] == self.degs()[survivors(
                        self.degs().take(i as int),
                    )[j]] - 1,
                forall|j: int|
                    0 <= j < rd@.len() ==> call_ensures(
                        times,
                        (
                            self.coeffs()[survivors(self.degs().take(i as int))[j]],
                            self.degs()[survivors(self.degs().take(i as int))[j]],
                        ),
                        #[trigger] rc@[j],
                    ),
            decreases n - i,
        {
            proof {
                lemma_survivors_step(self.degs(), i as int);
                lemma_survivors_props(self.degs().take(i as int));
                lemma_survivors_props(self.degs().take(i as int + 1));
            }
            let d = self.degrees[i];
            if d != 0 {
                let c = self.coefficients[i];
                rd.push(d - 1);
                rc.push(times(c, d));
            }
            i += 1;
        }
        proof {
            assert(self.degs().take(n as int) =~= self.degs());
            lemma_survivors_props(self.degs());
            let sv = survivors(self.degs());
            assert forall|j: int, k: int| 0 <= j < k < rd@.len() implies rd@[j] <= rd@[k] by {
                assert(self.terms()[sv[j]].0 == self.degs()[sv[j]]);
                assert(self.terms()[sv[k]].0 == self.degs()[sv[k]]);
            }
            assert(sorted_by_degree(term_seq(rd@, rc@)));
        }
        Polynomial { coefficients: rc, degrees: rd }
    }

    /// Evaluation: folds `accumulate` once over every stored term, in the
    /// stored (ascending-degree) order, starting from `init`. The witness
    /// chain fixes the exact accumulator passed at each step, so the result
    /// is pinned down as far as `accumulate`'s postcondition pins each step.
    pub fn compute<F: Fn(u64, u64, i32) -> u64>(&self, init: u64, accumulate: F) -> (r: u64)
        requires
            self.wf(),
            forall|a: u64, c: u64, d: i32| call_requires(accumulate, (a, c, d)),
        ensures
            exists|chain: Seq<u64>|
                #[trigger] fold_chain(accumulate, self.coeffs(), self.degs(), init, chain) && r
                    == chain[self.degs().len() as int],
    {
        let n = self.degrees.len();
        let mut acc = init;
        let ghost mut chain: Seq<u64> = seq![init];
        let mut i: usize = 0;
        while i < n
            invariant
                self.wf(),
                n == self.degs().len(),
                forall|a: u64, c: u64, d: i32| call_requires(accumulate, (a, c, d)),
                i <= n,
                chain.len() == i + 1,
                chain[0] == init,
                acc == chain[i as int],
                forall|j: int|
                    0 <= j < i ==> call_ensures(
                        accumulate,
                        (chain[j], self.coeffs()[j], self.degs()[j]),
                        #[trigger] chain[j + 1],
                    ),
            decreases n - i,
        {
            acc = accumulate(acc, self.coefficients[i], self.degrees[i]);
            proof {
                chain = chain.push(acc);
            }
            i += 1;
        }
        proof {
            assert(fold_chain(accumulate, self.coeffs(), self.degs(), init, chain));
        }
        acc
    }

    /// Renders the term list: every term as `(degree, coefficient)` in stored
    /// order, separated by `", "`, with no surrounding brackets. The caller
    /// supplies the text of each coefficient; the degrees are formatted here.
    pub fn render(&self, coefficient_texts: &Vec<String>) -> (r: String)
        requires
            coefficient_texts@.len() == self.degs().len(),
        ensures
            r@ == terms_chars(self.degs(), coefficient_texts@.map_values(|s: String| s@)),
    {
        let n = self.degrees.len();
        let ghost texts = coefficient_texts@.map_values(|s: String| s@);
        let mut out: Vec<char> = Vec::new();
        let mut i: usize = 0;
        while i < n
            invariant
                n == self.degs().len(),
                coefficient_texts@.len() == n,
                texts == coefficient_texts@.map_values(|s: String| s@),
                i <= n,
                out@ == terms_chars(self.degs().take(i as int), texts.take(i as int)),
            decreases n - i,
        {
            if i > 0 {
                out.push(',');
                out.push(' ');
            }
            out.push('(');
            push_degree(self.degrees[i], &mut out);
            out.push(',');
            out.push(' ');
            let s: &String = &coefficient_texts[i];
            let m = s.as_str().unicode_len();
            let ghost mid = out@;
            let mut j: usize = 0;
            while j < m
                invariant
                    m == s@.len(),
                    j <= m,
                    out@ == mid + s@.take(j as int),
                decreases m - j,
            {
                out.push(s.as_str().get_char(j));
                proof {
                    assert(out@ =~= mid + s@.take(j as int + 1));
                }
                j += 1;
            }
            out.push(')');
            proof {
                lemma_terms_chars_step(self.degs(), texts, i as int);
                assert(s@.take(m as int) =~= s@);
                assert(texts[i as int] == s@);
                assert(out@ =~= terms_chars(
                    self.degs().take(i as int + 1),
                    texts.take(i as int + 1),
                ));
            }
            i += 1;
        }
        proof {
            assert(self.degs().take(n as int) =~= self.degs());
            assert(texts.take(n as int) =~= texts);
        }
        string_from_chars(&out)
    }
}

/// Inserting a term at the position found by scanning a sorted sequence (after
/// every degree less than or equal, before every strictly greater degree)
/// matches the specification's stable insertion.
pub proof fn lemma_insert_term_at(t: Term, s: Seq<Term>, p: int)
    requires
        sorted_by_degree(s),
        0 <= p <= s.len(),
        forall|k: int| 0 <= k < p ==> s[k].0 <= t.0,
        forall|k: int| p <= k < s.len() ==> s[k].0 > t.0,
    ensures
        insert_term(t, s) == s.take(p).push(t) + s.skip(p),
    decreases s.len(),
{
    if s.len() == 0 {
        assert(insert_term(t, s) =~= s.take(p).push(t) + s.skip(p));
    } else if t.0 < s[0].0 {
        assert(p == 0);
        assert(insert_term(t, s) =~= s.take(p).push(t) + s.skip(p));
    } else {
        assert(p >= 1);
        assert(sorted_by_degree(s.drop_first()));
        lemma_insert_term_at(t, s.drop_first(), p - 1);
        assert(seq![s[0]] + (s.drop_first().take(p - 1).push(t) + s.drop_first().skip(p - 1))
            =~= s.take(p).push(t) + s.skip(p));
    }
}

/// Sorting one more input term inserts it into the sorted prefix.
pub proof fn lemma_sort_terms_step(s: Seq<Term>, i: int)
    requires
        0 <= i < s.len(),
    ensures
        sort_terms(s.take(i + 1)) == insert_term(s[i], sort_terms(s.take(i))),
{
    assert(s.take(i + 1).drop_last() =~= s.take(i));
    assert(s.take(i + 1).last() == s[i]);
}

/// The survivor indices point at terms of nonzero degree, stay in bounds, and
/// ascend strictly.
pub proof fn lemma_survivors_props(ds: Seq<i32>)
    ensures
        forall|j: int| 0 <= j < survivors(ds).len() ==> 0 <= #[trigger] survivors(ds)[j] < ds.len(),
        forall|j: int|
            0 <= j < survivors(ds).len() ==> ds[#[trigger] survivors(ds)[j]] != 0,
        forall|j: int, k: int|
            0 <= j < k < survivors(ds).len() ==> survivors(ds)[j] < survivors(ds)[k],
    decreases ds.len(),
{
    if ds.len() > 0 {
        lemma_survivors_props(ds.drop_last());
        let sv = survivors(ds);
        let svp = survivors(ds.drop_last());
        assert forall|j: int|
            0 <= j < sv.len() implies 0 <= #[trigger] sv[j] < ds.len() && ds[sv[j]] != 0 by {
            if ds.last() == 0 || j < svp.len() {
                assert(sv[j] == svp[j]);
                assert(0 <= svp[j] < ds.drop_last().len());
                assert(ds.drop_last()[svp[j]] == ds[svp[j]]);
            } else {
                assert(sv[j] == ds.len() - 1);
            }
        }
        assert forall|j: int, k: int| 0 <= j < k < sv.len() implies sv[j] < sv[k] by {
            if ds.last() != 0 && k == svp.len() {
                assert(sv[j] == svp[j]);
                assert(0 <= svp[j] < ds.drop_last().len());
            }
        }
    }
}

/// Extending the scanned prefix by one degree appends its index to the
/// survivors exactly when that degree is not zero.
pub proof fn lemma_survivors_step(ds: Seq<i32>, i: int)
    requires
        0 <= i < ds.len(),
    ensures
        survivors(ds.take(i + 1)) == if ds[i] == 0 {
            survivors(ds.take(i))
        } else {
            survivors(ds.take(i)).push(i)
        },
{
    assert(ds.take(i + 1).drop_last() =~= ds.take(i));
    assert(ds.take(i + 1).last() == ds[i]);
}

/// Pairing preservation: when the input degrees are pairwise distinct, each
/// input pair `(ds[i], cs[i])` stands at exactly one position of the sorted
/// term sequence — it occurs, and no value occurs at two positions.
pub proof fn lemma_pairing_preserved(ds: Seq<i32>, cs: Seq<u64>, i: int)
    requires
        ds.len() == cs.len(),
        0 <= i < ds.len(),
        forall|k: int, l: int| 0 <= k < l < ds.len() ==> ds[k] != ds[l],
    ensures
        sort_terms(term_seq(ds, cs)).contains((ds[i], cs[i])),
        sort_terms(term_seq(ds, cs)).no_duplicates(),
{
    broadcast use vstd::seq_lib::group_to_multiset_ensures;

    let input = term_seq(ds, cs);
    let sorted = sort_terms(input);
    lemma_sort_terms_multiset(input);
    assert(input[i] == (ds[i], cs[i]));
    assert(input.contains((ds[i], cs[i])));
    assert(sorted.to_multiset().count((ds[i], cs[i])) > 0);
    assert(sorted.contains((ds[i], cs[i])));
    assert(input.no_duplicates()) by {
        assert forall|k: int, l: int|
            0 <= k < l < input.len() implies input[k] != input[l] by {
            assert(input[k].0 == ds[k]);
            assert(input[l].0 == ds[l]);
        }
    }
    input.lemma_multiset_has_no_duplicates();
    sorted.lemma_multiset_has_no_duplicates_conv();
}

/// Differentiating a polynomial with no terms yields no terms: together with
/// `differentiate`'s postcondition, the zero polynomial's derivative is the
/// zero polynomial.
pub proof fn lemma_differentiate_zero(p: Polynomial)
    requires
        p.degs().len() == 0,
    ensures
        survivors(p.degs()).len() == 0,
{
}

} // verus!
