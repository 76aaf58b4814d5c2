//! Names of variables.
use vstd::prelude::*;
use vstd::string::*;

use crate::text::{numeral, write_number};

verus! {

/// How two variables are ordered.
#[derive(Clone, Copy, Debug, PartialEq, Eq, Structural)]
pub enum Comparison {
    Less,
    Equal,
    Greater,
}

/// Something that can name a variable: it is told apart by its view, ordered and printed.
pub trait Variable: Sized + View {
    /// The strict total order of variables.
    spec fn precedes(a: Self::V, b: Self::V) -> bool;

    /// How a variable is printed.
    spec fn name(a: Self::V) -> Seq<char>;

    proof fn lemma_irreflexive(a: Self::V)
        ensures
            !Self::precedes(a, a),
    ;

    proof fn lemma_transitive(a: Self::V, b: Self::V, c: Self::V)
        requires
            Self::precedes(a, b),
            Self::precedes(b, c),
        ensures
            Self::precedes(a, c),
    ;

    proof fn lemma_total(a: Self::V, b: Self::V)
        ensures
            Self::precedes(a, b) || a == b || Self::precedes(b, a),
    ;

    fn compare(&self, other: &Self) -> (r: Comparison)
        ensures
            r == Comparison::Less <==> Self::precedes(self@, other@),
            r == Comparison::Equal <==> self@ == other@,
            r == Comparison::Greater <==> Self::precedes(other@, self@),
    ;

    fn duplicate(&self) -> (r: Self)
        ensures
            r@ == self@,
    ;

    fn display(&self) -> (r: String)
        ensures
            r@ == Self::name(self@),
    ;
}

/// Texts are ordered by the first character in which they differ; a prefix comes first.
pub open spec fn text_precedes(a: Seq<char>, b: Seq<char>) -> bool
    decreases a.len(),
{
    if b.len() == 0 {
        false
    } else if a.len() == 0 {
        true
    } else {
        a[0] < b[0] || (a[0] == b[0] && text_precedes(a.drop_first(), b.drop_first()))
    }
}

proof fn lemma_text_transitive(a: Seq<char>, b: Seq<char>, c: Seq<char>)
    requires
        text_precedes(a, b),
        text_precedes(b, c),
    ensures
        text_precedes(a, c),
    decreases a.len(),
{
    if a.len() > 0 && b.len() > 0 && c.len() > 0 && a[0] == b[0] && b[0] == c[0] {
        lemma_text_transitive(a.drop_first(), b.drop_first(), c.drop_first());
    }
}

proof fn lemma_text_irreflexive(a: Seq<char>)
    ensures
        !text_precedes(a, a),
    decreases a.len(),
{
    if a.len() > 0 {
        lemma_text_irreflexive(a.drop_first());
    }
}

proof fn lemma_text_total(a: Seq<char>, b: Seq<char>)
    ensures
        text_precedes(a, b) || a == b || text_precedes(b, a),
    decreases a.len(),
{
    if a.len() == 0 && b.len() == 0 {
        assert(a =~= b);
    } else if a.len() > 0 && b.len() > 0 && a[0] == b[0] {
        lemma_text_total(a.drop_first(), b.drop_first());
        if a.drop_first() == b.drop_first() {
            assert(a =~= seq![a[0]] + a.drop_first());
            assert(b =~= seq![b[0]] + b.drop_first());
        }
    }
}

/// Texts with the same beginning are ordered by what follows it.
proof fn lemma_text_skip(a: Seq<char>, b: Seq<char>, i: int)
    requires
        0 <= i <= a.len(),
        i <= b.len(),
        forall|j: int| 0 <= j < i ==> a[j] == b[j],
    ensures
        text_precedes(a, b) == text_precedes(a.skip(i), b.skip(i)),
    decreases i,
{
    if i == 0 {
        assert(a.skip(0) =~= a);
        assert(b.skip(0) =~= b);
    } else {
        lemma_text_skip(a, b, i - 1);
        assert(a.skip(i - 1).drop_first() =~= a.skip(i));
        assert(b.skip(i - 1).drop_first() =~= b.skip(i));
    }
}

/// A text comes before another exactly if it is a proper beginning of it, or its character is
/// less in the first place where they differ.
pub proof fn lemma_text_order(a: Seq<char>, b: Seq<char>)
    ensures
        text_precedes(a, b) <==> exists|i: int|
            {
                &&& 0 <= i <= a.len()
                &&& i < b.len()
                &&& #[trigger] a.take(i) == b.take(i)
                &&& i == a.len() || a[i] < b[i]
            },
    decreases a.len(),
{
    if text_precedes(a, b) {
        let i = lemma_first_difference(a, b);
        assert(a.take(i) == b.take(i));
    }
    if exists|i: int|
        {
            &&& 0 <= i <= a.len()
            &&& i < b.len()
            &&& #[trigger] a.take(i) == b.take(i)
            &&& i == a.len() || a[i] < b[i]
        } {
        let i = choose|i: int|
            {
                &&& 0 <= i <= a.len()
                &&& i < b.len()
                &&& #[trigger] a.take(i) == b.take(i)
                &&& i == a.len() || a[i] < b[i]
            };
        assert forall|j: int| 0 <= j < i implies a[j] == b[j] by {
            assert(a.take(i)[j] == b.take(i)[j]);
        }
        lemma_text_skip(a, b, i);
        assert(b.skip(i)[0] == b[i]);
        if i < a.len() {
            assert(a.skip(i)[0] == a[i]);
        }
    }
}

proof fn lemma_first_difference(a: Seq<char>, b: Seq<char>) -> (i: int)
    requires
        text_precedes(a, b),
    ensures
        0 <= i <= a.len(),
        i < b.len(),
        a.take(i) == b.take(i),
        i == a.len() || a[i] < b[i],
    decreases a.len(),
{
    if a.len() == 0 || a[0] < b[0] {
        assert(a.take(0) =~= b.take(0));
        0
    } else {
        let j = lemma_first_difference(a.drop_first(), b.drop_first());
        let i = j + 1;
        assert(a.take(i) =~= b.take(i)) by {
            assert forall|n: int| 0 <= n < i implies a[n] == b[n] by {
                if n > 0 {
                    assert(a.drop_first().take(j)[n - 1] == b.drop_first().take(j)[n - 1]);
                }
            }
        }
        i
    }
}

fn compare_text(a: &str, b: &str) -> (r: Comparison)
    ensures
        r == Comparison::Less <==> text_precedes(a@, b@),
        r == Comparison::Equal <==> a@ == b@,
        r == Comparison::Greater <==> text_precedes(b@, a@),
{
    let n: usize = a.unicode_len();
    let m: usize = b.unicode_len();
    let mut i: usize = 0;
    proof {
        lemma_text_total(a@, b@);
        lemma_text_irreflexive(a@);
        lemma_text_irreflexive(b@);
        if text_precedes(a@, b@) && text_precedes(b@, a@) {
            lemma_text_transitive(a@, b@, a@);
        }
    }
    while i < n && i < m
        invariant
            n == a@.len(),
            m == b@.len(),
            i <= n,
            i <= m,
            forall|j: int| 0 <= j < i ==> a@[j] == b@[j],
            text_precedes(a@, b@) || a@ == b@ || text_precedes(b@, a@),
            !(text_precedes(a@, b@) && text_precedes(b@, a@)),
            a@ == b@ ==> !text_precedes(a@, b@) && !text_precedes(b@, a@),
        decreases n - i,
    {
        let c: char = a.get_char(i);
        let d: char = b.get_char(i);
        proof {
            lemma_text_skip(a@, b@, i as int);
            lemma_text_skip(b@, a@, i as int);
        }
        if c < d {
            return Comparison::Less;
        }
        if d < c {
            return Comparison::Greater;
        }
        i += 1;
    }
    proof {
        lemma_text_skip(a@, b@, i as int);
        lemma_text_skip(b@, a@, i as int);
    }
    if n < m {
        Comparison::Less
    } else if m < n {
        Comparison::Greater
    } else {
        assert(a@ =~= b@);
        Comparison::Equal
    }
}

impl Variable for &'static str {
    open spec fn precedes(a: Seq<char>, b: Seq<char>) -> bool {
        text_precedes(a, b)
    }

    open spec fn name(a: Seq<char>) -> Seq<char> {
        a
    }

    proof fn lemma_irreflexive(a: Seq<char>) {
        lemma_text_irreflexive(a);
    }

    proof fn lemma_transitive(a: Seq<char>, b: Seq<char>, c: Seq<char>) {
        lemma_text_transitive(a, b, c);
    }

    proof fn lemma_total(a: Seq<char>, b: Seq<char>) {
        lemma_text_total(a, b);
    }

    fn compare(&self, other: &Self) -> (r: Comparison) {
        compare_text(self, other)
    }

    fn duplicate(&self) -> (r: Self) {
        *self
    }

    fn display(&self) -> (r: String) {
        (*self).to_owned()
    }
}

/// Variables that are texts are ordered as texts and printed as they are, and those that are
/// numbers are ordered as numbers and printed in decimal.
pub proof fn lemma_variables(a: Seq<char>, b: Seq<char>, m: u64, n: u64)
    ensures
        <&'static str as Variable>::name(a) == a,
        <&'static str as Variable>::precedes(a, b) <==> text_precedes(a, b),
        <u64 as Variable>::name(n) == numeral(10, n as nat),
        <u64 as Variable>::precedes(m, n) <==> m < n,
{
}

impl Variable for u64 {
    open spec fn precedes(a: u64, b: u64) -> bool {
        a < b
    }

    open spec fn name(a: u64) -> Seq<char> {
        numeral(10, a as nat)
    }

    proof fn lemma_irreflexive(a: u64) {
    }

    proof fn lemma_transitive(a: u64, b: u64, c: u64) {
    }

    proof fn lemma_total(a: u64, b: u64) {
    }

    fn compare(&self, other: &Self) -> (r: Comparison) {
        if *self < *other {
            Comparison::Less
        } else if *other < *self {
            Comparison::Greater
        } else {
            Comparison::Equal
        }
    }

    fn duplicate(&self) -> (r: Self) {
        *self
    }

    fn display(&self) -> (r: String) {
        write_number(10, *self)
    }
}

} // verus!
