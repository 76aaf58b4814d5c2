//! What printed numbers and expressions say.
use vstd::prelude::*;
use vstd::string::*;

use crate::linear::{
    has_key, lemma_empty_listing, lemma_listing, lemma_listing_exists, lemma_push_greatest, listing,
    pairs_map,
};
use crate::quadratic::Quadratic;
use crate::range_constraint::Range;
use crate::references::{constant_texts, pair_texts, quadratic_text, term_text};
use crate::symbolic_expression::{signed_text, symbolic_text, BinaryOperator, Symbolic};
use crate::text::{digit, joined, numeral};
use crate::variable::Variable;

verus! {

/// The number that a digit stands for.
pub open spec fn digit_value(c: char) -> int {
    if '0' <= c && c <= '9' {
        c as int - '0' as int
    } else {
        c as int - 'a' as int + 10
    }
}

/// The number that a sequence of digits stands for.
pub open spec fn read_number(base: int, text: Seq<char>) -> int
    decreases text.len(),
{
    if text.len() == 0 {
        0
    } else {
        base * read_number(base, text.drop_last()) + digit_value(text.last())
    }
}

/// All characters are digits of the base.
pub open spec fn digits_only(base: int, text: Seq<char>) -> bool {
    forall|i: int| 0 <= i < text.len() ==> 0 <= digit_value(#[trigger] text[i]) < base
}

/// The text is the number in the base, without leading zeros.
pub open spec fn writes(base: int, text: Seq<char>, n: int) -> bool {
    &&& text.len() > 0
    &&& digits_only(base, text)
    &&& read_number(base, text) == n
    &&& n > 0 ==> text[0] != '0'
    &&& n == 0 ==> text.len() == 1
}

proof fn lemma_digit(d: nat)
    requires
        d < 16,
    ensures
        digit(d).len() == 1,
        digit_value(digit(d)[0]) == d,
        d > 0 ==> digit(d)[0] != '0',
{
    reveal_strlit("0");
    reveal_strlit("1");
    reveal_strlit("2");
    reveal_strlit("3");
    reveal_strlit("4");
    reveal_strlit("5");
    reveal_strlit("6");
    reveal_strlit("7");
    reveal_strlit("8");
    reveal_strlit("9");
    reveal_strlit("a");
    reveal_strlit("b");
    reveal_strlit("c");
    reveal_strlit("d");
    reveal_strlit("e");
    reveal_strlit("f");
}

/// A number that was written can be read back, and has no leading zeros.
pub proof fn lemma_numeral(base: nat, n: nat)
    requires
        2 <= base <= 16,
    ensures
        writes(base as int, numeral(base, n), n as int),
    decreases n,
{
    let text = numeral(base, n);
    if n < base {
        lemma_digit(n);
        assert(text.drop_last() =~= Seq::empty());
        assert(read_number(base as int, text.drop_last()) == 0);
        assert(base * 0 == 0);
    } else {
        vstd::arithmetic::div_mod::lemma_div_decreases(n as int, base as int);
        vstd::arithmetic::div_mod::lemma_fundamental_div_mod(n as int, base as int);
        vstd::arithmetic::div_mod::lemma_mod_bound(n as int, base as int);
        let front = numeral(base, n / base);
        lemma_numeral(base, n / base);
        lemma_digit(n % base);
        assert(text.drop_last() =~= front);
        assert(text.last() == digit(n % base)[0]);
        assert(n / base > 0) by (nonlinear_arith)
            requires
                n >= base,
                base > 0,
        ;
        assert forall|i: int| 0 <= i < text.len() implies 0 <= digit_value(#[trigger] text[i])
            < base by {
            if i < front.len() {
                assert(text[i] == front[i]);
            }
        }
    }
}

/// An element is printed as the integer next to zero that it stands for, with a minus sign if
/// that is negative.
pub proof fn lemma_signed_text(p: int, n: int)
    requires
        2 < p,
        p % 2 == 1,
        0 <= n < p,
    ensures
        n < p - n ==> writes(10, signed_text(p, n), n),
        n > p - n ==> {
            &&& signed_text(p, n).len() > 1
            &&& signed_text(p, n)[0] == '-'
            &&& writes(10, signed_text(p, n).skip(1), p - n)
        },
{
    if n < p - n {
        lemma_numeral(10, n as nat);
    } else {
        lemma_numeral(10, (p - n) as nat);
        reveal_strlit("-");
        assert(signed_text(p, n).skip(1) =~= numeral(10, (p - n) as nat));
    }
}

/// A range constraint is printed with the bounds of its interval in decimal and its mask in
/// hexadecimal.
pub proof fn lemma_range_text(r: Range)
    requires
        0 <= r.min,
        0 <= r.max,
    ensures
        exists|a: Seq<char>, b: Seq<char>, c: Seq<char>|
            {
                &&& #[trigger] writes(10, a, r.min)
                &&& #[trigger] writes(10, b, r.max)
                &&& #[trigger] writes(16, c, r.mask as int)
                &&& r.text() == "["@ + a + ", "@ + b + "] & 0x"@ + c
            },
{
    lemma_numeral(10, r.min as nat);
    lemma_numeral(10, r.max as nat);
    lemma_numeral(16, r.mask as nat);
    let a = numeral(10, r.min as nat);
    let b = numeral(10, r.max as nat);
    let c = numeral(16, r.mask as nat);
    assert(writes(10, a, r.min) && writes(10, b, r.max) && writes(16, c, r.mask as int));
}

/// A number is printed as a number, a symbol as its name, an operation in brackets with its
/// sign between the operands, and a negation with a minus sign in front.
pub proof fn lemma_symbolic_text<V: Variable>(
    p: int,
    n: int,
    k: V::V,
    r: Range,
    a: Symbolic<V::V>,
    b: Symbolic<V::V>,
)
    ensures
        symbolic_text::<V>(p, Symbolic::Concrete(n)) == signed_text(p, n),
        symbolic_text::<V>(p, Symbolic::Symbol(k, r)) == V::name(k),
        symbolic_text::<V>(
            p,
            Symbolic::Binary(Box::new(a), BinaryOperator::Add, Box::new(b)),
        ) == "("@ + symbolic_text::<V>(p, a) + " + "@ + symbolic_text::<V>(p, b) + ")"@,
        symbolic_text::<V>(
            p,
            Symbolic::Binary(Box::new(a), BinaryOperator::Mul, Box::new(b)),
        ) == "("@ + symbolic_text::<V>(p, a) + " * "@ + symbolic_text::<V>(p, b) + ")"@,
        symbolic_text::<V>(
            p,
            Symbolic::Binary(Box::new(a), BinaryOperator::Div, Box::new(b)),
        ) == "("@ + symbolic_text::<V>(p, a) + " / "@ + symbolic_text::<V>(p, b) + ")"@,
        symbolic_text::<V>(p, Symbolic::Negation(Box::new(a))) == "-"@ + symbolic_text::<V>(p, a),
{
}

/// A text with one more part has that behind a separator.
pub proof fn lemma_joined_push(parts: Seq<Seq<char>>, separator: Seq<char>, text: Seq<char>)
    ensures
        joined(Seq::empty(), separator) == Seq::<char>::empty(),
        joined(parts.push(text), separator) == (if parts.len() == 0 {
            text
        } else {
            joined(parts, separator) + separator + text
        }),
{
    assert(parts.push(text).drop_last() =~= parts);
}

/// The printed terms of an expression.
pub open spec fn term_texts<V: Variable>(p: int, q: Quadratic<V::V>) -> Seq<Seq<char>> {
    pair_texts::<V>(p, q.quadratic) + listing::<V, Symbolic<V::V>>(q.linear).map_values(
        |e: (V::V, Symbolic<V::V>)| term_text::<V>(p, e.0, e.1),
    ) + constant_texts::<V>(p, q.constant)
}

/// An expression is printed as its terms with plus signs between them, in the order of
/// products, linear terms by ascending variable, and constant. A product has both factors in
/// brackets, a linear term has the coefficient before the variable unless that is one or minus
/// one, and a constant zero is left out. What would be empty is zero.
pub proof fn lemma_quadratic_text<V: Variable>(
    p: int,
    q: Quadratic<V::V>,
    l: Quadratic<V::V>,
    r: Quadratic<V::V>,
    k: V::V,
    c: Symbolic<V::V>,
    s: Symbolic<V::V>,
)
    requires
        2 < p,
        q.linear.dom().finite(),
        q.constant == Symbolic::<V::V>::Concrete(0),
        forall|j: V::V| #[trigger] q.linear.contains_key(j) ==> V::precedes(j, k),
    ensures
        quadratic_text::<V>(p, q) == (if joined(term_texts::<V>(p, q), " + "@).len() == 0 {
            "0"@
        } else {
            joined(term_texts::<V>(p, q), " + "@)
        }),
        q.quadratic.len() == 0 && q.linear == Map::<V::V, Symbolic<V::V>>::empty() ==> term_texts::<
            V,
        >(p, q) == Seq::<Seq<char>>::empty(),
        q.linear == Map::<V::V, Symbolic<V::V>>::empty() ==> term_texts::<V>(
            p,
            (Quadratic {
                quadratic: q.quadratic.push((l, r)),
                linear: q.linear,
                constant: q.constant,
            }),
        ) == term_texts::<V>(p, q).push(
            "("@ + quadratic_text::<V>(p, l) + ") * ("@ + quadratic_text::<V>(p, r) + ")"@,
        ),
        term_texts::<V>(
            p,
            (Quadratic {
                quadratic: q.quadratic,
                linear: q.linear.insert(k, c),
                constant: q.constant,
            }),
        ) == term_texts::<V>(p, q).push(
            if c == Symbolic::<V::V>::Concrete(1) {
                V::name(k)
            } else if c == Symbolic::<V::V>::Concrete(p - 1) {
                "-"@ + V::name(k)
            } else {
                symbolic_text::<V>(p, c) + " * "@ + V::name(k)
            },
        ),
        s != Symbolic::<V::V>::Concrete(0) ==> term_texts::<V>(
            p,
            (Quadratic { quadratic: q.quadratic, linear: q.linear, constant: s }),
        ) == term_texts::<V>(p, q).push(symbolic_text::<V>(p, s)),
{
    lemma_empty_listing::<V>();
    let t = listing::<V, Symbolic<V::V>>(q.linear);
    let f = |e: (V::V, Symbolic<V::V>)| term_text::<V>(p, e.0, e.1);
    lemma_listing_exists::<V, Symbolic<V::V>>(q.linear);
    assert forall|j: V::V| pairs_map(t).contains_key(j) implies #[trigger] V::precedes(j, k) by {
        assert(q.linear.contains_key(j));
    }
    lemma_push_greatest::<V, Symbolic<V::V>>(t, k, c);
    lemma_listing::<V, Symbolic<V::V>>(t.push((k, c)));
    let none = Seq::<Seq<char>>::empty();
    assert(constant_texts::<V>(p, q.constant) == none);
    let old_texts = term_texts::<V>(p, q);
    let old_pairs = pair_texts::<V>(p, q.quadratic);
    assert(old_texts =~= old_pairs + t.map_values(f));
    let pairs = q.quadratic.push((l, r));
    assert(pairs.drop_last() =~= q.quadratic);
    assert(pairs.last() == (l, r));
    let a = Quadratic { quadratic: pairs, linear: q.linear, constant: q.constant };
    if q.linear == Map::<V::V, Symbolic<V::V>>::empty() {
        assert(t == Seq::<(V::V, Symbolic<V::V>)>::empty());
        assert(t.map_values(f) =~= none);
        assert(term_texts::<V>(p, a) =~= old_texts.push(
            "("@ + quadratic_text::<V>(p, l) + ") * ("@ + quadratic_text::<V>(p, r) + ")"@,
        ));
        if q.quadratic.len() == 0 {
            assert(old_texts =~= none);
        }
    }
    let b = Quadratic {
        quadratic: q.quadratic,
        linear: q.linear.insert(k, c),
        constant: q.constant,
    };
    assert(t.push((k, c)).map_values(f) =~= t.map_values(f).push(term_text::<V>(p, k, c)));
    assert(term_texts::<V>(p, b) =~= old_texts.push(term_text::<V>(p, k, c)));
    let d = Quadratic { quadratic: q.quadratic, linear: q.linear, constant: s };
    if s != Symbolic::<V::V>::Concrete(0) {
        assert(term_texts::<V>(p, d) =~= old_texts.push(symbolic_text::<V>(p, s)));
    }
}

/// An expression with one term is printed as that term, if its text is not empty.
proof fn lemma_one_term<V: Variable>(p: int, q: Quadratic<V::V>, text: Seq<char>)
    requires
        term_texts::<V>(p, q) == Seq::<Seq<char>>::empty().push(text),
        text.len() > 0,
    ensures
        quadratic_text::<V>(p, q) == text,
{
    lemma_joined_push(Seq::empty(), " + "@, text);
}

/// A product of expressions with unknown variables is printed as both of them in brackets.
pub proof fn lemma_printed_product<V: Variable>(p: int, a: Quadratic<V::V>, b: Quadratic<V::V>)
    requires
        2 < p,
        !a.is_known(),
        !b.is_known(),
    ensures
        quadratic_text::<V>(p, a.times(p, b)) == "("@ + quadratic_text::<V>(p, a) + ") * ("@
            + quadratic_text::<V>(p, b) + ")"@,
{
    let q = a.times(p, b);
    let text = "("@ + quadratic_text::<V>(p, a) + ") * ("@ + quadratic_text::<V>(p, b) + ")"@;
    reveal_strlit("(");
    lemma_empty_listing::<V>();
    let none = Seq::<Seq<char>>::empty();
    assert(q.quadratic.drop_last() =~= Seq::empty());
    assert(q.quadratic.last() == (a, b));
    assert(pair_texts::<V>(p, q.quadratic.drop_last()) == none);
    assert(term_texts::<V>(p, q) =~= none.push(text));
    lemma_one_term::<V>(p, q, text);
}

/// A variable is printed as its name.
pub proof fn lemma_printed_unknown<V: Variable>(p: int, k: V::V)
    requires
        2 < p,
        V::name(k).len() > 0,
    ensures
        quadratic_text::<V>(p, Quadratic::of_unknown(k)) == V::name(k),
{
    let q = Quadratic::of_unknown(k);
    let one = Symbolic::<V::V>::Concrete(1);
    let t = seq![(k, one)];
    lemma_listing::<V, Symbolic<V::V>>(t);
    assert(pairs_map(t) =~= q.linear) by {
        assert(t[0].0 == k);
        assert(has_key(t, k));
    }
    let none = Seq::<Seq<char>>::empty();
    assert(pair_texts::<V>(p, q.quadratic) == none);
    assert(term_texts::<V>(p, q) =~= none.push(V::name(k)));
    lemma_one_term::<V>(p, q, V::name(k));
}

/// A known expression is printed as that, if its text is not empty.
pub proof fn lemma_printed_known<V: Variable>(p: int, s: Symbolic<V::V>)
    requires
        2 < p,
        symbolic_text::<V>(p, s).len() > 0,
    ensures
        quadratic_text::<V>(p, Quadratic::of_known(s)) == symbolic_text::<V>(p, s),
{
    let q = Quadratic::of_known(s);
    let none = Seq::<Seq<char>>::empty();
    lemma_empty_listing::<V>();
    assert(pair_texts::<V>(p, q.quadratic) == none);
    if s.is_zero() {
        assert(numeral(10, 0) == digit(0));
        assert(term_texts::<V>(p, q) =~= none);
    } else {
        assert(term_texts::<V>(p, q) =~= none.push(symbolic_text::<V>(p, s)));
        lemma_one_term::<V>(p, q, symbolic_text::<V>(p, s));
    }
}

} // verus!
