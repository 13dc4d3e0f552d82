//! Printing an integer result and reading it back gives the same integer.
use vstd::prelude::*;

use crate::eval::{eval_spec, value_text, Value};
use crate::parse::{
    all_digits, atom_of, digits_value, integer_literal, parse_expr_spec, parse_spec, AtomView,
    SExprView,
};
use crate::render::{decimal, digit_char, integer_text};
use crate::tokenize::{is_boundary, scan, tokens, word_len};

verus! {

proof fn lemma_digit_char(d: int)
    requires
        0 <= d < 10,
    ensures
        digit_char(d) as int - '0' as int == d,
        crate::parse::is_digit(digit_char(d)),
{
}

proof fn lemma_decimal(n: nat)
    ensures
        decimal(n).len() > 0,
        all_digits(decimal(n)),
        digits_value(decimal(n)) == n,
    decreases n,
{
    lemma_digit_char((n % 10) as int);
    if n >= 10 {
        lemma_decimal(n / 10);
        let d = decimal(n);
        assert(d.drop_last() =~= decimal(n / 10));
        assert forall|i: int| 0 <= i < d.len() implies crate::parse::is_digit(#[trigger] d[i]) by {
            if i < d.len() - 1 {
                assert(d[i] == decimal(n / 10)[i]);
            }
        }
        assert(d.last() == digit_char((n % 10) as int));
        assert(n == 10 * (n / 10) + n % 10);
    } else {
        assert(decimal(n).drop_last() =~= Seq::<char>::empty());
        assert(digits_value(Seq::<char>::empty()) == 0);
    }
}

proof fn lemma_word_len_all(s: Seq<char>)
    requires
        forall|i: int| 0 <= i < s.len() ==> !is_boundary(#[trigger] s[i]),
    ensures
        word_len(s) == s.len(),
    decreases s.len(),
{
    if s.len() > 0 {
        let d = s.drop_first();
        assert forall|i: int| 0 <= i < d.len() implies !is_boundary(#[trigger] d[i]) by {
            assert(d[i] == s[i + 1]);
        }
        lemma_word_len_all(d);
    }
}

/// The decimal text of any `i64` is one token, which parses to the atom
/// holding that integer, and that atom evaluates to the same integer in
/// every scope.
pub proof fn lemma_integer_round_trip(i: i64, env: Map<Seq<char>, Value>)
    ensures
        tokens(value_text(Value::Integer(i))) == seq![value_text(Value::Integer(i))],
        parse_spec(value_text(Value::Integer(i))) == Ok::<SExprView, crate::parse::ParseSExprError>(
            SExprView::Atom(AtomView::Integer(i)),
        ),
        eval_spec(SExprView::Atom(AtomView::Integer(i)), env) == Ok::<
            Value,
            crate::eval::EvalErrorView,
        >(Value::Integer(i)),
{
    let t = value_text(Value::Integer(i));
    assert(t == integer_text(i as int));
    let n: nat = if i < 0 { (-i) as nat } else { i as nat };
    lemma_decimal(n);
    let d = decimal(n);
    assert forall|k: int| 0 <= k < t.len() implies !is_boundary(#[trigger] t[k]) by {
        if i < 0 {
            if k > 0 {
                assert(t[k] == d[k - 1]);
                assert(crate::parse::is_digit(d[k - 1]));
            }
        } else {
            assert(crate::parse::is_digit(d[k]));
        }
    }
    lemma_word_len_all(t);
    assert(!is_boundary(t[0]));
    assert(scan(t) == Some((t, Seq::<char>::empty()))) by {
        assert(t.take(t.len() as int) =~= t);
        assert(t.skip(t.len() as int) =~= Seq::<char>::empty());
    }
    assert(tokens(Seq::<char>::empty()) == Seq::<Seq<char>>::empty()) by {
        assert(scan(Seq::<char>::empty()) is None);
    }
    assert(tokens(t) =~= seq![t]);
    if i < 0 {
        assert(t.drop_first() =~= d);
        assert(integer_literal(t) == Some(i as int));
    } else {
        assert(t[0] != '+' && t[0] != '-') by {
            assert(crate::parse::is_digit(d[0]));
        }
        assert(integer_literal(t) == Some(i as int));
    }
    assert(atom_of(t) == AtomView::Integer(i));
    assert(t != crate::parse::open_token() && t != crate::parse::close_token()) by {
        if t.len() == 1 {
            assert(!is_boundary(t[0]));
        }
    }
    assert(seq![t].drop_first() =~= Seq::<Seq<char>>::empty());
    assert(parse_expr_spec(seq![t]) == Ok::<(SExprView, Seq<Seq<char>>), crate::parse::ParseSExprError>(
        (SExprView::Atom(AtomView::Integer(i)), Seq::empty()),
    ));
}

} // verus!
