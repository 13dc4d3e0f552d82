//! Building syntax trees from tokens by recursive descent.
use vstd::prelude::*;
use vstd::string::*;

use crate::tokenize::{scan_one_token, tokens, Tokenizer};

verus! {

/// A leaf of the syntax tree.
#[derive(Debug, PartialEq, Eq)]
pub enum Atom {
    Symbol(String),
    Integer(i64),
}

/// A syntax tree: an atom, or a parenthesised list of trees.
#[derive(Debug, PartialEq, Eq)]
pub enum SExpr {
    Atom(Atom),
    SList(Vec<SExpr>),
}

/// Why a token sequence does not start with an expression.
#[derive(Debug, PartialEq, Eq, Structural, Clone, Copy)]
pub enum ParseSExprError {
    /// The tokens ran out where an expression had to begin.
    UnexpectedEnd,
    /// A list was expected, or an expression began with `)`.
    ExpectedOpenParen,
    /// A `(` was never closed before the tokens ran out.
    UnmatchedParen,
}

/// The mathematical value of an [`Atom`].
pub enum AtomView {
    Symbol(Seq<char>),
    Integer(i64),
}

/// The mathematical value of an [`SExpr`].
pub enum SExprView {
    Atom(AtomView),
    SList(Seq<SExprView>),
}

impl View for Atom {
    type V = AtomView;

    open spec fn view(&self) -> AtomView {
        match self {
            Atom::Symbol(s) => AtomView::Symbol(s@),
            Atom::Integer(i) => AtomView::Integer(*i),
        }
    }
}

impl View for SExpr {
    type V = SExprView;

    open spec fn view(&self) -> SExprView {
        sexpr_view(self)
    }
}

pub open spec fn sexpr_view(e: &SExpr) -> SExprView
    decreases e,
{
    match e {
        SExpr::Atom(a) => SExprView::Atom(a@),
        SExpr::SList(v) => SExprView::SList(sexprs_view(v@)),
    }
}

/// The views of a sequence of trees, in order.
pub open spec fn sexprs_view(s: Seq<SExpr>) -> Seq<SExprView>
    decreases s,
{
    if s.len() == 0 {
        Seq::empty()
    } else {
        sexprs_view(s.drop_last()).push(sexpr_view(&s.last()))
    }
}

pub open spec fn is_digit(c: char) -> bool {
    '0' <= c && c <= '9'
}

pub open spec fn all_digits(s: Seq<char>) -> bool {
    forall|i: int| 0 <= i < s.len() ==> is_digit(#[trigger] s[i])
}

/// The number that a run of decimal digits denotes.
pub open spec fn digits_value(s: Seq<char>) -> int
    decreases s.len(),
{
    if s.len() == 0 {
        0
    } else {
        10 * digits_value(s.drop_last()) + (s.last() as int - '0' as int)
    }
}

/// The integer that `s` spells: an optional `+` or `-` followed by one or
/// more decimal digits, and nothing else. `None` for any other text.
pub open spec fn integer_literal(s: Seq<char>) -> Option<int> {
    if s.len() > 0 && (s[0] == '+' || s[0] == '-') {
        let body = s.drop_first();
        if body.len() > 0 && all_digits(body) {
            Some(if s[0] == '-' { -digits_value(body) } else { digits_value(body) })
        } else {
            None
        }
    } else if s.len() > 0 && all_digits(s) {
        Some(digits_value(s))
    } else {
        None
    }
}

/// The signed 64-bit integer that `s` spells, if it spells one in range.
pub open spec fn i64_literal(s: Seq<char>) -> Option<i64> {
    match integer_literal(s) {
        Some(v) => if i64::MIN <= v <= i64::MAX {
            Some(v as i64)
        } else {
            None
        },
        None => None,
    }
}

/// The atom that a token stands for: an integer where the whole token is an
/// in-range integer literal, a symbol otherwise.
pub open spec fn atom_of(token: Seq<char>) -> AtomView {
    match i64_literal(token) {
        Some(i) => AtomView::Integer(i),
        None => AtomView::Symbol(token),
    }
}

proof fn lemma_digits_value_grows(s: Seq<char>, k: int)
    requires
        all_digits(s),
        0 <= k <= s.len(),
    ensures
        0 <= digits_value(s.take(k)) <= digits_value(s),
    decreases s.len(),
{
    if s.len() > 0 {
        let d = s.drop_last();
        assert(all_digits(d)) by {
            assert forall|i: int| 0 <= i < d.len() implies is_digit(#[trigger] d[i]) by {
                assert(d[i] == s[i]);
            }
        }
        assert(is_digit(s[s.len() - 1]));
        if k < s.len() {
            lemma_digits_value_grows(d, k);
            assert(d.take(k) =~= s.take(k));
        } else {
            lemma_digits_value_grows(d, 0);
            assert(s.take(k) =~= s);
        }
    } else {
        assert(s.take(k) =~= s);
    }
}

/// Reads `s` as a signed 64-bit decimal integer, as `i64::from_str` does:
/// an optional sign, then at least one digit, within range.
pub fn parse_i64(s: &str) -> (r: Option<i64>)
    ensures
        r == i64_literal(s@),
{
    let len = s.unicode_len();
    if len == 0 {
        return None;
    }
    let first = s.get_char(0);
    let negative = first == '-';
    let start: usize = if first == '+' || first == '-' { 1 } else { 0 };
    if start == len {
        return None;
    }
    let ghost body = s@.skip(start as int);
    assert(start == 1 ==> body =~= s@.drop_first());
    assert(start == 0 ==> body =~= s@);
    let mut magnitude: u128 = 0;
    let mut i: usize = start;
    assert(body.take(0) =~= Seq::<char>::empty());
    while i < len
        invariant
            start <= i <= len,
            len == s@.len(),
            body == s@.skip(start as int),
            start == 1 ==> body == s@.drop_first(),
            start == 0 ==> body == s@,
            s@.len() > 0,
            (start == 1) == (s@[0] == '+' || s@[0] == '-'),
            start <= 1,
            negative == (s@[0] == '-'),
            all_digits(body.take(i - start)),
            magnitude as int == digits_value(body.take(i - start)),
            magnitude <= 0x8000_0000_0000_0000,
        decreases len - i,
    {
        let c = s.get_char(i);
        if !('0' <= c && c <= '9') {
            assert(!all_digits(body)) by {
                assert(body[i - start] == c);
            }
            return None;
        }
        let ghost prefix = body.take(i + 1 - start);
        assert(prefix.drop_last() =~= body.take(i - start));
        assert(prefix.last() == c);
        let d = (c as u32 - '0' as u32) as u128;
        assert(magnitude * 10 + d <= 0x8000_0000_0000_0000 * 10 + 9) by (nonlinear_arith)
            requires
                magnitude <= 0x8000_0000_0000_0000,
                d <= 9,
        ;
        magnitude = magnitude * 10 + d;
        i += 1;
        assert(all_digits(body.take(i - start))) by {
            assert forall|j: int| 0 <= j < prefix.len() implies is_digit(#[trigger] prefix[j]) by {
                if j < prefix.len() - 1 {
                    assert(prefix[j] == body.take(i - 1 - start)[j]);
                }
            }
        }
        if magnitude > 0x8000_0000_0000_0000 {
            proof {
                if all_digits(body) {
                    lemma_digits_value_grows(body, i - start);
                }
            }
            return None;
        }
    }
    assert(body.take(i - start) =~= body);
    if negative {
        Some((0 - magnitude as i128) as i64)
    } else if magnitude <= 0x7fff_ffff_ffff_ffff {
        Some(magnitude as i64)
    } else {
        None
    }
}

pub open spec fn open_token() -> Seq<char> {
    seq!['(']
}

pub open spec fn close_token() -> Seq<char> {
    seq![')']
}

/// Puts `front` before the items of a successful list parse.
pub open spec fn prepend(
    front: Seq<SExprView>,
    r: Result<(Seq<SExprView>, Seq<Seq<char>>), ParseSExprError>,
) -> Result<(Seq<SExprView>, Seq<Seq<char>>), ParseSExprError> {
    match r {
        Ok((items, rest)) => Ok((front + items, rest)),
        Err(e) => Err(e),
    }
}

/// The expression at the front of `ts`, and the tokens after it.
pub open spec fn parse_expr_spec(ts: Seq<Seq<char>>) -> Result<
    (SExprView, Seq<Seq<char>>),
    ParseSExprError,
>
    decreases ts.len(), 0nat,
{
    if ts.len() == 0 {
        Err(ParseSExprError::UnexpectedEnd)
    } else if ts[0] == open_token() {
        match parse_items_spec(ts.drop_first()) {
            Ok((items, rest)) => Ok((SExprView::SList(items), rest)),
            Err(e) => Err(e),
        }
    } else if ts[0] == close_token() {
        Err(ParseSExprError::ExpectedOpenParen)
    } else {
        Ok((SExprView::Atom(atom_of(ts[0])), ts.drop_first()))
    }
}

/// The items of a list whose `(` has been read, up to and including its `)`,
/// and the tokens after that `)`.
pub open spec fn parse_items_spec(ts: Seq<Seq<char>>) -> Result<
    (Seq<SExprView>, Seq<Seq<char>>),
    ParseSExprError,
>
    decreases ts.len(), 1nat,
{
    if ts.len() == 0 {
        Err(ParseSExprError::UnmatchedParen)
    } else if ts[0] == close_token() {
        Ok((Seq::empty(), ts.drop_first()))
    } else {
        match parse_expr_spec(ts) {
            Err(e) => Err(e),
            Ok((e, rest)) => if rest.len() < ts.len() {
                prepend(seq![e], parse_items_spec(rest))
            } else {
                Err(ParseSExprError::UnmatchedParen)
            },
        }
    }
}

/// A parenthesised list at the front of `ts`.
pub open spec fn parse_list_spec(ts: Seq<Seq<char>>) -> Result<
    (Seq<SExprView>, Seq<Seq<char>>),
    ParseSExprError,
> {
    if ts.len() == 0 {
        Err(ParseSExprError::UnexpectedEnd)
    } else if ts[0] != open_token() {
        Err(ParseSExprError::ExpectedOpenParen)
    } else {
        parse_items_spec(ts.drop_first())
    }
}

/// The first expression of the text `s`.
pub open spec fn parse_spec(s: Seq<char>) -> Result<SExprView, ParseSExprError> {
    match parse_expr_spec(tokens(s)) {
        Ok((e, _)) => Ok(e),
        Err(e) => Err(e),
    }
}

/// A successful parse consumes at least one token and leaves a suffix.
pub proof fn lemma_parse_consumes(ts: Seq<Seq<char>>)
    ensures
        parse_expr_spec(ts) matches Ok((_, rest)) ==> rest.len() < ts.len() && rest == ts.skip(
            ts.len() - rest.len(),
        ),
        parse_items_spec(ts) matches Ok((_, rest)) ==> rest.len() < ts.len() && rest == ts.skip(
            ts.len() - rest.len(),
        ),
    decreases ts.len(),
{
    if ts.len() > 0 {
        let d = ts.drop_first();
        lemma_parse_consumes(d);
        if let Ok((_, rest)) = parse_items_spec(d) {
            assert(ts.skip(ts.len() - rest.len()) =~= d.skip(d.len() - rest.len()));
        }
        assert(ts.skip(1) =~= d);
        if ts[0] != close_token() {
            if let Ok((_, rest)) = parse_expr_spec(ts) {
                lemma_parse_consumes(rest);
                if let Ok((_, rest2)) = parse_items_spec(rest) {
                    assert(ts.skip(ts.len() - rest2.len()) =~= rest.skip(rest.len() - rest2.len()));
                }
            }
        }
    }
}

/// A list's view is the list of its items' views.
pub proof fn lemma_list_view(v: Vec<SExpr>)
    ensures
        SExpr::SList(v)@ == SExprView::SList(v@.map_values(|e: SExpr| e@)),
{
    lemma_sexprs_view(v@);
}

proof fn lemma_sexprs_view(s: Seq<SExpr>)
    ensures
        sexprs_view(s) == s.map_values(|e: SExpr| e@),
    decreases s.len(),
{
    if s.len() > 0 {
        lemma_sexprs_view(s.drop_last());
        assert(sexprs_view(s) =~= s.map_values(|e: SExpr| e@));
    } else {
        assert(sexprs_view(s) =~= s.map_values(|e: SExpr| e@));
    }
}

fn is_token(t: &str, c: char) -> (r: bool)
    ensures
        r == (t@ == seq![c]),
{
    if t.unicode_len() == 1 {
        let first = t.get_char(0);
        assert(first == c ==> t@ =~= seq![c]);
        first == c
    } else {
        false
    }
}

impl Atom {
    /// The atom that a single token stands for.
    pub fn from_token(token: &str) -> (r: Atom)
        ensures
            r@ == atom_of(token@),
    {
        match parse_i64(token) {
            Some(i) => Atom::Integer(i),
            None => Atom::Symbol(token.to_owned()),
        }
    }
}

/// A pull-based parser: each call of `parse_expr` reads exactly the tokens of
/// one expression and leaves the rest in `tokenizer`. A caller that wants the
/// whole text to be one expression checks that `tokenizer` is used up.
pub struct Parser<'a> {
    pub tokenizer: Tokenizer<'a>,
}

impl<'a> Parser<'a> {
    /// The tokens not yet read.
    pub open spec fn pending(&self) -> Seq<Seq<char>> {
        self.tokenizer.pending()
    }

    /// A parser that reads the tokens that `tokenizer` hands out.
    pub fn new(tokenizer: Tokenizer<'a>) -> (r: Parser<'a>)
        ensures
            r.tokenizer == tokenizer,
    {
        Parser { tokenizer }
    }

    /// The next token, left unread.
    fn peek(&self) -> (r: Option<&'a str>)
        ensures
            match r {
                None => self.pending().len() == 0,
                Some(t) => self.pending().len() > 0 && t@ == self.pending()[0],
            },
    {
        match scan_one_token(self.tokenizer.remaining) {
            Some((token, _)) => Some(token),
            None => None,
        }
    }

    /// Reads the next token, which the caller has seen to be `expected`.
    fn consume_token(&mut self, expected: &str)
        requires
            old(self).pending().len() > 0,
            old(self).pending()[0] == expected@,
        ensures
            final(self).pending() == old(self).pending().drop_first(),
    {
        let _ = self.tokenizer.next_token();
    }

    /// Reads one token as an atom.
    fn parse_atom(&mut self) -> (r: Result<Atom, ParseSExprError>)
        ensures
            old(self).pending().len() == 0 ==> r == Err::<Atom, _>(ParseSExprError::UnexpectedEnd),
            old(self).pending().len() > 0 ==> {
                &&& r matches Ok(a) && a@ == atom_of(old(self).pending()[0])
                &&& final(self).pending() == old(self).pending().drop_first()
            },
    {
        match self.tokenizer.next_token() {
            Some(token) => Ok(Atom::from_token(token)),
            None => Err(ParseSExprError::UnexpectedEnd),
        }
    }

    /// Reads one expression: a list where the next token is `(`, an atom
    /// otherwise.
    pub fn parse_expr(&mut self) -> (r: Result<SExpr, ParseSExprError>)
        ensures
            match parse_expr_spec(old(self).pending()) {
                Ok((e, rest)) => r matches Ok(x) && x@ == e && final(self).pending() == rest,
                Err(err) => r == Err::<SExpr, _>(err),
            },
        decreases old(self).pending().len(), 1nat,
    {
        match self.peek() {
            None => Err(ParseSExprError::UnexpectedEnd),
            Some(token) => {
                if is_token(token, '(') {
                    match self.parse_slist() {
                        Ok(items) => {
                            proof {
                                lemma_list_view(items);
                            }
                            Ok(SExpr::SList(items))
                        },
                        Err(e) => Err(e),
                    }
                } else if is_token(token, ')') {
                    Err(ParseSExprError::ExpectedOpenParen)
                } else {
                    match self.parse_atom() {
                        Ok(a) => Ok(SExpr::Atom(a)),
                        Err(e) => Err(e),
                    }
                }
            },
        }
    }

    /// Reads a parenthesised list of expressions.
    fn parse_slist(&mut self) -> (r: Result<Vec<SExpr>, ParseSExprError>)
        ensures
            match parse_list_spec(old(self).pending()) {
                Ok((items, rest)) => r matches Ok(v) && v@.map_values(|e: SExpr| e@) == items
                    && final(self).pending() == rest,
                Err(err) => r == Err::<Vec<SExpr>, _>(err),
            },
        decreases old(self).pending().len(), 0nat,
    {
        match self.peek() {
            None => {
                return Err(ParseSExprError::UnexpectedEnd);
            },
            Some(token) => {
                if !is_token(token, '(') {
                    return Err(ParseSExprError::ExpectedOpenParen);
                }
                self.consume_token(token);
            },
        }
        let ghost start = self.pending();
        let mut exprs: Vec<SExpr> = Vec::new();
        assert(prepend(Seq::empty(), parse_items_spec(start)) =~= parse_items_spec(start)) by {
            if let Ok((items, rest)) = parse_items_spec(start) {
                assert(Seq::<SExprView>::empty() + items =~= items);
            }
        }
        assert(exprs@.map_values(|e: SExpr| e@) =~= Seq::empty());
        loop
            invariant
                self.pending().len() <= start.len(),
                old(self).pending().len() > 0,
                old(self).pending()[0] == open_token(),
                start == old(self).pending().drop_first(),
                parse_items_spec(start) == prepend(
                    exprs@.map_values(|e: SExpr| e@),
                    parse_items_spec(self.pending()),
                ),
            decreases self.pending().len(),
        {
            match self.peek() {
                None => {
                    return Err(ParseSExprError::UnmatchedParen);
                },
                Some(token) => {
                    if is_token(token, ')') {
                        self.consume_token(token);
                        assert(exprs@.map_values(|e: SExpr| e@) + Seq::empty() =~= exprs@.map_values(
                            |e: SExpr| e@,
                        ));
                        return Ok(exprs);
                    }
                    let ghost before = self.pending();
                    proof {
                        lemma_parse_consumes(before);
                    }
                    match self.parse_expr() {
                        Ok(e) => {
                            let ghost front = exprs@.map_values(|e: SExpr| e@);
                            exprs.push(e);
                            assert(exprs@.map_values(|e: SExpr| e@) =~= front + seq![e@]);
                            assert(prepend(front, prepend(seq![e@], parse_items_spec(self.pending())))
                                =~= prepend(front + seq![e@], parse_items_spec(self.pending()))) by {
                                if let Ok((items, rest)) = parse_items_spec(self.pending()) {
                                    assert(front + (seq![e@] + items) =~= (front + seq![e@]) + items);
                                }
                            }
                        },
                        Err(e) => {
                            return Err(e);
                        },
                    }
                },
            }
        }
    }
}

impl SExpr {
    /// Parses the first expression of `s`; tokens after it are left unread.
    pub fn parse_str(s: &str) -> (r: Result<SExpr, ParseSExprError>)
        ensures
            match parse_spec(s@) {
                Ok(e) => r matches Ok(x) && x@ == e,
                Err(err) => r == Err::<SExpr, _>(err),
            },
    {
        let mut parser = Parser::new(Tokenizer::from(s));
        parser.parse_expr()
    }
}

impl std::str::FromStr for SExpr {
    type Err = ParseSExprError;

    fn from_str(s: &str) -> (r: Result<SExpr, ParseSExprError>)
        ensures
            match parse_spec(s@) {
                Ok(e) => r matches Ok(x) && x@ == e,
                Err(err) => r == Err::<SExpr, _>(err),
            },
    {
        SExpr::parse_str(s)
    }
}

impl std::str::FromStr for Atom {
    type Err = ParseSExprError;

    fn from_str(s: &str) -> (r: Result<Atom, ParseSExprError>)
        ensures
            r matches Ok(a) && a@ == atom_of(s@),
    {
        Ok(Atom::from_token(s))
    }
}

/// The text shown for a parse error.
pub open spec fn parse_error_text(e: ParseSExprError) -> Seq<char> {
    match e {
        ParseSExprError::UnexpectedEnd => "expected an expression, but the input ended"@,
        ParseSExprError::ExpectedOpenParen => "expected a `(`"@,
        ParseSExprError::UnmatchedParen => "expected a `)` to close `(`"@,
    }
}

impl ParseSExprError {
    /// A description of the error for people.
    pub fn to_string(&self) -> (r: String)
        ensures
            r@ == parse_error_text(*self),
    {
        match self {
            ParseSExprError::UnexpectedEnd => String::from_str(
                "expected an expression, but the input ended",
            ),
            ParseSExprError::ExpectedOpenParen => String::from_str("expected a `(`"),
            ParseSExprError::UnmatchedParen => String::from_str("expected a `)` to close `(`"),
        }
    }
}

} // verus!
