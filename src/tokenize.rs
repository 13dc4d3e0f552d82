//! Splitting source text into tokens: `(`, `)`, and runs of other characters.
use vstd::prelude::*;
use vstd::string::*;

verus! {

/// Unicode `White_Space`: the characters that separate tokens.
pub open spec fn is_space(c: char) -> bool {
    ('\u{9}' <= c && c <= '\u{d}')
    || c == ' '
    || c == '\u{85}'
    || c == '\u{a0}'
    || c == '\u{1680}'
    || ('\u{2000}' <= c && c <= '\u{200a}')
    || c == '\u{2028}'
    || c == '\u{2029}'
    || c == '\u{202f}'
    || c == '\u{205f}'
    || c == '\u{3000}'
}

/// A parenthesis, which always forms a token of its own.
pub open spec fn is_paren(c: char) -> bool {
    c == '(' || c == ')'
}

/// A character that ends a run of symbol or number text.
pub open spec fn is_boundary(c: char) -> bool {
    is_space(c) || is_paren(c)
}

/// Number of characters at the front of `s` that belong to one word token.
pub open spec fn word_len(s: Seq<char>) -> nat
    decreases s.len(),
{
    if s.len() == 0 || is_boundary(s[0]) {
        0
    } else {
        1 + word_len(s.drop_first())
    }
}

/// One step of the lexer: skip leading whitespace, then split off the next
/// token from what follows it. `None` when only whitespace is left.
pub open spec fn scan(s: Seq<char>) -> Option<(Seq<char>, Seq<char>)>
    decreases s.len(),
{
    if s.len() == 0 {
        None
    } else if is_space(s[0]) {
        scan(s.drop_first())
    } else if is_paren(s[0]) {
        Some((s.take(1), s.skip(1)))
    } else {
        let n = word_len(s) as int;
        Some((s.take(n), s.skip(n)))
    }
}

/// The whole token sequence of `s`.
pub open spec fn tokens(s: Seq<char>) -> Seq<Seq<char>>
    decreases s.len(),
    via tokens_decreases
{
    match scan(s) {
        None => Seq::empty(),
        Some((t, rest)) => seq![t] + tokens(rest),
    }
}

#[via_fn]
proof fn tokens_decreases(s: Seq<char>) {
    lemma_scan_shape(s);
}

proof fn lemma_word_len_bound(s: Seq<char>)
    ensures
        word_len(s) <= s.len(),
        forall|i: int| 0 <= i < word_len(s) ==> !is_boundary(#[trigger] s[i]),
        word_len(s) < s.len() ==> is_boundary(s[word_len(s) as int]),
    decreases s.len(),
{
    if s.len() > 0 && !is_boundary(s[0]) {
        lemma_word_len_bound(s.drop_first());
        assert forall|i: int| 0 <= i < word_len(s) implies !is_boundary(#[trigger] s[i]) by {
            if i > 0 {
                assert(s[i] == s.drop_first()[i - 1]);
            }
        }
    }
}

/// What `scan` hands back: a non-empty token followed by the rest of `s`,
/// with nothing but whitespace before the token.
pub proof fn lemma_scan_shape(s: Seq<char>)
    ensures
        match scan(s) {
            None => forall|i: int| 0 <= i < s.len() ==> is_space(#[trigger] s[i]),
            Some((t, rest)) => {
                let k = s.len() - t.len() - rest.len();
                &&& t.len() > 0
                &&& 0 <= k
                &&& s.skip(k) == t + rest
                &&& forall|i: int| 0 <= i < k ==> is_space(#[trigger] s[i])
            },
        },
    decreases s.len(),
{
    if s.len() > 0 {
        if is_space(s[0]) {
            let d = s.drop_first();
            lemma_scan_shape(d);
            match scan(d) {
                None => {
                    assert forall|i: int| 0 <= i < s.len() implies is_space(#[trigger] s[i]) by {
                        if i > 0 {
                            assert(s[i] == d[i - 1]);
                        }
                    }
                },
                Some((t, rest)) => {
                    let k = d.len() - t.len() - rest.len();
                    assert(s.skip(k + 1) =~= d.skip(k));
                    assert forall|i: int| 0 <= i < k + 1 implies is_space(#[trigger] s[i]) by {
                        if i > 0 {
                            assert(s[i] == d[i - 1]);
                        }
                    }
                },
            }
        } else if is_paren(s[0]) {
            assert(s.skip(0) =~= s.take(1) + s.skip(1));
        } else {
            lemma_word_len_bound(s);
            let n = word_len(s) as int;
            assert(n >= 1) by {
                reveal_with_fuel(word_len, 2);
            }
            assert(s.skip(0) =~= s.take(n) + s.skip(n));
        }
    }
}

proof fn lemma_tokens_by_scan(s1: Seq<char>, s2: Seq<char>)
    requires
        scan(s1) == scan(s2),
    ensures
        tokens(s1) == tokens(s2),
{
}

proof fn lemma_word_len_append(a: Seq<char>, x: Seq<char>)
    requires
        word_len(a) < a.len() || x.len() == 0 || is_boundary(x[0]),
    ensures
        word_len(a) < a.len() ==> word_len(a + x) == word_len(a),
        word_len(a) == a.len() ==> word_len(a + x) == a.len(),
    decreases a.len(),
{
    lemma_word_len_bound(a);
    if a.len() == 0 {
        assert(a + x =~= x);
    } else {
        assert((a + x)[0] == a[0]);
        if !is_boundary(a[0]) {
            let d = a.drop_first();
            lemma_word_len_append(d, x);
            assert((a + x).drop_first() =~= d + x);
        }
    }
}

/// Whitespace only separates tokens: one more whitespace character at the
/// start or the end of the text, or next to whitespace or a parenthesis,
/// leaves the tokens as they were.
pub proof fn lemma_extra_space(a: Seq<char>, c: char, b: Seq<char>)
    requires
        is_space(c),
        a.len() == 0 || is_boundary(a.last()) || b.len() == 0 || is_boundary(b[0]),
    ensures
        tokens(a + seq![c] + b) == tokens(a + b),
    decreases a.len(),
{
    let s1 = a + seq![c] + b;
    let s0 = a + b;
    if a.len() == 0 {
        assert(s1.drop_first() =~= s0);
        lemma_tokens_by_scan(s1, s0);
    } else {
        let d = a.drop_first();
        assert(s1[0] == a[0] && s0[0] == a[0]);
        if is_space(a[0]) {
            assert(s1.drop_first() =~= d + seq![c] + b);
            assert(s0.drop_first() =~= d + b);
            lemma_extra_space(d, c, b);
            lemma_tokens_by_scan(s1, d + seq![c] + b);
            lemma_tokens_by_scan(s0, d + b);
        } else if is_paren(a[0]) {
            assert(s1.take(1) =~= s0.take(1));
            assert(s1.skip(1) =~= d + seq![c] + b);
            assert(s0.skip(1) =~= d + b);
            lemma_extra_space(d, c, b);
        } else {
            lemma_word_len_bound(a);
            let k = word_len(a) as int;
            assert(k >= 1) by {
                reveal_with_fuel(word_len, 2);
            }
            assert(s1 =~= a + (seq![c] + b));
            if k < a.len() {
                lemma_word_len_append(a, seq![c] + b);
                lemma_word_len_append(a, b);
                let t = a.skip(k);
                assert(s1.take(k) =~= s0.take(k));
                assert(s1.skip(k) =~= t + seq![c] + b);
                assert(s0.skip(k) =~= t + b);
                assert(t.last() == a.last());
                lemma_extra_space(t, c, b);
            } else {
                assert(!is_boundary(a.last())) by {
                    assert(a.last() == a[a.len() - 1]);
                }
                lemma_word_len_append(a, seq![c] + b);
                lemma_word_len_append(a, b);
                assert(s1.take(k) =~= a);
                assert(s0.take(k) =~= a);
                assert(s1.skip(k) =~= seq![c] + b);
                assert(s0.skip(k) =~= b);
                lemma_extra_space(Seq::empty(), c, b);
                assert(Seq::<char>::empty() + seq![c] + b =~= seq![c] + b);
                assert(Seq::<char>::empty() + b =~= b);
            }
        }
    }
}

proof fn lemma_space_run_to_one(a: Seq<char>, w: Seq<char>, b: Seq<char>)
    requires
        w.len() > 0,
        forall|i: int| 0 <= i < w.len() ==> is_space(#[trigger] w[i]),
    ensures
        tokens(a + w + b) == tokens(a + seq![w[0]] + b),
    decreases w.len(),
{
    if w.len() > 1 {
        let front = a + seq![w[0]];
        let shorter = seq![w[0]] + w.skip(2);
        assert(a + w + b =~= front + seq![w[1]] + (w.skip(2) + b));
        assert(front + (w.skip(2) + b) =~= a + shorter + b);
        lemma_extra_space(front, w[1], w.skip(2) + b);
        assert forall|i: int| 0 <= i < shorter.len() implies is_space(#[trigger] shorter[i]) by {
            if i > 0 {
                assert(shorter[i] == w[i + 1]);
            }
        }
        lemma_space_run_to_one(a, shorter, b);
    } else {
        assert(w =~= seq![w[0]]);
    }
}

/// Whitespace only separates tokens: any non-empty run of whitespace may be
/// replaced by any other without changing the tokens.
pub proof fn lemma_space_run(a: Seq<char>, w1: Seq<char>, w2: Seq<char>, b: Seq<char>)
    requires
        w1.len() > 0,
        w2.len() > 0,
        forall|i: int| 0 <= i < w1.len() ==> is_space(#[trigger] w1[i]),
        forall|i: int| 0 <= i < w2.len() ==> is_space(#[trigger] w2[i]),
    ensures
        tokens(a + w1 + b) == tokens(a + w2 + b),
{
    let c1 = w1[0];
    let c2 = w2[0];
    lemma_space_run_to_one(a, w1, b);
    lemma_space_run_to_one(a, w2, b);
    let both = a + seq![c1, c2] + b;
    // one space after the other, and one space before the other
    assert(both =~= (a + seq![c1]) + seq![c2] + b);
    lemma_extra_space(a + seq![c1], c2, b);
    assert((a + seq![c1]) + b =~= a + seq![c1] + b);
    assert(both =~= a + seq![c1] + (seq![c2] + b));
    lemma_extra_space(a, c1, seq![c2] + b);
    assert(a + (seq![c2] + b) =~= a + seq![c2] + b);
}

/// Whether `c` is whitespace.
pub fn is_space_char(c: char) -> (r: bool)
    ensures
        r == is_space(c),
{
    ('\u{9}' <= c && c <= '\u{d}')
    || c == ' '
    || c == '\u{85}'
    || c == '\u{a0}'
    || c == '\u{1680}'
    || ('\u{2000}' <= c && c <= '\u{200a}')
    || c == '\u{2028}'
    || c == '\u{2029}'
    || c == '\u{202f}'
    || c == '\u{205f}'
    || c == '\u{3000}'
}

fn is_boundary_char(c: char) -> (r: bool)
    ensures
        r == is_boundary(c),
{
    c == '(' || c == ')' || is_space_char(c)
}

/// Splits the next token off `s`: the token, and the text after it.
/// `None` when `s` holds nothing but whitespace.
pub fn scan_one_token(s: &str) -> (r: Option<(&str, &str)>)
    ensures
        match scan(s@) {
            None => r is None,
            Some((t, rest)) => r matches Some((a, b)) && a@ == t && b@ == rest,
        },
{
    let len = s.unicode_len();
    let mut i: usize = 0;
    assert(s@.skip(0) =~= s@);
    while i < len && is_space_char(s.get_char(i))
        invariant
            i <= len,
            len == s@.len(),
            scan(s@.skip(i as int)) == scan(s@),
        decreases len - i,
    {
        assert(s@.skip(i + 1) =~= s@.skip(i as int).drop_first());
        i += 1;
    }
    if i == len {
        return None;
    }
    let ghost u = s@.skip(i as int);
    let c = s.get_char(i);
    if c == '(' || c == ')' {
        let a = s.substring_char(i, i + 1);
        let b = s.substring_char(i + 1, len);
        assert(a@ =~= u.take(1));
        assert(b@ =~= u.skip(1));
        Some((a, b))
    } else {
        let mut j: usize = i + 1;
        assert(s@.skip(i + 1) =~= u.drop_first());
        while j < len && !is_boundary_char(s.get_char(j))
            invariant
                i < j <= len,
                len == s@.len(),
                u == s@.skip(i as int),
                word_len(u) == (j - i) + word_len(s@.skip(j as int)),
            decreases len - j,
        {
            assert(s@.skip(j + 1) =~= s@.skip(j as int).drop_first());
            j += 1;
        }
        let a = s.substring_char(i, j);
        let b = s.substring_char(j, len);
        assert(a@ =~= u.take(j - i));
        assert(b@ =~= u.skip(j - i));
        Some((a, b))
    }
}

/// A forward-only lexer over a borrowed source string. Each call of
/// `next_token` hands out the next token as a slice of the source.
pub struct Tokenizer<'a> {
    /// The source text not yet scanned.
    pub remaining: &'a str,
}

impl<'a> Tokenizer<'a> {
    /// The tokens that this lexer has still to hand out.
    pub open spec fn pending(&self) -> Seq<Seq<char>> {
        tokens(self.remaining@)
    }

    /// Hands out the next token, or `None` once the text is used up.
    pub fn next_token(&mut self) -> (r: Option<&'a str>)
        ensures
            match r {
                None => {
                    &&& scan(old(self).remaining@) is None
                    &&& final(self).remaining == old(self).remaining
                    &&& old(self).pending().len() == 0
                },
                Some(t) => {
                    &&& scan(old(self).remaining@) == Some((t@, final(self).remaining@))
                    &&& t@.len() > 0
                    &&& t@.len() + final(self).remaining@.len() <= old(self).remaining@.len()
                    &&& final(self).remaining@ == old(self).remaining@.skip(
                        old(self).remaining@.len() - final(self).remaining@.len(),
                    )
                    &&& old(self).pending().len() > 0
                    &&& t@ == old(self).pending()[0]
                    &&& final(self).pending() == old(self).pending().drop_first()
                },
            },
    {
        proof {
            lemma_scan_shape(self.remaining@);
        }
        match scan_one_token(self.remaining) {
            Some((token, rest)) => {
                let ghost before = self.pending();
                let ghost text = self.remaining@;
                let ghost k = text.len() - token@.len() - rest@.len();
                assert(rest@ =~= text.skip(text.len() - rest@.len())) by {
                    assert(text.skip(k) == token@ + rest@);
                    assert forall|i: int| 0 <= i < rest@.len() implies rest@[i] == text[
                        text.len() - rest@.len() + i
                    ] by {
                        assert(text.skip(k)[token@.len() + i] == rest@[i]);
                    }
                }
                self.remaining = rest;
                assert(before =~= seq![token@] + self.pending());
                assert(before.drop_first() =~= self.pending());
                Some(token)
            },
            None => None,
        }
    }
}

impl<'a> From<&'a str> for Tokenizer<'a> {
    fn from(value: &'a str) -> (r: Tokenizer<'a>)
        ensures
            r.remaining == value,
    {
        Tokenizer { remaining: value }
    }
}

impl<'a> vstd::std_specs::convert::FromSpecImpl<&'a str> for Tokenizer<'a> {
    open spec fn obeys_from_spec() -> bool {
        true
    }

    open spec fn from_spec(v: &'a str) -> Tokenizer<'a> {
        Tokenizer { remaining: v }
    }
}

/// All tokens of `s`, in order.
pub fn tokenize(s: &str) -> (r: Vec<&str>)
    ensures
        r@.map_values(|t: &str| t@) == tokens(s@),
{
    let mut tokenizer = Tokenizer::from(s);
    let mut out: Vec<&str> = Vec::new();
    assert(tokens(s@) =~= out@.map_values(|t: &str| t@) + tokenizer.pending());
    loop
        invariant_except_break
            out@.map_values(|t: &str| t@) + tokenizer.pending() == tokens(s@),
        ensures
            out@.map_values(|t: &str| t@) == tokens(s@),
        decreases tokenizer.pending().len(),
    {
        match tokenizer.next_token() {
            Some(t) => {
                out.push(t);
                assert(out@.map_values(|t: &str| t@) + tokenizer.pending() =~= tokens(s@));
            },
            None => {
                assert(out@.map_values(|t: &str| t@) =~= tokens(s@));
                break;
            },
        }
    }
    out
}

} // verus!
