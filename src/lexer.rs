//! Tokens and the lexer that turns source bytes into them.
use vstd::prelude::*;
use vstd::utf8::encode_utf8;

verus! {

/// One classified lexical unit.
#[derive(Debug, PartialEq, Eq)]
pub enum Token {
    Illegal,
    Eof,
    Ident(String),
    Int(String),
    Assign,
    Plus,
    Minus,
    Bang,
    Asterisk,
    Slash,
    Lt,
    Gt,
    Comma,
    Semicolon,
    LParen,
    RParen,
    LBrace,
    RBrace,
    Function,
    Let,
    True,
    False,
    If,
    Else,
    Return,
    Equal,
    NotEqual,
}

/// The mathematical value of a token: its payload text as characters.
pub enum TokenView {
    Illegal,
    Eof,
    Ident(Seq<char>),
    Int(Seq<char>),
    Assign,
    Plus,
    Minus,
    Bang,
    Asterisk,
    Slash,
    Lt,
    Gt,
    Comma,
    Semicolon,
    LParen,
    RParen,
    LBrace,
    RBrace,
    Function,
    Let,
    True,
    False,
    If,
    Else,
    Return,
    Equal,
    NotEqual,
}

impl View for Token {
    type V = TokenView;

    open spec fn view(&self) -> TokenView {
        match self {
            Token::Illegal => TokenView::Illegal,
            Token::Eof => TokenView::Eof,
            Token::Ident(s) => TokenView::Ident(s@),
            Token::Int(s) => TokenView::Int(s@),
            Token::Assign => TokenView::Assign,
            Token::Plus => TokenView::Plus,
            Token::Minus => TokenView::Minus,
            Token::Bang => TokenView::Bang,
            Token::Asterisk => TokenView::Asterisk,
            Token::Slash => TokenView::Slash,
            Token::Lt => TokenView::Lt,
            Token::Gt => TokenView::Gt,
            Token::Comma => TokenView::Comma,
            Token::Semicolon => TokenView::Semicolon,
            Token::LParen => TokenView::LParen,
            Token::RParen => TokenView::RParen,
            Token::LBrace => TokenView::LBrace,
            Token::RBrace => TokenView::RBrace,
            Token::Function => TokenView::Function,
            Token::Let => TokenView::Let,
            Token::True => TokenView::True,
            Token::False => TokenView::False,
            Token::If => TokenView::If,
            Token::Else => TokenView::Else,
            Token::Return => TokenView::Return,
            Token::Equal => TokenView::Equal,
            Token::NotEqual => TokenView::NotEqual,
        }
    }
}

impl Clone for Token {
    fn clone(&self) -> (r: Self)
        ensures
            r == *self,
    {
        match self {
            Token::Ident(s) => Token::Ident(s.clone()),
            Token::Int(s) => Token::Int(s.clone()),
            Token::Illegal => Token::Illegal,
            Token::Eof => Token::Eof,
            Token::Assign => Token::Assign,
            Token::Plus => Token::Plus,
            Token::Minus => Token::Minus,
            Token::Bang => Token::Bang,
            Token::Asterisk => Token::Asterisk,
            Token::Slash => Token::Slash,
            Token::Lt => Token::Lt,
            Token::Gt => Token::Gt,
            Token::Comma => Token::Comma,
            Token::Semicolon => Token::Semicolon,
            Token::LParen => Token::LParen,
            Token::RParen => Token::RParen,
            Token::LBrace => Token::LBrace,
            Token::RBrace => Token::RBrace,
            Token::Function => Token::Function,
            Token::Let => Token::Let,
            Token::True => Token::True,
            Token::False => Token::False,
            Token::If => Token::If,
            Token::Else => Token::Else,
            Token::Return => Token::Return,
            Token::Equal => Token::Equal,
            Token::NotEqual => Token::NotEqual,
        }
    }
}

/// The byte at `i`, or the end-of-input sentinel 0 past the end.
pub open spec fn byte_at(s: Seq<u8>, i: int) -> u8 {
    if 0 <= i < s.len() {
        s[i]
    } else {
        0
    }
}

/// Space, tab, newline or carriage return.
pub open spec fn is_space(b: u8) -> bool {
    b == 32 || b == 9 || b == 10 || b == 13
}

/// `a`..=`z` or `A`..=`Z`.
pub open spec fn is_letter(b: u8) -> bool {
    (97 <= b && b <= 122) || (65 <= b && b <= 90)
}

/// `0`..=`9`.
pub open spec fn is_digit(b: u8) -> bool {
    48 <= b && b <= 57
}

/// The ASCII bytes `b` read as characters.
pub open spec fn ascii_text(b: Seq<u8>) -> Seq<char> {
    b.map_values(|x: u8| x as char)
}

/// The first index at or after `i` that does not hold whitespace.
pub open spec fn skip_spaces(s: Seq<u8>, i: int) -> int
    decreases s.len() - i,
{
    if 0 <= i < s.len() && is_space(s[i]) {
        skip_spaces(s, i + 1)
    } else {
        i
    }
}

/// The end of the run of letters that starts at `i`.
pub open spec fn letters_end(s: Seq<u8>, i: int) -> int
    decreases s.len() - i,
{
    if 0 <= i < s.len() && is_letter(s[i]) {
        letters_end(s, i + 1)
    } else {
        i
    }
}

/// The end of the run of digits that starts at `i`.
pub open spec fn digits_end(s: Seq<u8>, i: int) -> int
    decreases s.len() - i,
{
    if 0 <= i < s.len() && is_digit(s[i]) {
        digits_end(s, i + 1)
    } else {
        i
    }
}

/// `fn`, `let`, `true`, `false`, `if`, `else` or `return`.
pub open spec fn is_keyword(w: Seq<u8>) -> bool {
    ||| w == seq![102u8, 110u8]
    ||| w == seq![108u8, 101u8, 116u8]
    ||| w == seq![116u8, 114u8, 117u8, 101u8]
    ||| w == seq![102u8, 97u8, 108u8, 115u8, 101u8]
    ||| w == seq![105u8, 102u8]
    ||| w == seq![101u8, 108u8, 115u8, 101u8]
    ||| w == seq![114u8, 101u8, 116u8, 117u8, 114u8, 110u8]
}

/// A run of letters: one of the keywords `fn`, `let`, `true`, `false`, `if`,
/// `else`, `return`, or else an identifier with that text.
pub open spec fn word_token(w: Seq<u8>) -> TokenView {
    if w == seq![102u8, 110u8] {
        TokenView::Function
    } else if w == seq![108u8, 101u8, 116u8] {
        TokenView::Let
    } else if w == seq![116u8, 114u8, 117u8, 101u8] {
        TokenView::True
    } else if w == seq![102u8, 97u8, 108u8, 115u8, 101u8] {
        TokenView::False
    } else if w == seq![105u8, 102u8] {
        TokenView::If
    } else if w == seq![101u8, 108u8, 115u8, 101u8] {
        TokenView::Else
    } else if w == seq![114u8, 101u8, 116u8, 117u8, 114u8, 110u8] {
        TokenView::Return
    } else {
        TokenView::Ident(ascii_text(w))
    }
}

/// The token of a byte that stands for itself: `;` `(` `)` `,` `+` `{` `}`
/// `<` `>` `-` `/` `*`; any other byte is illegal.
pub open spec fn single_token(c: u8) -> TokenView {
    if c == 59 {
        TokenView::Semicolon
    } else if c == 40 {
        TokenView::LParen
    } else if c == 41 {
        TokenView::RParen
    } else if c == 44 {
        TokenView::Comma
    } else if c == 43 {
        TokenView::Plus
    } else if c == 123 {
        TokenView::LBrace
    } else if c == 125 {
        TokenView::RBrace
    } else if c == 60 {
        TokenView::Lt
    } else if c == 62 {
        TokenView::Gt
    } else if c == 45 {
        TokenView::Minus
    } else if c == 47 {
        TokenView::Slash
    } else if c == 42 {
        TokenView::Asterisk
    } else {
        TokenView::Illegal
    }
}

/// The token that starts at or after index `i` of `s`, and the index where
/// scanning goes on. Whitespace is skipped first; the sentinel 0 (a zero byte,
/// or the end of input) gives `Eof` and leaves the cursor where it is; `=` and
/// `!` take a following `=` with them; a run of letters or of digits is taken
/// whole.
pub open spec fn scan(s: Seq<u8>, i: int) -> (TokenView, int) {
    let p = skip_spaces(s, i);
    let c = byte_at(s, p);
    if c == 0 {
        (TokenView::Eof, p)
    } else if c == 61 {
        if byte_at(s, p + 1) == 61 {
            (TokenView::Equal, p + 2)
        } else {
            (TokenView::Assign, p + 1)
        }
    } else if c == 33 {
        if byte_at(s, p + 1) == 61 {
            (TokenView::NotEqual, p + 2)
        } else {
            (TokenView::Bang, p + 1)
        }
    } else if is_letter(c) {
        let e = letters_end(s, p);
        (word_token(s.subrange(p, e)), e)
    } else if is_digit(c) {
        let e = digits_end(s, p);
        (TokenView::Int(ascii_text(s.subrange(p, e))), e)
    } else {
        (single_token(c), p + 1)
    }
}

/// The tokens that draining a lexer yields from index `i` on: each scan in
/// turn, up to and including the first `Eof`.
pub open spec fn tokens_from(s: Seq<u8>, i: int) -> Seq<TokenView>
    decreases s.len() - i when 0 <= i <= s.len() via tokens_from_decreases
{
    let (t, j) = scan(s, i);
    if t is Eof {
        seq![t]
    } else {
        seq![t] + tokens_from(s, j)
    }
}

#[via_fn]
proof fn tokens_from_decreases(s: Seq<u8>, i: int) {
    lemma_scan_bounds(s, i);
}

proof fn lemma_skip_spaces(s: Seq<u8>, i: int)
    requires
        0 <= i <= s.len(),
    ensures
        i <= skip_spaces(s, i) <= s.len(),
        !is_space(byte_at(s, skip_spaces(s, i))),
        forall|k: int| i <= k < skip_spaces(s, i) ==> is_space(#[trigger] s[k]),
    decreases s.len() - i,
{
    if i < s.len() && is_space(s[i]) {
        lemma_skip_spaces(s, i + 1);
    }
}

proof fn lemma_letters_end(s: Seq<u8>, i: int)
    requires
        0 <= i <= s.len(),
    ensures
        i <= letters_end(s, i) <= s.len(),
        !is_letter(byte_at(s, letters_end(s, i))),
        forall|k: int| i <= k < letters_end(s, i) ==> is_letter(#[trigger] s[k]),
    decreases s.len() - i,
{
    if i < s.len() && is_letter(s[i]) {
        lemma_letters_end(s, i + 1);
    }
}

proof fn lemma_digits_end(s: Seq<u8>, i: int)
    requires
        0 <= i <= s.len(),
    ensures
        i <= digits_end(s, i) <= s.len(),
        !is_digit(byte_at(s, digits_end(s, i))),
        forall|k: int| i <= k < digits_end(s, i) ==> is_digit(#[trigger] s[k]),
    decreases s.len() - i,
{
    if i < s.len() && is_digit(s[i]) {
        lemma_digits_end(s, i + 1);
    }
}

/// A scan stays within the input. It moves forward unless it gives `Eof`;
/// then it stops after the whitespace, where a new scan gives `Eof` again.
/// The bytes of the token it gives hold no whitespace.
pub proof fn lemma_scan_bounds(s: Seq<u8>, i: int)
    requires
        0 <= i <= s.len(),
    ensures
        i <= scan(s, i).1 <= s.len(),
        scan(s, i).0 is Eof ==> scan(s, i).1 == skip_spaces(s, i) && scan(s, scan(s, i).1)
            == scan(s, i),
        !(scan(s, i).0 is Eof) ==> i < scan(s, i).1,
        forall|k: int|
            skip_spaces(s, i) <= k < scan(s, i).1 ==> !is_space(#[trigger] s[k]),
{
    let p = skip_spaces(s, i);
    lemma_skip_spaces(s, i);
    if p < s.len() {
        lemma_letters_end(s, p);
        lemma_digits_end(s, p);
    } else {
        lemma_skip_spaces(s, p);
    }
    if scan(s, i).0 is Eof {
        lemma_skip_spaces(s, p);
    }
}

/// Draining a lexer ends: from any cursor within the input, the tokens end
/// in `Eof`, hold `Eof` nowhere else, and number at most one more than the
/// bytes left.
pub proof fn lemma_drain_ends_in_eof(s: Seq<u8>, i: int)
    requires
        0 <= i <= s.len(),
    ensures
        1 <= tokens_from(s, i).len() <= s.len() - i + 1,
        tokens_from(s, i).last() is Eof,
        forall|k: int| 0 <= k < tokens_from(s, i).len() - 1 ==> !(#[trigger] tokens_from(s, i)[k] is Eof),
    decreases s.len() - i,
{
    lemma_scan_bounds(s, i);
    let (t, j) = scan(s, i);
    if !(t is Eof) {
        lemma_drain_ends_in_eof(s, j);
        let rest = tokens_from(s, j);
        assert(tokens_from(s, i) == seq![t] + rest);
        assert forall|k: int| 0 <= k < tokens_from(s, i).len() - 1 implies !(#[trigger] tokens_from(s, i)[k] is Eof) by {
            if k > 0 {
                assert(tokens_from(s, i)[k] == rest[k - 1]);
            }
        }
    }
}

/// Once a scan has given `Eof`, every later scan gives `Eof` again and the
/// cursor no longer moves.
pub proof fn lemma_eof_repeats(s: Seq<u8>, i: int)
    requires
        scan(s, i).0 is Eof,
    ensures
        scan(s, scan(s, i).1) == (TokenView::Eof, scan(s, i).1),
{
    if 0 <= i <= s.len() {
        lemma_scan_bounds(s, i);
    }
}

/// The results of `k` calls of `next_token` from index `i`, in order.
pub open spec fn scans(s: Seq<u8>, i: int, k: nat) -> Seq<TokenView>
    decreases k,
{
    if k == 0 {
        seq![]
    } else {
        seq![scan(s, i).0] + scans(s, scan(s, i).1, (k - 1) as nat)
    }
}

/// Lexing is deterministic: two lexers over the same bytes at the same
/// cursor give the same results for any number of calls, and the same
/// tokens when drained.
pub proof fn lemma_lexing_deterministic(a: Lexer, b: Lexer, k: nat)
    requires
        a.wf(),
        b.wf(),
        a.source() == b.source(),
        a.cursor() == b.cursor(),
    ensures
        scans(a.source(), a.cursor(), k) == scans(b.source(), b.cursor(), k),
        tokens_from(a.source(), a.cursor()) == tokens_from(b.source(), b.cursor()),
{
}

/// Input that is one run of letters gives one token, the keyword or
/// identifier for that run, and then `Eof`.
pub proof fn lemma_single_word(w: Seq<u8>)
    requires
        w.len() > 0,
        forall|k: int| 0 <= k < w.len() ==> is_letter(#[trigger] w[k]),
    ensures
        scan(w, 0) == (word_token(w), w.len() as int),
        scan(w, w.len() as int) == (TokenView::Eof, w.len() as int),
{
    lemma_letters_end(w, 0);
    lemma_skip_spaces(w, 0);
    lemma_skip_spaces(w, w.len() as int);
    assert(w.subrange(0, w.len() as int) =~= w);
}

/// Whitespace is no token and splits tokens: a scan that starts on whitespace
/// gives what a scan after it gives, the same holds of the whole drain, and no
/// token's bytes hold whitespace.
pub proof fn lemma_whitespace_separates(s: Seq<u8>, i: int)
    requires
        0 <= i <= s.len(),
    ensures
        scan(s, i) == scan(s, skip_spaces(s, i)),
        tokens_from(s, i) == tokens_from(s, skip_spaces(s, i)),
        forall|k: int|
            skip_spaces(s, i) <= k < scan(s, i).1 ==> !is_space(#[trigger] s[k]),
{
    lemma_skip_spaces(s, i);
    let p = skip_spaces(s, i);
    lemma_skip_spaces(s, p);
    lemma_scan_bounds(s, i);
}

proof fn lemma_shift_runs(p: Seq<u8>, t: Seq<u8>, j: int)
    requires
        0 <= j <= t.len(),
    ensures
        skip_spaces(p + t, p.len() + j) == p.len() + skip_spaces(t, j),
        letters_end(p + t, p.len() + j) == p.len() + letters_end(t, j),
        digits_end(p + t, p.len() + j) == p.len() + digits_end(t, j),
    decreases t.len() - j,
{
    if j < t.len() {
        assert((p + t)[p.len() + j] == t[j]);
        lemma_shift_runs(p, t, j + 1);
    }
}

proof fn lemma_shift_scan(p: Seq<u8>, t: Seq<u8>, j: int)
    requires
        0 <= j <= t.len(),
    ensures
        scan(p + t, p.len() + j) == (scan(t, j).0, p.len() + scan(t, j).1),
{
    let y = p + t;
    let n = p.len() as int;
    lemma_shift_runs(p, t, j);
    lemma_skip_spaces(t, j);
    let q = skip_spaces(t, j);
    lemma_shift_runs(p, t, q);
    assert(byte_at(y, n + q) == byte_at(t, q));
    assert(byte_at(y, n + q + 1) == byte_at(t, q + 1));
    if q < t.len() {
        lemma_letters_end(t, q);
        lemma_digits_end(t, q);
        assert(y.subrange(n + q, n + letters_end(t, q)) =~= t.subrange(q, letters_end(t, q)));
        assert(y.subrange(n + q, n + digits_end(t, q)) =~= t.subrange(q, digits_end(t, q)));
    }
}

proof fn lemma_shift_tokens(p: Seq<u8>, t: Seq<u8>, j: int)
    requires
        0 <= j <= t.len(),
    ensures
        tokens_from(p + t, p.len() + j) == tokens_from(t, j),
    decreases t.len() - j,
{
    lemma_shift_scan(p, t, j);
    lemma_scan_bounds(t, j);
    if !(scan(t, j).0 is Eof) {
        lemma_shift_tokens(p, t, scan(t, j).1);
    }
}

proof fn lemma_skip_space_run(x: Seq<u8>, i: int, m: int)
    requires
        0 <= i <= m <= x.len(),
        forall|k: int| i <= k < m ==> is_space(#[trigger] x[k]),
    ensures
        skip_spaces(x, i) == skip_spaces(x, m),
    decreases m - i,
{
    if i < m {
        lemma_skip_space_run(x, i + 1, m);
    }
}

proof fn lemma_prefix_runs(s: Seq<u8>, x: Seq<u8>, i: int)
    requires
        0 <= i <= s.len() < x.len(),
        x.subrange(0, s.len() as int) == s,
        is_space(x[s.len() as int]),
    ensures
        letters_end(x, i) == letters_end(s, i),
        digits_end(x, i) == digits_end(s, i),
        skip_spaces(s, i) < s.len() ==> skip_spaces(x, i) == skip_spaces(s, i),
    decreases s.len() - i,
{
    if i < s.len() {
        assert(x[i] == x.subrange(0, s.len() as int)[i]);
        lemma_prefix_runs(s, x, i + 1);
    }
}

proof fn lemma_prefix_scan(s: Seq<u8>, x: Seq<u8>, i: int)
    requires
        0 <= i <= s.len() < x.len(),
        x.subrange(0, s.len() as int) == s,
        is_space(x[s.len() as int]),
        !(scan(s, i).0 is Eof),
    ensures
        scan(x, i) == scan(s, i),
{
    lemma_skip_spaces(s, i);
    let q = skip_spaces(s, i);
    lemma_prefix_runs(s, x, i);
    lemma_prefix_runs(s, x, q);
    assert(x[q] == x.subrange(0, s.len() as int)[q]);
    if q + 1 < s.len() {
        assert(x[q + 1] == x.subrange(0, s.len() as int)[q + 1]);
    }
    lemma_letters_end(s, q);
    lemma_digits_end(s, q);
    assert(x.subrange(q, letters_end(s, q)) =~= s.subrange(q, letters_end(s, q)));
    assert(x.subrange(q, digits_end(s, q)) =~= s.subrange(q, digits_end(s, q)));
}

proof fn lemma_join_from(s1: Seq<u8>, w: Seq<u8>, s2: Seq<u8>, i: int)
    requires
        0 <= i <= s1.len(),
        w.len() > 0,
        forall|k: int| 0 <= k < w.len() ==> is_space(#[trigger] w[k]),
        forall|k: int| 0 <= k < s1.len() ==> #[trigger] s1[k] != 0,
    ensures
        tokens_from(s1 + w + s2, i) == tokens_from(s1, i).drop_last() + tokens_from(s2, 0),
    decreases s1.len() - i,
{
    let x = s1 + w + s2;
    let m = (s1.len() + w.len()) as int;
    lemma_scan_bounds(s1, i);
    lemma_skip_spaces(s1, i);
    assert(x.subrange(0, s1.len() as int) =~= s1);
    assert(x[s1.len() as int] == w[0]);
    lemma_shift_tokens(s1 + w, s2, 0);
    if scan(s1, i).0 is Eof {
        let q = skip_spaces(s1, i);
        assert(q == s1.len());
        assert forall|k: int| i <= k < m implies is_space(#[trigger] x[k]) by {
            if k < s1.len() {
                assert(x[k] == s1[k]);
            } else {
                assert(x[k] == w[k - s1.len()]);
            }
        }
        lemma_skip_space_run(x, i, m);
        assert(scan(x, i) == scan(x, m));
        lemma_scan_bounds(x, i);
        lemma_scan_bounds(x, m);
        assert(tokens_from(s1, i).drop_last() =~= Seq::<TokenView>::empty());
        assert(tokens_from(x, i) == tokens_from(x, m));
        assert(tokens_from(s1, i).drop_last() + tokens_from(s2, 0) =~= tokens_from(s2, 0));
    } else {
        lemma_prefix_scan(s1, x, i);
        let j = scan(s1, i).1;
        lemma_join_from(s1, w, s2, j);
        lemma_drain_ends_in_eof(s1, j);
        let t = scan(s1, i).0;
        assert(tokens_from(s1, i) == seq![t] + tokens_from(s1, j));
        assert(tokens_from(s1, i).drop_last() =~= seq![t] + tokens_from(s1, j).drop_last());
        assert(tokens_from(x, i) == seq![t] + tokens_from(x, j));
        assert(tokens_from(x, i) =~= tokens_from(s1, i).drop_last() + tokens_from(s2, 0));
    }
}

/// Whitespace between two inputs makes no token and merges none: lexing
/// `s1`, then whitespace, then `s2` gives the tokens of `s1` without its
/// `Eof`, followed by the tokens of `s2`. (A zero byte in `s1` would end the
/// input there.)
pub proof fn lemma_whitespace_joins(s1: Seq<u8>, w: Seq<u8>, s2: Seq<u8>)
    requires
        w.len() > 0,
        forall|k: int| 0 <= k < w.len() ==> is_space(#[trigger] w[k]),
        forall|k: int| 0 <= k < s1.len() ==> #[trigger] s1[k] != 0,
    ensures
        tokens_from(s1 + w + s2, 0) == tokens_from(s1, 0).drop_last() + tokens_from(s2, 0),
{
    lemma_join_from(s1, w, s2, 0);
}

/// `==` and `!=` are one token each. A `=` or `!` that no `=` follows is a
/// token of one byte, and scanning goes on at the next byte.
pub proof fn lemma_two_byte_operators(s: Seq<u8>, i: int)
    requires
        0 <= i < s.len(),
        s[i] == 61 || s[i] == 33,
    ensures
        s[i] == 61 && byte_at(s, i + 1) == 61 ==> scan(s, i) == (TokenView::Equal, i + 2),
        s[i] == 33 && byte_at(s, i + 1) == 61 ==> scan(s, i) == (TokenView::NotEqual, i + 2),
        s[i] == 61 && byte_at(s, i + 1) != 61 ==> scan(s, i) == (TokenView::Assign, i + 1),
        s[i] == 33 && byte_at(s, i + 1) != 61 ==> scan(s, i) == (TokenView::Bang, i + 1),
{
}

/// A run of digits ends at the first byte that is not a digit: letters right
/// after it make a token of their own.
pub proof fn lemma_digits_then_letters(s: Seq<u8>, i: int)
    requires
        0 <= i < s.len(),
        is_digit(s[i]),
    ensures
        scan(s, i) == (TokenView::Int(ascii_text(s.subrange(i, digits_end(s, i)))), digits_end(s, i)),
        i < digits_end(s, i),
        forall|k: int| i <= k < digits_end(s, i) ==> is_digit(#[trigger] s[k]),
        is_letter(byte_at(s, digits_end(s, i))) ==> scan(s, digits_end(s, i)) == (
            word_token(s.subrange(digits_end(s, i), letters_end(s, digits_end(s, i)))),
            letters_end(s, digits_end(s, i)),
        ),
{
    lemma_digits_end(s, i);
    let e = digits_end(s, i);
    lemma_skip_spaces(s, e);
}

/// The keyword table: `fn`, `let`, `true`, `false`, `if`, `else` and `return`
/// are keywords, and any other run of letters is an identifier with its own
/// text.
pub proof fn lemma_keywords(w: Seq<u8>)
    ensures
        word_token(seq![102u8, 110u8]) == TokenView::Function,
        word_token(seq![108u8, 101u8, 116u8]) == TokenView::Let,
        word_token(seq![116u8, 114u8, 117u8, 101u8]) == TokenView::True,
        word_token(seq![102u8, 97u8, 108u8, 115u8, 101u8]) == TokenView::False,
        word_token(seq![105u8, 102u8]) == TokenView::If,
        word_token(seq![101u8, 108u8, 115u8, 101u8]) == TokenView::Else,
        word_token(seq![114u8, 101u8, 116u8, 117u8, 114u8, 110u8]) == TokenView::Return,
        !is_keyword(w) ==> word_token(w) == TokenView::Ident(ascii_text(w)),
{
}

fn letter(b: u8) -> (r: bool)
    ensures
        r == is_letter(b),
{
    (97 <= b && b <= 122) || (65 <= b && b <= 90)
}

fn digit(b: u8) -> (r: bool)
    ensures
        r == is_digit(b),
{
    48 <= b && b <= 57
}

fn space(b: u8) -> (r: bool)
    ensures
        r == is_space(b),
{
    b == 32 || b == 9 || b == 10 || b == 13
}

/// Relies on String::from_utf8_lossy: ASCII bytes are valid UTF-8 and come
/// back as the same characters, one for each byte.
#[verifier::external_body]
fn text_from_ascii(bytes: &[u8]) -> (r: String)
    requires
        forall|i: int| 0 <= i < bytes@.len() ==> bytes@[i] < 128,
    ensures
        r@ == ascii_text(bytes@),
{
    String::from_utf8_lossy(bytes).into_owned()
}

/// The keyword or identifier token for a run of letters.
fn word_to_token(w: Vec<u8>) -> (r: Token)
    requires
        forall|i: int| 0 <= i < w@.len() ==> is_letter(#[trigger] w@[i]),
    ensures
        r@ == word_token(w@),
{
    let n = w.len();
    if n == 2 && w[0] == 102 && w[1] == 110 {
        assert(w@ =~= seq![102u8, 110u8]);
        Token::Function
    } else if n == 3 && w[0] == 108 && w[1] == 101 && w[2] == 116 {
        assert(w@ =~= seq![108u8, 101u8, 116u8]);
        Token::Let
    } else if n == 4 && w[0] == 116 && w[1] == 114 && w[2] == 117 && w[3] == 101 {
        assert(w@ =~= seq![116u8, 114u8, 117u8, 101u8]);
        Token::True
    } else if n == 5 && w[0] == 102 && w[1] == 97 && w[2] == 108 && w[3] == 115 && w[4] == 101 {
        assert(w@ =~= seq![102u8, 97u8, 108u8, 115u8, 101u8]);
        Token::False
    } else if n == 2 && w[0] == 105 && w[1] == 102 {
        assert(w@ =~= seq![105u8, 102u8]);
        Token::If
    } else if n == 4 && w[0] == 101 && w[1] == 108 && w[2] == 115 && w[3] == 101 {
        assert(w@ =~= seq![101u8, 108u8, 115u8, 101u8]);
        Token::Else
    } else if n == 6 && w[0] == 114 && w[1] == 101 && w[2] == 116 && w[3] == 117 && w[4] == 114
        && w[5] == 110 {
        assert(w@ =~= seq![114u8, 101u8, 116u8, 117u8, 114u8, 110u8]);
        Token::Return
    } else {
        Token::Ident(text_from_ascii(w.as_slice()))
    }
}

/// A forward scanner over a fixed byte buffer. `ch` is the byte under the
/// cursor `pos`, or 0 once the cursor stands at the end.
pub struct Lexer {
    input: Vec<u8>,
    pos: usize,
    ch: u8,
}

impl Lexer {
    /// The bytes being scanned.
    pub closed spec fn source(&self) -> Seq<u8> {
        self.input@
    }

    /// The index where the next scan starts.
    pub closed spec fn cursor(&self) -> int {
        self.pos as int
    }

    /// The current byte is the one under the cursor, or 0 past the end.
    pub closed spec fn wf(&self) -> bool {
        self.ch == byte_at(self.input@, self.pos as int)
    }

    /// A lexer at the start of `input`, read as its UTF-8 bytes.
    pub fn new(input: String) -> (l: Lexer)
        ensures
            l.wf(),
            l.source() == encode_utf8(input@),
            l.cursor() == 0,
    {
        let bytes = input.as_str().as_bytes_vec();
        let ch = if bytes.len() > 0 {
            bytes[0]
        } else {
            0
        };
        Lexer { input: bytes, pos: 0, ch }
    }

    /// The next token, as `scan` gives it for the source at the cursor, which
    /// moves past it. At the end of input the result is `Eof`, and the lexer
    /// stays where it is, so every later call returns `Eof` again.
    pub fn next_token(&mut self) -> (r: Token)
        requires
            old(self).wf(),
        ensures
            final(self).wf(),
            final(self).source() == old(self).source(),
            (r@, final(self).cursor()) == scan(old(self).source(), old(self).cursor()),
            old(self).cursor() <= old(self).source().len() ==> final(self).cursor()
                <= final(self).source().len(),
    {
        proof {
            if old(self).cursor() <= old(self).source().len() {
                lemma_scan_bounds(old(self).source(), old(self).cursor());
            }
        }
        self.skip_whitespace();
        // a byte under the cursor puts it below `len`, so below `usize::MAX`
        let len = self.input.len();
        let c = self.ch;
        if c == 0 {
            return Token::Eof;
        }
        let token = match c {
            61 => {
                if self.peek_char() == 61 {
                    self.read_char();
                    Token::Equal
                } else {
                    Token::Assign
                }
            },
            33 => {
                if self.peek_char() == 61 {
                    self.read_char();
                    Token::NotEqual
                } else {
                    Token::Bang
                }
            },
            59 => Token::Semicolon,
            40 => Token::LParen,
            41 => Token::RParen,
            44 => Token::Comma,
            43 => Token::Plus,
            123 => Token::LBrace,
            125 => Token::RBrace,
            60 => Token::Lt,
            62 => Token::Gt,
            45 => Token::Minus,
            47 => Token::Slash,
            42 => Token::Asterisk,
            _ => {
                if letter(c) {
                    return self.read_identifier();
                } else if digit(c) {
                    return self.read_number();
                } else {
                    Token::Illegal
                }
            },
        };
        self.read_char();
        token
    }

    /// Moves the cursor one byte on; past the end the current byte is 0.
    fn read_char(&mut self)
        requires
            old(self).wf(),
            old(self).pos < usize::MAX,
        ensures
            final(self).wf(),
            final(self).input == old(self).input,
            final(self).pos == old(self).pos + 1,
            final(self).ch == byte_at(old(self).input@, old(self).pos + 1),
    {
        self.pos = self.pos + 1;
        if self.pos < self.input.len() {
            self.ch = self.input[self.pos];
        } else {
            self.ch = 0;
        }
    }

    fn peek_char(&self) -> (r: u8)
        requires
            self.wf(),
        ensures
            r == byte_at(self.input@, self.pos + 1),
    {
        if self.pos >= self.input.len() || self.pos + 1 >= self.input.len() {
            0
        } else {
            self.input[self.pos + 1]
        }
    }

    fn skip_whitespace(&mut self)
        requires
            old(self).wf(),
        ensures
            final(self).wf(),
            final(self).input == old(self).input,
            final(self).pos == skip_spaces(old(self).input@, old(self).pos as int),
    {
        while space(self.ch)
            invariant
                self.wf(),
                self.input == old(self).input,
                skip_spaces(self.input@, self.pos as int) == skip_spaces(
                    self.input@,
                    old(self).pos as int,
                ),
            decreases self.input.len() - self.pos,
        {
            self.read_char();
        }
    }

    /// The bytes of the input from `start` up to `end`.
    fn span(&self, start: usize, end: usize) -> (r: Vec<u8>)
        requires
            start <= end <= self.input.len(),
        ensures
            r@ == self.input@.subrange(start as int, end as int),
    {
        let mut out: Vec<u8> = Vec::new();
        let mut k: usize = start;
        while k < end
            invariant
                start <= k <= end <= self.input.len(),
                out@ == self.input@.subrange(start as int, k as int),
            decreases end - k,
        {
            out.push(self.input[k]);
            k = k + 1;
        }
        out
    }

    fn read_identifier(&mut self) -> (r: Token)
        requires
            old(self).wf(),
            is_letter(old(self).ch),
        ensures
            final(self).wf(),
            final(self).input == old(self).input,
            final(self).pos == letters_end(old(self).input@, old(self).pos as int),
            r@ == word_token(old(self).input@.subrange(old(self).pos as int, final(self).pos as int)),
    {
        let start = self.pos;
        let len = self.input.len();
        while letter(self.ch)
            invariant
                self.wf(),
                self.input == old(self).input,
                start <= self.pos <= self.input@.len(),
                len == self.input@.len(),
                letters_end(self.input@, self.pos as int) == letters_end(self.input@, start as int),
                forall|i: int| start <= i < self.pos ==> is_letter(#[trigger] self.input@[i]),
            decreases self.input.len() - self.pos,
        {
            self.read_char();
        }
        let w = self.span(start, self.pos);
        word_to_token(w)
    }

    fn read_number(&mut self) -> (r: Token)
        requires
            old(self).wf(),
            is_digit(old(self).ch),
        ensures
            final(self).wf(),
            final(self).input == old(self).input,
            final(self).pos == digits_end(old(self).input@, old(self).pos as int),
            r@ == TokenView::Int(
                ascii_text(old(self).input@.subrange(old(self).pos as int, final(self).pos as int)),
            ),
    {
        let start = self.pos;
        let len = self.input.len();
        while digit(self.ch)
            invariant
                self.wf(),
                self.input == old(self).input,
                start <= self.pos <= self.input@.len(),
                len == self.input@.len(),
                digits_end(self.input@, self.pos as int) == digits_end(self.input@, start as int),
                forall|i: int| start <= i < self.pos ==> is_digit(#[trigger] self.input@[i]),
            decreases self.input.len() - self.pos,
        {
            self.read_char();
        }
        let w = self.span(start, self.pos);
        Token::Int(text_from_ascii(w.as_slice()))
    }
}

/// The values of a sequence of tokens.
pub open spec fn views(v: Seq<Token>) -> Seq<TokenView> {
    v.map_values(|t: Token| t@)
}

/// Every token of `input`, in order, up to and including its one `Eof`.
pub fn tokenize(input: String) -> (r: Vec<Token>)
    ensures
        views(r@) == tokens_from(encode_utf8(input@), 0),
        r@.len() >= 1,
        r@.last()@ is Eof,
        forall|k: int| 0 <= k < r@.len() - 1 ==> !(#[trigger] r@[k]@ is Eof),
{
    let mut lexer = Lexer::new(input);
    let ghost src = lexer.source();
    let mut out: Vec<Token> = Vec::new();
    let mut done = false;
    proof {
        assert(views(out@) + tokens_from(src, 0) =~= tokens_from(src, 0));
    }
    while !done
        invariant
            lexer.wf(),
            lexer.source() == src,
            0 <= lexer.cursor() <= src.len(),
            !done ==> views(out@) + tokens_from(src, lexer.cursor()) == tokens_from(src, 0),
            done ==> views(out@) == tokens_from(src, 0),
        decreases src.len() - lexer.cursor() + if done { 0int } else { 1int },
    {
        let ghost before = lexer.cursor();
        let ghost prev = views(out@);
        proof {
            lemma_scan_bounds(src, before);
        }
        let t = lexer.next_token();
        let eof = matches!(t, Token::Eof);
        let ghost tv = t@;
        out.push(t);
        proof {
            assert(views(out@) =~= prev.push(tv));
            if eof {
                assert(tokens_from(src, before) == seq![tv]);
                assert(views(out@) =~= prev + tokens_from(src, before));
            } else {
                assert(tokens_from(src, before) == seq![tv] + tokens_from(src, lexer.cursor()));
                assert(prev.push(tv) + tokens_from(src, lexer.cursor()) =~= prev + tokens_from(
                    src,
                    before,
                ));
            }
        }
        done = eof;
    }
    proof {
        lemma_drain_ends_in_eof(src, 0);
        let v = views(out@);
        assert forall|k: int| 0 <= k < out@.len() - 1 implies !(#[trigger] out@[k]@ is Eof) by {
            assert(v[k] == out@[k]@);
        }
        assert(v[v.len() - 1] == out@.last()@);
    }
    out
}

} // verus!
