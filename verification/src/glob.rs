//! Shell glob patterns: `*`, `?`, `[abc]`, `[a-z]`, `[!abc]` and `\` escapes.

use crate::paths::{lossy_text, path_to_string_lossy};
use std::path::Path;
use vstd::prelude::*;
use vstd::string::StringExecFns;

verus! {

// ---------------------------------------------------------------------------
// The mathematical model of a compiled pattern.
// ---------------------------------------------------------------------------

/// One element of a compiled pattern, as a mathematical value.
pub enum GlobToken {
    /// Exactly this character.
    Literal(char),
    /// Any single character but a path separator.
    AnyChar,
    /// Any run of characters, none of them a path separator.
    AnyRun,
    /// A character class: `negated` and the inclusive ranges it lists.
    Class(bool, Seq<(char, char)>),
}

/// `*` and `?` never match these.
pub open spec fn is_separator(c: char) -> bool {
    c == '/' || c == '\\'
}

/// Puts `prefix` in front of a successful result and keeps a failure as it is.
pub open spec fn with_prefix<T, E>(prefix: Seq<T>, r: Result<Seq<T>, E>) -> Result<Seq<T>, E> {
    match r {
        Ok(rest) => Ok(prefix + rest),
        Err(e) => Err(e),
    }
}

/// The body of a character class read from index `j` of `s`: the ranges
/// listed before the closing `]`, and the index of that `]`; `None` when no
/// `]` closes the class.  `a-b` is a range unless `b` is the closing `]`.
pub open spec fn class_body(s: Seq<char>, j: int) -> Option<(Seq<(char, char)>, int)>
    decreases s.len() - j,
{
    if j >= s.len() {
        None
    } else if s[j] == ']' {
        Some((Seq::empty(), j))
    } else {
        let is_range = j + 2 < s.len() && s[j + 1] == '-' && s[j + 2] != ']';
        let item = if is_range { (s[j], s[j + 2]) } else { (s[j], s[j]) };
        let next: int = if is_range { j + 3 } else { j + 1 };
        match class_body(s, next) {
            Some((rest, close)) => Some((seq![item] + rest, close)),
            None => None,
        }
    }
}

/// Where a class body read from `j` closes lies at or after `j`, inside `s`.
pub proof fn lemma_class_body_close(s: Seq<char>, j: int)
    ensures
        class_body(s, j) matches Some((_, close)) ==> j <= close < s.len() && s[close] == ']',
    decreases s.len() - j,
{
    if j < s.len() && s[j] != ']' {
        let is_range = j + 2 < s.len() && s[j + 1] == '-' && s[j + 2] != ']';
        let next: int = if is_range { j + 3 } else { j + 1 };
        lemma_class_body_close(s, next);
    }
}

/// The tokens of the pattern text `s` read from index `i`, or the index at
/// which an unclosed character class is reported.
pub open spec fn lex(s: Seq<char>, i: int) -> Result<Seq<GlobToken>, int>
    decreases s.len() - i,
{
    if i >= s.len() {
        Ok(Seq::empty())
    } else {
        let c = s[i];
        if c == '*' {
            if i + 1 < s.len() && s[i + 1] == '*' {
                lex(s, i + 1)
            } else {
                with_prefix(seq![GlobToken::AnyRun], lex(s, i + 1))
            }
        } else if c == '?' {
            with_prefix(seq![GlobToken::AnyChar], lex(s, i + 1))
        } else if c == '\\' {
            if i + 1 < s.len() {
                with_prefix(seq![GlobToken::Literal(s[i + 1])], lex(s, i + 2))
            } else {
                Ok(Seq::empty())
            }
        } else if c == '[' {
            if i + 1 >= s.len() {
                Err(i)
            } else {
                let negated = s[i + 1] == '!' || s[i + 1] == '^';
                let start: int = if negated { i + 2 } else { i + 1 };
                match class_body(s, start) {
                    None => Err(s.len() as int),
                    Some((ranges, close)) => {
                        proof {
                            lemma_class_body_close(s, start);
                        }
                        with_prefix(seq![GlobToken::Class(negated, ranges)], lex(s, close + 1))
                    },
                }
            }
        } else {
            with_prefix(seq![GlobToken::Literal(c)], lex(s, i + 1))
        }
    }
}

/// The tokens of a whole pattern text, or the position of its unclosed class.
pub open spec fn parse_pattern(s: Seq<char>) -> Result<Seq<GlobToken>, int> {
    lex(s, 0)
}

/// Whether `c` lies in one of the inclusive `ranges`.
pub open spec fn in_ranges(ranges: Seq<(char, char)>, c: char) -> bool {
    exists|k: int| 0 <= k < ranges.len() && ranges[k].0 <= c && c <= ranges[k].1
}

/// Whether a token that stands for one character accepts `c`.
pub open spec fn accepts(t: GlobToken, c: char) -> bool {
    match t {
        GlobToken::Literal(d) => c == d,
        GlobToken::AnyChar => !is_separator(c),
        GlobToken::AnyRun => false,
        GlobToken::Class(negated, ranges) => in_ranges(ranges, c) != negated,
    }
}

/// Whether the token sequence `toks` matches all of `text`: each single-character
/// token takes one character it accepts, and `AnyRun` takes any number of
/// characters, none of them a separator.
pub open spec fn glob_match(toks: Seq<GlobToken>, text: Seq<char>) -> bool
    decreases toks.len(), text.len(),
{
    if toks.len() == 0 {
        text.len() == 0
    } else {
        match toks[0] {
            GlobToken::AnyRun => glob_match(toks.drop_first(), text) || (text.len() > 0
                && !is_separator(text[0]) && glob_match(toks, text.drop_first())),
            t => text.len() > 0 && accepts(t, text[0]) && glob_match(
                toks.drop_first(),
                text.drop_first(),
            ),
        }
    }
}

/// Whether the pattern text `pattern` is valid and matches all of `text`.
pub open spec fn pattern_matches(pattern: Seq<char>, text: Seq<char>) -> bool {
    match parse_pattern(pattern) {
        Ok(toks) => glob_match(toks, text),
        Err(_) => false,
    }
}

/// The message every pattern error carries.
pub open spec fn unclosed_class_message() -> Seq<char> {
    "unclosed character class"@
}

proof fn lemma_with_prefix_assoc<T, E>(a: Seq<T>, b: Seq<T>, r: Result<Seq<T>, E>)
    ensures
        with_prefix(a, with_prefix(b, r)) == with_prefix(a + b, r),
{
    if let Ok(rest) = r {
        assert((a + b) + rest =~= a + (b + rest));
    }
}

/// Puts `prefix` in front of the ranges of a closed class body.
pub open spec fn with_ranges(prefix: Seq<(char, char)>, r: Option<(Seq<(char, char)>, int)>) -> Option<
    (Seq<(char, char)>, int),
> {
    match r {
        Some((rest, close)) => Some((prefix + rest, close)),
        None => None,
    }
}

// ---------------------------------------------------------------------------
// Compiled patterns.
// ---------------------------------------------------------------------------

#[derive(Debug)]
enum Token {
    /// Match exactly this character
    Char(char),
    /// Match any single character
    Any,
    /// Match zero or more characters (no path separators)
    Star,
    /// Match any character in the class
    Class { negated: bool, ranges: Vec<(char, char)> },
}

impl View for Token {
    type V = GlobToken;

    closed spec fn view(&self) -> GlobToken {
        match self {
            Token::Char(c) => GlobToken::Literal(*c),
            Token::Any => GlobToken::AnyChar,
            Token::Star => GlobToken::AnyRun,
            Token::Class { negated, ranges } => GlobToken::Class(*negated, ranges@),
        }
    }
}

/// The mathematical tokens of a sequence of compiled tokens.
spec fn tokens_view(ts: Seq<Token>) -> Seq<GlobToken> {
    ts.map_values(|t: Token| t@)
}

proof fn lemma_tokens_view_push(ts: Seq<Token>, t: Token)
    ensures
        tokens_view(ts.push(t)) == tokens_view(ts) + seq![t@],
{
    assert(tokens_view(ts.push(t)) =~= tokens_view(ts) + seq![t@]);
}

fn push_token(tokens: &mut Vec<Token>, t: Token)
    ensures
        tokens_view(final(tokens)@) == tokens_view(old(tokens)@) + seq![t@],
{
    proof {
        lemma_tokens_view_push(tokens@, t);
    }
    tokens.push(t);
}

/// A copy of `t`.
fn copy_token(t: &Token) -> (r: Token)
    ensures
        r@ == t@,
{
    match t {
        Token::Char(c) => Token::Char(*c),
        Token::Any => Token::Any,
        Token::Star => Token::Star,
        Token::Class { negated, ranges } => {
            let mut copy: Vec<(char, char)> = Vec::new();
            let mut k: usize = 0;
            while k < ranges.len()
                invariant
                    k <= ranges.len(),
                    copy@ == ranges@.take(k as int),
                decreases ranges.len() - k,
            {
                copy.push(ranges[k]);
                k += 1;
                assert(copy@ =~= ranges@.take(k as int));
            }
            assert(ranges@.take(k as int) =~= ranges@);
            Token::Class { negated: *negated, ranges: copy }
        },
    }
}

/// A compiled glob pattern.
///
/// Its view is the text it was compiled from.
#[derive(Debug)]
pub struct Pattern {
    source: String,
    tokens: Vec<Token>,
}

/// Error returned when a glob pattern is invalid.
#[non_exhaustive]
#[derive(Debug, Clone)]
pub struct PatternError {
    pub pos: usize,
    pub msg: String,
}

/// The decimal digit for `d`, below ten.
pub open spec fn digit_char(d: nat) -> char {
    if d == 0 { '0' } else if d == 1 { '1' } else if d == 2 { '2' } else if d == 3 { '3' }
    else if d == 4 { '4' } else if d == 5 { '5' } else if d == 6 { '6' } else if d == 7 { '7' }
    else if d == 8 { '8' } else { '9' }
}

/// The decimal notation of `n`, without leading zeros.
pub open spec fn decimal(n: nat) -> Seq<char>
    decreases n,
{
    if n < 10 {
        seq![digit_char(n)]
    } else {
        decimal(n / 10) + seq![digit_char(n % 10)]
    }
}

/// The one-character string of the digit `d`.
fn digit_str(d: usize) -> (r: &'static str)
    requires
        d < 10,
    ensures
        r@ == seq![digit_char(d as nat)],
{
    proof {
        reveal_strlit("0");
        reveal_strlit("1");
        reveal_strlit("2");
        reveal_strlit("3");
        reveal_strlit("4");
        reveal_strlit("5");
        reveal_strlit("6");
        reveal_strlit("7");
        reveal_strlit("8");
        reveal_strlit("9");
    }
    if d == 0 { "0" } else if d == 1 { "1" } else if d == 2 { "2" } else if d == 3 { "3" }
    else if d == 4 { "4" } else if d == 5 { "5" } else if d == 6 { "6" } else if d == 7 { "7" }
    else if d == 8 { "8" } else { "9" }
}

/// The decimal notation of `n`.
fn decimal_string(n: usize) -> (s: String)
    ensures
        s@ == decimal(n as nat),
    decreases n,
{
    if n < 10 {
        digit_str(n).to_owned()
    } else {
        let mut s = decimal_string(n / 10);
        s.append(digit_str(n % 10));
        s
    }
}

impl PatternError {
    /// The message: "invalid glob at position {pos}: {msg}".
    pub fn to_string(&self) -> (r: String)
        ensures
            r@ == "invalid glob at position "@ + decimal(self.pos as nat) + ": "@ + self.msg@,
    {
        let mut r = "invalid glob at position ".to_owned();
        r.append(decimal_string(self.pos).as_str());
        r.append(": ");
        r.append(self.msg.as_str());
        r
    }
}

impl View for Pattern {
    type V = Seq<char>;

    closed spec fn view(&self) -> Seq<char> {
        self.source@
    }
}

impl Pattern {
    /// The compiled tokens are those of the source text.
    #[verifier::type_invariant]
    spec fn well_formed(self) -> bool {
        parse_pattern(self.source@) == Ok::<Seq<GlobToken>, int>(tokens_view(self.tokens@))
    }

    /// Compile a glob pattern string.
    ///
    /// Supported syntax:
    /// - `*` matches any sequence of non-separator characters
    /// - `?` matches any single non-separator character
    /// - `[abc]` matches any character in the set
    /// - `[a-z]` matches any character in the range
    /// - `[!abc]` or `[^abc]` matches any character NOT in the set
    /// - `\c` matches the character `c` itself
    pub fn new(pattern: &str) -> (res: Result<Pattern, PatternError>)
        ensures
            res is Ok <==> parse_pattern(pattern@) is Ok,
            res matches Ok(p) ==> p@ == pattern@,
            res matches Err(e) ==> parse_pattern(pattern@) == Err::<Seq<GlobToken>, int>(
                e.pos as int,
            ) && e.msg@ == unclosed_class_message(),
    {
        let chars = chars_of(pattern);
        let n = chars.len();
        let ghost s = chars@;
        let mut tokens: Vec<Token> = Vec::new();
        let mut i: usize = 0;
        assert(lex(s, 0) == with_prefix(tokens_view(tokens@), lex(s, 0))) by {
            if let Ok(rest) = lex(s, 0) {
                assert(tokens_view(tokens@) + rest =~= rest);
            }
        }
        while i < n
            invariant
                s == chars@,
                s == pattern@,
                n == chars.len(),
                i <= n,
                lex(s, 0) == with_prefix(tokens_view(tokens@), lex(s, i as int)),
            decreases n - i,
        {
            match lex_token(&chars, i) {
                Err(pos) => {
                    return Err(PatternError { pos, msg: "unclosed character class".to_owned() });
                },
                Ok((Some(t), next)) => {
                    proof {
                        lemma_with_prefix_assoc(tokens_view(tokens@), seq![t@], lex(s, next as int));
                    }
                    push_token(&mut tokens, t);
                    i = next;
                },
                Ok((None, next)) => {
                    i = next;
                },
            }
        }
        assert(lex(s, 0) == Ok::<Seq<GlobToken>, int>(tokens_view(tokens@))) by {
            assert(tokens_view(tokens@) + Seq::<GlobToken>::empty() =~= tokens_view(tokens@));
        }
        Ok(Pattern { source: pattern.to_owned(), tokens })
    }

    /// Test whether the given string matches this pattern.
    pub fn matches(&self, text: &str) -> (r: bool)
        ensures
            r == pattern_matches(self@, text@),
    {
        proof {
            use_type_invariant(self);
        }
        let chars = chars_of(text);
        self.matches_from(self.tokens.as_slice(), chars.as_slice())
    }

    /// Whether `tokens` match all of `text`.
    ///
    /// `row[k]` holds whether the tokens from `ti` on match the text from `k` on,
    /// and `at_end` whether they match the empty rest of the text; the rows are
    /// filled from the last token back to the first.
    fn matches_from(&self, tokens: &[Token], text: &[char]) -> (r: bool)
        ensures
            r == glob_match(tokens_view(tokens@), text@),
    {
        let n = tokens.len();
        let m = text.len();
        let ghost toks = tokens_view(tokens@);
        let ghost t = text@;
        let mut row: Vec<bool> = Vec::new();
        let mut k: usize = 0;
        while k < m
            invariant
                k <= m,
                m == t.len(),
                toks.len() == n,
                row.len() == k,
                forall|q: int| 0 <= q < k ==> row@[q] == suffix_match(toks, t, n as int, q),
            decreases m - k,
        {
            proof {
                lemma_suffix_end(toks, t, k as int);
            }
            row.push(false);
            k += 1;
        }
        let mut at_end = true;
        proof {
            lemma_suffix_end(toks, t, m as int);
        }
        let mut ti = n;
        while ti > 0
            invariant
                ti <= n,
                n == tokens.len(),
                m == t.len(),
                t == text@,
                toks == tokens_view(tokens@),
                row.len() == m,
                forall|q: int| 0 <= q < m ==> row@[q] == suffix_match(toks, t, ti as int, q),
                at_end == suffix_match(toks, t, ti as int, m as int),
            decreases ti,
        {
            ti -= 1;
            let ghost prev = row@;
            let tok = &tokens[ti];
            assert(tok@ == toks[ti as int]);
            match tok {
                Token::Star => {
                    // Each entry reads the one after it in the new row, so fill backwards.
                    proof {
                        lemma_suffix_step(toks, t, ti as int, m as int);
                    }
                    let new_end = at_end;
                    let mut k: usize = m;
                    while k > 0
                        invariant
                            k <= m,
                            m == t.len(),
                            t == text@,
                            ti < n,
                            n == toks.len(),
                            toks[ti as int] == GlobToken::AnyRun,
                            row.len() == m,
                            prev.len() == m,
                            forall|q: int| 0 <= q < m ==> prev[q] == suffix_match(toks, t, ti + 1, q),
                            forall|q: int| 0 <= q < k ==> row@[q] == prev[q],
                            forall|q: int| k <= q < m ==> row@[q] == suffix_match(toks, t, ti as int, q),
                            new_end == suffix_match(toks, t, ti as int, m as int),
                        decreases k,
                    {
                        k -= 1;
                        proof {
                            lemma_suffix_step(toks, t, ti as int, k as int);
                        }
                        let later = if k + 1 < m { row[k + 1] } else { new_end };
                        let c = text[k];
                        assert(row@[k as int] == prev[k as int]);
                        assert(prev[k as int] == suffix_match(toks, t, ti + 1, k as int));
                        assert(c == t[k as int]);
                        let v = row[k] || (c != '/' && c != '\\' && later);
                        assert(later == suffix_match(toks, t, ti as int, k + 1));
                        assert(v == suffix_match(toks, t, ti as int, k as int));
                        row[k] = v;
                    }
                    at_end = new_end;
                },
                _ => {
                    // Each entry reads the one after it in the old row, so fill forwards.
                    proof {
                        lemma_suffix_step(toks, t, ti as int, m as int);
                    }
                    let mut k: usize = 0;
                    while k < m
                        invariant
                            k <= m,
                            m == t.len(),
                            t == text@,
                            ti < n,
                            n == toks.len(),
                            toks[ti as int] == tok@,
                            toks[ti as int] != GlobToken::AnyRun,
                            row.len() == m,
                            prev.len() == m,
                            forall|q: int| 0 <= q < m ==> prev[q] == suffix_match(toks, t, ti + 1, q),
                            at_end == suffix_match(toks, t, ti + 1, m as int),
                            forall|q: int| k <= q < m ==> row@[q] == prev[q],
                            forall|q: int| 0 <= q < k ==> row@[q] == suffix_match(toks, t, ti as int, q),
                        decreases m - k,
                    {
                        proof {
                            lemma_suffix_step(toks, t, ti as int, k as int);
                        }
                        let later = if k + 1 < m { row[k + 1] } else { at_end };
                        assert(k + 1 < m ==> row@[k + 1] == prev[k + 1]);
                        assert(k + 1 < m ==> prev[k + 1] == suffix_match(toks, t, ti + 1, k + 1));
                        let v = token_accepts(tok, text[k]) && later;
                        assert(later == suffix_match(toks, t, ti + 1, k + 1));
                        assert(v == suffix_match(toks, t, ti as int, k as int));
                        row[k] = v;
                        k += 1;
                    }
                    at_end = false;
                },
            }
        }
        proof {
            assert(toks.skip(0) =~= toks);
            assert(t.skip(0) =~= t);
        }
        if m == 0 {
            at_end
        } else {
            row[0]
        }
    }

    /// Test whether a path matches this pattern; the path is taken as its
    /// text, invalid sequences replaced (platform path separators apply).
    pub fn matches_path(&self, path: &Path) -> (r: bool)
        ensures
            r == pattern_matches(self@, lossy_text(path)),
    {
        let text = path_to_string_lossy(path);
        self.matches(text.as_str())
    }

    /// The source text of the pattern, as an owned string.
    pub fn to_string(&self) -> (r: String)
        ensures
            r@ == self@,
    {
        self.source.clone()
    }

    /// Returns the source text of the pattern.
    pub fn as_str(&self) -> (r: &str)
        ensures
            r@ == self@,
    {
        self.source.as_str()
    }
}

/// Whether the tokens of `toks` from index `ti` on match the characters of
/// `text` from index `k` on.
spec fn suffix_match(toks: Seq<GlobToken>, text: Seq<char>, ti: int, k: int) -> bool {
    glob_match(toks.skip(ti), text.skip(k))
}

/// One step of `glob_match`, phrased over suffixes.
proof fn lemma_suffix_step(toks: Seq<GlobToken>, text: Seq<char>, ti: int, k: int)
    requires
        0 <= ti < toks.len(),
        0 <= k <= text.len(),
    ensures
        suffix_match(toks, text, ti, k) == match toks[ti] {
            GlobToken::AnyRun => suffix_match(toks, text, ti + 1, k) || (k < text.len()
                && !is_separator(text[k]) && suffix_match(toks, text, ti, k + 1)),
            t => k < text.len() && accepts(t, text[k]) && suffix_match(toks, text, ti + 1, k + 1),
        },
{
    assert(toks.skip(ti).drop_first() =~= toks.skip(ti + 1));
    if k < text.len() {
        assert(text.skip(k).drop_first() =~= text.skip(k + 1));
    }
}

/// With no tokens left, only the end of the text matches.
proof fn lemma_suffix_end(toks: Seq<GlobToken>, text: Seq<char>, k: int)
    requires
        0 <= k <= text.len(),
    ensures
        suffix_match(toks, text, toks.len() as int, k) == (k == text.len()),
{
    assert(toks.skip(toks.len() as int).len() == 0);
}

/// Whether `c` lies in one of `ranges`.
fn class_contains(ranges: &Vec<(char, char)>, c: char) -> (r: bool)
    ensures
        r == in_ranges(ranges@, c),
{
    let mut k: usize = 0;
    while k < ranges.len()
        invariant
            k <= ranges.len(),
            forall|q: int| 0 <= q < k ==> !(ranges@[q].0 <= c && c <= ranges@[q].1),
        decreases ranges.len() - k,
    {
        let (lo, hi) = ranges[k];
        if lo <= c && c <= hi {
            return true;
        }
        k += 1;
    }
    false
}

/// Whether the single-character token `t` accepts `c`.
fn token_accepts(t: &Token, c: char) -> (r: bool)
    ensures
        r == accepts(t@, c),
{
    match t {
        Token::Char(d) => c == *d,
        Token::Any => c != '/' && c != '\\',
        Token::Star => false,
        Token::Class { negated, ranges } => class_contains(ranges, c) != *negated,
    }
}

impl Clone for Pattern {
    fn clone(&self) -> (r: Self)
        ensures
            r@ == self@,
    {
        proof {
            use_type_invariant(self);
        }
        let mut tokens: Vec<Token> = Vec::new();
        let mut k: usize = 0;
        while k < self.tokens.len()
            invariant
                k <= self.tokens.len(),
                tokens_view(tokens@) == tokens_view(self.tokens@.take(k as int)),
            decreases self.tokens.len() - k,
        {
            let t = copy_token(&self.tokens[k]);
            push_token(&mut tokens, t);
            proof {
                assert(self.tokens@.take(k + 1) =~= self.tokens@.take(k as int).push(self.tokens@[k as int]));
                lemma_tokens_view_push(self.tokens@.take(k as int), self.tokens@[k as int]);
            }
            k += 1;
        }
        assert(self.tokens@.take(k as int) =~= self.tokens@);
        Pattern { source: self.source.clone(), tokens }
    }
}

/// Reads the token that starts at index `i` of `chars`: the token, if the
/// text there yields one, and the index where the next one starts; or the
/// position of an unclosed character class.
fn lex_token(chars: &Vec<char>, i: usize) -> (res: Result<(Option<Token>, usize), usize>)
    requires
        i < chars.len(),
    ensures
        match res {
            Ok((Some(t), next)) => i < next <= chars.len() && lex(chars@, i as int) == with_prefix(
                seq![t@],
                lex(chars@, next as int),
            ),
            Ok((None, next)) => i < next <= chars.len() && lex(chars@, i as int) == lex(
                chars@,
                next as int,
            ),
            Err(pos) => lex(chars@, i as int) == Err::<Seq<GlobToken>, int>(pos as int),
        },
{
    let n = chars.len();
    let ghost s = chars@;
    let c = chars[i];
    if c == '*' {
        // Collapse consecutive stars
        let mut k = i;
        while k + 1 < n && chars[k + 1] == '*'
            invariant
                s == chars@,
                n == chars.len(),
                i <= k < n,
                s[k as int] == '*',
                lex(s, i as int) == lex(s, k as int),
            decreases n - k,
        {
            k += 1;
        }
        Ok((Some(Token::Star), k + 1))
    } else if c == '?' {
        Ok((Some(Token::Any), i + 1))
    } else if c == '\\' {
        // Escape next character; a trailing backslash is dropped
        if i + 1 < n {
            Ok((Some(Token::Char(chars[i + 1])), i + 2))
        } else {
            Ok((None, n))
        }
    } else if c == '[' {
        lex_class(chars, i)
    } else {
        Ok((Some(Token::Char(c)), i + 1))
    }
}

/// Reads the character class whose `[` stands at index `i` of `chars`.
fn lex_class(chars: &Vec<char>, i: usize) -> (res: Result<(Option<Token>, usize), usize>)
    requires
        i < chars.len(),
        chars@[i as int] == '[',
    ensures
        match res {
            Ok((Some(t), next)) => i < next <= chars.len() && lex(chars@, i as int) == with_prefix(
                seq![t@],
                lex(chars@, next as int),
            ),
            Ok((None, _)) => false,
            Err(pos) => lex(chars@, i as int) == Err::<Seq<GlobToken>, int>(pos as int),
        },
{
    let n = chars.len();
    let ghost s = chars@;
    if i + 1 >= n {
        return Err(i);
    }
    let negated = chars[i + 1] == '!' || chars[i + 1] == '^';
    let start: usize = if negated { i + 2 } else { i + 1 };
    let mut j: usize = start;
    let mut ranges: Vec<(char, char)> = Vec::new();
    assert(class_body(s, start as int) == with_ranges(ranges@, class_body(s, start as int))) by {
        if let Some((rest, close)) = class_body(s, start as int) {
            assert(ranges@ + rest =~= rest);
        }
    }
    while j < n && chars[j] != ']'
        invariant
            s == chars@,
            n == chars.len(),
            start <= j <= n,
            class_body(s, start as int) == with_ranges(ranges@, class_body(s, j as int)),
        decreases n - j,
    {
        let ghost old_ranges = ranges@;
        let lo = chars[j];
        if n - j > 2 && chars[j + 1] == '-' && chars[j + 2] != ']' {
            ranges.push((lo, chars[j + 2]));
            j += 3;
        } else {
            ranges.push((lo, lo));
            j += 1;
        }
        assert(class_body(s, start as int) == with_ranges(ranges@, class_body(s, j as int))) by {
            if let Some((rest, close)) = class_body(s, j as int) {
                assert(old_ranges + (seq![ranges@.last()] + rest) =~= ranges@ + rest);
            }
        }
    }
    if j >= n {
        return Err(n);
    }
    assert(class_body(s, start as int) == Some((ranges@, j as int))) by {
        assert(ranges@ + Seq::<(char, char)>::empty() =~= ranges@);
    }
    Ok((Some(Token::Class { negated, ranges }), j + 1))
}

/// The characters of `s`, in order.
fn chars_of(s: &str) -> (v: Vec<char>)
    ensures
        v@ == s@,
{
    let mut v: Vec<char> = Vec::new();
    for c in it: s.chars()
        invariant
            v@ == it.seq().take(it.index() as int),
    {
        v.push(c);
    }
    v
}

} // verus!
