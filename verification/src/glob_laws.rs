//! What holds of every glob pattern: the promises of the pattern syntax,
//! proved over the model in `glob`.

use crate::glob::{
    accepts, class_body, lemma_class_body_close, glob_match, is_separator, lex, parse_pattern, pattern_matches, with_prefix,
    GlobToken,
};
use vstd::prelude::*;

verus! {

/// A pattern character with no special meaning.
pub open spec fn is_plain(c: char) -> bool {
    c != '*' && c != '?' && c != '[' && c != '\\'
}

/// No character of `s` is a path separator: neither `/` nor `\`.
pub open spec fn separator_free(s: Seq<char>) -> bool {
    forall|i: int| 0 <= i < s.len() ==> #[trigger] s[i] != '/' && s[i] != '\\'
}

/// The token that stands for the character `c` itself.
pub open spec fn literal(c: char) -> GlobToken {
    GlobToken::Literal(c)
}

/// The tokens that stand for the characters of `s` one by one.
pub open spec fn literals(s: Seq<char>) -> Seq<GlobToken> {
    s.map_values(|c: char| literal(c))
}

proof fn lemma_lex_plain(s: Seq<char>, i: int)
    requires
        0 <= i <= s.len(),
        forall|k: int| 0 <= k < s.len() ==> is_plain(#[trigger] s[k]),
    ensures
        lex(s, i) == Ok::<Seq<GlobToken>, int>(literals(s.skip(i))),
    decreases s.len() - i,
{
    if i < s.len() {
        lemma_lex_plain(s, i + 1);
        let a = seq![literal(s[i])] + literals(s.skip(i + 1));
        let b = literals(s.skip(i));
        assert(a.len() == b.len());
        assert forall|k: int| 0 <= k < a.len() implies a[k] == b[k] by {
            if k > 0 {
                assert(s.skip(i + 1)[k - 1] == s.skip(i)[k]);
            }
        }
        assert(a =~= b);
        assert(with_prefix(seq![GlobToken::Literal(s[i])], lex(s, i + 1)) == Ok::<Seq<GlobToken>, int>(a));
    } else {
        assert(literals(s.skip(i)) =~= Seq::<GlobToken>::empty());
    }
}

proof fn lemma_match_literals(p: Seq<char>, t: Seq<char>)
    ensures
        glob_match(literals(p), t) <==> t == p,
    decreases p.len(),
{
    if p.len() == 0 {
        assert(literals(p).len() == 0);
        if t.len() == 0 {
            assert(t =~= p);
        }
    } else {
        assert(literals(p).drop_first() =~= literals(p.drop_first()));
        assert(literals(p)[0] == GlobToken::Literal(p[0]));
        if t.len() > 0 {
            lemma_match_literals(p.drop_first(), t.drop_first());
            if t[0] == p[0] && t.drop_first() == p.drop_first() {
                assert(t =~= seq![t[0]] + t.drop_first());
                assert(p =~= seq![p[0]] + p.drop_first());
            }
            if t == p {
                assert(t.drop_first() =~= p.drop_first());
            }
        }
    }
}

/// A pattern made of plain characters only is valid and matches exactly
/// its own text.
pub proof fn law_plain_pattern_matches_only_itself(p: Seq<char>, text: Seq<char>)
    requires
        forall|k: int| 0 <= k < p.len() ==> is_plain(#[trigger] p[k]),
    ensures
        parse_pattern(p) is Ok,
        pattern_matches(p, text) <==> text == p,
{
    lemma_lex_plain(p, 0);
    assert(p.skip(0) =~= p);
    lemma_match_literals(p, text);
}

/// The empty pattern matches the empty text and nothing else.
pub proof fn law_empty_pattern(text: Seq<char>)
    ensures
        parse_pattern(Seq::<char>::empty()) is Ok,
        pattern_matches(Seq::<char>::empty(), text) <==> text.len() == 0,
{
    law_plain_pattern_matches_only_itself(Seq::<char>::empty(), text);
    if text.len() == 0 {
        assert(text =~= Seq::<char>::empty());
    }
}

/// `*` followed by `rest` matches a text exactly when some separator-free
/// prefix of the text can be taken by the `*` and `rest` matches what remains.
pub proof fn law_star_takes_separator_free_run(rest: Seq<GlobToken>, text: Seq<char>)
    ensures
        glob_match(seq![GlobToken::AnyRun] + rest, text) <==> exists|k: int|
            0 <= k <= text.len() && separator_free(#[trigger] text.take(k)) && glob_match(
                rest,
                text.skip(k),
            ),
    decreases text.len(),
{
    let toks = seq![GlobToken::AnyRun] + rest;
    assert(toks.drop_first() =~= rest);
    assert(toks[0] == GlobToken::AnyRun);
    if glob_match(toks, text) {
        if glob_match(rest, text) {
            assert(text.skip(0) =~= text);
            assert(separator_free(text.take(0)));
        } else {
            let t1 = text.drop_first();
            law_star_takes_separator_free_run(rest, t1);
            let k1 = choose|k: int|
                0 <= k <= t1.len() && separator_free(#[trigger] t1.take(k)) && glob_match(
                    rest,
                    t1.skip(k),
                );
            assert(text.take(k1 + 1) =~= seq![text[0]] + t1.take(k1));
            assert(text.skip(k1 + 1) =~= t1.skip(k1));
            assert(separator_free(text.take(k1 + 1))) by {
                assert forall|i: int| 0 <= i < k1 + 1 implies !is_separator(
                    #[trigger] text.take(k1 + 1)[i],
                ) by {
                    if i > 0 {
                        assert(text.take(k1 + 1)[i] == t1.take(k1)[i - 1]);
                    }
                }
            }
        }
    }
    if exists|k: int|
        0 <= k <= text.len() && separator_free(#[trigger] text.take(k)) && glob_match(
            rest,
            text.skip(k),
        ) {
        let k = choose|k: int|
            0 <= k <= text.len() && separator_free(#[trigger] text.take(k)) && glob_match(
                rest,
                text.skip(k),
            );
        if k == 0 {
            assert(text.skip(0) =~= text);
        } else {
            let t1 = text.drop_first();
            assert(text.take(k)[0] == text[0]);
            assert(t1.take(k - 1) =~= text.take(k).drop_first());
            assert(t1.skip(k - 1) =~= text.skip(k));
            assert(separator_free(t1.take(k - 1))) by {
                assert forall|i: int| 0 <= i < k - 1 implies !is_separator(
                    #[trigger] t1.take(k - 1)[i],
                ) by {
                    assert(t1.take(k - 1)[i] == text.take(k)[i + 1]);
                }
            }
            law_star_takes_separator_free_run(rest, t1);
        }
    }
}

/// The pattern `*` matches exactly the texts with no path separator.
pub proof fn law_lone_star(text: Seq<char>)
    ensures
        pattern_matches("*"@, text) <==> separator_free(text),
{
    reveal_strlit("*");
    let s = "*"@;
    assert(lex(s, 1) == Ok::<Seq<GlobToken>, int>(Seq::empty()));
    assert(seq![GlobToken::AnyRun] + Seq::<GlobToken>::empty() =~= seq![GlobToken::AnyRun]);
    assert(parse_pattern(s) == Ok::<Seq<GlobToken>, int>(seq![GlobToken::AnyRun]));
    law_star_takes_separator_free_run(Seq::empty(), text);
    assert(seq![GlobToken::AnyRun] + Seq::<GlobToken>::empty() =~= seq![GlobToken::AnyRun]);
    if separator_free(text) {
        assert(text.take(text.len() as int) =~= text);
        assert(text.skip(text.len() as int).len() == 0);
        assert(glob_match(Seq::<GlobToken>::empty(), text.skip(text.len() as int)));
    }
    if pattern_matches(s, text) {
        let k = choose|k: int|
            0 <= k <= text.len() && separator_free(#[trigger] text.take(k)) && glob_match(
                Seq::<GlobToken>::empty(),
                text.skip(k),
            );
        assert(text.skip(k).len() == 0);
        assert(text.take(k) =~= text);
    }
}

/// The pattern `?` matches exactly the one-character texts whose character
/// is no path separator, neither `/` nor `\`.
pub proof fn law_question_mark(text: Seq<char>)
    ensures
        pattern_matches("?"@, text) <==> text.len() == 1 && text[0] != '/' && text[0] != '\\',
{
    reveal_strlit("?");
    let s = "?"@;
    assert(lex(s, 1) == Ok::<Seq<GlobToken>, int>(Seq::empty()));
    assert(seq![GlobToken::AnyChar] + Seq::<GlobToken>::empty() =~= seq![GlobToken::AnyChar]);
    let toks = seq![GlobToken::AnyChar];
    assert(parse_pattern(s) == Ok::<Seq<GlobToken>, int>(toks));
    assert(toks.drop_first() =~= Seq::<GlobToken>::empty());
    assert(toks[0] == GlobToken::AnyChar);
    if text.len() > 0 {
        assert(glob_match(Seq::<GlobToken>::empty(), text.drop_first()) <==> text.len() == 1);
    }
}

/// A backslash makes the character after it stand for itself: `\c` matches
/// the text `c` and nothing else.
pub proof fn law_escape(c: char, text: Seq<char>)
    ensures
        pattern_matches(seq!['\\', c], text) <==> text == seq![c],
{
    let s = seq!['\\', c];
    assert(lex(s, 2) == Ok::<Seq<GlobToken>, int>(Seq::empty()));
    assert(seq![GlobToken::Literal(c)] + Seq::<GlobToken>::empty() =~= seq![GlobToken::Literal(c)]);
    assert(literals(seq![c]) =~= seq![GlobToken::Literal(c)]);
    lemma_match_literals(seq![c], text);
}

/// From index `m` of `s2` on, `s1` holds the same characters `d` places later.
spec fn shifted(s1: Seq<char>, s2: Seq<char>, d: int, m: int) -> bool {
    &&& d >= 0
    &&& s1.len() == s2.len() + d
    &&& forall|k: int| m <= k < s2.len() ==> s1[k + d] == #[trigger] s2[k]
}

/// A lexing result read `d` characters further on.
spec fn moved_by<T>(r: Result<T, int>, d: int) -> Result<T, int> {
    match r {
        Ok(t) => Ok(t),
        Err(pos) => Err(pos + d),
    }
}

proof fn lemma_class_body_shift(s1: Seq<char>, s2: Seq<char>, d: int, m: int, j: int)
    requires
        shifted(s1, s2, d, m),
        0 <= m <= j,
    ensures
        class_body(s1, j + d) == match class_body(s2, j) {
            Some((r, close)) => Some((r, close + d)),
            None => None,
        },
    decreases s2.len() - j,
{
    if j < s2.len() {
        assert(s1[j + d] == s2[j]);
        if j + 1 < s2.len() {
            assert(s1[j + 1 + d] == s2[j + 1]);
        }
        if j + 2 < s2.len() {
            assert(s1[j + 2 + d] == s2[j + 2]);
        }
        if s2[j] != ']' {
            let is_range = j + 2 < s2.len() && s2[j + 1] == '-' && s2[j + 2] != ']';
            let next: int = if is_range { j + 3 } else { j + 1 };
            lemma_class_body_shift(s1, s2, d, m, next);
            assert(next + d == if is_range { (j + d) + 3 } else { (j + d) + 1 });
        }
    }
}

/// Lexing does not look behind its position, and reports positions in the
/// text it reads.
proof fn lemma_lex_shift(s1: Seq<char>, s2: Seq<char>, d: int, m: int, i: int)
    requires
        shifted(s1, s2, d, m),
        0 <= m <= i,
    ensures
        lex(s1, i + d) == moved_by(lex(s2, i), d),
    decreases s2.len() - i,
{
    if i < s2.len() {
        assert(s1[i + d] == s2[i]);
        if i + 1 < s2.len() {
            assert(s1[i + 1 + d] == s2[i + 1]);
        }
        let c = s2[i];
        if c == '*' {
            lemma_lex_shift(s1, s2, d, m, i + 1);
        } else if c == '?' {
            lemma_lex_shift(s1, s2, d, m, i + 1);
        } else if c == '\\' {
            if i + 1 < s2.len() {
                lemma_lex_shift(s1, s2, d, m, i + 2);
            }
        } else if c == '[' {
            if i + 1 < s2.len() {
                let negated = s2[i + 1] == '!' || s2[i + 1] == '^';
                let start: int = if negated { i + 2 } else { i + 1 };
                lemma_class_body_shift(s1, s2, d, m, start);
                assert(start + d == if negated { (i + d) + 2 } else { (i + d) + 1 });
                lemma_class_body_close(s2, start);
                if let Some((ranges, close)) = class_body(s2, start) {
                    lemma_lex_shift(s1, s2, d, m, close + 1);
                    assert(close + d + 1 == close + 1 + d);
                }
            }
        } else {
            lemma_lex_shift(s1, s2, d, m, i + 1);
        }
    }
}

/// Before the doubled star, the two texts lex alike.
proof fn lemma_lex_before_double_star(p: Seq<char>, q: Seq<char>, j: int)
    requires
        0 <= j <= p.len(),
        forall|k: int| 0 <= k < p.len() ==> #[trigger] p[k] != '[' && p[k] != '\\',
    ensures
        lex(p + seq!['*', '*'] + q, j) == moved_by(lex(p + seq!['*'] + q, j), 1),
    decreases p.len() - j,
{
    let a = p + seq!['*', '*'] + q;
    let b = p + seq!['*'] + q;
    let n = p.len() as int;
    assert(a.len() == b.len() + 1);
    assert(a[n] == '*' && a[n + 1] == '*' && b[n] == '*');
    if j == n {
        assert(shifted(a, b, 1, n)) by {
            assert forall|k: int| n <= k < b.len() implies a[k + 1] == #[trigger] b[k] by {
                if k > n {
                    assert(a[k + 1] == q[k - n - 1]);
                    assert(b[k] == q[k - n - 1]);
                }
            }
        }
        lemma_lex_shift(a, b, 1, n, n);
        assert(lex(a, n) == lex(a, n + 1));
    } else {
        lemma_lex_before_double_star(p, q, j + 1);
        assert(a[j] == p[j] && b[j] == p[j]);
        assert(a[j + 1] == b[j + 1]) by {
            if j + 1 < n {
                assert(a[j + 1] == p[j + 1] && b[j + 1] == p[j + 1]);
            }
        }
    }
}

/// A run of stars means what one star means: wherever a doubled star stands
/// after a prefix `p` with no class and no escape, `p**q` and `p*q` match the
/// same texts.
pub proof fn law_double_star(p: Seq<char>, q: Seq<char>, text: Seq<char>)
    requires
        forall|k: int| 0 <= k < p.len() ==> #[trigger] p[k] != '[' && p[k] != '\\',
    ensures
        pattern_matches(p + seq!['*', '*'] + q, text) == pattern_matches(p + seq!['*'] + q, text),
{
    lemma_lex_before_double_star(p, q, 0);
}

proof fn lemma_class_body_first_close(t: Seq<char>, j: int)
    requires
        0 <= j < t.len(),
        t[t.len() - 1] == ']',
        forall|k: int| j <= k < t.len() - 1 ==> #[trigger] t[k] != ']',
    ensures
        class_body(t, j) matches Some((_, close)) && close == t.len() - 1,
    decreases t.len() - j,
{
    if t[j] != ']' {
        let is_range = j + 2 < t.len() && t[j + 1] == '-' && t[j + 2] != ']';
        let next: int = if is_range { j + 3 } else { j + 1 };
        lemma_class_body_first_close(t, next);
    }
}

/// The class `[b]` and its negation `[!b]` (or `[^b]`) split every
/// character between them: each character matches exactly one of the two.
pub proof fn law_negated_class(bang: char, b: Seq<char>, c: char)
    requires
        bang == '!' || bang == '^',
        forall|k: int| 0 <= k < b.len() ==> #[trigger] b[k] != ']',
        b.len() == 0 || (b[0] != '!' && b[0] != '^'),
    ensures
        pattern_matches(seq!['[', bang] + b + seq![']'], seq![c]) == !pattern_matches(
            seq!['['] + b + seq![']'],
            seq![c],
        ),
{
    let t = b + seq![']'];
    let sp = seq!['['] + t;
    let sn = seq!['[', bang] + t;
    assert(seq!['['] + b + seq![']'] =~= sp);
    assert(seq!['[', bang] + b + seq![']'] =~= sn);
    assert(t[t.len() - 1] == ']');
    assert forall|k: int| 0 <= k < t.len() - 1 implies #[trigger] t[k] != ']' by {
        assert(t[k] == b[k]);
    }
    lemma_class_body_first_close(t, 0);
    let (r, close) = class_body(t, 0).unwrap();
    assert(shifted(sp, t, 1, 0)) by {
        assert forall|k: int| 0 <= k < t.len() implies sp[k + 1] == #[trigger] t[k] by {}
    }
    assert(shifted(sn, t, 2, 0)) by {
        assert forall|k: int| 0 <= k < t.len() implies sn[k + 2] == #[trigger] t[k] by {}
    }
    lemma_class_body_shift(sp, t, 1, 0, 0);
    lemma_class_body_shift(sn, t, 2, 0, 0);
    // `[b]`: not negated, since `b` does not start with `!` or `^`
    assert(sp[0] == '[');
    assert(sp[1] == t[0]);
    assert(t[0] != '!' && t[0] != '^');
    assert(lex(sp, sp.len() as int) == Ok::<Seq<GlobToken>, int>(Seq::empty()));
    let kp = GlobToken::Class(false, r);
    assert(seq![kp] + Seq::<GlobToken>::empty() =~= seq![kp]);
    assert(parse_pattern(sp) == Ok::<Seq<GlobToken>, int>(seq![kp]));
    // `[!b]`
    assert(sn[0] == '[' && sn[1] == bang);
    assert(lex(sn, sn.len() as int) == Ok::<Seq<GlobToken>, int>(Seq::empty()));
    let kn = GlobToken::Class(true, r);
    assert(seq![kn] + Seq::<GlobToken>::empty() =~= seq![kn]);
    assert(parse_pattern(sn) == Ok::<Seq<GlobToken>, int>(seq![kn]));
    // one class token against one character
    let one = seq![c];
    assert(one.drop_first() =~= Seq::<char>::empty());
    assert(seq![kp].drop_first() =~= Seq::<GlobToken>::empty());
    assert(seq![kn].drop_first() =~= Seq::<GlobToken>::empty());
    assert(glob_match(Seq::<GlobToken>::empty(), Seq::<char>::empty()));
    assert(glob_match(seq![kp], one) == accepts(kp, c));
    assert(glob_match(seq![kn], one) == accepts(kn, c));
}

proof fn lemma_lex_error(s: Seq<char>, i: int)
    requires
        0 <= i,
    ensures
        lex(s, i) matches Err(pos) ==> (pos == s.len() || (pos == s.len() - 1 && s[pos] == '['))
            && exists|k: int| i <= k < s.len() && #[trigger] s[k] == '[',
    decreases s.len() - i,
{
    if i < s.len() {
        let c = s[i];
        if c == '*' || c == '?' {
            lemma_lex_error(s, i + 1);
        } else if c == '\\' {
            if i + 1 < s.len() {
                lemma_lex_error(s, i + 2);
            }
        } else if c == '[' {
            if i + 1 < s.len() {
                let negated = s[i + 1] == '!' || s[i + 1] == '^';
                let start: int = if negated { i + 2 } else { i + 1 };
                lemma_class_body_close(s, start);
                if let Some((ranges, close)) = class_body(s, start) {
                    lemma_lex_error(s, close + 1);
                }
            }
        } else {
            lemma_lex_error(s, i + 1);
        }
    }
}

/// Only an unclosed `[` makes a pattern invalid, and the error is reported
/// at that `[` when it is the last character, else at the end of the pattern.
pub proof fn law_errors_come_from_unclosed_classes(p: Seq<char>)
    ensures
        parse_pattern(p) matches Err(pos) ==> (pos == p.len() || (pos == p.len() - 1 && p[pos]
            == '[')) && exists|k: int| 0 <= k < p.len() && #[trigger] p[k] == '[',
{
    lemma_lex_error(p, 0);
}

// ---------------------------------------------------------------------------
// Patterns read one piece at a time.
// ---------------------------------------------------------------------------

/// Lexing the tail `q` of `pre + q` gives what lexing `q` alone gives.
proof fn lemma_lex_suffix(pre: Seq<char>, q: Seq<char>)
    ensures
        lex(pre + q, pre.len() as int) == moved_by(lex(q, 0), pre.len() as int),
{
    let s = pre + q;
    let d = pre.len() as int;
    assert(shifted(s, q, d, 0)) by {
        assert forall|k: int| 0 <= k < q.len() implies s[k + d] == #[trigger] q[k] by {}
    }
    lemma_lex_shift(s, q, d, 0, 0);
}

/// A token that takes one character, in front of others.
proof fn lemma_glob_one(t: GlobToken, toks: Seq<GlobToken>, text: Seq<char>)
    requires
        !(t is AnyRun),
    ensures
        glob_match(seq![t] + toks, text) == (text.len() > 0 && accepts(t, text[0]) && glob_match(
            toks,
            text.drop_first(),
        )),
{
    let x = seq![t] + toks;
    assert(x[0] == t);
    assert(x.drop_first() =~= toks);
}

/// A pattern `pre + q` whose head `pre` lexes to the one-character token
/// `tok` matches a text when `tok` takes its first character and `q` the rest.
proof fn lemma_pattern_one(pre: Seq<char>, tok: GlobToken, q: Seq<char>, text: Seq<char>)
    requires
        !(tok is AnyRun),
        lex(pre + q, 0) == with_prefix(seq![tok], lex(pre + q, pre.len() as int)),
    ensures
        pattern_matches(pre + q, text) == (text.len() > 0 && accepts(tok, text[0]) && pattern_matches(
            q,
            text.drop_first(),
        )),
{
    lemma_lex_suffix(pre, q);
    if let Ok(toks) = lex(q, 0) {
        lemma_glob_one(tok, toks, text);
    }
}

/// A plain character stands for itself, whatever follows it.
pub proof fn law_literal_prefix(c: char, q: Seq<char>, text: Seq<char>)
    requires
        is_plain(c),
    ensures
        pattern_matches(seq![c] + q, text) == (text.len() > 0 && text[0] == c && pattern_matches(
            q,
            text.drop_first(),
        )),
{
    let s = seq![c] + q;
    assert(s[0] == c);
    lemma_pattern_one(seq![c], GlobToken::Literal(c), q, text);
}

/// A `?` takes exactly one character, any but `/` and `\`, whatever follows
/// it (a following `?` included).
pub proof fn law_question_mark_prefix(q: Seq<char>, text: Seq<char>)
    ensures
        pattern_matches(seq!['?'] + q, text) == (text.len() > 0 && text[0] != '/' && text[0] != '\\'
            && pattern_matches(q, text.drop_first())),
{
    let s = seq!['?'] + q;
    assert(s[0] == '?');
    lemma_pattern_one(seq!['?'], GlobToken::AnyChar, q, text);
}

/// An escaped character stands for itself, whatever follows it.
pub proof fn law_escape_prefix(c: char, q: Seq<char>, text: Seq<char>)
    ensures
        pattern_matches(seq!['\\', c] + q, text) == (text.len() > 0 && text[0] == c
            && pattern_matches(q, text.drop_first())),
{
    let s = seq!['\\', c] + q;
    assert(s[0] == '\\' && s[1] == c);
    lemma_pattern_one(seq!['\\', c], GlobToken::Literal(c), q, text);
}

/// A `*` (not followed by another) takes any run of characters without `/`
/// or `\`, and what follows it matches the rest of the text.
pub proof fn law_star_prefix(q: Seq<char>, text: Seq<char>)
    requires
        q.len() == 0 || q[0] != '*',
    ensures
        pattern_matches(seq!['*'] + q, text) <==> exists|k: int|
            0 <= k <= text.len() && separator_free(#[trigger] text.take(k)) && pattern_matches(
                q,
                text.skip(k),
            ),
{
    let s = seq!['*'] + q;
    assert(s[0] == '*');
    assert(s.len() > 1 ==> s[1] == q[0]);
    lemma_lex_suffix(seq!['*'], q);
    assert(lex(s, 0) == with_prefix(seq![GlobToken::AnyRun], lex(s, 1)));
    match lex(q, 0) {
        Ok(toks) => {
            law_star_takes_separator_free_run(toks, text);
        },
        Err(_) => {},
    }
}

/// `k` question marks.
pub open spec fn question_marks(k: nat) -> Seq<char> {
    Seq::new(k, |i: int| '?')
}

/// Each `?` takes exactly one character: `k` of them in a row take any `k`
/// characters without `/` or `\`, and what follows them matches the rest.
pub proof fn law_question_marks_take_one_each(k: nat, q: Seq<char>, t: Seq<char>, u: Seq<char>)
    requires
        t.len() == k,
        separator_free(t),
    ensures
        pattern_matches(question_marks(k) + q, t + u) == pattern_matches(q, u),
    decreases k,
{
    if k == 0 {
        assert(question_marks(k) + q =~= q);
        assert(t + u =~= u);
    } else {
        let k1 = (k - 1) as nat;
        let t1 = t.drop_first();
        assert(question_marks(k) + q =~= seq!['?'] + (question_marks(k1) + q));
        assert((t + u).drop_first() =~= t1 + u);
        assert((t + u)[0] == t[0]);
        assert(t[0] != '/' && t[0] != '\\');
        assert(separator_free(t1)) by {
            assert forall|i: int| 0 <= i < t1.len() implies #[trigger] t1[i] != '/' && t1[i] != '\\' by {
                assert(t1[i] == t[i + 1]);
            }
        }
        law_question_mark_prefix(question_marks(k1) + q, t + u);
        law_question_marks_take_one_each(k1, q, t1, u);
    }
}

/// A prefix of plain characters takes exactly its own text.
pub proof fn law_plain_prefix(p: Seq<char>, q: Seq<char>, u: Seq<char>)
    requires
        forall|k: int| 0 <= k < p.len() ==> is_plain(#[trigger] p[k]),
    ensures
        pattern_matches(p + q, p + u) == pattern_matches(q, u),
    decreases p.len(),
{
    if p.len() == 0 {
        assert(p + q =~= q);
        assert(p + u =~= u);
    } else {
        let p1 = p.drop_first();
        assert(p + q =~= seq![p[0]] + (p1 + q));
        assert((p + u).drop_first() =~= p1 + u);
        assert((p + u)[0] == p[0]);
        assert(is_plain(p[0]));
        law_literal_prefix(p[0], p1 + q, p + u);
        law_plain_prefix(p1, q, u);
    }
}

/// For plain `p` and `q`, the pattern `p` + `k` question marks + `q` matches
/// `p + t + q` for every `t` of `k` characters without `/` or `\`; e.g. `??`
/// matches every such two-character text.
pub proof fn law_question_marks_in_plain_text(p: Seq<char>, k: nat, q: Seq<char>, t: Seq<char>)
    requires
        forall|i: int| 0 <= i < p.len() ==> is_plain(#[trigger] p[i]),
        forall|i: int| 0 <= i < q.len() ==> is_plain(#[trigger] q[i]),
        t.len() == k,
        separator_free(t),
    ensures
        pattern_matches(p + question_marks(k) + q, p + t + q),
{
    assert(p + question_marks(k) + q =~= p + (question_marks(k) + q));
    assert(p + t + q =~= p + (t + q));
    law_plain_prefix(p, question_marks(k) + q, t + q);
    law_question_marks_take_one_each(k, q, t, q);
    law_plain_pattern_matches_only_itself(q, q);
}

// ---------------------------------------------------------------------------
// Character classes written out item by item.
// ---------------------------------------------------------------------------

/// The text of one class item: a single character `l` when `l == h`, else
/// the range `l-h`.
pub open spec fn item_text(it: (char, char)) -> Seq<char> {
    if it.0 == it.1 {
        seq![it.0]
    } else {
        seq![it.0, '-', it.1]
    }
}

/// The text of a class body listing `items` in order.
pub open spec fn class_text(items: Seq<(char, char)>) -> Seq<char>
    decreases items.len(),
{
    if items.len() == 0 {
        Seq::empty()
    } else {
        item_text(items[0]) + class_text(items.drop_first())
    }
}

/// Items that can be written out in a class: no `]` and no `-` in them,
/// and the first one does not start with `!` or `^`.
pub open spec fn writable_items(items: Seq<(char, char)>) -> bool {
    &&& forall|k: int|
        0 <= k < items.len() ==> (#[trigger] items[k]).0 != ']' && items[k].0 != '-' && items[k].1
            != ']' && items[k].1 != '-'
    &&& items.len() > 0 ==> items[0].0 != '!' && items[0].0 != '^'
}

/// Whether `c` is one of the items: a single character equal to it, or a
/// range `l-h` with `l <= c <= h`.
pub open spec fn listed(items: Seq<(char, char)>, c: char) -> bool {
    exists|k: int| 0 <= k < items.len() && (#[trigger] items[k]).0 <= c && c <= items[k].1
}

proof fn lemma_class_text_front(items: Seq<(char, char)>)
    requires
        items.len() > 0,
    ensures
        class_text(items).len() > 0 && class_text(items)[0] == items[0].0,
{
    assert(class_text(items) == item_text(items[0]) + class_text(items.drop_first()));
}

/// Reading a written-out class body gives back its items, closing at the `]`
/// that follows it.
proof fn lemma_class_body_text(s: Seq<char>, j: int, items: Seq<(char, char)>)
    requires
        0 <= j,
        j + class_text(items).len() < s.len(),
        forall|t: int| 0 <= t < class_text(items).len() ==> s[j + t] == #[trigger] class_text(items)[t],
        s[j + class_text(items).len()] == ']',
        forall|k: int|
            0 <= k < items.len() ==> (#[trigger] items[k]).0 != ']' && items[k].0 != '-' && items[k].1
                != ']' && items[k].1 != '-',
    ensures
        class_body(s, j) == Some((items, j + class_text(items).len())),
    decreases items.len(),
{
    if items.len() == 0 {
        assert(class_text(items).len() == 0);
        assert(items =~= Seq::<(char, char)>::empty());
    } else {
        let it = items[0];
        let rest = items.drop_first();
        let head = item_text(it);
        let tail = class_text(rest);
        assert(class_text(items) == head + tail);
        let n = head.len() as int;
        assert forall|k: int|
            0 <= k < rest.len() implies (#[trigger] rest[k]).0 != ']' && rest[k].0 != '-' && rest[k].1
                != ']' && rest[k].1 != '-' by {
            assert(rest[k] == items[k + 1]);
        }
        assert forall|t: int| 0 <= t < tail.len() implies s[(j + n) + t] == #[trigger] tail[t] by {
            assert(class_text(items)[n + t] == tail[t]);
            assert(s[j + (n + t)] == class_text(items)[n + t]);
        }
        assert(s[(j + n) + tail.len()] == ']');
        lemma_class_body_text(s, j + n, rest);
        // what follows the item is no `-`: the next item's first character, or `]`
        assert(s[j + n] != '-') by {
            if rest.len() > 0 {
                lemma_class_text_front(rest);
                assert(s[(j + n) + 0] == tail[0]);
                assert(rest[0] == items[1]);
            }
        }
        assert(s[j] == class_text(items)[0]);
        if it.0 == it.1 {
            assert(n == 1);
        } else {
            assert(n == 3);
            assert(s[j + 1] == class_text(items)[1]);
            assert(s[j + 2] == class_text(items)[2]);
        }
        assert(seq![it] + rest =~= items);
    }
}

/// A class written out item by item takes one character listed in it (a
/// single character equal to it, or a range `l-h` with `l <= c <= h`,
/// wherever the range stands in the class), and what follows the class
/// matches the rest of the text.
pub proof fn law_class_prefix(items: Seq<(char, char)>, q: Seq<char>, text: Seq<char>)
    requires
        writable_items(items),
    ensures
        pattern_matches(seq!['['] + class_text(items) + seq![']'] + q, text) == (text.len() > 0
            && listed(items, text[0]) && pattern_matches(q, text.drop_first())),
{
    let b = class_text(items);
    let pre = seq!['['] + b + seq![']'];
    let s = pre + q;
    assert(s[0] == '[');
    assert(s.len() > 1);
    assert forall|t: int| 0 <= t < b.len() implies s[1 + t] == #[trigger] b[t] by {}
    assert(s[1 + b.len() as int] == ']');
    lemma_class_body_text(s, 1, items);
    assert(s[1] != '!' && s[1] != '^') by {
        if items.len() > 0 {
            lemma_class_text_front(items);
            assert(s[1int + 0] == b[0]);
        }
    }
    assert(pre.len() == b.len() + 2);
    lemma_class_body_close(s, 1);
    assert(lex(s, 0) == with_prefix(seq![GlobToken::Class(false, items)], lex(s, pre.len() as int)));
    lemma_pattern_one(pre, GlobToken::Class(false, items), q, text);
}

/// A class of single characters `[c1...cn]` matches a one-character text
/// exactly when its character is one of `c1`, ..., `cn`.
pub proof fn law_class_of_characters(cs: Seq<char>, x: char)
    requires
        forall|k: int| 0 <= k < cs.len() ==> #[trigger] cs[k] != ']' && cs[k] != '-',
        cs.len() > 0 ==> cs[0] != '!' && cs[0] != '^',
    ensures
        pattern_matches(seq!['['] + cs + seq![']'], seq![x]) <==> cs.contains(x),
{
    let items = cs.map_values(|c: char| (c, c));
    lemma_class_text_singles(cs);
    law_class_prefix(items, Seq::empty(), seq![x]);
    assert(seq!['['] + cs + seq![']'] + Seq::<char>::empty() =~= seq!['['] + cs + seq![']']);
    assert(seq![x].drop_first() =~= Seq::<char>::empty());
    law_empty_pattern(Seq::<char>::empty());
    if cs.contains(x) {
        let k = choose|k: int| 0 <= k < cs.len() && cs[k] == x;
        assert(items[k] == (x, x));
    }
    if listed(items, x) {
        let k = choose|k: int| 0 <= k < items.len() && (#[trigger] items[k]).0 <= x && x <= items[k].1;
        assert(items[k] == (cs[k], cs[k]));
        assert(cs[k] == x);
    }
}

proof fn lemma_class_text_singles(cs: Seq<char>)
    ensures
        class_text(cs.map_values(|c: char| (c, c))) == cs,
    decreases cs.len(),
{
    let items = cs.map_values(|c: char| (c, c));
    if cs.len() == 0 {
        assert(cs =~= Seq::<char>::empty());
    } else {
        assert(items.drop_first() =~= cs.drop_first().map_values(|c: char| (c, c)));
        lemma_class_text_singles(cs.drop_first());
        assert(items[0] == (cs[0], cs[0]));
        assert(seq![cs[0]] + cs.drop_first() =~= cs);
    }
}

// ---------------------------------------------------------------------------
// Plain text, a trailing backslash, and unclosed classes.
// ---------------------------------------------------------------------------

/// A prefix of plain characters takes exactly its own text from the front of
/// any text, and what follows it matches the rest.
pub proof fn law_plain_text_prefix(p: Seq<char>, q: Seq<char>, text: Seq<char>)
    requires
        forall|k: int| 0 <= k < p.len() ==> is_plain(#[trigger] p[k]),
    ensures
        pattern_matches(p + q, text) == (p.len() <= text.len() && text.take(p.len() as int) == p
            && pattern_matches(q, text.skip(p.len() as int))),
    decreases p.len(),
{
    if p.len() == 0 {
        assert(p + q =~= q);
        assert(text.take(0) =~= p);
        assert(text.skip(0) =~= text);
    } else {
        let p1 = p.drop_first();
        assert(p + q =~= seq![p[0]] + (p1 + q));
        assert(is_plain(p[0]));
        law_literal_prefix(p[0], p1 + q, text);
        if text.len() > 0 {
            let t1 = text.drop_first();
            law_plain_text_prefix(p1, q, t1);
            if p.len() <= text.len() {
                assert(t1.skip(p1.len() as int) =~= text.skip(p.len() as int));
                assert(t1.take(p1.len() as int) =~= text.take(p.len() as int).drop_first());
                if text.take(p.len() as int) == p {
                    assert(text[0] == text.take(p.len() as int)[0]);
                    assert(t1.take(p1.len() as int) =~= p1);
                }
                if text[0] == p[0] && t1.take(p1.len() as int) == p1 {
                    assert forall|k: int| 0 <= k < p.len() implies #[trigger] text.take(p.len() as int)[k]
                        == p[k] by {
                        if k > 0 {
                            assert(t1.take(p1.len() as int)[k - 1] == p1[k - 1]);
                        }
                    }
                    assert(text.take(p.len() as int) =~= p);
                }
            }
        }
    }
}

/// A backslash that ends a pattern stands for nothing: plain `p` followed by
/// `\` matches exactly the text `p`.
pub proof fn law_trailing_backslash(p: Seq<char>, text: Seq<char>)
    requires
        forall|k: int| 0 <= k < p.len() ==> is_plain(#[trigger] p[k]),
    ensures
        pattern_matches(p + seq!['\\'], text) <==> text == p,
{
    let b = seq!['\\'];
    law_plain_text_prefix(p, b, text);
    assert(lex(b, 0) == Ok::<Seq<GlobToken>, int>(Seq::empty()));
    let rest = text.skip(p.len() as int);
    if p.len() <= text.len() {
        assert(pattern_matches(b, rest) <==> rest.len() == 0);
        if text.take(p.len() as int) == p && rest.len() == 0 {
            assert(text =~= text.take(p.len() as int));
        }
        if text == p {
            assert(text.take(p.len() as int) =~= p);
        }
    }
}

/// A class body with no `]` from `j` on never closes.
proof fn lemma_class_body_unclosed(s: Seq<char>, j: int)
    requires
        0 <= j,
        forall|k: int| j <= k < s.len() ==> #[trigger] s[k] != ']',
    ensures
        class_body(s, j) is None,
    decreases s.len() - j,
{
    if j < s.len() {
        let is_range = j + 2 < s.len() && s[j + 1] == '-' && s[j + 2] != ']';
        let next: int = if is_range { j + 3 } else { j + 1 };
        lemma_class_body_unclosed(s, next);
    }
}

/// Lexing over plain characters fails exactly where lexing after them fails.
proof fn lemma_lex_plain_head(s: Seq<char>, m: int, i: int)
    requires
        0 <= i <= m <= s.len(),
        forall|k: int| 0 <= k < m ==> is_plain(#[trigger] s[k]),
    ensures
        lex(s, m) matches Err(e) ==> lex(s, i) == Err::<Seq<GlobToken>, int>(e),
    decreases m - i,
{
    if i < m {
        assert(is_plain(s[i]));
        lemma_lex_plain_head(s, m, i + 1);
    }
}

/// A `[` that no `]` closes makes the pattern invalid: after plain `p`, the
/// error is at the `[` when it ends the pattern, else at the end of the
/// pattern.
pub proof fn law_unclosed_class(p: Seq<char>, b: Seq<char>)
    requires
        forall|k: int| 0 <= k < p.len() ==> is_plain(#[trigger] p[k]),
        forall|k: int| 0 <= k < b.len() ==> #[trigger] b[k] != ']',
    ensures
        parse_pattern(p + seq!['['] + b) == Err::<Seq<GlobToken>, int>(
            if b.len() == 0 {
                p.len() as int
            } else {
                (p.len() + 1 + b.len()) as int
            },
        ),
{
    let s = p + seq!['['] + b;
    let n = p.len() as int;
    assert(s[n] == '[');
    assert forall|k: int| 0 <= k < n implies is_plain(#[trigger] s[k]) by {
        assert(s[k] == p[k]);
    }
    assert forall|k: int| n + 1 <= k < s.len() implies #[trigger] s[k] != ']' by {
        assert(s[k] == b[k - n - 1]);
    }
    if b.len() > 0 {
        let negated = s[n + 1] == '!' || s[n + 1] == '^';
        let start: int = if negated { n + 2 } else { n + 1 };
        lemma_class_body_unclosed(s, start);
    }
    lemma_lex_plain_head(s, n, 0);
}

} // verus!
