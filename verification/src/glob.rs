//! URL patterns with `*` wildcards, matched through the `regex` crate.
//!
//! A pattern is turned into a regular expression: every character is
//! escaped, `*` becomes `.*`, and the whole is anchored at both ends.
use vstd::prelude::*;
use crate::text::{chars_of, push_char};

verus! {

broadcast use vstd::string::group_string_axioms;

/// A character with a meaning in `regex` syntax (`regex_syntax::is_meta_character`).
pub open spec fn is_regex_meta(c: char) -> bool {
    c == '\\' || c == '.' || c == '+' || c == '*' || c == '?' || c == '(' || c == ')' || c == '|'
        || c == '[' || c == ']' || c == '{' || c == '}' || c == '^' || c == '$' || c == '#'
        || c == '&' || c == '-' || c == '~'
}

/// The escaped form of one character.
pub open spec fn escape_char(c: char) -> Seq<char> {
    if is_regex_meta(c) {
        seq!['\\', c]
    } else {
        seq![c]
    }
}

/// `regex::escape`: a backslash before every meta character.
pub open spec fn regex_escape_text(s: Seq<char>) -> Seq<char>
    decreases s.len(),
{
    if s.len() == 0 {
        Seq::empty()
    } else {
        escape_char(s[0]) + regex_escape_text(s.drop_first())
    }
}

/// Replaces each `\*`, left to right, by `.*` (`str::replace(r"\*", ".*")`).
pub open spec fn replace_escaped_stars(s: Seq<char>) -> Seq<char>
    decreases s.len(),
{
    if s.len() == 0 {
        Seq::empty()
    } else if s.len() >= 2 && s[0] == '\\' && s[1] == '*' {
        seq!['.', '*'] + replace_escaped_stars(s.subrange(2, s.len() as int))
    } else {
        seq![s[0]] + replace_escaped_stars(s.drop_first())
    }
}

/// The regular expression text for one pattern character.
pub open spec fn glob_char_regex(c: char) -> Seq<char> {
    if c == '*' {
        seq!['.', '*']
    } else {
        escape_char(c)
    }
}

/// The regular expression text for a pattern, without anchors.
pub open spec fn glob_regex_body(p: Seq<char>) -> Seq<char>
    decreases p.len(),
{
    if p.len() == 0 {
        Seq::empty()
    } else {
        glob_char_regex(p[0]) + glob_regex_body(p.drop_first())
    }
}

/// The anchored regular expression for a pattern: `^body$`.
pub open spec fn glob_regex(p: Seq<char>) -> Seq<char> {
    seq!['^'] + glob_regex_body(p) + seq!['$']
}

/// `text` matches `pattern` when every `*` stands for a run of characters
/// other than a newline (what `.` matches) and every other character for
/// itself.
pub open spec fn glob_matches(pattern: Seq<char>, text: Seq<char>) -> bool
    decreases pattern.len(), text.len(),
{
    if pattern.len() == 0 {
        text.len() == 0
    } else if pattern[0] == '*' {
        glob_matches(pattern.drop_first(), text) || (text.len() > 0 && text[0] != '\n'
            && glob_matches(pattern, text.drop_first()))
    } else {
        text.len() > 0 && text[0] == pattern[0] && glob_matches(pattern.drop_first(), text.drop_first())
    }
}

/// `regex::Regex::new` accepts this regular expression text (it is valid
/// and within the default size limits).
pub uninterp spec fn regex_compiles(source: Seq<char>) -> bool;

/// `regex::escape`. Its whole behaviour: a backslash is put before each
/// meta character.
#[verifier::external_body]
pub(crate) fn regex_escape(s: &str) -> (r: String)
    ensures
        r@ == regex_escape_text(s@),
{
    regex::escape(s)
}

/// `regex::Regex::new(source)` and, when it compiles, `is_match(text)`.
/// Claims: compiling depends on the source text alone; for a source built
/// by `glob_regex` from a pattern, the regex matches exactly the texts that
/// `glob_matches` the pattern (escaped characters stand for themselves,
/// `.` for any character but a newline, `^`/`$` for both ends).
#[verifier::external_body]
pub(crate) fn regex_full_match(source: &str, text: &str) -> (r: Option<bool>)
    ensures
        r is Some == regex_compiles(source@),
        forall|p: Seq<char>|
            #![trigger glob_regex(p)]
            source@ == glob_regex(p) ==> (r matches Some(b) ==> b == glob_matches(p, text@)),
{
    match regex::Regex::new(source) {
        Ok(re) => Some(re.is_match(text)),
        Err(_) => None,
    }
}

/// The escaped text of a non-empty string never starts with `*`.
proof fn lemma_escape_not_star_first(s: Seq<char>)
    ensures
        regex_escape_text(s).len() > 0 ==> regex_escape_text(s)[0] != '*',
{
    if s.len() > 0 {
        let e = escape_char(s[0]);
        assert(regex_escape_text(s) == e + regex_escape_text(s.drop_first()));
        assert((e + regex_escape_text(s.drop_first()))[0] == e[0]);
    }
}

/// Dropping the first `k` characters of a concatenation whose first part
/// has length `k`.
proof fn lemma_skip_prefix(a: Seq<char>, b: Seq<char>)
    ensures
        (a + b).subrange(a.len() as int, (a + b).len() as int) == b,
        a.len() > 0 ==> (a + b).drop_first() == a.drop_first() + b,
{
    assert((a + b).subrange(a.len() as int, (a + b).len() as int) =~= b);
    if a.len() > 0 {
        assert((a + b).drop_first() =~= a.drop_first() + b);
    }
}

/// Escaping a pattern and then replacing `\*` by `.*` gives the regular
/// expression body of the pattern.
pub proof fn lemma_escape_then_replace(p: Seq<char>)
    ensures
        replace_escaped_stars(regex_escape_text(p)) == glob_regex_body(p),
    decreases p.len(),
{
    if p.len() > 0 {
        let c = p[0];
        let rest = p.drop_first();
        let er = regex_escape_text(rest);
        lemma_escape_then_replace(rest);
        lemma_escape_not_star_first(rest);
        let s = escape_char(c) + er;
        assert(regex_escape_text(p) == s);
        if c == '*' {
            lemma_skip_prefix(seq!['\\', '*'], er);
            assert(s[0] == '\\' && s[1] == '*');
            assert(replace_escaped_stars(s) == seq!['.', '*'] + replace_escaped_stars(er));
        } else if is_regex_meta(c) {
            lemma_skip_prefix(seq!['\\', c], er);
            let t = seq![c] + er;
            assert(s.drop_first() =~= t);
            assert(s[0] == '\\' && s[1] == c);
            assert(replace_escaped_stars(s) == seq!['\\'] + replace_escaped_stars(t));
            lemma_skip_prefix(seq![c], er);
            assert(t.drop_first() =~= er);
            if t.len() >= 2 {
                assert(t[1] == er[0]);
            }
            assert(replace_escaped_stars(t) == seq![c] + replace_escaped_stars(er));
            assert(seq!['\\'] + (seq![c] + replace_escaped_stars(er)) =~= escape_char(c) + replace_escaped_stars(er));
        } else {
            lemma_skip_prefix(seq![c], er);
            assert(s.drop_first() =~= er);
            assert(replace_escaped_stars(s) == seq![c] + replace_escaped_stars(er));
        }
    } else {
        assert(regex_escape_text(p) =~= Seq::<char>::empty());
    }
}

/// `escaped.replace(r"\*", ".*")`.
fn replace_escaped_stars_in(escaped: &str) -> (r: String)
    ensures
        r@ == replace_escaped_stars(escaped@),
{
    let cs = chars_of(escaped);
    let mut out = String::new();
    let mut i: usize = 0;
    assert(escaped@.subrange(0, escaped@.len() as int) =~= escaped@);
    while i < cs.len()
        invariant
            cs@ == escaped@,
            i <= cs.len(),
            out@ + replace_escaped_stars(escaped@.subrange(i as int, cs.len() as int)) == replace_escaped_stars(escaped@),
        decreases cs.len() - i,
    {
        let ghost rest = escaped@.subrange(i as int, cs.len() as int);
        if i + 1 < cs.len() && cs[i] == '\\' && cs[i + 1] == '*' {
            push_char(&mut out, '.');
            push_char(&mut out, '*');
            assert(rest.subrange(2, rest.len() as int) =~= escaped@.subrange(i + 2, cs.len() as int));
            assert(out@ + replace_escaped_stars(escaped@.subrange(i + 2, cs.len() as int)) =~= replace_escaped_stars(escaped@));
            i = i + 2;
        } else {
            push_char(&mut out, cs[i]);
            assert(rest.drop_first() =~= escaped@.subrange(i + 1, cs.len() as int));
            assert(out@ + replace_escaped_stars(escaped@.subrange(i + 1, cs.len() as int)) =~= replace_escaped_stars(escaped@));
            i = i + 1;
        }
    }
    assert(escaped@.subrange(i as int, cs.len() as int) =~= Seq::<char>::empty());
    assert(out@ =~= replace_escaped_stars(escaped@));
    out
}

/// The anchored regular expression text of a pattern.
pub fn glob_regex_text(pattern: &str) -> (r: String)
    ensures
        r@ == glob_regex(pattern@),
{
    let escaped = regex_escape(pattern);
    let body = replace_escaped_stars_in(escaped.as_str());
    proof {
        lemma_escape_then_replace(pattern@);
    }
    let mut out = String::new();
    push_char(&mut out, '^');
    out.append(body.as_str());
    push_char(&mut out, '$');
    assert(out@ =~= glob_regex(pattern@));
    out
}

/// Whether `text` matches the wildcard `pattern` as a whole. A pattern
/// whose regular expression does not compile matches nothing.
pub fn wildcard_match(pattern: &str, text: &str) -> (r: bool)
    ensures
        r == (regex_compiles(glob_regex(pattern@)) && glob_matches(pattern@, text@)),
{
    let source = glob_regex_text(pattern);
    match regex_full_match(source.as_str(), text) {
        Some(matched) => matched,
        None => false,
    }
}

/// A pattern without `*` matches exactly the text equal to it.
pub proof fn lemma_literal_pattern(pattern: Seq<char>, text: Seq<char>)
    requires
        forall|i: int| 0 <= i < pattern.len() ==> pattern[i] != '*',
    ensures
        glob_matches(pattern, text) == (text == pattern),
    decreases pattern.len(),
{
    if pattern.len() == 0 {
        if text.len() == 0 {
            assert(text =~= pattern);
        }
    } else {
        let rest = pattern.drop_first();
        assert forall|i: int| 0 <= i < rest.len() implies rest[i] != '*' by {
            assert(rest[i] == pattern[i + 1]);
        }
        if text.len() > 0 {
            lemma_literal_pattern(rest, text.drop_first());
            if text == pattern {
                assert(text.drop_first() =~= rest);
            }
            if text[0] == pattern[0] && text.drop_first() == rest {
                assert forall|i: int| 0 <= i < text.len() implies text[i] == pattern[i] by {
                    if i > 0 {
                        assert(text[i] == text.drop_first()[i - 1]);
                        assert(pattern[i] == rest[i - 1]);
                    }
                }
                assert(text =~= pattern);
            }
        }
    }
}

/// The pattern `*` matches every text without a newline.
pub proof fn lemma_star_matches_line(text: Seq<char>)
    requires
        forall|i: int| 0 <= i < text.len() ==> text[i] != '\n',
    ensures
        glob_matches(seq!['*'], text),
    decreases text.len(),
{
    let star = seq!['*'];
    assert(star.len() == 1 && star[0] == '*');
    if text.len() == 0 {
        assert(star.drop_first() =~= Seq::<char>::empty());
        assert(glob_matches(star.drop_first(), text));
    } else {
        let rest = text.drop_first();
        assert forall|i: int| 0 <= i < rest.len() implies rest[i] != '\n' by {
            assert(rest[i] == text[i + 1]);
        }
        lemma_star_matches_line(rest);
        assert(text[0] != '\n');
    }
}

} // verus!
