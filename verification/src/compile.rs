//! A pattern as an anchored regular expression, to hold the matchers
//! against a regex engine.

use vstd::prelude::*;
use vstd::string::StringExecFns;
use crate::pattern::{like_tokens, Token, ANY_BYTE, ANY_RUN};

verus! {

/// A compiled regular expression of the `regex` crate. Nothing of its inside
/// is known here.
#[verifier::external_type_specification]
#[verifier::external_body]
pub struct ExRegex(regex::Regex);

/// `String::push` appends the given character to the end of the string.
pub assume_specification[ String::push ](s: &mut String, ch: char)
    ensures
        final(s)@ == old(s)@.push(ch),
;

/// Why the regex engine did not compile an expression.
#[derive(Clone, Debug, PartialEq, Eq)]
pub enum CompileError {
    /// The engine's parser rejected the expression; its message.
    Syntax(String),
    /// The compiled program would exceed the engine's size limit, in bytes.
    TooBig(usize),
    /// A reason that the engine gives no variant for.
    Other,
}

/// Whether the regex engine gives `c` a meaning of its own, so that it must
/// be escaped to stand for itself.
pub open spec fn is_meta_character(c: char) -> bool {
    c == '\\' || c == '.' || c == '+' || c == '*' || c == '?' || c == '(' || c == ')' || c == '|'
        || c == '[' || c == ']' || c == '{' || c == '}' || c == '^' || c == '$' || c == '#' || c
        == '&' || c == '-' || c == '~'
}

/// `text` with a backslash put before each of its meta characters.
pub open spec fn escaped(text: Seq<char>) -> Seq<char>
    decreases text.len(),
{
    if text.len() == 0 {
        Seq::empty()
    } else if is_meta_character(text[0]) {
        seq!['\\', text[0]] + escaped(text.skip(1))
    } else {
        seq![text[0]] + escaped(text.skip(1))
    }
}

/// Calls `regex::escape`. Its contract says what the function does by its
/// source: it copies the text character by character and puts a backslash
/// before each character for which `regex_syntax::is_meta_character` holds,
/// the eighteen characters that `is_meta_character` lists here.
#[verifier::external_body]
fn escape_text(text: &str) -> (quoted: String)
    ensures
        quoted@ == escaped(text@),
{
    regex::escape(text)
}

/// Calls `regex::Regex::new` and hands back what it returns, the error
/// variant by variant. Nothing is claimed of the outcome: the engine decides
/// whether it takes an expression.
#[verifier::external_body]
fn compile(source: &str) -> (compiled: Result<regex::Regex, CompileError>) {
    match regex::Regex::new(source) {
        Ok(re) => Ok(re),
        Err(regex::Error::Syntax(message)) => Err(CompileError::Syntax(message)),
        Err(regex::Error::CompiledTooBig(limit)) => Err(CompileError::TooBig(limit)),
        Err(_) => Err(CompileError::Other),
    }
}

/// The regular expression for one token: `.*` for `%`, `.` for `_`, and for
/// a literal byte the character of the same code, escaped where the engine
/// would read it as a meta character.
pub open spec fn regex_piece(token: Token) -> Seq<char> {
    match token {
        Token::AnyRun => seq!['.', '*'],
        Token::AnyByte => seq!['.'],
        Token::Byte(b) => escaped(seq![b as char]),
    }
}

/// The pieces of `tokens`, one after the other.
pub open spec fn regex_body(tokens: Seq<Token>) -> Seq<char>
    decreases tokens.len(),
{
    if tokens.len() == 0 {
        Seq::empty()
    } else {
        regex_piece(tokens[0]) + regex_body(tokens.skip(1))
    }
}

/// The anchored regular expression that stands for `pattern`: `^`, the
/// pieces of its tokens as the linear matcher reads them, and `$`.
pub open spec fn regex_source(pattern: Seq<u8>, escape: u32) -> Seq<char> {
    seq!['^'] + regex_body(like_tokens(pattern, escape)) + seq!['$']
}

/// What is left to write from the cursor `px` on.
spec fn regex_rest(p: Seq<u8>, e: u32, px: int) -> Seq<char> {
    regex_body(like_tokens(p.skip(px), e))
}

/// How `regex_rest` unfolds by the pattern byte under the cursor.
proof fn lemma_regex_rest_step(p: Seq<u8>, e: u32, px: int)
    requires
        0 <= px <= p.len(),
    ensures
        px == p.len() ==> regex_rest(p, e, px) == Seq::<char>::empty(),
        px < p.len() && p[px] == ANY_RUN ==> regex_rest(p, e, px) == seq!['.', '*'] + regex_rest(
            p,
            e,
            px + 1,
        ),
        px < p.len() && p[px] == ANY_BYTE ==> regex_rest(p, e, px) == seq!['.'] + regex_rest(
            p,
            e,
            px + 1,
        ),
        px < p.len() && p[px] != ANY_RUN && p[px] != ANY_BYTE && p[px] == e && px + 1 < p.len()
            ==> regex_rest(p, e, px) == escaped(seq![p[px + 1] as char]) + regex_rest(
            p,
            e,
            px + 2,
        ),
        px < p.len() && p[px] != ANY_RUN && p[px] != ANY_BYTE && !(p[px] == e && px + 1 < p.len())
            ==> regex_rest(p, e, px) == escaped(seq![p[px] as char]) + regex_rest(p, e, px + 1),
{
    let ps = p.skip(px);
    let toks = like_tokens(ps, e);
    if px < p.len() {
        assert(ps.skip(1) =~= p.skip(px + 1));
        if px + 1 < p.len() {
            assert(ps.skip(2) =~= p.skip(px + 2));
        }
        assert(toks.len() > 0);
        assert(toks.skip(1) =~= like_tokens(
            if p[px] != ANY_RUN && p[px] != ANY_BYTE && p[px] == e && px + 1 < p.len() {
                p.skip(px + 2)
            } else {
                p.skip(px + 1)
            },
            e,
        ));
    } else {
        assert(ps.len() == 0);
    }
}

/// Writes the anchored regular expression that stands for `pattern`.
pub fn like_regex_source(pattern: &[u8], escape: u32) -> (source: String)
    ensures
        source@ == regex_source(pattern@, escape),
{
    let ghost p = pattern@;
    let mut res = String::new();
    res.push('^');
    let mut px: usize = 0;
    proof {
        assert(p.skip(0) =~= p);
    }
    while px < pattern.len()
        invariant
            p == pattern@,
            px <= p.len(),
            res@ + regex_rest(p, escape, px as int) == seq!['^'] + regex_rest(p, escape, 0),
        decreases p.len() - px,
    {
        proof {
            lemma_regex_rest_step(p, escape, px as int);
        }
        let ghost before = res@;
        let ghost at = px as int;
        let mut c = pattern[px];
        px += 1;
        if c == ANY_RUN {
            proof {
                reveal_strlit(".*");
            }
            res.append(".*");
            assert(res@ =~= before + seq!['.', '*']);
        } else if c == ANY_BYTE {
            res.push('.');
            assert(res@ =~= before + seq!['.']);
        } else {
            if c as u32 == escape && px < pattern.len() {
                c = pattern[px];
                px += 1;
            }
            let mut s = String::new();
            s.push(c as char);
            assert(s@ =~= seq![c as char]);
            let quoted = escape_text(s.as_str());
            res.append(quoted.as_str());
        }
        assert(res@ + regex_rest(p, escape, px as int) =~= before + regex_rest(p, escape, at));
    }
    proof {
        lemma_regex_rest_step(p, escape, px as int);
        assert(res@ + Seq::<char>::empty() =~= res@);
    }
    res.push('$');
    res
}

/// A pattern compiled by the regex engine, together with the expression
/// that was handed to the engine. Only `like_to_regex` makes one, so the
/// engine's regex is always the one compiled from that expression.
#[derive(Debug)]
pub struct LikeRegex {
    source: String,
    regex: regex::Regex,
}

impl View for LikeRegex {
    type V = Seq<char>;

    /// The expression that was compiled.
    closed spec fn view(&self) -> Seq<char> {
        self.source@
    }
}

impl LikeRegex {
    /// The engine's compiled regex.
    pub closed spec fn engine(&self) -> regex::Regex {
        self.regex
    }

    /// The expression that was compiled.
    pub fn as_str(&self) -> (text: &str)
        ensures
            text@ == self@,
    {
        self.source.as_str()
    }

    /// The engine's compiled regex, to match with.
    pub fn regex(&self) -> (re: &regex::Regex)
        ensures
            *re == self.engine(),
    {
        &self.regex
    }
}

/// Compiles the regular expression that stands for `pattern`.
///
/// The expression handed to the engine is `regex_source` of the pattern, and
/// a compiled pattern carries it. Whether the engine takes the expression,
/// the engine decides on the machine it runs on: an expression of a very
/// long pattern may exceed its size limit. What it answers is handed on.
pub fn like_to_regex(pattern: &[u8], escape: u32) -> (compiled: Result<LikeRegex, CompileError>)
    ensures
        compiled matches Ok(re) ==> re@ == regex_source(pattern@, escape),
{
    let source = like_regex_source(pattern, escape);
    match compile(source.as_str()) {
        Ok(regex) => Ok(LikeRegex { source, regex }),
        Err(error) => Err(error),
    }
}

} // verus!
