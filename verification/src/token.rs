//! Tokens, and the scanner that reads a text as tokens.
//!
//! The scanner classes each character, divides the text into runs of one
//! class, and reads each run of letters, digits or punctuation and each
//! bracket as one token. White space and characters of no known class only
//! set tokens apart.

use vstd::prelude::*;
use vstd::string::is_ascii;

verus! {

/// Which side of a parenthesised group a bracket is.
#[derive(Debug, Clone, Copy, PartialEq, Eq, Structural)]
pub enum Bracket {
    Begin,
    End,
}

/// The words that are no names.
#[derive(Debug, Clone, Copy, PartialEq, Eq, Structural)]
pub enum KeywordType {
    Return,
    If,
}

/// The kind of a token.
#[derive(Debug, Clone, Copy, PartialEq, Eq, Structural)]
pub enum TokenType {
    Number,
    Operator,
    Ident,
    Paren(Bracket),
    Keyword(KeywordType),
}

/// One lexical token: its kind and the text it was read from.
#[derive(Debug, PartialEq, Eq)]
pub struct Token {
    /// The kind.
    pub t: TokenType,
    /// The text.
    pub s: String,
}

/// What a [`Token`] stands for: its kind and its text as a sequence of
/// characters.
pub struct Lexeme {
    /// The kind.
    pub kind: TokenType,
    /// The text.
    pub text: Seq<char>,
}

impl View for Token {
    type V = Lexeme;

    open spec fn view(&self) -> Lexeme {
        Lexeme { kind: self.t, text: self.s@ }
    }
}

impl Clone for Token {
    fn clone(&self) -> (r: Self)
        ensures
            r == *self,
    {
        Token { t: self.t, s: self.s.clone() }
    }
}

/// The lexemes that a sequence of tokens stands for, in order.
pub open spec fn lexemes(tokens: Seq<Token>) -> Seq<Lexeme> {
    tokens.map_values(|t: Token| t@)
}

/// The class of a character, by which the scanner splits the input.
#[derive(Debug, Clone, Copy, PartialEq, Eq, Structural)]
pub enum CharType {
    WhiteSpace,
    Digit,
    Alphabetic,
    Bracket,
    Punctuation,
    Unknown,
}

/// The class of `c`. Parentheses are brackets; the other classes are the
/// ASCII ones of these names; every other character is unknown.
pub open spec fn class_of(c: char) -> CharType {
    if c == '(' || c == ')' {
        CharType::Bracket
    } else if c == ' ' || c == '\t' || c == '\n' || c == '\x0C' || c == '\r' {
        CharType::WhiteSpace
    } else if '0' <= c <= '9' {
        CharType::Digit
    } else if 'a' <= c <= 'z' || 'A' <= c <= 'Z' {
        CharType::Alphabetic
    } else if '!' <= c <= '/' || ':' <= c <= '@' || '[' <= c <= '`' || '{' <= c <= '~' {
        CharType::Punctuation
    } else {
        CharType::Unknown
    }
}

impl From<&char> for CharType {
    fn from(c: &char) -> (r: Self) {
        let c = *c;
        if c == '(' || c == ')' {
            CharType::Bracket
        } else if c == ' ' || c == '\t' || c == '\n' || c == '\x0C' || c == '\r' {
            CharType::WhiteSpace
        } else if '0' <= c && c <= '9' {
            CharType::Digit
        } else if ('a' <= c && c <= 'z') || ('A' <= c && c <= 'Z') {
            CharType::Alphabetic
        } else if ('!' <= c && c <= '/') || (':' <= c && c <= '@') || ('[' <= c && c <= '`') || (
        '{' <= c && c <= '~') {
            CharType::Punctuation
        } else {
            CharType::Unknown
        }
    }
}

impl vstd::std_specs::convert::FromSpecImpl<&char> for CharType {
    open spec fn obeys_from_spec() -> bool {
        true
    }

    open spec fn from_spec(c: &char) -> Self {
        class_of(*c)
    }
}

/// A stretch of characters of one class.
pub struct Run {
    /// The class of its characters.
    pub class: CharType,
    /// Its characters.
    pub text: Seq<char>,
}

/// Splits the input into runs, left to right: a character joins the run
/// before it if it is of that run's class, and starts a new run otherwise.
/// A bracket is always a run of its own.
pub open spec fn runs(s: Seq<char>) -> Seq<Run>
    decreases s.len(),
{
    if s.len() == 0 {
        Seq::empty()
    } else {
        let before = runs(s.drop_last());
        let c = s.last();
        if before.len() > 0 && before.last().class != CharType::Bracket && before.last().class
            == class_of(c) {
            before.drop_last().push(Run { class: class_of(c), text: before.last().text.push(c) })
        } else {
            before.push(Run { class: class_of(c), text: seq![c] })
        }
    }
}

/// The token that a run is read as, if it is read as one: runs of white
/// space and of unknown characters are passed over.
pub open spec fn lex(run: Run) -> Option<Lexeme> {
    match run.class {
        CharType::Alphabetic => Some(
            Lexeme {
                kind: if run.text == "return"@ {
                    TokenType::Keyword(KeywordType::Return)
                } else if run.text == "if"@ {
                    TokenType::Keyword(KeywordType::If)
                } else {
                    TokenType::Ident
                },
                text: run.text,
            },
        ),
        CharType::Digit => Some(Lexeme { kind: TokenType::Number, text: run.text }),
        CharType::Punctuation => Some(Lexeme { kind: TokenType::Operator, text: run.text }),
        CharType::Bracket => Some(
            Lexeme {
                kind: TokenType::Paren(
                    if run.text == "("@ {
                        Bracket::Begin
                    } else {
                        Bracket::End
                    },
                ),
                text: run.text,
            },
        ),
        CharType::WhiteSpace | CharType::Unknown => None,
    }
}

/// The tokens of a sequence of runs, in order.
pub open spec fn lex_all(rs: Seq<Run>) -> Seq<Lexeme>
    decreases rs.len(),
{
    if rs.len() == 0 {
        Seq::empty()
    } else {
        match lex(rs.last()) {
            Some(l) => lex_all(rs.drop_last()).push(l),
            None => lex_all(rs.drop_last()),
        }
    }
}

/// The tokens of a text.
pub open spec fn scan(s: Seq<char>) -> Seq<Lexeme> {
    lex_all(runs(s))
}

/// The runs that raw tokens stand for.
pub open spec fn raw_runs(raw: Seq<(CharType, String)>) -> Seq<Run> {
    raw.map_values(|r: (CharType, String)| Run { class: r.0, text: r.1@ })
}

/// The characters of `buf` from `from` up to, and not including, `to`. In a
/// text of ASCII characters only, a character is found where its number
/// says; in another text it is counted up to.
fn cut(buf: &str, ascii: bool, from: usize, to: usize) -> (s: String)
    requires
        ascii == is_ascii(buf),
        from <= to <= buf@.len(),
    ensures
        s@ == buf@.subrange(from as int, to as int),
{
    if ascii {
        buf.substring_ascii(from, to).to_owned()
    } else {
        buf.substring_char(from, to).to_owned()
    }
}

/// Splits a text into its runs.
pub fn split_to_raw_tokens(buf: &str) -> (ret: Vec<(CharType, String)>)
    ensures
        raw_runs(ret@) == runs(buf@),
{
    let mut ret: Vec<(CharType, String)> = Vec::new();
    let total = buf.unicode_len();
    let ascii = buf.is_ascii();
    let mut class = CharType::Unknown;
    let mut start: usize = 0;
    let mut i: usize = 0;
    assert(raw_runs(ret@) =~= Seq::empty());
    for c in it: buf.chars()
        invariant
            it.seq() == buf@,
            i == it.index(),
            total == buf@.len(),
            ascii == is_ascii(buf),
            start <= i,
            i == 0 ==> ret@.len() == 0,
            i > 0 ==> start < i && runs(buf@.take(i as int)).len() > 0 && raw_runs(ret@) == runs(
                buf@.take(i as int),
            ).drop_last() && runs(buf@.take(i as int)).last() == (Run {
                class,
                text: buf@.subrange(start as int, i as int),
            }),
    {
        let ty = CharType::from(&c);
        proof {
            assert(buf@.take(i + 1).drop_last() =~= buf@.take(i as int));
            assert(buf@.take(i + 1).last() == c);
            assert(buf@.subrange(start as int, i + 1) =~= buf@.subrange(start as int, i as int).push(
                c,
            ));
            assert(buf@.subrange(i as int, i + 1) =~= seq![c]);
        }
        if i == 0 || class == CharType::Bracket || class != ty {
            if i > 0 {
                let ghost closed = raw_runs(ret@);
                let text = cut(buf, ascii, start, i);
                ret.push((class, text));
                assert(raw_runs(ret@) =~= closed.push(
                    Run { class, text: buf@.subrange(start as int, i as int) },
                ));
                assert(raw_runs(ret@) =~= runs(buf@.take(i as int)));
            }
            start = i;
            class = ty;
        }
        i += 1;
    }
    assert(buf@.take(i as int) =~= buf@);
    if i > 0 {
        let ghost closed = raw_runs(ret@);
        let text = cut(buf, ascii, start, i);
        ret.push((class, text));
        assert(raw_runs(ret@) =~= closed.push(
            Run { class, text: buf@.subrange(start as int, i as int) },
        ));
    }
    ret
}

/// Reads a text as tokens.
pub fn tokenize(buf: &str) -> (res: Vec<Token>)
    ensures
        lexemes(res@) == scan(buf@),
{
    let keyword_return = "return".to_owned();
    let keyword_if = "if".to_owned();
    let paren_open = "(".to_owned();
    let raw = split_to_raw_tokens(buf);
    let ghost rs = raw_runs(raw@);
    let mut res: Vec<Token> = Vec::new();
    let mut i: usize = 0;
    assert(rs.take(0) =~= Seq::empty());
    assert(lexemes(res@) =~= Seq::empty());
    while i < raw.len()
        invariant
            i <= raw.len(),
            rs == raw_runs(raw@),
            keyword_return@ == "return"@,
            keyword_if@ == "if"@,
            paren_open@ == "("@,
            lexemes(res@) == lex_all(rs.take(i as int)),
        decreases raw.len() - i,
    {
        proof {
            assert(rs.take(i + 1).drop_last() =~= rs.take(i as int));
            assert(rs.take(i + 1).last() == rs[i as int]);
        }
        let class = raw[i].0;
        let s = raw[i].1.clone();
        let kind = match class {
            CharType::Alphabetic => {
                if s == keyword_return {
                    Some(TokenType::Keyword(KeywordType::Return))
                } else if s == keyword_if {
                    Some(TokenType::Keyword(KeywordType::If))
                } else {
                    Some(TokenType::Ident)
                }
            },
            CharType::Digit => Some(TokenType::Number),
            CharType::Punctuation => Some(TokenType::Operator),
            CharType::Bracket => {
                if s == paren_open {
                    Some(TokenType::Paren(Bracket::Begin))
                } else {
                    Some(TokenType::Paren(Bracket::End))
                }
            },
            CharType::WhiteSpace | CharType::Unknown => None,
        };
        if let Some(t) = kind {
            let ghost before = lexemes(res@);
            res.push(Token { t, s });
            assert(lexemes(res@) =~= before.push(Lexeme { kind: t, text: s@ }));
        }
        i += 1;
    }
    assert(rs.take(i as int) =~= rs);
    res
}

/// The text is one character or more, all of one class.
pub open spec fn uniform(s: Seq<char>, class: CharType) -> bool {
    &&& s.len() > 0
    &&& forall|i: int| 0 <= i < s.len() ==> class_of(#[trigger] s[i]) == class
}

/// The texts of the runs, one after the other.
pub open spec fn joined(rs: Seq<Run>) -> Seq<char>
    decreases rs.len(),
{
    if rs.len() == 0 {
        Seq::empty()
    } else {
        joined(rs.drop_last()) + rs.last().text
    }
}

/// Every run is of one class, and a bracket stands alone.
pub open spec fn homogeneous(rs: Seq<Run>) -> bool {
    forall|i: int|
        0 <= i < rs.len() ==> uniform((#[trigger] rs[i]).text, rs[i].class) && (rs[i].class
            == CharType::Bracket ==> rs[i].text.len() == 1)
}

/// The runs are as long as they can be: a run that is no bracket is
/// followed by a run of another class.
pub open spec fn maximal(rs: Seq<Run>) -> bool {
    forall|i: int, j: int|
        0 <= i && j == i + 1 && j < rs.len() ==> (#[trigger] rs[i]).class == CharType::Bracket
            || rs[i].class != (#[trigger] rs[j]).class
}

proof fn lemma_runs_join(s: Seq<char>)
    ensures
        joined(runs(s)) == s,
    decreases s.len(),
{
    if s.len() == 0 {
        assert(joined(runs(s)) =~= s);
    } else {
        let c = s.last();
        let before = runs(s.drop_last());
        lemma_runs_join(s.drop_last());
        if before.len() > 0 && before.last().class != CharType::Bracket && before.last().class
            == class_of(c) {
            let merged = Run { class: class_of(c), text: before.last().text.push(c) };
            let after = before.drop_last().push(merged);
            assert(after.drop_last() =~= before.drop_last());
            assert(joined(after) =~= joined(before.drop_last()) + before.last().text.push(c));
            assert(joined(before) =~= joined(before.drop_last()) + before.last().text);
            assert(joined(after) =~= s.drop_last().push(c));
            assert(s.drop_last().push(c) =~= s);
        } else {
            let fresh = Run { class: class_of(c), text: seq![c] };
            let after = before.push(fresh);
            assert(after.drop_last() =~= before);
            assert(joined(after) =~= s.drop_last() + seq![c]);
            assert(s.drop_last() + seq![c] =~= s);
        }
    }
}

proof fn lemma_runs_homogeneous(s: Seq<char>)
    ensures
        homogeneous(runs(s)),
    decreases s.len(),
{
    if s.len() > 0 {
        let c = s.last();
        let before = runs(s.drop_last());
        lemma_runs_homogeneous(s.drop_last());
        let after = runs(s);
        assert forall|i: int| 0 <= i < after.len() implies uniform(
            (#[trigger] after[i]).text,
            after[i].class,
        ) && (after[i].class == CharType::Bracket ==> after[i].text.len() == 1) by {
            if i < after.len() - 1 {
                assert(after[i] == before[i]);
            } else if before.len() > 0 && before.last().class != CharType::Bracket
                && before.last().class == class_of(c) {
                assert(uniform(before.last().text, before.last().class));
            }
        }
    }
}

proof fn lemma_runs_maximal(s: Seq<char>)
    ensures
        maximal(runs(s)),
    decreases s.len(),
{
    if s.len() > 0 {
        let c = s.last();
        let before = runs(s.drop_last());
        lemma_runs_maximal(s.drop_last());
        let after = runs(s);
        assert forall|i: int, j: int| 0 <= i && j == i + 1 && j < after.len() implies (
        #[trigger] after[i]).class == CharType::Bracket || after[i].class != (
        #[trigger] after[j]).class by {
            assert(after[i] == before[i]);
            if j < after.len() - 1 {
                assert(after[j] == before[j]);
            } else if before.len() > 0 && before.last().class != CharType::Bracket
                && before.last().class == class_of(c) {
                assert(after[j].class == before[j].class);
            }
        }
    }
}

/// The runs of a text divide it: their texts, one after the other, are the
/// text. Each is of one class, and each is as long as it can be.
pub proof fn lemma_runs_divide(s: Seq<char>)
    ensures
        joined(runs(s)) == s,
        homogeneous(runs(s)),
        maximal(runs(s)),
{
    lemma_runs_join(s);
    lemma_runs_homogeneous(s);
    lemma_runs_maximal(s);
}

/// Every run holds at least one character, so there are no more runs than
/// characters; and every token comes from one run, so there are no more
/// tokens than runs.
pub proof fn lemma_scan_len(s: Seq<char>)
    ensures
        scan(s).len() <= runs(s).len() <= s.len(),
{
    lemma_runs_len(s);
    lemma_lex_all_len(runs(s));
}

proof fn lemma_runs_len(s: Seq<char>)
    ensures
        runs(s).len() <= s.len(),
    decreases s.len(),
{
    if s.len() > 0 {
        lemma_runs_len(s.drop_last());
    }
}

proof fn lemma_lex_all_len(rs: Seq<Run>)
    ensures
        lex_all(rs).len() <= rs.len(),
    decreases rs.len(),
{
    if rs.len() > 0 {
        lemma_lex_all_len(rs.drop_last());
    }
}

/// The character only separates tokens: it is white space or unknown.
pub open spec fn blank(c: char) -> bool {
    class_of(c) == CharType::WhiteSpace || class_of(c) == CharType::Unknown
}

/// Every character of the text is blank.
pub open spec fn all_blank(s: Seq<char>) -> bool {
    forall|i: int| 0 <= i < s.len() ==> blank(#[trigger] s[i])
}

proof fn lemma_last_run(s: Seq<char>)
    requires
        s.len() > 0,
    ensures
        runs(s).len() > 0,
        runs(s).last().class == class_of(s.last()),
{
}

proof fn lemma_blank_suffix(s: Seq<char>, post: Seq<char>)
    requires
        all_blank(post),
    ensures
        scan(s + post) == scan(s),
    decreases post.len(),
{
    if post.len() == 0 {
        assert(s + post =~= s);
    } else {
        let shorter = post.drop_last();
        let c = post.last();
        assert(blank(c));
        assert(all_blank(shorter));
        lemma_blank_suffix(s, shorter);
        assert(s + post =~= (s + shorter).push(c));
        assert((s + shorter).push(c).drop_last() =~= s + shorter);
        let before = runs(s + shorter);
        if before.len() > 0 && before.last().class != CharType::Bracket && before.last().class
            == class_of(c) {
            let merged = Run { class: class_of(c), text: before.last().text.push(c) };
            assert(before.drop_last().push(merged).drop_last() =~= before.drop_last());
        } else {
            let fresh = Run { class: class_of(c), text: seq![c] };
            assert(before.push(fresh).drop_last() =~= before);
        }
    }
}

proof fn lemma_blank_prefix_step(pre: Seq<char>, s: Seq<char>)
    requires
        all_blank(pre),
        s.len() > 0,
    ensures
        runs(pre + s).len() > 0,
        runs(s).len() > 0,
        runs(pre + s).last().class == runs(s).last().class,
        lex(runs(pre + s).last()) == lex(runs(s).last()),
        lex(runs(s).last()) is Some ==> runs(pre + s).last() == runs(s).last(),
        lex_all(runs(pre + s).drop_last()) == lex_all(runs(s).drop_last()),
    decreases s.len(),
{
    let c = s.last();
    let shorter = s.drop_last();
    assert(pre + s =~= (pre + shorter).push(c));
    assert((pre + shorter).push(c).drop_last() =~= pre + shorter);
    let padded = runs(pre + shorter);
    let plain = runs(shorter);
    if shorter.len() == 0 {
        assert(pre + shorter =~= pre);
        assert(pre =~= Seq::<char>::empty() + pre);
        lemma_blank_suffix(Seq::empty(), pre);
        assert(lex_all(padded) =~= Seq::empty());
        if pre.len() > 0 {
            lemma_last_run(pre);
            assert(blank(pre.last()));
        }
        if padded.len() > 0 && padded.last().class != CharType::Bracket && padded.last().class
            == class_of(c) {
            let merged = Run { class: class_of(c), text: padded.last().text.push(c) };
            assert(padded.drop_last().push(merged).drop_last() =~= padded.drop_last());
        } else {
            let fresh = Run { class: class_of(c), text: seq![c] };
            assert(padded.push(fresh).drop_last() =~= padded);
        }
        assert(plain.push(Run { class: class_of(c), text: seq![c] }).drop_last() =~= plain);
    } else {
        lemma_blank_prefix_step(pre, shorter);
        if plain.last().class != CharType::Bracket && plain.last().class == class_of(c) {
            let merged_padded = Run { class: class_of(c), text: padded.last().text.push(c) };
            let merged_plain = Run { class: class_of(c), text: plain.last().text.push(c) };
            assert(padded.drop_last().push(merged_padded).drop_last() =~= padded.drop_last());
            assert(plain.drop_last().push(merged_plain).drop_last() =~= plain.drop_last());
        } else {
            let fresh = Run { class: class_of(c), text: seq![c] };
            assert(padded.push(fresh).drop_last() =~= padded);
            assert(plain.push(fresh).drop_last() =~= plain);
        }
    }
}

/// Blank characters before and after a text change nothing in its tokens.
/// So a text may be scanned with or without the white space around it.
pub proof fn lemma_scan_ignores_margins(pre: Seq<char>, s: Seq<char>, post: Seq<char>)
    requires
        all_blank(pre),
        all_blank(post),
    ensures
        scan(pre + s + post) == scan(s),
{
    lemma_blank_suffix(pre + s, post);
    if s.len() == 0 {
        assert(pre + s =~= Seq::<char>::empty() + pre);
        lemma_blank_suffix(Seq::empty(), pre);
        assert(runs(Seq::<char>::empty()) =~= runs(s));
    } else {
        lemma_blank_prefix_step(pre, s);
    }
}

} // verus!
