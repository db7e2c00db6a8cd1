//! Why the scanner is right: it reads back the tokens that were written
//! down.

use vstd::prelude::*;
use crate::exps::Tree;
use crate::grammar::{symbol, unparse, unparse_program};
use crate::token::{
    class_of, lex, lex_all, runs, scan, uniform, Bracket, CharType, KeywordType, Lexeme, Run,
    TokenType,
};

verus! {

/// The class of the characters that a token of this kind is made of.
pub open spec fn class_for(kind: TokenType) -> CharType {
    match kind {
        TokenType::Number => CharType::Digit,
        TokenType::Ident | TokenType::Keyword(_) => CharType::Alphabetic,
        TokenType::Operator => CharType::Punctuation,
        TokenType::Paren(_) => CharType::Bracket,
    }
}

/// The text of the lexeme is one that the scanner reads as a token of the
/// lexeme's kind.
pub open spec fn proper(l: Lexeme) -> bool {
    match l.kind {
        TokenType::Number => uniform(l.text, CharType::Digit),
        TokenType::Ident => uniform(l.text, CharType::Alphabetic) && l.text != "return"@ && l.text
            != "if"@,
        TokenType::Operator => uniform(l.text, CharType::Punctuation),
        TokenType::Paren(Bracket::Begin) => l.text == "("@,
        TokenType::Paren(Bracket::End) => l.text == ")"@,
        TokenType::Keyword(KeywordType::Return) => l.text == "return"@,
        TokenType::Keyword(KeywordType::If) => l.text == "if"@,
    }
}

/// Every token is proper.
pub open spec fn all_proper(tokens: Seq<Lexeme>) -> bool {
    forall|i: int| 0 <= i < tokens.len() ==> proper(#[trigger] tokens[i])
}

/// The texts of the tokens, each followed by one space.
pub open spec fn spaced(tokens: Seq<Lexeme>) -> Seq<char>
    decreases tokens.len(),
{
    if tokens.len() == 0 {
        Seq::empty()
    } else {
        spaced(tokens.drop_last()) + tokens.last().text + " "@
    }
}

proof fn lemma_proper_run(l: Lexeme)
    requires
        proper(l),
    ensures
        uniform(l.text, class_for(l.kind)),
        l.kind is Paren ==> l.text.len() == 1,
        lex(Run { class: class_for(l.kind), text: l.text }) == Some(l),
{
    reveal_strlit("return");
    reveal_strlit("if");
    reveal_strlit("(");
    reveal_strlit(")");
    assert("return"@.len() == 6);
    assert("if"@.len() == 2);
    assert(")"@[0] == ')');
    assert("("@[0] == '(');
    let read = lex(Run { class: class_for(l.kind), text: l.text });
    assert(read is Some);
    assert(read->0.text == l.text);
    assert(read->0.kind == l.kind);
}

proof fn lemma_runs_grow(s: Seq<char>, text: Seq<char>, class: CharType, k: int)
    requires
        uniform(text, class),
        text.len() == 1 || class != CharType::Bracket,
        s.len() == 0 || class_of(s.last()) != class,
        1 <= k <= text.len(),
    ensures
        runs(s + text.take(k)) == runs(s).push(Run { class, text: text.take(k) }),
    decreases k,
{
    let c = text[k - 1];
    assert(class_of(c) == class);
    assert(s + text.take(k) =~= (s + text.take(k - 1)).push(c));
    assert((s + text.take(k - 1)).push(c).drop_last() =~= s + text.take(k - 1));
    assert(text.take(k) =~= text.take(k - 1).push(c));
    if k == 1 {
        assert(s + text.take(0) =~= s);
        assert(text.take(1) =~= seq![c]);
    } else {
        lemma_runs_grow(s, text, class, k - 1);
        let before = runs(s).push(Run { class, text: text.take(k - 1) });
        assert(before.drop_last() =~= runs(s));
    }
}

proof fn lemma_spaced_ends_blank(tokens: Seq<Lexeme>)
    ensures
        spaced(tokens).len() == 0 || spaced(tokens).last() == ' ',
{
    reveal_strlit(" ");
    if tokens.len() > 0 {
        assert(" "@[0] == ' ');
    }
}

/// Scanning reads back what was written down: the texts of proper tokens,
/// set apart by spaces, are read as those tokens.
pub proof fn lemma_scan_spaced(tokens: Seq<Lexeme>)
    requires
        all_proper(tokens),
    ensures
        scan(spaced(tokens)) == tokens,
    decreases tokens.len(),
{
    if tokens.len() == 0 {
        assert(scan(spaced(tokens)) =~= tokens);
    } else {
        let earlier = tokens.drop_last();
        let l = tokens.last();
        let class = class_for(l.kind);
        let s = spaced(earlier);
        lemma_scan_spaced(earlier);
        lemma_spaced_ends_blank(earlier);
        lemma_proper_run(l);
        reveal_strlit(" ");
        assert(" "@[0] == ' ');
        assert(l.text.take(l.text.len() as int) =~= l.text);
        lemma_runs_grow(s, l.text, class, l.text.len() as int);
        let word = Run { class, text: l.text };
        assert(class_of((s + l.text).last()) == class);
        assert(" "@.take(1) =~= " "@);
        lemma_runs_grow(s + l.text, " "@, CharType::WhiteSpace, 1);
        let gap = Run { class: CharType::WhiteSpace, text: " "@ };
        let all = runs(s).push(word).push(gap);
        assert(runs(spaced(tokens)) == all);
        assert(all.drop_last() =~= runs(s).push(word));
        assert(runs(s).push(word).drop_last() =~= runs(s));
        assert(lex_all(all) == lex_all(runs(s).push(word)));
        assert(lex_all(runs(s).push(word)) == lex_all(runs(s)).push(l));
        assert(earlier.push(l) =~= tokens);
    }
}

/// The texts in the tree can be written down and read again: its numbers
/// are digits, and its names are letters and no keywords.
pub open spec fn lexical(t: Tree) -> bool
    decreases t,
{
    match t {
        Tree::Hole => true,
        Tree::Literal(s) => uniform(s, CharType::Digit),
        Tree::Variable(name) => proper(Lexeme { kind: TokenType::Ident, text: name }),
        Tree::Binary(l, _, r) => lexical(*l) && lexical(*r),
        Tree::Assign(name, rhs) => proper(Lexeme { kind: TokenType::Ident, text: name })
            && lexical(*rhs),
        Tree::Return(operand) => lexical(*operand),
        Tree::Group(inner) => lexical(*inner),
    }
}

/// The texts in every statement can be written down and read again.
pub open spec fn lexical_program(program: Seq<Tree>) -> bool {
    forall|i: int| 0 <= i < program.len() ==> lexical(#[trigger] program[i])
}

proof fn lemma_proper_signs()
    ensures
        forall|op: crate::exps::BinOp| #[trigger]
            proper(Lexeme { kind: TokenType::Operator, text: symbol(op) }),
        proper(Lexeme { kind: TokenType::Operator, text: "="@ }),
        proper(Lexeme { kind: TokenType::Operator, text: ";"@ }),
{
    reveal_strlit("+");
    reveal_strlit("-");
    reveal_strlit("*");
    reveal_strlit("/");
    reveal_strlit("=");
    reveal_strlit(";");
}

proof fn lemma_unparse_proper(t: Tree)
    requires
        lexical(t),
    ensures
        all_proper(unparse(t)),
    decreases t,
{
    lemma_proper_signs();
    match t {
        Tree::Binary(l, op, r) => {
            lemma_unparse_proper(*l);
            lemma_unparse_proper(*r);
            assert(proper(Lexeme { kind: TokenType::Operator, text: symbol(op) }));
        },
        Tree::Assign(_, rhs) => lemma_unparse_proper(*rhs),
        Tree::Return(operand) => lemma_unparse_proper(*operand),
        Tree::Group(inner) => lemma_unparse_proper(*inner),
        _ => {},
    }
}

proof fn lemma_unparse_program_proper(program: Seq<Tree>)
    requires
        lexical_program(program),
    ensures
        all_proper(unparse_program(program)),
    decreases program.len(),
{
    lemma_proper_signs();
    if program.len() == 1 {
        lemma_unparse_proper(program[0]);
    } else if program.len() > 1 {
        assert(lexical_program(program.drop_last()));
        lemma_unparse_program_proper(program.drop_last());
        lemma_unparse_proper(program.last());
    }
}

/// A text of the program: its tokens, each followed by one space.
pub open spec fn source(program: Seq<Tree>) -> Seq<char> {
    spaced(unparse_program(program))
}

/// The text of a program is read as the tokens of the program.
pub proof fn lemma_scan_source(program: Seq<Tree>)
    requires
        lexical_program(program),
    ensures
        scan(source(program)) == unparse_program(program),
{
    lemma_unparse_program_proper(program);
    lemma_scan_spaced(unparse_program(program));
}

} // verus!
