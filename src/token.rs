//! Token trees handed to the parser, and how a run of them reads as text.
use vstd::prelude::*;

verus! {

/// The delimiter of a group of token trees.
#[derive(Clone, Copy, Debug, PartialEq, Eq, Structural)]
pub enum Delimiter {
    Parenthesis,
    Brace,
    Bracket,
    Invisible,
}

/// What a token tree is.
#[derive(Debug)]
pub enum TokenKind {
    /// One punctuation character; `joint` when the next token follows it with no space
    /// (the `=` of `=>` is joint).
    Punct { ch: char, joint: bool },
    /// An identifier, a lifetime or a literal.
    Word,
    /// A delimited group and the token trees inside it.
    Group { delimiter: Delimiter, inner: Vec<TokenTree> },
}

/// One token tree: its kind, its source text (for a group, delimiters included), and an
/// identifier, unique within one input, by which the caller finds the source token again.
#[derive(Debug)]
pub struct TokenTree {
    pub kind: TokenKind,
    pub text: String,
    pub id: usize,
}

/// What stands between the texts of two neighbouring tokens.
pub open spec fn gap(t: TokenTree) -> Seq<char> {
    match t.kind {
        TokenKind::Punct { joint, .. } => if joint {
            seq![]
        } else {
            seq![' ']
        },
        _ => seq![' '],
    }
}

/// The text of a run of token trees: their texts, one space apart, none after a joint
/// punctuation character.
pub open spec fn render(s: Seq<TokenTree>) -> Seq<char>
    decreases s.len(),
{
    if s.len() == 0 {
        seq![]
    } else if s.len() == 1 {
        s[0].text@
    } else {
        render(s.drop_last()) + gap(s[s.len() - 2]) + s.last().text@
    }
}

/// Whether `t` is a comma.
pub open spec fn is_comma(t: TokenTree) -> bool {
    match t.kind {
        TokenKind::Punct { ch, .. } => ch == ',',
        _ => false,
    }
}

/// Whether a fat arrow `=>` starts at position `q` of `s`.
pub open spec fn arrow_at(s: Seq<TokenTree>, q: int) -> bool {
    0 <= q && q + 1 < s.len() && (match s[q].kind {
        TokenKind::Punct { ch, joint } => ch == '=' && joint,
        _ => false,
    }) && (match s[q + 1].kind {
        TokenKind::Punct { ch, .. } => ch == '>',
        _ => false,
    })
}

/// Whether `s[q]` is a group delimited by braces.
pub open spec fn brace_at(s: Seq<TokenTree>, q: int) -> bool {
    0 <= q < s.len() && (match s[q].kind {
        TokenKind::Group { delimiter, .. } => delimiter == Delimiter::Brace,
        _ => false,
    })
}

/// Whether the text is one complete Rust expression, as syn parses it.
pub uninterp spec fn parses_as_expr(text: Seq<char>) -> bool;

/// Relies on syn::parse_str::<syn::Expr>: it tells whether the whole text is one Rust
/// expression.
#[verifier::external_body]
pub(crate) fn is_expr(text: &String) -> (r: bool)
    ensures
        r == parses_as_expr(text@),
{
    syn::parse_str::<syn::Expr>(text.as_str()).is_ok()
}

impl TokenTree {
    pub fn is_comma(&self) -> (r: bool)
        ensures
            r == is_comma(*self),
    {
        match &self.kind {
            TokenKind::Punct { ch, .. } => *ch == ',',
            _ => false,
        }
    }

    /// Whether this token is the punctuation character `c`.
    pub fn is_punct(&self, c: char) -> (r: bool)
        ensures
            r == (match self.kind {
                TokenKind::Punct { ch, .. } => ch == c,
                _ => false,
            }),
    {
        match &self.kind {
            TokenKind::Punct { ch, .. } => *ch == c,
            _ => false,
        }
    }
}

/// Whether a fat arrow starts at position `q` of `s`.
pub fn has_arrow_at(s: &Vec<TokenTree>, q: usize) -> (r: bool)
    ensures
        r == arrow_at(s@, q as int),
{
    if q >= s.len() || s.len() - q < 2 {
        return false;
    }
    let first = match &s[q].kind {
        TokenKind::Punct { ch, joint } => *ch == '=' && *joint,
        _ => false,
    };
    first && s[q + 1].is_punct('>')
}

/// The text of the tokens `s[p..q]`.
pub fn render_range(s: &Vec<TokenTree>, p: usize, q: usize) -> (r: String)
    requires
        p <= q <= s.len(),
    ensures
        r@ == render(s@.subrange(p as int, q as int)),
{
    let mut out = String::new();
    let mut i: usize = p;
    while i < q
        invariant
            p <= i <= q <= s.len(),
            out@ == render(s@.subrange(p as int, i as int)),
        decreases q - i,
    {
        let ghost before = s@.subrange(p as int, i as int);
        let ghost after = s@.subrange(p as int, i + 1);
        assert(after.drop_last() =~= before);
        if i > p {
            let joint = match &s[i - 1].kind {
                TokenKind::Punct { joint, .. } => *joint,
                _ => false,
            };
            if !joint {
                proof {
                    reveal_strlit(" ");
                }
                out.append(" ");
            }
        }
        out.append(s[i].text.as_str());
        assert(out@ =~= render(after));
        i = i + 1;
    }
    out
}

/// The identifiers of the tokens `s[p..q]`.
pub fn ids_of_range(s: &Vec<TokenTree>, p: usize, q: usize) -> (r: Vec<usize>)
    requires
        p <= q <= s.len(),
    ensures
        r@ == s@.subrange(p as int, q as int).map_values(|t: TokenTree| t.id),
{
    let mut out: Vec<usize> = Vec::new();
    let mut i: usize = p;
    while i < q
        invariant
            p <= i <= q <= s.len(),
            out@ == s@.subrange(p as int, i as int).map_values(|t: TokenTree| t.id),
        decreases q - i,
    {
        out.push(s[i].id);
        assert(out@ =~= s@.subrange(p as int, i + 1).map_values(|t: TokenTree| t.id));
        i = i + 1;
    }
    out
}

} // verus!
