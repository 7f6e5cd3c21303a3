use proc_macro2::{Delimiter as Pm2Delimiter, Spacing, TokenStream, TokenTree as Pm2Tree};
use tree_literal::expand::{expand, Instr};
use tree_literal::syntax::{ChildSpec, ErrorKind, TreeLiteral};
use tree_literal::token::{Delimiter, TokenKind, TokenTree};
use tree_literal::tree;

fn convert(stream: TokenStream, next_id: &mut usize) -> Vec<TokenTree> {
    let mut out = Vec::new();
    for tt in stream {
        let id = *next_id;
        *next_id += 1;
        let text = tt.to_string();
        let kind = match tt {
            Pm2Tree::Punct(p) => TokenKind::Punct {
                ch: p.as_char(),
                joint: p.spacing() == Spacing::Joint,
            },
            Pm2Tree::Ident(_) | Pm2Tree::Literal(_) => TokenKind::Word,
            Pm2Tree::Group(g) => {
                let delimiter = match g.delimiter() {
                    Pm2Delimiter::Parenthesis => Delimiter::Parenthesis,
                    Pm2Delimiter::Brace => Delimiter::Brace,
                    Pm2Delimiter::Bracket => Delimiter::Bracket,
                    Pm2Delimiter::None => Delimiter::Invisible,
                };
                TokenKind::Group { delimiter, inner: convert(g.stream(), next_id) }
            }
        };
        out.push(TokenTree { kind, text, id });
    }
    out
}

fn tokens(src: &str) -> Vec<TokenTree> {
    let stream: TokenStream = src.parse().unwrap();
    let mut next_id = 0;
    convert(stream, &mut next_id)
}

fn render_instrs(instrs: &[Instr]) -> Vec<String> {
    instrs
        .iter()
        .map(|i| match i {
            Instr::ResolveRoot(e) => format!("root {}", e.text),
            Instr::Append(e) => format!("append {}", e.text),
            Instr::Descend => "descend".to_string(),
            Instr::Ascend => "ascend".to_string(),
            Instr::YieldRoot => "yield".to_string(),
        })
        .collect()
}

fn expand_src(src: &str) -> Vec<String> {
    let x = tree(&tokens(src)).unwrap();
    render_instrs(&x.instrs)
}

fn shape(f: &[ChildSpec]) -> String {
    let parts: Vec<String> = f
        .iter()
        .map(|c| {
            if c.children.is_empty() {
                c.value.text.clone()
            } else {
                format!("{} => {{{}}}", c.value.text, shape(&c.children))
            }
        })
        .collect();
    parts.join(", ")
}

#[test]
fn nested_scenario_emits_in_order() {
    assert_eq!(
        expand_src("a, 1 => { 2, 3 => { 4 } }"),
        vec!["root 1", "append 2", "append 3", "descend", "append 4", "ascend", "yield"]
    );
}

#[test]
fn arena_expression_is_kept() {
    let x = tree(&tokens("&mut arena, 1")).unwrap();
    assert_eq!(x.arena.text, "& mut arena");
    assert_eq!(x.arena.ids, vec![0, 1, 2]);
}

#[test]
fn root_only_has_empty_forest() {
    let lit = TreeLiteral::parse(&tokens("arena, root")).unwrap();
    assert!(lit.forest.is_empty());
    assert_eq!(lit.root.text, "root");
    assert_eq!(expand_src("arena, root"), vec!["root root", "yield"]);
}

#[test]
fn empty_braces_equal_no_braces() {
    let a = TreeLiteral::parse(&tokens("arena, root")).unwrap();
    let b = TreeLiteral::parse(&tokens("arena, root => {}")).unwrap();
    assert!(b.forest.is_empty());
    assert_eq!(a.root.text, b.root.text);
    assert_eq!(a.arena.text, b.arena.text);
    assert_eq!(expand_src("arena, root"), expand_src("arena, root => {}"));
}

#[test]
fn trailing_comma_in_list_is_ignored() {
    let a = TreeLiteral::parse(&tokens("arena, root => { a, b, }")).unwrap();
    let b = TreeLiteral::parse(&tokens("arena, root => { a, b }")).unwrap();
    assert_eq!(shape(&a.forest), "a, b");
    assert_eq!(shape(&a.forest), shape(&b.forest));
    assert_eq!(a.root.ids, b.root.ids);
    assert_eq!(a.forest[1].value.ids, b.forest[1].value.ids);
    assert_eq!(expand_src("arena, root => { a, b, }"), expand_src("arena, root => { a, b }"));
}

#[test]
fn trailing_comma_at_top_level_is_ignored() {
    assert_eq!(expand_src("arena, root,"), vec!["root root", "yield"]);
    assert_eq!(expand_src("arena, root => { x },"), vec!["root root", "append x", "yield"]);
}

#[test]
fn trailing_comma_in_nested_list_is_ignored() {
    assert_eq!(expand_src("a, 1 => { 2 => { 3, }, }"), expand_src("a, 1 => { 2 => { 3 } }"));
}

#[test]
fn parsing_twice_gives_the_same_literal() {
    let src = "a, f(1) => { x + 1 => { y, z }, w }";
    let first = TreeLiteral::parse(&tokens(src)).unwrap();
    let second = TreeLiteral::parse(&tokens(src)).unwrap();
    assert_eq!(format!("{:?}", first), format!("{:?}", second));
    assert_eq!(shape(&first.forest), "x + 1 => {y, z}, w");
}

#[test]
fn counts_match_the_literal() {
    let out = expand_src("a, r => { b => { c, d => { e } }, f, g => { h } }");
    let appends = out.iter().filter(|s| s.starts_with("append")).count();
    let descends = out.iter().filter(|s| *s == "descend").count();
    let ascends = out.iter().filter(|s| *s == "ascend").count();
    assert_eq!(appends, 7);
    assert_eq!(ascends, 3);
    assert_eq!(descends, ascends);
}

#[test]
fn depth_never_goes_below_root() {
    let out = expand_src("a, r => { b => { c, d => { e } }, f, g => { h } }");
    let mut depth: i64 = 0;
    for s in &out {
        if s == "descend" {
            depth += 1;
        }
        if s == "ascend" {
            depth -= 1;
        }
        assert!(depth >= 0);
    }
    assert_eq!(depth, 0);
}

#[test]
fn siblings_keep_source_order() {
    let out = expand_src("a, r => { z, y => { q }, x }");
    let pos = |name: &str| out.iter().position(|s| s == &format!("append {}", name)).unwrap();
    assert!(pos("z") < pos("y"));
    assert!(pos("y") < pos("x"));
}

#[test]
fn expression_with_commas_inside_generics() {
    let lit = TreeLiteral::parse(&tokens("arena, foo::<A, B>() => { 1 }")).unwrap();
    assert_eq!(lit.root.text, "foo ::< A , B > ()");
    assert_eq!(shape(&lit.forest), "1");
}

#[test]
fn expression_with_closure_arguments() {
    let lit = TreeLiteral::parse(&tokens("arena, r => { |a, b| a + b, 2 }")).unwrap();
    assert_eq!(lit.forest.len(), 2);
    assert_eq!(lit.forest[0].value.text, "| a , b | a + b");
}

#[test]
fn missing_comma_after_arena() {
    let err = tree(&tokens("arena")).unwrap_err();
    assert_eq!(err.kind, ErrorKind::ExpectedComma);
    assert_eq!(err.at, None);
    let err = tree(&tokens("arena => { a }")).unwrap_err();
    assert_eq!(err.kind, ErrorKind::ExpectedComma);
    assert_eq!(err.at, Some(1));
}

#[test]
fn not_an_expression() {
    let err = tree(&tokens("arena, root => { a b, c }")).unwrap_err();
    assert_eq!(err.kind, ErrorKind::ExpectedComma);
    assert_eq!(err.at, Some(7));
}

#[test]
fn empty_input_is_not_an_expression() {
    let err = tree(&Vec::new()).unwrap_err();
    assert_eq!(err.kind, ErrorKind::ExpectedExpression);
    assert_eq!(err.at, None);
}

#[test]
fn arrow_without_braces() {
    let err = tree(&tokens("arena, root => (a)")).unwrap_err();
    assert_eq!(err.kind, ErrorKind::ExpectedBrace);
    assert_eq!(err.at, Some(5));
    let err = tree(&tokens("arena, root => { a => }")).unwrap_err();
    assert_eq!(err.kind, ErrorKind::ExpectedBrace);
    assert_eq!(err.at, None);
}

#[test]
fn missing_comma_between_entries() {
    let err = tree(&tokens("arena, root => { a => { b } c }")).unwrap_err();
    assert_eq!(err.kind, ErrorKind::ExpectedComma);
    assert_eq!(err.at, Some(11));
}

#[test]
fn tokens_after_the_literal() {
    let err = tree(&tokens("arena, root => { a }, extra")).unwrap_err();
    assert_eq!(err.kind, ErrorKind::UnexpectedToken);
    assert_eq!(err.at, Some(8));
}

#[test]
fn expand_of_parsed_literal() {
    let lit = TreeLiteral::parse(&tokens("a, 1 => { 2 => { 3 }, 4 }")).unwrap();
    let x = expand(lit);
    assert_eq!(
        render_instrs(&x.instrs),
        vec!["root 1", "append 2", "descend", "append 3", "ascend", "append 4", "yield"]
    );
}

#[test]
fn single_entry_parse_reports_its_end() {
    let toks = tokens("x => { y }, z");
    let (c, end) = ChildSpec::parse(&toks, 0).unwrap();
    assert_eq!(end, 4);
    assert_eq!(c.value.text, "x");
    assert_eq!(c.children.len(), 1);
}

#[test]
fn entry_running_past_its_expression() {
    let err = tree(&tokens("a r")).unwrap_err();
    assert_eq!(err.kind, ErrorKind::ExpectedComma);
    assert_eq!(err.at, Some(1));
    let err = tree(&tokens("arena, root => { x y }")).unwrap_err();
    assert_eq!(err.kind, ErrorKind::ExpectedComma);
    assert_eq!(err.at, Some(7));
}

#[test]
fn no_expression_at_all() {
    let err = tree(&tokens("arena, root => { , }")).unwrap_err();
    assert_eq!(err.kind, ErrorKind::ExpectedExpression);
    assert_eq!(err.at, Some(6));
}

#[test]
fn single_entry_parse_of_empty_input() {
    let err = ChildSpec::parse(&Vec::new(), 0).unwrap_err();
    assert_eq!(err.kind, ErrorKind::ExpectedExpression);
    assert_eq!(err.at, None);
}

#[test]
fn nested_siblings_keep_source_order() {
    let out = expand_src("a, r => { p => { z, y => { q, o }, x } }");
    let pos = |name: &str| out.iter().position(|s| s == &format!("append {}", name)).unwrap();
    assert!(pos("z") < pos("y"));
    assert!(pos("y") < pos("x"));
    assert!(pos("q") < pos("o"));
}
