use re::compile::{compile, Compiler};
use re::inst::{Instruction, Match};
use re::parse::{Ast, Modifier, One, Parser};

fn ch(c: char) -> Instruction {
    Instruction::Match(Match::Char(c))
}

#[test]
fn literal_program() {
    assert_eq!(compile("ab").unwrap(), vec![ch('a'), ch('b'), Instruction::Succeed]);
}

#[test]
fn optional_program() {
    assert_eq!(
        compile("a?").unwrap(),
        vec![Instruction::Split(1, 2), ch('a'), Instruction::Succeed]
    );
}

#[test]
fn star_program() {
    assert_eq!(
        compile("a*").unwrap(),
        vec![Instruction::Split(1, 3), ch('a'), Instruction::Jmp(0), Instruction::Succeed]
    );
}

#[test]
fn plus_program() {
    assert_eq!(
        compile("xa+").unwrap(),
        vec![ch('x'), ch('a'), Instruction::Split(1, 3), Instruction::Succeed]
    );
}

#[test]
fn dot_program() {
    assert_eq!(
        compile(".").unwrap(),
        vec![Instruction::Match(Match::Dot), Instruction::Succeed]
    );
}

#[test]
fn alternation_program() {
    assert_eq!(
        compile("a|b").unwrap(),
        vec![
            Instruction::Split(1, 3),
            ch('a'),
            Instruction::Jmp(6),
            Instruction::Split(4, 4),
            ch('b'),
            Instruction::Jmp(6),
            Instruction::Succeed,
        ]
    );
}

#[test]
fn empty_alternative_program() {
    assert_eq!(
        compile("a|").unwrap(),
        vec![
            Instruction::Split(1, 3),
            ch('a'),
            Instruction::Jmp(5),
            Instruction::Split(4, 4),
            Instruction::Jmp(5),
            Instruction::Succeed,
        ]
    );
}

#[test]
fn group_star_program() {
    assert_eq!(
        compile("(ab)*c").unwrap(),
        vec![
            Instruction::Split(1, 4),
            ch('a'),
            ch('b'),
            Instruction::Jmp(0),
            ch('c'),
            Instruction::Succeed,
        ]
    );
}

#[test]
fn empty_pattern_program() {
    assert_eq!(compile("").unwrap(), vec![Instruction::Succeed]);
}

#[test]
fn compilation_is_deterministic() {
    for pattern in ["a?b+c*|d+|e+", "c(a+(bd)+)+", "(a|b)*c", ""] {
        assert_eq!(compile(pattern), compile(pattern));
    }
}

#[test]
fn parser_builds_fragments() {
    let mut parser = Parser::new("a.+");
    let ast = parser.parse().unwrap();
    assert_eq!(ast.len(), 2);
    assert!(matches!(ast[0], Ast::Fragment(One::Match(Match::Char('a')), Modifier::No)));
    assert!(matches!(ast[1], Ast::Fragment(One::Match(Match::Dot), Modifier::Plus)));
}

#[test]
fn parser_keeps_every_alternative() {
    let mut parser = Parser::new("ab|c|d*");
    let ast = parser.parse().unwrap();
    assert_eq!(ast.len(), 1);
    match &ast[0] {
        Ast::Or(alts) => {
            assert_eq!(alts.len(), 3);
            assert_eq!(alts[0].len(), 2);
            assert_eq!(alts[1].len(), 1);
            assert!(matches!(alts[2][0], Ast::Fragment(One::Match(Match::Char('d')), Modifier::Star)));
        }
        _ => panic!("expected an alternation"),
    }
}

#[test]
fn parser_nests_groups() {
    let mut parser = Parser::new("(a(b))?");
    let ast = parser.parse().unwrap();
    assert_eq!(ast.len(), 1);
    match &ast[0] {
        Ast::Fragment(One::Group(inner), Modifier::QMark) => {
            assert_eq!(inner.len(), 2);
            assert!(matches!(inner[1], Ast::Fragment(One::Group(_), Modifier::No)));
        }
        _ => panic!("expected a quantified group"),
    }
}

#[test]
fn parse_fragment_stops_at_delimiter() {
    let mut parser = Parser::new("ab)c");
    let (ast, found) = parser.parse_fragment(Some(')')).unwrap();
    assert_eq!(ast.len(), 2);
    assert!(found);
    let mut parser = Parser::new("abc");
    let (ast, found) = parser.parse_fragment(Some(')')).unwrap();
    assert_eq!(ast.len(), 3);
    assert!(!found);
}

#[test]
fn compiler_appends_succeed() {
    let mut parser = Parser::new("a?");
    let ast = parser.parse().unwrap();
    let mut compiler = Compiler::new();
    compiler.compile(&ast);
    assert_eq!(
        compiler.program,
        vec![Instruction::Split(1, 2), ch('a'), Instruction::Succeed]
    );
}

#[test]
fn match_test_on_characters() {
    assert!(Match::Char('x').test('x'));
    assert!(!Match::Char('x').test('y'));
    assert!(Match::Dot.test('y'));
}
