use zrsh::{do_matching, parse, ParseError, AST};

#[test]
fn parser_test() {
    // Char
    assert_eq!(parse("a").unwrap(), AST::Concat(vec![AST::Char('a')]));
    // Plus
    assert_eq!(parse("a+").unwrap(), AST::Concat(vec![AST::Plus(Box::new(AST::Char('a')))]));
    assert_eq!(
        parse("aa+").unwrap(),
        AST::Concat(vec![AST::Char('a'), AST::Plus(Box::new(AST::Char('a')))])
    );
    assert_eq!(
        parse("a+a").unwrap(),
        AST::Concat(vec![AST::Plus(Box::new(AST::Char('a'))), AST::Char('a')])
    );
    // Star
    assert_eq!(parse("a*").unwrap(), AST::Concat(vec![AST::Star(Box::new(AST::Char('a')))]));
    assert_eq!(
        parse("aa*").unwrap(),
        AST::Concat(vec![AST::Char('a'), AST::Star(Box::new(AST::Char('a')))])
    );
    assert_eq!(
        parse("a*a").unwrap(),
        AST::Concat(vec![AST::Star(Box::new(AST::Char('a'))), AST::Char('a')])
    );
    // Question
    assert_eq!(parse("a?").unwrap(), AST::Concat(vec![AST::Question(Box::new(AST::Char('a')))]));
    assert_eq!(
        parse("aa?").unwrap(),
        AST::Concat(vec![AST::Char('a'), AST::Question(Box::new(AST::Char('a')))])
    );
    assert_eq!(
        parse("a?a").unwrap(),
        AST::Concat(vec![AST::Question(Box::new(AST::Char('a'))), AST::Char('a')])
    );
    // Or
    assert_eq!(
        parse("a|b").unwrap(),
        AST::Or(
            Box::new(AST::Concat(vec![AST::Char('a')])),
            Box::new(AST::Concat(vec![AST::Char('b')]))
        )
    );
    assert_eq!(
        parse("aa|b").unwrap(),
        AST::Or(
            Box::new(AST::Concat(vec![AST::Char('a'), AST::Char('a')])),
            Box::new(AST::Concat(vec![AST::Char('b')]))
        )
    );
    assert_eq!(
        parse("a|bb").unwrap(),
        AST::Or(
            Box::new(AST::Concat(vec![AST::Char('a')])),
            Box::new(AST::Concat(vec![AST::Char('b'), AST::Char('b')]))
        )
    );
    // Seq
    assert_eq!(parse("ab").unwrap(), AST::Concat(vec![AST::Char('a'), AST::Char('b')]));
    // parentheses
    assert_eq!(parse("(a)").unwrap(), AST::Concat(vec![AST::Concat(vec![AST::Char('a')])]));
    assert_eq!(
        parse("(a)b").unwrap(),
        AST::Concat(vec![AST::Concat(vec![AST::Char('a')]), AST::Char('b')])
    );
    assert_eq!(
        parse("a(b)").unwrap(),
        AST::Concat(vec![AST::Char('a'), AST::Concat(vec![AST::Char('b')])])
    );
    assert_eq!(
        parse("(ab)").unwrap(),
        AST::Concat(vec![AST::Concat(vec![AST::Char('a'), AST::Char('b')])])
    );
}

fn _test(is_depth: bool) {
    // char
    assert_eq!(do_matching("a", "a", is_depth).unwrap(), String::from("a"));
    // plus
    assert_eq!(do_matching("a+", "a", is_depth).unwrap(), String::from("a"));
    assert_eq!(do_matching("a+", "aa", is_depth).unwrap(), String::from("aa"));
    // star
    assert_eq!(do_matching("a*", "", is_depth).unwrap(), String::from(""));
    assert_eq!(do_matching("a*", "a", is_depth).unwrap(), String::from("a"));
    assert_eq!(do_matching("a*", "aa", is_depth).unwrap(), String::from("aa"));
    // or
    assert_eq!(do_matching("a|b", "a", is_depth).unwrap(), String::from("a"));
    assert_eq!(do_matching("a|b", "b", is_depth).unwrap(), String::from("b"));
    assert_eq!(do_matching("a|b|c", "c", is_depth).unwrap(), String::from("c"));
}

#[test]
fn main_test() {
    _test(true);
    _test(false);
}

#[test]
fn parse_errors() {
    assert_eq!(parse("\\a"), Err(ParseError::InvalidEscape(1, 'a')));
    assert_eq!(parse("a)"), Err(ParseError::InvalidRightParen(1)));
    assert_eq!(parse("*a"), Err(ParseError::NoPrev(0)));
    assert_eq!(parse("a||b"), Err(ParseError::NoPrev(2)));
    assert_eq!(parse(""), Err(ParseError::Empty));
    assert_eq!(parse("()"), Err(ParseError::Empty));
}

#[test]
fn parse_escapes_and_groups() {
    assert_eq!(parse("\\+").unwrap(), AST::Concat(vec![AST::Char('+')]));
    assert_eq!(
        parse("(a|b)*").unwrap(),
        AST::Concat(vec![AST::Star(Box::new(AST::Or(
            Box::new(AST::Concat(vec![AST::Char('a')])),
            Box::new(AST::Concat(vec![AST::Char('b')]))
        )))])
    );
}

#[test]
fn matching_longest_prefix() {
    assert_eq!(do_matching("ab*", "abbbc", true).unwrap(), "abbb");
    assert_eq!(do_matching("a(b|c)+d", "abcbdx", false).unwrap(), "abcbd");
    assert_eq!(do_matching("x", "abc", true).unwrap(), "");
    assert_eq!(do_matching("a?b", "b", true).unwrap(), "b");
    assert_eq!(do_matching("(a*)*b", "aab", true).unwrap(), "aab");
    assert_eq!(do_matching("a+", "b", true).unwrap(), "");
    assert_eq!(do_matching("a(", "a", true), Err(ParseError::Empty));
    assert_eq!(parse("a(b").unwrap(), AST::Concat(vec![AST::Char('b')]));
    assert_eq!(do_matching("+", "a", true), Err(ParseError::NoPrev(0)));
}
