use dobf::error::ParseError;
use dobf::parser::parse_rpn;

#[test]
fn test_missing_par_simple() -> Result<(), ParseError> {
    let miss_cl = "(".to_string();
    let res = parse_rpn(miss_cl).unwrap_err();
    let expected = ParseError::MissClosePar("Missing )".to_string());
    assert_eq!(res, expected);

    let miss_cl = ")".to_string();
    let res = parse_rpn(miss_cl).unwrap_err();
    let expected = ParseError::MissOpenPar("Missing (".to_string());
    assert_eq!(res, expected);

    let miss_cl = "())".to_string();
    let res = parse_rpn(miss_cl).unwrap_err();
    let expected = ParseError::MissOpenPar("Missing (".to_string());
    assert_eq!(res, expected);

    let miss_cl = "(()".to_string();
    let res = parse_rpn(miss_cl).unwrap_err();
    let expected = ParseError::MissClosePar("Missing )".to_string());
    assert_eq!(res, expected);

    let miss_cl = "((x+y)".to_string();
    let res = parse_rpn(miss_cl).unwrap_err();
    let expected = ParseError::MissClosePar("Missing )".to_string());
    assert_eq!(res, expected);

    let miss_cl = "((x+(y^z)) + t".to_string();
    let res = parse_rpn(miss_cl).unwrap_err();
    let expected = ParseError::MissClosePar("Missing )".to_string());
    assert_eq!(res, expected);

    Ok(())
}

#[test]
fn test_succ_op() -> Result<(), ParseError> {
    let miss_cl = "+ ^".to_string();
    let res = parse_rpn(miss_cl).unwrap_err();
    let expected = ParseError::WrongSeqChar("wrong seq of char: +/^".to_string());
    assert_eq!(res, expected);

    let miss_cl = "(x+y) ^ z +((x - h)^z) -+ a".to_string();
    let res = parse_rpn(miss_cl).unwrap_err();
    let expected = ParseError::WrongSeqChar("wrong seq of char: -/+".to_string());
    assert_eq!(res, expected);

    Ok(())
}

#[test]
fn test_neg_sign_before_op() -> Result<(), ParseError> {
    let miss_cl = "~+".to_string();
    let res = parse_rpn(miss_cl).unwrap_err();
    let expected = ParseError::WrongSeqChar("wrong seq of char: ~/+".to_string());
    assert_eq!(res, expected);

    let miss_cl = "x + y - ~~|y".to_string();
    let res = parse_rpn(miss_cl).unwrap_err();
    let expected = ParseError::WrongSeqChar("wrong seq of char: ~/|".to_string());
    assert_eq!(res, expected);
    Ok(())
}

#[test]
fn parser_test_ok_neg() -> Result<(), ParseError> {
    Ok(())
}

#[test]
fn test_left_fold_same_rpn() -> Result<(), ParseError> {
    // an n-ary sum and its binary left-fold reach the builder as the
    // same RPN stream
    assert_eq!(
        parse_rpn("x+y+z".to_string()).unwrap(),
        parse_rpn("(x+y)+z".to_string()).unwrap()
    );
    assert_eq!(
        parse_rpn("w+x+y+z".to_string()).unwrap(),
        parse_rpn("((w+x)+y)+z".to_string()).unwrap()
    );
    Ok(())
}

#[test]
fn test_complement_flushed_after_group() -> Result<(), ParseError> {
    // a unary complement sitting on the stack right above the matched
    // parenthesis decorates the closed group alone
    let line = "~(x+y)-z".to_string();
    let res = parse_rpn(line).unwrap();
    let expected = vec!["x", "y", "+", "~", "z", "-", "+"];
    assert_eq!(res, expected);
    Ok(())
}

#[test]
fn test_ok() -> Result<(), ParseError> {
    let miss_cl = "y+((((x+y)^z)))".to_string();
    let res = parse_rpn(miss_cl).unwrap();
    let expected = vec!["y", "x", "y", "+", "z", "^", "+"];
    assert_eq!(res, expected);

    let miss_cl = "x+y-(x^y)".to_string();
    let res = parse_rpn(miss_cl).unwrap();
    let expected = vec!["x", "y", "x", "y", "^", "-", "+", "+"];
    assert_eq!(res, expected);

    let miss_cl = "x + y -(x^y)&((x -y)^y)".to_string();
    let res = parse_rpn(miss_cl).unwrap();
    let expected = vec![
        "x", "y", "x", "y", "^", "x", "y", "-", "+", "y", "^", "&", "-", "+", "+",
    ];
    assert_eq!(res, expected);

    let miss_cl = "x + (y) -(x^y+(~y))".to_string();
    let res = parse_rpn(miss_cl).unwrap();
    let expected = vec!["x", "y", "x", "y", "^", "y", "~", "+", "-", "+", "+"];
    assert_eq!(res, expected);

    let miss_cl = "8458.(y&t&z) ^( x|y&z)&((x&y )& y|t) + x+ 9.(x|y)&y|z".to_string();
    let res = parse_rpn(miss_cl).unwrap();
    let expected = vec![
        "8458", "y", "t", "&", "z", "&", ".", "x", "y", "|", "z", "&", "x", "y", "&", "y", "&",
        "t", "|", "&", "^", "x", "+", "9", "x", "y", "|", ".", "y", "&", "z", "|", "+",
    ];
    assert_eq!(res, expected);

    Ok(())
}
