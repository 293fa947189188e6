use vstd::prelude::*;

verus! {

/// Errors reported by the infix-to-RPN parser. Each variant carries its
/// human-readable message.
#[derive(Debug, PartialEq)]
pub enum ParseError {
    MissClosePar(String),
    MissOpenPar(String),
    WrongSeqChar(String),
    WrongChar(String),
    /// Reserved for a trailing sign that decorates no term; the scanner
    /// surfaces such input as a wrong character sequence instead, so no
    /// path reports this variant.
    DanglingNegSign(),
    NotOp(),
}

/// Ghost-level shape of a `ParseError`: the variant together with the data
/// that determines its message. Contracts speak of this form.
pub enum ParseErrKind {
    MissClosePar,
    MissOpenPar,
    WrongSeqChar(char, char),
    WrongChar,
    DanglingNegSign,
    NotOp,
}

/// The message text that a given error kind carries.
pub open spec fn parse_err_msg(k: ParseErrKind) -> Seq<char> {
    match k {
        ParseErrKind::MissClosePar => "Missing )"@,
        ParseErrKind::MissOpenPar => "Missing ("@,
        ParseErrKind::WrongSeqChar(c1, c2) => "wrong seq of char: "@ + seq![c1] + "/"@ + seq![c2],
        ParseErrKind::WrongChar => "Wrong char"@,
        ParseErrKind::DanglingNegSign => Seq::<char>::empty(),
        ParseErrKind::NotOp => Seq::<char>::empty(),
    }
}

/// A `ParseError` value carries exactly the variant and message of a kind.
pub open spec fn parse_err_matches(e: ParseError, k: ParseErrKind) -> bool {
    match e {
        ParseError::MissClosePar(s) => k is MissClosePar && s@ == parse_err_msg(k),
        ParseError::MissOpenPar(s) => k is MissOpenPar && s@ == parse_err_msg(k),
        ParseError::WrongSeqChar(s) => k is WrongSeqChar && s@ == parse_err_msg(k),
        ParseError::WrongChar(s) => k is WrongChar && s@ == parse_err_msg(k),
        ParseError::DanglingNegSign() => k is DanglingNegSign,
        ParseError::NotOp() => k is NotOp,
    }
}

/// Errors of the boolean-signed DAG builder.
#[derive(Debug, PartialEq)]
pub enum DAGError {
    RPNEmpty(),
    RPNSyntaxError(),
    SingleTerm(),
    VarError(),
}

/// Errors of the string-signed arena builder.
#[derive(Debug, PartialEq)]
pub enum ExprError {
    RPNEmpty(),
    RPNSyntaxError(),
    SingleTerm(),
    VarError(),
}

/// Invariant violations inside the arena; callers treat these as bugs.
#[derive(Debug, PartialEq)]
pub enum ArenaError {
    NotANode(),
    ParentIsLeaf(),
    ElemIsLeaf(),
    ElemIsNode(),
}

} // verus!
