use vstd::prelude::*;

use crate::error::{parse_err_matches, ParseErrKind, ParseError};
use crate::strutil::{char_str, push_char};
use std::collections::VecDeque;
use vstd::string::StringExecFns;

verus! {

// ---------------------------------------------------------------------------
// Character classes of the input alphabet
// ---------------------------------------------------------------------------
/// A decimal digit.
pub open spec fn is_digit_c(c: char) -> bool {
    48 <= c as u32 <= 57
}

/// A lower-case letter, the only form a variable takes.
pub open spec fn is_lower_c(c: char) -> bool {
    97 <= c as u32 <= 122
}

/// A letter or digit.
pub open spec fn is_alnum_c(c: char) -> bool {
    is_digit_c(c) || is_lower_c(c)
}

/// One of the five binary operator symbols.
pub open spec fn is_binop_c(c: char) -> bool {
    c == '+' || c == '.' || c == '^' || c == '&' || c == '|'
}

/// Operator precedence; higher binds tighter.
pub open spec fn prec_of(c: char) -> int {
    if c == '+' || c == '-' {
        2
    } else if c == '^' {
        3
    } else if c == '&' || c == '|' {
        4
    } else if c == '.' {
        5
    } else if c == '~' {
        6
    } else {
        0
    }
}

fn exec_is_digit(c: char) -> (b: bool)
    ensures
        b == is_digit_c(c),
{
    let u = c as u32;
    48 <= u && u <= 57
}

fn exec_is_lower(c: char) -> (b: bool)
    ensures
        b == is_lower_c(c),
{
    let u = c as u32;
    97 <= u && u <= 122
}

fn exec_is_binop(c: char) -> (b: bool)
    ensures
        b == is_binop_c(c),
{
    c == '+' || c == '.' || c == '^' || c == '&' || c == '|'
}

// ---------------------------------------------------------------------------
// The shunting-yard pass, as a step function over two-character windows
// ---------------------------------------------------------------------------
/// State of the shunting-yard pass: the RPN written so far, the operator
/// stack (single characters), and the digits of the integer being read.
#[verifier::ext_equal]
pub struct PState {
    pub rpn: Seq<Seq<char>>,
    pub ops: Seq<char>,
    pub cur: Seq<char>,
}

/// The characters that can sit on the operator stack.
pub open spec fn ops_ok(ops: Seq<char>) -> bool {
    forall|k: int|
        0 <= k < ops.len() ==> (is_binop_c(#[trigger] ops[k]) || ops[k] == '-' || ops[k] == '~'
            || ops[k] == '(')
}

/// Pops operators to the output until the matching `(`, which is discarded.
pub open spec fn close_paren(rpn: Seq<Seq<char>>, ops: Seq<char>) -> Result<
    (Seq<Seq<char>>, Seq<char>),
    ParseErrKind,
>
    decreases ops.len(),
{
    if ops.len() == 0 {
        Err(ParseErrKind::MissOpenPar)
    } else if ops.last() == '(' {
        Ok((rpn, ops.drop_last()))
    } else {
        close_paren(rpn.push(seq![ops.last()]), ops.drop_last())
    }
}

/// Pops operators of precedence at least `wp` to the output, stopping at a
/// `(` or at the bottom of the stack.
pub open spec fn pop_ge(rpn: Seq<Seq<char>>, ops: Seq<char>, wp: int) -> (Seq<Seq<char>>, Seq<
    char,
>)
    decreases ops.len(),
{
    if ops.len() == 0 {
        (rpn, ops)
    } else if ops.last() == '(' {
        (rpn, ops)
    } else if prec_of(ops.last()) >= wp {
        pop_ge(rpn.push(seq![ops.last()]), ops.drop_last(), wp)
    } else {
        (rpn, ops)
    }
}

/// One step of the shunting-yard pass on the window `(w0, w1)`.
pub open spec fn p1_step(st: PState, w0: char, w1: char) -> Result<PState, ParseErrKind> {
    if w0 == '(' {
        if is_binop_c(w1) {
            Err(ParseErrKind::WrongSeqChar(w0, w1))
        } else {
            Ok(PState { ops: st.ops.push('('), ..st })
        }
    } else if w0 == ')' {
        match close_paren(st.rpn, st.ops) {
            Ok(ro) => {
                // a unary complement left on top of the stack right after the
                // matched `(` decorates the closed group and is flushed now
                if ro.1.len() > 0 && ro.1.last() == '~' {
                    Ok(PState { rpn: ro.0.push(seq!['~']), ops: ro.1.drop_last(), ..st })
                } else {
                    Ok(PState { rpn: ro.0, ops: ro.1, ..st })
                }
            },
            Err(k) => Err(k),
        }
    } else if w0 == '-' || w0 == '~' {
        if !(is_alnum_c(w1) || w1 == '(' || w1 == ')' || w1 == '-' || w1 == '~') {
            Err(ParseErrKind::WrongSeqChar(w0, w1))
        } else {
            Ok(PState { ops: st.ops.push(w0), ..st })
        }
    } else if is_binop_c(w0) {
        if is_binop_c(w1) {
            Err(ParseErrKind::WrongSeqChar(w0, w1))
        } else {
            let ro = pop_ge(st.rpn, st.ops, prec_of(w0));
            Ok(PState { rpn: ro.0, ops: ro.1.push(w0), ..st })
        }
    } else if is_digit_c(w0) {
        let cur2 = st.cur.push(w0);
        if !is_digit_c(w1) {
            Ok(PState { rpn: st.rpn.push(cur2), cur: Seq::empty(), ..st })
        } else {
            Ok(PState { cur: cur2, ..st })
        }
    } else if is_lower_c(w0) {
        if is_lower_c(w1) || w1 == '(' {
            Err(ParseErrKind::WrongSeqChar(w0, w1))
        } else {
            Ok(PState { rpn: st.rpn.push(seq![w0]), ..st })
        }
    } else if w0 == ' ' {
        Ok(st)
    } else {
        Err(ParseErrKind::WrongChar)
    }
}

/// Runs the shunting-yard pass over all windows of `s` from position `i` on.
pub open spec fn p1_run(st: PState, s: Seq<char>, i: int) -> Result<PState, ParseErrKind>
    decreases s.len() - i,
{
    if i < 0 || i + 1 >= s.len() {
        Ok(st)
    } else {
        match p1_step(st, s[i], s[i + 1]) {
            Ok(st2) => p1_run(st2, s, i + 1),
            Err(k) => Err(k),
        }
    }
}

/// Drains the operator stack after all input is consumed; a residual `(`
/// is a parenthesis mismatch.
pub open spec fn drain_ops(rpn: Seq<Seq<char>>, ops: Seq<char>) -> Result<
    Seq<Seq<char>>,
    ParseErrKind,
>
    decreases ops.len(),
{
    if ops.len() == 0 {
        Ok(rpn)
    } else if ops.last() == '(' {
        Err(ParseErrKind::MissClosePar)
    } else {
        drain_ops(rpn.push(seq![ops.last()]), ops.drop_last())
    }
}

// ---------------------------------------------------------------------------
// The second pass: rewrite each binary `-` into the pair `-`, `+`
// ---------------------------------------------------------------------------
/// What one token contributes to the rewritten stream.
pub open spec fn tok_expand(t: Seq<char>) -> Seq<Seq<char>> {
    if t == seq!['-'] {
        seq![t, seq!['+']]
    } else {
        seq![t]
    }
}

/// The rewritten stream of the first `i` tokens.
pub open spec fn p2_run(toks: Seq<Seq<char>>, i: int) -> Seq<Seq<char>>
    decreases i,
{
    if i <= 0 {
        Seq::empty()
    } else {
        p2_run(toks, i - 1) + tok_expand(toks[i - 1])
    }
}

// ---------------------------------------------------------------------------
// Whitespace stripping and padding
// ---------------------------------------------------------------------------
/// The first `i` characters of `s` with spaces removed.
pub open spec fn strip_to(s: Seq<char>, i: int) -> Seq<char>
    decreases i,
{
    if i <= 0 {
        Seq::empty()
    } else {
        strip_to(s, i - 1) + (if s[i - 1] == ' ' {
            Seq::<char>::empty()
        } else {
            seq![s[i - 1]]
        })
    }
}

/// The input with spaces removed and one space added at either end.
pub open spec fn spec_padded(s: Seq<char>) -> Seq<char> {
    seq![' '] + strip_to(s, s.len() as int) + seq![' ']
}

/// The state every run starts from.
pub open spec fn p_init() -> PState {
    PState { rpn: Seq::empty(), ops: Seq::empty(), cur: Seq::empty() }
}

/// The RPN token stream that the parser produces for a line, or the error
/// it reports.
pub open spec fn spec_parse_rpn(line: Seq<char>) -> Result<Seq<Seq<char>>, ParseErrKind> {
    let p = spec_padded(line);
    match p1_run(p_init(), p, 0) {
        Err(k) => Err(k),
        Ok(st) => match drain_ops(st.rpn, st.ops) {
            Err(k) => Err(k),
            Ok(rpn) => Ok(p2_run(rpn, rpn.len() as int)),
        },
    }
}

// ---------------------------------------------------------------------------
// Executable code
// ---------------------------------------------------------------------------
#[derive(Debug, PartialEq)]
enum Assoc {
    Right,
    Left,
    Both,
}

/// Precedence and associativity of an operator symbol; anything else is
/// rejected as not an operator.
fn preced_assoc(op: char) -> (r: Result<(i8, Assoc), ParseError>)
    ensures
        (op == '+' || op == '-' || op == '~' || op == '^' || op == '&' || op == '|' || op == '.')
            ==> (r matches Ok(pa) && pa.0 as int == prec_of(op) && pa.1 is Both),
        !(op == '+' || op == '-' || op == '~' || op == '^' || op == '&' || op == '|' || op == '.')
            ==> (r matches Err(e) && e is NotOp),
{
    match op {
        '+' => Ok((2, Assoc::Both)),
        '-' => Ok((2, Assoc::Both)),
        '~' => Ok((6, Assoc::Both)),
        '^' => Ok((3, Assoc::Both)),
        '&' => Ok((4, Assoc::Both)),
        '|' => Ok((4, Assoc::Both)),
        '.' => Ok((5, Assoc::Both)),
        _ => Err(ParseError::NotOp()),
    }
}

fn to_padded_chars(line: &String) -> (v: Vec<char>)
    ensures
        v@ == spec_padded(line@),
{
    let s = line.as_str();
    let n = s.unicode_len();
    let mut v: Vec<char> = Vec::new();
    v.push(' ');
    let mut i: usize = 0;
    while i < n
        invariant
            i <= n,
            n == line@.len(),
            s@ == line@,
            v@ == seq![' '] + strip_to(line@, i as int),
        decreases n - i,
    {
        let c = s.get_char(i);
        if c != ' ' {
            v.push(c);
        }
        proof {
            assert(v@ =~= seq![' '] + strip_to(line@, i + 1));
        }
        i = i + 1;
    }
    v.push(' ');
    proof {
        assert(v@ =~= spec_padded(line@));
    }
    v
}

fn wrong_seq_err(w0: char, w1: char) -> (e: ParseError)
    ensures
        parse_err_matches(e, ParseErrKind::WrongSeqChar(w0, w1)),
{
    let mut msg = String::from_str("wrong seq of char: ");
    push_char(&mut msg, w0);
    msg.append("/");
    push_char(&mut msg, w1);
    proof {
        assert(msg@ =~= "wrong seq of char: "@ + seq![w0] + "/"@ + seq![w1]);
    }
    ParseError::WrongSeqChar(msg)
}

/// Shunting-yard conversion of an infix line to RPN, with the rewrite of
/// every binary `-` into the pair `-`, `+`. Whitespace is insignificant.
#[verifier::loop_isolation(false)]
pub fn parse_rpn(line: String) -> (r: Result<VecDeque<String>, ParseError>)
    ensures
        (match spec_parse_rpn(line@) {
            Ok(toks) => r matches Ok(v) && v.deep_view() == toks,
            Err(k) => r matches Err(e) && parse_err_matches(e, k),
        }),
{
    let padded = to_padded_chars(&line);
    let ghost p = padded@;

    let mut rpn: VecDeque<String> = VecDeque::new();
    let mut ops: Vec<char> = Vec::new();
    let mut cur: String = String::new();
    proof {
        assert((PState { rpn: rpn.deep_view(), ops: ops@, cur: cur@ }) =~= p_init());
    }

    let mut i: usize = 0;
    while i + 1 < padded.len()
        invariant
            i + 1 <= p.len(),
            ops_ok(ops@),
            p1_run((PState { rpn: rpn.deep_view(), ops: ops@, cur: cur@ }), p, i as int) == p1_run(
                p_init(),
                p,
                0,
            ),
        decreases p.len() - i,
    {
        let ghost st_in = (PState { rpn: rpn.deep_view(), ops: ops@, cur: cur@ });
        let w0 = padded[i];
        let w1 = padded[i + 1];

        if w0 == '(' {
            if exec_is_binop(w1) {
                return Err(wrong_seq_err(w0, w1));
            }
            ops.push('(');
        } else if w0 == ')' {
            // pop operators to the output until the matching `(`
            let mut matched = false;
            while !matched
                invariant
                    cur@ == st_in.cur,
                    ops_ok(ops@),
                    !matched ==> close_paren(rpn.deep_view(), ops@) == close_paren(
                        st_in.rpn,
                        st_in.ops,
                    ),
                    matched ==> close_paren(st_in.rpn, st_in.ops) == Ok::<_, ParseErrKind>(
                        (rpn.deep_view(), ops@),
                    ),
                decreases ops@.len() + (if matched {
                    0int
                } else {
                    1int
                }),
            {
                if ops.len() == 0 {
                    return Err(ParseError::MissOpenPar(String::from_str("Missing (")));
                }
                let op = ops.pop().unwrap();
                if op == '(' {
                    matched = true;
                } else {
                    let ghost pre = rpn.deep_view();
                    rpn.push_back(char_str(op));
                    proof {
                        assert(rpn.deep_view() =~= pre.push(seq![op]));
                    }
                }
            }
            // flush a unary complement sitting right above the matched `(`
            if ops.len() > 0 && ops[ops.len() - 1] == '~' {
                ops.pop();
                let ghost pre = rpn.deep_view();
                rpn.push_back(char_str('~'));
                proof {
                    assert(rpn.deep_view() =~= pre.push(seq!['~']));
                }
            }
        } else if w0 == '-' || w0 == '~' {
            let okc = exec_is_digit(w1) || exec_is_lower(w1) || w1 == '(' || w1 == ')' || w1 == '-'
                || w1 == '~';
            if !okc {
                return Err(wrong_seq_err(w0, w1));
            }
            ops.push(w0);
        } else if exec_is_binop(w0) {
            if exec_is_binop(w1) {
                return Err(wrong_seq_err(w0, w1));
            }
            let wpa = match preced_assoc(w0) {
                Ok(pa) => pa,
                Err(_) => {
                    return Err(ParseError::NotOp());
                },
            };
            let w_prec = wpa.0;
            let mut stop = false;
            while !stop
                invariant
                    cur@ == st_in.cur,
                    ops_ok(ops@),
                    w_prec as int == prec_of(w0),
                    !stop ==> pop_ge(rpn.deep_view(), ops@, prec_of(w0)) == pop_ge(
                        st_in.rpn,
                        st_in.ops,
                        prec_of(w0),
                    ),
                    stop ==> pop_ge(st_in.rpn, st_in.ops, prec_of(w0)) == (rpn.deep_view(), ops@),
                decreases ops@.len() + (if stop {
                    0int
                } else {
                    1int
                }),
            {
                if ops.len() == 0 {
                    stop = true;
                } else {
                    let op = ops[ops.len() - 1];
                    if op == '(' {
                        stop = true;
                    } else {
                        let opa = match preced_assoc(op) {
                            Ok(pa) => pa,
                            Err(_) => {
                                proof {
                                    assert(false);
                                }
                                return Err(ParseError::NotOp());
                            },
                        };
                        let op_prec = opa.0;
                        let w_assoc_right = matches!(wpa.1, Assoc::Right);
                        if op_prec > w_prec || (op_prec == w_prec && !w_assoc_right) {
                            ops.pop();
                            let ghost pre = rpn.deep_view();
                            rpn.push_back(char_str(op));
                            proof {
                                assert(rpn.deep_view() =~= pre.push(seq![op]));
                            }
                        } else {
                            stop = true;
                        }
                    }
                }
            }
            ops.push(w0);
        } else if exec_is_digit(w0) {
            push_char(&mut cur, w0);
            if !exec_is_digit(w1) {
                let done = cur;
                cur = String::new();
                let ghost pre = rpn.deep_view();
                rpn.push_back(done);
                proof {
                    assert(rpn.deep_view() =~= pre.push(st_in.cur.push(w0)));
                }
            }
        } else if exec_is_lower(w0) {
            if exec_is_lower(w1) || w1 == '(' {
                return Err(wrong_seq_err(w0, w1));
            }
            let ghost pre = rpn.deep_view();
            rpn.push_back(char_str(w0));
            proof {
                assert(rpn.deep_view() =~= pre.push(seq![w0]));
            }
        } else if w0 == ' ' {
        } else {
            return Err(ParseError::WrongChar(String::from_str("Wrong char")));
        }
        proof {
            let st_out = (PState { rpn: rpn.deep_view(), ops: ops@, cur: cur@ });
            assert(p1_step(st_in, w0, w1) is Ok);
            assert(st_out =~= p1_step(st_in, w0, w1)->Ok_0);
        }
        i = i + 1;
    }

    // the whole pass succeeded; drain the operator stack
    let ghost st1 = (PState { rpn: rpn.deep_view(), ops: ops@, cur: cur@ });
    proof {
        assert(p1_run(st1, p, i as int) == Ok::<PState, ParseErrKind>(st1));
    }
    while ops.len() > 0
        invariant
            drain_ops(rpn.deep_view(), ops@) == drain_ops(st1.rpn, st1.ops),
        decreases ops@.len(),
    {
        let op = ops.pop().unwrap();
        if op == '(' {
            return Err(ParseError::MissClosePar(String::from_str("Missing )")));
        }
        let ghost pre = rpn.deep_view();
        rpn.push_back(char_str(op));
        proof {
            assert(rpn.deep_view() =~= pre.push(seq![op]));
        }
    }
    let ghost base = rpn.deep_view();
    proof {
        assert(drain_ops(st1.rpn, st1.ops) == Ok::<Seq<Seq<char>>, ParseErrKind>(base));
    }

    // second pass: a binary `-` becomes the pair `-`, `+`
    let mut aux: VecDeque<String> = VecDeque::new();
    proof {
        assert(base.subrange(0, base.len() as int) =~= base);
        assert(aux.deep_view() =~= p2_run(base, 0));
    }
    while rpn.len() > 0
        invariant
            rpn@.len() <= base.len(),
            rpn.deep_view() == base.subrange(base.len() - rpn@.len(), base.len() as int),
            aux.deep_view() == p2_run(base, base.len() - rpn@.len()),
        decreases rpn@.len(),
    {
        let ghost j = base.len() - rpn@.len();
        let ghost prev = rpn@;
        let ghost prev_dv = rpn.deep_view();
        let e = rpn.pop_front().unwrap();
        proof {
            assert(prev_dv[0] == prev[0].deep_view());
            assert(e@ == base[j]);
            assert(rpn.deep_view() =~= prev_dv.subrange(1, prev_dv.len() as int));
            assert(prev_dv.subrange(1, prev_dv.len() as int) =~= base.subrange(
                j + 1,
                base.len() as int,
            ));
            assert(rpn.deep_view() =~= base.subrange(base.len() - rpn@.len(), base.len() as int));
        }
        let is_dash = e.as_str().unicode_len() == 1 && e.as_str().get_char(0) == '-';
        proof {
            if is_dash {
                assert(e@ =~= seq!['-']);
            }
        }
        let ghost pre = aux.deep_view();
        aux.push_back(e);
        if is_dash {
            let ghost pre2 = aux.deep_view();
            proof {
                assert(pre2 =~= pre.push(base[j]));
            }
            aux.push_back(char_str('+'));
            proof {
                assert(aux.deep_view() =~= pre2.push(seq!['+']));
                assert(aux.deep_view() =~= p2_run(base, j + 1));
            }
        } else {
            proof {
                assert(aux.deep_view() =~= pre.push(base[j]));
                assert(aux.deep_view() =~= p2_run(base, j + 1));
            }
        }
    }
    proof {
        assert(aux.deep_view() == p2_run(base, base.len() as int));
    }
    Ok(aux)
}

} // verus!
