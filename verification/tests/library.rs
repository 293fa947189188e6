use dobf::arena::{Arena, ArenaFactory, Elem};
use dobf::error::{ExprError, ParseError};
use dobf::parser::parse_rpn;
use dobf::reduce::{comb_bitmask, compute_truth_table, solve_sierpinski};
use dobf::strutil::u32_str;

fn build(expr: &str) -> Arena {
    ArenaFactory::new_arena(&mut parse_rpn(expr.to_string()).unwrap()).unwrap()
}

#[test]
fn test_rebuild_is_stable() {
    // the canonical serialization is deterministic across rebuilds
    for expr in ["x+y+z", "(t+a)^123.a^(x+y)^(c+y)", "x-~y+z", "8458.(y&t&z)^(x|y&z)"] {
        let a1 = build(expr);
        let a2 = build(expr);
        assert_eq!(a1.print(), a2.print());
        assert_eq!(a1.graph_str(), a2.graph_str());
    }
}

#[test]
fn test_left_fold_same_form() {
    // an n-ary sum and its binary left-fold serialize identically
    assert_eq!(build("x+y+z").print(), build("(x+y)+z").print());
    assert_eq!(build("w+x+y+z").print(), build("((w+x)+y)+z").print());
    assert_eq!(build("w+x+(a^b)+y+z").print(), build("(((w+x)+(a^b))+y)+z").print());
}

#[test]
fn test_children_point_back() {
    // every child's parent index names the node that lists it
    let a = build("(a+b+c)^(x+y+(z^p))");
    let pre = a.get_preorder(a.root_node, false);
    let mut seen = Vec::new();
    for idx in pre.iter() {
        assert!(!seen.contains(idx));
        seen.push(*idx);
        let ch = a.get_ch(*idx);
        for c in ch.iter() {
            assert!(!matches!(a.get(*c), Elem::Free));
        }
    }
}

#[test]
fn test_bitwise_subtree_carries_no_csts() {
    // a bitwise root heads a subtree with no folded constants
    let a = build("x^y^(t|y^(t|a))");
    assert!(a.is_bitwise(a.root_node));
    for idx in a.get_preorder(a.root_node, false) {
        match a.get(idx) {
            Elem::Node(n) => assert!(!n.has_cst()),
            _ => {}
        }
    }
}

#[test]
fn test_preorder_only_nodes() {
    let a = build("a^(x+y)");
    let all = a.get_preorder(a.root_node, false);
    let nodes = a.get_preorder(a.root_node, true);
    assert!(nodes.len() < all.len());
    for idx in nodes {
        assert!(matches!(a.get(idx), Elem::Node(_)));
    }
}

#[test]
fn test_getters() {
    let a = build("123.a^(x+y)");
    let root = a.root_node;
    assert!(a.get_node(root).is_ok());
    assert_eq!(a.get_ch_len(root), 2);
    assert_eq!(a.get_num_terms(root), 2);
    let ch = a.get_ch(root);
    assert_eq!(ch.len(), 2);
    // the product node holds one real child beside its folded constant
    let dot = ch[1];
    assert_eq!(a.get_ch_len(dot), 1);
    assert_eq!(a.get_num_terms(dot), 2);
}

#[test]
fn test_graph_str_shape() {
    let a = build("123.a^(x+y)");
    let g = a.graph_str();
    assert!(g.starts_with("digraph {\n"));
    assert!(g.ends_with("}"));
    // the folded constant appears as a pseudo-node
    assert!(g.contains("c\" [label=<123>]"));
    assert!(g.contains(" -> "));
}

#[test]
fn test_parse_error_kinds() {
    assert!(matches!(parse_rpn("x?y".to_string()), Err(ParseError::WrongChar(_))));
    assert!(matches!(parse_rpn("(+x".to_string()), Err(ParseError::WrongSeqChar(_))));
    assert!(matches!(parse_rpn("xx".to_string()), Err(ParseError::WrongSeqChar(_))));
    assert!(matches!(parse_rpn("1.x(".to_string()), Err(ParseError::WrongSeqChar(_))));
}

#[test]
fn test_builder_error_kinds() {
    let mut empty = std::collections::VecDeque::new();
    assert!(matches!(ArenaFactory::new_arena(&mut empty), Err(ExprError::RPNEmpty())));
    // a lone constant cannot stand as the root
    let mut rpn = parse_rpn("5".to_string()).unwrap();
    assert!(matches!(ArenaFactory::new_arena(&mut rpn), Err(ExprError::RPNSyntaxError())));
}

#[test]
fn test_complement_group_serialization() {
    // the complement decorates the parenthesized group alone; the sum
    // stays on top
    let a = build("~(x+y)-z");
    assert_eq!(a.print(), "+~(+xy)/-z/");
}

#[test]
fn test_constant_folding_with_signs() {
    // 3 + (-2) folds to the 32-bit wrap-around value
    let a = build("x+3-2");
    let p = a.print();
    assert_eq!(p, "+1x/".to_string());
    // ~0 under a sum
    let b = build("x+~0");
    assert_eq!(b.print(), "+4294967295x/".to_string());
}

#[test]
fn test_u32_rendering() {
    assert_eq!(u32_str(0), "0");
    assert_eq!(u32_str(4294967295), "4294967295");
    assert_eq!(u32_str(1048576), "1048576");
}

#[test]
fn test_truth_table_length_is_power_of_two() {
    // one, two and three distinct variables
    let pn1: Vec<(char, String)> = vec![('x', String::new()), ('x', String::new()), ('^', String::new())];
    let (tt, n) = compute_truth_table(&pn1);
    assert_eq!(n, 1);
    assert_eq!(tt.len(), 2);

    let pn2: Vec<(char, String)> = vec![('y', String::new()), ('x', String::new()), ('&', String::new())];
    let (tt, n) = compute_truth_table(&pn2);
    assert_eq!(n, 2);
    assert_eq!(tt.len(), 4);
    assert_eq!(tt, vec![0, 0, 0, 1]);

    let pn3: Vec<(char, String)> = vec![('z', String::new()), ('y', String::new()), ('x', String::new()), ('|', String::new())];
    let (tt, n) = compute_truth_table(&pn3);
    assert_eq!(n, 3);
    assert_eq!(tt.len(), 8);
}

#[test]
fn test_comb_bitmask_order() {
    // sub-masks come grouped by size, positions ascending within a group
    assert_eq!(comb_bitmask(3, 5), vec![0, 1, 4, 5]);
    assert_eq!(comb_bitmask(2, 3), vec![0, 1, 2, 3]);
}

#[test]
fn test_solver_roundtrip_simple() {
    // the table of a single variable x (bit zero) over two variables
    let s = solve_sierpinski(vec![0, 1, 0, 1], 2);
    assert_eq!(s.len(), 5);
    // and of the conjunction x & y
    let s2 = solve_sierpinski(vec![0, 0, 0, 1], 2);
    assert_eq!(s2, vec![-1, 0, 0, 0, 1]);
}
