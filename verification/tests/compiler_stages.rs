//! Patterns through the parser and lowering.

use globstar::ast::{ClassItem, Node};
use globstar::engine::ops::{lower, lower_owned, Op};
use globstar::parser::parse;

/// Pattern, syntax tree and program.
const CASES: &[(&str, &str, &str)] = &[
    ("foo", "L(foo)", "L(foo)"),
    ("a/b", "C(L(a),S,L(b))", "L(a),S,L(b)"),
    ("*.ts", "C(T,L(.ts))", "T,L(.ts)"),
    ("a?b", "C(L(a),Q,L(b))", "L(a),Q,L(b)"),
    ("**", "G", "Y"),
    ("**/b", "C(G,S,L(b))", "H,O,L(b)"),
    ("a/**", "C(L(a),S,G)", "L(a),A"),
    ("a/**/b", "C(L(a),S,G,S,L(b))", "L(a),R,O,L(b)"),
    ("a/**/**/b", "C(L(a),S,G,S,L(b))", "L(a),R,O,L(b)"),
    ("**/", "C(G,S)", "H,O"),
    ("a**b", "C(L(a),T,T,L(b))", "L(a),T,L(b)"),
    ("[a-z]x", "C(K(a-z),L(x))", "K,L(x)"),
    ("[!ab]", "N(a,b)", "K"),
    ("{a,b}", "B(L(a)|L(b))", "B([L(a)]|[L(b)])"),
    ("*.{ts,tsx}", "C(T,L(.),B(L(ts)|L(tsx)))", "T,L(.),B([L(ts)]|[L(tsx)])"),
    ("{**,x}/b", "C(B(G|L(x)),S,L(b))", "B([H,O]|[L(x),S]),L(b)"),
    ("a/{**/x,y}", "C(L(a),S,B(C(G,S,L(x))|L(y)))", "L(a),B([R,O,L(x)]|[S,L(y)])"),
    ("a/{**,x}/b", "C(L(a),S,B(G|L(x)),S,L(b))", "L(a),B([R,O]|[S,L(x),S]),L(b)"),
    ("{a}", "C(L({),L(a),L(}))", "L({a})"),
    ("{a,}", "B(L(a)|C())", "B([L(a)]|[])"),
    ("\\*a", "L(*a)", "L(*a)"),
    ("a\\/b*", "C(L(a/b),T)", "L(a/b),T"),
];

fn bytes(out: &mut String, value: &[u8]) {
    for &b in value {
        match b {
            b'\\' => out.push_str("\\\\"),
            b'(' | b')' | b',' | b'|' | b'[' | b']' => {
                out.push_str(&format!("\\x{b:02x}"));
            }
            0x20..=0x7e => out.push(b as char),
            _ => {
                out.push_str(&format!("\\x{b:02x}"));
            }
        }
    }
}

fn ast_dump(node: &Node, out: &mut String) {
    match node {
        Node::Concat(children) => {
            out.push_str("C(");
            for (i, child) in children.iter().enumerate() {
                if i != 0 {
                    out.push(',');
                }
                ast_dump(child, out);
            }
            out.push(')');
        }
        Node::Literal(value) => {
            out.push_str("L(");
            bytes(out, value);
            out.push(')');
        }
        Node::Separator => out.push('S'),
        Node::AnyChar => out.push('Q'),
        Node::Star => out.push('T'),
        Node::Globstar => out.push('G'),
        Node::Class(class) => {
            out.push_str(if class.negated { "N(" } else { "K(" });
            for (i, item) in class.items.iter().enumerate() {
                if i != 0 {
                    out.push(',');
                }
                match item {
                    ClassItem::Byte(b) => bytes(out, &[*b]),
                    ClassItem::Range(lo, hi) => {
                        bytes(out, &[*lo]);
                        out.push('-');
                        bytes(out, &[*hi]);
                    }
                }
            }
            out.push(')');
        }
        Node::Brace(branches) => {
            out.push_str("B(");
            for (i, branch) in branches.iter().enumerate() {
                if i != 0 {
                    out.push('|');
                }
                ast_dump(branch, out);
            }
            out.push(')');
        }
    }
}

fn ops_dump(ops: &[Op], out: &mut String) {
    for (i, op) in ops.iter().enumerate() {
        if i != 0 {
            out.push(',');
        }
        match op {
            Op::Lit(value) => {
                out.push_str("L(");
                bytes(out, value);
                out.push(')');
            }
            Op::AnyChar => out.push('Q'),
            Op::Star => out.push('T'),
            Op::Class(_) => out.push('K'),
            Op::Sep => out.push('S'),
            Op::SepRun => out.push('R'),
            Op::Globstar => out.push('G'),
            Op::OptSegmentsSlash => out.push('O'),
            Op::SlashAnything => out.push('A'),
            Op::GlobstarAny => out.push('Y'),
            Op::LeadingSeps => out.push('H'),
            Op::Alternation(branches) => {
                out.push_str("B(");
                for (j, branch) in branches.iter().enumerate() {
                    if j != 0 {
                        out.push('|');
                    }
                    out.push('[');
                    ops_dump(branch, out);
                    out.push(']');
                }
                out.push(')');
            }
        }
    }
}

#[test]
fn parser_and_lowering_match_shared_golden_cases() {
    for &(pattern, expected_ast, expected_ops) in CASES {
        let parsed = parse(pattern.as_bytes()).expect("fixture pattern parses");
        let mut actual_ast = String::new();
        ast_dump(&parsed.body, &mut actual_ast);
        assert_eq!(actual_ast, expected_ast, "AST for {pattern:?}");

        let program = lower(&parsed.body, false);
        let mut actual_ops = String::new();
        ops_dump(program.ops(), &mut actual_ops);
        assert_eq!(actual_ops, expected_ops, "ops for {pattern:?}");

        let owned = lower_owned(parsed.body, false);
        let mut owned_ops = String::new();
        ops_dump(owned.ops(), &mut owned_ops);
        assert_eq!(owned_ops, expected_ops, "owned ops for {pattern:?}");
    }
}
