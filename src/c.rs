use vstd::prelude::*;
use crate::bfir::{AstNode, Node, view_node, view_nodes, lemma_view_nodes, change_view};
use crate::peephole::{sorted_changes, sort_changes};

verus! {

pub open spec fn digit_char(d: int) -> char {
    if d == 0 { '0' } else if d == 1 { '1' } else if d == 2 { '2' } else if d == 3 { '3' }
    else if d == 4 { '4' } else if d == 5 { '5' } else if d == 6 { '6' } else if d == 7 { '7' }
    else if d == 8 { '8' } else { '9' }
}

/// Decimal digits of a natural number, most significant first.
pub open spec fn nat_text(n: nat) -> Seq<char>
    decreases n,
{
    if n < 10 {
        seq![digit_char(n as int)]
    } else {
        nat_text(n / 10).push(digit_char((n % 10) as int))
    }
}

/// Decimal text of an integer, with a leading minus sign when negative.
pub open spec fn int_text(v: int) -> Seq<char> {
    if v < 0 {
        seq!['-'] + nat_text((-v) as nat)
    } else {
        nat_text(v as nat)
    }
}

pub open spec fn changes_text(c: Seq<(int, i8)>) -> Seq<char>
    decreases c.len(),
{
    if c.len() == 0 {
        Seq::empty()
    } else {
        let (target, factor) = c[c.len() - 1];
        changes_text(c.subrange(0, c.len() - 1)) + if factor != 0 {
            "target = ptr + "@ + int_text(target) + ";"@ + "*target += (*ptr) * "@
                + int_text(factor as int) + ";"@
        } else {
            Seq::empty()
        }
    }
}

/// The C statements for one node. Every pointer motion is guarded: the
/// program raises `SIGSEGV` before the pointer would leave the tape, whatever
/// the bounds analyzer could prove. A `MultiplyMove` writes its factors in
/// ascending offset order, whatever order its list holds them in.
pub open spec fn node_text(n: Node) -> Seq<char>
    decreases n,
{
    match n {
        Node::Increment { amount, offset } =>
            "*(ptr + "@ + int_text(offset) + ") += "@ + int_text(amount as int) + ";"@,
        Node::PointerIncrement { amount } =>
            if amount < 0 {
                "if ((ptr + "@ + int_text(amount) + ") < c) { raise(SIGSEGV); };"@
                    + "ptr += "@ + int_text(amount) + ";"@
            } else if amount > 0 {
                "if ((ptr + "@ + int_text(amount) + ") >= (c + NUM_CELLS)) { raise(SIGSEGV); };"@
                    + "ptr += "@ + int_text(amount) + ";"@
            } else {
                Seq::empty()
            },
        Node::Read { offset } =>
            if offset == 0 {
                "scanf(\"%c\", ptr);"@
            } else {
                "scanf(\"%c\", ptr + "@ + int_text(offset) + ");"@
            },
        Node::Write { offset } =>
            if offset == 0 {
                "printf(\"%c\", *ptr);"@
            } else {
                "printf(\"%c\", *(ptr + "@ + int_text(offset) + "));"@
            },
        Node::Loop { body } => "while(*ptr) {"@ + nodes_text(body) + "}"@,
        Node::Assign { amount, offset } =>
            "*(ptr + "@ + int_text(offset) + ") = "@ + int_text(amount as int) + ";"@,
        Node::MultiplyMove { changes } => changes_text(sorted_changes(changes)) + "*ptr = 0;"@,
    }
}

/// The C statements for a sequence of nodes, in order.
pub open spec fn nodes_text(s: Seq<Node>) -> Seq<char>
    decreases s,
{
    if s.len() == 0 {
        Seq::empty()
    } else {
        nodes_text(s.subrange(0, s.len() - 1)) + node_text(s[s.len() - 1])
    }
}

pub open spec fn c_header() -> Seq<char> {
    "#include<stdio.h>\n#include<signal.h>\n#define NUM_CELLS 30000\nint main(){ static char c[NUM_CELLS] = { 0 }, *target, *ptr; ptr=c;"@
}

/// The whole C program for a sequence of nodes.
pub open spec fn c_program(s: Seq<Node>) -> Seq<char> {
    c_header() + nodes_text(s) + "}"@
}

fn push_digit(out: &mut String, d: u64)
    requires
        d < 10,
    ensures
        final(out)@ == old(out)@.push(digit_char(d as int)),
{
    if d == 0 {
        out.append("0");
        proof { reveal_strlit("0"); }
    } else if d == 1 {
        out.append("1");
        proof { reveal_strlit("1"); }
    } else if d == 2 {
        out.append("2");
        proof { reveal_strlit("2"); }
    } else if d == 3 {
        out.append("3");
        proof { reveal_strlit("3"); }
    } else if d == 4 {
        out.append("4");
        proof { reveal_strlit("4"); }
    } else if d == 5 {
        out.append("5");
        proof { reveal_strlit("5"); }
    } else if d == 6 {
        out.append("6");
        proof { reveal_strlit("6"); }
    } else if d == 7 {
        out.append("7");
        proof { reveal_strlit("7"); }
    } else if d == 8 {
        out.append("8");
        proof { reveal_strlit("8"); }
    } else {
        out.append("9");
        proof { reveal_strlit("9"); }
    }
    assert(final(out)@ =~= old(out)@.push(digit_char(d as int)));
}

fn push_nat(out: &mut String, n: u64)
    ensures
        final(out)@ == old(out)@ + nat_text(n as nat),
    decreases n,
{
    if n >= 10 {
        push_nat(out, n / 10);
    }
    push_digit(out, n % 10);
    assert(final(out)@ =~= old(out)@ + nat_text(n as nat));
}

/// Appends the decimal text of `v`.
pub fn push_int(out: &mut String, v: i64)
    ensures
        final(out)@ == old(out)@ + int_text(v as int),
{
    if v < 0 {
        out.append("-");
        proof { reveal_strlit("-"); }
        let m: u64 = (0i128 - v as i128) as u64;
        push_nat(out, m);
    } else {
        push_nat(out, v as u64);
    }
    assert(final(out)@ =~= old(out)@ + int_text(v as int));
}

/// Appends the factors of a `MultiplyMove`, ordered by offset whatever order
/// `changes` holds them in.
fn add_changes_to_c_prog(unordered: &Vec<(i64, i8)>, prog: &mut String)
    ensures
        final(prog)@ == old(prog)@ + changes_text(sorted_changes(unordered@.map_values(|c: (i64, i8)| change_view(c)))),
{
    let changes = sort_changes(unordered);
    let ghost cs = changes@.map_values(|c: (i64, i8)| change_view(c));
    let mut i: usize = 0;
    while i < changes.len()
        invariant
            i <= changes@.len(),
            cs == changes@.map_values(|c: (i64, i8)| change_view(c)),
            prog@ == old(prog)@ + changes_text(cs.subrange(0, i as int)),
        decreases changes@.len() - i,
    {
        let (target, factor) = changes[i];
        assert(cs.subrange(0, i + 1).subrange(0, i as int) =~= cs.subrange(0, i as int));
        if factor != 0 {
            prog.append("target = ptr + ");
            push_int(prog, target);
            prog.append(";");
            prog.append("*target += (*ptr) * ");
            push_int(prog, factor as i64);
            prog.append(";");
        }
        i = i + 1;
        assert(prog@ =~= old(prog)@ + changes_text(cs.subrange(0, i as int)));
    }
    assert(cs.subrange(0, changes@.len() as int) =~= cs);
}

/// Appends the C statements for `instrs` to `prog`.
pub fn add_instrs_to_c_prog(instrs: &[AstNode], prog: &mut String)
    ensures
        final(prog)@ == old(prog)@ + nodes_text(view_nodes(instrs@)),
    decreases instrs@,
{
    let ghost vs = view_nodes(instrs@);
    proof { lemma_view_nodes(instrs@); }
    let mut i: usize = 0;
    while i < instrs.len()
        invariant
            i <= instrs@.len(),
            vs == view_nodes(instrs@),
            vs.len() == instrs@.len(),
            forall|j: int| 0 <= j < instrs@.len() ==> #[trigger] vs[j] == view_node(instrs@[j]),
            prog@ == old(prog)@ + nodes_text(vs.subrange(0, i as int)),
        decreases instrs@.len() - i,
    {
        let instr = &instrs[i];
        let ghost before = prog@;
        assert(vs.subrange(0, i + 1).subrange(0, i as int) =~= vs.subrange(0, i as int));
        match instr {
            AstNode::Increment { amount, offset, .. } => {
                prog.append("*(ptr + ");
                push_int(prog, *offset);
                prog.append(") += ");
                push_int(prog, *amount as i64);
                prog.append(";");
            },
            AstNode::PointerIncrement { amount, .. } => {
                if *amount < 0 {
                    prog.append("if ((ptr + ");
                    push_int(prog, *amount);
                    prog.append(") < c) { raise(SIGSEGV); };");
                } else if *amount > 0 {
                    prog.append("if ((ptr + ");
                    push_int(prog, *amount);
                    prog.append(") >= (c + NUM_CELLS)) { raise(SIGSEGV); };");
                }
                if *amount != 0 {
                    prog.append("ptr += ");
                    push_int(prog, *amount);
                    prog.append(";");
                }
            },
            AstNode::Read { offset, .. } => {
                if *offset == 0 {
                    prog.append("scanf(\"%c\", ptr);");
                } else {
                    prog.append("scanf(\"%c\", ptr + ");
                    push_int(prog, *offset);
                    prog.append(");");
                }
            },
            AstNode::Write { offset, .. } => {
                if *offset == 0 {
                    prog.append("printf(\"%c\", *ptr);");
                } else {
                    prog.append("printf(\"%c\", *(ptr + ");
                    push_int(prog, *offset);
                    prog.append("));");
                }
            },
            AstNode::Loop { body, .. } => {
                prog.append("while(*ptr) {");
                proof {
                    assert(decreases_to!(instrs@ => instrs@[i as int]));
                }
                add_instrs_to_c_prog(body.as_slice(), prog);
                prog.append("}");
            },
            AstNode::Assign { amount, offset, .. } => {
                prog.append("*(ptr + ");
                push_int(prog, *offset);
                prog.append(") = ");
                push_int(prog, *amount as i64);
                prog.append(";");
            },
            AstNode::MultiplyMove { changes, .. } => {
                add_changes_to_c_prog(changes, prog);
                prog.append("*ptr = 0;");
            },
        }
        assert(prog@ =~= before + node_text(vs[i as int]));
        i = i + 1;
    }
    assert(vs.subrange(0, instrs@.len() as int) =~= vs);
}

/// The complete C program for `instrs`: a fixed header declaring the tape,
/// the statements for each node, and the closing brace.
pub fn c_prog_from_instructions(instrs: &[AstNode]) -> (r: String)
    ensures
        r@ == c_program(view_nodes(instrs@)),
{
    let mut prog = String::from_str(
        "#include<stdio.h>\n#include<signal.h>\n#define NUM_CELLS 30000\nint main(){ static char c[NUM_CELLS] = { 0 }, *target, *ptr; ptr=c;",
    );
    add_instrs_to_c_prog(instrs, &mut prog);
    prog.append("}");
    prog
}

} // verus!
