//! Code generation: ARM64 assembly (Darwin flavour) for a parsed function.
use vstd::prelude::*;

use crate::parser::{
    Expr, ExprModel, Function, FunctionModel, Statement, StatementModel, strings_view,
    statements_view, function_step, parsed_shape, lemma_function_shape,
};
use crate::text::{decimal, signed_decimal, push_char, push_decimal};
use crate::literal::{literal_size, literal_content, literal_byte_size};

verus! {

#[verifier::external_type_specification]
#[verifier::external_body]
pub struct ExFmtError(std::fmt::Error);

/// The ways code generation can fail.
#[derive(Debug)]
pub enum CodegenError {
    WriteError(std::fmt::Error),
    UndeclaredVariable,
}

impl From<std::fmt::Error> for CodegenError {
    fn from(v: std::fmt::Error) -> Self {
        Self::WriteError(v)
    }
}

impl vstd::std_specs::convert::FromSpecImpl<std::fmt::Error> for CodegenError {
    open spec fn obeys_from_spec() -> bool {
        true
    }

    open spec fn from_spec(v: std::fmt::Error) -> Self {
        CodegenError::WriteError(v)
    }
}

/// The variable that a statement declares or writes, if any.
pub open spec fn declared_name(st: StatementModel) -> Option<Seq<char>> {
    match st {
        StatementModel::Declare { name } => Some(name),
        StatementModel::Assign { name, .. } => Some(name),
        StatementModel::Initialize { name, .. } => Some(name),
        _ => None,
    }
}

/// The stack slots of a body: each variable it declares or writes, once, in order of first appearance.
pub open spec fn variable_slots(body: Seq<StatementModel>) -> Seq<Seq<char>>
    decreases body.len(),
{
    if body.len() == 0 {
        seq![]
    } else {
        let slots = variable_slots(body.drop_last());
        match declared_name(body.last()) {
            Some(name) => if slots.contains(name) {
                slots
            } else {
                slots.push(name)
            },
            None => slots,
        }
    }
}

/// The size of the stack frame for `vars` four-byte variables: their space rounded up to 16 bytes,
/// plus 16 bytes for the saved frame pointer and link register.
pub open spec fn frame_size(vars: nat) -> nat {
    ((vars + 3) / 4) * 16 + 16
}

/// The offset from the stack pointer at which the frame pointer and link register are saved.
pub open spec fn frame_base(vars: nat) -> nat {
    ((vars + 3) / 4) * 16
}

/// The offset from the stack pointer of the slot of variable `name`.
pub open spec fn slot_offset(slots: Seq<Seq<char>>, name: Seq<char>) -> int {
    frame_base(slots.len()) - (slots.index_of(name) + 1) * 4
}

/// Whether the code generator handles the statement: a call of `printf` with exactly one argument,
/// a return of a literal, a declaration, an initialization with a literal, or an assignment of a variable.
pub open spec fn supported_statement(st: StatementModel) -> bool {
    match st {
        StatementModel::Funcall { name, args } => name == "printf"@ && args.len() == 1,
        StatementModel::Return { return_value } => return_value is LitInt,
        StatementModel::Declare { .. } => true,
        StatementModel::Initialize { value, .. } => value is LitInt,
        StatementModel::Assign { value, .. } => value is Identifier,
    }
}

/// Whether every statement of the body is handled by the code generator.
pub open spec fn supported_body(body: Seq<StatementModel>) -> bool {
    forall|i: int| 0 <= i < body.len() ==> supported_statement(#[trigger] body[i])
}

/// Whether some assignment reads a variable that the body never declares or writes.
pub open spec fn reads_undeclared(body: Seq<StatementModel>) -> bool {
    exists|i: int|
        0 <= i < body.len() && (#[trigger] body[i] matches StatementModel::Assign {
            value: ExprModel::Identifier(rhs),
            ..
        } && !variable_slots(body).contains(rhs))
}

/// The number of calls in a body.
pub open spec fn call_count(body: Seq<StatementModel>) -> nat
    decreases body.len(),
{
    if body.len() == 0 {
        0
    } else {
        call_count(body.drop_last()) + if body.last() is Funcall { 1nat } else { 0nat }
    }
}

/// The string literals of the calls in a body, in order: the first argument of each call.
pub open spec fn call_labels(body: Seq<StatementModel>) -> Seq<Seq<char>>
    decreases body.len(),
{
    if body.len() == 0 {
        seq![]
    } else {
        let labels = call_labels(body.drop_last());
        match body.last() {
            StatementModel::Funcall { args, .. } => labels.push(args[0]),
            _ => labels,
        }
    }
}

/// The assembly file header.
pub open spec fn header_text() -> Seq<char> {
    ".global _main\n.align 2\n\n_main:\n"@
}

/// Sets up a stack frame of `size` bytes, saving frame pointer and link register at offset `base`.
pub open spec fn prologue_text(size: nat, base: nat) -> Seq<char> {
    "sub sp, sp, #"@ + decimal(size) + "\nstp x29, x30, [sp, #"@ + decimal(base)
        + "]\nadd x29, sp, #"@ + decimal(base) + "\n\n"@
}

/// The code for one statement: `label` numbers the calls, `slots` gives the variables' places.
pub open spec fn statement_text(
    st: StatementModel,
    label: nat,
    slots: Seq<Seq<char>>,
) -> Seq<char> {
    let size = frame_size(slots.len());
    let base = frame_base(slots.len());
    match st {
        StatementModel::Funcall { args, .. } => "; printf(...)\nmov x0, #1\nadrp x1, label_"@
            + decimal(label) + "@PAGE\nadd x1, x1, label_"@ + decimal(label) + "@PAGEOFF\nmov x2, #"@
            + decimal(literal_size(literal_content(args[0]))) + "\nmov x16, #4\nsvc #0x80\n\n"@,
        StatementModel::Return { return_value: ExprModel::LitInt(n) } => "ldp x29, x30, [sp, #"@
            + decimal(base) + "]\nadd sp, sp, #"@ + decimal(size) + "\n\n"@ + "; return "@
            + signed_decimal(n as int) + "\nmov w0, #"@ + signed_decimal(n as int) + "\nret\n\n"@,
        StatementModel::Initialize { name, value: ExprModel::LitInt(n) } => "; "@ + name + " = "@
            + signed_decimal(n as int) + "\nmov w8, #"@ + signed_decimal(n as int)
            + "\nstr w8, [sp, #"@ + decimal(slot_offset(slots, name) as nat) + "]\n\n"@,
        StatementModel::Assign { name, value: ExprModel::Identifier(rhs) } => "; "@ + name
            + " = "@ + rhs + "\nldr w8, [sp, #"@ + decimal(slot_offset(slots, rhs) as nat)
            + "]\nstr w8, [sp, #"@ + decimal(slot_offset(slots, name) as nat) + "]\n\n"@,
        _ => seq![],
    }
}

/// The code for the statements of `body`, in order, with calls numbered from one.
pub open spec fn body_text(body: Seq<StatementModel>, slots: Seq<Seq<char>>) -> Seq<char>
    decreases body.len(),
{
    if body.len() == 0 {
        seq![]
    } else {
        body_text(body.drop_last(), slots) + statement_text(
            body.last(),
            call_count(body.drop_last()) + 1,
            slots,
        )
    }
}

/// One line per string literal, labelled from one.
pub open spec fn label_lines(labels: Seq<Seq<char>>) -> Seq<char>
    decreases labels.len(),
{
    if labels.len() == 0 {
        seq![]
    } else {
        label_lines(labels.drop_last()) + "label_"@ + decimal(labels.len()) + ": .asciz "@
            + labels.last() + "\n"@
    }
}

/// The string literal section, present when there is at least one literal.
pub open spec fn literals_text(labels: Seq<Seq<char>>) -> Seq<char> {
    if labels.len() > 0 {
        ".section __TEXT,__cstring,cstring_literals\n"@ + label_lines(labels)
    } else {
        seq![]
    }
}

/// The assembly for a function.
pub open spec fn program_text(f: FunctionModel) -> Seq<char> {
    let slots = variable_slots(f.body);
    header_text() + prologue_text(frame_size(slots.len()), frame_base(slots.len())) + body_text(
        f.body,
        slots,
    ) + literals_text(call_labels(f.body))
}

/// Each declared name appears once among the slots, and the slots are exactly the names
/// that the body declares or writes.
pub proof fn lemma_variable_slots(body: Seq<StatementModel>)
    ensures
        variable_slots(body).no_duplicates(),
        variable_slots(body).len() <= body.len(),
        forall|n: Seq<char>|
            variable_slots(body).contains(n) <==> exists|i: int|
                0 <= i < body.len() && #[trigger] declared_name(body[i]) == Some(n),
    decreases body.len(),
{
    if body.len() > 0 {
        let prev = body.drop_last();
        lemma_variable_slots(prev);
        let slots = variable_slots(body);
        assert forall|n: Seq<char>|
            slots.contains(n) <==> exists|i: int|
                0 <= i < body.len() && #[trigger] declared_name(body[i]) == Some(n) by {
            if slots.contains(n) {
                if variable_slots(prev).contains(n) {
                    let i = choose|i: int| 0 <= i < prev.len() && #[trigger] declared_name(prev[i]) == Some(n);
                    assert(declared_name(body[i]) == Some(n));
                } else {
                    assert(declared_name(body[body.len() - 1]) == Some(n));
                }
            }
            if exists|i: int| 0 <= i < body.len() && #[trigger] declared_name(body[i]) == Some(n) {
                let i = choose|i: int| 0 <= i < body.len() && #[trigger] declared_name(body[i]) == Some(n);
                if i < body.len() - 1 {
                    assert(declared_name(prev[i]) == Some(n));
                    assert(variable_slots(prev).contains(n));
                    let k = choose|k: int| 0 <= k < variable_slots(prev).len() && variable_slots(prev)[k] == n;
                    assert(slots[k] == n);
                } else {
                    if !variable_slots(prev).contains(n) {
                        assert(slots[slots.len() - 1] == n);
                    } else {
                        let k = choose|k: int| 0 <= k < variable_slots(prev).len() && variable_slots(prev)[k] == n;
                        assert(slots[k] == n);
                    }
                }
            }
        }
    }
}

/// In a sequence without duplicates, the index of an element is where it stands.
pub proof fn lemma_index_of_unique(s: Seq<Seq<char>>, i: int)
    requires
        s.no_duplicates(),
        0 <= i < s.len(),
    ensures
        s.index_of(s[i]) == i,
{
    assert(s.contains(s[i]));
}

/// The body has at least as many calls as labels, one per call.
pub proof fn lemma_call_labels(body: Seq<StatementModel>)
    ensures
        call_labels(body).len() == call_count(body),
        call_count(body) <= body.len(),
    decreases body.len(),
{
    if body.len() > 0 {
        lemma_call_labels(body.drop_last());
    }
}

/// Appends the decimal numeral of a signed value.
fn push_signed(s: &mut String, n: i32)
    ensures
        final(s)@ == old(s)@ + signed_decimal(n as int),
{
    if n < 0 {
        push_char(s, '-');
        let m: i64 = -(n as i64);
        push_decimal(s, m as u128);
        assert(final(s)@ =~= old(s)@ + signed_decimal(n as int));
    } else {
        push_decimal(s, n as u128);
    }
}

/// The place of `name` among the slots, if it has one.
fn find_slot(vars: &Vec<String>, name: &String) -> (res: Option<usize>)
    ensures
        match res {
            Some(i) => i < vars@.len() && strings_view(vars@)[i as int] == name@,
            None => !strings_view(vars@).contains(name@),
        },
{
    let mut i: usize = 0;
    while i < vars.len()
        invariant
            0 <= i <= vars@.len(),
            forall|j: int| 0 <= j < i ==> strings_view(vars@)[j] != name@,
        decreases vars@.len() - i,
    {
        if vars[i] == *name {
            return Some(i);
        }
        i = i + 1;
    }
    None
}

/// The name a statement declares or writes, if any.
fn declared_of(st: &Statement) -> (res: Option<&String>)
    ensures
        match declared_name(st@) {
            Some(n) => res matches Some(s) && s@ == n,
            None => res is None,
        },
{
    match st {
        Statement::Declare { name } => Some(name),
        Statement::Assign { name, .. } => Some(name),
        Statement::Initialize { name, .. } => Some(name),
        _ => None,
    }
}

/// Appends the code for one statement: `label` is the number of the statement's string literal if it
/// is a call, `variables` are the stack slots. It fails exactly when an assignment reads a variable
/// that has no slot.
fn emit_statement(
    output: &mut String,
    st: &Statement,
    label: usize,
    variables: &Vec<String>,
    stack_size: u128,
    sp_x29: u128,
) -> (res: Result<(), ()>)
    requires
        supported_statement(st@),
        strings_view(variables@).no_duplicates(),
        stack_size == frame_size(variables@.len()),
        sp_x29 == frame_base(variables@.len()),
        declared_name(st@) matches Some(n) ==> strings_view(variables@).contains(n),
    ensures
        res is Err <==> (st@ matches StatementModel::Assign { value: ExprModel::Identifier(rhs), .. }
            && !strings_view(variables@).contains(rhs)),
        res is Ok ==> final(output)@ == old(output)@ + statement_text(
            st@,
            label as nat,
            strings_view(variables@),
        ),
{
    let ghost slots = strings_view(variables@);
    let ghost before = output@;
    match st {
        Statement::Funcall { name: _, args } => {
            // The literal is written to stdout as it is, by the `write` system call
            let size = literal_byte_size(&args[0]);
            output.append("; printf(...)\nmov x0, #1\nadrp x1, label_");
            push_decimal(output, label as u128);
            output.append("@PAGE\nadd x1, x1, label_");
            push_decimal(output, label as u128);
            output.append("@PAGEOFF\nmov x2, #");
            push_decimal(output, size);
            output.append("\nmov x16, #4\nsvc #0x80\n\n");
            assert(output@ =~= before + statement_text(st@, label as nat, slots));
        },
        Statement::Return { return_value: Expr::LitInt(v) } => {
            output.append("ldp x29, x30, [sp, #");
            push_decimal(output, sp_x29);
            output.append("]\nadd sp, sp, #");
            push_decimal(output, stack_size);
            output.append("\n\n");
            output.append("; return ");
            push_signed(output, *v);
            output.append("\nmov w0, #");
            push_signed(output, *v);
            output.append("\nret\n\n");
            assert(output@ =~= before + statement_text(st@, label as nat, slots));
        },
        Statement::Declare { name: _ } => {
            // no op in second pass
            assert(output@ =~= before + statement_text(st@, label as nat, slots));
        },
        Statement::Initialize { name, value: Expr::LitInt(v) } => {
            let idx = match find_slot(variables, name) {
                Some(idx) => idx,
                None => {
                    return Err(());
                },
            };
            proof {
                lemma_index_of_unique(slots, idx as int);
            }
            let sp_offset = sp_x29 - (idx as u128 + 1) * 4;
            output.append("; ");
            output.append(name.as_str());
            output.append(" = ");
            push_signed(output, *v);
            output.append("\nmov w8, #");
            push_signed(output, *v);
            output.append("\nstr w8, [sp, #");
            push_decimal(output, sp_offset);
            output.append("]\n\n");
            assert(output@ =~= before + statement_text(st@, label as nat, slots));
        },
        Statement::Assign { name, value: Expr::Identifier(rhs) } => {
            let lhs_idx = match find_slot(variables, name) {
                Some(idx) => idx,
                None => {
                    return Err(());
                },
            };
            let rhs_idx = match find_slot(variables, rhs) {
                Some(idx) => idx,
                None => {
                    return Err(());
                },
            };
            proof {
                lemma_index_of_unique(slots, lhs_idx as int);
                lemma_index_of_unique(slots, rhs_idx as int);
            }
            let sp_lhs_offset = sp_x29 - (lhs_idx as u128 + 1) * 4;
            let sp_rhs_offset = sp_x29 - (rhs_idx as u128 + 1) * 4;
            output.append("; ");
            output.append(name.as_str());
            output.append(" = ");
            output.append(rhs.as_str());
            output.append("\nldr w8, [sp, #");
            push_decimal(output, sp_rhs_offset);
            output.append("]\nstr w8, [sp, #");
            push_decimal(output, sp_lhs_offset);
            output.append("]\n\n");
            assert(output@ =~= before + statement_text(st@, label as nat, slots));
        },
        _ => {
            assert(false);
        },
    }
    Ok(())
}

/// Generates the assembly for `program`. It fails exactly when an assignment reads a variable that
/// the function never declares or writes; otherwise the text is `program_text` of the function.
pub fn generate_program(program: Function) -> (res: Result<String, CodegenError>)
    requires
        supported_body(program@.body),
    ensures
        res is Err <==> reads_undeclared(program@.body),
        res matches Ok(out) ==> out@ == program_text(program@),
        res matches Err(e) ==> e is UndeclaredVariable,
{
    let ghost bv = program@.body;
    let len = program.body.len();
    let mut output = String::new();
    output.append(".global _main\n.align 2\n\n_main:\n");

    // prepare the stack frame lookup table
    let mut variables: Vec<String> = Vec::new();
    let mut i: usize = 0;
    while i < len
        invariant
            len == program.body@.len(),
            bv == program@.body,
            bv.len() == len,
            0 <= i <= len,
            strings_view(variables@) == variable_slots(bv.take(i as int)),
        decreases len - i,
    {
        proof {
            assert(bv.take(i + 1).drop_last() =~= bv.take(i as int));
            assert(bv[i as int] == program.body@[i as int]@);
        }
        match declared_of(&program.body[i]) {
            Some(name) => {
                if find_slot(&variables, name).is_none() {
                    variables.push(name.clone());
                    assert(strings_view(variables@) =~= variable_slots(bv.take(i as int)).push(name@));
                }
            },
            None => {},
        }
        i = i + 1;
    }
    let ghost slots = variable_slots(bv);
    proof {
        assert(bv.take(len as int) =~= bv);
        lemma_variable_slots(bv);
    }

    let n = variables.len();
    let stack_size: u128 = (n as u128 + 3) / 4 * 16 + 16;
    let sp_x29: u128 = stack_size - 16;

    let mut labels: Vec<String> = Vec::new();

    output.append("sub sp, sp, #");
    push_decimal(&mut output, stack_size);
    output.append("\nstp x29, x30, [sp, #");
    push_decimal(&mut output, sp_x29);
    output.append("]\nadd x29, sp, #");
    push_decimal(&mut output, sp_x29);
    output.append("\n\n");
    let ghost preamble = header_text() + prologue_text(frame_size(slots.len()), frame_base(slots.len()));
    assert(output@ =~= preamble);

    let mut i: usize = 0;
    while i < len
        invariant
            len == program.body@.len(),
            bv == program@.body,
            bv.len() == len,
            0 <= i <= len,
            supported_body(bv),
            slots == variable_slots(bv),
            slots.no_duplicates(),
            strings_view(variables@) == slots,
            n == slots.len(),
            n <= len,
            stack_size == frame_size(n as nat),
            sp_x29 == frame_base(n as nat),
            forall|m: Seq<char>| slots.contains(m) <==> exists|j: int|
                0 <= j < bv.len() && #[trigger] declared_name(bv[j]) == Some(m),
            preamble == header_text() + prologue_text(frame_size(slots.len()), frame_base(slots.len())),
            output@ == preamble + body_text(bv.take(i as int), slots),
            strings_view(labels@) == call_labels(bv.take(i as int)),
            labels@.len() == call_count(bv.take(i as int)),
            labels@.len() <= i,
            forall|j: int| 0 <= j < i ==> !(#[trigger] bv[j] matches StatementModel::Assign {
                value: ExprModel::Identifier(rhs),
                ..
            } && !slots.contains(rhs)),
        decreases len - i,
    {
        let ghost before = output@;
        proof {
            assert(bv.take(i + 1).drop_last() =~= bv.take(i as int));
            assert(bv[i as int] == program.body@[i as int]@);
            assert(supported_statement(bv[i as int]));
            lemma_call_labels(bv.take(i as int));
        }
        // The number of this statement's string literal, if it is a call
        let label = labels.len() + 1;
        let emitted = emit_statement(&mut output, &program.body[i], label, &variables, stack_size, sp_x29);
        if emitted.is_err() {
            return Err(CodegenError::UndeclaredVariable);
        }
        if let Statement::Funcall { name: _, args } = &program.body[i] {
            labels.push(args[0].clone());
            assert(strings_view(labels@) =~= call_labels(bv.take(i as int)).push(strings_view(args@)[0]));
        }
        i = i + 1;
    }
    proof {
        assert(bv.take(len as int) =~= bv);
    }

    let ghost lv = strings_view(labels@);
    if labels.len() > 0 {
        output.append(".section __TEXT,__cstring,cstring_literals\n");
    }
    let ghost before_labels = output@;

    let mut k: usize = 0;
    while k < labels.len()
        invariant
            0 <= k <= labels@.len(),
            lv == strings_view(labels@),
            labels@.len() <= len,
            output@ == before_labels + label_lines(lv.take(k as int)),
        decreases labels@.len() - k,
    {
        let ghost before = output@;
        output.append("label_");
        push_decimal(&mut output, (k + 1) as u128);
        output.append(": .asciz ");
        output.append(labels[k].as_str());
        output.append("\n");
        proof {
            assert(lv.take(k + 1).drop_last() =~= lv.take(k as int));
        }
        assert(output@ =~= before_labels + label_lines(lv.take(k + 1)));
        k = k + 1;
    }
    assert(lv.take(labels@.len() as int) =~= lv);
    assert(output@ =~= program_text(program@));
    Ok(output)
}

/// The stack frame keeps the stack pointer 16-byte aligned, holds four bytes for every variable
/// below the saved frame pointer and link register, and wastes less than 16 bytes.
pub proof fn law_frame_layout(vars: nat)
    ensures
        frame_size(vars) % 16 == 0,
        frame_size(vars) == frame_base(vars) + 16,
        4 * vars <= frame_base(vars) < 4 * vars + 16,
{
}

/// Every variable of a body has its own four-byte slot inside the frame, below the saved registers.
pub proof fn law_slots_disjoint(body: Seq<StatementModel>, a: Seq<char>, b: Seq<char>)
    requires
        variable_slots(body).contains(a),
        variable_slots(body).contains(b),
    ensures
        0 <= slot_offset(variable_slots(body), a),
        slot_offset(variable_slots(body), a) + 4 <= frame_base(variable_slots(body).len()),
        slot_offset(variable_slots(body), a) % 4 == 0,
        a != b ==> (slot_offset(variable_slots(body), a) - slot_offset(variable_slots(body), b) >= 4
            || slot_offset(variable_slots(body), b) - slot_offset(variable_slots(body), a) >= 4),
{
    let slots = variable_slots(body);
    lemma_variable_slots(body);
    let i = choose|i: int| 0 <= i < slots.len() && slots[i] == a;
    let j = choose|j: int| 0 <= j < slots.len() && slots[j] == b;
    lemma_index_of_unique(slots, i);
    lemma_index_of_unique(slots, j);
}

/// A function that the parser reads can be compiled as long as each of its calls has one argument:
/// the parser produces only the statements that the code generator handles.
pub proof fn law_parsed_functions_compile(src: Seq<u8>, p: int)
    requires
        0 <= p <= src.len(),
    ensures
        function_step(src, p).0 matches Ok(f) ==> ((forall|i: int|
            0 <= i < f.body.len() ==> (#[trigger] f.body[i] matches StatementModel::Funcall {
                args,
                ..
            } ==> args.len() == 1)) ==> supported_body(f.body)),
{
    lemma_function_shape(src, p);
    if let Ok(f) = function_step(src, p).0 {
        assert forall|i: int| 0 <= i < f.body.len() && (forall|k: int|
            0 <= k < f.body.len() ==> (#[trigger] f.body[k] matches StatementModel::Funcall {
                args,
                ..
            } ==> args.len() == 1)) implies supported_statement(#[trigger] f.body[i]) by {
            assert(parsed_shape(f.body[i]));
        }
    }
}

/// The code of the first `j + 1` statements is the code of the first `j` followed by that of
/// statement `j`, and the code of any first statements begins the code of the whole body: the
/// statements are compiled in order, each by `statement_text`.
pub proof fn law_statements_in_order(body: Seq<StatementModel>, slots: Seq<Seq<char>>, j: int)
    requires
        0 <= j < body.len(),
    ensures
        body_text(body.take(j + 1), slots) == body_text(body.take(j), slots) + statement_text(
            body[j],
            call_count(body.take(j)) + 1,
            slots,
        ),
        body_text(body.take(j), slots).len() <= body_text(body, slots).len(),
        body_text(body, slots).subrange(0, body_text(body.take(j), slots).len() as int)
            == body_text(body.take(j), slots),
    decreases body.len() - j,
{
    assert(body.take(j + 1).drop_last() =~= body.take(j));
    if j + 1 < body.len() {
        law_statements_in_order(body, slots, j + 1);
        let t1 = body_text(body.take(j), slots);
        let t2 = body_text(body.take(j + 1), slots);
        let full = body_text(body, slots);
        assert(t2.subrange(0, t1.len() as int) =~= t1);
        assert(full.subrange(0, t2.len() as int) == t2);
        assert(full.subrange(0, t1.len() as int) =~= full.subrange(0, t2.len() as int).subrange(
            0,
            t1.len() as int,
        ));
    } else {
        assert(body.take(j + 1) =~= body);
        let t1 = body_text(body.take(j), slots);
        assert(body_text(body, slots).subrange(0, t1.len() as int) =~= t1);
    }
}

/// Every access of a variable in the code uses the variable's own slot, `4 * (i + 1)` bytes below
/// the saved registers, where `i` is the place of the variable among the body's names in order of
/// first appearance (so a name declared again keeps its first slot): an initialization stores to
/// the slot of its variable, an assignment loads from the slot of its right-hand side and stores to
/// the slot of its left-hand side.
pub proof fn law_variable_accesses(body: Seq<StatementModel>, j: int, label: nat)
    requires
        0 <= j < body.len(),
    ensures
        ({
            let slots = variable_slots(body);
            let base = frame_base(slots.len());
            body[j] matches StatementModel::Initialize { name, value: ExprModel::LitInt(n) } ==> {
                let i = slots.index_of(name);
                &&& 0 <= i < slots.len()
                &&& slots[i] == name
                &&& forall|k: int| 0 <= k < slots.len() && slots[k] == name ==> k == i
                &&& statement_text(body[j], label, slots) == "; "@ + name + " = "@ + signed_decimal(
                    n as int,
                ) + "\nmov w8, #"@ + signed_decimal(n as int) + "\nstr w8, [sp, #"@ + decimal(
                    (base - 4 * (i + 1)) as nat,
                ) + "]\n\n"@
            }
        }),
        ({
            let slots = variable_slots(body);
            let base = frame_base(slots.len());
            body[j] matches StatementModel::Assign { name, value: ExprModel::Identifier(rhs) }
                ==> slots.contains(rhs) ==> {
                let i = slots.index_of(name);
                let k = slots.index_of(rhs);
                &&& 0 <= i < slots.len() && slots[i] == name
                &&& 0 <= k < slots.len() && slots[k] == rhs
                &&& forall|m: int| 0 <= m < slots.len() && slots[m] == name ==> m == i
                &&& forall|m: int| 0 <= m < slots.len() && slots[m] == rhs ==> m == k
                &&& statement_text(body[j], label, slots) == "; "@ + name + " = "@ + rhs
                    + "\nldr w8, [sp, #"@ + decimal((base - 4 * (k + 1)) as nat)
                    + "]\nstr w8, [sp, #"@ + decimal((base - 4 * (i + 1)) as nat) + "]\n\n"@
            }
        }),
{
    let slots = variable_slots(body);
    lemma_variable_slots(body);
    match body[j] {
        StatementModel::Initialize { name, value: ExprModel::LitInt(n) } => {
            assert(declared_name(body[j]) == Some(name));
            assert(slots.contains(name));
            let i = choose|i: int| 0 <= i < slots.len() && slots[i] == name;
            lemma_index_of_unique(slots, i);
        },
        StatementModel::Assign { name, value: ExprModel::Identifier(rhs) } => {
            assert(declared_name(body[j]) == Some(name));
            assert(slots.contains(name));
            let i = choose|i: int| 0 <= i < slots.len() && slots[i] == name;
            lemma_index_of_unique(slots, i);
            if slots.contains(rhs) {
                let k = choose|k: int| 0 <= k < slots.len() && slots[k] == rhs;
                lemma_index_of_unique(slots, k);
            }
        },
        _ => {},
    }
}

/// The code before each `return` undoes the prologue: it reloads the frame pointer and link
/// register from the offset where the prologue saved them and gives back the whole frame, for a
/// frame of `k` variables of 16 * ((k + 3) / 4) + 16 bytes.
pub proof fn law_epilogue_undoes_prologue(f: FunctionModel, j: int, label: nat)
    requires
        0 <= j < f.body.len(),
        f.body[j] matches StatementModel::Return { return_value: ExprModel::LitInt(_) },
    ensures
        ({
            let k = variable_slots(f.body).len();
            let size = (16 * ((k + 3) / 4) + 16) as nat;
            let base = (16 * ((k + 3) / 4)) as nat;
            &&& (".global _main\n.align 2\n\n_main:\n"@ + "sub sp, sp, #"@ + decimal(size)
                + "\nstp x29, x30, [sp, #"@ + decimal(base) + "]\nadd x29, sp, #"@ + decimal(base)
                + "\n\n"@).is_prefix_of(program_text(f))
            &&& ("ldp x29, x30, [sp, #"@ + decimal(base) + "]\nadd sp, sp, #"@ + decimal(size)
                + "\n\n"@).is_prefix_of(statement_text(f.body[j], label, variable_slots(f.body)))
        }),
{
    let slots = variable_slots(f.body);
    let k = slots.len();
    let size = (16 * ((k + 3) / 4) + 16) as nat;
    let base = (16 * ((k + 3) / 4)) as nat;
    assert(frame_size(k) == size);
    assert(frame_base(k) == base);
    let pre = ".global _main\n.align 2\n\n_main:\n"@ + "sub sp, sp, #"@ + decimal(size)
        + "\nstp x29, x30, [sp, #"@ + decimal(base) + "]\nadd x29, sp, #"@ + decimal(base)
        + "\n\n"@;
    assert(pre =~= header_text() + prologue_text(frame_size(k), frame_base(k)));
    let whole = program_text(f);
    assert(whole =~= pre + (body_text(f.body, slots) + literals_text(call_labels(f.body))));
    assert(pre =~= whole.subrange(0, pre.len() as int));
    let st = statement_text(f.body[j], label, slots);
    let epi = "ldp x29, x30, [sp, #"@ + decimal(base) + "]\nadd sp, sp, #"@ + decimal(size)
        + "\n\n"@;
    if let StatementModel::Return { return_value: ExprModel::LitInt(n) } = f.body[j] {
        assert(st =~= epi + ("; return "@ + signed_decimal(n as int) + "\nmov w0, #"@
            + signed_decimal(n as int) + "\nret\n\n"@));
        assert(epi =~= st.subrange(0, epi.len() as int));
    }
}

/// Each call gets its own string literal: the call at position `j` loads the literal numbered one
/// more than the calls before it, that literal's line holds the call's own argument, later calls
/// get later numbers, and every literal line belongs to some call.
pub proof fn law_call_labels(body: Seq<StatementModel>)
    ensures
        call_labels(body).len() == call_count(body),
        forall|j: int|
            0 <= j < body.len() && #[trigger] body[j] is Funcall ==> call_count(body.take(j))
                < call_labels(body).len() && call_labels(body)[call_count(body.take(j)) as int]
                == body[j]->args[0],
        forall|j1: int, j2: int|
            0 <= j1 < j2 < body.len() && #[trigger] body[j1] is Funcall && #[trigger] body[j2] is Funcall
                ==> call_count(body.take(j1)) < call_count(body.take(j2)),
        forall|k: int|
            #![trigger literal_of_call(body, k)]
            0 <= k < call_labels(body).len() ==> literal_of_call(body, k),
{
    lemma_call_labels(body);
    assert forall|j: int|
        0 <= j < body.len() && #[trigger] body[j] is Funcall implies call_count(body.take(j))
            < call_labels(body).len() && call_labels(body)[call_count(body.take(j)) as int]
            == body[j]->args[0] by {
        lemma_call_labels_prefix(body, j + 1);
        lemma_call_labels(body.take(j));
        lemma_call_labels(body.take(j + 1));
        assert(body.take(j + 1).drop_last() =~= body.take(j));
        assert(body.take(j + 1).last() == body[j]);
        let k = call_count(body.take(j)) as int;
        assert(call_labels(body.take(j + 1))[k] == body[j]->args[0]);
        assert(call_labels(body.take(j + 1))[k] == call_labels(body)[k]);
    }
    assert forall|j1: int, j2: int|
        0 <= j1 < j2 < body.len() && #[trigger] body[j1] is Funcall && #[trigger] body[j2] is Funcall
            implies call_count(body.take(j1)) < call_count(body.take(j2)) by {
        assert(body.take(j1 + 1).drop_last() =~= body.take(j1));
        assert(body.take(j1 + 1).last() == body[j1]);
        lemma_call_count_monotone(body, j1 + 1, j2);
    }
    lemma_call_labels_onto(body);
}

/// Literal number `k + 1` is that of a call with `k` calls before it.
pub open spec fn literal_of_call(body: Seq<StatementModel>, k: int) -> bool {
    exists|j: int| 0 <= j < body.len() && #[trigger] body[j] is Funcall && call_count(body.take(j)) == k
}

/// The literals of the first statements begin the literals of the whole body.
proof fn lemma_call_labels_prefix(body: Seq<StatementModel>, i: int)
    requires
        0 <= i <= body.len(),
    ensures
        call_labels(body.take(i)).len() <= call_labels(body).len(),
        forall|k: int|
            0 <= k < call_labels(body.take(i)).len() ==> #[trigger] call_labels(body.take(i))[k]
                == call_labels(body)[k],
    decreases body.len() - i,
{
    if i < body.len() {
        lemma_call_labels_prefix(body, i + 1);
        assert(body.take(i + 1).drop_last() =~= body.take(i));
        let a = call_labels(body.take(i));
        let b = call_labels(body.take(i + 1));
        assert forall|k: int| 0 <= k < a.len() implies #[trigger] a[k] == call_labels(body)[k] by {
            assert(a[k] == b[k]);
        }
    } else {
        assert(body.take(i) =~= body);
    }
}

/// Every literal belongs to some call: the one with as many calls before it as its place.
proof fn lemma_call_labels_onto(body: Seq<StatementModel>)
    ensures
        forall|k: int|
            #![trigger literal_of_call(body, k)]
            0 <= k < call_labels(body).len() ==> literal_of_call(body, k),
    decreases body.len(),
{
    lemma_call_labels(body);
    if body.len() == 0 {
        assert(call_labels(body).len() == 0);
    } else {
        let prev = body.drop_last();
        let n = body.len() - 1;
        lemma_call_labels_onto(prev);
        lemma_call_labels(prev);
        assert(body.take(n) =~= prev);
        assert forall|k: int|
            #![trigger literal_of_call(body, k)]
            0 <= k < call_labels(body).len() implies literal_of_call(body, k) by {
            if k < call_labels(prev).len() {
                assert(call_labels(prev)[k] == call_labels(prev)[k]);
                assert(literal_of_call(prev, k));
                let j = choose|j: int|
                    0 <= j < prev.len() && #[trigger] prev[j] is Funcall && call_count(prev.take(j)) == k;
                assert(body.take(j) =~= prev.take(j));
                assert(body[j] == prev[j]);
            } else {
                assert(body[n] is Funcall);
                assert(call_count(body.take(n)) == k);
                assert(literal_of_call(body, k));
            }
        }
    }
}

/// The calls among the first `j` statements, counted up to `j`.
proof fn lemma_call_count_prefix(body: Seq<StatementModel>, j: int)
    requires
        0 <= j <= body.len(),
    ensures
        call_count(body.take(j)) <= call_count(body),
    decreases body.len() - j,
{
    if j < body.len() {
        lemma_call_count_prefix(body, j + 1);
        assert(body.take(j + 1).drop_last() =~= body.take(j));
    } else {
        assert(body.take(j) =~= body);
    }
}

/// The count of calls never decreases along the statements.
proof fn lemma_call_count_monotone(body: Seq<StatementModel>, i: int, j: int)
    requires
        0 <= i <= j <= body.len(),
    ensures
        call_count(body.take(i)) <= call_count(body.take(j)),
    decreases j - i,
{
    if i < j {
        lemma_call_count_monotone(body, i, j - 1);
        assert(body.take(j).drop_last() =~= body.take(j - 1));
    }
}

/// The lines of the first literals begin the lines of all of them.
proof fn lemma_label_lines_prefix(ls: Seq<Seq<char>>, k: int)
    requires
        0 <= k < ls.len(),
    ensures
        label_lines(ls.take(k + 1)) == label_lines(ls.take(k)) + "label_"@ + decimal((k + 1) as nat)
            + ": .asciz "@ + ls[k] + "\n"@,
        label_lines(ls.take(k + 1)).is_prefix_of(label_lines(ls)),
    decreases ls.len() - k,
{
    assert(ls.take(k + 1).drop_last() =~= ls.take(k));
    if k + 1 < ls.len() {
        lemma_label_lines_prefix(ls, k + 1);
        let a = label_lines(ls.take(k + 1));
        let b = label_lines(ls.take(k + 2));
        let full = label_lines(ls);
        assert(a.is_prefix_of(b));
        assert(a =~= full.subrange(0, a.len() as int));
    } else {
        assert(ls.take(k + 1) =~= ls);
    }
}

/// A call's code writes to stdout (file descriptor 1) the bytes at the label numbered one more than
/// the calls before it, as many bytes as its literal stands for, with the `write` system call; and
/// the literal section holds that label's line with the call's own literal.
pub proof fn law_call_text(body: Seq<StatementModel>, j: int)
    requires
        0 <= j < body.len(),
        body[j] is Funcall,
    ensures
        ({
            let n = call_count(body.take(j)) + 1;
            let arg = body[j]->args[0];
            let lits = literals_text(call_labels(body));
            let line = "label_"@ + decimal(n) + ": .asciz "@ + arg + "\n"@;
            &&& ("; printf(...)\nmov x0, #1\nadrp x1, label_"@ + decimal(n)
                + "@PAGE\nadd x1, x1, label_"@ + decimal(n) + "@PAGEOFF\nmov x2, #"@ + decimal(
                literal_size(literal_content(arg)),
            ) + "\nmov x16, #4\nsvc #0x80\n\n"@) == statement_text(body[j], n, variable_slots(body))
            &&& occurs_in(line, lits)
        }),
{
    law_call_labels(body);
    let k = call_count(body.take(j)) as int;
    let n = (k + 1) as nat;
    let arg = body[j]->args[0];
    let ls = call_labels(body);
    let slots = variable_slots(body);
    lemma_label_lines_prefix(ls, k);
    let line = "label_"@ + decimal(n) + ": .asciz "@ + arg + "\n"@;
    let sec = ".section __TEXT,__cstring,cstring_literals\n"@;
    let lits = literals_text(ls);
    let before = label_lines(ls.take(k));
    let upto = label_lines(ls.take(k + 1));
    assert(upto =~= before + line);
    assert(lits =~= sec + label_lines(ls));
    let a: int = (sec.len() + before.len()) as int;
    assert(lits.subrange(a, a + line.len()) =~= line) by {
        assert(upto =~= label_lines(ls).subrange(0, upto.len() as int));
        assert forall|i: int| 0 <= i < line.len() implies lits.subrange(a, a + line.len())[i]
            == line[i] by {
            assert(lits[a + i] == label_lines(ls)[before.len() + i]);
            assert(label_lines(ls)[before.len() + i] == upto[before.len() + i]);
        }
    }
}


/// Whether `part` occurs in `whole` at some position.
pub open spec fn occurs_in(part: Seq<char>, whole: Seq<char>) -> bool {
    exists|a: int| 0 <= a && a + part.len() <= whole.len() && #[trigger] whole.subrange(a, a + part.len()) == part
}

/// In the assembly of a function, the code of each call loads the label numbered one more than the
/// calls before it and writes that many bytes to stdout, and that label is defined by a line that
/// holds the call's own literal.
pub proof fn law_program_calls(f: FunctionModel, j: int)
    requires
        0 <= j < f.body.len(),
        f.body[j] is Funcall,
    ensures
        ({
            let n = call_count(f.body.take(j)) + 1;
            let arg = f.body[j]->args[0];
            &&& occurs_in(
                "; printf(...)\nmov x0, #1\nadrp x1, label_"@ + decimal(n) + "@PAGE\nadd x1, x1, label_"@
                    + decimal(n) + "@PAGEOFF\nmov x2, #"@ + decimal(literal_size(literal_content(arg)))
                    + "\nmov x16, #4\nsvc #0x80\n\n"@,
                program_text(f),
            )
            &&& occurs_in("label_"@ + decimal(n) + ": .asciz "@ + arg + "\n"@, program_text(f))
        }),
{
    let body = f.body;
    let slots = variable_slots(body);
    law_call_text(body, j);
    law_statements_in_order(body, slots, j);
    let n = call_count(body.take(j)) + 1;
    let arg = body[j]->args[0];
    let code = statement_text(body[j], n, slots);
    let line = "label_"@ + decimal(n) + ": .asciz "@ + arg + "\n"@;
    let pre = header_text() + prologue_text(frame_size(slots.len()), frame_base(slots.len()));
    let bt = body_text(body, slots);
    let lits = literals_text(call_labels(body));
    let whole = program_text(f);
    assert(whole =~= pre + bt + lits);
    let t0 = body_text(body.take(j), slots);
    let t1 = body_text(body.take(j + 1), slots);
    if j + 1 < body.len() {
        law_statements_in_order(body, slots, j + 1);
    } else {
        assert(body.take(j + 1) =~= body);
    }
    assert(t1 =~= t0 + code);
    assert(bt.subrange(0, t1.len() as int) == t1);
    let b: int = (pre.len() + t0.len()) as int;
    assert(whole.subrange(b, b + code.len()) =~= code) by {
        assert forall|i: int| 0 <= i < code.len() implies whole.subrange(b, b + code.len())[i]
            == code[i] by {
            assert(whole[b + i] == bt[t0.len() + i]);
            assert(bt[t0.len() + i] == t1[t0.len() + i]);
        }
    }
    let a = choose|a: int| 0 <= a && a + line.len() <= lits.len() && #[trigger] lits.subrange(a, a + line.len()) == line;
    let c: int = (pre.len() + bt.len()) as int + a;
    assert(whole.subrange(c, c + line.len()) =~= line) by {
        assert forall|i: int| 0 <= i < line.len() implies whole.subrange(c, c + line.len())[i]
            == line[i] by {
            assert(whole[c + i] == lits[a + i]);
            assert(lits[a + i] == lits.subrange(a, a + line.len())[i]);
        }
    }
}

} // verus!
