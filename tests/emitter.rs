use stackc::emit::compile;
use stackc::hir::IConst;
use stackc::lir::Op;

fn chars(s: &str) -> Vec<char> {
    s.chars().collect()
}

fn assembly(ops: Vec<Op>, strings: Vec<Vec<u8>>, mems: Vec<(Vec<char>, usize)>) -> String {
    compile(&ops, &strings, &mems).into_iter().collect()
}

#[test]
fn emits_entry_code_and_sections() {
    let text = assembly(vec![], vec![], vec![]);
    assert!(text.starts_with("BITS 64\nsection .text\nglobal _start\nextern print\n\n_start:\n"));
    assert!(text.contains("    mov QWORD [ret_stack_rsp], ret_stack_end\n"));
    assert!(text.contains("section .data\nsection .bss\n"));
    assert!(text.contains("    mov [argv], rsp\n    ; exit status 0 unless main leaves a word\n    push 0\n"));
    assert!(text.ends_with("    putc_buf: resb 1\n"));
}

#[test]
fn emits_add_and_print_program() {
    let ops = vec![
        Op::Call(chars("main")),
        Op::Exit,
        Op::Proc(chars("main")),
        Op::Push(IConst::U64(1)),
        Op::Push(IConst::U64(2)),
        Op::Add,
        Op::Print,
        Op::Return,
    ];
    let text = assembly(ops, vec![], vec![]);
    let code = "; call\n    call main\n; exit\n    pop rdi\n    mov rax, 60\n    syscall\n\
                main:\n; save return address\n    pop rdi\n    mov rax, 8\n    sub [ret_stack_rsp], rax\n\
                \x20   mov QWORD rax, [ret_stack_rsp]\n    mov QWORD [rax], rdi\n\
                ; push\n    mov rax, 1\n    push rax\n; push\n    mov rax, 2\n    push rax\n\
                ; add\n    pop rax\n    pop rbx\n    add rbx, rax\n    push rbx\n\
                ; print\n    pop rdi\n    call print\n";
    assert!(text.contains(code), "{}", text);
    assert!(text.contains("; return\n    ret\n"));
}

#[test]
fn emits_string_data_and_memory() {
    let ops = vec![Op::PushStr(1), Op::PushMem(chars("buf"))];
    let strings = vec![b"ab".to_vec(), vec![104, 105, 10]];
    let text = assembly(ops, strings, vec![(chars("buf"), 64)]);
    assert!(text.contains("; push string\n    push 3\n    push str_1\n"));
    assert!(text.contains("; push memory\n    push mem_buf\n"));
    assert!(text.contains("section .data\nstr_0:\n    db 97,98\nstr_1:\n    db 104,105,10\n"));
    assert!(text.ends_with("mem_buf:\n    resb 64\n"));
}

#[test]
fn emits_labels_and_jumps() {
    let ops = vec![Op::Label(chars(".f0")), Op::JumpF(chars(".f1")), Op::Jump(chars(".f0"))];
    let text = assembly(ops, vec![], vec![]);
    assert!(text.contains(".f0:\n; jump if false\n    pop rax\n    test rax, rax\n    jz .f1\n; jump\n    jmp .f0\n"));
}

#[test]
fn boolean_push_is_zero_or_one() {
    let text = assembly(vec![Op::Push(IConst::Bool(7)), Op::Push(IConst::I64(u64::MAX))], vec![], vec![]);
    assert!(text.contains("    mov rax, 1\n"));
    assert!(text.contains("    mov rax, 18446744073709551615\n"));
}

#[test]
fn emits_bindings_and_comparisons() {
    let text = assembly(vec![Op::Bind, Op::UseBinding(2), Op::Unbind, Op::Lt, Op::Dump], vec![], vec![]);
    assert!(text.contains("; use binding\n    mov rax, 8 * 2\n"));
    assert!(text.contains("; unbind\n    mov rax, 8\n    add [ret_stack_rsp], rax\n"));
    assert!(text.contains("    cmovl rcx, rdx\n"));
}
