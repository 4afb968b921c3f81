//! Code generation: the instruction sequence, the string pool and the
//! static-memory table to one x86-64 assembly unit.

use vstd::prelude::*;
use crate::hir::IConst;
use crate::lir::{Op, OpV, ops_view};
use crate::textbuf::{decimal, put_chars, put_decimal, put_str};

verus! {

pub const HEADER: &'static str = "BITS 64\nsection .text\nglobal _start\nextern print\n\n_start:\n    mov QWORD [ret_stack_rsp], ret_stack_end\n    mov QWORD [locals_stack_sp], locals_stack_end\n    mov QWORD [escaping_stack_sp], escaping_stack_end\n    ; set up args\n    pop rax\n    mov [argc], rax\n    mov [argv], rsp\n    ; exit status 0 unless main leaves a word\n    push 0\n\n";
pub const DATA_SECTION: &'static str = "section .data\n";
pub const BSS_SECTION: &'static str = "section .bss\n    ret_stack_rsp: resq 1\n    ret_stack: resb 65536\n    ret_stack_end:\n    locals_stack_sp: resq 1\n    locals_stack: resb 65536\n    locals_stack_end:\n    escaping_stack_sp: resq 1\n    escaping_stack: resb 65536\n    escaping_stack_end:\n    argc: resq 1\n    argv: resq 1\n    putc_buf: resb 1\n";
pub const STR_PRE: &'static str = "str_";
pub const STR_MID: &'static str = ":\n    db ";
pub const MEM_PRE: &'static str = "mem_";
pub const MEM_MID: &'static str = ":\n    resb ";
pub const COMMA: &'static str = ",";
pub const DROP_ASM: &'static str = "; drop\n    pop rax\n";
pub const DUP_ASM: &'static str = "; dup\n    pop rax\n    push rax\n    push rax\n";
pub const SWAP_ASM: &'static str = "; swap\n    pop rax\n    pop rbx\n    push rax\n    push rbx\n";
pub const OVER_ASM: &'static str = "; over\n    pop rax\n    pop rbx\n    push rbx\n    push rax\n    push rbx\n";
pub const READ_U8_ASM: &'static str = "; read u8\n    pop rax\n    xor rbx, rbx\n    mov bl, [rax]\n    push rbx\n";
pub const WRITE_U8_ASM: &'static str = "; write u8\n    pop rax\n    pop rbx\n    mov [rax], bl\n";
pub const READ_U64_ASM: &'static str = "; read u64\n    pop rax\n    mov rbx, [rax]\n    push rbx\n";
pub const WRITE_U64_ASM: &'static str = "; write u64\n    pop rax\n    pop rbx\n    mov [rax], rbx\n";
pub const PRINT_ASM: &'static str = "; print\n    pop rdi\n    call print\n";
pub const PUT_C_ASM: &'static str = "; putc\n    pop rax\n    mov [putc_buf], al\n    mov rax, 1\n    mov rdi, 1\n    mov rsi, putc_buf\n    mov rdx, 1\n    syscall\n";
pub const SYSCALL0_ASM: &'static str = "; syscall0\n    pop rax\n    syscall\n    push rax\n";
pub const SYSCALL1_ASM: &'static str = "; syscall1\n    pop rax\n    pop rdi\n    syscall\n    push rax\n";
pub const SYSCALL2_ASM: &'static str = "; syscall2\n    pop rax\n    pop rdi\n    pop rsi\n    syscall\n    push rax\n";
pub const SYSCALL3_ASM: &'static str = "; syscall3\n    pop rax\n    pop rdi\n    pop rsi\n    pop rdx\n    syscall\n    push rax\n";
pub const SYSCALL4_ASM: &'static str = "; syscall4\n    pop rax\n    pop rdi\n    pop rsi\n    pop rdx\n    pop r10\n    syscall\n    push rax\n";
pub const SYSCALL5_ASM: &'static str = "; syscall5\n    pop rax\n    pop rdi\n    pop rsi\n    pop rdx\n    pop r10\n    pop r8\n    syscall\n    push rax\n";
pub const SYSCALL6_ASM: &'static str = "; syscall6\n    pop rax\n    pop rdi\n    pop rsi\n    pop rdx\n    pop r10\n    pop r8\n    pop r9\n    syscall\n    push rax\n";
pub const ARGC_ASM: &'static str = "; argc\n    mov rax, [argc]\n    push rax\n";
pub const ARGV_ASM: &'static str = "; argv\n    mov rax, [argv]\n    push rax\n";
pub const ADD_ASM: &'static str = "; add\n    pop rax\n    pop rbx\n    add rbx, rax\n    push rbx\n";
pub const SUB_ASM: &'static str = "; sub\n    pop rax\n    pop rbx\n    sub rbx, rax\n    push rbx\n";
pub const DIVMOD_ASM: &'static str = "; divmod\n    xor rdx, rdx\n    pop rbx\n    pop rax\n    div rbx\n    push rax\n    push rdx\n";
pub const MUL_ASM: &'static str = "; mul\n    pop rax\n    pop rbx\n    mul rbx\n    push rax\n";
pub const EQ_ASM: &'static str = "; eq\n    mov rcx, 0\n    mov rdx, 1\n    pop rbx\n    pop rax\n    cmp rax, rbx\n    cmove rcx, rdx\n    push rcx\n";
pub const NE_ASM: &'static str = "; ne\n    mov rcx, 0\n    mov rdx, 1\n    pop rbx\n    pop rax\n    cmp rax, rbx\n    cmovne rcx, rdx\n    push rcx\n";
pub const LT_ASM: &'static str = "; lt\n    mov rcx, 0\n    mov rdx, 1\n    pop rbx\n    pop rax\n    cmp rax, rbx\n    cmovl rcx, rdx\n    push rcx\n";
pub const LE_ASM: &'static str = "; le\n    mov rcx, 0\n    mov rdx, 1\n    pop rbx\n    pop rax\n    cmp rax, rbx\n    cmovle rcx, rdx\n    push rcx\n";
pub const GT_ASM: &'static str = "; gt\n    mov rcx, 0\n    mov rdx, 1\n    pop rbx\n    pop rax\n    cmp rax, rbx\n    cmovg rcx, rdx\n    push rcx\n";
pub const GE_ASM: &'static str = "; ge\n    mov rcx, 0\n    mov rdx, 1\n    pop rbx\n    pop rax\n    cmp rax, rbx\n    cmovge rcx, rdx\n    push rcx\n";
pub const BIND_ASM: &'static str = "; bind\n    pop rbx\n    mov rax, 8\n    sub [ret_stack_rsp], rax\n    mov QWORD rax, [ret_stack_rsp]\n    mov QWORD [rax], rbx\n";
pub const UNBIND_ASM: &'static str = "; unbind\n    mov rax, 8\n    add [ret_stack_rsp], rax\n";
pub const RETURN_ASM: &'static str = "; load return address\n    mov QWORD rax, [ret_stack_rsp]\n    mov QWORD rdi, [rax]\n    mov rax, 8\n    add [ret_stack_rsp], rax\n    push rdi\n; return\n    ret\n";
pub const EXIT_ASM: &'static str = "; exit\n    pop rdi\n    mov rax, 60\n    syscall\n";
pub const DUMP_ASM: &'static str = "";
pub const PUSH_PRE: &'static str = "; push\n    mov rax, ";
pub const PUSH_POST: &'static str = "\n    push rax\n";
pub const PUSH_MEM_PRE: &'static str = "; push memory\n    push mem_";
pub const NL: &'static str = "\n";
pub const RESERVE_ESCAPING_PRE: &'static str = "; reserve escaping\n    mov rax, ";
pub const RESERVE_ESCAPING_POST: &'static str = "\n    sub [escaping_stack_sp], rax\n";
pub const PUSH_ESCAPING_PRE: &'static str = "; push escaping\n    mov rax, ";
pub const PUSH_ESCAPING_POST: &'static str = "\n    mov rbx, [escaping_stack_sp]\n    add rbx, rax\n    push rbx\n";
pub const RESERVE_LOCALS_PRE: &'static str = "; reserve locals\n    mov rax, ";
pub const RESERVE_LOCALS_POST: &'static str = "\n    sub [locals_stack_sp], rax\n";
pub const FREE_LOCALS_PRE: &'static str = "; free locals\n    mov rax, ";
pub const FREE_LOCALS_POST: &'static str = "\n    add [locals_stack_sp], rax\n";
pub const PUSH_LVAR_PRE: &'static str = "; push local\n    mov rax, ";
pub const PUSH_LVAR_POST: &'static str = "\n    mov rbx, [locals_stack_sp]\n    add rbx, rax\n    push rbx\n";
pub const USE_BINDING_PRE: &'static str = "; use binding\n    mov rax, 8 * ";
pub const USE_BINDING_POST: &'static str = "\n    mov QWORD rbx, [ret_stack_rsp]\n    add rbx, rax\n    mov QWORD rax, [rbx]\n    push rax\n";
pub const PROC_POST: &'static str = ":\n; save return address\n    pop rdi\n    mov rax, 8\n    sub [ret_stack_rsp], rax\n    mov QWORD rax, [ret_stack_rsp]\n    mov QWORD [rax], rdi\n";
pub const LABEL_POST: &'static str = ":\n";
pub const JUMP_F_PRE: &'static str = "; jump if false\n    pop rax\n    test rax, rax\n    jz ";
pub const JUMP_PRE: &'static str = "; jump\n    jmp ";
pub const CALL_PRE: &'static str = "; call\n    call ";
pub const PUSH_STR_PRE: &'static str = "; push string\n    push ";
pub const PUSH_STR_MID: &'static str = "\n    push str_";

/// The word that an immediate push loads: a boolean as 0 or 1, any other
/// value as its stored word.
pub open spec fn imm_word(c: IConst) -> u64 {
    match c {
        IConst::Bool(w) => if w == 0 { 0 } else { 1 },
        IConst::U64(w) => w,
        IConst::I64(w) => w,
    }
}

fn imm(c: &IConst) -> (r: u64)
    ensures
        r == imm_word(*c),
{
    match c {
        IConst::Bool(w) => if *w == 0 { 0 } else { 1 },
        IConst::U64(w) => *w,
        IConst::I64(w) => *w,
    }
}

/// The assembly block of one instruction; `pool` is the string pool.
pub open spec fn op_asm(op: OpV, pool: Seq<Seq<u8>>) -> Seq<char> {
    match op {
        OpV::Drop => DROP_ASM@,
        OpV::Dup => DUP_ASM@,
        OpV::Swap => SWAP_ASM@,
        OpV::Over => OVER_ASM@,
        OpV::ReadU8 => READ_U8_ASM@,
        OpV::WriteU8 => WRITE_U8_ASM@,
        OpV::ReadU64 => READ_U64_ASM@,
        OpV::WriteU64 => WRITE_U64_ASM@,
        OpV::Print => PRINT_ASM@,
        OpV::PutC => PUT_C_ASM@,
        OpV::Syscall0 => SYSCALL0_ASM@,
        OpV::Syscall1 => SYSCALL1_ASM@,
        OpV::Syscall2 => SYSCALL2_ASM@,
        OpV::Syscall3 => SYSCALL3_ASM@,
        OpV::Syscall4 => SYSCALL4_ASM@,
        OpV::Syscall5 => SYSCALL5_ASM@,
        OpV::Syscall6 => SYSCALL6_ASM@,
        OpV::Argc => ARGC_ASM@,
        OpV::Argv => ARGV_ASM@,
        OpV::Add => ADD_ASM@,
        OpV::Sub => SUB_ASM@,
        OpV::Divmod => DIVMOD_ASM@,
        OpV::Mul => MUL_ASM@,
        OpV::Eq => EQ_ASM@,
        OpV::Ne => NE_ASM@,
        OpV::Lt => LT_ASM@,
        OpV::Le => LE_ASM@,
        OpV::Gt => GT_ASM@,
        OpV::Ge => GE_ASM@,
        OpV::Bind => BIND_ASM@,
        OpV::Unbind => UNBIND_ASM@,
        OpV::Return => RETURN_ASM@,
        OpV::Exit => EXIT_ASM@,
        OpV::Dump => DUMP_ASM@,
        OpV::Push(x) => PUSH_PRE@ + decimal(imm_word(x) as nat) + PUSH_POST@,
        OpV::PushMem(x) => PUSH_MEM_PRE@ + x + NL@,
        OpV::ReserveEscaping(x) => RESERVE_ESCAPING_PRE@ + decimal(x) + RESERVE_ESCAPING_POST@,
        OpV::PushEscaping(x) => PUSH_ESCAPING_PRE@ + decimal(x) + PUSH_ESCAPING_POST@,
        OpV::ReserveLocals(x) => RESERVE_LOCALS_PRE@ + decimal(x) + RESERVE_LOCALS_POST@,
        OpV::FreeLocals(x) => FREE_LOCALS_PRE@ + decimal(x) + FREE_LOCALS_POST@,
        OpV::PushLvar(x) => PUSH_LVAR_PRE@ + decimal(x) + PUSH_LVAR_POST@,
        OpV::UseBinding(x) => USE_BINDING_PRE@ + decimal(x) + USE_BINDING_POST@,
        OpV::Proc(x) => x + PROC_POST@,
        OpV::Label(x) => x + LABEL_POST@,
        OpV::JumpF(x) => JUMP_F_PRE@ + x + NL@,
        OpV::Jump(x) => JUMP_PRE@ + x + NL@,
        OpV::Call(x) => CALL_PRE@ + x + NL@,
        OpV::PushStr(i) => PUSH_STR_PRE@ + decimal(if i < pool.len() { pool[i as int].len() } else { 0 }) + PUSH_STR_MID@ + decimal(i) + NL@,
    }
}

/// The assembly of a sequence of instructions, block after block.
pub open spec fn ops_asm(ops: Seq<OpV>, pool: Seq<Seq<u8>>) -> Seq<char>
    decreases ops.len(),
{
    if ops.len() == 0 {
        Seq::empty()
    } else {
        ops_asm(ops.drop_last(), pool) + op_asm(ops.last(), pool)
    }
}

/// The bytes of a string, in decimal, separated by commas.
pub open spec fn byte_list(b: Seq<u8>) -> Seq<char>
    decreases b.len(),
{
    if b.len() == 0 {
        Seq::empty()
    } else if b.len() == 1 {
        decimal(b[0] as nat)
    } else {
        byte_list(b.drop_last()) + COMMA@ + decimal(b.last() as nat)
    }
}

/// The data entry of the string at index `i` of the pool.
pub open spec fn string_asm(i: nat, b: Seq<u8>) -> Seq<char> {
    STR_PRE@ + decimal(i) + STR_MID@ + byte_list(b) + NL@
}

/// The data entries of the first `n` strings of the pool.
pub open spec fn strings_asm(pool: Seq<Seq<u8>>, n: nat) -> Seq<char>
    decreases n,
{
    if n == 0 || n > pool.len() {
        Seq::empty()
    } else {
        strings_asm(pool, (n - 1) as nat) + string_asm((n - 1) as nat, pool[n - 1])
    }
}

/// The reservation of one named static-memory region.
pub open spec fn mem_asm(m: (Seq<char>, nat)) -> Seq<char> {
    MEM_PRE@ + m.0 + MEM_MID@ + decimal(m.1) + NL@
}

/// The reservations of a table of named static-memory regions.
pub open spec fn mems_asm(mems: Seq<(Seq<char>, nat)>) -> Seq<char>
    decreases mems.len(),
{
    if mems.len() == 0 {
        Seq::empty()
    } else {
        mems_asm(mems.drop_last()) + mem_asm(mems.last())
    }
}

/// The whole assembly unit: entry code, the code of each instruction, the
/// string data and the reserved regions.
pub open spec fn asm_unit(
    ops: Seq<OpV>,
    pool: Seq<Seq<u8>>,
    mems: Seq<(Seq<char>, nat)>,
) -> Seq<char> {
    HEADER@ + ops_asm(ops, pool) + DATA_SECTION@ + strings_asm(pool, pool.len()) + BSS_SECTION@
        + mems_asm(mems)
}

pub open spec fn pool_view(strings: Seq<Vec<u8>>) -> Seq<Seq<u8>> {
    strings.map_values(|s: Vec<u8>| s@)
}

pub open spec fn mems_view(mems: Seq<(Vec<char>, usize)>) -> Seq<(Seq<char>, nat)> {
    mems.map_values(|m: (Vec<char>, usize)| (m.0@, m.1 as nat))
}

/// Every string reference of `ops` names an entry of a pool of `n` strings.
pub open spec fn strings_in_range(ops: Seq<OpV>, n: nat) -> bool {
    forall|k: int| 0 <= k < ops.len() ==> (#[trigger] ops[k] matches OpV::PushStr(i) ==> i < n)
}

fn write_op(out: &mut Vec<char>, op: &Op, strings: &Vec<Vec<u8>>)
    requires
        op@ matches OpV::PushStr(i) ==> i < strings@.len(),
    ensures
        final(out)@ == old(out)@ + op_asm(op@, pool_view(strings@)),
{
    match op {
        Op::Drop => put_str(out, DROP_ASM),
        Op::Dup => put_str(out, DUP_ASM),
        Op::Swap => put_str(out, SWAP_ASM),
        Op::Over => put_str(out, OVER_ASM),
        Op::ReadU8 => put_str(out, READ_U8_ASM),
        Op::WriteU8 => put_str(out, WRITE_U8_ASM),
        Op::ReadU64 => put_str(out, READ_U64_ASM),
        Op::WriteU64 => put_str(out, WRITE_U64_ASM),
        Op::Print => put_str(out, PRINT_ASM),
        Op::PutC => put_str(out, PUT_C_ASM),
        Op::Syscall0 => put_str(out, SYSCALL0_ASM),
        Op::Syscall1 => put_str(out, SYSCALL1_ASM),
        Op::Syscall2 => put_str(out, SYSCALL2_ASM),
        Op::Syscall3 => put_str(out, SYSCALL3_ASM),
        Op::Syscall4 => put_str(out, SYSCALL4_ASM),
        Op::Syscall5 => put_str(out, SYSCALL5_ASM),
        Op::Syscall6 => put_str(out, SYSCALL6_ASM),
        Op::Argc => put_str(out, ARGC_ASM),
        Op::Argv => put_str(out, ARGV_ASM),
        Op::Add => put_str(out, ADD_ASM),
        Op::Sub => put_str(out, SUB_ASM),
        Op::Divmod => put_str(out, DIVMOD_ASM),
        Op::Mul => put_str(out, MUL_ASM),
        Op::Eq => put_str(out, EQ_ASM),
        Op::Ne => put_str(out, NE_ASM),
        Op::Lt => put_str(out, LT_ASM),
        Op::Le => put_str(out, LE_ASM),
        Op::Gt => put_str(out, GT_ASM),
        Op::Ge => put_str(out, GE_ASM),
        Op::Bind => put_str(out, BIND_ASM),
        Op::Unbind => put_str(out, UNBIND_ASM),
        Op::Return => put_str(out, RETURN_ASM),
        Op::Exit => put_str(out, EXIT_ASM),
        Op::Dump => put_str(out, DUMP_ASM),
        Op::Push(x) => {
            put_str(out, PUSH_PRE);
            put_decimal(out, imm(x));
            put_str(out, PUSH_POST);
        },
        Op::PushMem(x) => {
            put_str(out, PUSH_MEM_PRE);
            put_chars(out, x);
            put_str(out, NL);
        },
        Op::ReserveEscaping(x) => {
            put_str(out, RESERVE_ESCAPING_PRE);
            put_decimal(out, *x as u64);
            put_str(out, RESERVE_ESCAPING_POST);
        },
        Op::PushEscaping(x) => {
            put_str(out, PUSH_ESCAPING_PRE);
            put_decimal(out, *x as u64);
            put_str(out, PUSH_ESCAPING_POST);
        },
        Op::ReserveLocals(x) => {
            put_str(out, RESERVE_LOCALS_PRE);
            put_decimal(out, *x as u64);
            put_str(out, RESERVE_LOCALS_POST);
        },
        Op::FreeLocals(x) => {
            put_str(out, FREE_LOCALS_PRE);
            put_decimal(out, *x as u64);
            put_str(out, FREE_LOCALS_POST);
        },
        Op::PushLvar(x) => {
            put_str(out, PUSH_LVAR_PRE);
            put_decimal(out, *x as u64);
            put_str(out, PUSH_LVAR_POST);
        },
        Op::UseBinding(x) => {
            put_str(out, USE_BINDING_PRE);
            put_decimal(out, *x as u64);
            put_str(out, USE_BINDING_POST);
        },
        Op::Proc(x) => {
            put_chars(out, x);
            put_str(out, PROC_POST);
        },
        Op::Label(x) => {
            put_chars(out, x);
            put_str(out, LABEL_POST);
        },
        Op::JumpF(x) => {
            put_str(out, JUMP_F_PRE);
            put_chars(out, x);
            put_str(out, NL);
        },
        Op::Jump(x) => {
            put_str(out, JUMP_PRE);
            put_chars(out, x);
            put_str(out, NL);
        },
        Op::Call(x) => {
            put_str(out, CALL_PRE);
            put_chars(out, x);
            put_str(out, NL);
        },
        Op::PushStr(i) => {
            put_str(out, PUSH_STR_PRE);
            put_decimal(out, strings[*i].len() as u64);
            put_str(out, PUSH_STR_MID);
            put_decimal(out, *i as u64);
            put_str(out, NL);
        },
    }
    assert(out@ =~= old(out)@ + op_asm(op@, pool_view(strings@)));
}

fn write_byte_list(out: &mut Vec<char>, b: &Vec<u8>)
    ensures
        final(out)@ == old(out)@ + byte_list(b@),
{
    let mut i: usize = 0;
    while i < b.len()
        invariant
            i <= b@.len(),
            out@ == old(out)@ + byte_list(b@.subrange(0, i as int)),
        decreases b@.len() - i,
    {
        if i > 0 {
            put_str(out, COMMA);
        }
        put_decimal(out, b[i] as u64);
        proof {
            let s = b@.subrange(0, i + 1);
            assert(s.drop_last() =~= b@.subrange(0, i as int));
        }
        i = i + 1;
        assert(out@ =~= old(out)@ + byte_list(b@.subrange(0, i as int)));
    }
    assert(b@.subrange(0, b@.len() as int) =~= b@);
}

/// Writes the assembly unit for `ops`, with the string pool `strings` and
/// the static-memory table `mems` (name and size in bytes of each region).
pub fn compile(ops: &Vec<Op>, strings: &Vec<Vec<u8>>, mems: &Vec<(Vec<char>, usize)>) -> (r: Vec<char>)
    requires
        strings_in_range(ops_view(ops@), strings@.len()),
    ensures
        r@ == asm_unit(ops_view(ops@), pool_view(strings@), mems_view(mems@)),
{
    let ghost pool = pool_view(strings@);
    let mut out: Vec<char> = Vec::new();
    put_str(&mut out, HEADER);
    let ghost start = out@;
    let mut i: usize = 0;
    while i < ops.len()
        invariant
            i <= ops@.len(),
            strings_in_range(ops_view(ops@), strings@.len()),
            pool == pool_view(strings@),
            out@ == start + ops_asm(ops_view(ops@).subrange(0, i as int), pool),
        decreases ops@.len() - i,
    {
        assert(ops_view(ops@)[i as int] == ops@[i as int]@);
        write_op(&mut out, &ops[i], strings);
        proof {
            let s = ops_view(ops@).subrange(0, i + 1);
            assert(s.drop_last() =~= ops_view(ops@).subrange(0, i as int));
        }
        i = i + 1;
        assert(out@ =~= start + ops_asm(ops_view(ops@).subrange(0, i as int), pool));
    }
    assert(ops_view(ops@).subrange(0, ops@.len() as int) =~= ops_view(ops@));
    put_str(&mut out, DATA_SECTION);
    let ghost code = out@;
    let mut j: usize = 0;
    while j < strings.len()
        invariant
            j <= strings@.len(),
            pool == pool_view(strings@),
            out@ == code + strings_asm(pool, j as nat),
        decreases strings@.len() - j,
    {
        put_str(&mut out, STR_PRE);
        put_decimal(&mut out, j as u64);
        put_str(&mut out, STR_MID);
        write_byte_list(&mut out, &strings[j]);
        put_str(&mut out, NL);
        j = j + 1;
        assert(out@ =~= code + strings_asm(pool, j as nat));
    }
    put_str(&mut out, BSS_SECTION);
    let ghost data = out@;
    let ghost mv = mems_view(mems@);
    let mut k: usize = 0;
    while k < mems.len()
        invariant
            k <= mems@.len(),
            mv == mems_view(mems@),
            out@ == data + mems_asm(mv.subrange(0, k as int)),
        decreases mems@.len() - k,
    {
        put_str(&mut out, MEM_PRE);
        put_chars(&mut out, &mems[k].0);
        put_str(&mut out, MEM_MID);
        put_decimal(&mut out, mems[k].1 as u64);
        put_str(&mut out, NL);
        proof {
            let s = mv.subrange(0, k + 1);
            assert(s.drop_last() =~= mv.subrange(0, k as int));
        }
        k = k + 1;
        assert(out@ =~= data + mems_asm(mv.subrange(0, k as int)));
    }
    assert(mv.subrange(0, mems@.len() as int) =~= mv);
    assert(out@ =~= asm_unit(ops_view(ops@), pool, mv));
    out
}

} // verus!
