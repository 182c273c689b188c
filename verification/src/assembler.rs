//! The two-pass assembler: assembly text to bytecode. The first pass records
//! the byte offset of every label, the second encodes the instructions.
use vstd::prelude::*;
use crate::isa::{Op, spec_encode, op_size, lemma_encode_len, encode_all, lemma_encode_all_push};
use crate::text::{
    index_of, trim, trim_start, trim_end, upper, upper_char, ascii_upper, is_ws, strip_cr, words, lines, decimal, parse_i64, parse_unsigned, views, find_char,
    trim_bounds, to_upper, split_words, split_lines, chars_of, chars_eq, chars_eq_str, read_i64,
    read_u8, read_u32, push_decimal, push_chars, append_chars,
};

verus! {

/// The byte order mark that an editor may put at the start of a file.
pub const BOM: char = '\u{FEFF}';

/// `s` without its leading byte order marks.
pub open spec fn strip_bom(s: Seq<char>) -> Seq<char>
    decreases s.len(),
{
    if s.len() > 0 && s[0] == BOM {
        strip_bom(s.drop_first())
    } else {
        s
    }
}

/// The part of a line that holds code: what comes before the first `;`,
/// trimmed.
pub open spec fn code_part(line: Seq<char>) -> Seq<char> {
    trim(line.take(index_of(line, ';') as int))
}

/// `s` without its trailing colons.
pub open spec fn trim_colons(s: Seq<char>) -> Seq<char>
    decreases s.len(),
{
    if s.len() > 0 && s.last() == ':' {
        trim_colons(s.drop_last())
    } else {
        s
    }
}

/// The number of bytes the first pass counts for an instruction line whose
/// first word is `word`.
pub open spec fn counted_size(word: Seq<char>) -> nat {
    if word == "PUSH"@ {
        9
    } else if is_jump(word) {
        5
    } else if word == "LOAD"@ || word == "STORE"@ {
        2
    } else {
        1
    }
}

/// A label table: names (in upper case) with their byte offsets, in the order
/// the labels were defined.
pub type LabelTable = Seq<(Seq<char>, nat)>;

/// The first pass over one line: a label line (code ending in `:`) records
/// its name, in upper case, at the current offset; an instruction line moves
/// the offset on by the size its uppercased first word names.
pub open spec fn label_step(table: LabelTable, offset: nat, line: Seq<char>) -> (LabelTable, nat) {
    let t = code_part(line);
    if t.len() == 0 {
        (table, offset)
    } else if t.last() == ':' {
        (table.push((upper(trim_colons(t)), offset)), offset)
    } else {
        let ws = words(upper(t));
        if ws.len() == 0 {
            (table, offset)
        } else {
            (table, offset + counted_size(ws[0]))
        }
    }
}

/// The first pass over lines: the label table and the offset after them.
pub open spec fn spec_collect(lines: Seq<Seq<char>>) -> (LabelTable, nat)
    decreases lines.len(),
{
    if lines.len() == 0 {
        (seq![], 0)
    } else {
        let (table, offset) = spec_collect(lines.drop_last());
        label_step(table, offset, lines.last())
    }
}

/// The offset of a label: that of its last definition.
pub open spec fn lookup(table: LabelTable, name: Seq<char>) -> Option<nat>
    decreases table.len(),
{
    if table.len() == 0 {
        None
    } else if table.last().0 == name {
        Some(table.last().1)
    } else {
        lookup(table.drop_last(), name)
    }
}

/// A name is found in a label table exactly when some entry has that very
/// name (no prefix or other near match), and then with the offset of the last
/// such entry.
pub proof fn lemma_lookup_exact(table: LabelTable, name: Seq<char>)
    ensures
        lookup(table, name) is None <==> forall|i: int| 0 <= i < table.len() ==> #[trigger] table[i].0 != name,
        lookup(table, name) matches Some(o) ==> exists|i: int| {
            &&& 0 <= i < table.len()
            &&& #[trigger] table[i] == (name, o)
            &&& forall|j: int| i < j < table.len() ==> #[trigger] table[j].0 != name
        },
    decreases table.len(),
{
    if table.len() > 0 {
        let init = table.drop_last();
        lemma_lookup_exact(init, name);
        let k = table.len() - 1;
        if table.last().0 == name {
            let o = table.last().1;
            assert(table[k] == (name, o));
        } else {
            assert forall|i: int| 0 <= i < init.len() implies #[trigger] table[i] == init[i] by {}
            if let Some(o) = lookup(init, name) {
                let i = choose|i: int| {
                    &&& 0 <= i < init.len()
                    &&& #[trigger] init[i] == (name, o)
                    &&& forall|j: int| i < j < init.len() ==> #[trigger] init[j].0 != name
                };
                assert(table[i] == (name, o));
                assert forall|j: int| i < j < table.len() implies #[trigger] table[j].0 != name by {
                    if j < k {
                        assert(table[j] == init[j]);
                    }
                }
            }
            if lookup(init, name) is None {
                assert forall|i: int| 0 <= i < table.len() implies #[trigger] table[i].0 != name by {
                    if i < k {
                        assert(table[i] == init[i]);
                    }
                }
            }
            if exists|i: int| 0 <= i < table.len() && #[trigger] table[i].0 == name {
                let i = choose|i: int| 0 <= i < table.len() && #[trigger] table[i].0 == name;
                assert(i < k);
                assert(init[i].0 == name);
            }
        }
    }
}

/// The mnemonics: each names its instruction (`ADD` is `Add`, `SUB` is
/// `Sub`, and so on), `JMP`, `JZ`, `JNZ` and `CALL` name the instructions with
/// a target, and the first pass counts 9 bytes for `PUSH`, 5 for those with a
/// target, 2 for `LOAD` and `STORE` and 1 for the others.
pub proof fn lemma_mnemonics(addr: u32)
    ensures
        plain_op("HALT"@) == Some(Op::Halt),
        plain_op("POP"@) == Some(Op::Pop),
        plain_op("ADD"@) == Some(Op::Add),
        plain_op("SUB"@) == Some(Op::Sub),
        plain_op("MUL"@) == Some(Op::Mul),
        plain_op("DIV"@) == Some(Op::Div),
        plain_op("MOD"@) == Some(Op::Mod),
        plain_op("NEG"@) == Some(Op::Neg),
        plain_op("DUP"@) == Some(Op::Dup),
        plain_op("SWAP"@) == Some(Op::Swap),
        plain_op("PRINT"@) == Some(Op::Print),
        plain_op("EQ"@) == Some(Op::Eq),
        plain_op("LT"@) == Some(Op::Lt),
        plain_op("GT"@) == Some(Op::Gt),
        plain_op("RET"@) == Some(Op::Ret),
        jump_op("JMP"@, addr) == Op::Jmp(addr),
        jump_op("JZ"@, addr) == Op::Jz(addr),
        jump_op("JNZ"@, addr) == Op::Jnz(addr),
        jump_op("CALL"@, addr) == Op::Call(addr),
        is_jump("JMP"@) && is_jump("JZ"@) && is_jump("JNZ"@) && is_jump("CALL"@),
        counted_size("PUSH"@) == 9,
        counted_size("JMP"@) == 5 && counted_size("JZ"@) == 5 && counted_size("JNZ"@) == 5 && counted_size("CALL"@) == 5,
        counted_size("LOAD"@) == 2 && counted_size("STORE"@) == 2,
        counted_size("ADD"@) == 1 && counted_size("HALT"@) == 1,
{
    assert(plain_op("HALT"@) == Some(Op::Halt)) by {
        reveal_strlit("HALT");
    }
    assert(plain_op("POP"@) == Some(Op::Pop)) by {
        reveal_strlit("POP");
        reveal_strlit("HALT");
        assert("POP"@.len() != "HALT"@.len());
        assert("POP"@ != "HALT"@);
    }
    assert(plain_op("ADD"@) == Some(Op::Add)) by {
        reveal_strlit("ADD");
        reveal_strlit("HALT");
        assert("ADD"@.len() != "HALT"@.len());
        assert("ADD"@ != "HALT"@);
        reveal_strlit("POP");
        assert("ADD"@[0] != "POP"@[0]);
        assert("ADD"@ != "POP"@);
    }
    assert(plain_op("SUB"@) == Some(Op::Sub)) by {
        reveal_strlit("SUB");
        reveal_strlit("HALT");
        assert("SUB"@.len() != "HALT"@.len());
        assert("SUB"@ != "HALT"@);
        reveal_strlit("POP");
        assert("SUB"@[0] != "POP"@[0]);
        assert("SUB"@ != "POP"@);
        reveal_strlit("ADD");
        assert("SUB"@[0] != "ADD"@[0]);
        assert("SUB"@ != "ADD"@);
    }
    assert(plain_op("MUL"@) == Some(Op::Mul)) by {
        reveal_strlit("MUL");
        reveal_strlit("HALT");
        assert("MUL"@.len() != "HALT"@.len());
        assert("MUL"@ != "HALT"@);
        reveal_strlit("POP");
        assert("MUL"@[0] != "POP"@[0]);
        assert("MUL"@ != "POP"@);
        reveal_strlit("ADD");
        assert("MUL"@[0] != "ADD"@[0]);
        assert("MUL"@ != "ADD"@);
        reveal_strlit("SUB");
        assert("MUL"@[0] != "SUB"@[0]);
        assert("MUL"@ != "SUB"@);
    }
    assert(plain_op("DIV"@) == Some(Op::Div)) by {
        reveal_strlit("DIV");
        reveal_strlit("HALT");
        assert("DIV"@.len() != "HALT"@.len());
        assert("DIV"@ != "HALT"@);
        reveal_strlit("POP");
        assert("DIV"@[0] != "POP"@[0]);
        assert("DIV"@ != "POP"@);
        reveal_strlit("ADD");
        assert("DIV"@[0] != "ADD"@[0]);
        assert("DIV"@ != "ADD"@);
        reveal_strlit("SUB");
        assert("DIV"@[0] != "SUB"@[0]);
        assert("DIV"@ != "SUB"@);
        reveal_strlit("MUL");
        assert("DIV"@[0] != "MUL"@[0]);
        assert("DIV"@ != "MUL"@);
    }
    assert(plain_op("MOD"@) == Some(Op::Mod)) by {
        reveal_strlit("MOD");
        reveal_strlit("HALT");
        assert("MOD"@.len() != "HALT"@.len());
        assert("MOD"@ != "HALT"@);
        reveal_strlit("POP");
        assert("MOD"@[0] != "POP"@[0]);
        assert("MOD"@ != "POP"@);
        reveal_strlit("ADD");
        assert("MOD"@[0] != "ADD"@[0]);
        assert("MOD"@ != "ADD"@);
        reveal_strlit("SUB");
        assert("MOD"@[0] != "SUB"@[0]);
        assert("MOD"@ != "SUB"@);
        reveal_strlit("MUL");
        assert("MOD"@[1] != "MUL"@[1]);
        assert("MOD"@ != "MUL"@);
        reveal_strlit("DIV");
        assert("MOD"@[0] != "DIV"@[0]);
        assert("MOD"@ != "DIV"@);
    }
    assert(plain_op("NEG"@) == Some(Op::Neg)) by {
        reveal_strlit("NEG");
        reveal_strlit("HALT");
        assert("NEG"@.len() != "HALT"@.len());
        assert("NEG"@ != "HALT"@);
        reveal_strlit("POP");
        assert("NEG"@[0] != "POP"@[0]);
        assert("NEG"@ != "POP"@);
        reveal_strlit("ADD");
        assert("NEG"@[0] != "ADD"@[0]);
        assert("NEG"@ != "ADD"@);
        reveal_strlit("SUB");
        assert("NEG"@[0] != "SUB"@[0]);
        assert("NEG"@ != "SUB"@);
        reveal_strlit("MUL");
        assert("NEG"@[0] != "MUL"@[0]);
        assert("NEG"@ != "MUL"@);
        reveal_strlit("DIV");
        assert("NEG"@[0] != "DIV"@[0]);
        assert("NEG"@ != "DIV"@);
        reveal_strlit("MOD");
        assert("NEG"@[0] != "MOD"@[0]);
        assert("NEG"@ != "MOD"@);
    }
    assert(plain_op("DUP"@) == Some(Op::Dup)) by {
        reveal_strlit("DUP");
        reveal_strlit("HALT");
        assert("DUP"@.len() != "HALT"@.len());
        assert("DUP"@ != "HALT"@);
        reveal_strlit("POP");
        assert("DUP"@[0] != "POP"@[0]);
        assert("DUP"@ != "POP"@);
        reveal_strlit("ADD");
        assert("DUP"@[0] != "ADD"@[0]);
        assert("DUP"@ != "ADD"@);
        reveal_strlit("SUB");
        assert("DUP"@[0] != "SUB"@[0]);
        assert("DUP"@ != "SUB"@);
        reveal_strlit("MUL");
        assert("DUP"@[0] != "MUL"@[0]);
        assert("DUP"@ != "MUL"@);
        reveal_strlit("DIV");
        assert("DUP"@[1] != "DIV"@[1]);
        assert("DUP"@ != "DIV"@);
        reveal_strlit("MOD");
        assert("DUP"@[0] != "MOD"@[0]);
        assert("DUP"@ != "MOD"@);
        reveal_strlit("NEG");
        assert("DUP"@[0] != "NEG"@[0]);
        assert("DUP"@ != "NEG"@);
    }
    assert(plain_op("SWAP"@) == Some(Op::Swap)) by {
        reveal_strlit("SWAP");
        reveal_strlit("HALT");
        assert("SWAP"@[0] != "HALT"@[0]);
        assert("SWAP"@ != "HALT"@);
        reveal_strlit("POP");
        assert("SWAP"@.len() != "POP"@.len());
        assert("SWAP"@ != "POP"@);
        reveal_strlit("ADD");
        assert("SWAP"@.len() != "ADD"@.len());
        assert("SWAP"@ != "ADD"@);
        reveal_strlit("SUB");
        assert("SWAP"@.len() != "SUB"@.len());
        assert("SWAP"@ != "SUB"@);
        reveal_strlit("MUL");
        assert("SWAP"@.len() != "MUL"@.len());
        assert("SWAP"@ != "MUL"@);
        reveal_strlit("DIV");
        assert("SWAP"@.len() != "DIV"@.len());
        assert("SWAP"@ != "DIV"@);
        reveal_strlit("MOD");
        assert("SWAP"@.len() != "MOD"@.len());
        assert("SWAP"@ != "MOD"@);
        reveal_strlit("NEG");
        assert("SWAP"@.len() != "NEG"@.len());
        assert("SWAP"@ != "NEG"@);
        reveal_strlit("DUP");
        assert("SWAP"@.len() != "DUP"@.len());
        assert("SWAP"@ != "DUP"@);
    }
    assert(plain_op("PRINT"@) == Some(Op::Print)) by {
        reveal_strlit("PRINT");
        reveal_strlit("HALT");
        assert("PRINT"@.len() != "HALT"@.len());
        assert("PRINT"@ != "HALT"@);
        reveal_strlit("POP");
        assert("PRINT"@.len() != "POP"@.len());
        assert("PRINT"@ != "POP"@);
        reveal_strlit("ADD");
        assert("PRINT"@.len() != "ADD"@.len());
        assert("PRINT"@ != "ADD"@);
        reveal_strlit("SUB");
        assert("PRINT"@.len() != "SUB"@.len());
        assert("PRINT"@ != "SUB"@);
        reveal_strlit("MUL");
        assert("PRINT"@.len() != "MUL"@.len());
        assert("PRINT"@ != "MUL"@);
        reveal_strlit("DIV");
        assert("PRINT"@.len() != "DIV"@.len());
        assert("PRINT"@ != "DIV"@);
        reveal_strlit("MOD");
        assert("PRINT"@.len() != "MOD"@.len());
        assert("PRINT"@ != "MOD"@);
        reveal_strlit("NEG");
        assert("PRINT"@.len() != "NEG"@.len());
        assert("PRINT"@ != "NEG"@);
        reveal_strlit("DUP");
        assert("PRINT"@.len() != "DUP"@.len());
        assert("PRINT"@ != "DUP"@);
        reveal_strlit("SWAP");
        assert("PRINT"@.len() != "SWAP"@.len());
        assert("PRINT"@ != "SWAP"@);
    }
    assert(plain_op("EQ"@) == Some(Op::Eq)) by {
        reveal_strlit("EQ");
        reveal_strlit("HALT");
        assert("EQ"@.len() != "HALT"@.len());
        assert("EQ"@ != "HALT"@);
        reveal_strlit("POP");
        assert("EQ"@.len() != "POP"@.len());
        assert("EQ"@ != "POP"@);
        reveal_strlit("ADD");
        assert("EQ"@.len() != "ADD"@.len());
        assert("EQ"@ != "ADD"@);
        reveal_strlit("SUB");
        assert("EQ"@.len() != "SUB"@.len());
        assert("EQ"@ != "SUB"@);
        reveal_strlit("MUL");
        assert("EQ"@.len() != "MUL"@.len());
        assert("EQ"@ != "MUL"@);
        reveal_strlit("DIV");
        assert("EQ"@.len() != "DIV"@.len());
        assert("EQ"@ != "DIV"@);
        reveal_strlit("MOD");
        assert("EQ"@.len() != "MOD"@.len());
        assert("EQ"@ != "MOD"@);
        reveal_strlit("NEG");
        assert("EQ"@.len() != "NEG"@.len());
        assert("EQ"@ != "NEG"@);
        reveal_strlit("DUP");
        assert("EQ"@.len() != "DUP"@.len());
        assert("EQ"@ != "DUP"@);
        reveal_strlit("SWAP");
        assert("EQ"@.len() != "SWAP"@.len());
        assert("EQ"@ != "SWAP"@);
        reveal_strlit("PRINT");
        assert("EQ"@.len() != "PRINT"@.len());
        assert("EQ"@ != "PRINT"@);
    }
    assert(plain_op("LT"@) == Some(Op::Lt)) by {
        reveal_strlit("LT");
        reveal_strlit("HALT");
        assert("LT"@.len() != "HALT"@.len());
        assert("LT"@ != "HALT"@);
        reveal_strlit("POP");
        assert("LT"@.len() != "POP"@.len());
        assert("LT"@ != "POP"@);
        reveal_strlit("ADD");
        assert("LT"@.len() != "ADD"@.len());
        assert("LT"@ != "ADD"@);
        reveal_strlit("SUB");
        assert("LT"@.len() != "SUB"@.len());
        assert("LT"@ != "SUB"@);
        reveal_strlit("MUL");
        assert("LT"@.len() != "MUL"@.len());
        assert("LT"@ != "MUL"@);
        reveal_strlit("DIV");
        assert("LT"@.len() != "DIV"@.len());
        assert("LT"@ != "DIV"@);
        reveal_strlit("MOD");
        assert("LT"@.len() != "MOD"@.len());
        assert("LT"@ != "MOD"@);
        reveal_strlit("NEG");
        assert("LT"@.len() != "NEG"@.len());
        assert("LT"@ != "NEG"@);
        reveal_strlit("DUP");
        assert("LT"@.len() != "DUP"@.len());
        assert("LT"@ != "DUP"@);
        reveal_strlit("SWAP");
        assert("LT"@.len() != "SWAP"@.len());
        assert("LT"@ != "SWAP"@);
        reveal_strlit("PRINT");
        assert("LT"@.len() != "PRINT"@.len());
        assert("LT"@ != "PRINT"@);
        reveal_strlit("EQ");
        assert("LT"@[0] != "EQ"@[0]);
        assert("LT"@ != "EQ"@);
    }
    assert(plain_op("GT"@) == Some(Op::Gt)) by {
        reveal_strlit("GT");
        reveal_strlit("HALT");
        assert("GT"@.len() != "HALT"@.len());
        assert("GT"@ != "HALT"@);
        reveal_strlit("POP");
        assert("GT"@.len() != "POP"@.len());
        assert("GT"@ != "POP"@);
        reveal_strlit("ADD");
        assert("GT"@.len() != "ADD"@.len());
        assert("GT"@ != "ADD"@);
        reveal_strlit("SUB");
        assert("GT"@.len() != "SUB"@.len());
        assert("GT"@ != "SUB"@);
        reveal_strlit("MUL");
        assert("GT"@.len() != "MUL"@.len());
        assert("GT"@ != "MUL"@);
        reveal_strlit("DIV");
        assert("GT"@.len() != "DIV"@.len());
        assert("GT"@ != "DIV"@);
        reveal_strlit("MOD");
        assert("GT"@.len() != "MOD"@.len());
        assert("GT"@ != "MOD"@);
        reveal_strlit("NEG");
        assert("GT"@.len() != "NEG"@.len());
        assert("GT"@ != "NEG"@);
        reveal_strlit("DUP");
        assert("GT"@.len() != "DUP"@.len());
        assert("GT"@ != "DUP"@);
        reveal_strlit("SWAP");
        assert("GT"@.len() != "SWAP"@.len());
        assert("GT"@ != "SWAP"@);
        reveal_strlit("PRINT");
        assert("GT"@.len() != "PRINT"@.len());
        assert("GT"@ != "PRINT"@);
        reveal_strlit("EQ");
        assert("GT"@[0] != "EQ"@[0]);
        assert("GT"@ != "EQ"@);
        reveal_strlit("LT");
        assert("GT"@[0] != "LT"@[0]);
        assert("GT"@ != "LT"@);
    }
    assert(plain_op("RET"@) == Some(Op::Ret)) by {
        reveal_strlit("RET");
        reveal_strlit("HALT");
        assert("RET"@.len() != "HALT"@.len());
        assert("RET"@ != "HALT"@);
        reveal_strlit("POP");
        assert("RET"@[0] != "POP"@[0]);
        assert("RET"@ != "POP"@);
        reveal_strlit("ADD");
        assert("RET"@[0] != "ADD"@[0]);
        assert("RET"@ != "ADD"@);
        reveal_strlit("SUB");
        assert("RET"@[0] != "SUB"@[0]);
        assert("RET"@ != "SUB"@);
        reveal_strlit("MUL");
        assert("RET"@[0] != "MUL"@[0]);
        assert("RET"@ != "MUL"@);
        reveal_strlit("DIV");
        assert("RET"@[0] != "DIV"@[0]);
        assert("RET"@ != "DIV"@);
        reveal_strlit("MOD");
        assert("RET"@[0] != "MOD"@[0]);
        assert("RET"@ != "MOD"@);
        reveal_strlit("NEG");
        assert("RET"@[0] != "NEG"@[0]);
        assert("RET"@ != "NEG"@);
        reveal_strlit("DUP");
        assert("RET"@[0] != "DUP"@[0]);
        assert("RET"@ != "DUP"@);
        reveal_strlit("SWAP");
        assert("RET"@.len() != "SWAP"@.len());
        assert("RET"@ != "SWAP"@);
        reveal_strlit("PRINT");
        assert("RET"@.len() != "PRINT"@.len());
        assert("RET"@ != "PRINT"@);
        reveal_strlit("EQ");
        assert("RET"@.len() != "EQ"@.len());
        assert("RET"@ != "EQ"@);
        reveal_strlit("LT");
        assert("RET"@.len() != "LT"@.len());
        assert("RET"@ != "LT"@);
        reveal_strlit("GT");
        assert("RET"@.len() != "GT"@.len());
        assert("RET"@ != "GT"@);
    }
    reveal_strlit("JMP");
    reveal_strlit("JZ");
    reveal_strlit("JNZ");
    reveal_strlit("CALL");
    reveal_strlit("PUSH");
    reveal_strlit("LOAD");
    reveal_strlit("STORE");
    reveal_strlit("ADD");
    reveal_strlit("HALT");
    assert("JZ"@.len() != "JMP"@.len());
    assert("JNZ"@[1] != "JMP"@[1]);
    assert("CALL"@[0] != "PUSH"@[0]);
    assert("ADD"@[0] != "JMP"@[0]);
    assert("HALT"@[0] != "PUSH"@[0] && "HALT"@[0] != "CALL"@[0] && "HALT"@[0] != "LOAD"@[0]);
}

/// An error message about line `n`.
pub open spec fn line_error(n: nat, what: Seq<char>) -> Seq<char> {
    "Line "@ + decimal(n) + what
}

/// An error message about line `n` that quotes `token`.
pub open spec fn quoting_error(n: nat, what: Seq<char>, token: Seq<char>) -> Seq<char> {
    line_error(n, what) + token + "'"@
}

/// Whether a mnemonic names an instruction that takes a target address.
pub open spec fn is_jump(m: Seq<char>) -> bool {
    m == "JMP"@ || m == "JZ"@ || m == "JNZ"@ || m == "CALL"@
}

/// The instruction with a target that a mnemonic names, with its target.
pub open spec fn jump_op(m: Seq<char>, addr: u32) -> Op {
    if m == "JMP"@ {
        Op::Jmp(addr)
    } else if m == "JZ"@ {
        Op::Jz(addr)
    } else if m == "JNZ"@ {
        Op::Jnz(addr)
    } else {
        Op::Call(addr)
    }
}

/// The instruction without operand a mnemonic names, if any.
pub open spec fn plain_op(m: Seq<char>) -> Option<Op> {
    if m == "HALT"@ {
        Some(Op::Halt)
    } else if m == "POP"@ {
        Some(Op::Pop)
    } else if m == "ADD"@ {
        Some(Op::Add)
    } else if m == "SUB"@ {
        Some(Op::Sub)
    } else if m == "MUL"@ {
        Some(Op::Mul)
    } else if m == "DIV"@ {
        Some(Op::Div)
    } else if m == "MOD"@ {
        Some(Op::Mod)
    } else if m == "NEG"@ {
        Some(Op::Neg)
    } else if m == "DUP"@ {
        Some(Op::Dup)
    } else if m == "SWAP"@ {
        Some(Op::Swap)
    } else if m == "PRINT"@ {
        Some(Op::Print)
    } else if m == "EQ"@ {
        Some(Op::Eq)
    } else if m == "LT"@ {
        Some(Op::Lt)
    } else if m == "GT"@ {
        Some(Op::Gt)
    } else if m == "RET"@ {
        Some(Op::Ret)
    } else {
        None
    }
}

/// The outcome of assembling line number `line_no` (from 0): nothing for an
/// empty or label line, the instruction it holds, or an error message. `None`
/// for a jump or call without operand: such a line has no defined outcome,
/// `assemble` does not accept a source that reaches one, and `try_assemble`
/// answers `None` for it.
pub open spec fn line_outcome(line: Seq<char>, line_no: nat, table: LabelTable) -> Option<Result<Option<Op>, Seq<char>>> {
    let t = code_part(line);
    let ws = words(upper(t));
    let n = line_no + 1;
    if ws.len() == 0 || (t.len() > 0 && t.last() == ':') {
        Some(Ok(None))
    } else {
        let m = ws[0];
        if m == "PUSH"@ {
            if ws.len() != 2 {
                Some(Err(line_error(n, ": PUSH requires an operand"@)))
            } else {
                match parse_i64(ws[1]) {
                    Some(v) => Some(Ok(Some(Op::Push(v)))),
                    None => Some(Err(quoting_error(n, ": invalid number '"@, ws[1]))),
                }
            }
        } else if m == "LOAD"@ || m == "STORE"@ {
            if ws.len() != 2 {
                Some(Err(line_error(n, if m == "LOAD"@ { ": LOAD requires an operand"@ } else { ": STORE requires an operand"@ })))
            } else {
                match parse_unsigned(ws[1], u8::MAX as nat) {
                    Some(v) => Some(Ok(Some(if m == "LOAD"@ { Op::Load(v as u8) } else { Op::Store(v as u8) }))),
                    None => Some(Err(quoting_error(n, ": invalid number '"@, ws[1]))),
                }
            }
        } else if is_jump(m) {
            if ws.len() < 2 {
                None
            } else {
                match parse_unsigned(ws[1], u32::MAX as nat) {
                    Some(a) => Some(Ok(Some(jump_op(m, a as u32)))),
                    None => match lookup(table, ws[1]) {
                        Some(offset) => Some(Ok(Some(jump_op(m, offset as u32)))),
                        None => Some(Err(quoting_error(n, ": undefined label '"@, ws[1]))),
                    },
                }
            }
        } else {
            match plain_op(m) {
                Some(op) => Some(Ok(Some(op))),
                None => Some(Err(quoting_error(n, ": unknown instruction '"@, m))),
            }
        }
    }
}

/// The second pass over the first `k` lines: the bytes and whether the last
/// instruction emitted is `HALT`, or the first error; `None` when a line has
/// no defined outcome (see `line_outcome`).
pub open spec fn assemble_lines(lines: Seq<Seq<char>>, table: LabelTable, k: nat) -> Option<Result<(Seq<u8>, bool), Seq<char>>>
    decreases k,
{
    if k == 0 {
        Some(Ok((seq![], false)))
    } else {
        match assemble_lines(lines, table, (k - 1) as nat) {
            Some(Ok((bytes, ends_with_halt))) => match line_outcome(lines[k - 1], (k - 1) as nat, table) {
                None => None,
                Some(Err(e)) => Some(Err(e)),
                Some(Ok(None)) => Some(Ok((bytes, ends_with_halt))),
                Some(Ok(Some(op))) => Some(Ok((bytes + spec_encode(op), op == Op::Halt))),
            },
            other => other,
        }
    }
}

/// The lines of a source text, its byte order marks removed.
pub open spec fn source_lines(source: Seq<char>) -> Seq<Seq<char>> {
    lines(strip_bom(source))
}

/// Assembling a source text: both passes over its lines.
pub open spec fn spec_assemble(source: Seq<char>) -> Option<Result<(Seq<u8>, bool), Seq<char>>> {
    let ls = source_lines(source);
    assemble_lines(ls, spec_collect(ls).0, ls.len())
}


/// The label table a vector of names and offsets holds.
pub open spec fn table_view(t: Seq<(Vec<char>, usize)>) -> LabelTable {
    t.map_values(|e: (Vec<char>, usize)| (e.0@, e.1 as nat))
}

proof fn lemma_table_push(t: Seq<(Vec<char>, usize)>, e: (Vec<char>, usize))
    ensures
        table_view(t.push(e)) == table_view(t).push((e.0@, e.1 as nat)),
{
    assert(table_view(t.push(e)) =~= table_view(t).push((e.0@, e.1 as nat)));
}

/// The number of byte order marks at the start of `s`.
fn bom_count(s: &[char]) -> (k: usize)
    ensures
        k <= s@.len(),
        s@.skip(k as int) == strip_bom(s@),
{
    let mut k: usize = 0;
    assert(s@.skip(0) == s@);
    while k < s.len() && s[k] == BOM
        invariant
            k <= s@.len(),
            strip_bom(s@) == strip_bom(s@.skip(k as int)),
        decreases s@.len() - k,
    {
        assert(s@.skip(k as int).drop_first() == s@.skip(k + 1));
        k = k + 1;
    }
    k
}

/// The code part of a line.
fn code_of(line: &[char]) -> (code: Vec<char>)
    ensures
        code@ == code_part(line@),
{
    let k = find_char(line, ';');
    let before = &line[0..k];
    let (a, b) = trim_bounds(before);
    let mut code: Vec<char> = Vec::new();
    append_chars(&mut code, &before[a..b]);
    code
}

/// The length of `t` without its trailing colons.
fn trim_colons_len(t: &[char]) -> (k: usize)
    ensures
        k <= t@.len(),
        t@.take(k as int) == trim_colons(t@),
{
    let mut k: usize = t.len();
    assert(t@.take(k as int) == t@);
    while k > 0 && t[k - 1] == ':'
        invariant
            k <= t@.len(),
            trim_colons(t@) == trim_colons(t@.take(k as int)),
        decreases k,
    {
        assert(t@.take(k as int).drop_last() == t@.take(k - 1));
        k = k - 1;
    }
    k
}

/// `is_jump` of a word.
fn is_jump_word(word: &[char]) -> (b: bool)
    ensures
        b == is_jump(word@),
{
    chars_eq_str(word, "JMP") || chars_eq_str(word, "JZ") || chars_eq_str(word, "JNZ") || chars_eq_str(
        word,
        "CALL",
    )
}

/// `counted_size` of a word.
fn counted_size_of(word: &[char]) -> (n: usize)
    ensures
        n == counted_size(word@),
{
    if chars_eq_str(word, "PUSH") {
        9
    } else if is_jump_word(word) {
        5
    } else if chars_eq_str(word, "LOAD") || chars_eq_str(word, "STORE") {
        2
    } else {
        1
    }
}

proof fn lemma_collect_offset(ls: Seq<Seq<char>>)
    ensures
        spec_collect(ls).1 <= 9 * ls.len(),
    decreases ls.len(),
{
    if ls.len() > 0 {
        lemma_collect_offset(ls.drop_last());
    }
}

/// The first pass over a sequence of lines.
fn collect_in(ls: &[Vec<char>]) -> (table: Vec<(Vec<char>, usize)>)
    requires
        9 * ls@.len() <= usize::MAX,
    ensures
        table_view(table@) == spec_collect(views(ls@)).0,
{
    let mut table: Vec<(Vec<char>, usize)> = Vec::new();
    let mut offset: usize = 0;
    let mut i: usize = 0;
    assert(views(ls@).take(0) == Seq::<Seq<char>>::empty());
    assert(table_view(table@) == Seq::<(Seq<char>, nat)>::empty());
    while i < ls.len()
        invariant
            i <= ls@.len(),
            9 * ls@.len() <= usize::MAX,
            spec_collect(views(ls@).take(i as int)) == (table_view(table@), offset as nat),
        decreases ls@.len() - i,
    {
        proof {
            lemma_collect_offset(views(ls@).take(i + 1));
            assert(views(ls@).take(i + 1).drop_last() == views(ls@).take(i as int));
            assert(views(ls@).take(i + 1).last() == ls@[i as int]@);
        }
        let t = code_of(&ls[i]);
        if t.len() == 0 {
        } else if t[t.len() - 1] == ':' {
            let k = trim_colons_len(&t);
            let name = to_upper(&t[0..k]);
            let ghost before = table@;
            table.push((name, offset));
            proof {
                lemma_table_push(before, table@.last());
            }
        } else {
            let u = to_upper(&t);
            let ws = split_words(&u);
            if ws.len() > 0 {
                assert(views(ws@)[0] == ws@[0]@);
                offset = offset + counted_size_of(&ws[0]);
            }
        }
        i = i + 1;
    }
    assert(views(ls@).take(i as int) == views(ls@));
    table
}

/// A text has no more lines than chars.
pub proof fn lemma_lines_len(s: Seq<char>)
    ensures
        lines(s).len() <= s.len(),
    decreases s.len(),
{
    if s.len() > 0 {
        let k = index_of(s, '\n');
        if k < s.len() {
            lemma_lines_len(s.skip(k + 1 as int));
        }
    }
}

/// The label table of a source text: every label in upper case with the byte
/// offset of the instruction that follows it, in order of definition.
pub fn collect_labels(source: &str) -> (table: Vec<(Vec<char>, usize)>)
    requires
        9 * source@.len() <= usize::MAX,
    ensures
        table_view(table@) == spec_collect(lines(source@)).0,
{
    let chars = chars_of(source);
    let ls = split_lines(&chars);
    proof {
        lemma_lines_len(source@);
    }
    collect_in(&ls)
}

/// The offset of a label in a table.
fn lookup_label(table: &Vec<(Vec<char>, usize)>, name: &[char]) -> (r: Option<usize>)
    ensures
        r matches Some(o) ==> lookup(table_view(table@), name@) == Some(o as nat),
        r is None ==> lookup(table_view(table@), name@) is None,
{
    let ghost tv = table_view(table@);
    let mut i: usize = table.len();
    assert(tv.take(i as int) == tv);
    while i > 0
        invariant
            i <= table@.len(),
            tv == table_view(table@),
            lookup(tv, name@) == lookup(tv.take(i as int), name@),
        decreases i,
    {
        assert(tv.take(i as int).drop_last() == tv.take(i - 1));
        assert(tv.take(i as int).last() == (table@[i - 1].0@, table@[i - 1].1 as nat));
        if chars_eq(&table[i - 1].0, name) {
            return Some(table[i - 1].1);
        }
        i = i - 1;
    }
    None
}

/// An error message about line `n`.
fn line_error_msg(n: usize, what: &str) -> (msg: String)
    ensures
        msg@ == line_error(n as nat, what@),
{
    let mut msg = String::new();
    msg.append("Line ");
    push_decimal(&mut msg, n as u64);
    msg.append(what);
    msg
}

/// An error message about line `n` that quotes `token`.
fn quoting_error_msg(n: usize, what: &str, token: &[char]) -> (msg: String)
    ensures
        msg@ == quoting_error(n as nat, what@, token@),
{
    let mut msg = line_error_msg(n, what);
    push_chars(&mut msg, token);
    msg.append("'");
    msg
}

/// The instruction without operand a mnemonic names, if any.
fn plain_op_of(m: &[char]) -> (r: Option<Op>)
    ensures
        r == plain_op(m@),
{
    if chars_eq_str(m, "HALT") {
        Some(Op::Halt)
    } else if chars_eq_str(m, "POP") {
        Some(Op::Pop)
    } else if chars_eq_str(m, "ADD") {
        Some(Op::Add)
    } else if chars_eq_str(m, "SUB") {
        Some(Op::Sub)
    } else if chars_eq_str(m, "MUL") {
        Some(Op::Mul)
    } else if chars_eq_str(m, "DIV") {
        Some(Op::Div)
    } else if chars_eq_str(m, "MOD") {
        Some(Op::Mod)
    } else if chars_eq_str(m, "NEG") {
        Some(Op::Neg)
    } else if chars_eq_str(m, "DUP") {
        Some(Op::Dup)
    } else if chars_eq_str(m, "SWAP") {
        Some(Op::Swap)
    } else if chars_eq_str(m, "PRINT") {
        Some(Op::Print)
    } else if chars_eq_str(m, "EQ") {
        Some(Op::Eq)
    } else if chars_eq_str(m, "LT") {
        Some(Op::Lt)
    } else if chars_eq_str(m, "GT") {
        Some(Op::Gt)
    } else if chars_eq_str(m, "RET") {
        Some(Op::Ret)
    } else {
        None
    }
}

/// The second pass over one line: `line_outcome`, with the error as a
/// `String`.
fn assemble_line(line: &[char], line_no: usize, table: &Vec<(Vec<char>, usize)>) -> (r: Option<Result<Option<Op>, String>>)
    requires
        line_no < usize::MAX,
    ensures
        match r {
            None => line_outcome(line@, line_no as nat, table_view(table@)) is None,
            Some(Ok(x)) => line_outcome(line@, line_no as nat, table_view(table@)) == Some(Ok::<Option<Op>, Seq<char>>(x)),
            Some(Err(e)) => line_outcome(line@, line_no as nat, table_view(table@)) == Some(Err::<Option<Op>, Seq<char>>(e@)),
        },
{
    let code = code_of(line);
    let u = to_upper(&code);
    let ws = split_words(&u);
    let n = line_no + 1;
    if ws.len() == 0 {
        return Some(Ok(None));
    }
    if code.len() > 0 && code[code.len() - 1] == ':' {
        return Some(Ok(None));
    }
    let ghost wv = views(ws@);
    assert(wv[0] == ws@[0]@);
    let m: &[char] = &ws[0];
    if chars_eq_str(m, "PUSH") {
        if ws.len() != 2 {
            return Some(Err(line_error_msg(n, ": PUSH requires an operand")));
        }
        assert(wv[1] == ws@[1]@);
        match read_i64(&ws[1]) {
            Some(v) => Some(Ok(Some(Op::Push(v)))),
            None => Some(Err(quoting_error_msg(n, ": invalid number '", &ws[1]))),
        }
    } else if chars_eq_str(m, "LOAD") || chars_eq_str(m, "STORE") {
        let is_load = chars_eq_str(m, "LOAD");
        if ws.len() != 2 {
            if is_load {
                return Some(Err(line_error_msg(n, ": LOAD requires an operand")));
            } else {
                return Some(Err(line_error_msg(n, ": STORE requires an operand")));
            }
        }
        assert(wv[1] == ws@[1]@);
        match read_u8(&ws[1]) {
            Some(v) => {
                if is_load {
                    Some(Ok(Some(Op::Load(v))))
                } else {
                    Some(Ok(Some(Op::Store(v))))
                }
            },
            None => Some(Err(quoting_error_msg(n, ": invalid number '", &ws[1]))),
        }
    } else if is_jump_word(m) {
        if ws.len() < 2 {
            return None;
        }
        assert(wv[1] == ws@[1]@);
        let addr: u32 = match read_u32(&ws[1]) {
            Some(a) => a,
            None => match lookup_label(table, &ws[1]) {
                Some(offset) => offset as u32,
                None => return Some(Err(quoting_error_msg(n, ": undefined label '", &ws[1]))),
            },
        };
        if chars_eq_str(m, "JMP") {
            Some(Ok(Some(Op::Jmp(addr))))
        } else if chars_eq_str(m, "JZ") {
            Some(Ok(Some(Op::Jz(addr))))
        } else if chars_eq_str(m, "JNZ") {
            Some(Ok(Some(Op::Jnz(addr))))
        } else {
            Some(Ok(Some(Op::Call(addr))))
        }
    } else {
        match plain_op_of(m) {
            Some(op) => Some(Ok(Some(op))),
            None => Some(Err(quoting_error_msg(n, ": unknown instruction '", m))),
        }
    }
}

/// Assembles a source text, telling also whether its last instruction is
/// `HALT` (a program must end with one). `None` when assembly reaches a jump
/// or call without operand, a line with no defined outcome.
pub fn try_assemble(source: &str) -> (r: Option<Result<(Vec<u8>, bool), String>>)
    requires
        9 * source@.len() <= usize::MAX,
    ensures
        match r {
            None => spec_assemble(source@) is None,
            Some(Ok((bytes, ends_with_halt))) => spec_assemble(source@) == Some(
                Ok::<(Seq<u8>, bool), Seq<char>>((bytes@, ends_with_halt)),
            ),
            Some(Err(e)) => spec_assemble(source@) == Some(Err::<(Seq<u8>, bool), Seq<char>>(e@)),
        },
{
    let chars = chars_of(source);
    let start = bom_count(&chars);
    let body = &chars[start..chars.len()];
    assert(body@ == strip_bom(source@));
    let ls = split_lines(body);
    proof {
        lemma_lines_len(body@);
    }
    let table = collect_in(&ls);
    let ghost lv = views(ls@);
    let ghost tv = table_view(table@);
    let mut bytes: Vec<u8> = Vec::new();
    let mut ends_with_halt = false;
    let mut i: usize = 0;
    while i < ls.len()
        invariant
            i <= ls@.len(),
            ls@.len() <= usize::MAX / 9,
            lv == views(ls@),
            tv == table_view(table@),
            lv == source_lines(source@),
            tv == spec_collect(lv).0,
            assemble_lines(lv, tv, i as nat) == Some(Ok::<(Seq<u8>, bool), Seq<char>>((bytes@, ends_with_halt))),
        decreases ls@.len() - i,
    {
        assert(lv[i as int] == ls@[i as int]@);
        match assemble_line(&ls[i], i, &table) {
            None => {
                proof {
                    lemma_assemble_final(lv, tv, (i + 1) as nat, lv.len());
                }
                return None;
            },
            Some(Err(e)) => {
                proof {
                    lemma_assemble_final(lv, tv, (i + 1) as nat, lv.len());
                }
                return Some(Err(e));
            },
            Some(Ok(None)) => {},
            Some(Ok(Some(op))) => {
                op.encode(&mut bytes);
                ends_with_halt = op == Op::Halt;
            },
        }
        i = i + 1;
    }
    Some(Ok((bytes, ends_with_halt)))
}

/// Assembles a source text into bytecode, or gives the message of its first
/// error.
pub fn assemble(source: &str) -> (r: Result<Vec<u8>, String>)
    requires
        9 * source@.len() <= usize::MAX,
        spec_assemble(source@) is Some,
    ensures
        match r {
            Ok(bytes) => spec_assemble(source@) matches Some(Ok((b, _))) && b == bytes@,
            Err(e) => spec_assemble(source@) == Some(Err::<(Seq<u8>, bool), Seq<char>>(e@)),
        },
{
    match try_assemble(source) {
        Some(Ok((bytes, _))) => Ok(bytes),
        Some(Err(e)) => Err(e),
        None => Err(String::new()),
    }
}

/// The instructions the first `k` lines hold, in order: for each line that
/// is neither blank nor a label, the instruction it assembles to.
pub open spec fn line_ops(lines: Seq<Seq<char>>, table: LabelTable, k: nat) -> Seq<Op>
    decreases k,
{
    if k == 0 {
        seq![]
    } else {
        let before = line_ops(lines, table, (k - 1) as nat);
        match line_outcome(lines[k - 1], (k - 1) as nat, table) {
            Some(Ok(Some(op))) => before.push(op),
            _ => before,
        }
    }
}

/// The instructions of a source text, labels resolved by its own table.
pub open spec fn source_ops(source: Seq<char>) -> Seq<Op> {
    let ls = source_lines(source);
    line_ops(ls, spec_collect(ls).0, ls.len())
}

proof fn lemma_assemble_lines_ops(lines: Seq<Seq<char>>, table: LabelTable, k: nat)
    requires
        k <= lines.len(),
    ensures
        assemble_lines(lines, table, k) matches Some(Ok((bytes, ends_with_halt))) ==> {
            let ops = line_ops(lines, table, k);
            &&& bytes == encode_all(ops)
            &&& ends_with_halt == (ops.len() > 0 && ops.last() == Op::Halt)
            &&& forall|j: int| 0 <= j < k ==> #[trigger] line_outcome(lines[j], j as nat, table) matches Some(Ok(_))
        },
    decreases k,
{
    if k > 0 {
        lemma_assemble_lines_ops(lines, table, (k - 1) as nat);
        let ops = line_ops(lines, table, (k - 1) as nat);
        if let Some(Ok(Some(op))) = line_outcome(lines[k - 1], (k - 1) as nat, table) {
            lemma_encode_all_push(ops, op);
        }
    } else {
        assert(encode_all(Seq::<Op>::empty()) == Seq::<u8>::empty());
    }
}

/// What a source assembles to is the encoding of its instructions, one after
/// another, each line that is neither blank nor a label giving one; the flag
/// tells whether the last of them is `HALT`. Every line assembled without
/// error.
pub proof fn lemma_assemble_ops(source: Seq<char>)
    ensures
        spec_assemble(source) matches Some(Ok((bytes, ends_with_halt))) ==> {
            let ls = source_lines(source);
            let ops = source_ops(source);
            &&& bytes == encode_all(ops)
            &&& ends_with_halt == (ops.len() > 0 && ops.last() == Op::Halt)
            &&& forall|j: int| 0 <= j < ls.len() ==> #[trigger] line_outcome(ls[j], j as nat, spec_collect(ls).0) matches Some(Ok(_))
        },
{
    let ls = source_lines(source);
    lemma_assemble_lines_ops(ls, spec_collect(ls).0, ls.len());
}

/// Once the second pass has failed or stopped, further lines do not change
/// its outcome.
proof fn lemma_assemble_final(lines: Seq<Seq<char>>, table: LabelTable, k: nat, m: nat)
    requires
        k <= m,
        !(assemble_lines(lines, table, k) matches Some(Ok(_))),
    ensures
        assemble_lines(lines, table, m) == assemble_lines(lines, table, k),
    decreases m - k,
{
    if k < m {
        lemma_assemble_final(lines, table, k, (m - 1) as nat);
    }
}

/// Byte order marks at the start of a source do not change what it
/// assembles to.
pub proof fn lemma_bom_ignored(source: Seq<char>)
    ensures
        spec_assemble(seq![BOM] + source) == spec_assemble(source),
{
    assert((seq![BOM] + source).drop_first() == source);
}

/// A source with every ASCII lowercase letter made a capital.
pub open spec fn fold_case(s: Seq<char>) -> Seq<char> {
    s.map_values(|c: char| ascii_upper(c))
}

proof fn lemma_fold_char(c: char)
    ensures
        ascii_upper(c) == '\n' <==> c == '\n',
        ascii_upper(c) == '\r' <==> c == '\r',
        ascii_upper(c) == ';' <==> c == ';',
        ascii_upper(c) == ':' <==> c == ':',
        ascii_upper(c) == BOM <==> c == BOM,
        is_ws(ascii_upper(c)) == is_ws(c),
        upper_char(ascii_upper(c)) == upper_char(c),
{
}

proof fn lemma_fold_basics(s: Seq<char>)
    ensures
        fold_case(s).len() == s.len(),
        forall|i: int| 0 <= i < s.len() ==> #[trigger] fold_case(s)[i] == ascii_upper(s[i]),
        s.len() > 0 ==> fold_case(s).drop_first() == fold_case(s.drop_first()),
        s.len() > 0 ==> fold_case(s).drop_last() == fold_case(s.drop_last()),
        forall|k: int| 0 <= k <= s.len() ==> #[trigger] fold_case(s).take(k) == fold_case(s.take(k)),
        forall|k: int| 0 <= k <= s.len() ==> #[trigger] fold_case(s).skip(k) == fold_case(s.skip(k)),
{
    if s.len() > 0 {
        assert(fold_case(s).drop_first() == fold_case(s.drop_first()));
        assert(fold_case(s).drop_last() == fold_case(s.drop_last()));
    }
    assert forall|k: int| 0 <= k <= s.len() implies #[trigger] fold_case(s).take(k) == fold_case(s.take(k)) by {
        assert(fold_case(s).take(k) =~= fold_case(s.take(k)));
    }
    assert forall|k: int| 0 <= k <= s.len() implies #[trigger] fold_case(s).skip(k) == fold_case(s.skip(k)) by {
        assert(fold_case(s).skip(k) =~= fold_case(s.skip(k)));
    }
}

proof fn lemma_fold_index_of(s: Seq<char>, c: char)
    requires
        c == '\n' || c == ';',
    ensures
        index_of(fold_case(s), c) == index_of(s, c),
    decreases s.len(),
{
    lemma_fold_basics(s);
    if s.len() > 0 {
        lemma_fold_char(s[0]);
        lemma_fold_index_of(s.drop_first(), c);
    }
}

proof fn lemma_fold_strip_bom(s: Seq<char>)
    ensures
        strip_bom(fold_case(s)) == fold_case(strip_bom(s)),
    decreases s.len(),
{
    lemma_fold_basics(s);
    if s.len() > 0 {
        lemma_fold_char(s[0]);
        lemma_fold_strip_bom(s.drop_first());
    }
}

proof fn lemma_fold_lines(s: Seq<char>)
    ensures
        lines(fold_case(s)) == lines(s).map_values(|l: Seq<char>| fold_case(l)),
    decreases s.len(),
{
    lemma_fold_basics(s);
    lemma_fold_index_of(s, '\n');
    let f = |l: Seq<char>| fold_case(l);
    if s.len() == 0 {
        assert(lines(s).map_values(f) == Seq::<Seq<char>>::empty());
    } else {
        let k = index_of(s, '\n');
        if k >= s.len() {
            assert(lines(s).map_values(f) == seq![fold_case(s)]);
        } else {
            lemma_fold_lines(s.skip(k + 1 as int));
            let t = s.take(k as int);
            lemma_fold_basics(t);
            if t.len() > 0 {
                lemma_fold_char(t.last());
            }
            assert(strip_cr(fold_case(t)) == fold_case(strip_cr(t)));
            assert(lines(s).map_values(f) == seq![fold_case(strip_cr(t))] + lines(s.skip(k + 1 as int)).map_values(f));
        }
    }
}

proof fn lemma_fold_trim(s: Seq<char>)
    ensures
        trim_start(fold_case(s)) == fold_case(trim_start(s)),
        trim_end(fold_case(s)) == fold_case(trim_end(s)),
    decreases s.len(),
{
    lemma_fold_basics(s);
    if s.len() > 0 {
        lemma_fold_char(s[0]);
        lemma_fold_char(s.last());
        lemma_fold_trim(s.drop_first());
        lemma_fold_trim(s.drop_last());
    }
}

proof fn lemma_fold_upper(s: Seq<char>)
    ensures
        upper(fold_case(s)) == upper(s),
    decreases s.len(),
{
    lemma_fold_basics(s);
    if s.len() > 0 {
        lemma_fold_char(s.last());
        lemma_fold_upper(s.drop_last());
    }
}

proof fn lemma_fold_trim_colons(s: Seq<char>)
    ensures
        trim_colons(fold_case(s)) == fold_case(trim_colons(s)),
    decreases s.len(),
{
    lemma_fold_basics(s);
    if s.len() > 0 {
        lemma_fold_char(s.last());
        lemma_fold_trim_colons(s.drop_last());
    }
}

/// The code part of a line with its case folded is the folded code part.
proof fn lemma_fold_code_part(line: Seq<char>)
    ensures
        code_part(fold_case(line)) == fold_case(code_part(line)),
        upper(code_part(fold_case(line))) == upper(code_part(line)),
{
    lemma_fold_basics(line);
    lemma_fold_index_of(line, ';');
    crate::text::lemma_index_of_le(line, ';');
    let k = index_of(line, ';') as int;
    let t = line.take(k);
    assert(fold_case(line).take(k) == fold_case(t));
    lemma_fold_trim(t);
    lemma_fold_trim(trim_start(t));
    assert(trim(fold_case(t)) == fold_case(trim(t)));
    lemma_fold_upper(code_part(line));
}

proof fn lemma_fold_collect(ls: Seq<Seq<char>>)
    ensures
        spec_collect(ls.map_values(|l: Seq<char>| fold_case(l))) == spec_collect(ls),
    decreases ls.len(),
{
    let f = |l: Seq<char>| fold_case(l);
    if ls.len() > 0 {
        assert(ls.map_values(f).drop_last() == ls.drop_last().map_values(f));
        lemma_fold_collect(ls.drop_last());
        let l = ls.last();
        assert(ls.map_values(f).last() == fold_case(l));
        lemma_fold_code_part(l);
        let t = code_part(l);
        lemma_fold_basics(t);
        if t.len() > 0 {
            lemma_fold_char(t.last());
        }
        lemma_fold_trim_colons(t);
        lemma_fold_upper(trim_colons(t));
    }
}

proof fn lemma_fold_assemble_lines(ls: Seq<Seq<char>>, table: LabelTable, k: nat)
    requires
        k <= ls.len(),
    ensures
        assemble_lines(ls.map_values(|l: Seq<char>| fold_case(l)), table, k) == assemble_lines(ls, table, k),
    decreases k,
{
    if k > 0 {
        lemma_fold_assemble_lines(ls, table, (k - 1) as nat);
        lemma_fold_code_part(ls[k - 1]);
        let t = code_part(ls[k - 1]);
        lemma_fold_basics(t);
        if t.len() > 0 {
            lemma_fold_char(t.last());
        }
    }
}

/// Mnemonics, operands and labels are read without regard to case: making
/// every ASCII lowercase letter of a source a capital does not change what it
/// assembles to, nor any error message.
pub proof fn lemma_case_insensitive(source: Seq<char>)
    ensures
        spec_assemble(fold_case(source)) == spec_assemble(source),
{
    let f = |l: Seq<char>| fold_case(l);
    lemma_fold_strip_bom(source);
    lemma_fold_lines(strip_bom(source));
    let ls = source_lines(source);
    assert(source_lines(fold_case(source)) == ls.map_values(f));
    lemma_fold_collect(ls);
    lemma_fold_assemble_lines(ls, spec_collect(ls).0, ls.len());
}

/// A `;` starts a comment: what follows it on the line changes neither the
/// label pass nor the assembly of the line.
pub proof fn lemma_comment_ignored(line: Seq<char>, comment: Seq<char>, line_no: nat, table: LabelTable, offset: nat)
    requires
        !line.contains(';'),
    ensures
        code_part(line + seq![';'] + comment) == code_part(line),
        line_outcome(line + seq![';'] + comment, line_no, table) == line_outcome(line, line_no, table),
        label_step(table, offset, line + seq![';'] + comment) == label_step(table, offset, line),
{
    let full = line + seq![';'] + comment;
    assert forall|j: int| 0 <= j < line.len() implies full[j] != ';' by {
        assert(full[j] == line[j]);
    }
    crate::text::lemma_index_of(full, ';', line.len() as int);
    crate::text::lemma_index_of(line, ';', line.len() as int);
    assert(full.take(line.len() as int) == line);
    assert(line.take(line.len() as int) == line);
}

/// The first pass counts, for a line that assembles, the size of what the
/// second pass emits for it.
proof fn lemma_line_size(line: Seq<char>, line_no: nat, table: LabelTable, offset: nat)
    requires
        line_outcome(line, line_no, table) matches Some(Ok(_)),
    ensures
        label_step(table, offset, line).1 == offset + match line_outcome(line, line_no, table) {
            Some(Ok(Some(op))) => op_size(op),
            _ => 0,
        },
{
    let t = code_part(line);
    let u = upper(t);
    let ws = words(u);
    if t.len() == 0 {
        assert(u.len() == 0);
        assert(ws.len() == 0);
    } else {
        if u.len() == 0 {
            assert(ws.len() == 0);
        }
        if t.last() != ':' && ws.len() > 0 {
            reveal_strlit("PUSH");
            reveal_strlit("LOAD");
            reveal_strlit("STORE");
            reveal_strlit("JMP");
            reveal_strlit("JZ");
            reveal_strlit("JNZ");
            reveal_strlit("CALL");
            reveal_strlit("HALT");
            reveal_strlit("POP");
            reveal_strlit("ADD");
            reveal_strlit("SUB");
            reveal_strlit("MUL");
            reveal_strlit("DIV");
            reveal_strlit("MOD");
            reveal_strlit("NEG");
            reveal_strlit("DUP");
            reveal_strlit("SWAP");
            reveal_strlit("PRINT");
            reveal_strlit("EQ");
            reveal_strlit("LT");
            reveal_strlit("GT");
            reveal_strlit("RET");
            let m = ws[0];
            if m == "PUSH"@ {
                assert(counted_size(m) == 9);
            } else if m == "LOAD"@ || m == "STORE"@ {
                assert(m[0] != "CALL"@[0]);
                assert(!is_jump(m));
                assert(counted_size(m) == 2);
            } else if is_jump(m) {
                assert(counted_size(m) == 5);
            } else {
                assert(counted_size(m) == 1);
                if let Some(op) = plain_op(m) {
                    assert(op_size(op) == 1);
                }
            }
        }
    }
}

/// The two passes agree: after every run of lines that assembles, the bytes
/// emitted are as many as the first pass counted, so a label stands for the
/// offset of the code that follows it.
pub proof fn lemma_label_offsets(source: Seq<char>, k: nat)
    requires
        k <= source_lines(source).len(),
    ensures
        assemble_lines(source_lines(source), spec_collect(source_lines(source)).0, k) matches Some(Ok((bytes, _)))
            ==> bytes.len() == spec_collect(source_lines(source).take(k as int)).1,
    decreases k,
{
    let ls = source_lines(source);
    let table = spec_collect(ls).0;
    if k == 0 {
        assert(ls.take(0) == Seq::<Seq<char>>::empty());
    } else {
        lemma_label_offsets(source, (k - 1) as nat);
        let prefix = ls.take(k as int);
        assert(prefix.drop_last() == ls.take(k - 1));
        assert(prefix.last() == ls[k - 1]);
        let line = ls[k - 1];
        if let Some(Ok((b, _))) = assemble_lines(ls, table, (k - 1) as nat) {
            if line_outcome(line, (k - 1) as nat, table) matches Some(Ok(_)) {
                let (t0, off) = spec_collect(ls.take(k - 1));
                lemma_line_size(line, (k - 1) as nat, table, off);
                if let Some(Ok(Some(op))) = line_outcome(line, (k - 1) as nat, table) {
                    lemma_encode_len(op);
                }
            }
        }
    }
}
} // verus!
