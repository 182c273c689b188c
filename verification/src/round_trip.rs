//! Laws that span the assembler and the disassembler: the listing of any
//! code assembles back to the same bytes.
use vstd::prelude::*;
use crate::isa::{Op, encode_all, lemma_encode_all_push};
use crate::assembler::{
    LabelTable, line_outcome, code_part, assemble_lines, spec_assemble, spec_collect,
    source_lines, strip_bom,
};
use crate::disassembler::{
    mnemonic, operand_text, op_text, listing, spec_disassemble, decoded_ops,
    lemma_disassemble_decoded,
};
use crate::text::{
    is_ws, ws_index, words, upper, upper_ascii, trim_start, trim_end, lines,
    strip_cr, decimal, signed_decimal, parse_i64, lemma_upper_id, lemma_parse_i64,
    lemma_parse_decimal, lemma_decimal,
};

verus! {

broadcast use vstd::string::group_string_axioms;

/// The chars a listing is made of: capital letters, digits, spaces and minus
/// signs, besides its newlines.
pub open spec fn listing_char(c: char) -> bool {
    ('A' <= c && c <= 'Z') || ('0' <= c && c <= '9') || c == ' ' || c == '-'
}

/// Whether every char of `s` is a listing char.
pub open spec fn all_listing_chars(s: Seq<char>) -> bool {
    forall|i: int| 0 <= i < s.len() ==> listing_char(#[trigger] s[i])
}

/// Whether `s` holds no whitespace.
pub open spec fn no_ws(s: Seq<char>) -> bool {
    forall|i: int| 0 <= i < s.len() ==> !is_ws(#[trigger] s[i])
}

proof fn lemma_words_one(a: Seq<char>)
    requires
        a.len() > 0,
        no_ws(a),
    ensures
        words(a) == seq![a],
{
    crate::text::lemma_ws_index_le(a);
    lemma_ws_index_all(a);
    assert(a.take(a.len() as int) == a);
    assert(a.skip(a.len() as int) == Seq::<char>::empty());
    assert(words(Seq::<char>::empty()) == Seq::<Seq<char>>::empty());
    assert(seq![a] + Seq::<Seq<char>>::empty() == seq![a]);
}

proof fn lemma_ws_index_all(a: Seq<char>)
    requires
        no_ws(a),
    ensures
        ws_index(a) == a.len(),
    decreases a.len(),
{
    if a.len() > 0 {
        assert(no_ws(a.drop_first())) by {
            assert forall|i: int| 0 <= i < a.drop_first().len() implies !is_ws(#[trigger] a.drop_first()[i]) by {
                assert(a.drop_first()[i] == a[i + 1]);
            }
        }
        lemma_ws_index_all(a.drop_first());
    }
}

proof fn lemma_ws_index_prefix(a: Seq<char>, b: Seq<char>)
    requires
        no_ws(a),
        b.len() > 0,
        is_ws(b[0]),
    ensures
        ws_index(a + b) == a.len(),
    decreases a.len(),
{
    if a.len() > 0 {
        assert(no_ws(a.drop_first())) by {
            assert forall|i: int| 0 <= i < a.drop_first().len() implies !is_ws(#[trigger] a.drop_first()[i]) by {
                assert(a.drop_first()[i] == a[i + 1]);
            }
        }
        lemma_ws_index_prefix(a.drop_first(), b);
        assert((a + b).drop_first() == a.drop_first() + b);
    } else {
        assert(a + b == b);
    }
}

proof fn lemma_words_two(a: Seq<char>, b: Seq<char>)
    requires
        a.len() > 0,
        b.len() > 0,
        no_ws(a),
        no_ws(b),
    ensures
        words(a + seq![' '] + b) == seq![a, b],
{
    let s = a + seq![' '] + b;
    let tail = seq![' '] + b;
    assert(s == a + tail);
    lemma_ws_index_prefix(a, tail);
    assert(s.take(a.len() as int) == a);
    assert(s.skip(a.len() as int) == tail);
    assert(tail.drop_first() == b);
    lemma_words_one(b);
    assert(words(tail) == words(b));
    assert(seq![a] + seq![b] == seq![a, b]);
}


/// Whether every char of `s` is a capital letter.
pub open spec fn capitals(s: Seq<char>) -> bool {
    forall|i: int| 0 <= i < s.len() ==> 'A' <= #[trigger] s[i] && s[i] <= 'Z'
}

/// Whether `s` is made of decimal digits, with perhaps a `-` first.
pub open spec fn digits_text(s: Seq<char>) -> bool {
    forall|i: int| 0 <= i < s.len() ==> ('0' <= #[trigger] s[i] && s[i] <= '9') || (i == 0 && s[i] == '-')
}

proof fn lemma_mnemonic(op: Op)
    ensures
        mnemonic(op).len() > 0,
        capitals(mnemonic(op)),
{
    reveal_strlit("PUSH");
    reveal_strlit("POP");
    reveal_strlit("DUP");
    reveal_strlit("SWAP");
    reveal_strlit("ADD");
    reveal_strlit("SUB");
    reveal_strlit("MUL");
    reveal_strlit("DIV");
    reveal_strlit("MOD");
    reveal_strlit("NEG");
    reveal_strlit("LOAD");
    reveal_strlit("STORE");
    reveal_strlit("PRINT");
    reveal_strlit("HALT");
    reveal_strlit("EQ");
    reveal_strlit("LT");
    reveal_strlit("GT");
    reveal_strlit("JMP");
    reveal_strlit("JZ");
    reveal_strlit("JNZ");
    reveal_strlit("CALL");
    reveal_strlit("RET");
}

proof fn lemma_operand_text(op: Op)
    ensures
        operand_text(op) matches Some(t) ==> t.len() > 0 && digits_text(t) && '0' <= t.last() && t.last() <= '9',
{
    match op {
        Op::Push(n) => {
            let m: nat = if n < 0 { (-n) as nat } else { n as nat };
            lemma_decimal(m);
            let d = decimal(m);
            if n < 0 {
                let t = seq!['-'] + d;
                assert forall|i: int| 0 <= i < t.len() implies ('0' <= #[trigger] t[i] && t[i] <= '9') || (i
                    == 0 && t[i] == '-') by {
                    if i > 0 {
                        assert(t[i] == d[i - 1]);
                        assert(crate::text::is_digit(d[i - 1]));
                    }
                }
                assert(crate::text::is_digit(d[d.len() - 1]));
            } else {
                assert forall|i: int| 0 <= i < d.len() implies ('0' <= #[trigger] d[i] && d[i] <= '9') || (i
                    == 0 && d[i] == '-') by {
                    assert(crate::text::is_digit(d[i]));
                }
                assert(crate::text::is_digit(d[d.len() - 1]));
            }
        },
        Op::Load(x) | Op::Store(x) => {
            lemma_decimal(x as nat);
            let d = decimal(x as nat);
            assert forall|i: int| 0 <= i < d.len() implies ('0' <= #[trigger] d[i] && d[i] <= '9') || (i == 0
                && d[i] == '-') by {
                assert(crate::text::is_digit(d[i]));
            }
            assert(crate::text::is_digit(d[d.len() - 1]));
        },
        Op::Jmp(x) | Op::Jz(x) | Op::Jnz(x) | Op::Call(x) => {
            lemma_decimal(x as nat);
            let d = decimal(x as nat);
            assert forall|i: int| 0 <= i < d.len() implies ('0' <= #[trigger] d[i] && d[i] <= '9') || (i == 0
                && d[i] == '-') by {
                assert(crate::text::is_digit(d[i]));
            }
            assert(crate::text::is_digit(d[d.len() - 1]));
        },
        _ => {},
    }
}

/// The text of an instruction is made of listing chars, starts with a capital
/// letter, ends with a letter or digit, and its words are its mnemonic and
/// its operand.
proof fn lemma_op_text(op: Op)
    ensures
        op_text(op).len() > 0,
        all_listing_chars(op_text(op)),
        'A' <= op_text(op)[0] && op_text(op)[0] <= 'Z',
        op_text(op).last() != ' ' && op_text(op).last() != '-',
        words(op_text(op)) == match operand_text(op) {
            Some(t) => seq![mnemonic(op), t],
            None => seq![mnemonic(op)],
        },
{
    lemma_mnemonic(op);
    let m = mnemonic(op);
    assert(no_ws(m));
    match operand_text(op) {
        Some(t) => {
            lemma_operand_text(op);
            reveal_strlit(" ");
            assert(" "@ == seq![' ']);
            assert(no_ws(t));
            lemma_words_two(m, t);
            let s = m + seq![' '] + t;
            assert(op_text(op) == s);
            assert forall|i: int| 0 <= i < s.len() implies listing_char(#[trigger] s[i]) by {
                if i < m.len() {
                    assert(s[i] == m[i]);
                } else if i == m.len() {
                } else {
                    assert(s[i] == t[i - m.len() - 1]);
                }
            }
            assert(s[0] == m[0]);
            assert(s.last() == t.last());
        },
        None => {
            lemma_words_one(m);
        },
    }
}

/// The code part of an instruction's text is the text itself, and
/// uppercasing leaves it as it is.
proof fn lemma_op_text_code(op: Op)
    ensures
        code_part(op_text(op)) == op_text(op),
        upper(op_text(op)) == op_text(op),
{
    lemma_op_text(op);
    let t = op_text(op);
    crate::text::lemma_index_of(t, ';', t.len() as int);
    assert(t.take(t.len() as int) == t);
    assert(trim_start(t) == t);
    assert(trim_end(t) == t);
    assert(upper_ascii(t)) by {
        assert forall|i: int| 0 <= i < t.len() implies (#[trigger] t[i] as u32) < 128 && !('a' <= t[i]
            && t[i] <= 'z') by {
            assert(listing_char(t[i]));
        }
    }
    lemma_upper_id(t);
}

/// The line of an instruction's text assembles to the instruction, whatever
/// the labels and the line number.
pub proof fn lemma_line_outcome(op: Op, line_no: nat, table: LabelTable)
    ensures
        line_outcome(op_text(op), line_no, table) == Some(Ok::<Option<Op>, Seq<char>>(Some(op))),
{
    lemma_op_text(op);
    lemma_op_text_code(op);
    reveal_strlit("PUSH");
    reveal_strlit("POP");
    reveal_strlit("DUP");
    reveal_strlit("SWAP");
    reveal_strlit("ADD");
    reveal_strlit("SUB");
    reveal_strlit("MUL");
    reveal_strlit("DIV");
    reveal_strlit("MOD");
    reveal_strlit("NEG");
    reveal_strlit("LOAD");
    reveal_strlit("STORE");
    reveal_strlit("PRINT");
    reveal_strlit("HALT");
    reveal_strlit("EQ");
    reveal_strlit("LT");
    reveal_strlit("GT");
    reveal_strlit("JMP");
    reveal_strlit("JZ");
    reveal_strlit("JNZ");
    reveal_strlit("CALL");
    reveal_strlit("RET");
    match op {
        Op::Push(n) => {
            lemma_parse_i64(n);
            let t = op_text(op);
            let ws = words(t);
            assert(ws.len() == 2);
            assert(ws[0] == "PUSH"@);
            assert(ws[1] == signed_decimal(n as int));
            assert(parse_i64(ws[1]) == Some(n));
            assert(t.last() != ':');
            assert(upper(code_part(t)) == t);
            assert(line_outcome(t, line_no, table) == Some(Ok::<Option<Op>, Seq<char>>(Some(op))));
        },
        Op::Load(x) | Op::Store(x) => {
            lemma_parse_decimal(x as nat, false);
        },
        Op::Jmp(x) => {
            lemma_parse_decimal(x as nat, false);
        },
        Op::Jz(x) => {
            lemma_parse_decimal(x as nat, false);
            assert("JZ"@.len() != "JMP"@.len());
        },
        Op::Jnz(x) => {
            lemma_parse_decimal(x as nat, false);
            assert("JNZ"@[1] != "JMP"@[1]);
            assert("JNZ"@.len() != "JZ"@.len());
        },
        Op::Call(x) => {
            lemma_parse_decimal(x as nat, false);
            assert("CALL"@.len() != "JMP"@.len());
            assert("CALL"@.len() != "JZ"@.len());
            assert("CALL"@.len() != "JNZ"@.len());
        },
        _ => {},
    }
}

/// The texts of a sequence of instructions.
pub open spec fn texts(ops: Seq<Op>) -> Seq<Seq<char>> {
    ops.map_values(|op: Op| op_text(op))
}

/// The lines of a listing are the texts of its instructions.
proof fn lemma_lines_listing(ops: Seq<Op>)
    ensures
        lines(listing(ops)) == texts(ops),
    decreases ops.len(),
{
    if ops.len() == 0 {
        assert(texts(ops) == Seq::<Seq<char>>::empty());
    } else {
        let o = ops[0];
        let t = op_text(o);
        let rest = listing(ops.drop_first());
        lemma_op_text(o);
        lemma_lines_listing(ops.drop_first());
        reveal_strlit("\n");
        let s = listing(ops);
        assert(s == t + seq!['\n'] + rest);
        assert forall|j: int| 0 <= j < t.len() implies s[j] != '\n' by {
            assert(s[j] == t[j]);
            assert(listing_char(t[j]));
        }
        assert(s[t.len() as int] == '\n');
        crate::text::lemma_index_of(s, '\n', t.len() as int);
        assert(s.take(t.len() as int) == t);
        assert(listing_char(t.last()));
        assert(strip_cr(t) == t);
        assert(s.skip(t.len() + 1 as int) == rest);
        assert(texts(ops) == seq![t] + texts(ops.drop_first()));
    }
}

/// A listing has no byte order mark to strip.
proof fn lemma_listing_no_bom(ops: Seq<Op>)
    ensures
        strip_bom(listing(ops)) == listing(ops),
{
    if ops.len() > 0 {
        lemma_op_text(ops[0]);
        assert(listing(ops)[0] == op_text(ops[0])[0]);
    }
}

/// Whether the last of a sequence of instructions is `HALT`.
pub open spec fn ends_in_halt(ops: Seq<Op>) -> bool {
    ops.len() > 0 && ops.last() == Op::Halt
}

/// The second pass over the texts of instructions encodes them, and reports
/// whether the last of them is `HALT`.
proof fn lemma_assemble_texts(ops: Seq<Op>, table: LabelTable, k: nat)
    requires
        k <= ops.len(),
    ensures
        assemble_lines(texts(ops), table, k) == Some(
            Ok::<(Seq<u8>, bool), Seq<char>>((encode_all(ops.take(k as int)), ends_in_halt(ops.take(k as int)))),
        ),
    decreases k,
{
    if k == 0 {
        assert(ops.take(0) == Seq::<Op>::empty());
        assert(encode_all(Seq::<Op>::empty()) == Seq::<u8>::empty());
    } else {
        lemma_assemble_texts(ops, table, (k - 1) as nat);
        let prev = ops.take(k - 1);
        let op = ops[k - 1];
        lemma_line_outcome(op, (k - 1) as nat, table);
        assert(texts(ops)[k - 1] == op_text(op));
        assert(ops.take(k as int) == prev.push(op));
        lemma_encode_all_push(prev, op);
    }
}

/// The listing of any instructions assembles back to their encoding, and the
/// assembler reports that it ends with `HALT` exactly when the last of them is.
pub proof fn lemma_assemble_listing(ops: Seq<Op>)
    ensures
        spec_assemble(listing(ops)) == Some(
            Ok::<(Seq<u8>, bool), Seq<char>>((encode_all(ops), ends_in_halt(ops))),
        ),
{
    lemma_listing_no_bom(ops);
    lemma_lines_listing(ops);
    let ls = source_lines(listing(ops));
    assert(ls == texts(ops));
    lemma_assemble_texts(ops, spec_collect(ls).0, ops.len());
    assert(ops.take(ops.len() as int) == ops);
}

/// Assembling the disassembly of code gives the code back: for every code
/// that disassembles, its text assembles (without stopping) to the same
/// bytes.
pub proof fn lemma_assemble_disassemble(code: Seq<u8>)
    requires
        spec_disassemble(code) is Ok,
    ensures
        spec_assemble(spec_disassemble(code)->Ok_0) matches Some(Ok((bytes, _))) && bytes == code,
{
    lemma_disassemble_decoded(code);
    lemma_assemble_listing(decoded_ops(code));
}
} // verus!
