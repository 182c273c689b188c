//! The bytecode file format: a 4-byte magic, a version byte, the code length
//! as a little-endian `u32`, then the code.
use vstd::prelude::*;
use crate::le_bytes::{u32_le, le_u32, lemma_u32_le, lemma_le_u32, push_u32_le, read_u32_le};

verus! {

broadcast use vstd::string::group_string_axioms;

/// The bytes every bytecode file starts with: "MVM\0".
pub const MAGIC: [u8; 4] = [0x4D, 0x56, 0x4D, 0x00];

/// The format version this library writes and reads.
pub const VERSION: u8 = 0x01;

/// The magic bytes as a sequence.
pub open spec fn magic() -> Seq<u8> {
    seq![0x4Du8, 0x56u8, 0x4Du8, 0x00u8]
}

/// The header for code of `len` bytes: magic, version, then the length
/// truncated to 32 bits, little-endian.
pub open spec fn header(len: nat) -> Seq<u8> {
    magic() + seq![VERSION] + u32_le(len as u32)
}

/// A bytecode file holding `code`.
pub open spec fn spec_write_program(code: Seq<u8>) -> Seq<u8> {
    header(code.len()) + code
}

/// What reading a bytecode file gives: the code, or the message of the first
/// check that fails.
pub open spec fn spec_read_program(bytes: Seq<u8>) -> Result<Seq<u8>, Seq<char>> {
    if bytes.len() < 9 {
        Err("file too short"@)
    } else if bytes.subrange(0, 4) != magic() {
        Err("invalid magic"@)
    } else if bytes[4] != VERSION {
        Err("unsupported version"@)
    } else if bytes.len() != 9 + le_u32(bytes.subrange(5, 9)) {
        Err("length mismatch"@)
    } else {
        Ok(bytes.skip(9))
    }
}

/// Wraps `code` in a bytecode file.
pub fn write_program(code: &[u8]) -> (bytes: Vec<u8>)
    ensures
        bytes@ == spec_write_program(code@),
{
    let mut bytes: Vec<u8> = Vec::new();
    bytes.push(MAGIC[0]);
    bytes.push(MAGIC[1]);
    bytes.push(MAGIC[2]);
    bytes.push(MAGIC[3]);
    bytes.push(VERSION);
    let len = code.len() as u32;
    push_u32_le(&mut bytes, len);
    crate::isa::append_bytes(&mut bytes, code);
    assert(bytes@ == spec_write_program(code@));
    bytes
}

/// Checks the header of a bytecode file and gives the code it holds.
pub fn read_program(bytes: &[u8]) -> (res: Result<Vec<u8>, String>)
    ensures
        match res {
            Ok(code) => spec_read_program(bytes@) == Ok::<Seq<u8>, Seq<char>>(code@),
            Err(msg) => spec_read_program(bytes@) == Err::<Seq<u8>, Seq<char>>(msg@),
        },
{
    if bytes.len() < 9 {
        return Err("file too short".to_string());
    }
    if !(bytes[0] == MAGIC[0] && bytes[1] == MAGIC[1] && bytes[2] == MAGIC[2] && bytes[3] == MAGIC[3]) {
        assert(bytes@.subrange(0, 4) != magic()) by {
            if bytes@.subrange(0, 4) == magic() {
                assert(bytes@[0] == bytes@.subrange(0, 4)[0]);
                assert(bytes@[1] == bytes@.subrange(0, 4)[1]);
                assert(bytes@[2] == bytes@.subrange(0, 4)[2]);
                assert(bytes@[3] == bytes@.subrange(0, 4)[3]);
            }
        }
        return Err("invalid magic".to_string());
    }
    assert(bytes@.subrange(0, 4) == magic());
    if bytes[4] != VERSION {
        return Err("unsupported version".to_string());
    }
    let len = read_u32_le(bytes, 5);
    if bytes.len() - 9 != len as usize {
        return Err("length mismatch".to_string());
    }
    let mut code: Vec<u8> = Vec::new();
    crate::isa::append_bytes(&mut code, &bytes[9..bytes.len()]);
    assert(code@ == bytes@.skip(9));
    Ok(code)
}

/// Reading back a written file gives the code, for code whose length fits
/// the 32-bit length field.
pub proof fn lemma_read_write(code: Seq<u8>)
    requires
        code.len() <= u32::MAX,
    ensures
        spec_read_program(spec_write_program(code)) == Ok::<Seq<u8>, Seq<char>>(code),
{
    lemma_u32_le(code.len() as u32);
    let b = spec_write_program(code);
    assert(b.subrange(0, 4) == magic());
    assert(b.subrange(5, 9) == u32_le(code.len() as u32));
    assert(b.skip(9) == code);
}

/// A file that reads successfully is exactly the file written for the code
/// it holds.
pub proof fn lemma_write_read(bytes: Seq<u8>)
    ensures
        spec_read_program(bytes) matches Ok(code) ==> {
            &&& code.len() <= u32::MAX
            &&& spec_write_program(code) == bytes
        },
{
    if let Ok(code) = spec_read_program(bytes) {
        lemma_le_u32(bytes.subrange(5, 9));
        let len = le_u32(bytes.subrange(5, 9));
        assert(code.len() == len);
        assert(u32_le(len) == bytes.subrange(5, 9));
        assert(bytes == bytes.subrange(0, 4) + seq![bytes[4]] + bytes.subrange(5, 9) + bytes.skip(9));
    }
}

/// The layout of a written file: the bytes `4D 56 4D 00`, the version 1, the
/// code length as four little-endian bytes, then the code itself, byte for
/// byte and in order.
pub proof fn lemma_write_layout(code: Seq<u8>)
    requires
        code.len() <= u32::MAX,
    ensures
        ({
            let f = spec_write_program(code);
            &&& f.len() == 9 + code.len()
            &&& f[0] == 0x4D && f[1] == 0x56 && f[2] == 0x4D && f[3] == 0x00
            &&& f[4] == 0x01
            &&& code.len() == f[5] + 256 * f[6] + 65536 * f[7] + 16777216 * f[8]
            &&& forall|i: int| 0 <= i < code.len() ==> #[trigger] f[9 + i] == code[i]
        }),
{
    crate::le_bytes::lemma_u32_le_digits(code.len() as u32);
    let f = spec_write_program(code);
    assert(f[5] == u32_le(code.len() as u32)[0]);
    assert(f[6] == u32_le(code.len() as u32)[1]);
    assert(f[7] == u32_le(code.len() as u32)[2]);
    assert(f[8] == u32_le(code.len() as u32)[3]);
}

/// What reading accepts and gives: a file of at least nine bytes that starts
/// with `4D 56 4D 00`, then version 1, then four little-endian bytes equal to
/// the number of bytes after them; the code read is those bytes, in order.
/// Each check that fails is reported in that order.
pub proof fn lemma_read_layout(bytes: Seq<u8>)
    ensures
        bytes.len() < 9 ==> spec_read_program(bytes) == Err::<Seq<u8>, Seq<char>>("file too short"@),
        bytes.len() >= 9 && !(bytes[0] == 0x4D && bytes[1] == 0x56 && bytes[2] == 0x4D && bytes[3] == 0x00)
            ==> spec_read_program(bytes) == Err::<Seq<u8>, Seq<char>>("invalid magic"@),
        bytes.len() >= 9 && bytes[0] == 0x4D && bytes[1] == 0x56 && bytes[2] == 0x4D && bytes[3] == 0x00
            && bytes[4] != 0x01 ==> spec_read_program(bytes) == Err::<Seq<u8>, Seq<char>>("unsupported version"@),
        bytes.len() >= 9 && bytes[0] == 0x4D && bytes[1] == 0x56 && bytes[2] == 0x4D && bytes[3] == 0x00
            && bytes[4] == 0x01 ==> {
            if bytes.len() == 9 + bytes[5] + 256 * bytes[6] + 65536 * bytes[7] + 16777216 * bytes[8] {
                spec_read_program(bytes) matches Ok(code) && code.len() == bytes.len() - 9
                    && forall|i: int| 0 <= i < code.len() ==> #[trigger] code[i] == bytes[9 + i]
            } else {
                spec_read_program(bytes) == Err::<Seq<u8>, Seq<char>>("length mismatch"@)
            }
        },
{
    if bytes.len() >= 9 {
        let m = bytes.subrange(0, 4);
        if bytes[0] == 0x4D && bytes[1] == 0x56 && bytes[2] == 0x4D && bytes[3] == 0x00 {
            assert(m == magic());
        } else {
            assert(m != magic()) by {
                if m == magic() {
                    assert(bytes[0] == m[0] && bytes[1] == m[1] && bytes[2] == m[2] && bytes[3] == m[3]);
                }
            }
        }
        let l = bytes.subrange(5, 9);
        assert(le_u32(l) == bytes[5] + 256 * bytes[6] + 65536 * bytes[7] + 16777216 * bytes[8]);
    }
}
} // verus!
