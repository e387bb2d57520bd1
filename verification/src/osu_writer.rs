//! An append-only byte buffer that writes the primitives of the format.

use crate::wire::{
    char_byte, i32_bytes, i32_pattern, string_bytes, uleb128_bytes, STRING_PRESENT,
};
use vstd::prelude::*;

verus! {

/// The bytes written so far.  Writing only ever adds bytes at the end.
pub struct OsuWriter {
    pub buffer: Vec<u8>,
}

impl View for OsuWriter {
    type V = Seq<u8>;

    open spec fn view(&self) -> Seq<u8> {
        self.buffer@
    }
}

impl OsuWriter {
    /// A writer that has written nothing.
    pub fn new() -> (writer: OsuWriter)
        ensures
            writer@ == Seq::<u8>::empty(),
    {
        OsuWriter { buffer: Vec::new() }
    }

    /// Appends one byte.
    pub fn write_u8(&mut self, value: u8)
        ensures
            final(self)@ == old(self)@.push(value),
    {
        self.buffer.push(value);
    }

    /// Appends the four bytes of `value`, least significant first.
    pub fn write_i32(&mut self, value: i32)
        ensures
            final(self)@ == old(self)@ + i32_bytes(value),
    {
        let pattern = unsigned(value);
        self.write_u8((pattern % 0x100) as u8);
        self.write_u8((pattern / 0x100 % 0x100) as u8);
        self.write_u8((pattern / 0x1_0000 % 0x100) as u8);
        self.write_u8((pattern / 0x100_0000 % 0x100) as u8);
        assert(self@ =~= old(self)@ + i32_bytes(value));
    }

    /// Appends `value` as an unsigned LEB128 number.
    pub fn write_uleb128(&mut self, value: i32)
        requires
            value >= 0,
        ensures
            final(self)@ == old(self)@ + uleb128_bytes(value as nat),
    {
        let mut rest = value as u32;
        loop
            invariant_except_break
                old(self)@ + uleb128_bytes(value as nat) == self@ + uleb128_bytes(rest as nat),
            ensures
                self@ == old(self)@ + uleb128_bytes(value as nat),
            decreases rest,
        {
            let group = (rest % 0x80) as u8;
            let ghost before = self@;
            let ghost whole = rest;
            rest = rest / 0x80;
            if rest != 0 {
                self.write_u8(group + 0x80);
                assert(self@ + uleb128_bytes(rest as nat) =~= before + uleb128_bytes(whole as nat));
            } else {
                self.write_u8(group);
                assert(self@ =~= before + uleb128_bytes(whole as nat));
                break ;
            }
        }
    }

    /// Appends `value` as a string field: the lone byte `0x00` when it is
    /// empty, else the presence byte, the number of characters and the lowest
    /// eight bits of each character.
    pub fn write_string(&mut self, value: &String)
        requires
            value@.len() <= i32::MAX,
        ensures
            final(self)@ == old(self)@ + string_bytes(value@),
    {
        let text = value.as_str();
        let length = text.unicode_len();
        if length == 0 {
            self.write_u8(0);
            assert(self@ =~= old(self)@ + string_bytes(value@));
            return ;
        }
        self.write_u8(STRING_PRESENT);
        self.write_uleb128(length as i32);
        let ghost head = self@;
        let chars = text.chars();
        for c in it: chars
            invariant
                it.seq() == text@,
                self@ == head + Seq::new(it.index() as nat, |k: int| char_byte(text@[k])),
        {
            self.write_u8(low_byte(c));
            assert(self@ =~= head + Seq::new((it.index() + 1) as nat, |k: int| char_byte(text@[k])));
        }
        assert(self@ =~= old(self)@ + string_bytes(value@));
    }
}

/// The bit pattern of `value` as an unsigned number.
fn unsigned(value: i32) -> (pattern: u32)
    ensures
        pattern == i32_pattern(value),
{
    if value < 0 {
        (value - i32::MIN) as u32 + 0x8000_0000
    } else {
        value as u32
    }
}

/// The lowest eight bits of the code point of `c`.
fn low_byte(c: char) -> (byte: u8)
    ensures
        byte == char_byte(c),
{
    (c as u32 % 0x100) as u8
}

} // verus!
