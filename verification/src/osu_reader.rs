//! A cursor over a byte buffer that reads the primitives of the format.

use crate::error::DecodeError;
use crate::wire::{
    group_weight, i32_of_pattern, parse_i32, parse_string, parse_u8, parse_uleb128,
    parse_uleb128_groups, text_at, Parsed, ULEB128_MAX_GROUPS,
};
use vstd::prelude::*;

verus! {

/// A byte buffer and a read position in it.  The position starts at zero and
/// only moves forward; a read that fails leaves it where it was.
pub struct OsuReader {
    buffer: Vec<u8>,
    offset: usize,
}

impl OsuReader {
    #[verifier::type_invariant]
    spec fn within_buffer(self) -> bool {
        self.offset <= self.buffer.len()
    }

    /// The bytes being read.
    pub closed spec fn bytes(&self) -> Seq<u8> {
        self.buffer@
    }

    /// The position of the next byte to read.
    pub closed spec fn position(&self) -> int {
        self.offset as int
    }

    /// Whether `after` is `before` moved to position `end`.
    pub open spec fn advanced(before: &OsuReader, after: &OsuReader, end: int) -> bool {
        after.bytes() == before.bytes() && after.position() == end
    }

    /// A reader at the start of `buffer`.
    pub fn new(buffer: Vec<u8>) -> (reader: OsuReader)
        ensures
            reader.bytes() == buffer@,
            reader.position() == 0,
    {
        OsuReader { buffer, offset: 0 }
    }

    /// The position of the next byte to read.
    pub fn offset(&self) -> (at: usize)
        ensures
            at == self.position(),
    {
        self.offset
    }

    /// Puts the cursor back at `to`, a position it has been at before.
    pub(crate) fn rewind(&mut self, to: usize)
        requires
            to <= old(self).position(),
        ensures
            Self::advanced(old(self), final(self), to as int),
    {
        proof {
            use_type_invariant(&*self);
        }
        self.offset = to;
    }

    /// Reads the byte at the cursor and steps over it.
    pub fn read_u8(&mut self) -> (result: Result<u8, DecodeError>)
        ensures
            match parse_u8(old(self).bytes(), old(self).position()) {
                Ok((value, end)) => result == Ok::<u8, DecodeError>(value) && Self::advanced(
                    old(self),
                    final(self),
                    end,
                ),
                Err(e) => result == Err::<u8, DecodeError>(e) && Self::advanced(
                    old(self),
                    final(self),
                    old(self).position(),
                ),
            },
    {
        proof {
            use_type_invariant(&*self);
        }
        if self.offset >= self.buffer.len() {
            return Err(DecodeError::OutOfBounds);
        }
        let value = self.buffer[self.offset];
        self.offset += 1;
        Ok(value)
    }

    /// Reads four bytes at the cursor as a little-endian signed integer and
    /// steps over them.
    pub fn read_i32(&mut self) -> (result: Result<i32, DecodeError>)
        ensures
            match parse_i32(old(self).bytes(), old(self).position()) {
                Ok((value, end)) => result == Ok::<i32, DecodeError>(value) && Self::advanced(
                    old(self),
                    final(self),
                    end,
                ),
                Err(e) => result == Err::<i32, DecodeError>(e) && Self::advanced(
                    old(self),
                    final(self),
                    old(self).position(),
                ),
            },
    {
        proof {
            use_type_invariant(&*self);
        }
        if self.buffer.len() - self.offset < 4 {
            return Err(DecodeError::OutOfBounds);
        }
        let b0 = self.buffer[self.offset] as u32;
        let b1 = self.buffer[self.offset + 1] as u32;
        let b2 = self.buffer[self.offset + 2] as u32;
        let b3 = self.buffer[self.offset + 3] as u32;
        self.offset += 4;
        Ok(signed(b0 + 0x100 * b1 + 0x1_0000 * b2 + 0x100_0000 * b3))
    }

    /// Reads an unsigned LEB128 number at the cursor and steps over it.  The
    /// number may have five groups at most; its low 32 bits are returned.
    pub fn read_uleb128(&mut self) -> (result: Result<i32, DecodeError>)
        ensures
            match parse_uleb128(old(self).bytes(), old(self).position()) {
                Ok((value, end)) => result == Ok::<i32, DecodeError>(value) && Self::advanced(
                    old(self),
                    final(self),
                    end,
                ),
                Err(e) => result == Err::<i32, DecodeError>(e) && Self::advanced(
                    old(self),
                    final(self),
                    old(self).position(),
                ),
            },
    {
        proof {
            use_type_invariant(&*self);
        }
        let ghost whole = parse_uleb128_groups(
            self.buffer@,
            self.offset as int,
            ULEB128_MAX_GROUPS as nat,
        );
        let mut low: u64 = 0;
        let mut scale: u64 = 1;
        let mut groups: u8 = 0;
        let mut pos: usize = self.offset;
        loop
            invariant_except_break
                groups <= ULEB128_MAX_GROUPS,
                pos == self.offset + groups,
                scale == group_weight(groups as nat),
                low < scale,
                whole == weighted(
                    low as nat,
                    scale as nat,
                    parse_uleb128_groups(
                        self.buffer@,
                        pos as int,
                        (ULEB128_MAX_GROUPS - groups) as nat,
                    ),
                ),
            invariant
                *self == *old(self),
                whole == parse_uleb128_groups(
                    self.buffer@,
                    self.offset as int,
                    ULEB128_MAX_GROUPS as nat,
                ),
                self.offset <= pos <= self.buffer.len(),
            ensures
                whole == Ok::<(nat, int), DecodeError>((low as nat, pos as int)),
            decreases ULEB128_MAX_GROUPS - groups,
        {
            if pos >= self.buffer.len() {
                return Err(DecodeError::OutOfBounds);
            }
            if groups == ULEB128_MAX_GROUPS {
                return Err(DecodeError::FormatError);
            }
            let byte = self.buffer[pos];
            let ghost tail = parse_uleb128_groups(
                self.buffer@,
                pos + 1,
                (ULEB128_MAX_GROUPS - groups - 1) as nat,
            );
            proof {
                reveal_with_fuel(group_weight, 6);
                assert(scale <= 0x1000_0000);
            }
            if byte < 0x80 {
                assert(scale * byte <= 0x1000_0000 * 0x7f) by (nonlinear_arith)
                    requires
                        scale <= 0x1000_0000,
                        byte < 0x80,
                ;
                low += scale * (byte as u64);
                pos += 1;
                break ;
            }
            let group = (byte - 0x80) as u64;
            proof {
                assert(scale * group <= scale * 0x7f) by (nonlinear_arith)
                    requires
                        group <= 0x7f,
                        scale >= 0,
                ;
                if let Ok((high, end)) = tail {
                    assert(scale * (group + 0x80 * high) == scale * group + (scale * 0x80) * high)
                        by (nonlinear_arith);
                }
            }
            low += scale * group;
            scale *= 0x80;
            groups += 1;
            pos += 1;
        }
        self.offset = pos;
        Ok(signed((low % 0x1_0000_0000) as u32))
    }

    /// Reads a string field at the cursor and steps over it: a presence byte
    /// and, unless that is zero, a length and as many one-byte characters.
    pub fn read_string(&mut self) -> (result: Result<String, DecodeError>)
        ensures
            match parse_string(old(self).bytes(), old(self).position()) {
                Ok((text, end)) => result matches Ok(string) && string@ == text && Self::advanced(
                    old(self),
                    final(self),
                    end,
                ),
                Err(e) => result == Err::<String, DecodeError>(e) && Self::advanced(
                    old(self),
                    final(self),
                    old(self).position(),
                ),
            },
    {
        proof {
            use_type_invariant(&*self);
        }
        let start = self.offset;
        let presence = match self.read_u8() {
            Ok(byte) => byte,
            Err(e) => {
                return Err(e);
            },
        };
        if presence == 0 {
            return Ok(String::new());
        }
        let length = match self.read_uleb128() {
            Ok(length) => length,
            Err(e) => {
                self.offset = start;
                return Err(e);
            },
        };
        proof {
            use_type_invariant(&*self);
        }
        if length < 0 || length as usize > self.buffer.len() - self.offset {
            self.offset = start;
            return Err(DecodeError::OutOfBounds);
        }
        let length = length as usize;
        let ghost first = self.offset as int;
        let mut text = String::new();
        let mut i: usize = 0;
        while i < length
            invariant
                i <= length,
                first == self.offset,
                first + length <= self.buffer.len(),
                text@ == text_at(self.buffer@, first, i as nat),
            decreases length - i,
        {
            text.push(self.buffer[self.offset + i] as char);
            i += 1;
            assert(text@ == text_at(self.buffer@, first, i as nat));
        }
        self.offset += length;
        Ok(text)
    }
}

/// What the groups read so far and the groups still to read make together:
/// `low` stays in the low places, the rest comes `scale` times higher.
spec fn weighted(low: nat, scale: nat, rest: Parsed<nat>) -> Parsed<nat> {
    match rest {
        Ok((high, end)) => Ok((low + scale * high, end)),
        Err(e) => Err(e),
    }
}

/// The signed integer with the bit pattern `pattern`.
fn signed(pattern: u32) -> (v: i32)
    ensures
        v == i32_of_pattern(pattern as int),
{
    if pattern >= 0x8000_0000 {
        (pattern - 0x8000_0000) as i32 + i32::MIN
    } else {
        pattern as i32
    }
}

} // verus!
