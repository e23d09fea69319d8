//! The scanner: a character sequence with a consumption cursor, and the
//! "current / peek / advance / consume a run of hex digits" primitives
//! that the literal parser drives. It knows nothing about
//! floating-point semantics.
use vstd::prelude::*;

verus! {

/// Whether a character is a hexadecimal digit (`0-9`, `a-f`, `A-F`).
pub open spec fn is_hex_digit(c: char) -> bool {
    ||| 48 <= c as u32 <= 57
    ||| 97 <= c as u32 <= 102
    ||| 65 <= c as u32 <= 70
}

/// The value (0-15) of a hexadecimal digit character.
pub open spec fn hex_value(c: char) -> u8 {
    if 48 <= c as u32 <= 57 {
        (c as u32 - 48) as u8
    } else if 65 <= c as u32 <= 70 {
        (c as u32 - 55) as u8
    } else {
        (c as u32 - 87) as u8
    }
}

/// Decode a hexadecimal digit character to its value.
pub fn hex_digit_value(c: char) -> (r: Option<u8>)
    ensures
        r == (if is_hex_digit(c) {
            Some(hex_value(c))
        } else {
            None::<u8>
        }),
{
    let u = c as u32;
    if 48 <= u && u <= 57 {
        Some((u - 48) as u8)
    } else if 65 <= u && u <= 70 {
        Some((u - 55) as u8)
    } else if 97 <= u && u <= 102 {
        Some((u - 87) as u8)
    } else {
        None
    }
}

/// The first index at or after `from` whose character is not a hex
/// digit, or the length of the sequence when the run reaches its end.
pub open spec fn hex_run_end(s: Seq<char>, from: int) -> int
    decreases s.len() - from,
    when 0 <= from <= s.len()
{
    if from < s.len() && is_hex_digit(s[from]) {
        hex_run_end(s, from + 1)
    } else {
        from
    }
}

/// The decoded values of the characters of `s` between `from` and
/// `to`.
pub open spec fn hex_values(s: Seq<char>, from: int, to: int) -> Seq<u8> {
    Seq::new((to - from) as nat, |i: int| hex_value(s[from + i]))
}

/// What `hex_run_end` delimits: a maximal run of hex digits.
pub proof fn lemma_hex_run_end(s: Seq<char>, from: int)
    requires
        0 <= from <= s.len(),
    ensures
        from <= hex_run_end(s, from) <= s.len(),
        forall|i: int| from <= i < hex_run_end(s, from) ==> is_hex_digit(s[i]),
        hex_run_end(s, from) < s.len() ==> !is_hex_digit(s[hex_run_end(s, from)]),
    decreases s.len() - from,
{
    if from < s.len() && is_hex_digit(s[from]) {
        lemma_hex_run_end(s, from + 1);
    }
}

/// An iterator over characters that counts how many it has consumed.
pub struct CharsIterator {
    /// The characters being scanned.
    pub chars: Vec<char>,
    /// How many characters have been consumed: the cursor.
    pub consumed: usize,
}

impl CharsIterator {
    /// The cursor lies within the sequence.
    pub open spec fn wf(&self) -> bool {
        self.consumed <= self.chars@.len()
    }

    /// Get the current char, or `'\0'` at the end of the input.
    pub fn current(&self) -> (c: char)
        ensures
            c == (if self.consumed < self.chars@.len() {
                self.chars@[self.consumed as int]
            } else {
                '\0'
            }),
    {
        match self.peek() {
            Some(c) => c,
            None => '\0',
        }
    }

    /// Get the current char, or `None` at the end of the input.
    pub fn peek(&self) -> (c: Option<char>)
        ensures
            c == (if self.consumed < self.chars@.len() {
                Some(self.chars@[self.consumed as int])
            } else {
                None::<char>
            }),
    {
        if self.consumed < self.chars.len() {
            Some(self.chars[self.consumed])
        } else {
            None
        }
    }

    /// Get the next char, incrementing `consumed`.
    pub fn next(&mut self) -> (c: Option<char>)
        ensures
            final(self).chars@ == old(self).chars@,
            old(self).consumed < old(self).chars@.len() ==> {
                &&& c == Some(old(self).chars@[old(self).consumed as int])
                &&& final(self).consumed == old(self).consumed + 1
            },
            old(self).consumed >= old(self).chars@.len() ==> {
                &&& c == None::<char>
                &&& final(self).consumed == old(self).consumed
            },
    {
        let r = self.peek();
        if self.consumed < self.chars.len() {
            self.consumed = self.consumed + 1;
        }
        r
    }

    /// Consume a maximal run of hex digits and return their decoded
    /// values. The returned values are integers, not ascii characters.
    /// The cursor is left at the first character that is not a hex
    /// digit.
    pub fn consume_hex_digits(&mut self) -> (digits: Vec<u8>)
        requires
            old(self).wf(),
        ensures
            final(self).chars@ == old(self).chars@,
            final(self).consumed == hex_run_end(old(self).chars@, old(self).consumed as int),
            digits@ == hex_values(old(self).chars@, old(self).consumed as int, final(self).consumed as int),
            final(self).wf(),
    {
        let ghost s = self.chars@;
        let ghost start = self.consumed as int;
        proof {
            lemma_hex_run_end(s, start);
            assert(hex_values(s, start, start) =~= Seq::<u8>::empty());
        }
        let mut digits: Vec<u8> = Vec::new();
        loop
            invariant_except_break
                self.wf(),
                self.chars@ == s,
                0 <= start <= self.consumed,
                hex_run_end(s, start) == hex_run_end(s, self.consumed as int),
                digits@ == hex_values(s, start, self.consumed as int),
            ensures
                self.wf(),
                self.chars@ == s,
                self.consumed == hex_run_end(s, start),
                digits@ == hex_values(s, start, self.consumed as int),
            decreases s.len() - self.consumed,
        {
            if self.consumed >= self.chars.len() {
                break ;
            }
            let c = self.chars[self.consumed];
            match hex_digit_value(c) {
                Some(d) => {
                    proof {
                        assert(hex_values(s, start, self.consumed + 1) =~= hex_values(
                            s,
                            start,
                            self.consumed as int,
                        ).push(hex_value(s[self.consumed as int])));
                    }
                    digits.push(d);
                    self.consumed = self.consumed + 1;
                },
                None => {
                    break ;
                },
            }
        }
        digits
    }
}

} // verus!
