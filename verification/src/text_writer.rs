//! A console text writer.
//!
//! The writer keeps every character inside the printable ASCII range:
//! printable bytes, carriage return and line feed pass through, and
//! everything else becomes a dot.  The sanitized bytes gather in the
//! writer's buffer; what drains the buffer to a device lives outside
//! the library.

use vstd::prelude::*;
use vstd::string::StringSliceAdditionalSpecFns;

verus! {

/// What one input byte becomes on the console: itself when printable
/// ASCII, carriage return or line feed, a dot otherwise.
pub open spec fn spec_printable(b: u8) -> u8 {
    if (0x20 <= b && b <= 0x7e) || b == 0x0a || b == 0x0d {
        b
    } else {
        0x2e
    }
}

/// A text writer that buffers sanitized console output.
pub struct TextWriter {
    pub output: Vec<u8>,
}

impl TextWriter {
    /// A writer with an empty buffer.
    pub fn new() -> (r: Self)
        ensures
            r.output@.len() == 0,
    {
        Self { output: Vec::new() }
    }

    /// Appends the string's bytes to the buffer, each reduced to
    /// printable ASCII.
    pub fn write_ascii_printables(&mut self, utf8_str: &str)
        ensures
            final(self).output@ == old(self).output@ + utf8_str.spec_bytes().map_values(
                |b: u8| spec_printable(b),
            ),
    {
        let bytes = utf8_str.as_bytes();
        let ghost start = self.output@;
        let mut i: usize = 0;
        while i < bytes.len()
            invariant
                0 <= i <= bytes@.len(),
                bytes@ == utf8_str.spec_bytes(),
                self.output@ == start + bytes@.take(i as int).map_values(
                    |b: u8| spec_printable(b),
                ),
            decreases bytes@.len() - i,
        {
            let b = bytes[i];
            let ch: u8 = if (0x20 <= b && b <= 0x7e) || b == 0x0a || b == 0x0d {
                b
            } else {
                0x2e
            };
            self.output.push(ch);
            proof {
                assert(bytes@.take(i + 1).map_values(|b: u8| spec_printable(b)) =~= bytes@.take(
                    i as int,
                ).map_values(|b: u8| spec_printable(b)).push(spec_printable(bytes@[i as int])));
                assert(self.output@ =~= start + bytes@.take(i + 1).map_values(
                    |b: u8| spec_printable(b),
                ));
            }
            i = i + 1;
        }
        proof {
            assert(bytes@.take(bytes@.len() as int) =~= bytes@);
        }
    }
}

} // verus!
