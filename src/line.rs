//! Assembling one line from the bytes that the connection delivers.
use vstd::prelude::*;

verus! {

pub const LF: u8 = 10;

pub const CR: u8 = 13;

/// `s` without its trailing carriage returns and line feeds.
pub open spec fn trim_line_end(s: Seq<u8>) -> Seq<u8>
    decreases s.len(),
{
    if s.len() > 0 && (s.last() == CR || s.last() == LF) {
        trim_line_end(s.drop_last())
    } else {
        s
    }
}

/// A line being read byte by byte. It is complete after a line feed, or
/// when a read delivers no byte (nothing more for now).
pub struct LineReader {
    bytes: Vec<u8>,
    complete: bool,
}

impl View for LineReader {
    type V = Seq<u8>;

    closed spec fn view(&self) -> Seq<u8> {
        self.bytes@
    }
}

impl LineReader {
    pub closed spec fn is_complete(&self) -> bool {
        self.complete
    }

    pub fn new() -> (r: LineReader)
        ensures
            r@ == Seq::<u8>::empty(),
            !r.is_complete(),
    {
        LineReader { bytes: Vec::new(), complete: false }
    }

    /// Takes what one single-byte read gave (`None`: no byte). Returns
    /// whether the line is complete.
    pub fn feed(&mut self, byte: Option<u8>) -> (done: bool)
        requires
            !old(self).is_complete(),
        ensures
            final(self).is_complete() == done,
            match byte {
                None => done && final(self)@ == old(self)@,
                Some(b) => final(self)@ == old(self)@.push(b) && done == (b == LF),
            },
    {
        match byte {
            None => {
                self.complete = true;
            },
            Some(b) => {
                self.bytes.push(b);
                self.complete = b == LF;
            },
        }
        self.complete
    }

    /// The bytes read, without the line ending.
    pub fn take_line(self) -> (r: Vec<u8>)
        ensures
            r@ == trim_line_end(self@),
    {
        let mut line = self.bytes;
        while line.len() > 0 && (line[line.len() - 1] == CR || line[line.len() - 1] == LF)
            invariant
                trim_line_end(line@) == trim_line_end(self@),
            decreases line@.len(),
        {
            line.pop();
        }
        line
    }
}

} // verus!
