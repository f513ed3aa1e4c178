//! A byte stream held in memory, read line by line or in exact amounts.
//!
//! The reader never looks past what it hands out: after a successful read
//! its cursor stands directly behind the bytes returned.

use crate::error::Error;
use crate::text::{copy_range, CR, LF};
use vstd::prelude::*;

verus! {

/// The first `n` bytes of `s` end with a carriage return and a line feed.
pub open spec fn ends_line(s: Seq<u8>, n: int) -> bool {
    2 <= n <= s.len() && s[n - 2] == CR && s[n - 1] == LF
}

/// `n` is the length of the first line of `s`, terminator included.
pub open spec fn first_line_is(s: Seq<u8>, n: int) -> bool {
    &&& ends_line(s, n)
    &&& forall|m: int| 2 <= m < n ==> !#[trigger] ends_line(s, m)
}

/// The length of the first line of `s`, terminator included, if `s` holds a
/// complete line.
pub open spec fn line_len(s: Seq<u8>) -> Option<int> {
    if exists|n: int| first_line_is(s, n) {
        Some(choose|n: int| first_line_is(s, n))
    } else {
        None
    }
}

/// The first line is the only one that `line_len` can name.
pub proof fn lemma_line_len_is(s: Seq<u8>, n: int)
    requires
        first_line_is(s, n),
    ensures
        line_len(s) == Some(n),
{
    let c = choose|c: int| first_line_is(s, c);
    assert(first_line_is(s, c));
    if c < n {
        assert(!ends_line(s, c));
    }
    if n < c {
        assert(!ends_line(s, n));
    }
}

/// Without a terminator there is no line.
pub proof fn lemma_line_len_none(s: Seq<u8>)
    requires
        forall|m: int| !#[trigger] ends_line(s, m),
    ensures
        line_len(s).is_none(),
{
}

/// A line of text that holds no line feed, followed by a terminator, is the
/// first line of whatever it is put in front of.
pub proof fn lemma_line_len_of_text(text: Seq<u8>, rest: Seq<u8>)
    requires
        forall|i: int| 0 <= i < text.len() ==> text[i] != LF,
    ensures
        line_len(text + seq![CR, LF] + rest) == Some(text.len() as int + 2),
        (text + seq![CR, LF] + rest).take(text.len() as int) == text,
        (text + seq![CR, LF] + rest).skip(text.len() as int + 2) == rest,
{
    let s = text + seq![CR, LF] + rest;
    let n: int = text.len() as int + 2;
    assert(s[n - 2] == CR);
    assert(s[n - 1] == LF);
    assert forall|m: int| 2 <= m < n implies !#[trigger] ends_line(s, m) by {
        if m - 1 < text.len() {
            assert(s[m - 1] == text[m - 1]);
        }
    }
    lemma_line_len_is(s, n);
    assert(s.take(text.len() as int) =~= text);
    assert(s.skip(n) =~= rest);
}

/// Whether what was read so far ends with a line terminator. A caller that
/// reads from a socket up to each line feed has a whole line when it does.
pub fn ends_with_terminator(bytes: &[u8]) -> (yes: bool)
    ensures
        yes == ends_line(bytes@, bytes@.len() as int),
{
    let n: usize = bytes.len();
    n >= 2 && bytes[n - 2] == CR && bytes[n - 1] == LF
}

/// A cursor over a byte buffer.
#[derive(Debug)]
pub struct Reader {
    data: Vec<u8>,
    pos: usize,
}

impl Reader {
    #[verifier::type_invariant]
    spec fn inv(&self) -> bool {
        self.pos <= self.data@.len()
    }

    /// The bytes that have not been read yet.
    pub closed spec fn remaining(&self) -> Seq<u8> {
        self.data@.skip(self.pos as int)
    }

    /// How many bytes have been read so far.
    pub closed spec fn consumed(&self) -> nat {
        self.pos as nat
    }

    /// A reader that stands at the first byte of `data`.
    pub fn new(data: Vec<u8>) -> (reader: Reader)
        ensures
            reader.remaining() == data@,
            reader.consumed() == 0,
    {
        assert(data@.skip(0) =~= data@);
        Reader { data, pos: 0 }
    }

    /// How many bytes are left to read.
    pub fn available(&self) -> (n: usize)
        ensures
            n == self.remaining().len(),
    {
        proof {
            use_type_invariant(self);
        }
        self.data.len() - self.pos
    }

    /// Reads up to and including the next carriage return and line feed,
    /// and returns the line with that terminator. Fails, reading nothing,
    /// when the stream ends before a terminator.
    pub fn read_line(&mut self) -> (line: Result<Vec<u8>, Error>)
        ensures
            match line_len(old(self).remaining()) {
                Some(n) => {
                    &&& line matches Ok(bytes)
                    &&& bytes@ == old(self).remaining().take(n)
                    &&& final(self).remaining() == old(self).remaining().skip(n)
                    &&& final(self).consumed() == old(self).consumed() + n
                },
                None => {
                    &&& line == Err::<Vec<u8>, Error>(Error::UnexpectedEof)
                    &&& final(self).remaining() == old(self).remaining()
                    &&& final(self).consumed() == old(self).consumed()
                },
            },
    {
        proof {
            use_type_invariant(&*self);
        }
        let ghost rest = self.remaining();
        let from: usize = self.pos;
        let len: usize = self.data.len();
        let mut i: usize = from;
        while len - i >= 2
            invariant
                from <= i <= len,
                len == self.data@.len(),
                from == self.pos,
                *self == *old(self),
                rest == self.data@.skip(from as int),
                forall|m: int| 2 <= m < i - from + 2 ==> !#[trigger] ends_line(rest, m),
            decreases len - i,
        {
            if self.data[i] == CR && self.data[i + 1] == LF {
                let bytes = copy_range(self.data.as_slice(), from, i + 2);
                proof {
                    let n = i + 2 - from;
                    assert(rest[n - 2] == self.data@[i as int]);
                    assert(rest[n - 1] == self.data@[i + 1]);
                    lemma_line_len_is(rest, n);
                    assert(rest.take(n) =~= bytes@);
                    assert(rest.skip(n) =~= self.data@.skip(i + 2));
                }
                self.pos = i + 2;
                return Ok(bytes);
            }
            proof {
                let m = i - from + 2;
                assert(rest[m - 2] == self.data@[i as int]);
                assert(rest[m - 1] == self.data@[i + 1]);
            }
            i += 1;
        }
        proof {
            lemma_line_len_none(rest);
        }
        Err(Error::UnexpectedEof)
    }

    /// Reads exactly `n` bytes. Fails, reading nothing, when fewer are left.
    pub fn read_exact(&mut self, n: usize) -> (bytes: Result<Vec<u8>, Error>)
        ensures
            if n <= old(self).remaining().len() {
                &&& bytes matches Ok(b)
                &&& b@ == old(self).remaining().take(n as int)
                &&& final(self).remaining() == old(self).remaining().skip(n as int)
                &&& final(self).consumed() == old(self).consumed() + n
            } else {
                &&& bytes == Err::<Vec<u8>, Error>(Error::UnexpectedEof)
                &&& final(self).remaining() == old(self).remaining()
                &&& final(self).consumed() == old(self).consumed()
            },
    {
        proof {
            use_type_invariant(&*self);
        }
        let from: usize = self.pos;
        if n > self.data.len() - from {
            return Err(Error::UnexpectedEof);
        }
        let b = copy_range(self.data.as_slice(), from, from + n);
        proof {
            let rest = self.data@.skip(from as int);
            assert(rest.take(n as int) =~= b@);
            assert(rest.skip(n as int) =~= self.data@.skip(from + n));
        }
        self.pos = from + n;
        Ok(b)
    }
}

} // verus!
