//! The byte stream underneath the parser: newline normalization, line
//! tracking and push-back.
use vstd::prelude::*;

verus! {

/// Line feed.
pub const LF: u8 = 0x0A;

/// Carriage return.
pub const CR: u8 = 0x0D;

/// The logical bytes of `s`: every `\r` becomes `\n`, and a `\n` that directly
/// follows a `\r` is dropped, so that `\n`, `\r` and `\r\n` each read as one
/// `\n`.
pub open spec fn normalize(s: Seq<u8>) -> Seq<u8>
    decreases s.len(),
{
    if s.len() == 0 {
        Seq::empty()
    } else {
        let p = s.drop_last();
        let b = s.last();
        if b == LF && p.len() > 0 && p.last() == CR {
            normalize(p)
        } else if b == CR || b == LF {
            normalize(p).push(LF)
        } else {
            normalize(p).push(b)
        }
    }
}

/// How many line feeds `s` holds.
pub open spec fn count_lf(s: Seq<u8>) -> nat
    decreases s.len(),
{
    if s.len() == 0 {
        0
    } else {
        count_lf(s.drop_last()) + if s.last() == LF { 1nat } else { 0nat }
    }
}

/// The 1-based line on which the last byte of `read` stands (1 when nothing
/// was read).
pub open spec fn line_of_last(read: Seq<u8>) -> nat {
    if read.len() == 0 {
        1
    } else {
        1 + count_lf(read.drop_last())
    }
}

/// Bytes pushed back on a stack read in the order of popping.
pub open spec fn popped(stack: Seq<u8>) -> Seq<u8> {
    Seq::new(stack.len(), |i: int| stack[stack.len() - 1 - i])
}

proof fn lemma_normalize_len(s: Seq<u8>)
    ensures
        normalize(s).len() <= s.len(),
        count_lf(s) <= s.len(),
    decreases s.len(),
{
    if s.len() > 0 {
        lemma_normalize_len(s.drop_last());
    }
}

proof fn lemma_normalize_prefix(s: Seq<u8>, n: int, m: int)
    requires
        0 <= n <= m <= s.len(),
    ensures
        normalize(s.take(n)).len() <= normalize(s.take(m)).len(),
        normalize(s.take(n)) =~= normalize(s.take(m)).take(normalize(s.take(n)).len() as int),
    decreases m - n,
{
    if n < m {
        lemma_normalize_prefix(s, n, m - 1);
        assert(s.take(m).drop_last() =~= s.take(m - 1));
        if m - 1 > 0 {
            assert(s.take(m - 1).last() == s[m - 2]);
        }
    }
}

proof fn lemma_normalize_concat(x: Seq<u8>, y: Seq<u8>)
    requires
        x.len() == 0 || x.last() != CR || y.len() == 0 || y[0] != LF,
    ensures
        normalize(x + y) == normalize(x) + normalize(y),
    decreases y.len(),
{
    if y.len() == 0 {
        assert(x + y =~= x);
        assert(normalize(x) + normalize(y) =~= normalize(x));
    } else {
        let yp = y.drop_last();
        assert((x + y).drop_last() =~= x + yp);
        assert((x + y).last() == y.last());
        lemma_normalize_concat(x, yp);
        if y.len() == 1 {
            assert(yp =~= Seq::<u8>::empty());
            assert(x + yp =~= x);
        } else {
            assert((x + yp).last() == yp.last());
        }
        assert(normalize(x + y) =~= normalize(x) + normalize(y));
    }
}

/// Line breaks read as one line feed: each of `\n`, `\r` and `\r\n`, between
/// text `a` that does not end in `\r` and text `b` that does not continue a
/// lone `\r` into `\r\n`, becomes exactly one `\n`.
pub proof fn lemma_line_break(a: Seq<u8>, nl: Seq<u8>, b: Seq<u8>)
    requires
        nl == seq![LF] || nl == seq![CR] || nl == seq![CR, LF],
        a.len() == 0 || a.last() != CR,
        nl == seq![CR] ==> b.len() == 0 || b[0] != LF,
    ensures
        normalize(a + nl + b) == normalize(a) + seq![LF] + normalize(b),
{
    lemma_normalize_concat(a, nl);
    assert((a + nl).last() == nl.last());
    lemma_normalize_concat(a + nl, b);
    let e = Seq::<u8>::empty();
    assert(seq![LF].drop_last() =~= e);
    assert(seq![CR].drop_last() =~= e);
    assert(seq![CR, LF].drop_last() =~= seq![CR]);
    assert(normalize(e) =~= e);
    if nl == seq![CR, LF] {
        assert(normalize(seq![CR]) =~= seq![LF]);
        assert(seq![CR, LF].last() == LF);
    } else if nl == seq![CR] {
        assert(normalize(seq![CR]) =~= seq![LF]);
    } else {
        assert(normalize(seq![LF]) =~= seq![LF]);
    }
}

/// The newline-normalizing byte stream.
///
/// The source is read front to back; bytes that were pushed back are replayed
/// first, most recently pushed first.
pub struct Bytes {
    input: Vec<u8>,
    pos: usize,
    /// the last byte read from the source
    last_byte: Option<u8>,
    /// whether the last byte handed out from the source was a newline
    newline: bool,
    line: usize,
    /// bytes pushed back, the next one to replay on top
    buf: Vec<u8>,
}

impl View for Bytes {
    type V = Seq<u8>;

    /// The logical bytes still to come: the pushed-back ones, then the rest
    /// of the normalized source.
    closed spec fn view(&self) -> Seq<u8> {
        popped(self.buf@) + normalize(self.input@).skip(self.consumed().len() as int)
    }
}

impl Bytes {
    /// The normalized bytes taken from the source so far.
    pub closed spec fn consumed(&self) -> Seq<u8> {
        normalize(self.input@.take(self.pos as int))
    }

    /// The stream's internal invariant.
    pub closed spec fn wf(&self) -> bool {
        &&& self.pos <= self.input.len()
        &&& self.last_byte == if self.pos == 0 {
            None
        } else {
            Some(self.input@[self.pos - 1])
        }
        &&& self.newline == (self.consumed().len() > 0 && self.consumed().last() == LF)
        &&& self.line == line_of_last(self.consumed())
    }

    /// How many pushed-back bytes wait to be replayed.
    pub closed spec fn pending(&self) -> nat {
        self.buf.len() as nat
    }

    /// How many newlines were delivered from the source so far.
    pub closed spec fn newlines_read(&self) -> nat {
        count_lf(self.consumed())
    }

    /// The 1-based line of the last byte taken from the source.
    pub closed spec fn line(&self) -> nat {
        line_of_last(self.consumed())
    }

    /// Creates a stream over the bytes of `reader`.
    pub fn from_reader(reader: &[u8]) -> (r: Self)
        ensures
            r.wf(),
            r@ == normalize(reader@),
            r.line() == 1,
            r.pending() == 0,
            r.newlines_read() == 0,
    {
        let r = Bytes {
            input: vstd::slice::slice_to_vec(reader),
            pos: 0,
            last_byte: None,
            newline: false,
            line: 1,
            buf: Vec::new(),
        };
        proof {
            assert(r.input@.take(0) =~= Seq::<u8>::empty());
            assert(popped(r.buf@) =~= Seq::<u8>::empty());
            assert(r@ =~= normalize(reader@)) by {
                assert(r.input@ =~= reader@);
            }
        }
        r
    }

    /// The current line number, for diagnostics.
    pub fn location(&self) -> (r: usize)
        requires
            self.wf(),
        ensures
            r == self.line(),
    {
        self.line
    }

    /// Pushes one byte back: it is the next one read.
    pub fn unget(&mut self, b: u8)
        requires
            old(self).wf(),
        ensures
            final(self).wf(),
            final(self)@ == seq![b] + old(self)@,
            final(self).line() == old(self).line(),
            final(self).pending() == old(self).pending() + 1,
            final(self).newlines_read() == old(self).newlines_read(),
    {
        self.buf.push(b);
        assert(popped(self.buf@) =~= seq![b] + popped(old(self).buf@));
        assert(self@ =~= seq![b] + old(self)@);
    }

    /// Pushes a run of bytes back so that the next reads replay it in order.
    pub fn unget_buf(&mut self, buf: &[u8])
        requires
            old(self).wf(),
        ensures
            final(self).wf(),
            final(self)@ == buf@ + old(self)@,
            final(self).line() == old(self).line(),
            final(self).pending() == old(self).pending() + buf@.len(),
            final(self).newlines_read() == old(self).newlines_read(),
    {
        let n = buf.len();
        let mut i: usize = 0;
        while i < n
            invariant
                n == buf@.len(),
                i <= n,
                self.wf(),
                self.input == old(self).input,
                self.pos == old(self).pos,
                popped(self.buf@) =~= buf@.subrange(n - i, n as int) + popped(old(self).buf@),
            decreases n - i,
        {
            let ghost prev = self.buf@;
            let b = buf[n - 1 - i];
            self.buf.push(b);
            i = i + 1;
            assert(popped(self.buf@) =~= seq![b] + popped(prev));
            assert(buf@.subrange(n - i, n as int) =~= seq![b] + buf@.subrange(n - i + 1, n as int));
            assert(popped(self.buf@) =~= buf@.subrange(n - i, n as int) + popped(old(self).buf@));
        }
        assert(buf@.subrange(0, n as int) =~= buf@);
        assert(self@ =~= buf@ + old(self)@);
    }

    /// Reads the next logical byte, or `None` once the stream is exhausted.
    #[verifier::rlimit(40)]
    #[verifier::spinoff_prover]
    pub fn next(&mut self) -> (r: Option<u8>)
        requires
            old(self).wf(),
        ensures
            final(self).wf(),
            old(self)@.len() == 0 ==> r is None && final(self)@ == old(self)@,
            old(self)@.len() > 0 ==> r == Some(old(self)@[0]) && final(self)@
                == old(self)@.drop_first(),
            old(self).pending() > 0 ==> final(self).line() == old(self).line() && final(self).pending()
                == old(self).pending() - 1 && final(self).newlines_read() == old(self).newlines_read(),
            old(self).pending() == 0 && r is Some ==> final(self).line() == 1 + old(
                self,
            ).newlines_read() && final(self).newlines_read() == old(self).newlines_read() + (if r
                == Some(LF) {
                1nat
            } else {
                0nat
            }) && final(self).pending() == 0,
    {
        if let Some(b) = self.buf.pop() {
            assert(self@ =~= old(self)@.drop_first());
            return Some(b);
        }
        proof {
            assert(self.input@.take(self.input@.len() as int) =~= self.input@);
            lemma_normalize_prefix(self.input@, self.pos as int, self.input@.len() as int);
        }
        if self.pos < self.input.len() && self.input[self.pos] == LF && self.last_byte == Some(CR) {
            proof {
                let s = self.input@;
                let p = self.pos as int;
                assert(s.take(p + 1).drop_last() =~= s.take(p));
            }
            self.pos = self.pos + 1;
            self.last_byte = Some(LF);
        }
        assert(self.consumed() == old(self).consumed());
        if self.pos >= self.input.len() {
            assert(self@ =~= old(self)@);
            return None;
        }
        let ghost before = self.consumed();
        let b = self.input[self.pos];
        proof {
            let s = self.input@;
            let p = self.pos as int;
            assert(s.take(p + 1).drop_last() =~= s.take(p));
            lemma_normalize_prefix(s, p + 1, s.len() as int);
            assert(s.take(s.len() as int) =~= s);
            lemma_normalize_len(s.take(p));
            lemma_normalize_len(before);
        }
        self.pos = self.pos + 1;
        self.last_byte = Some(b);
        let out = if b == CR || b == LF {
            LF
        } else {
            b
        };
        proof {
            assert(self.consumed() =~= before.push(out));
            assert(before.push(out).drop_last() =~= before);
            if before.len() > 0 {
                assert(before =~= before.drop_last().push(before.last()));
            }
            let all = normalize(self.input@);
            assert(all.take(before.len() + 1 as int) =~= before.push(out));
            assert(all.take(before.len() + 1 as int)[before.len() as int] == out);
        }
        if self.newline {
            self.line = self.line + 1;
        }
        self.newline = out == LF;
        assert(self@ =~= old(self)@.drop_first());
        Some(out)
    }
}

} // verus!
