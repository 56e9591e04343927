//! A queue of owned string buffers which supports incrementally consuming
//! characters, and pushing characters back to be read again.

use std::collections::VecDeque;
use vstd::prelude::*;

verus! {

/// An owned string together with a read cursor, counted in characters.
pub struct Buffer {
    /// Character position of the next unread character.
    pos: usize,
    /// Number of characters in `buf`.
    len: usize,
    /// The buffer.
    buf: String,
}

impl Buffer {
    /// The cursor lies within the string, and `len` counts its characters.
    pub closed spec fn wf(&self) -> bool {
        &&& self.pos <= self.len
        &&& self.len == self.buf@.len()
    }

    /// The characters that have not been read yet.
    pub closed spec fn rest(&self) -> Seq<char> {
        self.buf@.subrange(self.pos as int, self.buf@.len() as int)
    }

    /// A buffer whose cursor stands at its first character.
    pub fn new(buf: String) -> (r: Buffer)
        ensures
            r.wf(),
            r.rest() == buf@,
    {
        let len: usize = buf.as_str().unicode_len();
        proof {
            assert(buf@.subrange(0, buf@.len() as int) =~= buf@);
        }
        Buffer { pos: 0, len, buf }
    }
}

/// The unread characters of a sequence of buffers, front to back.
pub open spec fn unread_of(bs: Seq<Buffer>) -> Seq<char>
    decreases bs.len(),
{
    if bs.len() == 0 {
        Seq::empty()
    } else {
        bs[0].rest() + unread_of(bs.drop_first())
    }
}

proof fn lemma_unread_push(bs: Seq<Buffer>, b: Buffer)
    ensures
        unread_of(bs.push(b)) == unread_of(bs) + b.rest(),
    decreases bs.len(),
{
    if bs.len() == 0 {
        assert(bs.push(b).drop_first() =~= Seq::<Buffer>::empty());
        assert(unread_of(bs.push(b).drop_first()) == Seq::<char>::empty());
        assert(bs.push(b)[0] == b);
        assert(unread_of(bs.push(b)) =~= unread_of(bs) + b.rest());
    } else {
        assert(bs.push(b).drop_first() =~= bs.drop_first().push(b));
        lemma_unread_push(bs.drop_first(), b);
        assert(unread_of(bs.push(b)) =~= unread_of(bs) + b.rest());
    }
}

proof fn lemma_unread_cons(b: Buffer, bs: Seq<Buffer>)
    ensures
        unread_of(seq![b] + bs) == b.rest() + unread_of(bs),
{
    assert((seq![b] + bs).drop_first() =~= bs);
}

/// A queue of owned string buffers, which supports incrementally
/// consuming characters.
pub struct BufferQueue {
    /// Buffers to process.
    buffers: VecDeque<Buffer>,
    /// Number of available characters.
    available: usize,
}

impl View for BufferQueue {
    type V = Seq<char>;

    /// The characters that can still be read, in the order they will come.
    closed spec fn view(&self) -> Seq<char> {
        unread_of(self.buffers@)
    }
}

impl BufferQueue {
    /// Every buffer is well formed, and `available` counts the unread
    /// characters of all of them.
    pub closed spec fn wf(&self) -> bool {
        &&& forall|i: int| 0 <= i < self.buffers@.len() ==> (#[trigger] self.buffers@[i]).wf()
        &&& self.available == unread_of(self.buffers@).len()
    }

    /// The buffers held, front first.
    pub closed spec fn chunks(&self) -> Seq<Buffer> {
        self.buffers@
    }

    /// The stored count of available characters.
    pub closed spec fn available_count(&self) -> nat {
        self.available as nat
    }

    /// The count of available characters is the total of the unread
    /// lengths of the buffers held, and the characters that can be read are
    /// their unread parts, front to back.
    pub proof fn lemma_available(&self)
        requires
            self.wf(),
        ensures
            self.available_count() == unread_of(self.chunks()).len(),
            self@ == unread_of(self.chunks()),
    {
    }

    /// Once every character has been read, pushing a non-empty buffer at
    /// the back makes characters available again: emptiness is not the
    /// end of the stream.
    pub proof fn lemma_revival(&self, buf: Seq<char>)
        requires
            self.wf(),
            self@.len() == 0,
            buf.len() > 0,
        ensures
            (self@ + buf).len() > 0,
            (self@ + buf)[0] == buf[0],
    {
    }

    /// Create an empty BufferQueue.
    pub fn new() -> (r: BufferQueue)
        ensures
            r.wf(),
            r@ == Seq::<char>::empty(),
    {
        BufferQueue { buffers: VecDeque::new(), available: 0 }
    }

    /// Add a buffer to the beginning of the queue.
    pub fn push_front(&mut self, buf: String)
        requires
            old(self).wf(),
            old(self)@.len() + buf@.len() <= usize::MAX,
        ensures
            final(self).wf(),
            final(self)@ == buf@ + old(self)@,
    {
        let b = Buffer::new(buf);
        self.available = self.available + (b.len - b.pos);
        let ghost bs = self.buffers@;
        self.buffers.push_front(b);
        proof {
            lemma_unread_cons(b, bs);
            assert forall|i: int| 0 <= i < self.buffers@.len() implies (
            #[trigger] self.buffers@[i]).wf() by {
                if i > 0 {
                    assert(self.buffers@[i] == bs[i - 1]);
                }
            }
        }
    }

    /// Add a buffer to the end of the queue.
    pub fn push_back(&mut self, buf: String)
        requires
            old(self).wf(),
            old(self)@.len() + buf@.len() <= usize::MAX,
        ensures
            final(self).wf(),
            final(self)@ == old(self)@ + buf@,
    {
        let b = Buffer::new(buf);
        self.available = self.available + (b.len - b.pos);
        let ghost bs = self.buffers@;
        self.buffers.push_back(b);
        proof {
            lemma_unread_push(bs, b);
            assert forall|i: int| 0 <= i < self.buffers@.len() implies (
            #[trigger] self.buffers@[i]).wf() by {
                if i < bs.len() {
                    assert(self.buffers@[i] == bs[i]);
                }
            }
        }
    }

    /// Do we have at least n characters available?
    pub fn has(&mut self, n: usize) -> (r: bool)
        requires
            old(self).wf(),
        ensures
            *final(self) == *old(self),
            r == (old(self).available_count() >= n),
            r == (old(self)@.len() >= n),
    {
        self.available >= n
    }

    /// Look at the next available character, if any.
    pub fn peek(&self) -> (r: Option<char>)
        requires
            self.wf(),
        ensures
            r == (if self@.len() > 0 {
                Some(self@[0])
            } else {
                None
            }),
    {
        let n: usize = self.buffers.len();
        let mut i: usize = 0;
        proof {
            assert(self.buffers@.subrange(0, n as int) =~= self.buffers@);
        }
        while i < n
            invariant
                self.wf(),
                n == self.buffers@.len(),
                i <= n,
                unread_of(self.buffers@) == unread_of(self.buffers@.subrange(i as int, n as int)),
            decreases n - i,
        {
            let b = &self.buffers[i];
            let ghost rest = self.buffers@.subrange(i as int, n as int);
            proof {
                assert(rest[0] == *b);
                assert(rest.drop_first() =~= self.buffers@.subrange(i + 1, n as int));
                assert(b.wf());
            }
            if b.pos < b.len {
                let c = b.buf.as_str().get_char(b.pos);
                return Some(c);
            }
            i = i + 1;
        }
        proof {
            assert(self.buffers@.subrange(n as int, n as int) =~= Seq::<Buffer>::empty());
        }
        None
    }

    /// Get the next character, if one is available.
    ///
    /// Because more data can arrive at any time, this can return a character
    /// after it has returned `None`.
    pub fn next(&mut self) -> (r: Option<char>)
        requires
            old(self).wf(),
        ensures
            final(self).wf(),
            old(self)@.len() > 0 ==> r == Some(old(self)@[0]) && final(self)@
                == old(self)@.drop_first(),
            old(self)@.len() == 0 ==> r.is_none() && final(self)@ == old(self)@,
    {
        loop
            invariant
                self.wf(),
                self@ == old(self)@,
            decreases self.buffers@.len(),
        {
            let ghost bs = self.buffers@;
            match self.buffers.pop_front() {
                None => {
                    return None;
                },
                Some(mut b) => {
                    proof {
                        assert(bs[0].wf());
                        assert(bs.drop_first() =~= self.buffers@);
                        assert forall|i: int| 0 <= i < self.buffers@.len() implies (
                        #[trigger] self.buffers@[i]).wf() by {
                            assert(self.buffers@[i] == bs[i + 1]);
                        }
                    }
                    if b.pos < b.len {
                        let c = b.buf.as_str().get_char(b.pos);
                        let ghost before = b.rest();
                        b.pos = b.pos + 1;
                        self.available = self.available - 1;
                        proof {
                            assert(b.rest() =~= before.drop_first());
                        }
                        if b.pos < b.len {
                            let ghost tail = self.buffers@;
                            self.buffers.push_front(b);
                            proof {
                                lemma_unread_cons(b, tail);
                                assert(self@ =~= old(self)@.drop_first());
                                assert forall|i: int| 0 <= i < self.buffers@.len() implies (
                                #[trigger] self.buffers@[i]).wf() by {
                                    if i > 0 {
                                        assert(self.buffers@[i] == tail[i - 1]);
                                    }
                                }
                            }
                        } else {
                            proof {
                                assert(b.rest() =~= Seq::<char>::empty());
                                assert(self@ =~= old(self)@.drop_first());
                            }
                        }
                        return Some(c);
                    }
                    proof {
                        assert(b.rest() =~= Seq::<char>::empty());
                        assert(self@ =~= old(self)@);
                    }
                },
            }
        }
    }

    /// Get multiple characters, if that many are available.
    pub fn pop_front(&mut self, n: usize) -> (r: Option<String>)
        requires
            old(self).wf(),
        ensures
            final(self).wf(),
            old(self)@.len() >= n ==> r.is_some() && r.unwrap()@ == old(self)@.take(n as int)
                && final(self)@ == old(self)@.skip(n as int),
            old(self)@.len() < n ==> r.is_none() && *final(self) == *old(self),
    {
        if !self.has(n) {
            return None;
        }
        let ghost start = self@;
        let mut s = String::new();
        let mut k: usize = 0;
        while k < n
            invariant
                self.wf(),
                k <= n <= start.len(),
                s@.len() == k,
                s@ + self@ == start,
            decreases (n - k) + self.buffers@.len(),
        {
            let ghost bs = self.buffers@;
            proof {
                if bs.len() == 0 {
                    assert(self@ == Seq::<char>::empty());
                    assert(start =~= s@);
                }
            }
            let mut b = self.buffers.pop_front().unwrap();
            proof {
                assert(bs[0].wf());
                assert(bs.drop_first() =~= self.buffers@);
                assert forall|i: int| 0 <= i < self.buffers@.len() implies (
                #[trigger] self.buffers@[i]).wf() by {
                    assert(self.buffers@[i] == bs[i + 1]);
                }
            }
            let here: usize = b.len - b.pos;
            let m: usize = if here < n - k {
                here
            } else {
                n - k
            };
            let ghost before = b.rest();
            let ghost s0 = s@;
            {
                let piece = b.buf.as_str().substring_char(b.pos, b.pos + m);
                s.append(piece);
            }
            b.pos = b.pos + m;
            self.available = self.available - m;
            k = k + m;
            proof {
                assert(b.rest() =~= before.skip(m as int));
                assert(s@ =~= s0 + before.take(m as int));
                assert(before =~= before.take(m as int) + before.skip(m as int));
            }
            if b.pos < b.len {
                let ghost tail = self.buffers@;
                self.buffers.push_front(b);
                proof {
                    lemma_unread_cons(b, tail);
                    assert(s@ + self@ =~= start);
                    assert forall|i: int| 0 <= i < self.buffers@.len() implies (
                    #[trigger] self.buffers@[i]).wf() by {
                        if i > 0 {
                            assert(self.buffers@[i] == tail[i - 1]);
                        }
                    }
                }
            } else {
                proof {
                    assert(b.rest() =~= Seq::<char>::empty());
                    assert(s@ + self@ =~= start);
                }
            }
        }
        proof {
            assert(s@ =~= start.take(n as int));
            assert(self@ =~= start.skip(n as int));
        }
        Some(s)
    }
}

} // verus!
