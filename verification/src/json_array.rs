use vstd::prelude::*;

verus! {

/// The two bytes `[` and newline that open the array document.
pub open spec fn open_bracket_bytes() -> Seq<u8> {
    seq![91u8, 10u8]
}

/// The three bytes newline, `]`, newline that close the array document.
pub open spec fn close_bracket_bytes() -> Seq<u8> {
    seq![10u8, 93u8, 10u8]
}

/// The comma and newline that separate two items.
pub open spec fn separator_bytes() -> Seq<u8> {
    seq![44u8, 10u8]
}

/// Frames already-serialized items into one array document, incrementally:
/// an opening bracket, the items separated by commas, a closing bracket.
/// Framed bytes gather in an internal buffer until the owner of the wrapped
/// writer drains them, so no more than one undrained stretch is ever held.
pub struct ArrayWriter<W> {
    buffer: Vec<u8>,
    following_item: bool,
    writer: W,
    emitted: Ghost<Seq<u8>>,
}

impl<W> ArrayWriter<W> {
    /// Every byte framed so far, drained or not, in order.
    pub closed spec fn emitted(self) -> Seq<u8> {
        self.emitted@
    }

    /// The framed bytes not yet handed out.
    pub closed spec fn pending(self) -> Seq<u8> {
        self.buffer@
    }

    /// Whether an item was already framed, so that the next one needs a separator.
    pub closed spec fn following_item(self) -> bool {
        self.following_item
    }

    /// What is pending is a tail of what was emitted.
    pub closed spec fn wf(self) -> bool {
        &&& self.buffer@.len() <= self.emitted@.len()
        &&& self.buffer@ == self.emitted@.skip(self.emitted@.len() - self.buffer@.len())
    }

    /// Wrap a writer; nothing is framed yet.
    pub fn new(writer: W) -> (r: Self)
        ensures
            r.wf(),
            r.emitted() == Seq::<u8>::empty(),
            r.pending() == Seq::<u8>::empty(),
            !r.following_item(),
    {
        let r = ArrayWriter {
            buffer: Vec::new(),
            following_item: false,
            writer,
            emitted: Ghost(Seq::empty()),
        };
        proof {
            assert(r.buffer@ =~= r.emitted@.skip(0));
        }
        r
    }

    /// Frame the opening bracket.
    pub fn write_open_bracket(&mut self)
        requires
            old(self).wf(),
        ensures
            final(self).wf(),
            final(self).emitted() == old(self).emitted() + open_bracket_bytes(),
            final(self).pending() == old(self).pending() + open_bracket_bytes(),
            final(self).following_item() == old(self).following_item(),
    {
        self.buffer.push(91);
        self.buffer.push(10);
        self.emitted = Ghost(self.emitted@ + open_bracket_bytes());
        proof {
            assert(self.buffer@ =~= old(self).buffer@ + open_bracket_bytes());
            assert(self.buffer@ =~= self.emitted@.skip(
                self.emitted@.len() - self.buffer@.len(),
            ));
        }
    }

    /// Frame the closing bracket.
    pub fn write_close_bracket(&mut self)
        requires
            old(self).wf(),
        ensures
            final(self).wf(),
            final(self).emitted() == old(self).emitted() + close_bracket_bytes(),
            final(self).pending() == old(self).pending() + close_bracket_bytes(),
            final(self).following_item() == old(self).following_item(),
    {
        self.buffer.push(10);
        self.buffer.push(93);
        self.buffer.push(10);
        self.emitted = Ghost(self.emitted@ + close_bracket_bytes());
        proof {
            assert(self.buffer@ =~= old(self).buffer@ + close_bracket_bytes());
            assert(self.buffer@ =~= self.emitted@.skip(
                self.emitted@.len() - self.buffer@.len(),
            ));
        }
    }

    /// Frame one item, given as its serialized bytes: a separator first when
    /// an item was already framed, then the bytes themselves.
    pub fn write_item(&mut self, item: &Vec<u8>)
        requires
            old(self).wf(),
        ensures
            final(self).wf(),
            final(self).following_item(),
            final(self).emitted() == old(self).emitted() + (if old(self).following_item() {
                separator_bytes() + item@
            } else {
                item@
            }),
            final(self).pending() == old(self).pending() + (if old(self).following_item() {
                separator_bytes() + item@
            } else {
                item@
            }),
    {
        if self.following_item {
            self.buffer.push(44);
            self.buffer.push(10);
        } else {
            self.following_item = true;
        }
        let mut i: usize = 0;
        let ghost mid = self.buffer@;
        while i < item.len()
            invariant
                i <= item@.len(),
                self.buffer@ == mid + item@.take(i as int),
                self.following_item == true,
                self.writer == old(self).writer,
                self.emitted == old(self).emitted,
            decreases item@.len() - i,
        {
            self.buffer.push(item[i]);
            i = i + 1;
            proof {
                assert(self.buffer@ =~= mid + item@.take(i as int));
            }
        }
        proof {
            assert(item@.take(item@.len() as int) =~= item@);
            assert(self.buffer@ =~= old(self).buffer@ + (if old(self).following_item {
                separator_bytes() + item@
            } else {
                item@
            }));
        }
        self.emitted = Ghost(
            self.emitted@ + (if old(self).following_item {
                separator_bytes() + item@
            } else {
                item@
            }),
        );
        proof {
            assert(self.buffer@ =~= self.emitted@.skip(
                self.emitted@.len() - self.buffer@.len(),
            ));
        }
    }

    /// Hand out every framed byte not yet drained, oldest first, leaving
    /// nothing pending. The owner writes them to the wrapped writer.
    pub fn take_pending(&mut self) -> (r: Vec<u8>)
        requires
            old(self).wf(),
        ensures
            final(self).wf(),
            final(self).emitted() == old(self).emitted(),
            final(self).following_item() == old(self).following_item(),
            r@ == old(self).pending(),
            final(self).pending() == Seq::<u8>::empty(),
    {
        let mut r: Vec<u8> = Vec::new();
        core::mem::swap(&mut r, &mut self.buffer);
        proof {
            assert(self.buffer@ =~= self.emitted@.skip(
                self.emitted@.len() - self.buffer@.len(),
            ));
        }
        r
    }
}

} // verus!
