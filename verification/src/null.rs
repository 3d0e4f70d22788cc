use vstd::prelude::*;

verus! {

/// The units of `s` that stand before its first zero sentinel; all of `s`
/// where no sentinel occurs.
pub open spec fn prefix_to_nul(s: Seq<u16>) -> Seq<u16>
    decreases s.len(),
{
    if s.len() == 0 {
        Seq::empty()
    } else if s[0] == 0 {
        Seq::empty()
    } else {
        seq![s[0]] + prefix_to_nul(s.drop_first())
    }
}

/// Forward-only cursor over a contiguous buffer of units terminated by a
/// zero sentinel, the shape in which one backend returns its raw strings.
/// It yields the units before the first sentinel and never reads past it;
/// it neither owns nor frees the buffer. The view is the sequence of units
/// not yet yielded.
#[derive(Debug, Clone, Copy)]
pub struct Iter<'a> {
    buf: &'a [u16],
    pos: usize,
}

impl<'a> View for Iter<'a> {
    type V = Seq<u16>;

    closed spec fn view(&self) -> Seq<u16> {
        if self.pos as int <= self.buf@.len() {
            prefix_to_nul(self.buf@.skip(self.pos as int))
        } else {
            Seq::empty()
        }
    }
}

impl<'a> Iter<'a> {
    /// A cursor at the start of `buf`.
    pub fn new(buf: &'a [u16]) -> (r: Iter<'a>)
        ensures
            r@ == prefix_to_nul(buf@),
    {
        let r = Iter { buf, pos: 0 };
        proof {
            assert(buf@.skip(0) =~= buf@);
        }
        r
    }

    /// Yields the next unit before the sentinel, or `None` at the sentinel
    /// or at the end of the buffer.
    pub fn next(&mut self) -> (r: Option<u16>)
        ensures
            old(self)@.len() > 0 ==> (r matches Option::Some(u) && u == old(self)@[0]
                && final(self)@ == old(self)@.drop_first()),
            old(self)@.len() == 0 ==> (r is None && final(self)@ == old(self)@),
    {
        if self.pos < self.buf.len() {
            let u = self.buf[self.pos];
            if u == 0 {
                Option::None
            } else {
                proof {
                    let s = self.buf@.skip(self.pos as int);
                    assert(s[0] == self.buf@[self.pos as int]);
                    assert(prefix_to_nul(s) == seq![s[0]] + prefix_to_nul(s.drop_first()));
                    assert(s.drop_first() =~= self.buf@.skip(self.pos as int + 1));
                    assert((seq![s[0]] + prefix_to_nul(s.drop_first())).drop_first()
                        =~= prefix_to_nul(s.drop_first()));
                }
                self.pos = self.pos + 1;
                Option::Some(u)
            }
        } else {
            Option::None
        }
    }
}

} // verus!
