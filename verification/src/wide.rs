use vstd::prelude::*;
use crate::null::{Iter, prefix_to_nul};

verus! {

/// How many 16-bit code units encode `c`: one inside the basic plane, two
/// (a surrogate pair) above it.
pub open spec fn wide_len(c: char) -> int {
    if (c as u32) < 0x10000 {
        1
    } else {
        2
    }
}

/// The 16-bit code units that encode `c`.
pub open spec fn wide_of_char(c: char) -> Seq<u16> {
    if (c as u32) < 0x10000 {
        seq![(c as u32) as u16]
    } else {
        seq![
            (0xD800 + ((c as u32) - 0x10000) / 0x400) as u16,
            (0xDC00 + ((c as u32) - 0x10000) % 0x400) as u16,
        ]
    }
}

/// The 16-bit encoding of a character sequence: the unit in which one
/// backend indexes the text it checks.
pub open spec fn wide_of(s: Seq<char>) -> Seq<u16>
    decreases s.len(),
{
    if s.len() == 0 {
        Seq::empty()
    } else {
        wide_of_char(s[0]) + wide_of(s.drop_first())
    }
}

pub proof fn lemma_wide_of_snoc(s: Seq<char>, c: char)
    ensures
        wide_of(s.push(c)) == wide_of(s) + wide_of_char(c),
    decreases s.len(),
{
    if s.len() == 0 {
        assert(s.push(c)[0] == c);
        assert(s.push(c).drop_first() =~= Seq::<char>::empty());
        assert(wide_of_char(c) + wide_of(Seq::empty()) =~= wide_of_char(c));
        assert(wide_of(s) + wide_of_char(c) =~= wide_of_char(c));
    } else {
        assert(s.push(c)[0] == s[0]);
        assert(s.push(c).drop_first() =~= s.drop_first().push(c));
        lemma_wide_of_snoc(s.drop_first(), c);
        assert(wide_of_char(s[0]) + (wide_of(s.drop_first()) + wide_of_char(c)) =~= (wide_of_char(
            s[0],
        ) + wide_of(s.drop_first())) + wide_of_char(c));
    }
}

/// Encodes `s` into the 16-bit units one backend accepts, with the
/// terminating zero sentinel that its calls expect appended.
pub fn wide_string(s: &str) -> (r: Vec<u16>)
    ensures
        r@ == wide_of(s@).push(0u16),
{
    let n = s.unicode_len();
    let mut r: Vec<u16> = Vec::new();
    let mut i: usize = 0;
    proof {
        assert(s@.take(0) =~= Seq::<char>::empty());
    }
    while i < n
        invariant
            n == s@.len(),
            i <= n,
            r@ == wide_of(s@.take(i as int)),
        decreases n - i,
    {
        let c = s.get_char(i);
        let v = c as u32;
        proof {
            vstd::utf8::char_is_scalar(c);
            lemma_wide_of_snoc(s@.take(i as int), c);
            assert(s@.take(i as int + 1) =~= s@.take(i as int).push(c));
        }
        if v < 0x10000 {
            r.push(v as u16);
            proof {
                assert(r@ =~= wide_of(s@.take(i as int + 1)));
            }
        } else {
            let off = v - 0x10000;
            r.push((0xD800 + off / 0x400) as u16);
            r.push((0xDC00 + off % 0x400) as u16);
            proof {
                assert(r@ =~= wide_of(s@.take(i as int + 1)));
            }
        }
        i = i + 1;
    }
    proof {
        assert(s@.take(n as int) =~= s@);
    }
    r.push(0);
    r
}

/// Character index `n` of `s` stands exactly `cu` 16-bit code units into
/// the encoding of `s`: the engine's offset `cu` names a character
/// boundary.
pub open spec fn cu_boundary(s: Seq<char>, n: int, cu: int) -> bool {
    0 <= n <= s.len() && wide_of(s.take(n)).len() == cu
}

/// The 16-bit length of a prefix grows strictly with the prefix.
pub proof fn lemma_wide_take_mono(s: Seq<char>, m: int, n: int)
    requires
        0 <= m < n <= s.len(),
    ensures
        wide_of(s.take(m)).len() < wide_of(s.take(n)).len(),
    decreases n,
{
    if m < n - 1 {
        lemma_wide_take_mono(s, m, n - 1);
    }
    lemma_wide_of_snoc(s.take(n - 1), s[n - 1]);
    assert(s.take(n) =~= s.take(n - 1).push(s[n - 1]));
}

/// Where one prefix of `s` falls short of `cu` units and the next prefix
/// oversteps it, no prefix at all encodes to exactly `cu` units: `cu`
/// falls inside a surrogate pair.
pub proof fn lemma_no_boundary_inside(s: Seq<char>, i: int, cu: int)
    requires
        0 <= i < s.len(),
        wide_of(s.take(i)).len() < cu,
        wide_of(s.take(i + 1)).len() > cu,
    ensures
        forall|n: int| 0 <= n <= s.len() ==> (#[trigger] wide_of(s.take(n))).len() != cu,
{
    assert forall|n: int| 0 <= n <= s.len() implies (#[trigger] wide_of(s.take(n))).len()
        != cu by {
        if n <= i {
            if n < i {
                lemma_wide_take_mono(s, n, i);
            }
        } else {
            if i + 1 < n {
                lemma_wide_take_mono(s, i + 1, n);
            }
        }
    }
}

/// Where even the whole of `s` encodes to fewer than `cu` units, no prefix
/// encodes to exactly `cu` units: `cu` points past the text.
pub proof fn lemma_no_boundary_beyond(s: Seq<char>, cu: int)
    requires
        wide_of(s).len() < cu,
    ensures
        forall|n: int| 0 <= n <= s.len() ==> (#[trigger] wide_of(s.take(n))).len() != cu,
{
    assert(s.take(s.len() as int) =~= s);
    assert forall|n: int| 0 <= n <= s.len() implies (#[trigger] wide_of(s.take(n))).len()
        != cu by {
        if n < s.len() {
            lemma_wide_take_mono(s, n, s.len() as int);
        }
    }
}

/// Joining the two code units of a surrogate pair, a character above the
/// basic plane.
pub open spec fn pair_char(hi: u16, lo: u16) -> char {
    (((0x10000 + (hi - 0xD800) * 0x400 + (lo - 0xDC00))) as u32) as char
}

/// The character sequence that a sequence of 16-bit code units encodes,
/// or nothing where the units are not a well-formed encoding (a lone or
/// misordered surrogate).
pub open spec fn decode_wide(u: Seq<u16>) -> Option<Seq<char>>
    decreases u.len(),
{
    if u.len() == 0 {
        Option::Some(Seq::empty())
    } else if u[0] < 0xD800 || u[0] >= 0xE000 {
        match decode_wide(u.drop_first()) {
            Option::Some(rest) => Option::Some(seq![(u[0] as u32) as char] + rest),
            Option::None => Option::None,
        }
    } else if u[0] < 0xDC00 && u.len() >= 2 && 0xDC00 <= u[1] && u[1] < 0xE000 {
        match decode_wide(u.skip(2)) {
            Option::Some(rest) => Option::Some(seq![pair_char(u[0], u[1])] + rest),
            Option::None => Option::None,
        }
    } else {
        Option::None
    }
}

/// Relies on char::from_u32: it returns the character of the given scalar
/// value, and nothing exactly for surrogate values and values above the
/// last code point.
#[verifier::external_body]
fn char_from_u32(v: u32) -> (r: Option<char>)
    ensures
        (r matches Option::Some(c) ==> c as u32 == v),
        (r is Some <==> (v < 0xD800 || (0xE000 <= v && v <= 0x10FFFF))),
{
    char::from_u32(v)
}

/// Relies on String::push: it appends exactly the one character.
#[verifier::external_body]
fn push_char(s: &mut String, c: char)
    ensures
        final(s)@ == old(s)@.push(c),
{
    s.push(c);
}

/// Holds while a decode walks its input: the whole input decodes exactly
/// when the rest does, and then to the characters already produced
/// followed by the rest's.
spec fn decode_glue(all: Seq<u16>, done: Seq<char>, rem: Seq<u16>) -> bool {
    decode_wide(all) == (match decode_wide(rem) {
        Option::Some(rest) => Option::Some(done + rest),
        Option::None => Option::<Seq<char>>::None,
    })
}

/// Decodes 16-bit code units into the caller-facing string type, or
/// nothing where they are not a well-formed encoding.
pub fn from_wide(units: &[u16]) -> (r: Option<String>)
    ensures
        (r matches Option::Some(s) ==> decode_wide(units@) == Option::Some(s@)),
        (r is None ==> decode_wide(units@) is None),
{
    let n = units.len();
    let mut out = String::new();
    let mut i: usize = 0;
    proof {
        assert(units@.skip(0) =~= units@);
        assert(Seq::<char>::empty() + (match decode_wide(units@) {
            Option::Some(rest) => rest,
            Option::None => Seq::empty(),
        }) =~= (match decode_wide(units@) {
            Option::Some(rest) => rest,
            Option::None => Seq::empty(),
        }));
    }
    while i < n
        invariant
            n == units@.len(),
            i <= n,
            decode_glue(units@, out@, units@.skip(i as int)),
        decreases n - i,
    {
        let ghost rem = units@.skip(i as int);
        let u = units[i];
        proof {
            assert(rem[0] == units@[i as int]);
        }
        if u < 0xD800 || u >= 0xE000 {
            let c = char_from_u32(u as u32).unwrap();
            proof {
                vstd::utf8::char_u32_cast(c, u as u32);
                assert(rem.drop_first() =~= units@.skip(i as int + 1));
                assert((u as u32) as char == c);
                match decode_wide(units@.skip(i as int + 1)) {
                    Option::Some(rest) => {
                        assert(decode_wide(rem) == Option::Some(seq![c] + rest));
                        assert(out@ + (seq![c] + rest) =~= out@.push(c) + rest);
                    },
                    Option::None => {},
                }
            }
            push_char(&mut out, c);
            i = i + 1;
        } else if u < 0xDC00 && i + 1 < n && 0xDC00 <= units[i + 1] && units[i + 1] < 0xE000 {
            let lo = units[i + 1];
            let v = 0x10000 + (u as u32 - 0xD800) * 0x400 + (lo as u32 - 0xDC00);
            let c = char_from_u32(v).unwrap();
            proof {
                vstd::utf8::char_u32_cast(c, v);
                assert(rem[1] == units@[i as int + 1]);
                assert(rem.len() >= 2);
                assert(pair_char(rem[0], rem[1]) == c);
                assert(rem.skip(2) =~= units@.skip(i as int + 2));
                match decode_wide(units@.skip(i as int + 2)) {
                    Option::Some(rest) => {
                        assert(decode_wide(rem) == Option::Some(seq![c] + rest));
                        assert(out@ + (seq![c] + rest) =~= out@.push(c) + rest);
                    },
                    Option::None => {},
                }
            }
            push_char(&mut out, c);
            i = i + 2;
        } else {
            proof {
                assert(decode_wide(rem) is None);
            }
            return Option::None;
        }
    }
    proof {
        assert(units@.skip(n as int) =~= Seq::<u16>::empty());
        assert(decode_wide(Seq::<u16>::empty()) == Option::Some(Seq::<char>::empty()));
        assert(out@ + Seq::<char>::empty() =~= out@);
    }
    Option::Some(out)
}

/// Round trip: decoding the 16-bit encoding of any character sequence
/// gives back exactly that sequence. The encoding this layer sends to the
/// engine and the decoding it applies to what comes back agree.
pub proof fn lemma_wide_round_trip(s: Seq<char>)
    ensures
        decode_wide(wide_of(s)) == Option::Some(s),
    decreases s.len(),
{
    if s.len() == 0 {
        assert(wide_of(s) =~= Seq::<u16>::empty());
    } else {
        let c = s[0];
        let u = wide_of(s);
        vstd::utf8::char_is_scalar(c);
        lemma_wide_round_trip(s.drop_first());
        if (c as u32) < 0x10000 {
            assert(u == seq![(c as u32) as u16] + wide_of(s.drop_first()));
            assert(u[0] as u32 == c as u32);
            vstd::utf8::char_u32_cast(c, c as u32);
            assert(u.drop_first() =~= wide_of(s.drop_first()));
            assert(decode_wide(u) == Option::Some(seq![c] + s.drop_first()));
            assert(seq![c] + s.drop_first() =~= s);
        } else {
            let v = (c as u32) - 0x10000;
            let hi = (0xD800 + v / 0x400) as u16;
            let lo = (0xDC00 + v % 0x400) as u16;
            assert(u == seq![hi, lo] + wide_of(s.drop_first()));
            assert(0 <= v <= 0xFFFFF);
            assert(v / 0x400 <= 0x3FF) by {
                vstd::arithmetic::div_mod::lemma_div_is_ordered(v as int, 0xFFFFF, 0x400);
            }
            assert(0 <= v % 0x400 < 0x400);
            assert(0xD800 <= u[0] < 0xDC00);
            assert(0xDC00 <= u[1] < 0xE000);
            assert(u.skip(2) =~= wide_of(s.drop_first()));
            assert(pair_char(u[0], u[1]) == c) by {
                vstd::arithmetic::div_mod::lemma_fundamental_div_mod(v as int, 0x400);
                assert((hi - 0xD800) * 0x400 + (lo - 0xDC00) == v);
                assert(0x10000 + (hi - 0xD800) * 0x400 + (lo - 0xDC00) == c as u32);
                vstd::utf8::char_u32_cast(c, c as u32);
            }
            assert(decode_wide(u) == Option::Some(seq![c] + s.drop_first()));
            assert(seq![c] + s.drop_first() =~= s);
        }
    }
}

/// The suggestions that the adaptation yields from raw foreign string
/// buffers: each buffer read up to its zero sentinel and decoded, in the
/// order the engine gave them; a buffer that does not decode is skipped
/// (suggestions are best effort).
pub open spec fn spec_suggestions(bufs: Seq<Seq<u16>>) -> Seq<Seq<char>>
    decreases bufs.len(),
{
    if bufs.len() == 0 {
        Seq::empty()
    } else {
        (match decode_wide(prefix_to_nul(bufs[0])) {
            Option::Some(s) => seq![s],
            Option::None => Seq::empty(),
        }) + spec_suggestions(bufs.drop_first())
    }
}

/// Ownership of the contents of one OS-heap-allocated, zero-terminated
/// string buffer that a foreign call returned. The foreign buffer itself is
/// released by the caller that owns it, exactly once; this value carries
/// the units across into verified code.
#[derive(Debug)]
pub struct StrPtr {
    units: Vec<u16>,
}

impl View for StrPtr {
    type V = Seq<u16>;

    closed spec fn view(&self) -> Seq<u16> {
        self.units@
    }
}

impl StrPtr {
    /// Wraps the units read out of one returned foreign string buffer.
    pub fn new(units: Vec<u16>) -> (r: StrPtr)
        ensures
            r@ == units@,
    {
        StrPtr { units }
    }

    /// The units of the string: everything before the first zero sentinel.
    pub fn read(&self) -> (r: Vec<u16>)
        ensures
            r@ == prefix_to_nul(self@),
    {
        let mut cur = Iter::new(self.units.as_slice());
        let mut r: Vec<u16> = Vec::new();
        proof {
            assert(r@ + cur@ =~= prefix_to_nul(self@));
        }
        loop
            invariant
                r@ + cur@ == prefix_to_nul(self@),
            decreases cur@.len(),
        {
            let ghost prev = cur@;
            match cur.next() {
                Option::Some(u) => {
                    r.push(u);
                    proof {
                        assert(r@ + cur@ =~= prefix_to_nul(self@));
                    }
                },
                Option::None => {
                    proof {
                        assert(r@ + cur@ =~= r@);
                    }
                    return r;
                },
            }
        }
    }
}

} // verus!
