use vstd::prelude::*;

verus! {

/// The whitespace set of the boundary scan: the characters that separate
/// candidate words. This is the Unicode `White_Space` set.
pub open spec fn is_wspace(c: char) -> bool {
    ||| c == '\t'
    ||| c == '\n'
    ||| c == '\u{b}'
    ||| c == '\u{c}'
    ||| c == '\r'
    ||| c == ' '
    ||| c == '\u{85}'
    ||| c == '\u{a0}'
    ||| c == '\u{1680}'
    ||| c == '\u{2000}'
    ||| c == '\u{2001}'
    ||| c == '\u{2002}'
    ||| c == '\u{2003}'
    ||| c == '\u{2004}'
    ||| c == '\u{2005}'
    ||| c == '\u{2006}'
    ||| c == '\u{2007}'
    ||| c == '\u{2008}'
    ||| c == '\u{2009}'
    ||| c == '\u{200a}'
    ||| c == '\u{2028}'
    ||| c == '\u{2029}'
    ||| c == '\u{202f}'
    ||| c == '\u{205f}'
    ||| c == '\u{3000}'
}

/// Whether `c` separates candidate words.
pub fn wspace(c: char) -> (r: bool)
    ensures
        r == is_wspace(c),
{
    c == '\t' || c == '\n' || c == '\u{b}' || c == '\u{c}' || c == '\r' || c == ' '
        || c == '\u{85}' || c == '\u{a0}' || c == '\u{1680}' || c == '\u{2000}'
        || c == '\u{2001}' || c == '\u{2002}' || c == '\u{2003}' || c == '\u{2004}'
        || c == '\u{2005}' || c == '\u{2006}' || c == '\u{2007}' || c == '\u{2008}'
        || c == '\u{2009}' || c == '\u{200a}' || c == '\u{2028}' || c == '\u{2029}'
        || c == '\u{202f}' || c == '\u{205f}' || c == '\u{3000}'
}

/// A span of the source text, in character (Unicode scalar value) indices:
/// the caller-facing index unit of this library.
pub ghost struct Span {
    pub start: int,
    pub length: int,
}

/// One candidate word of the boundary scan: a maximal run of
/// non-whitespace characters, located by character indices.
pub struct Token {
    pub start: usize,
    pub length: usize,
}

impl View for Token {
    type V = Span;

    open spec fn view(&self) -> Span {
        Span { start: self.start as int, length: self.length as int }
    }
}

/// The boundary scan of `t` from position `i` on, with `run` holding the
/// start of the non-whitespace run currently open, if one is.
pub open spec fn scan(t: Seq<char>, i: int, run: Option<int>) -> Seq<Span>
    decreases t.len() - i,
{
    if i < 0 || i >= t.len() {
        match run {
            Option::None => Seq::empty(),
            Option::Some(s) => seq![Span { start: s, length: i - s }],
        }
    } else if is_wspace(t[i]) {
        match run {
            Option::None => scan(t, i + 1, Option::None),
            Option::Some(s) => seq![Span { start: s, length: i - s }] + scan(t, i + 1, Option::None),
        }
    } else {
        match run {
            Option::None => scan(t, i + 1, Option::Some(i)),
            Option::Some(s) => scan(t, i + 1, Option::Some(s)),
        }
    }
}

/// The candidate words of `t`: its maximal runs of non-whitespace
/// characters, in left-to-right order.
pub open spec fn spec_tokens(t: Seq<char>) -> Seq<Span> {
    scan(t, 0, Option::None)
}

/// A span is a well-formed candidate word of `t`: non-empty, inside `t`,
/// all non-whitespace, and maximal on both sides.
pub open spec fn span_wf(t: Seq<char>, sp: Span) -> bool {
    &&& sp.length >= 1
    &&& sp.start >= 0
    &&& sp.start + sp.length <= t.len()
    &&& (forall|j: int| sp.start <= j < sp.start + sp.length ==> !is_wspace(t[j]))
    &&& (sp.start == 0 || is_wspace(t[sp.start - 1]))
    &&& (sp.start + sp.length == t.len() || is_wspace(t[sp.start + sp.length]))
}

proof fn lemma_scan_wf(t: Seq<char>, i: int, run: Option<int>)
    requires
        0 <= i <= t.len(),
        (match run {
            Option::Some(s) => 0 <= s < i && (forall|j: int| s <= j < i ==> !is_wspace(t[j])) && (s
                == 0 || is_wspace(t[s - 1])),
            Option::None => i == 0 || is_wspace(t[i - 1]),
        }),
    ensures
        forall|k: int|
            0 <= k < scan(t, i, run).len() ==> span_wf(t, #[trigger] scan(t, i, run)[k]),
        forall|k: int|
            0 <= k < scan(t, i, run).len() ==> (#[trigger] scan(t, i, run)[k]).start >= (match run {
                Option::Some(s) => s,
                Option::None => i,
            }),
        forall|k: int, l: int|
            0 <= k < l < scan(t, i, run).len() ==> (#[trigger] scan(t, i, run)[k]).start + scan(
                t,
                i,
                run,
            )[k].length < (#[trigger] scan(t, i, run)[l]).start,
    decreases t.len() - i,
{
    if i >= t.len() {
    } else if is_wspace(t[i]) {
        lemma_scan_wf(t, i + 1, Option::None);
        match run {
            Option::None => {
                assert(scan(t, i, run) == scan(t, i + 1, Option::None));
            },
            Option::Some(s) => {
                let rest = scan(t, i + 1, Option::None);
                assert(scan(t, i, run) == seq![Span { start: s, length: i - s }] + rest);
                assert forall|k: int| 0 <= k < scan(t, i, run).len() implies span_wf(
                    t,
                    #[trigger] scan(t, i, run)[k],
                ) by {
                    if k > 0 {
                        assert(scan(t, i, run)[k] == rest[k - 1]);
                    }
                }
                assert forall|k: int| 0 <= k < scan(t, i, run).len() implies (#[trigger] scan(
                    t,
                    i,
                    run,
                )[k]).start >= s by {
                    if k > 0 {
                        assert(scan(t, i, run)[k] == rest[k - 1]);
                    }
                }
                assert forall|k: int, l: int| 0 <= k < l < scan(t, i, run).len() implies (
                #[trigger] scan(t, i, run)[k]).start + scan(t, i, run)[k].length < (#[trigger] scan(
                    t,
                    i,
                    run,
                )[l]).start by {
                    assert(scan(t, i, run)[l] == rest[l - 1]);
                    if k > 0 {
                        assert(scan(t, i, run)[k] == rest[k - 1]);
                    }
                }
            },
        }
    } else {
        match run {
            Option::None => {
                lemma_scan_wf(t, i + 1, Option::Some(i));
                assert(scan(t, i, run) == scan(t, i + 1, Option::Some(i)));
            },
            Option::Some(s) => {
                lemma_scan_wf(t, i + 1, Option::Some(s));
                assert(scan(t, i, run) == scan(t, i + 1, Option::Some(s)));
            },
        }
    }
}

/// Every candidate word of the boundary scan is a well-formed span of `t`,
/// and no two candidate words overlap: later words start strictly after
/// earlier words end.
pub proof fn lemma_tokens_wf(t: Seq<char>)
    ensures
        forall|k: int|
            0 <= k < spec_tokens(t).len() ==> span_wf(t, #[trigger] spec_tokens(t)[k]),
        forall|k: int, l: int|
            0 <= k < l < spec_tokens(t).len() ==> (#[trigger] spec_tokens(t)[k]).start
                + spec_tokens(t)[k].length < (#[trigger] spec_tokens(t)[l]).start,
{
    lemma_scan_wf(t, 0, Option::None);
}

/// Text that holds only whitespace has no candidate words.
pub proof fn lemma_tokens_all_whitespace(t: Seq<char>)
    requires
        forall|j: int| 0 <= j < t.len() ==> is_wspace(#[trigger] t[j]),
    ensures
        spec_tokens(t) =~= Seq::<Span>::empty(),
{
    lemma_scan_empty(t, 0);
}

proof fn lemma_scan_empty(t: Seq<char>, i: int)
    requires
        0 <= i <= t.len(),
        forall|j: int| 0 <= j < t.len() ==> is_wspace(#[trigger] t[j]),
    ensures
        scan(t, i, Option::None) =~= Seq::<Span>::empty(),
    decreases t.len() - i,
{
    if i < t.len() {
        lemma_scan_empty(t, i + 1);
    }
}

/// Scans `text` for candidate words: maximal runs of non-whitespace
/// characters, returned in left-to-right order.
pub fn tokenize(text: &str) -> (r: Vec<Token>)
    ensures
        r@.map_values(|tok: Token| tok@) == spec_tokens(text@),
{
    let n = text.unicode_len();
    let mut r: Vec<Token> = Vec::new();
    let mut i: usize = 0;
    let mut run: Option<usize> = Option::None;
    while i < n
        invariant
            n == text@.len(),
            i <= n,
            (match run {
                Option::None => true,
                Option::Some(s) => s < i,
            }),
            r@.map_values(|tok: Token| tok@) + scan(
                text@,
                i as int,
                match run {
                    Option::None => Option::None,
                    Option::Some(s) => Option::Some(s as int),
                },
            ) == spec_tokens(text@),
        decreases n - i,
    {
        let c = text.get_char(i);
        if wspace(c) {
            match run {
                Option::None => {},
                Option::Some(s) => {
                    let tok = Token { start: s, length: i - s };
                    proof {
                        assert(r@.push(tok).map_values(|t: Token| t@) =~= r@.map_values(
                            |t: Token| t@,
                        ).push(tok@));
                    }
                    r.push(tok);
                },
            }
            run = Option::None;
        } else {
            match run {
                Option::None => {
                    run = Option::Some(i);
                },
                Option::Some(_) => {},
            }
        }
        i = i + 1;
    }
    match run {
        Option::None => {},
        Option::Some(s) => {
            let tok = Token { start: s, length: n - s };
            proof {
                assert(r@.push(tok).map_values(|t: Token| t@) =~= r@.map_values(
                    |t: Token| t@,
                ).push(tok@));
            }
            r.push(tok);
        },
    }
    proof {
        assert(r@.map_values(|tok: Token| tok@) + Seq::<Span>::empty() =~= r@.map_values(
            |tok: Token| tok@,
        ));
    }
    r
}

} // verus!
