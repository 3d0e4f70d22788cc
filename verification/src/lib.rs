pub mod null;
pub mod tokens;
pub mod wide;

use vstd::prelude::*;
use crate::tokens::{
    Token,
    is_wspace,
    spec_tokens,
    span_wf,
    tokenize,
    lemma_tokens_wf,
    lemma_tokens_all_whitespace,
};
use crate::wide::{
    StrPtr,
    cu_boundary,
    decode_wide,
    from_wide,
    lemma_no_boundary_beyond,
    lemma_no_boundary_inside,
    lemma_wide_of_snoc,
    spec_suggestions,
    wide_of,
    wide_of_char,
};
use crate::null::prefix_to_nul;

verus! {

/// Composes the locator of one dictionary resource from the dictionary
/// root directory and the resource's file name, separated by `/`.
pub fn build_path(root: &str, name: &str) -> (r: String)
    ensures
        r@ == root@ + "/"@ + name@,
{
    proof {
        reveal_strlit("/");
    }
    let mut r = String::from_str(root);
    r.append("/");
    r.append(name);
    r
}

/// The model of one emitted spelling error: where the flagged word stands
/// in the checked text, and the word itself. All offsets and lengths that
/// cross this library's boundary are character (Unicode scalar value)
/// indices into the caller's text.
pub ghost struct ErrModel {
    pub start: int,
    pub length: int,
    pub text: Seq<char>,
}

/// One misspelled word found in a checked text.
#[derive(Clone, Debug)]
pub struct SpellingError {
    start: usize,
    length: usize,
    text: String,
}

impl View for SpellingError {
    type V = ErrModel;

    closed spec fn view(&self) -> ErrModel {
        ErrModel { start: self.start as int, length: self.length as int, text: self.text@ }
    }
}

impl SpellingError {
    /// Start index and length of the flagged word, in character indices
    /// into the text handed to `check`.
    pub fn pos(&self) -> (r: (usize, usize))
        ensures
            r.0 == self@.start,
            r.1 == self@.length,
    {
        (self.start, self.length)
    }

    /// The flagged word itself.
    pub fn text(&self) -> (r: &str)
        ensures
            r@ == self@.text,
    {
        self.text.as_str()
    }
}

/// The views of a list of ignored words.
pub open spec fn word_views(v: Seq<String>) -> Seq<Seq<char>> {
    v.map_values(|s: String| s@)
}

/// The errors that a check of `t` emits, from candidate word `k` on:
/// each candidate word that the engine flagged (`miss`) and that the
/// session's ignore list does not exempt, in scan order.
pub open spec fn errs_from(t: Seq<char>, miss: Seq<bool>, ignored: Seq<Seq<char>>, k: int) -> Seq<
    ErrModel,
>
    decreases spec_tokens(t).len() - k,
{
    if k < 0 || k >= spec_tokens(t).len() {
        Seq::empty()
    } else {
        let sp = spec_tokens(t)[k];
        let w = t.subrange(sp.start, sp.start + sp.length);
        let rest = errs_from(t, miss, ignored, k + 1);
        if k < miss.len() && miss[k] && !ignored.contains(w) {
            seq![ErrModel { start: sp.start, length: sp.length, text: w }] + rest
        } else {
            rest
        }
    }
}

/// The full error sequence of one check: candidate words flagged by the
/// engine and not on the session's ignore list, in scan order.
pub open spec fn spec_errors(t: Seq<char>, miss: Seq<bool>, ignored: Seq<Seq<char>>) -> Seq<
    ErrModel,
> {
    errs_from(t, miss, ignored, 0)
}

proof fn lemma_errs_from_wf(t: Seq<char>, miss: Seq<bool>, ignored: Seq<Seq<char>>, k: int)
    requires
        0 <= k <= spec_tokens(t).len(),
    ensures
        forall|x: int|
            0 <= x < errs_from(t, miss, ignored, k).len() ==> {
                let e = #[trigger] errs_from(t, miss, ignored, k)[x];
                &&& e.length >= 1
                &&& e.start >= 0
                &&& e.start + e.length <= t.len()
                &&& e.text == t.subrange(e.start, e.start + e.length)
                &&& (k < spec_tokens(t).len() ==> e.start >= spec_tokens(t)[k].start)
            },
        forall|x: int, y: int|
            0 <= x < y < errs_from(t, miss, ignored, k).len() ==> (#[trigger] errs_from(
                t,
                miss,
                ignored,
                k,
            )[x]).start + errs_from(t, miss, ignored, k)[x].length < (#[trigger] errs_from(
                t,
                miss,
                ignored,
                k,
            )[y]).start,
    decreases spec_tokens(t).len() - k,
{
    lemma_tokens_wf(t);
    if k < spec_tokens(t).len() {
        lemma_errs_from_wf(t, miss, ignored, k + 1);
        let sp = spec_tokens(t)[k];
        let rest = errs_from(t, miss, ignored, k + 1);
        let w = t.subrange(sp.start, sp.start + sp.length);
        let cur = errs_from(t, miss, ignored, k);
        if k < miss.len() && miss[k] && !ignored.contains(w) {
            let e0 = ErrModel { start: sp.start, length: sp.length, text: w };
            assert(cur == seq![e0] + rest);
            assert(span_wf(t, sp));
            assert forall|x: int| 0 <= x < cur.len() implies {
                let e = #[trigger] cur[x];
                &&& e.length >= 1
                &&& e.start >= 0
                &&& e.start + e.length <= t.len()
                &&& e.text == t.subrange(e.start, e.start + e.length)
                &&& e.start >= sp.start
            } by {
                if x > 0 {
                    assert(cur[x] == rest[x - 1]);
                    assert(k + 1 < spec_tokens(t).len());
                    assert(sp.start + sp.length < spec_tokens(t)[k + 1].start);
                }
            }
            assert forall|x: int, y: int| 0 <= x < y < cur.len() implies (#[trigger] cur[x]).start
                + cur[x].length < (#[trigger] cur[y]).start by {
                assert(cur[y] == rest[y - 1]);
                assert(k + 1 < spec_tokens(t).len());
                if x > 0 {
                    assert(cur[x] == rest[x - 1]);
                } else {
                    assert(cur[0] == e0);
                    assert(sp.start + sp.length < spec_tokens(t)[k + 1].start);
                    assert(rest[y - 1].start >= spec_tokens(t)[k + 1].start);
                }
            }
        } else {
            assert(cur == rest);
            if k + 1 < spec_tokens(t).len() {
                assert(sp.start + sp.length < spec_tokens(t)[k + 1].start);
            }
        }
    }
}

/// Every emitted error flags exactly the span it names: its text equals
/// the checked text at `[start, start + length)`, that span lies inside
/// the text, and no two emitted errors' spans overlap.
pub proof fn lemma_errors_wf(t: Seq<char>, miss: Seq<bool>, ignored: Seq<Seq<char>>)
    ensures
        forall|x: int|
            0 <= x < spec_errors(t, miss, ignored).len() ==> {
                let e = #[trigger] spec_errors(t, miss, ignored)[x];
                &&& e.length >= 1
                &&& e.start >= 0
                &&& e.start + e.length <= t.len()
                &&& e.text == t.subrange(e.start, e.start + e.length)
            },
        forall|x: int, y: int|
            0 <= x < y < spec_errors(t, miss, ignored).len() ==> (#[trigger] spec_errors(
                t,
                miss,
                ignored,
            )[x]).start + spec_errors(t, miss, ignored)[x].length < (#[trigger] spec_errors(
                t,
                miss,
                ignored,
            )[y]).start,
{
    lemma_errs_from_wf(t, miss, ignored, 0);
}

/// Text that holds only whitespace yields an empty error sequence,
/// whatever the engine answered and whatever the session ignores.
pub proof fn lemma_check_whitespace_empty(t: Seq<char>, miss: Seq<bool>, ignored: Seq<Seq<char>>)
    requires
        forall|j: int| 0 <= j < t.len() ==> is_wspace(#[trigger] t[j]),
    ensures
        spec_errors(t, miss, ignored) =~= Seq::<ErrModel>::empty(),
{
    lemma_tokens_all_whitespace(t);
}

/// Checking the same unchanged text twice from the same session, with the
/// same engine verdicts and no intervening `ignore`, yields identical
/// error sequences: same spans, same text, same order.
pub proof fn lemma_check_idempotent(
    t: Seq<char>,
    miss: Seq<bool>,
    ignored: Seq<Seq<char>>,
    first: Seq<ErrModel>,
    second: Seq<ErrModel>,
)
    requires
        first == spec_errors(t, miss, ignored),
        second == spec_errors(t, miss, ignored),
    ensures
        first == second,
{
}

proof fn lemma_errs_from_ignored(
    t: Seq<char>,
    miss: Seq<bool>,
    ignored: Seq<Seq<char>>,
    w: Seq<char>,
    k: int,
)
    requires
        0 <= k <= spec_tokens(t).len(),
        ignored.contains(w),
    ensures
        forall|x: int|
            0 <= x < errs_from(t, miss, ignored, k).len() ==> (#[trigger] errs_from(
                t,
                miss,
                ignored,
                k,
            )[x]).text != w,
    decreases spec_tokens(t).len() - k,
{
    if k < spec_tokens(t).len() {
        lemma_errs_from_ignored(t, miss, ignored, w, k + 1);
        let sp = spec_tokens(t)[k];
        let wk = t.subrange(sp.start, sp.start + sp.length);
        let rest = errs_from(t, miss, ignored, k + 1);
        let cur = errs_from(t, miss, ignored, k);
        if k < miss.len() && miss[k] && !ignored.contains(wk) {
            assert(cur == seq![ErrModel { start: sp.start, length: sp.length, text: wk }] + rest);
            assert forall|x: int| 0 <= x < cur.len() implies (#[trigger] cur[x]).text != w by {
                if x > 0 {
                    assert(cur[x] == rest[x - 1]);
                }
            }
        } else {
            assert(cur == rest);
        }
    }
}

/// Monotonicity of ignore: once `w` stands on a session's ignore list — as
/// `ignore(w)` leaves it — no later `check` on that session flags any
/// occurrence of `w`, whatever the engine answered. A fresh session's list
/// is its own sequence, so its checks are unaffected.
pub proof fn lemma_ignore_monotonic(
    t: Seq<char>,
    miss: Seq<bool>,
    ignored: Seq<Seq<char>>,
    w: Seq<char>,
)
    ensures
        forall|x: int|
            0 <= x < spec_errors(t, miss, ignored.push(w)).len() ==> (#[trigger] spec_errors(
                t,
                miss,
                ignored.push(w),
            )[x]).text != w,
{
    assert(ignored.push(w)[ignored.len() as int] == w);
    assert(ignored.push(w).contains(w));
    lemma_errs_from_ignored(t, miss, ignored.push(w), w, 0);
}

/// One spell-checking session. The native engine itself lives outside this
/// library; its per-word verdicts enter `check` as arguments. The session
/// carries the state this layer owns: the session-local ignore list, which
/// exempts words from being flagged until the session is dropped.
#[derive(Debug)]
pub struct Checker {
    ignored: Vec<String>,
}

impl View for Checker {
    type V = Seq<Seq<char>>;

    closed spec fn view(&self) -> Seq<Seq<char>> {
        word_views(self.ignored@)
    }
}

impl Checker {
    /// Creates a fresh session with an empty ignore list. Independent
    /// sessions never share ignore-list state.
    pub fn new() -> (r: Checker)
        ensures
            r@ =~= Seq::<Seq<char>>::empty(),
    {
        Checker { ignored: Vec::new() }
    }

    /// Whether `word` is on this session's ignore list.
    pub fn is_ignored(&self, word: &str) -> (r: bool)
        ensures
            r == self@.contains(word@),
    {
        let w = word.to_owned();
        let n = self.ignored.len();
        let mut j: usize = 0;
        while j < n
            invariant
                n == self.ignored@.len(),
                w@ == word@,
                j <= n,
                forall|m: int| 0 <= m < j ==> word_views(self.ignored@)[m] != word@,
            decreases n - j,
        {
            proof {
                assert(word_views(self.ignored@)[j as int] == self.ignored@[j as int]@);
            }
            if self.ignored[j].eq(&w) {
                proof {
                    assert(self@[j as int] == word@);
                }
                return true;
            }
            j = j + 1;
        }
        proof {
            assert(forall|m: int| 0 <= m < self@.len() ==> self@[m] != word@);
        }
        false
    }

    /// Temporarily exempts `word` from future checks on this session.
    /// The empty word is a no-op on every backend; other sessions are
    /// unaffected. Takes effect before the next `check` on this session.
    pub fn ignore(&mut self, word: &str)
        ensures
            word@.len() == 0 ==> final(self)@ == old(self)@,
            word@.len() > 0 ==> final(self)@ =~= old(self)@.push(word@),
    {
        if word.unicode_len() == 0 {
            return ;
        }
        let owned = word.to_owned();
        self.ignored.push(owned);
        proof {
            assert(word_views(self.ignored@) =~= word_views(old(self).ignored@).push(word@));
        }
    }

    /// Checks `text` against the engine's per-word verdicts: `misspelled[k]`
    /// is the engine's answer for the `k`-th candidate word of the boundary
    /// scan of `text` (true means flagged). Yields one error for each
    /// flagged candidate word not on this session's ignore list, in
    /// left-to-right scan order. Does not mutate the session.
    pub fn check(&self, text: &str, misspelled: &Vec<bool>) -> (r: ErrorSequence)
        requires
            misspelled@.len() == spec_tokens(text@).len(),
        ensures
            r@ == spec_errors(text@, misspelled@, self@),
    {
        let total = text.unicode_len();
        let toks = tokenize(text);
        let n = toks.len();
        proof {
            lemma_tokens_wf(text@);
            assert(toks@.map_values(|tok: Token| tok@).len() == n);
        }
        let ghost m = misspelled@;
        let ghost ig = self@;
        let mut out: Vec<SpellingError> = Vec::new();
        let mut k: usize = 0;
        while k < n
            invariant
                n == toks@.len(),
                total == text@.len(),
                k <= n,
                toks@.map_values(|tok: Token| tok@) == spec_tokens(text@),
                m == misspelled@,
                m.len() == spec_tokens(text@).len(),
                ig == self@,
                forall|x: int|
                    0 <= x < spec_tokens(text@).len() ==> span_wf(
                        text@,
                        #[trigger] spec_tokens(text@)[x],
                    ),
                out@.map_values(|e: SpellingError| e@) + errs_from(text@, m, ig, k as int)
                    == spec_errors(text@, m, ig),
            decreases n - k,
        {
            let ghost sp = spec_tokens(text@)[k as int];
            proof {
                assert(toks@.map_values(|tok: Token| tok@)[k as int] == toks@[k as int]@);
                assert(span_wf(text@, sp));
            }
            let start = toks[k].start;
            let length = toks[k].length;
            let word = text.substring_char(start, start + length);
            proof {
                assert(word@ == text@.subrange(sp.start, sp.start + sp.length));
            }
            if misspelled[k] && !self.is_ignored(word) {
                let e = SpellingError { start, length, text: word.to_owned() };
                proof {
                    assert(e@ == ErrModel { start: sp.start, length: sp.length, text: word@ });
                    assert(errs_from(text@, m, ig, k as int) == seq![e@] + errs_from(
                        text@,
                        m,
                        ig,
                        k as int + 1,
                    ));
                    assert(out@.push(e).map_values(|er: SpellingError| er@) =~= out@.map_values(
                        |er: SpellingError| er@,
                    ).push(e@));
                    assert(out@.map_values(|er: SpellingError| er@).push(e@) + errs_from(
                        text@,
                        m,
                        ig,
                        k as int + 1,
                    ) =~= out@.map_values(|er: SpellingError| er@) + (seq![e@] + errs_from(
                        text@,
                        m,
                        ig,
                        k as int + 1,
                    )));
                }
                out.push(e);
            } else {
                proof {
                    assert(errs_from(text@, m, ig, k as int) == errs_from(text@, m, ig, k as int + 1));
                }
            }
            k = k + 1;
        }
        proof {
            assert(errs_from(text@, m, ig, n as int) =~= Seq::<ErrModel>::empty());
            assert(out@.map_values(|e: SpellingError| e@) + Seq::<ErrModel>::empty()
                =~= out@.map_values(|e: SpellingError| e@));
        }
        ErrorSequence { errors: out, pos: 0 }
    }
}

impl Default for Checker {
    /// A fresh session, as `new` gives it.
    fn default() -> (r: Checker)
        ensures
            r@ =~= Seq::<Seq<char>>::empty(),
    {
        Checker::new()
    }
}

/// Why a step of the checking layer failed.
#[derive(Debug, Clone, Copy, PartialEq, Eq, Structural)]
pub enum CheckError {
    /// The engine or its session could not be created.
    Initialization,
    /// A native call returned an error status outside the documented
    /// "no more items" terminal signal.
    NativeCall,
    /// A foreign string or span could not be decoded into the
    /// caller-facing representation.
    Encoding,
}

/// Converts one error record of the enumerating backend — a start offset
/// and a length counted in the 16-bit code units in which the engine
/// accepted the text — into a caller-facing error with character indices
/// and the flagged substring. Fails with an encoding error where either
/// offset falls inside a surrogate pair or past the text, and exactly
/// then.
pub fn convert_span(text: &str, cu_start: usize, cu_len: usize) -> (r: Result<
    SpellingError,
    CheckError,
>)
    ensures
        (r matches Result::Ok(e) ==> {
            &&& cu_boundary(text@, e@.start, cu_start as int)
            &&& cu_boundary(text@, e@.start + e@.length, cu_start as int + cu_len as int)
            &&& 0 <= e@.start && 0 <= e@.length && e@.start + e@.length <= text@.len()
            &&& e@.text == text@.subrange(e@.start, e@.start + e@.length)
        }),
        (r matches Result::Err(er) ==> er == CheckError::Encoding && !(exists|a: int, b: int|
            a <= b && #[trigger] cu_boundary(text@, a, cu_start as int) && #[trigger] cu_boundary(
                text@,
                b,
                cu_start as int + cu_len as int,
            ))),
{
    let total = text.unicode_len();
    proof {
        assert(text@.take(0) =~= Seq::<char>::empty());
    }
    let mut i: usize = 0;
    let mut cu: usize = 0;
    while cu < cu_start
        invariant
            total == text@.len(),
            i <= total,
            cu <= cu_start,
            wide_of(text@.take(i as int)).len() == cu,
        decreases cu_start - cu,
    {
        if i == total {
            proof {
                assert(text@.take(total as int) =~= text@);
                lemma_no_boundary_beyond(text@, cu_start as int);
            }
            return Result::Err(CheckError::Encoding);
        }
        let c = text.get_char(i);
        let w: usize = if (c as u32) < 0x10000 {
            1
        } else {
            2
        };
        proof {
            lemma_wide_of_snoc(text@.take(i as int), c);
            assert(text@.take(i as int + 1) =~= text@.take(i as int).push(c));
            assert(wide_of_char(c).len() == w);
        }
        if w > cu_start - cu {
            proof {
                lemma_no_boundary_inside(text@, i as int, cu_start as int);
            }
            return Result::Err(CheckError::Encoding);
        }
        cu = cu + w;
        i = i + 1;
    }
    let start = i;
    let mut cu2: usize = 0;
    while cu2 < cu_len
        invariant
            total == text@.len(),
            start <= i <= total,
            cu2 <= cu_len,
            wide_of(text@.take(start as int)).len() == cu_start,
            wide_of(text@.take(i as int)).len() == cu_start as int + cu2 as int,
        decreases cu_len - cu2,
    {
        if i == total {
            proof {
                assert(text@.take(total as int) =~= text@);
                lemma_no_boundary_beyond(text@, cu_start as int + cu_len as int);
            }
            return Result::Err(CheckError::Encoding);
        }
        let c = text.get_char(i);
        let w: usize = if (c as u32) < 0x10000 {
            1
        } else {
            2
        };
        proof {
            lemma_wide_of_snoc(text@.take(i as int), c);
            assert(text@.take(i as int + 1) =~= text@.take(i as int).push(c));
            assert(wide_of_char(c).len() == w);
        }
        if w > cu_len - cu2 {
            proof {
                lemma_no_boundary_inside(text@, i as int, cu_start as int + cu_len as int);
            }
            return Result::Err(CheckError::Encoding);
        }
        cu2 = cu2 + w;
        i = i + 1;
    }
    let word = text.substring_char(start, i);
    let e = SpellingError { start, length: i - start, text: word.to_owned() };
    proof {
        assert(e@.text == text@.subrange(e@.start, e@.start + e@.length));
    }
    Result::Ok(e)
}

/// A forward-only, single-pass sequence of the suggestions the engine
/// offered for one word, in the engine's own order: this layer neither
/// filters, deduplicates nor reranks them. The view is the sequence of
/// suggestions not yet yielded.
#[derive(Debug)]
pub struct SuggestionSequence {
    items: Vec<String>,
    pos: usize,
}

impl View for SuggestionSequence {
    type V = Seq<Seq<char>>;

    closed spec fn view(&self) -> Seq<Seq<char>> {
        if self.pos as int <= self.items@.len() {
            word_views(self.items@).skip(self.pos as int)
        } else {
            Seq::empty()
        }
    }
}

impl SuggestionSequence {
    /// Yields the next suggestion, or `None` once the sequence is
    /// exhausted. Dropping the sequence early releases nothing but its own
    /// storage; the session is untouched.
    pub fn next(&mut self) -> (r: Option<String>)
        ensures
            old(self)@.len() > 0 ==> (r matches Option::Some(s) && s@ == old(self)@[0]
                && final(self)@ == old(self)@.drop_first()),
            old(self)@.len() == 0 ==> (r is None && final(self)@ == old(self)@),
    {
        if self.pos < self.items.len() {
            proof {
                assert(word_views(self.items@)[self.pos as int] == self.items@[self.pos as int]@);
            }
            let s = self.items[self.pos].clone();
            self.pos = self.pos + 1;
            proof {
                assert(final(self)@ =~= old(self)@.drop_first());
            }
            Option::Some(s)
        } else {
            Option::None
        }
    }
}

impl Checker {
    /// Adapts the suggestion list the engine materialized for `word` —
    /// the backend whose one suggestion call fills a whole list at once —
    /// into a forward-only sequence, order preserved. For the empty word
    /// the engine is not consulted and the sequence is empty.
    pub fn suggest(&self, word: &str, candidates: Vec<String>) -> (r: SuggestionSequence)
        ensures
            word@.len() == 0 ==> r@ =~= Seq::<Seq<char>>::empty(),
            word@.len() > 0 ==> r@ == word_views(candidates@),
    {
        if word.unicode_len() == 0 {
            let r = SuggestionSequence { items: Vec::new(), pos: 0 };
            proof {
                assert(r@ =~= Seq::<Seq<char>>::empty());
            }
            r
        } else {
            let r = SuggestionSequence { items: candidates, pos: 0 };
            proof {
                assert(r@ =~= word_views(candidates@));
            }
            r
        }
    }

    /// Adapts the raw, zero-terminated string buffers that the
    /// enumerating backend hands out one by one for `word` into a
    /// forward-only sequence: each buffer is read to its sentinel and
    /// decoded; one that does not decode is skipped (suggestions are best
    /// effort); order is preserved. For the empty word the engine is not
    /// consulted and the sequence is empty.
    pub fn suggest_wide(&self, word: &str, raw: Vec<StrPtr>) -> (r: SuggestionSequence)
        ensures
            word@.len() == 0 ==> r@ =~= Seq::<Seq<char>>::empty(),
            word@.len() > 0 ==> r@ == spec_suggestions(raw@.map_values(|p: StrPtr| p@)),
    {
        if word.unicode_len() == 0 {
            let r = SuggestionSequence { items: Vec::new(), pos: 0 };
            proof {
                assert(r@ =~= Seq::<Seq<char>>::empty());
            }
            return r;
        }
        let ghost bufs = raw@.map_values(|p: StrPtr| p@);
        let n = raw.len();
        let mut items: Vec<String> = Vec::new();
        let mut k: usize = 0;
        proof {
            assert(bufs.skip(0) =~= bufs);
            assert(word_views(items@) + spec_suggestions(bufs) =~= spec_suggestions(bufs));
        }
        while k < n
            invariant
                n == raw@.len(),
                bufs == raw@.map_values(|p: StrPtr| p@),
                k <= n,
                word_views(items@) + spec_suggestions(bufs.skip(k as int)) == spec_suggestions(
                    bufs,
                ),
            decreases n - k,
        {
            let ghost rem = bufs.skip(k as int);
            proof {
                assert(rem[0] == bufs[k as int]);
                assert(bufs[k as int] == raw@[k as int]@);
                assert(rem.drop_first() =~= bufs.skip(k as int + 1));
            }
            let units = raw[k].read();
            match from_wide(units.as_slice()) {
                Option::Some(s) => {
                    proof {
                        assert(decode_wide(prefix_to_nul(rem[0])) == Option::Some(s@));
                        assert(spec_suggestions(rem) == seq![s@] + spec_suggestions(
                            bufs.skip(k as int + 1),
                        ));
                        assert(word_views(items@.push(s)) =~= word_views(items@).push(s@));
                        assert(word_views(items@).push(s@) + spec_suggestions(
                            bufs.skip(k as int + 1),
                        ) =~= word_views(items@) + (seq![s@] + spec_suggestions(
                            bufs.skip(k as int + 1),
                        )));
                    }
                    items.push(s);
                },
                Option::None => {
                    proof {
                        assert(decode_wide(prefix_to_nul(rem[0])) is None);
                        assert(spec_suggestions(rem) == Seq::<Seq<char>>::empty()
                            + spec_suggestions(bufs.skip(k as int + 1)));
                        assert(Seq::<Seq<char>>::empty() + spec_suggestions(
                            bufs.skip(k as int + 1),
                        ) =~= spec_suggestions(bufs.skip(k as int + 1)));
                    }
                },
            }
            k = k + 1;
        }
        proof {
            assert(bufs.skip(n as int) =~= Seq::<Seq<u16>>::empty());
            assert(word_views(items@) + spec_suggestions(Seq::<Seq<u16>>::empty()) =~= word_views(
                items@,
            ));
        }
        let r = SuggestionSequence { items, pos: 0 };
        proof {
            assert(r@ =~= word_views(r.items@));
        }
        r
    }
}

/// A forward-only, single-pass sequence of the errors one check found.
/// The view is the sequence of errors not yet yielded.
#[derive(Debug)]
pub struct ErrorSequence {
    errors: Vec<SpellingError>,
    pos: usize,
}

impl View for ErrorSequence {
    type V = Seq<ErrModel>;

    closed spec fn view(&self) -> Seq<ErrModel> {
        if self.pos as int <= self.errors@.len() {
            self.errors@.map_values(|e: SpellingError| e@).skip(self.pos as int)
        } else {
            Seq::empty()
        }
    }
}

impl ErrorSequence {
    /// Yields the next error, or `None` once the sequence is exhausted.
    /// Dropping the sequence early releases nothing but the sequence's own
    /// storage; the session is untouched either way.
    pub fn next(&mut self) -> (r: Option<SpellingError>)
        ensures
            old(self)@.len() > 0 ==> (r matches Option::Some(e) && e@ == old(self)@[0]
                && final(self)@ == old(self)@.drop_first()),
            old(self)@.len() == 0 ==> (r is None && final(self)@ == old(self)@),
    {
        if self.pos < self.errors.len() {
            let e = &self.errors[self.pos];
            let out = SpellingError {
                start: e.start,
                length: e.length,
                text: e.text.clone(),
            };
            proof {
                assert(out@ == old(self)@[0]);
            }
            self.pos = self.pos + 1;
            proof {
                assert(final(self)@ =~= old(self)@.drop_first());
            }
            Option::Some(out)
        } else {
            Option::None
        }
    }
}

} // verus!
