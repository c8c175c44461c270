//! The tokenizer: a single left-to-right scan that splits a text at the
//! characters a [`Filter`](crate::filter::Filter) registers, trims every
//! candidate token and drops the ones that trim to nothing.

use vstd::prelude::*;
use vstd::seq_lib::lemma_flatten_concat;
use vstd::string::StrSliceExecFns;

use crate::filter::Filter;

verus! {

/// The Unicode white-space characters, as trimming understands them.
pub open spec fn is_ws_char(c: char) -> bool {
    c == ' ' || c == '\t' || c == '\n' || c == '\r' || c == '\u{000B}' || c == '\u{000C}'
        || c == '\u{0085}' || c == '\u{00A0}' || c == '\u{1680}' || c == '\u{2000}' || c
        == '\u{2001}' || c == '\u{2002}' || c == '\u{2003}' || c == '\u{2004}' || c == '\u{2005}'
        || c == '\u{2006}' || c == '\u{2007}' || c == '\u{2008}' || c == '\u{2009}' || c
        == '\u{200A}' || c == '\u{2028}' || c == '\u{2029}' || c == '\u{202F}' || c == '\u{205F}'
        || c == '\u{3000}'
}

/// Decides `is_ws_char`.
fn is_whitespace_char(c: char) -> (r: bool)
    ensures
        r == is_ws_char(c),
{
    c == ' ' || c == '\t' || c == '\n' || c == '\r' || c == '\u{000B}' || c == '\u{000C}'
        || c == '\u{0085}' || c == '\u{00A0}' || c == '\u{1680}' || c == '\u{2000}' || c
        == '\u{2001}' || c == '\u{2002}' || c == '\u{2003}' || c == '\u{2004}' || c == '\u{2005}'
        || c == '\u{2006}' || c == '\u{2007}' || c == '\u{2008}' || c == '\u{2009}' || c
        == '\u{200A}' || c == '\u{2028}' || c == '\u{2029}' || c == '\u{202F}' || c == '\u{205F}'
        || c == '\u{3000}'
}

/// The sequence with its leading white space removed.
pub open spec fn trim_front(s: Seq<char>) -> Seq<char>
    decreases s.len(),
{
    if s.len() > 0 && is_ws_char(s[0]) {
        trim_front(s.drop_first())
    } else {
        s
    }
}

/// The sequence with its trailing white space removed.
pub open spec fn trim_back(s: Seq<char>) -> Seq<char>
    decreases s.len(),
{
    if s.len() > 0 && is_ws_char(s.last()) {
        trim_back(s.drop_last())
    } else {
        s
    }
}

/// The sequence with white space removed from both ends.
pub open spec fn trimmed(s: Seq<char>) -> Seq<char> {
    trim_back(trim_front(s))
}

/// What a candidate span contributes: its trimmed text, or nothing when the
/// trimmed text is empty.
pub open spec fn token_of(s: Seq<char>) -> Option<Seq<char>> {
    if trimmed(s).len() == 0 {
        None
    } else {
        Some(trimmed(s))
    }
}

/// An optional token as a (possibly empty) sequence of emitted tokens.
pub open spec fn opt_token(t: Option<Seq<char>>) -> Seq<Seq<char>> {
    match t {
        Some(s) => seq![s],
        None => Seq::empty(),
    }
}

proof fn lemma_trim_front_subrange(s: Seq<char>, lo: int, hi: int)
    requires
        0 <= lo < hi <= s.len(),
        is_ws_char(s[lo]),
    ensures
        trim_front(s.subrange(lo, hi)) == trim_front(s.subrange(lo + 1, hi)),
{
    assert(s.subrange(lo, hi).drop_first() =~= s.subrange(lo + 1, hi));
}

proof fn lemma_trim_back_subrange(s: Seq<char>, lo: int, hi: int)
    requires
        0 <= lo < hi <= s.len(),
        is_ws_char(s[hi - 1]),
    ensures
        trim_back(s.subrange(lo, hi)) == trim_back(s.subrange(lo, hi - 1)),
{
    assert(s.subrange(lo, hi).drop_last() =~= s.subrange(lo, hi - 1));
}

/// Extracts the span `[start, end)` of `text`, trimmed; `None` when nothing
/// but white space is in it.
fn create_token(text: &str, start: usize, end: usize) -> (token: Option<String>)
    requires
        start <= end <= text@.len(),
    ensures
        (match token {
            Some(t) => t@ == trimmed(text@.subrange(start as int, end as int)) && t@.len() > 0,
            None => trimmed(text@.subrange(start as int, end as int)).len() == 0,
        }),
{
    let ghost span = text@.subrange(start as int, end as int);
    let mut lo = start;
    let mut hi = end;
    while lo < hi && is_whitespace_char(text.get_char(lo))
        invariant
            start <= lo <= hi <= text@.len(),
            hi == end,
            trim_front(span) == trim_front(text@.subrange(lo as int, hi as int)),
            span == text@.subrange(start as int, end as int),
        decreases hi - lo,
    {
        proof {
            lemma_trim_front_subrange(text@, lo as int, hi as int);
        }
        lo += 1;
    }
    proof {
        assert(trim_front(span) == text@.subrange(lo as int, hi as int));
    }
    while lo < hi && is_whitespace_char(text.get_char(hi - 1))
        invariant
            start <= lo <= hi <= text@.len(),
            trimmed(span) == trim_back(text@.subrange(lo as int, hi as int)),
            span == text@.subrange(start as int, end as int),
        decreases hi - lo,
    {
        proof {
            lemma_trim_back_subrange(text@, lo as int, hi as int);
        }
        hi -= 1;
    }
    proof {
        assert(trimmed(span) == text@.subrange(lo as int, hi as int));
    }
    if lo == hi {
        None
    } else {
        let t = text.substring_char(lo, hi).to_owned();
        Some(t)
    }
}

/// The rest of one left-to-right scan of `text` under the registry `m`: the
/// scan stands at position `i` and the current candidate token began at
/// `start`.  At a separator the candidate span `[start, i)` is emitted (if
/// anything survives trimming), a kept separator is emitted after it under
/// the same rule, and the next candidate begins behind the separator; the
/// span left when the text ends is emitted the same way.
pub open spec fn scan_from(m: Map<char, bool>, text: Seq<char>, i: int, start: int) -> Seq<
    Seq<char>,
>
    decreases text.len() - i,
{
    if i >= text.len() {
        opt_token(token_of(text.subrange(start, text.len() as int)))
    } else if m.contains_key(text[i]) {
        opt_token(token_of(text.subrange(start, i))) + (if m[text[i]] {
            opt_token(token_of(text.subrange(i, i + 1)))
        } else {
            Seq::empty()
        }) + scan_from(m, text, i + 1, i + 1)
    } else {
        scan_from(m, text, i + 1, start)
    }
}

/// The ordered token sequence that scanning `text` under the registry `m`
/// emits.
pub open spec fn scan_tokens(m: Map<char, bool>, text: Seq<char>) -> Seq<Seq<char>> {
    scan_from(m, text, 0, 0)
}

/// A tokenizer: one scan over a text, directed by its own separator
/// registry.
///
/// Its abstract value (the view) is the registry's map from boundary
/// character to keep flag.
pub struct Tokenizer {
    filter: Filter,
}

impl View for Tokenizer {
    type V = Map<char, bool>;

    closed spec fn view(&self) -> Map<char, bool> {
        self.filter@
    }
}

impl Tokenizer {
    /// The tokenizer's internal invariant: its registry is well formed.
    pub closed spec fn wf(&self) -> bool {
        self.filter.wf()
    }

    /// A tokenizer that splits at the space character alone and discards it.
    pub fn new_default() -> (tokenizer: Tokenizer)
        ensures
            tokenizer.wf(),
            tokenizer@ == space_registry(),
    {
        let mut pairs: Vec<(&str, bool)> = Vec::new();
        pairs.push((" ", false));
        let ghost ps = crate::filter::pairs_view(pairs@);
        let default_filter = Filter::new(pairs);
        proof {
            reveal_strlit(" ");
            assert(ps.len() == 1);
            assert(ps[0] == (" "@, false));
            assert(ps.drop_last() =~= Seq::<(Seq<char>, bool)>::empty());
            assert(ps.last().0 =~= seq![' ']);
            assert(crate::filter::reg_of_pairs(Seq::<(Seq<char>, bool)>::empty())
                == Map::<char, bool>::empty());
            assert(crate::filter::reg_of_pairs(ps) == crate::filter::reg_of_pairs(
                ps.drop_last(),
            ).insert(' ', false));
            assert(default_filter@ =~= Map::<char, bool>::empty().insert(' ', false));
        }
        Tokenizer { filter: default_filter }
    }

    /// A tokenizer over a caller-supplied registry, which it takes over.
    pub fn new(filter: Filter) -> (tokenizer: Tokenizer)
        requires
            filter.wf(),
        ensures
            tokenizer.wf(),
            tokenizer@ == filter@,
    {
        Tokenizer { filter }
    }

    /// Splits `text` into the ordered sequence of tokens that the scan of
    /// [`scan_tokens`] describes: maximal spans between separators and kept
    /// separators, each trimmed of surrounding white space, the ones that
    /// trim to nothing left out.
    pub fn tokenize(&self, text: &str) -> (tokens: Vec<String>)
        requires
            self.wf(),
        ensures
            tokens.deep_view() == scan_tokens(self@, text@),
            forall|j: int|
                0 <= j < tokens@.len() ==> (#[trigger] tokens@[j])@.len() > 0 && !is_ws_char(
                    tokens@[j]@[0],
                ),
    {
        let ghost m = self@;
        let n = text.unicode_len();
        let mut tokens: Vec<String> = Vec::new();
        let mut cursor: usize = 0;
        let mut idx: usize = 0;
        proof {
            assert(tokens.deep_view() =~= Seq::<Seq<char>>::empty());
            assert(Seq::<Seq<char>>::empty() + scan_from(m, text@, 0, 0) =~= scan_from(
                m,
                text@,
                0,
                0,
            ));
        }
        while idx < n
            invariant
                self.wf(),
                m == self@,
                n == text@.len(),
                cursor <= idx <= n,
                tokens.deep_view() + scan_from(m, text@, idx as int, cursor as int) == scan_tokens(
                    m,
                    text@,
                ),
            decreases n - idx,
        {
            let character = text.get_char(idx);
            let ghost before = tokens.deep_view();
            let ghost span_part = opt_token(token_of(text@.subrange(cursor as int, idx as int)));
            let ghost rest = scan_from(m, text@, idx as int + 1, idx as int + 1);
            match self.filter.contains(character) {
                Some(keep) => {
                    let ghost kept_part = (if m[text@[idx as int]] {
                        opt_token(token_of(text@.subrange(idx as int, idx as int + 1)))
                    } else {
                        Seq::<Seq<char>>::empty()
                    });
                    proof {
                        assert(scan_from(m, text@, idx as int, cursor as int) == span_part
                            + kept_part + rest);
                    }
                    if let Some(t) = create_token(text, cursor, idx) {
                        let ghost deep = tokens.deep_view();
                        tokens.push(t);
                        proof {
                            assert(tokens.deep_view() =~= deep.push(t@));
                        }
                    }
                    proof {
                        assert(tokens.deep_view() =~= before + span_part);
                    }
                    if keep {
                        if let Some(t) = create_token(text, idx, idx + 1) {
                            let ghost deep = tokens.deep_view();
                            tokens.push(t);
                            proof {
                                assert(tokens.deep_view() =~= deep.push(t@));
                            }
                        }
                    }
                    proof {
                        assert(tokens.deep_view() =~= before + span_part + kept_part);
                        assert((before + span_part + kept_part) + rest =~= before + (span_part
                            + kept_part + rest));
                    }
                    cursor = idx + 1;
                }
                None => {
                    proof {
                        assert(scan_from(m, text@, idx as int, cursor as int) == scan_from(
                            m,
                            text@,
                            idx as int + 1,
                            cursor as int,
                        ));
                    }
                }
            }
            idx += 1;
        }
        let ghost before = tokens.deep_view();
        let ghost tail_part = opt_token(token_of(text@.subrange(cursor as int, n as int)));
        proof {
            assert(scan_from(m, text@, n as int, cursor as int) == tail_part);
        }
        if let Some(t) = create_token(text, cursor, n) {
            let ghost deep = tokens.deep_view();
            tokens.push(t);
            proof {
                assert(tokens.deep_view() =~= deep.push(t@));
            }
        }
        proof {
            assert(tokens.deep_view() =~= before + tail_part);
            lemma_tokens_well_formed(m, text@);
            assert forall|j: int| 0 <= j < tokens@.len() implies (#[trigger] tokens@[j])@.len() > 0
                && !is_ws_char(tokens@[j]@[0]) by {
                assert(tokens.deep_view()[j] == tokens@[j]@);
                assert(scan_tokens(m, text@)[j].len() > 0 && !is_ws_char(scan_tokens(m, text@)[j][0]));
            }
        }
        tokens
    }
}

proof fn lemma_trim_front_first_non_ws(s: Seq<char>)
    ensures
        trim_front(s).len() > 0 ==> !is_ws_char(trim_front(s)[0]),
    decreases s.len(),
{
    if s.len() > 0 && is_ws_char(s[0]) {
        lemma_trim_front_first_non_ws(s.drop_first());
    }
}

/// Trimming the back leaves a prefix: indices below the new length are
/// untouched.
proof fn lemma_trim_back_prefix(s: Seq<char>)
    ensures
        trim_back(s).len() <= s.len(),
        forall|k: int| 0 <= k < trim_back(s).len() ==> trim_back(s)[k] == s[k],
    decreases s.len(),
{
    if s.len() > 0 && is_ws_char(s.last()) {
        lemma_trim_back_prefix(s.drop_last());
        assert forall|k: int| 0 <= k < trim_back(s).len() implies trim_back(s)[k] == s[k] by {
            assert(trim_back(s) == trim_back(s.drop_last()));
            assert(trim_back(s.drop_last())[k] == s.drop_last()[k]);
            assert(s.drop_last()[k] == s[k]);
        }
    }
}

/// A surviving token is non-empty and does not begin with white space.
proof fn lemma_token_of_well_formed(s: Seq<char>)
    ensures
        token_of(s) matches Some(t) ==> t.len() > 0 && !is_ws_char(t[0]),
{
    lemma_trim_front_first_non_ws(s);
    lemma_trim_back_prefix(trim_front(s));
}

proof fn lemma_scan_from_well_formed(m: Map<char, bool>, text: Seq<char>, i: int, start: int)
    requires
        0 <= start <= i <= text.len(),
    ensures
        forall|j: int|
            0 <= j < scan_from(m, text, i, start).len() ==> (#[trigger] scan_from(
                m,
                text,
                i,
                start,
            )[j]).len() > 0 && !is_ws_char(scan_from(m, text, i, start)[j][0]),
    decreases text.len() - i,
{
    let out = scan_from(m, text, i, start);
    if i >= text.len() {
        lemma_token_of_well_formed(text.subrange(start, text.len() as int));
    } else if m.contains_key(text[i]) {
        let a = opt_token(token_of(text.subrange(start, i)));
        let b = (if m[text[i]] {
            opt_token(token_of(text.subrange(i, i + 1)))
        } else {
            Seq::<Seq<char>>::empty()
        });
        let rest = scan_from(m, text, i + 1, i + 1);
        lemma_token_of_well_formed(text.subrange(start, i));
        lemma_token_of_well_formed(text.subrange(i, i + 1));
        lemma_scan_from_well_formed(m, text, i + 1, i + 1);
        assert(out == a + b + rest);
        assert forall|j: int| 0 <= j < out.len() implies (#[trigger] out[j]).len() > 0
            && !is_ws_char(out[j][0]) by {
            if j < a.len() {
                assert(out[j] == a[0]);
            } else if j < a.len() + b.len() {
                assert(out[j] == b[0]);
            } else {
                assert(out[j] == rest[j - a.len() - b.len()]);
            }
        }
    } else {
        lemma_scan_from_well_formed(m, text, i + 1, start);
        assert(out == scan_from(m, text, i + 1, start));
    }
}

/// Law: no emitted token is the empty string, and none is made of white
/// space alone — every token begins with a character that is not white
/// space.
pub proof fn lemma_tokens_well_formed(m: Map<char, bool>, text: Seq<char>)
    ensures
        forall|j: int|
            0 <= j < scan_tokens(m, text).len() ==> (#[trigger] scan_tokens(m, text)[j]).len() > 0
                && !is_ws_char(scan_tokens(m, text)[j][0]),
{
    lemma_scan_from_well_formed(m, text, 0, 0);
}

/// Law: the empty text yields no tokens, whatever the registry.
pub proof fn lemma_empty_text(m: Map<char, bool>)
    ensures
        scan_tokens(m, Seq::<char>::empty()) == Seq::<Seq<char>>::empty(),
{
    assert(Seq::<char>::empty().subrange(0, 0) =~= Seq::<char>::empty());
}

proof fn lemma_scan_from_only_separators(m: Map<char, bool>, text: Seq<char>, i: int)
    requires
        0 <= i <= text.len(),
        forall|k: int| i <= k < text.len() ==> m.contains_key(#[trigger] text[k]) && !m[text[k]],
    ensures
        scan_from(m, text, i, i) == Seq::<Seq<char>>::empty(),
    decreases text.len() - i,
{
    assert(text.subrange(i, i) =~= Seq::<char>::empty());
    if i < text.len() {
        lemma_scan_from_only_separators(m, text, i + 1);
        assert(scan_from(m, text, i, i) =~= Seq::<Seq<char>>::empty());
    }
}

/// The characters of `s` that are not separators of `m`, in order.
pub open spec fn non_separators(m: Map<char, bool>, s: Seq<char>) -> Seq<char>
    decreases s.len(),
{
    if s.len() == 0 {
        Seq::empty()
    } else if m.contains_key(s[0]) {
        non_separators(m, s.drop_first())
    } else {
        seq![s[0]] + non_separators(m, s.drop_first())
    }
}

proof fn lemma_non_separators_concat(m: Map<char, bool>, a: Seq<char>, b: Seq<char>)
    ensures
        non_separators(m, a + b) == non_separators(m, a) + non_separators(m, b),
    decreases a.len(),
{
    if a.len() == 0 {
        assert(a + b =~= b);
        assert(Seq::<char>::empty() + non_separators(m, b) =~= non_separators(m, b));
    } else {
        assert((a + b).drop_first() =~= a.drop_first() + b);
        assert((a + b)[0] == a[0]);
        lemma_non_separators_concat(m, a.drop_first(), b);
        if !m.contains_key(a[0]) {
            assert(seq![a[0]] + (non_separators(m, a.drop_first()) + non_separators(m, b)) =~= (
            seq![a[0]] + non_separators(m, a.drop_first())) + non_separators(m, b));
        }
    }
}

/// A separator character contributes nothing to `non_separators`.
proof fn lemma_non_separators_single(m: Map<char, bool>, c: char)
    requires
        m.contains_key(c),
    ensures
        non_separators(m, seq![c]) == Seq::<char>::empty(),
{
    assert(seq![c].drop_first() =~= Seq::<char>::empty());
    assert(non_separators(m, Seq::<char>::empty()) == Seq::<char>::empty());
}

/// When every white-space character of `s` is a separator, trimming removes
/// only separator characters.
proof fn lemma_non_separators_trim_front(m: Map<char, bool>, s: Seq<char>)
    requires
        forall|k: int| 0 <= k < s.len() && is_ws_char(#[trigger] s[k]) ==> m.contains_key(s[k]),
    ensures
        non_separators(m, trim_front(s)) == non_separators(m, s),
    decreases s.len(),
{
    if s.len() > 0 && is_ws_char(s[0]) {
        assert(forall|k: int|
            0 <= k < s.drop_first().len() && is_ws_char(#[trigger] s.drop_first()[k])
                ==> m.contains_key(s.drop_first()[k]));
        lemma_non_separators_trim_front(m, s.drop_first());
    }
}

proof fn lemma_non_separators_trim_back(m: Map<char, bool>, s: Seq<char>)
    requires
        forall|k: int| 0 <= k < s.len() && is_ws_char(#[trigger] s[k]) ==> m.contains_key(s[k]),
    ensures
        non_separators(m, trim_back(s)) == non_separators(m, s),
    decreases s.len(),
{
    if s.len() > 0 && is_ws_char(s.last()) {
        assert(forall|k: int|
            0 <= k < s.drop_last().len() && is_ws_char(#[trigger] s.drop_last()[k])
                ==> m.contains_key(s.drop_last()[k]));
        lemma_non_separators_trim_back(m, s.drop_last());
        assert(s =~= s.drop_last() + seq![s.last()]);
        lemma_non_separators_concat(m, s.drop_last(), seq![s.last()]);
        lemma_non_separators_single(m, s.last());
        assert(non_separators(m, s.drop_last()) + Seq::<char>::empty() =~= non_separators(
            m,
            s.drop_last(),
        ));
    }
}

proof fn lemma_non_separators_trimmed(m: Map<char, bool>, s: Seq<char>)
    requires
        forall|k: int| 0 <= k < s.len() && is_ws_char(#[trigger] s[k]) ==> m.contains_key(s[k]),
    ensures
        non_separators(m, trimmed(s)) == non_separators(m, s),
{
    lemma_non_separators_trim_front(m, s);
    assert(forall|k: int|
        0 <= k < trim_front(s).len() && is_ws_char(#[trigger] trim_front(s)[k]) ==> m.contains_key(
            trim_front(s)[k],
        )) by {
        lemma_trim_front_is_suffix(s);
    }
    lemma_non_separators_trim_back(m, trim_front(s));
}

/// Trimming the front leaves a suffix of `s`: every character of the result
/// occurs in `s`.
proof fn lemma_trim_front_is_suffix(s: Seq<char>)
    ensures
        trim_front(s).len() <= s.len(),
        forall|k: int| 0 <= k < trim_front(s).len() ==> trim_front(s)[k] == s[k + s.len()
            - trim_front(s).len()],
    decreases s.len(),
{
    if s.len() > 0 && is_ws_char(s[0]) {
        lemma_trim_front_is_suffix(s.drop_first());
        assert forall|k: int| 0 <= k < trim_front(s).len() implies trim_front(s)[k] == s[k + s.len()
            - trim_front(s).len()] by {
            assert(trim_front(s) == trim_front(s.drop_first()));
            assert(trim_front(s.drop_first())[k] == s.drop_first()[k + s.drop_first().len()
                - trim_front(s.drop_first()).len()]);
        }
    }
}

/// What one emitted span contributes to the scanned text, separators and
/// trimming set aside: exactly the span's non-separator characters.
proof fn lemma_span_content(m: Map<char, bool>, s: Seq<char>)
    requires
        forall|k: int| 0 <= k < s.len() && is_ws_char(#[trigger] s[k]) ==> m.contains_key(s[k]),
    ensures
        non_separators(m, opt_token(token_of(s)).flatten()) == non_separators(m, s),
{
    lemma_non_separators_trimmed(m, s);
    match token_of(s) {
        Some(t) => {
            opt_token(token_of(s)).lemma_flatten_one_element();
        }
        None => {
            assert(opt_token(token_of(s)).flatten() =~= Seq::<char>::empty());
            assert(non_separators(m, trimmed(s)) == Seq::<char>::empty());
        }
    }
}

proof fn lemma_scan_from_content(m: Map<char, bool>, text: Seq<char>, i: int, start: int)
    requires
        0 <= start <= i <= text.len(),
        forall|k: int|
            0 <= k < text.len() && is_ws_char(#[trigger] text[k]) ==> m.contains_key(text[k]),
    ensures
        non_separators(m, scan_from(m, text, i, start).flatten()) == non_separators(
            m,
            text.subrange(start, text.len() as int),
        ),
    decreases text.len() - i,
{
    let whole = text.subrange(start, text.len() as int);
    assert(forall|k: int|
        0 <= k < whole.len() && is_ws_char(#[trigger] whole[k]) ==> m.contains_key(whole[k]));
    if i >= text.len() {
        lemma_span_content(m, whole);
    } else if m.contains_key(text[i]) {
        let a = opt_token(token_of(text.subrange(start, i)));
        let b = (if m[text[i]] {
            opt_token(token_of(text.subrange(i, i + 1)))
        } else {
            Seq::<Seq<char>>::empty()
        });
        let rest = scan_from(m, text, i + 1, i + 1);
        assert(scan_from(m, text, i, start) == a + b + rest);
        lemma_flatten_concat(a + b, rest);
        lemma_flatten_concat(a, b);
        lemma_non_separators_concat(m, (a + b).flatten(), rest.flatten());
        lemma_non_separators_concat(m, a.flatten(), b.flatten());
        assert(forall|k: int|
            0 <= k < text.subrange(start, i).len() && is_ws_char(
                #[trigger] text.subrange(start, i)[k],
            ) ==> m.contains_key(text.subrange(start, i)[k]));
        lemma_span_content(m, text.subrange(start, i));
        assert(non_separators(m, b.flatten()) == Seq::<char>::empty()) by {
            if m[text[i]] {
                let single = text.subrange(i, i + 1);
                assert(single =~= seq![text[i]]);
                assert(forall|k: int|
                    0 <= k < single.len() && is_ws_char(#[trigger] single[k]) ==> m.contains_key(
                        single[k],
                    ));
                lemma_span_content(m, single);
                lemma_non_separators_single(m, text[i]);
            } else {
                assert(b.flatten() =~= Seq::<char>::empty());
            }
        }
        lemma_scan_from_content(m, text, i + 1, i + 1);
        assert(whole =~= text.subrange(start, i) + seq![text[i]] + text.subrange(
            i + 1,
            text.len() as int,
        ));
        lemma_non_separators_concat(
            m,
            text.subrange(start, i) + seq![text[i]],
            text.subrange(i + 1, text.len() as int),
        );
        lemma_non_separators_concat(m, text.subrange(start, i), seq![text[i]]);
        lemma_non_separators_single(m, text[i]);
        assert(non_separators(m, scan_from(m, text, i, start).flatten()) =~= non_separators(
            m,
            whole,
        ));
    } else {
        lemma_scan_from_content(m, text, i + 1, start);
    }
}

/// Law: the scan loses nothing but separators and the white space trimming
/// removes.  For a text whose white-space characters are all registered as
/// separators, the concatenation of all emitted tokens carries exactly the
/// non-separator characters of the text, in order.
pub proof fn lemma_non_separator_content(m: Map<char, bool>, text: Seq<char>)
    requires
        forall|k: int|
            0 <= k < text.len() && is_ws_char(#[trigger] text[k]) ==> m.contains_key(text[k]),
    ensures
        non_separators(m, scan_tokens(m, text).flatten()) == non_separators(m, text),
{
    lemma_scan_from_content(m, text, 0, 0);
    assert(text.subrange(0, text.len() as int) =~= text);
}

/// `s` cut at every occurrence of `c`: the pieces between the occurrences,
/// in order, kept even when empty.
pub open spec fn split_at_char(s: Seq<char>, c: char) -> Seq<Seq<char>>
    decreases s.len(),
{
    if s.len() == 0 {
        seq![Seq::<char>::empty()]
    } else if s[0] == c {
        seq![Seq::<char>::empty()] + split_at_char(s.drop_first(), c)
    } else {
        let rest = split_at_char(s.drop_first(), c);
        seq![seq![s[0]] + rest[0]] + rest.drop_first()
    }
}

/// The pieces that survive as tokens: each trimmed, the empty ones left out.
pub open spec fn surviving_tokens(pieces: Seq<Seq<char>>) -> Seq<Seq<char>>
    decreases pieces.len(),
{
    if pieces.len() == 0 {
        Seq::empty()
    } else {
        opt_token(token_of(pieces[0])) + surviving_tokens(pieces.drop_first())
    }
}

/// A sequence free of `c` is one single piece.
proof fn lemma_split_without_char(s: Seq<char>, c: char)
    requires
        forall|k: int| 0 <= k < s.len() ==> s[k] != c,
    ensures
        split_at_char(s, c) == seq![s],
    decreases s.len(),
{
    if s.len() == 0 {
        assert(s =~= Seq::<char>::empty());
    } else {
        assert(forall|k: int| 0 <= k < s.drop_first().len() ==> s.drop_first()[k] != c);
        lemma_split_without_char(s.drop_first(), c);
        let rest = split_at_char(s.drop_first(), c);
        assert(rest[0] == s.drop_first());
        assert(seq![s[0]] + s.drop_first() =~= s);
        assert(rest.drop_first() =~= Seq::<Seq<char>>::empty());
        assert(seq![seq![s[0]] + rest[0]] + rest.drop_first() =~= seq![s]);
    }
}

/// Splitting at the first occurrence of `c` cuts off the prefix before it.
proof fn lemma_split_first_char(s: Seq<char>, c: char, j: int)
    requires
        0 <= j < s.len(),
        s[j] == c,
        forall|k: int| 0 <= k < j ==> s[k] != c,
    ensures
        split_at_char(s, c) == seq![s.subrange(0, j)] + split_at_char(
            s.subrange(j + 1, s.len() as int),
            c,
        ),
    decreases j,
{
    if j == 0 {
        assert(s.subrange(0, 0) =~= Seq::<char>::empty());
        assert(s.drop_first() =~= s.subrange(1, s.len() as int));
    } else {
        let d = s.drop_first();
        assert(d[j - 1] == c);
        assert(forall|k: int| 0 <= k < j - 1 ==> d[k] != c);
        lemma_split_first_char(d, c, j - 1);
        let rest = split_at_char(d, c);
        assert(rest == seq![d.subrange(0, j - 1)] + split_at_char(d.subrange(j - 1 + 1, d.len() as int), c));
        assert(rest[0] == d.subrange(0, j - 1));
        assert(seq![s[0]] + d.subrange(0, j - 1) =~= s.subrange(0, j));
        assert(rest.drop_first() =~= split_at_char(d.subrange(j, d.len() as int), c));
        assert(d.subrange(j, d.len() as int) =~= s.subrange(j + 1, s.len() as int));
        assert(seq![seq![s[0]] + rest[0]] + rest.drop_first() =~= seq![s.subrange(0, j)]
            + split_at_char(s.subrange(j + 1, s.len() as int), c));
    }
}

proof fn lemma_surviving_concat(a: Seq<Seq<char>>, b: Seq<Seq<char>>)
    ensures
        surviving_tokens(a + b) == surviving_tokens(a) + surviving_tokens(b),
    decreases a.len(),
{
    if a.len() == 0 {
        assert(a + b =~= b);
        assert(Seq::<Seq<char>>::empty() + surviving_tokens(b) =~= surviving_tokens(b));
    } else {
        assert((a + b).drop_first() =~= a.drop_first() + b);
        assert((a + b)[0] == a[0]);
        lemma_surviving_concat(a.drop_first(), b);
        assert(opt_token(token_of(a[0])) + (surviving_tokens(a.drop_first()) + surviving_tokens(b))
            =~= (opt_token(token_of(a[0])) + surviving_tokens(a.drop_first())) + surviving_tokens(
            b,
        ));
    }
}

/// The registry of the default tokenizer: the space character alone, not
/// kept.
pub open spec fn space_registry() -> Map<char, bool> {
    Map::<char, bool>::empty().insert(' ', false)
}

proof fn lemma_scan_matches_space_split(text: Seq<char>, i: int, start: int)
    requires
        0 <= start <= i <= text.len(),
        forall|k: int| start <= k < i ==> text[k] != ' ',
    ensures
        scan_from(space_registry(), text, i, start) == surviving_tokens(
            split_at_char(text.subrange(start, text.len() as int), ' '),
        ),
    decreases text.len() - i,
{
    let m = space_registry();
    let whole = text.subrange(start, text.len() as int);
    if i >= text.len() {
        assert(forall|k: int| 0 <= k < whole.len() ==> whole[k] != ' ');
        lemma_split_without_char(whole, ' ');
        assert(seq![whole].drop_first() =~= Seq::<Seq<char>>::empty());
        assert(surviving_tokens(Seq::<Seq<char>>::empty()) == Seq::<Seq<char>>::empty());
        assert(surviving_tokens(seq![whole]) =~= opt_token(token_of(whole)));
    } else if text[i] == ' ' {
        let a = opt_token(token_of(text.subrange(start, i)));
        let rest = scan_from(m, text, i + 1, i + 1);
        assert(m.contains_key(text[i]) && !m[text[i]]);
        assert(scan_from(m, text, i, start) == a + Seq::<Seq<char>>::empty() + rest);
        lemma_scan_matches_space_split(text, i + 1, i + 1);
        assert(whole[i - start] == ' ');
        assert(forall|k: int| 0 <= k < i - start ==> whole[k] != ' ');
        lemma_split_first_char(whole, ' ', i - start);
        assert(whole.subrange(0, i - start) =~= text.subrange(start, i));
        assert(whole.subrange(i - start + 1, whole.len() as int) =~= text.subrange(
            i + 1,
            text.len() as int,
        ));
        lemma_surviving_concat(
            seq![text.subrange(start, i)],
            split_at_char(text.subrange(i + 1, text.len() as int), ' '),
        );
        assert(seq![text.subrange(start, i)].drop_first() =~= Seq::<Seq<char>>::empty());
        assert(surviving_tokens(Seq::<Seq<char>>::empty()) == Seq::<Seq<char>>::empty());
        assert(surviving_tokens(seq![text.subrange(start, i)]) =~= a);
        assert(a + Seq::<Seq<char>>::empty() + rest =~= a + rest);
    } else {
        assert(!m.contains_key(text[i]));
        lemma_scan_matches_space_split(text, i + 1, start);
    }
}

/// Law: the default tokenizer is splitting at every space character,
/// trimming each piece and keeping the pieces that do not trim to nothing —
/// runs of spaces and spaces at the ends contribute only empty pieces, which
/// are dropped.
pub proof fn lemma_default_is_space_split(text: Seq<char>)
    ensures
        scan_tokens(space_registry(), text) == surviving_tokens(split_at_char(text, ' ')),
{
    lemma_scan_matches_space_split(text, 0, 0);
    assert(text.subrange(0, text.len() as int) =~= text);
}

/// Law: a text made of separators alone, none of them kept, yields no
/// tokens.
pub proof fn lemma_only_discarded_separators(m: Map<char, bool>, text: Seq<char>)
    requires
        forall|k: int| 0 <= k < text.len() ==> m.contains_key(#[trigger] text[k]) && !m[text[k]],
    ensures
        scan_tokens(m, text) == Seq::<Seq<char>>::empty(),
{
    lemma_scan_from_only_separators(m, text, 0);
}

} // verus!
