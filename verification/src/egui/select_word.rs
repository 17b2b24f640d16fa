//! The word-by-word gloss page: which word is selected and which glosses are
//! shown, and how clicks and keys change them.
use vstd::prelude::*;
use std::collections::HashSet;
use crate::excerpts::sentences::{Sentence, WordToken, TokenView, token_views, parse_tokens, split_words};
use crate::egui::cycle::{
    forward, backward, lemma_forward, lemma_reduce_once, lemma_forward_onto, lemma_backward_onto,
    lemma_mod_shift,
};
use vstd::arithmetic::div_mod::{lemma_mod_multiples_vanish, lemma_small_mod};

verus! {

/// Whether a token is a glossed word (as opposed to punctuation).
pub open spec fn is_word(t: TokenView) -> bool {
    t is Word
}

/// Where the search for the next word starts: after `after`, or at the start.
pub open spec fn next_start(after: Option<usize>) -> int {
    match after {
        Some(i) => i + 1,
        None => 0,
    }
}

/// Where the search for the previous word starts: before `before` (wrapping),
/// or at the last token.
pub open spec fn prev_start(before: Option<usize>, len: int) -> int {
    match before {
        Some(i) => (i + len - 1) % len,
        None => len - 1,
    }
}

/// `k` is the first word met when stepping forward from `start` through `ts`.
pub open spec fn first_word_forward(ts: Seq<TokenView>, start: int, k: int) -> bool {
    exists|o: int|
        0 <= o < ts.len() && k == #[trigger] forward(start, o, ts.len() as int) && is_word(ts[k])
            && forall|p: int|
            0 <= p < o ==> !is_word(ts[#[trigger] forward(start, p, ts.len() as int)])
}

/// `k` is the first word met when stepping back from `start` through `ts`.
pub open spec fn first_word_backward(ts: Seq<TokenView>, start: int, k: int) -> bool {
    exists|o: int|
        0 <= o < ts.len() && k == #[trigger] backward(start, o, ts.len() as int) && is_word(ts[k])
            && forall|p: int|
            0 <= p < o ==> !is_word(ts[#[trigger] backward(start, p, ts.len() as int)])
}

/// The index `next_word_index` returns: the first word forward from
/// `next_start(after)`, if the tokens hold a word.
pub open spec fn next_word_spec(ts: Seq<TokenView>, after: Option<usize>) -> Option<usize> {
    if has_word(ts) {
        Some((choose|k: int| 0 <= k < ts.len() && first_word_forward(ts, next_start(after), k)) as usize)
    } else {
        None
    }
}

/// The index `prev_word_index` returns: the first word backward from
/// `prev_start(before, ts.len())`, if the tokens hold a word.
pub open spec fn prev_word_spec(ts: Seq<TokenView>, before: Option<usize>) -> Option<usize> {
    if has_word(ts) {
        Some(
            (choose|k: int|
                0 <= k < ts.len() && first_word_backward(ts, prev_start(before, ts.len() as int), k)) as usize,
        )
    } else {
        None
    }
}

/// `s` with `i` added if it was missing, removed if it was there.
pub open spec fn toggled(s: Set<usize>, i: usize) -> Set<usize> {
    if s.contains(i) {
        s.remove(i)
    } else {
        s.insert(i)
    }
}

proof fn lemma_first_word_forward_unique(ts: Seq<TokenView>, start: int, k1: int, k2: int)
    requires
        first_word_forward(ts, start, k1),
        first_word_forward(ts, start, k2),
    ensures
        k1 == k2,
{
    let len = ts.len() as int;
    let o1 = choose|o: int|
        0 <= o < len && k1 == #[trigger] forward(start, o, len) && is_word(ts[k1]) && forall|p: int|
            0 <= p < o ==> !is_word(ts[#[trigger] forward(start, p, len)]);
    let o2 = choose|o: int|
        0 <= o < len && k2 == #[trigger] forward(start, o, len) && is_word(ts[k2]) && forall|p: int|
            0 <= p < o ==> !is_word(ts[#[trigger] forward(start, p, len)]);
    if o1 < o2 {
        assert(!is_word(ts[forward(start, o1, len)]));
    } else if o2 < o1 {
        assert(!is_word(ts[forward(start, o2, len)]));
    }
}

proof fn lemma_first_word_backward_unique(ts: Seq<TokenView>, start: int, k1: int, k2: int)
    requires
        first_word_backward(ts, start, k1),
        first_word_backward(ts, start, k2),
    ensures
        k1 == k2,
{
    let len = ts.len() as int;
    let o1 = choose|o: int|
        0 <= o < len && k1 == #[trigger] backward(start, o, len) && is_word(ts[k1]) && forall|p: int|
            0 <= p < o ==> !is_word(ts[#[trigger] backward(start, p, len)]);
    let o2 = choose|o: int|
        0 <= o < len && k2 == #[trigger] backward(start, o, len) && is_word(ts[k2]) && forall|p: int|
            0 <= p < o ==> !is_word(ts[#[trigger] backward(start, p, len)]);
    if o1 < o2 {
        assert(!is_word(ts[backward(start, o1, len)]));
    } else if o2 < o1 {
        assert(!is_word(ts[backward(start, o2, len)]));
    }
}

/// Whether `ts` holds a word at all.
pub open spec fn has_word(ts: Seq<TokenView>) -> bool {
    exists|k: int| 0 <= k < ts.len() && is_word(#[trigger] ts[k])
}

/// What the gloss page holds: the tokens of the sentence, the indices whose
/// gloss is shown, and the selected token.
pub struct SentenceAppView {
    pub tokens: Seq<TokenView>,
    pub expanded: Set<usize>,
    pub selected: Option<usize>,
}

pub struct SentenceApp {
    tokens: Vec<WordToken>,
    /// Indices into `tokens` whose gloss is currently shown.
    expanded: HashSet<usize>,
    /// Index into `tokens` of the word currently selected via keyboard
    /// (or last clicked).
    selected: Option<usize>,
}

/// Keys pressed during one frame of the gloss page.
pub struct WordKeys {
    pub arrow_right: bool,
    pub arrow_left: bool,
    pub space: bool,
    pub ctrl_w: bool,
}

impl View for SentenceApp {
    type V = SentenceAppView;

    closed spec fn view(&self) -> SentenceAppView {
        SentenceAppView {
            tokens: token_views(self.tokens@),
            expanded: self.expanded@,
            selected: self.selected,
        }
    }
}

impl SentenceAppView {
    /// The selection, if any, is a word of the sentence.
    pub open spec fn wf(self) -> bool {
        self.selected matches Some(i) ==> i < self.tokens.len() && is_word(self.tokens[i as int])
    }
}

impl SentenceApp {
    pub fn new(sentence: Sentence) -> (r: Self)
        ensures
            r@.tokens == parse_tokens(sentence.words@, split_words(sentence.ipa@)),
            r@.expanded == Set::<usize>::empty(),
            r@.selected is None,
            r@.wf(),
    {
        Self { tokens: sentence.tokens(), expanded: HashSet::new(), selected: None }
    }

    /// Shows the gloss of `index` if it is hidden, hides it if it is shown.
    /// Takes `expanded` rather than `&mut self` so callers can hold a
    /// borrow of `self.tokens` (from iterating it) at the same time.
    pub fn toggle_word(expanded: &mut HashSet<usize>, index: usize)
        ensures
            final(expanded)@ == if old(expanded)@.contains(index) {
                old(expanded)@.remove(index)
            } else {
                old(expanded)@.insert(index)
            },
    {
        if !expanded.remove(&index) {
            expanded.insert(index);
        }
    }

    /// Index of the next `Word` token after `after` (or the first `Word`
    /// token if `after` is `None`), wrapping around the end of the sentence.
    pub fn next_word_index(tokens: &[WordToken], after: Option<usize>) -> (r: Option<usize>)
        ensures
            r is None <==> !has_word(token_views(tokens@)),
            r matches Some(k) ==> k < tokens@.len() && first_word_forward(
                token_views(tokens@),
                next_start(after),
                k as int,
            ),
            r == next_word_spec(token_views(tokens@), after),
    {
        let ghost ts = token_views(tokens@);
        let len = tokens.len();
        if len == 0 {
            return None;
        }
        let s: usize = match after {
            Some(i) => {
                let r = i % len;
                if r + 1 == len {
                    0
                } else {
                    r + 1
                }
            },
            None => 0,
        };
        proof {
            lemma_forward(next_start(after), 0, len as int);
            match after {
                Some(i) => {
                    if len > 1 {
                        lemma_forward(i as int, 1, len as int);
                    }
                },
                None => {
                    lemma_reduce_once(0, len as int);
                },
            }
        }
        assert(s == next_start(after) % (len as int));
        let mut o: usize = 0;
        while o < len
            invariant
                ts == token_views(tokens@),
                len == tokens@.len(),
                len > 0,
                s == next_start(after) % (len as int),
                s < len,
                o <= len,
                forall|p: int| 0 <= p < o ==> !is_word(ts[#[trigger] forward(next_start(after), p, len as int)]),
            decreases len - o,
        {
            let k = if o < len - s {
                s + o
            } else {
                o - (len - s)
            };
            proof {
                lemma_forward(next_start(after), o as int, len as int);
            }
            assert(k == forward(next_start(after), o as int, len as int));
            assert(ts[k as int] == tokens@[k as int]@);
            if let WordToken::Word { .. } = &tokens[k] {
                assert(is_word(ts[k as int]));
                assert(ts.len() == len);
                assert(first_word_forward(ts, next_start(after), k as int));
                proof {
                    let c = choose|c: int|
                        0 <= c < ts.len() && first_word_forward(ts, next_start(after), c);
                    lemma_first_word_forward_unique(ts, next_start(after), k as int, c);
                }
                return Some(k);
            }
            o += 1;
        }
        assert forall|k: int| 0 <= k < ts.len() implies !is_word(#[trigger] ts[k]) by {
            let o = lemma_forward_onto(next_start(after), k, len as int);
        }
        None
    }

    /// Index of the previous `Word` token before `before` (or the last `Word`
    /// token if `before` is `None`), wrapping around the start of the sentence.
    pub fn prev_word_index(tokens: &[WordToken], before: Option<usize>) -> (r: Option<usize>)
        ensures
            r is None <==> !has_word(token_views(tokens@)),
            r matches Some(k) ==> k < tokens@.len() && first_word_backward(
                token_views(tokens@),
                prev_start(before, tokens@.len() as int),
                k as int,
            ),
            r == prev_word_spec(token_views(tokens@), before),
    {
        let ghost ts = token_views(tokens@);
        let len = tokens.len();
        if len == 0 {
            return None;
        }
        let ghost start = prev_start(before, len as int);
        let s: usize = match before {
            Some(i) => {
                let r = i % len;
                if r == 0 {
                    len - 1
                } else {
                    r - 1
                }
            },
            None => len - 1,
        };
        proof {
            if let Some(i) = before {
                lemma_forward(i as int, 0, len as int);
                lemma_forward(i as int, len - 1, len as int);
            }
        }
        assert(s == start);
        let mut o: usize = 0;
        while o < len
            invariant
                ts == token_views(tokens@),
                len == tokens@.len(),
                len > 0,
                s == start,
                start == prev_start(before, len as int),
                s < len,
                o <= len,
                forall|p: int| 0 <= p < o ==> !is_word(ts[#[trigger] backward(start, p, len as int)]),
            decreases len - o,
        {
            let k = if o <= s {
                s - o
            } else {
                s + (len - o)
            };
            proof {
                lemma_reduce_once(s + len - o, len as int);
            }
            assert(k == backward(start, o as int, len as int));
            assert(ts[k as int] == tokens@[k as int]@);
            if let WordToken::Word { .. } = &tokens[k] {
                assert(is_word(ts[k as int]));
                assert(ts.len() == len);
                assert(first_word_backward(ts, start, k as int));
                proof {
                    let c = choose|c: int| 0 <= c < ts.len() && first_word_backward(ts, start, c);
                    lemma_first_word_backward_unique(ts, start, k as int, c);
                }
                return Some(k);
            }
            o += 1;
        }
        assert forall|k: int| 0 <= k < ts.len() implies !is_word(#[trigger] ts[k]) by {
            let o = lemma_backward_onto(start, k, len as int);
        }
        None
    }

    /// The tokens of the sentence.
    pub fn tokens(&self) -> (r: &Vec<WordToken>)
        ensures
            token_views(r@) == self@.tokens,
    {
        &self.tokens
    }

    /// The selected word, if any.
    pub fn selected(&self) -> (r: Option<usize>)
        ensures
            r == self@.selected,
    {
        self.selected
    }

    /// Whether the gloss of token `index` is shown.
    pub fn is_expanded(&self, index: usize) -> (r: bool)
        ensures
            r == self@.expanded.contains(index),
    {
        self.expanded.contains(&index)
    }

    /// A click on the word `index`: selects it and shows or hides its gloss.
    pub fn click_word(&mut self, index: usize)
        requires
            old(self)@.wf(),
            index < old(self)@.tokens.len(),
            is_word(old(self)@.tokens[index as int]),
        ensures
            final(self)@.wf(),
            final(self)@.tokens == old(self)@.tokens,
            final(self)@.selected == Some(index),
            final(self)@.expanded == toggled(old(self)@.expanded, index),
    {
        self.selected = Some(index);
        Self::toggle_word(&mut self.expanded, index);
    }

    /// The keys of one frame: right and left arrows move the selection to
    /// the next and previous word (in that order), space then shows or hides
    /// the gloss of the selected word; the result tells whether Ctrl+W asked
    /// to close the window.
    pub fn handle_keys(&mut self, keys: WordKeys) -> (close: bool)
        requires
            old(self)@.wf(),
        ensures
            final(self)@.wf(),
            close == keys.ctrl_w,
            final(self)@.tokens == old(self)@.tokens,
            ({
                let ts = old(self)@.tokens;
                let s1 = if keys.arrow_right {
                    next_word_spec(ts, old(self)@.selected)
                } else {
                    old(self)@.selected
                };
                let s2 = if keys.arrow_left {
                    prev_word_spec(ts, s1)
                } else {
                    s1
                };
                &&& final(self)@.selected == s2
                &&& final(self)@.expanded == if keys.space && s2 is Some {
                    toggled(old(self)@.expanded, s2->0)
                } else {
                    old(self)@.expanded
                }
            }),
    {
        if keys.arrow_right {
            self.selected = Self::next_word_index(&self.tokens, self.selected);
        }
        if keys.arrow_left {
            self.selected = Self::prev_word_index(&self.tokens, self.selected);
        }
        if keys.space {
            if let Some(index) = self.selected {
                Self::toggle_word(&mut self.expanded, index);
            }
        }
        keys.ctrl_w
    }
}

/// Showing or hiding a gloss twice leaves the shown glosses as they were.
pub proof fn lemma_toggle_twice(s: Set<usize>, i: usize)
    ensures
        toggled(toggled(s, i), i) == s,
{
    assert(toggled(toggled(s, i), i) =~= s);
}

/// From a selected word, the right arrow and then the left arrow lead back
/// to that word, and so do the left arrow and then the right arrow.
pub proof fn lemma_next_prev_word(ts: Seq<TokenView>, i: usize)
    requires
        i < ts.len() <= usize::MAX,
        is_word(ts[i as int]),
    ensures
        prev_word_spec(ts, next_word_spec(ts, Some(i))) == Some(i),
        next_word_spec(ts, prev_word_spec(ts, Some(i))) == Some(i),
{
    let len = ts.len() as int;
    assert(has_word(ts));
    // forward from i + 1, then back
    let j = choose|k: int| 0 <= k < ts.len() && first_word_forward(ts, next_start(Some(i)), k);
    lemma_first_word_forward_exists(ts, i as int + 1, i as int);
    assert(next_word_spec(ts, Some(i)) == Some(j as usize));
    let o = choose|o: int|
        0 <= o < len && j == #[trigger] forward(i + 1, o, len) && is_word(ts[j]) && forall|p: int|
            0 <= p < o ==> !is_word(ts[#[trigger] forward(i + 1, p, len)]);
    let start = prev_start(Some(j as usize), len);
    lemma_mod_shift(i + 1 + o, len - 1, len);
    assert(start == (i + o + len) % len);
    assert forall|p: int| 0 <= p <= o implies #[trigger] backward(start, p, len) == if p == o {
        i as int
    } else {
        forward(i + 1, o - 1 - p, len)
    } by {
        lemma_mod_shift(i + o + len, len - p, len);
        lemma_mod_multiples_vanish(2, i + o - p, len);
        assert(len * 2 + (i + o - p) == i + o + len + (len - p));
        if p == o {
            lemma_small_mod(i as nat, len as nat);
        }
    }
    assert(first_word_backward(ts, start, i as int)) by {
        assert(i == backward(start, o, len));
        assert forall|p: int| 0 <= p < o implies !is_word(ts[#[trigger] backward(start, p, len)]) by {
            assert(backward(start, p, len) == forward(i + 1, o - 1 - p, len));
        }
    }
    let ju = j as usize;
    let c = choose|k: int|
        0 <= k < ts.len() && first_word_backward(ts, prev_start(Some(ju), ts.len() as int), k);
    lemma_first_word_backward_unique(ts, start, i as int, c);
    // back from i - 1, then forward
    let pstart = prev_start(Some(i), len);
    let j2 = choose|k: int| 0 <= k < ts.len() && first_word_backward(ts, pstart, k);
    lemma_first_word_backward_exists(ts, pstart, i as int);
    assert(prev_word_spec(ts, Some(i)) == Some(j2 as usize));
    let o2 = choose|o: int|
        0 <= o < len && j2 == #[trigger] backward(pstart, o, len) && is_word(ts[j2]) && forall|p: int|
            0 <= p < o ==> !is_word(ts[#[trigger] backward(pstart, p, len)]);
    lemma_mod_shift(i + len - 1, len - o2, len);
    assert(j2 == (i + 2 * len - 1 - o2) % len);
    assert forall|q: int| 0 <= q <= o2 implies #[trigger] forward(j2 + 1, q, len) == if q == o2 {
        i as int
    } else {
        backward(pstart, o2 - 1 - q, len)
    } by {
        lemma_mod_shift(i + 2 * len - 1 - o2, 1 + q, len);
        lemma_mod_shift(i + len - 1, len - (o2 - 1 - q), len);
        if q == o2 {
            lemma_mod_multiples_vanish(2, i as int, len);
            lemma_small_mod(i as nat, len as nat);
        }
    }
    assert(first_word_forward(ts, j2 + 1, i as int)) by {
        assert(i == forward(j2 + 1, o2, len));
        assert forall|q: int| 0 <= q < o2 implies !is_word(ts[#[trigger] forward(j2 + 1, q, len)]) by {
            assert(forward(j2 + 1, q, len) == backward(pstart, o2 - 1 - q, len));
        }
    }
    let j2u = j2 as usize;
    let c2 = choose|k: int| 0 <= k < ts.len() && first_word_forward(ts, next_start(Some(j2u)), k);
    lemma_first_word_forward_unique(ts, j2 + 1, i as int, c2);
}

/// Stepping forward from any start meets a word when the tokens hold the word `w`.
proof fn lemma_first_word_forward_exists(ts: Seq<TokenView>, start: int, w: int)
    requires
        0 <= start,
        0 <= w < ts.len(),
        is_word(ts[w]),
    ensures
        exists|k: int| 0 <= k < ts.len() && first_word_forward(ts, start, k),
    decreases ts.len(),
{
    let len = ts.len() as int;
    let ow = lemma_forward_onto(start, w, len);
    let o = first_word_offset_forward(ts, start, 0, ow);
    lemma_forward(start, o, len);
    let k = forward(start, o, len);
    assert(first_word_forward(ts, start, k));
}

/// The least offset `o` in `[from, limit]` at which stepping forward from
/// `start` meets a word, given that `limit` meets one and nothing before `from` does.
proof fn first_word_offset_forward(ts: Seq<TokenView>, start: int, from: int, limit: int) -> (o: int)
    requires
        0 <= start,
        0 <= from <= limit < ts.len(),
        is_word(ts[forward(start, limit, ts.len() as int)]),
        forall|p: int| 0 <= p < from ==> !is_word(ts[#[trigger] forward(start, p, ts.len() as int)]),
    ensures
        from <= o <= limit,
        is_word(ts[forward(start, o, ts.len() as int)]),
        forall|p: int| 0 <= p < o ==> !is_word(ts[#[trigger] forward(start, p, ts.len() as int)]),
    decreases limit - from,
{
    if is_word(ts[forward(start, from, ts.len() as int)]) {
        from
    } else {
        first_word_offset_forward(ts, start, from + 1, limit)
    }
}

/// Stepping back from a position of the cycle meets a word when the tokens
/// hold the word `w`.
proof fn lemma_first_word_backward_exists(ts: Seq<TokenView>, start: int, w: int)
    requires
        0 <= start < ts.len(),
        0 <= w < ts.len(),
        is_word(ts[w]),
    ensures
        exists|k: int| 0 <= k < ts.len() && first_word_backward(ts, start, k),
{
    let len = ts.len() as int;
    let ow = lemma_backward_onto(start, w, len);
    let o = first_word_offset_backward(ts, start, 0, ow);
    lemma_reduce_once(start + len - o, len);
    let k = backward(start, o, len);
    assert(first_word_backward(ts, start, k));
}

proof fn first_word_offset_backward(ts: Seq<TokenView>, start: int, from: int, limit: int) -> (o: int)
    requires
        0 <= start < ts.len(),
        0 <= from <= limit < ts.len(),
        is_word(ts[backward(start, limit, ts.len() as int)]),
        forall|p: int| 0 <= p < from ==> !is_word(ts[#[trigger] backward(start, p, ts.len() as int)]),
    ensures
        from <= o <= limit,
        is_word(ts[backward(start, o, ts.len() as int)]),
        forall|p: int| 0 <= p < o ==> !is_word(ts[#[trigger] backward(start, p, ts.len() as int)]),
    decreases limit - from,
{
    if is_word(ts[backward(start, from, ts.len() as int)]) {
        from
    } else {
        first_word_offset_backward(ts, start, from + 1, limit)
    }
}

/// The word `next_word_spec` picks, with the offset at which it is met.
proof fn next_word_witness(ts: Seq<TokenView>, after: Option<usize>) -> (ko: (int, int))
    requires
        ts.len() <= usize::MAX,
        has_word(ts),
    ensures
        next_word_spec(ts, after) == Some(ko.0 as usize),
        0 <= ko.0 < ts.len(),
        0 <= ko.1 < ts.len(),
        ko.0 == forward(next_start(after), ko.1, ts.len() as int),
        is_word(ts[ko.0]),
        forall|p: int|
            0 <= p < ko.1 ==> !is_word(ts[#[trigger] forward(next_start(after), p, ts.len() as int)]),
{
    let len = ts.len() as int;
    let w = choose|k: int| 0 <= k < ts.len() && is_word(#[trigger] ts[k]);
    lemma_first_word_forward_exists(ts, next_start(after), w);
    let k = choose|k: int| 0 <= k < ts.len() && first_word_forward(ts, next_start(after), k);
    let o = choose|o: int|
        0 <= o < len && k == #[trigger] forward(next_start(after), o, len) && is_word(ts[k])
            && forall|p: int|
            0 <= p < o ==> !is_word(ts[#[trigger] forward(next_start(after), p, len)]);
    (k, o)
}

/// The word `prev_word_spec` picks, with the offset at which it is met.
proof fn prev_word_witness(ts: Seq<TokenView>, before: Option<usize>) -> (ko: (int, int))
    requires
        ts.len() <= usize::MAX,
        has_word(ts),
        before matches Some(i) ==> i < ts.len(),
    ensures
        prev_word_spec(ts, before) == Some(ko.0 as usize),
        0 <= ko.0 < ts.len(),
        0 <= ko.1 < ts.len(),
        0 <= prev_start(before, ts.len() as int) < ts.len(),
        ko.0 == backward(prev_start(before, ts.len() as int), ko.1, ts.len() as int),
        is_word(ts[ko.0]),
        forall|p: int|
            0 <= p < ko.1 ==> !is_word(
                ts[#[trigger] backward(prev_start(before, ts.len() as int), p, ts.len() as int)],
            ),
{
    let len = ts.len() as int;
    let start = prev_start(before, len);
    if let Some(i) = before {
        lemma_reduce_once(i + len - 1, len);
    }
    let w = choose|k: int| 0 <= k < ts.len() && is_word(#[trigger] ts[k]);
    lemma_first_word_backward_exists(ts, start, w);
    let k = choose|k: int|
        0 <= k < ts.len() && first_word_backward(ts, prev_start(before, ts.len() as int), k);
    let o = choose|o: int|
        0 <= o < len && k == #[trigger] backward(start, o, len) && is_word(ts[k]) && forall|p: int|
            0 <= p < o ==> !is_word(ts[#[trigger] backward(start, p, len)]);
    (k, o)
}

/// With nothing selected, the right arrow selects the first word of the
/// sentence and the left arrow the last word.
pub proof fn lemma_word_arrows_from_nothing(ts: Seq<TokenView>)
    requires
        ts.len() <= usize::MAX,
        has_word(ts),
    ensures
        next_word_spec(ts, None) matches Some(k) && k < ts.len() && is_word(ts[k as int]) && (
        forall|j: int| 0 <= j < k ==> !is_word(#[trigger] ts[j])),
        prev_word_spec(ts, None) matches Some(k) && k < ts.len() && is_word(ts[k as int]) && (
        forall|j: int| k < j < ts.len() ==> !is_word(#[trigger] ts[j])),
{
    let len = ts.len() as int;
    let (k, o) = next_word_witness(ts, None);
    lemma_reduce_once(o, len);
    assert forall|j: int| 0 <= j < k implies !is_word(#[trigger] ts[j]) by {
        lemma_reduce_once(j, len);
        assert(forward(0, j, len) == j);
    }
    let (k2, o2) = prev_word_witness(ts, None);
    lemma_reduce_once(len - 1 + len - o2, len);
    assert forall|j: int| k2 < j < len implies !is_word(#[trigger] ts[j]) by {
        lemma_reduce_once(len - 1 + len - (len - 1 - j), len);
        assert(backward(len - 1, len - 1 - j, len) == j);
    }
}

/// From the word `i`, the right arrow selects the next word after it, or,
/// when no word follows, the first word of the sentence.
pub proof fn lemma_right_arrow_from(ts: Seq<TokenView>, i: usize)
    requires
        ts.len() <= usize::MAX,
        i < ts.len(),
        has_word(ts),
    ensures
        next_word_spec(ts, Some(i)) matches Some(k) && k < ts.len() && is_word(ts[k as int]) && (if exists|j: int|
            i < j < ts.len() && is_word(#[trigger] ts[j]) {
            i < k && forall|j: int| i < j < k ==> !is_word(#[trigger] ts[j])
        } else {
            k <= i && forall|j: int| 0 <= j < k ==> !is_word(#[trigger] ts[j])
        }),
{
    let len = ts.len() as int;
    let (k, o) = next_word_witness(ts, Some(i));
    lemma_reduce_once(i + 1 + o, len);
    if exists|j: int| i < j < ts.len() && is_word(#[trigger] ts[j]) {
        let j = choose|j: int| i < j < ts.len() && is_word(#[trigger] ts[j]);
        if i + 1 + o >= len {
            lemma_reduce_once(i + 1 + (j - i - 1), len);
            assert(forward(i + 1, j - i - 1, len) == j);
            assert(false);
        }
        assert forall|j: int| i < j < k implies !is_word(#[trigger] ts[j]) by {
            lemma_reduce_once(i + 1 + (j - i - 1), len);
            assert(forward(i + 1, j - i - 1, len) == j);
        }
    } else {
        assert(i + 1 + o >= len);
        assert forall|j: int| 0 <= j < k implies !is_word(#[trigger] ts[j]) by {
            lemma_reduce_once(i + 1 + (j + len - i - 1), len);
            assert(forward(i + 1, j + len - i - 1, len) == j);
        }
    }
}

/// From the word `i`, the left arrow selects the word before it, or, when no
/// word precedes it, the last word of the sentence.
pub proof fn lemma_left_arrow_from(ts: Seq<TokenView>, i: usize)
    requires
        ts.len() <= usize::MAX,
        i < ts.len(),
        has_word(ts),
    ensures
        prev_word_spec(ts, Some(i)) matches Some(k) && k < ts.len() && is_word(ts[k as int]) && (if exists|j: int|
            0 <= j < i && is_word(#[trigger] ts[j]) {
            k < i && forall|j: int| k < j < i ==> !is_word(#[trigger] ts[j])
        } else {
            i <= k && forall|j: int| k < j < ts.len() ==> !is_word(#[trigger] ts[j])
        }),
{
    let len = ts.len() as int;
    let (k, o) = prev_word_witness(ts, Some(i));
    let start = prev_start(Some(i), len);
    lemma_reduce_once(i + len - 1, len);
    // start is i - 1, or len - 1 when i == 0; in both cases start + len == i - 1 + len (mod len)
    assert(start == if i > 0 { i - 1 } else { len - 1 });
    lemma_reduce_once(start + len - o, len);
    if exists|j: int| 0 <= j < i && is_word(#[trigger] ts[j]) {
        let j = choose|j: int| 0 <= j < i && is_word(#[trigger] ts[j]);
        let pj = i - 1 - j;
        lemma_reduce_once(start + len - pj, len);
        assert(backward(start, pj, len) == j);
        assert(o <= pj);
        assert forall|m: int| k < m < i implies !is_word(#[trigger] ts[m]) by {
            let pm = i - 1 - m;
            lemma_reduce_once(start + len - pm, len);
            assert(backward(start, pm, len) == m);
        }
    } else {
        if i > 0 && o < i {
            assert(backward(start, o, len) == i - 1 - o);
            assert(false);
        }
        assert forall|m: int| k < m < len implies !is_word(#[trigger] ts[m]) by {
            let pm = if i > 0 { i - 1 + len - m } else { len - 1 - m };
            lemma_reduce_once(start + len - pm, len);
            assert(backward(start, pm, len) == m);
        }
    }
}

/// Showing or hiding a gloss flips that gloss only.
pub proof fn lemma_toggle_flips_one(s: Set<usize>, i: usize, j: usize)
    ensures
        toggled(s, i).contains(i) == !s.contains(i),
        j != i ==> toggled(s, i).contains(j) == s.contains(j),
{
}

} // verus!
