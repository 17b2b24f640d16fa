//! Sentences of the excerpt with their word-by-word gloss, and the parsing of
//! the gloss into words, punctuation and clauses.
use vstd::prelude::*;
use crate::text::{
    char_is_whitespace, char_is_alphanumeric, lemma_strip, CharTest, chars_of, find_in, strip_bounds, first_index, drop_leading, strip, trim,
    lemma_first_index, lemma_drop_leading_is_suffix,
};

verus! {

/// File name of the sentence list, as the volume/part index refers to it.
pub const SENTENCES_FILE: &'static str = "chapter_id_ru_en_ipa_words.yaml";

/// One sentence of the excerpt.
#[derive(Debug, Clone)]
pub struct Sentence {
    pub chapter: String,
    pub id: u32,
    pub ru: String,
    pub ipa: String,
    pub ipa2: String,
    pub en: String,
    pub words: String,
}

/// One entry of the volume/part index: which file holds which volume and part.
#[derive(Debug, Clone)]
pub struct VolumePart {
    pub id: u32,
    pub vol_part: String,
    pub file: String,
}

/// A glossed word or the punctuation between words.
#[derive(Debug, Clone, PartialEq, Eq)]
pub enum WordToken {
    Word { ru: String, ipa: String, en: String },
    Punct(String),
}

/// What a `WordToken` holds, as character sequences.
pub enum TokenView {
    Word { ru: Seq<char>, ipa: Seq<char>, en: Seq<char> },
    Punct(Seq<char>),
}

impl View for WordToken {
    type V = TokenView;

    open spec fn view(&self) -> TokenView {
        match self {
            WordToken::Word { ru, ipa, en } => TokenView::Word { ru: ru@, ipa: ipa@, en: en@ },
            WordToken::Punct(p) => TokenView::Punct(p@),
        }
    }
}

/// The views of a sequence of tokens.
pub open spec fn token_views(ts: Seq<WordToken>) -> Seq<TokenView> {
    ts.map_values(|t: WordToken| t@)
}

/// The views of a sequence of strings.
pub open spec fn string_views(ss: Seq<String>) -> Seq<Seq<char>> {
    ss.map_values(|s: String| s@)
}

/// A punctuation token for `p`, or nothing when `p` is empty.
pub open spec fn punct_tokens(p: Seq<char>) -> Seq<TokenView> {
    if p.len() > 0 {
        seq![TokenView::Punct(p)]
    } else {
        seq![]
    }
}

/// What is left at the end of the gloss text: its trimmed text as punctuation.
pub open spec fn trailing_tokens(rest: Seq<char>) -> Seq<TokenView> {
    punct_tokens(trim(rest))
}

/// The next transcription to hand out, or the empty text once they are used up.
pub open spec fn next_ipa(ipa: Seq<Seq<char>>) -> Seq<char> {
    if ipa.len() > 0 {
        ipa[0]
    } else {
        seq![]
    }
}

/// The transcriptions left after handing one out.
pub open spec fn rest_ipa(ipa: Seq<Seq<char>>) -> Seq<Seq<char>> {
    if ipa.len() > 0 {
        ipa.drop_first()
    } else {
        ipa
    }
}

/// The tokens of the gloss text `rest` ("word (gloss) word (gloss) ..."), where
/// the words take their transcriptions from `ipa` in order.
///
/// Text up to the next `(` is a chunk: after trimming, its part before the
/// first alphanumeric character is punctuation, the rest is the word. Text up
/// to the next `)` is the gloss. A `(` without a closing `)` ends the parse,
/// and whatever text is left from the chunk on becomes punctuation.
pub open spec fn parse_tokens(rest: Seq<char>, ipa: Seq<Seq<char>>) -> Seq<TokenView>
    decreases rest.len(),
{
    let open = first_index(rest, CharTest::Is('('));
    if open >= rest.len() {
        trailing_tokens(rest)
    } else {
        let chunk = trim(rest.take(open));
        let word_start = first_index(chunk, CharTest::Alphanumeric);
        let punct = trim(chunk.take(word_start));
        let word = chunk.skip(word_start);
        let after = rest.skip(open + 1);
        let close = first_index(after, CharTest::Is(')'));
        if close >= after.len() {
            punct_tokens(punct) + trailing_tokens(rest)
        } else {
            let gloss = trim(after.take(close));
            let next = after.skip(close + 1);
            proof {
                lemma_first_index(rest, CharTest::Is('('));
                lemma_first_index(after, CharTest::Is(')'));
            }
            if word.len() > 0 {
                punct_tokens(punct) + seq![
                    TokenView::Word { ru: word, ipa: next_ipa(ipa), en: gloss },
                ] + parse_tokens(next, rest_ipa(ipa))
            } else {
                punct_tokens(punct) + parse_tokens(next, ipa)
            }
        }
    }
}

/// The words of `s`: its whitespace-separated pieces with non-alphanumeric
/// characters stripped from both ends, leaving out those that end up empty.
pub open spec fn split_words(s: Seq<char>) -> Seq<Seq<char>>
    decreases s.len(),
{
    let t = drop_leading(s, CharTest::Whitespace);
    if t.len() == 0 {
        seq![]
    } else {
        let n = first_index(t, CharTest::Whitespace);
        let w = strip(t.take(n), CharTest::NotAlphanumeric);
        proof {
            lemma_drop_leading_is_suffix(s, CharTest::Whitespace);
            lemma_first_index(t, CharTest::Whitespace);
        }
        if w.len() > 0 {
            seq![w] + split_words(t.skip(n))
        } else {
            split_words(t.skip(n))
        }
    }
}

/// Leading characters that pass `t` are those before the first one that fails it.
proof fn lemma_drop_leading_first_index(s: Seq<char>, t: CharTest, u: CharTest)
    requires
        forall|c: char| #[trigger] u.holds(c) == !t.holds(c),
    ensures
        0 <= first_index(s, u) <= s.len(),
        drop_leading(s, t) == s.skip(first_index(s, u)),
    decreases s.len(),
{
    lemma_first_index(s, u);
    if s.len() > 0 && t.holds(s[0]) {
        lemma_drop_leading_first_index(s.drop_first(), t, u);
        assert(s.drop_first().skip(first_index(s.drop_first(), u)) =~= s.skip(first_index(s, u)));
    } else {
        assert(s.skip(0) =~= s);
    }
}

impl Sentence {
    /// Splits `text` into words (see `split_words`).
    pub fn split_into_words(text: &str) -> (r: Vec<String>)
        ensures
            string_views(r@) == split_words(text@),
    {
        let chars = chars_of(text);
        let n = chars.len();
        let mut out: Vec<String> = Vec::new();
        let mut pos: usize = 0;
        assert(chars@.skip(0) =~= chars@);
        while pos < n
            invariant
                chars@ == text@,
                n == chars@.len(),
                pos <= n,
                string_views(out@) + split_words(chars@.skip(pos as int)) == split_words(text@),
            decreases n - pos,
        {
            let ghost rest = chars@.skip(pos as int);
            let ghost out0 = out@;
            assert(chars@.subrange(pos as int, n as int) =~= rest);
            proof {
                lemma_drop_leading_first_index(rest, CharTest::Whitespace, CharTest::NotWhitespace);
                lemma_first_index(rest, CharTest::NotWhitespace);
            }
            let a = find_in(&chars, pos, n, CharTest::NotWhitespace);
            let ghost t = drop_leading(rest, CharTest::Whitespace);
            assert(t =~= chars@.skip(a as int));
            if a == n {
                assert(t.len() == 0);
                assert(split_words(rest) =~= Seq::<Seq<char>>::empty());
                pos = n;
                assert(string_views(out@) + split_words(chars@.skip(pos as int)) =~= string_views(
                    out@,
                ) + split_words(rest));
            } else {
                assert(chars@.subrange(a as int, n as int) =~= t);
                let e = find_in(&chars, a, n, CharTest::Whitespace);
                proof {
                    lemma_first_index(t, CharTest::Whitespace);
                }
                assert(t[0] == rest[a - pos]);
                assert(e > a);
                assert(t.take(e - a) =~= chars@.subrange(a as int, e as int));
                assert(t.skip(e - a) =~= chars@.skip(e as int));
                let (x, y) = strip_bounds(&chars, a, e, CharTest::NotAlphanumeric);
                if x < y {
                    let w = text.substring_char(x, y).to_owned();
                    out.push(w);
                    assert(string_views(out@) =~= string_views(out0).push(w@));
                } else {
                    assert(string_views(out@) =~= string_views(out0));
                }
                pos = e;
                assert(string_views(out@) + split_words(chars@.skip(pos as int)) =~= string_views(
                    out0,
                ) + split_words(rest));
            }
        }
        assert(chars@.skip(n as int) =~= Seq::<char>::empty());
        assert(split_words(Seq::<char>::empty()) =~= Seq::<Seq<char>>::empty());
        assert(string_views(out@) =~= string_views(out@) + split_words(chars@.skip(n as int)));
        out
    }

    /// Parses `words` (e.g. "Так (thus / so) говорила (spoke / said) ...")
    /// into a sequence of glossed words and the punctuation between them, in
    /// the order they appear. Each word's IPA transcription is taken from
    /// `ipa`, whose words appear in the same order as `words`.
    pub fn tokens(&self) -> (r: Vec<WordToken>)
        ensures
            token_views(r@) == parse_tokens(self.words@, split_words(self.ipa@)),
    {
        let ipa = Self::split_into_words(&self.ipa);
        let ghost ipa_all = string_views(ipa@);
        let chars = chars_of(&self.words);
        let n = chars.len();
        let mut tokens: Vec<WordToken> = Vec::new();
        let mut pos: usize = 0;
        let mut k: usize = 0;
        assert(chars@.skip(0) =~= chars@);
        assert(ipa_all.skip(0) =~= ipa_all);
        loop
            invariant_except_break
                token_views(tokens@) + parse_tokens(chars@.skip(pos as int), ipa_all.skip(k as int))
                    == parse_tokens(chars@, ipa_all),
            invariant
                chars@ == self.words@,
                n == chars@.len(),
                ipa_all == string_views(ipa@),
                ipa_all == split_words(self.ipa@),
                pos <= n,
                k <= ipa@.len(),
            ensures
                pos <= n,
                token_views(tokens@) + trailing_tokens(chars@.skip(pos as int)) == parse_tokens(
                    chars@,
                    ipa_all,
                ),
            decreases n - pos,
        {
            let ghost rest = chars@.skip(pos as int);
            let ghost ipa_rest = ipa_all.skip(k as int);
            let ghost before = token_views(tokens@);
            assert(chars@.subrange(pos as int, n as int) =~= rest);
            let open = find_in(&chars, pos, n, CharTest::Is('('));
            proof {
                lemma_first_index(rest, CharTest::Is('('));
            }
            if open == n {
                break ;
            }
            assert(rest.take(open - pos) =~= chars@.subrange(pos as int, open as int));
            let (ca, cb) = strip_bounds(&chars, pos, open, CharTest::Whitespace);
            let ghost chunk = chars@.subrange(ca as int, cb as int);
            let ws = find_in(&chars, ca, cb, CharTest::Alphanumeric);
            assert(chunk.take(ws - ca) =~= chars@.subrange(ca as int, ws as int));
            assert(chunk.skip(ws - ca) =~= chars@.subrange(ws as int, cb as int));
            let (pa, pb) = strip_bounds(&chars, ca, ws, CharTest::Whitespace);
            if pa < pb {
                let p = self.words.as_str().substring_char(pa, pb).to_owned();
                tokens.push(WordToken::Punct(p));
            }
            assert(token_views(tokens@) =~= before + punct_tokens(
                chars@.subrange(pa as int, pb as int),
            ));
            let ghost after = rest.skip(open - pos + 1);
            assert(after =~= chars@.subrange(open + 1, n as int));
            let close = find_in(&chars, open + 1, n, CharTest::Is(')'));
            proof {
                lemma_first_index(after, CharTest::Is(')'));
            }
            if close == n {
                break ;
            }
            assert(after.take(close - open - 1) =~= chars@.subrange(open + 1, close as int));
            assert(after.skip(close - open - 1 + 1) =~= chars@.skip(close + 1));
            let (ga, gb) = strip_bounds(&chars, open + 1, close, CharTest::Whitespace);
            let ghost mid = token_views(tokens@);
            if ws < cb {
                let ipa_word = if k < ipa.len() {
                    ipa[k].clone()
                } else {
                    String::new()
                };
                assert(ipa_word@ == next_ipa(ipa_rest));
                if k < ipa.len() {
                    assert(ipa_all.skip(k + 1) =~= rest_ipa(ipa_rest));
                    k += 1;
                } else {
                    assert(ipa_all.skip(k as int) =~= rest_ipa(ipa_rest));
                }
                let ru = self.words.as_str().substring_char(ws, cb).to_owned();
                let en = self.words.as_str().substring_char(ga, gb).to_owned();
                let tok = WordToken::Word { ru, ipa: ipa_word, en };
                tokens.push(tok);
                assert(token_views(tokens@) =~= mid.push(tok@));
            }
            pos = close + 1;
            assert(token_views(tokens@) + parse_tokens(chars@.skip(pos as int), ipa_all.skip(k as int))
                =~= before + parse_tokens(rest, ipa_rest));
        }
        let ghost rest = chars@.skip(pos as int);
        let ghost before = token_views(tokens@);
        assert(chars@.subrange(pos as int, n as int) =~= rest);
        let (ta, tb) = strip_bounds(&chars, pos, n, CharTest::Whitespace);
        if ta < tb {
            let p = self.words.as_str().substring_char(ta, tb).to_owned();
            tokens.push(WordToken::Punct(p));
        }
        assert(token_views(tokens@) =~= before + trailing_tokens(rest));
        tokens
    }

    /// Splits [`Sentence::tokens`] into clauses, breaking after any
    /// [`WordToken::Punct`] token containing a character from
    /// the clause boundaries (`is_boundary_char`). The boundary punctuation stays attached to the
    /// clause it ends.
    pub fn clauses(&self) -> (r: Vec<Clause>)
        ensures
            clause_views(r@) == split_clauses(parse_tokens(self.words@, split_words(self.ipa@))),
    {
        split_into_clauses(self.tokens())
    }
}

/// Whether `c` ends a clause (`,` `;` `-` `—` `:`).
pub open spec fn is_boundary_char(c: char) -> bool {
    c == ',' || c == ';' || c == '-' || c == '—' || c == ':'
}

/// Whether `p` holds a boundary character.
pub open spec fn has_boundary_char(p: Seq<char>) -> bool {
    exists|i: int| 0 <= i < p.len() && is_boundary_char(#[trigger] p[i])
}

/// Whether a token ends a clause: punctuation that holds a boundary character.
pub open spec fn is_boundary(t: TokenView) -> bool {
    match t {
        TokenView::Punct(p) => has_boundary_char(p),
        TokenView::Word { .. } => false,
    }
}

/// The clauses of `ts`, given the clause `current` that is still open: each
/// clause runs up to and including the next boundary token; tokens after the
/// last boundary form a final clause of their own.
pub open spec fn group_clauses(ts: Seq<TokenView>, current: Seq<TokenView>) -> Seq<Seq<TokenView>>
    decreases ts.len(),
{
    if ts.len() == 0 {
        if current.len() > 0 {
            seq![current]
        } else {
            seq![]
        }
    } else {
        let cur = current.push(ts[0]);
        if is_boundary(ts[0]) {
            seq![cur] + group_clauses(ts.drop_first(), seq![])
        } else {
            group_clauses(ts.drop_first(), cur)
        }
    }
}

/// The clauses of a token sequence.
pub open spec fn split_clauses(ts: Seq<TokenView>) -> Seq<Seq<TokenView>> {
    group_clauses(ts, seq![])
}

/// The token views of each clause.
pub open spec fn clause_views(cs: Seq<Clause>) -> Seq<Seq<TokenView>> {
    cs.map_values(|c: Clause| token_views(c.tokens@))
}

fn is_boundary_char_exec(c: char) -> (r: bool)
    ensures
        r == is_boundary_char(c),
{
    c == ',' || c == ';' || c == '-' || c == '—' || c == ':'
}

/// Whether `token` ends a clause.
pub fn is_boundary_token(token: &WordToken) -> (r: bool)
    ensures
        r == is_boundary(token@),
{
    match token {
        WordToken::Word { .. } => false,
        WordToken::Punct(p) => {
            let chars = chars_of(p.as_str());
            let n = chars.len();
            let mut i: usize = 0;
            while i < n
                invariant
                    chars@ == p@,
                    token@ == TokenView::Punct(p@),
                    n == chars@.len(),
                    i <= n,
                    forall|j: int| 0 <= j < i ==> !is_boundary_char(#[trigger] chars@[j]),
                decreases n - i,
            {
                if is_boundary_char_exec(chars[i]) {
                    let ghost q: Seq<char> = p@;
                    assert(0 <= i < q.len());
                    assert(is_boundary_char(q[i as int]));
                    assert(has_boundary_char(q));
                    return true;
                }
                i += 1;
            }
            false
        },
    }
}

/// Splits a token sequence into clauses (see `group_clauses`).
pub fn split_into_clauses(tokens: Vec<WordToken>) -> (r: Vec<Clause>)
    ensures
        clause_views(r@) == split_clauses(token_views(tokens@)),
{
    let ghost ts = token_views(tokens@);
    let mut clauses: Vec<Clause> = Vec::new();
    let mut current: Vec<WordToken> = Vec::new();
    assert(ts.skip(0) =~= ts);
    assert(clause_views(clauses@) =~= Seq::<Seq<TokenView>>::empty());
    assert(token_views(current@) =~= Seq::<TokenView>::empty());
    for token in it: tokens.into_iter()
        invariant
            ts == token_views(it.seq()),
            clause_views(clauses@) + group_clauses(ts.skip(it.index() as int), token_views(current@))
                == split_clauses(ts),
    {
        let ghost i = it.index();
        let ghost before = clause_views(clauses@);
        let ghost cur0 = token_views(current@);
        assert(ts[i as int] == token@);
        assert(ts.skip(i as int).drop_first() =~= ts.skip(i + 1));
        let ends_clause = is_boundary_token(&token);
        current.push(token);
        assert(token_views(current@) =~= cur0.push(token@));
        if ends_clause {
            let done = Clause { tokens: current };
            current = Vec::new();
            clauses.push(done);
            assert(clause_views(clauses@) =~= before.push(cur0.push(token@)));
            assert(token_views(current@) =~= Seq::<TokenView>::empty());
        }
    }
    assert(ts.skip(ts.len() as int) =~= Seq::<TokenView>::empty());
    if current.len() > 0 {
        let ghost before = clause_views(clauses@);
        clauses.push(Clause { tokens: current });
        assert(clause_views(clauses@) =~= before.push(token_views(current@)));
    }
    clauses
}

/// A run of tokens between two clause boundaries (or the start/end of the
/// sentence).
#[derive(Debug, Clone, PartialEq, Eq)]
pub struct Clause {
    pub tokens: Vec<WordToken>,
}

/// The text a token adds to a rendered line: a word is preceded by a space
/// unless it is the first token; punctuation hugs what comes before it.
pub open spec fn token_text(t: TokenView, first: bool) -> Seq<char> {
    match t {
        TokenView::Word { ru, .. } => if first {
            ru
        } else {
            seq![' '] + ru
        },
        TokenView::Punct(p) => p,
    }
}

/// A token sequence rendered as a single line of Russian text.
pub open spec fn render(ts: Seq<TokenView>) -> Seq<char>
    decreases ts.len(),
{
    if ts.len() == 0 {
        seq![]
    } else {
        render(ts.drop_last()) + token_text(ts.last(), ts.len() == 1)
    }
}

impl Clause {
    /// Renders the clause's tokens as a single line of Russian text,
    /// punctuation hugging the word before it rather than being
    /// space-separated.
    pub fn text(&self) -> (r: String)
        ensures
            r@ == render(token_views(self.tokens@)),
    {
        let ghost ts = token_views(self.tokens@);
        let mut text = String::new();
        let n = self.tokens.len();
        let mut i: usize = 0;
        while i < n
            invariant
                ts == token_views(self.tokens@),
                n == self.tokens@.len(),
                i <= n,
                text@ == render(ts.take(i as int)),
            decreases n - i,
        {
            let ghost before = text@;
            assert(ts.take(i + 1).drop_last() =~= ts.take(i as int));
            assert(ts[i as int] == self.tokens@[i as int]@);
            proof {
                reveal_strlit(" ");
            }
            match &self.tokens[i] {
                WordToken::Word { ru, .. } => {
                    if i != 0 {
                        text.append(" ");
                    }
                    text.append(ru.as_str());
                },
                WordToken::Punct(p) => {
                    text.append(p.as_str());
                },
            }
            assert(text@ =~= before + token_text(ts[i as int], i == 0));
            i += 1;
        }
        assert(ts.take(n as int) =~= ts);
        text
    }
}

/// Index of the first volume/part entry that names `file`, or `parts.len()`.
pub open spec fn first_part_for(parts: Seq<VolumePart>, file: Seq<char>) -> int
    decreases parts.len(),
{
    if parts.len() == 0 {
        0
    } else if parts[0].file@ == file {
        0
    } else {
        1 + first_part_for(parts.drop_first(), file)
    }
}

proof fn lemma_first_part_for(parts: Seq<VolumePart>, file: Seq<char>)
    ensures
        0 <= first_part_for(parts, file) <= parts.len(),
        forall|j: int| 0 <= j < first_part_for(parts, file) ==> (#[trigger] parts[j]).file@ != file,
        first_part_for(parts, file) < parts.len() ==> parts[first_part_for(parts, file)].file@
            == file,
        (exists|j: int| 0 <= j < parts.len() && (#[trigger] parts[j]).file@ == file)
            ==> first_part_for(parts, file) < parts.len(),
    decreases parts.len(),
{
    if parts.len() > 0 && parts[0].file@ != file {
        lemma_first_part_for(parts.drop_first(), file);
        assert forall|j: int| 0 <= j < first_part_for(parts, file) implies (#[trigger] parts[j]).file@
            != file by {
            if j > 0 {
                assert(parts[j] == parts.drop_first()[j - 1]);
            }
        }
        if exists|j: int| 0 <= j < parts.len() && (#[trigger] parts[j]).file@ == file {
            let j = choose|j: int| 0 <= j < parts.len() && (#[trigger] parts[j]).file@ == file;
            assert(parts.drop_first()[j - 1] == parts[j]);
        }
    }
}

/// Index of the first sentence with the given id, or `sentences.len()`.
pub open spec fn first_with_id(sentences: Seq<Sentence>, id: u32) -> int
    decreases sentences.len(),
{
    if sentences.len() == 0 {
        0
    } else if sentences[0].id == id {
        0
    } else {
        1 + first_with_id(sentences.drop_first(), id)
    }
}

proof fn lemma_first_with_id(sentences: Seq<Sentence>, id: u32)
    ensures
        0 <= first_with_id(sentences, id) <= sentences.len(),
        forall|j: int| 0 <= j < first_with_id(sentences, id) ==> (#[trigger] sentences[j]).id != id,
        first_with_id(sentences, id) < sentences.len() ==> sentences[first_with_id(
            sentences,
            id,
        )].id == id,
    decreases sentences.len(),
{
    if sentences.len() > 0 && sentences[0].id != id {
        lemma_first_with_id(sentences.drop_first(), id);
        assert forall|j: int| 0 <= j < first_with_id(sentences, id) implies (#[trigger] sentences[j]).id
            != id by {
            if j > 0 {
                assert(sentences[j] == sentences.drop_first()[j - 1]);
            }
        }
    }
}

/// The index of the first entry of `parts` for `file`, if there is one.
pub fn find_volume_part(parts: &Vec<VolumePart>, file: &str) -> (r: Option<usize>)
    ensures
        match r {
            Some(i) => i == first_part_for(parts@, file@) && i < parts@.len(),
            None => first_part_for(parts@, file@) == parts@.len(),
        },
{
    proof {
        lemma_first_part_for(parts@, file@);
    }
    let mut i: usize = 0;
    while i < parts.len()
        invariant
            i <= parts@.len(),
            i <= first_part_for(parts@, file@),
            0 <= first_part_for(parts@, file@) <= parts@.len(),
            forall|j: int|
                0 <= j < first_part_for(parts@, file@) ==> (#[trigger] parts@[j]).file@ != file@,
            first_part_for(parts@, file@) < parts@.len() ==> parts@[first_part_for(
                parts@,
                file@,
            )].file@ == file@,
        decreases parts@.len() - i,
    {
        if crate::text::str_eq(parts[i].file.as_str(), file) {
            return Some(i);
        }
        i += 1;
    }
    None
}

impl Sentence {
    /// Window title, e.g. "ТОМ ПЕРВЫЙ ЧАСТЬ ПЕРВАЯ IV": the volume and part
    /// of the first index entry for the sentence file, a space, and the
    /// chapter.
    pub fn title(&self, volume_parts: &Vec<VolumePart>) -> (r: String)
        requires
            exists|i: int|
                0 <= i < volume_parts@.len() && #[trigger] volume_parts@[i].file@
                    == SENTENCES_FILE@,
        ensures
            r@ == volume_parts@[first_part_for(volume_parts@, SENTENCES_FILE@)].vol_part@ + seq![
                ' ',
            ] + self.chapter@,
    {
        proof {
            lemma_first_part_for(volume_parts@, SENTENCES_FILE@);
        }
        let found = find_volume_part(volume_parts, SENTENCES_FILE);
        let i = match found {
            Some(i) => i,
            None => {
                proof {
                    assert(false);
                }
                return String::new();
            },
        };
        let mut title = volume_parts[i].vol_part.clone();
        proof {
            reveal_strlit(" ");
        }
        title.append(" ");
        title.append(self.chapter.as_str());
        title
    }
}

/// The first sentence with id `id`, if any.
pub fn find_by_id(sentences: Vec<Sentence>, id: u32) -> (r: Option<Sentence>)
    ensures
        first_with_id(sentences@, id) < sentences@.len() ==> r == Some(
            sentences@[first_with_id(sentences@, id)],
        ),
        first_with_id(sentences@, id) == sentences@.len() ==> r is None,
{
    proof {
        lemma_first_with_id(sentences@, id);
    }
    let ghost orig = sentences@;
    let mut list = sentences;
    let mut i: usize = 0;
    while i < list.len()
        invariant
            i <= list@.len(),
            orig == sentences@,
            i <= first_with_id(orig, id),
            list@ == orig,
            0 <= first_with_id(orig, id) <= orig.len(),
            forall|j: int| 0 <= j < first_with_id(orig, id) ==> (#[trigger] orig[j]).id != id,
            first_with_id(orig, id) < orig.len() ==> orig[first_with_id(orig, id)].id == id,
        decreases list@.len() - i,
    {
        if list[i].id == id {
            let found = list.swap_remove(i);
            return Some(found);
        }
        i += 1;
    }
    None
}

} // verus!

verus! {

/// The word tokens of `ts`, in order.
pub open spec fn words_of(ts: Seq<TokenView>) -> Seq<TokenView>
    decreases ts.len(),
{
    if ts.len() == 0 {
        seq![]
    } else if ts[0] is Word {
        seq![ts[0]] + words_of(ts.drop_first())
    } else {
        words_of(ts.drop_first())
    }
}

proof fn lemma_words_of_add(a: Seq<TokenView>, b: Seq<TokenView>)
    ensures
        words_of(a + b) == words_of(a) + words_of(b),
    decreases a.len(),
{
    if a.len() == 0 {
        assert(a + b =~= b);
        assert(words_of(a) + words_of(b) =~= words_of(b));
    } else {
        lemma_words_of_add(a.drop_first(), b);
        assert((a + b).drop_first() =~= a.drop_first() + b);
        assert((a + b)[0] == a[0]);
        if a[0] is Word {
            assert(seq![a[0]] + (words_of(a.drop_first()) + words_of(b)) =~= (seq![a[0]] + words_of(
                a.drop_first(),
            )) + words_of(b));
        }
    }
}

proof fn lemma_words_of_punct(p: Seq<char>)
    ensures
        words_of(punct_tokens(p)) == Seq::<TokenView>::empty(),
{
    if p.len() > 0 {
        let e = punct_tokens(p).drop_first();
        assert(e =~= Seq::<TokenView>::empty());
        assert(words_of(e) =~= Seq::<TokenView>::empty());
    }
}

/// The `k`-th word token of the parse of a gloss text carries the `k`-th
/// transcription, or the empty text once the transcriptions are used up:
/// transcriptions go to the words in the order they appear.
pub proof fn lemma_words_take_ipa_in_order(rest: Seq<char>, ipa: Seq<Seq<char>>)
    ensures
        forall|k: int|
            0 <= k < words_of(parse_tokens(rest, ipa)).len() ==> (#[trigger] words_of(
                parse_tokens(rest, ipa),
            )[k])->ipa == if k < ipa.len() {
                ipa[k]
            } else {
                Seq::<char>::empty()
            },
    decreases rest.len(),
{
    let open = first_index(rest, CharTest::Is('('));
    lemma_first_index(rest, CharTest::Is('('));
    if open >= rest.len() {
        lemma_words_of_punct(trim(rest));
    } else {
        let chunk = trim(rest.take(open));
        let word_start = first_index(chunk, CharTest::Alphanumeric);
        let punct = trim(chunk.take(word_start));
        let word = chunk.skip(word_start);
        let after = rest.skip(open + 1);
        let close = first_index(after, CharTest::Is(')'));
        lemma_first_index(after, CharTest::Is(')'));
        lemma_words_of_punct(punct);
        if close >= after.len() {
            lemma_words_of_punct(trim(rest));
            lemma_words_of_add(punct_tokens(punct), trailing_tokens(rest));
        } else {
            let gloss = trim(after.take(close));
            let next = after.skip(close + 1);
            if word.len() > 0 {
                let w = seq![TokenView::Word { ru: word, ipa: next_ipa(ipa), en: gloss }];
                let tail = parse_tokens(next, rest_ipa(ipa));
                lemma_words_take_ipa_in_order(next, rest_ipa(ipa));
                lemma_words_of_add(punct_tokens(punct), w);
                lemma_words_of_add(punct_tokens(punct) + w, tail);
                assert(w.drop_first() =~= Seq::<TokenView>::empty());
                assert(words_of(w.drop_first()) =~= Seq::<TokenView>::empty());
                assert(words_of(w) =~= w);
                let all = words_of(parse_tokens(rest, ipa));
                assert(all =~= w + words_of(tail));
                assert forall|k: int| 0 <= k < all.len() implies (#[trigger] all[k])->ipa == if k
                    < ipa.len() {
                    ipa[k]
                } else {
                    Seq::<char>::empty()
                } by {
                    if k > 0 {
                        assert(all[k] == words_of(tail)[k - 1]);
                        if ipa.len() > 0 && k < ipa.len() {
                            assert(rest_ipa(ipa)[k - 1] == ipa[k]);
                        }
                    }
                }
            } else {
                lemma_words_take_ipa_in_order(next, ipa);
                lemma_words_of_add(punct_tokens(punct), parse_tokens(next, ipa));
                assert(words_of(parse_tokens(rest, ipa)) =~= words_of(parse_tokens(next, ipa)));
            }
        }
    }
}

/// A token as the parse produces it: punctuation is non-empty and has no
/// whitespace at either end; a word is non-empty, starts with an
/// alphanumeric character and ends in no whitespace, and its gloss, if any,
/// has no whitespace at either end.
pub open spec fn well_formed_token(t: TokenView) -> bool {
    match t {
        TokenView::Punct(p) => p.len() > 0 && !char_is_whitespace(p[0]) && !char_is_whitespace(
            p.last(),
        ),
        TokenView::Word { ru, en, .. } => {
            &&& ru.len() > 0
            &&& char_is_alphanumeric(ru[0])
            &&& !char_is_whitespace(ru.last())
            &&& en.len() > 0 ==> !char_is_whitespace(en[0]) && !char_is_whitespace(en.last())
        },
    }
}

proof fn lemma_punct_tokens_well_formed(p: Seq<char>)
    requires
        p.len() > 0 ==> !char_is_whitespace(p[0]) && !char_is_whitespace(p.last()),
    ensures
        forall|i: int|
            0 <= i < punct_tokens(p).len() ==> well_formed_token(#[trigger] punct_tokens(p)[i]),
{
}

/// Every token of the parse of a gloss text is well formed.
pub proof fn lemma_tokens_well_formed(rest: Seq<char>, ipa: Seq<Seq<char>>)
    ensures
        forall|i: int|
            0 <= i < parse_tokens(rest, ipa).len() ==> well_formed_token(
                #[trigger] parse_tokens(rest, ipa)[i],
            ),
    decreases rest.len(),
{
    let open = first_index(rest, CharTest::Is('('));
    lemma_first_index(rest, CharTest::Is('('));
    lemma_strip(rest, CharTest::Whitespace);
    lemma_punct_tokens_well_formed(trim(rest));
    if open < rest.len() {
        let chunk = trim(rest.take(open));
        let word_start = first_index(chunk, CharTest::Alphanumeric);
        let punct = trim(chunk.take(word_start));
        let word = chunk.skip(word_start);
        let after = rest.skip(open + 1);
        let close = first_index(after, CharTest::Is(')'));
        lemma_first_index(after, CharTest::Is(')'));
        lemma_strip(rest.take(open), CharTest::Whitespace);
        lemma_first_index(chunk, CharTest::Alphanumeric);
        lemma_strip(chunk.take(word_start), CharTest::Whitespace);
        lemma_punct_tokens_well_formed(punct);
        let lead = punct_tokens(punct);
        if close >= after.len() {
            let all = lead + trailing_tokens(rest);
            assert forall|i: int| 0 <= i < all.len() implies well_formed_token(#[trigger] all[i]) by {
                if i >= lead.len() {
                    assert(all[i] == trailing_tokens(rest)[i - lead.len()]);
                }
            }
        } else {
            let gloss = trim(after.take(close));
            let next = after.skip(close + 1);
            lemma_strip(after.take(close), CharTest::Whitespace);
            if word.len() > 0 {
                let t = TokenView::Word { ru: word, ipa: next_ipa(ipa), en: gloss };
                assert(word[0] == chunk[word_start]);
                assert(word.last() == chunk.last());
                assert(well_formed_token(t));
                let tail = parse_tokens(next, rest_ipa(ipa));
                lemma_tokens_well_formed(next, rest_ipa(ipa));
                let all = lead + seq![t] + tail;
                assert(all == parse_tokens(rest, ipa));
                assert forall|i: int| 0 <= i < all.len() implies well_formed_token(#[trigger] all[i]) by {
                    if i < lead.len() {
                        assert(all[i] == lead[i]);
                    } else if i == lead.len() {
                        assert(all[i] == t);
                    } else {
                        assert(all[i] == tail[i - lead.len() - 1]);
                    }
                }
            } else {
                let tail = parse_tokens(next, ipa);
                lemma_tokens_well_formed(next, ipa);
                let all = lead + tail;
                assert forall|i: int| 0 <= i < all.len() implies well_formed_token(#[trigger] all[i]) by {
                    if i >= lead.len() {
                        assert(all[i] == tail[i - lead.len()]);
                    }
                }
            }
        }
    }
}

/// Whether `cs` splits `ts` into clauses: together the clauses are `ts` in
/// order, none is empty, each but the last ends on a boundary token, and no
/// boundary token stands anywhere but at the end of a clause.
pub open spec fn is_clause_split(ts: Seq<TokenView>, cs: Seq<Seq<TokenView>>) -> bool {
    &&& cs.flatten() == ts
    &&& forall|i: int| 0 <= i < cs.len() ==> (#[trigger] cs[i]).len() > 0
    &&& forall|i: int| 0 <= i < cs.len() - 1 ==> is_boundary((#[trigger] cs[i]).last())
    &&& forall|i: int, j: int|
        0 <= i < cs.len() && 0 <= j < cs[i].len() - 1 ==> !is_boundary(#[trigger] cs[i][j])
}

proof fn lemma_group_clauses(ts: Seq<TokenView>, cur: Seq<TokenView>)
    requires
        forall|j: int| 0 <= j < cur.len() ==> !is_boundary(#[trigger] cur[j]),
    ensures
        is_clause_split(cur + ts, group_clauses(ts, cur)),
    decreases ts.len(),
{
    let cs = group_clauses(ts, cur);
    if ts.len() == 0 {
        assert(cur + ts =~= cur);
        if cur.len() > 0 {
            assert(cs.drop_first() =~= Seq::<Seq<TokenView>>::empty());
            assert(cs.drop_first().flatten() =~= Seq::<TokenView>::empty());
            assert(cs.flatten() =~= cur + cs.drop_first().flatten());
            assert forall|i: int, j: int|
                0 <= i < cs.len() && 0 <= j < cs[i].len() - 1 implies !is_boundary(
                #[trigger] cs[i][j],
            ) by {
                assert(cs[i] == cur);
            }
        } else {
            assert(cs.flatten() =~= Seq::<TokenView>::empty());
            assert(cur =~= Seq::<TokenView>::empty());
        }
    } else {
        let c = cur.push(ts[0]);
        let rest = ts.drop_first();
        assert(c + rest =~= cur + ts);
        if is_boundary(ts[0]) {
            let tail = group_clauses(rest, seq![]);
            lemma_group_clauses(rest, seq![]);
            assert(Seq::<TokenView>::empty() + rest =~= rest);
            assert(cs == seq![c] + tail);
            assert(cs.drop_first() =~= tail);
            assert(cs.flatten() =~= c + tail.flatten());
            assert forall|i: int| 0 <= i < cs.len() implies (#[trigger] cs[i]).len() > 0 by {
                if i > 0 {
                    assert(cs[i] == tail[i - 1]);
                }
            }
            assert forall|i: int| 0 <= i < cs.len() - 1 implies is_boundary((#[trigger] cs[i]).last()) by {
                if i > 0 {
                    assert(cs[i] == tail[i - 1]);
                }
            }
            assert forall|i: int, j: int|
                0 <= i < cs.len() && 0 <= j < cs[i].len() - 1 implies !is_boundary(
                #[trigger] cs[i][j],
            ) by {
                if i > 0 {
                    assert(cs[i] == tail[i - 1]);
                } else {
                    assert(cs[0] == c);
                    assert(c[j] == cur[j]);
                }
            }
        } else {
            assert forall|j: int| 0 <= j < c.len() implies !is_boundary(#[trigger] c[j]) by {
                if j < cur.len() {
                    assert(c[j] == cur[j]);
                }
            }
            lemma_group_clauses(rest, c);
        }
    }
}

/// The clauses of a token sequence split it: together they are the tokens
/// in order, none is empty, each but the last ends on a boundary token, and
/// boundary tokens stand only at the ends of clauses.
pub proof fn lemma_clauses_split_tokens(ts: Seq<TokenView>)
    ensures
        is_clause_split(ts, split_clauses(ts)),
{
    lemma_group_clauses(ts, seq![]);
    assert(Seq::<TokenView>::empty() + ts =~= ts);
}

/// There is only one way to split a token sequence into clauses.
pub proof fn lemma_clause_split_unique(
    ts: Seq<TokenView>,
    cs1: Seq<Seq<TokenView>>,
    cs2: Seq<Seq<TokenView>>,
)
    requires
        is_clause_split(ts, cs1),
        is_clause_split(ts, cs2),
    ensures
        cs1 == cs2,
    decreases ts.len(),
{
    if cs1.len() == 0 || cs2.len() == 0 {
        if cs1.len() > 0 {
            assert(cs1.flatten() =~= cs1[0] + cs1.drop_first().flatten());
            assert(false);
        }
        if cs2.len() > 0 {
            assert(cs2.flatten() =~= cs2[0] + cs2.drop_first().flatten());
            assert(false);
        }
        assert(cs1 =~= cs2);
    } else {
        let a = cs1[0];
        let b = cs2[0];
        assert(cs1.flatten() == a + cs1.drop_first().flatten());
        assert(cs2.flatten() == b + cs2.drop_first().flatten());
        // the first clause is the tokens up to and including the first boundary
        assert(a.len() == b.len()) by {
            if a.len() < b.len() {
                assert(ts[a.len() - 1] == a[a.len() - 1]);
                assert(ts[a.len() - 1] == b[a.len() - 1]);
                if cs1.len() == 1 {
                    assert(cs1.drop_first() =~= Seq::<Seq<TokenView>>::empty());
                    assert(ts =~= a);
                    assert(b.len() <= ts.len());
                } else {
                    assert(is_boundary(cs1[0].last()));
                }
            } else if b.len() < a.len() {
                assert(ts[b.len() - 1] == a[b.len() - 1]);
                assert(ts[b.len() - 1] == b[b.len() - 1]);
                if cs2.len() == 1 {
                    assert(cs2.drop_first() =~= Seq::<Seq<TokenView>>::empty());
                    assert(ts =~= b);
                    assert(a.len() <= ts.len());
                } else {
                    assert(is_boundary(cs2[0].last()));
                }
            }
        }
        assert(a =~= ts.take(a.len() as int));
        assert(b =~= ts.take(b.len() as int));
        let rest = ts.skip(a.len() as int);
        let t1 = cs1.drop_first();
        let t2 = cs2.drop_first();
        assert(t1.flatten() =~= rest);
        assert(t2.flatten() =~= rest);
        assert forall|i: int| 0 <= i < t1.len() - 1 implies is_boundary((#[trigger] t1[i]).last()) by {
            assert(t1[i] == cs1[i + 1]);
        }
        assert forall|i: int| 0 <= i < t2.len() - 1 implies is_boundary((#[trigger] t2[i]).last()) by {
            assert(t2[i] == cs2[i + 1]);
        }
        assert forall|i: int| 0 <= i < t1.len() implies (#[trigger] t1[i]).len() > 0 by {
            assert(t1[i] == cs1[i + 1]);
        }
        assert forall|i: int| 0 <= i < t2.len() implies (#[trigger] t2[i]).len() > 0 by {
            assert(t2[i] == cs2[i + 1]);
        }
        assert forall|i: int, j: int|
            0 <= i < t1.len() && 0 <= j < t1[i].len() - 1 implies !is_boundary(#[trigger] t1[i][j]) by {
            assert(t1[i] == cs1[i + 1]);
        }
        assert forall|i: int, j: int|
            0 <= i < t2.len() && 0 <= j < t2[i].len() - 1 implies !is_boundary(#[trigger] t2[i][j]) by {
            assert(t2[i] == cs2[i + 1]);
        }
        lemma_clause_split_unique(rest, t1, t2);
        assert(cs1 =~= seq![a] + t1);
        assert(cs2 =~= seq![b] + t2);
    }
}

/// A punctuation token ends a clause exactly when it holds one of the
/// characters `,` `;` `-` `—` `:`; a word never ends a clause.
pub proof fn lemma_boundary_tokens(p: Seq<char>, ru: Seq<char>, ipa: Seq<char>, en: Seq<char>)
    ensures
        is_boundary(TokenView::Punct(p)) <==> (p.contains(',') || p.contains(';') || p.contains('-')
            || p.contains('—') || p.contains(':')),
        !is_boundary(TokenView::Word { ru, ipa, en }),
{
    if is_boundary(TokenView::Punct(p)) {
        let i = choose|i: int| 0 <= i < p.len() && is_boundary_char(#[trigger] p[i]);
        assert(p.contains(p[i]));
    }
    if p.contains(',') || p.contains(';') || p.contains('-') || p.contains('—') || p.contains(':') {
        let i = choose|i: int|
            0 <= i < p.len() && (p[i] == ',' || p[i] == ';' || p[i] == '-' || p[i] == '—' || p[i]
                == ':');
        assert(is_boundary_char(p[i]));
        assert(has_boundary_char(p));
    }
}

/// `s` without its whitespace characters.
pub open spec fn visible(s: Seq<char>) -> Seq<char>
    decreases s.len(),
{
    if s.len() == 0 {
        seq![]
    } else if char_is_whitespace(s[0]) {
        visible(s.drop_first())
    } else {
        seq![s[0]] + visible(s.drop_first())
    }
}

/// The text a token shows: a word's Russian text, or the punctuation.
pub open spec fn token_chars(t: TokenView) -> Seq<char> {
    match t {
        TokenView::Word { ru, .. } => ru,
        TokenView::Punct(p) => p,
    }
}

/// The texts of the tokens, one after the other.
pub open spec fn tokens_chars(ts: Seq<TokenView>) -> Seq<char>
    decreases ts.len(),
{
    if ts.len() == 0 {
        seq![]
    } else {
        token_chars(ts[0]) + tokens_chars(ts.drop_first())
    }
}

/// Every `(` of `s` is followed, somewhere later, by a `)`.
pub open spec fn glosses_closed(s: Seq<char>) -> bool {
    forall|i: int|
        0 <= i < s.len() && s[i] == '(' ==> exists|j: int| i < j < s.len() && #[trigger] s[j] == ')'
}

/// The text of `s` outside its glosses: `s` with each stretch from a `(` to
/// the first `)` after it taken out.
pub open spec fn outside_glosses(s: Seq<char>) -> Seq<char>
    decreases s.len(),
{
    let open = first_index(s, CharTest::Is('('));
    if open >= s.len() {
        s
    } else {
        let after = s.skip(open + 1);
        let close = first_index(after, CharTest::Is(')'));
        if close >= after.len() {
            s
        } else {
            proof {
                lemma_first_index(s, CharTest::Is('('));
                lemma_first_index(after, CharTest::Is(')'));
            }
            s.take(open) + outside_glosses(after.skip(close + 1))
        }
    }
}

proof fn lemma_visible_add(a: Seq<char>, b: Seq<char>)
    ensures
        visible(a + b) == visible(a) + visible(b),
    decreases a.len(),
{
    if a.len() == 0 {
        assert(a + b =~= b);
        assert(visible(a) + visible(b) =~= visible(b));
    } else {
        lemma_visible_add(a.drop_first(), b);
        assert((a + b).drop_first() =~= a.drop_first() + b);
        assert((a + b)[0] == a[0]);
        if !char_is_whitespace(a[0]) {
            assert(seq![a[0]] + (visible(a.drop_first()) + visible(b)) =~= (seq![a[0]] + visible(
                a.drop_first(),
            )) + visible(b));
        }
    }
}

proof fn lemma_visible_drop_leading(s: Seq<char>)
    ensures
        visible(drop_leading(s, CharTest::Whitespace)) == visible(s),
    decreases s.len(),
{
    if s.len() > 0 && char_is_whitespace(s[0]) {
        lemma_visible_drop_leading(s.drop_first());
    }
}

proof fn lemma_visible_drop_trailing(s: Seq<char>)
    ensures
        visible(crate::text::drop_trailing(s, CharTest::Whitespace)) == visible(s),
    decreases s.len(),
{
    if s.len() > 0 && char_is_whitespace(s.last()) {
        lemma_visible_drop_trailing(s.drop_last());
        let l = seq![s.last()];
        assert(s =~= s.drop_last() + l);
        lemma_visible_add(s.drop_last(), l);
        assert(l.drop_first() =~= Seq::<char>::empty());
        assert(visible(l.drop_first()) =~= Seq::<char>::empty());
        assert(visible(l) =~= Seq::<char>::empty());
        assert(visible(s.drop_last()) + visible(l) =~= visible(s.drop_last()));
    }
}

/// Trimming only removes whitespace.
proof fn lemma_visible_trim(s: Seq<char>)
    ensures
        visible(trim(s)) == visible(s),
{
    lemma_visible_drop_leading(s);
    lemma_visible_drop_trailing(drop_leading(s, CharTest::Whitespace));
}

proof fn lemma_tokens_chars_add(a: Seq<TokenView>, b: Seq<TokenView>)
    ensures
        tokens_chars(a + b) == tokens_chars(a) + tokens_chars(b),
    decreases a.len(),
{
    if a.len() == 0 {
        assert(a + b =~= b);
        assert(tokens_chars(a) + tokens_chars(b) =~= tokens_chars(b));
    } else {
        lemma_tokens_chars_add(a.drop_first(), b);
        assert((a + b).drop_first() =~= a.drop_first() + b);
        assert((a + b)[0] == a[0]);
        assert(token_chars(a[0]) + (tokens_chars(a.drop_first()) + tokens_chars(b)) =~= (
        token_chars(a[0]) + tokens_chars(a.drop_first())) + tokens_chars(b));
    }
}

proof fn lemma_tokens_chars_one(t: TokenView)
    ensures
        tokens_chars(seq![t]) == token_chars(t),
{
    assert(seq![t].drop_first() =~= Seq::<TokenView>::empty());
    assert(tokens_chars(seq![t].drop_first()) =~= Seq::<char>::empty());
    assert(token_chars(t) + Seq::<char>::empty() =~= token_chars(t));
}

proof fn lemma_tokens_chars_punct(p: Seq<char>)
    ensures
        tokens_chars(punct_tokens(p)) == p,
{
    if p.len() > 0 {
        lemma_tokens_chars_one(TokenView::Punct(p));
    } else {
        assert(p =~= Seq::<char>::empty());
    }
}

/// No text is lost or repeated by the parse: when every gloss is closed,
/// the non-whitespace characters of the tokens, read one after the other,
/// are exactly the non-whitespace characters of the gloss text outside its
/// glosses. In particular whatever stands after the last gloss (such as the
/// final full stop) ends up in the tokens.
pub proof fn lemma_tokens_keep_text(s: Seq<char>, ipa: Seq<Seq<char>>)
    requires
        glosses_closed(s),
    ensures
        visible(tokens_chars(parse_tokens(s, ipa))) == visible(outside_glosses(s)),
    decreases s.len(),
{
    let open = first_index(s, CharTest::Is('('));
    lemma_first_index(s, CharTest::Is('('));
    if open >= s.len() {
        lemma_tokens_chars_punct(trim(s));
        lemma_visible_trim(s);
    } else {
        let chunk = trim(s.take(open));
        let word_start = first_index(chunk, CharTest::Alphanumeric);
        lemma_first_index(chunk, CharTest::Alphanumeric);
        let punct = trim(chunk.take(word_start));
        let word = chunk.skip(word_start);
        let after = s.skip(open + 1);
        let close = first_index(after, CharTest::Is(')'));
        lemma_first_index(after, CharTest::Is(')'));
        assert(s[open] == '(');
        let j = choose|j: int| open < j < s.len() && #[trigger] s[j] == ')';
        assert(after[j - open - 1] == ')');
        assert(close < after.len());
        let gloss = trim(after.take(close));
        let next = after.skip(close + 1);
        assert forall|i: int| 0 <= i < next.len() && next[i] == '(' implies exists|j: int|
            i < j < next.len() && #[trigger] next[j] == ')' by {
            let m = open + 1 + close + 1;
            assert(next[i] == s[i + m]);
            let j = choose|j: int| i + m < j < s.len() && #[trigger] s[j] == ')';
            assert(next[j - m] == s[j]);
        }
        lemma_tokens_keep_text(next, rest_ipa(ipa));
        lemma_tokens_keep_text(next, ipa);
        // the chunk's characters are its punctuation followed by its word
        lemma_visible_trim(chunk.take(word_start));
        lemma_visible_trim(s.take(open));
        assert(chunk =~= chunk.take(word_start) + word);
        lemma_visible_add(chunk.take(word_start), word);
        lemma_visible_add(punct, word);
        lemma_tokens_chars_punct(punct);
        let lead = punct_tokens(punct);
        if word.len() > 0 {
            let w = seq![TokenView::Word { ru: word, ipa: next_ipa(ipa), en: gloss }];
            let tail = parse_tokens(next, rest_ipa(ipa));
            lemma_tokens_chars_one(w[0]);
            lemma_tokens_chars_add(lead, w);
            lemma_tokens_chars_add(lead + w, tail);
            lemma_visible_add(punct + word, tokens_chars(tail));
        } else {
            let tail = parse_tokens(next, ipa);
            assert(word =~= Seq::<char>::empty());
            assert(punct + word =~= punct);
            lemma_tokens_chars_add(lead, tail);
            lemma_visible_add(punct, tokens_chars(tail));
        }
        lemma_visible_add(s.take(open), outside_glosses(next));
    }
}

/// A gloss text without glosses is one punctuation token: the text,
/// trimmed, unless it is all whitespace.
pub proof fn lemma_text_without_glosses(s: Seq<char>, ipa: Seq<Seq<char>>)
    requires
        forall|i: int| 0 <= i < s.len() ==> s[i] != '(',
    ensures
        trim(s).len() > 0 ==> parse_tokens(s, ipa) == seq![TokenView::Punct(trim(s))],
        trim(s).len() == 0 ==> parse_tokens(s, ipa).len() == 0,
{
    lemma_first_index(s, CharTest::Is('('));
}

/// The sentence `find_by_id` picks has the asked id, and no sentence before
/// it does; it picks none exactly when no sentence has the id.
pub proof fn lemma_find_by_id_picks_first_match(sentences: Seq<Sentence>, id: u32)
    ensures
        first_with_id(sentences, id) < sentences.len() ==> sentences[first_with_id(
            sentences,
            id,
        )].id == id && forall|j: int|
            0 <= j < first_with_id(sentences, id) ==> (#[trigger] sentences[j]).id != id,
        first_with_id(sentences, id) == sentences.len() <==> forall|j: int|
            0 <= j < sentences.len() ==> (#[trigger] sentences[j]).id != id,
{
    lemma_first_with_id(sentences, id);
}

/// The index entry a title takes its volume and part from names the
/// sentence file, and no entry before it does.
pub proof fn lemma_title_uses_first_entry(parts: Seq<VolumePart>)
    requires
        exists|i: int| 0 <= i < parts.len() && #[trigger] parts[i].file@ == SENTENCES_FILE@,
    ensures
        first_part_for(parts, SENTENCES_FILE@) < parts.len(),
        parts[first_part_for(parts, SENTENCES_FILE@)].file@ == SENTENCES_FILE@,
        forall|j: int|
            0 <= j < first_part_for(parts, SENTENCES_FILE@) ==> (#[trigger] parts[j]).file@
                != SENTENCES_FILE@,
{
    lemma_first_part_for(parts, SENTENCES_FILE@);
}

/// How a clause's text grows token by token: punctuation is appended as it
/// is, a word is appended after one space unless it is the first token.
pub proof fn lemma_text_appends_tokens(ts: Seq<TokenView>, t: TokenView)
    ensures
        render(ts.push(t)) == render(ts) + match t {
            TokenView::Punct(p) => p,
            TokenView::Word { ru, .. } => if ts.len() == 0 {
                ru
            } else {
                seq![' '] + ru
            },
        },
        render(Seq::<TokenView>::empty()) == Seq::<char>::empty(),
{
    assert(ts.push(t).drop_last() =~= ts);
}

/// `s` without its space characters.
pub open spec fn without_spaces(s: Seq<char>) -> Seq<char>
    decreases s.len(),
{
    if s.len() == 0 {
        seq![]
    } else if s[0] == ' ' {
        without_spaces(s.drop_first())
    } else {
        seq![s[0]] + without_spaces(s.drop_first())
    }
}

proof fn lemma_without_spaces_add(a: Seq<char>, b: Seq<char>)
    ensures
        without_spaces(a + b) == without_spaces(a) + without_spaces(b),
    decreases a.len(),
{
    if a.len() == 0 {
        assert(a + b =~= b);
        assert(without_spaces(a) + without_spaces(b) =~= without_spaces(b));
    } else {
        lemma_without_spaces_add(a.drop_first(), b);
        assert((a + b).drop_first() =~= a.drop_first() + b);
        assert((a + b)[0] == a[0]);
        if a[0] != ' ' {
            assert(seq![a[0]] + (without_spaces(a.drop_first()) + without_spaces(b)) =~= (seq![a[0]]
                + without_spaces(a.drop_first())) + without_spaces(b));
        }
    }
}

/// Rendering a clause only adds spaces: apart from spaces, its text is the
/// texts of its tokens, in order.
pub proof fn lemma_text_keeps_token_chars(ts: Seq<TokenView>)
    ensures
        without_spaces(render(ts)) == without_spaces(tokens_chars(ts)),
    decreases ts.len(),
{
    if ts.len() > 0 {
        let init = ts.drop_last();
        let t = ts.last();
        lemma_text_keeps_token_chars(init);
        lemma_tokens_chars_add(init, seq![t]);
        lemma_tokens_chars_one(t);
        assert(init + seq![t] =~= ts);
        lemma_without_spaces_add(render(init), token_text(t, ts.len() == 1));
        lemma_without_spaces_add(tokens_chars(init), token_chars(t));
        if let TokenView::Word { ru, .. } = t {
            if ts.len() != 1 {
                lemma_without_spaces_add(seq![' '], ru);
                assert(seq![' '].drop_first() =~= Seq::<char>::empty());
                assert(without_spaces(seq![' '].drop_first()) =~= Seq::<char>::empty());
            }
        }
    }
}

proof fn lemma_first_index_concat(a: Seq<char>, b: Seq<char>, t: CharTest)
    requires
        forall|i: int| 0 <= i < a.len() ==> !t.holds(#[trigger] a[i]),
    ensures
        first_index(a + b, t) == a.len() + first_index(b, t),
    decreases a.len(),
{
    if a.len() > 0 {
        assert((a + b)[0] == a[0]);
        assert((a + b).drop_first() =~= a.drop_first() + b);
        assert forall|i: int| 0 <= i < a.drop_first().len() implies !t.holds(
            #[trigger] a.drop_first()[i],
        ) by {
            assert(a.drop_first()[i] == a[i + 1]);
        }
        lemma_first_index_concat(a.drop_first(), b, t);
    } else {
        assert(a + b =~= b);
    }
}

/// A word and its gloss at the start of the gloss text: for text
/// `x (g) y`, where `x` holds no `(`, its trimmed text holds an alphanumeric
/// character and `g` holds no `)`, the parse is at most one punctuation
/// token, then the word with the next transcription and the gloss `g`
/// trimmed, then the parse of `y` with the remaining transcriptions; the
/// punctuation and the word together hold the non-whitespace characters of
/// `x`.
pub proof fn lemma_word_and_gloss(
    x: Seq<char>,
    g: Seq<char>,
    y: Seq<char>,
    ipa: Seq<Seq<char>>,
)
    requires
        forall|i: int| 0 <= i < x.len() ==> #[trigger] x[i] != '(',
        forall|i: int| 0 <= i < g.len() ==> #[trigger] g[i] != ')',
        exists|i: int| 0 <= i < trim(x).len() && char_is_alphanumeric(#[trigger] trim(x)[i]),
    ensures
        exists|lead: Seq<TokenView>, ru: Seq<char>|
            {
                &&& parse_tokens(x + seq!['('] + g + seq![')'] + y, ipa) == lead + seq![
                    TokenView::Word { ru, ipa: next_ipa(ipa), en: trim(g) },
                ] + parse_tokens(y, rest_ipa(ipa))
                &&& lead.len() <= 1
                &&& visible(tokens_chars(lead) + ru) == visible(x)
            },
{
    let s = x + seq!['('] + g + seq![')'] + y;
    let rest_after_x = seq!['('] + g + seq![')'] + y;
    assert(s =~= x + rest_after_x);
    lemma_first_index_concat(x, rest_after_x, CharTest::Is('('));
    assert(rest_after_x[0] == '(');
    let open = first_index(s, CharTest::Is('('));
    assert(open == x.len());
    let after = s.skip(open + 1);
    let tail = seq![')'] + y;
    assert(after =~= g + tail);
    lemma_first_index_concat(g, tail, CharTest::Is(')'));
    assert(tail[0] == ')');
    let close = first_index(after, CharTest::Is(')'));
    assert(close == g.len());
    assert(s.take(open) =~= x);
    assert(after.take(close) =~= g);
    assert(after.skip(close + 1) =~= y);
    let chunk = trim(x);
    let word_start = first_index(chunk, CharTest::Alphanumeric);
    lemma_first_index(chunk, CharTest::Alphanumeric);
    let k = choose|i: int| 0 <= i < trim(x).len() && char_is_alphanumeric(#[trigger] trim(x)[i]);
    assert(word_start <= k);
    let punct = trim(chunk.take(word_start));
    let word = chunk.skip(word_start);
    assert(word.len() > 0);
    let lead = punct_tokens(punct);
    assert(parse_tokens(s, ipa) == lead + seq![
        TokenView::Word { ru: word, ipa: next_ipa(ipa), en: trim(g) },
    ] + parse_tokens(y, rest_ipa(ipa)));
    lemma_tokens_chars_punct(punct);
    lemma_visible_trim(chunk.take(word_start));
    lemma_visible_trim(x);
    assert(chunk =~= chunk.take(word_start) + word);
    lemma_visible_add(chunk.take(word_start), word);
    lemma_visible_add(punct, word);
}

/// Whether a character is kept in a word: alphanumeric and not whitespace.
pub open spec fn word_char(c: char) -> bool {
    char_is_alphanumeric(c) && !char_is_whitespace(c)
}

/// The word characters of `s`, in order.
pub open spec fn word_chars(s: Seq<char>) -> Seq<char>
    decreases s.len(),
{
    if s.len() == 0 {
        seq![]
    } else if word_char(s[0]) {
        seq![s[0]] + word_chars(s.drop_first())
    } else {
        word_chars(s.drop_first())
    }
}

proof fn lemma_word_chars_add(a: Seq<char>, b: Seq<char>)
    ensures
        word_chars(a + b) == word_chars(a) + word_chars(b),
    decreases a.len(),
{
    if a.len() == 0 {
        assert(a + b =~= b);
        assert(word_chars(a) + word_chars(b) =~= word_chars(b));
    } else {
        lemma_word_chars_add(a.drop_first(), b);
        assert((a + b).drop_first() =~= a.drop_first() + b);
        assert((a + b)[0] == a[0]);
        if word_char(a[0]) {
            assert(seq![a[0]] + (word_chars(a.drop_first()) + word_chars(b)) =~= (seq![a[0]]
                + word_chars(a.drop_first())) + word_chars(b));
        }
    }
}

proof fn lemma_word_chars_drop_leading(s: Seq<char>, t: CharTest)
    requires
        forall|c: char| t.holds(c) ==> !#[trigger] word_char(c),
    ensures
        word_chars(drop_leading(s, t)) == word_chars(s),
    decreases s.len(),
{
    if s.len() > 0 && t.holds(s[0]) {
        lemma_word_chars_drop_leading(s.drop_first(), t);
        assert(!word_char(s[0]));
    }
}

proof fn lemma_word_chars_drop_trailing(s: Seq<char>, t: CharTest)
    requires
        forall|c: char| t.holds(c) ==> !#[trigger] word_char(c),
    ensures
        word_chars(crate::text::drop_trailing(s, t)) == word_chars(s),
    decreases s.len(),
{
    if s.len() > 0 && t.holds(s.last()) {
        lemma_word_chars_drop_trailing(s.drop_last(), t);
        let l = seq![s.last()];
        assert(s =~= s.drop_last() + l);
        lemma_word_chars_add(s.drop_last(), l);
        assert(!word_char(s.last()));
        assert(l.drop_first() =~= Seq::<char>::empty());
        assert(word_chars(l.drop_first()) =~= Seq::<char>::empty());
        assert(word_chars(l) =~= Seq::<char>::empty());
        assert(word_chars(s.drop_last()) + word_chars(l) =~= word_chars(s.drop_last()));
    }
}

proof fn lemma_word_chars_strip(s: Seq<char>, t: CharTest)
    requires
        forall|c: char| t.holds(c) ==> !#[trigger] word_char(c),
    ensures
        word_chars(strip(s, t)) == word_chars(s),
{
    lemma_word_chars_drop_leading(s, t);
    lemma_word_chars_drop_trailing(drop_leading(s, t), t);
}

/// The words of a transcription keep all of its alphanumeric characters
/// (other than whitespace), in order, and nothing else of them is lost or
/// added: reading the words one after the other gives the same word
/// characters as the transcription.
pub proof fn lemma_split_words_keep_word_chars(s: Seq<char>)
    ensures
        word_chars(split_words(s).flatten()) == word_chars(s),
    decreases s.len(),
{
    let t = drop_leading(s, CharTest::Whitespace);
    lemma_word_chars_drop_leading(s, CharTest::Whitespace);
    if t.len() > 0 {
        let n = first_index(t, CharTest::Whitespace);
        lemma_drop_leading_is_suffix(s, CharTest::Whitespace);
        lemma_first_index(t, CharTest::Whitespace);
        let w = strip(t.take(n), CharTest::NotAlphanumeric);
        lemma_word_chars_strip(t.take(n), CharTest::NotAlphanumeric);
        lemma_split_words_keep_word_chars(t.skip(n));
        assert(t =~= t.take(n) + t.skip(n));
        lemma_word_chars_add(t.take(n), t.skip(n));
        let rest = split_words(t.skip(n));
        if w.len() > 0 {
            assert((seq![w] + rest).drop_first() =~= rest);
            assert((seq![w] + rest).flatten() == w + rest.flatten());
            lemma_word_chars_add(w, rest.flatten());
        } else {
            assert(w =~= Seq::<char>::empty());
            assert(word_chars(w) =~= Seq::<char>::empty());
        }
    } else {
        assert(t =~= Seq::<char>::empty());
    }
}

/// Each word of a transcription is non-empty, begins and ends with an
/// alphanumeric character, and holds no whitespace.
pub proof fn lemma_split_words_shape(s: Seq<char>)
    ensures
        forall|k: int|
            0 <= k < split_words(s).len() ==> {
                let w = #[trigger] split_words(s)[k];
                &&& w.len() > 0
                &&& char_is_alphanumeric(w[0])
                &&& char_is_alphanumeric(w.last())
                &&& forall|i: int| 0 <= i < w.len() ==> !char_is_whitespace(#[trigger] w[i])
            },
    decreases s.len(),
{
    let t = drop_leading(s, CharTest::Whitespace);
    if t.len() > 0 {
        let n = first_index(t, CharTest::Whitespace);
        lemma_drop_leading_is_suffix(s, CharTest::Whitespace);
        lemma_first_index(t, CharTest::Whitespace);
        let piece = t.take(n);
        let w = strip(piece, CharTest::NotAlphanumeric);
        lemma_strip(piece, CharTest::NotAlphanumeric);
        lemma_split_words_shape(t.skip(n));
        let rest = split_words(t.skip(n));
        if w.len() > 0 {
            let (a, b) = choose|a: int, b: int|
                0 <= a <= b <= piece.len() && w == piece.subrange(a, b);
            assert forall|i: int| 0 <= i < w.len() implies !char_is_whitespace(#[trigger] w[i]) by {
                assert(w[i] == piece[a + i]);
                assert(piece[a + i] == t[a + i]);
            }
            let all = seq![w] + rest;
            assert forall|k: int| 0 <= k < all.len() implies ({
                let v = #[trigger] all[k];
                &&& v.len() > 0
                &&& char_is_alphanumeric(v[0])
                &&& char_is_alphanumeric(v.last())
                &&& forall|i: int| 0 <= i < v.len() ==> !char_is_whitespace(#[trigger] v[i])
            }) by {
                if k > 0 {
                    assert(all[k] == rest[k - 1]);
                }
            }
        }
    }
}

} // verus!
