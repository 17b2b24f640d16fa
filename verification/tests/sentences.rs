use voyna_i_mir::excerpts::sentences::{
    find_by_id, find_volume_part, is_boundary_token, split_into_clauses, Clause, Sentence,
    VolumePart, WordToken, SENTENCES_FILE,
};

const CLAUSE_BOUNDARIES: &[char] = &[',', ';', '-', '—', ':'];

fn sentence(id: u32, chapter: &str, words: &str, ipa: &str) -> Sentence {
    Sentence {
        chapter: chapter.to_string(),
        id,
        ru: String::new(),
        ipa: ipa.to_string(),
        ipa2: String::new(),
        en: String::new(),
        words: words.to_string(),
    }
}

/// The sentences of the excerpt that the tests below read.
fn excerpt() -> Vec<Sentence> {
    let mut first = sentence(
        1,
        "I",
        "Так (thus / so) говорила (spoke / said) в (in) июле (July) 1805 (1805) года (of the year) \
         известная (well-known) Анна (Anna) Павловна (Pavlovna) Шерер (Scherer), фрейлина (maid of honor) \
         и (and) приближенная (confidante) императрицы (of the Empress) Марии (Maria) \
         Феодоровны (Feodorovna), встречая (meeting) важного (important) и (and) чинного (dignified) \
         князя (prince) Василия (Vasily), первого (the first) приехавшего (to arrive) на (at) \
         ее (her) вечер (soirée).",
        "tɐk ɡəvɐˈrʲilə v ɪˈjʉlʲe ˈtɨsʲɪtɕə ˈɡodə ɪˈzvʲesnəjə ˈanːə ˈpavləvnə ˈʂɛrɛr, frʲɪˈlʲinə i \
         prʲɪblʲɪˈʐonːəjə ɪmpʲɪˈratrʲɪtsɨ mɐˈrʲiɪ fʲɪɐˈdorəvnɨ, fstrʲɪˈtɕajə ˈvaʐnəvə i ˈtɕinːəvə \
         ˈknʲazʲə vɐˈsʲilʲjə, ˈpʲervəvə prʲɪˈjexəfʂɨvə nə jɪˈjo ˈvʲetɕɪr.",
    );
    first.ru = "Так говорила в июле 1805 года известная Анна Павловна Шерер, фрейлина и \
                приближенная императрицы Марии Феодоровны, встречая важного и чинного князя \
                Василия, первого приехавшего на ее вечер."
        .to_string();
    vec![
        first,
        sentence(2, "I", "Анна (Anna) Павловна (Pavlovna) кашляла (was coughing).", "ˈanːə ˈpavləvnə ˈkaʂlʲɪlə"),
        sentence(4, "IV", "Вошла (came in) княгиня (the princess).", "vɐˈʂla ˈknʲaɡʲɪnʲə"),
    ]
}

fn run(id: u32) -> Option<Sentence> {
    find_by_id(excerpt(), id)
}

fn volume_parts() -> Vec<VolumePart> {
    vec![
        VolumePart { id: 1, vol_part: "ТОМ ВТОРОЙ ЧАСТЬ ПЕРВАЯ".to_string(), file: "other.yaml".to_string() },
        VolumePart { id: 2, vol_part: "ТОМ ПЕРВЫЙ ЧАСТЬ ПЕРВАЯ".to_string(), file: SENTENCES_FILE.to_string() },
        VolumePart { id: 3, vol_part: "ТОМ ПЕРВЫЙ ЧАСТЬ ВТОРАЯ".to_string(), file: SENTENCES_FILE.to_string() },
    ]
}

fn word(ru: &str, ipa: &str, en: &str) -> WordToken {
    WordToken::Word { ru: ru.to_string(), ipa: ipa.to_string(), en: en.to_string() }
}

fn punct(p: &str) -> WordToken {
    WordToken::Punct(p.to_string())
}

#[test]
fn run_finds_sentence_by_id() {
    let sentence = run(1).expect("id 1 should exist in chapter_id_ru_en_ipa_words.yaml");
    assert_eq!(sentence.id, 1);
    assert!(sentence.ru.starts_with("Так говорила"));
}

#[test]
fn title_combines_volume_part_and_chapter() {
    let sentence = run(4).expect("id 4 should exist in chapter_id_ru_en_ipa_words.yaml");
    assert_eq!(sentence.chapter, "IV");
    assert_eq!(sentence.title(&volume_parts()), "ТОМ ПЕРВЫЙ ЧАСТЬ ПЕРВАЯ IV");
}

#[test]
fn run_returns_none_for_unknown_id() {
    assert!(run(999_999).is_none());
}

#[test]
fn find_by_id_takes_the_first_match() {
    let mut list = excerpt();
    list.push(sentence(1, "II", "", ""));
    assert_eq!(find_by_id(list, 1).unwrap().chapter, "I");
    assert!(find_by_id(Vec::new(), 1).is_none());
}

#[test]
fn find_volume_part_takes_the_first_entry_for_the_file() {
    assert_eq!(find_volume_part(&volume_parts(), SENTENCES_FILE), Some(1));
    assert_eq!(find_volume_part(&volume_parts(), "missing.yaml"), None);
}

#[test]
fn tokens_parses_words_and_punctuation_in_order() {
    let sentence = run(1).expect("id 1 should exist in chapter_id_ru_en_ipa_words.yaml");
    let tokens = sentence.tokens();

    assert_eq!(
        tokens[0],
        WordToken::Word {
            ru: "Так".to_string(),
            ipa: "tɐk".to_string(),
            en: "thus / so".to_string()
        }
    );
    assert_eq!(
        tokens[1],
        WordToken::Word {
            ru: "говорила".to_string(),
            ipa: "ɡəvɐˈrʲilə".to_string(),
            en: "spoke / said".to_string()
        }
    );

    // The comma after "Шерер (Scherer)," is its own token between the two words.
    let mut sherer = None;
    for (i, t) in tokens.iter().enumerate() {
        if matches!(t, WordToken::Word { ru, .. } if ru == "Шерер") {
            sherer = Some(i);
            break;
        }
    }
    let sherer = sherer.expect("Шерер should be present");
    assert_eq!(tokens[sherer + 1], WordToken::Punct(",".to_string()));
    assert_eq!(
        tokens[sherer + 2],
        WordToken::Word {
            ru: "фрейлина".to_string(),
            ipa: "frʲɪˈlʲinə".to_string(),
            en: "maid of honor".to_string()
        }
    );
}

#[test]
fn clauses_break_after_boundary_punctuation() {
    let sentence = run(1).expect("id 1 should exist in chapter_id_ru_en_ipa_words.yaml");
    let clauses = sentence.clauses();

    // "Шерер (Scherer)," ends the first clause: its last token is the
    // comma right after "Шерер".
    let first_clause_last = clauses[0]
        .tokens
        .last()
        .expect("clause should not be empty");
    assert_eq!(*first_clause_last, WordToken::Punct(",".to_string()));

    assert!(
        clauses.len() > 1,
        "sentence 1 should split into more than one clause"
    );

    // Every clause but a trailing one ending mid-sentence (no boundary
    // before it) should end on a boundary-containing Punct token.
    for clause in &clauses[..clauses.len() - 1] {
        let last = clause.tokens.last().expect("clause should not be empty");
        assert!(
            matches!(last, WordToken::Punct(p) if p.contains(CLAUSE_BOUNDARIES)),
            "clause should end on a boundary token, got {last:?}"
        );
    }
}

#[test]
fn tokens_handle_punctuation_and_missing_transcriptions() {
    let s = sentence(9, "I", "  — Ну (well) ,  что (what) ?! ", "nu");
    assert_eq!(
        s.tokens(),
        vec![punct("—"), word("Ну", "nu", "well"), punct(","), word("что", "", "what"), punct("?!")]
    );
}

#[test]
fn tokens_of_text_without_glosses_is_one_punctuation_token() {
    assert_eq!(sentence(9, "I", "  просто текст  ", "").tokens(), vec![punct("просто текст")]);
    assert_eq!(sentence(9, "I", "   ", "").tokens(), Vec::<WordToken>::new());
}

#[test]
fn tokens_stop_at_an_unclosed_gloss() {
    // the punctuation before the unclosed "(" comes out twice: once on its
    // own and once as part of the trailing text
    let s = sentence(9, "I", "да (yes) , нет (no", "da nʲet");
    assert_eq!(
        s.tokens(),
        vec![word("да", "da", "yes"), punct(","), punct(", нет (no")]
    );
}

#[test]
fn tokens_skip_glosses_without_a_word() {
    let s = sentence(9, "I", "(aside) слово (word)", "ˈslovə");
    assert_eq!(s.tokens(), vec![word("слово", "ˈslovə", "word")]);
}

#[test]
fn split_into_words_strips_non_alphanumerics_and_drops_empty_pieces() {
    assert_eq!(
        Sentence::split_into_words("  tɐk, ɡəvɐˈrʲilə —  (v)  !! x "),
        vec!["tɐk".to_string(), "ɡəvɐˈrʲilə".to_string(), "v".to_string(), "x".to_string()]
    );
    assert_eq!(Sentence::split_into_words(""), Vec::<String>::new());
}

#[test]
fn clause_text_hugs_punctuation() {
    let clause = Clause { tokens: vec![punct("—"), word("Ну", "", ""), punct(","), word("что", "", ""), punct("?")] };
    assert_eq!(clause.text(), "— Ну, что?");
    let clause = Clause { tokens: vec![word("а", "", ""), word("б", "", "")] };
    assert_eq!(clause.text(), "а б");
    assert_eq!(Clause { tokens: Vec::new() }.text(), "");
}

#[test]
fn split_into_clauses_keeps_every_token_in_order() {
    let tokens = vec![word("а", "", ""), punct(","), word("б", "", ""), punct("—"), punct("."), word("в", "", "")];
    let clauses = split_into_clauses(tokens.clone());
    assert_eq!(clauses.len(), 3);
    let mut all = Vec::new();
    for c in &clauses {
        assert!(!c.tokens.is_empty());
        all.extend(c.tokens.clone());
    }
    assert_eq!(all, tokens);
    assert_eq!(clauses[1].tokens, vec![word("б", "", ""), punct("—")]);
    assert!(split_into_clauses(Vec::new()).is_empty());
}

#[test]
fn boundary_tokens() {
    assert!(is_boundary_token(&punct("?—")));
    assert!(is_boundary_token(&punct(":")));
    assert!(!is_boundary_token(&punct("?!")));
    assert!(!is_boundary_token(&word(",", "", "")));
}
