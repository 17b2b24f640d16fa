use voyna_i_mir::egui::page2::{Page2Action, Page2App, Page2Event, Playback, Voice, VoiceChoice};
use voyna_i_mir::egui::select_word::{SentenceApp, WordKeys};
use voyna_i_mir::excerpts::sentences::{Sentence, WordToken};
use std::collections::HashSet;

fn sentence(words: &str) -> Sentence {
    Sentence {
        chapter: "I".to_string(),
        id: 1,
        ru: String::new(),
        ipa: String::new(),
        ipa2: String::new(),
        en: String::new(),
        words: words.to_string(),
    }
}

fn w() -> WordToken {
    WordToken::Word { ru: "x".to_string(), ipa: String::new(), en: String::new() }
}

fn p() -> WordToken {
    WordToken::Punct(",".to_string())
}

fn keys(arrow_right: bool, arrow_left: bool, space: bool, ctrl_w: bool) -> WordKeys {
    WordKeys { arrow_right, arrow_left, space, ctrl_w }
}

#[test]
fn next_and_prev_word_index_skip_punctuation_and_wrap() {
    let tokens = vec![p(), w(), p(), w(), p()];
    assert_eq!(SentenceApp::next_word_index(&tokens, None), Some(1));
    assert_eq!(SentenceApp::next_word_index(&tokens, Some(1)), Some(3));
    assert_eq!(SentenceApp::next_word_index(&tokens, Some(3)), Some(1));
    assert_eq!(SentenceApp::prev_word_index(&tokens, None), Some(3));
    assert_eq!(SentenceApp::prev_word_index(&tokens, Some(3)), Some(1));
    assert_eq!(SentenceApp::prev_word_index(&tokens, Some(1)), Some(3));
    assert_eq!(SentenceApp::next_word_index(&[], None), None);
    assert_eq!(SentenceApp::prev_word_index(&[p(), p()], Some(0)), None);
    assert_eq!(SentenceApp::next_word_index(&[w()], Some(0)), Some(0));
    assert_eq!(SentenceApp::next_word_index(&tokens, Some(usize::MAX)), Some(1));
    assert_eq!(SentenceApp::prev_word_index(&tokens, Some(usize::MAX)), Some(3));
}

#[test]
fn arrow_right_then_left_returns_to_the_word() {
    let tokens = vec![w(), p(), p(), w(), w(), p()];
    for i in [0usize, 3, 4] {
        let next = SentenceApp::next_word_index(&tokens, Some(i));
        assert_eq!(SentenceApp::prev_word_index(&tokens, next), Some(i));
        let prev = SentenceApp::prev_word_index(&tokens, Some(i));
        assert_eq!(SentenceApp::next_word_index(&tokens, prev), Some(i));
    }
}

#[test]
fn toggle_word_twice_restores_the_set() {
    let mut expanded = HashSet::new();
    SentenceApp::toggle_word(&mut expanded, 3);
    assert!(expanded.contains(&3));
    SentenceApp::toggle_word(&mut expanded, 3);
    assert!(expanded.is_empty());
}

#[test]
fn sentence_app_keys_and_clicks() {
    let mut app = SentenceApp::new(sentence("Ну (well), что (what)?"));
    assert_eq!(app.tokens().len(), 4);
    assert_eq!(app.selected(), None);
    assert!(!app.handle_keys(keys(true, false, true, false)));
    assert_eq!(app.selected(), Some(0));
    assert!(app.is_expanded(0));
    app.handle_keys(keys(true, false, false, false));
    assert_eq!(app.selected(), Some(2));
    app.handle_keys(keys(true, true, false, false));
    assert_eq!(app.selected(), Some(2));
    app.click_word(0);
    assert_eq!(app.selected(), Some(0));
    assert!(!app.is_expanded(0));
    assert!(app.handle_keys(keys(false, false, false, true)));
}

#[test]
fn clause_index_helpers_wrap() {
    assert_eq!(Page2App::next_clause_index(3, None), Some(0));
    assert_eq!(Page2App::next_clause_index(3, Some(2)), Some(0));
    assert_eq!(Page2App::next_clause_index(3, Some(0)), Some(1));
    assert_eq!(Page2App::prev_clause_index(3, None), Some(2));
    assert_eq!(Page2App::prev_clause_index(3, Some(0)), Some(2));
    assert_eq!(Page2App::prev_clause_index(3, Some(2)), Some(1));
    assert_eq!(Page2App::next_clause_index(0, Some(1)), None);
    assert_eq!(Page2App::prev_clause_index(0, None), None);
    assert_eq!(Page2App::next_clause_index(3, Some(usize::MAX)), Some(1));
}

#[test]
fn page2_click_selects_and_plays_then_deselects() {
    let mut app = Page2App::new(vec![3, 2], 0);
    assert_eq!(app.current_clause_num(), Some(1));
    assert_eq!(
        app.handle(Page2Event::ClickClause(1)),
        Page2Action::Play { clause_num: 2, voice: Voice::Irina }
    );
    assert_eq!(app.selected(), Some(1));
    assert_eq!(app.playback(), Playback::Looping { clause: 1, voice: Voice::Irina });
    assert_eq!(app.handle(Page2Event::ClickClause(1)), Page2Action::Stop);
    assert_eq!(app.selected(), None);
    assert_eq!(app.playback(), Playback::Idle);
    assert_eq!(app.handle(Page2Event::ClickClause(7)), Page2Action::Nothing);
}

#[test]
fn page2_arrows_move_and_stop() {
    let mut app = Page2App::new(vec![3], 0);
    app.handle(Page2Event::TogglePlayback);
    assert_eq!(app.handle(Page2Event::PrevClause), Page2Action::Stop);
    assert_eq!(app.selected(), Some(2));
    assert_eq!(app.playback(), Playback::Idle);
    app.handle(Page2Event::NextClause);
    assert_eq!(app.selected(), Some(0));
    app.handle(Page2Event::NextClause);
    app.handle(Page2Event::PrevClause);
    assert_eq!(app.selected(), Some(0));
}

#[test]
fn page2_voices_and_alternation() {
    let mut app = Page2App::new(vec![2], 0);
    assert_eq!(
        app.handle(Page2Event::ChooseVoice(VoiceChoice::Denis)),
        Page2Action::Play { clause_num: 1, voice: Voice::Denis }
    );
    assert_eq!(
        app.handle(Page2Event::LoopEnded),
        Page2Action::Play { clause_num: 1, voice: Voice::Denis }
    );
    app.handle(Page2Event::ChooseVoice(VoiceChoice::Alternate));
    assert_eq!(
        app.handle(Page2Event::LoopEnded),
        Page2Action::Play { clause_num: 1, voice: Voice::Denis }
    );
    assert_eq!(
        app.handle(Page2Event::LoopEnded),
        Page2Action::Play { clause_num: 1, voice: Voice::Irina }
    );
    app.handle(Page2Event::CycleVoice);
    assert_eq!(app.choice(), VoiceChoice::Irina);
    app.handle(Page2Event::CycleVoice);
    app.handle(Page2Event::CycleVoice);
    app.handle(Page2Event::CycleVoice);
    assert_eq!(app.choice(), VoiceChoice::Irina);
    assert_eq!(Voice::Irina.name(), "irina");
    assert_eq!(Voice::Denis.name(), "denis");
}

#[test]
fn page2_space_lets_the_loop_finish() {
    let mut app = Page2App::new(vec![2], 0);
    assert_eq!(
        app.handle(Page2Event::TogglePlayback),
        Page2Action::Play { clause_num: 1, voice: Voice::Irina }
    );
    assert_eq!(app.handle(Page2Event::TogglePlayback), Page2Action::FinishLoop);
    assert_eq!(app.handle(Page2Event::TogglePlayback), Page2Action::Nothing);
    assert_eq!(app.handle(Page2Event::LoopEnded), Page2Action::Stop);
    assert_eq!(app.playback(), Playback::Idle);
    assert_eq!(app.handle(Page2Event::LoopEnded), Page2Action::Nothing);
}

#[test]
fn page2_chapters_wrap_and_reset() {
    let mut app = Page2App::new(vec![2, 0, 4], 0);
    app.handle(Page2Event::ChooseVoice(VoiceChoice::Denis));
    app.handle(Page2Event::ClickClause(1));
    assert_eq!(app.handle(Page2Event::PrevChapter), Page2Action::Stop);
    assert_eq!(app.chapter(), 2);
    assert_eq!(app.selected(), None);
    assert_eq!(app.playback(), Playback::Idle);
    assert_eq!(app.choice(), VoiceChoice::Denis);
    app.handle(Page2Event::NextChapter);
    assert_eq!(app.chapter(), 0);
    app.handle(Page2Event::NextChapter);
    assert_eq!(app.chapter(), 1);
    assert_eq!(app.current_clause_num(), None);
    assert_eq!(app.handle(Page2Event::TogglePlayback), Page2Action::Nothing);
    assert_eq!(app.handle(Page2Event::Close), Page2Action::Close);
}
