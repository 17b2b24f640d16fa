//! The clause audio page: which clause is selected, which voice plays, and
//! how clicks and keys change that, as a state machine. The page hands each
//! step's action (play a clause, stop, ...) to whoever does the audio.
use vstd::prelude::*;
use crate::egui::cycle::{lemma_forward, lemma_reduce_once};

verus! {

/// One of the two recorded voices.
#[derive(Debug, Clone, Copy, PartialEq, Eq, Structural)]
pub enum Voice {
    Irina,
    Denis,
}

/// Which voice the page plays: one of the two, or both in turn, switching
/// at the end of every loop.
#[derive(Debug, Clone, Copy, PartialEq, Eq, Structural)]
pub enum VoiceChoice {
    Irina,
    Denis,
    Alternate,
}

/// Whether a clause is playing: not at all, looping, or finishing its
/// current loop before it stops.
#[derive(Debug, Clone, Copy, PartialEq, Eq, Structural)]
pub enum Playback {
    Idle,
    Looping { clause: usize, voice: Voice },
    Finishing { clause: usize, voice: Voice },
}

/// What the user did, or that a loop of the playing clause ended.
#[derive(Debug, Clone, Copy, PartialEq, Eq, Structural)]
pub enum Page2Event {
    /// A click on clause `i` of the chapter.
    ClickClause(usize),
    /// Right arrow.
    NextClause,
    /// Left arrow.
    PrevClause,
    /// `I`, `D` or `A`: choose a voice (or alternation) and start playing.
    ChooseVoice(VoiceChoice),
    /// A tap on the voice row: the next of the three voice choices.
    CycleVoice,
    /// Space.
    TogglePlayback,
    /// The playing clause reached the end of a loop.
    LoopEnded,
    /// Ctrl+Right or the `>>` label.
    NextChapter,
    /// Ctrl+Left or the `<<` label.
    PrevChapter,
    /// Ctrl+W.
    Close,
}

/// What the audio side is to do after a step.
#[derive(Debug, Clone, Copy, PartialEq, Eq, Structural)]
pub enum Page2Action {
    Nothing,
    /// Stop playing now.
    Stop,
    /// Play one loop of the clause with 1-based number `clause_num`.
    Play { clause_num: usize, voice: Voice },
    /// Let the current loop finish, then stop.
    FinishLoop,
    /// Close the window.
    Close,
}

/// The state of the clause audio page.
pub struct Page2App {
    /// The number of clauses of each chapter of the excerpt list.
    clause_counts: Vec<usize>,
    /// Index of the chapter shown.
    chapter: usize,
    /// Index into the chapter's clauses of the currently selected clause, if any.
    selected: Option<usize>,
    choice: VoiceChoice,
    playback: Playback,
}

/// What the page holds, with the clause counts as a sequence.
pub struct Page2View {
    pub clause_counts: Seq<usize>,
    pub chapter: usize,
    pub selected: Option<usize>,
    pub choice: VoiceChoice,
    pub playback: Playback,
}

impl View for Page2App {
    type V = Page2View;

    closed spec fn view(&self) -> Page2View {
        Page2View {
            clause_counts: self.clause_counts@,
            chapter: self.chapter,
            selected: self.selected,
            choice: self.choice,
            playback: self.playback,
        }
    }
}

/// The other voice.
pub open spec fn other_voice(v: Voice) -> Voice {
    match v {
        Voice::Irina => Voice::Denis,
        Voice::Denis => Voice::Irina,
    }
}

/// The voice a choice starts with.
pub open spec fn first_voice(c: VoiceChoice) -> Voice {
    match c {
        VoiceChoice::Denis => Voice::Denis,
        _ => Voice::Irina,
    }
}

/// The voice choice after a tap on the voice row: Irina, Denis, both, Irina, ...
pub open spec fn next_choice(c: VoiceChoice) -> VoiceChoice {
    match c {
        VoiceChoice::Irina => VoiceChoice::Denis,
        VoiceChoice::Denis => VoiceChoice::Alternate,
        VoiceChoice::Alternate => VoiceChoice::Irina,
    }
}

/// The clause after `after` (or the first, if none), wrapping around the end.
pub open spec fn next_clause_spec(len: usize, after: Option<usize>) -> Option<usize> {
    if len == 0 {
        None
    } else {
        match after {
            Some(i) => Some(((i + 1) % (len as int)) as usize),
            None => Some(0),
        }
    }
}

/// The clause before `before` (or the last, if none), wrapping around the start.
pub open spec fn prev_clause_spec(len: usize, before: Option<usize>) -> Option<usize> {
    if len == 0 {
        None
    } else {
        match before {
            Some(i) => Some(((i + len - 1) % (len as int)) as usize),
            None => Some((len - 1) as usize),
        }
    }
}

impl Page2View {
    /// The number of clauses of the chapter shown.
    pub open spec fn count(self) -> usize {
        self.clause_counts[self.chapter as int]
    }

    /// The chapter exists, and the selected and playing clauses are clauses of it.
    pub open spec fn wf(self) -> bool {
        &&& 0 < self.clause_counts.len() <= usize::MAX
        &&& self.chapter < self.clause_counts.len()
        &&& self.selected matches Some(i) ==> i < self.count()
        &&& match self.playback {
            Playback::Idle => true,
            Playback::Looping { clause, .. } => clause < self.count(),
            Playback::Finishing { clause, .. } => clause < self.count(),
        }
    }

    /// The clause that playback starts with: the selected one, or the first.
    pub open spec fn target(self) -> usize {
        match self.selected {
            Some(i) => i,
            None => 0,
        }
    }

    /// Starts looping the target clause in the first voice of the choice,
    /// if the chapter has clauses.
    pub open spec fn start(self) -> (Page2View, Page2Action) {
        if self.count() == 0 {
            (self, Page2Action::Nothing)
        } else {
            let v = first_voice(self.choice);
            (
                Page2View { playback: Playback::Looping { clause: self.target(), voice: v }, ..self },
                Page2Action::Play { clause_num: (self.target() + 1) as usize, voice: v },
            )
        }
    }

    /// Shows chapter `c` with no clause selected and nothing playing.
    pub open spec fn show_chapter(self, c: usize) -> (Page2View, Page2Action) {
        (
            Page2View { chapter: c, selected: None, playback: Playback::Idle, ..self },
            Page2Action::Stop,
        )
    }

    /// The state after `e`, and what the audio side is to do.
    pub open spec fn step(self, e: Page2Event) -> (Page2View, Page2Action) {
        let n = self.clause_counts.len();
        match e {
            Page2Event::ClickClause(i) => if i >= self.count() {
                (self, Page2Action::Nothing)
            } else if self.selected == Some(i) {
                (Page2View { selected: None, playback: Playback::Idle, ..self }, Page2Action::Stop)
            } else {
                Page2View { selected: Some(i), ..self }.start()
            },
            Page2Event::NextClause => (
                Page2View {
                    selected: next_clause_spec(self.count(), self.selected),
                    playback: Playback::Idle,
                    ..self
                },
                Page2Action::Stop,
            ),
            Page2Event::PrevClause => (
                Page2View {
                    selected: prev_clause_spec(self.count(), self.selected),
                    playback: Playback::Idle,
                    ..self
                },
                Page2Action::Stop,
            ),
            Page2Event::ChooseVoice(c) => Page2View { choice: c, ..self }.start(),
            Page2Event::CycleVoice => Page2View { choice: next_choice(self.choice), ..self }.start(),
            Page2Event::TogglePlayback => match self.playback {
                Playback::Idle => self.start(),
                Playback::Looping { clause, voice } => (
                    Page2View { playback: Playback::Finishing { clause, voice }, ..self },
                    Page2Action::FinishLoop,
                ),
                Playback::Finishing { .. } => (self, Page2Action::Nothing),
            },
            Page2Event::LoopEnded => match self.playback {
                Playback::Idle => (self, Page2Action::Nothing),
                Playback::Finishing { .. } => (
                    Page2View { playback: Playback::Idle, ..self },
                    Page2Action::Stop,
                ),
                Playback::Looping { clause, voice } => {
                    let v = if self.choice == VoiceChoice::Alternate {
                        other_voice(voice)
                    } else {
                        voice
                    };
                    (
                        Page2View { playback: Playback::Looping { clause, voice: v }, ..self },
                        Page2Action::Play { clause_num: (clause + 1) as usize, voice: v },
                    )
                },
            },
            Page2Event::NextChapter => self.show_chapter(((self.chapter + 1) % (n as int)) as usize),
            Page2Event::PrevChapter => self.show_chapter(
                ((self.chapter + n - 1) % (n as int)) as usize,
            ),
            Page2Event::Close => (self, Page2Action::Close),
        }
    }
}

/// The name of a voice, as the audio files use it.
pub open spec fn voice_name(v: Voice) -> Seq<char> {
    match v {
        Voice::Irina => seq!['i', 'r', 'i', 'n', 'a'],
        Voice::Denis => seq!['d', 'e', 'n', 'i', 's'],
    }
}

impl Voice {
    /// The name of the voice, as the audio files use it.
    pub fn name(&self) -> (r: &'static str)
        ensures
            r@ == voice_name(*self),
    {
        match self {
            Voice::Irina => {
                proof {
                    reveal_strlit("irina");
                }
                "irina"
            },
            Voice::Denis => {
                proof {
                    reveal_strlit("denis");
                }
                "denis"
            },
        }
    }
}

impl Page2App {
    /// The page showing chapter `chapter` of an excerpt list whose chapters
    /// have `clause_counts` clauses, with no clause selected, nothing
    /// playing, and Irina's voice.
    pub fn new(clause_counts: Vec<usize>, chapter: usize) -> (r: Self)
        requires
            chapter < clause_counts@.len(),
        ensures
            r@ == (Page2View {
                clause_counts: clause_counts@,
                chapter,
                selected: None,
                choice: VoiceChoice::Irina,
                playback: Playback::Idle,
            }),
            r@.wf(),
    {
        let n = clause_counts.len();
        assert(clause_counts@.len() == n);
        Page2App {
            clause_counts,
            chapter,
            selected: None,
            choice: VoiceChoice::Irina,
            playback: Playback::Idle,
        }
    }

    pub fn chapter(&self) -> (r: usize)
        ensures
            r == self@.chapter,
    {
        self.chapter
    }

    pub fn selected(&self) -> (r: Option<usize>)
        ensures
            r == self@.selected,
    {
        self.selected
    }

    pub fn choice(&self) -> (r: VoiceChoice)
        ensures
            r == self@.choice,
    {
        self.choice
    }

    pub fn playback(&self) -> (r: Playback)
        ensures
            r == self@.playback,
    {
        self.playback
    }

    fn count(&self) -> (r: usize)
        requires
            self@.wf(),
        ensures
            r == self@.count(),
    {
        self.clause_counts[self.chapter]
    }

    /// The 1-based clause number space-bar playback targets: the selected
    /// clause, or the first clause if none is selected yet.
    pub fn current_clause_num(&self) -> (r: Option<usize>)
        requires
            self@.wf(),
        ensures
            r == if self@.count() == 0 {
                None
            } else {
                Some((self@.target() + 1) as usize)
            },
    {
        if self.count() == 0 {
            return None;
        }
        match self.selected {
            Some(i) => Some(i + 1),
            None => Some(1),
        }
    }

    /// Index of the clause after `after` (or the first clause if `after` is
    /// `None`), wrapping around the end of the sentence.
    pub fn next_clause_index(len: usize, after: Option<usize>) -> (r: Option<usize>)
        ensures
            r == next_clause_spec(len, after),
            r matches Some(i) ==> i < len,
    {
        if len == 0 {
            return None;
        }
        match after {
            Some(i) => {
                let r = i % len;
                proof {
                    lemma_forward(i as int, 0, len as int);
                    if len > 1 {
                        lemma_forward(i as int, 1, len as int);
                    } else {
                        lemma_forward(i + 1, 0, len as int);
                    }
                }
                if r + 1 == len {
                    Some(0)
                } else {
                    Some(r + 1)
                }
            },
            None => Some(0),
        }
    }

    /// Index of the clause before `before` (or the last clause if `before`
    /// is `None`), wrapping around the start of the sentence.
    pub fn prev_clause_index(len: usize, before: Option<usize>) -> (r: Option<usize>)
        ensures
            r == prev_clause_spec(len, before),
            r matches Some(i) ==> i < len,
    {
        if len == 0 {
            return None;
        }
        match before {
            Some(i) => {
                let r = i % len;
                proof {
                    lemma_forward(i as int, 0, len as int);
                    lemma_forward(i as int, len - 1, len as int);
                }
                if r == 0 {
                    Some(len - 1)
                } else {
                    Some(r - 1)
                }
            },
            None => Some(len - 1),
        }
    }

    fn start(&mut self) -> (a: Page2Action)
        requires
            old(self)@.wf(),
        ensures
            (final(self)@, a) == old(self)@.start(),
    {
        let n = self.count();
        if n == 0 {
            return Page2Action::Nothing;
        }
        let clause = match self.selected {
            Some(i) => i,
            None => 0,
        };
        let voice = match self.choice {
            VoiceChoice::Denis => Voice::Denis,
            _ => Voice::Irina,
        };
        self.playback = Playback::Looping { clause, voice };
        Page2Action::Play { clause_num: clause + 1, voice }
    }

    fn show_chapter(&mut self, c: usize)
        ensures
            (final(self)@, Page2Action::Stop) == old(self)@.show_chapter(c),
    {
        self.chapter = c;
        self.selected = None;
        self.playback = Playback::Idle;
    }

    /// Takes one step of the page on `event`, and returns what the audio
    /// side is to do.
    pub fn handle(&mut self, event: Page2Event) -> (a: Page2Action)
        requires
            old(self)@.wf(),
        ensures
            (final(self)@, a) == old(self)@.step(event),
            final(self)@.wf(),
    {
        let n = self.clause_counts.len();
        let count = self.count();
        match event {
            Page2Event::ClickClause(i) => {
                if i >= count {
                    Page2Action::Nothing
                } else if self.selected == Some(i) {
                    self.selected = None;
                    self.playback = Playback::Idle;
                    Page2Action::Stop
                } else {
                    self.selected = Some(i);
                    self.start()
                }
            },
            Page2Event::NextClause => {
                self.selected = Self::next_clause_index(count, self.selected);
                self.playback = Playback::Idle;
                Page2Action::Stop
            },
            Page2Event::PrevClause => {
                self.selected = Self::prev_clause_index(count, self.selected);
                self.playback = Playback::Idle;
                Page2Action::Stop
            },
            Page2Event::ChooseVoice(c) => {
                self.choice = c;
                self.start()
            },
            Page2Event::CycleVoice => {
                self.choice = match self.choice {
                    VoiceChoice::Irina => VoiceChoice::Denis,
                    VoiceChoice::Denis => VoiceChoice::Alternate,
                    VoiceChoice::Alternate => VoiceChoice::Irina,
                };
                self.start()
            },
            Page2Event::TogglePlayback => match self.playback {
                Playback::Idle => self.start(),
                Playback::Looping { clause, voice } => {
                    self.playback = Playback::Finishing { clause, voice };
                    Page2Action::FinishLoop
                },
                Playback::Finishing { .. } => Page2Action::Nothing,
            },
            Page2Event::LoopEnded => match self.playback {
                Playback::Idle => Page2Action::Nothing,
                Playback::Finishing { .. } => {
                    self.playback = Playback::Idle;
                    Page2Action::Stop
                },
                Playback::Looping { clause, voice } => {
                    let v = match self.choice {
                        VoiceChoice::Alternate => match voice {
                            Voice::Irina => Voice::Denis,
                            Voice::Denis => Voice::Irina,
                        },
                        _ => voice,
                    };
                    self.playback = Playback::Looping { clause, voice: v };
                    Page2Action::Play { clause_num: clause + 1, voice: v }
                },
            },
            Page2Event::NextChapter => {
                let c = Self::next_clause_index(n, Some(self.chapter));
                match c {
                    Some(c) => {
                        self.show_chapter(c);
                        Page2Action::Stop
                    },
                    None => Page2Action::Nothing,
                }
            },
            Page2Event::PrevChapter => {
                let c = Self::prev_clause_index(n, Some(self.chapter));
                match c {
                    Some(c) => {
                        self.show_chapter(c);
                        Page2Action::Stop
                    },
                    None => Page2Action::Nothing,
                }
            },
            Page2Event::Close => Page2Action::Close,
        }
    }
}

/// Every step keeps the page well formed: the chapter exists, and the
/// selected and playing clauses belong to it.
pub proof fn lemma_step_keeps_wf(s: Page2View, e: Page2Event)
    requires
        s.wf(),
    ensures
        s.step(e).0.wf(),
{
    let n = s.clause_counts.len() as int;
    match e {
        Page2Event::NextClause => {
            if let Some(i) = s.selected {
                lemma_reduce_once(i + 1, s.count() as int);
            }
        },
        Page2Event::PrevClause => {
            if let Some(i) = s.selected {
                lemma_reduce_once(i + s.count() - 1, s.count() as int);
            }
        },
        Page2Event::NextChapter => {
            lemma_reduce_once(s.chapter + 1, n);
        },
        Page2Event::PrevChapter => {
            lemma_reduce_once(s.chapter + n - 1, n);
        },
        _ => {},
    }
}

/// Moving to another chapter keeps the voice choice, and resets the clause
/// selection and the playback.
pub proof fn lemma_chapter_change_resets(s: Page2View, e: Page2Event)
    requires
        s.wf(),
        e == Page2Event::NextChapter || e == Page2Event::PrevChapter,
    ensures
        s.step(e).0.choice == s.choice,
        s.step(e).0.selected is None,
        s.step(e).0.playback == Playback::Idle,
        s.step(e).0.clause_counts == s.clause_counts,
        s.step(e).1 == Page2Action::Stop,
{
}

/// The next chapter and then the previous one lead back to the chapter shown.
pub proof fn lemma_next_prev_chapter(s: Page2View)
    requires
        s.wf(),
    ensures
        s.step(Page2Event::NextChapter).0.step(Page2Event::PrevChapter).0.chapter == s.chapter,
        s.step(Page2Event::PrevChapter).0.step(Page2Event::NextChapter).0.chapter == s.chapter,
{
    let n = s.clause_counts.len() as int;
    let c = s.chapter as int;
    lemma_reduce_once(c + 1, n);
    lemma_reduce_once(c + n - 1, n);
    let up = (c + 1) % n;
    let down = (c + n - 1) % n;
    lemma_reduce_once(up + n - 1, n);
    lemma_reduce_once(down + 1, n);
}

/// The next clause and then the previous one (right arrow, left arrow) lead
/// back to the selected clause, and the other way round.
pub proof fn lemma_next_prev_clause(len: usize, i: usize)
    requires
        i < len,
    ensures
        prev_clause_spec(len, next_clause_spec(len, Some(i))) == Some(i),
        next_clause_spec(len, prev_clause_spec(len, Some(i))) == Some(i),
{
    let n = len as int;
    lemma_reduce_once(i + 1, n);
    lemma_reduce_once(i + n - 1, n);
    let up = (i + 1) % n;
    let down = (i + n - 1) % n;
    lemma_reduce_once(up + n - 1, n);
    lemma_reduce_once(down + 1, n);
}

/// Three taps on the voice row lead back to the voice choice it started with.
pub proof fn lemma_cycle_voice_three_times(c: VoiceChoice)
    ensures
        next_choice(next_choice(next_choice(c))) == c,
{
}

/// A click on the selected clause deselects it and stops playback; a click
/// on any other clause selects it and starts looping it.
pub proof fn lemma_click_clause(s: Page2View, i: usize)
    requires
        s.wf(),
        i < s.count(),
    ensures
        s.selected == Some(i) ==> s.step(Page2Event::ClickClause(i)) == (
            Page2View { selected: None, playback: Playback::Idle, ..s },
            Page2Action::Stop,
        ),
        s.selected != Some(i) ==> {
            let (t, a) = s.step(Page2Event::ClickClause(i));
            &&& t.selected == Some(i)
            &&& t.playback == Playback::Looping { clause: i, voice: first_voice(s.choice) }
            &&& a == Page2Action::Play { clause_num: (i + 1) as usize, voice: first_voice(s.choice) }
        },
{
}

/// Space while a clause loops lets the loop finish: the end of that loop
/// stops playback, and the page is idle again.
pub proof fn lemma_space_finishes_loop(s: Page2View, clause: usize, voice: Voice)
    requires
        s.wf(),
        s.playback == (Playback::Looping { clause, voice }),
    ensures
        s.step(Page2Event::TogglePlayback).1 == Page2Action::FinishLoop,
        s.step(Page2Event::TogglePlayback).0.step(Page2Event::LoopEnded) == (
            Page2View { playback: Playback::Idle, ..s },
            Page2Action::Stop,
        ),
{
}

/// With both voices chosen, each loop of a clause is in the other voice
/// than the loop before, so every second loop is in the same voice.
pub proof fn lemma_alternate_switches_voice(s: Page2View, clause: usize, voice: Voice)
    requires
        s.wf(),
        s.choice == VoiceChoice::Alternate,
        s.playback == (Playback::Looping { clause, voice }),
    ensures
        s.step(Page2Event::LoopEnded).1 == (Page2Action::Play {
            clause_num: (clause + 1) as usize,
            voice: other_voice(voice),
        }),
        s.step(Page2Event::LoopEnded).0.step(Page2Event::LoopEnded).0 == s,
{
}

/// Space on an idle page with clauses starts looping the selected clause,
/// or the first one when none is selected, in the first voice of the choice
/// (Denis for Denis, Irina otherwise); the selection and choice stay.
pub proof fn lemma_space_when_idle_plays_selection(s: Page2View)
    requires
        s.wf(),
        s.playback == Playback::Idle,
    ensures
        ({
            let (t, a) = s.step(Page2Event::TogglePlayback);
            let clause: usize = match s.selected {
                Some(i) => i,
                None => 0,
            };
            let voice = if s.choice == VoiceChoice::Denis {
                Voice::Denis
            } else {
                Voice::Irina
            };
            if s.clause_counts[s.chapter as int] == 0 {
                t == s && a == Page2Action::Nothing
            } else {
                &&& t.selected == s.selected
                &&& t.choice == s.choice
                &&& t.chapter == s.chapter
                &&& t.playback == (Playback::Looping { clause, voice })
                &&& a == (Page2Action::Play { clause_num: (clause + 1) as usize, voice })
                &&& clause < s.clause_counts[s.chapter as int]
            }
        }),
{
}

/// The clause the right arrow selects: the first when none is selected,
/// the one after the selected clause, and the first again after the last.
/// The left arrow: the last when none is selected, the one before the
/// selected clause, and the last again before the first.
pub proof fn lemma_clause_arrows(len: usize, i: usize)
    requires
        i < len,
    ensures
        next_clause_spec(len, None) == Some(0usize),
        i + 1 < len ==> next_clause_spec(len, Some(i)) == Some((i + 1) as usize),
        i + 1 == len ==> next_clause_spec(len, Some(i)) == Some(0usize),
        prev_clause_spec(len, None) == Some((len - 1) as usize),
        i > 0 ==> prev_clause_spec(len, Some(i)) == Some((i - 1) as usize),
        i == 0 ==> prev_clause_spec(len, Some(i)) == Some((len - 1) as usize),
        next_clause_spec(0, Some(i)) is None && prev_clause_spec(0, Some(i)) is None,
        next_clause_spec(0, None) is None && prev_clause_spec(0, None) is None,
{
    lemma_reduce_once(i + 1, len as int);
    lemma_reduce_once(i + len - 1, len as int);
}

/// The arrows on the page: right and left move the selection as
/// `lemma_clause_arrows` says (first clause first, wrapping at both ends),
/// and stop playback.
pub proof fn lemma_arrows_on_page(s: Page2View)
    requires
        s.wf(),
    ensures
        ({
            let n = s.clause_counts[s.chapter as int];
            let (r, ra) = s.step(Page2Event::NextClause);
            let (l, la) = s.step(Page2Event::PrevClause);
            &&& ra == Page2Action::Stop && la == Page2Action::Stop
            &&& r.playback == Playback::Idle && l.playback == Playback::Idle
            &&& n == 0 ==> r.selected is None && l.selected is None
            &&& n > 0 && s.selected is None ==> r.selected == Some(0usize) && l.selected == Some(
                (n - 1) as usize,
            )
            &&& (s.selected matches Some(i) ==> (i + 1 < n ==> r.selected == Some((i + 1) as usize)))
            &&& (s.selected matches Some(i) ==> (i + 1 == n ==> r.selected == Some(0usize)))
            &&& (s.selected matches Some(i) ==> (0 < i ==> l.selected == Some((i - 1) as usize)))
            &&& (s.selected matches Some(i) ==> (i == 0 ==> l.selected == Some((n - 1) as usize)))
        }),
{
    let n = s.clause_counts[s.chapter as int];
    if let Some(i) = s.selected {
        lemma_clause_arrows(n, i);
    } else if n > 0 {
        lemma_clause_arrows(n, 0);
    }
}

/// `I`, `D` and `A` choose Irina, Denis or both, and start looping the
/// selected clause (or the first) in Irina's voice for Irina and both, in
/// Denis's for Denis; a tap on the voice row goes Irina, Denis, both, Irina
/// and starts the same way.
pub proof fn lemma_voice_keys(s: Page2View, c: VoiceChoice)
    requires
        s.wf(),
        s.clause_counts[s.chapter as int] > 0,
    ensures
        ({
            let clause: usize = match s.selected {
                Some(i) => i,
                None => 0,
            };
            let (t, a) = s.step(Page2Event::ChooseVoice(c));
            let v = if c == VoiceChoice::Denis {
                Voice::Denis
            } else {
                Voice::Irina
            };
            &&& t.choice == c
            &&& t.selected == s.selected
            &&& t.playback == (Playback::Looping { clause, voice: v })
            &&& a == (Page2Action::Play { clause_num: (clause + 1) as usize, voice: v })
        }),
        s.choice == VoiceChoice::Irina ==> s.step(Page2Event::CycleVoice).0.choice == VoiceChoice::Denis,
        s.choice == VoiceChoice::Denis ==> s.step(Page2Event::CycleVoice).0.choice
            == VoiceChoice::Alternate,
        s.choice == VoiceChoice::Alternate ==> s.step(Page2Event::CycleVoice).0.choice
            == VoiceChoice::Irina,
        s.step(Page2Event::CycleVoice) == s.step(
            Page2Event::ChooseVoice(s.step(Page2Event::CycleVoice).0.choice),
        ),
{
}

/// At the end of a loop in a single voice, the same clause loops again in
/// the same voice; when the page is idle nothing happens; Ctrl+W only asks
/// to close.
pub proof fn lemma_loop_end_and_close(s: Page2View)
    requires
        s.wf(),
    ensures
        s.choice != VoiceChoice::Alternate ==> (s.playback matches Playback::Looping { clause, voice }
            ==> s.step(Page2Event::LoopEnded) == (s, Page2Action::Play {
            clause_num: (clause + 1) as usize,
            voice,
        })),
        s.playback == Playback::Idle ==> s.step(Page2Event::LoopEnded) == (s, Page2Action::Nothing),
        s.step(Page2Event::Close) == (s, Page2Action::Close),
{
}

/// Ctrl+Right shows the next chapter, and the first after the last;
/// Ctrl+Left the previous one, and the last before the first.
pub proof fn lemma_chapter_arrows(s: Page2View)
    requires
        s.wf(),
    ensures
        ({
            let n = s.clause_counts.len();
            let c = s.chapter;
            let next = s.step(Page2Event::NextChapter).0.chapter;
            let prev = s.step(Page2Event::PrevChapter).0.chapter;
            &&& c + 1 < n ==> next == c + 1
            &&& c + 1 == n ==> next == 0
            &&& c > 0 ==> prev == c - 1
            &&& c == 0 ==> prev == n - 1
        }),
{
    let n = s.clause_counts.len() as int;
    lemma_reduce_once(s.chapter + 1, n);
    lemma_reduce_once(s.chapter + n - 1, n);
}

/// Space while the last loop is finishing changes nothing, and a click on
/// a clause the chapter does not have is ignored.
pub proof fn lemma_ignored_events(s: Page2View, i: usize)
    requires
        s.wf(),
    ensures
        s.playback is Finishing ==> s.step(Page2Event::TogglePlayback) == (s, Page2Action::Nothing),
        i >= s.clause_counts[s.chapter as int] ==> s.step(Page2Event::ClickClause(i)) == (
            s,
            Page2Action::Nothing,
        ),
{
}

} // verus!
