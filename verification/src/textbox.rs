//! What the textbox is sent: lines of text with their speaker.

use crate::chara::{
    main_voice, narration, sprite_dir, Chara, CharacterSprite, Voice, VoiceView,
};
use vstd::prelude::*;

verus! {

/// One line of text, with the portrait and the voice that go with it.
#[derive(Debug)]
pub struct TextBlurb {
    pub text: String,
    pub character: Option<CharacterSprite>,
    pub glyph: Voice,
}

/// A request to present lines in the textbox, one after the other.
#[derive(Debug)]
pub struct TextboxEvent {
    pub blurbs: Vec<TextBlurb>,
    /// Whether the textbox closes by itself once the last line is
    /// acknowledged.
    pub despawn_when_finished: bool,
}

/// Sets the portrait and the voice of the textbox.
#[derive(Debug)]
pub struct CharacterEvent {
    pub sprite: Option<CharacterSprite>,
    pub glyph: Voice,
}

/// A line, as contracts see it.
pub struct TextBlurbView {
    pub text: Seq<char>,
    /// Asset path of the portrait.
    pub character: Option<Seq<char>>,
    pub glyph: VoiceView,
}

/// A textbox request, as contracts see it.
pub struct TextboxEventView {
    pub blurbs: Seq<TextBlurbView>,
    pub despawn_when_finished: bool,
}

/// A character event, as contracts see it.
pub struct CharacterEventView {
    pub sprite: Option<Seq<char>>,
    pub glyph: VoiceView,
}

impl View for TextBlurb {
    type V = TextBlurbView;

    open spec fn view(&self) -> TextBlurbView {
        TextBlurbView {
            text: self.text@,
            character: self.character.deep_view(),
            glyph: self.glyph@,
        }
    }
}

impl DeepView for TextBlurb {
    type V = TextBlurbView;

    open spec fn deep_view(&self) -> TextBlurbView {
        self@
    }
}

impl View for TextboxEvent {
    type V = TextboxEventView;

    open spec fn view(&self) -> TextboxEventView {
        TextboxEventView {
            blurbs: self.blurbs.deep_view(),
            despawn_when_finished: self.despawn_when_finished,
        }
    }
}

impl View for CharacterEvent {
    type V = CharacterEventView;

    open spec fn view(&self) -> CharacterEventView {
        CharacterEventView { sprite: self.sprite.deep_view(), glyph: self.glyph@ }
    }
}

/// The line `text` as the narrator speaks it: no portrait, the narrating
/// voice.
pub open spec fn narrated(text: Seq<char>) -> TextBlurbView {
    TextBlurbView { text, character: None, glyph: narration() }
}

/// The line `text` as the main character speaks it: his portrait and voice.
pub open spec fn main_line(text: Seq<char>) -> TextBlurbView {
    TextBlurbView { text, character: Some(sprite_dir() + "main.png"@), glyph: main_voice() }
}

impl TextBlurb {
    /// A line with the portrait stored under `character`, if one is named.
    pub fn new(text: &str, character: Option<&str>, glyph: Voice) -> (blurb: TextBlurb)
        ensures
            blurb@ == (TextBlurbView {
                text: text@,
                character: match character {
                    Some(name) => Some(sprite_dir() + name@),
                    None => None,
                },
                glyph: glyph@,
            }),
    {
        let sprite = match character {
            Some(name) => Some(CharacterSprite::new(name)),
            None => None,
        };
        TextBlurb { text: text.to_owned(), character: sprite, glyph }
    }

    /// A line of narration.
    pub fn narrator(text: &str) -> (blurb: TextBlurb)
        ensures
            blurb@ == narrated(text@),
    {
        TextBlurb::new(text, None, Voice::narration())
    }

    /// A line of the main character.
    pub fn main_character(text: &str) -> (blurb: TextBlurb)
        ensures
            blurb@ == main_line(text@),
    {
        TextBlurb::new(text, Some("main.png"), Voice::main_character())
    }
}

impl TextboxEvent {
    /// Presents `sections` in order and closes the textbox after the last.
    ///
    /// A request without lines is accepted: the dialogue bridge spawns the
    /// textbox if none is visible, shows nothing, and ends the fragment on
    /// the next acknowledgement.
    pub fn new(sections: Vec<TextBlurb>) -> (event: TextboxEvent)
        ensures
            event@ == (TextboxEventView {
                blurbs: sections.deep_view(),
                despawn_when_finished: true,
            }),
    {
        TextboxEvent { blurbs: sections, despawn_when_finished: true }
    }

    /// Presents one line and closes the textbox after it.
    pub fn section(section: TextBlurb) -> (event: TextboxEvent)
        ensures
            event@ == (TextboxEventView { blurbs: seq![section@], despawn_when_finished: true }),
    {
        let mut blurbs: Vec<TextBlurb> = Vec::new();
        blurbs.push(section);
        proof {
            assert(blurbs.deep_view() =~= seq![section@]);
        }
        TextboxEvent::new(blurbs)
    }

    /// Presents one line and leaves the textbox open after it.
    pub fn section_retained(section: TextBlurb) -> (event: TextboxEvent)
        ensures
            event@ == (TextboxEventView { blurbs: seq![section@], despawn_when_finished: false }),
    {
        let mut blurbs: Vec<TextBlurb> = Vec::new();
        blurbs.push(section);
        proof {
            assert(blurbs.deep_view() =~= seq![section@]);
        }
        TextboxEvent { blurbs, despawn_when_finished: false }
    }
}

impl CharacterEvent {
    /// The event that announces `chara` as the speaker.
    pub fn of(chara: Chara) -> (event: CharacterEvent)
        ensures
            event@ == (CharacterEventView { sprite: chara.sprite_path(), glyph: chara.voice() }),
    {
        CharacterEvent { sprite: chara.sprite(), glyph: chara.glyphs() }
    }
}

} // verus!
