//! The cast: who speaks a line, and which portrait and voice go with them.

use vstd::prelude::*;
use vstd::string::*;

verus! {

/// A speaking character.
#[derive(Clone, Copy, Debug, PartialEq, Eq, Structural, Hash)]
pub enum Chara {
    Narrator,
    DistressedNarrator1,
    DistressedNarrator2,
    Father,
    Luna,
    Stranger,
    Sturgeon,
    Shadow,
}

/// Asset path of a portrait, relative to the asset root.
#[derive(Debug)]
pub struct CharacterSprite(pub String);

/// How far the pitch of a glyph sound may stray, in thousandths of the
/// sample's own pitch.
#[derive(Clone, Copy, Debug, PartialEq, Eq, Structural, Hash)]
pub enum Pitch {
    /// Up to this much above or below the sample's pitch.
    Deviation(u32),
    /// Between these two factors.
    Between(u32, u32),
}

/// The sound made for each glyph of a line as it is revealed.
#[derive(Clone, Copy, Debug)]
pub struct Voice {
    /// File name of the sample in the glyph directory.
    pub sample: &'static str,
    pub pitch: Pitch,
    /// Linear volume, in thousandths.
    pub volume: u32,
}

/// A voice, as contracts see it.
pub struct VoiceView {
    pub sample: Seq<char>,
    pub pitch: Pitch,
    pub volume: u32,
}

impl View for CharacterSprite {
    type V = Seq<char>;

    open spec fn view(&self) -> Seq<char> {
        self.0@
    }
}

impl DeepView for CharacterSprite {
    type V = Seq<char>;

    open spec fn deep_view(&self) -> Seq<char> {
        self@
    }
}

impl View for Voice {
    type V = VoiceView;

    open spec fn view(&self) -> VoiceView {
        VoiceView { sample: self.sample@, pitch: self.pitch, volume: self.volume }
    }
}

/// Directory of the portraits, with its trailing slash.
pub open spec fn sprite_dir() -> Seq<char> {
    "textures/characters/"@
}

/// Directory of the per-glyph sound samples, with its trailing slash.
pub open spec fn glyph_dir() -> Seq<char> {
    "audio/sfx/glyph/"@
}

/// The voice of narration: the low sample, barely varied.
pub open spec fn narration() -> VoiceView {
    VoiceView { sample: "low.wav"@, pitch: Pitch::Deviation(20), volume: 500 }
}

/// The voice of the main character when no cast member is named: the medium
/// sample, slightly varied.
pub open spec fn main_voice() -> VoiceView {
    VoiceView { sample: "medium.wav"@, pitch: Pitch::Deviation(50), volume: 500 }
}

/// Asset path of the sound sample named `glyph`.
pub fn glyph_sample(glyph: &str) -> (path: String)
    ensures
        path@ == glyph_dir() + glyph@,
{
    String::from_str("audio/sfx/glyph/").concat(glyph)
}

impl CharacterSprite {
    /// The portrait stored under `character` in the portrait directory.
    pub fn new(character: &str) -> (sprite: CharacterSprite)
        ensures
            sprite@ == sprite_dir() + character@,
    {
        CharacterSprite(String::from_str("textures/characters/").concat(character))
    }
}

impl Voice {
    /// The voice of narration.
    pub fn narration() -> (voice: Voice)
        ensures
            voice@ == narration(),
    {
        Voice { sample: "low.wav", pitch: Pitch::Deviation(20), volume: 500 }
    }

    /// The voice of the main character when no cast member is named.
    pub fn main_character() -> (voice: Voice)
        ensures
            voice@ == main_voice(),
    {
        Voice { sample: "medium.wav", pitch: Pitch::Deviation(50), volume: 500 }
    }

    /// Asset path of the sample.
    pub fn path(&self) -> (path: String)
        ensures
            path@ == glyph_dir() + self@.sample,
    {
        glyph_sample(self.sample)
    }
}

impl Chara {
    /// File name of this character's portrait, if it has one. The narrators
    /// and the stranger have none.
    pub open spec fn portrait(self) -> Option<Seq<char>> {
        match self {
            Chara::Father => Some("main.png"@),
            Chara::Luna => Some("luna.png"@),
            Chara::Sturgeon => Some("sturgeon.png"@),
            Chara::Shadow => Some("shadow.png"@),
            _ => None,
        }
    }

    /// Asset path of this character's portrait, if it has one.
    pub open spec fn sprite_path(self) -> Option<Seq<char>> {
        match self.portrait() {
            Some(file) => Some(sprite_dir() + file),
            None => None,
        }
    }

    /// File name of the sample of this character's voice.
    pub open spec fn sample(self) -> Seq<char> {
        match self {
            Chara::Father => "medium.wav"@,
            Chara::Luna => "high.wav"@,
            _ => "low.wav"@,
        }
    }

    /// How this character's voice varies in pitch.
    pub open spec fn pitch(self) -> Pitch {
        match self {
            Chara::Narrator => Pitch::Deviation(20),
            Chara::DistressedNarrator1 => Pitch::Between(1000, 1150),
            Chara::DistressedNarrator2 => Pitch::Between(1000, 1300),
            Chara::Father => Pitch::Deviation(20),
            Chara::Luna => Pitch::Between(750, 850),
            Chara::Stranger => Pitch::Between(750, 850),
            Chara::Sturgeon => Pitch::Between(450, 750),
            Chara::Shadow => Pitch::Between(450, 750),
        }
    }

    /// How loud this character speaks, in thousandths.
    pub open spec fn volume(self) -> u32 {
        match self {
            Chara::DistressedNarrator1 => 600,
            Chara::DistressedNarrator2 => 700,
            _ => 500,
        }
    }

    /// This character's voice.
    pub open spec fn voice(self) -> VoiceView {
        VoiceView { sample: self.sample(), pitch: self.pitch(), volume: self.volume() }
    }

    /// The portrait shown while this character speaks.
    pub fn sprite(&self) -> (sprite: Option<CharacterSprite>)
        ensures
            sprite.deep_view() == self.sprite_path(),
    {
        match self {
            Chara::Narrator => None,
            Chara::DistressedNarrator1 => None,
            Chara::DistressedNarrator2 => None,
            Chara::Father => Some(CharacterSprite::new("main.png")),
            Chara::Luna => Some(CharacterSprite::new("luna.png")),
            Chara::Stranger => None,
            Chara::Sturgeon => Some(CharacterSprite::new("sturgeon.png")),
            Chara::Shadow => Some(CharacterSprite::new("shadow.png")),
        }
    }

    /// The sound made for each glyph of this character's lines.
    pub fn glyphs(&self) -> (voice: Voice)
        ensures
            voice@ == self.voice(),
    {
        match self {
            Chara::Narrator => Voice { sample: "low.wav", pitch: Pitch::Deviation(20), volume: 500 },
            Chara::DistressedNarrator1 => Voice {
                sample: "low.wav",
                pitch: Pitch::Between(1000, 1150),
                volume: 600,
            },
            Chara::DistressedNarrator2 => Voice {
                sample: "low.wav",
                pitch: Pitch::Between(1000, 1300),
                volume: 700,
            },
            Chara::Father => Voice { sample: "medium.wav", pitch: Pitch::Deviation(20), volume: 500 },
            Chara::Luna => Voice { sample: "high.wav", pitch: Pitch::Between(750, 850), volume: 500 },
            Chara::Stranger => Voice {
                sample: "low.wav",
                pitch: Pitch::Between(750, 850),
                volume: 500,
            },
            Chara::Sturgeon | Chara::Shadow => Voice {
                sample: "low.wav",
                pitch: Pitch::Between(450, 750),
                volume: 500,
            },
        }
    }
}

} // verus!
