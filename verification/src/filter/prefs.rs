//! A user's preferences.
use vstd::prelude::*;

verus! {

#[derive(Clone, Debug, PartialEq)]
pub struct Prefs {
    /// Up to 5 preferred audio languages in priority order.
    /// Empty = fallback to all tracks (equivalent to disabling the filter).
    pub audio_langs: Vec<String>,
    /// Up to 5 preferred subtitle languages, independent of audio.
    pub sub_langs: Vec<String>,
    /// Preferred audio codecs in priority order.
    pub audio_codec: Vec<String>,
    /// Preferred video resolution. Used to prioritize which video track to
    /// download. Does not filter other tracks.
    pub video_resolution: Option<String>,
    pub read_mode: ReadMode,
    pub read_timeout_ms: u32,
}

#[derive(Clone, Copy, Debug, PartialEq, Eq, Structural)]
pub enum ReadMode {
    Block,
    Timeout,
    NonBlock,
}

/// The texts of strings.
pub open spec fn texts(s: Seq<String>) -> Seq<Seq<char>> {
    Seq::new(s.len(), |i: int| s[i]@)
}

/// The codecs preferred by default, best first.
pub open spec fn default_codecs() -> Seq<Seq<char>> {
    seq!["truehd"@, "eac3"@, "dts"@, "ac3"@, "aac"@, "mp3"@]
}

impl Default for Prefs {
    fn default() -> (r: Self)
        ensures
            r.audio_langs@.len() == 0,
            r.sub_langs@.len() == 0,
            texts(r.audio_codec@) == default_codecs(),
            r.video_resolution matches Some(s) && s@ == "1080p"@,
            r.read_mode == ReadMode::Block,
            r.read_timeout_ms == 1000,
    {
        let mut audio_codec: Vec<String> = Vec::new();
        audio_codec.push("truehd".to_owned());
        audio_codec.push("eac3".to_owned());
        audio_codec.push("dts".to_owned());
        audio_codec.push("ac3".to_owned());
        audio_codec.push("aac".to_owned());
        audio_codec.push("mp3".to_owned());
        assert(texts(audio_codec@) =~= default_codecs());
        Self {
            audio_langs: Vec::new(),
            sub_langs: Vec::new(),
            audio_codec,
            video_resolution: Some("1080p".to_owned()),
            read_mode: ReadMode::Block,
            read_timeout_ms: 1000,
        }
    }
}

/// Whether a text is among others.
pub fn is_among(s: &str, list: &Vec<String>) -> (r: bool)
    ensures
        r == texts(list@).contains(s@),
{
    let mut i: usize = 0;
    while i < list.len()
        invariant
            i <= list@.len(),
            forall|k: int| 0 <= k < i ==> texts(list@)[k] != s@,
        decreases list@.len() - i,
    {
        if crate::text::same_text(list[i].as_str(), s) {
            assert(texts(list@)[i as int] == s@);
            return true;
        }
        i = i + 1;
    }
    false
}

} // verus!
