//! Checking preferences.
use crate::filter::prefs::Prefs;
use crate::text::same_text;
use vstd::prelude::*;

verus! {

#[derive(Debug, Clone, PartialEq, Eq)]
pub enum PrefsValidationError {
    TooManyAudioLangs { got: usize },
    TooManySubLangs { got: usize },
    InvalidReadMode(String),
    InvalidResolution(String),
}

/// [`PrefsValidationError`] with sequences for strings.
pub ghost enum PrefsFault {
    TooManyAudioLangs(nat),
    TooManySubLangs(nat),
    InvalidReadMode(Seq<char>),
    InvalidResolution(Seq<char>),
}

impl View for PrefsValidationError {
    type V = PrefsFault;

    open spec fn view(&self) -> PrefsFault {
        match self {
            PrefsValidationError::TooManyAudioLangs { got } => PrefsFault::TooManyAudioLangs(
                *got as nat,
            ),
            PrefsValidationError::TooManySubLangs { got } => PrefsFault::TooManySubLangs(
                *got as nat,
            ),
            PrefsValidationError::InvalidReadMode(s) => PrefsFault::InvalidReadMode(s@),
            PrefsValidationError::InvalidResolution(s) => PrefsFault::InvalidResolution(s@),
        }
    }
}

pub open spec fn fault_views(s: Seq<PrefsValidationError>) -> Seq<PrefsFault> {
    Seq::new(s.len(), |i: int| s[i]@)
}

/// Whether a text names a resolution.
pub open spec fn is_resolution(s: Seq<char>) -> bool {
    s == "4k"@ || s == "1440p"@ || s == "1080p"@ || s == "720p"@ || s == "540p"@ || s == "480p"@
        || s == "360p"@ || s == "240p"@
}

fn known_resolution(s: &str) -> (r: bool)
    ensures
        r == is_resolution(s@),
{
    same_text(s, "4k") || same_text(s, "1440p") || same_text(s, "1080p") || same_text(s, "720p")
        || same_text(s, "540p") || same_text(s, "480p") || same_text(s, "360p") || same_text(
        s,
        "240p",
    )
}

/// All faults of preferences: more than five languages, an unknown resolution.
pub open spec fn prefs_faults(p: Prefs) -> Seq<PrefsFault> {
    (if p.audio_langs@.len() > 5 {
        seq![PrefsFault::TooManyAudioLangs(p.audio_langs@.len())]
    } else {
        Seq::empty()
    }) + (if p.sub_langs@.len() > 5 {
        seq![PrefsFault::TooManySubLangs(p.sub_langs@.len())]
    } else {
        Seq::empty()
    }) + (match p.video_resolution {
        Some(r) => if is_resolution(r@) {
            Seq::empty()
        } else {
            seq![PrefsFault::InvalidResolution(r@)]
        },
        None => Seq::empty(),
    })
}

/// Validates `prefs` and returns all errors found (not just the first one).
pub fn validate_prefs(prefs: &Prefs) -> (r: Result<(), Vec<PrefsValidationError>>)
    ensures
        match r {
            Ok(_) => prefs_faults(*prefs).len() == 0,
            Err(v) => prefs_faults(*prefs).len() > 0 && fault_views(v@) == prefs_faults(*prefs),
        },
{
    let mut errors: Vec<PrefsValidationError> = Vec::new();
    if prefs.audio_langs.len() > 5 {
        errors.push(PrefsValidationError::TooManyAudioLangs { got: prefs.audio_langs.len() });
    }
    if prefs.sub_langs.len() > 5 {
        errors.push(PrefsValidationError::TooManySubLangs { got: prefs.sub_langs.len() });
    }
    if let Some(res) = &prefs.video_resolution {
        if !known_resolution(res.as_str()) {
            errors.push(PrefsValidationError::InvalidResolution(res.clone()));
        }
    }
    assert(fault_views(errors@) =~= prefs_faults(*prefs));
    if errors.len() == 0 {
        Ok(())
    } else {
        Err(errors)
    }
}

} // verus!
