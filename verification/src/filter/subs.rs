//! Subtitle sidecar files.
use crate::filter::prefs::{is_among, texts, Prefs};
use crate::text::{chars_of, find_chars, find_from, string_of};
use vstd::prelude::*;

verus! {

#[derive(Clone, Debug, PartialEq, Eq)]
pub struct SubFile {
    /// Full sidecar filename.
    pub filename: String,
    /// Language code extracted from the filename's <lang> field.
    pub language: String,
    /// Variant extracted from the filename's <variant> field.
    pub variant: String,
}

/// The parts of `s` between underscores.
pub open spec fn split_parts(s: Seq<char>) -> Seq<Seq<char>>
    decreases s.len(),
{
    match find_from(s, seq!['_'], 0) {
        Some(k) if 0 <= k < s.len() => seq![s.take(k)] + split_parts(s.skip(k + 1)),
        _ => seq![s],
    }
}

/// Whether a part is an `s` with digits, at least one, behind it.
pub open spec fn is_track_part(p: Seq<char>) -> bool {
    &&& p.len() >= 2
    &&& p[0] == 's'
    &&& forall|i: int| 1 <= i < p.len() ==> '0' <= #[trigger] p[i] <= '9'
}

/// Language and variant that a sidecar filename tells:
/// `<base>_s<NNN>_<lang>_<variant>_<vv>.<ext>`. The base may hold any parts, so the track
/// part is the fourth from the end; language and variant come after it, and the last part
/// carries the extension.
pub open spec fn sub_fields(filename: Seq<char>) -> Option<(Seq<char>, Seq<char>)> {
    let parts = split_parts(filename);
    let n = parts.len();
    if n >= 4 && is_track_part(parts[n - 4]) && parts.last().contains('.') {
        Some((parts[n - 3], parts[n - 2]))
    } else {
        None
    }
}

pub open spec fn part_views(parts: Seq<Vec<char>>) -> Seq<Seq<char>> {
    Seq::new(parts.len(), |i: int| parts[i]@)
}

/// A copy of characters.
fn copy_chars(s: &[char]) -> (r: Vec<char>)
    ensures
        r@ == s@,
{
    let mut out: Vec<char> = Vec::new();
    let mut i: usize = 0;
    while i < s.len()
        invariant
            i <= s@.len(),
            out@ == s@.take(i as int),
        decreases s@.len() - i,
    {
        out.push(s[i]);
        i = i + 1;
        assert(s@.take(i as int) =~= s@.take(i - 1).push(s@[i - 1]));
    }
    assert(s@.take(i as int) =~= s@);
    out
}

/// The parts of `s` between underscores.
fn split_underscores(s: &[char]) -> (r: Vec<Vec<char>>)
    ensures
        part_views(r@) == split_parts(s@),
        r@.len() > 0,
{
    let mut underscore: Vec<char> = Vec::new();
    underscore.push('_');
    assert(underscore@ =~= seq!['_']);
    let mut parts: Vec<Vec<char>> = Vec::new();
    let mut rest: &[char] = s;
    proof {
        assert(part_views(parts@) + split_parts(rest@) =~= split_parts(s@));
    }
    loop
        invariant
            underscore@ == seq!['_'],
            split_parts(s@) == part_views(parts@) + split_parts(rest@),
        decreases rest@.len(),
    {
        match find_chars(rest, &underscore, 0) {
            Some(k) => {
                let n: usize = rest.len();
                let part: Vec<char> = copy_chars(&rest[0..k]);
                proof {
                    assert(part@ =~= rest@.take(k as int));
                    assert(rest@.subrange(k + 1, n as int) =~= rest@.skip(k + 1));
                    assert(part_views(parts@.push(part)) =~= part_views(parts@).push(part@));
                    assert(part_views(parts@) + (seq![rest@.take(k as int)] + split_parts(
                        rest@.skip(k + 1),
                    )) =~= part_views(parts@.push(part)) + split_parts(rest@.skip(k + 1)));
                }
                parts.push(part);
                rest = &rest[k + 1..n];
            },
            None => {
                let part: Vec<char> = copy_chars(rest);
                proof {
                    assert(part_views(parts@.push(part)) =~= part_views(parts@) + seq![rest@]);
                }
                parts.push(part);
                return parts;
            },
        }
    }
}

fn track_part(p: &Vec<char>) -> (r: bool)
    ensures
        r == is_track_part(p@),
{
    if p.len() < 2 || p[0] != 's' {
        return false;
    }
    let mut i: usize = 1;
    while i < p.len()
        invariant
            p@.len() >= 2,
            1 <= i <= p@.len(),
            forall|k: int| 1 <= k < i ==> '0' <= #[trigger] p@[k] <= '9',
        decreases p@.len() - i,
    {
        if p[i] < '0' || p[i] > '9' {
            assert(!('0' <= p@[i as int] <= '9'));
            return false;
        }
        i = i + 1;
    }
    true
}

fn has_dot(p: &Vec<char>) -> (r: bool)
    ensures
        r == p@.contains('.'),
{
    let mut i: usize = 0;
    while i < p.len()
        invariant
            i <= p@.len(),
            forall|k: int| 0 <= k < i ==> p@[k] != '.',
        decreases p@.len() - i,
    {
        if p[i] == '.' {
            return true;
        }
        i = i + 1;
    }
    false
}

impl SubFile {
    /// Parses a sidecar filename following the pattern:
    ///   `<base>_s<NNN>_<lang>_<variant>_<vv>.<ext>`
    ///
    /// Returns `None` if the pattern is not matched.
    pub fn from_filename(filename: &str) -> (r: Option<Self>)
        ensures
            match sub_fields(filename@) {
                Some((language, variant)) => r matches Some(f) && f.filename@ == filename@
                    && f.language@ == language && f.variant@ == variant,
                None => r is None,
            },
    {
        let parts: Vec<Vec<char>> = split_underscores(&chars_of(filename));
        let ghost views = part_views(parts@);
        let n: usize = parts.len();
        if n < 4 {
            return None;
        }
        proof {
            assert(views[n - 4] == parts@[n - 4]@);
            assert(views[n - 3] == parts@[n - 3]@);
            assert(views[n - 2] == parts@[n - 2]@);
            assert(views.last() == parts@[n - 1]@);
        }
        if !track_part(&parts[n - 4]) || !has_dot(&parts[n - 1]) {
            return None;
        }
        Some(
            SubFile {
                filename: filename.to_owned(),
                language: string_of(&parts[n - 3]),
                variant: string_of(&parts[n - 2]),
            },
        )
    }
}

/// The places, among the first `n` files, of those in a wanted language.
pub open spec fn wanted_upto(files: Seq<SubFile>, langs: Seq<Seq<char>>, n: nat) -> Seq<int>
    decreases n,
{
    if n == 0 {
        Seq::empty()
    } else {
        let before = wanted_upto(files, langs, (n - 1) as nat);
        if langs.contains(files[n - 1].language@) {
            before.push(n - 1)
        } else {
            before
        }
    }
}

/// The places of the files that a user gets to see: those in a wanted language, or
/// all where there is none.
pub open spec fn shown_subs(files: Seq<SubFile>, langs: Seq<Seq<char>>) -> Seq<int> {
    let wanted = wanted_upto(files, langs, files.len());
    if wanted.len() == 0 {
        Seq::new(files.len(), |i: int| i)
    } else {
        wanted
    }
}

/// A shown file is in a wanted language, unless no file is and all are shown.
pub proof fn shown_subs_are_wanted(files: Seq<SubFile>, langs: Seq<Seq<char>>)
    ensures
        (exists|i: int| 0 <= i < files.len() && langs.contains((#[trigger] files[i]).language@))
            ==> forall|k: int|
            0 <= k < shown_subs(files, langs).len() ==> {
                let i = #[trigger] shown_subs(files, langs)[k];
                0 <= i < files.len() && langs.contains(files[i].language@)
            },
        (forall|i: int| 0 <= i < files.len() ==> !langs.contains((#[trigger] files[i]).language@))
            ==> shown_subs(files, langs) == Seq::new(files.len(), |i: int| i),
{
    lemma_wanted(files, langs, files.len());
    let w = wanted_upto(files, langs, files.len());
    if w.len() > 0 {
        assert(langs.contains(files[w[0]].language@));
    }
}

proof fn lemma_wanted(files: Seq<SubFile>, langs: Seq<Seq<char>>, n: nat)
    requires
        n <= files.len(),
    ensures
        forall|k: int|
            0 <= k < wanted_upto(files, langs, n).len() ==> {
                let i = #[trigger] wanted_upto(files, langs, n)[k];
                0 <= i < n && langs.contains(files[i].language@)
            },
        forall|i: int|
            0 <= i < n && langs.contains((#[trigger] files[i]).language@) ==> wanted_upto(
                files,
                langs,
                n,
            ).len() > 0,
    decreases n,
{
    if n > 0 {
        lemma_wanted(files, langs, (n - 1) as nat);
        let before = wanted_upto(files, langs, (n - 1) as nat);
        let all = wanted_upto(files, langs, n);
        assert forall|k: int| 0 <= k < all.len() implies ({
            let i = #[trigger] all[k];
            0 <= i < n && langs.contains(files[i].language@)
        }) by {
            if k < before.len() {
                assert(all[k] == before[k]);
            }
        }
        assert forall|i: int|
            0 <= i < n && langs.contains((#[trigger] files[i]).language@) implies all.len() > 0 by {
            if i < n - 1 {
                assert(before.len() > 0);
            }
        }
    }
}

/// Whether `out` holds the files at the given places.
pub open spec fn picked(out: Seq<&SubFile>, files: Seq<SubFile>, places: Seq<int>) -> bool {
    &&& out.len() == places.len()
    &&& forall|k: int| 0 <= k < out.len() ==> *(#[trigger] out[k]) == files[places[k]]
}

/// Returns the subset of `sub_files` whose language is in `prefs.sub_langs`.
/// Falls back to all files if no candidates match.
pub fn resolve_subs_filter<'a>(sub_files: &'a [SubFile], prefs: &Prefs) -> (r: Vec<&'a SubFile>)
    ensures
        picked(r@, sub_files@, shown_subs(sub_files@, texts(prefs.sub_langs@))),
{
    let ghost langs = texts(prefs.sub_langs@);
    let mut all: Vec<&'a SubFile> = Vec::new();
    let mut wanted: Vec<&'a SubFile> = Vec::new();
    let mut i: usize = 0;
    while i < sub_files.len()
        invariant
            langs == texts(prefs.sub_langs@),
            i <= sub_files@.len(),
            picked(all@, sub_files@, Seq::new(i as nat, |i: int| i)),
            picked(wanted@, sub_files@, wanted_upto(sub_files@, langs, i as nat)),
        decreases sub_files@.len() - i,
    {
        let f: &'a SubFile = &sub_files[i];
        all.push(f);
        if is_among(f.language.as_str(), &prefs.sub_langs) {
            wanted.push(f);
        }
        i = i + 1;
    }
    if wanted.len() == 0 {
        all
    } else {
        wanted
    }
}

} // verus!
