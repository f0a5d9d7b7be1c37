//! A binstruct file for human readers.
use crate::binstruct::{
    entry_models, policy_models, tool_models, BinstructFile, BinstructModel, CodecType, EntryModel,
    PolicyModel, ToolEntry, ToolModel, TrackEntryRecord, TrackPolicy,
};
use crate::text::{
    decimal, decimal_text, hex_text, push_column, push_decimal, push_hex, push_padded,
    push_signed_decimal, signed_decimal, space_padded, zero_padded,
};
use vstd::prelude::*;
use vstd::string::*;

verus! {

/// Whether a year has a 29th of February.
pub open spec fn leap(y: int) -> bool {
    (y % 4 == 0 && y % 100 != 0) || y % 400 == 0
}

/// The days of a year.
pub open spec fn year_days(y: int) -> int {
    if leap(y) {
        366
    } else {
        365
    }
}

/// The days of a month of a year.
pub open spec fn month_days(y: int, m: int) -> int {
    if m == 2 {
        if leap(y) {
            29
        } else {
            28
        }
    } else if m == 1 || m == 3 || m == 5 || m == 7 || m == 8 || m == 10 || m == 12 {
        31
    } else {
        30
    }
}

/// The year in which the day number `days` of year `y` (and those after it) falls, and
/// its number in that year. Days are counted from 0.
pub open spec fn civil_year(days: int, y: int) -> (int, int)
    decreases days,
{
    if days < year_days(y) {
        (y, days)
    } else {
        civil_year(days - year_days(y), y + 1)
    }
}

/// The month in which the day number `days` of month `m` (and those after it) falls, and
/// its number in that month. Days are counted from 0.
pub open spec fn civil_month(days: int, y: int, m: int) -> (int, int)
    decreases days,
{
    if days < month_days(y, m) {
        (m, days)
    } else {
        civil_month(days - month_days(y, m), y, m + 1)
    }
}

/// A moment, in seconds since the epoch, as `YYYY-MM-DDThh:mm:ssZ`.
pub open spec fn iso_text(unix_secs: nat) -> Seq<char> {
    let (y, in_year) = civil_year((unix_secs / 86400) as int, 1970);
    let (m, in_month) = civil_month(in_year, y, 1);
    zero_padded(decimal(y as nat), 4) + "-"@ + zero_padded(decimal(m as nat), 2) + "-"@
        + zero_padded(decimal((in_month + 1) as nat), 2) + "T"@ + zero_padded(
        decimal(unix_secs / 3600 % 24),
        2,
    ) + ":"@ + zero_padded(decimal(unix_secs / 60 % 60), 2) + ":"@ + zero_padded(
        decimal(unix_secs % 60),
        2,
    ) + "Z"@
}

/// The days from the first of January 1970 to that of year `y`.
pub open spec fn days_before_year(y: int) -> int
    decreases y,
{
    if y <= 1970 {
        0
    } else {
        days_before_year(y - 1) + year_days(y - 1)
    }
}

/// The days from the first of January of year `y` to the first of month `m`.
pub open spec fn days_before_month(y: int, m: int) -> int
    decreases m,
{
    if m <= 1 {
        0
    } else {
        days_before_month(y, m - 1) + month_days(y, m - 1)
    }
}

/// The printed date is that of the moment: the days before its year, before its month
/// in the year, and before its day in the month add up to the days since the epoch.
pub proof fn date_counts_back(days: nat)
    ensures
        ({
            let (y, in_year) = civil_year(days as int, 1970);
            let (m, in_month) = civil_month(in_year, y, 1);
            &&& y >= 1970
            &&& 1 <= m <= 12
            &&& 0 <= in_month < month_days(y, m)
            &&& days_before_year(y) + days_before_month(y, m) + in_month == days
        }),
{
    lemma_civil_year(days as int, 1970);
    let (y, in_year) = civil_year(days as int, 1970);
    lemma_civil_month(in_year, y, 1);
}

proof fn lemma_civil_year(days: int, y: int)
    requires
        days >= 0,
        y >= 1970,
    ensures
        civil_year(days, y).0 >= y,
        0 <= civil_year(days, y).1 < year_days(civil_year(days, y).0),
        days_before_year(civil_year(days, y).0) + civil_year(days, y).1 == days_before_year(y)
            + days,
    decreases days,
{
    if days >= year_days(y) {
        lemma_civil_year(days - year_days(y), y + 1);
    }
}

proof fn lemma_civil_month(days: int, y: int, m: int)
    requires
        1 <= m <= 12,
        0 <= days < year_days(y) - days_before_month(y, m),
    ensures
        1 <= civil_month(days, y, m).0 <= 12,
        0 <= civil_month(days, y, m).1 < month_days(y, civil_month(days, y, m).0),
        days_before_month(y, civil_month(days, y, m).0) + civil_month(days, y, m).1
            == days_before_month(y, m) + days,
    decreases days,
{
    reveal_with_fuel(days_before_month, 13);
    if days >= month_days(y, m) {
        lemma_civil_month(days - month_days(y, m), y, m + 1);
    }
}

/// Whether a year has a 29th of February.
fn is_leap(y: i64) -> (r: bool)
    requires
        y >= 0,
    ensures
        r == leap(y as int),
{
    (y % 4 == 0 && y % 100 != 0) || y % 400 == 0
}

/// The days of a year.
fn days_in_year(y: i64) -> (r: i64)
    requires
        y >= 0,
    ensures
        r == year_days(y as int),
{
    if is_leap(y) {
        366
    } else {
        365
    }
}

/// The days of a month of a year.
fn days_in_month(y: i64, m: i64) -> (r: i64)
    requires
        y >= 0,
    ensures
        r == month_days(y as int, m as int),
{
    match m {
        1 | 3 | 5 | 7 | 8 | 10 | 12 => 31,
        4 | 6 | 9 | 11 => 30,
        2 => if is_leap(y) {
            29
        } else {
            28
        },
        _ => 30,
    }
}

/// A moment, in seconds since the epoch, as `YYYY-MM-DDThh:mm:ssZ`.
pub fn fmt_iso8601(unix_secs: u64) -> (r: String)
    ensures
        r@ == iso_text(unix_secs as nat),
{
    let secs: u64 = unix_secs % 60;
    let mins: u64 = unix_secs / 60 % 60;
    let hours: u64 = unix_secs / 3600 % 24;
    let total: i64 = (unix_secs / 86400) as i64;
    let mut days: i64 = total;
    let mut year: i64 = 1970;
    let mut dy: i64 = days_in_year(year);
    while days >= dy
        invariant
            0 <= days <= total <= 0x1_0000_0000_0000,
            1970 <= year,
            (year - 1970) * 365 <= total - days,
            dy == year_days(year as int),
            civil_year(total as int, 1970) == civil_year(days as int, year as int),
        decreases days,
    {
        days = days - dy;
        year = year + 1;
        dy = days_in_year(year);
    }
    let ghost in_year = days as int;
    let mut month: i64 = 1;
    let mut dm: i64 = days_in_month(year, month);
    proof {
        date_counts_back(total as nat);
    }
    while days >= dm
        invariant
            0 <= days <= in_year < 400,
            year >= 1970,
            1 <= month <= 1 + in_year - days,
            dm == month_days(year as int, month as int),
            civil_month(in_year, year as int, 1) == civil_month(
                days as int,
                year as int,
                month as int,
            ),
        decreases days,
    {
        days = days - dm;
        month = month + 1;
        dm = days_in_month(year, month);
    }
    let mut s: String = String::new();
    push_padded(&mut s, year as u128, 4);
    s.append("-");
    push_padded(&mut s, month as u128, 2);
    s.append("-");
    push_padded(&mut s, (days + 1) as u128, 2);
    s.append("T");
    push_padded(&mut s, hours as u128, 2);
    s.append(":");
    push_padded(&mut s, mins as u128, 2);
    s.append(":");
    push_padded(&mut s, secs as u128, 2);
    s.append("Z");
    assert(s@ =~= iso_text(unix_secs as nat));
    s
}

/// Bytes in hexadecimal, two lowercase digits each.
pub open spec fn hex_of(bytes: Seq<u8>) -> Seq<char>
    decreases bytes.len(),
{
    if bytes.len() == 0 {
        Seq::empty()
    } else {
        hex_of(bytes.drop_last()) + hex_text(bytes.last() as nat, 2, 'a')
    }
}

/// Bytes in hexadecimal, two lowercase digits each.
pub fn hex_encode(bytes: &[u8]) -> (r: String)
    ensures
        r@ == hex_of(bytes@),
{
    let mut s: String = String::new();
    let mut i: usize = 0;
    assert(bytes@.take(0).len() == 0);
    while i < bytes.len()
        invariant
            i <= bytes@.len(),
            s@ == hex_of(bytes@.take(i as int)),
        decreases bytes@.len() - i,
    {
        push_hex(&mut s, bytes[i] as u64, 2, 'a');
        assert(bytes@.take(i + 1).drop_last() =~= bytes@.take(i as int));
        i = i + 1;
    }
    assert(bytes@.take(i as int) =~= bytes@);
    s
}

/// The word for a truth value.
pub open spec fn bool_text(b: bool) -> Seq<char> {
    if b {
        "true"@
    } else {
        "false"@
    }
}

/// The lines on the first `n` tools.
pub open spec fn tools_text(tools: Seq<ToolModel>, n: nat) -> Seq<char>
    decreases n,
{
    if n == 0 {
        Seq::empty()
    } else {
        tools_text(tools, (n - 1) as nat) + "    "@ + tools[n - 1].name + ": "@ + tools[n
            - 1].version + "\n"@
    }
}

/// The lines on the first `n` track entries.
pub open spec fn entries_text(entries: Seq<EntryModel>, n: nat) -> Seq<char>
    decreases n,
{
    if n == 0 {
        Seq::empty()
    } else {
        entries_text(entries, (n - 1) as nat) + "    track_id="@ + decimal(
            entries[n - 1].track_id as nat,
        ) + " ("@ + decimal(entries[n - 1].bytes.len()) + " bytes)\n"@
    }
}

/// The first `n` deltas, with commas between them.
pub open spec fn deltas_text(deltas: Seq<i64>, n: nat) -> Seq<char>
    decreases n,
{
    if n == 0 {
        Seq::empty()
    } else if n == 1 {
        signed_decimal(deltas[0] as int)
    } else {
        deltas_text(deltas, (n - 1) as nat) + ", "@ + signed_decimal(deltas[n - 1] as int)
    }
}

/// A row of the table of policies: eight columns.
pub open spec fn row_text(
    id: Seq<char>,
    kind: Seq<char>,
    lang: Seq<char>,
    vbr: Seq<char>,
    frames: Seq<char>,
    cbr: Seq<char>,
    raw: Seq<char>,
    vfr: Seq<char>,
) -> Seq<char> {
    "  "@ + space_padded(id, 10) + " "@ + space_padded(kind, 8) + " "@ + space_padded(lang, 6)
        + " "@ + space_padded(vbr, 6) + " "@ + space_padded(frames, 12) + " "@ + space_padded(
        cbr,
        14,
    ) + " "@ + space_padded(raw, 10) + " "@ + space_padded(vfr, 10) + "\n"@
}

/// The row of the table on a policy.
pub open spec fn policy_row(p: PolicyModel) -> Seq<char> {
    row_text(
        decimal(p.track_id as nat),
        match p.codec_type {
            CodecType::Video => "video"@,
            CodecType::Audio => "audio"@,
        },
        p.language_code,
        bool_text(p.is_vbr),
        decimal(p.frame_count as nat),
        match p.cbr_frame_size {
            Some(n) => decimal(n as nat),
            None => "-"@,
        },
        hex_of(p.raw_file_hash.take(4)),
        match p.vfr_file_hash {
            Some(h) => hex_of(h.take(4)),
            None => "-"@,
        },
    )
}

/// The rows of the table on the first `n` policies.
pub open spec fn policies_text(policies: Seq<PolicyModel>, n: nat) -> Seq<char>
    decreases n,
{
    if n == 0 {
        Seq::empty()
    } else {
        policies_text(policies, (n - 1) as nat) + policy_row(policies[n - 1])
    }
}

/// The lines on the header.
pub open spec fn header_text(m: BinstructModel) -> Seq<char> {
    "=== Header ===\n"@ + "  version:      "@ + decimal(m.header.version as nat) + "\n"@
        + "  config_flags: 0x"@ + hex_text(m.header.config_flags as nat, 2, 'A') + "\n"@
        + "  compressed:   "@ + bool_text(m.header.config_flags & 0x01 != 0) + "\n"@
}

/// The lines on the source.
pub open spec fn source_text(m: BinstructModel) -> Seq<char> {
    "\n=== Source ===\n"@ + "  original_mkv_hash:       "@ + hex_of(m.source.original_mkv_hash)
        + "\n"@ + "  publisher:               "@ + m.source.publisher_info + "\n"@
        + "  creation_timestamp:      "@ + decimal(m.source.creation_timestamp as nat) + " ("@
        + iso_text(m.source.creation_timestamp as nat / 1000) + ")\n"@
        + "  original_language:       "@ + m.source.original_language + "\n"@
        + "  original_default_track:  "@ + decimal(m.source.original_default_track_id as nat)
        + "\n"@ + "  build_tools:\n"@ + tools_text(
        m.source.build_tools,
        m.source.build_tools.len(),
    )
}

/// The lines on the skeleton.
pub open spec fn skeleton_text(m: BinstructModel) -> Seq<char> {
    let k = m.mkv_skeleton;
    "\n=== MkvSkeleton ===\n"@ + "  pre_tracks_blob:   "@ + decimal(k.pre_tracks_blob.len())
        + " bytes\n"@ + "  track_entries:     "@ + decimal(k.track_entries.len()) + " entries\n"@
        + entries_text(k.track_entries, k.track_entries.len()) + "  post_tracks_blob:  "@ + decimal(
        k.post_tracks_blob.len(),
    ) + " bytes\n"@
}

/// The lines on the times of the clusters.
pub open spec fn timestamps_text(m: BinstructModel) -> Seq<char> {
    let deltas = m.cluster_timestamps.deltas;
    "\n=== ClusterTimestamps ===\n"@ + "  cluster_count: "@ + decimal(
        m.cluster_timestamps.cluster_count as nat,
    ) + "\n"@ + "  first 5 deltas: ["@ + deltas_text(
        deltas,
        if deltas.len() < 5 {
            deltas.len()
        } else {
            5
        },
    ) + "]\n"@
}

/// The line under the head of the table of policies.
pub open spec fn rule_text() -> Seq<char> {
    Seq::new(86, |i: int| '-')
}

/// The table of policies.
pub open spec fn table_text(m: BinstructModel) -> Seq<char> {
    "\n=== TrackPolicies ===\n"@ + row_text(
        "track_id"@,
        "type"@,
        "lang"@,
        "vbr"@,
        "frame_count"@,
        "cbr_frame_sz"@,
        "raw_hash"@,
        "vfr_hash"@,
    ) + "  "@ + rule_text() + "\n"@ + policies_text(m.track_policies, m.track_policies.len())
}

/// A binstruct file for human readers.
pub open spec fn inspect_text(m: BinstructModel) -> Seq<char> {
    header_text(m) + source_text(m) + skeleton_text(m) + timestamps_text(m) + table_text(m)
}

fn bool_word(b: bool) -> (r: String)
    ensures
        r@ == bool_text(b),
{
    if b {
        "true".to_owned()
    } else {
        "false".to_owned()
    }
}

fn describe_header(b: &BinstructFile) -> (r: String)
    ensures
        r@ == header_text(b@),
{
    let mut s: String = "=== Header ===\n".to_owned();
    s.append("  version:      ");
    push_decimal(&mut s, b.header.version as u128);
    s.append("\n");
    s.append("  config_flags: 0x");
    push_hex(&mut s, b.header.config_flags as u64, 2, 'A');
    s.append("\n");
    s.append("  compressed:   ");
    let compressed: bool = b.header.config_flags & 0x01 != 0;
    s.append(bool_word(compressed).as_str());
    s.append("\n");
    s
}

fn push_tools(s: &mut String, tools: &Vec<ToolEntry>)
    ensures
        final(s)@ == old(s)@ + tools_text(tool_models(tools@), tools@.len()),
{
    let ghost start = s@;
    let ghost models = tool_models(tools@);
    let mut i: usize = 0;
    assert(s@ =~= start + tools_text(models, 0));
    while i < tools.len()
        invariant
            i <= tools@.len(),
            models == tool_models(tools@),
            s@ == start + tools_text(models, i as nat),
        decreases tools@.len() - i,
    {
        let t: &ToolEntry = &tools[i];
        assert(models[i as int] == t@);
        s.append("    ");
        s.append(t.name.as_str());
        s.append(": ");
        s.append(t.version.as_str());
        s.append("\n");
        i = i + 1;
        assert(s@ =~= start + tools_text(models, i as nat));
    }
}

fn describe_source(b: &BinstructFile) -> (r: String)
    ensures
        r@ == source_text(b@),
{
    let mut s: String = "\n=== Source ===\n".to_owned();
    s.append("  original_mkv_hash:       ");
    s.append(hex_encode(&b.source.original_mkv_hash).as_str());
    s.append("\n");
    s.append("  publisher:               ");
    s.append(b.source.publisher_info.as_str());
    s.append("\n");
    s.append("  creation_timestamp:      ");
    push_decimal(&mut s, b.source.creation_timestamp as u128);
    s.append(" (");
    s.append(fmt_iso8601(b.source.creation_timestamp / 1000).as_str());
    s.append(")\n");
    s.append("  original_language:       ");
    s.append(b.source.original_language.as_str());
    s.append("\n");
    s.append("  original_default_track:  ");
    push_decimal(&mut s, b.source.original_default_track_id as u128);
    s.append("\n");
    s.append("  build_tools:\n");
    push_tools(&mut s, &b.source.build_tools);
    s
}

fn push_entries(s: &mut String, entries: &Vec<TrackEntryRecord>)
    ensures
        final(s)@ == old(s)@ + entries_text(entry_models(entries@), entries@.len()),
{
    let ghost start = s@;
    let ghost models = entry_models(entries@);
    let mut i: usize = 0;
    assert(s@ =~= start + entries_text(models, 0));
    while i < entries.len()
        invariant
            i <= entries@.len(),
            models == entry_models(entries@),
            s@ == start + entries_text(models, i as nat),
        decreases entries@.len() - i,
    {
        let e: &TrackEntryRecord = &entries[i];
        assert(models[i as int] == e@);
        s.append("    track_id=");
        push_decimal(s, e.track_id as u128);
        s.append(" (");
        push_decimal(s, e.bytes.len() as u128);
        s.append(" bytes)\n");
        i = i + 1;
        assert(s@ =~= start + entries_text(models, i as nat));
    }
}

fn describe_skeleton(b: &BinstructFile) -> (r: String)
    ensures
        r@ == skeleton_text(b@),
{
    let mut s: String = "\n=== MkvSkeleton ===\n".to_owned();
    s.append("  pre_tracks_blob:   ");
    push_decimal(&mut s, b.mkv_skeleton.pre_tracks_blob.len() as u128);
    s.append(" bytes\n");
    s.append("  track_entries:     ");
    push_decimal(&mut s, b.mkv_skeleton.track_entries.len() as u128);
    s.append(" entries\n");
    push_entries(&mut s, &b.mkv_skeleton.track_entries);
    s.append("  post_tracks_blob:  ");
    push_decimal(&mut s, b.mkv_skeleton.post_tracks_blob.len() as u128);
    s.append(" bytes\n");
    s
}

fn describe_timestamps(b: &BinstructFile) -> (r: String)
    ensures
        r@ == timestamps_text(b@),
{
    let deltas: &Vec<i64> = &b.cluster_timestamps.deltas;
    let mut s: String = "\n=== ClusterTimestamps ===\n".to_owned();
    s.append("  cluster_count: ");
    push_decimal(&mut s, b.cluster_timestamps.cluster_count as u128);
    s.append("\n");
    s.append("  first 5 deltas: [");
    let ghost start = s@;
    let n: usize = if deltas.len() < 5 {
        deltas.len()
    } else {
        5
    };
    let mut i: usize = 0;
    assert(s@ =~= start + deltas_text(deltas@, 0));
    while i < n
        invariant
            i <= n <= deltas@.len(),
            s@ == start + deltas_text(deltas@, i as nat),
        decreases n - i,
    {
        if i > 0 {
            s.append(", ");
        }
        push_signed_decimal(&mut s, deltas[i] as i128);
        i = i + 1;
        assert(s@ =~= start + deltas_text(deltas@, i as nat));
    }
    s.append("]\n");
    s
}

fn push_row(
    s: &mut String,
    id: &str,
    kind: &str,
    lang: &str,
    vbr: &str,
    frames: &str,
    cbr: &str,
    raw: &str,
    vfr: &str,
)
    ensures
        final(s)@ == old(s)@ + row_text(id@, kind@, lang@, vbr@, frames@, cbr@, raw@, vfr@),
{
    s.append("  ");
    push_column(s, id, 10);
    s.append(" ");
    push_column(s, kind, 8);
    s.append(" ");
    push_column(s, lang, 6);
    s.append(" ");
    push_column(s, vbr, 6);
    s.append(" ");
    push_column(s, frames, 12);
    s.append(" ");
    push_column(s, cbr, 14);
    s.append(" ");
    push_column(s, raw, 10);
    s.append(" ");
    push_column(s, vfr, 10);
    s.append("\n");
    assert(s@ =~= old(s)@ + row_text(id@, kind@, lang@, vbr@, frames@, cbr@, raw@, vfr@));
}

/// The beginning of a digest.
fn short_hash(hash: &[u8; 32]) -> (r: String)
    ensures
        r@ == hex_of(hash@.take(4)),
{
    let all: &[u8] = hash.as_slice();
    assert(all@.subrange(0, 4) =~= hash@.take(4));
    hex_encode(&all[0..4])
}

fn push_policy(s: &mut String, p: &TrackPolicy)
    ensures
        final(s)@ == old(s)@ + policy_row(p@),
{
    let id: String = decimal_text(p.track_id as u128);
    let kind: &str = match p.codec_type {
        CodecType::Video => "video",
        CodecType::Audio => "audio",
    };
    let vbr: String = bool_word(p.is_vbr);
    let frames: String = decimal_text(p.frame_count as u128);
    let cbr: String = match p.cbr_frame_size {
        Some(n) => decimal_text(n as u128),
        None => "-".to_owned(),
    };
    let raw: String = short_hash(&p.raw_file_hash);
    let vfr: String = match &p.vfr_file_hash {
        Some(h) => short_hash(h),
        None => "-".to_owned(),
    };
    push_row(
        s,
        id.as_str(),
        kind,
        p.language_code.as_str(),
        vbr.as_str(),
        frames.as_str(),
        cbr.as_str(),
        raw.as_str(),
        vfr.as_str(),
    );
}

fn describe_policies(b: &BinstructFile) -> (r: String)
    ensures
        r@ == table_text(b@),
{
    let mut s: String = "\n=== TrackPolicies ===\n".to_owned();
    push_row(
        &mut s,
        "track_id",
        "type",
        "lang",
        "vbr",
        "frame_count",
        "cbr_frame_sz",
        "raw_hash",
        "vfr_hash",
    );
    s.append("  ");
    let ghost before = s@;
    let mut k: usize = 0;
    assert(s@ =~= before + Seq::new(0, |i: int| '-'));
    while k < 86
        invariant
            k <= 86,
            s@ == before + Seq::new(k as nat, |i: int| '-'),
        decreases 86 - k,
    {
        s.push('-');
        k = k + 1;
        assert(s@ =~= before + Seq::new(k as nat, |i: int| '-'));
    }
    assert(s@ =~= before + rule_text());
    s.append("\n");
    let policies: &Vec<TrackPolicy> = &b.track_policies;
    let ghost start = s@;
    let ghost models = policy_models(policies@);
    let mut i: usize = 0;
    assert(s@ =~= start + policies_text(models, 0));
    while i < policies.len()
        invariant
            i <= policies@.len(),
            models == policy_models(policies@),
            s@ == start + policies_text(models, i as nat),
        decreases policies@.len() - i,
    {
        assert(models[i as int] == policies@[i as int]@);
        push_policy(&mut s, &policies[i]);
        i = i + 1;
        assert(s@ =~= start + policies_text(models, i as nat));
    }
    s
}

/// A binstruct file for human readers.
pub fn describe(b: &BinstructFile) -> (r: String)
    ensures
        r@ == inspect_text(b@),
{
    let mut s: String = describe_header(b);
    s.append(describe_source(b).as_str());
    s.append(describe_skeleton(b).as_str());
    s.append(describe_timestamps(b).as_str());
    s.append(describe_policies(b).as_str());
    s
}

} // verus!
