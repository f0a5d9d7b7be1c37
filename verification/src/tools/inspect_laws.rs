//! What the inspector prints: values that can be read back, each behind its label.
use crate::binstruct::{BinstructModel, CodecType, EntryModel, PolicyModel, ToolModel};
use crate::parsers::common::CbrInfo;
use crate::spelling::{lemma_hex_of, padded_number_reads_back};
use crate::text::{
    decimal, digits_value, hex_text, matches_at, signed_decimal, space_padded, zero_padded,
};
use crate::tools::inspect::{
    bool_text, civil_month, civil_year, date_counts_back, days_before_month, days_before_year,
    deltas_text, entries_text, header_text, hex_of, inspect_text, iso_text, month_days,
    policies_text, policy_row, row_text, skeleton_text, source_text, table_text, timestamps_text,
    tools_text,
};
use crate::tools::laws::stands_in;
use vstd::prelude::*;
use vstd::string::*;

verus! {

/// The days before a year in closed form: 365 a year, one more for each fourth, none for each
/// hundredth, one for each four-hundredth.
pub proof fn years_are_gregorian(y: int)
    requires
        y >= 1970,
    ensures
        days_before_year(y) == 365 * (y - 1970) + (y - 1) / 4 - (y - 1) / 100 + (y - 1) / 400 - 477,
    decreases y,
{
    if y > 1970 {
        years_are_gregorian(y - 1);
    }
}

/// The days before a month: those of the months before it, with February a day longer in a
/// leap year.
pub proof fn months_are_gregorian(y: int, m: int)
    requires
        1 <= m <= 12,
    ensures
        ({
            let ends = seq![0int, 31, 59, 90, 120, 151, 181, 212, 243, 273, 304, 334];
            let leaps = (y % 4 == 0 && y % 100 != 0) || y % 400 == 0;
            days_before_month(y, m) == ends[m - 1] + (if leaps && m > 2 {
                1int
            } else {
                0int
            })
        }),
{
    reveal_with_fuel(days_before_month, 13);
}

/// A printed moment reads back: its date counts the days since the epoch, and its time the
/// seconds of the day.
pub proof fn moments_read_back(secs: nat)
    ensures
        ({
            let t = iso_text(secs);
            let n = t.len() as int;
            &&& n >= 20
            &&& t[n - 1] == 'Z' && t[n - 4] == ':' && t[n - 7] == ':' && t[n - 10] == 'T' && t[n - 13]
                == '-' && t[n - 16] == '-'
            &&& digits_value(t.take(n - 16)) matches Some(y) && (digits_value(
                t.subrange(n - 15, n - 13),
            ) matches Some(m) && (digits_value(t.subrange(n - 12, n - 10)) matches Some(d) && (
            digits_value(t.subrange(n - 9, n - 7)) matches Some(h) && (digits_value(
                t.subrange(n - 6, n - 4),
            ) matches Some(mi) && (digits_value(t.subrange(n - 3, n - 1)) matches Some(s) && {
                &&& h < 24 && mi < 60 && s < 60
                &&& 1 <= m <= 12
                &&& 1 <= d <= month_days(y as int, m as int)
                &&& secs == (days_before_year(y as int) + days_before_month(y as int, m as int) + d
                    - 1) * 86400 + h * 3600 + mi * 60 + s
            })))))
        }),
{
    let days = secs / 86400;
    let (y, in_year) = civil_year(days as int, 1970);
    let (m, in_month) = civil_month(in_year, y, 1);
    date_counts_back(days);
    assert(month_days(y, m) <= 31);
    let a = zero_padded(decimal(y as nat), 4);
    let b = zero_padded(decimal(m as nat), 2);
    let c = zero_padded(decimal((in_month + 1) as nat), 2);
    let d = zero_padded(decimal(secs / 3600 % 24), 2);
    let e = zero_padded(decimal(secs / 60 % 60), 2);
    let f = zero_padded(decimal(secs % 60), 2);
    padded_number_reads_back(y as nat, 4);
    lemma_two(m as nat);
    lemma_two((in_month + 1) as nat);
    lemma_two(secs / 3600 % 24);
    lemma_two(secs / 60 % 60);
    lemma_two(secs % 60);
    lemma_moment(a, b, c, d, e, f);
    lemma_seconds(secs);
}

/// A moment counts its days, hours, minutes and seconds.
proof fn lemma_seconds(secs: nat)
    ensures
        secs == secs / 86400 * 86400 + secs / 3600 % 24 * 3600 + secs / 60 % 60 * 60 + secs % 60,
{
}

/// The parts of a printed moment stand at fixed places from its end.
proof fn lemma_moment(
    a: Seq<char>,
    b: Seq<char>,
    c: Seq<char>,
    d: Seq<char>,
    e: Seq<char>,
    f: Seq<char>,
)
    requires
        b.len() == 2,
        c.len() == 2,
        d.len() == 2,
        e.len() == 2,
        f.len() == 2,
    ensures
        ({
            let t = a + "-"@ + b + "-"@ + c + "T"@ + d + ":"@ + e + ":"@ + f + "Z"@;
            let n = t.len() as int;
            &&& n == a.len() + 16
            &&& t[n - 1] == 'Z' && t[n - 4] == ':' && t[n - 7] == ':' && t[n - 10] == 'T' && t[n
                - 13] == '-' && t[n - 16] == '-'
            &&& t.take(n - 16) == a
            &&& t.subrange(n - 15, n - 13) == b
            &&& t.subrange(n - 12, n - 10) == c
            &&& t.subrange(n - 9, n - 7) == d
            &&& t.subrange(n - 6, n - 4) == e
            &&& t.subrange(n - 3, n - 1) == f
        }),
{
    reveal_strlit("-");
    reveal_strlit("T");
    reveal_strlit(":");
    reveal_strlit("Z");
    let t = a + "-"@ + b + "-"@ + c + "T"@ + d + ":"@ + e + ":"@ + f + "Z"@;
    let k = a.len() as int;
    assert(t.take(k) =~= a);
    assert(t.subrange(k + 1, k + 3) =~= b);
    assert(t.subrange(k + 4, k + 6) =~= c);
    assert(t.subrange(k + 7, k + 9) =~= d);
    assert(t.subrange(k + 10, k + 12) =~= e);
    assert(t.subrange(k + 13, k + 15) =~= f);
}

proof fn lemma_two(n: nat)
    requires
        n < 100,
    ensures
        zero_padded(decimal(n), 2).len() == 2,
        digits_value(zero_padded(decimal(n), 2)) == Some(n),
{
    padded_number_reads_back(n, 2);
    reveal_with_fuel(decimal, 3);
}

/// The first eight digits of a digest are those of its first four bytes.
pub proof fn short_digests_begin_the_digest(h: Seq<u8>)
    requires
        h.len() >= 4,
    ensures
        hex_of(h.take(4)) == hex_of(h).take(8),
{
    lemma_hex_of(h);
    lemma_hex_of(h.take(4));
    let a = hex_of(h.take(4));
    let b = hex_of(h).take(8);
    assert forall|k: int| 0 <= k < 8 implies a[k] == b[k] by {
        let i = k / 2;
        assert(h.take(4)[i] == h[i]);
        assert(k == 2 * i || k == 2 * i + 1);
    }
    assert(a =~= b);
}

/// A text with spaces behind it up to a width.
pub open spec fn fills(s: Seq<char>, width: int, col: Seq<char>) -> bool {
    &&& col.len() == width
    &&& s.len() <= width
    &&& col.take(s.len() as int) == s
    &&& forall|i: int| s.len() <= i < width ==> #[trigger] col[i] == ' '
}

proof fn lemma_fills(s: Seq<char>, width: nat)
    requires
        s.len() <= width,
    ensures
        fills(s, width as int, space_padded(s, width)),
    decreases width - s.len(),
{
    if s.len() < width {
        lemma_fills(s.push(' '), width);
        let col = space_padded(s, width);
        assert(col.take(s.len() as int) =~= col.take(s.len() as int + 1).take(s.len() as int));
        assert(s.push(' ').take(s.len() as int) =~= s);
        assert(col[s.len() as int] == col.take(s.len() as int + 1)[s.len() as int]);
    } else {
        assert(s.take(s.len() as int) =~= s);
    }
}

/// The columns of a row stand at fixed places, where none is longer than its width.
pub proof fn rows_have_fixed_columns(cols: Seq<Seq<char>>)
    requires
        cols.len() == 8,
        cols[0].len() <= 10,
        cols[1].len() <= 8,
        cols[2].len() <= 6,
        cols[3].len() <= 6,
        cols[4].len() <= 12,
        cols[5].len() <= 14,
        cols[6].len() <= 10,
        cols[7].len() <= 10,
    ensures
        ({
            let r = row_text(
                cols[0],
                cols[1],
                cols[2],
                cols[3],
                cols[4],
                cols[5],
                cols[6],
                cols[7],
            );
            &&& r.len() == 86
            &&& r.last() == '\n'
            &&& fills(cols[0], 10, r.subrange(2, 12))
            &&& fills(cols[1], 8, r.subrange(13, 21))
            &&& fills(cols[2], 6, r.subrange(22, 28))
            &&& fills(cols[3], 6, r.subrange(29, 35))
            &&& fills(cols[4], 12, r.subrange(36, 48))
            &&& fills(cols[5], 14, r.subrange(49, 63))
            &&& fills(cols[6], 10, r.subrange(64, 74))
            &&& fills(cols[7], 10, r.subrange(75, 85))
        }),
{
    lemma_fills(cols[0], 10);
    lemma_fills(cols[1], 8);
    lemma_fills(cols[2], 6);
    lemma_fills(cols[3], 6);
    lemma_fills(cols[4], 12);
    lemma_fills(cols[5], 14);
    lemma_fills(cols[6], 10);
    lemma_fills(cols[7], 10);
    reveal_strlit("  ");
    reveal_strlit(" ");
    reveal_strlit("\n");
    let r = row_text(cols[0], cols[1], cols[2], cols[3], cols[4], cols[5], cols[6], cols[7]);
    assert(r.subrange(2, 12) =~= space_padded(cols[0], 10));
    assert(r.subrange(13, 21) =~= space_padded(cols[1], 8));
    assert(r.subrange(22, 28) =~= space_padded(cols[2], 6));
    assert(r.subrange(29, 35) =~= space_padded(cols[3], 6));
    assert(r.subrange(36, 48) =~= space_padded(cols[4], 12));
    assert(r.subrange(49, 63) =~= space_padded(cols[5], 14));
    assert(r.subrange(64, 74) =~= space_padded(cols[6], 10));
    assert(r.subrange(75, 85) =~= space_padded(cols[7], 10));
}

/// The columns of a policy: its track, its kind, its language, whether its frames differ,
/// their number, their size, and the beginnings of its digests; a dash for what is not there.
pub open spec fn policy_columns(p: PolicyModel) -> Seq<Seq<char>> {
    seq![
        decimal(p.track_id as nat),
        if p.codec_type == CodecType::Video {
            "video"@
        } else {
            "audio"@
        },
        p.language_code,
        if p.is_vbr {
            "true"@
        } else {
            "false"@
        },
        decimal(p.frame_count as nat),
        match p.cbr_frame_size {
            Some(n) => decimal(n as nat),
            None => "-"@,
        },
        hex_of(p.raw_file_hash).take(8),
        match p.vfr_file_hash {
            Some(h) => hex_of(h).take(8),
            None => "-"@,
        },
    ]
}

/// The row of a policy has those columns.
pub proof fn rows_tell_the_policy(p: PolicyModel)
    requires
        p.raw_file_hash.len() >= 4,
        p.vfr_file_hash matches Some(h) ==> h.len() >= 4,
    ensures
        ({
            let c = policy_columns(p);
            policy_row(p) == row_text(c[0], c[1], c[2], c[3], c[4], c[5], c[6], c[7])
        }),
{
    short_digests_begin_the_digest(p.raw_file_hash);
    if let Some(h) = p.vfr_file_hash {
        short_digests_begin_the_digest(h);
    }
}

/// Whether a line with a label and a value stands in a text.
pub open spec fn tells(text: Seq<char>, label: Seq<char>, value: Seq<char>) -> bool {
    stands_in(text, label + value + "\n"@)
}

/// A line stands where it is appended, and those before it stay.
proof fn lemma_line(p: Seq<char>, label: Seq<char>, value: Seq<char>)
    ensures
        tells(p + label + value + "\n"@, label, value),
        forall|q: Seq<char>| #[trigger] stands_in(p, q) ==> stands_in(
            p + label + value + "\n"@,
            q,
        ),
{
    let nl = "\n"@;
    let line = label + value + nl;
    let t = p + label + value + nl;
    assert(t.subrange(p.len() as int, p.len() as int + line.len()) =~= line);
    assert(matches_at(t, line, p.len() as int));
    assert forall|q: Seq<char>| #[trigger] stands_in(p, q) implies stands_in(t, q) by {
        let k = choose|k: int| #[trigger] matches_at(p, q, k);
        assert(t.subrange(k, k + q.len()) =~= p.subrange(k, k + q.len()));
        assert(matches_at(t, q, k));
    }
}

/// What stands in a part stands in the whole.
proof fn lemma_within(a: Seq<char>, b: Seq<char>, q: Seq<char>)
    ensures
        stands_in(a, q) ==> stands_in(a + b, q),
        stands_in(b, q) ==> stands_in(a + b, q),
{
    if stands_in(a, q) {
        let k = choose|k: int| #[trigger] matches_at(a, q, k);
        assert((a + b).subrange(k, k + q.len()) =~= a.subrange(k, k + q.len()));
        assert(matches_at(a + b, q, k));
    }
    if stands_in(b, q) {
        let k = choose|k: int| #[trigger] matches_at(b, q, k);
        let j = a.len() + k;
        assert((a + b).subrange(j, j + q.len()) =~= b.subrange(k, k + q.len()));
        assert(matches_at(a + b, q, j));
    }
}

/// The header is printed line by line: version, flags in hexadecimal, and whether the file is
/// compressed, which the lowest flag tells.
pub proof fn header_lines_tell_their_values(m: BinstructModel)
    ensures
        ({
            let t = header_text(m);
            &&& tells(t, "  version:      "@, decimal(m.header.version as nat))
            &&& tells(t, "  config_flags: 0x"@, hex_text(m.header.config_flags as nat, 2, 'A'))
            &&& tells(
                t,
                "  compressed:   "@,
                if m.header.config_flags % 2 == 1 {
                    "true"@
                } else {
                    "false"@
                },
            )
        }),
{
    let f = m.header.config_flags;
    assert((f & 0x01 != 0) == (f % 2 == 1)) by (bit_vector);
    let p0 = "=== Header ===\n"@;
    let v1 = decimal(m.header.version as nat);
    let v2 = hex_text(f as nat, 2, 'A');
    let v3 = bool_text(f & 0x01 != 0);
    let p1 = p0 + "  version:      "@ + v1 + "\n"@;
    let p2 = p1 + "  config_flags: 0x"@ + v2 + "\n"@;
    lemma_line(p0, "  version:      "@, v1);
    lemma_line(p1, "  config_flags: 0x"@, v2);
    lemma_line(p2, "  compressed:   "@, v3);
    assert(stands_in(p1, "  version:      "@ + v1 + "\n"@));
    assert(stands_in(p2, "  version:      "@ + v1 + "\n"@));
    assert(stands_in(p2, "  config_flags: 0x"@ + v2 + "\n"@));
}

/// The source is printed line by line, the digest in hexadecimal and the time, in milliseconds,
/// also as a date.
pub proof fn source_lines_tell_their_values(m: BinstructModel)
    ensures
        ({
            let t = source_text(m);
            let s = m.source;
            &&& tells(t, "  original_mkv_hash:       "@, hex_of(s.original_mkv_hash))
            &&& tells(t, "  publisher:               "@, s.publisher_info)
            &&& stands_in(
                t,
                "  creation_timestamp:      "@ + decimal(s.creation_timestamp as nat) + " ("@
                    + iso_text(s.creation_timestamp as nat / 1000) + ")\n"@,
            )
            &&& tells(t, "  original_language:       "@, s.original_language)
            &&& tells(
                t,
                "  original_default_track:  "@,
                decimal(s.original_default_track_id as nat),
            )
        }),
{
    let s = m.source;
    let nl = "\n"@;
    let p0 = "\n=== Source ===\n"@;
    let v1 = hex_of(s.original_mkv_hash);
    let v2 = s.publisher_info;
    let v4 = s.original_language;
    let v5 = decimal(s.original_default_track_id as nat);
    let c1 = decimal(s.creation_timestamp as nat);
    let c2 = iso_text(s.creation_timestamp as nat / 1000);
    let l1 = "  original_mkv_hash:       "@ + v1 + nl;
    let l2 = "  publisher:               "@ + v2 + nl;
    let l3 = "  creation_timestamp:      "@ + c1 + " ("@ + c2 + ")\n"@;
    let l4 = "  original_language:       "@ + v4 + nl;
    let l5 = "  original_default_track:  "@ + v5 + nl;
    let p1 = p0 + "  original_mkv_hash:       "@ + v1 + nl;
    let p2 = p1 + "  publisher:               "@ + v2 + nl;
    let p3 = p2 + "  creation_timestamp:      "@ + c1 + " ("@ + c2 + ")\n"@;
    let p4 = p3 + "  original_language:       "@ + v4 + nl;
    let p5 = p4 + "  original_default_track:  "@ + v5 + nl;
    lemma_line(p0, "  original_mkv_hash:       "@, v1);
    assert(stands_in(p1, l1));
    lemma_line(p1, "  publisher:               "@, v2);
    assert(stands_in(p2, l1) && stands_in(p2, l2));
    assert(p3 =~= p2 + l3);
    lemma_within(p2, l3, l1);
    lemma_within(p2, l3, l2);
    lemma_within(p2, l3, l3);
    assert(stands_in(l3, l3)) by {
        assert(l3.subrange(0, l3.len() as int) =~= l3);
        assert(matches_at(l3, l3, 0));
    }
    lemma_line(p3, "  original_language:       "@, v4);
    assert(stands_in(p4, l1) && stands_in(p4, l2) && stands_in(p4, l3) && stands_in(p4, l4));
    lemma_line(p4, "  original_default_track:  "@, v5);
    assert(stands_in(p5, l1) && stands_in(p5, l2) && stands_in(p5, l3) && stands_in(p5, l4)
        && stands_in(p5, l5));
    let tools = tools_text(s.build_tools, s.build_tools.len());
    let rest = "  build_tools:\n"@ + tools;
    assert(source_text(m) =~= p5 + rest);
    lemma_within(p5, rest, l1);
    lemma_within(p5, rest, l2);
    lemma_within(p5, rest, l3);
    lemma_within(p5, rest, l4);
    lemma_within(p5, rest, l5);
}

/// A line with any end stands where it is appended, and those before it stay.
proof fn lemma_ended(p: Seq<char>, label: Seq<char>, value: Seq<char>, end: Seq<char>)
    ensures
        stands_in(p + label + value + end, label + value + end),
        forall|q: Seq<char>| #[trigger] stands_in(p, q) ==> stands_in(p + label + value + end, q),
{
    let line = label + value + end;
    let t = p + label + value + end;
    assert(t.subrange(p.len() as int, p.len() as int + line.len()) =~= line);
    assert(matches_at(t, line, p.len() as int));
    assert forall|q: Seq<char>| #[trigger] stands_in(p, q) implies stands_in(t, q) by {
        let k = choose|k: int| #[trigger] matches_at(p, q, k);
        assert(t.subrange(k, k + q.len()) =~= p.subrange(k, k + q.len()));
        assert(matches_at(t, q, k));
    }
}

/// The skeleton is printed with the lengths of its parts.
pub proof fn skeleton_lines_tell_their_values(m: BinstructModel)
    ensures
        ({
            let t = skeleton_text(m);
            let k = m.mkv_skeleton;
            &&& stands_in(
                t,
                "  pre_tracks_blob:   "@ + decimal(k.pre_tracks_blob.len()) + " bytes\n"@,
            )
            &&& stands_in(
                t,
                "  track_entries:     "@ + decimal(k.track_entries.len()) + " entries\n"@,
            )
            &&& stands_in(
                t,
                "  post_tracks_blob:  "@ + decimal(k.post_tracks_blob.len()) + " bytes\n"@,
            )
        }),
{
    let k = m.mkv_skeleton;
    let p0 = "\n=== MkvSkeleton ===\n"@;
    let v1 = decimal(k.pre_tracks_blob.len());
    let v2 = decimal(k.track_entries.len());
    let v3 = decimal(k.post_tracks_blob.len());
    let l1 = "  pre_tracks_blob:   "@ + v1 + " bytes\n"@;
    let l2 = "  track_entries:     "@ + v2 + " entries\n"@;
    let p1 = p0 + "  pre_tracks_blob:   "@ + v1 + " bytes\n"@;
    let p2 = p1 + "  track_entries:     "@ + v2 + " entries\n"@;
    let list = entries_text(k.track_entries, k.track_entries.len());
    let p3 = p2 + list;
    lemma_ended(p0, "  pre_tracks_blob:   "@, v1, " bytes\n"@);
    assert(stands_in(p1, l1));
    lemma_ended(p1, "  track_entries:     "@, v2, " entries\n"@);
    assert(stands_in(p2, l1) && stands_in(p2, l2));
    lemma_within(p2, list, l1);
    lemma_within(p2, list, l2);
    lemma_ended(p3, "  post_tracks_blob:  "@, v3, " bytes\n"@);
}

/// The times of the clusters are printed with their count, and the first five deltas.
pub proof fn timestamp_lines_tell_their_values(m: BinstructModel)
    ensures
        ({
            let t = timestamps_text(m);
            let d = m.cluster_timestamps.deltas;
            &&& tells(t, "  cluster_count: "@, decimal(m.cluster_timestamps.cluster_count as nat))
            &&& d.len() == 0 ==> stands_in(t, "  first 5 deltas: ["@ + Seq::empty() + "]\n"@)
            &&& d.len() == 1 ==> stands_in(
                t,
                "  first 5 deltas: ["@ + signed_decimal(d[0] as int) + "]\n"@,
            )
            &&& d.len() == 2 ==> stands_in(
                t,
                "  first 5 deltas: ["@ + (signed_decimal(d[0] as int) + ", "@ + signed_decimal(
                    d[1] as int,
                )) + "]\n"@,
            )
            &&& d.len() >= 5 ==> stands_in(
                t,
                "  first 5 deltas: ["@ + (signed_decimal(d[0] as int) + ", "@ + signed_decimal(
                    d[1] as int,
                ) + ", "@ + signed_decimal(d[2] as int) + ", "@ + signed_decimal(d[3] as int)
                    + ", "@ + signed_decimal(d[4] as int)) + "]\n"@,
            )
        }),
{
    let d = m.cluster_timestamps.deltas;
    let p0 = "\n=== ClusterTimestamps ===\n"@;
    let v1 = decimal(m.cluster_timestamps.cluster_count as nat);
    let n: nat = if d.len() < 5 {
        d.len()
    } else {
        5
    };
    let v2 = deltas_text(d, n);
    let p1 = p0 + "  cluster_count: "@ + v1 + "\n"@;
    lemma_line(p0, "  cluster_count: "@, v1);
    assert(stands_in(p1, "  cluster_count: "@ + v1 + "\n"@));
    lemma_ended(p1, "  first 5 deltas: ["@, v2, "]\n"@);
    reveal_with_fuel(deltas_text, 6);
}

/// Every tool, every track entry and every policy has its line.
pub proof fn lists_have_a_line_for_each(m: BinstructModel, k: int)
    ensures
        0 <= k < m.source.build_tools.len() ==> stands_in(
            tools_text(m.source.build_tools, m.source.build_tools.len()),
            "    "@ + m.source.build_tools[k].name + ": "@ + m.source.build_tools[k].version
                + "\n"@,
        ),
        0 <= k < m.mkv_skeleton.track_entries.len() ==> stands_in(
            entries_text(m.mkv_skeleton.track_entries, m.mkv_skeleton.track_entries.len()),
            "    track_id="@ + decimal(m.mkv_skeleton.track_entries[k].track_id as nat) + " ("@
                + decimal(m.mkv_skeleton.track_entries[k].bytes.len()) + " bytes)\n"@,
        ),
        0 <= k < m.track_policies.len() ==> stands_in(
            policies_text(m.track_policies, m.track_policies.len()),
            policy_row(m.track_policies[k]),
        ),
{
    if 0 <= k < m.source.build_tools.len() {
        lemma_tool_line(m.source.build_tools, m.source.build_tools.len(), k);
    }
    if 0 <= k < m.mkv_skeleton.track_entries.len() {
        lemma_entry_line(m.mkv_skeleton.track_entries, m.mkv_skeleton.track_entries.len(), k);
    }
    if 0 <= k < m.track_policies.len() {
        lemma_policy_line(m.track_policies, m.track_policies.len(), k);
    }
}

proof fn lemma_itself(s: Seq<char>)
    ensures
        stands_in(s, s),
{
    assert(s.subrange(0, s.len() as int) =~= s);
    assert(matches_at(s, s, 0));
}

proof fn lemma_tool_line(tools: Seq<ToolModel>, n: nat, k: int)
    requires
        0 <= k < n <= tools.len(),
    ensures
        stands_in(
            tools_text(tools, n),
            "    "@ + tools[k].name + ": "@ + tools[k].version + "\n"@,
        ),
    decreases n,
{
    let line = "    "@ + tools[k].name + ": "@ + tools[k].version + "\n"@;
    let last = "    "@ + tools[n - 1].name + ": "@ + tools[n - 1].version + "\n"@;
    let before = tools_text(tools, (n - 1) as nat);
    assert(tools_text(tools, n) =~= before + last);
    lemma_within(before, last, line);
    if k < n - 1 {
        lemma_tool_line(tools, (n - 1) as nat, k);
    } else {
        lemma_itself(line);
    }
}

proof fn lemma_entry_line(entries: Seq<EntryModel>, n: nat, k: int)
    requires
        0 <= k < n <= entries.len(),
    ensures
        stands_in(
            entries_text(entries, n),
            "    track_id="@ + decimal(entries[k].track_id as nat) + " ("@ + decimal(
                entries[k].bytes.len(),
            ) + " bytes)\n"@,
        ),
    decreases n,
{
    let line = "    track_id="@ + decimal(entries[k].track_id as nat) + " ("@ + decimal(
        entries[k].bytes.len(),
    ) + " bytes)\n"@;
    let last = "    track_id="@ + decimal(entries[n - 1].track_id as nat) + " ("@ + decimal(
        entries[n - 1].bytes.len(),
    ) + " bytes)\n"@;
    let before = entries_text(entries, (n - 1) as nat);
    assert(entries_text(entries, n) =~= before + last);
    lemma_within(before, last, line);
    if k < n - 1 {
        lemma_entry_line(entries, (n - 1) as nat, k);
    } else {
        lemma_itself(line);
    }
}

proof fn lemma_policy_line(policies: Seq<PolicyModel>, n: nat, k: int)
    requires
        0 <= k < n <= policies.len(),
    ensures
        stands_in(policies_text(policies, n), policy_row(policies[k])),
    decreases n,
{
    let before = policies_text(policies, (n - 1) as nat);
    lemma_within(before, policy_row(policies[n - 1]), policy_row(policies[k]));
    if k < n - 1 {
        lemma_policy_line(policies, (n - 1) as nat, k);
    } else {
        lemma_itself(policy_row(policies[k]));
    }
}

/// What an indexer tells of equal frames is one object with their number, size and duration,
/// and the language.
pub proof fn cbr_json_tells_the_frames(info: CbrInfo)
    ensures
        info.json() == "{\"is_vbr\": false, \"frame_count\": "@ + decimal(info.frame_count as nat)
            + (", \"cbr_frame_size\": "@ + decimal(info.cbr_frame_size as nat)) + (
        ", \"frame_duration_ns\": "@ + decimal(info.frame_duration_ns as nat)) + (
        ", \"language\": \""@ + info.language@ + "\"}\n"@),
{
    let a = "{\"is_vbr\": false, \"frame_count\": "@ + decimal(info.frame_count as nat);
    assert(info.json() =~= a + (", \"cbr_frame_size\": "@ + decimal(info.cbr_frame_size as nat)) + (
    ", \"frame_duration_ns\": "@ + decimal(info.frame_duration_ns as nat)) + (
    ", \"language\": \""@ + info.language@ + "\"}\n"@));
}

/// The whole text is the header, the source, the skeleton, the times and the table.
pub proof fn inspection_has_five_parts(m: BinstructModel, q: Seq<char>)
    ensures
        stands_in(header_text(m), q) || stands_in(source_text(m), q) || stands_in(
            skeleton_text(m),
            q,
        ) || stands_in(timestamps_text(m), q) || stands_in(table_text(m), q) ==> stands_in(
            inspect_text(m),
            q,
        ),
{
    let a = header_text(m);
    let b = source_text(m);
    let c = skeleton_text(m);
    let d = timestamps_text(m);
    let e = table_text(m);
    lemma_within(a, b, q);
    lemma_within(a + b, c, q);
    lemma_within(a + b + c, d, q);
    lemma_within(a + b + c + d, e, q);
}

} // verus!
