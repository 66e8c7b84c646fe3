//! Byte-level guards run on a font file before it is handed to the font
//! parser: a collection header must be able to hold the faces it claims,
//! and the `cmap` tables of its faces must not declare an unbounded number
//! of codepoints (reading a face lists every one of them).

use vstd::prelude::*;

use crate::fmt::{decimal, hex_upper, push_numeral, push_str, string_from_chars};
use rustc_hash::FxHashMap;

use crate::fxmap::{fx_get, fx_insert};

verus! {

/// The most faces read from a single file.
pub const MAX_FACES: u32 = 256;

/// The most codepoints one face's `cmap` subtables may declare, summed:
/// four times the Unicode range.
pub const MAX_FACE_CODEPOINTS: u64 = 0x44_0000;

/// The most codepoints all faces of one file may declare, summed: sixteen
/// times the Unicode range.
pub const MAX_FILE_CODEPOINTS: u64 = 0x110_0000;

/// The tag `cmap` as a big-endian number.
pub const CMAP_TAG: u32 = 0x636D_6170;

/// The greatest codepoint.
pub const MAX_CODEPOINT: u32 = 0x10_FFFF;

// ---------------------------------------------------------------------------
// Reading big-endian integers

/// The big-endian `u16` at byte `at`, if the two bytes are there.
pub open spec fn be_u16(data: Seq<u8>, at: int) -> Option<u16> {
    if 0 <= at && at + 2 <= data.len() {
        Some((data[at] * 256 + data[at + 1]) as u16)
    } else {
        None
    }
}

/// The big-endian `u32` at byte `at`, if the four bytes are there.
pub open spec fn be_u32(data: Seq<u8>, at: int) -> Option<u32> {
    if 0 <= at && at + 4 <= data.len() {
        Some(
            (data[at] * 0x100_0000 + data[at + 1] * 0x1_0000 + data[at + 2] * 0x100
                + data[at + 3]) as u32,
        )
    } else {
        None
    }
}

/// Reads the big-endian `u16` at byte offset `at`.
pub fn read_u16(data: &[u8], at: usize) -> (r: Option<u16>)
    ensures
        r == be_u16(data@, at as int),
{
    if at <= data.len() && data.len() - at >= 2 {
        Some((data[at] as u16) * 256 + (data[at + 1] as u16))
    } else {
        None
    }
}

/// Reads the big-endian `u32` at byte offset `at`.
pub fn read_u32(data: &[u8], at: usize) -> (r: Option<u32>)
    ensures
        r == be_u32(data@, at as int),
{
    if at <= data.len() && data.len() - at >= 4 {
        Some(
            (data[at] as u32) * 0x100_0000 + (data[at + 1] as u32) * 0x1_0000 + (data[at
                + 2] as u32) * 0x100 + (data[at + 3] as u32),
        )
    } else {
        None
    }
}

// ---------------------------------------------------------------------------
// Collection header

/// Whether `data` begins with the collection magic `ttcf`.
pub open spec fn is_collection(data: Seq<u8>) -> bool {
    &&& data.len() >= 4
    &&& data[0] == 0x74
    &&& data[1] == 0x74
    &&& data[2] == 0x63
    &&& data[3] == 0x66
}

/// The face count a collection header declares.
pub open spec fn declared_faces(data: Seq<u8>) -> Option<u32> {
    if is_collection(data) {
        be_u32(data, 8)
    } else {
        None
    }
}

/// The face count a collection header declares, if `bytes` is a collection
/// whose header holds a count.
pub fn collection_count(bytes: &[u8]) -> (r: Option<u32>)
    ensures
        r == declared_faces(bytes@),
{
    if bytes.len() >= 4 && bytes[0] == 0x74 && bytes[1] == 0x74 && bytes[2] == 0x63 && bytes[3]
        == 0x66 {
        read_u32(bytes, 8)
    } else {
        None
    }
}

// ---------------------------------------------------------------------------
// Counting one subtable

/// `a - b`, or zero when `b` exceeds `a`.
pub open spec fn sat_sub(a: int, b: int) -> int {
    if a >= b {
        a - b
    } else {
        0
    }
}

/// What one of the 256 sub-header keys of a format 2 subtable counts: one
/// for the empty sub-header 0, otherwise the entries of its sub-header, and
/// at least one.
pub open spec fn format2_key_count(data: Seq<u8>, byte: int) -> int {
    let key = be_u16(data, 6 + 2 * byte).unwrap();
    let sub = key / 8;
    if sub == 0 {
        1
    } else {
        let entries = match be_u16(data, 518 + 8 * sub + 2) {
            Some(n) => n as int,
            None => 0,
        };
        if entries < 1 {
            1
        } else {
            entries
        }
    }
}

/// The sum of the counts of the first `n` keys of a format 2 subtable.
pub open spec fn format2_sum(data: Seq<u8>, n: nat) -> int
    decreases n,
{
    if n == 0 {
        0
    } else {
        format2_sum(data, (n - 1) as nat) + format2_key_count(data, n - 1)
    }
}

/// The count of a format 4 subtable from segment `seg` on, having counted
/// `total` so far: every segment counts its span and one more, a count
/// that passes `limit` stops there, and an unreadable segment makes the
/// whole subtable count as empty.
pub open spec fn format4_from(
    data: Seq<u8>,
    seg_x2: int,
    seg: int,
    segs: int,
    total: int,
    limit: int,
) -> int
    decreases segs - seg,
{
    if seg >= segs {
        total
    } else {
        match (be_u16(data, 14 + 2 * seg), be_u16(data, 16 + seg_x2 + 2 * seg)) {
            (Some(end), Some(start)) => {
                let t = total + sat_sub(end as int, start as int) + 1;
                if t > limit {
                    t
                } else {
                    format4_from(data, seg_x2, seg + 1, segs, t, limit)
                }
            },
            _ => 0,
        }
    }
}

/// The count of a format 12 or 13 subtable from group `g` on, having
/// counted `total` so far. A group that is reversed or reaches past
/// U+10FFFF is an error carrying its range.
pub open spec fn format12_from(data: Seq<u8>, g: int, groups: int, total: int, limit: int) -> Result<
    int,
    (u32, u32),
>
    decreases groups - g,
{
    if g >= groups {
        Ok(total)
    } else {
        match (be_u32(data, 16 + 12 * g), be_u32(data, 16 + 12 * g + 4)) {
            (Some(start), Some(end)) => {
                if start > end || end > MAX_CODEPOINT {
                    Err((start, end))
                } else {
                    let t = total + (end - start) + 1;
                    if t > limit {
                        Ok(t)
                    } else {
                        format12_from(data, g + 1, groups, t, limit)
                    }
                }
            },
            _ => Ok(0),
        }
    }
}

/// `a`, but no more than `b`.
pub open spec fn min_int(a: int, b: int) -> int {
    if a <= b {
        a
    } else {
        b
    }
}

/// The codepoints one `cmap` subtable declares (an upper bound of what a
/// font parser lists), stopping once past `limit`.
#[verifier::opaque]
pub open spec fn subtable_count(data: Seq<u8>, limit: int) -> Result<int, (u32, u32)> {
    match be_u16(data, 0) {
        None => Ok(0),
        Some(format) => {
            if format == 0 {
                Ok(256)
            } else if format == 2 {
                if data.len() < 518 {
                    Ok(0)
                } else {
                    Ok(format2_sum(data, 256))
                }
            } else if format == 4 {
                match be_u16(data, 6) {
                    None => Ok(0),
                    Some(seg_x2) => Ok(
                        format4_from(data, seg_x2 as int, 0, (seg_x2 / 2) as int, 0, limit),
                    ),
                }
            } else if format == 6 {
                let entries = match be_u16(data, 8) {
                    Some(n) => n as int,
                    None => 0,
                };
                Ok(min_int(entries, sat_sub(data.len() as int, 10) / 2))
            } else if format == 10 {
                let chars = match be_u32(data, 16) {
                    Some(n) => n as int,
                    None => 0,
                };
                Ok(min_int(chars, sat_sub(data.len() as int, 20) / 2))
            } else if format == 12 || format == 13 {
                match be_u32(data, 12) {
                    None => Ok(0),
                    Some(groups) => {
                        if groups > sat_sub(data.len() as int, 16) / 12 {
                            Ok(0)
                        } else {
                            format12_from(data, 0, groups as int, 0, limit)
                        }
                    },
                }
            } else {
                Ok(0)
            }
        },
    }
}

/// The message for a `cmap` group that maps the invalid range
/// `start..=end`.
pub open spec fn invalid_range_message(start: u32, end: u32) -> Seq<char> {
    "a font cmap maps the invalid range 0x"@ + hex_upper(start as nat) + "..=0x"@ + hex_upper(
        end as nat,
    )
}

fn invalid_range_text(start: u32, end: u32) -> (s: String)
    ensures
        s@ == invalid_range_message(start, end),
{
    let mut v: Vec<char> = Vec::new();
    push_str(&mut v, "a font cmap maps the invalid range 0x");
    push_numeral(&mut v, start as u64, 16);
    push_str(&mut v, "..=0x");
    push_numeral(&mut v, end as u64, 16);
    string_from_chars(&v)
}

/// The slack a count may have over its limit: a count stops at the first
/// step that passes the limit, and no step adds more than this.
pub open spec fn count_slack() -> int {
    0x1_0000_0000
}

proof fn lemma_format2_sum_bound(data: Seq<u8>, n: nat)
    ensures
        0 <= format2_sum(data, n) <= n * 0x1_0000,
    decreases n,
{
    if n > 0 {
        lemma_format2_sum_bound(data, (n - 1) as nat);
    }
}

/// Counts the codepoints one `cmap` subtable declares, stopping once past
/// `limit`. Errors on a format 12 or 13 group that is reversed or ends past
/// U+10FFFF.
pub fn subtable_codepoints(data: &[u8], limit: u64) -> (r: Result<u64, String>)
    ensures
        match r {
            Ok(n) => subtable_count(data@, limit as int) == Ok::<int, (u32, u32)>(n as int) && n
                <= limit + count_slack(),
            Err(m) => match subtable_count(data@, limit as int) {
                Err((start, end)) => m@ == invalid_range_message(start, end),
                Ok(_) => false,
            },
        },
{
    reveal(subtable_count);
    let format = match read_u16(data, 0) {
        Some(f) => f,
        None => return Ok(0),
    };
    if format == 0 {
        Ok(256)
    } else if format == 2 {
        let mut total: u64 = 0;
        let mut byte: usize = 0;
        while byte < 256
            invariant
                0 <= byte <= 256,
                total == format2_sum(data@, byte as nat),
                total <= byte * 0x1_0000,
                byte == 0 || 6 + 2 * byte <= data@.len(),
                subtable_count(data@, limit as int) == (if data@.len() < 518 {
                    Ok::<int, (u32, u32)>(0)
                } else {
                    Ok::<int, (u32, u32)>(format2_sum(data@, 256))
                }),
            decreases 256 - byte,
        {
            let key = match read_u16(data, 6 + 2 * byte) {
                Some(k) => k,
                None => {
                    assert(data@.len() < 518);
                    return Ok(0);
                },
            };
            let sub = (key / 8) as usize;
            let add: u64 = if sub == 0 {
                1
            } else {
                let entries = match read_u16(data, 518 + 8 * sub + 2) {
                    Some(n) => n as u64,
                    None => 0,
                };
                if entries < 1 {
                    1
                } else {
                    entries
                }
            };
            assert(add == format2_key_count(data@, byte as int));
            total = total + add;
            byte = byte + 1;
        }
        assert(data@.len() >= 518);
        Ok(total)
    } else if format == 4 {
        let seg_x2 = match read_u16(data, 6) {
            Some(x) => x,
            None => return Ok(0),
        };
        let segs = (seg_x2 / 2) as usize;
        let mut total: u64 = 0;
        let mut seg: usize = 0;
        while seg < segs
            invariant
                segs == seg_x2 / 2,
                0 <= seg <= segs,
                subtable_count(data@, limit as int) == Ok::<int, (u32, u32)>(
                    format4_from(data@, seg_x2 as int, 0, segs as int, 0, limit as int),
                ),
                total <= seg * 0x1_0001,
                total <= limit,
                format4_from(data@, seg_x2 as int, 0, segs as int, 0, limit as int)
                    == format4_from(data@, seg_x2 as int, seg as int, segs as int, total as int, limit as int),
            decreases segs - seg,
        {
            let end = read_u16(data, 14 + 2 * seg);
            let start = read_u16(data, 16 + (seg_x2 as usize) + 2 * seg);
            let ghost before = total;
            match (end, start) {
                (Some(end), Some(start)) => {
                    let span: u64 = if end >= start {
                        (end - start) as u64
                    } else {
                        0
                    };
                    total = total + span + 1;
                    assert(total == before + sat_sub(end as int, start as int) + 1);
                    if total > limit {
                        assert(format4_from(data@, seg_x2 as int, seg as int, segs as int, before as int, limit as int) == total);
                        return Ok(total);
                    }
                },
                _ => {
                    assert(format4_from(data@, seg_x2 as int, seg as int, segs as int, before as int, limit as int) == 0);
                    return Ok(0);
                },
            }
            seg = seg + 1;
        }
        Ok(total)
    } else if format == 6 {
        let entries: u64 = match read_u16(data, 8) {
            Some(n) => n as u64,
            None => 0,
        };
        let room = if data.len() >= 10 {
            ((data.len() - 10) / 2) as u64
        } else {
            0
        };
        Ok(
            if entries <= room {
                entries
            } else {
                room
            },
        )
    } else if format == 10 {
        let chars: u64 = match read_u32(data, 16) {
            Some(n) => n as u64,
            None => 0,
        };
        let room = if data.len() >= 20 {
            ((data.len() - 20) / 2) as u64
        } else {
            0
        };
        Ok(
            if chars <= room {
                chars
            } else {
                room
            },
        )
    } else if format == 12 || format == 13 {
        let groups = match read_u32(data, 12) {
            Some(g) => g,
            None => return Ok(0),
        };
        let room = if data.len() >= 16 {
            (data.len() - 16) / 12
        } else {
            0
        };
        if groups as usize > room {
            return Ok(0);
        }
        let groups = groups as usize;
        assert(16 + 12 * (groups as int) <= data@.len() || groups == 0) by (nonlinear_arith)
            requires
                groups <= room,
                room == sat_sub(data@.len() as int, 16) / 12,
        ;
        let dlen = data.len();
        let mut total: u64 = 0;
        let mut g: usize = 0;
        while g < groups
            invariant
                0 <= g <= groups,
                groups <= room,
                room == sat_sub(data@.len() as int, 16) / 12,
                16 + 12 * groups <= data@.len() || groups == 0,
                dlen == data@.len(),
                subtable_count(data@, limit as int) == format12_from(data@, 0, groups as int, 0, limit as int),
                total <= limit,
                total <= g * 0x11_0000,
                groups <= u32::MAX,
                format12_from(data@, 0, groups as int, 0, limit as int) == format12_from(
                    data@,
                    g as int,
                    groups as int,
                    total as int,
                    limit as int,
                ),
            decreases groups - g,
        {
            assert(16 + 12 * g + 12 <= 16 + 12 * groups) by (nonlinear_arith)
                requires
                    g < groups,
            ;
            let at = 16 + 12 * g;
            let start = read_u32(data, at);
            let end = read_u32(data, at + 4);
            let ghost before = total;
            match (start, end) {
                (Some(start), Some(end)) => {
                    if start > end || end > MAX_CODEPOINT {
                        assert(format12_from(data@, g as int, groups as int, before as int, limit as int)
                            == Err::<int, (u32, u32)>((start, end)));
                        return Err(invalid_range_text(start, end));
                    }
                    assert((g + 1) * 0x11_0000 <= 0x1_0000_0000 * 0x11_0000) by (nonlinear_arith)
                        requires
                            g < groups,
                            groups <= u32::MAX,
                    ;
                    total = total + ((end - start) as u64) + 1;
                    if total > limit {
                        assert(format12_from(data@, g as int, groups as int, before as int, limit as int)
                            == Ok::<int, (u32, u32)>(total as int));
                        return Ok(total);
                    }
                },
                _ => {
                    assert(format12_from(data@, g as int, groups as int, before as int, limit as int)
                        == Ok::<int, (u32, u32)>(0));
                    return Ok(0);
                },
            }
            g = g + 1;
        }
        Ok(total)
    } else {
        Ok(0)
    }
}


/// Whether every field a count of subtable `data` may read lies inside it:
/// for format 4, the end and start codes of every declared segment (the
/// other formats check their own room before reading).
pub open spec fn subtable_fields_in(data: Seq<u8>) -> bool {
    be_u16(data, 0) == Some(4u16) ==> match be_u16(data, 6) {
        Some(seg_x2) => 16 + seg_x2 + 2 * (seg_x2 / 2) <= data.len(),
        None => true,
    }
}

proof fn lemma_format4_capped(
    data: Seq<u8>,
    seg_x2: int,
    seg: int,
    segs: int,
    total: int,
    limit: int,
    full_limit: int,
)
    requires
        0 <= seg,
        segs == seg_x2 / 2,
        0 <= seg_x2,
        16 + seg_x2 + 2 * segs <= data.len(),
        limit <= full_limit,
    ensures
        ({
            let f = format4_from(data, seg_x2, seg, segs, total, full_limit);
            let c = format4_from(data, seg_x2, seg, segs, total, limit);
            &&& f >= total
            &&& f <= limit ==> c == f
            &&& f > limit ==> limit < c <= f
        }),
    decreases segs - seg,
{
    if seg < segs {
        assert(be_u16(data, 14 + 2 * seg) is Some);
        assert(be_u16(data, 16 + seg_x2 + 2 * seg) is Some);
        let end = be_u16(data, 14 + 2 * seg).unwrap();
        let start = be_u16(data, 16 + seg_x2 + 2 * seg).unwrap();
        let t = total + sat_sub(end as int, start as int) + 1;
        if t <= full_limit {
            lemma_format4_capped(data, seg_x2, seg + 1, segs, t, limit, full_limit);
        }
    }
}

proof fn lemma_format12_capped(data: Seq<u8>, g: int, groups: int, total: int, limit: int, full_limit: int)
    requires
        0 <= g,
        16 + 12 * groups <= data.len(),
        limit <= full_limit,
        format12_from(data, g, groups, total, full_limit) is Ok,
    ensures
        ({
            let f = format12_from(data, g, groups, total, full_limit)->Ok_0;
            let c = format12_from(data, g, groups, total, limit);
            &&& f >= total
            &&& f <= limit ==> c == Ok::<int, (u32, u32)>(f)
            &&& f > limit ==> c is Ok && limit < c->Ok_0 <= f
        }),
    decreases groups - g,
{
    if g < groups {
        assert(be_u32(data, 16 + 12 * g) is Some);
        assert(be_u32(data, 16 + 12 * g + 4) is Some);
        let start = be_u32(data, 16 + 12 * g).unwrap();
        let end = be_u32(data, 16 + 12 * g + 4).unwrap();
        if !(start > end || end > MAX_CODEPOINT) {
            let t = total + (end - start) + 1;
            if t <= full_limit {
                lemma_format12_capped(data, g + 1, groups, t, limit, full_limit);
            }
        }
    }
}

/// A count of a subtable whose fields all lie inside it is its full count
/// whenever that count is within the limit; otherwise it stops past the
/// limit, at no more than the full count.
pub proof fn law_subtable_count_capped(data: Seq<u8>, limit: u64, full: int)
    requires
        subtable_fields_in(data),
        subtable_count(data, u64::MAX as int) == Ok::<int, (u32, u32)>(full),
    ensures
        full <= limit ==> subtable_count(data, limit as int) == Ok::<int, (u32, u32)>(full),
        full > limit ==> subtable_count(data, limit as int) is Ok && limit < subtable_count(
            data,
            limit as int,
        )->Ok_0 <= full,
{
    reveal(subtable_count);
    match be_u16(data, 0) {
        None => {},
        Some(format) => {
            if format == 4 {
                match be_u16(data, 6) {
                    None => {},
                    Some(seg_x2) => {
                        lemma_format4_capped(
                            data,
                            seg_x2 as int,
                            0,
                            (seg_x2 / 2) as int,
                            0,
                            limit as int,
                            u64::MAX as int,
                        );
                    },
                }
            } else if format == 12 || format == 13 {
                match be_u32(data, 12) {
                    None => {},
                    Some(groups) => {
                        if groups <= sat_sub(data.len() as int, 16) / 12 {
                            assert(16 + 12 * (groups as int) <= data.len() || groups == 0) by (nonlinear_arith)
                                requires
                                    groups <= sat_sub(data.len() as int, 16) / 12,
                            ;
                            lemma_format12_capped(data, 0, groups as int, 0, limit as int, u64::MAX as int);
                        }
                    },
                }
            }
        },
    }
}

// ---------------------------------------------------------------------------
// Counting a whole `cmap` table

/// The count of a `cmap` table from encoding record `r` on, having counted
/// `total` so far and remembering in `counted` the count of each subtable
/// offset already visited. Every record counts its subtable's count, and at
/// least one; an unreadable record ends the count; a count that passes
/// `limit` stops there.
pub open spec fn cmap_from(
    cmap: Seq<u8>,
    limit: int,
    r: int,
    records: int,
    total: int,
    counted: Map<u32, u64>,
) -> Result<int, (u32, u32)>
    decreases records - r,
{
    if r >= records {
        Ok(total)
    } else {
        match be_u32(cmap, 8 + 8 * r) {
            None => Ok(total),
            Some(off) => {
                let c = if counted.contains_key(off) {
                    Ok(counted[off] as int)
                } else if off <= cmap.len() {
                    subtable_count(cmap.subrange(off as int, cmap.len() as int), sat_sub(limit, total))
                } else {
                    Ok(0)
                };
                match c {
                    Err(p) => Err(p),
                    Ok(c) => {
                        let t = total + (if c < 1 {
                            1
                        } else {
                            c
                        });
                        if t > limit {
                            Ok(t)
                        } else {
                            cmap_from(cmap, limit, r + 1, records, t, counted.insert(off, c as u64))
                        }
                    },
                }
            },
        }
    }
}

/// The number of encoding records a `cmap` table declares.
pub open spec fn cmap_records(cmap: Seq<u8>) -> int {
    match be_u16(cmap, 2) {
        Some(n) => n as int,
        None => 0,
    }
}

/// The codepoints a `cmap` table declares over all its encoding records,
/// stopping once past `limit`.
pub open spec fn cmap_count(cmap: Seq<u8>, limit: int) -> Result<int, (u32, u32)> {
    cmap_from(cmap, limit, 0, cmap_records(cmap), 0, Map::empty())
}

/// `t`, or `u64::MAX` where `t` is greater.
pub open spec fn capped_u64(t: int) -> int {
    if t > u64::MAX {
        u64::MAX as int
    } else {
        t
    }
}

/// Sums the codepoints declared by every encoding record of a `cmap` table,
/// stopping once the sum passes `limit`. Each subtable is counted once and
/// its count charged to every record that points at it. A sum past
/// `u64::MAX` reads as `u64::MAX`.
pub fn cmap_codepoints(cmap: &[u8], limit: u64) -> (r: Result<u64, String>)
    ensures
        match r {
            Ok(n) => match cmap_count(cmap@, limit as int) {
                Ok(t) => n == capped_u64(t),
                Err(_) => false,
            },
            Err(m) => match cmap_count(cmap@, limit as int) {
                Err((start, end)) => m@ == invalid_range_message(start, end),
                Ok(_) => false,
            },
        },
{
    let records: u16 = match read_u16(cmap, 2) {
        Some(n) => n,
        None => 0,
    };
    let mut counted: FxHashMap<u32, u64> = FxHashMap::default();
    let mut total: u64 = 0;
    let mut record: usize = 0;
    while record < records as usize
        invariant
            0 <= record <= records,
            records == cmap_records(cmap@),
            total <= limit,
            cmap_count(cmap@, limit as int) == cmap_from(
                cmap@,
                limit as int,
                record as int,
                records as int,
                total as int,
                counted@,
            ),
        decreases records - record,
    {
        let offset = match read_u32(cmap, 4 + 8 * record + 4) {
            Some(o) => o,
            None => return Ok(total),
        };
        let ghost before = total;
        let ghost memo = counted@;
        let count: u64 = match fx_get(&counted, &offset) {
            Some(c) => c,
            None => {
                let c = if offset as usize <= cmap.len() {
                    let sub = vstd::slice::slice_subrange(cmap, offset as usize, cmap.len());
                    assert(sub@ == cmap@.subrange(offset as int, cmap@.len() as int));
                    match subtable_codepoints(sub, limit - total) {
                        Ok(c) => c,
                        Err(m) => {
                            assert(cmap_from(cmap@, limit as int, record as int, records as int, before as int, memo) is Err);
                            return Err(m);
                        },
                    }
                } else {
                    0
                };
                fx_insert(&mut counted, offset, c);
                c
            },
        };
        assert(counted@ == memo.insert(offset, count));
        let step: u64 = if count < 1 {
            1
        } else {
            count
        };
        total = match total.checked_add(step) {
            Some(t) => t,
            None => {
                assert(cmap_from(cmap@, limit as int, record as int, records as int, before as int, memo)
                    == Ok::<int, (u32, u32)>(before + step));
                return Ok(u64::MAX);
            },
        };
        if total > limit {
            assert(cmap_from(cmap@, limit as int, record as int, records as int, before as int, memo)
                == Ok::<int, (u32, u32)>(total as int));
            return Ok(total);
        }
        assert(cmap_from(cmap@, limit as int, record as int, records as int, before as int, memo)
            == cmap_from(cmap@, limit as int, record + 1, records as int, total as int, counted@));
        record = record + 1;
    }
    Ok(total)
}

// ---------------------------------------------------------------------------
// Finding a face's `cmap` table

/// The `cmap` table a font parser reads for a face whose table directory
/// holds `recs` (tag, offset, length) over `data`: the last record tagged
/// `cmap` among the first `n` whose end does not overflow, sliced out of
/// `data` if it lies inside it.
pub open spec fn picked_cmap(data: Seq<u8>, recs: Seq<(u32, u32, u32)>, n: int) -> Option<Seq<u8>>
    decreases n,
{
    if n <= 0 {
        None
    } else {
        let rec = recs[n - 1];
        if rec.0 == CMAP_TAG && rec.1 + rec.2 <= usize::MAX {
            if rec.1 + rec.2 <= data.len() {
                Some(data.subrange(rec.1 as int, rec.1 + rec.2))
            } else {
                None
            }
        } else {
            picked_cmap(data, recs, n - 1)
        }
    }
}

/// The `cmap` table of a face: the last `cmap` record of its directory
/// wins, a record whose end overflows is passed over, and one whose range
/// lies outside the file leaves the face without a `cmap`.
pub fn cmap_table<'a>(data: &'a [u8], records: &Vec<(u32, u32, u32)>) -> (r: Option<&'a [u8]>)
    ensures
        match r {
            Some(t) => picked_cmap(data@, records@, records@.len() as int) == Some(t@),
            None => picked_cmap(data@, records@, records@.len() as int) is None,
        },
{
    let mut cmap: Option<&'a [u8]> = None;
    let mut i: usize = 0;
    while i < records.len()
        invariant
            0 <= i <= records@.len(),
            match cmap {
                Some(t) => picked_cmap(data@, records@, i as int) == Some(t@),
                None => picked_cmap(data@, records@, i as int) is None,
            },
        decreases records@.len() - i,
    {
        let (tag, offset, length) = records[i];
        if tag == CMAP_TAG {
            let start = offset as usize;
            if start <= usize::MAX - (length as usize) {
                let end = start + length as usize;
                cmap = if end <= data.len() {
                    Some(vstd::slice::slice_subrange(data, start, end))
                } else {
                    None
                };
            }
        }
        i = i + 1;
    }
    cmap
}


// ---------------------------------------------------------------------------
// Checking a whole font file

/// The table directory that `ttf_parser::Face::parse(data, index)` reads
/// for face `index` of `data`, as (tag, offset, length) in directory order,
/// or nothing when the parser rejects the face.
pub uninterp spec fn parsed_face_tables(data: Seq<u8>, index: u32) -> Option<Seq<(u32, u32, u32)>>;

/// Parses face `index` of `data` with `ttf_parser::Face::parse` and lists
/// its raw table records as (tag, offset, length). Trusted to return what
/// the parser reads for these bytes and this index, which depends on
/// nothing else; the offsets are into `data` itself, which is the data the
/// parser's `RawFace` keeps.
#[verifier::external_body]
fn face_table_records(data: &[u8], index: u32) -> (r: Option<Vec<(u32, u32, u32)>>)
    ensures
        match r {
            Some(v) => parsed_face_tables(data@, index) == Some(v@),
            None => parsed_face_tables(data@, index) is None,
        },
{
    let face = ttf_parser::Face::parse(data, index).ok()?;
    Some(face.raw_face().table_records.into_iter().map(|t| (t.tag.0, t.offset, t.length)).collect())
}

/// Why a font file is refused before it is read.
pub enum FontFault {
    /// A collection header claims more faces than allowed or than it holds.
    Collection(u32),
    /// A `cmap` group maps a reversed range or one past U+10FFFF.
    InvalidRange(u32, u32),
    /// One face declares too many codepoints.
    FaceCodepoints(u32),
    /// All faces together declare too many codepoints.
    FileCodepoints,
}

/// The message reported for a refused font file.
pub open spec fn fault_message(f: FontFault) -> Seq<char> {
    match f {
        FontFault::Collection(count) => "the font collection claims "@ + decimal(count as nat)
            + " faces"@,
        FontFault::InvalidRange(start, end) => invalid_range_message(start, end),
        FontFault::FaceCodepoints(index) => "font face "@ + decimal(index as nat)
            + " declares too many codepoints"@,
        FontFault::FileCodepoints => "the font file declares too many codepoints"@,
    }
}

/// The verdict on faces `i..count` of a font file, having summed
/// `file_total` codepoints over the faces before: a face the parser cannot
/// read, or that has no `cmap`, is passed over; each other face must
/// declare at most [`MAX_FACE_CODEPOINTS`], and all of them together at most
/// [`MAX_FILE_CODEPOINTS`].
pub open spec fn coverage_from(bytes: Seq<u8>, i: int, count: int, file_total: int) -> Result<
    (),
    FontFault,
>
    decreases count - i,
{
    if i >= count || i > u32::MAX {
        Ok(())
    } else {
        match parsed_face_tables(bytes, i as u32) {
            None => coverage_from(bytes, i + 1, count, file_total),
            Some(recs) => match picked_cmap(bytes, recs, recs.len() as int) {
                None => coverage_from(bytes, i + 1, count, file_total),
                Some(cmap) => match cmap_count(cmap, MAX_FACE_CODEPOINTS as int) {
                    Err((start, end)) => Err(FontFault::InvalidRange(start, end)),
                    Ok(t) => {
                        if t > MAX_FACE_CODEPOINTS {
                            Err(FontFault::FaceCodepoints(i as u32))
                        } else if file_total + t > MAX_FILE_CODEPOINTS {
                            Err(FontFault::FileCodepoints)
                        } else {
                            coverage_from(bytes, i + 1, count, file_total + t)
                        }
                    },
                },
            },
        }
    }
}

/// The number of faces whose `cmap` is checked: the declared count of a
/// collection, otherwise the one face of the file.
pub open spec fn checked_faces(bytes: Seq<u8>) -> int {
    match declared_faces(bytes) {
        Some(c) => c as int,
        None => 1,
    }
}

/// The verdict on the `cmap` tables of every face of a font file.
pub open spec fn coverage_verdict(bytes: Seq<u8>) -> Result<(), FontFault> {
    coverage_from(bytes, 0, checked_faces(bytes), 0)
}

/// The message text of a refusal.
pub fn fault_text(f: &FontFault) -> (s: String)
    ensures
        s@ == fault_message(*f),
{
    let mut v: Vec<char> = Vec::new();
    match f {
        FontFault::Collection(count) => {
            push_str(&mut v, "the font collection claims ");
            push_numeral(&mut v, *count as u64, 10);
            push_str(&mut v, " faces");
        },
        FontFault::InvalidRange(start, end) => {
            return invalid_range_text(*start, *end);
        },
        FontFault::FaceCodepoints(index) => {
            push_str(&mut v, "font face ");
            push_numeral(&mut v, *index as u64, 10);
            push_str(&mut v, " declares too many codepoints");
        },
        FontFault::FileCodepoints => {
            push_str(&mut v, "the font file declares too many codepoints");
        },
    }
    string_from_chars(&v)
}

/// Rejects a file whose `cmap` tables would make reading it unbounded.
///
/// Counts, from the raw table bytes, how many codepoints each face's
/// subtables declare, before the face is read; the count stops as soon as
/// a limit is crossed, so the check itself stays bounded. A face the font
/// parser cannot read is left to the reader, which skips it.
pub fn check_coverage(bytes: &[u8]) -> (r: Result<(), String>)
    ensures
        match r {
            Ok(()) => coverage_verdict(bytes@) is Ok,
            Err(m) => match coverage_verdict(bytes@) {
                Err(f) => m@ == fault_message(f),
                Ok(()) => false,
            },
        },
{
    let count: u32 = match collection_count(bytes) {
        Some(c) => c,
        None => 1,
    };
    let mut file_total: u64 = 0;
    let mut index: u32 = 0;
    while index < count
        invariant
            0 <= index <= count,
            count as int == checked_faces(bytes@),
            file_total <= MAX_FILE_CODEPOINTS,
            coverage_verdict(bytes@) == coverage_from(bytes@, index as int, count as int, file_total as int),
        decreases count - index,
    {
        let ghost before = file_total;
        if let Some(records) = face_table_records(bytes, index) {
            if let Some(cmap) = cmap_table(bytes, &records) {
                let face_total = match cmap_codepoints(cmap, MAX_FACE_CODEPOINTS) {
                    Ok(t) => t,
                    Err(m) => return Err(m),
                };
                if face_total > MAX_FACE_CODEPOINTS {
                    return Err(fault_text(&FontFault::FaceCodepoints(index)));
                }
                file_total = file_total + face_total;
                if file_total > MAX_FILE_CODEPOINTS {
                    return Err(fault_text(&FontFault::FileCodepoints));
                }
            }
        }
        assert(coverage_from(bytes@, index as int, count as int, before as int) == coverage_from(
            bytes@,
            index + 1,
            count as int,
            file_total as int,
        ));
        index = index + 1;
    }
    Ok(())
}

/// The verdict on a whole font file: a collection header must claim at
/// most [`MAX_FACES`] faces and no more than it has room to list (every
/// face needs a 4-byte offset after the 12-byte header); then every face's
/// `cmap` is checked.
pub open spec fn font_verdict(bytes: Seq<u8>) -> Result<(), FontFault> {
    match declared_faces(bytes) {
        Some(c) => if c > MAX_FACES || c > sat_sub(bytes.len() as int, 12) / 4 {
            Err(FontFault::Collection(c))
        } else {
            coverage_verdict(bytes)
        },
        None => coverage_verdict(bytes),
    }
}

/// Checks a font file (`.ttf`, `.otf`, or a `.ttc`/`.otc` collection)
/// before its faces are read: a forged collection header and `cmap` tables
/// that would make reading unbounded are refused with their message.
pub fn check_font_bytes(bytes: &[u8]) -> (r: Result<(), String>)
    ensures
        match r {
            Ok(()) => font_verdict(bytes@) is Ok,
            Err(m) => match font_verdict(bytes@) {
                Err(f) => m@ == fault_message(f),
                Ok(()) => false,
            },
        },
{
    if let Some(count) = collection_count(bytes) {
        let room = if bytes.len() >= 12 {
            (bytes.len() - 12) / 4
        } else {
            0
        };
        if count > MAX_FACES || count as usize > room {
            return Err(fault_text(&FontFault::Collection(count)));
        }
    }
    check_coverage(bytes)
}

} // verus!
