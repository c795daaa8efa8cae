//! The manifest's on-disk JSON document: a verified writer and reader for
//! the canonical form this crate emits, so a saved manifest reads back
//! exactly. Paths and checksums must be printable ASCII without quotes or
//! backslashes; the writer then never needs an escape, and the reader
//! accepts none.

use vstd::prelude::*;
use crate::manifest::{Manifest, LaneManifest, SegmentMetadata};
use crate::wire::{dec_digits, put_dec, parse_dec, spec_parse_dec, is_digit,
    lemma_dec_round_trip, put_bytes};
use vstd::string::StringExecFns;

verus! {

/// Bytes a JSON string field may hold without escaping: printable ASCII
/// less the quote and the backslash.
pub open spec fn json_safe(s: Seq<u8>) -> bool {
    forall|k: int| 0 <= k < s.len() ==> 32 <= #[trigger] s[k] <= 126 && s[k] != 34 && s[k] != 92
}

/// A segment record whose strings the document can carry.
pub open spec fn seg_strings_ok(s: SegmentMetadata) -> bool {
    &&& json_safe(s.path@)
    &&& match s.checksum {
        Some(c) => json_safe(c@),
        None => true,
    }
}

/// A manifest the document can carry.
pub open spec fn manifest_strings_ok(m: Manifest) -> bool {
    forall|i: int, j: int| 0 <= i < m.lanes@.len()
        && 0 <= j < (#[trigger] m.lanes@[i]).segments@.len()
        ==> seg_strings_ok(#[trigger] m.lanes@[i].segments@[j])
}

/// A segment record at the specification level.
pub struct AbsSeg {
    /// The segment id.
    pub id: u64,
    /// The level.
    pub level: u64,
    /// The entry count.
    pub count: u64,
    /// The relative path bytes.
    pub path: Seq<u8>,
    /// The checksum bytes, if recorded.
    pub checksum: Option<Seq<u8>>,
}

/// A lane entry at the specification level.
pub struct AbsLane {
    /// The lane id.
    pub id: u64,
    /// The segment records, newest first.
    pub segments: Seq<AbsSeg>,
    /// The overlay sequence number.
    pub seqno: u64,
}

/// A whole manifest at the specification level.
pub struct AbsManifest {
    /// The format version.
    pub version: u64,
    /// The lane count.
    pub num_lanes: u64,
    /// The generation.
    pub generation: u64,
    /// The lane entries.
    pub lanes: Seq<AbsLane>,
}

/// What a segment record stands for.
pub open spec fn seg_view(s: SegmentMetadata) -> AbsSeg {
    AbsSeg {
        id: s.id,
        level: s.level as u64,
        count: s.count as u64,
        path: s.path@,
        checksum: match s.checksum {
            Some(c) => Some(c@),
            None => None,
        },
    }
}

/// What a lane entry stands for.
pub open spec fn lane_view(l: LaneManifest) -> AbsLane {
    AbsLane {
        id: l.id as u64,
        segments: l.segments@.map_values(|s: SegmentMetadata| seg_view(s)),
        seqno: l.overlay_seqno,
    }
}

/// What a manifest stands for.
pub open spec fn manifest_view(m: Manifest) -> AbsManifest {
    AbsManifest {
        version: m.version as u64,
        num_lanes: m.num_lanes as u64,
        generation: m.generation,
        lanes: m.lanes@.map_values(|l: LaneManifest| lane_view(l)),
    }
}

/// The byte run `{`version`:`, backticks standing for quotes.
pub open spec fn t_ver() -> Seq<u8> {
    seq![123u8, 34u8, 118u8, 101u8, 114u8, 115u8, 105u8, 111u8, 110u8, 34u8, 58u8]
}

fn lit_ver() -> (r: Vec<u8>)
    ensures
        r@ == t_ver(),
{
    let mut v: Vec<u8> = Vec::new();
    v.push(123);
    v.push(34);
    v.push(118);
    v.push(101);
    v.push(114);
    v.push(115);
    v.push(105);
    v.push(111);
    v.push(110);
    v.push(34);
    v.push(58);
    proof {
        assert(v@ =~= t_ver());
    }
    v
}

/// The byte run `,`num_lanes`:`, backticks standing for quotes.
pub open spec fn t_num() -> Seq<u8> {
    seq![44u8, 34u8, 110u8, 117u8, 109u8, 95u8, 108u8, 97u8, 110u8, 101u8, 115u8, 34u8, 58u8]
}

fn lit_num() -> (r: Vec<u8>)
    ensures
        r@ == t_num(),
{
    let mut v: Vec<u8> = Vec::new();
    v.push(44);
    v.push(34);
    v.push(110);
    v.push(117);
    v.push(109);
    v.push(95);
    v.push(108);
    v.push(97);
    v.push(110);
    v.push(101);
    v.push(115);
    v.push(34);
    v.push(58);
    proof {
        assert(v@ =~= t_num());
    }
    v
}

/// The byte run `,`generation`:`, backticks standing for quotes.
pub open spec fn t_gen() -> Seq<u8> {
    seq![44u8, 34u8, 103u8, 101u8, 110u8, 101u8, 114u8, 97u8, 116u8, 105u8, 111u8, 110u8, 34u8, 58u8]
}

fn lit_gen() -> (r: Vec<u8>)
    ensures
        r@ == t_gen(),
{
    let mut v: Vec<u8> = Vec::new();
    v.push(44);
    v.push(34);
    v.push(103);
    v.push(101);
    v.push(110);
    v.push(101);
    v.push(114);
    v.push(97);
    v.push(116);
    v.push(105);
    v.push(111);
    v.push(110);
    v.push(34);
    v.push(58);
    proof {
        assert(v@ =~= t_gen());
    }
    v
}

/// The byte run `,`lanes`:[`, backticks standing for quotes.
pub open spec fn t_lanes() -> Seq<u8> {
    seq![44u8, 34u8, 108u8, 97u8, 110u8, 101u8, 115u8, 34u8, 58u8, 91u8]
}

fn lit_lanes() -> (r: Vec<u8>)
    ensures
        r@ == t_lanes(),
{
    let mut v: Vec<u8> = Vec::new();
    v.push(44);
    v.push(34);
    v.push(108);
    v.push(97);
    v.push(110);
    v.push(101);
    v.push(115);
    v.push(34);
    v.push(58);
    v.push(91);
    proof {
        assert(v@ =~= t_lanes());
    }
    v
}

/// The byte run `{`id`:`, backticks standing for quotes.
pub open spec fn t_obj_id() -> Seq<u8> {
    seq![123u8, 34u8, 105u8, 100u8, 34u8, 58u8]
}

fn lit_obj_id() -> (r: Vec<u8>)
    ensures
        r@ == t_obj_id(),
{
    let mut v: Vec<u8> = Vec::new();
    v.push(123);
    v.push(34);
    v.push(105);
    v.push(100);
    v.push(34);
    v.push(58);
    proof {
        assert(v@ =~= t_obj_id());
    }
    v
}

/// The byte run `,`segments`:[`, backticks standing for quotes.
pub open spec fn t_segs() -> Seq<u8> {
    seq![44u8, 34u8, 115u8, 101u8, 103u8, 109u8, 101u8, 110u8, 116u8, 115u8, 34u8, 58u8, 91u8]
}

fn lit_segs() -> (r: Vec<u8>)
    ensures
        r@ == t_segs(),
{
    let mut v: Vec<u8> = Vec::new();
    v.push(44);
    v.push(34);
    v.push(115);
    v.push(101);
    v.push(103);
    v.push(109);
    v.push(101);
    v.push(110);
    v.push(116);
    v.push(115);
    v.push(34);
    v.push(58);
    v.push(91);
    proof {
        assert(v@ =~= t_segs());
    }
    v
}

/// The byte run `,`overlay_seqno`:`, backticks standing for quotes.
pub open spec fn t_seqno() -> Seq<u8> {
    seq![44u8, 34u8, 111u8, 118u8, 101u8, 114u8, 108u8, 97u8, 121u8, 95u8, 115u8, 101u8, 113u8, 110u8, 111u8, 34u8, 58u8]
}

fn lit_seqno() -> (r: Vec<u8>)
    ensures
        r@ == t_seqno(),
{
    let mut v: Vec<u8> = Vec::new();
    v.push(44);
    v.push(34);
    v.push(111);
    v.push(118);
    v.push(101);
    v.push(114);
    v.push(108);
    v.push(97);
    v.push(121);
    v.push(95);
    v.push(115);
    v.push(101);
    v.push(113);
    v.push(110);
    v.push(111);
    v.push(34);
    v.push(58);
    proof {
        assert(v@ =~= t_seqno());
    }
    v
}

/// The byte run `,`level`:`, backticks standing for quotes.
pub open spec fn t_level() -> Seq<u8> {
    seq![44u8, 34u8, 108u8, 101u8, 118u8, 101u8, 108u8, 34u8, 58u8]
}

fn lit_level() -> (r: Vec<u8>)
    ensures
        r@ == t_level(),
{
    let mut v: Vec<u8> = Vec::new();
    v.push(44);
    v.push(34);
    v.push(108);
    v.push(101);
    v.push(118);
    v.push(101);
    v.push(108);
    v.push(34);
    v.push(58);
    proof {
        assert(v@ =~= t_level());
    }
    v
}

/// The byte run `,`count`:`, backticks standing for quotes.
pub open spec fn t_count() -> Seq<u8> {
    seq![44u8, 34u8, 99u8, 111u8, 117u8, 110u8, 116u8, 34u8, 58u8]
}

fn lit_count() -> (r: Vec<u8>)
    ensures
        r@ == t_count(),
{
    let mut v: Vec<u8> = Vec::new();
    v.push(44);
    v.push(34);
    v.push(99);
    v.push(111);
    v.push(117);
    v.push(110);
    v.push(116);
    v.push(34);
    v.push(58);
    proof {
        assert(v@ =~= t_count());
    }
    v
}

/// The byte run `,`path`:`, backticks standing for quotes.
pub open spec fn t_path() -> Seq<u8> {
    seq![44u8, 34u8, 112u8, 97u8, 116u8, 104u8, 34u8, 58u8]
}

fn lit_path() -> (r: Vec<u8>)
    ensures
        r@ == t_path(),
{
    let mut v: Vec<u8> = Vec::new();
    v.push(44);
    v.push(34);
    v.push(112);
    v.push(97);
    v.push(116);
    v.push(104);
    v.push(34);
    v.push(58);
    proof {
        assert(v@ =~= t_path());
    }
    v
}

/// The byte run `,`checksum`:`, backticks standing for quotes.
pub open spec fn t_check() -> Seq<u8> {
    seq![44u8, 34u8, 99u8, 104u8, 101u8, 99u8, 107u8, 115u8, 117u8, 109u8, 34u8, 58u8]
}

fn lit_check() -> (r: Vec<u8>)
    ensures
        r@ == t_check(),
{
    let mut v: Vec<u8> = Vec::new();
    v.push(44);
    v.push(34);
    v.push(99);
    v.push(104);
    v.push(101);
    v.push(99);
    v.push(107);
    v.push(115);
    v.push(117);
    v.push(109);
    v.push(34);
    v.push(58);
    proof {
        assert(v@ =~= t_check());
    }
    v
}

/// The byte run `null`, backticks standing for quotes.
pub open spec fn t_null() -> Seq<u8> {
    seq![110u8, 117u8, 108u8, 108u8]
}

fn lit_null() -> (r: Vec<u8>)
    ensures
        r@ == t_null(),
{
    let mut v: Vec<u8> = Vec::new();
    v.push(110);
    v.push(117);
    v.push(108);
    v.push(108);
    proof {
        assert(v@ =~= t_null());
    }
    v
}

/// The byte run `,`, backticks standing for quotes.
pub open spec fn t_comma() -> Seq<u8> {
    seq![44u8]
}

fn lit_comma() -> (r: Vec<u8>)
    ensures
        r@ == t_comma(),
{
    let mut v: Vec<u8> = Vec::new();
    v.push(44);
    proof {
        assert(v@ =~= t_comma());
    }
    v
}

/// The byte run `}`, backticks standing for quotes.
pub open spec fn t_rbrace() -> Seq<u8> {
    seq![125u8]
}

fn lit_rbrace() -> (r: Vec<u8>)
    ensures
        r@ == t_rbrace(),
{
    let mut v: Vec<u8> = Vec::new();
    v.push(125);
    proof {
        assert(v@ =~= t_rbrace());
    }
    v
}

/// The byte run `]`, backticks standing for quotes.
pub open spec fn t_rbracket() -> Seq<u8> {
    seq![93u8]
}

fn lit_rbracket() -> (r: Vec<u8>)
    ensures
        r@ == t_rbracket(),
{
    let mut v: Vec<u8> = Vec::new();
    v.push(93);
    proof {
        assert(v@ =~= t_rbracket());
    }
    v
}

/// The byte run ```, backticks standing for quotes.
pub open spec fn t_quote() -> Seq<u8> {
    seq![34u8]
}

fn lit_quote() -> (r: Vec<u8>)
    ensures
        r@ == t_quote(),
{
    let mut v: Vec<u8> = Vec::new();
    v.push(34);
    proof {
        assert(v@ =~= t_quote());
    }
    v
}

/// The byte run `]}`, backticks standing for quotes.
pub open spec fn t_tail() -> Seq<u8> {
    seq![93u8, 125u8]
}

fn lit_tail() -> (r: Vec<u8>)
    ensures
        r@ == t_tail(),
{
    let mut v: Vec<u8> = Vec::new();
    v.push(93);
    v.push(125);
    proof {
        assert(v@ =~= t_tail());
    }
    v
}


/// A quoted string.
pub open spec fn enc_qstr(s: Seq<u8>) -> Seq<u8> {
    t_quote() + s + t_quote()
}

/// One segment record in JSON.
pub open spec fn enc_seg(s: AbsSeg) -> Seq<u8> {
    t_obj_id() + dec_digits(s.id) + t_level() + dec_digits(s.level) + t_count()
        + dec_digits(s.count) + t_path() + enc_qstr(s.path) + t_check() + (match s.checksum {
        Some(c) => enc_qstr(c),
        None => t_null(),
    }) + t_rbrace()
}

/// The comma-led tail of a segment list.
pub open spec fn enc_segs_rest(s: Seq<AbsSeg>) -> Seq<u8>
    decreases s.len(),
{
    if s.len() == 0 {
        Seq::empty()
    } else {
        t_comma() + enc_seg(s.first()) + enc_segs_rest(s.drop_first())
    }
}

/// A segment list in JSON, without its brackets.
pub open spec fn enc_segs(s: Seq<AbsSeg>) -> Seq<u8> {
    if s.len() == 0 {
        Seq::empty()
    } else {
        enc_seg(s.first()) + enc_segs_rest(s.drop_first())
    }
}

/// One lane entry in JSON.
pub open spec fn enc_lane(l: AbsLane) -> Seq<u8> {
    t_obj_id() + dec_digits(l.id) + t_segs() + enc_segs(l.segments) + t_rbracket() + t_seqno()
        + dec_digits(l.seqno) + t_rbrace()
}

/// The comma-led tail of a lane list.
pub open spec fn enc_lanes_rest(s: Seq<AbsLane>) -> Seq<u8>
    decreases s.len(),
{
    if s.len() == 0 {
        Seq::empty()
    } else {
        t_comma() + enc_lane(s.first()) + enc_lanes_rest(s.drop_first())
    }
}

/// A lane list in JSON, without its brackets.
pub open spec fn enc_lanes(s: Seq<AbsLane>) -> Seq<u8> {
    if s.len() == 0 {
        Seq::empty()
    } else {
        enc_lane(s.first()) + enc_lanes_rest(s.drop_first())
    }
}

/// The whole manifest document.
pub open spec fn enc_manifest(m: AbsManifest) -> Seq<u8> {
    t_ver() + dec_digits(m.version) + t_num() + dec_digits(m.num_lanes) + t_gen()
        + dec_digits(m.generation) + t_lanes() + enc_lanes(m.lanes) + t_tail()
}

/// Whether the given token sits at `pos`.
pub open spec fn token_at(bytes: Seq<u8>, pos: int, tok: Seq<u8>) -> bool {
    &&& 0 <= pos
    &&& pos + tok.len() <= bytes.len()
    &&& bytes.subrange(pos, pos + tok.len()) == tok
}

/// The position of the next quote at or after `from`.
pub open spec fn spec_find_quote(bytes: Seq<u8>, from: int) -> Option<int>
    decreases bytes.len() - from,
{
    if from < 0 || from >= bytes.len() {
        None
    } else if bytes[from] == 34 {
        Some(from)
    } else {
        spec_find_quote(bytes, from + 1)
    }
}

/// A quoted string read from `pos`: the bytes between this quote and the
/// next.
pub open spec fn dec_qstr(bytes: Seq<u8>, pos: int) -> Option<(Seq<u8>, int)> {
    if 0 <= pos < bytes.len() && bytes[pos] == 34 {
        match spec_find_quote(bytes, pos + 1) {
            Some(e) => Some((bytes.subrange(pos + 1, e), e + 1)),
            None => None,
        }
    } else {
        None
    }
}

/// One segment record read from `pos`.
pub open spec fn dec_seg(bytes: Seq<u8>, pos: int) -> Option<(AbsSeg, int)> {
    if token_at(bytes, pos, t_obj_id()) {
        match spec_parse_dec(bytes, pos + t_obj_id().len()) {
            Some((id, p1)) => {
                if token_at(bytes, p1, t_level()) {
                    match spec_parse_dec(bytes, p1 + t_level().len()) {
                        Some((level, p2)) => {
                            if token_at(bytes, p2, t_count()) {
                                match spec_parse_dec(bytes, p2 + t_count().len()) {
                                    Some((count, p3)) => {
                                        if token_at(bytes, p3, t_path()) {
                                            match dec_qstr(bytes, p3 + t_path().len()) {
                                                Some((path, p4)) => {
                                                    if token_at(bytes, p4, t_check()) {
                                                        dec_seg_checksum(
                                                            bytes,
                                                            p4 + t_check().len(),
                                                            id,
                                                            level,
                                                            count,
                                                            path,
                                                        )
                                                    } else {
                                                        None
                                                    }
                                                }
                                                None => None,
                                            }
                                        } else {
                                            None
                                        }
                                    }
                                    None => None,
                                }
                            } else {
                                None
                            }
                        }
                        None => None,
                    }
                } else {
                    None
                }
            }
            None => None,
        }
    } else {
        None
    }
}

/// The checksum and closing brace of a segment record.
pub open spec fn dec_seg_checksum(
    bytes: Seq<u8>,
    pos: int,
    id: u64,
    level: u64,
    count: u64,
    path: Seq<u8>,
) -> Option<(AbsSeg, int)> {
    if token_at(bytes, pos, t_null()) {
        let p = pos + t_null().len();
        if token_at(bytes, p, t_rbrace()) {
            Some((AbsSeg { id, level, count, path, checksum: None }, p + 1))
        } else {
            None
        }
    } else {
        match dec_qstr(bytes, pos) {
            Some((c, p)) => {
                if token_at(bytes, p, t_rbrace()) {
                    Some((AbsSeg { id, level, count, path, checksum: Some(c) }, p + 1))
                } else {
                    None
                }
            }
            None => None,
        }
    }
}

/// A found quote lies inside the haystack, at or after the start.
proof fn lemma_find_quote_bounds(bytes: Seq<u8>, from: int)
    ensures
        spec_find_quote(bytes, from) matches Some(e) ==> from <= e < bytes.len(),
    decreases bytes.len() - from,
{
    if 0 <= from < bytes.len() && bytes[from] != 34 {
        lemma_find_quote_bounds(bytes, from + 1);
    }
}

/// A successful decimal parse moves forward, within bounds.
proof fn lemma_parse_dec_bounds(bytes: Seq<u8>, pos: int, acc: u64, seen: bool)
    requires
        0 <= pos <= bytes.len(),
    ensures
        crate::wire::spec_parse_dec_from(bytes, pos, acc, seen) matches Some((v, e))
            ==> pos <= e <= bytes.len(),
    decreases bytes.len() - pos,
{
    if 0 <= pos < bytes.len() && is_digit(bytes[pos]) {
        if acc * 10 + (bytes[pos] - 48) <= u64::MAX {
            lemma_parse_dec_bounds(
                bytes,
                pos + 1,
                (acc * 10 + (bytes[pos] - 48)) as u64,
                true,
            );
        }
    }
}

/// A decoded segment ends after it starts, within bounds.
proof fn lemma_dec_seg_bounds(bytes: Seq<u8>, pos: int)
    ensures
        dec_seg(bytes, pos) matches Some((s, e)) ==> pos < e <= bytes.len(),
{
    if token_at(bytes, pos, t_obj_id()) {
        lemma_parse_dec_bounds(bytes, pos + t_obj_id().len(), 0, false);
        match spec_parse_dec(bytes, pos + t_obj_id().len()) {
            Some((id, p1)) => {
                if token_at(bytes, p1, t_level()) {
                    lemma_parse_dec_bounds(bytes, p1 + t_level().len(), 0, false);
                    match spec_parse_dec(bytes, p1 + t_level().len()) {
                        Some((level, p2)) => {
                            if token_at(bytes, p2, t_count()) {
                                lemma_parse_dec_bounds(bytes, p2 + t_count().len(), 0, false);
                                match spec_parse_dec(bytes, p2 + t_count().len()) {
                                    Some((count, p3)) => {
                                        if token_at(bytes, p3, t_path()) {
                                            lemma_find_quote_bounds(
                                                bytes,
                                                p3 + t_path().len() + 1,
                                            );
                                            match dec_qstr(bytes, p3 + t_path().len()) {
                                                Some((path, p4)) => {
                                                    if token_at(bytes, p4, t_check()) {
                                                        lemma_find_quote_bounds(
                                                            bytes,
                                                            p4 + t_check().len() + 1,
                                                        );
                                                    }
                                                }
                                                None => {}
                                            }
                                        }
                                    }
                                    None => {}
                                }
                            }
                        }
                        None => {}
                    }
                }
            }
            None => {}
        }
    }
}

/// The comma-led tail of a segment list, read until something other than a
/// comma follows.
pub open spec fn dec_segs_rest(bytes: Seq<u8>, pos: int) -> Option<(Seq<AbsSeg>, int)>
    decreases bytes.len() - pos when pos >= 0 via dec_segs_rest_decreases
{
    if pos < 0 {
        None
    } else if token_at(bytes, pos, t_comma()) {
        match dec_seg(bytes, pos + 1) {
            Some((s, p)) => match dec_segs_rest(bytes, p) {
                Some((rest, e)) => Some((seq![s] + rest, e)),
                None => None,
            },
            None => None,
        }
    } else {
        Some((Seq::empty(), pos))
    }
}

#[via_fn]
proof fn dec_segs_rest_decreases(bytes: Seq<u8>, pos: int) {
    if pos >= 0 && token_at(bytes, pos, t_comma()) {
        lemma_dec_seg_bounds(bytes, pos + 1);
    }
}

/// A segment list read from `pos`, stopping before the closing bracket.
pub open spec fn dec_segs(bytes: Seq<u8>, pos: int) -> Option<(Seq<AbsSeg>, int)> {
    if token_at(bytes, pos, t_rbracket()) {
        Some((Seq::empty(), pos))
    } else {
        match dec_seg(bytes, pos) {
            Some((s, p)) => match dec_segs_rest(bytes, p) {
                Some((rest, e)) => Some((seq![s] + rest, e)),
                None => None,
            },
            None => None,
        }
    }
}

/// One lane entry read from `pos`.
pub open spec fn dec_lane(bytes: Seq<u8>, pos: int) -> Option<(AbsLane, int)> {
    if token_at(bytes, pos, t_obj_id()) {
        match spec_parse_dec(bytes, pos + t_obj_id().len()) {
            Some((id, p1)) => {
                if token_at(bytes, p1, t_segs()) {
                    match dec_segs(bytes, p1 + t_segs().len()) {
                        Some((segments, p2)) => {
                            if token_at(bytes, p2, t_rbracket())
                                && token_at(bytes, p2 + 1, t_seqno()) {
                                match spec_parse_dec(bytes, p2 + 1 + t_seqno().len()) {
                                    Some((seqno, p3)) => {
                                        if token_at(bytes, p3, t_rbrace()) {
                                            Some((AbsLane { id, segments, seqno }, p3 + 1))
                                        } else {
                                            None
                                        }
                                    }
                                    None => None,
                                }
                            } else {
                                None
                            }
                        }
                        None => None,
                    }
                } else {
                    None
                }
            }
            None => None,
        }
    } else {
        None
    }
}

/// A decoded segment list never moves backwards.
proof fn lemma_dec_segs_bounds(bytes: Seq<u8>, pos: int)
    requires
        0 <= pos <= bytes.len(),
    ensures
        dec_segs(bytes, pos) matches Some((s, e)) ==> pos <= e <= bytes.len(),
        dec_segs_rest(bytes, pos) matches Some((s, e)) ==> pos <= e <= bytes.len(),
    decreases bytes.len() - pos,
{
    if token_at(bytes, pos, t_comma()) {
        lemma_dec_seg_bounds(bytes, pos + 1);
        match dec_seg(bytes, pos + 1) {
            Some((s, p)) => {
                lemma_dec_segs_bounds(bytes, p);
            }
            None => {}
        }
    }
    if !token_at(bytes, pos, t_rbracket()) {
        lemma_dec_seg_bounds(bytes, pos);
        match dec_seg(bytes, pos) {
            Some((s, p)) => {
                lemma_dec_segs_bounds(bytes, p);
            }
            None => {}
        }
    }
}

/// A decoded lane ends after it starts, within bounds.
proof fn lemma_dec_lane_bounds(bytes: Seq<u8>, pos: int)
    ensures
        dec_lane(bytes, pos) matches Some((l, e)) ==> pos < e <= bytes.len(),
{
    if token_at(bytes, pos, t_obj_id()) {
        lemma_parse_dec_bounds(bytes, pos + t_obj_id().len(), 0, false);
        match spec_parse_dec(bytes, pos + t_obj_id().len()) {
            Some((id, p1)) => {
                if token_at(bytes, p1, t_segs()) {
                    lemma_dec_segs_bounds(bytes, p1 + t_segs().len());
                    match dec_segs(bytes, p1 + t_segs().len()) {
                        Some((segments, p2)) => {
                            if token_at(bytes, p2, t_rbracket())
                                && token_at(bytes, p2 + 1, t_seqno()) {
                                lemma_parse_dec_bounds(
                                    bytes,
                                    p2 + 1 + t_seqno().len(),
                                    0,
                                    false,
                                );
                            }
                        }
                        None => {}
                    }
                }
            }
            None => {}
        }
    }
}

/// The comma-led tail of a lane list.
pub open spec fn dec_lanes_rest(bytes: Seq<u8>, pos: int) -> Option<(Seq<AbsLane>, int)>
    decreases bytes.len() - pos when pos >= 0 via dec_lanes_rest_decreases
{
    if pos < 0 {
        None
    } else if token_at(bytes, pos, t_comma()) {
        match dec_lane(bytes, pos + 1) {
            Some((l, p)) => match dec_lanes_rest(bytes, p) {
                Some((rest, e)) => Some((seq![l] + rest, e)),
                None => None,
            },
            None => None,
        }
    } else {
        Some((Seq::empty(), pos))
    }
}

#[via_fn]
proof fn dec_lanes_rest_decreases(bytes: Seq<u8>, pos: int) {
    if pos >= 0 && token_at(bytes, pos, t_comma()) {
        lemma_dec_lane_bounds(bytes, pos + 1);
    }
}

/// A lane list read from `pos`, stopping before the closing bracket.
pub open spec fn dec_lanes(bytes: Seq<u8>, pos: int) -> Option<(Seq<AbsLane>, int)> {
    if token_at(bytes, pos, t_rbracket()) {
        Some((Seq::empty(), pos))
    } else {
        match dec_lane(bytes, pos) {
            Some((l, p)) => match dec_lanes_rest(bytes, p) {
                Some((rest, e)) => Some((seq![l] + rest, e)),
                None => None,
            },
            None => None,
        }
    }
}

/// A whole manifest document, consumed exactly.
pub open spec fn dec_manifest(bytes: Seq<u8>) -> Option<AbsManifest> {
    if token_at(bytes, 0, t_ver()) {
        match spec_parse_dec(bytes, t_ver().len() as int) {
            Some((version, p1)) => {
                if token_at(bytes, p1, t_num()) {
                    match spec_parse_dec(bytes, p1 + t_num().len()) {
                        Some((num_lanes, p2)) => {
                            if token_at(bytes, p2, t_gen()) {
                                match spec_parse_dec(bytes, p2 + t_gen().len()) {
                                    Some((generation, p3)) => {
                                        if token_at(bytes, p3, t_lanes()) {
                                            match dec_lanes(bytes, p3 + t_lanes().len()) {
                                                Some((lanes, p4)) => {
                                                    if token_at(bytes, p4, t_tail())
                                                        && p4 + t_tail().len() == bytes.len() {
                                                        Some(AbsManifest {
                                                            version,
                                                            num_lanes,
                                                            generation,
                                                            lanes,
                                                        })
                                                    } else {
                                                        None
                                                    }
                                                }
                                                None => None,
                                            }
                                        } else {
                                            None
                                        }
                                    }
                                    None => None,
                                }
                            } else {
                                None
                            }
                        }
                        None => None,
                    }
                } else {
                    None
                }
            }
            None => None,
        }
    } else {
        None
    }
}


/// Appending a segment extends the list tail at its end.
proof fn lemma_segs_rest_push(s: Seq<AbsSeg>, x: AbsSeg)
    ensures
        enc_segs_rest(s.push(x)) == enc_segs_rest(s) + (t_comma() + enc_seg(x)),
    decreases s.len(),
{
    if s.len() == 0 {
        assert(s.push(x).drop_first() =~= s);
        assert(s.push(x).first() == x);
        assert(enc_segs_rest(s.push(x)) =~= enc_segs_rest(s) + (t_comma() + enc_seg(x)));
    } else {
        assert(s.push(x).first() == s.first());
        assert(s.push(x).drop_first() =~= s.drop_first().push(x));
        lemma_segs_rest_push(s.drop_first(), x);
        assert(enc_segs_rest(s.push(x)) =~= enc_segs_rest(s) + (t_comma() + enc_seg(x)));
    }
}

/// Appending a lane extends the list tail at its end.
proof fn lemma_lanes_rest_push(s: Seq<AbsLane>, x: AbsLane)
    ensures
        enc_lanes_rest(s.push(x)) == enc_lanes_rest(s) + (t_comma() + enc_lane(x)),
    decreases s.len(),
{
    if s.len() == 0 {
        assert(s.push(x).drop_first() =~= s);
        assert(s.push(x).first() == x);
        assert(enc_lanes_rest(s.push(x)) =~= enc_lanes_rest(s) + (t_comma() + enc_lane(x)));
    } else {
        assert(s.push(x).first() == s.first());
        assert(s.push(x).drop_first() =~= s.drop_first().push(x));
        lemma_lanes_rest_push(s.drop_first(), x);
        assert(enc_lanes_rest(s.push(x)) =~= enc_lanes_rest(s) + (t_comma() + enc_lane(x)));
    }
}

/// Write one segment record.
fn put_seg(buf: &mut Vec<u8>, s: &SegmentMetadata)
    ensures
        final(buf)@ == old(buf)@ + enc_seg(seg_view(*s)),
{
    let ghost b0 = buf@;
    put_bytes(buf, &lit_obj_id());
    put_dec(buf, s.id);
    put_bytes(buf, &lit_level());
    put_dec(buf, s.level as u64);
    put_bytes(buf, &lit_count());
    put_dec(buf, s.count as u64);
    put_bytes(buf, &lit_path());
    put_bytes(buf, &lit_quote());
    put_bytes(buf, &s.path);
    put_bytes(buf, &lit_quote());
    put_bytes(buf, &lit_check());
    match &s.checksum {
        Some(c) => {
            put_bytes(buf, &lit_quote());
            put_bytes(buf, c);
            put_bytes(buf, &lit_quote());
        }
        None => {
            put_bytes(buf, &lit_null());
        }
    }
    put_bytes(buf, &lit_rbrace());
    proof {
        assert(buf@ =~= b0 + enc_seg(seg_view(*s)));
    }
}

/// Write one lane entry.
fn put_lane(buf: &mut Vec<u8>, l: &LaneManifest)
    ensures
        final(buf)@ == old(buf)@ + enc_lane(lane_view(*l)),
{
    let ghost b0 = buf@;
    let ghost av = lane_view(*l);
    put_bytes(buf, &lit_obj_id());
    put_dec(buf, l.id as u64);
    put_bytes(buf, &lit_segs());
    let ghost head = buf@;
    let mut i: usize = 0;
    while i < l.segments.len()
        invariant
            i <= l.segments@.len(),
            av == lane_view(*l),
            av.segments == l.segments@.map_values(|s: SegmentMetadata| seg_view(s)),
            buf@ == head + enc_segs(av.segments.subrange(0, i as int)),
        decreases l.segments@.len() - i,
    {
        let ghost pre = buf@;
        if i > 0 {
            put_bytes(buf, &lit_comma());
        }
        put_seg(buf, &l.segments[i]);
        proof {
            assert(seg_view(l.segments@[i as int]) == av.segments[i as int]);
            let prefix = av.segments.subrange(0, i as int);
            assert(av.segments.subrange(0, i + 1) =~= prefix.push(av.segments[i as int]));
            if i == 0 {
                assert(enc_segs(av.segments.subrange(0, 1))
                    =~= enc_seg(av.segments[0]) + enc_segs_rest(Seq::<AbsSeg>::empty())) by {
                    assert(av.segments.subrange(0, 1).first() == av.segments[0]);
                    assert(av.segments.subrange(0, 1).drop_first() =~= Seq::<AbsSeg>::empty());
                }
                assert(buf@ =~= head + enc_segs(av.segments.subrange(0, 1)));
            } else {
                assert(prefix.push(av.segments[i as int]).first() == prefix.first());
                assert(prefix.push(av.segments[i as int]).drop_first()
                    =~= prefix.drop_first().push(av.segments[i as int]));
                lemma_segs_rest_push(prefix.drop_first(), av.segments[i as int]);
                assert(enc_segs(av.segments.subrange(0, i + 1))
                    =~= enc_segs(prefix) + (t_comma() + enc_seg(av.segments[i as int])));
                assert(buf@ =~= head + enc_segs(av.segments.subrange(0, i + 1)));
            }
        }
        i = i + 1;
    }
    proof {
        assert(av.segments.subrange(0, av.segments.len() as int) =~= av.segments);
    }
    put_bytes(buf, &lit_rbracket());
    put_bytes(buf, &lit_seqno());
    put_dec(buf, l.overlay_seqno);
    put_bytes(buf, &lit_rbrace());
    proof {
        assert(buf@ =~= b0 + enc_lane(av));
    }
}

/// Serialize a manifest to its canonical JSON document.
pub fn encode_manifest(m: &Manifest) -> (r: Vec<u8>)
    ensures
        r@ == enc_manifest(manifest_view(*m)),
{
    let ghost av = manifest_view(*m);
    let mut buf: Vec<u8> = Vec::new();
    put_bytes(&mut buf, &lit_ver());
    put_dec(&mut buf, m.version as u64);
    put_bytes(&mut buf, &lit_num());
    put_dec(&mut buf, m.num_lanes as u64);
    put_bytes(&mut buf, &lit_gen());
    put_dec(&mut buf, m.generation);
    put_bytes(&mut buf, &lit_lanes());
    let ghost head = buf@;
    let mut i: usize = 0;
    while i < m.lanes.len()
        invariant
            i <= m.lanes@.len(),
            av == manifest_view(*m),
            av.lanes == m.lanes@.map_values(|l: LaneManifest| lane_view(l)),
            buf@ == head + enc_lanes(av.lanes.subrange(0, i as int)),
        decreases m.lanes@.len() - i,
    {
        if i > 0 {
            put_bytes(&mut buf, &lit_comma());
        }
        put_lane(&mut buf, &m.lanes[i]);
        proof {
            assert(lane_view(m.lanes@[i as int]) == av.lanes[i as int]);
            let prefix = av.lanes.subrange(0, i as int);
            assert(av.lanes.subrange(0, i + 1) =~= prefix.push(av.lanes[i as int]));
            if i == 0 {
                assert(enc_lanes(av.lanes.subrange(0, 1))
                    =~= enc_lane(av.lanes[0]) + enc_lanes_rest(Seq::<AbsLane>::empty())) by {
                    assert(av.lanes.subrange(0, 1).first() == av.lanes[0]);
                    assert(av.lanes.subrange(0, 1).drop_first() =~= Seq::<AbsLane>::empty());
                }
                assert(buf@ =~= head + enc_lanes(av.lanes.subrange(0, 1)));
            } else {
                assert(prefix.push(av.lanes[i as int]).first() == prefix.first());
                assert(prefix.push(av.lanes[i as int]).drop_first()
                    =~= prefix.drop_first().push(av.lanes[i as int]));
                lemma_lanes_rest_push(prefix.drop_first(), av.lanes[i as int]);
                assert(enc_lanes(av.lanes.subrange(0, i + 1))
                    =~= enc_lanes(prefix) + (t_comma() + enc_lane(av.lanes[i as int])));
                assert(buf@ =~= head + enc_lanes(av.lanes.subrange(0, i + 1)));
            }
        }
        i = i + 1;
    }
    proof {
        assert(av.lanes.subrange(0, av.lanes.len() as int) =~= av.lanes);
    }
    put_bytes(&mut buf, &lit_tail());
    proof {
        assert(buf@ =~= enc_manifest(av));
    }
    buf
}

/// Whether an abstract segment fits the machine types a manifest holds.
pub open spec fn seg_fits(a: AbsSeg) -> bool {
    a.level <= u32::MAX && a.count <= usize::MAX
}

/// Whether every abstract segment of a list fits.
pub open spec fn segs_fit(s: Seq<AbsSeg>) -> bool {
    forall|k: int| 0 <= k < s.len() ==> seg_fits(#[trigger] s[k])
}

/// Whether an abstract lane fits the machine types a manifest holds.
pub open spec fn lane_fits(a: AbsLane) -> bool {
    a.id <= u32::MAX && segs_fit(a.segments)
}

/// Whether every abstract lane of a list fits.
pub open spec fn lanes_fit(s: Seq<AbsLane>) -> bool {
    forall|k: int| 0 <= k < s.len() ==> lane_fits(#[trigger] s[k])
}

/// Whether an abstract manifest fits the machine types a manifest holds.
pub open spec fn manifest_fits(a: AbsManifest) -> bool {
    a.version <= u32::MAX && a.num_lanes <= usize::MAX && lanes_fit(a.lanes)
}

/// Consume an exact token.
fn eat(bytes: &[u8], pos: usize, tok: &Vec<u8>) -> (r: Option<usize>)
    ensures
        match r {
            Some(e) => token_at(bytes@, pos as int, tok@) && e == pos + tok@.len(),
            None => !token_at(bytes@, pos as int, tok@),
        },
{
    let blen = bytes.len();
    if pos > blen || blen - pos < tok.len() {
        return None;
    }
    let mut k: usize = 0;
    while k < tok.len()
        invariant
            k <= tok@.len(),
            blen == bytes@.len(),
            pos + tok@.len() <= bytes@.len(),
            forall|t: int| 0 <= t < k ==> bytes@[pos + t] == tok@[t],
        decreases tok@.len() - k,
    {
        if bytes[pos + k] != tok[k] {
            proof {
                assert(bytes@.subrange(pos as int, pos + tok@.len())[k as int]
                    == bytes@[pos + k]);
            }
            return None;
        }
        k = k + 1;
    }
    proof {
        assert(bytes@.subrange(pos as int, pos + tok@.len()) =~= tok@);
    }
    Some(pos + tok.len())
}

/// Read a quoted string.
fn read_qstr(bytes: &[u8], pos: usize) -> (r: Option<(Vec<u8>, usize)>)
    ensures
        match r {
            Some((v, e)) => dec_qstr(bytes@, pos as int) == Some((v@, e as int)),
            None => dec_qstr(bytes@, pos as int) is None,
        },
{
    let blen = bytes.len();
    if pos >= blen || bytes[pos] != 34 {
        return None;
    }
    let mut k: usize = pos + 1;
    while k < blen && bytes[k] != 34
        invariant
            pos + 1 <= k <= blen,
            blen == bytes@.len(),
            spec_find_quote(bytes@, pos + 1) == spec_find_quote(bytes@, k as int),
        decreases blen - k,
    {
        k = k + 1;
    }
    if k >= blen {
        return None;
    }
    match crate::wire::parse_bytes(bytes, pos + 1, k - (pos + 1)) {
        Some((v, _)) => Some((v, k + 1)),
        None => None,
    }
}

/// Read one segment record.
fn read_seg(bytes: &[u8], pos: usize) -> (r: Option<(SegmentMetadata, usize)>)
    ensures
        match r {
            Some((s, e)) => dec_seg(bytes@, pos as int) == Some((seg_view(s), e as int)),
            None => dec_seg(bytes@, pos as int) is None
                || !seg_fits(dec_seg(bytes@, pos as int).unwrap().0),
        },
{
    let p0 = match eat(bytes, pos, &lit_obj_id()) {
        Some(p) => p,
        None => {
            return None;
        }
    };
    let (id, p1) = match parse_dec(bytes, p0) {
        Some(t) => t,
        None => {
            return None;
        }
    };
    let p1b = match eat(bytes, p1, &lit_level()) {
        Some(p) => p,
        None => {
            return None;
        }
    };
    let (level, p2) = match parse_dec(bytes, p1b) {
        Some(t) => t,
        None => {
            return None;
        }
    };
    let p2b = match eat(bytes, p2, &lit_count()) {
        Some(p) => p,
        None => {
            return None;
        }
    };
    let (count, p3) = match parse_dec(bytes, p2b) {
        Some(t) => t,
        None => {
            return None;
        }
    };
    let p3b = match eat(bytes, p3, &lit_path()) {
        Some(p) => p,
        None => {
            return None;
        }
    };
    let (path, p4) = match read_qstr(bytes, p3b) {
        Some(t) => t,
        None => {
            return None;
        }
    };
    let p4b = match eat(bytes, p4, &lit_check()) {
        Some(p) => p,
        None => {
            return None;
        }
    };
    let (checksum, p5) = match eat(bytes, p4b, &lit_null()) {
        Some(p) => (None, p),
        None => match read_qstr(bytes, p4b) {
            Some((c, p)) => (Some(c), p),
            None => {
                return None;
            }
        },
    };
    let end = match eat(bytes, p5, &lit_rbrace()) {
        Some(p) => p,
        None => {
            return None;
        }
    };
    if level > u32::MAX as u64 || count > usize::MAX as u64 {
        return None;
    }
    Some((
        SegmentMetadata {
            id,
            level: level as u32,
            count: count as usize,
            path,
            checksum,
        },
        end,
    ))
}

/// Read a segment list, stopping before the closing bracket.
fn read_segs(bytes: &[u8], start: usize) -> (r: Option<(Vec<SegmentMetadata>, usize)>)
    ensures
        match r {
            Some((v, e)) => dec_segs(bytes@, start as int) == Some((
                v@.map_values(|s: SegmentMetadata| seg_view(s)),
                e as int,
            )),
            None => dec_segs(bytes@, start as int) is None
                || !segs_fit(dec_segs(bytes@, start as int).unwrap().0),
        },
{
    let mut acc: Vec<SegmentMetadata> = Vec::new();
    if eat(bytes, start, &lit_rbracket()).is_some() {
        proof {
            assert(acc@.map_values(|s: SegmentMetadata| seg_view(s))
                =~= Seq::<AbsSeg>::empty());
        }
        return Some((acc, start));
    }
    let (first, first_end) = match read_seg(bytes, start) {
        Some(t) => t,
        None => {
            proof {
                lemma_unfit_head(bytes@, start as int);
            }
            return None;
        }
    };
    let mut pos = first_end;
    proof {
        lemma_dec_seg_bounds(bytes@, start as int);
    }
    acc.push(first);
    let ghost whole = dec_segs(bytes@, start as int);
    proof {
        assert(acc@.map_values(|s: SegmentMetadata| seg_view(s))
            =~= seq![seg_view(first)]);
        let after = dec_segs_rest(bytes@, pos as int);
        if after is Some {
            assert(seq![seg_view(first)] + after.unwrap().0
                =~= acc@.map_values(|s: SegmentMetadata| seg_view(s)) + after.unwrap().0);
        }
    }
    loop
        invariant_except_break
            acc@.len() >= 1,
            pos <= bytes@.len(),
            whole == dec_segs(bytes@, start as int),
            (match dec_segs_rest(bytes@, pos as int) {
                Some((rest, e)) => whole == Some((
                    acc@.map_values(|s: SegmentMetadata| seg_view(s)) + rest,
                    e,
                )),
                None => whole is None,
            }),
        ensures
            whole matches Some((all, e))
                && acc@.map_values(|s: SegmentMetadata| seg_view(s)) == all
                && pos == e,
        decreases bytes@.len() - pos,
    {
        match eat(bytes, pos, &lit_comma()) {
            Some(p) => {
                let (item, p2) = match read_seg(bytes, p) {
                    Some(t) => t,
                    None => {
                        proof {
                            lemma_unfit_in_rest(bytes@, pos as int, whole,
                                acc@.map_values(|s: SegmentMetadata| seg_view(s)));
                        }
                        return None;
                    }
                };
                proof {
                    lemma_dec_seg_bounds(bytes@, p as int);
                }
                let ghost pre = acc@;
                acc.push(item);
                proof {
                    assert(acc@.map_values(|s: SegmentMetadata| seg_view(s))
                        =~= pre.map_values(|s: SegmentMetadata| seg_view(s)).push(
                            seg_view(item),
                        ));
                    let after = dec_segs_rest(bytes@, p2 as int);
                    if after is Some {
                        assert(acc@.map_values(|s: SegmentMetadata| seg_view(s))
                            + after.unwrap().0
                            =~= pre.map_values(|s: SegmentMetadata| seg_view(s))
                                + (seq![seg_view(item)] + after.unwrap().0));
                    }
                }
                pos = p2;
            }
            None => {
                proof {
                    let views = acc@.map_values(|s: SegmentMetadata| seg_view(s));
                    assert(views + Seq::<AbsSeg>::empty() =~= views);
                }
                break;
            }
        }
    }
    Some((acc, pos))
}

/// When the head record is unreadable or does not fit, so is the list.
proof fn lemma_unfit_head(bytes: Seq<u8>, pos: int)
    requires
        !token_at(bytes, pos, t_rbracket()),
        dec_seg(bytes, pos) is None || !seg_fits(dec_seg(bytes, pos).unwrap().0),
    ensures
        dec_segs(bytes, pos) is None || !segs_fit(dec_segs(bytes, pos).unwrap().0),
{
    match dec_seg(bytes, pos) {
        Some((a, p)) => {
            match dec_segs_rest(bytes, p) {
                Some((rest, e)) => {
                    let all = seq![a] + rest;
                    assert(all[0] == a);
                    assert(!segs_fit(all));
                }
                None => {}
            }
        }
        None => {}
    }
}

/// When the next record of the tail is unreadable or does not fit, the
/// whole list is unreadable or holds an unfit record.
proof fn lemma_unfit_in_rest(
    bytes: Seq<u8>,
    pos: int,
    whole: Option<(Seq<AbsSeg>, int)>,
    acc_views: Seq<AbsSeg>,
)
    requires
        token_at(bytes, pos, t_comma()),
        dec_seg(bytes, pos + 1) is None
            || !seg_fits(dec_seg(bytes, pos + 1).unwrap().0),
        (match dec_segs_rest(bytes, pos) {
            Some((rest, e)) => whole == Some((acc_views + rest, e)),
            None => whole is None,
        }),
    ensures
        whole is None || !segs_fit(whole.unwrap().0),
{
    match dec_seg(bytes, pos + 1) {
        Some((a, p)) => {
            match dec_segs_rest(bytes, p) {
                Some((rest2, e2)) => {
                    let rest = seq![a] + rest2;
                    assert(dec_segs_rest(bytes, pos) == Some((rest, e2)));
                    let all = acc_views + rest;
                    assert(all[acc_views.len() as int] == a);
                    assert(!segs_fit(all));
                }
                None => {}
            }
        }
        None => {}
    }
}

/// Read one lane entry.
fn read_lane(bytes: &[u8], pos: usize) -> (r: Option<(LaneManifest, usize)>)
    ensures
        match r {
            Some((l, e)) => dec_lane(bytes@, pos as int) == Some((lane_view(l), e as int)),
            None => dec_lane(bytes@, pos as int) is None
                || !lane_fits(dec_lane(bytes@, pos as int).unwrap().0),
        },
{
    let p0 = match eat(bytes, pos, &lit_obj_id()) {
        Some(p) => p,
        None => {
            return None;
        }
    };
    let (id, p1) = match parse_dec(bytes, p0) {
        Some(t) => t,
        None => {
            return None;
        }
    };
    let p1b = match eat(bytes, p1, &lit_segs()) {
        Some(p) => p,
        None => {
            return None;
        }
    };
    let (segments, p2) = match read_segs(bytes, p1b) {
        Some(t) => t,
        None => {
            proof {
                match dec_segs(bytes@, p1b as int) {
                    Some((ss, e)) => {
                        assert(!segs_fit(ss));
                        match dec_lane(bytes@, pos as int) {
                            Some((l, e2)) => {
                                assert(l.segments == ss);
                            }
                            None => {}
                        }
                    }
                    None => {}
                }
            }
            return None;
        }
    };
    let p2b = match eat(bytes, p2, &lit_rbracket()) {
        Some(p) => p,
        None => {
            return None;
        }
    };
    let p2c = match eat(bytes, p2b, &lit_seqno()) {
        Some(p) => p,
        None => {
            return None;
        }
    };
    let (seqno, p3) = match parse_dec(bytes, p2c) {
        Some(t) => t,
        None => {
            return None;
        }
    };
    let end = match eat(bytes, p3, &lit_rbrace()) {
        Some(p) => p,
        None => {
            return None;
        }
    };
    if id > u32::MAX as u64 {
        return None;
    }
    let lane = LaneManifest { id: id as u32, segments, overlay_seqno: seqno };
    proof {
        assert(lane_view(lane).segments
            =~= segments@.map_values(|s: SegmentMetadata| seg_view(s)));
    }
    Some((lane, end))
}

/// When the head lane is unreadable or does not fit, so is the list.
proof fn lemma_lane_unfit_head(bytes: Seq<u8>, pos: int)
    requires
        !token_at(bytes, pos, t_rbracket()),
        dec_lane(bytes, pos) is None || !lane_fits(dec_lane(bytes, pos).unwrap().0),
    ensures
        dec_lanes(bytes, pos) is None || !lanes_fit(dec_lanes(bytes, pos).unwrap().0),
{
    match dec_lane(bytes, pos) {
        Some((a, p)) => {
            match dec_lanes_rest(bytes, p) {
                Some((rest, e)) => {
                    let all = seq![a] + rest;
                    assert(all[0] == a);
                    assert(!lanes_fit(all));
                }
                None => {}
            }
        }
        None => {}
    }
}

/// When the next lane of the tail is unreadable or does not fit, so is the
/// whole list.
proof fn lemma_lane_unfit_in_rest(
    bytes: Seq<u8>,
    pos: int,
    whole: Option<(Seq<AbsLane>, int)>,
    acc_views: Seq<AbsLane>,
)
    requires
        token_at(bytes, pos, t_comma()),
        dec_lane(bytes, pos + 1) is None
            || !lane_fits(dec_lane(bytes, pos + 1).unwrap().0),
        (match dec_lanes_rest(bytes, pos) {
            Some((rest, e)) => whole == Some((acc_views + rest, e)),
            None => whole is None,
        }),
    ensures
        whole is None || !lanes_fit(whole.unwrap().0),
{
    match dec_lane(bytes, pos + 1) {
        Some((a, p)) => {
            match dec_lanes_rest(bytes, p) {
                Some((rest2, e2)) => {
                    let rest = seq![a] + rest2;
                    assert(dec_lanes_rest(bytes, pos) == Some((rest, e2)));
                    let all = acc_views + rest;
                    assert(all[acc_views.len() as int] == a);
                    assert(!lanes_fit(all));
                }
                None => {}
            }
        }
        None => {}
    }
}

/// Read a lane list, stopping before the closing bracket.
fn read_lanes(bytes: &[u8], start: usize) -> (r: Option<(Vec<LaneManifest>, usize)>)
    ensures
        match r {
            Some((v, e)) => dec_lanes(bytes@, start as int) == Some((
                v@.map_values(|l: LaneManifest| lane_view(l)),
                e as int,
            )),
            None => dec_lanes(bytes@, start as int) is None
                || !lanes_fit(dec_lanes(bytes@, start as int).unwrap().0),
        },
{
    let mut acc: Vec<LaneManifest> = Vec::new();
    if eat(bytes, start, &lit_rbracket()).is_some() {
        proof {
            assert(acc@.map_values(|l: LaneManifest| lane_view(l))
                =~= Seq::<AbsLane>::empty());
        }
        return Some((acc, start));
    }
    let (first, first_end) = match read_lane(bytes, start) {
        Some(t) => t,
        None => {
            proof {
                lemma_lane_unfit_head(bytes@, start as int);
            }
            return None;
        }
    };
    let mut pos = first_end;
    proof {
        lemma_dec_lane_bounds(bytes@, start as int);
    }
    acc.push(first);
    let ghost whole = dec_lanes(bytes@, start as int);
    proof {
        assert(acc@.map_values(|l: LaneManifest| lane_view(l))
            =~= seq![lane_view(first)]);
        let after = dec_lanes_rest(bytes@, pos as int);
        if after is Some {
            assert(seq![lane_view(first)] + after.unwrap().0
                =~= acc@.map_values(|l: LaneManifest| lane_view(l)) + after.unwrap().0);
        }
    }
    loop
        invariant_except_break
            acc@.len() >= 1,
            pos <= bytes@.len(),
            whole == dec_lanes(bytes@, start as int),
            (match dec_lanes_rest(bytes@, pos as int) {
                Some((rest, e)) => whole == Some((
                    acc@.map_values(|l: LaneManifest| lane_view(l)) + rest,
                    e,
                )),
                None => whole is None,
            }),
        ensures
            whole matches Some((all, e))
                && acc@.map_values(|l: LaneManifest| lane_view(l)) == all
                && pos == e,
        decreases bytes@.len() - pos,
    {
        match eat(bytes, pos, &lit_comma()) {
            Some(p) => {
                let (item, p2) = match read_lane(bytes, p) {
                    Some(t) => t,
                    None => {
                        proof {
                            lemma_lane_unfit_in_rest(bytes@, pos as int, whole,
                                acc@.map_values(|l: LaneManifest| lane_view(l)));
                        }
                        return None;
                    }
                };
                proof {
                    lemma_dec_lane_bounds(bytes@, p as int);
                }
                let ghost pre = acc@;
                acc.push(item);
                proof {
                    assert(acc@.map_values(|l: LaneManifest| lane_view(l))
                        =~= pre.map_values(|l: LaneManifest| lane_view(l)).push(
                            lane_view(item),
                        ));
                    let after = dec_lanes_rest(bytes@, p2 as int);
                    if after is Some {
                        assert(acc@.map_values(|l: LaneManifest| lane_view(l))
                            + after.unwrap().0
                            =~= pre.map_values(|l: LaneManifest| lane_view(l))
                                + (seq![lane_view(item)] + after.unwrap().0));
                    }
                }
                pos = p2;
            }
            None => {
                proof {
                    let views = acc@.map_values(|l: LaneManifest| lane_view(l));
                    assert(views + Seq::<AbsLane>::empty() =~= views);
                }
                break;
            }
        }
    }
    Some((acc, pos))
}

/// Parse the canonical manifest document back. A malformed document, a
/// foreign version, trailing bytes, or a value beyond the machine types is
/// a parse error.
pub fn decode_manifest(bytes: &[u8]) -> (r: Result<Manifest, String>)
    ensures
        match r {
            Ok(m) => dec_manifest(bytes@) == Some(manifest_view(m)),
            Err(_) => dec_manifest(bytes@) is None
                || !manifest_fits(dec_manifest(bytes@).unwrap()),
        },
{
    let p0 = match eat(bytes, 0, &lit_ver()) {
        Some(p) => p,
        None => {
            return Err(doc_error());
        }
    };
    let (version, p1) = match parse_dec(bytes, p0) {
        Some(t) => t,
        None => {
            return Err(doc_error());
        }
    };
    let p1b = match eat(bytes, p1, &lit_num()) {
        Some(p) => p,
        None => {
            return Err(doc_error());
        }
    };
    let (num_lanes, p2) = match parse_dec(bytes, p1b) {
        Some(t) => t,
        None => {
            return Err(doc_error());
        }
    };
    let p2b = match eat(bytes, p2, &lit_gen()) {
        Some(p) => p,
        None => {
            return Err(doc_error());
        }
    };
    let (generation, p3) = match parse_dec(bytes, p2b) {
        Some(t) => t,
        None => {
            return Err(doc_error());
        }
    };
    let p3b = match eat(bytes, p3, &lit_lanes()) {
        Some(p) => p,
        None => {
            return Err(doc_error());
        }
    };
    let (lanes, p4) = match read_lanes(bytes, p3b) {
        Some(t) => t,
        None => {
            proof {
                match dec_lanes(bytes@, p3b as int) {
                    Some((ls, e)) => {
                        assert(!lanes_fit(ls));
                        match dec_manifest(bytes@) {
                            Some(am) => {
                                assert(am.lanes == ls);
                            }
                            None => {}
                        }
                    }
                    None => {}
                }
            }
            return Err(doc_error());
        }
    };
    let p5 = match eat(bytes, p4, &lit_tail()) {
        Some(p) => p,
        None => {
            return Err(doc_error());
        }
    };
    if p5 != bytes.len() {
        return Err(doc_error());
    }
    if version > u32::MAX as u64 || num_lanes > usize::MAX as u64 {
        return Err(doc_error());
    }
    let m = Manifest {
        version: version as u32,
        num_lanes: num_lanes as usize,
        generation,
        lanes,
    };
    proof {
        assert(manifest_view(m).lanes
            =~= lanes@.map_values(|l: LaneManifest| lane_view(l)));
    }
    Ok(m)
}

/// The message every manifest parse failure carries.
fn doc_error() -> (r: String)
    ensures
        true,
{
    String::from_str("malformed manifest document")
}

/// Splitting a known concatenation at its seam.
proof fn lemma_cat_at(bytes: Seq<u8>, pos: int, a: Seq<u8>, b: Seq<u8>)
    requires
        0 <= pos,
        pos + a.len() + b.len() <= bytes.len(),
        bytes.subrange(pos, pos + a.len() + b.len()) == a + b,
    ensures
        bytes.subrange(pos, pos + a.len()) == a,
        bytes.subrange(pos + a.len(), pos + a.len() + b.len()) == b,
{
    let whole = bytes.subrange(pos, pos + a.len() + b.len());
    assert(bytes.subrange(pos, pos + a.len()) =~= a) by {
        assert forall|k: int| #![trigger a[k]] 0 <= k < a.len()
            implies bytes.subrange(pos, pos + a.len())[k] == a[k] by {
            assert(whole[k] == bytes[pos + k]);
            assert(bytes.subrange(pos, pos + a.len())[k] == bytes[pos + k]);
        }
    }
    assert(bytes.subrange(pos + a.len(), pos + a.len() + b.len()) =~= b) by {
        assert forall|k: int| #![trigger b[k]] 0 <= k < b.len()
            implies bytes.subrange(pos + a.len(), pos + a.len() + b.len())[k] == b[k] by {
            assert(whole[a.len() + k] == bytes[pos + a.len() + k]);
            assert(bytes.subrange(pos + a.len(), pos + a.len() + b.len())[k]
                == bytes[pos + a.len() + k]);
        }
    }
}

/// A quote-free run ends at the first quote after it.
proof fn lemma_find_quote_run(bytes: Seq<u8>, from: int, n: int)
    requires
        0 <= from,
        0 <= n,
        from + n < bytes.len(),
        forall|k: int| #![trigger bytes[from + k]] 0 <= k < n ==> bytes[from + k] != 34,
        bytes[from + n] == 34,
    ensures
        spec_find_quote(bytes, from) == Some(from + n),
    decreases n,
{
    if n > 0 {
        assert(bytes[from] != 34) by {
            assert(bytes[from + 0] != 34);
        }
        assert forall|k: int| #![trigger bytes[from + 1 + k]] 0 <= k < n - 1
            implies bytes[from + 1 + k] != 34 by {
            assert(bytes[from + (k + 1)] != 34);
        }
        lemma_find_quote_run(bytes, from + 1, n - 1);
    }
}

/// Reading back a written quoted string yields its bytes.
proof fn lemma_qstr_rt(bytes: Seq<u8>, pos: int, s: Seq<u8>)
    requires
        json_safe(s),
        0 <= pos,
        pos + s.len() + 2 <= bytes.len(),
        bytes.subrange(pos, pos + s.len() + 2) == enc_qstr(s),
    ensures
        dec_qstr(bytes, pos) == Some((s, pos + s.len() + 2)),
{
    let e = enc_qstr(s);
    assert forall|k: int| #![trigger e[k]] 0 <= k < e.len()
        implies bytes[pos + k] == e[k] by {
        assert(bytes.subrange(pos, pos + e.len())[k] == bytes[pos + k]);
    }
    assert(bytes[pos] == 34) by {
        assert(e[0] == 34);
        assert(bytes[pos + 0] == e[0]);
    }
    assert forall|k: int| #![trigger bytes[pos + 1 + k]] 0 <= k < s.len()
        implies bytes[pos + 1 + k] != 34 by {
        assert(e[k + 1] == s[k]);
        assert(bytes[pos + (k + 1)] == e[k + 1]);
    }
    assert(bytes[pos + 1 + s.len() as int] == 34) by {
        assert(e[s.len() as int + 1] == 34);
        assert(bytes[pos + (s.len() as int + 1)] == e[s.len() as int + 1]);
    }
    lemma_find_quote_run(bytes, pos + 1, s.len() as int);
    assert(bytes.subrange(pos + 1, pos + 1 + s.len()) =~= s) by {
        assert forall|k: int| #![trigger s[k]] 0 <= k < s.len()
            implies bytes.subrange(pos + 1, pos + 1 + s.len())[k] == s[k] by {
            assert(bytes.subrange(pos + 1, pos + 1 + s.len())[k] == bytes[pos + 1 + k]);
            assert(bytes[pos + (k + 1)] == e[k + 1]);
        }
    }
}

/// Whether an abstract segment's strings fit the document unescaped.
pub open spec fn abs_seg_safe(a: AbsSeg) -> bool {
    &&& json_safe(a.path)
    &&& match a.checksum {
        Some(c) => json_safe(c),
        None => true,
    }
}

/// Reading back a written segment record yields it.
#[verifier::rlimit(100)]
#[verifier::spinoff_prover]
proof fn lemma_seg_rt(bytes: Seq<u8>, pos: int, s: AbsSeg)
    requires
        abs_seg_safe(s),
        0 <= pos,
        pos + enc_seg(s).len() <= bytes.len(),
        bytes.subrange(pos, pos + enc_seg(s).len()) == enc_seg(s),
    ensures
        dec_seg(bytes, pos) == Some((s, pos + enc_seg(s).len())),
{
    let echeck: Seq<u8> = match s.checksum {
        Some(c) => enc_qstr(c),
        None => t_null(),
    };
    let r1 = dec_digits(s.id) + (t_level() + (dec_digits(s.level) + (t_count()
        + (dec_digits(s.count) + (t_path() + (enc_qstr(s.path) + (t_check()
        + (echeck + t_rbrace()))))))));
    assert(enc_seg(s) =~= t_obj_id() + r1);
    lemma_cat_at(bytes, pos, t_obj_id(), r1);
    let q0 = pos + t_obj_id().len();
    let r2 = t_level() + (dec_digits(s.level) + (t_count() + (dec_digits(s.count)
        + (t_path() + (enc_qstr(s.path) + (t_check() + (echeck + t_rbrace())))))));
    lemma_cat_at(bytes, q0, dec_digits(s.id), r2);
    let q1 = q0 + dec_digits(s.id).len();
    let r3 = dec_digits(s.level) + (t_count() + (dec_digits(s.count) + (t_path()
        + (enc_qstr(s.path) + (t_check() + (echeck + t_rbrace()))))));
    lemma_cat_at(bytes, q1, t_level(), r3);
    let q2 = q1 + t_level().len();
    let r4 = t_count() + (dec_digits(s.count) + (t_path() + (enc_qstr(s.path)
        + (t_check() + (echeck + t_rbrace())))));
    lemma_cat_at(bytes, q2, dec_digits(s.level), r4);
    let q3 = q2 + dec_digits(s.level).len();
    let r5 = dec_digits(s.count) + (t_path() + (enc_qstr(s.path) + (t_check()
        + (echeck + t_rbrace()))));
    lemma_cat_at(bytes, q3, t_count(), r5);
    let q4 = q3 + t_count().len();
    let r6 = t_path() + (enc_qstr(s.path) + (t_check() + (echeck + t_rbrace())));
    lemma_cat_at(bytes, q4, dec_digits(s.count), r6);
    let q5 = q4 + dec_digits(s.count).len();
    let r7 = enc_qstr(s.path) + (t_check() + (echeck + t_rbrace()));
    lemma_cat_at(bytes, q5, t_path(), r7);
    let q6 = q5 + t_path().len();
    let r8 = t_check() + (echeck + t_rbrace());
    lemma_cat_at(bytes, q6, enc_qstr(s.path), r8);
    let q7 = q6 + enc_qstr(s.path).len();
    let r9 = echeck + t_rbrace();
    lemma_cat_at(bytes, q7, t_check(), r9);
    let q8 = q7 + t_check().len();
    lemma_cat_at(bytes, q8, echeck, t_rbrace());
    let q9 = q8 + echeck.len();

    assert(bytes[q1] == 44) by {
        assert(bytes.subrange(q1, q1 + t_level().len())[0] == bytes[q1]);
    }
    lemma_dec_round_trip(bytes, q0, s.id);
    assert(bytes[q3] == 44) by {
        assert(bytes.subrange(q3, q3 + t_count().len())[0] == bytes[q3]);
    }
    lemma_dec_round_trip(bytes, q2, s.level);
    assert(bytes[q5] == 44) by {
        assert(bytes.subrange(q5, q5 + t_path().len())[0] == bytes[q5]);
    }
    lemma_dec_round_trip(bytes, q4, s.count);
    lemma_qstr_rt(bytes, q6, s.path);
    match s.checksum {
        Some(c) => {
            lemma_qstr_rt(bytes, q8, c);
            assert(!token_at(bytes, q8, t_null())) by {
                assert(bytes.subrange(q8, q8 + echeck.len())[0] == bytes[q8]);
                assert(bytes[q8] == 34);
                if token_at(bytes, q8, t_null()) {
                    assert(bytes.subrange(q8, q8 + t_null().len())[0] == bytes[q8]);
                }
            }
        }
        None => {
            assert(token_at(bytes, q8, t_null()));
        }
    }
    assert(token_at(bytes, q9, t_rbrace()));
}

/// Whether every abstract segment's strings fit unescaped.
pub open spec fn abs_segs_safe(s: Seq<AbsSeg>) -> bool {
    forall|k: int| 0 <= k < s.len() ==> abs_seg_safe(#[trigger] s[k])
}

/// Reading back a written comma-led segment tail yields it.
proof fn lemma_segs_rest_rt(bytes: Seq<u8>, pos: int, s: Seq<AbsSeg>)
    requires
        abs_segs_safe(s),
        0 <= pos,
        pos + enc_segs_rest(s).len() < bytes.len(),
        bytes.subrange(pos, pos + enc_segs_rest(s).len()) == enc_segs_rest(s),
        bytes[pos + enc_segs_rest(s).len()] == 93,
    ensures
        dec_segs_rest(bytes, pos) == Some((s, pos + enc_segs_rest(s).len())),
    decreases s.len(),
{
    if s.len() == 0 {
        assert(!token_at(bytes, pos, t_comma())) by {
            if token_at(bytes, pos, t_comma()) {
                assert(bytes.subrange(pos, pos + 1)[0] == bytes[pos]);
            }
        }
    } else {
        let head = s.first();
        let tail = s.drop_first();
        let r1 = enc_seg(head) + enc_segs_rest(tail);
        assert(enc_segs_rest(s) =~= t_comma() + r1);
        lemma_cat_at(bytes, pos, t_comma(), r1);
        let q0 = pos + 1;
        lemma_cat_at(bytes, q0, enc_seg(head), enc_segs_rest(tail));
        let q1 = q0 + enc_seg(head).len();
        assert(token_at(bytes, pos, t_comma()));
        assert(abs_seg_safe(head)) by {
            assert(s[0] == head);
        }
        lemma_seg_rt(bytes, q0, head);
        assert(abs_segs_safe(tail)) by {
            assert(forall|k: int| 0 <= k < tail.len() ==> tail[k] == s[k + 1]);
        }
        lemma_segs_rest_rt(bytes, q1, tail);
        assert(seq![head] + tail =~= s);
    }
}

/// Reading back a written segment list yields it.
proof fn lemma_segs_rt(bytes: Seq<u8>, pos: int, s: Seq<AbsSeg>)
    requires
        abs_segs_safe(s),
        0 <= pos,
        pos + enc_segs(s).len() < bytes.len(),
        bytes.subrange(pos, pos + enc_segs(s).len()) == enc_segs(s),
        bytes[pos + enc_segs(s).len()] == 93,
    ensures
        dec_segs(bytes, pos) == Some((s, pos + enc_segs(s).len())),
{
    if s.len() == 0 {
        assert(token_at(bytes, pos, t_rbracket())) by {
            assert(enc_segs(s) =~= Seq::<u8>::empty());
            assert(bytes.subrange(pos, pos + 1) =~= t_rbracket()) by {
                assert(bytes.subrange(pos, pos + 1)[0] == bytes[pos]);
            }
        }
        assert(s =~= Seq::<AbsSeg>::empty());
    } else {
        let head = s.first();
        let tail = s.drop_first();
        assert(enc_segs(s) =~= enc_seg(head) + enc_segs_rest(tail));
        lemma_cat_at(bytes, pos, enc_seg(head), enc_segs_rest(tail));
        let q1 = pos + enc_seg(head).len();
        assert(!token_at(bytes, pos, t_rbracket())) by {
            assert(bytes.subrange(pos, pos + enc_seg(head).len())[0] == bytes[pos]);
            assert(enc_seg(head)[0] == 123);
            if token_at(bytes, pos, t_rbracket()) {
                assert(bytes.subrange(pos, pos + 1)[0] == bytes[pos]);
            }
        }
        assert(abs_seg_safe(head)) by {
            assert(s[0] == head);
        }
        lemma_seg_rt(bytes, pos, head);
        assert(abs_segs_safe(tail)) by {
            assert(forall|k: int| 0 <= k < tail.len() ==> tail[k] == s[k + 1]);
        }
        lemma_segs_rest_rt(bytes, q1, tail);
        assert(seq![head] + tail =~= s);
    }
}

/// Whether an abstract lane's strings fit unescaped.
pub open spec fn abs_lane_safe(l: AbsLane) -> bool {
    abs_segs_safe(l.segments)
}

/// Whether every abstract lane's strings fit unescaped.
pub open spec fn abs_lanes_safe(s: Seq<AbsLane>) -> bool {
    forall|k: int| 0 <= k < s.len() ==> abs_lane_safe(#[trigger] s[k])
}

/// Reading back a written lane entry yields it.
#[verifier::rlimit(100)]
#[verifier::spinoff_prover]
proof fn lemma_lane_rt(bytes: Seq<u8>, pos: int, l: AbsLane)
    requires
        abs_lane_safe(l),
        0 <= pos,
        pos + enc_lane(l).len() <= bytes.len(),
        bytes.subrange(pos, pos + enc_lane(l).len()) == enc_lane(l),
    ensures
        dec_lane(bytes, pos) == Some((l, pos + enc_lane(l).len())),
{
    let r1 = dec_digits(l.id) + (t_segs() + (enc_segs(l.segments) + (t_rbracket()
        + (t_seqno() + (dec_digits(l.seqno) + t_rbrace())))));
    assert(enc_lane(l) =~= t_obj_id() + r1);
    lemma_cat_at(bytes, pos, t_obj_id(), r1);
    let q0 = pos + t_obj_id().len();
    let r2 = t_segs() + (enc_segs(l.segments) + (t_rbracket() + (t_seqno()
        + (dec_digits(l.seqno) + t_rbrace()))));
    lemma_cat_at(bytes, q0, dec_digits(l.id), r2);
    let q1 = q0 + dec_digits(l.id).len();
    let r3 = enc_segs(l.segments) + (t_rbracket() + (t_seqno()
        + (dec_digits(l.seqno) + t_rbrace())));
    lemma_cat_at(bytes, q1, t_segs(), r3);
    let q2 = q1 + t_segs().len();
    let r4 = t_rbracket() + (t_seqno() + (dec_digits(l.seqno) + t_rbrace()));
    lemma_cat_at(bytes, q2, enc_segs(l.segments), r4);
    let q3 = q2 + enc_segs(l.segments).len();
    let r5 = t_seqno() + (dec_digits(l.seqno) + t_rbrace());
    lemma_cat_at(bytes, q3, t_rbracket(), r5);
    let q4 = q3 + 1;
    let r6 = dec_digits(l.seqno) + t_rbrace();
    lemma_cat_at(bytes, q4, t_seqno(), r6);
    let q5 = q4 + t_seqno().len();
    lemma_cat_at(bytes, q5, dec_digits(l.seqno), t_rbrace());
    let q6 = q5 + dec_digits(l.seqno).len();

    assert(bytes[q1] == 44) by {
        assert(bytes.subrange(q1, q1 + t_segs().len())[0] == bytes[q1]);
    }
    lemma_dec_round_trip(bytes, q0, l.id);
    assert(bytes[q3] == 93) by {
        assert(bytes.subrange(q3, q3 + 1)[0] == bytes[q3]);
    }
    lemma_segs_rt(bytes, q2, l.segments);
    assert(token_at(bytes, q3, t_rbracket()));
    assert(token_at(bytes, q3 + 1, t_seqno()));
    assert(bytes[q6] == 125) by {
        assert(bytes.subrange(q6, q6 + 1)[0] == bytes[q6]);
    }
    lemma_dec_round_trip(bytes, q5, l.seqno);
    assert(token_at(bytes, q6, t_rbrace()));
}

/// Reading back a written comma-led lane tail yields it.
#[verifier::rlimit(60)]
proof fn lemma_lanes_rest_rt(bytes: Seq<u8>, pos: int, s: Seq<AbsLane>)
    requires
        abs_lanes_safe(s),
        0 <= pos,
        pos + enc_lanes_rest(s).len() < bytes.len(),
        bytes.subrange(pos, pos + enc_lanes_rest(s).len()) == enc_lanes_rest(s),
        bytes[pos + enc_lanes_rest(s).len()] == 93,
    ensures
        dec_lanes_rest(bytes, pos) == Some((s, pos + enc_lanes_rest(s).len())),
    decreases s.len(),
{
    if s.len() == 0 {
        assert(!token_at(bytes, pos, t_comma())) by {
            if token_at(bytes, pos, t_comma()) {
                assert(bytes.subrange(pos, pos + 1)[0] == bytes[pos]);
            }
        }
    } else {
        let head = s.first();
        let tail = s.drop_first();
        let r1 = enc_lane(head) + enc_lanes_rest(tail);
        assert(enc_lanes_rest(s) =~= t_comma() + r1);
        lemma_cat_at(bytes, pos, t_comma(), r1);
        let q0 = pos + 1;
        lemma_cat_at(bytes, q0, enc_lane(head), enc_lanes_rest(tail));
        let q1 = q0 + enc_lane(head).len();
        assert(token_at(bytes, pos, t_comma()));
        assert(abs_lane_safe(head)) by {
            assert(s[0] == head);
        }
        lemma_lane_rt(bytes, q0, head);
        assert(abs_lanes_safe(tail)) by {
            assert(forall|k: int| 0 <= k < tail.len() ==> tail[k] == s[k + 1]);
        }
        lemma_lanes_rest_rt(bytes, q1, tail);
        assert(seq![head] + tail =~= s);
    }
}

/// Reading back a written lane list yields it.
proof fn lemma_lanes_rt(bytes: Seq<u8>, pos: int, s: Seq<AbsLane>)
    requires
        abs_lanes_safe(s),
        0 <= pos,
        pos + enc_lanes(s).len() < bytes.len(),
        bytes.subrange(pos, pos + enc_lanes(s).len()) == enc_lanes(s),
        bytes[pos + enc_lanes(s).len()] == 93,
    ensures
        dec_lanes(bytes, pos) == Some((s, pos + enc_lanes(s).len())),
{
    if s.len() == 0 {
        assert(token_at(bytes, pos, t_rbracket())) by {
            assert(enc_lanes(s) =~= Seq::<u8>::empty());
            assert(bytes.subrange(pos, pos + 1) =~= t_rbracket()) by {
                assert(bytes.subrange(pos, pos + 1)[0] == bytes[pos]);
            }
        }
        assert(s =~= Seq::<AbsLane>::empty());
    } else {
        let head = s.first();
        let tail = s.drop_first();
        assert(enc_lanes(s) =~= enc_lane(head) + enc_lanes_rest(tail));
        lemma_cat_at(bytes, pos, enc_lane(head), enc_lanes_rest(tail));
        let q1 = pos + enc_lane(head).len();
        assert(!token_at(bytes, pos, t_rbracket())) by {
            assert(bytes.subrange(pos, pos + enc_lane(head).len())[0] == bytes[pos]);
            assert(enc_lane(head)[0] == 123);
            if token_at(bytes, pos, t_rbracket()) {
                assert(bytes.subrange(pos, pos + 1)[0] == bytes[pos]);
            }
        }
        assert(abs_lane_safe(head)) by {
            assert(s[0] == head);
        }
        lemma_lane_rt(bytes, pos, head);
        assert(abs_lanes_safe(tail)) by {
            assert(forall|k: int| 0 <= k < tail.len() ==> tail[k] == s[k + 1]);
        }
        lemma_lanes_rest_rt(bytes, q1, tail);
        assert(seq![head] + tail =~= s);
    }
}

/// Writing a manifest and reading the document back yields the manifest
/// exactly. With the generation stepped before the write — as every save
/// does — the loaded manifest equals the saved one, its generation one
/// higher than before the save.
/// Where the lane list begins inside the document.
pub open spec fn lanes_off(m: AbsManifest) -> int {
    t_ver().len() as int + dec_digits(m.version).len() as int + t_num().len() as int
        + dec_digits(m.num_lanes).len() as int + t_gen().len() as int
        + dec_digits(m.generation).len() as int + t_lanes().len() as int
}

/// The document's header parses back to the three leading numbers.
#[verifier::rlimit(100)]
#[verifier::spinoff_prover]
proof fn lemma_manifest_rt_header(m: AbsManifest)
    ensures
        ({
            let bytes = enc_manifest(m);
            &&& token_at(bytes, 0, t_ver())
            &&& spec_parse_dec(bytes, t_ver().len() as int) == Some((
                m.version,
                t_ver().len() as int + dec_digits(m.version).len() as int,
            ))
            &&& token_at(
                bytes,
                t_ver().len() as int + dec_digits(m.version).len() as int,
                t_num(),
            )
            &&& spec_parse_dec(
                bytes,
                t_ver().len() as int + dec_digits(m.version).len() as int
                    + t_num().len() as int,
            ) == Some((
                m.num_lanes,
                t_ver().len() as int + dec_digits(m.version).len() as int
                    + t_num().len() as int + dec_digits(m.num_lanes).len() as int,
            ))
            &&& token_at(
                bytes,
                t_ver().len() as int + dec_digits(m.version).len() as int
                    + t_num().len() as int + dec_digits(m.num_lanes).len() as int,
                t_gen(),
            )
            &&& spec_parse_dec(
                bytes,
                t_ver().len() as int + dec_digits(m.version).len() as int
                    + t_num().len() as int + dec_digits(m.num_lanes).len() as int
                    + t_gen().len() as int,
            ) == Some((m.generation, lanes_off(m) - t_lanes().len() as int))
            &&& token_at(bytes, lanes_off(m) - t_lanes().len() as int, t_lanes())
        }),
{
    let bytes = enc_manifest(m);
    let c7 = t_ver() + dec_digits(m.version) + t_num() + dec_digits(m.num_lanes)
        + t_gen() + dec_digits(m.generation) + t_lanes() + enc_lanes(m.lanes);
    assert(bytes.subrange(0, bytes.len() as int) =~= bytes);
    lemma_cat_at(bytes, 0, c7, t_tail());
    let c6 = t_ver() + dec_digits(m.version) + t_num() + dec_digits(m.num_lanes)
        + t_gen() + dec_digits(m.generation) + t_lanes();
    lemma_cat_at(bytes, 0, c6, enc_lanes(m.lanes));
    let c5 = t_ver() + dec_digits(m.version) + t_num() + dec_digits(m.num_lanes)
        + t_gen() + dec_digits(m.generation);
    lemma_cat_at(bytes, 0, c5, t_lanes());
    let c4 = t_ver() + dec_digits(m.version) + t_num() + dec_digits(m.num_lanes)
        + t_gen();
    lemma_cat_at(bytes, 0, c4, dec_digits(m.generation));
    let c3 = t_ver() + dec_digits(m.version) + t_num() + dec_digits(m.num_lanes);
    lemma_cat_at(bytes, 0, c3, t_gen());
    let c2 = t_ver() + dec_digits(m.version) + t_num();
    lemma_cat_at(bytes, 0, c2, dec_digits(m.num_lanes));
    let c1 = t_ver() + dec_digits(m.version);
    lemma_cat_at(bytes, 0, c1, t_num());
    lemma_cat_at(bytes, 0, t_ver(), dec_digits(m.version));
    let q0 = t_ver().len() as int;
    let q1 = q0 + dec_digits(m.version).len();
    let q2 = q1 + t_num().len();
    let q3 = q2 + dec_digits(m.num_lanes).len();
    let q4 = q3 + t_gen().len();
    let q5 = q4 + dec_digits(m.generation).len();
    assert(bytes.subrange(q0, q1) =~= dec_digits(m.version)) by {
        assert forall|k: int| #![trigger dec_digits(m.version)[k]]
            0 <= k < dec_digits(m.version).len()
            implies bytes.subrange(q0, q1)[k] == dec_digits(m.version)[k] by {
            assert(bytes.subrange(0, q1)[q0 + k] == bytes[q0 + k]);
            assert(bytes.subrange(q0, q1)[k] == bytes[q0 + k]);
            assert(c1[q0 + k] == dec_digits(m.version)[k]);
        }
    }
    assert(bytes.subrange(q1, q2) =~= t_num()) by {
        assert forall|k: int| #![trigger t_num()[k]] 0 <= k < t_num().len()
            implies bytes.subrange(q1, q2)[k] == t_num()[k] by {
            assert(bytes.subrange(0, q2)[q1 + k] == bytes[q1 + k]);
            assert(bytes.subrange(q1, q2)[k] == bytes[q1 + k]);
            assert(c2[q1 + k] == t_num()[k]);
        }
    }
    assert(bytes.subrange(q2, q3) =~= dec_digits(m.num_lanes)) by {
        assert forall|k: int| #![trigger dec_digits(m.num_lanes)[k]]
            0 <= k < dec_digits(m.num_lanes).len()
            implies bytes.subrange(q2, q3)[k] == dec_digits(m.num_lanes)[k] by {
            assert(bytes.subrange(0, q3)[q2 + k] == bytes[q2 + k]);
            assert(bytes.subrange(q2, q3)[k] == bytes[q2 + k]);
            assert(c3[q2 + k] == dec_digits(m.num_lanes)[k]);
        }
    }
    assert(bytes.subrange(q3, q4) =~= t_gen()) by {
        assert forall|k: int| #![trigger t_gen()[k]] 0 <= k < t_gen().len()
            implies bytes.subrange(q3, q4)[k] == t_gen()[k] by {
            assert(bytes.subrange(0, q4)[q3 + k] == bytes[q3 + k]);
            assert(bytes.subrange(q3, q4)[k] == bytes[q3 + k]);
            assert(c4[q3 + k] == t_gen()[k]);
        }
    }
    assert(bytes.subrange(q4, q5) =~= dec_digits(m.generation)) by {
        assert forall|k: int| #![trigger dec_digits(m.generation)[k]]
            0 <= k < dec_digits(m.generation).len()
            implies bytes.subrange(q4, q5)[k] == dec_digits(m.generation)[k] by {
            assert(bytes.subrange(0, q5)[q4 + k] == bytes[q4 + k]);
            assert(bytes.subrange(q4, q5)[k] == bytes[q4 + k]);
            assert(c5[q4 + k] == dec_digits(m.generation)[k]);
        }
    }
    assert(bytes.subrange(q5, q5 + t_lanes().len()) =~= t_lanes()) by {
        assert forall|k: int| #![trigger t_lanes()[k]] 0 <= k < t_lanes().len()
            implies bytes.subrange(q5, q5 + t_lanes().len())[k] == t_lanes()[k] by {
            assert(bytes.subrange(0, q5 + t_lanes().len())[q5 + k] == bytes[q5 + k]);
            assert(bytes.subrange(q5, q5 + t_lanes().len())[k] == bytes[q5 + k]);
            assert(c6[q5 + k] == t_lanes()[k]);
        }
    }
    assert(bytes[q1] == 44) by {
        assert(bytes.subrange(q1, q2)[0] == bytes[q1]);
    }
    lemma_dec_round_trip(bytes, q0, m.version);
    assert(bytes[q3] == 44) by {
        assert(bytes.subrange(q3, q4)[0] == bytes[q3]);
    }
    lemma_dec_round_trip(bytes, q2, m.num_lanes);
    assert(bytes[q5] == 44) by {
        assert(bytes.subrange(q5, q5 + t_lanes().len())[0] == bytes[q5]);
    }
    lemma_dec_round_trip(bytes, q4, m.generation);
}

/// The document's lane list parses back, with the closing tail exact.
#[verifier::rlimit(100)]
#[verifier::spinoff_prover]
proof fn lemma_manifest_rt_lanes(m: AbsManifest)
    requires
        abs_lanes_safe(m.lanes),
    ensures
        ({
            let bytes = enc_manifest(m);
            &&& dec_lanes(bytes, lanes_off(m)) == Some((
                m.lanes,
                lanes_off(m) + enc_lanes(m.lanes).len() as int,
            ))
            &&& token_at(bytes, lanes_off(m) + enc_lanes(m.lanes).len() as int, t_tail())
            &&& lanes_off(m) + enc_lanes(m.lanes).len() + t_tail().len() == bytes.len()
        }),
{
    let bytes = enc_manifest(m);
    let c7 = t_ver() + dec_digits(m.version) + t_num() + dec_digits(m.num_lanes)
        + t_gen() + dec_digits(m.generation) + t_lanes() + enc_lanes(m.lanes);
    assert(bytes.subrange(0, bytes.len() as int) =~= bytes);
    lemma_cat_at(bytes, 0, c7, t_tail());
    let q6 = lanes_off(m);
    let q7 = q6 + enc_lanes(m.lanes).len();
    assert(bytes.subrange(q6, q7) =~= enc_lanes(m.lanes)) by {
        assert forall|k: int| #![trigger enc_lanes(m.lanes)[k]]
            0 <= k < enc_lanes(m.lanes).len()
            implies bytes.subrange(q6, q7)[k] == enc_lanes(m.lanes)[k] by {
            assert(bytes.subrange(0, q7)[q6 + k] == bytes[q6 + k]);
            assert(bytes.subrange(q6, q7)[k] == bytes[q6 + k]);
            assert(c7[q6 + k] == enc_lanes(m.lanes)[k]);
        }
    }
    assert(bytes[q7] == 93) by {
        assert(bytes.subrange(q7, q7 + t_tail().len())[0] == bytes[q7]);
        assert(t_tail()[0] == 93);
    }
    lemma_lanes_rt(bytes, q6, m.lanes);
}

/// Writing a manifest and reading the document back yields the manifest
/// exactly. With the generation stepped before the write — as every save
/// does — the loaded manifest equals the saved one, its generation one
/// higher than before the save.
pub proof fn lemma_manifest_round_trip(m: AbsManifest)
    requires
        abs_lanes_safe(m.lanes),
    ensures
        dec_manifest(enc_manifest(m)) == Some(m),
{
    lemma_manifest_rt_header(m);
    lemma_manifest_rt_lanes(m);
}

/// A save steps the generation and writes the document; a load parses it
/// back. The loaded manifest is the saved one exactly — same version, lane
/// count and lanes — and its generation is one above the value before the
/// save.
pub proof fn lemma_save_then_load(m: AbsManifest)
    requires
        abs_lanes_safe(m.lanes),
        m.generation < u64::MAX,
    ensures
        ({
            let saved = AbsManifest { generation: (m.generation + 1) as u64, ..m };
            &&& dec_manifest(enc_manifest(saved)) == Some(saved)
            &&& saved.generation == m.generation + 1
            &&& saved.version == m.version
            &&& saved.num_lanes == m.num_lanes
            &&& saved.lanes == m.lanes
        }),
{
    let saved = AbsManifest { generation: (m.generation + 1) as u64, ..m };
    lemma_manifest_round_trip(saved);
}

/// Whether a manifest's strings can ride the document unescaped; what
/// [`encode_manifest`]'s callers check before saving.
pub fn manifest_strings_check(m: &Manifest) -> (r: bool)
    ensures
        r == manifest_strings_ok(*m),
        r ==> abs_lanes_safe(manifest_view(*m).lanes),
{
    let mut i: usize = 0;
    while i < m.lanes.len()
        invariant
            i <= m.lanes@.len(),
            forall|a: int, b: int| 0 <= a < i && 0 <= b < (#[trigger] m.lanes@[a]).segments@.len()
                ==> seg_strings_ok(#[trigger] m.lanes@[a].segments@[b]),
        decreases m.lanes@.len() - i,
    {
        let lane = &m.lanes[i];
        let mut j: usize = 0;
        while j < lane.segments.len()
            invariant
                j <= lane.segments@.len(),
                i < m.lanes@.len(),
                *lane == m.lanes@[i as int],
                forall|b: int| 0 <= b < j
                    ==> seg_strings_ok(#[trigger] lane.segments@[b]),
            decreases lane.segments@.len() - j,
        {
            let seg = &lane.segments[j];
            if !bytes_are_safe(&seg.path) {
                proof {
                    assert(m.lanes@[i as int].segments@[j as int] == *seg);
                    assert(!seg_strings_ok(*seg));
                }
                return false;
            }
            match &seg.checksum {
                Some(c) => {
                    if !bytes_are_safe(c) {
                        proof {
                            assert(m.lanes@[i as int].segments@[j as int] == *seg);
                            assert(!seg_strings_ok(*seg));
                        }
                        return false;
                    }
                }
                None => {}
            }
            j = j + 1;
        }
        proof {
            assert(forall|b: int| 0 <= b < m.lanes@[i as int].segments@.len()
                ==> seg_strings_ok(#[trigger] m.lanes@[i as int].segments@[b]));
        }
        i = i + 1;
    }
    proof {
        assert forall|k: int| 0 <= k < manifest_view(*m).lanes.len()
            implies abs_lane_safe(#[trigger] manifest_view(*m).lanes[k]) by {
            let al = manifest_view(*m).lanes[k];
            assert(al == lane_view(m.lanes@[k]));
            assert forall|b: int| 0 <= b < al.segments.len()
                implies abs_seg_safe(#[trigger] al.segments[b]) by {
                assert(al.segments[b] == seg_view(m.lanes@[k].segments@[b]));
                assert(seg_strings_ok(m.lanes@[k].segments@[b]));
            }
        }
    }
    true
}

/// Whether every byte is printable ASCII, quote and backslash excluded.
fn bytes_are_safe(v: &Vec<u8>) -> (r: bool)
    ensures
        r == json_safe(v@),
{
    let mut i: usize = 0;
    while i < v.len()
        invariant
            i <= v@.len(),
            forall|k: int| 0 <= k < i
                ==> 32 <= #[trigger] v@[k] <= 126 && v@[k] != 34 && v@[k] != 92,
        decreases v@.len() - i,
    {
        let b = v[i];
        if b < 32 || b > 126 || b == 34 || b == 92 {
            return false;
        }
        i = i + 1;
    }
    true
}
} // verus!
