//! The tokenizer's mathematical model: for each phase of the reader, a spec
//! function saying what the phase consumes from the input byte sequence and
//! what it emits.  The reader's contracts are stated over these functions;
//! the input sequence they act on is the concatenation of the buffered bytes
//! and the bytes the source has not yet delivered.
use vstd::prelude::*;

use crate::scan::find3;
use crate::scan::hit3;
use crate::scan::lemma_find3;
use crate::scan::lemma_find3_is;

verus! {

pub const B_TAB: u8 = 9;

pub const B_NL: u8 = 10;

pub const B_CR: u8 = 13;

pub const B_SPACE: u8 = 32;

pub const B_QUOTE: u8 = 34;

pub const B_PERCENT: u8 = 37;

pub const B_SEMI: u8 = 59;

pub const B_LBRACKET: u8 = 91;

pub const B_BACKSLASH: u8 = 92;

pub const B_RBRACKET: u8 = 93;

pub const B_LBRACE: u8 = 123;

pub const B_RBRACE: u8 = 125;

pub const BOM_0: u8 = 239;

pub const BOM_1: u8 = 187;

pub const BOM_2: u8 = 191;

/// PGN whitespace: space, tab, carriage-return, line-feed.
pub open spec fn is_ws(x: u8) -> bool {
    x == B_SPACE || x == B_TAB || x == B_CR || x == B_NL
}

/// Index of the first occurrence of `a` in `s`.
pub open spec fn find1(s: Seq<u8>, a: u8) -> Option<int> {
    find3(s, a, a, a)
}

/// Index of the first occurrence of `a` or `b` in `s`.
pub open spec fn find2(s: Seq<u8>, a: u8, b: u8) -> Option<int> {
    find3(s, a, b, b)
}

/// What remains of `s` after consuming through the first occurrence of `a`;
/// everything is consumed when `a` does not occur.
pub open spec fn after_byte(s: Seq<u8>, a: u8) -> Seq<u8> {
    match find1(s, a) {
        Some(i) => s.skip(i + 1),
        None => Seq::<u8>::empty(),
    }
}

/// Consuming through a byte strictly shrinks a non-empty sequence.
pub proof fn lemma_after_byte_len(s: Seq<u8>, a: u8)
    ensures
        after_byte(s, a).len() <= s.len(),
        s.len() > 0 ==> after_byte(s, a).len() < s.len(),
{
    lemma_find3(s, a, a, a);
}

/// A UTF-8 byte-order mark at the head of `s` is dropped; anything else is
/// left alone.
pub open spec fn strip_bom(s: Seq<u8>) -> Seq<u8> {
    if s.len() >= 3 && s[0] == BOM_0 && s[1] == BOM_1 && s[2] == BOM_2 {
        s.skip(3)
    } else {
        s
    }
}

/// A byte-order mark in front of a stream that does not itself begin with
/// one is wholly transparent: stripping recovers exactly the bare stream,
/// which the strip then leaves alone — so a fresh reader consumes and
/// emits the same things for both, and the mark appears in nothing it
/// emits.  (With a doubled mark the claim would fail: only the outer one
/// is consumed.)
pub proof fn lemma_bom_transparent(s: Seq<u8>)
    requires
        !(s.len() >= 3 && s[0] == BOM_0 && s[1] == BOM_1 && s[2] == BOM_2),
    ensures
        strip_bom(seq![BOM_0, BOM_1, BOM_2] + s) == s,
        strip_bom(s) == s,
{
    let p = seq![BOM_0, BOM_1, BOM_2] + s;
    assert(p.len() >= 3 && p[0] == BOM_0 && p[1] == BOM_1 && p[2] == BOM_2);
    assert(p.skip(3) =~= s);
}

/// What remains of `s` after the whitespace/comment-skip phase: whitespace
/// bytes are consumed, a `%` where whitespace is expected starts a comment
/// discarded through the end of its line.
pub open spec fn skip_ws(s: Seq<u8>) -> Seq<u8>
    decreases s.len(),
    via skip_ws_dec
{
    if s.len() == 0 {
        s
    } else if is_ws(s[0]) {
        skip_ws(s.skip(1))
    } else if s[0] == B_PERCENT {
        skip_ws(after_byte(s, B_NL))
    } else {
        s
    }
}

#[via_fn]
proof fn skip_ws_dec(s: Seq<u8>) {
    lemma_after_byte_len(s, B_NL);
}

/// What remains of `s` after the closing-bracket skip that follows a header
/// value: stray spaces, tabs, carriage-returns and `]` are consumed, `%`
/// comments are discarded to end-of-line, and the line's own line-feed ends
/// the phase; any other byte ends it unconsumed.
pub open spec fn skip_ket_s(s: Seq<u8>) -> Seq<u8>
    decreases s.len(),
    via skip_ket_dec
{
    if s.len() == 0 {
        s
    } else if s[0] == B_SPACE || s[0] == B_TAB || s[0] == B_CR || s[0] == B_RBRACKET {
        skip_ket_s(s.skip(1))
    } else if s[0] == B_PERCENT {
        skip_ket_s(after_byte(s, B_NL))
    } else if s[0] == B_NL {
        s.skip(1)
    } else {
        s
    }
}

#[via_fn]
proof fn skip_ket_dec(s: Seq<u8>) {
    lemma_after_byte_len(s, B_NL);
}

/// The closing-bracket skip never adds bytes.
pub proof fn lemma_skip_ket_len(s: Seq<u8>)
    ensures
        skip_ket_s(s).len() <= s.len(),
    decreases s.len(),
{
    if s.len() == 0 {
    } else if s[0] == B_SPACE || s[0] == B_TAB || s[0] == B_CR || s[0] == B_RBRACKET {
        lemma_skip_ket_len(s.skip(1));
    } else if s[0] == B_PERCENT {
        lemma_after_byte_len(s, B_NL);
        lemma_skip_ket_len(after_byte(s, B_NL));
    } else {
    }
}

/// Scanning a header value that starts at the head of `s`: the result is
/// `(value_len, consumed)` with the value being `s.take(value_len)` and the
/// scan consuming `s.take(consumed)`.  The value runs to the first unescaped
/// quote (consumed but excluded) or to a bare line-feed (left unconsumed,
/// the recoverable unterminated case); a backslash and the byte after it are
/// always taken as an escape pair belonging to the value.
pub open spec fn scan_value(s: Seq<u8>) -> (int, int)
    decreases s.len(),
    via scan_value_dec
{
    match find3(s, B_BACKSLASH, B_QUOTE, B_NL) {
        None => (s.len() as int, s.len() as int),
        Some(i) => {
            if s[i] == B_QUOTE {
                (i, i + 1)
            } else if s[i] == B_NL {
                (i, i)
            } else if i + 2 <= s.len() {
                let rec = scan_value(s.skip(i + 2));
                (i + 2 + rec.0, i + 2 + rec.1)
            } else {
                (s.len() as int, s.len() as int)
            }
        },
    }
}

#[via_fn]
proof fn scan_value_dec(s: Seq<u8>) {
    lemma_find3(s, B_BACKSLASH, B_QUOTE, B_NL);
}

/// The value scan stays inside `s`, and the value lies inside what the scan
/// consumed.
pub proof fn lemma_scan_value_bounds(s: Seq<u8>)
    ensures
        0 <= scan_value(s).0 <= scan_value(s).1 <= s.len(),
    decreases s.len(),
{
    lemma_find3(s, B_BACKSLASH, B_QUOTE, B_NL);
    match find3(s, B_BACKSLASH, B_QUOTE, B_NL) {
        None => {},
        Some(i) => {
            if s[i] == B_QUOTE {
            } else if s[i] == B_NL {
            } else if i + 2 <= s.len() {
                lemma_scan_value_bounds(s.skip(i + 2));
            } else {
            }
        },
    }
}

/// A backslash escapes the byte after it, whatever that byte is: an escape
/// pair in front of a value extends the value by exactly those two bytes and
/// never terminates it, so an escaped quote or backslash cannot end a value
/// early.
pub proof fn lemma_escape_pair(x: u8, t: Seq<u8>)
    ensures
        scan_value(seq![B_BACKSLASH, x] + t).0 == 2 + scan_value(t).0,
        scan_value(seq![B_BACKSLASH, x] + t).1 == 2 + scan_value(t).1,
{
    let s = seq![B_BACKSLASH, x] + t;
    assert(s[0] == B_BACKSLASH);
    lemma_find3_is(s, B_BACKSLASH, B_QUOTE, B_NL, 0);
    assert(s.skip(2) =~= t);
}

/// Parsing one header line, starting just after its `[`: the emitted tag
/// pair if one is emitted, and what remains of the input afterwards.
/// The first quote or line-feed decides the shape:
/// - a line-feed first: the whole text up to it is the tag name, the value
///   is empty (malformed-header recovery), and the line is consumed;
/// - a quote first: the name is the text before it, one trailing space
///   stripped, the value is scanned for its unescaped closing quote, and the
///   rest of the line through `]` and the line-feed is then skipped;
/// - neither anywhere: the rest of the input is discarded, nothing emitted.
pub open spec fn header_line(r: Seq<u8>) -> (Option<(Seq<u8>, Seq<u8>)>, Seq<u8>) {
    match find2(r, B_QUOTE, B_NL) {
        None => (None, Seq::<u8>::empty()),
        Some(i) => {
            if r[i] == B_NL {
                (Some((r.take(i), Seq::<u8>::empty())), r.skip(i + 1))
            } else {
                let name_end = if i > 0 && r[i - 1] == B_SPACE {
                    i - 1
                } else {
                    i
                };
                let v = r.skip(i + 1);
                let sv = scan_value(v);
                (Some((r.take(name_end), v.take(sv.0))), skip_ket_s(v.skip(sv.1)))
            }
        },
    }
}

/// One header line consumes at least the `[` that opened it.
pub proof fn lemma_header_line_len(r: Seq<u8>)
    ensures
        header_line(r).1.len() <= r.len(),
{
    lemma_find3(r, B_QUOTE, B_NL, B_NL);
    match find2(r, B_QUOTE, B_NL) {
        None => {},
        Some(i) => {
            if r[i] == B_NL {
            } else {
                let v = r.skip(i + 1);
                lemma_scan_value_bounds(v);
                lemma_skip_ket_len(v.skip(scan_value(v).1));
            }
        },
    }
}

/// The header block: every `[`-opened line is parsed in turn, `%` lines are
/// discarded, and the first other byte ends the block unconsumed.  The
/// result is the sequence of emitted tag pairs, in document order, and what
/// remains of the input.
pub open spec fn parse_headers(s: Seq<u8>) -> (Seq<(Seq<u8>, Seq<u8>)>, Seq<u8>)
    decreases s.len(),
    via parse_headers_dec
{
    if s.len() == 0 {
        (Seq::<(Seq<u8>, Seq<u8>)>::empty(), s)
    } else if s[0] == B_LBRACKET {
        let hl = header_line(s.skip(1));
        let rest = parse_headers(hl.1);
        (
            match hl.0 {
                Some(e) => seq![e] + rest.0,
                None => rest.0,
            },
            rest.1,
        )
    } else if s[0] == B_PERCENT {
        parse_headers(after_byte(s, B_NL))
    } else {
        (Seq::<(Seq<u8>, Seq<u8>)>::empty(), s)
    }
}

#[via_fn]
proof fn parse_headers_dec(s: Seq<u8>) {
    lemma_after_byte_len(s, B_NL);
    if s.len() > 0 && s[0] == B_LBRACKET {
        lemma_header_line_len(s.skip(1));
    }
}

/// A tag name the canonical form can carry: no quote and no line feed.
pub open spec fn clean_name(s: Seq<u8>) -> bool {
    forall|j: int| 0 <= j < s.len() ==> s[j] != B_QUOTE && s[j] != B_NL
}

/// A value the canonical form can carry without escapes: no backslash,
/// quote or line feed.
pub open spec fn clean_value(s: Seq<u8>) -> bool {
    forall|j: int| 0 <= j < s.len() ==> !hit3(#[trigger] s[j], B_BACKSLASH, B_QUOTE, B_NL)
}

/// The canonical text of one tag pair: `[`, the name, one space, the
/// quoted value, `]` and a line feed.
pub open spec fn tag_pair_text(name: Seq<u8>, value: Seq<u8>) -> Seq<u8> {
    seq![B_LBRACKET] + name + seq![B_SPACE, B_QUOTE] + value + seq![B_QUOTE, B_RBRACKET, B_NL]
}

/// A whole header block in canonical form: the pairs' lines, in order.
pub open spec fn header_block_text(hs: Seq<(Seq<u8>, Seq<u8>)>) -> Seq<u8>
    decreases hs.len(),
{
    if hs.len() == 0 {
        Seq::<u8>::empty()
    } else {
        tag_pair_text(hs[0].0, hs[0].1) + header_block_text(hs.skip(1))
    }
}

/// Every pair of the block is clean.
pub open spec fn clean_pairs(hs: Seq<(Seq<u8>, Seq<u8>)>) -> bool {
    forall|k: int| 0 <= k < hs.len() ==> clean_name(#[trigger] hs[k].0) && clean_value(hs[k].1)
}

/// The header hook count law: a well-formed block of N tag pairs in
/// canonical form, followed by anything that does not continue the block,
/// parses to exactly those N pairs, in document order, byte-exact — one
/// header event per pair, no more and no fewer — and leaves exactly the
/// trailing input behind.
pub proof fn lemma_block_parses_exactly(hs: Seq<(Seq<u8>, Seq<u8>)>, rest: Seq<u8>)
    requires
        clean_pairs(hs),
        rest.len() > 0 ==> rest[0] != B_LBRACKET && rest[0] != B_PERCENT,
    ensures
        parse_headers(header_block_text(hs) + rest).0 == hs,
        parse_headers(header_block_text(hs) + rest).1 == rest,
    decreases hs.len(),
{
    let s = header_block_text(hs) + rest;
    if hs.len() == 0 {
        assert(s =~= rest);
        assert(parse_headers(s).0 =~= hs);
    } else {
        let name = hs[0].0;
        let value = hs[0].1;
        let line = tag_pair_text(name, value);
        let tail = header_block_text(hs.skip(1)) + rest;
        assert(s =~= line + tail);
        let nl = name.len() as int;
        let vl = value.len() as int;
        assert(s[0] == B_LBRACKET);
        let r = s.skip(1);
        assert(r =~= name + seq![B_SPACE, B_QUOTE] + value + seq![B_QUOTE, B_RBRACKET, B_NL]
            + tail);
        assert(r[nl] == B_SPACE);
        assert(r[nl + 1] == B_QUOTE);
        assert(clean_name(name) && clean_value(value));
        assert forall|j: int| 0 <= j < nl + 1 implies !hit3(r[j], B_QUOTE, B_NL, B_NL) by {
            if j < nl {
                assert(r[j] == name[j]);
            }
        }
        lemma_find3_is(r, B_QUOTE, B_NL, B_NL, nl + 1);
        assert(r.take(nl) =~= name);
        let v = r.skip(nl + 2);
        assert(v =~= value + seq![B_QUOTE, B_RBRACKET, B_NL] + tail);
        assert(v[vl] == B_QUOTE);
        assert forall|j: int| 0 <= j < vl implies !hit3(v[j], B_BACKSLASH, B_QUOTE, B_NL) by {
            assert(v[j] == value[j]);
        }
        lemma_find3_is(v, B_BACKSLASH, B_QUOTE, B_NL, vl);
        assert(scan_value(v).0 == vl);
        assert(scan_value(v).1 == vl + 1);
        assert(v.take(vl) =~= value);
        let ket = v.skip(vl + 1);
        assert(ket =~= seq![B_RBRACKET, B_NL] + tail);
        assert(ket[0] == B_RBRACKET);
        assert(skip_ket_s(ket) == skip_ket_s(ket.skip(1)));
        assert(ket.skip(1) =~= seq![B_NL] + tail);
        assert(ket.skip(1)[0] == B_NL);
        assert(skip_ket_s(ket.skip(1)) == ket.skip(1).skip(1));
        assert(ket.skip(1).skip(1) =~= tail);
        assert(header_line(r).0 == Some((name, value)));
        assert(header_line(r).1 == tail);
        assert forall|k2: int|
            0 <= k2 < hs.skip(1).len() implies clean_name(#[trigger] hs.skip(1)[k2].0)
            && clean_value(hs.skip(1)[k2].1) by {
            assert(hs.skip(1)[k2] == hs[k2 + 1]);
        }
        lemma_block_parses_exactly(hs.skip(1), rest);
        assert(parse_headers(s).0 =~= seq![(name, value)] + hs.skip(1));
        assert(seq![(name, value)] + hs.skip(1) =~= hs);
        assert(parse_headers(s).1 == rest);
    }
}

/// The move-text skip-scan: brace comments are discarded through their `}`,
/// `;` comments to end-of-line (the line-feed reinserted so blank-line
/// detection still works), a `%` right after a line-feed discards that line
/// the same way, a blank line or a `[` after a line-feed ends the block, and
/// everything else is consumed as ordinary move text.
pub open spec fn skip_movetext_s(s: Seq<u8>) -> Seq<u8>
    decreases s.len(),
    via skip_movetext_dec
{
    if s.len() == 0 {
        s
    } else if s[0] == B_LBRACE {
        skip_movetext_s(after_byte(s, B_RBRACE))
    } else if s[0] == B_SEMI {
        if find1(s.skip(1), B_NL) is Some {
            skip_movetext_s(seq![B_NL] + after_byte(s.skip(1), B_NL))
        } else {
            Seq::<u8>::empty()
        }
    } else if s[0] == B_NL {
        if s.len() == 1 {
            Seq::<u8>::empty()
        } else if s[1] == B_PERCENT {
            if find1(s.skip(2), B_NL) is Some {
                skip_movetext_s(seq![B_NL] + after_byte(s.skip(2), B_NL))
            } else {
                Seq::<u8>::empty()
            }
        } else if s[1] == B_NL {
            s.skip(2)
        } else if s[1] == B_LBRACKET {
            s.skip(1)
        } else {
            skip_movetext_s(s.skip(2))
        }
    } else {
        skip_movetext_s(s.skip(1))
    }
}

#[via_fn]
proof fn skip_movetext_dec(s: Seq<u8>) {
    if s.len() > 0 {
        lemma_after_byte_len(s, B_RBRACE);
        lemma_find3(s.skip(1), B_NL, B_NL, B_NL);
        match find1(s.skip(1), B_NL) {
            Some(i) => {
                assert((seq![B_NL] + after_byte(s.skip(1), B_NL)).len() == s.len() - 1 - i);
            },
            None => {},
        }
        if s.len() >= 2 {
            lemma_find3(s.skip(2), B_NL, B_NL, B_NL);
            match find1(s.skip(2), B_NL) {
                Some(i) => {
                    assert((seq![B_NL] + after_byte(s.skip(2), B_NL)).len() == s.len() - 2 - i);
                },
                None => {},
            }
        }
    }
}

/// Consuming ordinary move-text bytes one at a time or in one bulk stride
/// comes to the same thing: a prefix free of line-feed, `{` and `;` can be
/// dropped without changing what the skip-scan leaves behind.
pub proof fn lemma_movetext_stride(s: Seq<u8>, k: int)
    requires
        0 <= k <= s.len(),
        forall|j: int| 0 <= j < k ==> !hit3(s[j], B_NL, B_LBRACE, B_SEMI),
    ensures
        skip_movetext_s(s) == skip_movetext_s(s.skip(k)),
    decreases k,
{
    if k > 0 {
        assert(!hit3(s[0], B_NL, B_LBRACE, B_SEMI));
        assert(skip_movetext_s(s) == skip_movetext_s(s.skip(1)));
        assert forall|j: int| 0 <= j < k - 1 implies !hit3(s.skip(1)[j], B_NL, B_LBRACE, B_SEMI) by {
            assert(s.skip(1)[j] == s[j + 1]);
        }
        lemma_movetext_stride(s.skip(1), k - 1);
        assert(s.skip(1).skip(k - 1) =~= s.skip(k));
    } else {
        assert(s.skip(0) =~= s);
    }
}

} // verus!
