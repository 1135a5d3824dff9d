//! The mathematical model of a message head.
//!
//! A buffer is decomposed from the left: a first field ended by a space, a
//! second field ended by a space, a third field ended by a line feed, then
//! header lines of the shape `key ':' value '\n'`, a blank line made of a
//! carriage return and a line feed, and finally the body, which runs to the
//! end of the buffer.  The functions here locate the delimiters, classify a
//! buffer as valid, truncated (it ends before an expected delimiter) or
//! malformed (a byte stands where the shape forbids it), and name the exact
//! byte range of every field.

use vstd::prelude::*;

use crate::scan::first_at;
use crate::scan::lemma_first_at;

verus! {

/// The delimiter between start-line fields (the byte `' '`).
pub const SPACE: u8 = 32;
/// Ends the start line and every header line (the byte `'\n'`).
pub const LINE_FEED: u8 = 10;
/// First byte of the blank line that ends the header block (the byte `'\r'`).
pub const CARRIAGE_RETURN: u8 = 13;
/// Separates a header key from its value (the byte `':'`).
pub const COLON: u8 = 58;

/// How a buffer fares against the expected shape: it matches, it ends too
/// early, or it holds a byte where the shape forbids one.
pub enum Validity {
    Valid,
    Truncated,
    Malformed,
}

/// Position of the space that ends the first start-line field.
pub open spec fn delim1(s: Seq<u8>) -> int {
    first_at(s, 0, SPACE)
}

/// Position of the space that ends the second start-line field.
pub open spec fn delim2(s: Seq<u8>) -> int {
    if delim1(s) < s.len() {
        first_at(s, delim1(s) + 1, SPACE)
    } else {
        s.len() as int
    }
}

/// Position of the line feed that ends the start line.
pub open spec fn delim3(s: Seq<u8>) -> int {
    if delim2(s) < s.len() {
        first_at(s, delim2(s) + 1, LINE_FEED)
    } else {
        s.len() as int
    }
}

/// Whether the start line is well shaped: three non-empty fields, the first
/// two ended by a space and free of line feeds, the third ended by a line
/// feed.
pub open spec fn start_line_status(s: Seq<u8>) -> Validity {
    let lf1: int = first_at(s, 0, LINE_FEED);
    if lf1 < delim1(s) {
        Validity::Malformed
    } else if delim1(s) >= s.len() {
        Validity::Truncated
    } else if delim1(s) == 0 {
        Validity::Malformed
    } else {
        let lf2: int = first_at(s, delim1(s) + 1, LINE_FEED);
        if lf2 < delim2(s) {
            Validity::Malformed
        } else if delim2(s) >= s.len() {
            Validity::Truncated
        } else if delim2(s) == delim1(s) + 1 {
            Validity::Malformed
        } else if delim3(s) >= s.len() {
            Validity::Truncated
        } else if delim3(s) == delim2(s) + 1 {
            Validity::Malformed
        } else {
            Validity::Valid
        }
    }
}

/// Whether the header block that starts at `p` is well shaped: zero or more
/// lines `key ':' value '\n'` with non-empty key and value and no stray
/// colon, carriage return or line feed, ended by a carriage return and a
/// line feed.
pub open spec fn header_status(s: Seq<u8>, p: int) -> Validity
    decreases s.len() - p
        when 0 <= p <= s.len()
        via header_status_dec
{
    if p == s.len() {
        Validity::Truncated
    } else if s[p] == CARRIAGE_RETURN {
        if p + 1 == s.len() {
            Validity::Truncated
        } else if s[p + 1] == LINE_FEED {
            Validity::Valid
        } else {
            Validity::Malformed
        }
    } else {
        let c: int = first_at(s, p, COLON);
        let lf: int = first_at(s, p, LINE_FEED);
        let cr: int = first_at(s, p, CARRIAGE_RETURN);
        if lf < c || cr < c {
            Validity::Malformed
        } else if c == s.len() {
            Validity::Truncated
        } else if c == p {
            Validity::Malformed
        } else {
            let lf2: int = first_at(s, c + 1, LINE_FEED);
            let c2: int = first_at(s, c + 1, COLON);
            let cr2: int = first_at(s, c + 1, CARRIAGE_RETURN);
            if c2 < lf2 || cr2 < lf2 {
                Validity::Malformed
            } else if lf2 == s.len() {
                Validity::Truncated
            } else if lf2 == c + 1 {
                Validity::Malformed
            } else {
                header_status(s, lf2 + 1)
            }
        }
    }
}

#[via_fn]
proof fn header_status_dec(s: Seq<u8>, p: int) {
    if 0 <= p < s.len() && s[p] != CARRIAGE_RETURN {
        let c: int = first_at(s, p, COLON);
        lemma_first_at(s, p, COLON);
        if c < s.len() {
            lemma_first_at(s, c + 1, LINE_FEED);
        }
    }
}

/// The key/value pairs of the header block that starts at `p`, as byte
/// ranges of `s`, one pair per line in line order.
pub open spec fn header_pairs(s: Seq<u8>, p: int) -> Seq<(Seq<u8>, Seq<u8>)>
    decreases s.len() - p
        when 0 <= p <= s.len()
        via header_pairs_dec
{
    if p < s.len() && s[p] != CARRIAGE_RETURN {
        let c: int = first_at(s, p, COLON);
        if c < s.len() {
            let lf2: int = first_at(s, c + 1, LINE_FEED);
            if lf2 < s.len() {
                seq![(s.subrange(p, c), s.subrange(c + 1, lf2))] + header_pairs(s, lf2 + 1)
            } else {
                Seq::empty()
            }
        } else {
            Seq::empty()
        }
    } else {
        Seq::empty()
    }
}

#[via_fn]
proof fn header_pairs_dec(s: Seq<u8>, p: int) {
    if 0 <= p < s.len() && s[p] != CARRIAGE_RETURN {
        let c: int = first_at(s, p, COLON);
        lemma_first_at(s, p, COLON);
        if c < s.len() {
            lemma_first_at(s, c + 1, LINE_FEED);
        }
    }
}

/// Where the body begins when the header block that starts at `p` is well
/// shaped: two bytes past the carriage return of the blank line.
pub open spec fn body_start(s: Seq<u8>, p: int) -> int
    decreases s.len() - p
        when 0 <= p <= s.len()
        via body_start_dec
{
    if p < s.len() && s[p] != CARRIAGE_RETURN {
        let c: int = first_at(s, p, COLON);
        if c < s.len() {
            let lf2: int = first_at(s, c + 1, LINE_FEED);
            if lf2 < s.len() {
                body_start(s, lf2 + 1)
            } else {
                s.len() as int
            }
        } else {
            s.len() as int
        }
    } else {
        p + 2
    }
}

#[via_fn]
proof fn body_start_dec(s: Seq<u8>, p: int) {
    if 0 <= p < s.len() && s[p] != CARRIAGE_RETURN {
        let c: int = first_at(s, p, COLON);
        lemma_first_at(s, p, COLON);
        if c < s.len() {
            lemma_first_at(s, c + 1, LINE_FEED);
        }
    }
}

/// How the whole buffer fares: the start line first, then the header block.
pub open spec fn msg_status(s: Seq<u8>) -> Validity {
    if start_line_status(s) is Valid {
        header_status(s, delim3(s) + 1)
    } else {
        start_line_status(s)
    }
}

/// The first start-line field.
pub open spec fn field1(s: Seq<u8>) -> Seq<u8> {
    s.subrange(0, delim1(s))
}

/// The second start-line field.
pub open spec fn field2(s: Seq<u8>) -> Seq<u8> {
    s.subrange(delim1(s) + 1, delim2(s))
}

/// The third start-line field.
pub open spec fn field3(s: Seq<u8>) -> Seq<u8> {
    s.subrange(delim2(s) + 1, delim3(s))
}

/// The header mapping of the buffer: its header pairs folded into a map, a
/// later occurrence of a key overwriting an earlier one.
pub open spec fn headers_map(s: Seq<u8>) -> Map<Seq<u8>, Seq<u8>> {
    map_of_pairs(header_pairs(s, delim3(s) + 1))
}

/// The body of the buffer: everything past the blank line.
pub open spec fn message_body(s: Seq<u8>) -> Seq<u8> {
    s.subrange(body_start(s, delim3(s) + 1), s.len() as int)
}

/// The bytes of the header lines that a pair sequence came from: each pair
/// as key, colon, value, line feed, in order.
pub open spec fn flatten_pairs(ps: Seq<(Seq<u8>, Seq<u8>)>) -> Seq<u8>
    decreases ps.len(),
{
    if ps.len() == 0 {
        Seq::empty()
    } else {
        ps[0].0 + seq![COLON] + ps[0].1 + seq![LINE_FEED] + flatten_pairs(ps.skip(1))
    }
}

/// A well-shaped header block is exactly its flattened pairs, the blank
/// line, and the body after it.
proof fn lemma_header_reconstruct(s: Seq<u8>, p: int)
    requires
        0 <= p <= s.len(),
        header_status(s, p) is Valid,
    ensures
        p + 2 <= body_start(s, p) <= s.len(),
        s.subrange(p, s.len() as int) == flatten_pairs(header_pairs(s, p))
            + seq![CARRIAGE_RETURN, LINE_FEED]
            + s.subrange(body_start(s, p), s.len() as int),
    decreases s.len() - p,
{
    if s[p] == CARRIAGE_RETURN {
        assert(flatten_pairs(header_pairs(s, p)) =~= Seq::empty());
        assert(s.subrange(p, s.len() as int) =~= seq![CARRIAGE_RETURN, LINE_FEED]
            + s.subrange(p + 2, s.len() as int));
    } else {
        let c = first_at(s, p, COLON);
        let lf2 = first_at(s, c + 1, LINE_FEED);
        lemma_first_at(s, p, COLON);
        lemma_first_at(s, c + 1, LINE_FEED);
        lemma_header_reconstruct(s, lf2 + 1);
        let kv = (s.subrange(p, c), s.subrange(c + 1, lf2));
        let rest = header_pairs(s, lf2 + 1);
        let tail = s.subrange(body_start(s, p), s.len() as int);
        assert(header_pairs(s, p) == seq![kv] + rest);
        assert((seq![kv] + rest).skip(1) =~= rest);
        assert(flatten_pairs(header_pairs(s, p)) == kv.0 + seq![COLON] + kv.1 + seq![LINE_FEED]
            + flatten_pairs(rest));
        // the suffix past this line, with the length of its flattened pairs
        assert(s.subrange(lf2 + 1, s.len() as int) == flatten_pairs(rest)
            + seq![CARRIAGE_RETURN, LINE_FEED] + tail);
        assert((flatten_pairs(rest) + seq![CARRIAGE_RETURN, LINE_FEED] + tail).len()
            == flatten_pairs(rest).len() + 2 + tail.len());
        assert(s.subrange(lf2 + 1, s.len() as int).len()
            == flatten_pairs(rest).len() + 2 + tail.len());
        // this line itself, then the two stitched together
        assert(s.subrange(p, lf2 + 1) =~= kv.0 + seq![COLON] + kv.1 + seq![LINE_FEED]);
        assert(s.subrange(p, s.len() as int) =~= s.subrange(p, lf2 + 1)
            + s.subrange(lf2 + 1, s.len() as int));
        assert(s.subrange(p, s.len() as int) =~= flatten_pairs(header_pairs(s, p))
            + seq![CARRIAGE_RETURN, LINE_FEED] + tail);
    }
}

/// A valid buffer decomposes exactly: the three start-line fields with
/// their two spaces and the line feed, the flattened header lines, the
/// blank line, and the body jointly reconstruct it, and the pieces sit at
/// strictly increasing, disjoint ranges.
pub proof fn lemma_reconstruct(s: Seq<u8>)
    requires
        msg_status(s) is Valid,
    ensures
        0 < delim1(s) < delim2(s) < delim3(s) < body_start(s, delim3(s) + 1) <= s.len(),
        s == field1(s) + seq![SPACE] + field2(s) + seq![SPACE] + field3(s) + seq![LINE_FEED]
            + flatten_pairs(header_pairs(s, delim3(s) + 1))
            + seq![CARRIAGE_RETURN, LINE_FEED] + message_body(s),
{
    lemma_first_at(s, 0, SPACE);
    lemma_first_at(s, delim1(s) + 1, SPACE);
    lemma_first_at(s, delim2(s) + 1, LINE_FEED);
    lemma_header_reconstruct(s, delim3(s) + 1);
    let hdr = flatten_pairs(header_pairs(s, delim3(s) + 1));
    assert(s.subrange(delim3(s) + 1, s.len() as int) == hdr
        + seq![CARRIAGE_RETURN, LINE_FEED] + message_body(s));
    assert((hdr + seq![CARRIAGE_RETURN, LINE_FEED] + message_body(s)).len()
        == hdr.len() + 2 + message_body(s).len());
    assert(s.subrange(delim3(s) + 1, s.len() as int).len()
        == hdr.len() + 2 + message_body(s).len());
    assert(s =~= s.subrange(0, delim3(s) + 1) + s.subrange(delim3(s) + 1, s.len() as int));
    assert(s.subrange(0, delim3(s) + 1) =~= field1(s) + seq![SPACE] + field2(s) + seq![SPACE]
        + field3(s) + seq![LINE_FEED]);
    assert(s =~= field1(s) + seq![SPACE] + field2(s) + seq![SPACE] + field3(s) + seq![LINE_FEED]
        + hdr + seq![CARRIAGE_RETURN, LINE_FEED] + message_body(s));
}

/// No byte of `f` is a colon, a line feed or a carriage return.
pub open spec fn clean_header_bytes(f: Seq<u8>) -> bool {
    forall|i: int| 0 <= i < f.len()
        ==> f[i] != COLON && f[i] != LINE_FEED && f[i] != CARRIAGE_RETURN
}

/// In a valid buffer the start-line fields carry none of the bytes that
/// delimit them: the first two hold neither a space nor a line feed, and
/// the third holds no line feed.
pub proof fn lemma_fields_hold_no_delimiters(s: Seq<u8>)
    requires
        msg_status(s) is Valid,
    ensures
        field1(s).len() > 0,
        field2(s).len() > 0,
        field3(s).len() > 0,
        forall|i: int| 0 <= i < field1(s).len()
            ==> field1(s)[i] != SPACE && field1(s)[i] != LINE_FEED,
        forall|i: int| 0 <= i < field2(s).len()
            ==> field2(s)[i] != SPACE && field2(s)[i] != LINE_FEED,
        forall|i: int| 0 <= i < field3(s).len() ==> field3(s)[i] != LINE_FEED,
{
    lemma_first_at(s, 0, SPACE);
    lemma_first_at(s, 0, LINE_FEED);
    lemma_first_at(s, delim1(s) + 1, SPACE);
    lemma_first_at(s, delim1(s) + 1, LINE_FEED);
    lemma_first_at(s, delim2(s) + 1, LINE_FEED);
}

/// In a valid header block every key and value is non-empty and carries no
/// colon, line feed or carriage return.
pub proof fn lemma_header_pairs_clean(s: Seq<u8>, p: int)
    requires
        0 <= p <= s.len(),
        header_status(s, p) is Valid,
    ensures
        forall|k: int| 0 <= k < header_pairs(s, p).len()
            ==> (#[trigger] header_pairs(s, p)[k]).0.len() > 0
                && header_pairs(s, p)[k].1.len() > 0
                && clean_header_bytes(header_pairs(s, p)[k].0)
                && clean_header_bytes(header_pairs(s, p)[k].1),
    decreases s.len() - p,
{
    if s[p] != CARRIAGE_RETURN {
        let c = first_at(s, p, COLON);
        lemma_first_at(s, p, COLON);
        lemma_first_at(s, p, LINE_FEED);
        lemma_first_at(s, p, CARRIAGE_RETURN);
        lemma_first_at(s, c + 1, LINE_FEED);
        lemma_first_at(s, c + 1, COLON);
        lemma_first_at(s, c + 1, CARRIAGE_RETURN);
        let lf2 = first_at(s, c + 1, LINE_FEED);
        lemma_header_pairs_clean(s, lf2 + 1);
        let kv = (s.subrange(p, c), s.subrange(c + 1, lf2));
        let rest = header_pairs(s, lf2 + 1);
        assert(header_pairs(s, p) == seq![kv] + rest);
        assert(clean_header_bytes(kv.0));
        assert(clean_header_bytes(kv.1));
        assert forall|k: int| 0 <= k < header_pairs(s, p).len()
            implies (#[trigger] header_pairs(s, p)[k]).0.len() > 0
                && header_pairs(s, p)[k].1.len() > 0
                && clean_header_bytes(header_pairs(s, p)[k].0)
                && clean_header_bytes(header_pairs(s, p)[k].1) by {
            if k > 0 {
                assert(header_pairs(s, p)[k] == rest[k - 1]);
            }
        }
    }
}

/// The mapping that a pair sequence denotes: pairs are inserted in order,
/// so of two pairs with the same key the later one wins.
pub open spec fn map_of_pairs(ps: Seq<(Seq<u8>, Seq<u8>)>) -> Map<Seq<u8>, Seq<u8>>
    decreases ps.len(),
{
    if ps.len() == 0 {
        Map::empty()
    } else {
        map_of_pairs(ps.drop_last()).insert(ps.last().0, ps.last().1)
    }
}

/// No two pairs share a key.
pub open spec fn unique_keys(ps: Seq<(Seq<u8>, Seq<u8>)>) -> bool {
    forall|i: int, j: int| 0 <= i < j < ps.len() ==> ps[i].0 != ps[j].0
}

/// The mapping of a pair sequence holds exactly the keys of the sequence,
/// and its domain is finite.
pub proof fn lemma_map_of_pairs_contains(ps: Seq<(Seq<u8>, Seq<u8>)>)
    ensures
        map_of_pairs(ps).dom().finite(),
        forall|k: Seq<u8>| #[trigger] map_of_pairs(ps).contains_key(k)
            <==> exists|i: int| 0 <= i < ps.len() && ps[i].0 == k,
    decreases ps.len(),
{
    if ps.len() > 0 {
        lemma_map_of_pairs_contains(ps.drop_last());
        assert forall|k: Seq<u8>| #[trigger] map_of_pairs(ps).contains_key(k)
            implies exists|i: int| 0 <= i < ps.len() && ps[i].0 == k by {
            if k == ps.last().0 {
                assert(ps[ps.len() - 1].0 == k);
            } else {
                let i = choose|i: int| 0 <= i < ps.drop_last().len() && ps.drop_last()[i].0 == k;
                assert(ps[i].0 == k);
            }
        }
        assert forall|k: Seq<u8>| exists|i: int| 0 <= i < ps.len() && ps[i].0 == k
            implies #[trigger] map_of_pairs(ps).contains_key(k) by {
            let i = choose|i: int| 0 <= i < ps.len() && ps[i].0 == k;
            if i < ps.len() - 1 {
                assert(ps.drop_last()[i].0 == k);
            }
        }
    }
}

/// The last occurrence of a key decides its value: a pair that no later
/// pair shares a key with gives that key its value in the mapping.
pub proof fn lemma_last_duplicate_wins(ps: Seq<(Seq<u8>, Seq<u8>)>, i: int)
    requires
        0 <= i < ps.len(),
        forall|j: int| i < j < ps.len() ==> ps[j].0 != ps[i].0,
    ensures
        map_of_pairs(ps).contains_key(ps[i].0),
        map_of_pairs(ps)[ps[i].0] == ps[i].1,
    decreases ps.len(),
{
    if i < ps.len() - 1 {
        assert(ps.drop_last()[i] == ps[i]);
        lemma_last_duplicate_wins(ps.drop_last(), i);
    }
}

/// With no key repeated, the mapping has exactly one entry per pair.
pub proof fn lemma_map_of_pairs_len(ps: Seq<(Seq<u8>, Seq<u8>)>)
    requires
        unique_keys(ps),
    ensures
        map_of_pairs(ps).dom().len() == ps.len(),
    decreases ps.len(),
{
    if ps.len() > 0 {
        assert(unique_keys(ps.drop_last())) by {
            assert forall|i: int, j: int| 0 <= i < j < ps.drop_last().len()
                implies ps.drop_last()[i].0 != ps.drop_last()[j].0 by {
                assert(ps[i].0 != ps[j].0);
            }
        }
        lemma_map_of_pairs_len(ps.drop_last());
        lemma_map_of_pairs_contains(ps.drop_last());
        assert(!map_of_pairs(ps.drop_last()).contains_key(ps.last().0)) by {
            if map_of_pairs(ps.drop_last()).contains_key(ps.last().0) {
                let i = choose|i: int|
                    0 <= i < ps.drop_last().len() && ps.drop_last()[i].0 == ps.last().0;
                assert(ps[i].0 == ps[ps.len() - 1].0);
            }
        }
    }
}

/// Replacing the value of the pair that holds a key rewrites that key's
/// entry and nothing else.
pub proof fn lemma_map_of_pairs_update(ps: Seq<(Seq<u8>, Seq<u8>)>, j: int, v: Seq<u8>)
    requires
        unique_keys(ps),
        0 <= j < ps.len(),
    ensures
        map_of_pairs(ps.update(j, (ps[j].0, v))) == map_of_pairs(ps).insert(ps[j].0, v),
    decreases ps.len(),
{
    let qs = ps.update(j, (ps[j].0, v));
    if j == ps.len() - 1 {
        assert(qs.drop_last() =~= ps.drop_last());
        assert(map_of_pairs(ps).insert(ps[j].0, v)
            =~= map_of_pairs(ps.drop_last()).insert(qs.last().0, qs.last().1));
    } else {
        assert(unique_keys(ps.drop_last())) by {
            assert forall|a: int, b: int| 0 <= a < b < ps.drop_last().len()
                implies ps.drop_last()[a].0 != ps.drop_last()[b].0 by {
                assert(ps[a].0 != ps[b].0);
            }
        }
        assert(ps.drop_last()[j] == ps[j]);
        lemma_map_of_pairs_update(ps.drop_last(), j, v);
        assert(qs.drop_last() =~= ps.drop_last().update(j, (ps[j].0, v)));
        // the last key differs from the updated one, so the two inserts commute
        assert(ps[j].0 != ps.last().0) by {
            assert(ps[j].0 != ps[ps.len() - 1].0);
        }
        assert(map_of_pairs(ps.drop_last()).insert(ps[j].0, v).insert(ps.last().0, ps.last().1)
            =~= map_of_pairs(ps.drop_last()).insert(ps.last().0, ps.last().1).insert(ps[j].0, v));
    }
}

} // verus!
