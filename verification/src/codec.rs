//! On-disk form of the link store: a flat JSON object mapping abbreviation
//! strings to target strings, handled byte by byte.
//!
//! The serializer emits `{"abbrev":"target",...}` with the quote, backslash
//! and common control bytes escaped.  The parser accepts any flat object of
//! two strings per member, with optional whitespace between tokens; a later
//! member with the same key overrides an earlier one, and anything else is
//! a parse error.  Parsing a serialized store gives the same map back.

use vstd::prelude::*;

use crate::store::{sp_insert_all, LinkMap};

verus! {

pub const QUOTE: u8 = 34;

pub const BACKSLASH: u8 = 92;

pub const SLASH: u8 = 47;

pub const LBRACE: u8 = 123;

pub const RBRACE: u8 = 125;

pub const COLON: u8 = 58;

pub const COMMA: u8 = 44;

/// The backing file's content did not have the expected shape.
#[derive(Debug)]
pub struct ParseError;

/// Whitespace accepted between tokens: space, tab, line feed, carriage return.
pub open spec fn is_ws(b: u8) -> bool {
    b == 32 || b == 9 || b == 10 || b == 13
}

/// The byte that an escape letter stands for, if the letter is accepted.
pub open spec fn unescape(e: u8) -> Option<u8> {
    if e == QUOTE {
        Some(QUOTE)
    } else if e == BACKSLASH {
        Some(BACKSLASH)
    } else if e == SLASH {
        Some(SLASH)
    } else if e == 110 {  // n
        Some(10u8)
    } else if e == 116 {  // t
        Some(9u8)
    } else if e == 114 {  // r
        Some(13u8)
    } else if e == 98 {  // b
        Some(8u8)
    } else if e == 102 {  // f
        Some(12u8)
    } else {
        None
    }
}

/// The escape letter the serializer uses for a byte, where it uses one.
pub open spec fn esc_code(b: u8) -> Option<u8> {
    if b == QUOTE {
        Some(QUOTE)
    } else if b == BACKSLASH {
        Some(BACKSLASH)
    } else if b == 10 {
        Some(110u8)  // n
    } else if b == 9 {
        Some(116u8)  // t
    } else if b == 13 {
        Some(114u8)  // r
    } else if b == 8 {
        Some(98u8)  // b
    } else if b == 12 {
        Some(102u8)  // f
    } else {
        None
    }
}

/// The serialized form of one string byte.
pub open spec fn esc_byte(b: u8) -> Seq<u8> {
    match esc_code(b) {
        Some(e) => seq![BACKSLASH, e],
        None => seq![b],
    }
}

/// The serialized form of a string's bytes, without the quotes.
pub open spec fn esc_bytes(s: Seq<u8>) -> Seq<u8>
    decreases s.len(),
{
    if s.len() == 0 {
        Seq::empty()
    } else {
        esc_byte(s[0]) + esc_bytes(s.drop_first())
    }
}

/// The serialized form of one string, quotes included.
pub open spec fn sp_ser_string(s: Seq<u8>) -> Seq<u8> {
    seq![QUOTE] + esc_bytes(s) + seq![QUOTE]
}

/// The serialized form of one member: key, colon, value.
pub open spec fn sp_ser_pair(p: (Seq<u8>, Seq<u8>)) -> Seq<u8> {
    sp_ser_string(p.0) + seq![COLON] + sp_ser_string(p.1)
}

/// The serialized members, separated by commas.
pub open spec fn sp_ser_entries(es: Seq<(Seq<u8>, Seq<u8>)>) -> Seq<u8>
    decreases es.len(),
{
    if es.len() == 0 {
        Seq::empty()
    } else if es.len() == 1 {
        sp_ser_pair(es[0])
    } else {
        sp_ser_pair(es[0]) + seq![COMMA] + sp_ser_entries(es.drop_first())
    }
}

/// The serialized document: the members between braces.
pub open spec fn sp_serialize(es: Seq<(Seq<u8>, Seq<u8>)>) -> Seq<u8> {
    seq![LBRACE] + sp_ser_entries(es) + seq![RBRACE]
}

/// Drops leading whitespace.
pub open spec fn sp_skip_ws(s: Seq<u8>) -> Seq<u8>
    decreases s.len(),
{
    if s.len() > 0 && is_ws(s[0]) {
        sp_skip_ws(s.drop_first())
    } else {
        s
    }
}

/// Parses a string body up to and over the closing quote, returning the
/// decoded bytes and the rest of the input.
pub open spec fn sp_str_body(s: Seq<u8>) -> Option<(Seq<u8>, Seq<u8>)>
    decreases s.len(),
{
    if s.len() == 0 {
        None
    } else if s[0] == QUOTE {
        Some((Seq::empty(), s.drop_first()))
    } else if s[0] == BACKSLASH {
        if s.len() >= 2 {
            match unescape(s[1]) {
                Some(b) => match sp_str_body(s.skip(2)) {
                    Some((t, r)) => Some((seq![b] + t, r)),
                    None => None,
                },
                None => None,
            }
        } else {
            None
        }
    } else {
        match sp_str_body(s.drop_first()) {
            Some((t, r)) => Some((seq![s[0]] + t, r)),
            None => None,
        }
    }
}

/// Parses one quoted string, returning its bytes and the rest of the input.
pub open spec fn sp_string(s: Seq<u8>) -> Option<(Seq<u8>, Seq<u8>)> {
    if s.len() > 0 && s[0] == QUOTE {
        sp_str_body(s.drop_first())
    } else {
        None
    }
}

/// Leading whitespace never makes the input longer.
pub proof fn lemma_sp_skip_ws_len(s: Seq<u8>)
    ensures
        sp_skip_ws(s).len() <= s.len(),
    decreases s.len(),
{
    if s.len() > 0 && is_ws(s[0]) {
        lemma_sp_skip_ws_len(s.drop_first());
    }
}

/// A parsed string body consumes at least the closing quote.
proof fn lemma_sp_str_body_len(s: Seq<u8>)
    ensures
        (sp_str_body(s) matches Some(p) ==> p.1.len() < s.len()),
    decreases s.len(),
{
    if s.len() == 0 {
    } else if s[0] == QUOTE {
    } else if s[0] == BACKSLASH {
        if s.len() >= 2 {
            lemma_sp_str_body_len(s.skip(2));
        }
    } else {
        lemma_sp_str_body_len(s.drop_first());
    }
}

/// A parsed string consumes at least its two quotes.
pub proof fn lemma_sp_string_len(s: Seq<u8>)
    ensures
        (sp_string(s) matches Some(p) ==> p.1.len() < s.len()),
{
    if s.len() > 0 && s[0] == QUOTE {
        lemma_sp_str_body_len(s.drop_first());
    }
}

/// Parses members (key, colon, value, separated by commas) into a map,
/// a later key overriding an earlier one, and returns the rest of the
/// input after the last member.
pub open spec fn sp_members(s: Seq<u8>, m: Map<Seq<u8>, Seq<u8>>) -> Option<
    (Map<Seq<u8>, Seq<u8>>, Seq<u8>),
>
    decreases s.len(),
{
    match sp_string(s) {
        None => None,
        Some((key, r1)) => {
            let r2 = sp_skip_ws(r1);
            if r2.len() == 0 || r2[0] != COLON {
                None
            } else {
                let r3 = sp_skip_ws(r2.drop_first());
                match sp_string(r3) {
                    None => None,
                    Some((val, r4)) => {
                        let m2 = m.insert(key, val);
                        let r5 = sp_skip_ws(r4);
                        if r5.len() > 0 && r5[0] == COMMA {
                            proof {
                                lemma_sp_string_len(s);
                                lemma_sp_skip_ws_len(r1);
                                lemma_sp_string_len(r3);
                                lemma_sp_skip_ws_len(r2.drop_first());
                                lemma_sp_skip_ws_len(r4);
                                lemma_sp_skip_ws_len(r5.drop_first());
                            }
                            sp_members(sp_skip_ws(r5.drop_first()), m2)
                        } else {
                            Some((m2, r5))
                        }
                    },
                }
            }
        },
    }
}

/// Parses a whole document: one flat object of string-to-string members,
/// with nothing but whitespace after it.
pub open spec fn sp_doc(s: Seq<u8>) -> Option<Map<Seq<u8>, Seq<u8>>> {
    let s1 = sp_skip_ws(s);
    if s1.len() == 0 || s1[0] != LBRACE {
        None
    } else {
        let s2 = sp_skip_ws(s1.drop_first());
        if s2.len() > 0 && s2[0] == RBRACE {
            if sp_skip_ws(s2.drop_first()).len() == 0 {
                Some(Map::empty())
            } else {
                None
            }
        } else {
            match sp_members(s2, Map::empty()) {
                None => None,
                Some((m, r)) => {
                    if r.len() > 0 && r[0] == RBRACE && sp_skip_ws(r.drop_first()).len() == 0 {
                        Some(m)
                    } else {
                        None
                    }
                },
            }
        }
    }
}

/// The byte an escape letter decodes to is the byte it was chosen for.
proof fn lemma_esc_code_unescape(b: u8)
    ensures
        (esc_code(b) matches Some(e) ==> unescape(e) == Some(b)),
{
}

/// Input that does not begin with whitespace is left as it is.
proof fn lemma_skip_ws_clean(s: Seq<u8>)
    requires
        s.len() == 0 || !is_ws(s[0]),
    ensures
        sp_skip_ws(s) == s,
{
}

/// Parsing an escaped string body gives the original bytes back and stops
/// right after the closing quote.
proof fn lemma_str_body_round_trip(t: Seq<u8>, rest: Seq<u8>)
    ensures
        sp_str_body(esc_bytes(t) + seq![QUOTE] + rest) == Some((t, rest)),
    decreases t.len(),
{
    let input = esc_bytes(t) + seq![QUOTE] + rest;
    if t.len() == 0 {
        assert(esc_bytes(t) =~= Seq::<u8>::empty());
        assert(input =~= seq![QUOTE] + rest);
        assert(input[0] == QUOTE);
        assert(input.drop_first() =~= rest);
        assert(t =~= Seq::<u8>::empty());
    } else {
        let b = t[0];
        let tail = t.drop_first();
        let x = esc_bytes(tail) + seq![QUOTE] + rest;
        lemma_str_body_round_trip(tail, rest);
        assert(esc_bytes(t) == esc_byte(b) + esc_bytes(tail));
        match esc_code(b) {
            Some(e) => {
                assert(esc_byte(b) == seq![BACKSLASH, e]);
                assert(input =~= seq![BACKSLASH, e] + x);
                assert(input[0] == BACKSLASH);
                assert(input.len() >= 2);
                assert(input[1] == e);
                lemma_esc_code_unescape(b);
                assert(input.skip(2) =~= x);
                assert(seq![b] + tail =~= t);
            },
            None => {
                assert(esc_byte(b) == seq![b]);
                assert(input =~= seq![b] + x);
                assert(input[0] == b);
                assert(b != QUOTE && b != BACKSLASH);
                assert(input.drop_first() =~= x);
                assert(seq![b] + tail =~= t);
            },
        }
    }
}

/// Parsing a serialized string gives the original bytes back.
proof fn lemma_string_round_trip(t: Seq<u8>, rest: Seq<u8>)
    ensures
        sp_string(sp_ser_string(t) + rest) == Some((t, rest)),
{
    let input = sp_ser_string(t) + rest;
    assert(input =~= seq![QUOTE] + (esc_bytes(t) + seq![QUOTE] + rest));
    assert(input[0] == QUOTE);
    assert(input.drop_first() =~= esc_bytes(t) + seq![QUOTE] + rest);
    lemma_str_body_round_trip(t, rest);
}

/// Serialized members begin with a quote.
proof fn lemma_ser_entries_first(es: Seq<(Seq<u8>, Seq<u8>)>)
    requires
        es.len() >= 1,
    ensures
        sp_ser_entries(es).len() > 0,
        sp_ser_entries(es)[0] == QUOTE,
{
    assert(sp_ser_pair(es[0])[0] == QUOTE) by {
        assert(sp_ser_string(es[0].0)[0] == QUOTE);
    }
}

/// Parsing serialized members inserts exactly those bindings, in order,
/// and stops at the closing brace.
proof fn lemma_members_round_trip(es: Seq<(Seq<u8>, Seq<u8>)>, m: Map<Seq<u8>, Seq<u8>>)
    requires
        es.len() >= 1,
    ensures
        sp_members(sp_ser_entries(es) + seq![RBRACE], m) == Some(
            (sp_insert_all(m, es), seq![RBRACE]),
        ),
    decreases es.len(),
{
    let k0 = es[0].0;
    let v0 = es[0].1;
    let input = sp_ser_entries(es) + seq![RBRACE];
    if es.len() == 1 {
        let x1 = seq![COLON] + sp_ser_string(v0) + seq![RBRACE];
        assert(input =~= sp_ser_string(k0) + x1);
        lemma_string_round_trip(k0, x1);
        assert(!is_ws(COLON));
        lemma_skip_ws_clean(x1);
        assert(x1[0] == COLON);
        let x2 = sp_ser_string(v0) + seq![RBRACE];
        assert(x1.drop_first() =~= x2);
        assert(x2[0] == QUOTE);
        lemma_skip_ws_clean(x2);
        lemma_string_round_trip(v0, seq![RBRACE]);
        lemma_skip_ws_clean(seq![RBRACE]);
        assert(seq![RBRACE][0] == RBRACE);
        assert(es.drop_first().len() == 0);
        assert(sp_insert_all(m, es) == m.insert(k0, v0));
    } else {
        let restm = es.drop_first();
        let x1 = seq![COLON] + sp_ser_string(v0) + (seq![COMMA] + sp_ser_entries(restm)
            + seq![RBRACE]);
        assert(sp_ser_entries(es) == sp_ser_pair(es[0]) + seq![COMMA] + sp_ser_entries(restm));
        assert(input =~= sp_ser_string(k0) + x1);
        lemma_string_round_trip(k0, x1);
        assert(!is_ws(COLON));
        lemma_skip_ws_clean(x1);
        assert(x1[0] == COLON);
        let x2 = sp_ser_string(v0) + (seq![COMMA] + sp_ser_entries(restm) + seq![RBRACE]);
        assert(x1.drop_first() =~= x2);
        assert(x2[0] == QUOTE);
        lemma_skip_ws_clean(x2);
        let x3 = seq![COMMA] + sp_ser_entries(restm) + seq![RBRACE];
        lemma_string_round_trip(v0, x3);
        assert(!is_ws(COMMA));
        assert(x3[0] == COMMA);
        lemma_skip_ws_clean(x3);
        let x4 = sp_ser_entries(restm) + seq![RBRACE];
        assert(x3.drop_first() =~= x4);
        lemma_ser_entries_first(restm);
        assert(x4[0] == QUOTE);
        assert(!is_ws(QUOTE));
        lemma_skip_ws_clean(x4);
        lemma_members_round_trip(restm, m.insert(k0, v0));
        assert(sp_insert_all(m, es) == sp_insert_all(m.insert(k0, v0), restm));
    }
}

/// Round trip: parsing a serialized entry list yields exactly the map that
/// folds those entries together, a later entry overriding an earlier one.
pub proof fn lemma_round_trip(es: Seq<(Seq<u8>, Seq<u8>)>)
    ensures
        sp_doc(sp_serialize(es)) == Some(
            sp_insert_all(Map::<Seq<u8>, Seq<u8>>::empty(), es),
        ),
{
    let input = sp_serialize(es);
    assert(input[0] == LBRACE);
    assert(!is_ws(LBRACE));
    lemma_skip_ws_clean(input);
    let x1 = sp_ser_entries(es) + seq![RBRACE];
    assert(input.drop_first() =~= x1);
    if es.len() == 0 {
        assert(sp_ser_entries(es) =~= Seq::<u8>::empty());
        assert(x1 =~= seq![RBRACE]);
        assert(!is_ws(RBRACE));
        lemma_skip_ws_clean(x1);
        assert(x1[0] == RBRACE);
        assert(x1.drop_first() =~= Seq::<u8>::empty());
        assert(sp_skip_ws(Seq::<u8>::empty()).len() == 0);
    } else {
        lemma_ser_entries_first(es);
        assert(x1[0] == QUOTE);
        assert(!is_ws(QUOTE));
        lemma_skip_ws_clean(x1);
        lemma_members_round_trip(es, Map::empty());
        assert(seq![RBRACE][0] == RBRACE);
        assert(seq![RBRACE].drop_first() =~= Seq::<u8>::empty());
        assert(sp_skip_ws(Seq::<u8>::empty()).len() == 0);
    }
}

/// The byte an accepted escape letter decodes to.
fn unescape_byte(e: u8) -> (r: Option<u8>)
    ensures
        r == unescape(e),
{
    if e == QUOTE {
        Some(QUOTE)
    } else if e == BACKSLASH {
        Some(BACKSLASH)
    } else if e == SLASH {
        Some(SLASH)
    } else if e == 110 {
        Some(10u8)
    } else if e == 116 {
        Some(9u8)
    } else if e == 114 {
        Some(13u8)
    } else if e == 98 {
        Some(8u8)
    } else if e == 102 {
        Some(12u8)
    } else {
        None
    }
}

/// The index just past the leading whitespace, from position `i` on.
#[verifier::loop_isolation(false)]
fn skip_ws(s: &Vec<u8>, i: usize) -> (j: usize)
    requires
        i <= s@.len(),
    ensures
        i <= j <= s@.len(),
        s@.skip(j as int) == sp_skip_ws(s@.skip(i as int)),
{
    let mut j = i;
    loop
        invariant
            i <= j <= s@.len(),
            sp_skip_ws(s@.skip(i as int)) == sp_skip_ws(s@.skip(j as int)),
        decreases s@.len() - j,
    {
        if j >= s.len() {
            proof {
                assert(s@.skip(j as int).len() == 0);
            }
            return j;
        }
        let c = s[j];
        proof {
            assert(s@.skip(j as int)[0] == c);
        }
        if !(c == 32 || c == 9 || c == 10 || c == 13) {
            proof {
                lemma_skip_ws_clean(s@.skip(j as int));
            }
            return j;
        }
        proof {
            assert(s@.skip(j as int).drop_first() =~= s@.skip(j + 1));
        }
        j = j + 1;
    }
}

/// Parses one quoted string starting at `i`, returning the decoded bytes
/// and the index just past the closing quote.
#[verifier::loop_isolation(false)]
fn parse_string(s: &Vec<u8>, i: usize) -> (r: Option<(Vec<u8>, usize)>)
    requires
        i <= s@.len(),
    ensures
        (match r {
            Some(p) => i < p.1 <= s@.len() && sp_string(s@.skip(i as int)) == Some(
                (p.0@, s@.skip(p.1 as int)),
            ),
            None => sp_string(s@.skip(i as int)) is None,
        }),
{
    if i >= s.len() {
        return None;
    }
    if s[i] != QUOTE {
        proof {
            assert(s@.skip(i as int)[0] == s@[i as int]);
        }
        return None;
    }
    proof {
        assert(s@.skip(i as int)[0] == QUOTE);
        assert(s@.skip(i as int).drop_first() =~= s@.skip(i + 1));
    }
    let mut out: Vec<u8> = Vec::new();
    let mut j = i + 1;
    loop
        invariant
            i + 1 <= j <= s@.len(),
            (match sp_str_body(s@.skip(j as int)) {
                Some(p) => sp_str_body(s@.skip(i + 1)) == Some((out@ + p.0, p.1)),
                None => sp_str_body(s@.skip(i + 1)) is None,
            }),
        decreases s@.len() - j,
    {
        if j >= s.len() {
            proof {
                assert(s@.skip(j as int).len() == 0);
            }
            return None;
        }
        let c = s[j];
        proof {
            assert(s@.skip(j as int)[0] == c);
        }
        if c == QUOTE {
            proof {
                assert(s@.skip(j as int).drop_first() =~= s@.skip(j + 1));
                assert(out@ + Seq::<u8>::empty() =~= out@);
            }
            return Some((out, j + 1));
        }
        if c == BACKSLASH {
            if j + 1 >= s.len() {
                proof {
                    assert(s@.skip(j as int).len() < 2);
                }
                return None;
            }
            let e = s[j + 1];
            proof {
                assert(s@.skip(j as int).len() >= 2);
                assert(s@.skip(j as int)[1] == e);
                assert(s@.skip(j as int).skip(2) =~= s@.skip(j + 2));
            }
            match unescape_byte(e) {
                Some(b) => {
                    let ghost out0 = out@;
                    out.push(b);
                    proof {
                        assert(out@ =~= out0 + seq![b]);
                        match sp_str_body(s@.skip(j + 2)) {
                            Some(p) => {
                                assert(out0 + (seq![b] + p.0) =~= out@ + p.0);
                            },
                            None => {},
                        }
                    }
                    j = j + 2;
                },
                None => {
                    return None;
                },
            }
        } else {
            let ghost out0 = out@;
            out.push(c);
            proof {
                assert(s@.skip(j as int).drop_first() =~= s@.skip(j + 1));
                assert(out@ =~= out0 + seq![c]);
                match sp_str_body(s@.skip(j + 1)) {
                    Some(p) => {
                        assert(out0 + (seq![c] + p.0) =~= out@ + p.0);
                    },
                    None => {},
                }
            }
            j = j + 1;
        }
    }
}

/// Parses members into the store from position `i` on, a later key
/// overriding an earlier one, and returns the index after the last member.
#[verifier::loop_isolation(false)]
fn parse_members(s: &Vec<u8>, i: usize, m: &mut LinkMap) -> (r: Option<usize>)
    requires
        i <= s@.len(),
        old(m).wf(),
    ensures
        final(m).wf(),
        (match r {
            Some(j) => i <= j <= s@.len() && sp_members(s@.skip(i as int), old(m)@) == Some(
                (final(m)@, s@.skip(j as int)),
            ),
            None => sp_members(s@.skip(i as int), old(m)@) is None,
        }),
{
    let mut cur = i;
    loop
        invariant
            i <= cur <= s@.len(),
            m.wf(),
            (match sp_members(s@.skip(cur as int), m@) {
                Some(p) => sp_members(s@.skip(i as int), old(m)@) == Some(p),
                None => sp_members(s@.skip(i as int), old(m)@) is None,
            }),
        decreases s@.len() - cur,
    {
        let key = match parse_string(s, cur) {
            None => {
                return None;
            },
            Some(p) => p,
        };
        let j1 = key.1;
        let j2 = skip_ws(s, j1);
        if j2 >= s.len() {
            return None;
        }
        if s[j2] != COLON {
            proof {
                assert(s@.skip(j2 as int)[0] == s@[j2 as int]);
            }
            return None;
        }
        proof {
            assert(s@.skip(j2 as int)[0] == COLON);
            assert(s@.skip(j2 as int).drop_first() =~= s@.skip(j2 + 1));
        }
        let j3 = skip_ws(s, j2 + 1);
        let val = match parse_string(s, j3) {
            None => {
                return None;
            },
            Some(p) => p,
        };
        let j4 = val.1;
        m.insert(key.0, val.0);
        let j5 = skip_ws(s, j4);
        if j5 >= s.len() {
            return Some(j5);
        }
        if s[j5] != COMMA {
            proof {
                assert(s@.skip(j5 as int)[0] == s@[j5 as int]);
            }
            return Some(j5);
        }
        proof {
            assert(s@.skip(j5 as int)[0] == COMMA);
            assert(s@.skip(j5 as int).drop_first() =~= s@.skip(j5 + 1));
        }
        let j6 = skip_ws(s, j5 + 1);
        cur = j6;
    }
}

/// Reads the store from the backing file's bytes.  Empty content is the
/// first-run case and gives the empty store; otherwise the content must
/// parse as a flat string-to-string object.
pub fn read_links(contents: &Vec<u8>) -> (r: Result<LinkMap, ParseError>)
    ensures
        (r matches Ok(m) ==> m.wf()),
        contents@.len() == 0 ==> (r matches Ok(m) && m@ == Map::<Seq<u8>, Seq<u8>>::empty()),
        contents@.len() > 0 ==> (match r {
            Ok(m) => sp_doc(contents@) == Some(m@),
            Err(_) => sp_doc(contents@) is None,
        }),
{
    if contents.len() == 0 {
        return Ok(LinkMap::new());
    }
    proof {
        assert(contents@.skip(0) =~= contents@);
    }
    let i1 = skip_ws(contents, 0);
    if i1 >= contents.len() {
        return Err(ParseError);
    }
    if contents[i1] != LBRACE {
        proof {
            assert(contents@.skip(i1 as int)[0] == contents@[i1 as int]);
        }
        return Err(ParseError);
    }
    proof {
        assert(contents@.skip(i1 as int)[0] == LBRACE);
        assert(contents@.skip(i1 as int).drop_first() =~= contents@.skip(i1 + 1));
    }
    let i2 = skip_ws(contents, i1 + 1);
    if i2 < contents.len() && contents[i2] == RBRACE {
        proof {
            assert(contents@.skip(i2 as int)[0] == RBRACE);
            assert(contents@.skip(i2 as int).drop_first() =~= contents@.skip(i2 + 1));
        }
        let i3 = skip_ws(contents, i2 + 1);
        if i3 == contents.len() {
            proof {
                assert(contents@.skip(i3 as int).len() == 0);
            }
            let m = LinkMap::new();
            return Ok(m);
        } else {
            proof {
                assert(contents@.skip(i3 as int).len() > 0);
            }
            return Err(ParseError);
        }
    }
    proof {
        if i2 < contents@.len() {
            assert(contents@.skip(i2 as int)[0] == contents@[i2 as int]);
        } else {
            assert(contents@.skip(i2 as int).len() == 0);
        }
    }
    let mut m = LinkMap::new();
    let j = match parse_members(contents, i2, &mut m) {
        None => {
            return Err(ParseError);
        },
        Some(j) => j,
    };
    if j >= contents.len() {
        proof {
            assert(contents@.skip(j as int).len() == 0);
        }
        return Err(ParseError);
    }
    if contents[j] != RBRACE {
        proof {
            assert(contents@.skip(j as int)[0] == contents@[j as int]);
        }
        return Err(ParseError);
    }
    proof {
        assert(contents@.skip(j as int)[0] == RBRACE);
        assert(contents@.skip(j as int).drop_first() =~= contents@.skip(j + 1));
    }
    let j2 = skip_ws(contents, j + 1);
    if j2 == contents.len() {
        proof {
            assert(contents@.skip(j2 as int).len() == 0);
        }
        Ok(m)
    } else {
        proof {
            assert(contents@.skip(j2 as int).len() > 0);
        }
        Err(ParseError)
    }
}

/// One serialized entry more at the end of the members.
proof fn lemma_ser_take_succ(es: Seq<(Seq<u8>, Seq<u8>)>, k: int)
    requires
        0 <= k < es.len(),
    ensures
        sp_ser_entries(es.take(k + 1)) == if k == 0 {
            sp_ser_pair(es[0])
        } else {
            sp_ser_entries(es.take(k)) + seq![COMMA] + sp_ser_pair(es[k])
        },
    decreases k,
{
    if k == 0 {
        assert(es.take(1).len() == 1);
        assert(es.take(1)[0] == es[0]);
    } else {
        let rest = es.drop_first();
        lemma_ser_take_succ(rest, k - 1);
        assert(es.take(k + 1).len() == k + 1);
        assert(es.take(k + 1)[0] == es[0]);
        assert(es.take(k + 1).drop_first() =~= rest.take(k));
        assert(es.take(k).len() == k);
        assert(es.take(k)[0] == es[0]);
        assert(es.take(k).drop_first() =~= rest.take(k - 1));
        assert(rest[k - 1] == es[k]);
        if k == 1 {
            assert(sp_ser_entries(es.take(2)) == sp_ser_pair(es[0]) + seq![COMMA]
                + sp_ser_entries(rest.take(1)));
            assert(sp_ser_entries(rest.take(1)) == sp_ser_pair(rest[0]));
            assert(sp_ser_entries(es.take(1)) == sp_ser_pair(es.take(1)[0]));
            assert(es.take(1)[0] == es[0]);
            assert(sp_ser_pair(es[0]) + seq![COMMA] + sp_ser_pair(rest[0])
                =~= sp_ser_entries(es.take(1)) + seq![COMMA] + sp_ser_pair(es[1]));
        } else {
            assert(sp_ser_entries(es.take(k + 1)) == sp_ser_pair(es[0]) + seq![COMMA]
                + sp_ser_entries(rest.take(k)));
            assert(sp_ser_entries(rest.take(k)) == sp_ser_entries(rest.take(k - 1)) + seq![COMMA]
                + sp_ser_pair(rest[k - 1]));
            assert(sp_ser_entries(es.take(k)) == sp_ser_pair(es[0]) + seq![COMMA]
                + sp_ser_entries(rest.take(k - 1)));
            assert(sp_ser_pair(es[0]) + seq![COMMA] + (sp_ser_entries(rest.take(k - 1))
                + seq![COMMA] + sp_ser_pair(rest[k - 1])) =~= (sp_ser_pair(es[0]) + seq![COMMA]
                + sp_ser_entries(rest.take(k - 1))) + seq![COMMA] + sp_ser_pair(es[k]));
        }
    }
}

/// One escaped byte more at the end of a string body.
proof fn lemma_esc_take_succ(s: Seq<u8>, k: int)
    requires
        0 <= k < s.len(),
    ensures
        esc_bytes(s.take(k + 1)) == esc_bytes(s.take(k)) + esc_byte(s[k]),
    decreases k,
{
    if k == 0 {
        assert(s.take(1).len() == 1);
        assert(s.take(1)[0] == s[0]);
        assert(s.take(1).drop_first().len() == 0);
        assert(esc_bytes(s.take(1)) == esc_byte(s[0]) + esc_bytes(s.take(1).drop_first()));
        assert(esc_bytes(s.take(1).drop_first()) =~= Seq::<u8>::empty());
        assert(s.take(0).len() == 0);
        assert(esc_bytes(s.take(0)) =~= Seq::<u8>::empty());
        assert(esc_bytes(s.take(1)) =~= esc_bytes(s.take(0)) + esc_byte(s[0]));
    } else {
        let rest = s.drop_first();
        lemma_esc_take_succ(rest, k - 1);
        assert(s.take(k + 1).len() == k + 1);
        assert(s.take(k + 1)[0] == s[0]);
        assert(s.take(k + 1).drop_first() =~= rest.take(k));
        assert(esc_bytes(s.take(k + 1)) == esc_byte(s[0]) + esc_bytes(rest.take(k)));
        assert(esc_bytes(rest.take(k)) == esc_bytes(rest.take(k - 1)) + esc_byte(rest[k - 1]));
        assert(rest[k - 1] == s[k]);
        assert(s.take(k).len() == k);
        assert(s.take(k)[0] == s[0]);
        assert(s.take(k).drop_first() =~= rest.take(k - 1));
        assert(esc_bytes(s.take(k)) == esc_byte(s[0]) + esc_bytes(rest.take(k - 1)));
        assert(esc_byte(s[0]) + (esc_bytes(rest.take(k - 1)) + esc_byte(s[k])) =~= (esc_byte(s[0])
            + esc_bytes(rest.take(k - 1))) + esc_byte(s[k]));
        assert(esc_bytes(s.take(k + 1)) =~= esc_bytes(s.take(k)) + esc_byte(s[k]));
    }
}

/// Appends one serialized string, quotes and escapes included.
#[verifier::loop_isolation(false)]
fn write_string(out: &mut Vec<u8>, s: &Vec<u8>)
    ensures
        final(out)@ == old(out)@ + sp_ser_string(s@),
{
    let ghost base = out@;
    out.push(QUOTE);
    let mut b: usize = 0;
    proof {
        assert(s@.take(0) =~= Seq::<u8>::empty());
        assert(out@ =~= base + seq![QUOTE] + esc_bytes(s@.take(0)));
    }
    while b < s.len()
        invariant
            b <= s@.len(),
            out@ == base + seq![QUOTE] + esc_bytes(s@.take(b as int)),
        decreases s@.len() - b,
    {
        let c = s[b];
        let ghost out0 = out@;
        if c == QUOTE {
            out.push(BACKSLASH);
            out.push(QUOTE);
        } else if c == BACKSLASH {
            out.push(BACKSLASH);
            out.push(BACKSLASH);
        } else if c == 10 {
            out.push(BACKSLASH);
            out.push(110);
        } else if c == 9 {
            out.push(BACKSLASH);
            out.push(116);
        } else if c == 13 {
            out.push(BACKSLASH);
            out.push(114);
        } else if c == 8 {
            out.push(BACKSLASH);
            out.push(98);
        } else if c == 12 {
            out.push(BACKSLASH);
            out.push(102);
        } else {
            out.push(c);
        }
        proof {
            assert(out@ =~= out0 + esc_byte(c));
            lemma_esc_take_succ(s@, b as int);
            assert(out@ =~= base + seq![QUOTE] + esc_bytes(s@.take(b + 1)));
        }
        b = b + 1;
    }
    proof {
        assert(s@.take(s@.len() as int) =~= s@);
    }
    out.push(QUOTE);
    proof {
        assert(out@ =~= base + sp_ser_string(s@));
    }
}

/// Serializes the store to the bytes of the backing file: a flat JSON
/// object with one member per binding, in the store's sorted order.
/// Parsing the result gives the same map back.
#[verifier::loop_isolation(false)]
pub fn write_links(links: &LinkMap) -> (r: Vec<u8>)
    requires
        links.wf(),
    ensures
        r@ == sp_serialize(links.entries_view()),
        sp_doc(r@) == Some(links@),
{
    let ghost es = links.entries_view();
    let entries = links.list();
    let mut out: Vec<u8> = Vec::new();
    out.push(LBRACE);
    proof {
        assert(es.take(0) =~= Seq::<(Seq<u8>, Seq<u8>)>::empty());
        assert(out@ =~= seq![LBRACE] + sp_ser_entries(es.take(0)));
    }
    let mut k: usize = 0;
    while k < entries.len()
        invariant
            k <= entries@.len(),
            entries@.len() == es.len(),
            out@ == seq![LBRACE] + sp_ser_entries(es.take(k as int)),
        decreases entries@.len() - k,
    {
        let ghost out0 = out@;
        if k > 0 {
            out.push(COMMA);
        }
        write_string(&mut out, &entries[k].abbrev);
        out.push(COLON);
        write_string(&mut out, &entries[k].target);
        proof {
            assert(es[k as int] == (entries@[k as int].abbrev@, entries@[k as int].target@));
            lemma_ser_take_succ(es, k as int);
            if k == 0 {
                assert(out@ =~= out0 + sp_ser_pair(es[0]));
                assert(out@ =~= seq![LBRACE] + sp_ser_entries(es.take(1)));
            } else {
                assert(out@ =~= out0 + seq![COMMA] + sp_ser_pair(es[k as int]));
                assert(out@ =~= seq![LBRACE] + sp_ser_entries(es.take(k + 1)));
            }
        }
        k = k + 1;
    }
    proof {
        assert(es.take(es.len() as int) =~= es);
    }
    out.push(RBRACE);
    proof {
        assert(out@ =~= sp_serialize(es));
        lemma_round_trip(es);
    }
    out
}

} // verus!
