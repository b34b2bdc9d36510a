//! The storage format of a user's pin collection: little-endian integers,
//! strings as a character count followed by one 4-byte code point per
//! character, lists as a count followed by their items.

use vstd::prelude::*;
use crate::pin::Pin;
use crate::credential::UserRecord;
use crate::text::{char_from_code, char_with_code, is_scalar, lemma_code_injective, views};
use vstd::bytes::{
    spec_u32_from_le_bytes, spec_u32_to_le_bytes, spec_u64_from_le_bytes, spec_u64_to_le_bytes,
};

verus! {

pub open spec fn enc_u64(x: u64) -> Seq<u8> {
    spec_u64_to_le_bytes(x)
}

pub open spec fn enc_char(c: char) -> Seq<u8> {
    spec_u32_to_le_bytes(c as u32)
}

/// The codes of the characters of `s`, in order.
pub open spec fn enc_chars(s: Seq<char>) -> Seq<u8>
    decreases s.len(),
{
    if s.len() == 0 {
        Seq::empty()
    } else {
        enc_chars(s.drop_last()) + enc_char(s.last())
    }
}

/// A string: its length, then its characters.
pub open spec fn enc_str(s: Seq<char>) -> Seq<u8> {
    enc_u64(s.len() as u64) + enc_chars(s)
}

pub open spec fn dec_u64(b: Seq<u8>) -> Option<(u64, Seq<u8>)> {
    if b.len() >= 8 {
        Some((spec_u64_from_le_bytes(b.subrange(0, 8)), b.subrange(8, b.len() as int)))
    } else {
        None
    }
}

pub open spec fn dec_char(b: Seq<u8>) -> Option<(char, Seq<u8>)> {
    if b.len() >= 4 && is_scalar(spec_u32_from_le_bytes(b.subrange(0, 4))) {
        Some((char_with_code(spec_u32_from_le_bytes(b.subrange(0, 4))), b.subrange(4, b.len() as int)))
    } else {
        None
    }
}

/// Reads `n` characters from the front of `b`.
pub open spec fn dec_chars(b: Seq<u8>, n: nat) -> Option<(Seq<char>, Seq<u8>)>
    decreases n,
{
    if n == 0 {
        Some((Seq::empty(), b))
    } else {
        match dec_chars(b, (n - 1) as nat) {
            Some((s, rest)) => match dec_char(rest) {
                Some((c, rest2)) => Some((s.push(c), rest2)),
                None => None,
            },
            None => None,
        }
    }
}

pub open spec fn dec_str(b: Seq<u8>) -> Option<(Seq<char>, Seq<u8>)> {
    match dec_u64(b) {
        Some((n, rest)) => dec_chars(rest, n as nat),
        None => None,
    }
}

proof fn lemma_u64_round(x: u64, rest: Seq<u8>)
    ensures
        dec_u64(enc_u64(x) + rest) == Some((x, rest)),
{
    vstd::bytes::lemma_auto_spec_u64_to_from_le_bytes();
    let b = enc_u64(x) + rest;
    assert(b.subrange(0, 8) =~= enc_u64(x));
    assert(b.subrange(8, b.len() as int) =~= rest);
}

proof fn lemma_char_round(c: char, rest: Seq<u8>)
    ensures
        dec_char(enc_char(c) + rest) == Some((c, rest)),
{
    vstd::bytes::lemma_auto_spec_u32_to_from_le_bytes();
    let b = enc_char(c) + rest;
    assert(b.subrange(0, 4) =~= enc_char(c));
    assert(b.subrange(4, b.len() as int) =~= rest);
    let n = c as u32;
    assert(is_scalar(n));
    assert(char_with_code(n) as u32 == n);
}

proof fn lemma_chars_round(s: Seq<char>, rest: Seq<u8>)
    ensures
        dec_chars(enc_chars(s) + rest, s.len()) == Some((s, rest)),
    decreases s.len(),
{
    if s.len() > 0 {
        let t = s.drop_last();
        let c = s.last();
        assert(enc_chars(s) + rest =~= enc_chars(t) + (enc_char(c) + rest));
        lemma_chars_round(t, enc_char(c) + rest);
        lemma_char_round(c, rest);
        assert(t.push(c) =~= s);
    } else {
        assert(enc_chars(s) + rest =~= rest);
    }
}

proof fn lemma_str_round(s: Seq<char>, rest: Seq<u8>)
    requires
        s.len() <= u64::MAX,
    ensures
        dec_str(enc_str(s) + rest) == Some((s, rest)),
{
    assert(enc_str(s) + rest =~= enc_u64(s.len() as u64) + (enc_chars(s) + rest));
    lemma_u64_round(s.len() as u64, enc_chars(s) + rest);
    lemma_chars_round(s, rest);
}

proof fn lemma_chars_stop(b: Seq<u8>, i: nat, m: nat)
    requires
        i < m,
        dec_chars(b, i) matches Some((s, rest)) && dec_char(rest) is None,
    ensures
        dec_chars(b, m) is None,
    decreases m,
{
    if m > i + 1 {
        lemma_chars_stop(b, i, (m - 1) as nat);
    }
}

fn append(out: &mut Vec<u8>, b: &Vec<u8>)
    ensures
        final(out)@ == old(out)@ + b@,
{
    let mut i: usize = 0;
    while i < b.len()
        invariant
            0 <= i <= b@.len(),
            out@ == old(out)@ + b@.subrange(0, i as int),
        decreases b@.len() - i,
    {
        out.push(b[i]);
        i = i + 1;
        assert(out@ =~= old(out)@ + b@.subrange(0, i as int));
    }
    assert(b@.subrange(0, b@.len() as int) =~= b@);
}

fn write_u64(out: &mut Vec<u8>, x: u64)
    ensures
        final(out)@ == old(out)@ + enc_u64(x),
{
    let b = vstd::bytes::u64_to_le_bytes(x);
    append(out, &b);
}

fn write_str(out: &mut Vec<u8>, s: &str)
    ensures
        final(out)@ == old(out)@ + enc_str(s@),
{
    let cs = crate::text::chars_of(s);
    write_u64(out, cs.len() as u64);
    let ghost start = out@;
    let mut i: usize = 0;
    while i < cs.len()
        invariant
            0 <= i <= cs@.len(),
            cs@ == s@,
            out@ == start + enc_chars(cs@.subrange(0, i as int)),
        decreases cs@.len() - i,
    {
        let code = vstd::bytes::u32_to_le_bytes(cs[i] as u32);
        append(out, &code);
        assert(cs@.subrange(0, i + 1).drop_last() =~= cs@.subrange(0, i as int));
        i = i + 1;
        assert(out@ =~= start + enc_chars(cs@.subrange(0, i as int)));
    }
    assert(cs@.subrange(0, cs@.len() as int) =~= cs@);
    assert(out@ =~= old(out)@ + enc_str(s@));
}

fn read_u64(b: &Vec<u8>, pos: usize) -> (r: Option<(u64, usize)>)
    requires
        pos <= b@.len(),
    ensures
        r is None <==> dec_u64(b@.subrange(pos as int, b@.len() as int)) is None,
        r matches Some((x, p)) ==> p == pos + 8 && p <= b@.len() && dec_u64(
            b@.subrange(pos as int, b@.len() as int),
        ) == Some((x, b@.subrange(p as int, b@.len() as int))),
{
    if b.len() - pos < 8 {
        return None;
    }
    let s = vstd::slice::slice_subrange(b.as_slice(), pos, pos + 8);
    let x = vstd::bytes::u64_from_le_bytes(s);
    let ghost sub = b@.subrange(pos as int, b@.len() as int);
    assert(sub.subrange(0, 8) =~= s@);
    assert(sub.subrange(8, sub.len() as int) =~= b@.subrange(pos + 8, b@.len() as int));
    Some((x, pos + 8))
}

fn read_char(b: &Vec<u8>, pos: usize) -> (r: Option<(char, usize)>)
    requires
        pos <= b@.len(),
    ensures
        r is None <==> dec_char(b@.subrange(pos as int, b@.len() as int)) is None,
        r matches Some((c, p)) ==> pos <= p <= b@.len() && dec_char(
            b@.subrange(pos as int, b@.len() as int),
        ) == Some((c, b@.subrange(p as int, b@.len() as int))),
{
    if b.len() - pos < 4 {
        return None;
    }
    let s = vstd::slice::slice_subrange(b.as_slice(), pos, pos + 4);
    let n = vstd::bytes::u32_from_le_bytes(s);
    let ghost sub = b@.subrange(pos as int, b@.len() as int);
    assert(sub.subrange(0, 4) =~= s@);
    assert(sub.subrange(4, sub.len() as int) =~= b@.subrange(pos + 4, b@.len() as int));
    match char_from_code(n) {
        None => None,
        Some(c) => {
            assert(is_scalar(n));
            assert(char_with_code(n) as u32 == n);
            proof {
                lemma_code_injective(c, char_with_code(n));
            }
            Some((c, pos + 4))
        },
    }
}

fn read_str(b: &Vec<u8>, pos: usize) -> (r: Option<(String, usize)>)
    requires
        pos <= b@.len(),
    ensures
        r is None <==> dec_str(b@.subrange(pos as int, b@.len() as int)) is None,
        r matches Some((s, p)) ==> pos <= p <= b@.len() && dec_str(
            b@.subrange(pos as int, b@.len() as int),
        ) == Some((s@, b@.subrange(p as int, b@.len() as int))),
{
    let (n, mut p) = match read_u64(b, pos) {
        None => {
            return None;
        },
        Some(x) => x,
    };
    let ghost start = b@.subrange(p as int, b@.len() as int);
    let mut acc: Vec<char> = Vec::new();
    let mut i: u64 = 0;
    while i < n
        invariant
            pos <= p <= b@.len(),
            0 <= i <= n,
            start == b@.subrange(pos + 8, b@.len() as int),
            dec_u64(b@.subrange(pos as int, b@.len() as int)) == Some((n, start)),
            dec_chars(start, i as nat) == Some((acc@, b@.subrange(p as int, b@.len() as int))),
        decreases n - i,
    {
        match read_char(b, p) {
            None => {
                proof {
                    lemma_chars_stop(start, i as nat, n as nat);
                }
                return None;
            },
            Some((c, p2)) => {
                acc.push(c);
                p = p2;
            },
        }
        i = i + 1;
    }
    Some((crate::text::string_of(&acc), p))
}

/// The items of a list of strings, one after the other.
pub open spec fn enc_str_items(ss: Seq<Seq<char>>) -> Seq<u8>
    decreases ss.len(),
{
    if ss.len() == 0 {
        Seq::empty()
    } else {
        enc_str_items(ss.drop_last()) + enc_str(ss.last())
    }
}

/// A list of strings: its length, then its items.
pub open spec fn enc_strs(ss: Seq<Seq<char>>) -> Seq<u8> {
    enc_u64(ss.len() as u64) + enc_str_items(ss)
}

pub open spec fn dec_str_items(b: Seq<u8>, n: nat) -> Option<(Seq<Seq<char>>, Seq<u8>)>
    decreases n,
{
    if n == 0 {
        Some((Seq::empty(), b))
    } else {
        match dec_str_items(b, (n - 1) as nat) {
            Some((ss, rest)) => match dec_str(rest) {
                Some((s, rest2)) => Some((ss.push(s), rest2)),
                None => None,
            },
            None => None,
        }
    }
}

pub open spec fn dec_strs(b: Seq<u8>) -> Option<(Seq<Seq<char>>, Seq<u8>)> {
    match dec_u64(b) {
        Some((n, rest)) => dec_str_items(rest, n as nat),
        None => None,
    }
}

/// Every string of `ss`, and the list itself, has a length that fits a `u64`.
pub open spec fn strs_fit(ss: Seq<Seq<char>>) -> bool {
    ss.len() <= u64::MAX && forall|k: int| 0 <= k < ss.len() ==> (#[trigger] ss[k]).len() <= u64::MAX
}

proof fn lemma_str_items_round(ss: Seq<Seq<char>>, rest: Seq<u8>)
    requires
        strs_fit(ss),
    ensures
        dec_str_items(enc_str_items(ss) + rest, ss.len()) == Some((ss, rest)),
    decreases ss.len(),
{
    if ss.len() > 0 {
        let t = ss.drop_last();
        let s = ss.last();
        assert(ss[ss.len() - 1] == s);
        assert(enc_str_items(ss) + rest =~= enc_str_items(t) + (enc_str(s) + rest));
        assert forall|k: int| 0 <= k < t.len() implies (#[trigger] t[k]).len() <= u64::MAX by {
            assert(t[k] == ss[k]);
        }
        lemma_str_items_round(t, enc_str(s) + rest);
        lemma_str_round(s, rest);
        assert(t.push(s) =~= ss);
    } else {
        assert(enc_str_items(ss) + rest =~= rest);
    }
}

proof fn lemma_strs_round(ss: Seq<Seq<char>>, rest: Seq<u8>)
    requires
        strs_fit(ss),
    ensures
        dec_strs(enc_strs(ss) + rest) == Some((ss, rest)),
{
    assert(enc_strs(ss) + rest =~= enc_u64(ss.len() as u64) + (enc_str_items(ss) + rest));
    lemma_u64_round(ss.len() as u64, enc_str_items(ss) + rest);
    lemma_str_items_round(ss, rest);
}

proof fn lemma_str_items_stop(b: Seq<u8>, i: nat, m: nat)
    requires
        i < m,
        dec_str_items(b, i) matches Some((s, rest)) && dec_str(rest) is None,
    ensures
        dec_str_items(b, m) is None,
    decreases m,
{
    if m > i + 1 {
        lemma_str_items_stop(b, i, (m - 1) as nat);
    }
}

pub open spec fn enc_bool(x: bool) -> Seq<u8> {
    seq![if x { 1u8 } else { 0u8 }]
}

pub open spec fn dec_bool(b: Seq<u8>) -> Option<(bool, Seq<u8>)> {
    if b.len() >= 1 && b[0] <= 1 {
        Some((b[0] == 1, b.subrange(1, b.len() as int)))
    } else {
        None
    }
}

proof fn lemma_bool_round(x: bool, rest: Seq<u8>)
    ensures
        dec_bool(enc_bool(x) + rest) == Some((x, rest)),
{
    let b = enc_bool(x) + rest;
    assert(b.subrange(1, b.len() as int) =~= rest);
}

fn write_strs(out: &mut Vec<u8>, ss: &Vec<String>)
    ensures
        final(out)@ == old(out)@ + enc_strs(crate::text::views(ss@)),
{
    let ghost vs = crate::text::views(ss@);
    write_u64(out, ss.len() as u64);
    let ghost start = out@;
    let mut i: usize = 0;
    while i < ss.len()
        invariant
            0 <= i <= ss@.len(),
            vs == crate::text::views(ss@),
            out@ == start + enc_str_items(vs.subrange(0, i as int)),
        decreases ss@.len() - i,
    {
        write_str(out, ss[i].as_str());
        assert(vs.subrange(0, i + 1).drop_last() =~= vs.subrange(0, i as int));
        i = i + 1;
        assert(out@ =~= start + enc_str_items(vs.subrange(0, i as int)));
    }
    assert(vs.subrange(0, ss@.len() as int) =~= vs);
    assert(out@ =~= old(out)@ + enc_strs(vs));
}

fn read_strs(b: &Vec<u8>, pos: usize) -> (r: Option<(Vec<String>, usize)>)
    requires
        pos <= b@.len(),
    ensures
        r is None <==> dec_strs(b@.subrange(pos as int, b@.len() as int)) is None,
        r matches Some((ss, p)) ==> pos <= p <= b@.len() && dec_strs(
            b@.subrange(pos as int, b@.len() as int),
        ) == Some((crate::text::views(ss@), b@.subrange(p as int, b@.len() as int))),
{
    let (n, mut p) = match read_u64(b, pos) {
        None => {
            return None;
        },
        Some(x) => x,
    };
    let ghost start = b@.subrange(p as int, b@.len() as int);
    let mut acc: Vec<String> = Vec::new();
    let mut i: u64 = 0;
    while i < n
        invariant
            pos <= p <= b@.len(),
            0 <= i <= n,
            start == b@.subrange(pos + 8, b@.len() as int),
            dec_u64(b@.subrange(pos as int, b@.len() as int)) == Some((n, start)),
            dec_str_items(start, i as nat) == Some(
                (crate::text::views(acc@), b@.subrange(p as int, b@.len() as int)),
            ),
        decreases n - i,
    {
        match read_str(b, p) {
            None => {
                proof {
                    lemma_str_items_stop(start, i as nat, n as nat);
                }
                return None;
            },
            Some((s, p2)) => {
                let ghost before = acc@;
                acc.push(s);
                assert(crate::text::views(acc@) =~= crate::text::views(before).push(s@));
                p = p2;
            },
        }
        i = i + 1;
    }
    Some((acc, p))
}

fn read_bool(b: &Vec<u8>, pos: usize) -> (r: Option<(bool, usize)>)
    requires
        pos <= b@.len(),
    ensures
        r is None <==> dec_bool(b@.subrange(pos as int, b@.len() as int)) is None,
        r matches Some((x, p)) ==> pos <= p <= b@.len() && dec_bool(
            b@.subrange(pos as int, b@.len() as int),
        ) == Some((x, b@.subrange(p as int, b@.len() as int))),
{
    if pos >= b.len() || b[pos] > 1 {
        return None;
    }
    let ghost sub = b@.subrange(pos as int, b@.len() as int);
    assert(sub.subrange(1, sub.len() as int) =~= b@.subrange(pos + 1, b@.len() as int));
    Some((b[pos] == 1, pos + 1))
}

fn write_bool(out: &mut Vec<u8>, x: bool)
    ensures
        final(out)@ == old(out)@ + enc_bool(x),
{
    out.push(if x { 1u8 } else { 0u8 });
    assert(out@ =~= old(out)@ + enc_bool(x));
}

/// The contents of a pin, as they are stored.
pub struct PinView {
    pub id: u64,
    pub title: Seq<char>,
    pub urls: Seq<Seq<char>>,
    pub description: Seq<char>,
    pub tags: Seq<Seq<char>>,
    pub starred: bool,
    pub unread: bool,
}

pub open spec fn pin_view(p: Pin) -> PinView {
    PinView {
        id: p.id,
        title: p.title@,
        urls: views(p.urls@),
        description: p.description@,
        tags: views(p.tags@),
        starred: p.starred,
        unread: p.unread,
    }
}

pub open spec fn pin_views(ps: Seq<Pin>) -> Seq<PinView> {
    ps.map_values(|p: Pin| pin_view(p))
}

/// A pin: its id, title, URLs, description, tags and the two flags.
pub open spec fn enc_pin(v: PinView) -> Seq<u8> {
    enc_u64(v.id) + enc_str(v.title) + enc_strs(v.urls) + enc_str(v.description) + enc_strs(v.tags)
        + enc_bool(v.starred) + enc_bool(v.unread)
}

pub open spec fn dec_pin(b: Seq<u8>) -> Option<(PinView, Seq<u8>)> {
    match dec_u64(b) {
        None => None,
        Some((id, b1)) => match dec_str(b1) {
            None => None,
            Some((title, b2)) => match dec_strs(b2) {
                None => None,
                Some((urls, b3)) => match dec_str(b3) {
                    None => None,
                    Some((description, b4)) => match dec_strs(b4) {
                        None => None,
                        Some((tags, b5)) => match dec_bool(b5) {
                            None => None,
                            Some((starred, b6)) => match dec_bool(b6) {
                                None => None,
                                Some((unread, b7)) => Some(
                                    (
                                        PinView {
                                            id,
                                            title,
                                            urls,
                                            description,
                                            tags,
                                            starred,
                                            unread,
                                        },
                                        b7,
                                    ),
                                ),
                            },
                        },
                    },
                },
            },
        },
    }
}

/// Every length in the pin fits a `u64`.
pub open spec fn pin_fits(v: PinView) -> bool {
    &&& v.title.len() <= u64::MAX
    &&& strs_fit(v.urls)
    &&& v.description.len() <= u64::MAX
    &&& strs_fit(v.tags)
}

proof fn lemma_pin_round(v: PinView, rest: Seq<u8>)
    requires
        pin_fits(v),
    ensures
        dec_pin(enc_pin(v) + rest) == Some((v, rest)),
{
    let r6 = enc_bool(v.unread) + rest;
    let r5 = enc_bool(v.starred) + r6;
    let r4 = enc_strs(v.tags) + r5;
    let r3 = enc_str(v.description) + r4;
    let r2 = enc_strs(v.urls) + r3;
    let r1 = enc_str(v.title) + r2;
    assert(enc_pin(v) + rest =~= enc_u64(v.id) + r1);
    lemma_u64_round(v.id, r1);
    lemma_str_round(v.title, r2);
    lemma_strs_round(v.urls, r3);
    lemma_str_round(v.description, r4);
    lemma_strs_round(v.tags, r5);
    lemma_bool_round(v.starred, r6);
    lemma_bool_round(v.unread, rest);
}

fn write_pin(out: &mut Vec<u8>, p: &Pin)
    ensures
        final(out)@ == old(out)@ + enc_pin(pin_view(*p)),
{
    write_u64(out, p.id);
    write_str(out, p.title.as_str());
    write_strs(out, &p.urls);
    write_str(out, p.description.as_str());
    write_strs(out, &p.tags);
    write_bool(out, p.starred);
    write_bool(out, p.unread);
    assert(out@ =~= old(out)@ + enc_pin(pin_view(*p)));
}

fn read_pin(b: &Vec<u8>, pos: usize) -> (r: Option<(Pin, usize)>)
    requires
        pos <= b@.len(),
    ensures
        r is None <==> dec_pin(b@.subrange(pos as int, b@.len() as int)) is None,
        r matches Some((x, p)) ==> pos <= p <= b@.len() && dec_pin(
            b@.subrange(pos as int, b@.len() as int),
        ) == Some((pin_view(x), b@.subrange(p as int, b@.len() as int))),
{
    let (id, p1) = match read_u64(b, pos) {
        None => {
            return None;
        },
        Some(x) => x,
    };
    let (title, p2) = match read_str(b, p1) {
        None => {
            return None;
        },
        Some(x) => x,
    };
    let (urls, p3) = match read_strs(b, p2) {
        None => {
            return None;
        },
        Some(x) => x,
    };
    let (description, p4) = match read_str(b, p3) {
        None => {
            return None;
        },
        Some(x) => x,
    };
    let (tags, p5) = match read_strs(b, p4) {
        None => {
            return None;
        },
        Some(x) => x,
    };
    let (starred, p6) = match read_bool(b, p5) {
        None => {
            return None;
        },
        Some(x) => x,
    };
    let (unread, p7) = match read_bool(b, p6) {
        None => {
            return None;
        },
        Some(x) => x,
    };
    let pin = Pin { id, title, urls, description, tags, starred, unread };
    Some((pin, p7))
}

pub open spec fn enc_pin_items(vs: Seq<PinView>) -> Seq<u8>
    decreases vs.len(),
{
    if vs.len() == 0 {
        Seq::empty()
    } else {
        enc_pin_items(vs.drop_last()) + enc_pin(vs.last())
    }
}

/// A collection: the number of pins, then the pins in order.
pub open spec fn enc_pins(vs: Seq<PinView>) -> Seq<u8> {
    enc_u64(vs.len() as u64) + enc_pin_items(vs)
}

pub open spec fn dec_pin_items(b: Seq<u8>, n: nat) -> Option<(Seq<PinView>, Seq<u8>)>
    decreases n,
{
    if n == 0 {
        Some((Seq::empty(), b))
    } else {
        match dec_pin_items(b, (n - 1) as nat) {
            Some((vs, rest)) => match dec_pin(rest) {
                Some((v, rest2)) => Some((vs.push(v), rest2)),
                None => None,
            },
            None => None,
        }
    }
}

/// The collection that `b` holds, when `b` is one collection and nothing more.
pub open spec fn dec_pins(b: Seq<u8>) -> Option<Seq<PinView>> {
    match dec_u64(b) {
        Some((n, rest)) => match dec_pin_items(rest, n as nat) {
            Some((vs, rest2)) => if rest2.len() == 0 {
                Some(vs)
            } else {
                None
            },
            None => None,
        },
        None => None,
    }
}

/// Every length in the collection fits a `u64`.
pub open spec fn pins_fit(vs: Seq<PinView>) -> bool {
    vs.len() <= u64::MAX && forall|k: int| 0 <= k < vs.len() ==> pin_fits(#[trigger] vs[k])
}

proof fn lemma_pin_items_round(vs: Seq<PinView>, rest: Seq<u8>)
    requires
        pins_fit(vs),
    ensures
        dec_pin_items(enc_pin_items(vs) + rest, vs.len()) == Some((vs, rest)),
    decreases vs.len(),
{
    if vs.len() > 0 {
        let t = vs.drop_last();
        let v = vs.last();
        assert(vs[vs.len() - 1] == v);
        assert(enc_pin_items(vs) + rest =~= enc_pin_items(t) + (enc_pin(v) + rest));
        assert forall|k: int| 0 <= k < t.len() implies pin_fits(#[trigger] t[k]) by {
            assert(t[k] == vs[k]);
        }
        lemma_pin_items_round(t, enc_pin(v) + rest);
        lemma_pin_round(v, rest);
        assert(t.push(v) =~= vs);
    } else {
        assert(enc_pin_items(vs) + rest =~= rest);
    }
}

proof fn lemma_pin_items_stop(b: Seq<u8>, i: nat, m: nat)
    requires
        i < m,
        dec_pin_items(b, i) matches Some((s, rest)) && dec_pin(rest) is None,
    ensures
        dec_pin_items(b, m) is None,
    decreases m,
{
    if m > i + 1 {
        lemma_pin_items_stop(b, i, (m - 1) as nat);
    }
}

/// Reading back a stored collection gives the same pins, field for field and
/// in the same order.
pub proof fn lemma_pins_round_trip(vs: Seq<PinView>)
    requires
        pins_fit(vs),
    ensures
        dec_pins(enc_pins(vs)) == Some(vs),
{
    let e: Seq<u8> = Seq::empty();
    assert(enc_pins(vs) =~= enc_u64(vs.len() as u64) + (enc_pin_items(vs) + e));
    assert(enc_pin_items(vs) + e =~= enc_pin_items(vs));
    lemma_u64_round(vs.len() as u64, enc_pin_items(vs));
    lemma_pin_items_round(vs, e);
}

/// The stored form of a collection of pins.
pub fn encode_pins(pins: &Vec<Pin>) -> (r: Vec<u8>)
    ensures
        r@ == enc_pins(pin_views(pins@)),
{
    let ghost vs = pin_views(pins@);
    let mut out: Vec<u8> = Vec::new();
    write_u64(&mut out, pins.len() as u64);
    let ghost start = out@;
    let mut i: usize = 0;
    while i < pins.len()
        invariant
            0 <= i <= pins@.len(),
            vs == pin_views(pins@),
            out@ == start + enc_pin_items(vs.subrange(0, i as int)),
        decreases pins@.len() - i,
    {
        write_pin(&mut out, &pins[i]);
        assert(vs.subrange(0, i + 1).drop_last() =~= vs.subrange(0, i as int));
        i = i + 1;
        assert(out@ =~= start + enc_pin_items(vs.subrange(0, i as int)));
    }
    assert(vs.subrange(0, pins@.len() as int) =~= vs);
    assert(out@ =~= enc_pins(vs));
    out
}

/// The collection stored in `b`; `None` when `b` is not exactly one stored
/// collection.
pub fn decode_pins(b: &Vec<u8>) -> (r: Option<Vec<Pin>>)
    ensures
        r is None <==> dec_pins(b@) is None,
        r matches Some(ps) ==> dec_pins(b@) == Some(pin_views(ps@)),
{
    assert(b@.subrange(0, b@.len() as int) =~= b@);
    let (n, mut p) = match read_u64(b, 0) {
        None => {
            return None;
        },
        Some(x) => x,
    };
    let ghost start = b@.subrange(p as int, b@.len() as int);
    let mut acc: Vec<Pin> = Vec::new();
    let mut i: u64 = 0;
    while i < n
        invariant
            8 <= p <= b@.len(),
            0 <= i <= n,
            start == b@.subrange(8, b@.len() as int),
            dec_u64(b@) == Some((n, start)),
            dec_pin_items(start, i as nat) == Some(
                (pin_views(acc@), b@.subrange(p as int, b@.len() as int)),
            ),
        decreases n - i,
    {
        match read_pin(b, p) {
            None => {
                proof {
                    lemma_pin_items_stop(start, i as nat, n as nat);
                }
                return None;
            },
            Some((x, p2)) => {
                let ghost before = acc@;
                acc.push(x);
                assert(pin_views(acc@) =~= pin_views(before).push(pin_view(x)));
                p = p2;
            },
        }
        i = i + 1;
    }
    if p != b.len() {
        return None;
    }
    Some(acc)
}

/// A byte string: its length, then its bytes.
pub open spec fn enc_bytes(x: Seq<u8>) -> Seq<u8> {
    enc_u64(x.len() as u64) + x
}

pub open spec fn dec_bytes(b: Seq<u8>) -> Option<(Seq<u8>, Seq<u8>)> {
    match dec_u64(b) {
        Some((n, rest)) => if n <= rest.len() {
            Some((rest.subrange(0, n as int), rest.subrange(n as int, rest.len() as int)))
        } else {
            None
        },
        None => None,
    }
}

proof fn lemma_bytes_round(x: Seq<u8>, rest: Seq<u8>)
    requires
        x.len() <= u64::MAX,
    ensures
        dec_bytes(enc_bytes(x) + rest) == Some((x, rest)),
{
    assert(enc_bytes(x) + rest =~= enc_u64(x.len() as u64) + (x + rest));
    lemma_u64_round(x.len() as u64, x + rest);
    assert((x + rest).subrange(0, x.len() as int) =~= x);
    assert((x + rest).subrange(x.len() as int, (x + rest).len() as int) =~= rest);
}

/// The contents of a user record, as they are stored.
pub struct UserView {
    pub username: Seq<char>,
    pub email: Seq<char>,
    pub salt: Seq<char>,
    pub password_hash: Seq<u8>,
}

pub open spec fn user_view(r: UserRecord) -> UserView {
    UserView {
        username: r.username@,
        email: r.email@,
        salt: r.salt@,
        password_hash: r.password_hash@,
    }
}

/// A user record: name, email, salt and hash.
pub open spec fn enc_user(v: UserView) -> Seq<u8> {
    enc_str(v.username) + enc_str(v.email) + enc_str(v.salt) + enc_bytes(v.password_hash)
}

/// The record that `b` holds, when `b` is one record and nothing more.
pub open spec fn dec_user(b: Seq<u8>) -> Option<UserView> {
    match dec_str(b) {
        None => None,
        Some((username, b1)) => match dec_str(b1) {
            None => None,
            Some((email, b2)) => match dec_str(b2) {
                None => None,
                Some((salt, b3)) => match dec_bytes(b3) {
                    None => None,
                    Some((password_hash, b4)) => if b4.len() == 0 {
                        Some(UserView { username, email, salt, password_hash })
                    } else {
                        None
                    },
                },
            },
        },
    }
}

/// Every length in the record fits a `u64`.
pub open spec fn user_fits(v: UserView) -> bool {
    &&& v.username.len() <= u64::MAX
    &&& v.email.len() <= u64::MAX
    &&& v.salt.len() <= u64::MAX
    &&& v.password_hash.len() <= u64::MAX
}

/// Reading back a stored user record gives the same fields.
pub proof fn lemma_user_round_trip(v: UserView)
    requires
        user_fits(v),
    ensures
        dec_user(enc_user(v)) == Some(v),
{
    let e: Seq<u8> = Seq::empty();
    let r3 = enc_bytes(v.password_hash) + e;
    let r2 = enc_str(v.salt) + r3;
    let r1 = enc_str(v.email) + r2;
    assert(enc_user(v) =~= enc_str(v.username) + r1);
    lemma_str_round(v.username, r1);
    lemma_str_round(v.email, r2);
    lemma_str_round(v.salt, r3);
    lemma_bytes_round(v.password_hash, e);
}

/// The stored form of a user record.
pub fn encode_user(rec: &UserRecord) -> (r: Vec<u8>)
    ensures
        r@ == enc_user(user_view(*rec)),
{
    let mut out: Vec<u8> = Vec::new();
    write_str(&mut out, rec.username.as_str());
    write_str(&mut out, rec.email.as_str());
    write_str(&mut out, rec.salt.as_str());
    write_u64(&mut out, rec.password_hash.len() as u64);
    append(&mut out, &rec.password_hash);
    assert(out@ =~= enc_user(user_view(*rec)));
    out
}

/// The user record stored in `b`; `None` when `b` is not exactly one stored
/// record.
pub fn decode_user(b: &Vec<u8>) -> (r: Option<UserRecord>)
    ensures
        r is None <==> dec_user(b@) is None,
        r matches Some(rec) ==> dec_user(b@) == Some(user_view(rec)),
{
    assert(b@.subrange(0, b@.len() as int) =~= b@);
    let (username, p1) = match read_str(b, 0) {
        None => {
            return None;
        },
        Some(x) => x,
    };
    let (email, p2) = match read_str(b, p1) {
        None => {
            return None;
        },
        Some(x) => x,
    };
    let (salt, p3) = match read_str(b, p2) {
        None => {
            return None;
        },
        Some(x) => x,
    };
    let (n, p4) = match read_u64(b, p3) {
        None => {
            return None;
        },
        Some(x) => x,
    };
    if n > (b.len() - p4) as u64 {
        return None;
    }
    let end = p4 + n as usize;
    let mut hash: Vec<u8> = Vec::new();
    let mut k: usize = p4;
    while k < end
        invariant
            p4 <= k <= end <= b@.len(),
            hash@ == b@.subrange(p4 as int, k as int),
        decreases end - k,
    {
        hash.push(b[k]);
        k = k + 1;
        assert(hash@ =~= b@.subrange(p4 as int, k as int));
    }
    let ghost b3 = b@.subrange(p3 as int, b@.len() as int);
    let ghost b4 = b@.subrange(p4 as int, b@.len() as int);
    assert(b4.subrange(0, n as int) =~= hash@);
    assert(b4.subrange(n as int, b4.len() as int) =~= b@.subrange(end as int, b@.len() as int));
    if end != b.len() {
        return None;
    }
    Some(UserRecord { username, email, salt, password_hash: hash })
}

} // verus!
