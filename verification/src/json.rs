//! JSON codec for instance records.
//!
//! An instance record is persisted as a JSON object whose four members are
//! strings. The encoder and the parser here are each other's inverses for
//! every record (see `lemma_parse_of_encode`); the parser also accepts
//! members in any order, arbitrary whitespace, unknown extra members, and
//! the standard string escapes.

use crate::record::{InstanceConfig, InstanceView};
use vstd::prelude::*;

verus! {

/// Relies on `String::from_iter` (via `collect`): the string made of exactly
/// the characters of `v`, in order.
#[verifier::external_body]
pub(crate) fn string_from_chars(v: &Vec<char>) -> (r: String)
    ensures
        r@ == v@,
{
    v.iter().collect()
}

/// The lowercase hexadecimal digit of a value below sixteen.
pub open spec fn hex_digit(n: nat) -> char {
    if n == 0 {
        '0'
    } else if n == 1 {
        '1'
    } else if n == 2 {
        '2'
    } else if n == 3 {
        '3'
    } else if n == 4 {
        '4'
    } else if n == 5 {
        '5'
    } else if n == 6 {
        '6'
    } else if n == 7 {
        '7'
    } else if n == 8 {
        '8'
    } else if n == 9 {
        '9'
    } else if n == 10 {
        'a'
    } else if n == 11 {
        'b'
    } else if n == 12 {
        'c'
    } else if n == 13 {
        'd'
    } else if n == 14 {
        'e'
    } else if n == 15 {
        'f'
    } else {
        '0'
    }
}

/// How one character is written inside a JSON string: quote, backslash and
/// the common control characters get a two-character escape, the remaining
/// control characters a `\u00XX` escape, and every other character stands
/// for itself.
pub open spec fn esc_char(c: char) -> Seq<char> {
    if c == '"' {
        seq!['\\', '"']
    } else if c == '\\' {
        seq!['\\', '\\']
    } else if c == '\n' {
        seq!['\\', 'n']
    } else if c == '\t' {
        seq!['\\', 't']
    } else if c == '\r' {
        seq!['\\', 'r']
    } else if (c as u32) < 32 {
        seq!['\\', 'u', '0', '0', hex_digit((c as u32 / 16) as nat), hex_digit(
            (c as u32 % 16) as nat,
        )]
    } else {
        seq![c]
    }
}

/// The escaped form of a whole string body.
pub open spec fn esc(s: Seq<char>) -> Seq<char>
    decreases s.len(),
{
    if s.len() == 0 {
        Seq::empty()
    } else {
        esc_char(s[0]) + esc(s.drop_first())
    }
}

/// A JSON string literal: the escaped body between double quotes.
pub open spec fn quoted(s: Seq<char>) -> Seq<char> {
    seq!['"'] + esc(s) + seq!['"']
}

/// One object member: a quoted key, a colon and a space, and a quoted value.
pub open spec fn member(k: Seq<char>, v: Seq<char>) -> Seq<char> {
    quoted(k) + seq![':', ' '] + quoted(v)
}

/// The document the encoder produces for a record: a JSON object with the
/// four members in a fixed order, one per indented line.
pub open spec fn spec_encode_instance(r: InstanceConfig) -> Seq<char> {
    seq!['{', '\n', ' ', ' '] + member(("instance_name")@, r.instance_name@) + seq![',', '\n', ' ', ' ']
        + member(("instance_path")@, r.instance_path@) + seq![',', '\n', ' ', ' '] + member(
        ("instance_type")@,
        r.instance_type@,
    ) + seq![',', '\n', ' ', ' '] + member(("description")@, r.description@) + seq!['\n', '}']
}

/// Appending one character extends the escaped form by that character's
/// escape.
proof fn lemma_esc_snoc(s: Seq<char>, c: char)
    ensures
        esc(s.push(c)) == esc(s) + esc_char(c),
    decreases s.len(),
{
    assert(s.push(c)[0] == if s.len() == 0 { c } else { s[0] });
    if s.len() == 0 {
        assert(s.push(c).drop_first() =~= Seq::<char>::empty());
        assert(esc(s.push(c)) == esc_char(c) + esc(Seq::<char>::empty()));
        assert(esc_char(c) + Seq::<char>::empty() =~= esc_char(c));
        assert(Seq::<char>::empty() + esc_char(c) =~= esc_char(c));
    } else {
        assert(s.push(c).drop_first() =~= s.drop_first().push(c));
        lemma_esc_snoc(s.drop_first(), c);
        assert(esc(s.push(c)) =~= esc(s) + esc_char(c));
    }
}

fn hex_digit_exec(n: u8) -> (c: char)
    requires
        n < 16,
    ensures
        c == hex_digit(n as nat),
{
    if n == 0 {
        '0'
    } else if n == 1 {
        '1'
    } else if n == 2 {
        '2'
    } else if n == 3 {
        '3'
    } else if n == 4 {
        '4'
    } else if n == 5 {
        '5'
    } else if n == 6 {
        '6'
    } else if n == 7 {
        '7'
    } else if n == 8 {
        '8'
    } else if n == 9 {
        '9'
    } else if n == 10 {
        'a'
    } else if n == 11 {
        'b'
    } else if n == 12 {
        'c'
    } else if n == 13 {
        'd'
    } else if n == 14 {
        'e'
    } else {
        'f'
    }
}

/// Appends the escaped body of `s` to `out`.
fn push_escaped(out: &mut Vec<char>, s: &str)
    ensures
        final(out)@ == old(out)@ + esc(s@),
{
    let n = s.unicode_len();
    let mut i: usize = 0;
    while i < n
        invariant
            i <= n,
            n == s@.len(),
            out@ == old(out)@ + esc(s@.take(i as int)),
        decreases n - i,
    {
        let c = s.get_char(i);
        if c == '"' {
            out.push('\\');
            out.push('"');
        } else if c == '\\' {
            out.push('\\');
            out.push('\\');
        } else if c == '\n' {
            out.push('\\');
            out.push('n');
        } else if c == '\t' {
            out.push('\\');
            out.push('t');
        } else if c == '\r' {
            out.push('\\');
            out.push('r');
        } else {
            let code = c as u32;
            if code < 32 {
                out.push('\\');
                out.push('u');
                out.push('0');
                out.push('0');
                out.push(hex_digit_exec((code / 16) as u8));
                out.push(hex_digit_exec((code % 16) as u8));
            } else {
                out.push(c);
            }
        }
        proof {
            assert(s@.take(i as int).push(s@[i as int]) =~= s@.take(i as int + 1));
            lemma_esc_snoc(s@.take(i as int), s@[i as int]);
            assert(out@ =~= old(out)@ + esc(s@.take(i as int + 1)));
        }
        i = i + 1;
    }
    proof {
        assert(s@.take(n as int) =~= s@);
    }
}

/// Appends one object member for key `k` and value `v` to `out`.
fn push_member(out: &mut Vec<char>, k: &str, v: &str)
    ensures
        final(out)@ == old(out)@ + member(k@, v@),
{
    out.push('"');
    push_escaped(out, k);
    out.push('"');
    out.push(':');
    out.push(' ');
    out.push('"');
    push_escaped(out, v);
    out.push('"');
    proof {
        assert(out@ =~= old(out)@ + member(k@, v@));
    }
}

/// Encodes a record as the JSON document it is persisted as.
pub fn encode_instance(r: &InstanceConfig) -> (s: String)
    ensures
        s@ == spec_encode_instance(*r),
{
    let mut out: Vec<char> = Vec::new();
    out.push('{');
    out.push('\n');
    out.push(' ');
    out.push(' ');
    push_member(&mut out, "instance_name", r.instance_name.as_str());
    out.push(',');
    out.push('\n');
    out.push(' ');
    out.push(' ');
    push_member(&mut out, "instance_path", r.instance_path.as_str());
    out.push(',');
    out.push('\n');
    out.push(' ');
    out.push(' ');
    push_member(&mut out, "instance_type", r.instance_type.as_str());
    out.push(',');
    out.push('\n');
    out.push(' ');
    out.push(' ');
    push_member(&mut out, "description", r.description.as_str());
    out.push('\n');
    out.push('}');
    proof {
        assert(out@ =~= spec_encode_instance(*r));
    }
    string_from_chars(&out)
}

/// JSON whitespace.
pub open spec fn is_ws(c: char) -> bool {
    c == ' ' || c == '\n' || c == '\t' || c == '\r'
}

/// `s` without its leading whitespace.
pub open spec fn sp_ws(s: Seq<char>) -> Seq<char>
    decreases s.len(),
{
    if s.len() > 0 && is_ws(s[0]) {
        sp_ws(s.drop_first())
    } else {
        s
    }
}

/// The character a two-character escape stands for, if the character after
/// the backslash is one of the eight escapable ones.
pub open spec fn unesc(c: char) -> Option<char> {
    if c == '"' {
        Some('"')
    } else if c == '\\' {
        Some('\\')
    } else if c == '/' {
        Some('/')
    } else if c == 'n' {
        Some('\n')
    } else if c == 't' {
        Some('\t')
    } else if c == 'r' {
        Some('\r')
    } else if c == 'b' {
        Some('\u{8}')
    } else if c == 'f' {
        Some('\u{c}')
    } else {
        None
    }
}

/// The value of a hexadecimal digit.
pub open spec fn hex_val(c: char) -> Option<u8> {
    if c == '0' {
        Some(0)
    } else if c == '1' {
        Some(1)
    } else if c == '2' {
        Some(2)
    } else if c == '3' {
        Some(3)
    } else if c == '4' {
        Some(4)
    } else if c == '5' {
        Some(5)
    } else if c == '6' {
        Some(6)
    } else if c == '7' {
        Some(7)
    } else if c == '8' {
        Some(8)
    } else if c == '9' {
        Some(9)
    } else if c == 'a' || c == 'A' {
        Some(10)
    } else if c == 'b' || c == 'B' {
        Some(11)
    } else if c == 'c' || c == 'C' {
        Some(12)
    } else if c == 'd' || c == 'D' {
        Some(13)
    } else if c == 'e' || c == 'E' {
        Some(14)
    } else if c == 'f' || c == 'F' {
        Some(15)
    } else {
        None
    }
}

/// Parses the body of a string literal, starting just after the opening
/// quote: the decoded characters and what follows the closing quote. An
/// unescaped control character, an unknown escape, a `\u` escape outside
/// `\u00XX`, or a missing closing quote fails the parse.
pub open spec fn sp_str_body(s: Seq<char>) -> Option<(Seq<char>, Seq<char>)>
    decreases s.len(),
{
    if s.len() == 0 {
        None
    } else if s[0] == '"' {
        Some((Seq::empty(), s.drop_first()))
    } else if s[0] == '\\' {
        if s.len() >= 2 && unesc(s[1]) is Some {
            match sp_str_body(s.skip(2)) {
                Some(p) => Some((seq![unesc(s[1])->Some_0] + p.0, p.1)),
                None => None,
            }
        } else if s.len() >= 6 && s[1] == 'u' && s[2] == '0' && s[3] == '0' && hex_val(s[4]) is Some
            && hex_val(s[5]) is Some {
            match sp_str_body(s.skip(6)) {
                Some(p) => Some(
                    (
                        seq![(((hex_val(s[4])->Some_0 as nat) * 16 + hex_val(
                            s[5],
                        )->Some_0 as nat) as u8) as char] + p.0,
                        p.1,
                    ),
                ),
                None => None,
            }
        } else {
            None
        }
    } else if (s[0] as u32) < 32 {
        None
    } else {
        match sp_str_body(s.drop_first()) {
            Some(p) => Some((seq![s[0]] + p.0, p.1)),
            None => None,
        }
    }
}

/// Parses one object member, leading whitespace included: the key, the
/// value (which must be a string), and what follows the value's closing
/// quote.
pub open spec fn sp_member(s: Seq<char>) -> Option<((Seq<char>, Seq<char>), Seq<char>)> {
    let s1 = sp_ws(s);
    if s1.len() > 0 && s1[0] == '"' {
        match sp_str_body(s1.drop_first()) {
            Some(kp) => {
                let s3 = sp_ws(kp.1);
                if s3.len() > 0 && s3[0] == ':' {
                    let s4 = sp_ws(s3.drop_first());
                    if s4.len() > 0 && s4[0] == '"' {
                        match sp_str_body(s4.drop_first()) {
                            Some(vp) => Some(((kp.0, vp.0), vp.1)),
                            None => None,
                        }
                    } else {
                        None
                    }
                } else {
                    None
                }
            },
            None => None,
        }
    } else {
        None
    }
}

/// Dropping leading whitespace never lengthens a sequence.
pub proof fn lemma_ws_len(s: Seq<char>)
    ensures
        sp_ws(s).len() <= s.len(),
    decreases s.len(),
{
    if s.len() > 0 && is_ws(s[0]) {
        lemma_ws_len(s.drop_first());
    }
}

/// A successful string-body parse consumes at least the closing quote.
pub proof fn lemma_str_body_len(s: Seq<char>)
    ensures
        sp_str_body(s) is Some ==> sp_str_body(s)->Some_0.1.len() < s.len(),
    decreases s.len(),
{
    if s.len() == 0 {
    } else if s[0] == '"' {
    } else if s[0] == '\\' {
        if s.len() >= 2 && unesc(s[1]) is Some {
            lemma_str_body_len(s.skip(2));
        } else if s.len() >= 6 && s[1] == 'u' && s[2] == '0' && s[3] == '0' && hex_val(s[4]) is Some
            && hex_val(s[5]) is Some {
            lemma_str_body_len(s.skip(6));
        }
    } else {
        lemma_str_body_len(s.drop_first());
    }
}

/// A successful member parse consumes at least one character.
pub proof fn lemma_member_len(s: Seq<char>)
    ensures
        sp_member(s) is Some ==> sp_member(s)->Some_0.1.len() < s.len(),
{
    let s1 = sp_ws(s);
    lemma_ws_len(s);
    if s1.len() > 0 && s1[0] == '"' && sp_str_body(s1.drop_first()) is Some {
        let kp = sp_str_body(s1.drop_first())->Some_0;
        lemma_str_body_len(s1.drop_first());
        let s3 = sp_ws(kp.1);
        lemma_ws_len(kp.1);
        if s3.len() > 0 && s3[0] == ':' {
            let s4 = sp_ws(s3.drop_first());
            lemma_ws_len(s3.drop_first());
            if s4.len() > 0 && s4[0] == '"' {
                lemma_str_body_len(s4.drop_first());
            }
        }
    }
}

/// Parses the members of a non-empty object, starting just after the opening
/// brace: the key/value pairs in order, and what follows the closing brace.
pub open spec fn sp_members(s: Seq<char>) -> Option<(Seq<(Seq<char>, Seq<char>)>, Seq<char>)>
    decreases s.len(),
{
    match sp_member(s) {
        Some(mp) => {
            let s2 = sp_ws(mp.1);
            if s2.len() > 0 && s2[0] == ',' {
                proof {
                    lemma_member_len(s);
                    lemma_ws_len(mp.1);
                }
                match sp_members(s2.drop_first()) {
                    Some(rp) => Some((seq![mp.0] + rp.0, rp.1)),
                    None => None,
                }
            } else if s2.len() > 0 && s2[0] == '}' {
                Some((seq![mp.0], s2.drop_first()))
            } else {
                None
            }
        },
        None => None,
    }
}

/// Parses a whole document as one JSON object of string members and nothing
/// else: the key/value pairs, in order. `None` is a syntax failure.
pub open spec fn sp_pairs(s: Seq<char>) -> Option<Seq<(Seq<char>, Seq<char>)>> {
    let s1 = sp_ws(s);
    if s1.len() > 0 && s1[0] == '{' {
        let s2 = sp_ws(s1.drop_first());
        if s2.len() > 0 && s2[0] == '}' {
            if sp_ws(s2.drop_first()).len() == 0 {
                Some(Seq::empty())
            } else {
                None
            }
        } else {
            match sp_members(s1.drop_first()) {
                Some(mp) => if sp_ws(mp.1).len() == 0 {
                    Some(mp.0)
                } else {
                    None
                },
                None => None,
            }
        }
    } else {
        None
    }
}

/// The value under the first occurrence of key `k`, if any.
pub open spec fn assoc(ps: Seq<(Seq<char>, Seq<char>)>, k: Seq<char>) -> Option<Seq<char>>
    decreases ps.len(),
{
    if ps.len() == 0 {
        None
    } else if ps[0].0 == k {
        Some(ps[0].1)
    } else {
        assoc(ps.drop_first(), k)
    }
}

/// The record held by a parsed list of members: the values under the four
/// required keys. A missing key means the document holds no record; members
/// under other keys are ignored.
pub open spec fn spec_record_of(ps: Seq<(Seq<char>, Seq<char>)>) -> Option<InstanceView> {
    if assoc(ps, ("instance_name")@) is Some && assoc(ps, ("instance_path")@) is Some && assoc(
        ps,
        ("instance_type")@,
    ) is Some && assoc(ps, ("description")@) is Some {
        Some(
            InstanceView {
                instance_name: assoc(ps, ("instance_name")@)->Some_0,
                instance_path: assoc(ps, ("instance_path")@)->Some_0,
                instance_type: assoc(ps, ("instance_type")@)->Some_0,
                description: assoc(ps, ("description")@)->Some_0,
            },
        )
    } else {
        None
    }
}

/// The record a document parses to, if it is a well-formed object carrying
/// the four required members.
pub open spec fn spec_parse_instance(s: Seq<char>) -> Option<InstanceView> {
    match sp_pairs(s) {
        Some(ps) => spec_record_of(ps),
        None => None,
    }
}

/// Leading whitespace in front of anything is dropped.
proof fn lemma_ws_skip_prefix(lead: Seq<char>, x: Seq<char>)
    requires
        forall|i: int| 0 <= i < lead.len() ==> is_ws(lead[i]),
    ensures
        sp_ws(lead + x) == sp_ws(x),
    decreases lead.len(),
{
    if lead.len() == 0 {
        assert(lead + x =~= x);
    } else {
        assert((lead + x)[0] == lead[0]);
        assert((lead + x).drop_first() =~= lead.drop_first() + x);
        lemma_ws_skip_prefix(lead.drop_first(), x);
    }
}

/// The digit written for a value below sixteen reads back as that value.
proof fn lemma_hex_digit_val(n: nat)
    requires
        n < 16,
    ensures
        hex_val(hex_digit(n)) == Some(n as u8),
{
}

/// A character whose code fits in one byte survives the cast down to a byte
/// and back.
proof fn lemma_low_char_cast(c: char)
    requires
        (c as u32) < 256,
    ensures
        ((c as u32) as u8) as char == c,
{
}

/// Parsing the escaped form of a string body, with its closing quote and
/// anything after it, gives back the body and leaves exactly the rest.
#[verifier::rlimit(100)]
proof fn lemma_esc_parse(b: Seq<char>, rest: Seq<char>)
    ensures
        sp_str_body(esc(b) + seq!['"'] + rest) == Some((b, rest)),
    decreases b.len(),
{
    let doc = esc(b) + seq!['"'] + rest;
    if b.len() == 0 {
        assert(doc =~= seq!['"'] + rest);
        assert(doc[0] == '"');
        assert(doc.drop_first() =~= rest);
        assert(sp_str_body(doc) == Some((Seq::<char>::empty(), rest)));
    } else {
        let c = b[0];
        let tail = b.drop_first();
        let suffix = esc(tail) + seq!['"'] + rest;
        lemma_esc_parse(tail, rest);
        assert(seq![c] + tail =~= b);
        if c == '"' {
            assert(doc =~= seq!['\\', '"'] + suffix);
            assert(doc[0] == '\\' && doc[1] == '"');
            assert(doc.skip(2) =~= suffix);
            assert(sp_str_body(doc) == Some((seq![c] + tail, rest)));
        } else if c == '\\' {
            assert(doc =~= seq!['\\', '\\'] + suffix);
            assert(doc[0] == '\\' && doc[1] == '\\');
            assert(doc.skip(2) =~= suffix);
            assert(sp_str_body(doc) == Some((seq![c] + tail, rest)));
        } else if c == '\n' {
            assert(doc =~= seq!['\\', 'n'] + suffix);
            assert(doc[0] == '\\' && doc[1] == 'n');
            assert(doc.skip(2) =~= suffix);
            assert(sp_str_body(doc) == Some((seq![c] + tail, rest)));
        } else if c == '\t' {
            assert(doc =~= seq!['\\', 't'] + suffix);
            assert(doc[0] == '\\' && doc[1] == 't');
            assert(doc.skip(2) =~= suffix);
            assert(sp_str_body(doc) == Some((seq![c] + tail, rest)));
        } else if c == '\r' {
            assert(doc =~= seq!['\\', 'r'] + suffix);
            assert(doc[0] == '\\' && doc[1] == 'r');
            assert(doc.skip(2) =~= suffix);
            assert(sp_str_body(doc) == Some((seq![c] + tail, rest)));
        } else if (c as u32) < 32 {
            let code = c as u32;
            let h = hex_digit((code / 16) as nat);
            let l = hex_digit((code % 16) as nat);
            assert(doc =~= seq!['\\', 'u', '0', '0', h, l] + suffix);
            assert(doc[0] == '\\' && doc[1] == 'u' && doc[2] == '0' && doc[3] == '0');
            assert(doc[4] == h && doc[5] == l);
            lemma_hex_digit_val((code / 16) as nat);
            lemma_hex_digit_val((code % 16) as nat);
            assert(unesc('u') is None);
            assert(doc.skip(6) =~= suffix);
            let hv = hex_val(doc[4])->Some_0 as nat;
            let lv = hex_val(doc[5])->Some_0 as nat;
            assert(hv == (code / 16) as nat && lv == (code % 16) as nat);
            assert((code / 16) * 16 + (code % 16) == code);
            assert(hv * 16 + lv == code as nat);
            assert((hv * 16 + lv) as u8 == code as u8);
            assert(code < 256);
            lemma_low_char_cast(c);
            assert(((c as u32) as u8) as char == c);
            assert(((hv * 16 + lv) as u8) as char == c);
            assert(sp_str_body(doc) == Some((seq![c] + tail, rest)));
        } else {
            assert(doc =~= seq![c] + suffix);
            assert(doc[0] == c);
            assert(doc[0] != '"' && doc[0] != '\\' && !((doc[0] as u32) < 32));
            assert(doc.drop_first() =~= suffix);
            assert(sp_str_body(doc) == Some((seq![c] + tail, rest)));
        }
    }
}

/// Parsing one encoded member, after any whitespace, gives back its key and
/// value and leaves exactly the rest.
proof fn lemma_member_parse(lead: Seq<char>, k: Seq<char>, v: Seq<char>, rest: Seq<char>)
    requires
        forall|i: int| 0 <= i < lead.len() ==> is_ws(lead[i]),
    ensures
        sp_member(lead + member(k, v) + rest) == Some(((k, v), rest)),
{
    let m = member(k, v) + rest;
    assert(lead + member(k, v) + rest =~= lead + m);
    lemma_ws_skip_prefix(lead, m);
    assert(m[0] == '"');
    assert(!is_ws('"'));
    assert(sp_ws(m) == m);
    let rest1 = seq![':', ' '] + quoted(v) + rest;
    assert(m.drop_first() =~= esc(k) + seq!['"'] + rest1);
    lemma_esc_parse(k, rest1);
    assert(rest1[0] == ':');
    assert(sp_ws(rest1) == rest1);
    let rest2 = quoted(v) + rest;
    assert(rest1.drop_first() =~= seq![' '] + rest2);
    lemma_ws_skip_prefix(seq![' '], rest2);
    assert(rest2[0] == '"');
    assert(sp_ws(rest2) == rest2);
    assert(rest2.drop_first() =~= esc(v) + seq!['"'] + rest);
    lemma_esc_parse(v, rest);
    assert(sp_member(lead + m) == Some(((k, v), rest)));
}

/// One member followed by a comma prepends its pair to whatever the rest of
/// the member list parses to.
proof fn lemma_members_step(lead: Seq<char>, k: Seq<char>, v: Seq<char>, tail: Seq<char>)
    requires
        forall|i: int| 0 <= i < lead.len() ==> is_ws(lead[i]),
    ensures
        sp_members(lead + member(k, v) + seq![','] + tail) == match sp_members(tail) {
            Some(rp) => Some((seq![(k, v)] + rp.0, rp.1)),
            None => None::<(Seq<(Seq<char>, Seq<char>)>, Seq<char>)>,
        },
{
    let s = lead + member(k, v) + seq![','] + tail;
    let after = seq![','] + tail;
    assert(s =~= lead + member(k, v) + after);
    lemma_member_parse(lead, k, v, after);
    assert(after[0] == ',');
    assert(sp_ws(after) == after);
    assert(after.drop_first() =~= tail);
}

/// The last member, followed by the closing brace on its own line, ends the
/// member list and leaves nothing.
proof fn lemma_members_last(lead: Seq<char>, k: Seq<char>, v: Seq<char>)
    requires
        forall|i: int| 0 <= i < lead.len() ==> is_ws(lead[i]),
    ensures
        sp_members(lead + member(k, v) + seq!['\n', '}']) == Some(
            (seq![(k, v)], Seq::<char>::empty()),
        ),
{
    let after = seq!['\n', '}'];
    lemma_member_parse(lead, k, v, after);
    assert(after =~= seq!['\n'] + seq!['}']);
    lemma_ws_skip_prefix(seq!['\n'], seq!['}']);
    assert(sp_ws(after) =~= seq!['}']);
    assert(sp_ws(after)[0] == '}');
    assert(sp_ws(after).drop_first() =~= Seq::<char>::empty());
}

/// Looking the four required keys up in exactly the four encoded pairs gives
/// the four values back.
proof fn lemma_record_of_pairs(n: Seq<char>, p: Seq<char>, t: Seq<char>, d: Seq<char>)
    ensures
        spec_record_of(
            seq![
                (("instance_name")@, n),
                (("instance_path")@, p),
                (("instance_type")@, t),
                (("description")@, d),
            ],
        ) == Some(
            InstanceView {
                instance_name: n,
                instance_path: p,
                instance_type: t,
                description: d,
            },
        ),
{
    let k1 = ("instance_name")@;
    let k2 = ("instance_path")@;
    let k3 = ("instance_type")@;
    let k4 = ("description")@;
    let ps = seq![(k1, n), (k2, p), (k3, t), (k4, d)];
    reveal_strlit("instance_name");
    reveal_strlit("instance_path");
    reveal_strlit("instance_type");
    reveal_strlit("description");
    assert(k1[9] == 'n' && k2[9] == 'p' && k3[9] == 't');
    assert(k1.len() == 13 && k2.len() == 13 && k3.len() == 13 && k4.len() == 11);
    assert(k1 != k2 && k1 != k3 && k1 != k4 && k2 != k3 && k2 != k4 && k3 != k4);
    let ps2 = seq![(k2, p), (k3, t), (k4, d)];
    let ps3 = seq![(k3, t), (k4, d)];
    let ps4 = seq![(k4, d)];
    assert(ps.drop_first() =~= ps2);
    assert(ps2.drop_first() =~= ps3);
    assert(ps3.drop_first() =~= ps4);
    assert(assoc(ps, k1) == Some(n));
    assert(assoc(ps2, k2) == Some(p));
    assert(assoc(ps, k2) == Some(p));
    assert(assoc(ps3, k3) == Some(t));
    assert(assoc(ps2, k3) == assoc(ps3, k3));
    assert(assoc(ps, k3) == Some(t));
    assert(assoc(ps4, k4) == Some(d));
    assert(assoc(ps3, k4) == assoc(ps4, k4));
    assert(assoc(ps2, k4) == assoc(ps3, k4));
    assert(assoc(ps, k4) == Some(d));
}

/// Round trip: the document the encoder writes for a record parses back to
/// exactly that record, field for field.
#[verifier::rlimit(100)]
pub proof fn lemma_parse_of_encode(r: InstanceConfig)
    ensures
        spec_parse_instance(spec_encode_instance(r)) == Some(r@),
{
    let doc = spec_encode_instance(r);
    let lead = seq!['\n', ' ', ' '];
    let k1 = ("instance_name")@;
    let k2 = ("instance_path")@;
    let k3 = ("instance_type")@;
    let k4 = ("description")@;
    let t4 = lead + member(k4, r.description@) + seq!['\n', '}'];
    let t3 = lead + member(k3, r.instance_type@) + seq![','] + t4;
    let t2 = lead + member(k2, r.instance_path@) + seq![','] + t3;
    let t1 = lead + member(k1, r.instance_name@) + seq![','] + t2;
    assert(forall|i: int| 0 <= i < lead.len() ==> is_ws(lead[i]));
    assert(doc =~= seq!['{'] + t1);
    assert(doc[0] == '{');
    assert(sp_ws(doc) == doc);
    assert(doc.drop_first() =~= t1);
    lemma_members_last(lead, k4, r.description@);
    lemma_members_step(lead, k3, r.instance_type@, t4);
    lemma_members_step(lead, k2, r.instance_path@, t3);
    lemma_members_step(lead, k1, r.instance_name@, t2);
    let ps = seq![(k1, r.instance_name@), (k2, r.instance_path@), (k3, r.instance_type@), (
        k4,
        r.description@,
    )];
    assert(sp_members(t1) is Some);
    assert(sp_members(t1)->Some_0.0 =~= ps);
    assert(sp_members(t1)->Some_0.1 =~= Seq::<char>::empty());
    assert(sp_ws(Seq::<char>::empty()).len() == 0);
    let s2 = sp_ws(t1);
    lemma_ws_skip_prefix(lead, member(k1, r.instance_name@) + seq![','] + t2);
    assert(t1 =~= lead + (member(k1, r.instance_name@) + seq![','] + t2));
    assert((member(k1, r.instance_name@) + seq![','] + t2)[0] == '"');
    assert(s2[0] == '"');
    assert(sp_pairs(doc) == Some(ps));
    lemma_record_of_pairs(r.instance_name@, r.instance_path@, r.instance_type@, r.description@);
    assert(spec_record_of(ps) == Some(r@));
}

/// Why a persisted document does not hold a record.
#[derive(Debug, PartialEq, Eq)]
pub enum ParseError {
    /// The document is not a JSON object of string members.
    Syntax,
    /// The document is such an object, but one of the four required members
    /// is missing.
    MissingField,
}

/// The characters of `s`, as a vector.
fn chars_of(s: &str) -> (v: Vec<char>)
    ensures
        v@ == s@,
{
    let n = s.unicode_len();
    let mut v: Vec<char> = Vec::new();
    let mut i: usize = 0;
    while i < n
        invariant
            i <= n,
            n == s@.len(),
            v@ == s@.take(i as int),
        decreases n - i,
    {
        v.push(s.get_char(i));
        proof {
            assert(v@ =~= s@.take(i as int + 1));
        }
        i = i + 1;
    }
    proof {
        assert(s@.take(n as int) =~= s@);
    }
    v
}

/// Whether two string slices hold the same characters.
fn str_eq(a: &str, b: &str) -> (r: bool)
    ensures
        r == (a@ == b@),
{
    let na = a.unicode_len();
    let nb = b.unicode_len();
    if na != nb {
        return false;
    }
    let mut i: usize = 0;
    while i < na
        invariant
            i <= na,
            na == a@.len(),
            na == b@.len(),
            forall|k: int| 0 <= k < i ==> a@[k] == b@[k],
        decreases na - i,
    {
        if a.get_char(i) != b.get_char(i) {
            return false;
        }
        i = i + 1;
    }
    proof {
        assert(a@ =~= b@);
    }
    true
}

/// The index of the first character at or after `i` that is not whitespace.
fn skip_ws(v: &Vec<char>, i: usize) -> (j: usize)
    requires
        i <= v@.len(),
    ensures
        i <= j <= v@.len(),
        v@.skip(j as int) == sp_ws(v@.skip(i as int)),
    decreases v@.len() - i,
{
    if i < v.len() {
        let c = v[i];
        proof {
            assert(v@.skip(i as int)[0] == v@[i as int]);
        }
        if c == ' ' || c == '\n' || c == '\t' || c == '\r' {
            proof {
                assert(v@.skip(i as int).drop_first() =~= v@.skip(i as int + 1));
            }
            return skip_ws(v, i + 1);
        }
    }
    i
}

fn unescape_exec(c: char) -> (r: Option<char>)
    ensures
        r == unesc(c),
{
    if c == '"' {
        Some('"')
    } else if c == '\\' {
        Some('\\')
    } else if c == '/' {
        Some('/')
    } else if c == 'n' {
        Some('\n')
    } else if c == 't' {
        Some('\t')
    } else if c == 'r' {
        Some('\r')
    } else if c == 'b' {
        Some('\u{8}')
    } else if c == 'f' {
        Some('\u{c}')
    } else {
        None
    }
}

fn hex_val_exec(c: char) -> (r: Option<u8>)
    ensures
        r == hex_val(c),
        r is Some ==> r->Some_0 < 16,
{
    if c >= '0' && c <= '9' {
        Some(((c as u32) - ('0' as u32)) as u8)
    } else if c >= 'a' && c <= 'f' {
        Some((((c as u32) - ('a' as u32)) + 10) as u8)
    } else if c >= 'A' && c <= 'F' {
        Some((((c as u32) - ('A' as u32)) + 10) as u8)
    } else {
        None
    }
}

/// Parses a string-literal body starting at `i` (just after the opening
/// quote), pushing the decoded characters onto `acc`; returns the index just
/// after the closing quote.
fn parse_str_body(v: &Vec<char>, i: usize, acc: &mut Vec<char>) -> (r: Option<usize>)
    requires
        i <= v@.len(),
    ensures
        (match sp_str_body(v@.skip(i as int)) {
            Some(p) => r is Some && i < r->Some_0 <= v@.len() && final(acc)@ == old(acc)@ + p.0
                && p.1 == v@.skip(r->Some_0 as int),
            None => r is None,
        }),
    decreases v@.len() - i,
{
    let ghost s = v@.skip(i as int);
    if i == v.len() {
        return None;
    }
    let c = v[i];
    proof {
        assert(s.len() == v@.len() - i);
        assert(s[0] == v@[i as int]);
    }
    if c == '"' {
        proof {
            assert(s.drop_first() =~= v@.skip(i as int + 1));
            assert(acc@ =~= acc@ + Seq::<char>::empty());
        }
        return Some(i + 1);
    }
    if c == '\\' {
        if i + 1 >= v.len() {
            return None;
        }
        let e = v[i + 1];
        proof {
            assert(s[1] == v@[i as int + 1]);
        }
        match unescape_exec(e) {
            Some(u) => {
                acc.push(u);
                let ghost acc_mid = acc@;
                proof {
                    assert(s.skip(2) =~= v@.skip(i as int + 2));
                }
                let r2 = parse_str_body(v, i + 2, acc);
                proof {
                    let s2 = v@.skip(i as int + 2);
                    if sp_str_body(s2) is Some {
                        let p2 = sp_str_body(s2)->Some_0;
                        assert(acc_mid =~= old(acc)@ + seq![u]);
                        assert(old(acc)@ + seq![u] + p2.0 =~= old(acc)@ + (seq![u] + p2.0));
                        assert(sp_str_body(s) == Some((seq![u] + p2.0, p2.1)));
                    } else {
                        assert(sp_str_body(s) is None);
                    }
                }
                r2
            },
            None => {
                if e == 'u' && v.len() - i > 5 {
                    proof {
                        assert(s[2] == v@[i as int + 2]);
                        assert(s[3] == v@[i as int + 3]);
                        assert(s[4] == v@[i as int + 4]);
                        assert(s[5] == v@[i as int + 5]);
                    }
                    let d2 = v[i + 2];
                    let d3 = v[i + 3];
                    if d2 == '0' && d3 == '0' {
                        let h4 = hex_val_exec(v[i + 4]);
                        let h5 = hex_val_exec(v[i + 5]);
                        match (h4, h5) {
                            (Some(hv), Some(lv)) => {
                                let code: u8 = hv * 16 + lv;
                                acc.push(code as char);
                                let ghost acc_mid = acc@;
                                proof {
                                    assert(s.skip(6) =~= v@.skip(i as int + 6));
                                }
                                let r2 = parse_str_body(v, i + 6, acc);
                                proof {
                                    let s2 = v@.skip(i as int + 6);
                                    let u = (((hex_val(s[4])->Some_0 as nat) * 16 + hex_val(
                                        s[5],
                                    )->Some_0 as nat) as u8) as char;
                                    assert(code as char == u);
                                    if sp_str_body(s2) is Some {
                                        let p2 = sp_str_body(s2)->Some_0;
                                        assert(acc_mid =~= old(acc)@ + seq![u]);
                                        assert(old(acc)@ + seq![u] + p2.0 =~= old(acc)@ + (seq![u]
                                            + p2.0));
                                        assert(sp_str_body(s) == Some((seq![u] + p2.0, p2.1)));
                                    } else {
                                        assert(sp_str_body(s) is None);
                                    }
                                }
                                r2
                            },
                            _ => None,
                        }
                    } else {
                        None
                    }
                } else {
                    None
                }
            },
        }
    } else {
        let code32 = c as u32;
        if code32 < 32 {
            return None;
        }
        acc.push(c);
        let ghost acc_mid = acc@;
        proof {
            assert(s.drop_first() =~= v@.skip(i as int + 1));
        }
        let r2 = parse_str_body(v, i + 1, acc);
        proof {
            let s2 = v@.skip(i as int + 1);
            if sp_str_body(s2) is Some {
                let p2 = sp_str_body(s2)->Some_0;
                assert(acc_mid =~= old(acc)@ + seq![c]);
                assert(old(acc)@ + seq![c] + p2.0 =~= old(acc)@ + (seq![c] + p2.0));
                assert(sp_str_body(s) == Some((seq![c] + p2.0, p2.1)));
            } else {
                assert(sp_str_body(s) is None);
            }
        }
        r2
    }
}

/// Parses one member starting at `i`: its key, its value, and the index just
/// after the value's closing quote.
fn parse_member(v: &Vec<char>, i: usize) -> (r: Option<(String, String, usize)>)
    requires
        i <= v@.len(),
    ensures
        (match sp_member(v@.skip(i as int)) {
            Some(mp) => r is Some && i < r->Some_0.2 <= v@.len() && r->Some_0.0@ == mp.0.0
                && r->Some_0.1@ == mp.0.1 && mp.1 == v@.skip(r->Some_0.2 as int),
            None => r is None,
        }),
{
    let ghost s = v@.skip(i as int);
    let i1 = skip_ws(v, i);
    let ghost s1 = sp_ws(s);
    if i1 == v.len() {
        return None;
    }
    proof {
        assert(s1[0] == v@[i1 as int]);
    }
    if v[i1] != '"' {
        return None;
    }
    proof {
        assert(s1.drop_first() =~= v@.skip(i1 as int + 1));
    }
    let mut kacc: Vec<char> = Vec::new();
    let jk = match parse_str_body(v, i1 + 1, &mut kacc) {
        Some(j) => j,
        None => {
            return None;
        },
    };
    let ghost kp = sp_str_body(s1.drop_first())->Some_0;
    let i3 = skip_ws(v, jk);
    let ghost s3 = sp_ws(kp.1);
    if i3 == v.len() {
        return None;
    }
    proof {
        assert(s3[0] == v@[i3 as int]);
    }
    if v[i3] != ':' {
        return None;
    }
    proof {
        assert(s3.drop_first() =~= v@.skip(i3 as int + 1));
    }
    let i4 = skip_ws(v, i3 + 1);
    let ghost s4 = sp_ws(s3.drop_first());
    if i4 == v.len() {
        return None;
    }
    proof {
        assert(s4[0] == v@[i4 as int]);
    }
    if v[i4] != '"' {
        return None;
    }
    proof {
        assert(s4.drop_first() =~= v@.skip(i4 as int + 1));
    }
    let mut vacc: Vec<char> = Vec::new();
    let jv = match parse_str_body(v, i4 + 1, &mut vacc) {
        Some(j) => j,
        None => {
            return None;
        },
    };
    let key = string_from_chars(&kacc);
    let val = string_from_chars(&vacc);
    Some((key, val, jv))
}

/// The views of a parsed pair list.
pub open spec fn pairs_view(s: Seq<(String, String)>) -> Seq<(Seq<char>, Seq<char>)> {
    s.map(|_i: int, p: (String, String)| (p.0@, p.1@))
}

/// Parses the members of a non-empty object starting at `i` (just after the
/// opening brace), pushing the pairs onto `out`; returns the index just
/// after the closing brace.
fn parse_members(v: &Vec<char>, i: usize, out: &mut Vec<(String, String)>) -> (r: Option<usize>)
    requires
        i <= v@.len(),
    ensures
        (match sp_members(v@.skip(i as int)) {
            Some(mp) => r is Some && i < r->Some_0 <= v@.len() && mp.1 == v@.skip(
                r->Some_0 as int,
            ) && pairs_view(final(out)@) == pairs_view(old(out)@) + mp.0,
            None => r is None,
        }),
    decreases v@.len() - i,
{
    let ghost s = v@.skip(i as int);
    let m = match parse_member(v, i) {
        Some(m) => m,
        None => {
            return None;
        },
    };
    let (ks, vs, j) = m;
    let ghost mp = sp_member(s)->Some_0;
    out.push((ks, vs));
    let ghost pv_mid = pairs_view(out@);
    proof {
        assert(pv_mid =~= pairs_view(old(out)@).push(mp.0));
    }
    let i2 = skip_ws(v, j);
    let ghost s2 = sp_ws(mp.1);
    if i2 == v.len() {
        return None;
    }
    proof {
        assert(s2[0] == v@[i2 as int]);
        assert(s2.drop_first() =~= v@.skip(i2 as int + 1));
    }
    let c2 = v[i2];
    if c2 == ',' {
        let r2 = parse_members(v, i2 + 1, out);
        proof {
            if sp_members(s2.drop_first()) is Some {
                let rp = sp_members(s2.drop_first())->Some_0;
                assert(pairs_view(out@) == pv_mid + rp.0);
                assert(pairs_view(old(out)@).push(mp.0) + rp.0 =~= pairs_view(old(out)@) + (
                seq![mp.0] + rp.0));
                assert(sp_members(s) == Some((seq![mp.0] + rp.0, rp.1)));
            } else {
                assert(sp_members(s) is None);
            }
        }
        r2
    } else if c2 == '}' {
        proof {
            assert(sp_members(s) == Some((seq![mp.0], s2.drop_first())));
            assert(pairs_view(old(out)@).push(mp.0) =~= pairs_view(old(out)@) + seq![mp.0]);
        }
        Some(i2 + 1)
    } else {
        None
    }
}

/// The value under the first member with key `key`, if any.
fn assoc_get(pairs: &Vec<(String, String)>, key: &str) -> (r: Option<String>)
    ensures
        (match assoc(pairs_view(pairs@), key@) {
            Some(x) => r is Some && r->Some_0@ == x,
            None => r is None,
        }),
{
    let n = pairs.len();
    proof {
        assert(pairs_view(pairs@).skip(0) =~= pairs_view(pairs@));
    }
    let mut idx: usize = 0;
    while idx < n
        invariant
            idx <= n,
            n == pairs@.len(),
            assoc(pairs_view(pairs@), key@) == assoc(
                pairs_view(pairs@).skip(idx as int),
                key@,
            ),
        decreases n - idx,
    {
        proof {
            assert(pairs_view(pairs@).skip(idx as int)[0] == (
                pairs@[idx as int].0@,
                pairs@[idx as int].1@,
            ));
        }
        if str_eq(pairs[idx].0.as_str(), key) {
            return Some(pairs[idx].1.clone());
        }
        proof {
            assert(pairs_view(pairs@).skip(idx as int).drop_first() =~= pairs_view(pairs@).skip(
                idx as int + 1,
            ));
        }
        idx = idx + 1;
    }
    proof {
        assert(pairs_view(pairs@).skip(n as int) =~= Seq::<(Seq<char>, Seq<char>)>::empty());
    }
    None
}

/// Parses a persisted document back into a record. Returns `Syntax` exactly
/// when the document is not one JSON object of string members, and
/// `MissingField` exactly when it is but one of the four required members is
/// absent; otherwise the parsed record, whose fields are the values under
/// the four keys.
pub fn parse_instance(s: &str) -> (r: Result<InstanceConfig, ParseError>)
    ensures
        (match r {
            Ok(rec) => spec_parse_instance(s@) == Some(rec@),
            Err(e) => match e {
                ParseError::Syntax => sp_pairs(s@) is None,
                ParseError::MissingField => sp_pairs(s@) is Some && spec_record_of(
                    sp_pairs(s@)->Some_0,
                ) is None,
            },
        }),
{
    let v = chars_of(s);
    proof {
        assert(v@.skip(0) =~= v@);
    }
    let i1 = skip_ws(&v, 0);
    let ghost s1 = sp_ws(v@);
    if i1 == v.len() {
        return Err(ParseError::Syntax);
    }
    proof {
        assert(s1[0] == v@[i1 as int]);
    }
    if v[i1] != '{' {
        return Err(ParseError::Syntax);
    }
    proof {
        assert(s1.drop_first() =~= v@.skip(i1 as int + 1));
    }
    let i2 = skip_ws(&v, i1 + 1);
    let ghost s2 = sp_ws(s1.drop_first());
    if i2 < v.len() {
        proof {
            assert(s2[0] == v@[i2 as int]);
        }
        let b = v[i2];
        if b == '}' {
            proof {
                assert(s2.drop_first() =~= v@.skip(i2 as int + 1));
            }
            let i3 = skip_ws(&v, i2 + 1);
            if i3 < v.len() {
                return Err(ParseError::Syntax);
            }
            proof {
                assert(sp_ws(s2.drop_first()).len() == 0);
                assert(sp_pairs(v@) == Some(Seq::<(Seq<char>, Seq<char>)>::empty()));
                assert(assoc(Seq::<(Seq<char>, Seq<char>)>::empty(), ("instance_name")@)
                    is None);
            }
            return Err(ParseError::MissingField);
        }
    }
    let mut pairs: Vec<(String, String)> = Vec::new();
    let j = match parse_members(&v, i1 + 1, &mut pairs) {
        Some(j) => j,
        None => {
            return Err(ParseError::Syntax);
        },
    };
    let ghost mp = sp_members(s1.drop_first())->Some_0;
    proof {
        assert(pairs_view(Seq::<(String, String)>::empty()) =~= Seq::<(
            Seq<char>,
            Seq<char>,
        )>::empty());
        assert(Seq::<(Seq<char>, Seq<char>)>::empty() + mp.0 =~= mp.0);
        assert(pairs_view(pairs@) == mp.0);
    }
    let jend = skip_ws(&v, j);
    if jend < v.len() {
        proof {
            assert(sp_ws(mp.1).len() > 0);
        }
        return Err(ParseError::Syntax);
    }
    proof {
        assert(sp_ws(mp.1).len() == 0);
        assert(sp_pairs(v@) == Some(mp.0));
    }
    let name = match assoc_get(&pairs, "instance_name") {
        Some(x) => x,
        None => {
            return Err(ParseError::MissingField);
        },
    };
    let path = match assoc_get(&pairs, "instance_path") {
        Some(x) => x,
        None => {
            return Err(ParseError::MissingField);
        },
    };
    let ty = match assoc_get(&pairs, "instance_type") {
        Some(x) => x,
        None => {
            return Err(ParseError::MissingField);
        },
    };
    let desc = match assoc_get(&pairs, "description") {
        Some(x) => x,
        None => {
            return Err(ParseError::MissingField);
        },
    };
    Ok(InstanceConfig { instance_name: name, instance_path: path, instance_type: ty, description: desc })
}

} // verus!
