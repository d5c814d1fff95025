//! The index file codec.
//!
//! A scope's registry is persisted as a JSON array of objects, each holding
//! the three strings of one entry under the keys `alias`, `rel_path` and
//! `description`, in that order.  The writer pretty-prints with a two-space
//! indent; the reader is tolerant: it accepts any blank space between
//! tokens, the short string escapes, and `\u00XX` escapes for the control
//! range, which is all this writer ever emits.  A text the reader cannot
//! take apart is a malformed index, reported as such — never mistaken for an
//! empty or absent one.
//!
//! Writing then reading is lossless: see [`lemma_round_trip`].

use vstd::prelude::*;
use crate::registry::CmdModel;
use crate::registry::JsonCmd;

verus! {

/// The blank-space characters the reader skips between tokens.
pub open spec fn is_ws(c: char) -> bool {
    c == ' ' || c == '\n' || c == '\t' || c == '\r'
}

/// `s` without its leading blank space.
pub open spec fn skip_ws(s: Seq<char>) -> Seq<char>
    decreases s.len(),
{
    if s.len() > 0 && is_ws(s[0]) {
        skip_ws(s.drop_first())
    } else {
        s
    }
}

/// The lower-case hex digit of `n`, for `0 <= n < 16`.
pub open spec fn hex_digit(n: int) -> char {
    if n == 0 {
        '0'
    } else if n == 1 {
        '1'
    } else if n == 2 {
        '2'
    } else if n == 3 {
        '3'
    } else if n == 4 {
        '4'
    } else if n == 5 {
        '5'
    } else if n == 6 {
        '6'
    } else if n == 7 {
        '7'
    } else if n == 8 {
        '8'
    } else if n == 9 {
        '9'
    } else if n == 10 {
        'a'
    } else if n == 11 {
        'b'
    } else if n == 12 {
        'c'
    } else if n == 13 {
        'd'
    } else if n == 14 {
        'e'
    } else {
        'f'
    }
}

/// The value of a hex digit, upper or lower case.
pub open spec fn hex_val(c: char) -> Option<int> {
    if c == '0' {
        Option::Some(0)
    } else if c == '1' {
        Option::Some(1)
    } else if c == '2' {
        Option::Some(2)
    } else if c == '3' {
        Option::Some(3)
    } else if c == '4' {
        Option::Some(4)
    } else if c == '5' {
        Option::Some(5)
    } else if c == '6' {
        Option::Some(6)
    } else if c == '7' {
        Option::Some(7)
    } else if c == '8' {
        Option::Some(8)
    } else if c == '9' {
        Option::Some(9)
    } else if c == 'a' || c == 'A' {
        Option::Some(10)
    } else if c == 'b' || c == 'B' {
        Option::Some(11)
    } else if c == 'c' || c == 'C' {
        Option::Some(12)
    } else if c == 'd' || c == 'D' {
        Option::Some(13)
    } else if c == 'e' || c == 'E' {
        Option::Some(14)
    } else if c == 'f' || c == 'F' {
        Option::Some(15)
    } else {
        Option::None
    }
}

/// How the writer spells one character inside a JSON string: itself, unless
/// it is a quote, a backslash, or a control character.
pub open spec fn escape_char(c: char) -> Seq<char> {
    if c == '"' {
        seq!['\\', '"']
    } else if c == '\\' {
        seq!['\\', '\\']
    } else if c == '\n' {
        seq!['\\', 'n']
    } else if c == '\t' {
        seq!['\\', 't']
    } else if c == '\r' {
        seq!['\\', 'r']
    } else if c == '\u{8}' {
        seq!['\\', 'b']
    } else if c == '\u{c}' {
        seq!['\\', 'f']
    } else if (c as u32) < 0x20 {
        seq!['\\', 'u', '0', '0', hex_digit(((c as u32) as int) / 16), hex_digit(
            ((c as u32) as int) % 16,
        )]
    } else {
        seq![c]
    }
}

/// A whole string, character by character.
pub open spec fn escape_string(s: Seq<char>) -> Seq<char>
    decreases s.len(),
{
    if s.len() == 0 {
        Seq::empty()
    } else {
        escape_char(s[0]) + escape_string(s.drop_first())
    }
}

/// A string as the writer emits it: quoted and escaped.
pub open spec fn quoted(s: Seq<char>) -> Seq<char> {
    seq!['"'] + escape_string(s) + seq!['"']
}

/// The character a short escape stands for.
pub open spec fn unescape_short(c: char) -> Option<char> {
    if c == '"' {
        Option::Some('"')
    } else if c == '\\' {
        Option::Some('\\')
    } else if c == '/' {
        Option::Some('/')
    } else if c == 'n' {
        Option::Some('\n')
    } else if c == 't' {
        Option::Some('\t')
    } else if c == 'r' {
        Option::Some('\r')
    } else if c == 'b' {
        Option::Some('\u{8}')
    } else if c == 'f' {
        Option::Some('\u{c}')
    } else {
        Option::None
    }
}

/// Prefixes `c` onto the string part of a string-parse outcome.
pub open spec fn prepend_parsed(c: char, r: Option<(Seq<char>, Seq<char>)>) -> Option<
    (Seq<char>, Seq<char>),
> {
    match r {
        Option::Some((t, rest)) => Option::Some((seq![c] + t, rest)),
        Option::None => Option::None,
    }
}

/// Reads the inside of a JSON string up to its closing quote; yields the
/// decoded content and what follows the quote.  A bare control character, a
/// broken escape, or a missing closing quote is a failure.  Of the `\uXXXX`
/// escapes only the control range is accepted — the only ones the writer
/// emits, since everything above rides along unescaped.
pub open spec fn parse_str_body(s: Seq<char>) -> Option<(Seq<char>, Seq<char>)>
    decreases s.len(),
{
    if s.len() == 0 {
        Option::None
    } else if s[0] == '"' {
        Option::Some((Seq::empty(), s.drop_first()))
    } else if s[0] == '\\' {
        if s.len() < 2 {
            Option::None
        } else if s[1] == 'u' {
            if s.len() < 6 {
                Option::None
            } else {
                match (hex_val(s[2]), hex_val(s[3]), hex_val(s[4]), hex_val(s[5])) {
                    (Option::Some(a), Option::Some(b), Option::Some(c0), Option::Some(d)) => {
                        let code = a * 4096 + b * 256 + c0 * 16 + d;
                        if code < 0x20 {
                            prepend_parsed(((code as u32) as char), parse_str_body(s.skip(6)))
                        } else {
                            Option::None
                        }
                    },
                    _ => Option::None,
                }
            }
        } else {
            match unescape_short(s[1]) {
                Option::Some(c) => prepend_parsed(c, parse_str_body(s.skip(2))),
                Option::None => Option::None,
            }
        }
    } else if (s[0] as u32) < 0x20 {
        Option::None
    } else {
        prepend_parsed(s[0], parse_str_body(s.drop_first()))
    }
}

/// Reads a quoted JSON string where one is required to stand.
pub open spec fn parse_string(s: Seq<char>) -> Option<(Seq<char>, Seq<char>)> {
    if s.len() > 0 && s[0] == '"' {
        parse_str_body(s.drop_first())
    } else {
        Option::None
    }
}

/// Skips blank space, then requires the single character `c`.
pub open spec fn expect_ch(s: Seq<char>, c: char) -> Option<Seq<char>> {
    let t = skip_ws(s);
    if t.len() > 0 && t[0] == c {
        Option::Some(t.drop_first())
    } else {
        Option::None
    }
}

/// Reads `"<key>" :`, the named key of an object member.
pub open spec fn parse_key(s: Seq<char>, key: Seq<char>) -> Option<Seq<char>> {
    match parse_string(skip_ws(s)) {
        Option::Some((k, rest)) => if k == key {
            expect_ch(rest, ':')
        } else {
            Option::None
        },
        Option::None => Option::None,
    }
}

/// Reads one `"<key>": "<value>"` member; yields the value.
pub open spec fn parse_member(s: Seq<char>, key: Seq<char>) -> Option<(Seq<char>, Seq<char>)> {
    match parse_key(s, key) {
        Option::Some(rest) => parse_string(skip_ws(rest)),
        Option::None => Option::None,
    }
}

/// The key of an entry's alias.
pub open spec fn key_alias() -> Seq<char> {
    seq!['a', 'l', 'i', 'a', 's']
}

/// The key of an entry's relative path.
pub open spec fn key_rel_path() -> Seq<char> {
    seq!['r', 'e', 'l', '_', 'p', 'a', 't', 'h']
}

/// The key of an entry's description.
pub open spec fn key_description() -> Seq<char> {
    seq!['d', 'e', 's', 'c', 'r', 'i', 'p', 't', 'i', 'o', 'n']
}

/// Reads one entry object: the three members under their fixed keys, in the
/// order the writer emits them.
pub open spec fn parse_entry(s: Seq<char>) -> Option<(CmdModel, Seq<char>)> {
    match expect_ch(s, '{') {
        Option::Some(r1) => match parse_member(r1, key_alias()) {
            Option::Some((a, r2)) => match expect_ch(r2, ',') {
                Option::Some(r3) => match parse_member(r3, key_rel_path()) {
                    Option::Some((p, r4)) => match expect_ch(r4, ',') {
                        Option::Some(r5) => match parse_member(r5, key_description()) {
                            Option::Some((d, r6)) => match expect_ch(r6, '}') {
                                Option::Some(r7) => Option::Some(
                                    (CmdModel { alias: a, rel_path: p, description: d }, r7),
                                ),
                                Option::None => Option::None,
                            },
                            Option::None => Option::None,
                        },
                        Option::None => Option::None,
                    },
                    Option::None => Option::None,
                },
                Option::None => Option::None,
            },
            Option::None => Option::None,
        },
        Option::None => Option::None,
    }
}

/// Prefixes `e` onto the entries of an array-parse outcome.
pub open spec fn prepend_entry(e: CmdModel, r: Option<(Seq<CmdModel>, Seq<char>)>) -> Option<
    (Seq<CmdModel>, Seq<char>),
> {
    match r {
        Option::Some((es, rest)) => Option::Some((seq![e] + es, rest)),
        Option::None => Option::None,
    }
}

/// Reads the entries of a non-empty array, after its `[`, up to and past its
/// `]`.
pub open spec fn parse_entries(s: Seq<char>) -> Option<(Seq<CmdModel>, Seq<char>)>
    decreases s.len(),
{
    match parse_entry(s) {
        Option::Some((e, rest)) => {
            let t = skip_ws(rest);
            if t.len() > 0 && t[0] == ',' {
                if t.drop_first().len() < s.len() {
                    prepend_entry(e, parse_entries(t.drop_first()))
                } else {
                    Option::None
                }
            } else if t.len() > 0 && t[0] == ']' {
                Option::Some((seq![e], t.drop_first()))
            } else {
                Option::None
            }
        },
        Option::None => Option::None,
    }
}

/// The meaning of a whole index text: the entries of its one JSON array,
/// with nothing but blank space after it — or nothing, when the text is
/// malformed.
pub open spec fn spec_parse_index(s: Seq<char>) -> Option<Seq<CmdModel>> {
    match expect_ch(s, '[') {
        Option::Some(r1) => {
            let t = skip_ws(r1);
            if t.len() > 0 && t[0] == ']' {
                if skip_ws(t.drop_first()).len() == 0 {
                    Option::Some(Seq::empty())
                } else {
                    Option::None
                }
            } else {
                match parse_entries(r1) {
                    Option::Some((es, rest)) => if skip_ws(rest).len() == 0 {
                        Option::Some(es)
                    } else {
                        Option::None
                    },
                    Option::None => Option::None,
                }
            }
        },
        Option::None => Option::None,
    }
}

/// One member as the writer lays it out: a fresh line, four spaces of
/// indent, the key, `: `, the value.
pub open spec fn render_member(key: Seq<char>, value: Seq<char>) -> Seq<char> {
    seq!['\n', ' ', ' ', ' ', ' '] + quoted(key) + seq![':', ' '] + quoted(value)
}

/// One entry as the writer lays it out, indented for its place in the array.
pub open spec fn render_entry(e: CmdModel) -> Seq<char> {
    seq![' ', ' ', '{'] + render_member(key_alias(), e.alias) + seq![','] + render_member(
        key_rel_path(),
        e.rel_path,
    ) + seq![','] + render_member(key_description(), e.description) + seq!['\n', ' ', ' ', '}']
}

/// The entries of a non-empty array, separated by `,` and a line break.
pub open spec fn render_entries(es: Seq<CmdModel>) -> Seq<char>
    decreases es.len(),
{
    if es.len() <= 1 {
        render_entry(es[0])
    } else {
        render_entry(es[0]) + seq![',', '\n'] + render_entries(es.drop_first())
    }
}

/// A whole index text as the writer emits it.
pub open spec fn render_index(es: Seq<CmdModel>) -> Seq<char> {
    if es.len() == 0 {
        seq!['[', ']']
    } else {
        seq!['[', '\n'] + render_entries(es) + seq!['\n', ']']
    }
}

/// The persisted triples of a list of entries.
pub open spec fn models_of(v: Seq<JsonCmd>) -> Seq<CmdModel> {
    Seq::new(v.len(), |i: int| v[i]@)
}

/// The characters of `s`, one by one.
pub fn str_to_chars(s: &str) -> (v: Vec<char>)
    ensures
        v@ == s@,
{
    let n = s.unicode_len();
    let mut v: Vec<char> = Vec::new();
    let mut i: usize = 0;
    while i < n
        invariant
            i <= n,
            n == s@.len(),
            v@ == s@.take(i as int),
        decreases n - i,
    {
        v.push(s.get_char(i));
        proof {
            assert(v@ =~= s@.take(i + 1 as int));
        }
        i = i + 1;
    }
    proof {
        assert(s@.take(n as int) =~= s@);
    }
    v
}

/// Relies on `String`'s `FromIterator` over `char`: collecting characters
/// yields the string of exactly those characters, in order.
#[verifier::external_body]
fn chars_to_string(v: &Vec<char>) -> (s: String)
    ensures
        s@ == v@,
{
    v.iter().collect()
}

/// The lower-case hex digit of `n < 16`.
fn hex_digit_ch(n: u32) -> (c: char)
    requires
        n < 16,
    ensures
        c == hex_digit(n as int),
{
    if n == 0 {
        '0'
    } else if n == 1 {
        '1'
    } else if n == 2 {
        '2'
    } else if n == 3 {
        '3'
    } else if n == 4 {
        '4'
    } else if n == 5 {
        '5'
    } else if n == 6 {
        '6'
    } else if n == 7 {
        '7'
    } else if n == 8 {
        '8'
    } else if n == 9 {
        '9'
    } else if n == 10 {
        'a'
    } else if n == 11 {
        'b'
    } else if n == 12 {
        'c'
    } else if n == 13 {
        'd'
    } else if n == 14 {
        'e'
    } else {
        'f'
    }
}

/// Emits the spelling of one character.
fn push_escaped_char(out: &mut Vec<char>, c: char)
    ensures
        final(out)@ == old(out)@ + escape_char(c),
{
    if c == '"' {
        out.push('\\');
        out.push('"');
    } else if c == '\\' {
        out.push('\\');
        out.push('\\');
    } else if c == '\n' {
        out.push('\\');
        out.push('n');
    } else if c == '\t' {
        out.push('\\');
        out.push('t');
    } else if c == '\r' {
        out.push('\\');
        out.push('r');
    } else if c == '\u{8}' {
        out.push('\\');
        out.push('b');
    } else if c == '\u{c}' {
        out.push('\\');
        out.push('f');
    } else if (c as u32) < 0x20 {
        out.push('\\');
        out.push('u');
        out.push('0');
        out.push('0');
        out.push(hex_digit_ch((c as u32) / 16));
        out.push(hex_digit_ch((c as u32) % 16));
    } else {
        out.push(c);
    }
    proof {
        assert(final(out)@ =~= old(out)@ + escape_char(c));
    }
}

/// Escaping a string one character longer appends that character's spelling.
proof fn lemma_escape_snoc(s: Seq<char>, c: char)
    ensures
        escape_string(s.push(c)) == escape_string(s) + escape_char(c),
    decreases s.len(),
{
    if s.len() == 0 {
        assert(s.push(c)[0] == c);
        assert(s.push(c).drop_first() =~= Seq::<char>::empty());
        assert(escape_string(s.push(c)) == escape_char(c) + escape_string(Seq::<char>::empty()));
        assert(escape_string(Seq::<char>::empty()) == Seq::<char>::empty());
        assert(escape_string(s) == Seq::<char>::empty());
        assert(escape_string(s.push(c)) =~= escape_string(s) + escape_char(c));
    } else {
        assert(s.push(c)[0] == s[0]);
        assert(s.push(c).drop_first() =~= s.drop_first().push(c));
        lemma_escape_snoc(s.drop_first(), c);
        assert(escape_string(s.push(c)) =~= escape_string(s) + escape_char(c));
    }
}

/// Emits a string as the writer spells it: quoted and escaped.
fn push_quoted_chars(out: &mut Vec<char>, s: &Vec<char>)
    ensures
        final(out)@ == old(out)@ + quoted(s@),
{
    out.push('"');
    let ghost opened = out@;
    let n = s.len();
    let mut i: usize = 0;
    while i < n
        invariant
            i <= n,
            n == s@.len(),
            out@ == opened + escape_string(s@.take(i as int)),
        decreases n - i,
    {
        let ghost before = out@;
        push_escaped_char(out, s[i]);
        proof {
            assert(s@.take(i + 1 as int) =~= s@.take(i as int).push(s@[i as int]));
            lemma_escape_snoc(s@.take(i as int), s@[i as int]);
            assert(out@ =~= opened + escape_string(s@.take(i + 1 as int)));
        }
        i = i + 1;
    }
    out.push('"');
    proof {
        assert(s@.take(n as int) =~= s@);
        assert(final(out)@ =~= old(out)@ + quoted(s@));
    }
}

/// The characters of the alias key.
fn key_alias_chars() -> (v: Vec<char>)
    ensures
        v@ == key_alias(),
{
    let mut v: Vec<char> = Vec::new();
    v.push('a');
    v.push('l');
    v.push('i');
    v.push('a');
    v.push('s');
    proof {
        assert(v@ =~= key_alias());
    }
    v
}

/// The characters of the relative-path key.
fn key_rel_path_chars() -> (v: Vec<char>)
    ensures
        v@ == key_rel_path(),
{
    let mut v: Vec<char> = Vec::new();
    v.push('r');
    v.push('e');
    v.push('l');
    v.push('_');
    v.push('p');
    v.push('a');
    v.push('t');
    v.push('h');
    proof {
        assert(v@ =~= key_rel_path());
    }
    v
}

/// The characters of the description key.
fn key_description_chars() -> (v: Vec<char>)
    ensures
        v@ == key_description(),
{
    let mut v: Vec<char> = Vec::new();
    v.push('d');
    v.push('e');
    v.push('s');
    v.push('c');
    v.push('r');
    v.push('i');
    v.push('p');
    v.push('t');
    v.push('i');
    v.push('o');
    v.push('n');
    proof {
        assert(v@ =~= key_description());
    }
    v
}

/// Emits one member: four spaces of indent, the key, `: `, the value.
fn push_member(out: &mut Vec<char>, key: &Vec<char>, value: &String)
    ensures
        final(out)@ == old(out)@ + render_member(key@, value@),
{
    out.push('\n');
    out.push(' ');
    out.push(' ');
    out.push(' ');
    out.push(' ');
    push_quoted_chars(out, key);
    out.push(':');
    out.push(' ');
    let vc = str_to_chars(value.as_str());
    push_quoted_chars(out, &vc);
    proof {
        assert(final(out)@ =~= old(out)@ + render_member(key@, value@));
    }
}

/// Emits one entry object.
fn push_entry(out: &mut Vec<char>, e: &JsonCmd)
    ensures
        final(out)@ == old(out)@ + render_entry(e@),
{
    out.push(' ');
    out.push(' ');
    out.push('{');
    let ka = key_alias_chars();
    push_member(out, &ka, &e.alias);
    out.push(',');
    let kr = key_rel_path_chars();
    push_member(out, &kr, &e.rel_path);
    out.push(',');
    let kd = key_description_chars();
    push_member(out, &kd, &e.description);
    out.push('\n');
    out.push(' ');
    out.push(' ');
    out.push('}');
    proof {
        assert(final(out)@ =~= old(out)@ + render_entry(e@));
    }
}

/// One more entry extends a rendered array by a separator and that entry.
proof fn lemma_render_entries_snoc(es: Seq<CmdModel>, e: CmdModel)
    requires
        es.len() >= 1,
    ensures
        render_entries(es.push(e)) == render_entries(es) + seq![',', '\n'] + render_entry(e),
    decreases es.len(),
{
    if es.len() == 1 {
        assert(es.push(e)[0] == es[0]);
        assert(es.push(e).drop_first() =~= seq![e]);
        assert(render_entries(seq![e]) == render_entry(e));
        assert(render_entries(es.push(e)) =~= render_entries(es) + seq![',', '\n'] + render_entry(
            e,
        ));
    } else {
        assert(es.push(e)[0] == es[0]);
        assert(es.push(e).drop_first() =~= es.drop_first().push(e));
        lemma_render_entries_snoc(es.drop_first(), e);
        assert(render_entries(es.push(e)) =~= render_entries(es) + seq![',', '\n'] + render_entry(
            e,
        ));
    }
}

/// Lays the whole registry out as its index text, pretty-printed: one entry
/// object per block, two-space indent, the three keys in their fixed order.
pub fn serialize_index(entries: &Vec<JsonCmd>) -> (r: String)
    ensures
        r@ == render_index(models_of(entries@)),
{
    let ghost models = models_of(entries@);
    let mut out: Vec<char> = Vec::new();
    if entries.len() == 0 {
        out.push('[');
        out.push(']');
        proof {
            assert(out@ =~= render_index(models));
        }
        return chars_to_string(&out);
    }
    out.push('[');
    out.push('\n');
    push_entry(&mut out, &entries[0]);
    proof {
        assert(models.take(1) =~= seq![models[0]]);
        assert(out@ =~= seq!['[', '\n'] + render_entries(models.take(1)));
    }
    let n = entries.len();
    let mut k: usize = 1;
    while k < n
        invariant
            1 <= k <= n,
            n == entries@.len(),
            models == models_of(entries@),
            out@ == seq!['[', '\n'] + render_entries(models.take(k as int)),
        decreases n - k,
    {
        out.push(',');
        out.push('\n');
        push_entry(&mut out, &entries[k]);
        proof {
            assert(models.take(k + 1 as int) =~= models.take(k as int).push(models[k as int]));
            lemma_render_entries_snoc(models.take(k as int), models[k as int]);
            assert(out@ =~= seq!['[', '\n'] + render_entries(models.take(k + 1 as int)));
        }
        k = k + 1;
    }
    out.push('\n');
    out.push(']');
    proof {
        assert(models.take(n as int) =~= models);
        assert(out@ =~= render_index(models));
    }
    chars_to_string(&out)
}

/// A malformed index text.  Distinct by design from an absent one: absence
/// is a legitimate empty state, malformation is corruption to surface.
#[derive(Clone, Copy, PartialEq, Eq, Structural, Debug)]
pub struct ParseError;

/// Prefixes `p` onto the string part of a string-parse outcome.
pub open spec fn with_prefix(p: Seq<char>, r: Option<(Seq<char>, Seq<char>)>) -> Option<
    (Seq<char>, Seq<char>),
> {
    match r {
        Option::Some((t, rest)) => Option::Some((p + t, rest)),
        Option::None => Option::None,
    }
}

proof fn lemma_with_prefix_cons(p: Seq<char>, c: char, r: Option<(Seq<char>, Seq<char>)>)
    ensures
        with_prefix(p, prepend_parsed(c, r)) == with_prefix(p.push(c), r),
{
    match r {
        Option::Some((t, rest)) => {
            assert(p + (seq![c] + t) =~= p.push(c) + t);
        },
        Option::None => {},
    }
}

/// Prefixes `p` onto the entries of an array-parse outcome.
pub open spec fn with_entries(p: Seq<CmdModel>, r: Option<(Seq<CmdModel>, Seq<char>)>) -> Option<
    (Seq<CmdModel>, Seq<char>),
> {
    match r {
        Option::Some((es, rest)) => Option::Some((p + es, rest)),
        Option::None => Option::None,
    }
}

proof fn lemma_with_entries_cons(p: Seq<CmdModel>, e: CmdModel, r: Option<(Seq<CmdModel>, Seq<char>)>)
    ensures
        with_entries(p, prepend_entry(e, r)) == with_entries(p.push(e), r),
{
    match r {
        Option::Some((es, rest)) => {
            assert(p + (seq![e] + es) =~= p.push(e) + es);
        },
        Option::None => {},
    }
}

/// Moves `i` past the blank space it stands on.
fn skip_ws_exec(v: &Vec<char>, start: usize) -> (j: usize)
    requires
        start <= v@.len(),
    ensures
        start <= j <= v@.len(),
        skip_ws(v@.skip(start as int)) == v@.skip(j as int),
{
    let n = v.len();
    let mut j = start;
    while j < n && (v[j] == ' ' || v[j] == '\n' || v[j] == '\t' || v[j] == '\r')
        invariant
            start <= j <= n,
            n == v@.len(),
            skip_ws(v@.skip(start as int)) == skip_ws(v@.skip(j as int)),
        decreases n - j,
    {
        proof {
            assert(v@.skip(j as int)[0] == v@[j as int]);
            assert(v@.skip(j as int).drop_first() =~= v@.skip(j + 1 as int));
        }
        j = j + 1;
    }
    proof {
        if j < n {
            assert(v@.skip(j as int)[0] == v@[j as int]);
            assert(!is_ws(v@.skip(j as int)[0]));
        }
        assert(skip_ws(v@.skip(j as int)) == v@.skip(j as int));
    }
    j
}

/// The value of a hex digit, if `c` is one.
fn hex_val_exec(c: char) -> (r: Option<u8>)
    ensures
        match r {
            Option::Some(n) => n < 16 && hex_val(c) == Option::Some(n as int),
            Option::None => hex_val(c) is None,
        },
{
    if c == '0' {
        Option::Some(0)
    } else if c == '1' {
        Option::Some(1)
    } else if c == '2' {
        Option::Some(2)
    } else if c == '3' {
        Option::Some(3)
    } else if c == '4' {
        Option::Some(4)
    } else if c == '5' {
        Option::Some(5)
    } else if c == '6' {
        Option::Some(6)
    } else if c == '7' {
        Option::Some(7)
    } else if c == '8' {
        Option::Some(8)
    } else if c == '9' {
        Option::Some(9)
    } else if c == 'a' || c == 'A' {
        Option::Some(10)
    } else if c == 'b' || c == 'B' {
        Option::Some(11)
    } else if c == 'c' || c == 'C' {
        Option::Some(12)
    } else if c == 'd' || c == 'D' {
        Option::Some(13)
    } else if c == 'e' || c == 'E' {
        Option::Some(14)
    } else if c == 'f' || c == 'F' {
        Option::Some(15)
    } else {
        Option::None
    }
}

/// Reads a string body from `start`, which stands just past the opening
/// quote; yields the decoded content and the position past the closing one.
fn parse_str_body_exec(v: &Vec<char>, start: usize) -> (r: Option<(Vec<char>, usize)>)
    requires
        start <= v@.len(),
    ensures
        match r {
            Option::Some(p) => start <= p.1 <= v@.len() && parse_str_body(v@.skip(start as int))
                == Option::Some((p.0@, v@.skip(p.1 as int))),
            Option::None => parse_str_body(v@.skip(start as int)) is None,
        },
{
    let n = v.len();
    let mut out: Vec<char> = Vec::new();
    let mut i = start;
    loop
        invariant
            start <= i <= n,
            n == v@.len(),
            parse_str_body(v@.skip(start as int)) == with_prefix(
                out@,
                parse_str_body(v@.skip(i as int)),
            ),
        decreases n - i,
    {
        if i >= n {
            proof {
                assert(v@.skip(i as int).len() == 0);
            }
            return Option::None;
        }
        let c = v[i];
        proof {
            assert(v@.skip(i as int).len() == n - i);
            assert(v@.skip(i as int)[0] == v@[i as int]);
        }
        if c == '"' {
            proof {
                assert(v@.skip(i as int).drop_first() =~= v@.skip(i + 1 as int));
                assert(out@ + Seq::<char>::empty() =~= out@);
            }
            return Option::Some((out, i + 1));
        } else if c == '\\' {
            if i + 1 >= n {
                return Option::None;
            }
            let e = v[i + 1];
            proof {
                assert(v@.skip(i as int)[1] == v@[i + 1 as int]);
            }
            if e == 'u' {
                if n - i < 6 {
                    return Option::None;
                }
                proof {
                    assert(v@.skip(i as int)[2] == v@[i + 2 as int]);
                    assert(v@.skip(i as int)[3] == v@[i + 3 as int]);
                    assert(v@.skip(i as int)[4] == v@[i + 4 as int]);
                    assert(v@.skip(i as int)[5] == v@[i + 5 as int]);
                }
                let h1 = hex_val_exec(v[i + 2]);
                let h2 = hex_val_exec(v[i + 3]);
                let h3 = hex_val_exec(v[i + 4]);
                let h4 = hex_val_exec(v[i + 5]);
                match (h1, h2, h3, h4) {
                    (
                        Option::Some(a),
                        Option::Some(b),
                        Option::Some(c0),
                        Option::Some(d),
                    ) => {
                        let code: u32 = (a as u32) * 4096 + (b as u32) * 256 + (c0 as u32) * 16 + (
                        d as u32);
                        if code >= 0x20 {
                            return Option::None;
                        }
                        let ch = (code as u8) as char;
                        proof {
                            assert(ch as u32 == code);
                            vstd::utf8::char_u32_cast(ch, code);
                            assert(v@.skip(i as int).skip(6) =~= v@.skip(i + 6 as int));
                            lemma_with_prefix_cons(
                                out@,
                                ch,
                                parse_str_body(v@.skip(i + 6 as int)),
                            );
                        }
                        out.push(ch);
                        i = i + 6;
                    },
                    _ => {
                        return Option::None;
                    },
                }
            } else {
                let sc: Option<char> = if e == '"' {
                    Option::Some('"')
                } else if e == '\\' {
                    Option::Some('\\')
                } else if e == '/' {
                    Option::Some('/')
                } else if e == 'n' {
                    Option::Some('\n')
                } else if e == 't' {
                    Option::Some('\t')
                } else if e == 'r' {
                    Option::Some('\r')
                } else if e == 'b' {
                    Option::Some('\u{8}')
                } else if e == 'f' {
                    Option::Some('\u{c}')
                } else {
                    Option::None
                };
                proof {
                    assert(sc == unescape_short(e));
                }
                match sc {
                    Option::Some(c2) => {
                        proof {
                            assert(v@.skip(i as int).skip(2) =~= v@.skip(i + 2 as int));
                            lemma_with_prefix_cons(
                                out@,
                                c2,
                                parse_str_body(v@.skip(i + 2 as int)),
                            );
                        }
                        out.push(c2);
                        i = i + 2;
                    },
                    Option::None => {
                        return Option::None;
                    },
                }
            }
        } else if (c as u32) < 0x20 {
            return Option::None;
        } else {
            proof {
                assert(v@.skip(i as int).drop_first() =~= v@.skip(i + 1 as int));
                lemma_with_prefix_cons(out@, c, parse_str_body(v@.skip(i + 1 as int)));
            }
            out.push(c);
            i = i + 1;
        }
    }
}

/// Reads a quoted string standing at `start`.
fn parse_string_exec(v: &Vec<char>, start: usize) -> (r: Option<(Vec<char>, usize)>)
    requires
        start <= v@.len(),
    ensures
        match r {
            Option::Some(p) => start < p.1 <= v@.len() && parse_string(v@.skip(start as int))
                == Option::Some((p.0@, v@.skip(p.1 as int))),
            Option::None => parse_string(v@.skip(start as int)) is None,
        },
{
    let n = v.len();
    if start >= n {
        proof {
            assert(v@.skip(start as int).len() == 0);
        }
        return Option::None;
    }
    proof {
        assert(v@.skip(start as int)[0] == v@[start as int]);
    }
    if v[start] == '"' {
        proof {
            assert(v@.skip(start as int).drop_first() =~= v@.skip(start + 1 as int));
        }
        parse_str_body_exec(v, start + 1)
    } else {
        Option::None
    }
}

/// Skips blank space, then takes the single character `c`.
fn expect_exec(v: &Vec<char>, start: usize, c: char) -> (r: Option<usize>)
    requires
        start <= v@.len(),
    ensures
        match r {
            Option::Some(j) => start < j <= v@.len() && expect_ch(v@.skip(start as int), c)
                == Option::Some(v@.skip(j as int)),
            Option::None => expect_ch(v@.skip(start as int), c) is None,
        },
{
    let n = v.len();
    let k = skip_ws_exec(v, start);
    if k < n {
        proof {
            assert(v@.skip(k as int)[0] == v@[k as int]);
        }
        if v[k] == c {
            proof {
                assert(v@.skip(k as int).drop_first() =~= v@.skip(k + 1 as int));
            }
            return Option::Some(k + 1);
        }
        return Option::None;
    }
    proof {
        assert(v@.skip(k as int).len() == 0);
    }
    Option::None
}

/// The two lists hold the same characters.
fn vec_chars_eq(a: &Vec<char>, b: &Vec<char>) -> (r: bool)
    ensures
        r == (a@ == b@),
{
    if a.len() != b.len() {
        return false;
    }
    let n = a.len();
    let mut i: usize = 0;
    while i < n
        invariant
            i <= n,
            n == a@.len() == b@.len(),
            forall|k: int| 0 <= k < i ==> a@[k] == b@[k],
        decreases n - i,
    {
        if a[i] != b[i] {
            return false;
        }
        i = i + 1;
    }
    proof {
        assert(a@ =~= b@);
    }
    true
}

/// Reads one `"<key>": "<value>"` member standing at `start`.
fn parse_member_exec(v: &Vec<char>, start: usize, key: &Vec<char>) -> (r: Option<(String, usize)>)
    requires
        start <= v@.len(),
    ensures
        match r {
            Option::Some(p) => start < p.1 <= v@.len() && parse_member(
                v@.skip(start as int),
                key@,
            ) == Option::Some((p.0@, v@.skip(p.1 as int))),
            Option::None => parse_member(v@.skip(start as int), key@) is None,
        },
{
    let k1 = skip_ws_exec(v, start);
    let (kchars, k2) = match parse_string_exec(v, k1) {
        Option::Some(p) => p,
        Option::None => {
            return Option::None;
        },
    };
    if !vec_chars_eq(&kchars, key) {
        return Option::None;
    }
    let k3 = match expect_exec(v, k2, ':') {
        Option::Some(j) => j,
        Option::None => {
            return Option::None;
        },
    };
    let k4 = skip_ws_exec(v, k3);
    let (vchars, j) = match parse_string_exec(v, k4) {
        Option::Some(p) => p,
        Option::None => {
            return Option::None;
        },
    };
    let val = chars_to_string(&vchars);
    Option::Some((val, j))
}

/// Reads one entry object standing at `start`.
fn parse_entry_exec(v: &Vec<char>, start: usize) -> (r: Option<(JsonCmd, usize)>)
    requires
        start <= v@.len(),
    ensures
        match r {
            Option::Some(p) => start < p.1 <= v@.len() && parse_entry(v@.skip(start as int))
                == Option::Some((p.0@, v@.skip(p.1 as int))),
            Option::None => parse_entry(v@.skip(start as int)) is None,
        },
{
    let j1 = match expect_exec(v, start, '{') {
        Option::Some(j) => j,
        Option::None => {
            return Option::None;
        },
    };
    let ka = key_alias_chars();
    let (alias, j2) = match parse_member_exec(v, j1, &ka) {
        Option::Some(p) => p,
        Option::None => {
            return Option::None;
        },
    };
    let j3 = match expect_exec(v, j2, ',') {
        Option::Some(j) => j,
        Option::None => {
            return Option::None;
        },
    };
    let kr = key_rel_path_chars();
    let (rel_path, j4) = match parse_member_exec(v, j3, &kr) {
        Option::Some(p) => p,
        Option::None => {
            return Option::None;
        },
    };
    let j5 = match expect_exec(v, j4, ',') {
        Option::Some(j) => j,
        Option::None => {
            return Option::None;
        },
    };
    let kd = key_description_chars();
    let (description, j6) = match parse_member_exec(v, j5, &kd) {
        Option::Some(p) => p,
        Option::None => {
            return Option::None;
        },
    };
    let j7 = match expect_exec(v, j6, '}') {
        Option::Some(j) => j,
        Option::None => {
            return Option::None;
        },
    };
    Option::Some((JsonCmd { alias, rel_path, description }, j7))
}

/// Reads the entries of a non-empty array from `start`, past the closing
/// `]`.
fn parse_entries_exec(v: &Vec<char>, start: usize) -> (r: Option<(Vec<JsonCmd>, usize)>)
    requires
        start <= v@.len(),
    ensures
        match r {
            Option::Some(p) => start <= p.1 <= v@.len() && parse_entries(v@.skip(start as int))
                == Option::Some((models_of(p.0@), v@.skip(p.1 as int))),
            Option::None => parse_entries(v@.skip(start as int)) is None,
        },
{
    let n = v.len();
    let mut acc: Vec<JsonCmd> = Vec::new();
    let mut i = start;
    loop
        invariant
            start <= i <= n,
            n == v@.len(),
            parse_entries(v@.skip(start as int)) == with_entries(
                models_of(acc@),
                parse_entries(v@.skip(i as int)),
            ),
        decreases n - i,
    {
        let (e, j) = match parse_entry_exec(v, i) {
            Option::Some(p) => p,
            Option::None => {
                return Option::None;
            },
        };
        let k = skip_ws_exec(v, j);
        if k < n {
            proof {
                assert(v@.skip(k as int)[0] == v@[k as int]);
            }
            let sep = v[k];
            if sep == ',' {
                proof {
                    assert(v@.skip(k as int).drop_first() =~= v@.skip(k + 1 as int));
                    assert(v@.skip(k + 1 as int).len() < v@.skip(i as int).len());
                    lemma_with_entries_cons(
                        models_of(acc@),
                        e@,
                        parse_entries(v@.skip(k + 1 as int)),
                    );
                    assert(models_of(acc@.push(e)) =~= models_of(acc@).push(e@));
                }
                acc.push(e);
                i = k + 1;
                continue ;
            }
            if sep == ']' {
                proof {
                    assert(v@.skip(k as int).drop_first() =~= v@.skip(k + 1 as int));
                    assert(models_of(acc@) + seq![e@] =~= models_of(acc@.push(e)));
                }
                acc.push(e);
                return Option::Some((acc, k + 1));
            }
            return Option::None;
        }
        proof {
            assert(v@.skip(k as int).len() == 0);
        }
        return Option::None;
    }
}

/// Reads a whole index text back into its entries.
///
/// Succeeds exactly on the texts [`spec_parse_index`] gives a meaning, and
/// then yields exactly those entries; anything else is a [`ParseError`].
pub fn parse_index(s: &str) -> (r: Result<Vec<JsonCmd>, ParseError>)
    ensures
        match spec_parse_index(s@) {
            Option::Some(es) => r matches Ok(v) && models_of(v@) == es,
            Option::None => r is Err,
        },
{
    let v = str_to_chars(s);
    let n = v.len();
    proof {
        assert(v@.skip(0) =~= v@);
    }
    let j1 = match expect_exec(&v, 0, '[') {
        Option::Some(j) => j,
        Option::None => {
            return Result::Err(ParseError);
        },
    };
    let k = skip_ws_exec(&v, j1);
    if k < n {
        proof {
            assert(v@.skip(k as int)[0] == v@[k as int]);
        }
        if v[k] == ']' {
            proof {
                assert(v@.skip(k as int).drop_first() =~= v@.skip(k + 1 as int));
            }
            let j2 = skip_ws_exec(&v, k + 1);
            if j2 == n {
                proof {
                    assert(v@.skip(j2 as int).len() == 0);
                    assert(models_of(Seq::<JsonCmd>::empty()) =~= Seq::<CmdModel>::empty());
                }
                return Result::Ok(Vec::new());
            }
            proof {
                assert(v@.skip(j2 as int).len() > 0);
            }
            return Result::Err(ParseError);
        }
    } else {
        proof {
            assert(v@.skip(k as int).len() == 0);
        }
    }
    let (es, j) = match parse_entries_exec(&v, j1) {
        Option::Some(p) => p,
        Option::None => {
            return Result::Err(ParseError);
        },
    };
    let j3 = skip_ws_exec(&v, j);
    if j3 == n {
        proof {
            assert(v@.skip(j3 as int).len() == 0);
        }
        return Result::Ok(es);
    }
    proof {
        assert(v@.skip(j3 as int).len() > 0);
    }
    Result::Err(ParseError)
}

/// A hex digit the writer emits reads back as its value.
proof fn lemma_hex_round(n: int)
    requires
        0 <= n < 16,
    ensures
        hex_val(hex_digit(n)) == Option::Some(n),
{
}

/// Blank space ahead of anything is skipped entirely.
proof fn lemma_skip_ws_prefix(w: Seq<char>, t: Seq<char>)
    requires
        forall|i: int| 0 <= i < w.len() ==> is_ws(#[trigger] w[i]),
    ensures
        skip_ws(w + t) == skip_ws(t),
    decreases w.len(),
{
    if w.len() == 0 {
        assert(w + t =~= t);
    } else {
        assert((w + t)[0] == w[0]);
        assert((w + t).drop_first() =~= w.drop_first() + t);
        lemma_skip_ws_prefix(w.drop_first(), t);
    }
}

/// The reader decodes an escaped string back to the characters the writer
/// was given, and stops exactly at the closing quote.
proof fn lemma_escape_parse(x: Seq<char>, rest: Seq<char>)
    ensures
        parse_str_body(escape_string(x) + seq!['"'] + rest) == Option::Some((x, rest)),
    decreases x.len(),
{
    let s = escape_string(x) + seq!['"'] + rest;
    if x.len() == 0 {
        assert(s =~= seq!['"'] + rest);
        assert(s[0] == '"');
        assert(s.drop_first() =~= rest);
    } else {
        let c = x[0];
        let x1 = x.drop_first();
        let tail = escape_string(x1) + seq!['"'] + rest;
        assert(escape_string(x) == escape_char(c) + escape_string(x1));
        assert(s =~= escape_char(c) + tail);
        lemma_escape_parse(x1, rest);
        assert(seq![c] + x1 =~= x);
        if c == '"' || c == '\\' || c == '\n' || c == '\t' || c == '\r' || c == '\u{8}' || c
            == '\u{c}' {
            assert(escape_char(c).len() == 2);
            assert(s[0] == escape_char(c)[0]);
            assert(s[1] == escape_char(c)[1]);
            assert(s[0] == '\\');
            assert(s[1] != 'u');
            assert(unescape_short(s[1]) == Option::Some(c));
            assert(s.skip(2) =~= tail);
            assert(parse_str_body(s) == prepend_parsed(c, parse_str_body(tail)));
        } else if (c as u32) < 0x20 {
            let ci = (c as u32) as int;
            let hi = ci / 16;
            let lo = ci % 16;
            assert(escape_char(c) == seq!['\\', 'u', '0', '0', hex_digit(hi), hex_digit(lo)]);
            assert(s[0] == '\\');
            assert(s[1] == 'u');
            assert(s[2] == '0');
            assert(s[3] == '0');
            assert(s[4] == hex_digit(hi));
            assert(s[5] == hex_digit(lo));
            assert(s.len() >= 6);
            assert(0 <= hi < 16 && 0 <= lo < 16) by {
                assert(0 <= ci < 0x20);
            }
            lemma_hex_round(hi);
            lemma_hex_round(lo);
            assert(hex_val(s[2]) == Option::Some(0int));
            assert(hex_val(s[3]) == Option::Some(0int));
            let code = 0 * 4096 + 0 * 256 + hi * 16 + lo;
            assert(code == ci) by {
                vstd::arithmetic::div_mod::lemma_fundamental_div_mod(ci, 16);
            }
            assert(code < 0x20);
            assert((code as u32) == c as u32);
            vstd::utf8::char_u32_cast(c, c as u32);
            assert(((code as u32) as char) == c);
            assert(s.skip(6) =~= tail);
            assert(parse_str_body(s) == prepend_parsed(c, parse_str_body(tail)));
        } else {
            assert(escape_char(c) == seq![c]);
            assert(s[0] == c);
            assert(s[0] != '"' && s[0] != '\\');
            assert(!((s[0] as u32) < 0x20));
            assert(s.drop_first() =~= tail);
            assert(parse_str_body(s) == prepend_parsed(c, parse_str_body(tail)));
        }
    }
}

/// A quoted, escaped string reads back as itself.
proof fn lemma_parse_quoted(x: Seq<char>, rest: Seq<char>)
    ensures
        parse_string(quoted(x) + rest) == Option::Some((x, rest)),
{
    let s = quoted(x) + rest;
    assert(s[0] == '"');
    assert(s.drop_first() =~= escape_string(x) + seq!['"'] + rest);
    lemma_escape_parse(x, rest);
}

/// A rendered member reads back as its value, under its key.
proof fn lemma_parse_member_render(key: Seq<char>, value: Seq<char>, rest: Seq<char>)
    ensures
        parse_member(render_member(key, value) + rest, key) == Option::Some((value, rest)),
{
    let w = seq!['\n', ' ', ' ', ' ', ' '];
    let r_colon = seq![':', ' '] + (quoted(value) + rest);
    let t1 = quoted(key) + r_colon;
    assert(render_member(key, value) + rest =~= w + t1);
    assert(forall|i: int| 0 <= i < w.len() ==> is_ws(#[trigger] w[i]));
    lemma_skip_ws_prefix(w, t1);
    assert(t1[0] == '"');
    assert(skip_ws(t1) == t1);
    lemma_parse_quoted(key, r_colon);
    assert(r_colon[0] == ':');
    assert(skip_ws(r_colon) == r_colon);
    let r_val = quoted(value) + rest;
    assert(r_colon.drop_first() =~= seq![' '] + r_val);
    lemma_skip_ws_prefix(seq![' '], r_val);
    assert(r_val[0] == '"');
    assert(skip_ws(r_val) == r_val);
    lemma_parse_quoted(value, rest);
}

/// A rendered entry reads back as itself.
#[verifier::rlimit(100)]
proof fn lemma_parse_entry_render(e: CmdModel, rest: Seq<char>)
    ensures
        parse_entry(render_entry(e) + rest) == Option::Some((e, rest)),
{
    let s = render_entry(e) + rest;
    let m1 = render_member(key_alias(), e.alias);
    let m2 = render_member(key_rel_path(), e.rel_path);
    let m3 = render_member(key_description(), e.description);
    let r7 = seq!['}'] + rest;
    let r6 = seq!['\n', ' ', ' '] + r7;
    let r5 = m3 + r6;
    let r4 = seq![','] + r5;
    let r3 = m2 + r4;
    let r2 = seq![','] + r3;
    let r1 = m1 + r2;
    let w0 = seq![' ', ' '];
    assert(s =~= w0 + (seq!['{'] + r1));
    assert(forall|i: int| 0 <= i < w0.len() ==> is_ws(#[trigger] w0[i]));
    lemma_skip_ws_prefix(w0, seq!['{'] + r1);
    assert((seq!['{'] + r1)[0] == '{');
    assert(skip_ws(seq!['{'] + r1) == seq!['{'] + r1);
    assert((seq!['{'] + r1).drop_first() =~= r1);
    assert(expect_ch(s, '{') == Option::Some(r1));
    lemma_parse_member_render(key_alias(), e.alias, r2);
    assert(r2[0] == ',');
    assert(skip_ws(r2) == r2);
    assert(r2.drop_first() =~= r3);
    assert(expect_ch(r2, ',') == Option::Some(r3));
    lemma_parse_member_render(key_rel_path(), e.rel_path, r4);
    assert(r4[0] == ',');
    assert(skip_ws(r4) == r4);
    assert(r4.drop_first() =~= r5);
    assert(expect_ch(r4, ',') == Option::Some(r5));
    lemma_parse_member_render(key_description(), e.description, r6);
    let w1 = seq!['\n', ' ', ' '];
    assert(forall|i: int| 0 <= i < w1.len() ==> is_ws(#[trigger] w1[i]));
    lemma_skip_ws_prefix(w1, r7);
    assert(r7[0] == '}');
    assert(skip_ws(r7) == r7);
    assert(r7.drop_first() =~= rest);
    assert(expect_ch(r6, '}') == Option::Some(rest));
    assert(CmdModel { alias: e.alias, rel_path: e.rel_path, description: e.description } =~= e);
}

/// Blank space ahead of an entry changes nothing about how it reads.
proof fn lemma_parse_entry_ws(w: Seq<char>, t: Seq<char>)
    requires
        forall|i: int| 0 <= i < w.len() ==> is_ws(#[trigger] w[i]),
    ensures
        parse_entry(w + t) == parse_entry(t),
{
    lemma_skip_ws_prefix(w, t);
    assert(expect_ch(w + t, '{') == expect_ch(t, '{'));
}

/// Blank space ahead of a well-formed entry list changes nothing about how
/// it reads.
proof fn lemma_parse_entries_ws(w: Seq<char>, t: Seq<char>)
    requires
        forall|i: int| 0 <= i < w.len() ==> is_ws(#[trigger] w[i]),
        parse_entries(t) is Some,
    ensures
        parse_entries(w + t) == parse_entries(t),
{
    lemma_parse_entry_ws(w, t);
    match parse_entry(t) {
        Option::Some((e, r)) => {
            let tt = skip_ws(r);
            if tt.len() > 0 && tt[0] == ',' {
                assert(tt.drop_first().len() < t.len());
                assert((w + t).len() >= t.len());
            }
        },
        Option::None => {
            assert(false);
        },
    }
}

/// A rendered entry list, with the closing bracket behind it, reads back as
/// exactly those entries.
#[verifier::rlimit(100)]
proof fn lemma_parse_entries_render(es: Seq<CmdModel>, rest: Seq<char>)
    requires
        es.len() >= 1,
    ensures
        parse_entries(render_entries(es) + (seq!['\n', ']'] + rest)) == Option::Some((es, rest)),
    decreases es.len(),
{
    if es.len() == 1 {
        let tail = seq!['\n', ']'] + rest;
        assert(render_entries(es) == render_entry(es[0]));
        lemma_parse_entry_render(es[0], tail);
        let close = seq![']'] + rest;
        let wn = seq!['\n'];
        assert(tail =~= wn + close);
        assert(forall|i: int| 0 <= i < wn.len() ==> is_ws(#[trigger] wn[i]));
        lemma_skip_ws_prefix(wn, close);
        assert(close[0] == ']');
        assert(skip_ws(close) == close);
        assert(close.drop_first() =~= rest);
        assert(seq![es[0]] =~= es);
    } else {
        let es1 = es.drop_first();
        let tail0 = seq!['\n', ']'] + rest;
        let x1 = render_entries(es1) + tail0;
        let sep = seq![',', '\n'] + x1;
        let s = render_entries(es) + tail0;
        assert(s =~= render_entry(es[0]) + sep);
        lemma_parse_entry_render(es[0], sep);
        assert(sep[0] == ',');
        assert(skip_ws(sep) == sep);
        assert(sep.drop_first() =~= seq!['\n'] + x1);
        lemma_parse_entries_render(es1, rest);
        let wn = seq!['\n'];
        assert(forall|i: int| 0 <= i < wn.len() ==> is_ws(#[trigger] wn[i]));
        lemma_parse_entries_ws(wn, x1);
        assert(sep.drop_first().len() < s.len());
        assert(parse_entries(s) == prepend_entry(es[0], Option::Some((es1, rest))));
        assert(seq![es[0]] + es1 =~= es);
    }
}

/// The round-trip law of the index file: writing any registry and reading
/// the text back yields exactly the entries that were written, in order.
#[verifier::rlimit(100)]
pub proof fn lemma_round_trip(es: Seq<CmdModel>)
    ensures
        spec_parse_index(render_index(es)) == Option::Some(es),
{
    if es.len() == 0 {
        let s = seq!['[', ']'];
        assert(render_index(es) == s);
        assert(s[0] == '[');
        assert(skip_ws(s) == s);
        assert(s.drop_first() =~= seq![']']);
        assert(skip_ws(seq![']']) == seq![']']);
        assert(seq![']'].drop_first() =~= Seq::<char>::empty());
        assert(skip_ws(Seq::<char>::empty()).len() == 0);
    } else {
        let body = render_entries(es);
        let s = render_index(es);
        let x1 = body + seq!['\n', ']'];
        let r0 = seq!['\n'] + x1;
        assert(s =~= seq!['['] + r0);
        assert(s[0] == '[');
        assert(skip_ws(s) == s);
        assert((seq!['['] + r0).drop_first() =~= r0);
        assert(expect_ch(s, '[') == Option::Some(r0));
        // The first entry opens with two spaces and a brace, so the reader,
        // having skipped the blank space, stands on `{`, not on `]`.
        assert(render_entry(es[0])[0] == ' ');
        assert(render_entry(es[0])[1] == ' ');
        assert(render_entry(es[0])[2] == '{');
        assert(body[0] == ' ');
        assert(body[1] == ' ');
        assert(body[2] == '{');
        assert(r0[0] == '\n' && r0[1] == ' ' && r0[2] == ' ' && r0[3] == '{');
        let w = seq!['\n', ' ', ' '];
        assert(r0 =~= w + r0.skip(3));
        assert(forall|i: int| 0 <= i < w.len() ==> is_ws(#[trigger] w[i]));
        lemma_skip_ws_prefix(w, r0.skip(3));
        assert(r0.skip(3)[0] == '{');
        assert(skip_ws(r0.skip(3)) == r0.skip(3));
        assert(skip_ws(r0) == r0.skip(3));
        assert(skip_ws(r0)[0] != ']');
        lemma_parse_entries_render(es, Seq::<char>::empty());
        assert(body + (seq!['\n', ']'] + Seq::<char>::empty()) =~= x1);
        assert(parse_entries(x1) == Option::Some((es, Seq::<char>::empty())));
        let wn = seq!['\n'];
        assert(forall|i: int| 0 <= i < wn.len() ==> is_ws(#[trigger] wn[i]));
        lemma_parse_entries_ws(wn, x1);
        assert(parse_entries(r0) == Option::Some((es, Seq::<char>::empty())));
        assert(skip_ws(Seq::<char>::empty()).len() == 0);
    }
}

} // verus!
