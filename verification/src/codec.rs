//! The persistence codec: the note list is stored as one JSON string, an
//! array of `{"note_text": ..., "is_done": ...}` objects. The encoder
//! produces exactly that canonical form (no extra whitespace); the parser
//! accepts it and rejects everything else. The round-trip law — parsing an
//! encoded list gives the list back — is proved below.

use crate::state::Note;
use crate::state::NoteView;
use vstd::prelude::*;

verus! {

/// The characters the encoder writes with a two-character escape: the two
/// JSON string delimiters and the common control characters.
pub open spec fn needs_escape(c: char) -> bool {
    c == '"' || c == '\\' || c == '\n' || c == '\r' || c == '\t' || c == '\u{8}' || c == '\u{c}'
}

/// The character written after the backslash when `c` is escaped.
pub open spec fn esc_code(c: char) -> char {
    if c == '"' {
        '"'
    } else if c == '\\' {
        '\\'
    } else if c == '\n' {
        'n'
    } else if c == '\r' {
        'r'
    } else if c == '\t' {
        't'
    } else if c == '\u{8}' {
        'b'
    } else {
        'f'
    }
}

/// The character a backslash escape stands for, if the code is one the
/// parser accepts (the JSON two-character escapes).
pub open spec fn unesc_code(e: char) -> Option<char> {
    if e == '"' {
        Some('"')
    } else if e == '\\' {
        Some('\\')
    } else if e == '/' {
        Some('/')
    } else if e == 'n' {
        Some('\n')
    } else if e == 'r' {
        Some('\r')
    } else if e == 't' {
        Some('\t')
    } else if e == 'b' {
        Some('\u{8}')
    } else if e == 'f' {
        Some('\u{c}')
    } else {
        None
    }
}

/// How one character appears inside an encoded JSON string.
pub open spec fn escape_char(c: char) -> Seq<char> {
    if needs_escape(c) {
        seq!['\\', esc_code(c)]
    } else {
        seq![c]
    }
}

/// How a whole text appears inside an encoded JSON string.
pub open spec fn escape_string(s: Seq<char>) -> Seq<char>
    decreases s.len(),
{
    if s.len() == 0 {
        Seq::empty()
    } else {
        escape_char(s[0]) + escape_string(s.drop_first())
    }
}

/// Parse the body of a JSON string, after its opening quote: the decoded
/// text and what follows the closing quote, or `None` if the input ends
/// before a closing quote or holds an unknown escape.
pub open spec fn parse_string_body(s: Seq<char>) -> Option<(Seq<char>, Seq<char>)>
    decreases s.len(),
{
    if s.len() == 0 {
        None
    } else if s[0] == '"' {
        Some((Seq::empty(), s.drop_first()))
    } else if s[0] == '\\' {
        if s.len() == 1 {
            None
        } else {
            match unesc_code(s[1]) {
                Some(c) => match parse_string_body(s.skip(2)) {
                    Some(pr) => Some((seq![c] + pr.0, pr.1)),
                    None => None,
                },
                None => None,
            }
        }
    } else {
        match parse_string_body(s.drop_first()) {
            Some(pr) => Some((seq![s[0]] + pr.0, pr.1)),
            None => None,
        }
    }
}

/// Escaping a text and closing the string with a quote parses back to
/// exactly that text, whatever follows the quote.
pub proof fn lemma_parse_escaped(s: Seq<char>, rest: Seq<char>)
    ensures
        parse_string_body(escape_string(s) + seq!['"'] + rest) == Some((s, rest)),
    decreases s.len(),
{
    let total = escape_string(s) + seq!['"'] + rest;
    if s.len() == 0 {
        assert(total =~= seq!['"'] + rest);
        assert(total[0] == '"');
        assert(total.drop_first() =~= rest);
    } else {
        let c = s[0];
        let tail = s.drop_first();
        let w = escape_string(tail) + seq!['"'] + rest;
        lemma_parse_escaped(tail, rest);
        if needs_escape(c) {
            assert(total =~= seq!['\\', esc_code(c)] + w);
            assert(total[0] == '\\' && total[1] == esc_code(c));
            assert(unesc_code(esc_code(c)) == Some(c));
            assert(total.skip(2) =~= w);
            assert(seq![c] + tail =~= s);
        } else {
            assert(total =~= seq![c] + w);
            assert(total[0] == c && c != '"' && c != '\\');
            assert(total.drop_first() =~= w);
            assert(seq![c] + tail =~= s);
        }
    }
}

/// The opening of a note object, up to and including the quote that opens
/// the text: `{"note_text":"`.
pub open spec fn key_prefix() -> Seq<char> {
    seq!['{', '"', 'n', 'o', 't', 'e', '_', 't', 'e', 'x', 't', '"', ':', '"']
}

/// Between the text's closing quote and the flag: `,"is_done":`.
pub open spec fn done_key() -> Seq<char> {
    seq![',', '"', 'i', 's', '_', 'd', 'o', 'n', 'e', '"', ':']
}

/// The end of a note object whose flag is set: `true}`.
pub open spec fn true_end() -> Seq<char> {
    seq!['t', 'r', 'u', 'e', '}']
}

/// The end of a note object whose flag is clear: `false}`.
pub open spec fn false_end() -> Seq<char> {
    seq!['f', 'a', 'l', 's', 'e', '}']
}

/// How one note is encoded.
pub open spec fn encode_note(n: NoteView) -> Seq<char> {
    key_prefix() + escape_string(n.text) + seq!['"'] + done_key() + (if n.done {
        true_end()
    } else {
        false_end()
    })
}

/// How a non-empty list of notes is encoded: the encoded notes joined by
/// commas.
pub open spec fn encode_items(l: Seq<NoteView>) -> Seq<char>
    decreases l.len(),
{
    if l.len() == 0 {
        Seq::empty()
    } else if l.len() == 1 {
        encode_note(l[0])
    } else {
        encode_note(l[0]) + seq![','] + encode_items(l.drop_first())
    }
}

/// How a whole list is encoded: the joined notes between brackets.
pub open spec fn encode_list(l: Seq<NoteView>) -> Seq<char> {
    seq!['['] + encode_items(l) + seq![']']
}

/// Parse the tail of a note object, after `,"is_done":`: the flag and the
/// closing brace, then whatever follows.
pub open spec fn parse_done(text: Seq<char>, s: Seq<char>) -> Option<(NoteView, Seq<char>)> {
    if s.len() >= 5 && s.take(5) == true_end() {
        Some((NoteView { text, done: true }, s.skip(5)))
    } else if s.len() >= 6 && s.take(6) == false_end() {
        Some((NoteView { text, done: false }, s.skip(6)))
    } else {
        None
    }
}

/// Parse one note object at the front of `s`: the note and what follows
/// its closing brace.
pub open spec fn parse_note(s: Seq<char>) -> Option<(NoteView, Seq<char>)> {
    if s.len() >= 14 && s.take(14) == key_prefix() {
        match parse_string_body(s.skip(14)) {
            Some(pr) => {
                if pr.1.len() >= 11 && pr.1.take(11) == done_key() {
                    parse_done(pr.0, pr.1.skip(11))
                } else {
                    None
                }
            },
            None => None,
        }
    } else {
        None
    }
}

/// A successful string-body parse consumes at least the closing quote.
proof fn lemma_parse_string_body_shrinks(s: Seq<char>)
    ensures
        parse_string_body(s) matches Some(pr) ==> pr.1.len() < s.len(),
    decreases s.len(),
{
    if s.len() == 0 {
    } else if s[0] == '"' {
    } else if s[0] == '\\' {
        if s.len() > 1 && unesc_code(s[1]) is Some {
            lemma_parse_string_body_shrinks(s.skip(2));
        }
    } else {
        lemma_parse_string_body_shrinks(s.drop_first());
    }
}

/// A successful note parse consumes at least one character.
proof fn lemma_parse_note_shrinks(s: Seq<char>)
    ensures
        parse_note(s) matches Some(pr) ==> pr.1.len() < s.len(),
{
    if s.len() >= 14 && s.take(14) == key_prefix() {
        lemma_parse_string_body_shrinks(s.skip(14));
    }
}

/// Parse a comma-separated run of note objects closed by the final `]`,
/// with nothing allowed after it.
pub open spec fn parse_items(s: Seq<char>) -> Option<Seq<NoteView>>
    decreases s.len(),
    via parse_items_decreases
{
    match parse_note(s) {
        Some(pr) => {
            if pr.1.len() == 1 && pr.1[0] == ']' {
                Some(seq![pr.0])
            } else if pr.1.len() >= 1 && pr.1[0] == ',' {
                match parse_items(pr.1.skip(1)) {
                    Some(l) => Some(seq![pr.0] + l),
                    None => None,
                }
            } else {
                None
            }
        },
        None => None,
    }
}

#[via_fn]
proof fn parse_items_decreases(s: Seq<char>) {
    lemma_parse_note_shrinks(s);
}

/// Parse a whole stored value: `[]`, or `[` followed by at least one note.
pub open spec fn parse_list(s: Seq<char>) -> Option<Seq<NoteView>> {
    if s.len() == 2 && s[0] == '[' && s[1] == ']' {
        Some(Seq::empty())
    } else if s.len() >= 1 && s[0] == '[' {
        parse_items(s.skip(1))
    } else {
        None
    }
}

/// An encoded note followed by anything parses back to exactly that note.
proof fn lemma_parse_note_of_encode(n: NoteView, rest: Seq<char>)
    ensures
        parse_note(encode_note(n) + rest) == Some((n, rest)),
{
    let s = encode_note(n) + rest;
    let end = if n.done {
        true_end()
    } else {
        false_end()
    };
    let after_text = done_key() + end + rest;
    assert(s =~= key_prefix() + (escape_string(n.text) + seq!['"'] + after_text));
    assert(s.take(14) =~= key_prefix());
    assert(s.skip(14) =~= escape_string(n.text) + seq!['"'] + after_text);
    lemma_parse_escaped(n.text, after_text);
    assert(after_text.take(11) =~= done_key());
    let flag = end + rest;
    assert(after_text.skip(11) =~= flag);
    if n.done {
        assert(flag.take(5) =~= true_end());
        assert(flag.skip(5) =~= rest);
        assert(NoteView { text: n.text, done: true } =~= n);
    } else {
        assert(flag.take(5)[0] == 'f');
        assert(flag.take(5) != true_end()) by {
            assert(true_end()[0] == 't');
        }
        assert(flag.take(6) =~= false_end());
        assert(flag.skip(6) =~= rest);
        assert(NoteView { text: n.text, done: false } =~= n);
    }
}

/// A non-empty encoded run of notes, closed by `]`, parses back to exactly
/// those notes.
proof fn lemma_parse_items_of_encode(l: Seq<NoteView>)
    requires
        l.len() >= 1,
    ensures
        parse_items(encode_items(l) + seq![']']) == Some(l),
    decreases l.len(),
{
    let s = encode_items(l) + seq![']'];
    if l.len() == 1 {
        lemma_parse_note_of_encode(l[0], seq![']']);
        assert(seq![l[0]] =~= l);
    } else {
        let tail = l.drop_first();
        let r = seq![','] + encode_items(tail) + seq![']'];
        assert(s =~= encode_note(l[0]) + r);
        lemma_parse_note_of_encode(l[0], r);
        assert(encode_items(tail).len() >= encode_note(tail[0]).len());
        assert(encode_note(tail[0]).len() >= key_prefix().len());
        assert(r[0] == ',');
        assert(r.len() > 1);
        lemma_parse_items_of_encode(tail);
        assert(r.skip(1) =~= encode_items(tail) + seq![']']);
        assert(seq![l[0]] + tail =~= l);
    }
}

/// The round-trip law: parsing an encoded list gives back exactly that
/// list, order and field values preserved.
pub proof fn lemma_save_load_round_trip(l: Seq<NoteView>)
    ensures
        parse_list(encode_list(l)) == Some(l),
{
    let s = encode_list(l);
    if l.len() == 0 {
        assert(s =~= seq!['[', ']']);
    } else {
        assert(encode_note(l[0]).len() >= key_prefix().len());
        assert(encode_items(l).len() >= encode_note(l[0]).len());
        assert(s.len() >= 16);
        assert(s[0] == '[');
        lemma_parse_items_of_encode(l);
        assert(s.skip(1) =~= encode_items(l) + seq![']']);
    }
}

/// Appending one character to a text appends its escape to the escaped
/// form.
proof fn lemma_escape_push(s: Seq<char>, x: char)
    ensures
        escape_string(s.push(x)) == escape_string(s) + escape_char(x),
    decreases s.len(),
{
    let p = s.push(x);
    if s.len() == 0 {
        assert(p.drop_first() =~= Seq::<char>::empty());
        assert(escape_char(x) + escape_string(Seq::<char>::empty()) =~= escape_char(x));
        assert(escape_string(s) + escape_char(x) =~= escape_char(x));
    } else {
        assert(p[0] == s[0]);
        assert(p.drop_first() =~= s.drop_first().push(x));
        lemma_escape_push(s.drop_first(), x);
        assert(escape_char(p[0]) + (escape_string(s.drop_first()) + escape_char(x)) =~= (
        escape_char(s[0]) + escape_string(s.drop_first())) + escape_char(x));
    }
}

/// Appending one note to a list appends its encoding (after a comma, when
/// the list was non-empty) to the joined encoding.
proof fn lemma_encode_items_push(l: Seq<NoteView>, x: NoteView)
    ensures
        encode_items(l.push(x)) == if l.len() == 0 {
            encode_note(x)
        } else {
            encode_items(l) + seq![','] + encode_note(x)
        },
    decreases l.len(),
{
    let p = l.push(x);
    if l.len() == 0 {
        assert(p.len() == 1 && p[0] == x);
    } else if l.len() == 1 {
        assert(p[0] == l[0]);
        assert(p.drop_first() =~= seq![x]);
        assert(encode_items(p.drop_first()) == encode_note(x));
    } else {
        assert(p[0] == l[0]);
        assert(p.drop_first() =~= l.drop_first().push(x));
        lemma_encode_items_push(l.drop_first(), x);
        assert(encode_note(p[0]) + seq![','] + (encode_items(l.drop_first()) + seq![',']
            + encode_note(x)) =~= (encode_note(l[0]) + seq![','] + encode_items(l.drop_first()))
            + seq![','] + encode_note(x));
    }
}

/// The characters of `s`, in order.
fn chars_of_str(s: &str) -> (r: Vec<char>)
    ensures
        r@ == s@,
{
    let n = s.unicode_len();
    let mut v: Vec<char> = Vec::new();
    let mut i: usize = 0;
    while i < n
        invariant
            i <= n,
            n == s@.len(),
            v@ == s@.take(i as int),
        decreases n - i,
    {
        let c = s.get_char(i);
        v.push(c);
        proof {
            assert(v@ =~= s@.take(i + 1));
        }
        i = i + 1;
    }
    proof {
        assert(s@.take(n as int) =~= s@);
    }
    v
}

/// Relies on `String`'s `FromIterator` over characters: collecting builds
/// the string of exactly those characters, in order.
#[verifier::external_body]
fn string_from_chars(cs: &Vec<char>) -> (r: String)
    ensures
        r@ == cs@,
{
    cs.iter().collect()
}

/// The characters of `{"note_text":"`, as a vector.
fn key_prefix_chars() -> (v: Vec<char>)
    ensures
        v@ == key_prefix(),
{
    let mut v: Vec<char> = Vec::new();
    v.push('{');
    v.push('"');
    v.push('n');
    v.push('o');
    v.push('t');
    v.push('e');
    v.push('_');
    v.push('t');
    v.push('e');
    v.push('x');
    v.push('t');
    v.push('"');
    v.push(':');
    v.push('"');
    proof {
        assert(v@ =~= key_prefix());
    }
    v
}

/// The characters of `,"is_done":`, as a vector.
fn done_key_chars() -> (v: Vec<char>)
    ensures
        v@ == done_key(),
{
    let mut v: Vec<char> = Vec::new();
    v.push(',');
    v.push('"');
    v.push('i');
    v.push('s');
    v.push('_');
    v.push('d');
    v.push('o');
    v.push('n');
    v.push('e');
    v.push('"');
    v.push(':');
    proof {
        assert(v@ =~= done_key());
    }
    v
}

/// The characters of `true}`, as a vector.
fn true_end_chars() -> (v: Vec<char>)
    ensures
        v@ == true_end(),
{
    let mut v: Vec<char> = Vec::new();
    v.push('t');
    v.push('r');
    v.push('u');
    v.push('e');
    v.push('}');
    proof {
        assert(v@ =~= true_end());
    }
    v
}

/// The characters of `false}`, as a vector.
fn false_end_chars() -> (v: Vec<char>)
    ensures
        v@ == false_end(),
{
    let mut v: Vec<char> = Vec::new();
    v.push('f');
    v.push('a');
    v.push('l');
    v.push('s');
    v.push('e');
    v.push('}');
    proof {
        assert(v@ =~= false_end());
    }
    v
}

/// Whether the encoder escapes `c`.
fn escape_needed(c: char) -> (b: bool)
    ensures
        b == needs_escape(c),
{
    c == '"' || c == '\\' || c == '\n' || c == '\r' || c == '\t' || c == '\u{8}' || c == '\u{c}'
}

/// The character written after the backslash for an escaped `c`.
fn escape_code(c: char) -> (r: char)
    ensures
        r == esc_code(c),
{
    if c == '"' {
        '"'
    } else if c == '\\' {
        '\\'
    } else if c == '\n' {
        'n'
    } else if c == '\r' {
        'r'
    } else if c == '\t' {
        't'
    } else if c == '\u{8}' {
        'b'
    } else {
        'f'
    }
}

/// Append the escaped form of `text` to `out`.
fn push_escaped(out: &mut Vec<char>, text: &Vec<char>)
    ensures
        final(out)@ == old(out)@ + escape_string(text@),
{
    let mut j: usize = 0;
    while j < text.len()
        invariant
            j <= text@.len(),
            out@ == old(out)@ + escape_string(text@.take(j as int)),
        decreases text@.len() - j,
    {
        let c = text[j];
        if escape_needed(c) {
            out.push('\\');
            out.push(escape_code(c));
        } else {
            out.push(c);
        }
        proof {
            lemma_escape_push(text@.take(j as int), text@[j as int]);
            assert(text@.take(j + 1) =~= text@.take(j as int).push(text@[j as int]));
            assert(out@ =~= old(out)@ + escape_string(text@.take(j + 1)));
        }
        j = j + 1;
    }
    proof {
        assert(text@.take(text@.len() as int) =~= text@);
    }
}

/// Append the encoding of one note to `out`.
fn push_note(out: &mut Vec<char>, n: &Note)
    ensures
        final(out)@ == old(out)@ + encode_note(n@),
{
    let mut kp = key_prefix_chars();
    out.append(&mut kp);
    let text_chars = chars_of_str(n.text.as_str());
    push_escaped(out, &text_chars);
    out.push('"');
    let mut dk = done_key_chars();
    out.append(&mut dk);
    if n.done {
        let mut e = true_end_chars();
        out.append(&mut e);
    } else {
        let mut e = false_end_chars();
        out.append(&mut e);
    }
    proof {
        assert(out@ =~= old(out)@ + encode_note(n@));
    }
}

/// The encoding of a whole note list, as a vector of characters.
fn encode_chars(notes: &Vec<Note>) -> (out: Vec<char>)
    ensures
        out@ == encode_list(notes.deep_view()),
{
    let ghost l = notes.deep_view();
    let mut out: Vec<char> = Vec::new();
    out.push('[');
    proof {
        assert(out@ =~= seq!['['] + encode_items(l.take(0)));
    }
    let mut i: usize = 0;
    while i < notes.len()
        invariant
            i <= notes@.len(),
            l == notes.deep_view(),
            l.len() == notes@.len(),
            out@ == seq!['['] + encode_items(l.take(i as int)),
        decreases notes@.len() - i,
    {
        if i > 0 {
            out.push(',');
        }
        push_note(&mut out, &notes[i]);
        proof {
            lemma_encode_items_push(l.take(i as int), l[i as int]);
            assert(l.take(i + 1) =~= l.take(i as int).push(l[i as int]));
            assert(out@ =~= seq!['['] + encode_items(l.take(i + 1)));
        }
        i = i + 1;
    }
    out.push(']');
    proof {
        assert(l.take(l.len() as int) =~= l);
        assert(out@ =~= encode_list(l));
    }
    out
}

/// The stored form of a note list: the canonical JSON string.
pub fn save(notes: &Vec<Note>) -> (s: String)
    ensures
        s@ == encode_list(notes.deep_view()),
{
    let cs = encode_chars(notes);
    string_from_chars(&cs)
}

/// Whether `s` begins with the characters of `p`.
fn starts_with_chars(s: &[char], p: &[char]) -> (b: bool)
    ensures
        b == (s@.len() >= p@.len() && s@.take(p@.len() as int) == p@),
{
    if s.len() < p.len() {
        return false;
    }
    let mut j: usize = 0;
    while j < p.len()
        invariant
            j <= p@.len(),
            p@.len() <= s@.len(),
            forall|k: int| 0 <= k < j ==> s@[k] == p@[k],
        decreases p@.len() - j,
    {
        if s[j] != p[j] {
            proof {
                assert(s@.take(p@.len() as int)[j as int] == s@[j as int]);
            }
            return false;
        }
        j = j + 1;
    }
    proof {
        assert(s@.take(p@.len() as int) =~= p@);
    }
    true
}

/// The character a backslash escape stands for, if any.
fn unescape_code(e: char) -> (r: Option<char>)
    ensures
        r == unesc_code(e),
{
    if e == '"' {
        Some('"')
    } else if e == '\\' {
        Some('\\')
    } else if e == '/' {
        Some('/')
    } else if e == 'n' {
        Some('\n')
    } else if e == 'r' {
        Some('\r')
    } else if e == 't' {
        Some('\t')
    } else if e == 'b' {
        Some('\u{8}')
    } else if e == 'f' {
        Some('\u{c}')
    } else {
        None
    }
}

/// Parse a JSON string body, after its opening quote: the decoded text and
/// the characters after the closing quote.
fn parse_string_x<'a>(s: &'a [char]) -> (r: Option<(Vec<char>, &'a [char])>)
    ensures
        match r {
            Some(pr) => parse_string_body(s@) == Some((pr.0@, pr.1@)),
            None => parse_string_body(s@) is None,
        },
    decreases s@.len(),
{
    if s.len() == 0 {
        return None;
    }
    let c = s[0];
    if c == '"' {
        let rest = &s[1..s.len()];
        proof {
            assert(rest@ =~= s@.drop_first());
        }
        Some((Vec::new(), rest))
    } else if c == '\\' {
        if s.len() == 1 {
            return None;
        }
        match unescape_code(s[1]) {
            None => None,
            Some(c2) => {
                let body = &s[2..s.len()];
                proof {
                    assert(body@ =~= s@.skip(2));
                }
                match parse_string_x(body) {
                    None => None,
                    Some((mut t, rest)) => {
                        let ghost prev = t@;
                        t.insert(0, c2);
                        proof {
                            assert(t@ =~= seq![c2] + prev);
                        }
                        Some((t, rest))
                    },
                }
            },
        }
    } else {
        let body = &s[1..s.len()];
        proof {
            assert(body@ =~= s@.drop_first());
        }
        match parse_string_x(body) {
            None => None,
            Some((mut t, rest)) => {
                let ghost prev = t@;
                t.insert(0, c);
                proof {
                    assert(t@ =~= seq![c] + prev);
                }
                Some((t, rest))
            },
        }
    }
}

/// Parse one note object at the front of `s`.
fn parse_note_x<'a>(s: &'a [char]) -> (r: Option<(Note, &'a [char])>)
    ensures
        match r {
            Some(pr) => parse_note(s@) == Some((pr.0@, pr.1@)),
            None => parse_note(s@) is None,
        },
{
    let kp = key_prefix_chars();
    if !starts_with_chars(s, kp.as_slice()) {
        return None;
    }
    let body = &s[14..s.len()];
    proof {
        assert(body@ =~= s@.skip(14));
    }
    match parse_string_x(body) {
        None => None,
        Some((t, rest)) => {
            let dk = done_key_chars();
            if !starts_with_chars(rest, dk.as_slice()) {
                return None;
            }
            let after = &rest[11..rest.len()];
            proof {
                assert(after@ =~= rest@.skip(11));
            }
            let te = true_end_chars();
            let fe = false_end_chars();
            if starts_with_chars(after, te.as_slice()) {
                let tail = &after[5..after.len()];
                proof {
                    assert(tail@ =~= after@.skip(5));
                }
                let text = string_from_chars(&t);
                Some((Note { text, done: true }, tail))
            } else if starts_with_chars(after, fe.as_slice()) {
                let tail = &after[6..after.len()];
                proof {
                    assert(tail@ =~= after@.skip(6));
                }
                let text = string_from_chars(&t);
                Some((Note { text, done: false }, tail))
            } else {
                None
            }
        },
    }
}

/// Parse a comma-separated run of note objects closed by the final `]`.
fn parse_items_x(s: &[char]) -> (r: Option<Vec<Note>>)
    ensures
        match r {
            Some(v) => parse_items(s@) == Some(v.deep_view()),
            None => parse_items(s@) is None,
        },
    decreases s@.len(),
{
    match parse_note_x(s) {
        None => None,
        Some((note, rest)) => {
            if rest.len() == 1 && rest[0] == ']' {
                let mut v: Vec<Note> = Vec::new();
                v.push(note);
                proof {
                    assert(v.deep_view() =~= seq![note@]);
                }
                Some(v)
            } else if rest.len() >= 1 && rest[0] == ',' {
                proof {
                    lemma_parse_note_shrinks(s@);
                }
                let nxt = &rest[1..rest.len()];
                proof {
                    assert(nxt@ =~= rest@.skip(1));
                }
                match parse_items_x(nxt) {
                    None => None,
                    Some(mut v) => {
                        let ghost prev = v.deep_view();
                        v.insert(0, note);
                        proof {
                            assert(v.deep_view() =~= seq![note@] + prev);
                        }
                        Some(v)
                    },
                }
            } else {
                None
            }
        },
    }
}

/// Parse a whole stored value.
fn parse_list_x(s: &[char]) -> (r: Option<Vec<Note>>)
    ensures
        match r {
            Some(v) => parse_list(s@) == Some(v.deep_view()),
            None => parse_list(s@) is None,
        },
{
    if s.len() == 2 && s[0] == '[' && s[1] == ']' {
        let v: Vec<Note> = Vec::new();
        proof {
            assert(v.deep_view() =~= Seq::<NoteView>::empty());
        }
        Some(v)
    } else if s.len() >= 1 && s[0] == '[' {
        let t = &s[1..s.len()];
        proof {
            assert(t@ =~= s@.skip(1));
        }
        parse_items_x(t)
    } else {
        None
    }
}

/// Parse a stored string into a note list; `None` when the string is not a
/// value the encoder could have written.
pub fn parse_notes(s: &str) -> (r: Option<Vec<Note>>)
    ensures
        match r {
            Some(v) => parse_list(s@) == Some(v.deep_view()),
            None => parse_list(s@) is None,
        },
{
    let cs = chars_of_str(s);
    parse_list_x(cs.as_slice())
}

/// The stored value as the parser sees it.
pub open spec fn stored_view(stored: Option<&str>) -> Option<Seq<char>> {
    match stored {
        Some(s) => Some(s@),
        None => None,
    }
}

/// What loading yields: nothing stored or a corrupt value gives the empty
/// list, otherwise the parsed list.
pub open spec fn loaded_notes(stored: Option<Seq<char>>) -> Seq<NoteView> {
    match stored {
        None => Seq::empty(),
        Some(s) => match parse_list(s) {
            Some(l) => l,
            None => Seq::empty(),
        },
    }
}

/// Whether a stored value was present but unparsable.
pub open spec fn load_corrupt(stored: Option<Seq<char>>) -> bool {
    match stored {
        None => false,
        Some(s) => parse_list(s) is None,
    }
}

/// Load the note list from a stored value, if one was present. The flag
/// reports a present-but-corrupt value, which is discarded in favour of
/// the empty list so the caller can log it.
pub fn load(stored: Option<&str>) -> (r: (Vec<Note>, bool))
    ensures
        r.0.deep_view() == loaded_notes(stored_view(stored)),
        r.1 == load_corrupt(stored_view(stored)),
{
    match stored {
        None => {
            let v: Vec<Note> = Vec::new();
            proof {
                assert(v.deep_view() =~= Seq::<NoteView>::empty());
            }
            (v, false)
        },
        Some(s) => match parse_notes(s) {
            Some(v) => (v, false),
            None => {
                let v: Vec<Note> = Vec::new();
                proof {
                    assert(v.deep_view() =~= Seq::<NoteView>::empty());
                }
                (v, true)
            },
        },
    }
}

} // verus!
