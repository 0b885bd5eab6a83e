//! The words of a grammar in Yacc format: names, quoted strings, punctuation and
//! declarations, with the place of each in the text.

use vstd::prelude::*;

verus! {

/// The kinds of words.
#[derive(Clone, Copy, Debug, PartialEq, Eq, Structural)]
pub enum TokKind {
    /// A name: a letter or `_`, followed by letters, digits and `_`.
    Name,
    /// A string between single or double quotes.
    Quoted,
    /// `:`
    Colon,
    /// `|`
    Bar,
    /// `;`
    Semi,
    /// `%%`
    Sep,
    /// `%` and a name.
    Directive,
    /// The end of the text.
    End,
    /// `%` without a name behind it.
    BadDirective,
    /// A quote that is not closed.
    BadString,
    /// A byte that begins no word.
    BadByte,
}

/// A word of the text: its kind, the span of bytes that make up its content (a name without
/// its `%`, a string without its quotes), and the position behind it.
#[derive(Clone, Copy, Debug, PartialEq, Eq, Structural)]
pub struct Tok {
    pub kind: TokKind,
    pub start: usize,
    pub end: usize,
    pub next: usize,
}

/// Whether a byte is white space.
pub open spec fn is_ws(c: u8) -> bool {
    c == 32 || c == 9 || c == 10 || c == 13
}

/// Whether a byte can begin a name.
pub open spec fn is_name_start(c: u8) -> bool {
    (97 <= c <= 122) || (65 <= c <= 90) || c == 95
}

/// Whether a byte can stand in a name.
pub open spec fn is_name_char(c: u8) -> bool {
    is_name_start(c) || (48 <= c <= 57)
}

/// The position of the first byte from `pos` on that is not white space.
pub open spec fn skip_ws(b: Seq<u8>, pos: int) -> int
    decreases b.len() - pos,
{
    if 0 <= pos < b.len() && is_ws(b[pos]) {
        skip_ws(b, pos + 1)
    } else {
        pos
    }
}

/// The position of the first byte from `pos` on that cannot stand in a name.
pub open spec fn name_end(b: Seq<u8>, pos: int) -> int
    decreases b.len() - pos,
{
    if 0 <= pos < b.len() && is_name_char(b[pos]) {
        name_end(b, pos + 1)
    } else {
        pos
    }
}

/// The position of the first byte `q` from `pos` on, or the length of the text if there is
/// none.
pub open spec fn quote_end(b: Seq<u8>, pos: int, q: u8) -> int
    decreases b.len() - pos,
{
    if 0 <= pos < b.len() && b[pos] != q {
        quote_end(b, pos + 1, q)
    } else {
        pos
    }
}

/// The word that begins at position `pos`, which is not white space.
pub open spec fn word_at(b: Seq<u8>, pos: int) -> Tok {
    let here = pos as usize;
    if pos >= b.len() {
        Tok { kind: TokKind::End, start: here, end: here, next: here }
    } else if b[pos] == 58 {
        Tok { kind: TokKind::Colon, start: here, end: (pos + 1) as usize, next: (pos + 1) as usize }
    } else if b[pos] == 124 {
        Tok { kind: TokKind::Bar, start: here, end: (pos + 1) as usize, next: (pos + 1) as usize }
    } else if b[pos] == 59 {
        Tok { kind: TokKind::Semi, start: here, end: (pos + 1) as usize, next: (pos + 1) as usize }
    } else if b[pos] == 37 {
        if pos + 1 < b.len() && b[pos + 1] == 37 {
            Tok { kind: TokKind::Sep, start: here, end: (pos + 2) as usize, next: (pos + 2) as usize }
        } else if pos + 1 < b.len() && is_name_start(b[pos + 1]) {
            Tok {
                kind: TokKind::Directive,
                start: (pos + 1) as usize,
                end: name_end(b, pos + 1) as usize,
                next: name_end(b, pos + 1) as usize,
            }
        } else {
            Tok { kind: TokKind::BadDirective, start: here, end: here, next: here }
        }
    } else if b[pos] == 39 || b[pos] == 34 {
        let close = quote_end(b, pos + 1, b[pos]);
        if close < b.len() {
            Tok { kind: TokKind::Quoted, start: (pos + 1) as usize, end: close as usize, next: (close + 1) as usize }
        } else {
            Tok { kind: TokKind::BadString, start: here, end: here, next: here }
        }
    } else if is_name_start(b[pos]) {
        Tok { kind: TokKind::Name, start: here, end: name_end(b, pos) as usize, next: name_end(b, pos) as usize }
    } else {
        Tok { kind: TokKind::BadByte, start: here, end: here, next: here }
    }
}

/// The first word from position `pos` on, behind any white space.
pub open spec fn next_word(b: Seq<u8>, pos: int) -> Tok {
    word_at(b, skip_ws(b, pos))
}

/// The scans stay within the text and do not go back.
pub proof fn lemma_scans(b: Seq<u8>, pos: int, q: u8)
    requires
        0 <= pos <= b.len(),
    ensures
        pos <= skip_ws(b, pos) <= b.len(),
        pos <= name_end(b, pos) <= b.len(),
        pos <= quote_end(b, pos, q) <= b.len(),
        pos < b.len() && is_name_char(b[pos]) ==> pos < name_end(b, pos),
    decreases b.len() - pos,
{
    if pos < b.len() {
        lemma_scans(b, pos + 1, q);
    }
}

/// A word lies within the text, behind the position from which it was looked for; and every
/// word but a bad one and the end of the text is followed by a later position.
pub proof fn lemma_next_word(b: Seq<u8>, pos: int)
    requires
        0 <= pos <= b.len(),
        b.len() <= usize::MAX,
    ensures
        pos <= next_word(b, pos).start <= next_word(b, pos).end <= next_word(b, pos).next <= b.len(),
        match next_word(b, pos).kind {
            TokKind::End | TokKind::BadDirective | TokKind::BadString | TokKind::BadByte => true,
            _ => pos < next_word(b, pos).next,
        },
        next_word(b, pos).kind == TokKind::Name || next_word(b, pos).kind == TokKind::Directive
            ==> next_word(b, pos).start < next_word(b, pos).end,
{
    lemma_scans(b, pos, 0);
    let p = skip_ws(b, pos);
    if p < b.len() {
        lemma_scans(b, p + 1, b[p]);
        lemma_scans(b, p, 0);
        if p + 1 < b.len() {
            lemma_scans(b, p + 1, 0);
        }
    }
}

/// The first word of `b` from position `pos` on, behind any white space.
pub fn lex(b: &[u8], pos: usize) -> (t: Tok)
    requires
        pos <= b@.len(),
    ensures
        t == next_word(b@, pos as int),
{
    let n = b.len();
    proof {
        lemma_next_word(b@, pos as int);
    }
    let mut p = pos;
    while p < n && byte_is_ws(b[p])
        invariant
            n == b@.len(),
            pos <= p <= n,
            skip_ws(b@, pos as int) == skip_ws(b@, p as int),
        decreases n - p,
    {
        p += 1;
    }
    if p >= n {
        return Tok { kind: TokKind::End, start: p, end: p, next: p };
    }
    let c = b[p];
    if c == 58 {
        Tok { kind: TokKind::Colon, start: p, end: p + 1, next: p + 1 }
    } else if c == 124 {
        Tok { kind: TokKind::Bar, start: p, end: p + 1, next: p + 1 }
    } else if c == 59 {
        Tok { kind: TokKind::Semi, start: p, end: p + 1, next: p + 1 }
    } else if c == 37 {
        if p + 1 < n && b[p + 1] == 37 {
            Tok { kind: TokKind::Sep, start: p, end: p + 2, next: p + 2 }
        } else if p + 1 < n && byte_is_name_start(b[p + 1]) {
            let e = scan_name(b, p + 1);
            Tok { kind: TokKind::Directive, start: p + 1, end: e, next: e }
        } else {
            Tok { kind: TokKind::BadDirective, start: p, end: p, next: p }
        }
    } else if c == 39 || c == 34 {
        let mut e = p + 1;
        while e < n && b[e] != c
            invariant
                n == b@.len(),
                p + 1 <= e <= n,
                quote_end(b@, p + 1, c) == quote_end(b@, e as int, c),
            decreases n - e,
        {
            e += 1;
        }
        if e < n {
            Tok { kind: TokKind::Quoted, start: p + 1, end: e, next: e + 1 }
        } else {
            Tok { kind: TokKind::BadString, start: p, end: p, next: p }
        }
    } else if byte_is_name_start(c) {
        let e = scan_name(b, p);
        Tok { kind: TokKind::Name, start: p, end: e, next: e }
    } else {
        Tok { kind: TokKind::BadByte, start: p, end: p, next: p }
    }
}

/// The position of the first byte from `pos` on that cannot stand in a name.
fn scan_name(b: &[u8], pos: usize) -> (e: usize)
    requires
        pos <= b@.len(),
    ensures
        e == name_end(b@, pos as int),
        pos <= e <= b@.len(),
{
    let n = b.len();
    let mut e = pos;
    while e < n && byte_is_name_char(b[e])
        invariant
            n == b@.len(),
            pos <= e <= n,
            name_end(b@, pos as int) == name_end(b@, e as int),
        decreases n - e,
    {
        e += 1;
    }
    e
}

fn byte_is_ws(c: u8) -> (r: bool)
    ensures
        r == is_ws(c),
{
    c == 32 || c == 9 || c == 10 || c == 13
}

fn byte_is_name_start(c: u8) -> (r: bool)
    ensures
        r == is_name_start(c),
{
    (97 <= c && c <= 122) || (65 <= c && c <= 90) || c == 95
}

fn byte_is_name_char(c: u8) -> (r: bool)
    ensures
        r == is_name_char(c),
{
    byte_is_name_start(c) || (48 <= c && c <= 57)
}

} // verus!
