//! The canonical text of commits and trees, and its reading.

use crate::commit::{hash_texts, Commit, CommitView};
use crate::directory::{
    has_path, hashes_valid, lemma_pairs_insert, pairs_map, pairs_of, sorted_by_path, BlobRef,
    Directory,
};
use crate::hash::is_hash_text;
use crate::text::{lemma_text_lt_irreflexive, same_text, text_lt};
use crate::text::{chars_of, same_chars, text_of_chars, text_of_utf8};
use vstd::prelude::*;
use vstd::slice::slice_to_vec;
use vstd::string::*;
use vstd::utf8::*;

verus! {

/// One lexical unit of the canonical text of a stored record.
#[derive(Debug, PartialEq, Eq)]
pub enum Token {
    /// One of the six structural characters.
    Punct(char),
    /// A quoted text, held without its quotes and escapes.
    Text(String),
}

/// The mathematical value of a token.
pub enum TokenView {
    Punct(char),
    Text(Seq<char>),
}

impl View for Token {
    type V = TokenView;

    open spec fn view(&self) -> TokenView {
        match self {
            Token::Punct(c) => TokenView::Punct(*c),
            Token::Text(s) => TokenView::Text(s@),
        }
    }
}

/// The values of a vector of tokens.
pub open spec fn token_views(v: Seq<Token>) -> Seq<TokenView> {
    Seq::new(v.len(), |i: int| v[i]@)
}

/// `c` is one of the structural characters of a record.
pub open spec fn is_punct(c: char) -> bool {
    c == '{' || c == '}' || c == '[' || c == ']' || c == ':' || c == ','
}

/// The lowercase hexadecimal digit for `d`.
pub open spec fn hex_digit_of(d: int) -> char {
    if d < 10 {
        (48 + d) as char
    } else {
        (87 + d) as char
    }
}

/// The value of a lowercase hexadecimal digit, or -1.
pub open spec fn hex_value(c: char) -> int {
    if '0' <= c && c <= '9' {
        (c as u32) - 48
    } else if 'a' <= c && c <= 'f' {
        (c as u32) - 87
    } else {
        -1
    }
}

/// `c` is written as a backslash and one letter.
pub open spec fn has_short_escape(c: char) -> bool {
    c == '"' || c == '\\' || c == '\n' || c == '\r' || c == '\t' || c as u32 == 8 || c as u32
        == 12
}

/// The letter that follows the backslash in the short escape of `c`.
pub open spec fn short_escape(c: char) -> char {
    if c == '\n' {
        'n'
    } else if c == '\r' {
        'r'
    } else if c == '\t' {
        't'
    } else if c as u32 == 8 {
        'b'
    } else if c as u32 == 12 {
        'f'
    } else {
        c
    }
}

/// How one character is written inside quotes: the quote, the backslash and
/// the control characters are escaped, every other character stands for
/// itself.
pub open spec fn escape_char(c: char) -> Seq<char> {
    if has_short_escape(c) {
        seq!['\\', short_escape(c)]
    } else if (c as u32) < 32 {
        seq![
            '\\',
            'u',
            '0',
            '0',
            hex_digit_of((c as u32) as int / 16),
            hex_digit_of((c as u32) as int % 16),
        ]
    } else {
        seq![c]
    }
}

/// A text with every character escaped.
pub open spec fn escape(s: Seq<char>) -> Seq<char>
    decreases s.len(),
{
    if s.len() == 0 {
        Seq::empty()
    } else {
        escape_char(s[0]) + escape(s.drop_first())
    }
}

/// A text as it is written in a record: escaped, between quotes.
pub open spec fn quoted(s: Seq<char>) -> Seq<char> {
    seq!['"'] + escape(s) + seq!['"']
}

/// How a token is written.
pub open spec fn render_token(t: TokenView) -> Seq<char> {
    match t {
        TokenView::Punct(c) => seq![c],
        TokenView::Text(v) => quoted(v),
    }
}

/// How a sequence of tokens is written: one after the other, with nothing in
/// between.
pub open spec fn render(ts: Seq<TokenView>) -> Seq<char>
    decreases ts.len(),
{
    if ts.len() == 0 {
        Seq::empty()
    } else {
        render_token(ts[0]) + render(ts.drop_first())
    }
}

/// Every punctuation token holds a structural character.
pub open spec fn tokens_valid(ts: Seq<TokenView>) -> bool {
    forall|i: int|
        0 <= i < ts.len() ==> ((#[trigger] ts[i]) matches TokenView::Punct(c) ==> is_punct(c))
}

/// The character that the escape at position `i` stands for, and how many
/// characters the escape takes.
pub open spec fn unescape_at(s: Seq<char>, i: int) -> Option<(char, int)> {
    if i < 0 || i >= s.len() {
        None
    } else if s[i] == '\\' {
        if i + 1 >= s.len() {
            None
        } else {
            let e = s[i + 1];
            if e == '"' || e == '\\' {
                Some((e, 2))
            } else if e == 'n' {
                Some(('\n', 2))
            } else if e == 'r' {
                Some(('\r', 2))
            } else if e == 't' {
                Some(('\t', 2))
            } else if e == 'b' {
                Some((8u8 as char, 2))
            } else if e == 'f' {
                Some((12u8 as char, 2))
            } else if e == 'u' {
                if i + 5 >= s.len() || s[i + 2] != '0' || s[i + 3] != '0' {
                    None
                } else {
                    let hi = hex_value(s[i + 4]);
                    let lo = hex_value(s[i + 5]);
                    if hi < 0 || hi > 1 || lo < 0 {
                        None
                    } else if has_short_escape(((hi * 16 + lo) as u8) as char) {
                        None
                    } else {
                        Some((((hi * 16 + lo) as u8) as char, 6))
                    }
                }
            } else {
                None
            }
        }
    } else if s[i] == '"' || (s[i] as u32) < 32 {
        None
    } else {
        Some((s[i], 1))
    }
}

/// The text whose escaped form starts at position `i`, read up to the closing
/// quote, and the position after that quote.
pub open spec fn scan(s: Seq<char>, i: int) -> Option<(Seq<char>, int)>
    decreases s.len() - i,
{
    if i < 0 || i >= s.len() {
        None
    } else if s[i] == '"' {
        Some((Seq::empty(), i + 1))
    } else {
        match unescape_at(s, i) {
            Some((c, n)) => if n <= 0 {
                None
            } else {
                match scan(s, i + n) {
                    Some((rest, end)) => Some((seq![c] + rest, end)),
                    None => None,
                }
            },
            None => None,
        }
    }
}

/// The tokens that the text is made of from position `i` on, if it is made of
/// tokens and nothing else.
pub open spec fn tokens_from(s: Seq<char>, i: int) -> Option<Seq<TokenView>>
    decreases s.len() - i,
{
    if i < 0 {
        None
    } else if i >= s.len() {
        Some(Seq::empty())
    } else if is_punct(s[i]) {
        match tokens_from(s, i + 1) {
            Some(r) => Some(seq![TokenView::Punct(s[i])] + r),
            None => None,
        }
    } else if s[i] == '"' {
        let found = scan(s, i + 1);
        if found is None || (found->0).1 <= i || (found->0).1 > s.len() {
            None
        } else {
            match tokens_from(s, (found->0).1) {
                Some(r) => Some(seq![TokenView::Text((found->0).0)] + r),
                None => None,
            }
        }
    } else {
        None
    }
}

/// The tokens of a whole text.
pub open spec fn tokens_of(s: Seq<char>) -> Option<Seq<TokenView>> {
    tokens_from(s, 0)
}

/// `part` stands in `s` at position `i`.
pub open spec fn stands_at(s: Seq<char>, i: int, part: Seq<char>) -> bool {
    &&& 0 <= i
    &&& i + part.len() <= s.len()
    &&& s.subrange(i, i + part.len()) == part
}

proof fn lemma_stands_split(s: Seq<char>, i: int, a: Seq<char>, b: Seq<char>)
    requires
        stands_at(s, i, a + b),
    ensures
        stands_at(s, i, a),
        stands_at(s, i + a.len(), b),
{
    let whole = a + b;
    assert(s.subrange(i, i + a.len()) =~= whole.subrange(0, a.len() as int));
    assert(whole.subrange(0, a.len() as int) =~= a);
    assert(s.subrange(i + a.len(), i + a.len() + b.len()) =~= whole.subrange(
        a.len() as int,
        whole.len() as int,
    ));
    assert(whole.subrange(a.len() as int, whole.len() as int) =~= b);
}

proof fn lemma_stands_index(s: Seq<char>, i: int, part: Seq<char>, k: int)
    requires
        stands_at(s, i, part),
        0 <= k < part.len(),
    ensures
        s[i + k] == part[k],
{
    assert(s.subrange(i, i + part.len())[k] == s[i + k]);
}

/// An escape reads back as the character it was written for.
proof fn lemma_unescape_escaped(s: Seq<char>, i: int, c: char)
    requires
        stands_at(s, i, escape_char(c)),
    ensures
        unescape_at(s, i) == Some((c, escape_char(c).len() as int)),
        s[i] != '"',
{
    let e = escape_char(c);
    assert forall|k: int| 0 <= k < e.len() implies s[i + k] == e[k] by {
        lemma_stands_index(s, i, e, k);
    }
    if has_short_escape(c) {
        assert(s[i] == e[0]);
        assert(s[i + 1] == e[1]);
    } else if (c as u32) < 32 {
        let v = (c as u32) as int;
        assert(s[i] == e[0]);
        assert(s[i + 1] == e[1]);
        assert(s[i + 2] == e[2]);
        assert(s[i + 3] == e[3]);
        assert(s[i + 4] == e[4]);
        assert(s[i + 5] == e[5]);
        assert(hex_value(hex_digit_of(v / 16)) == v / 16);
        assert(hex_value(hex_digit_of(v % 16)) == v % 16);
        assert((v / 16) * 16 + v % 16 == v);
        assert(((v as u8) as char) == c);
    } else {
        assert(s[i] == e[0]);
    }
}

/// An escaped text followed by a quote reads back as the text.
proof fn lemma_scan_escaped(s: Seq<char>, i: int, v: Seq<char>)
    requires
        stands_at(s, i, escape(v) + seq!['"']),
    ensures
        scan(s, i) == Some((v, i + escape(v).len() + 1)),
    decreases v.len(),
{
    let q = seq!['"'];
    lemma_stands_split(s, i, escape(v), q);
    if v.len() == 0 {
        lemma_stands_index(s, i, q, 0);
    } else {
        let e = escape_char(v[0]);
        let rest = v.drop_first();
        lemma_stands_split(s, i, e, escape(rest));
        lemma_unescape_escaped(s, i, v[0]);
        assert(escape(v) + q =~= e + (escape(rest) + q));
        lemma_stands_split(s, i, e, escape(rest) + q);
        lemma_scan_escaped(s, i + e.len(), rest);
        assert(seq![v[0]] + rest =~= v);
    }
}

/// Written tokens read back as the tokens.
proof fn lemma_tokens_rendered(s: Seq<char>, i: int, ts: Seq<TokenView>)
    requires
        tokens_valid(ts),
        stands_at(s, i, render(ts)),
        i + render(ts).len() == s.len(),
    ensures
        tokens_from(s, i) == Some(ts),
    decreases ts.len(),
{
    if ts.len() == 0 {
    } else {
        let t = ts[0];
        let rest = ts.drop_first();
        assert(tokens_valid(rest)) by {
            assert forall|k: int| 0 <= k < rest.len() implies ((#[trigger] rest[k]) matches TokenView::Punct(c)
                ==> is_punct(c)) by {
                assert(rest[k] == ts[k + 1]);
            }
        }
        lemma_stands_split(s, i, render_token(t), render(rest));
        match t {
            TokenView::Punct(c) => {
                lemma_stands_index(s, i, render_token(t), 0);
                lemma_tokens_rendered(s, i + 1, rest);
                assert(seq![TokenView::Punct(c)] + rest =~= ts);
            },
            TokenView::Text(v) => {
                let q = seq!['"'];
                assert(quoted(v) =~= q + (escape(v) + q));
                lemma_stands_split(s, i, q, escape(v) + q);
                lemma_stands_index(s, i, q, 0);
                lemma_scan_escaped(s, i + 1, v);
                lemma_tokens_rendered(s, i + quoted(v).len(), rest);
                assert(seq![TokenView::Text(v)] + rest =~= ts);
            },
        }
    }
}

/// Reading what was written gives back the tokens.
pub proof fn lemma_tokens_round_trip(ts: Seq<TokenView>)
    requires
        tokens_valid(ts),
    ensures
        tokens_of(render(ts)) == Some(ts),
{
    let s = render(ts);
    assert(s.subrange(0, s.len() as int) =~= s);
    lemma_tokens_rendered(s, 0, ts);
}


proof fn lemma_escape_concat(a: Seq<char>, b: Seq<char>)
    ensures
        escape(a + b) == escape(a) + escape(b),
    decreases a.len(),
{
    if a.len() == 0 {
        assert(a + b =~= b);
        assert(escape(a) + escape(b) =~= escape(b));
    } else {
        lemma_escape_concat(a.drop_first(), b);
        assert((a + b).drop_first() =~= a.drop_first() + b);
        assert(escape_char(a[0]) + (escape(a.drop_first()) + escape(b)) =~= (escape_char(a[0])
            + escape(a.drop_first())) + escape(b));
    }
}

proof fn lemma_render_concat(a: Seq<TokenView>, b: Seq<TokenView>)
    ensures
        render(a + b) == render(a) + render(b),
    decreases a.len(),
{
    if a.len() == 0 {
        assert(a + b =~= b);
        assert(render(a) + render(b) =~= render(b));
    } else {
        lemma_render_concat(a.drop_first(), b);
        assert((a + b).drop_first() =~= a.drop_first() + b);
        assert(render_token(a[0]) + (render(a.drop_first()) + render(b)) =~= (render_token(a[0])
            + render(a.drop_first())) + render(b));
    }
}

proof fn lemma_escape_one(c: char)
    ensures
        escape(seq![c]) == escape_char(c),
{
    let one = seq![c];
    assert(one.drop_first() =~= Seq::<char>::empty());
    assert(escape(one.drop_first()) =~= Seq::<char>::empty());
    assert(escape(one) =~= escape_char(c) + escape(one.drop_first()));
    assert(escape_char(c) + Seq::<char>::empty() =~= escape_char(c));
}

proof fn lemma_render_one(t: TokenView)
    ensures
        render(seq![t]) == render_token(t),
{
    let one = seq![t];
    assert(one.drop_first() =~= Seq::<TokenView>::empty());
    assert(render(one.drop_first()) =~= Seq::<char>::empty());
    assert(render(one) =~= render_token(t) + render(one.drop_first()));
    assert(render_token(t) + Seq::<char>::empty() =~= render_token(t));
}

/// Decides whether `c` is a structural character.
pub fn punct_char(c: char) -> (r: bool)
    ensures
        r == is_punct(c),
{
    c == '{' || c == '}' || c == '[' || c == ']' || c == ':' || c == ','
}

fn hex_digit(d: u8) -> (c: char)
    requires
        d < 16,
    ensures
        c == hex_digit_of(d as int),
{
    if d < 10 {
        (48 + d) as char
    } else {
        (87 + d) as char
    }
}

fn hex_digit_value(c: char) -> (v: Option<u8>)
    ensures
        v is None <==> hex_value(c) < 0,
        v matches Some(d) ==> d == hex_value(c) && d < 16,
{
    if c >= '0' && c <= '9' {
        Some(((c as u32) - 48) as u8)
    } else if c >= 'a' && c <= 'f' {
        Some(((c as u32) - 87) as u8)
    } else {
        None
    }
}

fn short_escaped(c: char) -> (r: bool)
    ensures
        r == has_short_escape(c),
{
    c == '"' || c == '\\' || c == '\n' || c == '\r' || c == '\t' || c as u32 == 8 || c as u32
        == 12
}

/// Appends the escaped form of `c`.
fn push_escaped_char(out: &mut Vec<char>, c: char)
    ensures
        final(out)@ == old(out)@ + escape_char(c),
{
    let ghost before = out@;
    let v: u32 = c as u32;
    if short_escaped(c) {
        let letter = if c == '\n' {
            'n'
        } else if c == '\r' {
            'r'
        } else if c == '\t' {
            't'
        } else if v == 8 {
            'b'
        } else if v == 12 {
            'f'
        } else {
            c
        };
        out.push('\\');
        out.push(letter);
        assert(out@ =~= before + escape_char(c));
    } else if v < 32 {
        out.push('\\');
        out.push('u');
        out.push('0');
        out.push('0');
        out.push(hex_digit((v / 16) as u8));
        out.push(hex_digit((v % 16) as u8));
        assert(out@ =~= before + escape_char(c));
    } else {
        out.push(c);
        assert(out@ =~= before + escape_char(c));
    }
}

/// Appends `text` as it is written in a record: escaped, between quotes.
fn push_quoted(out: &mut Vec<char>, text: &str)
    ensures
        final(out)@ == old(out)@ + quoted(text@),
{
    let ghost before = out@;
    let v = chars_of(text);
    out.push('"');
    let mut i: usize = 0;
    while i < v.len()
        invariant
            i <= v.len(),
            v@ == text@,
            out@ == before + seq!['"'] + escape(v@.take(i as int)),
        decreases v.len() - i,
    {
        let ghost sofar = out@;
        push_escaped_char(out, v[i]);
        proof {
            lemma_escape_concat(v@.take(i as int), seq![v@[i as int]]);
            assert(v@.take(i as int) + seq![v@[i as int]] =~= v@.take(i + 1));
            lemma_escape_one(v@[i as int]);
            assert(out@ =~= before + seq!['"'] + escape(v@.take(i + 1)));
        }
        i += 1;
    }
    assert(v@.take(i as int) =~= v@);
    out.push('"');
    assert(out@ =~= before + quoted(text@));
}

/// Writes the tokens one after the other.
pub fn render_tokens(ts: &Vec<Token>) -> (r: String)
    ensures
        r@ == render(token_views(ts@)),
{
    let mut out: Vec<char> = Vec::new();
    let mut i: usize = 0;
    let ghost all = token_views(ts@);
    while i < ts.len()
        invariant
            i <= ts.len(),
            all == token_views(ts@),
            out@ == render(all.take(i as int)),
        decreases ts.len() - i,
    {
        let ghost t = all[i as int];
        match &ts[i] {
            Token::Punct(c) => {
                out.push(*c);
            },
            Token::Text(s) => {
                push_quoted(&mut out, s.as_str());
            },
        }
        proof {
            lemma_render_concat(all.take(i as int), seq![t]);
            assert(all.take(i as int) + seq![t] =~= all.take(i + 1));
            lemma_render_one(t);
            assert(out@ =~= render(all.take(i as int)) + render_token(t));
        }
        i += 1;
    }
    assert(all.take(i as int) =~= all);
    text_of_chars(&out)
}

/// What was read so far, followed by what is read from here on.
pub open spec fn glue_text(sofar: Seq<char>, tail: Option<(Seq<char>, int)>) -> Option<
    (Seq<char>, int),
> {
    match tail {
        Some((rest, end)) => Some((sofar + rest, end)),
        None => None,
    }
}

/// The tokens read so far, followed by the tokens from here on.
pub open spec fn glue_tokens(sofar: Seq<TokenView>, tail: Option<Seq<TokenView>>) -> Option<
    Seq<TokenView>,
> {
    match tail {
        Some(rest) => Some(sofar + rest),
        None => None,
    }
}

fn unescape(s: &Vec<char>, i: usize) -> (r: Option<(char, usize)>)
    requires
        i < s.len(),
    ensures
        r is None <==> unescape_at(s@, i as int) is None,
        r matches Some((c, n)) ==> unescape_at(s@, i as int) == Some((c, n as int)) && 1 <= n
            && i + n <= s.len(),
{
    let c = s[i];
    if c == '\\' {
        if i + 1 >= s.len() {
            return None;
        }
        let e = s[i + 1];
        if e == '"' || e == '\\' {
            Some((e, 2))
        } else if e == 'n' {
            Some(('\n', 2))
        } else if e == 'r' {
            Some(('\r', 2))
        } else if e == 't' {
            Some(('\t', 2))
        } else if e == 'b' {
            Some((8u8 as char, 2))
        } else if e == 'f' {
            Some((12u8 as char, 2))
        } else if e == 'u' {
            if s.len() < 6 || i >= s.len() - 5 || s[i + 2] != '0' || s[i + 3] != '0' {
                return None;
            }
            match (hex_digit_value(s[i + 4]), hex_digit_value(s[i + 5])) {
                (Some(hi), Some(lo)) => {
                    if hi > 1 {
                        return None;
                    }
                    let v = (hi * 16 + lo) as char;
                    if short_escaped(v) {
                        None
                    } else {
                        Some((v, 6))
                    }
                },
                _ => None,
            }
        } else {
            None
        }
    } else if c == '"' || (c as u32) < 32 {
        None
    } else {
        Some((c, 1))
    }
}

/// Reads an escaped text from position `start` up to its closing quote.
fn scan_quoted(s: &Vec<char>, start: usize) -> (r: Option<(String, usize)>)
    ensures
        r is None <==> scan(s@, start as int) is None,
        r matches Some((v, end)) ==> scan(s@, start as int) == Some((v@, end as int)) && start
            < end <= s.len(),
{
    let mut out: Vec<char> = Vec::new();
    let mut i: usize = start;
    loop
        invariant
            start <= i,
            scan(s@, start as int) == glue_text(out@, scan(s@, i as int)),
        decreases s.len() - i,
    {
        if i >= s.len() {
            return None;
        }
        if s[i] == '"' {
            let v = text_of_chars(&out);
            assert(out@ + Seq::<char>::empty() =~= out@);
            return Some((v, i + 1));
        }
        match unescape(s, i) {
            None => {
                return None;
            },
            Some((c, n)) => {
                proof {
                    let tail = scan(s@, i + n);
                    if tail is Some {
                        assert(out@ + (seq![c] + (tail->0).0) =~= out@.push(c) + (tail->0).0);
                    }
                }
                out.push(c);
                i += n;
            },
        }
    }
}

/// Splits a text into its tokens. `None` if the text holds anything but
/// tokens: a blank, a character outside quotes that is not structural, an
/// escape that is not written as this library writes it, or a quote that is
/// not closed.
pub fn tokenize(s: &Vec<char>) -> (r: Option<Vec<Token>>)
    ensures
        r is None <==> tokens_of(s@) is None,
        r matches Some(ts) ==> tokens_of(s@) == Some(token_views(ts@)),
{
    let mut out: Vec<Token> = Vec::new();
    let mut i: usize = 0;
    while i < s.len()
        invariant
            tokens_of(s@) == glue_tokens(token_views(out@), tokens_from(s@, i as int)),
        decreases s.len() - i,
    {
        let c = s[i];
        let ghost sofar = token_views(out@);
        if punct_char(c) {
            out.push(Token::Punct(c));
            proof {
                assert(token_views(out@) =~= sofar.push(TokenView::Punct(c)));
                let tail = tokens_from(s@, i + 1);
                if tail is Some {
                    assert(sofar + (seq![TokenView::Punct(c)] + tail->0) =~= sofar.push(
                        TokenView::Punct(c),
                    ) + tail->0);
                }
            }
            i += 1;
        } else if c == '"' {
            if i + 1 > s.len() {
                return None;
            }
            match scan_quoted(s, i + 1) {
                None => {
                    return None;
                },
                Some((v, end)) => {
                    let ghost t = TokenView::Text(v@);
                    out.push(Token::Text(v));
                    proof {
                        assert(token_views(out@) =~= sofar.push(t));
                        let tail = tokens_from(s@, end as int);
                        if tail is Some {
                            assert(sofar + (seq![t] + tail->0) =~= sofar.push(t) + tail->0);
                        }
                    }
                    i = end;
                },
            }
        } else {
            return None;
        }
    }
    proof {
        assert(token_views(out@) + Seq::<TokenView>::empty() =~= token_views(out@));
    }
    Some(out)
}


/// The text of a text token; of a punctuation token, nothing in particular.
pub open spec fn text_at(ts: Seq<TokenView>, i: int) -> Seq<char> {
    ts[i]->Text_0
}

/// The tokens of a list of hashes: the hashes in order, a comma between each
/// two.
pub open spec fn list_tokens(hs: Seq<Seq<char>>) -> Seq<TokenView> {
    Seq::new(
        if hs.len() == 0 {
            0nat
        } else {
            (2 * hs.len() - 1) as nat
        },
        |k: int|
            if k % 2 == 0 {
                TokenView::Text(hs[k / 2])
            } else {
                TokenView::Punct(',')
            },
    )
}

/// The tokens that open the record of a commit.
pub open spec fn commit_head() -> Seq<TokenView> {
    seq![
        TokenView::Punct('{'),
        TokenView::Text("parent_hashes"@),
        TokenView::Punct(':'),
        TokenView::Punct('['),
    ]
}

/// The tokens that follow the list of parents in the record of a commit.
pub open spec fn commit_tail(c: CommitView) -> Seq<TokenView> {
    seq![
        TokenView::Punct(']'),
        TokenView::Punct(','),
        TokenView::Text("dir_hash"@),
        TokenView::Punct(':'),
        TokenView::Text(c.dir_hash),
        TokenView::Punct(','),
        TokenView::Text("author"@),
        TokenView::Punct(':'),
        TokenView::Text(c.author),
        TokenView::Punct(','),
        TokenView::Text("message"@),
        TokenView::Punct(':'),
        TokenView::Text(c.message),
        TokenView::Punct(','),
        TokenView::Text("timestamp"@),
        TokenView::Punct(':'),
        TokenView::Text(c.timestamp),
        TokenView::Punct('}'),
    ]
}

/// The tokens of the record of a commit: its five fields, each under its
/// name, the parents as a list.
pub open spec fn commit_tokens(c: CommitView) -> Seq<TokenView> {
    commit_head() + list_tokens(c.parent_hashes) + commit_tail(c)
}

/// The canonical text of a commit.
pub open spec fn commit_text(c: CommitView) -> Seq<char> {
    render(commit_tokens(c))
}

/// The bytes under which a commit is stored: its canonical text in UTF-8.
pub open spec fn commit_bytes(c: CommitView) -> Seq<u8> {
    encode_utf8(commit_text(c))
}

/// The only commit whose record can have the tokens `ts`.
pub open spec fn commit_candidate(ts: Seq<TokenView>) -> CommitView {
    let n = ts.len() - 22;
    CommitView {
        parent_hashes: Seq::new(((n + 1) / 2) as nat, |j: int| text_at(ts, 4 + 2 * j)),
        dir_hash: text_at(ts, n + 8),
        author: text_at(ts, n + 12),
        message: text_at(ts, n + 16),
        timestamp: text_at(ts, n + 20),
    }
}

/// The commit that the tokens are the record of, if they are one.
pub open spec fn commit_of_tokens(ts: Seq<TokenView>) -> Option<CommitView> {
    if ts.len() >= 22 && commit_candidate(ts).valid() && commit_tokens(commit_candidate(ts))
        == ts {
        Some(commit_candidate(ts))
    } else {
        None
    }
}

/// `b` is the stored form of the commit `c`.
pub open spec fn is_commit_encoding(b: Seq<u8>, c: CommitView) -> bool {
    c.valid() && commit_bytes(c) == b
}

/// The commit that the bytes `b` are the stored form of, if they are the
/// stored form of one.
pub open spec fn commit_of_bytes(b: Seq<u8>) -> Option<CommitView> {
    if exists|c: CommitView| is_commit_encoding(b, c) {
        Some(choose|c: CommitView| is_commit_encoding(b, c))
    } else {
        None
    }
}

/// The tokens of a commit read back as the commit.
pub proof fn lemma_commit_tokens_round_trip(c: CommitView)
    ensures
        tokens_valid(commit_tokens(c)),
        commit_candidate(commit_tokens(c)) == c,
        c.valid() ==> commit_of_tokens(commit_tokens(c)) == Some(c),
{
    let ts = commit_tokens(c);
    let list = list_tokens(c.parent_hashes);
    let n = list.len() as int;
    assert(ts.len() == 22 + n);
    assert forall|k: int| 0 <= k < ts.len() implies ((#[trigger] ts[k]) matches TokenView::Punct(ch)
        ==> is_punct(ch)) by {
        if k < 4 {
            assert(ts[k] == commit_head()[k]);
        } else if k < 4 + n {
            assert(ts[k] == list[k - 4]);
        } else {
            assert(ts[k] == commit_tail(c)[k - 4 - n]);
        }
    }
    let cand = commit_candidate(ts);
    assert(cand.parent_hashes =~= c.parent_hashes) by {
        assert(cand.parent_hashes.len() == c.parent_hashes.len());
        assert forall|j: int| 0 <= j < c.parent_hashes.len() implies cand.parent_hashes[j]
            == c.parent_hashes[j] by {
            assert(ts[4 + 2 * j] == list[2 * j]);
        }
    }
    assert(ts[n + 8] == commit_tail(c)[4]);
    assert(ts[n + 12] == commit_tail(c)[8]);
    assert(ts[n + 16] == commit_tail(c)[12]);
    assert(ts[n + 20] == commit_tail(c)[16]);
}

/// Two commits with the same stored form are the same commit.
pub proof fn lemma_commit_bytes_injective(c1: CommitView, c2: CommitView)
    requires
        commit_bytes(c1) == commit_bytes(c2),
    ensures
        c1 == c2,
{
    encode_utf8_decode_utf8(commit_text(c1));
    encode_utf8_decode_utf8(commit_text(c2));
    lemma_commit_tokens_round_trip(c1);
    lemma_commit_tokens_round_trip(c2);
    lemma_tokens_round_trip(commit_tokens(c1));
    lemma_tokens_round_trip(commit_tokens(c2));
}

/// Decoding the stored form of a commit gives back the commit.
pub proof fn lemma_commit_round_trip(c: CommitView)
    requires
        c.valid(),
    ensures
        commit_of_bytes(commit_bytes(c)) == Some(c),
{
    let b = commit_bytes(c);
    assert(is_commit_encoding(b, c));
    let d = choose|d: CommitView| is_commit_encoding(b, d);
    lemma_commit_bytes_injective(c, d);
}

/// The tokens of the record of a commit.
fn tokens_of_commit(c: &Commit) -> (ts: Vec<Token>)
    ensures
        token_views(ts@) == commit_tokens(c@),
{
    let mut ts: Vec<Token> = Vec::new();
    ts.push(Token::Punct('{'));
    ts.push(Token::Text("parent_hashes".to_owned()));
    ts.push(Token::Punct(':'));
    ts.push(Token::Punct('['));
    assert(token_views(ts@) =~= commit_head());
    let parents = c.get_parent_hashes();
    let ghost hs = c@.parent_hashes;
    let mut i: usize = 0;
    while i < parents.len()
        invariant
            i <= parents.len(),
            hash_texts(parents@) == hs,
            token_views(ts@) == commit_head() + list_tokens(hs.take(i as int)),
        decreases parents.len() - i,
    {
        let ghost before = token_views(ts@);
        if i > 0 {
            ts.push(Token::Punct(','));
        }
        ts.push(Token::Text(parents[i].as_string()));
        proof {
            let a = list_tokens(hs.take(i as int));
            let b = list_tokens(hs.take(i + 1));
            assert(hs[i as int] == parents@[i as int]@);
            assert(token_views(ts@) =~= commit_head() + b) by {
                let got = token_views(ts@);
                let want = commit_head() + b;
                assert(got.len() == want.len());
                assert forall|k: int| 0 <= k < got.len() implies got[k] == want[k] by {
                    if k < before.len() {
                        assert(got[k] == before[k]);
                        if k >= 4 {
                            assert(before[k] == a[k - 4]);
                            assert(want[k] == b[k - 4]);
                        }
                    } else {
                        assert(want[k] == b[k - 4]);
                    }
                }
            }
        }
        i += 1;
    }
    assert(hs.take(i as int) =~= hs);
    let ghost mid = token_views(ts@);
    ts.push(Token::Punct(']'));
    ts.push(Token::Punct(','));
    ts.push(Token::Text("dir_hash".to_owned()));
    ts.push(Token::Punct(':'));
    ts.push(Token::Text(c.get_dir_hash().as_string()));
    ts.push(Token::Punct(','));
    ts.push(Token::Text("author".to_owned()));
    ts.push(Token::Punct(':'));
    ts.push(Token::Text(c.get_author().to_owned()));
    ts.push(Token::Punct(','));
    ts.push(Token::Text("message".to_owned()));
    ts.push(Token::Punct(':'));
    ts.push(Token::Text(c.get_message().to_owned()));
    ts.push(Token::Punct(','));
    ts.push(Token::Text("timestamp".to_owned()));
    ts.push(Token::Punct(':'));
    ts.push(Token::Text(c.get_time_stamp().to_owned()));
    ts.push(Token::Punct('}'));
    assert(token_views(ts@) =~= mid + commit_tail(c@));
    ts
}

/// The stored form of a commit: its canonical text in UTF-8.
pub fn encode_commit(c: &Commit) -> (bytes: Vec<u8>)
    ensures
        bytes@ == commit_bytes(c@),
{
    let ts = tokens_of_commit(c);
    let text = render_tokens(&ts);
    slice_to_vec(text.as_str().as_bytes())
}

/// The text of the token at `i`, if it is a text token.
fn token_text(ts: &Vec<Token>, i: usize) -> (r: Option<&str>)
    requires
        i < ts.len(),
    ensures
        r is Some <==> token_views(ts@)[i as int] is Text,
        r matches Some(s) ==> s@ == text_at(token_views(ts@), i as int),
{
    match &ts[i] {
        Token::Text(s) => Some(s.as_str()),
        Token::Punct(_) => None,
    }
}

/// Reads a canonical hash: `None` unless the text is 64 lowercase hexadecimal
/// digits.
fn strict_hash(s: &str) -> (r: Option<crate::hash::Hash>)
    ensures
        r is Some <==> is_hash_text(s@),
        r matches Some(h) ==> h@ == s@,
{
    match crate::hash::Hash::parse(s) {
        Some(h) => {
            if crate::text::same_text(h.as_str(), s) {
                Some(h)
            } else {
                proof {
                    crate::hash::lemma_canonical_hash_text(s@);
                }
                None
            }
        },
        None => None,
    }
}

/// The commit that the tokens could be the record of: `Some` whenever they
/// are the record of a commit.
fn candidate_commit(ts: &Vec<Token>) -> (r: Option<Commit>)
    ensures
        commit_of_tokens(token_views(ts@)) is Some ==> r is Some,
        r matches Some(c) ==> c@.valid() && (commit_of_tokens(token_views(ts@)) is Some
            ==> commit_of_tokens(token_views(ts@)) == Some(c@)),
{
    let ghost views = token_views(ts@);
    let ghost cand = commit_candidate(views);
    if ts.len() < 22 {
        return None;
    }
    let n = ts.len() - 22;
    let k = (n + 1) / 2;
    proof {
        if commit_of_tokens(views) is Some {
            lemma_commit_tokens_round_trip(cand);
            assert(commit_tokens(cand).len() == views.len());
            assert(list_tokens(cand.parent_hashes).len() == n);
        }
    }
    let mut parents: Vec<crate::hash::Hash> = Vec::new();
    let mut j: usize = 0;
    while j < k
        invariant
            j <= k,
            ts.len() >= 22,
            n == ts.len() - 22,
            k == (n + 1) / 2,
            views == token_views(ts@),
            cand == commit_candidate(views),
            parents.len() == j,
            forall|i: int| 0 <= i < j ==> (#[trigger] parents@[i])@ == cand.parent_hashes[i],
            forall|i: int| 0 <= i < j ==> is_hash_text(#[trigger] cand.parent_hashes[i]),
            commit_of_tokens(views) is Some ==> list_tokens(cand.parent_hashes).len() == n,
        decreases k - j,
    {
        match token_text(ts, 4 + 2 * j) {
            None => {
                proof {
                    if commit_of_tokens(views) is Some {
                        assert(views[4 + 2 * j] == list_tokens(cand.parent_hashes)[2 * j]);
                    }
                }
                return None;
            },
            Some(s) => {
                match strict_hash(s) {
                    None => {
                        proof {
                            if commit_of_tokens(views) is Some {
                                assert(is_hash_text(cand.parent_hashes[j as int]));
                            }
                        }
                        return None;
                    },
                    Some(h) => {
                        parents.push(h);
                    },
                }
            },
        }
        j += 1;
    }
    proof {
        if commit_of_tokens(views) is Some {
            assert(views[n + 8] == commit_tail(cand)[4]);
            assert(views[n + 12] == commit_tail(cand)[8]);
            assert(views[n + 16] == commit_tail(cand)[12]);
            assert(views[n + 20] == commit_tail(cand)[16]);
        }
    }
    let dir = match token_text(ts, n + 8) {
        Some(s) => match strict_hash(s) {
            Some(h) => h,
            None => {
                return None;
            },
        },
        None => {
            return None;
        },
    };
    let author = match token_text(ts, n + 12) {
        Some(s) => s,
        None => {
            return None;
        },
    };
    let message = match token_text(ts, n + 16) {
        Some(s) => s,
        None => {
            return None;
        },
    };
    let timestamp = match token_text(ts, n + 20) {
        Some(s) => s,
        None => {
            return None;
        },
    };
    let c = Commit::new(parents, dir, author, message, timestamp);
    proof {
        assert(c@.parent_hashes =~= cand.parent_hashes);
        assert(c@ == cand);
    }
    Some(c)
}

/// Reads a commit from its stored form. `None` unless the bytes are exactly
/// the stored form of a commit.
pub fn decode_commit(bytes: &[u8]) -> (r: Option<Commit>)
    ensures
        r is Some <==> commit_of_bytes(bytes@) is Some,
        r matches Some(c) ==> commit_of_bytes(bytes@) == Some(c@) && c.wf() && commit_bytes(c@)
            == bytes@,
{
    proof {
        if commit_of_bytes(bytes@) is Some {
            let w = commit_of_bytes(bytes@)->0;
            assert(is_commit_encoding(bytes@, w));
            encode_utf8_valid_utf8(commit_text(w));
            encode_utf8_decode_utf8(commit_text(w));
            lemma_commit_tokens_round_trip(w);
            lemma_tokens_round_trip(commit_tokens(w));
        }
    }
    let text = match text_of_utf8(slice_to_vec(bytes)) {
        Some(t) => t,
        None => {
            return None;
        },
    };
    let chars = chars_of(text.as_str());
    let tokens = match tokenize(&chars) {
        Some(ts) => ts,
        None => {
            return None;
        },
    };
    let c = match candidate_commit(&tokens) {
        Some(c) => c,
        None => {
            return None;
        },
    };
    let again = render_tokens(&tokens_of_commit(&c));
    let again_chars = chars_of(again.as_str());
    if same_chars(&again_chars, &chars) {
        proof {
            decode_utf8_encode_utf8(bytes@);
            assert(is_commit_encoding(bytes@, c@));
            lemma_commit_round_trip(c@);
        }
        Some(c)
    } else {
        None
    }
}


/// The token at place `r` of the record of one entry, the comma that may
/// follow it included.
pub open spec fn entry_token(e: (Seq<char>, Seq<char>), r: int) -> TokenView {
    if r == 0 {
        TokenView::Text(e.0)
    } else if r == 1 {
        TokenView::Punct(':')
    } else if r == 2 {
        TokenView::Punct('{')
    } else if r == 3 {
        TokenView::Text("content_hash"@)
    } else if r == 4 {
        TokenView::Punct(':')
    } else if r == 5 {
        TokenView::Text(e.1)
    } else if r == 6 {
        TokenView::Punct('}')
    } else {
        TokenView::Punct(',')
    }
}

/// The tokens of the entries of a directory: each path with its content hash
/// under the name of that field, a comma between each two entries.
pub open spec fn entries_tokens(es: Seq<(Seq<char>, Seq<char>)>) -> Seq<TokenView> {
    Seq::new(
        if es.len() == 0 {
            0nat
        } else {
            (8 * es.len() - 1) as nat
        },
        |k: int| entry_token(es[k / 8], k % 8),
    )
}

/// The tokens that open the record of a directory.
pub open spec fn directory_head() -> Seq<TokenView> {
    seq![
        TokenView::Punct('{'),
        TokenView::Text("files"@),
        TokenView::Punct(':'),
        TokenView::Punct('{'),
    ]
}

/// The tokens that close the record of a directory.
pub open spec fn directory_tail() -> Seq<TokenView> {
    seq![TokenView::Punct('}'), TokenView::Punct('}')]
}

/// The tokens of the record of a directory with the entries `es`.
pub open spec fn directory_tokens(es: Seq<(Seq<char>, Seq<char>)>) -> Seq<TokenView> {
    directory_head() + entries_tokens(es) + directory_tail()
}

/// The canonical text of a directory with the entries `es`, which come in
/// ascending order of path.
pub open spec fn directory_text(es: Seq<(Seq<char>, Seq<char>)>) -> Seq<char> {
    render(directory_tokens(es))
}

/// The bytes under which a directory is stored: its canonical text in UTF-8.
pub open spec fn directory_bytes(es: Seq<(Seq<char>, Seq<char>)>) -> Seq<u8> {
    encode_utf8(directory_text(es))
}

/// The entry whose record starts at token `i`, and the place after it. The
/// record holds the content hash under its name; before it there may stand
/// a name of the blob, which is passed over.
pub open spec fn entry_at(ts: Seq<TokenView>, i: int) -> Option<((Seq<char>, Seq<char>), int)> {
    if i < 0 || i + 6 >= ts.len() {
        None
    } else if !(ts[i] is Text) || ts[i + 1] != TokenView::Punct(':') || ts[i + 2]
        != TokenView::Punct('{') {
        None
    } else if ts[i + 3] == TokenView::Text("content_hash"@) && ts[i + 4] == TokenView::Punct(':')
        && ts[i + 5] is Text && ts[i + 6] == TokenView::Punct('}') {
        Some(((text_at(ts, i), text_at(ts, i + 5)), i + 7))
    } else if i + 10 < ts.len() && ts[i + 3] == TokenView::Text("name"@) && ts[i + 4]
        == TokenView::Punct(':') && ts[i + 5] is Text && ts[i + 6] == TokenView::Punct(',')
        && ts[i + 7] == TokenView::Text("content_hash"@) && ts[i + 8] == TokenView::Punct(':')
        && ts[i + 9] is Text && ts[i + 10] == TokenView::Punct('}') {
        Some(((text_at(ts, i), text_at(ts, i + 9)), i + 11))
    } else {
        None
    }
}

/// The entries whose records stand from token `i` on, up to the two closing
/// tokens of the directory.
pub open spec fn entries_from(ts: Seq<TokenView>, i: int) -> Option<Seq<(Seq<char>, Seq<char>)>>
    decreases ts.len() - i,
{
    let found = entry_at(ts, i);
    if found is None || (found->0).1 <= i || (found->0).1 > ts.len() {
        None
    } else {
        let e = (found->0).0;
        let j = (found->0).1;
        if j + 2 == ts.len() && ts[j] == TokenView::Punct('}') && ts[j + 1] == TokenView::Punct(
            '}',
        ) {
            Some(seq![e])
        } else if j < ts.len() && ts[j] == TokenView::Punct(',') {
            match entries_from(ts, j + 1) {
                Some(rest) => Some(seq![e] + rest),
                None => None,
            }
        } else {
            None
        }
    }
}

/// The entries that the tokens of a directory record hold, in the order in
/// which they stand there.
pub open spec fn pairs_of_tokens(ts: Seq<TokenView>) -> Option<Seq<(Seq<char>, Seq<char>)>> {
    if ts.len() < 6 || ts.subrange(0, 4) != directory_head() {
        None
    } else if ts.len() == 6 {
        if ts[4] == TokenView::Punct('}') && ts[5] == TokenView::Punct('}') {
            Some(Seq::empty())
        } else {
            None
        }
    } else {
        entries_from(ts, 4)
    }
}

/// No path occurs twice.
pub open spec fn paths_distinct(ps: Seq<(Seq<char>, Seq<char>)>) -> bool {
    forall|i: int, j: int| 0 <= i < j < ps.len() ==> (#[trigger] ps[i]).0 != (#[trigger] ps[j]).0
}

/// The mapping that is built by binding the pairs one after the other.
pub open spec fn map_of_pairs(ps: Seq<(Seq<char>, Seq<char>)>) -> Map<Seq<char>, Seq<char>>
    decreases ps.len(),
{
    if ps.len() == 0 {
        Map::empty()
    } else {
        map_of_pairs(ps.drop_last()).insert(ps.last().0, ps.last().1)
    }
}

/// The directory that a sequence of decoded entries stands for: none if a
/// path occurs twice or a hash is not canonical.
pub open spec fn directory_of_pairs(ps: Seq<(Seq<char>, Seq<char>)>) -> Option<
    Map<Seq<char>, Seq<char>>,
> {
    if paths_distinct(ps) && hashes_valid(ps) {
        Some(map_of_pairs(ps))
    } else {
        None
    }
}

/// The directory that the bytes `b` are a stored form of, if they are one.
/// The canonical form of every directory is accepted, and so are its entries
/// in another order and with the name of the blob that older records carry.
pub open spec fn directory_of_bytes(b: Seq<u8>) -> Option<Map<Seq<char>, Seq<char>>> {
    if !valid_utf8(b) {
        None
    } else {
        match tokens_of(decode_utf8(b)) {
            None => None,
            Some(ts) => match pairs_of_tokens(ts) {
                None => None,
                Some(ps) => directory_of_pairs(ps),
            },
        }
    }
}

proof fn lemma_map_of_pairs_domain(ps: Seq<(Seq<char>, Seq<char>)>, q: Seq<char>)
    ensures
        map_of_pairs(ps).contains_key(q) <==> has_path(ps, q),
    decreases ps.len(),
{
    if ps.len() > 0 {
        let front = ps.drop_last();
        lemma_map_of_pairs_domain(front, q);
        if has_path(front, q) {
            let i = choose|i: int| 0 <= i < front.len() && (#[trigger] front[i]).0 == q;
            assert(ps[i] == front[i]);
        }
        if has_path(ps, q) {
            let i = choose|i: int| 0 <= i < ps.len() && (#[trigger] ps[i]).0 == q;
            if i < ps.len() - 1 {
                assert(front[i] == ps[i]);
            }
        }
        if q == ps.last().0 {
            assert(ps[ps.len() - 1].0 == q);
        }
    }
}

/// Sorted entries bound one after the other give the mapping they stand for.
proof fn lemma_map_of_sorted_pairs(ps: Seq<(Seq<char>, Seq<char>)>)
    requires
        sorted_by_path(ps),
    ensures
        map_of_pairs(ps) == pairs_map(ps),
        paths_distinct(ps),
    decreases ps.len(),
{
    assert forall|i: int, j: int| 0 <= i < j < ps.len() implies (#[trigger] ps[i]).0 != (
    #[trigger] ps[j]).0 by {
        assert(text_lt(ps[i].0, ps[j].0));
        lemma_text_lt_irreflexive(ps[i].0);
    }
    if ps.len() == 0 {
        assert(pairs_map(ps) =~= Map::<Seq<char>, Seq<char>>::empty());
    } else {
        let front = ps.drop_last();
        let n = front.len() as int;
        lemma_map_of_sorted_pairs(front);
        assert forall|i: int| 0 <= i < n implies text_lt((#[trigger] front[i]).0, ps.last().0) by {
            assert(front[i] == ps[i]);
        }
        lemma_pairs_insert(front, n, ps.last().0, ps.last().1);
        assert(front.insert(n, ps.last()) =~= ps);
    }
}

proof fn lemma_entries_round_trip(es: Seq<(Seq<char>, Seq<char>)>, j: int)
    requires
        0 <= j < es.len(),
    ensures
        entries_from(directory_tokens(es), 4 + 8 * j) == Some(es.skip(j)),
    decreases es.len() - j,
{
    let ts = directory_tokens(es);
    let body = entries_tokens(es);
    let i = 4 + 8 * j;
    assert(ts.len() == 4 + body.len() + 2);
    assert forall|r: int| 0 <= r < 7 implies #[trigger] ts[i + r] == entry_token(es[j], r) by {
        assert(ts[i + r] == body[8 * j + r]);
        assert((8 * j + r) / 8 == j);
        assert((8 * j + r) % 8 == r);
    }
    assert(ts[i + 0] == entry_token(es[j], 0));
    assert(ts[i + 1] == entry_token(es[j], 1));
    assert(ts[i + 2] == entry_token(es[j], 2));
    assert(ts[i + 3] == entry_token(es[j], 3));
    assert(ts[i + 4] == entry_token(es[j], 4));
    assert(ts[i + 5] == entry_token(es[j], 5));
    assert(ts[i + 6] == entry_token(es[j], 6));
    assert(entry_at(ts, i) == Some((es[j], i + 7)));
    if j == es.len() - 1 {
        assert(ts[i + 7] == directory_tail()[0]);
        assert(ts[i + 8] == directory_tail()[1]);
        assert(es.skip(j) =~= seq![es[j]]);
    } else {
        assert(ts[i + 7] == body[8 * j + 7]);
        assert((8 * j + 7) / 8 == j);
        assert((8 * j + 7) % 8 == 7);
        lemma_entries_round_trip(es, j + 1);
        assert(seq![es[j]] + es.skip(j + 1) =~= es.skip(j));
    }
}

/// The tokens of a directory read back as its entries.
pub proof fn lemma_directory_tokens_round_trip(es: Seq<(Seq<char>, Seq<char>)>)
    ensures
        tokens_valid(directory_tokens(es)),
        pairs_of_tokens(directory_tokens(es)) == Some(es),
{
    let ts = directory_tokens(es);
    let body = entries_tokens(es);
    assert forall|k: int| 0 <= k < ts.len() implies ((#[trigger] ts[k]) matches TokenView::Punct(ch)
        ==> is_punct(ch)) by {
        if k < 4 {
            assert(ts[k] == directory_head()[k]);
        } else if k < 4 + body.len() {
            assert(ts[k] == body[k - 4]);
        } else {
            assert(ts[k] == directory_tail()[k - 4 - body.len()]);
        }
    }
    assert(ts.subrange(0, 4) =~= directory_head());
    if es.len() == 0 {
        assert(ts[4] == directory_tail()[0]);
        assert(ts[5] == directory_tail()[1]);
        assert(es =~= Seq::<(Seq<char>, Seq<char>)>::empty());
    } else {
        lemma_entries_round_trip(es, 0);
        assert(es.skip(0) =~= es);
    }
}

/// Decoding the stored form of a directory gives back the directory.
pub proof fn lemma_directory_round_trip(es: Seq<(Seq<char>, Seq<char>)>)
    requires
        sorted_by_path(es),
        hashes_valid(es),
    ensures
        directory_of_bytes(directory_bytes(es)) == Some(pairs_map(es)),
{
    encode_utf8_valid_utf8(directory_text(es));
    encode_utf8_decode_utf8(directory_text(es));
    lemma_directory_tokens_round_trip(es);
    lemma_tokens_round_trip(directory_tokens(es));
    lemma_map_of_sorted_pairs(es);
}

/// The tokens of the record of one entry that carries a name of the blob
/// before the content hash.
pub open spec fn named_entry_tokens(path: Seq<char>, name: Seq<char>, hash: Seq<char>) -> Seq<
    TokenView,
> {
    seq![
        TokenView::Text(path),
        TokenView::Punct(':'),
        TokenView::Punct('{'),
        TokenView::Text("name"@),
        TokenView::Punct(':'),
        TokenView::Text(name),
        TokenView::Punct(','),
        TokenView::Text("content_hash"@),
        TokenView::Punct(':'),
        TokenView::Text(hash),
        TokenView::Punct('}'),
    ]
}

/// An entry that carries a name of the blob is read as the entry without
/// the name: the name is passed over.
pub proof fn lemma_stored_name_is_passed_over(
    ts: Seq<TokenView>,
    i: int,
    path: Seq<char>,
    name: Seq<char>,
    hash: Seq<char>,
)
    requires
        0 <= i,
        i + 11 <= ts.len(),
        ts.subrange(i, i + 11) == named_entry_tokens(path, name, hash),
    ensures
        entry_at(ts, i) == Some(((path, hash), i + 11)),
{
    let e = named_entry_tokens(path, name, hash);
    assert forall|k: int| 0 <= k < 11 implies ts[i + k] == e[k] by {
        assert(ts.subrange(i, i + 11)[k] == ts[i + k]);
    }
    assert(ts[i] == e[0]);
    assert(ts[i + 1] == e[1]);
    assert(ts[i + 2] == e[2]);
    assert(ts[i + 3] == e[3]);
    assert(ts[i + 4] == e[4]);
    assert(ts[i + 5] == e[5]);
    assert(ts[i + 6] == e[6]);
    assert(ts[i + 7] == e[7]);
    assert(ts[i + 8] == e[8]);
    assert(ts[i + 9] == e[9]);
    assert(ts[i + 10] == e[10]);
    reveal_strlit("name");
    reveal_strlit("content_hash");
    assert("name"@.len() != "content_hash"@.len());
}

/// The tokens of the record of a directory.
fn tokens_of_directory(d: &Directory) -> (ts: Vec<Token>)
    ensures
        token_views(ts@) == directory_tokens(d.entries()),
{
    let mut ts: Vec<Token> = Vec::new();
    ts.push(Token::Punct('{'));
    ts.push(Token::Text("files".to_owned()));
    ts.push(Token::Punct(':'));
    ts.push(Token::Punct('{'));
    assert(token_views(ts@) =~= directory_head());
    let pairs = d.get_key_value_pairs();
    let ghost es = d.entries();
    let mut i: usize = 0;
    while i < pairs.len()
        invariant
            i <= pairs.len(),
            pairs_of(pairs@) == es,
            token_views(ts@) == directory_head() + entries_tokens(es.take(i as int)),
        decreases pairs.len() - i,
    {
        let ghost before = token_views(ts@);
        if i > 0 {
            ts.push(Token::Punct(','));
        }
        ts.push(Token::Text(pairs[i].0.clone()));
        ts.push(Token::Punct(':'));
        ts.push(Token::Punct('{'));
        ts.push(Token::Text("content_hash".to_owned()));
        ts.push(Token::Punct(':'));
        ts.push(Token::Text(pairs[i].1.get_content_hash().as_string()));
        ts.push(Token::Punct('}'));
        proof {
            let a = entries_tokens(es.take(i as int));
            let b = entries_tokens(es.take(i + 1));
            assert(es[i as int] == (pairs@[i as int].0@, pairs@[i as int].1@));
            assert(token_views(ts@) =~= directory_head() + b) by {
                let got = token_views(ts@);
                let want = directory_head() + b;
                assert(got.len() == want.len());
                assert forall|k: int| 0 <= k < got.len() implies got[k] == want[k] by {
                    if k < before.len() {
                        assert(got[k] == before[k]);
                        if k >= 4 {
                            assert(before[k] == a[k - 4]);
                            assert(want[k] == b[k - 4]);
                        }
                    } else {
                        assert(want[k] == b[k - 4]);
                    }
                }
            }
        }
        i += 1;
    }
    assert(es.take(i as int) =~= es);
    let ghost mid = token_views(ts@);
    ts.push(Token::Punct('}'));
    ts.push(Token::Punct('}'));
    assert(token_views(ts@) =~= mid + directory_tail());
    ts
}

/// The stored form of a directory: its canonical text in UTF-8, the entries
/// in ascending order of path.
pub fn encode_directory(d: &Directory) -> (bytes: Vec<u8>)
    ensures
        bytes@ == directory_bytes(d.entries()),
{
    let ts = tokens_of_directory(d);
    let text = render_tokens(&ts);
    slice_to_vec(text.as_str().as_bytes())
}

/// Whether the token at `i` is the structural character `c`.
fn punct_at(ts: &Vec<Token>, i: usize, c: char) -> (r: bool)
    requires
        i < ts.len(),
    ensures
        r == (token_views(ts@)[i as int] == TokenView::Punct(c)),
{
    match &ts[i] {
        Token::Punct(d) => *d == c,
        Token::Text(_) => false,
    }
}

/// Whether the token at `i` is the text `name`.
fn name_at(ts: &Vec<Token>, i: usize, name: &str) -> (r: bool)
    requires
        i < ts.len(),
    ensures
        r == (token_views(ts@)[i as int] == TokenView::Text(name@)),
{
    match &ts[i] {
        Token::Punct(_) => false,
        Token::Text(s) => same_text(s.as_str(), name),
    }
}

/// Reads the record of one entry at token `i`.
fn read_entry(ts: &Vec<Token>, i: usize) -> (r: Option<(usize, usize, usize)>)
    ensures
        r is None <==> entry_at(token_views(ts@), i as int) is None,
        r matches Some((p, h, next)) ==> p < ts.len() && h < ts.len() && i < next <= ts.len()
            && token_views(ts@)[p as int] is Text && token_views(ts@)[h as int] is Text
            && entry_at(token_views(ts@), i as int) == Some(
            (
                (text_at(token_views(ts@), p as int), text_at(token_views(ts@), h as int)),
                next as int,
            ),
        ),
{
    if ts.len() < 7 || i >= ts.len() - 6 {
        return None;
    }
    if token_text(ts, i).is_none() || !punct_at(ts, i + 1, ':') || !punct_at(ts, i + 2, '{') {
        return None;
    }
    if name_at(ts, i + 3, "content_hash") && punct_at(ts, i + 4, ':') && token_text(
        ts,
        i + 5,
    ).is_some() && punct_at(ts, i + 6, '}') {
        return Some((i, i + 5, i + 7));
    }
    if ts.len() >= 11 && i < ts.len() - 10 && name_at(ts, i + 3, "name") && punct_at(ts, i + 4, ':')
        && token_text(ts, i + 5).is_some() && punct_at(ts, i + 6, ',') && name_at(
        ts,
        i + 7,
        "content_hash",
    ) && punct_at(ts, i + 8, ':') && token_text(ts, i + 9).is_some() && punct_at(ts, i + 10, '}') {
        return Some((i, i + 9, i + 11));
    }
    None
}

/// The entries read so far, followed by the entries from here on.
pub open spec fn glue_pairs(
    sofar: Seq<(Seq<char>, Seq<char>)>,
    tail: Option<Seq<(Seq<char>, Seq<char>)>>,
) -> Option<Seq<(Seq<char>, Seq<char>)>> {
    match tail {
        Some(rest) => Some(sofar + rest),
        None => None,
    }
}

/// Builds the directory that the tokens of a directory record stand for.
fn directory_of_tokens(ts: &Vec<Token>) -> (r: Option<Directory>)
    ensures
        r is Some <==> (pairs_of_tokens(token_views(ts@)) matches Some(ps) && directory_of_pairs(ps)
            is Some),
        r matches Some(d) ==> d.wf() && Some(d@) == directory_of_pairs(
            pairs_of_tokens(token_views(ts@))->0,
        ),
{
    let ghost views = token_views(ts@);
    if ts.len() < 6 {
        return None;
    }
    if !punct_at(ts, 0, '{') || !name_at(ts, 1, "files") || !punct_at(ts, 2, ':') || !punct_at(
        ts,
        3,
        '{',
    ) {
        proof {
            if views.subrange(0, 4) == directory_head() {
                assert(views[0] == views.subrange(0, 4)[0]);
                assert(views[1] == views.subrange(0, 4)[1]);
                assert(views[2] == views.subrange(0, 4)[2]);
                assert(views[3] == views.subrange(0, 4)[3]);
            }
        }
        return None;
    }
    assert(views.subrange(0, 4) =~= directory_head());
    let mut dir = Directory::new();
    if ts.len() == 6 {
        if punct_at(ts, 4, '}') && punct_at(ts, 5, '}') {
            assert(map_of_pairs(Seq::<(Seq<char>, Seq<char>)>::empty()) =~= dir@);
            return Some(dir);
        }
        return None;
    }
    let ghost mut parsed: Seq<(Seq<char>, Seq<char>)> = Seq::empty();
    let mut i: usize = 4;
    loop
        invariant
            views == token_views(ts@),
            i <= ts.len(),
            pairs_of_tokens(views) == glue_pairs(parsed, entries_from(views, i as int)),
            dir.wf(),
            dir@ == map_of_pairs(parsed),
            paths_distinct(parsed),
            hashes_valid(parsed),
        decreases ts.len() - i,
    {
        let (p, h, next) = match read_entry(ts, i) {
            Some(found) => found,
            None => {
                return None;
            },
        };
        let path = match token_text(ts, p) {
            Some(s) => s,
            None => {
                return None;
            },
        };
        let hash_text = match token_text(ts, h) {
            Some(s) => s,
            None => {
                return None;
            },
        };
        let ghost e = (path@, hash_text@);
        let ghost longer = parsed.push(e);
        let last = next == ts.len() - 2 && punct_at(ts, next, '}') && punct_at(ts, next + 1, '}');
        let more = !last && next < ts.len() && punct_at(ts, next, ',');
        if !last && !more {
            return None;
        }
        proof {
            let tail = if last {
                Some(Seq::<(Seq<char>, Seq<char>)>::empty())
            } else {
                entries_from(views, next + 1)
            };
            assert(entries_from(views, i as int) == glue_pairs(seq![e], tail));
            if tail is Some {
                assert(parsed + (seq![e] + tail->0) =~= longer + tail->0);
                let all = longer + tail->0;
                assert(all[parsed.len() as int] == e);
                if !is_hash_text(hash_text@) {
                    assert(!hashes_valid(all));
                }
                if has_path(parsed, path@) {
                    let w = choose|w: int| 0 <= w < parsed.len() && (#[trigger] parsed[w]).0 == path@;
                    assert(all[w] == parsed[w]);
                    assert(!paths_distinct(all));
                }
            }
            assert(pairs_of_tokens(views) == glue_pairs(longer, tail));
            lemma_map_of_pairs_domain(parsed, path@);
            assert(longer.drop_last() =~= parsed);
        }
        let hash = match strict_hash(hash_text) {
            Some(x) => x,
            None => {
                return None;
            },
        };
        if dir.contains_file_ref(path) {
            return None;
        }
        dir.insert_file_ref(path, BlobRef::new(hash));
        proof {
            assert forall|a: int, b: int| 0 <= a < b < longer.len() implies (#[trigger] longer[a]).0
                != (#[trigger] longer[b]).0 by {
                if b == parsed.len() {
                    assert(longer[a] == parsed[a]);
                } else {
                    assert(longer[a] == parsed[a] && longer[b] == parsed[b]);
                }
            }
            assert forall|a: int| 0 <= a < longer.len() implies is_hash_text(
                (#[trigger] longer[a]).1,
            ) by {
                if a < parsed.len() {
                    assert(longer[a] == parsed[a]);
                }
            }
            parsed = longer;
        }
        if last {
            assert(parsed + Seq::<(Seq<char>, Seq<char>)>::empty() =~= parsed);
            return Some(dir);
        }
        i = next + 1;
    }
}

/// Reads a directory from a stored form.
pub fn decode_directory(bytes: &[u8]) -> (r: Option<Directory>)
    ensures
        r is Some <==> directory_of_bytes(bytes@) is Some,
        r matches Some(d) ==> d.wf() && directory_of_bytes(bytes@) == Some(d@),
{
    let text = match text_of_utf8(slice_to_vec(bytes)) {
        Some(t) => t,
        None => {
            return None;
        },
    };
    let chars = chars_of(text.as_str());
    let tokens = match tokenize(&chars) {
        Some(ts) => ts,
        None => {
            return None;
        },
    };
    directory_of_tokens(&tokens)
}

} // verus!
