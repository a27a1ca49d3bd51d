//! What the command line shows of tokens: a raw listing of ids and escaped
//! texts, and the texts on alternating background colours.

use vstd::prelude::*;

use crate::bpe::{token_text, Bpe};
use crate::text::{char_string, text_chars};

verus! {

broadcast use vstd::string::group_string_axioms;

/// The character of a decimal digit.
pub open spec fn digit_char(d: nat) -> char {
    if d == 0 {
        '0'
    } else if d == 1 {
        '1'
    } else if d == 2 {
        '2'
    } else if d == 3 {
        '3'
    } else if d == 4 {
        '4'
    } else if d == 5 {
        '5'
    } else if d == 6 {
        '6'
    } else if d == 7 {
        '7'
    } else if d == 8 {
        '8'
    } else {
        '9'
    }
}

/// `n` in decimal, without leading zeros.
pub open spec fn decimal(n: nat) -> Seq<char>
    decreases n,
{
    if n < 10 {
        seq![digit_char(n)]
    } else {
        decimal(n / 10) + seq![digit_char(n % 10)]
    }
}

/// Whether `c` is one of the characters `0` to `9`.
pub open spec fn is_digit(c: char) -> bool {
    48 <= c as u32 && c as u32 <= 57
}

/// The number that a string of decimal digits reads as, most significant
/// digit first.
pub open spec fn digits_value(s: Seq<char>) -> nat
    decreases s.len(),
{
    if s.len() == 0 {
        0
    } else {
        (digits_value(s.drop_last()) * 10 + (s.last() as u32 - 48)) as nat
    }
}

/// `decimal(n)` is the usual decimal numeral of `n`: it is made of digits
/// only, starts with `0` only when `n` is 0, and reads back as `n`.
pub proof fn lemma_decimal_numeral(n: nat)
    ensures
        decimal(n).len() >= 1,
        forall|i: int| 0 <= i < decimal(n).len() ==> is_digit(#[trigger] decimal(n)[i]),
        decimal(n)[0] != '0' || n == 0,
        digits_value(decimal(n)) == n,
    decreases n,
{
    if n < 10 {
        let d = decimal(n);
        assert(d.drop_last() =~= Seq::<char>::empty());
        assert(n == 0 || n == 1 || n == 2 || n == 3 || n == 4 || n == 5 || n == 6 || n == 7 || n == 8
            || n == 9);
        assert(digit_char(n) as u32 - 48 == n);
        assert(d.last() == digit_char(n));
        assert(digits_value(d.drop_last()) == 0);
        assert(digits_value(d) == n);
    } else {
        let q = n / 10;
        let r = n % 10;
        lemma_decimal_numeral(q);
        let d = decimal(n);
        let dq = decimal(q);
        assert(d == dq + seq![digit_char(r)]);
        assert(d.drop_last() =~= dq);
        assert(r == 0 || r == 1 || r == 2 || r == 3 || r == 4 || r == 5 || r == 6 || r == 7 || r == 8
            || r == 9);
        assert(digit_char(r) as u32 - 48 == r);
        assert(d.last() == digit_char(r));
        assert(digits_value(d) == digits_value(dq) * 10 + r);
        assert(d[0] == dq[0]);
        assert forall|i: int| 0 <= i < d.len() implies is_digit(#[trigger] d[i]) by {
            if i < dq.len() {
                assert(d[i] == dq[i]);
            }
        }
        assert(q * 10 + r == n);
        assert(digits_value(d) == n);
    }
}

fn digit_of(d: u32) -> (c: char)
    requires
        d < 10,
    ensures
        c == digit_char(d as nat),
{
    match d {
        0 => '0',
        1 => '1',
        2 => '2',
        3 => '3',
        4 => '4',
        5 => '5',
        6 => '6',
        7 => '7',
        8 => '8',
        _ => '9',
    }
}

/// `n` written in decimal.
pub fn decimal_string(n: u32) -> (s: String)
    ensures
        s@ == decimal(n as nat),
    decreases n,
{
    if n < 10 {
        char_string(digit_of(n))
    } else {
        let mut s = decimal_string(n / 10);
        let last = char_string(digit_of(n % 10));
        s.append(last.as_str());
        s
    }
}

/// A character as the raw listing shows it: backslash, double quote,
/// newline, carriage return and tab get a backslash escape.
pub open spec fn escape_char(c: char) -> Seq<char> {
    if c == '\\' {
        seq!['\\', '\\']
    } else if c == '"' {
        seq!['\\', '"']
    } else if c == '\n' {
        seq!['\\', 'n']
    } else if c == '\r' {
        seq!['\\', 'r']
    } else if c == '\t' {
        seq!['\\', 't']
    } else {
        seq![c]
    }
}

/// Every character of `s` escaped.
pub open spec fn escape(s: Seq<char>) -> Seq<char>
    decreases s.len(),
{
    if s.len() == 0 {
        seq![]
    } else {
        escape(s.drop_last()) + escape_char(s.last())
    }
}

fn escape_piece(c: char) -> (s: String)
    ensures
        s@ == escape_char(c),
{
    if c == '\\' {
        let two = char_string('\\');
        let mut s = char_string('\\');
        s.append(two.as_str());
        s
    } else if c == '"' {
        let q = char_string('"');
        let mut s = char_string('\\');
        s.append(q.as_str());
        s
    } else if c == '\n' {
        let n = char_string('n');
        let mut s = char_string('\\');
        s.append(n.as_str());
        s
    } else if c == '\r' {
        let r = char_string('r');
        let mut s = char_string('\\');
        s.append(r.as_str());
        s
    } else if c == '\t' {
        let t = char_string('t');
        let mut s = char_string('\\');
        s.append(t.as_str());
        s
    } else {
        char_string(c)
    }
}

/// `text` with every character escaped for the raw listing.
pub fn escape_text(text: &str) -> (s: String)
    ensures
        s@ == escape(text@),
{
    let chars = text_chars(text);
    let mut out = String::new();
    for i in 0..chars.len()
        invariant
            chars@ == text@,
            out@ == escape(text@.take(i as int)),
    {
        let piece = escape_piece(chars[i]);
        out.append(piece.as_str());
        assert(text@.take(i + 1).drop_last() =~= text@.take(i as int));
    }
    assert(text@.take(chars@.len() as int) =~= text@);
    out
}

/// One token of the raw listing: its id, a colon, its escaped text in double quotes.
pub open spec fn raw_item(vocab: Map<u32, Seq<char>>, id: u32) -> Seq<char> {
    decimal(id as nat) + seq![':', '"'] + escape(token_text(vocab, id)) + seq!['"']
}

/// The raw listing: the items of `tokens` separated by single spaces.
pub open spec fn raw_listing(vocab: Map<u32, Seq<char>>, tokens: Seq<u32>) -> Seq<char>
    decreases tokens.len(),
{
    if tokens.len() == 0 {
        seq![]
    } else if tokens.len() == 1 {
        raw_item(vocab, tokens[0])
    } else {
        raw_listing(vocab, tokens.drop_last()) + seq![' '] + raw_item(vocab, tokens.last())
    }
}

/// The background colour of the token at index `i`: six colours in turn.
pub open spec fn background(i: nat) -> Seq<char> {
    let k = i % 6;
    if k == 0 {
        "\x1b[48;2;255;213;183m"@
    } else if k == 1 {
        "\x1b[48;2;183;247;195m"@
    } else if k == 2 {
        "\x1b[48;2;183;220;255m"@
    } else if k == 3 {
        "\x1b[48;2;255;183;227m"@
    } else if k == 4 {
        "\x1b[48;2;220;195;255m"@
    } else {
        "\x1b[48;2;255;245;183m"@
    }
}

/// The foreground colour of every token: black.
pub open spec fn foreground() -> Seq<char> {
    "\x1b[38;2;0;0;0m"@
}

/// The code that ends a coloured token.
pub open spec fn reset() -> Seq<char> {
    "\x1b[0m"@
}

/// A token's text with every newline shown as a return arrow before it.
pub open spec fn show_newlines(s: Seq<char>) -> Seq<char>
    decreases s.len(),
{
    if s.len() == 0 {
        seq![]
    } else {
        show_newlines(s.drop_last()) + if s.last() == '\n' {
            seq!['\u{21b5}', '\n']
        } else {
            seq![s.last()]
        }
    }
}

/// The tokens from index `start` on, each in its colours.
pub open spec fn colored_from(vocab: Map<u32, Seq<char>>, tokens: Seq<u32>, start: nat) -> Seq<char>
    decreases tokens.len(),
{
    if tokens.len() == 0 {
        seq![]
    } else {
        colored_from(vocab, tokens.drop_last(), start) + background(
            (start + tokens.len() - 1) as nat,
        ) + foreground() + show_newlines(token_text(vocab, tokens.last())) + reset()
    }
}

fn background_of(i: usize) -> (s: &'static str)
    ensures
        s@ == background(i as nat),
{
    let k = i % 6;
    if k == 0 {
        "\x1b[48;2;255;213;183m"
    } else if k == 1 {
        "\x1b[48;2;183;247;195m"
    } else if k == 2 {
        "\x1b[48;2;183;220;255m"
    } else if k == 3 {
        "\x1b[48;2;255;183;227m"
    } else if k == 4 {
        "\x1b[48;2;220;195;255m"
    } else {
        "\x1b[48;2;255;245;183m"
    }
}

fn newlines_shown(text: &str) -> (s: String)
    ensures
        s@ == show_newlines(text@),
{
    let chars = text_chars(text);
    let mut out = String::new();
    for i in 0..chars.len()
        invariant
            chars@ == text@,
            out@ == show_newlines(text@.take(i as int)),
    {
        let c = chars[i];
        if c == '\n' {
            let arrow = char_string('\u{21b5}');
            out.append(arrow.as_str());
        }
        let piece = char_string(c);
        out.append(piece.as_str());
        assert(text@.take(i + 1).drop_last() =~= text@.take(i as int));
    }
    assert(text@.take(chars@.len() as int) =~= text@);
    out
}

impl Bpe {
    /// The raw listing of `tokens`: for each, its id, a colon and its text
    /// escaped in double quotes, separated by spaces.
    pub fn raw_listing(&self, tokens: &[u32]) -> (s: String)
        ensures
            s@ == raw_listing(self.vocab_view(), tokens@),
    {
        let mut out = String::new();
        for i in 0..tokens.len()
            invariant
                out@ == raw_listing(self.vocab_view(), tokens@.take(i as int)),
        {
            if i > 0 {
                let space = char_string(' ');
                out.append(space.as_str());
            }
            let id = tokens[i];
            let number = decimal_string(id);
            let colon = char_string(':');
            let quote = char_string('"');
            let text = self.token_str(id);
            let escaped = escape_text(text.as_str());
            out.append(number.as_str());
            out.append(colon.as_str());
            out.append(quote.as_str());
            out.append(escaped.as_str());
            out.append(quote.as_str());
            proof {
                let prefix = tokens@.take(i as int);
                assert(tokens@.take(i + 1).drop_last() =~= prefix);
                if i == 0 {
                    assert(out@ =~= raw_item(self.vocab_view(), id));
                } else {
                    assert(out@ =~= raw_listing(self.vocab_view(), prefix) + seq![' '] + raw_item(
                        self.vocab_view(),
                        id,
                    ));
                }
            }
        }
        assert(tokens@.take(tokens@.len() as int) =~= tokens@);
        out
    }

    /// `tokens` with their texts shown on background colours that cycle
    /// through six, in black, newlines marked with a return arrow.
    pub fn colored(&self, tokens: &[u32]) -> (s: String)
        ensures
            s@ == colored_from(self.vocab_view(), tokens@, 0),
    {
        let mut out = String::new();
        for i in 0..tokens.len()
            invariant
                out@ == colored_from(self.vocab_view(), tokens@.take(i as int), 0),
        {
            let text = self.token_str(tokens[i]);
            let shown = newlines_shown(text.as_str());
            out.append(background_of(i));
            out.append("\x1b[38;2;0;0;0m");
            out.append(shown.as_str());
            out.append("\x1b[0m");
            proof {
                assert(tokens@.take(i + 1).drop_last() =~= tokens@.take(i as int));
            }
        }
        assert(tokens@.take(tokens@.len() as int) =~= tokens@);
        out
    }
}

} // verus!
